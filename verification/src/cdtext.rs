//! CD-Text stream (`CDTEXT.BIN`) — the optional lead-in text of a Red
//! Book disc, as a raw sequence of 18-byte packs.
//!
//! Pack layout: type (0x80 title, 0x81 performer, 0x8E UPC/ISRC, 0x8F
//! size info), track number, sequence number, flags (DBCS bit, block
//! number, character position), 12 text bytes, CRC-16 (polynomial
//! x^16+x^12+x^5+1, result inverted, big-endian). Strings are
//! NUL-terminated Latin-1, packed back-to-back across consecutive packs
//! of the same type; track 0 holds the album-level value.

use vstd::prelude::*;
use crate::ddp::{Disc, Track};
use crate::text::{chars_of, is_whitespace, trim, trim_chars};

verus! {

broadcast use vstd::string::group_string_axioms;

pub const PACK_LEN: usize = 18;
pub const TEXT_LEN: usize = 12;
/// EBU language code for English (block 0's declared language).
pub const LANG_ENGLISH: u8 = 0x09;

// ---------------------------------------------------------------------------
// CRC-16 (CCITT polynomial, init 0, no reflection).

pub open spec fn crc_shift(c: u16) -> u16 {
    if c & 0x8000u16 != 0 {
        ((c << 1u16) ^ 0x1021u16) as u16
    } else {
        (c << 1u16) as u16
    }
}

pub open spec fn crc_shifts(c: u16, k: nat) -> u16
    decreases k,
{
    if k == 0 {
        c
    } else {
        crc_shifts(crc_shift(c), (k - 1) as nat)
    }
}

/// The register after feeding one byte.
pub open spec fn crc_update(c: u16, b: u8) -> u16 {
    crc_shifts(c ^ (((b as u16) << 8u16) as u16), 8)
}

/// CRC-16 of `data`.
pub open spec fn spec_crc16(data: Seq<u8>) -> u16
    decreases data.len(),
{
    if data.len() == 0 {
        0
    } else {
        crc_update(spec_crc16(data.drop_last()), data.last())
    }
}

/// CRC-16, polynomial x^16+x^12+x^5+1, init 0, no reflection — the
/// CD-Text field stores the complement, big-endian.
pub fn crc16(data: &[u8]) -> (r: u16)
    ensures
        r == spec_crc16(data@),
{
    let mut crc: u16 = 0;
    let mut i: usize = 0;
    while i < data.len()
        invariant
            i <= data@.len(),
            crc == spec_crc16(data@.take(i as int)),
        decreases data@.len() - i,
    {
        let b = data[i];
        let ghost start = crc ^ (((b as u16) << 8u16) as u16);
        crc ^= (b as u16) << 8;
        let mut k: usize = 0;
        while k < 8
            invariant
                k <= 8,
                crc_shifts(crc, (8 - k) as nat) == crc_shifts(start, 8),
            decreases 8 - k,
        {
            crc = if crc & 0x8000 != 0 {
                (crc << 1) ^ 0x1021
            } else {
                crc << 1
            };
            k += 1;
        }
        assert(data@.take(i + 1).drop_last() == data@.take(i as int));
        i += 1;
    }
    assert(data@.take(data@.len() as int) == data@);
    crc
}

// ---------------------------------------------------------------------------
// Latin-1.

pub open spec fn latin1_byte(c: char) -> u8 {
    if (' ' <= c && c <= '~') || ('\u{a0}' <= c && c <= '\u{ff}') {
        c as u8
    } else {
        95u8
    }
}

/// Latin-1 encoding with '_' for anything outside the charset.
pub open spec fn spec_latin1(s: Seq<char>) -> Seq<u8> {
    s.map_values(|c: char| latin1_byte(c))
}

fn latin1_chars(s: &[char]) -> (r: Vec<u8>)
    ensures
        r@ == spec_latin1(s@),
{
    let mut out: Vec<u8> = Vec::new();
    let mut i: usize = 0;
    while i < s.len()
        invariant
            i <= s@.len(),
            out@ == spec_latin1(s@.take(i as int)),
        decreases s@.len() - i,
    {
        let c = s[i];
        out.push(
            if (' ' <= c && c <= '~') || ('\u{a0}' <= c && c <= '\u{ff}') {
                c as u8
            } else {
                95u8
            },
        );
        i += 1;
        assert(spec_latin1(s@.take(i as int)) =~= spec_latin1(s@.take(i - 1)).push(
            latin1_byte(s@[i - 1]),
        ));
    }
    assert(s@.take(s@.len() as int) == s@);
    out
}

/// Latin-1 encoding with '_' for anything outside the charset.
pub fn latin1(s: &str) -> (r: Vec<u8>)
    ensures
        r@ == spec_latin1(s@),
{
    latin1_chars(chars_of(s).as_slice())
}

// ---------------------------------------------------------------------------
// Text packs.

/// One pack before serialization.
pub struct Pack {
    pub pack_type: u8,
    pub track: u8,
    /// Character position of the pack's first byte within its string
    /// (capped at 15), or the element number for size-info packs.
    pub char_pos: u8,
    pub text: [u8; 12],
}

/// (type, track, char_pos, text) of a pack.
pub open spec fn pack_view(p: Pack) -> (u8, u8, u8, Seq<u8>) {
    (p.pack_type, p.track, p.char_pos, p.text@)
}

/// The bytes of one NUL-terminated string, each with its character
/// position (capped at 15) and track.
pub open spec fn string_cells(track: u8, text: Seq<u8>) -> Seq<(u8, u8, u8)> {
    Seq::new(
        text.len() + 1,
        |i: int|
            (
                if i < text.len() {
                    text[i]
                } else {
                    0u8
                },
                if i < 15 {
                    i as u8
                } else {
                    15u8
                },
                track,
            ),
    )
}

/// The back-to-back concatenation of the strings.
pub open spec fn cells(strings: Seq<(u8, Seq<u8>)>) -> Seq<(u8, u8, u8)>
    decreases strings.len(),
{
    if strings.len() == 0 {
        seq![]
    } else {
        cells(strings.drop_last()) + string_cells(strings.last().0, strings.last().1)
    }
}

/// The packs the cells split into: 12 bytes each, zero-padded; a pack
/// carries the track and character position of its first byte.
pub open spec fn spec_text_packs(pack_type: u8, strings: Seq<(u8, Seq<u8>)>) -> Seq<
    (u8, u8, u8, Seq<u8>),
> {
    let c = cells(strings);
    Seq::new(
        ((c.len() + 11) / 12) as nat,
        |j: int|
            (
                pack_type,
                c[12 * j].2,
                c[12 * j].1,
                Seq::new(
                    12,
                    |i: int|
                        if 12 * j + i < c.len() {
                            c[12 * j + i].0
                        } else {
                            0u8
                        },
                ),
            ),
    )
}

fn push_cells(out: &mut Vec<(u8, u8, u8)>, track: u8, text: &[u8])
    ensures
        final(out)@ == old(out)@ + string_cells(track, text@),
{
    let mut i: usize = 0;
    while i <= text.len()
        invariant
            i <= text@.len() + 1,
            out@ == old(out)@ + string_cells(track, text@).take(i as int),
        decreases text@.len() + 1 - i,
    {
        let b = if i < text.len() {
            text[i]
        } else {
            0u8
        };
        let pos: u8 = if i < 15 {
            i as u8
        } else {
            15
        };
        out.push((b, pos, track));
        assert(string_cells(track, text@).take(i + 1) =~= string_cells(track, text@).take(
            i as int,
        ).push((b, pos, track)));
        if i == text.len() {
            assert(string_cells(track, text@).take(i + 1) =~= string_cells(track, text@));
            return;
        }
        i += 1;
    }
}

/// Split the NUL-terminated concatenation of `(track, text)` strings
/// into 12-byte packs of `pack_type`.
pub fn text_packs(pack_type: u8, strings: &Vec<(u8, Vec<u8>)>) -> (r: Vec<Pack>)
    ensures
        r@.map_values(|p: Pack| pack_view(p)) == spec_text_packs(
            pack_type,
            strings@.map_values(|s: (u8, Vec<u8>)| (s.0, s.1@)),
        ),
{
    let ghost sv = strings@.map_values(|s: (u8, Vec<u8>)| (s.0, s.1@));
    let mut bytes: Vec<(u8, u8, u8)> = Vec::new();
    let mut k: usize = 0;
    while k < strings.len()
        invariant
            k <= strings@.len(),
            sv == strings@.map_values(|s: (u8, Vec<u8>)| (s.0, s.1@)),
            bytes@ == cells(sv.take(k as int)),
        decreases strings@.len() - k,
    {
        push_cells(&mut bytes, strings[k].0, strings[k].1.as_slice());
        assert(sv.take(k + 1).drop_last() =~= sv.take(k as int));
        k += 1;
    }
    assert(sv.take(strings@.len() as int) =~= sv);
    let ghost c = bytes@;
    let mut packs: Vec<Pack> = Vec::new();
    let mut start: usize = 0;
    let n = bytes.len();
    while start < n
        invariant
            start <= n,
            start < n ==> start % 12 == 0,
            n == c.len(),
            bytes@ == c,
            c == cells(sv),
            start < n ==> packs@.len() == start / 12,
            start == n ==> packs@.len() == (n + 11) / 12,
            forall|j: int|
                0 <= j < packs@.len() ==> pack_view(#[trigger] packs@[j]) == spec_text_packs(
                    pack_type,
                    sv,
                )[j],
        decreases n - start,
    {
        let rem = n - start;
        let mut text = [0u8; 12];
        let mut i: usize = 0;
        while i < 12
            invariant
                i <= 12,
                start < n,
                rem == n - start,
                n == c.len(),
                bytes@ == c,
                text@.len() == 12,
                forall|t: int|
                    0 <= t < i ==> text@[t] == (if start + t < n {
                        c[start + t].0
                    } else {
                        0u8
                    }),
                forall|t: int| i <= t < 12 ==> text@[t] == 0u8,
            decreases 12 - i,
        {
            if i < rem {
                text[i] = bytes[start + i].0;
            }
            i += 1;
        }
        let first = bytes[start];
        let p = Pack { pack_type, track: first.2, char_pos: first.1, text };
        proof {
            let j = (start / 12) as int;
            assert(12 * j == start);
            assert(text@ =~= spec_text_packs(pack_type, sv)[j].3);
        }
        packs.push(p);
        if rem <= 12 {
            start = n;
        } else {
            start += 12;
        }
    }
    assert(packs@.map_values(|p: Pack| pack_view(p)) =~= spec_text_packs(pack_type, sv));
    packs
}

// ---------------------------------------------------------------------------
// The stream.

/// Whether the disc carries any CD-Text worth writing.
pub open spec fn spec_has_text(disc: Disc) -> bool {
    ||| trim(disc.title@).len() > 0
    ||| trim(disc.performer@).len() > 0
    ||| exists|i: int| 0 <= i < disc.tracks@.len() && trim((#[trigger] disc.tracks@[i]).title@).len() > 0
}

/// Whether the disc carries any CD-Text worth writing.
pub fn has_text(disc: &Disc) -> (b: bool)
    ensures
        b == spec_has_text(*disc),
{
    if trim_chars(chars_of(disc.title.as_str()).as_slice()).len() > 0 {
        return true;
    }
    if trim_chars(chars_of(disc.performer.as_str()).as_slice()).len() > 0 {
        return true;
    }
    let mut i: usize = 0;
    while i < disc.tracks.len()
        invariant
            i <= disc.tracks@.len(),
            forall|j: int| 0 <= j < i ==> trim((#[trigger] disc.tracks@[j]).title@).len() == 0,
        decreases disc.tracks@.len() - i,
    {
        if trim_chars(chars_of(disc.tracks[i].title.as_str()).as_slice()).len() > 0 {
            return true;
        }
        i += 1;
    }
    false
}

/// Track number as the one-byte pack field (truncating, as `as u8`).
pub open spec fn track_byte(n: u32) -> u8 {
    (n % 256) as u8
}

/// (track, Latin-1 text) of the album title then every track title.
pub open spec fn spec_titles(disc: Disc) -> Seq<(u8, Seq<u8>)> {
    seq![(0u8, spec_latin1(trim(disc.title@)))] + Seq::new(
        disc.tracks@.len(),
        |i: int| (track_byte(disc.tracks@[i].number), spec_latin1(trim(disc.tracks@[i].title@))),
    )
}

/// The album performer, replicated per track.
pub open spec fn spec_performers(disc: Disc) -> Seq<(u8, Seq<u8>)> {
    let perf = spec_latin1(trim(disc.performer@));
    seq![(0u8, perf)] + Seq::new(
        disc.tracks@.len(),
        |i: int| (track_byte(disc.tracks@[i].number), perf),
    )
}

pub open spec fn opt_text(o: Option<String>) -> Seq<char> {
    match o {
        Some(s) => s@,
        None => seq![],
    }
}

/// The UPC/EAN (track 0) then every track's ISRC ("" when absent).
pub open spec fn spec_codes(disc: Disc) -> Seq<(u8, Seq<u8>)> {
    seq![(0u8, spec_latin1(opt_text(disc.ean)))] + Seq::new(
        disc.tracks@.len(),
        |i: int|
            (track_byte(disc.tracks@[i].number), spec_latin1(opt_text(disc.tracks@[i].isrc))),
    )
}

/// Codes are written when the disc has a UPC/EAN or any track an ISRC.
pub open spec fn has_codes(disc: Disc) -> bool {
    disc.ean is Some || exists|i: int|
        0 <= i < disc.tracks@.len() && (#[trigger] disc.tracks@[i]).isrc is Some
}

pub open spec fn code_packs(disc: Disc) -> Seq<(u8, u8, u8, Seq<u8>)> {
    if has_codes(disc) {
        spec_text_packs(0x8E, spec_codes(disc))
    } else {
        seq![]
    }
}

/// Title, performer and code packs, in that order.
pub open spec fn spec_text_part(disc: Disc) -> Seq<(u8, u8, u8, Seq<u8>)> {
    spec_text_packs(0x80, spec_titles(disc)) + spec_text_packs(0x81, spec_performers(disc))
        + code_packs(disc)
}

/// The largest track number (0 without tracks).
pub open spec fn max_number(tracks: Seq<Track>, n: int) -> nat
    decreases n,
{
    if n <= 0 {
        0
    } else if tracks[n - 1].number > max_number(tracks, n - 1) {
        tracks[n - 1].number as nat
    } else {
        max_number(tracks, n - 1)
    }
}

/// The 36-byte size-information payload: character code ISO 8859-1,
/// first track 1, last track, the pack count of each type (0x80..0x8F,
/// the three size packs included), the last sequence number of block 0,
/// and block 0's language (English).
pub open spec fn spec_size_info(disc: Disc) -> Seq<u8> {
    let t = spec_text_part(disc);
    let total = t.len() + 3;
    let n80 = spec_text_packs(0x80, spec_titles(disc)).len();
    let n81 = spec_text_packs(0x81, spec_performers(disc)).len();
    let n8e = code_packs(disc).len();
    Seq::new(
        36,
        |i: int|
            if i == 1 {
                1u8
            } else if i == 2 {
                (max_number(disc.tracks@, disc.tracks@.len() as int) % 256) as u8
            } else if i == 4 {
                n80 as u8
            } else if i == 5 {
                n81 as u8
            } else if i == 18 {
                n8e as u8
            } else if i == 19 {
                3u8
            } else if i == 20 {
                ((total - 1) % 256) as u8
            } else if i == 28 {
                LANG_ENGLISH
            } else {
                0u8
            },
    )
}

/// Every pack of the block: text packs then the three size packs.
pub open spec fn spec_all_packs(disc: Disc) -> Seq<(u8, u8, u8, Seq<u8>)> {
    let info = spec_size_info(disc);
    spec_text_part(disc) + Seq::new(
        3,
        |i: int| (0x8Fu8, i as u8, 0u8, info.subrange(12 * i, 12 * i + 12)),
    )
}

/// The first 16 bytes of a serialized pack.
pub open spec fn pack_head(p: (u8, u8, u8, Seq<u8>), seq: nat) -> Seq<u8> {
    seq![p.0, p.1, (seq % 256) as u8, p.2 % 16] + p.3
}

/// A serialized pack: header, text, inverted CRC-16 big-endian.
pub open spec fn serialize_pack(p: (u8, u8, u8, Seq<u8>), seq: nat) -> Seq<u8> {
    let crc = (0xFFFF - spec_crc16(pack_head(p, seq))) as nat;
    pack_head(p, seq) + seq![(crc / 256) as u8, (crc % 256) as u8]
}

/// Serialized packs with consecutive sequence numbers.
pub open spec fn serialize_all(packs: Seq<(u8, u8, u8, Seq<u8>)>, n: int) -> Seq<u8>
    decreases n,
{
    if n <= 0 {
        seq![]
    } else {
        serialize_all(packs, n - 1) + serialize_pack(packs[n - 1], (n - 1) as nat)
    }
}

/// The full CD-Text stream of a disc.
pub open spec fn spec_cdtext_stream(disc: Disc) -> Seq<u8> {
    let packs = spec_all_packs(disc);
    serialize_all(packs, packs.len() as int)
}

/// Each pack type fits the one-byte pack counts.
pub open spec fn counts_fit(disc: Disc) -> bool {
    &&& spec_text_packs(0x80, spec_titles(disc)).len() <= 255
    &&& spec_text_packs(0x81, spec_performers(disc)).len() <= 255
    &&& code_packs(disc).len() <= 255
}

fn trimmed_latin1(s: &str) -> (r: Vec<u8>)
    ensures
        r@ == spec_latin1(trim(s@)),
{
    latin1_chars(trim_chars(chars_of(s).as_slice()).as_slice())
}

fn opt_latin1(o: &Option<String>) -> (r: Vec<u8>)
    ensures
        r@ == spec_latin1(opt_text(*o)),
{
    match o {
        Some(s) => latin1(s.as_str()),
        None => {
            let v: Vec<u8> = Vec::new();
            assert(v@ =~= spec_latin1(Seq::<char>::empty()));
            v
        },
    }
}

spec fn strings_view(v: Seq<(u8, Vec<u8>)>) -> Seq<(u8, Seq<u8>)> {
    v.map_values(|s: (u8, Vec<u8>)| (s.0, s.1@))
}

fn collect_strings(disc: &Disc, which: u8) -> (r: Vec<(u8, Vec<u8>)>)
    requires
        which < 3,
    ensures
        which == 0 ==> strings_view(r@) == spec_titles(*disc),
        which == 1 ==> strings_view(r@) == spec_performers(*disc),
        which == 2 ==> strings_view(r@) == spec_codes(*disc),
{
    let perf = trimmed_latin1(disc.performer.as_str());
    let first = if which == 0 {
        trimmed_latin1(disc.title.as_str())
    } else if which == 1 {
        trimmed_latin1(disc.performer.as_str())
    } else {
        opt_latin1(&disc.ean)
    };
    let mut out: Vec<(u8, Vec<u8>)> = Vec::new();
    out.push((0u8, first));
    let ghost want = if which == 0 {
        spec_titles(*disc)
    } else if which == 1 {
        spec_performers(*disc)
    } else {
        spec_codes(*disc)
    };
    let mut i: usize = 0;
    while i < disc.tracks.len()
        invariant
            i <= disc.tracks@.len(),
            which < 3,
            want == (if which == 0 {
                spec_titles(*disc)
            } else if which == 1 {
                spec_performers(*disc)
            } else {
                spec_codes(*disc)
            }),
            perf@ == spec_latin1(trim(disc.performer@)),
            strings_view(out@) == want.take(i + 1),
        decreases disc.tracks@.len() - i,
    {
        let t = &disc.tracks[i];
        let text = if which == 0 {
            trimmed_latin1(t.title.as_str())
        } else if which == 1 {
            let mut c: Vec<u8> = Vec::new();
            let mut k: usize = 0;
            while k < perf.len()
                invariant
                    k <= perf@.len(),
                    c@ == perf@.take(k as int),
                decreases perf@.len() - k,
            {
                c.push(perf[k]);
                k += 1;
                assert(perf@.take(k as int) == perf@.take(k - 1).push(perf@[k - 1]));
            }
            assert(perf@.take(perf@.len() as int) == perf@);
            c
        } else {
            opt_latin1(&t.isrc)
        };
        let tb = (t.number % 256) as u8;
        out.push((tb, text));
        assert(want.take(i + 2) =~= want.take(i + 1).push(want[i + 1]));
        assert(strings_view(out@) =~= strings_view(out@).drop_last().push((tb, text@)));
        i += 1;
    }
    assert(want.take(disc.tracks@.len() as int + 1) =~= want);
    out
}

fn has_codes_exec(disc: &Disc) -> (b: bool)
    ensures
        b == has_codes(*disc),
{
    if disc.ean.is_some() {
        return true;
    }
    let mut i: usize = 0;
    while i < disc.tracks.len()
        invariant
            i <= disc.tracks@.len(),
            disc.ean is None,
            forall|j: int| 0 <= j < i ==> (#[trigger] disc.tracks@[j]).isrc is None,
        decreases disc.tracks@.len() - i,
    {
        if disc.tracks[i].isrc.is_some() {
            return true;
        }
        i += 1;
    }
    false
}

fn max_track_number(tracks: &Vec<Track>) -> (r: u32)
    ensures
        r == max_number(tracks@, tracks@.len() as int),
{
    let mut best: u32 = 0;
    let mut i: usize = 0;
    while i < tracks.len()
        invariant
            i <= tracks@.len(),
            best == max_number(tracks@, i as int),
        decreases tracks@.len() - i,
    {
        if tracks[i].number > best {
            best = tracks[i].number;
        }
        i += 1;
    }
    best
}

proof fn lemma_pack_bits(crc: u16, cp: u8)
    ensures
        (!crc) as nat == 0xFFFF - crc as nat,
        ((!crc) >> 8u16) as u8 == ((0xFFFF - crc as nat) / 256) as u8,
        (!crc) as u8 == ((0xFFFF - crc as nat) % 256) as u8,
        cp & 0x0Fu8 == cp % 16,
{
    assert((!crc) as nat == 0xFFFF - crc as nat) by (bit_vector);
    assert(((!crc) >> 8u16) == (!crc) / 256) by (bit_vector);
    assert(((!crc) as u8) == (!crc) % 256) by (bit_vector);
    assert(cp & 0x0Fu8 == cp % 16) by (bit_vector);
}

fn serialize_one(out: &mut Vec<u8>, p: &Pack, seq: usize)
    ensures
        final(out)@ == old(out)@ + serialize_pack(pack_view(*p), seq as nat),
{
    let mut raw: Vec<u8> = Vec::new();
    raw.push(p.pack_type);
    raw.push(p.track);
    raw.push((seq % 256) as u8);
    raw.push(p.char_pos & 0x0F);
    let mut i: usize = 0;
    while i < 12
        invariant
            i <= 12,
            p.text@.len() == 12,
            raw@ == seq![p.pack_type, p.track, (seq % 256) as u8, p.char_pos & 0x0Fu8]
                + p.text@.take(i as int),
        decreases 12 - i,
    {
        raw.push(p.text[i]);
        i += 1;
        assert(p.text@.take(i as int) == p.text@.take(i - 1).push(p.text@[i - 1]));
    }
    let c = crc16(raw.as_slice());
    let inv = !c;
    proof {
        lemma_pack_bits(c, p.char_pos);
        assert(p.text@.take(12) == p.text@);
        assert(raw@ =~= pack_head(pack_view(*p), seq as nat));
    }
    let ghost before = out@;
    let mut k: usize = 0;
    while k < raw.len()
        invariant
            k <= raw@.len(),
            out@ == before + raw@.take(k as int),
        decreases raw@.len() - k,
    {
        out.push(raw[k]);
        k += 1;
        assert(raw@.take(k as int) == raw@.take(k - 1).push(raw@[k - 1]));
    }
    assert(raw@.take(raw@.len() as int) == raw@);
    out.push((inv >> 8) as u8);
    out.push(inv as u8);
    assert(out@ =~= before + serialize_pack(pack_view(*p), seq as nat));
}

fn append_packs(dst: &mut Vec<Pack>, src: Vec<Pack>)
    ensures
        final(dst)@.map_values(|p: Pack| pack_view(p)) == old(dst)@.map_values(
            |p: Pack| pack_view(p),
        ) + src@.map_values(|p: Pack| pack_view(p)),
{
    let ghost sv = src@;
    let mut src = src;
    dst.append(&mut src);
    assert(dst@.map_values(|p: Pack| pack_view(p)) =~= old(dst)@.map_values(
        |p: Pack| pack_view(p),
    ) + sv.map_values(|p: Pack| pack_view(p)));
}

/// Build the full CD-Text stream (block 0, English, Latin-1): titles,
/// performers, UPC/ISRC when present, and the 3 size-information packs.
pub fn cdtext_stream(disc: &Disc) -> (r: Vec<u8>)
    requires
        counts_fit(*disc),
    ensures
        r@ == spec_cdtext_stream(*disc),
{
    let titles = collect_strings(disc, 0);
    let t80 = text_packs(0x80, &titles);
    let n80 = t80.len();
    let mut packs: Vec<Pack> = Vec::new();
    append_packs(&mut packs, t80);
    let performers = collect_strings(disc, 1);
    let t81 = text_packs(0x81, &performers);
    let n81 = t81.len();
    append_packs(&mut packs, t81);
    let mut n8e: usize = 0;
    if has_codes_exec(disc) {
        let codes = collect_strings(disc, 2);
        let t8e = text_packs(0x8E, &codes);
        n8e = t8e.len();
        append_packs(&mut packs, t8e);
    }
    assert(packs@.map_values(|p: Pack| pack_view(p)) =~= spec_text_part(*disc));
    let total = packs.len() + 3;
    let last_track = max_track_number(&disc.tracks);
    let mut info: Vec<u8> = Vec::new();
    let mut i: usize = 0;
    while i < 36
        invariant
            i <= 36,
            info@.len() == i,
            forall|j: int| 0 <= j < i ==> info@[j] == spec_size_info(*disc)[j],
            n80 == spec_text_packs(0x80, spec_titles(*disc)).len(),
            n81 == spec_text_packs(0x81, spec_performers(*disc)).len(),
            n8e == code_packs(*disc).len(),
            counts_fit(*disc),
            total == spec_text_part(*disc).len() + 3,
            last_track == max_number(disc.tracks@, disc.tracks@.len() as int),
        decreases 36 - i,
    {
        let b: u8 = if i == 1 {
            1
        } else if i == 2 {
            (last_track % 256) as u8
        } else if i == 4 {
            n80 as u8
        } else if i == 5 {
            n81 as u8
        } else if i == 18 {
            n8e as u8
        } else if i == 19 {
            3
        } else if i == 20 {
            ((total - 1) % 256) as u8
        } else if i == 28 {
            LANG_ENGLISH
        } else {
            0
        };
        info.push(b);
        i += 1;
    }
    let mut e: usize = 0;
    while e < 3
        invariant
            e <= 3,
            info@.len() == 36,
            forall|j: int| 0 <= j < 36 ==> info@[j] == spec_size_info(*disc)[j],
            packs@.map_values(|p: Pack| pack_view(p)) == spec_all_packs(*disc).take(
                spec_text_part(*disc).len() + e,
            ),
        decreases 3 - e,
    {
        let mut text = [0u8; 12];
        let mut k: usize = 0;
        while k < 12
            invariant
                k <= 12,
                e < 3,
                info@.len() == 36,
                text@.len() == 12,
                forall|t: int| 0 <= t < k ==> text@[t] == info@[12 * e + t],
            decreases 12 - k,
        {
            text[k] = info[12 * e + k];
            k += 1;
        }
        let ghost old_packs = packs@.map_values(|p: Pack| pack_view(p));
        packs.push(Pack { pack_type: 0x8F, track: e as u8, char_pos: 0, text });
        proof {
            let all = spec_all_packs(*disc);
            let n = spec_text_part(*disc).len();
            assert(text@ =~= spec_size_info(*disc).subrange(12 * e as int, 12 * e + 12));
            assert(all[n + e] == (0x8Fu8, e as u8, 0u8, text@));
            assert(all.take(n + e + 1) =~= all.take(n + e).push(all[n + e]));
            assert(packs@.map_values(|p: Pack| pack_view(p)) =~= old_packs.push(
                pack_view(packs@[packs@.len() - 1]),
            ));
        }
        e += 1;
    }
    let ghost all = spec_all_packs(*disc);
    assert(all.take(all.len() as int) == all);
    let mut out: Vec<u8> = Vec::new();
    let mut s: usize = 0;
    while s < packs.len()
        invariant
            s <= packs@.len(),
            packs@.map_values(|p: Pack| pack_view(p)) == all,
            out@ == serialize_all(all, s as int),
        decreases packs@.len() - s,
    {
        serialize_one(&mut out, &packs[s], s);
        assert(pack_view(packs@[s as int]) == all[s as int]);
        s += 1;
    }
    out
}

} // verus!
