//! DDP 2.00 fileset metadata — the deliverable pressing plants ingest for
//! audio CD replication (Red Book).
//!
//! A fileset is a folder of flat files: `IMAGE.DAT` (the raw audio image
//! of 2352-byte sectors, the initial 150-sector pause included, so
//! absolute disc time equals byte position), `DDPID` (one 128-byte
//! identification packet), `DDPMS` (128-byte map packets: one `D0` audio
//! stream, one `S0` subcode stream), `PQDESCR` (64-byte PQ subcode
//! packets in absolute disc time, with ISRCs and the UPC/EAN), a
//! human-readable PQ sheet and `CHECKSUM.MD5`. All packet fields are
//! space-padded ASCII.

use vstd::prelude::*;
use vstd::utf8::encode_utf8;
use crate::vst3::{hex_chars, hex_of};
use crate::text::{
    chars_of, dec, dec_chars, dec_zero, extend_chars, extend_str, pad_left, push_dec_zero,
    push_padded, string_of,
};

verus! {

broadcast use vstd::string::group_string_axioms;

/// Sectors ("frames") per second on an audio CD.
pub const SECTORS_PER_SECOND: u64 = 75;
/// Bytes per audio sector: 588 stereo samples x 2 ch x 2 bytes.
pub const SECTOR_BYTES: u64 = 2352;
/// The mandatory pause before track 1 (2 seconds), included in the image.
pub const PAUSE_SECTORS: u64 = 150;

/// One track of the program area. Positions are program-relative
/// sectors: track 1 starts at 0; the initial pause is handled by the
/// writer.
#[derive(Debug, Clone)]
pub struct Track {
    /// 1-based track number (Red Book: 1..=99).
    pub number: u32,
    /// Display title (PQ sheet and CD-Text).
    pub title: String,
    /// First sector of this track's audio within the program area.
    pub start_sector: u64,
    /// Track length in sectors.
    pub length_sectors: u64,
    /// 12-character ISRC, already normalized.
    pub isrc: Option<String>,
    /// Album gap rendered before this track, in sectors.
    pub pregap_sectors: u64,
}

/// The disc description handed to the writer.
#[derive(Debug, Clone, Default)]
pub struct Disc {
    pub title: String,
    pub performer: String,
    /// 12/13-digit UPC/EAN, written to the DDPID and the PQ lead-in.
    pub ean: Option<String>,
    pub tracks: Vec<Track>,
}

/// End sector of a track (start + length).
pub open spec fn track_end(t: Track) -> nat {
    (t.start_sector + t.length_sectors) as nat
}

/// Program-area length of the first `n` tracks: the largest track end.
pub open spec fn program_of(tracks: Seq<Track>, n: int) -> nat
    decreases n,
{
    if n <= 0 {
        0
    } else {
        let rest = program_of(tracks, n - 1);
        if track_end(tracks[n - 1]) > rest {
            track_end(tracks[n - 1])
        } else {
            rest
        }
    }
}

/// Program-area length of a disc: end of the last-ending track.
pub open spec fn spec_program_sectors(tracks: Seq<Track>) -> nat {
    program_of(tracks, tracks.len() as int)
}

/// Every track end is representable.
pub open spec fn ends_fit(tracks: Seq<Track>) -> bool {
    forall|i: int| 0 <= i < tracks.len() ==> track_end(#[trigger] tracks[i]) <= u64::MAX
}

proof fn lemma_program_bound(tracks: Seq<Track>, n: int)
    requires
        0 <= n <= tracks.len(),
        ends_fit(tracks),
    ensures
        program_of(tracks, n) <= u64::MAX,
    decreases n,
{
    if n > 0 {
        lemma_program_bound(tracks, n - 1);
    }
}

impl Disc {
    /// Program-area length: end of the last track, in sectors.
    pub fn program_sectors(&self) -> (r: u64)
        requires
            ends_fit(self.tracks@),
        ensures
            r == spec_program_sectors(self.tracks@),
    {
        let mut best: u64 = 0;
        let mut i: usize = 0;
        while i < self.tracks.len()
            invariant
                i <= self.tracks@.len(),
                ends_fit(self.tracks@),
                best == program_of(self.tracks@, i as int),
            decreases self.tracks@.len() - i,
        {
            let t = &self.tracks[i];
            let e = t.start_sector + t.length_sectors;
            if e > best {
                best = e;
            }
            i += 1;
        }
        best
    }
}

impl Disc {
    /// Whether every track end, and the program with its lead-in pause,
    /// are representable (what writing the fileset needs).
    pub fn fits(&self) -> (b: bool)
        ensures
            b == disc_fits(*self),
    {
        let mut i: usize = 0;
        while i < self.tracks.len()
            invariant
                i <= self.tracks@.len(),
                forall|k: int| 0 <= k < i ==> track_end(#[trigger] self.tracks@[k]) <= u64::MAX,
            decreases self.tracks@.len() - i,
        {
            let t = &self.tracks[i];
            if t.length_sectors > u64::MAX - t.start_sector {
                return false;
            }
            i += 1;
        }
        let p = self.program_sectors();
        p <= u64::MAX - PAUSE_SECTORS
    }
}

/// Minutes, seconds and frames of an absolute sector count.
pub open spec fn spec_msf(sector: nat) -> (nat, nat, nat) {
    ((sector / 75) / 60, (sector / 75) % 60, sector % 75)
}

/// `mm:ss:ff` from an absolute sector count.
pub fn msf(sector: u64) -> (r: (u64, u64, u64))
    ensures
        r.0 == spec_msf(sector as nat).0,
        r.1 == spec_msf(sector as nat).1,
        r.2 == spec_msf(sector as nat).2,
{
    let s = sector / SECTORS_PER_SECOND;
    (s / 60, s % 60, sector % SECTORS_PER_SECOND)
}

// ---------------------------------------------------------------------------
// ISRC.

pub open spec fn is_ascii_alpha(c: char) -> bool {
    ('A' <= c && c <= 'Z') || ('a' <= c && c <= 'z')
}

pub open spec fn is_ascii_digit(c: char) -> bool {
    '0' <= c && c <= '9'
}

pub open spec fn is_ascii_alnum(c: char) -> bool {
    is_ascii_alpha(c) || is_ascii_digit(c)
}

pub open spec fn ascii_upper(c: char) -> char {
    if 'a' <= c && c <= 'z' {
        ((c as u32) - 32) as char
    } else {
        c
    }
}

/// The ASCII alphanumerics of `s`, uppercased.
pub open spec fn isrc_chars(s: Seq<char>) -> Seq<char>
    decreases s.len(),
{
    if s.len() == 0 {
        seq![]
    } else if is_ascii_alnum(s.last()) {
        isrc_chars(s.drop_last()).push(ascii_upper(s.last()))
    } else {
        isrc_chars(s.drop_last())
    }
}

/// The strict ISRC shape: 2 letters (country), 3 alphanumerics
/// (registrant), 2 digits (year), 5 digits (designation).
pub open spec fn isrc_shape(s: Seq<char>) -> bool {
    &&& s.len() == 12
    &&& forall|i: int| 0 <= i < 2 ==> is_ascii_alpha(#[trigger] s[i])
    &&& forall|i: int| 2 <= i < 5 ==> is_ascii_alnum(#[trigger] s[i])
    &&& forall|i: int| 5 <= i < 12 ==> is_ascii_digit(#[trigger] s[i])
}

/// The message refusing an ISRC.
pub open spec fn isrc_error(raw: Seq<char>) -> Seq<char> {
    seq!['"'] + raw
        + "\" is not a valid ISRC (expected CC-XXX-YY-NNNNN: 2 letters, 3 alphanumerics, 7 digits)"@
}

fn is_alpha_c(c: char) -> (b: bool)
    ensures
        b == is_ascii_alpha(c),
{
    ('A' <= c && c <= 'Z') || ('a' <= c && c <= 'z')
}

fn is_digit_c(c: char) -> (b: bool)
    ensures
        b == is_ascii_digit(c),
{
    '0' <= c && c <= '9'
}

fn upper_c(c: char) -> (r: char)
    ensures
        r == ascii_upper(c),
{
    if 'a' <= c && c <= 'z' {
        ((c as u8) - 32) as char
    } else {
        c
    }
}

/// Validate + normalize an ISRC: strips separators and uppercases;
/// `Ok(None)` for empty input.
pub fn normalize_isrc(raw: &str) -> (r: Result<Option<String>, String>)
    ensures
        isrc_chars(raw@).len() == 0 ==> r == Ok::<Option<String>, String>(None),
        isrc_chars(raw@).len() > 0 && isrc_shape(isrc_chars(raw@)) ==> (r matches Ok(Some(s))
            && s@ == isrc_chars(raw@)),
        isrc_chars(raw@).len() > 0 && !isrc_shape(isrc_chars(raw@)) ==> (r matches Err(e) && e@
            == isrc_error(raw@)),
{
    let v = chars_of(raw);
    let mut s: Vec<char> = Vec::new();
    let mut i: usize = 0;
    while i < v.len()
        invariant
            i <= v@.len(),
            v@ == raw@,
            s@ == isrc_chars(v@.take(i as int)),
        decreases v@.len() - i,
    {
        let c = v[i];
        assert(v@.take(i + 1).drop_last() == v@.take(i as int));
        if is_alpha_c(c) || is_digit_c(c) {
            s.push(upper_c(c));
        }
        i += 1;
    }
    assert(v@.take(v@.len() as int) == v@);
    if s.len() == 0 {
        return Ok(None);
    }
    let mut ok = s.len() == 12;
    if ok {
        let mut k: usize = 0;
        while k < 12
            invariant
                k <= 12,
                s@.len() == 12,
                ok == (forall|j: int|
                    0 <= j < k ==> (if j < 2 {
                        is_ascii_alpha(#[trigger] s@[j])
                    } else if j < 5 {
                        is_ascii_alnum(s@[j])
                    } else {
                        is_ascii_digit(s@[j])
                    })),
            decreases 12 - k,
        {
            let c = s[k];
            let good = if k < 2 {
                is_alpha_c(c)
            } else if k < 5 {
                is_alpha_c(c) || is_digit_c(c)
            } else {
                is_digit_c(c)
            };
            ok = ok && good;
            k += 1;
        }
        proof {
            if ok {
                assert(isrc_shape(s@)) by {
                    assert forall|j: int| 0 <= j < 2 implies is_ascii_alpha(#[trigger] s@[j]) by {}
                    assert forall|j: int| 2 <= j < 5 implies is_ascii_alnum(#[trigger] s@[j]) by {}
                    assert forall|j: int| 5 <= j < 12 implies is_ascii_digit(#[trigger] s@[j]) by {}
                }
            } else {
                let j = choose|j: int|
                    0 <= j < 12 && !(if j < 2 {
                        is_ascii_alpha(#[trigger] s@[j])
                    } else if j < 5 {
                        is_ascii_alnum(s@[j])
                    } else {
                        is_ascii_digit(s@[j])
                    });
                assert(!isrc_shape(s@));
            }
        }
    }
    if ok {
        Ok(Some(string_of(s.as_slice())))
    } else {
        let mut e: Vec<char> = vec!['"'];
        extend_chars(&mut e, v.as_slice());
        extend_str(
            &mut e,
            "\" is not a valid ISRC (expected CC-XXX-YY-NNNNN: 2 letters, 3 alphanumerics, 7 digits)",
        );
        Err(string_of(e.as_slice()))
    }
}

// ---------------------------------------------------------------------------
// Packets: space-padded ASCII records.

/// `p` with `s` written left-aligned at `off`, truncated to `width`.
pub open spec fn put(p: Seq<u8>, off: int, width: int, s: Seq<u8>) -> Seq<u8> {
    let m = if s.len() < width {
        s.len() as int
    } else {
        width
    };
    p.take(off) + s.take(m) + p.skip(off + m)
}

/// Whether writing `s` (up to `width` bytes) at `off` stays inside `p`.
pub open spec fn put_fits(p: Seq<u8>, off: int, width: int, s: Seq<u8>) -> bool {
    0 <= off && 0 <= width && off + (if s.len() < width {
        s.len() as int
    } else {
        width
    }) <= p.len()
}

/// ASCII characters as bytes.
pub open spec fn bytes_of(cs: Seq<char>) -> Seq<u8> {
    cs.map_values(|c: char| c as u8)
}

/// Zero-padded number, exactly `width` digits when it fits.
pub open spec fn num0(n: nat, width: nat) -> Seq<u8> {
    bytes_of(dec_zero(n, width))
}

/// Right-aligned space-padded number.
pub open spec fn num(n: nat, width: nat) -> Seq<u8> {
    bytes_of(pad_left(dec(n), width, ' '))
}

/// `len` spaces.
pub open spec fn blank(len: nat) -> Seq<u8> {
    Seq::new(len, |_i: int| 32u8)
}

/// A packet under construction.
pub struct Packet(pub Vec<u8>);

fn bytes_from(cs: &[char]) -> (r: Vec<u8>)
    requires
        forall|i: int| 0 <= i < cs@.len() ==> (#[trigger] cs@[i] as u32) < 256,
    ensures
        r@ == bytes_of(cs@),
{
    let mut out: Vec<u8> = Vec::new();
    let mut i: usize = 0;
    while i < cs.len()
        invariant
            i <= cs@.len(),
            forall|j: int| 0 <= j < cs@.len() ==> (#[trigger] cs@[j] as u32) < 256,
            out@ == bytes_of(cs@.take(i as int)),
        decreases cs@.len() - i,
    {
        out.push(cs[i] as u8);
        i += 1;
        assert(bytes_of(cs@.take(i as int)) =~= bytes_of(cs@.take(i - 1)).push(cs@[i - 1] as u8));
    }
    assert(cs@.take(cs@.len() as int) == cs@);
    out
}

proof fn lemma_dec_ascii(n: nat)
    ensures
        forall|i: int| 0 <= i < dec(n).len() ==> (#[trigger] dec(n)[i] as u32) < 256,
{
    crate::text::lemma_dec_digits(n);
}

proof fn lemma_pad_ascii(s: Seq<char>, width: nat, c: char)
    requires
        forall|i: int| 0 <= i < s.len() ==> (#[trigger] s[i] as u32) < 256,
        (c as u32) < 256,
    ensures
        forall|i: int|
            0 <= i < pad_left(s, width, c).len() ==> (#[trigger] pad_left(s, width, c)[i] as u32)
                < 256,
{
    if s.len() < width {
        let p = pad_left(s, width, c);
        assert forall|i: int| 0 <= i < p.len() implies (#[trigger] p[i] as u32) < 256 by {
            if i < width - s.len() {
            } else {
                assert(p[i] == s[i - (width - s.len())]);
            }
        }
    }
}

impl Packet {
    /// A packet of `len` spaces.
    pub fn new(len: usize) -> (p: Packet)
        ensures
            p.0@ == blank(len as nat),
    {
        let mut v: Vec<u8> = Vec::new();
        let mut i: usize = 0;
        while i < len
            invariant
                i <= len,
                v@ == blank(i as nat),
            decreases len - i,
        {
            v.push(32u8);
            i += 1;
            assert(v@ =~= blank(i as nat));
        }
        Packet(v)
    }

    /// Left-aligned bytes at `off` (truncated to `width`).
    pub fn put_bytes(&mut self, off: usize, width: usize, s: &[u8])
        requires
            put_fits(old(self).0@, off as int, width as int, s@),
        ensures
            final(self).0@ == put(old(self).0@, off as int, width as int, s@),
    {
        let m = if s.len() < width {
            s.len()
        } else {
            width
        };
        let ghost orig = self.0@;
        let mut i: usize = 0;
        while i < m
            invariant
                i <= m <= s@.len(),
                off + m <= orig.len(),
                self.0@.len() == orig.len(),
                forall|j: int| 0 <= j < off ==> self.0@[j] == orig[j],
                forall|j: int| 0 <= j < i ==> self.0@[off + j] == s@[j],
                forall|j: int| off + i <= j < orig.len() ==> self.0@[j] == orig[j],
            decreases m - i,
        {
            assert(off + i < self.0.len());
            self.0[off + i] = s[i];
            i += 1;
        }
        assert(self.0@ =~= put(orig, off as int, width as int, s@));
    }

    /// Left-aligned string at `off` (truncated to `width`).
    pub fn put(&mut self, off: usize, width: usize, s: &str)
        requires
            put_fits(old(self).0@, off as int, width as int, encode_utf8(s@)),
        ensures
            final(self).0@ == put(old(self).0@, off as int, width as int, encode_utf8(s@)),
    {
        self.put_bytes(off, width, s.as_bytes());
    }

    /// Zero-padded number, exactly `width` digits.
    pub fn put_num0(&mut self, off: usize, width: usize, n: u64)
        requires
            put_fits(old(self).0@, off as int, width as int, num0(n as nat, width as nat)),
        ensures
            final(self).0@ == put(
                old(self).0@,
                off as int,
                width as int,
                num0(n as nat, width as nat),
            ),
    {
        let mut cs: Vec<char> = Vec::new();
        push_dec_zero(&mut cs, n, width);
        proof {
            assert(cs@ =~= dec_zero(n as nat, width as nat));
            lemma_dec_ascii(n as nat);
            lemma_pad_ascii(dec(n as nat), width as nat, '0');
        }
        let b = bytes_from(cs.as_slice());
        self.put_bytes(off, width, b.as_slice());
    }

    /// Right-aligned space-padded number.
    pub fn put_num(&mut self, off: usize, width: usize, n: u64)
        requires
            put_fits(old(self).0@, off as int, width as int, num(n as nat, width as nat)),
        ensures
            final(self).0@ == put(old(self).0@, off as int, width as int, num(n as nat, width as nat)),
    {
        let d = dec_chars(n);
        let mut cs: Vec<char> = Vec::new();
        push_padded(&mut cs, d.as_slice(), width, ' ');
        proof {
            assert(cs@ =~= pad_left(dec(n as nat), width as nat, ' '));
            lemma_dec_ascii(n as nat);
            lemma_pad_ascii(dec(n as nat), width as nat, ' ');
        }
        let b = bytes_from(cs.as_slice());
        self.put_bytes(off, width, b.as_slice());
    }
}

/// The bytes of a string of 8-bit characters.
pub fn lit(s: &str) -> (r: Vec<u8>)
    requires
        forall|i: int| 0 <= i < s@.len() ==> (#[trigger] s@[i] as u32) < 256,
    ensures
        r@ == bytes_of(s@),
{
    let cs = chars_of(s);
    bytes_from(cs.as_slice())
}

/// Printable ASCII (`is_ascii() && !is_ascii_control()`) kept, anything
/// else replaced by '_'.
pub open spec fn ascii_keep(c: char) -> char {
    if ' ' <= c && c <= '~' {
        c
    } else {
        '_'
    }
}

pub open spec fn spec_ascii_only(s: Seq<char>) -> Seq<char> {
    s.map_values(|c: char| ascii_keep(c))
}

fn ascii_only_chars(s: &[char]) -> (r: Vec<char>)
    ensures
        r@ == spec_ascii_only(s@),
        forall|i: int| 0 <= i < r@.len() ==> (#[trigger] r@[i] as u32) < 256,
{
    let mut out: Vec<char> = Vec::new();
    let mut i: usize = 0;
    while i < s.len()
        invariant
            i <= s@.len(),
            out@ == spec_ascii_only(s@.take(i as int)),
        decreases s@.len() - i,
    {
        let c = s[i];
        out.push(if ' ' <= c && c <= '~' { c } else { '_' });
        i += 1;
        assert(spec_ascii_only(s@.take(i as int)) =~= spec_ascii_only(s@.take(i - 1)).push(
            ascii_keep(s@[i - 1]),
        ));
    }
    assert(s@.take(s@.len() as int) == s@);
    out
}

/// Printable ASCII kept, anything else replaced by '_'.
pub fn ascii_only(s: &str) -> (r: String)
    ensures
        r@ == spec_ascii_only(s@),
{
    let v = chars_of(s);
    let a = ascii_only_chars(v.as_slice());
    string_of(a.as_slice())
}

/// UTF-8 bytes of an optional string.
pub open spec fn opt_utf8(o: Option<String>) -> Option<Seq<u8>> {
    match o {
        Some(s) => Some(encode_utf8(s@)),
        None => None,
    }
}

/// The DDPID packet: level, UPC/EAN, map stream length, master id (the
/// album title), disc type.
pub open spec fn spec_ddpid(title: Seq<char>, ean: Option<Seq<u8>>, map_bytes: nat) -> Seq<u8> {
    let p1 = put(blank(128), 0, 8, bytes_of("DDP 2.00"@));
    let p2 = match ean {
        Some(e) => put(p1, 8, 13, e),
        None => p1,
    };
    let p3 = put(p2, 29, 8, num(map_bytes, 8));
    let p4 = put(p3, 38, 48, bytes_of(spec_ascii_only(title)));
    put(p4, 87, 2, bytes_of("CD"@))
}

/// DDPID: one 128-byte packet.
pub fn ddpid_packet(disc: &Disc, map_bytes: u64) -> (r: Vec<u8>)
    ensures
        r@ == spec_ddpid(disc.title@, opt_utf8(disc.ean), map_bytes as nat),
{
    proof {
        reveal_strlit("DDP 2.00");
        reveal_strlit("CD");
    }
    let mut p = Packet::new(128);
    p.put_bytes(0, 8, lit("DDP 2.00").as_slice());
    match &disc.ean {
        Some(ean) => {
            p.put(8, 13, ean.as_str());
        },
        None => {},
    }
    p.put_num(29, 8, map_bytes);
    let t = chars_of(disc.title.as_str());
    let a = ascii_only_chars(t.as_slice());
    p.put_bytes(38, 48, bytes_from(a.as_slice()).as_slice());
    p.put_bytes(87, 2, lit("CD").as_slice());
    p.0
}

/// The `D0` map packet: the audio data stream, pause included.
pub open spec fn spec_ddpms_d0(image_name: Seq<u8>, program: nat) -> Seq<u8> {
    let p1 = put(blank(128), 0, 4, bytes_of("VVVM"@));
    let p2 = put(p1, 4, 2, bytes_of("D0"@));
    let p3 = put(p2, 14, 8, num0(150 + program, 8));
    let p4 = put(p3, 38, 2, bytes_of("DA"@));
    let p5 = put(p4, 40, 1, bytes_of("0"@));
    let p6 = put(p5, 41, 1, bytes_of("0"@));
    let p7 = put(p6, 46, 4, num(150, 4));
    let p8 = put(p7, 71, 3, num0(17, 3));
    put(p8, 74, 17, image_name)
}

/// The `S0` map packet: the PQ subcode descriptor stream.
pub open spec fn spec_ddpms_s0(pq_bytes: nat) -> Seq<u8> {
    let p1 = put(blank(128), 0, 4, bytes_of("VVVM"@));
    let p2 = put(p1, 4, 2, bytes_of("S0"@));
    let p3 = put(p2, 14, 8, num0(pq_bytes, 8));
    let p4 = put(p3, 30, 8, bytes_of("PQ DESCR"@));
    let p5 = put(p4, 71, 3, num0(17, 3));
    put(p5, 74, 17, bytes_of("PQDESCR"@))
}

/// The two DDPMS map packets: `D0` (audio image) + `S0` (PQ stream).
pub fn ddpms_packets(disc: &Disc, image_name: &str, pq_bytes: u64) -> (r: Vec<u8>)
    requires
        ends_fit(disc.tracks@),
        spec_program_sectors(disc.tracks@) + 150 <= u64::MAX,
    ensures
        r@ == spec_ddpms_d0(encode_utf8(image_name@), spec_program_sectors(disc.tracks@))
            + spec_ddpms_s0(pq_bytes as nat),
{
    proof {
        reveal_strlit("VVVM");
        reveal_strlit("D0");
        reveal_strlit("DA");
        reveal_strlit("0");
        reveal_strlit("S0");
        reveal_strlit("PQ DESCR");
        reveal_strlit("PQDESCR");
    }
    let mut out: Vec<u8> = Vec::new();
    let mut p = Packet::new(128);
    p.put_bytes(0, 4, lit("VVVM").as_slice());
    p.put_bytes(4, 2, lit("D0").as_slice());
    p.put_num0(14, 8, PAUSE_SECTORS + disc.program_sectors());
    p.put_bytes(38, 2, lit("DA").as_slice());
    p.put_bytes(40, 1, lit("0").as_slice());
    p.put_bytes(41, 1, lit("0").as_slice());
    p.put_num(46, 4, PAUSE_SECTORS);
    p.put_num0(71, 3, 17);
    p.put(74, 17, image_name);
    out.append(&mut p.0);

    let mut q = Packet::new(128);
    q.put_bytes(0, 4, lit("VVVM").as_slice());
    q.put_bytes(4, 2, lit("S0").as_slice());
    q.put_num0(14, 8, pq_bytes);
    q.put_bytes(30, 8, lit("PQ DESCR").as_slice());
    q.put_num0(71, 3, 17);
    q.put_bytes(74, 17, lit("PQDESCR").as_slice());
    out.append(&mut q.0);
    out
}

/// One 64-byte PQ packet at absolute disc time `t` (minutes, seconds,
/// frames); hours stay blank; control/ADR is "01" (2-channel audio, no
/// pre-emphasis, position).
pub open spec fn spec_pq_packet(
    trk: Seq<u8>,
    idx: nat,
    t: (nat, nat, nat),
    isrc: Option<Seq<u8>>,
    upc: Option<Seq<u8>>,
) -> Seq<u8> {
    let p1 = put(blank(64), 0, 4, bytes_of("VVVS"@));
    let p2 = put(p1, 4, 2, trk);
    let p3 = put(p2, 6, 2, num0(idx, 2));
    let p4 = put(p3, 10, 2, num0(t.0, 2));
    let p5 = put(p4, 12, 2, num0(t.1, 2));
    let p6 = put(p5, 14, 2, num0(t.2, 2));
    let p7 = put(p6, 16, 2, bytes_of("01"@));
    let p8 = match isrc {
        Some(i) => put(p7, 20, 12, i),
        None => p7,
    };
    match upc {
        Some(u) => put(p8, 32, 13, u),
        None => p8,
    }
}

fn pq_packet_bytes(
    trk: &[u8],
    idx: u64,
    time: (u64, u64, u64),
    isrc: Option<&[u8]>,
    upc: Option<&[u8]>,
) -> (r: Vec<u8>)
    ensures
        r@ == spec_pq_packet(
            trk@,
            idx as nat,
            (time.0 as nat, time.1 as nat, time.2 as nat),
            match isrc {
                Some(i) => Some(i@),
                None => None,
            },
            match upc {
                Some(u) => Some(u@),
                None => None,
            },
        ),
{
    proof {
        reveal_strlit("VVVS");
        reveal_strlit("01");
    }
    let mut p = Packet::new(64);
    p.put_bytes(0, 4, lit("VVVS").as_slice());
    p.put_bytes(4, 2, trk);
    p.put_num0(6, 2, idx);
    p.put_num0(10, 2, time.0);
    p.put_num0(12, 2, time.1);
    p.put_num0(14, 2, time.2);
    p.put_bytes(16, 2, lit("01").as_slice());
    match isrc {
        Some(i) => {
            p.put_bytes(20, 12, i);
        },
        None => {},
    }
    match upc {
        Some(u) => {
            p.put_bytes(32, 13, u);
        },
        None => {},
    }
    p.0
}

/// One 64-byte PQ packet. `time`: absolute disc MSF (pause included).
pub fn pq_packet(
    trk: &str,
    idx: u32,
    time: (u64, u64, u64),
    isrc: Option<&str>,
    upc: Option<&str>,
) -> (r: Vec<u8>)
    ensures
        r@ == spec_pq_packet(
            encode_utf8(trk@),
            idx as nat,
            (time.0 as nat, time.1 as nat, time.2 as nat),
            match isrc {
                Some(i) => Some(encode_utf8(i@)),
                None => None,
            },
            match upc {
                Some(u) => Some(encode_utf8(u@)),
                None => None,
            },
        ),
{
    let i = match isrc {
        Some(s) => Some(s.as_bytes()),
        None => None,
    };
    let u = match upc {
        Some(s) => Some(s.as_bytes()),
        None => None,
    };
    pq_packet_bytes(trk.as_bytes(), idx as u64, time, i, u)
}

/// Absolute disc time of a program-relative sector.
pub open spec fn abs_msf(sector: nat) -> (nat, nat, nat) {
    spec_msf(150 + sector)
}

/// The packets of one track: track 1 carries index 00 (start of the
/// pause, absolute zero, with its ISRC) then index 01; later tracks one
/// index 01 packet with their ISRC.
pub open spec fn spec_track_packets(t: Track, first: bool) -> Seq<u8> {
    let trk = num0(t.number as nat, 2);
    if first {
        spec_pq_packet(trk, 0, (0, 0, 0), opt_utf8(t.isrc), None) + spec_pq_packet(
            trk,
            1,
            abs_msf(t.start_sector as nat),
            None,
            None,
        )
    } else {
        spec_pq_packet(trk, 1, abs_msf(t.start_sector as nat), opt_utf8(t.isrc), None)
    }
}

pub open spec fn spec_pq_tracks(tracks: Seq<Track>, n: int) -> Seq<u8>
    decreases n,
{
    if n <= 0 {
        seq![]
    } else {
        spec_pq_tracks(tracks, n - 1) + spec_track_packets(tracks[n - 1], n == 1)
    }
}

/// The full PQ stream for a gapless program: lead-in (with the UPC/EAN),
/// the tracks, and the lead-out at the end of the program.
pub open spec fn spec_pq_stream(disc: Disc) -> Seq<u8> {
    spec_pq_packet(bytes_of("00"@), 0, (0, 0, 0), None, opt_utf8(disc.ean)) + spec_pq_tracks(
        disc.tracks@,
        disc.tracks@.len() as int,
    ) + spec_pq_packet(
        bytes_of("AA"@),
        1,
        abs_msf(spec_program_sectors(disc.tracks@)),
        None,
        None,
    )
}

/// Writing `s` (at most `width` bytes) at `off` keeps the length, places
/// the written bytes and leaves every other byte as it was.
proof fn lemma_put(p: Seq<u8>, off: int, width: int, s: Seq<u8>)
    requires
        0 <= off,
        0 <= width,
        off + width <= p.len(),
    ensures
        put(p, off, width, s).len() == p.len(),
        forall|j: int|
            off <= j < off + (if s.len() < width { s.len() as int } else { width }) ==> #[trigger] put(
                p,
                off,
                width,
                s,
            )[j] == s[j - off],
        forall|j: int|
            0 <= j < p.len() && !(off <= j < off + (if s.len() < width { s.len() as int } else { width }))
                ==> #[trigger] put(p, off, width, s)[j] == p[j],
{
}

/// Every PQ packet is 64 bytes, and an ISRC given to it stands at bytes
/// 20..32 (as much of it as fits).
proof fn lemma_pq_packet(
    trk: Seq<u8>,
    idx: nat,
    t: (nat, nat, nat),
    isrc: Option<Seq<u8>>,
    upc: Option<Seq<u8>>,
)
    ensures
        spec_pq_packet(trk, idx, t, isrc, upc).len() == 64,
        spec_pq_packet(trk, idx, t, isrc, upc).subrange(4, 4 + (if trk.len() < 2 { trk.len() as int } else { 2 }))
            == trk.take(if trk.len() < 2 { trk.len() as int } else { 2 }),
        isrc matches Some(i) ==> spec_pq_packet(trk, idx, t, isrc, upc).subrange(
            20,
            20 + (if i.len() < 12 { i.len() as int } else { 12 }),
        ) == i.take(if i.len() < 12 { i.len() as int } else { 12 }),
{
    reveal_strlit("VVVS");
    reveal_strlit("01");
    let p0 = blank(64);
    let p1 = put(p0, 0, 4, bytes_of("VVVS"@));
    lemma_put(p0, 0, 4, bytes_of("VVVS"@));
    let p2 = put(p1, 4, 2, trk);
    lemma_put(p1, 4, 2, trk);
    let p3 = put(p2, 6, 2, num0(idx, 2));
    lemma_put(p2, 6, 2, num0(idx, 2));
    let p4 = put(p3, 10, 2, num0(t.0, 2));
    lemma_put(p3, 10, 2, num0(t.0, 2));
    let p5 = put(p4, 12, 2, num0(t.1, 2));
    lemma_put(p4, 12, 2, num0(t.1, 2));
    let p6 = put(p5, 14, 2, num0(t.2, 2));
    lemma_put(p5, 14, 2, num0(t.2, 2));
    let p7 = put(p6, 16, 2, bytes_of("01"@));
    lemma_put(p6, 16, 2, bytes_of("01"@));
    let p8 = match isrc {
        Some(i) => put(p7, 20, 12, i),
        None => p7,
    };
    if let Some(i) = isrc {
        lemma_put(p7, 20, 12, i);
    }
    let p9 = match upc {
        Some(u) => put(p8, 32, 13, u),
        None => p8,
    };
    if let Some(u) = upc {
        lemma_put(p8, 32, 13, u);
    }
    assert(p9 == spec_pq_packet(trk, idx, t, isrc, upc));
    let mt = if trk.len() < 2 { trk.len() as int } else { 2 };
    assert(p9.subrange(4, 4 + mt) =~= trk.take(mt)) by {
        assert forall|j: int| 0 <= j < mt implies p9.subrange(4, 4 + mt)[j] == trk.take(mt)[j] by {
            assert(p2[4 + j] == trk[j]);
        }
    }
    if let Some(i) = isrc {
        let m = if i.len() < 12 { i.len() as int } else { 12 };
        assert(p9.subrange(20, 20 + m) =~= i.take(m)) by {
            assert forall|j: int| 0 <= j < m implies p9.subrange(20, 20 + m)[j] == i.take(m)[j] by {
                assert(p8[20 + j] == i[j]);
            }
        }
    }
}

/// The tracks' packets of the first `n` tracks: two for the first track,
/// one for each later one; those of fewer tracks come first.
proof fn lemma_pq_tracks(tracks: Seq<Track>, n: int, k: int)
    requires
        0 <= k <= n <= tracks.len(),
    ensures
        spec_pq_tracks(tracks, n).len() == if n == 0 { 0 } else { 64 * (n + 1) },
        spec_pq_tracks(tracks, n).take(spec_pq_tracks(tracks, k).len() as int) == spec_pq_tracks(tracks, k),
    decreases n,
{
    if n > 0 {
        lemma_pq_tracks(tracks, n - 1, if k < n { k } else { n - 1 });
        let t = tracks[n - 1];
        let trk = num0(t.number as nat, 2);
        lemma_pq_packet(trk, 0, (0, 0, 0), opt_utf8(t.isrc), None);
        lemma_pq_packet(trk, 1, abs_msf(t.start_sector as nat), None, None);
        lemma_pq_packet(trk, 1, abs_msf(t.start_sector as nat), opt_utf8(t.isrc), None);
        let prev = spec_pq_tracks(tracks, n - 1);
        let all = spec_pq_tracks(tracks, n);
        assert(all == prev + spec_track_packets(t, n == 1));
        if k < n {
            let pk = spec_pq_tracks(tracks, k);
            lemma_pq_tracks(tracks, k, k);
            assert(pk.len() <= prev.len());
            assert(prev.take(pk.len() as int) == pk);
            assert(all.take(pk.len() as int) =~= prev.take(pk.len() as int));
        } else {
            assert(all.take(all.len() as int) =~= all);
        }
    }
}

/// Every track has its PQ packet, in track order after the lead-in
/// packet (two for the first track, index 00 then 01): the packet of
/// track `k` carries the track's number at bytes 4..6.
pub proof fn law_track_packets_in_order(disc: Disc, k: int)
    requires
        0 <= k < disc.tracks@.len(),
    ensures
        ({
            let trk = num0(disc.tracks@[k].number as nat, 2);
            let m = if trk.len() < 2 { trk.len() as int } else { 2 };
            let at = 64 * (if k == 0 { 1 } else { k + 2 }) + 4;
            spec_pq_stream(disc).subrange(at, at + m) == trk.take(m)
        }),
{
    let tracks = disc.tracks@;
    let n = tracks.len() as int;
    let t = tracks[k];
    let trk = num0(t.number as nat, 2);
    let m = if trk.len() < 2 { trk.len() as int } else { 2 };
    reveal_strlit("00");
    let lead = spec_pq_packet(bytes_of("00"@), 0, (0, 0, 0), None, opt_utf8(disc.ean));
    lemma_pq_packet(bytes_of("00"@), 0, (0, 0, 0), None, opt_utf8(disc.ean));
    lemma_pq_tracks(tracks, n, k + 1);
    lemma_pq_tracks(tracks, k + 1, k);
    let upto = spec_pq_tracks(tracks, k + 1);
    let before = spec_pq_tracks(tracks, k);
    let pk = spec_track_packets(t, k == 0);
    assert(upto == before + pk);
    let pkt = if k == 0 {
        spec_pq_packet(trk, 0, (0, 0, 0), opt_utf8(t.isrc), None)
    } else {
        spec_pq_packet(trk, 1, abs_msf(t.start_sector as nat), opt_utf8(t.isrc), None)
    };
    lemma_pq_packet(trk, 0, (0, 0, 0), opt_utf8(t.isrc), None);
    lemma_pq_packet(trk, 1, abs_msf(t.start_sector as nat), opt_utf8(t.isrc), None);
    lemma_pq_packet(trk, 1, abs_msf(t.start_sector as nat), None, None);
    assert(pk.take(64) =~= pkt);
    let all = spec_pq_tracks(tracks, n);
    let lead_out = spec_pq_packet(
        bytes_of("AA"@),
        1,
        abs_msf(spec_program_sectors(disc.tracks@)),
        None,
        None,
    );
    let stream = spec_pq_stream(disc);
    assert(stream == lead + all + lead_out);
    let off: int = 64 + before.len() as int;
    assert(before.len() == if k == 0 { 0 } else { 64 * (k + 1) });
    assert forall|j: int| 0 <= j < m implies stream[off + 4 + j] == trk[j] by {
        assert(stream[off + 4 + j] == all[before.len() + 4 + j]);
        assert(all.take(upto.len() as int)[before.len() + 4 + j] == upto[before.len() + 4 + j]);
        assert(upto[before.len() + 4 + j] == pk[4 + j]);
        assert(pk.take(64)[4 + j] == pkt[4 + j]);
        assert(pkt.subrange(4, 4 + m)[j] == trk.take(m)[j]);
    }
    assert(stream.subrange(off + 4, off + 4 + m) =~= trk.take(m));
}

/// Every ISRC of the disc reaches the DDP master: track `k`'s PQ packet
/// (the index-00 packet for the first track, the index-01 packet for the
/// others) carries the track's ISRC at bytes 20..32.
pub proof fn law_every_isrc_in_pq(disc: Disc, k: int)
    requires
        0 <= k < disc.tracks@.len(),
        disc.tracks@[k].isrc is Some,
    ensures
        ({
            let i = encode_utf8(disc.tracks@[k].isrc->0@);
            let m = if i.len() < 12 { i.len() as int } else { 12 };
            let at = 64 * (if k == 0 { 1 } else { k + 2 }) + 20;
            spec_pq_stream(disc).subrange(at, at + m) == i.take(m)
        }),
{
    let tracks = disc.tracks@;
    let n = tracks.len() as int;
    let t = tracks[k];
    let i = encode_utf8(t.isrc->0@);
    let m = if i.len() < 12 { i.len() as int } else { 12 };
    let trk = num0(t.number as nat, 2);
    reveal_strlit("00");
    let lead = spec_pq_packet(bytes_of("00"@), 0, (0, 0, 0), None, opt_utf8(disc.ean));
    lemma_pq_packet(bytes_of("00"@), 0, (0, 0, 0), None, opt_utf8(disc.ean));
    lemma_pq_tracks(tracks, n, k + 1);
    lemma_pq_tracks(tracks, k + 1, k);
    let upto = spec_pq_tracks(tracks, k + 1);
    let before = spec_pq_tracks(tracks, k);
    let pk = spec_track_packets(t, k == 0);
    assert(upto == before + pk);
    let pkt = if k == 0 {
        spec_pq_packet(trk, 0, (0, 0, 0), opt_utf8(t.isrc), None)
    } else {
        spec_pq_packet(trk, 1, abs_msf(t.start_sector as nat), opt_utf8(t.isrc), None)
    };
    lemma_pq_packet(trk, 0, (0, 0, 0), opt_utf8(t.isrc), None);
    lemma_pq_packet(trk, 1, abs_msf(t.start_sector as nat), opt_utf8(t.isrc), None);
    lemma_pq_packet(trk, 1, abs_msf(t.start_sector as nat), None, None);
    assert(pk.take(64) =~= pkt);
    let all = spec_pq_tracks(tracks, n);
    let lead_out = spec_pq_packet(
        bytes_of("AA"@),
        1,
        abs_msf(spec_program_sectors(disc.tracks@)),
        None,
        None,
    );
    let stream = spec_pq_stream(disc);
    assert(stream == lead + all + lead_out);
    let off: int = 64 + before.len() as int;
    assert(before.len() == if k == 0 { 0 } else { 64 * (k + 1) });
    assert forall|j: int| 0 <= j < m implies stream[off + 20 + j] == i[j] by {
        assert(stream[off + 20 + j] == all[before.len() + 20 + j]);
        assert(all.take(upto.len() as int)[before.len() + 20 + j] == upto[before.len() + 20 + j]);
        assert(upto[before.len() + 20 + j] == pk[20 + j]);
        assert(pk.take(64)[20 + j] == pkt[20 + j]);
        assert(pkt.subrange(20, 20 + m)[j] == i.take(m)[j]);
    }
    assert(stream.subrange(off + 20, off + 20 + m) =~= i.take(m));
}

/// Positions are representable in absolute disc time.
pub open spec fn disc_fits(disc: Disc) -> bool {
    &&& ends_fit(disc.tracks@)
    &&& spec_program_sectors(disc.tracks@) + 150 <= u64::MAX
}

proof fn lemma_start_le_program(tracks: Seq<Track>, n: int, i: int)
    requires
        0 <= i < n <= tracks.len(),
    ensures
        tracks[i].start_sector <= program_of(tracks, n),
    decreases n,
{
    if i < n - 1 {
        lemma_start_le_program(tracks, n - 1, i);
    }
}

/// The full PQ stream.
pub fn pq_stream(disc: &Disc) -> (r: Vec<u8>)
    requires
        disc_fits(*disc),
    ensures
        r@ == spec_pq_stream(*disc),
{
    proof {
        reveal_strlit("00");
        reveal_strlit("AA");
    }
    let ean = match &disc.ean {
        Some(e) => Some(e.as_str().as_bytes()),
        None => None,
    };
    let mut out = pq_packet_bytes(lit("00").as_slice(), 0, (0, 0, 0), None, ean);
    let ghost lead_in = out@;
    let mut k: usize = 0;
    while k < disc.tracks.len()
        invariant
            k <= disc.tracks@.len(),
            disc_fits(*disc),
            out@ == lead_in + spec_pq_tracks(disc.tracks@, k as int),
        decreases disc.tracks@.len() - k,
    {
        let t = &disc.tracks[k];
        proof {
            lemma_start_le_program(disc.tracks@, disc.tracks@.len() as int, k as int);
        }
        let mut trk: Vec<char> = Vec::new();
        push_dec_zero(&mut trk, t.number as u64, 2);
        proof {
            assert(trk@ =~= dec_zero(t.number as nat, 2));
            lemma_dec_ascii(t.number as nat);
            lemma_pad_ascii(dec(t.number as nat), 2, '0');
        }
        let trk_b = bytes_from(trk.as_slice());
        let isrc = match &t.isrc {
            Some(i) => Some(i.as_str().as_bytes()),
            None => None,
        };
        let at = msf(PAUSE_SECTORS + t.start_sector);
        if k == 0 {
            let mut a = pq_packet_bytes(trk_b.as_slice(), 0, (0, 0, 0), isrc, None);
            out.append(&mut a);
            let mut b = pq_packet_bytes(trk_b.as_slice(), 1, at, None, None);
            out.append(&mut b);
        } else {
            let mut a = pq_packet_bytes(trk_b.as_slice(), 1, at, isrc, None);
            out.append(&mut a);
        }
        k += 1;
    }
    let end = msf(PAUSE_SECTORS + disc.program_sectors());
    let mut lead_out = pq_packet_bytes(lit("AA").as_slice(), 1, end, None, None);
    out.append(&mut lead_out);
    out
}

// ---------------------------------------------------------------------------
// PQ sheet.

/// Two-digit zero-padded number.
pub open spec fn dz(n: nat) -> Seq<char> {
    dec_zero(n, 2)
}

/// `s` padded on the right with spaces to `width` (`{:<width}`).
pub open spec fn pad_right(s: Seq<char>, width: nat) -> Seq<char> {
    if s.len() < width {
        s + Seq::new((width - s.len()) as nat, |_i: int| ' ')
    } else {
        s
    }
}

/// `mm:ss:ff`.
pub open spec fn msf_text(t: (nat, nat, nat)) -> Seq<char> {
    dz(t.0) + seq![':'] + dz(t.1) + seq![':'] + dz(t.2)
}

pub open spec fn opt_chars(o: Option<String>) -> Seq<char> {
    match o {
        Some(s) => s@,
        None => seq![],
    }
}

/// One track row of the sheet.
pub open spec fn sheet_track_line(t: Track) -> Seq<char> {
    seq![' '] + dz(t.number as nat) + "  01  "@ + msf_text(abs_msf(t.start_sector as nat))
        + "          "@ + msf_text(spec_msf(t.length_sectors as nat)) + "           "@
        + pad_right(opt_chars(t.isrc), 12) + "  "@ + t.title@ + seq!['\n']
}

pub open spec fn sheet_tracks(tracks: Seq<Track>, n: int) -> Seq<char>
    decreases n,
{
    if n <= 0 {
        seq![]
    } else {
        sheet_tracks(tracks, n - 1) + sheet_track_line(tracks[n - 1])
    }
}

/// The title, performer and catalog lines.
pub open spec fn sheet_intro(disc: Disc) -> Seq<char> {
    "PQ SHEET — "@ + disc.title@ + seq!['\n'] + (if disc.performer@.len() > 0 {
        "Performer: "@ + disc.performer@ + seq!['\n']
    } else {
        seq![]
    }) + (match disc.ean {
        Some(e) => "UPC/EAN (catalog): "@ + e@ + seq!['\n'],
        None => seq![],
    })
}

/// The track count and total program line, then a blank line.
pub open spec fn sheet_count(n: nat, program: nat) -> Seq<char> {
    "Tracks: "@ + dec(n) + " — total program: "@ + msf_text(spec_msf(program)) + seq!['\n']
        + seq!['\n']
}

/// The column headings and the pause row.
pub open spec fn sheet_columns() -> Seq<char> {
    "TRK IDX  START (mm:ss:ff)  LENGTH (mm:ss:ff)  ISRC          TITLE\n"@
        + "--- ---  ----------------  -----------------  ------------  -----\n"@
        + " 01  00  00:00:00 (pause)  00:02:00                        \n"@
}

/// The header of the sheet, up to the pause row.
pub open spec fn sheet_head(disc: Disc) -> Seq<char> {
    sheet_intro(disc) + sheet_count(disc.tracks@.len(), spec_program_sectors(disc.tracks@))
        + sheet_columns()
}

/// The lead-out row and the closing note.
pub open spec fn sheet_tail(program: nat) -> Seq<char> {
    " AA  01  "@ + msf_text(abs_msf(program)) + " (lead-out)\n"@ + seq!['\n']
        + "Times are absolute disc positions (the 2-second pause before track 1 is included, as on the pressed disc).\n"@
}

/// The human-readable PQ sheet.
pub open spec fn spec_pq_sheet(disc: Disc) -> Seq<char> {
    sheet_head(disc) + sheet_tracks(disc.tracks@, disc.tracks@.len() as int) + sheet_tail(
        spec_program_sectors(disc.tracks@),
    )
}

fn push_msf(out: &mut Vec<char>, t: (u64, u64, u64))
    ensures
        final(out)@ == old(out)@ + msf_text((t.0 as nat, t.1 as nat, t.2 as nat)),
{
    push_dec_zero(out, t.0, 2);
    out.push(':');
    push_dec_zero(out, t.1, 2);
    out.push(':');
    push_dec_zero(out, t.2, 2);
    assert(final(out)@ =~= old(out)@ + msf_text((t.0 as nat, t.1 as nat, t.2 as nat)));
}

fn push_right_padded(out: &mut Vec<char>, s: &[char], width: usize)
    ensures
        final(out)@ == old(out)@ + pad_right(s@, width as nat),
{
    extend_chars(out, s);
    let ghost mid = out@;
    let mut k: usize = s.len();
    while k < width
        invariant
            s@.len() <= k <= width || k == s@.len() >= width,
            out@ == mid + Seq::new((k - s@.len()) as nat, |_i: int| ' '),
        decreases width - k,
    {
        out.push(' ');
        k += 1;
        assert(Seq::new((k - s@.len()) as nat, |_i: int| ' ') =~= Seq::new(
            (k - 1 - s@.len()) as nat,
            |_i: int| ' ',
        ).push(' '));
    }
    proof {
        if s@.len() >= width {
            assert(out@ =~= old(out)@ + s@);
        } else {
            assert(out@ =~= old(out)@ + pad_right(s@, width as nat));
        }
    }
}

fn push_sheet_intro(s: &mut Vec<char>, disc: &Disc)
    ensures
        final(s)@ == old(s)@ + sheet_intro(*disc),
{
    broadcast use crate::text::lemma_add_assoc;

    extend_str(s, "PQ SHEET — ");
    extend_str(s, disc.title.as_str());
    s.push('\n');
    let ghost a = s@;
    let performer = chars_of(disc.performer.as_str());
    if performer.len() > 0 {
        extend_str(s, "Performer: ");
        extend_chars(s, performer.as_slice());
        s.push('\n');
    }
    let ghost b = s@;
    match &disc.ean {
        Some(e) => {
            extend_str(s, "UPC/EAN (catalog): ");
            extend_str(s, e.as_str());
            s.push('\n');
        },
        None => {},
    }
}

fn push_sheet_count(s: &mut Vec<char>, n: usize, program: u64)
    ensures
        final(s)@ == old(s)@ + sheet_count(n as nat, program as nat),
{
    broadcast use crate::text::lemma_add_assoc;

    extend_str(s, "Tracks: ");
    let d = dec_chars(n as u64);
    extend_chars(s, d.as_slice());
    extend_str(s, " — total program: ");
    push_msf(s, msf(program));
    s.push('\n');
    s.push('\n');
}

fn push_sheet_head(s: &mut Vec<char>, disc: &Disc)
    requires
        disc_fits(*disc),
    ensures
        final(s)@ == old(s)@ + sheet_head(*disc),
{
    broadcast use crate::text::lemma_add_assoc;

    push_sheet_intro(s, disc);
    push_sheet_count(s, disc.tracks.len(), disc.program_sectors());
    extend_str(s, "TRK IDX  START (mm:ss:ff)  LENGTH (mm:ss:ff)  ISRC          TITLE\n");
    extend_str(s, "--- ---  ----------------  -----------------  ------------  -----\n");
    extend_str(s, " 01  00  00:00:00 (pause)  00:02:00                        \n");
}

fn push_sheet_track(s: &mut Vec<char>, t: &Track)
    requires
        t.start_sector + 150 <= u64::MAX,
    ensures
        final(s)@ == old(s)@ + sheet_track_line(*t),
{
    broadcast use crate::text::lemma_add_assoc;

    s.push(' ');
    assert(s@ == old(s)@ + seq![' ']);
    push_dec_zero(s, t.number as u64, 2);
    extend_str(s, "  01  ");
    push_msf(s, msf(PAUSE_SECTORS + t.start_sector));
    extend_str(s, "          ");
    push_msf(s, msf(t.length_sectors));
    extend_str(s, "           ");
    let isrc = match &t.isrc {
        Some(i) => chars_of(i.as_str()),
        None => Vec::new(),
    };
    push_right_padded(s, isrc.as_slice(), 12);
    extend_str(s, "  ");
    extend_str(s, t.title.as_str());
    s.push('\n');
    assert(s@ == old(s)@ + sheet_track_line(*t));
}

/// The human-readable PQ sheet: the master's paper trail, agreeing with
/// the PQ stream to the frame.
pub fn pq_sheet(disc: &Disc) -> (r: String)
    requires
        disc_fits(*disc),
    ensures
        r@ == spec_pq_sheet(*disc),
{
    let program = disc.program_sectors();
    let mut s: Vec<char> = Vec::new();
    push_sheet_head(&mut s, disc);
    let ghost head = s@;
    let mut k: usize = 0;
    while k < disc.tracks.len()
        invariant
            k <= disc.tracks@.len(),
            disc_fits(*disc),
            s@ == head + sheet_tracks(disc.tracks@, k as int),
        decreases disc.tracks@.len() - k,
    {
        proof {
            lemma_start_le_program(disc.tracks@, disc.tracks@.len() as int, k as int);
        }
        push_sheet_track(&mut s, &disc.tracks[k]);
        k += 1;
    }
    let ghost body = s@;
    extend_str(&mut s, " AA  01  ");
    push_msf(&mut s, msf(PAUSE_SECTORS + program));
    extend_str(&mut s, " (lead-out)\n");
    s.push('\n');
    extend_str(
        &mut s,
        "Times are absolute disc positions (the 2-second pause before track 1 is included, as on the pressed disc).\n",
    );
    assert(s@ =~= body + sheet_tail(program as nat));
    string_of(s.as_slice())
}

// ---------------------------------------------------------------------------
// Fileset contents.

/// The name of the audio image file.
pub const IMAGE_NAME: &'static str = "IMAGE.DAT";

/// MD5 digest of a byte string.
pub uninterp spec fn md5_of(data: Seq<u8>) -> Seq<u8>;

/// MD5 of `data` (the `md-5` crate's `Md5::digest`): 16 bytes.
#[verifier::external_body]
fn md5_digest(data: &[u8]) -> (r: Vec<u8>)
    ensures
        r@ == md5_of(data@),
        r@.len() == 16,
{
    <md5::Md5 as md5::Digest>::digest(data).to_vec()
}

/// Why the audio image does not match the disc description.
#[derive(Debug, Clone, Copy, PartialEq, Eq)]
pub enum FilesetError {
    /// The image is not a whole number of sectors.
    NotSectorAligned { audio_bytes: u64 },
    /// The image and the track list disagree on the program length.
    LengthMismatch { audio_sectors: u64, program: u64 },
}

pub open spec fn fileset_error_text(e: FilesetError) -> Seq<char> {
    match e {
        FilesetError::NotSectorAligned { audio_bytes } => "audio image is not sector-aligned ("@
            + dec(audio_bytes as nat) + " bytes is not a multiple of 2352)"@,
        FilesetError::LengthMismatch { audio_sectors, program } => "audio image is "@ + dec(
            audio_sectors as nat,
        ) + " sectors but the track list describes "@ + dec(program as nat),
    }
}

impl FilesetError {
    /// The user-facing message.
    pub fn message(&self) -> (r: String)
        ensures
            r@ == fileset_error_text(*self),
    {
        let mut s: Vec<char> = Vec::new();
        match self {
            FilesetError::NotSectorAligned { audio_bytes } => {
                extend_str(&mut s, "audio image is not sector-aligned (");
                extend_chars(&mut s, dec_chars(*audio_bytes).as_slice());
                extend_str(&mut s, " bytes is not a multiple of 2352)");
            },
            FilesetError::LengthMismatch { audio_sectors, program } => {
                extend_str(&mut s, "audio image is ");
                extend_chars(&mut s, dec_chars(*audio_sectors).as_slice());
                extend_str(&mut s, " sectors but the track list describes ");
                extend_chars(&mut s, dec_chars(*program).as_slice());
            },
        }
        assert(s@ =~= fileset_error_text(*self));
        string_of(s.as_slice())
    }
}

/// One metadata file of the fileset.
pub struct FilesetFile {
    pub name: String,
    pub bytes: Vec<u8>,
}

/// One `md5sum -c` line: "<digest>  <name>".
pub open spec fn checksum_line(digest: Seq<u8>, name: Seq<char>) -> Seq<char> {
    hex_of(digest) + "  "@ + name + seq!['\n']
}

/// The metadata files of a fileset, in writing order.
pub open spec fn spec_metadata_files(disc: Disc) -> Seq<(Seq<char>, Seq<u8>)> {
    let pq = spec_pq_stream(disc);
    let ms = spec_ddpms_d0(encode_utf8("IMAGE.DAT"@), spec_program_sectors(disc.tracks@))
        + spec_ddpms_s0(pq.len());
    let id = spec_ddpid(disc.title@, opt_utf8(disc.ean), ms.len());
    seq![
        ("DDPID"@, id),
        ("DDPMS"@, ms),
        ("PQDESCR"@, pq),
        ("PQ_SHEET.TXT"@, encode_utf8(spec_pq_sheet(disc))),
    ]
}

/// `CHECKSUM.MD5`: the image digest, then the digest of every metadata
/// file.
pub open spec fn spec_checksums(image_digest: Seq<u8>, files: Seq<(Seq<char>, Seq<u8>)>) -> Seq<
    char,
> {
    checksum_line(image_digest, "IMAGE.DAT"@) + checksum_line(md5_of(files[0].1), files[0].0)
        + checksum_line(md5_of(files[1].1), files[1].0) + checksum_line(
        md5_of(files[2].1),
        files[2].0,
    ) + checksum_line(md5_of(files[3].1), files[3].0)
}

/// The outcome of closing a fileset whose image holds `audio_bytes` of
/// program audio (pause excluded).
pub open spec fn spec_fileset_check(disc: Disc, audio_bytes: nat) -> Option<FilesetError> {
    if audio_bytes % 2352 != 0 {
        Some(FilesetError::NotSectorAligned { audio_bytes: audio_bytes as u64 })
    } else if audio_bytes / 2352 != spec_program_sectors(disc.tracks@) {
        Some(
            FilesetError::LengthMismatch {
                audio_sectors: (audio_bytes / 2352) as u64,
                program: spec_program_sectors(disc.tracks@) as u64,
            },
        )
    } else {
        None
    }
}

fn copy_bytes(src: &[u8]) -> (r: Vec<u8>)
    ensures
        r@ == src@,
{
    let mut v: Vec<u8> = Vec::new();
    let mut i: usize = 0;
    while i < src.len()
        invariant
            i <= src@.len(),
            v@ == src@.take(i as int),
        decreases src@.len() - i,
    {
        v.push(src[i]);
        i += 1;
        assert(src@.take(i as int) == src@.take(i - 1).push(src@[i - 1]));
    }
    assert(src@.take(src@.len() as int) == src@);
    v
}

fn push_checksum_line(s: &mut Vec<char>, digest: &[u8], name: &str)
    ensures
        final(s)@ == old(s)@ + checksum_line(digest@, name@),
{
    broadcast use crate::text::lemma_add_assoc;

    extend_chars(s, hex_chars(digest).as_slice());
    extend_str(s, "  ");
    extend_str(s, name);
    s.push('\n');
}

fn metadata_bytes(disc: &Disc) -> (r: (Vec<u8>, Vec<u8>, Vec<u8>, Vec<u8>))
    requires
        disc_fits(*disc),
    ensures
        r.0@ == spec_metadata_files(*disc)[0].1,
        r.1@ == spec_metadata_files(*disc)[1].1,
        r.2@ == spec_metadata_files(*disc)[2].1,
        r.3@ == spec_metadata_files(*disc)[3].1,
{
    proof {
        reveal_strlit("IMAGE.DAT");
    }
    let pq = pq_stream(disc);
    let ms = ddpms_packets(disc, IMAGE_NAME, pq.len() as u64);
    let id = ddpid_packet(disc, ms.len() as u64);
    let sheet = pq_sheet(disc);
    let sheet_bytes = copy_bytes(sheet.as_str().as_bytes());
    (id, ms, pq, sheet_bytes)
}

fn checksum_chars(
    image_digest: &[u8],
    id: &[u8],
    ms: &[u8],
    pq: &[u8],
    sheet: &[u8],
) -> (r: Vec<char>)
    ensures
        r@ == spec_checksums(
            image_digest@,
            seq![
                ("DDPID"@, id@),
                ("DDPMS"@, ms@),
                ("PQDESCR"@, pq@),
                ("PQ_SHEET.TXT"@, sheet@),
            ],
        ),
{
    broadcast use crate::text::lemma_add_assoc;

    let mut chk: Vec<char> = Vec::new();
    push_checksum_line(&mut chk, image_digest, IMAGE_NAME);
    push_checksum_line(&mut chk, md5_digest(id).as_slice(), "DDPID");
    push_checksum_line(&mut chk, md5_digest(ms).as_slice(), "DDPMS");
    push_checksum_line(&mut chk, md5_digest(pq).as_slice(), "PQDESCR");
    push_checksum_line(&mut chk, md5_digest(sheet).as_slice(), "PQ_SHEET.TXT");
    assert(chk@ == Seq::<char>::empty() + spec_checksums(
        image_digest@,
        seq![("DDPID"@, id@), ("DDPMS"@, ms@), ("PQDESCR"@, pq@), ("PQ_SHEET.TXT"@, sheet@)],
    ));
    chk
}

fn named(name: &str, bytes: Vec<u8>) -> (f: FilesetFile)
    ensures
        f.name@ == name@,
        f.bytes@ == bytes@,
{
    FilesetFile { name: string_of(chars_of(name).as_slice()), bytes }
}

/// The lead-in pause the image starts with: 150 sectors of silence.
pub open spec fn pause_bytes() -> Seq<u8> {
    Seq::new((PAUSE_SECTORS * SECTOR_BYTES) as nat, |i: int| 0u8)
}

/// The image file: the lead-in pause, then the program's audio.
pub fn image_file(audio: &[u8]) -> (r: Vec<u8>)
    requires
        audio@.len() + PAUSE_SECTORS * SECTOR_BYTES <= usize::MAX,
    ensures
        r@ == pause_bytes() + audio@,
{
    let pause = (PAUSE_SECTORS * SECTOR_BYTES) as usize;
    let mut v: Vec<u8> = Vec::new();
    let mut i: usize = 0;
    while i < pause
        invariant
            i <= pause,
            pause == PAUSE_SECTORS * SECTOR_BYTES,
            v@ == pause_bytes().take(i as int),
        decreases pause - i,
    {
        v.push(0u8);
        i += 1;
        assert(v@ =~= pause_bytes().take(i as int));
    }
    assert(pause_bytes().take(pause as int) =~= pause_bytes());
    let mut k: usize = 0;
    while k < audio.len()
        invariant
            k <= audio@.len(),
            v@ == pause_bytes() + audio@.take(k as int),
        decreases audio@.len() - k,
    {
        v.push(audio[k]);
        k += 1;
        assert(v@ =~= pause_bytes() + audio@.take(k as int));
    }
    assert(audio@.take(audio@.len() as int) =~= audio@);
    v
}

/// The fileset files once the image and its digest are known: the image,
/// DDPID, DDPMS, PQDESCR, the PQ sheet, then the checksum file.
fn assemble(disc: &Disc, image: Vec<u8>, image_digest: &[u8]) -> (files: Vec<FilesetFile>)
    requires
        disc_fits(*disc),
    ensures
        files@.len() == 6,
        files@[0].name@ == IMAGE_NAME@,
        files@[0].bytes@ == image@,
        forall|i: int|
            0 <= i < 4 ==> (#[trigger] files@[i + 1]).name@ == spec_metadata_files(*disc)[i].0
                && files@[i + 1].bytes@ == spec_metadata_files(*disc)[i].1,
        files@[5].name@ == "CHECKSUM.MD5"@,
        files@[5].bytes@ == encode_utf8(spec_checksums(image_digest@, spec_metadata_files(*disc))),
{
    let (id, ms, pq, sheet) = metadata_bytes(disc);
    let chk = checksum_chars(image_digest, id.as_slice(), ms.as_slice(), pq.as_slice(), sheet.as_slice());
    let ghost want = spec_metadata_files(*disc);
    assert(seq![("DDPID"@, id@), ("DDPMS"@, ms@), ("PQDESCR"@, pq@), ("PQ_SHEET.TXT"@, sheet@)]
        =~= want);
    let chk_s = string_of(chk.as_slice());
    let chk_bytes = copy_bytes(chk_s.as_str().as_bytes());
    let mut files: Vec<FilesetFile> = Vec::new();
    files.push(named(IMAGE_NAME, image));
    files.push(named("DDPID", id));
    files.push(named("DDPMS", ms));
    files.push(named("PQDESCR", pq));
    files.push(named("PQ_SHEET.TXT", sheet));
    files.push(named("CHECKSUM.MD5", chk_bytes));
    files
}

/// Validates the program length against the audio, then builds the whole
/// fileset: the image (lead-in pause, then the audio), DDPID, DDPMS,
/// PQDESCR, the PQ sheet and the checksum file (last), whose lines are
/// the MD5 digests of every other file as `md5sum` prints them.
pub fn fileset_files(disc: &Disc, audio: &[u8]) -> (r: Result<Vec<FilesetFile>, FilesetError>)
    requires
        disc_fits(*disc),
        audio@.len() + PAUSE_SECTORS * SECTOR_BYTES <= usize::MAX,
    ensures
        match spec_fileset_check(*disc, audio@.len()) {
            Some(e) => r == Err::<Vec<FilesetFile>, FilesetError>(e),
            None => r matches Ok(files) && files@.len() == 6 && files@[0].name@ == IMAGE_NAME@
                && files@[0].bytes@ == pause_bytes() + audio@ && (forall|i: int|
                0 <= i < 4 ==> (#[trigger] files@[i + 1]).name@ == spec_metadata_files(*disc)[i].0
                    && files@[i + 1].bytes@ == spec_metadata_files(*disc)[i].1) && files@[5].name@
                == "CHECKSUM.MD5"@ && files@[5].bytes@ == encode_utf8(
                spec_checksums(md5_of(pause_bytes() + audio@), spec_metadata_files(*disc)),
            ),
        },
{
    let audio_bytes = audio.len() as u64;
    if audio_bytes % SECTOR_BYTES != 0 {
        return Err(FilesetError::NotSectorAligned { audio_bytes });
    }
    let audio_sectors = audio_bytes / SECTOR_BYTES;
    let program = disc.program_sectors();
    if audio_sectors != program {
        return Err(FilesetError::LengthMismatch { audio_sectors, program });
    }
    let image = image_file(audio);
    let image_digest = md5_digest(image.as_slice());
    Ok(assemble(disc, image, image_digest.as_slice()))
}

} // verus!
