//! VST3 plugin identity and state containers.
//!
//! A VST3 plugin class is identified by its 16-byte class id (CID); above
//! the hosting layer the id travels as the component string
//! `"vst3:<32 lowercase hex>"`. A plugin's state is two chunks (component
//! and controller), packed into one blob as
//! `"SV31" | u32le comp_len | comp | u32le ctrl_len | ctrl`.

use vstd::prelude::*;
use crate::error::StillError;
use crate::text::{chars_of, extend_str, matches_at, string_of};

verus! {

broadcast use vstd::string::group_string_axioms;

/// Lowercase hexadecimal digit of a nibble.
pub open spec fn hex_char(d: nat) -> char {
    if d < 10 {
        (48 + d) as char
    } else {
        (87 + d) as char
    }
}

/// Lowercase hex of a byte sequence, two characters per byte.
pub open spec fn hex_of(bytes: Seq<u8>) -> Seq<char>
    decreases bytes.len(),
{
    if bytes.len() == 0 {
        seq![]
    } else {
        seq![hex_char((bytes[0] / 16) as nat), hex_char((bytes[0] % 16) as nat)] + hex_of(
            bytes.drop_first(),
        )
    }
}

pub open spec fn id_prefix() -> Seq<char> {
    seq!['v', 's', 't', '3', ':']
}

/// The component string of a class id.
pub open spec fn spec_cid_to_id(cid: Seq<u8>) -> Seq<char> {
    id_prefix() + hex_of(cid)
}

/// ASCII hexadecimal digit, either case (`u8::is_ascii_hexdigit`).
pub open spec fn is_hex(c: char) -> bool {
    ('0' <= c && c <= '9') || ('a' <= c && c <= 'f') || ('A' <= c && c <= 'F')
}

/// Value of a hexadecimal digit.
pub open spec fn hex_val(c: char) -> nat {
    if '0' <= c && c <= '9' {
        (c as nat - 48) as nat
    } else if 'a' <= c && c <= 'f' {
        (c as nat - 87) as nat
    } else {
        (c as nat - 55) as nat
    }
}

/// The class id a component string denotes, if it is well formed.
pub open spec fn spec_parse_id(id: Seq<char>) -> Option<Seq<u8>> {
    if id.len() == 37 && id.take(5) == id_prefix() && (forall|i: int|
        5 <= i < 37 ==> is_hex(#[trigger] id[i])) {
        Some(Seq::new(16, |k: int| (hex_val(id[5 + 2 * k]) * 16 + hex_val(id[6 + 2 * k])) as u8))
    } else {
        None
    }
}

fn hex_digit(d: u8) -> (c: char)
    requires
        d < 16,
    ensures
        c == hex_char(d as nat),
{
    if d < 10 {
        (48 + d) as char
    } else {
        (87 + d) as char
    }
}

proof fn lemma_hex_of_push(bytes: Seq<u8>, b: u8)
    ensures
        hex_of(bytes.push(b)) == hex_of(bytes) + seq![
            hex_char((b / 16) as nat),
            hex_char((b % 16) as nat),
        ],
    decreases bytes.len(),
{
    if bytes.len() == 0 {
        assert(bytes.push(b).drop_first() == Seq::<u8>::empty());
        assert(hex_of(Seq::<u8>::empty()) == Seq::<char>::empty());
    } else {
        assert(bytes.push(b).drop_first() == bytes.drop_first().push(b));
        lemma_hex_of_push(bytes.drop_first(), b);
    }
}

proof fn lemma_hex_of_len(bytes: Seq<u8>)
    ensures
        hex_of(bytes).len() == 2 * bytes.len(),
    decreases bytes.len(),
{
    if bytes.len() > 0 {
        lemma_hex_of_len(bytes.drop_first());
    }
}

proof fn lemma_hex_of_index(bytes: Seq<u8>, k: int)
    requires
        0 <= k < bytes.len(),
    ensures
        hex_of(bytes)[2 * k] == hex_char((bytes[k] / 16) as nat),
        hex_of(bytes)[2 * k + 1] == hex_char((bytes[k] % 16) as nat),
    decreases bytes.len(),
{
    lemma_hex_of_len(bytes);
    if k > 0 {
        lemma_hex_of_index(bytes.drop_first(), k - 1);
        lemma_hex_of_len(bytes.drop_first());
    }
}

/// Lowercase hexadecimal of bytes, two characters per byte.
pub fn hex_chars(bytes: &[u8]) -> (r: Vec<char>)
    ensures
        r@ == hex_of(bytes@),
{
    let mut v: Vec<char> = Vec::new();
    let mut i: usize = 0;
    while i < bytes.len()
        invariant
            i <= bytes@.len(),
            v@ == hex_of(bytes@.take(i as int)),
        decreases bytes@.len() - i,
    {
        let b = bytes[i];
        v.push(hex_digit(b / 16));
        v.push(hex_digit(b % 16));
        proof {
            assert(bytes@.take(i + 1) == bytes@.take(i as int).push(b));
            lemma_hex_of_push(bytes@.take(i as int), b);
        }
        i += 1;
    }
    assert(bytes@.take(bytes@.len() as int) == bytes@);
    v
}

/// Format a 16-byte class id as a component string "vst3:<32 hex>".
pub fn cid_to_id(cid: &[u8; 16]) -> (r: String)
    ensures
        r@ == spec_cid_to_id(cid@),
{
    let mut v: Vec<char> = vec!['v', 's', 't', '3', ':'];
    let mut i: usize = 0;
    while i < 16
        invariant
            i <= 16,
            cid@.len() == 16,
            v@ == id_prefix() + hex_of(cid@.take(i as int)),
        decreases 16 - i,
    {
        let b = cid[i];
        v.push(hex_digit(b / 16));
        v.push(hex_digit(b % 16));
        proof {
            assert(cid@.take(i + 1) == cid@.take(i as int).push(b));
            lemma_hex_of_push(cid@.take(i as int), b);
        }
        i += 1;
    }
    assert(cid@.take(16) == cid@);
    string_of(v.as_slice())
}

fn is_hex_char(c: char) -> (b: bool)
    ensures
        b == is_hex(c),
{
    ('0' <= c && c <= '9') || ('a' <= c && c <= 'f') || ('A' <= c && c <= 'F')
}

fn hex_value(c: char) -> (v: u8)
    requires
        is_hex(c),
    ensures
        v == hex_val(c),
        v < 16,
{
    if '0' <= c && c <= '9' {
        (c as u32 - 48) as u8
    } else if 'a' <= c && c <= 'f' {
        (c as u32 - 87) as u8
    } else {
        (c as u32 - 55) as u8
    }
}

/// Parse a component string back into the 16-byte class id.
pub fn parse_id(id: &str) -> (r: Option<[u8; 16]>)
    ensures
        match spec_parse_id(id@) {
            Some(cid) => r matches Some(a) && a@ == cid,
            None => r is None,
        },
{
    let s = chars_of(id);
    if s.len() != 37 || s[0] != 'v' || s[1] != 's' || s[2] != 't' || s[3] != '3' || s[4] != ':' {
        proof {
            if s@.len() == 37 && s@.take(5) == id_prefix() {
                assert(s@[0] == s@.take(5)[0]);
                assert(s@[1] == s@.take(5)[1]);
                assert(s@[2] == s@.take(5)[2]);
                assert(s@[3] == s@.take(5)[3]);
                assert(s@[4] == s@.take(5)[4]);
                assert(id_prefix()[0] == 'v');
                assert(id_prefix()[1] == 's');
                assert(id_prefix()[2] == 't');
                assert(id_prefix()[3] == '3');
                assert(id_prefix()[4] == ':');
                assert(false);
            }
        }
        return None;
    }
    assert(s@.take(5) =~= id_prefix());
    let mut i: usize = 5;
    while i < 37
        invariant
            5 <= i <= 37,
            s@.len() == 37,
            s@ == id@,
            forall|j: int| 5 <= j < i ==> is_hex(#[trigger] s@[j]),
        decreases 37 - i,
    {
        if !is_hex_char(s[i]) {
            return None;
        }
        i += 1;
    }
    let mut cid = [0u8; 16];
    let mut k: usize = 0;
    while k < 16
        invariant
            k <= 16,
            s@.len() == 37,
            forall|j: int| 5 <= j < 37 ==> is_hex(#[trigger] s@[j]),
            forall|t: int|
                0 <= t < k ==> cid@[t] == (hex_val(s@[5 + 2 * t]) * 16 + hex_val(
                    s@[6 + 2 * t],
                )) as u8,
            cid@.len() == 16,
        decreases 16 - k,
    {
        let hi = hex_value(s[5 + 2 * k]);
        let lo = hex_value(s[6 + 2 * k]);
        cid[k] = hi * 16 + lo;
        k += 1;
    }
    let ghost want = Seq::new(
        16,
        |t: int| (hex_val(s@[5 + 2 * t]) * 16 + hex_val(s@[6 + 2 * t])) as u8,
    );
    assert(cid@ =~= want);
    Some(cid)
}

/// Identifiers round-trip: parsing the component string of a class id
/// gives that class id back.
pub proof fn law_cid_roundtrip(cid: Seq<u8>)
    requires
        cid.len() == 16,
    ensures
        spec_parse_id(spec_cid_to_id(cid)) == Some(cid),
{
    let id = spec_cid_to_id(cid);
    lemma_hex_of_len(cid);
    assert(id.take(5) =~= id_prefix());
    assert forall|i: int| 5 <= i < 37 implies is_hex(#[trigger] id[i]) by {
        let k = (i - 5) / 2;
        lemma_hex_of_index(cid, k);
        assert(id[i] == hex_of(cid)[i - 5]);
        if (i - 5) % 2 == 0 {
            assert(i - 5 == 2 * k);
        } else {
            assert(i - 5 == 2 * k + 1);
        }
    }
    let parsed = Seq::new(
        16,
        |k: int| (hex_val(id[5 + 2 * k]) * 16 + hex_val(id[6 + 2 * k])) as u8,
    );
    assert forall|k: int| 0 <= k < 16 implies parsed[k] == cid[k] by {
        lemma_hex_of_index(cid, k);
        assert(id[5 + 2 * k] == hex_of(cid)[2 * k]);
        assert(id[6 + 2 * k] == hex_of(cid)[2 * k + 1]);
    }
    assert(parsed =~= cid);
}

// ---------------------------------------------------------------------------
// Subcategories.

/// Whether `pat` occurs somewhere in `s`.
pub open spec fn contains_seq(s: Seq<char>, pat: Seq<char>) -> bool {
    exists|i: int| 0 <= i && i + pat.len() <= s.len() && #[trigger] s.subrange(i, i + pat.len()) == pat
}

/// Substring search on characters.
pub fn contains_chars(s: &[char], pat: &[char]) -> (b: bool)
    ensures
        b == contains_seq(s@, pat@),
{
    if pat.len() > s.len() {
        return false;
    }
    let mut i: usize = 0;
    let last = s.len() - pat.len();
    while i < last
        invariant
            pat@.len() <= s@.len(),
            last == s@.len() - pat@.len(),
            i <= last,
            forall|j: int|
                0 <= j < i ==> #[trigger] s@.subrange(j, j + pat@.len()) != pat@,
        decreases last - i,
    {
        if matches_at(s, i, pat) {
            return true;
        }
        i += 1;
    }
    if matches_at(s, last, pat) {
        return true;
    }
    assert forall|j: int| 0 <= j && j + pat@.len() <= s@.len() implies #[trigger] s@.subrange(
        j,
        j + pat@.len(),
    ) != pat@ by {}
    false
}

/// A plugin class is an audio effect (not an instrument): its
/// subcategories name "Fx" and never "Instrument"; classes without
/// subcategory information are included.
pub open spec fn spec_is_effect(sub: Seq<char>) -> bool {
    !contains_seq(sub, "Instrument"@) && (sub.len() == 0 || contains_seq(sub, "Fx"@))
}

pub fn is_effect(subcategories: &str) -> (b: bool)
    ensures
        b == spec_is_effect(subcategories@),
{
    let s = chars_of(subcategories);
    let instrument = chars_of("Instrument");
    let fx = chars_of("Fx");
    if contains_chars(s.as_slice(), instrument.as_slice()) {
        return false;
    }
    s.len() == 0 || contains_chars(s.as_slice(), fx.as_slice())
}

// ---------------------------------------------------------------------------
// Two-chunk state container.

/// Little-endian bytes of a 32-bit value.
pub open spec fn le32(x: nat) -> Seq<u8> {
    seq![(x % 256) as u8, ((x / 256) % 256) as u8, ((x / 65536) % 256) as u8, ((x / 16777216) % 256) as u8]
}

/// Value of four little-endian bytes.
pub open spec fn from_le32(b: Seq<u8>) -> nat {
    (b[0] + b[1] * 256 + b[2] * 65536 + b[3] * 16777216) as nat
}

pub open spec fn magic() -> Seq<u8> {
    seq![83u8, 86u8, 51u8, 49u8]
}

/// The blob holding two state chunks. A length is stored modulo 2^32.
pub open spec fn spec_pack_state(component: Seq<u8>, controller: Seq<u8>) -> Seq<u8> {
    magic() + le32(component.len() % 0x1_0000_0000) + component + le32(
        controller.len() % 0x1_0000_0000,
    ) + controller
}

/// The two chunks a blob holds, or None when it is malformed. Bytes after
/// the controller chunk are ignored.
pub open spec fn spec_unpack_state(blob: Seq<u8>) -> Option<(Seq<u8>, Seq<u8>)> {
    if blob.len() < 8 || blob.take(4) != magic() {
        None
    } else {
        let c = from_le32(blob.subrange(4, 8)) as int;
        if blob.len() < 8 + c + 4 {
            None
        } else {
            let k = from_le32(blob.subrange(8 + c, 12 + c)) as int;
            if blob.len() < 12 + c + k {
                None
            } else {
                Some((blob.subrange(8, 8 + c), blob.subrange(12 + c, 12 + c + k)))
            }
        }
    }
}

fn push_le32(out: &mut Vec<u8>, x: u32)
    ensures
        final(out)@ == old(out)@ + le32(x as nat),
{
    out.push((x % 256) as u8);
    out.push(((x / 256) % 256) as u8);
    out.push(((x / 65536) % 256) as u8);
    out.push(((x / 16777216) % 256) as u8);
    assert(final(out)@ =~= old(out)@ + le32(x as nat));
}

fn extend_bytes(dst: &mut Vec<u8>, src: &[u8])
    ensures
        final(dst)@ == old(dst)@ + src@,
{
    let mut i: usize = 0;
    while i < src.len()
        invariant
            i <= src@.len(),
            dst@ == old(dst)@ + src@.take(i as int),
        decreases src@.len() - i,
    {
        dst.push(src[i]);
        i += 1;
        assert(src@.take(i as int) == src@.take(i - 1).push(src@[i - 1]));
    }
    assert(src@.take(src@.len() as int) == src@);
}

fn len_u32(n: usize) -> (r: u32)
    ensures
        r as nat == n as nat % 0x1_0000_0000,
{
    (n as u64 % 0x1_0000_0000) as u32
}

/// Pack component + controller chunks into one opaque blob.
pub fn pack_state(component: &[u8], controller: &[u8]) -> (r: Vec<u8>)
    ensures
        r@ == spec_pack_state(component@, controller@),
{
    let mut out: Vec<u8> = Vec::new();
    out.push(83u8);
    out.push(86u8);
    out.push(51u8);
    out.push(49u8);
    assert(out@ =~= magic());
    push_le32(&mut out, len_u32(component.len()));
    extend_bytes(&mut out, component);
    push_le32(&mut out, len_u32(controller.len()));
    extend_bytes(&mut out, controller);
    out
}

fn read_le32(b: &[u8], at: usize) -> (r: u64)
    requires
        at + 4 <= b@.len(),
    ensures
        r as nat == from_le32(b@.subrange(at as int, at + 4)),
        r < 0x1_0000_0000,
{
    (b[at] as u64) + (b[at + 1] as u64) * 256 + (b[at + 2] as u64) * 65536 + (b[at + 3] as u64)
        * 16777216
}

fn copy_range(b: &[u8], from: usize, to: usize) -> (r: Vec<u8>)
    requires
        from <= to <= b@.len(),
    ensures
        r@ == b@.subrange(from as int, to as int),
{
    let mut out: Vec<u8> = Vec::new();
    let mut i = from;
    while i < to
        invariant
            from <= i <= to <= b@.len(),
            out@ == b@.subrange(from as int, i as int),
        decreases to - i,
    {
        out.push(b[i]);
        i += 1;
        assert(b@.subrange(from as int, i as int) == b@.subrange(from as int, i - 1).push(
            b@[i - 1],
        ));
    }
    out
}

/// Unpack a blob produced by `pack_state`. None on anything malformed.
pub fn unpack_state(blob: &[u8]) -> (r: Option<(Vec<u8>, Vec<u8>)>)
    ensures
        match spec_unpack_state(blob@) {
            Some((c, k)) => r matches Some((rc, rk)) && rc@ == c && rk@ == k,
            None => r is None,
        },
{
    let n = blob.len();
    if n < 8 || blob[0] != 83u8 || blob[1] != 86u8 || blob[2] != 51u8 || blob[3] != 49u8 {
        proof {
            if n >= 8 {
                assert(blob@.take(4)[0] == blob@[0]);
                assert(blob@.take(4)[1] == blob@[1]);
                assert(blob@.take(4)[2] == blob@[2]);
                assert(blob@.take(4)[3] == blob@[3]);
            }
        }
        return None;
    }
    assert(blob@.take(4) =~= magic());
    let c = read_le32(blob, 4);
    if (n as u64) - 8 < c || (n as u64) - 8 - c < 4 {
        return None;
    }
    let c = c as usize;
    let k = read_le32(blob, 8 + c);
    if (n as u64) - 12 - (c as u64) < k {
        return None;
    }
    let k = k as usize;
    let comp = copy_range(blob, 8, 8 + c);
    let ctrl = copy_range(blob, 12 + c, 12 + c + k);
    Some((comp, ctrl))
}

pub(crate) proof fn lemma_le32_roundtrip(x: int)
    requires
        0 <= x < 0x1_0000_0000,
    ensures
        from_le32(le32(x as nat)) == x,
{
    let q1 = x / 256;
    let q2 = x / 65536;
    let q3 = x / 16777216;
    vstd::arithmetic::div_mod::lemma_fundamental_div_mod(x, 256);
    vstd::arithmetic::div_mod::lemma_fundamental_div_mod(q1, 256);
    vstd::arithmetic::div_mod::lemma_fundamental_div_mod(q2, 256);
    vstd::arithmetic::div_mod::lemma_div_denominator(x, 256, 256);
    vstd::arithmetic::div_mod::lemma_div_denominator(x, 65536, 256);
    assert(q3 < 256);
    assert(q3 % 256 == q3);
    let b = le32(x as nat);
    assert(b[0] == x % 256);
    assert(b[1] == q1 % 256);
    assert(b[2] == q2 % 256);
    assert(b[3] == q3);
}

/// Unpacking a packed blob gives back both chunks (when each fits the
/// 32-bit length field).
#[verifier::rlimit(60)]
pub proof fn law_state_roundtrip(component: Seq<u8>, controller: Seq<u8>)
    requires
        component.len() < 0x1_0000_0000,
        controller.len() < 0x1_0000_0000,
    ensures
        spec_unpack_state(spec_pack_state(component, controller)) == Some((component, controller)),
{
    let c = component.len() as int;
    let k = controller.len() as int;
    let h1 = le32(c as nat);
    let h2 = le32(k as nat);
    let a = magic() + h1;
    let b = a + component;
    let d = b + h2;
    let blob = d + controller;
    assert(c % 0x1_0000_0000 == c);
    assert(k % 0x1_0000_0000 == k);
    assert(blob == spec_pack_state(component, controller));
    lemma_le32_roundtrip(c);
    lemma_le32_roundtrip(k);
    assert(blob.len() == 12 + c + k);
    assert(blob.take(4) =~= magic()) by {
        assert(blob.take(4) =~= a.take(4));
    }
    assert(blob.subrange(4, 8) =~= h1) by {
        assert(blob.subrange(4, 8) =~= a.subrange(4, 8));
    }
    assert(blob.subrange(8, 8 + c) =~= component) by {
        assert(blob.subrange(8, 8 + c) =~= b.subrange(8, 8 + c));
    }
    assert(blob.subrange(8 + c, 12 + c) =~= h2) by {
        assert(blob.subrange(8 + c, 12 + c) =~= d.subrange(8 + c, 12 + c));
    }
    assert(blob.subrange(12 + c, 12 + c + k) =~= controller);
}


/// The error of a bundle that cannot be used: "VST3 <bundle>: <what>".
pub fn module_error(bundle: &str, what: &str) -> (r: StillError)
    ensures
        r matches StillError::Playback(m) && m@ == "VST3 "@ + bundle@ + ": "@ + what@,
{
    let mut m: Vec<char> = chars_of("VST3 ");
    extend_str(&mut m, bundle);
    extend_str(&mut m, ": ");
    extend_str(&mut m, what);
    StillError::Playback(string_of(m.as_slice()))
}

} // verus!
