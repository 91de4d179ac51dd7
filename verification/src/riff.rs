//! The RIFF/WAVE bytes a CD image is assembled from: the sample data of a
//! rendered track, found by walking its chunks, and the header of the
//! 16-bit stereo 44.1 kHz image written around the joined tracks.

use vstd::prelude::*;
use crate::export::CD_RATE;
use crate::record::{push_ascii, push_le32};
use crate::vst3::{from_le32, le32, lemma_le32_roundtrip};

verus! {

/// The four bytes of an ASCII tag.
pub open spec fn tag(s: Seq<char>) -> Seq<u8> {
    s.map_values(|c: char| c as u8)
}

/// The header of a 16-bit stereo PCM WAV at the CD rate holding
/// `data_bytes` bytes of samples.
pub open spec fn spec_cd_wav_header(data_bytes: nat) -> Seq<u8> {
    tag("RIFF"@) + le32(36 + data_bytes) + tag("WAVEfmt "@) + le32(16) + seq![1u8, 0u8, 2u8, 0u8]
        + le32(CD_RATE as nat) + le32(CD_RATE as nat * 4) + seq![4u8, 0u8, 16u8, 0u8] + tag("data"@)
        + le32(data_bytes)
}

/// The header of the CD image's WAV file, for `data_bytes` bytes of
/// samples.
pub fn cd_wav_header(data_bytes: u32) -> (r: Vec<u8>)
    requires
        data_bytes + 36 <= u32::MAX,
    ensures
        r@ == spec_cd_wav_header(data_bytes as nat),
        r@.len() == 44,
{
    proof {
        reveal_strlit("RIFF");
        reveal_strlit("WAVEfmt ");
        reveal_strlit("data");
    }
    let mut h: Vec<u8> = Vec::new();
    push_ascii(&mut h, "RIFF");
    push_le32(&mut h, 36 + data_bytes);
    push_ascii(&mut h, "WAVEfmt ");
    push_le32(&mut h, 16);
    let ghost a = h@;
    h.push(1);
    h.push(0);
    h.push(2);
    h.push(0);
    assert(h@ =~= a + seq![1u8, 0u8, 2u8, 0u8]);
    push_le32(&mut h, CD_RATE);
    push_le32(&mut h, CD_RATE * 4);
    let ghost b = h@;
    h.push(4);
    h.push(0);
    h.push(16);
    h.push(0);
    assert(h@ =~= b + seq![4u8, 0u8, 16u8, 0u8]);
    push_ascii(&mut h, "data");
    push_le32(&mut h, data_bytes);
    h
}

/// Reading back a CD image's WAV: after the header written for `d.len()`
/// bytes, the sample data found is exactly `d`.
pub proof fn law_header_then_data(d: Seq<u8>)
    requires
        d.len() + 36 <= u32::MAX,
    ensures
        data_chunk(spec_cd_wav_header(d.len()) + d) == Some((44int, 44 + d.len() as int)),
        (spec_cd_wav_header(d.len()) + d).subrange(44, 44 + d.len() as int) == d,
{
    reveal_strlit("RIFF");
    reveal_strlit("WAVEfmt ");
    reveal_strlit("data");
    reveal_strlit("WAVE");
    let n = d.len();
    let h = spec_cd_wav_header(n);
    let b = h + d;
    assert(tag("RIFF"@) =~= seq![82u8, 73u8, 70u8, 70u8]);
    assert(tag("WAVE"@) =~= seq![87u8, 65u8, 86u8, 69u8]);
    assert(tag("data"@) =~= seq![100u8, 97u8, 116u8, 97u8]);
    assert(tag("WAVEfmt "@) =~= seq![87u8, 65u8, 86u8, 69u8, 102u8, 109u8, 116u8, 32u8]);
    assert(h.len() == 44);
    lemma_le32_roundtrip(16);
    lemma_le32_roundtrip(n as int);
    assert(b.subrange(0, 4) =~= tag("RIFF"@));
    assert(b.subrange(8, 12) =~= tag("WAVE"@));
    assert(b.subrange(12, 16) != tag("data"@)) by {
        assert(b.subrange(12, 16)[0] == 102u8);
    }
    assert(b.subrange(16, 20) =~= le32(16));
    assert(b.subrange(36, 40) =~= tag("data"@));
    assert(b.subrange(40, 44) =~= le32(n));
    assert(data_chunk_from(b, 36) == Some((44int, 44 + n as int)));
    assert(data_chunk_from(b, 12) == data_chunk_from(b, 36));
    assert(b.subrange(44, 44 + n as int) =~= d);
}

/// Where the chunk walk that starts at byte `at` finds the "data" chunk:
/// the span of its body, cut at the end of the file. Each chunk is an
/// ID, a little-endian size and a body padded to an even length; the
/// walk stops, finding nothing, where no whole chunk header is left.
pub open spec fn data_chunk_from(b: Seq<u8>, at: int) -> Option<(int, int)>
    decreases b.len() - at,
{
    if at < 0 || at + 8 > b.len() {
        None
    } else {
        let len = from_le32(b.subrange(at + 4, at + 8)) as int;
        let body = at + 8;
        if b.subrange(at, at + 4) == tag("data"@) {
            Some((body, if body + len < b.len() { body + len } else { b.len() as int }))
        } else {
            let next = body + len + len % 2;
            data_chunk_from(b, if next < b.len() { next } else { b.len() as int })
        }
    }
}

/// The span of the sample data of a RIFF/WAVE file, if it has one: the
/// file starts with "RIFF", a size and "WAVE", then chunks follow.
pub open spec fn data_chunk(b: Seq<u8>) -> Option<(int, int)> {
    if b.len() < 12 || b.subrange(0, 4) != tag("RIFF"@) || b.subrange(8, 12) != tag("WAVE"@) {
        None
    } else {
        data_chunk_from(b, 12)
    }
}

fn is_tag(b: &[u8], at: usize, t0: u8, t1: u8, t2: u8, t3: u8) -> (r: bool)
    requires
        at + 4 <= b@.len(),
    ensures
        r == (b@.subrange(at as int, at + 4) == seq![t0, t1, t2, t3]),
{
    let r = b[at] == t0 && b[at + 1] == t1 && b[at + 2] == t2 && b[at + 3] == t3;
    assert(r ==> b@.subrange(at as int, at + 4) =~= seq![t0, t1, t2, t3]);
    assert(b@.subrange(at as int, at + 4) == seq![t0, t1, t2, t3] ==> b@.subrange(at as int, at + 4)[0] == t0
        && b@.subrange(at as int, at + 4)[1] == t1 && b@.subrange(at as int, at + 4)[2] == t2
        && b@.subrange(at as int, at + 4)[3] == t3);
    r
}

fn read_le32(b: &[u8], at: usize) -> (r: u32)
    requires
        at + 4 <= b@.len(),
    ensures
        r == from_le32(b@.subrange(at as int, at + 4)),
{
    let v: u64 = b[at] as u64 + b[at + 1] as u64 * 256 + b[at + 2] as u64 * 65536 + b[at + 3] as u64
        * 16777216;
    v as u32
}

/// The sample data of a RIFF/WAVE file: the body of its "data" chunk, cut
/// at the end of the file; `None` where the file is no WAVE file or has
/// no data chunk.
pub fn wav_data(bytes: &[u8]) -> (r: Option<Vec<u8>>)
    ensures
        match data_chunk(bytes@) {
            Some((s, e)) => r matches Some(v) && v@ == bytes@.subrange(s, e),
            None => r is None,
        },
{
    proof {
        reveal_strlit("RIFF");
        reveal_strlit("WAVE");
        reveal_strlit("data");
    }
    assert(tag("RIFF"@) =~= seq![82u8, 73u8, 70u8, 70u8]);
    assert(tag("WAVE"@) =~= seq![87u8, 65u8, 86u8, 69u8]);
    assert(tag("data"@) =~= seq![100u8, 97u8, 116u8, 97u8]);
    if bytes.len() < 12 || !is_tag(bytes, 0, 82, 73, 70, 70) || !is_tag(bytes, 8, 87, 65, 86, 69) {
        return None;
    }
    let n = bytes.len();
    let mut at: usize = 12;
    while 8 <= n - at
        invariant
            12 <= at <= n,
            n == bytes@.len(),
            data_chunk(bytes@) == data_chunk_from(bytes@, at as int),
            tag("data"@) == seq![100u8, 97u8, 116u8, 97u8],
        decreases n - at,
    {
        let len = read_le32(bytes, at + 4) as usize;
        let body = at + 8;
        if is_tag(bytes, at, 100, 97, 116, 97) {
            let end = if len < n - body { body + len } else { n };
            let mut v: Vec<u8> = Vec::new();
            let mut k: usize = body;
            while k < end
                invariant
                    body <= k <= end <= n,
                    n == bytes@.len(),
                    v@ == bytes@.subrange(body as int, k as int),
                decreases end - k,
            {
                v.push(bytes[k]);
                k += 1;
                assert(v@ =~= bytes@.subrange(body as int, k as int));
            }
            return Some(v);
        }
        if len >= n - body {
            at = n;
        } else {
            at = body + len + len % 2;
        }
    }
    None
}

} // verus!
