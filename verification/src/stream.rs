//! An in-memory byte stream with a cursor, the exchange buffer of plugin
//! state saves and restores: reads stop at the end, writes past the end
//! grow the buffer (zero-filling any gap), seeks may go past the end.

use vstd::prelude::*;

verus! {

/// Growable in-memory stream.
pub struct MemoryStream {
    data: Vec<u8>,
    cursor: usize,
}

/// Where a seek is measured from.
#[derive(Debug, Clone, Copy, PartialEq, Eq)]
pub enum SeekFrom {
    Start,
    Current,
    End,
}

/// The outcome of a seek.
#[derive(Debug, Clone, Copy, PartialEq, Eq)]
pub enum SeekOutcome {
    /// The target lies before the start: nothing moved.
    BeforeStart,
    /// The cursor is now at this position.
    Moved(u64),
}

/// `data` with `bytes` written at `at`, grown with zeros first when the
/// write ends past the end.
pub open spec fn written(data: Seq<u8>, at: nat, bytes: Seq<u8>) -> Seq<u8> {
    let end = at + bytes.len();
    let grown = if end > data.len() {
        data + Seq::new((end - data.len()) as nat, |_i: int| 0u8)
    } else {
        data
    };
    Seq::new(
        grown.len(),
        |i: int|
            if at <= i < end {
                bytes[i - at]
            } else {
                grown[i]
            },
    )
}

/// The bytes a read of up to `n` bytes at `at` returns.
pub open spec fn read_at(data: Seq<u8>, at: nat, n: nat) -> Seq<u8> {
    if at >= data.len() {
        seq![]
    } else if at + n <= data.len() {
        data.subrange(at as int, (at + n) as int)
    } else {
        data.subrange(at as int, data.len() as int)
    }
}

impl MemoryStream {
    /// The stream's bytes.
    pub closed spec fn bytes(&self) -> Seq<u8> {
        self.data@
    }

    /// The stream's cursor.
    pub closed spec fn position(&self) -> nat {
        self.cursor as nat
    }

    /// Empty stream, for a plugin to write its state into.
    pub fn new() -> (r: Self)
        ensures
            r.bytes() == Seq::<u8>::empty(),
            r.position() == 0,
    {
        MemoryStream { data: Vec::new(), cursor: 0 }
    }

    /// Stream positioned at 0 over existing data, for a plugin to read.
    pub fn with_data(data: &[u8]) -> (r: Self)
        ensures
            r.bytes() == data@,
            r.position() == 0,
    {
        let mut v: Vec<u8> = Vec::new();
        let mut i: usize = 0;
        while i < data.len()
            invariant
                i <= data@.len(),
                v@ == data@.take(i as int),
            decreases data@.len() - i,
        {
            v.push(data[i]);
            i += 1;
            proof {
                assert(v@ =~= data@.take(i as int));
            }
        }
        proof {
            assert(data@.take(data@.len() as int) =~= data@);
        }
        MemoryStream { data: v, cursor: 0 }
    }

    /// Take the bytes out, leaving the stream empty (cursor unchanged).
    pub fn take_data(&mut self) -> (r: Vec<u8>)
        ensures
            r@ == old(self).bytes(),
            final(self).bytes() == Seq::<u8>::empty(),
            final(self).position() == old(self).position(),
    {
        let mut out: Vec<u8> = Vec::new();
        std::mem::swap(&mut out, &mut self.data);
        out
    }

    /// Read up to `n` bytes at the cursor, advancing it past them.
    pub fn read(&mut self, n: usize) -> (r: Vec<u8>)
        ensures
            r@ == read_at(old(self).bytes(), old(self).position(), n as nat),
            final(self).bytes() == old(self).bytes(),
            final(self).position() == old(self).position() + r@.len(),
    {
        let len = self.data.len();
        let avail = if len >= self.cursor {
            len - self.cursor
        } else {
            0
        };
        let take = if n <= avail {
            n
        } else {
            avail
        };
        let mut out: Vec<u8> = Vec::new();
        let mut i: usize = 0;
        while i < take
            invariant
                i <= take,
                take <= avail,
                avail == (if len >= self.cursor {
                    len - self.cursor
                } else {
                    0
                }),
                len == self.data@.len(),
                out@.len() == i,
                forall|k: int| 0 <= k < i ==> #[trigger] out@[k] == self.data@[self.cursor + k],
            decreases take - i,
        {
            out.push(self.data[self.cursor + i]);
            i += 1;
        }
        proof {
            assert(out@ =~= read_at(self.data@, self.cursor as nat, n as nat));
        }
        self.cursor = self.cursor + take;
        out
    }

    /// Write `bytes` at the cursor (growing the stream with zeros first
    /// when the write ends past the end), advancing the cursor past them.
    pub fn write(&mut self, bytes: &[u8]) -> (r: usize)
        requires
            old(self).position() + bytes@.len() <= usize::MAX,
        ensures
            r == bytes@.len(),
            final(self).bytes() == written(old(self).bytes(), old(self).position(), bytes@),
            final(self).position() == old(self).position() + bytes@.len(),
    {
        let n = bytes.len();
        let end = self.cursor + n;
        let ghost d0 = self.data@;
        let ghost c0 = self.cursor;
        while self.data.len() < end
            invariant
                self.cursor == c0,
                end == c0 + n,
                d0.len() <= self.data@.len() <= (if end > d0.len() {
                    end as nat
                } else {
                    d0.len()
                }),
                self.data@ == d0 + Seq::new((self.data@.len() - d0.len()) as nat, |_i: int| 0u8),
            decreases end - self.data@.len(),
        {
            let ghost before = self.data@;
            self.data.push(0);
            proof {
                assert(self.data@ =~= d0 + Seq::new(
                    (self.data@.len() - d0.len()) as nat,
                    |_i: int| 0u8,
                ));
            }
        }
        let ghost grown = self.data@;
        proof {
            if end <= d0.len() {
                assert(grown =~= d0);
            }
        }
        let mut i: usize = 0;
        while i < n
            invariant
                i <= n == bytes@.len(),
                end == self.cursor + n,
                end <= self.data@.len(),
                self.data@.len() == grown.len(),
                forall|k: int|
                    0 <= k < grown.len() ==> #[trigger] self.data@[k] == if self.cursor <= k
                        < self.cursor + i {
                        bytes@[k - self.cursor]
                    } else {
                        grown[k]
                    },
            decreases n - i,
        {
            self.data.set(self.cursor + i, bytes[i]);
            i += 1;
        }
        proof {
            assert(self.data@ =~= written(d0, self.cursor as nat, bytes@));
        }
        self.cursor = end;
        n
    }

    /// Move the cursor relative to the start, itself or the end. A target
    /// before the start leaves it where it is.
    pub fn seek(&mut self, pos: i64, from: SeekFrom) -> (r: SeekOutcome)
        requires
            (match from {
                SeekFrom::Start => 0,
                SeekFrom::Current => old(self).position() as int,
                SeekFrom::End => old(self).bytes().len() as int,
            }) + pos <= i64::MAX,
            (match from {
                SeekFrom::Start => 0,
                SeekFrom::Current => old(self).position() as int,
                SeekFrom::End => old(self).bytes().len() as int,
            }) <= i64::MAX,
            (match from {
                SeekFrom::Start => 0,
                SeekFrom::Current => old(self).position() as int,
                SeekFrom::End => old(self).bytes().len() as int,
            }) + pos <= usize::MAX,
        ensures
            ({
                let target = (match from {
                    SeekFrom::Start => 0,
                    SeekFrom::Current => old(self).position() as int,
                    SeekFrom::End => old(self).bytes().len() as int,
                }) + pos;
                if target < 0 {
                    &&& r == SeekOutcome::BeforeStart
                    &&& final(self).position() == old(self).position()
                } else {
                    &&& r == SeekOutcome::Moved(target as u64)
                    &&& final(self).position() == target
                }
            }),
            final(self).bytes() == old(self).bytes(),
    {
        let base: i64 = match from {
            SeekFrom::Start => 0,
            SeekFrom::Current => self.cursor as i64,
            SeekFrom::End => self.data.len() as i64,
        };
        let target = base + pos;
        if target < 0 {
            return SeekOutcome::BeforeStart;
        }
        self.cursor = target as usize;
        SeekOutcome::Moved(target as u64)
    }

    /// The cursor position.
    pub fn tell(&self) -> (r: u64)
        ensures
            r == self.position(),
    {
        self.cursor as u64
    }
}

/// Reading back what was written: after writing `bytes` at `at`, a read
/// of as many bytes at `at` returns exactly `bytes`.
pub proof fn law_read_after_write(data: Seq<u8>, at: nat, bytes: Seq<u8>)
    ensures
        read_at(written(data, at, bytes), at, bytes.len()) == bytes,
{
    let w = written(data, at, bytes);
    if bytes.len() > 0 {
        assert(read_at(w, at, bytes.len()) =~= bytes);
    } else {
        assert(read_at(w, at, 0) =~= bytes);
    }
}

/// A stream opened over data reads it back whole.
pub proof fn law_read_whole(data: Seq<u8>)
    ensures
        read_at(data, 0, data.len()) == data,
{
    if data.len() > 0 {
        assert(read_at(data, 0, data.len()) =~= data);
    } else {
        assert(read_at(data, 0, 0) =~= data);
    }
}

} // verus!
