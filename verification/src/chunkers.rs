//! The chunker adapter surface.
//!
//! A chunker cuts a rolling byte buffer into contiguous spans; the caller
//! hashes each span and inserts the pair into the index.  The last,
//! possibly incomplete, span is retained as the chunker's remainder and
//! prepended to the next buffer by the caller.  The fixed-size chunker is
//! implemented here in full; the content-defined chunkers keep their state
//! and their span bookkeeping here, while the boundary-selection algorithms
//! themselves live outside the library.

use std::collections::HashMap;
use vstd::prelude::*;
use vstd::slice::slice_subrange;
use vstd::slice::slice_to_vec;

verus! {

/// One span over a byte buffer: `len` bytes starting at `pos`.
#[derive(Clone, Copy, Debug, PartialEq, Eq, Structural)]
pub struct Chunk {
    pub pos: usize,
    pub len: usize,
}

impl Chunk {
    /// A span of `length` bytes starting at `offset`.
    pub fn new(offset: usize, length: usize) -> (c: Chunk)
        ensures
            c.pos == offset,
            c.len == length,
    {
        Chunk { pos: offset, len: length }
    }

    /// Length of the span.
    pub fn length(&self) -> (l: usize)
        ensures
            l == self.len,
    {
        self.len
    }
}

/// The spans of a fixed-size split of `len` bytes into `size`-byte chunks:
/// only the full chunks; a short tail is the remainder.
pub open spec fn fs_spans(len: int, size: int) -> Seq<Chunk>
    recommends
        size > 0,
{
    Seq::new((len / size) as nat, |i: int| Chunk { pos: (i * size) as usize, len: size as usize })
}

/// A chunker: cuts a buffer into spans, holds back the unconsumed tail.
pub trait Chunker: Sized {
    /// The chunker's own invariant.
    spec fn inv(&self) -> bool;

    /// The bytes held back by the last call.
    spec fn spec_remainder(&self) -> Seq<u8>;

    /// What a call emits: relates the state before the call, the buffer,
    /// the emitted spans and the state after the call.
    spec fn chunk_ok(&self, pre: Self, data: Seq<u8>, chunks: Seq<Chunk>) -> bool;

    /// Cut `data` into spans, appending them to the (empty, possibly
    /// preallocated) vector `empty`; the unconsumed tail stays behind as
    /// the remainder.
    fn chunk_data(&mut self, data: &[u8], empty: Vec<Chunk>) -> (chunks: Vec<Chunk>)
        requires
            old(self).inv(),
            0 < data@.len() < 0x4000_0000,
            empty@.len() == 0,
        ensures
            final(self).inv(),
            final(self).chunk_ok(*old(self), data@, chunks@),
    ;

    /// The unconsumed tail to be prepended to the next buffer.
    fn remainder(&self) -> (r: &[u8])
        ensures
            r@ == self.spec_remainder(),
    ;

    /// The capacity hint this chunker gives for a buffer.
    spec fn spec_estimate(&self, data: Seq<u8>) -> usize;

    /// A capacity hint for the span list a buffer will produce.
    fn estimate_chunk_count(&self, data: &[u8]) -> (n: usize)
        requires
            self.inv(),
            data@.len() < 0x4000_0000,
        ensures
            n == self.spec_estimate(data@),
    ;
}

/// Fixed-size chunking: spans of one fixed length, back to back.
#[derive(Debug)]
pub struct FSChunker {
    chunk_size: usize,
    rest: Vec<u8>,
}

impl FSChunker {
    /// A fixed-size chunker cutting `chunk_size`-byte spans.
    pub fn new(chunk_size: usize) -> (c: Self)
        requires
            0 < chunk_size < 0x4000_0000,
        ensures
            c.inv(),
            c.spec_size() == chunk_size,
            c.spec_remainder() == Seq::<u8>::empty(),
    {
        let c = FSChunker { chunk_size, rest: Vec::new() };
        proof {
            assert(c.rest@ =~= Seq::<u8>::empty());
        }
        c
    }

    /// The fixed span length.
    pub closed spec fn spec_size(self) -> usize {
        self.chunk_size
    }
}

impl Chunker for FSChunker {
    open spec fn inv(&self) -> bool {
        0 < self.spec_size() < 0x4000_0000
    }

    closed spec fn spec_remainder(&self) -> Seq<u8> {
        self.rest@
    }

    /// The emitted spans are exactly the full `chunk_size`-byte spans of
    /// the buffer, and the remainder is the short tail (empty when the
    /// buffer length is a multiple of the span length).
    open spec fn chunk_ok(&self, pre: Self, data: Seq<u8>, chunks: Seq<Chunk>) -> bool {
        let size = pre.spec_size() as int;
        &&& self.spec_size() == pre.spec_size()
        &&& chunks == fs_spans(data.len() as int, size)
        &&& self.spec_remainder() == data.skip((data.len() as int / size) * size)
    }

    fn chunk_data(&mut self, data: &[u8], empty: Vec<Chunk>) -> (chunks: Vec<Chunk>)
    {
        let size = self.chunk_size;
        let len = data.len();
        let mut chunks = empty;
        let mut offset: usize = 0;
        let ghost mut count: int = 0;
        while offset < len
            invariant
                0 < size < 0x4000_0000,
                len == data@.len(),
                len < 0x4000_0000,
                offset == count * size,
                0 <= count,
                count * size < len + size,
                chunks@.len() == count,
                forall|j: int|
                    0 <= j < count ==> #[trigger] chunks@[j] == (Chunk {
                        pos: (j * size) as usize,
                        len: if (j + 1) * size <= len {
                            size as usize
                        } else {
                            (len - j * size) as usize
                        },
                    }),
            decreases len + size - offset,
        {
            let this_len = if size < len - offset {
                size
            } else {
                len - offset
            };
            chunks.push(Chunk { pos: offset, len: this_len });
            proof {
                assert((count + 1) * size == count * size + size) by (nonlinear_arith);
                count = count + 1;
            }
            offset = offset + size;
        }
        // the last span is short exactly when the length is not a multiple
        let ghost full = data@.len() as int / size as int;
        proof {
            let l = len as int;
            let sz = size as int;
            let c = count;
            assert(c * sz >= l);
            assert(c >= 1) by (nonlinear_arith)
                requires
                    sz > 0,
                    l > 0,
                    c * sz >= l,
            ;
            assert((c - 1) * sz < l) by (nonlinear_arith)
                requires
                    c * sz < l + sz,
            ;
            assert(l % sz == 0 ==> c == l / sz) by (nonlinear_arith)
                requires
                    sz > 0,
                    l > 0,
                    c * sz >= l,
                    (c - 1) * sz < l,
            ;
            assert(l % sz != 0 ==> c == l / sz + 1) by (nonlinear_arith)
                requires
                    sz > 0,
                    l > 0,
                    c * sz >= l,
                    (c - 1) * sz < l,
            ;
            assert((l / sz) * sz + l % sz == l) by (nonlinear_arith)
                requires
                    sz > 0,
            ;
            assert(0 <= l % sz < sz) by (nonlinear_arith)
                requires
                    sz > 0,
                    l > 0,
            ;
        }
        let last = match chunks.pop() {
            Some(c) => c,
            None => vstd::pervasive::unreached(),
        };
        if last.len < size {
            proof {
                assert(data@.len() as int % size as int != 0);
                assert(last.pos as int == full * size as int);
                assert(last.pos <= len);
            }
            self.rest = slice_to_vec(slice_subrange(data, last.pos, len));
            proof {
                assert(self.rest@ =~= data@.skip(full * size as int));
                assert(chunks@ =~= fs_spans(len as int, size as int)) by {
                    assert forall|j: int| 0 <= j < full implies #[trigger] ((j + 1) * size as int)
                        <= len as int by {
                        assert((j + 1) * size as int <= full * size as int) by (nonlinear_arith)
                            requires
                                size > 0,
                                j + 1 <= full,
                        ;
                        assert(full * size as int <= len as int) by (nonlinear_arith)
                            requires
                                size > 0,
                                full == len as int / size as int,
                                (len as int / size as int) * size as int + len as int % size as int
                                    == len as int,
                                len as int % size as int >= 0,
                        ;
                    }
                }
            }
            chunks
        } else {
            chunks.push(last);
            self.rest = Vec::new();
            proof {
                let l = len as int;
                let sz = size as int;
                let c = count;
                assert(last == Chunk {
                    pos: ((c - 1) * sz) as usize,
                    len: if c * sz <= l {
                        sz as usize
                    } else {
                        (l - (c - 1) * sz) as usize
                    },
                });
                if c * sz > l {
                    assert(last.len as int == l - (c - 1) * sz);
                    assert(l - (c - 1) * sz < sz);
                    assert(false);
                }
                assert(l == c * sz);
                assert(l % sz == 0 && l / sz == c) by (nonlinear_arith)
                    requires
                        sz > 0,
                        c >= 0,
                        l == c * sz,
                ;
                assert(self.rest@ =~= data@.skip(full * sz));
                assert forall|j: int| 0 <= j < c implies #[trigger] ((j + 1) * sz) <= l by {
                    assert((j + 1) * sz <= c * sz) by (nonlinear_arith)
                        requires
                            sz > 0,
                            j + 1 <= c,
                    ;
                }
                assert(chunks@ =~= fs_spans(l, sz));
            }
            chunks
        }
    }

    fn remainder(&self) -> (r: &[u8]) {
        self.rest.as_slice()
    }

    open spec fn spec_estimate(&self, data: Seq<u8>) -> usize {
        (data.len() as int / self.spec_size() as int + 1) as usize
    }

    fn estimate_chunk_count(&self, data: &[u8]) -> (n: usize) {
        data.len() / self.chunk_size + 1
    }
}


/// Keep all spans but the last; the last span's bytes become the
/// remainder.  This is the bookkeeping every content-defined chunker does
/// after its boundary-selection pass.
fn split_spans(data: &[u8], raw: Vec<Chunk>, empty: Vec<Chunk>) -> (r: (Vec<Chunk>, Vec<u8>))
    requires
        raw@.len() > 0,
        raw@.last().pos + raw@.last().len <= data@.len(),
        empty@.len() == 0,
    ensures
        r.0@ == raw@.drop_last(),
        r.1@ == data@.subrange(
            raw@.last().pos as int,
            raw@.last().pos + raw@.last().len,
        ),
{
    let mut chunks = empty;
    let n = raw.len();
    let mut i: usize = 0;
    while i < n - 1
        invariant
            0 <= i <= n - 1,
            n == raw@.len(),
            n >= 1,
            chunks@ =~= raw@.subrange(0, i as int),
        decreases n - 1 - i,
    {
        chunks.push(raw[i]);
        proof {
            assert(chunks@ =~= raw@.subrange(0, i + 1 as int));
        }
        i = i + 1;
    }
    proof {
        assert(chunks@ =~= raw@.drop_last());
    }
    let last = raw[n - 1];
    let data_len = data.len();
    proof {
        assert(last == raw@.last());
        assert(last.pos + last.len <= data_len);
    }
    let rest = slice_to_vec(slice_subrange(data, last.pos, last.pos + last.len));
    (chunks, rest)
}

/// Leap-based content-defined chunking; the boundary selection itself runs
/// outside the library and hands its spans back in.
#[derive(Debug)]
pub struct LeapChunker {
    rest: Vec<u8>,
}

impl Default for LeapChunker {
    /// A fresh chunker with no held-back bytes.
    fn default() -> (c: Self)
        ensures
            c.spec_remainder() == Seq::<u8>::empty(),
    {
        let c = LeapChunker { rest: Vec::new() };
        proof {
            assert(c.rest@ =~= Seq::<u8>::empty());
        }
        c
    }
}

impl LeapChunker {
    /// The bytes held back by the last pass.
    pub closed spec fn spec_remainder(self) -> Seq<u8> {
        self.rest@
    }

    /// Record the spans a boundary-selection pass produced over `data`:
    /// all but the last are emitted, the last is retained as the
    /// remainder.
    pub fn accept_spans(&mut self, data: &[u8], raw: Vec<Chunk>, empty: Vec<Chunk>) -> (chunks:
        Vec<Chunk>)
        requires
            raw@.len() > 0,
            raw@.last().pos + raw@.last().len <= data@.len(),
            empty@.len() == 0,
        ensures
            chunks@ == raw@.drop_last(),
            final(self).spec_remainder() == data@.subrange(
                raw@.last().pos as int,
                raw@.last().pos + raw@.last().len,
            ),
    {
        let (chunks, rest) = split_spans(data, raw, empty);
        self.rest = rest;
        chunks
    }

    /// The unconsumed tail to be prepended to the next buffer.
    pub fn remainder(&self) -> (r: &[u8])
        ensures
            r@ == self.spec_remainder(),
    {
        self.rest.as_slice()
    }

    /// A capacity hint for the span list a buffer will produce.
    pub fn estimate_chunk_count(&self, data: &[u8]) -> (n: usize)
        requires
            data@.len() < 0x4000_0000,
        ensures
            n == (data@.len() as int / 1024) * 8,
    {
        data.len() / 1024 * 8
    }
}

/// Ultra-style content-defined chunking; the boundary selection itself
/// runs outside the library and hands its spans back in.
#[derive(Debug)]
pub struct UltraChunker {
    rest: Vec<u8>,
}

impl Default for UltraChunker {
    /// A fresh chunker with no held-back bytes.
    fn default() -> (c: Self)
        ensures
            c.spec_remainder() == Seq::<u8>::empty(),
    {
        let c = UltraChunker { rest: Vec::new() };
        proof {
            assert(c.rest@ =~= Seq::<u8>::empty());
        }
        c
    }
}

impl UltraChunker {
    /// The bytes held back by the last pass.
    pub closed spec fn spec_remainder(self) -> Seq<u8> {
        self.rest@
    }

    /// Record the spans a boundary-selection pass produced over `data`:
    /// all but the last are emitted, the last is retained as the
    /// remainder.
    pub fn accept_spans(&mut self, data: &[u8], raw: Vec<Chunk>, empty: Vec<Chunk>) -> (chunks:
        Vec<Chunk>)
        requires
            raw@.len() > 0,
            raw@.last().pos + raw@.last().len <= data@.len(),
            empty@.len() == 0,
        ensures
            chunks@ == raw@.drop_last(),
            final(self).spec_remainder() == data@.subrange(
                raw@.last().pos as int,
                raw@.last().pos + raw@.last().len,
            ),
    {
        let (chunks, rest) = split_spans(data, raw, empty);
        self.rest = rest;
        chunks
    }

    /// The unconsumed tail to be prepended to the next buffer.
    pub fn remainder(&self) -> (r: &[u8])
        ensures
            r@ == self.spec_remainder(),
    {
        self.rest.as_slice()
    }

    /// A capacity hint for the span list a buffer will produce.
    pub fn estimate_chunk_count(&self, data: &[u8]) -> (n: usize)
        requires
            data@.len() < 0x4000_0000,
        ensures
            n == data@.len() as int / 4096,
    {
        data.len() / 4096
    }
}

/// Super-style content-defined chunking with a deduplication record table;
/// the boundary selection itself runs outside the library, borrowing the
/// records and handing them back with its spans.
#[derive(Debug)]
pub struct SuperChunker {
    rest: Vec<u8>,
    records: Option<HashMap<u64, usize>>,
}

impl SuperChunker {
    /// A fresh chunker with no held-back bytes and empty records.
    pub fn new() -> (c: Self)
        ensures
            c.spec_remainder() == Seq::<u8>::empty(),
            c.spec_records() is Some,
            c.spec_records().unwrap()@ == Map::<u64, usize>::empty(),
    {
        let c = SuperChunker { rest: Vec::new(), records: Some(HashMap::new()) };
        proof {
            assert(c.rest@ =~= Seq::<u8>::empty());
        }
        c
    }

    /// The bytes held back by the last pass.
    pub closed spec fn spec_remainder(self) -> Seq<u8> {
        self.rest@
    }

    /// The deduplication records, absent while a pass borrows them.
    pub closed spec fn spec_records(self) -> Option<HashMap<u64, usize>> {
        self.records
    }

    /// Lend the records to a boundary-selection pass.
    pub fn take_records(&mut self) -> (r: Option<HashMap<u64, usize>>)
        ensures
            r == old(self).spec_records(),
            final(self).spec_records() is None,
            final(self).spec_remainder() == old(self).spec_remainder(),
    {
        self.records.take()
    }

    /// Accept the records back from a boundary-selection pass.
    pub fn put_records(&mut self, records: HashMap<u64, usize>)
        ensures
            final(self).spec_records() == Some(records),
            final(self).spec_remainder() == old(self).spec_remainder(),
    {
        self.records = Some(records);
    }

    /// Record the spans a boundary-selection pass produced over `data`:
    /// all but the last are emitted, the last is retained as the
    /// remainder.
    pub fn accept_spans(&mut self, data: &[u8], raw: Vec<Chunk>, empty: Vec<Chunk>) -> (chunks:
        Vec<Chunk>)
        requires
            raw@.len() > 0,
            raw@.last().pos + raw@.last().len <= data@.len(),
            empty@.len() == 0,
        ensures
            chunks@ == raw@.drop_last(),
            final(self).spec_remainder() == data@.subrange(
                raw@.last().pos as int,
                raw@.last().pos + raw@.last().len,
            ),
            final(self).spec_records() == old(self).spec_records(),
    {
        let (chunks, rest) = split_spans(data, raw, empty);
        self.rest = rest;
        chunks
    }

    /// The unconsumed tail to be prepended to the next buffer.
    pub fn remainder(&self) -> (r: &[u8])
        ensures
            r@ == self.spec_remainder(),
    {
        self.rest.as_slice()
    }

    /// A capacity hint for the span list a buffer will produce.
    pub fn estimate_chunk_count(&self, data: &[u8]) -> (n: usize)
        requires
            data@.len() < 0x4000_0000,
        ensures
            n == data@.len() as int / 2048,
    {
        data.len() / 2048
    }
}

} // verus!
