//! An in-memory buffered byte source.
//!
//! The stream it serves is scripted as a sequence of non-empty chunks, each
//! chunk standing for one window the underlying transport would deliver.
//! `fill` hands out the unconsumed part of the current window and an empty
//! view once the stream is exhausted; `consume` permanently discards a prefix
//! of the most recent view. Every byte is handed out at most once, in stream
//! order, which the contracts state through the `consumed_bytes` /
//! `remaining` decomposition of the stream.

use vstd::prelude::*;

verus! {

/// The concatenation of `chunks[i..]`.
pub open spec fn tail_from(chunks: Seq<Seq<u8>>, i: int) -> Seq<u8>
    decreases chunks.len() - i,
{
    if i < 0 || i >= chunks.len() {
        Seq::empty()
    } else {
        chunks[i] + tail_from(chunks, i + 1)
    }
}

/// A buffered byte source whose stream arrives in scripted windows.
pub struct ChunkedSource {
    chunks: Vec<Vec<u8>>,
    idx: usize,
    off: usize,
    taken: Ghost<Seq<u8>>,
}

impl ChunkedSource {
    /// Internal consistency: the cursor points into the script, at most one
    /// window is partially consumed, and every scripted window is non-empty
    /// (an empty window would mean end of stream, which the script's end
    /// already expresses).
    pub closed spec fn wf(self) -> bool {
        &&& self.idx <= self.chunks@.len()
        &&& (self.idx < self.chunks@.len() ==> self.off <= self.chunks@[self.idx as int]@.len())
        &&& (self.idx == self.chunks@.len() ==> self.off == 0)
        &&& (forall|i: int| 0 <= i < self.chunks@.len() ==> #[trigger] self.chunks@[i]@.len() > 0)
    }

    /// The bytes not yet consumed, in stream order.
    pub closed spec fn remaining(self) -> Seq<u8> {
        if self.idx < self.chunks@.len() {
            self.chunks@[self.idx as int]@.skip(self.off as int) + tail_from(
                self.chunks.deep_view(),
                self.idx as int + 1,
            )
        } else {
            Seq::empty()
        }
    }

    /// The bytes already consumed, in the order they were handed out.
    pub closed spec fn consumed_bytes(self) -> Seq<u8> {
        self.taken@
    }

    /// How many bytes have been consumed.
    pub open spec fn consumed(self) -> nat {
        self.consumed_bytes().len()
    }

    /// The whole stream: what was consumed followed by what remains. `fill`
    /// and `consume` leave it unchanged, so no byte is ever lost, duplicated
    /// or reordered.
    pub open spec fn stream(self) -> Seq<u8> {
        self.consumed_bytes() + self.remaining()
    }

    /// The view the next `fill` returns: the unconsumed part of the current
    /// window, or the next window once the current one is exhausted.
    pub closed spec fn avail(self) -> Seq<u8> {
        if self.idx < self.chunks@.len() && self.off < self.chunks@[self.idx as int]@.len() {
            self.chunks@[self.idx as int]@.skip(self.off as int)
        } else if self.idx + 1 < self.chunks@.len() {
            self.chunks@[self.idx as int + 1]@
        } else {
            Seq::empty()
        }
    }

    /// A source whose stream is the concatenation of `chunks`, delivered one
    /// chunk per window, with nothing consumed yet.
    pub fn new(chunks: Vec<Vec<u8>>) -> (s: Self)
        requires
            forall|i: int| 0 <= i < chunks@.len() ==> #[trigger] chunks@[i]@.len() > 0,
        ensures
            s.wf(),
            s.consumed_bytes() == Seq::<u8>::empty(),
            s.remaining() == tail_from(chunks.deep_view(), 0),
            s.stream() == tail_from(chunks.deep_view(), 0),
    {
        let s = ChunkedSource { chunks, idx: 0, off: 0, taken: Ghost(Seq::empty()) };
        proof {
            if s.chunks@.len() > 0 {
                assert(s.chunks@[0]@.skip(0) =~= s.chunks.deep_view()[0]);
                assert(s.remaining() =~= tail_from(s.chunks.deep_view(), 0));
            }
            assert(s.stream() =~= s.remaining());
        }
        s
    }

    /// Advances past an exhausted window so that the cursor either sits
    /// strictly inside a window or at the end of the script.
    fn advance_window(&mut self)
        requires
            old(self).wf(),
        ensures
            final(self).wf(),
            final(self).remaining() == old(self).remaining(),
            final(self).consumed_bytes() == old(self).consumed_bytes(),
            final(self).avail() == old(self).avail(),
            final(self).chunks == old(self).chunks,
            final(self).idx < final(self).chunks@.len() ==> final(self).off
                < final(self).chunks@[final(self).idx as int]@.len(),
            final(self).avail() == final(self).remaining().subrange(
                0,
                final(self).avail().len() as int,
            ),
            final(self).avail().len() == 0 <==> final(self).remaining().len() == 0,
    {
        let ghost pre = *self;
        if self.idx < self.chunks.len() {
            let exhausted: bool = self.off == self.chunks[self.idx].len();
            if exhausted {
                self.idx = self.idx + 1;
                self.off = 0;
            }
        }
        proof {
            let cs = self.chunks.deep_view();
            if pre.idx < cs.len() && pre.off == cs[pre.idx as int].len() {
                assert(cs[pre.idx as int].skip(pre.off as int) =~= Seq::<u8>::empty());
                if self.idx < cs.len() {
                    assert(self.chunks@[self.idx as int]@.skip(0) =~= cs[self.idx as int]);
                    assert(pre.remaining() =~= cs[pre.idx as int].skip(pre.off as int) + tail_from(
                        cs,
                        pre.idx as int + 1,
                    ));
                    assert(tail_from(cs, pre.idx as int + 1) =~= cs[self.idx as int] + tail_from(
                        cs,
                        self.idx as int + 1,
                    ));
                    assert(self.remaining() =~= pre.remaining());
                } else {
                    assert(self.remaining() =~= pre.remaining());
                }
            }
            if self.idx < cs.len() {
                assert(self.avail() =~= self.chunks@[self.idx as int]@.skip(self.off as int));
                assert(self.avail() == self.remaining().subrange(0, self.avail().len() as int))
                    by {
                    assert(self.remaining() =~= self.avail() + tail_from(cs, self.idx as int + 1));
                    assert(self.remaining().subrange(0, self.avail().len() as int)
                        =~= self.avail());
                };
            } else {
                assert(self.avail() =~= Seq::<u8>::empty());
                assert(self.remaining() =~= Seq::<u8>::empty());
            }
        }
    }

    /// Returns a view of the currently available, not-yet-consumed bytes: a
    /// prefix of `remaining`, empty exactly when the stream is exhausted.
    /// Consumes nothing by itself.
    pub fn fill(&mut self) -> (v: Vec<u8>)
        requires
            old(self).wf(),
        ensures
            final(self).wf(),
            final(self).remaining() == old(self).remaining(),
            final(self).consumed_bytes() == old(self).consumed_bytes(),
            final(self).stream() == old(self).stream(),
            v@ == final(self).avail(),
            v@ == final(self).remaining().subrange(0, v@.len() as int),
            v@.len() == 0 <==> final(self).remaining().len() == 0,
            v@.len() <= final(self).remaining().len(),
    {
        self.advance_window();
        if self.idx < self.chunks.len() {
            let chunk_len: usize = self.chunks[self.idx].len();
            let mut v: Vec<u8> = Vec::new();
            let mut j: usize = self.off;
            while j < chunk_len
                invariant
                    self.idx < self.chunks@.len(),
                    self.off <= j <= chunk_len,
                    chunk_len == self.chunks@[self.idx as int]@.len(),
                    v@ == self.chunks@[self.idx as int]@.subrange(self.off as int, j as int),
                decreases chunk_len - j,
            {
                let b: u8 = self.chunks[self.idx][j];
                v.push(b);
                proof {
                    assert(self.chunks@[self.idx as int]@.subrange(self.off as int, j + 1 as int)
                        =~= self.chunks@[self.idx as int]@.subrange(self.off as int, j as int).push(
                        self.chunks@[self.idx as int]@[j as int],
                    ));
                }
                j = j + 1;
            }
            proof {
                assert(v@ =~= self.chunks@[self.idx as int]@.skip(self.off as int));
            }
            v
        } else {
            Vec::new()
        }
    }

    /// Permanently discards the first `n` bytes of the most recent `fill`
    /// view: they move from `remaining` to `consumed_bytes`, and the stream
    /// as a whole is unchanged.
    pub fn consume(&mut self, n: usize)
        requires
            old(self).wf(),
            n <= old(self).avail().len(),
        ensures
            final(self).wf(),
            final(self).remaining() == old(self).remaining().skip(n as int),
            final(self).consumed_bytes() == old(self).consumed_bytes()
                + old(self).remaining().subrange(0, n as int),
            final(self).consumed() == old(self).consumed() + n,
            final(self).stream() == old(self).stream(),
    {
        let ghost pre = *self;
        proof {
            self.taken = Ghost(self.taken@ + pre.remaining().subrange(0, n as int));
        }
        self.advance_window();
        let ghost mid = *self;
        if self.idx < self.chunks.len() {
            let chunk_len: usize = self.chunks[self.idx].len();
            proof {
                assert(mid.avail() =~= self.chunks@[self.idx as int]@.skip(self.off as int));
                assert(self.off + n <= chunk_len);
            }
            self.off = self.off + n;
        }
        proof {
            let cs = self.chunks.deep_view();
            if mid.idx < cs.len() {
                assert(mid.avail() =~= cs[mid.idx as int].skip(mid.off as int));
                assert(self.remaining() =~= mid.remaining().skip(n as int));
            } else {
                assert(n == 0);
                assert(self.remaining() =~= mid.remaining().skip(0));
            }
            assert(final(self).stream() =~= pre.stream()) by {
                assert(pre.remaining() =~= pre.remaining().subrange(0, n as int)
                    + pre.remaining().skip(n as int));
            };
        }
    }
}

} // verus!
