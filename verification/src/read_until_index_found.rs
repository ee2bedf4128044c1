//! Scanning a byte stream for a caller-defined boundary.
//!
//! A buffered source delivers bytes in windows of arbitrary size; a logical
//! record may span several of them. Each window is shown, as text, to a
//! caller-supplied predicate that answers either "no boundary yet" or
//! "boundary at offset `i` within this window". Bytes are appended to the
//! caller's accumulator up to and including the boundary, and a running
//! counter tracks how many bytes were consumed since the last match.

use vstd::prelude::*;
use vstd::utf8::valid_utf8;
use vstd::string::StringSliceAdditionalSpecFns;

use crate::source::ChunkedSource;

verus! {

/// Decides where, within the currently available window, a record boundary
/// falls. The predicate is shown each window exactly once, never the
/// accumulated output, and may keep its own mutable state across calls.
pub trait BoundaryPredicate {
    /// Returns `Some(i)` to place a boundary at offset `i` of `text` (an
    /// offset at or past the end of the window is clamped to its last byte),
    /// or `None` when no boundary falls in this window.
    fn found_index(&mut self, text: &str) -> Option<usize>;
}

/// The terminal result of one scan call.
#[derive(Clone, Copy, Debug, PartialEq, Eq, Structural)]
pub enum ScanOutcome {
    /// A boundary was found; the payload is the number of bytes consumed
    /// since the counter was last reset, boundary byte included.
    Found(usize),
    /// The source is exhausted and no boundary was ever signalled.
    NotFound,
    /// The window was wholly consumed without a boundary; more data is
    /// expected from the source.
    More,
    /// The current window is not valid UTF-8, so it cannot be shown to the
    /// predicate; nothing was consumed or appended in this cycle.
    DecodeFailed,
}

/// Appends the first `n` bytes of `view` to `buf`.
fn append_prefix(buf: &mut Vec<u8>, view: &[u8], n: usize)
    requires
        n <= view@.len(),
    ensures
        final(buf)@ == old(buf)@ + view@.subrange(0, n as int),
{
    let mut j: usize = 0;
    while j < n
        invariant
            n <= view@.len(),
            j <= n,
            buf@ == old(buf)@ + view@.subrange(0, j as int),
        decreases n - j,
    {
        buf.push(view[j]);
        proof {
            assert(view@.subrange(0, j + 1 as int) =~= view@.subrange(0, j as int).push(
                view@[j as int],
            ));
        }
        j = j + 1;
    }
}

/// One fill cycle's bookkeeping once the predicate's answer for the current
/// window is known: the consumed prefix of `view` goes to `buf`, its length
/// is added to `read`, and the result says whether the cycle is done (`r.0`)
/// and how many bytes of the window were used (`r.1`).
///
/// A boundary offset at or past the window's last byte is clamped to the
/// last byte, so the whole window is consumed as part of the match; on an
/// empty window a signalled boundary consumes nothing.
pub fn cycle_given_index(view: &[u8], found: Option<usize>, buf: &mut Vec<u8>, read: &mut usize) -> (r: (
    bool,
    usize,
))
    requires
        *old(read) + view@.len() <= usize::MAX,
    ensures
        r.1 <= view@.len(),
        final(buf)@ == old(buf)@ + view@.subrange(0, r.1 as int),
        final(buf)@.subrange(0, old(buf)@.len() as int) == old(buf)@,
        *final(read) == *old(read) + r.1,
        match found {
            Some(i) => r.0 && (view@.len() > 0 ==> r.1 == vstd::math::min(i as int, view@.len()
                - 1) + 1) && (view@.len() == 0 ==> r.1 == 0),
            None => !r.0 && r.1 == view@.len(),
        },
{
    let r: (bool, usize) = match found {
        Some(i) => {
            if view.len() > 0 {
                let last: usize = view.len() - 1;
                let clamped: usize = if i < last {
                    i
                } else {
                    last
                };
                append_prefix(buf, view, clamped + 1);
                *read = *read + (clamped + 1);
                (true, clamped + 1)
            } else {
                (true, 0)
            }
        },
        None => {
            append_prefix(buf, view, view.len());
            *read = *read + view.len();
            (false, view.len())
        },
    };
    proof {
        assert(buf@.subrange(0, old(buf)@.len() as int) =~= old(buf)@);
        if r.1 == 0 {
            assert(buf@ =~= old(buf)@ + view@.subrange(0, 0));
        }
    }
    r
}

/// Relies on `str::from_utf8`: it succeeds exactly on valid UTF-8 input, and
/// the string it returns is a view of the very bytes it was given.
#[verifier::external_body]
fn decode_view<'a>(view: &'a [u8]) -> (r: Option<&'a str>)
    ensures
        r is Some <==> valid_utf8(view@),
        r matches Some(s) ==> s.spec_bytes() == view@,
{
    core::str::from_utf8(view).ok()
}

/// One full fill cycle: decodes the window, shows it to the predicate, and
/// does the cycle's bookkeeping. Returns the cycle's outcome and how many
/// bytes of the window were used (`r.1`), which the caller must consume from
/// its source before requesting the next window.
///
/// Whatever the predicate answers: exactly the used prefix of the window is
/// appended to `buf`, in order and after the accumulator's existing bytes,
/// and the counter grows by the same amount until a match resets it.
pub fn scan_cycle<P: BoundaryPredicate>(
    view: &[u8],
    predicate_found_index: &mut P,
    buf: &mut Vec<u8>,
    read: &mut usize,
) -> (r: (ScanOutcome, usize))
    requires
        *old(read) + view@.len() <= usize::MAX,
    ensures
        r.1 <= view@.len(),
        final(buf)@ == old(buf)@ + view@.subrange(0, r.1 as int),
        final(buf)@.subrange(0, old(buf)@.len() as int) == old(buf)@,
        r.0 is DecodeFailed <==> !valid_utf8(view@),
        r.0 is DecodeFailed ==> r.1 == 0 && *final(read) == *old(read),
        r.0 matches ScanOutcome::Found(n) ==> n == *old(read) + r.1 && *final(read) == 0 && r.1
            > 0,
        r.0 is More ==> *final(read) == *old(read) + r.1 && r.1 == view@.len() && r.1 > 0,
        r.0 is NotFound ==> r.1 == 0 && view@.len() == 0 && *final(read) == *old(read),
{
    match decode_view(view) {
        None => {
            proof {
                assert(buf@ =~= old(buf)@ + view@.subrange(0, 0));
            }
            (ScanOutcome::DecodeFailed, 0)
        },
        Some(text) => {
            let found = predicate_found_index.found_index(text);
            let (done, used) = cycle_given_index(view, found, buf, read);
            if used > 0 && done {
                let n: usize = *read;
                *read = 0;
                (ScanOutcome::Found(n), used)
            } else if used > 0 {
                (ScanOutcome::More, used)
            } else {
                (ScanOutcome::NotFound, used)
            }
        },
    }
}

/// Scans the source until the predicate places a boundary or the stream is
/// exhausted, appending every consumed byte to `buf` in stream order.
///
/// Each cycle pulls one window from the source, shows it to the predicate as
/// text and consumes the used prefix. The contract holds whatever the
/// predicate answers: the bytes taken from the source and the bytes appended
/// to the accumulator are the same sequence, the accumulator's existing
/// contents stay untouched, and the counter accounts for exactly the bytes
/// consumed since it was last reset — `Found(n)` reports the counter's final
/// value and resets it to zero, while the other outcomes leave it as
/// accumulated. An exhausted source is reported as `NotFound` within a
/// single further cycle, and a window that is not valid UTF-8 stops the scan
/// with `DecodeFailed` before any of its bytes are consumed.
pub fn read_until_index_found<P: BoundaryPredicate>(
    source: &mut ChunkedSource,
    predicate_found_index: &mut P,
    buf: &mut Vec<u8>,
    read: &mut usize,
) -> (r: ScanOutcome)
    requires
        old(source).wf(),
        *old(read) + old(source).remaining().len() <= usize::MAX,
    ensures
        final(source).wf(),
        final(source).stream() == old(source).stream(),
        old(source).consumed() <= final(source).consumed() <= old(source).consumed() + old(
            source,
        ).remaining().len(),
        final(source).remaining() == old(source).remaining().skip(
            final(source).consumed() - old(source).consumed(),
        ),
        final(source).consumed_bytes() == old(source).consumed_bytes() + old(
            source,
        ).remaining().subrange(0, final(source).consumed() - old(source).consumed()),
        final(buf)@ == old(buf)@ + old(source).remaining().subrange(
            0,
            final(source).consumed() - old(source).consumed(),
        ),
        final(buf)@.subrange(0, old(buf)@.len() as int) == old(buf)@,
        !(r is More),
        r matches ScanOutcome::Found(n) ==> n == *old(read) + (final(source).consumed() - old(
            source,
        ).consumed()) && *final(read) == 0 && final(source).consumed() > old(source).consumed(),
        r is NotFound ==> final(source).remaining().len() == 0 && *final(read) == *old(read) + (
        final(source).consumed() - old(source).consumed()),
        r is DecodeFailed ==> !valid_utf8(final(source).avail()) && *final(read) == *old(read) + (
        final(source).consumed() - old(source).consumed()),
        old(source).remaining().len() == 0 ==> r is NotFound && final(source).consumed() == old(
            source,
        ).consumed(),
{
    loop
        invariant
            source.wf(),
            old(source).consumed() <= source.consumed() <= old(source).consumed() + old(
                source,
            ).remaining().len(),
            source.stream() == old(source).stream(),
            source.remaining() == old(source).remaining().skip(
                source.consumed() - old(source).consumed(),
            ),
            source.consumed_bytes() == old(source).consumed_bytes() + old(
                source,
            ).remaining().subrange(0, source.consumed() - old(source).consumed()),
            buf@ == old(buf)@ + old(source).remaining().subrange(
                0,
                source.consumed() - old(source).consumed(),
            ),
            buf@.subrange(0, old(buf)@.len() as int) == old(buf)@,
            *read == *old(read) + (source.consumed() - old(source).consumed()),
            *read + source.remaining().len() <= usize::MAX,
        decreases source.remaining().len(),
    {
        let ghost k0: int = source.consumed() - old(source).consumed();
        let ghost rem0 = source.remaining();
        let v = source.fill();
        let (out, used) = scan_cycle(&v, predicate_found_index, buf, read);
        proof {
            assert(v@.subrange(0, used as int) =~= rem0.subrange(0, used as int));
            assert(old(source).remaining().subrange(0, k0 + used) =~= old(
                source,
            ).remaining().subrange(0, k0) + rem0.subrange(0, used as int));
            assert(buf@ =~= old(buf)@ + old(source).remaining().subrange(0, k0 + used));
            assert(buf@.subrange(0, old(buf)@.len() as int) =~= old(buf)@);
        }
        match out {
            ScanOutcome::More => {
                source.consume(used);
                proof {
                    assert(source.remaining() =~= old(source).remaining().skip(k0 + used));
                    assert(source.consumed_bytes() =~= old(source).consumed_bytes() + old(
                        source,
                    ).remaining().subrange(0, k0 + used));
                }
            },
            ScanOutcome::Found(n) => {
                source.consume(used);
                proof {
                    assert(source.remaining() =~= old(source).remaining().skip(k0 + used));
                    assert(source.consumed_bytes() =~= old(source).consumed_bytes() + old(
                        source,
                    ).remaining().subrange(0, k0 + used));
                }
                return ScanOutcome::Found(n);
            },
            ScanOutcome::NotFound => {
                source.consume(used);
                proof {
                    assert(source.remaining() =~= old(source).remaining().skip(k0 + used));
                    assert(source.consumed_bytes() =~= old(source).consumed_bytes() + old(
                        source,
                    ).remaining().subrange(0, k0 + used));
                }
                return ScanOutcome::NotFound;
            },
            ScanOutcome::DecodeFailed => {
                proof {
                    if old(source).remaining().len() == 0 {
                        assert(v@ =~= Seq::<u8>::empty());
                        assert(valid_utf8(Seq::<u8>::empty()));
                    }
                }
                return ScanOutcome::DecodeFailed;
            },
        }
    }
}

/// Conservation law: the bytes already consumed and the bytes still
/// remaining always partition the source's stream, so once nothing remains,
/// exactly the whole stream — each byte once, none skipped — has been
/// consumed, however the stream was windowed.
pub proof fn lemma_conservation(s: ChunkedSource)
    ensures
        s.stream() == s.consumed_bytes() + s.remaining(),
        s.remaining().len() == 0 ==> s.consumed_bytes() == s.stream(),
        s.consumed() <= s.stream().len(),
{
    if s.remaining().len() == 0 {
        assert(s.consumed_bytes() =~= s.consumed_bytes() + s.remaining());
    }
}

/// Append-only law: when a call leaves the accumulator equal to its old
/// contents followed by what the call appended, the old contents survive as
/// an unmodified prefix; over any sequence of calls only suffix growth
/// occurs.
pub proof fn lemma_append_only(before: Seq<u8>, appended: Seq<u8>, after: Seq<u8>)
    requires
        after == before + appended,
    ensures
        after.len() == before.len() + appended.len(),
        after.subrange(0, before.len() as int) == before,
        after.subrange(before.len() as int, after.len() as int) == appended,
{
    assert(after.subrange(0, before.len() as int) =~= before);
    assert(after.subrange(before.len() as int, after.len() as int) =~= appended);
}

} // verus!
