//! Properties that relate several operations on a ring buffer.

use vstd::prelude::*;

use crate::buffer::{
    accepted_len, dispatches, drains, full_chunks, registers, writes, Error, Handler, RingBuffer,
};

verus! {

/// A write takes as many bytes as are offered or as there is room for,
/// whichever is fewer, and raises the fill level by that many, never past the
/// capacity.
pub proof fn write_fill_level<H: Handler>(pre: RingBuffer<H>, bytes: Seq<u8>, n: usize, post: RingBuffer<H>)
    requires
        pre.wf(),
        writes(pre, bytes, n, post),
    ensures
        n == if bytes.len() < pre.cap() - pre@.len() {
            bytes.len() as int
        } else {
            pre.cap() - pre@.len()
        },
        post@.len() == pre@.len() + n,
        post@.len() <= post.cap(),
{
}

/// Draining twice in a row hands out everything held, then nothing.
pub proof fn drain_twice<H: Handler>(
    b0: RingBuffer<H>,
    first: Seq<u8>,
    b1: RingBuffer<H>,
    second: Seq<u8>,
    b2: RingBuffer<H>,
)
    requires
        b0.wf(),
        drains(b0, first, b1),
        drains(b1, second, b2),
    ensures
        first == b0@,
        second == Seq::<u8>::empty(),
{
}

/// Bytes that fit, written into an empty buffer and drained, come back as
/// they went in.
pub proof fn round_trip<H: Handler>(
    b0: RingBuffer<H>,
    bytes: Seq<u8>,
    n: usize,
    b1: RingBuffer<H>,
    out: Seq<u8>,
    b2: RingBuffer<H>,
)
    requires
        b0.wf(),
        b0@.len() == 0,
        bytes.len() <= b0.cap(),
        writes(b0, bytes, n, b1),
        drains(b1, out, b2),
    ensures
        n == bytes.len(),
        out == bytes,
{
    assert(bytes.take(n as int) =~= bytes);
    assert(out =~= bytes);
}

/// Two writes into an empty buffer, one after the other, take together as
/// many bytes as fit; a drain then hands out the first write whole, followed
/// by the part of the second that was taken.
pub proof fn two_writes_then_drain<H: Handler>(
    b0: RingBuffer<H>,
    a: Seq<u8>,
    na: usize,
    b1: RingBuffer<H>,
    b: Seq<u8>,
    nb: usize,
    b2: RingBuffer<H>,
    out: Seq<u8>,
    b3: RingBuffer<H>,
)
    requires
        b0.wf(),
        b0@.len() == 0,
        a.len() <= b0.cap(),
        writes(b0, a, na, b1),
        writes(b1, b, nb, b2),
        drains(b2, out, b3),
    ensures
        na == a.len(),
        na + nb == accepted_len((a.len() + b.len()) as int, b0.cap() as int, 0),
        out == a + b.take(nb as int),
{
    assert(a.take(na as int) =~= a);
    assert(b1@ =~= a);
}

/// A dispatching write fails while no handler is registered, and succeeds
/// once one is.
pub proof fn dispatch_needs_handler<H: Handler>(
    b0: RingBuffer<H>,
    bytes: Seq<u8>,
    r0: Result<(), Error>,
    b1: RingBuffer<H>,
    handler: H,
    b2: RingBuffer<H>,
    r1: Result<(), Error>,
    b3: RingBuffer<H>,
)
    requires
        b0.wf(),
        b0.handler() is None,
        dispatches(b0, bytes, r0, b1),
        registers(b1, handler, b2),
        dispatches(b2, bytes, r1, b3),
    ensures
        r0 == Err::<(), Error>(Error::CallBack),
        b1@ == b0@,
        r1 == Ok::<(), Error>(()),
{
}

/// A dispatching write into an empty buffer with a handler hands the
/// handler one chunk per whole capacity's worth of bytes: the `i`-th holds
/// bytes `i * C .. (i + 1) * C` of the input, where `C` is the capacity.
pub proof fn dispatch_chunks<H: Handler>(
    b0: RingBuffer<H>,
    bytes: Seq<u8>,
    r: Result<(), Error>,
    b1: RingBuffer<H>,
)
    requires
        b0.wf(),
        b0@.len() == 0,
        b0.handler() is Some,
        b0.cap() > 0,
        bytes.len() > 0,
        dispatches(b0, bytes, r, b1),
    ensures
        r == Ok::<(), Error>(()),
        b1@.len() == 0,
        b1.handler() is Some,
        b1.handler()->0.received().len() == b0.handler()->0.received().len() + bytes.len()
            / b0.cap(),
        forall|i: int|
            0 <= i < b0.handler()->0.received().len() ==> #[trigger] b1.handler()->0.received()[i]
                == b0.handler()->0.received()[i],
        forall|i: int|
            0 <= i < bytes.len() / b0.cap() ==> #[trigger] b1.handler()->0.received()[b0.handler()->0.received().len()
                + i] == bytes.subrange(i * b0.cap(), i * b0.cap() + b0.cap()),
{
    assert(b0@ + bytes =~= bytes);
    let before: Seq<Seq<u8>> = b0.handler()->0.received();
    let after: Seq<Seq<u8>> = b1.handler()->0.received();
    let fresh: Seq<Seq<u8>> = full_chunks(bytes, b0.cap());
    assert forall|i: int| 0 <= i < bytes.len() / b0.cap() implies #[trigger] after[before.len() + i]
        == bytes.subrange(i * b0.cap(), i * b0.cap() + b0.cap()) by {
        assert(after[before.len() + i] == fresh[i]);
    }
}

} // verus!
