//! The ring buffer itself: storage, the read position and the fill level.

use vstd::prelude::*;

verus! {

/// Storage slot of the byte `k` places after `start`, in a ring of `cap` slots.
pub open spec fn wrap(start: int, k: int, cap: int) -> int {
    if start + k < cap {
        start + k
    } else {
        start + k - cap
    }
}

/// The largest number of bytes a ring of `cap` slots holding `fill` bytes takes from `n` offered.
pub open spec fn accepted_len(n: int, cap: int, fill: int) -> int {
    if n < cap - fill {
        n
    } else {
        cap - fill
    }
}

/// Writing `bytes` into `pre` took the first `n` of them and left `post`.
pub open spec fn writes<H: Handler>(pre: RingBuffer<H>, bytes: Seq<u8>, n: usize, post: RingBuffer<H>) -> bool {
    &&& post.wf()
    &&& post.cap() == pre.cap()
    &&& n == accepted_len(bytes.len() as int, pre.cap() as int, pre@.len() as int)
    &&& post@ == pre@ + bytes.take(n as int)
    &&& post.handler() == pre.handler()
}

/// Draining `pre` handed out `out` and left `post`.
pub open spec fn drains<H: Handler>(pre: RingBuffer<H>, out: Seq<u8>, post: RingBuffer<H>) -> bool {
    &&& post.wf()
    &&& post.cap() == pre.cap()
    &&& out == pre@
    &&& post@ == Seq::<u8>::empty()
    &&& post.handler() == pre.handler()
}

/// The whole chunks of `c` bytes that `s` falls into, in order; a shorter tail is left out.
pub open spec fn full_chunks(s: Seq<u8>, c: nat) -> Seq<Seq<u8>> {
    if c == 0 {
        Seq::empty()
    } else {
        Seq::new(s.len() / c, |i: int| s.subrange(i * c, i * c + c))
    }
}

/// Registering `handler` on `pre`, in place of any earlier one, left `post`.
pub open spec fn registers<H: Handler>(pre: RingBuffer<H>, handler: H, post: RingBuffer<H>) -> bool {
    &&& post.wf()
    &&& post@ == pre@
    &&& post.cap() == pre.cap()
    &&& post.handler() == Some(handler)
}

/// A dispatching write of `bytes` into `pre` returned `r` and left `post`.
///
/// With no handler it fails and changes nothing. With one, every byte held and
/// every byte of `bytes` passes through the buffer, and each whole chunk of
/// the buffer's capacity is handed to the handler; a shorter tail is drained
/// and not handed on.
pub open spec fn dispatches<H: Handler>(pre: RingBuffer<H>, bytes: Seq<u8>, r: Result<(), Error>, post: RingBuffer<H>) -> bool {
    &&& post.wf()
    &&& post.cap() == pre.cap()
    &&& pre.handler() is None ==> {
        &&& r == Err::<(), Error>(Error::CallBack)
        &&& post@ == pre@
        &&& post.handler() == pre.handler()
    }
    &&& pre.handler() is Some ==> {
        &&& r == Ok::<(), Error>(())
        &&& post.handler() is Some
    }
    &&& pre.handler() is Some && bytes.len() == 0 ==> {
        &&& post@ == pre@
        &&& post.handler() == pre.handler()
    }
    &&& pre.handler() is Some && bytes.len() > 0 ==> {
        &&& post@ == Seq::<u8>::empty()
        &&& post.handler()->0.received() == pre.handler()->0.received() + full_chunks(
            pre@ + bytes,
            pre.cap(),
        )
    }
}

/// Taking `k + 1` whole chunks of a sequence adds the next chunk to the first `k`.
proof fn lemma_full_chunks_grow(s: Seq<u8>, k: int, c: int)
    requires
        0 <= k,
        c > 0,
        k * c + c <= s.len(),
    ensures
        full_chunks(s.take(k * c + c), c as nat) == full_chunks(s.take(k * c), c as nat).push(
            s.subrange(k * c, k * c + c),
        ),
{
    let a: Seq<u8> = s.take(k * c + c);
    let b: Seq<u8> = s.take(k * c);
    assert(k * c + c == (k + 1) * c) by (nonlinear_arith);
    vstd::arithmetic::div_mod::lemma_div_by_multiple(k, c);
    vstd::arithmetic::div_mod::lemma_div_by_multiple(k + 1, c);
    assert(a.len() as int / c == k + 1);
    assert(b.len() as int / c == k);
    assert forall|i: int| 0 <= i < k implies #[trigger] a.subrange(i * c, i * c + c) == b.subrange(
        i * c,
        i * c + c,
    ) by {
        assert(i * c + c <= k * c) by (nonlinear_arith)
            requires
                0 <= i < k,
                c > 0,
        ;
        assert(0 <= i * c) by (nonlinear_arith)
            requires
                0 <= i,
                c > 0,
        ;
        assert(a.subrange(i * c, i * c + c) =~= b.subrange(i * c, i * c + c));
    }
    assert(a.subrange(k * c, k * c + c) =~= s.subrange(k * c, k * c + c));
    assert(full_chunks(a, c as nat) =~= full_chunks(b, c as nat).push(s.subrange(k * c, k * c + c)));
}

/// A tail shorter than a chunk adds no whole chunk.
proof fn lemma_full_chunks_tail(s: Seq<u8>, k: int, c: int, d: int)
    requires
        0 <= k,
        0 <= d < c,
        k * c + d <= s.len(),
    ensures
        full_chunks(s.take(k * c + d), c as nat) == full_chunks(s.take(k * c), c as nat),
{
    let a: Seq<u8> = s.take(k * c + d);
    let b: Seq<u8> = s.take(k * c);
    vstd::arithmetic::div_mod::lemma_fundamental_div_mod_converse(k * c + d, c, k, d);
    vstd::arithmetic::div_mod::lemma_div_by_multiple(k, c);
    assert forall|i: int| 0 <= i < k implies #[trigger] a.subrange(i * c, i * c + c) == b.subrange(
        i * c,
        i * c + c,
    ) by {
        assert(i * c + c <= k * c) by (nonlinear_arith)
            requires
                0 <= i < k,
                c > 0,
        ;
        assert(0 <= i * c) by (nonlinear_arith)
            requires
                0 <= i,
                c > 0,
        ;
        assert(a.subrange(i * c, i * c + c) =~= b.subrange(i * c, i * c + c));
    }
    assert(full_chunks(a, c as nat) =~= full_chunks(b, c as nat));
}

/// The error of this library.
#[derive(Debug, Clone, Copy, PartialEq, Eq)]
pub enum Error {
    /// A dispatching write was asked for while no handler was registered.
    CallBack,
}

impl Error {
    /// A description of the error for people.
    pub fn message(&self) -> (r: &'static str)
        ensures
            r@ == "not set callback function to accquire buffer"@,
    {
        match self {
            Error::CallBack => "not set callback function to accquire buffer",
        }
    }
}

/// Receives each full chunk that a dispatching write drains.
pub trait Handler {
    /// Every chunk this handler has been handed, in order.
    spec fn received(&self) -> Seq<Seq<u8>>;

    fn handle(&mut self, chunk: Vec<u8>)
        ensures
            final(self).received() == old(self).received().push(chunk@),
    ;
}

/// A handler that drops every chunk it is handed.
pub struct Discard {
    received: Ghost<Seq<Seq<u8>>>,
}

impl Discard {
    pub fn new() -> (r: Self)
        ensures
            r.received() == Seq::<Seq<u8>>::empty(),
    {
        Discard { received: Ghost(Seq::empty()) }
    }
}

impl Handler for Discard {
    closed spec fn received(&self) -> Seq<Seq<u8>> {
        self.received@
    }

    fn handle(&mut self, chunk: Vec<u8>) {
        self.received = Ghost(self.received@.push(chunk@));
    }
}

/// A handler that passes each chunk to a closure.
pub struct FnHandler<F: Fn(Vec<u8>)> {
    f: F,
    received: Ghost<Seq<Seq<u8>>>,
}

impl<F: Fn(Vec<u8>)> FnHandler<F> {
    /// The closure may be called with any chunk.
    #[verifier::type_invariant]
    spec fn callable(&self) -> bool {
        forall|chunk: Vec<u8>| #[trigger] call_requires(self.f, (chunk,))
    }

    pub fn new(f: F) -> (r: Self)
        requires
            forall|chunk: Vec<u8>| #[trigger] call_requires(f, (chunk,)),
        ensures
            r.received() == Seq::<Seq<u8>>::empty(),
    {
        FnHandler { f, received: Ghost(Seq::empty()) }
    }
}

impl<F: Fn(Vec<u8>)> Handler for FnHandler<F> {
    closed spec fn received(&self) -> Seq<Seq<u8>> {
        self.received@
    }

    fn handle(&mut self, chunk: Vec<u8>) {
        proof {
            use_type_invariant(&*self);
        }
        let ghost handed: Seq<u8> = chunk@;
        (self.f)(chunk);
        self.received = Ghost(self.received@.push(handed));
    }
}

/// A byte ring of fixed capacity.
///
/// The bytes held start at slot `read_position` of `storage` and run on for
/// `filled` slots, wrapping round at the end of `storage`.
pub struct RingBuffer<H: Handler = Discard> {
    storage: Vec<u8>,
    read_position: usize,
    filled: usize,
    callback: Option<H>,
}

impl<H: Handler> View for RingBuffer<H> {
    type V = Seq<u8>;

    /// The bytes held, oldest first.
    closed spec fn view(&self) -> Seq<u8> {
        Seq::new(
            self.filled as nat,
            |i: int| self.storage@[wrap(self.read_position as int, i, self.storage@.len() as int)],
        )
    }
}

impl<H: Handler> RingBuffer<H> {
    /// The number of bytes the buffer can hold.
    pub closed spec fn cap(&self) -> nat {
        self.storage@.len()
    }

    /// The buffer's internal invariant.
    pub closed spec fn wf(&self) -> bool {
        &&& self.filled <= self.storage@.len()
        &&& if self.storage@.len() == 0 {
            self.read_position == 0
        } else {
            self.read_position < self.storage@.len()
        }
    }

    /// A well-formed buffer never holds more bytes than its capacity.
    pub proof fn lemma_fill_within_capacity(&self)
        requires
            self.wf(),
        ensures
            self@.len() <= self.cap(),
    {
    }

    /// The registered handler, if any.
    pub closed spec fn handler(&self) -> Option<H> {
        self.callback
    }

    /// An empty buffer of `size` bytes, with no handler.
    pub fn new(size: usize) -> (r: Self)
        ensures
            r.wf(),
            r@ == Seq::<u8>::empty(),
            r.cap() == size,
            r.handler() == None::<H>,
    {
        let r = RingBuffer {
            storage: vec![0u8; size],
            read_position: 0,
            filled: 0,
            callback: None,
        };
        assert(r@ =~= Seq::<u8>::empty());
        r
    }

    /// The number of bytes the buffer can hold.
    pub fn capacity(&self) -> (r: usize)
        ensures
            r == self.cap(),
    {
        self.storage.len()
    }

    /// The slot of the oldest byte held and the slot the next byte goes to.
    fn read_position_and_write_position(&self) -> (r: (usize, usize))
        requires
            self.wf(),
        ensures
            r.0 == self.read_position,
            self.cap() == 0 ==> r.1 == 0,
            self.cap() > 0 ==> r.1 == wrap(self.read_position as int, self.filled as int, self.cap() as int),
            self.cap() > 0 ==> r.1 < self.cap(),
    {
        let size: usize = self.storage.len();
        if size == 0 {
            return (0, 0);
        }
        let write_position: usize = if self.filled < size - self.read_position {
            self.read_position + self.filled
        } else {
            self.filled - (size - self.read_position)
        };
        (self.read_position, write_position)
    }

    /// Whether the buffer holds as many bytes as it can; always true at capacity 0.
    pub fn is_full(&self) -> (r: bool)
        requires
            self.wf(),
        ensures
            r == (self@.len() == self.cap()),
            self.cap() == 0 ==> r,
    {
        self.filled == self.storage.len()
    }

    /// Whether the read and write slots coincide: when the buffer is empty,
    /// and also when it is full.
    pub fn is_empty(&self) -> (r: bool)
        requires
            self.wf(),
        ensures
            r == (self@.len() == 0 || self@.len() == self.cap()),
    {
        if self.storage.len() == 0 {
            return true;
        }
        let (read_position, write_position) = self.read_position_and_write_position();
        read_position == write_position
    }

    /// How many more bytes the buffer can take.
    fn avaliable_write_len(&self) -> (r: usize)
        requires
            self.wf(),
        ensures
            r == self.cap() - self@.len(),
    {
        self.storage.len() - self.filled
    }

    /// How many bytes the buffer holds.
    fn avaliable_read_len(&self) -> (r: usize)
        requires
            self.wf(),
        ensures
            r == self@.len(),
    {
        self.filled
    }

    /// The fill level: how many bytes the buffer holds.
    pub fn len(&self) -> (r: usize)
        requires
            self.wf(),
        ensures
            r == self@.len(),
            r <= self.cap(),
    {
        self.avaliable_read_len()
    }

    /// Writes as much of `buf[start..]` as fits and returns how many bytes were taken.
    fn write_from(&mut self, buf: &[u8], start: usize) -> (r: usize)
        requires
            old(self).wf(),
            start <= buf@.len(),
        ensures
            writes(*old(self), buf@.skip(start as int), r, *final(self)),
    {
        let n: usize = if self.avaliable_write_len() < buf.len() - start {
            self.avaliable_write_len()
        } else {
            buf.len() - start
        };
        if n == 0 {
            assert(self@ =~= old(self)@ + buf@.skip(start as int).take(0));
            return 0;
        }
        let ghost target: Seq<u8> = old(self)@ + buf@.subrange(start as int, start + n);
        let ghost cap: int = self.storage@.len() as int;
        let ghost rp: int = self.read_position as int;
        let ghost fill: int = self.filled as int;
        let (_, mut position): (usize, usize) = self.read_position_and_write_position();
        let size: usize = self.storage.len();
        let len: usize = buf.len();
        let mut i: usize = 0;
        while i < n
            invariant
                size == cap,
                len == buf@.len(),
                self.storage@.len() == cap,
                self.read_position == rp,
                self.filled == fill,
                self.callback == old(self).callback,
                old(self).wf(),
                cap > 0,
                0 <= rp < cap,
                fill + n <= cap,
                start + n <= buf@.len(),
                i <= n,
                old(self)@.len() == fill,
                target == old(self)@ + buf@.subrange(start as int, start + n),
                position == wrap(rp, fill + i, cap),
                forall|k: int| 0 <= k < fill + i ==> self.storage@[wrap(rp, k, cap)] == #[trigger] target[k],
            decreases n - i,
        {
            let ghost before: Seq<u8> = self.storage@;
            self.storage.set(position, buf[start + i]);
            assert(target[fill + i] == buf@[start + i]);
            assert forall|k: int| 0 <= k < fill + i + 1 implies self.storage@[wrap(rp, k, cap)]
                == #[trigger] target[k] by {
                if k < fill + i {
                    assert(wrap(rp, k, cap) != position);
                    assert(self.storage@[wrap(rp, k, cap)] == before[wrap(rp, k, cap)]);
                }
            }
            position = if position + 1 == size {
                0
            } else {
                position + 1
            };
            i = i + 1;
        }
        self.filled = self.filled + n;
        assert(self@ =~= target);
        assert(buf@.subrange(start as int, start + n) =~= buf@.skip(start as int).take(n as int));
        n
    }

    /// Writes as much of `buf` as fits, oldest first, and returns how many
    /// bytes were taken: none when the buffer is full.
    pub fn write(&mut self, buf: &[u8]) -> (r: usize)
        requires
            old(self).wf(),
        ensures
            writes(*old(self), buf@, r, *final(self)),
    {
        let r: usize = self.write_from(buf, 0);
        assert(buf@.skip(0) =~= buf@);
        r
    }

    /// Removes and returns every byte held, oldest first.
    pub fn read_all(&mut self) -> (r: Vec<u8>)
        requires
            old(self).wf(),
        ensures
            drains(*old(self), r@, *final(self)),
            r@.len() <= old(self).cap(),
    {
        let n: usize = self.avaliable_read_len();
        let size: usize = self.storage.len();
        let ghost rp: int = self.read_position as int;
        let mut result: Vec<u8> = Vec::with_capacity(n);
        let mut position: usize = self.read_position;
        let mut i: usize = 0;
        while i < n
            invariant
                *self == *old(self),
                self.wf(),
                size == self.storage@.len(),
                n == self.filled,
                rp == self.read_position,
                i <= n,
                n > 0 ==> position == wrap(rp, i as int, size as int),
                n == 0 ==> position == rp,
                result@.len() == i,
                forall|k: int| 0 <= k < i ==> #[trigger] result@[k] == self@[k],
            decreases n - i,
        {
            result.push(self.storage[position]);
            position = if position + 1 == size {
                0
            } else {
                position + 1
            };
            i = i + 1;
        }
        self.read_position = position;
        self.filled = 0;
        assert(result@ =~= old(self)@);
        assert(self@ =~= Seq::<u8>::empty());
        result
    }

    /// Registers `fnc` as the handler of dispatching writes, in place of any earlier one.
    pub fn set_callback(&mut self, fnc: H)
        requires
            old(self).wf(),
        ensures
            registers(*old(self), fnc, *final(self)),
    {
        self.callback = Some(fnc);
    }

    /// Whether a handler is registered.
    pub fn is_callback_set(&self) -> (r: bool)
        ensures
            r == self.handler() is Some,
    {
        self.callback.is_some()
    }

    /// Passes `buf` through the buffer: writes what fits, drains, and hands
    /// each drain of a full buffer to the handler, until every byte is taken.
    /// Fails with [`Error::CallBack`] when no handler is registered.
    pub fn callback_by_write(&mut self, buf: &[u8]) -> (r: Result<(), Error>)
        requires
            old(self).wf(),
            old(self).handler() is Some && buf@.len() > 0 ==> old(self).cap() > 0,
        ensures
            dispatches(*old(self), buf@, r, *final(self)),
    {
        if self.callback.is_none() {
            return Err(Error::CallBack);
        }
        let length: usize = buf.len();
        let mut start: usize = 0;
        let ghost total: Seq<u8> = old(self)@ + buf@;
        let ghost c: nat = old(self).cap();
        let ghost f: int = old(self)@.len() as int;
        let ghost mut done: int = 0;
        let ghost mut k: nat = 0;
        while start < length
            invariant
                self.wf(),
                self.cap() == c,
                self.handler() is Some,
                length == buf@.len(),
                length > 0 ==> c > 0,
                total == old(self)@ + buf@,
                f == old(self)@.len(),
                start <= length,
                0 <= done <= f + start,
                self@ == total.subrange(done, f + start),
                start < length ==> done == k * c,
                length == 0 ==> done == 0,
                length == 0 ==> self.handler() == old(self).handler(),
                self.handler()->0.received() == old(self).handler()->0.received() + full_chunks(
                    total.take(done),
                    c,
                ),
                start > 0 ==> self@.len() == 0,
            decreases 2 * (length - start) + if self@.len() > 0 {
                1int
            } else {
                0int
            },
        {
            let n: usize = self.write_from(buf, start);
            proof {
                assert(buf@.skip(start as int).take(n as int) =~= buf@.subrange(start as int, start + n));
                assert(self@ =~= total.subrange(done, f + start + n));
            }
            start = start + n;
            let full: bool = self.is_full();
            let result: Vec<u8> = self.read_all();
            if full {
                proof {
                    lemma_full_chunks_grow(total, k as int, c as int);
                    assert(result@ == total.subrange(done, done + c));
                    assert(k * c + c == (k + 1) * c) by (nonlinear_arith);
                    done = done + c;
                    k = k + 1;
                }
                let ghost chunk: Seq<u8> = result@;
                match &mut self.callback {
                    Some(handler) => {
                        handler.handle(result);
                    },
                    None => {},
                }
                proof {
                    assert(self.handler()->0.received() =~= old(self).handler()->0.received()
                        + full_chunks(total.take(done), c));
                }
            } else {
                proof {
                    assert(start == length);
                    lemma_full_chunks_tail(total, k as int, c as int, f + start - done);
                    done = f + start;
                }
            }
        }
        proof {
            if length > 0 {
                assert(total.take(done) =~= total);
                assert(self@ =~= Seq::<u8>::empty());
            } else {
                assert(self@ =~= old(self)@);
            }
        }
        Ok(())
    }
}

} // verus!
