//! The sink abstraction the encoder writes through.
//!
//! A sink accepts runs of bytes and reports how many it took, or fails;
//! the same engine drives a growable buffer, a caller-sized fixed buffer,
//! and a counting sink that discards the bytes.  [`Write::sunk`] is the
//! mathematical record of everything accepted so far, and [`Write::room`]
//! is the sink's exact remaining budget: a write within the budget cannot
//! fail, a write beyond it must.

use vstd::prelude::*;

use crate::error::NoWriterError;

verus! {

/// The failure of a sink whose capacity ran out before the encoding was
/// done.
#[derive(Debug, Clone, Copy, PartialEq, Eq, Hash, Structural)]
pub struct EndOfBuff;

impl crate::error::WriterError for EndOfBuff {

}

/// A byte sink.  On success the bytes are appended to [`Write::sunk`]
/// whole and the budget shrinks by their count; on failure the sink is
/// unchanged and the run was larger than the budget.
pub trait Write: Sized {
    /// The sink's failure payload.
    type Failure;

    /// The sink's own well-formedness; established by its constructors
    /// and kept by every write.
    spec fn inv(&self) -> bool;

    /// Every byte accepted so far, in order.
    spec fn sunk(&self) -> Seq<u8>;

    /// How many more bytes the sink is certain to accept.
    spec fn room(&self) -> int;

    /// A sink never holds more bytes than a machine count can address.
    proof fn lemma_sunk_len(&self)
        requires
            self.inv(),
        ensures
            self.sunk().len() <= usize::MAX,
    ;

    /// A well-formed sink's budget is never negative.
    proof fn lemma_room_nonneg(&self)
        requires
            self.inv(),
        ensures
            self.room() >= 0,
    ;

    /// Accepts the run whole, or fails leaving the sink as it was.
    fn write_bytes(&mut self, bytes: &[u8]) -> (r: Result<usize, Self::Failure>)
        requires
            old(self).inv(),
        ensures
            final(self).inv(),
            match r {
                Ok(n) => {
                    &&& final(self).sunk() == old(self).sunk() + bytes@
                    &&& n == bytes@.len()
                    &&& bytes@.len() <= old(self).room()
                    &&& final(self).room() == old(self).room() - bytes@.len()
                },
                Err(_) => {
                    &&& final(self).sunk() == old(self).sunk()
                    &&& final(self).room() == old(self).room()
                    &&& old(self).room() < bytes@.len()
                },
            },
    ;

    /// Accepts one byte, or fails leaving the sink as it was.
    fn write_byte(&mut self, byte: u8) -> (r: Result<usize, Self::Failure>)
        requires
            old(self).inv(),
        ensures
            final(self).inv(),
            match r {
                Ok(n) => {
                    &&& final(self).sunk() == old(self).sunk().push(byte)
                    &&& n == 1
                    &&& 1 <= old(self).room()
                    &&& final(self).room() == old(self).room() - 1
                },
                Err(_) => {
                    &&& final(self).sunk() == old(self).sunk()
                    &&& final(self).room() == old(self).room()
                    &&& old(self).room() < 1
                },
            },
    ;
}

/// The heap-backed sink: a growing byte buffer that accepts everything a
/// machine count can address.
impl Write for Vec<u8> {
    type Failure = NoWriterError;

    open spec fn inv(&self) -> bool {
        true
    }

    open spec fn sunk(&self) -> Seq<u8> {
        self@
    }

    open spec fn room(&self) -> int {
        usize::MAX - self@.len()
    }

    proof fn lemma_sunk_len(&self) {
        vstd::std_specs::vec::axiom_spec_len(self);
    }

    proof fn lemma_room_nonneg(&self) {
        vstd::std_specs::vec::axiom_spec_len(self);
    }

    fn write_bytes(&mut self, bytes: &[u8]) -> (r: Result<usize, Self::Failure>) {
        let n = bytes.len();
        self.extend_from_slice(bytes);
        proof {
            vstd::std_specs::vec::axiom_spec_len(self);
        }
        Ok(n)
    }

    fn write_byte(&mut self, byte: u8) -> (r: Result<usize, Self::Failure>) {
        self.push(byte);
        proof {
            vstd::std_specs::vec::axiom_spec_len(self);
        }
        Ok(1)
    }
}

/// A fixed-capacity sink over a caller-provided buffer.  Writing past the
/// buffer's end fails with [`EndOfBuff`] and changes nothing: a run is
/// written whole or not at all.
#[derive(Debug)]
pub struct BuffWriter {
    buff: Vec<u8>,
    head: usize,
}

impl BuffWriter {
    /// Wraps a buffer; its length is the capacity, and writing starts at
    /// its front.
    pub fn new(buff: Vec<u8>) -> (r: BuffWriter)
        ensures
            r.inv(),
            r.sunk() == Seq::<u8>::empty(),
            r.capacity() == buff@.len(),
            r.room() == buff@.len(),
            r.backing() == buff@,
    {
        let r = BuffWriter { buff, head: 0 };
        proof {
            assert(r.sunk() =~= Seq::<u8>::empty());
        }
        r
    }

    /// How many bytes the underlying buffer can hold in all.
    pub closed spec fn capacity(&self) -> nat {
        self.buff@.len()
    }

    /// The wrapped buffer's full contents: the written prefix, then
    /// whatever the caller's buffer held beyond it.
    pub closed spec fn backing(&self) -> Seq<u8> {
        self.buff@
    }

    /// Gives the buffer back, with the count of bytes written into its
    /// front.
    pub fn unwrap(self) -> (r: (usize, Vec<u8>))
        requires
            self.inv(),
        ensures
            r.0 == self.sunk().len(),
            r.1@ == self.backing(),
            r.1@.len() == self.capacity(),
            r.1@.subrange(0, r.0 as int) == self.sunk(),
    {
        proof {
            assert(self.buff@.subrange(0, self.head as int) =~= self.sunk());
        }
        (self.head, self.buff)
    }

    /// How many bytes have been written.
    pub fn len(&self) -> (r: usize)
        requires
            self.inv(),
        ensures
            r == self.sunk().len(),
    {
        self.head
    }

    /// True when nothing has been written yet.
    pub fn is_empty(&self) -> (r: bool)
        requires
            self.inv(),
        ensures
            r == (self.sunk().len() == 0),
    {
        self.head == 0
    }

    /// The bytes written so far, as a slice of the buffer's front.
    pub fn get(&self) -> (r: &[u8])
        requires
            self.inv(),
        ensures
            r@ == self.sunk(),
    {
        vstd::slice::slice_subrange(self.buff.as_slice(), 0, self.head)
    }
}

impl Write for BuffWriter {
    type Failure = EndOfBuff;

    closed spec fn inv(&self) -> bool {
        self.head <= self.buff@.len()
    }

    closed spec fn sunk(&self) -> Seq<u8> {
        self.buff@.subrange(0, self.head as int)
    }

    closed spec fn room(&self) -> int {
        self.buff@.len() - self.head
    }

    proof fn lemma_sunk_len(&self) {
    }

    proof fn lemma_room_nonneg(&self) {
    }

    fn write_bytes(&mut self, bytes: &[u8]) -> (r: Result<usize, Self::Failure>) {
        let n = bytes.len();
        if n > self.buff.len() - self.head {
            return Err(EndOfBuff);
        }
        let cap = self.buff.len();
        let mut i: usize = 0;
        while i < n
            invariant
                i <= n,
                cap == self.buff@.len(),
                old(self).head + n <= self.buff@.len(),
                self.head == old(self).head,
                self.buff@.len() == old(self).buff@.len(),
                bytes@.len() == n,
                self.buff@ =~= old(self).buff@.map(
                    |k: int, b: u8|
                        if old(self).head <= k < old(self).head + i {
                            bytes@[k - old(self).head]
                        } else {
                            b
                        },
                ),
            decreases n - i,
        {
            self.buff.set(self.head + i, bytes[i]);
            i = i + 1;
        }
        self.head = self.head + n;
        proof {
            assert(final(self).sunk() =~= old(self).sunk() + bytes@);
        }
        Ok(n)
    }

    fn write_byte(&mut self, byte: u8) -> (r: Result<usize, Self::Failure>) {
        if self.head >= self.buff.len() {
            return Err(EndOfBuff);
        }
        self.buff.set(self.head, byte);
        self.head = self.head + 1;
        proof {
            assert(final(self).sunk() =~= old(self).sunk().push(byte));
        }
        Ok(1)
    }
}

/// The counting sink: discards every byte but remembers how many there
/// were, for the size-only dry run.
pub struct DummyWriter {
    count: usize,
    bytes: Ghost<Seq<u8>>,
}

impl DummyWriter {
    /// A counting sink that has seen nothing yet.
    pub fn new() -> (r: DummyWriter)
        ensures
            r.inv(),
            r.sunk() == Seq::<u8>::empty(),
            r.room() == usize::MAX as int,
    {
        DummyWriter { count: 0, bytes: Ghost(Seq::empty()) }
    }

    /// How many bytes have been discarded.
    pub fn count(&self) -> (r: usize)
        requires
            self.inv(),
        ensures
            r == self.sunk().len(),
    {
        self.count
    }
}

impl Write for DummyWriter {
    type Failure = EndOfBuff;

    closed spec fn inv(&self) -> bool {
        self.count == self.bytes@.len()
    }

    closed spec fn sunk(&self) -> Seq<u8> {
        self.bytes@
    }

    closed spec fn room(&self) -> int {
        usize::MAX - self.count
    }

    proof fn lemma_sunk_len(&self) {
    }

    proof fn lemma_room_nonneg(&self) {
    }

    fn write_bytes(&mut self, bytes: &[u8]) -> (r: Result<usize, Self::Failure>) {
        let n = bytes.len();
        if n > usize::MAX - self.count {
            return Err(EndOfBuff);
        }
        self.count = self.count + n;
        proof {
            self.bytes = Ghost(self.bytes@ + bytes@);
        }
        Ok(n)
    }

    fn write_byte(&mut self, byte: u8) -> (r: Result<usize, Self::Failure>) {
        if self.count == usize::MAX {
            return Err(EndOfBuff);
        }
        self.count = self.count + 1;
        proof {
            self.bytes = Ghost(self.bytes@.push(byte));
        }
        Ok(1)
    }
}

} // verus!
