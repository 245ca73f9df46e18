//! The re-used buffer of the streaming chunkers.

use std::collections::TryReserveError;
use vstd::prelude::*;

verus! {

/// A bounded buffer: bytes are appended behind and consumed in front.
#[derive(Clone)]
pub struct Buffer {
    bytes: Vec<u8>,
    start: usize,
    capacity: usize,
}

/// Calls `f`.
pub fn call_with<A, R, F: FnOnce(A, usize) -> R>(f: F, a: A, n: usize) -> (r: R)
    requires
        call_requires(f, (a, n)),
    ensures
        call_ensures(f, (a, n), r),
{
    f(a, n)
}

impl View for Buffer {
    type V = Seq<u8>;

    /// The bytes that are not yet consumed.
    closed spec fn view(&self) -> Seq<u8> {
        self.bytes@.skip(self.start as int)
    }
}

impl Buffer {
    /// How many bytes fit at most.
    pub closed spec fn capacity(&self) -> nat {
        self.capacity as nat
    }

    /// How many bytes can be appended now.
    pub closed spec fn room(&self) -> nat {
        (self.capacity - self.bytes@.len()) as nat
    }

    /// The start lies in the bytes, and these within the capacity.
    pub closed spec fn wf(&self) -> bool {
        self.start <= self.bytes@.len() <= self.capacity
    }

    /// What is pending and what can be appended fit together.
    pub proof fn lemma_capacity(&self)
        requires
            self.wf(),
        ensures
            self.room() + self@.len() <= self.capacity(),
    {
    }

    /// An empty buffer.
    pub fn new(capacity: usize) -> (buf: Self)
        requires
            capacity <= isize::MAX,
        ensures
            buf.wf(),
            buf.capacity() == capacity,
            buf.room() == capacity,
            buf@ == Seq::<u8>::empty(),
    {
        Buffer { bytes: Vec::with_capacity(capacity), start: 0, capacity }
    }

    /// An empty buffer, or `None` if it could not be allocated.
    ///
    /// A buffer without capacity needs no allocation, and no allocation exceeds
    /// `isize::MAX` bytes. In between it is up to the allocator: there is a buffer
    /// exactly if it let an empty vector reserve `capacity` bytes. See
    /// [`from_reserved`](Buffer::from_reserved) for what comes of its answer.
    pub fn try_new(capacity: usize) -> (buf: Option<Self>)
        ensures
            capacity == 0 ==> buf is Some,
            capacity > isize::MAX ==> buf is None,
            0 < capacity <= isize::MAX ==> exists|
                bytes: &mut Vec<u8>,
                reserved: Result<(), TryReserveError>,
            | #[trigger]
                call_ensures(Vec::<u8>::try_reserve, (bytes, capacity), reserved) && bytes@.len()
                    == 0 && (buf is Some <==> reserved is Ok),
            buf matches Some(b) ==> {
                &&& b.wf()
                &&& b.capacity() == capacity
                &&& b.room() == capacity
                &&& b@ == Seq::<u8>::empty()
            },
    {
        if capacity == 0 {
            return Some(Buffer::new(0));
        }
        if capacity > isize::MAX as usize {
            return None;
        }
        let mut bytes: Vec<u8> = Vec::new();
        let reserved: Result<(), TryReserveError> = call_with(
            Vec::<u8>::try_reserve,
            &mut bytes,
            capacity,
        );
        Buffer::from_reserved(bytes, capacity, reserved)
    }

    /// What comes of the attempt to reserve `capacity` bytes in `bytes`: an empty
    /// buffer exactly if it succeeded.
    pub fn from_reserved(
        bytes: Vec<u8>,
        capacity: usize,
        reserved: Result<(), TryReserveError>,
    ) -> (buf: Option<Self>)
        requires
            bytes@.len() == 0,
        ensures
            buf is Some <==> reserved is Ok,
            buf matches Some(b) ==> {
                &&& b.wf()
                &&& b.capacity() == capacity
                &&& b.room() == capacity
                &&& b@ == Seq::<u8>::empty()
            },
    {
        match reserved {
            Ok(_) => Some(Buffer { bytes, start: 0, capacity }),
            Err(_) => None,
        }
    }

    /// The number of bytes that are not yet consumed.
    pub fn len(&self) -> (len: usize)
        requires
            self.wf(),
        ensures
            len == self@.len(),
    {
        self.bytes.len() - self.start
    }

    /// The bytes that are not yet consumed.
    pub fn pending(&self) -> (bytes: &[u8])
        requires
            self.wf(),
        ensures
            bytes@ == self@,
    {
        let all: &[u8] = self.bytes.as_slice();
        &all[self.start..all.len()]
    }

    /// Moves the unconsumed bytes to the front if less than `need` bytes fit
    /// from the first of them on. Returns the room there is then.
    pub fn make_room(&mut self, need: usize) -> (room: usize)
        requires
            old(self).wf(),
            old(self)@.len() < need <= old(self).capacity(),
        ensures
            final(self).wf(),
            final(self)@ == old(self)@,
            final(self).capacity() == old(self).capacity(),
            room == final(self).room(),
            room == (if old(self).room() + old(self)@.len() < need {
                old(self).capacity() - old(self)@.len()
            } else {
                old(self).room() as int
            }),
            room >= old(self).room(),
            room + final(self)@.len() >= need,
    {
        if self.capacity - self.start < need {
            let n: usize = self.bytes.len() - self.start;
            let ghost before = self.bytes@;
            let start: usize = self.start;
            let mut i: usize = 0;
            while i < n
                invariant
                    i <= n,
                    start + n == before.len(),
                    self.bytes.len() == before.len(),
                    forall|j: int| 0 <= j < i ==> self.bytes@[j] == before[start + j],
                    forall|j: int| start + i <= j < before.len() ==> self.bytes@[j] == before[j],
                    self.start == start,
                    self.capacity == old(self).capacity,
                decreases n - i,
            {
                let b: u8 = self.bytes[start + i];
                self.bytes[i] = b;
                i += 1;
            }
            self.bytes.truncate(n);
            self.start = 0;
            proof {
                assert(self@ == before.skip(start as int));
            }
        }
        self.capacity - self.bytes.len()
    }

    /// Appends bytes for which there is room.
    pub fn append(&mut self, bytes: &[u8])
        requires
            old(self).wf(),
            bytes@.len() <= old(self).room(),
        ensures
            final(self).wf(),
            final(self)@ == old(self)@ + bytes@,
            final(self).capacity() == old(self).capacity(),
            final(self).room() == old(self).room() - bytes@.len(),
    {
        let ghost before = self.bytes@;
        self.bytes.extend_from_slice(bytes);
        proof {
            assert(self.bytes@ == before + bytes@);
            assert(self@ == before.skip(self.start as int) + bytes@);
        }
    }

    /// Consumes the first `len` bytes and returns them.
    pub fn consume(&mut self, len: usize) -> (bytes: &[u8])
        requires
            old(self).wf(),
            len <= old(self)@.len(),
        ensures
            final(self).wf(),
            final(self)@ == old(self)@.skip(len as int),
            final(self).capacity() == old(self).capacity(),
            final(self).room() == old(self).room(),
            bytes@ == old(self)@.take(len as int),
    {
        let from: usize = self.start;
        self.start = from + len;
        let all: &[u8] = self.bytes.as_slice();
        &all[from..from + len]
    }
}

} // verus!
