//! Two small bounded stores: a stack of words and a bump arena.

use vstd::prelude::*;
use crate::bytes::set_len;

verus! {

/// A stack of machine words that never grows beyond its capacity.
pub struct ShadowStack {
    storage: Vec<usize>,
    capacity: usize,
}

impl ShadowStack {
    /// The words on the stack, the top last.
    pub closed spec fn view(&self) -> Seq<usize> {
        self.storage@
    }

    /// The largest number of words that the stack takes.
    pub closed spec fn spec_capacity(&self) -> usize {
        self.capacity
    }

    /// An empty stack for up to `capacity` words.
    pub fn new(capacity: usize) -> (stack: Self)
        ensures
            stack@ == Seq::<usize>::empty(),
            stack.spec_capacity() == capacity,
    {
        Self { storage: Vec::with_capacity(capacity), capacity }
    }

    /// Puts `value` on top, unless the stack is full: then the stack stays
    /// as it is and the result is the message `Shadow stack overflow`.
    pub fn push(&mut self, value: usize) -> (res: Result<(), &'static str>)
        ensures
            final(self).spec_capacity() == old(self).spec_capacity(),
            if old(self)@.len() >= old(self).spec_capacity() {
                &&& final(self)@ == old(self)@
                &&& res matches Err(message)
                &&& message@ == "Shadow stack overflow"@
            } else {
                res.is_ok() && final(self)@ == old(self)@.push(value)
            },
    {
        if self.storage.len() >= self.capacity {
            return Err("Shadow stack overflow");
        }
        self.storage.push(value);
        Ok(())
    }

    /// Takes the top word off, or gives `None` where the stack is empty.
    pub fn pop(&mut self) -> (res: Option<usize>)
        ensures
            final(self).spec_capacity() == old(self).spec_capacity(),
            if old(self)@.len() == 0 {
                res.is_none() && final(self)@ == old(self)@
            } else {
                res == Some(old(self)@.last()) && final(self)@ == old(self)@.drop_last()
            },
    {
        self.storage.pop()
    }
}

/// A buffer of zero bytes that is handed out front to back.
pub struct SecureArena {
    buffer: Vec<u8>,
    offset: usize,
}

impl SecureArena {
    /// The size of the arena in bytes.
    pub closed spec fn spec_size(&self) -> int {
        self.buffer@.len() as int
    }

    /// The bytes of the arena.
    pub closed spec fn spec_buffer(&self) -> Seq<u8> {
        self.buffer@
    }

    /// How many bytes are handed out.
    pub closed spec fn spec_used(&self) -> int {
        self.offset as int
    }

    /// An arena of `size` zero bytes, none of them handed out.
    pub fn with_capacity(size: usize) -> (arena: Self)
        ensures
            arena.spec_size() == size,
            arena.spec_used() == 0,
            arena.spec_buffer() == Seq::new(size as nat, |k: int| 0u8),
    {
        let mut buffer: Vec<u8> = Vec::new();
        set_len(&mut buffer, size);
        assert(buffer@ =~= Seq::new(size as nat, |k: int| 0u8));
        Self { buffer, offset: 0 }
    }

    /// Hands out the next `size` bytes and gives the position of the first,
    /// or `None`, with nothing changed, where fewer than `size` are left.
    pub fn allocate(&mut self, size: usize) -> (res: Option<usize>)
        ensures
            final(self).spec_size() == old(self).spec_size(),
            final(self).spec_buffer() == old(self).spec_buffer(),
            if old(self).spec_used() + size > old(self).spec_size() {
                res.is_none() && final(self).spec_used() == old(self).spec_used()
            } else {
                res == Some(old(self).spec_used() as usize) && final(self).spec_used() == old(
                    self,
                ).spec_used() + size
            },
    {
        let total: usize = self.buffer.len();
        if size > usize::MAX - self.offset || self.offset + size > total {
            return None;
        }
        let start: usize = self.offset;
        self.offset = start + size;
        Some(start)
    }

    /// Takes back all that was handed out.
    pub fn reset(&mut self)
        ensures
            final(self).spec_size() == old(self).spec_size(),
            final(self).spec_buffer() == old(self).spec_buffer(),
            final(self).spec_used() == 0,
    {
        self.offset = 0;
    }
}

} // verus!
