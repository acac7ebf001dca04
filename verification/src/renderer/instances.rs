//! The buffers that a frame's instances are written into.

use crate::fixed::{max, min};
use vstd::prelude::*;

verus! {

/// What the offset a buffer is bound at has to be a multiple of.
pub const INSTANCE_BUFFER_ALIGNMENT: usize = 256;

/// The largest an instance buffer grows to.
pub const MAX_INSTANCE_BUFFER_SIZE: usize = 268_435_456;

/// How large an instance buffer is at first.
pub const FIRST_INSTANCE_BUFFER_SIZE: usize = 2_097_152;

/// A buffer and its size in bytes.
#[derive(Debug)]
pub struct InstanceBuffer<B> {
    pub buffer: B,
    pub size: usize,
}

/// The buffers that no frame is using, all of one size.
#[derive(Debug)]
pub struct InstanceBufferPool<B> {
    pub buffer_size: usize,
    pub buffers: Vec<B>,
}

/// Why a frame's instances cannot be written.
#[derive(Clone, Copy, Debug, PartialEq, Eq, Structural)]
pub enum InstanceError {
    /// So many bytes do not fit the largest buffer there may be.
    TooLarge { required: usize },
    /// The frame has filled a buffer of the largest size already.
    FrameTooLarge,
}

impl<B> Default for InstanceBufferPool<B> {
    fn default() -> (r: Self)
        ensures
            r.wf(),
            r.buffer_size == FIRST_INSTANCE_BUFFER_SIZE,
            r.buffers@ == Seq::<B>::empty(),
    {
        InstanceBufferPool { buffer_size: FIRST_INSTANCE_BUFFER_SIZE, buffers: Vec::new() }
    }
}

impl<B> InstanceBufferPool<B> {
    pub open spec fn wf(self) -> bool {
        self.buffer_size <= MAX_INSTANCE_BUFFER_SIZE
    }

    /// Change the size of the buffers, and let go of those there are.
    pub fn reset(&mut self, buffer_size: usize)
        ensures
            final(self).buffer_size == buffer_size,
            final(self).buffers@ == Seq::<B>::empty(),
    {
        self.buffer_size = buffer_size;
        self.buffers = Vec::new();
    }

    /// A buffer of the pool's size: one that is free, or else a new one.
    pub fn acquire<F: Fn(usize) -> B>(&mut self, make: F) -> (r: InstanceBuffer<B>)
        requires
            call_requires(make, (old(self).buffer_size,)),
        ensures
            r.size == old(self).buffer_size,
            final(self).buffer_size == old(self).buffer_size,
            old(self).buffers@.len() > 0 ==> {
                &&& r.buffer == old(self).buffers@.last()
                &&& final(self).buffers@ == old(self).buffers@.drop_last()
            },
            old(self).buffers@.len() == 0 ==> {
                &&& call_ensures(make, (old(self).buffer_size,), r.buffer)
                &&& final(self).buffers@ == old(self).buffers@
            },
    {
        match self.buffers.pop() {
            Some(buffer) => {
                assert(self.buffers@ =~= old(self).buffers@.drop_last());
                InstanceBuffer { buffer, size: self.buffer_size }
            },
            None => InstanceBuffer { buffer: make(self.buffer_size), size: self.buffer_size },
        }
    }

    /// Give a buffer back. One of another size than the pool's is let go of.
    pub fn release(&mut self, buffer: InstanceBuffer<B>)
        ensures
            final(self).buffer_size == old(self).buffer_size,
            final(self).buffers@ == if buffer.size == old(self).buffer_size {
                old(self).buffers@.push(buffer.buffer)
            } else {
                old(self).buffers@
            },
    {
        if buffer.size == self.buffer_size {
            self.buffers.push(buffer.buffer);
        }
    }
}

/// The next multiple of the alignment at or above `offset`.
pub open spec fn aligned(offset: int) -> int {
    (offset + INSTANCE_BUFFER_ALIGNMENT - 1) / (INSTANCE_BUFFER_ALIGNMENT as int)
        * INSTANCE_BUFFER_ALIGNMENT
}

/// An aligned offset is the least multiple of the alignment that is not below
/// the offset, so what is put there overlaps nothing that ends at the offset.
pub proof fn aligning_is_least(offset: int)
    requires
        0 <= offset,
    ensures
        offset <= aligned(offset) < offset + INSTANCE_BUFFER_ALIGNMENT,
        aligned(offset) % (INSTANCE_BUFFER_ALIGNMENT as int) == 0,
{
}

/// The first of `power`, twice `power`, four times `power` and so on that is at
/// least `n`.
pub open spec fn doubled_to(power: nat, n: int) -> nat
    decreases max(n - power, 0),
    when power >= 1
{
    if power >= n {
        power
    } else {
        doubled_to(2 * power, n)
    }
}

/// How large the buffers become, for one that has to hold `required` bytes.
pub open spec fn grown_size(buffer_size: int, required: int) -> int {
    min(max(buffer_size * 2, doubled_to(1, required) as int), MAX_INSTANCE_BUFFER_SIZE as int)
}

proof fn lemma_doubled(power: nat, n: int)
    requires
        1 <= power,
    ensures
        doubled_to(power, n) >= n,
        doubled_to(power, n) >= power,
        power < n ==> doubled_to(power, n) < 2 * n,
        n <= power ==> doubled_to(power, n) == power,
    decreases max(n - power, 0),
{
    if power < n {
        lemma_doubled(2 * power, n);
    }
}

fn doubled_up(required: usize) -> (r: usize)
    requires
        required <= MAX_INSTANCE_BUFFER_SIZE,
    ensures
        r == doubled_to(1, required as int),
{
    let mut power: usize = 1;
    while power < required
        invariant
            1 <= power <= 2 * MAX_INSTANCE_BUFFER_SIZE,
            required <= MAX_INSTANCE_BUFFER_SIZE,
            doubled_to(1, required as int) == doubled_to(power as nat, required as int),
        decreases max(required - power, 0),
    {
        power = power * 2;
    }
    power
}

/// What a frame's instances are written through: one buffer after another, each
/// from its start.
#[derive(Debug)]
pub struct InstanceBufferWriter<B> {
    /// The buffers that have been filled, and how many bytes of each.
    pub filled: Vec<(InstanceBuffer<B>, usize)>,
    pub current: InstanceBuffer<B>,
    /// How many bytes of the current buffer are taken.
    pub offset: usize,
}

/// What is left to do with the buffers of a frame.
#[derive(Debug)]
pub struct WrittenBuffers<B> {
    /// The last buffer, which alone is worth keeping.
    pub current: InstanceBuffer<B>,
    /// How many bytes of it the GPU has to be told of.
    pub current_changed: usize,
    /// The other buffers the GPU has to be told of, and how many bytes of each.
    pub changed: Vec<(InstanceBuffer<B>, usize)>,
}

/// The buffers that hold anything.
pub open spec fn holding<B>(filled: Seq<(InstanceBuffer<B>, usize)>) -> Seq<
    (InstanceBuffer<B>, usize),
>
    decreases filled.len(),
{
    if filled.len() == 0 {
        filled
    } else if filled.last().1 == 0 {
        holding(filled.drop_last())
    } else {
        holding(filled.drop_last()).push(filled.last())
    }
}

impl<B> InstanceBufferWriter<B> {
    pub open spec fn wf(self) -> bool {
        &&& self.current.size <= MAX_INSTANCE_BUFFER_SIZE
        &&& self.offset <= self.current.size
    }

    /// Whether `size` more bytes fit the current buffer.
    pub open spec fn has_room(self, size: int) -> bool {
        aligned(self.offset as int) + size <= self.current.size
    }

    /// A writer that starts with a buffer of the pool's.
    pub fn new<F: Fn(usize) -> B>(pool: &mut InstanceBufferPool<B>, make: F) -> (r: Self)
        requires
            old(pool).wf(),
            call_requires(make, (old(pool).buffer_size,)),
        ensures
            r.wf(),
            r.filled@ == Seq::<(InstanceBuffer<B>, usize)>::empty(),
            r.offset == 0,
            r.current.size == old(pool).buffer_size,
            final(pool).buffer_size == old(pool).buffer_size,
            old(pool).buffers@.len() > 0 ==> {
                &&& r.current.buffer == old(pool).buffers@.last()
                &&& final(pool).buffers@ == old(pool).buffers@.drop_last()
            },
            old(pool).buffers@.len() == 0 ==> {
                &&& call_ensures(make, (old(pool).buffer_size,), r.current.buffer)
                &&& final(pool).buffers@ == old(pool).buffers@
            },
    {
        let current = pool.acquire(make);
        InstanceBufferWriter { filled: Vec::new(), current, offset: 0 }
    }

    fn grow<F: Fn(usize) -> B>(
        &mut self,
        pool: &mut InstanceBufferPool<B>,
        required: usize,
        make: F,
    ) -> (r: Result<(), InstanceError>)
        requires
            old(self).wf(),
            old(pool).wf(),
            forall|size: usize| call_requires(make, (size,)),
        ensures
            final(self).wf(),
            final(pool).wf(),
            ({
                let size = grown_size(old(pool).buffer_size as int, required as int);
                match r {
                    Err(InstanceError::TooLarge { required: wanted }) => wanted == required
                        && required > MAX_INSTANCE_BUFFER_SIZE && *final(self) == *old(self)
                        && *final(pool) == *old(pool),
                    Err(InstanceError::FrameTooLarge) => required <= MAX_INSTANCE_BUFFER_SIZE && size
                        <= old(self).current.size && *final(self) == *old(self) && *final(pool)
                        == *old(pool),
                    Ok(_) => {
                        &&& required <= MAX_INSTANCE_BUFFER_SIZE
                        &&& required <= size
                        &&& size > old(self).current.size
                        &&& final(pool).buffer_size == size
                        &&& final(self).current.size == size
                        &&& final(self).offset == 0
                        &&& final(self).filled@ == old(self).filled@.push(
                            (old(self).current, old(self).offset),
                        )
                        &&& size == old(pool).buffer_size && old(pool).buffers@.len() > 0 ==> {
                            &&& final(self).current.buffer == old(pool).buffers@.last()
                            &&& final(pool).buffers@ == old(pool).buffers@.drop_last()
                        }
                        &&& size != old(pool).buffer_size || old(pool).buffers@.len() == 0 ==> {
                            &&& call_ensures(make, (size as usize,), final(self).current.buffer)
                            &&& final(pool).buffers@ == Seq::<B>::empty()
                        }
                    },
                }
            }),
    {
        proof {
            lemma_doubled(1, required as int);
        }
        if required > MAX_INSTANCE_BUFFER_SIZE {
            return Err(InstanceError::TooLarge { required });
        }
        let doubled: usize = pool.buffer_size * 2;
        let power: usize = doubled_up(required);
        let wanted: usize = if doubled >= power {
            doubled
        } else {
            power
        };
        let size: usize = if wanted <= MAX_INSTANCE_BUFFER_SIZE {
            wanted
        } else {
            MAX_INSTANCE_BUFFER_SIZE
        };
        if size <= self.current.size {
            return Err(InstanceError::FrameTooLarge);
        }
        if size != pool.buffer_size {
            pool.reset(size);
        }
        assert(pool.buffers@.len() == 0 ==> pool.buffers@ =~= Seq::<B>::empty());
        let buffer = pool.acquire(make);
        let mut full = buffer;
        core::mem::swap(&mut self.current, &mut full);
        self.filled.push((full, self.offset));
        self.offset = 0;
        Ok(())
    }

    /// Reserve `size` bytes: where in the current buffer they begin. Where they
    /// do not fit it, a larger buffer takes its place.
    pub fn allocate<F: Fn(usize) -> B>(
        &mut self,
        pool: &mut InstanceBufferPool<B>,
        size: usize,
        make: F,
    ) -> (r: Result<usize, InstanceError>)
        requires
            old(self).wf(),
            old(pool).wf(),
            forall|size: usize| call_requires(make, (size,)),
        ensures
            final(self).wf(),
            final(pool).wf(),
            old(self).has_room(size as int) ==> {
                &&& r == Ok::<usize, InstanceError>(aligned(old(self).offset as int) as usize)
                &&& final(self).current == old(self).current
                &&& final(self).filled == old(self).filled
                &&& *final(pool) == *old(pool)
            },
            !old(self).has_room(size as int) ==> {
                let grown = grown_size(old(pool).buffer_size as int, size as int);
                if size > MAX_INSTANCE_BUFFER_SIZE {
                    &&& r == Err::<usize, InstanceError>(InstanceError::TooLarge { required: size })
                    &&& *final(self) == *old(self)
                    &&& *final(pool) == *old(pool)
                } else if grown <= old(self).current.size {
                    &&& r == Err::<usize, InstanceError>(InstanceError::FrameTooLarge)
                    &&& *final(self) == *old(self)
                    &&& *final(pool) == *old(pool)
                } else {
                    &&& r == Ok::<usize, InstanceError>(0)
                    &&& final(self).current.size == grown
                    &&& final(pool).buffer_size == grown
                    &&& final(self).filled@ == old(self).filled@.push(
                        (old(self).current, old(self).offset),
                    )
                    &&& grown == old(pool).buffer_size && old(pool).buffers@.len() > 0 ==> {
                        &&& final(self).current.buffer == old(pool).buffers@.last()
                        &&& final(pool).buffers@ == old(pool).buffers@.drop_last()
                    }
                    &&& grown != old(pool).buffer_size || old(pool).buffers@.len() == 0 ==> {
                        &&& call_ensures(make, (grown as usize,), final(self).current.buffer)
                        &&& final(pool).buffers@ == Seq::<B>::empty()
                    }
                }
            },
            r matches Ok(offset) ==> {
                &&& offset % INSTANCE_BUFFER_ALIGNMENT == 0
                &&& final(self).offset == offset + size
            },
    {
        let offset: usize = (self.offset + INSTANCE_BUFFER_ALIGNMENT - 1)
            / INSTANCE_BUFFER_ALIGNMENT * INSTANCE_BUFFER_ALIGNMENT;
        if offset > self.current.size || size > self.current.size - offset {
            match self.grow(pool, size, make) {
                Err(error) => Err(error),
                Ok(_) => {
                    self.offset = size;
                    Ok(0)
                },
            }
        } else {
            self.offset = offset + size;
            Ok(offset)
        }
    }

    /// Hand the buffers over. Where the GPU does not share the memory, it has
    /// to be told what was written of each.
    pub fn finish(self, unified_memory: bool) -> (r: WrittenBuffers<B>)
        ensures
            r.current == self.current,
            r.current_changed == if unified_memory {
                0
            } else {
                self.offset
            },
            r.changed@ == if unified_memory {
                Seq::empty()
            } else {
                holding(self.filled@)
            },
    {
        let current = self.current;
        let mut changed: Vec<(InstanceBuffer<B>, usize)> = Vec::new();
        if unified_memory {
            return WrittenBuffers { current, current_changed: 0, changed };
        }
        let ghost all = self.filled@;
        let mut rest = self.filled;
        let mut backwards: Vec<(InstanceBuffer<B>, usize)> = Vec::new();
        assert(rest@ + Seq::<(InstanceBuffer<B>, usize)>::empty() =~= all);
        while rest.len() > 0
            invariant
                rest@.len() + backwards@.len() == all.len(),
                rest@ == all.take(rest@.len() as int),
                forall|i: int|
                    0 <= i < backwards@.len() ==> #[trigger] backwards@[i] == all[all.len() - 1
                        - i],
            decreases rest@.len(),
        {
            let ghost before = backwards@;
            if let Some(last) = rest.pop() {
                backwards.push(last);
                assert(rest@ =~= all.take(rest@.len() as int));
            }
        }
        assert(all.take(0) =~= Seq::<(InstanceBuffer<B>, usize)>::empty());
        while backwards.len() > 0
            invariant
                backwards@.len() <= all.len(),
                forall|i: int|
                    0 <= i < backwards@.len() ==> #[trigger] backwards@[i] == all[all.len() - 1
                        - i],
                changed@ == holding(all.take(all.len() - backwards@.len())),
            decreases backwards@.len(),
        {
            let ghost n = all.len() - backwards@.len();
            assert(backwards@[backwards@.len() - 1] == all[n]);
            proof {
                assert(all.take(n + 1).drop_last() =~= all.take(n));
                assert(all.take(n + 1).last() == all[n]);
            }
            if let Some(next) = backwards.pop() {
                if next.1 != 0 {
                    changed.push(next);
                }
            }
        }
        assert(all.take(all.len() as int) =~= all);
        let current_changed: usize = self.offset;
        WrittenBuffers { current, current_changed, changed }
    }
}

} // verus!
