//! A bump (arena) allocator over a fixed byte buffer.
use vstd::prelude::*;
use vstd::arithmetic::power2::pow2;

verus! {

/// `align` is a power of two that fits in a `usize`.
pub open spec fn power_of_two(align: usize) -> bool {
    exists|k: nat| k < usize::BITS && pow2(k) == align
}

/// `offset` rounded up to the next multiple of `align`, unless the rounding
/// overflows a `usize`.
pub open spec fn align_up_spec(offset: usize, align: usize) -> Option<int> {
    if offset + align - 1 <= usize::MAX {
        Some(((offset + align - 1) / align as int) * align)
    } else {
        None
    }
}

/// Where a request of `size` bytes aligned to `align` starts and ends when the
/// cursor is at `offset`, if that fits in a buffer of `capacity` bytes.
pub open spec fn placement(offset: usize, capacity: nat, size: usize, align: usize) -> Option<(int, int)> {
    match align_up_spec(offset, align) {
        Some(start) => if start + size <= usize::MAX && start + size <= capacity {
            Some((start, start + size))
        } else {
            None
        },
        None => None,
    }
}

/// Trusted: `&mut buffer[start..end]`, the bytes `start..end` of the buffer,
/// borrowed so that what is written through them lands in the buffer.
#[verifier::external_body]
fn window_mut(buffer: &mut Vec<u8>, start: usize, end: usize) -> (r: &mut [u8])
    requires
        start <= end <= old(buffer)@.len(),
    ensures
        r@ == old(buffer)@.subrange(start as int, end as int),
        final(r)@.len() == end - start,
        final(buffer)@ == old(buffer)@.subrange(0, start as int) + final(r)@ + old(buffer)@.subrange(
            end as int,
            old(buffer)@.len() as int,
        ),
    no_unwind
{
    &mut buffer[start..end]
}

/// A fixed-capacity bump allocator.
pub struct BumpArena {
    buffer: Vec<u8>,
    offset: usize,
}

impl BumpArena {
    /// The bytes of the arena.
    pub closed spec fn bytes(&self) -> Seq<u8> {
        self.buffer@
    }

    /// The cursor: bytes handed out so far, padding included.
    pub closed spec fn cursor(&self) -> nat {
        self.offset as nat
    }

    #[verifier::type_invariant]
    spec fn wf(&self) -> bool {
        self.offset <= self.buffer@.len()
    }

    /// An arena backed by `capacity` zeroed bytes.
    pub fn with_capacity(capacity: usize) -> (r: Self)
        ensures
            r.bytes() == Seq::new(capacity as nat, |i: int| 0u8),
            r.cursor() == 0,
    {
        let mut buffer: Vec<u8> = Vec::new();
        let mut i: usize = 0;
        while i < capacity
            invariant
                i <= capacity,
                buffer@ == Seq::new(i as nat, |j: int| 0u8),
            decreases capacity - i,
        {
            buffer.push(0);
            i = i + 1;
        }
        BumpArena { buffer, offset: 0 }
    }

    /// Allocates `size` bytes whose offset in the arena is a multiple of
    /// `align` (a power of two); only that offset is aligned, since the
    /// buffer's own address may not be. `None` when the request does not fit, leaving the arena
    /// unchanged.
    pub fn allocate(&mut self, size: usize, align: usize) -> (r: Option<&mut [u8]>)
        requires
            power_of_two(align),
        ensures
            match placement(old(self).cursor() as usize, old(self).bytes().len(), size, align) {
                Some((start, end)) => r matches Some(block) && block@ == old(self).bytes().subrange(start, end)
                    && final(self).cursor() == end && final(self).bytes() == old(self).bytes().subrange(0, start)
                    + final(block)@ + old(self).bytes().subrange(end, old(self).bytes().len() as int),
                None => r is None && final(self).cursor() == old(self).cursor() && final(self).bytes() == old(
                    self,
                ).bytes(),
            },
    {
        proof {
            use_type_invariant(&*self);
        }
        let start = match align_up(self.offset, align) {
            Some(s) => s,
            None => return None,
        };
        let end = match start.checked_add(size) {
            Some(e) => e,
            None => return None,
        };
        if end > self.buffer.len() {
            return None;
        }
        self.offset = end;
        Some(window_mut(&mut self.buffer, start, end))
    }

    /// Bytes handed out so far, including alignment padding.
    pub fn used(&self) -> (r: usize)
        ensures
            r == self.cursor(),
    {
        self.offset
    }

    /// Bytes still available before the next allocation.
    pub fn remaining(&self) -> (r: usize)
        ensures
            r == self.bytes().len() - self.cursor(),
    {
        proof {
            use_type_invariant(self);
        }
        self.buffer.len() - self.offset
    }

    /// Total capacity.
    pub fn capacity(&self) -> (r: usize)
        ensures
            r == self.bytes().len(),
    {
        self.buffer.len()
    }

    /// The arena's bytes, including those of live blocks.
    pub fn as_slice(&self) -> (r: &[u8])
        ensures
            r@ == self.bytes(),
    {
        self.buffer.as_slice()
    }

    /// Frees everything at once; the bytes themselves are left as they are.
    pub fn reset(&mut self)
        ensures
            final(self).cursor() == 0,
            final(self).bytes() == old(self).bytes(),
    {
        self.offset = 0;
    }
}

/// `offset` rounded up to a multiple of `align`, or `None` on overflow.
fn align_up(offset: usize, align: usize) -> (r: Option<usize>)
    requires
        power_of_two(align),
    ensures
        r matches Some(v) ==> align_up_spec(offset, align) == Some(v as int),
        r is None ==> align_up_spec(offset, align) is None,
{
    let ghost k = choose|k: nat| k < usize::BITS && pow2(k) == align;
    proof {
        vstd::arithmetic::power2::lemma_pow2_pos(k);
    }
    let mask = align - 1;
    match offset.checked_add(mask) {
        Some(value) => {
            let r = value & !mask;
            proof {
                assert(value & !mask == value - (value & mask)) by (bit_vector);
                assert(mask == vstd::bits::low_bits_mask(k) as usize);
                vstd::bits::lemma_usize_low_bits_mask_is_mod(value, k);
                vstd::arithmetic::div_mod::lemma_fundamental_div_mod(value as int, align as int);
                vstd::arithmetic::mul::lemma_mul_is_commutative(align as int, value as int / align as int);
                assert(value & mask == value % align);
                assert(r == value - value % align);
            }
            Some(r)
        },
        None => None,
    }
}

} // verus!
