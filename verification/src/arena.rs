//! A byte arena: the bytes of values lie one after the other, each at an offset
//! that its alignment allows.

use vstd::arithmetic::power2::is_pow2;
use vstd::prelude::*;

verus! {

/// The least multiple of `align` that is not below `n`.
pub open spec fn aligned_up(n: nat, align: nat) -> nat {
    if align == 0 || n % align == 0 {
        n
    } else {
        (n - n % align + align) as nat
    }
}

/// The least power of two that is not below `n`.
pub open spec fn pow2_at_least(n: nat) -> nat
    decreases n,
{
    if n <= 1 {
        1
    } else {
        2 * pow2_at_least((n + 1) / 2)
    }
}

/// A power of two that is not below `n`, and whose half is, is the least power
/// of two that is not below `n`.
pub proof fn lemma_pow2_at_least(n: nat, p: nat)
    requires
        is_pow2(p as int),
        n <= p,
        p == 1 || p / 2 < n,
    ensures
        p == pow2_at_least(n),
    decreases n,
{
    reveal_with_fuel(is_pow2, 2);
    if n <= 1 {
        if p != 1 {
            assert(p / 2 == 0);
        }
    } else {
        let q = p / 2;
        assert(p % 2 == 0 && is_pow2(q as int));
        assert(p == 2 * q);
        lemma_pow2_at_least((n + 1) / 2, q);
    }
}

/// The size of an arena that was made to hold `end` bytes: the least power of
/// two that is not below `end`, and 64 at least.
pub open spec fn arena_for(end: nat) -> nat {
    if pow2_at_least(end) < 64 {
        64
    } else {
        pow2_at_least(end)
    }
}

/// The least multiple of `align` that is not below `n`.
fn align_up(n: usize, align: usize) -> (aligned: usize)
    requires
        align > 0,
        n + align <= usize::MAX,
    ensures
        n <= aligned < n + align,
        aligned % align == 0,
        aligned == aligned_up(n as nat, align as nat),
{
    let rest = n % align;
    if rest == 0 {
        n
    } else {
        proof {
            vstd::arithmetic::div_mod::lemma_fundamental_div_mod(n as int, align as int);
            let q = n as int / align as int;
            assert(n - rest + align == align * (q + 1)) by (nonlinear_arith)
                requires
                    n == align * q + rest,
            ;
            vstd::arithmetic::div_mod::lemma_mod_multiples_basic(q + 1, align as int);
            assert((q + 1) * align == align * (q + 1)) by (nonlinear_arith);
        }
        n - rest + align
    }
}

/// The least power of two that is not below `n`.
fn next_power_of_two(n: usize) -> (p: usize)
    requires
        n <= usize::MAX / 2,
    ensures
        is_pow2(p as int),
        n <= p,
        p == pow2_at_least(n as nat),
{
    let mut p: usize = 1;
    assert(is_pow2(1)) by {
        reveal_with_fuel(is_pow2, 2);
    }
    while p < n
        invariant
            n <= usize::MAX / 2,
            1 <= p,
            is_pow2(p as int),
            p == 1 || p / 2 < n,
        decreases usize::MAX - p,
    {
        let ghost half = p;
        proof {
            assert(is_pow2(2 * p)) by {
                reveal_with_fuel(is_pow2, 2);
                assert((2 * p) / 2 == p);
                assert((2 * p) % 2 == 0);
            }
        }
        p = 2 * p;
        assert(p / 2 == half);
    }
    proof {
        lemma_pow2_at_least(n as nat, p as nat);
    }
    p
}

/// Bytes of values of any types, one value after the other.
///
/// A value lies at the next offset past the values before it that is a
/// multiple of its alignment. When a value does not fit, or is aligned more
/// strictly than the arena, the arena is made anew: with the least power of two
/// of bytes that holds the values, and 64 bytes at least. Emptying the arena
/// keeps its bytes for the next values.
pub struct Arena {
    storage: Vec<u8>,
    align: usize,
    cursor: usize,
}

impl Arena {
    /// The bytes of the arena.
    pub closed spec fn bytes(&self) -> Seq<u8> {
        self.storage@
    }

    /// The number of bytes that are in use.
    pub closed spec fn used(&self) -> nat {
        self.cursor as nat
    }

    /// The alignment of the arena.
    pub closed spec fn alignment(&self) -> nat {
        self.align as nat
    }

    /// The size of the arena, in bytes.
    pub open spec fn size(&self) -> nat {
        self.bytes().len()
    }

    /// The arena's invariant: the bytes in use are within the arena, whose
    /// size is 0 or a power of two that is 64 at least.
    pub closed spec fn wf(&self) -> bool {
        &&& self.cursor <= self.storage@.len()
        &&& self.storage@.len() == 0 || (is_pow2(self.storage@.len() as int) && self.storage@.len()
            >= 64)
        &&& self.align > 0
    }

    /// What the invariant says.
    pub proof fn lemma_wf(&self)
        requires
            self.wf(),
        ensures
            self.used() <= self.size(),
            self.size() == 0 || (is_pow2(self.size() as int) && self.size() >= 64),
            self.size() <= usize::MAX,
            self.alignment() > 0,
    {
        assert(self.storage@.len() == self.storage.len());
    }

    /// An arena of no bytes, aligned to 8 bytes.
    pub fn new() -> (arena: Arena)
        ensures
            arena.wf(),
            arena.used() == 0,
            arena.size() == 0,
            arena.alignment() == 8,
    {
        Arena { storage: Vec::new(), align: 8, cursor: 0 }
    }

    /// The number of bytes that are in use.
    pub fn used_bytes(&self) -> (n: usize)
        ensures
            n == self.used(),
    {
        self.cursor
    }

    /// The size of the arena, in bytes.
    pub fn size_bytes(&self) -> (n: usize)
        ensures
            n == self.size(),
    {
        self.storage.len()
    }

    /// An arena of the least power of two of bytes, and of 64 bytes at least,
    /// that holds `min_size` bytes. It starts with the first `cursor` bytes of
    /// `storage`.
    fn grow(min_size: usize, cursor: usize, storage: &Vec<u8>) -> (grown: Vec<u8>)
        requires
            min_size <= usize::MAX / 2,
            cursor <= storage@.len(),
            cursor <= min_size,
        ensures
            is_pow2(grown@.len() as int),
            grown@.len() >= 64,
            grown@.len() >= min_size,
            grown@.len() == arena_for(min_size as nat),
            grown@.subrange(0, cursor as int) == storage@.subrange(0, cursor as int),
    {
        let power = next_power_of_two(min_size);
        let size = if power < 64 {
            assert(is_pow2(64)) by {
                reveal_with_fuel(is_pow2, 8);
            }
            64
        } else {
            power
        };
        let mut grown: Vec<u8> = Vec::with_capacity(size);
        let mut i: usize = 0;
        while i < cursor
            invariant
                i <= cursor <= storage@.len(),
                grown@.len() == i,
                forall|k: int| 0 <= k < i ==> grown@[k] == storage@[k],
            decreases cursor - i,
        {
            grown.push(storage[i]);
            i = i + 1;
        }
        while i < size
            invariant
                cursor <= i <= size,
                cursor <= storage@.len(),
                grown@.len() == i,
                forall|k: int| 0 <= k < cursor ==> grown@[k] == storage@[k],
            decreases size - i,
        {
            grown.push(0u8);
            i = i + 1;
        }
        assert(grown@.subrange(0, cursor as int) =~= storage@.subrange(0, cursor as int));
        grown
    }

    /// Puts the value `bytes`, which is to be aligned to `align`, at the next
    /// offset that its alignment allows, and returns the offset. The arena is
    /// made anew when it is too small or not aligned enough; the bytes that
    /// were in use stay where they are.
    pub fn put(&mut self, bytes: &Vec<u8>, align: usize) -> (offset: usize)
        requires
            old(self).wf(),
            align > 0,
            old(self).used() + align + bytes@.len() <= usize::MAX / 2,
        ensures
            final(self).wf(),
            offset == aligned_up(old(self).used(), align as nat),
            offset % align == 0,
            final(self).used() == offset + bytes@.len(),
            final(self).size() == if final(self).used() > old(self).size() || align > old(self).alignment() {
                arena_for(final(self).used())
            } else {
                old(self).size()
            },
            final(self).alignment() == if old(self).alignment() > align {
                old(self).alignment()
            } else {
                align as nat
            },
            final(self).bytes().subrange(0, old(self).used() as int) == old(self).bytes().subrange(
                0,
                old(self).used() as int,
            ),
            final(self).bytes().subrange(offset as int, offset + bytes@.len()) == bytes@,
    {
        let size = bytes.len();
        let offset = align_up(self.cursor, align);
        let end = offset + size;
        if end > self.storage.len() || align > self.align {
            let new_align = if self.align > align {
                self.align
            } else {
                align
            };
            let grown = Self::grow(end, self.cursor, &self.storage);
            self.storage = grown;
            self.align = new_align;
        }
        let ghost kept = self.storage@;
        let mut i: usize = 0;
        while i < size
            invariant
                i <= size,
                bytes@.len() == size,
                end == offset + size,
                end <= self.storage@.len(),
                self.storage@.len() == kept.len(),
                self.cursor == old(self).cursor,
                self.align == if old(self).align > align {
                    old(self).align
                } else {
                    align
                },
                self.cursor <= offset,
                forall|k: int| 0 <= k < offset ==> self.storage@[k] == kept[k],
                forall|k: int| 0 <= k < i ==> self.storage@[offset + k] == bytes@[k],
            decreases size - i,
        {
            self.storage[offset + i] = bytes[i];
            i = i + 1;
        }
        self.cursor = end;
        proof {
            assert(self.storage@.subrange(offset as int, offset + size) =~= bytes@);
            assert(self.storage@.subrange(0, old(self).cursor as int) =~= kept.subrange(
                0,
                old(self).cursor as int,
            ));
        }
        offset
    }

    /// A copy of the `size` bytes at `offset`.
    pub fn read(&self, offset: usize, size: usize) -> (bytes: Vec<u8>)
        requires
            offset + size <= self.size(),
        ensures
            bytes@ == self.bytes().subrange(offset as int, offset + size),
    {
        let total = self.storage.len();
        let mut bytes: Vec<u8> = Vec::new();
        let mut b: usize = 0;
        while b < size
            invariant
                b <= size,
                total == self.storage@.len(),
                offset + size <= total,
                bytes@.len() == b,
                forall|j: int| 0 <= j < b ==> bytes@[j] == self.storage@[offset + j],
            decreases size - b,
        {
            bytes.push(self.storage[offset + b]);
            b = b + 1;
        }
        assert(bytes@ =~= self.storage@.subrange(offset as int, offset + size));
        bytes
    }

    /// Writes the value `bytes` over the bytes at `offset`, which are in use.
    pub fn write(&mut self, offset: usize, bytes: &Vec<u8>)
        requires
            old(self).wf(),
            offset + bytes@.len() <= old(self).used(),
        ensures
            final(self).wf(),
            final(self).used() == old(self).used(),
            final(self).size() == old(self).size(),
            final(self).alignment() == old(self).alignment(),
            final(self).bytes().subrange(offset as int, offset + bytes@.len()) == bytes@,
            forall|k: int|
                0 <= k < old(self).size() && !(offset <= k < offset + bytes@.len()) ==> final(self).bytes()[k] == old(self).bytes()[k],
    {
        let size = bytes.len();
        let total = self.storage.len();
        let mut i: usize = 0;
        while i < size
            invariant
                i <= size,
                bytes@.len() == size,
                total == self.storage@.len(),
                total == old(self).storage@.len(),
                offset + size <= total,
                self.cursor == old(self).cursor,
                self.align == old(self).align,
                forall|k: int|
                    0 <= k < total && !(offset <= k < offset + i) ==> self.storage@[k] == old(self).storage@[k],
                forall|k: int| 0 <= k < i ==> self.storage@[offset + k] == bytes@[k],
            decreases size - i,
        {
            self.storage[offset + i] = bytes[i];
            i = i + 1;
        }
        proof {
            assert(self.storage@.subrange(offset as int, offset + size) =~= bytes@);
        }
    }

    /// A copy of the arena.
    pub fn duplicate(&self) -> (copy: Arena)
        requires
            self.wf(),
        ensures
            copy.wf(),
            copy.bytes() == self.bytes(),
            copy.used() == self.used(),
            copy.alignment() == self.alignment(),
    {
        Arena { storage: self.storage.clone(), align: self.align, cursor: self.cursor }
    }

    /// Takes every byte out of use. The arena keeps its size.
    pub fn reset(&mut self)
        requires
            old(self).wf(),
        ensures
            final(self).wf(),
            final(self).used() == 0,
            final(self).bytes() == old(self).bytes(),
            final(self).alignment() == old(self).alignment(),
    {
        self.cursor = 0;
    }
}

} // verus!
