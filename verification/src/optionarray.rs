//! Fixed-capacity array of optional slots with a packed presence bitset.
//!
//! A slot array holds `capacity` optional values.  Presence is recorded
//! twice: in the slot vector itself and in a packed bitset with one bit
//! per slot; the well-formedness predicate ties the two together.  The
//! capacity is fixed when the array is created and every indexed
//! operation is bounds-checked statically through its precondition.

use vstd::prelude::*;

verus! {

/// Bytes needed to hold one presence bit for each of `n` slots.
pub open spec fn spec_flag_bytes(n: nat) -> nat {
    n / 8 + if n % 8 == 0 { 0 } else { 1nat }
}

/// Bytes needed to hold one presence bit for each of `n` slots.
pub fn flag_bytes(n: usize) -> (r: usize)
    ensures
        r == spec_flag_bytes(n as nat),
{
    n / 8 + if n % 8 == 0 { 0 } else { 1 }
}

/// True iff bit `i` of the packed bit vector `flags` is set.
pub open spec fn bit_set(flags: Seq<u8>, i: int) -> bool
    recommends
        0 <= i,
        i / 8 < flags.len(),
{
    (flags[i / 8] >> ((i % 8) as u8)) & 1u8 == 1u8
}

proof fn lemma_zero_byte_bit(j: u8)
    ensures
        (0u8 >> j) & 1u8 == 0u8,
{
    assert((0u8 >> j) & 1u8 == 0u8) by (bit_vector);
}

proof fn lemma_or_bit(b: u8, k: u8, j: u8)
    requires
        k < 8,
        j < 8,
    ensures
        ((b | (1u8 << k)) >> j) & 1u8 == if j == k {
            1u8
        } else {
            (b >> j) & 1u8
        },
{
    assert(((b | (1u8 << k)) >> j) & 1u8 == if j == k {
        1u8
    } else {
        (b >> j) & 1u8
    }) by (bit_vector)
        requires
            k < 8,
            j < 8,
    ;
}

proof fn lemma_and_not_bit(b: u8, k: u8, j: u8)
    requires
        k < 8,
        j < 8,
    ensures
        ((b & !(1u8 << k)) >> j) & 1u8 == if j == k {
            0u8
        } else {
            (b >> j) & 1u8
        },
{
    assert(((b & !(1u8 << k)) >> j) & 1u8 == if j == k {
        0u8
    } else {
        (b >> j) & 1u8
    }) by (bit_vector)
        requires
            k < 8,
            j < 8,
    ;
}

/// Number of present slots in a snapshot.
pub open spec fn count_present<T>(s: Seq<Option<T>>) -> nat
    decreases s.len(),
{
    if s.len() == 0 {
        0
    } else {
        count_present(s.drop_last()) + if s.last() is Some {
            1nat
        } else {
            0nat
        }
    }
}

/// Fixed-capacity array of optional slots.  The view is the sequence of
/// slot contents; the packed `flags` bitset mirrors which slots are
/// present.
pub struct OptionArray<T> {
    flags: Vec<u8>,
    slots: Vec<Option<T>>,
}

impl<T> View for OptionArray<T> {
    type V = Seq<Option<T>>;

    closed spec fn view(&self) -> Seq<Option<T>> {
        self.slots@
    }
}

impl<T> OptionArray<T> {
    /// The bitset has exactly the bytes the capacity needs and agrees
    /// with the slot vector about which slots are present.
    pub closed spec fn wf(&self) -> bool {
        &&& self.flags@.len() == spec_flag_bytes(self.slots@.len() as nat)
        &&& forall|i: int|
            0 <= i < self.slots@.len() ==> (bit_set(self.flags@, i) <==> self.slots@[i] is Some)
    }

    /// Create an empty array of `capacity` absent slots.
    pub fn new(capacity: usize) -> (r: Self)
        ensures
            r.wf(),
            r@.len() == capacity,
            forall|i: int| 0 <= i < capacity ==> r@[i] is None,
    {
        let fb = flag_bytes(capacity);
        let mut flags: Vec<u8> = Vec::new();
        let mut k: usize = 0;
        while k < fb
            invariant
                k <= fb,
                flags@.len() == k,
                forall|j: int| 0 <= j < k ==> flags@[j] == 0u8,
            decreases fb - k,
        {
            flags.push(0u8);
            k = k + 1;
        }
        let mut slots: Vec<Option<T>> = Vec::new();
        let mut k2: usize = 0;
        while k2 < capacity
            invariant
                k2 <= capacity,
                slots@.len() == k2,
                forall|j: int| 0 <= j < k2 ==> slots@[j] is None,
            decreases capacity - k2,
        {
            slots.push(None);
            k2 = k2 + 1;
        }
        proof {
            assert forall|i: int| 0 <= i < capacity implies !bit_set(flags@, i) by {
                lemma_zero_byte_bit((i % 8) as u8);
            }
        }
        OptionArray { flags, slots }
    }

    /// The fixed number of slots.
    pub fn capacity(&self) -> (r: usize)
        ensures
            r == self@.len(),
    {
        self.slots.len()
    }

    /// Whether slot `index` currently holds a value, read from the
    /// presence bitset.
    pub fn is_present(&self, index: usize) -> (r: bool)
        requires
            self.wf(),
            index < self@.len(),
        ensures
            r == (self@[index as int] is Some),
    {
        let b = self.flags[index / 8];
        let r = (b >> ((index % 8) as u8)) & 1u8 == 1u8;
        proof {
            assert(bit_set(self.flags@, index as int) <==> self.slots@[index as int] is Some);
            assert(r == bit_set(self.flags@, index as int));
        }
        r
    }

    /// Borrow the value in slot `index`, if present.
    pub fn get(&self, index: usize) -> (r: Option<&T>)
        requires
            self.wf(),
            index < self@.len(),
        ensures
            match r {
                Some(v) => self@[index as int] == Some(*v),
                None => self@[index as int] is None,
            },
    {
        self.slots[index].as_ref()
    }

    /// Store `value` in slot `index`, overwriting and releasing any
    /// previous value.
    pub fn set(&mut self, index: usize, value: T)
        requires
            old(self).wf(),
            index < old(self)@.len(),
        ensures
            final(self).wf(),
            final(self)@ == old(self)@.update(index as int, Some(value)),
    {
        self.slots.set(index, Some(value));
        let byte: usize = index / 8;
        let bit: u8 = (index % 8) as u8;
        let b = self.flags[byte];
        self.flags.set(byte, b | (1u8 << bit));
        proof {
            assert forall|i: int|
                0 <= i < self.slots@.len() implies (bit_set(self.flags@, i) <==> self.slots@[i]
                is Some) by {
                assert(bit_set(old(self).flags@, i) <==> old(self).slots@[i] is Some);
                if i / 8 == byte {
                    lemma_or_bit(b, bit, (i % 8) as u8);
                    assert(self.flags@[i / 8] == b | (1u8 << bit));
                    if i != index as int {
                        assert(i % 8 != index as int % 8);
                    }
                } else {
                    assert(self.flags@[i / 8] == old(self).flags@[i / 8]);
                }
            }
        }
    }

    /// Store `value` in slot `index`; the same operation as `set` under
    /// the checked-slot model, kept under the name the insertion-style
    /// callers use.
    pub fn insert(&mut self, index: usize, value: T)
        requires
            old(self).wf(),
            index < old(self)@.len(),
        ensures
            final(self).wf(),
            final(self)@ == old(self)@.update(index as int, Some(value)),
    {
        self.set(index, value);
    }

    /// Take the value out of slot `index`, leaving it absent.
    pub fn remove(&mut self, index: usize) -> (r: Option<T>)
        requires
            old(self).wf(),
            index < old(self)@.len(),
        ensures
            final(self).wf(),
            final(self)@ == old(self)@.update(index as int, None::<T>),
            r == old(self)@[index as int],
    {
        let taken = self.slots[index].take();
        let byte: usize = index / 8;
        let bit: u8 = (index % 8) as u8;
        let b = self.flags[byte];
        self.flags.set(byte, b & !(1u8 << bit));
        proof {
            assert forall|i: int|
                0 <= i < self.slots@.len() implies (bit_set(self.flags@, i) <==> self.slots@[i]
                is Some) by {
                assert(bit_set(old(self).flags@, i) <==> old(self).slots@[i] is Some);
                if i / 8 == byte {
                    lemma_and_not_bit(b, bit, (i % 8) as u8);
                    assert(self.flags@[i / 8] == b & !(1u8 << bit));
                    if i != index as int {
                        assert(i % 8 != index as int % 8);
                    }
                } else {
                    assert(self.flags@[i / 8] == old(self).flags@[i / 8]);
                }
            }
        }
        taken
    }

    /// Mark every slot absent, releasing all present values.
    pub fn clear(&mut self)
        requires
            old(self).wf(),
        ensures
            final(self).wf(),
            final(self)@.len() == old(self)@.len(),
            forall|i: int| 0 <= i < final(self)@.len() ==> final(self)@[i] is None,
    {
        let n = self.slots.len();
        let mut k: usize = 0;
        while k < n
            invariant
                k <= n,
                self.wf(),
                self.slots@.len() == n,
                forall|i: int| 0 <= i < k ==> self.slots@[i] is None,
            decreases n - k,
        {
            let _ = self.remove(k);
            k = k + 1;
        }
    }

    /// Number of present slots, counted through the presence bitset.
    pub fn len(&self) -> (r: usize)
        requires
            self.wf(),
        ensures
            r == count_present(self@),
    {
        let n = self.slots.len();
        let mut count: usize = 0;
        let mut k: usize = 0;
        while k < n
            invariant
                k <= n,
                self.wf(),
                self.slots@.len() == n,
                count == count_present(self@.take(k as int)),
                count <= k,
            decreases n - k,
        {
            proof {
                assert(self@.take(k + 1).drop_last() =~= self@.take(k as int));
                assert(self@.take(k + 1).last() == self@[k as int]);
            }
            if self.is_present(k) {
                count = count + 1;
            }
            k = k + 1;
        }
        proof {
            assert(self@.take(n as int) =~= self@);
        }
        count
    }

    /// Borrow the value in slot `index`, inserting `value` first when the
    /// slot is absent.
    pub fn get_or_insert(&mut self, index: usize, value: T) -> (r: &mut T)
        requires
            old(self).wf(),
            index < old(self)@.len(),
        ensures
            final(self).wf(),
            *r == if old(self)@[index as int] is Some {
                old(self)@[index as int]->0
            } else {
                value
            },
            final(self)@ == old(self)@.update(index as int, Some(*final(r))),
    {
        if !self.is_present(index) {
            self.set(index, value);
        }
        proof {
            assert(self@[index as int] is Some);
        }
        match &mut self.slots[index] {
            Some(v) => v,
            None => vstd::pervasive::unreached(),
        }
    }
}

impl<T: Copy> OptionArray<T> {
    /// The present values, in slot order.
    pub fn iter(&self) -> (r: Vec<T>)
        requires
            self.wf(),
        ensures
            r@ == present_values(self@),
    {
        let n = self.slots.len();
        let mut out: Vec<T> = Vec::new();
        let mut k: usize = 0;
        while k < n
            invariant
                k <= n,
                self.wf(),
                self.slots@.len() == n,
                out@ == present_values(self@.take(k as int)),
            decreases n - k,
        {
            proof {
                assert(self@.take(k + 1).drop_last() =~= self@.take(k as int));
                assert(self@.take(k + 1).last() == self@[k as int]);
            }
            match self.get(k) {
                Some(v) => { out.push(*v); },
                None => {},
            }
            k = k + 1;
        }
        proof {
            assert(self@.take(n as int) =~= self@);
        }
        out
    }

    /// Every slot as an optional value, in slot order.
    pub fn iter_all(&self) -> (r: Vec<Option<T>>)
        requires
            self.wf(),
        ensures
            r@ == self@,
    {
        let n = self.slots.len();
        let mut out: Vec<Option<T>> = Vec::new();
        let mut k: usize = 0;
        while k < n
            invariant
                k <= n,
                self.wf(),
                self.slots@.len() == n,
                out@ =~= self@.take(k as int),
            decreases n - k,
        {
            match self.get(k) {
                Some(v) => { out.push(Some(*v)); },
                None => { out.push(None); },
            }
            k = k + 1;
        }
        proof {
            assert(self@.take(n as int) =~= self@);
        }
        out
    }

    /// Make every slot present and equal to `value`.
    pub fn fill(&mut self, value: T)
        requires
            old(self).wf(),
        ensures
            final(self).wf(),
            final(self)@.len() == old(self)@.len(),
            forall|i: int| 0 <= i < final(self)@.len() ==> final(self)@[i] == Some(value),
    {
        let n = self.slots.len();
        let mut k: usize = 0;
        while k < n
            invariant
                k <= n,
                self.wf(),
                self.slots@.len() == n,
                forall|i: int| 0 <= i < k ==> self.slots@[i] == Some(value),
            decreases n - k,
        {
            self.set(k, value);
            k = k + 1;
        }
    }
}

/// The present values of a snapshot, in slot order.
pub open spec fn present_values<T>(s: Seq<Option<T>>) -> Seq<T>
    decreases s.len(),
{
    if s.len() == 0 {
        Seq::empty()
    } else {
        if s.last() is Some {
            present_values(s.drop_last()).push(s.last()->0)
        } else {
            present_values(s.drop_last())
        }
    }
}

} // verus!
