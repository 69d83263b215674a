//! The registers of a HyperLogLog sketch: one per bucket, each holding the
//! greatest rank seen among the hashes that fall into it. Turning the
//! registers into an estimate is floating-point work left to the caller.
use vstd::prelude::*;

use vstd::std_specs::bits::{axiom_u64_leading_zeros, u64_leading_zeros};

verus! {

/// Errors that can occur during cardinality estimation
#[derive(Debug, Clone, PartialEq, Eq)]
pub enum CardinalityError {
    InvalidPrecision(u8),
    EstimationOverflow,
    EmptyDataset,
    SerializationError(String),
}

/// The bucket of a hash: its top `p` bits.
pub open spec fn bucket_of(hash: u64, p: u8) -> int {
    (hash >> ((64 - p) as u64)) as int
}

/// The rank of a hash: one more than the number of leading zeros of the
/// bits below its bucket, at most `65 - p`.
pub open spec fn rank_of(hash: u64, p: u8) -> u8 {
    (u64_leading_zeros(((hash << (p as u64)) | (1u64 << (p as u64))) as u64) + 1) as u8
}

/// The registers after `hash` is added.
pub open spec fn with_hash(regs: Seq<u8>, hash: u64, p: u8) -> Seq<u8> {
    let i = bucket_of(hash, p);
    let r = rank_of(hash, p);
    regs.update(i, if regs[i] >= r { regs[i] } else { r })
}

/// The registers of two sketches merged: the greater of each pair.
pub open spec fn merged(a: Seq<u8>, b: Seq<u8>) -> Seq<u8> {
    Seq::new(a.len(), |i: int| if a[i] >= b[i] { a[i] } else { b[i] })
}

/// The registers of a HyperLogLog sketch with `2^precision` buckets.
#[derive(Debug, Clone)]
pub struct HllRegisters {
    precision: u8,
    buckets: Vec<u8>,
}

impl HllRegisters {
    /// The precision, 4 to 16.
    pub closed spec fn precision_view(&self) -> u8 {
        self.precision
    }

    /// The registers, one per bucket.
    pub closed spec fn registers(&self) -> Seq<u8> {
        self.buckets@
    }

    /// The registers number `2^precision`, with the precision 4 to 16.
    pub closed spec fn wf(&self) -> bool {
        &&& 4 <= self.precision <= 16
        &&& self.buckets@.len() == (1u64 << (self.precision as u64)) as int
    }

    /// Registers for `2^precision` buckets, all zero; the precision must be
    /// 4 to 16.
    pub fn new(precision: u8) -> (r: Result<Self, CardinalityError>)
        ensures
            (4 <= precision <= 16) <==> r is Ok,
            !(4 <= precision <= 16) ==> r == Err::<Self, CardinalityError>(CardinalityError::InvalidPrecision(precision)),
            r matches Ok(h) ==> h.wf() && h.precision_view() == precision && h.registers().len() == (1u64 << (precision as u64)) as int
                && forall|i: int| 0 <= i < h.registers().len() ==> #[trigger] h.registers()[i] == 0,
    {
        if precision < 4 || precision > 16 {
            return Err(CardinalityError::InvalidPrecision(precision));
        }
        let count: u64 = 1u64 << (precision as u64);
        assert(count <= 65536) by (bit_vector)
            requires
                count == 1u64 << (precision as u64),
                4 <= precision <= 16,
        ;
        let n = count as usize;
        let mut buckets: Vec<u8> = Vec::new();
        while buckets.len() < n
            invariant
                buckets@.len() <= n,
                forall|i: int| 0 <= i < buckets@.len() ==> #[trigger] buckets@[i] == 0,
            decreases n - buckets@.len(),
        {
            buckets.push(0);
        }
        Ok(HllRegisters { precision, buckets })
    }

    /// Registers rebuilt from their parts: `None` unless the precision is 4
    /// to 16 and there are `2^precision` registers.
    pub fn from_registers(precision: u8, buckets: Vec<u8>) -> (r: Option<Self>)
        ensures
            r is Some <==> (4 <= precision <= 16 && buckets@.len() == (1u64 << (precision as u64)) as int),
            r matches Some(h) ==> h.wf() && h.precision_view() == precision && h.registers() == buckets@,
    {
        if precision < 4 || precision > 16 {
            return None;
        }
        let count: u64 = 1u64 << (precision as u64);
        if buckets.len() as u64 != count {
            return None;
        }
        Some(HllRegisters { precision, buckets })
    }

    /// The precision.
    pub fn precision(&self) -> (r: u8)
        ensures
            r == self.precision_view(),
    {
        self.precision
    }

    /// The registers, one per bucket.
    pub fn buckets(&self) -> (r: &Vec<u8>)
        ensures
            r@ == self.registers(),
    {
        &self.buckets
    }

    /// Add a hash: the register of its bucket keeps the greater of its value
    /// and the hash's rank.
    pub fn add_hash(&mut self, hash: u64)
        requires
            old(self).wf(),
        ensures
            final(self).wf(),
            final(self).precision_view() == old(self).precision_view(),
            final(self).registers() == with_hash(old(self).registers(), hash, old(self).precision_view()),
            0 <= bucket_of(hash, old(self).precision_view()) < old(self).registers().len(),
    {
        let p = self.precision;
        let shift: u64 = 64 - p as u64;
        let index: u64 = hash >> shift;
        assert(index < (1u64 << (p as u64))) by (bit_vector)
            requires
                index == hash >> shift,
                shift == 64 - p as u64,
                4 <= p <= 16,
        ;
        assert((1u64 << (p as u64)) <= 65536) by (bit_vector)
            requires
                4 <= p <= 16,
        ;
        let bits: u64 = (hash << (p as u64)) | (1u64 << (p as u64));
        let zeros = bits.leading_zeros();
        proof {
            broadcast use axiom_u64_leading_zeros;
            assert(0 <= u64_leading_zeros(bits) <= 64);
        }
        let rank = (zeros + 1) as u8;
        let i = index as usize;
        assert(i as int == bucket_of(hash, p));
        assert(rank == rank_of(hash, p));
        let current = self.buckets[i];
        let updated = if current >= rank {
            current
        } else {
            rank
        };
        self.buckets.set(i, updated);
    }

    /// Merge the registers of `other`, which must have the same precision:
    /// each register keeps the greater value. Otherwise nothing changes and
    /// `InvalidPrecision` names the other's precision.
    pub fn merge(&mut self, other: &HllRegisters) -> (r: Result<(), CardinalityError>)
        requires
            old(self).wf(),
            other.wf(),
        ensures
            final(self).wf(),
            final(self).precision_view() == old(self).precision_view(),
            old(self).precision_view() != other.precision_view() ==> r == Err::<(), CardinalityError>(
                CardinalityError::InvalidPrecision(other.precision_view()),
            ) && final(self).registers() == old(self).registers(),
            old(self).precision_view() == other.precision_view() ==> r is Ok && final(self).registers() == merged(
                old(self).registers(),
                other.registers(),
            ),
    {
        if self.precision != other.precision {
            return Err(CardinalityError::InvalidPrecision(other.precision));
        }
        let ghost a = self.buckets@;
        let mut i: usize = 0;
        while i < self.buckets.len()
            invariant
                self.precision == old(self).precision,
                self.buckets@.len() == a.len(),
                other.buckets@.len() == a.len(),
                i <= a.len(),
                forall|j: int| 0 <= j < i ==> #[trigger] self.buckets@[j] == merged(a, other.buckets@)[j],
                forall|j: int| i <= j < a.len() ==> #[trigger] self.buckets@[j] == a[j],
            decreases a.len() - i,
        {
            let x = self.buckets[i];
            let y = other.buckets[i];
            self.buckets.set(i, if x >= y { x } else { y });
            i = i + 1;
        }
        assert(self.buckets@ =~= merged(a, other.buckets@));
        Ok(())
    }

    /// Set every register to zero.
    pub fn reset(&mut self)
        requires
            old(self).wf(),
        ensures
            final(self).wf(),
            final(self).precision_view() == old(self).precision_view(),
            final(self).registers().len() == old(self).registers().len(),
            forall|i: int| 0 <= i < final(self).registers().len() ==> #[trigger] final(self).registers()[i] == 0,
    {
        let n = self.buckets.len();
        let mut i: usize = 0;
        while i < n
            invariant
                self.precision == old(self).precision,
                self.buckets@.len() == n,
                i <= n,
                forall|j: int| 0 <= j < i ==> #[trigger] self.buckets@[j] == 0,
            decreases n - i,
        {
            self.buckets.set(i, 0);
            i = i + 1;
        }
    }

    /// The number of registers that are zero.
    pub fn zero_count(&self) -> (r: usize)
        ensures
            r == self.registers().filter(|b: u8| b == 0).len(),
    {
        let ghost s = self.buckets@;
        let mut count: usize = 0;
        let mut i: usize = 0;
        while i < self.buckets.len()
            invariant
                s == self.buckets@,
                i <= s.len(),
                count == s.take(i as int).filter(|b: u8| b == 0).len(),
                count <= i,
            decreases s.len() - i,
        {
            proof {
                assert(s.take(i + 1).drop_last() =~= s.take(i as int));
                assert(s.take(i + 1).last() == s[i as int]);
                reveal_with_fuel(Seq::<_>::filter, 1);
            }
            if self.buckets[i] == 0 {
                count = count + 1;
            }
            i = i + 1;
        }
        assert(s.take(s.len() as int) =~= s);
        count
    }
}

} // verus!
