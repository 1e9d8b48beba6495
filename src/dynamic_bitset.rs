//! A growable sequence of bits packed into bytes, with a text form and a
//! byte-exact serialized form.
use vstd::prelude::*;

use crate::le_word::{
    decode_word, encode_word, le_decode, le_encode, lemma_decode_encode, lemma_word_pow,
    WORD_BYTES,
};

verus! {

/// Bits held by one storage unit.
pub const UNIT_BITS: usize = 8;

/// Bytes of the serialized header: bit count, unit count, index of the last unit.
pub const HEADER_BYTES: usize = 24;

/// Bit `k` (least significant first) of the unit `u`.
pub open spec fn unit_bit(u: u8, k: u8) -> bool {
    (u >> k) & 1u8 == 1u8
}

/// Bit `i` of the packed storage `units`.
pub open spec fn bit_at(units: Seq<u8>, i: int) -> bool {
    unit_bit(units[i / 8], (i % 8) as u8)
}

/// Bit `i` of `bits` as a unit value: `2^(i % 8)` when set, else zero; zero past the end.
pub open spec fn bit_value(bits: Seq<bool>, i: int) -> u8 {
    if 0 <= i < bits.len() && bits[i] {
        (1u8 << ((i % 8) as u8)) as u8
    } else {
        0u8
    }
}

/// Unit `k` of the packed form of `bits`: bits `8k..8k+8`, least significant first.
pub open spec fn pack_unit(bits: Seq<bool>, k: int) -> u8 {
    bit_value(bits, 8 * k) | bit_value(bits, 8 * k + 1) | bit_value(bits, 8 * k + 2) | bit_value(bits, 8 * k + 3)
        | bit_value(bits, 8 * k + 4) | bit_value(bits, 8 * k + 5) | bit_value(bits, 8 * k + 6) | bit_value(bits, 8 * k + 7)
}

/// The storage that holds `bits`: eight to a unit, unused positions zero, one unit at least.
pub open spec fn pack(bits: Seq<bool>) -> Seq<u8> {
    Seq::new(units_needed(bits.len()), |k: int| pack_unit(bits, k))
}

/// Units a buffer of `n_bit` bits holds: one at least, else one per started group of eight.
pub open spec fn units_needed(n_bit: nat) -> nat {
    if n_bit == 0 {
        1
    } else {
        ((n_bit + 7) / 8) as nat
    }
}

/// The bookkeeping of a buffer agrees with its storage: the unit count matches
/// the bit count, the current unit is the last one, and every stored bit at or
/// past the bit count is zero.
pub open spec fn parts_wf(n_bit: nat, n_unit: nat, curr_i_unit: nat, units: Seq<u8>) -> bool {
    &&& n_unit == units_needed(n_bit)
    &&& units.len() == n_unit
    &&& curr_i_unit + 1 == n_unit
    &&& trailing_clear(n_bit, units)
}

/// Every stored bit at or past position `n_bit` is zero.
pub open spec fn trailing_clear(n_bit: nat, units: Seq<u8>) -> bool {
    forall|i: int| n_bit <= i < 8 * units.len() ==> !#[trigger] bit_at(units, i)
}

/// The serialized form: three little-endian header words, then the storage units.
pub open spec fn wire_bytes(n_bit: nat, n_unit: nat, curr_i_unit: nat, units: Seq<u8>) -> Seq<u8> {
    le_encode(n_bit, 8) + le_encode(n_unit, 8) + le_encode(curr_i_unit, 8) + units
}

/// Header word `k` of a serialized buffer.
pub open spec fn header_word(buf: Seq<u8>, k: int) -> nat {
    le_decode(buf.subrange(8 * k, 8 * k + 8))
}

/// A serialized buffer that describes a well-formed bit buffer.
pub open spec fn wire_ok(buf: Seq<u8>) -> bool {
    &&& buf.len() >= 24
    &&& header_word(buf, 0) <= usize::MAX
    &&& parts_wf(header_word(buf, 0), header_word(buf, 1), header_word(buf, 2), buf.skip(24))
}

/// The bits that a `'0'`/`'1'` text stands for: `'1'` is a one, any other character a zero.
pub open spec fn bits_of_text(s: Seq<char>) -> Seq<bool> {
    Seq::new(s.len(), |i: int| s[i] == '1')
}

/// The `'0'`/`'1'` text of a sequence of bits.
pub open spec fn text_of_bits(b: Seq<bool>) -> Seq<char> {
    Seq::new(b.len(), |i: int| if b[i] { '1' } else { '0' })
}

/// Failures of bit buffer operations.
#[derive(Debug, Clone, Copy, PartialEq, Eq, Structural)]
pub enum BitsetError {
    /// A bit was removed from an empty buffer.
    Underflow,
    /// A serialized buffer whose header disagrees with its storage.
    Malformed,
}

/// Read-only view of a buffer's bookkeeping.
pub struct Info<'a> {
    pub n_bit: &'a usize,
    pub n_unit: &'a usize,
    pub curr_i_unit: &'a usize,
}

/// A copy of a buffer's bookkeeping that can be edited and written back.
pub struct InfoMut {
    pub n_bit: usize,
    pub n_unit: usize,
    pub curr_i_unit: usize,
}

/// A growable sequence of bits, eight to a storage unit, least significant bit first.
#[derive(Debug, Clone)]
pub struct DynamicBitset {
    data: Vec<u8>,
    n_bit: usize,
    n_unit: usize,
    curr_i_unit: usize,
}

impl View for DynamicBitset {
    type V = Seq<bool>;

    /// The logical bits, in the order they were appended.
    closed spec fn view(&self) -> Seq<bool> {
        Seq::new(self.n_bit as nat, |i: int| bit_at(self.data@, i))
    }
}

proof fn lemma_set_bit(u: u8, k: u8, j: u8)
    requires
        k < 8,
        j < 8,
    ensures
        j == k ==> unit_bit(u | (1u8 << k), j),
        j != k ==> unit_bit(u | (1u8 << k), j) == unit_bit(u, j),
{
    assert(j == k ==> (((u | (1u8 << k)) >> j) & 1u8 == 1u8)) by (bit_vector)
        requires
            k < 8,
            j < 8,
    ;
    assert(j != k ==> (((u | (1u8 << k)) >> j) & 1u8 == (u >> j) & 1u8)) by (bit_vector)
        requires
            k < 8,
            j < 8,
    ;
}

proof fn lemma_clear_bit(u: u8, k: u8, j: u8)
    requires
        k < 8,
        j < 8,
    ensures
        j == k ==> !unit_bit(u & !(1u8 << k), j),
        j != k ==> unit_bit(u & !(1u8 << k), j) == unit_bit(u, j),
{
    assert(j == k ==> (((u & !(1u8 << k)) >> j) & 1u8 == 0u8)) by (bit_vector)
        requires
            k < 8,
            j < 8,
    ;
    assert(j != k ==> (((u & !(1u8 << k)) >> j) & 1u8 == (u >> j) & 1u8)) by (bit_vector)
        requires
            k < 8,
            j < 8,
    ;
}

proof fn lemma_zero_unit(j: u8)
    requires
        j < 8,
    ensures
        !unit_bit(0u8, j),
{
    assert((0u8 >> j) & 1u8 == 0u8) by (bit_vector);
}

/// Two units that agree on all eight bits are equal.
proof fn lemma_unit_ext(a: u8, b: u8)
    requires
        forall|j: u8| j < 8 ==> unit_bit(a, j) == unit_bit(b, j),
    ensures
        a == b,
{
    assert(unit_bit(a, 0) == unit_bit(b, 0));
    assert(unit_bit(a, 1) == unit_bit(b, 1));
    assert(unit_bit(a, 2) == unit_bit(b, 2));
    assert(unit_bit(a, 3) == unit_bit(b, 3));
    assert(unit_bit(a, 4) == unit_bit(b, 4));
    assert(unit_bit(a, 5) == unit_bit(b, 5));
    assert(unit_bit(a, 6) == unit_bit(b, 6));
    assert(unit_bit(a, 7) == unit_bit(b, 7));
    assert(a == b) by (bit_vector)
        requires
            ((a >> 0u8) & 1u8 == 1u8) == ((b >> 0u8) & 1u8 == 1u8),
            ((a >> 1u8) & 1u8 == 1u8) == ((b >> 1u8) & 1u8 == 1u8),
            ((a >> 2u8) & 1u8 == 1u8) == ((b >> 2u8) & 1u8 == 1u8),
            ((a >> 3u8) & 1u8 == 1u8) == ((b >> 3u8) & 1u8 == 1u8),
            ((a >> 4u8) & 1u8 == 1u8) == ((b >> 4u8) & 1u8 == 1u8),
            ((a >> 5u8) & 1u8 == 1u8) == ((b >> 5u8) & 1u8 == 1u8),
            ((a >> 6u8) & 1u8 == 1u8) == ((b >> 6u8) & 1u8 == 1u8),
            ((a >> 7u8) & 1u8 == 1u8) == ((b >> 7u8) & 1u8 == 1u8),
    ;
}

impl DynamicBitset {
    /// The storage units, in order.
    pub closed spec fn units(&self) -> Seq<u8> {
        self.data@
    }

    /// The bookkeeping agrees with the storage (see `parts_wf`).
    pub closed spec fn wf(&self) -> bool {
        &&& parts_wf(self.n_bit as nat, self.n_unit as nat, self.curr_i_unit as nat, self.data@)
        &&& self.data@.len() <= usize::MAX
    }

    /// The serialized form of this buffer.
    pub open spec fn wire(&self) -> Seq<u8> {
        wire_bytes(self@.len(), self.units().len(), (self.units().len() - 1) as nat, self.units())
    }

    /// An empty buffer: one zeroed unit and no bits.
    pub fn new() -> (r: Self)
        ensures
            r.wf(),
            r@ == Seq::<bool>::empty(),
            r.units() == seq![0u8],
    {
        let r = DynamicBitset { data: vec![0u8], n_bit: 0, n_unit: 1, curr_i_unit: 0 };
        proof {
            assert forall|i: int| 0 <= i < 8 * r.data@.len() implies !#[trigger] bit_at(r.data@, i) by {
                lemma_zero_unit((i % 8) as u8);
            }
            assert(r@ =~= Seq::<bool>::empty());
        }
        r
    }

    /// Appends one bit at the end, starting a new zeroed unit when the current one is full.
    pub fn push(&mut self, value: bool)
        requires
            old(self).wf(),
            old(self)@.len() < usize::MAX,
        ensures
            final(self).wf(),
            final(self)@ == old(self)@.push(value),
            trailing_clear(final(self)@.len(), final(self).units()),
    {
        let ghost before = self@;
        self.check_if_add_unit();
        let off: u8 = (self.n_bit % UNIT_BITS) as u8;
        let i = self.curr_i_unit;
        let u = self.data[i];
        let ghost old_units = self.data@;
        if value {
            self.data.set(i, u | (1u8 << off));
        } else {
            self.data.set(i, u & !(1u8 << off));
        }
        self.n_bit = self.n_bit + 1;
        proof {
            let n = self.n_bit - 1;
            assert(i == n / 8);
            assert forall|p: int| 0 <= p < 8 * self.data@.len() && p != n implies #[trigger] bit_at(self.data@, p) == bit_at(old_units, p) by {
                if p / 8 == i {
                    if value {
                        lemma_set_bit(u, off, (p % 8) as u8);
                    } else {
                        lemma_clear_bit(u, off, (p % 8) as u8);
                    }
                }
            }
            if value {
                lemma_set_bit(u, off, off);
            } else {
                lemma_clear_bit(u, off, off);
            }
            assert(bit_at(self.data@, n as int) == value);
            assert(self@ =~= before.push(value));
        }
    }

    /// Starts a new zeroed unit when every bit of the current one is in use.
    fn check_if_add_unit(&mut self)
        requires
            old(self).wf(),
            old(self)@.len() < usize::MAX,
        ensures
            final(self).n_bit == old(self).n_bit,
            final(self).curr_i_unit == final(self).n_bit / 8,
            final(self).n_unit == final(self).data@.len(),
            final(self).curr_i_unit + 1 == final(self).n_unit,
            final(self).n_unit == final(self).n_bit / 8 + 1,
            final(self).data@.len() <= usize::MAX,
            final(self)@ == old(self)@,
            trailing_clear(final(self).n_bit as nat, final(self).data@),
    {
        let add_unit = self.n_bit % UNIT_BITS == 0 && self.n_bit > 0;
        if !add_unit {
            return;
        }
        let ghost before = self.data@;
        self.data.push(0);
        self.n_unit = self.n_unit + 1;
        self.curr_i_unit = self.curr_i_unit + 1;
        proof {
            assert forall|p: int| 0 <= p < 8 * before.len() implies #[trigger] bit_at(self.data@, p) == bit_at(before, p) by {
                assert(self.data@[p / 8] == before[p / 8]);
            }
            assert forall|p: int| self.n_bit <= p < 8 * self.data@.len() implies !#[trigger] bit_at(self.data@, p) by {
                lemma_zero_unit((p % 8) as u8);
            }
            assert(self@ =~= old(self)@);
        }
    }
    /// Removes the last bit: clears its slot, then drops the last unit when it
    /// became empty and another unit remains. Fails with `Underflow` on an empty buffer.
    pub fn pop(&mut self) -> (r: Result<(), BitsetError>)
        requires
            old(self).wf(),
        ensures
            final(self).wf(),
            trailing_clear(final(self)@.len(), final(self).units()),
            old(self)@.len() == 0 ==> r == Err::<(), BitsetError>(BitsetError::Underflow) && *final(self) == *old(self),
            old(self)@.len() > 0 ==> r is Ok && final(self)@ == old(self)@.drop_last(),
    {
        if self.n_bit == 0 {
            return Err(BitsetError::Underflow);
        }
        let ghost before = self@;
        let off: u8 = ((self.n_bit - 1) % UNIT_BITS) as u8;
        let i = self.curr_i_unit;
        let u = self.data[i];
        let ghost old_units = self.data@;
        self.data.set(i, u & !(1u8 << off));
        self.n_bit = self.n_bit - 1;
        proof {
            let n = self.n_bit;
            assert(i == n / 8);
            assert forall|p: int| 0 <= p < 8 * self.data@.len() && p != n implies #[trigger] bit_at(self.data@, p) == bit_at(old_units, p) by {
                if p / 8 == i {
                    lemma_clear_bit(u, off, (p % 8) as u8);
                }
            }
            lemma_clear_bit(u, off, off);
            assert(!bit_at(self.data@, n as int));
            assert(trailing_clear(n as nat, self.data@));
            assert(self@ =~= before.drop_last());
        }
        self.check_if_sub_unit();
        Ok(())
    }

    /// Drops the last unit when it holds no bit and another unit remains.
    fn check_if_sub_unit(&mut self)
        requires
            old(self).n_unit == old(self).data@.len(),
            old(self).curr_i_unit + 1 == old(self).n_unit,
            old(self).data@.len() <= usize::MAX,
            old(self).n_bit == 0 ==> old(self).n_unit == 1,
            old(self).n_bit > 0 ==> old(self).n_unit == (old(self).n_bit + 8) / 8,
            trailing_clear(old(self).n_bit as nat, old(self).data@),
        ensures
            final(self).wf(),
            final(self)@ == old(self)@,
    {
        let sub_unit = self.n_bit % UNIT_BITS == 0 && self.n_bit > 0;
        if !sub_unit {
            return;
        }
        let ghost before = self.data@;
        self.data.pop();
        self.n_unit = self.n_unit - 1;
        self.curr_i_unit = self.curr_i_unit - 1;
        proof {
            assert forall|p: int| 0 <= p < 8 * self.data@.len() implies #[trigger] bit_at(self.data@, p) == bit_at(before, p) by {
                assert(self.data@[p / 8] == before[p / 8]);
            }
            assert(self@ =~= old(self)@);
        }
    }

    /// The last bit.
    pub fn back(&self) -> (r: bool)
        requires
            self.wf(),
            self@.len() > 0,
        ensures
            r == self@.last(),
    {
        let off: u8 = ((self.n_bit - 1) % UNIT_BITS) as u8;
        let u = self.data[self.curr_i_unit];
        proof {
            assert(self.curr_i_unit == (self.n_bit - 1) / 8);
        }
        (u >> off) & 1u8 == 1u8
    }
    /// The bits in append order, one entry per bit: what a visitor of each bit receives.
    pub fn for_each_bit(&self) -> (r: Vec<bool>)
        requires
            self.wf(),
        ensures
            r@ == self@,
    {
        let mut r: Vec<bool> = Vec::new();
        let mut i: usize = 0;
        while i < self.n_bit
            invariant
                self.wf(),
                i <= self.n_bit,
                r@ == self@.take(i as int),
            decreases self.n_bit - i,
        {
            let u = self.data[i / UNIT_BITS];
            let off: u8 = (i % UNIT_BITS) as u8;
            r.push((u >> off) & 1u8 == 1u8);
            i = i + 1;
            proof {
                assert(r@ =~= self@.take(i as int));
            }
        }
        proof {
            assert(self@.take(i as int) =~= self@);
        }
        r
    }

    /// The storage units in order: what a visitor of each unit receives.
    pub fn for_each_unit(&self) -> (r: Vec<u8>)
        requires
            self.wf(),
        ensures
            r@ == self.units(),
    {
        let mut r: Vec<u8> = Vec::new();
        let mut i: usize = 0;
        while i < self.n_unit
            invariant
                self.wf(),
                i <= self.n_unit,
                r@ == self.data@.take(i as int),
            decreases self.n_unit - i,
        {
            r.push(self.data[i]);
            i = i + 1;
            proof {
                assert(r@ =~= self.data@.take(i as int));
            }
        }
        proof {
            assert(self.data@.take(i as int) =~= self.data@);
        }
        r
    }

    /// Read-only access to the bit count, unit count and index of the last unit.
    pub fn get_info(&self) -> (r: Info<'_>)
        requires
            self.wf(),
        ensures
            *r.n_bit == self@.len(),
            *r.n_unit == self.units().len(),
            *r.curr_i_unit + 1 == self.units().len(),
    {
        Info { n_bit: &self.n_bit, n_unit: &self.n_unit, curr_i_unit: &self.curr_i_unit }
    }

    /// A copy of the bookkeeping, to edit and hand back to `sync_with_info`.
    pub fn get_info_mut(&mut self) -> (r: InfoMut)
        requires
            old(self).wf(),
        ensures
            *final(self) == *old(self),
            r.n_bit == old(self)@.len(),
            r.n_unit == old(self).units().len(),
            r.curr_i_unit + 1 == old(self).units().len(),
    {
        InfoMut { n_bit: self.n_bit, n_unit: self.n_unit, curr_i_unit: self.curr_i_unit }
    }

    /// Takes over the bookkeeping in `info`, which must agree with the storage.
    pub fn sync_with_info(&mut self, info: &InfoMut)
        requires
            old(self).wf(),
            parts_wf(info.n_bit as nat, info.n_unit as nat, info.curr_i_unit as nat, old(self).units()),
        ensures
            final(self).wf(),
            final(self).units() == old(self).units(),
            final(self)@.len() == info.n_bit,
            final(self)@ == Seq::new(info.n_bit as nat, |i: int| bit_at(old(self).units(), i)),
    {
        self.n_bit = info.n_bit;
        self.n_unit = info.n_unit;
        self.curr_i_unit = info.curr_i_unit;
        proof {
            assert(self@ =~= Seq::new(info.n_bit as nat, |i: int| bit_at(old(self).units(), i)));
        }
    }

    /// A buffer holding one bit per character of `s`: `'1'` gives a one, any other character a zero.
    pub fn from_text(s: &str) -> (r: Self)
        ensures
            r.wf(),
            r@ == bits_of_text(s@),
    {
        let mut r = DynamicBitset::new();
        let n = s.unicode_len();
        let mut i: usize = 0;
        while i < n
            invariant
                r.wf(),
                n == s@.len(),
                i <= n,
                r@ == bits_of_text(s@.take(i as int)),
            decreases n - i,
        {
            let c = s.get_char(i);
            r.push(c == '1');
            i = i + 1;
            proof {
                assert(bits_of_text(s@.take(i as int)) =~= bits_of_text(s@.take(i - 1)).push(c == '1'));
            }
        }
        proof {
            assert(s@.take(i as int) =~= s@);
        }
        r
    }

    /// A buffer holding the given bits in order.
    pub fn from_bools(bits: Vec<bool>) -> (r: Self)
        ensures
            r.wf(),
            r@ == bits@,
    {
        let mut r = DynamicBitset::new();
        let mut i: usize = 0;
        while i < bits.len()
            invariant
                r.wf(),
                i <= bits@.len(),
                r@ == bits@.take(i as int),
            decreases bits@.len() - i,
        {
            r.push(bits[i]);
            i = i + 1;
            proof {
                assert(bits@.take(i as int) =~= bits@.take(i - 1).push(bits@[i - 1]));
            }
        }
        proof {
            assert(bits@.take(i as int) =~= bits@);
        }
        r
    }

    /// The bits as text: `'1'` for a one, `'0'` for a zero, in append order.
    pub fn to_text(&self) -> (r: String)
        requires
            self.wf(),
        ensures
            r@ == text_of_bits(self@),
    {
        let bits = self.for_each_bit();
        let mut r = String::new();
        let mut i: usize = 0;
        while i < bits.len()
            invariant
                bits@ == self@,
                i <= bits@.len(),
                r@ == text_of_bits(bits@.take(i as int)),
            decreases bits@.len() - i,
        {
            proof {
                reveal_strlit("0");
                reveal_strlit("1");
            }
            if bits[i] {
                r.append("1");
            } else {
                r.append("0");
            }
            i = i + 1;
            proof {
                assert(r@ =~= text_of_bits(bits@.take(i as int)));
            }
        }
        proof {
            assert(bits@.take(i as int) =~= bits@);
        }
        r
    }
}

impl PartialEq for DynamicBitset {
    /// Equal bit counts and equal storage.
    fn eq(&self, other: &Self) -> (r: bool) {
        if self.n_bit != other.n_bit || self.data.len() != other.data.len() {
            return false;
        }
        let mut i: usize = 0;
        while i < self.data.len()
            invariant
                self.data@.len() == other.data@.len(),
                i <= self.data@.len(),
                self.data@.take(i as int) == other.data@.take(i as int),
            decreases self.data@.len() - i,
        {
            if self.data[i] != other.data[i] {
                return false;
            }
            i = i + 1;
            proof {
                assert(self.data@.take(i as int) =~= self.data@.take(i - 1).push(self.data@[i - 1]));
                assert(other.data@.take(i as int) =~= other.data@.take(i - 1).push(other.data@[i - 1]));
            }
        }
        proof {
            assert(self.data@.take(i as int) =~= self.data@);
            assert(other.data@.take(i as int) =~= other.data@);
        }
        true
    }
}

impl vstd::std_specs::cmp::PartialEqSpecImpl for DynamicBitset {
    open spec fn obeys_eq_spec() -> bool {
        true
    }

    open spec fn eq_spec(&self, other: &DynamicBitset) -> bool {
        self@.len() == other@.len() && self.units() == other.units()
    }
}

impl Eq for DynamicBitset {
}

impl Default for DynamicBitset {
    fn default() -> (r: Self)
        ensures
            r.wf(),
            r@ == Seq::<bool>::empty(),
            r.units() == seq![0u8],
    {
        DynamicBitset::new()
    }
}

impl DynamicBitset {
    /// The serialized form: bit count, unit count and index of the last unit as
    /// little-endian words, then the storage units.
    pub fn to_bytes(&self) -> (r: Vec<u8>)
        requires
            self.wf(),
        ensures
            r@ == self.wire(),
    {
        let mut r = encode_word(self.n_bit as u64);
        let mut w = encode_word(self.n_unit as u64);
        r.append(&mut w);
        let mut w = encode_word(self.curr_i_unit as u64);
        r.append(&mut w);
        let mut d = self.for_each_unit();
        r.append(&mut d);
        r
    }

    /// Rebuilds a buffer from its serialized form. Fails with `Malformed` unless
    /// the header describes a well-formed buffer whose storage is exactly the
    /// bytes after the header.
    pub fn from_bytes(buf: &[u8]) -> (r: Result<DynamicBitset, BitsetError>)
        ensures
            r is Ok <==> wire_ok(buf@),
            r is Err ==> r == Err::<DynamicBitset, BitsetError>(BitsetError::Malformed),
            r matches Ok(b) ==> b.wf() && b@.len() == header_word(buf@, 0) && b.units() == buf@.skip(24),
            r matches Ok(b) ==> b@ == Seq::new(header_word(buf@, 0), |i: int| bit_at(buf@.skip(24), i)),
    {
        let len = buf.len();
        if len < HEADER_BYTES {
            return Err(BitsetError::Malformed);
        }
        let w0 = decode_word(buf, 0);
        let w1 = decode_word(buf, WORD_BYTES);
        let w2 = decode_word(buf, 2 * WORD_BYTES);
        proof {
            assert(w0 == header_word(buf@, 0));
            assert(w1 == header_word(buf@, 1));
            assert(w2 == header_word(buf@, 2));
        }
        if w0 > usize::MAX as u64 {
            return Err(BitsetError::Malformed);
        }
        let n_bit = w0 as usize;
        let needed: usize = if n_bit == 0 {
            1
        } else if n_bit % UNIT_BITS == 0 {
            n_bit / UNIT_BITS
        } else {
            n_bit / UNIT_BITS + 1
        };
        proof {
            assert(needed == units_needed(n_bit as nat));
        }
        let n_unit = len - HEADER_BYTES;
        if w1 != n_unit as u64 || w1 != needed as u64 || w2 != w1 - 1 {
            return Err(BitsetError::Malformed);
        }
        let curr = n_unit - 1;
        let last = buf[len - 1];
        let off = n_bit - UNIT_BITS * curr;
        if !clear_from(last, off) {
            proof {
                let j = choose|j: u8| off <= j < 8 && unit_bit(last, j);
                let p = 8 * curr + j;
                assert(p / 8 == curr && p % 8 == j);
                assert(buf@.skip(24)[curr as int] == last);
                assert(bit_at(buf@.skip(24), p as int));
            }
            return Err(BitsetError::Malformed);
        }
        let mut data: Vec<u8> = Vec::new();
        let mut i: usize = HEADER_BYTES;
        while i < len
            invariant
                HEADER_BYTES <= i <= len,
                len == buf@.len(),
                data@ == buf@.subrange(24, i as int),
            decreases len - i,
        {
            data.push(buf[i]);
            i = i + 1;
            proof {
                assert(data@ =~= buf@.subrange(24, i as int));
            }
        }
        proof {
            assert(data@ =~= buf@.skip(24));
            assert forall|p: int| n_bit <= p < 8 * data@.len() implies !#[trigger] bit_at(data@, p) by {
                assert(p / 8 == curr);
                assert(data@[p / 8] == last);
                assert(!unit_bit(last, (p % 8) as u8));
            }
        }
        let r = DynamicBitset { data, n_bit, n_unit, curr_i_unit: curr };
        proof {
            assert(r@.len() == header_word(buf@, 0));
            assert(r@ =~= Seq::new(header_word(buf@, 0), |i: int| bit_at(buf@.skip(24), i)));
        }
        Ok(r)
    }
}

/// Whether bits `off..8` of `u` are all zero.
fn clear_from(u: u8, off: usize) -> (r: bool)
    requires
        off <= 8,
    ensures
        r <==> forall|k: u8| off <= k < 8 ==> !unit_bit(u, k),
{
    let mut j: usize = off;
    while j < UNIT_BITS
        invariant
            off <= j <= 8,
            forall|k: u8| off <= k < j ==> !unit_bit(u, k),
        decreases 8 - j,
    {
        if (u >> (j as u8)) & 1u8 == 1u8 {
            assert(unit_bit(u, j as u8));
            return false;
        }
        j = j + 1;
    }
    true
}

/// A `'0'`/`'1'` text read into a buffer and written back out is unchanged.
pub proof fn lemma_text_round_trip(s: Seq<char>)
    requires
        forall|i: int| 0 <= i < s.len() ==> s[i] == '0' || s[i] == '1',
    ensures
        text_of_bits(bits_of_text(s)) == s,
{
    assert(text_of_bits(bits_of_text(s)) =~= s);
}

/// Reading back the serialized form of a buffer succeeds and gives the same
/// bit count and the same storage.
pub proof fn lemma_wire_round_trip(b: DynamicBitset)
    requires
        b.wf(),
    ensures
        wire_ok(b.wire()),
        header_word(b.wire(), 0) == b@.len(),
        b.wire().skip(24) == b.units(),
{
    let n = b@.len();
    let u = b.units();
    let w = b.wire();
    let e0 = le_encode(n, 8);
    let e1 = le_encode(u.len(), 8);
    let e2 = le_encode((u.len() - 1) as nat, 8);
    lemma_decode_encode(n, 8);
    lemma_decode_encode(u.len(), 8);
    lemma_decode_encode((u.len() - 1) as nat, 8);
    lemma_word_pow();
    assert(w.subrange(0, 8) =~= e0);
    assert(w.subrange(8, 16) =~= e1);
    assert(w.subrange(16, 24) =~= e2);
    assert(w.skip(24) =~= u);
    let m = vstd::arithmetic::power::pow(256, 8);
    vstd::arithmetic::div_mod::lemma_small_mod(n, m as nat);
    vstd::arithmetic::div_mod::lemma_small_mod(u.len(), m as nat);
    vstd::arithmetic::div_mod::lemma_small_mod((u.len() - 1) as nat, m as nat);
}

/// Two well-formed buffers holding the same bits hold the same storage.
pub proof fn lemma_same_bits_same_units(a: DynamicBitset, b: DynamicBitset)
    requires
        a.wf(),
        b.wf(),
        a@ == b@,
    ensures
        a.units() == b.units(),
{
    let n = a@.len();
    assert(a.units().len() == b.units().len());
    assert forall|k: int| 0 <= k < a.units().len() implies a.units()[k] == b.units()[k] by {
        assert forall|j: u8| j < 8 implies unit_bit(a.units()[k], j) == unit_bit(b.units()[k], j) by {
            let p = 8 * k + j;
            assert(p / 8 == k && p % 8 == j);
            assert(bit_at(a.units(), p) == unit_bit(a.units()[k], j));
            assert(bit_at(b.units(), p) == unit_bit(b.units()[k], j));
            if p < n {
                assert(a@[p] == bit_at(a.units(), p));
                assert(b@[p] == bit_at(b.units(), p));
                assert(a@[p] == b@[p]);
            } else {
                assert(!bit_at(a.units(), p));
                assert(!bit_at(b.units(), p));
            }
        }
        lemma_unit_ext(a.units()[k], b.units()[k]);
    }
    assert(a.units() =~= b.units());
}

/// Appending a bit and then removing the last bit gives a buffer equal to the
/// first one: the same bit count and the same storage.
pub proof fn lemma_push_pop_restores(before: DynamicBitset, pushed: DynamicBitset, popped: DynamicBitset, bit: bool)
    requires
        before.wf(),
        pushed.wf(),
        popped.wf(),
        pushed@ == before@.push(bit),
        popped@ == pushed@.drop_last(),
    ensures
        popped@.len() == before@.len(),
        popped.units() == before.units(),
{
    assert(popped@ =~= before@);
    lemma_same_bits_same_units(popped, before);
}


/// The bits of a buffer are read off its storage.
pub proof fn lemma_bits_from_units(b: DynamicBitset)
    requires
        b.wf(),
    ensures
        b@ == Seq::new(b@.len(), |i: int| bit_at(b.units(), i)),
{
    assert(b@ =~= Seq::new(b@.len(), |i: int| bit_at(b.units(), i)));
}

/// Equal buffers (same bit count, same storage) are exactly those holding the same bits.
pub proof fn lemma_eq_iff_same_bits(a: DynamicBitset, b: DynamicBitset)
    requires
        a.wf(),
        b.wf(),
    ensures
        (a@.len() == b@.len() && a.units() == b.units()) <==> a@ == b@,
{
    if a@ == b@ {
        lemma_same_bits_same_units(a, b);
    }
    if a@.len() == b@.len() && a.units() == b.units() {
        assert(a@ =~= b@);
    }
}

proof fn lemma_pack_unit_bits(bits: Seq<bool>, k: int, j: u8)
    requires
        j < 8,
    ensures
        unit_bit(pack_unit(bits, k), j) == (0 <= 8 * k + j < bits.len() && bits[8 * k + j]),
{
    let x0 = bit_value(bits, 8 * k);
    let x1 = bit_value(bits, 8 * k + 1);
    let x2 = bit_value(bits, 8 * k + 2);
    let x3 = bit_value(bits, 8 * k + 3);
    let x4 = bit_value(bits, 8 * k + 4);
    let x5 = bit_value(bits, 8 * k + 5);
    let x6 = bit_value(bits, 8 * k + 6);
    let x7 = bit_value(bits, 8 * k + 7);
    assert((8 * k + 0) % 8 == 0 && (8 * k + 1) % 8 == 1 && (8 * k + 2) % 8 == 2 && (8 * k + 3) % 8 == 3);
    assert((8 * k + 4) % 8 == 4 && (8 * k + 5) % 8 == 5 && (8 * k + 6) % 8 == 6 && (8 * k + 7) % 8 == 7);
    assert(1u8 << 0u8 == 1u8 && 1u8 << 1u8 == 2u8 && 1u8 << 2u8 == 4u8 && 1u8 << 3u8 == 8u8) by (bit_vector);
    assert(1u8 << 4u8 == 16u8 && 1u8 << 5u8 == 32u8 && 1u8 << 6u8 == 64u8 && 1u8 << 7u8 == 128u8) by (bit_vector);
    assert(x0 == 0 || x0 == 1);
    assert(x1 == 0 || x1 == 2);
    assert(x2 == 0 || x2 == 4);
    assert(x3 == 0 || x3 == 8);
    assert(x4 == 0 || x4 == 16);
    assert(x5 == 0 || x5 == 32);
    assert(x6 == 0 || x6 == 64);
    assert(x7 == 0 || x7 == 128);
    let u = x0 | x1 | x2 | x3 | x4 | x5 | x6 | x7;
    assert(((u >> j) & 1u8 == 1u8) == (
        (j == 0 && x0 == 1) || (j == 1 && x1 == 2) || (j == 2 && x2 == 4) || (j == 3 && x3 == 8)
        || (j == 4 && x4 == 16) || (j == 5 && x5 == 32) || (j == 6 && x6 == 64) || (j == 7 && x7 == 128)
    )) by (bit_vector)
        requires
            j < 8,
            u == x0 | x1 | x2 | x3 | x4 | x5 | x6 | x7,
            x0 == 0 || x0 == 1,
            x1 == 0 || x1 == 2,
            x2 == 0 || x2 == 4,
            x3 == 0 || x3 == 8,
            x4 == 0 || x4 == 16,
            x5 == 0 || x5 == 32,
            x6 == 0 || x6 == 64,
            x7 == 0 || x7 == 128,
    ;
}

/// The storage of a buffer is the packed form of its bits.
pub proof fn lemma_units_are_packed_bits(b: DynamicBitset)
    requires
        b.wf(),
    ensures
        b.units() == pack(b@),
{
    let n = b@.len();
    let u = b.units();
    let p = pack(b@);
    assert(p.len() == u.len());
    assert forall|k: int| 0 <= k < u.len() implies u[k] == p[k] by {
        assert forall|j: u8| j < 8 implies unit_bit(u[k], j) == unit_bit(p[k], j) by {
            lemma_pack_unit_bits(b@, k, j);
            let q = 8 * k + j;
            assert(q / 8 == k && q % 8 == j);
            assert(bit_at(u, q) == unit_bit(u[k], j));
            if q < n {
                assert(b@[q] == bit_at(u, q));
            } else {
                assert(!bit_at(u, q));
            }
        }
        lemma_unit_ext(u[k], p[k]);
    }
    assert(u =~= p);
}

} // verus!
