use vstd::prelude::*;
use bitvec::order::Lsb0;
use bitvec::view::BitView;
use crate::arith::{bit, bits_value};
use crate::literal::Literal;
use crate::variable::Variable;
use vstd::arithmetic::power2::pow2;
use vstd::bits::lemma_u64_shr_is_div;

verus! {

/// Relies on bitvec's `BitView::view_bits` with `Lsb0` ordering: index `i` of
/// the view is bit `i` of the integer, least significant bit first.
#[verifier::external_body]
fn bit_at(value: u64, index: usize) -> (r: bool)
    requires
        index < 64,
    ensures
        r == ((value >> (index as u64)) & 1 == 1),
{
    value.view_bits::<Lsb0>()[index]
}

/// The shift-and-mask form of bit extraction agrees with the arithmetic one.
proof fn lemma_shift_is_bit(value: u64, index: u64)
    requires
        index < 64,
    ensures
        ((value >> index) & 1 == 1) == bit(value as nat, index as nat),
{
    lemma_u64_shr_is_div(value, index);
    let y = value >> index;
    assert(y & 1 == y % 2) by (bit_vector);
}

/// A fixed-width binary encoding: one literal per variable, the polarity of
/// the literal at position `i` being bit `i` of the encoded value.
#[derive(Debug, PartialEq, Eq)]
pub struct Binary {
    pub bits: Vec<Literal>,
}

/// The literals encoding `value` over `variables`, position by position.
pub open spec fn encodes(bits: Seq<Literal>, value: nat, variables: Seq<Variable>) -> bool {
    &&& bits.len() == variables.len()
    &&& forall|i: int|
        0 <= i < bits.len() ==> bits[i] == (Literal {
            variable: variables[i],
            positive: bit(value, i as nat),
        })
}

impl Binary {
    /// Encodes `value` over the given variables.  The value must fit in the
    /// available bits; a caller that provides too few variables has
    /// under-provisioned the encoding, which is a configuration error, not a
    /// runtime condition.
    pub fn from_decimal(decimal: usize, variables: &[Variable]) -> (r: Self)
        requires
            variables@.len() < 32,
            (decimal as nat) < pow2(variables@.len() as nat),
        ensures
            encodes(r.bits@, decimal as nat, variables@),
    {
        let mut bits: Vec<Literal> = Vec::new();
        let mut i: usize = 0;
        while i < variables.len()
            invariant
                0 <= i <= variables@.len(),
                variables@.len() < 32,
                bits@.len() == i,
                forall|k: int|
                    0 <= k < i ==> bits@[k] == (Literal {
                        variable: variables@[k],
                        positive: bit(decimal as nat, k as nat),
                    }),
            decreases variables@.len() - i,
        {
            let b = bit_at(decimal as u64, i);
            proof {
                lemma_shift_is_bit(decimal as u64, i as u64);
            }
            bits.push(Literal::new(variables[i], b));
            i += 1;
        }
        Self { bits }
    }

    /// The largest value the given variables can encode.
    pub fn max_value(variables: &[Variable]) -> (r: usize)
        requires
            variables@.len() < 32,
        ensures
            r == pow2(variables@.len() as nat) - 1,
    {
        proof {
            vstd::bits::lemma_u32_pow2_no_overflow(variables@.len() as nat);
            vstd::bits::lemma_usize_shl_is_mul(1, variables@.len() as usize);
        }
        (1usize << variables.len()) - 1
    }
}

/// Reassembling the bit value from the polarities of the literals returned by
/// `from_decimal` reproduces the encoded value exactly.
pub proof fn lemma_from_decimal_round_trip(
    bits: Seq<Literal>,
    value: nat,
    variables: Seq<Variable>,
)
    requires
        encodes(bits, value, variables),
        value < pow2(variables.len()),
    ensures
        bits_value(bits.map_values(|l: Literal| l.positive)) == value,
{
    let polarities = bits.map_values(|l: Literal| l.positive);
    assert(polarities =~= Seq::new(variables.len(), |i: int| bit(value, i as nat)));
    crate::arith::lemma_bits_value_round_trip(value, variables.len());
}

} // verus!
