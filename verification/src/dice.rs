//! The data model of a composite roll: signed single dice plus an
//! integer modifier, the sampling of the dice, and the signed total.

use vstd::prelude::*;

verus! {

/// Whether a term of a roll expression adds to or subtracts from the
/// total. Attaching the sign to each die keeps the representation a
/// flat sequence of signed addends (`1d20 - 1d6` becomes `+1d20, -1d6`).
#[derive(Copy, Clone, PartialEq, Eq, Structural, Debug)]
pub enum Sign {
    Plus,
    Minus,
}

/// The multiplier a sign contributes: `1` for `Plus`, `-1` for `Minus`.
pub open spec fn sign_mult(s: Sign) -> int {
    match s {
        Sign::Plus => 1,
        Sign::Minus => -1,
    }
}

/// The character a sign is written as: `'+'` or `'-'`.
pub open spec fn sign_char(s: Sign) -> char {
    match s {
        Sign::Plus => '+',
        Sign::Minus => '-',
    }
}

impl Sign {
    /// The sign denoted by a `'+'` or `'-'` character; any other
    /// character is rejected.
    pub(crate) fn from_char(c: char) -> (r: Result<Sign, &'static str>)
        ensures
            c == '+' ==> r == Result::<Sign, &'static str>::Ok(Sign::Plus),
            c == '-' ==> r == Result::<Sign, &'static str>::Ok(Sign::Minus),
            c != '+' && c != '-' ==> r is Err,
    {
        match c {
            '+' => Ok(Sign::Plus),
            '-' => Ok(Sign::Minus),
            _ => Err("Sign character should be '+' or '-'"),
        }
    }

    /// The character form of the sign.
    pub fn to_char(self) -> (r: char)
        ensures
            r == sign_char(self),
    {
        match self {
            Sign::Plus => '+',
            Sign::Minus => '-',
        }
    }

    /// The multiplier form of the sign, to simplify aggregating
    /// [`SingleDieRoll`]s.
    pub fn to_multiplier(self) -> (r: i32)
        ensures
            r as int == sign_mult(self),
    {
        match self {
            Sign::Plus => 1,
            Sign::Minus => -1,
        }
    }
}

/// One die of a composite roll: the face count `max` (the `N` of `dN`),
/// the sampled outcome `roll` (`0` until the die has been rolled), and
/// the sign with which the outcome enters the total.
#[derive(Copy, Clone, PartialEq, Eq, Structural, Debug)]
pub struct SingleDieRoll {
    pub max: i32,
    pub roll: i32,
    pub sign: Sign,
}

/// A parsed roll expression: an ordered sequence of signed dice and the
/// algebraic sum of the expression's numeric-literal terms.
pub struct CompositeRoll {
    pub dice: Vec<SingleDieRoll>,
    pub modifier: i32,
}

/// A die is well formed when it has at least one face.
pub open spec fn die_wf(d: SingleDieRoll) -> bool {
    1 <= d.max
}

/// Every die of the sequence is well formed.
pub open spec fn dice_wf(dice: Seq<SingleDieRoll>) -> bool {
    forall|i: int| 0 <= i < dice.len() ==> die_wf(#[trigger] dice[i])
}

/// Every die of the sequence has been sampled: its outcome lies in
/// `[1, max]`.
pub open spec fn dice_rolled(dice: Seq<SingleDieRoll>) -> bool {
    forall|i: int| 0 <= i < dice.len() ==> 1 <= (#[trigger] dice[i]).roll <= dice[i].max
}

/// Every die of the sequence is still unsampled (`roll == 0`).
pub open spec fn dice_unrolled(dice: Seq<SingleDieRoll>) -> bool {
    forall|i: int| 0 <= i < dice.len() ==> (#[trigger] dice[i]).roll == 0
}

/// A composite roll is well formed when all of its dice are.
pub open spec fn composite_wf(c: CompositeRoll) -> bool {
    dice_wf(c.dice@)
}

/// The signed sum of the sampled outcomes of a dice sequence.
pub open spec fn spec_sum(dice: Seq<SingleDieRoll>) -> int
    decreases dice.len(),
{
    if dice.len() == 0 {
        0
    } else {
        spec_sum(dice.drop_last()) + sign_mult(dice.last().sign) * (dice.last().roll as int)
    }
}

/// The total of a composite roll: the modifier plus the signed sum of
/// the sampled outcomes.
pub open spec fn spec_total(c: CompositeRoll) -> int {
    c.modifier + spec_sum(c.dice@)
}

/// Relies on `rand::random_range`: a uniform sample from the given
/// range, drawn from the thread-local generator. It panics only on an
/// empty range, and `1..=max` is non-empty since `max >= 1`.
#[verifier::external_body]
fn roll_single_die(max: i32) -> (r: i32)
    requires
        1 <= max,
    ensures
        1 <= r <= max,
{
    rand::random_range(1..=max)
}

/// Sample every die of the composite roll, in sequence order, leaving
/// the face counts, the signs and the modifier unchanged. Each outcome
/// is uniform over `[1, max]`. Re-invoking re-samples.
pub fn roll_dice(dice_roll: &mut CompositeRoll)
    requires
        composite_wf(*old(dice_roll)),
    ensures
        final(dice_roll).dice@.len() == old(dice_roll).dice@.len(),
        final(dice_roll).modifier == old(dice_roll).modifier,
        forall|i: int| 0 <= i < old(dice_roll).dice@.len() ==> {
            &&& (#[trigger] final(dice_roll).dice@[i]).max == old(dice_roll).dice@[i].max
            &&& final(dice_roll).dice@[i].sign == old(dice_roll).dice@[i].sign
        },
        composite_wf(*final(dice_roll)),
        dice_rolled(final(dice_roll).dice@),
{
    let n = dice_roll.dice.len();
    let mut i: usize = 0;
    while i < n
        invariant
            i <= n,
            n == dice_roll.dice@.len(),
            n == old(dice_roll).dice@.len(),
            dice_roll.modifier == old(dice_roll).modifier,
            forall|k: int| 0 <= k < n ==> {
                &&& (#[trigger] dice_roll.dice@[k]).max == old(dice_roll).dice@[k].max
                &&& dice_roll.dice@[k].sign == old(dice_roll).dice@[k].sign
            },
            forall|k: int| 0 <= k < i ==> 1 <= (#[trigger] dice_roll.dice@[k]).roll
                <= dice_roll.dice@[k].max,
            composite_wf(*old(dice_roll)),
        decreases n - i,
    {
        let die = dice_roll.dice[i];
        let outcome = roll_single_die(die.max);
        dice_roll.dice[i] = SingleDieRoll { max: die.max, roll: outcome, sign: die.sign };
        i += 1;
    }
}

/// The total of an evaluated composite roll: the modifier plus the
/// signed sum of the outcomes. The accumulator is wide enough that the
/// sum cannot overflow for any value of the representation.
pub fn total(c: &CompositeRoll) -> (r: i128)
    ensures
        r as int == spec_total(*c),
{
    let n = c.dice.len();
    let mut acc: i128 = 0;
    let mut i: usize = 0;
    while i < n
        invariant
            i <= n,
            n == c.dice@.len(),
            acc == spec_sum(c.dice@.subrange(0, i as int)),
            -(i as int) * 0x8000_0000 <= acc <= (i as int) * 0x8000_0000,
        decreases n - i,
    {
        let die = c.dice[i];
        let delta: i128 = (die.sign.to_multiplier() as i128) * (die.roll as i128);
        proof {
            assert(c.dice@.subrange(0, i + 1 as int).drop_last() =~= c.dice@.subrange(
                0,
                i as int,
            ));
            assert(c.dice@.subrange(0, i + 1 as int).last() == c.dice@[i as int]);
        }
        acc = acc + delta;
        i += 1;
    }
    proof {
        assert(c.dice@.subrange(0, n as int) =~= c.dice@);
    }
    c.modifier as i128 + acc
}

/// The least value the signed sum of a dice sequence can take once
/// every die is sampled: `1` for an additive die, `-max` for a
/// subtractive one.
pub open spec fn spec_sum_min(dice: Seq<SingleDieRoll>) -> int
    decreases dice.len(),
{
    if dice.len() == 0 {
        0
    } else {
        spec_sum_min(dice.drop_last()) + (if dice.last().sign is Plus {
            1int
        } else {
            -(dice.last().max as int)
        })
    }
}

/// The greatest value the signed sum of a dice sequence can take once
/// every die is sampled: `max` for an additive die, `-1` for a
/// subtractive one.
pub open spec fn spec_sum_max(dice: Seq<SingleDieRoll>) -> int
    decreases dice.len(),
{
    if dice.len() == 0 {
        0
    } else {
        spec_sum_max(dice.drop_last()) + (if dice.last().sign is Plus {
            dice.last().max as int
        } else {
            -1int
        })
    }
}

/// Law: once every die is sampled, the signed sum lies between the sum
/// of the per-die extremes, where each die ranges over `sign * 1` to
/// `sign * max` (ends ordered according to the sign).
pub proof fn lemma_sum_bounds(dice: Seq<SingleDieRoll>)
    requires
        dice_wf(dice),
        dice_rolled(dice),
    ensures
        spec_sum_min(dice) <= spec_sum(dice) <= spec_sum_max(dice),
    decreases dice.len(),
{
    if dice.len() > 0 {
        assert(dice_wf(dice.drop_last())) by {
            assert(forall|i: int| 0 <= i < dice.len() - 1 ==> dice.drop_last()[i] == dice[i]);
        }
        assert(dice_rolled(dice.drop_last())) by {
            assert(forall|i: int| 0 <= i < dice.len() - 1 ==> dice.drop_last()[i] == dice[i]);
        }
        lemma_sum_bounds(dice.drop_last());
        assert(1 <= dice.last().roll <= dice.last().max);
    }
}

/// Law: for an evaluated composite roll the total lies in the envelope
/// `[modifier + sum of least signed outcomes, modifier + sum of
/// greatest signed outcomes]`, the per-die ends being `sign * 1` and
/// `sign * max`.
pub proof fn lemma_total_bounds(c: CompositeRoll)
    requires
        composite_wf(c),
        dice_rolled(c.dice@),
    ensures
        c.modifier + spec_sum_min(c.dice@) <= spec_total(c) <= c.modifier + spec_sum_max(c.dice@),
{
    lemma_sum_bounds(c.dice@);
}

} // verus!
