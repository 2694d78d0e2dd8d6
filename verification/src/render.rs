//! The trace line of an evaluated roll: every outcome with its die and
//! sign, the modifier when it is non-zero, and the signed total, e.g.
//! `15 (d20) - 2 (d6) + 3 = 16`.

use vstd::prelude::*;
use crate::dice::CompositeRoll;
use crate::dice::Sign;
use crate::dice::SingleDieRoll;
use crate::dice::composite_wf;
use crate::dice::dice_rolled;
use crate::dice::spec_sum;
use crate::dice::spec_total;
use crate::dice::total;

verus! {

/// The one-character string of a decimal digit.
pub open spec fn digit_str(d: nat) -> Seq<char> {
    if d == 0 {
        "0"@
    } else if d == 1 {
        "1"@
    } else if d == 2 {
        "2"@
    } else if d == 3 {
        "3"@
    } else if d == 4 {
        "4"@
    } else if d == 5 {
        "5"@
    } else if d == 6 {
        "6"@
    } else if d == 7 {
        "7"@
    } else if d == 8 {
        "8"@
    } else {
        "9"@
    }
}

/// The decimal numeral of a non-negative integer, without sign or
/// leading zeros.
pub open spec fn spec_dec(n: nat) -> Seq<char>
    decreases n,
{
    if n < 10 {
        digit_str(n)
    } else {
        spec_dec(n / 10) + digit_str(n % 10)
    }
}

/// The decimal numeral of an integer, with a leading `-` when negative.
pub open spec fn spec_int_str(n: int) -> Seq<char> {
    if n < 0 {
        "-"@ + spec_dec((-n) as nat)
    } else {
        spec_dec(n as nat)
    }
}

/// Append one decimal digit to the string.
fn append_digit(s: &mut String, d: u128)
    requires
        d < 10,
    ensures
        final(s)@ == old(s)@ + digit_str(d as nat),
{
    if d == 0 {
        s.append("0");
    } else if d == 1 {
        s.append("1");
    } else if d == 2 {
        s.append("2");
    } else if d == 3 {
        s.append("3");
    } else if d == 4 {
        s.append("4");
    } else if d == 5 {
        s.append("5");
    } else if d == 6 {
        s.append("6");
    } else if d == 7 {
        s.append("7");
    } else if d == 8 {
        s.append("8");
    } else {
        s.append("9");
    }
}

/// Append the decimal numeral of `n` to the string.
fn append_dec(s: &mut String, n: u128)
    ensures
        final(s)@ == old(s)@ + spec_dec(n as nat),
    decreases n,
{
    if n < 10 {
        append_digit(s, n);
    } else {
        append_dec(s, n / 10);
        append_digit(s, n % 10);
        proof {
            assert(old(s)@ + spec_dec((n / 10) as nat) + digit_str((n % 10) as nat) =~= old(s)@
                + (spec_dec((n / 10) as nat) + digit_str((n % 10) as nat)));
        }
    }
}

/// The printed form of a single die: the outcome, then the face count
/// in parentheses, e.g. `17 (d20)`.
pub open spec fn spec_die_entry(d: SingleDieRoll) -> Seq<char> {
    spec_dec(d.roll as nat) + " (d"@ + spec_dec(d.max as nat) + ")"@
}

/// The printed form of a sign: `+` or `-`.
pub open spec fn spec_sign_str(s: Sign) -> Seq<char> {
    if s is Plus {
        "+"@
    } else {
        "-"@
    }
}

/// The printed form of the first `i` dice: the first die without its
/// sign (a presentation choice; the sign still enters the total), each
/// later die preceded by its sign, all separated by single spaces.
pub open spec fn spec_dice_part(dice: Seq<SingleDieRoll>, i: int) -> Seq<char>
    decreases i,
{
    if i <= 1 {
        spec_die_entry(dice[0])
    } else {
        spec_dice_part(dice, i - 1) + " "@ + spec_sign_str(dice[i - 1].sign) + " "@
            + spec_die_entry(dice[i - 1])
    }
}

/// The printed form of the modifier: omitted when zero, ` + m` when
/// positive, ` - |m|` when negative.
pub open spec fn spec_mod_part(m: int) -> Seq<char> {
    if m > 0 {
        " + "@ + spec_dec(m as nat)
    } else if m < 0 {
        " - "@ + spec_dec((-m) as nat)
    } else {
        Seq::<char>::empty()
    }
}

/// The whole trace line of an evaluated, non-empty composite roll:
/// the dice with their outcomes, the modifier when non-zero, and
/// ` = total`.
pub open spec fn spec_format(c: CompositeRoll) -> Seq<char> {
    spec_dice_part(c.dice@, c.dice@.len() as int) + spec_mod_part(c.modifier as int) + " = "@
        + spec_int_str(spec_total(c))
}

/// Append the printed form of one die.
fn append_die_entry(s: &mut String, d: &SingleDieRoll)
    requires
        0 <= d.roll,
        0 <= d.max,
    ensures
        final(s)@ == old(s)@ + spec_die_entry(*d),
{
    append_dec(s, d.roll as u128);
    s.append(" (d");
    append_dec(s, d.max as u128);
    s.append(")");
    proof {
        assert(old(s)@ + spec_dec(d.roll as nat) + " (d"@ + spec_dec(d.max as nat) + ")"@ =~= old(
            s,
        )@ + (spec_dec(d.roll as nat) + " (d"@ + spec_dec(d.max as nat) + ")"@));
    }
}

/// The magnitude of the signed sum of a dice sequence is at most the
/// length of the sequence times the largest die outcome the type can
/// hold, so the total always fits the return type of [`total`].
proof fn lemma_sum_magnitude(dice: Seq<SingleDieRoll>)
    ensures
        -(dice.len() as int) * 0x8000_0000 <= spec_sum(dice) <= (dice.len() as int) * 0x8000_0000,
    decreases dice.len(),
{
    if dice.len() > 0 {
        lemma_sum_magnitude(dice.drop_last());
        let last = dice.last();
        assert(-0x8000_0000 <= crate::dice::sign_mult(last.sign) * (last.roll as int)
            <= 0x8000_0000) by {
            if last.sign is Plus {
                assert(crate::dice::sign_mult(last.sign) == 1);
            } else {
                assert(crate::dice::sign_mult(last.sign) == -1);
            }
        };
    }
}

/// The trace line of an evaluated composite roll with at least one die:
/// the first outcome and die, each further outcome with its sign, the
/// modifier when non-zero, and the signed total.
pub fn format_roll(c: &CompositeRoll) -> (r: String)
    requires
        composite_wf(*c),
        dice_rolled(c.dice@),
        c.dice@.len() >= 1,
    ensures
        r@ == spec_format(*c),
{
    let n = c.dice.len();
    let mut s = String::new();
    let first = c.dice[0];
    assert(1 <= first.roll && 1 <= first.max);
    append_die_entry(&mut s, &first);
    let mut i: usize = 1;
    while i < n
        invariant
            1 <= i <= n,
            n == c.dice@.len(),
            composite_wf(*c),
            dice_rolled(c.dice@),
            s@ == spec_dice_part(c.dice@, i as int),
        decreases n - i,
    {
        let die = c.dice[i];
        let ghost pre = s@;
        if die.sign == Sign::Plus {
            s.append(" + ");
            proof {
                reveal_strlit(" + ");
                reveal_strlit(" ");
                reveal_strlit("+");
                assert(" + "@ =~= " "@ + "+"@ + " "@);
            }
        } else {
            s.append(" - ");
            proof {
                reveal_strlit(" - ");
                reveal_strlit(" ");
                reveal_strlit("-");
                assert(" - "@ =~= " "@ + "-"@ + " "@);
            }
        }
        proof {
            assert(s@ =~= pre + " "@ + spec_sign_str(die.sign) + " "@);
        }
        assert(1 <= die.roll && 1 <= die.max);
        append_die_entry(&mut s, &die);
        proof {
            assert(s@ =~= spec_dice_part(c.dice@, i + 1 as int));
        }
        i += 1;
    }
    if c.modifier > 0 {
        s.append(" + ");
        append_dec(&mut s, c.modifier as u128);
        proof {
            assert(s@ =~= spec_dice_part(c.dice@, n as int) + spec_mod_part(c.modifier as int));
        }
    } else if c.modifier < 0 {
        s.append(" - ");
        let mag: i64 = -(c.modifier as i64);
        append_dec(&mut s, mag as u128);
        proof {
            assert(s@ =~= spec_dice_part(c.dice@, n as int) + spec_mod_part(c.modifier as int));
        }
    } else {
        proof {
            assert(s@ =~= spec_dice_part(c.dice@, n as int) + spec_mod_part(c.modifier as int));
        }
    }
    s.append(" = ");
    let t = total(c);
    proof {
        lemma_sum_magnitude(c.dice@);
    }
    if t < 0 {
        s.append("-");
        append_dec(&mut s, (-t) as u128);
    } else {
        append_dec(&mut s, t as u128);
    }
    proof {
        assert(s@ =~= spec_format(*c));
    }
    s
}

} // verus!
