//! The roll-expression parser. An expression is a sequence of signed
//! terms; a term is either a dice term `kdN` or a non-negative integer
//! modifier. All whitespace is ignored, and a missing leading sign is
//! read as `+`. The grammar, the value of every term and the exact
//! domain of the parser are stated as spec functions, and
//! [`parse_roll_string`] is proved to decide them.

use vstd::prelude::*;
use crate::dice::CompositeRoll;
use crate::dice::Sign;
use crate::dice::SingleDieRoll;
use crate::dice::sign_mult;

verus! {

/// The whitespace characters that are stripped before parsing: the
/// characters with the Unicode `White_Space` property, as
/// `char::is_whitespace` recognises them.
pub open spec fn is_ws(c: char) -> bool {
    ||| c == '\u{0009}'
    ||| c == '\u{000A}'
    ||| c == '\u{000B}'
    ||| c == '\u{000C}'
    ||| c == '\u{000D}'
    ||| c == ' '
    ||| c == '\u{0085}'
    ||| c == '\u{00A0}'
    ||| c == '\u{1680}'
    ||| c == '\u{2000}'
    ||| c == '\u{2001}'
    ||| c == '\u{2002}'
    ||| c == '\u{2003}'
    ||| c == '\u{2004}'
    ||| c == '\u{2005}'
    ||| c == '\u{2006}'
    ||| c == '\u{2007}'
    ||| c == '\u{2008}'
    ||| c == '\u{2009}'
    ||| c == '\u{200A}'
    ||| c == '\u{2028}'
    ||| c == '\u{2029}'
    ||| c == '\u{202F}'
    ||| c == '\u{205F}'
    ||| c == '\u{3000}'
}

/// Whether the character begins a new signed term.
pub open spec fn is_sign_char(c: char) -> bool {
    c == '+' || c == '-'
}

/// The expression with every whitespace character removed.
pub open spec fn strip_ws(s: Seq<char>) -> Seq<char>
    decreases s.len(),
{
    if s.len() == 0 {
        Seq::<char>::empty()
    } else if is_ws(s[0]) {
        strip_ws(s.drop_first())
    } else {
        seq![s[0]] + strip_ws(s.drop_first())
    }
}

/// The stripped expression with a `+` supplied when no leading sign is
/// written; an empty expression stays empty.
pub open spec fn normalize(s: Seq<char>) -> Seq<char> {
    if s.len() > 0 && !is_sign_char(s[0]) {
        seq!['+'] + s
    } else {
        s
    }
}

/// Whether the character is a decimal digit.
pub open spec fn is_digit(c: char) -> bool {
    48 <= c as u32 <= 57
}

/// The value of a decimal digit.
pub open spec fn digit_val(c: char) -> int {
    c as u32 - 48
}

/// Whether every character of the sequence is a decimal digit.
pub open spec fn all_digits(s: Seq<char>) -> bool {
    forall|i: int| 0 <= i < s.len() ==> is_digit(#[trigger] s[i])
}

/// The value of a sequence of decimal digits, most significant first.
pub open spec fn dec_val(s: Seq<char>) -> int
    decreases s.len(),
{
    if s.len() == 0 {
        0
    } else {
        10 * dec_val(s.drop_last()) + digit_val(s.last())
    }
}

/// A numeric field of a term: non-empty, all digits, and small enough
/// for the representation (the count and face fields of `kdN` and the
/// value of a modifier term are stored as `i32`).
pub open spec fn valid_number(s: Seq<char>) -> bool {
    s.len() > 0 && all_digits(s) && dec_val(s) <= i32::MAX
}

/// The position of the first sign character at or after `i`, or the
/// length when there is none.
pub open spec fn next_sign_idx(s: Seq<char>, i: int) -> int
    decreases s.len() - i,
{
    if i < 0 || i >= s.len() {
        s.len() as int
    } else if is_sign_char(s[i]) {
        i
    } else {
        next_sign_idx(s, i + 1)
    }
}

/// The position of the first `d` at or after `i`, or the length when
/// there is none.
pub open spec fn first_d_idx(s: Seq<char>, i: int) -> int
    decreases s.len() - i,
{
    if i < 0 || i >= s.len() {
        s.len() as int
    } else if s[i] == 'd' {
        i
    } else {
        first_d_idx(s, i + 1)
    }
}

/// The dice a term `kdN` stands for: `count` copies of an unsampled
/// die with `faces` faces and the given sign.
pub open spec fn dice_seq(count: int, faces: int, sign: Sign) -> Seq<SingleDieRoll> {
    Seq::new(count as nat, |i: int| SingleDieRoll { max: faces as i32, roll: 0, sign })
}

/// The meaning of one signed term: the dice it contributes and the
/// signed value it adds to the modifier, or nothing when it is
/// malformed. A term is a sign character followed by its body. A body
/// with a `d` is a dice term: exactly one `d` between two numeric
/// fields, of which the face count must be positive (a count of zero is
/// accepted and contributes no dice). Any other body must be a numeric
/// field and is a modifier term.
pub open spec fn spec_parse_term(term: Seq<char>) -> Option<(Seq<SingleDieRoll>, int)> {
    if term.len() < 1 || !is_sign_char(term[0]) {
        None
    } else {
        let sign = if term[0] == '+' {
            Sign::Plus
        } else {
            Sign::Minus
        };
        let body = term.subrange(1, term.len() as int);
        let k = first_d_idx(body, 0);
        if k == body.len() {
            if valid_number(body) {
                Some((Seq::<SingleDieRoll>::empty(), sign_mult(sign) * dec_val(body)))
            } else {
                None
            }
        } else {
            let count_part = body.subrange(0, k);
            let faces_part = body.subrange(k + 1, body.len() as int);
            if first_d_idx(faces_part, 0) != faces_part.len() {
                None
            } else if valid_number(count_part) && valid_number(faces_part) && dec_val(faces_part)
                >= 1 {
                Some((dice_seq(dec_val(count_part), dec_val(faces_part), sign), 0))
            } else {
                None
            }
        }
    }
}

/// The position after `i` where the term that starts at `i` ends.
pub open spec fn term_end(t: Seq<char>, i: int) -> int {
    next_sign_idx(t, i + 1)
}

/// The first sign position at or after `i` lies between `i` and the
/// length, carries a sign character when it is not the length, and no
/// sign character stands before it.
pub proof fn lemma_next_sign_idx(s: Seq<char>, i: int)
    requires
        0 <= i <= s.len(),
    ensures
        i <= next_sign_idx(s, i) <= s.len(),
        next_sign_idx(s, i) < s.len() ==> is_sign_char(s[next_sign_idx(s, i)]),
        forall|m: int| i <= m < next_sign_idx(s, i) ==> !is_sign_char(#[trigger] s[m]),
    decreases s.len() - i,
{
    if i < s.len() && !is_sign_char(s[i]) {
        lemma_next_sign_idx(s, i + 1);
    }
}

/// The meaning of the expression from position `i` on, `i` being the
/// start of a term (or the end): the dice of every term in order and
/// the sum of the terms' modifier values, or nothing when any term is
/// malformed.
pub open spec fn spec_parse_from(t: Seq<char>, i: int) -> Option<(Seq<SingleDieRoll>, int)>
    decreases t.len() - i,
    via spec_parse_from_decreases
{
    if i < 0 || i >= t.len() {
        Some((Seq::<SingleDieRoll>::empty(), 0int))
    } else {
        let j = term_end(t, i);
        match (spec_parse_term(t.subrange(i, j)), spec_parse_from(t, j)) {
            (Some(head), Some(rest)) => Some((head.0 + rest.0, head.1 + rest.1)),
            _ => None,
        }
    }
}

#[via_fn]
proof fn spec_parse_from_decreases(t: Seq<char>, i: int) {
    if 0 <= i < t.len() {
        lemma_next_sign_idx(t, i + 1);
    }
}

/// The meaning of a whole expression: whitespace is stripped, a missing
/// leading sign is supplied, the terms are parsed, and the accumulated
/// modifier must fit its `i32` representation. An expression with no
/// term at all is the empty composite roll.
pub open spec fn spec_parse_roll(s: Seq<char>) -> Option<(Seq<SingleDieRoll>, int)> {
    let t = normalize(strip_ws(s));
    match spec_parse_from(t, 0) {
        Some(dm) => if i32::MIN <= dm.1 <= i32::MAX {
            Some(dm)
        } else {
            None
        },
        None => None,
    }
}

/// Whether the character is whitespace, deciding [`is_ws`].
fn is_whitespace_char(c: char) -> (r: bool)
    ensures
        r == is_ws(c),
{
    c == '\u{0009}' || c == '\u{000A}' || c == '\u{000B}' || c == '\u{000C}' || c == '\u{000D}'
        || c == ' ' || c == '\u{0085}' || c == '\u{00A0}' || c == '\u{1680}' || c == '\u{2000}'
        || c == '\u{2001}' || c == '\u{2002}' || c == '\u{2003}' || c == '\u{2004}'
        || c == '\u{2005}' || c == '\u{2006}' || c == '\u{2007}' || c == '\u{2008}'
        || c == '\u{2009}' || c == '\u{200A}' || c == '\u{2028}' || c == '\u{2029}'
        || c == '\u{202F}' || c == '\u{205F}' || c == '\u{3000}'
}

/// The expression as a vector of characters, stripped of whitespace and
/// with a `+` supplied when no leading sign is written.
fn strip_and_normalize(s: &str) -> (t: Vec<char>)
    ensures
        t@ == normalize(strip_ws(s@)),
{
    let n = s.unicode_len();
    let mut v: Vec<char> = Vec::new();
    let mut i: usize = 0;
    proof {
        assert(s@.subrange(0, n as int) =~= s@);
        assert(v@ + strip_ws(s@) =~= strip_ws(s@));
    }
    while i < n
        invariant
            i <= n,
            n == s@.len(),
            strip_ws(s@) == v@ + strip_ws(s@.subrange(i as int, n as int)),
        decreases n - i,
    {
        let c = s.get_char(i);
        let ghost rest = s@.subrange(i as int, n as int);
        proof {
            assert(rest[0] == s@[i as int]);
            assert(rest.drop_first() =~= s@.subrange(i + 1 as int, n as int));
        }
        if !is_whitespace_char(c) {
            v.push(c);
            proof {
                assert(v@ + strip_ws(s@.subrange(i + 1 as int, n as int)) =~= v@.drop_last() + (
                seq![c] + strip_ws(s@.subrange(i + 1 as int, n as int))));
            }
        }
        i += 1;
    }
    proof {
        assert(strip_ws(s@.subrange(n as int, n as int)) =~= Seq::<char>::empty());
        assert(v@ + Seq::<char>::empty() =~= v@);
    }
    if v.len() > 0 {
        let c0 = v[0];
        if !(c0 == '+' || c0 == '-') {
            let mut w: Vec<char> = Vec::new();
            w.push('+');
            w.append(&mut v);
            proof {
                assert(w@ =~= seq!['+'] + strip_ws(s@));
            }
            return w;
        }
    }
    v
}

/// The position of the first sign character at or after `start`,
/// deciding [`next_sign_idx`].
fn find_next_sign(t: &Vec<char>, start: usize) -> (j: usize)
    requires
        start <= t@.len(),
    ensures
        j as int == next_sign_idx(t@, start as int),
        start <= j <= t@.len(),
        j < t@.len() ==> is_sign_char(t@[j as int]),
{
    let n = t.len();
    let mut k = start;
    while k < n && !(t[k] == '+' || t[k] == '-')
        invariant
            start <= k <= n,
            n == t@.len(),
            next_sign_idx(t@, start as int) == next_sign_idx(t@, k as int),
        decreases n - k,
    {
        k += 1;
    }
    k
}

/// The value of the digit field `t[from..to]`, when it is one: `None`
/// exactly when the field is empty, holds a non-digit, or exceeds the
/// `i32` range.
fn scan_number(t: &Vec<char>, from: usize, to: usize) -> (r: Option<i32>)
    requires
        from <= to <= t@.len(),
    ensures
        valid_number(t@.subrange(from as int, to as int)) ==> (r is Some && r->0 as int == dec_val(
            t@.subrange(from as int, to as int),
        ) && r->0 >= 0),
        !valid_number(t@.subrange(from as int, to as int)) ==> r is None,
{
    let ghost field = t@.subrange(from as int, to as int);
    if from == to {
        return None;
    }
    let mut i = from;
    let mut val: u64 = 0;
    let mut too_big = false;
    while i < to
        invariant
            from <= i <= to <= t@.len(),
            field == t@.subrange(from as int, to as int),
            all_digits(t@.subrange(from as int, i as int)),
            !too_big ==> val as int == dec_val(t@.subrange(from as int, i as int)) && val
                <= 0x7fff_ffff,
            too_big ==> dec_val(t@.subrange(from as int, i as int)) > 0x7fff_ffff,
        decreases to - i,
    {
        let c = t[i];
        let u = c as u32;
        if u < 48 || u > 57 {
            proof {
                assert(field[i - from] == t@[i as int]);
                assert(!is_digit(field[i - from]));
            }
            return None;
        }
        let ghost pre = t@.subrange(from as int, i as int);
        proof {
            assert(t@.subrange(from as int, i + 1 as int).drop_last() =~= pre);
            assert(t@.subrange(from as int, i + 1 as int).last() == t@[i as int]);
            assert(forall|m: int| 0 <= m < pre.len() ==> #[trigger] t@.subrange(
                from as int,
                i + 1 as int,
            )[m] == pre[m]);
        }
        if !too_big {
            val = val * 10 + ((u - 48) as u64);
            if val > 0x7fff_ffff {
                too_big = true;
            }
        } else {
            proof {
                assert(dec_val(t@.subrange(from as int, i + 1 as int)) == 10 * dec_val(pre)
                    + digit_val(t@[i as int]));
            }
        }
        i += 1;
    }
    proof {
        assert(field =~= t@.subrange(from as int, to as int));
    }
    if too_big {
        None
    } else {
        Some(val as i32)
    }
}

/// The position of the first `d` at or after `start` and before `to`,
/// deciding [`first_d_idx`] of the body that ends at `to`.
fn find_d(t: &Vec<char>, start: usize, to: usize) -> (j: usize)
    requires
        start <= to <= t@.len(),
    ensures
        start <= j <= to,
        j < to ==> t@[j as int] == 'd',
        forall|m: int| start <= m < j ==> t@[m] != 'd',
{
    let mut k = start;
    while k < to && t[k] != 'd'
        invariant
            start <= k <= to <= t@.len(),
            forall|m: int| start <= m < k ==> t@[m] != 'd',
        decreases to - k,
    {
        k += 1;
    }
    k
}

/// A position before which no `d` stands, and which holds a `d` unless
/// it is the length, is the first `d` position.
proof fn lemma_first_d_determined(s: Seq<char>, i: int, j: int)
    requires
        0 <= i <= j <= s.len(),
        forall|m: int| i <= m < j ==> s[m] != 'd',
        j < s.len() ==> s[j] == 'd',
    ensures
        first_d_idx(s, i) == j,
    decreases j - i,
{
    if i < j {
        lemma_first_d_determined(s, i + 1, j);
    }
}

/// Parse the term `t[from..to]` (a sign character and its body),
/// appending its dice to `dice` and returning its modifier value. The
/// call succeeds, and changes `dice`, exactly when the term is well
/// formed; a malformed term leaves `dice` unchanged and reports why.
fn parse_term_into(t: &Vec<char>, from: usize, to: usize, dice: &mut Vec<SingleDieRoll>) -> (r:
    Result<i32, String>)
    requires
        from < to <= t@.len(),
    ensures
        match spec_parse_term(t@.subrange(from as int, to as int)) {
            Some(dm) => r is Ok && r->Ok_0 as int == dm.1 && final(dice)@ == old(dice)@ + dm.0,
            None => r is Err && final(dice)@ == old(dice)@,
        },
{
    let ghost term = t@.subrange(from as int, to as int);
    let ghost body = t@.subrange(from + 1 as int, to as int);
    proof {
        assert(term[0] == t@[from as int]);
        assert(term.subrange(1, term.len() as int) =~= body);
    }
    let sign = match Sign::from_char(t[from]) {
        Ok(s) => s,
        Err(_) => {
            return Err(String::from_str("a term must begin with '+' or '-'"));
        },
    };
    let k = find_d(t, from + 1, to);
    if k == to {
        // No `d`: a modifier term.
        proof {
            lemma_first_d_determined(body, 0, body.len() as int);
        }
        match scan_number(t, from + 1, to) {
            Some(v) => {
                if t[from] == '+' {
                    proof {
                        assert(sign_mult(sign) * dec_val(body) == dec_val(body));
                    }
                    Ok(v)
                } else {
                    proof {
                        assert(sign_mult(sign) * dec_val(body) == -dec_val(body));
                    }
                    Ok(-v)
                }
            },
            None => Err(
                String::from_str("a modifier term must be a non-negative 32-bit integer"),
            ),
        }
    } else {
        // A dice term `kdN`.
        let ghost k_body = k - (from + 1);
        proof {
            assert(body[k_body] == t@[k as int]);
            assert(forall|m: int| 0 <= m < k_body ==> body[m] == t@[from + 1 + m]);
            lemma_first_d_determined(body, 0, k_body);
            assert(body.subrange(0, k_body) =~= t@.subrange(from + 1 as int, k as int));
            assert(body.subrange(k_body + 1, body.len() as int) =~= t@.subrange(
                k + 1 as int,
                to as int,
            ));
        }
        let ghost faces_part = body.subrange(k_body + 1, body.len() as int);
        let d2 = find_d(t, k + 1, to);
        if d2 < to {
            proof {
                assert(faces_part[d2 - (k + 1)] == t@[d2 as int]);
                assert(forall|m: int| 0 <= m < d2 - (k + 1) ==> faces_part[m] == t@[k + 1 + m]);
                lemma_first_d_determined(faces_part, 0, d2 - (k + 1));
            }
            return Err(String::from_str("a dice term must hold exactly one 'd'"));
        }
        proof {
            assert(forall|m: int| 0 <= m < faces_part.len() ==> faces_part[m] == t@[k + 1 + m]);
            lemma_first_d_determined(faces_part, 0, faces_part.len() as int);
        }
        let count = match scan_number(t, from + 1, k) {
            Some(v) => v,
            None => {
                return Err(
                    String::from_str("a dice count must be a non-negative 32-bit integer"),
                );
            },
        };
        let faces = match scan_number(t, k + 1, to) {
            Some(v) => v,
            None => {
                return Err(
                    String::from_str("a face count must be a non-negative 32-bit integer"),
                );
            },
        };
        if faces < 1 {
            return Err(String::from_str("a die must have at least one face"));
        }
        let die = SingleDieRoll { max: faces, roll: 0, sign };
        let ghost goal = dice_seq(count as int, faces as int, sign);
        let mut pushed: i32 = 0;
        proof {
            assert(dice@ =~= old(dice)@ + dice_seq(0, faces as int, sign));
        }
        while pushed < count
            invariant
                0 <= pushed <= count,
                die == (SingleDieRoll { max: faces, roll: 0, sign }),
                dice@ == old(dice)@ + dice_seq(pushed as int, faces as int, sign),
            decreases count - pushed,
        {
            dice.push(die);
            proof {
                assert(dice_seq(pushed + 1 as int, faces as int, sign) =~= dice_seq(
                    pushed as int,
                    faces as int,
                    sign,
                ).push(die));
                assert(old(dice)@ + dice_seq(pushed + 1 as int, faces as int, sign) =~= (old(
                    dice,
                )@ + dice_seq(pushed as int, faces as int, sign)).push(die));
            }
            pushed += 1;
        }
        Ok(0)
    }
}

/// The dice of a well-formed term are well formed and unsampled.
proof fn lemma_parse_term_wf(term: Seq<char>)
    requires
        spec_parse_term(term) is Some,
    ensures
        crate::dice::dice_wf(spec_parse_term(term)->Some_0.0),
        crate::dice::dice_unrolled(spec_parse_term(term)->Some_0.0),
{
}

/// The dice of a well-formed expression are well formed and unsampled.
proof fn lemma_parse_from_wf(t: Seq<char>, i: int)
    requires
        0 <= i,
        spec_parse_from(t, i) is Some,
    ensures
        crate::dice::dice_wf(spec_parse_from(t, i)->Some_0.0),
        crate::dice::dice_unrolled(spec_parse_from(t, i)->Some_0.0),
    decreases t.len() - i,
{
    if i < t.len() {
        let j = term_end(t, i);
        lemma_next_sign_idx(t, i + 1);
        lemma_parse_term_wf(t.subrange(i, j));
        lemma_parse_from_wf(t, j);
        let head = spec_parse_term(t.subrange(i, j))->Some_0;
        let rest = spec_parse_from(t, j)->Some_0;
        assert(forall|m: int|
            0 <= m < head.0.len() ==> #[trigger] (head.0 + rest.0)[m] == head.0[m]);
        assert(forall|m: int|
            head.0.len() <= m < head.0.len() + rest.0.len() ==> #[trigger] (head.0 + rest.0)[m]
                == rest.0[m - head.0.len()]);
    }
}

/// Parse a roll expression into an equivalent [`CompositeRoll`]. The
/// expression is any sequence of signed dice terms (`+1d20`, `-2d4`)
/// and signed integer modifiers (`+2`, `-1`); whitespace is ignored and
/// a missing leading sign is read as `+`. The call returns `Ok` exactly
/// on the expressions [`spec_parse_roll`] accepts, with the dice in the
/// left-to-right order of the terms, all unsampled, and the modifier
/// equal to the algebraic sum of the modifier terms; any other
/// expression earns a message saying what is malformed.
pub fn parse_roll_string(roll_string: String) -> (r: Result<CompositeRoll, String>)
    ensures
        match spec_parse_roll(roll_string@) {
            Some(dm) => {
                &&& r is Ok
                &&& r->Ok_0.dice@ == dm.0
                &&& r->Ok_0.modifier as int == dm.1
            },
            None => r is Err,
        },
        r is Ok ==> crate::dice::composite_wf(r->Ok_0) && crate::dice::dice_unrolled(
            r->Ok_0.dice@,
        ),
{
    let t = strip_and_normalize(roll_string.as_str());
    let n = t.len();
    let ghost tv = t@;
    let mut dice: Vec<SingleDieRoll> = Vec::new();
    let mut modifier: i128 = 0;
    let mut i: usize = 0;
    proof {
        if spec_parse_from(tv, 0) is Some {
            assert(dice@ + spec_parse_from(tv, 0)->Some_0.0 =~= spec_parse_from(tv, 0)->Some_0.0);
        }
    }
    while i < n
        invariant
            i <= n,
            n == tv.len(),
            tv == t@,
            tv == normalize(strip_ws(roll_string@)),
            -(i as int) * 0x8000_0000 <= modifier <= (i as int) * 0x8000_0000,
            match spec_parse_from(tv, i as int) {
                Some(dm) => spec_parse_from(tv, 0) == Some::<(Seq<SingleDieRoll>, int)>(
                    (dice@ + dm.0, modifier as int + dm.1),
                ),
                None => spec_parse_from(tv, 0) is None,
            },
        decreases n - i,
    {
        let j = find_next_sign(&t, i + 1);
        let ghost dice_pre = dice@;
        match parse_term_into(&t, i, j, &mut dice) {
            Ok(m) => {
                proof {
                    let head = spec_parse_term(tv.subrange(i as int, j as int))->Some_0;
                    if spec_parse_from(tv, j as int) is Some {
                        let rest = spec_parse_from(tv, j as int)->Some_0;
                        assert(dice_pre + (head.0 + rest.0) =~= (dice_pre + head.0) + rest.0);
                    }
                }
                modifier = modifier + (m as i128);
                i = j;
            },
            Err(e) => {
                return Err(e);
            },
        }
    }
    if modifier < (i32::MIN as i128) || modifier > (i32::MAX as i128) {
        return Err(String::from_str("the modifier does not fit a 32-bit integer"));
    }
    proof {
        assert(dice@ + Seq::<SingleDieRoll>::empty() =~= dice@);
        lemma_parse_from_wf(tv, 0);
    }
    Ok(CompositeRoll { dice, modifier: modifier as i32 })
}

/// The signed terms of the normalized expression from position `i` on,
/// in left-to-right order.
pub open spec fn terms_of(t: Seq<char>, i: int) -> Seq<Seq<char>>
    decreases t.len() - i,
    via terms_of_decreases
{
    if i < 0 || i >= t.len() {
        Seq::<Seq<char>>::empty()
    } else {
        seq![t.subrange(i, term_end(t, i))] + terms_of(t, term_end(t, i))
    }
}

#[via_fn]
proof fn terms_of_decreases(t: Seq<char>, i: int) {
    if 0 <= i < t.len() {
        lemma_next_sign_idx(t, i + 1);
    }
}

/// The dice a term contributes (none when it is malformed).
pub open spec fn term_dice(term: Seq<char>) -> Seq<SingleDieRoll> {
    match spec_parse_term(term) {
        Some(dm) => dm.0,
        None => Seq::<SingleDieRoll>::empty(),
    }
}

/// The signed value a term adds to the modifier (zero when it is a dice
/// term or malformed).
pub open spec fn term_value(term: Seq<char>) -> int {
    match spec_parse_term(term) {
        Some(dm) => dm.1,
        None => 0,
    }
}

/// The concatenation, in order, of the dice of a sequence of terms.
pub open spec fn dice_of_terms(ts: Seq<Seq<char>>) -> Seq<SingleDieRoll>
    decreases ts.len(),
{
    if ts.len() == 0 {
        Seq::<SingleDieRoll>::empty()
    } else {
        term_dice(ts[0]) + dice_of_terms(ts.drop_first())
    }
}

/// The algebraic sum of the signed values of a sequence of terms.
pub open spec fn sum_of_terms(ts: Seq<Seq<char>>) -> int
    decreases ts.len(),
{
    if ts.len() == 0 {
        0
    } else {
        term_value(ts[0]) + sum_of_terms(ts.drop_first())
    }
}

/// Law: a well-formed expression parses to the concatenation, in
/// left-to-right term order, of each term's dice, and to the algebraic
/// sum of the terms' signed modifier values.
pub proof fn lemma_parse_decomposition(t: Seq<char>, i: int)
    requires
        0 <= i,
        spec_parse_from(t, i) is Some,
    ensures
        spec_parse_from(t, i)->Some_0.0 == dice_of_terms(terms_of(t, i)),
        spec_parse_from(t, i)->Some_0.1 == sum_of_terms(terms_of(t, i)),
    decreases t.len() - i,
{
    if i >= t.len() {
        assert(terms_of(t, i) =~= Seq::<Seq<char>>::empty());
    } else {
        let j = term_end(t, i);
        lemma_next_sign_idx(t, i + 1);
        lemma_parse_decomposition(t, j);
        let ts = terms_of(t, i);
        assert(ts.drop_first() =~= terms_of(t, j));
        assert(ts[0] == t.subrange(i, j));
    }
}

/// Law: the dice of a parsed expression stand in the left-to-right
/// order of the dice terms of the normalized expression: the parse
/// result is the concatenation of the dice of each term, in term order.
pub proof fn lemma_parse_preserves_dice_order(e: Seq<char>)
    requires
        spec_parse_roll(e) is Some,
    ensures
        spec_parse_roll(e)->Some_0.0 == dice_of_terms(terms_of(normalize(strip_ws(e)), 0)),
{
    lemma_parse_decomposition(normalize(strip_ws(e)), 0);
}

/// Law: the modifier of a parsed expression is the algebraic sum of the
/// signed values of the expression's modifier terms (its dice terms
/// contribute zero to that sum).
pub proof fn lemma_parse_modifier_sum(e: Seq<char>)
    requires
        spec_parse_roll(e) is Some,
    ensures
        spec_parse_roll(e)->Some_0.1 == sum_of_terms(terms_of(normalize(strip_ws(e)), 0)),
        forall|k: int|
            0 <= k < terms_of(normalize(strip_ws(e)), 0).len() ==> ((#[trigger] spec_parse_term(
                terms_of(normalize(strip_ws(e)), 0)[k],
            )) matches Some(dm) ==> (dm.0.len() > 0 ==> dm.1 == 0)),
{
    lemma_parse_decomposition(normalize(strip_ws(e)), 0);
}

/// Stripping whitespace is idempotent.
proof fn lemma_strip_ws_idempotent(s: Seq<char>)
    ensures
        strip_ws(strip_ws(s)) == strip_ws(s),
    decreases s.len(),
{
    if s.len() > 0 {
        lemma_strip_ws_idempotent(s.drop_first());
        if !is_ws(s[0]) {
            let rest = strip_ws(s.drop_first());
            assert((seq![s[0]] + rest).len() > 0);
            assert((seq![s[0]] + rest)[0] == s[0]);
            assert((seq![s[0]] + rest).drop_first() =~= rest);
        }
    }
}

/// Law: parsing is insensitive to whitespace: an expression and its
/// whitespace-stripped form have the same parse result, both in dice
/// and in modifier.
pub proof fn lemma_parse_ws_insensitive(e: Seq<char>)
    ensures
        spec_parse_roll(strip_ws(e)) == spec_parse_roll(e),
{
    lemma_strip_ws_idempotent(e);
}

/// Law: supplying the `+` by hand is a no-op: prepending `+` to an
/// expression that does not begin with a sign leaves the parse result
/// unchanged.
pub proof fn lemma_leading_plus_noop(e: Seq<char>)
    requires
        strip_ws(e).len() > 0,
        !is_sign_char(strip_ws(e)[0]),
    ensures
        spec_parse_roll(seq!['+'] + e) == spec_parse_roll(e),
{
    let p = seq!['+'] + e;
    assert(p[0] == '+' && !is_ws(p[0]));
    assert(p.drop_first() =~= e);
    assert(strip_ws(p) == seq!['+'] + strip_ws(e));
    assert(normalize(strip_ws(p)) == normalize(strip_ws(e)));
}

} // verus!
