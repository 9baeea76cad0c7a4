//! Netlist parsing: line-oriented component records with SI-suffixed
//! decimal values.
//!
//! A component line reads `ID N1 N2 VALUE [AC MAG PHASE]`; the first
//! character of `ID` selects the kind (`R`, `L`, `C`, `V`, `I`). Values are
//! decimals with an optional case-insensitive SI suffix (`t g meg k m u n
//! p`), parsed exactly into rationals. Lines that are blank or start with
//! `*` are ignored. A node named `gnd` (any case) or `0` grounds the graph.

use vstd::prelude::*;

verus! {

use vstd::string::StrSliceExecFns;

use crate::component::ComponentKind;
use crate::errors::ParseError;
use crate::graph::CircuitGraph;
use crate::graph::NodeIndex;
use crate::rational::Rat;
use crate::rational::Rational;
use crate::rational::rat_reduced;
use crate::rational::reduced_fits;
use crate::units::Capacitance;
use crate::units::Current;
use crate::units::Inductance;
use crate::units::Resistance;
use crate::units::Value;
use crate::units::Voltage;

/// ASCII whitespace (the characters `str::trim` strips from netlists).
pub open spec fn is_space(c: char) -> bool {
    c as u32 == 32 || c as u32 == 9 || c as u32 == 13 || c as u32 == 10
}

/// An ASCII decimal digit.
pub open spec fn is_digit(c: char) -> bool {
    48 <= c as u32 <= 57
}

/// The numeric value of a digit.
pub open spec fn digit_val(c: char) -> int {
    c as u32 - 48
}

/// Case-insensitive comparison with a lower-case ASCII letter code.
pub open spec fn eq_ci(c: char, lower: u32) -> bool {
    c as u32 == lower || c as u32 == lower - 32
}

/// A character that can appear in the numeric part of a value.
pub open spec fn is_num_char(c: char) -> bool {
    is_digit(c) || c as u32 == 46 || c as u32 == 45
}

/// The sequence with trailing whitespace removed.
pub open spec fn trim_end(s: Seq<char>) -> Seq<char>
    decreases s.len(),
{
    if s.len() == 0 {
        s
    } else if is_space(s.last()) {
        trim_end(s.drop_last())
    } else {
        s
    }
}

/// The first index at or after `i` holding a non-space character.
pub open spec fn first_nonspace(s: Seq<char>, i: int) -> int
    decreases s.len() - i,
{
    if i < 0 || i >= s.len() {
        s.len() as int
    } else if !is_space(s[i]) {
        i
    } else {
        first_nonspace(s, i + 1)
    }
}

/// The sequence with leading and trailing whitespace removed.
pub open spec fn trimmed(s: Seq<char>) -> Seq<char> {
    let t = trim_end(s);
    t.subrange(first_nonspace(t, 0), t.len() as int)
}

/// The first index at or after `i` holding a character that cannot appear
/// in the numeric part.
pub open spec fn numeric_end(s: Seq<char>, i: int) -> int
    decreases s.len() - i,
{
    if i < 0 || i >= s.len() {
        s.len() as int
    } else if !is_num_char(s[i]) {
        i
    } else {
        numeric_end(s, i + 1)
    }
}

/// The state of the exact decimal scanner: validity, whether a digit and a
/// decimal point were seen, the accumulated numerator, and the power-of-ten
/// denominator. Digits beyond the capacity bound make the state invalid.
pub struct NumAcc {
    pub ok: bool,
    pub seen_digit: bool,
    pub seen_dot: bool,
    pub num: int,
    pub den: int,
}

/// The scanner's capacity bound.
pub open spec fn num_cap() -> int {
    1_000_000_000_000_000_000
}

/// One scanner step.
pub open spec fn num_step(st: NumAcc, c: char) -> NumAcc {
    if !st.ok {
        st
    } else if c as u32 == 46 {
        if st.seen_dot {
            NumAcc { ok: false, ..st }
        } else {
            NumAcc { seen_dot: true, ..st }
        }
    } else if is_digit(c) {
        if st.num * 10 + digit_val(c) > num_cap() || (st.seen_dot && st.den * 10 > num_cap()) {
            NumAcc { ok: false, ..st }
        } else {
            NumAcc {
                seen_digit: true,
                num: st.num * 10 + digit_val(c),
                den: if st.seen_dot {
                    st.den * 10
                } else {
                    st.den
                },
                ..st
            }
        }
    } else {
        NumAcc { ok: false, ..st }
    }
}

/// The scanner over a whole sequence.
pub open spec fn num_fold(s: Seq<char>) -> NumAcc
    decreases s.len(),
{
    if s.len() == 0 {
        NumAcc { ok: true, seen_digit: false, seen_dot: false, num: 0, den: 1 }
    } else {
        num_step(num_fold(s.drop_last()), s.last())
    }
}

/// The multiplier of an SI suffix, as a fraction, or `None` for an unknown
/// suffix. The empty suffix is unity; `meg` is the only three-letter
/// suffix and takes precedence over `m`.
pub open spec fn suffix_mult(s: Seq<char>) -> Option<(int, int)> {
    if s.len() == 0 {
        Some((1, 1))
    } else if s.len() == 1 {
        let c = s[0];
        if eq_ci(c, 116) {
            Some((1_000_000_000_000, 1))
        } else if eq_ci(c, 103) {
            Some((1_000_000_000, 1))
        } else if eq_ci(c, 107) {
            Some((1_000, 1))
        } else if eq_ci(c, 109) {
            Some((1, 1_000))
        } else if eq_ci(c, 117) {
            Some((1, 1_000_000))
        } else if eq_ci(c, 110) {
            Some((1, 1_000_000_000))
        } else if eq_ci(c, 112) {
            Some((1, 1_000_000_000_000))
        } else {
            None
        }
    } else if s.len() == 3 && eq_ci(s[0], 109) && eq_ci(s[1], 101) && eq_ci(s[2], 103) {
        Some((1_000_000, 1))
    } else {
        None
    }
}

/// The exact rational value of a trimmed, SI-suffixed decimal literal, or
/// `None` when the text is not a valid value (or holds more digits than the
/// scanner's capacity).
pub open spec fn spec_parse_value(s: Seq<char>) -> Option<Rat> {
    let t = trimmed(s);
    let ne = numeric_end(t, 0);
    let numpart = t.subrange(0, ne);
    let suffix = trimmed(t.subrange(ne, t.len() as int));
    let neg = numpart.len() > 0 && numpart[0] as u32 == 45;
    let mantissa = if neg {
        numpart.subrange(1, numpart.len() as int)
    } else {
        numpart
    };
    let st = num_fold(mantissa);
    if !st.ok || !st.seen_digit {
        None
    } else {
        match suffix_mult(suffix) {
            None => None,
            Some((mn, md)) => Some(
                Rat {
                    n: if neg {
                        -(st.num * mn)
                    } else {
                        st.num * mn
                    },
                    d: st.den * md,
                },
            ),
        }
    }
}

/// The first index at or after `i` holding a space character.
pub open spec fn token_end(s: Seq<char>, i: int) -> int
    decreases s.len() - i,
{
    if i < 0 || i >= s.len() {
        s.len() as int
    } else if is_space(s[i]) {
        i
    } else {
        token_end(s, i + 1)
    }
}

/// `token_end` never moves backwards and stays in range.
proof fn lemma_token_end_bounds(s: Seq<char>, i: int)
    requires
        0 <= i <= s.len(),
    ensures
        i <= token_end(s, i) <= s.len(),
    decreases s.len() - i,
{
    if i < s.len() && !is_space(s[i]) {
        lemma_token_end_bounds(s, i + 1);
    }
}

/// The whitespace-separated tokens of `s`, from position `i` on.
pub open spec fn tokens_of_at(s: Seq<char>, i: int) -> Seq<Seq<char>>
    decreases s.len() - i,
    when 0 <= i
    via tokens_of_at_decreases
{
    if i >= s.len() {
        Seq::empty()
    } else if is_space(s[i]) {
        tokens_of_at(s, i + 1)
    } else {
        let e = token_end(s, i);
        seq![s.subrange(i, e)] + tokens_of_at(s, e)
    }
}

#[via_fn]
proof fn tokens_of_at_decreases(s: Seq<char>, i: int) {
    if 0 <= i < s.len() && !is_space(s[i]) {
        lemma_token_end_bounds(s, i + 1);
    }
}

/// The whitespace-separated tokens of a whole line.
pub open spec fn tokens_of(s: Seq<char>) -> Seq<Seq<char>> {
    tokens_of_at(s, 0)
}

/// A node name that designates the ground: `gnd` in any case, or `0`.
pub open spec fn spec_is_ground_name(t: Seq<char>) -> bool {
    (t.len() == 1 && t[0] as u32 == 48) || (t.len() == 3 && eq_ci(t[0], 103) && eq_ci(t[1], 110)
        && eq_ci(t[2], 100))
}

/// If the tail of `s` from `b` on is all spaces and `s[b-1]` is not a
/// space (or `b` is zero), then trimming the end keeps exactly the first
/// `b` characters.
proof fn lemma_trim_end_at(s: Seq<char>, b: int)
    requires
        0 <= b <= s.len(),
        forall|j: int| b <= j < s.len() ==> is_space(#[trigger] s[j]),
        b > 0 ==> !is_space(s[b - 1]),
    ensures
        trim_end(s) == s.subrange(0, b),
    decreases s.len(),
{
    if s.len() == 0 {
        assert(trim_end(s) =~= s.subrange(0, b));
    } else if b == s.len() {
        assert(!is_space(s.last()));
        assert(trim_end(s) =~= s.subrange(0, b));
    } else {
        assert(is_space(s.last()));
        assert(forall|j: int|
            b <= j < s.drop_last().len() ==> is_space(#[trigger] s.drop_last()[j]));
        lemma_trim_end_at(s.drop_last(), b);
        assert(s.drop_last().subrange(0, b) =~= s.subrange(0, b));
    }
}

/// The bounds maintained by the scanner.
proof fn lemma_num_fold_bounds(s: Seq<char>)
    ensures
        0 <= num_fold(s).num <= num_cap(),
        1 <= num_fold(s).den <= num_cap(),
    decreases s.len(),
{
    if s.len() != 0 {
        lemma_num_fold_bounds(s.drop_last());
    }
}

/// A parsed value is a well-formed rational: its denominator is positive.
proof fn lemma_parse_value_wf(s: Seq<char>)
    ensures
        match spec_parse_value(s) {
            Some(q) => crate::rational::rat_wf(q),
            None => true,
        },
{
    let t = trimmed(s);
    let ne = numeric_end(t, 0);
    let numpart = t.subrange(0, ne);
    let suffix = trimmed(t.subrange(ne, t.len() as int));
    let neg = numpart.len() > 0 && numpart[0] as u32 == 45;
    let mantissa = if neg {
        numpart.subrange(1, numpart.len() as int)
    } else {
        numpart
    };
    lemma_num_fold_bounds(mantissa);
    let st = num_fold(mantissa);
    match suffix_mult(suffix) {
        Some((mn, md)) => {
            assert(st.den * md > 0) by (nonlinear_arith)
                requires
                    st.den >= 1,
                    md >= 1,
            ;
        },
        None => {},
    }
}

/// Whether a character is ASCII whitespace.
fn is_space_c(c: char) -> (r: bool)
    ensures
        r == is_space(c),
{
    let u = c as u32;
    u == 32 || u == 9 || u == 13 || u == 10
}

/// Parses a decimal value with an optional SI suffix into an exact
/// rational, in lowest terms. Fails, with the given line number, exactly
/// when the text is not a valid value, its suffix is unknown, its digits
/// exceed the scanner's capacity, or its lowest-terms value does not fit
/// the machine representation.
pub fn parse_value(input: &str, line_num: usize) -> (r: Result<Rational, ParseError>)
    ensures
        (r is Ok) == (spec_parse_value(input@) matches Some(q) && reduced_fits(q)),
        r matches Ok(v) ==> (spec_parse_value(input@) matches Some(q) && v.wf() && v@
            == rat_reduced(q)),
        r matches Err(e) ==> e.line == line_num,
{
    let s_len = input.unicode_len();
    // trim the end
    let mut b: usize = s_len;
    loop
        invariant_except_break
            b <= s_len,
            s_len == input@.len(),
            forall|j: int| b <= j < s_len ==> is_space(#[trigger] input@[j]),
        ensures
            b <= s_len,
            s_len == input@.len(),
            forall|j: int| b <= j < s_len ==> is_space(#[trigger] input@[j]),
            b > 0 ==> !is_space(input@[b - 1]),
        decreases b,
    {
        if b == 0 {
            break ;
        }
        let c = input.get_char(b - 1);
        if !is_space_c(c) {
            break ;
        }
        b = b - 1;
    }
    proof {
        lemma_trim_end_at(input@, b as int);
    }
    let ghost te = trim_end(input@);
    // trim the front
    let mut a: usize = 0;
    while a < b && is_space_c(input.get_char(a))
        invariant
            a <= b <= s_len,
            s_len == input@.len(),
            te == trim_end(input@),
            te == input@.subrange(0, b as int),
            first_nonspace(te, 0) == first_nonspace(te, a as int),
        decreases b - a,
    {
        a = a + 1;
    }
    let ghost t = trimmed(input@);
    proof {
        assert(first_nonspace(te, 0) == a as int);
        assert(t =~= input@.subrange(a as int, b as int));
    }
    // find the end of the numeric part
    let mut ne: usize = a;
    loop
        invariant_except_break
            a <= ne <= b,
            b <= s_len,
            s_len == input@.len(),
            t == trimmed(input@),
            t == input@.subrange(a as int, b as int),
            numeric_end(t, 0) == numeric_end(t, ne - a),
        ensures
            a <= ne <= b,
            s_len == input@.len(),
            t == input@.subrange(a as int, b as int),
            numeric_end(t, 0) == ne - a,
        decreases b - ne,
    {
        if ne == b {
            break ;
        }
        let c = input.get_char(ne);
        let u = c as u32;
        if !(48 <= u && u <= 57) && u != 46 && u != 45 {
            assert(!is_num_char(t[ne - a]));
            break ;
        }
        assert(is_num_char(t[ne - a]));
        ne = ne + 1;
    }
    let ghost numpart = t.subrange(0, ne - a);
    // sign
    let mut i: usize = a;
    let mut neg: bool = false;
    if i < ne && input.get_char(i) as u32 == 45 {
        neg = true;
        i = i + 1;
    }
    let ghost mantissa = if neg {
        numpart.subrange(1, numpart.len() as int)
    } else {
        numpart
    };
    proof {
        assert(mantissa =~= t.subrange(i - a, ne - a));
        assert(mantissa.subrange(0, 0) =~= Seq::<char>::empty());
    }
    // scan the mantissa exactly
    let ghost m0 = i;
    let mut ok: bool = true;
    let mut seen_digit: bool = false;
    let mut seen_dot: bool = false;
    let mut num: i128 = 0;
    let mut den: i128 = 1;
    while i < ne
        invariant
            m0 <= i <= ne,
            a <= m0,
            ne <= b <= s_len,
            s_len == input@.len(),
            t == input@.subrange(a as int, b as int),
            mantissa == t.subrange(m0 - a, ne - a),
            0 <= num <= 1_000_000_000_000_000_000,
            1 <= den <= 1_000_000_000_000_000_000,
            num_fold(mantissa.subrange(0, i - m0)) == (NumAcc {
                ok,
                seen_digit,
                seen_dot,
                num: num as int,
                den: den as int,
            }),
        decreases ne - i,
    {
        proof {
            assert(mantissa.subrange(0, i - m0 + 1).drop_last() =~= mantissa.subrange(
                0,
                i - m0,
            ));
            assert(mantissa.subrange(0, i - m0 + 1).last() == t[i - a]);
            assert(t[i - a] == input@[i as int]);
        }
        let c = input.get_char(i);
        let u = c as u32;
        if ok {
            if u == 46 {
                if seen_dot {
                    ok = false;
                } else {
                    seen_dot = true;
                }
            } else if 48 <= u && u <= 57 {
                let d = (u - 48) as i128;
                let next_num = num * 10 + d;
                let next_den = den * 10;
                if next_num > 1_000_000_000_000_000_000 || (seen_dot && next_den
                    > 1_000_000_000_000_000_000) {
                    ok = false;
                } else {
                    seen_digit = true;
                    num = next_num;
                    if seen_dot {
                        den = next_den;
                    }
                }
            } else {
                ok = false;
            }
        }
        i = i + 1;
    }
    proof {
        assert(mantissa.subrange(0, ne - m0) =~= mantissa);
    }
    if !ok || !seen_digit {
        return Err(
            ParseError { line: line_num, message: "invalid numeric value".to_owned() },
        );
    }
    // the suffix: skip spaces, then match it
    let mut a2: usize = ne;
    let ghost sufregion = t.subrange(ne - a, t.len() as int);
    proof {
        assert(trim_end(sufregion) =~= sufregion) by {
            if sufregion.len() > 0 {
                assert(sufregion.last() == t[t.len() - 1]);
            }
        };
        assert(first_nonspace(sufregion, 0) == first_nonspace(sufregion, a2 - ne));
    }
    while a2 < b && is_space_c(input.get_char(a2))
        invariant
            ne <= a2 <= b,
            b <= s_len,
            s_len == input@.len(),
            t == input@.subrange(a as int, b as int),
            a <= ne <= b,
            sufregion == t.subrange(ne - a, t.len() as int),
            first_nonspace(sufregion, 0) == first_nonspace(sufregion, a2 - ne),
        decreases b - a2,
    {
        proof {
            assert(sufregion[a2 - ne] == t[a2 - a]);
            assert(t[a2 - a] == input@[a2 as int]);
        }
        a2 = a2 + 1;
    }
    let ghost suffix = trimmed(sufregion);
    proof {
        assert(trim_end(sufregion) =~= sufregion) by {
            if sufregion.len() > 0 {
                assert(sufregion.last() == t[t.len() - 1]);
            }
        };
        assert(first_nonspace(sufregion, 0) == a2 - ne);
        assert(suffix =~= t.subrange(a2 - a, t.len() as int));
        assert(suffix.len() == b - a2);
    }
    let sl = b - a2;
    let mult: (i128, i128) = if sl == 0 {
        (1, 1)
    } else if sl == 1 {
        let u = input.get_char(a2) as u32;
        proof {
            assert(suffix[0] == input@[a2 as int]);
        }
        if u == 116 || u == 84 {
            (1_000_000_000_000, 1)
        } else if u == 103 || u == 71 {
            (1_000_000_000, 1)
        } else if u == 107 || u == 75 {
            (1_000, 1)
        } else if u == 109 || u == 77 {
            (1, 1_000)
        } else if u == 117 || u == 85 {
            (1, 1_000_000)
        } else if u == 110 || u == 78 {
            (1, 1_000_000_000)
        } else if u == 112 || u == 80 {
            (1, 1_000_000_000_000)
        } else {
            return Err(ParseError { line: line_num, message: "invalid suffix".to_owned() });
        }
    } else if sl == 3 {
        let u0 = input.get_char(a2) as u32;
        let u1 = input.get_char(a2 + 1) as u32;
        let u2 = input.get_char(a2 + 2) as u32;
        proof {
            assert(suffix[0] == input@[a2 as int]);
            assert(suffix[1] == input@[a2 as int + 1]);
            assert(suffix[2] == input@[a2 as int + 2]);
        }
        if (u0 == 109 || u0 == 77) && (u1 == 101 || u1 == 69) && (u2 == 103 || u2 == 71) {
            (1_000_000, 1)
        } else {
            return Err(ParseError { line: line_num, message: "invalid suffix".to_owned() });
        }
    } else {
        return Err(ParseError { line: line_num, message: "invalid suffix".to_owned() });
    };
    assert(1 <= mult.0 <= 1_000_000_000_000 && 1 <= mult.1 <= 1_000_000_000_000);
    proof {
        assert(0 <= num * mult.0 <= 1_000_000_000_000_000_000_000_000_000_000) by (nonlinear_arith)
            requires
                0 <= num <= 1_000_000_000_000_000_000,
                1 <= mult.0 <= 1_000_000_000_000,
        ;
        assert(1 <= den * mult.1 <= 1_000_000_000_000_000_000_000_000_000_000) by (nonlinear_arith)
            requires
                1 <= den <= 1_000_000_000_000_000_000,
                1 <= mult.1 <= 1_000_000_000_000,
        ;
    }
    let num_total: i128 = num * mult.0;
    let den_total: i128 = den * mult.1;
    let n_raw: i128 = if neg {
        -num_total
    } else {
        num_total
    };
    proof {
        assert(suffix_mult(suffix) == Some((mult.0 as int, mult.1 as int)));
    }
    match crate::rational::rat_make(n_raw, den_total) {
        Some(v) => Ok(v),
        None => Err(
            ParseError { line: line_num, message: "value out of range".to_owned() },
        ),
    }
}

/// A line that the netlist parser ignores: blank, or a comment starting
/// with `*`.
pub open spec fn line_ignored(l: Seq<char>) -> bool {
    trimmed(l).len() == 0 || trimmed(l)[0] as u32 == 42
}

/// A record line that is owed success: at least four tokens, two distinct
/// node names, a parseable in-range value, and either a passive kind letter
/// (`R`, `L`, `C`) with a positive value or a source letter (`V`, `I`)
/// without the optional phasor tokens.
pub open spec fn line_parses(l: Seq<char>) -> bool {
    let toks = tokens_of(l);
    &&& toks.len() >= 4
    &&& toks[1] != toks[2]
    &&& (spec_parse_value(toks[3]) matches Some(q) && reduced_fits(q) && (((toks[0][0] as u32 == 82
        || toks[0][0] as u32 == 76 || toks[0][0] as u32 == 67) && crate::rational::rat_is_pos(q))
        || ((toks[0][0] as u32 == 86 || toks[0][0] as u32 == 73) && toks.len() == 4)))
}

/// A record line that designates a ground node.
pub open spec fn line_grounds(l: Seq<char>) -> bool {
    !line_ignored(l) && tokens_of(l).len() >= 4 && (spec_is_ground_name(tokens_of(l)[1])
        || spec_is_ground_name(tokens_of(l)[2]))
}

/// The first index at or after `i` holding a newline.
pub open spec fn line_end(s: Seq<char>, i: int) -> int
    decreases s.len() - i,
{
    if i < 0 || i >= s.len() {
        s.len() as int
    } else if s[i] as u32 == 10 {
        i
    } else {
        line_end(s, i + 1)
    }
}

/// `line_end` never moves backwards and stays in range.
proof fn lemma_line_end_bounds(s: Seq<char>, i: int)
    requires
        0 <= i <= s.len(),
    ensures
        i <= line_end(s, i) <= s.len(),
    decreases s.len() - i,
{
    if i < s.len() && s[i] as u32 != 10 {
        lemma_line_end_bounds(s, i + 1);
    }
}

/// The newline-separated lines of `s`, from position `i` on. An input that
/// ends with a newline has no trailing empty line.
pub open spec fn lines_from(s: Seq<char>, i: int) -> Seq<Seq<char>>
    decreases s.len() + 1 - i,
    when 0 <= i
    via lines_from_decreases
{
    if i >= s.len() {
        Seq::empty()
    } else {
        let e = line_end(s, i);
        seq![s.subrange(i, e)] + lines_from(s, e + 1)
    }
}

#[via_fn]
proof fn lines_from_decreases(s: Seq<char>, i: int) {
    if 0 <= i < s.len() {
        lemma_line_end_bounds(s, i);
    }
}

/// The lines of a whole input.
pub open spec fn lines_of(s: Seq<char>) -> Seq<Seq<char>> {
    lines_from(s, 0)
}

/// The number of record (non-ignored) lines.
pub open spec fn record_count(ls: Seq<Seq<char>>) -> int
    decreases ls.len(),
{
    if ls.len() == 0 {
        0
    } else {
        record_count(ls.drop_last()) + if line_ignored(ls.last()) {
            0int
        } else {
            1int
        }
    }
}

/// The record count is non-negative, and positive when some line is a
/// record.
proof fn lemma_record_count_pos(ls: Seq<Seq<char>>)
    ensures
        record_count(ls) >= 0,
        (exists|k: int| 0 <= k < ls.len() && !line_ignored(#[trigger] ls[k])) ==> record_count(ls)
            >= 1,
    decreases ls.len(),
{
    if ls.len() != 0 {
        lemma_record_count_pos(ls.drop_last());
        if exists|k: int| 0 <= k < ls.len() && !line_ignored(#[trigger] ls[k]) {
            let w = choose|k: int| 0 <= k < ls.len() && !line_ignored(#[trigger] ls[k]);
            if w < ls.len() - 1 {
                assert(ls.drop_last()[w] == ls[w]);
                assert(exists|k: int|
                    0 <= k < ls.drop_last().len() && !line_ignored(#[trigger] ls.drop_last()[k]));
            }
        }
    }
}

/// Finds the node with the given name, or appends one. Node identity is the
/// first node whose id matches; the graph is unchanged when one exists.
pub fn get_or_create_node(name: &str, graph: &mut CircuitGraph) -> (idx: NodeIndex)
    requires
        old(graph).wf(),
    ensures
        final(graph).wf(),
        idx < final(graph).nodes@.len(),
        final(graph).nodes@[idx as int].id@ == name@,
        final(graph).components == old(graph).components,
        final(graph).ground == old(graph).ground,
        final(graph).nodes@.len() >= old(graph).nodes@.len(),
        forall|i: int|
            0 <= i < old(graph).nodes@.len() ==> final(graph).nodes@[i] == old(graph).nodes@[i],
        (exists|i: int|
            0 <= i < old(graph).nodes@.len() && (#[trigger] old(graph).nodes@[i]).id@ == name@)
            ==> *final(graph) == *old(graph),
        !(exists|i: int|
            0 <= i < old(graph).nodes@.len() && (#[trigger] old(graph).nodes@[i]).id@ == name@)
            ==> final(graph).nodes@.len() == old(graph).nodes@.len() + 1 && idx == old(
            graph,
        ).nodes@.len(),
{
    let owned = name.to_owned();
    let n = graph.nodes.len();
    let mut i: usize = 0;
    while i < n
        invariant
            graph == old(graph),
            old(graph).wf(),
            n == graph.nodes@.len(),
            i <= n,
            owned@ == name@,
            forall|j: int| 0 <= j < i ==> (#[trigger] graph.nodes@[j]).id@ != name@,
        decreases n - i,
    {
        if graph.nodes[i].id == owned {
            return i;
        }
        i = i + 1;
    }
    graph.add_node(owned)
}

/// The views of a list of owned tokens.
pub open spec fn token_views(r: Seq<String>) -> Seq<Seq<char>> {
    r.map_values(|t: String| t@)
}

/// Splits a line into its whitespace-separated tokens, each non-empty.
fn split_tokens(line: &str) -> (r: Vec<String>)
    ensures
        token_views(r@) == tokens_of(line@),
        forall|k: int| 0 <= k < r@.len() ==> (#[trigger] r@[k])@.len() > 0,
{
    let n = line.unicode_len();
    let mut out: Vec<String> = Vec::new();
    let mut i: usize = 0;
    while i < n
        invariant
            i <= n,
            n == line@.len(),
            tokens_of(line@) == token_views(out@) + tokens_of_at(line@, i as int),
            forall|k: int| 0 <= k < out@.len() ==> (#[trigger] out@[k])@.len() > 0,
        decreases n - i,
    {
        let c = line.get_char(i);
        if is_space_c(c) {
            i = i + 1;
        } else {
            let start = i;
            let mut j = i + 1;
            proof {
                lemma_token_end_bounds(line@, start as int);
            }
            while j < n && !is_space_c(line.get_char(j))
                invariant
                    start < j <= n,
                    n == line@.len(),
                    token_end(line@, start as int) == token_end(line@, j as int),
                decreases n - j,
            {
                j = j + 1;
            }
            proof {
                assert(token_end(line@, start as int) == j as int);
            }
            let tok = line.substring_char(start, j).to_owned();
            out.push(tok);
            proof {
                assert(tokens_of_at(line@, start as int) =~= seq![line@.subrange(
                    start as int,
                    j as int,
                )] + tokens_of_at(line@, j as int));
                assert(token_views(out@) =~= token_views(out@.drop_last()).push(tok@));
                assert(token_views(out@.drop_last()).push(tok@) + tokens_of_at(line@, j as int)
                    =~= token_views(out@.drop_last()) + (seq![tok@] + tokens_of_at(
                    line@,
                    j as int,
                )));
            }
            i = j;
        }
    }
    proof {
        assert(tokens_of(line@) =~= token_views(out@));
    }
    out
}

/// Whether the token equals the name `gnd`, case-insensitively, or is `0`.
fn is_ground_name(tok: &String) -> (r: bool)
    ensures
        r == spec_is_ground_name(tok@),
{
    let n = tok.as_str().unicode_len();
    if n == 1 {
        tok.as_str().get_char(0) as u32 == 48
    } else if n == 3 {
        let u0 = tok.as_str().get_char(0) as u32;
        let u1 = tok.as_str().get_char(1) as u32;
        let u2 = tok.as_str().get_char(2) as u32;
        (u0 == 103 || u0 == 71) && (u1 == 110 || u1 == 78) && (u2 == 100 || u2 == 68)
    } else {
        false
    }
}

/// Parses one netlist line into the graph. Blank lines and lines starting
/// with `*` are ignored; otherwise the line must read `ID N1 N2 VALUE [AC
/// MAG PHASE]`, and exactly one component is appended, active and with no
/// cached impedance, between the (possibly new) nodes named `N1` and `N2`.
/// A node named `gnd` (any case) or `0` becomes the ground. Validation
/// errors surface with line number 0, parse errors with this line's number.
pub fn parse_component_line(line: &str, line_num: usize, graph: &mut CircuitGraph) -> (r: Result<
    (),
    ParseError,
>)
    requires
        old(graph).wf(),
    ensures
        final(graph).wf(),
        final(graph).nodes@.len() >= old(graph).nodes@.len(),
        forall|i: int|
            0 <= i < old(graph).nodes@.len() ==> final(graph).nodes@[i] == old(graph).nodes@[i],
        old(graph).components@.len() <= final(graph).components@.len() <= old(
            graph,
        ).components@.len() + 1,
        forall|i: int|
            0 <= i < old(graph).components@.len() ==> final(graph).components@[i] == old(
                graph,
            ).components@[i],
        (trimmed(line@).len() == 0 || trimmed(line@)[0] as u32 == 42) ==> (r is Ok && *final(graph)
            == *old(graph)),
        (r is Ok && !(trimmed(line@).len() == 0 || trimmed(line@)[0] as u32 == 42)) ==> {
            let toks = tokens_of(line@);
            let nc = final(graph).components@.last();
            &&& toks.len() >= 4
            &&& final(graph).components@.len() == old(graph).components@.len() + 1
            &&& nc.is_active
            &&& nc.cached_impedance is None
            &&& nc.id@ == toks[0]
            &&& nc.nodes.0 < final(graph).nodes@.len()
            &&& nc.nodes.1 < final(graph).nodes@.len()
            &&& nc.nodes.0 != nc.nodes.1
            &&& final(graph).nodes@[nc.nodes.0 as int].id@ == toks[1]
            &&& final(graph).nodes@[nc.nodes.1 as int].id@ == toks[2]
            &&& toks[0][0] as u32 == 82 ==> (nc.kind matches ComponentKind::Resistor { r: rv }
                && spec_parse_value(toks[3]) matches Some(q) && rv.0 matches Value::Known(v) && v@
                == rat_reduced(q))
            &&& toks[0][0] as u32 == 76 ==> (nc.kind matches ComponentKind::Inductor { l: lv }
                && spec_parse_value(toks[3]) matches Some(q) && lv.0 matches Value::Known(v) && v@
                == rat_reduced(q))
            &&& toks[0][0] as u32 == 67 ==> (nc.kind matches ComponentKind::Capacitor { c: cv }
                && spec_parse_value(toks[3]) matches Some(q) && cv.0 matches Value::Known(v) && v@
                == rat_reduced(q))
            &&& toks[0][0] as u32 == 86 ==> nc.kind is VoltageSource
            &&& toks[0][0] as u32 == 73 ==> nc.kind is CurrentSource
            &&& final(graph).ground == (if spec_is_ground_name(toks[2]) {
                Some(nc.nodes.1)
            } else if spec_is_ground_name(toks[1]) {
                Some(nc.nodes.0)
            } else {
                old(graph).ground
            })
        },
        (!line_ignored(line@) && line_parses(line@)) ==> r is Ok,
        r matches Err(e) ==> e.line == line_num || e.line == 0,
{
    let s_len = line.unicode_len();
    // trim, to recognize ignored lines
    let mut b: usize = s_len;
    loop
        invariant_except_break
            b <= s_len,
            s_len == line@.len(),
            forall|j: int| b <= j < s_len ==> is_space(#[trigger] line@[j]),
        ensures
            b <= s_len,
            s_len == line@.len(),
            forall|j: int| b <= j < s_len ==> is_space(#[trigger] line@[j]),
            b > 0 ==> !is_space(line@[b - 1]),
        decreases b,
    {
        if b == 0 {
            break ;
        }
        if !is_space_c(line.get_char(b - 1)) {
            break ;
        }
        b = b - 1;
    }
    proof {
        lemma_trim_end_at(line@, b as int);
    }
    let ghost te = trim_end(line@);
    let mut a: usize = 0;
    while a < b && is_space_c(line.get_char(a))
        invariant
            a <= b <= s_len,
            s_len == line@.len(),
            te == trim_end(line@),
            te == line@.subrange(0, b as int),
            first_nonspace(te, 0) == first_nonspace(te, a as int),
        decreases b - a,
    {
        a = a + 1;
    }
    proof {
        assert(first_nonspace(te, 0) == a as int);
        assert(trimmed(line@) =~= line@.subrange(a as int, b as int));
    }
    if a == b {
        return Ok(());
    }
    if line.get_char(a) as u32 == 42 {
        assert(trimmed(line@)[0] == line@[a as int]);
        return Ok(());
    }
    assert(!(trimmed(line@).len() == 0 || trimmed(line@)[0] as u32 == 42)) by {
        assert(trimmed(line@)[0] == line@[a as int]);
    };
    let toks = split_tokens(line);
    let ghost tokens = tokens_of(line@);
    if toks.len() < 4 {
        return Err(
            ParseError { line: line_num, message: "expected at least 4 tokens".to_owned() },
        );
    }
    proof {
        assert(tokens[0] == toks@[0]@);
        assert(tokens[1] == toks@[1]@);
        assert(tokens[2] == toks@[2]@);
        assert(tokens[3] == toks@[3]@);
    }
    let id_first = toks[0].as_str().get_char(0) as u32;
    let n1 = get_or_create_node(toks[1].as_str(), graph);
    let n2 = get_or_create_node(toks[2].as_str(), graph);
    proof {
        assert(graph.nodes@[n1 as int].id@ == tokens[1]);
        assert(graph.nodes@[n2 as int].id@ == tokens[2]);
    }
    if n1 == n2 {
        assert(tokens[1] == tokens[2]);
        return Err(
            ParseError {
                line: line_num,
                message: "component endpoints must be distinct nodes".to_owned(),
            },
        );
    }
    let value = match parse_value(toks[3].as_str(), line_num) {
        Ok(v) => v,
        Err(e) => {
            return Err(e);
        },
    };
    proof {
        lemma_parse_value_wf(tokens[3]);
        match spec_parse_value(tokens[3]) {
            Some(q) => {
                crate::rational::lemma_rat_reduced_eq(q);
            },
            None => {},
        }
    }
    let kind: ComponentKind = if id_first == 82 {
        match Resistance::known(value) {
            Ok(rv) => ComponentKind::Resistor { r: rv },
            Err(e) => {
                return Err(ParseError::from_circuit(e));
            },
        }
    } else if id_first == 76 {
        match Inductance::known(value) {
            Ok(lv) => ComponentKind::Inductor { l: lv },
            Err(e) => {
                return Err(ParseError::from_circuit(e));
            },
        }
    } else if id_first == 67 {
        match Capacitance::known(value) {
            Ok(cv) => ComponentKind::Capacitor { c: cv },
            Err(e) => {
                return Err(ParseError::from_circuit(e));
            },
        }
    } else if id_first == 86 || id_first == 73 {
        // a source; `AC MAG PHASE` gives a phasor, else the value is DC
        let is_ac = if toks.len() >= 5 {
            let t4 = toks[4].as_str();
            if t4.unicode_len() == 2 {
                let u0 = t4.get_char(0) as u32;
                let u1 = t4.get_char(1) as u32;
                (u0 == 97 || u0 == 65) && (u1 == 99 || u1 == 67)
            } else {
                false
            }
        } else {
            false
        };
        let mag: Rational;
        let phase: Rational;
        if is_ac {
            mag = if toks.len() >= 6 {
                match parse_value(toks[5].as_str(), line_num) {
                    Ok(v) => v,
                    Err(e) => {
                        return Err(e);
                    },
                }
            } else {
                value
            };
            phase = if toks.len() >= 7 {
                match parse_value(toks[6].as_str(), line_num) {
                    Ok(v) => v,
                    Err(e) => {
                        return Err(e);
                    },
                }
            } else {
                Rational::from_int(0)
            };
        } else {
            mag = value;
            phase = Rational::from_int(0);
        }
        if id_first == 86 {
            ComponentKind::VoltageSource { v: Voltage::ac_phasor(mag, phase) }
        } else {
            ComponentKind::CurrentSource { i: Current::ac_phasor(mag, phase) }
        }
    } else {
        return Err(
            ParseError { line: line_num, message: "unknown component type".to_owned() },
        );
    };
    let id_owned = toks[0].as_str().to_owned();
    graph.add_component(id_owned, kind, (n1, n2));
    if is_ground_name(&toks[1]) {
        graph.set_ground(n1);
    }
    if is_ground_name(&toks[2]) {
        graph.set_ground(n2);
    }
    Ok(())
}

/// Parses a whole netlist: every newline-separated line in order, then
/// checks that a ground was declared and at least one component exists.
///
/// On success the graph holds exactly one component per record
/// (non-ignored) line, and some line named a ground node. Success is owed
/// whenever every line is ignored or parseable, some line names a ground,
/// and some line is a record.
pub fn parse_netlist(input: &str) -> (r: Result<CircuitGraph, ParseError>)
    ensures
        r matches Ok(g) ==> {
            &&& g.wf()
            &&& g.ground is Some
            &&& g.components@.len() > 0
            &&& g.components@.len() == record_count(lines_of(input@))
            &&& exists|k: int|
                0 <= k < lines_of(input@).len() && line_grounds(#[trigger] lines_of(input@)[k])
        },
        ((forall|k: int|
            0 <= k < lines_of(input@).len() ==> (line_ignored(#[trigger] lines_of(input@)[k])
                || line_parses(lines_of(input@)[k]))) && (exists|k: int|
            0 <= k < lines_of(input@).len() && line_grounds(#[trigger] lines_of(input@)[k])) && (
        exists|k: int|
            0 <= k < lines_of(input@).len() && !line_ignored(#[trigger] lines_of(input@)[k])))
            ==> r is Ok,
{
    let mut graph = CircuitGraph::new();
    let n = input.unicode_len();
    let mut start: usize = 0;
    let mut line_num: usize = 1;
    let ghost lines = lines_of(input@);
    let ghost mut done: Seq<Seq<char>> = Seq::empty();
    while start < n
        invariant
            start <= n,
            n == input@.len(),
            graph.wf(),
            1 <= line_num,
            lines == lines_of(input@),
            lines == done + lines_from(input@, start as int),
            graph.components@.len() == record_count(done),
            (graph.ground is Some) <==> (exists|k: int|
                0 <= k < done.len() && line_grounds(#[trigger] done[k])),
        decreases n - start,
    {
        let mut end = start;
        while end < n && input.get_char(end) as u32 != 10
            invariant
                start <= end <= n,
                n == input@.len(),
                line_end(input@, start as int) == line_end(input@, end as int),
            decreases n - end,
        {
            end = end + 1;
        }
        proof {
            assert(line_end(input@, start as int) == end as int);
        }
        let piece = input.substring_char(start, end);
        let ghost pre_graph = graph;
        match parse_component_line(piece, line_num, &mut graph) {
            Ok(_) => {},
            Err(e) => {
                proof {
                    assert(lines_from(input@, start as int) =~= seq![piece@] + lines_from(
                        input@,
                        end as int + 1,
                    ));
                    assert(lines[done.len() as int] == piece@);
                    assert(done.len() < lines.len());
                    assert(!(line_ignored(piece@) || line_parses(piece@)));
                }
                return Err(e);
            },
        }
        proof {
            assert(lines_from(input@, start as int) =~= seq![piece@] + lines_from(
                input@,
                end as int + 1,
            ));
            assert(lines[done.len() as int] == piece@);
            let prev = done;
            done = done.push(piece@);
            assert(lines =~= done + lines_from(input@, end as int + 1));
            if end == n {
                assert(lines_from(input@, end as int + 1) =~= lines_from(input@, n as int));
            }
            assert(record_count(done) == record_count(prev) + if line_ignored(piece@) {
                0int
            } else {
                1int
            }) by {
                assert(done.drop_last() =~= prev);
            };
            assert((graph.ground is Some) <==> (exists|k: int|
                0 <= k < done.len() && line_grounds(#[trigger] done[k]))) by {
                if graph.ground is Some {
                    if pre_graph.ground is Some {
                        let w = choose|k: int|
                            0 <= k < prev.len() && line_grounds(#[trigger] prev[k]);
                        assert(done[w] == prev[w]);
                        assert(line_grounds(done[w]));
                    } else {
                        assert(line_grounds(piece@));
                        assert(done[done.len() - 1] == piece@);
                    }
                }
                if exists|k: int| 0 <= k < done.len() && line_grounds(#[trigger] done[k]) {
                    let w = choose|k: int| 0 <= k < done.len() && line_grounds(#[trigger] done[k]);
                    if w < prev.len() {
                        assert(prev[w] == done[w]);
                        assert(pre_graph.ground is Some);
                    } else {
                        assert(done[w] == piece@);
                        assert(!line_ignored(piece@));
                    }
                }
            };
        }
        if line_num < usize::MAX {
            line_num = line_num + 1;
        }
        if end == n {
            start = n;
        } else {
            start = end + 1;
        }
    }
    proof {
        assert(lines_from(input@, start as int) =~= Seq::<Seq<char>>::empty());
        assert(lines =~= done);
    }
    if !matches!(graph.ground, Some(_)) {
        return Err(ParseError { line: 0, message: "no ground node specified".to_owned() });
    }
    if graph.components.len() == 0 {
        proof {
            lemma_record_count_pos(lines);
        }
        return Err(ParseError { line: 0, message: "no components specified".to_owned() });
    }
    Ok(graph)
}

} // verus!
