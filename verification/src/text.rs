use vstd::prelude::*;
use vstd::string::*;
use vstd::arithmetic::div_mod::lemma_fundamental_div_mod;

verus! {

/// Relies on std's `String::push`: appends the given character to the
/// end of the string.
pub assume_specification[ String::push ](s: &mut String, c: char)
    ensures
        final(s)@ == old(s)@.push(c),
;

/// The whitespace characters the script grammar ignores.
pub open spec fn is_ws(c: char) -> bool {
    c == ' ' || c == '\t' || c == '\r' || c == '\n'
}

/// Decimal digit.
pub open spec fn is_digit_char(c: char) -> bool {
    48 <= c as u32 && c as u32 <= 57
}

/// Characters allowed in `Label::Str` names and script variable names:
/// ASCII letters, digits and underscore.
pub open spec fn is_name_char(c: char) -> bool {
    (65 <= c as u32 && c as u32 <= 90) || (97 <= c as u32 && c as u32 <= 122)
        || is_digit_char(c) || c == '_'
}

/// Numeric value of a decimal digit character.
pub open spec fn digit_val(c: char) -> int {
    c as u32 - 48
}

/// The decimal digit character for a value below ten.
pub open spec fn digit_char(d: int) -> char {
    if d == 0 {
        '0'
    } else if d == 1 {
        '1'
    } else if d == 2 {
        '2'
    } else if d == 3 {
        '3'
    } else if d == 4 {
        '4'
    } else if d == 5 {
        '5'
    } else if d == 6 {
        '6'
    } else if d == 7 {
        '7'
    } else if d == 8 {
        '8'
    } else {
        '9'
    }
}

/// Canonical decimal rendering of a number, most significant digit first.
pub open spec fn dec_text(n: nat) -> Seq<char>
    decreases n,
{
    if n < 10 {
        seq![digit_char(n as int)]
    } else {
        dec_text(n / 10).push(digit_char((n % 10) as int))
    }
}

/// Numeric value of a digit sequence, read left to right.
pub open spec fn dec_value(t: Seq<char>) -> int
    decreases t.len(),
{
    if t.len() == 0 {
        0
    } else {
        dec_value(t.drop_last()) * 10 + digit_val(t.last())
    }
}

/// Every character is a decimal digit.
pub open spec fn all_digits(t: Seq<char>) -> bool {
    forall|i: int| 0 <= i < t.len() ==> is_digit_char(t[i])
}

pub proof fn lemma_dec_value_nonneg(t: Seq<char>)
    requires
        all_digits(t),
    ensures
        dec_value(t) >= 0,
    decreases t.len(),
{
    if t.len() > 0 {
        assert(all_digits(t.drop_last()));
        lemma_dec_value_nonneg(t.drop_last());
        assert(digit_val(t.last()) >= 0);
    }
}

pub proof fn lemma_dec_text_digits(n: nat)
    ensures
        dec_text(n).len() >= 1,
        all_digits(dec_text(n)),
    decreases n,
{
    if n >= 10 {
        lemma_dec_text_digits(n / 10);
        assert(is_digit_char(digit_char((n % 10) as int)));
    }
}

/// Rendering a number and reading the digits back gives the number.
pub proof fn lemma_dec_round_trip(n: nat)
    ensures
        dec_value(dec_text(n)) == n,
    decreases n,
{
    if n < 10 {
        assert(dec_text(n).drop_last() =~= Seq::<char>::empty());
        assert(dec_value(Seq::<char>::empty()) == 0);
        assert(dec_text(n).last() == digit_char(n as int));
        assert(digit_val(digit_char(n as int)) == n);
    } else {
        lemma_dec_round_trip(n / 10);
        assert(dec_text(n).drop_last() =~= dec_text(n / 10));
        assert(dec_text(n).last() == digit_char((n % 10) as int));
        assert(digit_val(digit_char((n % 10) as int)) == n % 10);
        lemma_fundamental_div_mod(n as int, 10);
    }
}

/// A digit prefix never reads as more than the whole digit string.
pub proof fn lemma_dec_value_prefix(t: Seq<char>, i: int)
    requires
        all_digits(t),
        0 <= i <= t.len(),
    ensures
        dec_value(t.take(i)) <= dec_value(t),
    decreases t.len() - i,
{
    if i == t.len() {
        assert(t.take(i) =~= t);
    } else {
        assert(t.take(i + 1).drop_last() =~= t.take(i));
        assert(all_digits(t.take(i)));
        lemma_dec_value_nonneg(t.take(i));
        assert(dec_value(t.take(i + 1)) == dec_value(t.take(i)) * 10 + digit_val(t.take(i + 1).last()));
        assert(digit_val(t[i]) >= 0);
        lemma_dec_value_prefix(t, i + 1);
    }
}

proof fn lemma_dec_step(v: int, d: int, m: int)
    requires
        v >= 0,
        0 <= d <= 9,
        d <= m,
    ensures
        v > (m - d) / 10 ==> v * 10 + d > m,
        v <= (m - d) / 10 ==> v * 10 + d <= m,
{
    let q = (m - d) / 10;
    let r = (m - d) % 10;
    lemma_fundamental_div_mod(m - d, 10);
    assert(m - d == 10 * q + r);
    if v > q {
        assert(v >= q + 1);
        assert(v * 10 >= (q + 1) * 10) by (nonlinear_arith)
            requires v >= q + 1;
    }
    if v <= q {
        assert(v * 10 <= q * 10) by (nonlinear_arith)
            requires v <= q;
    }
}

/// The characters of a string, one by one.
pub fn str_chars(s: &str) -> (r: Vec<char>)
    ensures
        r@ == s@,
{
    let n = s.unicode_len();
    let mut out: Vec<char> = Vec::new();
    let mut i: usize = 0;
    while i < n
        invariant
            i <= n,
            n == s@.len(),
            out@ == s@.take(i as int),
        decreases n - i,
    {
        out.push(s.get_char(i));
        i = i + 1;
        proof {
            assert(out@ =~= s@.take(i as int));
        }
    }
    proof {
        assert(out@ =~= s@);
    }
    out
}

pub fn ws_exec(c: char) -> (r: bool)
    ensures
        r == is_ws(c),
{
    c == ' ' || c == '\t' || c == '\r' || c == '\n'
}

pub fn digit_exec(c: char) -> (r: bool)
    ensures
        r == is_digit_char(c),
{
    48 <= c as u32 && c as u32 <= 57
}

pub fn name_char_exec(c: char) -> (r: bool)
    ensures
        r == is_name_char(c),
{
    (65 <= c as u32 && c as u32 <= 90) || (97 <= c as u32 && c as u32 <= 122)
        || digit_exec(c) || c == '_'
}

pub fn digit_of(c: char) -> (r: u8)
    requires
        is_digit_char(c),
    ensures
        r as int == digit_val(c),
{
    ((c as u32) - 48) as u8
}

pub fn char_of_digit(d: u8) -> (c: char)
    requires
        d < 10,
    ensures
        c == digit_char(d as int),
{
    if d == 0 {
        '0'
    } else if d == 1 {
        '1'
    } else if d == 2 {
        '2'
    } else if d == 3 {
        '3'
    } else if d == 4 {
        '4'
    } else if d == 5 {
        '5'
    } else if d == 6 {
        '6'
    } else if d == 7 {
        '7'
    } else if d == 8 {
        '8'
    } else {
        '9'
    }
}

/// Appends the canonical decimal rendering of `n` to `out`.
pub fn push_dec(out: &mut String, n: usize)
    ensures
        final(out)@ == old(out)@ + dec_text(n as nat),
    decreases n,
{
    if n >= 10 {
        push_dec(out, n / 10);
    }
    out.push(char_of_digit((n % 10) as u8));
    proof {
        if n < 10 {
            assert(final(out)@ =~= old(out)@ + dec_text(n as nat));
        } else {
            assert(final(out)@ =~= old(out)@ + dec_text(n as nat));
        }
    }
}

/// Reads the decimal digits of `t` between `from` and `to`.  Gives the
/// value exactly when the range is non-empty, all digits, and the value
/// fits in `usize`.
pub fn parse_dec(t: &Vec<char>, from: usize, to: usize) -> (r: Option<usize>)
    requires
        from <= to <= t@.len(),
    ensures
        ({
            let s = t@.subrange(from as int, to as int);
            match r {
                Some(v) => all_digits(s) && s.len() >= 1 && v as int == dec_value(s),
                None => !(all_digits(s) && s.len() >= 1 && dec_value(s) <= usize::MAX),
            }
        }),
{
    let ghost s = t@.subrange(from as int, to as int);
    if from == to {
        return None;
    }
    let mut v: usize = 0;
    let mut i: usize = from;
    while i < to
        invariant
            from <= i <= to <= t@.len(),
            s == t@.subrange(from as int, to as int),
            all_digits(s.take(i - from)),
            v as int == dec_value(s.take(i - from)),
        decreases to - i,
    {
        let c = t[i];
        if !digit_exec(c) {
            proof {
                assert(s[i - from] == t@[i as int]);
                assert(!all_digits(s));
            }
            return None;
        }
        let d = digit_of(c);
        proof {
            assert(s.take(i - from + 1).drop_last() =~= s.take(i - from));
            assert(s.take(i - from + 1).last() == s[i - from]);
            assert(s[i - from] == c);
            lemma_dec_step(v as int, d as int, usize::MAX as int);
        }
        if v > (usize::MAX - (d as usize)) / 10 {
            proof {
                assert(dec_value(s.take(i - from + 1)) > usize::MAX);
                if all_digits(s) {
                    lemma_dec_value_prefix(s, i - from + 1);
                }
            }
            return None;
        }
        v = v * 10 + (d as usize);
        i = i + 1;
        proof {
            assert(all_digits(s.take(i - from))) by {
                assert(forall|j: int| 0 <= j < i - from ==> s.take(i - from)[j] == s[j]);
            }
        }
    }
    proof {
        assert(s.take(to - from) =~= s);
    }
    Some(v)
}

} // verus!
