//! Decimal numerals as they appear in exchange messages, read into
//! fixed-point integers with eight fractional digits (units of 1e-8).

use vstd::prelude::*;
use vstd::string::*;

verus! {

/// Ten to the power `n`.
pub open spec fn pow10(n: nat) -> nat
    decreases n,
{
    if n == 0 {
        1
    } else {
        10 * pow10((n - 1) as nat)
    }
}

/// An ASCII decimal digit.
pub open spec fn is_digit(c: char) -> bool {
    '0' <= c && c <= '9'
}

/// Every character is a decimal digit.
pub open spec fn all_digits(s: Seq<char>) -> bool {
    forall|i: int| 0 <= i < s.len() ==> is_digit(#[trigger] s[i])
}

/// The number that a string of digits denotes (zero for the empty string).
pub open spec fn digits_value(s: Seq<char>) -> nat
    decreases s.len(),
{
    if s.len() == 0 {
        0
    } else {
        10 * digits_value(s.drop_last()) + (s.last() as nat - '0' as nat) as nat
    }
}

/// The text with every double quote taken out.
pub open spec fn without_quotes(s: Seq<char>) -> Seq<char>
    decreases s.len(),
{
    if s.len() == 0 {
        s
    } else if s.last() == '"' {
        without_quotes(s.drop_last())
    } else {
        without_quotes(s.drop_last()).push(s.last())
    }
}

/// `t` is a numeral with a decimal point at `k`: digits before it, at most
/// eight digits after it, and at least one digit in all.
pub open spec fn is_point_numeral(t: Seq<char>, k: int) -> bool {
    &&& 0 <= k < t.len()
    &&& t[k] == '.'
    &&& all_digits(t.take(k))
    &&& all_digits(t.skip(k + 1))
    &&& t.len() - k - 1 <= 8
    &&& t.len() >= 2
}

/// The value, in units of 1e-8, of a numeral made of digits with an
/// optional decimal point followed by at most eight digits; `None` for any
/// other text.
pub open spec fn numeral_value(t: Seq<char>) -> Option<nat> {
    if t.len() > 0 && all_digits(t) {
        Some(digits_value(t) * pow10(8))
    } else if exists|k: int| is_point_numeral(t, k) {
        let k = choose|k: int| is_point_numeral(t, k);
        Some(
            digits_value(t.take(k)) * pow10(8) + digits_value(t.skip(k + 1)) * pow10(
                (8 - (t.len() - k - 1)) as nat,
            ),
        )
    } else {
        None
    }
}

/// What `parse_fixed8` gives for a text: the numeral's value once double
/// quotes are taken out, when the text is a numeral and the value fits in
/// an `i64`.
pub open spec fn fixed8_value(s: Seq<char>) -> Option<i64> {
    match numeral_value(without_quotes(s)) {
        Some(v) => if v <= i64::MAX {
            Some(v as i64)
        } else {
            None
        },
        None => None,
    }
}

/// A prefix of a digit string is worth no more than the whole string.
proof fn lemma_digits_value_prefix(s: Seq<char>, i: int)
    requires
        0 <= i <= s.len(),
    ensures
        digits_value(s.take(i)) <= digits_value(s),
    decreases s.len(),
{
    if i < s.len() {
        assert(s.drop_last().take(i) =~= s.take(i));
        lemma_digits_value_prefix(s.drop_last(), i);
    } else {
        assert(s.take(i) =~= s);
    }
}

/// `pow10` grows with its exponent.
proof fn lemma_pow10_monotone(a: nat, b: nat)
    requires
        a <= b,
    ensures
        pow10(a) <= pow10(b),
    decreases b,
{
    if a < b {
        lemma_pow10_monotone(a, (b - 1) as nat);
    }
}

/// A string of `n` digits is worth less than ten to the `n`.
proof fn lemma_digits_value_bound(s: Seq<char>)
    requires
        all_digits(s),
    ensures
        digits_value(s) < pow10(s.len()),
    decreases s.len(),
{
    if s.len() > 0 {
        let r = s.drop_last();
        assert(all_digits(r)) by {
            assert forall|i: int| 0 <= i < r.len() implies is_digit(#[trigger] r[i]) by {
                assert(r[i] == s[i]);
            }
        }
        lemma_digits_value_bound(r);
        assert(is_digit(s[s.len() - 1]));
    }
}

/// Eight fractional digits make a unit of 1e-8.
proof fn lemma_pow10_eight()
    ensures
        pow10(8) == 100_000_000,
{
    reveal_with_fuel(pow10, 9);
}

/// Reads the digits `t[lo..hi]` into their value, or `None` when a
/// character there is not a digit or the value exceeds `i64::MAX`.
fn digits_in(t: &Vec<char>, lo: usize, hi: usize) -> (r: Option<u128>)
    requires
        lo <= hi <= t@.len(),
    ensures
        match r {
            Some(v) => all_digits(t@.subrange(lo as int, hi as int)) && v == digits_value(
                t@.subrange(lo as int, hi as int),
            ) && v <= i64::MAX,
            None => !all_digits(t@.subrange(lo as int, hi as int)) || digits_value(
                t@.subrange(lo as int, hi as int),
            ) > i64::MAX,
        },
{
    let mut acc: u128 = 0;
    let mut i: usize = lo;
    while i < hi
        invariant
            lo <= i <= hi <= t@.len(),
            all_digits(t@.subrange(lo as int, i as int)),
            acc == digits_value(t@.subrange(lo as int, i as int)),
            acc <= i64::MAX,
        decreases hi - i,
    {
        let c = t[i];
        let ghost before = t@.subrange(lo as int, i as int);
        let ghost next = t@.subrange(lo as int, i + 1);
        assert(next.drop_last() =~= before);
        if !('0' <= c && c <= '9') {
            assert(!is_digit(next.last()));
            proof {
                let whole = t@.subrange(lo as int, hi as int);
                assert(whole[i - lo] == c);
            }
            return None;
        }
        let d = (c as u32 - '0' as u32) as u128;
        assert(acc * 10 <= i64::MAX * 10) by (nonlinear_arith)
            requires
                acc <= i64::MAX,
        ;
        acc = acc * 10 + d;
        i = i + 1;
        if acc > i64::MAX as u128 {
            proof {
                let whole = t@.subrange(lo as int, hi as int);
                let k = i - lo;
                assert(whole.take(k) =~= t@.subrange(lo as int, i as int));
                lemma_digits_value_prefix(whole, k);
            }
            return None;
        }
    }
    Some(acc)
}

/// Reads a decimal numeral into a fixed-point integer with eight
/// fractional digits, after taking out every double quote (so the JSON
/// text of a string, quotes included, is read as its content).
/// `"0.1"` gives 10_000_000 and `"12"` gives 1_200_000_000. Text that is
/// not a numeral, with more than eight fractional digits, or whose value
/// exceeds `i64::MAX`, gives `None`.
pub fn parse_fixed8(text: &str) -> (r: Option<i64>)
    ensures
        r == fixed8_value(text@),
{
    let n = text.unicode_len();
    let mut t: Vec<char> = Vec::new();
    let mut i: usize = 0;
    while i < n
        invariant
            i <= n,
            n == text@.len(),
            t@ == without_quotes(text@.take(i as int)),
        decreases n - i,
    {
        let c = text.get_char(i);
        assert(text@.take(i + 1).drop_last() =~= text@.take(i as int));
        if c != '"' {
            t.push(c);
        }
        i = i + 1;
    }
    assert(text@.take(n as int) =~= text@);
    let ghost tt = t@;
    // the first decimal point, if any
    let len = t.len();
    let mut k: usize = 0;
    while k < len && t[k] != '.'
        invariant
            k <= len,
            len == t@.len(),
            forall|j: int| 0 <= j < k ==> t@[j] != '.',
        decreases len - k,
    {
        k = k + 1;
    }
    let value: u128;
    if k == len {
        if len == 0 {
            return None;
        }
        assert(t@.subrange(0, len as int) =~= tt);
        let int_part = digits_in(&t, 0, len);
        proof {
            assert forall|j: int| !is_point_numeral(tt, j) by {}
            lemma_pow10_eight();
        }
        match int_part {
            None => {
                return None;
            },
            Some(v) => {
                value = v * 100_000_000;
            },
        }
    } else {
        proof {
            assert(!all_digits(tt)) by {
                assert(!is_digit(tt[k as int]));
            }
            assert forall|j: int| #[trigger] is_point_numeral(tt, j) implies j == k by {
                if j > k {
                    assert(tt.take(j)[k as int] == '.');
                }
            }
        }
        if len < 2 || len - k - 1 > 8 {
            return None;
        }
        assert(t@.subrange(0, k as int) =~= tt.take(k as int));
        assert(t@.subrange(k + 1, len as int) =~= tt.skip(k + 1));
        let int_part = digits_in(&t, 0, k);
        let frac_part = digits_in(&t, k + 1, len);
        match (int_part, frac_part) {
            (Some(a), Some(b)) => {
                assert(is_point_numeral(tt, k as int));
                let mut scale: u128 = 1;
                let mut j: usize = len - k - 1;
                while j < 8
                    invariant
                        k < len,
                        len - k - 1 <= j <= 8,
                        scale == pow10((j - (len - k - 1)) as nat),
                        scale <= 100_000_000,
                    decreases 8 - j,
                {
                    assert(pow10((j + 1 - (len - k - 1)) as nat) == 10 * pow10(
                        (j - (len - k - 1)) as nat,
                    ));
                    proof {
                        lemma_pow10_monotone((j + 1 - (len - k - 1)) as nat, 8);
                        lemma_pow10_eight();
                    }
                    scale = scale * 10;
                    j = j + 1;
                }
                assert(a * 100_000_000 + b * scale <= 2 * 100_000_000 * i64::MAX)
                    by (nonlinear_arith)
                    requires
                        a <= i64::MAX,
                        b <= i64::MAX,
                        scale <= 100_000_000,
                ;
                value = a * 100_000_000 + b * scale;
                proof {
                    lemma_pow10_eight();
                }
            },
            _ => {
                proof {
                    if all_digits(tt.take(k as int)) && all_digits(tt.skip(k + 1)) {
                        let frac = tt.skip(k + 1);
                        assert(frac.len() <= 8);
                        lemma_digits_value_bound(frac);
                        lemma_pow10_monotone(frac.len(), 8);
                        lemma_pow10_eight();
                        assert(is_point_numeral(tt, k as int));
                        assert(digits_value(tt.take(k as int)) > i64::MAX);
                        assert(digits_value(tt.take(k as int)) * pow10(8) >= digits_value(
                            tt.take(k as int),
                        )) by (nonlinear_arith)
                            requires
                                pow10(8) >= 1,
                        ;
                    }
                }
                return None;
            },
        }
    }
    if value > i64::MAX as u128 {
        return None;
    }
    Some(value as i64)
}

/// The integer that a text of decimal digits, with an optional leading
/// minus sign, denotes; `None` for any other text or when the value does
/// not fit in `i64` (`i64::MIN` itself is refused).
pub open spec fn integer_value(s: Seq<char>) -> Option<i64> {
    if s.len() > 0 && all_digits(s) {
        if digits_value(s) <= i64::MAX {
            Some(digits_value(s) as i64)
        } else {
            None
        }
    } else if s.len() > 1 && s[0] == '-' && all_digits(s.skip(1)) {
        if digits_value(s.skip(1)) <= i64::MAX {
            Some((-digits_value(s.skip(1))) as i64)
        } else {
            None
        }
    } else {
        None
    }
}

/// Reads an integer text as `integer_value` says.
pub fn parse_integer(text: &str) -> (r: Option<i64>)
    ensures
        r == integer_value(text@),
{
    let n = text.unicode_len();
    let mut t: Vec<char> = Vec::new();
    let mut i: usize = 0;
    while i < n
        invariant
            i <= n,
            n == text@.len(),
            t@ == text@.take(i as int),
        decreases n - i,
    {
        t.push(text.get_char(i));
        i = i + 1;
    }
    assert(text@.take(n as int) =~= text@);
    if n == 0 {
        return None;
    }
    if t[0] == '-' {
        proof {
            assert(!is_digit(t@[0]));
        }
        if n < 2 {
            return None;
        }
        assert(t@.subrange(1, n as int) =~= text@.skip(1));
        match digits_in(&t, 1, n) {
            Some(v) => Some(-(v as i64)),
            None => None,
        }
    } else {
        assert(t@.subrange(0, n as int) =~= text@);
        match digits_in(&t, 0, n) {
            Some(v) => Some(v as i64),
            None => None,
        }
    }
}

} // verus!
