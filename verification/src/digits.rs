//! Decimal rendering and parsing of unsigned 64-bit timestamps, with a
//! mathematical model over `Seq<char>`.

use vstd::prelude::*;

verus! {

/// True when `c` is an ASCII decimal digit.
pub open spec fn spec_is_digit(c: char) -> bool {
    48 <= c as u32 <= 57
}

/// The numeric value of a digit character.
pub open spec fn spec_digit_val(c: char) -> int {
    c as u32 - 48
}

/// The digit character for a value below ten.
pub open spec fn spec_digit_char(d: int) -> char {
    if d == 0 {
        '0'
    } else if d == 1 {
        '1'
    } else if d == 2 {
        '2'
    } else if d == 3 {
        '3'
    } else if d == 4 {
        '4'
    } else if d == 5 {
        '5'
    } else if d == 6 {
        '6'
    } else if d == 7 {
        '7'
    } else if d == 8 {
        '8'
    } else {
        '9'
    }
}

/// The decimal digits of `n`, most significant first, with no leading zeros
/// (a single `'0'` for zero).
pub open spec fn spec_u64_digits(n: nat) -> Seq<char>
    decreases n,
{
    if n < 10 {
        seq![spec_digit_char(n as int)]
    } else {
        spec_u64_digits(n / 10).push(spec_digit_char((n % 10) as int))
    }
}

/// Every character of `s` is a decimal digit.
pub open spec fn spec_all_digits(s: Seq<char>) -> bool {
    forall|i: int| 0 <= i < s.len() ==> spec_is_digit(#[trigger] s[i])
}

/// The number a digit sequence denotes, most significant digit first.
pub open spec fn spec_digits_value(s: Seq<char>) -> int
    decreases s.len(),
{
    if s.len() == 0 {
        0
    } else {
        spec_digits_value(s.drop_last()) * 10 + spec_digit_val(s[s.len() - 1])
    }
}

/// Total decimal decoding: the denoted value when `s` is a nonempty,
/// in-range digit sequence, and zero otherwise.
pub open spec fn spec_parse_u64_or_zero(s: Seq<char>) -> u64 {
    if s.len() > 0 && spec_all_digits(s) && spec_digits_value(s) <= u64::MAX {
        spec_digits_value(s) as u64
    } else {
        0
    }
}

/// The rendering of `n` consists of digit characters.
pub proof fn lemma_u64_digits_are_digits(n: nat)
    ensures
        spec_all_digits(spec_u64_digits(n)),
        spec_u64_digits(n).len() > 0,
    decreases n,
{
    if n >= 10 {
        lemma_u64_digits_are_digits(n / 10);
    }
}

/// Rendering then evaluating a number gives the number back.
pub proof fn lemma_u64_digits_value(n: nat)
    ensures
        spec_digits_value(spec_u64_digits(n)) == n,
    decreases n,
{
    if n < 10 {
        let s = spec_u64_digits(n);
        assert(s.drop_last() =~= Seq::<char>::empty());
        assert(spec_digits_value(s) == spec_digits_value(s.drop_last()) * 10 + spec_digit_val(
            s[0],
        ));
        assert(spec_digit_val(spec_digit_char(n as int)) == n);
    } else {
        lemma_u64_digits_value(n / 10);
        let s = spec_u64_digits(n);
        lemma_u64_digits_are_digits(n / 10);
        assert(s.drop_last() =~= spec_u64_digits(n / 10));
        assert(s[s.len() - 1] == spec_digit_char((n % 10) as int));
        assert(spec_digits_value(s) == spec_digits_value(s.drop_last()) * 10 + spec_digit_val(
            s[s.len() - 1],
        ));
        assert(spec_digit_val(spec_digit_char((n % 10) as int)) == n % 10);
        assert(n / 10 * 10 + n % 10 == n) by (nonlinear_arith);
        assert(spec_digits_value(s.drop_last()) == n / 10);
        assert(spec_digits_value(s) == (n / 10) * 10 + (n % 10));
        assert(spec_digits_value(s) == n);
    }
}

/// The total decoder inverts the renderer.
pub proof fn lemma_parse_u64_digits(n: u64)
    ensures
        spec_parse_u64_or_zero(spec_u64_digits(n as nat)) == n,
{
    lemma_u64_digits_are_digits(n as nat);
    lemma_u64_digits_value(n as nat);
}

/// A digit sequence denotes at least as much as any of its prefixes.
proof fn lemma_digits_value_prefix(s: Seq<char>, k: int)
    requires
        0 <= k <= s.len(),
        spec_all_digits(s),
    ensures
        spec_digits_value(s.subrange(0, k)) <= spec_digits_value(s),
        spec_digits_value(s) >= 0,
    decreases s.len() - k,
{
    if k == s.len() {
        assert(s.subrange(0, k) =~= s);
        lemma_digits_value_nonneg(s);
    } else {
        lemma_digits_value_prefix(s, k + 1);
        let p = s.subrange(0, k + 1);
        assert(p.drop_last() =~= s.subrange(0, k));
        lemma_digits_value_nonneg(s.subrange(0, k));
        assert(spec_digits_value(s.subrange(0, k)) <= spec_digits_value(p)) by (nonlinear_arith)
            requires
                spec_digits_value(p) == spec_digits_value(p.drop_last()) * 10 + spec_digit_val(
                    p[p.len() - 1],
                ),
                p.drop_last() == s.subrange(0, k),
                spec_digits_value(s.subrange(0, k)) >= 0,
                spec_digit_val(p[p.len() - 1]) >= 0,
        ;
    }
}

/// A digit sequence denotes a nonnegative number.
proof fn lemma_digits_value_nonneg(s: Seq<char>)
    requires
        spec_all_digits(s),
    ensures
        spec_digits_value(s) >= 0,
    decreases s.len(),
{
    if s.len() > 0 {
        assert(spec_all_digits(s.drop_last()));
        lemma_digits_value_nonneg(s.drop_last());
        assert(spec_digits_value(s.drop_last()) * 10 >= 0) by (nonlinear_arith)
            requires
                spec_digits_value(s.drop_last()) >= 0,
        ;
    }
}

/// The digit character for `d`, matching `spec_digit_char`.
pub fn digit_char(d: u64) -> (r: char)
    requires
        d < 10,
    ensures
        r == spec_digit_char(d as int),
{
    if d == 0 {
        '0'
    } else if d == 1 {
        '1'
    } else if d == 2 {
        '2'
    } else if d == 3 {
        '3'
    } else if d == 4 {
        '4'
    } else if d == 5 {
        '5'
    } else if d == 6 {
        '6'
    } else if d == 7 {
        '7'
    } else if d == 8 {
        '8'
    } else {
        '9'
    }
}

/// The decimal rendering of `n`, matching `spec_u64_digits`.
pub fn u64_to_chars(n: u64) -> (r: Vec<char>)
    ensures
        r@ == spec_u64_digits(n as nat),
    decreases n,
{
    if n < 10 {
        let mut v: Vec<char> = Vec::new();
        v.push(digit_char(n));
        assert(v@ =~= spec_u64_digits(n as nat));
        v
    } else {
        let mut v = u64_to_chars(n / 10);
        v.push(digit_char(n % 10));
        assert(v@ =~= spec_u64_digits(n as nat));
        v
    }
}

/// Total decimal decoding of `v`, matching `spec_parse_u64_or_zero`.
pub fn parse_u64_or_zero(v: &Vec<char>) -> (r: u64)
    ensures
        r == spec_parse_u64_or_zero(v@),
{
    if v.len() == 0 {
        return 0;
    }
    let mut acc: u64 = 0;
    let mut i: usize = 0;
    while i < v.len()
        invariant
            0 <= i <= v@.len(),
            spec_all_digits(v@.subrange(0, i as int)),
            spec_digits_value(v@.subrange(0, i as int)) == acc,
        decreases v@.len() - i,
    {
        let c = v[i];
        let cu: u32 = c as u32;
        if cu < 48 || cu > 57 {
            // a non-digit character: the whole sequence decodes to zero
            assert(!spec_all_digits(v@));
            return 0;
        }
        let d: u64 = (cu - 48) as u64;
        let ghost pre = v@.subrange(0, i as int);
        let ghost cur = v@.subrange(0, i + 1);
        proof {
            assert(cur.drop_last() =~= pre);
            assert(spec_all_digits(cur));
        }
        if acc > (u64::MAX - d) / 10 {
            // the value overflows 64 bits: the sequence decodes to zero
            proof {
                assert(spec_digits_value(cur) > u64::MAX) by (nonlinear_arith)
                    requires
                        spec_digits_value(cur) == spec_digits_value(pre) * 10 + d,
                        spec_digits_value(pre) == acc,
                        acc > (u64::MAX - d) / 10,
                        d < 10,
                ;
                if spec_all_digits(v@) {
                    lemma_digits_value_prefix(v@, i + 1);
                    assert(spec_digits_value(v@) > u64::MAX);
                }
            }
            return 0;
        }
        proof {
            assert(acc * 10 + d <= u64::MAX) by (nonlinear_arith)
                requires
                    acc <= (u64::MAX - d) / 10,
                    d < 10,
            ;
        }
        acc = acc * 10 + d;
        i = i + 1;
    }
    assert(v@.subrange(0, v@.len() as int) =~= v@);
    acc
}

} // verus!
