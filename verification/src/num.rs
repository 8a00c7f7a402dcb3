use vstd::prelude::*;
use vstd::arithmetic::div_mod::lemma_fundamental_div_mod;
use vstd::arithmetic::div_mod::lemma_mod_division_less_than_divisor;

verus! {

/// Value of one ASCII digit byte, or -1 where the byte is no digit.
/// Decimal digits, lowercase and uppercase hex letters are recognized.
pub open spec fn digit_value(b: u8) -> int {
    if 48 <= b <= 57 {  // '0'..'9'
        b - 48
    } else if 97 <= b <= 102 {  // 'a'..'f'
        b - 87
    } else if 65 <= b <= 70 {  // 'A'..'F'
        b - 55
    } else {
        -1
    }
}

pub open spec fn is_digit(b: u8, base: int) -> bool {
    0 <= digit_value(b) < base
}

/// A numeric field: non-empty, digits of the given radix only.
pub open spec fn valid_number(s: Seq<u8>, base: int) -> bool {
    s.len() > 0 && (forall|i: int| 0 <= i < s.len() ==> is_digit(s[i], base))
}

/// Numeric value of a digit string, most significant digit first.
pub open spec fn number_value(s: Seq<u8>, base: int) -> int
    decreases s.len(),
{
    if s.len() == 0 {
        0
    } else {
        number_value(s.drop_last(), base) * base + digit_value(s.last())
    }
}

pub proof fn lemma_number_value_nonneg(s: Seq<u8>, base: int)
    requires
        base >= 2,
        forall|i: int| 0 <= i < s.len() ==> is_digit(s[i], base),
    ensures
        number_value(s, base) >= 0,
    decreases s.len(),
{
    if s.len() > 0 {
        lemma_number_value_nonneg(s.drop_last(), base);
        assert(number_value(s.drop_last(), base) * base >= 0) by (nonlinear_arith)
            requires
                number_value(s.drop_last(), base) >= 0,
                base >= 2,
        ;
    }
}

/// Appending a digit multiplies the value by the radix and adds the digit.
pub proof fn lemma_number_value_push(s: Seq<u8>, b: u8, base: int)
    ensures
        number_value(s.push(b), base) == number_value(s, base) * base + digit_value(b),
{
    assert(s.push(b).drop_last() =~= s);
    assert(s.push(b).last() == b);
}

pub proof fn lemma_number_value_take_succ(s: Seq<u8>, base: int, i: int)
    requires
        0 <= i < s.len(),
    ensures
        number_value(s.take(i + 1), base) == number_value(s.take(i), base) * base + digit_value(
            s[i],
        ),
{
    assert(s.take(i + 1).drop_last() =~= s.take(i));
    assert(s.take(i + 1).last() == s[i]);
}

/// The value of a digit string is at least the value of any of its prefixes.
pub proof fn lemma_number_value_prefix_le(s: Seq<u8>, base: int, i: int)
    requires
        base >= 2,
        forall|j: int| 0 <= j < s.len() ==> is_digit(s[j], base),
        0 <= i <= s.len(),
    ensures
        number_value(s.take(i), base) <= number_value(s, base),
    decreases s.len() - i,
{
    if i == s.len() {
        assert(s.take(i) =~= s);
    } else {
        lemma_number_value_take_succ(s, base, i);
        assert(forall|j: int| 0 <= j < s.take(i).len() ==> is_digit(s.take(i)[j], base));
        lemma_number_value_nonneg(s.take(i), base);
        assert(number_value(s.take(i), base) * base + digit_value(s[i]) >= number_value(
            s.take(i),
            base,
        )) by (nonlinear_arith)
            requires
                number_value(s.take(i), base) >= 0,
                base >= 2,
                digit_value(s[i]) >= 0,
        ;
        lemma_number_value_prefix_le(s, base, i + 1);
    }
}

/// Parse a numeric field. Returns the value exactly when the field is a
/// well-formed number of the radix whose value fits in a `u64`.
pub fn parse_u64(s: &[u8], base: u64) -> (r: Option<u64>)
    requires
        base == 10 || base == 16,
    ensures
        match r {
            Some(n) => valid_number(s@, base as int) && number_value(s@, base as int) == n,
            None => !valid_number(s@, base as int) || number_value(s@, base as int) > u64::MAX,
        },
{
    if s.len() == 0 {
        return None;
    }
    let mut acc: u64 = 0;
    let mut i: usize = 0;
    while i < s.len()
        invariant
            base == 10 || base == 16,
            0 < s@.len(),
            0 <= i <= s@.len(),
            forall|j: int| 0 <= j < i ==> is_digit(s@[j], base as int),
            acc == number_value(s@.take(i as int), base as int),
        decreases s@.len() - i,
    {
        let b = s[i];
        let d: u64 = if 48 <= b && b <= 57 {
            (b - 48) as u64
        } else if 97 <= b && b <= 102 {
            (b - 87) as u64
        } else if 65 <= b && b <= 70 {
            (b - 55) as u64
        } else {
            return None;
        };
        if d >= base {
            return None;
        }
        if acc > (u64::MAX - d) / base {
            // The digits seen so far already overflow the field's type.
            proof {
                lemma_number_value_take_succ(s@, base as int, i as int);
                let m = (u64::MAX - d) as int;
                lemma_fundamental_div_mod(m, base as int);
                lemma_mod_division_less_than_divisor(m, base as int);
                assert(acc * base + d > u64::MAX) by (nonlinear_arith)
                    requires
                        acc > m / (base as int),
                        m == (base as int) * (m / (base as int)) + m % (base as int),
                        0 <= m % (base as int) < base,
                        base >= 2,
                        m == u64::MAX - d,
                ;
                assert(forall|j: int| 0 <= j < s@.len() ==> is_digit(s@[j], base as int) || j > i);
                if forall|j: int| 0 <= j < s@.len() ==> is_digit(s@[j], base as int) {
                    lemma_number_value_prefix_le(s@, base as int, i + 1 as int);
                }
            }
            return None;
        }
        proof {
            let m = (u64::MAX - d) as int;
            lemma_fundamental_div_mod(m, base as int);
            lemma_mod_division_less_than_divisor(m, base as int);
            assert(acc * base + d <= u64::MAX) by (nonlinear_arith)
                requires
                    0 <= acc <= m / (base as int),
                    m == (base as int) * (m / (base as int)) + m % (base as int),
                    0 <= m % (base as int) < base,
                    base >= 2,
                    m == u64::MAX - d,
            ;
            lemma_number_value_take_succ(s@, base as int, i as int);
        }
        acc = acc * base + d;
        i = i + 1;
    }
    proof {
        assert(s@.take(s@.len() as int) =~= s@);
    }
    Some(acc)
}

/// Parse a numeric field that must fit in a `u32`.
pub fn parse_u32(s: &[u8], base: u64) -> (r: Option<u32>)
    requires
        base == 10 || base == 16,
    ensures
        match r {
            Some(n) => valid_number(s@, base as int) && number_value(s@, base as int) == n,
            None => !valid_number(s@, base as int) || number_value(s@, base as int) > u32::MAX,
        },
{
    match parse_u64(s, base) {
        Some(n) => {
            if n <= 0xffff_ffff {
                Some(n as u32)
            } else {
                None
            }
        },
        None => {
            proof {
                if valid_number(s@, base as int) {
                    assert(number_value(s@, base as int) > u64::MAX);
                }
            }
            None
        },
    }
}

/// The canonical (lowercase) digit for a value below the radix.
pub open spec fn digit_of(d: int) -> u8 {
    if d < 10 {
        (48 + d) as u8
    } else {
        (87 + d) as u8
    }
}

/// The canonical digit string of a value: no leading zeroes, lowercase.
pub open spec fn digits_of(n: int, base: int) -> Seq<u8>
    decreases n via digits_of_decreases
{
    if n < base || base < 2 || n < 0 {
        seq![digit_of(n)]
    } else {
        digits_of(n / base, base).push(digit_of(n % base))
    }
}

#[via_fn]
proof fn digits_of_decreases(n: int, base: int) {
    if !(n < base || base < 2 || n < 0) {
        lemma_fundamental_div_mod(n, base);
        lemma_mod_division_less_than_divisor(n, base);
        assert(0 <= n / base < n) by (nonlinear_arith)
            requires
                n >= base,
                base >= 2,
                n == base * (n / base) + n % base,
                0 <= n % base < base,
        ;
    }
}

/// The canonical digit string of a value is a well-formed number and
/// parses back to that value.
pub proof fn lemma_digits_of_value(n: int, base: int)
    requires
        base == 10 || base == 16,
        0 <= n,
    ensures
        valid_number(digits_of(n, base), base),
        number_value(digits_of(n, base), base) == n,
    decreases n,
{
    if n < base {
        let s = digits_of(n, base);
        assert(s =~= seq![digit_of(n)]);
        assert(s.last() == digit_of(n));
        assert(s.drop_last() =~= Seq::<u8>::empty());
        assert(number_value(s.drop_last(), base) == 0);
        assert(digit_value(digit_of(n)) == n);
        assert(number_value(s, base) == 0 * base + n);
        assert(forall|i: int| 0 <= i < s.len() ==> s[i] == digit_of(n));
    } else {
        lemma_fundamental_div_mod(n, base);
        lemma_mod_division_less_than_divisor(n, base);
        assert(0 <= n / base < n) by (nonlinear_arith)
            requires
                n >= base,
                base >= 2,
                n == base * (n / base) + n % base,
                0 <= n % base < base,
        ;
        lemma_digits_of_value(n / base, base);
        let p = digits_of(n / base, base);
        let s = p.push(digit_of(n % base));
        assert(digits_of(n, base) == s);
        lemma_number_value_push(p, digit_of(n % base), base);
        assert(digit_value(digit_of(n % base)) == n % base);
        assert(number_value(s, base) == number_value(p, base) * base + n % base);
        assert(number_value(p, base) * base + n % base == n) by (nonlinear_arith)
            requires
                number_value(p, base) == n / base,
                n == base * (n / base) + n % base,
        ;
        assert forall|i: int| 0 <= i < s.len() implies is_digit(s[i], base) by {
            if i < p.len() {
                assert(s[i] == p[i]);
            } else {
                assert(s[i] == digit_of(n % base));
            }
        }
    }
}

} // verus!
