use vstd::prelude::*;

verus! {

/// The value of an ASCII digit or letter as `char::to_digit` reads it
/// (`0`-`9` are 0-9, `a`-`z` and `A`-`Z` are 10-35); 36 for any other character.
pub open spec fn digit_value(c: char) -> int {
    if '0' <= c && c <= '9' {
        c as int - '0' as int
    } else if 'a' <= c && c <= 'z' {
        c as int - 'a' as int + 10
    } else if 'A' <= c && c <= 'Z' {
        c as int - 'A' as int + 10
    } else {
        36
    }
}

/// Every character of `s` is a digit in the given radix.
pub open spec fn all_digits(s: Seq<char>, radix: int) -> bool {
    forall|i: int| 0 <= i < s.len() ==> #[trigger] digit_value(s[i]) < radix
}

/// The number that the digits `s` write in the given radix, most significant first.
pub open spec fn digits_value(s: Seq<char>, radix: int) -> int
    decreases s.len(),
{
    if s.len() == 0 {
        0
    } else {
        radix * digits_value(s.drop_last(), radix) + digit_value(s.last())
    }
}

/// `s` without one leading `+`, if it has one.
pub open spec fn without_plus(s: Seq<char>) -> Seq<char> {
    if s.len() > 0 && s[0] == '+' {
        s.drop_first()
    } else {
        s
    }
}

/// What `from_str_radix` of an unsigned integer type whose largest value is `max` gives for `s`:
/// an optional `+`, then at least one digit, and a value that fits.
pub open spec fn parse_unsigned_spec(s: Seq<char>, radix: int, max: int) -> Option<int> {
    let t = without_plus(s);
    if t.len() > 0 && all_digits(t, radix) && digits_value(t, radix) <= max {
        Some(digits_value(t, radix))
    } else {
        None
    }
}

proof fn lemma_digits_value_nonneg(s: Seq<char>, radix: int)
    requires
        radix >= 2,
        all_digits(s, radix),
    ensures
        digits_value(s, radix) >= 0,
    decreases s.len(),
{
    if s.len() > 0 {
        assert(all_digits(s.drop_last(), radix)) by {
            assert forall|i: int| 0 <= i < s.drop_last().len() implies #[trigger] digit_value(
                s.drop_last()[i],
            ) < radix by {
                assert(s.drop_last()[i] == s[i]);
            }
        }
        lemma_digits_value_nonneg(s.drop_last(), radix);
        assert(digit_value(s[s.len() - 1]) < radix);
        assert(digit_value(s.last()) >= 0);
        assert(radix * digits_value(s.drop_last(), radix) >= 0) by (nonlinear_arith)
            requires
                radix >= 2,
                digits_value(s.drop_last(), radix) >= 0,
        ;
    }
}

/// A value written by a prefix of some digits is at most the value of all of them.
/// A value that `parse_unsigned_spec` gives lies between 0 and `max`.
pub proof fn lemma_parse_unsigned_bounds(s: Seq<char>, radix: int, max: int)
    requires
        radix >= 2,
    ensures
        parse_unsigned_spec(s, radix, max) is Some ==> 0 <= parse_unsigned_spec(s, radix, max).unwrap() <= max,
{
    let t = without_plus(s);
    if t.len() > 0 && all_digits(t, radix) {
        lemma_digits_value_nonneg(t, radix);
    }
}

proof fn lemma_digits_value_prefix(s: Seq<char>, k: int, radix: int)
    requires
        radix >= 2,
        0 <= k <= s.len(),
        all_digits(s, radix),
    ensures
        digits_value(s.take(k), radix) <= digits_value(s, radix),
    decreases s.len() - k,
{
    if k < s.len() {
        let t = s.take(k + 1);
        assert(all_digits(t, radix)) by {
            assert forall|i: int| 0 <= i < t.len() implies #[trigger] digit_value(t[i]) < radix by {
                assert(t[i] == s[i]);
            }
        }
        assert(t.drop_last() =~= s.take(k));
        assert(all_digits(s.take(k), radix)) by {
            assert forall|i: int| 0 <= i < k implies #[trigger] digit_value(s.take(k)[i])
                < radix by {
                assert(s.take(k)[i] == s[i]);
            }
        }
        lemma_digits_value_nonneg(s.take(k), radix);
        assert(digit_value(t[k]) >= 0);
        let a = digits_value(s.take(k), radix);
        assert(radix * a >= a) by (nonlinear_arith)
            requires
                radix >= 2,
                a >= 0,
        ;
        lemma_digits_value_prefix(s, k + 1, radix);
    } else {
        assert(s.take(k) =~= s);
    }
}

/// Reads `s` as `from_str_radix` does for an unsigned type whose largest value is `max`.
pub fn parse_unsigned(s: &[char], radix: u32, max: u64) -> (res: Option<u64>)
    requires
        radix == 10 || radix == 16,
        max <= u32::MAX,
    ensures
        match res {
            Some(v) => parse_unsigned_spec(s@, radix as int, max as int) == Some(v as int),
            None => parse_unsigned_spec(s@, radix as int, max as int) is None,
        },
{
    let start: usize = if s.len() > 0 && s[0] == '+' {
        1
    } else {
        0
    };
    let ghost t = without_plus(s@);
    assert(t =~= s@.subrange(start as int, s@.len() as int));
    if start >= s.len() {
        return None;
    }
    let mut acc: u64 = 0;
    let mut i: usize = start;
    while i < s.len()
        invariant
            start <= i <= s.len(),
            start < s.len(),
            t == without_plus(s@),
            t =~= s@.subrange(start as int, s@.len() as int),
            radix == 10 || radix == 16,
            max <= u32::MAX,
            acc <= max,
            all_digits(t.take(i - start), radix as int),
            acc as int == digits_value(t.take(i - start), radix as int),
        decreases s.len() - i,
    {
        let c = s[i];
        let d: u32 = if '0' <= c && c <= '9' {
            (c as u32) - ('0' as u32)
        } else if 'a' <= c && c <= 'z' {
            (c as u32) - ('a' as u32) + 10
        } else if 'A' <= c && c <= 'Z' {
            (c as u32) - ('A' as u32) + 10
        } else {
            36
        };
        assert(d as int == digit_value(c));
        assert(t[i - start] == c);
        if d >= radix {
            assert(!all_digits(t, radix as int)) by {
                assert(digit_value(t[i - start]) >= radix);
            }
            return None;
        }
        let ghost k = (i - start) as int;
        assert(t.take(k + 1).drop_last() =~= t.take(k));
        assert(t.take(k + 1).last() == c);
        assert(all_digits(t.take(k + 1), radix as int)) by {
            assert forall|j: int| 0 <= j < k + 1 implies #[trigger] digit_value(t.take(k + 1)[j])
                < radix by {
                if j < k {
                    assert(t.take(k + 1)[j] == t.take(k)[j]);
                }
            }
        }
        assert(acc * (radix as u64) <= 0xffff_ffffu64 * 16) by (nonlinear_arith)
            requires
                acc <= 0xffff_ffffu64,
                radix <= 16,
        ;
        let next: u64 = acc * (radix as u64) + (d as u64);
        assert(next as int == digits_value(t.take(k + 1), radix as int)) by {
            assert(digits_value(t.take(k + 1), radix as int) == radix * digits_value(t.take(k), radix as int) + digit_value(c));
            assert(acc * radix == radix * acc) by (nonlinear_arith);
        }
        if next > max {
            assert(parse_unsigned_spec(s@, radix as int, max as int) is None) by {
                if all_digits(t, radix as int) {
                    lemma_digits_value_prefix(t, k + 1, radix as int);
                }
            }
            return None;
        }
        acc = next;
        i = i + 1;
    }
    assert(t.take(t.len() as int) =~= t);
    Some(acc)
}

/// The ASCII digit for a value below 16, lower-case for 10 to 15.
pub open spec fn digit_char(d: int) -> char {
    if d < 10 {
        ('0' as int + d) as char
    } else {
        ('a' as int + d - 10) as char
    }
}

/// `n` written in the given radix without leading zeros (`0` for zero), lower-case digits.
pub open spec fn radix_string(n: nat, radix: nat) -> Seq<char>
    decreases n,
{
    if radix < 2 || n < radix {
        seq![digit_char(n as int)]
    } else {
        proof {
            assert(n / radix < n) by (nonlinear_arith)
                requires
                    radix >= 2,
                    n >= radix,
            ;
        }
        radix_string(n / radix, radix).push(digit_char((n % radix) as int))
    }
}

/// `n` in decimal, as `Display` writes an unsigned integer.
pub open spec fn dec_string(n: nat) -> Seq<char> {
    radix_string(n, 10)
}

/// `n` in lower-case hexadecimal, as the `{:x}` format writes an unsigned integer.
pub open spec fn hex_string(n: nat) -> Seq<char> {
    radix_string(n, 16)
}

/// The characters of `n` written in the given radix.
pub fn radix_chars(n: u64, radix: u64) -> (res: Vec<char>)
    requires
        radix == 10 || radix == 16,
    ensures
        res@ == radix_string(n as nat, radix as nat),
    decreases n,
{
    let d = n % radix;
    let c: char = if d < 10 {
        ((48 + d) as u8) as char
    } else {
        ((87 + d) as u8) as char
    };
    assert(c == digit_char(d as int));
    if n < radix {
        let mut v: Vec<char> = Vec::new();
        v.push(c);
        assert(n % radix == n) by (nonlinear_arith)
            requires
                n < radix,
        ;
        v
    } else {
        let mut v = radix_chars(n / radix, radix);
        v.push(c);
        v
    }
}

/// `n` in decimal.
pub fn dec_chars(n: u64) -> (res: Vec<char>)
    ensures
        res@ == dec_string(n as nat),
{
    radix_chars(n, 10)
}

} // verus!
