use vstd::prelude::*;
use crate::numbers::{all_digits, dec_string, digit_char, digit_value, digits_value, parse_unsigned, parse_unsigned_spec, radix_string, without_plus};
use crate::text::{append_chars, contains, find, is_first_occurrence, is_last_index, occurs_at, chars_of, rsplit_once, rsplit_once_at, split_once, split_once_at, string_of};

verus! {

/// The port that the text `v` names: none for `*`, else the decimal number if it fits a `u16`.
pub open spec fn port_spec(v: Seq<char>) -> Option<u16> {
    if v == seq!['*'] {
        None
    } else {
        match parse_unsigned_spec(v, 10, 65535) {
            Some(n) => Some(n as u16),
            None => None,
        }
    }
}

/// The address and port that the endpoint text `v` names.
/// `*` and `*:*` are the wildcard; `[address]:port` is a bracketed IPv6 endpoint;
/// otherwise the port follows the last `:`, and text without `:` is an address without port.
pub open spec fn endpoint_spec(v: Seq<char>) -> (Seq<char>, Option<u16>) {
    if v == seq!['*'] || v == seq!['*', ':', '*'] {
        (seq!['*'], None)
    } else if v.len() > 0 && v[0] == '[' && split_once(v.drop_first(), seq![']', ':']) is Some {
        let (address, port) = split_once(v.drop_first(), seq![']', ':']).unwrap();
        (address, port_spec(port))
    } else {
        match rsplit_once(v, ':') {
            Some((address, port)) => (address, port_spec(port)),
            None => (v, None),
        }
    }
}

pub fn parse_port_chars(value: &[char]) -> (res: Option<u16>)
    ensures
        res == port_spec(value@),
{
    if value.len() == 1 && value[0] == '*' {
        assert(value@ =~= seq!['*']);
        return None;
    }
    assert(value@ != seq!['*']) by {
        if value@ == seq!['*'] {
            assert(value@[0] == '*');
        }
    }
    match parse_unsigned(value, 10, 65535) {
        Some(n) => Some(n as u16),
        None => None,
    }
}

/// The port number in `value`: `None` for `*` and for text that is not a decimal `u16`
/// (an optional `+` and at least one digit, as `str::parse::<u16>` accepts).
pub fn parse_port(value: &str) -> (res: Option<u16>)
    ensures
        res == port_spec(value@),
{
    let chars = chars_of(value);
    parse_port_chars(chars.as_slice())
}

pub fn parse_endpoint_chars(value: &[char]) -> (res: (Vec<char>, Option<u16>))
    ensures
        (res.0@, res.1) == endpoint_spec(value@),
{
    let star: [char; 1] = ['*'];
    let star_any: [char; 3] = ['*', ':', '*'];
    let close: [char; 2] = [']', ':'];
    let is_star = value.len() == 1 && value[0] == '*';
    let is_star_any = value.len() == 3 && value[0] == '*' && value[1] == ':' && value[2] == '*';
    if is_star || is_star_any {
        proof {
            if is_star {
                assert(value@ =~= seq!['*']);
            } else {
                assert(value@ =~= seq!['*', ':', '*']);
            }
        }
        let mut a: Vec<char> = Vec::new();
        a.push('*');
        assert(a@ =~= seq!['*']);
        return (a, None);
    }
    assert(!(value@ == seq!['*'] || value@ == seq!['*', ':', '*'])) by {
        if value@ == seq!['*'] {
            assert(value@[0] == '*');
        }
        if value@ == seq!['*', ':', '*'] {
            assert(value@[0] == '*' && value@[1] == ':' && value@[2] == '*');
        }
    }
    assert(close@ =~= seq![']', ':']);
    if value.len() > 0 && value[0] == '[' {
        let rest = &value[1..value.len()];
        assert(rest@ =~= value@.drop_first());
        match split_once_at(rest, &close) {
            Some((address, port)) => {
                let p = parse_port_chars(port.as_slice());
                return (address, p);
            },
            None => {},
        }
    }
    match rsplit_once_at(value, ':') {
        Some((address, port)) => {
            let p = parse_port_chars(port.as_slice());
            (address, p)
        },
        None => {
            let mut a: Vec<char> = Vec::new();
            append_chars(&mut a, value);
            (a, None)
        },
    }
}

/// Splits endpoint text as the platform tools print it into an address and a port:
/// `*` and `*:*` give `("*", None)`, `[address]:port` gives the address without brackets,
/// and otherwise the port follows the last `:`; a port that is `*` or not a number is `None`.
pub fn parse_endpoint(value: &str) -> (res: (String, Option<u16>))
    ensures
        (res.0@, res.1) == endpoint_spec(value@),
{
    let chars = chars_of(value);
    let (address, port) = parse_endpoint_chars(chars.as_slice());
    (string_of(address.as_slice()), port)
}


/// Decimal text of a number consists of digits, starts with a digit, and reads back as it.
pub proof fn lemma_dec_string(n: nat)
    ensures
        dec_string(n).len() > 0,
        all_digits(dec_string(n), 10),
        digits_value(dec_string(n), 10) == n,
        forall|i: int| 0 <= i < dec_string(n).len() ==> '0' <= #[trigger] dec_string(n)[i] <= '9',
    decreases n,
{
    reveal_with_fuel(radix_string, 2);
    if n < 10 {
        let s = dec_string(n);
        assert(s == seq![digit_char(n as int)]);
        assert(s.drop_last() =~= Seq::<char>::empty());
        assert(digit_value(digit_char(n as int)) == n);
        assert(digits_value(s, 10) == 10 * digits_value(s.drop_last(), 10) + digit_value(s.last()));
    } else {
        assert(n / 10 < n);
        lemma_dec_string(n / 10);
        let prefix = dec_string(n / 10);
        let s = dec_string(n);
        let d = (n % 10) as int;
        assert(s == prefix.push(digit_char(d)));
        assert(s.drop_last() =~= prefix);
        assert(digit_value(digit_char(d)) == d);
        assert forall|i: int| 0 <= i < s.len() implies '0' <= #[trigger] s[i] <= '9' by {
            if i < prefix.len() {
                assert(s[i] == prefix[i]);
            }
        }
        assert(all_digits(s, 10)) by {
            assert forall|i: int| 0 <= i < s.len() implies #[trigger] digit_value(s[i]) < 10 by {
                if i < prefix.len() {
                    assert(s[i] == prefix[i]);
                }
            }
        }
        assert(10 * (n / 10) + n % 10 == n);
        assert(digits_value(s, 10) == 10 * digits_value(s.drop_last(), 10) + digit_value(s.last()));
    }
}

/// Law: the decimal text of a port reads back as that port.
pub proof fn law_port_round_trip(p: u16)
    ensures
        port_spec(dec_string(p as nat)) == Some(p),
{
    lemma_dec_string(p as nat);
    let s = dec_string(p as nat);
    assert(s[0] != '+');
    assert(without_plus(s) == s);
    assert(s != seq!['*']) by {
        if s == seq!['*'] {
            assert(s[0] == '*');
        }
    }
}

/// Law: an endpoint written as `address:port`, with an address that does not open with `[`,
/// reads back as that address and port, whatever colons the address holds.
pub proof fn law_endpoint_round_trip(address: Seq<char>, p: u16)
    requires
        !(address.len() > 0 && address[0] == '['),
    ensures
        endpoint_spec(address + seq![':'] + dec_string(p as nat)) == (address, Some(p)),
{
    let d = dec_string(p as nat);
    let v = address + seq![':'] + d;
    law_port_round_trip(p);
    lemma_dec_string(p as nat);
    let k = address.len() as int;
    assert(v[k] == ':');
    assert(v != seq!['*'] && v != seq!['*', ':', '*']) by {
        if v == seq!['*'] {
            assert(v.len() == 1);
        }
        if v == seq!['*', ':', '*'] {
            assert(v[2] == d[v.len() - k - 2]);
        }
    }
    assert(!(v.len() > 0 && v[0] == '[')) by {
        if k > 0 {
            assert(v[0] == address[0]);
        }
    }
    assert(is_last_index(v, ':', k)) by {
        assert forall|j: int| k < j < v.len() implies v[j] != ':' by {
            assert(v[j] == d[j - k - 1]);
        }
    }
    let m = choose|m: int| is_last_index(v, ':', m);
    assert(m == k) by {
        if m < k {
            assert(v[k] == ':');
        } else if m > k {
            assert(v[m] == ':');
        }
    }
    assert(v.take(k) =~= address);
    assert(v.skip(k + 1) =~= d);
}

/// Law: an endpoint written as `[address]:port` reads back as that address and port,
/// for any address that does not itself hold `]:`.
pub proof fn law_bracketed_endpoint_round_trip(address: Seq<char>, p: u16)
    requires
        !contains(address, seq![']', ':']),
    ensures
        endpoint_spec(seq!['['] + address + seq![']', ':'] + dec_string(p as nat)) == (
            address,
            Some(p),
        ),
{
    let d = dec_string(p as nat);
    let close = seq![']', ':'];
    let v = seq!['['] + address + close + d;
    let rest = address + close + d;
    law_port_round_trip(p);
    let k = address.len() as int;
    assert(v.drop_first() =~= rest);
    assert(v[0] == '[');
    assert(v != seq!['*'] && v != seq!['*', ':', '*']) by {
        if v == seq!['*'] || v == seq!['*', ':', '*'] {
            assert(v[0] == '*');
        }
    }
    assert(rest.subrange(k, k + 2) =~= close);
    assert(is_first_occurrence(rest, close, k)) by {
        assert forall|j: int| 0 <= j < k implies !occurs_at(rest, close, j) by {
            if occurs_at(rest, close, j) {
                assert(rest.subrange(j, j + 2)[0] == ']');
                assert(rest.subrange(j, j + 2)[1] == ':');
                if j + 1 < k {
                    assert(address.subrange(j, j + 2) =~= close);
                    assert(occurs_at(address, close, j));
                } else {
                    assert(rest[j + 1] == ']');
                }
            }
        }
    }
    let m = choose|m: int| is_first_occurrence(rest, close, m);
    assert(m == k) by {
        if m < k {
        } else if m > k {
        }
    }
    assert(find(rest, close) == Some(k));
    assert(rest.take(k) =~= address);
    assert(rest.skip(k + 2) =~= d);
}

} // verus!
