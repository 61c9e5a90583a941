use vstd::prelude::*;
use crate::text::chars_of;

verus! {

/// The UTF-16 code units of one character.
pub open spec fn utf16_units(c: char) -> Seq<u16> {
    let v = c as u32;
    if v < 0x10000 {
        seq![v as u16]
    } else {
        seq![(0xD800 + (v - 0x10000) / 1024) as u16, (0xDC00 + (v - 0x10000) % 1024) as u16]
    }
}

/// The UTF-16 encoding of a text.
pub open spec fn utf16(s: Seq<char>) -> Seq<u16>
    decreases s.len(),
{
    if s.len() == 0 {
        Seq::empty()
    } else {
        utf16(s.drop_last()) + utf16_units(s.last())
    }
}

/// `value` as a NUL-terminated UTF-16 string, the form that Windows API calls take.
pub fn to_wide(value: &str) -> (res: Vec<u16>)
    ensures
        res@ == utf16(value@).push(0u16),
{
    let chars = chars_of(value);
    let mut res: Vec<u16> = Vec::new();
    let mut i: usize = 0;
    while i < chars.len()
        invariant
            i <= chars.len(),
            chars@ == value@,
            res@ == utf16(chars@.take(i as int)),
        decreases chars.len() - i,
    {
        let c = chars[i];
        let v = c as u32;
        assert(chars@.take(i + 1).drop_last() =~= chars@.take(i as int));
        proof {
            vstd::utf8::char_is_scalar(c);
        }
        assert(v <= 0x10FFFF);
        if v < 0x10000 {
            res.push(v as u16);
            assert(res@ =~= utf16(chars@.take(i as int)) + utf16_units(c));
        } else {
            let w = v - 0x10000;
            res.push((0xD800 + w / 1024) as u16);
            res.push((0xDC00 + w % 1024) as u16);
            assert(res@ =~= utf16(chars@.take(i as int)) + utf16_units(c));
        }
        i = i + 1;
    }
    assert(chars@.take(chars.len() as int) =~= chars@);
    res.push(0);
    res
}

/// Text decoded from UTF-16 the way `String::from_utf16_lossy` decodes it.
pub uninterp spec fn utf16_lossy(units: Seq<u16>) -> Seq<char>;

/// `String::from_utf16_lossy`: decodes UTF-16, each unpaired surrogate replaced by U+FFFD.
/// Stated: the result is the named decoding of the units, the UTF-16 encoding of a text
/// decodes back to that text, and units that are no surrogates decode one to one into the
/// characters with those values. Left unsaid: how unpaired surrogates decode.
#[verifier::external_body]
pub(crate) fn from_utf16_lossy(units: &[u16]) -> (res: String)
    ensures
        res@ == utf16_lossy(units@),
        forall|s: Seq<char>| #[trigger] utf16(s) == units@ ==> res@ == s,
        (forall|i: int| 0 <= i < units@.len() ==> !(0xD800 <= #[trigger] units@[i] <= 0xDFFF)) ==> res@
            == units@.map_values(|u: u16| u as char),
{
    String::from_utf16_lossy(units)
}

/// The units before the first NUL (all of them when there is none).
pub open spec fn before_nul(units: Seq<u16>) -> Seq<u16> {
    if exists|i: int| 0 <= i < units.len() && units[i] == 0 {
        let i = choose|i: int| 0 <= i < units.len() && units[i] == 0 && forall|j: int| 0 <= j < i ==> units[j] != 0;
        units.take(i)
    } else {
        units
    }
}

/// No unit of the UTF-16 encoding of a text without NUL characters is zero.
proof fn lemma_utf16_no_zero(s: Seq<char>)
    requires
        forall|i: int| 0 <= i < s.len() ==> s[i] != '\0',
    ensures
        forall|k: int| 0 <= k < utf16(s).len() ==> #[trigger] utf16(s)[k] != 0u16,
    decreases s.len(),
{
    if s.len() > 0 {
        lemma_utf16_no_zero(s.drop_last());
        let c = s.last();
        vstd::utf8::char_is_scalar(c);
        let prefix = utf16(s.drop_last());
        assert forall|k: int| 0 <= k < utf16(s).len() implies #[trigger] utf16(s)[k] != 0u16 by {
            if k < prefix.len() {
                assert(utf16(s)[k] == prefix[k]);
            } else {
                assert(utf16(s)[k] == utf16_units(c)[k - prefix.len()]);
                let v = c as u32;
                assert(v != 0) by {
                    if v == 0 {
                        vstd::utf8::char_u32_cast(c, v);
                        assert(c == (0u32 as char));
                    }
                }
                assert(v <= 0x10FFFF);
                if v >= 0x10000 {
                    assert((v - 0x10000) / 1024 < 0x400) by (nonlinear_arith)
                        requires
                            0 <= v - 0x10000 <= 0xFFFFF;
                }
            }
        }
    }
}

/// The text of a NUL-terminated UTF-16 buffer as Windows fills it: the units up to the first
/// NUL, decoded with unpaired surrogates replaced. A text without NUL characters, encoded as
/// `to_wide` encodes it, comes back unchanged.
pub fn wide_to_string(value: &[u16]) -> (res: String)
    ensures
        res@ == utf16_lossy(before_nul(value@)),
        forall|s: Seq<char>|
            (forall|i: int| 0 <= i < s.len() ==> s[i] != '\0') && value@ == #[trigger] utf16(s).push(0u16)
                ==> res@ == s,
{
    let mut len: usize = 0;
    while len < value.len() && value[len] != 0
        invariant
            len <= value.len(),
            forall|j: int| 0 <= j < len ==> value@[j] != 0,
        decreases value.len() - len,
    {
        len = len + 1;
    }
    proof {
        if len < value.len() {
            let i = choose|i: int| 0 <= i < value@.len() && value@[i] == 0 && forall|j: int| 0 <= j < i ==> value@[j] != 0;
            assert(i == len as int) by {
                if i < len {
                } else if i > len {
                    assert(value@[len as int] == 0);
                }
            }
        } else {
            assert(value@.take(len as int) =~= value@);
        }
    }
    let res = from_utf16_lossy(&value[0..len]);
    proof {
        assert forall|s: Seq<char>|
            (forall|i: int| 0 <= i < s.len() ==> s[i] != '\0') && value@ == #[trigger] utf16(s).push(0u16)
                implies res@ == s by {
            lemma_utf16_no_zero(s);
            let n = utf16(s).len() as int;
            assert(value@[n] == 0u16);
            if len < n {
                assert(value@[len as int] == utf16(s)[len as int]);
            }
            assert(len == n);
            assert(value@.subrange(0, len as int) =~= utf16(s));
        }
    }
    res
}

} // verus!
