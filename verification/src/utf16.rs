//! Text in UTF-16 as the inspected process holds it: names that are filled
//! up with zeros.

use vstd::prelude::*;

verus! {

/// `char::from_u32` of the standard library gives the character with the
/// given code where the code is a scalar value, `None` for the codes of
/// surrogates and for those beyond the last code point.
pub assume_specification[ char::from_u32 ](code: u32) -> (r: Option<char>)
    ensures
        is_scalar(code as int) ==> r == Some(code as char),
        !is_scalar(code as int) ==> r is None,
;

/// Whether a code is that of a character: a code point that is no surrogate.
pub open spec fn is_scalar(code: int) -> bool {
    0 <= code <= 0xD7FF || 0xE000 <= code <= 0x10FFFF
}

/// Whether a UTF-16 unit is half of a surrogate pair.
pub open spec fn is_surrogate(unit: u16) -> bool {
    0xD800 <= unit <= 0xDFFF
}

/// Whether two UTF-16 units are a surrogate pair: a high half, then a low half.
pub open spec fn is_pair(high: u16, low: u16) -> bool {
    0xD800 <= high <= 0xDBFF && 0xDC00 <= low <= 0xDFFF
}

/// The character that a surrogate pair stands for.
pub open spec fn pair_char(high: u16, low: u16) -> char {
    (0x10000 + (high - 0xD800) * 0x400 + (low - 0xDC00)) as char
}

/// The text that UTF-16 units stand for, with U+FFFD in place of each
/// surrogate that is not part of a pair.
pub open spec fn utf16_lossy(units: Seq<u16>) -> Seq<char>
    decreases units.len(),
{
    if units.len() == 0 {
        Seq::empty()
    } else if !is_surrogate(units[0]) {
        seq![units[0] as char] + utf16_lossy(units.skip(1))
    } else if units.len() >= 2 && is_pair(units[0], units[1]) {
        seq![pair_char(units[0], units[1])] + utf16_lossy(units.skip(2))
    } else {
        seq!['\u{FFFD}'] + utf16_lossy(units.skip(1))
    }
}

/// The number of zero characters that a text begins with.
pub open spec fn leading_nuls(s: Seq<char>) -> nat
    decreases s.len(),
{
    if s.len() == 0 || s[0] != '\0' {
        0
    } else {
        1 + leading_nuls(s.skip(1))
    }
}

/// The number of zero characters that a text ends with.
pub open spec fn trailing_nuls(s: Seq<char>) -> nat
    decreases s.len(),
{
    if s.len() == 0 || s.last() != '\0' {
        0
    } else {
        1 + trailing_nuls(s.drop_last())
    }
}

/// The text without the zero characters at its beginning and at its end.
pub open spec fn trimmed(s: Seq<char>) -> Seq<char> {
    if leading_nuls(s) + trailing_nuls(s) >= s.len() {
        Seq::empty()
    } else {
        s.subrange(leading_nuls(s) as int, s.len() - trailing_nuls(s))
    }
}

/// Reads UTF-16 units as text, with U+FFFD in place of each surrogate that
/// is not part of a pair.
pub fn decode_utf16_lossy(units: &[u16]) -> (chars: Vec<char>)
    ensures
        chars@ == utf16_lossy(units@),
{
    let mut chars: Vec<char> = Vec::new();
    let n = units.len();
    let mut i: usize = 0;
    assert(units@.skip(0) =~= units@);
    assert(chars@ + utf16_lossy(units@) =~= utf16_lossy(units@));
    while i < n
        invariant
            n == units@.len(),
            i <= n,
            utf16_lossy(units@) == chars@ + utf16_lossy(units@.skip(i as int)),
        decreases n - i,
    {
        let ghost before = chars@;
        let ghost rest = units@.skip(i as int);
        let unit = units[i];
        assert(rest[0] == unit);
        assert(rest.skip(1) =~= units@.skip(i + 1));
        if unit < 0xD800 || unit > 0xDFFF {
            let c = match char::from_u32(unit as u32) {
                Some(c) => c,
                None => '\u{FFFD}',
            };
            chars.push(c);
            i += 1;
            assert(chars@ + utf16_lossy(units@.skip(i as int)) =~= before + utf16_lossy(rest));
        } else if unit <= 0xDBFF && i + 1 < n && 0xDC00 <= units[i + 1] && units[i + 1] <= 0xDFFF {
            let low = units[i + 1];
            assert(rest[1] == low);
            assert(rest.skip(2) =~= units@.skip(i + 2));
            let code: u32 = 0x10000 + (unit as u32 - 0xD800) * 0x400 + (low as u32 - 0xDC00);
            let c = match char::from_u32(code) {
                Some(c) => c,
                None => '\u{FFFD}',
            };
            chars.push(c);
            i += 2;
            assert(chars@ + utf16_lossy(units@.skip(i as int)) =~= before + utf16_lossy(rest));
        } else {
            if i + 1 < n {
                assert(rest[1] == units@[i + 1]);
            }
            chars.push('\u{FFFD}');
            i += 1;
            assert(chars@ + utf16_lossy(units@.skip(i as int)) =~= before + utf16_lossy(rest));
        }
    }
    assert(units@.skip(n as int) =~= Seq::<u16>::empty());
    assert(chars@ + Seq::<char>::empty() =~= chars@);
    chars
}

/// The zero characters at the beginning of a text are zero, and the
/// character behind them is not.
pub proof fn lemma_leading_nuls(s: Seq<char>)
    ensures
        leading_nuls(s) <= s.len(),
        forall|k: int| 0 <= k < leading_nuls(s) ==> s[k] == '\0',
        leading_nuls(s) < s.len() ==> s[leading_nuls(s) as int] != '\0',
    decreases s.len(),
{
    if s.len() > 0 && s[0] == '\0' {
        let rest = s.skip(1);
        lemma_leading_nuls(rest);
        assert forall|k: int| 0 <= k < leading_nuls(s) implies s[k] == '\0' by {
            if k > 0 {
                assert(s[k] == rest[k - 1]);
            }
        }
        if leading_nuls(s) < s.len() {
            assert(s[leading_nuls(s) as int] == rest[leading_nuls(rest) as int]);
        }
    }
}

/// The zero characters at the end of a text are zero, and the character
/// before them is not.
pub proof fn lemma_trailing_nuls(s: Seq<char>)
    ensures
        trailing_nuls(s) <= s.len(),
        forall|k: int| s.len() - trailing_nuls(s) <= k < s.len() ==> s[k] == '\0',
        trailing_nuls(s) < s.len() ==> s[s.len() - trailing_nuls(s) - 1] != '\0',
    decreases s.len(),
{
    if s.len() > 0 && s.last() == '\0' {
        let rest = s.drop_last();
        lemma_trailing_nuls(rest);
        assert forall|k: int| s.len() - trailing_nuls(s) <= k < s.len() implies s[k] == '\0' by {
            if k < s.len() - 1 {
                assert(s[k] == rest[k]);
            }
        }
        if trailing_nuls(s) < s.len() {
            assert(s[s.len() - trailing_nuls(s) - 1] == rest[rest.len() - trailing_nuls(rest) - 1]);
        }
    }
}

/// The text of characters without the zero characters at its beginning and at its end.
pub fn trim_nuls(chars: &[char]) -> (text: String)
    ensures
        text@ == trimmed(chars@),
{
    let n = chars.len();
    proof {
        lemma_leading_nuls(chars@);
        lemma_trailing_nuls(chars@);
    }
    let mut from: usize = 0;
    while from < n && chars[from] == '\0'
        invariant
            n == chars@.len(),
            from <= n,
            from <= leading_nuls(chars@) <= n,
            forall|k: int| 0 <= k < leading_nuls(chars@) ==> chars@[k] == '\0',
            leading_nuls(chars@) < n ==> chars@[leading_nuls(chars@) as int] != '\0',
        decreases n - from,
    {
        from += 1;
    }
    assert(from == leading_nuls(chars@));
    let mut to: usize = n;
    while to > from && chars[to - 1] == '\0'
        invariant
            n == chars@.len(),
            from <= to <= n,
            from == leading_nuls(chars@),
            n - to <= trailing_nuls(chars@) <= n,
            from < n ==> chars@[from as int] != '\0',
            forall|k: int| n - trailing_nuls(chars@) <= k < n ==> chars@[k] == '\0',
            trailing_nuls(chars@) < n ==> chars@[n - trailing_nuls(chars@) - 1] != '\0',
        decreases to,
    {
        to -= 1;
    }
    proof {
        if to > from {
            assert(n - to == trailing_nuls(chars@));
        } else {
            assert(leading_nuls(chars@) + trailing_nuls(chars@) >= n) by {
                if from < n {
                    assert(n - trailing_nuls(chars@) > from);
                    assert(false);
                }
            }
        }
    }
    let mut text = String::new();
    let mut i: usize = from;
    assert(chars@.subrange(from as int, from as int) =~= Seq::<char>::empty());
    while i < to
        invariant
            from <= i <= to <= chars@.len(),
            text@ == chars@.subrange(from as int, i as int),
        decreases to - i,
    {
        text.push(chars[i]);
        i += 1;
        assert(text@ =~= chars@.subrange(from as int, i as int));
    }
    assert(text@ =~= trimmed(chars@));
    text
}

/// Whether UTF-16 units hold no surrogate that is not part of a pair.
pub open spec fn well_formed(units: Seq<u16>) -> bool
    decreases units.len(),
{
    if units.len() == 0 {
        true
    } else if !is_surrogate(units[0]) {
        well_formed(units.skip(1))
    } else if units.len() >= 2 && is_pair(units[0], units[1]) {
        well_formed(units.skip(2))
    } else {
        false
    }
}

/// Reads UTF-16 units as text; `None` where a surrogate is not part of a pair.
pub fn decode_utf16(units: &[u16]) -> (r: Option<Vec<char>>)
    ensures
        well_formed(units@) ==> r is Some && r->0@ == utf16_lossy(units@),
        !well_formed(units@) ==> r is None,
{
    let mut chars: Vec<char> = Vec::new();
    let n = units.len();
    let mut i: usize = 0;
    assert(units@.skip(0) =~= units@);
    assert(chars@ + utf16_lossy(units@) =~= utf16_lossy(units@));
    while i < n
        invariant
            n == units@.len(),
            i <= n,
            utf16_lossy(units@) == chars@ + utf16_lossy(units@.skip(i as int)),
            well_formed(units@) == well_formed(units@.skip(i as int)),
        decreases n - i,
    {
        let ghost before = chars@;
        let ghost rest = units@.skip(i as int);
        let unit = units[i];
        assert(rest[0] == unit);
        assert(rest.skip(1) =~= units@.skip(i + 1));
        if unit < 0xD800 || unit > 0xDFFF {
            match char::from_u32(unit as u32) {
                Some(c) => {
                    chars.push(c);
                },
                None => {
                    return None;
                },
            }
            i += 1;
            assert(chars@ + utf16_lossy(units@.skip(i as int)) =~= before + utf16_lossy(rest));
        } else if unit <= 0xDBFF && i + 1 < n && 0xDC00 <= units[i + 1] && units[i + 1] <= 0xDFFF {
            let low = units[i + 1];
            assert(rest[1] == low);
            assert(rest.skip(2) =~= units@.skip(i + 2));
            let code: u32 = 0x10000 + (unit as u32 - 0xD800) * 0x400 + (low as u32 - 0xDC00);
            match char::from_u32(code) {
                Some(c) => {
                    chars.push(c);
                },
                None => {
                    return None;
                },
            }
            i += 2;
            assert(chars@ + utf16_lossy(units@.skip(i as int)) =~= before + utf16_lossy(rest));
        } else {
            if i + 1 < n {
                assert(rest[1] == units@[i + 1]);
            }
            return None;
        }
    }
    assert(units@.skip(n as int) =~= Seq::<u16>::empty());
    assert(chars@ + Seq::<char>::empty() =~= chars@);
    Some(chars)
}

/// Whether `needle` lies somewhere in `text`.
pub open spec fn occurs_in(needle: Seq<char>, text: Seq<char>) -> bool {
    exists|i: int|
        0 <= i && i + needle.len() <= text.len() && #[trigger] text.subrange(
            i,
            i + needle.len(),
        ) == needle
}

/// Tells whether `needle` lies somewhere in `text`.
pub fn contains_text(text: &[char], needle: &[char]) -> (r: bool)
    ensures
        r == occurs_in(needle@, text@),
{
    let n = text.len();
    let m = needle.len();
    if m > n {
        return false;
    }
    let mut i: usize = 0;
    while i <= n - m
        invariant
            n == text@.len(),
            m == needle@.len(),
            m <= n,
            i <= n - m + 1,
            forall|k: int| 0 <= k < i ==> #[trigger] text@.subrange(k, k + m) != needle@,
        decreases n - m + 1 - i,
    {
        let mut j: usize = 0;
        while j < m && text[i + j] == needle[j]
            invariant
                n == text@.len(),
                m == needle@.len(),
                i + m <= n,
                j <= m,
                forall|k: int| 0 <= k < j ==> text@[i + k] == needle@[k],
            decreases m - j,
        {
            j += 1;
        }
        if j == m {
            assert(text@.subrange(i as int, i + m) =~= needle@);
            return true;
        }
        assert(text@.subrange(i as int, i + m) != needle@) by {
            assert(text@.subrange(i as int, i + m)[j as int] == text@[i + j]);
        }
        i += 1;
    }
    false
}

} // verus!
