//! The textual form of patterns: tokens of two characters, separated by
//! white space, each either two hex digits or the wildcard `??`.

use crate::error::ProcessError;
use crate::pattern::Pattern;
use vstd::prelude::*;
use vstd::string::*;

verus! {

/// Whether a character is white space: the code points that Unicode marks so.
pub open spec fn is_space(c: char) -> bool {
    let v = c as u32;
    ||| 0x09 <= v <= 0x0D
    ||| v == 0x20
    ||| v == 0x85
    ||| v == 0xA0
    ||| v == 0x1680
    ||| 0x2000 <= v <= 0x200A
    ||| v == 0x2028
    ||| v == 0x2029
    ||| v == 0x202F
    ||| v == 0x205F
    ||| v == 0x3000
}

/// The number of bytes that a character takes in UTF-8.
pub open spec fn utf8_width(c: char) -> nat {
    let v = c as u32;
    if v < 0x80 {
        1
    } else if v < 0x800 {
        2
    } else if v < 0x10000 {
        3
    } else {
        4
    }
}

/// The number of bytes that a run of characters takes in UTF-8.
pub open spec fn byte_len(t: Seq<char>) -> nat
    decreases t.len(),
{
    if t.len() == 0 {
        0
    } else {
        byte_len(t.drop_last()) + utf8_width(t.last())
    }
}

/// The value of a hex digit of either case; `None` for any other character.
pub open spec fn hex_value(c: char) -> Option<u8> {
    let v = c as u32;
    if 0x30 <= v <= 0x39 {
        Some((v - 0x30) as u8)
    } else if 0x41 <= v <= 0x46 {
        Some((v - 0x41 + 10) as u8)
    } else if 0x61 <= v <= 0x66 {
        Some((v - 0x61 + 10) as u8)
    } else {
        None
    }
}

/// What one token stands for. A token that is not two bytes long is no
/// token of a pattern; one of two bytes is the wildcard `??`, or two hex digits,
/// or else a malformed hex string.
pub open spec fn parse_token(t: Seq<char>) -> Result<Option<u8>, ProcessError> {
    if byte_len(t) != 2 {
        Err(ProcessError::InvalidPattern)
    } else if t.len() == 2 && t[0] == '?' && t[1] == '?' {
        Ok(None)
    } else if t.len() == 2 && hex_value(t[0]) is Some && hex_value(t[1]) is Some {
        Ok(Some((16 * hex_value(t[0])->0 + hex_value(t[1])->0) as u8))
    } else {
        Err(ProcessError::InvalidHexString)
    }
}

/// The length of the run of characters other than white space that `s` begins with.
pub open spec fn word_len(s: Seq<char>) -> nat
    decreases s.len(),
{
    if s.len() == 0 || is_space(s[0]) {
        0
    } else {
        1 + word_len(s.drop_first())
    }
}

/// A word is no longer than the text it begins, and not empty where the text
/// begins with a character other than white space.
pub proof fn lemma_word_len(s: Seq<char>)
    ensures
        word_len(s) <= s.len(),
        s.len() > 0 && !is_space(s[0]) ==> word_len(s) >= 1,
        forall|k: int| 0 <= k < word_len(s) ==> !is_space(#[trigger] s[k]),
        word_len(s) < s.len() ==> is_space(s[word_len(s) as int]),
    decreases s.len(),
{
    if s.len() > 0 && !is_space(s[0]) {
        lemma_word_len(s.drop_first());
        assert forall|k: int| 0 <= k < word_len(s) implies !is_space(#[trigger] s[k]) by {
            if k > 0 {
                assert(s[k] == s.drop_first()[k - 1]);
            }
        }
        if word_len(s) < s.len() {
            assert(s[word_len(s) as int] == s.drop_first()[word_len(s) - 1]);
        }
    }
}

/// What a textual pattern stands for: its tokens are the maximal runs of
/// characters other than white space, read from left to right; the first
/// token that is malformed decides the error.
pub open spec fn parse_spec(s: Seq<char>) -> Result<Seq<Option<u8>>, ProcessError>
    decreases s.len(),
{
    if s.len() == 0 {
        Ok(Seq::empty())
    } else if is_space(s[0]) {
        parse_spec(s.drop_first())
    } else {
        let n = word_len(s) as int;
        proof {
            lemma_word_len(s);
        }
        match parse_token(s.take(n)) {
            Err(e) => Err(e),
            Ok(spec) => match parse_spec(s.skip(n)) {
                Err(e) => Err(e),
                Ok(rest) => Ok(seq![spec] + rest),
            },
        }
    }
}

/// The specifiers read so far, followed by what the rest of the text stands for.
pub open spec fn continued(
    done: Seq<Option<u8>>,
    rest: Result<Seq<Option<u8>>, ProcessError>,
) -> Result<Seq<Option<u8>>, ProcessError> {
    match rest {
        Ok(specs) => Ok(done + specs),
        Err(e) => Err(e),
    }
}

/// Tells whether a character is white space.
pub fn is_space_char(c: char) -> (r: bool)
    ensures
        r == is_space(c),
{
    let v: u32 = c as u32;
    (0x09 <= v && v <= 0x0D) || v == 0x20 || v == 0x85 || v == 0xA0 || v == 0x1680 || (0x2000 <= v
        && v <= 0x200A) || v == 0x2028 || v == 0x2029 || v == 0x202F || v == 0x205F || v == 0x3000
}

/// The number of bytes of a character in UTF-8.
pub fn utf8_width_of(c: char) -> (r: usize)
    ensures
        r == utf8_width(c),
{
    let v: u32 = c as u32;
    if v < 0x80 {
        1
    } else if v < 0x800 {
        2
    } else if v < 0x10000 {
        3
    } else {
        4
    }
}

/// The value of a hex digit of either case.
pub fn hex_value_of(c: char) -> (r: Option<u8>)
    ensures
        r == hex_value(c),
{
    let v: u32 = c as u32;
    if 0x30 <= v && v <= 0x39 {
        Some((v - 0x30) as u8)
    } else if 0x41 <= v && v <= 0x46 {
        Some((v - 0x41 + 10) as u8)
    } else if 0x61 <= v && v <= 0x66 {
        Some((v - 0x61 + 10) as u8)
    } else {
        None
    }
}

/// The characters of a string, in order.
pub fn chars_of(s: &str) -> (v: Vec<char>)
    ensures
        v@ == s@,
{
    let mut v: Vec<char> = Vec::new();
    for c in it: s.chars()
        invariant
            it.seq() == s@,
            v@ == s@.take(it.index() as int),
    {
        v.push(c);
        assert(v@ =~= s@.take(it.index() + 1));
    }
    assert(s@.take(s@.len() as int) =~= s@);
    v
}

/// A run of one or two characters takes as many bytes as its characters' widths add up to.
proof fn lemma_byte_len_short(t: Seq<char>)
    ensures
        t.len() == 0 ==> byte_len(t) == 0,
        t.len() == 1 ==> byte_len(t) == utf8_width(t[0]),
        t.len() == 2 ==> byte_len(t) == utf8_width(t[0]) + utf8_width(t[1]),
        byte_len(t) >= t.len(),
    decreases t.len(),
{
    if t.len() > 0 {
        lemma_byte_len_short(t.drop_last());
        if t.len() == 2 {
            assert(t.drop_last()[0] == t[0]);
        }
    }
}

/// Reads one token that is already cut out of the text.
pub fn parse_word(word: &[char]) -> (r: Result<Option<u8>, ProcessError>)
    ensures
        r == parse_token(word@),
{
    proof {
        lemma_byte_len_short(word@);
    }
    if word.len() == 1 {
        if utf8_width_of(word[0]) == 2 {
            Err(ProcessError::InvalidHexString)
        } else {
            Err(ProcessError::InvalidPattern)
        }
    } else if word.len() == 2 {
        if utf8_width_of(word[0]) != 1 || utf8_width_of(word[1]) != 1 {
            Err(ProcessError::InvalidPattern)
        } else if word[0] == '?' && word[1] == '?' {
            Ok(None)
        } else {
            match (hex_value_of(word[0]), hex_value_of(word[1])) {
                (Some(high), Some(low)) => Ok(Some(16 * high + low)),
                _ => Err(ProcessError::InvalidHexString),
            }
        }
    } else {
        Err(ProcessError::InvalidPattern)
    }
}

impl Pattern {
    /// Reads a textual pattern.
    pub fn parse(text: &str) -> (r: Result<Pattern, ProcessError>)
        ensures
            match parse_spec(text@) {
                Ok(specs) => r is Ok && r->Ok_0@ == specs,
                Err(e) => r is Err && r->Err_0 == e,
            },
    {
        let chars = chars_of(text);
        let n = chars.len();
        let mut specs: Vec<Option<u8>> = Vec::new();
        let mut i: usize = 0;
        assert(chars@.skip(0) =~= chars@);
        assert(continued(specs@, parse_spec(chars@)) == parse_spec(chars@)) by {
            match parse_spec(chars@) {
                Ok(all) => assert(specs@ + all =~= all),
                Err(_) => {},
            }
        }
        while i < n
            invariant
                n == chars@.len(),
                chars@ == text@,
                i <= n,
                parse_spec(chars@) == continued(specs@, parse_spec(chars@.skip(i as int))),
            decreases n - i,
        {
            let ghost rest = chars@.skip(i as int);
            if is_space_char(chars[i]) {
                assert(rest.drop_first() =~= chars@.skip(i + 1));
                i += 1;
            } else {
                let mut end: usize = i + 1;
                while end < n && !is_space_char(chars[end])
                    invariant
                        n == chars@.len(),
                        i < end <= n,
                        rest == chars@.skip(i as int),
                        forall|k: int| i <= k < end ==> !is_space(#[trigger] chars@[k]),
                    decreases n - end,
                {
                    end += 1;
                }
                proof {
                    lemma_word_len(rest);
                    let w = word_len(rest) as int;
                    if w < end - i {
                        assert(rest[w] == chars@[i + w]);
                    }
                    if w > end - i {
                        assert(rest[end - i] == chars@[end as int]);
                    }
                    assert(w == end - i);
                    assert(rest.take(w) =~= chars@.subrange(i as int, end as int));
                    assert(rest.skip(w) =~= chars@.skip(end as int));
                }
                let word = vstd::slice::slice_subrange(chars.as_slice(), i, end);
                match parse_word(word) {
                    Err(e) => {
                        return Err(e);
                    },
                    Ok(spec) => {
                        proof {
                            match parse_spec(chars@.skip(end as int)) {
                                Ok(tail) => {
                                    assert(specs@.push(spec) + tail =~= specs@ + (seq![spec]
                                        + tail));
                                },
                                Err(_) => {},
                            }
                        }
                        specs.push(spec);
                    },
                }
                i = end;
            }
        }
        proof {
            assert(chars@.skip(i as int) =~= Seq::<char>::empty());
            assert(specs@ + Seq::<Option<u8>>::empty() =~= specs@);
        }
        Ok(Pattern { specs })
    }
}

/// The upper-case hex digit for a value below 16.
pub open spec fn hex_digit(n: int) -> char {
    if n < 10 {
        (0x30 + n) as char
    } else {
        (0x41 + n - 10) as char
    }
}

/// The two upper-case hex digits of a byte, the high one first.
pub open spec fn hex_pair(b: u8) -> Seq<char> {
    seq![hex_digit(b as int / 16), hex_digit(b as int % 16)]
}

/// The textual pattern for a run of bytes: their hex pairs, with one space between neighbours.
pub open spec fn render_spec(bytes: Seq<u8>) -> Seq<char>
    decreases bytes.len(),
{
    if bytes.len() == 0 {
        Seq::empty()
    } else if bytes.len() == 1 {
        hex_pair(bytes[0])
    } else {
        hex_pair(bytes[0]) + seq![' '] + render_spec(bytes.drop_first())
    }
}

/// The upper-case hex digit for a value below 16, as text.
pub fn hex_digit_text(n: u8) -> (s: &'static str)
    requires
        n < 16,
    ensures
        s@ == seq![hex_digit(n as int)],
{
    proof {
        reveal_strlit("0");
        reveal_strlit("1");
        reveal_strlit("2");
        reveal_strlit("3");
        reveal_strlit("4");
        reveal_strlit("5");
        reveal_strlit("6");
        reveal_strlit("7");
        reveal_strlit("8");
        reveal_strlit("9");
        reveal_strlit("A");
        reveal_strlit("B");
        reveal_strlit("C");
        reveal_strlit("D");
        reveal_strlit("E");
        reveal_strlit("F");
    }
    let s = match n {
        0 => "0",
        1 => "1",
        2 => "2",
        3 => "3",
        4 => "4",
        5 => "5",
        6 => "6",
        7 => "7",
        8 => "8",
        9 => "9",
        10 => "A",
        11 => "B",
        12 => "C",
        13 => "D",
        14 => "E",
        _ => "F",
    };
    assert(s@ =~= seq![hex_digit(n as int)]);
    s
}

/// Writes a run of bytes as a textual pattern without wildcards.
pub fn render_pattern(bytes: &[u8]) -> (text: String)
    ensures
        text@ == render_spec(bytes@),
{
    let mut text = String::new();
    let n = bytes.len();
    let mut i: usize = 0;
    assert(bytes@.skip(0) =~= bytes@);
    assert(text@ + render_spec(bytes@) =~= render_spec(bytes@));
    while i < n
        invariant
            n == bytes@.len(),
            i <= n,
            render_spec(bytes@) == text@ + render_spec(bytes@.skip(i as int)),
        decreases n - i,
    {
        let ghost before = text@;
        let ghost rest = bytes@.skip(i as int);
        let b = bytes[i];
        text.append(hex_digit_text(b / 16));
        text.append(hex_digit_text(b % 16));
        if i != n - 1 {
            proof {
                reveal_strlit(" ");
            }
            text.append(" ");
            assert(text@ =~= before + hex_pair(b) + seq![' ']);
        } else {
            assert(text@ =~= before + hex_pair(b));
        }
        proof {
            assert(rest[0] == b);
            assert(rest.drop_first() =~= bytes@.skip(i + 1));
            if i == n - 1 {
                assert(render_spec(bytes@.skip(i + 1)) =~= Seq::<char>::empty());
                assert(text@ + render_spec(bytes@.skip(i + 1)) =~= before + render_spec(rest));
            } else {
                assert(text@ + render_spec(bytes@.skip(i + 1)) =~= before + render_spec(rest));
            }
        }
        i += 1;
    }
    assert(render_spec(bytes@.skip(i as int)) =~= Seq::<char>::empty());
    assert(text@ + Seq::<char>::empty() =~= text@);
    text
}

/// The specifiers that demand exactly the given bytes.
pub open spec fn exact(bytes: Seq<u8>) -> Seq<Option<u8>> {
    bytes.map_values(|b: u8| Some(b))
}

/// A hex pair reads back as the byte it was written for.
pub proof fn lemma_hex_pair_reads_back(b: u8)
    ensures
        parse_token(hex_pair(b)) == Ok::<Option<u8>, ProcessError>(Some(b)),
        !is_space(hex_pair(b)[0]),
        !is_space(hex_pair(b)[1]),
{
    let t = hex_pair(b);
    lemma_byte_len_short(t);
    let high = hex_digit(b as int / 16);
    let low = hex_digit(b as int % 16);
    assert(hex_value(high) == Some((b / 16) as u8));
    assert(hex_value(low) == Some((b % 16) as u8));
    assert(high != '?' && low != '?');
}

/// Writing bytes as a textual pattern and reading the text gives the
/// pattern that demands exactly those bytes: rendering never produces a
/// malformed pattern.
pub proof fn lemma_render_reads_back(bytes: Seq<u8>)
    ensures
        parse_spec(render_spec(bytes)) == Ok::<Seq<Option<u8>>, ProcessError>(exact(bytes)),
    decreases bytes.len(),
{
    let text = render_spec(bytes);
    if bytes.len() == 0 {
        assert(exact(bytes) =~= Seq::<Option<u8>>::empty());
    } else {
        let b = bytes[0];
        lemma_hex_pair_reads_back(b);
        lemma_word_len(text);
        assert(text[0] == hex_pair(b)[0]);
        assert(text[1] == hex_pair(b)[1]);
        assert(word_len(text) == 2) by {
            assert(text.drop_first()[0] == text[1]);
            let after = text.drop_first().drop_first();
            if bytes.len() > 1 {
                assert(after[0] == ' ');
            } else {
                assert(after.len() == 0);
            }
            assert(word_len(after) == 0);
            assert(word_len(text.drop_first()) == 1 + word_len(after));
        }
        assert(text.take(2) =~= hex_pair(b));
        if bytes.len() == 1 {
            assert(text.skip(2) =~= Seq::<char>::empty());
            assert(parse_spec(text.skip(2)) == Ok::<Seq<Option<u8>>, ProcessError>(Seq::empty()));
            assert(seq![Some(b)] + Seq::<Option<u8>>::empty() =~= exact(bytes));
        } else {
            let tail = render_spec(bytes.drop_first());
            lemma_render_reads_back(bytes.drop_first());
            assert(text.skip(2) =~= seq![' '] + tail);
            assert(text.skip(2).drop_first() =~= tail);
            assert(is_space(text.skip(2)[0]));
            assert(parse_spec(text.skip(2)) == parse_spec(tail));
            assert(seq![Some(b)] + exact(bytes.drop_first()) =~= exact(bytes));
        }
    }
}

} // verus!
