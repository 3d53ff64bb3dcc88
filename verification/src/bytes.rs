//! Little-endian numbers and zero-terminated text in raw bytes.

use vstd::prelude::*;

verus! {

/// The `n` little-endian bytes of `v`: the lowest byte first.
pub open spec fn le_bytes(v: int, n: nat) -> Seq<u8>
    decreases n,
{
    if n == 0 {
        Seq::empty()
    } else {
        seq![(v % 256) as u8] + le_bytes(v / 256, (n - 1) as nat)
    }
}

/// The number that little-endian bytes stand for.
pub open spec fn le_value(bytes: Seq<u8>) -> int
    decreases bytes.len(),
{
    if bytes.len() == 0 {
        0
    } else {
        bytes[0] as int + 256 * le_value(bytes.drop_first())
    }
}

/// 256 to the power of `n`.
pub open spec fn radix(n: nat) -> int
    decreases n,
{
    if n == 0 {
        1
    } else {
        256 * radix((n - 1) as nat)
    }
}

/// There are `n` little-endian bytes of a number.
pub proof fn lemma_le_bytes_len(v: int, n: nat)
    ensures
        le_bytes(v, n).len() == n,
    decreases n,
{
    if n > 0 {
        lemma_le_bytes_len(v / 256, (n - 1) as nat);
    }
}

/// The number that `n` bytes stand for is below 256 to the power of `n`.
pub proof fn lemma_le_value_bound(bytes: Seq<u8>)
    ensures
        0 <= le_value(bytes) < radix(bytes.len()),
    decreases bytes.len(),
{
    if bytes.len() > 0 {
        lemma_le_value_bound(bytes.drop_first());
    }
}

/// The little-endian bytes of a number stand for that number, as far as
/// the number fits into them.
pub proof fn lemma_le_bytes_read_back(v: int, n: nat)
    requires
        0 <= v < radix(n),
    ensures
        le_value(le_bytes(v, n)) == v,
    decreases n,
{
    if n > 0 {
        let rest = le_bytes(v / 256, (n - 1) as nat);
        lemma_le_bytes_read_back(v / 256, (n - 1) as nat);
        assert(le_bytes(v, n).drop_first() =~= rest);
        assert(le_bytes(v, n)[0] == (v % 256) as u8);
    }
}

/// The numbers that stand for given bytes have those bytes.
pub proof fn lemma_le_value_write_back(bytes: Seq<u8>)
    ensures
        le_bytes(le_value(bytes), bytes.len()) == bytes,
    decreases bytes.len(),
{
    if bytes.len() > 0 {
        let rest = bytes.drop_first();
        lemma_le_value_write_back(rest);
        let v = le_value(bytes);
        assert(v % 256 == bytes[0] as int);
        assert(v / 256 == le_value(rest));
        assert(le_bytes(v, bytes.len()) =~= bytes);
    }
}

/// The `count` little-endian bytes of a number.
pub fn to_le(v: u64, count: usize) -> (r: Vec<u8>)
    requires
        count <= 8,
    ensures
        r@ == le_bytes(v as int, count as nat),
{
    let mut r: Vec<u8> = Vec::new();
    let mut rest: u64 = v;
    let mut i: usize = 0;
    assert(r@ + le_bytes(rest as int, count as nat) =~= le_bytes(v as int, count as nat));
    while i < count
        invariant
            i <= count,
            le_bytes(v as int, count as nat) == r@ + le_bytes(rest as int, (count - i) as nat),
        decreases count - i,
    {
        let ghost before = r@;
        let low = (rest % 256) as u8;
        r.push(low);
        assert(before + le_bytes(rest as int, (count - i) as nat) =~= r@ + le_bytes(
            rest as int / 256,
            (count - i - 1) as nat,
        ));
        rest = rest / 256;
        i += 1;
    }
    assert(r@ + le_bytes(rest as int, 0) =~= r@);
    r
}

/// The number that up to eight little-endian bytes stand for.
pub fn from_le(bytes: &[u8]) -> (v: u64)
    requires
        bytes@.len() <= 8,
    ensures
        v == le_value(bytes@),
{
    let n = bytes.len();
    let mut v: u64 = 0;
    let mut i: usize = n;
    assert(bytes@.skip(n as int) =~= Seq::<u8>::empty());
    while i > 0
        invariant
            n == bytes@.len(),
            n <= 8,
            i <= n,
            v == le_value(bytes@.skip(i as int)),
        decreases i,
    {
        i -= 1;
        proof {
            let tail = bytes@.skip(i as int);
            assert(tail.drop_first() =~= bytes@.skip(i + 1));
            assert(tail[0] == bytes@[i as int]);
            lemma_le_value_bound(tail);
            lemma_le_value_bound(tail.drop_first());
            reveal_with_fuel(radix, 10);
            assert(radix(tail.len()) <= radix(8)) by {
                reveal_with_fuel(radix, 10);
            }
            assert(radix(8) == 0x1_0000_0000_0000_0000);
        }
        v = v * 256 + bytes[i] as u64;
    }
    assert(bytes@.skip(0) =~= bytes@);
    v
}

/// `String::push` of the standard library appends the character to the
/// string and changes nothing else of it.
pub assume_specification[ String::push ](text: &mut String, ch: char)
    ensures
        final(text)@ == old(text)@.push(ch),
;

/// The number of bytes of `buf` before the first byte that ends the text:
/// a zero byte, or a byte whose character is one of `stops`.
pub open spec fn text_len(buf: Seq<u8>, stops: Seq<char>) -> nat
    decreases buf.len(),
{
    if buf.len() == 0 || buf[0] == 0 || stops.contains(buf[0] as char) {
        0
    } else {
        1 + text_len(buf.drop_first(), stops)
    }
}

/// The text at the beginning of `buf`: each byte before the end of the text
/// as the character with that code, unfiltered.
pub open spec fn text_of(buf: Seq<u8>, stops: Seq<char>) -> Seq<char> {
    Seq::new(text_len(buf, stops), |i: int| buf[i] as char)
}

/// The text is no longer than the buffer; it holds no zero byte and no stop
/// character, and it ends at the buffer's end or before one of them.
pub proof fn lemma_text_len(buf: Seq<u8>, stops: Seq<char>)
    ensures
        text_len(buf, stops) <= buf.len(),
        forall|i: int|
            0 <= i < text_len(buf, stops) ==> #[trigger] buf[i] != 0 && !stops.contains(
                buf[i] as char,
            ),
        text_len(buf, stops) < buf.len() ==> buf[text_len(buf, stops) as int] == 0
            || stops.contains(buf[text_len(buf, stops) as int] as char),
    decreases buf.len(),
{
    if !(buf.len() == 0 || buf[0] == 0 || stops.contains(buf[0] as char)) {
        let rest = buf.drop_first();
        lemma_text_len(rest, stops);
        assert forall|i: int| 0 <= i < text_len(buf, stops) implies #[trigger] buf[i] != 0
            && !stops.contains(buf[i] as char) by {
            if i > 0 {
                assert(buf[i] == rest[i - 1]);
            }
        }
        if text_len(buf, stops) < buf.len() {
            assert(buf[text_len(buf, stops) as int] == rest[text_len(rest, stops) as int]);
        }
    }
}

/// Tells whether a character is one of `stops`.
pub fn is_stop(c: char, stops: &[char]) -> (r: bool)
    ensures
        r == stops@.contains(c),
{
    let mut i: usize = 0;
    while i < stops.len()
        invariant
            i <= stops@.len(),
            forall|k: int| 0 <= k < i ==> stops@[k] != c,
        decreases stops@.len() - i,
    {
        if stops[i] == c {
            return true;
        }
        i += 1;
    }
    false
}

/// Recovers the text at the beginning of a buffer that was read from
/// another process: the bytes up to the first zero byte or stop character,
/// each taken as the character with that code. Bytes that do not print are
/// kept as they are.
pub fn decode_string(buf: &[u8], stops: &[char]) -> (text: String)
    ensures
        text@ == text_of(buf@, stops@),
{
    let mut text = String::new();
    let mut i: usize = 0;
    proof {
        lemma_text_len(buf@, stops@);
    }
    while i < buf.len()
        invariant
            i <= buf@.len(),
            i <= text_len(buf@, stops@) <= buf@.len(),
            text@ == Seq::new(i as nat, |k: int| buf@[k] as char),
            forall|k: int|
                0 <= k < text_len(buf@, stops@) ==> #[trigger] buf@[k] != 0 && !stops@.contains(
                    buf@[k] as char,
                ),
            text_len(buf@, stops@) < buf@.len() ==> buf@[text_len(buf@, stops@) as int] == 0
                || stops@.contains(buf@[text_len(buf@, stops@) as int] as char),
        ensures
            i == text_len(buf@, stops@),
            text@ == Seq::new(i as nat, |k: int| buf@[k] as char),
        decreases buf@.len() - i,
    {
        let c = buf[i] as char;
        if buf[i] == 0 || is_stop(c, stops) {
            break ;
        }
        text.push(c);
        i += 1;
        assert(text@ =~= Seq::new(i as nat, |k: int| buf@[k] as char));
    }
    text
}

} // verus!
