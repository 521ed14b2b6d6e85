//! Counting text in UTF-8 bytes and UTF-16 code units.

use vstd::prelude::*;
use vstd::utf8::*;
use vstd::string::StringSliceAdditionalSpecFns;

verus! {

/// Number of UTF-16 code units contributed by one UTF-8 byte: every byte
/// that starts a character counts one, and a byte that starts a four-byte
/// character counts one more (that character needs a surrogate pair).
pub open spec fn utf16_weight(b: u8) -> nat {
    (if b < 0x80 || b >= 0xc0 { 1nat } else { 0nat }) + (if b >= 0xf0 { 1nat } else { 0nat })
}

/// Number of UTF-16 code units of the text whose UTF-8 encoding is `bytes`.
pub open spec fn utf16_len_of_bytes(bytes: Seq<u8>) -> nat
    decreases bytes.len(),
{
    if bytes.len() == 0 {
        0
    } else {
        utf16_len_of_bytes(bytes.drop_last()) + utf16_weight(bytes.last())
    }
}

/// Number of UTF-16 code units of one character.
pub open spec fn char_utf16_len(c: char) -> nat {
    if (c as u32) >= 0x10000 { 2 } else { 1 }
}

/// Number of UTF-16 code units of a character sequence.
pub open spec fn utf16_len(chars: Seq<char>) -> nat
    decreases chars.len(),
{
    if chars.len() == 0 {
        0
    } else {
        char_utf16_len(chars[0]) + utf16_len(chars.drop_first())
    }
}

pub proof fn lemma_utf16_len_of_bytes_append(a: Seq<u8>, b: Seq<u8>)
    ensures
        utf16_len_of_bytes(a + b) == utf16_len_of_bytes(a) + utf16_len_of_bytes(b),
    decreases b.len(),
{
    if b.len() == 0 {
        assert(a + b =~= a);
    } else {
        assert((a + b).drop_last() =~= a + b.drop_last());
        lemma_utf16_len_of_bytes_append(a, b.drop_last());
    }
}

/// UTF-16 lengths add up over concatenation.
pub proof fn lemma_utf16_len_append(a: Seq<char>, b: Seq<char>)
    ensures
        utf16_len(a + b) == utf16_len(a) + utf16_len(b),
    decreases a.len(),
{
    if a.len() == 0 {
        assert(a + b =~= b);
    } else {
        assert((a + b).drop_first() =~= a.drop_first() + b);
        assert((a + b)[0] == a[0]);
        lemma_utf16_len_append(a.drop_first(), b);
    }
}

proof fn lemma_scalar_weights(c: char)
    ensures
        utf16_len_of_bytes(encode_scalar(c as u32)) == char_utf16_len(c),
        char_utf16_len(c) <= encode_scalar(c as u32).len(),
{
    let v = c as u32;
    assert(is_scalar(v));
    let e = encode_scalar(v);
    reveal_with_fuel(utf16_len_of_bytes, 5);
    if has_width_1_encoding(v) {
        assert(((v & 0x7F) as u8) < 0x80) by (bit_vector);
    } else if has_width_2_encoding(v) {
        assert(0xC0 <= (0xC0u8 | ((v >> 6) & 0x1F) as u8) < 0xE0) by (bit_vector);
        assert(0x80 <= (0x80u8 | (v & 0x3F) as u8) < 0xC0) by (bit_vector);
        assert(e.drop_last() =~= seq![e[0]]);
        assert(seq![e[0]].drop_last() =~= Seq::<u8>::empty());
    } else if has_width_3_encoding(v) {
        assert(0xE0 <= (0xE0u8 | ((v >> 12) & 0x0F) as u8) < 0xF0) by (bit_vector);
        assert(0x80 <= (0x80u8 | ((v >> 6) & 0x3F) as u8) < 0xC0) by (bit_vector);
        assert(0x80 <= (0x80u8 | (v & 0x3F) as u8) < 0xC0) by (bit_vector);
        assert(e.drop_last() =~= seq![e[0], e[1]]);
        assert(seq![e[0], e[1]].drop_last() =~= seq![e[0]]);
        assert(seq![e[0]].drop_last() =~= Seq::<u8>::empty());
    } else {
        assert(0xF0 <= (0xF0u8 | ((v >> 18) & 0x7) as u8)) by (bit_vector);
        assert(0x80 <= (0x80u8 | ((v >> 12) & 0x3F) as u8) < 0xC0) by (bit_vector);
        assert(0x80 <= (0x80u8 | ((v >> 6) & 0x3F) as u8) < 0xC0) by (bit_vector);
        assert(0x80 <= (0x80u8 | (v & 0x3F) as u8) < 0xC0) by (bit_vector);
        assert(e.drop_last() =~= seq![e[0], e[1], e[2]]);
        assert(seq![e[0], e[1], e[2]].drop_last() =~= seq![e[0], e[1]]);
        assert(seq![e[0], e[1]].drop_last() =~= seq![e[0]]);
        assert(seq![e[0]].drop_last() =~= Seq::<u8>::empty());
    }
}

/// The byte count of a UTF-16 length agrees with the character count, and
/// never exceeds the UTF-8 length.
pub proof fn lemma_utf16_len_of_encoding(chars: Seq<char>)
    ensures
        utf16_len_of_bytes(encode_utf8(chars)) == utf16_len(chars),
        utf16_len(chars) <= encode_utf8(chars).len(),
    decreases chars.len(),
{
    if chars.len() > 0 {
        lemma_scalar_weights(chars[0]);
        lemma_utf16_len_of_encoding(chars.drop_first());
        lemma_utf16_len_of_bytes_append(encode_scalar(chars[0] as u32), encode_utf8(chars.drop_first()));
    }
}

/// Counts the UTF-16 code units of `s`.
pub fn count_utf16(s: &str) -> (n: usize)
    ensures
        n == utf16_len(s@),
        n == utf16_len_of_bytes(s.spec_bytes()),
{
    let bytes = s.as_bytes();
    proof { lemma_utf16_len_of_encoding(s@); }
    let mut count: usize = 0;
    let mut i: usize = 0;
    while i < bytes.len()
        invariant
            bytes@ == s.spec_bytes(),
            i <= bytes@.len(),
            count == utf16_len_of_bytes(bytes@.take(i as int)),
            utf16_len_of_bytes(bytes@) <= bytes@.len(),
        decreases bytes@.len() - i,
    {
        let b = bytes[i];
        proof {
            assert(bytes@.take(i + 1).drop_last() =~= bytes@.take(i as int));
            lemma_utf16_len_of_bytes_append(bytes@.take(i + 1), bytes@.skip(i + 1));
            assert(bytes@.take(i + 1) + bytes@.skip(i + 1) =~= bytes@);
        }
        if b < 0x80 || b >= 0xc0 {
            count = count + 1;
        }
        if b >= 0xf0 {
            count = count + 1;
        }
        i = i + 1;
    }
    assert(bytes@.take(i as int) =~= bytes@);
    count
}

/// Number of UTF-8 bytes of one character.
pub open spec fn char_utf8_len(c: char) -> nat {
    encode_scalar(c as u32).len()
}

/// Byte offset of the character at index `k` of `chars`.
pub open spec fn byte_offset(chars: Seq<char>, k: int) -> nat {
    encode_utf8(chars.take(k)).len()
}

pub proof fn lemma_encode_utf8_append(a: Seq<char>, b: Seq<char>)
    ensures
        encode_utf8(a + b) == encode_utf8(a) + encode_utf8(b),
    decreases a.len(),
{
    if a.len() == 0 {
        assert(a + b =~= b);
        assert(encode_utf8(a) =~= Seq::<u8>::empty());
        assert(encode_utf8(a) + encode_utf8(b) =~= encode_utf8(b));
    } else {
        assert((a + b).drop_first() =~= a.drop_first() + b);
        assert((a + b)[0] == a[0]);
        lemma_encode_utf8_append(a.drop_first(), b);
        assert(encode_utf8(a) + encode_utf8(b) =~= encode_scalar(a[0] as u32) + (encode_utf8(
            a.drop_first(),
        ) + encode_utf8(b)));
    }
}

/// Byte offsets grow by the width of each character.
pub proof fn lemma_byte_offset_step(chars: Seq<char>, k: int)
    requires
        0 <= k < chars.len(),
    ensures
        byte_offset(chars, k + 1) == byte_offset(chars, k) + char_utf8_len(chars[k]),
        encode_utf8(chars.take(k + 1)) == encode_utf8(chars.take(k)) + encode_scalar(
            chars[k] as u32,
        ),
{
    assert(chars.take(k + 1) =~= chars.take(k) + seq![chars[k]]);
    lemma_encode_utf8_append(chars.take(k), seq![chars[k]]);
    let one = seq![chars[k]];
    assert(one.drop_first() =~= Seq::<char>::empty());
    assert(encode_utf8(one.drop_first()) =~= Seq::<u8>::empty());
    assert(encode_utf8(one) == encode_scalar(one[0] as u32) + encode_utf8(one.drop_first()));
    assert(encode_utf8(one) =~= encode_scalar(chars[k] as u32));
}

/// The number of UTF-8 bytes of a character, from its scalar value.
pub fn utf8_len(c: char) -> (n: usize)
    ensures
        n == char_utf8_len(c),
        1 <= n <= 4,
{
    let v = c as u32;
    proof { assert(is_scalar(v)); }
    if v < 0x80 {
        1
    } else if v < 0x800 {
        2
    } else if v < 0x10000 {
        3
    } else {
        4
    }
}

/// The number of UTF-16 code units of a character.
pub fn utf16_len_of_char(c: char) -> (n: usize)
    ensures
        n == char_utf16_len(c),
{
    if (c as u32) >= 0x10000 {
        2
    } else {
        1
    }
}

/// The characters of `s`, in order.
pub fn chars_of(s: &str) -> (v: Vec<char>)
    ensures
        v@ == s@,
{
    let mut v: Vec<char> = Vec::new();
    for c in it: s.chars()
        invariant
            v@ == it.seq().take(it.index() as int),
    {
        v.push(c);
    }
    assert(v@ =~= s@);
    v
}


/// UTF-16 code units of the first `i` bytes of a UTF-8 text.
pub open spec fn utf16_prefix(bytes: Seq<u8>, i: int) -> nat {
    utf16_len_of_bytes(bytes.take(i))
}

pub proof fn lemma_utf16_prefix_step(bytes: Seq<u8>, i: int)
    requires
        0 <= i < bytes.len(),
    ensures
        utf16_prefix(bytes, i + 1) == utf16_prefix(bytes, i) + utf16_weight(bytes[i]),
{
    assert(bytes.take(i + 1).drop_last() =~= bytes.take(i));
}

pub proof fn lemma_utf16_prefix_monotone(bytes: Seq<u8>, i: int, j: int)
    requires
        0 <= i <= j <= bytes.len(),
    ensures
        utf16_prefix(bytes, i) <= utf16_prefix(bytes, j),
    decreases j - i,
{
    if i < j {
        lemma_utf16_prefix_step(bytes, j - 1);
        lemma_utf16_prefix_monotone(bytes, i, j - 1);
    }
}

/// The byte whose UTF-16 count first exceeds `pos`: the `i` with
/// `utf16_prefix(bytes, i) <= pos < utf16_prefix(bytes, i + 1)`, which is
/// unique; None when the whole text has no more than `pos` code units.
pub open spec fn count_until_utf16_spec(bytes: Seq<u8>, pos: int) -> Option<int> {
    if pos < utf16_len_of_bytes(bytes) {
        Some(
            choose|i: int|
                0 <= i < bytes.len() && #[trigger] utf16_prefix(bytes, i) <= pos < utf16_prefix(
                    bytes,
                    i + 1,
                ),
        )
    } else {
        None
    }
}

proof fn lemma_count_until_exists_below(bytes: Seq<u8>, pos: int, j: int)
    requires
        0 <= j <= bytes.len(),
        0 <= pos < utf16_prefix(bytes, j),
    ensures
        exists|i: int|
            0 <= i < j && #[trigger] utf16_prefix(bytes, i) <= pos < utf16_prefix(bytes, i + 1),
    decreases j,
{
    assert(bytes.take(0) =~= Seq::<u8>::empty());
    if utf16_prefix(bytes, j - 1) <= pos {
        assert(utf16_prefix(bytes, j - 1) <= pos < utf16_prefix(bytes, (j - 1) + 1));
    } else {
        lemma_count_until_exists_below(bytes, pos, j - 1);
    }
}

/// The byte that `count_until_utf16_spec` picks is in the text, and the
/// position falls at it.
pub proof fn lemma_count_until_found(bytes: Seq<u8>, pos: int)
    requires
        0 <= pos,
        count_until_utf16_spec(bytes, pos) is Some,
    ensures
        0 <= count_until_utf16_spec(bytes, pos).unwrap() < bytes.len(),
        utf16_prefix(bytes, count_until_utf16_spec(bytes, pos).unwrap()) <= pos < utf16_prefix(
            bytes,
            count_until_utf16_spec(bytes, pos).unwrap() + 1,
        ),
{
    assert(bytes.take(bytes.len() as int) =~= bytes);
    lemma_count_until_exists_below(bytes, pos, bytes.len() as int);
}

pub proof fn lemma_count_until_unique(bytes: Seq<u8>, pos: int, i: int)
    requires
        0 <= i < bytes.len(),
        utf16_prefix(bytes, i) <= pos < utf16_prefix(bytes, i + 1),
    ensures
        count_until_utf16_spec(bytes, pos) == Some(i),
{
    assert(bytes.take(bytes.len() as int) =~= bytes);
    lemma_utf16_prefix_monotone(bytes, i + 1, bytes.len() as int);
    let w = choose|w: int|
        0 <= w < bytes.len() && #[trigger] utf16_prefix(bytes, w) <= pos < utf16_prefix(
            bytes,
            w + 1,
        );
    if w < i {
        lemma_utf16_prefix_monotone(bytes, w + 1, i);
    } else if w > i {
        lemma_utf16_prefix_monotone(bytes, i + 1, w);
    }
}

/// The byte offset in `s` of the byte at which the UTF-16 position
/// `utf16_text_position` falls: the first byte whose running count of UTF-16
/// code units exceeds it. None when `s` has no more code units than that.
pub fn count_until_utf16(s: &str, utf16_text_position: usize) -> (r: Option<usize>)
    ensures
        match r {
            Some(i) => {
                &&& count_until_utf16_spec(s.spec_bytes(), utf16_text_position as int) == Some(
                    i as int,
                )
                &&& i < s.spec_bytes().len()
                &&& utf16_prefix(s.spec_bytes(), i as int) <= utf16_text_position < utf16_prefix(
                    s.spec_bytes(),
                    i + 1,
                )
            },
            None => count_until_utf16_spec(s.spec_bytes(), utf16_text_position as int) is None,
        },
{
    let bytes = s.as_bytes();
    let n = bytes.len();
    let mut utf8_count: usize = 0;
    let mut utf16_count: usize = 0;
    proof {
        lemma_utf16_len_of_encoding(s@);
        assert(bytes@.take(0) =~= Seq::<u8>::empty());
    }
    while utf8_count < n
        invariant
            n == bytes@.len(),
            bytes@ == s.spec_bytes(),
            utf16_len_of_bytes(bytes@) <= n,
            utf8_count <= n,
            utf16_count == utf16_prefix(bytes@, utf8_count as int),
            utf16_count <= utf16_text_position,
        decreases n - utf8_count,
    {
        let b = bytes[utf8_count];
        proof {
            lemma_utf16_prefix_step(bytes@, utf8_count as int);
            assert(bytes@.take(n as int) =~= bytes@);
            lemma_utf16_prefix_monotone(bytes@, utf8_count + 1, n as int);
        }
        if b < 0x80 || b >= 0xc0 {
            utf16_count = utf16_count + 1;
        }
        if b >= 0xf0 {
            utf16_count = utf16_count + 1;
        }
        if utf16_count > utf16_text_position {
            proof {
                lemma_count_until_unique(bytes@, utf16_text_position as int, utf8_count as int);
            }
            return Some(utf8_count);
        }
        utf8_count = utf8_count + 1;
    }
    assert(bytes@.take(n as int) =~= bytes@);
    None
}

/// The UTF-16 encoding of one character.
pub open spec fn encode_utf16_char(c: char) -> Seq<u16> {
    let v = c as u32;
    if v < 0x10000 {
        seq![v as u16]
    } else {
        let u = (v - 0x10000) as u32;
        seq![(0xd800 + (u >> 10)) as u16, (0xdc00 + (u & 0x3ff)) as u16]
    }
}

/// The UTF-16 encoding of a character sequence.
pub open spec fn encode_utf16(chars: Seq<char>) -> Seq<u16>
    decreases chars.len(),
{
    if chars.len() == 0 {
        Seq::empty()
    } else {
        encode_utf16(chars.drop_last()) + encode_utf16_char(chars.last())
    }
}

/// The UTF-16 encoding of `s` followed by a terminating 0, the form that
/// Windows APIs take strings in.
pub fn to_wide_null(s: &str) -> (w: Vec<u16>)
    ensures
        w@ == encode_utf16(s@).push(0),
{
    let chars = chars_of(s);
    let mut w: Vec<u16> = Vec::new();
    let mut i: usize = 0;
    assert(chars@.take(0) =~= Seq::<char>::empty());
    while i < chars.len()
        invariant
            chars@ == s@,
            i <= chars@.len(),
            w@ == encode_utf16(chars@.take(i as int)),
        decreases chars@.len() - i,
    {
        let c = chars[i];
        let v = c as u32;
        proof {
            assert(chars@.take(i + 1).drop_last() =~= chars@.take(i as int));
            assert(chars@.take(i + 1).last() == c);
        }
        if v < 0x10000 {
            w.push(v as u16);
        } else {
            proof {
                char_is_scalar(c);
            }
            let u = v - 0x10000;
            proof {
                assert(u < 0x100000);
                assert(u >> 10 < 0x400 && u & 0x3ff < 0x400) by (bit_vector)
                    requires
                        u < 0x100000,
                ;
            }
            w.push((0xd800 + (u >> 10)) as u16);
            w.push((0xdc00 + (u & 0x3ff)) as u16);
        }
        i = i + 1;
    }
    assert(chars@.take(chars@.len() as int) =~= chars@);
    w.push(0);
    w
}


/// Finding the byte at a UTF-16 position undoes counting: for a character
/// boundary `i` inside a text, the position that counts the code units
/// before `i` falls at `i`.
pub proof fn lemma_count_until_inverts_count(bytes: Seq<u8>, i: int)
    requires
        valid_utf8(bytes),
        0 <= i < bytes.len(),
        is_char_boundary(bytes, i),
    ensures
        count_until_utf16_spec(bytes, utf16_prefix(bytes, i) as int) == Some(i),
{
    is_char_boundary_iff_not_is_continuation_byte(bytes, i);
    lemma_utf16_prefix_step(bytes, i);
    lemma_count_until_unique(bytes, utf16_prefix(bytes, i) as int, i);
}

/// A character's UTF-16 encoding has as many code units as it counts.
proof fn lemma_encode_utf16_char_len(c: char)
    ensures
        encode_utf16_char(c).len() == char_utf16_len(c),
{
}

/// The UTF-16 encoding of a text is as long as its UTF-16 count.
pub proof fn lemma_encode_utf16_len(chars: Seq<char>)
    ensures
        encode_utf16(chars).len() == utf16_len(chars),
    decreases chars.len(),
{
    if chars.len() > 0 {
        lemma_encode_utf16_len(chars.drop_last());
        lemma_encode_utf16_char_len(chars.last());
        let one = seq![chars.last()];
        assert(chars =~= chars.drop_last() + one);
        lemma_utf16_len_append(chars.drop_last(), one);
        assert(one.drop_first() =~= Seq::<char>::empty());
        assert(utf16_len(one) == char_utf16_len(chars.last()) + utf16_len(one.drop_first()));
    }
}


/// The wide form of a string holds one code unit more than the string
/// counts in UTF-16: the terminating 0.
pub proof fn lemma_wide_null_len(s: Seq<char>)
    ensures
        encode_utf16(s).push(0).len() == utf16_len(s) + 1,
{
    lemma_encode_utf16_len(s);
}

} // verus!
