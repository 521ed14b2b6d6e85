//! Line ranges in UTF-8 byte offsets, computed from the line ends that a
//! text layout engine reports in UTF-16 code units.

use vstd::prelude::*;
use vstd::utf8::*;
use vstd::string::StringSliceAdditionalSpecFns;
use crate::text_units::{
    utf16_len,
    char_utf16_len,
    byte_offset,
    lemma_byte_offset_step,
    lemma_encode_utf8_append,
    lemma_utf16_len_of_encoding,
    lemma_utf16_len_append,
    utf8_len,
    utf16_len_of_char,
    chars_of,
};
use crate::lines::{
    is_white_space,
    lemma_trailing_ascii_ws_bound,
    trailing_ascii_ws,
    count_trailing_ws_in,
    trailing_white_space,
    lemma_trailing_white_space,
    count_trailing_whitespace,
};

verus! {

/// The integer part of a line's metrics: the byte range of the line in the
/// text, and how many of its last bytes are whitespace.
#[derive(Clone, Copy, Debug, PartialEq, Eq, Structural)]
pub struct LineRange {
    pub start_offset: usize,
    pub end_offset: usize,
    pub trailing_whitespace: usize,
}

/// UTF-16 offset of the boundary before character `k`.
pub open spec fn utf16_offset(chars: Seq<char>, k: int) -> nat {
    utf16_len(chars.take(k))
}

pub proof fn lemma_utf16_offset_step(chars: Seq<char>, k: int)
    requires
        0 <= k < chars.len(),
    ensures
        utf16_offset(chars, k + 1) == utf16_offset(chars, k) + char_utf16_len(chars[k]),
{
    assert(chars.take(k + 1) =~= chars.take(k) + seq![chars[k]]);
    lemma_utf16_len_append(chars.take(k), seq![chars[k]]);
    assert(seq![chars[k]].drop_first() =~= Seq::<char>::empty());
    assert(utf16_len(Seq::<char>::empty()) == 0);
    assert(utf16_len(seq![chars[k]]) == char_utf16_len(chars[k]) + utf16_len(
        seq![chars[k]].drop_first(),
    ));
}

/// UTF-16 offsets strictly grow from one character boundary to the next.
pub proof fn lemma_utf16_offset_increasing(chars: Seq<char>, a: int, b: int)
    requires
        0 <= a < b <= chars.len(),
    ensures
        utf16_offset(chars, a) < utf16_offset(chars, b),
    decreases b - a,
{
    lemma_utf16_offset_step(chars, b - 1);
    if a < b - 1 {
        lemma_utf16_offset_increasing(chars, a, b - 1);
    }
}

/// Byte offsets are bounded by the length of the encoding.
pub proof fn lemma_byte_offset_bound(chars: Seq<char>, k: int)
    requires
        0 <= k <= chars.len(),
    ensures
        byte_offset(chars, k) <= encode_utf8(chars).len(),
        utf16_offset(chars, k) <= utf16_len(chars),
{
    assert(chars.take(k) + chars.skip(k) =~= chars);
    lemma_encode_utf8_append(chars.take(k), chars.skip(k));
    lemma_utf16_len_append(chars.take(k), chars.skip(k));
}

/// The character boundary after character `k` whose UTF-16 offset is `e`,
/// if there is one (there is at most one).
pub open spec fn boundary_after(chars: Seq<char>, k: int, e: int) -> Option<int> {
    if exists|j: int| k < j <= chars.len() && utf16_offset(chars, j) == e {
        Some(choose|j: int| k < j <= chars.len() && utf16_offset(chars, j) == e)
    } else {
        None
    }
}

/// The character indices of the ends of the first `n` lines whose ends are
/// given in UTF-16 code units, and how far the text has been read. An end
/// of 0 is the start of the text; any other end is the boundary at that
/// offset after the text read so far, which must exist.
pub open spec fn line_end_chars(chars: Seq<char>, ends: Seq<usize>, n: nat) -> Option<
    (Seq<int>, int),
>
    decreases n,
{
    if n == 0 {
        Some((Seq::empty(), 0))
    } else {
        match line_end_chars(chars, ends, (n - 1) as nat) {
            None => None,
            Some((idx, k)) => {
                let e = ends[n - 1];
                if e == 0 {
                    Some((idx.push(0), k))
                } else {
                    match boundary_after(chars, k, e as int) {
                        None => None,
                        Some(j) => Some((idx.push(j), j)),
                    }
                }
            },
        }
    }
}

pub proof fn lemma_line_end_chars_prefix(chars: Seq<char>, ends: Seq<usize>, m: nat, n: nat)
    requires
        m <= n,
        line_end_chars(chars, ends, n) is Some,
    ensures
        line_end_chars(chars, ends, m) is Some,
        line_end_chars(chars, ends, m).unwrap().0 == line_end_chars(chars, ends, n).unwrap().0.take(m as int),
        line_end_chars(chars, ends, n).unwrap().0.len() == n,
    decreases n,
{
    if n > 0 {
        lemma_line_end_chars_prefix(chars, ends, (n - 1) as nat, (n - 1) as nat);
        if m < n {
            lemma_line_end_chars_prefix(chars, ends, m, (n - 1) as nat);
            let prev = line_end_chars(chars, ends, (n - 1) as nat).unwrap().0;
            let full = line_end_chars(chars, ends, n).unwrap().0;
            assert(full.take(m as int) =~= prev.take(m as int));
        } else {
            assert(line_end_chars(chars, ends, n).unwrap().0.take(n as int) =~= line_end_chars(
                chars,
                ends,
                n,
            ).unwrap().0);
        }
    }
}

/// Byte offset where line `i` starts: the end of the line before it.
pub open spec fn line_start_byte(chars: Seq<char>, idx: Seq<int>, i: int) -> int {
    if i == 0 {
        0
    } else {
        byte_offset(chars, idx[i - 1]) as int
    }
}

/// The line with end `idx[i]`, in bytes, with its trailing whitespace.
pub open spec fn line_range_at(chars: Seq<char>, idx: Seq<int>, i: int) -> LineRange {
    let start = line_start_byte(chars, idx, i);
    let end = byte_offset(chars, idx[i]) as int;
    LineRange {
        start_offset: start as usize,
        end_offset: end as usize,
        trailing_whitespace: trailing_ascii_ws(encode_utf8(chars).subrange(start, end)) as usize,
    }
}

/// The byte ranges of the lines whose ends are `ends`, in UTF-16 code
/// units; each line starts where the one before it ended. None where an end
/// is no boundary after the previous one, or a line would end before it
/// starts.
pub open spec fn utf16_line_ranges(chars: Seq<char>, ends: Seq<usize>) -> Option<Seq<LineRange>> {
    match line_end_chars(chars, ends, ends.len()) {
        None => None,
        Some((idx, _)) => if forall|i: int|
            0 <= i < idx.len() ==> #[trigger] line_start_byte(chars, idx, i) <= byte_offset(
                chars,
                idx[i],
            ) {
            Some(Seq::new(idx.len(), |i: int| line_range_at(chars, idx, i)))
        } else {
            None
        },
    }
}

/// Convert the line ends of a layout, given in UTF-16 code units, into the
/// byte ranges of the lines, each with its count of trailing ASCII
/// whitespace bytes.
pub fn line_ranges_from_utf16_ends(text: &str, ends16: &[usize]) -> (r: Option<Vec<LineRange>>)
    ensures
        match r {
            None => utf16_line_ranges(text@, ends16@) is None,
            Some(v) => utf16_line_ranges(text@, ends16@) == Some(v@),
        },
{
    let chars = chars_of(text);
    let bytes = text.as_bytes();
    let blen = bytes.len();
    let n = chars.len();
    proof {
        lemma_utf16_len_of_encoding(chars@);
        lemma_byte_offset_bound(chars@, n as int);
        assert(chars@.take(n as int) =~= chars@);
    }
    let mut k: usize = 0;
    let mut cur16: usize = 0;
    let mut cur8: usize = 0;
    let mut last_end: usize = 0;
    let mut out: Vec<LineRange> = Vec::new();
    let ghost mut idx: Seq<int> = Seq::empty();
    let mut i: usize = 0;
    assert(chars@.take(0) =~= Seq::<char>::empty());
    while i < ends16.len()
        invariant
            chars@ == text@,
            bytes@ == encode_utf8(text@),
            blen == bytes@.len(),
            n == chars@.len(),
            utf16_len(chars@) <= blen,
            i <= ends16@.len(),
            k <= n,
            cur16 == utf16_offset(chars@, k as int),
            cur8 == byte_offset(chars@, k as int),
            line_end_chars(chars@, ends16@, i as nat) == Some((idx, k as int)),
            idx.len() == i,
            out@.len() == i,
            last_end == line_start_byte(chars@, idx, i as int),
            forall|j: int|
                0 <= j < i ==> #[trigger] line_start_byte(chars@, idx, j) <= byte_offset(
                    chars@,
                    idx[j],
                ) && out@[j] == line_range_at(chars@, idx, j),
        decreases ends16@.len() - i,
    {
        let e = ends16[i];
        let end8: usize;
        if e == 0 {
            end8 = 0;
            proof {
                assert(chars@.take(0) =~= Seq::<char>::empty());
            }
        } else {
            let ghost k0 = k;
            let mut found = false;
            while k < n && !found
                invariant
                    chars@ == text@,
                    bytes@ == encode_utf8(text@),
                    blen == bytes@.len(),
                    n == chars@.len(),
                    utf16_len(chars@) <= blen,
                    k0 <= k <= n,
                    cur16 == utf16_offset(chars@, k as int),
                    cur8 == byte_offset(chars@, k as int),
                    found ==> k0 < k && cur16 == e,
                    !found ==> forall|j: int| k0 < j <= k ==> utf16_offset(chars@, j) != e,
                decreases n - k,
            {
                let c = chars[k];
                proof {
                    lemma_utf16_offset_step(chars@, k as int);
                    lemma_byte_offset_step(chars@, k as int);
                    lemma_byte_offset_bound(chars@, k + 1);
                }
                cur16 = cur16 + utf16_len_of_char(c);
                cur8 = cur8 + utf8_len(c);
                k = k + 1;
                if cur16 == e {
                    found = true;
                }
            }
            if !found {
                proof {
                    assert(!(exists|j: int|
                        k0 < j <= chars@.len() && utf16_offset(chars@, j) == e as int));
                    assert(line_end_chars(chars@, ends16@, (i + 1) as nat) is None);
                    if line_end_chars(chars@, ends16@, ends16@.len()) is Some {
                        lemma_line_end_chars_prefix(
                            chars@,
                            ends16@,
                            (i + 1) as nat,
                            ends16@.len(),
                        );
                    }
                }
                return None;
            }
            proof {
                let w = choose|j: int| k0 < j <= chars@.len() && utf16_offset(chars@, j) == e as int;
                if w < k {
                    lemma_utf16_offset_increasing(chars@, w, k as int);
                } else if w > k {
                    lemma_utf16_offset_increasing(chars@, k as int, w);
                }
            }
            end8 = cur8;
        }
        let ghost jidx: int = if e == 0 {
            0
        } else {
            k as int
        };
        proof {
            assert(line_end_chars(chars@, ends16@, (i + 1) as nat) == Some((idx.push(jidx), k as int)));
            lemma_byte_offset_bound(chars@, jidx);
        }
        if last_end > end8 {
            proof {
                let nidx = idx.push(jidx);
                assert(line_start_byte(chars@, nidx, i as int) == last_end);
                if line_end_chars(chars@, ends16@, ends16@.len()) is Some {
                    lemma_line_end_chars_prefix(chars@, ends16@, (i + 1) as nat, ends16@.len());
                    let full = line_end_chars(chars@, ends16@, ends16@.len()).unwrap().0;
                    assert(full.take(i + 1) == nidx);
                    assert(full[i as int] == nidx[i as int]);
                    assert(i == 0 || full[i - 1] == nidx[i - 1]);
                    assert(!(line_start_byte(chars@, full, i as int) <= byte_offset(
                        chars@,
                        full[i as int],
                    )));
                }
            }
            return None;
        }
        let ws = count_trailing_ws_in(bytes, last_end, end8);
        out.push(LineRange { start_offset: last_end, end_offset: end8, trailing_whitespace: ws });
        proof {
            let old_idx = idx;
            idx = idx.push(jidx);
            assert forall|j: int|
                0 <= j < i + 1 implies #[trigger] line_start_byte(chars@, idx, j) <= byte_offset(
                chars@,
                idx[j],
            ) && out@[j] == line_range_at(chars@, idx, j) by {
                if j < i {
                    assert(idx[j] == old_idx[j]);
                    assert(j == 0 || idx[j - 1] == old_idx[j - 1]);
                    assert(line_start_byte(chars@, idx, j) == line_start_byte(chars@, old_idx, j));
                    assert(line_range_at(chars@, idx, j) == line_range_at(chars@, old_idx, j));
                }
            }
        }
        last_end = end8;
        i = i + 1;
    }
    proof {
        assert(out@ =~= Seq::new(idx.len(), |j: int| line_range_at(chars@, idx, j)));
    }
    Some(out)
}


/// The lines of a layout, completed: an empty text is laid out as one
/// empty line, and a text that ends in a newline gets an empty line after
/// that newline. None where the text ends in a newline but the layout has
/// no line.
pub open spec fn with_final_line(bytes: Seq<u8>, lines: Seq<LineRange>) -> Option<Seq<LineRange>> {
    if bytes.len() == 0 {
        Some(lines.push(LineRange { start_offset: 0, end_offset: 0, trailing_whitespace: 0 }))
    } else if bytes.last() == 0x0a {
        if lines.len() == 0 {
            None
        } else {
            Some(
                lines.push(
                    LineRange {
                        start_offset: bytes.len() as usize,
                        end_offset: bytes.len() as usize,
                        trailing_whitespace: 0,
                    },
                ),
            )
        }
    } else {
        Some(lines)
    }
}

/// The line ranges of a text laid out in lines that end at the UTF-16
/// offsets `ends`, completed as `with_final_line` says.
pub open spec fn frame_line_ranges(text: &str, ends: Seq<usize>) -> Option<Seq<LineRange>> {
    match utf16_line_ranges(text@, ends) {
        None => None,
        Some(lines) => with_final_line(text.spec_bytes(), lines),
    }
}

/// The byte ranges of the lines of a layout whose line ends are given in
/// UTF-16 code units, with an empty line for an empty text and an empty
/// line after a final newline.
pub fn build_line_ranges(text: &str, ends16: &[usize]) -> (r: Option<Vec<LineRange>>)
    ensures
        match r {
            None => frame_line_ranges(text, ends16@) is None,
            Some(v) => frame_line_ranges(text, ends16@) == Some(v@),
        },
{
    let mut lines = match line_ranges_from_utf16_ends(text, ends16) {
        None => return None,
        Some(lines) => lines,
    };
    let len = text.as_bytes().len();
    if len == 0 {
        lines.push(LineRange { start_offset: 0, end_offset: 0, trailing_whitespace: 0 });
    } else if crate::lines::trailing_nlf(text).is_some() {
        if lines.len() == 0 {
            return None;
        }
        lines.push(LineRange { start_offset: len, end_offset: len, trailing_whitespace: 0 });
    }
    Some(lines)
}

/// Where a line that pango reports as ending at `end` really ends: pango
/// leaves out the line's terminating CR LF, CR or LF.
pub open spec fn pango_line_end(bytes: Seq<u8>, end: int) -> int {
    if end + 1 < bytes.len() && bytes[end] == 0x0d && bytes[end + 1] == 0x0a {
        end + 2
    } else if end < bytes.len() && (bytes[end] == 0x0d || bytes[end] == 0x0a) {
        end + 1
    } else {
        end
    }
}

/// Number of UTF-8 bytes of the White_Space characters at the end of
/// `chars`.
pub open spec fn trailing_white_space_bytes(chars: Seq<char>) -> nat {
    encode_utf8(chars.skip(chars.len() - trailing_white_space(chars))).len()
}

/// The line that pango reports as starting at byte `start` with `length`
/// bytes, extended over its line terminator, with the byte count of its
/// trailing White_Space characters. None where the range leaves the text or
/// does not fall on character boundaries.
pub open spec fn pango_line_range_spec(text: &str, start: int, length: int) -> Option<LineRange> {
    let bytes = text.spec_bytes();
    let end = pango_line_end(bytes, start + length);
    if start + length <= bytes.len() && is_char_boundary(bytes, start) && is_char_boundary(
        bytes,
        end,
    ) {
        Some(
            LineRange {
                start_offset: start as usize,
                end_offset: end as usize,
                trailing_whitespace: trailing_white_space_bytes(
                    decode_utf8(bytes.subrange(start, end)),
                ) as usize,
            },
        )
    } else {
        None
    }
}

/// The bytes `start..end` that encode `chars` end with the encoding of
/// its trailing White_Space characters, which decode to White_Space
/// characters only, after a part whose last character is not White_Space.
proof fn lemma_trailing_ws_of_line(bytes: Seq<u8>, start: int, end: int, chars: Seq<char>)
    requires
        0 <= start <= end <= bytes.len(),
        bytes.subrange(start, end) == encode_utf8(chars),
    ensures
        ({
            let ws = encode_utf8(chars.skip(chars.len() - trailing_white_space(chars))).len() as int;
            &&& ws <= end - start
            &&& forall|j: int|
                0 <= j < decode_utf8(bytes.subrange(end - ws, end)).len() ==> is_white_space(
                    #[trigger] decode_utf8(bytes.subrange(end - ws, end))[j],
                )
            &&& ws < end - start ==> decode_utf8(bytes.subrange(start, end - ws)).len() > 0
                && !is_white_space(decode_utf8(bytes.subrange(start, end - ws)).last())
        }),
{
    lemma_trailing_white_space(chars);
    let m = chars.len() - trailing_white_space(chars);
    let a = chars.take(m);
    let b = chars.skip(m);
    assert(a + b =~= chars);
    lemma_encode_utf8_append(a, b);
    let ea = encode_utf8(a);
    let eb = encode_utf8(b);
    let ws = eb.len() as int;
    assert(bytes.subrange(start, end) == ea + eb);
    assert(bytes.subrange(end - ws, end) =~= eb) by {
        assert forall|j: int| 0 <= j < ws implies #[trigger] bytes.subrange(end - ws, end)[j] == eb[j] by {
            assert(bytes.subrange(start, end)[ea.len() + j] == eb[j]);
        }
    }
    assert(bytes.subrange(start, end - ws) =~= ea) by {
        assert forall|j: int| 0 <= j < ea.len() implies #[trigger] bytes.subrange(start, end - ws)[j] == ea[j] by {
            assert(bytes.subrange(start, end)[j] == ea[j]);
        }
    }
    encode_utf8_decode_utf8(a);
    encode_utf8_decode_utf8(b);
    assert forall|j: int| 0 <= j < b.len() implies is_white_space(#[trigger] b[j]) by {
        assert(b[j] == chars[m + j]);
    }
    if ws < end - start {
        assert(ea.len() > 0);
        if m == 0 {
            assert(a =~= Seq::<char>::empty());
            assert(ea =~= Seq::<u8>::empty());
        }
        assert(a.last() == chars[m - 1]);
    }
}

/// Number of UTF-8 bytes of the characters of `chars` from index `from` on.
fn utf8_len_from(chars: &Vec<char>, from: usize) -> (n: usize)
    requires
        from <= chars@.len(),
        encode_utf8(chars@).len() <= usize::MAX,
    ensures
        n == encode_utf8(chars@.skip(from as int)).len(),
{
    let mut n: usize = 0;
    let mut i: usize = chars.len();
    assert(chars@.skip(chars@.len() as int) =~= Seq::<char>::empty());
    while i > from
        invariant
            from <= i <= chars@.len(),
            encode_utf8(chars@).len() <= usize::MAX,
            n == encode_utf8(chars@.skip(i as int)).len(),
        decreases i,
    {
        let c = chars[i - 1];
        proof {
            assert(chars@.skip(i - 1).drop_first() =~= chars@.skip(i as int));
            assert(chars@.skip(i - 1)[0] == c);
            assert(chars@.take(i - 1) + chars@.skip(i - 1) =~= chars@);
            lemma_encode_utf8_append(chars@.take(i - 1), chars@.skip(i - 1));
        }
        n = n + utf8_len(c);
        i = i - 1;
    }
    n
}

proof fn lemma_boundary_in_rest(bytes: Seq<u8>, start: int, end: int)
    requires
        valid_utf8(bytes),
        0 <= start <= end <= bytes.len(),
        is_char_boundary(bytes, start),
        is_char_boundary(bytes, end),
    ensures
        valid_utf8(bytes.subrange(start, bytes.len() as int)),
        is_char_boundary(bytes.subrange(start, bytes.len() as int), end - start),
{
    let rest = bytes.subrange(start, bytes.len() as int);
    valid_utf8_split(bytes, start);
    if end == bytes.len() {
        is_char_boundary_start_end_of_seq(rest);
    } else {
        is_char_boundary_iff_not_is_continuation_byte(bytes, end);
        is_char_boundary_iff_not_is_continuation_byte(rest, end - start);
    }
}

/// The line that pango reports as starting at byte `start_index` with
/// `length` bytes: its end is moved past the line terminator that pango
/// leaves out, and its trailing whitespace is counted in bytes.
pub fn pango_line_range(text: &str, start_index: usize, length: usize) -> (r: Option<LineRange>)
    ensures
        r == pango_line_range_spec(text, start_index as int, length as int),
        r is Some ==> r->0.start_offset == start_index,
        r is Some ==> start_index + length <= r->0.end_offset <= text.spec_bytes().len(),
        // the line takes in a CR LF, CR or LF terminator right after it, and nothing else
        r is Some && start_index + length + 1 < text.spec_bytes().len() && text.spec_bytes()[start_index
            + length] == 0x0d && text.spec_bytes()[start_index + length + 1] == 0x0a ==> r->0.end_offset
            == start_index + length + 2,
        r is Some && start_index + length < text.spec_bytes().len() && text.spec_bytes()[start_index
            + length] == 0x0a ==> r->0.end_offset == start_index + length + 1,
        r is Some && start_index + length < text.spec_bytes().len() && text.spec_bytes()[start_index
            + length] == 0x0d && !(start_index + length + 1 < text.spec_bytes().len()
            && text.spec_bytes()[start_index + length + 1] == 0x0a) ==> r->0.end_offset == start_index
            + length + 1,
        r is Some && (start_index + length == text.spec_bytes().len() || (text.spec_bytes()[start_index
            + length] != 0x0d && text.spec_bytes()[start_index + length] != 0x0a)) ==> r->0.end_offset
            == start_index + length,
        forall|k: int|
            r is Some && start_index + length <= k < r->0.end_offset ==> (text.spec_bytes()[k] == 0x0d
                || text.spec_bytes()[k] == 0x0a),
        // the trailing whitespace is the longest run of White_Space
        // characters that ends the line, counted in bytes
        r is Some ==> r->0.trailing_whitespace <= r->0.end_offset - start_index,
        r is Some ==> forall|j: int|
            0 <= j < decode_utf8(
                text.spec_bytes().subrange(
                    r->0.end_offset - r->0.trailing_whitespace,
                    r->0.end_offset as int,
                ),
            ).len() ==> is_white_space(
                #[trigger] decode_utf8(
                    text.spec_bytes().subrange(
                        r->0.end_offset - r->0.trailing_whitespace,
                        r->0.end_offset as int,
                    ),
                )[j],
            ),
        r is Some && r->0.trailing_whitespace < r->0.end_offset - start_index ==> {
            let before = decode_utf8(
                text.spec_bytes().subrange(
                    start_index as int,
                    r->0.end_offset - r->0.trailing_whitespace,
                ),
            );
            before.len() > 0 && !is_white_space(before.last())
        },
{
    let bytes = text.as_bytes();
    let len = bytes.len();
    if length > len || start_index > len - length {
        return None;
    }
    let end0 = start_index + length;
    let end = if len - end0 > 1 && bytes[end0] == 0x0d && bytes[end0 + 1] == 0x0a {
        end0 + 2
    } else if end0 < len && (bytes[end0] == 0x0d || bytes[end0] == 0x0a) {
        end0 + 1
    } else {
        end0
    };
    if !text.is_char_boundary(start_index) || !text.is_char_boundary(end) {
        return None;
    }
    proof {
        encode_utf8_valid_utf8(text@);
        lemma_boundary_in_rest(bytes@, start_index as int, end as int);
    }
    let (_, rest) = text.split_at(start_index);
    let (line, _) = rest.split_at(end - start_index);
    let ghost line_bytes = bytes@.subrange(start_index as int, end as int);
    proof {
        assert(line.spec_bytes() =~= line_bytes);
        encode_utf8_decode_utf8(line@);
    }
    let chars = crate::text_units::chars_of(line);
    let ws_chars = count_trailing_whitespace(line);
    proof {
        lemma_trailing_white_space(line@);
        assert(encode_utf8(chars@).len() == line_bytes.len());
    }
    let ws = utf8_len_from(&chars, chars.len() - ws_chars);
    proof {
        assert(line.spec_bytes() == encode_utf8(line@));
        lemma_trailing_ws_of_line(bytes@, start_index as int, end as int, chars@);
    }
    Some(LineRange { start_offset: start_index, end_offset: end, trailing_whitespace: ws })
}


/// The line starts are in nondecreasing order.
pub open spec fn starts_sorted(lines: Seq<LineRange>) -> bool {
    forall|i: int, j: int|
        0 <= i <= j < lines.len() ==> #[trigger] lines[i].start_offset <= #[trigger] lines[j].start_offset
}

/// The number of lines that start at or before `pos`, by binary search.
fn count_lines_starting_by(lines: &[LineRange], pos: usize) -> (c: usize)
    requires
        starts_sorted(lines@),
    ensures
        c <= lines@.len(),
        forall|i: int| 0 <= i < c ==> #[trigger] lines@[i].start_offset <= pos,
        forall|i: int| c <= i < lines@.len() ==> #[trigger] lines@[i].start_offset > pos,
{
    let mut lo: usize = 0;
    let mut hi: usize = lines.len();
    while lo < hi
        invariant
            starts_sorted(lines@),
            lo <= hi <= lines@.len(),
            forall|i: int| 0 <= i < lo ==> #[trigger] lines@[i].start_offset <= pos,
            forall|i: int| hi <= i < lines@.len() ==> #[trigger] lines@[i].start_offset > pos,
        decreases hi - lo,
    {
        let mid = lo + (hi - lo) / 2;
        if lines[mid].start_offset <= pos {
            proof {
                assert forall|i: int| 0 <= i < mid + 1 implies #[trigger] lines@[i].start_offset
                    <= pos by {
                    assert(lines@[i].start_offset <= lines@[mid as int].start_offset);
                }
            }
            lo = mid + 1;
        } else {
            proof {
                assert forall|i: int| mid <= i < lines@.len() implies #[trigger] lines@[i].start_offset
                    > pos by {
                    assert(lines@[mid as int].start_offset <= lines@[i].start_offset);
                }
            }
            hi = mid;
        }
    }
    lo
}

/// The index of the line containing the byte `position`: the last line
/// that starts at or before it.
pub fn line_number_for_position(lines: &[LineRange], position: usize) -> (r: usize)
    requires
        lines@.len() > 0,
        starts_sorted(lines@),
        lines@[0].start_offset <= position,
    ensures
        r < lines@.len(),
        lines@[r as int].start_offset <= position,
        forall|j: int| r < j < lines@.len() ==> #[trigger] lines@[j].start_offset > position,
{
    let c = count_lines_starting_by(lines, position);
    c - 1
}

/// The index of the line that contains the byte `offset`: the last line
/// that starts at or before it, or the first line when there is none.
pub fn line_number_for_utf8_offset(lines: &[LineRange], offset: usize) -> (r: usize)
    requires
        starts_sorted(lines@),
    ensures
        lines@.len() == 0 || lines@[0].start_offset > offset ==> r == 0,
        lines@.len() > 0 && lines@[0].start_offset <= offset ==> {
            &&& r < lines@.len()
            &&& lines@[r as int].start_offset <= offset
            &&& forall|j: int| r < j < lines@.len() ==> #[trigger] lines@[j].start_offset > offset
        },
{
    let c = count_lines_starting_by(lines, offset);
    if c == 0 {
        0
    } else {
        c - 1
    }
}

/// Line `i` holds the byte `idx`.
pub open spec fn line_holds(line: LineRange, idx: int) -> bool {
    line.start_offset <= idx < line.end_offset
}

/// The first line that holds the byte `idx`, or the last line when none
/// does.
pub fn line_containing(lines: &[LineRange], idx: usize) -> (r: usize)
    requires
        lines@.len() > 0,
    ensures
        r < lines@.len(),
        forall|j: int| 0 <= j < r ==> !line_holds(#[trigger] lines@[j], idx as int),
        line_holds(lines@[r as int], idx as int) || (r == lines@.len() - 1 && !line_holds(
            lines@[r as int],
            idx as int,
        )),
{
    let mut i: usize = 0;
    while i < lines.len()
        invariant
            i <= lines@.len(),
            forall|j: int| 0 <= j < i ==> !line_holds(#[trigger] lines@[j], idx as int),
        decreases lines@.len() - i,
    {
        if lines[i].start_offset <= idx && idx < lines[i].end_offset {
            return i;
        }
        i = i + 1;
    }
    lines.len() - 1
}


/// The lines follow each other through a text of `len` bytes: the first
/// starts at 0, each starts where the one before it ends, none ends before
/// it starts or past the text, and a line's trailing whitespace lies within
/// it.
pub open spec fn lines_tile(lines: Seq<LineRange>, len: int) -> bool {
    &&& lines.len() > 0 ==> lines[0].start_offset == 0
    &&& forall|i: int|
        0 <= i < lines.len() ==> {
            &&& #[trigger] lines[i].start_offset <= lines[i].end_offset <= len
            &&& lines[i].trailing_whitespace <= lines[i].end_offset - lines[i].start_offset
        }
    &&& forall|i: int|
        0 < i < lines.len() ==> #[trigger] lines[i].start_offset == lines[i - 1].end_offset
}

/// Lines that tile a text have their starts in order.
pub proof fn lemma_tiled_starts_sorted(lines: Seq<LineRange>, len: int)
    requires
        lines_tile(lines, len),
    ensures
        starts_sorted(lines),
{
    assert forall|i: int, j: int|
        0 <= i <= j < lines.len() implies #[trigger] lines[i].start_offset
        <= #[trigger] lines[j].start_offset by {
        lemma_tiled_starts_step(lines, len, i, j);
    }
}

proof fn lemma_tiled_starts_step(lines: Seq<LineRange>, len: int, i: int, j: int)
    requires
        lines_tile(lines, len),
        0 <= i <= j < lines.len(),
    ensures
        lines[i].start_offset <= lines[j].start_offset,
    decreases j - i,
{
    if i < j {
        lemma_tiled_starts_step(lines, len, i, j - 1);
        assert(lines[j].start_offset == lines[j - 1].end_offset);
        assert(lines[j - 1].start_offset <= lines[j - 1].end_offset);
    }
}

proof fn lemma_line_end_chars_bounds(chars: Seq<char>, ends: Seq<usize>, n: nat)
    requires
        line_end_chars(chars, ends, n) is Some,
    ensures
        forall|i: int|
            0 <= i < line_end_chars(chars, ends, n).unwrap().0.len() ==> 0 <= #[trigger] line_end_chars(
                chars,
                ends,
                n,
            ).unwrap().0[i] <= chars.len(),
        0 <= line_end_chars(chars, ends, n).unwrap().1 <= chars.len(),
    decreases n,
{
    if n > 0 {
        lemma_line_end_chars_bounds(chars, ends, (n - 1) as nat);
    }
}

/// The line ranges computed from a layout's UTF-16 line ends tile the
/// text.
pub proof fn lemma_utf16_line_ranges_tile(chars: Seq<char>, ends: Seq<usize>)
    requires
        utf16_line_ranges(chars, ends) is Some,
        encode_utf8(chars).len() <= usize::MAX,
    ensures
        lines_tile(utf16_line_ranges(chars, ends).unwrap(), encode_utf8(chars).len() as int),
{
    let lines = utf16_line_ranges(chars, ends).unwrap();
    let idx = line_end_chars(chars, ends, ends.len()).unwrap().0;
    let len = encode_utf8(chars).len() as int;
    lemma_line_end_chars_bounds(chars, ends, ends.len());
    assert forall|i: int| 0 <= i < lines.len() implies {
        &&& #[trigger] lines[i].start_offset <= lines[i].end_offset <= len
        &&& lines[i].trailing_whitespace <= lines[i].end_offset - lines[i].start_offset
    } by {
        lemma_byte_offset_bound(chars, idx[i]);
        if i > 0 {
            lemma_byte_offset_bound(chars, idx[i - 1]);
        }
        let start = line_start_byte(chars, idx, i);
        let end = byte_offset(chars, idx[i]) as int;
        assert(start <= end);
        lemma_trailing_ascii_ws_bound(encode_utf8(chars).subrange(start, end));
    }
    assert forall|i: int| 0 < i < lines.len() implies #[trigger] lines[i].start_offset
        == lines[i - 1].end_offset by {
        lemma_byte_offset_bound(chars, idx[i - 1]);
    }
}


/// In lines that tile a text up to its end, the line that
/// `line_number_for_position` finds for a byte of the text holds that byte.
pub proof fn lemma_line_number_holds_position(lines: Seq<LineRange>, len: int, pos: int, r: int)
    requires
        lines_tile(lines, len),
        lines.len() > 0,
        lines.last().end_offset == len,
        0 <= pos < len,
        0 <= r < lines.len(),
        lines[r].start_offset <= pos,
        forall|j: int| r < j < lines.len() ==> #[trigger] lines[j].start_offset > pos,
    ensures
        line_holds(lines[r], pos),
{
    if r + 1 < lines.len() {
        assert(lines[r + 1].start_offset == lines[(r + 1) - 1].end_offset);
        assert(lines[r + 1].start_offset > pos);
    }
}

} // verus!
