//! Offset conversions of the DirectWrite text layout: DirectWrite counts
//! text in UTF-16 code units, piet in UTF-8 bytes.

use vstd::prelude::*;
use vstd::utf8::*;
use vstd::string::StringSliceAdditionalSpecFns;
use crate::text_units::{
    utf16_len_of_bytes,
    utf16_prefix,
    count_utf16,
    count_until_utf16,
    count_until_utf16_spec,
    lemma_utf16_len_of_bytes_append,
    lemma_utf16_len_of_encoding,
    lemma_utf16_prefix_monotone,
    lemma_count_until_found,
};
use crate::line_ranges::{LineRange, lines_tile};

verus! {

/// A range in a windows string, represented as a start position and a
/// length, both in UTF-16 code units.
#[derive(Clone, Copy, Debug, PartialEq, Eq, Structural)]
pub struct Utf16Range {
    pub start: usize,
    pub len: usize,
}

impl Utf16Range {
    pub fn new(start: usize, len: usize) -> (r: Self)
        ensures
            r.start == start,
            r.len == len,
    {
        Utf16Range { start, len }
    }
}

/// The locale that font names are looked up in: "en-US" in UTF-16, with a
/// terminating 0.
pub const DEFAULT_LOCALE: [u16; 6] = [0x65, 0x6e, 0x2d, 0x55, 0x53, 0];

/// UTF-16 code units of the bytes `bytes[a..b]`.
fn count_utf16_in(bytes: &[u8], a: usize, b: usize) -> (n: usize)
    requires
        a <= b <= bytes@.len(),
        utf16_len_of_bytes(bytes@) <= bytes@.len(),
    ensures
        n == utf16_len_of_bytes(bytes@.subrange(a as int, b as int)),
{
    let mut n: usize = 0;
    let mut i: usize = a;
    assert(bytes@.subrange(a as int, a as int) =~= Seq::<u8>::empty());
    while i < b
        invariant
            a <= i <= b <= bytes@.len(),
            utf16_len_of_bytes(bytes@) <= bytes@.len(),
            n == utf16_len_of_bytes(bytes@.subrange(a as int, i as int)),
        decreases b - i,
    {
        let x = bytes[i];
        proof {
            assert(bytes@.subrange(a as int, i + 1).drop_last() =~= bytes@.subrange(a as int, i as int));
            lemma_prefix_split(bytes@, a as int, i + 1);
            lemma_utf16_prefix_monotone(bytes@, i + 1, bytes@.len() as int);
            assert(bytes@.take(bytes@.len() as int) =~= bytes@);
        }
        if x < 0x80 || x >= 0xc0 {
            n = n + 1;
        }
        if x >= 0xf0 {
            n = n + 1;
        }
        i = i + 1;
    }
    n
}

proof fn lemma_prefix_split(bytes: Seq<u8>, s: int, e: int)
    requires
        0 <= s <= e <= bytes.len(),
    ensures
        utf16_prefix(bytes, e) == utf16_prefix(bytes, s) + utf16_len_of_bytes(bytes.subrange(s, e)),
        utf16_len_of_bytes(bytes.subrange(0, s)) == utf16_prefix(bytes, s),
{
    assert(bytes.take(e) =~= bytes.take(s) + bytes.subrange(s, e));
    lemma_utf16_len_of_bytes_append(bytes.take(s), bytes.subrange(s, e));
    assert(bytes.subrange(0, s) =~= bytes.take(s));
}

/// The UTF-16 range that an attribute applies to. An attribute without a
/// range covers the whole text; one with the byte range `s..e` starts at
/// the UTF-16 offset of `s`, and its length is that of `s..e`, or of the
/// whole text when `e` is the end of the text. None where a byte offset that
/// must be a character boundary is not one.
pub open spec fn attribute_range_spec(bytes: Seq<u8>, range: Option<(usize, usize)>) -> Option<
    Utf16Range,
> {
    match range {
        None => Some(Utf16Range { start: 0, len: utf16_len_of_bytes(bytes) as usize }),
        Some((s, e)) => if is_char_boundary(bytes, s as int) && (e == bytes.len() || (s <= e
            && is_char_boundary(bytes, e as int))) {
            Some(
                Utf16Range {
                    start: utf16_prefix(bytes, s as int) as usize,
                    len: (if e == bytes.len() {
                        utf16_len_of_bytes(bytes) as int
                    } else {
                        utf16_prefix(bytes, e as int) - utf16_prefix(bytes, s as int)
                    }) as usize,
                },
            )
        } else {
            None
        },
    }
}

/// The UTF-16 range of a text attribute given by an optional byte range of
/// `text`.
pub fn attribute_utf16_range(text: &str, range: Option<(usize, usize)>) -> (r: Option<Utf16Range>)
    ensures
        r == attribute_range_spec(text.spec_bytes(), range),
{
    let bytes = text.as_bytes();
    let len = bytes.len();
    proof {
        lemma_utf16_len_of_encoding(text@);
        assert(bytes@.subrange(0, len as int) =~= bytes@);
        assert(bytes@.take(len as int) =~= bytes@);
    }
    let len_utf16 = count_utf16(text);
    match range {
        None => Some(Utf16Range::new(0, len_utf16)),
        Some((s, e)) => {
            if !text.is_char_boundary(s) {
                return None;
            }
            if e != len && !(s <= e && text.is_char_boundary(e)) {
                return None;
            }
            proof {
                encode_utf8_valid_utf8(text@);
                if s > len {
                    assert(!is_char_boundary(bytes@, s as int));
                }
            }
            let start = count_utf16_in(bytes, 0, s);
            proof {
                lemma_prefix_split(bytes@, s as int, len as int);
            }
            let n = if e == len {
                len_utf16
            } else {
                proof {
                    if e > len {
                        assert(!is_char_boundary(bytes@, e as int));
                    }
                    lemma_prefix_split(bytes@, s as int, e as int);
                }
                count_utf16_in(bytes, s, e)
            };
            Some(Utf16Range::new(start, n))
        },
    }
}

/// Where a line's text that is `total` code units long, the last `ws` of
/// them whitespace, ends before its whitespace, and how long that
/// whitespace is, both in bytes. Each offset is one past the byte at which
/// the UTF-16 count reaches it. None where `ws > total`, an offset is past
/// the text, or the whitespace does not start on a character boundary.
pub open spec fn end_and_ws_spec(bytes: Seq<u8>, total: u32, ws: u32) -> Option<(usize, usize)> {
    if ws > total {
        None
    } else {
        let non_ws = total - ws;
        let a: Option<int> = if non_ws > 0 {
            match count_until_utf16_spec(bytes, non_ws - 1) {
                None => None,
                Some(i) => Some(i + 1),
            }
        } else {
            Some(0)
        };
        match a {
            None => None,
            Some(a) => if !is_char_boundary(bytes, a) {
                None
            } else if ws > 0 {
                match count_until_utf16_spec(bytes.subrange(a, bytes.len() as int), ws - 1) {
                    None => None,
                    Some(j) => Some((a as usize, (j + 1) as usize)),
                }
            } else {
                Some((a as usize, 0usize))
            },
        }
    }
}

/// The byte offset where the text of a line ends before its trailing
/// whitespace, and the byte length of that whitespace, from the line's
/// length and whitespace length in UTF-16 code units.
pub fn end_offset_and_ws_len_utf8(s: &str, total_len_16: u32, ws_len_16: u32) -> (r: Option<
    (usize, usize),
>)
    ensures
        r == end_and_ws_spec(s.spec_bytes(), total_len_16, ws_len_16),
{
    let slen = s.as_bytes().len();
    if ws_len_16 > total_len_16 {
        return None;
    }
    let non_ws_len_16 = (total_len_16 - ws_len_16) as usize;
    let non_ws_end_8 = if non_ws_len_16 > 0 {
        match count_until_utf16(s, non_ws_len_16 - 1) {
            None => return None,
            Some(i) => i + 1,
        }
    } else {
        0
    };
    if !s.is_char_boundary(non_ws_end_8) {
        return None;
    }
    proof {
        encode_utf8_valid_utf8(s@);
        if non_ws_end_8 > s.spec_bytes().len() {
            assert(!is_char_boundary(s.spec_bytes(), non_ws_end_8 as int));
        }
    }
    let ws_len_8 = if ws_len_16 > 0 {
        let (_, rest) = s.split_at(non_ws_end_8);
        let _rlen = rest.as_bytes().len();
        match count_until_utf16(rest, ws_len_16 as usize - 1) {
            None => return None,
            Some(j) => j + 1,
        }
    } else {
        0
    };
    Some((non_ws_end_8, ws_len_8))
}

/// The byte ranges of the lines of a DirectWrite layout, from each line's
/// `(length, trailing whitespace length)` in UTF-16 code units, and the byte
/// offset where the next line starts; each line starts where the one
/// before it ended.
pub open spec fn dwrite_lines(bytes: Seq<u8>, raw: Seq<(u32, u32)>, n: nat) -> Option<
    (Seq<LineRange>, int),
>
    decreases n,
{
    if n == 0 {
        Some((Seq::empty(), 0))
    } else {
        match dwrite_lines(bytes, raw, (n - 1) as nat) {
            None => None,
            Some((lines, off)) => if !is_char_boundary(bytes, off) {
                None
            } else {
                match end_and_ws_spec(
                    bytes.subrange(off, bytes.len() as int),
                    raw[n - 1].0,
                    raw[n - 1].1,
                ) {
                    None => None,
                    Some((a, b)) => {
                        let end = off + a + b;
                        Some(
                            (
                                lines.push(
                                    LineRange {
                                        start_offset: off as usize,
                                        end_offset: end as usize,
                                        trailing_whitespace: b,
                                    },
                                ),
                                end,
                            ),
                        )
                    },
                }
            },
        }
    }
}

proof fn end_and_ws_bound(bytes: Seq<u8>, total: u32, ws: u32)
    requires
        end_and_ws_spec(bytes, total, ws) is Some,
        bytes.len() <= usize::MAX,
    ensures
        end_and_ws_spec(bytes, total, ws).unwrap().0 + end_and_ws_spec(bytes, total, ws).unwrap().1
            <= bytes.len(),
{
    if total - ws > 0 {
        lemma_count_until_found(bytes, total - ws - 1);
    }
    let a = end_and_ws_spec(bytes, total, ws).unwrap().0;
    if ws > 0 {
        assert(a <= bytes.len());
        lemma_count_until_found(bytes.subrange(a as int, bytes.len() as int), ws - 1);
    }
}

proof fn lemma_dwrite_lines_none(bytes: Seq<u8>, raw: Seq<(u32, u32)>, m: nat, n: nat)
    requires
        m <= n,
        dwrite_lines(bytes, raw, m) is None,
    ensures
        dwrite_lines(bytes, raw, n) is None,
    decreases n,
{
    if m < n {
        lemma_dwrite_lines_none(bytes, raw, m, (n - 1) as nat);
    }
}

/// The line ranges of a DirectWrite layout of `text`, from the lengths
/// that DirectWrite reports for its lines. None where they do not fit the
/// text.
pub fn fetch_line_ranges(text: &str, raw: &[(u32, u32)]) -> (r: Option<Vec<LineRange>>)
    ensures
        match r {
            None => dwrite_lines(text.spec_bytes(), raw@, raw@.len()) is None,
            Some(v) => dwrite_lines(text.spec_bytes(), raw@, raw@.len()) is Some && v@
                == dwrite_lines(text.spec_bytes(), raw@, raw@.len()).unwrap().0,
        },
{
    let bytes = text.as_bytes();
    let len = bytes.len();
    let mut out: Vec<LineRange> = Vec::new();
    let mut offset: usize = 0;
    let mut i: usize = 0;
    proof {
        encode_utf8_valid_utf8(text@);
    }
    while i < raw.len()
        invariant
            bytes@ == text.spec_bytes(),
            len == bytes@.len(),
            valid_utf8(bytes@),
            i <= raw@.len(),
            offset <= len,
            dwrite_lines(bytes@, raw@, i as nat) == Some((out@, offset as int)),
        decreases raw@.len() - i,
    {
        if !text.is_char_boundary(offset) {
            proof {
                lemma_dwrite_lines_none(bytes@, raw@, (i + 1) as nat, raw@.len());
            }
            return None;
        }
        let (_, rest) = text.split_at(offset);
        let (length, ws) = raw[i];
        let ghost rest_bytes = bytes@.subrange(offset as int, len as int);
        proof {
            assert(rest.spec_bytes() =~= rest_bytes);
        }
        match end_offset_and_ws_len_utf8(rest, length, ws) {
            None => {
                proof {
                    assert(end_and_ws_spec(rest_bytes, raw@[i as int].0, raw@[i as int].1) is None);
                    assert(dwrite_lines(bytes@, raw@, (i + 1) as nat) is None);
                    lemma_dwrite_lines_none(bytes@, raw@, (i + 1) as nat, raw@.len());
                }
                return None;
            },
            Some((a, b)) => {
                proof {
                    end_and_ws_bound(rest_bytes, length, ws);
                }
                let end = offset + a + b;
                out.push(LineRange { start_offset: offset, end_offset: end, trailing_whitespace: b });
                offset = end;
            },
        }
        i = i + 1;
    }
    Some(out)
}

/// The lines that DirectWrite's line lengths give tile the text up to
/// where the last one ends.
pub proof fn lemma_dwrite_lines_tile(bytes: Seq<u8>, raw: Seq<(u32, u32)>, n: nat)
    requires
        dwrite_lines(bytes, raw, n) is Some,
        bytes.len() <= usize::MAX,
    ensures
        lines_tile(dwrite_lines(bytes, raw, n).unwrap().0, bytes.len() as int),
        dwrite_lines(bytes, raw, n).unwrap().0.len() == n,
        0 <= dwrite_lines(bytes, raw, n).unwrap().1 <= bytes.len(),
        n > 0 ==> dwrite_lines(bytes, raw, n).unwrap().1 == dwrite_lines(bytes, raw, n).unwrap().0[n
            - 1].end_offset,
    decreases n,
{
    if n > 0 {
        lemma_dwrite_lines_tile(bytes, raw, (n - 1) as nat);
        let (prev, off) = dwrite_lines(bytes, raw, (n - 1) as nat).unwrap();
        let rest = bytes.subrange(off, bytes.len() as int);
        end_and_ws_bound(rest, raw[n - 1].0, raw[n - 1].1);
        let lines = dwrite_lines(bytes, raw, n).unwrap().0;
        assert forall|i: int| 0 < i < lines.len() implies #[trigger] lines[i].start_offset
            == lines[i - 1].end_offset by {
            if i < n - 1 {
                assert(lines[i] == prev[i] && lines[i - 1] == prev[i - 1]);
            }
        }
        assert forall|i: int| 0 <= i < lines.len() implies {
            &&& #[trigger] lines[i].start_offset <= lines[i].end_offset <= bytes.len()
            &&& lines[i].trailing_whitespace <= lines[i].end_offset - lines[i].start_offset
        } by {
            if i < n - 1 {
                assert(lines[i] == prev[i]);
                assert(prev[i].start_offset <= prev[i].end_offset);
            } else {
                let (a, b) = end_and_ws_spec(rest, raw[n - 1].0, raw[n - 1].1).unwrap();
                assert(a + b <= rest.len());
                assert(lines[i].start_offset == off);
                assert(lines[i].end_offset == off + a + b);
                assert(lines[i].trailing_whitespace == b);
            }
        }
    }
}

/// The UTF-16 position of a hit, moved past the hit cluster when the hit is
/// on its trailing side.
pub open spec fn hit_position_16(position: u32, length: u32, is_trailing: bool) -> int {
    if is_trailing {
        position + length
    } else {
        position as int
    }
}

/// The byte offset in `text` of a DirectWrite hit at UTF-16 `position`,
/// covering `length` code units: the byte at which the hit's position falls
/// (past the cluster for a trailing hit), or the end of the text.
pub fn hit_text_position(text: &str, position: u32, length: u32, is_trailing: bool) -> (r: usize)
    requires
        is_trailing ==> position + length <= u32::MAX,
    ensures
        r == match count_until_utf16_spec(
            text.spec_bytes(),
            hit_position_16(position, length, is_trailing),
        ) {
            Some(i) => i,
            None => text.spec_bytes().len() as int,
        },
        // a leading hit gives the character boundary at UTF-16 index `position`
        forall|j: int|
            0 <= j < text.spec_bytes().len() && is_char_boundary(text.spec_bytes(), j) && !is_trailing
                && #[trigger] utf16_prefix(text.spec_bytes(), j) == position ==> r == j,
        // a trailing hit gives the boundary at the end of the hit cluster,
        // `position + length` code units in
        forall|j: int|
            0 <= j < text.spec_bytes().len() && is_char_boundary(text.spec_bytes(), j) && is_trailing
                && #[trigger] utf16_prefix(text.spec_bytes(), j) == position + length ==> r == j,
        // or the end of the text when the cluster ends it
        is_trailing && position + length >= utf16_prefix(text.spec_bytes(), text.spec_bytes().len() as int)
            ==> r == text.spec_bytes().len(),
        !is_trailing && position >= utf16_prefix(text.spec_bytes(), text.spec_bytes().len() as int)
            ==> r == text.spec_bytes().len(),
{
    let position_16 = if is_trailing {
        position + length
    } else {
        position
    } as usize;
    proof {
        encode_utf8_valid_utf8(text@);
        assert(text.spec_bytes().take(text.spec_bytes().len() as int) =~= text.spec_bytes());
        assert forall|j: int|
            0 <= j < text.spec_bytes().len() && is_char_boundary(text.spec_bytes(), j)
                implies count_until_utf16_spec(text.spec_bytes(), #[trigger] utf16_prefix(
                text.spec_bytes(),
                j,
            ) as int) == Some(j) by {
            crate::text_units::lemma_count_until_inverts_count(text.spec_bytes(), j);
        }
    }
    match count_until_utf16(text, position_16) {
        Some(i) => i,
        None => text.as_bytes().len(),
    }
}


/// Hit testing undoes position lookup: a leading-edge hit at the UTF-16
/// index of a character boundary of the text (the index that
/// `dwrite_text_position` gives DirectWrite) maps back to that boundary.
pub proof fn lemma_hit_position_round_trip(text: &str, i: int, length: u32)
    requires
        0 <= i < text.spec_bytes().len(),
        is_char_boundary(text.spec_bytes(), i),
        utf16_prefix(text.spec_bytes(), i) <= u32::MAX,
    ensures
        count_until_utf16_spec(
            text.spec_bytes(),
            hit_position_16(utf16_prefix(text.spec_bytes(), i) as u32, length, false),
        ) == Some(i),
{
    encode_utf8_valid_utf8(text@);
    crate::text_units::lemma_count_until_inverts_count(text.spec_bytes(), i);
}

} // verus!
