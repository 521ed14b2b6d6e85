//! The offset arithmetic of hit testing: turning the position that a text
//! layout engine reports for a point into a byte offset of the text, and a
//! byte offset into the position the engine expects.

use vstd::prelude::*;
use vstd::utf8::*;
use vstd::string::StringSliceAdditionalSpecFns;
use crate::text_units::{
    utf16_prefix,
    count_until_utf16,
    count_until_utf16_spec,
    count_utf16,
    chars_of,
    utf8_len,
    lemma_byte_offset_step,
    byte_offset,
    lemma_encode_utf8_append,
};
use crate::line_ranges::{
    LineRange,
    starts_sorted,
    line_number_for_position,
    line_containing,
    line_holds,
};
use crate::lines::trailing_nlf;

verus! {

/// Bytes of the line break at the end of a line: 2 for CR LF, 1 for LF,
/// otherwise 0.
pub open spec fn hard_break_len(bytes: Seq<u8>) -> int {
    let n = bytes.len() as int;
    if n >= 2 && bytes[n - 2] == 0x0d && bytes[n - 1] == 0x0a {
        2
    } else if n >= 1 && bytes[n - 1] == 0x0a {
        1
    } else {
        0
    }
}

/// The offset in the line of a pango hit. A hit inside the line is at
/// `index` (an offset in the text) moved past `trailing` further
/// characters; a hit outside is at the line's end (before its line break)
/// when it lies on the side where the line ends, else at its start. None
/// where the index is not a character boundary of the line.
pub open spec fn pango_hit_rel(
    line_start: int,
    line_bytes: Seq<u8>,
    is_inside: bool,
    index: i32,
    trailing: i32,
    hit_is_left: bool,
    is_rtl: bool,
) -> Option<int> {
    if is_inside {
        let u = index as usize as int;
        let idx = u - line_start;
        if idx < 0 || !is_char_boundary(line_bytes, idx) {
            None
        } else {
            let rest = decode_utf8(line_bytes.subrange(idx, line_bytes.len() as int));
            let t = trailing as usize as int;
            let taken = if t < rest.len() {
                rest.take(t)
            } else {
                rest
            };
            Some(idx + encode_utf8(taken).len())
        }
    } else if hit_is_left == is_rtl {
        let n = line_bytes.len() - hard_break_len(line_bytes);
        Some(if n > 0 { n } else { 0 })
    } else {
        Some(0)
    }
}

/// The byte offset in the text of a pango hit on the line that starts at
/// `line_start` and holds `line_text`: `is_inside`, `index` and `trailing`
/// are what pango reports, `hit_is_left` whether the point lies left of the
/// line, `is_rtl` whether the text runs right to left.
pub fn pango_hit_offset(
    line_start: usize,
    line_text: &str,
    is_inside: bool,
    index: i32,
    trailing: i32,
    hit_is_left: bool,
    is_rtl: bool,
) -> (r: Option<usize>)
    requires
        line_start + line_text.spec_bytes().len() <= usize::MAX,
    ensures
        match r {
            None => pango_hit_rel(
                line_start as int,
                line_text.spec_bytes(),
                is_inside,
                index,
                trailing,
                hit_is_left,
                is_rtl,
            ) is None,
            Some(o) => pango_hit_rel(
                line_start as int,
                line_text.spec_bytes(),
                is_inside,
                index,
                trailing,
                hit_is_left,
                is_rtl,
            ) == Some(o - line_start),
        },
        // a hit inside the line is found when its index is a character
        // boundary of the line
        is_inside ==> (r is Some <==> index as usize >= line_start && is_char_boundary(
            line_text.spec_bytes(),
            index as usize - line_start,
        )),
        // and lies `trailing` characters after the index (or at the line's
        // end when fewer are left)
        is_inside && trailing >= 0 && r is Some ==> ({
            let bytes = line_text.spec_bytes();
            let idx = index as usize - line_start;
            let o = r->0 - line_start;
            &&& 0 <= idx <= o <= bytes.len()
            &&& decode_utf8(bytes.subrange(idx, o)).len() == if trailing < decode_utf8(
                bytes.subrange(idx, bytes.len() as int),
            ).len() {
                trailing as int
            } else {
                decode_utf8(bytes.subrange(idx, bytes.len() as int)).len() as int
            }
        }),
        // a hit beside the line on the side where it starts is its start
        !is_inside && hit_is_left != is_rtl ==> r == Some(line_start),
        // one on the side where it ends is its end, before a final LF or CR LF
        !is_inside && hit_is_left == is_rtl ==> r is Some && ({
            let bytes = line_text.spec_bytes();
            let n = bytes.len() as int;
            let o = r->0 - line_start;
            &&& n >= 2 && bytes[n - 2] == 0x0d && bytes[n - 1] == 0x0a ==> o == n - 2
            &&& n >= 1 && bytes[n - 1] == 0x0a && !(n >= 2 && bytes[n - 2] == 0x0d) ==> o == n - 1
            &&& !(n >= 1 && bytes[n - 1] == 0x0a) ==> o == n
        }),
{
    let bytes = line_text.as_bytes();
    let len = bytes.len();
    if is_inside {
        let u = index as usize;
        if u < line_start {
            return None;
        }
        let idx = u - line_start;
        if !line_text.is_char_boundary(idx) {
            return None;
        }
        proof {
            encode_utf8_valid_utf8(line_text@);
            if idx > len {
                assert(!is_char_boundary(bytes@, idx as int));
            }
        }
        let (_, rest) = line_text.split_at(idx);
        proof {
            assert(rest.spec_bytes() =~= bytes@.subrange(idx as int, len as int));
            encode_utf8_decode_utf8(rest@);
        }
        let chars = chars_of(rest);
        let t = trailing as usize;
        let mut trailing_len: usize = 0;
        let mut k: usize = 0;
        proof {
            assert(chars@.take(0) =~= Seq::<char>::empty());
            assert(chars@.take(chars@.len() as int) =~= chars@);
        }
        while k < chars.len() && k < t
            invariant
                chars@ == rest@,
                k <= chars@.len(),
                k <= t,
                trailing_len == byte_offset(chars@, k as int),
                idx + encode_utf8(chars@).len() == len,
                line_start + len <= usize::MAX,
            decreases chars@.len() - k,
        {
            proof {
                lemma_byte_offset_step(chars@, k as int);
                assert(chars@.take(k + 1) + chars@.skip(k + 1) =~= chars@);
                lemma_encode_utf8_append(chars@.take(k + 1), chars@.skip(k + 1));
            }
            trailing_len = trailing_len + utf8_len(chars[k]);
            k = k + 1;
        }
        proof {
            assert(chars@.take(k as int) + chars@.skip(k as int) =~= chars@);
            lemma_encode_utf8_append(chars@.take(k as int), chars@.skip(k as int));
            if (t as int) >= chars@.len() {
                assert(chars@.take(k as int) =~= chars@);
            }
            let taken = chars@.take(k as int);
            assert(rest.spec_bytes() == encode_utf8(rest@));
            assert(bytes@.subrange(idx as int, (idx + trailing_len) as int) =~= encode_utf8(taken)) by {
                assert(encode_utf8(chars@) == encode_utf8(taken) + encode_utf8(chars@.skip(k as int)));
                assert forall|m: int| 0 <= m < trailing_len implies #[trigger] bytes@.subrange(
                    idx as int,
                    (idx + trailing_len) as int,
                )[m] == encode_utf8(taken)[m] by {
                    assert(bytes@.subrange(idx as int, len as int)[m] == encode_utf8(chars@)[m]);
                }
            }
            encode_utf8_decode_utf8(taken);
            encode_utf8_decode_utf8(rest@);
        }
        Some(line_start + idx + trailing_len)
    } else {
        let hard_break_len: usize = if len >= 2 && bytes[len - 2] == 0x0d && bytes[len - 1] == 0x0a {
            2
        } else if len >= 1 && bytes[len - 1] == 0x0a {
            1
        } else {
            0
        };
        if hit_is_left == is_rtl {
            Some(line_start + len.saturating_sub(hard_break_len))
        } else {
            Some(line_start)
        }
    }
}

/// The byte offset of a CoreText hit on a line: the end of the text when
/// CoreText found no index (-1); else the byte of the line at which the
/// UTF-16 index, taken relative to the line's own start, falls, or the end
/// of the line. A hit at the very end of a line that ends in a newline is
/// moved before the newline. None for any other negative index.
pub open spec fn coretext_hit_spec(
    text_len: int,
    line: LineRange,
    line_bytes: Seq<u8>,
    hit: isize,
    line_location: isize,
) -> Option<int> {
    if hit == -1 {
        let offset = text_len;
        Some(
            if offset == line.end_offset && line_bytes.len() > 0 && line_bytes.last() == 0x0a {
                offset - 1
            } else {
                offset
            },
        )
    } else if hit >= 0 {
        let rel = (hit - line_location) as usize as int;
        let offset = line.start_offset + match count_until_utf16_spec(line_bytes, rel) {
            Some(i) => i,
            None => line_bytes.len() as int,
        };
        Some(
            if offset == line.end_offset && line_bytes.len() > 0 && line_bytes.last() == 0x0a {
                offset - 1
            } else {
                offset
            },
        )
    } else {
        None
    }
}

/// The byte offset in the text of the CoreText hit `hit` (a UTF-16 index,
/// or -1 for none) on the line `line`, whose text is `line_text` and which
/// starts at the UTF-16 index `line_location`.
pub fn coretext_hit_offset(
    text_len: usize,
    line: LineRange,
    line_text: &str,
    hit: isize,
    line_location: isize,
) -> (r: Option<usize>)
    requires
        line_location >= 0,
        line.start_offset <= line.end_offset,
        line.end_offset - line.start_offset == line_text.spec_bytes().len(),
    ensures
        match r {
            None => coretext_hit_spec(
                text_len as int,
                line,
                line_text.spec_bytes(),
                hit,
                line_location,
            ) is None,
            Some(o) => coretext_hit_spec(
                text_len as int,
                line,
                line_text.spec_bytes(),
                hit,
                line_location,
            ) == Some(o as int),
        },
        // no index: the end of the text, before a newline that ends this line
        hit == -1 ==> r == Some(
            if text_len == line.end_offset && line_text.spec_bytes().len() > 0
                && line_text.spec_bytes().last() == 0x0a {
                (text_len - 1) as usize
            } else {
                text_len
            },
        ),
        // an index at a character boundary of the line: that boundary
        forall|j: int|
            0 <= j < line_text.spec_bytes().len() && is_char_boundary(line_text.spec_bytes(), j)
                && hit >= line_location && #[trigger] utf16_prefix(line_text.spec_bytes(), j) == hit
                - line_location ==> r == Some((line.start_offset + j) as usize),
        // an index at or past the line's end: the line's end, before a final LF
        hit >= line_location && hit - line_location >= utf16_prefix(
            line_text.spec_bytes(),
            line_text.spec_bytes().len() as int,
        ) ==> r == Some(
            if line_text.spec_bytes().len() > 0 && line_text.spec_bytes().last() == 0x0a {
                (line.end_offset - 1) as usize
            } else {
                line.end_offset
            },
        ),
        hit < -1 ==> r is None,
{
    proof {
        let lb = line_text.spec_bytes();
        encode_utf8_valid_utf8(line_text@);
        assert(lb.take(lb.len() as int) =~= lb);
        assert forall|j: int| 0 <= j < lb.len() && is_char_boundary(lb, j) implies count_until_utf16_spec(
            lb,
            #[trigger] utf16_prefix(lb, j) as int,
        ) == Some(j) by {
            crate::text_units::lemma_count_until_inverts_count(lb, j);
        }
    }
    let len = line_text.as_bytes().len();
    let mut offset = if hit == -1 {
        text_len
    } else if hit >= 0 {
        let rel = (hit - line_location) as usize;
        match count_until_utf16(line_text, rel) {
            Some(i) => line.start_offset + i,
            None => line.start_offset + len,
        }
    } else {
        return None;
    };
    if offset == line.end_offset {
        match trailing_nlf(line_text) {
            Some(n) => {
                offset = offset - n;
            },
            None => {},
        }
    }
    Some(offset)
}

/// The UTF-16 offset, from the start of its line, of the byte `idx` of the
/// text: the code units of the line's text before it. None where `idx` is
/// before the line or not a character boundary of its text.
pub fn utf16_offset_in_line(line: LineRange, line_text: &str, idx: usize) -> (r: Option<usize>)
    ensures
        match r {
            None => idx < line.start_offset || !is_char_boundary(
                line_text.spec_bytes(),
                idx - line.start_offset,
            ),
            Some(n) => idx >= line.start_offset && is_char_boundary(
                line_text.spec_bytes(),
                idx - line.start_offset,
            ) && n == utf16_prefix(line_text.spec_bytes(), idx - line.start_offset),
        },
{
    if idx < line.start_offset {
        return None;
    }
    let rem = idx - line.start_offset;
    if !line_text.is_char_boundary(rem) {
        return None;
    }
    proof {
        encode_utf8_valid_utf8(line_text@);
        if rem > line_text.spec_bytes().len() {
            assert(!is_char_boundary(line_text.spec_bytes(), rem as int));
        }
    }
    let (head, _) = line_text.split_at(rem);
    proof {
        assert(head.spec_bytes() =~= line_text.spec_bytes().take(rem as int));
    }
    Some(count_utf16(head))
}

/// The UTF-16 index of the byte `idx` of a non-empty text (clamped to its
/// length) and the line that holds it, for DirectWrite hit testing. None for
/// an empty text, which has no lines to ask DirectWrite about.
pub fn dwrite_text_position(text: &str, lines: &[LineRange], idx: usize) -> (r: Option<(u32, usize)>)
    requires
        is_char_boundary(
            text.spec_bytes(),
            if idx < text.spec_bytes().len() {
                idx as int
            } else {
                text.spec_bytes().len() as int
            },
        ),
        text.spec_bytes().len() > 0 ==> {
            &&& lines@.len() > 0
            &&& starts_sorted(lines@)
            &&& lines@[0].start_offset == 0
            &&& utf16_prefix(
                text.spec_bytes(),
                if idx < text.spec_bytes().len() {
                    idx as int
                } else {
                    text.spec_bytes().len() as int
                },
            ) <= u32::MAX
        },
    ensures
        text.spec_bytes().len() == 0 <==> r is None,
        r matches Some((idx16, line)) ==> {
            let i = if idx < text.spec_bytes().len() {
                idx as int
            } else {
                text.spec_bytes().len() as int
            };
            &&& idx16 == utf16_prefix(text.spec_bytes(), i)
            &&& line < lines@.len()
            &&& lines@[line as int].start_offset <= i
            &&& forall|j: int| line < j < lines@.len() ==> #[trigger] lines@[j].start_offset > i
        },
{
    let bytes = text.as_bytes();
    let len = bytes.len();
    let i = if idx < len {
        idx
    } else {
        len
    };
    if len == 0 {
        return None;
    }
    proof {
        encode_utf8_valid_utf8(text@);
    }
    let (head, _) = text.split_at(i);
    proof {
        assert(head.spec_bytes() =~= bytes@.take(i as int));
    }
    let idx_16 = count_utf16(head);
    let line = line_number_for_position(lines, i);
    Some((idx_16 as u32, line))
}

/// Where pango is asked about the byte `idx` of a text (clamped to its
/// length): the first line that holds it, or the last line; and the index
/// to ask for, which at the very end of right-to-left text is one byte back,
/// since pango misplaces that position (the caller then takes the right
/// edge of the position pango reports, as the last flag says).
pub fn pango_text_position(text: &str, lines: &[LineRange], idx: usize, is_rtl: bool) -> (r: (
    usize,
    usize,
    bool,
))
    requires
        lines@.len() > 0,
        is_char_boundary(
            text.spec_bytes(),
            if idx < text.spec_bytes().len() {
                idx as int
            } else {
                text.spec_bytes().len() as int
            },
        ),
    ensures
        ({
            let i = if idx < text.spec_bytes().len() {
                idx as int
            } else {
                text.spec_bytes().len() as int
            };
            let at_end = is_rtl && i == text.spec_bytes().len();
            &&& r.0 < lines@.len()
            &&& forall|j: int| 0 <= j < r.0 ==> !line_holds(#[trigger] lines@[j], i)
            &&& line_holds(lines@[r.0 as int], i) || (r.0 == lines@.len() - 1 && !line_holds(
                lines@[r.0 as int],
                i,
            ))
            &&& r.2 == at_end
            &&& r.1 == (if at_end && i > 0 {
                i - 1
            } else {
                i
            })
        }),
{
    let len = text.as_bytes().len();
    let i = if idx < len {
        idx
    } else {
        len
    };
    let line = line_containing(lines, i);
    let at_end = is_rtl && i == len;
    let index = if at_end {
        i.saturating_sub(1)
    } else {
        i
    };
    (line, index, at_end)
}

} // verus!
