//! Resolving font attributes for CoreText. The attributes that select a
//! font (family, size, weight, style) apply to byte ranges of the text, but
//! CoreText takes one font per UTF-16 range; so as attributes are added, in
//! order of their start, the text up to each point where an attribute ends
//! gets one font made of the attributes active there.

use vstd::prelude::*;
use vstd::utf8::*;
use vstd::string::StringSliceAdditionalSpecFns;
use std::ops::Range;
use crate::text_units::{utf16_prefix, count_utf16};

verus! {

/// An attribute's value together with the byte range it applies to.
pub struct Span<T> {
    pub payload: T,
    pub range: Range<usize>,
}

impl<T> Span<T> {
    pub fn new(payload: T, range: Range<usize>) -> (s: Self)
        ensures
            s.payload == payload,
            s.range == range,
    {
        Span { payload, range }
    }

    pub fn range_end(&self) -> (r: usize)
        ensures
            r == self.range.end,
    {
        self.range.end
    }
}

/// The font attributes active at the current position, each with the range
/// it was given for: the font family (of type `F`), size (`Z`), weight (`W`)
/// and style (`Y`).
pub struct Attributes<F, Z, W, Y> {
    pub font: Option<Span<F>>,
    pub size: Option<Span<Z>>,
    pub weight: Option<Span<W>>,
    pub style: Option<Span<Y>>,
}

/// Where a span ends, or `max` for no span.
pub open spec fn end_or<T>(s: Option<Span<T>>, max: int) -> int {
    match s {
        Some(sp) => sp.range.end as int,
        None => max,
    }
}

pub open spec fn min_int(a: int, b: int) -> int {
    if a <= b {
        a
    } else {
        b
    }
}

/// A span that is present ends at `pos`.
pub open spec fn ends_at<T>(s: Option<Span<T>>, pos: int) -> bool {
    s is Some && s->0.range.end == pos
}

/// A span that is present ends after `pos`, at a character boundary.
pub open spec fn ends_after<T>(s: Option<Span<T>>, pos: int, bytes: Seq<u8>) -> bool {
    s is Some ==> s->0.range.end > pos && is_char_boundary(bytes, s->0.range.end as int)
}

/// The span after clearing it if it ends at `pos`.
pub open spec fn cleared<T>(s: Option<Span<T>>, pos: int) -> Option<Span<T>> {
    if ends_at(s, pos) {
        None
    } else {
        s
    }
}

fn clear_span<T>(s: &mut Option<Span<T>>, pos: usize)
    ensures
        *final(s) == cleared(*old(s), pos as int),
{
    let at = match s {
        Some(sp) => sp.range.end == pos,
        None => false,
    };
    if at {
        *s = None;
    }
}

fn span_end_or<T>(s: &Option<Span<T>>, max: usize) -> (r: usize)
    ensures
        r == end_or(*s, max as int),
{
    match s {
        Some(sp) => sp.range_end(),
        None => max,
    }
}

impl<F, Z, W, Y> Attributes<F, Z, W, Y> {
    pub fn new() -> (a: Self)
        ensures
            a.font is None && a.size is None && a.weight is None && a.style is None,
    {
        Attributes { font: None, size: None, weight: None, style: None }
    }

    /// The nearest end of an active attribute, but no further than `max`.
    pub open spec fn next_end_spec(&self, max: int) -> int {
        min_int(
            min_int(
                min_int(min_int(end_or(self.font, max), end_or(self.size, max)), end_or(self.weight, max)),
                end_or(self.style, max),
            ),
            max,
        )
    }

    /// Every active attribute ends after `pos`, at a character boundary.
    pub open spec fn all_end_after(&self, pos: int, bytes: Seq<u8>) -> bool {
        &&& ends_after(self.font, pos, bytes)
        &&& ends_after(self.size, pos, bytes)
        &&& ends_after(self.weight, pos, bytes)
        &&& ends_after(self.style, pos, bytes)
    }

    /// Given the end of a range, the least of that value and the ends of the
    /// active attributes.
    pub fn next_span_end(&self, max: usize) -> (r: usize)
        ensures
            r == self.next_end_spec(max as int),
    {
        let a = span_end_or(&self.font, max);
        let b = span_end_or(&self.size, max);
        let c = span_end_or(&self.weight, max);
        let d = span_end_or(&self.style, max);
        let mut m = if a <= b {
            a
        } else {
            b
        };
        if c < m {
            m = c;
        }
        if d < m {
            m = d;
        }
        if max < m {
            m = max;
        }
        m
    }

    /// Drop the attributes whose range ends at `last_pos`.
    pub fn clear_up_to(&mut self, last_pos: usize)
        ensures
            final(self).font == cleared(old(self).font, last_pos as int),
            final(self).size == cleared(old(self).size, last_pos as int),
            final(self).weight == cleared(old(self).weight, last_pos as int),
            final(self).style == cleared(old(self).style, last_pos as int),
    {
        clear_span(&mut self.font, last_pos);
        clear_span(&mut self.weight, last_pos);
        clear_span(&mut self.style, last_pos);
        clear_span(&mut self.size, last_pos);
    }
}

/// The attributes of a text being laid out, and how far the text has been
/// given fonts, in bytes and in UTF-16 code units.
pub struct FontResolution<F, Z, W, Y> {
    pub attrs: Attributes<F, Z, W, Y>,
    pub last_resolved_pos: usize,
    pub last_resolved_utf16: usize,
}

impl<F, Z, W, Y> FontResolution<F, Z, W, Y> {
    /// The state fits `bytes`: the resolved position is a character
    /// boundary, its UTF-16 offset is the one recorded, and every active
    /// attribute ends after it.
    pub open spec fn wf(&self, bytes: Seq<u8>) -> bool {
        &&& is_char_boundary(bytes, self.last_resolved_pos as int)
        &&& self.last_resolved_utf16 == utf16_prefix(bytes, self.last_resolved_pos as int)
        &&& self.attrs.all_end_after(self.last_resolved_pos as int, bytes)
    }

    pub fn new() -> (r: Self)
        ensures
            r.last_resolved_pos == 0,
            r.last_resolved_utf16 == 0,
            r.attrs.font is None && r.attrs.size is None && r.attrs.weight is None
                && r.attrs.style is None,
    {
        FontResolution { attrs: Attributes::new(), last_resolved_pos: 0, last_resolved_utf16: 0 }
    }

    /// The next run of text to give a font on the way to `resolve_end`: it
    /// ends where the nearest active attribute ends, or at `resolve_end`.
    /// Returns the run's byte end and its UTF-16 start and length; None once
    /// the text up to `resolve_end` has fonts.
    pub fn next_run(&self, text: &str, resolve_end: usize) -> (r: Option<(usize, usize, usize)>)
        requires
            self.wf(text.spec_bytes()),
            self.last_resolved_pos < resolve_end ==> is_char_boundary(
                text.spec_bytes(),
                resolve_end as int,
            ),
        ensures
            r is None <==> self.last_resolved_pos >= resolve_end,
            r matches Some((end, start16, len16)) ==> {
                &&& end == self.attrs.next_end_spec(resolve_end as int)
                &&& self.attrs.next_end_spec(end as int) == end
                &&& self.last_resolved_pos < end <= resolve_end
                &&& is_char_boundary(text.spec_bytes(), end as int)
                &&& start16 == self.last_resolved_utf16
                &&& len16 == utf16_prefix(text.spec_bytes(), end as int) - utf16_prefix(
                    text.spec_bytes(),
                    self.last_resolved_pos as int,
                )
            },
    {
        if self.last_resolved_pos >= resolve_end {
            return None;
        }
        let end = self.attrs.next_span_end(resolve_end);
        let bytes = text.as_bytes();
        proof {
            encode_utf8_valid_utf8(text@);
            assert(end == end_or(self.attrs.font, resolve_end as int) || end == end_or(
                self.attrs.size,
                resolve_end as int,
            ) || end == end_or(self.attrs.weight, resolve_end as int) || end == end_or(
                self.attrs.style,
                resolve_end as int,
            ) || end == resolve_end);
            if end > bytes@.len() {
                assert(!is_char_boundary(bytes@, end as int));
            }
        }
        let (head, _) = text.split_at(end);
        proof {
            assert(head.spec_bytes() =~= bytes@.take(end as int));
            encode_utf8_valid_utf8(head@);
            assert(is_char_boundary(head.spec_bytes(), self.last_resolved_pos as int)) by {
                is_char_boundary_iff_not_is_continuation_byte(bytes@, self.last_resolved_pos as int);
                is_char_boundary_iff_not_is_continuation_byte(
                    head.spec_bytes(),
                    self.last_resolved_pos as int,
                );
            }
        }
        let (_, run) = head.split_at(self.last_resolved_pos);
        proof {
            assert(run.spec_bytes() =~= bytes@.subrange(self.last_resolved_pos as int, end as int));
            assert(bytes@.take(end as int) =~= bytes@.take(self.last_resolved_pos as int)
                + bytes@.subrange(self.last_resolved_pos as int, end as int));
            crate::text_units::lemma_utf16_len_of_bytes_append(
                bytes@.take(self.last_resolved_pos as int),
                bytes@.subrange(self.last_resolved_pos as int, end as int),
            );
        }
        let len16 = count_utf16(run);
        Some((end, self.last_resolved_utf16, len16))
    }

    /// Record that the text up to `end`, `len16` more UTF-16 code units,
    /// has its font, and drop the attributes that end there.
    pub fn finish_run(&mut self, text: &str, end: usize, len16: usize)
        requires
            old(self).wf(text.spec_bytes()),
            old(self).last_resolved_pos < end,
            old(self).attrs.next_end_spec(end as int) == end,
            is_char_boundary(text.spec_bytes(), end as int),
            len16 == utf16_prefix(text.spec_bytes(), end as int) - utf16_prefix(
                text.spec_bytes(),
                old(self).last_resolved_pos as int,
            ),
        ensures
            final(self).last_resolved_pos == end,
            final(self).last_resolved_utf16 == old(self).last_resolved_utf16 + len16,
            final(self).attrs.font == cleared(old(self).attrs.font, end as int),
            final(self).attrs.size == cleared(old(self).attrs.size, end as int),
            final(self).attrs.weight == cleared(old(self).attrs.weight, end as int),
            final(self).attrs.style == cleared(old(self).attrs.style, end as int),
            final(self).wf(text.spec_bytes()),
    {
        let bytes = text.as_bytes();
        let _n = bytes.len();
        proof {
            encode_utf8_valid_utf8(text@);
            if end > bytes@.len() {
                assert(!is_char_boundary(bytes@, end as int));
            }
            assert(bytes@.take(bytes@.len() as int) =~= bytes@);
            crate::text_units::lemma_utf16_prefix_monotone(bytes@, end as int, bytes@.len() as int);
            crate::text_units::lemma_utf16_len_of_encoding(text@);
        }
        self.last_resolved_pos = end;
        self.last_resolved_utf16 = self.last_resolved_utf16 + len16;
        self.attrs.clear_up_to(end);
    }

    /// Whether the state fits `text` (see `wf`).
    pub fn fits(&self, text: &str) -> (r: bool)
        ensures
            r == self.wf(text.spec_bytes()),
    {
        let pos = self.last_resolved_pos;
        if !text.is_char_boundary(pos) {
            return false;
        }
        proof {
            encode_utf8_valid_utf8(text@);
            if pos > text.spec_bytes().len() {
                assert(!is_char_boundary(text.spec_bytes(), pos as int));
            }
        }
        let (head, _) = text.split_at(pos);
        proof {
            assert(head.spec_bytes() =~= text.spec_bytes().take(pos as int));
        }
        if count_utf16(head) != self.last_resolved_utf16 {
            return false;
        }
        span_ends_after(&self.attrs.font, text, pos) && span_ends_after(&self.attrs.size, text, pos)
            && span_ends_after(&self.attrs.weight, text, pos) && span_ends_after(
            &self.attrs.style,
            text,
            pos,
        )
    }
}

fn span_ends_after<T>(s: &Option<Span<T>>, text: &str, pos: usize) -> (r: bool)
    ensures
        r == ends_after(*s, pos as int, text.spec_bytes()),
{
    match s {
        Some(sp) => sp.range.end > pos && text.is_char_boundary(sp.range.end),
        None => true,
    }
}

/// The UTF-16 start and length of the byte range `start..end` of `text`.
/// None where the range is reversed or does not fall on character
/// boundaries.
pub fn utf16_range_of(text: &str, start: usize, end: usize) -> (r: Option<(usize, usize)>)
    ensures
        match r {
            None => !(start <= end && is_char_boundary(text.spec_bytes(), start as int)
                && is_char_boundary(text.spec_bytes(), end as int)),
            Some((s16, l16)) => {
                &&& start <= end
                &&& is_char_boundary(text.spec_bytes(), start as int)
                &&& is_char_boundary(text.spec_bytes(), end as int)
                &&& s16 == utf16_prefix(text.spec_bytes(), start as int)
                &&& l16 == utf16_prefix(text.spec_bytes(), end as int) - utf16_prefix(
                    text.spec_bytes(),
                    start as int,
                )
            },
        },
{
    if !(start <= end && text.is_char_boundary(start) && text.is_char_boundary(end)) {
        return None;
    }
    let bytes = text.as_bytes();
    proof {
        encode_utf8_valid_utf8(text@);
        if end > bytes@.len() {
            assert(!is_char_boundary(bytes@, end as int));
        }
    }
    let (head, _) = text.split_at(end);
    proof {
        assert(head.spec_bytes() =~= bytes@.take(end as int));
        encode_utf8_valid_utf8(head@);
        if start < end {
            is_char_boundary_iff_not_is_continuation_byte(bytes@, start as int);
            is_char_boundary_iff_not_is_continuation_byte(head.spec_bytes(), start as int);
        } else {
            is_char_boundary_start_end_of_seq(head.spec_bytes());
        }
    }
    let (before, run) = head.split_at(start);
    proof {
        assert(before.spec_bytes() =~= bytes@.take(start as int));
        assert(run.spec_bytes() =~= bytes@.subrange(start as int, end as int));
        assert(bytes@.take(end as int) =~= bytes@.take(start as int) + bytes@.subrange(
            start as int,
            end as int,
        ));
        crate::text_units::lemma_utf16_len_of_bytes_append(
            bytes@.take(start as int),
            bytes@.subrange(start as int, end as int),
        );
    }
    Some((count_utf16(before), count_utf16(run)))
}

} // verus!
