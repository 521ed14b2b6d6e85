//! Splitting text into lines: break opportunities, the width-driven line
//! breaker, and per-line whitespace measurements.

use vstd::prelude::*;
use vstd::utf8::*;
use vstd::string::StringSliceAdditionalSpecFns;
use xi_unicode::LineBreakIterator;

verus! {

/// The break opportunities that the Unicode line breaking algorithm (UAX 14)
/// finds in a text, as xi-unicode reports them: byte offsets, each with
/// whether the break is mandatory.
pub uninterp spec fn line_break_opportunities(text: Seq<char>) -> Seq<(usize, bool)>;

/// Break opportunities of `text`, from `xi_unicode::LineBreakIterator`.
///
/// Trusted: the iterator's documentation and source show that it never
/// breaks at the start of the text, that an empty text has no breaks, that a
/// non-empty text always has a break at its end, and that the offsets it
/// yields are strictly increasing character boundaries. Which offsets are
/// breaks, and which are mandatory, is left to the name.
#[verifier::external_body]
pub fn line_breaks(text: &str) -> (r: Vec<(usize, bool)>)
    ensures
        r@ == line_break_opportunities(text@),
        text@.len() == 0 ==> r@.len() == 0,
        text@.len() > 0 ==> r@.len() > 0 && r@.last().0 == text.spec_bytes().len(),
        forall|i: int, j: int| 0 <= i < j < r@.len() ==> #[trigger] r@[i].0 < #[trigger] r@[j].0,
        forall|i: int|
            0 <= i < r@.len() ==> 0 < #[trigger] r@[i].0 <= text.spec_bytes().len()
                && is_char_boundary(text.spec_bytes(), r@[i].0 as int),
{
    LineBreakIterator::new(text).collect()
}

/// The lines that the line breaker emits at one break opportunity, and the
/// start of the line after them.
///
/// `line_start` is the start of the current line and `prev_break` the last
/// break opportunity seen; `line_wide` says whether the text from
/// `line_start` to the new break is wider than the layout, and `tail_wide`
/// whether the text from the last usable break to the new break is.
pub open spec fn break_step(
    line_start: usize,
    prev_break: usize,
    brk: usize,
    hard: bool,
    line_wide: bool,
    tail_wide: bool,
) -> (Seq<(usize, usize)>, usize) {
    if !hard {
        if line_wide {
            let p = if prev_break == line_start { brk } else { prev_break };
            if tail_wide {
                (seq![(line_start, p), (p, brk)], brk)
            } else {
                (seq![(line_start, p)], p)
            }
        } else {
            (Seq::empty(), line_start)
        }
    } else if line_wide && prev_break != line_start {
        (seq![(line_start, prev_break), (prev_break, brk)], brk)
    } else {
        (seq![(line_start, brk)], brk)
    }
}

/// Lines that follow each other: the first starts at `from`, each starts
/// where the previous one ends, each ends at or after its start, and the
/// last ends at `to` (an empty list needs `from == to`).
pub open spec fn lines_chain(lines: Seq<(usize, usize)>, from: int, to: int) -> bool {
    &&& lines.len() == 0 ==> from == to
    &&& lines.len() > 0 ==> lines[0].0 == from && lines.last().1 == to
    &&& forall|k: int| 0 <= k < lines.len() ==> #[trigger] lines[k].0 <= lines[k].1
    &&& forall|k: int| 0 <= k < lines.len() - 1 ==> #[trigger] lines[k].1 == lines[k + 1].0
}

/// Lines emitted by successive steps chain on: two chains that meet form
/// one chain, so the lines of a whole run of the breaker follow each other
/// from where it started.
pub proof fn lemma_lines_chain_append(a: Seq<(usize, usize)>, b: Seq<(usize, usize)>, x: int, y: int, z: int)
    requires
        lines_chain(a, x, y),
        lines_chain(b, y, z),
    ensures
        lines_chain(a + b, x, z),
{
    let c = a + b;
    if a.len() > 0 && b.len() > 0 {
        assert(c.last() == b.last());
    }
    assert forall|k: int| 0 <= k < c.len() - 1 implies #[trigger] c[k].1 == c[k + 1].0 by {
        if k < a.len() - 1 {
            assert(c[k] == a[k] && c[k + 1] == a[k + 1]);
        } else if k == a.len() - 1 {
            assert(c[k] == a.last() && c[k + 1] == b[0]);
        } else {
            assert(c[k] == b[k - a.len()] && c[k + 1] == b[k + 1 - a.len()]);
        }
    }
    assert forall|k: int| 0 <= k < c.len() implies #[trigger] c[k].0 <= c[k].1 by {
        if k < a.len() {
            assert(c[k] == a[k]);
        } else {
            assert(c[k] == b[k - a.len()]);
        }
    }
}

/// The line that ends a text when the breaker reaches its end with the
/// current line starting at `start`: the rest of the text, if any is left,
/// and for an empty text its one empty line.
pub open spec fn finish_lines(start: usize, len: usize) -> Seq<(usize, usize)> {
    if start < len || len == 0 {
        seq![(start, len)]
    } else {
        Seq::empty()
    }
}

/// The lines of a run of the breaker cover the whole text: lines that chain
/// from the start of the text to the start of the current line, followed by
/// what `finish` emits at the end of the text, chain from 0 to the text's
/// length, and there is at least one of them (an empty text has one empty
/// line).
pub proof fn lemma_finish_covers_text(lines: Seq<(usize, usize)>, start: usize, len: usize)
    requires
        lines_chain(lines, 0, start as int),
        start <= len,
    ensures
        lines_chain(lines + finish_lines(start, len), 0, len as int),
        (lines + finish_lines(start, len)).len() > 0,
{
    let f = finish_lines(start, len);
    assert(lines_chain(f, start as int, len as int));
    lemma_lines_chain_append(lines, f, 0, start as int, len as int);
}

/// The lines of one step of the breaker follow each other from the start
/// of the current line to the start of the next one, which is at or before
/// the break.
pub proof fn lemma_break_step_chain(
    line_start: usize,
    prev_break: usize,
    brk: usize,
    hard: bool,
    line_wide: bool,
    tail_wide: bool,
)
    requires
        line_start <= prev_break <= brk,
    ensures
        lines_chain(
            break_step(line_start, prev_break, brk, hard, line_wide, tail_wide).0,
            line_start as int,
            break_step(line_start, prev_break, brk, hard, line_wide, tail_wide).1 as int,
        ),
        line_start <= break_step(line_start, prev_break, brk, hard, line_wide, tail_wide).1 <= brk,
{
}

/// A run of the breaker over the events `(break, mandatory, line too wide,
/// tail too wide)`: the lines emitted, the start of the current line, and
/// the last break seen.
pub open spec fn break_run(events: Seq<(usize, bool, bool, bool)>) -> (Seq<(usize, usize)>, usize, usize)
    decreases events.len(),
{
    if events.len() == 0 {
        (Seq::empty(), 0, 0)
    } else {
        let r = break_run(events.drop_last());
        let e = events.last();
        let st = break_step(r.1, r.2, e.0, e.1, e.2, e.3);
        (r.0 + st.0, st.1, e.0)
    }
}

/// Breaks in non-decreasing order, none past `len`.
pub open spec fn breaks_ordered(events: Seq<(usize, bool, bool, bool)>, len: usize) -> bool {
    &&& forall|i: int, j: int| 0 <= i < j < events.len() ==> #[trigger] events[i].0 <= #[trigger] events[j].0
    &&& forall|i: int| 0 <= i < events.len() ==> #[trigger] events[i].0 <= len
}

proof fn lemma_break_run_state(events: Seq<(usize, bool, bool, bool)>, len: usize)
    requires
        breaks_ordered(events, len),
    ensures
        lines_chain(break_run(events).0, 0, break_run(events).1 as int),
        break_run(events).1 <= break_run(events).2 <= len,
        events.len() > 0 ==> break_run(events).2 == events.last().0,
    decreases events.len(),
{
    if events.len() > 0 {
        let d = events.drop_last();
        assert(breaks_ordered(d, len)) by {
            assert forall|i: int, j: int| 0 <= i < j < d.len() implies #[trigger] d[i].0 <= #[trigger] d[j].0 by {
                assert(d[i] == events[i] && d[j] == events[j]);
            }
            assert forall|i: int| 0 <= i < d.len() implies #[trigger] d[i].0 <= len by {
                assert(d[i] == events[i]);
            }
        }
        lemma_break_run_state(d, len);
        let r = break_run(d);
        let e = events.last();
        if d.len() > 0 {
            assert(d.last() == events[events.len() - 2]);
            assert(events[events.len() - 2].0 <= events[events.len() - 1].0);
        }
        assert(e.0 <= len);
        lemma_break_step_chain(r.1, r.2, e.0, e.1, e.2, e.3);
        let st = break_step(r.1, r.2, e.0, e.1, e.2, e.3);
        lemma_lines_chain_append(r.0, st.0, 0, r.1 as int, st.1 as int);
    }
}

/// Whatever widths the caller measures, a run of the breaker over breaks in
/// order, ended by `finish` at the text's length, emits lines that cover
/// the whole text: they chain from 0 to `len`, and there is at least one.
pub proof fn lemma_breaker_covers_text(events: Seq<(usize, bool, bool, bool)>, len: usize)
    requires
        breaks_ordered(events, len),
    ensures
        lines_chain(
            break_run(events).0 + finish_lines(break_run(events).1, len),
            0,
            len as int,
        ),
        (break_run(events).0 + finish_lines(break_run(events).1, len)).len() > 0,
{
    lemma_break_run_state(events, len);
    lemma_finish_covers_text(break_run(events).0, break_run(events).1, len);
}

/// Greedy line breaking driven by text widths that the caller measures.
///
/// The caller feeds the break opportunities in order; at each one it
/// measures the two ranges that `ranges_to_measure` names against the
/// layout width and passes whether each is too wide. At the end of the
/// text, `finish` emits the last line.
pub struct LineBreaker {
    line_start: usize,
    prev_break: usize,
}

impl LineBreaker {
    /// The current line starts at or before the last break seen.
    #[verifier::type_invariant]
    spec fn inv(&self) -> bool {
        self.line_start <= self.prev_break
    }

    pub closed spec fn line_start_spec(&self) -> usize {
        self.line_start
    }

    pub closed spec fn prev_break_spec(&self) -> usize {
        self.prev_break
    }

    /// A line breaker at the start of the text.
    pub fn new() -> (lb: LineBreaker)
        ensures
            lb.line_start_spec() == 0,
            lb.prev_break_spec() == 0,
    {
        LineBreaker { line_start: 0, prev_break: 0 }
    }

    /// Start of the current line.
    pub fn line_start(&self) -> (r: usize)
        ensures
            r == self.line_start_spec(),
            r <= self.prev_break_spec(),
    {
        proof {
            use_type_invariant(self);
        }
        self.line_start
    }

    /// The last break opportunity seen (0 before the first).
    pub fn prev_break(&self) -> (r: usize)
        ensures
            r == self.prev_break_spec(),
            self.line_start_spec() <= r,
    {
        proof {
            use_type_invariant(self);
        }
        self.prev_break
    }

    /// The two ranges whose widths decide what happens at the break `brk`:
    /// the current line up to the break, and the text from the last usable
    /// break (or the break itself, when the line has none yet) up to it.
    pub fn ranges_to_measure(&self, brk: usize) -> (r: ((usize, usize), (usize, usize)))
        requires
            self.prev_break_spec() <= brk,
        ensures
            r.0 == (self.line_start_spec(), brk),
            r.1 == (if self.prev_break_spec() == self.line_start_spec() {
                brk
            } else {
                self.prev_break_spec()
            }, brk),
            r.0.0 <= r.0.1,
            r.1.0 <= r.1.1,
    {
        proof {
            use_type_invariant(self);
        }
        let tail_start = if self.prev_break == self.line_start { brk } else { self.prev_break };
        ((self.line_start, brk), (tail_start, brk))
    }

    /// Process the break opportunity `brk`, returning the lines it ends.
    pub fn step(&mut self, brk: usize, hard: bool, line_wide: bool, tail_wide: bool) -> (lines: Vec<
        (usize, usize),
    >)
        requires
            old(self).prev_break_spec() <= brk,
        ensures
            lines@ == break_step(
                old(self).line_start_spec(),
                old(self).prev_break_spec(),
                brk,
                hard,
                line_wide,
                tail_wide,
            ).0,
            final(self).line_start_spec() == break_step(
                old(self).line_start_spec(),
                old(self).prev_break_spec(),
                brk,
                hard,
                line_wide,
                tail_wide,
            ).1,
            final(self).prev_break_spec() == brk,
            final(self).line_start_spec() <= brk,
            lines_chain(lines@, old(self).line_start_spec() as int, final(self).line_start_spec() as int),
            // a line that fits is not broken: a soft break emits nothing, a
            // mandatory one ends the line at the break
            !line_wide && !hard ==> lines@.len() == 0 && final(self).line_start_spec() == old(
                self,
            ).line_start_spec(),
            !line_wide && hard ==> lines@ == seq![(old(self).line_start_spec(), brk)],
            // a line that is too wide is broken at the last earlier break
            // opportunity, if it has one
            line_wide && old(self).prev_break_spec() != old(self).line_start_spec() ==> lines@.len()
                >= 1 && lines@[0] == (old(self).line_start_spec(), old(self).prev_break_spec()),
            // and emitted whole if it has none
            line_wide && old(self).prev_break_spec() == old(self).line_start_spec() ==> lines@.len()
                >= 1 && lines@[0] == (old(self).line_start_spec(), brk),
            // a mandatory break always ends a line there
            hard ==> lines@.len() >= 1 && lines@.last().1 == brk && final(self).line_start_spec()
                == brk,
            // a too-wide piece after the last break gets a line of its own
            line_wide && tail_wide ==> final(self).line_start_spec() == brk,
            line_wide && !tail_wide && !hard && old(self).prev_break_spec() != old(
                self,
            ).line_start_spec() ==> final(self).line_start_spec() == old(self).prev_break_spec(),
    {
        proof {
            use_type_invariant(&*self);
        }
        let line_start = self.line_start;
        let prev_break = self.prev_break;
        let mut lines: Vec<(usize, usize)> = Vec::new();
        let mut next_start = line_start;
        if !hard {
            if line_wide {
                let p = if prev_break == line_start { brk } else { prev_break };
                lines.push((line_start, p));
                if tail_wide {
                    lines.push((p, brk));
                    next_start = brk;
                } else {
                    next_start = p;
                }
            }
        } else {
            if line_wide && prev_break != line_start {
                lines.push((line_start, prev_break));
                next_start = prev_break;
            }
            lines.push((next_start, brk));
            next_start = brk;
        }
        *self = LineBreaker { line_start: next_start, prev_break: brk };
        lines
    }

    /// End the text, whose byte length is `len`, returning its last line:
    /// the text from the start of the current line to the end, if any is
    /// left, and for an empty text its one empty line.
    pub fn finish(&mut self, len: usize) -> (lines: Vec<(usize, usize)>)
        requires
            old(self).line_start_spec() <= len,
        ensures
            lines@ == finish_lines(old(self).line_start_spec(), len),
            lines_chain(lines@, old(self).line_start_spec() as int, len as int),
            // the rest of the text, if any, is one last line
            old(self).line_start_spec() < len ==> lines@ == seq![(old(self).line_start_spec(), len)],
            // an empty text has one empty line
            len == 0 ==> lines@ == seq![(0usize, 0usize)],
            // and no other empty line is emitted
            len > 0 && old(self).line_start_spec() == len ==> lines@.len() == 0,
            final(self).line_start_spec() == len,
            final(self).prev_break_spec() == len,
    {
        let start = self.line_start;
        let mut lines: Vec<(usize, usize)> = Vec::new();
        if start < len || len == 0 {
            lines.push((start, len));
        }
        *self = LineBreaker { line_start: len, prev_break: len };
        lines
    }
}

/// The Unicode White_Space property (PropList.txt), which `char::is_whitespace`
/// and `str::trim_end` test.
pub open spec fn is_white_space(c: char) -> bool {
    let v = c as u32;
    ||| 0x9 <= v <= 0xd
    ||| v == 0x20
    ||| v == 0x85
    ||| v == 0xa0
    ||| v == 0x1680
    ||| 0x2000 <= v <= 0x200a
    ||| v == 0x2028
    ||| v == 0x2029
    ||| v == 0x202f
    ||| v == 0x205f
    ||| v == 0x3000
}

/// Whether `c` has the Unicode White_Space property.
pub fn is_whitespace(c: char) -> (r: bool)
    ensures
        r == is_white_space(c),
{
    let v = c as u32;
    (0x9 <= v && v <= 0xd) || v == 0x20 || v == 0x85 || v == 0xa0 || v == 0x1680 || (0x2000 <= v
        && v <= 0x200a) || v == 0x2028 || v == 0x2029 || v == 0x202f || v == 0x205f || v == 0x3000
}

/// Number of White_Space characters at the end of `chars`.
pub open spec fn trailing_white_space(chars: Seq<char>) -> nat
    decreases chars.len(),
{
    if chars.len() == 0 || !is_white_space(chars.last()) {
        0
    } else {
        1 + trailing_white_space(chars.drop_last())
    }
}

pub proof fn lemma_trailing_white_space(chars: Seq<char>)
    ensures
        trailing_white_space(chars) <= chars.len(),
        forall|i: int|
            chars.len() - trailing_white_space(chars) <= i < chars.len() ==> is_white_space(
                #[trigger] chars[i],
            ),
        trailing_white_space(chars) < chars.len() ==> !is_white_space(
            chars[chars.len() - trailing_white_space(chars) - 1],
        ),
    decreases chars.len(),
{
    if chars.len() > 0 && is_white_space(chars.last()) {
        let d = chars.drop_last();
        lemma_trailing_white_space(d);
        assert forall|i: int|
            chars.len() - trailing_white_space(chars) <= i < chars.len() implies is_white_space(
            #[trigger] chars[i],
        ) by {
            if i < chars.len() - 1 {
                assert(chars[i] == d[i]);
            }
        }
        if trailing_white_space(chars) < chars.len() {
            assert(chars[chars.len() - trailing_white_space(chars) - 1] == d[d.len()
                - trailing_white_space(d) - 1]);
        }
    }
}

/// Number of whitespace characters at the end of `line` (counted in
/// characters, not bytes).
pub fn count_trailing_whitespace(line: &str) -> (n: usize)
    ensures
        n == trailing_white_space(line@),
{
    let chars = crate::text_units::chars_of(line);
    let mut n: usize = 0;
    assert(chars@.take(chars@.len() as int) =~= chars@);
    while n < chars.len() && is_whitespace(chars[chars.len() - 1 - n])
        invariant
            n <= chars@.len(),
            chars@ == line@,
            trailing_white_space(line@) == n + trailing_white_space(chars@.take(chars@.len() - n)),
        decreases chars@.len() - n,
    {
        assert(chars@.take(chars@.len() - n).drop_last() =~= chars@.take(chars@.len() - n - 1));
        n = n + 1;
    }
    assert(n < chars@.len() ==> chars@.take(chars@.len() - n).last() == chars@[chars@.len() - 1 - n]);
    n
}

/// The bytes that `count_trailing_ws` counts as whitespace.
pub open spec fn is_ascii_ws_byte(b: u8) -> bool {
    b == 0x20 || b == 0x09 || b == 0x0a || b == 0x0d
}

/// Number of ASCII whitespace bytes (space, tab, line feed, carriage
/// return) at the end of `bytes`.
pub open spec fn trailing_ascii_ws(bytes: Seq<u8>) -> nat
    decreases bytes.len(),
{
    if bytes.len() == 0 || !is_ascii_ws_byte(bytes.last()) {
        0
    } else {
        1 + trailing_ascii_ws(bytes.drop_last())
    }
}

pub proof fn lemma_trailing_ascii_ws_bound(bytes: Seq<u8>)
    ensures
        trailing_ascii_ws(bytes) <= bytes.len(),
    decreases bytes.len(),
{
    if bytes.len() > 0 {
        lemma_trailing_ascii_ws_bound(bytes.drop_last());
    }
}

/// Number of trailing space, tab, line feed and carriage return bytes of `s`.
pub fn count_trailing_ws(s: &str) -> (n: usize)
    ensures
        n == trailing_ascii_ws(s.spec_bytes()),
{
    let bytes = s.as_bytes();
    assert(bytes@.subrange(0, bytes@.len() as int) =~= bytes@);
    count_trailing_ws_in(bytes, 0, bytes.len())
}

/// Number of trailing ASCII whitespace bytes of `bytes[start..end]`.
pub fn count_trailing_ws_in(bytes: &[u8], start: usize, end: usize) -> (n: usize)
    requires
        start <= end <= bytes@.len(),
    ensures
        n == trailing_ascii_ws(bytes@.subrange(start as int, end as int)),
{
    let mut n: usize = 0;
    while n < end - start && (bytes[end - 1 - n] == 0x20 || bytes[end - 1 - n] == 0x09 || bytes[end
        - 1 - n] == 0x0a || bytes[end - 1 - n] == 0x0d)
        invariant
            start <= end <= bytes@.len(),
            n <= end - start,
            trailing_ascii_ws(bytes@.subrange(start as int, end as int)) == n + trailing_ascii_ws(
                bytes@.subrange(start as int, end - n),
            ),
        decreases end - start - n,
    {
        assert(bytes@.subrange(start as int, end - n).drop_last() =~= bytes@.subrange(
            start as int,
            end - n - 1,
        ));
        n = n + 1;
    }
    assert(n < end - start ==> bytes@.subrange(start as int, end - n).last() == bytes@[end - 1
        - n]);
    n
}

/// If `s` ends in a newline, the byte length of that newline (1).
pub fn trailing_nlf(s: &str) -> (r: Option<usize>)
    ensures
        r == (if s.spec_bytes().len() > 0 && s.spec_bytes().last() == 0x0a {
            Some(1usize)
        } else {
            None
        }),
{
    let bytes = s.as_bytes();
    if bytes.len() > 0 && bytes[bytes.len() - 1] == 0x0a {
        Some(1)
    } else {
        None
    }
}

/// The lines after the mandatory breaks among the first `n` break
/// opportunities, and the start of the line in progress.
pub open spec fn hard_lines_upto(breaks: Seq<(usize, bool)>, n: int) -> (Seq<(usize, usize)>, usize)
    decreases n,
{
    if n <= 0 {
        (Seq::empty(), 0)
    } else {
        let prev = hard_lines_upto(breaks, n - 1);
        let b = breaks[n - 1];
        if b.1 {
            (prev.0.push((prev.1, b.0)), b.0)
        } else {
            prev
        }
    }
}

/// Lines split only at mandatory breaks, with a last line for text after
/// the last mandatory break.
pub open spec fn hard_lines(breaks: Seq<(usize, bool)>, len: usize) -> Seq<(usize, usize)> {
    let r = hard_lines_upto(breaks, breaks.len() as int);
    if r.1 != len {
        r.0.push((r.1, len))
    } else {
        r.0
    }
}

proof fn lemma_hard_lines_chain(breaks: Seq<(usize, bool)>, n: int)
    requires
        0 <= n <= breaks.len(),
        forall|i: int, j: int| 0 <= i < j < breaks.len() ==> #[trigger] breaks[i].0 < #[trigger] breaks[j].0,
    ensures
        lines_chain(hard_lines_upto(breaks, n).0, 0, hard_lines_upto(breaks, n).1 as int),
        n > 0 ==> hard_lines_upto(breaks, n).1 <= breaks[n - 1].0,
    decreases n,
{
    if n > 0 {
        lemma_hard_lines_chain(breaks, n - 1);
        if n > 1 {
            assert(breaks[n - 2].0 < breaks[n - 1].0);
        }
    }
}

/// The break at index `m` is mandatory.
pub open spec fn mandatory_at(breaks: Seq<(usize, bool)>, m: int) -> bool {
    breaks[m].1
}

proof fn lemma_hard_lines_nonempty(breaks: Seq<(usize, bool)>, n: int)
    requires
        0 <= n <= breaks.len(),
        forall|i: int, j: int| 0 <= i < j < breaks.len() ==> #[trigger] breaks[i].0 < #[trigger] breaks[j].0,
        forall|i: int| 0 <= i < breaks.len() ==> 0 < #[trigger] breaks[i].0,
    ensures
        forall|k: int|
            0 <= k < hard_lines_upto(breaks, n).0.len() ==> #[trigger] hard_lines_upto(breaks, n).0[k].0
                < hard_lines_upto(breaks, n).0[k].1,
    decreases n,
{
    if n > 0 {
        lemma_hard_lines_nonempty(breaks, n - 1);
        lemma_hard_lines_chain(breaks, n - 1);
        let prev = hard_lines_upto(breaks, n - 1);
        if n > 1 {
            assert(breaks[n - 2].0 < breaks[n - 1].0);
        }
        assert(prev.1 < breaks[n - 1].0);
        let cur = hard_lines_upto(breaks, n);
        assert forall|k: int| 0 <= k < cur.0.len() implies #[trigger] cur.0[k].0 < cur.0[k].1 by {
            if k < prev.0.len() {
                assert(cur.0[k] == prev.0[k]);
            }
        }
    }
}

proof fn lemma_hard_lines_ends(breaks: Seq<(usize, bool)>, n: int)
    requires
        0 <= n <= breaks.len(),
    ensures
        forall|k: int|
            0 <= k < hard_lines_upto(breaks, n).0.len() ==> exists|m: int|
                0 <= m < n && #[trigger] breaks[m] == (
                    #[trigger] hard_lines_upto(breaks, n).0[k].1,
                    true,
                ),
        forall|m: int|
            0 <= m < n && #[trigger] mandatory_at(breaks, m) ==> exists|k: int|
                0 <= k < hard_lines_upto(breaks, n).0.len() && #[trigger] hard_lines_upto(
                    breaks,
                    n,
                ).0[k].1 == breaks[m].0,
    decreases n,
{
    if n > 0 {
        lemma_hard_lines_ends(breaks, n - 1);
        let prev = hard_lines_upto(breaks, n - 1);
        let cur = hard_lines_upto(breaks, n);
        let b = breaks[n - 1];
        if b.1 {
            assert forall|k: int| 0 <= k < cur.0.len() implies exists|m: int|
                0 <= m < n && #[trigger] breaks[m] == (#[trigger] cur.0[k].1, true) by {
                if k < prev.0.len() {
                    assert(cur.0[k] == prev.0[k]);
                    let m = choose|m: int| 0 <= m < n - 1 && #[trigger] breaks[m] == (prev.0[k].1, true);
                    assert(breaks[m] == (cur.0[k].1, true));
                } else {
                    assert(breaks[n - 1] == (cur.0[k].1, true));
                }
            }
            assert forall|m: int| 0 <= m < n && #[trigger] mandatory_at(breaks, m) implies exists|k: int|
                0 <= k < cur.0.len() && #[trigger] cur.0[k].1 == breaks[m].0 by {
                if m < n - 1 {
                    let k = choose|k: int| 0 <= k < prev.0.len() && #[trigger] prev.0[k].1 == breaks[m].0;
                    assert(cur.0[k] == prev.0[k]);
                } else {
                    assert(cur.0[cur.0.len() - 1].1 == breaks[m].0);
                }
            }
        } else {
            assert forall|k: int| 0 <= k < cur.0.len() implies exists|m: int|
                0 <= m < n && #[trigger] breaks[m] == (#[trigger] cur.0[k].1, true) by {
                let m = choose|m: int| 0 <= m < n - 1 && #[trigger] breaks[m] == (prev.0[k].1, true);
                assert(breaks[m] == (cur.0[k].1, true));
            }
        }
    }
}

/// What the input of `hard_lines` satisfies: strictly increasing breaks
/// inside the text, the last one at its end.
pub open spec fn breaks_ok(breaks: Seq<(usize, bool)>, len: usize) -> bool {
    &&& forall|i: int, j: int| 0 <= i < j < breaks.len() ==> #[trigger] breaks[i].0 < #[trigger] breaks[j].0
    &&& forall|i: int| 0 <= i < breaks.len() ==> 0 < #[trigger] breaks[i].0 <= len
    &&& breaks.len() > 0 ==> breaks[breaks.len() - 1].0 == len
}

proof fn lemma_hard_lines_last(breaks: Seq<(usize, bool)>, len: usize)
    requires
        breaks_ok(breaks, len),
    ensures
        hard_lines_upto(breaks, breaks.len() as int).1 <= len,
        forall|k: int|
            0 <= k < hard_lines_upto(breaks, breaks.len() as int).0.len() ==> #[trigger] hard_lines(
                breaks,
                len,
            )[k] == hard_lines_upto(breaks, breaks.len() as int).0[k],
        hard_lines(breaks, len).len() == hard_lines_upto(breaks, breaks.len() as int).0.len() || (
        hard_lines(breaks, len).len() == hard_lines_upto(breaks, breaks.len() as int).0.len() + 1
            && hard_lines(breaks, len).last() == (hard_lines_upto(breaks, breaks.len() as int).1, len)
            && hard_lines_upto(breaks, breaks.len() as int).1 < len),
{
    lemma_hard_lines_chain(breaks, breaks.len() as int);
}

proof fn lemma_hard_lines_end_at_breaks(breaks: Seq<(usize, bool)>, len: usize)
    requires
        breaks_ok(breaks, len),
    ensures
        forall|k: int|
            0 <= k < hard_lines(breaks, len).len() ==> #[trigger] hard_lines(breaks, len)[k].1 == len
                || exists|m: int| 0 <= m < breaks.len() && #[trigger] breaks[m] == (hard_lines(breaks, len)[k].1, true),
{
    let lines = hard_lines(breaks, len);
    let r = hard_lines_upto(breaks, breaks.len() as int);
    lemma_hard_lines_last(breaks, len);
    lemma_hard_lines_ends(breaks, breaks.len() as int);
    assert forall|k: int| 0 <= k < lines.len() implies #[trigger] lines[k].1 == len || exists|m: int|
        0 <= m < breaks.len() && #[trigger] breaks[m] == (lines[k].1, true) by {
        if k < r.0.len() {
            assert(lines[k] == r.0[k]);
        }
    }
}

proof fn lemma_hard_breaks_end_lines(breaks: Seq<(usize, bool)>, len: usize)
    requires
        breaks_ok(breaks, len),
    ensures
        forall|m: int|
            0 <= m < breaks.len() && #[trigger] mandatory_at(breaks, m) ==> exists|k: int|
                0 <= k < hard_lines(breaks, len).len() && #[trigger] hard_lines(breaks, len)[k].1 == breaks[m].0,
{
    let lines = hard_lines(breaks, len);
    let r = hard_lines_upto(breaks, breaks.len() as int);
    lemma_hard_lines_last(breaks, len);
    lemma_hard_lines_ends(breaks, breaks.len() as int);
    assert forall|m: int| 0 <= m < breaks.len() && #[trigger] mandatory_at(breaks, m) implies exists|k: int|
        0 <= k < lines.len() && #[trigger] lines[k].1 == breaks[m].0 by {
        let k = choose|k: int| 0 <= k < r.0.len() && #[trigger] r.0[k].1 == breaks[m].0;
        assert(lines[k] == r.0[k]);
    }
}

proof fn lemma_hard_lines_not_empty(breaks: Seq<(usize, bool)>, len: usize)
    requires
        breaks_ok(breaks, len),
    ensures
        forall|k: int| 0 <= k < hard_lines(breaks, len).len() ==> #[trigger] hard_lines(breaks, len)[k].0 < hard_lines(breaks, len)[k].1,
{
    let lines = hard_lines(breaks, len);
    let r = hard_lines_upto(breaks, breaks.len() as int);
    lemma_hard_lines_last(breaks, len);
    lemma_hard_lines_nonempty(breaks, breaks.len() as int);
    assert forall|k: int| 0 <= k < lines.len() implies #[trigger] lines[k].0 < lines[k].1 by {
        if k < r.0.len() {
            assert(lines[k] == r.0[k]);
        }
    }
}

/// Byte ranges of the lines of `text` split at mandatory breaks only (the
/// line ranges that a layout without width constraint shows).
pub fn hard_line_ranges(text: &str) -> (lines: Vec<(usize, usize)>)
    ensures
        lines@ == hard_lines(line_break_opportunities(text@), text.spec_bytes().len() as usize),
        lines_chain(lines@, 0, text.spec_bytes().len() as int),
        // every line ends at a mandatory break or at the end of the text
        forall|k: int|
            0 <= k < lines@.len() ==> #[trigger] lines@[k].1 == text.spec_bytes().len() || exists|m: int|
                0 <= m < line_break_opportunities(text@).len() && #[trigger] line_break_opportunities(
                    text@,
                )[m] == (lines@[k].1, true),
        // and every mandatory break ends a line
        forall|m: int|
            0 <= m < line_break_opportunities(text@).len() && #[trigger] mandatory_at(
            line_break_opportunities(text@),
            m,
        ) ==> exists|k: int|
                0 <= k < lines@.len() && #[trigger] lines@[k].1 == line_break_opportunities(
                    text@,
                )[m].0,
        // no line is empty
        forall|k: int| 0 <= k < lines@.len() ==> #[trigger] lines@[k].0 < lines@[k].1,
{
    let breaks = line_breaks(text);
    let len = text.len();
    let mut lines: Vec<(usize, usize)> = Vec::new();
    let mut line_start: usize = 0;
    let mut i: usize = 0;
    while i < breaks.len()
        invariant
            i <= breaks@.len(),
            breaks@ == line_break_opportunities(text@),
            lines@ == hard_lines_upto(breaks@, i as int).0,
            line_start == hard_lines_upto(breaks@, i as int).1,
        decreases breaks@.len() - i,
    {
        let (b, hard) = breaks[i];
        if hard {
            lines.push((line_start, b));
            line_start = b;
        }
        i = i + 1;
    }
    if line_start != len {
        lines.push((line_start, len));
    }
    proof {
        lemma_hard_lines_chain(breaks@, breaks@.len() as int);
        if breaks@.len() > 0 {
            assert(breaks@[breaks@.len() - 1].0 == len);
        }
        let lbo = line_break_opportunities(text@);
        assert(breaks_ok(lbo, len));
        lemma_hard_lines_end_at_breaks(lbo, len);
        lemma_hard_breaks_end_lines(lbo, len);
        lemma_hard_lines_not_empty(lbo, len);
    }
    lines
}

} // verus!
