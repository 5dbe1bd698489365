//! Grapheme cluster segmentation: a break iterator driven by rule tables,
//! over UTF-8, Latin-1 and UTF-16 input.

use vstd::prelude::*;
use crate::trie::{CodePointMap8, trie_values8};
use vstd::string::StringSliceAdditionalSpecFns;
use vstd::utf8::{
    codepoint_width_1, codepoint_width_2, codepoint_width_3, codepoint_width_4, encode_scalar,
    encode_utf8, encode_utf8_first_scalar, decode_first_scalar, length_of_first_scalar,
    valid_first_scalar, decode_first_codepoint,
};

verus! {

/// A break-state table entry: a break stands here.
pub const BREAK_RULE: i8 = -3;

/// A break-state table entry: the rule that was followed does not match, so
/// the break goes back to the last marked position.
pub const NOT_MATCH_RULE: i8 = -2;

/// A break-state table entry: no break here.
pub const KEEP_RULE: i8 = -1;

/// A bit of a break state that marks the current position as the fallback
/// break of a longer rule.
pub const INTERMEDIATE_MATCH_RULE: i8 = 64;

/// The rule tables of a segmenter: a property for each code point, and a
/// table of break states indexed by (state or left property, right property).
pub struct RuleBreakData {
    pub property_table: CodePointMap8,
    pub break_state_table: Vec<i8>,
    pub property_count: u8,
    pub last_codepoint_property: i8,
    /// The start-of-text property of the tables' layout. A text breaks at its
    /// start whatever that row holds, so the iterator does not read it.
    pub sot_property: u8,
    pub eot_property: u8,
    pub complex_property: u8,
}

impl RuleBreakData {
    /// The break state for the pair (`left`, `right`); a keep where the
    /// table has no entry.
    pub open spec fn state_spec(&self, left: u8, right: u8) -> i8 {
        let idx = left as int * self.property_count as int + right as int;
        if idx < self.break_state_table@.len() {
            self.break_state_table@[idx]
        } else {
            KEEP_RULE
        }
    }

    pub fn break_state(&self, left: u8, right: u8) -> (r: i8)
        ensures
            r == self.state_spec(left, right),
    {
        let l = left as usize;
        let n = self.property_count as usize;
        assert(l * n <= 255 * 255) by (nonlinear_arith)
            requires
                l <= 255,
                n <= 255,
        ;
        let idx = l * n + (right as usize);
        if idx < self.break_state_table.len() {
            self.break_state_table[idx]
        } else {
            KEEP_RULE
        }
    }

    /// A break stands between `left` and `right` without looking further.
    pub open spec fn is_break_spec(&self, left: u8, right: u8) -> bool {
        let s = self.state_spec(left, right);
        s != KEEP_RULE && s < 0
    }

    pub fn is_break(&self, left: u8, right: u8) -> (r: bool)
        ensures
            r == self.is_break_spec(left, right),
    {
        let s = self.break_state(left, right);
        s != KEEP_RULE && s < 0
    }

    /// The break property of a code point.
    pub fn property(&self, c: u32) -> (r: u8)
        ensures
            r == trie_values8(self.property_table)[c],
    {
        self.property_table.get32(c)
    }
}

/// The number of bytes of the UTF-8 sequence that starts with `b`, as far
/// as `avail` bytes allow; a malformed start takes one byte.
pub open spec fn utf8_width(b: u8, avail: int) -> int {
    if b < 0x80 {
        1
    } else if b >= 0xF0 && avail >= 4 {
        4
    } else if b >= 0xE0 && avail >= 3 {
        3
    } else if b >= 0xC0 && avail >= 2 {
        2
    } else {
        1
    }
}

/// The code point of the UTF-8 sequence at `pos`.
pub open spec fn utf8_code_point(s: Seq<u8>, pos: int) -> u32 {
    let b0 = s[pos];
    let w = utf8_width(b0, s.len() - pos);
    if b0 < 0x80 {
        codepoint_width_1(b0)
    } else if w == 4 {
        codepoint_width_4(b0, s[pos + 1], s[pos + 2], s[pos + 3])
    } else if w == 3 {
        codepoint_width_3(b0, s[pos + 1], s[pos + 2])
    } else if w == 2 {
        codepoint_width_2(b0, s[pos + 1])
    } else {
        0xFFFD
    }
}

pub open spec fn is_lead_surrogate(u: u16) -> bool {
    0xD800 <= u && u <= 0xDBFF
}

pub open spec fn is_trail_surrogate(u: u16) -> bool {
    0xDC00 <= u && u <= 0xDFFF
}

/// The number of UTF-16 code units of the code point at `pos`: two for a
/// surrogate pair, else one (a lone surrogate stands for itself).
pub open spec fn utf16_width(s: Seq<u16>, pos: int) -> int {
    if is_lead_surrogate(s[pos]) && pos + 1 < s.len() && is_trail_surrogate(s[pos + 1]) {
        2
    } else {
        1
    }
}

pub open spec fn utf16_code_point(s: Seq<u16>, pos: int) -> u32 {
    if utf16_width(s, pos) == 2 {
        (0x10000 + (s[pos] - 0xD800) * 0x400 + (s[pos + 1] - 0xDC00)) as u32
    } else {
        s[pos] as u32
    }
}

/// The text that a break iterator walks, in one of three encodings.
pub enum BreakSource<'s> {
    Utf8(&'s [u8]),
    Latin1(&'s [u8]),
    Utf16(&'s [u16]),
}

pub open spec fn source_len(src: BreakSource) -> int {
    match src {
        BreakSource::Utf8(b) => b@.len() as int,
        BreakSource::Latin1(b) => b@.len() as int,
        BreakSource::Utf16(u) => u@.len() as int,
    }
}

/// The code point at `pos` and the number of code units it takes.
pub open spec fn element_spec(src: BreakSource, pos: int) -> (u32, int) {
    match src {
        BreakSource::Utf8(b) => (utf8_code_point(b@, pos), utf8_width(b@[pos], b@.len() - pos)),
        BreakSource::Latin1(b) => (b@[pos] as u32, 1),
        BreakSource::Utf16(u) => (utf16_code_point(u@, pos), utf16_width(u@, pos)),
    }
}

/// Decodes the UTF-8 sequence at `pos`.
fn utf8_element(s: &[u8], pos: usize) -> (r: (u32, usize))
    requires
        pos < s@.len(),
    ensures
        r.0 == utf8_code_point(s@, pos as int),
        r.1 == utf8_width(s@[pos as int], s@.len() - pos),
{
    let b0 = s[pos];
    let avail = s.len() - pos;
    if b0 < 0x80 {
        ((b0 & 0x7F) as u32, 1)
    } else if b0 >= 0xF0 && avail >= 4 {
        let c = ((b0 & 0x07) as u32) << 18 | ((s[pos + 1] & 0x3F) as u32) << 12 | ((s[pos + 2]
            & 0x3F) as u32) << 6 | ((s[pos + 3] & 0x3F) as u32);
        (c, 4)
    } else if b0 >= 0xE0 && avail >= 3 {
        let c = ((b0 & 0x0F) as u32) << 12 | ((s[pos + 1] & 0x3F) as u32) << 6 | ((s[pos + 2]
            & 0x3F) as u32);
        (c, 3)
    } else if b0 >= 0xC0 && avail >= 2 {
        let c = ((b0 & 0x1F) as u32) << 6 | ((s[pos + 1] & 0x3F) as u32);
        (c, 2)
    } else {
        (0xFFFD, 1)
    }
}

/// Decodes the UTF-16 code units at `pos`.
fn utf16_element(s: &[u16], pos: usize) -> (r: (u32, usize))
    requires
        pos < s@.len(),
    ensures
        r.0 == utf16_code_point(s@, pos as int),
        r.1 == utf16_width(s@, pos as int),
{
    let u = s[pos];
    if 0xD800 <= u && u <= 0xDBFF && pos + 1 < s.len() && 0xDC00 <= s[pos + 1] && s[pos + 1]
        <= 0xDFFF {
        let c = 0x10000 + (u - 0xD800) as u32 * 0x400 + (s[pos + 1] - 0xDC00) as u32;
        (c, 2)
    } else {
        (u as u32, 1)
    }
}

impl<'s> BreakSource<'s> {
    pub fn len(&self) -> (r: usize)
        ensures
            r == source_len(*self),
    {
        match self {
            BreakSource::Utf8(b) => b.len(),
            BreakSource::Latin1(b) => b.len(),
            BreakSource::Utf16(u) => u.len(),
        }
    }

    /// The code point at `pos` and the number of code units it takes.
    pub fn element(&self, pos: usize) -> (r: (u32, usize))
        requires
            pos < source_len(*self),
        ensures
            r.0 == element_spec(*self, pos as int).0,
            r.1 == element_spec(*self, pos as int).1,
            1 <= r.1,
            pos + r.1 <= source_len(*self),
    {
        match self {
            BreakSource::Utf8(b) => utf8_element(b, pos),
            BreakSource::Latin1(b) => (b[pos] as u32, 1),
            BreakSource::Utf16(u) => utf16_element(u, pos),
        }
    }
}

impl RuleBreakData {
    pub open spec fn prop_spec(&self, c: u32) -> u8 {
        trie_values8(self.property_table)[c]
    }
}

/// How the look-ahead of a longer rule ends.
pub enum LookAhead {
    /// The rule keeps the text together up to the element at this position.
    Keep(int),
    /// The rule does not match: break at this earlier, marked position.
    NotMatch(int),
    /// A break stands before the element at this position.
    Break(int),
    /// The text ends and the rule matches up to its end.
    End,
}

/// Follows a rule that needs more than two elements: `state` is the break
/// state so far, `cur` the position of its last element, `mark` the break
/// to fall back to.
pub open spec fn look_ahead(
    data: RuleBreakData,
    src: BreakSource,
    cur: int,
    state: i8,
    mark: int,
) -> LookAhead
    decreases source_len(src) - cur,
{
    if cur < 0 || cur >= source_len(src) || element_spec(src, cur).1 < 1 {
        LookAhead::End
    } else {
        let next = cur + element_spec(src, cur).1;
        if next >= source_len(src) {
            if data.state_spec(state as u8, data.eot_property) == NOT_MATCH_RULE {
                LookAhead::NotMatch(mark)
            } else {
                LookAhead::End
            }
        } else {
            let prop = data.prop_spec(element_spec(src, next).0);
            let s = data.state_spec(state as u8, prop);
            if s < 0 {
                if s == KEEP_RULE {
                    LookAhead::Keep(next)
                } else if s == NOT_MATCH_RULE {
                    LookAhead::NotMatch(mark)
                } else {
                    LookAhead::Break(next)
                }
            } else {
                let mark1 = if state <= data.last_codepoint_property {
                    next
                } else {
                    mark
                };
                if s >= INTERMEDIATE_MATCH_RULE {
                    look_ahead(data, src, next, (s - INTERMEDIATE_MATCH_RULE) as i8, next)
                } else {
                    look_ahead(data, src, next, s, mark1)
                }
            }
        }
    }
}

/// The next break after the element at `cur`, and whether it is the end of
/// the text.
pub open spec fn next_break_from(data: RuleBreakData, src: BreakSource, cur: int) -> (int, bool)
    decreases source_len(src) - cur,
{
    if cur < 0 || cur >= source_len(src) || element_spec(src, cur).1 < 1 {
        (source_len(src), true)
    } else {
        let left = data.prop_spec(element_spec(src, cur).0);
        let right_pos = cur + element_spec(src, cur).1;
        if right_pos >= source_len(src) {
            (source_len(src), true)
        } else {
            let right = data.prop_spec(element_spec(src, right_pos).0);
            if right == data.complex_property && left != data.complex_property {
                (right_pos, false)
            } else {
                let s = data.state_spec(left, right);
                if s >= 0 {
                    match look_ahead(data, src, right_pos, s, right_pos) {
                        LookAhead::Keep(p) => if cur < p && p < source_len(src) {
                            next_break_from(data, src, p)
                        } else {
                            (source_len(src), true)
                        },
                        LookAhead::NotMatch(p) => (p, false),
                        LookAhead::Break(p) => (p, false),
                        LookAhead::End => (source_len(src), true),
                    }
                } else if data.is_break_spec(left, right) {
                    (right_pos, false)
                } else {
                    next_break_from(data, src, right_pos)
                }
            }
        }
    }
}

pub proof fn lemma_look_ahead_bounds(
    data: RuleBreakData,
    src: BreakSource,
    cur: int,
    state: i8,
    mark: int,
    lo: int,
)
    requires
        lo <= mark <= cur,
        mark < source_len(src),
    ensures
        match look_ahead(data, src, cur, state, mark) {
            LookAhead::Keep(p) => cur < p < source_len(src),
            LookAhead::Break(p) => cur < p < source_len(src),
            LookAhead::NotMatch(m) => lo <= m < source_len(src),
            LookAhead::End => true,
        },
    decreases source_len(src) - cur,
{
    if 0 <= cur < source_len(src) && element_spec(src, cur).1 >= 1 {
        let next = cur + element_spec(src, cur).1;
        if next < source_len(src) {
            let prop = data.prop_spec(element_spec(src, next).0);
            let s = data.state_spec(state as u8, prop);
            if s >= 0 {
                let mark1 = if state <= data.last_codepoint_property {
                    next
                } else {
                    mark
                };
                if s >= INTERMEDIATE_MATCH_RULE {
                    lemma_look_ahead_bounds(data, src, next, (s - INTERMEDIATE_MATCH_RULE) as i8, next, lo);
                } else {
                    lemma_look_ahead_bounds(data, src, next, s, mark1, lo);
                }
            }
        }
    }
}

/// The next break lies after `cur`, within the text; only the end of the
/// text is reported as such.
pub proof fn lemma_next_break_bounds(data: RuleBreakData, src: BreakSource, cur: int)
    requires
        0 <= cur < source_len(src),
    ensures
        cur < next_break_from(data, src, cur).0 <= source_len(src),
        next_break_from(data, src, cur).1 <==> next_break_from(data, src, cur).0 == source_len(src),
    decreases source_len(src) - cur,
{
    if element_spec(src, cur).1 >= 1 {
        let left = data.prop_spec(element_spec(src, cur).0);
        let right_pos = cur + element_spec(src, cur).1;
        if right_pos < source_len(src) {
            let right = data.prop_spec(element_spec(src, right_pos).0);
            if !(right == data.complex_property && left != data.complex_property) {
                let s = data.state_spec(left, right);
                if s >= 0 {
                    lemma_look_ahead_bounds(data, src, right_pos, s, right_pos, right_pos);
                    match look_ahead(data, src, right_pos, s, right_pos) {
                        LookAhead::Keep(p) => {
                            lemma_next_break_bounds(data, src, p);
                        },
                        _ => {},
                    }
                } else if !data.is_break_spec(left, right) {
                    lemma_next_break_bounds(data, src, right_pos);
                }
            }
        }
    }
}

/// A lazy iterator over the break positions of a text: `0` where the rules
/// break before the first element, then each break, ending with the text's
/// length.
pub struct RuleBreakIterator<'l, 's> {
    data: &'l RuleBreakData,
    source: BreakSource<'s>,
    len: usize,
    current: usize,
    started: bool,
    finished: bool,
}

/// Grapheme cluster break iterator for an `str` (a UTF-8 string).
pub type GraphemeClusterBreakIteratorUtf8<'l, 's> = RuleBreakIterator<'l, 's>;

/// Grapheme cluster break iterator for a Latin-1 (8-bit) string.
pub type GraphemeClusterBreakIteratorLatin1<'l, 's> = RuleBreakIterator<'l, 's>;

/// Grapheme cluster break iterator for a UTF-16 string.
pub type GraphemeClusterBreakIteratorUtf16<'l, 's> = RuleBreakIterator<'l, 's>;

/// What a call of `next` gives on an iterator in the state (`started`,
/// `finished`, `cur`): the break, and the next state.
pub open spec fn next_spec(
    data: RuleBreakData,
    src: BreakSource,
    started: bool,
    finished: bool,
    cur: int,
) -> (Option<int>, bool, int) {
    if finished {
        (None, true, cur)
    } else if !started && source_len(src) == 0 {
        (None, true, 0)
    } else if !started {
        (Some(0), false, 0)
    } else {
        let from = if started {
            cur
        } else {
            0
        };
        let (b, end) = next_break_from(data, src, from);
        (Some(b), end, b)
    }
}

impl<'l, 's> RuleBreakIterator<'l, 's> {
    pub closed spec fn data_spec(&self) -> RuleBreakData {
        *self.data
    }

    pub closed spec fn source_spec(&self) -> BreakSource<'s> {
        self.source
    }

    pub closed spec fn started(&self) -> bool {
        self.started
    }

    pub closed spec fn finished(&self) -> bool {
        self.finished
    }

    /// The last break given.
    pub closed spec fn position(&self) -> int {
        self.current as int
    }

    pub closed spec fn wf(&self) -> bool {
        &&& self.len == source_len(self.source)
        &&& (self.started && !self.finished ==> self.current < self.len)
        &&& (!self.started ==> !self.finished)
    }

    /// An iterator at the start of `source`.
    pub fn new(data: &'l RuleBreakData, source: BreakSource<'s>) -> (r: RuleBreakIterator<'l, 's>)
        ensures
            r.wf(),
            r.data_spec() == *data,
            r.source_spec() == source,
            !r.started(),
            !r.finished(),
    {
        let len = source.len();
        RuleBreakIterator { data, source, len, current: 0, started: false, finished: false }
    }

    /// The next break position, or `None` once the end of the text was given.
    pub fn next(&mut self) -> (r: Option<usize>)
        requires
            old(self).wf(),
        ensures
            final(self).wf(),
            final(self).data_spec() == old(self).data_spec(),
            final(self).source_spec() == old(self).source_spec(),
            final(self).started(),
            ({
                let (b, fin, cur) = next_spec(
                    old(self).data_spec(),
                    old(self).source_spec(),
                    old(self).started(),
                    old(self).finished(),
                    old(self).position(),
                );
                &&& (r matches Some(x) ==> b == Some(x as int))
                &&& (r is None ==> b is None)
                &&& final(self).finished() == fin
                &&& (!fin ==> final(self).position() == cur)
            }),
    {
        if self.finished {
            return None;
        }
        if !self.started {
            self.started = true;
            if self.len == 0 {
                self.finished = true;
                return None;
            }
            // Every non-empty text has a break at its start.
            self.current = 0;
            return Some(0);
        }
        proof {
            lemma_next_break_bounds(*self.data, self.source, self.current as int);
        }
        let ghost expected = next_break_from(*self.data, self.source, self.current as int);
        assert(next_spec(
            old(self).data_spec(),
            old(self).source_spec(),
            old(self).started(),
            old(self).finished(),
            old(self).position(),
        ) == (Some(expected.0), expected.1, expected.0));
        loop
            invariant_except_break
                self.wf(),
                self.started,
                !self.finished,
                next_break_from(*self.data, self.source, self.current as int) == expected,
            invariant
                self.data == old(self).data,
                self.source == old(self).source,
                self.len == old(self).len,
                self.len == source_len(self.source),
                expected.0 <= self.len,
                expected.1 <==> expected.0 == self.len,
                next_spec(
                    old(self).data_spec(),
                    old(self).source_spec(),
                    old(self).started(),
                    old(self).finished(),
                    old(self).position(),
                ) == (Some(expected.0), expected.1, expected.0),
            ensures
                self.started,
                self.finished == expected.1,
                !self.finished ==> self.current == expected.0 && self.current < self.len,
            decreases self.len - self.current,
        {
            let (left_cp, left_w) = self.source.element(self.current);
            let left = self.data.property(left_cp);
            let right_pos = self.current + left_w;
            if right_pos >= self.len {
                self.finished = true;
                return Some(self.len);
            }
            let (right_cp, _) = self.source.element(right_pos);
            let right = self.data.property(right_cp);
            if right == self.data.complex_property && left != self.data.complex_property {
                // A break stands before text that only a dictionary could segment.
                self.current = right_pos;
                return Some(right_pos);
            }
            let mut state = self.data.break_state(left, right);
            if state >= 0 {
                let start = self.current;
                let mut mark = right_pos;
                let mut cur = right_pos;
                let ghost look = look_ahead(*self.data, self.source, right_pos as int, state, right_pos as int);
                proof {
                    lemma_look_ahead_bounds(*self.data, self.source, right_pos as int, state, right_pos as int, right_pos as int);
                }
                loop
                    invariant_except_break
                        right_pos <= mark <= cur < self.len,
                        state >= 0,
                        look_ahead(*self.data, self.source, cur as int, state, mark as int) == look,
                    invariant
                        self.data == old(self).data,
                        self.source == old(self).source,
                        self.len == source_len(self.source),
                        start < right_pos,
                    ensures
                        match look {
                            LookAhead::Keep(p) => state == KEEP_RULE && cur == p,
                            LookAhead::NotMatch(m) => state == NOT_MATCH_RULE && mark == m,
                            LookAhead::Break(p) => state < 0 && state != KEEP_RULE && state
                                != NOT_MATCH_RULE && cur == p,
                            LookAhead::End => state >= 0 && cur == self.len,
                        },
                    decreases self.len - cur,
                {
                    let (_, w) = self.source.element(cur);
                    let next = cur + w;
                    if next >= self.len {
                        if self.data.break_state(state as u8, self.data.eot_property) == NOT_MATCH_RULE {
                            state = NOT_MATCH_RULE;
                        } else {
                            cur = self.len;
                        }
                        break;
                    }
                    let (cp, _) = self.source.element(next);
                    let prop = self.data.property(cp);
                    let previous = state;
                    state = self.data.break_state(state as u8, prop);
                    if state < 0 {
                        cur = next;
                        break;
                    }
                    if previous <= self.data.last_codepoint_property {
                        mark = next;
                    }
                    if state >= INTERMEDIATE_MATCH_RULE {
                        state = state - INTERMEDIATE_MATCH_RULE;
                        mark = next;
                    }
                    cur = next;
                }
                if state == KEEP_RULE {
                    self.current = cur;
                    continue;
                }
                if state == NOT_MATCH_RULE {
                    self.current = mark;
                    return Some(mark);
                }
                if cur >= self.len {
                    self.finished = true;
                    return Some(self.len);
                }
                self.current = cur;
                return Some(cur);
            }
            if self.data.is_break(left, right) {
                self.current = right_pos;
                return Some(right_pos);
            }
            self.current = right_pos;
        }
        None
    }
}

pub open spec fn strictly_increasing(s: Seq<usize>) -> bool {
    forall|i: int, j: int| 0 <= i < j < s.len() ==> s[i] < s[j]
}

/// The breaks after the one at `cur`, in order, the last one the length.
pub open spec fn breaks_after(data: RuleBreakData, src: BreakSource, cur: int) -> Seq<int>
    decreases source_len(src) - cur,
{
    if cur < 0 || cur >= source_len(src) {
        seq![]
    } else {
        let (b, end) = next_break_from(data, src, cur);
        if end || b <= cur || b >= source_len(src) {
            seq![b]
        } else {
            seq![b] + breaks_after(data, src, b)
        }
    }
}

/// All the breaks of a text, as a fresh iterator gives them one by one.
pub open spec fn breaks_of(data: RuleBreakData, src: BreakSource) -> Seq<int> {
    if source_len(src) == 0 {
        seq![]
    } else {
        seq![0int] + breaks_after(data, src, 0)
    }
}

pub open spec fn as_ints(s: Seq<usize>) -> Seq<int> {
    s.map_values(|x: usize| x as int)
}

/// `p` is reached from `from` by stepping over whole elements.
pub open spec fn reachable(src: BreakSource, from: int, p: int) -> bool
    decreases p - from,
{
    if from == p {
        true
    } else if from < p && 0 <= from < source_len(src) && element_spec(src, from).1 >= 1
        && from + element_spec(src, from).1 <= p {
        reachable(src, from + element_spec(src, from).1, p)
    } else {
        false
    }
}

proof fn lemma_reachable_trans(src: BreakSource, a: int, b: int, c: int)
    requires
        reachable(src, a, b),
        reachable(src, b, c),
    ensures
        reachable(src, a, c),
    decreases b - a,
{
    if a != b {
        lemma_reachable_trans(src, a + element_spec(src, a).1, b, c);
    }
}

proof fn lemma_reachable_step(src: BreakSource, a: int)
    requires
        0 <= a < source_len(src),
        element_spec(src, a).1 >= 1,
    ensures
        reachable(src, a, a + element_spec(src, a).1),
{
    let b = a + element_spec(src, a).1;
    assert(reachable(src, b, b));
}

proof fn lemma_look_ahead_reachable(
    data: RuleBreakData,
    src: BreakSource,
    cur: int,
    state: i8,
    mark: int,
    base: int,
)
    requires
        reachable(src, base, cur),
        reachable(src, base, mark),
    ensures
        match look_ahead(data, src, cur, state, mark) {
            LookAhead::Keep(p) => reachable(src, base, p),
            LookAhead::Break(p) => reachable(src, base, p),
            LookAhead::NotMatch(m) => reachable(src, base, m),
            LookAhead::End => true,
        },
    decreases source_len(src) - cur,
{
    if 0 <= cur < source_len(src) && element_spec(src, cur).1 >= 1 {
        let next = cur + element_spec(src, cur).1;
        lemma_reachable_step(src, cur);
        lemma_reachable_trans(src, base, cur, next);
        if next < source_len(src) {
            let prop = data.prop_spec(element_spec(src, next).0);
            let s = data.state_spec(state as u8, prop);
            if s >= 0 {
                let mark1 = if state <= data.last_codepoint_property {
                    next
                } else {
                    mark
                };
                if s >= INTERMEDIATE_MATCH_RULE {
                    lemma_look_ahead_reachable(data, src, next, (s - INTERMEDIATE_MATCH_RULE) as i8, next, base);
                } else {
                    lemma_look_ahead_reachable(data, src, next, s, mark1, base);
                }
            }
        }
    }
}

/// A break before the end of the text stands between two elements.
proof fn lemma_next_break_reachable(data: RuleBreakData, src: BreakSource, cur: int)
    requires
        0 <= cur < source_len(src),
    ensures
        next_break_from(data, src, cur).0 < source_len(src) ==> reachable(
            src,
            cur,
            next_break_from(data, src, cur).0,
        ),
    decreases source_len(src) - cur,
{
    if element_spec(src, cur).1 >= 1 {
        let left = data.prop_spec(element_spec(src, cur).0);
        let right_pos = cur + element_spec(src, cur).1;
        lemma_reachable_step(src, cur);
        if right_pos < source_len(src) {
            let right = data.prop_spec(element_spec(src, right_pos).0);
            if !(right == data.complex_property && left != data.complex_property) {
                let s = data.state_spec(left, right);
                if s >= 0 {
                    lemma_look_ahead_reachable(data, src, right_pos, s, right_pos, cur);
                    match look_ahead(data, src, right_pos, s, right_pos) {
                        LookAhead::Keep(p) => {
                            lemma_look_ahead_bounds(data, src, right_pos, s, right_pos, right_pos);
                            if cur < p && p < source_len(src) {
                                lemma_next_break_reachable(data, src, p);
                                let b = next_break_from(data, src, p).0;
                                if b < source_len(src) {
                                    lemma_reachable_trans(src, cur, p, b);
                                }
                            }
                        },
                        _ => {},
                    }
                } else if !data.is_break_spec(left, right) {
                    lemma_next_break_reachable(data, src, right_pos);
                    let b = next_break_from(data, src, right_pos).0;
                    if b < source_len(src) {
                        lemma_reachable_trans(src, cur, right_pos, b);
                    }
                }
            }
        }
    }
}

proof fn lemma_breaks_after_reachable(data: RuleBreakData, src: BreakSource, cur: int, base: int)
    requires
        0 <= cur < source_len(src),
        reachable(src, base, cur),
    ensures
        forall|i: int|
            0 <= i < breaks_after(data, src, cur).len() && #[trigger] breaks_after(data, src, cur)[i]
                < source_len(src) ==> reachable(src, base, breaks_after(data, src, cur)[i]),
    decreases source_len(src) - cur,
{
    let (b, end) = next_break_from(data, src, cur);
    lemma_next_break_reachable(data, src, cur);
    if b < source_len(src) {
        lemma_reachable_trans(src, base, cur, b);
    }
    if !(end || b <= cur || b >= source_len(src)) {
        lemma_breaks_after_reachable(data, src, b, base);
        let rest = breaks_after(data, src, b);
        assert(breaks_after(data, src, cur) == seq![b] + rest);
        assert forall|i: int|
            0 <= i < breaks_after(data, src, cur).len() && #[trigger] breaks_after(data, src, cur)[i]
                < source_len(src) implies reachable(src, base, breaks_after(data, src, cur)[i]) by {
            if i > 0 {
                assert(breaks_after(data, src, cur)[i] == rest[i - 1]);
            }
        }
    }
}

/// No element is split: below the length every break is reached from the
/// start by whole elements.
pub proof fn lemma_breaks_between_elements(data: RuleBreakData, src: BreakSource)
    ensures
        forall|i: int|
            0 <= i < breaks_of(data, src).len() && #[trigger] breaks_of(data, src)[i] < source_len(
                src,
            ) ==> reachable(src, 0, breaks_of(data, src)[i]),
{
    if source_len(src) > 0 {
        lemma_breaks_after_reachable(data, src, 0, 0);
        let rest = breaks_after(data, src, 0);
        assert forall|i: int|
            0 <= i < breaks_of(data, src).len() && #[trigger] breaks_of(data, src)[i]
                < source_len(src) implies reachable(src, 0, breaks_of(data, src)[i]) by {
            if i > 0 {
                assert(breaks_of(data, src)[i] == rest[i - 1]);
            }
        }
    }
}

proof fn lemma_utf16_reachable_keeps_pairs(src: BreakSource, from: int, p: int)
    requires
        src is Utf16,
        reachable(src, from, p),
        0 <= from < p < source_len(src),
    ensures
        !(is_lead_surrogate(src->Utf16_0@[p - 1]) && is_trail_surrogate(src->Utf16_0@[p])),
    decreases p - from,
{
    let u = src->Utf16_0@;
    assert(element_spec(src, from).1 == utf16_width(u, from));
    let next = from + element_spec(src, from).1;
    if next < p {
        lemma_utf16_reachable_keeps_pairs(src, next, p);
    }
}

/// In UTF-16 text no break falls between the two halves of a surrogate pair.
pub proof fn lemma_utf16_breaks_keep_pairs(data: RuleBreakData, src: BreakSource)
    requires
        src is Utf16,
    ensures
        forall|i: int|
            0 <= i < breaks_of(data, src).len() && 0 < #[trigger] breaks_of(data, src)[i]
                < source_len(src) ==> !(is_lead_surrogate(
                src->Utf16_0@[breaks_of(data, src)[i] - 1],
            ) && is_trail_surrogate(src->Utf16_0@[breaks_of(data, src)[i]])),
{
    lemma_breaks_between_elements(data, src);
    assert forall|i: int|
        0 <= i < breaks_of(data, src).len() && 0 < #[trigger] breaks_of(data, src)[i] < source_len(
            src,
        ) implies !(is_lead_surrogate(src->Utf16_0@[breaks_of(data, src)[i] - 1])
        && is_trail_surrogate(src->Utf16_0@[breaks_of(data, src)[i]])) by {
        lemma_utf16_reachable_keeps_pairs(src, 0, breaks_of(data, src)[i]);
    }
}

/// Two texts with the same elements at the same positions.
pub open spec fn same_elements(s1: BreakSource, s2: BreakSource) -> bool {
    &&& source_len(s1) == source_len(s2)
    &&& forall|pos: int| 0 <= pos < source_len(s1) ==> #[trigger] element_spec(s1, pos) == element_spec(s2, pos)
}

proof fn lemma_look_ahead_same(
    data: RuleBreakData,
    s1: BreakSource,
    s2: BreakSource,
    cur: int,
    state: i8,
    mark: int,
)
    requires
        same_elements(s1, s2),
    ensures
        look_ahead(data, s1, cur, state, mark) == look_ahead(data, s2, cur, state, mark),
    decreases source_len(s1) - cur,
{
    if 0 <= cur < source_len(s1) {
        assert(element_spec(s1, cur) == element_spec(s2, cur));
        let next = cur + element_spec(s1, cur).1;
        if next < source_len(s1) && element_spec(s1, cur).1 >= 1 {
            assert(element_spec(s1, next) == element_spec(s2, next));
            let prop = data.prop_spec(element_spec(s1, next).0);
            let s = data.state_spec(state as u8, prop);
            if s >= 0 {
                let mark1 = if state <= data.last_codepoint_property {
                    next
                } else {
                    mark
                };
                if s >= INTERMEDIATE_MATCH_RULE {
                    lemma_look_ahead_same(data, s1, s2, next, (s - INTERMEDIATE_MATCH_RULE) as i8, next);
                } else {
                    lemma_look_ahead_same(data, s1, s2, next, s, mark1);
                }
            }
        }
    }
}

proof fn lemma_next_break_same(data: RuleBreakData, s1: BreakSource, s2: BreakSource, cur: int)
    requires
        same_elements(s1, s2),
    ensures
        next_break_from(data, s1, cur) == next_break_from(data, s2, cur),
    decreases source_len(s1) - cur,
{
    if 0 <= cur < source_len(s1) {
        assert(element_spec(s1, cur) == element_spec(s2, cur));
        let right_pos = cur + element_spec(s1, cur).1;
        if right_pos < source_len(s1) && element_spec(s1, cur).1 >= 1 {
            assert(element_spec(s1, right_pos) == element_spec(s2, right_pos));
            let left = data.prop_spec(element_spec(s1, cur).0);
            let right = data.prop_spec(element_spec(s1, right_pos).0);
            let s = data.state_spec(left, right);
            if s >= 0 {
                lemma_look_ahead_same(data, s1, s2, right_pos, s, right_pos);
                match look_ahead(data, s1, right_pos, s, right_pos) {
                    LookAhead::Keep(p) => {
                        if cur < p && p < source_len(s1) {
                            lemma_next_break_same(data, s1, s2, p);
                        }
                    },
                    _ => {},
                }
            } else {
                lemma_next_break_same(data, s1, s2, right_pos);
            }
        }
    }
}

proof fn lemma_breaks_after_same(data: RuleBreakData, s1: BreakSource, s2: BreakSource, cur: int)
    requires
        same_elements(s1, s2),
    ensures
        breaks_after(data, s1, cur) == breaks_after(data, s2, cur),
    decreases source_len(s1) - cur,
{
    if 0 <= cur < source_len(s1) {
        lemma_next_break_same(data, s1, s2, cur);
        let (b, end) = next_break_from(data, s1, cur);
        if !(end || b <= cur || b >= source_len(s1)) {
            lemma_breaks_after_same(data, s1, s2, b);
        }
    }
}

/// Texts with the same elements break alike.
pub proof fn lemma_same_elements_same_breaks(data: RuleBreakData, s1: BreakSource, s2: BreakSource)
    requires
        same_elements(s1, s2),
    ensures
        breaks_of(data, s1) == breaks_of(data, s2),
{
    lemma_breaks_after_same(data, s1, s2, 0);
    if source_len(s1) > 0 {
        assert(element_spec(s1, 0) == element_spec(s2, 0));
    }
}

/// ASCII text breaks alike in UTF-8, Latin-1 and UTF-16.
pub proof fn lemma_ascii_same_breaks_in_all_encodings(
    data: RuleBreakData,
    utf8: BreakSource,
    latin1: BreakSource,
    utf16: BreakSource,
)
    requires
        utf8 is Utf8,
        latin1 is Latin1,
        utf16 is Utf16,
        latin1->Latin1_0@ == utf8->Utf8_0@,
        forall|i: int| 0 <= i < utf8->Utf8_0@.len() ==> #[trigger] utf8->Utf8_0@[i] < 0x80,
        utf16->Utf16_0@.len() == utf8->Utf8_0@.len(),
        forall|i: int| 0 <= i < utf8->Utf8_0@.len() ==> #[trigger] utf16->Utf16_0@[i] == utf8->Utf8_0@[i] as u16,
    ensures
        breaks_of(data, utf8) == breaks_of(data, latin1),
        breaks_of(data, utf8) == breaks_of(data, utf16),
{
    let b = utf8->Utf8_0@;
    let u = utf16->Utf16_0@;
    assert forall|pos: int| 0 <= pos < source_len(utf8) implies #[trigger] element_spec(utf8, pos) == element_spec(latin1, pos) by {
        let x = b[pos];
        assert(x < 0x80);
        assert(x & 0x7F == x) by (bit_vector)
            requires
                x < 0x80u8,
        ;
    }
    assert forall|pos: int| 0 <= pos < source_len(utf8) implies #[trigger] element_spec(utf8, pos) == element_spec(utf16, pos) by {
        let x = b[pos];
        assert(x < 0x80);
        assert(x & 0x7F == x) by (bit_vector)
            requires
                x < 0x80u8,
        ;
        assert(u[pos] == b[pos] as u16);
    }
    lemma_same_elements_same_breaks(data, utf8, latin1);
    lemma_same_elements_same_breaks(data, utf8, utf16);
}

proof fn lemma_encode_utf8_concat(a: Seq<char>, c: Seq<char>)
    ensures
        encode_utf8(a + c) == encode_utf8(a) + encode_utf8(c),
    decreases a.len(),
{
    if a.len() == 0 {
        assert(a + c =~= c);
        assert(encode_utf8(a) + encode_utf8(c) =~= encode_utf8(c));
    } else {
        assert((a + c)[0] == a[0]);
        assert((a + c).drop_first() =~= a.drop_first() + c);
        lemma_encode_utf8_concat(a.drop_first(), c);
        assert(encode_utf8(a + c) =~= encode_utf8(a) + encode_utf8(c));
    }
}

/// The `k`-th character of `chars` starts where the encoding of the
/// characters before it ends.
pub open spec fn utf8_offset(chars: Seq<char>, k: int) -> int {
    encode_utf8(chars.take(k)).len() as int
}

/// Over the UTF-8 encoding of a string, the element at the offset of the
/// `k`-th character is that character, as wide as its encoding.
proof fn lemma_utf8_element_is_char(b: Seq<u8>, chars: Seq<char>, k: int)
    requires
        b == encode_utf8(chars),
        0 <= k < chars.len(),
    ensures
        utf8_offset(chars, k) < b.len(),
        utf8_code_point(b, utf8_offset(chars, k)) == chars[k] as u32,
        utf8_width(b[utf8_offset(chars, k)], b.len() - utf8_offset(chars, k)) == encode_scalar(
            chars[k] as u32,
        ).len(),
        utf8_offset(chars, k + 1) == utf8_offset(chars, k) + encode_scalar(chars[k] as u32).len(),
{
    let pre = encode_utf8(chars.take(k));
    let rest = chars.skip(k);
    let suf = encode_utf8(rest);
    assert(chars =~= chars.take(k) + rest);
    lemma_encode_utf8_concat(chars.take(k), rest);
    assert(b == pre + suf);
    encode_utf8_first_scalar(rest);
    assert(rest[0] == chars[k]);
    let p = pre.len() as int;
    assert(suf.len() > 0);
    assert forall|i: int| 0 <= i < suf.len() implies b[p + i] == #[trigger] suf[i] by {}
    assert(b[p] == suf[0]);
    if suf.len() >= 2 {
        assert(b[p + 1] == suf[1]);
    }
    if suf.len() >= 3 {
        assert(b[p + 2] == suf[2]);
    }
    if suf.len() >= 4 {
        assert(b[p + 3] == suf[3]);
    }
    assert(decode_first_scalar(suf) == decode_first_codepoint(suf));
    assert(chars.take(k + 1) =~= chars.take(k) + seq![chars[k]]);
    lemma_encode_utf8_concat(chars.take(k), seq![chars[k]]);
    let one = seq![chars[k]];
    assert(one.drop_first() =~= Seq::<char>::empty());
    assert(encode_utf8(one.drop_first()).len() == 0);
    assert(encode_utf8(one) == encode_scalar(one[0] as u32) + encode_utf8(one.drop_first()));
    assert(encode_utf8(one).len() == encode_scalar(chars[k] as u32).len());
}

/// A string's characters, read through its UTF-8 bytes: the element at the
/// offset of each character is that character, and each such offset is
/// reached from the start by whole elements, so breaks fall between
/// characters.
pub proof fn lemma_utf8_elements_are_chars(src: BreakSource, chars: Seq<char>, k: int)
    requires
        src matches BreakSource::Utf8(b) && b@ == encode_utf8(chars),
        0 <= k < chars.len(),
    ensures
        element_spec(src, utf8_offset(chars, k)) == (
            chars[k] as u32,
            encode_scalar(chars[k] as u32).len() as int,
        ),
        reachable(src, 0, utf8_offset(chars, k)),
    decreases k,
{
    let b = src->Utf8_0@;
    lemma_utf8_element_is_char(b, chars, k);
    if k == 0 {
        assert(chars.take(0) =~= Seq::<char>::empty());
        assert(reachable(src, 0, 0));
    } else {
        lemma_utf8_elements_are_chars(src, chars, k - 1);
        lemma_utf8_element_is_char(b, chars, k - 1);
        let q = utf8_offset(chars, k - 1);
        lemma_reachable_step(src, q);
        lemma_reachable_trans(src, 0, q, utf8_offset(chars, k));
    }
}

impl<'l, 's> RuleBreakIterator<'l, 's> {
    /// Takes all the breaks that are left.
    pub fn collect_breaks(&mut self) -> (r: Vec<usize>)
        requires
            old(self).wf(),
            !old(self).started(),
        ensures
            strictly_increasing(r@),
            forall|i: int| 0 <= i < r@.len() ==> r@[i] <= source_len(old(self).source_spec()),
            source_len(old(self).source_spec()) == 0 ==> r@.len() == 0,
            source_len(old(self).source_spec()) > 0 ==> r@.len() > 0 && r@.last()
                == source_len(old(self).source_spec()),
            source_len(old(self).source_spec()) > 0 ==> r@[0] == 0,
            as_ints(r@) == breaks_of(old(self).data_spec(), old(self).source_spec()),
    {
        let ghost data = self.data_spec();
        let ghost src = self.source_spec();
        let ghost len = source_len(src);
        let mut out: Vec<usize> = Vec::new();
        let first = self.next();
        match first {
            None => {
                return out;
            },
            Some(x) => {
                out.push(x);
            },
        }
        proof {
            assert(as_ints(out@) =~= seq![0int]);
        }
        while !self.finished
            invariant
                self.wf(),
                self.started(),
                self.data_spec() == data,
                self.source_spec() == src,
                len == source_len(src),
                out@.len() > 0,
                strictly_increasing(out@),
                forall|i: int| 0 <= i < out@.len() ==> out@[i] <= len,
                self.finished() ==> out@.last() == len,
                !self.finished() ==> out@.last() == self.position() && self.position() < len,
                out@[0] == 0,
                self.finished() ==> as_ints(out@) == breaks_of(data, src),
                !self.finished() ==> as_ints(out@) + breaks_after(data, src, self.position())
                    == breaks_of(data, src),
            decreases len - out@.last(),
        {
            proof {
                lemma_next_break_bounds(data, src, self.position());
            }
            let ghost before = out@;
            match self.next() {
                Some(x) => {
                    out.push(x);
                    assert(as_ints(out@) =~= as_ints(before).push(x as int));
                    assert forall|i: int, j: int| 0 <= i < j < out@.len() implies out@[i] < out@[j] by {
                        if j == out@.len() - 1 && i < j - 1 {
                            assert(before[i] < before[before.len() - 1]);
                        }
                    }
                },
                None => {},
            }
        }
        out
    }
}

/// Segments text into grapheme clusters with the rule tables it holds.
pub struct GraphemeClusterBreakSegmenter {
    payload: RuleBreakData,
}

impl GraphemeClusterBreakSegmenter {
    pub closed spec fn data(&self) -> RuleBreakData {
        self.payload
    }

    /// A segmenter over the rule tables `payload`.
    pub fn new(payload: RuleBreakData) -> (r: GraphemeClusterBreakSegmenter)
        ensures
            r.data() == payload,
    {
        GraphemeClusterBreakSegmenter { payload }
    }

    /// A break iterator over an `str`, giving byte offsets.
    pub fn segment_str<'l, 's>(&'l self, input: &'s str) -> (r: GraphemeClusterBreakIteratorUtf8<'l, 's>)
        ensures
            r.wf(),
            !r.started(),
            r.data_spec() == self.data(),
            r.source_spec() matches BreakSource::Utf8(b) && b@ == input.spec_bytes() && b@
                == encode_utf8(input@),
    {
        RuleBreakIterator::new(&self.payload, BreakSource::Utf8(input.as_bytes()))
    }

    /// A break iterator over Latin-1 bytes, giving byte offsets.
    pub fn segment_latin1<'l, 's>(&'l self, input: &'s [u8]) -> (r: GraphemeClusterBreakIteratorLatin1<'l, 's>)
        ensures
            r.wf(),
            !r.started(),
            r.data_spec() == self.data(),
            r.source_spec() == BreakSource::Latin1(input),
    {
        RuleBreakIterator::new(&self.payload, BreakSource::Latin1(input))
    }

    /// A break iterator over UTF-16 code units, giving code unit offsets.
    pub fn segment_utf16<'l, 's>(&'l self, input: &'s [u16]) -> (r: GraphemeClusterBreakIteratorUtf16<'l, 's>)
        ensures
            r.wf(),
            !r.started(),
            r.data_spec() == self.data(),
            r.source_spec() == BreakSource::Utf16(input),
    {
        RuleBreakIterator::new(&self.payload, BreakSource::Utf16(input))
    }
}

/// The UTF-8 encoding.
pub struct GraphemeClusterBreakTypeUtf8;

/// The Latin-1 encoding.
pub struct GraphemeClusterBreakTypeLatin1;

/// The UTF-16 encoding.
pub struct GraphemeClusterBreakTypeUtf16;

impl GraphemeClusterBreakTypeUtf8 {
    /// The number of bytes that the scalar value `ch` takes in UTF-8.
    pub fn get_current_position_character_len(ch: char) -> (r: usize)
        ensures
            r == (if (ch as u32) < 0x80 {
                1usize
            } else if (ch as u32) < 0x800 {
                2usize
            } else if (ch as u32) < 0x10000 {
                3usize
            } else {
                4usize
            }),
    {
        let v = ch as u32;
        if v < 0x80 {
            1
        } else if v < 0x800 {
            2
        } else if v < 0x10000 {
            3
        } else {
            4
        }
    }
}

impl GraphemeClusterBreakTypeLatin1 {
    /// Each Latin-1 character takes one byte.
    pub fn get_current_position_character_len(_ch: u8) -> (r: usize)
        ensures
            r == 1,
    {
        1
    }
}

impl GraphemeClusterBreakTypeUtf16 {
    /// The number of UTF-16 code units that the code point `ch` takes.
    pub fn get_current_position_character_len(ch: u32) -> (r: usize)
        ensures
            r == (if ch >= 0x10000 {
                2usize
            } else {
                1usize
            }),
    {
        if ch >= 0x10000 {
            2
        } else {
            1
        }
    }
}

} // verus!
