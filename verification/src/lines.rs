//! Rebuilding paragraph text from the lines that a recognition service
//! reports for a cut-out.
//!
//! The service reports each line with a box in fractions of the cut-out's
//! width and height. Here such a fraction is held in fixed point, as a whole
//! number of parts of [`NORMALIZED_ONE`], so that every comparison is exact.
//!
//! Reconstruction has two steps. The lines are first brought into reading
//! order: top to bottom by the height of the box's centre, nudged by the left
//! edge so that of two fragments at nearly the same height the left one comes
//! first. They are then merged into one text: a word that was hyphenated
//! across a line break is joined again, and a line indented against both its
//! neighbours starts a new paragraph. Pages with several columns are not
//! told apart.

use vstd::prelude::*;
use crate::geometry::{lemma_product_bound, Point};

verus! {

/// The fixed-point value that stands for the whole width or height of the
/// cut-out.
pub const NORMALIZED_ONE: i64 = 1_000_000;

/// An indent must be wider than this many pixels to start a paragraph.
pub const INDENT_MIN_PIXELS: i64 = 8;

/// An indent must be narrower than this many pixels to start a paragraph.
pub const INDENT_MAX_PIXELS: i64 = 40;

/// The left edge counts for one part in this many of the height of the
/// centre when lines are ordered.
pub const TIE_BREAK_DIVISOR: i64 = 40;

/// An upright box in fixed-point fractions of the cut-out.
#[derive(Clone, Copy, Debug, PartialEq, Eq, Structural)]
pub struct NormalizedBox {
    pub left: i32,
    pub top: i32,
    pub width: i32,
    pub height: i32,
}

/// One line of text as the recognition service reports it.
#[derive(Debug)]
pub struct RecognizedLine {
    /// The recognised characters; there may be none.
    pub text: String,
    /// The outline that the service reports, in fixed-point fractions of the
    /// cut-out. Reconstruction does not read it.
    pub polygon: Vec<Point>,
    /// The box around the line.
    pub bounding_box: NormalizedBox,
}

/// What kind of thing a block of the service's answer describes.
#[derive(Clone, Copy, Debug, PartialEq, Eq, Structural)]
pub enum BlockKind {
    /// A line of text.
    Line,
    /// Anything else, such as a page or a single word.
    Other,
}

/// One block of the service's answer: the service reports pages, lines and
/// words alike, each with text and a box.
#[derive(Debug)]
pub struct ServiceBlock {
    pub kind: BlockKind,
    pub line: RecognizedLine,
}

/// The recognition service's account of why it recognised nothing.
#[derive(Debug)]
pub struct ServiceFailure {
    pub description: String,
}

/// The text merged so far, and whether its last line broke off in a
/// hyphenated word.
pub struct MergeState {
    pub text: String,
    pub dehyphenating: bool,
}

/// What a [`MergeState`] holds, as plain values.
pub struct Progress {
    pub text: Seq<char>,
    pub dehyphenating: bool,
}

impl View for MergeState {
    type V = Progress;

    open spec fn view(&self) -> Progress {
        Progress { text: self.text@, dehyphenating: self.dehyphenating }
    }
}

/// The left edge of a line.
pub open spec fn left_of(line: RecognizedLine) -> int {
    line.bounding_box.left as int
}

/// Twice the height of the centre of a line's box: twice, so that the centre
/// of a box of odd height is still a whole number.
pub open spec fn twice_mid_y(line: RecognizedLine) -> int {
    2 * line.bounding_box.top + line.bounding_box.height
}

/// Twice the column of the centre of a line's box.
pub open spec fn twice_mid_x(line: RecognizedLine) -> int {
    2 * line.bounding_box.left + line.bounding_box.width
}

/// The number by which lines are ordered: the height of the centre plus the
/// left edge divided by [`TIE_BREAK_DIVISOR`], scaled by twice that divisor
/// to stay whole.
pub open spec fn sort_key(line: RecognizedLine) -> int {
    TIE_BREAK_DIVISOR * twice_mid_y(line) + 2 * left_of(line)
}

/// Where a line with the given key enters an ordered sequence: behind every
/// line whose key is no larger.
pub open spec fn slot(sorted: Seq<RecognizedLine>, key: int) -> int
    decreases sorted.len(),
{
    if sorted.len() == 0 || sort_key(sorted.last()) <= key {
        sorted.len() as int
    } else {
        slot(sorted.drop_last(), key)
    }
}

/// The lines in reading order: ascending by [`sort_key`], lines of equal key
/// in the order in which they were given.
pub open spec fn reading_order(lines: Seq<RecognizedLine>) -> Seq<RecognizedLine>
    decreases lines.len(),
{
    if lines.len() == 0 {
        Seq::empty()
    } else {
        let before = reading_order(lines.drop_last());
        before.insert(slot(before, sort_key(lines.last())), lines.last())
    }
}

/// The lines among the blocks of an answer, in the order of the answer.
pub open spec fn lines_among(blocks: Seq<ServiceBlock>) -> Seq<RecognizedLine>
    decreases blocks.len(),
{
    if blocks.len() == 0 {
        Seq::empty()
    } else if blocks.last().kind == BlockKind::Line {
        lines_among(blocks.drop_last()).push(blocks.last().line)
    } else {
        lines_among(blocks.drop_last())
    }
}

/// Whether keys never fall along the sequence.
pub open spec fn ascending(lines: Seq<RecognizedLine>) -> bool {
    forall|i: int, j: int| 0 <= i < j < lines.len() ==> sort_key(lines[i]) <= sort_key(lines[j])
}

/// The end of the word that begins at `from`: the position of the first
/// space at or behind `from`, or the end of the text where there is none.
pub open spec fn word_end(text: Seq<char>, from: int) -> int
    decreases text.len() - from,
{
    if from >= text.len() || text[from] == ' ' {
        from
    } else {
        word_end(text, from + 1)
    }
}

/// Whether the text holds a space.
pub open spec fn has_space(text: Seq<char>) -> bool {
    word_end(text, 0) < text.len()
}

/// Whether the text ends in a hyphen.
pub open spec fn ends_broken(text: Seq<char>) -> bool {
    text.len() > 0 && text.last() == '-'
}

/// The end of an output line.
pub open spec fn line_break() -> Seq<char> {
    seq!['\n']
}

/// Whether a horizontal gap, given in fixed-point fractions of a cut-out
/// `crop_width` pixels wide, is wider than [`INDENT_MIN_PIXELS`] and narrower
/// than [`INDENT_MAX_PIXELS`].
pub open spec fn gap_is_indent(gap: int, crop_width: u32) -> bool {
    INDENT_MIN_PIXELS * NORMALIZED_ONE < gap * crop_width < INDENT_MAX_PIXELS * NORMALIZED_ONE
}

/// Whether line `i` starts a paragraph: it has a line before it and a line
/// behind it, and is indented against both.
pub open spec fn starts_paragraph(lines: Seq<RecognizedLine>, i: int, crop_width: u32) -> bool {
    &&& 0 < i
    &&& i + 1 < lines.len()
    &&& gap_is_indent(left_of(lines[i]) - left_of(lines[i - 1]), crop_width)
    &&& gap_is_indent(left_of(lines[i]) - left_of(lines[i + 1]), crop_width)
}

/// What is written before the body of line `i`.
///
/// Behind a broken word it is the line's first word, which completes the
/// broken one, and a line break; where the line holds no space the whole
/// line is its body, and nothing comes before it. Elsewhere it is a line
/// break if the line starts a paragraph.
pub open spec fn opening(
    lines: Seq<RecognizedLine>,
    i: int,
    crop_width: u32,
    dehyphenating: bool,
) -> Seq<char> {
    let text = lines[i].text@;
    if dehyphenating {
        if has_space(text) {
            text.subrange(0, word_end(text, 0)) + line_break()
        } else {
            Seq::empty()
        }
    } else if starts_paragraph(lines, i, crop_width) {
        line_break()
    } else {
        Seq::empty()
    }
}

/// Where the body of a line begins: behind the first space where the line's
/// first word went to complete a broken one, at the start elsewhere.
pub open spec fn body_start(text: Seq<char>, dehyphenating: bool) -> int {
    if dehyphenating && has_space(text) {
        word_end(text, 0) + 1
    } else {
        0
    }
}

/// What a line contributes after its opening: the rest of its text without
/// its final hyphen if it ends in one, with a line break if it does not.
pub open spec fn body(text: Seq<char>, dehyphenating: bool) -> Seq<char> {
    let start = body_start(text, dehyphenating);
    if ends_broken(text) {
        text.subrange(start, text.len() - 1)
    } else {
        text.subrange(start, text.len() as int) + line_break()
    }
}

/// The state after line `i` has been merged into `before`.
pub open spec fn step(before: Progress, lines: Seq<RecognizedLine>, i: int, crop_width: u32) -> Progress {
    Progress {
        text: before.text + opening(lines, i, crop_width, before.dehyphenating) + body(
            lines[i].text@,
            before.dehyphenating,
        ),
        dehyphenating: ends_broken(lines[i].text@),
    }
}

/// The state after the first `k` lines have been merged.
pub open spec fn merge_fold(lines: Seq<RecognizedLine>, crop_width: u32, k: nat) -> Progress
    decreases k,
{
    if k == 0 {
        Progress { text: Seq::empty(), dehyphenating: false }
    } else {
        step(merge_fold(lines, crop_width, (k - 1) as nat), lines, k - 1, crop_width)
    }
}

/// The text that the lines, taken in the order given, merge into.
pub open spec fn merged_text(lines: Seq<RecognizedLine>, crop_width: u32) -> Seq<char> {
    merge_fold(lines, crop_width, lines.len()).text
}

/// Whether a character is anything but a line break.
pub open spec fn is_no_break() -> spec_fn(char) -> bool {
    |c: char| c != '\n'
}

/// The text with its line breaks taken out.
pub open spec fn without_breaks(text: Seq<char>) -> Seq<char> {
    text.filter(is_no_break())
}

/// The characters of a line that reach the merged text: all but a final
/// hyphen and, behind a broken word, all but the first space.
pub open spec fn kept(text: Seq<char>, dehyphenating: bool) -> Seq<char> {
    let end = if ends_broken(text) {
        text.len() - 1
    } else {
        text.len() as int
    };
    if dehyphenating && has_space(text) {
        text.subrange(0, word_end(text, 0)) + text.subrange(word_end(text, 0) + 1, end)
    } else {
        text.subrange(0, end)
    }
}

/// The characters of the first `k` lines that reach the merged text, in
/// order.
pub open spec fn kept_upto(lines: Seq<RecognizedLine>, k: nat) -> Seq<char>
    decreases k,
{
    if k == 0 {
        Seq::empty()
    } else {
        kept_upto(lines, (k - 1) as nat) + kept(
            lines[k - 1].text@,
            k >= 2 && ends_broken(lines[k - 2].text@),
        )
    }
}

/// [`word_end`] finds the first space: no space lies before it, and it is a
/// space unless it is the end of the text.
pub proof fn lemma_word_end_is_first_space(text: Seq<char>, from: int)
    requires
        0 <= from <= text.len(),
    ensures
        from <= word_end(text, from) <= text.len(),
        word_end(text, from) < text.len() ==> text[word_end(text, from)] == ' ',
        forall|j: int| from <= j < word_end(text, from) ==> text[j] != ' ',
    decreases text.len() - from,
{
    if from < text.len() && text[from] != ' ' {
        lemma_word_end_is_first_space(text, from + 1);
    }
}

/// The body of a line is a part of its text: it never begins behind its end.
pub proof fn lemma_body_is_in_range(text: Seq<char>, dehyphenating: bool)
    ensures
        0 <= body_start(text, dehyphenating) <= text.len(),
        ends_broken(text) ==> body_start(text, dehyphenating) <= text.len() - 1,
{
    lemma_word_end_is_first_space(text, 0);
}

proof fn lemma_slot_in_range(sorted: Seq<RecognizedLine>, key: int)
    ensures
        0 <= slot(sorted, key) <= sorted.len(),
        forall|j: int| slot(sorted, key) <= j < sorted.len() ==> sort_key(sorted[j]) > key,
        slot(sorted, key) > 0 ==> sort_key(sorted[slot(sorted, key) - 1]) <= key,
    decreases sorted.len(),
{
    if sorted.len() > 0 && sort_key(sorted.last()) > key {
        let front = sorted.drop_last();
        lemma_slot_in_range(front, key);
        assert forall|j: int| slot(sorted, key) <= j < sorted.len() implies sort_key(sorted[j])
            > key by {
            if j < front.len() {
                assert(sorted[j] == front[j]);
            }
        }
        if slot(sorted, key) > 0 {
            assert(sorted[slot(sorted, key) - 1] == front[slot(front, key) - 1]);
        }
    }
}

/// Reading order keeps every line, each as often as it was given.
pub proof fn law_reading_order_keeps_lines(lines: Seq<RecognizedLine>)
    ensures
        reading_order(lines).to_multiset() == lines.to_multiset(),
        reading_order(lines).len() == lines.len(),
    decreases lines.len(),
{
    if lines.len() == 0 {
        assert(reading_order(lines) =~= lines);
    } else {
        let front = lines.drop_last();
        let before = reading_order(front);
        let key = sort_key(lines.last());
        law_reading_order_keeps_lines(front);
        lemma_slot_in_range(before, key);
        vstd::seq_lib::to_multiset_insert(before, slot(before, key), lines.last());
        vstd::seq_lib::to_multiset_build(front, lines.last());
        assert(front.push(lines.last()) =~= lines);
        before.insert_ensures(slot(before, key), lines.last());
    }
}

/// Reading order is ascending by key.
pub proof fn law_reading_order_ascends(lines: Seq<RecognizedLine>)
    ensures
        ascending(reading_order(lines)),
    decreases lines.len(),
{
    if lines.len() > 0 {
        let before = reading_order(lines.drop_last());
        let line = lines.last();
        let p = slot(before, sort_key(line));
        law_reading_order_ascends(lines.drop_last());
        lemma_slot_in_range(before, sort_key(line));
        let after = before.insert(p, line);
        before.insert_ensures(p, line);
        assert forall|i: int, j: int| 0 <= i < j < after.len() implies sort_key(after[i])
            <= sort_key(after[j]) by {
            if j < p {
                assert(after[i] == before[i] && after[j] == before[j]);
            } else if j == p {
                assert(after[i] == before[i]);
                if p > 0 {
                    assert(sort_key(before[i]) <= sort_key(before[p - 1]));
                }
            } else if i < p {
                assert(after[i] == before[i] && after[j] == before[j - 1]);
                if p > 0 {
                    assert(sort_key(before[i]) <= sort_key(before[p - 1]));
                }
            } else if i == p {
                assert(after[j] == before[j - 1]);
            } else {
                assert(after[i] == before[i - 1] && after[j] == before[j - 1]);
            }
        }
    }
}

/// Whether no two lines of the sequence share a key.
pub open spec fn keys_differ(lines: Seq<RecognizedLine>) -> bool {
    forall|i: int, j: int| 0 <= i < j < lines.len() ==> sort_key(lines[i]) != sort_key(lines[j])
}

proof fn lemma_same_members(s: Seq<RecognizedLine>, t: Seq<RecognizedLine>, line: RecognizedLine)
    requires
        s.to_multiset() == t.to_multiset(),
        s.contains(line),
    ensures
        t.contains(line),
{
    vstd::seq_lib::to_multiset_contains(s, line);
    vstd::seq_lib::to_multiset_contains(t, line);
}

proof fn lemma_reading_order_keeps_keys_apart(lines: Seq<RecognizedLine>)
    requires
        keys_differ(lines),
    ensures
        keys_differ(reading_order(lines)),
    decreases lines.len(),
{
    if lines.len() > 0 {
        let front = lines.drop_last();
        let before = reading_order(front);
        let line = lines.last();
        let p = slot(before, sort_key(line));
        assert forall|i: int, j: int| 0 <= i < j < front.len() implies sort_key(front[i])
            != sort_key(front[j]) by {
            assert(front[i] == lines[i] && front[j] == lines[j]);
        }
        lemma_reading_order_keeps_keys_apart(front);
        law_reading_order_keeps_lines(front);
        lemma_slot_in_range(before, sort_key(line));
        before.insert_ensures(p, line);
        let after = before.insert(p, line);
        assert forall|i: int| 0 <= i < before.len() implies sort_key(before[i]) != sort_key(
            line,
        ) by {
            assert(before.contains(before[i]));
            lemma_same_members(before, front, before[i]);
            let q = choose|q: int| 0 <= q < front.len() && front[q] == before[i];
            assert(lines[q] == front[q]);
        }
        assert forall|i: int, j: int| 0 <= i < j < after.len() implies sort_key(after[i])
            != sort_key(after[j]) by {
            if j < p {
                assert(after[i] == before[i] && after[j] == before[j]);
            } else if j == p {
                assert(after[i] == before[i]);
            } else if i < p {
                assert(after[i] == before[i] && after[j] == before[j - 1]);
            } else if i == p {
                assert(after[j] == before[j - 1]);
            } else {
                assert(after[i] == before[i - 1] && after[j] == before[j - 1]);
            }
        }
    }
}

/// Lines whose keys all differ can be arranged in ascending order in one way
/// only.
proof fn lemma_one_ascending_arrangement(s: Seq<RecognizedLine>, t: Seq<RecognizedLine>)
    requires
        ascending(s),
        ascending(t),
        keys_differ(s),
        s.to_multiset() == t.to_multiset(),
    ensures
        s == t,
    decreases s.len(),
{
    s.to_multiset_ensures();
    t.to_multiset_ensures();
    assert(s.len() == t.len());
    if s.len() == 0 {
        assert(s =~= t);
    } else {
        let n = s.len() - 1;
        let x = s.last();
        let y = t.last();
        assert(s[n] == x && t[n] == y);
        assert(s.contains(x));
        lemma_same_members(s, t, x);
        let j = choose|j: int| 0 <= j < t.len() && t[j] == x;
        assert(t.contains(y));
        lemma_same_members(t, s, y);
        let i = choose|i: int| 0 <= i < s.len() && s[i] == y;
        assert(sort_key(x) <= sort_key(y)) by {
            if j < n {
                assert(sort_key(t[j]) <= sort_key(t[n]));
            }
        }
        assert(sort_key(y) <= sort_key(x)) by {
            if i < n {
                assert(sort_key(s[i]) <= sort_key(s[n]));
            }
        }
        assert(i == n);
        assert(x == y);
        vstd::seq_lib::to_multiset_remove(s, n);
        vstd::seq_lib::to_multiset_remove(t, n);
        let s0 = s.drop_last();
        let t0 = t.drop_last();
        assert(s.remove(n) =~= s0);
        assert(t.remove(n) =~= t0);
        assert forall|a: int, b: int| 0 <= a < b < s0.len() implies sort_key(s0[a]) <= sort_key(
            s0[b],
        ) && sort_key(s0[a]) != sort_key(s0[b]) by {
            assert(s0[a] == s[a] && s0[b] == s[b]);
        }
        assert forall|a: int, b: int| 0 <= a < b < t0.len() implies sort_key(t0[a]) <= sort_key(
            t0[b],
        ) by {
            assert(t0[a] == t[a] && t0[b] == t[b]);
        }
        lemma_one_ascending_arrangement(s0, t0);
        assert(s =~= s0.push(x));
        assert(t =~= t0.push(y));
    }
}

/// The order in which lines are given does not matter to their reading
/// order, as long as no two of them share a key: the same lines given in
/// another order come out alike.
pub proof fn law_order_given_does_not_matter(a: Seq<RecognizedLine>, b: Seq<RecognizedLine>)
    requires
        keys_differ(a),
        a.to_multiset() == b.to_multiset(),
    ensures
        reading_order(a) == reading_order(b),
{
    law_reading_order_keeps_lines(a);
    law_reading_order_keeps_lines(b);
    law_reading_order_ascends(a);
    law_reading_order_ascends(b);
    lemma_reading_order_keeps_keys_apart(a);
    lemma_one_ascending_arrangement(reading_order(a), reading_order(b));
}

/// Of two lines whose centres lie at the same height, the one further left
/// has the smaller key.
pub proof fn law_left_fragment_has_smaller_key(a: RecognizedLine, b: RecognizedLine)
    requires
        twice_mid_y(a) == twice_mid_y(b),
        left_of(a) < left_of(b),
    ensures
        sort_key(a) < sort_key(b),
{
}

/// In reading order a line of smaller key stands before every line of larger
/// key.
pub proof fn law_smaller_key_comes_first(lines: Seq<RecognizedLine>, i: int, j: int)
    requires
        0 <= i < lines.len(),
        0 <= j < lines.len(),
        sort_key(reading_order(lines)[i]) < sort_key(reading_order(lines)[j]),
    ensures
        i < j,
{
    law_reading_order_ascends(lines);
    law_reading_order_keeps_lines(lines);
}

proof fn lemma_breaks_vanish()
    ensures
        without_breaks(line_break()) == Seq::<char>::empty(),
        without_breaks(Seq::<char>::empty()) == Seq::<char>::empty(),
{
    reveal_with_fuel(Seq::filter, 2);
    assert(line_break().drop_last() =~= Seq::<char>::empty());
    assert(line_break().last() == '\n');
}

/// What a line adds to the merged text is, line breaks aside, what is kept
/// of it.
proof fn lemma_step_keeps(lines: Seq<RecognizedLine>, i: int, crop_width: u32, dehyphenating: bool)
    requires
        0 <= i < lines.len(),
    ensures
        without_breaks(
            opening(lines, i, crop_width, dehyphenating) + body(lines[i].text@, dehyphenating),
        ) == without_breaks(kept(lines[i].text@, dehyphenating)),
{
    let text = lines[i].text@;
    let first = opening(lines, i, crop_width, dehyphenating);
    let rest = body(text, dehyphenating);
    let start = body_start(text, dehyphenating);
    let end = if ends_broken(text) {
        text.len() - 1
    } else {
        text.len() as int
    };
    let word = text.subrange(0, start);
    let tail = text.subrange(start, end);
    lemma_breaks_vanish();
    lemma_body_is_in_range(text, dehyphenating);
    lemma_word_end_is_first_space(text, 0);
    Seq::filter_distributes_over_add(first, rest, is_no_break());
    Seq::filter_distributes_over_add(tail, line_break(), is_no_break());
    assert(without_breaks(rest) == without_breaks(tail)) by {
        if ends_broken(text) {
            assert(rest == tail);
        } else {
            assert(rest == tail + line_break());
            assert(without_breaks(tail) + Seq::<char>::empty() =~= without_breaks(tail));
        }
    }
    if dehyphenating && has_space(text) {
        let w = word_end(text, 0);
        let head = text.subrange(0, w);
        Seq::filter_distributes_over_add(head, line_break(), is_no_break());
        Seq::filter_distributes_over_add(head, tail, is_no_break());
        assert(first == head + line_break());
        assert(without_breaks(head) + Seq::<char>::empty() =~= without_breaks(head));
        assert(kept(text, dehyphenating) == head + tail);
    } else {
        assert(without_breaks(first) == Seq::<char>::empty());
        assert(Seq::<char>::empty() + without_breaks(tail) =~= without_breaks(tail));
        assert(kept(text, dehyphenating) == tail);
    }
}

/// Line breaks aside, the first `k` lines merge into what is kept of each,
/// one after the other; and a broken word is pending exactly when the last
/// of them ends in a hyphen.
pub proof fn lemma_merge_keeps_characters(lines: Seq<RecognizedLine>, crop_width: u32, k: nat)
    requires
        k <= lines.len(),
    ensures
        without_breaks(merge_fold(lines, crop_width, k).text) == without_breaks(
            kept_upto(lines, k),
        ),
        merge_fold(lines, crop_width, k).dehyphenating == (k >= 1 && ends_broken(
            lines[k - 1].text@,
        )),
    decreases k,
{
    if k > 0 {
        let j = (k - 1) as nat;
        let before = merge_fold(lines, crop_width, j);
        lemma_merge_keeps_characters(lines, crop_width, j);
        let d = before.dehyphenating;
        assert(d == (k >= 2 && ends_broken(lines[k - 2].text@)));
        let first = opening(lines, k - 1, crop_width, d);
        let rest = body(lines[k - 1].text@, d);
        let added = kept(lines[k - 1].text@, d);
        lemma_step_keeps(lines, k - 1, crop_width, d);
        assert(before.text + first + rest =~= before.text + (first + rest));
        Seq::filter_distributes_over_add(before.text, first + rest, is_no_break());
        Seq::filter_distributes_over_add(kept_upto(lines, j), added, is_no_break());
    }
}

/// Merging neither loses nor invents text: line breaks aside, the merged
/// text is the lines' own characters in order, without their final hyphens
/// and without the space behind a word that completes a broken one.
pub proof fn law_merge_keeps_characters(lines: Seq<RecognizedLine>, crop_width: u32)
    ensures
        without_breaks(merged_text(lines, crop_width)) == without_breaks(
            kept_upto(lines, lines.len()),
        ),
{
    lemma_merge_keeps_characters(lines, crop_width, lines.len());
}

/// Merging no lines gives no text.
pub proof fn law_nothing_merges_to_nothing(crop_width: u32)
    ensures
        merged_text(Seq::empty(), crop_width) == Seq::<char>::empty(),
{
}

impl RecognizedLine {
    /// The left edge of the line's box.
    pub fn left(&self) -> (l: i32)
        ensures
            l == left_of(*self),
    {
        self.bounding_box.left
    }

    /// Twice the centre of the line's box, column first.
    pub fn twice_mid(&self) -> (m: (i64, i64))
        ensures
            m.0 == twice_mid_x(*self),
            m.1 == twice_mid_y(*self),
    {
        let b = self.bounding_box;
        (2 * (b.left as i64) + b.width as i64, 2 * (b.top as i64) + b.height as i64)
    }

    /// The number by which lines are ordered.
    pub fn sort_key(&self) -> (k: i64)
        ensures
            k == sort_key(*self),
    {
        let b = self.bounding_box;
        TIE_BREAK_DIVISOR * (2 * (b.top as i64) + b.height as i64) + 2 * (b.left as i64)
    }
}

/// Brings lines into reading order.
pub fn sort_lines(lines: Vec<RecognizedLine>) -> (sorted: Vec<RecognizedLine>)
    ensures
        sorted@ == reading_order(lines@),
{
    let ghost input = lines@;
    let ghost mut done: int = 0;
    let mut rest = lines;
    let mut sorted: Vec<RecognizedLine> = Vec::new();
    while rest.len() > 0
        invariant
            0 <= done <= input.len(),
            rest@ == input.subrange(done, input.len() as int),
            sorted@ == reading_order(input.take(done)),
        decreases rest.len(),
    {
        let line = rest.remove(0);
        let key = line.sort_key();
        let mut p: usize = sorted.len();
        proof {
            law_reading_order_keeps_lines(input.take(done));
            assert(sorted@.take(p as int) =~= sorted@);
        }
        while p > 0 && sorted[p - 1].sort_key() > key
            invariant
                p <= sorted.len(),
                key == sort_key(line),
                slot(sorted@, key as int) == slot(sorted@.take(p as int), key as int),
            decreases p,
        {
            proof {
                assert(sorted@.take(p as int).drop_last() =~= sorted@.take(p - 1));
            }
            p = p - 1;
        }
        proof {
            assert(input.take(done + 1).drop_last() =~= input.take(done));
            assert(input.take(done + 1).last() == line);
            assert(rest@ =~= input.subrange(done + 1, input.len() as int));
            done = done + 1;
        }
        sorted.insert(p, line);
    }
    proof {
        assert(input.take(done) =~= input);
    }
    sorted
}

/// Picks the lines out of the blocks of an answer, keeping their order.
pub fn lines_of_answer(blocks: Vec<ServiceBlock>) -> (lines: Vec<RecognizedLine>)
    ensures
        lines@ == lines_among(blocks@),
{
    let ghost input = blocks@;
    let ghost mut done: int = 0;
    let mut rest = blocks;
    let mut lines: Vec<RecognizedLine> = Vec::new();
    while rest.len() > 0
        invariant
            0 <= done <= input.len(),
            rest@ == input.subrange(done, input.len() as int),
            lines@ == lines_among(input.take(done)),
        decreases rest.len(),
    {
        let block = rest.remove(0);
        proof {
            assert(input.take(done + 1).drop_last() =~= input.take(done));
            assert(input.take(done + 1).last() == block);
            assert(rest@ =~= input.subrange(done + 1, input.len() as int));
            done = done + 1;
        }
        match block.kind {
            BlockKind::Line => {
                lines.push(block.line);
            },
            BlockKind::Other => {},
        }
    }
    proof {
        assert(input.take(done) =~= input);
    }
    lines
}

fn is_indent(gap: i64, crop_width: u32) -> (r: bool)
    requires
        -0x1_0000_0000 <= gap <= 0x1_0000_0000,
    ensures
        r == gap_is_indent(gap as int, crop_width),
{
    proof {
        lemma_product_bound(gap as int, crop_width as int, 0x1_0000_0000, 0x1_0000_0000);
        assert(INDENT_MIN_PIXELS * NORMALIZED_ONE == 8_000_000 && INDENT_MAX_PIXELS
            * NORMALIZED_ONE == 40_000_000) by (nonlinear_arith)
            requires
                INDENT_MIN_PIXELS == 8,
                INDENT_MAX_PIXELS == 40,
                NORMALIZED_ONE == 1_000_000,
        ;
    }
    let pixels: i128 = (gap as i128) * (crop_width as i128);
    let low: i128 = (INDENT_MIN_PIXELS as i128) * (NORMALIZED_ONE as i128);
    let high: i128 = (INDENT_MAX_PIXELS as i128) * (NORMALIZED_ONE as i128);
    low < pixels && pixels < high
}

/// Tells whether line `i` starts a paragraph. Where there is no line `i`,
/// none starts.
pub fn is_paragraph_start(lines: &Vec<RecognizedLine>, i: usize, crop_width: u32) -> (r: bool)
    ensures
        r == starts_paragraph(lines@, i as int, crop_width),
{
    if i == 0 || i >= lines.len() || i + 1 >= lines.len() {
        return false;
    }
    let here = lines[i].left() as i64;
    let above = lines[i - 1].left() as i64;
    let below = lines[i + 1].left() as i64;
    is_indent(here - above, crop_width) && is_indent(here - below, crop_width)
}

fn first_space(text: &str, len: usize) -> (end: usize)
    requires
        len == text@.len(),
    ensures
        end == word_end(text@, 0),
        end <= len,
{
    let mut j: usize = 0;
    while j < len && text.get_char(j) != ' '
        invariant
            j <= len,
            len == text@.len(),
            word_end(text@, 0) == word_end(text@, j as int),
        decreases len - j,
    {
        j = j + 1;
    }
    proof {
        lemma_word_end_is_first_space(text@, j as int);
    }
    j
}

impl MergeState {
    /// The state before any line: no text, no broken word.
    pub fn new() -> (state: MergeState)
        ensures
            state@ == (Progress { text: Seq::empty(), dehyphenating: false }),
    {
        MergeState { text: String::new(), dehyphenating: false }
    }
}

/// Merges line `i` into the text so far.
pub fn merge_step(state: &mut MergeState, lines: &Vec<RecognizedLine>, i: usize, crop_width: u32)
    requires
        i < lines.len(),
    ensures
        final(state)@ == step(old(state)@, lines@, i as int, crop_width),
{
    let text = lines[i].text.as_str();
    let len = text.unicode_len();
    let broken = len > 0 && text.get_char(len - 1) == '-';
    let ghost before = state@;
    let ghost first = opening(lines@, i as int, crop_width, before.dehyphenating);
    proof {
        reveal_strlit("\n");
        assert("\n"@ =~= line_break());
        lemma_body_is_in_range(text@, before.dehyphenating);
        lemma_word_end_is_first_space(text@, 0);
    }
    let mut start: usize = 0;
    if state.dehyphenating {
        let space = first_space(text, len);
        if space < len {
            state.text.append(text.substring_char(0, space));
            state.text.append("\n");
            start = space + 1;
        }
    } else if is_paragraph_start(lines, i, crop_width) {
        state.text.append("\n");
    }
    assert(state.text@ =~= before.text + first);
    assert(start == body_start(text@, before.dehyphenating));
    if broken {
        state.text.append(text.substring_char(start, len - 1));
    } else {
        state.text.append(text.substring_char(start, len));
        state.text.append("\n");
    }
    state.dehyphenating = broken;
    assert(state.text@ =~= before.text + first + body(text@, before.dehyphenating));
}

/// Merges lines, taken in the order given, into one text.
///
/// No lines give an empty text.
pub fn merge_lines(lines: &Vec<RecognizedLine>, crop_width: u32) -> (text: String)
    ensures
        text@ == merged_text(lines@, crop_width),
        lines@.len() == 0 ==> text@.len() == 0,
{
    let mut state = MergeState::new();
    let mut i: usize = 0;
    while i < lines.len()
        invariant
            i <= lines.len(),
            state@ == merge_fold(lines@, crop_width, i as nat),
        decreases lines.len() - i,
    {
        merge_step(&mut state, lines, i, crop_width);
        i = i + 1;
    }
    state.text
}

/// Rebuilds the text of a cut-out `crop_width` pixels wide from its lines,
/// given in any order.
pub fn reconstruct(lines: Vec<RecognizedLine>, crop_width: u32) -> (text: String)
    ensures
        text@ == merged_text(reading_order(lines@), crop_width),
        lines@.len() == 0 ==> text@.len() == 0,
{
    proof {
        law_reading_order_keeps_lines(lines@);
    }
    let sorted = sort_lines(lines);
    merge_lines(&sorted, crop_width)
}

/// Rebuilds the text from the lines that the recognition service found.
///
/// A failure of the service is handed on as it is: it is never taken for a
/// cut-out without text.
pub fn reconstruct_response(
    response: Result<Vec<RecognizedLine>, ServiceFailure>,
    crop_width: u32,
) -> (r: Result<String, ServiceFailure>)
    ensures
        match response {
            Ok(lines) => r matches Ok(text) && text@ == merged_text(
                reading_order(lines@),
                crop_width,
            ),
            Err(failure) => r matches Err(handed_on) && handed_on == failure,
        },
{
    match response {
        Ok(lines) => Ok(reconstruct(lines, crop_width)),
        Err(failure) => Err(failure),
    }
}

/// Rebuilds the text from the blocks that the recognition service answered
/// with: the lines among them are picked out, ordered and merged.
///
/// A failure of the service is handed on as it is: it is never taken for a
/// cut-out without text.
pub fn reconstruct_answer(
    answer: Result<Vec<ServiceBlock>, ServiceFailure>,
    crop_width: u32,
) -> (r: Result<String, ServiceFailure>)
    ensures
        match answer {
            Ok(blocks) => r matches Ok(text) && text@ == merged_text(
                reading_order(lines_among(blocks@)),
                crop_width,
            ),
            Err(failure) => r matches Err(handed_on) && handed_on == failure,
        },
{
    match answer {
        Ok(blocks) => Ok(reconstruct(lines_of_answer(blocks), crop_width)),
        Err(failure) => Err(failure),
    }
}

} // verus!
