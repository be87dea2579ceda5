//! When a page is begun: how many lines a page takes before the cursor sinks
//! below the lower limit.

use vstd::prelude::*;
use crate::options::PdfOptions;
use crate::filetypes::layout::{fresh_page, join_word, text_width, LayoutView};

verus! {

/// The state after the lines have been shown one below the other, a page
/// being begun wherever the cursor has sunk below the lower limit.
pub open spec fn show_lines(state: LayoutView, o: PdfOptions, lines: Seq<Seq<char>>) -> LayoutView
    decreases lines.len(),
{
    if lines.len() == 0 {
        state
    } else {
        show_lines(state, o, lines.drop_last()).add_line(
            lines.last(),
            o.line_height as int,
        ).check_new_page(o)
    }
}

/// No two neighbours among the words fit on one line, and the first word
/// fits on a line.
pub open spec fn each_word_a_line(max_width: int, words: Seq<Seq<char>>) -> bool {
    &&& words.len() > 0 ==> text_width(words[0]) <= max_width
    &&& forall|i: int|
        0 < i < words.len() ==> text_width(join_word(#[trigger] words[i - 1], words[i]))
            > max_width
}

/// Where no two neighbours among the words fit on one line, placing the
/// words shows each word but the last as a line of its own, and the last
/// word is the line in the making.
pub proof fn lemma_words_as_lines(state: LayoutView, o: PdfOptions, words: Seq<Seq<char>>)
    requires
        words.len() > 0,
        each_word_a_line(o.max_width as int, words),
    ensures
        state.place_words(o, Seq::empty(), words) == (
            show_lines(state.check_new_page(o), o, words.drop_last()),
            words.last(),
        ),
    decreases words.len(),
{
    let front = words.drop_last();
    if front.len() == 0 {
        assert(state.place_words(o, Seq::empty(), front) == (state, Seq::<char>::empty()));
        assert(words.last() == words[0]);
    } else {
        assert forall|i: int| 0 < i < front.len() implies text_width(
            join_word(#[trigger] front[i - 1], front[i]),
        ) > o.max_width by {
            assert(front[i - 1] == words[i - 1] && front[i] == words[i]);
        }
        assert(front[0] == words[0]);
        lemma_words_as_lines(state, o, front);
        let i = words.len() - 1;
        assert(front.last() == words[i - 1]);
        assert(text_width(join_word(words[i - 1], words[i])) > o.max_width);
    }
}

/// A page takes lines as long as the cursor stays above the lower limit:
/// the lines are shown one below the other on the same page, and the cursor
/// moves down by the height of a line for each.
pub proof fn lemma_lines_stay_on_the_page(state: LayoutView, o: PdfOptions, lines: Seq<Seq<char>>)
    requires
        state.pages.len() > 0,
        state.y_pos - lines.len() * o.line_height > o.min_y_pos,
    ensures
        show_lines(state, o, lines).pages.len() == state.pages.len(),
        show_lines(state, o, lines).y_pos == state.y_pos - lines.len() * o.line_height,
    decreases lines.len(),
{
    if lines.len() > 0 {
        let front = lines.drop_last();
        assert(lines.len() * o.line_height == front.len() * o.line_height + o.line_height)
            by (nonlinear_arith)
            requires
                lines.len() == front.len() + 1,
        ;
        lemma_lines_stay_on_the_page(state, o, front);
    }
}

/// The line behind which the cursor comes down to the lower limit is the
/// last of its page: it is shown on the page of the lines before it, then a
/// page is begun, and the cursor stands at the upper limit, where the next
/// line is shown.
pub proof fn lemma_page_break_trigger(state: LayoutView, o: PdfOptions, lines: Seq<Seq<char>>)
    requires
        state.pages.len() > 0,
        lines.len() > 0,
        state.y_pos - (lines.len() - 1) * o.line_height > o.min_y_pos,
        state.y_pos - lines.len() * o.line_height <= o.min_y_pos,
    ensures
        show_lines(state, o, lines).pages.len() == state.pages.len() + 1,
        show_lines(state, o, lines).pages.last() == fresh_page(),
        show_lines(state, o, lines).pages.drop_last() == show_lines(
            state,
            o,
            lines.drop_last(),
        ).add_line(lines.last(), o.line_height as int).pages,
        show_lines(state, o, lines).y_pos == o.max_y_pos,
{
    let front = lines.drop_last();
    assert(lines.len() * o.line_height == front.len() * o.line_height + o.line_height)
        by (nonlinear_arith)
        requires
            lines.len() == front.len() + 1,
    ;
    lemma_lines_stay_on_the_page(state, o, front);
    let shown = show_lines(state, o, front).add_line(lines.last(), o.line_height as int);
    assert(shown.pages.push(fresh_page()).drop_last() =~= shown.pages);
}

/// The lines that placing the words shows, each with the height at which
/// the cursor stands when it is shown.
pub open spec fn shown_at(
    state: LayoutView,
    o: PdfOptions,
    line: Seq<char>,
    words: Seq<Seq<char>>,
) -> Seq<(Seq<char>, int)>
    decreases words.len(),
{
    if words.len() == 0 {
        Seq::empty()
    } else {
        let before = shown_at(state, o, line, words.drop_last());
        let (placed, pending) = state.place_words(o, line, words.drop_last());
        if text_width(join_word(pending, words.last())) > o.max_width {
            before.push((pending, placed.y_pos))
        } else {
            before
        }
    }
}

/// No line is shown at or below the lower limit: where the cursor stands
/// above it before the words are placed, each line is shown with the cursor
/// above the lower limit and not above the upper one, and so is the line
/// that is left at the end of the paragraph.
pub proof fn lemma_lines_are_shown_above_the_limit(
    state: LayoutView,
    o: PdfOptions,
    line: Seq<char>,
    words: Seq<Seq<char>>,
)
    requires
        o.min_y_pos < o.max_y_pos,
        o.min_y_pos < state.y_pos <= o.max_y_pos,
    ensures
        forall|l: int|
            0 <= l < shown_at(state, o, line, words).len() ==> o.min_y_pos < (#[trigger] shown_at(
                state,
                o,
                line,
                words,
            )[l]).1 <= o.max_y_pos,
        o.min_y_pos < state.place_words(o, line, words).0.y_pos <= o.max_y_pos,
    decreases words.len(),
{
    if words.len() > 0 {
        lemma_lines_are_shown_above_the_limit(state, o, line, words.drop_last());
        let before = shown_at(state, o, line, words.drop_last());
        let after = shown_at(state, o, line, words);
        assert forall|l: int| 0 <= l < after.len() implies o.min_y_pos < (#[trigger] after[l]).1
            <= o.max_y_pos by {
            if l < before.len() {
                assert(after[l] == before[l]);
            }
        }
    }
}

} // verus!
