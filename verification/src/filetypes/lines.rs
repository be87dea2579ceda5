//! The lines of text that a layout shows, and what word wrap does to a
//! paragraph.

use vstd::prelude::*;
use crate::options::PdfOptions;
use crate::filetypes::content::InstructionView;
use crate::filetypes::layout::{fresh_page, join_word, text_width, LayoutView};

verus! {

/// The lines of text that the instructions show, in their order.
pub open spec fn shown_lines(instructions: Seq<InstructionView>) -> Seq<Seq<char>>
    decreases instructions.len(),
{
    if instructions.len() == 0 {
        Seq::empty()
    } else {
        let before = shown_lines(instructions.drop_last());
        match instructions.last() {
            InstructionView::ShowText { text } => before.push(text),
            _ => before,
        }
    }
}

/// The lines of text that the pages show, page after page.
pub open spec fn all_lines(pages: Seq<Seq<InstructionView>>) -> Seq<Seq<char>>
    decreases pages.len(),
{
    if pages.len() == 0 {
        Seq::empty()
    } else {
        all_lines(pages.drop_last()) + shown_lines(pages.last())
    }
}

/// The lines that word wrap has completed and the line it is making, after
/// the words have been taken one after the other: a word that would make the
/// line too wide completes it and begins the next.
pub open spec fn wrap(max_width: int, line: Seq<char>, words: Seq<Seq<char>>) -> (
    Seq<Seq<char>>,
    Seq<char>,
)
    decreases words.len(),
{
    if words.len() == 0 {
        (Seq::empty(), line)
    } else {
        let (done, pending) = wrap(max_width, line, words.drop_last());
        let candidate = join_word(pending, words.last());
        if text_width(candidate) > max_width {
            (done.push(pending), words.last())
        } else {
            (done, candidate)
        }
    }
}

/// The lines of a paragraph: those that word wrap completes, and the one
/// that is left at the end unless it is empty.
pub open spec fn paragraph_lines(max_width: int, words: Seq<Seq<char>>) -> Seq<Seq<char>> {
    let (done, pending) = wrap(max_width, Seq::empty(), words);
    if pending.len() > 0 {
        done.push(pending)
    } else {
        done
    }
}

/// The words put together with one space between each two.
pub open spec fn joined(words: Seq<Seq<char>>) -> Seq<char>
    decreases words.len(),
{
    if words.len() == 0 {
        Seq::empty()
    } else {
        join_word(joined(words.drop_last()), words.last())
    }
}

/// The lines of instructions put one behind the other are the lines of the
/// first and then those of the second.
pub proof fn lemma_shown_concat(first: Seq<InstructionView>, second: Seq<InstructionView>)
    ensures
        shown_lines(first + second) == shown_lines(first) + shown_lines(second),
    decreases second.len(),
{
    if second.len() == 0 {
        assert(first + second =~= first);
        assert(shown_lines(first) + shown_lines(second) =~= shown_lines(first));
    } else {
        lemma_shown_concat(first, second.drop_last());
        assert((first + second).drop_last() =~= first + second.drop_last());
        assert((first + second).last() == second.last());
        match second.last() {
            InstructionView::ShowText { text } => {
                assert((shown_lines(first) + shown_lines(second.drop_last())).push(text)
                    =~= shown_lines(first) + shown_lines(second.drop_last()).push(text));
            },
            _ => {},
        }
    }
}

/// Instructions added to the last page add their lines at the end.
pub proof fn lemma_lines_append(state: LayoutView, instructions: Seq<InstructionView>)
    requires
        state.pages.len() > 0,
    ensures
        all_lines(state.append(instructions).pages) == all_lines(state.pages) + shown_lines(
            instructions,
        ),
{
    let after = state.append(instructions).pages;
    assert(after.drop_last() =~= state.pages.drop_last());
    lemma_shown_concat(state.pages.last(), instructions);
    assert(all_lines(state.pages.drop_last()) + (shown_lines(state.pages.last()) + shown_lines(
        instructions,
    )) =~= all_lines(state.pages) + shown_lines(instructions));
}

/// A page that is begun adds its lines at the end.
pub proof fn lemma_lines_open(state: LayoutView, page: Seq<InstructionView>, y_pos: int)
    ensures
        all_lines(state.open_page(page, y_pos).pages) == all_lines(state.pages) + shown_lines(page),
{
    assert(state.open_page(page, y_pos).pages.drop_last() =~= state.pages);
}

/// A page as it is begun shows no line.
pub proof fn lemma_fresh_page_is_blank()
    ensures
        shown_lines(fresh_page()) == Seq::<Seq<char>>::empty(),
{
    let page = fresh_page();
    assert(page.drop_last().drop_last().drop_last() =~= Seq::<InstructionView>::empty());
    reveal_with_fuel(shown_lines, 4);
}

/// A line that is shown is the one line that is added.
proof fn lemma_lines_add_line(state: LayoutView, line: Seq<char>, line_height: int)
    requires
        state.pages.len() > 0,
    ensures
        all_lines(state.add_line(line, line_height).pages) == all_lines(state.pages).push(line),
        state.add_line(line, line_height).pages.len() == state.pages.len(),
{
    let instructions = seq![
        InstructionView::ShowText { text: line },
        InstructionView::MoveText { dx: 0, dy: -line_height },
    ];
    lemma_lines_append(state, instructions);
    assert(instructions.drop_last().drop_last() =~= Seq::<InstructionView>::empty());
    reveal_with_fuel(shown_lines, 3);
    assert(shown_lines(instructions) =~= seq![line]);
    assert(all_lines(state.pages) + seq![line] =~= all_lines(state.pages).push(line));
}

/// A page that is begun because the cursor sank adds no line.
proof fn lemma_lines_check(state: LayoutView, o: PdfOptions)
    requires
        state.pages.len() > 0,
    ensures
        all_lines(state.check_new_page(o).pages) == all_lines(state.pages),
        state.check_new_page(o).pages.len() > 0,
{
    if state.y_pos <= o.min_y_pos {
        lemma_lines_open(state, fresh_page(), o.max_y_pos as int);
        lemma_fresh_page_is_blank();
        assert(all_lines(state.pages) + Seq::<Seq<char>>::empty() =~= all_lines(state.pages));
    }
}

/// The space that follows a paragraph adds no line.
proof fn lemma_lines_spacing(state: LayoutView, o: PdfOptions)
    requires
        state.pages.len() > 0,
    ensures
        all_lines(state.paragraph_spacing(o).pages) == all_lines(state.pages),
{
    let down = seq![InstructionView::MoveText { dx: 0, dy: -(o.paragraph_spacing as int) }];
    let moved = LayoutView { y_pos: state.y_pos - o.paragraph_spacing, ..state.append(down) };
    lemma_lines_append(state, down);
    assert(down.drop_last() =~= Seq::<InstructionView>::empty());
    reveal_with_fuel(shown_lines, 2);
    assert(shown_lines(down) =~= Seq::<Seq<char>>::empty());
    assert(all_lines(state.pages) + Seq::<Seq<char>>::empty() =~= all_lines(state.pages));
    if moved.y_pos <= o.min_y_pos {
        let closing = seq![
            InstructionView::EndText,
            InstructionView::BeginText,
            InstructionView::MoveText {
                dx: crate::filetypes::layout::LEFT_MARGIN as int,
                dy: o.max_y_pos as int,
            },
        ];
        lemma_lines_append(moved, closing);
        assert(closing.drop_last().drop_last().drop_last() =~= Seq::<InstructionView>::empty());
        reveal_with_fuel(shown_lines, 4);
        assert(shown_lines(closing) =~= Seq::<Seq<char>>::empty());
        lemma_lines_open(moved.append(closing), fresh_page(), o.max_y_pos as int);
        lemma_fresh_page_is_blank();
    }
}

/// Placing words shows the lines that word wrap completes, and leaves the
/// line that word wrap is making.
pub proof fn lemma_lines_of_words(
    state: LayoutView,
    o: PdfOptions,
    line: Seq<char>,
    words: Seq<Seq<char>>,
)
    requires
        state.pages.len() > 0,
    ensures
        state.place_words(o, line, words).0.pages.len() > 0,
        state.place_words(o, line, words).1 == wrap(o.max_width as int, line, words).1,
        all_lines(state.place_words(o, line, words).0.pages) == all_lines(state.pages) + wrap(
            o.max_width as int,
            line,
            words,
        ).0,
    decreases words.len(),
{
    if words.len() == 0 {
        assert(all_lines(state.pages) + Seq::<Seq<char>>::empty() =~= all_lines(state.pages));
    } else {
        lemma_lines_of_words(state, o, line, words.drop_last());
        let (before, pending) = state.place_words(o, line, words.drop_last());
        let (done, _) = wrap(o.max_width as int, line, words.drop_last());
        let candidate = join_word(pending, words.last());
        if text_width(candidate) > o.max_width {
            lemma_lines_add_line(before, pending, o.line_height as int);
            lemma_lines_check(before.add_line(pending, o.line_height as int), o);
            assert((all_lines(state.pages) + done).push(pending) =~= all_lines(state.pages)
                + done.push(pending));
        } else {
            lemma_lines_check(before, o);
        }
    }
}

/// A paragraph adds its lines, and no others, to the lines that are shown.
pub proof fn lemma_lines_of_paragraph(state: LayoutView, o: PdfOptions, words: Seq<Seq<char>>)
    requires
        state.pages.len() > 0,
    ensures
        all_lines(state.paragraph(o, words).pages) == all_lines(state.pages) + paragraph_lines(
            o.max_width as int,
            words,
        ),
{
    lemma_lines_of_words(state, o, Seq::empty(), words);
    let (placed, pending) = state.place_words(o, Seq::empty(), words);
    let (done, _) = wrap(o.max_width as int, Seq::empty(), words);
    if pending.len() > 0 {
        lemma_lines_add_line(placed, pending, 0);
        lemma_lines_spacing(placed.add_line(pending, 0), o);
        assert((all_lines(state.pages) + done).push(pending) =~= all_lines(state.pages)
            + done.push(pending));
    } else {
        lemma_lines_spacing(placed, o);
    }
}

/// Words that are put together are at least as long as fewer of them.
proof fn lemma_joined_grows(words: Seq<Seq<char>>, k: int)
    requires
        0 <= k <= words.len(),
    ensures
        joined(words.take(k)).len() <= joined(words).len(),
    decreases words.len() - k,
{
    if k == words.len() {
        assert(words.take(k) =~= words);
    } else {
        lemma_joined_grows(words, k + 1);
        assert(words.take(k + 1).drop_last() =~= words.take(k));
    }
}

/// While the words fit, word wrap completes no line and keeps them together.
proof fn lemma_wrap_fits(max_width: int, words: Seq<Seq<char>>)
    requires
        text_width(joined(words)) <= max_width,
    ensures
        wrap(max_width, Seq::empty(), words) == (Seq::<Seq<char>>::empty(), joined(words)),
    decreases words.len(),
{
    if words.len() > 0 {
        lemma_joined_grows(words, words.len() - 1);
        assert(words.take(words.len() - 1) =~= words.drop_last());
        assert(text_width(joined(words.drop_last())) <= text_width(joined(words)))
            by (nonlinear_arith)
            requires
                joined(words.drop_last()).len() <= joined(words).len(),
        ;
        lemma_wrap_fits(max_width, words.drop_last());
    }
}

/// A paragraph whose words, put together with single spaces, are not wider
/// than allowed is shown as exactly one line: those words put together.
pub proof fn lemma_paragraph_that_fits(state: LayoutView, o: PdfOptions, words: Seq<Seq<char>>)
    requires
        state.pages.len() > 0,
        words.len() > 0,
        forall|w: int| 0 <= w < words.len() ==> (#[trigger] words[w]).len() > 0,
        text_width(joined(words)) <= o.max_width,
    ensures
        paragraph_lines(o.max_width as int, words) == seq![joined(words)],
        all_lines(state.paragraph(o, words).pages) == all_lines(state.pages).push(joined(words)),
{
    lemma_wrap_fits(o.max_width as int, words);
    lemma_lines_of_paragraph(state, o, words);
    assert(joined(words).len() > 0) by {
        assert(words.last().len() > 0);
    }
    assert(Seq::<Seq<char>>::empty().push(joined(words)) =~= seq![joined(words)]);
    assert(all_lines(state.pages) + seq![joined(words)] =~= all_lines(state.pages).push(
        joined(words),
    ));
}

/// The lines that word wrap has completed stay as more words are taken.
proof fn lemma_wrap_keeps(max_width: int, words: Seq<Seq<char>>, k: int, l: int)
    requires
        0 <= k <= words.len(),
        0 <= l < wrap(max_width, Seq::empty(), words.take(k)).0.len(),
    ensures
        l < wrap(max_width, Seq::empty(), words).0.len(),
        wrap(max_width, Seq::empty(), words).0[l] == wrap(
            max_width,
            Seq::empty(),
            words.take(k),
        ).0[l],
    decreases words.len() - k,
{
    if k == words.len() {
        assert(words.take(k) =~= words);
    } else {
        assert(words.take(k + 1).drop_last() =~= words.take(k));
        lemma_wrap_keeps(max_width, words, k + 1, l);
    }
}

/// A word that is wider than allowed is not dropped: it is shown as a line
/// of its own.
pub proof fn lemma_wide_word_has_own_line(
    state: LayoutView,
    o: PdfOptions,
    words: Seq<Seq<char>>,
    k: int,
)
    requires
        state.pages.len() > 0,
        0 <= k < words.len(),
        text_width(words[k]) > o.max_width,
    ensures
        paragraph_lines(o.max_width as int, words).contains(words[k]),
        all_lines(state.paragraph(o, words).pages).contains(words[k]),
{
    let max_width = o.max_width as int;
    let word = words[k];
    let upto = words.take(k + 1);
    assert(upto.last() == word);
    let (_, before) = wrap(max_width, Seq::empty(), upto.drop_last());
    assert(text_width(join_word(before, word)) > max_width) by {
        assert(join_word(before, word).len() >= word.len());
        assert(text_width(join_word(before, word)) >= text_width(word)) by (nonlinear_arith)
            requires
                join_word(before, word).len() >= word.len(),
        ;
    }
    assert(wrap(max_width, Seq::empty(), upto).1 == word);
    assert(word.len() > 0) by (nonlinear_arith)
        requires
            text_width(word) > max_width,
            max_width >= 0,
            text_width(word) == word.len() * 7,
    ;
    let lines = paragraph_lines(max_width, words);
    if k + 1 == words.len() {
        assert(upto =~= words);
        let (done, pending) = wrap(max_width, Seq::empty(), words);
        assert(lines == done.push(pending));
        assert(lines[done.len() as int] == word);
    } else {
        let next = words.take(k + 2);
        assert(next.drop_last() =~= upto);
        let follower = next.last();
        assert(text_width(join_word(word, follower)) > max_width) by {
            assert(join_word(word, follower).len() >= word.len());
            assert(text_width(join_word(word, follower)) >= text_width(word))
                by (nonlinear_arith)
                requires
                    join_word(word, follower).len() >= word.len(),
            ;
        }
        let (done_upto, _) = wrap(max_width, Seq::empty(), upto);
        let (done_next, _) = wrap(max_width, Seq::empty(), next);
        assert(done_next == done_upto.push(word));
        let l = done_upto.len() as int;
        assert(done_next[l] == word);
        lemma_wrap_keeps(max_width, words, k + 2, l);
        let (done, pending) = wrap(max_width, Seq::empty(), words);
        assert(done[l] == word);
        assert(lines[l] == word);
    }
    lemma_lines_of_paragraph(state, o, words);
    let index = choose|l: int| 0 <= l < lines.len() && lines[l] == word;
    let shown = all_lines(state.paragraph(o, words).pages);
    assert(shown[all_lines(state.pages).len() + index] == word);
}

} // verus!
