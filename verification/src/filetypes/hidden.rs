//! A text whose tags were replaced by placeholders shows no tag that must
//! come through untouched.

use vstd::prelude::*;
use crate::text::decimal;
use crate::filetypes::markup::{
    is_digit, next_close, occurs_at, occurs_between, placeholder, placeholder_prefix, protected,
    protected_from, special_tags, special_tags_from, tag_len, tag_word, written_placeholder,
    CLOSING_MARK,
};
use crate::filetypes::round_trip::lemma_decimal;

verus! {

/// Where the first `>` at or behind `from` stands.
pub proof fn lemma_close_facts(text: Seq<char>, from: int)
    requires
        0 <= from <= text.len(),
    ensures
        from <= next_close(text, from) <= text.len(),
        forall|q: int| from <= q < next_close(text, from) ==> #[trigger] text[q] != '>',
        next_close(text, from) < text.len() ==> text[next_close(text, from)] == '>',
    decreases text.len() - from,
{
    if from < text.len() && text[from] != '>' {
        lemma_close_facts(text, from + 1);
    }
}

/// The first `>` at or behind `from` stands at `close` where none stands
/// before it there.
pub proof fn lemma_close_is(text: Seq<char>, from: int, close: int)
    requires
        0 <= from <= close <= text.len(),
        forall|q: int| from <= q < close ==> #[trigger] text[q] != '>',
        close < text.len() ==> text[close] == '>',
    ensures
        next_close(text, from) == close,
    decreases close - from,
{
    if from < close {
        lemma_close_is(text, from + 1, close);
    }
}

/// A word that stands in a stretch stands in every stretch that begins
/// earlier and ends at the same place.
proof fn lemma_occurs_wider(text: Seq<char>, word: Seq<char>, from: int, later: int, to: int)
    requires
        0 <= from <= later,
        occurs_between(text, word, later, to),
    ensures
        occurs_between(text, word, from, to),
    decreases later - from,
{
    if from < later {
        lemma_occurs_wider(text, word, from + 1, later, to);
    }
}

/// Two stretches of the same characters hold the same words.
proof fn lemma_occurs_same(
    a: Seq<char>,
    at: int,
    b: Seq<char>,
    bt: int,
    word: Seq<char>,
    d: int,
    n: int,
)
    requires
        0 <= at,
        0 <= bt,
        0 <= d,
        0 <= n,
        at + n <= a.len(),
        bt + n <= b.len(),
        a.subrange(at, at + n) == b.subrange(bt, bt + n),
    ensures
        occurs_between(a, word, at + d, at + n) == occurs_between(b, word, bt + d, bt + n),
    decreases n - d + 1,
{
    if d + word.len() <= n {
        let in_a = a.subrange(at + d, at + d + word.len());
        let in_b = b.subrange(bt + d, bt + d + word.len());
        let all_a = a.subrange(at, at + n);
        let all_b = b.subrange(bt, bt + n);
        assert(in_a =~= in_b) by {
            assert forall|x: int| 0 <= x < word.len() implies #[trigger] in_a[x] == in_b[x] by {
                assert(all_a[d + x] == all_b[d + x]);
                assert(all_a[d + x] == a[at + d + x]);
                assert(all_b[d + x] == b[bt + d + x]);
            }
        }
        assert(occurs_at(a, word, at + d) == occurs_at(b, word, bt + d));
        lemma_occurs_same(a, at, b, bt, word, d + 1, n);
    }
}

/// Where no tag begins from position `i` up to position `last`, the text is
/// left as it is there.
proof fn lemma_plain_stretch(text: Seq<char>, i: int, last: int, k: nat)
    requires
        0 <= i <= last + 1,
        last < text.len(),
        forall|q: int| i <= q <= last ==> tag_len(text, q) == 0,
    ensures
        protected_from(text, i, k) == text.subrange(i, last + 1) + protected_from(
            text,
            last + 1,
            k,
        ),
    decreases last + 1 - i,
{
    if i > last {
        assert(text.subrange(i, last + 1) =~= Seq::<char>::empty());
        assert(Seq::<char>::empty() + protected_from(text, i, k) =~= protected_from(text, i, k));
    } else {
        lemma_plain_stretch(text, i + 1, last, k);
        assert(tag_len(text, i) == 0);
        assert(seq![text[i]] + (text.subrange(i + 1, last + 1) + protected_from(
            text,
            last + 1,
            k,
        )) =~= text.subrange(i, last + 1) + protected_from(text, last + 1, k));
    }
}

/// Where no `>` stands from position `i` on, the text is left as it is from
/// there on.
proof fn lemma_plain_to_the_end(text: Seq<char>, i: int, k: nat)
    requires
        0 <= i <= text.len(),
        forall|q: int| i < q < text.len() ==> #[trigger] text[q] != '>',
    ensures
        protected_from(text, i, k) == text.skip(i),
    decreases text.len() - i,
{
    if i >= text.len() {
        assert(text.skip(i) =~= Seq::<char>::empty());
    } else {
        lemma_plain_to_the_end(text, i + 1, k);
        lemma_close_is(text, i + 1, text.len() as int);
        assert(tag_len(text, i) == 0);
        assert(seq![text[i]] + text.skip(i + 1) =~= text.skip(i));
    }
}

/// No tag begins in a stretch that holds no `<`.
proof fn lemma_no_tag_in(text: Seq<char>, j: int, n: int)
    requires
        0 <= j,
        0 <= n,
        j + n <= text.len(),
        forall|q: int| j <= q < j + n ==> #[trigger] text[q] != '<',
    ensures
        special_tags_from(text, j) == special_tags_from(text, j + n),
    decreases n,
{
    if n > 0 {
        assert(text[j] != '<');
        lemma_no_tag_in(text, j + 1, n - 1);
    }
}

/// A placeholder as it is written holds no `<`.
proof fn lemma_written_has_no_angle(text: Seq<char>, k: nat, behind: int)
    ensures
        forall|x: int|
            0 <= x < written_placeholder(text, k, behind).len() ==> #[trigger] written_placeholder(
                text,
                k,
                behind,
            )[x] != '<',
{
    reveal_strlit("SPECIAL_TAG_");
    lemma_decimal(k);
    let token = written_placeholder(text, k, behind);
    assert forall|x: int| 0 <= x < token.len() implies #[trigger] token[x] != '<' by {
        if x < 12 {
            assert(token[x] == placeholder_prefix()[x]);
        } else if x < 12 + decimal(k).len() {
            assert(token[x] == decimal(k)[x - 12]);
            assert(is_digit(decimal(k)[x - 12]));
        } else {
            assert(token[x] == CLOSING_MARK);
        }
    }
}

/// From position `j` on, the text `out` is the protected rest of `text`
/// from position `i` on: then no tag that must come through untouched
/// begins in `out` from `j` on.
proof fn lemma_no_tag_left_from(text: Seq<char>, i: int, k: nat, out: Seq<char>, j: int)
    requires
        0 <= i <= text.len(),
        0 <= j <= out.len(),
        out.skip(j) == protected_from(text, i, k),
    ensures
        special_tags_from(out, j) == Seq::<Seq<char>>::empty(),
    decreases text.len() - i,
{
    let here = protected_from(text, i, k);
    assert(out.len() - j == here.len());
    assert forall|x: int| 0 <= x < here.len() implies out[j + x] == here[x] by {
        assert(out.skip(j)[x] == here[x]);
    }
    if i >= text.len() {
    } else if tag_len(text, i) > 0 {
        let behind = i + tag_len(text, i);
        let token = written_placeholder(text, k, behind);
        let rest = protected_from(text, behind, k + 1);
        lemma_close_facts(text, i + 1);
        let close = next_close(text, i + 1);
        if close + 3 <= text.len() {
            lemma_close_facts(text, close + 3);
        }
        assert(here == token + rest);
        lemma_written_has_no_angle(text, k, behind);
        assert forall|q: int| j <= q < j + token.len() implies #[trigger] out[q] != '<' by {
            assert(out[j + (q - j)] == here[q - j]);
            assert(here[q - j] == token[q - j]);
        }
        lemma_no_tag_in(out, j, token.len() as int);
        assert(out.skip(j + token.len()) =~= rest) by {
            assert forall|x: int| 0 <= x < rest.len() implies out.skip(j + token.len())[x]
                == rest[x] by {
                assert(here[token.len() + x] == rest[x]);
                assert(out[j + (token.len() + x)] == here[token.len() + x]);
            }
        }
        lemma_no_tag_left_from(text, behind, k + 1, out, j + token.len());
    } else {
        let rest = protected_from(text, i + 1, k);
        assert(here == seq![text[i]] + rest);
        assert(out[j] == text[i]) by {
            assert(here[0] == text[i]);
        }
        assert(out.skip(j + 1) =~= rest) by {
            assert forall|x: int| 0 <= x < rest.len() implies out.skip(j + 1)[x] == rest[x] by {
                assert(here[x + 1] == rest[x]);
                assert(out[j + (x + 1)] == here[x + 1]);
            }
        }
        lemma_no_tag_left_from(text, i + 1, k, out, j + 1);
        if text[i] == '<' {
            lemma_close_facts(text, i + 1);
            let close = next_close(text, i + 1);
            if close == text.len() {
                lemma_plain_to_the_end(text, i, k);
                assert forall|q: int| j + 1 <= q < out.len() implies #[trigger] out[q] != '>' by {
                    assert(out[j + (q - j)] == here[q - j]);
                    assert(here[q - j] == text[i + (q - j)]);
                }
                lemma_close_is(out, j + 1, out.len() as int);
            } else {
                let n = close + 1 - i;
                assert(!occurs_between(text, tag_word(), i, close));
                assert forall|q: int| i <= q <= close implies tag_len(text, q) == 0 by {
                    if q > i && q < close && text[q] == '<' {
                        lemma_close_is(text, q + 1, close);
                        if occurs_between(text, tag_word(), q, close) {
                            lemma_occurs_wider(text, tag_word(), i, q, close);
                        }
                    }
                }
                lemma_plain_stretch(text, i, close, k);
                let same = text.subrange(i, close + 1);
                assert(out.subrange(j, j + n) =~= same) by {
                    let window = out.subrange(j, j + n);
                    assert forall|x: int| 0 <= x < n implies #[trigger] window[x] == same[x] by {
                        assert(here[x] == same[x]);
                        assert(out[j + x] == here[x]);
                    }
                }
                assert forall|q: int| j + 1 <= q < j + n - 1 implies #[trigger] out[q] != '>' by {
                    assert(out.subrange(j, j + n)[q - j] == same[q - j]);
                    assert(same[q - j] == text[i + (q - j)]);
                }
                assert(out[j + n - 1] == '>') by {
                    assert(out.subrange(j, j + n)[n - 1] == same[n - 1]);
                }
                lemma_close_is(out, j + 1, j + n - 1);
                assert(text.subrange(i, i + (n - 1)) =~= out.subrange(j, j + (n - 1))) by {
                    let in_text = text.subrange(i, i + (n - 1));
                    let in_out = out.subrange(j, j + (n - 1));
                    assert forall|x: int| 0 <= x < n - 1 implies #[trigger] in_text[x]
                        == in_out[x] by {
                        assert(out.subrange(j, j + n)[x] == same[x]);
                    }
                }
                lemma_occurs_same(text, i, out, j, tag_word(), 0, n - 1);
                assert(!occurs_between(out, tag_word(), j, j + n - 1));
            }
            assert(tag_len(out, j) == 0);
        }
    }
}

/// Once the tags of a text were replaced by placeholders, none of its tags
/// that must come through untouched is left in it.
pub proof fn lemma_no_tag_is_left(text: Seq<char>)
    ensures
        special_tags(protected(text)) == Seq::<Seq<char>>::empty(),
{
    let out = protected(text);
    assert(out.skip(0) =~= out);
    lemma_no_tag_left_from(text, 0, 0, out, 0);
}

} // verus!
