//! Characters, words and decimal numbers in text.

use vstd::prelude::*;
use vstd::string::*;

verus! {

/// Whether Unicode counts `c` as white space: the characters with the
/// property `White_Space`, which are the controls from tab to carriage
/// return, the space, the next-line control, the no-break space, the ogham
/// space mark, the spaces from en quad to hair space, the line and the
/// paragraph separator, the narrow no-break space, the medium mathematical
/// space and the ideographic space.
pub open spec fn char_is_whitespace(c: char) -> bool {
    let code = c as u32;
    ||| 0x09 <= code <= 0x0d
    ||| code == 0x20
    ||| code == 0x85
    ||| code == 0xa0
    ||| code == 0x1680
    ||| 0x2000 <= code <= 0x200a
    ||| code == 0x2028
    ||| code == 0x2029
    ||| code == 0x202f
    ||| code == 0x205f
    ||| code == 0x3000
}

/// Calls `char::is_whitespace`, which tells whether a character has the
/// Unicode property `White_Space`. The contract says that these are the
/// characters that `char_is_whitespace` lists.
#[verifier::external_body]
pub(crate) fn is_whitespace_char(c: char) -> (white: bool)
    ensures
        white == char_is_whitespace(c),
{
    c.is_whitespace()
}

/// Every character of the text is white space.
pub open spec fn all_whitespace(text: Seq<char>) -> bool {
    forall|i: int| 0 <= i < text.len() ==> char_is_whitespace(#[trigger] text[i])
}

/// The number of characters at the front of the text up to, and without, its
/// first white space.
pub open spec fn word_len(text: Seq<char>) -> nat
    decreases text.len(),
{
    if text.len() == 0 || char_is_whitespace(text[0]) {
        0
    } else {
        1 + word_len(text.skip(1))
    }
}

/// The first `word_len` characters hold no white space, and white space or
/// the end of the text follows them.
pub proof fn lemma_word_prefix(text: Seq<char>)
    ensures
        word_len(text) <= text.len(),
        forall|k: int| 0 <= k < word_len(text) ==> !char_is_whitespace(#[trigger] text[k]),
        word_len(text) == text.len() || char_is_whitespace(text[word_len(text) as int]),
    decreases text.len(),
{
    if text.len() == 0 || char_is_whitespace(text[0]) {
    } else {
        let rest = text.skip(1);
        lemma_word_prefix(rest);
        assert forall|k: int| 0 <= k < word_len(text) implies !char_is_whitespace(
            #[trigger] text[k],
        ) by {
            if k > 0 {
                assert(rest[k - 1] == text[k]);
            }
        }
        if word_len(text) < text.len() {
            assert(rest[word_len(rest) as int] == text[word_len(text) as int]);
        }
    }
}

/// The words of the text: its longest runs of characters that are not white
/// space, in their order.
pub open spec fn words(text: Seq<char>) -> Seq<Seq<char>>
    decreases text.len(),
{
    if text.len() == 0 {
        Seq::empty()
    } else if char_is_whitespace(text[0]) {
        words(text.skip(1))
    } else {
        proof {
            lemma_word_prefix(text);
        }
        seq![text.take(word_len(text) as int)] + words(text.skip(word_len(text) as int))
    }
}

/// A run of `len` characters without white space, which ends the text or is
/// followed by white space, is the first word.
pub proof fn lemma_word_len(text: Seq<char>, len: int)
    requires
        0 <= len <= text.len(),
        forall|k: int| 0 <= k < len ==> !char_is_whitespace(#[trigger] text[k]),
        len == text.len() || char_is_whitespace(text[len]),
    ensures
        word_len(text) == len,
    decreases len,
{
    if len > 0 {
        let rest = text.skip(1);
        assert forall|k: int| 0 <= k < len - 1 implies !char_is_whitespace(#[trigger] rest[k]) by {
            assert(rest[k] == text[k + 1]);
        }
        lemma_word_len(rest, len - 1);
    }
}

/// A word is not empty and holds no white space.
pub proof fn lemma_words_are_words(text: Seq<char>, w: int)
    requires
        0 <= w < words(text).len(),
    ensures
        words(text)[w].len() > 0,
        forall|k: int| 0 <= k < words(text)[w].len() ==> !char_is_whitespace(
            #[trigger] words(text)[w][k],
        ),
    decreases text.len(),
{
    if text.len() == 0 {
    } else if char_is_whitespace(text[0]) {
        lemma_words_are_words(text.skip(1), w);
    } else {
        lemma_word_prefix(text);
        if w > 0 {
            lemma_words_are_words(text.skip(word_len(text) as int), w - 1);
        }
    }
}

/// A blank parts words: a run of characters that are no white space,
/// followed by a blank, is the first word, and the words behind the blank
/// follow it.
pub proof fn lemma_blank_parts_words(word: Seq<char>, rest: Seq<char>)
    requires
        word.len() > 0,
        forall|k: int| 0 <= k < word.len() ==> !char_is_whitespace(#[trigger] word[k]),
    ensures
        char_is_whitespace(' '),
        words(word + seq![' '] + rest) == seq![word] + words(rest),
        words(word) == seq![word],
{
    let text = word + seq![' '] + rest;
    let len = word.len() as int;
    assert(text[len] == ' ');
    assert forall|k: int| 0 <= k < len implies !char_is_whitespace(#[trigger] text[k]) by {
        assert(text[k] == word[k]);
    }
    lemma_word_len(text, len);
    assert(text.take(len) =~= word);
    let behind = text.skip(len);
    assert(behind[0] == ' ');
    assert(behind.skip(1) =~= rest);
    assert(text[0] == word[0]);
    assert(!char_is_whitespace(text[0]));
    assert(words(text) == seq![text.take(len)] + words(behind));
    assert(words(behind) == words(behind.skip(1)));
    lemma_word_len(word, len);
    assert(words(word) == seq![word.take(len)] + words(word.skip(len)));
    assert(word.take(len) =~= word);
    assert(word.skip(len) =~= Seq::<char>::empty());
    assert(seq![word] + words(Seq::<char>::empty()) =~= seq![word]);
}

/// Tells whether a snippet holds nothing but white space. An empty snippet
/// does.
pub fn is_whitespace(snippet: &str) -> (blank: bool)
    ensures
        blank == all_whitespace(snippet@),
{
    let mut blank = true;
    for c in it: snippet.chars()
        invariant
            it.seq() == snippet@,
            blank == all_whitespace(snippet@.take(it.index() as int)),
    {
        let ghost before = snippet@.take(it.index() as int);
        let ghost after = snippet@.take(it.index() + 1);
        let white = is_whitespace_char(c);
        proof {
            assert(after[it.index() as int] == c);
            assert(forall|i: int| 0 <= i < before.len() ==> before[i] == after[i]);
            if blank && white {
                assert forall|i: int| 0 <= i < after.len() implies char_is_whitespace(
                    #[trigger] after[i],
                ) by {
                    if i < before.len() {
                        assert(before[i] == after[i]);
                    }
                }
            }
            if !blank {
                let i = choose|i: int| 0 <= i < before.len() && !char_is_whitespace(before[i]);
                assert(after[i] == before[i]);
            }
        }
        blank = blank && white;
    }
    proof {
        assert(snippet@.take(snippet@.len() as int) =~= snippet@);
    }
    blank
}

/// The characters of the text, one by one.
pub fn chars_of(text: &str) -> (chars: Vec<char>)
    ensures
        chars@ == text@,
{
    let mut chars: Vec<char> = Vec::new();
    for c in it: text.chars()
        invariant
            it.seq() == text@,
            chars@ == it.seq().take(it.index() as int),
    {
        chars.push(c);
    }
    chars
}

/// Splits the text at white space into its words.
pub fn split_words(text: &str) -> (found: Vec<String>)
    ensures
        found.deep_view() == words(text@),
{
    let chars = chars_of(text);
    let n = chars.len();
    let mut found: Vec<String> = Vec::new();
    let mut i: usize = 0;
    proof {
        assert(text@.skip(0) =~= text@);
        assert(found.deep_view() + words(text@) =~= words(text@));
    }
    while i < n
        invariant
            chars@ == text@,
            n == chars.len(),
            i <= n,
            words(text@) == found.deep_view() + words(text@.skip(i as int)),
        decreases n - i,
    {
        let ghost rest = text@.skip(i as int);
        assert(rest[0] == text@[i as int]);
        if is_whitespace_char(chars[i]) {
            assert(rest.skip(1) =~= text@.skip(i + 1));
            i += 1;
        } else {
            let mut j = i + 1;
            while j < n && !is_whitespace_char(chars[j])
                invariant
                    chars@ == text@,
                    n == chars.len(),
                    i < j <= n,
                    forall|k: int| i <= k < j ==> !char_is_whitespace(#[trigger] text@[k]),
                decreases n - j,
            {
                j += 1;
            }
            let word = text.substring_char(i, j);
            proof {
                assert forall|k: int| 0 <= k < j - i implies !char_is_whitespace(
                    #[trigger] rest[k],
                ) by {
                    assert(rest[k] == text@[i + k]);
                }
                if j < n {
                    assert(rest[j - i] == text@[j as int]);
                }
                lemma_word_len(rest, j - i);
                assert(rest.take(j - i) =~= text@.subrange(i as int, j as int));
                assert(rest.skip(j - i) =~= text@.skip(j as int));
                assert(found.deep_view().push(word@) + words(text@.skip(j as int))
                    =~= found.deep_view() + (seq![word@] + words(text@.skip(j as int))));
            }
            let ghost before = found.deep_view();
            found.push(word.to_owned());
            assert(found.deep_view() =~= before.push(word@));
            i = j;
        }
    }
    proof {
        assert(text@.skip(n as int) =~= Seq::<char>::empty());
        assert(found.deep_view() + Seq::<Seq<char>>::empty() =~= found.deep_view());
    }
    found
}

/// The character that stands for a digit.
pub open spec fn digit_char(d: nat) -> char {
    if d == 0 {
        '0'
    } else if d == 1 {
        '1'
    } else if d == 2 {
        '2'
    } else if d == 3 {
        '3'
    } else if d == 4 {
        '4'
    } else if d == 5 {
        '5'
    } else if d == 6 {
        '6'
    } else if d == 7 {
        '7'
    } else if d == 8 {
        '8'
    } else {
        '9'
    }
}

/// The number in decimal, without leading zeros.
pub open spec fn decimal(n: nat) -> Seq<char>
    decreases n,
{
    if n < 10 {
        seq![digit_char(n)]
    } else {
        decimal(n / 10).push(digit_char(n % 10))
    }
}

/// One decimal digit as text.
fn digit_text(d: usize) -> (text: &'static str)
    requires
        d < 10,
    ensures
        text@ == seq![digit_char(d as nat)],
{
    proof {
        reveal_strlit("0");
        reveal_strlit("1");
        reveal_strlit("2");
        reveal_strlit("3");
        reveal_strlit("4");
        reveal_strlit("5");
        reveal_strlit("6");
        reveal_strlit("7");
        reveal_strlit("8");
        reveal_strlit("9");
    }
    let text = if d == 0 {
        "0"
    } else if d == 1 {
        "1"
    } else if d == 2 {
        "2"
    } else if d == 3 {
        "3"
    } else if d == 4 {
        "4"
    } else if d == 5 {
        "5"
    } else if d == 6 {
        "6"
    } else if d == 7 {
        "7"
    } else if d == 8 {
        "8"
    } else {
        "9"
    };
    assert(text@ =~= seq![digit_char(d as nat)]);
    text
}

/// Writes the number in decimal.
pub fn decimal_string(n: usize) -> (text: String)
    ensures
        text@ == decimal(n as nat),
    decreases n,
{
    if n < 10 {
        digit_text(n).to_owned()
    } else {
        let mut text = decimal_string(n / 10);
        text.append(digit_text(n % 10));
        assert(text@ =~= decimal(n as nat));
        text
    }
}


/// The number of white space characters at the front of the text.
pub open spec fn leading_whitespace(text: Seq<char>) -> nat
    decreases text.len(),
{
    if text.len() == 0 || !char_is_whitespace(text[0]) {
        0
    } else {
        1 + leading_whitespace(text.skip(1))
    }
}

/// The number of white space characters at the end of the text.
pub open spec fn trailing_whitespace(text: Seq<char>) -> nat
    decreases text.len(),
{
    if text.len() == 0 || !char_is_whitespace(text.last()) {
        0
    } else {
        1 + trailing_whitespace(text.drop_last())
    }
}

/// The text without the white space at its front and at its end.
pub open spec fn trimmed(text: Seq<char>) -> Seq<char> {
    let rest = text.skip(leading_whitespace(text) as int);
    rest.take(rest.len() - trailing_whitespace(rest))
}

/// Where `count` white space characters stand at the front and then the
/// text ends or something else follows, they are the leading white space.
proof fn lemma_leading(text: Seq<char>, count: int)
    requires
        0 <= count <= text.len(),
        forall|k: int| 0 <= k < count ==> char_is_whitespace(#[trigger] text[k]),
        count == text.len() || !char_is_whitespace(text[count]),
    ensures
        leading_whitespace(text) == count,
    decreases count,
{
    if count > 0 {
        let rest = text.skip(1);
        assert forall|k: int| 0 <= k < count - 1 implies char_is_whitespace(#[trigger] rest[k]) by {
            assert(rest[k] == text[k + 1]);
        }
        if count < text.len() {
            assert(rest[count - 1] == text[count]);
        }
        lemma_leading(rest, count - 1);
    }
}

/// Where `count` white space characters stand at the end and before them
/// the text begins or something else stands, they are the trailing white
/// space.
proof fn lemma_trailing(text: Seq<char>, count: int)
    requires
        0 <= count <= text.len(),
        forall|k: int| text.len() - count <= k < text.len() ==> char_is_whitespace(
            #[trigger] text[k],
        ),
        count == text.len() || !char_is_whitespace(text[text.len() - count - 1]),
    ensures
        trailing_whitespace(text) == count,
    decreases count,
{
    if count > 0 {
        let rest = text.drop_last();
        assert forall|k: int| rest.len() - (count - 1) <= k < rest.len() implies char_is_whitespace(
            #[trigger] rest[k],
        ) by {
            assert(rest[k] == text[k]);
        }
        if count < text.len() {
            assert(rest[rest.len() - (count - 1) - 1] == text[text.len() - count - 1]);
        }
        lemma_trailing(rest, count - 1);
    }
}

/// Takes the white space off the front and the end of a text.
pub fn trim(text: &str) -> (rest: String)
    ensures
        rest@ == trimmed(text@),
{
    let chars = chars_of(text);
    let n = chars.len();
    let mut start: usize = 0;
    while start < n && is_whitespace_char(chars[start])
        invariant
            chars@ == text@,
            n == chars.len(),
            start <= n,
            forall|k: int| 0 <= k < start ==> char_is_whitespace(#[trigger] text@[k]),
        decreases n - start,
    {
        start += 1;
    }
    let mut end = n;
    while end > start && is_whitespace_char(chars[end - 1])
        invariant
            chars@ == text@,
            n == chars.len(),
            start <= end <= n,
            forall|k: int| end <= k < n ==> char_is_whitespace(#[trigger] text@[k]),
        decreases end - start,
    {
        end -= 1;
    }
    proof {
        lemma_leading(text@, start as int);
        let rest = text@.skip(start as int);
        assert(end > start || start == n) by {
            if end == start && start < n {
                // White space would stand where the leading white space ends.
                assert(char_is_whitespace(text@[end as int]));
            }
        }
        assert forall|k: int| rest.len() - (n - end) <= k < rest.len() implies char_is_whitespace(
            #[trigger] rest[k],
        ) by {
            assert(rest[k] == text@[start + k]);
        }
        if end > start {
            assert(rest[rest.len() - (n - end) - 1] == text@[end - 1]);
        }
        lemma_trailing(rest, n - end);
        assert(rest.take(rest.len() - (n - end)) =~= text@.subrange(start as int, end as int));
    }
    text.substring_char(start, end).to_owned()
}

} // verus!
