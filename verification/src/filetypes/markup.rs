//! Structural tags of a markup document that must come through translation
//! untouched: each is replaced by a placeholder before the text is handed
//! over, and put back afterwards.

use vstd::prelude::*;
use vstd::string::*;
use crate::text::{chars_of, decimal, decimal_string};

verus! {

/// What every placeholder begins with.
pub open spec fn placeholder_prefix() -> Seq<char> {
    "SPECIAL_TAG_"@
}

/// The word that marks a tag as one that must come through untouched.
pub open spec fn tag_word() -> Seq<char> {
    "pagebreak"@
}

/// The mark that closes a placeholder where what follows could be taken for
/// a part of it.
pub const CLOSING_MARK: char = '_';

/// The placeholder that stands for the tag with this number.
pub open spec fn placeholder(k: nat) -> Seq<char> {
    placeholder_prefix() + decimal(k)
}

/// The pattern stands in the text at position `p`.
pub open spec fn occurs_at(text: Seq<char>, pattern: Seq<char>, p: int) -> bool {
    &&& 0 <= p
    &&& p + pattern.len() <= text.len()
    &&& text.subrange(p, p + pattern.len()) == pattern
}

/// The pattern stands in the text somewhere from `from` on and ends at `to`
/// at the latest.
pub open spec fn occurs_between(text: Seq<char>, pattern: Seq<char>, from: int, to: int) -> bool
    decreases to - from + 1,
{
    if from < 0 || from + pattern.len() > to || to > text.len() {
        false
    } else if occurs_at(text, pattern, from) {
        true
    } else {
        occurs_between(text, pattern, from + 1, to)
    }
}

/// The position of the first `>` at or behind `from`, or the length of the
/// text where there is none.
pub open spec fn next_close(text: Seq<char>, from: int) -> int
    decreases text.len() - from,
{
    if from < 0 || from >= text.len() {
        text.len() as int
    } else if text[from] == '>' {
        from
    } else {
        next_close(text, from + 1)
    }
}

/// The position of the `>` that ends the closing tag which begins right
/// behind position `close`, or `close` itself where no closing tag begins
/// there.
pub open spec fn with_closing_tag(text: Seq<char>, close: int) -> int {
    let end = next_close(text, close + 3);
    if close + 2 < text.len() && text[close + 1] == '<' && text[close + 2] == '/' && close < end
        < text.len() {
        end
    } else {
        close
    }
}

/// The length of the tag that begins at position `i` and must come through
/// untouched, or zero where none begins there: such a tag runs from a `<`
/// to the next `>` and has the word `pagebreak` in between. A closing tag
/// that follows it directly goes with it.
pub open spec fn tag_len(text: Seq<char>, i: int) -> nat {
    let close = next_close(text, i + 1);
    if 0 <= i < text.len() && text[i] == '<' && i < close < text.len() && occurs_between(
        text,
        tag_word(),
        i,
        close,
    ) {
        (with_closing_tag(text, close) + 1 - i) as nat
    } else {
        0
    }
}

/// The tags from position `i` on that must come through untouched, in
/// their order. Behind a tag the next one is looked for.
pub open spec fn special_tags_from(text: Seq<char>, i: int) -> Seq<Seq<char>>
    decreases text.len() - i,
{
    if i < 0 || i >= text.len() {
        Seq::empty()
    } else if tag_len(text, i) > 0 {
        seq![text.subrange(i, i + tag_len(text, i))] + special_tags_from(
            text,
            i + tag_len(text, i),
        )
    } else {
        special_tags_from(text, i + 1)
    }
}

/// The tags of a markup text that must come through untouched, in their
/// order.
pub open spec fn special_tags(text: Seq<char>) -> Seq<Seq<char>> {
    special_tags_from(text, 0)
}

/// What stands at this position could be taken for a part of a placeholder
/// before it: a digit, or the closing mark.
pub open spec fn needs_mark(text: Seq<char>, at: int) -> bool {
    0 <= at < text.len() && (is_digit(text[at]) || text[at] == CLOSING_MARK)
}

/// The placeholder with the number `k` as it is written before position
/// `behind` of the text: with the closing mark where what follows needs it.
pub open spec fn written_placeholder(text: Seq<char>, k: nat, behind: int) -> Seq<char> {
    if needs_mark(text, behind) {
        placeholder(k).push(CLOSING_MARK)
    } else {
        placeholder(k)
    }
}

/// The text from position `i` on with each tag replaced by its placeholder,
/// the first of them by the one with the number `k`.
pub open spec fn protected_from(text: Seq<char>, i: int, k: nat) -> Seq<char>
    decreases text.len() - i,
{
    if i < 0 || i >= text.len() {
        Seq::empty()
    } else if tag_len(text, i) > 0 {
        written_placeholder(text, k, i + tag_len(text, i)) + protected_from(
            text,
            i + tag_len(text, i),
            k + 1,
        )
    } else {
        seq![text[i]] + protected_from(text, i + 1, k)
    }
}

/// The text with each tag replaced by its placeholder.
pub open spec fn protected(text: Seq<char>) -> Seq<char> {
    protected_from(text, 0, 0)
}

/// The placeholders with the tags they stand for, in the order of the tags.
pub open spec fn mapping_of(tags: Seq<Seq<char>>) -> Seq<(Seq<char>, Seq<char>)> {
    Seq::new(tags.len(), |k: int| (placeholder(k as nat), tags[k]))
}

/// The pairs as mathematical values.
pub open spec fn pair_views(pairs: Seq<(String, String)>) -> Seq<(Seq<char>, Seq<char>)> {
    pairs.map_values(|pair: (String, String)| (pair.0@, pair.1@))
}

/// The tags that the pairs hold.
pub open spec fn tags_of(mapping: Seq<(Seq<char>, Seq<char>)>) -> Seq<Seq<char>> {
    mapping.map_values(|pair: (Seq<char>, Seq<char>)| pair.1)
}

/// Tells whether the pattern stands in the text at position `p`.
fn stands_at(text: &Vec<char>, pattern: &Vec<char>, p: usize) -> (stands: bool)
    requires
        p + pattern.len() <= text.len(),
    ensures
        stands == occurs_at(text@, pattern@, p as int),
{
    let mut i: usize = 0;
    while i < pattern.len()
        invariant
            i <= pattern.len(),
            p + pattern.len() <= text.len(),
            forall|j: int| 0 <= j < i ==> text[p + j] == pattern[j],
        decreases pattern.len() - i,
    {
        if text[p + i] != pattern[i] {
            assert(text@.subrange(p as int, p + pattern.len())[i as int] != pattern@[i as int]);
            return false;
        }
        i += 1;
    }
    assert(text@.subrange(p as int, p + pattern.len()) =~= pattern@);
    true
}

/// Looks for a closing tag right behind position `close`. The answer is
/// the position of the `>` that ends it, or `close` where there is none.
fn closing_tag_end(text: &Vec<char>, close: usize) -> (end: usize)
    requires
        close < text.len(),
    ensures
        end == with_closing_tag(text@, close as int),
        close <= end < text.len(),
{
    let n = text.len();
    if n - close <= 2 || text[close + 1] != '<' || text[close + 2] != '/' {
        return close;
    }
    let mut end = close + 3;
    while end < n && text[end] != '>'
        invariant
            close + 3 <= end <= n,
            n == text.len(),
            next_close(text@, close + 3) == next_close(text@, end as int),
        decreases n - end,
    {
        end += 1;
    }
    if end == n {
        close
    } else {
        end
    }
}

/// Looks for a tag that must come through untouched at position `i`. The
/// answer is its length, or zero where none begins there.
fn tag_here(text: &Vec<char>, word: &Vec<char>, i: usize) -> (len: usize)
    requires
        word@ == tag_word(),
        i < text.len(),
    ensures
        len == tag_len(text@, i as int),
        i + len <= text.len(),
{
    if text[i] != '<' {
        return 0;
    }
    let n = text.len();
    let mut close = i + 1;
    while close < n && text[close] != '>'
        invariant
            i < close <= n,
            n == text.len(),
            next_close(text@, i + 1) == next_close(text@, close as int),
        decreases n - close,
    {
        close += 1;
    }
    if close == n {
        return 0;
    }
    assert(next_close(text@, i + 1) == close);
    if word.len() > close - i {
        return 0;
    }
    let last = close - word.len();
    let mut p = i;
    loop
        invariant
            i <= p <= last,
            last == close - word.len(),
            i < close < n,
            n == text.len(),
            text@[i as int] == '<',
            word@ == tag_word(),
            next_close(text@, i + 1) == close,
            occurs_between(text@, word@, i as int, close as int) == occurs_between(
                text@,
                word@,
                p as int,
                close as int,
            ),
        decreases last - p,
    {
        if stands_at(text, word, p) {
            return closing_tag_end(text, close) + 1 - i;
        }
        if p == last {
            assert(!occurs_between(text@, word@, p + 1, close as int));
            return 0;
        }
        p += 1;
    }
}

/// The placeholder that stands for the tag with this number.
pub fn placeholder_text(k: usize) -> (token: String)
    ensures
        token@ == placeholder(k as nat),
{
    let mut token = "SPECIAL_TAG_".to_owned();
    token.append(decimal_string(k).as_str());
    token
}

/// Tells whether the character is one of the ten digits.
fn digit(c: char) -> (is: bool)
    ensures
        is == is_digit(c),
{
    let code = c as u32;
    48 <= code && code <= 57
}

/// One more tag makes one more pair.
proof fn lemma_mapping_push(tags: Seq<Seq<char>>, tag: Seq<char>)
    ensures
        mapping_of(tags.push(tag)) == mapping_of(tags).push((placeholder(tags.len()), tag)),
{
    assert(mapping_of(tags.push(tag)) =~= mapping_of(tags).push((placeholder(tags.len()), tag)));
}

/// Replaces the structural tags of a markup text by placeholders: each
/// stretch from a `<` to the next `>` that has the word `pagebreak` in it
/// gives way to the placeholder of its number, counted from zero. The
/// answer is the text with the placeholders and, for each tag in its order,
/// the placeholder with the tag.
pub fn replace_special_tags(html: &str) -> (done: (String, Vec<(String, String)>))
    ensures
        done.0@ == protected(html@),
        pair_views(done.1@) == mapping_of(special_tags(html@)),
        done.1@.len() == special_tags(html@).len(),
{
    let text = chars_of(html);
    let word = chars_of("pagebreak");
    let n = text.len();
    let ghost whole = protected(html@);
    let ghost all = special_tags(html@);
    let ghost mut found: Seq<Seq<char>> = Seq::empty();
    let mut out = String::new();
    let mut mapping: Vec<(String, String)> = Vec::new();
    let mut run: usize = 0;
    let mut i: usize = 0;
    proof {
        assert(out@ + html@.subrange(0, 0) + whole =~= whole);
        assert(found + all =~= all);
        assert(pair_views(mapping@) =~= mapping_of(found));
    }
    while i < n
        invariant
            text@ == html@,
            word@ == tag_word(),
            n == text.len(),
            run <= i <= n,
            whole == protected(html@),
            all == special_tags(html@),
            mapping.len() == found.len(),
            pair_views(mapping@) == mapping_of(found),
            found + special_tags_from(html@, i as int) == all,
            out@ + html@.subrange(run as int, i as int) + protected_from(
                html@,
                i as int,
                found.len(),
            ) == whole,
        decreases n - i,
    {
        let len = tag_here(&text, &word, i);
        if len == 0 {
            proof {
                let pending = html@.subrange(run as int, i as int);
                assert(html@.subrange(run as int, i + 1) =~= pending + seq![html@[i as int]]);
                assert(out@ + html@.subrange(run as int, i + 1) + protected_from(
                    html@,
                    i + 1,
                    found.len(),
                ) =~= out@ + pending + protected_from(html@, i as int, found.len()));
            }
            i += 1;
        } else {
            let k = mapping.len();
            let token = placeholder_text(k);
            let behind = i + len;
            let marked = behind < n && (digit(text[behind]) || text[behind] == CLOSING_MARK);
            let ghost before = out@;
            let ghost pending = html@.subrange(run as int, i as int);
            let ghost rest = protected_from(html@, behind as int, found.len() + 1);
            let ghost tag = html@.subrange(i as int, behind as int);
            out.append(html.substring_char(run, i));
            out.append(token.as_str());
            if marked {
                proof {
                    reveal_strlit("_");
                }
                out.append("_");
                assert(out@ =~= before + pending + placeholder(k as nat).push(CLOSING_MARK));
            }
            let pair = (token, html.substring_char(i, behind).to_owned());
            let ghost pairs = pair_views(mapping@);
            mapping.push(pair);
            proof {
                assert(out@ == before + pending + written_placeholder(
                    html@,
                    k as nat,
                    behind as int,
                ));
                assert(out@ + html@.subrange(behind as int, behind as int) + rest =~= before
                    + pending + (written_placeholder(html@, k as nat, behind as int) + rest));
                assert(found.push(tag) + special_tags_from(html@, behind as int) =~= found + (
                seq![tag] + special_tags_from(html@, behind as int)));
                lemma_mapping_push(found, tag);
                assert(pair_views(mapping@) =~= pairs.push((placeholder(k as nat), tag)));
                found = found.push(tag);
            }
            i = behind;
            run = behind;
        }
    }
    let ghost before = out@;
    out.append(html.substring_char(run, n));
    proof {
        assert(special_tags_from(html@, n as int) =~= Seq::<Seq<char>>::empty());
        assert(found + Seq::<Seq<char>>::empty() =~= found);
        assert(protected_from(html@, n as int, found.len()) =~= Seq::<char>::empty());
        assert(out@ =~= before + html@.subrange(run as int, n as int) + Seq::<char>::empty());
    }
    (out, mapping)
}

/// The character is one of the ten digits.
pub open spec fn is_digit(c: char) -> bool {
    48 <= c as u32 <= 57
}

/// The number that a digit stands for.
pub open spec fn digit_value(c: char) -> nat {
    (c as u32 - 48) as nat
}

/// The number of digits that stand in the text from `from` on without a
/// break.
pub open spec fn digits_at(text: Seq<char>, from: int) -> nat
    decreases text.len() - from,
{
    if 0 <= from < text.len() && is_digit(text[from]) {
        1 + digits_at(text, from + 1)
    } else {
        0
    }
}

/// The number that the digits write in decimal.
pub open spec fn number(digits: Seq<char>) -> nat
    decreases digits.len(),
{
    if digits.len() == 0 {
        0
    } else {
        number(digits.drop_last()) * 10 + digit_value(digits.last())
    }
}

/// The length of the placeholder that stands in the text at position `i`,
/// or zero where none stands there: a placeholder is the prefix with all the
/// digits that follow it, of which there is at least one, and with the
/// closing mark where that follows the digits.
pub open spec fn token_len(text: Seq<char>, i: int) -> nat {
    let digits = digits_at(text, i + placeholder_prefix().len());
    let end = i + placeholder_prefix().len() + digits;
    if occurs_at(text, placeholder_prefix(), i) && digits > 0 {
        if end < text.len() && text[end] == CLOSING_MARK {
            placeholder_prefix().len() + digits + 1
        } else {
            placeholder_prefix().len() + digits
        }
    } else {
        0
    }
}

/// The digits that stand from `from` on end with the text at the latest.
pub proof fn lemma_digits_fit(text: Seq<char>, from: int)
    requires
        0 <= from <= text.len(),
    ensures
        from + digits_at(text, from) <= text.len(),
    decreases text.len() - from,
{
    if from < text.len() && is_digit(text[from]) {
        lemma_digits_fit(text, from + 1);
    }
}

/// A placeholder ends with the text at the latest.
pub proof fn lemma_token_fits(text: Seq<char>, i: int)
    requires
        0 <= i,
    ensures
        i + token_len(text, i) <= text.len() || token_len(text, i) == 0,
        token_len(text, i) > 0 ==> i + placeholder_prefix().len() + digits_at(
            text,
            i + placeholder_prefix().len(),
        ) <= i + token_len(text, i),
{
    if occurs_at(text, placeholder_prefix(), i) {
        lemma_digits_fit(text, i + placeholder_prefix().len());
    }
}

/// The number of the placeholder that stands in the text at position `i`.
pub open spec fn token_number(text: Seq<char>, i: int) -> nat {
    number(
        text.subrange(
            i + placeholder_prefix().len(),
            i + placeholder_prefix().len() + digits_at(text, i + placeholder_prefix().len()),
        ),
    )
}

/// The text from position `i` on with each placeholder replaced by the tag
/// of its number. A placeholder whose number no tag has stays as it is.
pub open spec fn restored_from(text: Seq<char>, tags: Seq<Seq<char>>, i: int) -> Seq<char>
    decreases text.len() - i,
{
    if i < 0 || i >= text.len() {
        Seq::empty()
    } else if token_len(text, i) > 0 {
        proof {
            lemma_token_fits(text, i);
        }
        let k = token_number(text, i);
        (if k < tags.len() {
            tags[k as int]
        } else {
            text.subrange(i, i + token_len(text, i))
        }) + restored_from(text, tags, i + token_len(text, i))
    } else {
        seq![text[i]] + restored_from(text, tags, i + 1)
    }
}

/// The numbers of the placeholders that stand in the text from position `i`
/// on, in their order.
pub open spec fn tokens_from(text: Seq<char>, i: int) -> Seq<nat>
    decreases text.len() - i,
{
    if i < 0 || i >= text.len() {
        Seq::empty()
    } else if token_len(text, i) > 0 {
        proof {
            lemma_token_fits(text, i);
        }
        seq![token_number(text, i)] + tokens_from(text, i + token_len(text, i))
    } else {
        tokens_from(text, i + 1)
    }
}

/// What is wrong with the placeholders of a text.
#[derive(Clone, Copy, Debug, PartialEq, Eq, Structural)]
pub enum IntegrityError {
    /// At this position stands a placeholder whose number no tag has.
    Unknown { position: usize },
    /// The placeholder with this number stands in the text more than once.
    Repeated { placeholder: usize },
    /// The placeholder with this number does not stand in the text.
    Missing { placeholder: usize },
    /// The pair with this number does not hold the placeholder of its
    /// number.
    Misnamed { placeholder: usize },
}

/// The first pair from `k` on that does not hold the placeholder of its
/// number, if there is one.
pub open spec fn misnamed_from(mapping: Seq<(Seq<char>, Seq<char>)>, k: int) -> Option<int>
    decreases mapping.len() - k,
{
    if k < 0 || k >= mapping.len() {
        None
    } else if mapping[k].0 != placeholder(k as nat) {
        Some(k)
    } else {
        misnamed_from(mapping, k + 1)
    }
}

/// Where no pair is misnamed, the pairs are those of their tags.
pub proof fn lemma_none_misnamed(mapping: Seq<(Seq<char>, Seq<char>)>, k: int)
    requires
        0 <= k,
        misnamed_from(mapping, k) is None,
    ensures
        forall|j: int| k <= j < mapping.len() ==> (#[trigger] mapping[j]).0 == placeholder(j as nat),
        k == 0 ==> mapping == mapping_of(tags_of(mapping)),
    decreases mapping.len() - k,
{
    if k < mapping.len() {
        lemma_none_misnamed(mapping, k + 1);
    }
    if k == 0 {
        assert(mapping =~= mapping_of(tags_of(mapping)));
    }
}

/// The first placeholder from position `i` on that no tag has a number for,
/// or whose number is among `seen` or came before it from `i` on.
pub open spec fn scan_fault(text: Seq<char>, count: nat, i: int, seen: Set<nat>) -> Option<
    IntegrityError,
>
    decreases text.len() - i,
{
    if i < 0 || i >= text.len() {
        None
    } else if token_len(text, i) == 0 {
        scan_fault(text, count, i + 1, seen)
    } else if token_number(text, i) >= count {
        Some(IntegrityError::Unknown { position: i as usize })
    } else if seen.contains(token_number(text, i)) {
        Some(IntegrityError::Repeated { placeholder: token_number(text, i) as usize })
    } else {
        proof {
            lemma_token_fits(text, i);
        }
        scan_fault(text, count, i + token_len(text, i), seen.insert(token_number(text, i)))
    }
}

/// The least number from `from` on and below `count` that is not among the
/// numbers found, if there is one.
pub open spec fn missing_from(found: Seq<nat>, count: nat, from: nat) -> Option<nat>
    decreases count - from,
{
    if from >= count {
        None
    } else if !found.contains(from) {
        Some(from)
    } else {
        missing_from(found, count, from + 1)
    }
}

/// The least number below `count` that is not among the numbers found, if
/// there is one.
pub open spec fn first_missing(found: Seq<nat>, count: nat) -> Option<nat> {
    missing_from(found, count, 0)
}

/// Where no number is missing, every number below `count` is among those
/// found.
pub proof fn lemma_none_missing(found: Seq<nat>, count: nat, from: nat)
    requires
        missing_from(found, count, from) is None,
    ensures
        forall|k: nat| from <= k < count ==> found.contains(k),
    decreases count - from,
{
    if from < count {
        lemma_none_missing(found, count, from + 1);
    }
}

/// What putting the tags back answers. The pairs must be the placeholders
/// of their numbers with their tags. The text is sound where each tag's
/// placeholder stands in it exactly once and no other placeholder does.
/// Otherwise the first placeholder in the text that is unknown or repeated
/// is reported, or else the least number whose placeholder is missing.
pub open spec fn restore_outcome(text: Seq<char>, mapping: Seq<(Seq<char>, Seq<char>)>) -> Result<
    Seq<char>,
    IntegrityError,
> {
    match misnamed_from(mapping, 0) {
        Some(k) => Err(IntegrityError::Misnamed { placeholder: k as usize }),
        None => match scan_fault(text, mapping.len(), 0, Set::empty()) {
            Some(fault) => Err(fault),
            None => match first_missing(tokens_from(text, 0), mapping.len()) {
                Some(k) => Err(IntegrityError::Missing { placeholder: k as usize }),
                None => Ok(restored_from(text, tags_of(mapping), 0)),
            },
        },
    }
}

/// The digits from `from` on are `count` where `count` digits stand there
/// and then the text ends or something else follows.
pub proof fn lemma_digits_at(text: Seq<char>, from: int, count: int)
    requires
        0 <= from,
        0 <= count,
        from + count <= text.len(),
        forall|j: int| from <= j < from + count ==> is_digit(#[trigger] text[j]),
        from + count == text.len() || !is_digit(text[from + count]),
    ensures
        digits_at(text, from) == count,
    decreases count,
{
    if count > 0 {
        lemma_digits_at(text, from + 1, count - 1);
    }
}

/// Looks for a placeholder at position `i`. The answer is its length, or
/// zero where none stands there, and its number where that is below `limit`.
fn token_here(text: &Vec<char>, prefix: &Vec<char>, i: usize, limit: usize) -> (found: (
    usize,
    Option<usize>,
))
    requires
        prefix@ == placeholder_prefix(),
        i < text.len(),
    ensures
        found.0 == token_len(text@, i as int),
        i + found.0 <= text.len(),
        found.0 > 0 ==> match found.1 {
            Some(k) => k == token_number(text@, i as int) && k < limit,
            None => token_number(text@, i as int) >= limit,
        },
{
    if prefix.len() > text.len() - i {
        return (0, None);
    }
    if !stands_at(text, prefix, i) {
        return (0, None);
    }
    let start = i + prefix.len();
    let ghost digits = text@.skip(start as int);
    let mut j = start;
    let mut value: u128 = 0;
    let mut large = false;
    while j < text.len() && digit(text[j])
        invariant
            start <= j <= text.len(),
            forall|q: int| start <= q < j ==> is_digit(#[trigger] text@[q]),
            !large ==> value == number(text@.subrange(start as int, j as int)),
            !large && j > start ==> value < limit,
            large ==> number(text@.subrange(start as int, j as int)) >= limit,
            j == start ==> !large && value == 0,
            value <= usize::MAX,
        decreases text.len() - j,
    {
        let ghost before = text@.subrange(start as int, j as int);
        let ghost after = text@.subrange(start as int, j + 1);
        proof {
            assert(after.drop_last() =~= before);
            assert(after.last() == text@[j as int]);
        }
        if !large {
            let next = value * 10 + (text[j] as u32 - 48) as u128;
            if next >= limit as u128 {
                large = true;
            } else {
                value = next;
            }
        }
        j += 1;
    }
    proof {
        lemma_digits_at(text@, start as int, j - start);
    }
    if j == start {
        return (0, None);
    }
    let len = if j < text.len() && text[j] == CLOSING_MARK {
        j - i + 1
    } else {
        j - i
    };
    if large || value >= limit as u128 {
        (len, None)
    } else {
        (len, Some(value as usize))
    }
}

/// Puts the tags back in the place of their placeholders: the tag of pair
/// `k` for the placeholder with the number `k`. Each pair must hold the
/// placeholder of its number, and the text must hold the placeholder of
/// each pair exactly once and no other: else nothing is put back, and the
/// answer says what is wrong.
pub fn restore_special_tags(html: String, special_tags: Vec<(String, String)>) -> (restored:
    Result<String, IntegrityError>)
    ensures
        match restored {
            Ok(text) => restore_outcome(html@, pair_views(special_tags@)) == Ok::<
                Seq<char>,
                IntegrityError,
            >(text@),
            Err(fault) => restore_outcome(html@, pair_views(special_tags@)) == Err::<
                Seq<char>,
                IntegrityError,
            >(fault),
        },
{
    let mut m: usize = 0;
    while m < special_tags.len()
        invariant
            m <= special_tags.len(),
            misnamed_from(pair_views(special_tags@), 0) == misnamed_from(
                pair_views(special_tags@),
                m as int,
            ),
        decreases special_tags.len() - m,
    {
        let token = placeholder_text(m);
        assert(pair_views(special_tags@)[m as int].0 == special_tags[m as int].0@);
        if special_tags[m].0 != token {
            return Err(IntegrityError::Misnamed { placeholder: m });
        }
        m += 1;
    }
    assert(pair_views(special_tags@).len() == special_tags.len());
    let text = chars_of(html.as_str());
    let prefix = chars_of("SPECIAL_TAG_");
    let count = special_tags.len();
    let ghost tags = tags_of(pair_views(special_tags@));
    let ghost whole = restored_from(html@, tags, 0);
    let ghost all_found = tokens_from(html@, 0);
    let ghost verdict = scan_fault(html@, count as nat, 0, Set::empty());
    let mut seen: Vec<bool> = Vec::new();
    let mut s: usize = 0;
    while s < count
        invariant
            s <= count,
            seen.len() == s,
            forall|k: int| 0 <= k < s ==> !(#[trigger] seen[k]),
        decreases count - s,
    {
        seen.push(false);
        s += 1;
    }
    let mut out = String::new();
    let mut run: usize = 0;
    let mut i: usize = 0;
    let ghost mut found: Seq<nat> = Seq::empty();
    proof {
        assert(out@ + html@.subrange(0, 0) + whole =~= whole);
        assert(found + all_found =~= all_found);
        assert(Set::new(|k: nat| found.contains(k)) =~= Set::<nat>::empty());
    }
    while i < text.len()
        invariant
            text@ == html@,
            prefix@ == placeholder_prefix(),
            tags == tags_of(pair_views(special_tags@)),
            count == special_tags.len(),
            count == tags.len(),
            count == pair_views(special_tags@).len(),
            misnamed_from(pair_views(special_tags@), 0) is None,
            seen.len() == count,
            run <= i <= text.len(),
            out@ + html@.subrange(run as int, i as int) + restored_from(html@, tags, i as int)
                == whole,
            found + tokens_from(html@, i as int) == all_found,
            all_found == tokens_from(html@, 0),
            whole == restored_from(html@, tags, 0),
            verdict == scan_fault(html@, count as nat, 0, Set::empty()),
            forall|k: int| 0 <= k < count ==> (#[trigger] seen[k] <==> found.contains(k as nat)),
            scan_fault(
                html@,
                count as nat,
                i as int,
                Set::new(|k: nat| found.contains(k)),
            ) == verdict,
        decreases text.len() - i,
    {
        let (len, number) = token_here(&text, &prefix, i, count);
        let ghost known = Set::new(|k: nat| found.contains(k));
        if len == 0 {
            proof {
                let pending = html@.subrange(run as int, i as int);
                assert(html@.subrange(run as int, i + 1) =~= pending + seq![html@[i as int]]);
                assert(out@ + html@.subrange(run as int, i + 1) + restored_from(html@, tags, i + 1)
                    =~= out@ + pending + restored_from(html@, tags, i as int));
            }
            i += 1;
        } else {
            match number {
                None => {
                    return Err(IntegrityError::Unknown { position: i });
                },
                Some(k) => {
                    if seen[k] {
                        assert(known.contains(k as nat));
                        return Err(IntegrityError::Repeated { placeholder: k });
                    }
                    let ghost before = out@;
                    let ghost pending = html@.subrange(run as int, i as int);
                    let ghost rest = restored_from(html@, tags, i + len);
                    out.append(html.as_str().substring_char(run, i));
                    out.append(special_tags[k].1.as_str());
                    seen.set(k, true);
                    proof {
                        assert(tags[k as int] == special_tags[k as int].1@);
                        assert(out@ + html@.subrange(i + len, i + len) + rest =~= before + pending
                            + (tags[k as int] + rest));
                        let grown = found.push(k as nat);
                        assert(grown + tokens_from(html@, i + len) =~= found + (seq![k as nat]
                            + tokens_from(html@, i + len)));
                        assert forall|j: int| 0 <= j < count implies (#[trigger] seen[j]
                            <==> grown.contains(j as nat)) by {
                            if j == k {
                                assert(grown[found.len() as int] == k as nat);
                            } else if found.contains(j as nat) {
                                let at = choose|at: int|
                                    0 <= at < found.len() && found[at] == j as nat;
                                assert(grown[at] == j as nat);
                            }
                        }
                        assert(Set::new(|n: nat| grown.contains(n)) =~= known.insert(k as nat)) by {
                            assert forall|n: nat| grown.contains(n) implies known.insert(
                                k as nat,
                            ).contains(n) by {
                                let at = choose|at: int| 0 <= at < grown.len() && grown[at] == n;
                                if at < found.len() {
                                    assert(found[at] == n);
                                }
                            }
                            assert forall|n: nat| known.insert(k as nat).contains(
                                n,
                            ) implies grown.contains(n) by {
                                if n == k as nat {
                                    assert(grown[found.len() as int] == n);
                                } else {
                                    let at = choose|at: int|
                                        0 <= at < found.len() && found[at] == n;
                                    assert(grown[at] == n);
                                }
                            }
                        }
                        found = grown;
                    }
                    i = i + len;
                    run = i;
                },
            }
        }
    }
    proof {
        assert(tokens_from(html@, i as int) =~= Seq::<nat>::empty());
        assert(found + Seq::<nat>::empty() =~= found);
        assert(verdict is None);
    }
    let mut k: usize = 0;
    while k < count
        invariant
            k <= count,
            seen.len() == count,
            count == tags.len(),
            tags == tags_of(pair_views(special_tags@)),
            count == pair_views(special_tags@).len(),
            misnamed_from(pair_views(special_tags@), 0) is None,
            found == all_found,
            all_found == tokens_from(html@, 0),
            verdict is None,
            verdict == scan_fault(html@, count as nat, 0, Set::empty()),
            forall|j: int| 0 <= j < count ==> (#[trigger] seen[j] <==> found.contains(j as nat)),
            first_missing(found, count as nat) == missing_from(found, count as nat, k as nat),
        decreases count - k,
    {
        if !seen[k] {
            return Err(IntegrityError::Missing { placeholder: k });
        }
        k += 1;
    }
    let ghost before = out@;
    out.append(html.as_str().substring_char(run, text.len()));
    proof {
        assert(first_missing(found, count as nat) is None);
        assert(restored_from(html@, tags, i as int) =~= Seq::<char>::empty());
        assert(out@ =~= before + html@.subrange(run as int, i as int) + Seq::<char>::empty());
    }
    Ok(out)
}

} // verus!
