//! Placeholders that are put in and taken out again leave the text as it
//! was.

use vstd::prelude::*;
use crate::text::{decimal, digit_char};
use crate::filetypes::markup::{
    digit_value, is_digit, lemma_digits_at, lemma_digits_fit, lemma_none_misnamed,
    lemma_none_missing, mapping_of, misnamed_from, missing_from, needs_mark, number, occurs_at,
    placeholder, placeholder_prefix, protected, protected_from, restore_outcome, restored_from,
    scan_fault, special_tags, special_tags_from, tag_len, tags_of, token_len, token_number,
    tokens_from, written_placeholder, IntegrityError, CLOSING_MARK,
};

verus! {

/// The prefix of the placeholders stands nowhere in the text.
pub open spec fn shows_no_placeholder(text: Seq<char>) -> bool {
    forall|p: int| !occurs_at(text, placeholder_prefix(), p)
}

/// The numbers from `from` up to, and without, `to`.
pub open spec fn numbers(from: int, to: int) -> Seq<nat> {
    Seq::new((to - from) as nat, |j: int| (from + j) as nat)
}

/// What the prefix of the placeholders is made of.
proof fn lemma_prefix()
    ensures
        placeholder_prefix().len() == 12,
        placeholder_prefix()[0] == 'S',
        forall|d: int| 0 < d < 12 ==> placeholder_prefix()[d] != 'S',
        forall|d: int| 0 <= d < 12 ==> !is_digit(placeholder_prefix()[d]),
        !is_digit('S'),
        !is_digit(CLOSING_MARK),
{
    reveal_strlit("SPECIAL_TAG_");
}

/// A number in decimal is made of digits, at least one, and writes that
/// number.
pub proof fn lemma_decimal(n: nat)
    ensures
        decimal(n).len() > 0,
        forall|j: int| 0 <= j < decimal(n).len() ==> is_digit(#[trigger] decimal(n)[j]),
        number(decimal(n)) == n,
    decreases n,
{
    assert(is_digit(digit_char(n % 10)) && digit_value(digit_char(n % 10)) == n % 10);
    if n < 10 {
        assert(decimal(n).drop_last() =~= Seq::<char>::empty());
        assert(number(decimal(n)) == number(Seq::<char>::empty()) * 10 + n);
    } else {
        lemma_decimal(n / 10);
        assert(decimal(n).drop_last() =~= decimal(n / 10));
    }
}

/// Placeholders with different numbers differ.
pub proof fn lemma_placeholders_differ(a: nat, b: nat)
    requires
        a != b,
    ensures
        placeholder(a) != placeholder(b),
{
    lemma_prefix();
    lemma_decimal(a);
    lemma_decimal(b);
    if placeholder(a) == placeholder(b) {
        assert(placeholder(a).skip(12) =~= decimal(a));
        assert(placeholder(b).skip(12) =~= decimal(b));
    }
}

/// A placeholder as it is written begins with the first character of the
/// prefix.
proof fn lemma_written_head(text: Seq<char>, k: nat, behind: int)
    ensures
        written_placeholder(text, k, behind).len() >= placeholder(k).len(),
        placeholder(k).len() > 12,
        written_placeholder(text, k, behind)[0] == 'S',
{
    lemma_prefix();
    lemma_decimal(k);
}

/// Where the prefix of the placeholders stands at the front of what is left
/// of the protected text, and no tag begins at position `i`, the next `d`
/// characters of the text are left as they are and are those of the
/// prefix.
proof fn lemma_plain_window(text: Seq<char>, i: int, k: nat, d: int)
    requires
        0 <= i,
        0 <= d <= 12,
        tag_len(text, i) == 0,
        occurs_at(protected_from(text, i, k), placeholder_prefix(), 0),
    ensures
        i + d <= text.len(),
        protected_from(text, i, k) == text.subrange(i, i + d) + protected_from(text, i + d, k),
        text.subrange(i, i + d) == placeholder_prefix().subrange(0, d),
    decreases d,
{
    lemma_prefix();
    let whole = protected_from(text, i, k);
    let prefix = placeholder_prefix();
    assert(whole.subrange(0, 12) == prefix);
    if d == 0 {
        assert(text.subrange(i, i) + whole =~= whole);
        assert(text.subrange(i, i) =~= prefix.subrange(0, 0));
    } else {
        lemma_plain_window(text, i, k, d - 1);
        let at = i + d - 1;
        let rest = protected_from(text, at, k);
        assert(whole == text.subrange(i, at) + rest);
        assert(whole.len() >= 12);
        assert(rest.len() > 0);
        assert(whole[d - 1] == rest[0]);
        assert(whole.subrange(0, 12)[d - 1] == whole[d - 1]);
        assert(rest[0] == prefix[d - 1]);
        if tag_len(text, at) > 0 {
            lemma_written_head(text, k, at + tag_len(text, at));
            assert(rest[0] == 'S');
        }
        assert(rest == seq![text[at]] + protected_from(text, at + 1, k));
        assert(text.subrange(i, at) + (seq![text[at]] + protected_from(text, at + 1, k))
            =~= text.subrange(i, i + d) + protected_from(text, i + d, k));
        assert(text.subrange(i, i + d) =~= prefix.subrange(0, d)) by {
            assert(text.subrange(i, at) == prefix.subrange(0, d - 1));
            assert forall|q: int| 0 <= q < d implies text.subrange(i, i + d)[q] == prefix.subrange(
                0,
                d,
            )[q] by {
                if q < d - 1 {
                    assert(text.subrange(i, at)[q] == prefix.subrange(0, d - 1)[q]);
                }
            }
        }
    }
}

/// What is left of a protected text behind a placeholder that was written
/// without the closing mark begins with nothing that could be taken for a
/// part of the placeholder.
proof fn lemma_protected_head(text: Seq<char>, i: int, k: nat)
    requires
        0 <= i,
        !needs_mark(text, i),
    ensures
        protected_from(text, i, k).len() == 0 || (!is_digit(protected_from(text, i, k)[0])
            && protected_from(text, i, k)[0] != CLOSING_MARK),
{
    lemma_prefix();
    if i < text.len() && tag_len(text, i) > 0 {
        lemma_written_head(text, k, i + tag_len(text, i));
    }
}

/// From position `j` on, the text `whole` is the protected rest of `text`
/// from position `i` on: then putting the tags back from `j` on gives the
/// rest of `text`, the placeholders found are those of the tags from `k` on
/// in their order, and nothing is wrong with them.
proof fn lemma_round_trip_from(
    text: Seq<char>,
    i: int,
    k: nat,
    whole: Seq<char>,
    j: int,
    tags: Seq<Seq<char>>,
    seen: Set<nat>,
)
    requires
        shows_no_placeholder(text),
        0 <= i <= text.len(),
        0 <= j <= whole.len(),
        whole.skip(j) == protected_from(text, i, k),
        k <= tags.len(),
        special_tags_from(text, i) == tags.skip(k as int),
        forall|n: nat| seen.contains(n) ==> n < k,
    ensures
        restored_from(whole, tags, j) == text.skip(i),
        tokens_from(whole, j) == numbers(k as int, tags.len() as int),
        scan_fault(whole, tags.len(), j, seen) is None,
    decreases text.len() - i,
{
    lemma_prefix();
    let here = protected_from(text, i, k);
    assert(whole.len() - j == here.len());
    assert forall|x: int| 0 <= x < here.len() implies whole[j + x] == here[x] by {
        assert(whole.skip(j)[x] == here[x]);
    }
    if i >= text.len() {
        assert(tags.skip(k as int).len() == 0);
        assert(text.skip(i) =~= Seq::<char>::empty());
        assert(numbers(k as int, tags.len() as int) =~= Seq::<nat>::empty());
    } else if tag_len(text, i) == 0 {
        let rest = protected_from(text, i + 1, k);
        assert(here == seq![text[i]] + rest);
        assert(whole.skip(j + 1) =~= rest) by {
            assert forall|x: int| 0 <= x < rest.len() implies whole.skip(j + 1)[x] == rest[x] by {
                assert(here[x + 1] == rest[x]);
                assert(whole[j + (x + 1)] == here[x + 1]);
            }
        }
        assert(!occurs_at(whole, placeholder_prefix(), j)) by {
            if occurs_at(whole, placeholder_prefix(), j) {
                assert(here.subrange(0, 12) =~= whole.subrange(j, j + 12));
                lemma_plain_window(text, i, k, 12);
                assert(placeholder_prefix().subrange(0, 12) =~= placeholder_prefix());
                assert(occurs_at(text, placeholder_prefix(), i));
            }
        }
        assert(token_len(whole, j) == 0);
        lemma_round_trip_from(text, i + 1, k, whole, j + 1, tags, seen);
        assert(whole[j] == text[i]) by {
            assert(here[0] == text[i]);
        }
        assert(seq![text[i]] + text.skip(i + 1) =~= text.skip(i));
    } else {
        let len = tag_len(text, i) as int;
        let behind = i + len;
        let tag = text.subrange(i, behind);
        let token = written_placeholder(text, k, behind);
        let rest = protected_from(text, behind, k + 1);
        let digits = decimal(k);
        let after = j + token.len();
        let end = j + 12 + digits.len();
        lemma_decimal(k);
        assert(here == token + rest);
        assert(tags.skip(k as int) == seq![tag] + special_tags_from(text, behind));
        assert(k < tags.len());
        assert(tags[k as int] == tag) by {
            assert(tags.skip(k as int)[0] == tag);
        }
        assert(special_tags_from(text, behind) =~= tags.skip(k as int + 1)) by {
            let later = special_tags_from(text, behind);
            assert(tags.skip(k as int).len() == later.len() + 1);
            assert forall|x: int| 0 <= x < later.len() implies later[x] == tags.skip(k as int + 1)[x] by {
                assert(tags.skip(k as int)[x + 1] == later[x]);
            }
        }
        assert(whole.skip(after) =~= rest) by {
            assert forall|x: int| 0 <= x < rest.len() implies whole.skip(after)[x] == rest[x] by {
                assert(here[token.len() + x] == rest[x]);
                assert(whole[j + (token.len() + x)] == here[token.len() + x]);
            }
        }
        assert(occurs_at(whole, placeholder_prefix(), j)) by {
            assert forall|x: int| 0 <= x < 12 implies whole.subrange(j, j + 12)[x]
                == placeholder_prefix()[x] by {
                assert(here[x] == token[x]);
                assert(token[x] == placeholder(k)[x]);
            }
            assert(whole.subrange(j, j + 12) =~= placeholder_prefix());
        }
        assert(whole.subrange(j + 12, end) =~= digits) by {
            assert forall|x: int| 0 <= x < digits.len() implies whole.subrange(j + 12, end)[x]
                == digits[x] by {
                assert(here[12 + x] == token[12 + x]);
                assert(token[12 + x] == placeholder(k)[12 + x]);
            }
        }
        assert forall|q: int| j + 12 <= q < end implies is_digit(#[trigger] whole[q]) by {
            assert(whole.subrange(j + 12, end)[q - j - 12] == whole[q]);
        }
        if needs_mark(text, behind) {
            assert(token.len() == 12 + digits.len() + 1);
            assert(whole[end] == CLOSING_MARK) by {
                assert(here[12 + digits.len() as int] == token[12 + digits.len() as int]);
            }
        } else {
            assert(token.len() == 12 + digits.len());
            lemma_protected_head(text, behind, k + 1);
            if end < whole.len() {
                assert(whole.skip(after)[0] == whole[end]);
            }
        }
        lemma_digits_at(whole, j + 12, digits.len() as int);
        assert(token_len(whole, j) == token.len());
        assert(token_number(whole, j) == k);
        lemma_round_trip_from(text, behind, k + 1, whole, after, tags, seen.insert(k));
        assert(tag + text.skip(behind) =~= text.skip(i));
        assert(seq![k] + numbers(k as int + 1, tags.len() as int) =~= numbers(
            k as int,
            tags.len() as int,
        ));
    }
}

/// Where the numbers found are those below `count` in their order, none is
/// missing.
proof fn lemma_all_there(found: Seq<nat>, count: nat, from: nat)
    requires
        found == numbers(0, count as int),
        from <= count,
    ensures
        missing_from(found, count, from) is None,
    decreases count - from,
{
    if from < count {
        assert(found[from as int] == from);
        lemma_all_there(found, count, from + 1);
    }
}

/// The pairs of tags hold the placeholders of their numbers.
proof fn lemma_mapping_is_named(tags: Seq<Seq<char>>, k: int)
    requires
        0 <= k,
    ensures
        misnamed_from(mapping_of(tags), k) is None,
        tags_of(mapping_of(tags)) == tags,
    decreases tags.len() - k,
{
    if k < tags.len() {
        lemma_mapping_is_named(tags, k + 1);
    }
    assert(tags_of(mapping_of(tags)) =~= tags);
}

/// A text whose tags were replaced by placeholders, and nothing else done
/// to it, holds the placeholder of each tag exactly once, in the order of
/// the tags, and putting the tags back gives the text as it was.
///
/// This is so for every text in which the prefix of the placeholders does
/// not stand.
pub proof fn lemma_placeholders_round_trip(text: Seq<char>)
    requires
        shows_no_placeholder(text),
    ensures
        tokens_from(protected(text), 0) == numbers(0, special_tags(text).len() as int),
        restore_outcome(protected(text), mapping_of(special_tags(text))) == Ok::<
            Seq<char>,
            IntegrityError,
        >(text),
{
    let whole = protected(text);
    let tags = special_tags(text);
    assert(whole.skip(0) =~= whole);
    assert(tags.skip(0) =~= tags);
    lemma_round_trip_from(text, 0, 0, whole, 0, tags, Set::empty());
    assert(text.skip(0) =~= text);
    lemma_all_there(tokens_from(whole, 0), tags.len(), 0);
    lemma_mapping_is_named(tags, 0);
}

/// Where putting the tags back goes through, the text held the placeholder
/// of each tag, and no other placeholder.
pub proof fn lemma_sound_text_holds_every_placeholder(
    text: Seq<char>,
    mapping: Seq<(Seq<char>, Seq<char>)>,
)
    requires
        restore_outcome(text, mapping) is Ok,
    ensures
        mapping == mapping_of(tags_of(mapping)),
        forall|k: nat| k < mapping.len() ==> tokens_from(text, 0).contains(k),
        forall|j: int|
            0 <= j < tokens_from(text, 0).len() ==> (#[trigger] tokens_from(text, 0)[j])
                < mapping.len(),
        tokens_from(text, 0).no_duplicates(),
        tokens_from(text, 0).len() == mapping.len(),
{
    lemma_none_misnamed(mapping, 0);
    lemma_scan(text, mapping.len(), 0, Set::empty());
    let found = tokens_from(text, 0);
    lemma_none_missing(found, mapping.len(), 0);
    lemma_cover_len(found, mapping.len());
}

/// Where the scan from position `i` on finds no fault, the placeholders
/// from there on are known, differ from one another, and are not among
/// those seen before.
proof fn lemma_scan(text: Seq<char>, count: nat, i: int, seen: Set<nat>)
    requires
        0 <= i,
        scan_fault(text, count, i, seen) is None,
    ensures
        forall|j: int|
            0 <= j < tokens_from(text, i).len() ==> (#[trigger] tokens_from(text, i)[j]) < count
                && !seen.contains(tokens_from(text, i)[j]),
        tokens_from(text, i).no_duplicates(),
    decreases text.len() - i,
{
    if i >= text.len() {
    } else if token_len(text, i) == 0 {
        lemma_scan(text, count, i + 1, seen);
    } else {
        let k = token_number(text, i);
        let next = i + token_len(text, i);
        if occurs_at(text, placeholder_prefix(), i) {
            lemma_digits_fit(text, i + placeholder_prefix().len());
        }
        lemma_scan(text, count, next, seen.insert(k));
        let rest = tokens_from(text, next);
        let found = tokens_from(text, i);
        assert(found =~= seq![k] + rest);
        assert forall|j: int| 0 <= j < found.len() implies (#[trigger] found[j]) < count
            && !seen.contains(found[j]) by {
            if j > 0 {
                assert(found[j] == rest[j - 1]);
                assert(seen.insert(k).contains(found[j]) || !seen.contains(found[j]));
            }
        }
        assert forall|a: int, b: int| 0 <= a < found.len() && 0 <= b < found.len() && a
            != b implies found[a] != found[b] by {
            if a > 0 && b > 0 {
                assert(rest[a - 1] != rest[b - 1]);
            } else if a == 0 {
                assert(found[b] == rest[b - 1]);
                assert(!seen.insert(k).contains(rest[b - 1]));
            } else {
                assert(found[a] == rest[a - 1]);
                assert(!seen.insert(k).contains(rest[a - 1]));
            }
        }
    }
}

/// Numbers below `count` that differ from one another and leave none out
/// are `count` numbers.
proof fn lemma_cover_len(found: Seq<nat>, count: nat)
    requires
        found.no_duplicates(),
        forall|j: int| 0 <= j < found.len() ==> (#[trigger] found[j]) < count,
        forall|k: nat| k < count ==> found.contains(k),
    ensures
        found.len() == count,
{
    let below = Set::new(|k: nat| k < count);
    assert(found.to_set() =~= below) by {
        assert forall|k: nat| found.to_set().contains(k) implies below.contains(k) by {
            let j = choose|j: int| 0 <= j < found.len() && found[j] == k;
            assert(found[j] < count);
        }
    }
    found.unique_seq_to_set();
    lemma_below_len(count);
}

/// There are `count` numbers below `count`.
proof fn lemma_below_len(count: nat)
    ensures
        Set::new(|k: nat| k < count).finite(),
        Set::new(|k: nat| k < count).len() == count,
    decreases count,
{
    let below = Set::new(|k: nat| k < count);
    if count == 0 {
        assert(below =~= Set::<nat>::empty());
    } else {
        let fewer = Set::new(|k: nat| k < (count - 1) as nat);
        lemma_below_len((count - 1) as nat);
        assert(below =~= fewer.insert((count - 1) as nat));
    }
}

} // verus!
