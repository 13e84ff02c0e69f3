//! Scanning text by characters: positions of a separator and the pieces
//! between its occurrences.

use vstd::prelude::*;
use vstd::std_specs::iter::IteratorSpec;

verus! {

/// The position of the first `c` in `s`, or the length of `s` if it holds none.
pub open spec fn first_index(s: Seq<char>, c: char) -> int
    decreases s.len(),
{
    if s.len() == 0 {
        0
    } else if s[0] == c {
        0
    } else {
        1 + first_index(s.drop_first(), c)
    }
}

/// The pieces of `s` between the occurrences of `sep`, first to last. There
/// is always at least one piece; a piece may be empty.
pub open spec fn split_on(s: Seq<char>, sep: char) -> Seq<Seq<char>>
    decreases s.len(),
{
    let at = first_index(s, sep);
    if 0 <= at < s.len() {
        seq![s.take(at)] + split_on(s.skip(at + 1), sep)
    } else {
        seq![s]
    }
}

/// `first_index` is within the text, finds `c`, and nothing before it is `c`.
pub proof fn lemma_first_index(s: Seq<char>, c: char)
    ensures
        0 <= first_index(s, c) <= s.len(),
        first_index(s, c) < s.len() ==> s[first_index(s, c)] == c,
        forall|k: int| 0 <= k < first_index(s, c) ==> s[k] != c,
    decreases s.len(),
{
    if s.len() > 0 && s[0] != c {
        let rest = s.drop_first();
        lemma_first_index(rest, c);
        assert forall|k: int| 0 <= k < first_index(s, c) implies s[k] != c by {
            if k > 0 {
                assert(s[k] == rest[k - 1]);
            }
        }
    }
}

/// A position that holds `c` with no `c` before it, or the length of a text
/// without `c`, is the `first_index`.
pub proof fn lemma_first_index_is(s: Seq<char>, c: char, at: int)
    requires
        0 <= at <= s.len(),
        at < s.len() ==> s[at] == c,
        forall|k: int| 0 <= k < at ==> s[k] != c,
    ensures
        first_index(s, c) == at,
{
    lemma_first_index(s, c);
}

/// The pieces put together again with `sep` between them.
pub open spec fn joined(pieces: Seq<Seq<char>>, sep: char) -> Seq<char>
    decreases pieces.len(),
{
    if pieces.len() == 0 {
        Seq::empty()
    } else if pieces.len() == 1 {
        pieces[0]
    } else {
        pieces[0] + seq![sep] + joined(pieces.drop_first(), sep)
    }
}

/// Splitting loses nothing and leaves no separator: there is at least one
/// piece, no piece holds `sep`, and the pieces joined by `sep` are the text.
pub proof fn lemma_split_on(s: Seq<char>, sep: char)
    ensures
        split_on(s, sep).len() >= 1,
        forall|k: int| 0 <= k < split_on(s, sep).len() ==> !(#[trigger] split_on(s, sep)[k]).contains(sep),
        joined(split_on(s, sep), sep) == s,
    decreases s.len(),
{
    let at = first_index(s, sep);
    let pieces = split_on(s, sep);
    lemma_first_index(s, sep);
    if at < s.len() {
        let head = s.take(at);
        let rest = s.skip(at + 1);
        let more = split_on(rest, sep);
        lemma_split_on(rest, sep);
        assert(pieces =~= seq![head] + more);
        assert(pieces.drop_first() =~= more);
        assert forall|k: int| 0 <= k < pieces.len() implies !(#[trigger] pieces[k]).contains(
            sep,
        ) by {
            if k == 0 {
                if head.contains(sep) {
                    let j = choose|j: int| 0 <= j < head.len() && head[j] == sep;
                    assert(s[j] == sep);
                }
            } else {
                assert(pieces[k] == more[k - 1]);
            }
        }
        assert(joined(pieces, sep) =~= head + seq![sep] + rest);
        assert(head + seq![sep] + rest =~= s);
    } else {
        assert(pieces =~= seq![s]);
        if s.contains(sep) {
            let j = choose|j: int| 0 <= j < s.len() && s[j] == sep;
            assert(s[j] != sep);
        }
    }
}

/// The characters of `s`, one by one.
pub fn chars_of(s: &str) -> (chars: Vec<char>)
    ensures
        chars@ == s@,
{
    let mut it = s.chars();
    let mut chars: Vec<char> = Vec::new();
    loop
        invariant
            it.obeys_prophetic_iter_laws(),
            it.decrease() is Some,
            chars@ + it.remaining() == s@,
        decreases it.decrease()->0,
    {
        let ghost before = it.remaining();
        match it.next() {
            Some(c) => {
                chars.push(c);
                assert(chars@ + it.remaining() =~= (chars@.drop_last() + before));
            },
            None => {
                assert(chars@ + it.remaining() =~= chars@);
                return chars;
            },
        }
    }
}

/// The position of the first `c` at or after `from`, or the length of
/// `chars` if none follows, as it is for a `from` beyond the end.
pub fn find_from(chars: &Vec<char>, from: usize, c: char) -> (at: usize)
    ensures
        at <= chars.len(),
        from <= chars.len() ==> from <= at && at - from == first_index(
            chars@.skip(from as int),
            c,
        ),
        from > chars.len() ==> at == chars.len(),
{
    if from > chars.len() {
        return chars.len();
    }
    let mut at: usize = from;
    while at < chars.len() && chars[at] != c
        invariant
            from <= at <= chars.len(),
            forall|k: int| from <= k < at ==> chars@[k] != c,
        decreases chars.len() - at,
    {
        at += 1;
    }
    proof {
        lemma_first_index_is(chars@.skip(from as int), c, at - from);
    }
    at
}

/// `needle` stands in `text` at position `at`.
pub open spec fn occurs_at(needle: Seq<char>, text: Seq<char>, at: int) -> bool {
    &&& 0 <= at
    &&& at + needle.len() <= text.len()
    &&& text.subrange(at, at + needle.len()) == needle
}

/// `needle` stands somewhere in `text`. The empty text stands in every text.
pub open spec fn occurs_in(needle: Seq<char>, text: Seq<char>) -> bool {
    exists|at: int| occurs_at(needle, text, at)
}

/// Whether `needle` stands in `text` at position `at`.
fn matches_at(text: &Vec<char>, needle: &Vec<char>, at: usize) -> (found: bool)
    requires
        at + needle.len() <= text.len(),
    ensures
        found == occurs_at(needle@, text@, at as int),
{
    let mut k: usize = 0;
    while k < needle.len()
        invariant
            k <= needle.len(),
            at + needle.len() <= text.len(),
            forall|j: int| 0 <= j < k ==> text@[at + j] == needle@[j],
        decreases needle.len() - k,
    {
        if text[at + k] != needle[k] {
            assert(text@.subrange(at as int, at + needle.len())[k as int] != needle@[k as int]);
            return false;
        }
        k += 1;
    }
    assert(text@.subrange(at as int, at + needle.len()) =~= needle@);
    true
}

/// Whether `needle` stands somewhere in `text`.
pub fn contains_text(text: &str, needle: &str) -> (found: bool)
    ensures
        found == occurs_in(needle@, text@),
{
    let hay = chars_of(text);
    let pin = chars_of(needle);
    if pin.len() > hay.len() {
        return false;
    }
    let last = hay.len() - pin.len();
    let mut at: usize = 0;
    loop
        invariant
            hay@ == text@,
            pin@ == needle@,
            last == hay.len() - pin.len(),
            at <= last,
            forall|k: int| 0 <= k < at ==> !occurs_at(pin@, hay@, k),
        decreases last - at,
    {
        if matches_at(&hay, &pin, at) {
            return true;
        }
        if at == last {
            return false;
        }
        at += 1;
    }
}

/// Whether `wanted` is one of `list`.
pub fn has_text(list: &Vec<String>, wanted: &String) -> (found: bool)
    ensures
        found == list.deep_view().contains(wanted@),
{
    let mut i: usize = 0;
    while i < list.len()
        invariant
            i <= list.len(),
            forall|k: int| 0 <= k < i ==> list.deep_view()[k] != wanted@,
        decreases list.len() - i,
    {
        if list[i] == *wanted {
            assert(list.deep_view()[i as int] == wanted@);
            return true;
        }
        i += 1;
    }
    false
}

} // verus!
