//! The table of rows that the item list is shown in, and the cutting of a
//! text at the matches of a search.

use crate::search::{pattern_finds, well_placed, Query};
use crate::text::chars_of;
use crate::ui::{
    jump_ahead, jump_back, next_row, previous_row, row_ahead, row_back, step_backward,
    step_forward, TableState,
};
use vstd::prelude::*;
use vstd::string::*;
use vstd::utf8::{
    encode_utf8_valid_utf8, is_char_boundary, is_char_boundary_iff_not_is_continuation_byte,
    is_char_boundary_start_end_of_seq, valid_utf8, valid_utf8_split,
};

verus! {

/// A table of text rows, one of them selected or none.
pub struct StatefulTable {
    pub state: TableState,
    pub items: Vec<Vec<String>>,
}

impl StatefulTable {
    /// An empty table without selection.
    pub fn new() -> (table: StatefulTable)
        ensures
            table.state@.is_none(),
            table.items@ == Seq::<Vec<String>>::empty(),
    {
        StatefulTable { state: TableState::default(), items: Vec::new() }
    }

    /// Selects the next row, the first after the last.
    pub fn next(&mut self)
        ensures
            final(self).items == old(self).items,
            final(self).state@ == Some(next_row(old(self).state@, old(self).items.len() as nat)),
    {
        let row = step_forward(self.state.selected(), self.items.len());
        self.state.select(Some(row));
    }

    /// Selects the row `n` rows further on, or the last row if there are
    /// fewer.
    pub fn jump_forward(&mut self, n: usize)
        ensures
            final(self).items == old(self).items,
            final(self).state@ == Some(
                row_ahead(old(self).state@, n, old(self).items.len() as nat),
            ),
    {
        let row = jump_ahead(self.state.selected(), n, self.items.len());
        self.state.select(Some(row));
    }

    /// Selects the row `n` rows back, or the first row if there are fewer.
    pub fn jump_backward(&mut self, n: usize)
        ensures
            final(self).items == old(self).items,
            final(self).state@ == Some(row_back(old(self).state@, n)),
    {
        let row = jump_back(self.state.selected(), n);
        self.state.select(Some(row));
    }

    /// Selects the row before, the last before the first.
    pub fn previous(&mut self)
        ensures
            final(self).items == old(self).items,
            final(self).state@ == Some(
                previous_row(old(self).state@, old(self).items.len() as nat),
            ),
    {
        let row = step_backward(self.state.selected(), self.items.len());
        self.state.select(Some(row));
    }

    /// Replaces the rows. The selection stays where it is.
    pub fn set_items(&mut self, items: Vec<Vec<String>>)
        ensures
            final(self).items == items,
            final(self).state == old(self).state,
    {
        self.items = items;
    }
}

/// How many line feeds a text holds.
pub open spec fn line_feeds(text: Seq<char>) -> nat {
    text.filter(|c: char| c == '\n').len()
}

/// The greatest number of line feeds in a cell of the row.
pub open spec fn most_line_feeds(row: Seq<Seq<char>>) -> nat
    decreases row.len(),
{
    if row.len() == 0 {
        0
    } else if line_feeds(row.last()) > most_line_feeds(row.drop_last()) {
        line_feeds(row.last())
    } else {
        most_line_feeds(row.drop_last())
    }
}

/// How many lines a row takes on the screen: one more than the line feeds
/// of the cell that holds most of them, as far as lines can be counted; two
/// for a row without cells.
pub open spec fn height_of(row: Seq<Seq<char>>) -> nat {
    if row.len() == 0 {
        2
    } else if most_line_feeds(row) >= usize::MAX {
        usize::MAX as nat
    } else {
        most_line_feeds(row) + 1
    }
}

/// Counts the line feeds of a text.
fn count_line_feeds(text: &str) -> (count: usize)
    ensures
        count == line_feeds(text@),
{
    let chars = chars_of(text);
    let ghost feed = |c: char| c == '\n';
    let mut count: usize = 0;
    let mut i: usize = 0;
    while i < chars.len()
        invariant
            i <= chars.len(),
            chars@ == text@,
            feed == |c: char| c == '\n',
            count == chars@.take(i as int).filter(feed).len(),
            count <= i,
        decreases chars.len() - i,
    {
        proof {
            reveal(Seq::filter);
            assert(chars@.take(i + 1).drop_last() =~= chars@.take(i as int));
        }
        if chars[i] == '\n' {
            count += 1;
        }
        i += 1;
    }
    assert(chars@.take(chars.len() as int) =~= chars@);
    count
}

/// How many lines a row takes on the screen.
pub fn row_height(row: &Vec<String>) -> (height: usize)
    ensures
        height == height_of(row.deep_view()),
{
    if row.len() == 0 {
        return 2;
    }
    let ghost cells = row.deep_view();
    let mut most: usize = 0;
    let mut i: usize = 0;
    assert(cells.take(0) =~= Seq::<Seq<char>>::empty());
    while i < row.len()
        invariant
            i <= row.len(),
            cells == row.deep_view(),
            most == most_line_feeds(cells.take(i as int)),
        decreases row.len() - i,
    {
        proof {
            assert(cells.take(i + 1).drop_last() =~= cells.take(i as int));
            assert(cells.take(i + 1).last() == cells[i as int]);
        }
        let count = count_line_feeds(row[i].as_str());
        if count > most {
            most = count;
        }
        i += 1;
    }
    assert(cells.take(row.len() as int) =~= cells);
    if most == usize::MAX {
        usize::MAX
    } else {
        most + 1
    }
}

/// A piece of a text: the bytes from `start` up to `end`, and whether the
/// piece is a match.
#[derive(Debug, Clone, Copy, PartialEq, Eq, Structural)]
pub struct Cut {
    pub start: usize,
    pub end: usize,
    pub matched: bool,
}

/// Where the last of the ranges ends; the start of the text without ranges.
pub open spec fn end_of(ranges: Seq<(usize, usize)>) -> usize {
    if ranges.len() == 0 {
        0
    } else {
        ranges.last().1
    }
}

/// The pieces up to the end of the last range: each range as a match, and
/// before it what lies between it and the range before, unless nothing does.
pub open spec fn cuts_up_to(ranges: Seq<(usize, usize)>) -> Seq<Cut>
    decreases ranges.len(),
{
    if ranges.len() == 0 {
        Seq::empty()
    } else {
        let before = ranges.drop_last();
        let range = ranges.last();
        let gap = if end_of(before) != range.0 {
            seq![Cut { start: end_of(before), end: range.0, matched: false }]
        } else {
            Seq::empty()
        };
        cuts_up_to(before) + gap + seq![Cut { start: range.0, end: range.1, matched: true }]
    }
}

/// The pieces of a text of `len` bytes: those up to the end of the last
/// range, and what is left after it, unless nothing is.
pub open spec fn cuts_of(ranges: Seq<(usize, usize)>, len: usize) -> Seq<Cut> {
    cuts_up_to(ranges) + if end_of(ranges) < len {
        seq![Cut { start: end_of(ranges), end: len, matched: false }]
    } else {
        Seq::empty()
    }
}

/// The piece lies within `bytes`, on character boundaries.
pub open spec fn cut_fits(cut: Cut, bytes: Seq<u8>) -> bool {
    &&& cut.start <= cut.end <= bytes.len()
    &&& is_char_boundary(bytes, cut.start as int)
    &&& is_char_boundary(bytes, cut.end as int)
}

/// The pieces made of ranges that lie well in a text lie well in it too,
/// follow each other without a gap from the start of the text to its end,
/// and none of them is empty unless it is a match.
pub proof fn lemma_cuts_fit(ranges: Seq<(usize, usize)>, bytes: Seq<u8>)
    requires
        valid_utf8(bytes),
        bytes.len() <= usize::MAX,
        well_placed(ranges, bytes),
    ensures
        forall|k: int|
            0 <= k < cuts_of(ranges, bytes.len() as usize).len() ==> cut_fits(
                #[trigger] cuts_of(ranges, bytes.len() as usize)[k],
                bytes,
            ),
        forall|k: int|
            0 <= k < cuts_of(ranges, bytes.len() as usize).len() ==> (#[trigger] cuts_of(
                ranges,
                bytes.len() as usize,
            )[k]).matched || cuts_of(ranges, bytes.len() as usize)[k].start < cuts_of(
                ranges,
                bytes.len() as usize,
            )[k].end,
        forall|k: int|
            0 <= k < cuts_of(ranges, bytes.len() as usize).len() - 1 ==> (#[trigger] cuts_of(
                ranges,
                bytes.len() as usize,
            )[k]).end == cuts_of(ranges, bytes.len() as usize)[k + 1].start,
        bytes.len() > 0 ==> cuts_of(ranges, bytes.len() as usize).len() > 0,
        cuts_of(ranges, bytes.len() as usize).len() > 0 ==> cuts_of(
            ranges,
            bytes.len() as usize,
        )[0].start == 0 && cuts_of(ranges, bytes.len() as usize).last().end == bytes.len(),
{
    lemma_cuts_up_to(ranges, bytes);
    is_char_boundary_start_end_of_seq(bytes);
    let all = cuts_of(ranges, bytes.len() as usize);
    let first = cuts_up_to(ranges);
    if ranges.len() > 0 {
        assert(ranges[ranges.len() - 1].1 <= bytes.len());
    }
    assert forall|k: int| 0 <= k < all.len() implies cut_fits(#[trigger] all[k], bytes) && (
    all[k].matched || all[k].start < all[k].end) by {
        if k < first.len() {
            assert(all[k] == first[k]);
        }
    }
    assert forall|k: int| 0 <= k < all.len() - 1 implies (#[trigger] all[k]).end == all[k
        + 1].start by {
        assert(all[k] == first[k]);
        if k + 1 < first.len() {
            assert(all[k + 1] == first[k + 1]);
        }
    }
    if all.len() > 0 && first.len() > 0 {
        assert(all[0] == first[0]);
    }
}

/// The pieces up to the end of the last range lie well in the text, start at
/// its start, follow each other without a gap and end where the last range
/// ends.
proof fn lemma_cuts_up_to(ranges: Seq<(usize, usize)>, bytes: Seq<u8>)
    requires
        valid_utf8(bytes),
        well_placed(ranges, bytes),
    ensures
        forall|k: int|
            0 <= k < cuts_up_to(ranges).len() ==> cut_fits(#[trigger] cuts_up_to(ranges)[k], bytes),
        forall|k: int|
            0 <= k < cuts_up_to(ranges).len() ==> (#[trigger] cuts_up_to(ranges)[k]).matched
                || cuts_up_to(ranges)[k].start < cuts_up_to(ranges)[k].end,
        forall|k: int|
            0 <= k < cuts_up_to(ranges).len() - 1 ==> (#[trigger] cuts_up_to(ranges)[k]).end
                == cuts_up_to(ranges)[k + 1].start,
        cuts_up_to(ranges).len() > 0 ==> cuts_up_to(ranges)[0].start == 0 && cuts_up_to(
            ranges,
        ).last().end == end_of(ranges),
        ranges.len() > 0 ==> cuts_up_to(ranges).len() > 0,
    decreases ranges.len(),
{
    is_char_boundary_start_end_of_seq(bytes);
    if ranges.len() > 0 {
        let before = ranges.drop_last();
        let range = ranges.last();
        let n = ranges.len() - 1;
        assert(range == ranges[n]);
        assert forall|i: int| 0 <= i < before.len() implies {
            &&& (#[trigger] before[i]).0 <= before[i].1 <= bytes.len()
            &&& is_char_boundary(bytes, before[i].0 as int)
            &&& is_char_boundary(bytes, before[i].1 as int)
        } by {
            assert(before[i] == ranges[i]);
        }
        assert forall|i: int| 0 <= i < before.len() - 1 implies (#[trigger] before[i]).1
            <= before[i + 1].0 by {
            assert(before[i] == ranges[i]);
            assert(before[i + 1] == ranges[i + 1]);
        }
        lemma_cuts_up_to(before, bytes);
        let earlier = cuts_up_to(before);
        let all = cuts_up_to(ranges);
        if before.len() > 0 {
            assert(before.last() == ranges[n - 1]);
            assert(ranges[n - 1].1 <= ranges[n].0);
        }
        let gap = if end_of(before) != range.0 {
            seq![Cut { start: end_of(before), end: range.0, matched: false }]
        } else {
            Seq::<Cut>::empty()
        };
        assert(all == earlier + gap + seq![Cut { start: range.0, end: range.1, matched: true }]);
        assert forall|k: int| 0 <= k < all.len() implies cut_fits(#[trigger] all[k], bytes) && (
        all[k].matched || all[k].start < all[k].end) by {
            if k < earlier.len() {
                assert(all[k] == earlier[k]);
            }
        }
        assert forall|k: int| 0 <= k < all.len() - 1 implies (#[trigger] all[k]).end == all[k
            + 1].start by {
            if k < earlier.len() {
                assert(all[k] == earlier[k]);
            }
            if k + 1 < earlier.len() {
                assert(all[k + 1] == earlier[k + 1]);
            }
        }
        if earlier.len() > 0 {
            assert(all[0] == earlier[0]);
        }
    }
}

/// Cuts a text of `len` bytes into pieces at the ranges.
pub fn cuts(ranges: &Vec<(usize, usize)>, len: usize) -> (pieces: Vec<Cut>)
    ensures
        pieces@ == cuts_of(ranges@, len),
{
    let mut pieces: Vec<Cut> = Vec::new();
    let mut last: usize = 0;
    let mut i: usize = 0;
    assert(ranges@.take(0) =~= Seq::<(usize, usize)>::empty());
    while i < ranges.len()
        invariant
            i <= ranges.len(),
            last == end_of(ranges@.take(i as int)),
            pieces@ == cuts_up_to(ranges@.take(i as int)),
        decreases ranges.len() - i,
    {
        proof {
            assert(ranges@.take(i + 1).drop_last() =~= ranges@.take(i as int));
            assert(ranges@.take(i + 1).last() == ranges@[i as int]);
        }
        let (start, end) = ranges[i];
        if last != start {
            pieces.push(Cut { start: last, end: start, matched: false });
        }
        pieces.push(Cut { start, end, matched: true });
        last = end;
        i += 1;
    }
    assert(ranges@.take(ranges.len() as int) =~= ranges@);
    if last < len {
        pieces.push(Cut { start: last, end: len, matched: false });
    }
    pieces
}

/// The bytes of `text` from `from` up to `to`, as text.
fn slice<'a>(text: &'a str, from: usize, to: usize) -> (part: &'a str)
    requires
        from <= to <= text.spec_bytes().len(),
        is_char_boundary(text.spec_bytes(), from as int),
        is_char_boundary(text.spec_bytes(), to as int),
    ensures
        part.spec_bytes() == text.spec_bytes().subrange(from as int, to as int),
{
    let ghost bytes = text.spec_bytes();
    proof {
        encode_utf8_valid_utf8(text@);
        valid_utf8_split(bytes, to as int);
    }
    let (head, _) = text.split_at(to);
    proof {
        let first = bytes.subrange(0, to as int);
        assert(head.spec_bytes() == first);
        if from < to {
            is_char_boundary_iff_not_is_continuation_byte(bytes, from as int);
            is_char_boundary_iff_not_is_continuation_byte(first, from as int);
        } else {
            is_char_boundary_start_end_of_seq(first);
        }
    }
    let (_, part) = head.split_at(from);
    assert(part.spec_bytes() =~= bytes.subrange(from as int, to as int));
    part
}

/// Splits a text at the matches of a query, keeping the matches: the pieces
/// of the text in order, each with the mark of a match or of what lies
/// between matches. Every byte of the text is in exactly one piece.
pub fn split_keep<'a>(query: &Query, text: &'a str) -> (parts: Vec<(&'a str, bool)>)
    ensures
        parts.len() == cuts_of(
            pattern_finds(query@, text@),
            text.spec_bytes().len() as usize,
        ).len(),
        forall|k: int|
            0 <= k < parts.len() ==> {
                let cut = cuts_of(
                    pattern_finds(query@, text@),
                    text.spec_bytes().len() as usize,
                )[k];
                &&& (#[trigger] parts[k]).0.spec_bytes() == text.spec_bytes().subrange(
                    cut.start as int,
                    cut.end as int,
                )
                &&& parts[k].1 == cut.matched
            },
{
    let ghost bytes = text.spec_bytes();
    let len = text.as_bytes().len();
    let found = query.find_all(text);
    let pieces = cuts(&found, len);
    proof {
        encode_utf8_valid_utf8(text@);
        lemma_cuts_fit(found@, bytes);
    }
    let mut parts: Vec<(&'a str, bool)> = Vec::new();
    let mut k: usize = 0;
    while k < pieces.len()
        invariant
            k <= pieces.len(),
            bytes == text.spec_bytes(),
            forall|j: int| 0 <= j < pieces.len() ==> cut_fits(#[trigger] pieces@[j], bytes),
            parts.len() == k,
            forall|j: int|
                0 <= j < k ==> (#[trigger] parts[j]).0.spec_bytes() == bytes.subrange(
                    pieces@[j].start as int,
                    pieces@[j].end as int,
                ) && parts[j].1 == pieces@[j].matched,
        decreases pieces.len() - k,
    {
        let cut = pieces[k];
        assert(cut_fits(pieces@[k as int], bytes));
        parts.push((slice(text, cut.start, cut.end), cut.matched));
        k += 1;
    }
    parts
}

} // verus!
