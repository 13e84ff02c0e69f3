//! Selection in lists, tables and tabs: one row or none, moved by steps that
//! wrap around or by jumps that stop at the ends.

use vstd::prelude::*;

verus! {

/// The row after `selected` among `len` rows, the first after the last; the
/// first where none is selected.
pub open spec fn next_row(selected: Option<usize>, len: nat) -> usize {
    match selected {
        Some(i) => if i + 1 < len {
            (i + 1) as usize
        } else {
            0
        },
        None => 0,
    }
}

/// The row before `selected` among `len` rows, the last before the first;
/// the first where none is selected.
pub open spec fn previous_row(selected: Option<usize>, len: nat) -> usize {
    match selected {
        Some(i) => if i > 0 {
            (i - 1) as usize
        } else if len > 0 {
            (len - 1) as usize
        } else {
            0
        },
        None => 0,
    }
}

/// The row `step` rows after `selected` among `len` rows, but no further
/// than the last; the first where none is selected.
pub open spec fn row_ahead(selected: Option<usize>, step: usize, len: nat) -> usize {
    match selected {
        Some(i) => if len == 0 {
            0
        } else if i + step < len {
            (i + step) as usize
        } else {
            (len - 1) as usize
        },
        None => 0,
    }
}

/// The row `step` rows before `selected`, but no further than the first; the
/// first where none is selected.
pub open spec fn row_back(selected: Option<usize>, step: usize) -> usize {
    match selected {
        Some(i) => if step > i {
            0
        } else {
            (i - step) as usize
        },
        None => 0,
    }
}

/// Computes `next_row` for a list of `len` rows.
pub fn step_forward(selected: Option<usize>, len: usize) -> (row: usize)
    ensures
        row == next_row(selected, len as nat),
{
    match selected {
        Some(i) => if i < len && i + 1 < len {
            i + 1
        } else {
            0
        },
        None => 0,
    }
}

/// Computes `previous_row` for a list of `len` rows.
pub fn step_backward(selected: Option<usize>, len: usize) -> (row: usize)
    ensures
        row == previous_row(selected, len as nat),
{
    match selected {
        Some(i) => if i > 0 {
            i - 1
        } else if len > 0 {
            len - 1
        } else {
            0
        },
        None => 0,
    }
}

/// Computes `row_ahead` for a list of `len` rows.
pub fn jump_ahead(selected: Option<usize>, step: usize, len: usize) -> (row: usize)
    ensures
        row == row_ahead(selected, step, len as nat),
{
    match selected {
        Some(i) => if len == 0 {
            0
        } else if i < len && step < len - i {
            i + step
        } else {
            len - 1
        },
        None => 0,
    }
}

/// Computes `row_back`.
pub fn jump_back(selected: Option<usize>, step: usize) -> (row: usize)
    ensures
        row == row_back(selected, step),
{
    match selected {
        Some(i) => if step > i {
            0
        } else {
            i - step
        },
        None => 0,
    }
}

/// Which row of a table is selected, if any.
#[derive(Debug, Clone, Copy)]
pub struct TableState {
    selected: Option<usize>,
}

impl View for TableState {
    type V = Option<usize>;

    closed spec fn view(&self) -> Option<usize> {
        self.selected
    }
}

impl Default for TableState {
    fn default() -> (state: TableState)
        ensures
            state@.is_none(),
    {
        TableState { selected: None }
    }
}

impl TableState {
    /// The selected row.
    pub fn selected(&self) -> (row: Option<usize>)
        ensures
            row == self@,
    {
        self.selected
    }

    /// Selects `row`, or no row.
    pub fn select(&mut self, row: Option<usize>)
        ensures
            final(self)@ == row,
    {
        self.selected = row;
    }
}

/// Which row of a list is selected, if any.
#[derive(Debug, Clone, Copy)]
pub struct ListState {
    selected: Option<usize>,
}

impl View for ListState {
    type V = Option<usize>;

    closed spec fn view(&self) -> Option<usize> {
        self.selected
    }
}

impl Default for ListState {
    fn default() -> (state: ListState)
        ensures
            state@.is_none(),
    {
        ListState { selected: None }
    }
}

impl ListState {
    /// The selected row.
    pub fn selected(&self) -> (row: Option<usize>)
        ensures
            row == self@,
    {
        self.selected
    }

    /// Selects `row`, or no row.
    pub fn select(&mut self, row: Option<usize>)
        ensures
            final(self)@ == row,
    {
        self.selected = row;
    }
}

/// A row of tabs, one of them current.
pub struct TabsState<'a> {
    pub titles: Vec<&'a str>,
    pub index: usize,
}

impl<'a> TabsState<'a> {
    /// Tabs with these titles, the first one current.
    pub fn new(titles: Vec<&'a str>) -> (tabs: TabsState<'a>)
        ensures
            tabs.titles == titles,
            tabs.index == 0,
    {
        TabsState { titles, index: 0 }
    }

    /// Makes the tab after the current one current, the first after the
    /// last. Without tabs nothing changes.
    pub fn next(&mut self)
        ensures
            final(self).titles == old(self).titles,
            old(self).titles.len() == 0 ==> final(self).index == old(self).index,
            old(self).titles.len() > 0 ==> final(self).index == (old(self).index + 1) % (old(
                self,
            ).titles.len() as int),
    {
        let len = self.titles.len();
        if len > 0 {
            let at = self.index % len;
            proof {
                lemma_successor_mod(self.index as int, len as int);
            }
            self.index = if at + 1 == len {
                0
            } else {
                at + 1
            };
        }
    }

    /// Makes the tab before the current one current, the last before the
    /// first. Without tabs nothing changes.
    pub fn previous(&mut self)
        ensures
            final(self).titles == old(self).titles,
            final(self).index == if old(self).index > 0 {
                old(self).index - 1
            } else if old(self).titles.len() > 0 {
                old(self).titles.len() - 1
            } else {
                0
            },
    {
        if self.index > 0 {
            self.index -= 1;
        } else if self.titles.len() > 0 {
            self.index = self.titles.len() - 1;
        }
    }
}

/// The remainder of a successor, from the remainder of the number.
proof fn lemma_successor_mod(i: int, n: int)
    requires
        0 <= i,
        0 < n,
    ensures
        (i + 1) % n == if i % n + 1 == n {
            0
        } else {
            i % n + 1
        },
{
    vstd::arithmetic::div_mod::lemma_fundamental_div_mod(i, n);
    vstd::arithmetic::div_mod::lemma_mod_bound(i, n);
    let q = i / n;
    let r = i % n;
    if r + 1 == n {
        assert(i + 1 == (q + 1) * n + 0) by (nonlinear_arith)
            requires
                i == n * q + r,
                r + 1 == n,
        ;
        vstd::arithmetic::div_mod::lemma_fundamental_div_mod_converse(i + 1, n, q + 1, 0);
    } else {
        assert(i + 1 == q * n + (r + 1)) by (nonlinear_arith)
            requires
                i == n * q + r,
        ;
        vstd::arithmetic::div_mod::lemma_fundamental_div_mod_converse(i + 1, n, q, r + 1);
    }
}

/// A list of items, one of them selected or none.
pub struct StatefulList<T> {
    pub state: ListState,
    pub items: Vec<T>,
}

impl<T> StatefulList<T> {
    /// An empty list without selection.
    pub fn new() -> (list: StatefulList<T>)
        ensures
            list.state@.is_none(),
            list.items@ == Seq::<T>::empty(),
    {
        StatefulList { state: ListState::default(), items: Vec::new() }
    }

    /// A list of `items` without selection.
    pub fn with_items(items: Vec<T>) -> (list: StatefulList<T>)
        ensures
            list.state@.is_none(),
            list.items == items,
    {
        StatefulList { state: ListState::default(), items }
    }

    /// Replaces the items. The selection stays where it is.
    pub fn set_items(&mut self, items: Vec<T>)
        ensures
            final(self).items == items,
            final(self).state == old(self).state,
    {
        self.items = items;
    }

    /// Selects the next item, the first after the last.
    pub fn next(&mut self)
        ensures
            final(self).items == old(self).items,
            final(self).state@ == Some(next_row(old(self).state@, old(self).items.len() as nat)),
    {
        let row = step_forward(self.state.selected(), self.items.len());
        self.state.select(Some(row));
    }

    /// Selects the item before, the last before the first.
    pub fn previous(&mut self)
        ensures
            final(self).items == old(self).items,
            final(self).state@ == Some(
                previous_row(old(self).state@, old(self).items.len() as nat),
            ),
    {
        let row = step_backward(self.state.selected(), self.items.len());
        self.state.select(Some(row));
    }

    /// Drops the selection.
    pub fn unselect(&mut self)
        ensures
            final(self).items == old(self).items,
            final(self).state@.is_none(),
    {
        self.state.select(None);
    }
}

} // verus!
