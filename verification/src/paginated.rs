//! Paging through a long list: which part of it is shown.
use vstd::prelude::*;

verus! {

/// Where the next page starts (the same place when there is no next page).
pub open spec fn next_index(index: int, length: int, total: int) -> int {
    if index + length < total {
        index + length
    } else {
        index
    }
}

/// Where the previous page starts (the start when there is no full page before).
pub open spec fn prev_index(index: int, length: int) -> int {
    if index >= length {
        index - length
    } else {
        0
    }
}

/// Where going to a position leads: a position past the end shows the last page.
pub open spec fn goto_index(index: int, length: int, total: int) -> int {
    if index > total {
        total - length
    } else {
        index
    }
}

/// The page of a list that is shown: it starts at `index` and holds up to
/// `length` of the `total` items.
pub struct State {
    pub index: usize,
    pub total: usize,
    pub length: usize,
}

impl State {
    /// The first page of a list of `total` items, `length` items a page.
    pub fn new(length: usize, total: usize) -> (r: Self)
        ensures
            r.index == 0,
            r.total == total,
            r.length == length,
    {
        Self { index: 0, total, length }
    }

    /// Moves to the next page if there is one.
    pub fn next_page(&mut self)
        requires
            old(self).index + old(self).length <= usize::MAX,
        ensures
            final(self).total == old(self).total,
            final(self).length == old(self).length,
            final(self).index == next_index(
                old(self).index as int,
                old(self).length as int,
                old(self).total as int,
            ),
    {
        if self.index + self.length < self.total {
            self.index += self.length;
        }
    }

    /// Moves to the previous page, or to the start.
    pub fn prev_page(&mut self)
        ensures
            final(self).total == old(self).total,
            final(self).length == old(self).length,
            final(self).index == prev_index(old(self).index as int, old(self).length as int),
    {
        self.index = self.index.saturating_sub(self.length);
    }

    /// Moves to the given position; a position past the end shows the last page.
    pub fn goto(&mut self, index: usize)
        requires
            index > old(self).total ==> old(self).length <= old(self).total,
        ensures
            final(self).total == old(self).total,
            final(self).length == old(self).length,
            final(self).index == goto_index(
                index as int,
                old(self).length as int,
                old(self).total as int,
            ),
    {
        self.index = if index > self.total {
            self.total - self.length
        } else {
            index
        };
    }

    /// Changes the number of items and goes back to the first page.
    pub fn set_total(&mut self, total: usize)
        ensures
            final(self).total == total,
            final(self).index == 0,
            final(self).length == old(self).length,
    {
        self.total = total;
        self.index = 0;
    }

    /// The number of items.
    pub fn get_total(&self) -> (r: usize)
        ensures
            r == self.total,
    {
        self.total
    }

    /// The items shown: the position of the first and how many there are.
    pub fn page_bounds(&self) -> (r: (usize, usize))
        requires
            self.index <= self.total,
        ensures
            r.0 == self.index,
            r.1 == (if self.index + self.length <= self.total {
                self.length as int
            } else {
                self.total - self.index
            }),
    {
        let count = if self.length <= self.total - self.index {
            self.length
        } else {
            self.total - self.index
        };
        (self.index, count)
    }

    /// Whether there is more than one page (and so page controls are shown).
    pub fn has_pages(&self) -> (r: bool)
        ensures
            r == (self.total > self.length),
    {
        self.total > self.length
    }
}

/// Going to the next page and back returns to the same position when there
/// is a next page.
pub proof fn lemma_next_then_prev(index: int, length: int, total: int)
    requires
        0 <= index,
        0 <= length,
        index + length < total,
    ensures
        prev_index(next_index(index, length, total), length) == index,
{
}

/// Going to any position never leaves the list: the position is at most the number of items.
pub proof fn lemma_goto_stays_in_list(index: int, length: int, total: int)
    requires
        0 <= length,
        index > total ==> length <= total,
    ensures
        goto_index(index, length, total) <= total,
{
}

/// Paging forward never leaves the list when the position is inside it.
pub proof fn lemma_next_stays_in_list(index: int, length: int, total: int)
    requires
        0 <= index <= total,
        0 <= length,
    ensures
        next_index(index, length, total) <= total,
{
}

} // verus!
