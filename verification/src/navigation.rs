//! Selection and navigation state: the currently displayed results and the
//! selected index, with grid-aware movement that wraps at the edges and a
//! selection that resets whenever the result set is replaced.

use vstd::prelude::*;

use crate::search_mode::SearchResult;

verus! {

/// The column count of the results grid the launcher lays out.
pub const GRID_COLUMNS: usize = 5;

/// A movement command from the keyboard.
#[derive(Debug, Clone, Copy, PartialEq, Eq, Structural)]
pub enum Direction {
    Up,
    Down,
    Left,
    Right,
}

/// Where grid movement lands, for a grid of `cols` columns over `len`
/// entries with `idx` selected: down and up move by a row and wrap to the
/// same column of the top or bottom row (clamped when the bottom row is
/// short), right and left move by one and wrap around the ends. On an empty
/// list every movement stays at zero.
pub open spec fn moved_index(idx: int, len: int, direction: Direction, cols: int) -> int
    recommends
        cols >= 1,
        0 <= idx,
        len == 0 ==> idx == 0,
        len > 0 ==> idx < len,
{
    match direction {
        Direction::Down => if idx + cols < len {
            idx + cols
        } else {
            idx % cols
        },
        Direction::Up => if idx >= cols {
            idx - cols
        } else if len == 0 {
            0
        } else {
            let target = ((len - 1) / cols) * cols + idx % cols;
            if target <= len - 1 {
                target
            } else {
                len - 1
            }
        },
        Direction::Right => if idx < len - 1 {
            idx + 1
        } else {
            0
        },
        Direction::Left => if idx > 0 {
            idx - 1
        } else if len == 0 {
            0
        } else {
            len - 1
        },
    }
}

/// The launcher's selection state: the results on display and which of them
/// is selected.
pub struct SelectionState {
    pub filtered: Vec<SearchResult>,
    pub selected_index: usize,
}

impl SelectionState {
    /// The selected index stays inside the displayed results, and is the
    /// inert zero when nothing is displayed.
    pub open spec fn wf(&self) -> bool {
        if self.filtered@.len() == 0 {
            self.selected_index == 0
        } else {
            (self.selected_index as int) < self.filtered@.len()
        }
    }

    /// Fresh state: nothing displayed, nothing selected.
    pub fn new() -> (s: Self)
        ensures
            s.wf(),
            s.filtered@ =~= Seq::<SearchResult>::empty(),
            s.selected_index == 0,
    {
        SelectionState { filtered: Vec::new(), selected_index: 0 }
    }

    /// Replaces the displayed results wholesale and resets the selection to
    /// the first entry.
    pub fn on_query_changed(&mut self, new_filtered: Vec<SearchResult>)
        ensures
            final(self).wf(),
            final(self).filtered@ == new_filtered@,
            final(self).selected_index == 0,
    {
        self.filtered = new_filtered;
        self.selected_index = 0;
    }

    /// Pointer-driven selection: the index is set directly, without
    /// wraparound logic. The host only reports hovers over displayed rows.
    pub fn hover(&mut self, index: usize)
        requires
            old(self).wf(),
            index < old(self).filtered@.len(),
        ensures
            final(self).wf(),
            final(self).filtered@ == old(self).filtered@,
            final(self).selected_index == index,
    {
        self.selected_index = index;
    }

    /// Applies one grid movement to the selection. Movement on an empty
    /// result list is a no-op.
    pub fn move_selection(&mut self, direction: Direction, grid_columns: usize)
        requires
            old(self).wf(),
            grid_columns >= 1,
            old(self).filtered@.len() + grid_columns <= usize::MAX,
        ensures
            final(self).wf(),
            final(self).filtered@ == old(self).filtered@,
            final(self).selected_index as int == moved_index(
                old(self).selected_index as int,
                old(self).filtered@.len() as int,
                direction,
                grid_columns as int,
            ),
    {
        let len = self.filtered.len();
        let idx = self.selected_index;
        let cols = grid_columns;
        proof {
            if len > 0 {
                vstd::arithmetic::div_mod::lemma_mod_decreases(idx as nat, cols as nat);
            }
            assert(0 <= (idx as int) % (cols as int) < cols as int) by {
                vstd::arithmetic::div_mod::lemma_mod_bound(idx as int, cols as int);
            }
            if idx < cols {
                vstd::arithmetic::div_mod::lemma_small_mod(idx as nat, cols as nat);
            }
            if len > 0 {
                assert(((len - 1) as int / cols as int) * cols as int <= (len - 1) as int) by {
                    vstd::arithmetic::div_mod::lemma_fundamental_div_mod(
                        (len - 1) as int,
                        cols as int,
                    );
                    vstd::arithmetic::div_mod::lemma_mod_bound((len - 1) as int, cols as int);
                }
            }
        }
        match direction {
            Direction::Down => {
                let moved_down = idx + cols;
                if moved_down < len {
                    self.selected_index = moved_down;
                } else {
                    self.selected_index = idx % cols;
                }
            },
            Direction::Up => {
                if idx >= cols {
                    self.selected_index = idx - cols;
                } else if len == 0 {
                    self.selected_index = 0;
                } else {
                    let last_row_start = ((len - 1) / cols) * cols;
                    let target = last_row_start + idx % cols;
                    let limit = len - 1;
                    self.selected_index = if target < limit {
                        target
                    } else {
                        limit
                    };
                }
            },
            Direction::Right => {
                let limit = if len == 0 {
                    0
                } else {
                    len - 1
                };
                if idx < limit {
                    self.selected_index = idx + 1;
                } else {
                    self.selected_index = 0;
                }
            },
            Direction::Left => {
                if idx > 0 {
                    self.selected_index = idx - 1;
                } else if len == 0 {
                    self.selected_index = 0;
                } else {
                    self.selected_index = len - 1;
                }
            },
        }
    }

    /// The currently selected result, if anything is displayed.
    pub fn selected(&self) -> (r: Option<&SearchResult>)
        requires
            self.wf(),
        ensures
            self.filtered@.len() == 0 ==> r is None,
            self.filtered@.len() > 0 ==> r == Some(
                &self.filtered@[self.selected_index as int],
            ),
    {
        if self.filtered.len() == 0 {
            None
        } else {
            Some(&self.filtered[self.selected_index])
        }
    }
}

} // verus!
