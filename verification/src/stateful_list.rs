//! A list with a cursor.

use vstd::prelude::*;

verus! {

/// Where a list stands on the screen: the first item shown and the selected one.
#[derive(Clone, Copy, Debug, PartialEq, Eq, Structural)]
pub struct ListState {
    pub offset: usize,
    pub selected: Option<usize>,
}

/// The state of a list in which `index` is selected. A list without a selection starts at its
/// top again.
pub open spec fn with_selection(state: ListState, index: Option<usize>) -> ListState {
    ListState {
        offset: if index is None {
            0
        } else {
            state.offset
        },
        selected: index,
    }
}

impl ListState {
    /// Selects `index`, or nothing.
    pub fn select(&mut self, index: Option<usize>)
        ensures
            *final(self) == with_selection(*old(self), index),
    {
        self.selected = index;
        if index.is_none() {
            self.offset = 0;
        }
    }
}

/// Items of which one may be selected.
#[derive(Debug)]
pub struct StatefulList<T> {
    pub state: ListState,
    pub items: Vec<T>,
}

/// The index below `index` in a list of `len` items, from the end to the start.
pub open spec fn following(index: Option<usize>, len: nat) -> Option<usize> {
    if len == 0 {
        None
    } else {
        match index {
            Some(i) => if i >= len - 1 {
                Some(0usize)
            } else {
                Some((i + 1) as usize)
            },
            None => Some(0usize),
        }
    }
}

/// The index above `index` in a list of `len` items, from the start to the end.
pub open spec fn preceding(index: Option<usize>, len: nat) -> Option<usize> {
    if len == 0 {
        None
    } else {
        match index {
            Some(i) => if i == 0 {
                Some((len - 1) as usize)
            } else {
                Some((i - 1) as usize)
            },
            None => Some(0usize),
        }
    }
}

/// What is selected after the item `index` has left a list that now has `len` items.
pub open spec fn after_removal(index: usize, len: nat) -> Option<usize> {
    if len == 0 {
        None
    } else if index >= len {
        Some(len as usize)
    } else {
        Some(index)
    }
}

impl<T> StatefulList<T> {
    /// The selected item: none, if nothing is selected or the index is past the end.
    pub open spec fn selected_item(&self) -> Option<T> {
        match self.state.selected {
            Some(i) => if i < self.items@.len() {
                Some(self.items@[i as int])
            } else {
                None
            },
            None => None,
        }
    }

    /// A list of `items` on which `selection` is selected, or else the first item.
    pub fn with_items(items: Vec<T>, selection: Option<usize>) -> (r: StatefulList<T>)
        ensures
            r.items == items,
            r.state.offset == 0,
            r.state.selected == Some(
                match selection {
                    Some(i) => i,
                    None => 0,
                },
            ),
    {
        let mut state = ListState { offset: 0, selected: None };
        state.select(
            match selection {
                Some(i) => Some(i),
                None => Some(0),
            },
        );
        StatefulList { state, items }
    }

    /// Moves the selection down by one, from the last item to the first.
    pub fn next(&mut self)
        ensures
            final(self).items == old(self).items,
            final(self).state == with_selection(
                old(self).state,
                following(old(self).state.selected, old(self).items@.len()),
            ),
    {
        if self.items.is_empty() {
            self.state.select(None);
            return ;
        }
        let i: usize = match self.state.selected {
            Some(i) => {
                if i >= self.items.len() - 1 {
                    0
                } else {
                    i + 1
                }
            },
            None => 0,
        };
        self.state.select(Some(i));
    }

    /// Moves the selection up by one, from the first item to the last.
    pub fn previous(&mut self)
        ensures
            final(self).items == old(self).items,
            final(self).state == with_selection(
                old(self).state,
                preceding(old(self).state.selected, old(self).items@.len()),
            ),
    {
        if self.items.is_empty() {
            self.state.select(None);
            return ;
        }
        let i: usize = match self.state.selected {
            Some(i) => {
                if i == 0 {
                    self.items.len() - 1
                } else {
                    i - 1
                }
            },
            None => 0,
        };
        self.state.select(Some(i));
    }

    /// Takes the selected item out of the list. Where it was the last one, the selection stays
    /// behind the end.
    pub fn remove(&mut self)
        requires
            old(self).state.selected matches Some(i) ==> i < old(self).items@.len(),
        ensures
            match old(self).state.selected {
                Some(i) => {
                    &&& final(self).items@ == old(self).items@.remove(i as int)
                    &&& final(self).state == with_selection(
                        old(self).state,
                        after_removal(i, (old(self).items@.len() - 1) as nat),
                    )
                },
                None => *final(self) == *old(self),
            },
    {
        if let Some(i) = self.state.selected {
            self.items.remove(i);
            if self.items.is_empty() {
                self.state.select(None);
            } else if i >= self.items.len() {
                self.state.select(Some(self.items.len()));
            } else {
                self.state.select(Some(i));
            }
        }
    }

    /// The selected item.
    pub fn selected(&self) -> (r: Option<&T>)
        ensures
            match r {
                Some(item) => self.selected_item() == Some(*item),
                None => self.selected_item() is None,
            },
    {
        match self.state.selected {
            Some(i) => if i < self.items.len() {
                Some(&self.items[i])
            } else {
                None
            },
            None => None,
        }
    }
}

/// Going down and then up again leads back to the selected item, and so does going up first.
pub proof fn law_up_undoes_down(index: usize, len: nat)
    requires
        index < len <= usize::MAX,
    ensures
        preceding(following(Some(index), len), len) == Some(index),
        following(preceding(Some(index), len), len) == Some(index),
{
}

/// The index after `steps` steps down.
pub open spec fn followed(index: Option<usize>, len: nat, steps: nat) -> Option<usize>
    decreases steps,
{
    if steps == 0 {
        index
    } else {
        following(followed(index, len, (steps - 1) as nat), len)
    }
}

/// `steps` steps down lead `steps` items further, counted around the end of the list: every
/// item comes up in turn, and after as many steps as there are items the first one is back.
pub proof fn law_down_visits_all(index: usize, len: nat, steps: nat)
    requires
        index < len <= usize::MAX,
    ensures
        followed(Some(index), len, steps) == Some(((index + steps) % (len as int)) as usize),
    decreases steps,
{
    if steps == 0 {
        vstd::arithmetic::div_mod::lemma_small_mod(index as nat, len);
    } else {
        law_down_visits_all(index, len, (steps - 1) as nat);
        let before = index + steps - 1;
        vstd::arithmetic::div_mod::lemma_mod_bound(before, len as int);
        vstd::arithmetic::div_mod::lemma_add_mod_noop(before, 1, len as int);
        if len > 1 {
            vstd::arithmetic::div_mod::lemma_small_mod(1, len);
            if before % (len as int) + 1 < len {
                vstd::arithmetic::div_mod::lemma_small_mod(
                    (before % (len as int) + 1) as nat,
                    len,
                );
            } else {
                vstd::arithmetic::div_mod::lemma_mod_self_0(len as int);
            }
        }
    }
}

/// One down is the next item, and from the last one, or from behind it, the first; one up is the
/// one before, and from the first the last. In an empty list nothing is selected.
pub proof fn law_moves(index: Option<usize>, len: nat)
    requires
        len <= usize::MAX,
    ensures
        len == 0 ==> following(index, len) is None && preceding(index, len) is None,
        len > 0 && index is None ==> following(index, len) == Some(0usize) && preceding(index, len)
            == Some(0usize),
        index matches Some(i) ==> len > 0 ==> {
            &&& following(index, len) is Some && preceding(index, len) is Some
            &&& i + 1 < len ==> following(index, len)->0 == i + 1
            &&& i + 1 >= len ==> following(index, len)->0 == 0
            &&& i > 0 ==> preceding(index, len)->0 == i - 1
            &&& i == 0 ==> preceding(index, len)->0 == len - 1
        },
{
}

/// After an item has left, the one that comes to its place is selected; where it was the last,
/// the place behind the end, and in an empty list nothing.
pub proof fn law_removal(index: usize, len: nat)
    requires
        len <= usize::MAX,
    ensures
        len == 0 ==> after_removal(index, len) is None,
        0 < len && index < len ==> after_removal(index, len) == Some(index),
        0 < len <= index ==> after_removal(index, len) is Some && after_removal(index, len)->0
            == len,
{
}

/// Selecting an item leaves how far the list is scrolled, and selecting none takes it to the top.
pub proof fn law_selection(state: ListState, index: Option<usize>)
    ensures
        with_selection(state, index).selected == index,
        index is Some ==> with_selection(state, index).offset == state.offset,
        index is None ==> with_selection(state, index).offset == 0,
{
}

} // verus!
