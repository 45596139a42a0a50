//! A tree together with the navigation state over it.

use vstd::prelude::*;
use crate::state::{
    collapse_or_ascend_of, expand_or_descend_of, initial_state, select_first_of, select_last_of,
    select_next_of, select_prev_of, step, toggle_selected_of, Intent, TreeState,
};
use crate::tree::{forest_view, has_children, NodeView, TreeItem};

verus! {

/// The catalog tree and where its viewer stands in it.
///
/// The tree is built once and then only read; every operation below leaves `items` as it is.
#[derive(Debug)]
pub struct StatefulTree {
    pub state: TreeState,
    pub items: Vec<TreeItem>,
}

impl StatefulTree {
    /// What the tree is: its top-level nodes, in slot order.
    pub open spec fn forest(&self) -> Seq<NodeView> {
        forest_view(self.items@)
    }

    /// An empty tree with nothing selected.
    pub fn new() -> (tree: StatefulTree)
        ensures
            tree.items@.len() == 0,
            tree.state@ == initial_state(),
    {
        StatefulTree { state: TreeState::new(), items: Vec::new() }
    }

    /// The tree of `items` with nothing selected and nothing expanded.
    pub fn with_items(items: Vec<TreeItem>) -> (tree: StatefulTree)
        ensures
            tree.items == items,
            tree.state@ == initial_state(),
    {
        StatefulTree { state: TreeState::new(), items }
    }

    /// Selects the first row.
    pub fn first(&mut self)
        ensures
            final(self).items == old(self).items,
            final(self).state@ == select_first_of(old(self).forest(), old(self).state@),
    {
        self.state.select_first(self.items.as_slice());
    }

    /// Selects the last visible row.
    pub fn last(&mut self)
        ensures
            final(self).items == old(self).items,
            final(self).state@ == select_last_of(old(self).forest(), old(self).state@),
    {
        self.state.select_last(self.items.as_slice());
    }

    /// Moves the selection one visible row down.
    pub fn down(&mut self)
        ensures
            final(self).items == old(self).items,
            final(self).state@ == select_next_of(old(self).forest(), old(self).state@),
    {
        self.state.select_next_visible(self.items.as_slice());
    }

    /// Moves the selection one visible row up.
    pub fn up(&mut self)
        ensures
            final(self).items == old(self).items,
            final(self).state@ == select_prev_of(old(self).forest(), old(self).state@),
    {
        self.state.select_prev_visible(self.items.as_slice());
    }

    /// Collapses the selected node, or moves to its parent.
    pub fn left(&mut self)
        ensures
            final(self).items == old(self).items,
            final(self).state@ == collapse_or_ascend_of(old(self).state@),
            old(self).state@.selected.len() <= 1 && !old(self).state@.opened.contains(
                old(self).state@.selected,
            ) ==> final(self).state@ == old(self).state@,
    {
        self.state.collapse_or_ascend();
    }

    /// Expands the selected node, or moves to its first child.
    pub fn right(&mut self)
        ensures
            final(self).items == old(self).items,
            final(self).state@ == expand_or_descend_of(old(self).forest(), old(self).state@),
            !has_children(old(self).forest(), old(self).state@.selected) ==> final(self).state@
                == old(self).state@,
    {
        self.state.expand_or_descend(self.items.as_slice());
    }

    /// Flips the expansion of the selected node.
    pub fn toggle(&mut self)
        ensures
            final(self).items == old(self).items,
            final(self).state@ == toggle_selected_of(old(self).forest(), old(self).state@),
    {
        self.state.toggle_selected(self.items.as_slice());
    }

    /// Carries out one intent.
    pub fn apply(&mut self, intent: Intent)
        ensures
            final(self).items == old(self).items,
            final(self).state@ == step(old(self).forest(), old(self).state@, intent),
    {
        match intent {
            Intent::First => self.first(),
            Intent::Last => self.last(),
            Intent::Down => self.down(),
            Intent::Up => self.up(),
            Intent::Left => self.left(),
            Intent::Right => self.right(),
            Intent::Toggle => self.toggle(),
        }
    }
}

} // verus!
