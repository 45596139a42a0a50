//! The navigation state: which paths are expanded and which one path is selected.

use vstd::prelude::*;
use crate::tree::{
    forest_view, get_item, has_children, lemma_child_resolves, lemma_front_resolves,
    lemma_held_slots_fit, lemma_view_children, resolves, slots_fit, NodeView, TreeItem,
};
use crate::visible::{
    is_visible, last_row_below, lemma_last_row_by_descent, lemma_row_of_bounds,
    lemma_rows_are_the_visible_paths, row_of, rows_from, visible_rows,
};

verus! {

/// What a navigation state is: the selected path, empty where nothing is selected, and the
/// set of expanded paths.
pub ghost struct StateView {
    pub selected: Seq<usize>,
    pub opened: Set<Seq<usize>>,
}

/// The state in which nothing is selected and nothing is expanded.
pub open spec fn initial_state() -> StateView {
    StateView { selected: Seq::empty(), opened: Set::empty() }
}

/// The state with `selected` as its selection and the expansions of `state`.
pub open spec fn with_selected(state: StateView, selected: Seq<usize>) -> StateView {
    StateView { selected, opened: state.opened }
}

/// The state with `opened` as its expansions and the selection of `state`.
pub open spec fn with_opened(state: StateView, opened: Set<Seq<usize>>) -> StateView {
    StateView { selected: state.selected, opened }
}

/// Selecting the first row: the first top-level node, where the tree has one.
pub open spec fn select_first_of(forest: Seq<NodeView>, state: StateView) -> StateView {
    if forest.len() > 0 {
        with_selected(state, seq![0usize])
    } else {
        state
    }
}

/// Selecting the last visible row, where the tree has one.
pub open spec fn select_last_of(forest: Seq<NodeView>, state: StateView) -> StateView {
    let rows = visible_rows(forest, state.opened);
    if rows.len() > 0 {
        with_selected(state, rows.last())
    } else {
        state
    }
}

/// Stepping down one visible row. From the last row nothing moves. A selection that is not a
/// visible row, as when nothing is selected, gives way to the first row.
pub open spec fn select_next_of(forest: Seq<NodeView>, state: StateView) -> StateView {
    let rows = visible_rows(forest, state.opened);
    let at = row_of(rows, state.selected);
    if rows.len() == 0 {
        state
    } else if at >= rows.len() {
        with_selected(state, rows[0])
    } else if at + 1 < rows.len() {
        with_selected(state, rows[at + 1])
    } else {
        state
    }
}

/// Stepping up one visible row. From the first row nothing moves. A selection that is not a
/// visible row, as when nothing is selected, gives way to the last row.
pub open spec fn select_prev_of(forest: Seq<NodeView>, state: StateView) -> StateView {
    let rows = visible_rows(forest, state.opened);
    let at = row_of(rows, state.selected);
    if rows.len() == 0 {
        state
    } else if at >= rows.len() {
        with_selected(state, rows.last())
    } else if at > 0 {
        with_selected(state, rows[at - 1])
    } else {
        state
    }
}

/// Collapsing the selected path where it is expanded; else moving to its parent where it has
/// one; else nothing.
pub open spec fn collapse_or_ascend_of(state: StateView) -> StateView {
    if state.opened.contains(state.selected) {
        with_opened(state, state.opened.remove(state.selected))
    } else if state.selected.len() > 1 {
        with_selected(state, state.selected.drop_last())
    } else {
        state
    }
}

/// Expanding the selected node where it has children and is collapsed; moving to its first
/// child where it has children and is expanded; else nothing.
pub open spec fn expand_or_descend_of(forest: Seq<NodeView>, state: StateView) -> StateView {
    if !has_children(forest, state.selected) {
        state
    } else if !state.opened.contains(state.selected) {
        with_opened(state, state.opened.insert(state.selected))
    } else {
        with_selected(state, state.selected.push(0usize))
    }
}

/// Flipping the expansion of the selected node where it has children; else nothing.
pub open spec fn toggle_selected_of(forest: Seq<NodeView>, state: StateView) -> StateView {
    if !has_children(forest, state.selected) {
        state
    } else if state.opened.contains(state.selected) {
        with_opened(state, state.opened.remove(state.selected))
    } else {
        with_opened(state, state.opened.insert(state.selected))
    }
}

/// One request to move the selection or to change what is expanded.
#[derive(Clone, Copy, Debug, PartialEq, Eq, Structural)]
pub enum Intent {
    First,
    Last,
    Down,
    Up,
    Left,
    Right,
    Toggle,
}

/// The state that follows `state` when `intent` is carried out over `forest`.
pub open spec fn step(forest: Seq<NodeView>, state: StateView, intent: Intent) -> StateView {
    match intent {
        Intent::First => select_first_of(forest, state),
        Intent::Last => select_last_of(forest, state),
        Intent::Down => select_next_of(forest, state),
        Intent::Up => select_prev_of(forest, state),
        Intent::Left => collapse_or_ascend_of(state),
        Intent::Right => expand_or_descend_of(forest, state),
        Intent::Toggle => toggle_selected_of(forest, state),
    }
}

/// The state that follows `state` when `intents` are carried out in turn.
pub open spec fn run(forest: Seq<NodeView>, state: StateView, intents: Seq<Intent>) -> StateView
    decreases intents.len(),
{
    if intents.len() == 0 {
        state
    } else {
        step(forest, run(forest, state, intents.drop_last()), intents.last())
    }
}

/// A selection is sound when it is empty or leads to a node.
pub open spec fn selection_sound(forest: Seq<NodeView>, state: StateView) -> bool {
    state.selected.len() == 0 || resolves(forest, state.selected)
}

/// A state is sound when its selection is empty or a visible row, and every expanded path
/// leads to a node that has children.
pub open spec fn state_sound(forest: Seq<NodeView>, state: StateView) -> bool {
    &&& state.selected.len() == 0 || is_visible(forest, state.opened, state.selected)
    &&& forall|path: Seq<usize>| #[trigger] state.opened.contains(path) ==> has_children(forest, path)
}

/// No intent makes a sound state unsound.
pub proof fn lemma_step_keeps_state_sound(forest: Seq<NodeView>, state: StateView, intent: Intent)
    requires
        slots_fit(forest),
        state_sound(forest, state),
    ensures
        state_sound(forest, step(forest, state, intent)),
{
    let selected = state.selected;
    let next = step(forest, state, intent);
    match intent {
        Intent::First => {
            assert(forest.len() > 0 ==> resolves(forest, seq![0usize]));
        },
        Intent::Last | Intent::Down | Intent::Up => {
            // The new selection, where there is one, is a visible row.
            let rows = visible_rows(forest, state.opened);
            lemma_row_of_bounds(rows, selected);
            if next.selected != selected {
                lemma_rows_are_the_visible_paths(forest, state.opened, next.selected);
            }
        },
        Intent::Left => {
            if state.opened.contains(selected) {
                // The nodes above the selection stay expanded: none of them is the selection.
                assert forall|j: int| 0 < j < selected.len() implies next.opened.contains(
                    #[trigger] selected.take(j),
                ) by {
                    assert(selected.take(j).len() != selected.len());
                }
            } else if selected.len() > 1 {
                let parent = selected.drop_last();
                lemma_front_resolves(forest, selected, selected.len() - 1);
                assert forall|j: int| 0 < j < parent.len() implies state.opened.contains(
                    #[trigger] parent.take(j),
                ) by {
                    assert(parent.take(j) =~= selected.take(j));
                }
            }
        },
        Intent::Right => {
            if has_children(forest, selected) && state.opened.contains(selected) {
                let child = selected.push(0usize);
                lemma_child_resolves(forest, selected, 0);
                assert forall|j: int| 0 < j < child.len() implies state.opened.contains(
                    #[trigger] child.take(j),
                ) by {
                    if j < selected.len() {
                        assert(child.take(j) =~= selected.take(j));
                    } else {
                        assert(child.take(j) =~= selected);
                    }
                }
            }
        },
        Intent::Toggle => {
            if has_children(forest, selected) && state.opened.contains(selected) {
                assert forall|j: int| 0 < j < selected.len() implies next.opened.contains(
                    #[trigger] selected.take(j),
                ) by {
                    assert(selected.take(j).len() != selected.len());
                }
            }
        },
    }
}

/// Whatever intents are carried out from the initial state, in whatever order, the state
/// stays sound: the selection is empty or a visible row of the tree, and what is expanded
/// has children.
pub proof fn lemma_state_always_sound(items: Vec<TreeItem>, intents: Seq<Intent>)
    ensures
        state_sound(forest_view(items@), run(forest_view(items@), initial_state(), intents)),
    decreases intents.len(),
{
    let forest = forest_view(items@);
    assert(items@.len() == items.len());
    lemma_held_slots_fit(items@);
    if intents.len() > 0 {
        lemma_state_always_sound(items, intents.drop_last());
        lemma_step_keeps_state_sound(
            forest,
            run(forest, initial_state(), intents.drop_last()),
            intents.last(),
        );
    }
}

/// Whatever intents are carried out from the initial state, in whatever order, the selection
/// is empty or leads to a node of the tree.
pub proof fn lemma_selection_always_resolves(items: Vec<TreeItem>, intents: Seq<Intent>)
    ensures
        selection_sound(forest_view(items@), run(forest_view(items@), initial_state(), intents)),
{
    lemma_state_always_sound(items, intents);
}

/// What a run of paths is.
pub open spec fn paths_view(paths: Seq<Vec<usize>>) -> Seq<Seq<usize>> {
    Seq::new(paths.len(), |i: int| paths[i]@)
}

/// Expansion and selection over a tree that is kept elsewhere.
#[derive(Debug)]
pub struct TreeState {
    selected: Vec<usize>,
    opened: Vec<Vec<usize>>,
}

impl View for TreeState {
    type V = StateView;

    closed spec fn view(&self) -> StateView {
        StateView { selected: self.selected@, opened: paths_view(self.opened@).to_set() }
    }
}

proof fn lemma_remove_from_distinct(paths: Seq<Seq<usize>>, i: int)
    requires
        paths.no_duplicates(),
        0 <= i < paths.len(),
    ensures
        paths.remove(i).no_duplicates(),
        paths.remove(i).to_set() == paths.to_set().remove(paths[i]),
{
    // Each path but the one at `i` keeps a place, one lower where it stood behind `i`.
    let rest = paths.remove(i);
    assert forall|p: Seq<usize>| paths.contains(p) && p != paths[i] implies rest.contains(p) by {
        let k = choose|k: int| 0 <= k < paths.len() && paths[k] == p;
        assert(rest[if k < i { k } else { k - 1 }] == p);
    }
    assert(rest.to_set() =~= paths.to_set().remove(paths[i]));
}

fn same_path(a: &[usize], b: &[usize]) -> (same: bool)
    ensures
        same == (a@ == b@),
{
    if a.len() != b.len() {
        return false;
    }
    let mut i: usize = 0;
    while i < a.len()
        invariant
            a@.len() == b@.len(),
            i <= a@.len(),
            forall|k: int| 0 <= k < i ==> a@[k] == b@[k],
        decreases a@.len() - i,
    {
        if a[i] != b[i] {
            return false;
        }
        i += 1;
    }
    assert(a@ =~= b@);
    true
}

fn find_row(rows: &Vec<Vec<usize>>, path: &[usize]) -> (at: usize)
    ensures
        at == row_of(paths_view(rows@), path@),
        at <= rows@.len(),
{
    let ghost all = paths_view(rows@);
    let mut i: usize = 0;
    assert(all.skip(0) =~= all);
    while i < rows.len()
        invariant
            all == paths_view(rows@),
            i <= rows@.len(),
            row_of(all, path@) == i + row_of(all.skip(i as int), path@),
        decreases rows@.len() - i,
    {
        if same_path(rows[i].as_slice(), path) {
            return i;
        }
        assert(all.skip(i as int).drop_first() =~= all.skip(i + 1));
        i += 1;
    }
    i
}

impl Default for TreeState {
    fn default() -> (state: TreeState)
        ensures
            state@ == initial_state(),
    {
        TreeState::new()
    }
}

impl TreeState {
    #[verifier::type_invariant]
    spec fn opened_once(&self) -> bool {
        paths_view(self.opened@).no_duplicates()
    }

    /// The state in which nothing is selected and nothing is expanded.
    pub fn new() -> (state: TreeState)
        ensures
            state@ == initial_state(),
    {
        let state = TreeState { selected: Vec::new(), opened: Vec::new() };
        assert(state@.opened =~= Set::empty());
        state
    }

    /// The selected path; empty where nothing is selected.
    pub fn selected(&self) -> (path: Vec<usize>)
        ensures
            path@ == self@.selected,
    {
        self.selected.clone()
    }

    /// Whether `path` is expanded.
    pub fn is_open(&self, path: &[usize]) -> (open: bool)
        ensures
            open == self@.opened.contains(path@),
    {
        let mut i: usize = 0;
        while i < self.opened.len()
            invariant
                i <= self.opened@.len(),
                forall|k: int| 0 <= k < i ==> paths_view(self.opened@)[k] != path@,
            decreases self.opened@.len() - i,
        {
            if same_path(self.opened[i].as_slice(), path) {
                assert(paths_view(self.opened@)[i as int] == path@);
                return true;
            }
            i += 1;
        }
        false
    }

    /// The expanded paths, each once, in no particular order.
    pub fn get_all_opened(&self) -> (paths: Vec<Vec<usize>>)
        ensures
            paths_view(paths@).to_set() == self@.opened,
            paths_view(paths@).no_duplicates(),
    {
        proof {
            use_type_invariant(self);
        }
        let mut paths: Vec<Vec<usize>> = Vec::new();
        let mut i: usize = 0;
        while i < self.opened.len()
            invariant
                i <= self.opened@.len(),
                paths_view(paths@) == paths_view(self.opened@).take(i as int),
            decreases self.opened@.len() - i,
        {
            let path = self.opened[i].clone();
            let ghost before = paths_view(paths@);
            paths.push(path);
            assert(paths_view(paths@) =~= before.push(path@));
            i += 1;
        }
        assert(paths_view(self.opened@).take(i as int) =~= paths_view(self.opened@));
        paths
    }

    fn collect_rows(&self, items: &[TreeItem], prefix: &Vec<usize>, rows: &mut Vec<Vec<usize>>)
        ensures
            paths_view(final(rows)@) == paths_view(old(rows)@) + rows_from(
                forest_view(items@),
                self@.opened,
                prefix@,
                0,
            ),
        decreases items@,
    {
        let ghost forest = forest_view(items@);
        let ghost start = paths_view(rows@);
        let mut i: usize = 0;
        while i < items.len()
            invariant
                forest == forest_view(items@),
                i <= items@.len(),
                paths_view(rows@) + rows_from(forest, self@.opened, prefix@, i as int) == start
                    + rows_from(forest, self@.opened, prefix@, 0),
            decreases items@.len() - i,
        {
            let ghost done = paths_view(rows@);
            let mut path = prefix.clone();
            path.push(i);
            let row = path.clone();
            rows.push(row);
            if self.is_open(path.as_slice()) {
                self.collect_rows(items[i].children.as_slice(), &path, rows);
            }
            assert(paths_view(rows@) + rows_from(forest, self@.opened, prefix@, i + 1) =~= done
                + rows_from(forest, self@.opened, prefix@, i as int));
            i += 1;
        }
    }

    /// The paths of the visible rows of `items`, top to bottom.
    pub fn visible_paths(&self, items: &[TreeItem]) -> (rows: Vec<Vec<usize>>)
        ensures
            paths_view(rows@) == visible_rows(forest_view(items@), self@.opened),
    {
        let mut rows: Vec<Vec<usize>> = Vec::new();
        let prefix: Vec<usize> = Vec::new();
        self.collect_rows(items, &prefix, &mut rows);
        rows
    }

    /// The place of the selection among the visible rows of `items`, where it is one of
    /// them.
    pub fn selected_row(&self, items: &[TreeItem]) -> (place: Option<usize>)
        ensures
            ({
                let rows = visible_rows(forest_view(items@), self@.opened);
                match place {
                    Some(at) => at == row_of(rows, self@.selected) && at < rows.len()
                        && rows[at as int] == self@.selected,
                    None => !rows.contains(self@.selected),
                }
            }),
    {
        let rows = self.visible_paths(items);
        let at = find_row(&rows, self.selected.as_slice());
        proof {
            lemma_row_of_bounds(paths_view(rows@), self@.selected);
        }
        if at < rows.len() {
            Some(at)
        } else {
            None
        }
    }

    /// Selects the first row, where the tree has one.
    pub fn select_first(&mut self, items: &[TreeItem])
        ensures
            final(self)@ == select_first_of(forest_view(items@), old(self)@),
    {
        proof {
            use_type_invariant(&*self);
        }
        if items.len() > 0 {
            let mut path: Vec<usize> = Vec::new();
            path.push(0);
            self.selected = path;
        }
    }

    /// Selects the last visible row, where the tree has one.
    pub fn select_last(&mut self, items: &[TreeItem])
        ensures
            final(self)@ == select_last_of(forest_view(items@), old(self)@),
    {
        proof {
            use_type_invariant(&*self);
        }
        if items.len() == 0 {
            return ;
        }
        let ghost forest = forest_view(items@);
        let ghost opened = self@.opened;
        let mut path: Vec<usize> = Vec::new();
        let mut siblings: &[TreeItem] = items;
        proof {
            lemma_last_row_by_descent(forest, opened, Seq::empty(), 0);
        }
        loop
            invariant_except_break
                siblings@.len() > 0,
                last_row_below(forest, opened, Seq::empty()) == last_row_below(
                    forest_view(siblings@),
                    opened,
                    path@,
                ),
            invariant
                opened == self@.opened,
            ensures
                path@ == last_row_below(forest, opened, Seq::empty()),
            decreases siblings@,
        {
            let last = siblings.len() - 1;
            path.push(last);
            let node = &siblings[last];
            proof {
                lemma_view_children(*node);
            }
            if node.children.len() > 0 && self.is_open(path.as_slice()) {
                siblings = node.children.as_slice();
            } else {
                break ;
            }
        }
        self.selected = path;
    }

    /// Moves the selection one visible row down.
    pub fn select_next_visible(&mut self, items: &[TreeItem])
        ensures
            final(self)@ == select_next_of(forest_view(items@), old(self)@),
    {
        proof {
            use_type_invariant(&*self);
        }
        let rows = self.visible_paths(items);
        let at = find_row(&rows, self.selected.as_slice());
        if rows.len() == 0 {
        } else if at >= rows.len() {
            self.selected = rows[0].clone();
        } else if at + 1 < rows.len() {
            self.selected = rows[at + 1].clone();
        }
    }

    /// Moves the selection one visible row up.
    pub fn select_prev_visible(&mut self, items: &[TreeItem])
        ensures
            final(self)@ == select_prev_of(forest_view(items@), old(self)@),
    {
        proof {
            use_type_invariant(&*self);
        }
        let rows = self.visible_paths(items);
        let at = find_row(&rows, self.selected.as_slice());
        if rows.len() == 0 {
        } else if at >= rows.len() {
            self.selected = rows[rows.len() - 1].clone();
        } else if at > 0 {
            self.selected = rows[at - 1].clone();
        }
    }

    /// Collapses the selected node where it is expanded; else moves to its parent where it
    /// has one.
    pub fn collapse_or_ascend(&mut self)
        ensures
            final(self)@ == collapse_or_ascend_of(old(self)@),
            old(self)@.selected.len() <= 1 && !old(self)@.opened.contains(old(self)@.selected)
                ==> final(self)@ == old(self)@,
    {
        proof {
            use_type_invariant(&*self);
        }
        let mut path = self.selected.clone();
        if !self.close(path.as_slice()) {
            proof {
                use_type_invariant(&*self);
            }
            assert(self@.opened =~= old(self)@.opened);
            if path.len() > 1 {
                path.pop();
                self.selected = path;
            }
        }
    }

    /// Expands the selected node where it has children and is collapsed; else moves to its
    /// first child where it has one.
    pub fn expand_or_descend(&mut self, items: &[TreeItem])
        ensures
            final(self)@ == expand_or_descend_of(forest_view(items@), old(self)@),
            !has_children(forest_view(items@), old(self)@.selected) ==> final(self)@ == old(
                self,
            )@,
    {
        proof {
            use_type_invariant(&*self);
        }
        let mut path = self.selected.clone();
        let expandable = match get_item(items, path.as_slice()) {
            Some(item) => {
                proof {
                    lemma_view_children(*item);
                }
                item.children.len() > 0
            },
            None => false,
        };
        if expandable {
            if self.is_open(path.as_slice()) {
                path.push(0);
                self.selected = path;
            } else {
                self.open(path);
            }
        }
    }

    /// Flips the expansion of the selected node where it has children.
    pub fn toggle_selected(&mut self, items: &[TreeItem])
        ensures
            final(self)@ == toggle_selected_of(forest_view(items@), old(self)@),
    {
        proof {
            use_type_invariant(&*self);
        }
        let path = self.selected.clone();
        let expandable = match get_item(items, path.as_slice()) {
            Some(item) => {
                proof {
                    lemma_view_children(*item);
                }
                item.children.len() > 0
            },
            None => false,
        };
        if expandable {
            if !self.close(path.as_slice()) {
                assert(self@.opened =~= old(self)@.opened);
                self.open(path);
            }
        }
    }

    fn open(&mut self, path: Vec<usize>)
        ensures
            final(self)@ == with_opened(old(self)@, old(self)@.opened.insert(path@)),
    {
        proof {
            use_type_invariant(&*self);
        }
        if !self.is_open(path.as_slice()) {
            let ghost before = paths_view(self.opened@);
            let mut opened: Vec<Vec<usize>> = Vec::new();
            core::mem::swap(&mut self.opened, &mut opened);
            opened.push(path);
            proof {
                before.lemma_push_to_set_commute(path@);
                assert(paths_view(opened@) =~= before.push(path@));
            }
            core::mem::swap(&mut self.opened, &mut opened);
        } else {
            assert(self@.opened.insert(path@) =~= self@.opened);
        }
    }

    fn close(&mut self, path: &[usize]) -> (closed: bool)
        ensures
            closed == old(self)@.opened.contains(path@),
            final(self)@ == with_opened(old(self)@, old(self)@.opened.remove(path@)),
    {
        proof {
            use_type_invariant(&*self);
        }
        let mut i: usize = 0;
        while i < self.opened.len()
            invariant
                *self == *old(self),
                paths_view(self.opened@).no_duplicates(),
                i <= self.opened@.len(),
                forall|k: int| 0 <= k < i ==> paths_view(self.opened@)[k] != path@,
            decreases self.opened@.len() - i,
        {
            if same_path(self.opened[i].as_slice(), path) {
                let ghost before = paths_view(self.opened@);
                let mut opened: Vec<Vec<usize>> = Vec::new();
                core::mem::swap(&mut self.opened, &mut opened);
                opened.remove(i);
                proof {
                    lemma_remove_from_distinct(before, i as int);
                    assert(paths_view(opened@) =~= before.remove(i as int));
                }
                core::mem::swap(&mut self.opened, &mut opened);
                return true;
            }
            i += 1;
        }
        assert(self@.opened.remove(path@) =~= self@.opened);
        false
    }
}

} // verus!
