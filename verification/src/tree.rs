//! The catalog tree: labelled nodes that own their children, addressed from outside by paths.

use vstd::prelude::*;
use crate::error::CatalogError;

verus! {

/// One vertex of the catalog tree.
///
/// A node does not know where it stands: its place is the path of slots that leads to it.
#[derive(Debug)]
pub struct TreeItem {
    pub label: String,
    pub children: Vec<TreeItem>,
}

/// What a node is: its label and what its children are, in slot order.
pub ghost struct NodeView {
    pub label: Seq<char>,
    pub children: Seq<NodeView>,
}

impl View for TreeItem {
    type V = NodeView;

    open spec fn view(&self) -> NodeView
        decreases self,
    {
        NodeView { label: self.label@, children: forest_view(self.children@) }
    }
}

/// What a run of sibling nodes is.
pub open spec fn forest_view(items: Seq<TreeItem>) -> Seq<NodeView>
    decreases items,
{
    Seq::new(
        items.len(),
        |i: int|
            if 0 <= i < items.len() {
                items[i]@
            } else {
                arbitrary()
            },
    )
}

/// Whether `path` leads to a node of `forest`: it is not empty and each of its slots exists.
pub open spec fn resolves(forest: Seq<NodeView>, path: Seq<usize>) -> bool
    decreases path.len(),
{
    &&& path.len() > 0
    &&& path[0] < forest.len()
    &&& (path.len() == 1 || resolves(forest[path[0] as int].children, path.drop_first()))
}

/// The node that `path` leads to, where it resolves.
pub open spec fn node_at(forest: Seq<NodeView>, path: Seq<usize>) -> NodeView
    recommends
        resolves(forest, path),
    decreases path.len(),
{
    if path.len() <= 1 {
        forest[path[0] as int]
    } else {
        node_at(forest[path[0] as int].children, path.drop_first())
    }
}

/// How many children the place that `path` names has: the top-level nodes for the empty
/// path, else the children of the node that `path` leads to.
pub open spec fn child_count_at(forest: Seq<NodeView>, path: Seq<usize>) -> nat {
    if path.len() == 0 {
        forest.len()
    } else {
        node_at(forest, path).children.len()
    }
}

/// Whether `path` leads to a node that has at least one child.
pub open spec fn has_children(forest: Seq<NodeView>, path: Seq<usize>) -> bool {
    resolves(forest, path) && node_at(forest, path).children.len() > 0
}

/// The view of a node holds the views of its children, one for one.
pub proof fn lemma_view_children(item: TreeItem)
    ensures
        item@.label == item.label@,
        item@.children == forest_view(item.children@),
        item@.children.len() == item.children@.len(),
        forall|i: int| 0 <= i < item.children@.len() ==> item@.children[i] == item.children@[i]@,
{
}

/// Whether every run of siblings in `forest` is short enough for a slot to be a `usize`.
pub open spec fn slots_fit(forest: Seq<NodeView>) -> bool
    decreases forest,
{
    &&& forest.len() <= usize::MAX
    &&& forall|i: int| 0 <= i < forest.len() ==> slots_fit(#[trigger] forest[i].children)
}

/// The view of a tree that is held in memory has slots that fit.
pub proof fn lemma_held_slots_fit(items: Seq<TreeItem>)
    requires
        items.len() <= usize::MAX,
    ensures
        slots_fit(forest_view(items)),
    decreases items,
{
    let forest = forest_view(items);
    assert forall|i: int| 0 <= i < forest.len() implies slots_fit(#[trigger] forest[i].children) by {
        lemma_view_children(items[i]);
        assert(items[i].children@.len() == items[i].children.len());
        lemma_held_slots_fit(items[i].children@);
    }
}

/// Every non-empty front part of a path that resolves resolves too.
pub proof fn lemma_front_resolves(forest: Seq<NodeView>, path: Seq<usize>, len: int)
    requires
        resolves(forest, path),
        0 < len <= path.len(),
    ensures
        resolves(forest, path.take(len)),
    decreases path.len(),
{
    let front = path.take(len);
    if len > 1 {
        lemma_front_resolves(forest[path[0] as int].children, path.drop_first(), len - 1);
        assert(front.drop_first() =~= path.drop_first().take(len - 1));
    }
}

/// A path that resolves, followed by a slot that the node it leads to has, resolves to that
/// child.
pub proof fn lemma_child_resolves(forest: Seq<NodeView>, path: Seq<usize>, slot: usize)
    requires
        resolves(forest, path),
        slot < node_at(forest, path).children.len(),
    ensures
        resolves(forest, path.push(slot)),
        node_at(forest, path.push(slot)) == node_at(forest, path).children[slot as int],
    decreases path.len(),
{
    let longer = path.push(slot);
    if path.len() == 1 {
        let below = forest[path[0] as int].children;
        assert(longer.drop_first() =~= seq![slot]);
        assert(resolves(below, seq![slot]));
        assert(node_at(below, seq![slot]) == below[slot as int]);
    } else {
        lemma_child_resolves(forest[path[0] as int].children, path.drop_first(), slot);
        assert(longer.drop_first() =~= path.drop_first().push(slot));
    }
}

impl TreeItem {
    /// A node with the given label and children.
    pub fn new(label: String, children: Vec<TreeItem>) -> (item: TreeItem)
        ensures
            item.label == label,
            item.children == children,
    {
        TreeItem { label, children }
    }
}

/// The node that `current` leads to among `items`, or `None` where `current` is empty or
/// names a slot that does not exist.
pub fn get_item<'a>(items: &'a [TreeItem], current: &[usize]) -> (found: Option<&'a TreeItem>)
    ensures
        resolves(forest_view(items@), current@) ==> found is Some && found->Some_0@ == node_at(
            forest_view(items@),
            current@,
        ),
        !resolves(forest_view(items@), current@) ==> found is None,
{
    let mut found: Option<&'a TreeItem> = None;
    let mut children: &'a [TreeItem] = items;
    let mut depth: usize = 0;
    assert(current@.skip(0) == current@);
    while depth < current.len()
        invariant
            depth <= current@.len(),
            depth == 0 ==> found is None && children@ == items@,
            depth > 0 ==> found is Some && children@ == found->Some_0.children@,
            depth < current@.len() ==> (resolves(forest_view(items@), current@) <==> resolves(
                forest_view(children@),
                current@.skip(depth as int),
            )),
            depth < current@.len() && resolves(forest_view(items@), current@) ==> node_at(
                forest_view(items@),
                current@,
            ) == node_at(forest_view(children@), current@.skip(depth as int)),
            0 < depth == current@.len() ==> resolves(forest_view(items@), current@)
                && found->Some_0@ == node_at(forest_view(items@), current@),
        decreases current@.len() - depth,
    {
        let slot = current[depth];
        let ghost rest = current@.skip(depth as int);
        assert(rest.drop_first() == current@.skip(depth + 1));
        if slot >= children.len() {
            return None;
        }
        let item = &children[slot];
        found = Some(item);
        children = item.children.as_slice();
        depth += 1;
    }
    found
}

/// The node that `path` leads to among `items`.
pub fn resolve<'a>(items: &'a [TreeItem], path: &[usize]) -> (result: Result<
    &'a TreeItem,
    CatalogError,
>)
    ensures
        resolves(forest_view(items@), path@) ==> result is Ok && result->Ok_0@ == node_at(
            forest_view(items@),
            path@,
        ),
        !resolves(forest_view(items@), path@) ==> result is Err && result->Err_0
            == CatalogError::PathNotFound,
{
    match get_item(items, path) {
        Some(item) => Ok(item),
        None => Err(CatalogError::PathNotFound),
    }
}

/// The number of children of the node that `path` leads to among `items`; of top-level nodes
/// where `path` is empty.
pub fn child_count(items: &[TreeItem], path: &[usize]) -> (result: Result<usize, CatalogError>)
    ensures
        path@.len() == 0 || resolves(forest_view(items@), path@) ==> result is Ok && result->Ok_0
            == child_count_at(forest_view(items@), path@),
        path@.len() > 0 && !resolves(forest_view(items@), path@) ==> result is Err
            && result->Err_0 == CatalogError::PathNotFound,
{
    if path.len() == 0 {
        return Ok(items.len());
    }
    match get_item(items, path) {
        Some(item) => {
            proof {
                lemma_view_children(*item);
            }
            Ok(item.children.len())
        },
        None => Err(CatalogError::PathNotFound),
    }
}

/// The label of the node that `path` leads to among `items`.
pub fn label_of(items: &[TreeItem], path: &[usize]) -> (result: Result<String, CatalogError>)
    ensures
        resolves(forest_view(items@), path@) ==> result is Ok && result->Ok_0@ == node_at(
            forest_view(items@),
            path@,
        ).label,
        !resolves(forest_view(items@), path@) ==> result is Err && result->Err_0
            == CatalogError::PathNotFound,
{
    match get_item(items, path) {
        Some(item) => Ok(item.label.clone()),
        None => Err(CatalogError::PathNotFound),
    }
}

} // verus!
