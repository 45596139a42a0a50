//! Catalog records and the construction of the tree from them.

use vstd::prelude::*;
use crate::code::{code_2_vec, segments, well_formed};
use crate::error::CatalogError;
use crate::state::initial_state;
use crate::stateful::StatefulTree;
use crate::tree::{forest_view, node_at, resolves, NodeView, TreeItem};

verus! {

/// One row of the catalog: a code and the texts that describe it.
#[derive(Debug, PartialEq, Eq)]
pub struct Goods {
    pub code: String,
    pub hwlwmc: String,
    pub spfwfljc: String,
    pub desc: String,
}

/// The forest after one record has been worked in, from `level` on.
///
/// A zero segment, or the end of the segments, leaves the forest as it is. A segment whose
/// slot exists leads into that node's children, one level further. A segment whose slot does
/// not exist appends one node with the record's label to the siblings, and nothing deeper.
pub open spec fn attach(forest: Seq<NodeView>, segs: Seq<u8>, level: int, label: Seq<char>) -> Seq<
    NodeView,
>
    decreases segs.len() - level,
{
    if level < 0 || level >= segs.len() || segs[level] == 0 {
        forest
    } else if segs[level] - 1 < forest.len() {
        let slot = segs[level] - 1;
        forest.update(
            slot,
            NodeView {
                label: forest[slot].label,
                children: attach(forest[slot].children, segs, level + 1, label),
            },
        )
    } else {
        forest.push(NodeView { label, children: Seq::empty() })
    }
}

/// Whether every record of `goods` has a well-formed code.
pub open spec fn codes_well_formed(goods: Seq<Goods>) -> bool {
    forall|i: int| 0 <= i < goods.len() ==> well_formed(#[trigger] goods[i].code@)
}

/// The forest that the records of `goods` make, worked in one after another from the top
/// level, each under its category name.
pub open spec fn built_forest(goods: Seq<Goods>) -> Seq<NodeView>
    decreases goods.len(),
{
    if goods.len() == 0 {
        Seq::empty()
    } else {
        attach(
            built_forest(goods.drop_last()),
            segments(goods.last().code@),
            0,
            goods.last().hwlwmc@,
        )
    }
}

/// The number of nodes in the siblings `forest` from slot `first` on, with all that is below
/// them.
pub open spec fn count_from(forest: Seq<NodeView>, first: int) -> nat
    decreases forest, forest.len() - first,
{
    if first < 0 || first >= forest.len() {
        0
    } else {
        1 + count_from(forest[first].children, 0) + count_from(forest, first + 1)
    }
}

/// The number of nodes in `forest`.
pub open spec fn node_count(forest: Seq<NodeView>) -> nat {
    count_from(forest, 0)
}

proof fn lemma_count_pushed(forest: Seq<NodeView>, leaf: NodeView, first: int)
    requires
        0 <= first <= forest.len(),
        leaf.children.len() == 0,
    ensures
        count_from(forest.push(leaf), first) == count_from(forest, first) + 1,
    decreases forest.len() - first,
{
    let longer = forest.push(leaf);
    if first < forest.len() {
        lemma_count_pushed(forest, leaf, first + 1);
        assert(longer[first] == forest[first]);
    } else {
        assert(count_from(longer, first + 1) == 0);
        assert(count_from(longer[first].children, 0) == 0);
    }
}

proof fn lemma_count_updated(forest: Seq<NodeView>, slot: int, node: NodeView, first: int)
    requires
        0 <= first <= forest.len(),
        0 <= slot < forest.len(),
    ensures
        count_from(forest.update(slot, node), first) == if first <= slot {
            count_from(forest, first) - count_from(forest[slot].children, 0) + count_from(
                node.children,
                0,
            )
        } else {
            count_from(forest, first) as int
        },
    decreases forest.len() - first,
{
    if first < forest.len() {
        lemma_count_updated(forest, slot, node, first + 1);
        assert(first != slot ==> forest.update(slot, node)[first] == forest[first]);
    }
}

/// One record adds one node to the forest or none.
pub proof fn lemma_attach_adds_one_at_most(
    forest: Seq<NodeView>,
    segs: Seq<u8>,
    level: int,
    label: Seq<char>,
)
    ensures
        node_count(forest) <= node_count(attach(forest, segs, level, label)) <= node_count(forest)
            + 1,
    decreases segs.len() - level,
{
    if 0 <= level < segs.len() && segs[level] != 0 {
        let slot = segs[level] - 1;
        if slot < forest.len() {
            let below = attach(forest[slot].children, segs, level + 1, label);
            lemma_attach_adds_one_at_most(forest[slot].children, segs, level + 1, label);
            lemma_count_updated(
                forest,
                slot,
                NodeView { label: forest[slot].label, children: below },
                0,
            );
        } else {
            lemma_count_pushed(forest, NodeView { label, children: Seq::empty() }, 0);
        }
    }
}

/// What one record adds takes nothing away: a path that led to a node leads to a node with
/// the same label afterwards.
pub proof fn lemma_attach_keeps_nodes(
    forest: Seq<NodeView>,
    segs: Seq<u8>,
    level: int,
    label: Seq<char>,
    path: Seq<usize>,
)
    requires
        resolves(forest, path),
    ensures
        resolves(attach(forest, segs, level, label), path),
        node_at(attach(forest, segs, level, label), path).label == node_at(forest, path).label,
    decreases path.len(),
{
    if 0 <= level < segs.len() && segs[level] != 0 {
        let slot = segs[level] - 1;
        if slot < forest.len() && path[0] == slot && path.len() > 1 {
            lemma_attach_keeps_nodes(
                forest[slot].children,
                segs,
                level + 1,
                label,
                path.drop_first(),
            );
        }
    }
}

/// The records of a catalog make at most one node each.
pub proof fn lemma_built_forest_size(goods: Seq<Goods>)
    ensures
        node_count(built_forest(goods)) <= goods.len(),
    decreases goods.len(),
{
    if goods.len() > 0 {
        lemma_built_forest_size(goods.drop_last());
        lemma_attach_adds_one_at_most(
            built_forest(goods.drop_last()),
            segments(goods.last().code@),
            0,
            goods.last().hwlwmc@,
        );
    }
}

/// Whether every node of `forest` has a label that is not empty.
pub open spec fn all_labelled(forest: Seq<NodeView>) -> bool
    decreases forest,
{
    forall|i: int|
        0 <= i < forest.len() ==> (#[trigger] forest[i]).label.len() > 0 && all_labelled(
            forest[i].children,
        )
}

/// A record with a name keeps a forest of labelled nodes a forest of labelled nodes.
pub proof fn lemma_attach_keeps_labelled(
    forest: Seq<NodeView>,
    segs: Seq<u8>,
    level: int,
    label: Seq<char>,
)
    requires
        all_labelled(forest),
        label.len() > 0,
    ensures
        all_labelled(attach(forest, segs, level, label)),
    decreases segs.len() - level,
{
    let grown = attach(forest, segs, level, label);
    if 0 <= level < segs.len() && segs[level] != 0 {
        let slot = segs[level] - 1;
        if slot < forest.len() {
            lemma_attach_keeps_labelled(forest[slot].children, segs, level + 1, label);
            assert forall|i: int| 0 <= i < grown.len() implies (#[trigger] grown[i]).label.len() > 0
                && all_labelled(grown[i].children) by {
                if i != slot {
                    assert(grown[i] == forest[i]);
                }
            }
        } else {
            assert forall|i: int| 0 <= i < grown.len() implies (#[trigger] grown[i]).label.len() > 0
                && all_labelled(grown[i].children) by {
                if i < forest.len() {
                    assert(grown[i] == forest[i]);
                }
            }
        }
    }
}

/// Where every record has a category name, every node of the tree has a label.
pub proof fn lemma_built_forest_labelled(goods: Seq<Goods>)
    requires
        forall|i: int| 0 <= i < goods.len() ==> (#[trigger] goods[i]).hwlwmc@.len() > 0,
    ensures
        all_labelled(built_forest(goods)),
    decreases goods.len(),
{
    if goods.len() > 0 {
        let front = goods.drop_last();
        assert forall|i: int| 0 <= i < front.len() implies (#[trigger] front[i]).hwlwmc@.len()
            > 0 by {
            assert(front[i] == goods[i]);
        }
        lemma_built_forest_labelled(front);
        lemma_attach_keeps_labelled(
            built_forest(front),
            segments(goods.last().code@),
            0,
            goods.last().hwlwmc@,
        );
    }
}

fn attach_node(items: &mut Vec<TreeItem>, segs: &Vec<u8>, level: usize, label: &String)
    ensures
        forest_view(final(items)@) == attach(forest_view(old(items)@), segs@, level as int, label@),
    decreases segs@.len() - level,
{
    if level < segs.len() && segs[level] != 0 {
        let slot = (segs[level] - 1) as usize;
        if slot < items.len() {
            attach_node(&mut items[slot].children, segs, level + 1, label);
        } else {
            let leaf = TreeItem::new(label.clone(), Vec::new());
            assert(leaf@.children =~= Seq::<NodeView>::empty());
            items.push(leaf);
        }
    }
}

/// Builds the catalog tree from its records, in their order, with nothing selected.
///
/// Each record adds at most one node: the first of its levels whose slot is still missing.
/// One malformed code fails the whole construction.
pub fn build_tree(goods_list: &Vec<Goods>) -> (result: Result<StatefulTree, CatalogError>)
    ensures
        codes_well_formed(goods_list@) ==> result is Ok && result->Ok_0.forest() == built_forest(
            goods_list@,
        ) && result->Ok_0.state@ == initial_state(),
        !codes_well_formed(goods_list@) ==> result is Err && result->Err_0
            == CatalogError::MalformedCode,
{
    let mut first_items: Vec<TreeItem> = Vec::new();
    let mut i: usize = 0;
    while i < goods_list.len()
        invariant
            i <= goods_list@.len(),
            codes_well_formed(goods_list@.take(i as int)),
            forest_view(first_items@) == built_forest(goods_list@.take(i as int)),
        decreases goods_list@.len() - i,
    {
        let goods = &goods_list[i];
        match code_2_vec(&goods.code) {
            Ok(segs) => {
                attach_node(&mut first_items, &segs, 0, &goods.hwlwmc);
            },
            Err(e) => {
                return Err(e);
            },
        }
        assert(goods_list@.take(i + 1).drop_last() =~= goods_list@.take(i as int));
        i += 1;
    }
    assert(goods_list@.take(i as int) =~= goods_list@);
    Ok(StatefulTree::with_items(first_items))
}

} // verus!
