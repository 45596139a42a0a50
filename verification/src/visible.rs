//! The rows that a viewer sees: the nodes whose ancestors are all expanded, in depth-first
//! order.

use vstd::prelude::*;
use crate::tree::{resolves, slots_fit, NodeView};

verus! {

/// The visible rows among the siblings `forest` from slot `first` on, in depth-first order:
/// each sibling's own path, `prefix` and its slot, and, where that path is expanded, the
/// visible rows of its children before the next sibling.
pub open spec fn rows_from(
    forest: Seq<NodeView>,
    opened: Set<Seq<usize>>,
    prefix: Seq<usize>,
    first: int,
) -> Seq<Seq<usize>>
    decreases forest, forest.len() - first,
{
    if first < 0 || first >= forest.len() {
        Seq::empty()
    } else {
        let path = prefix.push(first as usize);
        let below = if opened.contains(path) {
            rows_from(forest[first].children, opened, path, 0)
        } else {
            Seq::empty()
        };
        seq![path] + below + rows_from(forest, opened, prefix, first + 1)
    }
}

/// Every visible row of the tree, top to bottom.
pub open spec fn visible_rows(forest: Seq<NodeView>, opened: Set<Seq<usize>>) -> Seq<Seq<usize>> {
    rows_from(forest, opened, Seq::empty(), 0)
}

/// The least index at which `rows` holds `path`, or the length of `rows` where none does.
pub open spec fn row_of(rows: Seq<Seq<usize>>, path: Seq<usize>) -> int
    decreases rows.len(),
{
    if rows.len() == 0 || rows[0] == path {
        0
    } else {
        1 + row_of(rows.drop_first(), path)
    }
}

/// A path is visible when it leads to a node and every node above that one is expanded.
pub open spec fn is_visible(forest: Seq<NodeView>, opened: Set<Seq<usize>>, path: Seq<usize>) -> bool {
    &&& resolves(forest, path)
    &&& forall|j: int| 0 < j < path.len() ==> opened.contains(#[trigger] path.take(j))
}

/// The last visible row among the siblings `forest`: the last sibling, or, where that one is
/// expanded and has children, the last visible row among those.
pub open spec fn last_row_below(
    forest: Seq<NodeView>,
    opened: Set<Seq<usize>>,
    prefix: Seq<usize>,
) -> Seq<usize>
    decreases forest,
{
    if forest.len() == 0 {
        prefix
    } else {
        let path = prefix.push((forest.len() - 1) as usize);
        if opened.contains(path) && forest.last().children.len() > 0 {
            last_row_below(forest.last().children, opened, path)
        } else {
            path
        }
    }
}

/// Each visible row below `prefix` extends `prefix` by a path that resolves among `forest`,
/// starts at slot `first` or later, and has every node above its end expanded.
pub proof fn lemma_row_is_visible(
    forest: Seq<NodeView>,
    opened: Set<Seq<usize>>,
    prefix: Seq<usize>,
    first: int,
    k: int,
)
    requires
        slots_fit(forest),
        0 <= first,
        0 <= k < rows_from(forest, opened, prefix, first).len(),
    ensures
        ({
            let row = rows_from(forest, opened, prefix, first)[k];
            &&& row.len() > prefix.len()
            &&& row.take(prefix.len() as int) == prefix
            &&& row[prefix.len() as int] >= first
            &&& resolves(forest, row.skip(prefix.len() as int))
            &&& forall|j: int| prefix.len() < j < row.len() ==> opened.contains(#[trigger] row.take(j))
        }),
    decreases forest, forest.len() - first,
{
    let path = prefix.push(first as usize);
    let below = if opened.contains(path) {
        rows_from(forest[first].children, opened, path, 0)
    } else {
        Seq::empty()
    };
    let row = rows_from(forest, opened, prefix, first)[k];
    let depth = prefix.len() as int;
    if k == 0 {
        // The row is the path of the sibling at `first` itself.
        assert(row == path);
        assert(row.skip(depth) =~= seq![first as usize]);
    } else if k <= below.len() {
        // The row stands below that sibling, which is expanded.
        assert(row == below[k - 1]);
        lemma_row_is_visible(forest[first].children, opened, path, 0, k - 1);
        assert(row.take(depth + 1) == path);
        assert(row.take(depth + 1)[depth] == row[depth]);
        assert(row.skip(depth).drop_first() =~= row.skip(depth + 1));
    } else {
        // The row belongs to a later sibling.
        assert(row == rows_from(forest, opened, prefix, first + 1)[k - 1 - below.len()]);
        lemma_row_is_visible(forest, opened, prefix, first + 1, k - 1 - below.len());
    }
}

/// A path that resolves among `forest` from slot `first` on, with every node above its end
/// expanded once `prefix` is put in front, is among the visible rows below `prefix`.
pub proof fn lemma_visible_is_row(
    forest: Seq<NodeView>,
    opened: Set<Seq<usize>>,
    prefix: Seq<usize>,
    first: int,
    rest: Seq<usize>,
)
    requires
        slots_fit(forest),
        0 <= first,
        resolves(forest, rest),
        rest[0] >= first,
        forall|j: int| 0 < j < rest.len() ==> opened.contains(prefix + #[trigger] rest.take(j)),
    ensures
        rows_from(forest, opened, prefix, first).contains(prefix + rest),
    decreases forest, forest.len() - first,
{
    let path = prefix.push(first as usize);
    let below = if opened.contains(path) {
        rows_from(forest[first].children, opened, path, 0)
    } else {
        Seq::empty()
    };
    let later = rows_from(forest, opened, prefix, first + 1);
    let rows = rows_from(forest, opened, prefix, first);
    assert(rows == seq![path] + below + later);
    if rest[0] == first {
        if rest.len() == 1 {
            assert(prefix + rest =~= path);
            assert(rows[0] == path);
        } else {
            let tail = rest.drop_first();
            assert(prefix + rest.take(1) =~= path);
            assert forall|j: int| 0 < j < tail.len() implies opened.contains(
                path + #[trigger] tail.take(j),
            ) by {
                assert(path + tail.take(j) =~= prefix + rest.take(j + 1));
            }
            lemma_visible_is_row(forest[first].children, opened, path, 0, tail);
            assert(path + tail =~= prefix + rest);
            let k = choose|k: int| 0 <= k < below.len() && below[k] == prefix + rest;
            assert(rows[1 + k] == prefix + rest);
        }
    } else {
        lemma_visible_is_row(forest, opened, prefix, first + 1, rest);
        let k = choose|k: int| 0 <= k < later.len() && later[k] == prefix + rest;
        assert(rows[1 + below.len() + k] == prefix + rest);
    }
}

/// The visible rows are the visible paths: a path is a row if and only if it leads to a
/// node and every node above that one is expanded.
pub proof fn lemma_rows_are_the_visible_paths(
    forest: Seq<NodeView>,
    opened: Set<Seq<usize>>,
    path: Seq<usize>,
)
    requires
        slots_fit(forest),
    ensures
        visible_rows(forest, opened).contains(path) <==> is_visible(forest, opened, path),
{
    let rows = visible_rows(forest, opened);
    let none = Seq::<usize>::empty();
    if rows.contains(path) {
        let k = choose|k: int| 0 <= k < rows.len() && rows[k] == path;
        lemma_row_is_visible(forest, opened, none, 0, k);
        assert(path.skip(0) =~= path);
    }
    if is_visible(forest, opened, path) {
        assert forall|j: int| 0 < j < path.len() implies opened.contains(
            none + #[trigger] path.take(j),
        ) by {
            assert(none + path.take(j) =~= path.take(j));
        }
        lemma_visible_is_row(forest, opened, none, 0, path);
        assert(none + path =~= path);
    }
}

proof fn lemma_rows_differ(
    forest: Seq<NodeView>,
    opened: Set<Seq<usize>>,
    prefix: Seq<usize>,
    first: int,
)
    requires
        slots_fit(forest),
        0 <= first,
    ensures
        rows_from(forest, opened, prefix, first).no_duplicates(),
    decreases forest, forest.len() - first,
{
    let rows = rows_from(forest, opened, prefix, first);
    if first < forest.len() {
        let path = prefix.push(first as usize);
        let below = if opened.contains(path) {
            rows_from(forest[first].children, opened, path, 0)
        } else {
            Seq::empty()
        };
        let later = rows_from(forest, opened, prefix, first + 1);
        let depth = prefix.len() as int;
        if opened.contains(path) {
            lemma_rows_differ(forest[first].children, opened, path, 0);
        }
        lemma_rows_differ(forest, opened, prefix, first + 1);
        // The sibling's own path is shorter than the rows below it, which go on with its
        // slot; the rows of later siblings go on with a later slot.
        assert forall|a: int, b: int| 0 <= a < b < rows.len() implies rows[a] != rows[b] by {
            if b <= below.len() {
                lemma_row_is_visible(forest[first].children, opened, path, 0, b - 1);
                assert(rows[b] == below[b - 1]);
                if a > 0 {
                    assert(rows[a] == below[a - 1]);
                }
            } else {
                lemma_row_is_visible(forest, opened, prefix, first + 1, b - 1 - below.len());
                assert(rows[b] == later[b - 1 - below.len()]);
                if a == 0 {
                    assert(rows[a][depth] == first);
                } else if a <= below.len() {
                    lemma_row_is_visible(forest[first].children, opened, path, 0, a - 1);
                    assert(rows[a] == below[a - 1]);
                    assert(rows[a].take(depth + 1)[depth] == first);
                } else {
                    assert(rows[a] == later[a - 1 - below.len()]);
                }
            }
        }
    }
}

/// No path is a visible row of the tree twice, so each visible path has one place among the
/// rows.
pub proof fn lemma_visible_rows_differ(forest: Seq<NodeView>, opened: Set<Seq<usize>>)
    requires
        slots_fit(forest),
    ensures
        visible_rows(forest, opened).no_duplicates(),
{
    lemma_rows_differ(forest, opened, Seq::empty(), 0);
}

/// The last of the visible rows is found by going to the last child again and again, for as
/// long as the node reached is expanded and has children.
pub proof fn lemma_last_row_by_descent(
    forest: Seq<NodeView>,
    opened: Set<Seq<usize>>,
    prefix: Seq<usize>,
    first: int,
)
    requires
        0 <= first < forest.len(),
    ensures
        rows_from(forest, opened, prefix, first).len() > 0,
        rows_from(forest, opened, prefix, first).last() == last_row_below(forest, opened, prefix),
    decreases forest, forest.len() - first,
{
    let path = prefix.push(first as usize);
    let below = if opened.contains(path) {
        rows_from(forest[first].children, opened, path, 0)
    } else {
        Seq::empty()
    };
    let later = rows_from(forest, opened, prefix, first + 1);
    let rows = rows_from(forest, opened, prefix, first);
    assert(rows == seq![path] + below + later);
    if first + 1 < forest.len() {
        lemma_last_row_by_descent(forest, opened, prefix, first + 1);
        assert(rows.last() == later.last());
    } else if opened.contains(path) && forest[first].children.len() > 0 {
        lemma_last_row_by_descent(forest[first].children, opened, path, 0);
        assert(rows.last() == below.last());
    } else {
        assert(rows =~= seq![path]);
    }
}

/// The least index of a path among rows is within the rows where the rows hold the path.
pub proof fn lemma_row_of_bounds(rows: Seq<Seq<usize>>, path: Seq<usize>)
    ensures
        0 <= row_of(rows, path) <= rows.len(),
        row_of(rows, path) < rows.len() ==> rows[row_of(rows, path)] == path,
        forall|k: int| 0 <= k < row_of(rows, path) ==> rows[k] != path,
    decreases rows.len(),
{
    if rows.len() > 0 && rows[0] != path {
        let rest = rows.drop_first();
        lemma_row_of_bounds(rest, path);
        assert forall|k: int| 0 <= k < row_of(rows, path) implies rows[k] != path by {
            if k > 0 {
                assert(rest[k - 1] == rows[k]);
            }
        }
    }
}

} // verus!
