use spmc::{build_tree, child_count, get_item, label_of, resolve, CatalogError, Goods, TreeItem};

#[derive(Debug)]
struct Tree {
    children: Vec<Tree>,
}

impl Tree {
    fn new<Children>(children: Children) -> Self
    where
        Children: Into<Vec<Tree>>,
    {
        Self { children: children.into() }
    }

    pub fn children(&self) -> &[Tree] {
        &self.children
    }

    pub fn add_child(&mut self, child: Tree) {
        self.children.push(child);
    }
}

fn build_tree_v() -> Vec<Tree> {
    let mut dummy_root = Tree::new(vec![]);
    for _ in 0..3 {
        dummy_root.add_child(Tree::new(vec![]))
    }
    dummy_root.children
}

fn record(code: &str, name: &str) -> Goods {
    Goods {
        code: String::from(code),
        hwlwmc: String::from(name),
        spfwfljc: String::new(),
        desc: String::new(),
    }
}

fn labels(items: &[TreeItem]) -> Vec<String> {
    items.iter().map(|item| item.label.clone()).collect()
}

#[test]
fn test_build_tree() {
    let t = build_tree_v();
    println!("t: {:?}", t);
    assert_eq!(t.len(), 3);
    assert!(t.iter().all(|child| child.children().is_empty()));

    let mut dummy_root = TreeItem::new(String::new(), vec![]);
    for _ in 0..3 {
        dummy_root.children.push(TreeItem::new(String::new(), vec![]));
    }
    println!("t: {:?}", dummy_root.children);
    assert_eq!(child_count(&dummy_root.children, &[]), Ok(3));
}

#[test]
fn no_records_no_tree() {
    let tree = build_tree(&vec![]).unwrap();
    assert!(tree.items.is_empty());
    assert!(tree.state.selected().is_empty());
    assert!(tree.state.get_all_opened().is_empty());
}

#[test]
fn two_first_level_records_make_two_top_level_nodes() {
    let goods = vec![record("1000000000000000000", "A"), record("2000000000000000000", "B")];
    let tree = build_tree(&goods).unwrap();
    assert_eq!(labels(&tree.items), vec!["A", "B"]);
    assert!(tree.items[0].children.is_empty());
    assert!(tree.items[1].children.is_empty());
}

#[test]
fn second_level_record_goes_under_its_parent() {
    let goods = vec![
        record("1000000000000000000", "A"),
        record("2000000000000000000", "B"),
        record("1010000000000000000", "C"),
    ];
    let tree = build_tree(&goods).unwrap();
    assert_eq!(labels(&tree.items), vec!["A", "B"]);
    assert_eq!(labels(&tree.items[0].children), vec!["C"]);
    assert!(tree.items[0].children[0].children.is_empty());
    assert!(tree.items[1].children.is_empty());
}

#[test]
fn code_that_starts_with_zero_adds_nothing() {
    let goods = vec![record("0101000000000000000", "A"), record("0102000000000000000", "B")];
    let tree = build_tree(&goods).unwrap();
    assert!(tree.items.is_empty());

    let goods = vec![
        record("1000000000000000000", "A"),
        record("0101010000000000000", "C"),
    ];
    let tree = build_tree(&goods).unwrap();
    assert_eq!(labels(&tree.items), vec!["A"]);
    assert!(tree.items[0].children.is_empty());
}

#[test]
fn record_adds_one_node_at_most() {
    let goods = vec![record("1010100000000000000", "deep")];
    let tree = build_tree(&goods).unwrap();
    assert_eq!(labels(&tree.items), vec!["deep"]);
    assert!(tree.items[0].children.is_empty());
}

#[test]
fn record_whose_parent_is_missing_lands_on_the_level_that_is() {
    let goods = vec![
        record("1000000000000000000", "A"),
        record("1020300000000000000", "orphan"),
    ];
    let tree = build_tree(&goods).unwrap();
    assert_eq!(labels(&tree.items), vec!["A"]);
    assert_eq!(labels(&tree.items[0].children), vec!["orphan"]);
}

#[test]
fn missing_slot_is_filled_at_the_end_of_its_siblings() {
    let goods = vec![record("1000000000000000000", "A"), record("5000000000000000000", "E")];
    let tree = build_tree(&goods).unwrap();
    assert_eq!(labels(&tree.items), vec!["A", "E"]);
}

#[test]
fn record_of_an_existing_node_adds_nothing() {
    let goods = vec![
        record("1000000000000000000", "A"),
        record("1000000000000000000", "again"),
    ];
    let tree = build_tree(&goods).unwrap();
    assert_eq!(labels(&tree.items), vec!["A"]);
    assert!(tree.items[0].children.is_empty());
}

#[test]
fn ten_levels_deep() {
    let codes = [
        "1000000000000000000",
        "1010000000000000000",
        "1010100000000000000",
        "1010101000000000000",
        "1010101010000000000",
        "1010101010100000000",
        "1010101010101000000",
        "1010101010101010000",
        "1010101010101010100",
        "1010101010101010101",
        "1010101010101010101",
    ];
    let goods: Vec<Goods> = codes.iter().map(|code| record(code, code)).collect();
    let tree = build_tree(&goods).unwrap();
    let path = vec![0; 10];
    assert_eq!(label_of(&tree.items, &path), Ok(String::from("1010101010101010101")));
    assert_eq!(child_count(&tree.items, &path), Ok(0));
}

#[test]
fn malformed_code_fails_the_construction() {
    let goods = vec![record("1000000000000000000", "A"), record("20", "B")];
    assert_eq!(build_tree(&goods).err(), Some(CatalogError::MalformedCode));
    let goods = vec![record("100000000000000000x", "A")];
    assert_eq!(build_tree(&goods).err(), Some(CatalogError::MalformedCode));
    let goods = vec![record("10000000000000000000", "A")];
    assert_eq!(build_tree(&goods).err(), Some(CatalogError::MalformedCode));
}

#[test]
fn queries_by_path() {
    let goods = vec![
        record("1000000000000000000", "A"),
        record("2000000000000000000", "B"),
        record("1010000000000000000", "C"),
        record("1020000000000000000", "D"),
    ];
    let tree = build_tree(&goods).unwrap();
    assert_eq!(child_count(&tree.items, &[]), Ok(2));
    assert_eq!(child_count(&tree.items, &[0]), Ok(2));
    assert_eq!(child_count(&tree.items, &[1]), Ok(0));
    assert_eq!(child_count(&tree.items, &[0, 1]), Ok(0));
    assert_eq!(label_of(&tree.items, &[0]), Ok(String::from("A")));
    assert_eq!(label_of(&tree.items, &[0, 1]), Ok(String::from("D")));
    assert_eq!(resolve(&tree.items, &[0, 0]).unwrap().label, "C");
    assert_eq!(get_item(&tree.items, &[1]).unwrap().label, "B");
}

#[test]
fn path_that_does_not_resolve() {
    let goods = vec![record("1000000000000000000", "A"), record("1010000000000000000", "C")];
    let tree = build_tree(&goods).unwrap();
    assert!(get_item(&tree.items, &[]).is_none());
    assert!(get_item(&tree.items, &[1]).is_none());
    assert!(get_item(&tree.items, &[0, 1]).is_none());
    assert!(get_item(&tree.items, &[0, 0, 0]).is_none());
    assert!(get_item(&tree.items, &[5, 0]).is_none());
    assert_eq!(resolve(&tree.items, &[]).err(), Some(CatalogError::PathNotFound));
    assert_eq!(resolve(&tree.items, &[1]).err(), Some(CatalogError::PathNotFound));
    assert_eq!(child_count(&tree.items, &[0, 0, 0]), Err(CatalogError::PathNotFound));
    assert_eq!(label_of(&tree.items, &[]), Err(CatalogError::PathNotFound));
    assert_eq!(label_of(&tree.items, &[0, 3]), Err(CatalogError::PathNotFound));
}

fn count(items: &[TreeItem]) -> usize {
    items.iter().map(|item| 1 + count(&item.children)).sum()
}

fn all_labelled(items: &[TreeItem]) -> bool {
    items.iter().all(|item| !item.label.is_empty() && all_labelled(&item.children))
}

#[test]
fn each_record_adds_one_node_or_none() {
    let goods = vec![
        record("1000000000000000000", "A"),
        record("1010000000000000000", "C"),
        record("1010000000000000000", "C again"),
        record("0000000000000000000", "nowhere"),
        record("1010203040000000000", "far below"),
        record("2000000000000000000", "B"),
    ];
    let mut so_far = Vec::new();
    let mut before = 0;
    for goods in goods {
        so_far.push(goods);
        let after = count(&build_tree(&so_far).unwrap().items);
        assert!(after == before || after == before + 1);
        before = after;
    }
    assert_eq!(before, 4);
}

#[test]
fn later_records_keep_the_nodes_that_are_there() {
    let mut goods = vec![
        record("1000000000000000000", "A"),
        record("1010000000000000000", "C"),
        record("2000000000000000000", "B"),
    ];
    let paths: [&[usize]; 3] = [&[0], &[0, 0], &[1]];
    let before: Vec<String> = {
        let tree = build_tree(&goods).unwrap();
        paths.iter().map(|path| label_of(&tree.items, path).unwrap()).collect()
    };
    goods.push(record("1010100000000000000", "F"));
    goods.push(record("1000000000000000000", "other"));
    goods.push(record("3000000000000000000", "G"));
    let tree = build_tree(&goods).unwrap();
    let after: Vec<String> =
        paths.iter().map(|path| label_of(&tree.items, path).unwrap()).collect();
    assert_eq!(before, after);
}

#[test]
fn named_records_make_labelled_nodes() {
    let goods = vec![
        record("1000000000000000000", "A"),
        record("1010000000000000000", "C"),
        record("2000000000000000000", "B"),
    ];
    assert!(all_labelled(&build_tree(&goods).unwrap().items));
    let goods = vec![record("1000000000000000000", "")];
    let tree = build_tree(&goods).unwrap();
    assert_eq!(tree.items.len(), 1);
    assert_eq!(tree.items[0].label, "");
}

#[test]
fn node_of_a_record_in_order_has_the_code_of_the_record() {
    let goods = vec![
        record("1000000000000000000", "A"),
        record("1010000000000000000", "C"),
        record("1020000000000000000", "D"),
        record("1020100000000000000", "F"),
        record("2000000000000000000", "B"),
    ];
    let tree = build_tree(&goods).unwrap();
    let paths: [&[usize]; 5] = [&[0], &[0, 0], &[0, 1], &[0, 1, 0], &[1]];
    for (goods, path) in goods.iter().zip(paths) {
        assert_eq!(label_of(&tree.items, path).unwrap(), goods.hwlwmc);
        assert_eq!(spmc::vec_2_code(&path.to_vec()), goods.code);
    }
}
