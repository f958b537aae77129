//! The call tree: flattening, traversal order, rebuilding, validation.

use darkcore::calltree::{DarkLeaf, DarkTree};
use darkcore::errors::ContractError;

/// The example tree: root R with children [A, B], and A itself with
/// child [C].
fn example_tree() -> DarkTree<&'static str> {
    let c = DarkTree::new("C", Vec::new());
    let a = DarkTree::new("A", vec![c]);
    let b = DarkTree::new("B", Vec::new());
    DarkTree::new("R", vec![a, b])
}

#[test]
fn post_order_is_c_a_b_r() {
    let flat = example_tree().flatten();
    let datas: Vec<&str> = flat.iter().map(|l| l.data).collect();
    assert_eq!(datas, vec!["C", "A", "B", "R"]);
}

#[test]
fn flatten_assigns_post_order_links() {
    let flat = example_tree().flatten();
    assert_eq!(flat.len(), 4);
    // C
    assert_eq!(flat[0].index, 0);
    assert_eq!(flat[0].parent_index, Some(1));
    assert!(flat[0].children_indexes.is_empty());
    // A
    assert_eq!(flat[1].index, 1);
    assert_eq!(flat[1].parent_index, Some(3));
    assert_eq!(flat[1].children_indexes, vec![0]);
    // B
    assert_eq!(flat[2].index, 2);
    assert_eq!(flat[2].parent_index, Some(3));
    assert!(flat[2].children_indexes.is_empty());
    // R: the root comes last and has no parent
    assert_eq!(flat[3].index, 3);
    assert_eq!(flat[3].parent_index, None);
    assert_eq!(flat[3].children_indexes, vec![1, 2]);
}

#[test]
fn single_leaf_tree_flattens_to_one_record() {
    let flat = DarkTree::new(7u64, Vec::new()).flatten();
    assert_eq!(flat.len(), 1);
    assert_eq!(flat[0].data, 7);
    assert_eq!(flat[0].index, 0);
    assert_eq!(flat[0].parent_index, None);
    assert!(flat[0].children_indexes.is_empty());
}

#[test]
fn build_reconstructs_the_nesting() {
    let flat = example_tree().flatten();
    let rebuilt = DarkTree::build(flat).unwrap();
    // Same payloads, same nesting, same child order; the leaves now
    // carry their post-order links.
    assert_eq!(rebuilt.leaf.data, "R");
    assert_eq!(rebuilt.children.len(), 2);
    assert_eq!(rebuilt.children[0].leaf.data, "A");
    assert_eq!(rebuilt.children[0].children.len(), 1);
    assert_eq!(rebuilt.children[0].children[0].leaf.data, "C");
    assert_eq!(rebuilt.children[1].leaf.data, "B");
    assert!(rebuilt.children[1].children.is_empty());
    assert_eq!(rebuilt.leaf.index, 3);
    assert_eq!(rebuilt.children[0].leaf.index, 1);
    // Flattening again reproduces the same wire form.
    let again = rebuilt.flatten();
    let datas: Vec<&str> = again.iter().map(|l| l.data).collect();
    assert_eq!(datas, vec!["C", "A", "B", "R"]);
}

#[test]
fn build_rejects_shuffled_records() {
    let mut flat = example_tree().flatten();
    flat.swap(0, 2);
    assert_eq!(DarkTree::build(flat), Err(ContractError::MalformedCallTree));
}

#[test]
fn validate_accepts_flattened_trees() {
    let flat = example_tree().flatten();
    assert_eq!(DarkTree::validate(&flat), Ok(()));
}

#[test]
fn validate_rejects_empty_and_broken_links() {
    let empty: Vec<DarkLeaf<u8>> = Vec::new();
    assert_eq!(DarkTree::validate(&empty), Err(ContractError::MalformedCallTree));

    // A parent link pointing backwards breaks the post-order rule.
    let mut flat = example_tree().flatten();
    flat[1].parent_index = Some(0);
    assert_eq!(DarkTree::validate(&flat), Err(ContractError::MalformedCallTree));

    // A root that is not last.
    let mut flat = example_tree().flatten();
    flat[2].parent_index = None;
    assert_eq!(DarkTree::validate(&flat), Err(ContractError::MalformedCallTree));

    // A child list out of sibling order.
    let mut flat = example_tree().flatten();
    flat[3].children_indexes = vec![2, 1];
    assert_eq!(DarkTree::validate(&flat), Err(ContractError::MalformedCallTree));
}

#[test]
fn iter_yields_post_order_borrows() {
    let t = example_tree();
    let leaves = t.iter();
    let datas: Vec<&str> = leaves.iter().map(|l| l.data).collect();
    assert_eq!(datas, vec!["C", "A", "B", "R"]);
}

#[test]
fn iter_mut_paths_visit_post_order() {
    let mut t = example_tree();
    let paths = t.iter_mut();
    assert_eq!(paths, vec![vec![0, 0], vec![0], vec![1], vec![]]);
    // Exclusive per-leaf access through the paths, in traversal order.
    for (k, p) in paths.iter().enumerate() {
        let tag: &'static str = ["c2", "a2", "b2", "r2"][k];
        t.set_leaf_data(p, tag).unwrap();
    }
    let datas: Vec<&str> = t.flatten().iter().map(|l| l.data).collect();
    assert_eq!(datas, vec!["c2", "a2", "b2", "r2"]);
}

#[test]
fn leaf_at_follows_paths() {
    let t = example_tree();
    assert_eq!(t.leaf_at(&vec![]).unwrap().data, "R");
    assert_eq!(t.leaf_at(&vec![0]).unwrap().data, "A");
    assert_eq!(t.leaf_at(&vec![0, 0]).unwrap().data, "C");
    assert_eq!(t.leaf_at(&vec![1]).unwrap().data, "B");
    assert!(t.leaf_at(&vec![2]).is_none());
    assert!(t.leaf_at(&vec![0, 0, 0]).is_none());
}

#[test]
fn deep_tree_traversal_stays_iterative() {
    // A synthetically deep chain: traversal must not grow the call
    // stack with the tree's depth.
    let depth = 100_000usize;
    let mut t = DarkTree::new(0usize, Vec::new());
    for d in 1..depth {
        t = DarkTree::new(d, vec![t]);
    }
    let flat = t.flatten();
    assert_eq!(flat.len(), depth);
    // Post-order: the deepest leaf first, the root last.
    assert_eq!(flat[0].data, 0);
    assert_eq!(flat[0].parent_index, Some(1));
    assert_eq!(flat[depth - 1].data, depth - 1);
    assert_eq!(flat[depth - 1].parent_index, None);
    assert_eq!(DarkTree::validate(&flat), Ok(()));
}

#[test]
fn set_leaf_data_rejects_missing_paths() {
    let mut t = example_tree();
    assert_eq!(t.set_leaf_data(&vec![3], "x"), Err(ContractError::MalformedCallTree));
    assert_eq!(t.set_leaf_data(&vec![0, 1], "x"), Err(ContractError::MalformedCallTree));
    // The tree is untouched.
    let datas: Vec<&str> = t.flatten().iter().map(|l| l.data).collect();
    assert_eq!(datas, vec!["C", "A", "B", "R"]);
}

#[test]
fn leaf_new_has_default_links() {
    let l = DarkLeaf::new(42u32);
    assert_eq!(l.data, 42);
    assert_eq!(l.index, 0);
    assert_eq!(l.parent_index, None);
    assert!(l.children_indexes.is_empty());
}
