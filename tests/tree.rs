use atree::{Handle, TraversalOrder, Tree};

fn values(tree: &Tree<&'static str>, hs: &[Handle]) -> Vec<&'static str> {
    hs.iter().map(|h| tree.get(*h).unwrap().data).collect()
}

#[test]
fn with_data_makes_one_root() {
    let (tree, root) = Tree::with_data("Indo-European");
    assert_eq!(tree.len(), 1);
    assert!(!tree.is_empty());
    let node = tree.get(root).unwrap();
    assert_eq!(node.data, "Indo-European");
    assert!(node.parent.is_none());
    assert!(node.first_child.is_none());
}

#[test]
fn append_links_children_in_order() {
    let (mut tree, a) = Tree::with_data("A");
    let b = tree.append(a, "B");
    let c = tree.append(a, "C");
    assert_eq!(tree.children(a), vec![b, c]);
    let na = tree.node_ref(a);
    assert_eq!(na.first_child, Some(b));
    assert_eq!(na.last_child, Some(c));
    assert_eq!(tree.get(b).unwrap().next_sibling, Some(c));
    assert_eq!(tree.get(c).unwrap().previous_sibling, Some(b));
    assert_eq!(tree.get(c).unwrap().parent, Some(a));
}

#[test]
fn pre_order_is_left_to_right() {
    let (mut tree, a) = Tree::with_data("A");
    let b = tree.append(a, "B");
    tree.append(a, "C");
    tree.append(b, "D");
    let order = tree.subtree(a, TraversalOrder::Pre);
    assert_eq!(values(&tree, &order), vec!["A", "B", "D", "C"]);
}

#[test]
fn post_order_and_descendants() {
    let (mut tree, a) = Tree::with_data("A");
    let b = tree.append(a, "B");
    tree.append(a, "C");
    tree.append(b, "D");
    let post = tree.subtree(a, TraversalOrder::Post);
    assert_eq!(values(&tree, &post), vec!["D", "B", "C", "A"]);
    let pre = tree.descendants(a, TraversalOrder::Pre);
    assert_eq!(values(&tree, &pre), vec!["B", "D", "C"]);
    let post = tree.descendants(a, TraversalOrder::Post);
    assert_eq!(values(&tree, &post), vec!["D", "B", "C"]);
}

#[test]
fn ancestors_walk_up_to_the_root() {
    let (mut tree, root) = Tree::with_data("Indo-European");
    let slavic = tree.append(root, "Slavic");
    let polish = tree.append(slavic, "Polish");
    assert_eq!(values(&tree, &tree.ancestors(polish)), vec!["Slavic", "Indo-European"]);
    assert!(tree.ancestors(root).is_empty());
}

#[test]
fn remove_orphans_children() {
    let (mut tree, a) = Tree::with_data("A");
    let b = tree.append(a, "B");
    let c = tree.append(a, "C");
    let d = tree.append(b, "D");
    let orphans = tree.remove(b).unwrap();
    assert_eq!(orphans, vec![d]);
    assert_eq!(tree.len(), 3);
    assert!(tree.get(d).unwrap().parent.is_none());
    assert_eq!(tree.get(d).unwrap().data, "D");
    assert_eq!(tree.children(a), vec![c]);
    assert!(tree.get(b).is_none());
}

#[test]
fn remove_keeps_each_orphan_subtree() {
    let (mut tree, root) = Tree::with_data("Indo-European");
    let germanic = tree.append(root, "Germanic");
    let west = tree.append(germanic, "West");
    let scots = tree.append(west, "Scots");
    let english = tree.append(west, "English");
    let old_english = tree.append(english, "Old English");
    let orphans = tree.remove(west).unwrap();
    assert_eq!(orphans, vec![scots, english]);
    for o in &orphans {
        assert!(tree.get(*o).unwrap().parent.is_none());
        assert!(tree.get(*o).unwrap().previous_sibling.is_none());
        assert!(tree.get(*o).unwrap().next_sibling.is_none());
    }
    assert_eq!(tree.children(english), vec![old_english]);
    let rest = tree.subtree(root, TraversalOrder::Pre);
    assert_eq!(values(&tree, &rest), vec!["Indo-European", "Germanic"]);
}

#[test]
fn remove_middle_child_relinks_siblings() {
    let (mut tree, a) = Tree::with_data("A");
    let b = tree.append(a, "B");
    let c = tree.append(a, "C");
    let d = tree.append(a, "D");
    assert_eq!(tree.remove(c), Some(vec![]));
    assert_eq!(tree.children(a), vec![b, d]);
    assert_eq!(tree.get(b).unwrap().next_sibling, Some(d));
    assert_eq!(tree.get(d).unwrap().previous_sibling, Some(b));
}

#[test]
fn remove_of_a_lone_root_frees_it() {
    let (mut tree, a) = Tree::with_data(1u8);
    assert_eq!(tree.remove(a), Some(vec![]));
    assert!(tree.is_empty());
    assert_eq!(tree.remove(a), None);
    assert_eq!(tree.remove(Handle(99)), None);
}

#[test]
fn detach_makes_a_root_with_its_subtree() {
    let (mut tree, a) = Tree::with_data("A");
    let b = tree.append(a, "B");
    let c = tree.append(a, "C");
    let d = tree.append(b, "D");
    tree.detach(b);
    assert!(tree.get(b).unwrap().parent.is_none());
    assert_eq!(tree.children(a), vec![c]);
    assert_eq!(tree.children(b), vec![d]);
    assert_eq!(tree.get(c).unwrap().previous_sibling, None);
    assert_eq!(tree.len(), 4);
}

#[test]
fn freed_node_reads_as_absent_until_reused() {
    let (mut tree, a) = Tree::with_data(String::from("a"));
    let b = tree.append(a, String::from("b"));
    tree.remove(b);
    assert!(tree.get(b).is_none());
    assert!(tree.get_mut(b).is_none());
    let cap = tree.capacity();
    let e = tree.append(a, String::from("e"));
    assert_eq!(e, b);
    assert_eq!(tree.capacity(), cap);
}

#[test]
fn get_mut_changes_only_the_value() {
    let (mut tree, a) = Tree::with_data(1u32);
    let b = tree.append(a, 2u32);
    *tree.get_mut(b).unwrap() = 20;
    assert_eq!(tree.get(b).unwrap().data, 20);
    assert_eq!(tree.get(b).unwrap().parent, Some(a));
    assert_eq!(tree.children(a), vec![b]);
}

#[test]
fn new_node_starts_an_independent_tree() {
    let mut tree = Tree::new();
    let x = tree.new_node('x');
    let y = tree.new_node('y');
    tree.append(y, 'z');
    assert_eq!(tree.len(), 3);
    assert!(tree.children(x).is_empty());
    assert_eq!(tree.subtree(y, TraversalOrder::Pre).len(), 2);
}

#[test]
fn uproot_frees_the_whole_subtree() {
    let (mut tree, root) = Tree::with_data("Indo-European");
    tree.append(root, "Romance");
    let germanic = tree.append(root, "Germanic");
    let slavic = tree.append(root, "Slavic");
    let english = tree.append(germanic, "English");
    let swedish = tree.append(germanic, "Swedish");
    tree.append(slavic, "Polish");
    assert_eq!(tree.len(), 7);
    let cap = tree.capacity();
    assert!(tree.uproot(germanic));
    assert_eq!(tree.len(), 4);
    assert!(tree.get(germanic).is_none());
    assert!(tree.get(english).is_none());
    assert!(tree.get(swedish).is_none());
    let rest = tree.subtree(root, TraversalOrder::Pre);
    assert_eq!(values(&tree, &rest), vec!["Indo-European", "Romance", "Slavic", "Polish"]);
    for name in ["a", "b", "c"] {
        tree.append(root, name);
    }
    assert_eq!(tree.capacity(), cap);
    assert_eq!(tree.len(), 7);
}

#[test]
fn uproot_of_a_missing_node_changes_nothing() {
    let (mut tree, root) = Tree::with_data(0u16);
    let child = tree.append(root, 1);
    assert!(tree.uproot(child));
    assert!(!tree.uproot(child));
    assert!(!tree.uproot(Handle(50)));
    assert_eq!(tree.len(), 1);
    assert!(tree.children(root).is_empty());
}

#[test]
fn sibling_walks_go_outward_from_the_node() {
    let (mut tree, root) = Tree::with_data("root");
    let a = tree.append(root, "a");
    let b = tree.append(root, "b");
    let c = tree.append(root, "c");
    let d = tree.append(root, "d");
    assert_eq!(tree.following_siblings(b), vec![c, d]);
    assert_eq!(tree.preceding_siblings(c), vec![b, a]);
    assert!(tree.following_siblings(d).is_empty());
    assert!(tree.preceding_siblings(a).is_empty());
    assert!(tree.following_siblings(root).is_empty());
    assert!(tree.preceding_siblings(root).is_empty());
}
