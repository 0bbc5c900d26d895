use lib::bit_set::Bitset;
use lib::tree::Tree;

#[test]
fn tree_nodes_and_children() {
    let mut t = Tree::new();
    let a = t.add_node(3, &[]);
    let b = t.add_node(4, &[]);
    let c = t.add_node(10, &[a, b]);
    assert_eq!(c, 2);
    assert_eq!(t.item(c), 10);
    assert!(t.has_children(c));
    assert!(!t.has_children(a));
    assert_eq!(t.nb_children(c), 2);
    assert_eq!(t.nth_child(c, 1), Some(b));
    assert_eq!(t.nth_child(c, 2), None);
    assert_eq!(t.child(c, 0), a);
}

#[test]
fn bitset_grows_on_demand() {
    let mut s = Bitset::new();
    assert!(!s.has_bit(70));
    s.set_bit(70);
    s.set_bit(3);
    assert!(s.has_bit(70));
    assert!(s.has_bit(3));
    assert!(!s.has_bit(4));
    let t = s.copy();
    assert!(t.has_bit(70) && !t.has_bit(69));
}
