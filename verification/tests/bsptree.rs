use dss::bsptree::{BSPTree, MoveDirection, Rectangle, SplitDirection};

#[test]
fn bs() {
    let mut tree = BSPTree::new(Rectangle::new(0, 0, 64, 64));

    tree.insert(2);
    tree.insert(3);
    tree.insert(4);

    println!("{}", tree.print(0));
}

#[test]
fn scenario_first_two_inserts() {
    let mut tree = BSPTree::new(Rectangle::new(0, 0, 640, 480));

    tree.insert(1);
    let nodes = tree.walk();
    assert_eq!(nodes.len(), 1);
    assert_eq!(nodes[0].get_data(), Some(1));
    assert!(nodes[0].is_focused());
    assert_eq!(nodes[0].get_rect(), Rectangle::new(0, 0, 640, 480));

    tree.insert(2);
    let nodes = tree.walk();
    assert_eq!(nodes.len(), 3);
    // the root becomes internal and loses its payload
    assert_eq!(nodes[0].get_data(), None);
    assert!(!nodes[0].is_focused());
    // the default split is vertical: two halves of width 320
    assert_eq!(nodes[1].get_rect(), Rectangle::new(0, 0, 320, 480));
    assert_eq!(nodes[1].get_data(), Some(1));
    assert!(!nodes[1].is_focused());
    assert_eq!(nodes[2].get_rect(), Rectangle::new(320, 0, 320, 480));
    assert_eq!(nodes[2].get_data(), Some(2));
    assert!(nodes[2].is_focused());
}

#[test]
fn scenario_move_focus_left() {
    let mut tree = BSPTree::new(Rectangle::new(0, 0, 640, 480));
    tree.insert(1);
    tree.insert(2);

    tree.move_focus(MoveDirection::Left);

    let nodes = tree.walk();
    let focused: Vec<_> = nodes.iter().filter(|n| n.is_focused()).collect();
    assert_eq!(focused.len(), 1);
    assert_eq!(focused[0].get_data(), Some(1));
    assert_eq!(focused[0].get_rect(), Rectangle::new(0, 0, 320, 480));
}

#[test]
fn scenario_delete_focused() {
    let mut tree = BSPTree::new(Rectangle::new(0, 0, 640, 480));
    tree.insert(1);
    tree.insert(2);

    // focus is on the leaf holding 2; its sibling is promoted to the root
    tree.delete_focused();

    let nodes = tree.walk();
    assert_eq!(nodes.len(), 1);
    assert_eq!(nodes[0].get_data(), Some(1));
    assert!(nodes[0].is_focused());
    assert_eq!(nodes[0].get_rect(), Rectangle::new(0, 0, 640, 480));
}

#[test]
fn scenario_toggle_split() {
    let mut tree = BSPTree::new(Rectangle::new(0, 0, 640, 480));
    tree.insert(1);
    tree.toggle_split();
    tree.insert(2);

    let nodes = tree.walk();
    assert_eq!(nodes.len(), 3);
    // the split happened horizontally: top/bottom halves of height 240
    assert_eq!(nodes[1].get_rect(), Rectangle::new(0, 0, 640, 240));
    assert_eq!(nodes[2].get_rect(), Rectangle::new(0, 240, 640, 240));
    assert_eq!(nodes[2].get_data(), Some(2));
}

#[test]
fn boundary_shared_edge() {
    // two adjacent halves both contain their shared edge
    let left_half = Rectangle::new(0, 0, 320, 480);
    let right_half = Rectangle::new(320, 0, 320, 480);
    assert!(left_half.is_inside(320, 10));
    assert!(right_half.is_inside(320, 10));

    // get_node prefers the right/second child on the shared edge
    let mut tree = BSPTree::new(Rectangle::new(0, 0, 640, 480));
    tree.insert(1);
    tree.insert(2);
    let hit = tree.get_node(320, 10).unwrap();
    assert_eq!(hit.get_data(), Some(2));
}

#[test]
fn boundary_odd_dimensions() {
    // integer halving truncates: the halves of 7 are 3 and 3
    let rect = Rectangle::new(0, 0, 7, 5);
    let (a, b) = SplitDirection::Vertical.split(rect);
    assert_eq!(a, Rectangle::new(0, 0, 3, 5));
    assert_eq!(b, Rectangle::new(3, 0, 3, 5));
    let (c, d) = SplitDirection::Horizontal.split(rect);
    assert_eq!(c, Rectangle::new(0, 0, 7, 2));
    assert_eq!(d, Rectangle::new(0, 2, 7, 2));
}

#[test]
fn insert_counts_and_empty_out() {
    let mut tree = BSPTree::new(Rectangle::new(0, 0, 640, 480));
    for i in 0..5 {
        tree.insert(i + 1);
    }
    let nodes = tree.walk();
    assert_eq!(nodes.len(), 9);
    let leaves = nodes.iter().filter(|n| n.get_data().is_some()).count();
    assert_eq!(leaves, 5);
    let internals = nodes.iter().filter(|n| n.get_data().is_none()).count();
    assert_eq!(internals, 4);

    for _ in 0..4 {
        tree.delete_focused();
    }
    assert_eq!(tree.walk().len(), 1);
    tree.delete_focused();
    assert_eq!(tree.walk().len(), 0);
    // deleting from an empty tree stays a no-op
    tree.delete_focused();
    assert_eq!(tree.walk().len(), 0);
}

#[test]
fn move_focus_off_edge_stays() {
    let mut tree = BSPTree::new(Rectangle::new(0, 0, 640, 480));
    tree.insert(1);
    tree.insert(2);
    tree.move_focus(MoveDirection::Left);
    // a second move left probes outside the tree: focus stays put
    tree.move_focus(MoveDirection::Left);
    let nodes = tree.walk();
    let focused: Vec<_> = nodes.iter().filter(|n| n.is_focused()).collect();
    assert_eq!(focused.len(), 1);
    assert_eq!(focused[0].get_data(), Some(1));
}

#[test]
fn focus_coords_outside_is_noop() {
    let mut tree = BSPTree::new(Rectangle::new(0, 0, 640, 480));
    tree.insert(1);
    tree.insert(2);
    tree.focus_coords(10000, 10);
    let nodes = tree.walk();
    let focused: Vec<_> = nodes.iter().filter(|n| n.is_focused()).collect();
    assert_eq!(focused.len(), 1);
    assert_eq!(focused[0].get_data(), Some(2));

    tree.focus_coords(10, 10);
    let nodes = tree.walk();
    let focused: Vec<_> = nodes.iter().filter(|n| n.is_focused()).collect();
    assert_eq!(focused[0].get_data(), Some(1));
}

#[test]
fn set_split_controls_next_split() {
    let mut tree = BSPTree::new(Rectangle::new(0, 0, 640, 480));
    tree.insert(1);
    tree.set_split(SplitDirection::Horizontal);
    tree.insert(2);
    let nodes = tree.walk();
    assert_eq!(nodes[1].get_rect(), Rectangle::new(0, 0, 640, 240));
    // the children inherit the policy; setting it back affects the focused leaf
    tree.set_split(SplitDirection::Vertical);
    tree.insert(3);
    let nodes = tree.walk();
    // the bottom half split vertically into two leaves of width 320
    assert_eq!(nodes[3].get_rect(), Rectangle::new(0, 240, 320, 240));
    assert_eq!(nodes[4].get_rect(), Rectangle::new(320, 240, 320, 240));
}

#[test]
fn print_orders() {
    let mut tree = BSPTree::new(Rectangle::new(0, 0, 640, 480));
    assert_eq!(tree.print(0), "");
    tree.insert(1);
    tree.insert(2);

    let root = "value:None size:(0, 0); (640, 480) focus:false right_child:false\n";
    let left = "    value:Some(1) size:(0, 0); (320, 480) focus:false right_child:false\n";
    let right = "    value:Some(2) size:(320, 0); (320, 480) focus:true right_child:true\n";

    assert_eq!(tree.print(0), format!("{root}{left}{right}"));
    assert_eq!(tree.print(1), format!("{left}{root}{right}"));
    assert_eq!(tree.print(2), format!("{left}{right}{root}"));
}

#[test]
fn delete_with_sibling_subtree() {
    let mut tree = BSPTree::new(Rectangle::new(0, 0, 640, 480));
    tree.insert(1);
    tree.insert(2);
    tree.insert(3);
    // focus on leaf 3; move to leaf 1 and delete it: the subtree holding
    // 2 and 3 is promoted to span the whole bounding rectangle
    tree.focus_coords(10, 10);
    tree.delete_focused();

    let nodes = tree.walk();
    assert_eq!(nodes.len(), 3);
    assert_eq!(nodes[0].get_rect(), Rectangle::new(0, 0, 640, 480));
    assert_eq!(nodes[1].get_data(), Some(2));
    assert_eq!(nodes[1].get_rect(), Rectangle::new(0, 0, 320, 480));
    assert_eq!(nodes[2].get_data(), Some(3));
    assert_eq!(nodes[2].get_rect(), Rectangle::new(320, 0, 320, 480));
    let focused: Vec<_> = nodes.iter().filter(|n| n.is_focused()).collect();
    assert_eq!(focused.len(), 1);
    assert_eq!(focused[0].get_data(), Some(2));
}

#[test]
fn get_node_respects_leaf_rectangle() {
    let mut tree = BSPTree::new(Rectangle::new(0, 0, 640, 480));
    assert!(tree.get_node(5, 5).is_none());

    tree.insert(1);
    // a point outside the single leaf's rectangle finds nothing
    assert!(tree.get_node(5000, 5000).is_none());
    assert!(tree.get_node(-1, 5).is_none());
    // both edges are inclusive, so the far corner still hits the leaf
    let hit = tree.get_node(640, 480).unwrap();
    assert_eq!(hit.get_data(), Some(1));
    let hit = tree.get_node(0, 0).unwrap();
    assert_eq!(hit.get_data(), Some(1));
}
