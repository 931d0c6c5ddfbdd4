use time_game_lib::tree::{RoseTree, Zipper};

fn leaf(v: u32) -> RoseTree<u32, char> {
    RoseTree::singleton(v)
}

fn sample() -> RoseTree<u32, char> {
    RoseTree {
        val: 0,
        children: vec![('a', leaf(1)), ('b', leaf(2)), ('c', leaf(3))],
    }
}

#[test]
fn singleton_has_no_children() {
    let t = leaf(7);
    assert_eq!(t.val, 7);
    assert!(t.children.is_empty());
}

#[test]
fn down_then_up_restores_the_tree() {
    let mut z = Zipper::new(sample());
    assert_eq!(*z.get_focus_val(), 0);
    assert_eq!(z.down(1), Ok(()));
    assert_eq!(*z.get_focus_val(), 2);
    assert_eq!(z.up(), Ok(()));
    assert_eq!(*z.get_focus_val(), 0);
    assert!(z.focus == sample());
}

#[test]
fn down_out_of_bounds_is_refused() {
    let mut z = Zipper::new(sample());
    assert_eq!(z.down(3), Err("Index out of bounds"));
    assert!(z.focus == sample());
}

#[test]
fn up_at_root_is_refused() {
    let mut z = Zipper::new(sample());
    assert_eq!(z.up(), Err("Already at top of zipper"));
    assert!(z.focus == sample());
}

#[test]
fn left_and_right_move_between_siblings() {
    let mut z = Zipper::new(sample());
    z.down(1).expect("down");
    assert_eq!(z.left(), Ok(()));
    assert_eq!(*z.get_focus_val(), 1);
    assert_eq!(z.left(), Err("Nothing to the left"));
    assert_eq!(z.right(), Ok(()));
    assert_eq!(z.right(), Ok(()));
    assert_eq!(*z.get_focus_val(), 3);
    assert_eq!(z.right(), Err("Nothing to the right"));
    assert!(z.rezip() == sample());
}

#[test]
fn left_and_right_at_root_are_refused() {
    let mut z = Zipper::new(sample());
    assert_eq!(z.left(), Err("Nothing to the left"));
    assert_eq!(z.right(), Err("Nothing to the right"));
}

#[test]
fn push_adds_a_child_after_the_others() {
    let mut z = Zipper::new(sample());
    z.push(4, 'd');
    assert_eq!(*z.get_focus_val(), 4);
    assert!(z.focus.children.is_empty());
    assert_eq!(z.up(), Ok(()));
    let t = z.rezip();
    assert_eq!(t.val, 0);
    assert_eq!(t.children.len(), 4);
    assert_eq!(t.children[3].0, 'd');
    assert!(t.children[3].1 == leaf(4));
    assert!(t.children[0].1 == leaf(1));
}

#[test]
fn rezip_from_deep_focus_gives_whole_tree() {
    let mut z = Zipper::new(sample());
    z.down(2).expect("down");
    z.push(9, 'z');
    *z.get_focus_val_mut() = 10;
    let t = z.rezip();
    assert_eq!(t.children.len(), 3);
    assert_eq!(t.children[2].1.val, 3);
    assert_eq!(t.children[2].1.children.len(), 1);
    assert!(t.children[2].1.children[0].1 == leaf(10));
}

#[test]
fn focus_value_can_be_changed() {
    let mut z = Zipper::new(sample());
    *z.get_focus_val_mut() = 42;
    assert_eq!(*z.get_focus_val(), 42);
    assert_eq!(z.focus.children.len(), 3);
}

#[test]
fn vertical_moves_keep_the_tree() {
    let mut z = Zipper::new(sample());
    assert_eq!(z.down(1), Ok(()));
    assert_eq!(z.down(7), Err("Index out of bounds"));
    assert_eq!(z.up(), Ok(()));
    assert_eq!(z.up(), Err("Already at top of zipper"));
    assert!(z.rezip() == sample());
}
