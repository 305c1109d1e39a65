use rust_interview_lab::binary_tree::Tree;

fn leaf(value: i32) -> Tree {
    Tree::Node { value, left: Box::new(Tree::Empty), right: Box::new(Tree::Empty) }
}

fn node(value: i32, left: Tree, right: Tree) -> Tree {
    Tree::Node { value, left: Box::new(left), right: Box::new(right) }
}

fn sample() -> Tree {
    node(3, leaf(9), node(20, leaf(15), leaf(7)))
}

#[test]
fn max_depth_works() {
    assert_eq!(Tree::Empty.max_depth(), 0);
    assert_eq!(leaf(1).max_depth(), 1);
    assert_eq!(sample().max_depth(), 3);
}

#[test]
fn invert_swaps_subtrees() {
    let mut tree = sample();
    tree.invert();
    match &tree {
        Tree::Node { left, right, .. } => {
            match left.as_ref() {
                Tree::Node { value, .. } => assert_eq!(*value, 20),
                _ => panic!("expected left node"),
            }
            match right.as_ref() {
                Tree::Node { value, .. } => assert_eq!(*value, 9),
                _ => panic!("expected right node"),
            }
        }
        _ => panic!("expected node"),
    }
}

#[test]
fn traversals_work() {
    let tree = sample();
    assert_eq!(tree.preorder(), vec![3, 9, 20, 15, 7]);
    assert_eq!(tree.inorder(), vec![9, 3, 15, 20, 7]);
    assert_eq!(tree.postorder(), vec![9, 15, 7, 20, 3]);
}

#[test]
fn inverting_twice_restores_the_tree_and_reverses_inorder() {
    let mut tree = sample();
    tree.invert();
    assert_eq!(tree.inorder(), vec![7, 20, 15, 3, 9]);
    assert_eq!(tree.max_depth(), 3);
    tree.invert();
    assert_eq!(tree, sample());
}
