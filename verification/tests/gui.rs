use hephae::gui::{gui_depths, GuiDepth};

fn d(depth: usize, total_depth: usize) -> GuiDepth {
    GuiDepth { depth, total_depth }
}

#[test]
fn depths_of_two_trees() {
    let roots = vec![0usize, 4];
    let children = vec![vec![1usize, 2], vec![3], vec![], vec![], vec![5], vec![6], vec![]];
    let is_gui = vec![true, true, true, true, true, true, false];
    let r = gui_depths(&roots, &children, &is_gui);
    assert_eq!(
        r,
        vec![(0, d(0, 2)), (1, d(1, 2)), (3, d(2, 2)), (2, d(1, 2)), (4, d(0, 1)), (5, d(1, 1))]
    );
}

#[test]
fn lone_root_has_depth_zero() {
    let r = gui_depths(&vec![0usize], &vec![vec![7usize]], &vec![true]);
    assert_eq!(r, vec![(0, d(0, 0))]);
}

#[test]
fn no_roots_no_depths() {
    let r = gui_depths(&Vec::new(), &vec![Vec::new()], &vec![true]);
    assert!(r.is_empty());
}
