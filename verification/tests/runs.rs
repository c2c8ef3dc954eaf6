use ndcopy::run::{copy_run, fill_run};

#[test]
fn copy_run_replaces_one_stretch() {
    let src: Vec<u32> = (10..20).collect();
    let mut dst = vec![0u32; 8];
    copy_run(&mut dst, 2, &src, 5, 3);
    assert_eq!(dst, [0, 0, 15, 16, 17, 0, 0, 0]);
    copy_run(&mut dst, 0, &src, 0, 8);
    assert_eq!(dst, [10, 11, 12, 13, 14, 15, 16, 17]);
    copy_run(&mut dst, 7, &src, 9, 1);
    assert_eq!(dst, [10, 11, 12, 13, 14, 15, 16, 19]);
}

#[test]
fn copy_run_of_no_element_changes_nothing() {
    let src: Vec<u32> = (10..20).collect();
    let mut dst = vec![0u32; 8];
    copy_run(&mut dst, 3, &src, 4, 0);
    copy_run(&mut dst, 8, &src, 10, 0);
    assert_eq!(dst, [0; 8]);
}

#[test]
fn copy_run_clones() {
    let src = vec![String::from("a"), String::from("b"), String::from("c")];
    let mut dst = vec![String::from("-"); 4];
    copy_run(&mut dst, 1, &src, 1, 2);
    assert_eq!(dst, ["-", "b", "c", "-"]);
    assert_eq!(src, ["a", "b", "c"]);
}

#[test]
fn fill_run_replaces_one_stretch() {
    let mut dst = vec![0u32; 8];
    fill_run(&mut dst, 2, 3, 7);
    assert_eq!(dst, [0, 0, 7, 7, 7, 0, 0, 0]);
    fill_run(&mut dst, 7, 1, 9);
    assert_eq!(dst, [0, 0, 7, 7, 7, 0, 0, 9]);
    fill_run(&mut dst, 4, 0, 1);
    fill_run(&mut dst, 8, 0, 1);
    assert_eq!(dst, [0, 0, 7, 7, 7, 0, 0, 9]);
    fill_run(&mut dst, 0, 8, 5);
    assert_eq!(dst, [5; 8]);
}

#[test]
fn fill_run_clones() {
    let mut dst = vec![Vec::<u8>::new(); 3];
    fill_run(&mut dst, 1, 2, vec![1, 2]);
    assert_eq!(dst, [vec![], vec![1, 2], vec![1, 2]]);
}
