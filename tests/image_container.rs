use split_merge::{CutDirection, ImageContainer, ImageContainerSplit, SplitMergeError};

fn whole_image() -> ImageContainerSplit {
    // 200 pixels wide, 100 high
    ImageContainer::new(100, 200).to_image_container_split()
}

#[test]
fn test_cut_errors() {
    let i = whole_image();

    let _ = i.split(CutDirection::CutParallelToY, 200).expect_err("this split should fail");
    let _ = i.split(CutDirection::CutParallelToY, 199).expect("this split should not fail");

    let _ = i.split(CutDirection::CutParallelToX, 100).expect_err("this split should fail");
    let _ = i.split(CutDirection::CutParallelToX, 99).expect("this split should not fail");
}

#[test]
fn test_split_parallel_to_y() {
    let i = whole_image();

    let [c1, c2] = i.split(CutDirection::CutParallelToY, 150).expect("this split should not fail");

    assert_eq!(c1.height, 100);
    assert_eq!(c2.height, 100);

    assert_eq!(c1.width, 150);
    assert_eq!(c2.width, 50);

    assert_eq!(c1.y_start, 0);
    assert_eq!(c2.y_start, 0);

    assert_eq!(c1.x_start, 0);
    assert_eq!(c2.x_start, 150);

    let [c3, c4] = c2.split(CutDirection::CutParallelToY, 25).expect("this split should not fail");

    assert_eq!(c3.x_start, 150);
    assert_eq!(c4.x_start, 175);
}

#[test]
fn test_split_parallel_to_x() {
    let i = whole_image();

    let [c1, c2] = i.split(CutDirection::CutParallelToX, 60).expect("this split should not fail");

    assert_eq!(c1.width, 200);
    assert_eq!(c2.width, 200);

    assert_eq!(c1.height, 60);
    assert_eq!(c2.height, 40);

    assert_eq!(c1.x_start, 0);
    assert_eq!(c2.x_start, 0);

    assert_eq!(c1.y_start, 0);
    assert_eq!(c2.y_start, 60);

    let [c3, c4] = c2.split(CutDirection::CutParallelToX, 25).expect("this split should not fail");

    assert_eq!(c3.y_start, 60);
    assert_eq!(c4.y_start, 85);
}

#[test]
fn split_at_extent_is_invalid() {
    let i = whole_image();
    assert_eq!(i.split(CutDirection::CutParallelToY, 200), Err(SplitMergeError::InvalidSplit));
    assert_eq!(i.split(CutDirection::CutParallelToX, 100), Err(SplitMergeError::InvalidSplit));
    assert_eq!(i.split(CutDirection::CutParallelToY, 0), Err(SplitMergeError::InvalidSplit));
    assert_eq!(i.split(CutDirection::CutParallelToX, 0), Err(SplitMergeError::InvalidSplit));
    assert_eq!(i.split(CutDirection::CutParallelToX, -3), Err(SplitMergeError::InvalidSplit));
    assert_eq!(i.split(CutDirection::CutParallelToY, 500), Err(SplitMergeError::InvalidSplit));
}

#[test]
fn split_at_199_gives_widths_199_and_1() {
    let i = whole_image();
    let [a, b] = i.split(CutDirection::CutParallelToY, 199).unwrap();
    assert_eq!((a.x_start, a.y_start, a.width, a.height), (0, 0, 199, 100));
    assert_eq!((b.x_start, b.y_start, b.width, b.height), (199, 0, 1, 100));
}

#[test]
fn neighbors_touch_and_overlap() {
    let a = ImageContainerSplit { x_start: 0, y_start: 0, height: 100, width: 100 };
    let b = ImageContainerSplit { x_start: 100, y_start: 0, height: 100, width: 100 };
    let c = ImageContainerSplit { x_start: 101, y_start: 0, height: 100, width: 100 };
    assert!(ImageContainerSplit::are_neighbors(&a, &b));
    assert!(ImageContainerSplit::are_neighbors(&b, &a));
    assert!(!ImageContainerSplit::are_neighbors(&a, &c));
    // one above the other
    let d = ImageContainerSplit { x_start: 50, y_start: 100, height: 10, width: 10 };
    assert!(ImageContainerSplit::are_neighbors(&a, &d));
    // a region is not its own neighbor
    assert!(!ImageContainerSplit::are_neighbors(&a, &a));
}
