use split_merge::{
    is_split_too_asymetric, refined_cut, uses_gradients, Area, AreaMarker, BlindMerger, BlindSplitter, CutDirection, ImageContainer,
    ImageContainerSplit, LoggerTrait, Mask, MergeState, MergerTrait, NullLogger, SplitMergeError, SplitState,
    SplitterTrait,
};

/// Runs the split phase on one thread, the way the pipeline's workers would.
fn run_split<S: SplitterTrait, L: LoggerTrait>(image: &ImageContainer, splitter: &S, logger: &mut L) -> SplitState {
    let mut state = SplitState::new(image);
    loop {
        let mut requests = Vec::new();
        while let Some(r) = state.send_split_request() {
            requests.push(r);
        }
        if state.items_in_queue() == 0 {
            break;
        }
        for (id, region) in requests {
            let decision = splitter.split(&region).map(|(d, at)| (d, at, id));
            if let Some([(id_1, v_1), (id_2, v_2)]) = state.receive_split_result(decision).expect("valid split") {
                logger
                    .log_split(id, [Area::new_from_split(id_1, &v_1), Area::new_from_split(id_2, &v_2)])
                    .expect("logger has failed");
            }
        }
    }
    assert!(state.is_complete());
    state
}

fn leaves_of(state: &SplitState) -> Vec<(usize, ImageContainerSplit)> {
    let mut v = Vec::new();
    let tree = state.split_tree();
    tree[0].collect_leafs(tree, &mut v);
    v
}

/// Runs the merge phase on one thread.
fn run_merge<M: MergerTrait, L: LoggerTrait>(split: &SplitState, merger: &M, logger: &mut L) -> MergeState {
    let mut state = MergeState::initialize(split);
    loop {
        let pairs = state.send_merge_request();
        if pairs.is_empty() {
            break;
        }
        let mut results = Vec::new();
        for [a, b] in pairs {
            let decision = merger.merge(state.area_mask(a).unwrap(), state.area_mask(b).unwrap());
            results.push((decision, a, b));
        }
        for (new_id, pair) in state.receive_merge_result(&results).expect("known regions") {
            logger.log_merge(new_id, pair).expect("logger has failed");
        }
        state.clear_data();
    }
    logger.finalize_log().expect("logger has failed");
    state
}

fn test_image() -> ImageContainer {
    // 200 pixels wide, 100 high
    ImageContainer::new(100, 200)
}

fn count(m: &Mask) -> usize {
    m.data.iter().filter(|p| **p != 0).count()
}

/// The masks of the two parts of a cut share no pixel, and the convex hull
/// of their union (the bounding box, for a union of two touching
/// rectangles that is itself a rectangle) holds as many pixels as both.
fn check_mask_correct_split(mask1: &Mask, mask2: &Mask) -> bool {
    assert_eq!((mask1.rows, mask1.cols), (mask2.rows, mask2.cols));
    let cols = mask1.cols as usize;
    let mut intersection = 0;
    let (mut min_x, mut min_y, mut max_x, mut max_y) = (usize::MAX, usize::MAX, 0, 0);
    for i in 0..mask1.data.len() {
        let a = mask1.data[i] != 0;
        let b = mask2.data[i] != 0;
        if a && b {
            intersection += 1;
        }
        if a || b {
            let (x, y) = (i % cols, i / cols);
            min_x = min_x.min(x);
            min_y = min_y.min(y);
            max_x = max_x.max(x);
            max_y = max_y.max(y);
        }
    }
    assert_ne!(max_x + 1, min_x, "non valid images as there is no contourns");
    let hull = (max_x + 1 - min_x) * (max_y + 1 - min_y);
    intersection == 0 && hull == count(mask1) + count(mask2)
}

struct TestLogger {
    image: ImageContainer,
    splits: usize,
}

impl LoggerTrait for TestLogger {
    fn log_split(&mut self, _area_to_split_id: usize, splits: [Area; 2]) -> Result<(), SplitMergeError> {
        let [mut a1, mut a2] = splits;
        let mask_a1 = a1.get_mat_area(&self.image);
        let mask_a2 = a2.get_mat_area(&self.image);
        assert!(check_mask_correct_split(mask_a1, mask_a2), "bad split detected!");
        self.splits += 1;
        Ok(())
    }

    fn log_merge(&mut self, _new_item_id: usize, _to_merge: [usize; 2]) -> Result<(), SplitMergeError> {
        Ok(())
    }

    fn finalize_log(&mut self) -> Result<(), SplitMergeError> {
        Ok(())
    }
}

fn assert_leaves_tile(state: &SplitState, image: &ImageContainer) {
    let leaves = leaves_of(state);
    let mut cover = vec![0u32; (image.height * image.width) as usize];
    for (_, r) in &leaves {
        for y in r.y_start..r.y_start + r.height {
            for x in r.x_start..r.x_start + r.width {
                cover[(y * image.width + x) as usize] += 1;
            }
        }
    }
    assert!(cover.iter().all(|c| *c == 1));
}

#[test]
fn test_test_split_simple() {
    let i = test_image();
    let splitter = BlindSplitter::new(10);
    let _merger = BlindMerger::new();
    let mut logger = NullLogger::new();
    let state = run_split(&i, &splitter, &mut logger);
    assert_leaves_tile(&state, &i);
}

#[test]
fn test_test_split_image_logger() {
    let i = test_image();
    let splitter = BlindSplitter::new(50);
    let _merger = BlindMerger::new();
    let mut logger = TestLogger { image: i, splits: 0 };
    let state = run_split(&i, &splitter, &mut logger);
    assert_eq!(logger.splits + 1, leaves_of(&state).len());
}

#[test]
fn mod_test_split_simple() {
    let i = test_image();
    let splitter = BlindSplitter::new(10);
    let _merger = BlindMerger::new();
    let mut logger = NullLogger::new();
    let state = run_split(&i, &splitter, &mut logger);
    for (_, r) in leaves_of(&state) {
        assert!(r.width >= 5 && r.height >= 5);
    }
}

#[test]
fn mod_test_split_image_logger() {
    let i = test_image();
    let splitter = BlindSplitter::new(50);
    let _merger = BlindMerger::new();
    let mut logger = TestLogger { image: i, splits: 0 };
    let _ = run_split(&i, &splitter, &mut logger);
    assert!(logger.splits > 0);
}

#[test]
fn test_correct_splitting() {
    let i = test_image();
    let splitter = BlindSplitter::new(50);
    let _merger = BlindMerger::new();
    let mut logger = TestLogger { image: i, splits: 0 };
    let state = run_split(&i, &splitter, &mut logger);
    assert_leaves_tile(&state, &i);
}

#[test]
fn split_then_blind_merge_leaves_one_region() {
    let i = test_image();
    let splitter = BlindSplitter::new(50);
    let mut logger = NullLogger::new();
    let split = run_split(&i, &splitter, &mut logger);
    let leaves = leaves_of(&split);
    assert!(leaves.len() >= 4);
    let merged = run_merge(&split, &BlindMerger::new(), &mut logger);
    let roots = merged.disjoint_sets().get_root_items();
    assert_eq!(roots.len(), 1);
    let mask = merged.area_mask(roots[0]);
    let full = match mask {
        Some(m) => count(m),
        None => 0,
    };
    assert_eq!(full, 200 * 100);
}

#[test]
fn first_cuts_of_a_wide_image() {
    let i = test_image();
    let mut state = SplitState::new(&i);
    let (id, region) = state.send_split_request().unwrap();
    assert_eq!(id, 0);
    let cut = BlindSplitter::new(50).split(&region);
    assert_eq!(cut, Some((CutDirection::CutParallelToY, 100)));
    let parts = state.receive_split_result(cut.map(|(d, at)| (d, at, id))).unwrap().unwrap();
    assert_eq!(parts[0], (1, ImageContainerSplit { x_start: 0, y_start: 0, height: 100, width: 100 }));
    assert_eq!(parts[1], (2, ImageContainerSplit { x_start: 100, y_start: 0, height: 100, width: 100 }));
    assert_eq!(state.split_tree()[0].childs, Some([1, 2]));
    // a node already cut cannot be cut again
    assert_eq!(state.send_split_request().map(|r| r.0), Some(2));
    assert_eq!(
        state.receive_split_result(Some((CutDirection::CutParallelToY, 10, 0))),
        Err(SplitMergeError::InvalidSplit)
    );
}

#[test]
fn split_results_with_errors() {
    let i = test_image();
    let mut state = SplitState::new(&i);
    let _ = state.send_split_request().unwrap();
    assert_eq!(
        state.receive_split_result(Some((CutDirection::CutParallelToY, 5, 42))),
        Err(SplitMergeError::NotFound)
    );
    let mut state = SplitState::new(&i);
    let _ = state.send_split_request().unwrap();
    assert_eq!(
        state.receive_split_result(Some((CutDirection::CutParallelToX, 100, 0))),
        Err(SplitMergeError::InvalidSplit)
    );
    let mut state = SplitState::new(&i);
    let _ = state.send_split_request().unwrap();
    assert_eq!(state.receive_split_result(None), Ok(None));
    assert!(state.is_complete());
}

#[test]
fn blind_splitter_below_minimum_does_not_split() {
    let s = BlindSplitter::new(50);
    assert_eq!(s.split_region(40, 30), None);
    assert_eq!(s.split_region(49, 49), None);
    assert_eq!(s.split_region(100, 100), Some((CutDirection::CutParallelToY, 50)));
    assert_eq!(s.split_region(101, 100), Some((CutDirection::CutParallelToX, 50)));
    assert_eq!(s.split_region(10, 100), Some((CutDirection::CutParallelToY, 50)));
}

#[test]
fn asymmetry_of_cuts() {
    assert!(is_split_too_asymetric(CutDirection::CutParallelToX, 0, 100, 100));
    assert!(is_split_too_asymetric(CutDirection::CutParallelToX, 100, 100, 100));
    assert!(is_split_too_asymetric(CutDirection::CutParallelToY, 100, 100, 100));
    assert!(!is_split_too_asymetric(CutDirection::CutParallelToX, 50, 100, 100));
    // a 10 pixel high slice of a 100 wide region: 100 > 7 * 10
    assert!(is_split_too_asymetric(CutDirection::CutParallelToX, 10, 100, 100));
    // 15 high: 100 <= 7 * 15
    assert!(!is_split_too_asymetric(CutDirection::CutParallelToX, 15, 100, 100));
    assert!(!is_split_too_asymetric(CutDirection::CutParallelToY, 85, 100, 100));
    // the thin part is fine, but the other one is 90 high and 10 wide
    assert!(is_split_too_asymetric(CutDirection::CutParallelToX, 10, 100, 10));
    assert!(!is_split_too_asymetric(CutDirection::CutParallelToX, 50, 100, 10));
}

#[test]
fn rectangle_masks_and_union() {
    let image = ImageContainer::new(4, 5);
    let left = ImageContainerSplit { x_start: 0, y_start: 0, height: 4, width: 2 };
    let right = ImageContainerSplit { x_start: 2, y_start: 0, height: 4, width: 3 };
    let mut a = Area::new_from_split(1, &left);
    let mut b = Area::new_from_split(2, &right);
    let ma = a.get_mat_area(&image);
    assert_eq!(count(ma), 8);
    assert_eq!(ma.data[0], 255);
    assert_eq!(ma.data[2], 0);
    let ma = Mask { rows: ma.rows, cols: ma.cols, data: ma.data.clone() };
    let mb = b.get_mat_area(&image);
    assert_eq!(count(mb), 12);
    assert!(check_mask_correct_split(&ma, mb));
    match AreaMarker::merge(&ma, mb) {
        AreaMarker::MaskedArea(u) => assert_eq!(count(&u), 20),
        AreaMarker::SquaredArea { .. } => panic!("a union is a mask"),
    }
    let whole = Area::new(0, 4, 5);
    assert_eq!(whole.id, 0);
}

#[test]
fn merge_state_starts_from_leaves() {
    let i = ImageContainer::new(10, 20);
    let splitter = BlindSplitter::new(10);
    let mut logger = NullLogger::new();
    let split = run_split(&i, &splitter, &mut logger);
    let leaves = leaves_of(&split);
    let max_id = leaves.iter().map(|l| l.0).max().unwrap();
    let state = MergeState::initialize(&split);
    assert_eq!(state.next_area_id(), max_id + 1);
    let mut roots = state.disjoint_sets().get_root_items();
    roots.sort();
    let mut ids: Vec<usize> = leaves.iter().map(|l| l.0).collect();
    ids.sort();
    assert_eq!(roots, ids);
    for (a, ra) in &leaves {
        for (b, rb) in &leaves {
            let recorded = state.disjoint_sets().get_set(*a).unwrap().neighbors.contains(b);
            assert_eq!(recorded, ImageContainerSplit::are_neighbors(ra, rb));
        }
    }
}

#[test]
fn merge_results_are_applied() {
    let i = ImageContainer::new(10, 20);
    let splitter = BlindSplitter::new(20);
    let mut logger = NullLogger::new();
    let split = run_split(&i, &splitter, &mut logger);
    // one cut: leaves 1 and 2
    assert_eq!(leaves_of(&split).len(), 2);
    let mut state = MergeState::initialize(&split);
    let pairs = state.send_merge_request();
    assert_eq!(pairs.len(), 1);
    let [a, b] = pairs[0];
    let events = state.receive_merge_result(&vec![(false, a, b)]).unwrap();
    assert!(events.is_empty());
    state.clear_data();
    assert!(state.send_merge_request().is_empty());
    let events = state.receive_merge_result(&vec![(true, a, b)]).unwrap();
    assert_eq!(events, vec![(3, [a, b])]);
    assert_eq!(state.next_area_id(), 4);
    assert_eq!(state.area_mask(3).map(count), Some(200));
    assert_eq!(state.receive_merge_result(&vec![(true, 9, 1)]), Err(SplitMergeError::NotFound));
}

#[test]
fn refined_cut_keeps_or_replaces_the_proposal() {
    let proposed = (CutDirection::CutParallelToY, 50);
    // flat gradients: the proposal stays
    assert_eq!(refined_cut(100, 100, proposed, true, true, 40, 40), proposed);
    // the strongest row gradient at 40 gives a balanced horizontal cut
    assert_eq!(refined_cut(100, 100, proposed, false, true, 40, 70), (CutDirection::CutParallelToX, 40));
    // the strongest column gradient at 70
    assert_eq!(refined_cut(100, 100, proposed, false, false, 40, 70), (CutDirection::CutParallelToY, 70));
    // a cut 5 rows from the top of a 100 by 100 region is too lopsided
    assert_eq!(refined_cut(100, 100, proposed, false, true, 5, 70), proposed);
    // a cut on the border is rejected
    assert_eq!(refined_cut(100, 100, proposed, false, false, 40, 100), proposed);
}

#[test]
fn batch_of_merges_gives_expected_forest() {
    let i = ImageContainer::new(20, 20);
    let splitter = BlindSplitter::new(20);
    let mut logger = NullLogger::new();
    let split = run_split(&i, &splitter, &mut logger);
    // four 10 by 10 leaves
    assert_eq!(leaves_of(&split).len(), 4);
    let mut state = MergeState::initialize(&split);
    let pairs = state.send_merge_request();
    assert_eq!(pairs.len(), 2);
    let results: Vec<(bool, usize, usize)> = pairs.iter().map(|p| (true, p[0], p[1])).collect();
    let events = state.receive_merge_result(&results).unwrap();
    let first = state.next_area_id() - 2;
    assert_eq!(events, vec![(first, pairs[0]), (first + 1, pairs[1])]);
    let mut roots = state.disjoint_sets().get_root_items();
    roots.sort();
    assert_eq!(roots, vec![first, first + 1]);
    // a merged region's neighbors are those of both parts
    let n = &state.disjoint_sets().get_set(first).unwrap().neighbors;
    for id in [pairs[1][0], pairs[1][1]] {
        let adjacent = state.disjoint_sets().get_set(pairs[0][0]).unwrap().neighbors.contains(&id)
            || state.disjoint_sets().get_set(pairs[0][1]).unwrap().neighbors.contains(&id);
        assert_eq!(n.contains(&id), adjacent);
    }
    for [a, b] in &pairs {
        assert_eq!(state.disjoint_sets().get_set(*a).unwrap().father, state.disjoint_sets().get_set(*b).unwrap().father);
    }
}

#[test]
fn blind_strategies_through_their_traits() {
    let s = BlindSplitter::new(50);
    let wide = ImageContainerSplit { x_start: 0, y_start: 0, height: 100, width: 200 };
    let square = ImageContainerSplit { x_start: 0, y_start: 0, height: 100, width: 100 };
    let small = ImageContainerSplit { x_start: 3, y_start: 4, height: 40, width: 49 };
    assert_eq!(SplitterTrait::split(&s, &wide), Some((CutDirection::CutParallelToY, 100)));
    assert_eq!(SplitterTrait::split(&s, &square), Some((CutDirection::CutParallelToY, 50)));
    assert_eq!(SplitterTrait::split(&s, &small), None);
    let m = Mask { rows: 1, cols: 1, data: vec![0] };
    assert!(BlindMerger::new().merge(&m, &m));
    let mut l = NullLogger::new();
    assert_eq!(l.log_merge(3, [1, 2]), Ok(()));
    assert_eq!(l.finalize_log(), Ok(()));
}

#[test]
fn gradients_only_on_larger_regions() {
    assert!(!uses_gradients(5, 100));
    assert!(!uses_gradients(100, 5));
    assert!(uses_gradients(6, 6));
}
