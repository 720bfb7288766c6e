use boxpack::problem::{PackingError, Problem, ProblemBox, ProblemRectangle, Score};

fn rect(id: u32, x: u32, y: u32, width: u32, height: u32, box_idx: usize) -> ProblemRectangle {
    ProblemRectangle { x, y, width, height, box_idx, id }
}

fn packing(boxes: Vec<ProblemBox>, overlap_num: u32, overlap_den: u32) -> Problem {
    Problem {
        boxes,
        score: Score::Infeasible,
        last_moved_rec_id: None,
        overlap_num,
        overlap_den,
    }
}

#[test]
fn coincident_rectangles_overlap_under_zero_tolerance() {
    let a = rect(0, 3, 3, 2, 4, 0);
    let b = rect(1, 3, 3, 5, 1, 0);
    assert!(a.overlaps(&b, 0, 1));
    assert!(b.overlaps(&a, 0, 1));
}

#[test]
fn rectangle_never_overlaps_itself() {
    let a = rect(7, 0, 0, 4, 4, 0);
    let twin = rect(7, 0, 0, 4, 4, 0);
    assert!(!a.overlaps(&a, 0, 1));
    assert!(!a.overlaps(&twin, 0, 1));
}

#[test]
fn touching_edges_do_not_overlap() {
    let a = rect(0, 0, 0, 2, 2, 0);
    let b = rect(1, 2, 0, 2, 2, 0);
    assert!(!a.overlaps(&b, 0, 1));
}

#[test]
fn tolerated_overlap_uses_sum_of_areas() {
    // Two 1-by-4 rectangles shifted by one row: intersection area 3 against
    // an area sum of 8 stays below a tolerance of one half.
    let a = rect(0, 0, 0, 1, 4, 0);
    let b = rect(1, 0, 1, 1, 4, 0);
    assert!(!a.overlaps(&b, 1, 2));
    // Two identical 1-by-5 rectangles: intersection 5 against a sum of 10
    // reaches the tolerance exactly, so they overlap.
    let c = rect(2, 0, 0, 1, 5, 0);
    let d = rect(3, 0, 0, 1, 5, 0);
    assert!(c.overlaps(&d, 1, 2));
}

#[test]
fn out_of_bounds_rectangle_invalidates_packing() {
    let p = packing(
        vec![ProblemBox { side_length: 4, rectangles: vec![rect(0, 3, 0, 2, 1, 0)] }],
        0,
        1,
    );
    assert!(!p.is_valid());
}

#[test]
fn overlapping_rectangles_invalidate_packing() {
    let p = packing(
        vec![ProblemBox {
            side_length: 10,
            rectangles: vec![rect(0, 0, 0, 3, 3, 0), rect(1, 1, 1, 3, 3, 0)],
        }],
        0,
        1,
    );
    assert!(!p.is_valid());
}

#[test]
fn score_counts_nonempty_boxes() {
    let mut p = packing(
        vec![
            ProblemBox { side_length: 10, rectangles: vec![rect(0, 0, 0, 2, 2, 0)] },
            ProblemBox { side_length: 10, rectangles: vec![] },
            ProblemBox { side_length: 10, rectangles: vec![rect(1, 0, 0, 3, 3, 2)] },
        ],
        0,
        1,
    );
    p.calculate_score();
    assert!(matches!(p.score, Score::Feasible(2)));
}

#[test]
fn invalid_packing_scores_infeasible() {
    let mut p = packing(
        vec![ProblemBox { side_length: 2, rectangles: vec![rect(0, 0, 0, 3, 1, 0)] }],
        0,
        1,
    );
    p.calculate_score();
    assert!(matches!(p.score, Score::Infeasible));
}

#[test]
fn move_rectangle_round_trip_restores_geometry() {
    let mut p = packing(
        vec![
            ProblemBox { side_length: 10, rectangles: vec![rect(0, 1, 2, 3, 4, 0)] },
            ProblemBox { side_length: 10, rectangles: vec![rect(1, 0, 0, 2, 2, 1)] },
        ],
        0,
        1,
    );
    // Move rectangle 0 into box 1, flipped, then move it back.
    assert!(p.move_rect(0, 0, 5, 6, 1, true).is_ok());
    assert_eq!(p.last_moved_rec_id, Some(0));
    assert!(p.move_rect(0, 1, 1, 2, 0, true).is_ok());
    assert_eq!(p.last_moved_rec_id, Some(0));
    assert_eq!(p.boxes[0].rectangles.len(), 1);
    assert_eq!(p.boxes[1].rectangles.len(), 1);
    let r0 = &p.boxes[0].rectangles[0];
    assert_eq!(
        (r0.id, r0.x, r0.y, r0.width, r0.height, r0.box_idx),
        (0, 1, 2, 3, 4, 0)
    );
    let r1 = &p.boxes[1].rectangles[0];
    assert_eq!((r1.id, r1.x, r1.y), (1, 0, 0));
}

#[test]
fn same_box_move_updates_in_place() {
    let mut p = packing(
        vec![ProblemBox { side_length: 10, rectangles: vec![rect(0, 0, 0, 2, 5, 0)] }],
        0,
        1,
    );
    assert!(p.move_rect(0, 0, 3, 4, 0, true).is_ok());
    let r = &p.boxes[0].rectangles[0];
    assert_eq!((r.x, r.y, r.width, r.height, r.box_idx), (3, 4, 5, 2, 0));
    assert_eq!(p.last_moved_rec_id, Some(0));
}

#[test]
fn missing_rectangle_is_reported_and_packing_untouched() {
    let mut p = packing(
        vec![
            ProblemBox { side_length: 10, rectangles: vec![rect(0, 1, 1, 2, 2, 0)] },
            ProblemBox { side_length: 10, rectangles: vec![] },
        ],
        0,
        1,
    );
    let r = p.move_rect(9, 0, 0, 0, 1, false);
    assert!(matches!(r, Err(PackingError::RectangleNotFound)));
    assert_eq!(p.boxes[0].rectangles.len(), 1);
    assert_eq!(p.boxes[1].rectangles.len(), 0);
    let kept = &p.boxes[0].rectangles[0];
    assert_eq!((kept.x, kept.y), (1, 1));
    assert_eq!(p.last_moved_rec_id, None);
}

#[test]
fn new_builds_one_box_per_rectangle() {
    let p = Problem::new(10, 4, 1..5, 2..8, 0, 1, 11);
    assert_eq!(p.boxes.len(), 4);
    for (i, b) in p.boxes.iter().enumerate() {
        assert_eq!(b.side_length, 10);
        assert_eq!(b.rectangles.len(), 1);
        let r = &b.rectangles[0];
        assert_eq!(r.get_id(), i as u32);
        assert_eq!(r.get_box_idx(), i);
        assert_eq!(r.get_origin(), (0, 0));
        let (w, h) = r.get_size();
        assert!((1..5).contains(&w));
        assert!((2..8).contains(&h));
    }
    assert!(matches!(p.score, Score::Feasible(4)));
}

#[test]
fn new_is_reproducible_from_its_seed() {
    let a = Problem::new(12, 6, 1..6, 1..6, 0, 1, 42);
    let b = Problem::new(12, 6, 1..6, 1..6, 0, 1, 42);
    for (ba, bb) in a.boxes.iter().zip(b.boxes.iter()) {
        assert_eq!(ba.rectangles[0].get_size(), bb.rectangles[0].get_size());
    }
}

#[test]
fn default_packing_is_empty() {
    let p = Problem::default();
    assert_eq!(p.boxes.len(), 0);
    assert!(matches!(p.score, Score::Feasible(0)));
    assert_eq!(p.last_moved_rec_id, None);
}

#[test]
fn clone_is_a_deep_copy() {
    let p = packing(
        vec![ProblemBox { side_length: 5, rectangles: vec![rect(0, 1, 1, 2, 2, 0)] }],
        1,
        2,
    );
    let mut q = p.clone();
    assert!(q.move_rect(0, 0, 0, 0, 0, false).is_ok());
    assert_eq!(p.boxes[0].rectangles[0].get_origin(), (1, 1));
    assert_eq!(q.boxes[0].rectangles[0].get_origin(), (0, 0));
    assert_eq!(q.overlap_num, 1);
    assert_eq!(q.overlap_den, 2);
}
