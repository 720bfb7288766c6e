use boxpack::algorithm::{LocalSearch, OptimizationAlgorithm, SearchError};
use boxpack::neighborhoods::{
    decode_permutation_solution, encode_permutation_solution, get_geometric_neighbors,
    get_permutation_neighbors, NeighborhoodType,
};
use boxpack::problem::{Problem, ProblemBox, ProblemRectangle, Score};

fn rect(id: u32, x: u32, y: u32, width: u32, height: u32, box_idx: usize) -> ProblemRectangle {
    ProblemRectangle { x, y, width, height, box_idx, id }
}

fn packing(boxes: Vec<ProblemBox>, overlap_num: u32, overlap_den: u32) -> Problem {
    let mut p = Problem {
        boxes,
        score: Score::Infeasible,
        last_moved_rec_id: None,
        overlap_num,
        overlap_den,
    };
    p.calculate_score();
    p
}

#[test]
fn single_rectangle_neighborhood_is_bounded_and_feasible() {
    // One rectangle in one box of side 3: at most 3 * 3 * 2 candidates exist,
    // and every kept neighbor is feasible.
    let p = packing(
        vec![ProblemBox { side_length: 3, rectangles: vec![rect(0, 0, 0, 2, 1, 0)] }],
        0,
        1,
    );
    let neighbors = get_geometric_neighbors(&p);
    assert!(neighbors.len() <= 18);
    assert!(neighbors.len() > 0);
    for n in neighbors.iter() {
        assert!(n.is_valid());
        assert!(matches!(n.score, Score::Feasible(_)));
    }
}

#[test]
fn neighborhood_filter_drops_out_of_bounds_placements() {
    // A 2-by-2 rectangle in a box of side 2 fits only at the origin, at
    // either orientation: everything else the enumeration tries is filtered.
    let p = packing(
        vec![ProblemBox { side_length: 2, rectangles: vec![rect(0, 0, 0, 2, 2, 0)] }],
        0,
        1,
    );
    let neighbors = get_geometric_neighbors(&p);
    assert_eq!(neighbors.len(), 2);
    for n in neighbors.iter() {
        let r = &n.boxes[0].rectangles[0];
        assert_eq!(r.get_origin(), (0, 0));
    }
}

#[test]
fn neighborhood_of_empty_instance_is_empty() {
    let p = packing(vec![ProblemBox { side_length: 4, rectangles: vec![] }], 0, 1);
    let neighbors = p.get_neighbors(NeighborhoodType::Geometric);
    assert_eq!(neighbors.len(), 0);
}

#[test]
fn tick_selects_first_minimum_score_neighbor() {
    // A 1-by-2 rectangle in a box of side 2: several neighbors tie at score
    // one, and the enumeration meets the flipped placement at the origin
    // first, so that is the one the step commits.
    let p = packing(
        vec![ProblemBox { side_length: 2, rectangles: vec![rect(0, 0, 0, 1, 2, 0)] }],
        0,
        1,
    );
    let mut search = LocalSearch::init(p);
    let stepped = search.tick().is_ok();
    assert!(stepped);
    let current = search.get_current_solution();
    let r = &current.boxes[0].rectangles[0];
    assert_eq!(r.get_origin(), (0, 0));
    assert_eq!(r.get_size(), (2, 1));
    assert_eq!(current.last_moved_rec_id, Some(0));
}

#[test]
fn advance_consolidates_boxes_when_possible() {
    // Three boxes of side 10 holding 2x2, 2x2 and 3x3 rectangles: one move
    // can put the two small rectangles together, so the score must drop
    // strictly below three after one step.
    let p = packing(
        vec![
            ProblemBox { side_length: 10, rectangles: vec![rect(0, 0, 0, 2, 2, 0)] },
            ProblemBox { side_length: 10, rectangles: vec![rect(1, 0, 0, 2, 2, 1)] },
            ProblemBox { side_length: 10, rectangles: vec![rect(2, 0, 0, 3, 3, 2)] },
        ],
        0,
        1,
    );
    assert!(matches!(p.score, Score::Feasible(3)));
    let mut search = LocalSearch::init(p);
    let r = search.tick();
    assert!(r.is_ok());
    match search.get_current_solution().score {
        Score::Feasible(s) => assert_eq!(s, 2),
        Score::Infeasible => panic!("expected a feasible packing after one step"),
    }
}

#[test]
fn tick_reports_empty_neighborhoods() {
    let p = packing(vec![ProblemBox { side_length: 4, rectangles: vec![] }], 0, 1);
    let mut search = LocalSearch::init(p);
    let r = search.tick();
    assert!(matches!(r, Err(SearchError::NoFeasibleNeighbors)));
    assert_eq!(search.get_current_solution().boxes.len(), 1);
}

#[test]
fn encode_sorts_by_box_then_position() {
    let p = packing(
        vec![
            ProblemBox {
                side_length: 8,
                rectangles: vec![rect(0, 4, 0, 1, 1, 0), rect(1, 0, 2, 1, 1, 0)],
            },
            ProblemBox { side_length: 8, rectangles: vec![rect(2, 0, 0, 1, 1, 1)] },
        ],
        0,
        1,
    );
    let encoded = encode_permutation_solution(&p);
    let ids: Vec<u32> = encoded.iter().map(|r| r.get_id()).collect();
    assert_eq!(ids, vec![1, 0, 2]);
}

#[test]
fn decode_packs_first_fit_from_the_top_left() {
    let p = packing(
        vec![
            ProblemBox { side_length: 4, rectangles: vec![rect(0, 0, 0, 2, 2, 0)] },
            ProblemBox { side_length: 4, rectangles: vec![rect(1, 0, 0, 2, 2, 1)] },
        ],
        0,
        1,
    );
    let perm = vec![rect(0, 0, 0, 2, 2, 0), rect(1, 0, 0, 2, 2, 1)];
    let decoded = decode_permutation_solution(&p, &perm);
    // Both rectangles fit side by side in the first box.
    assert_eq!(decoded.boxes.len(), 2);
    assert_eq!(decoded.boxes[0].rectangles.len(), 2);
    assert_eq!(decoded.boxes[1].rectangles.len(), 0);
    assert_eq!(decoded.boxes[0].rectangles[0].get_origin(), (0, 0));
    assert_eq!(decoded.boxes[0].rectangles[1].get_origin(), (2, 0));
    assert!(matches!(decoded.score, Score::Feasible(1)));
    assert_eq!(decoded.last_moved_rec_id, None);
}

#[test]
fn decode_is_total_when_nothing_fits() {
    // The second rectangle fits in no box; it is still placed, at the origin
    // of the first box, and the packing scores infeasible.
    let p = packing(
        vec![ProblemBox { side_length: 2, rectangles: vec![rect(0, 0, 0, 2, 2, 0)] }],
        0,
        1,
    );
    let perm = vec![rect(0, 0, 0, 2, 2, 0), rect(1, 0, 0, 3, 3, 0)];
    let decoded = decode_permutation_solution(&p, &perm);
    assert_eq!(decoded.boxes[0].rectangles.len(), 2);
    assert!(matches!(decoded.score, Score::Infeasible));
}

#[test]
fn permutation_neighborhood_decodes_every_ordering() {
    let p = packing(
        vec![
            ProblemBox { side_length: 2, rectangles: vec![rect(0, 0, 0, 1, 1, 0)] },
            ProblemBox { side_length: 2, rectangles: vec![rect(1, 0, 0, 1, 1, 1)] },
        ],
        0,
        1,
    );
    let neighbors = get_permutation_neighbors(&p);
    // Two rectangles give two orderings; both decode into one shared box.
    assert_eq!(neighbors.len(), 2);
    for n in neighbors.iter() {
        assert!(matches!(n.score, Score::Feasible(1)));
        assert_eq!(n.boxes[0].rectangles.len(), 2);
    }
}

#[test]
fn permutation_neighborhood_holds_one_packing_per_ordering() {
    // Three rectangles give 3! = 6 orderings, and every ordering decodes.
    let p = packing(
        vec![
            ProblemBox { side_length: 4, rectangles: vec![rect(0, 0, 0, 1, 1, 0)] },
            ProblemBox { side_length: 4, rectangles: vec![rect(1, 0, 0, 2, 1, 1)] },
            ProblemBox { side_length: 4, rectangles: vec![rect(2, 0, 0, 1, 2, 2)] },
        ],
        0,
        1,
    );
    let neighbors = get_permutation_neighbors(&p);
    assert_eq!(neighbors.len(), 6);
    for n in neighbors.iter() {
        let total: usize = n.boxes.iter().map(|b| b.rectangles.len()).sum();
        assert_eq!(total, 3);
    }
}

#[test]
fn geometric_overlap_neighborhood_matches_geometric() {
    let p = packing(
        vec![ProblemBox { side_length: 2, rectangles: vec![rect(0, 0, 0, 1, 1, 0)] }],
        1,
        2,
    );
    let a = p.get_neighbors(NeighborhoodType::Geometric);
    let b = p.get_neighbors(NeighborhoodType::GeometricOverlap);
    assert_eq!(a.len(), b.len());
}
