use crate::neighborhoods::{
    all_rects, all_rects_upto, geo_boxes, geo_candidate, geo_pair, geo_rects, geo_xs, geo_ys,
    geometric_neighborhood, keep_feasible,
};
use crate::problem::{
    box_has_rect, lemma_spec_move_preserves_wf, moved_rect, overlap_area, overlap_len,
    packing_wf, rect_in_bounds, rect_index_of, rects_overlap, rescored, spec_is_valid,
    spec_move_rect, spec_score, PackingView, ProblemRectangle,
};
use vstd::prelude::*;
use vstd::seq_lib::{to_multiset_build, to_multiset_contains, to_multiset_remove, to_multiset_update};

verus! {

broadcast use vstd::multiset::group_multiset_axioms;

/// A packing with any rectangle extending past its box's bounds on either
/// axis is not valid.
pub proof fn lemma_out_of_bounds_invalid(pv: PackingView, bi: int, ri: int)
    requires
        0 <= bi < pv.boxes.len(),
        0 <= ri < pv.boxes[bi].rectangles.len(),
        !rect_in_bounds(pv.boxes[bi].rectangles[ri], pv.boxes[bi].side_length),
    ensures
        !spec_is_valid(pv),
{
}

/// Under a zero overlap tolerance, two rectangles with distinct ids, the same
/// position and positive dimensions overlap.
pub proof fn lemma_coincident_rects_overlap(a: ProblemRectangle, b: ProblemRectangle, den: u32)
    requires
        a.id != b.id,
        a.x == b.x,
        a.y == b.y,
        a.width > 0,
        a.height > 0,
        b.width > 0,
        b.height > 0,
        den >= 1,
    ensures
        rects_overlap(a, b, 0, den),
{
    let ox = overlap_len(a.x as int, a.x + a.width, b.x as int, b.x + b.width);
    let oy = overlap_len(a.y as int, a.y + a.height, b.y as int, b.y + b.height);
    assert(ox > 0);
    assert(oy > 0);
    assert(ox * oy > 0) by (nonlinear_arith)
        requires
            ox > 0 && oy > 0,
    ;
    assert(overlap_area(a, b) * den >= 0) by (nonlinear_arith)
        requires
            overlap_area(a, b) > 0 && den >= 1,
    ;
}

/// A move followed by the inverse move — same rectangle, original
/// coordinates, source box and flip state — restores the original geometric
/// state: every box keeps its side length and ends with exactly the
/// rectangles it started with (as a multiset, since a cross-box move may
/// reorder a box's storage), and the score and tolerance fields are
/// untouched. Only the last-moved marker differs: it names the rectangle of
/// the most recent call. A move within one box restores the state exactly.
pub proof fn lemma_move_round_trip(
    pv: PackingView,
    rect_id: u32,
    obi: int,
    nbi: int,
    x: u32,
    y: u32,
    flip: bool,
)
    requires
        packing_wf(pv),
        0 <= obi < pv.boxes.len(),
        0 <= nbi < pv.boxes.len(),
        box_has_rect(pv.boxes[obi], rect_id),
    ensures
        ({
            let r = pv.boxes[obi].rectangles[rect_index_of(pv.boxes[obi], rect_id)];
            let there = spec_move_rect(pv, rect_id, obi, x, y, nbi, flip);
            let back = spec_move_rect(there, rect_id, nbi, r.x, r.y, obi, flip);
            &&& box_has_rect(there.boxes[nbi], rect_id)
            &&& back.boxes.len() == pv.boxes.len()
            &&& forall|bi: int|
                0 <= bi < pv.boxes.len() ==> (#[trigger] back.boxes[bi]).side_length
                    == pv.boxes[bi].side_length && back.boxes[bi].rectangles.to_multiset()
                    == pv.boxes[bi].rectangles.to_multiset()
            &&& obi == nbi ==> back.boxes == pv.boxes
            &&& back.score == pv.score
            &&& back.overlap_num == pv.overlap_num
            &&& back.overlap_den == pv.overlap_den
            &&& back.last_moved_rec_id == Some(rect_id)
        }),
{
    let b0 = pv.boxes[obi];
    let src = b0.rectangles;
    let i = rect_index_of(b0, rect_id);
    assert(0 <= i < src.len() && src[i].id == rect_id);
    let r = src[i];
    assert(r.box_idx == obi);
    let there = spec_move_rect(pv, rect_id, obi, x, y, nbi, flip);
    lemma_spec_move_preserves_wf(pv, rect_id, obi, x, y, nbi, flip);
    let r2 = moved_rect(r, x, y, flip, nbi);
    if obi == nbi {
        assert(there.boxes[obi].rectangles == src.update(i, r2));
        assert(there.boxes[obi].rectangles[i].id == rect_id);
        assert(box_has_rect(there.boxes[obi], rect_id));
        let c = rect_index_of(there.boxes[obi], rect_id);
        assert(0 <= c < there.boxes[obi].rectangles.len()
            && there.boxes[obi].rectangles[c].id == rect_id);
        assert(c == i) by {
            if c != i {
                assert(there.boxes[obi].rectangles[c].id != there.boxes[obi].rectangles[i].id);
            }
        }
        let back = spec_move_rect(there, rect_id, nbi, r.x, r.y, obi, flip);
        let r3 = moved_rect(r2, r.x, r.y, flip, obi);
        assert(r3 == r);
        assert(back.boxes[obi].rectangles == src.update(i, r2).update(i, r3));
        assert(src.update(i, r2).update(i, r3) =~= src);
        assert forall|bi: int| 0 <= bi < pv.boxes.len() implies (#[trigger] back.boxes[bi])
            == pv.boxes[bi] by {
            assert(back.boxes[bi].rectangles =~= pv.boxes[bi].rectangles);
            assert(back.boxes[bi] =~= pv.boxes[bi]);
        }
        assert(back.boxes =~= pv.boxes);
    } else {
        let dst = pv.boxes[nbi].rectangles;
        let dlen = dst.len() as int;
        let src2 = src.update(i, src.last()).drop_last();
        let dst2 = dst.push(r2);
        assert(there.boxes[obi].rectangles == src2);
        assert(there.boxes[nbi].rectangles == dst2);
        assert(dst2[dlen].id == rect_id);
        assert(box_has_rect(there.boxes[nbi], rect_id));
        let c = rect_index_of(there.boxes[nbi], rect_id);
        assert(0 <= c < dst2.len() && dst2[c].id == rect_id);
        assert(c == dlen) by {
            if c != dlen {
                assert(there.boxes[nbi].rectangles[c].id
                    != there.boxes[nbi].rectangles[dlen].id);
            }
        }
        let back = spec_move_rect(there, rect_id, nbi, r.x, r.y, obi, flip);
        let r3 = moved_rect(r2, r.x, r.y, flip, obi);
        assert(r3 == r);
        // The destination sheds exactly the rectangle it had gained.
        assert(dst2.update(dlen, dst2.last()) =~= dst2);
        assert(dst2.update(dlen, dst2.last()).drop_last() =~= dst);
        assert(back.boxes[nbi].rectangles =~= dst);
        // The source regains the rectangle it had lost; as a multiset, the
        // swap-removal and the append cancel.
        let su = src.update(i, src.last());
        to_multiset_update(src, i, src.last());
        assert(su.drop_last() =~= su.remove(su.len() - 1));
        to_multiset_remove(su, su.len() - 1);
        assert(su[su.len() - 1] == src.last());
        to_multiset_contains(src, r);
        to_multiset_contains(src2, src.last());
        to_multiset_build(src2, r3);
        assert(back.boxes[obi].rectangles == src2.push(r3));
        assert(src2.push(r3).to_multiset() =~= src.to_multiset());
        assert forall|bi: int| 0 <= bi < pv.boxes.len() implies (#[trigger] back.boxes[bi])
            .side_length == pv.boxes[bi].side_length && back.boxes[bi].rectangles.to_multiset()
            == pv.boxes[bi].rectangles.to_multiset() by {
            if bi == obi {
                assert(back.boxes[bi].rectangles.to_multiset()
                    == pv.boxes[bi].rectangles.to_multiset());
            } else if bi == nbi {
                assert(back.boxes[bi].rectangles =~= pv.boxes[bi].rectangles);
            } else {
                assert(back.boxes[bi] == pv.boxes[bi]);
            }
        }
    }
}

/// Every packing of the sequence scores feasible and satisfies the bounds
/// and overlap invariants.
pub open spec fn all_kept_valid(s: Seq<PackingView>) -> bool {
    forall|t: int|
        0 <= t < s.len() ==> (#[trigger] s[t]).score is Feasible && spec_is_valid(s[t])
}

proof fn lemma_all_kept_valid_concat(a: Seq<PackingView>, b: Seq<PackingView>)
    requires
        all_kept_valid(a),
        all_kept_valid(b),
    ensures
        all_kept_valid(a + b),
{
    assert forall|t: int| 0 <= t < (a + b).len() implies (#[trigger] (a + b)[t]).score is Feasible
        && spec_is_valid((a + b)[t]) by {
        if t < a.len() {
            assert((a + b)[t] == a[t]);
        } else {
            assert((a + b)[t] == b[t - a.len()]);
        }
    }
}

proof fn lemma_keep_feasible_valid(m: PackingView)
    ensures
        all_kept_valid(keep_feasible(rescored(m))),
{
    if spec_score(m) is Feasible {
        assert(spec_is_valid(m));
        assert(spec_is_valid(rescored(m)));
    }
}

proof fn lemma_geo_pair_valid(pv: PackingView, r: ProblemRectangle, bi: int, x: u32, y: u32)
    ensures
        all_kept_valid(geo_pair(pv, r, bi, x, y)),
        geo_pair(pv, r, bi, x, y).len() <= 2,
{
    lemma_keep_feasible_valid(spec_move_rect(pv, r.id, r.box_idx as int, x, y, bi, true));
    lemma_keep_feasible_valid(spec_move_rect(pv, r.id, r.box_idx as int, x, y, bi, false));
    lemma_all_kept_valid_concat(
        keep_feasible(geo_candidate(pv, r, bi, x, y, true)),
        keep_feasible(geo_candidate(pv, r, bi, x, y, false)),
    );
}

proof fn lemma_geo_ys_valid(pv: PackingView, r: ProblemRectangle, bi: int, x: u32, y_count: int)
    ensures
        all_kept_valid(geo_ys(pv, r, bi, x, y_count)),
        geo_ys(pv, r, bi, x, y_count).len() <= 2 * if y_count >= 0 {
            y_count
        } else {
            0
        },
    decreases y_count,
{
    if y_count > 0 {
        lemma_geo_ys_valid(pv, r, bi, x, y_count - 1);
        lemma_geo_pair_valid(pv, r, bi, x, (y_count - 1) as u32);
        lemma_all_kept_valid_concat(
            geo_ys(pv, r, bi, x, y_count - 1),
            geo_pair(pv, r, bi, x, (y_count - 1) as u32),
        );
    }
}

proof fn lemma_geo_xs_valid(pv: PackingView, r: ProblemRectangle, bi: int, x_count: int)
    ensures
        all_kept_valid(geo_xs(pv, r, bi, x_count)),
        geo_xs(pv, r, bi, x_count).len() <= 2 * pv.boxes[bi].side_length * if x_count >= 0 {
            x_count
        } else {
            0
        },
    decreases x_count,
{
    let side = pv.boxes[bi].side_length as int;
    if x_count > 0 {
        lemma_geo_xs_valid(pv, r, bi, x_count - 1);
        lemma_geo_ys_valid(pv, r, bi, (x_count - 1) as u32, side);
        lemma_all_kept_valid_concat(
            geo_xs(pv, r, bi, x_count - 1),
            geo_ys(pv, r, bi, (x_count - 1) as u32, side),
        );
        assert(2 * side * (x_count - 1) + 2 * side == 2 * side * x_count) by (nonlinear_arith);
    }
}

proof fn lemma_geo_boxes_valid(pv: PackingView, r: ProblemRectangle, b_count: int)
    ensures
        all_kept_valid(geo_boxes(pv, r, b_count)),
    decreases b_count,
{
    if b_count > 0 {
        lemma_geo_boxes_valid(pv, r, b_count - 1);
        lemma_geo_xs_valid(pv, r, b_count - 1, pv.boxes[b_count - 1].side_length as int);
        lemma_all_kept_valid_concat(
            geo_boxes(pv, r, b_count - 1),
            geo_xs(pv, r, b_count - 1, pv.boxes[b_count - 1].side_length as int),
        );
    }
}

proof fn lemma_geo_rects_valid(pv: PackingView, rs: Seq<ProblemRectangle>, k: int)
    ensures
        all_kept_valid(geo_rects(pv, rs, k)),
    decreases k,
{
    if k > 0 {
        lemma_geo_rects_valid(pv, rs, k - 1);
        lemma_geo_boxes_valid(pv, rs[k - 1], pv.boxes.len() as int);
        lemma_all_kept_valid_concat(
            geo_rects(pv, rs, k - 1),
            geo_boxes(pv, rs[k - 1], pv.boxes.len() as int),
        );
    }
}

/// Every packing the geometric neighborhood keeps scores feasible and is
/// valid; in particular the filter excludes every candidate whose placement
/// pushes a rectangle out of its box's bounds.
pub proof fn lemma_geometric_neighborhood_valid(pv: PackingView)
    ensures
        all_kept_valid(geometric_neighborhood(pv)),
{
    lemma_geo_rects_valid(pv, all_rects(pv), all_rects(pv).len() as int);
}

/// Over a single rectangle in a single box of side length `S`, the geometric
/// neighborhood holds at most `S * S * 2` packings: one rectangle, one box,
/// `S * S` coordinates and two orientations, thinned further by the filter.
pub proof fn lemma_single_rect_neighborhood_bound(pv: PackingView)
    requires
        pv.boxes.len() == 1,
        pv.boxes[0].rectangles.len() == 1,
    ensures
        geometric_neighborhood(pv).len() <= 2 * pv.boxes[0].side_length * pv.boxes[0].side_length,
{
    let side = pv.boxes[0].side_length as int;
    let rs = all_rects(pv);
    assert(all_rects_upto(pv, 0) == Seq::<ProblemRectangle>::empty());
    assert(rs =~= Seq::<ProblemRectangle>::empty() + pv.boxes[0].rectangles);
    assert(rs.len() == 1);
    let r = rs[0];
    assert(geometric_neighborhood(pv) == geo_rects(pv, rs, 1));
    assert(geo_rects(pv, rs, 1) == geo_rects(pv, rs, 0) + geo_boxes(pv, r, 1));
    assert(geo_boxes(pv, r, 1) == geo_boxes(pv, r, 0) + geo_xs(pv, r, 0, side));
    lemma_geo_xs_valid(pv, r, 0, side);
    assert(geometric_neighborhood(pv).len() <= 2 * side * side);
}

/// A rectangle never overlaps one carrying its own id, itself in particular,
/// whatever the tolerance.
pub proof fn lemma_equal_id_never_overlaps(
    a: ProblemRectangle,
    b: ProblemRectangle,
    num: u32,
    den: u32,
)
    requires
        a.id == b.id,
    ensures
        !rects_overlap(a, b, num, den),
{
}

} // verus!
