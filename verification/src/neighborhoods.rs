use crate::problem::{
    box_has_rect, box_refs_ok, packing_wf, rect_ids_unique, rect_in_bounds, rects_overlap,
    rescored, spec_move_rect, spec_score, BoxView, PackingView, Problem, ProblemBox,
    ProblemRectangle, Score,
};
use itertools::Itertools;
use vstd::prelude::*;
use vstd::seq_lib::{to_multiset_contains, to_multiset_remove};

verus! {

/// The move-generation policies a neighborhood can follow.
pub enum NeighborhoodType {
    Geometric,
    GeometricOverlap,
    Permutation,
}

/// The models of a sequence of packings.
pub open spec fn views(s: Seq<Problem>) -> Seq<PackingView> {
    s.map_values(|p: Problem| p@)
}

/// All rectangles of the first `k` boxes, in box order and, within one box,
/// in the box's storage order.
pub open spec fn all_rects_upto(pv: PackingView, k: int) -> Seq<ProblemRectangle>
    decreases k,
{
    if k <= 0 {
        Seq::empty()
    } else {
        all_rects_upto(pv, k - 1) + pv.boxes[k - 1].rectangles
    }
}

/// All rectangles of the packing, in enumeration order.
pub open spec fn all_rects(pv: PackingView) -> Seq<ProblemRectangle> {
    all_rects_upto(pv, pv.boxes.len() as int)
}

/// The candidate packing that one elementary move yields: a copy of `pv` with
/// rectangle `r` moved to `(x, y)` in box `bi` at the given orientation, its
/// score recomputed.
pub open spec fn geo_candidate(
    pv: PackingView,
    r: ProblemRectangle,
    bi: int,
    x: u32,
    y: u32,
    flip: bool,
) -> PackingView {
    rescored(spec_move_rect(pv, r.id, r.box_idx as int, x, y, bi, flip))
}

/// A candidate survives the filter only when its score is feasible.
pub open spec fn keep_feasible(c: PackingView) -> Seq<PackingView> {
    if c.score is Feasible {
        seq![c]
    } else {
        Seq::empty()
    }
}

/// The surviving candidates for one position, flipped first, then unflipped.
pub open spec fn geo_pair(
    pv: PackingView,
    r: ProblemRectangle,
    bi: int,
    x: u32,
    y: u32,
) -> Seq<PackingView> {
    keep_feasible(geo_candidate(pv, r, bi, x, y, true))
        + keep_feasible(geo_candidate(pv, r, bi, x, y, false))
}

/// The surviving candidates for column `x` of box `bi`, rows `0 .. y_count`.
pub open spec fn geo_ys(
    pv: PackingView,
    r: ProblemRectangle,
    bi: int,
    x: u32,
    y_count: int,
) -> Seq<PackingView>
    decreases y_count,
{
    if y_count <= 0 {
        Seq::empty()
    } else {
        geo_ys(pv, r, bi, x, y_count - 1) + geo_pair(pv, r, bi, x, (y_count - 1) as u32)
    }
}

/// The surviving candidates for box `bi`, columns `0 .. x_count`.
pub open spec fn geo_xs(
    pv: PackingView,
    r: ProblemRectangle,
    bi: int,
    x_count: int,
) -> Seq<PackingView>
    decreases x_count,
{
    if x_count <= 0 {
        Seq::empty()
    } else {
        geo_xs(pv, r, bi, x_count - 1)
            + geo_ys(pv, r, bi, (x_count - 1) as u32, pv.boxes[bi].side_length as int)
    }
}

/// The surviving candidates that move `r` into any of the first `b_count`
/// boxes.
pub open spec fn geo_boxes(pv: PackingView, r: ProblemRectangle, b_count: int) -> Seq<PackingView>
    decreases b_count,
{
    if b_count <= 0 {
        Seq::empty()
    } else {
        geo_boxes(pv, r, b_count - 1)
            + geo_xs(pv, r, b_count - 1, pv.boxes[b_count - 1].side_length as int)
    }
}

/// The surviving candidates that move any of the first `k` rectangles of `rs`.
pub open spec fn geo_rects(pv: PackingView, rs: Seq<ProblemRectangle>, k: int) -> Seq<PackingView>
    decreases k,
{
    if k <= 0 {
        Seq::empty()
    } else {
        geo_rects(pv, rs, k - 1) + geo_boxes(pv, rs[k - 1], pv.boxes.len() as int)
    }
}

/// The full geometric neighborhood of a packing: for every rectangle, every
/// box, every in-box coordinate and both orientations, the rescored result of
/// that one move, kept only when feasible, in enumeration order.
pub open spec fn geometric_neighborhood(pv: PackingView) -> Seq<PackingView> {
    geo_rects(pv, all_rects(pv), all_rects(pv).len() as int)
}

/// All rectangles of the packing, collected in enumeration order.
#[verifier::loop_isolation(false)]
fn collect_rects(p: &Problem) -> (rects: Vec<ProblemRectangle>)
    requires
        packing_wf(p@),
    ensures
        rects@ == all_rects(p@),
        forall|j: int|
            0 <= j < rects@.len() ==> (#[trigger] rects@[j]).box_idx < p@.boxes.len()
                && box_has_rect(p@.boxes[rects@[j].box_idx as int], rects@[j].id),
{
    let mut rects: Vec<ProblemRectangle> = Vec::new();
    let nb = p.boxes.len();
    let mut bi: usize = 0;
    while bi < nb
        invariant
            bi <= nb,
            rects@ == all_rects_upto(p@, bi as int),
            forall|j: int|
                0 <= j < rects@.len() ==> (#[trigger] rects@[j]).box_idx < p@.boxes.len()
                    && box_has_rect(p@.boxes[rects@[j].box_idx as int], rects@[j].id),
        decreases nb - bi,
    {
        let nr = p.boxes[bi].rectangles.len();
        let mut ri: usize = 0;
        while ri < nr
            invariant
                ri <= nr,
                bi < nb,
                rects@ == all_rects_upto(p@, bi as int)
                    + p@.boxes[bi as int].rectangles.take(ri as int),
            forall|j: int|
                0 <= j < rects@.len() ==> (#[trigger] rects@[j]).box_idx < p@.boxes.len()
                    && box_has_rect(p@.boxes[rects@[j].box_idx as int], rects@[j].id),
            decreases nr - ri,
        {
            let rect = p.boxes[bi].rectangles[ri];
            rects.push(rect);
            proof {
                assert(rect.box_idx == bi);
                assert(box_has_rect(p@.boxes[bi as int], rect.id));
                assert(rects@ =~= all_rects_upto(p@, bi as int)
                    + p@.boxes[bi as int].rectangles.take(ri as int + 1));
            }
            ri += 1;
        }
        proof {
            assert(p@.boxes[bi as int].rectangles.take(nr as int)
                =~= p@.boxes[bi as int].rectangles);
            assert(rects@ =~= all_rects_upto(p@, bi as int + 1));
        }
        bi += 1;
    }
    rects
}

/// Clones the packing, applies one move, rescores the clone, and appends it
/// to `neighbors` exactly when its score is feasible.
#[verifier::loop_isolation(false)]
fn push_candidate(
    neighbors: &mut Vec<Problem>,
    p: &Problem,
    r: ProblemRectangle,
    bi: usize,
    x: u32,
    y: u32,
    flip: bool,
)
    requires
        packing_wf(p@),
        bi < p@.boxes.len(),
        r.box_idx < p@.boxes.len(),
        box_has_rect(p@.boxes[r.box_idx as int], r.id),
    ensures
        views(final(neighbors)@) == views(old(neighbors)@)
            + keep_feasible(geo_candidate(p@, r, bi as int, x, y, flip)),
        forall|j: int|
            old(neighbors)@.len() <= j < final(neighbors)@.len() ==> packing_wf(
                (#[trigger] final(neighbors)@[j])@,
            ) && final(neighbors)@[j]@.score is Feasible,
        forall|j: int|
            0 <= j < old(neighbors)@.len() ==> final(neighbors)@[j] == old(neighbors)@[j],
{
    let mut n = p.clone();
    let moved = n.move_rect(r.id, r.box_idx, x, y, bi, flip);
    match moved {
        Ok(()) => {},
        Err(_) => {
            proof {
                assert(false);
            }
        },
    }
    n.calculate_score();
    proof {
        assert(n@ == geo_candidate(p@, r, bi as int, x, y, flip));
        assert(packing_wf(n@));
    }
    match n.score {
        Score::Feasible(_) => {
            neighbors.push(n);
        },
        Score::Infeasible => {},
    }
    proof {
        assert(views(neighbors@) =~= views(old(neighbors)@)
            + keep_feasible(geo_candidate(p@, r, bi as int, x, y, flip)));
    }
}

/// Produces the full geometric neighborhood of the packing: every feasible
/// result of moving one rectangle to one coordinate of one box at either
/// orientation, in enumeration order. Infeasible candidates are filtered out.
#[verifier::loop_isolation(false)]
#[verifier::rlimit(100)]
pub fn get_geometric_neighbors(problem_instance: &Problem) -> (neighbors: Vec<Problem>)
    requires
        packing_wf(problem_instance@),
    ensures
        views(neighbors@) == geometric_neighborhood(problem_instance@),
        forall|j: int|
            0 <= j < neighbors@.len() ==> packing_wf((#[trigger] neighbors@[j])@)
                && neighbors@[j]@.score is Feasible,
{
    let ghost pv = problem_instance@;
    let mut neighbors: Vec<Problem> = Vec::new();
    let rects = collect_rects(problem_instance);
    let nrects = rects.len();
    let nb = problem_instance.boxes.len();
    let mut k: usize = 0;
    while k < nrects
        invariant
            k <= nrects,
            views(neighbors@) == geo_rects(pv, rects@, k as int),
            forall|j: int|
                0 <= j < neighbors@.len() ==> packing_wf((#[trigger] neighbors@[j])@)
                    && neighbors@[j]@.score is Feasible,
        decreases nrects - k,
    {
        let r = rects[k];
        let mut bi: usize = 0;
        while bi < nb
            invariant
                bi <= nb,
                k < nrects,
                r == rects@[k as int],
                views(neighbors@) == geo_rects(pv, rects@, k as int)
                    + geo_boxes(pv, r, bi as int),
                forall|j: int|
                    0 <= j < neighbors@.len() ==> packing_wf((#[trigger] neighbors@[j])@)
                        && neighbors@[j]@.score is Feasible,
            decreases nb - bi,
        {
            let side = problem_instance.boxes[bi].side_length;
            let mut x: u32 = 0;
            while x < side
                invariant
                    x <= side,
                    bi < nb,
                    k < nrects,
                    r == rects@[k as int],
                    side == pv.boxes[bi as int].side_length,
                    views(neighbors@) == geo_rects(pv, rects@, k as int)
                        + geo_boxes(pv, r, bi as int) + geo_xs(pv, r, bi as int, x as int),
                    forall|j: int|
                        0 <= j < neighbors@.len() ==> packing_wf((#[trigger] neighbors@[j])@)
                            && neighbors@[j]@.score is Feasible,
                decreases side - x,
            {
                let mut y: u32 = 0;
                while y < side
                    invariant
                        y <= side,
                        x < side,
                        bi < nb,
                        k < nrects,
                        r == rects@[k as int],
                        side == pv.boxes[bi as int].side_length,
                        views(neighbors@) == geo_rects(pv, rects@, k as int)
                            + geo_boxes(pv, r, bi as int) + geo_xs(pv, r, bi as int, x as int)
                            + geo_ys(pv, r, bi as int, x, y as int),
                        forall|j: int|
                            0 <= j < neighbors@.len() ==> packing_wf(
                                (#[trigger] neighbors@[j])@,
                            ) && neighbors@[j]@.score is Feasible,
                    decreases side - y,
                {
                    push_candidate(&mut neighbors, problem_instance, r, bi, x, y, true);
                    push_candidate(&mut neighbors, problem_instance, r, bi, x, y, false);
                    proof {
                        assert(views(neighbors@) =~= geo_rects(pv, rects@, k as int)
                            + geo_boxes(pv, r, bi as int) + geo_xs(pv, r, bi as int, x as int)
                            + geo_ys(pv, r, bi as int, x, y as int + 1));
                    }
                    y += 1;
                }
                proof {
                    assert(views(neighbors@) =~= geo_rects(pv, rects@, k as int)
                        + geo_boxes(pv, r, bi as int) + geo_xs(pv, r, bi as int, x as int + 1));
                }
                x += 1;
            }
            proof {
                assert(views(neighbors@) =~= geo_rects(pv, rects@, k as int)
                    + geo_boxes(pv, r, bi as int + 1));
            }
            bi += 1;
        }
        proof {
            assert(views(neighbors@) =~= geo_rects(pv, rects@, k as int + 1));
        }
        k += 1;
    }
    neighbors
}

/// The order the permutation encoding sorts rectangles by: box index first,
/// then x, then y.
pub open spec fn perm_key_le(a: ProblemRectangle, b: ProblemRectangle) -> bool {
    ||| a.box_idx < b.box_idx
    ||| (a.box_idx == b.box_idx && a.x < b.x)
    ||| (a.box_idx == b.box_idx && a.x == b.x && a.y <= b.y)
}

/// `perm_key_le(a, b)` decided executably.
fn perm_key_le_exec(a: &ProblemRectangle, b: &ProblemRectangle) -> (r: bool)
    ensures
        r == perm_key_le(*a, *b),
{
    a.box_idx < b.box_idx || (a.box_idx == b.box_idx && (a.x < b.x || (a.x == b.x && a.y <= b.y)))
}

/// Rectangles sorted by `perm_key_le` up to each pair of positions.
pub open spec fn rects_sorted(s: Seq<ProblemRectangle>) -> bool {
    forall|i: int, j: int| 0 <= i <= j < s.len() ==> perm_key_le(#[trigger] s[i], #[trigger] s[j])
}

/// The position a sorted insertion of `rect` goes to: after everything that
/// does not exceed it, before everything it does not exceed.
#[verifier::loop_isolation(false)]
fn insert_pos(out: &Vec<ProblemRectangle>, rect: &ProblemRectangle) -> (pos: usize)
    requires
        rects_sorted(out@),
    ensures
        pos <= out@.len(),
        forall|i: int| 0 <= i < pos ==> perm_key_le(#[trigger] out@[i], *rect),
        forall|i: int| pos <= i < out@.len() ==> perm_key_le(*rect, #[trigger] out@[i]),
{
    let n = out.len();
    let mut pos: usize = 0;
    while pos < n
        invariant
            pos <= n,
            forall|i: int| 0 <= i < pos ==> perm_key_le(#[trigger] out@[i], *rect),
        decreases n - pos,
    {
        if !perm_key_le_exec(&out[pos], rect) {
            proof {
                assert forall|i: int| pos <= i < out@.len() implies perm_key_le(
                    *rect,
                    #[trigger] out@[i],
                ) by {
                    assert(perm_key_le(out@[pos as int], out@[i]));
                }
            }
            return pos;
        }
        pos += 1;
    }
    pos
}

/// Sorts rectangles by box index, then x, then y, by insertion into a fresh
/// vector; the result holds exactly the input rectangles.
#[verifier::loop_isolation(false)]
fn sort_rects(v: &Vec<ProblemRectangle>) -> (out: Vec<ProblemRectangle>)
    ensures
        out@.to_multiset() == v@.to_multiset(),
        out@.len() == v@.len(),
        rects_sorted(out@),
{
    broadcast use vstd::seq_lib::to_multiset_build, vstd::seq_lib::to_multiset_insert, vstd::multiset::group_multiset_axioms;

    let n = v.len();
    let mut out: Vec<ProblemRectangle> = Vec::new();
    proof {
        assert(out@ =~= v@.take(0));
    }
    let mut k: usize = 0;
    while k < n
        invariant
            k <= n,
            out@.len() == k,
            out@.to_multiset() == v@.take(k as int).to_multiset(),
            rects_sorted(out@),
        decreases n - k,
    {
        let rect = v[k];
        let ghost prev = out@;
        let pos = insert_pos(&out, &rect);
        out.insert(pos, rect);
        proof {
            assert(out@ == prev.insert(pos as int, rect));
            assert forall|i: int, j: int| 0 <= i <= j < out@.len() implies perm_key_le(
                #[trigger] out@[i],
                #[trigger] out@[j],
            ) by {
                assert(out@[i] == if i < pos {
                    prev[i]
                } else if i == pos {
                    rect
                } else {
                    prev[i - 1]
                });
                assert(out@[j] == if j < pos {
                    prev[j]
                } else if j == pos {
                    rect
                } else {
                    prev[j - 1]
                });
            }
            assert(v@.take(k as int + 1).drop_last() =~= v@.take(k as int));
            assert(v@.take(k as int + 1) =~= v@.take(k as int).push(rect));
        }
        k += 1;
    }
    proof {
        assert(v@.take(n as int) =~= v@);
    }
    out
}

/// Makes one long list of all the packing's rectangles, sorted by box index
/// and then by position; a permutation of this list is the unit the
/// permutation neighborhood permutes and decodes.
#[verifier::loop_isolation(false)]
pub fn encode_permutation_solution(problem_instance: &Problem) -> (encoded: Vec<ProblemRectangle>)
    requires
        packing_wf(problem_instance@),
    ensures
        encoded@.to_multiset() == all_rects(problem_instance@).to_multiset(),
        encoded@.len() == all_rects(problem_instance@).len(),
        rects_sorted(encoded@),
{
    let rects = collect_rects(problem_instance);
    proof {
        vstd::seq_lib::to_multiset_len::<ProblemRectangle>(rects@);
        vstd::seq_lib::to_multiset_len::<ProblemRectangle>(all_rects(problem_instance@));
    }
    sort_rects(&rects)
}

/// The factorial of `n`.
pub open spec fn factorial(n: nat) -> nat
    decreases n,
{
    if n == 0 {
        1
    } else {
        n * factorial((n - 1) as nat)
    }
}

/// The list of orderings that itertools' permutation adaptor yields for a
/// given rectangle list. The adaptor is a function of its input alone, so
/// naming its full result is sound; what the library needs of it is stated
/// where the call is made.
pub uninterp spec fn permutations_of(rects: Seq<ProblemRectangle>) -> Seq<Seq<ProblemRectangle>>;

/// Relies on itertools::Itertools::permutations: with the length of the input
/// as `k`, it yields one vector per permutation of the input — `n!` of them —
/// each a reordering of the input, deterministically from the input alone.
/// Nothing is assumed about the order in which the orderings come.
#[verifier::external_body]
fn all_permutations(rects: &Vec<ProblemRectangle>) -> (r: Vec<Vec<ProblemRectangle>>)
    ensures
        r@.map_values(|v: Vec<ProblemRectangle>| v@) == permutations_of(rects@),
        r@.len() == factorial(rects@.len()),
        forall|t: int|
            0 <= t < r@.len() ==> (#[trigger] r@[t])@.to_multiset() == rects@.to_multiset(),
{
    rects.iter().cloned().permutations(rects.len()).collect()
}

/// No two rectangles of the sequence share an id.
pub open spec fn distinct_ids(s: Seq<ProblemRectangle>) -> bool {
    forall|i: int, j: int|
        0 <= i < j < s.len() ==> (#[trigger] s[i]).id != (#[trigger] s[j]).id
}

/// The rectangle at flat position `j` of the first `k` boxes' enumeration
/// stands at a box position whose flat offset is exactly `j`.
pub open spec fn flat_origin(pv: PackingView, k: int, j: int) -> bool {
    exists|bi: int, ri: int|
        0 <= bi < k && 0 <= ri < pv.boxes[bi].rectangles.len() && all_rects_upto(pv, k)[j]
            == #[trigger] pv.boxes[bi].rectangles[ri] && j == all_rects_upto(pv, bi).len() + ri
}

proof fn lemma_all_rects_upto_membership(pv: PackingView, k: int)
    requires
        0 <= k <= pv.boxes.len(),
    ensures
        forall|j: int| 0 <= j < all_rects_upto(pv, k).len() ==> #[trigger] flat_origin(pv, k, j),
        forall|bi: int, ri: int|
            0 <= bi < k && 0 <= ri < pv.boxes[bi].rectangles.len() ==> all_rects_upto(
                pv,
                k,
            ).contains(#[trigger] pv.boxes[bi].rectangles[ri]),
    decreases k,
{
    if k > 0 {
        lemma_all_rects_upto_membership(pv, k - 1);
        let prefix = all_rects_upto(pv, k - 1);
        let full = all_rects_upto(pv, k);
        assert forall|j: int| 0 <= j < full.len() implies #[trigger] flat_origin(pv, k, j) by {
            if j < prefix.len() {
                assert(full[j] == prefix[j]);
                assert(flat_origin(pv, k - 1, j));
                let (bi, ri) = choose|bi: int, ri: int|
                    0 <= bi < k - 1 && 0 <= ri < pv.boxes[bi].rectangles.len()
                        && all_rects_upto(pv, k - 1)[j] == #[trigger] pv.boxes[bi].rectangles[ri]
                        && j == all_rects_upto(pv, bi).len() + ri;
                assert(full[j] == pv.boxes[bi].rectangles[ri]
                    && j == all_rects_upto(pv, bi).len() + ri);
            } else {
                assert(full[j] == pv.boxes[k - 1].rectangles[j - prefix.len()]
                    && j == all_rects_upto(pv, k - 1).len() + (j - prefix.len()));
            }
        }
        assert forall|bi: int, ri: int|
            0 <= bi < k && 0 <= ri < pv.boxes[bi].rectangles.len() implies full.contains(
            #[trigger] pv.boxes[bi].rectangles[ri],
        ) by {
            if bi < k - 1 {
                assert(prefix.contains(pv.boxes[bi].rectangles[ri]));
                let j = choose|j: int|
                    0 <= j < prefix.len() && prefix[j] == pv.boxes[bi].rectangles[ri];
                assert(full[j] == pv.boxes[bi].rectangles[ri]);
            } else {
                assert(full[prefix.len() + ri] == pv.boxes[bi].rectangles[ri]);
            }
        }
    }
}

/// In a well-formed packing the flattened rectangle list carries pairwise
/// distinct ids.
proof fn lemma_all_rects_distinct_ids(pv: PackingView)
    requires
        packing_wf(pv),
    ensures
        distinct_ids(all_rects(pv)),
{
    let s = all_rects(pv);
    let k = pv.boxes.len() as int;
    lemma_all_rects_upto_membership(pv, k);
    assert forall|i: int, j: int| 0 <= i < j < s.len() implies (#[trigger] s[i]).id
        != (#[trigger] s[j]).id by {
        assert(flat_origin(pv, k, i));
        assert(flat_origin(pv, k, j));
        let (b1, r1) = choose|b1: int, r1: int|
            0 <= b1 < k && 0 <= r1 < pv.boxes[b1].rectangles.len() && all_rects_upto(pv, k)[i]
                == #[trigger] pv.boxes[b1].rectangles[r1]
                && i == all_rects_upto(pv, b1).len() + r1;
        let (b2, r2) = choose|b2: int, r2: int|
            0 <= b2 < k && 0 <= r2 < pv.boxes[b2].rectangles.len() && all_rects_upto(pv, k)[j]
                == #[trigger] pv.boxes[b2].rectangles[r2]
                && j == all_rects_upto(pv, b2).len() + r2;
        assert(b1 != b2 || r1 != r2);
    }
}

/// A reordering of a sequence with pairwise distinct ids has pairwise
/// distinct ids.
proof fn lemma_distinct_ids_transfer(a: Seq<ProblemRectangle>, b: Seq<ProblemRectangle>)
    requires
        a.to_multiset() == b.to_multiset(),
        distinct_ids(a),
    ensures
        distinct_ids(b),
{
    assert forall|i: int, j: int| 0 <= i < j < b.len() implies (#[trigger] b[i]).id
        != (#[trigger] b[j]).id by {
        if b[i].id == b[j].id {
            if b[i] == b[j] {
                let v = b[i];
                to_multiset_remove(b, j);
                assert(b.remove(j)[i] == v);
                assert(b.remove(j).contains(v));
                to_multiset_contains(b.remove(j), v);
                assert(b.to_multiset().count(v) >= 2);
                to_multiset_contains(a, v);
                assert(a.contains(v));
                let i1 = choose|t: int| 0 <= t < a.len() && a[t] == v;
                to_multiset_remove(a, i1);
                to_multiset_contains(a.remove(i1), v);
                assert(a.remove(i1).to_multiset().count(v) >= 1);
                assert(a.remove(i1).contains(v));
                let i2 = choose|t: int| 0 <= t < a.remove(i1).len() && a.remove(i1)[t] == v;
                let i3 = if i2 < i1 {
                    i2
                } else {
                    i2 + 1
                };
                assert(a[i3] == v && i3 != i1);
                assert(false);
            } else {
                to_multiset_contains(b, b[i]);
                to_multiset_contains(b, b[j]);
                assert(b.contains(b[i]) && b.contains(b[j]));
                to_multiset_contains(a, b[i]);
                to_multiset_contains(a, b[j]);
                assert(a.contains(b[i]) && a.contains(b[j]));
                let t1 = choose|t: int| 0 <= t < a.len() && a[t] == b[i];
                let t2 = choose|t: int| 0 <= t < a.len() && a[t] == b[j];
                assert(t1 != t2);
                assert(false);
            }
        }
    }
}

/// The rectangle `q`, placed at `(x, y)` of box `bi`, unflipped.
pub open spec fn placement(q: ProblemRectangle, bi: int, x: u32, y: u32) -> ProblemRectangle {
    ProblemRectangle {
        x: x,
        y: y,
        width: q.width,
        height: q.height,
        box_idx: bi as usize,
        id: q.id,
    }
}

/// The rectangle `q` fits at `(x, y)` of box `bi`: it stays within the box's
/// bounds and overlaps none of the rectangles the box already holds beyond
/// the tolerance.
pub open spec fn fits_at(
    boxes: Seq<BoxView>,
    q: ProblemRectangle,
    bi: int,
    x: u32,
    y: u32,
    num: u32,
    den: u32,
) -> bool {
    &&& rect_in_bounds(placement(q, bi, x, y), boxes[bi].side_length)
    &&& forall|j: int|
        0 <= j < boxes[bi].rectangles.len() ==> !rects_overlap(
            #[trigger] boxes[bi].rectangles[j],
            placement(q, bi, x, y),
            num,
            den,
        )
}

/// Position `(bi, x, y)` comes strictly before `(bj, xj, yj)` in the decode
/// scan order: box index first, then row (`y`), then column (`x`).
pub open spec fn scan_before(
    bi: int,
    x: u32,
    y: u32,
    bj: int,
    xj: u32,
    yj: u32,
) -> bool {
    ||| bi < bj
    ||| (bi == bj && y < yj)
    ||| (bi == bj && y == yj && x < xj)
}

/// The models of a sequence of boxes.
pub open spec fn box_views(bs: Seq<ProblemBox>) -> Seq<BoxView> {
    bs.map_values(|b: ProblemBox| b@)
}

/// Whether `cand` lies within the box's bounds and clear of everything the
/// box already holds.
#[verifier::loop_isolation(false)]
fn placement_fits(b: &ProblemBox, cand: &ProblemRectangle, num: u32, den: u32) -> (r: bool)
    ensures
        r == ({
            &&& rect_in_bounds(*cand, b@.side_length)
            &&& forall|j: int|
                0 <= j < b@.rectangles.len() ==> !rects_overlap(
                    #[trigger] b@.rectangles[j],
                    *cand,
                    num,
                    den,
                )
        }),
{
    if cand.x as u64 + cand.width as u64 > b.side_length as u64
        || cand.y as u64 + cand.height as u64 > b.side_length as u64 {
        return false;
    }
    let n = b.rectangles.len();
    let mut j: usize = 0;
    while j < n
        invariant
            j <= n,
            forall|t: int|
                0 <= t < j ==> !rects_overlap(#[trigger] b@.rectangles[t], *cand, num, den),
        decreases n - j,
    {
        if b.rectangles[j].overlaps(cand, num, den) {
            proof {
                assert(rects_overlap(b@.rectangles[j as int], *cand, num, den));
            }
            return false;
        }
        j += 1;
    }
    true
}

/// The first position of the scan order where `q` fits among the boxes, if
/// any: boxes in index order, rows top to bottom, columns left to right.
#[verifier::loop_isolation(false)]
#[verifier::rlimit(100)]
pub fn first_fit(boxes: &Vec<ProblemBox>, q: &ProblemRectangle, num: u32, den: u32) -> (r: Option<
    (usize, u32, u32),
>)
    ensures
        match r {
            Some(p) => {
                &&& p.0 < boxes@.len()
                &&& p.1 < box_views(boxes@)[p.0 as int].side_length
                &&& p.2 < box_views(boxes@)[p.0 as int].side_length
                &&& fits_at(box_views(boxes@), *q, p.0 as int, p.1, p.2, num, den)
                &&& forall|bi: int, x: u32, y: u32|
                    0 <= bi < boxes@.len() && x < box_views(boxes@)[bi].side_length && y
                        < box_views(boxes@)[bi].side_length && scan_before(
                        bi,
                        x,
                        y,
                        p.0 as int,
                        p.1,
                        p.2,
                    ) ==> !fits_at(box_views(boxes@), *q, bi, x, y, num, den)
            },
            None => forall|bi: int, x: u32, y: u32|
                0 <= bi < boxes@.len() && x < box_views(boxes@)[bi].side_length && y
                    < box_views(boxes@)[bi].side_length ==> !fits_at(
                    box_views(boxes@),
                    *q,
                    bi,
                    x,
                    y,
                    num,
                    den,
                ),
        },
{
    let nb = boxes.len();
    let mut bi: usize = 0;
    while bi < nb
        invariant
            bi <= nb,
            forall|bj: int, x: u32, y: u32|
                0 <= bj < bi && x < box_views(boxes@)[bj].side_length && y < box_views(
                    boxes@,
                )[bj].side_length ==> !fits_at(box_views(boxes@), *q, bj, x, y, num, den),
        decreases nb - bi,
    {
        let side = boxes[bi].side_length;
        let mut y: u32 = 0;
        while y < side
            invariant
                y <= side,
                bi < nb,
                side == box_views(boxes@)[bi as int].side_length,
                forall|bj: int, xj: u32, yj: u32|
                    0 <= bj < bi && xj < box_views(boxes@)[bj].side_length && yj < box_views(
                        boxes@,
                    )[bj].side_length ==> !fits_at(box_views(boxes@), *q, bj, xj, yj, num, den),
                forall|xj: u32, yj: u32|
                    xj < side && yj < y ==> !fits_at(
                        box_views(boxes@),
                        *q,
                        bi as int,
                        xj,
                        yj,
                        num,
                        den,
                    ),
            decreases side - y,
        {
            let mut x: u32 = 0;
            while x < side
                invariant
                    x <= side,
                    y < side,
                    bi < nb,
                    side == box_views(boxes@)[bi as int].side_length,
                    forall|bj: int, xj: u32, yj: u32|
                        0 <= bj < bi && xj < box_views(boxes@)[bj].side_length && yj < box_views(
                            boxes@,
                        )[bj].side_length ==> !fits_at(
                            box_views(boxes@),
                            *q,
                            bj,
                            xj,
                            yj,
                            num,
                            den,
                        ),
                    forall|xj: u32, yj: u32|
                        xj < side && yj < y ==> !fits_at(
                            box_views(boxes@),
                            *q,
                            bi as int,
                            xj,
                            yj,
                            num,
                            den,
                        ),
                    forall|xj: u32| xj < x ==> !fits_at(
                        box_views(boxes@),
                        *q,
                        bi as int,
                        xj,
                        y,
                        num,
                        den,
                    ),
                decreases side - x,
            {
                let cand = ProblemRectangle {
                    x,
                    y,
                    width: q.width,
                    height: q.height,
                    box_idx: bi,
                    id: q.id,
                };
                if placement_fits(&boxes[bi], &cand, num, den) {
                    proof {
                        assert(cand == placement(*q, bi as int, x, y));
                        assert(fits_at(box_views(boxes@), *q, bi as int, x, y, num, den));
                    }
                    return Some((bi, x, y));
                }
                proof {
                    assert(cand == placement(*q, bi as int, x, y));
                    assert(!fits_at(box_views(boxes@), *q, bi as int, x, y, num, den));
                }
                x += 1;
            }
            y += 1;
        }
        bi += 1;
    }
    None
}

/// Position `(bi, ri)` of the boxes holds a rectangle with the id, width and
/// height of `q`, wherever it was placed.
pub open spec fn placed_as(boxes: Seq<BoxView>, bi: int, ri: int, q: ProblemRectangle) -> bool {
    &&& 0 <= bi < boxes.len()
    &&& 0 <= ri < boxes[bi].rectangles.len()
    &&& boxes[bi].rectangles[ri].id == q.id
    &&& boxes[bi].rectangles[ri].width == q.width
    &&& boxes[bi].rectangles[ri].height == q.height
}

/// Some position of the boxes holds a rectangle with the id, width and height
/// of `q`.
#[verifier::opaque]
pub open spec fn placed_somewhere(boxes: Seq<BoxView>, q: ProblemRectangle) -> bool {
    exists|bi: int, ri: int| placed_as(boxes, bi, ri, q)
}

/// The rectangle at position `(bi, ri)` of the boxes matches, in id, width
/// and height, one of the first `upto` rectangles of `perm`.
#[verifier::opaque]
pub open spec fn from_perm(
    boxes: Seq<BoxView>,
    perm: Seq<ProblemRectangle>,
    upto: int,
    bi: int,
    ri: int,
) -> bool {
    exists|k: int| 0 <= k < upto && placed_as(boxes, bi, ri, #[trigger] perm[k])
}

/// Placing one more rectangle of the permutation into some box keeps every
/// bookkeeping fact of the decoding loop: box back-references stay accurate,
/// every rectangle placed so far is still present, every present rectangle
/// still comes from the permutation's prefix, and ids stay pairwise distinct.
/// The decoding loop's bookkeeping after placing the first `upto` rectangles
/// of `perm`: every box keeps the side length recorded in `sides`, every
/// placed rectangle carries the index of the box that holds it, every
/// rectangle of the prefix is placed somewhere, every placed rectangle comes
/// from the prefix, and no two placed rectangles share an id.
#[verifier::opaque]
pub open spec fn decode_inv(
    boxes: Seq<BoxView>,
    perm: Seq<ProblemRectangle>,
    upto: int,
    sides: Seq<u32>,
) -> bool {
    &&& boxes.len() == sides.len()
    &&& forall|t: int|
        0 <= t < boxes.len() ==> (#[trigger] boxes[t]).side_length == sides[t]
    &&& forall|t: int, u: int|
        #![trigger boxes[t].rectangles[u]]
        0 <= t < boxes.len() && 0 <= u < boxes[t].rectangles.len()
            ==> boxes[t].rectangles[u].box_idx == t
    &&& forall|k2: int| 0 <= k2 < upto ==> placed_somewhere(boxes, #[trigger] perm[k2])
    &&& forall|t: int, u: int|
        #![trigger boxes[t].rectangles[u]]
        0 <= t < boxes.len() && 0 <= u < boxes[t].rectangles.len() ==> from_perm(
            boxes,
            perm,
            upto,
            t,
            u,
        )
    &&& forall|t1: int, u1: int, t2: int, u2: int|
        #![trigger boxes[t1].rectangles[u1], boxes[t2].rectangles[u2]]
        0 <= t1 < boxes.len() && 0 <= u1 < boxes[t1].rectangles.len() && 0 <= t2 < boxes.len()
            && 0 <= u2 < boxes[t2].rectangles.len() && (t1 != t2 || u1 != u2)
            ==> boxes[t1].rectangles[u1].id != boxes[t2].rectangles[u2].id
}

/// Boxes that hold no rectangles yet satisfy the decoding bookkeeping for an
/// empty prefix.
proof fn lemma_decode_inv_empty(boxes: Seq<BoxView>, perm: Seq<ProblemRectangle>, sides: Seq<u32>)
    requires
        boxes.len() == sides.len(),
        forall|t: int|
            0 <= t < boxes.len() ==> (#[trigger] boxes[t]).side_length == sides[t]
                && boxes[t].rectangles.len() == 0,
    ensures
        decode_inv(boxes, perm, 0, sides),
{
    reveal(decode_inv);
}

/// Placing one more rectangle of the permutation into some box keeps the
/// decoding bookkeeping.
proof fn lemma_place_one(
    prev: Seq<BoxView>,
    cur: Seq<BoxView>,
    perm: Seq<ProblemRectangle>,
    k: int,
    t0: int,
    cand: ProblemRectangle,
    sides: Seq<u32>,
)
    requires
        0 <= t0 < prev.len(),
        cur == prev.update(
            t0,
            BoxView { rectangles: prev[t0].rectangles.push(cand), ..prev[t0] },
        ),
        cand.box_idx == t0,
        0 <= k < perm.len(),
        cand.id == perm[k].id,
        cand.width == perm[k].width,
        cand.height == perm[k].height,
        distinct_ids(perm),
        decode_inv(prev, perm, k, sides),
    ensures
        cur.len() == prev.len(),
        decode_inv(cur, perm, k + 1, sides),
{
    reveal(decode_inv);
    reveal(placed_somewhere);
    reveal(from_perm);
    let prevlen = prev[t0].rectangles.len() as int;
    assert forall|t: int| 0 <= t < prev.len() implies #[trigger] cur[t] == if t == t0 {
        BoxView { rectangles: prev[t].rectangles.push(cand), ..prev[t] }
    } else {
        prev[t]
    } by {
        assert(cur[t] == prev.update(
            t0,
            BoxView { rectangles: prev[t0].rectangles.push(cand), ..prev[t0] },
        )[t]);
    }
    assert(placed_as(cur, t0, prevlen, perm[k]));
    assert forall|t: int, u: int|
        #![trigger cur[t].rectangles[u]]
        0 <= t < cur.len() && 0 <= u < cur[t].rectangles.len() implies cur[t].rectangles[u].box_idx
        == t by {
        if t == t0 && u == prevlen {
            assert(cur[t].rectangles[u] == cand);
        } else {
            assert(cur[t].rectangles[u] == prev[t].rectangles[u]);
        }
    }
    assert forall|k2: int| 0 <= k2 < k + 1 implies placed_somewhere(cur, #[trigger] perm[k2]) by {
        if k2 < k {
            assert(placed_somewhere(prev, perm[k2]));
            let (t, u) = choose|t: int, u: int| placed_as(prev, t, u, perm[k2]);
            assert(placed_as(cur, t, u, perm[k2]));
        }
    }
    assert forall|t: int, u: int|
        #![trigger cur[t].rectangles[u]]
        0 <= t < cur.len() && 0 <= u < cur[t].rectangles.len() implies from_perm(
        cur,
        perm,
        k + 1,
        t,
        u,
    ) by {
        if t == t0 && u == prevlen {
            assert(placed_as(cur, t, u, perm[k]));
        } else {
            assert(cur[t].rectangles[u] == prev[t].rectangles[u]);
            assert(from_perm(prev, perm, k, t, u));
            let k2 = choose|k2: int| 0 <= k2 < k && placed_as(prev, t, u, #[trigger] perm[k2]);
            assert(placed_as(cur, t, u, perm[k2]));
        }
    }
    assert forall|t1: int, u1: int, t2: int, u2: int|
        #![trigger cur[t1].rectangles[u1], cur[t2].rectangles[u2]]
        0 <= t1 < cur.len() && 0 <= u1 < cur[t1].rectangles.len() && 0 <= t2 < cur.len() && 0 <= u2
        < cur[t2].rectangles.len() && (t1 != t2 || u1 != u2) implies cur[t1].rectangles[u1].id
        != cur[t2].rectangles[u2].id by {
        let new1 = t1 == t0 && u1 == prevlen;
        let new2 = t2 == t0 && u2 == prevlen;
        if new1 && !new2 {
            assert(cur[t1].rectangles[u1] == cand);
            assert(cur[t2].rectangles[u2] == prev[t2].rectangles[u2]);
            assert(from_perm(prev, perm, k, t2, u2));
            let k2 = choose|k2: int| 0 <= k2 < k && placed_as(prev, t2, u2, #[trigger] perm[k2]);
            assert(perm[k2].id != perm[k].id);
        } else if !new1 && new2 {
            assert(cur[t2].rectangles[u2] == cand);
            assert(cur[t1].rectangles[u1] == prev[t1].rectangles[u1]);
            assert(from_perm(prev, perm, k, t1, u1));
            let k2 = choose|k2: int| 0 <= k2 < k && placed_as(prev, t1, u1, #[trigger] perm[k2]);
            assert(perm[k2].id != perm[k].id);
        } else if !new1 && !new2 {
            assert(cur[t1].rectangles[u1] == prev[t1].rectangles[u1]);
            assert(cur[t2].rectangles[u2] == prev[t2].rectangles[u2]);
        }
    }
}

/// The decoding bookkeeping makes the finished packing structurally
/// well-formed, and its boxes keep the recorded side lengths.
proof fn lemma_decode_inv_packing(
    pv: PackingView,
    perm: Seq<ProblemRectangle>,
    upto: int,
    sides: Seq<u32>,
)
    requires
        decode_inv(pv.boxes, perm, upto, sides),
        pv.overlap_den >= 1,
        pv.overlap_num <= pv.overlap_den,
        pv.boxes.len() <= u32::MAX,
    ensures
        packing_wf(pv),
        forall|bi: int|
            0 <= bi < pv.boxes.len() ==> (#[trigger] pv.boxes[bi]).side_length == sides[bi],
{
    reveal(decode_inv);
    assert(box_refs_ok(pv));
    assert(rect_ids_unique(pv));
}

/// The side lengths of the packing's boxes, in order.
pub open spec fn sides_of(pv: PackingView) -> Seq<u32> {
    pv.boxes.map_values(|b: BoxView| b.side_length)
}

/// Position `(bi, x, y)` is a place the scan may stop at: a real box, with
/// the coordinate inside it.
pub open spec fn position_admissible(boxes: Seq<BoxView>, bi: int, x: u32, y: u32) -> bool {
    0 <= bi < boxes.len() && x < boxes[bi].side_length && y < boxes[bi].side_length
}

/// The position the decoding gives a rectangle `q` among the boxes: the first
/// scan-order position where it fits, or the origin of the first box when it
/// fits nowhere.
#[verifier::opaque]
pub open spec fn chosen_position(
    boxes: Seq<BoxView>,
    q: ProblemRectangle,
    num: u32,
    den: u32,
) -> (int, u32, u32) {
    if exists|bi: int, x: u32, y: u32|
        position_admissible(boxes, bi, x, y) && #[trigger] fits_at(boxes, q, bi, x, y, num, den) {
        choose|bi: int, x: u32, y: u32|
            position_admissible(boxes, bi, x, y) && #[trigger] fits_at(boxes, q, bi, x, y, num, den)
                && forall|bj: int, xj: u32, yj: u32|
                position_admissible(boxes, bj, xj, yj) && scan_before(bj, xj, yj, bi, x, y)
                    ==> !fits_at(boxes, q, bj, xj, yj, num, den)
    } else {
        (0, 0, 0)
    }
}

/// At most one admissible position both fits and has no scan-earlier fitting
/// position: the scan order is total, so the earliest fit is unique.
proof fn lemma_first_fit_position_unique(
    boxes: Seq<BoxView>,
    q: ProblemRectangle,
    num: u32,
    den: u32,
    b1: int,
    x1: u32,
    y1: u32,
    b2: int,
    x2: u32,
    y2: u32,
)
    requires
        position_admissible(boxes, b1, x1, y1),
        fits_at(boxes, q, b1, x1, y1, num, den),
        forall|bj: int, xj: u32, yj: u32|
            position_admissible(boxes, bj, xj, yj) && scan_before(bj, xj, yj, b1, x1, y1)
                ==> !fits_at(boxes, q, bj, xj, yj, num, den),
        position_admissible(boxes, b2, x2, y2),
        fits_at(boxes, q, b2, x2, y2, num, den),
        forall|bj: int, xj: u32, yj: u32|
            position_admissible(boxes, bj, xj, yj) && scan_before(bj, xj, yj, b2, x2, y2)
                ==> !fits_at(boxes, q, bj, xj, yj, num, den),
    ensures
        b1 == b2 && x1 == x2 && y1 == y2,
{
    if b1 != b2 || x1 != x2 || y1 != y2 {
        assert(scan_before(b1, x1, y1, b2, x2, y2) || scan_before(b2, x2, y2, b1, x1, y1));
    }
}

/// The position the decoding gives the next rectangle, executably: the first
/// scan-order position where it fits, or the origin of the first box when it
/// fits nowhere.
fn choose_position(boxes: &Vec<ProblemBox>, q: &ProblemRectangle, num: u32, den: u32) -> (r: (
    usize,
    u32,
    u32,
))
    requires
        boxes@.len() > 0,
    ensures
        r.0 < boxes@.len(),
        (r.0 as int, r.1, r.2) == chosen_position(box_views(boxes@), *q, num, den),
{
    proof {
        reveal(chosen_position);
    }
    match first_fit(boxes, q, num, den) {
        Some(t) => {
            proof {
                let bv = box_views(boxes@);
                assert(position_admissible(bv, t.0 as int, t.1, t.2));
                let (cb, cx, cy) = choose|bi: int, x: u32, y: u32|
                    position_admissible(bv, bi, x, y) && #[trigger] fits_at(
                        bv,
                        *q,
                        bi,
                        x,
                        y,
                        num,
                        den,
                    ) && forall|bj: int, xj: u32, yj: u32|
                        position_admissible(bv, bj, xj, yj) && scan_before(bj, xj, yj, bi, x, y)
                            ==> !fits_at(bv, *q, bj, xj, yj, num, den);
                lemma_first_fit_position_unique(
                    bv,
                    *q,
                    num,
                    den,
                    cb,
                    cx,
                    cy,
                    t.0 as int,
                    t.1,
                    t.2,
                );
            }
            t
        },
        None => {
            proof {
                assert(!exists|bi: int, x: u32, y: u32|
                    position_admissible(box_views(boxes@), bi, x, y) && #[trigger] fits_at(
                        box_views(boxes@),
                        *q,
                        bi,
                        x,
                        y,
                        num,
                        den,
                    ));
            }
            (0, 0, 0)
        },
    }
}

/// The instance's boxes with their rectangles taken out: the state the
/// decoding starts from.
pub open spec fn empty_boxes_of(pv: PackingView) -> Seq<BoxView> {
    pv.boxes.map_values(
        |b: BoxView| BoxView { side_length: b.side_length, rectangles: Seq::empty() },
    )
}

/// The boxes after one rectangle of the permutation is placed: pushed at the
/// chosen position, unflipped, re-homed to the chosen box.
pub open spec fn spec_place(
    boxes: Seq<BoxView>,
    q: ProblemRectangle,
    num: u32,
    den: u32,
) -> Seq<BoxView> {
    let c = chosen_position(boxes, q, num, den);
    boxes.update(
        c.0,
        BoxView { rectangles: boxes[c.0].rectangles.push(placement(q, c.0, c.1, c.2)), ..boxes[c.0] },
    )
}

/// The boxes after the first `k` rectangles of the permutation are placed, in
/// order, each at the first scan-order position where it fit among the boxes
/// as they then stood.
pub open spec fn spec_decode_boxes(
    boxes: Seq<BoxView>,
    perm: Seq<ProblemRectangle>,
    k: int,
    num: u32,
    den: u32,
) -> Seq<BoxView>
    decreases k,
{
    if k <= 0 {
        boxes
    } else {
        spec_place(spec_decode_boxes(boxes, perm, k - 1, num, den), perm[k - 1], num, den)
    }
}

/// Copies of the instance's boxes, each with its side length and no
/// rectangles yet.
#[verifier::loop_isolation(false)]
fn build_empty_boxes(problem_instance: &Problem) -> (boxes: Vec<ProblemBox>)
    ensures
        boxes@.len() == problem_instance@.boxes.len(),
        forall|t: int|
            0 <= t < boxes@.len() ==> (#[trigger] box_views(boxes@)[t]).side_length
                == problem_instance@.boxes[t].side_length && box_views(
                boxes@,
            )[t].rectangles.len() == 0,
        box_views(boxes@) == empty_boxes_of(problem_instance@),
{
    let nb = problem_instance.boxes.len();
    let mut boxes: Vec<ProblemBox> = Vec::new();
    let mut bi: usize = 0;
    while bi < nb
        invariant
            bi <= nb,
            boxes@.len() == bi,
            forall|t: int|
                0 <= t < bi ==> (#[trigger] box_views(boxes@)[t]).side_length
                    == problem_instance@.boxes[t].side_length && box_views(
                    boxes@,
                )[t].rectangles.len() == 0,
        decreases nb - bi,
    {
        let empty_rects: Vec<ProblemRectangle> = Vec::new();
        let ghost prev = boxes@;
        boxes.push(ProblemBox {
            side_length: problem_instance.boxes[bi].side_length,
            rectangles: empty_rects,
        });
        proof {
            assert forall|t: int| 0 <= t < bi + 1 implies (#[trigger] box_views(boxes@)[t])
                .side_length == problem_instance@.boxes[t].side_length && box_views(
                boxes@,
            )[t].rectangles.len() == 0 by {
                if t < bi {
                    assert(box_views(boxes@)[t] == box_views(prev)[t]);
                } else {
                    assert(box_views(boxes@)[t].rectangles.len() == 0);
                }
            }
        }
        bi += 1;
    }
    proof {
        assert forall|t: int| 0 <= t < boxes@.len() implies #[trigger] box_views(boxes@)[t]
            == empty_boxes_of(problem_instance@)[t] by {
            assert(box_views(boxes@)[t] =~= empty_boxes_of(problem_instance@)[t]);
        }
        assert(box_views(boxes@) =~= empty_boxes_of(problem_instance@));
    }
    boxes
}

/// Empties copies of the instance's boxes and refills them by placing each
/// rectangle of `perm`, in order and unflipped, at the first scan-order
/// position where it fits, or at the origin of the first box when it fits
/// nowhere.
#[verifier::loop_isolation(false)]
#[verifier::rlimit(100)]
fn build_decoded_boxes(problem_instance: &Problem, perm: &Vec<ProblemRectangle>) -> (boxes: Vec<
    ProblemBox,
>)
    requires
        packing_wf(problem_instance@),
        distinct_ids(perm@),
        perm@.len() == 0 || problem_instance@.boxes.len() > 0,
    ensures
        boxes@.len() == problem_instance@.boxes.len(),
        decode_inv(
            box_views(boxes@),
            perm@,
            perm@.len() as int,
            sides_of(problem_instance@),
        ),
        box_views(boxes@) == spec_decode_boxes(
            empty_boxes_of(problem_instance@),
            perm@,
            perm@.len() as int,
            problem_instance@.overlap_num,
            problem_instance@.overlap_den,
        ),
{
    let nb = problem_instance.boxes.len();
    let num = problem_instance.overlap_num;
    let den = problem_instance.overlap_den;
    let mut boxes = build_empty_boxes(problem_instance);
    let ghost sides = sides_of(problem_instance@);
    let ghost mut cur = box_views(boxes@);
    proof {
        assert forall|t: int| 0 <= t < cur.len() implies (#[trigger] cur[t]).side_length
            == sides[t] && cur[t].rectangles.len() == 0 by {
            assert(box_views(boxes@)[t] == cur[t]);
            assert(sides[t] == problem_instance@.boxes[t].side_length);
        }
        lemma_decode_inv_empty(cur, perm@, sides);
    }
    let n = perm.len();
    let mut k: usize = 0;
    while k < n
        invariant
            k <= n,
            n == perm@.len(),
            boxes@.len() == nb,
            cur == box_views(boxes@),
            cur.len() == nb,
            decode_inv(cur, perm@, k as int, sides),
            cur == spec_decode_boxes(empty_boxes_of(problem_instance@), perm@, k as int, num, den),
        decreases n - k,
    {
        let q = perm[k];
        let target = choose_position(&boxes, &q, num, den);
        let cand = ProblemRectangle {
            x: target.1,
            y: target.2,
            width: q.width,
            height: q.height,
            box_idx: target.0,
            id: q.id,
        };
        let t0 = target.0;
        boxes[t0].rectangles.push(cand);
        proof {
            let ghost next = cur.update(
                t0 as int,
                BoxView { rectangles: cur[t0 as int].rectangles.push(cand), ..cur[t0 as int] },
            );
            lemma_place_one(cur, next, perm@, k as int, t0 as int, cand, sides);
            assert(cand == placement(q, t0 as int, target.1, target.2));
            assert(next == spec_place(cur, q, num, den));
            assert(next == spec_decode_boxes(
                empty_boxes_of(problem_instance@),
                perm@,
                k as int + 1,
                num,
                den,
            ));
            assert forall|t: int| 0 <= t < nb implies box_views(boxes@)[t] == #[trigger] next[t] by {
                if t == t0 as int {
                    assert(box_views(boxes@)[t] =~= BoxView {
                        rectangles: cur[t].rectangles.push(cand),
                        ..cur[t]
                    });
                } else {
                    assert(box_views(boxes@)[t] =~= cur[t]);
                }
            }
            assert(box_views(boxes@) =~= next);
            cur = next;
        }
        k += 1;
    }
    boxes
}

/// Decodes one permutation of the instance's rectangles back into a packing:
/// the same boxes, emptied, are refilled by placing each rectangle, in
/// permutation order and unflipped, at the first scan-order position where it
/// fits; a rectangle that fits nowhere goes to the origin of the first box,
/// so decoding always produces some packing, possibly an infeasible one. The
/// score is computed before returning. The boxes of the result are exactly
/// `spec_decode_boxes` of the emptied instance boxes, so the first-fit
/// placement policy is part of the contract; `decode_inv` states what the
/// result holds: exactly the given rectangles, one box each, distinct ids.
pub fn decode_permutation_solution(problem_instance: &Problem, perm: &Vec<ProblemRectangle>) -> (r:
    Problem)
    requires
        packing_wf(problem_instance@),
        distinct_ids(perm@),
        perm@.len() == 0 || problem_instance@.boxes.len() > 0,
    ensures
        r@.boxes == spec_decode_boxes(
            empty_boxes_of(problem_instance@),
            perm@,
            perm@.len() as int,
            problem_instance@.overlap_num,
            problem_instance@.overlap_den,
        ),
        r@.boxes.len() == problem_instance@.boxes.len(),
        forall|bi: int|
            0 <= bi < r@.boxes.len() ==> (#[trigger] r@.boxes[bi]).side_length
                == problem_instance@.boxes[bi].side_length,
        r@.overlap_num == problem_instance@.overlap_num,
        r@.overlap_den == problem_instance@.overlap_den,
        r@.last_moved_rec_id is None,
        r@.score == spec_score(r@),
        packing_wf(r@),
        decode_inv(r@.boxes, perm@, perm@.len() as int, sides_of(problem_instance@)),
{
    let boxes = build_decoded_boxes(problem_instance, perm);
    let ghost fb = boxes@;
    let mut r = Problem {
        boxes,
        score: Score::Infeasible,
        last_moved_rec_id: None,
        overlap_num: problem_instance.overlap_num,
        overlap_den: problem_instance.overlap_den,
    };
    proof {
        assert(r.boxes@ == fb);
        assert(r@.boxes =~= box_views(fb));
        lemma_decode_inv_packing(
            r@,
            perm@,
            perm@.len() as int,
            sides_of(problem_instance@),
        );
        assert forall|bi: int| 0 <= bi < r@.boxes.len() implies (#[trigger] r@.boxes[bi])
            .side_length == problem_instance@.boxes[bi].side_length by {
            assert(sides_of(problem_instance@)[bi] == problem_instance@.boxes[bi].side_length);
        }
    }
    r.calculate_score();
    r
}

/// What each permutation neighbor guarantees relative to its origin: the
/// instance's box count, side lengths and tolerance, no move marker, a
/// freshly computed score, structural well-formedness, and — through the
/// decoding bookkeeping — exactly the instance's rectangles, re-placed.
pub open spec fn perm_neighbor_ok(pv: PackingView, nv: PackingView) -> bool {
    &&& nv.boxes.len() == pv.boxes.len()
    &&& forall|bi: int|
        0 <= bi < nv.boxes.len() ==> (#[trigger] nv.boxes[bi]).side_length
            == pv.boxes[bi].side_length
    &&& nv.overlap_num == pv.overlap_num
    &&& nv.overlap_den == pv.overlap_den
    &&& nv.last_moved_rec_id is None
    &&& nv.score == spec_score(nv)
    &&& packing_wf(nv)
    &&& exists|perm: Seq<ProblemRectangle>|
        perm.to_multiset() == all_rects(pv).to_multiset() && #[trigger] decode_inv(
            nv.boxes,
            perm,
            perm.len() as int,
            sides_of(pv),
        )
}

/// The packing's boxes are exactly the first-fit decoding of the given
/// ordering, started from the origin packing's emptied boxes and its
/// tolerance.
pub open spec fn decodes_ordering(
    pv: PackingView,
    nv: PackingView,
    ordering: Seq<ProblemRectangle>,
) -> bool {
    nv.boxes == spec_decode_boxes(
        empty_boxes_of(pv),
        ordering,
        ordering.len() as int,
        pv.overlap_num,
        pv.overlap_den,
    )
}

/// The permutation neighborhood: the packing's rectangles are listed sorted
/// by box and position, every reordering of that list — all `n!` of them — is
/// decoded back into a packing by first-fit placement, and the `t`-th
/// neighbor decodes the `t`-th ordering.
#[verifier::loop_isolation(false)]
pub fn get_permutation_neighbors(problem_instance: &Problem) -> (neighbors: Vec<Problem>)
    requires
        packing_wf(problem_instance@),
    ensures
        neighbors@.len() == factorial(all_rects(problem_instance@).len()),
        forall|t: int|
            0 <= t < neighbors@.len() ==> perm_neighbor_ok(
                problem_instance@,
                (#[trigger] neighbors@[t])@,
            ),
        exists|enc: Seq<ProblemRectangle>|
            #![trigger permutations_of(enc)]
            {
                &&& enc.to_multiset() == all_rects(problem_instance@).to_multiset()
                &&& rects_sorted(enc)
                &&& neighbors@.len() == permutations_of(enc).len()
                &&& forall|t: int|
                    0 <= t < neighbors@.len() ==> decodes_ordering(
                        problem_instance@,
                        (#[trigger] neighbors@[t])@,
                        permutations_of(enc)[t],
                    )
            },
{
    let ghost pv = problem_instance@;
    let encoded = encode_permutation_solution(problem_instance);
    proof {
        lemma_all_rects_distinct_ids(pv);
    }
    let perms = all_permutations(&encoded);
    let mut neighbors: Vec<Problem> = Vec::new();
    let np = perms.len();
    proof {
        assert(np == permutations_of(encoded@).len());
    }
    let mut t: usize = 0;
    while t < np
        invariant
            t <= np,
            np == perms@.len(),
            neighbors@.len() == t,
            forall|j: int|
                0 <= j < t ==> perm_neighbor_ok(pv, (#[trigger] neighbors@[j])@),
            forall|j: int|
                0 <= j < t ==> decodes_ordering(
                    pv,
                    (#[trigger] neighbors@[j])@,
                    permutations_of(encoded@)[j],
                ),
        decreases np - t,
    {
        let perm = &perms[t];
        proof {
            assert(perm@.to_multiset() == all_rects(pv).to_multiset());
            lemma_distinct_ids_transfer(all_rects(pv), perm@);
            vstd::seq_lib::to_multiset_len::<ProblemRectangle>(perm@);
            vstd::seq_lib::to_multiset_len::<ProblemRectangle>(all_rects(pv));
            if pv.boxes.len() == 0 {
                assert(all_rects(pv) =~= Seq::<ProblemRectangle>::empty());
            }
        }
        let n = decode_permutation_solution(problem_instance, perm);
        neighbors.push(n);
        proof {
            assert(perm_neighbor_ok(pv, n@));
            assert(perm@ == permutations_of(encoded@)[t as int]);
            assert(decodes_ordering(pv, n@, permutations_of(encoded@)[t as int]));
        }
        t += 1;
    }
    proof {
        assert(neighbors@.len() == factorial(all_rects(pv).len()));
    }
    neighbors
}

impl Problem {
    /// The geometric neighborhood of this packing: every feasible result of
    /// one elementary move, in enumeration order.
    pub fn get_geometric_neighbors(&self) -> (neighbors: Vec<Problem>)
        requires
            packing_wf(self@),
        ensures
            views(neighbors@) == geometric_neighborhood(self@),
            forall|j: int|
                0 <= j < neighbors@.len() ==> packing_wf((#[trigger] neighbors@[j])@)
                    && neighbors@[j]@.score is Feasible,
    {
        get_geometric_neighbors(self)
    }

    /// The geometric neighborhood evaluated under the instance's own overlap
    /// tolerance. The tolerance travels with the packing, so this coincides
    /// with the geometric neighborhood.
    pub fn get_geometric_overlap_neighbors(&self) -> (neighbors: Vec<Problem>)
        requires
            packing_wf(self@),
        ensures
            views(neighbors@) == geometric_neighborhood(self@),
            forall|j: int|
                0 <= j < neighbors@.len() ==> packing_wf((#[trigger] neighbors@[j])@)
                    && neighbors@[j]@.score is Feasible,
    {
        get_geometric_neighbors(self)
    }

    /// The permutation neighborhood of this packing: one decoded packing per
    /// ordering of its rectangles, the `t`-th neighbor decoding the `t`-th
    /// ordering.
    pub fn get_permutation_neighbors(&self) -> (neighbors: Vec<Problem>)
        requires
            packing_wf(self@),
        ensures
            neighbors@.len() == factorial(all_rects(self@).len()),
            forall|t: int|
                0 <= t < neighbors@.len() ==> perm_neighbor_ok(
                    self@,
                    (#[trigger] neighbors@[t])@,
                ),
            exists|enc: Seq<ProblemRectangle>|
                #![trigger permutations_of(enc)]
                {
                    &&& enc.to_multiset() == all_rects(self@).to_multiset()
                    &&& rects_sorted(enc)
                    &&& neighbors@.len() == permutations_of(enc).len()
                    &&& forall|t: int|
                        0 <= t < neighbors@.len() ==> decodes_ordering(
                            self@,
                            (#[trigger] neighbors@[t])@,
                            permutations_of(enc)[t],
                        )
                },
    {
        get_permutation_neighbors(self)
    }

    /// The neighboring packings under the chosen move-generation policy.
    pub fn get_neighbors(&self, neighborhood_type: NeighborhoodType) -> (neighbors: Vec<Problem>)
        requires
            packing_wf(self@),
        ensures
            match neighborhood_type {
                NeighborhoodType::Geometric => views(neighbors@) == geometric_neighborhood(self@),
                NeighborhoodType::GeometricOverlap => views(neighbors@)
                    == geometric_neighborhood(self@),
                NeighborhoodType::Permutation => {
                    &&& neighbors@.len() == factorial(all_rects(self@).len())
                    &&& forall|t: int|
                        0 <= t < neighbors@.len() ==> perm_neighbor_ok(
                            self@,
                            (#[trigger] neighbors@[t])@,
                        )
                    &&& exists|enc: Seq<ProblemRectangle>|
                        #![trigger permutations_of(enc)]
                        {
                            &&& enc.to_multiset() == all_rects(self@).to_multiset()
                            &&& rects_sorted(enc)
                            &&& neighbors@.len() == permutations_of(enc).len()
                            &&& forall|t: int|
                                0 <= t < neighbors@.len() ==> decodes_ordering(
                                    self@,
                                    (#[trigger] neighbors@[t])@,
                                    permutations_of(enc)[t],
                                )
                        }
                },
            },
    {
        match neighborhood_type {
            NeighborhoodType::Geometric => self.get_geometric_neighbors(),
            NeighborhoodType::GeometricOverlap => self.get_geometric_overlap_neighbors(),
            NeighborhoodType::Permutation => self.get_permutation_neighbors(),
        }
    }
}

} // verus!
