use crate::rng::{rng_from_seed, rng_gen_range};
use std::ops::Range;
use vstd::prelude::*;

verus! {

/// One rectangle placed inside a box: box-local position `(x, y)` with the
/// origin at the top left, size `(width, height)`, the index of the box that
/// currently holds it, and an identity that is unique within a packing.
#[derive(Clone, Copy, Debug)]
pub struct ProblemRectangle {
    pub x: u32,
    pub y: u32,
    pub width: u32,
    pub height: u32,
    pub box_idx: usize,
    pub id: u32,
}

/// A fixed-size square container holding some of the packing's rectangles.
/// Insertion order of `rectangles` carries no meaning; membership does.
#[derive(Debug)]
pub struct ProblemBox {
    pub side_length: u32,
    pub rectangles: Vec<ProblemRectangle>,
}

/// The score of a packing: the number of non-empty boxes when the packing
/// satisfies the bounds and overlap invariants, and `Infeasible` otherwise.
/// Fewer occupied boxes is better.
#[derive(Clone, Copy, Debug, PartialEq, Eq, Structural)]
pub enum Score {
    Feasible(u32),
    Infeasible,
}

/// The error a move can signal: the rectangle id was not present in the
/// stated source box. The move leaves the packing untouched in that case.
#[derive(Clone, Copy, Debug, PartialEq, Eq, Structural)]
pub enum PackingError {
    RectangleNotFound,
}

/// One complete assignment of rectangles to boxes, together with its derived
/// score, the id of the most recently moved rectangle, and the instance-wide
/// overlap tolerance `overlap_num / overlap_den` (a fraction of at most one).
#[derive(Debug)]
pub struct Problem {
    pub boxes: Vec<ProblemBox>,
    pub score: Score,
    pub last_moved_rec_id: Option<u32>,
    pub overlap_num: u32,
    pub overlap_den: u32,
}

/// Mathematical model of one box.
#[verifier::ext_equal]
pub struct BoxView {
    pub side_length: u32,
    pub rectangles: Seq<ProblemRectangle>,
}

/// Mathematical model of one packing.
#[verifier::ext_equal]
pub struct PackingView {
    pub boxes: Seq<BoxView>,
    pub score: Score,
    pub last_moved_rec_id: Option<u32>,
    pub overlap_num: u32,
    pub overlap_den: u32,
}

impl View for ProblemBox {
    type V = BoxView;

    open spec fn view(&self) -> BoxView {
        BoxView { side_length: self.side_length, rectangles: self.rectangles@ }
    }
}

impl View for Problem {
    type V = PackingView;

    open spec fn view(&self) -> PackingView {
        PackingView {
            boxes: self.boxes@.map_values(|b: ProblemBox| b@),
            score: self.score,
            last_moved_rec_id: self.last_moved_rec_id,
            overlap_num: self.overlap_num,
            overlap_den: self.overlap_den,
        }
    }
}

/// The rectangle lies entirely inside a box of the given side length.
pub open spec fn rect_in_bounds(r: ProblemRectangle, side: u32) -> bool {
    r.x + r.width <= side && r.y + r.height <= side
}

pub open spec fn rect_area(r: ProblemRectangle) -> int {
    r.width * r.height
}

/// Length of the intersection of the half-open intervals `[a_lo, a_hi)` and
/// `[b_lo, b_hi)`, clamped to zero when they are disjoint.
pub open spec fn overlap_len(a_lo: int, a_hi: int, b_lo: int, b_hi: int) -> int {
    let lo = if a_lo >= b_lo { a_lo } else { b_lo };
    let hi = if a_hi <= b_hi { a_hi } else { b_hi };
    if hi >= lo { hi - lo } else { 0 }
}

/// Area of the intersection of two axis-aligned rectangles.
pub open spec fn overlap_area(a: ProblemRectangle, b: ProblemRectangle) -> int {
    overlap_len(a.x as int, a.x + a.width, b.x as int, b.x + b.width)
        * overlap_len(a.y as int, a.y + a.height, b.y as int, b.y + b.height)
}

/// Two rectangles overlap beyond the tolerance `num / den`: they carry
/// distinct ids (a rectangle never overlaps itself), their intersection has
/// positive area, and the ratio of that area to the *sum* of the two
/// rectangles' areas reaches the tolerance. With a tolerance of zero this is
/// the exact half-open intersection test: touching edges do not overlap.
pub open spec fn rects_overlap(a: ProblemRectangle, b: ProblemRectangle, num: u32, den: u32) -> bool {
    &&& a.id != b.id
    &&& overlap_area(a, b) > 0
    &&& overlap_area(a, b) * den >= num * (rect_area(a) + rect_area(b))
}

impl ProblemRectangle {
    pub fn get_id(&self) -> (r: u32)
        ensures
            r == self.id,
    {
        self.id
    }

    pub fn get_box_idx(&self) -> (r: usize)
        ensures
            r == self.box_idx,
    {
        self.box_idx
    }

    pub fn get_origin(&self) -> (r: (u32, u32))
        ensures
            r.0 == self.x && r.1 == self.y,
    {
        (self.x, self.y)
    }

    pub fn get_size(&self) -> (r: (u32, u32))
        ensures
            r.0 == self.width && r.1 == self.height,
    {
        (self.width, self.height)
    }

    /// Decides whether `self` and `other` overlap beyond the tolerance
    /// `overlap_num / overlap_den`.
    pub fn overlaps(&self, other: &ProblemRectangle, overlap_num: u32, overlap_den: u32) -> (r: bool)
        ensures
            r == rects_overlap(*self, *other, overlap_num, overlap_den),
    {
        if self.id == other.id {
            return false;
        }
        let ax2: u64 = self.x as u64 + self.width as u64;
        let bx2: u64 = other.x as u64 + other.width as u64;
        let ay2: u64 = self.y as u64 + self.height as u64;
        let by2: u64 = other.y as u64 + other.height as u64;
        let xlo: u64 = if self.x >= other.x { self.x as u64 } else { other.x as u64 };
        let xhi: u64 = if ax2 <= bx2 { ax2 } else { bx2 };
        let ylo: u64 = if self.y >= other.y { self.y as u64 } else { other.y as u64 };
        let yhi: u64 = if ay2 <= by2 { ay2 } else { by2 };
        let ox: u64 = if xhi >= xlo { xhi - xlo } else { 0 };
        let oy: u64 = if yhi >= ylo { yhi - ylo } else { 0 };
        assert(ox == overlap_len(self.x as int, self.x + self.width, other.x as int, other.x + other.width));
        assert(oy == overlap_len(self.y as int, self.y + self.height, other.y as int, other.y + other.height));
        assert(ox <= u32::MAX && oy <= u32::MAX);
        assert(ox * oy <= 0xffff_ffff * 0xffff_ffff) by (nonlinear_arith)
            requires
                ox <= 0xffff_ffffu64 && oy <= 0xffff_ffffu64,
        ;
        let inter: u128 = ox as u128 * oy as u128;
        if inter == 0 {
            return false;
        }
        assert(self.width as u128 * self.height as u128 <= 0xffff_ffff * 0xffff_ffff) by (nonlinear_arith)
            requires
                self.width <= 0xffff_ffffu32 && self.height <= 0xffff_ffffu32,
        ;
        assert(other.width as u128 * other.height as u128 <= 0xffff_ffff * 0xffff_ffff) by (nonlinear_arith)
            requires
                other.width <= 0xffff_ffffu32 && other.height <= 0xffff_ffffu32,
        ;
        let area_a: u128 = self.width as u128 * self.height as u128;
        let area_b: u128 = other.width as u128 * other.height as u128;
        assert(inter * overlap_den as u128 <= 0xffff_ffff_ffff_ffff_ffff_ffff_ffff_ffff) by (nonlinear_arith)
            requires
                inter <= 0xffff_ffff_ffff_ffff_ffff_ffffu128 && overlap_den <= 0xffff_ffffu32,
        ;
        assert(overlap_num as u128 * (area_a + area_b) <= 0xffff_ffff_ffff_ffff_ffff_ffff_ffff_ffff) by (nonlinear_arith)
            requires
                overlap_num <= 0xffff_ffffu32 && area_a + area_b <= 0x1_ffff_fffc_0000_0002u128,
        ;
        let lhs: u128 = inter * overlap_den as u128;
        let rhs: u128 = overlap_num as u128 * (area_a + area_b);
        lhs >= rhs
    }
}

/// Every rectangle of the box lies inside its bounds.
pub open spec fn box_rects_in_bounds(b: BoxView) -> bool {
    forall|ri: int|
        0 <= ri < b.rectangles.len() ==> rect_in_bounds(#[trigger] b.rectangles[ri], b.side_length)
}

/// No two rectangles of the box overlap beyond the tolerance `num / den`.
pub open spec fn box_no_overlap(b: BoxView, num: u32, den: u32) -> bool {
    forall|ri: int, rj: int|
        0 <= ri < b.rectangles.len() && 0 <= rj < b.rectangles.len()
            ==> !rects_overlap(#[trigger] b.rectangles[ri], #[trigger] b.rectangles[rj], num, den)
}

/// The packing satisfies both invariants: every rectangle inside its box's
/// bounds, and no same-box pair overlapping beyond the tolerance.
pub open spec fn spec_is_valid(pv: PackingView) -> bool {
    forall|bi: int|
        0 <= bi < pv.boxes.len() ==> {
            &&& box_rects_in_bounds(#[trigger] pv.boxes[bi])
            &&& box_no_overlap(pv.boxes[bi], pv.overlap_num, pv.overlap_den)
        }
}

/// Each rectangle's cached `box_idx` names the box that actually holds it.
pub open spec fn box_refs_ok(pv: PackingView) -> bool {
    forall|bi: int, ri: int|
        0 <= bi < pv.boxes.len() && 0 <= ri < pv.boxes[bi].rectangles.len()
            ==> (#[trigger] pv.boxes[bi].rectangles[ri]).box_idx == bi
}

/// No two rectangles anywhere in the packing share an id.
pub open spec fn rect_ids_unique(pv: PackingView) -> bool {
    forall|bi: int, ri: int, bj: int, rj: int|
        0 <= bi < pv.boxes.len() && 0 <= ri < pv.boxes[bi].rectangles.len()
            && 0 <= bj < pv.boxes.len() && 0 <= rj < pv.boxes[bj].rectangles.len()
            && (bi != bj || ri != rj)
            ==> (#[trigger] pv.boxes[bi].rectangles[ri]).id
                != (#[trigger] pv.boxes[bj].rectangles[rj]).id
}

/// Structural well-formedness of a packing: a sensible overlap tolerance, a
/// box count that fits the score's type, accurate box back-references and
/// unique rectangle ids. Distinct from validity: an out-of-bounds or
/// overlapping packing is still well-formed.
pub open spec fn packing_wf(pv: PackingView) -> bool {
    &&& pv.overlap_den >= 1
    &&& pv.overlap_num <= pv.overlap_den
    &&& pv.boxes.len() <= u32::MAX
    &&& box_refs_ok(pv)
    &&& rect_ids_unique(pv)
}

/// Number of boxes holding at least one rectangle.
pub open spec fn count_nonempty(boxes: Seq<BoxView>) -> nat
    decreases boxes.len(),
{
    if boxes.len() == 0 {
        0
    } else {
        count_nonempty(boxes.drop_last()) + if boxes.last().rectangles.len() > 0 {
            1nat
        } else {
            0nat
        }
    }
}

pub proof fn lemma_count_nonempty_le_len(boxes: Seq<BoxView>)
    ensures
        count_nonempty(boxes) <= boxes.len(),
    decreases boxes.len(),
{
    if boxes.len() > 0 {
        lemma_count_nonempty_le_len(boxes.drop_last());
    }
}

/// The score a packing deserves: the count of non-empty boxes when it is
/// valid, and `Infeasible` otherwise.
pub open spec fn spec_score(pv: PackingView) -> Score {
    if spec_is_valid(pv) {
        Score::Feasible(count_nonempty(pv.boxes) as u32)
    } else {
        Score::Infeasible
    }
}

/// The same packing with its score recomputed.
pub open spec fn rescored(pv: PackingView) -> PackingView {
    PackingView { score: spec_score(pv), ..pv }
}

/// Some rectangle of the box carries the given id.
pub open spec fn box_has_rect(b: BoxView, id: u32) -> bool {
    exists|i: int| 0 <= i < b.rectangles.len() && (#[trigger] b.rectangles[i]).id == id
}

/// The index at which the box holds the rectangle with the given id. Under
/// unique ids there is exactly one such index.
pub open spec fn rect_index_of(b: BoxView, id: u32) -> int {
    choose|i: int| 0 <= i < b.rectangles.len() && (#[trigger] b.rectangles[i]).id == id
}

/// The rectangle as a move leaves it: repositioned, with width and height
/// exchanged when `flip` is set, and re-homed to the destination box.
pub open spec fn moved_rect(r: ProblemRectangle, x: u32, y: u32, flip: bool, bi: int) -> ProblemRectangle {
    ProblemRectangle {
        x: x,
        y: y,
        width: if flip { r.height } else { r.width },
        height: if flip { r.width } else { r.height },
        box_idx: bi as usize,
        id: r.id,
    }
}

/// The packing as a successful move leaves it. Within one box the rectangle
/// is updated in place; across boxes it leaves the source by a swap with the
/// source's last rectangle and is appended to the destination. The score is
/// not recomputed; the last-moved marker is set.
pub open spec fn spec_move_rect(
    pv: PackingView,
    rect_id: u32,
    obi: int,
    new_x: u32,
    new_y: u32,
    nbi: int,
    flip: bool,
) -> PackingView {
    let src = pv.boxes[obi].rectangles;
    let i = rect_index_of(pv.boxes[obi], rect_id);
    let r2 = moved_rect(src[i], new_x, new_y, flip, nbi);
    if obi == nbi {
        PackingView {
            boxes: pv.boxes.update(
                obi,
                BoxView { rectangles: src.update(i, r2), ..pv.boxes[obi] },
            ),
            last_moved_rec_id: Some(rect_id),
            ..pv
        }
    } else {
        let src2 = src.update(i, src.last()).drop_last();
        let dst2 = pv.boxes[nbi].rectangles.push(r2);
        PackingView {
            boxes: pv.boxes.update(
                obi,
                BoxView { rectangles: src2, ..pv.boxes[obi] },
            ).update(nbi, BoxView { rectangles: dst2, ..pv.boxes[nbi] }),
            last_moved_rec_id: Some(rect_id),
            ..pv
        }
    }
}

/// A move keeps a packing structurally well-formed: it neither duplicates an
/// id nor leaves a stale box back-reference.
pub proof fn lemma_spec_move_preserves_wf(
    pv: PackingView,
    rect_id: u32,
    obi: int,
    new_x: u32,
    new_y: u32,
    nbi: int,
    flip: bool,
)
    requires
        packing_wf(pv),
        0 <= obi < pv.boxes.len(),
        0 <= nbi < pv.boxes.len(),
        box_has_rect(pv.boxes[obi], rect_id),
    ensures
        packing_wf(spec_move_rect(pv, rect_id, obi, new_x, new_y, nbi, flip)),
{
    let mv = spec_move_rect(pv, rect_id, obi, new_x, new_y, nbi, flip);
    let src = pv.boxes[obi].rectangles;
    let i = rect_index_of(pv.boxes[obi], rect_id);
    let dlen = pv.boxes[nbi].rectangles.len() as int;
    assert(0 <= i < src.len() && src[i].id == rect_id);
    assert forall|bi: int, ri: int|
        0 <= bi < mv.boxes.len() && 0 <= ri < mv.boxes[bi].rectangles.len()
        implies (#[trigger] mv.boxes[bi].rectangles[ri]).box_idx == bi by {
        if obi == nbi {
            if bi == obi && ri == i {
                assert(mv.boxes[bi].rectangles[ri] == moved_rect(src[i], new_x, new_y, flip, nbi));
            } else {
                assert(mv.boxes[bi].rectangles[ri] == pv.boxes[bi].rectangles[ri]);
            }
        } else {
            if bi == nbi && ri == dlen {
                assert(mv.boxes[bi].rectangles[ri] == moved_rect(src[i], new_x, new_y, flip, nbi));
            } else if bi == obi && ri == i {
                assert(mv.boxes[bi].rectangles[ri] == src[src.len() - 1]);
            } else {
                assert(mv.boxes[bi].rectangles[ri] == pv.boxes[bi].rectangles[ri]);
            }
        }
    }
    assert(box_refs_ok(mv));
    assert forall|bi: int, ri: int, bj: int, rj: int|
        0 <= bi < mv.boxes.len() && 0 <= ri < mv.boxes[bi].rectangles.len()
            && 0 <= bj < mv.boxes.len() && 0 <= rj < mv.boxes[bj].rectangles.len()
            && (bi != bj || ri != rj)
        implies (#[trigger] mv.boxes[bi].rectangles[ri]).id
            != (#[trigger] mv.boxes[bj].rectangles[rj]).id by {
        // Map each of the two positions back to the position in the original
        // packing that held the same rectangle id; the mapping sends distinct
        // positions to distinct positions, so the original uniqueness applies.
        let crossed = obi != nbi;
        let ob_i: int = if crossed && bi == nbi && ri == dlen { obi } else { bi };
        let or_i: int = if crossed && bi == nbi && ri == dlen {
            i
        } else if crossed && bi == obi && ri == i {
            src.len() - 1
        } else {
            ri
        };
        let ob_j: int = if crossed && bj == nbi && rj == dlen { obi } else { bj };
        let or_j: int = if crossed && bj == nbi && rj == dlen {
            i
        } else if crossed && bj == obi && rj == i {
            src.len() - 1
        } else {
            rj
        };
        assert(mv.boxes[bi].rectangles[ri].id == pv.boxes[ob_i].rectangles[or_i].id);
        assert(mv.boxes[bj].rectangles[rj].id == pv.boxes[ob_j].rectangles[or_j].id);
        assert(0 <= ob_i < pv.boxes.len() && 0 <= or_i < pv.boxes[ob_i].rectangles.len());
        assert(0 <= ob_j < pv.boxes.len() && 0 <= or_j < pv.boxes[ob_j].rectangles.len());
        assert(ob_i != ob_j || or_i != or_j);
    }
    assert(rect_ids_unique(mv));
}

/// Index of the first rectangle of the box carrying the given id, if any.
fn find_rect_in_box(b: &ProblemBox, rect_id: u32) -> (r: Option<usize>)
    ensures
        match r {
            Some(i) => i < b@.rectangles.len() && b@.rectangles[i as int].id == rect_id
                && forall|j: int| 0 <= j < i ==> (#[trigger] b@.rectangles[j]).id != rect_id,
            None => !box_has_rect(b@, rect_id),
        },
{
    let n = b.rectangles.len();
    let mut i: usize = 0;
    while i < n
        invariant
            i <= n,
            n == b.rectangles.len(),
            forall|j: int| 0 <= j < i ==> (#[trigger] b@.rectangles[j]).id != rect_id,
        decreases n - i,
    {
        if b.rectangles[i].id == rect_id {
            return Some(i);
        }
        i += 1;
    }
    None
}

impl Problem {
    /// Relocates the rectangle with id `rect_id`, which must currently reside
    /// in box `old_box_idx`, to position `(new_x, new_y)` in box
    /// `new_box_idx`, exchanging its width and height first when `flip` is
    /// set. When the id is not found in the source box the packing is left
    /// untouched and `RectangleNotFound` comes back; the move is atomic
    /// either way. The score is not recomputed here.
    pub fn move_rect(
        &mut self,
        rect_id: u32,
        old_box_idx: usize,
        new_x: u32,
        new_y: u32,
        new_box_idx: usize,
        flip: bool,
    ) -> (r: Result<(), PackingError>)
        requires
            packing_wf(old(self)@),
            old_box_idx < old(self)@.boxes.len(),
            new_box_idx < old(self)@.boxes.len(),
        ensures
            match r {
                Ok(()) => {
                    &&& box_has_rect(old(self)@.boxes[old_box_idx as int], rect_id)
                    &&& final(self)@ == spec_move_rect(
                        old(self)@,
                        rect_id,
                        old_box_idx as int,
                        new_x,
                        new_y,
                        new_box_idx as int,
                        flip,
                    )
                    &&& packing_wf(final(self)@)
                },
                Err(PackingError::RectangleNotFound) => {
                    &&& !box_has_rect(old(self)@.boxes[old_box_idx as int], rect_id)
                    &&& final(self)@ == old(self)@
                },
            },
    {
        let found = find_rect_in_box(&self.boxes[old_box_idx], rect_id);
        match found {
            None => Err(PackingError::RectangleNotFound),
            Some(rect_idx) => {
                proof {
                    // Under unique ids, the first matching index is the one
                    // the model's `choose` denotes.
                    let c = rect_index_of(old(self)@.boxes[old_box_idx as int], rect_id);
                    assert(0 <= c < old(self)@.boxes[old_box_idx as int].rectangles.len()
                        && old(self)@.boxes[old_box_idx as int].rectangles[c].id == rect_id);
                    assert(c == rect_idx as int);
                }
                let old_rect = self.boxes[old_box_idx].rectangles[rect_idx];
                let mut new_rect = old_rect;
                new_rect.x = new_x;
                new_rect.y = new_y;
                if flip {
                    let w = new_rect.width;
                    new_rect.width = new_rect.height;
                    new_rect.height = w;
                }
                if old_box_idx == new_box_idx {
                    self.boxes[old_box_idx].rectangles[rect_idx] = new_rect;
                    self.last_moved_rec_id = Some(rect_id);
                } else {
                    new_rect.box_idx = new_box_idx;
                    let _removed = self.boxes[old_box_idx].rectangles.swap_remove(rect_idx);
                    self.boxes[new_box_idx].rectangles.push(new_rect);
                    self.last_moved_rec_id = Some(rect_id);
                }
                proof {
                    assert(self@ =~~= spec_move_rect(
                        old(self)@,
                        rect_id,
                        old_box_idx as int,
                        new_x,
                        new_y,
                        new_box_idx as int,
                        flip,
                    ));
                    lemma_spec_move_preserves_wf(
                        old(self)@,
                        rect_id,
                        old_box_idx as int,
                        new_x,
                        new_y,
                        new_box_idx as int,
                        flip,
                    );
                }
                Ok(())
            },
        }
    }

    /// Checks invariants 1 and 2 across all boxes: every rectangle within its
    /// box's bounds, and no pair in one box overlapping beyond the tolerance.
    pub fn is_valid(&self) -> (r: bool)
        ensures
            r == spec_is_valid(self@),
    {
        let num = self.overlap_num;
        let den = self.overlap_den;
        let nb = self.boxes.len();
        let mut bi: usize = 0;
        while bi < nb
            invariant
                bi <= nb,
                nb == self.boxes.len(),
                num == self.overlap_num,
                den == self.overlap_den,
                forall|i: int|
                    0 <= i < bi ==> {
                        &&& box_rects_in_bounds(#[trigger] self@.boxes[i])
                        &&& box_no_overlap(self@.boxes[i], num, den)
                    },
            decreases nb - bi,
        {
            let nr = self.boxes[bi].rectangles.len();
            let mut ri: usize = 0;
            while ri < nr
                invariant
                    bi < nb,
                    ri <= nr,
                    nb == self.boxes.len(),
                    nr == self.boxes[bi as int].rectangles.len(),
                    num == self.overlap_num,
                    den == self.overlap_den,
                    forall|k: int|
                        0 <= k < ri ==> rect_in_bounds(
                            #[trigger] self@.boxes[bi as int].rectangles[k],
                            self@.boxes[bi as int].side_length,
                        ),
                    forall|j: int, k: int|
                        0 <= j < nr && 0 <= k < ri ==> !rects_overlap(
                            #[trigger] self@.boxes[bi as int].rectangles[j],
                            #[trigger] self@.boxes[bi as int].rectangles[k],
                            num,
                            den,
                        ),
                decreases nr - ri,
            {
                let side = self.boxes[bi].side_length;
                let rect = self.boxes[bi].rectangles[ri];
                if rect.x as u64 + rect.width as u64 > side as u64
                    || rect.y as u64 + rect.height as u64 > side as u64 {
                    assert(!rect_in_bounds(self@.boxes[bi as int].rectangles[ri as int], side));
                    return false;
                }
                let mut rj: usize = 0;
                while rj < nr
                    invariant
                        bi < nb,
                        ri < nr,
                        rj <= nr,
                        nb == self.boxes.len(),
                        nr == self.boxes[bi as int].rectangles.len(),
                        num == self.overlap_num,
                        den == self.overlap_den,
                        rect == self.boxes[bi as int].rectangles[ri as int],
                        forall|j: int|
                            0 <= j < rj ==> !rects_overlap(
                                #[trigger] self@.boxes[bi as int].rectangles[j],
                                self@.boxes[bi as int].rectangles[ri as int],
                                num,
                                den,
                            ),
                    decreases nr - rj,
                {
                    if self.boxes[bi].rectangles[rj].overlaps(&rect, num, den) {
                        assert(rects_overlap(
                            self@.boxes[bi as int].rectangles[rj as int],
                            self@.boxes[bi as int].rectangles[ri as int],
                            num,
                            den,
                        ));
                        return false;
                    }
                    rj += 1;
                }
                ri += 1;
            }
            bi += 1;
        }
        true
    }

    /// Recomputes `score`: the count of non-empty boxes when the packing is
    /// valid, and `Infeasible` otherwise. Nothing else changes.
    pub fn calculate_score(&mut self)
        requires
            old(self)@.boxes.len() <= u32::MAX,
        ensures
            final(self)@ == rescored(old(self)@),
    {
        if self.is_valid() {
            let nb = self.boxes.len();
            let mut cnt: u32 = 0;
            let mut bi: usize = 0;
            while bi < nb
                invariant
                    bi <= nb,
                    nb == self.boxes.len(),
                    nb <= u32::MAX,
                    cnt == count_nonempty(self@.boxes.take(bi as int)),
                    cnt <= bi,
                decreases nb - bi,
            {
                proof {
                    lemma_count_nonempty_le_len(self@.boxes.take(bi as int + 1));
                    assert(self@.boxes.take(bi as int + 1).drop_last() =~= self@.boxes.take(bi as int));
                }
                if self.boxes[bi].rectangles.len() > 0 {
                    cnt += 1;
                } else {
                }
                bi += 1;
            }
            proof {
                assert(self@.boxes.take(nb as int) =~= self@.boxes);
            }
            self.score = Score::Feasible(cnt);
        } else {
            self.score = Score::Infeasible;
        }
        assert(self@ =~~= rescored(old(self)@));
    }
}

/// A box as `Problem::new` seeds it: box `i` of the instance, holding exactly
/// one rectangle with id `i` at the origin, its sides drawn from the two
/// half-open ranges.
pub open spec fn seed_box_ok(
    b: BoxView,
    i: int,
    side: u32,
    w_lo: u32,
    w_hi: u32,
    h_lo: u32,
    h_hi: u32,
) -> bool {
    &&& b.side_length == side
    &&& b.rectangles.len() == 1
    &&& b.rectangles[0].x == 0
    &&& b.rectangles[0].y == 0
    &&& b.rectangles[0].id == i
    &&& b.rectangles[0].box_idx == i
    &&& w_lo <= b.rectangles[0].width < w_hi
    &&& h_lo <= b.rectangles[0].height < h_hi
}

impl Problem {
    /// Builds the trivial seed packing of a fresh instance: one box per
    /// rectangle, each rectangle alone in its own box at the origin, with its
    /// width and height drawn uniformly from the given half-open ranges by a
    /// generator seeded with `seed`, so instances are reproducible. The score
    /// is computed before returning.
    pub fn new(
        box_length: u32,
        num_rect: u32,
        x_range: Range<u32>,
        y_range: Range<u32>,
        overlap_num: u32,
        overlap_den: u32,
        seed: u64,
    ) -> (r: Problem)
        requires
            x_range.start < x_range.end,
            y_range.start < y_range.end,
            overlap_den >= 1,
            overlap_num <= overlap_den,
        ensures
            r@.boxes.len() == num_rect,
            forall|i: int|
                0 <= i < num_rect ==> seed_box_ok(
                    #[trigger] r@.boxes[i],
                    i,
                    box_length,
                    x_range.start,
                    x_range.end,
                    y_range.start,
                    y_range.end,
                ),
            r@.last_moved_rec_id is None,
            r@.overlap_num == overlap_num,
            r@.overlap_den == overlap_den,
            r@.score == spec_score(r@),
            packing_wf(r@),
    {
        let mut rng = rng_from_seed(seed);
        let mut p = Problem::default();
        p.overlap_num = overlap_num;
        p.overlap_den = overlap_den;
        let mut i: u32 = 0;
        while i < num_rect
            invariant
                i <= num_rect,
                x_range.start < x_range.end,
                y_range.start < y_range.end,
                p.boxes@.len() == i,
                p.last_moved_rec_id is None,
                p.overlap_num == overlap_num,
                p.overlap_den == overlap_den,
                forall|j: int|
                    0 <= j < i ==> seed_box_ok(
                        #[trigger] p@.boxes[j],
                        j,
                        box_length,
                        x_range.start,
                        x_range.end,
                        y_range.start,
                        y_range.end,
                    ),
            decreases num_rect - i,
        {
            let rwidth = rng_gen_range(&mut rng, x_range.start, x_range.end);
            let rheight = rng_gen_range(&mut rng, y_range.start, y_range.end);
            let rect = ProblemRectangle {
                x: 0,
                y: 0,
                width: rwidth,
                height: rheight,
                box_idx: i as usize,
                id: i,
            };
            let mut rectangles: Vec<ProblemRectangle> = Vec::new();
            rectangles.push(rect);
            let b = ProblemBox { side_length: box_length, rectangles };
            let ghost pre = p@;
            p.boxes.push(b);
            proof {
                assert(p@.boxes =~~= pre.boxes.push(b@));
                assert(p@.boxes[i as int].rectangles =~= seq![rect]);
                assert(seed_box_ok(
                    p@.boxes[i as int],
                    i as int,
                    box_length,
                    x_range.start,
                    x_range.end,
                    y_range.start,
                    y_range.end,
                ));
            }
            i += 1;
        }
        assert(packing_wf(p@));
        p.calculate_score();
        p
    }
}

impl Clone for ProblemBox {
    /// A deep copy: the model of the copy equals the model of the original.
    fn clone(&self) -> (r: Self)
        ensures
            r@ == self@,
    {
        let n = self.rectangles.len();
        let mut rectangles: Vec<ProblemRectangle> = Vec::new();
        let mut i: usize = 0;
        while i < n
            invariant
                i <= n,
                n == self.rectangles.len(),
                rectangles@ == self.rectangles@.take(i as int),
            decreases n - i,
        {
            rectangles.push(self.rectangles[i]);
            i += 1;
        }
        proof {
            assert(self.rectangles@.take(n as int) =~= self.rectangles@);
        }
        ProblemBox { side_length: self.side_length, rectangles }
    }
}

impl Clone for Problem {
    /// A deep copy: the model of the copy equals the model of the original.
    fn clone(&self) -> (r: Self)
        ensures
            r@ == self@,
    {
        let n = self.boxes.len();
        let mut boxes: Vec<ProblemBox> = Vec::new();
        let mut i: usize = 0;
        while i < n
            invariant
                i <= n,
                n == self.boxes.len(),
                boxes@.len() == i,
                forall|j: int| 0 <= j < i ==> (#[trigger] boxes@[j])@ == self@.boxes[j],
            decreases n - i,
        {
            boxes.push(self.boxes[i].clone());
            i += 1;
        }
        let r = Problem {
            boxes,
            score: self.score,
            last_moved_rec_id: self.last_moved_rec_id,
            overlap_num: self.overlap_num,
            overlap_den: self.overlap_den,
        };
        proof {
            assert(r@ =~~= self@);
        }
        r
    }
}

impl Default for Problem {
    /// The empty packing: no boxes, a feasible score of zero, no move yet,
    /// and a zero overlap tolerance.
    fn default() -> (r: Self)
        ensures
            r@.boxes.len() == 0,
            r@.score == Score::Feasible(0),
            r@.last_moved_rec_id is None,
            r@.overlap_num == 0,
            r@.overlap_den == 1,
            packing_wf(r@),
    {
        Problem {
            boxes: Vec::new(),
            score: Score::Feasible(0),
            last_moved_rec_id: None,
            overlap_num: 0,
            overlap_den: 1,
        }
    }
}

} // verus!
