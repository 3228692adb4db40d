//! The rectangle allocator: a stateful two-dimensional bin packer over a
//! growable canvas.
//!
//! The allocator keeps the unoccupied part of the canvas as a list of
//! pairwise disjoint free rectangles (a guillotine scheme: on every
//! successful allocation the chosen free rectangle is cut into the placement
//! and at most two new free rectangles).  Its central guarantees are that
//! all placements it ever returns are pairwise disjoint, that they lie
//! inside the canvas, and that growing the canvas never moves or invalidates
//! a placement that was already issued.

use vstd::prelude::*;

use crate::rect::Rect;
use crate::rect::any_fits;

verus! {

/// Largest side length a canvas may ever have.  Keeping every coordinate
/// under this bound keeps pixel-index arithmetic inside `u32` and `usize`
/// and every coordinate representable as an `i32` for the pointer records
/// handed to a renderer.
pub const MAX_CANVAS_DIM: u32 = 32768;

/// The free rectangles that stand for the area a grow step adds: a strip to
/// the right of the old canvas spanning the full new height, and a strip
/// below the old canvas spanning the old width.  Empty strips are left out.
pub open spec fn grow_strips(ow: u32, oh: u32, nw: u32, nh: u32) -> Seq<Rect> {
    let right = if nw > ow {
        seq![(Rect { x: ow, y: 0, width: (nw - ow) as u32, height: nh })]
    } else {
        Seq::<Rect>::empty()
    };
    let below = if nh > oh {
        seq![(Rect { x: 0, y: oh, width: ow, height: (nh - oh) as u32 })]
    } else {
        Seq::<Rect>::empty()
    };
    right + below
}

/// The free store after a grow step.  While nothing has been placed the
/// free store is simply reset to the whole new canvas; once something has
/// been placed the old free rectangles are kept untouched and the added
/// area is appended as strips.
pub open spec fn grown_free(free: Seq<Rect>, nothing_placed: bool, ow: u32, oh: u32, nw: u32, nh: u32) -> Seq<Rect> {
    if nothing_placed {
        seq![(Rect { x: 0, y: 0, width: nw, height: nh })]
    } else {
        free + grow_strips(ow, oh, nw, nh)
    }
}

/// The deterministic tie-break of `allocate`: candidate `a` beats candidate
/// `b` when it has the smaller area, or the same area and the top-most,
/// then left-most origin.
pub open spec fn better_candidate(a: Rect, b: Rect) -> bool {
    ||| a.width * a.height < b.width * b.height
    ||| (a.width * a.height == b.width * b.height && (a.y < b.y || (a.y == b.y && a.x < b.x)))
}

/// The guillotine offcuts left when a `w` by `h` placement is carved from
/// the top-left corner of `c`: the part to its right (with the placement's
/// height), then the part below (with `c`'s full width).  Empty offcuts are
/// left out.
pub open spec fn offcuts(c: Rect, w: u32, h: u32) -> Seq<Rect> {
    let right = if c.width > w {
        seq![(Rect { x: (c.x + w) as u32, y: c.y, width: (c.width - w) as u32, height: h })]
    } else {
        Seq::<Rect>::empty()
    };
    let below = if c.height > h {
        seq![(Rect { x: c.x, y: (c.y + h) as u32, width: c.width, height: (c.height - h) as u32 })]
    } else {
        Seq::<Rect>::empty()
    };
    right + below
}

/// A stateful guillotine bin packer over a growable canvas.
pub struct RectAllocator {
    width: u32,
    height: u32,
    /// Unoccupied space: pairwise disjoint candidate rectangles.
    free: Vec<Rect>,
    /// No placement has been issued yet.
    empty: bool,
    /// Every placement ever issued, in issue order.
    placed: Ghost<Seq<Rect>>,
}

impl RectAllocator {
    /// Current canvas width.
    pub closed spec fn spec_width(self) -> u32 {
        self.width
    }

    /// Current canvas height.
    pub closed spec fn spec_height(self) -> u32 {
        self.height
    }

    /// Every placement this allocator has ever returned, in issue order.
    pub closed spec fn placements(self) -> Seq<Rect> {
        self.placed@
    }

    /// The free store: the candidate rectangles allocations are carved from.
    pub closed spec fn free_rects(self) -> Seq<Rect> {
        self.free@
    }

    /// Some free rectangle can hold a `w` by `h` request; `allocate`
    /// succeeds exactly when this holds.
    pub open spec fn can_fit(self, w: int, h: int) -> bool {
        any_fits(self.free_rects(), w, h)
    }

    /// The allocator's invariant: the canvas is positive and bounded; all
    /// placements and free rectangles are positive, lie inside the canvas,
    /// and are pairwise disjoint; free space never overlaps a placement;
    /// and until the first placement the free store is the whole canvas.
    pub closed spec fn wf(self) -> bool {
        &&& 0 < self.width <= MAX_CANVAS_DIM
        &&& 0 < self.height <= MAX_CANVAS_DIM
        &&& (self.empty <==> self.placed@.len() == 0)
        &&& forall|i: int| 0 <= i < self.placed@.len() ==> (#[trigger] self.placed@[i]).positive()
            && self.placed@[i].contained_in(self.width as int, self.height as int)
        &&& forall|i: int, j: int|
            0 <= i < self.placed@.len() && 0 <= j < self.placed@.len() && i != j
                ==> (#[trigger] self.placed@[i]).disjoint(#[trigger] self.placed@[j])
        &&& forall|i: int| 0 <= i < self.free@.len() ==> (#[trigger] self.free@[i]).positive()
            && self.free@[i].contained_in(self.width as int, self.height as int)
        &&& forall|i: int, j: int|
            0 <= i < self.free@.len() && 0 <= j < self.free@.len() && i != j
                ==> (#[trigger] self.free@[i]).disjoint(#[trigger] self.free@[j])
        &&& forall|i: int, j: int|
            0 <= i < self.free@.len() && 0 <= j < self.placed@.len()
                ==> (#[trigger] self.free@[i]).disjoint(#[trigger] self.placed@[j])
        &&& (self.placed@.len() == 0 ==> self.free@ == seq![
            (Rect { x: 0, y: 0, width: self.width, height: self.height }),
        ])
    }

    /// No-overlap: every pair of distinct placements ever issued is
    /// geometrically disjoint.
    pub proof fn lemma_placements_disjoint(self)
        requires
            self.wf(),
        ensures
            forall|i: int, j: int|
                0 <= i < self.placements().len() && 0 <= j < self.placements().len() && i != j
                    ==> (#[trigger] self.placements()[i]).disjoint(#[trigger] self.placements()[j]),
    {
    }

    /// Containment: every placement ever issued is positive and lies inside
    /// the current canvas.
    pub proof fn lemma_placements_contained(self)
        requires
            self.wf(),
        ensures
            forall|i: int| 0 <= i < self.placements().len()
                ==> (#[trigger] self.placements()[i]).positive()
                    && self.placements()[i].contained_in(
                        self.spec_width() as int,
                        self.spec_height() as int,
                    ),
    {
    }

    /// The canvas is positive on both axes and bounded by `MAX_CANVAS_DIM`.
    pub proof fn lemma_wf_bounds(self)
        requires
            self.wf(),
        ensures
            0 < self.spec_width() <= MAX_CANVAS_DIM,
            0 < self.spec_height() <= MAX_CANVAS_DIM,
    {
    }

    /// Until the first placement is issued, the free store is exactly one
    /// rectangle: the whole canvas.
    pub proof fn lemma_empty_free(self)
        requires
            self.wf(),
            self.placements().len() == 0,
        ensures
            self.free_rects() == seq![
                (Rect { x: 0, y: 0, width: self.spec_width(), height: self.spec_height() }),
            ],
    {
    }

    /// A fresh allocator: an empty canvas of the given size, wholly free.
    pub fn new(width: u32, height: u32) -> (r: RectAllocator)
        requires
            0 < width <= MAX_CANVAS_DIM,
            0 < height <= MAX_CANVAS_DIM,
        ensures
            r.wf(),
            r.spec_width() == width,
            r.spec_height() == height,
            r.placements() == Seq::<Rect>::empty(),
            r.free_rects() == seq![(Rect { x: 0, y: 0, width, height })],
    {
        let mut free: Vec<Rect> = Vec::new();
        free.push(Rect { x: 0, y: 0, width, height });
        let r = RectAllocator { width, height, free, empty: true, placed: Ghost(Seq::empty()) };
        proof {
            assert(r.free@ =~= seq![(Rect { x: 0, y: 0, width, height })]);
        }
        r
    }

    /// The canvas as currently sized, as `(width, height)`.
    pub fn current_size(&self) -> (r: (u32, u32))
        ensures
            r.0 == self.spec_width(),
            r.1 == self.spec_height(),
    {
        (self.width, self.height)
    }

    /// Carve a `width` by `height` placement out of the free store.
    ///
    /// Among the free rectangles that can hold the request, the one with the
    /// smallest area is chosen (ties broken top-most, then left-most), and
    /// the placement sits in its top-left corner; the rest of the chosen
    /// rectangle is returned to the free store as at most two guillotine
    /// offcuts.  On success the placement has exactly the requested size, is
    /// disjoint from every placement issued before, and lies inside the
    /// canvas; the canvas itself never changes.  The request fails exactly
    /// when no free rectangle can hold it, and then the allocator is left
    /// untouched.
    #[verifier::loop_isolation(false)]
    pub fn allocate(&mut self, width: u32, height: u32) -> (r: Option<Rect>)
        requires
            old(self).wf(),
            0 < width,
            0 < height,
        ensures
            final(self).wf(),
            final(self).spec_width() == old(self).spec_width(),
            final(self).spec_height() == old(self).spec_height(),
            r is Some <==> old(self).can_fit(width as int, height as int),
            r is None ==> *final(self) == *old(self),
            r matches Some(p) ==> {
                &&& p.width == width
                &&& p.height == height
                &&& p.contained_in(old(self).spec_width() as int, old(self).spec_height() as int)
                &&& forall|i: int| 0 <= i < old(self).placements().len()
                    ==> p.disjoint(#[trigger] old(self).placements()[i])
                &&& final(self).placements() == old(self).placements().push(p)
            },
            r matches Some(p) ==> exists|c: int| {
                &&& 0 <= c < old(self).free_rects().len()
                &&& (#[trigger] old(self).free_rects()[c]).fits(width as int, height as int)
                &&& p == (Rect {
                    x: old(self).free_rects()[c].x,
                    y: old(self).free_rects()[c].y,
                    width,
                    height,
                })
                &&& forall|j: int|
                    0 <= j < old(self).free_rects().len() && j != c && (#[trigger] old(
                        self,
                    ).free_rects()[j]).fits(width as int, height as int)
                        ==> better_candidate(old(self).free_rects()[c], old(self).free_rects()[j])
                &&& final(self).free_rects() == old(self).free_rects().remove(c) + offcuts(
                    old(self).free_rects()[c],
                    width,
                    height,
                )
            },
    {
        let n = self.free.len();
        let mut best: usize = n;
        let mut i: usize = 0;
        while i < n
            invariant
                i <= n,
                best <= n,
                best < n ==> best < i,
                best < n ==> self.free@[best as int].fits(width as int, height as int),
                best < n ==> forall|k: int|
                    0 <= k < i && k != best && (#[trigger] self.free@[k]).fits(
                        width as int,
                        height as int,
                    ) ==> better_candidate(self.free@[best as int], self.free@[k]),
                best == n ==> forall|k: int| 0 <= k < i
                    ==> !(#[trigger] self.free@[k]).fits(width as int, height as int),
            decreases n - i,
        {
            let cand = self.free[i];
            if cand.width >= width && cand.height >= height {
                if best == n {
                    best = i;
                } else {
                    let b = self.free[best];
                    proof {
                        assert((cand.width as int) * (cand.height as int) <= u64::MAX
                            && (b.width as int) * (b.height as int) <= u64::MAX)
                            by (nonlinear_arith)
                            requires
                                cand.width <= u32::MAX,
                                cand.height <= u32::MAX,
                                b.width <= u32::MAX,
                                b.height <= u32::MAX,
                        ;
                    }
                    let cand_area: u64 = (cand.width as u64) * (cand.height as u64);
                    let best_area: u64 = (b.width as u64) * (b.height as u64);
                    if cand_area < best_area
                        || (cand_area == best_area
                            && (cand.y < b.y || (cand.y == b.y && cand.x < b.x))) {
                        proof {
                            // the new candidate also beats everything the
                            // old best beat: the tie-break is transitive
                            assert(better_candidate(cand, b));
                        }
                        best = i;
                    } else {
                        proof {
                            // the old best stands: distinct disjoint
                            // rectangles never share an origin, so the
                            // tie-break always separates them
                            self.free@[best as int].lemma_disjoint_origins_differ(
                                self.free@[i as int],
                            );
                            assert(better_candidate(b, cand));
                        }
                    }
                }
            }
            i += 1;
        }
        if best == n {
            return None;
        }
        let chosen = self.free.remove(best);
        let placement = Rect { x: chosen.x, y: chosen.y, width, height };
        let ghost free_kept = self.free@;
        if chosen.width > width {
            self.free.push(
                Rect { x: chosen.x + width, y: chosen.y, width: chosen.width - width, height },
            );
        }
        if chosen.height > height {
            self.free.push(
                Rect {
                    x: chosen.x,
                    y: chosen.y + height,
                    width: chosen.width,
                    height: chosen.height - height,
                },
            );
        }
        proof {
            self.placed@ = self.placed@.push(placement);
        }
        self.empty = false;
        proof {
            let of = old(self).free@;
            let op = old(self).placed@;
            assert(placement.inside(chosen));
            // everything kept in the free store is one of the old free
            // rectangles other than the chosen one
            assert forall|k: int| 0 <= k < free_kept.len() implies exists|j: int|
                0 <= j < of.len() && j != best && of[j] == #[trigger] free_kept[k] by {
                if k < best {
                    assert(of[k] == free_kept[k]);
                } else {
                    assert(of[k + 1] == free_kept[k]);
                }
            }
            // the offcuts lie inside the chosen rectangle
            assert forall|k: int| free_kept.len() <= k < self.free@.len()
                implies (#[trigger] self.free@[k]).inside(chosen)
                    && self.free@[k].positive()
                    && self.free@[k].disjoint(placement) by {
            }
            assert forall|k: int| 0 <= k < self.free@.len() implies
                (#[trigger] self.free@[k]).positive()
                && self.free@[k].contained_in(self.width as int, self.height as int) by {
                if k < free_kept.len() {
                    let j = choose|j: int| 0 <= j < of.len() && j != best && of[j] == free_kept[k];
                    assert(of[j].positive());
                } else {
                    self.free@[k].lemma_inside_contained(
                        chosen,
                        self.width as int,
                        self.height as int,
                    );
                }
            }
            assert forall|k: int, j: int|
                0 <= k < self.free@.len() && 0 <= j < self.placed@.len()
                implies (#[trigger] self.free@[k]).disjoint(#[trigger] self.placed@[j]) by {
                if j < op.len() {
                    if k < free_kept.len() {
                        let m = choose|m: int|
                            0 <= m < of.len() && m != best && of[m] == free_kept[k];
                        assert(of[m].disjoint(op[j]));
                    } else {
                        self.free@[k].lemma_inside_disjoint(chosen, op[j]);
                        assert(chosen.disjoint(op[j]));
                    }
                } else {
                    assert(self.placed@[j] == placement);
                    if k < free_kept.len() {
                        let m = choose|m: int|
                            0 <= m < of.len() && m != best && of[m] == free_kept[k];
                        assert(of[m].disjoint(of[best as int]));
                        placement.lemma_inside_disjoint(chosen, of[m]);
                    }
                }
            }
            assert forall|k: int, j: int|
                0 <= k < self.free@.len() && 0 <= j < self.free@.len() && k != j
                implies (#[trigger] self.free@[k]).disjoint(#[trigger] self.free@[j]) by {
                if k < free_kept.len() && j < free_kept.len() {
                    let mk = choose|m: int| 0 <= m < of.len() && m != best && of[m] == free_kept[k];
                    let mj = choose|m: int| 0 <= m < of.len() && m != best && of[m] == free_kept[j];
                    if k < best { assert(of[k] == free_kept[k]); } else { assert(of[k + 1] == free_kept[k]); }
                    if j < best { assert(of[j] == free_kept[j]); } else { assert(of[j + 1] == free_kept[j]); }
                    if k < j {
                        if k < best && j < best {
                            assert(of[k].disjoint(of[j]));
                        } else if k < best {
                            assert(of[k].disjoint(of[j + 1]));
                        } else {
                            assert(of[k + 1].disjoint(of[j + 1]));
                        }
                    } else {
                        if j < best && k < best {
                            assert(of[j].disjoint(of[k]));
                        } else if j < best {
                            assert(of[j].disjoint(of[k + 1]));
                        } else {
                            assert(of[j + 1].disjoint(of[k + 1]));
                        }
                    }
                } else if k < free_kept.len() {
                    // j is an offcut inside the chosen rectangle
                    let mk = choose|m: int| 0 <= m < of.len() && m != best && of[m] == free_kept[k];
                    assert(of[mk].disjoint(of[best as int]));
                    self.free@[j].lemma_inside_disjoint(chosen, of[mk]);
                } else if j < free_kept.len() {
                    let mj = choose|m: int| 0 <= m < of.len() && m != best && of[m] == free_kept[j];
                    assert(of[mj].disjoint(of[best as int]));
                    self.free@[k].lemma_inside_disjoint(chosen, of[mj]);
                } else {
                    // two offcuts: the right offcut ends above the bottom
                    // offcut's rows
                }
            }
            assert forall|j: int| 0 <= j < op.len()
                implies placement.disjoint(#[trigger] op[j]) by {
                placement.lemma_inside_disjoint(chosen, op[j]);
            }
            assert(self.placed@ =~= op.push(placement));
            // the chosen rectangle is the winner of the tie-break, and the
            // free store is exactly the rest of the old store plus the
            // offcuts of the chosen rectangle
            assert(self.free@ =~= of.remove(best as int) + offcuts(of[best as int], width, height));
            assert({
                let c = best as int;
                &&& 0 <= c < old(self).free_rects().len()
                &&& (#[trigger] old(self).free_rects()[c]).fits(width as int, height as int)
                &&& placement == (Rect {
                    x: old(self).free_rects()[c].x,
                    y: old(self).free_rects()[c].y,
                    width,
                    height,
                })
                &&& forall|j: int|
                    0 <= j < old(self).free_rects().len() && j != c && (#[trigger] old(
                        self,
                    ).free_rects()[j]).fits(width as int, height as int)
                        ==> better_candidate(old(self).free_rects()[c], old(self).free_rects()[j])
                &&& self.free@ == old(self).free_rects().remove(c) + offcuts(
                    old(self).free_rects()[c],
                    width,
                    height,
                )
            });
        }
        Some(placement)
    }

    /// Grow the canvas to `new_width` by `new_height`, each at least the
    /// current size.  Growth stability: every placement issued before the
    /// call is untouched by it -- same coordinates, same size -- and still
    /// lies inside the (larger) canvas.
    pub fn grow(&mut self, new_width: u32, new_height: u32)
        requires
            old(self).wf(),
            old(self).spec_width() <= new_width <= MAX_CANVAS_DIM,
            old(self).spec_height() <= new_height <= MAX_CANVAS_DIM,
        ensures
            final(self).wf(),
            final(self).spec_width() == new_width,
            final(self).spec_height() == new_height,
            final(self).placements() == old(self).placements(),
            forall|i: int| 0 <= i < old(self).placements().len()
                ==> (#[trigger] final(self).placements()[i]) == old(self).placements()[i]
                    && final(self).placements()[i].contained_in(new_width as int, new_height as int),
            final(self).free_rects() == grown_free(
                old(self).free_rects(),
                old(self).placements().len() == 0,
                old(self).spec_width(),
                old(self).spec_height(),
                new_width,
                new_height,
            ),
    {
        let old_w = self.width;
        let old_h = self.height;
        self.width = new_width;
        self.height = new_height;
        if self.empty {
            self.free.clear();
            self.free.push(Rect { x: 0, y: 0, width: new_width, height: new_height });
            proof {
                assert(self.free@ =~= grown_free(
                    old(self).free@,
                    true,
                    old_w,
                    old_h,
                    new_width,
                    new_height,
                ));
            }
        } else {
            if new_width > old_w {
                self.free.push(
                    Rect { x: old_w, y: 0, width: new_width - old_w, height: new_height },
                );
            }
            if new_height > old_h {
                self.free.push(
                    Rect { x: 0, y: old_h, width: old_w, height: new_height - old_h },
                );
            }
            proof {
                assert(self.free@ =~= grown_free(
                    old(self).free@,
                    false,
                    old_w,
                    old_h,
                    new_width,
                    new_height,
                ));
            }
        }
    }
}

} // verus!
