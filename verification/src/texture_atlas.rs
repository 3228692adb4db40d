//! The atlas manager: turns a stream of submitted images into one composite
//! pixel buffer plus a stable, submission-ordered list of placement records.
//!
//! Submissions are placed by the rectangle allocator; when the allocator has
//! no room the manager doubles the canvas (clamped to a configured cap) and
//! retries, so callers never see allocator-level failure -- only a typed
//! error when the cap itself is reached.  Growth never moves an entry, so a
//! placement record handed out once stays valid forever.

use vstd::prelude::*;

use crate::allocator::MAX_CANVAS_DIM;
use crate::allocator::RectAllocator;
use crate::allocator::grown_free;
use crate::image::Image;
use crate::image::grid_at;
use crate::image::lemma_grid_index;
use crate::image::lemma_grid_index_injective;
use crate::rect::Rect;
use crate::rect::any_fits;
use vstd::pervasive::VecAdditionalExecFns;

verus! {

/// Why `add_texture` rejected a submission.
#[derive(Clone, Copy, Debug, PartialEq, Eq, Structural)]
pub enum AtlasError {
    /// The image has a zero width or height; no allocation was attempted.
    InvalidDimensions,
    /// Even at the configured maximum canvas size there was no room for the
    /// image.
    AtlasCapacityExceeded,
}

/// An atlas entry: a placement paired with the image placed there.
#[derive(Clone, Debug)]
pub struct AllocatedTexture {
    pub alloc: Rect,
    pub texture: Image,
}

impl AllocatedTexture {
    /// The image is coherent and the placement has the image's size.
    pub open spec fn wf(self) -> bool {
        &&& self.texture.wf()
        &&& self.alloc.width == self.texture.width
        &&& self.alloc.height == self.texture.height
    }

    pub fn new(alloc: Rect, texture: Image) -> (r: AllocatedTexture)
        ensures
            r == (AllocatedTexture { alloc, texture }),
    {
        AllocatedTexture { alloc, texture }
    }
}

/// A placement projected to its two pixel-space corners, the lightweight
/// record a renderer addresses sub-regions of the composite with.
#[derive(Clone, Copy, Debug)]
pub struct RawAtlasPointer {
    pub min: [i32; 2],
    pub max: [i32; 2],
}

impl RawAtlasPointer {
    /// The rectangle's top-left corner as `min`, its bottom-right corner
    /// (exclusive) as `max`.
    pub fn from_rect(rect: Rect) -> (r: RawAtlasPointer)
        requires
            rect.right() <= i32::MAX,
            rect.bottom() <= i32::MAX,
        ensures
            r.min[0] == rect.x as i32,
            r.min[1] == rect.y as i32,
            r.max[0] == rect.right(),
            r.max[1] == rect.bottom(),
    {
        RawAtlasPointer {
            min: [rect.x as i32, rect.y as i32],
            max: [(rect.x + rect.width) as i32, (rect.y + rect.height) as i32],
        }
    }
}

/// One growth step of the doubling policy: twice the current side, clamped
/// to the cap.
pub open spec fn spec_double(cur: u32, cap: u32) -> u32 {
    if 2 * cur >= cap {
        cap
    } else {
        (2 * cur) as u32
    }
}

/// Whether the grow-and-retry policy finds room for a `rw` by `rh` request:
/// either some free rectangle already holds it, or it holds after growing
/// the canvas by doubling (clamped to `cap`), repeated while the canvas is
/// not yet at the cap on both axes.
pub open spec fn can_place_rec(
    free: Seq<Rect>,
    nothing_placed: bool,
    w: u32,
    h: u32,
    cap: u32,
    rw: int,
    rh: int,
) -> bool
    decreases 2 * cap - w - h
        when 0 < w <= cap && 0 < h <= cap
{
    if any_fits(free, rw, rh) {
        true
    } else if w == cap && h == cap {
        false
    } else {
        can_place_rec(
            grown_free(free, nothing_placed, w, h, spec_double(w, cap), spec_double(h, cap)),
            nothing_placed,
            spec_double(w, cap),
            spec_double(h, cap),
            cap,
            rw,
            rh,
        )
    }
}

/// While nothing has been placed the policy is complete: starting from a
/// wholly free canvas, a positive request can be placed exactly when each of
/// its sides is within the cap.
proof fn lemma_can_place_rec_fresh(w: u32, h: u32, cap: u32, rw: int, rh: int)
    requires
        0 < w <= cap,
        0 < h <= cap,
        0 < rw,
        0 < rh,
    ensures
        can_place_rec(
            seq![(Rect { x: 0, y: 0, width: w, height: h })],
            true,
            w,
            h,
            cap,
            rw,
            rh,
        ) <==> (rw <= cap && rh <= cap),
    decreases 2 * cap - w - h,
{
    let free = seq![(Rect { x: 0, y: 0, width: w, height: h })];
    if free[0].fits(rw, rh) {
        assert(any_fits(free, rw, rh));
    } else {
        assert(!any_fits(free, rw, rh));
        if w == cap && h == cap {
        } else {
            let dw = spec_double(w, cap);
            let dh = spec_double(h, cap);
            lemma_can_place_rec_fresh(dw, dh, cap, rw, rh);
            assert(grown_free(free, true, w, h, dw, dh) =~= seq![
                (Rect { x: 0, y: 0, width: dw, height: dh }),
            ]);
        }
    }
}

/// Double a canvas side, clamping at the cap.
fn double_clamped(cur: u32, cap: u32) -> (r: u32)
    requires
        0 < cur <= cap,
        cap <= MAX_CANVAS_DIM,
    ensures
        r == spec_double(cur, cap),
        cur <= r <= cap,
{
    let doubled = 2 * cur;
    if doubled >= cap {
        cap
    } else {
        doubled
    }
}

/// Allocate with the doubling policy: try, grow (clamped to `cap`), retry,
/// until the allocator either finds room or stands at the cap on both axes.
#[verifier::loop_isolation(false)]
fn place_with_growth(alloc: &mut RectAllocator, cap: u32, rw: u32, rh: u32) -> (r: Option<Rect>)
    requires
        old(alloc).wf(),
        old(alloc).spec_width() <= cap,
        old(alloc).spec_height() <= cap,
        cap <= MAX_CANVAS_DIM,
        0 < rw,
        0 < rh,
    ensures
        final(alloc).wf(),
        final(alloc).spec_width() <= cap,
        final(alloc).spec_height() <= cap,
        old(alloc).spec_width() <= final(alloc).spec_width(),
        old(alloc).spec_height() <= final(alloc).spec_height(),
        r is Some <==> can_place_rec(
            old(alloc).free_rects(),
            old(alloc).placements().len() == 0,
            old(alloc).spec_width(),
            old(alloc).spec_height(),
            cap,
            rw as int,
            rh as int,
        ),
        r is None ==> final(alloc).placements() == old(alloc).placements(),
        r matches Some(p) ==> {
            &&& p.width == rw
            &&& p.height == rh
            &&& p.contained_in(final(alloc).spec_width() as int, final(alloc).spec_height() as int)
            &&& forall|i: int| 0 <= i < old(alloc).placements().len()
                ==> p.disjoint(#[trigger] old(alloc).placements()[i])
            &&& final(alloc).placements() == old(alloc).placements().push(p)
        },
{
    proof {
        old(alloc).lemma_wf_bounds();
    }
    loop
        invariant
            alloc.wf(),
            0 < alloc.spec_width() <= cap,
            0 < alloc.spec_height() <= cap,
            old(alloc).spec_width() <= alloc.spec_width(),
            old(alloc).spec_height() <= alloc.spec_height(),
            alloc.placements() == old(alloc).placements(),
            can_place_rec(
                alloc.free_rects(),
                alloc.placements().len() == 0,
                alloc.spec_width(),
                alloc.spec_height(),
                cap,
                rw as int,
                rh as int,
            ) == can_place_rec(
                old(alloc).free_rects(),
                old(alloc).placements().len() == 0,
                old(alloc).spec_width(),
                old(alloc).spec_height(),
                cap,
                rw as int,
                rh as int,
            ),
        decreases 2 * cap - alloc.spec_width() - alloc.spec_height(),
    {
        let ghost pre = *alloc;
        let attempt = alloc.allocate(rw, rh);
        match attempt {
            Some(p) => {
                proof {
                    assert(any_fits(pre.free_rects(), rw as int, rh as int));
                }
                return Some(p);
            },
            None => {},
        }
        let size = alloc.current_size();
        let w = size.0;
        let h = size.1;
        if w == cap && h == cap {
            proof {
                assert(!any_fits(pre.free_rects(), rw as int, rh as int));
            }
            return None;
        }
        let nw = double_clamped(w, cap);
        let nh = double_clamped(h, cap);
        let ghost before_grow = *alloc;
        alloc.grow(nw, nh);
        proof {
            assert(!any_fits(before_grow.free_rects(), rw as int, rh as int));
            assert(alloc.free_rects() == grown_free(
                before_grow.free_rects(),
                before_grow.placements().len() == 0,
                before_grow.spec_width(),
                before_grow.spec_height(),
                nw,
                nh,
            ));
        }
    }
}

/// The color of the composite at `(x, y)` after the first `n` entries have
/// been blitted, in submission order, onto a cleared buffer: the last entry
/// among them that covers the point wins, and uncovered points keep the
/// background color 0.
pub open spec fn composite_upto(entries: Seq<AllocatedTexture>, n: int, x: int, y: int) -> u32
    decreases n,
{
    if n <= 0 {
        0u32
    } else if entries[n - 1].alloc.covers(x, y) {
        entries[n - 1].texture.pixel_at(x - entries[n - 1].alloc.x, y - entries[n - 1].alloc.y)
    } else {
        composite_upto(entries, n - 1, x, y)
    }
}

/// With pairwise disjoint entries, later blits never touch an earlier
/// entry's region: at a point of entry `k`'s placement, the composite of the
/// first `n > k` entries shows entry `k`'s own pixel.
proof fn lemma_composite_region(entries: Seq<AllocatedTexture>, k: int, n: int, x: int, y: int)
    requires
        0 <= k < n <= entries.len(),
        forall|i: int, j: int|
            0 <= i < entries.len() && 0 <= j < entries.len() && i != j
                ==> (#[trigger] entries[i]).alloc.disjoint((#[trigger] entries[j]).alloc),
        entries[k].alloc.covers(x, y),
    ensures
        composite_upto(entries, n, x, y) == entries[k].texture.pixel_at(
            x - entries[k].alloc.x,
            y - entries[k].alloc.y,
        ),
    decreases n,
{
    if n - 1 != k {
        assert(entries[n - 1].alloc.disjoint(entries[k].alloc));
        assert(!entries[n - 1].alloc.covers(x, y));
        lemma_composite_region(entries, k, n - 1, x, y);
    }
}

/// The color the blit loop has produced at `(x, y)` while entry `k` is being
/// copied, after `rows` full rows and `cols` pixels of the next row of the
/// entry's region: the part of the region already reached shows the entry's
/// image, everything else still shows the composite of the first `k`
/// entries.
spec fn partial_blit(
    entries: Seq<AllocatedTexture>,
    k: int,
    rows: int,
    cols: int,
    x: int,
    y: int,
) -> u32 {
    let a = entries[k].alloc;
    if a.covers(x, y) && (y - a.y < rows || (y - a.y == rows && x - a.x < cols)) {
        entries[k].texture.pixel_at(x - a.x, y - a.y)
    } else {
        composite_upto(entries, k, x, y)
    }
}

/// The atlas manager.  Owns the allocator and the list of entries, in
/// submission order.
pub struct TextureAtlas {
    allocator: RectAllocator,
    textures: Vec<AllocatedTexture>,
    /// Hard upper bound on either canvas axis; growth stops here.
    max_size: u32,
}

impl TextureAtlas {
    /// The entries, in submission order.
    pub closed spec fn entries(self) -> Seq<AllocatedTexture> {
        self.textures@
    }

    /// Current canvas width.
    pub closed spec fn spec_width(self) -> u32 {
        self.allocator.spec_width()
    }

    /// Current canvas height.
    pub closed spec fn spec_height(self) -> u32 {
        self.allocator.spec_height()
    }

    /// The configured growth cap.
    pub closed spec fn spec_max_size(self) -> u32 {
        self.max_size
    }

    /// The grow-and-retry policy of `add_texture` would find room for a
    /// `rw` by `rh` image in the atlas as it currently stands.
    pub closed spec fn can_place(self, rw: int, rh: int) -> bool {
        can_place_rec(
            self.allocator.free_rects(),
            self.entries().len() == 0,
            self.spec_width(),
            self.spec_height(),
            self.max_size,
            rw,
            rh,
        )
    }

    /// The manager's invariant: the allocator is well formed, the canvas
    /// respects the cap, and the entries correspond one to one, in order,
    /// to the placements the allocator has issued.
    pub closed spec fn wf(self) -> bool {
        &&& self.allocator.wf()
        &&& self.allocator.spec_width() <= self.max_size
        &&& self.allocator.spec_height() <= self.max_size
        &&& self.max_size <= MAX_CANVAS_DIM
        &&& self.textures@.len() == self.allocator.placements().len()
        &&& forall|i: int| 0 <= i < self.textures@.len() ==> (#[trigger] self.textures@[i]).wf()
            && self.textures@[i].alloc == self.allocator.placements()[i]
    }

    /// No-overlap, at the atlas level: the placements of distinct entries
    /// never share a pixel.
    pub proof fn lemma_entries_disjoint(self)
        requires
            self.wf(),
        ensures
            forall|i: int, j: int|
                0 <= i < self.entries().len() && 0 <= j < self.entries().len() && i != j
                    ==> (#[trigger] self.entries()[i]).alloc.disjoint(
                        (#[trigger] self.entries()[j]).alloc,
                    ),
    {
        self.allocator.lemma_placements_disjoint();
    }

    /// Containment, at the atlas level: every entry's placement is positive
    /// and lies inside the current canvas.
    pub proof fn lemma_entries_contained(self)
        requires
            self.wf(),
        ensures
            forall|i: int| 0 <= i < self.entries().len()
                ==> (#[trigger] self.entries()[i]).alloc.positive()
                    && self.entries()[i].alloc.contained_in(
                        self.spec_width() as int,
                        self.spec_height() as int,
                    ),
    {
        self.allocator.lemma_placements_contained();
    }

    /// An atlas over a 1024 by 1024 starting canvas, growable up to
    /// `MAX_CANVAS_DIM` on each axis.
    pub fn new() -> (r: TextureAtlas)
        ensures
            r.wf(),
            r.spec_width() == 1024,
            r.spec_height() == 1024,
            r.spec_max_size() == MAX_CANVAS_DIM,
            r.entries() == Seq::<AllocatedTexture>::empty(),
    {
        TextureAtlas::with_size(1024, 1024, MAX_CANVAS_DIM)
    }

    /// An atlas with a chosen starting canvas and growth cap.
    pub fn with_size(width: u32, height: u32, max_size: u32) -> (r: TextureAtlas)
        requires
            0 < width <= max_size,
            0 < height <= max_size,
            max_size <= MAX_CANVAS_DIM,
        ensures
            r.wf(),
            r.spec_width() == width,
            r.spec_height() == height,
            r.spec_max_size() == max_size,
            r.entries() == Seq::<AllocatedTexture>::empty(),
    {
        let r = TextureAtlas {
            allocator: RectAllocator::new(width, height),
            textures: Vec::new(),
            max_size,
        };
        proof {
            assert(r.textures@ =~= Seq::<AllocatedTexture>::empty());
        }
        r
    }

    /// The canvas as currently sized, as `(width, height)`.
    pub fn current_size(&self) -> (r: (u32, u32))
        ensures
            r.0 == self.spec_width(),
            r.1 == self.spec_height(),
    {
        self.allocator.current_size()
    }

    /// Success is owed on a fresh atlas: while no entry has been added, a
    /// positive image can be placed exactly when each of its sides is
    /// within the growth cap.
    pub proof fn lemma_can_place_when_empty(self, rw: int, rh: int)
        requires
            self.wf(),
            self.entries().len() == 0,
            0 < rw,
            0 < rh,
        ensures
            self.can_place(rw, rh) <==> (rw <= self.spec_max_size() && rh <= self.spec_max_size()),
    {
        self.allocator.lemma_wf_bounds();
        self.allocator.lemma_empty_free();
        lemma_can_place_rec_fresh(
            self.spec_width(),
            self.spec_height(),
            self.max_size,
            rw,
            rh,
        );
    }

    /// Submit a decoded image.
    ///
    /// A zero-sized image is rejected up front with `InvalidDimensions` and
    /// nothing changes.  Otherwise the image is placed -- growing the
    /// canvas by doubling, clamped to the cap, as often as needed -- and
    /// appended as a new entry, whose index is its submission order; the
    /// entries already present are never disturbed.  When even the
    /// cap-sized canvas has no room the call returns
    /// `AtlasCapacityExceeded` and no entry is added.
    pub fn add_texture(&mut self, texture: Image) -> (r: Result<(), AtlasError>)
        requires
            old(self).wf(),
            texture.wf(),
        ensures
            final(self).wf(),
            final(self).spec_max_size() == old(self).spec_max_size(),
            old(self).spec_width() <= final(self).spec_width() <= final(self).spec_max_size(),
            old(self).spec_height() <= final(self).spec_height() <= final(self).spec_max_size(),
            (r == Err::<(), AtlasError>(AtlasError::InvalidDimensions)) <==> (texture.width == 0 || texture.height
                == 0),
            r == Err::<(), AtlasError>(AtlasError::InvalidDimensions) ==> *final(self) == *old(self),
            texture.width > 0 && texture.height > 0 ==> ((r == Ok::<(), AtlasError>(())) <==> old(self).can_place(
                texture.width as int,
                texture.height as int,
            )),
            r is Err ==> final(self).entries() == old(self).entries(),
            r == Ok::<(), AtlasError>(()) ==> {
                let e = final(self).entries().last();
                &&& final(self).entries() == old(self).entries().push(e)
                &&& e.texture == texture
                &&& e.alloc.width == texture.width
                &&& e.alloc.height == texture.height
                &&& e.alloc.contained_in(
                    final(self).spec_width() as int,
                    final(self).spec_height() as int,
                )
                &&& forall|i: int| 0 <= i < old(self).entries().len()
                    ==> e.alloc.disjoint((#[trigger] old(self).entries()[i]).alloc)
            },
    {
        if texture.width == 0 || texture.height == 0 {
            return Err(AtlasError::InvalidDimensions);
        }
        let placed = place_with_growth(
            &mut self.allocator,
            self.max_size,
            texture.width,
            texture.height,
        );
        match placed {
            Some(p) => {
                let entry = AllocatedTexture::new(p, texture);
                self.textures.push(entry);
                proof {
                    assert forall|i: int| 0 <= i < self.textures@.len()
                        implies (#[trigger] self.textures@[i]).wf()
                            && self.textures@[i].alloc == self.allocator.placements()[i] by {
                        if i < old(self).textures@.len() {
                            assert(old(self).textures@[i].wf());
                            assert(old(self).textures@[i].alloc
                                == old(self).allocator.placements()[i]);
                        }
                    }
                }
                Ok(())
            },
            None => Err(AtlasError::AtlasCapacityExceeded),
        }
    }

    /// Composite all entries, in submission order, into one pixel buffer
    /// sized to the current canvas.  Pixels no entry covers are the
    /// background 0; inside each entry's placement the buffer shows exactly
    /// that entry's image (composite fidelity).  A pure function of the
    /// current state: the atlas itself is untouched.
    #[verifier::loop_isolation(false)]
    pub fn build_atlas(&self) -> (r: Image)
        requires
            self.wf(),
        ensures
            r.wf(),
            r.width == self.spec_width(),
            r.height == self.spec_height(),
            forall|x: int, y: int| 0 <= x < r.width && 0 <= y < r.height
                ==> #[trigger] r.pixel_at(x, y) == composite_upto(
                    self.entries(),
                    self.entries().len() as int,
                    x,
                    y,
                ),
            forall|k: int, dx: int, dy: int|
                0 <= k < self.entries().len() && 0 <= dx < self.entries()[k].alloc.width && 0 <= dy
                    < self.entries()[k].alloc.height
                    ==> r.pixel_at(self.entries()[k].alloc.x + dx, self.entries()[k].alloc.y + dy)
                        == (#[trigger] self.entries()[k].texture.pixel_at(dx, dy)),
    {
        proof {
            self.lemma_entries_disjoint();
            self.lemma_entries_contained();
            self.allocator.lemma_wf_bounds();
        }
        let size = self.current_size();
        let cw = size.0;
        let ch = size.1;
        proof {
            assert((cw as int) * (ch as int) <= usize::MAX && (cw as int) * (ch as int) == (
            ch as int) * (cw as int)) by (nonlinear_arith)
                requires
                    0 < cw <= MAX_CANVAS_DIM,
                    0 < ch <= MAX_CANVAS_DIM,
            ;
        }
        let n: usize = (cw as usize) * (ch as usize);
        let mut pixels: Vec<u32> = Vec::new();
        let mut z: usize = 0;
        while z < n
            invariant
                z <= n,
                pixels@.len() == z,
                forall|q: int| 0 <= q < z ==> pixels@[q] == 0u32,
            decreases n - z,
        {
            pixels.push(0);
            z += 1;
        }
        proof {
            assert forall|x: int, y: int| 0 <= x < cw && 0 <= y < ch
                implies #[trigger] grid_at(pixels@, cw as int, x, y) == composite_upto(
                self.entries(),
                0,
                x,
                y,
            ) by {
                lemma_grid_index(cw as int, ch as int, x, y);
            }
        }
        let mut k: usize = 0;
        while k < self.textures.len()
            invariant
                k <= self.textures@.len(),
                pixels@.len() == (cw as int) * (ch as int),
                forall|x: int, y: int| 0 <= x < cw && 0 <= y < ch
                    ==> #[trigger] grid_at(pixels@, cw as int, x, y) == composite_upto(
                        self.entries(),
                        k as int,
                        x,
                        y,
                    ),
            decreases self.textures@.len() - k,
        {
            let entry_alloc = self.textures[k].alloc;
            let ex = entry_alloc.x;
            let ey = entry_alloc.y;
            let ew = entry_alloc.width;
            let eh = entry_alloc.height;
            proof {
                assert forall|x: int, y: int| 0 <= x < cw && 0 <= y < ch
                    implies #[trigger] grid_at(pixels@, cw as int, x, y) == partial_blit(
                    self.entries(),
                    k as int,
                    0,
                    0,
                    x,
                    y,
                ) by {}
            }
            let mut dy: u32 = 0;
            while dy < eh
                invariant
                    dy <= eh,
                    k < self.textures@.len(),
                    pixels@.len() == (cw as int) * (ch as int),
                    forall|x: int, y: int| 0 <= x < cw && 0 <= y < ch
                        ==> #[trigger] grid_at(pixels@, cw as int, x, y) == partial_blit(
                            self.entries(),
                            k as int,
                            dy as int,
                            0,
                            x,
                            y,
                        ),
                decreases eh - dy,
            {
                let mut dx: u32 = 0;
                while dx < ew
                    invariant
                        dx <= ew,
                        dy < eh,
                        k < self.textures@.len(),
                        pixels@.len() == (cw as int) * (ch as int),
                        forall|x: int, y: int| 0 <= x < cw && 0 <= y < ch
                            ==> #[trigger] grid_at(pixels@, cw as int, x, y) == partial_blit(
                                self.entries(),
                                k as int,
                                dy as int,
                                dx as int,
                                x,
                                y,
                            ),
                    decreases ew - dx,
                {
                    proof {
                        lemma_grid_index(cw as int, ch as int, ex + dx, ey + dy);
                        lemma_grid_index(ew as int, eh as int, dx as int, dy as int);
                        assert(self.textures@[k as int].wf());
                    }
                    let tex_len = self.textures[k].texture.pixels.len();
                    proof {
                        assert(tex_len == (ew as int) * (eh as int));
                    }
                    let idx: usize = ((ey + dy) as usize) * (cw as usize) + ((ex + dx) as usize);
                    let v = self.textures[k].texture.pixels[(dy as usize) * (ew as usize) + (
                    dx as usize)];
                    let ghost prev = pixels@;
                    pixels.set(idx, v);
                    proof {
                        assert forall|x: int, y: int| 0 <= x < cw && 0 <= y < ch
                            implies #[trigger] grid_at(pixels@, cw as int, x, y) == partial_blit(
                            self.entries(),
                            k as int,
                            dy as int,
                            dx as int + 1,
                            x,
                            y,
                        ) by {
                            lemma_grid_index(cw as int, ch as int, x, y);
                            if y * cw + x == idx {
                                lemma_grid_index_injective(
                                    cw as int,
                                    x,
                                    y,
                                    ex + dx,
                                    ey + dy,
                                );
                                assert(x == ex + dx && y == ey + dy);
                                assert(grid_at(pixels@, cw as int, x, y) == v);
                            } else {
                                assert(grid_at(pixels@, cw as int, x, y) == grid_at(
                                    prev,
                                    cw as int,
                                    x,
                                    y,
                                ));
                            }
                        }
                    }
                    dx += 1;
                }
                proof {
                    assert forall|x: int, y: int| 0 <= x < cw && 0 <= y < ch
                        implies #[trigger] grid_at(pixels@, cw as int, x, y) == partial_blit(
                        self.entries(),
                        k as int,
                        dy as int + 1,
                        0,
                        x,
                        y,
                    ) by {}
                }
                dy += 1;
            }
            proof {
                assert forall|x: int, y: int| 0 <= x < cw && 0 <= y < ch
                    implies #[trigger] grid_at(pixels@, cw as int, x, y) == composite_upto(
                    self.entries(),
                    k as int + 1,
                    x,
                    y,
                ) by {}
            }
            k += 1;
        }
        let r = Image { width: cw, height: ch, pixels };
        proof {
            assert forall|x: int, y: int| 0 <= x < cw && 0 <= y < ch
                implies #[trigger] r.pixel_at(x, y) == composite_upto(
                self.entries(),
                self.entries().len() as int,
                x,
                y,
            ) by {
                assert(r.pixel_at(x, y) == grid_at(r.pixels@, cw as int, x, y));
            }
            assert forall|k2: int, dx: int, dy: int|
                0 <= k2 < self.entries().len() && 0 <= dx < self.entries()[k2].alloc.width && 0
                    <= dy < self.entries()[k2].alloc.height
                implies r.pixel_at(
                self.entries()[k2].alloc.x + dx,
                self.entries()[k2].alloc.y + dy,
            ) == (#[trigger] self.entries()[k2].texture.pixel_at(dx, dy)) by {
                let a = self.entries()[k2].alloc;
                assert(0 <= a.x + dx < cw && 0 <= a.y + dy < ch);
                assert(r.pixel_at(a.x + dx, a.y + dy) == composite_upto(
                    self.entries(),
                    self.entries().len() as int,
                    a.x + dx,
                    a.y + dy,
                ));
                lemma_composite_region(
                    self.entries(),
                    k2,
                    self.entries().len() as int,
                    a.x + dx,
                    a.y + dy,
                );
            }
        }
        r
    }

    /// One pointer per entry, in submission order: entry `i`'s placement
    /// projected to its min/max pixel corners.  The `i`-th pointer always
    /// describes the `i`-th submitted image.
    #[verifier::loop_isolation(false)]
    pub fn get_atlas_pointers(&self) -> (r: Vec<RawAtlasPointer>)
        requires
            self.wf(),
        ensures
            r@.len() == self.entries().len(),
            forall|i: int| 0 <= i < r@.len() ==> {
                let a = (#[trigger] self.entries()[i]).alloc;
                &&& r@[i].min[0] == a.x as i32
                &&& r@[i].min[1] == a.y as i32
                &&& r@[i].max[0] == a.right()
                &&& r@[i].max[1] == a.bottom()
            },
    {
        proof {
            self.allocator.lemma_placements_contained();
        }
        let mut ret: Vec<RawAtlasPointer> = Vec::new();
        let mut i: usize = 0;
        while i < self.textures.len()
            invariant
                i <= self.textures@.len(),
                ret@.len() == i,
                forall|k: int| 0 <= k < i ==> {
                    let a = (#[trigger] self.entries()[k]).alloc;
                    &&& ret@[k].min[0] == a.x as i32
                    &&& ret@[k].min[1] == a.y as i32
                    &&& ret@[k].max[0] == a.right()
                    &&& ret@[k].max[1] == a.bottom()
                },
            decreases self.textures@.len() - i,
        {
            ret.push(RawAtlasPointer::from_rect(self.textures[i].alloc));
            i += 1;
        }
        ret
    }
}

} // verus!
