use atlas_core::image::Image;
use atlas_core::texture_atlas::AtlasError;
use atlas_core::texture_atlas::RawAtlasPointer;
use atlas_core::texture_atlas::TextureAtlas;

/// The two pointer rectangles share no pixel.
fn pointers_disjoint(a: &RawAtlasPointer, b: &RawAtlasPointer) -> bool {
    a.max[0] <= b.min[0] || b.max[0] <= a.min[0] || a.max[1] <= b.min[1] || b.max[1] <= a.min[1]
}

/// The pointer rectangle lies within `(0, 0)..(w, h)`.
fn pointer_within(p: &RawAtlasPointer, w: u32, h: u32) -> bool {
    0 <= p.min[0]
        && 0 <= p.min[1]
        && p.min[0] < p.max[0]
        && p.min[1] < p.max[1]
        && p.max[0] <= w as i32
        && p.max[1] <= h as i32
}

#[test]
fn scenario_two_small_images_no_growth() {
    let mut atlas = TextureAtlas::with_size(64, 64, 32768);
    assert_eq!(atlas.add_texture(Image::filled(32, 32, 0xff0000ff)), Ok(()));
    assert_eq!(atlas.add_texture(Image::filled(32, 32, 0x00ff00ff)), Ok(()));
    assert_eq!(atlas.current_size(), (64, 64));

    let ptrs = atlas.get_atlas_pointers();
    assert_eq!(ptrs.len(), 2);
    assert!(pointer_within(&ptrs[0], 64, 64));
    assert!(pointer_within(&ptrs[1], 64, 64));
    assert!(pointers_disjoint(&ptrs[0], &ptrs[1]));

    // deterministic placement: the first image takes the top-left corner,
    // the second the offcut to its right
    assert_eq!(ptrs[0].min, [0, 0]);
    assert_eq!(ptrs[0].max, [32, 32]);
    assert_eq!(ptrs[1].min, [32, 0]);
    assert_eq!(ptrs[1].max, [64, 32]);
}

#[test]
fn scenario_growth_on_small_canvas() {
    let mut atlas = TextureAtlas::with_size(16, 16, 32768);
    assert_eq!(atlas.add_texture(Image::filled(32, 32, 0x12345678)), Ok(()));
    // exactly one doubling: 16x16 -> 32x32
    assert_eq!(atlas.current_size(), (32, 32));

    let ptrs = atlas.get_atlas_pointers();
    assert_eq!(ptrs.len(), 1);
    assert_eq!(ptrs[0].min, [0, 0]);
    assert_eq!(ptrs[0].max, [32, 32]);
}

#[test]
fn scenario_zero_width_rejected() {
    let mut atlas = TextureAtlas::with_size(64, 64, 32768);
    let before = atlas.get_atlas_pointers().len();
    assert_eq!(
        atlas.add_texture(Image { width: 0, height: 8, pixels: Vec::new() }),
        Err(AtlasError::InvalidDimensions)
    );
    assert_eq!(atlas.get_atlas_pointers().len(), before);
    assert_eq!(atlas.current_size(), (64, 64));

    // the same after an entry exists
    assert_eq!(atlas.add_texture(Image::filled(8, 8, 1)), Ok(()));
    assert_eq!(
        atlas.add_texture(Image { width: 4, height: 0, pixels: Vec::new() }),
        Err(AtlasError::InvalidDimensions)
    );
    assert_eq!(atlas.get_atlas_pointers().len(), 1);
}

#[test]
fn scenario_many_images_overflow_initial_canvas() {
    let mut atlas = TextureAtlas::with_size(32, 32, 32768);
    let n: usize = 40;
    let mut seed: u64 = 0x2545f491;
    for _ in 0..n {
        seed = seed.wrapping_mul(1103515245).wrapping_add(12345);
        let w = (seed >> 16) as u32 % 30 + 1;
        seed = seed.wrapping_mul(1103515245).wrapping_add(12345);
        let h = (seed >> 16) as u32 % 30 + 1;
        assert_eq!(atlas.add_texture(Image::filled(w, h, 0xabcdef01)), Ok(()));
    }

    let ptrs = atlas.get_atlas_pointers();
    assert_eq!(ptrs.len(), n);
    let (cw, ch) = atlas.current_size();
    for i in 0..n {
        assert!(pointer_within(&ptrs[i], cw, ch));
        for j in 0..i {
            assert!(pointers_disjoint(&ptrs[i], &ptrs[j]));
        }
    }
}

#[test]
fn capacity_cap_is_reported() {
    let mut atlas = TextureAtlas::with_size(16, 16, 16);
    // wider than the cap: no amount of growth can help
    assert_eq!(
        atlas.add_texture(Image::filled(32, 32, 5)),
        Err(AtlasError::AtlasCapacityExceeded)
    );
    assert_eq!(atlas.get_atlas_pointers().len(), 0);
    assert_eq!(atlas.current_size(), (16, 16));

    // the whole cap-sized canvas is still usable
    assert_eq!(atlas.add_texture(Image::filled(16, 16, 6)), Ok(()));
    // and once it is full, even a single pixel has no room
    assert_eq!(
        atlas.add_texture(Image::filled(1, 1, 7)),
        Err(AtlasError::AtlasCapacityExceeded)
    );
    assert_eq!(atlas.get_atlas_pointers().len(), 1);
}

#[test]
fn composite_holds_each_image_exactly() {
    let mut atlas = TextureAtlas::with_size(8, 8, 32768);
    let a = Image { width: 2, height: 2, pixels: vec![1, 2, 3, 4] };
    let b = Image { width: 3, height: 1, pixels: vec![5, 6, 7] };
    assert_eq!(atlas.add_texture(a), Ok(()));
    assert_eq!(atlas.add_texture(b), Ok(()));

    let composite = atlas.build_atlas();
    let (cw, ch) = atlas.current_size();
    assert_eq!(composite.width, cw);
    assert_eq!(composite.height, ch);
    assert_eq!(composite.pixels.len(), (cw as usize) * (ch as usize));

    let ptrs = atlas.get_atlas_pointers();
    let expected: [&[u32]; 2] = [&[1, 2, 3, 4], &[5, 6, 7]];
    for (p, want) in ptrs.iter().zip(expected.iter()) {
        let w = (p.max[0] - p.min[0]) as usize;
        let h = (p.max[1] - p.min[1]) as usize;
        for dy in 0..h {
            for dx in 0..w {
                let x = p.min[0] as usize + dx;
                let y = p.min[1] as usize + dy;
                assert_eq!(composite.pixels[y * cw as usize + x], want[dy * w + dx]);
            }
        }
    }
}

#[test]
fn composite_background_is_zero() {
    let mut atlas = TextureAtlas::with_size(4, 4, 32768);
    assert_eq!(atlas.add_texture(Image::filled(1, 1, 9)), Ok(()));
    let composite = atlas.build_atlas();
    assert_eq!(composite.pixels[0], 9);
    // every other pixel of the 4x4 canvas is untouched background
    for i in 1..16 {
        assert_eq!(composite.pixels[i], 0);
    }
}

#[test]
fn empty_atlas_composites_to_background() {
    let atlas = TextureAtlas::with_size(4, 4, 32768);
    let composite = atlas.build_atlas();
    assert_eq!(composite.width, 4);
    assert_eq!(composite.height, 4);
    assert_eq!(composite.pixels, vec![0; 16]);
}

#[test]
fn pointers_follow_submission_order() {
    let mut atlas = TextureAtlas::with_size(64, 64, 32768);
    let sizes: [(u32, u32); 4] = [(10, 3), (5, 5), (20, 1), (2, 8)];
    for (w, h) in sizes {
        assert_eq!(atlas.add_texture(Image::filled(w, h, 0)), Ok(()));
    }
    let ptrs = atlas.get_atlas_pointers();
    assert_eq!(ptrs.len(), sizes.len());
    for (p, (w, h)) in ptrs.iter().zip(sizes.iter()) {
        assert_eq!((p.max[0] - p.min[0]) as u32, *w);
        assert_eq!((p.max[1] - p.min[1]) as u32, *h);
    }
}

#[test]
fn pointers_survive_later_growth() {
    let mut atlas = TextureAtlas::with_size(16, 16, 32768);
    assert_eq!(atlas.add_texture(Image::filled(8, 8, 1)), Ok(()));
    let before = atlas.get_atlas_pointers();
    // force growth with an image that cannot fit at 16x16
    assert_eq!(atlas.add_texture(Image::filled(30, 30, 2)), Ok(()));
    assert!(atlas.current_size().0 > 16 || atlas.current_size().1 > 16);
    let after = atlas.get_atlas_pointers();
    assert_eq!(before[0].min, after[0].min);
    assert_eq!(before[0].max, after[0].max);
}

#[test]
fn default_atlas_starts_at_1024() {
    let atlas = TextureAtlas::new();
    assert_eq!(atlas.current_size(), (1024, 1024));
    assert_eq!(atlas.get_atlas_pointers().len(), 0);
}
