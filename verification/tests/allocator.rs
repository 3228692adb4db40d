use atlas_core::allocator::RectAllocator;
use atlas_core::rect::Rect;

#[test]
fn first_allocation_takes_top_left() {
    let mut alloc = RectAllocator::new(64, 64);
    let p = alloc.allocate(16, 16).unwrap();
    assert_eq!(p, Rect { x: 0, y: 0, width: 16, height: 16 });
    assert_eq!(alloc.current_size(), (64, 64));
}

#[test]
fn smallest_fitting_offcut_is_preferred() {
    let mut alloc = RectAllocator::new(64, 64);
    // splits the canvas into the placement, a 48x16 offcut to the right and
    // a 64x48 offcut below
    assert!(alloc.allocate(16, 16).is_some());
    // the right offcut has the smaller area, so it is carved next
    let p = alloc.allocate(16, 16).unwrap();
    assert_eq!(p, Rect { x: 16, y: 0, width: 16, height: 16 });
}

#[test]
fn allocation_failure_leaves_allocator_usable() {
    let mut alloc = RectAllocator::new(32, 32);
    assert!(alloc.allocate(16, 16).is_some());
    // nothing of size 32x32 is free any more
    assert!(alloc.allocate(32, 32).is_none());
    assert_eq!(alloc.current_size(), (32, 32));
    // but smaller requests still succeed afterwards
    assert!(alloc.allocate(16, 16).is_some());
}

#[test]
fn grow_makes_room_and_keeps_size() {
    let mut alloc = RectAllocator::new(16, 16);
    assert!(alloc.allocate(16, 16).is_some());
    assert!(alloc.allocate(1, 1).is_none());
    alloc.grow(48, 16);
    assert_eq!(alloc.current_size(), (48, 16));
    // the added strip holds the new allocation
    let p = alloc.allocate(8, 8).unwrap();
    assert_eq!(p.x, 16);
    assert_eq!(p.y, 0);
}

#[test]
fn grow_of_untouched_canvas_resets_free_space() {
    let mut alloc = RectAllocator::new(16, 16);
    assert!(alloc.allocate(32, 32).is_none());
    alloc.grow(32, 32);
    // the whole grown canvas is one free rectangle, so a full-size request
    // fits
    let p = alloc.allocate(32, 32).unwrap();
    assert_eq!(p, Rect { x: 0, y: 0, width: 32, height: 32 });
}

#[test]
fn exact_fit_leaves_no_offcut() {
    let mut alloc = RectAllocator::new(8, 8);
    let p = alloc.allocate(8, 8).unwrap();
    assert_eq!(p, Rect { x: 0, y: 0, width: 8, height: 8 });
    assert!(alloc.allocate(1, 1).is_none());
}

#[test]
fn equal_areas_prefer_topmost_candidate() {
    let mut alloc = RectAllocator::new(32, 16);
    assert_eq!(alloc.allocate(32, 16).unwrap(), Rect { x: 0, y: 0, width: 32, height: 16 });
    // growth adds a 16x32 strip to the right (top of the canvas) and a
    // 32x16 strip below: equal areas, so the top-most one wins
    alloc.grow(48, 32);
    let p = alloc.allocate(16, 16).unwrap();
    assert_eq!(p, Rect { x: 32, y: 0, width: 16, height: 16 });
}

#[test]
fn rect_constructor_carries_fields() {
    let r = Rect::new(3, 4, 5, 6);
    assert_eq!(r.x, 3);
    assert_eq!(r.y, 4);
    assert_eq!(r.width, 5);
    assert_eq!(r.height, 6);
}
