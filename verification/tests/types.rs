use atlas_core::events::ButtonEventState;
use atlas_core::events::Event;
use atlas_core::game::Block;
use atlas_core::game::ChunkPos;
use atlas_core::image::Image;
use atlas_core::input::ButtonState;
use atlas_core::input::Movement;
use atlas_core::rect::Rect;
use atlas_core::texture_atlas::AllocatedTexture;
use atlas_core::texture_atlas::RawAtlasPointer;

#[test]
fn event_wraps_its_payload() {
    let e = Event::new(42u32);
    assert_eq!(e.data, 42);
    let s = Event::new(String::from("resize"));
    assert_eq!(s.data, "resize");
}

#[test]
fn block_starts_without_data() {
    let b = Block::new("stone");
    assert_eq!(b.id, "stone");
    assert!(b.data.is_none());
}

#[test]
fn chunk_pos_compares_by_fields() {
    assert_eq!(ChunkPos { x: 1, y: -2, z: 3 }, ChunkPos { x: 1, y: -2, z: 3 });
    assert_ne!(ChunkPos { x: 1, y: -2, z: 3 }, ChunkPos { x: 1, y: 2, z: 3 });
}

#[test]
fn button_states_are_plain_values() {
    assert_eq!(ButtonState::Pressed, ButtonState::Pressed);
    assert_ne!(ButtonState::Pressed, ButtonState::Released);
    assert_eq!(ButtonEventState::JustPressed, ButtonEventState::JustPressed);
    assert_ne!(ButtonEventState::JustPressed, ButtonEventState::JustReleased);
    let m = Movement::Forward;
    assert!(matches!(m, Movement::Forward));
}

#[test]
fn filled_image_has_uniform_pixels() {
    let img = Image::filled(3, 2, 7);
    assert_eq!(img.width, 3);
    assert_eq!(img.height, 2);
    assert_eq!(img.pixels, vec![7, 7, 7, 7, 7, 7]);
}

#[test]
fn pointer_projects_rect_corners() {
    let p = RawAtlasPointer::from_rect(Rect::new(1, 2, 3, 4));
    assert_eq!(p.min, [1, 2]);
    assert_eq!(p.max, [4, 6]);
}

#[test]
fn allocated_texture_keeps_its_parts() {
    let t = AllocatedTexture::new(Rect::new(0, 0, 1, 1), Image::filled(1, 1, 3));
    assert_eq!(t.alloc, Rect::new(0, 0, 1, 1));
    assert_eq!(t.texture.pixels, vec![3]);
}
