//! The overlay: geometry, textures, input.
use ash::vk;

use sunray::bevy_integration::egui_paint::{
    clip_to_scissor, ensure_buffer, gather_geometry, image_data_to_rgba, texture_image_desc,
    DrawCmd, EguiPaint, GpuVertex, ImageDelta, PaintDraw, PixelClip, Scissor, TexturesDelta,
    UiMesh, UiPrimitive, BUFFER_USAGE_INDEX, BUFFER_USAGE_VERTEX,
};
use sunray::bevy_integration::egui_support::{
    build_modifiers, ButtonChange, EguiInputState, FrameInput, HeldKeys, KeyPress, Modifiers,
    NamedKey, PointerButton, UiEvent,
};
use sunray::error::ErrorSource;
use sunray::render_graph::alias::MemoryLocation;
use sunray::render_graph::submission::STAGE_ALL_COMMANDS;

const WHOLE: PixelClip = PixelClip { min_x: 0, min_y: 0, max_x: 100, max_y: 100 };

fn vertex(n: u32) -> GpuVertex {
    GpuVertex { pos: [n, n], uv: [0, 0], color: [1, 2, 3, 4] }
}

fn mesh(clip: PixelClip, texture: u64, corners: u32, indices: Vec<u32>) -> UiPrimitive {
    UiPrimitive::Mesh(UiMesh {
        clip,
        texture,
        vertices: (0..corners).map(vertex).collect(),
        indices,
    })
}

#[test]
fn draws_follow_one_another() {
    let geometry = gather_geometry(&vec![
        mesh(WHOLE, 1, 3, vec![0, 1, 2]),
        UiPrimitive::Callback,
        mesh(WHOLE, 5, 3, vec![]),
        mesh(WHOLE, 2, 4, vec![0, 1, 2, 1, 2, 3]),
        mesh(WHOLE, 1, 3, vec![2, 1, 0]),
    ]);
    assert_eq!(geometry.vertices.len(), 10);
    assert_eq!(geometry.indices, vec![0, 1, 2, 0, 1, 2, 1, 2, 3, 2, 1, 0]);
    let draw = |texture, idx_start, idx_count, vtx_offset| DrawCmd {
        clip: WHOLE,
        texture,
        idx_start,
        idx_count,
        vtx_offset,
    };
    assert_eq!(geometry.draws, vec![draw(1, 0, 3, 0), draw(2, 3, 6, 3), draw(1, 9, 3, 7)]);
    // Each draw finds its own corners.
    assert_eq!(geometry.vertices[7 + geometry.indices[9] as usize].pos, [2, 2]);
}

#[test]
fn scissors_lie_within_the_image() {
    let cut = |min_x, min_y, max_x, max_y| {
        clip_to_scissor(PixelClip { min_x, min_y, max_x, max_y }, (50, 40))
    };
    assert_eq!(cut(10, 5, 30, 90), Scissor { x: 10, y: 5, width: 20, height: 35 });
    assert_eq!(cut(60, 0, 70, 10), Scissor { x: 50, y: 0, width: 0, height: 10 });
    assert_eq!(cut(30, 30, 10, 10), Scissor { x: 30, y: 30, width: 0, height: 0 });
    assert_eq!(cut(0, 0, u32::MAX, u32::MAX), Scissor { x: 0, y: 0, width: 50, height: 40 });
}

#[test]
fn buffers_grow_by_twice_the_need() {
    let made = ensure_buffer(None, 100, BUFFER_USAGE_VERTEX, "egui vtx").expect("made");
    assert_eq!(made.byte_size, 4096);
    assert_eq!(made.alignment, 16);
    assert_eq!(made.memory_location, MemoryLocation::CpuToGpu);
    assert_eq!(made.usage, vk::BufferUsageFlags::VERTEX_BUFFER.as_raw());
    assert_eq!(made.name, "egui vtx");
    assert!(ensure_buffer(Some(4096), 4096, BUFFER_USAGE_VERTEX, "egui vtx").is_none());
    let made = ensure_buffer(Some(4096), 4097, BUFFER_USAGE_INDEX, "egui idx").expect("made");
    assert_eq!(made.byte_size, 8194);
    assert_eq!(made.usage, vk::BufferUsageFlags::INDEX_BUFFER.as_raw());
    // What was made for a need serves for it.
    assert!(ensure_buffer(Some(8194), 4097, BUFFER_USAGE_INDEX, "egui idx").is_none());
}

#[test]
fn pixels_become_bytes() {
    assert_eq!(image_data_to_rgba(&vec![[1, 2, 3, 4], [5, 6, 7, 8]]), vec![1, 2, 3, 4, 5, 6, 7, 8]);
    let desc = texture_image_desc(4, 3);
    assert_eq!(desc.extent, (4, 3, 1));
    assert_eq!(desc.format, vk::Format::R8G8B8A8_UNORM.as_raw());
    assert_eq!(desc.usage, vk::ImageUsageFlags::SAMPLED.as_raw());
}

fn whole(id: u64, width: usize, height: usize, byte: u8) -> (u64, ImageDelta) {
    (id, ImageDelta { rgba: vec![byte; width * height * 4], width, height, pos: None })
}

#[test]
fn a_part_lands_where_it_belongs() {
    let mut paint = EguiPaint::new();
    let part = ImageDelta { rgba: vec![9; 2 * 2 * 4], width: 2, height: 2, pos: Some((1, 1)) };
    let changed = paint
        .apply_texture_deltas(TexturesDelta { set: vec![whole(3, 4, 3, 0), (3, part)], free: vec![] })
        .expect("applied");
    assert_eq!(changed, vec![3, 3]);
    let texture = &paint.textures[&3];
    for y in 0..3 {
        for x in 0..4 {
            let inside = (1..3).contains(&x) && y >= 1;
            let at = (y * 4 + x) * 4;
            let expected = if inside { 9 } else { 0 };
            assert_eq!(texture.backing[at..at + 4], [expected; 4], "at {x}, {y}");
        }
    }
    assert_eq!((texture.width, texture.height), (4, 3));
}

#[test]
fn textures_are_replaced_and_freed() {
    let mut paint = EguiPaint::new();
    paint
        .apply_texture_deltas(TexturesDelta {
            set: vec![whole(1, 1, 1, 1), whole(2, 1, 1, 2), whole(1, 2, 1, 3)],
            free: vec![2, 7],
        })
        .expect("applied");
    assert_eq!(paint.textures.len(), 1);
    assert_eq!(paint.textures[&1].backing, vec![3; 8]);
}

#[test]
fn a_part_needs_a_texture() {
    let mut paint = EguiPaint::new();
    let part = ImageDelta { rgba: vec![9; 4], width: 1, height: 1, pos: Some((0, 0)) };
    let e = paint
        .apply_texture_deltas(TexturesDelta { set: vec![whole(1, 1, 1, 1), (2, part)], free: vec![1] })
        .expect_err("refused");
    match e.get_source() {
        ErrorSource::Custom(text) => {
            assert_eq!(text, "egui sub-region texture update before full set")
        }
        other => panic!("another source: {other:?}"),
    }
    // What came before it is done, and nothing is freed.
    assert!(paint.textures.contains_key(&1));
}

#[test]
fn only_what_shows_is_painted() {
    let mut paint = EguiPaint::new();
    let right = PixelClip { min_x: 200, min_y: 0, max_x: 300, max_y: 50 };
    let primitives = vec![
        mesh(WHOLE, 1, 3, vec![0, 1, 2]),
        mesh(WHOLE, 8, 3, vec![0, 1, 2]),
        mesh(right, 1, 3, vec![0, 1, 2]),
        mesh(WHOLE, 1, 3, vec![2, 1, 0]),
    ];
    let frame = paint
        .paint_frame(
            (64, 48),
            &primitives,
            TexturesDelta { set: vec![whole(1, 1, 1, 1)], free: vec![] },
            70,
            71,
            5,
        )
        .expect("painted");
    let scissor = Scissor { x: 0, y: 0, width: 64, height: 48 };
    assert_eq!(
        frame.draws,
        vec![
            PaintDraw { scissor, texture: 1, idx_count: 3, idx_start: 0, vtx_offset: 0 },
            PaintDraw { scissor, texture: 1, idx_count: 3, idx_start: 9, vtx_offset: 9 },
        ]
    );
    assert_eq!(frame.vertices.len(), 12);
    assert_eq!(frame.indices.len(), 12);
    assert_eq!(frame.changed_textures, vec![1]);
    assert_eq!(frame.make_vtx.expect("made").byte_size, 4096);
    assert_eq!(frame.make_idx.expect("made").byte_size, 4096);
    assert_eq!(frame.waits, vec![(71, 5, STAGE_ALL_COMMANDS)]);
    assert_eq!(frame.signals, vec![(70, 0, STAGE_ALL_COMMANDS)]);

    let nothing = || TexturesDelta { set: vec![], free: vec![] };
    let frame = paint.paint_frame((64, 48), &primitives, nothing(), 70, 71, 6).expect("painted");
    assert!(frame.make_vtx.is_none() && frame.make_idx.is_none());
    let frame = paint.paint_frame((64, 48), &vec![], nothing(), 70, 71, 7).expect("painted");
    assert!(frame.draws.is_empty());
    assert_eq!(paint.vtx, Some(4096));
}

const NO_KEYS: HeldKeys = HeldKeys {
    control_left: false,
    control_right: false,
    shift_left: false,
    shift_right: false,
    alt_left: false,
    alt_right: false,
    super_left: false,
    super_right: false,
};

const NO_MODIFIERS: Modifiers =
    Modifiers { alt: false, ctrl: false, shift: false, mac_cmd: false, command: false };

#[test]
fn the_command_key_depends_on_the_machine() {
    let control = HeldKeys { control_right: true, ..NO_KEYS };
    assert_eq!(
        build_modifiers(control, false),
        Modifiers { ctrl: true, command: true, ..NO_MODIFIERS }
    );
    assert_eq!(build_modifiers(control, true), Modifiers { ctrl: true, ..NO_MODIFIERS });
    let logo = HeldKeys { super_left: true, alt_left: true, shift_right: true, ..NO_KEYS };
    assert_eq!(
        build_modifiers(logo, false),
        Modifiers { alt: true, shift: true, ..NO_MODIFIERS }
    );
    assert_eq!(
        build_modifiers(logo, true),
        Modifiers { alt: true, shift: true, mac_cmd: true, command: true, ..NO_MODIFIERS }
    );
}

fn press(key: Option<NamedKey>, pressed: bool, text: Option<&str>) -> KeyPress {
    KeyPress { key, pressed, repeat: false, text: text.map(|t| t.to_string()) }
}

#[test]
fn input_is_told_in_order() {
    let still = ButtonChange { just_pressed: false, just_released: false };
    let input = FrameInput {
        cursor_moved: vec![[1, 1], [2, 2]],
        left: ButtonChange { just_pressed: true, just_released: false },
        right: still,
        middle: ButtonChange { just_pressed: false, just_released: true },
        wheel: vec![[0, 3]],
        keyboard: vec![
            press(None, true, Some("é")),
            press(Some(NamedKey::Enter), true, Some("\r")),
            press(Some(NamedKey::Space), false, Some(" ")),
            press(None, true, Some("")),
            press(None, true, Some("\u{85}")),
        ],
    };
    let mut state = EguiInputState { pointer_pos: [0, 0] };
    let events = state.frame_events(&input, NO_MODIFIERS);
    assert_eq!(state.pointer_pos, [2, 2]);
    assert_eq!(events.len(), 8);
    assert!(matches!(events[0], UiEvent::PointerMoved([1, 1])));
    assert!(matches!(events[1], UiEvent::PointerMoved([2, 2])));
    assert!(matches!(
        events[2],
        UiEvent::PointerButton {
            pos: [2, 2],
            button: PointerButton::Primary,
            pressed: true,
            modifiers: NO_MODIFIERS
        }
    ));
    assert!(matches!(
        events[3],
        UiEvent::PointerButton { button: PointerButton::Middle, pressed: false, .. }
    ));
    assert!(matches!(events[4], UiEvent::MouseWheel { delta: [0, 3], .. }));
    assert!(matches!(&events[5], UiEvent::Text(text) if text == "é"));
    assert!(matches!(events[6], UiEvent::Key { key: NamedKey::Enter, pressed: true, .. }));
    assert!(matches!(events[7], UiEvent::Key { key: NamedKey::Space, pressed: false, .. }));

    let quiet = FrameInput {
        cursor_moved: vec![],
        left: still,
        right: ButtonChange { just_pressed: true, just_released: true },
        middle: still,
        wheel: vec![],
        keyboard: vec![],
    };
    let events = state.frame_events(&quiet, NO_MODIFIERS);
    assert_eq!(events.len(), 1);
    assert!(matches!(
        events[0],
        UiEvent::PointerButton {
            pos: [2, 2],
            button: PointerButton::Secondary,
            pressed: true,
            ..
        }
    ));
}
