use gametesting::Collider;
use gametesting::Collision;
use gametesting::input::PlayerInput;
use gametesting::input::apply_player_input;
use gametesting::render::blend_alpha_fast;
use gametesting::render::flip_pixels_x_axis;
use gametesting::render::textbox_bytes;

#[test]
fn blend_opaque_overlay_copies_overlay() {
    let src = [10u8, 20, 30, 255];
    let dst = [100u8, 110, 120, 255];
    // alpha 255: each channel is dst * 255 / 255, result fully opaque
    assert_eq!(blend_alpha_fast(&src, &dst), [100, 110, 120, 255]);
}

#[test]
fn blend_transparent_overlay_keeps_source() {
    let src = [10u8, 20, 30, 255];
    let dst = [100u8, 110, 120, 0];
    assert_eq!(blend_alpha_fast(&src, &dst), [10, 20, 30, 255]);
}

#[test]
fn blend_half_alpha_exact_values() {
    let src = [200u8, 0, 50, 255];
    let dst = [100u8, 255, 50, 128];
    // channel = dst*128/255 + src*127/255, each term truncated
    let expected = [
        (100u32 * 128 / 255 + 200u32 * 127 / 255) as u8,
        (255u32 * 128 / 255 + 0u32 * 127 / 255) as u8,
        (50u32 * 128 / 255 + 50u32 * 127 / 255) as u8,
        255u8,
    ];
    assert_eq!(blend_alpha_fast(&src, &dst), expected);
}

#[test]
fn flip_mirrors_rows() {
    // 2x3 pixel buffer: rows swap, bytes within a pixel keep their order.
    let width: usize = 2;
    let height: usize = 3;
    let mut pixels: Vec<u8> = (0u8..(width * height * 4) as u8).collect();
    let untouched = pixels.clone();
    flip_pixels_x_axis(&mut pixels, width, height);
    for y in 0..height {
        for x in 0..width {
            for c in 0..4 {
                assert_eq!(
                    pixels[(y * width + x) * 4 + c],
                    untouched[((height - 1 - y) * width + x) * 4 + c]
                );
            }
        }
    }
    // flipping twice restores the buffer
    flip_pixels_x_axis(&mut pixels, width, height);
    assert_eq!(pixels, untouched);
}

#[test]
fn flip_leaves_tail_of_longer_buffer() {
    // A buffer longer than the pixel grid: the prefix flips, the tail
    // stays byte for byte.
    let width: usize = 2;
    let height: usize = 2;
    let mut pixels: Vec<u8> = (0u8..20).collect();
    let untouched = pixels.clone();
    flip_pixels_x_axis(&mut pixels, width, height);
    for y in 0..height {
        for x in 0..width {
            for c in 0..4 {
                assert_eq!(
                    pixels[(y * width + x) * 4 + c],
                    untouched[((height - 1 - y) * width + x) * 4 + c]
                );
            }
        }
    }
    assert_eq!(&pixels[16..], &untouched[16..]);
}

fn grounded_collider(side: Option<Collision>) -> Collider {
    Collider {
        sticky: false,
        rigid_body: true,
        active: true,
        collision: true,
        boundary: (0, 0, 160000, 160000),
        vel_x: 0,
        vel_y: 0,
        grounded: side,
    }
}

fn no_input() -> PlayerInput {
    PlayerInput {
        left_held: false,
        left_released: false,
        right_held: false,
        right_released: false,
        up_pressed: false,
        down_held: false,
    }
}

#[test]
fn walking_sets_velocity_and_facing() {
    let mut c = grounded_collider(None);
    let mut input = no_input();
    input.left_held = true;
    assert_eq!(apply_player_input(&mut c, input), Some(true));
    assert_eq!(c.vel_x, -100);
    let mut input = no_input();
    input.right_held = true;
    assert_eq!(apply_player_input(&mut c, input), Some(false));
    assert_eq!(c.vel_x, 100);
    let mut input = no_input();
    input.right_released = true;
    assert_eq!(apply_player_input(&mut c, input), None);
    assert_eq!(c.vel_x, 0);
}

#[test]
fn jump_from_ground_and_wall() {
    let mut c = grounded_collider(Some(Collision::Down));
    let mut input = no_input();
    input.up_pressed = true;
    apply_player_input(&mut c, input);
    assert_eq!(c.vel_y, 1000);
    let mut c = grounded_collider(Some(Collision::Left));
    apply_player_input(&mut c, input);
    assert_eq!(c.vel_y, 700);
    assert_eq!(c.vel_x, 5000);
    let mut c = grounded_collider(Some(Collision::Right));
    apply_player_input(&mut c, input);
    assert_eq!(c.vel_y, 700);
    assert_eq!(c.vel_x, -5000);
}

#[test]
fn dive_overrides_vertical_velocity() {
    let mut c = grounded_collider(None);
    let mut input = no_input();
    input.down_held = true;
    apply_player_input(&mut c, input);
    assert_eq!(c.vel_y, -1000);
}

#[test]
fn textbox_dimensions_and_border() {
    // A one-character text over an opaque glyph sheet: a 4-pixel cell plus
    // the border pixel, nine rows high, with transparent corners and an
    // opaque glyph interior.
    let image_width: u32 = 3;
    let lookup = vec![255u8; (126 - 32) * 12 + 6 * 4 * image_width as usize + 12];
    let text = vec![65u8];
    let (bytes, width, height) = textbox_bytes(&lookup, image_width, &text);
    assert_eq!(width, 5);
    assert_eq!(height, 9);
    assert_eq!(bytes.len(), (width * height * 4) as usize);
    // corner of the frame is fully transparent
    assert_eq!(&bytes[0..4], &[0, 0, 0, 0]);
    // edge of the frame is grey
    assert_eq!(&bytes[4..8], &[120, 120, 120, 255]);
    // first interior pixel sits on an opaque glyph byte: black text
    let interior = ((width + 1) * 4) as usize;
    assert_eq!(&bytes[interior..interior + 4], &[0, 0, 0, 255]);
}

#[test]
fn textbox_empty_text_is_border_only() {
    let image_width: u32 = 3;
    let lookup = vec![0u8; (126 - 32) * 12 + 6 * 4 * image_width as usize + 12];
    let text: Vec<u8> = Vec::new();
    let (bytes, width, height) = textbox_bytes(&lookup, image_width, &text);
    assert_eq!(width, 1);
    assert_eq!(height, 9);
    assert_eq!(bytes.len(), (width * height * 4) as usize);
}

#[test]
fn textbox_two_lines_pad_to_widest() {
    let image_width: u32 = 4;
    let lookup = vec![0u8; (126 - 32) * 12 + 6 * 4 * image_width as usize + 12];
    // "HI\nA": widest line has two cells, so eight pixels plus the border
    let text = vec![72u8, 73, 10, 65];
    let (bytes, width, height) = textbox_bytes(&lookup, image_width, &text);
    assert_eq!(width, 9);
    assert_eq!(height, 2 + 7 * 2);
    assert_eq!(bytes.len(), (width * height * 4) as usize);
}
