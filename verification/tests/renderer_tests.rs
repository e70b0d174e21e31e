use video_effects_processor::renderer::{
    composite_cursor_subpixel, load_cursor_sprite, sample_bilinear_fast, sprite_from_rgba,
    CursorSprite, SpriteError,
};

const PX: i64 = 65536;

fn two_by_two() -> CursorSprite {
    CursorSprite {
        data: vec![
            10, 20, 30, 40, 50, 60, 70, 80, // first row
            90, 100, 110, 120, 130, 140, 150, 160, // second row
        ],
        width: 2,
        height: 2,
    }
}

fn solid(width: u32, height: u32, rgba: [u8; 4]) -> CursorSprite {
    let mut data = Vec::new();
    for _ in 0..(width * height) {
        data.extend_from_slice(&rgba);
    }
    CursorSprite {
        data,
        width,
        height,
    }
}

#[test]
fn sprite_from_exact_data() {
    match sprite_from_rgba(vec![1, 2, 3, 4, 5, 6, 7, 8], 2, 1) {
        Ok(sprite) => {
            assert_eq!(sprite.data, vec![1, 2, 3, 4, 5, 6, 7, 8]);
            assert_eq!((sprite.width, sprite.height), (2, 1));
        }
        Err(e) => panic!("refused: {:?}", e),
    }
}

#[test]
fn sprite_from_longer_data_drops_the_rest() {
    match sprite_from_rgba(vec![1, 2, 3, 4, 5, 6, 7, 8, 9], 1, 2) {
        Ok(sprite) => assert_eq!(sprite.data, vec![1, 2, 3, 4, 5, 6, 7, 8]),
        Err(e) => panic!("refused: {:?}", e),
    }
}

#[test]
fn sprite_from_short_data_is_refused() {
    assert!(matches!(
        sprite_from_rgba(vec![1, 2, 3, 4, 5, 6, 7], 2, 1),
        Err(SpriteError::TooShort)
    ));
    assert!(matches!(
        sprite_from_rgba(Vec::new(), u32::MAX, u32::MAX),
        Err(SpriteError::TooShort)
    ));
}

#[test]
fn sprite_without_pixels_is_empty() {
    match sprite_from_rgba(vec![1, 2, 3], 0, 7) {
        Ok(sprite) => {
            assert!(sprite.data.is_empty());
            assert_eq!((sprite.width, sprite.height), (0, 7));
        }
        Err(e) => panic!("refused: {:?}", e),
    }
}

#[test]
fn sprite_is_decoded_from_an_encoded_image() {
    let mut img = image::RgbaImage::new(3, 2);
    for y in 0..2u32 {
        for x in 0..3u32 {
            let v = (y * 3 + x) as u8;
            img.put_pixel(x, y, image::Rgba([v * 10, v * 10 + 1, v * 10 + 2, 255 - v]));
        }
    }
    let mut encoded: Vec<u8> = Vec::new();
    image::DynamicImage::ImageRgba8(img)
        .write_to(&mut std::io::Cursor::new(&mut encoded), image::ImageFormat::Png)
        .unwrap();
    match load_cursor_sprite(&encoded) {
        Ok(sprite) => {
            assert_eq!((sprite.width, sprite.height), (3, 2));
            assert_eq!(
                sprite.data,
                vec![
                    0, 1, 2, 255, 10, 11, 12, 254, 20, 21, 22, 253, 30, 31, 32, 252, 40, 41, 42,
                    251, 50, 51, 52, 250
                ]
            );
            assert_ne!(sprite.data, encoded);
        }
        Err(e) => panic!("refused: {:?}", e),
    }
}

#[test]
fn sprite_of_an_image_without_alpha_is_opaque() {
    let mut img = image::RgbImage::new(1, 2);
    img.put_pixel(0, 0, image::Rgb([1, 2, 3]));
    img.put_pixel(0, 1, image::Rgb([4, 5, 6]));
    let mut encoded: Vec<u8> = Vec::new();
    image::DynamicImage::ImageRgb8(img)
        .write_to(&mut std::io::Cursor::new(&mut encoded), image::ImageFormat::Bmp)
        .unwrap();
    match load_cursor_sprite(&encoded) {
        Ok(sprite) => {
            assert_eq!((sprite.width, sprite.height), (1, 2));
            assert_eq!(sprite.data, vec![1, 2, 3, 255, 4, 5, 6, 255]);
        }
        Err(e) => panic!("refused: {:?}", e),
    }
}

#[test]
fn bytes_that_are_no_image_are_refused() {
    assert!(matches!(
        load_cursor_sprite(&[1, 2, 3, 4, 5]),
        Err(SpriteError::Undecodable)
    ));
    assert!(matches!(load_cursor_sprite(&[]), Err(SpriteError::Undecodable)));
}

#[test]
fn sample_at_a_texel_centre_is_the_texel() {
    let sprite = two_by_two();
    assert_eq!(sample_bilinear_fast(&sprite, 0, 0), Some((10, 20, 30, 40)));
    assert_eq!(sample_bilinear_fast(&sprite, PX, 0), Some((50, 60, 70, 80)));
    assert_eq!(sample_bilinear_fast(&sprite, 0, PX), Some((90, 100, 110, 120)));
    assert_eq!(sample_bilinear_fast(&sprite, PX, PX), Some((130, 140, 150, 160)));
}

#[test]
fn sample_between_texels_weighs_the_four_around() {
    let sprite = two_by_two();
    // A quarter of the way right and half the way down.
    assert_eq!(
        sample_bilinear_fast(&sprite, PX / 4, PX / 2),
        Some((60, 70, 80, 90))
    );
    assert_eq!(sample_bilinear_fast(&sprite, PX / 2, 0), Some((30, 40, 50, 60)));
    // Rounded down: 10 + 40 / 65536 of the way to 50.
    assert_eq!(sample_bilinear_fast(&sprite, 1, 0), Some((10, 20, 30, 40)));
    assert_eq!(sample_bilinear_fast(&sprite, PX - 1, 0), Some((49, 59, 69, 79)));
}

#[test]
fn sample_reaches_half_a_texel_beyond_the_outer_centres() {
    let sprite = two_by_two();
    assert_eq!(sample_bilinear_fast(&sprite, -PX / 2, 0), Some((10, 20, 30, 40)));
    assert_eq!(sample_bilinear_fast(&sprite, -PX / 2, -PX / 2), Some((10, 20, 30, 40)));
    assert_eq!(sample_bilinear_fast(&sprite, -PX / 2 - 1, 0), None);
    assert_eq!(sample_bilinear_fast(&sprite, 0, -PX / 2 - 1), None);
    assert_eq!(
        sample_bilinear_fast(&sprite, 3 * PX / 2 - 1, 0),
        Some((50, 60, 70, 80))
    );
    // Half a texel beyond the last centre is still inside, on both axes.
    assert_eq!(sample_bilinear_fast(&sprite, 3 * PX / 2, 0), Some((50, 60, 70, 80)));
    assert_eq!(sample_bilinear_fast(&sprite, 0, 3 * PX / 2), Some((90, 100, 110, 120)));
    assert_eq!(
        sample_bilinear_fast(&sprite, 3 * PX / 2, 3 * PX / 2),
        Some((130, 140, 150, 160))
    );
    assert_eq!(sample_bilinear_fast(&sprite, 3 * PX / 2 + 1, 0), None);
    assert_eq!(sample_bilinear_fast(&sprite, 0, 3 * PX / 2 + 1), None);
    assert_eq!(sample_bilinear_fast(&sprite, i64::MAX, 0), None);
    assert_eq!(sample_bilinear_fast(&sprite, 0, i64::MIN), None);
}

#[test]
fn sample_of_an_empty_sprite_is_nothing() {
    let sprite = CursorSprite {
        data: Vec::new(),
        width: 0,
        height: 5,
    };
    assert_eq!(sample_bilinear_fast(&sprite, 0, 0), None);
    assert_eq!(sample_bilinear_fast(&sprite, -PX / 2, -PX / 2), None);
}

#[test]
fn composite_blends_the_colour_bytes_and_keeps_alpha() {
    let sprite = two_by_two();
    // One pixel of a frame, placed so that it samples (0.25, 0.5).
    let mut frame = vec![200, 100, 0, 77];
    composite_cursor_subpixel(&mut frame, 1, 1, 4, &sprite, -PX / 4, -PX / 2);
    // The sample is (60, 70, 80) with alpha 90 of 255.
    assert_eq!(frame, vec![150, 89, 28, 77]);
}

#[test]
fn composite_with_full_alpha_copies_the_colour() {
    let sprite = solid(1, 1, [9, 8, 7, 255]);
    let mut frame = vec![1, 2, 3, 4, 5, 6, 7, 8];
    composite_cursor_subpixel(&mut frame, 2, 1, 8, &sprite, PX, 0);
    assert_eq!(frame, vec![1, 2, 3, 4, 9, 8, 7, 8]);
}

#[test]
fn composite_with_no_alpha_changes_nothing() {
    let sprite = solid(2, 2, [9, 8, 7, 0]);
    let mut frame = vec![1, 2, 3, 4, 5, 6, 7, 8];
    composite_cursor_subpixel(&mut frame, 2, 1, 8, &sprite, 0, 0);
    assert_eq!(frame, vec![1, 2, 3, 4, 5, 6, 7, 8]);
}

#[test]
fn composite_respects_the_stride() {
    let sprite = solid(1, 1, [255, 255, 255, 255]);
    // Two rows of one pixel, each followed by three bytes of padding.
    let mut frame = vec![0, 0, 0, 0, 1, 2, 3, 0, 0, 0, 0, 4, 5, 6];
    composite_cursor_subpixel(&mut frame, 1, 2, 7, &sprite, 0, PX);
    assert_eq!(frame, vec![0, 0, 0, 0, 1, 2, 3, 255, 255, 255, 0, 4, 5, 6]);
}

#[test]
fn composite_never_writes_beyond_the_buffer() {
    let sprite = solid(4, 4, [255, 255, 255, 255]);
    // The frame claims three rows, the buffer holds two and a half.
    let mut frame = vec![0u8; 20];
    composite_cursor_subpixel(&mut frame, 2, 3, 8, &sprite, 0, 0);
    let mut expected = vec![0u8; 20];
    for i in 0..16 {
        if i % 4 != 3 {
            expected[i] = 255;
        }
    }
    assert_eq!(frame, expected);
    let mut nothing: Vec<u8> = Vec::new();
    composite_cursor_subpixel(&mut nothing, 2, 3, 8, &sprite, 0, 0);
    assert!(nothing.is_empty());
    let mut no_stride = vec![7u8; 8];
    composite_cursor_subpixel(&mut no_stride, 2, 1, 0, &sprite, 0, 0);
    assert_eq!(no_stride, vec![7u8; 8]);
    let mut narrow_stride = vec![7u8; 8];
    composite_cursor_subpixel(&mut narrow_stride, 2, 1, 3, &sprite, 0, 0);
    assert_eq!(narrow_stride, vec![7u8; 8]);
}

#[test]
fn composite_far_from_the_frame_changes_nothing() {
    let sprite = solid(4, 4, [255, 255, 255, 255]);
    for (x, y) in [
        (-5 * PX, 0),
        (0, -5 * PX),
        (3 * PX, 0),
        (0, 3 * PX),
        (i64::MIN, i64::MAX),
        (i64::MAX, i64::MIN),
    ] {
        let mut frame = vec![9u8; 16];
        composite_cursor_subpixel(&mut frame, 2, 2, 8, &sprite, x, y);
        assert_eq!(frame, vec![9u8; 16]);
    }
}

#[test]
fn sprite_at_the_corner_covers_the_half_inside_the_frame() {
    // 32 x 32 sprite with its top left corner 16.5 pixels from the right
    // and lower edges of a frame of 1920 x 1080.
    let sprite = solid(32, 32, [255, 255, 255, 255]);
    let width: usize = 1920;
    let height: usize = 1080;
    let stride = width * 4;
    let mut frame = vec![0u8; stride * height + 64];
    let x = (width as i64) * PX - 33 * PX / 2;
    let y = (height as i64) * PX - 33 * PX / 2;
    composite_cursor_subpixel(&mut frame, width as u32, height as u32, stride, &sprite, x, y);
    let mut changed = 0usize;
    for row in 0..height {
        for col in 0..width {
            let at = row * stride + col * 4;
            let inside = col >= width - 17 && row >= height - 17;
            let expected = if inside { 255 } else { 0 };
            assert_eq!(frame[at], expected);
            assert_eq!(frame[at + 1], expected);
            assert_eq!(frame[at + 2], expected);
            assert_eq!(frame[at + 3], 0);
            if inside {
                changed += 1;
            }
        }
    }
    assert_eq!(changed, 17 * 17);
    for &byte in &frame[stride * height..] {
        assert_eq!(byte, 0);
    }
}

#[test]
fn well_formed_sprites_hold_four_bytes_for_each_pixel() {
    assert!(two_by_two().is_well_formed());
    assert!(solid(0, 0, [0, 0, 0, 0]).is_well_formed());
    let short = CursorSprite {
        data: vec![0; 15],
        width: 2,
        height: 2,
    };
    assert!(!short.is_well_formed());
    let long = CursorSprite {
        data: vec![0; 17],
        width: 2,
        height: 2,
    };
    assert!(!long.is_well_formed());
    let huge = CursorSprite {
        data: Vec::new(),
        width: u32::MAX,
        height: u32::MAX,
    };
    assert!(!huge.is_well_formed());
}

#[test]
fn composite_draws_on_the_pixel_half_a_texel_beyond_the_sprite() {
    // A sprite of one texel placed half a pixel to the left of the frame's
    // first pixel: the pixel samples the sprite at its right edge.
    let sprite = solid(1, 1, [9, 8, 7, 255]);
    let mut frame = vec![1, 2, 3, 4, 5, 6, 7, 8];
    composite_cursor_subpixel(&mut frame, 2, 1, 8, &sprite, -PX / 2, 0);
    assert_eq!(frame, vec![9, 8, 7, 4, 5, 6, 7, 8]);
    let mut frame = vec![1, 2, 3, 4, 5, 6, 7, 8];
    composite_cursor_subpixel(&mut frame, 2, 1, 8, &sprite, -PX / 2 - 1, 0);
    assert_eq!(frame, vec![1, 2, 3, 4, 5, 6, 7, 8]);
    // Half a pixel to the right, the first two pixels both reach it.
    let mut frame = vec![1, 2, 3, 4, 5, 6, 7, 8];
    composite_cursor_subpixel(&mut frame, 2, 1, 8, &sprite, PX / 2, 0);
    assert_eq!(frame, vec![9, 8, 7, 4, 9, 8, 7, 8]);
}
