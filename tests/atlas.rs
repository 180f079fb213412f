use rusty_atlas::atlas_maker::{build, Atlas, BuildError, MismatchReason, SourceImage};

fn solid(side: usize, pixel: [u8; 4]) -> SourceImage {
    let mut pixels = Vec::new();
    for _ in 0..side * side {
        pixels.extend_from_slice(&pixel);
    }
    SourceImage { width: side, height: side, pixels }
}

/// An image whose byte at (row, byte) is `tag * 64 + row * 16 + byte`, all distinct.
fn tagged(side: usize, tag: u8) -> SourceImage {
    let mut pixels = Vec::new();
    for r in 0..side {
        for b in 0..side * 4 {
            pixels.push(tag * 64 + (r as u8) * 16 + b as u8);
        }
    }
    SourceImage { width: side, height: side, pixels }
}

fn row(atlas: &Atlas, r: usize) -> Vec<u8> {
    let stride = atlas.width * 4;
    atlas.buffer[r * stride..(r + 1) * stride].to_vec()
}

fn image_row(img: &SourceImage, r: usize) -> Vec<u8> {
    let stride = img.width * 4;
    img.pixels[r * stride..(r + 1) * stride].to_vec()
}

const RED: [u8; 4] = [0xFF, 0x00, 0x00, 0x00];
const GREEN: [u8; 4] = [0x00, 0xFF, 0x00, 0x00];

#[test]
fn two_square_images_tile_side_by_side() {
    let images = vec![solid(2, RED), solid(2, GREEN)];
    let atlas = build(&images, Some(2)).unwrap();
    assert_eq!(atlas.width, 4);
    assert_eq!(atlas.height, 2);
    assert_eq!(atlas.buffer.len(), 32);
    let expected: Vec<u8> = [RED, RED, GREEN, GREEN].concat();
    assert_eq!(row(&atlas, 0), expected);
    assert_eq!(row(&atlas, 1), expected);
}

#[test]
fn empty_input_without_height_is_refused() {
    let images: Vec<SourceImage> = Vec::new();
    assert_eq!(build(&images, None).err(), Some(BuildError::EmptyInput));
}

#[test]
fn empty_input_with_height_gives_empty_atlas() {
    let images: Vec<SourceImage> = Vec::new();
    let atlas = build(&images, Some(8)).unwrap();
    assert_eq!(atlas.width, 0);
    assert_eq!(atlas.height, 8);
    assert!(atlas.buffer.is_empty());
}

#[test]
fn smaller_image_is_a_height_mismatch() {
    let images = vec![solid(16, RED)];
    assert_eq!(
        build(&images, Some(32)).err(),
        Some(BuildError::DimensionMismatch {
            index: 0,
            reason: MismatchReason::HeightMismatch { expected: 32, got: 16 },
        })
    );
}

#[test]
fn height_defaults_to_first_image() {
    let images = vec![solid(3, RED), solid(2, GREEN)];
    assert_eq!(
        build(&images, None).err(),
        Some(BuildError::DimensionMismatch {
            index: 1,
            reason: MismatchReason::HeightMismatch { expected: 3, got: 2 },
        })
    );
}

#[test]
fn non_square_image_is_refused() {
    let img = SourceImage { width: 3, height: 2, pixels: vec![0; 24] };
    assert_eq!(
        build(&vec![img], Some(2)).err(),
        Some(BuildError::DimensionMismatch {
            index: 0,
            reason: MismatchReason::NotSquare { width: 3, height: 2 },
        })
    );
}

#[test]
fn short_buffer_is_refused() {
    let img = SourceImage { width: 2, height: 2, pixels: vec![0; 15] };
    assert_eq!(
        build(&vec![img], Some(2)).err(),
        Some(BuildError::DimensionMismatch {
            index: 0,
            reason: MismatchReason::BufferLength { width: 2, height: 2, got: 15 },
        })
    );
}

#[test]
fn refused_append_leaves_atlas_unchanged() {
    let mut atlas = Atlas::new(2);
    atlas.append(&tagged(2, 1)).unwrap();
    let before = atlas.buffer.clone();
    let result = atlas.append(&solid(3, GREEN));
    assert_eq!(result, Err(MismatchReason::HeightMismatch { expected: 2, got: 3 }));
    assert_eq!(atlas.buffer, before);
    assert_eq!(atlas.width, 2);
    assert_eq!(atlas.height, 2);
}

#[test]
fn input_order_decides_placement() {
    let a = tagged(2, 1);
    let b = tagged(2, 2);
    let ab = build(&vec![tagged(2, 1), tagged(2, 2)], None).unwrap();
    let ba = build(&vec![tagged(2, 2), tagged(2, 1)], None).unwrap();
    assert_eq!(row(&ab, 0), [image_row(&a, 0), image_row(&b, 0)].concat());
    assert_eq!(row(&ba, 0), [image_row(&b, 0), image_row(&a, 0)].concat());
    assert_ne!(ab.buffer, ba.buffer);
}

#[test]
fn widths_accumulate() {
    let images = vec![tagged(3, 0), tagged(3, 1), tagged(3, 2)];
    let atlas = build(&images, None).unwrap();
    assert_eq!(atlas.width, 9);
    assert_eq!(atlas.buffer.len(), 9 * 3 * 4);
}

#[test]
fn each_row_holds_only_that_row() {
    let images = vec![tagged(3, 0), tagged(3, 1), tagged(3, 2)];
    let atlas = build(&images, None).unwrap();
    for r in 0..3 {
        let expected: Vec<u8> = images.iter().flat_map(|img| image_row(img, r)).collect();
        assert_eq!(row(&atlas, r), expected);
    }
}

#[test]
fn length_matches_size_after_every_append() {
    let mut atlas = Atlas::new(4);
    for tag in 0..3u8 {
        atlas.append(&tagged(4, tag)).unwrap();
        assert_eq!(atlas.buffer.len(), atlas.width * atlas.height * 4);
    }
    assert_eq!(atlas.width, 12);
}

#[test]
fn append_image_buffer_takes_a_square_buffer() {
    let mut atlas = Atlas::new(1);
    atlas.append_image_buffer(vec![1, 2, 3, 4], 1).unwrap();
    atlas.append_image_buffer(vec![5, 6, 7, 8], 1).unwrap();
    assert_eq!(atlas.buffer, vec![1, 2, 3, 4, 5, 6, 7, 8]);
    assert_eq!(atlas.width, 2);
    assert_eq!(
        atlas.append_image_buffer(vec![0; 16], 2),
        Err(MismatchReason::HeightMismatch { expected: 1, got: 2 })
    );
    assert_eq!(
        atlas.append_image_buffer(vec![0; 3], 1),
        Err(MismatchReason::BufferLength { width: 1, height: 1, got: 3 })
    );
}

#[test]
fn height_mismatch_names_index_and_reason() {
    let images = vec![solid(16, RED)];
    match build(&images, Some(32)) {
        Err(BuildError::DimensionMismatch { index, reason }) => {
            assert_eq!(index, 0);
            assert_eq!(reason.message(), "height mismatch: expected 32, got 16");
        }
        _ => panic!("expected a dimension mismatch"),
    }
}

#[test]
fn reason_messages() {
    assert_eq!(MismatchReason::NotSquare { width: 3, height: 2 }.message(), "not square: width 3, height 2");
    assert_eq!(
        MismatchReason::BufferLength { width: 2, height: 2, got: 15 }.message(),
        "buffer length mismatch: 2x2 image, got 15 bytes"
    );
    assert_eq!(
        MismatchReason::HeightMismatch { expected: 1000, got: 0 }.message(),
        "height mismatch: expected 1000, got 0"
    );
}
