use baseline_jpeg::frame::{Component, FrameHeader};
use baseline_jpeg::raster::{assemble, ycbcr_to_rgb};

fn component(id: u8, h: u8, v: u8) -> Component {
    Component { id, h_factor: h, v_factor: v, qt_index: 0 }
}

#[test]
fn grey_stays_grey() {
    assert_eq!(ycbcr_to_rgb(0, 128, 128), (0, 0, 0));
    assert_eq!(ycbcr_to_rgb(128, 128, 128), (128, 128, 128));
    assert_eq!(ycbcr_to_rgb(255, 128, 128), (255, 255, 255));
    assert_eq!(ycbcr_to_rgb(77, 128, 128), (77, 77, 77));
}

#[test]
fn primary_colours_convert_exactly() {
    assert_eq!(ycbcr_to_rgb(76, 85, 255), (254, 0, 0));
    assert_eq!(ycbcr_to_rgb(29, 255, 107), (0, 0, 254));
    assert_eq!(ycbcr_to_rgb(150, 44, 21), (0, 255, 1));
}

#[test]
fn conversion_rounds_to_nearest() {
    // 1.402 * 1 = 1.402 -> 1; 0.344136 + 0.714136 = 1.058 -> 1; 1.772 -> 2
    assert_eq!(ycbcr_to_rgb(100, 129, 129), (101, 99, 102));
    assert_eq!(ycbcr_to_rgb(100, 127, 127), (99, 101, 98));
    // 1.402 * 10 = 14.02; 0.714136 * 10 = 7.14; 1.772 * -10 = -17.72; 0.344136 * -10 = -3.44
    assert_eq!(ycbcr_to_rgb(100, 118, 138), (114, 96, 82));
}

#[test]
fn conversion_clamps_to_the_sample_range() {
    assert_eq!(ycbcr_to_rgb(255, 255, 255), (255, 121, 255));
    assert_eq!(ycbcr_to_rgb(0, 0, 0), (0, 135, 0));
    assert_eq!(ycbcr_to_rgb(255, 0, 0), (76, 255, 28));
    assert_eq!(ycbcr_to_rgb(0, 255, 255), (178, 0, 225));
}

#[test]
fn single_component_is_copied() {
    let frame = FrameHeader::new(8, 8, vec![component(1, 1, 1)]).unwrap();
    let samples: Vec<u8> = (0..64).collect();
    let image = assemble(&frame, &samples).unwrap();
    assert_eq!((image.width(), image.height(), image.channels()), (8, 8, 1));
    assert_eq!(image.samples(), &samples);
}

#[test]
fn image_is_cropped_to_the_frame() {
    let frame = FrameHeader::new(10, 7, vec![component(1, 1, 1)]).unwrap();
    let mut samples: Vec<u8> = (0..64).collect();
    samples.extend(100..164);
    let image = assemble(&frame, &samples).unwrap();
    assert_eq!((image.width(), image.height(), image.channels()), (10, 7, 1));
    assert_eq!(image.samples().len(), 70);
    assert_eq!(image.get(0, 0, 0), Some(0));
    assert_eq!(image.get(7, 0, 0), Some(7));
    assert_eq!(image.get(8, 0, 0), Some(100));
    assert_eq!(image.get(9, 6, 0), Some(149));
    assert_eq!(image.get(3, 6, 0), Some(51));
}

#[test]
fn blocks_follow_each_other_row_by_row() {
    let frame = FrameHeader::new(16, 16, vec![component(1, 1, 1)]).unwrap();
    let mut samples = Vec::new();
    for block in 0..4u8 {
        samples.extend(std::iter::repeat(10 * (block + 1)).take(64));
    }
    let image = assemble(&frame, &samples).unwrap();
    assert_eq!(image.get(0, 0, 0), Some(10));
    assert_eq!(image.get(8, 0, 0), Some(20));
    assert_eq!(image.get(7, 8, 0), Some(30));
    assert_eq!(image.get(15, 15, 0), Some(40));
}

#[test]
fn subsampled_component_is_replicated() {
    let frame = FrameHeader::new(16, 16, vec![component(1, 2, 2), component(2, 1, 1)]).unwrap();
    let mut samples = Vec::new();
    for block in 0..4u8 {
        samples.extend(std::iter::repeat(block + 1).take(64));
    }
    samples.extend(0..64);
    let image = assemble(&frame, &samples).unwrap();
    assert_eq!((image.width(), image.height(), image.channels()), (16, 16, 2));
    for y in 0..16usize {
        for x in 0..16usize {
            let quadrant = 1 + (x / 8) + 2 * (y / 8);
            assert_eq!(image.get(x, y, 0), Some(quadrant as u8));
            assert_eq!(image.get(x, y, 1), Some((8 * (y / 2) + x / 2) as u8));
        }
    }
}

#[test]
fn horizontally_subsampled_colour_is_converted() {
    let frame = FrameHeader::new(
        16,
        8,
        vec![component(1, 2, 1), component(2, 1, 1), component(3, 1, 1)],
    )
    .unwrap();
    let mut samples = Vec::new();
    samples.extend(std::iter::repeat(76u8).take(64));
    samples.extend(std::iter::repeat(29u8).take(64));
    let mut cb = [85u8; 64];
    let mut cr = [255u8; 64];
    for row in 0..8 {
        for col in 4..8 {
            cb[8 * row + col] = 255;
            cr[8 * row + col] = 107;
        }
    }
    samples.extend(cb);
    samples.extend(cr);
    let image = assemble(&frame, &samples).unwrap();
    assert_eq!((image.width(), image.height(), image.channels()), (16, 8, 3));
    for y in 0..8usize {
        for x in 0..16usize {
            let expected = if x < 8 { [254, 0, 0] } else { [0, 0, 254] };
            for c in 0..3 {
                assert_eq!(image.get(x, y, c), Some(expected[c]));
            }
        }
    }
}

#[test]
fn units_interleave_their_components() {
    let frame = FrameHeader::new(
        32,
        8,
        vec![component(1, 2, 1), component(2, 1, 1), component(3, 1, 1), component(4, 1, 1)],
    )
    .unwrap();
    let mut samples = Vec::new();
    for block in 0..10u8 {
        samples.extend(std::iter::repeat(block).take(64));
    }
    let image = assemble(&frame, &samples).unwrap();
    assert_eq!(image.channels(), 4);
    let pixel = |x: usize| -> Vec<u8> { (0..4).map(|c| image.get(x, 3, c).unwrap()).collect() };
    assert_eq!(pixel(0), vec![0, 2, 3, 4]);
    assert_eq!(pixel(8), vec![1, 2, 3, 4]);
    assert_eq!(pixel(16), vec![5, 7, 8, 9]);
    assert_eq!(pixel(31), vec![6, 7, 8, 9]);
}

#[test]
fn odd_sampling_ratio_maps_by_integer_division() {
    let frame = FrameHeader::new(24, 8, vec![component(1, 3, 1), component(2, 2, 1)]).unwrap();
    let mut samples = vec![0u8; 3 * 64];
    let mut first = [0u8; 64];
    let mut second = [0u8; 64];
    for col in 0..8 {
        first[col] = col as u8;
        second[col] = 8 + col as u8;
    }
    samples.extend(first);
    samples.extend(second);
    let image = assemble(&frame, &samples).unwrap();
    for x in 0..24usize {
        assert_eq!(image.get(x, 0, 1), Some((x * 2 / 3) as u8));
    }
}
