use state_visual::error::VisualError;
use state_visual::geometry::is_drawable;
use state_visual::geometry::SCALE;
use state_visual::render::raster;
use state_visual::render::Tone;

fn tone(red: u8, blue: u8) -> Tone {
    Tone { red, blue }
}

#[test]
fn two_by_two_head_fills_four_quadrants() {
    let tones = [tone(10, 11), tone(20, 21), tone(30, 31), tone(40, 41)];
    let bytes = raster(2, &tones).unwrap();
    assert_eq!(bytes.len(), 3 * 8 * 8);
    for y in 0..8usize {
        for x in 0..8usize {
            let expected = tones[(y / 4) * 2 + x / 4];
            let first = 3 * (y * 8 + x);
            assert_eq!(bytes[first], expected.red, "red at {x}, {y}");
            assert_eq!(bytes[first + 1], 0, "green at {x}, {y}");
            assert_eq!(bytes[first + 2], expected.blue, "blue at {x}, {y}");
        }
    }
}

#[test]
fn first_row_of_a_raster() {
    let tones = [tone(1, 2), tone(3, 4), tone(5, 6), tone(7, 8)];
    let bytes = raster(2, &tones).unwrap();
    let row: Vec<u8> = bytes[..24].to_vec();
    assert_eq!(
        row,
        vec![1, 0, 2, 1, 0, 2, 1, 0, 2, 1, 0, 2, 3, 0, 4, 3, 0, 4, 3, 0, 4, 3, 0, 4]
    );
    let fifth: Vec<u8> = bytes[4 * 24..4 * 24 + 3].to_vec();
    assert_eq!(fifth, vec![5, 0, 6]);
}

#[test]
fn three_by_three_head_scales_to_twelve_pixels() {
    let tones: Vec<Tone> = (0..9u8).map(|cell| tone(cell, 100 + cell)).collect();
    let bytes = raster(3, &tones).unwrap();
    assert_eq!(bytes.len(), 3 * 12 * 12);
    let at = |x: usize, y: usize| (bytes[3 * (y * 12 + x)], bytes[3 * (y * 12 + x) + 2]);
    assert_eq!(at(0, 0), (0, 100));
    assert_eq!(at(11, 0), (2, 102));
    assert_eq!(at(4, 7), (4, 104));
    assert_eq!(at(3, 8), (6, 106));
    assert_eq!(at(11, 11), (8, 108));
}

#[test]
fn empty_head_has_an_empty_raster() {
    assert_eq!(raster(0, &[]), Ok(Vec::new()));
}

#[test]
fn tones_must_cover_the_cells() {
    let tones = [tone(0, 0); 3];
    assert_eq!(raster(2, &tones), Err(VisualError::Shape));
    assert_eq!(raster(1, &tones), Err(VisualError::Shape));
    assert_eq!(raster(0, &tones), Err(VisualError::Shape));
}

#[test]
fn picture_too_large_to_hold_is_refused() {
    assert_eq!(raster(0x4000_0000, &[]), Err(VisualError::Geometry));
    assert_eq!(raster(usize::MAX, &[]), Err(VisualError::Geometry));
}

#[test]
fn pictures_up_to_the_width_of_an_image_can_be_held() {
    assert_eq!(SCALE, 4);
    assert!(is_drawable(0));
    assert!(is_drawable(2));
    assert!(is_drawable(64));
    assert!(is_drawable(4096));
    assert!(!is_drawable(0x4000_0000));
    assert!(!is_drawable(usize::MAX));
    // Three bytes for each of the sixteen pixels of each cell.
    let most = ((usize::MAX / 48) as f64).sqrt() as usize;
    assert_eq!(is_drawable(most - 1), most - 1 <= 0x3fff_ffff);
}
