use base64::engine::general_purpose::STANDARD;
use base64::Engine;
use state_visual::encode::heatmap;
use state_visual::encode::png_text;
use state_visual::error::VisualError;
use state_visual::render::raster;
use state_visual::render::Tone;

fn tone(red: u8, blue: u8) -> Tone {
    Tone { red, blue }
}

#[test]
fn text_of_written_bytes_is_their_base64() {
    assert_eq!(png_text(Some(b"hello".to_vec())), Ok("aGVsbG8=".to_string()));
    assert_eq!(png_text(Some(vec![0xfb, 0xff, 0xfe])), Ok("+//+".to_string()));
    assert_eq!(png_text(Some(vec![0])), Ok("AA==".to_string()));
    assert_eq!(png_text(Some(Vec::new())), Ok(String::new()));
}

#[test]
fn nothing_written_is_an_encoding_failure() {
    assert_eq!(png_text(None), Err(VisualError::Encoding));
}

#[test]
fn heatmap_is_a_png_of_the_raster() {
    let tones = [tone(255, 0), tone(0, 255), tone(128, 64), tone(1, 2)];
    let text = heatmap(2, &tones).unwrap();
    let png = STANDARD.decode(&text).unwrap();
    assert_eq!(png[..8], [0x89, b'P', b'N', b'G', 0x0d, 0x0a, 0x1a, 0x0a]);
    let picture = image::load_from_memory(&png).unwrap();
    assert_eq!(picture.color(), image::ColorType::Rgb8);
    let picture = picture.to_rgb8();
    assert_eq!(picture.dimensions(), (8, 8));
    assert_eq!(picture.into_raw(), raster(2, &tones).unwrap());
}

#[test]
fn heatmap_of_a_head_of_sixty_four_rows() {
    let tones: Vec<Tone> = (0..64 * 64u32).map(|cell| tone(cell as u8, (cell >> 4) as u8)).collect();
    let text = heatmap(64, &tones).unwrap();
    let picture = image::load_from_memory(&STANDARD.decode(&text).unwrap()).unwrap().to_rgb8();
    assert_eq!(picture.dimensions(), (256, 256));
    let pixel = picture.get_pixel(4 * 5 + 3, 4 * 9);
    assert_eq!(pixel.0, [(9 * 64 + 5) as u8, 0, ((9 * 64 + 5) >> 4) as u8]);
}

#[test]
fn heatmap_of_the_same_tones_is_the_same_text() {
    let tones = [tone(9, 8), tone(7, 6), tone(5, 4), tone(3, 2)];
    assert_eq!(heatmap(2, &tones), heatmap(2, &tones));
    let other = [tone(9, 8), tone(7, 6), tone(5, 4), tone(3, 3)];
    assert_ne!(heatmap(2, &tones), heatmap(2, &other));
}

#[test]
fn heatmap_fails_as_its_raster_does() {
    assert_eq!(heatmap(2, &[tone(0, 0)]), Err(VisualError::Shape));
    assert_eq!(heatmap(0x4000_0000, &[]), Err(VisualError::Geometry));
}

#[test]
fn picture_without_pixels_cannot_be_encoded() {
    assert_eq!(heatmap(0, &[]), Err(VisualError::Encoding));
}
