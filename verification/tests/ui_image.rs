use fractal_toy::ui_image::{PngFrame, UIImage, UIImageError};

/// The bytes of a PNG file holding `data`, written with the `png` encoder.
fn encode(w: u32, h: u32, color: png::ColorType, depth: png::BitDepth, data: &[u8]) -> Vec<u8> {
    let mut out = Vec::new();
    {
        let mut enc = png::Encoder::new(&mut out, w, h);
        enc.set_color(color);
        enc.set_depth(depth);
        let mut writer = enc.write_header().unwrap();
        writer.write_image_data(data).unwrap();
    }
    out
}

#[test]
fn rgba_png_becomes_an_image() {
    let data = [255u8, 0, 0, 255, 0, 255, 0, 128];
    let bytes = encode(2, 1, png::ColorType::Rgba, png::BitDepth::Eight, &data);
    match UIImage::from_png(&bytes) {
        Ok(img) => {
            assert_eq!((img.width, img.height, img.line_size), (2, 1, 8));
            assert_eq!(img.pixels, data.to_vec());
        }
        Err(e) => panic!("refused: {:?}", e),
    }
}

#[test]
fn rgba_png_keeps_its_rows() {
    let data: Vec<u8> = (0u8..24).collect();
    let bytes = encode(2, 3, png::ColorType::Rgba, png::BitDepth::Eight, &data);
    let img = UIImage::from_png(&bytes).ok().unwrap();
    assert_eq!((img.width, img.height, img.line_size), (2, 3, 8));
    assert_eq!(img.pixels, data);
}

#[test]
fn rgb_png_is_refused() {
    let bytes = encode(1, 1, png::ColorType::Rgb, png::BitDepth::Eight, &[1, 2, 3]);
    assert_eq!(UIImage::from_png(&bytes).err(), Some(UIImageError::NotRgba8(2, 8)));
}

#[test]
fn sixteen_bit_png_is_refused() {
    let bytes = encode(1, 1, png::ColorType::Rgba, png::BitDepth::Sixteen, &[0; 8]);
    assert_eq!(UIImage::from_png(&bytes).err(), Some(UIImageError::NotRgba8(6, 16)));
}

#[test]
fn other_bytes_are_no_image() {
    assert_eq!(UIImage::from_png(b"not a png file").err(), Some(UIImageError::Decode));
    assert_eq!(UIImage::from_png(&[]).err(), Some(UIImageError::Decode));
    // a PNG cut short after its header
    let bytes = encode(4, 4, png::ColorType::Rgba, png::BitDepth::Eight, &[7; 64]);
    assert_eq!(UIImage::from_png(&bytes[..40]).err(), Some(UIImageError::Decode));
}

#[test]
fn frames_are_checked_for_rgba8() {
    let frame = PngFrame { width: 3, height: 2, color_type: 6, bit_depth: 8, line_size: 12, pixels: vec![9; 24] };
    let img = UIImage::from_frame(frame).ok().unwrap();
    assert_eq!((img.width, img.height, img.line_size, img.pixels.len()), (3, 2, 12, 24));
    let gray = PngFrame { width: 1, height: 1, color_type: 0, bit_depth: 8, line_size: 1, pixels: vec![0] };
    assert_eq!(UIImage::from_frame(gray).err(), Some(UIImageError::NotRgba8(0, 8)));
    let palette = PngFrame { width: 1, height: 1, color_type: 3, bit_depth: 4, line_size: 1, pixels: vec![0] };
    assert_eq!(UIImage::from_frame(palette).err(), Some(UIImageError::NotRgba8(3, 4)));
}
