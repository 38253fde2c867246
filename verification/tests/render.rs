use corpus::render::{encode_bitmap, pdfium_dir, swap_red_and_blue, PdfiumPlace};

#[test]
fn pdfium_dir_resolution_order() {
    let overridden = pdfium_dir(Some("/tmp/pdfium-override".to_string()), true, true);
    assert!(matches!(overridden, PdfiumPlace::Named(dir) if dir == "/tmp/pdfium-override"));
    assert!(matches!(pdfium_dir(None, true, true), PdfiumPlace::DataDir));
    assert!(matches!(pdfium_dir(None, false, true), PdfiumPlace::Executable));
    assert!(matches!(pdfium_dir(None, false, false), PdfiumPlace::Current));
}

#[test]
fn colours_change_places() {
    assert_eq!(swap_red_and_blue(vec![1, 2, 3, 4, 5, 6, 7, 8]), vec![3, 2, 1, 4, 7, 6, 5, 8]);
    assert_eq!(swap_red_and_blue(vec![1, 2, 3]), vec![1, 2, 3]);
    let bytes: Vec<u8> = (0..40).collect();
    assert_eq!(swap_red_and_blue(swap_red_and_blue(bytes.clone())), bytes);
}

#[test]
fn a_rendered_page_becomes_a_png_of_its_colours() {
    // Two pixels, blue and red first: the file must hold red and blue.
    let png = encode_bitmap(2, 1, vec![255, 0, 0, 255, 0, 0, 255, 255]).unwrap();
    let image = image::load_from_memory(&png).unwrap().to_rgba8();
    assert_eq!(image.dimensions(), (2, 1));
    assert_eq!(image.get_pixel(0, 0).0, [0, 0, 255, 255]);
    assert_eq!(image.get_pixel(1, 0).0, [255, 0, 0, 255]);
}

#[test]
fn too_few_bytes_make_no_image() {
    assert!(encode_bitmap(2, 1, vec![0; 7]).is_none());
}
