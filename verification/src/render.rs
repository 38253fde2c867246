//! Page images on their way to a vision model.

use vstd::prelude::*;

verus! {

/// The PNG file of an image with the given width and height, whose pixels are given row by row with
/// four bytes each: red, green, blue and opacity.
pub uninterp spec fn png_image(width: u32, height: u32, pixels: Seq<u8>) -> Option<Seq<u8>>;

/// The contents of optional bytes.
pub open spec fn optional_bytes(v: Option<Vec<u8>>) -> Option<Seq<u8>> {
    match v {
        Some(bytes) => Some(bytes@),
        None => None,
    }
}

/// `image::RgbaImage::from_raw`, then `image::DynamicImage::write_to` as PNG: the PNG file of an
/// image. Nothing comes back where there are too few bytes for the size, or where the encoder
/// refuses the image; more bytes than the size takes are not accepted. What does come back begins
/// with the signature of PNG files.
#[verifier::external_body]
pub(crate) fn encode_png(width: u32, height: u32, pixels: Vec<u8>) -> (r: Option<Vec<u8>>)
    requires
        pixels@.len() <= width * height * 4,
    ensures
        optional_bytes(r) == png_image(width, height, pixels@),
        pixels@.len() < width * height * 4 ==> r is None,
        r matches Some(bytes) ==> bytes@.len() >= 8 && bytes@.take(8) == seq![
            0x89u8,
            0x50,
            0x4e,
            0x47,
            0x0d,
            0x0a,
            0x1a,
            0x0a,
        ],
{
    let image = image::RgbaImage::from_raw(width, height, pixels)?;
    let mut cursor = std::io::Cursor::new(Vec::new());
    image::DynamicImage::ImageRgba8(image).write_to(&mut cursor, image::ImageFormat::Png).ok()?;
    Some(cursor.into_inner())
}

/// The bytes with the first and the third of every four exchanged.
pub open spec fn swapped(bytes: Seq<u8>) -> Seq<u8> {
    Seq::new(
        bytes.len(),
        |i: int|
            if i / 4 * 4 + 4 > bytes.len() {
                bytes[i]
            } else if i % 4 == 0 {
                bytes[i + 2]
            } else if i % 4 == 2 {
                bytes[i - 2]
            } else {
                bytes[i]
            },
    )
}

/// Turns pixels that begin with blue into pixels that begin with red, or back.
pub fn swap_red_and_blue(bytes: Vec<u8>) -> (r: Vec<u8>)
    ensures
        r@ == swapped(bytes@),
{
    let mut out: Vec<u8> = bytes;
    let size: usize = out.len();
    let mut i: usize = 0;
    while size - i >= 4
        invariant
            i <= size,
            i % 4 == 0,
            size == bytes@.len(),
            out@.len() == size,
            forall|j: int| 0 <= j < i ==> #[trigger] out@[j] == swapped(bytes@)[j],
            forall|j: int| i <= j < size ==> #[trigger] out@[j] == bytes@[j],
        decreases size - i,
    {
        let first: u8 = out[i];
        let third: u8 = out[i + 2];
        out.set(i, third);
        out.set(i + 2, first);
        i += 4;
    }
    assert(out@ =~= swapped(bytes@));
    out
}

/// Exchanging red and blue twice changes nothing.
pub proof fn swapping_twice_changes_nothing(bytes: Seq<u8>)
    ensures
        swapped(swapped(bytes)) == bytes,
{
    assert(swapped(swapped(bytes)) =~= bytes);
}

/// Of every whole pixel the first and the third byte change places, and the second and the fourth
/// stay where they are.
pub proof fn red_and_blue_change_places(bytes: Seq<u8>, pixel: int)
    requires
        0 <= pixel,
        4 * pixel + 4 <= bytes.len(),
    ensures
        swapped(bytes).len() == bytes.len(),
        swapped(bytes)[4 * pixel] == bytes[4 * pixel + 2],
        swapped(bytes)[4 * pixel + 1] == bytes[4 * pixel + 1],
        swapped(bytes)[4 * pixel + 2] == bytes[4 * pixel],
        swapped(bytes)[4 * pixel + 3] == bytes[4 * pixel + 3],
{
}

/// The PNG file of a rendered page, whose pixels begin with blue.
pub fn encode_bitmap(width: u32, height: u32, bytes: Vec<u8>) -> (r: Option<Vec<u8>>)
    requires
        bytes@.len() <= width * height * 4,
    ensures
        optional_bytes(r) == png_image(width, height, swapped(bytes@)),
        bytes@.len() < width * height * 4 ==> r is None,
{
    encode_png(width, height, swap_red_and_blue(bytes))
}

/// Where the PDFium library is looked for.
#[derive(Debug)]
pub enum PdfiumPlace {
    /// In the directory that the user named.
    Named(String),
    /// In the folder of the data directory.
    DataDir,
    /// Beside the program.
    Executable,
    /// In the current directory.
    Current,
}

/// Where the PDFium library is looked for: the user's directory comes first, then the folder in the
/// data directory where there is one, then the directory of the program where it holds the library,
/// and the current directory at the end.
pub fn pdfium_dir(named: Option<String>, in_data: bool, beside: bool) -> (r: PdfiumPlace)
    ensures
        match r {
            PdfiumPlace::Named(dir) => named == Some(dir),
            PdfiumPlace::DataDir => named is None && in_data,
            PdfiumPlace::Executable => named is None && !in_data && beside,
            PdfiumPlace::Current => named is None && !in_data && !beside,
        },
{
    match named {
        Some(dir) => PdfiumPlace::Named(dir),
        None => if in_data {
            PdfiumPlace::DataDir
        } else if beside {
            PdfiumPlace::Executable
        } else {
            PdfiumPlace::Current
        },
    }
}

} // verus!
