//! Boundary to the image decoder. The core never parses container formats
//! itself: raw bytes enter here together with their declared container
//! format, and a plain pixel grid comes out.
use vstd::prelude::*;

use crate::grid::{GridView, PixelGrid};
use crate::Error;

verus! {

/// The container format an upload declares for its raw bytes. Decoding is
/// pinned to the declared format; the bytes are never asked to identify
/// themselves.
#[derive(Clone, Copy, Debug, PartialEq, Eq, Structural)]
pub enum DeclaredFormat {
    Png,
    Jpeg,
}

/// The pixel grid that decoding a byte string under a declared format
/// yields, or `None` when the bytes do not decode as that format. Decoding
/// is a function of the bytes and the declared format alone.
pub uninterp spec fn decoded_of(bytes: Seq<u8>, format: DeclaredFormat) -> Option<GridView>;

/// Relies on image::load_from_memory_with_format and
/// image::DynamicImage::to_luma8: decoding under a built-in format either
/// fails or yields a grayscale buffer holding exactly width * height
/// samples, with each dimension measured in u32. The format is handed in as
/// a built-in image::ImageFormat, which image's reader dispatches to its own
/// fixed decoder — never through its runtime-registerable hook registries,
/// and with fixed default limits — so the outcome is a function of the bytes
/// and the declared format alone.
#[verifier::external_body]
pub(crate) fn decode_image(bytes: &[u8], format: DeclaredFormat) -> (r: Result<PixelGrid, Error>)
    ensures
        match r {
            Ok(g) => decoded_of(bytes@, format) == Some(g@) && g.wf() && g@.width <= u32::MAX
                && g@.height <= u32::MAX,
            Err(e) => decoded_of(bytes@, format) is None && e == Error::Decode,
        },
{
    let outside_format = match format {
        DeclaredFormat::Png => image::ImageFormat::Png,
        DeclaredFormat::Jpeg => image::ImageFormat::Jpeg,
    };
    match image::load_from_memory_with_format(bytes, outside_format) {
        Ok(img) => {
            let buffer = img.to_luma8();
            let width = buffer.width() as usize;
            let height = buffer.height() as usize;
            Ok(PixelGrid { width, height, pixels: buffer.into_raw() })
        }
        Err(_) => Err(Error::Decode),
    }
}

} // verus!
