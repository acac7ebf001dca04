//! Reading a rendered texture back as an image.

use image::RgbaImage;
use vstd::prelude::*;

verus! {

/// The pixels of an image: four bytes each, red first, row by row.
#[derive(Debug, PartialEq, Eq)]
pub struct RgbaPixels {
    pub width: u32,
    pub height: u32,
    pub bytes: Vec<u8>,
}

/// Why a texture cannot be read back.
#[derive(Clone, Copy, Debug, PartialEq, Eq, Structural)]
pub enum ReadbackError {
    /// There are fewer than four bytes to a pixel.
    TooFewBytes,
}

/// Whether there are four bytes for each pixel, and no more bytes to a row than
/// can be counted.
pub open spec fn holds_image(width: u32, height: u32, bytes: Seq<u8>) -> bool {
    width * 4 <= usize::MAX && width * 4 * height <= bytes.len()
}

/// `image::RgbaImage::from_raw`, and `into_raw` of what it makes: the bytes of
/// an image of so many pixels over `bytes`, which are `bytes` as they were, or
/// `None` where there are fewer than four of them to a pixel.
#[verifier::external_body]
fn image_from_raw(width: u32, height: u32, bytes: Vec<u8>) -> (r: Option<Vec<u8>>)
    ensures
        r is Some == holds_image(width, height, bytes@),
        r is Some ==> r->0@ == bytes@,
{
    RgbaImage::from_raw(width, height, bytes).map(RgbaImage::into_raw)
}

/// The byte at `i`, once the first and the third byte of every four have
/// changed places. Bytes at the end that are no whole four stay.
pub open spec fn swapped_at(bytes: Seq<u8>, i: int) -> u8 {
    if i / 4 * 4 + 4 > bytes.len() {
        bytes[i]
    } else if i % 4 == 0 {
        bytes[i + 2]
    } else if i % 4 == 2 {
        bytes[i - 2]
    } else {
        bytes[i]
    }
}

/// Blue-first pixels as red-first ones.
pub open spec fn channels_swapped(bytes: Seq<u8>) -> Seq<u8> {
    Seq::new(bytes.len(), |i: int| swapped_at(bytes, i))
}

/// Make blue-first pixels red-first.
pub fn swap_channels(pixels: &mut Vec<u8>)
    ensures
        final(pixels)@ == channels_swapped(old(pixels)@),
{
    let ghost before = pixels@;
    let mut index: usize = 0;
    while pixels.len() - index >= 4
        invariant
            index <= pixels@.len(),
            index % 4 == 0,
            pixels@.len() == before.len(),
            forall|i: int|
                0 <= i < before.len() ==> #[trigger] pixels@[i] == if i < index {
                    swapped_at(before, i)
                } else {
                    before[i]
                },
        decreases pixels@.len() - index,
    {
        let ghost now = pixels@;
        let blue: u8 = pixels[index];
        let red: u8 = pixels[index + 2];
        pixels.set(index, red);
        pixels.set(index + 2, blue);
        assert forall|i: int| 0 <= i < before.len() implies #[trigger] pixels@[i] == if i < index
            + 4 {
            swapped_at(before, i)
        } else {
            before[i]
        } by {
            assert(now[i] == if i < index {
                swapped_at(before, i)
            } else {
                before[i]
            });
        }
        index += 4;
    }
    assert(pixels@ =~= channels_swapped(before));
}

/// Swapping the channels twice changes nothing.
pub proof fn swapping_channels_undoes_itself(bytes: Seq<u8>)
    ensures
        channels_swapped(channels_swapped(bytes)) == bytes,
{
    assert(channels_swapped(channels_swapped(bytes)) =~= bytes);
}

/// An image of a texture's blue-first pixels.
pub fn read_image(width: u32, height: u32, pixels: Vec<u8>) -> (r: Result<
    RgbaPixels,
    ReadbackError,
>)
    ensures
        match r {
            Ok(image) => {
                &&& holds_image(width, height, pixels@)
                &&& image.width == width
                &&& image.height == height
                &&& image.bytes@ == channels_swapped(pixels@)
            },
            Err(_) => !holds_image(width, height, pixels@),
        },
{
    let mut pixels = pixels;
    swap_channels(&mut pixels);
    match image_from_raw(width, height, pixels) {
        None => Err(ReadbackError::TooFewBytes),
        Some(bytes) => Ok(RgbaPixels { width, height, bytes }),
    }
}

} // verus!
