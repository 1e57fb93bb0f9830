//! An RGB raster held as plain bytes, and its decoding from PNG data.
use crate::{Error, ErrorView};
use vstd::prelude::*;

verus! {

/// Largest number of pixels a raster may hold: the sum of per-pixel channel
/// distances (each at most 255) then always fits in a `u64`.
pub const MAX_PIXELS: u64 = 72340172838076673;

/// What a raster is: its dimensions and its bytes, three per pixel in raster order.
pub struct RasterView {
    pub width: u32,
    pub height: u32,
    pub data: Seq<u8>,
}

/// Whether `width`, `height` and `data` describe a raster.
pub open spec fn raster_ok(width: u32, height: u32, data: Seq<u8>) -> bool {
    &&& width as int * height as int <= MAX_PIXELS as int
    &&& data.len() == 3 * (width as int * height as int)
}

/// Two `u32` dimensions multiply without overflow in `u64`.
pub proof fn lemma_pixels_fit(width: u32, height: u32)
    ensures
        width as int * height as int <= u64::MAX as int,
        0 <= width as int * height as int,
{
    assert(width as int * height as int <= 0xffff_ffff * 0xffff_ffff) by (nonlinear_arith)
        requires
            width <= 0xffff_ffffu32,
            height <= 0xffff_ffffu32,
    ;
    assert(0 <= width as int * height as int) by (nonlinear_arith);
}

/// An 8-bit RGB image: `data` holds `width * height` pixels of three bytes
/// (red, green, blue), row by row.
#[derive(Debug)]
pub struct RgbRaster {
    pub width: u32,
    pub height: u32,
    pub data: Vec<u8>,
}

impl View for RgbRaster {
    type V = RasterView;

    open spec fn view(&self) -> RasterView {
        RasterView { width: self.width, height: self.height, data: self.data@ }
    }
}

impl RgbRaster {
    pub open spec fn wf(&self) -> bool {
        raster_ok(self.width, self.height, self.data@)
    }

    pub open spec fn pixel_count(&self) -> nat {
        (self.width as int * self.height as int) as nat
    }

    /// A raster from its dimensions and its bytes. Like the image buffers of
    /// the `image` crate, a longer buffer is accepted and cut to size; a shorter
    /// one, or more than `MAX_PIXELS` pixels, gives `None`.
    pub fn from_raw(width: u32, height: u32, data: Vec<u8>) -> (r: Option<RgbRaster>)
        ensures
            r.is_some() <==> (width as int * height as int <= MAX_PIXELS as int && data@.len()
                >= 3 * (width as int * height as int)),
            r.is_some() ==> r.unwrap().wf() && r.unwrap()@ == (RasterView {
                width,
                height,
                data: data@.subrange(0, 3 * (width as int * height as int)),
            }),
    {
        proof {
            lemma_pixels_fit(width, height);
        }
        let n: u64 = width as u64 * height as u64;
        if n > MAX_PIXELS {
            return None;
        }
        if (data.len() as u64) / 3 < n {
            return None;
        }
        let len: usize = (3 * n) as usize;
        let mut bytes = data;
        bytes.truncate(len);
        proof {
            assert(bytes@ =~= data@.subrange(0, 3 * (width as int * height as int)));
        }
        Some(RgbRaster { width, height, data: bytes })
    }

    pub fn width(&self) -> (r: u32)
        ensures
            r == self.width,
    {
        self.width
    }

    pub fn height(&self) -> (r: u32)
        ensures
            r == self.height,
    {
        self.height
    }

    /// The bytes of the raster, three per pixel.
    pub fn as_raw(&self) -> (r: &Vec<u8>)
        ensures
            r@ == self.data@,
    {
        &self.data
    }
}


/// The 8-bit RGB dimensions and bytes that PNG data decodes to, or `None`
/// where it is not a decodable PNG image.
pub uninterp spec fn png_decoded(bytes: Seq<u8>) -> Option<(u32, u32, Seq<u8>)>;

/// Relies on `image::load_from_memory_with_format` (PNG) and
/// `DynamicImage::into_rgb8`: the decoded image as width, height and raw RGB
/// bytes, or an error; the outcome depends on the bytes alone.
#[verifier::external_body]
fn decode_png_rgb8(bytes: &[u8]) -> (r: Option<(u32, u32, Vec<u8>)>)
    ensures
        r.is_none() ==> png_decoded(bytes@).is_none(),
        r.is_some() ==> png_decoded(bytes@) == Some((r.unwrap().0, r.unwrap().1, r.unwrap().2@)),
{
    match image::load_from_memory_with_format(bytes, image::ImageFormat::Png) {
        Ok(img) => {
            let rgb = img.into_rgb8();
            Some((rgb.width(), rgb.height(), rgb.into_raw()))
        },
        Err(_) => None,
    }
}

/// The raster that PNG data decodes to, if any.
pub open spec fn decoded_raster(bytes: Seq<u8>) -> Option<RasterView> {
    match png_decoded(bytes) {
        Some((w, h, d)) => if w as int * h as int <= MAX_PIXELS as int && d.len() >= 3 * (w as int
            * h as int) {
            Some(RasterView { width: w, height: h, data: d.subrange(0, 3 * (w as int * h as int)) })
        } else {
            None
        },
        None => None,
    }
}

/// Decodes PNG data into an RGB raster; `None` where it does not decode.
pub fn decode_png(bytes: &[u8]) -> (r: Option<RgbRaster>)
    ensures
        r.is_some() == decoded_raster(bytes@).is_some(),
        r.is_some() ==> r.unwrap().wf() && r.unwrap()@ == decoded_raster(bytes@).unwrap(),
{
    match decode_png_rgb8(bytes) {
        Some((w, h, d)) => RgbRaster::from_raw(w, h, d),
        None => None,
    }
}


/// The PNG bytes that an RGB raster encodes to, or `None` where encoding fails.
pub uninterp spec fn png_encoded(width: u32, height: u32, data: Seq<u8>) -> Option<Seq<u8>>;

/// Relies on `image::ImageBuffer::from_raw` and `ImageBuffer::write_to` with
/// the PNG format: the PNG encoding of the raster, or an error; the outcome
/// depends on the raster alone.
#[verifier::external_body]
fn encode_png_rgb8(width: u32, height: u32, data: &Vec<u8>) -> (r: Option<Vec<u8>>)
    ensures
        r.is_none() ==> png_encoded(width, height, data@).is_none(),
        r.is_some() ==> png_encoded(width, height, data@) == Some(r.unwrap()@),
{
    let image = image::RgbImage::from_raw(width, height, data.clone())?;
    let mut out = Vec::new();
    match image.write_to(&mut std::io::Cursor::new(&mut out), image::ImageFormat::Png) {
        Ok(()) => Some(out),
        Err(_) => None,
    }
}

impl RgbRaster {
    /// Encodes the raster as PNG bytes; a failure of the encoder is an image error.
    pub fn encode_png(&self) -> (r: Result<Vec<u8>, Error>)
        ensures
            png_encoded(self.width, self.height, self.data@) is Some ==> r is Ok && r->Ok_0@
                == png_encoded(self.width, self.height, self.data@).unwrap(),
            png_encoded(self.width, self.height, self.data@) is None ==> r is Err && r->Err_0@
                == ErrorView::ImageError,
    {
        match encode_png_rgb8(self.width, self.height, &self.data) {
            Some(bytes) => Ok(bytes),
            None => Err(Error::ImageError),
        }
    }
}

} // verus!
