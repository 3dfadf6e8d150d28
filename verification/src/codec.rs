//! Encoded images: reading them, and writing prepared ones as PNG.

use crate::resize::ImageRgb;
use image::ImageEncoder;
use vstd::prelude::*;
use vstd::slice::*;

verus! {

/// What a byte of a PNG image stands for.
#[derive(Clone, Copy, Debug, PartialEq, Eq, Structural)]
pub enum Channels {
    Gray,
    Rgb,
}

impl Channels {
    /// Bytes of a pixel.
    pub open spec fn count(self) -> int {
        match self {
            Channels::Gray => 1,
            Channels::Rgb => 3,
        }
    }
}

/// The PNG file of the pixels, or the message of the encoder's error.
pub uninterp spec fn png_file(
    w: u32,
    h: u32,
    gray: bool,
    data: Seq<u8>,
) -> Result<Seq<u8>, Seq<char>>;

/// A result by the values of what it holds.
pub open spec fn file_val(r: Result<Vec<u8>, String>) -> Result<Seq<u8>, Seq<char>> {
    match r {
        Ok(file) => Ok(file@),
        Err(message) => Err(message@),
    }
}

/// The most bytes of pixels that the decoder takes from a file: 512 MiB.
pub const MAX_DECODED: u32 = 0x2000_0000;

/// Sides and bytes that belong together, and that the decoder takes.
pub open spec fn reads_back(w: u32, h: u32, gray: bool, data: Seq<u8>) -> bool {
    &&& 0 < w
    &&& 0 < h
    &&& data.len() <= MAX_DECODED
    &&& data.len() == w * h * (if gray {
        1
    } else {
        3int
    })
}

/// The three channels of each pixel, from the bytes of a PNG file.
pub open spec fn three_channels(gray: bool, data: Seq<u8>) -> Seq<u8> {
    if gray {
        Seq::new(3 * data.len(), |i: int| data[i / 3])
    } else {
        data
    }
}

/// Where the bytes are the PNG file of some pixels, those pixels are read.
pub open spec fn reads_written(bytes: Seq<u8>, r: Result<ImageRgb, String>) -> bool {
    forall|w: u32, h: u32, gray: bool, data: Seq<u8>|
        #[trigger] png_file(w, h, gray, data) == Ok::<Seq<u8>, Seq<char>>(bytes) && reads_back(
            w,
            h,
            gray,
            data,
        ) ==> (r matches Ok(img) && img.w == w && img.h == h && img.data@ == three_channels(
            gray,
            data,
        ))
}

/// `image::load_from_memory`, and `DynamicImage::into_rgb8` on what it returns.
/// It is taken to return an image whose sides fit 32 bits, with three bytes for
/// each pixel, or an error with its message; and to read a PNG file that
/// `write_png` makes of up to `MAX_DECODED` bytes as those pixels, gray ones as
/// three equal channels. Which other bytes decode, and to which pixels, is not
/// stated: the JPEG decoder picks its code by the machine's instruction set.
#[verifier::external_body]
fn load_rgb(bytes: &[u8]) -> (r: Result<ImageRgb, String>)
    ensures
        r matches Ok(img) ==> img.wf() && img.w <= u32::MAX && img.h <= u32::MAX,
        reads_written(bytes@, r),
{
    let rgb = image::load_from_memory(bytes).map_err(|e| e.to_string())?.into_rgb8();
    let (w, h) = (rgb.width() as usize, rgb.height() as usize);
    Ok(ImageRgb { w, h, data: rgb.into_raw() })
}

/// `image::codecs::png::PngEncoder::write_image`, for eight bits a channel. It is
/// taken to return a file, or an error with its message, that depends on the sides,
/// the channels and the bytes alone, and to fail where a side is zero and nowhere
/// else. It panics unless the bytes are as many as the sides ask for.
#[verifier::external_body]
fn write_png(w: u32, h: u32, channels: Channels, data: &[u8]) -> (r: Result<Vec<u8>, String>)
    requires
        data@.len() == w * h * channels.count(),
    ensures
        file_val(r) == png_file(w, h, channels == Channels::Gray, data@),
        (r is Ok) == (w != 0 && h != 0),
{
    let kind = match channels {
        Channels::Gray => image::ExtendedColorType::L8,
        Channels::Rgb => image::ExtendedColorType::Rgb8,
    };
    let mut out = Vec::new();
    let encoder = image::codecs::png::PngEncoder::new(&mut out);
    encoder.write_image(data, w, h, kind).map_err(|e| e.to_string())?;
    Ok(out)
}

/// The three channels of pixel `i` are equal.
pub open spec fn is_gray_at(data: Seq<u8>, i: int) -> bool {
    data[i * 3] == data[i * 3 + 1] && data[i * 3 + 1] == data[i * 3 + 2]
}

/// The first `n` pixels are gray.
pub open spec fn is_gray(data: Seq<u8>, n: int) -> bool {
    forall|i: int| 0 <= i < n ==> #[trigger] is_gray_at(data, i)
}

/// The first channel of each of the first `n` pixels.
pub open spec fn first_channel(data: Seq<u8>, n: int) -> Seq<u8> {
    Seq::new(n as nat, |i: int| data[i * 3])
}

/// The PNG file of an image: a gray one where all its pixels are gray.
pub open spec fn png_of(img: ImageRgb) -> Result<Seq<u8>, Seq<char>> {
    let (w, h) = (img.w as u32, img.h as u32);
    let n = img.w * img.h;
    if is_gray(img.data@, n) {
        png_file(w, h, true, first_channel(img.data@, n).take(w * h))
    } else {
        png_file(w, h, false, img.data@.take(w * h * 3))
    }
}

/// An image that has pixels, and whose PNG file the decoder takes: with a byte for
/// each pixel where all are gray, three otherwise, it is within the decoder's limit.
pub open spec fn image_reads_back(img: ImageRgb) -> bool {
    let n = img.w * img.h;
    &&& img.wf()
    &&& 0 < img.w
    &&& 0 < img.h
    &&& if is_gray(img.data@, n) {
        n <= MAX_DECODED
    } else {
        n * 3 <= MAX_DECODED
    }
}

proof fn lemma_reads_back(img: ImageRgb)
    requires
        image_reads_back(img),
    ensures
        ({
            let (w, h) = (img.w as u32, img.h as u32);
            let n = img.w * img.h;
            &&& w == img.w
            &&& h == img.h
            &&& is_gray(img.data@, n) ==> {
                let data = first_channel(img.data@, n).take(w * h);
                reads_back(w, h, true, data) && three_channels(true, data) == img.data@
            }
            &&& !is_gray(img.data@, n) ==> {
                let data = img.data@.take(w * h * 3);
                reads_back(w, h, false, data) && three_channels(false, data) == img.data@
            }
        }),
{
    let (a, b) = (img.w as int, img.h as int);
    assert(a <= a * b && b <= a * b) by (nonlinear_arith)
        requires
            0 < a,
            0 < b,
    ;
    let n = img.w * img.h;
    assert(img.data@.take(n * 3) =~= img.data@);
    if is_gray(img.data@, n) {
        let data = first_channel(img.data@, n).take(n);
        assert forall|i: int| 0 <= i < 3 * n implies data[i / 3] == #[trigger] img.data@[i] by {
            assert(is_gray_at(img.data@, i / 3));
        }
        assert(three_channels(true, data) =~= img.data@);
    }
}

/// The result holds an image with the sides and the bytes of `img`.
pub open spec fn is_image(r: Result<ImageRgb, String>, img: ImageRgb) -> bool {
    r matches Ok(out) && out.w == img.w && out.h == img.h && out.data@ == img.data@
}

/// `r` is what the decoder makes of the bytes: its picture, or the message of its
/// error.
pub closed spec fn is_decoded(bytes: &[u8], r: Result<ImageRgb, String>) -> bool {
    call_ensures(load_rgb, (bytes,), r)
}

/// The image in encoded bytes, or the message of what is wrong with them, as the
/// decoder gives it. The PNG file of an image gives that image back.
pub fn decode_rgb(bytes: &[u8]) -> (r: Result<ImageRgb, String>)
    ensures
        is_decoded(bytes, r),
        r matches Ok(img) ==> img.wf() && img.w <= u32::MAX && img.h <= u32::MAX,
        forall|src: ImageRgb|
            image_reads_back(src) && #[trigger] png_of(src) == Ok::<Seq<u8>, Seq<char>>(bytes@) ==> is_image(r, src),
{
    let r: Result<ImageRgb, String> = load_rgb(bytes);
    proof {
        assert forall|src: ImageRgb|
            image_reads_back(src) && #[trigger] png_of(src) == Ok::<Seq<u8>, Seq<char>>(bytes@) implies is_image(
            r,
            src,
        ) by {
            lemma_reads_back(src);
        }
    }
    r
}

fn gray(img: &ImageRgb) -> (r: bool)
    requires
        img.wf(),
    ensures
        r == is_gray(img.data@, img.w * img.h),
{
    let size: usize = img.data.len();
    let mut i: usize = 0;
    let mut at: usize = 0;
    while at < size
        invariant
            img.wf(),
            size == img.data@.len(),
            at == i * 3,
            at <= size,
            is_gray(img.data@, i as int),
        decreases size - at,
    {
        if img.data[at] != img.data[at + 1] || img.data[at + 1] != img.data[at + 2] {
            assert(!is_gray_at(img.data@, i as int));
            return false;
        }
        assert(is_gray_at(img.data@, i as int));
        i = i + 1;
        at = at + 3;
    }
    true
}

fn take_first(img: &ImageRgb) -> (r: Vec<u8>)
    requires
        img.wf(),
    ensures
        r@ == first_channel(img.data@, img.w * img.h),
{
    let size: usize = img.data.len();
    let ghost n = img.w * img.h;
    let mut out: Vec<u8> = Vec::new();
    let mut at: usize = 0;
    while at < size
        invariant
            img.wf(),
            n == img.w * img.h,
            size == img.data@.len(),
            at == out@.len() * 3,
            at <= size,
            out@ =~= first_channel(img.data@, n).take(out@.len() as int),
        decreases size - at,
    {
        out.push(img.data[at]);
        at = at + 3;
    }
    assert(first_channel(img.data@, n).take(n) =~= first_channel(img.data@, n));
    out
}

proof fn lemma_sides(w: usize, h: usize)
    ensures
        0 <= (w as u32) * (h as u32) <= w * h,
{
    let (a, b) = (w as u32, h as u32);
    assert(w as u32 <= w) by (bit_vector);
    assert(h as u32 <= h) by (bit_vector);
    assert(0 <= a * b <= w * h) by (nonlinear_arith)
        requires
            0 <= a <= w,
            0 <= b <= h,
    ;
}

/// The PNG file of an image, eight bits a channel: gray where all its pixels are
/// gray, in colour otherwise. An image without pixels has none.
pub fn encode_png(img: ImageRgb) -> (r: Result<Vec<u8>, String>)
    requires
        img.wf(),
    ensures
        file_val(r) == png_of(img),
        (r is Ok) == (img.w as u32 != 0 && img.h as u32 != 0),
{
    let w: u32 = #[verifier::truncate] (img.w as u32);
    let h: u32 = #[verifier::truncate] (img.h as u32);
    let size: usize = img.data.len();
    proof {
        lemma_sides(img.w, img.h);
    }
    let n: usize = w as usize * h as usize;
    if gray(&img) {
        let mut data: Vec<u8> = take_first(&img);
        data.truncate(n);
        assert(data@ =~= first_channel(img.data@, img.w * img.h).take(w * h));
        write_png(w, h, Channels::Gray, data.as_slice())
    } else {
        let part: &[u8] = slice_subrange(img.data.as_slice(), 0, n * 3);
        assert(part@ =~= img.data@.take(w * h * 3));
        write_png(w, h, Channels::Rgb, part)
    }
}

/// The steps by which an image can be prepared.
#[derive(Clone, Copy, Debug, PartialEq, Eq, Structural)]
pub struct PreOpts {
    pub resize: bool,
    pub denoise: bool,
    pub deskew: bool,
    pub binarize: bool,
}

impl PreOpts {
    pub fn any(&self) -> (r: bool)
        ensures
            r == (self.resize || self.denoise || self.deskew || self.binarize),
    {
        self.resize || self.denoise || self.deskew || self.binarize
    }
}

/// What is to be done to prepare an image.
pub enum Prepare {
    /// Nothing: these are the bytes.
    Unchanged(Vec<u8>),
    /// Take the steps on this image, and encode it.
    Process(ImageRgb),
}

/// Starts to prepare an image: without any step its bytes stay as they are.
pub fn prepare_bytes(image: &[u8], opts: &PreOpts) -> (r: Result<Prepare, String>)
    ensures
        if opts.resize || opts.denoise || opts.deskew || opts.binarize {
            match r {
                Ok(Prepare::Process(img)) => img.wf() && call_ensures(
                    decode_rgb,
                    (image,),
                    Ok(img),
                ),
                Ok(Prepare::Unchanged(_)) => false,
                Err(e) => call_ensures(decode_rgb, (image,), Err(e)),
            }
        } else {
            r matches Ok(Prepare::Unchanged(bytes)) && bytes@ == image@
        },
{
    if !opts.any() {
        return Ok(Prepare::Unchanged(slice_to_vec(image)));
    }
    match decode_rgb(image) {
        Ok(img) => Ok(Prepare::Process(img)),
        Err(e) => Err(e),
    }
}

// ---- laws ----

/// An image whose pixels have three equal channels each is written as a gray file of
/// these; one with a pixel that has not is written in colour, byte for byte.
pub proof fn law_gray_images_are_written_gray(img: ImageRgb, r: Result<Vec<u8>, String>, data: Seq<u8>)
    requires
        call_ensures(encode_png, (img,), r),
        img.wf(),
        img.w <= u32::MAX,
        img.h <= u32::MAX,
    ensures
        data.len() == img.w * img.h && (forall|i: int|
            0 <= i < data.len() ==> img.data@[i * 3] == #[trigger] data[i] && img.data@[i * 3 + 1]
                == data[i] && img.data@[i * 3 + 2] == data[i]) ==> file_val(r) == png_file(
            img.w as u32,
            img.h as u32,
            true,
            data,
        ),
        (exists|i: int|
            0 <= i < img.w * img.h && !((#[trigger] img.data@[i * 3]) == img.data@[i * 3 + 1]
                && img.data@[i * 3] == img.data@[i * 3 + 2])) ==> file_val(r) == png_file(
            img.w as u32,
            img.h as u32,
            false,
            img.data@,
        ),
        r is Ok <==> img.w > 0 && img.h > 0,
{
    let n = img.w * img.h;
    let bytes = img.data@;
    assert(n >= 0) by (nonlinear_arith)
        requires
            n == img.w * img.h,
    ;
    if data.len() == n && (forall|i: int|
        0 <= i < data.len() ==> bytes[i * 3] == #[trigger] data[i] && bytes[i * 3 + 1] == data[i]
            && bytes[i * 3 + 2] == data[i]) {
        assert forall|i: int| 0 <= i < n implies #[trigger] is_gray_at(bytes, i) by {
            assert(bytes[i * 3] == data[i]);
        }
        assert(first_channel(bytes, n).take(n) =~= data) by {
            assert forall|i: int| 0 <= i < n implies first_channel(bytes, n).take(n)[i]
                == #[trigger] data[i] by {}
        }
    }
    if exists|i: int|
        0 <= i < n && !((#[trigger] bytes[i * 3]) == bytes[i * 3 + 1] && bytes[i * 3] == bytes[i * 3
            + 2]) {
        let i = choose|i: int|
            0 <= i < n && !((#[trigger] bytes[i * 3]) == bytes[i * 3 + 1] && bytes[i * 3]
                == bytes[i * 3 + 2]);
        assert(!is_gray_at(bytes, i));
        assert(bytes.take(n * 3) =~= bytes);
    }
}

} // verus!
