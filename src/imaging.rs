use vstd::prelude::*;

verus! {

/// A single-channel image, one byte per pixel, row by row.
#[derive(Clone, Debug)]
pub struct GrayImage {
    pub width: u32,
    pub height: u32,
    pub pixels: Vec<u8>,
}

/// An RGBA image, four bytes per pixel, row by row.
#[derive(Clone, Debug)]
pub struct ColorImage {
    pub width: u32,
    pub height: u32,
    pub pixels: Vec<u8>,
}

impl GrayImage {
    pub open spec fn wf(&self) -> bool {
        self.pixels@.len() == self.width as nat * self.height as nat
    }
}

impl ColorImage {
    pub open spec fn wf(&self) -> bool {
        self.pixels@.len() == 4 * (self.width as nat * self.height as nat)
    }
}

/// Threshold below which a sampled pixel counts as dark.
pub const DARK_LEVEL: u8 = 128;

/// Strength of the contrast adjustment, on the -100..100 scale.
pub const CONTRAST_AMOUNT: i16 = 20;

// ---------------------------------------------------------------------------
// Polarity
// ---------------------------------------------------------------------------

/// How many of `0, 4, 8, ...` lie below `n`.
pub open spec fn sample_count(n: nat) -> nat {
    (n + 3) / 4
}

/// Dark pixels among the first `k` sampled columns of row `y`.
pub open spec fn dark_in_row(pixels: Seq<u8>, width: nat, y: nat, k: nat) -> nat
    decreases k,
{
    if k == 0 {
        0
    } else {
        dark_in_row(pixels, width, y, (k - 1) as nat) + if pixels[y * width + 4 * (k - 1)]
            < DARK_LEVEL {
            1nat
        } else {
            0nat
        }
    }
}

/// Dark pixels among the sampled columns of the first `r` sampled rows.
pub open spec fn dark_in_rows(pixels: Seq<u8>, width: nat, r: nat) -> nat
    decreases r,
{
    if r == 0 {
        0
    } else {
        dark_in_rows(pixels, width, (r - 1) as nat) + dark_in_row(
            pixels,
            width,
            4 * (r - 1) as nat,
            sample_count(width),
        )
    }
}

/// Number of pixels on the stride-4 grid of a `width` x `height` image.
pub open spec fn sampled(width: nat, height: nat) -> nat {
    sample_count(width) * sample_count(height)
}

/// Number of dark pixels on the stride-4 grid.
pub open spec fn dark_sampled(pixels: Seq<u8>, width: nat, height: nat) -> nat {
    dark_in_rows(pixels, width, sample_count(height))
}

/// Whether more than 60% of the pixels on the stride-4 grid are dark.
pub open spec fn needs_inversion(pixels: Seq<u8>, width: nat, height: nat) -> bool {
    5 * dark_sampled(pixels, width, height) > 3 * sampled(width, height)
}

/// Decides whether `gray_image` shows light text on a dark background: the
/// pixels on every fourth row and column are sampled, and the image is to be
/// inverted when more than 60% of them are below mid-grey. An image without
/// pixels is not inverted.
pub fn analyze_text_brightness(gray_image: &GrayImage) -> (r: bool)
    requires
        gray_image.wf(),
    ensures
        r == needs_inversion(gray_image.pixels@, gray_image.width as nat, gray_image.height as nat),
{
    let width = gray_image.width;
    let height = gray_image.height;
    let n = gray_image.pixels.len();
    let ghost pixels = gray_image.pixels@;
    let cols: u64 = (width as u64 + 3) / 4;
    let rows: u64 = (height as u64 + 3) / 4;
    let mut dark: u64 = 0;
    let mut r: u64 = 0;
    while r < rows
        invariant
            pixels == gray_image.pixels@,
            n == pixels.len(),
            pixels.len() == width as nat * height as nat,
            width == gray_image.width,
            height == gray_image.height,
            cols == sample_count(width as nat),
            rows == sample_count(height as nat),
            r <= rows,
            dark == dark_in_rows(pixels, width as nat, r as nat),
            dark <= r * cols,
        decreases rows - r,
    {
        let y: u64 = 4 * r;
        assert(y < height) by (nonlinear_arith)
            requires
                y == 4 * r,
                r < rows,
                rows == (height + 3) / 4,
        ;
        let mut row_dark: u64 = 0;
        let mut k: u64 = 0;
        while k < cols
            invariant
                pixels == gray_image.pixels@,
                n == pixels.len(),
                pixels.len() == width as nat * height as nat,
                width == gray_image.width,
                y < height,
                y == 4 * r,
                cols == sample_count(width as nat),
                k <= cols,
                row_dark == dark_in_row(pixels, width as nat, y as nat, k as nat),
                row_dark <= k,
            decreases cols - k,
        {
            let x: u64 = 4 * k;
            proof {
                assert(x < width) by (nonlinear_arith)
                    requires
                        x == 4 * k,
                        k < cols,
                        cols == (width + 3) / 4,
                ;
                assert(y * width + x < n) by (nonlinear_arith)
                    requires
                        x < width,
                        y < height,
                        n == width * height,
                ;
                assert(y * width <= y * width + x);
            }
            let index = y as usize * width as usize + x as usize;
            if gray_image.pixels[index] < DARK_LEVEL {
                row_dark = row_dark + 1;
            }
            k = k + 1;
        }
        proof {
            assert(r * cols + cols == (r + 1) * cols) by (nonlinear_arith);
            assert((r + 1) * cols <= 0x4000_0000 * 0x4000_0000) by (nonlinear_arith)
                requires
                    r + 1 <= rows,
                    rows <= 0x4000_0000,
                    cols <= 0x4000_0000,
            ;
        }
        dark = dark + row_dark;
        r = r + 1;
    }
    proof {
        assert(cols * rows <= 0x4000_0000 * 0x4000_0000) by (nonlinear_arith)
            requires
                rows <= 0x4000_0000,
                cols <= 0x4000_0000,
        ;
    }
    let samples: u64 = cols * rows;
    5 * (dark as u128) > 3 * (samples as u128)
}

/// Replaces every pixel value `v` by `255 - v`.
pub fn invert_image(gray_image: &GrayImage) -> (r: GrayImage)
    requires
        gray_image.wf(),
    ensures
        r.wf(),
        r.width == gray_image.width,
        r.height == gray_image.height,
        r.pixels@ == inverted(gray_image.pixels@),
{
    let mut pixels: Vec<u8> = Vec::new();
    let mut i: usize = 0;
    while i < gray_image.pixels.len()
        invariant
            i <= gray_image.pixels@.len(),
            pixels@ == inverted(gray_image.pixels@.take(i as int)),
        decreases gray_image.pixels@.len() - i,
    {
        pixels.push(255 - gray_image.pixels[i]);
        i = i + 1;
        assert(pixels@ =~= inverted(gray_image.pixels@.take(i as int)));
    }
    assert(gray_image.pixels@.take(i as int) =~= gray_image.pixels@);
    GrayImage { width: gray_image.width, height: gray_image.height, pixels }
}

pub open spec fn inverted(pixels: Seq<u8>) -> Seq<u8> {
    pixels.map_values(|v: u8| (255 - v) as u8)
}

// ---------------------------------------------------------------------------
// Conditioning for recognition
// ---------------------------------------------------------------------------

/// The grey level that `image` gives an RGBA pixel: its sRGB luminance,
/// rounded down; alpha plays no part.
pub open spec fn luma(r: u8, g: u8, b: u8) -> u8 {
    ((2126 * r + 7152 * g + 722 * b) / 10000) as u8
}

/// The grey pixels of the RGBA pixels `rgba`.
pub open spec fn gray_pixels(rgba: Seq<u8>) -> Seq<u8> {
    Seq::new(rgba.len() / 4, |i: int| luma(rgba[4 * i], rgba[4 * i + 1], rgba[4 * i + 2]))
}

/// Grey pixels of a `width` x `height` image resampled to
/// `new_width` x `new_height` by `image::imageops::resize` with the Lanczos3
/// filter.
pub uninterp spec fn lanczos3_resized(
    pixels: Seq<u8>,
    width: nat,
    height: nat,
    new_width: nat,
    new_height: nat,
) -> Seq<u8>;

/// RGBA pixels that `image::imageops::contrast` gives for a `width` x
/// `height` grey image read as RGBA, at strength `amount`.
pub uninterp spec fn contrast_adjusted(pixels: Seq<u8>, width: nat, height: nat, amount: int) -> Seq<u8>;

/// Relies on `DynamicImage::to_luma8` on an RGBA image: each grey value is
/// `(2126 r + 7152 g + 722 b) / 10000`.
#[verifier::external_body]
fn to_gray(image: &ColorImage) -> (r: GrayImage)
    requires
        image.wf(),
    ensures
        r.width == image.width,
        r.height == image.height,
        r.pixels@ == gray_pixels(image.pixels@),
{
    let buffer = image::RgbaImage::from_raw(image.width, image.height, image.pixels.clone())
        .expect("buffer holds width * height pixels");
    let gray = image::DynamicImage::ImageRgba8(buffer).to_luma8();
    GrayImage { width: gray.width(), height: gray.height(), pixels: gray.into_raw() }
}

/// Relies on `image::imageops::resize` with `FilterType::Lanczos3`: the
/// result has the requested size and depends on the pixels and sizes alone.
#[verifier::external_body]
fn resize_lanczos3(image: &GrayImage, new_width: u32, new_height: u32) -> (r: GrayImage)
    requires
        image.wf(),
        image.width > 0,
        image.height > 0,
        new_width as nat * new_height as nat <= usize::MAX,
    ensures
        r.width == new_width,
        r.height == new_height,
        r.pixels@.len() == new_width as nat * new_height as nat,
        r.pixels@ == lanczos3_resized(
            image.pixels@,
            image.width as nat,
            image.height as nat,
            new_width as nat,
            new_height as nat,
        ),
{
    let buffer = image::GrayImage::from_raw(image.width, image.height, image.pixels.clone())
        .expect("buffer holds width * height pixels");
    let out = image::imageops::resize(
        &buffer,
        new_width,
        new_height,
        image::imageops::FilterType::Lanczos3,
    );
    GrayImage { width: out.width(), height: out.height(), pixels: out.into_raw() }
}

/// Relies on `image::imageops::contrast` over a grey image seen as RGBA:
/// the result is an RGBA image of the same size that depends on the pixels,
/// the size and the strength alone.
#[verifier::external_body]
fn adjust_contrast(image: &GrayImage, amount: i16) -> (r: ColorImage)
    requires
        image.wf(),
        4 * (image.width as nat * image.height as nat) <= usize::MAX,
    ensures
        r.width == image.width,
        r.height == image.height,
        r.pixels@.len() == 4 * (image.width as nat * image.height as nat),
        r.pixels@ == contrast_adjusted(
            image.pixels@,
            image.width as nat,
            image.height as nat,
            amount as int,
        ),
{
    let buffer = image::GrayImage::from_raw(image.width, image.height, image.pixels.clone())
        .expect("buffer holds width * height pixels");
    let out = image::imageops::contrast(&image::DynamicImage::ImageLuma8(buffer), amount.into());
    ColorImage { width: out.width(), height: out.height(), pixels: out.into_raw() }
}

/// The grey pixels upscaled to twice the width and twice the height; an
/// image without pixels stays without pixels.
pub open spec fn upscaled(pixels: Seq<u8>, width: nat, height: nat) -> Seq<u8> {
    if width == 0 || height == 0 {
        Seq::empty()
    } else {
        lanczos3_resized(pixels, width, height, 2 * width, 2 * height)
    }
}

/// The RGBA pixels handed to recognition for a grey image: upscaled 2x,
/// inverted when `invert` holds, then contrast-adjusted.
pub open spec fn conditioned(pixels: Seq<u8>, width: nat, height: nat, invert: bool) -> Seq<u8> {
    let scaled = upscaled(pixels, width, height);
    let polarized = if invert {
        inverted(scaled)
    } else {
        scaled
    };
    contrast_adjusted(polarized, 2 * width, 2 * height, CONTRAST_AMOUNT as int)
}

/// Whether a `width` x `height` image can be upscaled 2x in RGBA within the
/// machine's limits.
pub open spec fn fits_upscaled(width: nat, height: nat) -> bool {
    2 * width <= u32::MAX && 2 * height <= u32::MAX && 16 * (width * height) <= usize::MAX
}

/// Prepares a grey image for recognition: upscale 2x with Lanczos3, invert
/// when `invert` holds, apply the fixed contrast adjustment.
pub fn condition_gray(gray_image: &GrayImage, invert: bool) -> (r: ColorImage)
    requires
        gray_image.wf(),
        fits_upscaled(gray_image.width as nat, gray_image.height as nat),
    ensures
        r.wf(),
        r.width == 2 * gray_image.width,
        r.height == 2 * gray_image.height,
        r.pixels@ == conditioned(
            gray_image.pixels@,
            gray_image.width as nat,
            gray_image.height as nat,
            invert,
        ),
{
    let width = gray_image.width;
    let height = gray_image.height;
    proof {
        assert(2 * width * (2 * height) == 4 * (width * height)) by (nonlinear_arith);
    }
    let scaled = if width == 0 || height == 0 {
        let empty: Vec<u8> = Vec::new();
        proof {
            assert(2 * width * (2 * height) == 0) by (nonlinear_arith)
                requires
                    width == 0 || height == 0,
            ;
        }
        GrayImage { width: 2 * width, height: 2 * height, pixels: empty }
    } else {
        resize_lanczos3(gray_image, 2 * width, 2 * height)
    };
    let polarized = if invert {
        invert_image(&scaled)
    } else {
        scaled
    };
    let r = adjust_contrast(&polarized, CONTRAST_AMOUNT);
    proof {
        assert(4 * (2 * width * (2 * height)) == 16 * (width * height)) by (nonlinear_arith);
    }
    r
}

/// Prepares a color image for recognition with the given polarity: grey
/// conversion, then as `condition_gray`.
pub fn condition_image(image: &ColorImage, invert: bool) -> (r: ColorImage)
    requires
        image.wf(),
        fits_upscaled(image.width as nat, image.height as nat),
    ensures
        r.wf(),
        r.width == 2 * image.width,
        r.height == 2 * image.height,
        r.pixels@ == conditioned(
            gray_pixels(image.pixels@),
            image.width as nat,
            image.height as nat,
            invert,
        ),
{
    let gray = to_gray(image);
    proof {
        assert(gray.wf());
    }
    condition_gray(&gray, invert)
}

/// Prepares a captured image for recognition: grey conversion, the polarity
/// decision on the grey image, then 2x upscale, inversion if decided, and
/// contrast adjustment.
pub fn preprocess_image_for_ocr(image: &ColorImage) -> (r: ColorImage)
    requires
        image.wf(),
        fits_upscaled(image.width as nat, image.height as nat),
    ensures
        r.wf(),
        r.width == 2 * image.width,
        r.height == 2 * image.height,
        r.pixels@ == conditioned(
            gray_pixels(image.pixels@),
            image.width as nat,
            image.height as nat,
            needs_inversion(
                gray_pixels(image.pixels@),
                image.width as nat,
                image.height as nat,
            ),
        ),
{
    let gray = to_gray(image);
    let should_invert = analyze_text_brightness(&gray);
    condition_gray(&gray, should_invert)
}

// ---------------------------------------------------------------------------
// Cropping
// ---------------------------------------------------------------------------

/// A screen region, as the user selected it.
#[derive(Clone, Copy, Debug, PartialEq, Eq, Structural)]
pub struct CaptureArea {
    pub x: i32,
    pub y: i32,
    pub width: u32,
    pub height: u32,
}

/// The RGBA pixels of the `width` x `height` region at (`x`, `y`) of an
/// image `image_width` pixels wide.
pub open spec fn cropped(
    pixels: Seq<u8>,
    image_width: nat,
    x: nat,
    y: nat,
    width: nat,
    height: nat,
) -> Seq<u8> {
    Seq::new(
        4 * (width * height),
        |i: int|
            pixels[4 * ((y + (i / 4) / width as int) * image_width + x + (i / 4) % width as int) + i
                % 4],
    )
}

/// The region of `area` that lies inside a `image_width` x `image_height`
/// image, as (x, y, width, height): negative offsets count as 0 and the size
/// is cut at the image's edges.
pub open spec fn clamped_region(image_width: nat, image_height: nat, area: CaptureArea) -> (
    nat,
    nat,
    nat,
    nat,
) {
    let x: nat = if area.x < 0 {
        0
    } else {
        area.x as nat
    };
    let y: nat = if area.y < 0 {
        0
    } else {
        area.y as nat
    };
    let room_x: nat = if x < image_width {
        (image_width - x) as nat
    } else {
        0
    };
    let room_y: nat = if y < image_height {
        (image_height - y) as nat
    } else {
        0
    };
    let width: nat = if (area.width as nat) < room_x {
        area.width as nat
    } else {
        room_x
    };
    let height: nat = if (area.height as nat) < room_y {
        area.height as nat
    } else {
        room_y
    };
    (x, y, width, height)
}

/// Relies on `image::imageops::crop_imm` and `SubImage::to_image`: on a
/// region that lies inside the image, a copy of its pixels.
#[verifier::external_body]
fn crop_region(image: &ColorImage, x: u32, y: u32, width: u32, height: u32) -> (r: ColorImage)
    requires
        image.wf(),
        x as nat + width as nat <= image.width as nat,
        y as nat + height as nat <= image.height as nat,
    ensures
        r.width == width,
        r.height == height,
        r.pixels@ == cropped(
            image.pixels@,
            image.width as nat,
            x as nat,
            y as nat,
            width as nat,
            height as nat,
        ),
{
    let buffer = image::RgbaImage::from_raw(image.width, image.height, image.pixels.clone())
        .expect("buffer holds width * height pixels");
    let out = image::imageops::crop_imm(&buffer, x, y, width, height).to_image();
    ColorImage { width: out.width(), height: out.height(), pixels: out.into_raw() }
}

/// Cuts the selected area out of a captured image. The area is first
/// clamped to the image; an area with nothing left is refused.
pub fn crop_image(image: &ColorImage, area: CaptureArea) -> (r: Result<ColorImage, String>)
    requires
        image.wf(),
    ensures
        ({
            let (x, y, width, height) = clamped_region(
                image.width as nat,
                image.height as nat,
                area,
            );
            match r {
                Ok(c) => width > 0 && height > 0 && c.wf() && c.width == width && c.height
                    == height && c.pixels@ == cropped(
                    image.pixels@,
                    image.width as nat,
                    x,
                    y,
                    width,
                    height,
                ),
                Err(e) => (width == 0 || height == 0) && e@ == "Invalid crop area"@,
            }
        }),
{
    let image_width = image.width;
    let image_height = image.height;
    let x: u32 = if area.x < 0 {
        0
    } else {
        area.x as u32
    };
    let y: u32 = if area.y < 0 {
        0
    } else {
        area.y as u32
    };
    let room_x: u32 = if x < image_width {
        image_width - x
    } else {
        0
    };
    let room_y: u32 = if y < image_height {
        image_height - y
    } else {
        0
    };
    let width: u32 = if area.width < room_x {
        area.width
    } else {
        room_x
    };
    let height: u32 = if area.height < room_y {
        area.height
    } else {
        room_y
    };
    if width == 0 || height == 0 {
        return Err("Invalid crop area".to_string());
    }
    let c = crop_region(image, x, y, width, height);
    proof {
        assert(c.pixels@.len() == 4 * (width as nat * height as nat));
    }
    Ok(c)
}

// ---------------------------------------------------------------------------
// Encoding
// ---------------------------------------------------------------------------

#[verifier::external_type_specification]
#[verifier::external_body]
pub struct ExImageError(image::ImageError);

/// Bytes of the PNG file that `image` writes for a `width` x `height` RGBA
/// image.
pub uninterp spec fn png_encoding(pixels: Seq<u8>, width: nat, height: nat) -> Seq<u8>;

/// Characters of the standard, padded base64 encoding of `bytes`.
pub uninterp spec fn base64_standard(bytes: Seq<u8>) -> Seq<char>;

/// Relies on `DynamicImage::write_to` with `ImageFormat::Png` into memory:
/// on success the bytes depend on the pixels and the size alone.
#[verifier::external_body]
fn write_png(image: &ColorImage) -> (r: Result<Vec<u8>, image::ImageError>)
    requires
        image.wf(),
    ensures
        r matches Ok(bytes) ==> bytes@ == png_encoding(
            image.pixels@,
            image.width as nat,
            image.height as nat,
        ),
{
    let buffer = image::RgbaImage::from_raw(image.width, image.height, image.pixels.clone())
        .expect("buffer holds width * height pixels");
    let mut bytes: Vec<u8> = Vec::new();
    image::DynamicImage::ImageRgba8(buffer).write_to(
        &mut std::io::Cursor::new(&mut bytes),
        image::ImageFormat::Png,
    )?;
    Ok(bytes)
}

/// Relies on the `Display` text of `image::ImageError`.
#[verifier::external_body]
fn image_error_text(e: &image::ImageError) -> (r: String) {
    e.to_string()
}

/// Relies on `base64::engine::general_purpose::STANDARD.encode`.
#[verifier::external_body]
fn base64_encode(bytes: &Vec<u8>) -> (r: String)
    ensures
        r@ == base64_standard(bytes@),
{
    base64::Engine::encode(&base64::engine::general_purpose::STANDARD, bytes)
}

/// Encodes `image` as a PNG file in memory; on failure, the encoder's
/// message.
pub fn encode_png(image: &ColorImage) -> (r: Result<Vec<u8>, String>)
    requires
        image.wf(),
    ensures
        r matches Ok(bytes) ==> bytes@ == png_encoding(
            image.pixels@,
            image.width as nat,
            image.height as nat,
        ),
{
    match write_png(image) {
        Ok(bytes) => Ok(bytes),
        Err(e) => Err(image_error_text(&e)),
    }
}

pub open spec fn png_data_url(pixels: Seq<u8>, width: nat, height: nat) -> Seq<char> {
    "data:image/png;base64,"@ + base64_standard(png_encoding(pixels, width, height))
}

/// Turns the result of PNG encoding into a data URL, or into the error
/// reported for it.
pub fn data_url_of(encoded: Result<Vec<u8>, String>) -> (r: Result<String, String>)
    ensures
        encoded matches Ok(bytes) ==> r matches Ok(url) && url@ == "data:image/png;base64,"@
            + base64_standard(bytes@),
        encoded matches Err(message) ==> r matches Err(e) && e@ == "Failed to encode image to PNG: "@
            + message@,
{
    match encoded {
        Ok(bytes) => {
            let encoded = base64_encode(&bytes);
            let mut url = "data:image/png;base64,".to_string();
            url.append(encoded.as_str());
            Ok(url)
        },
        Err(message) => {
            let mut text = "Failed to encode image to PNG: ".to_string();
            text.append(message.as_str());
            Err(text)
        },
    }
}

/// Encodes `image` as a PNG data URL, for display next to the recognized
/// text.
pub fn image_to_base64(image: &ColorImage) -> (r: Result<String, String>)
    requires
        image.wf(),
    ensures
        r matches Ok(url) ==> url@ == png_data_url(
            image.pixels@,
            image.width as nat,
            image.height as nat,
        ),
        r matches Err(e) ==> "Failed to encode image to PNG: "@.is_prefix_of(e@),
{
    let r = data_url_of(encode_png(image));
    proof {
        if r is Err {
            let e = r->Err_0;
            let prefix = "Failed to encode image to PNG: "@;
            assert(e@.subrange(0, prefix.len() as int) =~= prefix);
        }
    }
    r
}

// ---------------------------------------------------------------------------
// Laws of conditioning
// ---------------------------------------------------------------------------

proof fn lemma_uniform_row(pixels: Seq<u8>, width: nat, height: nat, y: nat, k: nat, dark: bool)
    requires
        pixels.len() == width * height,
        y < height,
        k <= sample_count(width),
        forall|i: int| 0 <= i < pixels.len() ==> (#[trigger] pixels[i] < DARK_LEVEL) == dark,
    ensures
        dark_in_row(pixels, width, y, k) == if dark {
            k
        } else {
            0
        },
    decreases k,
{
    if k > 0 {
        lemma_uniform_row(pixels, width, height, y, (k - 1) as nat, dark);
        let x = 4 * (k - 1);
        assert(x < width) by (nonlinear_arith)
            requires
                x == 4 * (k - 1),
                k <= (width + 3) / 4,
                k > 0,
        ;
        assert(y * width + x < width * height) by (nonlinear_arith)
            requires
                x < width,
                y < height,
        ;
        assert(y * width + x >= 0) by (nonlinear_arith)
            requires
                x >= 0,
                y >= 0,
                width >= 0,
        ;
    }
}

proof fn lemma_uniform_rows(pixels: Seq<u8>, width: nat, height: nat, r: nat, dark: bool)
    requires
        pixels.len() == width * height,
        r <= sample_count(height),
        forall|i: int| 0 <= i < pixels.len() ==> (#[trigger] pixels[i] < DARK_LEVEL) == dark,
    ensures
        dark_in_rows(pixels, width, r) == if dark {
            r * sample_count(width)
        } else {
            0
        },
    decreases r,
{
    if r > 0 {
        lemma_uniform_rows(pixels, width, height, (r - 1) as nat, dark);
        let y = 4 * (r - 1);
        assert(y < height) by (nonlinear_arith)
            requires
                y == 4 * (r - 1),
                r <= (height + 3) / 4,
                r > 0,
        ;
        lemma_uniform_row(pixels, width, height, y as nat, sample_count(width), dark);
        assert((r - 1) * sample_count(width) + sample_count(width) == r * sample_count(width))
            by (nonlinear_arith);
    }
}

/// The polarity decision at its edges: an image whose pixels are all dark
/// is inverted, one whose pixels are all light is not, and one where exactly
/// 60% of the sampled pixels are dark is not either.
pub proof fn lemma_polarity_boundaries(pixels: Seq<u8>, width: nat, height: nat)
    requires
        pixels.len() == width * height,
    ensures
        width > 0 && height > 0 && (forall|i: int|
            0 <= i < pixels.len() ==> #[trigger] pixels[i] < DARK_LEVEL) ==> needs_inversion(
            pixels,
            width,
            height,
        ),
        (forall|i: int| 0 <= i < pixels.len() ==> #[trigger] pixels[i] >= DARK_LEVEL)
            ==> !needs_inversion(pixels, width, height),
        5 * dark_sampled(pixels, width, height) == 3 * sampled(width, height) ==> !needs_inversion(
            pixels,
            width,
            height,
        ),
        width == 0 || height == 0 ==> !needs_inversion(pixels, width, height),
{
    if forall|i: int| 0 <= i < pixels.len() ==> #[trigger] pixels[i] < DARK_LEVEL {
        lemma_uniform_rows(pixels, width, height, sample_count(height), true);
        if width > 0 && height > 0 {
            assert(sample_count(width) * sample_count(height) > 0) by (nonlinear_arith)
                requires
                    sample_count(width) > 0,
                    sample_count(height) > 0,
            ;
            assert(sample_count(height) * sample_count(width) == sampled(width, height))
                by (nonlinear_arith);
        }
    }
    if forall|i: int| 0 <= i < pixels.len() ==> #[trigger] pixels[i] >= DARK_LEVEL {
        lemma_uniform_rows(pixels, width, height, sample_count(height), false);
    }
    if width == 0 {
        assert(sampled(width, height) == 0);
        lemma_uniform_rows_zero_width(pixels, height, sample_count(height));
    }
    if height == 0 {
        assert(sample_count(height) == 0);
    }
}

proof fn lemma_uniform_rows_zero_width(pixels: Seq<u8>, height: nat, r: nat)
    ensures
        dark_in_rows(pixels, 0, r) == 0,
    decreases r,
{
    if r > 0 {
        lemma_uniform_rows_zero_width(pixels, height, (r - 1) as nat);
    }
}

/// Conditioning is deterministic: the same pixels, size and polarity give
/// the same output, byte for byte.
pub proof fn lemma_conditioning_deterministic(a: ColorImage, b: ColorImage, invert: bool)
    requires
        a.wf(),
        b.wf(),
        a.pixels@ == b.pixels@,
        a.width == b.width,
        a.height == b.height,
    ensures
        conditioned(gray_pixels(a.pixels@), a.width as nat, a.height as nat, invert) == conditioned(
            gray_pixels(b.pixels@),
            b.width as nat,
            b.height as nat,
            invert,
        ),
{
}

} // verus!
