//! Rasters in a GeoPackage: gridded-coverage tiles of 16-bit grayscale PNG, with
//! a linear mapping between pixels and values. The database itself is the
//! caller's.

use vstd::prelude::*;
use vstd::string::StringExecFns;

use crate::arith::{num, Arithmetic, Op, LEAST};
use crate::double::{Double, HIDDEN, NOT_A_NUMBER, ONE};
use crate::gpkg::{needs_srs, quote_ident, quoted, srs_name};
use crate::marginal::{find_variance, greatest_of, least_of, variance_of};
use crate::text::{
    concat2, concat3, concat4, concat5, decimal, digits, same_text, signed_digits,
};

verus! {

/// Bit pattern of the number of steps between the first and the last pixel.
pub const STEPS: u64 = 0x40EF_FFC0_0000_0000;

/// Largest tile side for which a decoded tile is known to be what was encoded.
pub const LARGEST_SIDE: u32 = 1_000_000;

/// What encoding samples as a 16-bit grayscale PNG gives: the file, or the text
/// of the error.
pub uninterp spec fn png_of(width: u32, height: u32, samples: Seq<u8>) -> Result<Seq<u8>, Seq<char>>;

/// What decoding a PNG gives: width, height, bit depth, color type and samples of
/// its first frame, or the text of the error.
pub uninterp spec fn png_frame(blob: Seq<u8>) -> Result<
    (u32, u32, Seq<char>, Seq<char>, Seq<u8>),
    Seq<char>,
>;

/// `png::Encoder` with 16-bit grayscale: writes a header and the image data. It
/// succeeds on samples of two bytes for each pixel of an image that is not empty;
/// an error is told with what failed. The size in bytes does not overflow.
#[verifier::external_body]
fn write_png(width: u32, height: u32, samples: &Vec<u8>) -> (r: Result<Vec<u8>, String>)
    requires
        2 * width * height <= usize::MAX,
    ensures
        match r {
            Ok(b) => png_of(width, height, samples@) == Ok::<Seq<u8>, Seq<char>>(b@),
            Err(e) => png_of(width, height, samples@) == Err::<Seq<u8>, Seq<char>>(e@),
        },
        width > 0 && height > 0 && samples@.len() == 2 * width * height ==> r is Ok,
{
    let mut file = Vec::new();
    let mut enc = png::Encoder::new(&mut file, width, height);
    enc.set_color(png::ColorType::Grayscale);
    enc.set_depth(png::BitDepth::Sixteen);
    let mut writer = enc.write_header().map_err(|e| format!("PNG header: {e}"))?;
    writer.write_image_data(samples).map_err(|e| format!("PNG data: {e}"))?;
    drop(writer);
    Ok(file)
}

/// The first frame of a PNG.
#[derive(Debug)]
pub struct PngFrame {
    /// Width in pixels.
    pub width: u32,
    /// Height in pixels.
    pub height: u32,
    /// Bit depth, by name.
    pub depth: String,
    /// Color type, by name.
    pub color: String,
    /// Samples.
    pub bytes: Vec<u8>,
}

impl PngFrame {
    /// 16-bit grayscale.
    pub open spec fn gray16(&self) -> bool {
        self.depth@ == "Sixteen"@ && self.color@ == "Grayscale"@
    }

    /// A 16-bit grayscale frame has two bytes for each pixel.
    pub open spec fn well_formed(&self) -> bool {
        self.gray16() ==> 2 * self.width * self.height <= self.bytes@.len()
    }

    /// The parts of the frame.
    pub open spec fn parts(&self) -> (u32, u32, Seq<char>, Seq<char>, Seq<u8>) {
        (self.width, self.height, self.depth@, self.color@, self.bytes@)
    }
}

/// A file that was encoded from an image of moderate size decodes to that image.
pub open spec fn gives_back(blob: Seq<u8>, r: Result<PngFrame, String>) -> bool {
    forall|w: u32, h: u32, samples: Seq<u8>| #[trigger]
        png_of(w, h, samples) == Ok::<Seq<u8>, Seq<char>>(blob) && 0 < w <= LARGEST_SIDE && 0 < h
            <= LARGEST_SIDE && samples.len() == 2 * w * h ==> (r matches Ok(f) && f.parts() == (
            w,
            h,
            "Sixteen"@,
            "Grayscale"@,
            samples,
        ))
}

/// `png::Decoder`: reads the header and the first frame into a buffer of
/// `output_buffer_size` bytes; an error is told with what failed. The buffer
/// holds two bytes for each pixel of a 16-bit grayscale frame. What was encoded
/// from an image of moderate size comes back as it was. The size of the buffer,
/// which the decoder keeps within 64 bits, is that of an object in memory only
/// where addresses have as many.
#[verifier::external_body]
fn read_png(blob: &[u8]) -> (r: Result<PngFrame, String>)
    requires
        usize::BITS == 64,
    ensures
        match r {
            Ok(f) => png_frame(blob@) == Ok::<
                (u32, u32, Seq<char>, Seq<char>, Seq<u8>),
                Seq<char>,
            >(f.parts()) && f.well_formed(),
            Err(e) => png_frame(blob@) == Err::<
                (u32, u32, Seq<char>, Seq<char>, Seq<u8>),
                Seq<char>,
            >(e@),
        },
        gives_back(blob@, r),
{
    let mut reader = png::Decoder::new(blob).read_info().map_err(|e| format!("PNG header: {e}"))?;
    let mut bytes = vec![0u8; reader.output_buffer_size()];
    let info = reader.next_frame(&mut bytes).map_err(|e| format!("PNG data: {e}"))?;
    Ok(
        PngFrame {
            width: info.width,
            height: info.height,
            depth: format!("{:?}", info.bit_depth),
            color: format!("{:?}", info.color_type),
            bytes,
        },
    )
}

/// Two bytes for each pixel, the high one first.
pub open spec fn pixel_bytes(px: Seq<u16>) -> Seq<u8> {
    Seq::new(
        2 * px.len(),
        |b: int|
            if b % 2 == 0 {
                (px[b / 2] / 256) as u8
            } else {
                (px[b / 2] % 256) as u8
            },
    )
}

/// The first `n` pixels of samples.
pub open spec fn pixels_of(bytes: Seq<u8>, n: nat) -> Seq<u16> {
    Seq::new(n, |i: int| (bytes[2 * i] as u16 * 256 + bytes[2 * i + 1] as u16) as u16)
}

/// Reading the bytes of pixels gives the pixels back.
pub proof fn bytes_of_pixels_read_back(px: Seq<u16>)
    ensures
        pixels_of(pixel_bytes(px), px.len()) == px,
{
    let b = pixel_bytes(px);
    assert forall|i: int| 0 <= i < px.len() implies pixels_of(b, px.len())[i] == px[i] by {
        assert((2 * i) % 2 == 0 && (2 * i) / 2 == i);
        assert((2 * i + 1) % 2 == 1 && (2 * i + 1) / 2 == i);
        assert(b[2 * i] == (px[i] / 256) as u8);
        assert(b[2 * i + 1] == (px[i] % 256) as u8);
    }
    assert(pixels_of(b, px.len()) =~= px);
}

/// What a decoded frame gives for a tile of `tw` by `th` pixels.
pub open spec fn frame_read(
    frame: (u32, u32, Seq<char>, Seq<char>, Seq<u8>),
    tw: usize,
    th: usize,
    r: Result<Vec<u16>, String>,
) -> bool {
    if !(frame.2 == "Sixteen"@ && frame.3 == "Grayscale"@) {
        r matches Err(e) && e@ == "tile is "@ + frame.2 + "/"@ + frame.3
            + "; expected 16-bit grayscale"@
    } else if frame.0 != tw || frame.1 != th {
        r matches Err(e) && e@ == "tile is "@ + digits(frame.0 as nat) + "x"@ + digits(
            frame.1 as nat,
        ) + " but the tile matrix declares "@ + digits(tw as nat) + "x"@ + digits(th as nat)
    } else {
        r matches Ok(v) && v@ == pixels_of(frame.4, tw as nat * th as nat)
    }
}

/// Pixels of a decoded frame of `tw` by `th` pixels.
pub fn read_frame(frame: &PngFrame, tw: usize, th: usize) -> (r: Result<Vec<u16>, String>)
    requires
        frame.well_formed(),
    ensures
        frame_read(frame.parts(), tw, th, r),
{
    if !same_text(frame.depth.as_str(), "Sixteen") || !same_text(
        frame.color.as_str(),
        "Grayscale",
    ) {
        return Err(
            concat5(
                "tile is ",
                frame.depth.as_str(),
                "/",
                frame.color.as_str(),
                "; expected 16-bit grayscale",
            ),
        );
    }
    if frame.width as usize != tw || frame.height as usize != th {
        return Err(
            concat4(
                concat5(
                    "tile is ",
                    decimal(frame.width as usize).as_str(),
                    "x",
                    decimal(frame.height as usize).as_str(),
                    " but the tile matrix declares ",
                ).as_str(),
                decimal(tw).as_str(),
                "x",
                decimal(th).as_str(),
            ),
        );
    }
    let ghost want = pixels_of(frame.bytes@, tw as nat * th as nat);
    assert(2 * (tw * th) == 2 * frame.width * frame.height) by (nonlinear_arith)
        requires
            tw == frame.width,
            th == frame.height,
    ;
    assert(0 <= tw * th) by (nonlinear_arith);
    let len: usize = frame.bytes.len();
    let n: usize = tw * th;
    let mut px: Vec<u16> = Vec::new();
    for i in 0..n
        invariant
            2 * n <= len,
            len == frame.bytes@.len(),
            n == tw as nat * th as nat,
            want == pixels_of(frame.bytes@, tw as nat * th as nat),
            px@ =~= want.take(i as int),
    {
        px.push(frame.bytes[2 * i] as u16 * 256 + frame.bytes[2 * i + 1] as u16);
    }
    assert(px@ =~= want);
    Ok(px)
}

/// What decoding a tile gives.
pub open spec fn tile_decoded(blob: Seq<u8>, tw: usize, th: usize, r: Result<Vec<u16>, String>) -> bool {
    match png_frame(blob) {
        Err(e) => r matches Err(t) && t@ == e,
        Ok(f) => frame_read(f, tw, th, r),
    }
}

/// The tile holds these pixels.
pub open spec fn holds_pixels(blob: Seq<u8>, w: u32, h: u32, px: Seq<u16>) -> bool {
    &&& 0 < w <= LARGEST_SIDE
    &&& 0 < h <= LARGEST_SIDE
    &&& px.len() == w * h
    &&& png_of(w, h, pixel_bytes(px)) == Ok::<Seq<u8>, Seq<char>>(blob)
}

/// Decodes a 16-bit grayscale PNG tile into its pixels, row by row. A tile that
/// holds pixels gives them back.
pub fn decode_png_u16(blob: &[u8], tw: usize, th: usize) -> (r: Result<Vec<u16>, String>)
    requires
        usize::BITS == 64,
    ensures
        tile_decoded(blob@, tw, th, r),
        forall|w: u32, h: u32, px: Seq<u16>|
            #![trigger holds_pixels(blob@, w, h, px)]
            holds_pixels(blob@, w, h, px) && tw == w && th == h ==> (r matches Ok(v) && v@ == px),
{
    match read_png(blob) {
        Err(e) => {
            proof {
                assert forall|w: u32, h: u32, px: Seq<u16>|
                    #![trigger holds_pixels(blob@, w, h, px)]
                    holds_pixels(blob@, w, h, px) && tw == w && th == h implies false by {
                    lemma_bytes_fit(w, h, px);
                }
            }
            Err(e)
        },
        Ok(frame) => {
            let r: Result<Vec<u16>, String> = read_frame(&frame, tw, th);
            proof {
                assert forall|w: u32, h: u32, px: Seq<u16>|
                    #![trigger holds_pixels(blob@, w, h, px)]
                    holds_pixels(blob@, w, h, px) && tw == w && th == h implies (r matches Ok(v)
                    && v@ == px) by {
                    lemma_bytes_fit(w, h, px);
                    bytes_of_pixels_read_back(px);
                    assert(frame.parts() == (w, h, "Sixteen"@, "Grayscale"@, pixel_bytes(px)));
                    assert(tw as nat * th as nat == px.len());
                }
            }
            r
        },
    }
}

proof fn lemma_bytes_fit(w: u32, h: u32, px: Seq<u16>)
    requires
        px.len() == w * h,
    ensures
        pixel_bytes(px).len() == 2 * w * h,
{
    assert(2 * (w * h) == 2 * w * h) by (nonlinear_arith);
}

/// The finite values, in order.
pub open spec fn finite_of(values: Seq<Double>) -> Seq<Double>
    decreases values.len(),
{
    if values.len() == 0 {
        Seq::empty()
    } else if values.last().is_finite() {
        finite_of(values.drop_last()).push(values.last())
    } else {
        finite_of(values.drop_last())
    }
}

/// Extent of the finite values, not zero.
pub open spec fn span_of<F: Fn(Op, Double, Double) -> Double>(
    ar: Arithmetic<F>,
    values: Seq<Double>,
) -> Double {
    let f = finite_of(values);
    ar.minus(greatest_of(f), least_of(f)).max(num(LEAST))
}

/// Pixel of a value: none (zero) of a value that is not finite, otherwise one for
/// the least and the last for the greatest value. A value so far above the least
/// that the distance overflows gets the last pixel.
pub open spec fn pixel_of<F: Fn(Op, Double, Double) -> Double>(
    ar: Arithmetic<F>,
    v: Double,
    min: Double,
    span: Double,
) -> u16 {
    let x = ar.plus(num(ONE), ar.times(ar.over(ar.minus(v, min), span), num(STEPS)));
    let n = x.saturated(x.rounded());
    if !v.is_finite() {
        0
    } else if x.is_nan() {
        65535
    } else if n < 1 {
        1
    } else if n > 65535 {
        65535
    } else {
        n as u16
    }
}

/// Cells without a finite value, and no others, get pixel zero.
pub proof fn only_missing_values_have_no_pixel<F: Fn(Op, Double, Double) -> Double>(
    ar: Arithmetic<F>,
    nx: nat,
    ny: nat,
    values: Seq<Double>,
    k: int,
)
    requires
        0 <= k < nx * ny,
    ensures
        image_of(ar, nx, ny, values)[k] == 0 <==> !values[flipped(
            nx as int,
            ny as int,
            k,
        )].is_finite(),
{
}

/// Position in the grid of pixel `k` of an image: rows run from north to south in
/// the image and from south to north in the grid.
pub open spec fn flipped(nx: int, ny: int, k: int) -> int {
    (ny - 1 - k / nx) * nx + k % nx
}

/// Pixels of a grid of values, row by row from north to south.
pub open spec fn image_of<F: Fn(Op, Double, Double) -> Double>(
    ar: Arithmetic<F>,
    nx: nat,
    ny: nat,
    values: Seq<Double>,
) -> Seq<u16> {
    Seq::new(
        nx * ny,
        |k: int|
            pixel_of(
                ar,
                values[flipped(nx as int, ny as int, k)],
                least_of(finite_of(values)),
                span_of(ar, values),
            ),
    )
}

/// An encoded raster: the tile, the mapping from pixels to values, and the
/// statistics of the values.
#[derive(Debug)]
pub struct RasterEncoding {
    /// The tile.
    pub png: Vec<u8>,
    /// Value of one step.
    pub scale: Double,
    /// Value of pixel zero.
    pub offset: Double,
    /// Least value.
    pub min: Double,
    /// Greatest value.
    pub max: Double,
    /// Mean.
    pub mean: Double,
    /// Standard deviation.
    pub std_dev: Double,
}

/// What encoding a raster gives.
pub open spec fn raster_encoded<F: Fn(Op, Double, Double) -> Double>(
    ar: Arithmetic<F>,
    nx: usize,
    ny: usize,
    values: Seq<Double>,
    r: Result<RasterEncoding, String>,
) -> bool {
    let f = finite_of(values);
    if f.len() == 0 {
        r matches Err(e) && e@ == "raster has no finite values"@
    } else {
        match png_of(
            nx as u32,
            ny as u32,
            pixel_bytes(image_of(ar, nx as nat, ny as nat, values)),
        ) {
            Err(t) => r matches Err(e) && e@ == t,
            Ok(file) => r matches Ok(enc) && {
                &&& enc.png@ == file
                &&& enc.scale == ar.over(span_of(ar, values), num(STEPS))
                &&& enc.offset == ar.minus(enc.min, enc.scale)
                &&& enc.min == least_of(f)
                &&& enc.max == greatest_of(f)
                &&& enc.mean == ar.average_of(f)
                &&& enc.std_dev == ar.sqrt(variance_of(ar, f))
            },
        }
    }
}

fn find_pixel<F: Fn(Op, Double, Double) -> Double>(
    v: Double,
    min: Double,
    span: Double,
    ar: &Arithmetic<F>,
) -> (p: u16)
    requires
        ar.total(),
    ensures
        p == pixel_of(*ar, v, min, span),
{
    if !v.is_finite() {
        return 0;
    }
    let x: Double = ar.plus(num(ONE), ar.times(ar.over(ar.minus(v, min), span), num(STEPS)));
    if x.is_nan() {
        return 65535;
    }
    let n: i64 = x.round();
    if n < 1 {
        1
    } else if n > 65535 {
        65535
    } else {
        n as u16
    }
}

/// Encodes a grid of values (x fastest, y increasing) as a 16-bit grayscale PNG
/// whose rows run from north to south, with the linear mapping from pixels to
/// values and the statistics of the finite values.
pub fn encode_raster<F: Fn(Op, Double, Double) -> Double>(
    nx: usize,
    ny: usize,
    values: &Vec<Double>,
    ar: &Arithmetic<F>,
) -> (r: Result<
    RasterEncoding,
    String,
>)
    requires
        ar.total(),
        values@.len() == nx * ny,
        values@.len() < 2 * HIDDEN,
        2 * values@.len() <= usize::MAX,
    ensures
        raster_encoded(*ar, nx, ny, values@, r),
        r is Ok <==> finite_of(values@).len() > 0 && png_of(
            nx as u32,
            ny as u32,
            pixel_bytes(image_of(*ar, nx as nat, ny as nat, values@)),
        ) is Ok,
        finite_of(values@).len() > 0 && nx <= u32::MAX && ny <= u32::MAX ==> r is Ok,
{
    let mut finite: Vec<Double> = Vec::new();
    for i in 0..values.len()
        invariant
            finite@ == finite_of(values@.take(i as int)),
            finite@.len() <= i,
    {
        assert(values@.take(i + 1).drop_last() =~= values@.take(i as int));
        if values[i].is_finite() {
            finite.push(values[i]);
        }
    }
    assert(values@.take(values.len() as int) =~= values@);
    if finite.len() == 0 {
        return Err("raster has no finite values".to_owned());
    }
    let ghost f = finite_of(values@);
    let mut min: Double = Double::infinity();
    let mut max: Double = Double::infinity().neg();
    for i in 0..finite.len()
        invariant
            min == least_of(finite@.take(i as int)),
            max == greatest_of(finite@.take(i as int)),
    {
        assert(finite@.take(i + 1).drop_last() =~= finite@.take(i as int));
        min = min.min(finite[i]);
        max = max.max(finite[i]);
    }
    assert(finite@.take(finite.len() as int) =~= f);
    let mean: Double = ar.mean(&finite);
    let var: Double = find_variance(&finite, mean, ar);
    let span: Double = ar.minus(max, min).max(num(LEAST));
    let scale: Double = ar.over(span, num(STEPS));
    let ghost image = image_of(*ar, nx as nat, ny as nat, values@);
    let n: usize = values.len();
    let mut samples: Vec<u8> = Vec::new();
    proof {
        if nx == 0 || ny == 0 {
            assert(nx * ny == 0) by (nonlinear_arith)
                requires
                    nx == 0 || ny == 0,
            ;
            lemma_finite_bound(values@);
        }
    }
    for k in 0..n
        invariant
            ar.total(),
            n == values@.len(),
            n == nx * ny,
            2 * n <= usize::MAX,
            nx > 0,
            ny > 0,
            min == least_of(finite_of(values@)),
            span == span_of(*ar, values@),
            image == image_of(*ar, nx as nat, ny as nat, values@),
            image.len() == n,
            samples@ =~= pixel_bytes(image).take(2 * k),
    {
        proof {
            lemma_flipped(nx as int, ny as int, k as int);
        }
        let r: usize = k / nx;
        let ix: usize = k % nx;
        let iy: usize = ny - 1 - r;
        let px: u16 = find_pixel(values[iy * nx + ix], min, span, ar);
        assert(px == image[k as int]);
        assert((2 * k) % 2 == 0 && (2 * k) / 2 == k);
        assert((2 * k + 1) % 2 == 1 && (2 * k + 1) / 2 == k as int);
        samples.push((px / 256) as u8);
        samples.push((px % 256) as u8);
    }
    assert(samples@ =~= pixel_bytes(image));
    proof {
        lemma_truncated(nx as int, ny as int, nx as u32 as int, ny as u32 as int);
        if nx <= u32::MAX && ny <= u32::MAX {
            assert(2 * (nx * ny) == 2 * (nx as u32) * (ny as u32)) by (nonlinear_arith)
                requires
                    nx == nx as u32,
                    ny == ny as u32,
            ;
        }
    }
    match write_png(
        #[verifier::truncate] (nx as u32),
        #[verifier::truncate] (ny as u32),
        &samples,
    ) {
        Err(e) => Err(e),
        Ok(png) => Ok(
            RasterEncoding {
                png,
                scale,
                offset: ar.minus(min, scale),
                min,
                max,
                mean,
                std_dev: ar.sqrt(var),
            },
        ),
    }
}

proof fn lemma_finite_bound(values: Seq<Double>)
    ensures
        finite_of(values).len() <= values.len(),
    decreases values.len(),
{
    if values.len() > 0 {
        lemma_finite_bound(values.drop_last());
    }
}

/// A pixel's position in the grid lies in the grid.
proof fn lemma_flipped(nx: int, ny: int, k: int)
    requires
        0 < nx,
        0 < ny,
        0 <= k < nx * ny,
    ensures
        0 <= k / nx < ny,
        0 <= k % nx < nx,
        0 <= (ny - 1 - k / nx) * nx,
        0 <= flipped(nx, ny, k) < nx * ny,
{
    vstd::arithmetic::div_mod::lemma_fundamental_div_mod(k, nx);
    vstd::arithmetic::div_mod::lemma_mod_bound(k, nx);
    let q = k / nx;
    let m = k % nx;
    assert(k == nx * q + m);
    assert(0 <= q < ny) by (nonlinear_arith)
        requires
            0 <= k < nx * ny,
            k == nx * q + m,
            0 <= m < nx,
    ;
    let iy = ny - 1 - q;
    assert(0 <= iy * nx && iy * nx + m < nx * ny) by (nonlinear_arith)
        requires
            0 <= iy <= ny - 1,
            0 <= m < nx,
    ;
}

/// What casts keep of two numbers multiplies to no more than the numbers.
proof fn lemma_truncated(nx: int, ny: int, w: int, h: int)
    requires
        0 <= w <= nx,
        0 <= h <= ny,
    ensures
        2 * w * h <= 2 * (nx * ny),
{
    assert(2 * w * h <= 2 * (nx * ny)) by (nonlinear_arith)
        requires
            0 <= w <= nx,
            0 <= h <= ny,
    ;
}

/// All that is written for a raster.
#[derive(Debug)]
pub struct RasterPlan {
    /// The encoded raster.
    pub encoding: RasterEncoding,
    /// Width and height of a cell.
    pub pixel: [Double; 2],
    /// Name of the reference system, where it has to be registered.
    pub srs_name: Option<String>,
    /// Statement that makes the tile table.
    pub create: String,
    /// Statement that inserts the tile.
    pub insert: String,
    /// Query for the id of the tile.
    pub select_id: String,
}

/// Statement that makes a tile table.
pub open spec fn tiles_text(layer: Seq<char>) -> Seq<char> {
    "CREATE TABLE "@ + quoted(layer)
        + " (id INTEGER PRIMARY KEY AUTOINCREMENT, zoom_level INTEGER NOT NULL, tile_column INTEGER NOT NULL, tile_row INTEGER NOT NULL, tile_data BLOB NOT NULL, UNIQUE (zoom_level, tile_column, tile_row))"@
}

/// What planning a raster gives.
pub open spec fn raster_planned<F: Fn(Op, Double, Double) -> Double>(
    ar: Arithmetic<F>,
    layer: Seq<char>,
    srs_id: i32,
    nx: usize,
    ny: usize,
    bbox: Seq<Double>,
    values: Seq<Double>,
    r: Result<RasterPlan, String>,
) -> bool {
    if values.len() != nx * ny {
        r matches Err(e) && e@ == digits(values.len()) + " values for an "@ + digits(nx as nat)
            + "x"@ + digits(ny as nat) + " grid"@
    } else {
        match r {
            Err(e) => raster_encoded(ar, nx, ny, values, Err(e)),
            Ok(p) => {
                &&& raster_encoded(ar, nx, ny, values, Ok(p.encoding))
                &&& p.pixel@ == seq![
                    ar.over(ar.minus(bbox[2], bbox[0]), Double::count(nx as nat)),
                    ar.over(ar.minus(bbox[3], bbox[1]), Double::count(ny as nat)),
                ]
                &&& match p.srs_name {
                    Some(s) => needs_srs(srs_id) && s@ == "SRS "@ + signed_digits(srs_id as int),
                    None => !needs_srs(srs_id),
                }
                &&& p.create@ == tiles_text(layer)
                &&& p.insert@ == "INSERT INTO "@ + quoted(layer)
                    + " (zoom_level, tile_column, tile_row, tile_data) VALUES (0, 0, 0, ?1)"@
                &&& p.select_id@ == "SELECT id FROM "@ + quoted(layer) + " WHERE zoom_level=0"@
            },
        }
    }
}

/// Plans what is written for a raster: one tile that holds the whole grid.
/// `bbox` is least x, least y, greatest x, greatest y.
pub fn plan_raster<F: Fn(Op, Double, Double) -> Double>(
    layer: &str,
    srs_id: i32,
    nx: usize,
    ny: usize,
    bbox: [Double; 4],
    values: &Vec<Double>,
    ar: &Arithmetic<F>,
) -> (r: Result<RasterPlan, String>)
    requires
        ar.total(),
        nx * ny <= usize::MAX,
        nx < 2 * HIDDEN,
        ny < 2 * HIDDEN,
        values@.len() < 2 * HIDDEN,
        2 * values@.len() <= usize::MAX,
    ensures
        raster_planned(*ar, layer@, srs_id, nx, ny, bbox@, values@, r),
{
    assert(0 <= nx * ny) by (nonlinear_arith);
    if values.len() != nx * ny {
        return Err(
            concat2(
                concat5(
                    decimal(values.len()).as_str(),
                    " values for an ",
                    decimal(nx).as_str(),
                    "x",
                    decimal(ny).as_str(),
                ).as_str(),
                " grid",
            ),
        );
    }
    let encoding: RasterEncoding = match encode_raster(nx, ny, values, ar) {
        Err(e) => {
            return Err(e);
        },
        Ok(enc) => enc,
    };
    let pixel: [Double; 2] = [
        ar.over(ar.minus(bbox[2], bbox[0]), Double::from_count(nx)),
        ar.over(ar.minus(bbox[3], bbox[1]), Double::from_count(ny)),
    ];
    assert(pixel@ =~= seq![
        ar.over(ar.minus(bbox@[2], bbox@[0]), Double::count(nx as nat)),
        ar.over(ar.minus(bbox@[3], bbox@[1]), Double::count(ny as nat)),
    ]);
    let table: String = quote_ident(layer);
    Ok(
        RasterPlan {
            encoding,
            pixel,
            srs_name: srs_name(srs_id),
            create: concat3(
                "CREATE TABLE ",
                table.as_str(),
                " (id INTEGER PRIMARY KEY AUTOINCREMENT, zoom_level INTEGER NOT NULL, tile_column INTEGER NOT NULL, tile_row INTEGER NOT NULL, tile_data BLOB NOT NULL, UNIQUE (zoom_level, tile_column, tile_row))",
            ),
            insert: concat3(
                "INSERT INTO ",
                table.as_str(),
                " (zoom_level, tile_column, tile_row, tile_data) VALUES (0, 0, 0, ?1)",
            ),
            select_id: concat3("SELECT id FROM ", table.as_str(), " WHERE zoom_level=0"),
        },
    )
}

/// A raster read from a GeoPackage: values with x fastest and y increasing, NaN
/// where there is no data.
#[derive(Debug)]
pub struct RasterGrid {
    /// Coverage (tile-table) name.
    pub name: String,
    /// Spatial reference system id.
    pub srs_id: i64,
    /// Number of columns.
    pub nx: usize,
    /// Number of rows.
    pub ny: usize,
    /// Least x, least y, greatest x, greatest y.
    pub bbox: [Double; 4],
    /// Cell values.
    pub values: Vec<Double>,
}

/// Cell along an axis in which a coordinate lies, not beyond the last.
pub open spec fn cell_along<F: Fn(Op, Double, Double) -> Double>(
    ar: Arithmetic<F>,
    x: Double,
    lo: Double,
    hi: Double,
    n: nat,
) -> int {
    let q = ar.over(ar.minus(x, lo), ar.over(ar.minus(hi, lo), Double::count(n)));
    let i = q.saturated(q.truncated());
    if i < 0 {
        0
    } else if i > n - 1 {
        n - 1
    } else {
        i
    }
}

fn find_cell<F: Fn(Op, Double, Double) -> Double>(
    x: Double,
    lo: Double,
    hi: Double,
    n: usize,
    ar: &Arithmetic<F>,
) -> (i: usize)
    requires
        ar.total(),
        0 < n < 2 * HIDDEN,
    ensures
        i == cell_along(*ar, x, lo, hi, n as nat),
        i < n,
{
    let i: i64 = ar.over(
        ar.minus(x, lo),
        ar.over(ar.minus(hi, lo), Double::from_count(n)),
    ).trunc();
    if i < 0 {
        0
    } else if i as u64 > (n - 1) as u64 {
        n - 1
    } else {
        i as usize
    }
}

impl RasterGrid {
    /// One value for each cell, and at least one cell.
    pub open spec fn well_formed(&self) -> bool {
        &&& 0 < self.nx < 2 * HIDDEN
        &&& 0 < self.ny < 2 * HIDDEN
        &&& self.values@.len() == self.nx * self.ny
    }

    /// The point lies outside the extent.
    pub open spec fn outside(&self, x: Double, y: Double) -> bool {
        x.lt(self.bbox@[0]) || self.bbox@[2].lt(x) || y.lt(self.bbox@[1]) || self.bbox@[3].lt(y)
    }

    /// Value of the cell in which a point lies.
    pub open spec fn value_near<F: Fn(Op, Double, Double) -> Double>(
        &self,
        ar: Arithmetic<F>,
        x: Double,
        y: Double,
    ) -> Double {
        let ix = cell_along(ar, x, self.bbox@[0], self.bbox@[2], self.nx as nat);
        let iy = cell_along(ar, y, self.bbox@[1], self.bbox@[3], self.ny as nat);
        self.values@[iy * self.nx + ix]
    }

    /// Value at a point; nothing outside the extent or where there is no data.
    pub open spec fn sampled<F: Fn(Op, Double, Double) -> Double>(
        &self,
        ar: Arithmetic<F>,
        x: Double,
        y: Double,
    ) -> Option<Double> {
        if self.outside(x, y) || !self.value_near(ar, x, y).is_finite() {
            None
        } else {
            Some(self.value_near(ar, x, y))
        }
    }

    /// Value of the cell in which a point lies; nothing outside the extent or
    /// where there is no data.
    pub fn sample<F: Fn(Op, Double, Double) -> Double>(
        &self,
        x: Double,
        y: Double,
        ar: &Arithmetic<F>,
    ) -> (r: Option<Double>)
        requires
            self.well_formed(),
            ar.total(),
        ensures
            r == self.sampled(*ar, x, y),
    {
        if x.lt(self.bbox[0]) || self.bbox[2].lt(x) || y.lt(self.bbox[1]) || self.bbox[3].lt(y) {
            return None;
        }
        let ix: usize = find_cell(x, self.bbox[0], self.bbox[2], self.nx, ar);
        let iy: usize = find_cell(y, self.bbox[1], self.bbox[3], self.ny, ar);
        let nx: usize = self.nx;
        let len: usize = self.values.len();
        assert(0 <= iy * nx && iy * nx + ix < self.nx * self.ny) by (nonlinear_arith)
            requires
                nx == self.nx,
                iy < self.ny,
                ix < nx,
        ;
        let v: Double = self.values[iy * nx + ix];
        if v.is_finite() {
            Some(v)
        } else {
            None
        }
    }
}

/// A tile as it is stored.
#[derive(Debug)]
pub struct Tile {
    /// Column among the tiles.
    pub column: usize,
    /// Row among the tiles.
    pub row: usize,
    /// PNG file.
    pub png: Vec<u8>,
}

/// Mapping from pixels to values.
#[derive(Debug, Clone, Copy, PartialEq, Eq, Structural)]
pub struct PixelMap {
    /// Value of one step.
    pub scale: Double,
    /// Value of pixel zero.
    pub offset: Double,
    /// Pixel without data.
    pub null: Double,
}

impl PixelMap {
    /// Value of a pixel.
    pub open spec fn value<F: Fn(Op, Double, Double) -> Double>(self, ar: Arithmetic<F>, px: u16) -> Double {
        let d = Double::count(px as nat);
        if d.eq_value(self.null) {
            num(NOT_A_NUMBER)
        } else {
            ar.plus(ar.times(d, self.scale), self.offset)
        }
    }
}

/// Number of tiles and their size.
#[derive(Debug, Clone, Copy, PartialEq, Eq, Structural)]
pub struct TileMatrix {
    /// Tiles from west to east.
    pub columns: usize,
    /// Tiles from north to south.
    pub rows: usize,
    /// Width of a tile in pixels.
    pub width: usize,
    /// Height of a tile in pixels.
    pub height: usize,
}

impl TileMatrix {
    /// Width of the image.
    pub open spec fn nx(self) -> int {
        self.columns * self.width
    }

    /// Height of the image.
    pub open spec fn ny(self) -> int {
        self.rows * self.height
    }

    /// The tile covers the pixel in row `r`, column `c` of the image.
    pub open spec fn covers(self, tile: Tile, r: int, c: int) -> bool {
        &&& tile.row * self.height <= r < tile.row * self.height + self.height
        &&& tile.column * self.width <= c < tile.column * self.width + self.width
    }

    /// Position in the tile of the pixel in row `r`, column `c` of the image.
    pub open spec fn within(self, tile: Tile, r: int, c: int) -> int {
        (r - tile.row * self.height) * self.width + (c - tile.column * self.width)
    }

    /// Nothing about the tile is beyond what can be counted.
    pub open spec fn reaches(self, tile: Tile) -> bool {
        &&& tile.row * self.height + self.height <= usize::MAX
        &&& tile.column * self.width + self.width <= usize::MAX
    }
}

/// Value of a pixel of the image after the first `n` tiles: that of the last tile
/// that covers it, NaN where none does.
pub open spec fn painted<F: Fn(Op, Double, Double) -> Double>(
    ar: Arithmetic<F>,
    m: TileMatrix,
    map: PixelMap,
    tiles: Seq<Tile>,
    pixels: Seq<Seq<u16>>,
    n: int,
    r: int,
    c: int,
) -> Double
    decreases n,
{
    if n <= 0 {
        num(NOT_A_NUMBER)
    } else if m.covers(tiles[n - 1], r, c) {
        map.value(ar, pixels[n - 1][m.within(tiles[n - 1], r, c)])
    } else {
        painted(ar, m, map, tiles, pixels, n - 1, r, c)
    }
}

/// `pixels` are those of the tiles.
pub open spec fn tiles_decoded(m: TileMatrix, tiles: Seq<Tile>, pixels: Seq<Seq<u16>>) -> bool {
    &&& pixels.len() == tiles.len()
    &&& forall|i: int| 0 <= i < tiles.len() ==> tile_holds(m, #[trigger] tiles[i], pixels[i])
}

/// The tile decodes to these pixels.
pub open spec fn tile_holds(m: TileMatrix, tile: Tile, px: Seq<u16>) -> bool {
    exists|v: Vec<u16>| #[trigger]
        tile_decoded(tile.png@, m.width, m.height, Ok(v)) && v@ == px
}

/// The tile decodes.
pub open spec fn decodes(m: TileMatrix, tile: Tile) -> bool {
    exists|px: Seq<u16>| tile_holds(m, tile, px)
}

/// Tile `i` is the first that does not decode, with this text.
pub open spec fn fails_at(m: TileMatrix, tiles: Seq<Tile>, e: String, i: int) -> bool {
    &&& 0 <= i < tiles.len()
    &&& tile_decoded(tiles[i].png@, m.width, m.height, Err(e))
    &&& forall|j: int| 0 <= j < i ==> decodes(m, #[trigger] tiles[j])
}

/// Some tile does not decode; the text is that of the first.
pub open spec fn tile_fails(m: TileMatrix, tiles: Seq<Tile>, e: String) -> bool {
    exists|i: int| fails_at(m, tiles, e, i)
}

/// Values of the grid: the image with its rows from south to north.
pub open spec fn grid_values<F: Fn(Op, Double, Double) -> Double>(
    ar: Arithmetic<F>,
    m: TileMatrix,
    map: PixelMap,
    tiles: Seq<Tile>,
    pixels: Seq<Seq<u16>>,
) -> Seq<Double> {
    Seq::new(
        (m.nx() * m.ny()) as nat,
        |k: int|
            painted(
                ar,
                m,
                map,
                tiles,
                pixels,
                tiles.len() as int,
                m.ny() - 1 - k / m.nx(),
                k % m.nx(),
            ),
    )
}

/// What assembling tiles gives.
pub open spec fn assembled<F: Fn(Op, Double, Double) -> Double>(
    ar: Arithmetic<F>,
    m: TileMatrix,
    map: PixelMap,
    tiles: Seq<Tile>,
    r: Result<Vec<Double>, String>,
) -> bool {
    match r {
        Err(e) => tile_fails(m, tiles, e),
        Ok(v) => exists|pixels: Seq<Seq<u16>>| #[trigger]
            tiles_decoded(m, tiles, pixels) && v@ == grid_values(ar, m, map, tiles, pixels),
    }
}

/// `rows` hold the image after the first `n` tiles.
pub open spec fn shows<F: Fn(Op, Double, Double) -> Double>(
    ar: Arithmetic<F>,
    m: TileMatrix,
    map: PixelMap,
    tiles: Seq<Tile>,
    pixels: Seq<Seq<u16>>,
    n: int,
    rows: Seq<Vec<Double>>,
) -> bool {
    &&& rows.len() == m.ny()
    &&& forall|r: int|
        0 <= r < rows.len() ==> row_shows(ar, m, map, tiles, pixels, n, r, (#[trigger] rows[r])@)
}

/// `row` holds row `r` of the image after the first `n` tiles.
pub open spec fn row_shows<F: Fn(Op, Double, Double) -> Double>(
    ar: Arithmetic<F>,
    m: TileMatrix,
    map: PixelMap,
    tiles: Seq<Tile>,
    pixels: Seq<Seq<u16>>,
    n: int,
    r: int,
    row: Seq<Double>,
) -> bool {
    &&& row.len() == m.nx()
    &&& forall|c: int|
        0 <= c < row.len() ==> #[trigger] row[c] == painted(ar, m, map, tiles, pixels, n, r, c)
}

fn find_value<F: Fn(Op, Double, Double) -> Double>(map: PixelMap, px: u16, ar: &Arithmetic<F>) -> (v: Double)
    requires
        ar.total(),
    ensures
        v == map.value(*ar, px),
{
    let d: Double = Double::from_count(px as usize);
    if d.eq_value(map.null) {
        Double::not_a_number()
    } else {
        ar.plus(ar.times(d, map.scale), map.offset)
    }
}

/// Row `r` of the image with the tile painted over it.
fn paint_row<F: Fn(Op, Double, Double) -> Double>(
    row: &Vec<Double>,
    r: usize,
    tile: &Tile,
    px: &Vec<u16>,
    m: TileMatrix,
    map: PixelMap,
    ar: &Arithmetic<F>,
) -> (out: Vec<Double>)
    requires
        ar.total(),
        m.reaches(*tile),
        px@.len() == m.width * m.height,
    ensures
        out@ == Seq::new(
            row@.len(),
            |c: int|
                if m.covers(*tile, r as int, c) {
                    map.value(*ar, px@[m.within(*tile, r as int, c)])
                } else {
                    row@[c]
                },
        ),
{
    let ghost want = Seq::new(
        row@.len(),
        |c: int|
            if m.covers(*tile, r as int, c) {
                map.value(*ar, px@[m.within(*tile, r as int, c)])
            } else {
                row@[c]
            },
    );
    assert(0 <= tile.row * m.height && 0 <= tile.column * m.width) by (nonlinear_arith);
    let top: usize = tile.row * m.height;
    let left: usize = tile.column * m.width;
    let len: usize = px.len();
    let here: bool = top <= r && r < top + m.height;
    let mut out: Vec<Double> = Vec::new();
    for c in 0..row.len()
        invariant
            ar.total(),
            len == px@.len(),
            len == m.width * m.height,
            top == tile.row * m.height,
            left == tile.column * m.width,
            top + m.height <= usize::MAX,
            left + m.width <= usize::MAX,
            here == (top <= r < top + m.height),
            want == Seq::new(
                row@.len(),
                |c: int|
                    if m.covers(*tile, r as int, c) {
                        map.value(*ar, px@[m.within(*tile, r as int, c)])
                    } else {
                        row@[c]
                    },
            ),
            out@ =~= want.take(c as int),
    {
        if here && left <= c && c < left + m.width {
            let ty: usize = r - top;
            let tx: usize = c - left;
            let w: usize = m.width;
            assert(0 <= ty * w && ty * w + tx < m.width * m.height) by (nonlinear_arith)
                requires
                    w == m.width,
                    ty < m.height,
                    tx < w,
            ;
            out.push(find_value(map, px[ty * w + tx], ar));
        } else {
            out.push(row[c]);
        }
    }
    assert(out@ =~= want);
    out
}

/// Decodes the tiles and puts them together: a grid with x fastest and y
/// increasing, NaN where there is no data. A later tile covers an earlier one.
pub fn assemble<F: Fn(Op, Double, Double) -> Double>(
    tiles: &Vec<Tile>,
    m: TileMatrix,
    map: PixelMap,
    ar: &Arithmetic<F>,
) -> (r: Result<Vec<Double>, String>)
    requires
        usize::BITS == 64,
        ar.total(),
        m.nx() <= usize::MAX,
        m.ny() <= usize::MAX,
        m.nx() * m.ny() <= usize::MAX,
        forall|i: int| 0 <= i < tiles@.len() ==> m.reaches(#[trigger] tiles@[i]),
    ensures
        assembled(*ar, m, map, tiles@, r),
        r matches Ok(v) ==> v@.len() == m.nx() * m.ny(),
{
    assert(0 <= m.columns * m.width && 0 <= m.rows * m.height) by (nonlinear_arith);
    let nx: usize = m.columns * m.width;
    let ny: usize = m.rows * m.height;
    let ghost mut pixels: Seq<Seq<u16>> = Seq::empty();
    let mut rows: Vec<Vec<Double>> = Vec::new();
    for r in 0..ny
        invariant
            nx == m.nx(),
            rows.len() == r,
            forall|k: int|
                0 <= k < r ==> row_shows(
                    *ar,
                    m,
                    map,
                    tiles@,
                    pixels,
                    0,
                    k,
                    (#[trigger] rows@[k])@,
                ),
    {
        let mut row: Vec<Double> = Vec::new();
        for c in 0..nx
            invariant
                row.len() == c,
                forall|k: int| 0 <= k < c ==> #[trigger] row@[k] == num(NOT_A_NUMBER),
        {
            row.push(Double::not_a_number());
        }
        rows.push(row);
    }
    for i in 0..tiles.len()
        invariant
            usize::BITS == 64,
            ar.total(),
            nx == m.nx(),
            ny == m.ny(),
            forall|k: int| 0 <= k < tiles@.len() ==> m.reaches(#[trigger] tiles@[k]),
            pixels.len() == i,
            forall|k: int| 0 <= k < i ==> tile_holds(m, #[trigger] tiles@[k], pixels[k]),
            shows(*ar, m, map, tiles@, pixels, i as int, rows@),
    {
        let decoded: Result<Vec<u16>, String> = decode_png_u16(
            tiles[i].png.as_slice(),
            m.width,
            m.height,
        );
        assert(tile_decoded(tiles@[i as int].png@, m.width, m.height, decoded));
        match decoded {
            Err(e) => {
                proof {
                    assert forall|j: int| 0 <= j < i implies decodes(m, #[trigger] tiles@[j]) by {
                        assert(tile_holds(m, tiles@[j], pixels[j]));
                    }
                    assert(fails_at(m, tiles@, e, i as int));
                }
                return Err(e);
            },
            Ok(px) => {
                let ghost before = pixels;
                proof {
                    assert(m.width as nat * m.height as nat == m.width * m.height);
                    pixels = pixels.push(px@);
                    assert(tile_holds(m, tiles@[i as int], px@));
                }
                let mut next: Vec<Vec<Double>> = Vec::new();
                for r in 0..ny
                    invariant
                        ar.total(),
                        nx == m.nx(),
                        ny == m.ny(),
                        i < tiles@.len(),
                        m.reaches(tiles@[i as int]),
                        px@.len() == m.width * m.height,
                        before.len() == i,
                        pixels == before.push(px@),
                        shows(*ar, m, map, tiles@, before, i as int, rows@),
                        next.len() == r,
                        forall|k: int|
                            0 <= k < r ==> row_shows(
                                *ar,
                                m,
                                map,
                                tiles@,
                                pixels,
                                i + 1,
                                k,
                                (#[trigger] next@[k])@,
                            ),
                {
                    let row: Vec<Double> = paint_row(&rows[r], r, &tiles[i], &px, m, map, ar);
                    proof {
                        assert(row_shows(
                            *ar,
                            m,
                            map,
                            tiles@,
                            before,
                            i as int,
                            r as int,
                            rows@[r as int]@,
                        ));
                        assert forall|c: int| 0 <= c < row@.len() implies #[trigger] row@[c]
                            == painted(*ar, m, map, tiles@, pixels, i + 1, r as int, c) by {
                            lemma_painted(
                                *ar,
                                m,
                                map,
                                tiles@,
                                before,
                                pixels,
                                i as int,
                                r as int,
                                c,
                            );
                            assert(rows@[r as int]@[c] == painted(
                                *ar,
                                m,
                                map,
                                tiles@,
                                before,
                                i as int,
                                r as int,
                                c,
                            ));
                        }
                    }
                    next.push(row);
                }
                rows = next;
            },
        }
    }
    assert(tiles_decoded(m, tiles@, pixels));
    let ghost want = grid_values(*ar, m, map, tiles@, pixels);
    assert(0 * nx == 0) by (nonlinear_arith);
    let mut values: Vec<Double> = Vec::new();
    for iy in 0..ny
        invariant
            nx == m.nx(),
            ny == m.ny(),
            shows(*ar, m, map, tiles@, pixels, tiles@.len() as int, rows@),
            want == grid_values(*ar, m, map, tiles@, pixels),
            values@.len() == iy * nx,
            forall|k: int| 0 <= k < values@.len() ==> #[trigger] values@[k] == want[k],
    {
        let r: usize = ny - 1 - iy;
        assert(row_shows(
            *ar,
            m,
            map,
            tiles@,
            pixels,
            tiles@.len() as int,
            r as int,
            rows@[r as int]@,
        ));
        for ix in 0..nx
            invariant
                nx == m.nx(),
                ny == m.ny(),
                iy < ny,
                r == ny - 1 - iy,
                r < rows.len(),
                row_shows(
                    *ar,
                    m,
                    map,
                    tiles@,
                    pixels,
                    tiles@.len() as int,
                    r as int,
                    rows@[r as int]@,
                ),
                want == grid_values(*ar, m, map, tiles@, pixels),
                values@.len() == iy * nx + ix,
                forall|k: int| 0 <= k < values@.len() ==> #[trigger] values@[k] == want[k],
        {
            proof {
                vstd::arithmetic::div_mod::lemma_fundamental_div_mod_converse(
                    iy * nx + ix,
                    nx as int,
                    iy as int,
                    ix as int,
                );
                assert(0 <= iy * nx + ix < nx * ny) by (nonlinear_arith)
                    requires
                        iy < ny,
                        ix < nx,
                ;
                assert(want[iy * nx + ix] == painted(
                    *ar,
                    m,
                    map,
                    tiles@,
                    pixels,
                    tiles@.len() as int,
                    r as int,
                    ix as int,
                ));
            }
            values.push(rows[r][ix]);
        }
        assert((iy + 1) * nx == iy * nx + nx) by (nonlinear_arith);
    }
    proof {
        assert(ny * nx == nx * ny) by (nonlinear_arith);
        assert(values@ =~= want);
    }
    Ok(values)
}

/// What the image shows after one more tile.
proof fn lemma_painted<F: Fn(Op, Double, Double) -> Double>(
    ar: Arithmetic<F>,
    m: TileMatrix,
    map: PixelMap,
    tiles: Seq<Tile>,
    before: Seq<Seq<u16>>,
    after: Seq<Seq<u16>>,
    n: int,
    r: int,
    c: int,
)
    requires
        0 <= n < after.len(),
        before.len() == n,
        forall|k: int| 0 <= k < n ==> before[k] == #[trigger] after[k],
    ensures
        painted(ar, m, map, tiles, after, n, r, c) == painted(ar, m, map, tiles, before, n, r, c),
        painted(ar, m, map, tiles, after, n + 1, r, c) == (if m.covers(tiles[n], r, c) {
            map.value(ar, after[n][m.within(tiles[n], r, c)])
        } else {
            painted(ar, m, map, tiles, before, n, r, c)
        }),
{
    lemma_painted_agree(ar, m, map, tiles, before, after, n, r, c);
}

proof fn lemma_painted_agree<F: Fn(Op, Double, Double) -> Double>(
    ar: Arithmetic<F>,
    m: TileMatrix,
    map: PixelMap,
    tiles: Seq<Tile>,
    a: Seq<Seq<u16>>,
    b: Seq<Seq<u16>>,
    n: int,
    r: int,
    c: int,
)
    requires
        forall|k: int| 0 <= k < n ==> a[k] == #[trigger] b[k],
    ensures
        painted(ar, m, map, tiles, a, n, r, c) == painted(ar, m, map, tiles, b, n, r, c),
    decreases n,
{
    if n > 0 {
        assert(a[n - 1] == b[n - 1]);
        lemma_painted_agree(ar, m, map, tiles, a, b, n - 1, r, c);
    }
}

/// A raster that was written as one tile reads back cell by cell: NaN where the
/// value was not finite, otherwise the value of its pixel.
pub proof fn written_raster_reads_back<F: Fn(Op, Double, Double) -> Double>(
    ar: Arithmetic<F>,
    nx: usize,
    ny: usize,
    values: Seq<Double>,
    map: PixelMap,
    tile: Tile,
    k: int,
)
    requires
        0 < nx,
        0 < ny,
        values.len() == nx * ny,
        tile.column == 0,
        tile.row == 0,
        map.null.eq_value(num(0)),
        0 <= k < nx * ny,
    ensures
        ({
            let m = TileMatrix { columns: 1, rows: 1, width: nx, height: ny };
            let px = image_of(ar, nx as nat, ny as nat, values);
            let back = grid_values(ar, m, map, seq![tile], seq![px]);
            let p = pixel_of(ar, values[k], least_of(finite_of(values)), span_of(ar, values));
            &&& back.len() == values.len()
            &&& back[k] == map.value(ar, p)
            &&& !values[k].is_finite() ==> back[k] == num(NOT_A_NUMBER)
        }),
{
    let m = TileMatrix { columns: 1, rows: 1, width: nx, height: ny };
    let px = image_of(ar, nx as nat, ny as nat, values);
    let n = nx as int;
    let h = ny as int;
    assert(m.nx() == n && m.ny() == h) by (nonlinear_arith)
        requires
            m.columns == 1,
            m.rows == 1,
            m.width == n,
            m.height == h,
    ;
    lemma_flipped(n, h, k);
    vstd::arithmetic::div_mod::lemma_fundamental_div_mod(k, n);
    let r = h - 1 - k / n;
    let c = k % n;
    assert(0 * ny == 0 && 0 * nx == 0) by (nonlinear_arith);
    assert(m.covers(tile, r, c));
    let at = m.within(tile, r, c);
    assert(at == r * n + c);
    assert(0 <= at < n * h) by {
        assert(0 <= r * n + c < n * h) by (nonlinear_arith)
            requires
                0 <= r < h,
                0 <= c < n,
        ;
    }
    vstd::arithmetic::div_mod::lemma_fundamental_div_mod_converse(at, n, r, c);
    assert(flipped(n, h, at) == k) by {
        assert((h - 1 - r) * n + c == k) by (nonlinear_arith)
            requires
                r == h - 1 - k / n,
                k == n * (k / n) + c,
        ;
    }
    assert(nx as nat * ny as nat == n * h);
    reveal_with_fuel(painted, 2);
    let back = grid_values(ar, m, map, seq![tile], seq![px]);
    assert(back.len() == values.len());
    assert(seq![tile].len() == 1 && seq![px].len() == 1);
    assert(seq![tile][0] == tile && seq![px][0] == px);
    assert(back[k] == map.value(ar, px[at]));
    if !values[k].is_finite() {
        lemma_count_zero();
        assert(px[at] == 0);
    }
}

/// The double that equals zero is zero.
proof fn lemma_count_zero()
    ensures
        Double::count(0) == num(0),
{
    reveal_with_fuel(Double::scaled, 2);
}

/// Text that refuses a coverage whose tiles are not PNG.
pub open spec fn datatype_text(name: Seq<char>, datatype: Seq<char>) -> Seq<char> {
    "coverage '"@ + name + "' has datatype '"@ + datatype + "'; only 'integer' (PNG) is supported"@
}

/// Refuses a coverage whose tiles are not PNG.
pub fn check_datatype(name: &str, datatype: &str) -> (r: Result<(), String>)
    ensures
        match r {
            Ok(_) => datatype@ == "integer"@,
            Err(e) => datatype@ != "integer"@ && e@ == datatype_text(name@, datatype@),
        },
{
    if same_text(datatype, "integer") {
        return Ok(());
    }
    Err(
        concat5(
            "coverage '",
            name,
            "' has datatype '",
            datatype,
            "'; only 'integer' (PNG) is supported",
        ),
    )
}

/// Query for the tiles of a coverage.
pub fn tiles_sql(name: &str) -> (s: String)
    ensures
        s@ == "SELECT tile_column, tile_row, tile_data FROM "@ + quoted(name@)
            + " WHERE zoom_level = ?1"@,
{
    concat3(
        "SELECT tile_column, tile_row, tile_data FROM ",
        quote_ident(name).as_str(),
        " WHERE zoom_level = ?1",
    )
}

} // verus!
