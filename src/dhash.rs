//! The difference hash: a 64-bit fingerprint of an image's coarse brightness
//! structure.

use crate::ihash::IHash;
use vstd::arithmetic::div_mod::{lemma_fundamental_div_mod, lemma_fundamental_div_mod_converse};
use vstd::prelude::*;

verus! {

/// A grayscale image: one byte per pixel, rows from the top, each row from the left.
pub struct LumaGrid {
    pub width: u32,
    pub height: u32,
    pub pixels: Vec<u8>,
}

/// A color image: four bytes (red, green, blue, alpha) per pixel, in the same order.
pub struct RgbaGrid {
    pub width: u32,
    pub height: u32,
    pub rgba: Vec<u8>,
}

impl LumaGrid {
    pub open spec fn wf(&self) -> bool {
        self.pixels@.len() == self.width as int * self.height as int
    }
}

impl RgbaGrid {
    pub open spec fn wf(&self) -> bool {
        self.rgba@.len() == 4 * (self.width as int * self.height as int)
    }
}

/// How pixels are sampled when an image is resized.
#[derive(Clone, Copy, Debug, PartialEq, Eq, Structural)]
pub enum Filter {
    Nearest,
    Triangle,
    CatmullRom,
    Gaussian,
    Lanczos3,
}

/// Width of the grid a fingerprint is computed from.
pub const HASH_GRID_WIDTH: u32 = 9;

/// Height of the grid a fingerprint is computed from.
pub const HASH_GRID_HEIGHT: u32 = 8;

/// Filters whose resampling gives the same pixels on every platform.
pub open spec fn reproducible(filter: Filter) -> bool {
    filter == Filter::Nearest || filter == Filter::Triangle
}

/// The brightness of a red, green, blue triple, with the sRGB luma weights.
pub open spec fn luma(r: u8, g: u8, b: u8) -> u8 {
    ((2126 * r + 7152 * g + 722 * b) / 10000) as u8
}

/// The grayscale pixels of four-byte color pixels.
pub open spec fn luma_pixels(rgba: Seq<u8>) -> Seq<u8> {
    Seq::new(rgba.len() / 4, |i: int| luma(rgba[4 * i], rgba[4 * i + 1], rgba[4 * i + 2]))
}

/// The pixels of a `width` x `height` grid turned a quarter clockwise: the
/// result is `height` wide and `width` high.
pub open spec fn rotated_pixels(width: nat, height: nat, pixels: Seq<u8>) -> Seq<u8> {
    Seq::new(
        width * height,
        |k: int| pixels[(height - 1 - k % (height as int)) * width + k / (height as int)],
    )
}

/// The pixels that the image crate's resampling gives for a grid resized to
/// `nwidth` x `nheight` with `filter`. Only the nearest-neighbour and triangle
/// filters are bound to it: their weights use exactly rounded arithmetic,
/// while the others use `powi`, `exp` and `sin`, whose precision varies
/// between platforms.
pub uninterp spec fn resized_pixels(
    width: u32,
    height: u32,
    pixels: Seq<u8>,
    nwidth: u32,
    nheight: u32,
    filter: Filter,
) -> Seq<u8>;

/// Relies on the image crate's `Luma::from_color` for 8-bit RGBA pixels
/// (reached through `DynamicImage::to_luma8`), which computes
/// `(2126 r + 7152 g + 722 b) / 10000` in integers.
#[verifier::external_body]
fn to_luma(image: &RgbaGrid) -> (r: LumaGrid)
    requires
        image.wf(),
    ensures
        r.width == image.width,
        r.height == image.height,
        r.pixels@ == luma_pixels(image.rgba@),
{
    let buf = image::RgbaImage::from_raw(image.width, image.height, image.rgba.clone()).unwrap();
    let gray = image::DynamicImage::ImageRgba8(buf).to_luma8();
    LumaGrid { width: image.width, height: image.height, pixels: gray.into_raw() }
}

/// Relies on the image crate's `DynamicImage::resize_exact`, which resamples an
/// image to exactly the given size (an empty source gives zeros); with the nearest-neighbour or
/// triangle filter the pixels depend on the arguments alone.
#[verifier::external_body]
fn resize_exact(grid: &LumaGrid, nwidth: u32, nheight: u32, filter: Filter) -> (r: LumaGrid)
    requires
        grid.wf(),
        4 * (grid.width as int * nheight as int) <= usize::MAX,
    ensures
        r.width == nwidth,
        r.height == nheight,
        reproducible(filter) ==> r.pixels@ == resized_pixels(
            grid.width,
            grid.height,
            grid.pixels@,
            nwidth,
            nheight,
            filter,
        ),
        r.wf(),
{
    let buf = image::GrayImage::from_raw(grid.width, grid.height, grid.pixels.clone()).unwrap();
    let f = match filter {
        Filter::Nearest => image::imageops::FilterType::Nearest,
        Filter::Triangle => image::imageops::FilterType::Triangle,
        Filter::CatmullRom => image::imageops::FilterType::CatmullRom,
        Filter::Gaussian => image::imageops::FilterType::Gaussian,
        Filter::Lanczos3 => image::imageops::FilterType::Lanczos3,
    };
    let small = image::DynamicImage::ImageLuma8(buf).resize_exact(nwidth, nheight, f);
    LumaGrid { width: nwidth, height: nheight, pixels: small.into_luma8().into_raw() }
}

/// Relies on the image crate's `imageops::rotate90`, which writes the pixel at
/// column `x`, row `y` to column `height - 1 - y`, row `x` of a `height` x `width` image.
#[verifier::external_body]
fn rotate90(grid: &LumaGrid) -> (r: LumaGrid)
    requires
        grid.wf(),
    ensures
        r.width == grid.height,
        r.height == grid.width,
        r.pixels@ == rotated_pixels(grid.width as nat, grid.height as nat, grid.pixels@),
        r.wf(),
{
    let buf = image::GrayImage::from_raw(grid.width, grid.height, grid.pixels.clone()).unwrap();
    let turned = image::imageops::rotate90(&buf);
    LumaGrid { width: grid.height, height: grid.width, pixels: turned.into_raw() }
}

/// One bit per pixel of row `y` after the first: whether it is strictly
/// brighter than its left neighbour.
pub open spec fn row_bits(width: nat, pixels: Seq<u8>, y: nat) -> Seq<bool> {
    if width == 0 {
        Seq::empty()
    } else {
        Seq::new(
            (width - 1) as nat,
            |x: int| pixels[y * width + x + 1] > pixels[y * width + x],
        )
    }
}

/// The comparison bits of the first `rows` rows, in scan order.
pub open spec fn grid_bits(width: nat, pixels: Seq<u8>, rows: nat) -> Seq<bool>
    decreases rows,
{
    if rows == 0 {
        Seq::empty()
    } else {
        grid_bits(width, pixels, (rows - 1) as nat) + row_bits(width, pixels, (rows - 1) as nat)
    }
}

/// Packs bits into an integer, the first bit most significant; only the
/// last 64 bits remain.
pub open spec fn pack_bits(bits: Seq<bool>) -> u64
    decreases bits.len(),
{
    if bits.len() == 0 {
        0
    } else {
        let high = pack_bits(bits.drop_last());
        if bits.last() {
            (high << 1u64) | 1u64
        } else {
            high << 1u64
        }
    }
}

/// The difference hash of a grid.
pub open spec fn dhash_value(width: nat, height: nat, pixels: Seq<u8>) -> u64 {
    pack_bits(grid_bits(width, pixels, height))
}

/// The difference hash of a grid after it is resized to the hash grid.
pub open spec fn shrunk_hash(width: u32, height: u32, pixels: Seq<u8>, filter: Filter) -> u64 {
    dhash_value(
        HASH_GRID_WIDTH as nat,
        HASH_GRID_HEIGHT as nat,
        resized_pixels(width, height, pixels, HASH_GRID_WIDTH, HASH_GRID_HEIGHT, filter),
    )
}

/// The hashes of a `width` x `height` grid turned by 0, 90, 180 and 270
/// degrees clockwise, in that order.
pub open spec fn rotation_hashes(width: u32, height: u32, g0: Seq<u8>, filter: Filter) -> Seq<u64> {
    let g1 = rotated_pixels(width as nat, height as nat, g0);
    let g2 = rotated_pixels(height as nat, width as nat, g1);
    let g3 = rotated_pixels(width as nat, height as nat, g2);
    seq![
        shrunk_hash(width, height, g0, filter),
        shrunk_hash(height, width, g1, filter),
        shrunk_hash(width, height, g2, filter),
        shrunk_hash(height, width, g3, filter),
    ]
}

proof fn lemma_half_turn(w: nat, h: nat, p: Seq<u8>)
    requires
        p.len() == w * h,
    ensures
        rotated_pixels(h, w, rotated_pixels(w, h, p)) =~= Seq::new(
            w * h,
            |k: int| p[w * h - 1 - k],
        ),
{
    let q = rotated_pixels(w, h, p);
    let r = rotated_pixels(h, w, q);
    assert(h * w == w * h) by (nonlinear_arith);
    assert forall|k: int| 0 <= k < w * h implies r[k] == p[w * h - 1 - k] by {
        let (wi, hi) = (w as int, h as int);
        let a = wi - 1 - k % wi;
        let b = k / wi;
        assert(wi > 0) by (nonlinear_arith)
            requires
                0 <= k < wi * hi,
                hi >= 0,
        ;
        lemma_fundamental_div_mod(k, wi);
        assert(k == b * wi + k % wi) by (nonlinear_arith)
            requires
                k == wi * (k / wi) + k % wi,
                b == k / wi,
        ;
        assert(0 <= b < hi) by (nonlinear_arith)
            requires
                k == b * wi + k % wi,
                0 <= k % wi < wi,
                0 <= k < wi * hi,
        ;
        let j = a * hi + b;
        lemma_fundamental_div_mod_converse(j, hi, a, b);
        assert(0 <= j < wi * hi) by (nonlinear_arith)
            requires
                0 <= a < wi,
                0 <= b < hi,
                j == a * hi + b,
        ;
        assert(r[k] == q[j]);
        assert(q[j] == p[(hi - 1 - b) * wi + a]);
        assert((hi - 1 - b) * wi + a == wi * hi - 1 - k) by (nonlinear_arith)
            requires
                k == b * wi + k % wi,
                a == wi - 1 - k % wi,
        ;
    }
}

/// Turning a grid a quarter clockwise moves each of its rotation hashes one
/// place forward: the hashes of the turned grid are those of the grid,
/// starting from the quarter turn.
pub proof fn quarter_turn_shifts_rotation_hashes(width: u32, height: u32, g: Seq<u8>, filter: Filter)
    requires
        g.len() == width as int * height as int,
    ensures
        forall|i: int|
            0 <= i < 4 ==> #[trigger] rotation_hashes(
                height,
                width,
                rotated_pixels(width as nat, height as nat, g),
                filter,
            )[i] == rotation_hashes(width, height, g, filter)[(i + 1) % 4],
{
    let (w, h) = (width as nat, height as nat);
    let g1 = rotated_pixels(w, h, g);
    let g2 = rotated_pixels(h, w, g1);
    let g3 = rotated_pixels(w, h, g2);
    let g4 = rotated_pixels(h, w, g3);
    lemma_half_turn(w, h, g);
    assert(g2.len() == w * h);
    lemma_half_turn(w, h, g2);
    assert(g4 =~= g);
}

proof fn lemma_pixel_index(y: int, x: int, width: int, height: int)
    requires
        0 <= y < height,
        0 <= x < width,
    ensures
        0 <= y * width + x < width * height,
{
    assert(0 <= y * width + x < width * height) by (nonlinear_arith)
        requires
            0 <= y < height,
            0 <= x < width,
    ;
}

/// Fingerprints a grid: each bit tells whether a pixel is strictly brighter
/// than its left neighbour, in scan order, the first bit most significant.
pub fn dhash_small_luma(small: &LumaGrid) -> (r: IHash)
    requires
        small.wf(),
    ensures
        r.value == dhash_value(small.width as nat, small.height as nat, small.pixels@),
{
    let w = small.width as usize;
    let h = small.height as usize;
    let ghost px = small.pixels@;
    assert(w as int * h as int == small.pixels.len());
    let mut hash: u64 = 0;
    let mut y: usize = 0;
    while y < h
        invariant
            y <= h,
            w == small.width,
            h == small.height,
            px == small.pixels@,
            small.wf(),
            w as int * h as int <= usize::MAX,
            hash == pack_bits(grid_bits(w as nat, px, y as nat)),
        decreases h - y,
    {
        let ghost done = grid_bits(w as nat, px, y as nat);
        let ghost row = row_bits(w as nat, px, y as nat);
        if w > 0 {
            proof {
                lemma_pixel_index(y as int, 0, w as int, h as int);
            }
            let mut prev: u8 = small.pixels[y * w];
            let mut x: usize = 1;
            assert(done + row.take(0) =~= done);
            while x < w
                invariant
                    1 <= x <= w,
                    y < h,
                    w == small.width,
                    h == small.height,
                    px == small.pixels@,
                    small.wf(),
                    w as int * h as int <= usize::MAX,
                    row == row_bits(w as nat, px, y as nat),
                    y * w + x - 1 < w * h,
                    prev == px[y * w + x - 1],
                    hash == pack_bits(done + row.take(x - 1)),
                decreases w - x,
            {
                proof {
                    lemma_pixel_index(y as int, x as int, w as int, h as int);
                }
                let pixel = small.pixels[y * w + x];
                assert((done + row.take(x as int)).drop_last() =~= done + row.take(x - 1));
                assert((done + row.take(x as int)).last() == (pixel > prev));
                if pixel > prev {
                    hash = (hash << 1u64) | 1u64;
                } else {
                    hash = hash << 1u64;
                }
                prev = pixel;
                x = x + 1;
            }
            assert(row.take(w - 1) =~= row);
        } else {
            assert(done + row =~= done);
        }
        y = y + 1;
    }
    IHash::new(hash)
}

/// Fingerprints an image: to grayscale, resized to the hash grid with `filter`.
pub fn dhash_once(image: &RgbaGrid, filter: Filter) -> (r: IHash)
    requires
        image.wf(),
        4 * (image.width as int * HASH_GRID_HEIGHT as int) <= usize::MAX,
    ensures
        reproducible(filter) ==> r.value == shrunk_hash(
            image.width,
            image.height,
            luma_pixels(image.rgba@),
            filter,
        ),
{
    let gray = to_luma(image);
    let small = resize_exact(&gray, HASH_GRID_WIDTH, HASH_GRID_HEIGHT, filter);
    dhash_small_luma(&small)
}

/// Fingerprints an image with the triangle filter.
pub fn dhash(image: &RgbaGrid) -> (r: IHash)
    requires
        image.wf(),
        4 * (image.width as int * HASH_GRID_HEIGHT as int) <= usize::MAX,
    ensures
        r.value == shrunk_hash(image.width, image.height, luma_pixels(image.rgba@), Filter::Triangle),
{
    dhash_once(image, Filter::Triangle)
}

/// Fingerprints of the grayscale image turned by 0, 90, 180 and 270 degrees
/// clockwise, in that order.
pub fn dhash_rotations(image: &RgbaGrid, filter: Filter) -> (r: Vec<IHash>)
    requires
        image.wf(),
        4 * (image.width as int * HASH_GRID_HEIGHT as int) <= usize::MAX,
        4 * (image.height as int * HASH_GRID_HEIGHT as int) <= usize::MAX,
    ensures
        r.len() == 4,
        reproducible(filter) ==> forall|i: int|
            0 <= i < 4 ==> (#[trigger] r[i]).value == rotation_hashes(
                image.width,
                image.height,
                luma_pixels(image.rgba@),
                filter,
            )[i],
{
    let mut hashes: Vec<IHash> = Vec::new();
    let mut gray = to_luma(image);
    let mut turn: usize = 0;
    while turn < 4
        invariant
            turn <= 4,
            hashes.len() == turn,
            gray.wf(),
            4 * (gray.width as int * HASH_GRID_HEIGHT as int) <= usize::MAX,
            4 * (gray.height as int * HASH_GRID_HEIGHT as int) <= usize::MAX,
            ({
                let w = image.width;
                let h = image.height;
                let g0 = luma_pixels(image.rgba@);
                let g1 = rotated_pixels(w as nat, h as nat, g0);
                let g2 = rotated_pixels(h as nat, w as nat, g1);
                let g3 = rotated_pixels(w as nat, h as nat, g2);
                &&& turn == 0 ==> gray.width == w && gray.height == h && gray.pixels@ == g0
                &&& turn == 1 ==> gray.width == h && gray.height == w && gray.pixels@ == g1
                &&& turn == 2 ==> gray.width == w && gray.height == h && gray.pixels@ == g2
                &&& turn == 3 ==> gray.width == h && gray.height == w && gray.pixels@ == g3
                &&& turn > 0 && reproducible(filter) ==> hashes[0].value == shrunk_hash(w, h, g0, filter)
                &&& turn > 1 && reproducible(filter) ==> hashes[1].value == shrunk_hash(h, w, g1, filter)
                &&& turn > 2 && reproducible(filter) ==> hashes[2].value == shrunk_hash(w, h, g2, filter)
                &&& turn > 3 && reproducible(filter) ==> hashes[3].value == shrunk_hash(h, w, g3, filter)
            }),
        decreases 4 - turn,
    {
        let small = resize_exact(&gray, HASH_GRID_WIDTH, HASH_GRID_HEIGHT, filter);
        hashes.push(dhash_small_luma(&small));
        if turn < 3 {
            gray = rotate90(&gray);
        }
        turn = turn + 1;
    }
    assert(reproducible(filter) ==> forall|i: int|
        0 <= i < 4 ==> (#[trigger] hashes[i]).value == rotation_hashes(
            image.width,
            image.height,
            luma_pixels(image.rgba@),
            filter,
        )[i]);
    hashes
}

/// Fingerprinting with a reproducible filter is a function of the image and
/// the filter: two results computed from the same image with the same filter
/// are equal.
pub proof fn dhash_deterministic(image: RgbaGrid, filter: Filter, first: IHash, second: IHash)
    requires
        reproducible(filter),
        first.value == shrunk_hash(image.width, image.height, luma_pixels(image.rgba@), filter),
        second.value == shrunk_hash(image.width, image.height, luma_pixels(image.rgba@), filter),
    ensures
        first == second,
{
}

} // verus!
