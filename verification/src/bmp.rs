//! The uncompressed 24-bit bitmap encoder.
//!
//! A file is a 54-byte header followed by the rows of the image from the
//! bottom one to the top one. Each pixel takes three bytes, blue first, and
//! each row is padded with zero bytes to a multiple of four.

use vstd::prelude::*;
use crate::framebuffer::{lemma_cell_index, Framebuffer, FramebufferView};

verus! {

/// The length of the file header in bytes.
pub const BMP_HEADER_SIZE: usize = 54;

/// The number of zero bytes that follow the pixels of each row.
pub open spec fn row_padding(width: int) -> int {
    (4 - (width * 3) % 4) % 4
}

/// The length of a whole file for an image of the given extent.
pub open spec fn bmp_size(width: int, height: int) -> int {
    54 + width * height * 3 + height * row_padding(width)
}

/// The extent and the file length fit the header's 32-bit fields.
pub open spec fn encodable(width: int, height: int) -> bool {
    &&& 0 <= width <= u32::MAX
    &&& 0 <= height <= u32::MAX
    &&& bmp_size(width, height) <= u32::MAX
}

/// The four bytes of a 32-bit value, least significant first.
pub open spec fn le_bytes(v: u32) -> Seq<u8> {
    seq![
        (v % 256) as u8,
        (v / 256 % 256) as u8,
        (v / 65536 % 256) as u8,
        (v / 16777216) as u8,
    ]
}

/// The value that four bytes spell, least significant first.
pub open spec fn le_value(bytes: Seq<u8>) -> int {
    bytes[0] + 256 * bytes[1] + 65536 * bytes[2] + 16777216 * bytes[3]
}

/// The file header: the magic `BM`, the file length, two reserved 16-bit
/// zeros, the offset of the pixel data (54), the length of the info header
/// (40), width, height, one plane, 24 bits per pixel, no compression, and
/// five 32-bit fields left at zero.
pub open spec fn bmp_header(width: int, height: int) -> Seq<u8> {
    seq![0x42u8, 0x4Du8] + le_bytes(bmp_size(width, height) as u32) + seq![0u8, 0u8, 0u8, 0u8]
        + le_bytes(54) + le_bytes(40) + le_bytes(width as u32) + le_bytes(height as u32)
        + seq![1u8, 0u8, 24u8, 0u8] + Seq::new(24, |i: int| 0u8)
}

/// The three bytes of one pixel in file order: blue, green, red, taken from
/// the low, middle and high byte of the packed value `0x00RRGGBB`.
pub open spec fn bgr(pixel: u32) -> Seq<u8> {
    seq![(pixel % 256) as u8, (pixel / 256 % 256) as u8, (pixel / 65536 % 256) as u8]
}

/// The bytes of the first `n` pixels of row `y`, left to right.
pub open spec fn row_pixels(pixels: Seq<u32>, width: int, y: int, n: int) -> Seq<u8>
    decreases n,
{
    if n <= 0 {
        Seq::empty()
    } else {
        row_pixels(pixels, width, y, n - 1) + bgr(pixels[y * width + (n - 1)])
    }
}

/// One row of the file: its pixels, then the padding.
pub open spec fn bmp_row(pixels: Seq<u32>, width: int, y: int) -> Seq<u8> {
    row_pixels(pixels, width, y, width) + Seq::new(row_padding(width) as nat, |i: int| 0u8)
}

/// The rows `n - 1`, `n - 2`, ..., `0` of the image, in that order.
pub open spec fn bmp_rows(pixels: Seq<u32>, width: int, n: int) -> Seq<u8>
    decreases n,
{
    if n <= 0 {
        Seq::empty()
    } else {
        bmp_row(pixels, width, n - 1) + bmp_rows(pixels, width, n - 1)
    }
}

/// The pixel data of the file: all rows, the bottom one first.
pub open spec fn bmp_pixel_data(pixels: Seq<u32>, width: int, height: int) -> Seq<u8> {
    bmp_rows(pixels, width, height)
}

/// The whole file for a frame buffer.
pub open spec fn bmp_file(v: FramebufferView) -> Seq<u8> {
    bmp_header(v.width as int, v.height as int) + bmp_pixel_data(
        v.pixels,
        v.width as int,
        v.height as int,
    )
}

/// The length of a row in the file: its pixels and its padding.
pub open spec fn row_stride(width: int) -> int {
    3 * width + row_padding(width)
}

/// The first `n` pixels of a row take three bytes each.
pub proof fn lemma_row_pixels_len(pixels: Seq<u32>, width: int, y: int, n: int)
    requires
        0 <= n,
    ensures
        row_pixels(pixels, width, y, n).len() == 3 * n,
    decreases n,
{
    if n > 0 {
        lemma_row_pixels_len(pixels, width, y, n - 1);
    }
}

/// Every row of the file is a multiple of four bytes long, and `n` rows
/// take `n` times the length of one.
pub proof fn lemma_bmp_rows_len(pixels: Seq<u32>, width: int, n: int)
    requires
        0 <= width,
        0 <= n,
    ensures
        row_stride(width) % 4 == 0,
        n > 0 ==> bmp_row(pixels, width, n - 1).len() == row_stride(width),
        bmp_rows(pixels, width, n).len() == n * row_stride(width),
        n * row_stride(width) == width * n * 3 + n * row_padding(width),
    decreases n,
{
    let stride = row_stride(width);
    if n > 0 {
        lemma_bmp_rows_len(pixels, width, n - 1);
        lemma_row_pixels_len(pixels, width, n - 1, width);
        assert((n - 1) * stride + stride == n * stride) by (nonlinear_arith);
    }
    assert(n * stride == width * n * 3 + n * row_padding(width)) by (nonlinear_arith)
        requires
            stride == 3 * width + row_padding(width),
    ;
    assert(0 * stride == 0) by (nonlinear_arith);
}

/// Four little-endian bytes spell the value they were made from.
pub proof fn lemma_le_value_of_bytes(v: u32)
    ensures
        le_bytes(v).len() == 4,
        le_value(le_bytes(v)) == v,
{
}

/// The length that the header announces is the length of the file,
/// `54 + width * height * 3 + height * padding`, and the header's width and
/// height fields are the extent of the image.
pub proof fn lemma_file_size(v: FramebufferView)
    requires
        encodable(v.width as int, v.height as int),
    ensures
        bmp_header(v.width as int, v.height as int).len() == 54,
        bmp_file(v).len() == 54 + v.width * v.height * 3 + v.height * ((4 - (v.width * 3) % 4)
            % 4),
        le_value(bmp_file(v).subrange(2, 6)) == bmp_file(v).len(),
        le_value(bmp_file(v).subrange(18, 22)) == v.width,
        le_value(bmp_file(v).subrange(22, 26)) == v.height,
{
    let w = v.width as int;
    let h = v.height as int;
    let file = bmp_file(v);
    lemma_bmp_rows_len(v.pixels, w, h);
    assert(bmp_header(w, h).len() == 54);
    assert(file.subrange(2, 6) =~= le_bytes(bmp_size(w, h) as u32));
    assert(file.subrange(18, 22) =~= le_bytes(w as u32));
    assert(file.subrange(22, 26) =~= le_bytes(h as u32));
    lemma_le_value_of_bytes(bmp_size(w, h) as u32);
    lemma_le_value_of_bytes(w as u32);
    lemma_le_value_of_bytes(h as u32);
    assert(0 <= w * h * 3 && 0 <= h * row_padding(w)) by (nonlinear_arith)
        requires
            0 <= w,
            0 <= h,
            0 <= row_padding(w),
    ;
}

/// Where each byte of a pixel stands in the pixel data: channel `c` of the
/// pixel in column `x` of row `y` is in the row counted `y` from the end,
/// at `3 * x + c` within it.
pub proof fn lemma_pixel_data_layout(
    pixels: Seq<u32>,
    width: int,
    height: int,
    x: int,
    y: int,
    c: int,
)
    requires
        0 <= x < width,
        0 <= y < height,
        0 <= c < 3,
    ensures
        0 <= (height - 1 - y) * row_stride(width) + 3 * x + c < bmp_pixel_data(
            pixels,
            width,
            height,
        ).len(),
        bmp_pixel_data(pixels, width, height)[(height - 1 - y) * row_stride(width) + 3 * x + c]
            == bgr(pixels[y * width + x])[c],
    decreases height,
{
    let stride = row_stride(width);
    lemma_bmp_rows_len(pixels, width, height);
    lemma_bmp_rows_len(pixels, width, height - 1);
    lemma_row_pixels_len(pixels, width, height - 1, width);
    if y == height - 1 {
        assert(0 * stride == 0) by (nonlinear_arith);
        lemma_row_pixel_bytes(pixels, width, y, width, x, c);
    } else {
        lemma_pixel_data_layout(pixels, width, height - 1, x, y, c);
        assert((height - 1 - y) * stride == stride + (height - 1 - 1 - y) * stride)
            by (nonlinear_arith);
    }
}

/// Behind the pixels of each row the pixel data holds zero bytes.
pub proof fn lemma_pixel_data_padding(pixels: Seq<u32>, width: int, height: int, y: int, p: int)
    requires
        0 <= width,
        0 <= y < height,
        0 <= p < row_padding(width),
    ensures
        0 <= (height - 1 - y) * row_stride(width) + 3 * width + p < bmp_pixel_data(
            pixels,
            width,
            height,
        ).len(),
        bmp_pixel_data(pixels, width, height)[(height - 1 - y) * row_stride(width) + 3 * width + p]
            == 0,
    decreases height,
{
    let stride = row_stride(width);
    lemma_bmp_rows_len(pixels, width, height);
    lemma_bmp_rows_len(pixels, width, height - 1);
    lemma_row_pixels_len(pixels, width, height - 1, width);
    if y == height - 1 {
        assert(0 * stride == 0) by (nonlinear_arith);
    } else {
        lemma_pixel_data_padding(pixels, width, height - 1, y, p);
        assert((height - 1 - y) * stride == stride + (height - 1 - 1 - y) * stride)
            by (nonlinear_arith);
    }
}

/// Within the first `n` pixels of a row, pixel `x` stands at `3 * x`.
proof fn lemma_row_pixel_bytes(pixels: Seq<u32>, width: int, y: int, n: int, x: int, c: int)
    requires
        0 <= x < n,
        0 <= c < 3,
    ensures
        row_pixels(pixels, width, y, n)[3 * x + c] == bgr(pixels[y * width + x])[c],
    decreases n,
{
    lemma_row_pixels_len(pixels, width, y, n - 1);
    if x < n - 1 {
        lemma_row_pixel_bytes(pixels, width, y, n - 1, x, c);
    }
}

/// The padding of a row, computed.
pub fn padding_bytes(width: usize) -> (padding: usize)
    ensures
        padding == row_padding(width as int),
        padding < 4,
{
    let tripled: u128 = (width as u128) * 3;
    ((4 - tripled % 4) % 4) as usize
}

/// The file length for the given extent, where it fits the header.
pub fn checked_bmp_size(width: usize, height: usize) -> (size: Option<u32>)
    ensures
        size is Some == encodable(width as int, height as int),
        size is Some ==> size->0 == bmp_size(width as int, height as int),
{
    if width > 0xFFFF_FFFF || height > 0xFFFF_FFFF {
        return None;
    }
    let w: u128 = width as u128;
    let h: u128 = height as u128;
    let padding: u128 = padding_bytes(width) as u128;
    assert(w * h <= 0xFFFF_FFFF * 0xFFFF_FFFF) by (nonlinear_arith)
        requires
            w <= 0xFFFF_FFFF,
            h <= 0xFFFF_FFFF,
    ;
    assert(h * padding <= 0xFFFF_FFFF * 3) by (nonlinear_arith)
        requires
            h <= 0xFFFF_FFFF,
            padding <= 3,
    ;
    let size: u128 = 54 + w * h * 3 + h * padding;
    if size <= 0xFFFF_FFFF {
        Some(size as u32)
    } else {
        None
    }
}

/// Overwrites four bytes of `buf`, starting at `at`, with `v` in
/// little-endian order.
fn put_le32(buf: &mut Vec<u8>, at: usize, v: u32)
    requires
        at + 4 <= old(buf)@.len(),
    ensures
        final(buf)@ == old(buf)@.subrange(0, at as int) + le_bytes(v) + old(buf)@.subrange(
            at + 4,
            old(buf)@.len() as int,
        ),
{
    assert(v & 0xFF == v % 256 && (v >> 8) & 0xFF == v / 256 % 256 && (v >> 16) & 0xFF == v
        / 65536 % 256 && (v >> 24) & 0xFF == v / 16777216) by (bit_vector);
    assert(buf.len() <= usize::MAX);
    buf[at] = (v & 0xFF) as u8;
    buf[at + 1] = ((v >> 8) & 0xFF) as u8;
    buf[at + 2] = ((v >> 16) & 0xFF) as u8;
    buf[at + 3] = ((v >> 24) & 0xFF) as u8;
    assert(buf@ =~= old(buf)@.subrange(0, at as int) + le_bytes(v) + old(buf)@.subrange(
        at + 4,
        old(buf)@.len() as int,
    ));
}

/// Appends the file header for an image of the given extent.
pub fn write_bmp_header(out: &mut Vec<u8>, width: usize, height: usize)
    requires
        encodable(width as int, height as int),
    ensures
        final(out)@ == old(out)@ + bmp_header(width as int, height as int),
{
    let padding = padding_bytes(width);
    assert(0 <= width * height && 0 <= height * padding) by (nonlinear_arith);
    let file_size: u32 = (BMP_HEADER_SIZE + width * height * 3 + height * padding) as u32;
    let mut header: Vec<u8> = vec![
        0x42, 0x4D,  // magic
        0, 0, 0, 0,  // file size
        0, 0,  // reserved
        0, 0,  // reserved
        54, 0, 0, 0,  // offset of the pixel data
        40, 0, 0, 0,  // size of the info header
        0, 0, 0, 0,  // width
        0, 0, 0, 0,  // height
        1, 0,  // planes
        24, 0,  // bits per pixel
        0, 0, 0, 0,  // compression
        0, 0, 0, 0,  // image size
        0, 0, 0, 0,  // horizontal resolution
        0, 0, 0, 0,  // vertical resolution
        0, 0, 0, 0,  // colours in the table
        0, 0, 0, 0,  // important colours
    ];
    put_le32(&mut header, 2, file_size);
    put_le32(&mut header, 18, width as u32);
    put_le32(&mut header, 22, height as u32);
    assert(header@ =~= bmp_header(width as int, height as int));
    out.append(&mut header);
}

/// Appends the pixel data: the rows of `buffer` from the last to the first,
/// each pixel as blue, green, red, each row padded to a multiple of four
/// bytes.
pub fn write_pixel_data(out: &mut Vec<u8>, buffer: &[u32], width: usize, height: usize)
    requires
        buffer@.len() == width * height,
    ensures
        final(out)@ == old(out)@ + bmp_pixel_data(buffer@, width as int, height as int),
{
    let padding = padding_bytes(width);
    assert(buffer.len() <= usize::MAX);
    let mut y: usize = height;
    while y > 0
        invariant
            y <= height,
            buffer@.len() == width * height,
            width * height <= usize::MAX,
            padding == row_padding(width as int),
            out@ + bmp_rows(buffer@, width as int, y as int) == old(out)@ + bmp_rows(
                buffer@,
                width as int,
                height as int,
            ),
        decreases y,
    {
        y -= 1;
        let ghost row_start = out@;
        let mut x: usize = 0;
        while x < width
            invariant
                x <= width,
                y < height,
                buffer@.len() == width * height,
                width * height <= usize::MAX,
                out@ == row_start + row_pixels(buffer@, width as int, y as int, x as int),
            decreases width - x,
        {
            proof {
                lemma_cell_index(x as int, y as int, width as int, height as int);
            }
            let pixel = buffer[y * width + x];
            assert(pixel & 0xFF == pixel % 256 && (pixel >> 8) & 0xFF == pixel / 256 % 256 && (pixel
                >> 16) & 0xFF == pixel / 65536 % 256) by (bit_vector);
            out.push((pixel & 0xFF) as u8);
            out.push(((pixel >> 8) & 0xFF) as u8);
            out.push(((pixel >> 16) & 0xFF) as u8);
            x += 1;
            assert(out@ =~= row_start + row_pixels(buffer@, width as int, y as int, x as int));
        }
        let ghost row_end = out@;
        let mut p: usize = 0;
        while p < padding
            invariant
                p <= padding,
                out@ == row_end + Seq::new(p as nat, |i: int| 0u8),
            decreases padding - p,
        {
            out.push(0);
            p += 1;
            assert(out@ =~= row_end + Seq::new(p as nat, |i: int| 0u8));
        }
        assert(out@ + bmp_rows(buffer@, width as int, y as int) =~= row_start + bmp_rows(
            buffer@,
            width as int,
            y + 1,
        ));
    }
}

/// Appends a whole file: the header, then the pixel data.
pub fn write_bmp_file(out: &mut Vec<u8>, buffer: &[u32], width: usize, height: usize)
    requires
        encodable(width as int, height as int),
        buffer@.len() == width * height,
    ensures
        final(out)@ == old(out)@ + bmp_header(width as int, height as int) + bmp_pixel_data(
            buffer@,
            width as int,
            height as int,
        ),
{
    write_bmp_header(out, width, height);
    write_pixel_data(out, buffer, width, height);
}

/// Something that can be encoded as a bitmap file.
pub trait BmpRenderable {
    /// The bytes of the bitmap file, where the image fits the format.
    fn render_to_bmp(&self) -> Option<Vec<u8>>;
}

impl BmpRenderable for Framebuffer {
    /// The file for this buffer. The encoding succeeds exactly when the
    /// extent and the file length fit the header's 32-bit fields.
    fn render_to_bmp(&self) -> (file: Option<Vec<u8>>)
        ensures
            file is Some == encodable(self@.width as int, self@.height as int),
            file is Some ==> file->0@ == bmp_file(self@),
    {
        if checked_bmp_size(self.width(), self.height()).is_none() {
            return None;
        }
        proof {
            self.lemma_view_wf();
        }
        let mut file: Vec<u8> = Vec::new();
        write_bmp_file(&mut file, self.buffer().as_slice(), self.width(), self.height());
        assert(file@ =~= bmp_file(self@));
        Some(file)
    }
}

} // verus!
