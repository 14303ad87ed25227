//! Cursor image decoding: .cur / .ico / .ani / .png
//!
//! Hotspot handling (never blindly (0,0)):
//! - .cur: hotspot from ICONDIRENTRY bytes 4..8
//! - .ani: hotspot from the ICONDIRENTRY of the embedded icon frames
//!   (RIFF 'ACON' -> LIST 'fram' -> 'icon' chunks, each a complete .ico)
//! - .ico: icons have no hotspot concept -> center of the image
//! - .png: no embedded hotspot -> center of the image
use vstd::prelude::*;
use vstd::slice::slice_subrange;
use vstd::arithmetic::div_mod::lemma_fundamental_div_mod_converse;
use crate::text::{lowercase_of, str_eq, to_lowercase};

verus! {

/// What the `image` crate's built-in decoders make of a byte string, as
/// 8-bit RGBA: width, height and pixel bytes; or the text of the error it
/// reports when the format is not recognized by its signature or the bytes do
/// not decode.
pub uninterp spec fn image_decoded(bytes: Seq<u8>) -> Result<(u32, u32, Seq<u8>), Seq<char>>;

/// Calls `image::guess_format` (the crate's built-in signature table only) to
/// pick the format and `image::load_from_memory_with_format` to decode with
/// that built-in decoder, then converts to 8-bit RGBA
/// (`DynamicImage::to_rgba8`, `ImageBuffer::dimensions`,
/// `ImageBuffer::into_raw`); an error is turned into its display text
/// (`ToString::to_string`). These entry points never consult the
/// process-wide format and decoding hooks of `image::hooks`, so the result
/// depends on the bytes alone. Claimed: it is the fixed function
/// `image_decoded` of the bytes, and a decoded buffer holds
/// width * height * 4 bytes (the decoder fills a buffer of exactly its
/// `total_bytes`, and `to_rgba8` converts pixel for pixel); nothing is stated
/// of which byte strings decode, of the pixel values or of the error texts.
#[verifier::external_body]
fn decode_image(bytes: &[u8]) -> (res: Result<(u32, u32, Vec<u8>), String>)
    ensures
        match res {
            Ok(t) => image_decoded(bytes@) == Ok::<_, Seq<char>>((t.0, t.1, t.2@)) && t.2@.len()
                == t.0 * t.1 * 4,
            Err(m) => image_decoded(bytes@) == Err::<(u32, u32, Seq<u8>), _>(m@),
        },
{
    let decoded = match image::guess_format(bytes) {
        Ok(format) => image::load_from_memory_with_format(bytes, format),
        Err(e) => Err(e),
    };
    match decoded {
        Ok(img) => {
            let rgba = img.to_rgba8();
            let (w, h) = rgba.dimensions();
            Ok((w, h, rgba.into_raw()))
        },
        Err(e) => Err(e.to_string()),
    }
}

/// What the `image` crate's Triangle-filter resampling makes of a `w` x `h`
/// RGBA buffer at `nw` x `nh`.
pub uninterp spec fn resized_rgba(w: u32, h: u32, rgba: Seq<u8>, nw: u32, nh: u32) -> Seq<u8>;

/// Calls `ImageBuffer::from_raw` on the RGBA bytes and then
/// `imageops::resize` with `FilterType::Triangle` (`into_raw` converts the
/// result). `resize` allocates a `w` x `nh` and an `nw` x `nh` buffer and
/// panics when their lengths overflow `usize`, so those are required to fit.
/// Claimed, as the crate's source shows: `from_raw` fails exactly when
/// `w * h * 4` overflows `usize` or the buffer is shorter than that; the
/// resized buffer holds `nw * nh * 4` bytes; at an unchanged size the pixels
/// are copied as they are (the first `w * h * 4` bytes); the bytes are the
/// fixed function `resized_rgba` of the arguments (no claim on the filter's
/// arithmetic).
#[verifier::external_body]
fn resize_rgba(w: u32, h: u32, rgba: Vec<u8>, nw: u32, nh: u32) -> (res: Option<Vec<u8>>)
    requires
        nw * nh * 4 <= usize::MAX,
        w * nh * 4 <= usize::MAX,
    ensures
        res is None <==> (w * h * 4 > usize::MAX || rgba@.len() < w * h * 4),
        res matches Some(v) ==> v@ == resized_rgba(w, h, rgba@, nw, nh) && v@.len() == nw * nh * 4,
        res matches Some(v) ==> (nw == w && nh == h ==> v@ == rgba@.subrange(0, w * h * 4)),
{
    let img = image::RgbaImage::from_raw(w, h, rgba)?;
    Some(image::imageops::resize(&img, nw, nh, image::imageops::FilterType::Triangle).into_raw())
}

/// A decoded cursor image.
#[derive(Debug)]
pub struct CursorImage {
    pub width: u32,
    pub height: u32,
    /// hotspot in image pixels
    pub hotspot: (i32, i32),
    /// straight alpha RGBA, top-down
    pub rgba: Vec<u8>,
}

/// One decoded frame, before scaling.
#[derive(Debug)]
pub struct RawFrame {
    pub width: u32,
    pub height: u32,
    pub hotspot: (i32, i32),
    pub rgba: Vec<u8>,
}

/// The mathematical value of a frame.
pub struct FrameView {
    pub width: u32,
    pub height: u32,
    pub hotspot: (i32, i32),
    pub rgba: Seq<u8>,
}

impl View for RawFrame {
    type V = FrameView;

    open spec fn view(&self) -> FrameView {
        FrameView { width: self.width, height: self.height, hotspot: self.hotspot, rgba: self.rgba@ }
    }
}

impl Clone for CursorImage {
    fn clone(&self) -> (r: CursorImage)
        ensures
            r@ == self@,
    {
        CursorImage {
            width: self.width,
            height: self.height,
            hotspot: self.hotspot,
            rgba: self.rgba.clone(),
        }
    }
}

impl View for CursorImage {
    type V = FrameView;

    open spec fn view(&self) -> FrameView {
        FrameView { width: self.width, height: self.height, hotspot: self.hotspot, rgba: self.rgba@ }
    }
}

/// Why an ICO/CUR container or one of its images could not be decoded.
#[derive(Debug, Clone)]
pub enum IconError {
    /// fewer than 6 bytes
    FileTooSmall,
    /// the container's type field is not the one asked for
    ContainerType { found: u16, expected: u16 },
    /// no directory entry fits in the file
    NoImages,
    /// the entry's image data lies outside the file
    OutOfBounds,
    /// an embedded PNG frame that the image decoder rejects, with its error text
    PngFrame(String),
    /// fewer than 40 bytes of BITMAPINFOHEADER
    TruncatedHeader,
    /// width or height of zero
    ZeroSizeFrame,
    /// a bit depth other than 32
    UnsupportedBitDepth(u32),
    /// fewer pixel bytes than width * height * 4
    TruncatedXorMask,
}

/// The value of an `IconError` (error texts as character sequences).
pub enum IconErrorView {
    FileTooSmall,
    ContainerType { found: u16, expected: u16 },
    NoImages,
    OutOfBounds,
    PngFrame(Seq<char>),
    TruncatedHeader,
    ZeroSizeFrame,
    UnsupportedBitDepth(u32),
    TruncatedXorMask,
}

impl View for IconError {
    type V = IconErrorView;

    open spec fn view(&self) -> IconErrorView {
        match self {
            IconError::FileTooSmall => IconErrorView::FileTooSmall,
            IconError::ContainerType { found, expected } => IconErrorView::ContainerType {
                found: *found,
                expected: *expected,
            },
            IconError::NoImages => IconErrorView::NoImages,
            IconError::OutOfBounds => IconErrorView::OutOfBounds,
            IconError::PngFrame(m) => IconErrorView::PngFrame(m@),
            IconError::TruncatedHeader => IconErrorView::TruncatedHeader,
            IconError::ZeroSizeFrame => IconErrorView::ZeroSizeFrame,
            IconError::UnsupportedBitDepth(b) => IconErrorView::UnsupportedBitDepth(*b),
            IconError::TruncatedXorMask => IconErrorView::TruncatedXorMask,
        }
    }
}

/// Why a cursor file could not be decoded.
#[derive(Debug, Clone)]
pub enum CursorError {
    /// an .ico file (or the image of a .cur file) that does not decode
    Icon(IconError),
    /// a .cur file whose container does not parse as a cursor (type 2)
    InvalidCur(IconError),
    /// RIFF/ACON signature missing
    NotAni,
    /// an `icon` chunk of an .ani file that does not decode
    EmbeddedIcon(IconError),
    /// an .ani file without icon frames
    NoAniFrames,
    /// a .png file that the image decoder rejects, with its error text
    Png(String),
    /// an extension other than cur/ico/ani/png (lowercased)
    UnsupportedFormat(String),
}

/// The value of a `CursorError`.
pub enum CursorErrorView {
    Icon(IconErrorView),
    InvalidCur(IconErrorView),
    NotAni,
    EmbeddedIcon(IconErrorView),
    NoAniFrames,
    Png(Seq<char>),
    UnsupportedFormat(Seq<char>),
}

impl View for CursorError {
    type V = CursorErrorView;

    open spec fn view(&self) -> CursorErrorView {
        match self {
            CursorError::Icon(e) => CursorErrorView::Icon(e@),
            CursorError::InvalidCur(e) => CursorErrorView::InvalidCur(e@),
            CursorError::NotAni => CursorErrorView::NotAni,
            CursorError::EmbeddedIcon(e) => CursorErrorView::EmbeddedIcon(e@),
            CursorError::NoAniFrames => CursorErrorView::NoAniFrames,
            CursorError::Png(m) => CursorErrorView::Png(m@),
            CursorError::UnsupportedFormat(m) => CursorErrorView::UnsupportedFormat(m@),
        }
    }
}

// ---------------------------------------------------------------------------
// Little-endian fields
// ---------------------------------------------------------------------------

pub open spec fn le16(d: Seq<u8>, i: int) -> int {
    d[i] + d[i + 1] * 256
}

pub open spec fn le32(d: Seq<u8>, i: int) -> int {
    d[i] + d[i + 1] * 256 + d[i + 2] * 65536 + d[i + 3] * 16777216
}

fn read_u16(d: &[u8], i: usize) -> (r: u16)
    requires
        i + 2 <= d@.len(),
    ensures
        r == le16(d@, i as int),
{
    d[i] as u16 + (d[i + 1] as u16) * 256
}

fn read_u32(d: &[u8], i: usize) -> (r: u32)
    requires
        i + 4 <= d@.len(),
    ensures
        r == le32(d@, i as int),
{
    d[i] as u32 + (d[i + 1] as u32) * 256 + (d[i + 2] as u32) * 65536 + (d[i + 3] as u32)
        * 16777216
}

// ---------------------------------------------------------------------------
// ICO / CUR container (identical layout; type 1 = icon, 2 = cursor)
// ---------------------------------------------------------------------------

/// One ICONDIRENTRY.
#[derive(Debug)]
pub struct IcoEntry {
    pub width: u32,
    pub height: u32,
    pub hotspot: (i32, i32),
    pub size: u32,
    pub offset: u32,
}

impl IcoEntry {
    /// Width and height as a directory entry can give them (1..=256).
    pub open spec fn well_formed(self) -> bool {
        1 <= self.width <= 256 && 1 <= self.height <= 256
    }

    pub open spec fn area(self) -> int {
        self.width * self.height
    }
}

/// The directory entry that starts at byte `e`; a stored 0 means 256.
pub open spec fn entry_at(d: Seq<u8>, e: int) -> IcoEntry {
    IcoEntry {
        width: if d[e] == 0 { 256 } else { d[e] as u32 },
        height: if d[e + 1] == 0 { 256 } else { d[e + 1] as u32 },
        hotspot: (le16(d, e + 4) as i32, le16(d, e + 6) as i32),
        size: le32(d, e + 8) as u32,
        offset: le32(d, e + 12) as u32,
    }
}

/// How many of the announced entries fit in the file.
pub open spec fn entry_count(d: Seq<u8>) -> int {
    let announced = le16(d, 4);
    let fitting = (d.len() - 6) / 16;
    if announced < fitting {
        announced
    } else {
        fitting
    }
}

/// The directory of an ICO/CUR container and its type field.
pub open spec fn container_spec(d: Seq<u8>, expect: Option<u16>) -> Result<
    (Seq<IcoEntry>, u16),
    IconErrorView,
> {
    if d.len() < 6 {
        Err(IconErrorView::FileTooSmall)
    } else if expect is Some && le16(d, 2) != expect->0 {
        Err(IconErrorView::ContainerType { found: le16(d, 2) as u16, expected: expect->0 })
    } else if entry_count(d) == 0 {
        Err(IconErrorView::NoImages)
    } else {
        Ok(
            (
                Seq::new(entry_count(d) as nat, |i: int| entry_at(d, 6 + 16 * i)),
                le16(d, 2) as u16,
            ),
        )
    }
}

/// Parses the directory; with `expect_type`, the type field must match.
pub fn parse_ico_container(data: &[u8], expect_type: Option<u16>) -> (res: Result<
    (Vec<IcoEntry>, u16),
    IconError,
>)
    ensures
        match res {
            Ok((v, t)) => container_spec(data@, expect_type) == Ok::<_, IconErrorView>((v@, t)),
            Err(e) => container_spec(data@, expect_type) == Err::<(Seq<IcoEntry>, u16), _>(e@),
        },
        res matches Ok((v, t)) ==> v@.len() > 0 && forall|i: int|
            0 <= i < v@.len() ==> (#[trigger] v@[i]).well_formed(),
{
    if data.len() < 6 {
        return Err(IconError::FileTooSmall);
    }
    let ico_type = read_u16(data, 2);
    if let Some(want) = expect_type {
        if ico_type != want {
            return Err(IconError::ContainerType { found: ico_type, expected: want });
        }
    }
    let count = read_u16(data, 4) as usize;
    let fitting = (data.len() - 6) / 16;
    let n = if count < fitting {
        count
    } else {
        fitting
    };
    let mut entries: Vec<IcoEntry> = Vec::new();
    let mut i: usize = 0;
    while i < n
        invariant
            n == entry_count(data@),
            n <= fitting,
            fitting == (data@.len() - 6) / 16,
            data@.len() >= 6,
            i <= n,
            entries@ =~= Seq::new(i as nat, |k: int| entry_at(data@, 6 + 16 * k)),
        decreases n - i,
    {
        let e = 6 + i * 16;
        assert(e + 16 <= data@.len()) by {
            assert(i + 1 <= (data@.len() - 6) / 16);
            vstd::arithmetic::div_mod::lemma_fundamental_div_mod((data@.len() - 6) as int, 16);
        }
        let w = data[e] as u32;
        let h = data[e + 1] as u32;
        let hot_x = read_u16(data, e + 4) as i32;
        let hot_y = read_u16(data, e + 6) as i32;
        let size = read_u32(data, e + 8);
        let offset = read_u32(data, e + 12);
        entries.push(
            IcoEntry {
                width: if w == 0 {
                    256
                } else {
                    w
                },
                height: if h == 0 {
                    256
                } else {
                    h
                },
                hotspot: (hot_x, hot_y),
                size,
                offset,
            },
        );
        i = i + 1;
    }
    if entries.len() == 0 {
        return Err(IconError::NoImages);
    }
    Ok((entries, ico_type))
}

// ---------------------------------------------------------------------------
// Choosing the entry
// ---------------------------------------------------------------------------

/// Index of the largest entry by area; on ties the last one
/// (`Iterator::max_by_key`).
pub open spec fn best_index(s: Seq<IcoEntry>) -> int
    decreases s.len(),
{
    if s.len() <= 1 {
        0
    } else {
        let b = best_index(s.drop_last());
        if s.last().area() >= s[b].area() {
            s.len() - 1
        } else {
            b
        }
    }
}

/// `best_index` is the last entry of largest area.
pub proof fn lemma_best_index(s: Seq<IcoEntry>)
    requires
        s.len() > 0,
    ensures
        0 <= best_index(s) < s.len(),
        forall|j: int| 0 <= j < s.len() ==> (#[trigger] s[j]).area() <= s[best_index(s)].area(),
        forall|j: int| best_index(s) < j < s.len() ==> (#[trigger] s[j]).area() < s[best_index(s)].area(),
    decreases s.len(),
{
    if s.len() > 1 {
        lemma_best_index(s.drop_last());
        let b = best_index(s.drop_last());
        assert forall|j: int| 0 <= j < s.len() - 1 implies #[trigger] s[j] == s.drop_last()[j] by {}
    }
}

/// The entry to decode: the largest, the last of equals.
pub fn best_entry(entries: &[IcoEntry]) -> (r: &IcoEntry)
    requires
        entries@.len() > 0,
    ensures
        *r == entries@[best_index(entries@)],
{
    let mut best: usize = 0;
    let e0 = &entries[0];
    assert(e0.width * e0.height <= 0xffff_ffff_ffff_ffff) by (nonlinear_arith)
        requires
            e0.width <= 0xffff_ffff,
            e0.height <= 0xffff_ffff,
    ;
    let mut best_area: u64 = e0.width as u64 * e0.height as u64;
    let mut i: usize = 1;
    while i < entries.len()
        invariant
            1 <= i <= entries@.len(),
            best == best_index(entries@.subrange(0, i as int)),
            best < i,
            best_area == entries@[best as int].area(),
        decreases entries@.len() - i,
    {
        let e = &entries[i];
        assert(e.width * e.height <= 0xffff_ffff_ffff_ffff) by (nonlinear_arith)
            requires
                e.width <= 0xffff_ffff,
                e.height <= 0xffff_ffff,
        ;
        let area = e.width as u64 * e.height as u64;
        let ghost pre = entries@.subrange(0, i as int);
        let ghost cur = entries@.subrange(0, i + 1);
        assert(cur.drop_last() =~= pre);
        if area >= best_area {
            best = i;
            best_area = area;
        }
        i = i + 1;
    }
    assert(entries@.subrange(0, i as int) =~= entries@);
    &entries[best]
}

// ---------------------------------------------------------------------------
// Decoding one image of the container
// ---------------------------------------------------------------------------

/// Height of a BMP frame: the entry's, unless the header's doubled height
/// (XOR + AND) is smaller.
pub open spec fn bmp_height(img: Seq<u8>, e: IcoEntry) -> int {
    let bh = le32(img, 8);
    if bh >= 2 * e.height {
        e.height as int
    } else {
        bh / 2
    }
}

/// Bytes per row of the 1-bit AND mask (rows padded to 32 bits).
pub open spec fn and_row(w: int) -> int {
    (w + 31) / 32 * 4
}

/// The AND mask is present in full after the pixel data.
pub open spec fn has_and_mask(img: Seq<u8>, w: int, h: int) -> bool {
    img.len() >= 40 + w * h * 4 + and_row(w) * h
}

/// Some pixel has a non-zero alpha byte.
pub open spec fn any_alpha(img: Seq<u8>, w: int, h: int) -> bool {
    exists|k: int| 0 <= k < w * h && #[trigger] img[40 + 4 * k + 3] != 0
}

/// Alpha comes from the AND mask: no pixel carries alpha and the mask is there.
pub open spec fn alpha_from_mask(img: Seq<u8>, w: int, h: int) -> bool {
    !any_alpha(img, w, h) && has_and_mask(img, w, h)
}

/// The AND-mask bit of pixel (x, y) (row y of the output, top-down).
pub open spec fn and_bit(img: Seq<u8>, w: int, h: int, y: int, x: int) -> bool {
    (img[40 + w * h * 4 + and_row(w) * y + x / 8] >> ((7 - x % 8) as u32)) & 1u8 == 1u8
}

/// Channel `c` (R, G, B, A) of output pixel (x, y): the BGRA source rows
/// are stored bottom-up.
pub open spec fn bmp_channel(img: Seq<u8>, w: int, h: int, mask: bool, y: int, x: int, c: int) -> u8 {
    let src = 40 + (h - 1 - y) * w * 4 + x * 4;
    if c == 0 {
        img[src + 2]
    } else if c == 1 {
        img[src + 1]
    } else if c == 2 {
        img[src]
    } else if mask {
        if and_bit(img, w, h, y, x) {
            0
        } else {
            255
        }
    } else {
        img[src + 3]
    }
}

/// The top-down RGBA bytes of a 32-bit BMP frame.
pub open spec fn bmp_rgba(img: Seq<u8>, w: int, h: int) -> Seq<u8> {
    let mask = alpha_from_mask(img, w, h);
    Seq::new(
        (w * h * 4) as nat,
        |i: int| bmp_channel(img, w, h, mask, (i / 4) / w, (i / 4) % w, i % 4),
    )
}

/// A frame stored as BITMAPINFOHEADER + XOR BGRA (bottom-up) + AND mask.
pub open spec fn bmp_spec(img: Seq<u8>, e: IcoEntry) -> Result<FrameView, IconErrorView> {
    if img.len() < 40 {
        Err(IconErrorView::TruncatedHeader)
    } else {
        let w = e.width as int;
        let h = bmp_height(img, e);
        let bits = le16(img, 14);
        if w == 0 || h == 0 {
            Err(IconErrorView::ZeroSizeFrame)
        } else if bits != 32 {
            Err(IconErrorView::UnsupportedBitDepth(bits as u32))
        } else if img.len() < 40 + w * h * 4 {
            Err(IconErrorView::TruncatedXorMask)
        } else {
            Ok(
                FrameView {
                    width: w as u32,
                    height: h as u32,
                    hotspot: e.hotspot,
                    rgba: bmp_rgba(img, w, h),
                },
            )
        }
    }
}

/// The image bytes of an entry start with the PNG signature's first two bytes.
pub open spec fn is_png_frame(img: Seq<u8>) -> bool {
    img.len() > 8 && img[0] == 0x89 && img[1] == 0x50
}

/// Decoding the image of entry `e` of the container `d`.
pub open spec fn ico_image_spec(d: Seq<u8>, e: IcoEntry) -> Result<FrameView, IconErrorView> {
    if e.offset + e.size > d.len() {
        Err(IconErrorView::OutOfBounds)
    } else {
        let img = d.subrange(e.offset as int, e.offset + e.size);
        if is_png_frame(img) {
            match image_decoded(img) {
                Ok((w, h, px)) => Ok(FrameView { width: w, height: h, hotspot: e.hotspot, rgba: px }),
                Err(m) => Err(IconErrorView::PngFrame(m)),
            }
        } else {
            bmp_spec(img, e)
        }
    }
}

/// A decode result compared by value.
pub open spec fn frame_result<E: View>(r: Result<RawFrame, E>) -> Result<FrameView, E::V> {
    match r {
        Ok(f) => Ok(f@),
        Err(e) => Err(e@),
    }
}

proof fn lemma_pixel_index(w: int, y: int, x: int, c: int)
    requires
        0 < w,
        0 <= y,
        0 <= x < w,
        0 <= c < 4,
    ensures
        ((y * w + x) * 4 + c) / 4 == y * w + x,
        ((y * w + x) * 4 + c) % 4 == c,
        (y * w + x) / w == y,
        (y * w + x) % w == x,
{
    lemma_fundamental_div_mod_converse((y * w + x) * 4 + c, 4, y * w + x, c);
    lemma_fundamental_div_mod_converse(y * w + x, w, y, x);
}

/// Whether any pixel of the XOR bitmap carries a non-zero alpha byte.
fn scan_alpha(img: &[u8], n: usize) -> (r: bool)
    requires
        40 + 4 * n <= img@.len(),
    ensures
        r == exists|k: int| 0 <= k < n && #[trigger] img@[40 + 4 * k + 3] != 0,
{
    let l = img.len();
    let mut k: usize = 0;
    while k < n
        invariant
            l == img@.len(),
            40 + 4 * n <= img@.len(),
            k <= n,
            forall|j: int| 0 <= j < k ==> #[trigger] img@[40 + 4 * j + 3] == 0,
        decreases n - k,
    {
        if img[40 + 4 * k + 3] != 0 {
            return true;
        }
        k = k + 1;
    }
    false
}

/// Decodes the frame of a BMP-stored entry (header, BGRA rows bottom-up,
/// optional AND mask).
fn decode_bmp(img: &[u8], entry: &IcoEntry) -> (res: Result<RawFrame, IconError>)
    requires
        entry.well_formed(),
    ensures
        frame_result(res) == bmp_spec(img@, *entry),
{
    if img.len() < 40 {
        return Err(IconError::TruncatedHeader);
    }
    let bh = read_u32(img, 8);
    let bitcount = read_u16(img, 14) as u32;
    let w = entry.width;
    let h = if bh >= 2 * entry.height {
        entry.height
    } else {
        bh / 2
    };
    if w == 0 || h == 0 {
        return Err(IconError::ZeroSizeFrame);
    }
    if bitcount != 32 {
        return Err(IconError::UnsupportedBitDepth(bitcount));
    }
    assert(w * h <= 65536) by (nonlinear_arith)
        requires
            w <= 256,
            h <= 256,
    ;
    let wu = w as usize;
    let hu = h as usize;
    let xor_len = wu * hu * 4;
    if img.len() < 40 + xor_len {
        return Err(IconError::TruncatedXorMask);
    }
    let row_bytes = (wu + 31) / 32 * 4;
    assert(row_bytes * hu <= 36 * 256) by (nonlinear_arith)
        requires
            row_bytes <= 36,
            hu <= 256,
    ;
    let and_len = row_bytes * hu;
    let has_and = img.len() >= 40 + xor_len + and_len;
    let any_alpha = scan_alpha(img, wu * hu);
    let mask = !any_alpha && has_and;
    let ghost iv = img@;
    let ghost wi = wu as int;
    let ghost hi = hu as int;
    assert(mask == alpha_from_mask(iv, wi, hi));
    let il = img.len();
    let mut rgba: Vec<u8> = Vec::new();
    let mut y: usize = 0;
    while y < hu
        invariant
            il == img@.len(),
            iv == img@,
            wi == wu,
            hi == hu,
            1 <= wu <= 256,
            1 <= hu <= 256,
            xor_len == wu * hu * 4,
            row_bytes == and_row(wi),
            40 + xor_len <= img@.len(),
            mask == alpha_from_mask(iv, wi, hi),
            mask ==> 40 + xor_len + row_bytes * hu <= img@.len(),
            y <= hu,
            rgba@.len() == y * wu * 4,
            forall|i: int|
                0 <= i < rgba@.len() ==> #[trigger] rgba@[i] == bmp_channel(
                    iv,
                    wi,
                    hi,
                    mask,
                    (i / 4) / wi,
                    (i / 4) % wi,
                    i % 4,
                ),
        decreases hu - y,
    {
        let row_index = hu - 1 - y;
        assert(row_index * wu + wu <= wu * hu) by (nonlinear_arith)
            requires
                row_index == hu - 1 - y,
                y < hu,
        ;
        let row_px = row_index * wu;
        let src_row = 40 + row_px * 4;
        let mut x: usize = 0;
        while x < wu
            invariant
                il == img@.len(),
                iv == img@,
                wi == wu,
                hi == hu,
                1 <= wu <= 256,
                1 <= hu <= 256,
                xor_len == wu * hu * 4,
                row_bytes == and_row(wi),
                40 + xor_len <= img@.len(),
                mask == alpha_from_mask(iv, wi, hi),
                mask ==> 40 + xor_len + row_bytes * hu <= img@.len(),
                y < hu,
                src_row == 40 + (hu - 1 - y) * wu * 4,
                src_row + wu * 4 <= 40 + xor_len,
                x <= wu,
                rgba@.len() == (y * wu + x) * 4,
                forall|i: int|
                    0 <= i < rgba@.len() ==> #[trigger] rgba@[i] == bmp_channel(
                        iv,
                        wi,
                        hi,
                        mask,
                        (i / 4) / wi,
                        (i / 4) % wi,
                        i % 4,
                    ),
            decreases wu - x,
        {
            let s = src_row + x * 4;
            let b = img[s];
            let g = img[s + 1];
            let r = img[s + 2];
            let mut a = img[s + 3];
            if mask {
                assert(row_bytes * y + x / 8 < row_bytes * hu) by (nonlinear_arith)
                    requires
                        y < hu,
                        x < wu,
                        row_bytes == (wu + 31) / 32 * 4,
                ;
                let bit = row_bytes * y + x / 8;
                let sh: u32 = (7 - (x % 8)) as u32;
                let and_set = (img[40 + xor_len + bit] >> sh) & 1u8 == 1u8;
                a = if and_set {
                    0
                } else {
                    255
                };
            }
            let ghost base = rgba@.len() as int;
            proof {
                lemma_pixel_index(wi, y as int, x as int, 0);
                lemma_pixel_index(wi, y as int, x as int, 1);
                lemma_pixel_index(wi, y as int, x as int, 2);
                lemma_pixel_index(wi, y as int, x as int, 3);
            }
            rgba.push(r);
            rgba.push(g);
            rgba.push(b);
            rgba.push(a);
            x = x + 1;
            assert(rgba@.len() == (y * wu + x) * 4) by (nonlinear_arith)
                requires
                    rgba@.len() == base + 4,
                    base == (y * wu + (x - 1)) * 4,
            ;
        }
        y = y + 1;
        assert(rgba@.len() == y * wu * 4) by (nonlinear_arith)
            requires
                rgba@.len() == ((y - 1) * wu + wu) * 4,
        ;
    }
    assert(rgba@.len() == wi * hi * 4) by (nonlinear_arith)
        requires
            rgba@.len() == y * wu * 4,
            y == hu,
            wi == wu,
            hi == hu,
    ;
    assert(rgba@ =~= bmp_rgba(iv, wi, hi));
    Ok(RawFrame { width: w, height: h, hotspot: entry.hotspot, rgba })
}

/// Decodes the image of one directory entry: an embedded PNG, or a 32-bit
/// BMP frame.
pub fn decode_ico_image(data: &[u8], entry: &IcoEntry) -> (res: Result<RawFrame, IconError>)
    requires
        entry.well_formed(),
    ensures
        frame_result(res) == ico_image_spec(data@, *entry),
{
    let offset = entry.offset as u64;
    let size = entry.size as u64;
    if offset + size > data.len() as u64 {
        return Err(IconError::OutOfBounds);
    }
    let img = slice_subrange(data, entry.offset as usize, (offset + size) as usize);
    if img.len() > 8 && img[0] == 0x89 && img[1] == 0x50 {
        return match decode_image(img) {
            Ok((w, h, px)) => Ok(RawFrame { width: w, height: h, hotspot: entry.hotspot, rgba: px }),
            Err(m) => Err(IconError::PngFrame(m)),
        };
    }
    decode_bmp(img, entry)
}

/// Decoding a whole .ico/.cur file: the largest entry of its directory.
pub open spec fn ico_spec(d: Seq<u8>) -> Result<FrameView, IconErrorView> {
    match container_spec(d, None) {
        Err(e) => Err(e),
        Ok((entries, _t)) => ico_image_spec(d, entries[best_index(entries)]),
    }
}

/// Decodes the largest image of an ICO or CUR container (either type).
pub fn load_ico_or_cur(data: &[u8]) -> (res: Result<RawFrame, IconError>)
    ensures
        frame_result(res) == ico_spec(data@),
{
    let (entries, _t) = parse_ico_container(data, None)?;
    proof {
        lemma_best_index(entries@);
    }
    let entry = best_entry(entries.as_slice());
    decode_ico_image(data, entry)
}

/// Decoding an .ico file: the largest image of the container; icons have no
/// hotspot concept, so the hotspot is the center of the image.
pub open spec fn ico_file_spec(d: Seq<u8>) -> Result<FrameView, IconErrorView> {
    match ico_spec(d) {
        Err(e) => Err(e),
        Ok(f) => Ok(
            FrameView {
                width: f.width,
                height: f.height,
                hotspot: (center_of(f.width), center_of(f.height)),
                rgba: f.rgba,
            },
        ),
    }
}

/// Decodes an .ico file: the largest image, its hotspot at the center.
pub fn load_ico_file(data: &[u8]) -> (res: Result<RawFrame, IconError>)
    ensures
        frame_result(res) == ico_file_spec(data@),
{
    let frame = load_ico_or_cur(data)?;
    let hotspot = ((frame.width as i32) / 2, (frame.height as i32) / 2);
    Ok(RawFrame { width: frame.width, height: frame.height, hotspot, rgba: frame.rgba })
}


// ---------------------------------------------------------------------------
// ANI container: RIFF('ACON') { 'anih', ['seq '], ['rate'], LIST('fram'{'icon'..}) }
// Hotspots come from each embedded icon's ICONDIRENTRY.
// ---------------------------------------------------------------------------

/// Bytes `p..p+4` of `d` are the four-character code `a b c e`.
pub open spec fn tag_at(d: Seq<u8>, p: int, a: u8, b: u8, c: u8, e: u8) -> bool {
    d[p] == a && d[p + 1] == b && d[p + 2] == c && d[p + 3] == e
}

fn has_tag(d: &[u8], p: usize, a: u8, b: u8, c: u8, e: u8) -> (r: bool)
    requires
        p + 4 <= d@.len(),
    ensures
        r == tag_at(d@, p as int, a, b, c, e),
{
    d[p] == a && d[p + 1] == b && d[p + 2] == c && d[p + 3] == e
}

pub open spec fn is_list(d: Seq<u8>, p: int) -> bool {
    tag_at(d, p, 0x4c, 0x49, 0x53, 0x54)
}

pub open spec fn is_fram(d: Seq<u8>, p: int) -> bool {
    tag_at(d, p, 0x66, 0x72, 0x61, 0x6d)
}

pub open spec fn is_icon(d: Seq<u8>, p: int) -> bool {
    tag_at(d, p, 0x69, 0x63, 0x6f, 0x6e)
}

pub open spec fn is_seq(d: Seq<u8>, p: int) -> bool {
    tag_at(d, p, 0x73, 0x65, 0x71, 0x20)
}

/// What the chunk walk has gathered: the decoded icon frames in file order,
/// and the play order (indices into the frames).
pub struct AniState {
    pub frames: Seq<FrameView>,
    pub order: Seq<usize>,
}

/// The `n` little-endian u32 play-order entries of a `seq ` chunk body.
pub open spec fn seq_indices(d: Seq<u8>, body: int, n: int) -> Seq<usize> {
    Seq::new(n as nat, |i: int| le32(d, body + 4 * i) as usize)
}

/// Walking the chunks from `pos` up to `end` (chunks are word-aligned; a
/// chunk running past the file ends the walk; `LIST 'fram'` is entered;
/// `icon` adds a frame and its index to the play order; `seq ` replaces the
/// play order; other chunks are skipped).
pub open spec fn walk_spec(d: Seq<u8>, pos: int, end: int, st: AniState) -> Result<AniState, CursorErrorView>
    decreases d.len() - pos,
{
    if pos < 0 || end > d.len() || pos + 8 > end {
        Ok(st)
    } else {
        let size = le32(d, pos + 4);
        let body = pos + 8;
        let next = body + size + size % 2;
        if next > d.len() {
            Ok(st)
        } else {
            let step = if is_list(d, pos) {
                if body + 4 <= end && is_fram(d, body) {
                    walk_spec(d, body + 4, next, st)
                } else {
                    Ok(st)
                }
            } else if is_icon(d, pos) {
                match ico_spec(d.subrange(body, next)) {
                    Err(e) => Err(CursorErrorView::EmbeddedIcon(e)),
                    Ok(f) => Ok(
                        AniState {
                            frames: st.frames.push(f),
                            order: st.order.push(st.frames.len() as usize),
                        },
                    ),
                }
            } else if is_seq(d, pos) {
                Ok(AniState { frames: st.frames, order: seq_indices(d, body, size / 4) })
            } else {
                Ok(st)
            };
            match step {
                Err(e) => Err(e),
                Ok(st2) => walk_spec(d, next, end, st2),
            }
        }
    }
}

/// The values of a run of frames.
pub open spec fn frame_views(v: Seq<RawFrame>) -> Seq<FrameView> {
    v.map_values(|f: RawFrame| f@)
}

pub open spec fn ani_state(frames: Seq<RawFrame>, order: Seq<usize>) -> AniState {
    AniState { frames: frame_views(frames), order }
}

fn walk_chunk(
    data: &[u8],
    pos: &mut usize,
    end: usize,
    frames: &mut Vec<RawFrame>,
    order: &mut Vec<usize>,
) -> (res: Result<(), CursorError>)
    requires
        *old(pos) <= data@.len(),
        end <= data@.len(),
    ensures
        match res {
            Ok(()) => walk_spec(data@, *old(pos) as int, end as int, ani_state(old(frames)@, old(order)@))
                == Ok::<AniState, CursorErrorView>(ani_state(final(frames)@, final(order)@)),
            Err(e) => walk_spec(data@, *old(pos) as int, end as int, ani_state(old(frames)@, old(order)@))
                == Err::<AniState, CursorErrorView>(e@),
        },
    decreases data@.len() - *old(pos),
{
    let len = data.len();
    let ghost d = data@;
    let ghost start = *pos as int;
    let ghost st0 = ani_state(frames@, order@);
    while end >= 8 && *pos <= end - 8
        invariant
            len == d.len(),
            d == data@,
            start == *old(pos),
            st0 == ani_state(old(frames)@, old(order)@),
            start <= *pos <= len,
            end <= len,
            walk_spec(d, start, end as int, st0) == walk_spec(d, *pos as int, end as int, ani_state(frames@, order@)),
        decreases len - *pos,
    {
        let p = *pos;
        let size = read_u32(data, p + 4) as u64;
        let body = p + 8;
        let next_wide = body as u128 + size as u128 + (size % 2) as u128;
        if next_wide > len as u128 {
            return Ok(());
        }
        let next = next_wide as usize;
        let ghost st = ani_state(frames@, order@);
        if has_tag(data, p, 0x4c, 0x49, 0x53, 0x54) {
            if end - body >= 4 && has_tag(data, body, 0x66, 0x72, 0x61, 0x6d) {
                let mut sub = body + 4;
                walk_chunk(data, &mut sub, next, frames, order)?;
            }
        } else if has_tag(data, p, 0x69, 0x63, 0x6f, 0x6e) {
            let chunk = slice_subrange(data, body, next);
            match load_ico_or_cur(chunk) {
                Ok(frame) => {
                    order.push(frames.len());
                    frames.push(frame);
                    assert(frame_views(frames@) =~= st.frames.push(frame@));
                },
                Err(e) => {
                    return Err(CursorError::EmbeddedIcon(e));
                },
            }
        } else if has_tag(data, p, 0x73, 0x65, 0x71, 0x20) {
            order.clear();
            let n = (size / 4) as usize;
            assert(4 * n <= size) by {
                vstd::arithmetic::div_mod::lemma_fundamental_div_mod(size as int, 4);
            }
            let mut i: usize = 0;
            while i < n
                invariant
                    d == data@,
                    body + 4 * n <= next <= d.len(),
                    i <= n,
                    order@ =~= seq_indices(d, body as int, i as int),
                decreases n - i,
            {
                let v = read_u32(data, body + i * 4) as usize;
                order.push(v);
                i = i + 1;
            }
        }
        *pos = next;
    }
    Ok(())
}

/// Decoding an .ani file: the first frame in play order (the play order's
/// first entry, clamped to the last frame).
pub open spec fn ani_spec(d: Seq<u8>) -> Result<FrameView, CursorErrorView> {
    if d.len() < 12 || !tag_at(d, 0, 0x52, 0x49, 0x46, 0x46) || !tag_at(d, 8, 0x41, 0x43, 0x4f, 0x4e) {
        Err(CursorErrorView::NotAni)
    } else {
        match walk_spec(d, 12, d.len() as int, AniState { frames: Seq::empty(), order: Seq::empty() }) {
            Err(e) => Err(e),
            Ok(st) => if st.frames.len() == 0 {
                Err(CursorErrorView::NoAniFrames)
            } else {
                let first = if st.order.len() > 0 {
                    st.order[0] as int
                } else {
                    0
                };
                let idx = if first < st.frames.len() - 1 {
                    first
                } else {
                    st.frames.len() - 1
                };
                Ok(st.frames[idx])
            },
        }
    }
}

/// Decodes an .ani file: the first frame in play order, with the hotspot of
/// its own directory entry.
pub fn load_ani(data: &[u8]) -> (res: Result<RawFrame, CursorError>)
    ensures
        frame_result(res) == ani_spec(data@),
{
    if data.len() < 12 || !has_tag(data, 0, 0x52, 0x49, 0x46, 0x46) || !has_tag(
        data,
        8,
        0x41,
        0x43,
        0x4f,
        0x4e,
    ) {
        return Err(CursorError::NotAni);
    }
    let mut frames: Vec<RawFrame> = Vec::new();
    let mut order: Vec<usize> = Vec::new();
    let mut pos: usize = 12;
    assert(ani_state(frames@, order@) == AniState { frames: Seq::empty(), order: Seq::empty() }) by {
        assert(frame_views(frames@) =~= Seq::<FrameView>::empty());
    }
    walk_chunk(data, &mut pos, data.len(), &mut frames, &mut order)?;
    if frames.len() == 0 {
        return Err(CursorError::NoAniFrames);
    }
    let first = if order.len() > 0 {
        order[0]
    } else {
        0
    };
    let idx = if first < frames.len() - 1 {
        first
    } else {
        frames.len() - 1
    };
    let frame = frames.swap_remove(idx);
    Ok(frame)
}


// ---------------------------------------------------------------------------
// Decoding by file extension
// ---------------------------------------------------------------------------

/// A container-level failure of a whole .ico/.cur file.
pub open spec fn as_icon_error(r: Result<FrameView, IconErrorView>) -> Result<FrameView, CursorErrorView> {
    match r {
        Ok(f) => Ok(f),
        Err(e) => Err(CursorErrorView::Icon(e)),
    }
}

/// Decoding a .cur file: the container must be of type 2 (cursor); then the
/// largest entry is decoded with its hotspot.
pub open spec fn cur_spec(d: Seq<u8>) -> Result<FrameView, CursorErrorView> {
    match container_spec(d, Some(2u16)) {
        Err(e) => Err(CursorErrorView::InvalidCur(e)),
        Ok((entries, _t)) => as_icon_error(ico_image_spec(d, entries[best_index(entries)])),
    }
}

/// Half of an image dimension taken as `i32`, rounded toward zero (Rust's
/// `as i32` and `/`).
pub open spec fn center_of(v: u32) -> i32 {
    let s = v as i32;
    if s >= 0 {
        (s / 2) as i32
    } else {
        (-((-s) / 2)) as i32
    }
}

/// Decoding a .png file: no hotspot is stored, so it is the image center.
pub open spec fn png_spec(d: Seq<u8>) -> Result<FrameView, CursorErrorView> {
    match image_decoded(d) {
        Err(m) => Err(CursorErrorView::Png(m)),
        Ok((w, h, px)) => Ok(
            FrameView { width: w, height: h, hotspot: (center_of(w), center_of(h)), rgba: px },
        ),
    }
}

/// Decodes the bytes of a cursor file by its extension (compared after
/// lowercasing): cur, ico, ani or png.
pub fn decode_cursor(data: &[u8], ext: &str) -> (res: Result<RawFrame, CursorError>)
    ensures
        lowercase_of(ext@) == seq!['c', 'u', 'r'] ==> frame_result(res) == cur_spec(data@),
        lowercase_of(ext@) == seq!['i', 'c', 'o'] ==> frame_result(res) == as_icon_error(
            ico_file_spec(data@),
        ),
        lowercase_of(ext@) == seq!['a', 'n', 'i'] ==> frame_result(res) == ani_spec(data@),
        lowercase_of(ext@) == seq!['p', 'n', 'g'] ==> frame_result(res) == png_spec(data@),
        lowercase_of(ext@) != seq!['c', 'u', 'r'] && lowercase_of(ext@) != seq!['i', 'c', 'o']
            && lowercase_of(ext@) != seq!['a', 'n', 'i'] && lowercase_of(ext@) != seq!['p', 'n', 'g']
            ==> frame_result(res) == Err::<FrameView, _>(CursorErrorView::UnsupportedFormat(
            lowercase_of(ext@),
        )),
{
    let lower = to_lowercase(ext);
    proof {
        reveal_strlit("cur");
        reveal_strlit("ico");
        reveal_strlit("ani");
        reveal_strlit("png");
        assert("cur"@ =~= seq!['c', 'u', 'r']);
        assert("ico"@ =~= seq!['i', 'c', 'o']);
        assert("ani"@ =~= seq!['a', 'n', 'i']);
        assert("png"@ =~= seq!['p', 'n', 'g']);
    }
    if str_eq(lower.as_str(), "cur") {
        let (entries, _t) = match parse_ico_container(data, Some(2)) {
            Ok(parsed) => parsed,
            Err(e) => {
                return Err(CursorError::InvalidCur(e));
            },
        };
        proof {
            lemma_best_index(entries@);
        }
        match decode_ico_image(data, best_entry(entries.as_slice())) {
            Ok(frame) => Ok(frame),
            Err(e) => Err(CursorError::Icon(e)),
        }
    } else if str_eq(lower.as_str(), "ico") {
        match load_ico_file(data) {
            Ok(frame) => Ok(frame),
            Err(e) => Err(CursorError::Icon(e)),
        }
    } else if str_eq(lower.as_str(), "ani") {
        load_ani(data)
    } else if str_eq(lower.as_str(), "png") {
        match decode_image(data) {
            Ok((w, h, px)) => Ok(
                RawFrame { width: w, height: h, hotspot: ((w as i32) / 2, (h as i32) / 2), rgba: px },
            ),
            Err(m) => Err(CursorError::Png(m)),
        }
    } else {
        Err(CursorError::UnsupportedFormat(lower))
    }
}

/// The frame resampled to `width` x `height` with the given hotspot; `None`
/// when its pixel buffer is shorter than its dimensions need.
pub fn scale_frame(frame: &RawFrame, width: u32, height: u32, hotspot: (i32, i32)) -> (res: Option<
    RawFrame,
>)
    requires
        width * height * 4 <= usize::MAX,
        frame.width * height * 4 <= usize::MAX,
    ensures
        res is None <==> (frame.width * frame.height * 4 > usize::MAX || frame.rgba@.len()
            < frame.width * frame.height * 4),
        res matches Some(f) ==> f@ == (FrameView {
            width,
            height,
            hotspot,
            rgba: resized_rgba(frame.width, frame.height, frame.rgba@, width, height),
        }) && f.rgba@.len() == width * height * 4,
        res matches Some(f) ==> (width == frame.width && height == frame.height ==> f.rgba@
            == frame.rgba@.subrange(0, width * height * 4)),
{
    let pixels = frame.rgba.clone();
    assert(pixels@ =~= frame.rgba@);
    match resize_rgba(frame.width, frame.height, pixels, width, height) {
        Some(px) => Some(RawFrame { width, height, hotspot, rgba: px }),
        None => None,
    }
}

/// The finished cursor image of a frame.
pub fn into_cursor_image(frame: RawFrame) -> (img: CursorImage)
    ensures
        img@ == frame@,
{
    CursorImage { width: frame.width, height: frame.height, hotspot: frame.hotspot, rgba: frame.rgba }
}


/// A decoded .cur file keeps the hotspot stored in the directory entry of the
/// image it shows (the largest); it is never reset.
pub proof fn law_cur_hotspot_from_directory(d: Seq<u8>)
    requires
        cur_spec(d) is Ok,
    ensures
        container_spec(d, Some(2u16)) is Ok,
        ({
            let entries = container_spec(d, Some(2u16))->Ok_0.0;
            cur_spec(d)->Ok_0.hotspot == entries[best_index(entries)].hotspot
        }),
{
}

/// A decoded .ico file has its hotspot at the center of the image (icons
/// carry no hotspot).
pub proof fn law_ico_hotspot_center(d: Seq<u8>)
    requires
        ico_file_spec(d) is Ok,
    ensures
        ico_file_spec(d)->Ok_0.hotspot == (center_of(ico_file_spec(d)->Ok_0.width), center_of(
            ico_file_spec(d)->Ok_0.height,
        )),
{
}

/// A BMP-stored frame has the entry's width, at most the entry's height, and
/// exactly four bytes per pixel.
pub proof fn law_bmp_frame_shape(img: Seq<u8>, e: IcoEntry)
    requires
        e.well_formed(),
        bmp_spec(img, e) is Ok,
    ensures
        ({
            let f = bmp_spec(img, e)->Ok_0;
            &&& f.width == e.width
            &&& 1 <= f.height <= e.height
            &&& f.rgba.len() == f.width * f.height * 4
        }),
{
    let h = bmp_height(img, e);
    assert(h <= e.height);
}

/// A decoded .png file has its hotspot at the center of the image.
pub proof fn law_png_hotspot_center(d: Seq<u8>)
    requires
        png_spec(d) is Ok,
    ensures
        png_spec(d)->Ok_0.hotspot == (center_of(png_spec(d)->Ok_0.width), center_of(
            png_spec(d)->Ok_0.height,
        )),
{
}

} // verus!
