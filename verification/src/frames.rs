//! Loading an image sequence: which files are frames, in which order, and
//! what they decode to.
//!
//! Reading directories and files is the caller's part. Names and contents
//! are handed over as bytes. PNG files are decoded here. The pixels of a JPEG
//! file are handed over decoded, since the decoder panics on some malformed
//! ones and only the coded data itself tells which.

use crate::footage::{build_sequence, is_built, RealSeqError};
use crate::synthetic::Sequence;
use crate::text::{chars_of, is_digit};
use vstd::prelude::*;

verus! {

/// The name of a frame that was extracted from a video: `frame_`, six
/// digits, `.png`.
pub open spec fn is_extracted_name(name: Seq<char>) -> bool {
    &&& name.len() == 16
    &&& name.take(6) == "frame_"@
    &&& forall|i: int| 6 <= i < 12 ==> is_digit(#[trigger] name[i])
    &&& name.skip(12) == ".png"@
}

/// Whether `part` stands at position `at`.
fn stands_at(chars: &Vec<char>, at: usize, part: &str) -> (r: bool)
    requires
        at + part@.len() <= chars@.len(),
    ensures
        r == (chars@.subrange(at as int, at + part@.len()) == part@),
{
    let wanted: Vec<char> = chars_of(part);
    let mut i: usize = 0;
    while i < wanted.len()
        invariant
            i <= wanted@.len(),
            wanted@ == part@,
            at + wanted@.len() <= chars.len(),
            forall|j: int| 0 <= j < i ==> chars@[at + j] == #[trigger] part@[j],
        decreases wanted@.len() - i,
    {
        if chars[at + i] != wanted[i] {
            assert(chars@.subrange(at as int, at + part@.len())[i as int] != part@[i as int]);
            return false;
        }
        i += 1;
    }
    assert(chars@.subrange(at as int, at + part@.len()) == part@);
    true
}

/// Whether a file name is one that frame extraction writes. Only such files
/// may be removed before the next extraction.
pub fn is_extracted_frame_filename(name: &str) -> (r: bool)
    ensures
        r == is_extracted_name(name@),
{
    let chars: Vec<char> = chars_of(name);
    proof {
        reveal_strlit("frame_");
        reveal_strlit(".png");
        assert("frame_"@.len() == 6);
        assert(".png"@.len() == 4);
    }
    if chars.len() != 16 {
        return false;
    }
    let mut i: usize = 6;
    while i < 12
        invariant
            6 <= i <= 12,
            chars@.len() == 16,
            chars@ == name@,
            forall|j: int| 6 <= j < i ==> is_digit(#[trigger] name@[j]),
        decreases 12 - i,
    {
        if !('0' <= chars[i] && chars[i] <= '9') {
            assert(!is_digit(name@[i as int]));
            return false;
        }
        i += 1;
    }
    assert(name@.take(6) == chars@.subrange(0, 6));
    assert(name@.skip(12) == chars@.subrange(12, 16));
    stands_at(&chars, 0, "frame_") && stands_at(&chars, 12, ".png")
}

/// Whether a directory entry is left over from an earlier extraction, and is
/// to be removed. `name` is `None` when it is not valid text.
pub fn is_stale_frame(name: Option<&str>, is_file: bool) -> (r: bool)
    ensures
        r == (is_file && name is Some && is_extracted_name(name->0@)),
{
    match name {
        Some(n) => is_file && is_extracted_frame_filename(n),
        None => false,
    }
}

/// The image formats of frames.
#[derive(Debug, Clone, Copy, PartialEq, Eq, Structural)]
pub enum FrameFormat {
    Png,
    Jpeg,
}

/// The lower-case form of an ASCII letter; other bytes stay.
pub open spec fn lower(b: u8) -> u8 {
    if 65 <= b <= 90 {
        (b + 32) as u8
    } else {
        b
    }
}

/// A file name has this extension, in lower or upper case, after at least
/// one other byte.
pub open spec fn has_extension(name: Seq<u8>, ext: Seq<u8>) -> bool {
    &&& name.len() > ext.len() + 1
    &&& name[name.len() - ext.len() - 1] == 46
    &&& forall|i: int|
        0 <= i < ext.len() ==> lower(name[name.len() - ext.len() + i]) == #[trigger] ext[i]
}

/// The bytes of `png`.
pub open spec fn png() -> Seq<u8> {
    seq![112u8, 110, 103]
}

/// The bytes of `jpg`.
pub open spec fn jpg() -> Seq<u8> {
    seq![106u8, 112, 103]
}

/// The bytes of `jpeg`.
pub open spec fn jpeg() -> Seq<u8> {
    seq![106u8, 112, 101, 103]
}

/// The format of a file, by its name. Other files are no frames.
pub open spec fn format_of(name: Seq<u8>) -> Option<FrameFormat> {
    if has_extension(name, png()) {
        Some(FrameFormat::Png)
    } else if has_extension(name, jpg()) || has_extension(name, jpeg()) {
        Some(FrameFormat::Jpeg)
    } else {
        None
    }
}

/// Whether a file name has this extension.
fn ends_with_extension(name: &Vec<u8>, ext: &Vec<u8>) -> (r: bool)
    ensures
        r == has_extension(name@, ext@),
{
    if name.len() <= ext.len() || name.len() - ext.len() < 2 {
        return false;
    }
    let at: usize = name.len() - ext.len();
    if name[at - 1] != 46 {
        return false;
    }
    let mut i: usize = 0;
    while i < ext.len()
        invariant
            i <= ext@.len(),
            at + ext@.len() == name.len(),
            forall|j: int| 0 <= j < i ==> lower(name@[at + j]) == #[trigger] ext@[j],
        decreases ext@.len() - i,
    {
        let b: u8 = name[at + i];
        let small: u8 = if 65 <= b && b <= 90 {
            b + 32
        } else {
            b
        };
        if small != ext[i] {
            assert(lower(name@[at + i]) != ext@[i as int]);
            return false;
        }
        i += 1;
    }
    true
}

/// The format of a file, by its name.
pub fn frame_format(name: &Vec<u8>) -> (r: Option<FrameFormat>)
    ensures
        r == format_of(name@),
{
    let png_ext: Vec<u8> = vec![112, 110, 103];
    let jpg_ext: Vec<u8> = vec![106, 112, 103];
    let jpeg_ext: Vec<u8> = vec![106, 112, 101, 103];
    assert(png_ext@ == png());
    assert(jpg_ext@ == jpg());
    assert(jpeg_ext@ == jpeg());
    if ends_with_extension(name, &png_ext) {
        Some(FrameFormat::Png)
    } else if ends_with_extension(name, &jpg_ext) || ends_with_extension(name, &jpeg_ext) {
        Some(FrameFormat::Jpeg)
    } else {
        None
    }
}

/// One name comes before another, byte by byte.
pub open spec fn comes_before(a: Seq<u8>, b: Seq<u8>) -> bool
    decreases a.len(),
{
    if b.len() == 0 {
        false
    } else if a.len() == 0 {
        true
    } else if a[0] != b[0] {
        a[0] < b[0]
    } else {
        comes_before(a.drop_first(), b.drop_first())
    }
}

/// Whether one name comes before another.
fn is_before(a: &Vec<u8>, b: &Vec<u8>) -> (r: bool)
    ensures
        r == comes_before(a@, b@),
{
    let mut i: usize = 0;
    assert(a@.skip(0) == a@ && b@.skip(0) == b@);
    while i < a.len() && i < b.len()
        invariant
            i <= a@.len(),
            i <= b@.len(),
            comes_before(a@, b@) == comes_before(a@.skip(i as int), b@.skip(i as int)),
        decreases a@.len() - i,
    {
        let ghost (s, t) = (a@.skip(i as int), b@.skip(i as int));
        if a[i] != b[i] {
            return a[i] < b[i];
        }
        assert(s.drop_first() == a@.skip(i + 1));
        assert(t.drop_first() == b@.skip(i + 1));
        i += 1;
    }
    i < b.len()
}

/// The number in the name of an extracted frame.
pub open spec fn extracted_number(name: Seq<char>) -> int {
    100000 * digit_at(name, 6) + 10000 * digit_at(name, 7) + 1000 * digit_at(name, 8) + 100
        * digit_at(name, 9) + 10 * digit_at(name, 10) + digit_at(name, 11)
}

/// The value of a digit of a name.
pub open spec fn digit_at(name: Seq<char>, i: int) -> int {
    name[i] as int - '0' as int
}

/// The bytes of an ASCII name.
pub open spec fn spells(bytes: Seq<u8>, name: Seq<char>) -> bool {
    &&& bytes.len() == name.len()
    &&& forall|i: int| 0 <= i < name.len() ==> #[trigger] bytes[i] as int == name[i] as int
}

/// Every extracted frame is loaded again, as a PNG file.
pub proof fn extracted_frames_are_loaded(name: Seq<char>, bytes: Seq<u8>)
    requires
        is_extracted_name(name),
        spells(bytes, name),
    ensures
        format_of(bytes) == Some(FrameFormat::Png),
{
    reveal_strlit(".png");
    let tail = name.skip(12);
    assert(tail.len() == 4);
    assert(tail[0] == '.' && tail[1] == 'p' && tail[2] == 'n' && tail[3] == 'g');
    assert(name[12] == '.' && name[13] == 'p' && name[14] == 'n' && name[15] == 'g');
    assert(bytes[12] == 46 && bytes[13] == 112 && bytes[14] == 110 && bytes[15] == 103);
    assert(has_extension(bytes, png()));
}

/// Extracted frames are loaded in the order of their numbers.
pub proof fn extracted_frames_stay_in_order(
    a: Seq<char>,
    a_bytes: Seq<u8>,
    b: Seq<char>,
    b_bytes: Seq<u8>,
)
    requires
        is_extracted_name(a),
        is_extracted_name(b),
        spells(a_bytes, a),
        spells(b_bytes, b),
        extracted_number(a) < extracted_number(b),
    ensures
        comes_before(a_bytes, b_bytes),
{
    assert forall|i: int| 0 <= i < 6 implies a_bytes[i] == #[trigger] b_bytes[i] by {
        assert(a.take(6)[i] == b.take(6)[i]);
        assert(a[i] == b[i]);
    }
    assert forall|i: int| 6 <= i < 12 implies 0 <= #[trigger] digit_at(a, i) <= 9 && a_bytes[i]
        == digit_at(a, i) + 48 && 0 <= digit_at(b, i) <= 9 && b_bytes[i] == digit_at(b, i)
        + 48 by {
        assert(is_digit(a[i]) && is_digit(b[i]));
    }
    let k: int = if digit_at(a, 6) != digit_at(b, 6) {
        6
    } else if digit_at(a, 7) != digit_at(b, 7) {
        7
    } else if digit_at(a, 8) != digit_at(b, 8) {
        8
    } else if digit_at(a, 9) != digit_at(b, 9) {
        9
    } else if digit_at(a, 10) != digit_at(b, 10) {
        10
    } else {
        11
    };
    assert(digit_at(a, k) < digit_at(b, k));
    assert forall|i: int| 0 <= i < k implies a_bytes[i] == #[trigger] b_bytes[i] by {
        if i >= 6 {
            assert(digit_at(a, i) == digit_at(b, i));
        }
    }
    lemma_first_difference(a_bytes, b_bytes, k);
}

/// The first byte that differs decides the order.
proof fn lemma_first_difference(a: Seq<u8>, b: Seq<u8>, k: int)
    requires
        0 <= k < a.len(),
        k < b.len(),
        forall|i: int| 0 <= i < k ==> a[i] == #[trigger] b[i],
        a[k] < b[k],
    ensures
        comes_before(a, b),
    decreases k,
{
    if k > 0 {
        let (x, y) = (a.drop_first(), b.drop_first());
        assert forall|i: int| 0 <= i < k - 1 implies x[i] == #[trigger] y[i] by {
            assert(x[i] == a[i + 1] && y[i] == b[i + 1]);
        }
        lemma_first_difference(x, y, k - 1);
        assert(a[0] == b[0]);
    }
}

/// The order of names is total.
pub proof fn names_are_ordered(a: Seq<u8>, b: Seq<u8>)
    ensures
        comes_before(a, b) || comes_before(b, a) || a == b,
        !(comes_before(a, b) && comes_before(b, a)),
        !comes_before(a, a),
    decreases a.len(),
{
    if a.len() > 0 {
        names_are_ordered(a.drop_first(), a.drop_first());
    }
    if a.len() > 0 && b.len() > 0 && a[0] == b[0] {
        names_are_ordered(a.drop_first(), b.drop_first());
        if a.drop_first() == b.drop_first() {
            assert(a =~= seq![a[0]] + a.drop_first());
            assert(b =~= seq![b[0]] + b.drop_first());
        }
    } else if a.len() == 0 && b.len() == 0 {
        assert(a =~= b);
    }
}

/// The order of names is transitive.
pub proof fn order_of_names_chains(a: Seq<u8>, b: Seq<u8>, c: Seq<u8>)
    requires
        comes_before(a, b),
        comes_before(b, c),
    ensures
        comes_before(a, c),
    decreases a.len(),
{
    if a.len() > 0 && a[0] == b[0] && b[0] == c[0] {
        order_of_names_chains(a.drop_first(), b.drop_first(), c.drop_first());
    }
}

/// Entry `i` stands before entry `j`: by name, and by position for equal
/// names.
pub open spec fn stands_before(names: Seq<Vec<u8>>, i: int, j: int) -> bool {
    comes_before(names[i]@, names[j]@) || (names[i]@ == names[j]@ && i < j)
}

/// The selection holds the frames among the first `n` entries, each once,
/// sorted by name.
pub open spec fn sorted_frames(names: Seq<Vec<u8>>, n: int, r: Seq<usize>) -> bool {
    &&& forall|a: int|
        0 <= a < r.len() ==> 0 <= (#[trigger] r[a]) < n && format_of(names[r[a] as int]@) is Some
    &&& forall|i: int|
        0 <= i < n && format_of((#[trigger] names[i])@) is Some ==> r.contains(i as usize)
    &&& forall|a: int, b: int|
        0 <= a < b < r.len() ==> stands_before(
            names,
            (#[trigger] r[a]) as int,
            (#[trigger] r[b]) as int,
        )
}

/// The entries of a directory that are frames, in the order of the sequence.
pub fn select_frames(names: &Vec<Vec<u8>>) -> (r: Vec<usize>)
    ensures
        sorted_frames(names@, names@.len() as int, r@),
{
    let mut out: Vec<usize> = Vec::new();
    let mut i: usize = 0;
    while i < names.len()
        invariant
            i <= names@.len(),
            sorted_frames(names@, i as int, out@),
        decreases names@.len() - i,
    {
        if frame_format(&names[i]).is_some() {
            let mut p: usize = 0;
            while p < out.len() && !is_before(&names[i], &names[out[p]])
                invariant
                    p <= out@.len(),
                    i < names@.len(),
                    sorted_frames(names@, i as int, out@),
                    forall|a: int|
                        0 <= a < p ==> !comes_before(
                            names@[i as int]@,
                            names@[(#[trigger] out@[a]) as int]@,
                        ),
                decreases out@.len() - p,
            {
                p += 1;
            }
            let ghost before = out@;
            out.insert(p, i);
            proof {
                lemma_inserted(names@, i as int, before, p as int, out@);
            }
        }
        i += 1;
    }
    out
}

/// Inserting an entry where it belongs keeps the selection sorted.
proof fn lemma_inserted(names: Seq<Vec<u8>>, i: int, before: Seq<usize>, p: int, after: Seq<usize>)
    requires
        0 <= i < names.len(),
        names.len() <= usize::MAX,
        sorted_frames(names, i, before),
        format_of(names[i]@) is Some,
        0 <= p <= before.len(),
        after == before.insert(p, i as usize),
        forall|a: int|
            0 <= a < p ==> !comes_before(names[i]@, names[(#[trigger] before[a]) as int]@),
        p < before.len() ==> comes_before(names[i]@, names[before[p] as int]@),
    ensures
        sorted_frames(names, i + 1, after),
{
    assert forall|a: int, b: int| 0 <= a < b < after.len() implies stands_before(
        names,
        (#[trigger] after[a]) as int,
        (#[trigger] after[b]) as int,
    ) by {
        if b == p {
            assert(after[a] == before[a]);
            names_are_ordered(names[before[a] as int]@, names[i]@);
        } else if a == p {
            assert(after[b] == before[b - 1]);
            if b - 1 > p {
                let (x, y) = (before[p] as int, before[b - 1] as int);
                assert(stands_before(names, x, y));
                if comes_before(names[x]@, names[y]@) {
                    order_of_names_chains(names[i]@, names[x]@, names[y]@);
                }
            }
        } else {
            let x = if a < p {
                a
            } else {
                a - 1
            };
            let y = if b < p {
                b
            } else {
                b - 1
            };
            assert(after[a] == before[x] && after[b] == before[y]);
        }
    }
    assert forall|k: int|
        0 <= k < i + 1 && format_of((#[trigger] names[k])@) is Some implies after.contains(
        k as usize,
    ) by {
        if k == i {
            assert(after[p] == i as usize);
        } else {
            let a = choose|a: int| 0 <= a < before.len() && before[a] == k as usize;
            assert(before.contains(k as usize));
            let x = if a < p {
                a
            } else {
                a + 1
            };
            assert(after[x] == k as usize);
        }
    }
    assert forall|a: int| 0 <= a < after.len() implies 0 <= (#[trigger] after[a]) < i + 1
        && format_of(names[after[a] as int]@) is Some by {
        if a < p {
            assert(after[a] == before[a]);
        } else if a > p {
            assert(after[a] == before[a - 1]);
        }
    }
}

/// A decoded frame, three bytes per pixel.
#[derive(Debug, Clone, PartialEq, Eq)]
pub struct RgbFrame {
    pub pixels: Vec<u8>,
    pub width: u32,
    pub height: u32,
}

/// A decoded frame as a value.
pub struct FrameImage {
    pub pixels: Seq<u8>,
    pub width: u32,
    pub height: u32,
}

impl View for RgbFrame {
    type V = FrameImage;

    open spec fn view(&self) -> FrameImage {
        FrameImage { pixels: self.pixels@, width: self.width, height: self.height }
    }
}

/// The buffer holds every pixel and nothing else, and a byte offset into it
/// is an `i64`.
pub open spec fn is_whole(f: FrameImage) -> bool {
    &&& f.width * f.height * 3 == f.pixels.len()
    &&& f.pixels.len() <= i64::MAX
}

impl RgbFrame {
    /// Whether the buffer holds the pixels of the frame, tightly packed.
    pub fn is_packed(&self) -> (r: bool)
        ensures
            r == is_whole(self@),
    {
        let (w, h): (u128, u128) = (self.width as u128, self.height as u128);
        let (max, len): (u128, u128) = (i64::MAX as u128, self.pixels.len() as u128);
        proof {
            assert(0 <= w * h <= 0xffff_ffff * 0xffff_ffff) by (nonlinear_arith)
                requires
                    w <= 0xffff_ffff,
                    h <= 0xffff_ffff,
            ;
        }
        w * h * 3 == len && len <= max
    }
}

/// The big-endian number of four bytes.
pub open spec fn be_u32(b: Seq<u8>, at: int) -> int {
    16777216 * b[at] + 65536 * b[at + 1] + 256 * b[at + 2] + b[at + 3]
}

/// The chunk of a PNG file at this position is a palette (`PLTE`).
pub open spec fn is_palette_chunk(b: Seq<u8>, at: int) -> bool {
    b[at + 4] == 80 && b[at + 5] == 76 && b[at + 6] == 84 && b[at + 7] == 69
}

/// The chunk of a PNG file at this position is image data (`IDAT`).
pub open spec fn is_data_chunk(b: Seq<u8>, at: int) -> bool {
    b[at + 4] == 73 && b[at + 5] == 68 && b[at + 6] == 65 && b[at + 7] == 84
}

/// The length of the first palette before the image data, from the chunk at
/// this position on. A chunk is its length, its type, that many bytes and a
/// checksum.
pub open spec fn palette_length_from(b: Seq<u8>, at: int) -> Option<int>
    decreases b.len() - at,
{
    if at + 8 > b.len() || is_data_chunk(b, at) {
        None
    } else if is_palette_chunk(b, at) {
        Some(be_u32(b, at))
    } else if at + 12 + be_u32(b, at) >= b.len() {
        None
    } else {
        palette_length_from(b, at + 12 + be_u32(b, at))
    }
}

/// A PNG file whose header says that its pixels are palette indices, with a
/// palette that is not made of whole entries of three bytes.
pub open spec fn has_ragged_palette(b: Seq<u8>) -> bool {
    &&& b.len() > 25
    &&& b[25] == 3
    &&& palette_length_from(b, 8) matches Some(n) && n % 3 != 0
}

/// The big-endian number of four bytes.
fn read_be_u32(bytes: &[u8], at: usize) -> (r: u32)
    requires
        at + 4 <= bytes@.len(),
    ensures
        r == be_u32(bytes@, at as int),
{
    16777216 * (bytes[at] as u32) + 65536 * (bytes[at + 1] as u32) + 256 * (bytes[at + 2] as u32)
        + (bytes[at + 3] as u32)
}

/// Whether the palette of a PNG file with palette indices is cut off within
/// an entry.
pub fn is_palette_ragged(bytes: &[u8]) -> (r: bool)
    ensures
        r == has_ragged_palette(bytes@),
{
    if bytes.len() <= 25 || bytes[25] != 3 {
        return false;
    }
    let mut at: usize = 8;
    while bytes.len() - at >= 8
        invariant
            at <= bytes@.len(),
            bytes@.len() > 25,
            bytes@[25] == 3,
            palette_length_from(bytes@, 8) == palette_length_from(bytes@, at as int),
        decreases bytes@.len() - at,
    {
        if bytes[at + 4] == 73 && bytes[at + 5] == 68 && bytes[at + 6] == 65
            && bytes[at + 7] == 84
        {
            return false;
        }
        let length: u32 = read_be_u32(bytes, at);
        if bytes[at + 4] == 80 && bytes[at + 5] == 76 && bytes[at + 6] == 84
            && bytes[at + 7] == 69
        {
            return length % 3 != 0;
        }
        if (bytes.len() - at) as u64 <= 12 + length as u64 {
            return false;
        }
        at = at + 12 + length as usize;
    }
    false
}

/// The error of the image decoder.
#[verifier::external_type_specification]
#[verifier::external_body]
pub struct ExImageError(image::ImageError);

/// What a PNG file decodes to, or `None` when it is not decodable.
pub uninterp spec fn decoded_png(bytes: Seq<u8>) -> Option<FrameImage>;

/// `image::load_from_memory_with_format` for PNG files, and the image it gives
/// as packed RGB bytes.
///
/// Claimed: a decoded buffer holds three bytes for each of its pixels and no
/// others, and no more bytes than a vector can hold; and the result is
/// determined by the bytes of the file. The decoder panics on a palette that
/// is cut off within an entry, so such files are left out.
#[verifier::external_body]
fn decode_png(bytes: &[u8]) -> (r: Result<RgbFrame, image::ImageError>)
    requires
        !has_ragged_palette(bytes@),
    ensures
        r is Ok ==> is_whole(r->Ok_0@),
        decoded_png(bytes@) == (match r {
            Ok(f) => Some(f@),
            Err(_) => None,
        }),
{
    let rgb = image::load_from_memory_with_format(bytes, image::ImageFormat::Png)?.to_rgb8();
    let (width, height) = (rgb.width(), rgb.height());
    Ok(RgbFrame { pixels: rgb.into_raw(), width, height })
}

/// Why a frame cannot be added to a sequence.
#[derive(Debug)]
pub enum FrameError {
    /// It cannot be decoded.
    Decode(image::ImageError),
    /// It is not decoded: its palette is cut off within an entry.
    RaggedPalette,
    /// It does not fit to the frames before it.
    Sequence(RealSeqError),
}

/// Frames of one size, in order.
pub struct FrameStack {
    frames: Vec<Vec<u8>>,
    dims: Option<(u32, u32)>,
}

impl FrameStack {
    /// The frames so far.
    pub closed spec fn frames(&self) -> Seq<Vec<u8>> {
        self.frames@
    }

    /// The size of the frames, once there is one.
    pub closed spec fn dims(&self) -> Option<(u32, u32)> {
        self.dims
    }

    /// The size is known once there is a frame, and every buffer holds the
    /// pixels of one, tightly packed.
    #[verifier::type_invariant]
    spec fn is_uniform(self) -> bool {
        &&& self.dims is Some <==> self.frames@.len() > 0
        &&& self.dims matches Some((w, h)) ==> w * h * 3 <= i64::MAX && forall|t: int|
            0 <= t < self.frames@.len() ==> w * h * 3 == (#[trigger] self.frames@[t])@.len()
    }

    pub fn new() -> (r: Self)
        ensures
            r.frames() == Seq::<Vec<u8>>::empty(),
            r.dims() is None,
    {
        FrameStack { frames: Vec::new(), dims: None }
    }

    /// Adds a decoded frame. It has to have the size of the first one.
    pub fn push(&mut self, frame: RgbFrame) -> (r: Result<(), RealSeqError>)
        requires
            is_whole(frame@),
        ensures
            is_pushed(*old(self), frame@, *final(self), r),
    {
        proof {
            use_type_invariant(&*self);
        }
        let (w, h): (u32, u32) = (frame.width, frame.height);
        if let Some((ew, eh)) = self.dims {
            if ew != w || eh != h {
                return Err(
                    RealSeqError::SizeMismatch {
                        index: self.frames.len(),
                        actual_w: w,
                        actual_h: h,
                        expected_w: ew,
                        expected_h: eh,
                    },
                );
            }
        }
        let mut taken: FrameStack = FrameStack::new();
        core::mem::swap(&mut taken, self);
        let mut frames: Vec<Vec<u8>> = taken.frames;
        frames.push(frame.pixels);
        *self = FrameStack { frames, dims: Some((w, h)) };
        assert(self.frames@.drop_last() == old(self).frames());
        Ok(())
    }

    /// Decodes a PNG file and adds it as a frame. A file whose palette is cut
    /// off within an entry is refused; what any other file adds is fixed by its
    /// bytes.
    pub fn add_png(&mut self, bytes: &[u8]) -> (r: Result<(), FrameError>)
        ensures
            has_ragged_palette(bytes@) ==> r is Err && r->Err_0 is RaggedPalette && *final(self)
                == *old(self),
            !has_ragged_palette(bytes@) ==> is_added(
                *old(self),
                decoded_png(bytes@),
                *final(self),
                r,
            ),
            !has_ragged_palette(bytes@) && decoded_png(bytes@) is Some ==> is_whole(
                decoded_png(bytes@)->0,
            ),
    {
        if is_palette_ragged(bytes) {
            return Err(FrameError::RaggedPalette);
        }
        match decode_png(bytes) {
            Err(e) => Err(FrameError::Decode(e)),
            Ok(frame) => match self.push(frame) {
                Ok(()) => Ok(()),
                Err(e) => Err(FrameError::Sequence(e)),
            },
        }
    }

    /// The frames and their size. There has to be one.
    pub fn finish(self) -> (r: Result<(Vec<Vec<u8>>, u32, u32), RealSeqError>)
        ensures
            self.dims() is Some ==> r is Ok && (r->Ok_0).0@ == self.frames() && Some(
                ((r->Ok_0).1, (r->Ok_0).2),
            ) == self.dims(),
            self.dims() is None ==> r == Err::<(Vec<Vec<u8>>, u32, u32), RealSeqError>(
                RealSeqError::EmptyFrameDir,
            ),
            r matches Ok((frames, w, h)) ==> frames@.len() > 0 && w * h * 3 <= i64::MAX
                && forall|t: int|
                0 <= t < frames@.len() ==> w * h * 3 == (#[trigger] frames@[t])@.len(),
    {
        proof {
            use_type_invariant(&self);
        }
        match self.dims {
            Some((w, h)) => Ok((self.frames, w, h)),
            None => Err(RealSeqError::EmptyFrameDir),
        }
    }

    /// The sequence of the frames and the text of their ground truth. `name`
    /// is a label for the report. What comes out can be run and scored.
    pub fn into_sequence(self, name: &'static str, gt_csv: &str) -> (r: Result<
        Sequence,
        RealSeqError,
    >)
        ensures
            self.dims() is None ==> r == Err::<Sequence, RealSeqError>(
                RealSeqError::EmptyFrameDir,
            ),
            self.dims() is Some ==> is_assembled(self, name@, gt_csv@, r),
            r is Ok ==> r->Ok_0.wf(),
    {
        match self.finish() {
            Err(e) => Err(e),
            Ok((frames, w, h)) => {
                let ghost loaded = frames;
                let r = build_sequence(name, frames, w, h, gt_csv);
                assert(is_built(name@, loaded, w, h, gt_csv@, r));
                r
            },
        }
    }
}

/// The outcome of making a sequence of the frames of a stack and the text of
/// their ground truth.
pub open spec fn is_assembled(
    stack: FrameStack,
    name: Seq<char>,
    gt_csv: Seq<char>,
    r: Result<Sequence, RealSeqError>,
) -> bool {
    exists|frames: Vec<Vec<u8>>, w: u32, h: u32|
        frames@ == stack.frames() && stack.dims() == Some((w, h)) && #[trigger] is_built(
            name,
            frames,
            w,
            h,
            gt_csv,
            r,
        )
}

/// Adding an image to a stack: it is appended when it has the size of the
/// first one or is the first, and refused with the two sizes otherwise.
pub open spec fn is_pushed(
    pre: FrameStack,
    image: FrameImage,
    post: FrameStack,
    r: Result<(), RealSeqError>,
) -> bool {
    let size = (image.width, image.height);
    if pre.dims() is None || pre.dims() == Some(size) {
        &&& r is Ok
        &&& post.dims() == Some(size)
        &&& post.frames().len() == pre.frames().len() + 1
        &&& post.frames().drop_last() == pre.frames()
        &&& post.frames().last()@ == image.pixels
    } else {
        let (ew, eh) = pre.dims()->0;
        &&& r == Err::<(), RealSeqError>(
            RealSeqError::SizeMismatch {
                index: pre.frames().len() as usize,
                actual_w: image.width,
                actual_h: image.height,
                expected_w: ew,
                expected_h: eh,
            },
        )
        &&& post == pre
    }
}

/// Adding a PNG file to a stack, given what it decodes to.
pub open spec fn is_added(
    pre: FrameStack,
    image: Option<FrameImage>,
    post: FrameStack,
    r: Result<(), FrameError>,
) -> bool {
    match image {
        None => r is Err && r->Err_0 is Decode && post == pre,
        Some(f) => match r {
            Ok(_) => is_pushed(pre, f, post, Ok(())),
            Err(FrameError::Sequence(e)) => is_pushed(pre, f, post, Err(e)),
            Err(FrameError::Decode(_)) | Err(FrameError::RaggedPalette) => false,
        },
    }
}

/// The name of an extracted frame, character by character.
pub proof fn extracted_names_by_character(name: Seq<char>)
    ensures
        is_extracted_name(name) <==> {
            &&& name.len() == 16
            &&& name[0] == 'f' && name[1] == 'r' && name[2] == 'a' && name[3] == 'm' && name[4]
                == 'e' && name[5] == '_'
            &&& forall|i: int| 6 <= i < 12 ==> '0' <= #[trigger] name[i] <= '9'
            &&& name[12] == '.' && name[13] == 'p' && name[14] == 'n' && name[15] == 'g'
        },
{
    reveal_strlit("frame_");
    reveal_strlit(".png");
    if name.len() == 16 {
        let (head, tail) = (name.take(6), name.skip(12));
        assert(head[0] == name[0] && head[1] == name[1] && head[2] == name[2] && head[3] == name[3]
            && head[4] == name[4] && head[5] == name[5]);
        assert(tail[0] == name[12] && tail[1] == name[13] && tail[2] == name[14] && tail[3]
            == name[15]);
        if name[0] == 'f' && name[1] == 'r' && name[2] == 'a' && name[3] == 'm' && name[4] == 'e'
            && name[5] == '_' {
            assert(head =~= "frame_"@);
        }
        if name[12] == '.' && name[13] == 'p' && name[14] == 'n' && name[15] == 'g' {
            assert(tail =~= ".png"@);
        }
        assert forall|i: int| 6 <= i < 12 && is_extracted_name(name) implies '0'
            <= #[trigger] name[i] <= '9' by {
            assert(is_digit(name[i]));
        }
        if forall|i: int| 6 <= i < 12 ==> '0' <= #[trigger] name[i] <= '9' {
            assert forall|i: int| 6 <= i < 12 implies is_digit(#[trigger] name[i]) by {}
        }
    }
}

/// The format of a file, by the last bytes of its name: `.png`, `.jpg` or
/// `.jpeg`, each letter in either case, with something in front of the dot.
pub proof fn formats_by_the_last_bytes(name: Seq<u8>)
    ensures
        format_of(name) == Some(FrameFormat::Png) <==> {
            let n = name.len() as int;
            &&& n >= 5
            &&& name[n - 4] == 46
            &&& name[n - 3] == 112 || name[n - 3] == 80
            &&& name[n - 2] == 110 || name[n - 2] == 78
            &&& name[n - 1] == 103 || name[n - 1] == 71
        },
        format_of(name) == Some(FrameFormat::Jpeg) <==> {
            let n = name.len() as int;
            ||| {
                &&& n >= 5
                &&& name[n - 4] == 46
                &&& name[n - 3] == 106 || name[n - 3] == 74
                &&& name[n - 2] == 112 || name[n - 2] == 80
                &&& name[n - 1] == 103 || name[n - 1] == 71
            }
            ||| {
                &&& n >= 6
                &&& name[n - 5] == 46
                &&& name[n - 4] == 106 || name[n - 4] == 74
                &&& name[n - 3] == 112 || name[n - 3] == 80
                &&& name[n - 2] == 101 || name[n - 2] == 69
                &&& name[n - 1] == 103 || name[n - 1] == 71
            }
        },
{
    let n = name.len() as int;
    lemma_three_letters(name, png());
    lemma_three_letters(name, jpg());
    let ext = jpeg();
    if has_extension(name, ext) {
        assert(lower(name[n - 4]) == ext[0] && lower(name[n - 3]) == ext[1] && lower(name[n - 2])
            == ext[2] && lower(name[n - 1]) == ext[3]);
    }
    if n >= 6 && name[n - 5] == 46 && lower(name[n - 4]) == ext[0] && lower(name[n - 3]) == ext[1]
        && lower(name[n - 2]) == ext[2] && lower(name[n - 1]) == ext[3] {
        assert forall|i: int| 0 <= i < ext.len() implies lower(name[name.len() - ext.len() + i])
            == #[trigger] ext[i] by {}
        assert(has_extension(name, ext));
    }
}

/// An extension of three letters, letter by letter.
proof fn lemma_three_letters(name: Seq<u8>, ext: Seq<u8>)
    requires
        ext.len() == 3,
    ensures
        has_extension(name, ext) <==> name.len() >= 5 && name[name.len() - 4] == 46 && lower(
            name[name.len() - 3],
        ) == ext[0] && lower(name[name.len() - 2]) == ext[1] && lower(name[name.len() - 1])
            == ext[2],
{
    let n = name.len() as int;
    if has_extension(name, ext) {
        assert(lower(name[n - 3]) == ext[0] && lower(name[n - 2]) == ext[1] && lower(name[n - 1])
            == ext[2]);
    }
    if n >= 5 && name[n - 4] == 46 && lower(name[n - 3]) == ext[0] && lower(name[n - 2]) == ext[1]
        && lower(name[n - 1]) == ext[2] {
        assert forall|i: int| 0 <= i < ext.len() implies lower(name[name.len() - ext.len() + i])
            == #[trigger] ext[i] by {}
    }
}

/// Two names have their first `k` bytes in common.
pub open spec fn agree_up_to(a: Seq<u8>, b: Seq<u8>, k: int) -> bool {
    &&& 0 <= k <= a.len()
    &&& k <= b.len()
    &&& forall|i: int| 0 <= i < k ==> a[i] == b[i]
}

/// The order of names: at the first byte that differs the smaller one is
/// first, and a name comes before every longer one that starts with it.
pub proof fn the_first_difference_decides(a: Seq<u8>, b: Seq<u8>)
    ensures
        comes_before(a, b) <==> exists|k: int| #[trigger]
            agree_up_to(a, b, k) && k < b.len() && (k == a.len() || a[k] < b[k]),
{
    if comes_before(a, b) {
        let k = lemma_difference_of(a, b);
        assert(agree_up_to(a, b, k));
    }
    if exists|k: int| #[trigger]
        agree_up_to(a, b, k) && k < b.len() && (k == a.len() || a[k] < b[k]) {
        let k = choose|k: int| #[trigger]
            agree_up_to(a, b, k) && k < b.len() && (k == a.len() || a[k] < b[k]);
        lemma_difference_orders(a, b, k);
    }
}

/// Where a name differs from one that it comes before.
proof fn lemma_difference_of(a: Seq<u8>, b: Seq<u8>) -> (k: int)
    requires
        comes_before(a, b),
    ensures
        0 <= k <= a.len(),
        k < b.len(),
        forall|i: int| 0 <= i < k ==> a[i] == b[i],
        k == a.len() || a[k] < b[k],
    decreases a.len(),
{
    if a.len() == 0 || a[0] != b[0] {
        0
    } else {
        let (x, y) = (a.drop_first(), b.drop_first());
        let j = lemma_difference_of(x, y);
        assert forall|i: int| 0 <= i < j + 1 implies a[i] == b[i] by {
            if i > 0 {
                assert(x[i - 1] == y[i - 1]);
                assert(x[i - 1] == a[i] && y[i - 1] == b[i]);
            }
        }
        assert(y[j] == b[j + 1]);
        if j < x.len() {
            assert(x[j] == a[j + 1]);
        }
        j + 1
    }
}

/// A difference orders two names.
proof fn lemma_difference_orders(a: Seq<u8>, b: Seq<u8>, k: int)
    requires
        0 <= k <= a.len(),
        k < b.len(),
        forall|i: int| 0 <= i < k ==> a[i] == b[i],
        k == a.len() || a[k] < b[k],
    ensures
        comes_before(a, b),
    decreases k,
{
    if k > 0 {
        let (x, y) = (a.drop_first(), b.drop_first());
        assert(a[0] == b[0]);
        assert forall|i: int| 0 <= i < k - 1 implies x[i] == y[i] by {
            assert(a[i + 1] == b[i + 1]);
        }
        assert(y[k - 1] == b[k]);
        if k < a.len() {
            assert(x[k - 1] == a[k]);
        }
        lemma_difference_orders(x, y, k - 1);
    }
}

/// The selection: the files with the name of a frame, each of them once, and
/// nothing else, no name before an earlier one, and files of the same name in
/// the order in which they were listed.
pub proof fn the_selection_is_sorted_and_complete(names: Seq<Vec<u8>>, r: Seq<usize>)
    requires
        sorted_frames(names, names.len() as int, r),
        names.len() <= usize::MAX,
    ensures
        forall|i: int|
            0 <= i < names.len() ==> (format_of((#[trigger] names[i])@) is Some <==> r.contains(
                i as usize,
            )),
        forall|a: int| 0 <= a < r.len() ==> (#[trigger] r[a]) < names.len(),
        forall|a: int, b: int| 0 <= a < b < r.len() ==> #[trigger] r[a] != #[trigger] r[b],
        forall|a: int, b: int|
            0 <= a < b < r.len() ==> !comes_before(
                names[#[trigger] r[b] as int]@,
                names[#[trigger] r[a] as int]@,
            ) && (names[r[a] as int]@ == names[r[b] as int]@ ==> r[a] < r[b]),
{
    assert forall|a: int, b: int| 0 <= a < b < r.len() implies #[trigger] r[a] != #[trigger] r[b]
        && !comes_before(names[r[b] as int]@, names[r[a] as int]@) && (names[r[a] as int]@
        == names[r[b] as int]@ ==> r[a] < r[b]) by {
        let (i, j) = (r[a] as int, r[b] as int);
        assert(stands_before(names, i, j));
        names_are_ordered(names[i]@, names[j]@);
        names_are_ordered(names[j]@, names[i]@);
        names_are_ordered(names[i]@, names[i]@);
    }
    assert forall|i: int| 0 <= i < names.len() && r.contains(i as usize) implies format_of(
        (#[trigger] names[i])@,
    ) is Some by {
        let a = choose|a: int| 0 <= a < r.len() && r[a] == i as usize;
        assert(format_of(names[r[a] as int]@) is Some);
    }
}

/// A stack takes a frame exactly when it is the first, or as wide and as high
/// as the first. It then holds the pixels of the frame behind all others. A
/// frame that it does not take leaves it as it was, and both sizes are named,
/// with the place that the frame would have had.
pub proof fn a_stack_takes_frames_of_one_size(
    pre: FrameStack,
    image: FrameImage,
    post: FrameStack,
    r: Result<(), RealSeqError>,
)
    requires
        is_pushed(pre, image, post, r),
    ensures
        r is Ok <==> pre.dims() is None || ((pre.dims()->0).0 == image.width && (pre.dims()->0).1
            == image.height),
        r is Ok ==> post.dims() is Some && (post.dims()->0).0 == image.width && (post.dims()->0).1
            == image.height && post.frames().len() == pre.frames().len() + 1
            && post.frames()[pre.frames().len() as int]@ == image.pixels && forall|i: int|
            0 <= i < pre.frames().len() ==> post.frames()[i] == #[trigger] pre.frames()[i],
        r is Err ==> post == pre && r->Err_0 == (RealSeqError::SizeMismatch {
            index: pre.frames().len() as usize,
            actual_w: image.width,
            actual_h: image.height,
            expected_w: (pre.dims()->0).0,
            expected_h: (pre.dims()->0).1,
        }),
{
    if r is Ok {
        assert forall|i: int| 0 <= i < pre.frames().len() implies post.frames()[i]
            == #[trigger] pre.frames()[i] by {
            assert(post.frames().drop_last()[i] == pre.frames()[i]);
        }
    }
}

/// A file that cannot be decoded is refused and leaves the stack as it was.
/// Any other is taken or refused as the image that it decodes to.
pub proof fn a_file_is_taken_as_its_image(
    pre: FrameStack,
    image: Option<FrameImage>,
    post: FrameStack,
    r: Result<(), FrameError>,
)
    requires
        is_added(pre, image, post, r),
    ensures
        image is None ==> r is Err && r->Err_0 is Decode && post == pre,
        image is Some && r is Ok ==> is_pushed(pre, image->0, post, Ok(())),
        image is Some && r is Err ==> r->Err_0 is Sequence && is_pushed(
            pre,
            image->0,
            post,
            Err(r->Err_0->Sequence_0),
        ),
{
}

/// The walk through the chunks of a PNG file: a palette ends it with its
/// length, image data ends it without, and every other chunk is skipped with
/// its length, its type and its checksum.
pub proof fn other_chunks_are_skipped(b: Seq<u8>, at: int)
    requires
        0 <= at,
        at + 8 <= b.len(),
    ensures
        ({
            let length = ((b[at] * 256 + b[at + 1]) * 256 + b[at + 2]) * 256 + b[at + 3];
            let palette = b[at + 4] == 80 && b[at + 5] == 76 && b[at + 6] == 84 && b[at + 7] == 69;
            let data = b[at + 4] == 73 && b[at + 5] == 68 && b[at + 6] == 65 && b[at + 7] == 84;
            let next = at + 12 + length;
            &&& palette ==> palette_length_from(b, at) == Some(length)
            &&& data ==> palette_length_from(b, at) is None
            &&& !palette && !data ==> palette_length_from(b, at) == palette_length_from(b, next)
        }),
        has_ragged_palette(b) <==> b.len() > 25 && b[25] == 3 && palette_length_from(b, 8) is Some
            && palette_length_from(b, 8)->0 % 3 != 0,
{
}

/// A sequence that is made of a stack has the frames of the stack, in order and
/// of their size, under the given name, and is annotated by the given text.
pub proof fn a_stack_becomes_a_sequence(
    stack: FrameStack,
    name: Seq<char>,
    gt_csv: Seq<char>,
    r: Result<Sequence, RealSeqError>,
)
    requires
        is_assembled(stack, name, gt_csv, r),
    ensures
        r is Ok ==> r->Ok_0.frames@ == stack.frames() && stack.dims() == Some(
            (r->Ok_0.width, r->Ok_0.height),
        ) && r->Ok_0.name@ == name,
        exists|frames: Vec<Vec<u8>>, w: u32, h: u32|
            frames@ == stack.frames() && stack.dims() == Some((w, h)) && #[trigger] is_built(
                name,
                frames,
                w,
                h,
                gt_csv,
                r,
            ),
{
}

} // verus!
