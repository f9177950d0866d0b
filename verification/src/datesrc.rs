//! Capture-date and camera-metadata extraction.
//!
//! Images use EXIF; video containers (MP4/MOV) use the `mvhd` movie-header
//! creation time. Other containers (AVI/MTS/M2TS) have no easily-read capture
//! date and fall back to mtime per the date-source policy.
//!
//! Nothing here touches a file. What a file holds is its bytes, and whoever
//! reads them hands them in: the first part of an image and, where that does
//! not suffice, the whole of it; the pieces of a movie that [`MvhdSearch`]
//! asks for.

use vstd::prelude::*;

use crate::clock;
use crate::clock::Moment;
use crate::text;
use crate::text::Class;
use crate::types;
use crate::types::{CaptureInfo, CaptureKey, FileKind, InfoModel};

verus! {

/// Seconds between the 1904-01-01 (QuickTime/MP4) and 1970-01-01 (Unix) epochs.
pub const MAC_TO_UNIX_EPOCH: i64 = 2082844800;

/// How much of an image is tried before the whole of it.
pub const PREFIX: u64 = 262144;

// ---------------------------------------------------------------------------
// EXIF
// ---------------------------------------------------------------------------

/// The tags of an image that matter here.
#[derive(Clone, Copy, PartialEq, Eq, Structural)]
pub enum ImageTag {
    Make,
    Model,
    DateTime,
    DateTimeOriginal,
    DateTimeDigitized,
    SubSecTimeOriginal,
}

#[verifier::external_type_specification]
#[verifier::external_body]
pub struct ExExif(exif::Exif);

#[verifier::external_type_specification]
#[verifier::external_body]
pub struct ExExifError(exif::Error);

/// The bytes of the first string of each text field in the primary image
/// directory.
pub uninterp spec fn exif_texts(e: exif::Exif) -> Map<ImageTag, Seq<u8>>;

/// What [`read_container`] finds in an image: [`exif_texts`] of the attributes.
pub uninterp spec fn image_texts(bytes: Seq<u8>) -> Option<Map<ImageTag, Seq<u8>>>;

/// `exif::Reader::read_from_container` on an image in memory. Whether there
/// are attributes, and which, depends on the bytes alone.
#[verifier::external_body]
fn read_container(bytes: &Vec<u8>) -> (r: Result<exif::Exif, exif::Error>)
    ensures
        match r {
            Ok(e) => image_texts(bytes@) == Some(exif_texts(e)),
            Err(_) => image_texts(bytes@) is None,
        },
{
    exif::Reader::new().read_from_container(&mut std::io::Cursor::new(bytes))
}

/// `exif::Exif::get_field` in the primary image directory: the first string of
/// the field, where the field is there, is text and holds a string.
#[verifier::external_body]
fn first_string(e: &exif::Exif, tag: ImageTag) -> (r: Option<Vec<u8>>)
    ensures
        match r {
            Some(b) => exif_texts(*e).contains_key(tag) && exif_texts(*e)[tag] == b@,
            None => !exif_texts(*e).contains_key(tag),
        },
{
    let t = match tag {
        ImageTag::Make => exif::Tag::Make,
        ImageTag::Model => exif::Tag::Model,
        ImageTag::DateTime => exif::Tag::DateTime,
        ImageTag::DateTimeOriginal => exif::Tag::DateTimeOriginal,
        ImageTag::DateTimeDigitized => exif::Tag::DateTimeDigitized,
        ImageTag::SubSecTimeOriginal => exif::Tag::SubSecTimeOriginal,
    };
    match &e.get_field(t, exif::In::PRIMARY)?.value {
        exif::Value::Ascii(parts) => parts.first().cloned(),
        _ => None,
    }
}

/// What [`lossy_text`] makes of bytes.
pub uninterp spec fn lossy(bytes: Seq<u8>) -> Seq<char>;

/// `String::from_utf8_lossy`: the text that the bytes encode. Where they are
/// not UTF-8, replacement characters stand for what is wrong.
#[verifier::external_body]
fn lossy_text(bytes: &Vec<u8>) -> (r: String)
    ensures
        r@ == lossy(bytes@),
        vstd::utf8::valid_utf8(bytes@) ==> r@ == vstd::utf8::decode_utf8(bytes@),
{
    String::from_utf8_lossy(bytes).into_owned()
}

/// A field's text without blanks and trailing NULs; `None` where nothing is
/// left.
pub open spec fn field_text(raw: Seq<char>) -> Option<Seq<char>> {
    let s = text::trimmed(
        text::trim_right(text::trimmed(raw, Class::White), Class::Nul),
        Class::White,
    );
    if s.len() == 0 {
        None
    } else {
        Some(s)
    }
}

/// The text of a tag.
pub open spec fn tag_text(t: Map<ImageTag, Seq<u8>>, tag: ImageTag) -> Option<Seq<char>> {
    if t.contains_key(tag) {
        field_text(lossy(t[tag]))
    } else {
        None
    }
}

/// A moment with given fields.
pub open spec fn moment_of(f: (int, int, int, int, int, int, int)) -> Moment {
    Moment {
        year: f.0 as i32,
        month: f.1 as u32,
        day: f.2 as u32,
        hour: f.3 as u32,
        minute: f.4 as u32,
        second: f.5 as u32,
        nano: f.6 as u32,
    }
}

/// The moment that an EXIF date text such as `2026:06:20 09:05:03` stands for.
/// Some cameras write zeros or blanks for an unset value.
pub open spec fn exif_moment(raw: Seq<char>) -> Option<Moment> {
    let c = text::trimmed(raw, Class::White);
    if text::has_prefix(c, "0000"@) || c.len() == 0 {
        None
    } else {
        match clock::parsed_datetime(c, "%Y:%m:%d %H:%M:%S"@) {
            Some(f) => Some(moment_of(f)),
            None => None,
        }
    }
}

/// The moment under a tag.
pub open spec fn tag_moment(t: Map<ImageTag, Seq<u8>>, tag: ImageTag) -> Option<Moment> {
    match tag_text(t, tag) {
        Some(raw) => exif_moment(raw),
        None => None,
    }
}

/// The capture time of an image: the original time, else the time of
/// digitization, else the time of the last change.
pub open spec fn capture_time(t: Map<ImageTag, Seq<u8>>) -> Option<Moment> {
    let original = tag_moment(t, ImageTag::DateTimeOriginal);
    let digitized = tag_moment(t, ImageTag::DateTimeDigitized);
    if original is Some {
        original
    } else if digitized is Some {
        digitized
    } else {
        tag_moment(t, ImageTag::DateTime)
    }
}

/// The capture metadata of an image.
pub open spec fn image_info(t: Map<ImageTag, Seq<u8>>) -> InfoModel {
    InfoModel {
        datetime: capture_time(t),
        make: tag_text(t, ImageTag::Make),
        model: tag_text(t, ImageTag::Model),
    }
}

/// The leading digits of a text, at most three of them.
pub open spec fn leading_digits(s: Seq<char>, n: int) -> Seq<char>
    decreases n,
{
    if n <= 0 || s.len() == 0 || !text::is_digit(s[0]) {
        Seq::empty()
    } else {
        seq![s[0]] + leading_digits(s.skip(1), n - 1)
    }
}

/// Milliseconds of an EXIF fraction of a second, whose digits come most
/// significant first.
pub open spec fn subsec_ms(s: Seq<char>) -> int {
    let d = leading_digits(text::trimmed(s, Class::White), 3);
    let v = text::digits_value(d);
    if d.len() == 0 {
        0
    } else if d.len() == 1 {
        v * 100
    } else if d.len() == 2 {
        v * 10
    } else {
        v
    }
}

/// The millisecond-precise capture key of an image.
pub open spec fn capture_key(t: Map<ImageTag, Seq<u8>>) -> Option<CaptureKey> {
    match capture_time(t) {
        None => None,
        Some(dt) => Some(
            CaptureKey {
                dt,
                subsec_ms: match tag_text(t, ImageTag::SubSecTimeOriginal) {
                    Some(s) => subsec_ms(s) as u16,
                    None => 0,
                },
            },
        ),
    }
}

/// The part of an image that is tried first.
pub open spec fn head(file: Seq<u8>) -> Seq<u8> {
    if file.len() <= PREFIX {
        file
    } else {
        file.take(PREFIX as int)
    }
}

/// Whether the first part of an image gives its capture time.
pub open spec fn head_suffices(head: Seq<u8>) -> bool {
    image_texts(head) is Some && capture_time(image_texts(head)->0) is Some
}

/// The attributes of an image file: those in its first part, where they hold a
/// capture time, else those in the whole of it.
pub open spec fn file_texts(file: Seq<u8>) -> Option<Map<ImageTag, Seq<u8>>> {
    if head_suffices(head(file)) {
        image_texts(head(file))
    } else {
        image_texts(file)
    }
}

/// Normalize an EXIF SubSec string (a fraction of a second, most-significant
/// digit first) to whole milliseconds: `"851"` → 851, `"85"` → 850, `"8"` → 800,
/// `"8510"` → 851 (excess digits dropped). A blank/garbage value yields 0.
pub fn parse_subsec_ms(s: &str) -> (r: u16)
    ensures
        r == subsec_ms(s@),
{
    let t: Vec<char> = text::trim_chars(&text::chars_of(s), Class::White);
    let mut n: usize = 0;
    let mut v: u16 = 0;
    let len: usize = t.len();
    proof {
        assert(t@.skip(0) =~= t@);
        assert(t@.take(0) + leading_digits(t@, 3) =~= leading_digits(t@, 3));
    }
    while n < 3 && n < len && '0' <= t[n] && t[n] <= '9'
        invariant
            len == t@.len(),
            n <= 3,
            n <= len,
            v < 1000,
            n == 0 ==> v == 0,
            n == 1 ==> v < 10,
            n == 2 ==> v < 100,
            v == text::digits_value(t@.take(n as int)),
            leading_digits(t@, 3) == t@.take(n as int) + leading_digits(t@.skip(n as int), 3 - n),
        decreases 3 - n,
    {
        proof {
            assert(t@.take(n + 1).drop_last() =~= t@.take(n as int));
            assert(t@.skip(n as int).skip(1) =~= t@.skip(n + 1));
            assert(t@.take(n as int) + (seq![t@[n as int]] + leading_digits(t@.skip(n + 1), 2 - n))
                =~= t@.take(n + 1) + leading_digits(t@.skip(n + 1), 2 - n));
        }
        v = v * 10 + (t[n] as u32 - 48) as u16;
        n = n + 1;
    }
    proof {
        assert(leading_digits(t@.skip(n as int), 3 - n) =~= Seq::<char>::empty());
        assert(leading_digits(t@, 3) =~= t@.take(n as int));
    }
    if n == 0 {
        0
    } else if n == 1 {
        v * 100
    } else if n == 2 {
        v * 10
    } else {
        v
    }
}

/// The text of a tag.
fn get_ascii(e: &exif::Exif, tag: ImageTag) -> (r: Option<String>)
    ensures
        types::opt_view(r) == tag_text(exif_texts(*e), tag),
{
    let bytes: Vec<u8> = match first_string(e, tag) {
        Some(b) => b,
        None => return None,
    };
    let raw: String = lossy_text(&bytes);
    let v: Vec<char> = text::trim_chars(&text::chars_of(raw.as_str()), Class::White);
    let s: Vec<char> = text::trim_chars(&text::drop_right(&v, Class::Nul), Class::White);
    if s.len() == 0 {
        None
    } else {
        Some(text::string_of(&s))
    }
}

/// The moment that an EXIF date text stands for.
pub fn parse_exif_dt(raw: &str) -> (r: Option<Moment>)
    ensures
        r == exif_moment(raw@),
        r matches Some(m) ==> m.valid(),
{
    let cleaned: String = text::trim_white(raw);
    if text::starts_with(cleaned.as_str(), "0000") || text::same(cleaned.as_str(), "") {
        proof {
            reveal_strlit("");
        }
        return None;
    }
    proof {
        reveal_strlit("");
        assert(cleaned@.len() == 0 ==> cleaned@ =~= ""@);
    }
    clock::parse_datetime(cleaned.as_str(), "%Y:%m:%d %H:%M:%S")
}

/// The moment under a tag.
fn tag_date(e: &exif::Exif, tag: ImageTag) -> (r: Option<Moment>)
    ensures
        r == tag_moment(exif_texts(*e), tag),
        r matches Some(m) ==> m.valid(),
{
    match get_ascii(e, tag) {
        Some(s) => parse_exif_dt(s.as_str()),
        None => None,
    }
}

/// The capture time of an image.
fn capture_dt(e: &exif::Exif) -> (r: Option<Moment>)
    ensures
        r == capture_time(exif_texts(*e)),
        r matches Some(m) ==> m.valid(),
{
    match tag_date(e, ImageTag::DateTimeOriginal) {
        Some(m) => Some(m),
        None => match tag_date(e, ImageTag::DateTimeDigitized) {
            Some(m) => Some(m),
            None => tag_date(e, ImageTag::DateTime),
        },
    }
}

/// The attributes of an image.
pub struct ImageMeta {
    exif: exif::Exif,
}

impl View for ImageMeta {
    type V = Map<ImageTag, Seq<u8>>;

    closed spec fn view(&self) -> Map<ImageTag, Seq<u8>> {
        exif_texts(self.exif)
    }
}

/// The attributes in the first part of an image ([`PREFIX`] bytes, or the
/// whole image where it is shorter), where they hold a capture time. The
/// capture tags nearly always lie there, so that the pixel data need not be
/// read. Where this gives nothing, the whole image has to be tried.
pub fn read_head(bytes: &Vec<u8>) -> (r: Option<ImageMeta>)
    ensures
        r is Some <==> head_suffices(bytes@),
        r matches Some(m) ==> image_texts(bytes@) == Some(m@),
        forall|file: Seq<u8>|
            bytes@ == #[trigger] head(file) ==> match r {
                Some(m) => file_texts(file) == Some(m@),
                None => file_texts(file) == image_texts(file),
            },
{
    match read_container(bytes) {
        Ok(e) => if capture_dt(&e).is_some() {
            Some(ImageMeta { exif: e })
        } else {
            None
        },
        Err(_) => None,
    }
}

/// The attributes of a whole image.
pub fn read_whole(bytes: &Vec<u8>) -> (r: Option<ImageMeta>)
    ensures
        match r {
            Some(m) => image_texts(bytes@) == Some(m@),
            None => image_texts(bytes@) is None,
        },
{
    match read_container(bytes) {
        Ok(e) => Some(ImageMeta { exif: e }),
        Err(_) => None,
    }
}

/// The capture metadata of an image.
pub fn exif_capture(meta: &ImageMeta) -> (r: CaptureInfo)
    ensures
        r@ == image_info(meta@),
        r.datetime matches Some(m) ==> m.valid(),
        tag_moment(meta@, ImageTag::DateTimeOriginal) is Some ==> r.datetime == tag_moment(
            meta@,
            ImageTag::DateTimeOriginal,
        ),
        tag_moment(meta@, ImageTag::DateTimeOriginal) is None && tag_moment(
            meta@,
            ImageTag::DateTimeDigitized,
        ) is Some ==> r.datetime == tag_moment(meta@, ImageTag::DateTimeDigitized),
        tag_moment(meta@, ImageTag::DateTimeOriginal) is None && tag_moment(
            meta@,
            ImageTag::DateTimeDigitized,
        ) is None ==> r.datetime == tag_moment(meta@, ImageTag::DateTime),
        types::opt_view(r.make) == tag_text(meta@, ImageTag::Make),
        types::opt_view(r.model) == tag_text(meta@, ImageTag::Model),
{
    CaptureInfo {
        datetime: capture_dt(&meta.exif),
        make: get_ascii(&meta.exif, ImageTag::Make),
        model: get_ascii(&meta.exif, ImageTag::Model),
    }
}

/// A millisecond-precise [`CaptureKey`] (`DateTimeOriginal` +
/// `SubSecTimeOriginal`) of an image. A PixCake preview JPEG and its RAW carry
/// the same value, so equal keys mean the same shot. `None` if the image has
/// no usable EXIF datetime.
pub fn exif_capture_key(meta: &ImageMeta) -> (r: Option<CaptureKey>)
    ensures
        r == capture_key(meta@),
        r matches Some(k) ==> k.dt.valid(),
        r matches Some(k) ==> {
            &&& tag_moment(meta@, ImageTag::DateTimeOriginal) is Some ==> Some(k.dt) == tag_moment(
                meta@,
                ImageTag::DateTimeOriginal,
            )
            &&& tag_moment(meta@, ImageTag::DateTimeOriginal) is None && tag_moment(
                meta@,
                ImageTag::DateTimeDigitized,
            ) is Some ==> Some(k.dt) == tag_moment(meta@, ImageTag::DateTimeDigitized)
            &&& tag_moment(meta@, ImageTag::DateTimeOriginal) is None && tag_moment(
                meta@,
                ImageTag::DateTimeDigitized,
            ) is None ==> Some(k.dt) == tag_moment(meta@, ImageTag::DateTime)
        },
        r is None ==> tag_moment(meta@, ImageTag::DateTimeOriginal) is None && tag_moment(
            meta@,
            ImageTag::DateTimeDigitized,
        ) is None && tag_moment(meta@, ImageTag::DateTime) is None,
{
    let dt: Moment = match capture_dt(&meta.exif) {
        Some(m) => m,
        None => return None,
    };
    let ms: u16 = match get_ascii(&meta.exif, ImageTag::SubSecTimeOriginal) {
        Some(s) => parse_subsec_ms(s.as_str()),
        None => 0,
    };
    Some(CaptureKey { dt, subsec_ms: ms })
}

// ---------------------------------------------------------------------------
// Movies
// ---------------------------------------------------------------------------

/// The number that bytes stand for, most significant first.
pub open spec fn big_endian(b: Seq<u8>) -> int
    decreases b.len(),
{
    if b.len() == 0 {
        0
    } else {
        big_endian(b.drop_last()) * 256 + b.last() as int
    }
}

/// The Unix time of a movie time: both are 64-bit numbers that wrap around.
pub open spec fn unix_of(raw: int) -> int {
    let n = if raw < 0x8000_0000_0000_0000 {
        raw
    } else {
        raw - 0x1_0000_0000_0000_0000
    };
    let t = n - MAC_TO_UNIX_EPOCH;
    if t < i64::MIN {
        t + 0x1_0000_0000_0000_0000
    } else {
        t
    }
}

/// The creation time in the body of a movie header: a version, three bytes of
/// flags, then eight bytes (version 1) or four. Zero means unset.
pub open spec fn header_time(file: Seq<u8>, at: int) -> Option<int> {
    let width = if at < file.len() && file[at] == 1 {
        8
    } else {
        4int
    };
    if at >= file.len() || at + 4 + width > file.len() {
        None
    } else {
        let raw = big_endian(file.subrange(at + 4, at + 4 + width));
        if raw == 0 {
            None
        } else {
            Some(unix_of(raw))
        }
    }
}

/// The kind of a box.
pub open spec fn is_box(file: Seq<u8>, pos: int, kind: Seq<u8>) -> bool {
    file.subrange(pos + 4, pos + 8) == kind
}

pub open spec fn moov() -> Seq<u8> {
    seq![0x6du8, 0x6fu8, 0x6fu8, 0x76u8]
}

pub open spec fn mvhd() -> Seq<u8> {
    seq![0x6du8, 0x76u8, 0x68u8, 0x64u8]
}

/// The header length and the size of the box at `pos`, where it is whole: the
/// box is no shorter than its header and does not reach beyond `end`. A size
/// of one announces a 64-bit size behind the header, a size of zero a box that
/// reaches up to `end`.
pub open spec fn box_extent(file: Seq<u8>, pos: int, end: int) -> Option<(int, int)> {
    let short = big_endian(file.subrange(pos, pos + 4));
    if pos + 8 > end || pos + 8 > file.len() || (short == 1 && pos + 16 > file.len()) {
        None
    } else {
        let head: int = if short == 1 {
            16
        } else {
            8
        };
        let size = if short == 1 {
            big_endian(file.subrange(pos + 8, pos + 16))
        } else if short == 0 {
            end - pos
        } else {
            short
        };
        if size < head || size > end - pos {
            None
        } else {
            Some((head, size))
        }
    }
}

/// The creation time in the first `mvhd` box among those from `pos` to `end`,
/// `moov` boxes searched through, down to six levels.
pub open spec fn search(file: Seq<u8>, pos: int, end: int, depth: int) -> Option<int>
    decreases 7 - depth, end - pos,
{
    if depth > 6 {
        None
    } else {
        match box_extent(file, pos, end) {
            None => None,
            Some((head, size)) => if is_box(file, pos, mvhd()) {
                header_time(file, pos + head)
            } else if is_box(file, pos, moov()) {
                let inner = search(file, pos + head, pos + size, depth + 1);
                if inner is Some {
                    inner
                } else {
                    search(file, pos + size, end, depth)
                }
            } else {
                search(file, pos + size, end, depth)
            },
        }
    }
}

/// The creation time of a movie, in Unix seconds.
pub open spec fn movie_time(file: Seq<u8>) -> Option<int> {
    search(file, 0, file.len() as int, 0)
}

/// Where a search stands.
#[derive(Clone, Copy, PartialEq, Eq, Structural)]
pub enum Step {
    /// At a box.
    Box,
    /// At the 64-bit size of a box; `movie` and `header` say whether it is a
    /// `moov` or an `mvhd` box.
    Large { movie: bool, header: bool },
    /// At the body of a movie header.
    Version { at: u64 },
    /// At the creation time of a movie header.
    Time { at: u64, long: bool },
    /// The search has ended.
    Done { time: Option<i64> },
}

/// The search for a movie's creation time, as a machine that says which bytes
/// of the file it needs ([`MvhdSearch::need`]) and takes them
/// ([`MvhdSearch::give`]).
pub struct MvhdSearch {
    /// Where to go on, and how far, in the boxes around the one being searched.
    outer: Vec<(u64, u64)>,
    pos: u64,
    end: u64,
    step: Step,
}

/// The bytes of a file from `at` on, `len` of them; `None` where the file does
/// not hold as many.
pub open spec fn piece(file: Seq<u8>, at: int, len: int) -> Option<Seq<u8>> {
    if at + len <= file.len() {
        Some(file.subrange(at, at + len))
    } else {
        None
    }
}

/// What the boxes around the one being searched still give.
pub open spec fn outer_search(file: Seq<u8>, outer: Seq<(u64, u64)>) -> Option<int>
    decreases outer.len(),
{
    if outer.len() == 0 {
        None
    } else {
        let here = search(file, outer.last().0 as int, outer.last().1 as int, outer.len() - 1);
        if here is Some {
            here
        } else {
            outer_search(file, outer.drop_last())
        }
    }
}

/// How many bytes are still to be searched in the boxes around the one being
/// searched.
pub open spec fn outer_bytes(outer: Seq<(u64, u64)>) -> int
    decreases outer.len(),
{
    if outer.len() == 0 {
        0
    } else {
        outer_bytes(outer.drop_last()) + (outer.last().1 - outer.last().0)
    }
}

proof fn lemma_outer_bytes(outer: Seq<(u64, u64)>)
    requires
        forall|i: int| 0 <= i < outer.len() ==> (#[trigger] outer[i]).0 <= outer[i].1,
    ensures
        0 <= outer_bytes(outer),
    decreases outer.len(),
{
    if outer.len() > 0 {
        assert(outer[outer.len() - 1].0 <= outer[outer.len() - 1].1);
        lemma_outer_bytes(outer.drop_last());
    }
}

/// The first of two times that is there.
pub open spec fn first_time(a: Option<int>, b: Option<int>) -> Option<int> {
    if a is Some {
        a
    } else {
        b
    }
}

impl MvhdSearch {
    /// What every state keeps: no place lies beyond the largest file offset,
    /// and no box is searched below the sixth level.
    pub closed spec fn wf(self) -> bool {
        &&& self.pos <= self.end <= i64::MAX
        &&& self.outer@.len() <= 6
        &&& forall|i: int|
            0 <= i < self.outer@.len() ==> (#[trigger] self.outer@[i]).0 <= self.outer@[i].1
                <= i64::MAX
        &&& match self.step {
            Step::Box => self.end - self.pos >= 8,
            Step::Large { movie, header } => self.end - self.pos >= 8 && !(movie && header),
            Step::Version { at } => self.end - self.pos >= 8 && at <= i64::MAX,
            Step::Time { at, long } => self.end - self.pos >= 8 && at <= i64::MAX,
            Step::Done { time } => true,
        }
    }

    /// The time that the search ends with, on a file.
    pub closed spec fn outcome(self, file: Seq<u8>) -> Option<int> {
        let depth = self.outer@.len() as int;
        match self.step {
            Step::Box => first_time(
                search(file, self.pos as int, self.end as int, depth),
                outer_search(file, self.outer@),
            ),
            Step::Large { movie, header } => first_time(
                self.large_outcome(file, movie, header),
                outer_search(file, self.outer@),
            ),
            Step::Version { at } => first_time(
                header_time(file, at as int),
                outer_search(file, self.outer@),
            ),
            Step::Time { at, long } => first_time(
                Self::time_outcome(file, at as int, long),
                outer_search(file, self.outer@),
            ),
            Step::Done { time } => match time {
                Some(t) => Some(t as int),
                None => None,
            },
        }
    }

    /// What the box with a 64-bit size, and those behind it, give.
    spec fn large_outcome(self, file: Seq<u8>, movie: bool, header: bool) -> Option<int> {
        let pos = self.pos as int;
        let end = self.end as int;
        let depth = self.outer@.len() as int;
        if pos + 16 > file.len() {
            None
        } else {
            let size = big_endian(file.subrange(pos + 8, pos + 16));
            Self::box_outcome(file, pos, end, depth, 16, size, movie, header)
        }
    }

    /// What a box of a given size, and those behind it, give.
    spec fn box_outcome(
        file: Seq<u8>,
        pos: int,
        end: int,
        depth: int,
        head: int,
        size: int,
        movie: bool,
        header: bool,
    ) -> Option<int> {
        if size < head || size > end - pos {
            None
        } else if header {
            header_time(file, pos + head)
        } else if movie {
            first_time(
                search(file, pos + head, pos + size, depth + 1),
                search(file, pos + size, end, depth),
            )
        } else {
            search(file, pos + size, end, depth)
        }
    }

    /// What the creation time in a movie header's body gives.
    spec fn time_outcome(file: Seq<u8>, at: int, long: bool) -> Option<int> {
        let width: int = if long {
            8
        } else {
            4
        };
        if at + 4 + width > file.len() {
            None
        } else {
            let raw = big_endian(file.subrange(at + 4, at + 4 + width));
            if raw == 0 {
                None
            } else {
                Some(unix_of(raw))
            }
        }
    }

    /// Whether the search has ended.
    pub closed spec fn ended(self) -> bool {
        self.step is Done
    }

    /// How many answers the search can still take at most: up to four at a box,
    /// of which each covers at least eight of the bytes still to be searched.
    pub closed spec fn left(self) -> int {
        let bytes = outer_bytes(self.outer@) + (self.end - self.pos);
        match self.step {
            Step::Box => bytes + 4,
            Step::Large { movie, header } => bytes + 3,
            Step::Version { at } => bytes + 2,
            Step::Time { at, long } => bytes + 1,
            Step::Done { time } => 0,
        }
    }

    /// The place and the number of the bytes that are needed next.
    pub closed spec fn wanted(self) -> (int, int) {
        match self.step {
            Step::Box => (self.pos as int, 8),
            Step::Large { movie, header } => (self.pos + 8, 8),
            Step::Version { at } => (at as int, 1),
            Step::Time { at, long } => (
                at + 4,
                if long {
                    8
                } else {
                    4
                },
            ),
            Step::Done { time } => (0, 0),
        }
    }

    /// A search through a file of `size` bytes.
    pub fn new(size: u64) -> (r: MvhdSearch)
        requires
            size <= i64::MAX,
        ensures
            r.wf(),
            r.left() <= size + 4,
            forall|file: Seq<u8>|
                file.len() == size ==> #[trigger] r.outcome(file) == movie_time(file),
    {
        let mut s = MvhdSearch { outer: Vec::new(), pos: 0, end: size, step: Step::Box };
        if size < 8 {
            s.step = Step::Done { time: None };
        }
        proof {
            assert forall|file: Seq<u8>| file.len() == size implies #[trigger] s.outcome(file)
                == movie_time(file) by {
                assert(s.outer@.len() == 0);
            }
        }
        s
    }

    /// The place and the number of the bytes that are needed next; `None` once
    /// the search has ended.
    pub fn need(&self) -> (r: Option<(u64, u64)>)
        requires
            self.wf(),
        ensures
            r is None <==> self.ended(),
            r is None <==> self.left() == 0,
            self.left() >= 0,
            r matches Some(w) ==> (w.0 as int, w.1 as int) == self.wanted(),
    {
        proof {
            lemma_outer_bytes(self.outer@);
        }
        match self.step {
            Step::Box => Some((self.pos, 8)),
            Step::Large { movie, header } => Some((self.pos + 8, 8)),
            Step::Version { at } => Some((at, 1)),
            Step::Time { at, long } => Some(
                (
                    at + 4,
                    if long {
                        8
                    } else {
                        4
                    },
                ),
            ),
            Step::Done { time } => None,
        }
    }

    /// The time found, once the search has ended.
    pub fn result(&self) -> (r: Option<i64>)
        requires
            self.ended(),
        ensures
            forall|file: Seq<u8>|
                #[trigger] self.outcome(file) == (match r {
                    Some(t) => Some(t as int),
                    None => None,
                }),
    {
        match self.step {
            Step::Done { time } => time,
            _ => None,
        }
    }

    /// Takes the bytes that were needed, `None` where the file ends before
    /// them. For every file that holds these bytes there, the search goes on
    /// to the same end as before, and comes nearer to it: fewer pieces are left
    /// to be asked for.
    pub fn give(&mut self, bytes: Option<Vec<u8>>)
        requires
            old(self).wf(),
            !old(self).ended(),
            bytes matches Some(b) ==> b@.len() == old(self).wanted().1,
        ensures
            final(self).wf(),
            0 <= final(self).left() < old(self).left(),
            forall|file: Seq<u8>|
                piece(file, old(self).wanted().0, old(self).wanted().1) == (match bytes {
                    Some(b) => Some(b@),
                    None => None,
                }) ==> #[trigger] final(self).outcome(file) == old(self).outcome(file),
    {
        let ghost before = *self;
        proof {
            lemma_outer_bytes(self.outer@);
        }
        match bytes {
            None => {
                self.leave();
            },
            Some(b) => match self.step {
                Step::Box => self.at_box(&b),
                Step::Large { movie, header } => {
                    let size: u64 = read_number(&b, 0, 8);
                    self.enter(16, size, movie, header);
                    proof {
                        assert(b@.subrange(0, 8) =~= b@);
                    }
                },
                Step::Version { at } => {
                    self.step = Step::Time { at, long: b[0] == 1 };
                    proof {
                        assert forall|file: Seq<u8>|
                            piece(file, at as int, 1) == Some(b@) implies #[trigger] self.outcome(
                            file,
                        ) == before.outcome(file) by {
                            assert(file[at as int] == file.subrange(at as int, at + 1)[0]);
                        }
                    }
                },
                Step::Time { at, long } => {
                    let raw: u64 = if long {
                        read_number(&b, 0, 8)
                    } else {
                        read_number(&b, 0, 4)
                    };
                    proof {
                        assert(b@.subrange(0, b@.len() as int) =~= b@);
                    }
                    if raw == 0 {
                        self.leave();
                    } else {
                        self.step = Step::Done { time: Some(to_unix(raw)) };
                    }
                },
                Step::Done { time } => {},
            },
        }
        proof {
            lemma_outer_bytes(self.outer@);
        }
    }

    /// The search has found nothing where it is: it goes on behind the box
    /// around it, if there is one.
    fn leave(&mut self)
        requires
            old(self).wf(),
        ensures
            final(self).wf(),
            final(self).left() <= outer_bytes(old(self).outer@) + 4,
            forall|file: Seq<u8>|
                #[trigger] final(self).outcome(file) == outer_search(file, old(self).outer@),
    {
        let ghost before = *self;
        proof {
            lemma_outer_bytes(self.outer@);
        }
        loop
            invariant
                self.wf(),
                before == *old(self),
                0 <= outer_bytes(self.outer@) <= outer_bytes(before.outer@),
                forall|file: Seq<u8>| #[trigger]
                    outer_search(file, self.outer@) == outer_search(file, before.outer@),
            decreases self.outer@.len(),
        {
            let ghost here = self.outer@;
            match self.outer.pop() {
                None => {
                    self.step = Step::Done { time: None };
                    proof {
                        assert forall|file: Seq<u8>| #[trigger] self.outcome(file) == outer_search(
                            file,
                            before.outer@,
                        ) by {
                            assert(outer_search(file, here) is None);
                        }
                    }
                    return;
                },
                Some((pos, end)) => {
                    proof {
                        assert(self.outer@ =~= here.drop_last());
                        assert(here[here.len() - 1] == (pos, end));
                        lemma_outer_bytes(self.outer@);
                    }
                    self.pos = pos;
                    self.end = end;
                    self.step = Step::Done { time: None };
                    if end - pos >= 8 {
                        self.step = Step::Box;
                        proof {
                            assert forall|file: Seq<u8>| #[trigger] self.outcome(file)
                                == outer_search(file, before.outer@) by {
                                assert(outer_search(file, here) == outer_search(
                                    file,
                                    before.outer@,
                                ));
                            }
                        }
                        return;
                    }
                    proof {
                        assert forall|file: Seq<u8>| #[trigger] outer_search(file, self.outer@)
                            == outer_search(file, before.outer@) by {
                            assert(outer_search(file, here) == outer_search(file, before.outer@));
                            assert(search(file, pos as int, end as int, here.len() - 1) is None);
                        }
                    }
                },
            }
        }
    }

    /// The search is at a box whose size is known.
    fn enter(&mut self, head: u64, size: u64, movie: bool, header: bool)
        requires
            old(self).wf(),
            head == 8 || head == 16,
            !(movie && header),
        ensures
            final(self).wf(),
            old(self).end - old(self).pos >= 8 ==> final(self).left() <= outer_bytes(
                old(self).outer@,
            ) + (old(self).end - old(self).pos) + 2,
            forall|file: Seq<u8>|
                #[trigger] final(self).outcome(file) == first_time(
                    Self::box_outcome(
                        file,
                        old(self).pos as int,
                        old(self).end as int,
                        old(self).outer@.len() as int,
                        head as int,
                        size as int,
                        movie,
                        header,
                    ),
                    outer_search(file, old(self).outer@),
                ),
    {
        let ghost before = *self;
        let pos: u64 = self.pos;
        let end: u64 = self.end;
        if size < head || size > end - pos {
            self.leave();
        } else if header {
            self.step = Step::Version { at: pos + head };
        } else if movie {
            if self.outer.len() >= 6 {
                // A level too deep to be searched: go on behind the box.
                self.go(pos + size, end);
            } else {
                self.outer.push((pos + size, end));
                proof {
                    assert(self.outer@.drop_last() =~= before.outer@);
                }
                self.go(pos + head, pos + size);
            }
        } else {
            self.go(pos + size, end);
        }
    }

    /// The search goes on with the boxes from `pos` to `end`.
    fn go(&mut self, pos: u64, end: u64)
        requires
            old(self).outer@.len() <= 6,
            forall|i: int|
                0 <= i < old(self).outer@.len() ==> (#[trigger] old(self).outer@[i]).0 <= old(
                    self,
                ).outer@[i].1 <= i64::MAX,
            pos <= end <= i64::MAX,
        ensures
            final(self).wf(),
            final(self).left() <= outer_bytes(old(self).outer@) + (end - pos) + 4,
            forall|file: Seq<u8>|
                #[trigger] final(self).outcome(file) == first_time(
                    search(file, pos as int, end as int, old(self).outer@.len() as int),
                    outer_search(file, old(self).outer@),
                ),
    {
        let ghost before = *self;
        self.pos = pos;
        self.end = end;
        if end - pos >= 8 {
            self.step = Step::Box;
        } else {
            self.step = Step::Done { time: None };
            self.leave();
        }
    }

    /// The search is at a box and takes its header. Where the size stands behind
    /// the header, it stays at the box and asks for it next. Either way it comes
    /// nearer to its end.
    fn at_box(&mut self, b: &Vec<u8>)
        requires
            old(self).wf(),
            old(self).step is Box,
            b@.len() == 8,
        ensures
            final(self).wf(),
            big_endian(b@.subrange(0, 4)) == 1 ==> {
                &&& final(self).step == (Step::Large {
                    movie: b@.subrange(4, 8) == moov(),
                    header: b@.subrange(4, 8) == mvhd(),
                })
                &&& final(self).pos == old(self).pos
                &&& final(self).end == old(self).end
                &&& final(self).outer == old(self).outer
            },
            final(self).left() < old(self).left(),
            forall|file: Seq<u8>|
                piece(file, old(self).pos as int, 8) == Some(b@)
                    ==> #[trigger] final(self).outcome(file) == old(self).outcome(file),
    {
        let ghost before = *self;
        let short: u64 = read_number(b, 0, 4);
        let (movie, header): (bool, bool) = box_kind(b);
        proof {
            assert(moov()[1] != mvhd()[1]);
            assert forall|file: Seq<u8>| piece(file, before.pos as int, 8) == Some(b@) implies {
                &&& file.subrange(before.pos as int, before.pos + 4) == b@.subrange(0, 4)
                &&& movie == #[trigger] is_box(file, before.pos as int, moov())
                &&& header == is_box(file, before.pos as int, mvhd())
                &&& before.pos + 8 <= file.len()
            } by {
                let p = before.pos as int;
                assert(file.subrange(p, p + 4) =~= file.subrange(p, p + 8).subrange(0, 4));
                assert(file.subrange(p + 4, p + 8) =~= b@.subrange(4, 8));
            }
        }
        if short == 1 {
            self.step = Step::Large { movie, header };
            proof {
                assert forall|file: Seq<u8>|
                    piece(file, before.pos as int, 8) == Some(b@) implies #[trigger] self.outcome(
                    file,
                ) == before.outcome(file) by {
                    assert(is_box(file, before.pos as int, moov()) == movie);
                }
            }
        } else {
            let size: u64 = if short == 0 {
                self.end - self.pos
            } else {
                short
            };
            self.enter(8, size, movie, header);
            proof {
                assert forall|file: Seq<u8>|
                    piece(file, before.pos as int, 8) == Some(b@) implies #[trigger] self.outcome(
                    file,
                ) == before.outcome(file) by {
                    assert(is_box(file, before.pos as int, moov()) == movie);
                }
            }
        }
    }
}

/// Whether a box header is that of a `moov` box, and whether of an `mvhd` box.
fn box_kind(b: &Vec<u8>) -> (r: (bool, bool))
    requires
        b@.len() == 8,
    ensures
        r.0 == (b@.subrange(4, 8) == moov()),
        r.1 == (b@.subrange(4, 8) == mvhd()),
{
    let movie: bool = b[4] == 0x6d && b[5] == 0x6f && b[6] == 0x6f && b[7] == 0x76;
    let header: bool = b[4] == 0x6d && b[5] == 0x76 && b[6] == 0x68 && b[7] == 0x64;
    proof {
        let t = b@.subrange(4, 8);
        assert(t[0] == b@[4] && t[1] == b@[5] && t[2] == b@[6] && t[3] == b@[7]);
        assert(movie ==> t =~= moov());
        assert(header ==> t =~= mvhd());
    }
    (movie, header)
}

/// The number that some of the bytes stand for.
fn read_number(b: &Vec<u8>, from: usize, to: usize) -> (r: u64)
    requires
        from <= to <= b@.len(),
        to - from <= 8,
    ensures
        r == big_endian(b@.subrange(from as int, to as int)),
{
    let mut r: u64 = 0;
    let mut i: usize = from;
    proof {
        assert(b@.subrange(from as int, from as int) =~= Seq::<u8>::empty());
    }
    while i < to
        invariant
            from <= i <= to <= b@.len(),
            to - from <= 8,
            r == big_endian(b@.subrange(from as int, i as int)),
        decreases to - i,
    {
        proof {
            let s = b@.subrange(from as int, i + 1);
            assert(s.drop_last() =~= b@.subrange(from as int, i as int));
            lemma_big_endian_bound(b@.subrange(from as int, i as int));
            lemma_big_endian_room(b@.subrange(from as int, i as int));
        }
        r = r * 256 + b[i] as u64;
        i = i + 1;
    }
    r
}

proof fn lemma_big_endian_bound(b: Seq<u8>)
    ensures
        0 <= big_endian(b) < vstd::arithmetic::power::pow(256, b.len()),
    decreases b.len(),
{
    vstd::arithmetic::power::lemma_pow0(256);
    if b.len() > 0 {
        lemma_big_endian_bound(b.drop_last());
        assert(vstd::arithmetic::power::pow(256, b.len()) == 256 * vstd::arithmetic::power::pow(
            256,
            (b.len() - 1) as nat,
        )) by {
            reveal(vstd::arithmetic::power::pow);
        }
    }
}

proof fn lemma_big_endian_room(b: Seq<u8>)
    requires
        b.len() <= 7,
    ensures
        0 <= big_endian(b) < 0x100_0000_0000_0000,
    decreases b.len(),
{
    lemma_big_endian_bound(b);
    vstd::arithmetic::power::lemma_pow_increases(256, b.len(), 7);
    assert(vstd::arithmetic::power::pow(256, 7) == 0x100_0000_0000_0000) by {
        reveal(vstd::arithmetic::power::pow);
        reveal_with_fuel(vstd::arithmetic::power::pow, 8);
    }
}

/// The Unix time of a movie time.
fn to_unix(raw: u64) -> (r: i64)
    ensures
        r == unix_of(raw as int),
{
    let n: i128 = if raw < 0x8000_0000_0000_0000 {
        raw as i128
    } else {
        raw as i128 - 0x1_0000_0000_0000_0000
    };
    let t: i128 = n - MAC_TO_UNIX_EPOCH as i128;
    if t < i64::MIN as i128 {
        (t + 0x1_0000_0000_0000_0000) as i64
    } else {
        t as i64
    }
}

// ---------------------------------------------------------------------------
// Extraction
// ---------------------------------------------------------------------------

/// The wall clock at a movie's creation: at a fixed offset where one is given,
/// else that of this machine. `None` where the time cannot be represented.
pub fn video_capture(unix: i64, tz_offset: Option<i32>) -> (r: Option<Moment>)
    requires
        tz_offset matches Some(off) ==> -86400 < off < 86400,
    ensures
        r matches Some(m) ==> m.valid() && m.nano == 0,
        tz_offset matches Some(off) ==> {
            &&& r is Some <==> clock::MIN_UNIX <= unix <= clock::MAX_UNIX && clock::MIN_UNIX <= unix
                + off <= clock::MAX_UNIX
            &&& r matches Some(m) ==> m.unix() == unix + off
        },
        tz_offset is None ==> {
            &&& clock::representable_anywhere(unix as int) ==> r is Some
            &&& r is Some ==> clock::representable(unix as int)
            &&& r matches Some(m) ==> -clock::DAY_SECONDS < m.unix() - unix < clock::DAY_SECONDS
        },
{
    match tz_offset {
        Some(off) => clock::moment_at_offset(unix, off),
        None => clock::local_moment(unix, 0),
    }
}

/// Assemble the capture metadata of a file from what was read of it: an
/// image's attributes, a movie's creation time. `tz_offset` only affects
/// UTC-sourced video times; EXIF datetimes are already local wall-clock and
/// used as-is.
pub fn extract(
    kind: FileKind,
    image: Option<ImageMeta>,
    movie: Option<i64>,
    tz_offset: Option<i32>,
) -> (r: CaptureInfo)
    requires
        tz_offset matches Some(off) ==> -86400 < off < 86400,
    ensures
        r.datetime matches Some(m) ==> m.valid(),
        kind == FileKind::Raw || kind == FileKind::Jpeg ==> r@ == (match image {
            Some(meta) => image_info(meta@),
            None => types::no_info(),
        }),
        kind == FileKind::Sidecar ==> r@ == types::no_info(),
        kind == FileKind::Video ==> {
            &&& r.make is None
            &&& r.model is None
            &&& movie is None ==> r.datetime is None
            &&& movie matches Some(unix) ==> tz_offset matches Some(off) ==> {
                &&& r.datetime is Some <==> clock::MIN_UNIX <= unix <= clock::MAX_UNIX
                    && clock::MIN_UNIX <= unix + off <= clock::MAX_UNIX
                &&& r.datetime matches Some(m) ==> m.unix() == unix + off && m.nano == 0
            }
            &&& movie matches Some(unix) ==> tz_offset is None ==> {
                &&& clock::representable_anywhere(unix as int) ==> r.datetime is Some
                &&& r.datetime is Some ==> clock::representable(unix as int)
                &&& r.datetime matches Some(m) ==> -clock::DAY_SECONDS < m.unix() - unix
                    < clock::DAY_SECONDS && m.nano == 0
            }
        },
{
    match kind {
        FileKind::Raw | FileKind::Jpeg => match image {
            Some(meta) => exif_capture(&meta),
            None => CaptureInfo { datetime: None, make: None, model: None },
        },
        FileKind::Video => CaptureInfo {
            datetime: match movie {
                Some(unix) => video_capture(unix, tz_offset),
                None => None,
            },
            make: None,
            model: None,
        },
        FileKind::Sidecar => CaptureInfo { datetime: None, make: None, model: None },
    }
}

} // verus!
