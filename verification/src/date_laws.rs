//! What is read from images and movies, said in terms of what they hold.

use vstd::arithmetic::power;
use vstd::prelude::*;

use crate::clock;
use crate::clock::Moment;
use crate::datesrc;
use crate::datesrc::ImageTag;
use crate::text;
use crate::text::Class;
use crate::text_laws;

verus! {

// ---------------------------------------------------------------------------
// Images
// ---------------------------------------------------------------------------

/// Whether a tag holds a date text that stands for a moment: a text without
/// blanks or NULs at its ends that does not begin with four zeros and reads as
/// `2026:06:20 09:05:03` does.
pub open spec fn tag_reads(t: Map<ImageTag, Seq<u8>>, tag: ImageTag, m: Moment) -> bool {
    &&& t.contains_key(tag)
    &&& ({
        let s = datesrc::lossy(t[tag]);
        &&& s.len() > 4
        &&& !text::is_white(s[0]) && !text::is_white(s.last()) && s.last() != '\0'
        &&& s.take(4) != seq!['0', '0', '0', '0']
        &&& clock::parsed_datetime(s, "%Y:%m:%d %H:%M:%S"@) == Some(
            (
                m.year as int,
                m.month as int,
                m.day as int,
                m.hour as int,
                m.minute as int,
                m.second as int,
                m.nano as int,
            ),
        )
    })
}

/// Whether a tag holds no date: it is missing, or its text is blank, or begins
/// with four zeros, or cannot be read.
pub open spec fn tag_unset(t: Map<ImageTag, Seq<u8>>, tag: ImageTag) -> bool {
    t.contains_key(tag) ==> {
        let s = datesrc::lossy(t[tag]);
        ||| s.len() == 0
        ||| forall|i: int| 0 <= i < s.len() ==> text::is_white(#[trigger] s[i])
        ||| {
            &&& !text::is_white(s[0]) && !text::is_white(s.last()) && s.last() != '\0'
            &&& (s.len() >= 4 && s.take(4) == seq!['0', '0', '0', '0'])
                || clock::parsed_datetime(s, "%Y:%m:%d %H:%M:%S"@) is None
        }
    }
}

proof fn lemma_tag_reads(t: Map<ImageTag, Seq<u8>>, tag: ImageTag, m: Moment)
    requires
        tag_reads(t, tag, m),
    ensures
        datesrc::tag_moment(t, tag) == Some(m),
{
    let s = datesrc::lossy(t[tag]);
    text_laws::law_trimmed_fixed(s, Class::White);
    assert(text::trim_right(s, Class::Nul) == s);
    reveal_strlit("0000");
    assert("0000"@ =~= seq!['0', '0', '0', '0']);
}

proof fn lemma_tag_unset(t: Map<ImageTag, Seq<u8>>, tag: ImageTag)
    requires
        tag_unset(t, tag),
    ensures
        datesrc::tag_moment(t, tag) is None,
{
    reveal_strlit("0000");
    assert("0000"@ =~= seq!['0', '0', '0', '0']);
    if t.contains_key(tag) {
        let s = datesrc::lossy(t[tag]);
        if s.len() == 0 || forall|i: int| 0 <= i < s.len() ==> text::is_white(#[trigger] s[i]) {
            text::lemma_trimmed(s, Class::White);
            let u = text::trimmed(s, Class::White);
            if u.len() > 0 {
                assert(s.contains(u[0]));
            }
            assert(u.len() == 0);
            assert(text::trim_right(u, Class::Nul).len() == 0);
            assert(text::trimmed(text::trim_right(u, Class::Nul), Class::White).len() == 0);
        } else {
            text_laws::law_trimmed_fixed(s, Class::White);
            assert(text::trim_right(s, Class::Nul) == s);
        }
    }
}

/// The capture time of an image is `DateTimeOriginal` wherever that can be read,
/// whatever the other tags hold; `DateTimeDigitized` only where the original
/// time is not set; `DateTime`, which every edit changes, only where neither
/// is. Where none of them is set there is none.
pub proof fn law_capture_tag(t: Map<ImageTag, Seq<u8>>, m: Moment)
    ensures
        tag_reads(t, ImageTag::DateTimeOriginal, m) ==> datesrc::capture_time(t) == Some(m),
        tag_unset(t, ImageTag::DateTimeOriginal) && tag_reads(t, ImageTag::DateTimeDigitized, m)
            ==> datesrc::capture_time(t) == Some(m),
        tag_unset(t, ImageTag::DateTimeOriginal) && tag_unset(t, ImageTag::DateTimeDigitized)
            && tag_reads(t, ImageTag::DateTime, m) ==> datesrc::capture_time(t) == Some(m),
        tag_unset(t, ImageTag::DateTimeOriginal) && tag_unset(t, ImageTag::DateTimeDigitized)
            && tag_unset(t, ImageTag::DateTime) ==> datesrc::capture_time(t) is None,
{
    if tag_reads(t, ImageTag::DateTimeOriginal, m) {
        lemma_tag_reads(t, ImageTag::DateTimeOriginal, m);
    }
    if tag_unset(t, ImageTag::DateTimeOriginal) {
        lemma_tag_unset(t, ImageTag::DateTimeOriginal);
        if tag_reads(t, ImageTag::DateTimeDigitized, m) {
            lemma_tag_reads(t, ImageTag::DateTimeDigitized, m);
        }
        if tag_unset(t, ImageTag::DateTimeDigitized) {
            lemma_tag_unset(t, ImageTag::DateTimeDigitized);
            if tag_reads(t, ImageTag::DateTime, m) {
                lemma_tag_reads(t, ImageTag::DateTime, m);
            }
            if tag_unset(t, ImageTag::DateTime) {
                lemma_tag_unset(t, ImageTag::DateTime);
            }
        }
    }
}

/// The time of the last change does not matter where an earlier tag can be read:
/// an edit does not move a photo.
pub proof fn law_edit_keeps_capture_time(
    t: Map<ImageTag, Seq<u8>>,
    m: Moment,
    changed: Seq<u8>,
    digitized: Seq<u8>,
)
    requires
        tag_reads(t, ImageTag::DateTimeOriginal, m),
    ensures
        datesrc::image_info(t.insert(ImageTag::DateTime, changed)).datetime == Some(m),
        datesrc::image_info(t.insert(ImageTag::DateTimeDigitized, digitized)).datetime == Some(m),
{
    law_capture_tag(t.insert(ImageTag::DateTime, changed), m);
    law_capture_tag(t.insert(ImageTag::DateTimeDigitized, digitized), m);
}

/// Make and model are the texts of their own tags, without blanks and NULs.
pub proof fn law_camera_names(t: Map<ImageTag, Seq<u8>>, s: Seq<char>, nuls: nat)
    requires
        s.len() > 0,
        !text::is_white(s[0]) && !text::is_white(s.last()) && s.last() != '\0',
    ensures
        ({
            let padded = s + Seq::new(nuls, |i: int| '\0');
            &&& t.contains_key(ImageTag::Make) && datesrc::lossy(t[ImageTag::Make]) == padded
                ==> datesrc::image_info(t).make == Some(s)
            &&& t.contains_key(ImageTag::Model) && datesrc::lossy(t[ImageTag::Model]) == padded
                ==> datesrc::image_info(t).model == Some(s)
            &&& !t.contains_key(ImageTag::Make) ==> datesrc::image_info(t).make is None
            &&& !t.contains_key(ImageTag::Model) ==> datesrc::image_info(t).model is None
        }),
{
    let padded = s + Seq::new(nuls, |i: int| '\0');
    lemma_nuls(s, nuls);
    assert(padded[0] == s[0]);
    assert(!text::is_white('\0'));
    if nuls == 0 {
        assert(padded.last() == s.last());
    } else {
        assert(padded.last() == '\0');
    }
    text_laws::law_trimmed_fixed(padded, Class::White);
    text_laws::law_trimmed_fixed(s, Class::White);
}

proof fn lemma_nuls(s: Seq<char>, nuls: nat)
    requires
        s.len() > 0,
        s.last() != '\0',
    ensures
        text::trim_right(s + Seq::new(nuls, |i: int| '\0'), Class::Nul) == s,
    decreases nuls,
{
    let padded = s + Seq::new(nuls, |i: int| '\0');
    if nuls == 0 {
        assert(padded =~= s);
    } else {
        lemma_nuls(s, (nuls - 1) as nat);
        assert(padded.drop_last() =~= s + Seq::new((nuls - 1) as nat, |i: int| '\0'));
        assert(padded.last() == '\0');
    }
}

/// Whether every character is a digit.
spec fn digits(s: Seq<char>) -> bool {
    forall|i: int| 0 <= i < s.len() ==> '0' <= #[trigger] s[i] && s[i] <= '9'
}

/// A fraction of a second counts from its first digit: three digits are
/// milliseconds, a missing digit counts as zero, and what follows the third
/// digit does not matter.
pub proof fn law_subsec(a: char, b: char, c: char, rest: Seq<char>)
    requires
        '0' <= a && a <= '9',
        '0' <= b && b <= '9',
        '0' <= c && c <= '9',
    ensures
        ({
            let x = a as int - 48;
            let y = b as int - 48;
            let z = c as int - 48;
            &&& datesrc::subsec_ms(seq![a]) == 100 * x
            &&& datesrc::subsec_ms(seq![a, b]) == 100 * x + 10 * y
            &&& datesrc::subsec_ms(seq![a, b, c]) == 100 * x + 10 * y + z
            &&& rest.len() > 0 && !text::is_white(rest.last()) ==> datesrc::subsec_ms(
                seq![a, b, c] + rest,
            ) == 100 * x + 10 * y + z
        }),
{
    reveal_with_fuel(datesrc::leading_digits, 4);
    reveal_with_fuel(text::digits_value, 4);
    let s1 = seq![a];
    let s2 = seq![a, b];
    let s3 = seq![a, b, c];
    text_laws::law_trimmed_fixed(s1, Class::White);
    text_laws::law_trimmed_fixed(s2, Class::White);
    text_laws::law_trimmed_fixed(s3, Class::White);
    lemma_lead(s1, 1);
    lemma_lead(s2, 2);
    lemma_lead(s3, 3);
    assert(s2.drop_last() =~= s1);
    assert(s3.drop_last() =~= s2);
    assert(s1.drop_last() =~= Seq::<char>::empty());
    assert(s1.take(1) =~= s1 && s2.take(2) =~= s2 && s3.take(3) =~= s3);
    if rest.len() > 0 && !text::is_white(rest.last()) {
        let s = s3 + rest;
        assert(s.last() == rest.last() && s[0] == a);
        text_laws::law_trimmed_fixed(s, Class::White);
        lemma_lead(s, 3);
        assert(s.take(3) =~= s3);
    }
}

proof fn lemma_lead(s: Seq<char>, n: int)
    requires
        0 <= n <= 3,
        n <= s.len(),
        digits(s.take(n)),
        n == 3 || n == s.len(),
    ensures
        datesrc::leading_digits(s, 3) == s.take(n),
{
    lemma_lead_from(s, n, 3);
}

proof fn lemma_lead_from(s: Seq<char>, n: int, max: int)
    requires
        0 <= n <= max,
        n <= s.len(),
        digits(s.take(n)),
        n == max || n == s.len(),
    ensures
        datesrc::leading_digits(s, max) == s.take(n),
    decreases n,
{
    if n > 0 {
        assert(s.take(n)[0] == s[0]);
        let t = s.skip(1);
        assert forall|i: int| 0 <= i < n - 1 implies '0' <= #[trigger] t.take(n - 1)[i] && t.take(
            n - 1,
        )[i] <= '9' by {
            assert(t.take(n - 1)[i] == s.take(n)[i + 1]);
        }
        lemma_lead_from(t, n - 1, max - 1);
        assert(seq![s[0]] + t.take(n - 1) =~= s.take(n));
    } else {
        assert(s.take(0) =~= Seq::<char>::empty());
    }
}

/// A fraction that does not begin with a digit counts as none.
pub proof fn law_subsec_garbage(s: Seq<char>)
    requires
        s.len() == 0 || (!text::is_white(s[0]) && !('0' <= s[0] && s[0] <= '9')),
    ensures
        datesrc::subsec_ms(s) == 0,
{
    if s.len() == 0 {
        assert(text::trimmed(s, Class::White).len() == 0);
    } else {
        assert(text::trim_left(s, Class::White) == s);
        lemma_right_first(s);
    }
}

proof fn lemma_right_first(s: Seq<char>)
    requires
        s.len() > 0,
        !text::is_white(s[0]),
    ensures
        text::trim_right(s, Class::White).len() > 0,
        text::trim_right(s, Class::White)[0] == s[0],
    decreases s.len(),
{
    if text::is_white(s.last()) {
        lemma_right_first(s.drop_last());
    }
}

/// The key of a shot is its capture time with the milliseconds that
/// `SubSecTimeOriginal` holds, none where it holds none.
pub proof fn law_capture_key(t: Map<ImageTag, Seq<u8>>, m: Moment, s: Seq<char>)
    requires
        tag_reads(t, ImageTag::DateTimeOriginal, m),
        s.len() > 0 ==> !text::is_white(s[0]) && !text::is_white(s.last()) && s.last() != '\0',
    ensures
        datesrc::capture_key(t) is Some,
        datesrc::capture_key(t)->0.dt == m,
        !t.contains_key(ImageTag::SubSecTimeOriginal) ==> datesrc::capture_key(t)->0.subsec_ms == 0,
        t.contains_key(ImageTag::SubSecTimeOriginal) && datesrc::lossy(
            t[ImageTag::SubSecTimeOriginal],
        ) == s && 0 <= datesrc::subsec_ms(s) <= 999 ==> datesrc::capture_key(t)->0.subsec_ms
            == datesrc::subsec_ms(s),
{
    law_capture_tag(t, m);
    if s.len() > 0 {
        text_laws::law_trimmed_fixed(s, Class::White);
        assert(text::trim_right(s, Class::Nul) == s);
    } else {
        assert(text::trimmed(s, Class::White).len() == 0);
        assert(s =~= Seq::<char>::empty());
    }
}

// ---------------------------------------------------------------------------
// Movies
// ---------------------------------------------------------------------------

/// A number in `w` bytes, the most significant first.
pub open spec fn in_bytes(n: int, w: nat) -> Seq<u8>
    decreases w,
{
    if w == 0 {
        Seq::empty()
    } else {
        in_bytes(n / 256, (w - 1) as nat).push((n % 256) as u8)
    }
}

/// Bytes read as the number that they were written from.
pub proof fn law_big_endian(n: int, w: nat)
    requires
        0 <= n < power::pow(256, w),
    ensures
        in_bytes(n, w).len() == w,
        datesrc::big_endian(in_bytes(n, w)) == n,
    decreases w,
{
    power::lemma_pow0(256);
    if w > 0 {
        let p = power::pow(256, (w - 1) as nat);
        assert(power::pow(256, w) == 256 * p) by {
            reveal(power::pow);
        }
        law_big_endian(n / 256, (w - 1) as nat);
        assert(in_bytes(n, w).drop_last() =~= in_bytes(n / 256, (w - 1) as nat));
    }
}

proof fn lemma_powers()
    ensures
        power::pow(256, 4) == 0x1_0000_0000,
        power::pow(256, 8) == 0x1_0000_0000_0000_0000,
{
    reveal_with_fuel(power::pow, 9);
}

/// A box of a movie: a kind of four bytes, a body, and whether its size is
/// written in 64 bits.
pub struct MovieBox {
    pub kind: Seq<u8>,
    pub body: Seq<u8>,
    pub long: bool,
}

impl MovieBox {
    /// A box that can be written.
    pub open spec fn sound(self) -> bool {
        &&& self.kind.len() == 4
        &&& self.long ==> self.body.len() + 16 < 0x1_0000_0000_0000_0000
        &&& !self.long ==> self.body.len() + 8 < 0x1_0000_0000
    }

    /// The bytes of a box: its size, its kind, its 64-bit size where it has
    /// one, and its body.
    pub open spec fn bytes(self) -> Seq<u8> {
        if self.long {
            in_bytes(1, 4) + self.kind + in_bytes(self.body.len() as int + 16, 8) + self.body
        } else {
            in_bytes(self.body.len() as int + 8, 4) + self.kind + self.body
        }
    }

    /// Whether the box is a `moov` box.
    pub open spec fn is_movie(self) -> bool {
        self.kind == seq![109u8, 111u8, 111u8, 118u8]
    }

    /// Whether the box is an `mvhd` box.
    pub open spec fn is_header(self) -> bool {
        self.kind == seq![109u8, 118u8, 104u8, 100u8]
    }
}

/// The bytes of boxes one behind the other.
pub open spec fn laid_out(boxes: Seq<MovieBox>) -> Seq<u8>
    decreases boxes.len(),
{
    if boxes.len() == 0 {
        Seq::empty()
    } else {
        boxes[0].bytes() + laid_out(boxes.skip(1))
    }
}

/// The body of a movie header: version, three bytes of flags, the creation time
/// in eight bytes (version 1) or four (every other version), and the rest.
pub open spec fn header_body(version: u8, flags: Seq<u8>, time: int, rest: Seq<u8>) -> Seq<u8> {
    seq![version] + flags + in_bytes(
        time,
        if version == 1 {
            8
        } else {
            4
        },
    ) + rest
}

/// What the search sees of a box that stands at `pos` in a file.
proof fn lemma_box_seen(file: Seq<u8>, b: MovieBox, pos: int, end: int)
    requires
        b.sound(),
        0 <= pos,
        pos + b.bytes().len() <= end,
        pos + b.bytes().len() <= file.len(),
        file.subrange(pos, pos + b.bytes().len()) == b.bytes(),
    ensures
        ({
            let head: int = if b.long { 16 } else { 8 };
            &&& datesrc::box_extent(file, pos, end) == Some((head, b.bytes().len() as int))
            &&& b.bytes().len() == head + b.body.len()
            &&& datesrc::is_box(file, pos, datesrc::moov()) == b.is_movie()
            &&& datesrc::is_box(file, pos, datesrc::mvhd()) == b.is_header()
            &&& file.subrange(pos + head, pos + head + b.body.len()) == b.body
        }),
{
    lemma_powers();
    let x = b.bytes();
    let n = b.body.len() as int;
    let head: int = if b.long { 16 } else { 8 };
    let first: int = if b.long { 1 } else { n + 8 };
    law_big_endian(first, 4);
    if b.long {
        law_big_endian(n + 16, 8);
    }
    assert(x.len() == head + n);
    assert forall|i: int| 0 <= i < x.len() implies #[trigger] file[pos + i] == x[i] by {
        assert(file.subrange(pos, pos + x.len())[i] == x[i]);
    }
    assert(file.subrange(pos, pos + 4) =~= in_bytes(first, 4)) by {
        assert forall|i: int| 0 <= i < 4 implies file.subrange(pos, pos + 4)[i] == #[trigger] in_bytes(
            first,
            4,
        )[i] by {
            assert(file[pos + i] == x[i]);
        }
    }
    assert(file.subrange(pos + 4, pos + 8) =~= b.kind) by {
        assert forall|i: int| 0 <= i < 4 implies file.subrange(pos + 4, pos + 8)[i]
            == #[trigger] b.kind[i] by {
            assert(file[pos + (4 + i)] == x[4 + i]);
        }
    }
    if b.long {
        assert(file.subrange(pos + 8, pos + 16) =~= in_bytes(n + 16, 8)) by {
            assert forall|i: int| 0 <= i < 8 implies file.subrange(pos + 8, pos + 16)[i]
                == #[trigger] in_bytes(n + 16, 8)[i] by {
                assert(file[pos + (8 + i)] == x[8 + i]);
            }
        }
    }
    assert(file.subrange(pos + head, pos + head + n) =~= b.body) by {
        assert forall|i: int| 0 <= i < n implies file.subrange(pos + head, pos + head + n)[i]
            == #[trigger] b.body[i] by {
            assert(file[pos + (head + i)] == x[head + i]);
        }
    }
}

/// What the search gives does not depend on where in a file the boxes stand.
proof fn lemma_shift(pre: Seq<u8>, file: Seq<u8>, pos: int, end: int, depth: int)
    requires
        0 <= pos,
        end <= file.len(),
    ensures
        datesrc::search(pre + file, pos + pre.len(), end + pre.len(), depth) == datesrc::search(
            file,
            pos,
            end,
            depth,
        ),
    decreases 7 - depth, end - pos,
{
    let n = pre.len() as int;
    let all = pre + file;
    if depth <= 6 {
        if pos + 8 <= end {
            assert(all.subrange(pos + n, pos + n + 4) =~= file.subrange(pos, pos + 4));
            assert(all.subrange(pos + n + 4, pos + n + 8) =~= file.subrange(pos + 4, pos + 8));
            if pos + 16 <= file.len() {
                assert(all.subrange(pos + n + 8, pos + n + 16) =~= file.subrange(pos + 8, pos + 16));
            }
        }
        assert(datesrc::box_extent(all, pos + n, end + n) == datesrc::box_extent(file, pos, end));
        match datesrc::box_extent(file, pos, end) {
            None => {},
            Some((head, size)) => {
                if datesrc::is_box(file, pos, datesrc::mvhd()) {
                    lemma_shift_header(pre, file, pos + head);
                } else {
                    lemma_shift(pre, file, pos + size, end, depth);
                    lemma_shift(pre, file, pos + head, pos + size, depth + 1);
                }
            },
        }
    }
}

proof fn lemma_shift_header(pre: Seq<u8>, file: Seq<u8>, at: int)
    requires
        0 <= at,
    ensures
        datesrc::header_time(pre + file, at + pre.len()) == datesrc::header_time(file, at),
{
    let all = pre + file;
    let n = pre.len() as int;
    if at < file.len() {
        assert(all[at + n] == file[at]);
        if at + 8 <= file.len() {
            assert(all.subrange(at + n + 4, at + n + 8) =~= file.subrange(at + 4, at + 8));
        }
        if at + 12 <= file.len() {
            assert(all.subrange(at + n + 4, at + n + 12) =~= file.subrange(at + 4, at + 12));
        }
    }
}

/// A box in front of a movie, of any size and of any kind but `moov` and
/// `mvhd`, does not change the time that is found: media data and file types
/// are stepped over.
pub proof fn law_boxes_are_stepped_over(b: MovieBox, file: Seq<u8>)
    requires
        b.sound(),
        !b.is_movie(),
        !b.is_header(),
    ensures
        datesrc::movie_time(b.bytes() + file) == datesrc::movie_time(file),
{
    let all = b.bytes() + file;
    let n = b.bytes().len() as int;
    assert(all.subrange(0, n) =~= b.bytes());
    lemma_box_seen(all, b, 0, all.len() as int);
    lemma_shift(b.bytes(), file, 0, file.len() as int, 0);
}

/// What the search gives for boxes laid out from `pos` to `end`, of which the
/// first `k` are neither `moov` nor `mvhd`: what it gives from the next one on.
proof fn lemma_skip_boxes(
    file: Seq<u8>,
    boxes: Seq<MovieBox>,
    k: int,
    pos: int,
    end: int,
    depth: int,
) -> (next: int)
    requires
        0 <= k <= boxes.len(),
        0 <= depth <= 6,
        0 <= pos,
        end == pos + laid_out(boxes).len(),
        end <= file.len(),
        file.subrange(pos, end) == laid_out(boxes),
        forall|i: int| 0 <= i < boxes.len() ==> (#[trigger] boxes[i]).sound(),
        forall|i: int|
            0 <= i < k ==> !(#[trigger] boxes[i]).is_movie() && !boxes[i].is_header(),
    ensures
        datesrc::search(file, pos, end, depth) == datesrc::search(file, next, end, depth),
        pos <= next,
        end == next + laid_out(boxes.skip(k)).len(),
        file.subrange(next, end) == laid_out(boxes.skip(k)),
    decreases k,
{
    if k == 0 {
        assert(boxes.skip(0) =~= boxes);
        pos
    } else {
        let b = boxes[0];
        let rest = boxes.skip(1);
        let n = b.bytes().len() as int;
        let all = file.subrange(pos, end);
        assert(b.sound());
        assert(all == b.bytes() + laid_out(rest));
        assert(file.subrange(pos, pos + n) =~= all.subrange(0, n));
        assert(all.subrange(0, n) =~= b.bytes());
        lemma_box_seen(file, b, pos, end);
        assert(file.subrange(pos + n, end) =~= all.skip(n));
        assert(all.skip(n) =~= laid_out(rest));
        assert forall|i: int| 0 <= i < rest.len() implies (#[trigger] rest[i]).sound() by {
            assert(boxes[i + 1].sound());
        }
        assert forall|i: int| 0 <= i < k - 1 implies !(#[trigger] rest[i]).is_movie()
            && !rest[i].is_header() by {
            assert(!boxes[i + 1].is_movie() && !boxes[i + 1].is_header());
        }
        assert(datesrc::search(file, pos, end, depth) == datesrc::search(
            file,
            pos + n,
            end,
            depth,
        ));
        let next = lemma_skip_boxes(file, rest, k - 1, pos + n, end, depth);
        assert(rest.skip(k - 1) =~= boxes.skip(k));
        next
    }
}

/// The recording time of a movie: in a file of whole boxes of any sizes, of
/// which the first `moov` box holds boxes of any sizes with an `mvhd` box as
/// the first of its kind, the time found is the creation time written there,
/// counted from 1970 where the movie counts from 1904.
pub proof fn law_movie_time(
    boxes: Seq<MovieBox>,
    k: int,
    inner: Seq<MovieBox>,
    j: int,
    version: u8,
    flags: Seq<u8>,
    time: int,
    rest: Seq<u8>,
)
    requires
        0 <= k < boxes.len(),
        forall|i: int| 0 <= i < boxes.len() ==> (#[trigger] boxes[i]).sound(),
        forall|i: int|
            0 <= i < k ==> !(#[trigger] boxes[i]).is_movie() && !boxes[i].is_header(),
        boxes[k].is_movie(),
        boxes[k].body == laid_out(inner),
        0 <= j < inner.len(),
        forall|i: int| 0 <= i < inner.len() ==> (#[trigger] inner[i]).sound(),
        forall|i: int|
            0 <= i < j ==> !(#[trigger] inner[i]).is_movie() && !inner[i].is_header(),
        inner[j].is_header(),
        inner[j].body == header_body(version, flags, time, rest),
        flags.len() == 3,
        0 < time,
        version == 1 ==> time < 0x8000_0000_0000_0000,
        version != 1 ==> time < 0x1_0000_0000,
    ensures
        datesrc::movie_time(laid_out(boxes)) == Some(time - 2082844800),
{
    let file = laid_out(boxes);
    let end = file.len() as int;
    assert(file.subrange(0, end) =~= file);
    let at = lemma_skip_boxes(file, boxes, k, 0, end, 0);
    let b = boxes[k];
    assert(b.sound());
    lemma_first_box(file, boxes, k, at, end);
    lemma_enter_movie(file, b, at, end, inner, j, version, flags, time, rest);
}

/// What the search gives at a `moov` box: the time in its header.
proof fn lemma_enter_movie(
    file: Seq<u8>,
    b: MovieBox,
    at: int,
    end: int,
    inner: Seq<MovieBox>,
    j: int,
    version: u8,
    flags: Seq<u8>,
    time: int,
    rest: Seq<u8>,
)
    requires
        b.sound(),
        b.is_movie(),
        b.body == laid_out(inner),
        0 <= at,
        at + b.bytes().len() <= end,
        end <= file.len(),
        file.subrange(at, at + b.bytes().len()) == b.bytes(),
        0 <= j < inner.len(),
        forall|i: int| 0 <= i < inner.len() ==> (#[trigger] inner[i]).sound(),
        forall|i: int|
            0 <= i < j ==> !(#[trigger] inner[i]).is_movie() && !inner[i].is_header(),
        inner[j].is_header(),
        inner[j].body == header_body(version, flags, time, rest),
        flags.len() == 3,
        0 < time,
        version == 1 ==> time < 0x8000_0000_0000_0000,
        version != 1 ==> time < 0x1_0000_0000,
    ensures
        datesrc::search(file, at, end, 0) == Some(time - 2082844800),
{
    let head: int = if b.long { 16 } else { 8 };
    let size = b.bytes().len() as int;
    lemma_box_seen(file, b, at, end);
    assert(!b.is_header()) by {
        assert(b.kind[1] == 111);
    }
    lemma_inner_time(file, inner, j, at + head, at + size, version, flags, time, rest);
    lemma_enter(file, at, end, 0, head, size, time - 2082844800);
}

proof fn lemma_enter(file: Seq<u8>, pos: int, end: int, depth: int, head: int, size: int, t: int)
    requires
        0 <= depth <= 6,
        datesrc::box_extent(file, pos, end) == Some((head, size)),
        datesrc::is_box(file, pos, datesrc::moov()),
        !datesrc::is_box(file, pos, datesrc::mvhd()),
        datesrc::search(file, pos + head, pos + size, depth + 1) == Some(t),
    ensures
        datesrc::search(file, pos, end, depth) == Some(t),
{
}

/// The first of the boxes from the `k`-th on stands where they begin.
proof fn lemma_first_box(file: Seq<u8>, boxes: Seq<MovieBox>, k: int, at: int, end: int)
    requires
        0 <= k < boxes.len(),
        0 <= at,
        end <= file.len(),
        end == at + laid_out(boxes.skip(k)).len(),
        file.subrange(at, end) == laid_out(boxes.skip(k)),
    ensures
        at + boxes[k].bytes().len() <= end,
        file.subrange(at, at + boxes[k].bytes().len()) == boxes[k].bytes(),
{
    let here = boxes.skip(k);
    let b = boxes[k];
    let n = b.bytes().len() as int;
    assert(here[0] == b);
    let tail = file.subrange(at, end);
    assert(tail == b.bytes() + laid_out(here.skip(1)));
    assert(file.subrange(at, at + n) =~= tail.subrange(0, n));
    assert(tail.subrange(0, n) =~= b.bytes());
}

proof fn lemma_inner_time(
    file: Seq<u8>,
    inner: Seq<MovieBox>,
    j: int,
    p: int,
    q: int,
    version: u8,
    flags: Seq<u8>,
    time: int,
    rest: Seq<u8>,
)
    requires
        0 <= p,
        q == p + laid_out(inner).len(),
        q <= file.len(),
        file.subrange(p, q) == laid_out(inner),
        0 <= j < inner.len(),
        forall|i: int| 0 <= i < inner.len() ==> (#[trigger] inner[i]).sound(),
        forall|i: int|
            0 <= i < j ==> !(#[trigger] inner[i]).is_movie() && !inner[i].is_header(),
        inner[j].is_header(),
        inner[j].body == header_body(version, flags, time, rest),
        flags.len() == 3,
        0 < time,
        version == 1 ==> time < 0x8000_0000_0000_0000,
        version != 1 ==> time < 0x1_0000_0000,
    ensures
        datesrc::search(file, p, q, 1) == Some(time - 2082844800),
{
    let to = lemma_skip_boxes(file, inner, j, p, q, 1);
    let h = inner[j];
    lemma_first_box(file, inner, j, to, q);
    lemma_box_seen(file, h, to, q);
    let off: int = if h.long { 16 } else { 8 };
    lemma_header(file, to + off, h.body, version, flags, time, rest);
}

proof fn lemma_header(
    file: Seq<u8>,
    at: int,
    body: Seq<u8>,
    version: u8,
    flags: Seq<u8>,
    time: int,
    rest: Seq<u8>,
)
    requires
        0 <= at,
        at + body.len() <= file.len(),
        file.subrange(at, at + body.len()) == body,
        body == header_body(version, flags, time, rest),
        flags.len() == 3,
        0 < time,
        version == 1 ==> time < 0x8000_0000_0000_0000,
        version != 1 ==> time < 0x1_0000_0000,
    ensures
        datesrc::header_time(file, at) == Some(time - 2082844800),
{
    lemma_powers();
    let w: nat = if version == 1 { 8 } else { 4 };
    law_big_endian(time, w);
    assert forall|i: int| 0 <= i < body.len() implies #[trigger] file[at + i] == body[i] by {
        assert(file.subrange(at, at + body.len())[i] == body[i]);
    }
    assert(file[at + 0] == body[0]);
    assert(body[0] == version);
    assert(file.subrange(at + 4, at + 4 + w) =~= in_bytes(time, w)) by {
        assert forall|i: int| 0 <= i < w implies file.subrange(at + 4, at + 4 + w)[i]
            == #[trigger] in_bytes(time, w)[i] by {
            assert(file[at + (4 + i)] == body[4 + i]);
        }
    }
}

/// A file of whole boxes without a `moov` or an `mvhd` box has no time.
pub proof fn law_no_movie_no_time(boxes: Seq<MovieBox>)
    requires
        forall|i: int| 0 <= i < boxes.len() ==> (#[trigger] boxes[i]).sound(),
        forall|i: int|
            0 <= i < boxes.len() ==> !(#[trigger] boxes[i]).is_movie() && !boxes[i].is_header(),
    ensures
        datesrc::movie_time(laid_out(boxes)) is None,
{
    let file = laid_out(boxes);
    let end = file.len() as int;
    assert(file.subrange(0, end) =~= file);
    let at = lemma_skip_boxes(file, boxes, boxes.len() as int, 0, end, 0);
    assert(boxes.skip(boxes.len() as int).len() == 0);
}

/// A creation time of zero is no time.
pub proof fn law_unset_movie_time(file: Seq<u8>, at: int, version: u8, flags: Seq<u8>, rest: Seq<u8>)
    requires
        0 <= at,
        flags.len() == 3,
        at + header_body(version, flags, 0, rest).len() <= file.len(),
        file.subrange(at, at + header_body(version, flags, 0, rest).len()) == header_body(
            version,
            flags,
            0,
            rest,
        ),
    ensures
        datesrc::header_time(file, at) is None,
{
    lemma_powers();
    let body = header_body(version, flags, 0, rest);
    let w: nat = if version == 1 { 8 } else { 4 };
    law_big_endian(0, w);
    assert forall|i: int| 0 <= i < body.len() implies #[trigger] file[at + i] == body[i] by {
        assert(file.subrange(at, at + body.len())[i] == body[i]);
    }
    assert(file[at + 0] == body[0]);
    assert(body[0] == version);
    assert(file.subrange(at + 4, at + 4 + w) =~= in_bytes(0, w)) by {
        assert forall|i: int| 0 <= i < w implies file.subrange(at + 4, at + 4 + w)[i]
            == #[trigger] in_bytes(0, w)[i] by {
            assert(file[at + (4 + i)] == body[4 + i]);
        }
    }
}

/// An image is read from its first quarter of a megabyte where that holds a
/// capture time, and from the whole file otherwise; a file that is no longer
/// than that is read whole.
pub proof fn law_image_read(file: Seq<u8>)
    ensures
        ({
            let head = if file.len() <= 262144 {
                file
            } else {
                file.take(262144)
            };
            let read = datesrc::image_texts(head);
            let enough = read is Some && datesrc::capture_time(read->0) is Some;
            &&& enough ==> datesrc::file_texts(file) == read
            &&& !enough ==> datesrc::file_texts(file) == datesrc::image_texts(file)
            &&& file.len() <= 262144 ==> datesrc::file_texts(file) == datesrc::image_texts(file)
        }),
{
}

/// What is known of an image: its capture time, and the camera, each from its
/// own tag.
pub proof fn law_image_info(t: Map<ImageTag, Seq<u8>>)
    ensures
        datesrc::image_info(t).datetime == datesrc::capture_time(t),
        datesrc::image_info(t).make == datesrc::tag_text(t, ImageTag::Make),
        datesrc::image_info(t).model == datesrc::tag_text(t, ImageTag::Model),
{
}

/// A `moov` box that holds no header is stepped over like any other box: the
/// search goes on behind it.
pub proof fn law_empty_movie_is_stepped_over(b: MovieBox, inner: Seq<MovieBox>, file: Seq<u8>)
    requires
        b.sound(),
        b.is_movie(),
        b.body == laid_out(inner),
        forall|i: int| 0 <= i < inner.len() ==> (#[trigger] inner[i]).sound(),
        forall|i: int|
            0 <= i < inner.len() ==> !(#[trigger] inner[i]).is_movie() && !inner[i].is_header(),
    ensures
        datesrc::movie_time(b.bytes() + file) == datesrc::movie_time(file),
{
    let all = b.bytes() + file;
    let n = b.bytes().len() as int;
    let end = all.len() as int;
    let head: int = if b.long { 16 } else { 8 };
    assert(all.subrange(0, n) =~= b.bytes());
    lemma_box_seen(all, b, 0, end);
    assert(!b.is_header()) by {
        assert(b.kind[1] == 111);
    }
    lemma_nothing_inside(all, inner, head, n);
    lemma_leave(all, 0, end, 0, head, n);
    lemma_shift(b.bytes(), file, 0, file.len() as int, 0);
}

proof fn lemma_nothing_inside(file: Seq<u8>, inner: Seq<MovieBox>, p: int, q: int)
    requires
        0 <= p,
        q == p + laid_out(inner).len(),
        q <= file.len(),
        file.subrange(p, q) == laid_out(inner),
        forall|i: int| 0 <= i < inner.len() ==> (#[trigger] inner[i]).sound(),
        forall|i: int|
            0 <= i < inner.len() ==> !(#[trigger] inner[i]).is_movie() && !inner[i].is_header(),
    ensures
        datesrc::search(file, p, q, 1) is None,
{
    let next = lemma_skip_boxes(file, inner, inner.len() as int, p, q, 1);
    assert(inner.skip(inner.len() as int) =~= Seq::<MovieBox>::empty());
    assert(next == q);
    assert(datesrc::box_extent(file, q, q) is None);
}

proof fn lemma_leave(file: Seq<u8>, pos: int, end: int, depth: int, head: int, size: int)
    requires
        0 <= depth <= 6,
        datesrc::box_extent(file, pos, end) == Some((head, size)),
        datesrc::is_box(file, pos, datesrc::moov()),
        !datesrc::is_box(file, pos, datesrc::mvhd()),
        datesrc::search(file, pos + head, pos + size, depth + 1) is None,
    ensures
        datesrc::search(file, pos, end, depth) == datesrc::search(file, pos + size, end, depth),
{
}

/// A box whose size is written as 0 reaches to the end of the file: a `moov`
/// box at the end is read all the same.
pub proof fn law_open_ended_movie(
    inner: Seq<MovieBox>,
    j: int,
    version: u8,
    flags: Seq<u8>,
    time: int,
    rest: Seq<u8>,
)
    requires
        0 <= j < inner.len(),
        forall|i: int| 0 <= i < inner.len() ==> (#[trigger] inner[i]).sound(),
        forall|i: int|
            0 <= i < j ==> !(#[trigger] inner[i]).is_movie() && !inner[i].is_header(),
        inner[j].is_header(),
        inner[j].body == header_body(version, flags, time, rest),
        flags.len() == 3,
        0 < time,
        version == 1 ==> time < 0x8000_0000_0000_0000,
        version != 1 ==> time < 0x1_0000_0000,
    ensures
        datesrc::movie_time(
            in_bytes(0, 4) + seq![109u8, 111u8, 111u8, 118u8] + laid_out(inner),
        ) == Some(time - 2082844800),
{
    lemma_powers();
    law_big_endian(0, 4);
    let kind = seq![109u8, 111u8, 111u8, 118u8];
    let file = in_bytes(0, 4) + kind + laid_out(inner);
    let end = file.len() as int;
    assert(file.subrange(0, 4) =~= in_bytes(0, 4));
    assert(file.subrange(4, 8) =~= kind);
    assert(file.subrange(8, end) =~= laid_out(inner));
    assert(datesrc::box_extent(file, 0, end) == Some((8int, end)));
    assert(datesrc::is_box(file, 0, datesrc::moov()));
    assert(!datesrc::is_box(file, 0, datesrc::mvhd())) by {
        assert(kind[1] == 111);
        assert(datesrc::mvhd()[1] == 118);
    }
    lemma_inner_time(file, inner, j, 8, end, version, flags, time, rest);
    lemma_enter(file, 0, end, 0, 8, end, time - 2082844800);
}

} // verus!
