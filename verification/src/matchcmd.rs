//! `shotsort match` — pair a PixCake project's kept photos with their RAW files.
//!
//! A shot's RAW and the tethered JPEG carry an identical `DateTimeOriginal` +
//! `SubSecTimeOriginal`, so an exact key match is the same exposure — precise
//! enough to separate 30fps bursts. Matched RAWs are copied (or moved/linked)
//! into one directory, recorded in a journal for `undo`.

use vstd::prelude::*;

use crate::cli::MatchAction;
use crate::clock;
use crate::clock::{Day, Moment};
use crate::filetype;
use crate::paths;
use crate::pixcake::KeptItem;
use crate::text;
use crate::types;
use crate::types::{Action, CaptureKey, FileKind};

verus! {

/// Parameters for a `match` run (mirrors the CLI subcommand fields).
#[derive(Debug)]
pub struct MatchArgs {
    pub project: String,
    pub raw_src: String,
    pub out: String,
    pub pixcake_dir: Option<String>,
    pub action: MatchAction,
    pub dry_run: bool,
    pub journal: Option<String>,
    pub yes: bool,
    pub quiet: bool,
}

/// How one keeper resolved against the RAW archive.
#[derive(Debug)]
pub enum Resolution {
    /// Exactly one RAW matched. `coarse` = matched only at second precision.
    Matched { raw: String, coarse: bool },
    /// Several RAWs share this keeper's timestamp — cannot disambiguate safely.
    Ambiguous(Vec<String>),
    /// A RAW matched, but a previous keeper already claimed it.
    Duplicate(String),
    /// No RAW in the archive carries this keeper's capture time.
    Unmatched,
}

/// The model of a [`Resolution`].
#[verifier::ext_equal]
pub enum Found {
    Matched(Seq<char>, bool),
    Ambiguous(Seq<Seq<char>>),
    Duplicate(Seq<char>),
    Unmatched,
}

impl View for Resolution {
    type V = Found;

    open spec fn view(&self) -> Found {
        match self {
            Resolution::Matched { raw, coarse } => Found::Matched(raw@, *coarse),
            Resolution::Ambiguous(v) => Found::Ambiguous(text::views(v@)),
            Resolution::Duplicate(raw) => Found::Duplicate(raw@),
            Resolution::Unmatched => Found::Unmatched,
        }
    }
}

/// A kept photo and what became of it.
#[derive(Debug)]
pub struct Keeper {
    pub original: String,
    pub resolution: Resolution,
}

/// The models of keepers.
pub open spec fn keeper_models(v: Seq<Keeper>) -> Seq<(Seq<char>, Found)> {
    Seq::new(v.len(), |i: int| (v[i].original@, v[i].resolution@))
}

// ---------------------------------------------------------------------------
// Capture times of keepers
// ---------------------------------------------------------------------------

/// A keeper's capture time, read once up front.
#[derive(Debug, Clone, Copy, PartialEq, Eq, Structural)]
pub enum KeeperKey {
    /// Exact millisecond key from the keeper file's own EXIF (burst-safe).
    Precise(CaptureKey),
    /// Second-only fallback from PixCake's stored time (file unreadable/gone).
    Coarse(Moment),
    /// No capture time available at all.
    Unknown,
}

/// This machine's wall clock at a time in Unix milliseconds. What the zone of
/// this machine is, no clause says.
pub fn local_naive_from_millis(ms: i64) -> (r: Option<Moment>)
    ensures
        clock::representable_anywhere(ms as int / 1000) ==> r is Some,
        r is Some ==> clock::representable(ms as int / 1000),
        r matches Some(m) ==> m.valid() && m.nano == (ms as int % 1000) * 1000000
            && -clock::DAY_SECONDS < m.unix() - ms as int / 1000 < clock::DAY_SECONDS,
{
    // Division that rounds down, for times before the epoch.
    let secs: i64;
    let rest: i64;
    if ms >= 0 {
        secs = ms / 1000;
        rest = ms % 1000;
    } else {
        let n: i64 = -(ms + 1);
        secs = -(n / 1000) - 1;
        rest = 999 - n % 1000;
        proof {
            let k = n as int / 1000;
            let m = n as int % 1000;
            assert(ms as int == 1000 * (-k - 1) + (999 - m));
            assert(ms as int / 1000 == -k - 1 && ms as int % 1000 == 999 - m) by (nonlinear_arith)
                requires
                    ms as int == 1000 * (-k - 1) + (999 - m),
                    0 <= m < 1000,
            ;
        }
    }
    clock::local_moment(secs, (rest as u32) * 1000000)
}

/// The capture time of a keeper: the key in its own file where there is one,
/// else the time that PixCake has stored.
pub fn keeper_key(own: Option<CaptureKey>, item: &KeptItem) -> (r: KeeperKey)
    ensures
        own matches Some(key) ==> r == KeeperKey::Precise(key),
        own is None ==> {
            &&& r !is Precise
            &&& item.capture_time_ms is None ==> r is Unknown
            &&& item.capture_time_ms matches Some(ms) ==> {
                &&& clock::representable_anywhere(ms as int / 1000) ==> r is Coarse
                &&& !clock::representable(ms as int / 1000) ==> r is Unknown
            }
            &&& r matches KeeperKey::Coarse(m) ==> item.capture_time_ms matches Some(ms)
                && m.valid() && m.nano == (ms as int % 1000) * 1000000 && -clock::DAY_SECONDS
                < m.unix() - ms as int / 1000 < clock::DAY_SECONDS
        },
{
    match own {
        Some(key) => KeeperKey::Precise(key),
        None => match item.capture_time_ms {
            Some(ms) => match local_naive_from_millis(ms) {
                Some(m) => KeeperKey::Coarse(m),
                None => KeeperKey::Unknown,
            },
            None => KeeperKey::Unknown,
        },
    }
}

/// The day of a keeper's capture time.
pub open spec fn key_day(k: KeeperKey) -> Option<Day> {
    match k {
        KeeperKey::Precise(key) => Some(key.dt.date()),
        KeeperKey::Coarse(m) => Some(m.date()),
        KeeperKey::Unknown => None,
    }
}

/// Whether a keeper can match a RAW that is filed under a day: its own day, the
/// one before or the one after, to absorb any midnight or time-zone edge.
pub open spec fn near(k: KeeperKey, d: Day) -> bool {
    match key_day(k) {
        Some(own) => d == own || clock::previous_day(own) == Some(d) || clock::next_day(own)
            == Some(d),
        None => false,
    }
}

/// Whether some keeper can match a RAW that is filed under a day.
pub open spec fn needed(keys: Seq<KeeperKey>, d: Day) -> bool {
    exists|i: int| 0 <= i < keys.len() && near(#[trigger] keys[i], d)
}

/// Whether the days of all keys exist.
pub open spec fn real_days(keys: Seq<KeeperKey>) -> bool {
    forall|i: int|
        0 <= i < keys.len() ==> (key_day(#[trigger] keys[i]) matches Some(d) ==> d.valid())
}

/// The set of capture dates the keepers fall on, widened by ±1 day.
pub fn needed_dates(keys: &Vec<KeeperKey>) -> (r: Vec<Day>)
    requires
        real_days(keys@),
    ensures
        forall|d: Day| #[trigger] r@.contains(d) <==> needed(keys@, d),
{
    let mut r: Vec<Day> = Vec::new();
    let mut i: usize = 0;
    proof {
        assert forall|d: Day| #[trigger] r@.contains(d) <==> needed(keys@.take(0), d) by {}
    }
    while i < keys.len()
        invariant
            i <= keys@.len(),
            real_days(keys@),
            forall|d: Day| #[trigger] r@.contains(d) <==> needed(keys@.take(i as int), d),
        decreases keys@.len() - i,
    {
        let ghost before = r@;
        let ghost a = keys@.take(i as int);
        let ghost b = keys@.take(i + 1);
        proof {
            assert(b =~= a.push(keys@[i as int]));
        }
        let own: Option<Day> = match keys[i] {
            KeeperKey::Precise(key) => Some(key.dt.day_of()),
            KeeperKey::Coarse(m) => Some(m.day_of()),
            KeeperKey::Unknown => None,
        };
        match own {
            Some(d) => {
                proof {
                    assert(key_day(keys@[i as int]) == Some(d));
                }
                r.push(d);
                match clock::pred_day(d) {
                    Some(p) => r.push(p),
                    None => {},
                }
                match clock::succ_day(d) {
                    Some(n) => r.push(n),
                    None => {},
                }
            },
            None => {},
        }
        proof {
            assert forall|d: Day| #[trigger] r@.contains(d) <==> needed(b, d) by {
                if r@.contains(d) {
                    let k = choose|k: int| 0 <= k < r@.len() && r@[k] == d;
                    if k < before.len() {
                        assert(before[k] == d);
                        assert(before.contains(d));
                        let j = choose|j: int| 0 <= j < a.len() && near(#[trigger] a[j], d);
                        assert(b[j] == a[j]);
                    } else {
                        assert(near(b[i as int], d));
                    }
                }
                if needed(b, d) {
                    let j = choose|j: int| 0 <= j < b.len() && near(#[trigger] b[j], d);
                    if j < i {
                        assert(a[j] == b[j]);
                        assert(needed(a, d));
                        assert(before.contains(d));
                        let k = choose|k: int| 0 <= k < before.len() && before[k] == d;
                        assert(r@[k] == d);
                    } else {
                        let own = key_day(keys@[i as int])->0;
                        let n = before.len() as int;
                        assert(r@[n] == own);
                        if d != own {
                            if clock::previous_day(own) == Some(d) {
                                assert(r@[n + 1] == d);
                            } else {
                                assert(r@[r@.len() - 1] == d);
                            }
                        }
                    }
                }
            }
        }
        i = i + 1;
    }
    proof {
        assert(keys@.take(keys@.len() as int) =~= keys@);
    }
    r
}

// ---------------------------------------------------------------------------
// The RAW archive
// ---------------------------------------------------------------------------

/// Whether a directory or file is hidden.
pub fn is_hidden(name: Option<&str>) -> (r: bool)
    ensures
        r == (match name {
            Some(n) => text::has_prefix(n@, "."@) && n@ != "."@ && n@ != ".."@,
            None => false,
        }),
{
    match name {
        Some(n) => text::starts_with(n, ".") && !text::same(n, ".") && !text::same(n, ".."),
        None => false,
    }
}

/// The name of the directory that a file is in.
pub open spec fn folder_name(file: Seq<char>) -> Option<Seq<char>> {
    match paths::parent_parts(file) {
        Some(c) => paths::name_of(paths::path_of(c)),
        None => None,
    }
}

/// A day with given fields.
pub open spec fn day_of(f: (int, int, int)) -> Day {
    Day { year: f.0 as i32, month: f.1 as u32, day: f.2 as u32 }
}

/// The day that the directory of a file is named after.
pub open spec fn filed_under(file: Seq<char>) -> Option<Day> {
    match folder_name(file) {
        Some(n) => match clock::parsed_date(n, "%Y-%m-%d"@) {
            Some(f) => Some(day_of(f)),
            None => None,
        },
        None => None,
    }
}

/// Parse a file's immediate parent folder name as a `YYYY-MM-DD` date, if it is
/// one (shotsort files RAWs into these per-capture-date folders).
pub fn folder_date(file: &str) -> (r: Option<Day>)
    ensures
        r == filed_under(file@),
        r matches Some(d) ==> d.valid(),
{
    match paths::parent(file) {
        Some(p) => match paths::file_name(p.as_str()) {
            Some(n) => clock::parse_date(n.as_str(), "%Y-%m-%d"),
            None => None,
        },
        None => None,
    }
}

/// Whether a file is a RAW, by its extension.
pub open spec fn is_raw(file: Seq<char>) -> bool {
    match paths::name_of(file) {
        Some(n) => match paths::ext_of(n) {
            Some(e) => filetype::kind_of(text::ascii_lower(e)) == Some(FileKind::Raw),
            None => false,
        },
        None => false,
    }
}

/// What the scan of the archive does with a file.
#[derive(Debug, Clone, Copy, PartialEq, Eq, Structural)]
pub enum RawSeen {
    /// It is no RAW.
    Other,
    /// It is a RAW, filed under a day that no keeper falls on.
    Skipped,
    /// It is a RAW whose capture time has to be read.
    Wanted,
}

/// What the scan of the archive does with a file, where RAWs of some days are
/// needed.
pub open spec fn seen_as(file: Seq<char>, days: Seq<Day>) -> RawSeen {
    let d = filed_under(file);
    if !is_raw(file) {
        RawSeen::Other
    } else if d is Some && !days.contains(d->0) {
        RawSeen::Skipped
    } else {
        RawSeen::Wanted
    }
}

/// Whether a RAW has to be read. One in a `YYYY-MM-DD` folder has to be only if
/// that date is needed; one elsewhere always has to be (it cannot safely be
/// filtered by date).
pub fn sort_raw(file: &str, needed: &Vec<Day>) -> (r: RawSeen)
    ensures
        r == seen_as(file@, needed@),
        r == (if !is_raw(file@) {
            RawSeen::Other
        } else {
            match filed_under(file@) {
                Some(d) => if needed@.contains(d) {
                    RawSeen::Wanted
                } else {
                    RawSeen::Skipped
                },
                None => RawSeen::Wanted,
            }
        }),
{
    let raw: bool = match paths::file_name(file) {
        Some(n) => match paths::extension(n.as_str()) {
            Some(e) => match filetype::classify(text::to_ascii_lower(e.as_str()).as_str()) {
                Some(k) => k == FileKind::Raw,
                None => false,
            },
            None => false,
        },
        None => false,
    };
    if !raw {
        return RawSeen::Other;
    }
    match folder_date(file) {
        Some(d) => if has_day(needed, d) {
            RawSeen::Wanted
        } else {
            RawSeen::Skipped
        },
        None => RawSeen::Wanted,
    }
}

fn has_day(days: &Vec<Day>, d: Day) -> (r: bool)
    ensures
        r == days@.contains(d),
{
    let mut i: usize = 0;
    while i < days.len()
        invariant
            i <= days@.len(),
            forall|k: int| 0 <= k < i ==> days@[k] != d,
        decreases days@.len() - i,
    {
        if days[i] == d {
            return true;
        }
        i = i + 1;
    }
    false
}

/// A RAW and its capture time.
#[derive(Debug)]
pub struct RawEntry {
    pub key: CaptureKey,
    pub path: String,
}

/// RAW files by capture time, both at full millisecond precision and collapsed
/// to the second (for keepers lacking sub-second data).
#[derive(Debug)]
pub struct RawIndex {
    pub entries: Vec<RawEntry>,
}

/// The model of an index: the RAWs in the order in which they were found.
pub open spec fn entry_models(v: Seq<RawEntry>) -> Seq<(CaptureKey, Seq<char>)> {
    Seq::new(v.len(), |i: int| (v[i].key, v[i].path@))
}

impl View for RawIndex {
    type V = Seq<(CaptureKey, Seq<char>)>;

    open spec fn view(&self) -> Seq<(CaptureKey, Seq<char>)> {
        entry_models(self.entries@)
    }
}

/// The RAWs with a key, in order.
pub open spec fn with_key(index: Seq<(CaptureKey, Seq<char>)>, key: CaptureKey) -> Seq<Seq<char>>
    decreases index.len(),
{
    if index.len() == 0 {
        Seq::empty()
    } else if index.last().0 == key {
        with_key(index.drop_last(), key).push(index.last().1)
    } else {
        with_key(index.drop_last(), key)
    }
}

/// The RAWs of a second, in order.
pub open spec fn with_second(index: Seq<(CaptureKey, Seq<char>)>, dt: Moment) -> Seq<Seq<char>>
    decreases index.len(),
{
    if index.len() == 0 {
        Seq::empty()
    } else if index.last().0.dt == dt {
        with_second(index.drop_last(), dt).push(index.last().1)
    } else {
        with_second(index.drop_last(), dt)
    }
}

impl RawIndex {
    /// An index without RAWs.
    pub fn new() -> (r: RawIndex)
        ensures
            r@ == Seq::<(CaptureKey, Seq<char>)>::empty(),
    {
        let r = RawIndex { entries: Vec::new() };
        proof {
            assert(r@ =~= Seq::<(CaptureKey, Seq<char>)>::empty());
        }
        r
    }

    /// Adds a RAW; one without a capture time is left out.
    pub fn add(&mut self, key: Option<CaptureKey>, path: String)
        ensures
            final(self)@ == (match key {
                Some(k) => old(self)@.push((k, path@)),
                None => old(self)@,
            }),
    {
        match key {
            Some(k) => {
                let ghost before = self.entries@;
                self.entries.push(RawEntry { key: k, path });
                proof {
                    assert(entry_models(self.entries@) =~= entry_models(before).push((k, path@)));
                }
            },
            None => {},
        }
    }

    /// The RAWs with a key.
    fn by_key(&self, key: CaptureKey) -> (r: Vec<String>)
        ensures
            text::views(r@) == with_key(self@, key),
    {
        let ghost all = self@;
        let mut r: Vec<String> = Vec::new();
        let mut i: usize = 0;
        proof {
            assert(all.take(0) =~= Seq::<(CaptureKey, Seq<char>)>::empty());
            assert(text::views(r@) =~= Seq::<Seq<char>>::empty());
        }
        while i < self.entries.len()
            invariant
                i <= self.entries@.len(),
                all == self@,
                text::views(r@) == with_key(all.take(i as int), key),
            decreases self.entries@.len() - i,
        {
            proof {
                assert(all.take(i + 1).drop_last() =~= all.take(i as int));
                assert(all.take(i + 1).last() == (
                    self.entries@[i as int].key,
                    self.entries@[i as int].path@,
                ));
            }
            if self.entries[i].key == key {
                let p: String = self.entries[i].path.clone();
                proof {
                    text::lemma_views_push(r@, p);
                }
                r.push(p);
            }
            i = i + 1;
        }
        proof {
            assert(all.take(all.len() as int) =~= all);
        }
        r
    }

    /// The RAWs of a second.
    fn by_second(&self, dt: Moment) -> (r: Vec<String>)
        ensures
            text::views(r@) == with_second(self@, dt),
    {
        let ghost all = self@;
        let mut r: Vec<String> = Vec::new();
        let mut i: usize = 0;
        proof {
            assert(all.take(0) =~= Seq::<(CaptureKey, Seq<char>)>::empty());
            assert(text::views(r@) =~= Seq::<Seq<char>>::empty());
        }
        while i < self.entries.len()
            invariant
                i <= self.entries@.len(),
                all == self@,
                text::views(r@) == with_second(all.take(i as int), dt),
            decreases self.entries@.len() - i,
        {
            proof {
                assert(all.take(i + 1).drop_last() =~= all.take(i as int));
                assert(all.take(i + 1).last() == (
                    self.entries@[i as int].key,
                    self.entries@[i as int].path@,
                ));
            }
            if self.entries[i].key.dt == dt {
                let p: String = self.entries[i].path.clone();
                proof {
                    text::lemma_views_push(r@, p);
                }
                r.push(p);
            }
            i = i + 1;
        }
        proof {
            assert(all.take(all.len() as int) =~= all);
        }
        r
    }
}

// ---------------------------------------------------------------------------
// Matching
// ---------------------------------------------------------------------------

/// The candidates that no keeper has claimed, in order.
pub open spec fn unclaimed(candidates: Seq<Seq<char>>, claimed: Seq<Seq<char>>) -> Seq<Seq<char>>
    decreases candidates.len(),
{
    if candidates.len() == 0 {
        candidates
    } else if claimed.contains(candidates.last()) {
        unclaimed(candidates.drop_last(), claimed)
    } else {
        unclaimed(candidates.drop_last(), claimed).push(candidates.last())
    }
}

/// What becomes of a keeper with these candidates: the only free one is its
/// match; with none free it is a duplicate, with several it is ambiguous.
pub open spec fn committed(
    candidates: Seq<Seq<char>>,
    coarse: bool,
    claimed: Seq<Seq<char>>,
) -> Found {
    let free = unclaimed(candidates, claimed);
    if free.len() == 0 {
        Found::Duplicate(candidates[0])
    } else if free.len() == 1 {
        Found::Matched(free[0], coarse)
    } else {
        Found::Ambiguous(candidates)
    }
}

/// The claims once a keeper has been resolved.
pub open spec fn claims(claimed: Seq<Seq<char>>, f: Found) -> Seq<Seq<char>> {
    match f {
        Found::Matched(raw, _) => claimed.push(raw),
        _ => claimed,
    }
}

/// Resolves a keeper among candidates with its capture time.
pub fn commit(candidates: &Vec<String>, coarse: bool, claimed: &mut Vec<String>) -> (r: Resolution)
    requires
        candidates@.len() > 0,
    ensures
        r@ == committed(text::views(candidates@), coarse, text::views(old(claimed)@)),
        text::views(final(claimed)@) == claims(text::views(old(claimed)@), r@),
{
    let ghost all = text::views(candidates@);
    let ghost taken = text::views(claimed@);
    let mut free: Vec<String> = Vec::new();
    let mut i: usize = 0;
    proof {
        assert(all.take(0) =~= Seq::<Seq<char>>::empty());
        assert(text::views(free@) =~= Seq::<Seq<char>>::empty());
    }
    while i < candidates.len()
        invariant
            i <= candidates@.len(),
            all == text::views(candidates@),
            taken == text::views(claimed@),
            text::views(free@) == unclaimed(all.take(i as int), taken),
        decreases candidates@.len() - i,
    {
        proof {
            assert(all.take(i + 1).drop_last() =~= all.take(i as int));
            assert(all.take(i + 1).last() == candidates@[i as int]@);
        }
        if !text::list_has(claimed, candidates[i].as_str()) {
            let p: String = candidates[i].clone();
            proof {
                text::lemma_views_push(free@, p);
            }
            free.push(p);
        }
        i = i + 1;
    }
    proof {
        assert(all.take(all.len() as int) =~= all);
        assert(text::views(free@).len() == free@.len());
    }
    if free.len() == 0 {
        proof {
            assert(all[0] == candidates@[0]@);
        }
        Resolution::Duplicate(candidates[0].clone())
    } else if free.len() == 1 {
        let raw: String = free[0].clone();
        let copy: String = free[0].clone();
        proof {
            assert(text::views(free@)[0] == raw@);
            text::lemma_views_push(claimed@, copy);
        }
        claimed.push(copy);
        Resolution::Matched { raw, coarse }
    } else {
        Resolution::Ambiguous(copy_list(candidates))
    }
}

fn copy_list(v: &Vec<String>) -> (r: Vec<String>)
    ensures
        text::views(r@) == text::views(v@),
{
    let mut r: Vec<String> = Vec::new();
    let mut i: usize = 0;
    while i < v.len()
        invariant
            i <= v@.len(),
            r@.len() == i,
            forall|k: int| 0 <= k < i ==> (#[trigger] r@[k])@ == v@[k]@,
        decreases v@.len() - i,
    {
        r.push(v[i].clone());
        i = i + 1;
    }
    proof {
        assert(text::views(r@) =~= text::views(v@));
    }
    r
}

/// What becomes of a keeper with exact candidates, and with candidates of the
/// same second.
pub open spec fn picked(
    exact: Seq<Seq<char>>,
    second: Seq<Seq<char>>,
    coarse: bool,
    claimed: Seq<Seq<char>>,
) -> Found {
    if exact.len() > 0 {
        committed(exact, coarse, claimed)
    } else if second.len() > 0 {
        committed(second, true, claimed)
    } else {
        Found::Unmatched
    }
}

/// Choose a RAW from the precise-key bucket, else the second-level bucket,
/// honoring the already-claimed set. `coarse` flags a second-only fallback.
pub fn pick(
    exact: &Vec<String>,
    second: &Vec<String>,
    coarse: bool,
    claimed: &mut Vec<String>,
) -> (r: Resolution)
    ensures
        r@ == picked(
            text::views(exact@),
            text::views(second@),
            coarse,
            text::views(old(claimed)@),
        ),
        text::views(final(claimed)@) == claims(text::views(old(claimed)@), r@),
{
    proof {
        assert(text::views(exact@).len() == exact@.len());
        assert(text::views(second@).len() == second@.len());
    }
    if exact.len() > 0 {
        commit(exact, coarse, claimed)
    } else if second.len() > 0 {
        commit(second, true, claimed)
    } else {
        Resolution::Unmatched
    }
}

/// What becomes of a keeper with a capture time.
pub open spec fn resolved(
    k: KeeperKey,
    index: Seq<(CaptureKey, Seq<char>)>,
    claimed: Seq<Seq<char>>,
) -> Found {
    match k {
        KeeperKey::Precise(key) => picked(
            with_key(index, key),
            with_second(index, key.dt),
            false,
            claimed,
        ),
        KeeperKey::Coarse(dt) => picked(Seq::empty(), with_second(index, dt), true, claimed),
        KeeperKey::Unknown => Found::Unmatched,
    }
}

/// Resolve a keeper (via its precomputed key) against the RAW index.
pub fn resolve_key(k: &KeeperKey, index: &RawIndex, claimed: &mut Vec<String>) -> (r: Resolution)
    ensures
        r@ == resolved(*k, index@, text::views(old(claimed)@)),
        text::views(final(claimed)@) == claims(text::views(old(claimed)@), r@),
{
    match k {
        KeeperKey::Precise(key) => pick(
            &index.by_key(*key),
            &index.by_second(key.dt),
            false,
            claimed,
        ),
        KeeperKey::Coarse(dt) => {
            let none: Vec<String> = Vec::new();
            proof {
                assert(text::views(none@) =~= Seq::<Seq<char>>::empty());
            }
            pick(&none, &index.by_second(*dt), true, claimed)
        },
        KeeperKey::Unknown => Resolution::Unmatched,
    }
}

/// What becomes of all keepers, in order, and the claims at the end.
pub open spec fn all_resolved(
    items: Seq<(Seq<char>, KeeperKey)>,
    index: Seq<(CaptureKey, Seq<char>)>,
) -> (Seq<(Seq<char>, Found)>, Seq<Seq<char>>)
    decreases items.len(),
{
    if items.len() == 0 {
        (Seq::empty(), Seq::empty())
    } else {
        let (done, claimed) = all_resolved(items.drop_last(), index);
        let f = resolved(items.last().1, index, claimed);
        (done.push((items.last().0, f)), claims(claimed, f))
    }
}

/// The kept photos with their capture times.
pub open spec fn with_keys(items: Seq<KeptItem>, keys: Seq<KeeperKey>) -> Seq<
    (Seq<char>, KeeperKey),
> {
    Seq::new(items.len(), |i: int| (items[i].original@, keys[i]))
}

/// Resolve each keeper to a RAW using its precomputed key.
pub fn resolve_keepers(items: &Vec<KeptItem>, keys: &Vec<KeeperKey>, index: &RawIndex) -> (r: Vec<
    Keeper,
>)
    requires
        items@.len() == keys@.len(),
    ensures
        keeper_models(r@) == all_resolved(with_keys(items@, keys@), index@).0,
{
    let ghost all = with_keys(items@, keys@);
    let mut claimed: Vec<String> = Vec::new();
    let mut r: Vec<Keeper> = Vec::new();
    let mut i: usize = 0;
    proof {
        assert(all.take(0) =~= Seq::<(Seq<char>, KeeperKey)>::empty());
        assert(keeper_models(r@) =~= Seq::<(Seq<char>, Found)>::empty());
        assert(text::views(claimed@) =~= Seq::<Seq<char>>::empty());
    }
    while i < items.len()
        invariant
            i <= items@.len() == keys@.len(),
            all == with_keys(items@, keys@),
            keeper_models(r@) == all_resolved(all.take(i as int), index@).0,
            text::views(claimed@) == all_resolved(all.take(i as int), index@).1,
        decreases items@.len() - i,
    {
        proof {
            assert(all.take(i + 1).drop_last() =~= all.take(i as int));
            assert(all.take(i + 1).last() == (items@[i as int].original@, keys@[i as int]));
        }
        let resolution: Resolution = resolve_key(&keys[i], index, &mut claimed);
        let k = Keeper { original: items[i].original.clone(), resolution };
        proof {
            assert(keeper_models(r@.push(k)) =~= keeper_models(r@).push(
                (k.original@, k.resolution@),
            ));
        }
        r.push(k);
        i = i + 1;
    }
    proof {
        assert(all.take(all.len() as int) =~= all);
    }
    r
}

// ---------------------------------------------------------------------------
// Gathering
// ---------------------------------------------------------------------------

/// What is on disk while the gather list is made.
pub struct Shelf {
    /// Whether a path exists.
    pub present: spec_fn(Seq<char>) -> bool,
    /// Whether two files can be looked at and have the same size.
    pub same_size: spec_fn(Seq<char>, Seq<char>) -> bool,
}

/// The `n`-th place for a RAW: its own name first, then `stem_2.ext` and so on.
pub open spec fn nth_place(out: Seq<char>, raw: Seq<char>, n: int) -> Seq<char> {
    let name = types::or_empty(paths::name_of(raw));
    let stem = match paths::name_of(raw) {
        Some(x) => paths::stem_of(x),
        None => "file"@,
    };
    let ext = match paths::name_of(raw) {
        Some(x) => paths::ext_of(x),
        None => None,
    };
    if n == 1 {
        paths::joined(out, name)
    } else {
        let head = stem + "_"@ + text::decimal(n as nat);
        paths::joined(
            out,
            match ext {
                Some(e) => head + "."@ + e,
                None => head,
            },
        )
    }
}

/// Whether a place is neither taken in the list nor on disk.
pub open spec fn open_place(p: Seq<char>, taken: Seq<Seq<char>>, shelf: Shelf) -> bool {
    !taken.contains(p) && !(shelf.present)(p)
}

/// Whether the `n`-th place is the first one that is open.
pub open spec fn first_open(
    out: Seq<char>,
    raw: Seq<char>,
    taken: Seq<Seq<char>>,
    shelf: Shelf,
    n: int,
) -> bool {
    &&& 1 <= n
    &&& open_place(nth_place(out, raw, n), taken, shelf)
    &&& forall|m: int| 1 <= m < n ==> !open_place(#[trigger] nth_place(out, raw, m), taken, shelf)
}

/// Whether a RAW has been gathered already: a file of its name and size is in
/// place, and not one of this list.
pub open spec fn gathered_before(
    out: Seq<char>,
    raw: Seq<char>,
    taken: Seq<Seq<char>>,
    shelf: Shelf,
) -> bool {
    let first = nth_place(out, raw, 1);
    !taken.contains(first) && (shelf.same_size)(first, raw)
}

/// The place for a RAW: the first one that is open, `None` where the RAW has
/// been gathered already.
pub open spec fn place_for(
    out: Seq<char>,
    raw: Seq<char>,
    taken: Seq<Seq<char>>,
    shelf: Shelf,
) -> Option<Seq<char>> {
    if gathered_before(out, raw, taken, shelf) {
        None
    } else {
        let n = choose|n: int| first_open(out, raw, taken, shelf, n);
        Some(nth_place(out, raw, n))
    }
}

/// The gather list of the RAWs from the `k`-th on.
pub open spec fn gather_list(
    raws: Seq<Seq<char>>,
    k: int,
    out: Seq<char>,
    taken: Seq<Seq<char>>,
    shelf: Shelf,
) -> Seq<(Seq<char>, Seq<char>)>
    decreases raws.len() - k,
{
    if k < 0 || k >= raws.len() {
        Seq::empty()
    } else {
        match place_for(out, raws[k], taken, shelf) {
            None => gather_list(raws, k + 1, out, taken, shelf),
            Some(p) => seq![(raws[k], p)] + gather_list(raws, k + 1, out, taken.push(p), shelf),
        }
    }
}

/// The models of a gather list.
pub open spec fn pairs(v: Seq<(String, String)>) -> Seq<(Seq<char>, Seq<char>)> {
    Seq::new(v.len(), |i: int| (v[i].0@, v[i].1@))
}

/// What is asked about the disk.
pub enum PlaceQuestion {
    /// Can the two files be looked at, and have they the same size?
    SameSize { a: String, b: String },
    /// Does the path exist?
    Exists { path: String },
}

/// The model of a [`PlaceQuestion`].
#[verifier::ext_equal]
pub enum PlaceAsked {
    SameSize(Seq<char>, Seq<char>),
    Exists(Seq<char>),
}

impl View for PlaceQuestion {
    type V = PlaceAsked;

    open spec fn view(&self) -> PlaceAsked {
        match self {
            PlaceQuestion::SameSize { a, b } => PlaceAsked::SameSize(a@, b@),
            PlaceQuestion::Exists { path } => PlaceAsked::Exists(path@),
        }
    }
}

/// The true answer to a question.
pub open spec fn place_truth(shelf: Shelf, q: PlaceAsked) -> bool {
    match q {
        PlaceAsked::SameSize(a, b) => (shelf.same_size)(a, b),
        PlaceAsked::Exists(p) => (shelf.present)(p),
    }
}

/// Chooses collision-free places in one directory for RAWs. The machine says
/// what it has to know of the disk ([`Gathering::need`]) and takes the answer
/// ([`Gathering::give`]).
pub struct Gathering {
    out: String,
    raws: Vec<String>,
    at: usize,
    /// The place being tried; 0 while it is not known whether the RAW has been
    /// gathered already.
    n: u32,
    taken: Vec<String>,
    list: Vec<(String, String)>,
}

impl Gathering {
    /// What every state keeps.
    pub closed spec fn wf(self) -> bool {
        &&& self.at <= self.raws@.len()
        &&& self.at < self.raws@.len() && self.n == 0 ==> !text::views(self.taken@).contains(
            nth_place(self.out@, self.raws@[self.at as int]@, 1),
        )
    }

    /// Whether a disk agrees with all the answers that are still of use: the
    /// RAW has not been gathered, and no place before the one being tried is
    /// open.
    pub closed spec fn agrees(self, shelf: Shelf) -> bool {
        self.at < self.raws@.len() && self.n >= 1 ==> {
            let raw = self.raws@[self.at as int]@;
            &&& !gathered_before(self.out@, raw, text::views(self.taken@), shelf)
            &&& forall|m: int|
                1 <= m < self.n ==> !open_place(
                    #[trigger] nth_place(self.out@, raw, m),
                    text::views(self.taken@),
                    shelf,
                )
        }
    }

    /// Whether every RAW has been dealt with.
    pub closed spec fn ended(self) -> bool {
        self.at == self.raws@.len()
    }

    /// The number of the place being tried.
    pub closed spec fn trying(self) -> u32 {
        self.n
    }

    /// How many answers the machine can still take at most: it tries no more
    /// places for a RAW than 32 bits count.
    pub closed spec fn left(self) -> int {
        if self.at >= self.raws@.len() {
            0
        } else {
            (self.raws@.len() - self.at - 1) * 0x1_0000_0000 + (0x1_0000_0000 - self.n)
        }
    }

    /// The gather list that the machine ends with.
    pub closed spec fn outcome(self, shelf: Shelf) -> Seq<(Seq<char>, Seq<char>)> {
        pairs(self.list@) + gather_list(
            text::views(self.raws@),
            self.at as int,
            self.out@,
            text::views(self.taken@),
            shelf,
        )
    }

    /// What has to be known next.
    pub closed spec fn asked(self) -> PlaceAsked {
        let raw = self.raws@[self.at as int]@;
        if self.n == 0 {
            PlaceAsked::SameSize(nth_place(self.out@, raw, 1), raw)
        } else {
            PlaceAsked::Exists(nth_place(self.out@, raw, self.n as int))
        }
    }

    /// Starts with the first RAW.
    pub fn new(out: &str, raws: Vec<String>) -> (r: Gathering)
        ensures
            r.wf(),
            forall|shelf: Shelf| #[trigger] r.agrees(shelf),
            forall|shelf: Shelf|
                #[trigger] r.outcome(shelf) == gather_list(
                    text::views(raws@),
                    0,
                    out@,
                    Seq::empty(),
                    shelf,
                ),
    {
        let g = Gathering {
            out: out.to_owned(),
            raws,
            at: 0,
            n: 0,
            taken: Vec::new(),
            list: Vec::new(),
        };
        proof {
            assert(text::views(g.taken@) =~= Seq::<Seq<char>>::empty());
            assert(pairs(g.list@) =~= Seq::<(Seq<char>, Seq<char>)>::empty());
            assert forall|shelf: Shelf|
                #[trigger] g.outcome(shelf) == gather_list(
                    text::views(raws@),
                    0,
                    out@,
                    Seq::empty(),
                    shelf,
                ) by {
                let l = gather_list(text::views(raws@), 0, out@, Seq::empty(), shelf);
                assert(pairs(g.list@) + l =~= l);
            }
        }
        g
    }

    /// What has to be known of the disk next; `None` at the end.
    pub fn need(&self) -> (r: Option<PlaceQuestion>)
        requires
            self.wf(),
        ensures
            r is None <==> self.ended(),
            r is None <==> self.left() == 0,
            self.left() >= 0,
            r matches Some(q) ==> q@ == self.asked(),
    {
        if self.at == self.raws.len() {
            return None;
        }
        let raw: &str = self.raws[self.at].as_str();
        if self.n == 0 {
            Some(
                PlaceQuestion::SameSize {
                    a: place(self.out.as_str(), raw, 1),
                    b: self.raws[self.at].clone(),
                },
            )
        } else {
            Some(PlaceQuestion::Exists { path: place(self.out.as_str(), raw, self.n) })
        }
    }

    /// Whether the machine can take another answer: places are counted in 32
    /// bits.
    pub fn can_try(&self) -> (r: bool)
        ensures
            r == (self.trying() < u32::MAX),
    {
        self.n < u32::MAX
    }

    /// Takes the answer. For every disk that agrees with all answers so far and
    /// with this one, the machine goes on to the same end as before, and comes
    /// nearer to it: fewer places are left to be tried.
    pub fn give(&mut self, answer: bool)
        requires
            old(self).wf(),
            !old(self).ended(),
            old(self).trying() < u32::MAX,
        ensures
            final(self).wf(),
            0 <= final(self).left() < old(self).left(),
            forall|shelf: Shelf|
                old(self).agrees(shelf) && place_truth(shelf, old(self).asked()) == answer
                    ==> #[trigger] final(self).agrees(shelf) && final(self).outcome(shelf) == old(
                    self,
                ).outcome(shelf),
    {
        let ghost before = *self;
        let ghost raws = text::views(self.raws@);
        let ghost raw = self.raws@[self.at as int]@;
        let ghost taken = text::views(self.taken@);
        proof {
            assert(raws[self.at as int] == raw);
        }
        if self.n == 0 {
            if answer {
                // Already present with matching size.
                self.step();
                proof {
                    assert forall|shelf: Shelf|
                        before.agrees(shelf) && place_truth(shelf, before.asked())
                            == answer implies #[trigger] self.agrees(shelf) && self.outcome(shelf)
                        == before.outcome(shelf) by {
                        assert(place_for(before.out@, raw, taken, shelf) is None);
                    }
                }
            } else {
                self.n = 1;
            }
            return;
        }
        let p: String = place(self.out.as_str(), self.raws[self.at].as_str(), self.n);
        if !answer && !text::list_has(&self.taken, p.as_str()) {
            let item: (String, String) = (self.raws[self.at].clone(), p.clone());
            proof {
                text::lemma_views_push(self.taken@, p);
                assert(pairs(self.list@.push(item)) =~= pairs(self.list@).push(
                    (item.0@, item.1@),
                ));
            }
            self.taken.push(p);
            self.list.push(item);
            self.step();
            proof {
                assert forall|shelf: Shelf|
                    before.agrees(shelf) && place_truth(shelf, before.asked())
                        == answer implies #[trigger] self.agrees(shelf) && self.outcome(shelf)
                    == before.outcome(shelf) by {
                    assert(first_open(before.out@, raw, taken, shelf, before.n as int));
                    lemma_first_open(before.out@, raw, taken, shelf, before.n as int);
                    let n = choose|n: int| first_open(before.out@, raw, taken, shelf, n);
                    assert(n == before.n);
                    assert(place_for(before.out@, raw, taken, shelf) == Some(item.1@));
                    let rest = gather_list(
                        raws,
                        before.at + 1,
                        before.out@,
                        taken.push(item.1@),
                        shelf,
                    );
                    assert(pairs(before.list@) + (seq![(raw, item.1@)] + rest) =~= pairs(
                        before.list@,
                    ).push((raw, item.1@)) + rest);
                }
            }
        } else {
            self.n = self.n + 1;
        }
    }

    /// The gather list: each RAW that is to be gathered, with its place.
    pub fn finish(self) -> (r: Vec<(String, String)>)
        requires
            self.wf(),
            self.ended(),
        ensures
            forall|shelf: Shelf| pairs(r@) == #[trigger] self.outcome(shelf),
    {
        proof {
            assert forall|shelf: Shelf| pairs(self.list@) == #[trigger] self.outcome(shelf) by {
                assert(pairs(self.list@) =~= self.outcome(shelf));
            }
        }
        self.list
    }

    /// Goes on to the next RAW.
    fn step(&mut self)
        requires
            old(self).at < old(self).raws@.len(),
        ensures
            final(self).wf(),
            final(self).at == old(self).at + 1,
            final(self).raws == old(self).raws,
            final(self).out == old(self).out,
            final(self).taken == old(self).taken,
            final(self).list == old(self).list,
            final(self).n <= 1,
            final(self).n == 1 ==> final(self).at < final(self).raws@.len() && text::views(
                final(self).taken@,
            ).contains(nth_place(final(self).out@, final(self).raws@[final(self).at as int]@, 1)),
    {
        let total: usize = self.raws.len();
        self.at = self.at + 1;
        self.n = 0;
        if self.at < total {
            let first: String = place(self.out.as_str(), self.raws[self.at].as_str(), 1);
            if text::list_has(&self.taken, first.as_str()) {
                self.n = 1;
            }
        }
    }
}

proof fn lemma_first_open(
    out: Seq<char>,
    raw: Seq<char>,
    taken: Seq<Seq<char>>,
    shelf: Shelf,
    n: int,
)
    requires
        first_open(out, raw, taken, shelf, n),
    ensures
        forall|m: int| #[trigger] first_open(out, raw, taken, shelf, m) ==> m == n,
{
    assert forall|m: int| #[trigger] first_open(out, raw, taken, shelf, m) implies m == n by {
        if m < n {
            assert(!open_place(nth_place(out, raw, m), taken, shelf));
        } else if n < m {
            assert(!open_place(nth_place(out, raw, n), taken, shelf));
        }
    }
}

/// The `n`-th place for a RAW.
fn place(out: &str, raw: &str, n: u32) -> (r: String)
    ensures
        r@ == nth_place(out@, raw@, n as int),
{
    let name: Option<String> = paths::file_name(raw);
    if n == 1 {
        return match name {
            Some(x) => paths::join(out, x.as_str()),
            None => {
                proof {
                    reveal_strlit("");
                    assert(""@ =~= Seq::<char>::empty());
                }
                paths::join(out, "")
            },
        };
    }
    let mut s: String = match &name {
        Some(x) => paths::stem(x.as_str()),
        None => "file".to_owned(),
    };
    s.append("_");
    s.append(text::unsigned_text(n as u64, 0).as_str());
    match &name {
        Some(x) => match paths::extension(x.as_str()) {
            Some(e) => {
                s.append(".");
                s.append(e.as_str());
            },
            None => {},
        },
        None => {},
    }
    paths::join(out, s.as_str())
}

/// The RAWs of the matched keepers, in order.
pub open spec fn matched_raws(keepers: Seq<(Seq<char>, Found)>) -> Seq<Seq<char>>
    decreases keepers.len(),
{
    if keepers.len() == 0 {
        Seq::empty()
    } else {
        match keepers.last().1 {
            Found::Matched(raw, _) => matched_raws(keepers.drop_last()).push(raw),
            _ => matched_raws(keepers.drop_last()),
        }
    }
}

/// The RAWs to be gathered: those of the matched keepers.
pub fn raws_of(keepers: &Vec<Keeper>) -> (r: Vec<String>)
    ensures
        text::views(r@) == matched_raws(keeper_models(keepers@)),
{
    let ghost all = keeper_models(keepers@);
    let mut r: Vec<String> = Vec::new();
    let mut i: usize = 0;
    proof {
        assert(all.take(0) =~= Seq::<(Seq<char>, Found)>::empty());
        assert(text::views(r@) =~= Seq::<Seq<char>>::empty());
    }
    while i < keepers.len()
        invariant
            i <= keepers@.len(),
            all == keeper_models(keepers@),
            text::views(r@) == matched_raws(all.take(i as int)),
        decreases keepers@.len() - i,
    {
        proof {
            assert(all.take(i + 1).drop_last() =~= all.take(i as int));
            assert(all.take(i + 1).last() == (
                keepers@[i as int].original@,
                keepers@[i as int].resolution@,
            ));
        }
        match &keepers[i].resolution {
            Resolution::Matched { raw, coarse: _ } => {
                let p: String = raw.clone();
                proof {
                    text::lemma_views_push(r@, p);
                }
                r.push(p);
            },
            _ => {},
        }
        i = i + 1;
    }
    proof {
        assert(all.take(all.len() as int) =~= all);
    }
    r
}

// ---------------------------------------------------------------------------
// Words and numbers
// ---------------------------------------------------------------------------

/// The kinds of resolution that are counted.
#[derive(Clone, Copy, PartialEq, Eq, Structural)]
pub enum Tally {
    Matched,
    /// Matched at second precision only.
    Coarse,
    Unmatched,
    Ambiguous,
    Duplicate,
    /// Neither matched nor a duplicate: no RAW, or several.
    Unsettled,
}

/// Whether a resolution counts.
pub open spec fn tallies(t: Tally, f: Found) -> bool {
    match t {
        Tally::Matched => f is Matched,
        Tally::Coarse => f matches Found::Matched(_, c) && c,
        Tally::Unmatched => f is Unmatched,
        Tally::Ambiguous => f is Ambiguous,
        Tally::Duplicate => f is Duplicate,
        Tally::Unsettled => f is Unmatched || f is Ambiguous,
    }
}

/// The number of keepers whose resolution counts.
pub open spec fn tally(keepers: Seq<(Seq<char>, Found)>, t: Tally) -> int
    decreases keepers.len(),
{
    if keepers.len() == 0 {
        0
    } else {
        tally(keepers.drop_last(), t) + if tallies(t, keepers.last().1) {
            1int
        } else {
            0
        }
    }
}

fn counts_as(t: Tally, r: &Resolution) -> (b: bool)
    ensures
        b == tallies(t, r@),
{
    match (t, r) {
        (Tally::Matched, Resolution::Matched { raw: _, coarse: _ }) => true,
        (Tally::Coarse, Resolution::Matched { raw: _, coarse }) => *coarse,
        (Tally::Unmatched, Resolution::Unmatched) => true,
        (Tally::Ambiguous, Resolution::Ambiguous(_)) => true,
        (Tally::Duplicate, Resolution::Duplicate(_)) => true,
        (Tally::Unsettled, Resolution::Unmatched) => true,
        (Tally::Unsettled, Resolution::Ambiguous(_)) => true,
        _ => false,
    }
}

/// The number of keepers whose resolution counts.
pub fn count_keepers(keepers: &Vec<Keeper>, t: Tally) -> (r: usize)
    ensures
        r == tally(keeper_models(keepers@), t),
{
    let ghost all = keeper_models(keepers@);
    let total: usize = keepers.len();
    let mut n: usize = 0;
    let mut i: usize = 0;
    proof {
        assert(all.take(0) =~= Seq::<(Seq<char>, Found)>::empty());
    }
    while i < total
        invariant
            total == keepers@.len(),
            i <= total,
            n <= i,
            all == keeper_models(keepers@),
            n == tally(all.take(i as int), t),
        decreases total - i,
    {
        proof {
            assert(all.take(i + 1).drop_last() =~= all.take(i as int));
            assert(all.take(i + 1).last() == (
                keepers@[i as int].original@,
                keepers@[i as int].resolution@,
            ));
        }
        if counts_as(t, &keepers[i].resolution) {
            n = n + 1;
        }
        i = i + 1;
    }
    proof {
        assert(all.take(all.len() as int) =~= all);
    }
    n
}

/// The number of keepers without a RAW of their own: unmatched or ambiguous.
pub fn unmatched_count(keepers: &Vec<Keeper>) -> (r: usize)
    ensures
        r == tally(keeper_models(keepers@), Tally::Unsettled),
{
    count_keepers(keepers, Tally::Unsettled)
}

/// The exit code of a run: 1 where something failed or a keeper has no RAW of
/// its own.
pub fn exit_code(errors: usize, unmatched: usize) -> (r: i32)
    ensures
        r == (if errors > 0 || unmatched > 0 {
            1i32
        } else {
            0i32
        }),
{
    if errors > 0 || unmatched > 0 {
        1
    } else {
        0
    }
}

/// The word of an action, in the preview and the journal.
pub open spec fn action_word(a: MatchAction) -> Seq<char> {
    match a {
        MatchAction::Copy => "copy"@,
        MatchAction::Move => "move"@,
        MatchAction::Link => "link"@,
    }
}

/// The word of an action, in the preview and the journal.
pub fn op_word(a: MatchAction) -> (r: &'static str)
    ensures
        r@ == action_word(a),
{
    match a {
        MatchAction::Copy => "copy",
        MatchAction::Move => "move",
        MatchAction::Link => "link",
    }
}

/// The engine's action.
pub fn engine_action(a: MatchAction) -> (r: Action)
    ensures
        r == (match a {
            MatchAction::Copy => Action::Copy,
            MatchAction::Move => Action::Move,
            MatchAction::Link => Action::Link,
        }),
{
    match a {
        MatchAction::Copy => Action::Copy,
        MatchAction::Move => Action::Move,
        MatchAction::Link => Action::Link,
    }
}

/// The verb of the final summary.
pub fn done_verb(a: MatchAction) -> (r: &'static str)
    ensures
        r@ == (match a {
            MatchAction::Copy => "Copied"@,
            MatchAction::Move => "Moved"@,
            MatchAction::Link => "Linked"@,
        }),
{
    match a {
        MatchAction::Copy => "Copied",
        MatchAction::Move => "Moved",
        MatchAction::Link => "Linked",
    }
}

/// The file name of a path, or the path itself where it has none.
pub open spec fn short_of(p: Seq<char>) -> Seq<char> {
    match paths::name_of(p) {
        Some(n) => n,
        None => p,
    }
}

/// The file name of a path, or the path itself where it has none.
pub fn short(p: &str) -> (r: String)
    ensures
        r@ == short_of(p@),
{
    match paths::file_name(p) {
        Some(n) => n,
        None => p.to_owned(),
    }
}

// ---------------------------------------------------------------------------
// Preview
// ---------------------------------------------------------------------------

/// The short forms of paths.
pub open spec fn shorts(v: Seq<Seq<char>>) -> Seq<Seq<char>> {
    Seq::new(v.len(), |i: int| short_of(v[i]))
}

/// The line of a keeper in the list of its kind.
pub open spec fn keeper_line(k: (Seq<char>, Found)) -> Seq<char> {
    match k.1 {
        Found::Ambiguous(c) => "      "@ + short_of(k.0) + "  ->  "@ + text::join(
            shorts(c),
            ", "@,
        ),
        Found::Duplicate(raw) => "      "@ + short_of(k.0) + "  ->  "@ + short_of(raw),
        _ => "      "@ + short_of(k.0),
    }
}

/// The lines of the keepers of a kind, in order.
pub open spec fn keeper_lines(keepers: Seq<(Seq<char>, Found)>, t: Tally) -> Seq<Seq<char>>
    decreases keepers.len(),
{
    if keepers.len() == 0 {
        Seq::empty()
    } else if tallies(t, keepers.last().1) {
        keeper_lines(keepers.drop_last(), t).push(keeper_line(keepers.last()))
    } else {
        keeper_lines(keepers.drop_last(), t)
    }
}

/// The section of a kind of keepers: a heading, and at most so many lines.
pub open spec fn section(
    keepers: Seq<(Seq<char>, Found)>,
    t: Tally,
    head: Seq<char>,
    tail: Seq<char>,
    most: int,
) -> Seq<Seq<char>> {
    let lines = keeper_lines(keepers, t);
    let n = tally(keepers, t);
    if n == 0 {
        Seq::empty()
    } else if lines.len() <= most {
        seq![head + text::decimal(n as nat) + tail] + lines
    } else {
        (seq![head + text::decimal(n as nat) + tail] + lines.take(most)).push(
            "      ... and "@ + text::decimal((n - most) as nat) + " more"@,
        )
    }
}

/// The lines of the match summary.
pub open spec fn preview_of(
    keepers: Seq<(Seq<char>, Found)>,
    to_gather: int,
    action: MatchAction,
    out: Seq<char>,
) -> Seq<Seq<char>> {
    let coarse = tally(keepers, Tally::Coarse);
    seq![
        Seq::empty(),
        "Match summary"@,
        "  kept photos : "@ + text::decimal(keepers.len()),
        "  matched RAW : "@ + text::decimal(tally(keepers, Tally::Matched) as nat),
    ] + (if coarse > 0 {
        seq![
            "    (of these, "@ + text::decimal(coarse as nat) + " matched at second precision only)"@,
        ]
    } else {
        Seq::empty()
    }) + seq![
        "  to "@ + text::pad_right(action_word(action), 9) + ": "@ + text::decimal(to_gather as nat)
            + "  ->  "@ + out,
    ] + section(
        keepers,
        Tally::Unmatched,
        "  unmatched   : "@,
        " (no RAW with this capture time)"@,
        20,
    ) + section(
        keepers,
        Tally::Ambiguous,
        "  ambiguous   : "@,
        " (several RAWs share the timestamp)"@,
        keepers.len() as int,
    ) + section(
        keepers,
        Tally::Duplicate,
        "  duplicate   : "@,
        " (keeper resolves to an already-claimed RAW)"@,
        keepers.len() as int,
    )
}

proof fn lemma_lines_tally(keepers: Seq<(Seq<char>, Found)>, t: Tally)
    ensures
        keeper_lines(keepers, t).len() == tally(keepers, t),
        0 <= tally(keepers, t) <= keepers.len(),
    decreases keepers.len(),
{
    if keepers.len() > 0 {
        lemma_lines_tally(keepers.drop_last(), t);
    }
}

fn short_list(v: &Vec<String>) -> (r: Vec<String>)
    ensures
        text::views(r@) == shorts(text::views(v@)),
{
    let mut r: Vec<String> = Vec::new();
    let mut i: usize = 0;
    while i < v.len()
        invariant
            i <= v@.len(),
            r@.len() == i,
            forall|k: int| 0 <= k < i ==> (#[trigger] r@[k])@ == short_of(v@[k]@),
        decreases v@.len() - i,
    {
        r.push(short(v[i].as_str()));
        i = i + 1;
    }
    proof {
        assert(text::views(r@) =~= shorts(text::views(v@)));
    }
    r
}

fn format_keeper(k: &Keeper) -> (r: String)
    ensures
        r@ == keeper_line((k.original@, k.resolution@)),
{
    let mut s: String = "      ".to_owned();
    s.append(short(k.original.as_str()).as_str());
    match &k.resolution {
        Resolution::Ambiguous(c) => {
            s.append("  ->  ");
            s.append(text::join_text(&short_list(c), ", ").as_str());
        },
        Resolution::Duplicate(raw) => {
            s.append("  ->  ");
            s.append(short(raw.as_str()).as_str());
        },
        _ => {},
    }
    s
}

fn format_keepers(keepers: &Vec<Keeper>, t: Tally) -> (r: Vec<String>)
    ensures
        text::views(r@) == keeper_lines(keeper_models(keepers@), t),
{
    let ghost all = keeper_models(keepers@);
    let mut r: Vec<String> = Vec::new();
    let mut i: usize = 0;
    proof {
        assert(all.take(0) =~= Seq::<(Seq<char>, Found)>::empty());
        assert(text::views(r@) =~= Seq::<Seq<char>>::empty());
    }
    while i < keepers.len()
        invariant
            i <= keepers@.len(),
            all == keeper_models(keepers@),
            text::views(r@) == keeper_lines(all.take(i as int), t),
        decreases keepers@.len() - i,
    {
        proof {
            assert(all.take(i + 1).drop_last() =~= all.take(i as int));
            assert(all.take(i + 1).last() == (
                keepers@[i as int].original@,
                keepers@[i as int].resolution@,
            ));
        }
        if counts_as(t, &keepers[i].resolution) {
            text::push_line(&mut r, format_keeper(&keepers[i]));
        }
        i = i + 1;
    }
    proof {
        assert(all.take(all.len() as int) =~= all);
    }
    r
}

/// Adds the section of a kind of keepers.
fn push_section(
    v: &mut Vec<String>,
    keepers: &Vec<Keeper>,
    t: Tally,
    head: &str,
    tail: &str,
    most: usize,
)
    ensures
        text::views(final(v)@) == text::views(old(v)@) + section(
            keeper_models(keepers@),
            t,
            head@,
            tail@,
            most as int,
        ),
{
    let ghost all = keeper_models(keepers@);
    let ghost goal = section(all, t, head@, tail@, most as int);
    let ghost before = text::views(v@);
    proof {
        lemma_lines_tally(all, t);
    }
    let lines: Vec<String> = format_keepers(keepers, t);
    let n: usize = lines.len();
    let ghost texts = text::views(lines@);
    if n == 0 {
        proof {
            assert(text::views(v@) =~= before + goal);
        }
        return;
    }
    let mut h: String = head.to_owned();
    h.append(text::unsigned_text(n as u64, 0).as_str());
    h.append(tail);
    text::push_line(v, h);
    let ghost title = h@;
    let shown: usize = if n <= most {
        n
    } else {
        most
    };
    let mut i: usize = 0;
    proof {
        assert(text::views(v@) =~= before + (seq![title] + texts.take(0)));
    }
    while i < shown
        invariant
            i <= shown <= lines@.len(),
            texts == text::views(lines@),
            text::views(v@) == before + (seq![title] + texts.take(i as int)),
        decreases shown - i,
    {
        let s: String = lines[i].clone();
        proof {
            assert(texts.take(i + 1) =~= texts.take(i as int).push(s@));
        }
        text::push_line(v, s);
        i = i + 1;
        proof {
            assert(text::views(v@) =~= before + (seq![title] + texts.take(i as int)));
        }
    }
    if n > most {
        let mut m: String = "      ... and ".to_owned();
        m.append(text::unsigned_text((n - most) as u64, 0).as_str());
        m.append(" more");
        text::push_line(v, m);
    }
    proof {
        assert(n <= most ==> texts.take(n as int) =~= texts);
        assert(text::views(v@) =~= before + goal);
    }
}

/// The lines of the match summary.
pub fn preview_lines(keepers: &Vec<Keeper>, to_gather: usize, action: MatchAction, out: &str) -> (r:
    Vec<String>)
    ensures
        text::views(r@) == preview_of(
            keeper_models(keepers@),
            to_gather as int,
            action,
            out@,
        ),
{
    let ghost all = keeper_models(keepers@);
    let total: usize = keepers.len();
    let matched: usize = count_keepers(keepers, Tally::Matched);
    let coarse: usize = count_keepers(keepers, Tally::Coarse);
    let mut v: Vec<String> = Vec::new();
    v.push(String::new());
    v.push("Match summary".to_owned());
    let mut a: String = "  kept photos : ".to_owned();
    a.append(text::unsigned_text(total as u64, 0).as_str());
    v.push(a);
    let mut b: String = "  matched RAW : ".to_owned();
    b.append(text::unsigned_text(matched as u64, 0).as_str());
    v.push(b);
    let ghost first = seq![Seq::<char>::empty(), "Match summary"@, a@, b@];
    proof {
        assert(text::views(v@) =~= first);
    }
    let ghost mut second: Seq<Seq<char>> = Seq::empty();
    if coarse > 0 {
        let mut c: String = "    (of these, ".to_owned();
        c.append(text::unsigned_text(coarse as u64, 0).as_str());
        c.append(" matched at second precision only)");
        proof {
            second = seq![c@];
        }
        text::push_line(&mut v, c);
    }
    proof {
        assert(text::views(v@) =~= first + second);
    }
    let mut d: String = "  to ".to_owned();
    d.append(text::pad_right_text(op_word(action), 9).as_str());
    d.append(": ");
    d.append(text::unsigned_text(to_gather as u64, 0).as_str());
    d.append("  ->  ");
    d.append(out);
    let ghost third = seq![d@];
    text::push_line(&mut v, d);
    proof {
        assert(text::views(v@) =~= first + second + third);
    }
    push_section(
        &mut v,
        keepers,
        Tally::Unmatched,
        "  unmatched   : ",
        " (no RAW with this capture time)",
        20,
    );
    push_section(
        &mut v,
        keepers,
        Tally::Ambiguous,
        "  ambiguous   : ",
        " (several RAWs share the timestamp)",
        total,
    );
    push_section(
        &mut v,
        keepers,
        Tally::Duplicate,
        "  duplicate   : ",
        " (keeper resolves to an already-claimed RAW)",
        total,
    );
    v
}

// ---------------------------------------------------------------------------
// Laws
// ---------------------------------------------------------------------------

proof fn lemma_unclaimed(candidates: Seq<Seq<char>>, claimed: Seq<Seq<char>>)
    ensures
        forall|i: int|
            0 <= i < unclaimed(candidates, claimed).len() ==> !claimed.contains(
                #[trigger] unclaimed(candidates, claimed)[i],
            ) && candidates.contains(unclaimed(candidates, claimed)[i]),
    decreases candidates.len(),
{
    if candidates.len() > 0 {
        let t = candidates.drop_last();
        lemma_unclaimed(t, claimed);
        let u = unclaimed(candidates, claimed);
        let w = unclaimed(t, claimed);
        assert forall|i: int| 0 <= i < u.len() implies !claimed.contains(#[trigger] u[i])
            && candidates.contains(u[i]) by {
            if i < w.len() {
                assert(u[i] == w[i]);
                let k = choose|k: int| 0 <= k < t.len() && t[k] == w[i];
                assert(candidates[k] == u[i]);
            } else {
                assert(candidates[candidates.len() - 1] == u[i]);
            }
        }
    }
}

proof fn lemma_with_key(index: Seq<(CaptureKey, Seq<char>)>, key: CaptureKey)
    ensures
        forall|i: int|
            0 <= i < with_key(index, key).len() ==> index.contains(
                (key, #[trigger] with_key(index, key)[i]),
            ),
    decreases index.len(),
{
    if index.len() > 0 {
        let t = index.drop_last();
        lemma_with_key(t, key);
        let a = with_key(index, key);
        let b = with_key(t, key);
        assert forall|i: int| 0 <= i < a.len() implies index.contains((key, #[trigger] a[i])) by {
            if i < b.len() {
                assert(a[i] == b[i]);
                let k = choose|k: int| 0 <= k < t.len() && t[k] == (key, b[i]);
                assert(index[k] == (key, a[i]));
            } else {
                assert(index[index.len() - 1] == (key, a[i]));
            }
        }
    }
}

/// A precise match is the same exposure: a keeper with a millisecond key that
/// is matched at full precision gets a RAW with exactly that key, and one that
/// no other keeper had claimed.
pub proof fn law_precise_match(
    key: CaptureKey,
    index: Seq<(CaptureKey, Seq<char>)>,
    claimed: Seq<Seq<char>>,
    raw: Seq<char>,
)
    requires
        resolved(KeeperKey::Precise(key), index, claimed) == Found::Matched(raw, false),
    ensures
        index.contains((key, raw)),
        !claimed.contains(raw),
{
    let exact = with_key(index, key);
    lemma_with_key(index, key);
    lemma_unclaimed(exact, claimed);
    let free = unclaimed(exact, claimed);
    assert(exact.contains(free[0]));
    let k = choose|k: int| 0 <= k < exact.len() && exact[k] == raw;
    assert(index.contains((key, exact[k])));
}

/// No RAW is given to two keepers.
pub proof fn law_no_raw_twice(
    items: Seq<(Seq<char>, KeeperKey)>,
    index: Seq<(CaptureKey, Seq<char>)>,
    i: int,
    j: int,
    raw: Seq<char>,
)
    requires
        0 <= i < j < items.len(),
        all_resolved(items, index).0[i].1 matches Found::Matched(r, _) && r == raw,
    ensures
        all_resolved(items, index).0[j].1 matches Found::Matched(r, _) ==> r != raw,
    decreases items.len(),
{
    let t = items.drop_last();
    lemma_resolved_len(items, index);
    lemma_resolved_len(t, index);
    let all = all_resolved(items, index).0;
    let head = all_resolved(t, index).0;
    let claimed = all_resolved(t, index).1;
    if j < t.len() {
        assert(all[i] == head[i] && all[j] == head[j]);
        law_no_raw_twice(t, index, i, j, raw);
    } else {
        assert(all[i] == head[i]);
        lemma_matched_claimed(t, index, i, raw);
        let k = items.last().1;
        let f = resolved(k, index, claimed);
        assert(all[j].1 == f);
        match k {
            KeeperKey::Precise(key) => {
                lemma_unclaimed(with_key(index, key), claimed);
                lemma_unclaimed(with_second(index, key.dt), claimed);
            },
            KeeperKey::Coarse(dt) => {
                lemma_unclaimed(with_second(index, dt), claimed);
            },
            KeeperKey::Unknown => {},
        }
    }
}

proof fn lemma_resolved_len(
    items: Seq<(Seq<char>, KeeperKey)>,
    index: Seq<(CaptureKey, Seq<char>)>,
)
    ensures
        all_resolved(items, index).0.len() == items.len(),
    decreases items.len(),
{
    if items.len() > 0 {
        lemma_resolved_len(items.drop_last(), index);
    }
}

proof fn lemma_matched_claimed(
    items: Seq<(Seq<char>, KeeperKey)>,
    index: Seq<(CaptureKey, Seq<char>)>,
    i: int,
    raw: Seq<char>,
)
    requires
        0 <= i < items.len(),
        all_resolved(items, index).0[i].1 matches Found::Matched(r, _) && r == raw,
    ensures
        all_resolved(items, index).1.contains(raw),
    decreases items.len(),
{
    let t = items.drop_last();
    lemma_resolved_len(t, index);
    let claimed = all_resolved(t, index).1;
    let f = resolved(items.last().1, index, claimed);
    let after = claims(claimed, f);
    if i < t.len() {
        assert(all_resolved(items, index).0[i] == all_resolved(t, index).0[i]);
        lemma_matched_claimed(t, index, i, raw);
        let k = choose|k: int| 0 <= k < claimed.len() && claimed[k] == raw;
        assert(after[k] == raw);
    } else {
        assert(all_resolved(items, index).0[i].1 == f);
        assert(after[claimed.len() as int] == raw);
    }
}

/// Whether some place for a RAW is open.
pub open spec fn finds_place(
    out: Seq<char>,
    raw: Seq<char>,
    taken: Seq<Seq<char>>,
    shelf: Shelf,
) -> bool {
    exists|n: int| first_open(out, raw, taken, shelf, n)
}

/// Nothing is overwritten by gathering: where every RAW of the list finds a
/// place in the end, each that is gathered goes to a place where nothing is,
/// and no two go to one place.
pub proof fn law_gathered_apart(raws: Seq<Seq<char>>, out: Seq<char>, shelf: Shelf, j: int)
    requires
        forall|k: int, taken: Seq<Seq<char>>|
            0 <= k < raws.len() ==> #[trigger] finds_place(out, raws[k], taken, shelf),
        0 <= j < gather_list(raws, 0, out, Seq::empty(), shelf).len(),
    ensures
        ({
            let list = gather_list(raws, 0, out, Seq::empty(), shelf);
            &&& !(shelf.present)(list[j].1)
            &&& forall|i: int|
                0 <= i < list.len() && i != j ==> (#[trigger] list[i]).1 != list[j].1
        }),
{
    lemma_gathered_apart(raws, 0, out, Seq::empty(), shelf);
}

proof fn lemma_gathered_apart(
    raws: Seq<Seq<char>>,
    k: int,
    out: Seq<char>,
    taken: Seq<Seq<char>>,
    shelf: Shelf,
)
    requires
        0 <= k,
        forall|k: int, taken: Seq<Seq<char>>|
            0 <= k < raws.len() ==> #[trigger] finds_place(out, raws[k], taken, shelf),
    ensures
        forall|j: int|
            0 <= j < gather_list(raws, k, out, taken, shelf).len() ==> !(shelf.present)(
                (#[trigger] gather_list(raws, k, out, taken, shelf)[j]).1,
            ) && !taken.contains(gather_list(raws, k, out, taken, shelf)[j].1),
        forall|i: int, j: int|
            0 <= i < j < gather_list(raws, k, out, taken, shelf).len() ==> (
            #[trigger] gather_list(raws, k, out, taken, shelf)[i]).1 != (
            #[trigger] gather_list(raws, k, out, taken, shelf)[j]).1,
    decreases raws.len() - k,
{
    if k < raws.len() {
        let all = gather_list(raws, k, out, taken, shelf);
        match place_for(out, raws[k], taken, shelf) {
            None => {
                lemma_gathered_apart(raws, k + 1, out, taken, shelf);
                assert(all == gather_list(raws, k + 1, out, taken, shelf));
            },
            Some(p) => {
                let more = taken.push(p);
                let rest = gather_list(raws, k + 1, out, more, shelf);
                lemma_gathered_apart(raws, k + 1, out, more, shelf);
                assert(all == seq![(raws[k], p)] + rest);
                assert(finds_place(out, raws[k], taken, shelf));
                let n = choose|n: int| first_open(out, raws[k], taken, shelf, n);
                assert(first_open(out, raws[k], taken, shelf, n));
                assert(more[taken.len() as int] == p);
                assert forall|x: Seq<char>| taken.contains(x) implies #[trigger] more.contains(
                    x,
                ) by {
                    let m = choose|m: int| 0 <= m < taken.len() && taken[m] == x;
                    assert(more[m] == x);
                }
                assert forall|j: int| 0 <= j < all.len() implies !(shelf.present)(
                    (#[trigger] all[j]).1,
                ) && !taken.contains(all[j].1) by {
                    if j > 0 {
                        assert(all[j] == rest[j - 1]);
                        assert(!more.contains(rest[j - 1].1));
                    }
                }
                assert forall|i: int, j: int| 0 <= i < j < all.len() implies (#[trigger] all[i]).1
                    != (#[trigger] all[j]).1 by {
                    assert(all[j] == rest[j - 1]);
                    if i > 0 {
                        assert(all[i] == rest[i - 1]);
                    } else {
                        assert(!more.contains(rest[j - 1].1));
                        assert(more.contains(p));
                    }
                }
            },
        }
    } else {
        assert(gather_list(raws, k, out, taken, shelf).len() == 0);
    }
}

} // verus!
