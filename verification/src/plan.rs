//! Turn scanned files into groups: the files of one shot, with their date, the
//! folder they go to and their number.
//!
//! What the disk knows is asked for, never read here: [`Dating`] asks for the
//! metadata of files, [`Numbering`] for the file names already in a folder.
//! [`crate::target`] decides where each file goes.

use vstd::prelude::*;

use crate::cli::{DateSourceArg, OnMissingDateArg};
use crate::clock;
use crate::clock::Moment;
use crate::config;
use crate::config::{ConfigModel, RunConfig};
use crate::filetype;
use crate::order;
use crate::order::Ranks;
use crate::paths;
use crate::paths::{Component, Part};
use crate::series;
use crate::template;
use crate::template::{Ctx, CtxModel};
use crate::text;
use crate::types;
use crate::types::{CaptureInfo, DateProvenance, FileKind, FileModel, InfoModel, MediaFile};

verus! {

/// One shot's worth of files that must stay together (same folder, same base
/// name): a RAW/JPEG pair, optionally with an `.xmp` sidecar.
pub struct Group {
    pub files: Vec<MediaFile>,
    pub date: Option<Moment>,
    pub provenance: DateProvenance,
    pub make: String,
    pub model: String,
    /// Destination folder relative to dest (`2026/2026-06-20` or `NoDate`).
    pub folder: String,
    pub use_name_template: bool,
    /// Whole-group skip (no date + on-missing-date=skip).
    pub skip_no_date: bool,
    pub rep_stem: String,
    pub sort_key: Moment,
    pub counter: u32,
}

/// The model of a [`Group`].
#[verifier::ext_equal]
pub struct GroupModel {
    pub files: Seq<FileModel>,
    pub date: Option<Moment>,
    pub provenance: DateProvenance,
    pub make: Seq<char>,
    pub model: Seq<char>,
    pub folder: Seq<char>,
    pub use_name_template: bool,
    pub skip_no_date: bool,
    pub rep_stem: Seq<char>,
    pub sort_key: Moment,
    pub counter: u32,
}

impl View for Group {
    type V = GroupModel;

    open spec fn view(&self) -> GroupModel {
        GroupModel {
            files: types::file_models(self.files@),
            date: self.date,
            provenance: self.provenance,
            make: self.make@,
            model: self.model@,
            folder: self.folder@,
            use_name_template: self.use_name_template,
            skip_no_date: self.skip_no_date,
            rep_stem: self.rep_stem@,
            sort_key: self.sort_key,
            counter: self.counter,
        }
    }
}

/// The models of a list of groups.
pub open spec fn group_models(v: Seq<Group>) -> Seq<GroupModel> {
    Seq::new(v.len(), |i: int| v[i]@)
}

// ---------------------------------------------------------------------------
// Keys
// ---------------------------------------------------------------------------

/// The stem under which a file is grouped: that of a sidecar without a media
/// extension of its own, so that `IMG.ARW.xmp` goes with `IMG.ARW`.
pub open spec fn group_stem(f: FileModel) -> Seq<char> {
    let k = text::rfind(f.stem, '.');
    if f.kind == FileKind::Sidecar && k >= 0 {
        match filetype::kind_of(text::ascii_lower(f.stem.skip(k + 1))) {
            Some(kind) => if kind == FileKind::Sidecar {
                f.stem
            } else {
                f.stem.take(k)
            },
            None => f.stem,
        }
    } else {
        f.stem
    }
}

/// What the files of one shot have in common: the parent directory and the
/// normalized stem.
#[verifier::ext_equal]
pub struct KeyModel {
    pub parent: Seq<Part>,
    pub stem: Seq<char>,
}

/// The key of a file.
pub open spec fn key_of(f: FileModel) -> KeyModel {
    KeyModel { parent: paths::parts(f.parent), stem: group_stem(f) }
}

/// The rank of a kind of component.
pub open spec fn part_rank(p: Part) -> int {
    match p {
        Part::Root => 0,
        Part::Here => 1,
        Part::Up => 2,
        Part::Name(_) => 3,
    }
}

/// Whether one component comes before another.
pub open spec fn part_ahead(a: Part, b: Part) -> bool {
    match (a, b) {
        (Part::Name(x), Part::Name(y)) => text::precedes(x, y),
        _ => part_rank(a) < part_rank(b),
    }
}

/// Whether one path comes before another, component by component.
pub open spec fn path_ahead(a: Seq<Part>, b: Seq<Part>) -> bool
    decreases a.len(),
{
    if b.len() == 0 {
        false
    } else if a.len() == 0 {
        true
    } else if a[0] != b[0] {
        part_ahead(a[0], b[0])
    } else {
        path_ahead(a.skip(1), b.skip(1))
    }
}

/// Whether one key comes before another.
pub open spec fn key_ahead(a: KeyModel, b: KeyModel) -> bool {
    if a.parent == b.parent {
        text::precedes(a.stem, b.stem)
    } else {
        path_ahead(a.parent, b.parent)
    }
}

/// The order of files by key.
pub open spec fn by_key(files: Seq<FileModel>) -> spec_fn(int, int) -> bool {
    |i: int, j: int| key_ahead(key_of(files[i]), key_of(files[j]))
}

/// Strip a trailing media extension from a sidecar stem so `IMG.ARW.xmp`
/// groups with `IMG.ARW` (→ key stem `IMG`).
pub fn normalized_stem(f: &MediaFile) -> (r: String)
    ensures
        r@ == group_stem(f@),
{
    if f.kind == FileKind::Sidecar {
        let v: Vec<char> = text::chars_of(f.stem.as_str());
        let n: usize = v.len();
        match text::find_last(&v, '.') {
            Some(k) => {
                proof {
                    text::lemma_rfind(v@, '.');
                    assert(v@.skip(k + 1) =~= v@.subrange(k + 1, n as int));
                    assert(v@.take(k as int) =~= v@.subrange(0, k as int));
                }
                let ext: String = text::string_of(
                    &text::lower_chars(&text::slice_chars(&v, k + 1, n)),
                );
                match filetype::classify(ext.as_str()) {
                    Some(kind) => if kind != FileKind::Sidecar {
                        return text::string_of(&text::slice_chars(&v, 0, k));
                    },
                    None => {},
                }
            },
            None => {},
        }
    }
    f.stem.clone()
}

struct FileKey {
    parent: Vec<Component>,
    stem: String,
}

impl View for FileKey {
    type V = KeyModel;

    closed spec fn view(&self) -> KeyModel {
        KeyModel { parent: paths::part_views(self.parent@), stem: self.stem@ }
    }
}

/// The key of a file.
fn file_key(f: &MediaFile) -> (r: FileKey)
    ensures
        r@ == key_of(f@),
{
    FileKey { parent: paths::components(f.parent.as_str()), stem: normalized_stem(f) }
}

fn component_ahead(a: &Component, b: &Component) -> (r: bool)
    ensures
        r == part_ahead(a@, b@),
{
    match (a, b) {
        (Component::Name(x), Component::Name(y)) => text::text_precedes(x.as_str(), y.as_str()),
        _ => component_rank(a) < component_rank(b),
    }
}

fn component_rank(a: &Component) -> (r: u8)
    ensures
        r == part_rank(a@),
{
    match a {
        Component::Root => 0,
        Component::Here => 1,
        Component::Up => 2,
        Component::Name(_) => 3,
    }
}

/// How two lists of components compare.
#[derive(PartialEq, Eq, Structural)]
enum Compared {
    Equal,
    Ahead,
    Behind,
}

fn compare_paths(a: &Vec<Component>, b: &Vec<Component>) -> (r: Compared)
    ensures
        (r == Compared::Equal) == (paths::part_views(a@) == paths::part_views(b@)),
        (r == Compared::Ahead) == path_ahead(paths::part_views(a@), paths::part_views(b@)),
{
    let ghost x = paths::part_views(a@);
    let ghost y = paths::part_views(b@);
    let mut i: usize = 0;
    proof {
        assert(x.skip(0) =~= x);
        assert(y.skip(0) =~= y);
    }
    loop
        invariant
            x == paths::part_views(a@),
            y == paths::part_views(b@),
            i <= a@.len(),
            i <= b@.len(),
            x.take(i as int) == y.take(i as int),
            path_ahead(x, y) == path_ahead(x.skip(i as int), y.skip(i as int)),
        decreases a@.len() - i,
    {
        if i == b.len() {
            if i == a.len() {
                proof {
                    assert(x =~= x.take(i as int));
                    assert(y =~= y.take(i as int));
                }
                return Compared::Equal;
            }
            return Compared::Behind;
        }
        if i == a.len() {
            return Compared::Ahead;
        }
        proof {
            assert(x.skip(i as int)[0] == a@[i as int]@);
            assert(y.skip(i as int)[0] == b@[i as int]@);
        }
        if !paths::same_component(&a[i], &b[i]) {
            proof {
                assert(x[i as int] != y[i as int]);
            }
            if component_ahead(&a[i], &b[i]) {
                return Compared::Ahead;
            }
            return Compared::Behind;
        }
        proof {
            assert(x.skip(i as int).skip(1) =~= x.skip(i + 1));
            assert(y.skip(i as int).skip(1) =~= y.skip(i + 1));
            assert(x.take(i + 1) =~= x.take(i as int).push(x[i as int]));
            assert(y.take(i + 1) =~= y.take(i as int).push(y[i as int]));
        }
        i = i + 1;
    }
}

fn same_key(a: &FileKey, b: &FileKey) -> (r: bool)
    ensures
        r == (a@ == b@),
{
    match compare_paths(&a.parent, &b.parent) {
        Compared::Equal => text::same(a.stem.as_str(), b.stem.as_str()),
        _ => false,
    }
}

struct FileKeys {
    keys: Vec<FileKey>,
    files: Ghost<Seq<FileModel>>,
}

impl FileKeys {
    spec fn wf(self) -> bool {
        &&& self.keys@.len() == self.files@.len()
        &&& forall|i: int|
            0 <= i < self.keys@.len() ==> (#[trigger] self.keys@[i])@ == key_of(self.files@[i])
    }
}

impl Ranks for FileKeys {
    closed spec fn count(&self) -> nat {
        if self.wf() {
            self.files@.len()
        } else {
            0
        }
    }

    closed spec fn ahead(&self) -> spec_fn(int, int) -> bool {
        by_key(self.files@)
    }

    fn is_ahead(&self, i: usize, j: usize) -> (r: bool) {
        match compare_paths(&self.keys[i].parent, &self.keys[j].parent) {
            Compared::Equal => text::text_precedes(
                self.keys[i].stem.as_str(),
                self.keys[j].stem.as_str(),
            ),
            Compared::Ahead => true,
            Compared::Behind => false,
        }
    }
}

// ---------------------------------------------------------------------------
// Grouping
// ---------------------------------------------------------------------------

/// Whether a file passes the filter: a sidecar always does, a primary file by
/// the extension list, or where there is none, by its type.
pub open spec fn passes(f: FileModel, cfg: ConfigModel) -> bool {
    f.kind == FileKind::Sidecar || match cfg.ext_whitelist {
        Some(white) => exists|i: int|
            0 <= i < white.len() && text::ascii_lower(#[trigger] white[i]) == text::ascii_lower(
                f.ext,
            ),
        None => filetype::kind_passes(f.kind, cfg.kinds),
    }
}

/// True if a primary file passes the type / ext filter. Sidecars always pass.
pub fn is_selected(m: &MediaFile, cfg: &RunConfig) -> (r: bool)
    ensures
        r == passes(m@, cfg@),
{
    if m.kind == FileKind::Sidecar {
        return true;
    }
    match &cfg.ext_whitelist {
        None => filetype::kind_selected(m.kind, &cfg.kinds),
        Some(white) => {
            let ghost list = text::views(white@);
            proof {
                assert(cfg@.ext_whitelist == Some(list));
            }
            let mut i: usize = 0;
            while i < white.len()
                invariant
                    i <= white@.len(),
                    list == text::views(white@),
                    cfg@.ext_whitelist == Some(list),
                    forall|j: int|
                        0 <= j < i ==> text::ascii_lower(#[trigger] list[j]) != text::ascii_lower(
                            m@.ext,
                        ),
                decreases white@.len() - i,
            {
                if text::eq_ignore_case(white[i].as_str(), m.ext.as_str()) {
                    proof {
                        let w = cfg@.ext_whitelist->0;
                        assert(text::ascii_lower(w[i as int]) == text::ascii_lower(m@.ext));
                    }
                    return true;
                }
                proof {
                    assert(list[i as int] == white@[i as int]@);
                }
                i = i + 1;
            }
            false
        },
    }
}

/// The maximal runs of files with equal keys.
pub open spec fn runs(s: Seq<FileModel>) -> Seq<Seq<FileModel>>
    decreases s.len(),
{
    if s.len() == 0 {
        Seq::empty()
    } else {
        let r = runs(s.drop_last());
        if s.len() > 1 && key_of(s[s.len() - 2]) == key_of(s.last()) {
            r.drop_last().push(r.last().push(s.last()))
        } else {
            r.push(seq![s.last()])
        }
    }
}

/// Whether a file is a primary one: not a sidecar.
pub open spec fn primary(f: FileModel) -> bool {
    f.kind != FileKind::Sidecar
}

/// Whether a run of files holds a primary file that passes the filter.
pub open spec fn worth_it(run: Seq<FileModel>, cfg: ConfigModel) -> bool {
    exists|i: int| 0 <= i < run.len() && primary(#[trigger] run[i]) && passes(run[i], cfg)
}

/// The files of a run that stay: sidecars, and what passes the filter.
pub open spec fn kept(run: Seq<FileModel>, cfg: ConfigModel) -> Seq<FileModel>
    decreases run.len(),
{
    if run.len() == 0 {
        run
    } else if !primary(run.last()) || passes(run.last(), cfg) {
        kept(run.drop_last(), cfg).push(run.last())
    } else {
        kept(run.drop_last(), cfg)
    }
}

/// The stem of the first primary file, empty where there is none.
pub open spec fn first_stem(files: Seq<FileModel>) -> Seq<char>
    decreases files.len(),
{
    if files.len() == 0 {
        Seq::empty()
    } else if primary(files[0]) {
        files[0].stem
    } else {
        first_stem(files.skip(1))
    }
}

/// A group that nothing is known of yet but its files.
pub open spec fn fresh_group(files: Seq<FileModel>) -> GroupModel {
    GroupModel {
        files,
        date: None,
        provenance: DateProvenance::Absent,
        make: Seq::empty(),
        model: Seq::empty(),
        folder: Seq::empty(),
        use_name_template: false,
        skip_no_date: false,
        rep_stem: first_stem(files),
        sort_key: clock::epoch(),
        counter: 0,
    }
}

/// The groups that runs of files make. A run without a primary file that
/// passes the filter makes none.
pub open spec fn groups_of(r: Seq<Seq<FileModel>>, cfg: ConfigModel) -> Seq<GroupModel>
    decreases r.len(),
{
    if r.len() == 0 {
        Seq::empty()
    } else if worth_it(r.last(), cfg) {
        groups_of(r.drop_last(), cfg).push(fresh_group(kept(r.last(), cfg)))
    } else {
        groups_of(r.drop_last(), cfg)
    }
}

/// The groups of a scan, in the order of their keys. The files of a group keep
/// the order of the scan.
pub open spec fn grouped(files: Seq<FileModel>, cfg: ConfigModel) -> Seq<GroupModel> {
    groups_of(runs(order::arranged(files, by_key(files))), cfg)
}

/// The stem of the first primary file.
fn representative(files: &Vec<MediaFile>) -> (r: String)
    ensures
        r@ == first_stem(types::file_models(files@)),
{
    let ghost m = types::file_models(files@);
    let mut i: usize = 0;
    proof {
        assert(m.skip(0) =~= m);
    }
    while i < files.len()
        invariant
            i <= files@.len(),
            m == types::file_models(files@),
            first_stem(m) == first_stem(m.skip(i as int)),
        decreases files@.len() - i,
    {
        proof {
            assert(m.skip(i as int)[0] == files@[i as int]@);
            assert(m.skip(i as int).skip(1) =~= m.skip(i + 1));
        }
        if files[i].kind != FileKind::Sidecar {
            return files[i].stem.clone();
        }
        i = i + 1;
    }
    String::new()
}

/// Adds the group of a run to the list, where the run is worth it.
fn add_group(groups: &mut Vec<Group>, run: &Vec<MediaFile>, cfg: &RunConfig, Ghost(done): Ghost<
    Seq<Seq<FileModel>>,
>)
    requires
        group_models(old(groups)@) == groups_of(done, cfg@),
    ensures
        group_models(final(groups)@) == groups_of(
            done.push(types::file_models(run@)),
            cfg@,
        ),
{
    let ghost m = types::file_models(run@);
    let mut found: bool = false;
    let mut files: Vec<MediaFile> = Vec::new();
    let mut i: usize = 0;
    proof {
        assert(types::file_models(files@) =~= kept(m.take(0), cfg@));
    }
    while i < run.len()
        invariant
            i <= run@.len(),
            m == types::file_models(run@),
            found == worth_it(m.take(i as int), cfg@),
            types::file_models(files@) == kept(m.take(i as int), cfg@),
        decreases run@.len() - i,
    {
        let selected: bool = is_selected(&run[i], cfg);
        let main: bool = run[i].kind != FileKind::Sidecar;
        let ghost before = m.take(i as int);
        let ghost after = m.take(i + 1);
        proof {
            assert(after.drop_last() =~= before);
            assert(after.last() == run@[i as int]@);
            if worth_it(before, cfg@) {
                let k = choose|k: int|
                    0 <= k < before.len() && primary(#[trigger] before[k]) && passes(
                        before[k],
                        cfg@,
                    );
                assert(after[k] == before[k]);
            }
            if worth_it(after, cfg@) {
                let k = choose|k: int|
                    0 <= k < after.len() && primary(#[trigger] after[k]) && passes(after[k], cfg@);
                if k < i {
                    assert(before[k] == after[k]);
                }
            }
            if main && selected {
                assert(primary(after[i as int]) && passes(after[i as int], cfg@));
            }
        }
        if main && selected {
            found = true;
        }
        if !main || selected {
            let ghost held = files@;
            let f: MediaFile = run[i].copied();
            proof {
                assert(types::file_models(held.push(f)) =~= types::file_models(held).push(f@));
            }
            files.push(f);
        }
        i = i + 1;
    }
    proof {
        assert(m.take(m.len() as int) =~= m);
        assert(done.push(m).drop_last() =~= done);
    }
    if found {
        let rep_stem: String = representative(&files);
        let g = Group {
            files,
            date: None,
            provenance: DateProvenance::Absent,
            make: String::new(),
            model: String::new(),
            folder: String::new(),
            use_name_template: false,
            skip_no_date: false,
            rep_stem,
            sort_key: clock::epoch_moment(),
            counter: 0,
        };
        let ghost held = groups@;
        proof {
            assert(g@ =~= fresh_group(kept(m, cfg@)));
            assert(group_models(held.push(g)) =~= group_models(held).push(g@));
        }
        groups.push(g);
    }
}

/// The keys of a list of files.
fn file_keys(files: &Vec<MediaFile>) -> (r: FileKeys)
    ensures
        r.wf(),
        r.files@ == types::file_models(files@),
{
    let ghost all = types::file_models(files@);
    let mut keys: Vec<FileKey> = Vec::new();
    let mut i: usize = 0;
    while i < files.len()
        invariant
            i <= files@.len(),
            all == types::file_models(files@),
            keys@.len() == i,
            forall|j: int| 0 <= j < i ==> (#[trigger] keys@[j])@ == key_of(all[j]),
        decreases files@.len() - i,
    {
        keys.push(file_key(&files[i]));
        i = i + 1;
    }
    FileKeys { keys, files: Ghost(all) }
}

/// Copies of the files in the given order.
pub(crate) fn files_in_order(files: &Vec<MediaFile>, ranks: &Vec<usize>, Ghost(ahead): Ghost<
    spec_fn(int, int) -> bool,
>) -> (r: Vec<MediaFile>)
    requires
        ranks@.len() == files@.len(),
        order::positions(ranks@) == order::ranking(files@.len(), ahead),
        order::is_permutation(order::positions(ranks@), files@.len()),
    ensures
        types::file_models(r@) == order::arranged(types::file_models(files@), ahead),
{
    let ghost all = types::file_models(files@);
    let mut r: Vec<MediaFile> = Vec::new();
    let mut k: usize = 0;
    while k < ranks.len()
        invariant
            k <= ranks@.len(),
            ranks@.len() == files@.len(),
            all == types::file_models(files@),
            order::positions(ranks@) == order::ranking(files@.len(), ahead),
            order::is_permutation(order::positions(ranks@), files@.len()),
            types::file_models(r@) == order::arranged(all, ahead).take(k as int),
        decreases ranks@.len() - k,
    {
        proof {
            assert(0 <= order::positions(ranks@)[k as int] < files@.len());
            assert(order::positions(ranks@)[k as int] == ranks@[k as int]);
        }
        let f: MediaFile = files[ranks[k]].copied();
        proof {
            let s = order::arranged(all, ahead);
            assert(s[k as int] == f@);
            assert(types::file_models(r@.push(f)) =~= types::file_models(r@).push(f@));
            assert(s.take(k + 1) =~= s.take(k as int).push(s[k as int]));
        }
        r.push(f);
        k = k + 1;
    }
    proof {
        let s = order::arranged(all, ahead);
        assert(s.take(s.len() as int) =~= s);
    }
    r
}

/// The groups of files that are in the order of their keys.
fn collect_groups(files: &Vec<MediaFile>, cfg: &RunConfig) -> (r: Vec<Group>)
    ensures
        group_models(r@) == groups_of(runs(types::file_models(files@)), cfg@),
{
    let ghost sorted = types::file_models(files@);
    let n: usize = files.len();
    let mut groups: Vec<Group> = Vec::new();
    let mut run: Vec<MediaFile> = Vec::new();
    let mut k: usize = 0;
    proof {
        assert(sorted.take(0) =~= Seq::<FileModel>::empty());
        assert(group_models(groups@) =~= Seq::<GroupModel>::empty());
    }
    while k < n
        invariant
            n == files@.len(),
            k <= n,
            sorted == types::file_models(files@),
            k == 0 ==> groups@.len() == 0 && run@.len() == 0,
            k > 0 ==> {
                let r = runs(sorted.take(k as int));
                &&& r.len() > 0
                &&& types::file_models(run@) == r.last()
                &&& group_models(groups@) == groups_of(r.drop_last(), cfg@)
            },
        decreases n - k,
    {
        let ghost before = runs(sorted.take(k as int));
        proof {
            let t = sorted.take(k + 1);
            assert(t.drop_last() =~= sorted.take(k as int));
            assert(t.last() == files@[k as int]@);
            if k > 0 {
                assert(t[t.len() - 2] == files@[k - 1]@);
            }
        }
        if k > 0 && !same_key(&file_key(&files[k - 1]), &file_key(&files[k])) {
            add_group(&mut groups, &run, cfg, Ghost(before.drop_last()));
            run = Vec::new();
            proof {
                assert(before.drop_last().push(before.last()) =~= before);
            }
        }
        let ghost held = run@;
        let f: MediaFile = files[k].copied();
        run.push(f);
        proof {
            assert(types::file_models(run@) =~= types::file_models(held).push(f@));
            let r = runs(sorted.take(k + 1));
            if k == 0 {
                assert(r.drop_last() =~= Seq::<Seq<FileModel>>::empty());
                assert(group_models(groups@) =~= Seq::<GroupModel>::empty());
                assert(types::file_models(run@) =~= r.last());
            } else if key_of(files@[k - 1]@) == key_of(f@) {
                assert(r.drop_last() =~= before.drop_last());
            } else {
                assert(r.drop_last() =~= before);
                assert(types::file_models(run@) =~= r.last());
            }
        }
        k = k + 1;
    }
    proof {
        assert(sorted.take(n as int) =~= sorted);
    }
    if n > 0 {
        let ghost r = runs(sorted);
        add_group(&mut groups, &run, cfg, Ghost(r.drop_last()));
        proof {
            assert(r.drop_last().push(r.last()) =~= r);
        }
    } else {
        proof {
            assert(group_models(groups@) =~= Seq::<GroupModel>::empty());
        }
    }
    groups
}

/// Group by (parent, normalized stem) so RAW+JPEG+XMP of one shot stay
/// together. Primaries that the filter drops are left out, and so is a shot
/// that keeps no primary.
pub fn group_files(files: &Vec<MediaFile>, cfg: &RunConfig) -> (r: Vec<Group>)
    ensures
        group_models(r@) == grouped(types::file_models(files@), cfg@),
{
    let ghost all = types::file_models(files@);
    let table: FileKeys = file_keys(files);
    let ranks: Vec<usize> = order::rank(&table, files.len());
    let sorted: Vec<MediaFile> = files_in_order(files, &ranks, Ghost(by_key(all)));
    collect_groups(&sorted, cfg)
}

// ---------------------------------------------------------------------------
// Dates and folders
// ---------------------------------------------------------------------------

/// The folder of shots without a date.
pub open spec fn no_date() -> Seq<char> {
    "NoDate"@
}

/// The components of a rendered folder template: what stands between the
/// separators, sanitized; empty pieces do not count.
pub open spec fn folder_parts(pieces: Seq<Seq<char>>) -> Seq<Seq<char>>
    decreases pieces.len(),
{
    if pieces.len() == 0 {
        Seq::empty()
    } else if pieces.last().len() == 0 {
        folder_parts(pieces.drop_last())
    } else {
        folder_parts(pieces.drop_last()).push(template::safe_component(pieces.last()))
    }
}

/// The folder of a shot, relative to the destination.
pub open spec fn folder_name(
    cfg: ConfigModel,
    date: Option<Moment>,
    make: Seq<char>,
    model: Seq<char>,
    rep_stem: Seq<char>,
) -> Seq<char> {
    let rendered = template::rendered(
        cfg.folder_template,
        CtxModel { dt: date, original: rep_stem, ext: Seq::empty(), counter: None, make, model },
    );
    text::join(folder_parts(text::split(rendered, '/')), "/"@)
}

/// The folder of a shot, relative to the destination.
pub fn render_folder(
    cfg: &RunConfig,
    date: Option<Moment>,
    make: &str,
    model: &str,
    rep_stem: &str,
) -> (r: String)
    ensures
        r@ == folder_name(cfg@, date, make@, model@, rep_stem@),
{
    let ctx = Ctx { dt: date, original: rep_stem, ext: "", counter: None, make, model };
    proof {
        reveal_strlit("");
        assert(ctx@ =~= CtxModel {
            dt: date,
            original: rep_stem@,
            ext: Seq::empty(),
            counter: None,
            make: make@,
            model: model@,
        });
    }
    let rendered: String = template::render(cfg.folder_template.as_str(), &ctx);
    let pieces: Vec<String> = text::split_text(rendered.as_str(), '/');
    let ghost all = text::views(pieces@);
    let mut out: Vec<String> = Vec::new();
    let mut i: usize = 0;
    proof {
        assert(all.take(0) =~= Seq::<Seq<char>>::empty());
        assert(text::views(out@) =~= Seq::<Seq<char>>::empty());
    }
    while i < pieces.len()
        invariant
            i <= pieces@.len(),
            all == text::views(pieces@),
            text::views(out@) == folder_parts(all.take(i as int)),
        decreases pieces@.len() - i,
    {
        proof {
            assert(all.take(i + 1).drop_last() =~= all.take(i as int));
            assert(all.take(i + 1).last() == pieces@[i as int]@);
            reveal_strlit("");
            assert(pieces@[i as int]@.len() == 0 ==> pieces@[i as int]@ =~= ""@);
        }
        if !text::same(pieces[i].as_str(), "") {
            let c: String = template::sanitize_component(pieces[i].as_str());
            proof {
                text::lemma_views_push(out@, c);
            }
            out.push(c);
        }
        i = i + 1;
    }
    proof {
        assert(all.take(all.len() as int) =~= all);
    }
    text::join_text(&out, "/")
}

/// What the primary files of a group tell of its shot.
#[verifier::ext_equal]
pub struct Gathered {
    pub embedded: Option<Moment>,
    pub make: Seq<char>,
    pub model: Seq<char>,
    pub mtime: Option<Moment>,
}

/// Nothing is known of a shot.
pub open spec fn nothing() -> Gathered {
    Gathered { embedded: None, make: Seq::empty(), model: Seq::empty(), mtime: None }
}

/// The first text unless it is empty.
pub open spec fn unless_empty(a: Seq<char>, b: Seq<char>) -> Seq<char> {
    if a.len() == 0 {
        b
    } else {
        a
    }
}

/// What is known once the modification time of a primary file is.
pub open spec fn with_mtime(acc: Gathered, f: FileModel) -> Gathered {
    if acc.mtime is None {
        Gathered { mtime: f.mtime, ..acc }
    } else {
        acc
    }
}

/// What is known once the metadata of a primary file is.
pub open spec fn with_info(acc: Gathered, info: InfoModel) -> Gathered {
    Gathered {
        embedded: info.datetime,
        make: unless_empty(acc.make, types::or_empty(info.make)),
        model: unless_empty(acc.model, types::or_empty(info.model)),
        ..acc
    }
}

/// What the files from the `k`-th on tell: the first modification time, the
/// first embedded date, and the first camera names found on the way to it.
/// Once there is an embedded date, no file is read any more.
pub open spec fn gathered(
    files: Seq<FileModel>,
    k: int,
    acc: Gathered,
    infos: spec_fn(Seq<char>) -> InfoModel,
) -> Gathered
    decreases files.len() - k,
{
    if k < 0 || k >= files.len() {
        acc
    } else if !primary(files[k]) {
        gathered(files, k + 1, acc, infos)
    } else {
        let seen = with_mtime(acc, files[k]);
        if seen.embedded is Some {
            gathered(files, k + 1, seen, infos)
        } else {
            gathered(files, k + 1, with_info(seen, infos(files[k].path)), infos)
        }
    }
}

/// The date that the date-source policy picks, and where it comes from.
pub open spec fn policy_date(source: DateSourceArg, acc: Gathered) -> (
    Option<Moment>,
    DateProvenance,
) {
    match source {
        DateSourceArg::Mtime => (acc.mtime, DateProvenance::Mtime),
        DateSourceArg::Exif => (acc.embedded, DateProvenance::Embedded),
        DateSourceArg::ExifThenMtime => if acc.embedded is Some {
            (acc.embedded, DateProvenance::Embedded)
        } else {
            (acc.mtime, DateProvenance::Mtime)
        },
    }
}

/// A group with a date.
pub open spec fn placed(
    g: GroupModel,
    acc: Gathered,
    date: Moment,
    provenance: DateProvenance,
    cfg: ConfigModel,
) -> GroupModel {
    GroupModel {
        date: Some(date),
        provenance,
        make: acc.make,
        model: acc.model,
        folder: folder_name(cfg, Some(date), acc.make, acc.model, g.rep_stem),
        use_name_template: cfg.name_template != config::DEFAULT_NAME_TEMPLATE@,
        sort_key: date,
        ..g
    }
}

/// A group without a date.
pub open spec fn undated(g: GroupModel, acc: Gathered, skip: bool) -> GroupModel {
    GroupModel {
        make: acc.make,
        model: acc.model,
        folder: no_date(),
        use_name_template: false,
        skip_no_date: skip,
        ..g
    }
}

/// A group with what was gathered of its shot: by the date-source policy, and
/// where that gives no date, by the policy for missing dates.
pub open spec fn settled(g: GroupModel, acc: Gathered, cfg: ConfigModel) -> GroupModel {
    let (date, provenance) = policy_date(cfg.date_source, acc);
    match date {
        Some(d) => placed(g, acc, d, provenance, cfg),
        None => match cfg.on_missing_date {
            OnMissingDateArg::Skip => undated(g, acc, true),
            OnMissingDateArg::Mtime => match acc.mtime {
                Some(d) => placed(g, acc, d, DateProvenance::Mtime, cfg),
                None => undated(g, acc, false),
            },
            OnMissingDateArg::UnknownFolder => undated(g, acc, false),
        },
    }
}

/// A group with its date.
pub open spec fn dated(
    g: GroupModel,
    cfg: ConfigModel,
    infos: spec_fn(Seq<char>) -> InfoModel,
) -> GroupModel {
    settled(g, gathered(g.files, 0, nothing(), infos), cfg)
}

/// How many files the groups from the `k`-th on hold.
pub open spec fn files_from(gs: Seq<Group>, k: int) -> nat
    decreases gs.len() - k,
{
    if k < 0 || k >= gs.len() {
        0
    } else {
        gs[k].files@.len() + files_from(gs, k + 1)
    }
}

proof fn lemma_files_from(a: Seq<Group>, b: Seq<Group>, k: int)
    requires
        0 <= k,
        a.len() == b.len(),
        forall|i: int| k <= i < a.len() ==> #[trigger] a[i] == b[i],
    ensures
        files_from(a, k) == files_from(b, k),
    decreases a.len() - k,
{
    if k < a.len() {
        assert(a[k] == b[k]);
        lemma_files_from(a, b, k + 1);
    }
}

/// Resolves each group's capture date, folder, and naming mode. The machine
/// says whose metadata it needs next ([`Dating::need`]) and takes it
/// ([`Dating::give`]).
pub struct Dating {
    groups: Vec<Group>,
    /// The group being dated; those before it are done.
    at: usize,
    /// The file of that group being looked at.
    file: usize,
    embedded: Option<Moment>,
    make: String,
    model: String,
    mtime: Option<Moment>,
}

impl Dating {
    /// What is known of the shot being dated.
    pub closed spec fn acc(self) -> Gathered {
        Gathered {
            embedded: self.embedded,
            make: self.make@,
            model: self.model@,
            mtime: self.mtime,
        }
    }

    /// What every state keeps: the place is inside the list, and the file there
    /// is a primary one whose metadata is needed, unless all is done.
    pub closed spec fn wf(self) -> bool {
        &&& self.at <= self.groups@.len()
        &&& self.at < self.groups@.len() ==> {
            &&& self.file < self.groups@[self.at as int].files@.len()
            &&& self.groups@[self.at as int].files@[self.file as int].kind != FileKind::Sidecar
            &&& self.embedded is None
            &&& self.acc() == with_mtime(
                self.acc(),
                self.groups@[self.at as int].files@[self.file as int]@,
            )
        }
    }

    /// Whether every group has its date.
    pub closed spec fn ended(self) -> bool {
        self.at == self.groups@.len()
    }

    /// How many files are still to be looked at: the machine takes no more
    /// answers than that.
    pub closed spec fn left(self) -> int {
        if self.at >= self.groups@.len() {
            0
        } else {
            files_from(self.groups@, self.at as int) - self.file
        }
    }

    /// The groups that the machine ends with, given the metadata of files.
    pub closed spec fn outcome(
        self,
        cfg: ConfigModel,
        infos: spec_fn(Seq<char>) -> InfoModel,
    ) -> Seq<GroupModel> {
        let gs = group_models(self.groups@);
        Seq::new(
            gs.len(),
            |i: int|
                if i < self.at {
                    gs[i]
                } else if i == self.at {
                    settled(gs[i], gathered(gs[i].files, self.file as int, self.acc(), infos), cfg)
                } else {
                    dated(gs[i], cfg, infos)
                },
        )
    }

    /// The path whose metadata is needed.
    pub closed spec fn wanted(self) -> Seq<char> {
        self.groups@[self.at as int].files@[self.file as int].path@
    }

    /// The kind of the file whose metadata is needed.
    pub closed spec fn wanted_kind(self) -> FileKind {
        self.groups@[self.at as int].files@[self.file as int].kind
    }

    /// Starts with the first group.
    pub fn new(groups: Vec<Group>, cfg: &RunConfig) -> (r: Dating)
        ensures
            r.wf(),
            r.left() <= files_from(groups@, 0),
            forall|infos: spec_fn(Seq<char>) -> InfoModel|
                #[trigger] r.outcome(cfg@, infos) == Seq::new(
                    groups@.len(),
                    |i: int| dated(group_models(groups@)[i], cfg@, infos),
                ),
    {
        let mut d = Dating {
            groups,
            at: 0,
            file: 0,
            embedded: None,
            make: String::new(),
            model: String::new(),
            mtime: None,
        };
        proof {
            assert(d.acc() =~= nothing());
            assert forall|infos: spec_fn(Seq<char>) -> InfoModel|
                #[trigger] d.outcome(cfg@, infos) == Seq::new(
                    groups@.len(),
                    |i: int| dated(group_models(groups@)[i], cfg@, infos),
                ) by {
                assert(d.outcome(cfg@, infos) =~= Seq::new(
                    groups@.len(),
                    |i: int| dated(group_models(groups@)[i], cfg@, infos),
                ));
            }
        }
        d.advance(cfg);
        d
    }

    /// The file whose metadata is needed next; `None` once every group has its
    /// date.
    pub fn need(&self) -> (r: Option<(&String, FileKind)>)
        requires
            self.wf(),
        ensures
            r is None <==> self.ended(),
            r is None <==> self.left() == 0,
            self.left() >= 0,
            r matches Some(w) ==> w.0@ == self.wanted() && w.1 == self.wanted_kind(),
    {
        if self.at == self.groups.len() {
            None
        } else {
            let f: &MediaFile = &self.groups[self.at].files[self.file];
            Some((&f.path, f.kind))
        }
    }

    /// Takes the metadata that was needed. Whatever the metadata of the other
    /// files is, the machine goes on to the same end as before, and comes nearer
    /// to it: fewer files are left to be looked at.
    pub fn give(&mut self, info: CaptureInfo, cfg: &RunConfig)
        requires
            old(self).wf(),
            !old(self).ended(),
        ensures
            final(self).wf(),
            0 <= final(self).left() < old(self).left(),
            forall|infos: spec_fn(Seq<char>) -> InfoModel|
                infos(old(self).wanted()) == info@ ==> #[trigger] final(self).outcome(cfg@, infos)
                    == old(self).outcome(cfg@, infos),
    {
        let ghost before = *self;
        let ghost f = self.groups@[self.at as int].files@[self.file as int]@;
        let n: usize = self.groups[self.at].files.len();
        self.embedded = info.datetime;
        if text::same(self.make.as_str(), "") {
            self.make = match info.make {
                Some(s) => s,
                None => String::new(),
            };
        }
        if text::same(self.model.as_str(), "") {
            self.model = match info.model {
                Some(s) => s,
                None => String::new(),
            };
        }
        self.file = self.file + 1;
        proof {
            reveal_strlit("");
            assert(before.make@.len() == 0 ==> before.make@ =~= ""@);
            assert(before.model@.len() == 0 ==> before.model@ =~= ""@);
            assert(self.acc() =~= with_info(before.acc(), info@));
            assert forall|infos: spec_fn(Seq<char>) -> InfoModel|
                infos(before.wanted()) == info@ implies #[trigger] self.outcome(cfg@, infos)
                == before.outcome(cfg@, infos) by {
                let g = group_models(self.groups@)[self.at as int];
                assert(g.files[before.file as int] == f);
                assert(with_mtime(before.acc(), f) == before.acc());
                assert(gathered(g.files, before.file as int, before.acc(), infos) == gathered(
                    g.files,
                    self.file as int,
                    self.acc(),
                    infos,
                ));
                assert(self.outcome(cfg@, infos) =~= before.outcome(cfg@, infos));
            }
        }
        self.advance(cfg);
    }

    /// The groups with their dates.
    pub fn finish(self) -> (r: Vec<Group>)
        requires
            self.wf(),
            self.ended(),
        ensures
            forall|cfg: ConfigModel, infos: spec_fn(Seq<char>) -> InfoModel|
                group_models(r@) == #[trigger] self.outcome(cfg, infos),
    {
        proof {
            assert forall|cfg: ConfigModel, infos: spec_fn(Seq<char>) -> InfoModel| group_models(
                self.groups@,
            ) == #[trigger] self.outcome(cfg, infos) by {
                assert(group_models(self.groups@) =~= self.outcome(cfg, infos));
            }
        }
        self.groups
    }

    /// Goes on to the next file whose metadata is needed.
    fn advance(&mut self, cfg: &RunConfig)
        requires
            old(self).at <= old(self).groups@.len(),
            old(self).at < old(self).groups@.len() ==> old(self).file <= old(
                self,
            ).groups@[old(self).at as int].files@.len(),
            old(self).at == old(self).groups@.len() ==> old(self).file == 0 && old(self).acc()
                == nothing(),
        ensures
            final(self).wf(),
            final(self).left() <= old(self).left(),
            forall|infos: spec_fn(Seq<char>) -> InfoModel| #[trigger]
                final(self).outcome(cfg@, infos) == old(self).outcome(cfg@, infos),
    {
        while self.at < self.groups.len()
            invariant
                self.at <= self.groups@.len(),
                self.at < self.groups@.len() ==> self.file
                    <= self.groups@[self.at as int].files@.len(),
                self.left() <= old(self).left(),
                forall|infos: spec_fn(Seq<char>) -> InfoModel| #[trigger]
                    self.outcome(cfg@, infos) == old(self).outcome(cfg@, infos),
            decreases
                    self.groups@.len() - self.at,
                    if self.at < self.groups@.len() {
                        self.groups@[self.at as int].files@.len() - self.file
                    } else {
                        0
                    },
        {
            let ghost before = *self;
            let ghost g = self.groups@[self.at as int]@;
            if self.file == self.groups[self.at].files.len() {
                self.close(cfg);
            } else if self.groups[self.at].files[self.file].kind == FileKind::Sidecar {
                proof {
                    assert(g.files[self.file as int].kind == FileKind::Sidecar);
                }
                self.file = self.file + 1;
                proof {
                    assert forall|infos: spec_fn(Seq<char>) -> InfoModel| #[trigger]
                        self.outcome(cfg@, infos) == before.outcome(cfg@, infos) by {
                        assert(self.outcome(cfg@, infos) =~= before.outcome(cfg@, infos));
                    }
                }
            } else {
                let ghost f = g.files[self.file as int];
                if self.mtime.is_none() {
                    self.mtime = self.groups[self.at].files[self.file].mtime;
                }
                proof {
                    assert(f.mtime == before.groups@[before.at as int].files@[before.file as int].mtime);
                    assert(self.acc() =~= with_mtime(before.acc(), f));
                    assert(self.acc() =~= with_mtime(self.acc(), f));
                    assert forall|infos: spec_fn(Seq<char>) -> InfoModel| #[trigger]
                        self.outcome(cfg@, infos) == before.outcome(cfg@, infos) by {
                        assert(gathered(g.files, before.file as int, before.acc(), infos)
                            == gathered(g.files, self.file as int, self.acc(), infos));
                        assert(self.outcome(cfg@, infos) =~= before.outcome(cfg@, infos));
                    }
                }
                if self.embedded.is_none() {
                    return;
                }
                let ghost middle = *self;
                self.file = self.file + 1;
                proof {
                    assert forall|infos: spec_fn(Seq<char>) -> InfoModel| #[trigger]
                        self.outcome(cfg@, infos) == middle.outcome(cfg@, infos) by {
                        assert(gathered(g.files, middle.file as int, middle.acc(), infos)
                            == gathered(g.files, self.file as int, self.acc(), infos));
                        assert(self.outcome(cfg@, infos) =~= middle.outcome(cfg@, infos));
                    }
                }
            }
        }
    }

    /// Settles the group being dated, all of whose files have been looked at,
    /// and goes on to the next one.
    fn close(&mut self, cfg: &RunConfig)
        requires
            old(self).at < old(self).groups@.len(),
            old(self).file == old(self).groups@[old(self).at as int].files@.len(),
        ensures
            final(self).at == old(self).at + 1,
            final(self).file == 0,
            final(self).groups@.len() == old(self).groups@.len(),
            final(self).left() <= old(self).left(),
            forall|infos: spec_fn(Seq<char>) -> InfoModel| #[trigger]
                final(self).outcome(cfg@, infos) == old(self).outcome(cfg@, infos),
    {
        let ghost before = *self;
        let ghost acc = self.acc();
        let at: usize = self.at;
        let n: usize = self.groups.len();
        let mut make = String::new();
        let mut model = String::new();
        std::mem::swap(&mut make, &mut self.make);
        std::mem::swap(&mut model, &mut self.model);
        let g: Group = settle(&self.groups[at], self.embedded, make, model, self.mtime, cfg);
        self.groups.set(at, g);
        self.at = at + 1;
        self.file = 0;
        self.embedded = None;
        self.mtime = None;
        proof {
            assert(self.acc() =~= nothing());
            lemma_files_from(before.groups@, self.groups@, at + 1);
            let a = group_models(before.groups@);
            let b = group_models(self.groups@);
            assert(b =~= a.update(at as int, settled(a[at as int], acc, cfg@)));
            assert forall|infos: spec_fn(Seq<char>) -> InfoModel| #[trigger]
                self.outcome(cfg@, infos) == before.outcome(cfg@, infos) by {
                assert(self.outcome(cfg@, infos) =~= before.outcome(cfg@, infos));
            }
        }
    }
}

/// A group with what was gathered of its shot.
fn settle(
    g: &Group,
    embedded: Option<Moment>,
    make: String,
    model: String,
    mtime: Option<Moment>,
    cfg: &RunConfig,
) -> (r: Group)
    ensures
        r@ == settled(g@, (Gathered { embedded, make: make@, model: model@, mtime }), cfg@),
{
    let policy: (Option<Moment>, DateProvenance) = match cfg.date_source {
        DateSourceArg::Mtime => (mtime, DateProvenance::Mtime),
        DateSourceArg::Exif => (embedded, DateProvenance::Embedded),
        DateSourceArg::ExifThenMtime => if embedded.is_some() {
            (embedded, DateProvenance::Embedded)
        } else {
            (mtime, DateProvenance::Mtime)
        },
    };
    let found: (Option<Moment>, DateProvenance) = if policy.0.is_some() {
        policy
    } else if cfg.on_missing_date == OnMissingDateArg::Mtime && mtime.is_some() {
        (mtime, DateProvenance::Mtime)
    } else {
        (None, g.provenance)
    };
    let files: Vec<MediaFile> = copy_files(&g.files);
    match found.0 {
        Some(d) => {
            let folder: String = render_folder(
                cfg,
                Some(d),
                make.as_str(),
                model.as_str(),
                g.rep_stem.as_str(),
            );
            Group {
                files,
                date: Some(d),
                provenance: found.1,
                make,
                model,
                folder,
                use_name_template: !text::same(
                    cfg.name_template.as_str(),
                    config::DEFAULT_NAME_TEMPLATE,
                ),
                skip_no_date: g.skip_no_date,
                rep_stem: g.rep_stem.clone(),
                sort_key: d,
                counter: g.counter,
            }
        },
        None => Group {
            files,
            date: g.date,
            provenance: g.provenance,
            make,
            model,
            folder: "NoDate".to_owned(),
            use_name_template: false,
            skip_no_date: cfg.on_missing_date == OnMissingDateArg::Skip,
            rep_stem: g.rep_stem.clone(),
            sort_key: g.sort_key,
            counter: g.counter,
        },
    }
}

fn copy_files(v: &Vec<MediaFile>) -> (r: Vec<MediaFile>)
    ensures
        types::file_models(r@) == types::file_models(v@),
{
    let mut r: Vec<MediaFile> = Vec::new();
    let mut i: usize = 0;
    while i < v.len()
        invariant
            i <= v@.len(),
            r@.len() == i,
            forall|j: int| 0 <= j < i ==> (#[trigger] r@[j])@ == v@[j]@,
        decreases v@.len() - i,
    {
        r.push(v[i].copied());
        i = i + 1;
    }
    proof {
        assert(types::file_models(r@) =~= types::file_models(v@));
    }
    r
}

// ---------------------------------------------------------------------------
// Order and numbers
// ---------------------------------------------------------------------------

/// Whether one group comes before another: by folder, then by capture time,
/// then by stem.
pub open spec fn group_ahead(a: GroupModel, b: GroupModel) -> bool {
    if a.folder != b.folder {
        text::precedes(a.folder, b.folder)
    } else if a.sort_key != b.sort_key {
        a.sort_key.before(b.sort_key)
    } else {
        text::precedes(a.rep_stem, b.rep_stem)
    }
}

/// The order of groups.
pub open spec fn by_capture(gs: Seq<GroupModel>) -> spec_fn(int, int) -> bool {
    |i: int, j: int| group_ahead(gs[i], gs[j])
}

struct GroupKeys<'a> {
    groups: &'a Vec<Group>,
}

impl<'a> Ranks for GroupKeys<'a> {
    closed spec fn count(&self) -> nat {
        self.groups@.len()
    }

    closed spec fn ahead(&self) -> spec_fn(int, int) -> bool {
        by_capture(group_models(self.groups@))
    }

    fn is_ahead(&self, i: usize, j: usize) -> (r: bool) {
        let a: &Group = &self.groups[i];
        let b: &Group = &self.groups[j];
        proof {
            assert(group_models(self.groups@)[i as int] == a@);
            assert(group_models(self.groups@)[j as int] == b@);
        }
        if !text::same(a.folder.as_str(), b.folder.as_str()) {
            text::text_precedes(a.folder.as_str(), b.folder.as_str())
        } else if a.sort_key != b.sort_key {
            a.sort_key.is_before(b.sort_key)
        } else {
            text::text_precedes(a.rep_stem.as_str(), b.rep_stem.as_str())
        }
    }
}

/// A copy of a group.
fn copy_group(g: &Group) -> (r: Group)
    ensures
        r@ == g@,
{
    Group {
        files: copy_files(&g.files),
        date: g.date,
        provenance: g.provenance,
        make: g.make.clone(),
        model: g.model.clone(),
        folder: g.folder.clone(),
        use_name_template: g.use_name_template,
        skip_no_date: g.skip_no_date,
        rep_stem: g.rep_stem.clone(),
        sort_key: g.sort_key,
        counter: g.counter,
    }
}

/// The groups by folder, capture time and stem, so that numbers and conflicts
/// come out the same on every run.
pub fn order_groups(groups: &Vec<Group>) -> (r: Vec<Group>)
    ensures
        group_models(r@) == order::arranged(
            group_models(groups@),
            by_capture(group_models(groups@)),
        ),
{
    let ghost all = group_models(groups@);
    let n: usize = groups.len();
    let ranks: Vec<usize> = order::rank(&GroupKeys { groups }, n);
    let ghost sorted = order::arranged(all, by_capture(all));
    let mut r: Vec<Group> = Vec::new();
    let mut k: usize = 0;
    while k < n
        invariant
            n == groups@.len(),
            k <= n,
            all == group_models(groups@),
            sorted == order::arranged(all, by_capture(all)),
            order::positions(ranks@) == order::ranking(n as nat, by_capture(all)),
            order::is_permutation(order::positions(ranks@), n as nat),
            group_models(r@) == sorted.take(k as int),
        decreases n - k,
    {
        proof {
            assert(0 <= order::positions(ranks@)[k as int] < n);
            assert(order::positions(ranks@)[k as int] == ranks@[k as int]);
        }
        let g: Group = copy_group(&groups[ranks[k]]);
        proof {
            assert(sorted[k as int] == g@);
            assert(group_models(r@.push(g)) =~= group_models(r@).push(g@));
            assert(sorted.take(k + 1) =~= sorted.take(k as int).push(sorted[k as int]));
        }
        r.push(g);
        k = k + 1;
    }
    proof {
        assert(sorted.take(n as int) =~= sorted);
    }
    r
}

/// The path of a group's folder: every component of the folder pushed onto the
/// destination.
pub open spec fn pushed(dest: Seq<char>, pieces: Seq<Seq<char>>) -> Seq<char>
    decreases pieces.len(),
{
    if pieces.len() == 0 {
        dest
    } else {
        paths::joined(pushed(dest, pieces.drop_last()), pieces.last())
    }
}

/// The path of a folder relative to the destination.
pub open spec fn folder_path(dest: Seq<char>, folder: Seq<char>) -> Seq<char> {
    if folder.len() == 0 {
        dest
    } else {
        pushed(dest, text::split(folder, '/'))
    }
}

/// The path of a folder relative to the destination.
pub fn folder_in(dest: &str, folder: &str) -> (r: String)
    ensures
        r@ == folder_path(dest@, folder@),
{
    proof {
        reveal_strlit("");
        assert(folder@.len() == 0 ==> folder@ =~= ""@);
    }
    if text::same(folder, "") {
        return dest.to_owned();
    }
    let pieces: Vec<String> = text::split_text(folder, '/');
    let ghost all = text::views(pieces@);
    let mut p: String = dest.to_owned();
    let mut i: usize = 0;
    proof {
        assert(all.take(0) =~= Seq::<Seq<char>>::empty());
    }
    while i < pieces.len()
        invariant
            i <= pieces@.len(),
            all == text::views(pieces@),
            p@ == pushed(dest@, all.take(i as int)),
        decreases pieces@.len() - i,
    {
        proof {
            assert(all.take(i + 1).drop_last() =~= all.take(i as int));
            assert(all.take(i + 1).last() == pieces@[i as int]@);
        }
        p = paths::join(p.as_str(), pieces[i].as_str());
        i = i + 1;
    }
    proof {
        assert(all.take(all.len() as int) =~= all);
    }
    p
}

/// How many groups of the same folder stand right before the `i`-th one.
pub open spec fn place(gs: Seq<GroupModel>, i: int) -> int
    decreases i,
{
    if i <= 0 || gs[i - 1].folder != gs[i].folder {
        0
    } else {
        place(gs, i - 1) + 1
    }
}

/// The `i`-th group with its number: numbers count up in each folder, from the
/// first one that is free there under the name template.
pub open spec fn numbered_group(
    gs: Seq<GroupModel>,
    i: int,
    tpl: Seq<char>,
    dest: Seq<char>,
    stems: spec_fn(Seq<char>) -> Seq<Seq<char>>,
) -> GroupModel {
    GroupModel {
        counter: (series::first_free(tpl, stems(folder_path(dest, gs[i].folder))) + place(
            gs,
            i,
        )) as u32,
        ..gs[i]
    }
}

/// The groups with their numbers, given the stems of the files in a folder.
pub open spec fn numbered(
    gs: Seq<GroupModel>,
    tpl: Seq<char>,
    dest: Seq<char>,
    stems: spec_fn(Seq<char>) -> Seq<Seq<char>>,
) -> Seq<GroupModel> {
    Seq::new(gs.len(), |i: int| numbered_group(gs, i, tpl, dest, stems))
}

/// The most groups that can be numbered.
pub const MAX_GROUPS: usize = 1000000000;

/// Assigns a per-folder number in capture order (used by `{counter}`
/// templates), 0-based, going on behind the numbers that the name template has
/// given in the folder already. The machine says which folder it has to know ([`Numbering::need`]) and takes
/// the stems of the files in it ([`Numbering::give`]).
pub struct Numbering {
    groups: Vec<Group>,
    name_template: String,
    /// The first group without a number; it begins a folder.
    at: usize,
}

proof fn lemma_place(gs: Seq<GroupModel>, hs: Seq<GroupModel>, i: int)
    requires
        gs.len() == hs.len(),
        forall|k: int| 0 <= k < gs.len() ==> (#[trigger] gs[k]).folder == hs[k].folder,
        0 <= i < gs.len(),
    ensures
        place(gs, i) == place(hs, i),
        0 <= place(gs, i) <= i,
    decreases i,
{
    if i > 0 {
        assert(gs[i].folder == hs[i].folder);
        assert(gs[i - 1].folder == hs[i - 1].folder);
        lemma_place(gs, hs, i - 1);
    }
}

impl Numbering {
    /// What every state keeps.
    pub closed spec fn wf(self) -> bool {
        &&& self.at <= self.groups@.len() <= MAX_GROUPS
        &&& 0 < self.at < self.groups@.len() ==> self.groups@[self.at - 1].folder@
            != self.groups@[self.at as int].folder@
    }

    /// Whether every group has its number.
    pub closed spec fn ended(self) -> bool {
        self.at == self.groups@.len()
    }

    /// How many groups have no number yet: the machine takes no more answers
    /// than that.
    pub closed spec fn left(self) -> int {
        self.groups@.len() - self.at
    }

    /// The groups that the machine ends with.
    pub closed spec fn outcome(
        self,
        dest: Seq<char>,
        stems: spec_fn(Seq<char>) -> Seq<Seq<char>>,
    ) -> Seq<GroupModel> {
        let gs = group_models(self.groups@);
        Seq::new(
            gs.len(),
            |i: int|
                if i < self.at {
                    gs[i]
                } else {
                    numbered_group(gs, i, self.name_template@, dest, stems)
                },
        )
    }

    /// The folder whose files have to be known.
    pub closed spec fn wanted(self, dest: Seq<char>) -> Seq<char> {
        folder_path(dest, self.groups@[self.at as int].folder@)
    }

    /// Starts with the first folder. The groups are in order.
    pub fn new(groups: Vec<Group>, name_template: &str) -> (r: Numbering)
        requires
            groups@.len() <= MAX_GROUPS,
        ensures
            r.wf(),
            r.left() == groups@.len(),
            forall|dest: Seq<char>, stems: spec_fn(Seq<char>) -> Seq<Seq<char>>|
                #[trigger] r.outcome(dest, stems) == numbered(
                    group_models(groups@),
                    name_template@,
                    dest,
                    stems,
                ),
    {
        let r = Numbering { groups, name_template: name_template.to_owned(), at: 0 };
        proof {
            assert forall|dest: Seq<char>, stems: spec_fn(Seq<char>) -> Seq<Seq<char>>|
                #[trigger] r.outcome(dest, stems) == numbered(
                    group_models(groups@),
                    name_template@,
                    dest,
                    stems,
                ) by {
                assert(r.outcome(dest, stems) =~= numbered(
                    group_models(groups@),
                    name_template@,
                    dest,
                    stems,
                ));
            }
        }
        r
    }

    /// The folder whose files have to be known next; `None` once every group
    /// has its number.
    pub fn need(&self, dest: &str) -> (r: Option<String>)
        requires
            self.wf(),
        ensures
            r is None <==> self.ended(),
            r is None <==> self.left() == 0,
            self.left() >= 0,
            r matches Some(p) ==> p@ == self.wanted(dest@),
    {
        if self.at == self.groups.len() {
            None
        } else {
            Some(folder_in(dest, self.groups[self.at].folder.as_str()))
        }
    }

    /// Takes the stems of the files in the folder. Whatever the other folders
    /// hold, the machine goes on to the same end as before, and comes nearer to
    /// it: fewer groups are without a number.
    pub fn give(&mut self, stems: &Vec<String>)
        requires
            old(self).wf(),
            !old(self).ended(),
        ensures
            final(self).wf(),
            0 <= final(self).left() < old(self).left(),
            forall|dest: Seq<char>, listing: spec_fn(Seq<char>) -> Seq<Seq<char>>|
                listing(old(self).wanted(dest)) == text::views(stems@)
                    ==> #[trigger] final(self).outcome(dest, listing) == old(self).outcome(
                    dest,
                    listing,
                ),
    {
        let ghost before = *self;
        let ghost gs = group_models(self.groups@);
        let first: usize = self.at;
        let n: usize = self.groups.len();
        let start: u32 = series::counter_start(self.name_template.as_str(), stems);
        let folder: String = self.groups[first].folder.clone();
        let ghost base = series::first_free(self.name_template@, text::views(stems@)) as int;
        loop
            invariant_except_break
                first <= self.at < n,
                gs[self.at as int].folder == folder@,
                place(gs, self.at as int) == self.at - first,
            invariant
                before.wf(),
                first == before.at,
                gs == group_models(before.groups@),
                gs.len() == n,
                folder@ == gs[first as int].folder,
                start == base,
                start <= 1000000000,
                n == self.groups@.len(),
                n <= MAX_GROUPS,
                self.name_template@ == before.name_template@,
                forall|k: int| first <= k < self.at ==> (#[trigger] gs[k]).folder == folder@,
                forall|k: int|
                    0 <= k < n ==> (#[trigger] self.groups@[k])@ == (if first <= k < self.at {
                        GroupModel { counter: (base + place(gs, k)) as u32, ..gs[k] }
                    } else {
                        gs[k]
                    }),
            ensures
                first < self.at <= n,
                self.at < n ==> gs[self.at as int].folder != folder@,
            decreases n - self.at,
        {
            let at: usize = self.at;
            let mut g: Group = copy_group(&self.groups[at]);
            g.counter = start + (at - first) as u32;
            self.groups.set(at, g);
            self.at = at + 1;
            if self.at == n {
                break;
            }
            if !text::same(self.groups[self.at].folder.as_str(), folder.as_str()) {
                break;
            }
        }
        proof {
            let hs = group_models(self.groups@);
            assert(self.at < n ==> hs[self.at as int].folder == gs[self.at as int].folder);
            assert(hs[self.at - 1].folder == gs[self.at - 1].folder);
            assert forall|dest: Seq<char>, listing: spec_fn(Seq<char>) -> Seq<Seq<char>>|
                listing(before.wanted(dest)) == text::views(stems@) implies #[trigger] self.outcome(
                dest,
                listing,
            ) == before.outcome(dest, listing) by {
                assert forall|k: int| 0 <= k < n implies #[trigger] self.outcome(dest, listing)[k]
                    == before.outcome(dest, listing)[k] by {
                    assert(hs[k] == self.groups@[k]@);
                    lemma_place(gs, hs, k);
                    if first <= k < self.at {
                        assert(gs[k].folder == folder@);
                    }
                }
                assert(self.outcome(dest, listing) =~= before.outcome(dest, listing));
            }
        }
    }

    /// The groups with their numbers.
    pub fn finish(self) -> (r: Vec<Group>)
        requires
            self.wf(),
            self.ended(),
        ensures
            forall|dest: Seq<char>, stems: spec_fn(Seq<char>) -> Seq<Seq<char>>|
                group_models(r@) == #[trigger] self.outcome(dest, stems),
    {
        proof {
            assert forall|dest: Seq<char>, stems: spec_fn(Seq<char>) -> Seq<Seq<char>>|
                group_models(self.groups@) == #[trigger] self.outcome(dest, stems) by {
                assert(group_models(self.groups@) =~= self.outcome(dest, stems));
            }
        }
        self.groups
    }
}

} // verus!
