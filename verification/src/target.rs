//! Decide the final action for every file of a plan, against what is on disk
//! and what the plan itself has claimed already.

use vstd::prelude::*;
use vstd::hash_set::StringHashSet;

use crate::cli::{DedupArg, OnConflictArg};
use crate::config;
use crate::config::{ConfigModel, RunConfig};
use crate::guard;
use crate::order;
use crate::order::Ranks;
use crate::paths;
use crate::plan;
use crate::plan::{Group, GroupModel};
use crate::template;
use crate::template::{Ctx, CtxModel};
use crate::text;
use crate::types;
use crate::types::{Action, DateProvenance, FileKind, FileModel, ItemModel, MediaFile, PlanItem};

verus! {

// ---------------------------------------------------------------------------
// The files of a plan
// ---------------------------------------------------------------------------

/// The rank of a kind within its group: primaries first, sidecars last.
pub open spec fn kind_rank(k: FileKind) -> int {
    match k {
        FileKind::Raw => 0,
        FileKind::Jpeg => 1,
        FileKind::Video => 2,
        FileKind::Sidecar => 3,
    }
}

/// Whether one file of a group comes before another: by kind, then by
/// extension, then by stem.
pub open spec fn file_ahead(a: FileModel, b: FileModel) -> bool {
    let x = text::ascii_lower(a.ext);
    let y = text::ascii_lower(b.ext);
    if kind_rank(a.kind) != kind_rank(b.kind) {
        kind_rank(a.kind) < kind_rank(b.kind)
    } else if x != y {
        text::precedes(x, y)
    } else {
        text::precedes(a.stem, b.stem)
    }
}

/// The order of a group's files.
pub open spec fn by_rank(files: Seq<FileModel>) -> spec_fn(int, int) -> bool {
    |i: int, j: int| file_ahead(files[i], files[j])
}

/// The files of a group in order.
pub open spec fn ordered_files(files: Seq<FileModel>) -> Seq<FileModel> {
    order::arranged(files, by_rank(files))
}

/// One file to be placed, with its group.
pub type Job = (GroupModel, FileModel);

/// Files with their group.
pub open spec fn tagged(g: GroupModel, files: Seq<FileModel>) -> Seq<Job> {
    Seq::new(files.len(), |i: int| (g, files[i]))
}

/// The files of all groups, in order.
pub open spec fn jobs_of(gs: Seq<GroupModel>) -> Seq<Job>
    decreases gs.len(),
{
    if gs.len() == 0 {
        Seq::empty()
    } else {
        jobs_of(gs.drop_last()) + tagged(gs.last(), ordered_files(gs.last().files))
    }
}

fn rank_of(k: FileKind) -> (r: u8)
    ensures
        r == kind_rank(k),
{
    match k {
        FileKind::Raw => 0,
        FileKind::Jpeg => 1,
        FileKind::Video => 2,
        FileKind::Sidecar => 3,
    }
}

struct FileRanks<'a> {
    files: &'a Vec<MediaFile>,
}

impl<'a> Ranks for FileRanks<'a> {
    closed spec fn count(&self) -> nat {
        self.files@.len()
    }

    closed spec fn ahead(&self) -> spec_fn(int, int) -> bool {
        by_rank(types::file_models(self.files@))
    }

    fn is_ahead(&self, i: usize, j: usize) -> (r: bool) {
        let a: &MediaFile = &self.files[i];
        let b: &MediaFile = &self.files[j];
        proof {
            assert(types::file_models(self.files@)[i as int] == a@);
            assert(types::file_models(self.files@)[j as int] == b@);
        }
        if rank_of(a.kind) != rank_of(b.kind) {
            return rank_of(a.kind) < rank_of(b.kind);
        }
        let x: String = text::to_ascii_lower(a.ext.as_str());
        let y: String = text::to_ascii_lower(b.ext.as_str());
        if !text::same(x.as_str(), y.as_str()) {
            text::text_precedes(x.as_str(), y.as_str())
        } else {
            text::text_precedes(a.stem.as_str(), b.stem.as_str())
        }
    }
}

/// Primaries first (RAW, JPEG, video), then sidecars — stable within a group.
pub fn order_group_files(files: &Vec<MediaFile>) -> (r: Vec<MediaFile>)
    ensures
        types::file_models(r@) == ordered_files(types::file_models(files@)),
{
    let ghost all = types::file_models(files@);
    let ranks: Vec<usize> = order::rank(&FileRanks { files }, files.len());
    plan::files_in_order(files, &ranks, Ghost(by_rank(all)))
}

// ---------------------------------------------------------------------------
// Names
// ---------------------------------------------------------------------------

/// The base name of a file under the name template; its own stem where the
/// template gives nothing.
pub open spec fn template_base(f: FileModel, g: GroupModel, cfg: ConfigModel) -> Seq<char> {
    let base = template::safe_component(
        template::rendered(
            cfg.name_template,
            CtxModel {
                dt: g.date,
                original: f.stem,
                ext: text::ascii_lower(f.ext),
                counter: Some(g.counter),
                make: g.make,
                model: g.model,
            },
        ),
    );
    if base.len() == 0 || base == "_"@ {
        f.stem
    } else {
        base
    }
}

/// The base name of a file at its target.
pub open spec fn base_name(f: FileModel, g: GroupModel, cfg: ConfigModel) -> Seq<char> {
    if g.use_name_template {
        template_base(f, g, cfg)
    } else {
        f.stem
    }
}

/// The name of a file at its target.
pub open spec fn target_name(f: FileModel, g: GroupModel, cfg: ConfigModel) -> Seq<char> {
    base_name(f, g, cfg) + "."@ + f.ext
}

/// Compute the target file name (without the directory).
pub fn target_filename(f: &MediaFile, g: &Group, cfg: &RunConfig) -> (r: String)
    ensures
        r@ == target_name(f@, g@, cfg@),
{
    let mut base: String = f.stem.clone();
    if g.use_name_template {
        let ext: String = text::to_ascii_lower(f.ext.as_str());
        let ctx = Ctx {
            dt: g.date,
            original: f.stem.as_str(),
            ext: ext.as_str(),
            counter: Some(g.counter),
            make: g.make.as_str(),
            model: g.model.as_str(),
        };
        let t: String = template::sanitize_component(
            template::render(cfg.name_template.as_str(), &ctx).as_str(),
        );
        proof {
            reveal_strlit("");
            assert(t@.len() == 0 ==> t@ =~= ""@);
        }
        if !text::same(t.as_str(), "") && !text::same(t.as_str(), "_") {
            base = t;
        }
    }
    base.append(".");
    base.append(f.ext.as_str());
    base
}

/// The place that a file would go to, were it free.
pub open spec fn candidate_of(f: FileModel, g: GroupModel, cfg: ConfigModel) -> Seq<char> {
    paths::joined(plan::folder_path(cfg.dest, g.folder), target_name(f, g, cfg))
}

/// Cards are FAT/exFAT (case-insensitive): paths that differ in case only are
/// one place.
pub open spec fn place_key(p: Seq<char>) -> Seq<char> {
    text::ascii_lower(p)
}

/// The key under which a path is claimed.
pub fn claim_key(p: &str) -> (r: String)
    ensures
        r@ == place_key(p@),
{
    text::to_ascii_lower(p)
}

/// The directory of a path.
pub open spec fn dir_of(p: Seq<char>) -> Seq<char> {
    match paths::parent_parts(p) {
        Some(c) => paths::path_of(c),
        None => "."@,
    }
}

/// The stem of a path's file name.
pub open spec fn path_stem(p: Seq<char>) -> Seq<char> {
    match paths::name_of(p) {
        Some(n) => paths::stem_of(n),
        None => "file"@,
    }
}

/// The extension of a path's file name.
pub open spec fn path_ext(p: Seq<char>) -> Option<Seq<char>> {
    match paths::name_of(p) {
        Some(n) => paths::ext_of(n),
        None => None,
    }
}

/// The `n`-th name beside a path: `stem_001.ext` and so on.
pub open spec fn numbered_name(p: Seq<char>, n: int) -> Seq<char> {
    let head = path_stem(p) + "_"@ + text::pad_left(text::decimal(n as nat), 3, '0');
    match path_ext(p) {
        Some(e) => head + "."@ + e,
        None => head,
    }
}

/// The `n`-th path beside a path.
pub open spec fn numbered_path(p: Seq<char>, n: int) -> Seq<char> {
    paths::joined(dir_of(p), numbered_name(p, n))
}

/// The path that is taken where every numbered one is.
pub open spec fn last_resort(p: Seq<char>, pid: u32) -> Seq<char> {
    paths::joined(dir_of(p), path_stem(p) + "_"@ + text::decimal(pid as nat))
}

/// The `n`-th path beside a path.
fn numbered_target(p: &str, n: u32) -> (r: String)
    ensures
        r@ == numbered_path(p@, n as int),
{
    let name: Option<String> = paths::file_name(p);
    let mut s: String = match &name {
        Some(x) => paths::stem(x.as_str()),
        None => "file".to_owned(),
    };
    s.append("_");
    s.append(text::unsigned_text(n as u64, 3).as_str());
    match &name {
        Some(x) => match paths::extension(x.as_str()) {
            Some(e) => {
                s.append(".");
                s.append(e.as_str());
            },
            None => {},
        },
        None => {},
    }
    paths::join(directory(p).as_str(), s.as_str())
}

fn directory(p: &str) -> (r: String)
    ensures
        r@ == dir_of(p@),
{
    match paths::parent(p) {
        Some(d) => d,
        None => ".".to_owned(),
    }
}

/// The path that is taken where every numbered one is.
fn fallback_target(p: &str, pid: u32) -> (r: String)
    ensures
        r@ == last_resort(p@, pid),
{
    let mut s: String = match paths::file_name(p) {
        Some(x) => paths::stem(x.as_str()),
        None => "file".to_owned(),
    };
    s.append("_");
    s.append(text::unsigned_text(pid as u64, 0).as_str());
    paths::join(directory(p).as_str(), s.as_str())
}

// ---------------------------------------------------------------------------
// Decisions
// ---------------------------------------------------------------------------

/// What is on disk while a plan is made.
pub struct Disk {
    /// Whether a path exists.
    pub present: spec_fn(Seq<char>) -> bool,
    /// Whether two files can be read and hold the same bytes.
    pub same: spec_fn(Seq<char>, Seq<char>) -> bool,
}

/// The action of an ordinary transfer.
pub open spec fn transfer_action(cfg: ConfigModel) -> Action {
    if cfg.link {
        Action::Link
    } else if config::copies(cfg) {
        Action::Copy
    } else {
        Action::Move
    }
}

/// An item for a file that is transferred.
pub open spec fn moved(
    f: FileModel,
    g: GroupModel,
    dst: Seq<char>,
    action: Action,
    note: Seq<char>,
) -> ItemModel {
    ItemModel {
        src: f.path,
        dst,
        kind: f.kind,
        size: f.size,
        date: g.date,
        provenance: g.provenance,
        action,
        rel_folder: g.folder,
        note,
    }
}

/// An item for a file that is left alone.
pub open spec fn skipped(
    f: FileModel,
    action: Action,
    folder: Seq<char>,
    note: Seq<char>,
) -> ItemModel {
    ItemModel {
        src: f.path,
        dst: Seq::empty(),
        kind: f.kind,
        size: f.size,
        date: None,
        provenance: DateProvenance::Absent,
        action,
        rel_folder: folder,
        note,
    }
}

/// The number of names that a rename tries.
pub const NAMES: u32 = 100000;

/// Whether a path is neither on disk nor claimed.
pub open spec fn is_free(p: Seq<char>, claimed: Set<Seq<char>>, disk: Disk) -> bool {
    !(disk.present)(p) && !claimed.contains(place_key(p))
}

/// The first free numbered path from the `n`-th on.
pub open spec fn free_path(
    p: Seq<char>,
    n: int,
    claimed: Set<Seq<char>>,
    disk: Disk,
    pid: u32,
) -> Seq<char>
    decreases NAMES - n,
{
    if n >= NAMES {
        last_resort(p, pid)
    } else if is_free(numbered_path(p, n), claimed, disk) {
        numbered_path(p, n)
    } else {
        free_path(p, n + 1, claimed, disk, pid)
    }
}

/// What becomes of a file whose place is taken by something else.
pub open spec fn in_conflict(
    job: Job,
    cfg: ConfigModel,
    candidate: Seq<char>,
    claimed: Set<Seq<char>>,
    disk: Disk,
    pid: u32,
) -> ItemModel {
    let (g, f) = job;
    match cfg.on_conflict {
        OnConflictArg::Skip => skipped(
            f,
            Action::SkipConflict,
            g.folder,
            "target exists (skip)"@,
        ),
        OnConflictArg::Overwrite => moved(
            f,
            g,
            candidate,
            Action::Overwrite,
            "overwriting existing target"@,
        ),
        OnConflictArg::Rename => moved(
            f,
            g,
            free_path(candidate, 1, claimed, disk, pid),
            transfer_action(cfg),
            "renamed to avoid conflict"@,
        ),
    }
}

/// What becomes of a file whose place exists on disk (`on_disk`), or is
/// claimed by the plan. Only what is on disk can make it a duplicate: two
/// sources that meet in one place go through conflict handling, so that no
/// photo is dropped as a duplicate of another one in the same run.
pub open spec fn in_collision(
    job: Job,
    cfg: ConfigModel,
    candidate: Seq<char>,
    on_disk: bool,
    claimed: Set<Seq<char>>,
    disk: Disk,
    pid: u32,
) -> ItemModel {
    let (g, f) = job;
    if on_disk && cfg.dedup == DedupArg::Name {
        skipped(f, Action::SkipDuplicate, g.folder, "same name already at target"@)
    } else if on_disk && cfg.dedup == DedupArg::Hash && (disk.same)(f.path, candidate) {
        skipped(f, Action::SkipDuplicate, g.folder, "identical content already at target"@)
    } else {
        in_conflict(job, cfg, candidate, claimed, disk, pid)
    }
}

/// What becomes of a file.
pub open spec fn decision(
    job: Job,
    cfg: ConfigModel,
    claimed: Set<Seq<char>>,
    disk: Disk,
    pid: u32,
) -> ItemModel {
    let (g, f) = job;
    let candidate = candidate_of(f, g, cfg);
    let on_disk = (disk.present)(candidate);
    if g.skip_no_date {
        skipped(f, Action::SkipNoDate, g.folder, "no capture date"@)
    } else if !guard::inside(candidate, cfg.dest) {
        moved(f, g, candidate, Action::SkipConflict, "target would escape the destination root"@)
    } else if !on_disk && !claimed.contains(place_key(candidate)) {
        moved(f, g, candidate, transfer_action(cfg), Seq::empty())
    } else {
        in_collision(job, cfg, candidate, on_disk, claimed, disk, pid)
    }
}

/// The claims once an item has been decided.
pub open spec fn claims(claimed: Set<Seq<char>>, item: ItemModel) -> Set<Seq<char>> {
    if types::skips(item.action) {
        claimed
    } else {
        claimed.insert(place_key(item.dst))
    }
}

/// The items of the files from the `k`-th on.
pub open spec fn decisions(
    jobs: Seq<Job>,
    k: int,
    cfg: ConfigModel,
    claimed: Set<Seq<char>>,
    disk: Disk,
    pid: u32,
) -> Seq<ItemModel>
    decreases jobs.len() - k,
{
    if k < 0 || k >= jobs.len() {
        Seq::empty()
    } else {
        let item = decision(jobs[k], cfg, claimed, disk, pid);
        seq![item] + decisions(jobs, k + 1, cfg, claims(claimed, item), disk, pid)
    }
}

/// The plan for groups in order.
pub open spec fn items_of(
    gs: Seq<GroupModel>,
    cfg: ConfigModel,
    disk: Disk,
    pid: u32,
) -> Seq<ItemModel> {
    decisions(jobs_of(gs), 0, cfg, Set::empty(), disk, pid)
}

// ---------------------------------------------------------------------------
// The machine
// ---------------------------------------------------------------------------

struct FileJob {
    group: usize,
    file: MediaFile,
}

/// The files to be placed, with their groups.
spec fn job_models(jobs: Seq<FileJob>, groups: Seq<Group>) -> Seq<Job> {
    Seq::new(jobs.len(), |i: int| (groups[jobs[i].group as int]@, jobs[i].file@))
}

/// What is asked about the disk.
pub enum Question {
    /// Does the path exist?
    Exists { path: String },
    /// Do the two files hold the same bytes? Files that cannot be read do not.
    Same { a: String, b: String },
}

/// The model of a [`Question`].
#[verifier::ext_equal]
pub enum Asked {
    Exists(Seq<char>),
    Same(Seq<char>, Seq<char>),
}

impl View for Question {
    type V = Asked;

    open spec fn view(&self) -> Asked {
        match self {
            Question::Exists { path } => Asked::Exists(path@),
            Question::Same { a, b } => Asked::Same(a@, b@),
        }
    }
}

/// The true answer to a question.
pub open spec fn truth(disk: Disk, q: Asked) -> bool {
    match q {
        Asked::Exists(p) => (disk.present)(p),
        Asked::Same(a, b) => (disk.same)(a, b),
    }
}

/// Where the decision on one file stands.
#[derive(Clone, Copy, PartialEq, Eq, Structural)]
enum Step {
    /// Whether the candidate exists has to be known.
    Exists,
    /// Whether the file on disk is a duplicate has to be known.
    Same,
    /// Whether the `n`-th numbered path exists has to be known.
    Rename { n: u32 },
}

/// Expands groups into per-file plan items, resolving dedup/conflicts. The
/// machine says what it has to know of the disk ([`Targeting::need`]) and
/// takes the answer ([`Targeting::give`]).
pub struct Targeting {
    groups: Vec<Group>,
    jobs: Vec<FileJob>,
    at: usize,
    step: Step,
    candidate: String,
    claimed: StringHashSet,
    items: Vec<PlanItem>,
    pid: u32,
}

impl Targeting {
    spec fn job_seq(self) -> Seq<Job> {
        job_models(self.jobs@, self.groups@)
    }

    /// What every state keeps of its tables.
    spec fn tables(self) -> bool {
        &&& self.at <= self.jobs@.len()
        &&& forall|i: int|
            0 <= i < self.jobs@.len() ==> (#[trigger] self.jobs@[i]).group < self.groups@.len()
    }

    /// What every state keeps.
    pub closed spec fn wf(self, cfg: ConfigModel) -> bool {
        &&& self.tables()
        &&& self.at < self.jobs@.len() ==> {
            let (g, f) = self.job_seq()[self.at as int];
            &&& self.candidate@ == candidate_of(f, g, cfg)
            &&& !g.skip_no_date
            &&& guard::inside(self.candidate@, cfg.dest)
            &&& self.step is Same ==> cfg.dedup == DedupArg::Hash
            &&& self.step is Rename ==> cfg.on_conflict == OnConflictArg::Rename
            &&& self.step matches Step::Rename { n } ==> 1 <= n < NAMES
        }
    }

    /// Whether every file has its item.
    pub closed spec fn ended(self) -> bool {
        self.at == self.jobs@.len()
    }

    /// How many answers the decision on one file can still take at most.
    spec fn step_left(self) -> int {
        match self.step {
            Step::Exists => NAMES + 1,
            Step::Same => NAMES as int,
            Step::Rename { n } => NAMES - n,
        }
    }

    /// How many answers the machine can still take at most: whether a file's
    /// place exists, whether it holds the same bytes, and whether each of the
    /// numbered places does.
    pub closed spec fn left(self) -> int {
        if self.at >= self.jobs@.len() {
            0
        } else {
            (self.jobs@.len() - self.at - 1) * (NAMES + 1) + self.step_left()
        }
    }

    /// What becomes of the file being decided.
    spec fn pending(self, cfg: ConfigModel, disk: Disk) -> ItemModel {
        let job = self.job_seq()[self.at as int];
        let c = self.candidate@;
        match self.step {
            Step::Exists => decision(job, cfg, self.claimed@, disk, self.pid),
            Step::Same => in_collision(job, cfg, c, true, self.claimed@, disk, self.pid),
            Step::Rename { n } => moved(
                job.1,
                job.0,
                free_path(c, n as int, self.claimed@, disk, self.pid),
                transfer_action(cfg),
                "renamed to avoid conflict"@,
            ),
        }
    }

    /// The items that the machine ends with.
    pub closed spec fn outcome(self, cfg: ConfigModel, disk: Disk) -> Seq<ItemModel> {
        let done = types::item_models(self.items@);
        if self.at == self.jobs@.len() {
            done
        } else {
            let item = self.pending(cfg, disk);
            done.push(item) + decisions(
                self.job_seq(),
                self.at + 1,
                cfg,
                claims(self.claimed@, item),
                disk,
                self.pid,
            )
        }
    }

    /// What has to be known next.
    pub closed spec fn asked(self) -> Asked {
        match self.step {
            Step::Exists => Asked::Exists(self.candidate@),
            Step::Same => Asked::Same(self.jobs@[self.at as int].file.path@, self.candidate@),
            Step::Rename { n } => Asked::Exists(numbered_path(self.candidate@, n as int)),
        }
    }

    /// Starts with the first file. The groups are in order; `pid` makes the
    /// name that is taken where a hundred thousand others are taken.
    pub fn new(groups: Vec<Group>, cfg: &RunConfig, pid: u32) -> (r: Targeting)
        ensures
            r.wf(cfg@),
            forall|disk: Disk|
                #[trigger] r.outcome(cfg@, disk) == items_of(
                    plan::group_models(groups@),
                    cfg@,
                    disk,
                    pid,
                ),
    {
        let jobs: Vec<FileJob> = list_jobs(&groups);
        let mut t = Targeting {
            groups,
            jobs,
            at: 0,
            step: Step::Exists,
            candidate: String::new(),
            claimed: StringHashSet::new(),
            items: Vec::new(),
            pid,
        };
        t.advance(cfg);
        proof {
            assert forall|disk: Disk|
                #[trigger] t.outcome(cfg@, disk) == items_of(
                    plan::group_models(groups@),
                    cfg@,
                    disk,
                    pid,
                ) by {
                let all = items_of(plan::group_models(groups@), cfg@, disk, pid);
                assert(types::item_models(Seq::<PlanItem>::empty()) + all =~= all);
            }
        }
        t
    }

    /// What has to be known of the disk next; `None` once every file has its
    /// item.
    pub fn need(&self, cfg: &RunConfig) -> (r: Option<Question>)
        requires
            self.wf(cfg@),
        ensures
            r is None <==> self.ended(),
            r is None <==> self.left() == 0,
            self.left() >= 0,
            r matches Some(q) ==> q@ == self.asked(),
    {
        if self.at == self.jobs.len() {
            return None;
        }
        Some(
            match self.step {
                Step::Exists => Question::Exists { path: self.candidate.clone() },
                Step::Same => Question::Same {
                    a: self.jobs[self.at].file.path.clone(),
                    b: self.candidate.clone(),
                },
                Step::Rename { n } => Question::Exists {
                    path: numbered_target(self.candidate.as_str(), n),
                },
            },
        )
    }

    /// Takes the answer. For every disk on which the answer is true, the
    /// machine goes on to the same end as before, and comes nearer to it: fewer
    /// questions are left.
    pub fn give(&mut self, answer: bool, cfg: &RunConfig)
        requires
            old(self).wf(cfg@),
            !old(self).ended(),
        ensures
            final(self).wf(cfg@),
            0 <= final(self).left() < old(self).left(),
            forall|disk: Disk|
                truth(disk, old(self).asked()) == answer ==> #[trigger] final(self).outcome(
                    cfg@,
                    disk,
                ) == old(self).outcome(cfg@, disk),
    {
        let ghost before = *self;
        let ghost job = self.job_seq()[self.at as int];
        match self.step {
            Step::Exists => {
                let key: String = claim_key(self.candidate.as_str());
                let in_plan: bool = self.claimed.contains(key.as_str());
                if !answer && !in_plan {
                    let item: PlanItem = self.move_item(
                        self.candidate.clone(),
                        move_action(cfg),
                        "",
                    );
                    proof {
                        reveal_strlit("");
                        assert(""@ =~= Seq::<char>::empty());
                    }
                    self.push(item, cfg);
                } else if answer && cfg.dedup == DedupArg::Name {
                    let item: PlanItem = self.skip_item(
                        Action::SkipDuplicate,
                        "same name already at target",
                    );
                    self.push(item, cfg);
                } else if answer && cfg.dedup == DedupArg::Hash {
                    self.step = Step::Same;
                    proof {
                        assert forall|disk: Disk|
                            truth(disk, before.asked()) == answer implies #[trigger] self.outcome(
                            cfg@,
                            disk,
                        ) == before.outcome(cfg@, disk) by {
                            assert(self.pending(cfg@, disk) == before.pending(cfg@, disk));
                        }
                    }
                } else {
                    self.conflict(cfg);
                }
            },
            Step::Same => {
                if answer {
                    let item: PlanItem = self.skip_item(
                        Action::SkipDuplicate,
                        "identical content already at target",
                    );
                    self.push(item, cfg);
                } else {
                    self.conflict(cfg);
                }
            },
            Step::Rename { n } => {
                let p: String = numbered_target(self.candidate.as_str(), n);
                let key: String = claim_key(p.as_str());
                if !answer && !self.claimed.contains(key.as_str()) {
                    let item: PlanItem = self.move_item(
                        p,
                        move_action(cfg),
                        "renamed to avoid conflict",
                    );
                    self.push(item, cfg);
                } else if n + 1 < NAMES {
                    self.step = Step::Rename { n: n + 1 };
                    proof {
                        assert forall|disk: Disk|
                            truth(disk, before.asked()) == answer implies #[trigger] self.outcome(
                            cfg@,
                            disk,
                        ) == before.outcome(cfg@, disk) by {
                            assert(self.pending(cfg@, disk) == before.pending(cfg@, disk));
                        }
                    }
                } else {
                    let q: String = fallback_target(self.candidate.as_str(), self.pid);
                    let item: PlanItem = self.move_item(
                        q,
                        move_action(cfg),
                        "renamed to avoid conflict",
                    );
                    proof {
                        assert forall|disk: Disk|
                            truth(disk, before.asked()) == answer implies #[trigger] before.pending(
                            cfg@,
                            disk,
                        ) == item@ by {
                            let c = before.candidate@;
                            assert(free_path(c, n + 1, before.claimed@, disk, before.pid)
                                == last_resort(c, before.pid));
                        }
                    }
                    self.push(item, cfg);
                }
            },
        }
    }

    /// The items.
    pub fn finish(self, cfg: &RunConfig) -> (r: Vec<PlanItem>)
        requires
            self.wf(cfg@),
            self.ended(),
        ensures
            forall|disk: Disk| types::item_models(r@) == #[trigger] self.outcome(cfg@, disk),
    {
        self.items
    }

    /// The place of the file being decided is taken by something else. Where
    /// conflicts are renamed, the numbered places are tried from the first one
    /// on, and nothing is decided yet. Else the file has its item, and the
    /// machine goes on to a later file.
    fn conflict(&mut self, cfg: &RunConfig)
        requires
            old(self).wf(cfg@),
            old(self).at < old(self).jobs@.len(),
        ensures
            final(self).wf(cfg@),
            final(self).jobs == old(self).jobs,
            cfg.on_conflict == OnConflictArg::Rename ==> {
                &&& final(self).step == (Step::Rename { n: 1 })
                &&& final(self).at == old(self).at
                &&& final(self).items == old(self).items
                &&& final(self).claimed == old(self).claimed
            },
            cfg.on_conflict != OnConflictArg::Rename ==> {
                &&& final(self).at > old(self).at
                &&& final(self).ended() || final(self).step is Exists
                &&& forall|disk: Disk|
                    types::item_models(final(self).items@).take(
                        (old(self).items@.len() + 1) as int,
                    ) == types::item_models(old(self).items@).push(
                        #[trigger] in_conflict(
                            old(self).job_seq()[old(self).at as int],
                            cfg@,
                            old(self).candidate@,
                            old(self).claimed@,
                            disk,
                            old(self).pid,
                        ),
                    )
            },
            forall|disk: Disk|
                old(self).pending(cfg@, disk) == in_conflict(
                    old(self).job_seq()[old(self).at as int],
                    cfg@,
                    old(self).candidate@,
                    old(self).claimed@,
                    disk,
                    old(self).pid,
                ) ==> #[trigger] final(self).outcome(cfg@, disk) == old(self).outcome(cfg@, disk),
    {
        let ghost before = *self;
        match cfg.on_conflict {
            OnConflictArg::Skip => {
                let item: PlanItem = self.skip_item(Action::SkipConflict, "target exists (skip)");
                self.push(item, cfg);
            },
            OnConflictArg::Overwrite => {
                let item: PlanItem = self.move_item(
                    self.candidate.clone(),
                    Action::Overwrite,
                    "overwriting existing target",
                );
                self.push(item, cfg);
            },
            OnConflictArg::Rename => {
                self.step = Step::Rename { n: 1 };
                proof {
                    assert forall|disk: Disk|
                        before.pending(cfg@, disk) == in_conflict(
                            before.job_seq()[before.at as int],
                            cfg@,
                            before.candidate@,
                            before.claimed@,
                            disk,
                            before.pid,
                        ) implies #[trigger] self.outcome(cfg@, disk) == before.outcome(
                        cfg@,
                        disk,
                    ) by {
                        assert(self.pending(cfg@, disk) == before.pending(cfg@, disk));
                    }
                }
            },
        }
    }

    /// An item for the file being decided, which is transferred.
    fn move_item(&self, dst: String, action: Action, note: &str) -> (r: PlanItem)
        requires
            self.tables(),
            self.at < self.jobs@.len(),
        ensures
            r@ == moved(
                self.job_seq()[self.at as int].1,
                self.job_seq()[self.at as int].0,
                dst@,
                action,
                note@,
            ),
    {
        let f: &MediaFile = &self.jobs[self.at].file;
        let g: &Group = &self.groups[self.jobs[self.at].group];
        PlanItem {
            src: f.path.clone(),
            dst,
            kind: f.kind,
            size: f.size,
            date: g.date,
            provenance: g.provenance,
            action,
            rel_folder: g.folder.clone(),
            note: note.to_owned(),
        }
    }

    /// An item for the file being decided, which is left alone.
    fn skip_item(&self, action: Action, note: &str) -> (r: PlanItem)
        requires
            self.tables(),
            self.at < self.jobs@.len(),
        ensures
            r@ == skipped(
                self.job_seq()[self.at as int].1,
                action,
                self.job_seq()[self.at as int].0.folder,
                note@,
            ),
    {
        let f: &MediaFile = &self.jobs[self.at].file;
        let g: &Group = &self.groups[self.jobs[self.at].group];
        PlanItem {
            src: f.path.clone(),
            dst: String::new(),
            kind: f.kind,
            size: f.size,
            date: None,
            provenance: DateProvenance::Absent,
            action,
            rel_folder: g.folder.clone(),
            note: note.to_owned(),
        }
    }

    /// Takes the item of the file being decided, with its claim.
    fn record(&mut self, item: PlanItem)
        requires
            old(self).tables(),
            old(self).at < old(self).jobs@.len(),
        ensures
            final(self).tables(),
            final(self).at == old(self).at + 1,
            final(self).jobs == old(self).jobs,
            final(self).groups == old(self).groups,
            final(self).pid == old(self).pid,
            final(self).step == old(self).step,
            final(self).claimed@ == claims(old(self).claimed@, item@),
            types::item_models(final(self).items@) == types::item_models(old(self).items@).push(
                item@,
            ),
    {
        let n: usize = self.jobs.len();
        if !item.action.is_skip() {
            self.claimed.insert(claim_key(item.dst.as_str()));
        }
        let ghost held = self.items@;
        proof {
            assert(types::item_models(held.push(item)) =~= types::item_models(held).push(item@));
        }
        self.items.push(item);
        self.at = self.at + 1;
    }

    /// Takes the item of the file being decided and goes on to the next file.
    fn push(&mut self, item: PlanItem, cfg: &RunConfig)
        requires
            old(self).tables(),
            old(self).at < old(self).jobs@.len(),
        ensures
            final(self).wf(cfg@),
            final(self).jobs == old(self).jobs,
            final(self).at > old(self).at,
            final(self).ended() || final(self).step is Exists,
            types::item_models(final(self).items@).take((old(self).items@.len() + 1) as int)
                == types::item_models(old(self).items@).push(item@),
            forall|disk: Disk|
                item@ == old(self).pending(cfg@, disk) ==> #[trigger] final(self).outcome(
                    cfg@,
                    disk,
                ) == old(self).outcome(cfg@, disk),
    {
        self.record(item);
        let ghost recorded = types::item_models(self.items@);
        self.advance(cfg);
        proof {
            assert(recorded.len() == old(self).items@.len() + 1);
        }
    }

    /// Goes on to the next file for which the disk has to be known.
    fn advance(&mut self, cfg: &RunConfig)
        requires
            old(self).tables(),
        ensures
            final(self).wf(cfg@),
            final(self).jobs == old(self).jobs,
            final(self).at >= old(self).at,
            final(self).ended() || final(self).step is Exists,
            final(self).items@.len() >= old(self).items@.len(),
            types::item_models(final(self).items@).take(old(self).items@.len() as int)
                == types::item_models(old(self).items@),
            forall|disk: Disk|
                #[trigger] final(self).outcome(cfg@, disk) == types::item_models(old(self).items@)
                    + decisions(
                    old(self).job_seq(),
                    old(self).at as int,
                    cfg@,
                    old(self).claimed@,
                    disk,
                    old(self).pid,
                ),
    {
        let ghost start = *self;
        self.step = Step::Exists;
        proof {
            let held = types::item_models(self.items@);
            assert(held.take(held.len() as int) =~= held);
        }
        while self.at < self.jobs.len()
            invariant
                self.tables(),
                self.step is Exists,
                start == *old(self),
                self.jobs == start.jobs,
                self.groups == start.groups,
                self.pid == start.pid,
                self.at >= start.at,
                self.items@.len() >= start.items@.len(),
                types::item_models(self.items@).take(start.items@.len() as int)
                    == types::item_models(start.items@),
                forall|disk: Disk|
                    types::item_models(self.items@) + #[trigger] decisions(
                        self.job_seq(),
                        self.at as int,
                        cfg@,
                        self.claimed@,
                        disk,
                        self.pid,
                    ) == types::item_models(start.items@) + decisions(
                        start.job_seq(),
                        start.at as int,
                        cfg@,
                        start.claimed@,
                        disk,
                        start.pid,
                    ),
            decreases self.jobs@.len() - self.at,
        {
            let ghost before = *self;
            let ghost job = self.job_seq()[self.at as int];
            let j: &FileJob = &self.jobs[self.at];
            let g: &Group = &self.groups[j.group];
            let candidate: String = paths::join(
                plan::folder_in(cfg.dest.as_str(), g.folder.as_str()).as_str(),
                target_filename(&j.file, g, cfg).as_str(),
            );
            let item: PlanItem;
            if g.skip_no_date {
                item = self.skip_item(Action::SkipNoDate, "no capture date");
            } else if !guard::is_inside(candidate.as_str(), cfg.dest.as_str()) {
                item = self.move_item(
                    candidate,
                    Action::SkipConflict,
                    "target would escape the destination root",
                );
            } else {
                self.candidate = candidate;
                proof {
                    assert forall|disk: Disk|
                        #[trigger] self.outcome(cfg@, disk) == types::item_models(start.items@)
                            + decisions(
                            start.job_seq(),
                            start.at as int,
                            cfg@,
                            start.claimed@,
                            disk,
                            start.pid,
                        ) by {
                        let d = decisions(
                            before.job_seq(),
                            before.at as int,
                            cfg@,
                            before.claimed@,
                            disk,
                            before.pid,
                        );
                        assert(types::item_models(before.items@) + d =~= self.outcome(cfg@, disk));
                    }
                }
                return;
            }
            self.record(item);
            proof {
                let k = start.items@.len() as int;
                assert(types::item_models(self.items@).take(k) =~= types::item_models(
                    before.items@,
                ).take(k));
                assert forall|disk: Disk|
                    types::item_models(self.items@) + #[trigger] decisions(
                        self.job_seq(),
                        self.at as int,
                        cfg@,
                        self.claimed@,
                        disk,
                        self.pid,
                    ) == types::item_models(start.items@) + decisions(
                        start.job_seq(),
                        start.at as int,
                        cfg@,
                        start.claimed@,
                        disk,
                        start.pid,
                    ) by {
                    let d = decisions(
                        before.job_seq(),
                        before.at as int,
                        cfg@,
                        before.claimed@,
                        disk,
                        before.pid,
                    );
                    assert(item@ == decision(job, cfg@, before.claimed@, disk, before.pid));
                    let e = decisions(
                        self.job_seq(),
                        self.at as int,
                        cfg@,
                        self.claimed@,
                        disk,
                        self.pid,
                    );
                    assert(types::item_models(self.items@) + e =~= types::item_models(
                        before.items@,
                    ) + d);
                }
            }
        }
        proof {
            assert forall|disk: Disk|
                #[trigger] self.outcome(cfg@, disk) == types::item_models(start.items@) + decisions(
                    start.job_seq(),
                    start.at as int,
                    cfg@,
                    start.claimed@,
                    disk,
                    start.pid,
                ) by {
                let d = decisions(
                    self.job_seq(),
                    self.at as int,
                    cfg@,
                    self.claimed@,
                    disk,
                    self.pid,
                );
                assert(types::item_models(self.items@) + d =~= self.outcome(cfg@, disk));
            }
        }
    }
}

/// The action of an ordinary transfer.
fn move_action(cfg: &RunConfig) -> (r: Action)
    ensures
        r == transfer_action(cfg@),
{
    if cfg.link {
        Action::Link
    } else if cfg.is_copy() {
        Action::Copy
    } else {
        Action::Move
    }
}

/// The files of all groups, in order.
fn list_jobs(groups: &Vec<Group>) -> (r: Vec<FileJob>)
    ensures
        job_models(r@, groups@) == jobs_of(plan::group_models(groups@)),
        forall|i: int| 0 <= i < r@.len() ==> (#[trigger] r@[i]).group < groups@.len(),
{
    let ghost gs = plan::group_models(groups@);
    let mut r: Vec<FileJob> = Vec::new();
    let mut i: usize = 0;
    proof {
        assert(gs.take(0) =~= Seq::<GroupModel>::empty());
        assert(job_models(r@, groups@) =~= Seq::<Job>::empty());
    }
    while i < groups.len()
        invariant
            i <= groups@.len(),
            gs == plan::group_models(groups@),
            job_models(r@, groups@) == jobs_of(gs.take(i as int)),
            forall|k: int| 0 <= k < r@.len() ==> (#[trigger] r@[k]).group < groups@.len(),
        decreases groups@.len() - i,
    {
        let files: Vec<MediaFile> = order_group_files(&groups[i].files);
        let ghost ordered = types::file_models(files@);
        let ghost done = job_models(r@, groups@);
        let mut k: usize = 0;
        proof {
            assert(done + tagged(groups@[i as int]@, ordered.take(0)) =~= done);
        }
        while k < files.len()
            invariant
                i < groups@.len(),
                k <= files@.len(),
                ordered == types::file_models(files@),
                job_models(r@, groups@) == done + tagged(
                    groups@[i as int]@,
                    ordered.take(k as int),
                ),
                forall|k: int| 0 <= k < r@.len() ==> (#[trigger] r@[k]).group < groups@.len(),
            decreases files@.len() - k,
        {
            let j = FileJob { group: i, file: files[k].copied() };
            let ghost held = r@;
            r.push(j);
            k = k + 1;
            proof {
                assert(job_models(r@, groups@) =~= job_models(held, groups@).push(
                    (groups@[i as int]@, j.file@),
                ));
                assert(tagged(groups@[i as int]@, ordered.take(k as int)) =~= tagged(
                    groups@[i as int]@,
                    ordered.take(k - 1),
                ).push((groups@[i as int]@, ordered[k - 1])));
            }
        }
        proof {
            assert(ordered.take(ordered.len() as int) =~= ordered);
            assert(gs.take(i + 1).drop_last() =~= gs.take(i as int));
            assert(gs.take(i + 1).last() == groups@[i as int]@);
        }
        i = i + 1;
    }
    proof {
        assert(gs.take(gs.len() as int) =~= gs);
    }
    r
}

/// Whether two byte strings are equal.
pub fn same_bytes(x: &Vec<u8>, y: &Vec<u8>) -> (r: bool)
    ensures
        r == (x@ == y@),
{
    if x.len() != y.len() {
        return false;
    }
    let mut i: usize = 0;
    while i < x.len()
        invariant
            i <= x@.len() == y@.len(),
            forall|k: int| 0 <= k < i ==> x@[k] == y@[k],
        decreases x@.len() - i,
    {
        if x[i] != y[i] {
            return false;
        }
        i = i + 1;
    }
    proof {
        assert(x@ =~= y@);
    }
    true
}

/// Whether two files hold the same bytes, judged by their digests. A file that
/// could not be read has none, and is not the same as any.
pub fn files_identical(a: &Option<Vec<u8>>, b: &Option<Vec<u8>>) -> (r: bool)
    ensures
        r == (a is Some && b is Some && a->0@ == b->0@),
{
    match (a, b) {
        (Some(x), Some(y)) => same_bytes(x, y),
        _ => false,
    }
}

} // verus!
