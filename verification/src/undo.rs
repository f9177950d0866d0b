//! `undo` — roll a previous organize run back to the source layout.
//!
//! An [`Undoing`] says which operation comes next ([`Undoing::ask`]), takes
//! what came of it ([`Undoing::reply`]) and says what is to be written down or
//! told.

use vstd::prelude::*;

use crate::clock;
use crate::clock::Moment;
use crate::engine::Files;
use crate::journal;
use crate::journal::{EntryModel, JournalEntry};
use crate::paths;
use crate::text;

verus! {

/// What an undo run came to.
pub struct UndoSummary {
    pub restored: usize,
    pub skipped: usize,
    pub errors: usize,
    /// Where the reverse operations were recorded, empty where there was
    /// nothing to undo.
    pub reverse_journal: String,
}

/// One file operation of an undo run.
pub enum UndoOp {
    /// Ask whether something is at a path, a dead link included.
    Present { path: String },
    /// Ask whether a path exists.
    Exists { path: String },
    /// Remove a file or a link.
    Remove { path: String },
    /// Create a directory and all above it.
    MakeDirs { path: String },
    /// Rename a file.
    Rename { from: String, to: String },
}

/// The model of an [`UndoOp`].
#[verifier::ext_equal]
pub enum UndoOpModel {
    Present(Seq<char>),
    Exists(Seq<char>),
    Remove(Seq<char>),
    MakeDirs(Seq<char>),
    Rename(Seq<char>, Seq<char>),
}

impl View for UndoOp {
    type V = UndoOpModel;

    open spec fn view(&self) -> UndoOpModel {
        match self {
            UndoOp::Present { path } => UndoOpModel::Present(path@),
            UndoOp::Exists { path } => UndoOpModel::Exists(path@),
            UndoOp::Remove { path } => UndoOpModel::Remove(path@),
            UndoOp::MakeDirs { path } => UndoOpModel::MakeDirs(path@),
            UndoOp::Rename { from, to } => UndoOpModel::Rename(from@, to@),
        }
    }
}

/// What came of an operation.
#[derive(Clone, Copy, PartialEq, Eq, Structural)]
pub enum UndoReply {
    Done,
    Failed,
    Found(bool),
}

/// Where the undoing of one entry stands.
#[derive(Clone, Copy, PartialEq, Eq, Structural)]
pub enum UndoStep {
    /// Is what the run wrote still there?
    Begin,
    /// Is the original of a copy still there?
    CheckOriginal,
    /// Remove the copy or the link.
    RemoveCopy,
    /// Has something else taken the place of the source?
    CheckSource,
    /// Recreate the directory of the source.
    MakeDirs,
    /// Move the file back.
    Restore,
}

/// What is to be told or written down.
pub enum UndoNote {
    /// Nothing.
    Silent,
    /// A skip, told unless the run is quiet.
    Skip { line: String },
    /// An error; the reason that the system gave follows.
    Error { line: String },
    /// A reverse operation for the reverse journal (the time is added there).
    Record { op: String, src: String, dst: String, bytes: u64 },
}

/// The model of an [`UndoNote`].
#[verifier::ext_equal]
pub enum NoteModel {
    Silent,
    Skip(Seq<char>),
    Error(Seq<char>),
    Record(Seq<char>, Seq<char>, Seq<char>, u64),
}

impl View for UndoNote {
    type V = NoteModel;

    open spec fn view(&self) -> NoteModel {
        match self {
            UndoNote::Silent => NoteModel::Silent,
            UndoNote::Skip { line } => NoteModel::Skip(line@),
            UndoNote::Error { line } => NoteModel::Error(line@),
            UndoNote::Record { op, src, dst, bytes } => NoteModel::Record(
                op@,
                src@,
                dst@,
                *bytes,
            ),
        }
    }
}

/// Whether an entry records a transfer that can be undone.
pub open spec fn undoable(e: EntryModel) -> bool {
    e.op == "move"@ || e.op == "overwrite"@ || e.op == "copy"@ || e.op == "link"@
}

/// Whether the transfer kept its source.
pub open spec fn kept_source(e: EntryModel) -> bool {
    e.op == "copy"@ || e.op == "link"@
}

/// The entries that can be undone, in order.
pub open spec fn undoables(entries: Seq<EntryModel>) -> Seq<EntryModel>
    decreases entries.len(),
{
    if entries.len() == 0 {
        entries
    } else if undoable(entries.last()) {
        undoables(entries.drop_last()).push(entries.last())
    } else {
        undoables(entries.drop_last())
    }
}

/// The state of an undo run. The last entry is undone next, so that later
/// transfers are undone first.
#[verifier::ext_equal]
pub struct UndoModel {
    pub todo: Seq<EntryModel>,
    pub step: UndoStep,
    pub restored: int,
    pub skipped: int,
    pub errors: int,
}

/// Where an undo run begins.
pub open spec fn begun(entries: Seq<EntryModel>) -> UndoModel {
    UndoModel {
        todo: undoables(entries),
        step: UndoStep::Begin,
        restored: 0,
        skipped: 0,
        errors: 0,
    }
}

/// The directory of the place to be restored.
pub open spec fn home(e: EntryModel) -> Option<Seq<char>> {
    match paths::parent_parts(e.src) {
        Some(c) => Some(paths::path_of(c)),
        None => None,
    }
}

/// The operation that is due, if any.
pub open spec fn due(m: UndoModel) -> Option<UndoOpModel> {
    if m.todo.len() == 0 {
        None
    } else {
        let e = m.todo.last();
        Some(
            match m.step {
                UndoStep::Begin => if kept_source(e) {
                    UndoOpModel::Present(e.dst)
                } else {
                    UndoOpModel::Exists(e.dst)
                },
                UndoStep::CheckOriginal => UndoOpModel::Exists(e.src),
                UndoStep::RemoveCopy => UndoOpModel::Remove(e.dst),
                UndoStep::CheckSource => UndoOpModel::Exists(e.src),
                UndoStep::MakeDirs => UndoOpModel::MakeDirs(crate::types::or_empty(home(e))),
                UndoStep::Restore => UndoOpModel::Rename(e.dst, e.src),
            },
        )
    }
}

/// The run goes on with the entry before, this one restored.
pub open spec fn restored(m: UndoModel) -> UndoModel {
    UndoModel {
        todo: m.todo.drop_last(),
        step: UndoStep::Begin,
        restored: m.restored + 1,
        ..m
    }
}

/// The run goes on with the entry before, this one skipped.
pub open spec fn skipped(m: UndoModel) -> UndoModel {
    UndoModel {
        todo: m.todo.drop_last(),
        step: UndoStep::Begin,
        skipped: m.skipped + 1,
        ..m
    }
}

/// The run goes on with the entry before, this one failed.
pub open spec fn failed(m: UndoModel) -> UndoModel {
    UndoModel {
        todo: m.todo.drop_last(),
        step: UndoStep::Begin,
        errors: m.errors + 1,
        ..m
    }
}

/// The run goes on with another step of the same entry.
pub open spec fn at_step(m: UndoModel, step: UndoStep) -> UndoModel {
    UndoModel { step, ..m }
}

/// The state after an operation that came out as said.
///
/// Undo of a copy or a link: the original is authoritative, so what was written
/// is removed. A copy is never removed where the original has gone missing: it
/// may be the only remaining data. A link holds no data, so it is always safe
/// to remove.
pub open spec fn advanced(m: UndoModel, r: UndoReply) -> UndoModel {
    let e = m.todo.last();
    let yes = r == UndoReply::Found(true);
    match m.step {
        UndoStep::Begin => if !yes {
            skipped(m)
        } else if e.op == "copy"@ {
            at_step(m, UndoStep::CheckOriginal)
        } else if e.op == "link"@ {
            at_step(m, UndoStep::RemoveCopy)
        } else {
            at_step(m, UndoStep::CheckSource)
        },
        UndoStep::CheckOriginal => if yes {
            at_step(m, UndoStep::RemoveCopy)
        } else {
            skipped(m)
        },
        UndoStep::RemoveCopy => if r == UndoReply::Done {
            restored(m)
        } else {
            failed(m)
        },
        UndoStep::CheckSource => if yes {
            skipped(m)
        } else if home(e) is Some {
            at_step(m, UndoStep::MakeDirs)
        } else {
            at_step(m, UndoStep::Restore)
        },
        UndoStep::MakeDirs => if r == UndoReply::Done {
            at_step(m, UndoStep::Restore)
        } else {
            failed(m)
        },
        UndoStep::Restore => if r == UndoReply::Done {
            restored(m)
        } else {
            failed(m)
        },
    }
}

/// What is to be told or written down after an operation that came out as
/// said.
pub open spec fn noted(m: UndoModel, r: UndoReply) -> NoteModel {
    let e = m.todo.last();
    let yes = r == UndoReply::Found(true);
    match m.step {
        UndoStep::Begin => if !yes && !kept_source(e) {
            NoteModel::Skip("skip: target gone, cannot restore "@ + e.dst)
        } else {
            NoteModel::Silent
        },
        UndoStep::CheckOriginal => if yes {
            NoteModel::Silent
        } else {
            NoteModel::Skip("skip: original gone, keeping copy "@ + e.dst)
        },
        UndoStep::RemoveCopy => if r == UndoReply::Done {
            NoteModel::Record("undo-"@ + e.op, e.dst, e.src, e.bytes)
        } else {
            NoteModel::Error("error: removing "@ + e.op + " "@ + e.dst)
        },
        UndoStep::CheckSource => if yes {
            NoteModel::Skip("skip: source already occupied "@ + e.src)
        } else {
            NoteModel::Silent
        },
        UndoStep::MakeDirs => if r == UndoReply::Done {
            NoteModel::Silent
        } else {
            NoteModel::Error("error: cannot recreate "@ + crate::types::or_empty(home(e)))
        },
        UndoStep::Restore => if r == UndoReply::Done {
            NoteModel::Record("undo-move"@, e.dst, e.src, e.bytes)
        } else {
            NoteModel::Error("error: restoring "@ + e.dst + " -> "@ + e.src)
        },
    }
}

/// Reverses every committed transfer (`dst -> src`) in reverse order.
pub struct Undoing {
    todo: Vec<JournalEntry>,
    step: UndoStep,
    restored: usize,
    skipped: usize,
    errors: usize,
}

impl View for Undoing {
    type V = UndoModel;

    closed spec fn view(&self) -> UndoModel {
        UndoModel {
            todo: journal::entry_models(self.todo@),
            step: self.step,
            restored: self.restored as int,
            skipped: self.skipped as int,
            errors: self.errors as int,
        }
    }
}

impl Undoing {
    /// What every state keeps: the numbers add up to no more than there were
    /// entries.
    pub closed spec fn wf(self) -> bool {
        self.restored + self.skipped + self.errors + self.todo@.len() <= usize::MAX
    }

    /// A run over the entries of a journal.
    pub fn new(entries: &Vec<JournalEntry>) -> (r: Undoing)
        ensures
            r.wf(),
            r@ == begun(journal::entry_models(entries@)),
    {
        let ghost all = journal::entry_models(entries@);
        let n: usize = entries.len();
        let mut todo: Vec<JournalEntry> = Vec::new();
        let mut i: usize = 0;
        proof {
            assert(all.take(0) =~= Seq::<EntryModel>::empty());
            assert(journal::entry_models(todo@) =~= Seq::<EntryModel>::empty());
        }
        while i < n
            invariant
                n == entries@.len(),
                i <= n,
                all == journal::entry_models(entries@),
                todo@.len() <= i,
                journal::entry_models(todo@) == undoables(all.take(i as int)),
            decreases n - i,
        {
            proof {
                assert(all.take(i + 1).drop_last() =~= all.take(i as int));
                assert(all.take(i + 1).last() == entries@[i as int]@);
            }
            let op: &str = entries[i].op.as_str();
            if text::same(op, "move") || text::same(op, "overwrite") || text::same(op, "copy")
                || text::same(op, "link") {
                let e: JournalEntry = journal::copy_entry(&entries[i]);
                proof {
                    assert(journal::entry_models(todo@.push(e)) =~= journal::entry_models(
                        todo@,
                    ).push(e@));
                }
                todo.push(e);
            }
            i = i + 1;
        }
        proof {
            assert(all.take(n as int) =~= all);
        }
        Undoing { todo, step: UndoStep::Begin, restored: 0, skipped: 0, errors: 0 }
    }

    /// How many entries are left.
    pub fn left(&self) -> (r: usize)
        ensures
            r == self@.todo.len(),
    {
        self.todo.len()
    }

    /// The operation that is due; `None` at the end.
    pub fn ask(&self) -> (r: Option<UndoOp>)
        ensures
            match r {
                Some(op) => due(self@) == Some(op@),
                None => due(self@) is None,
            },
    {
        let n: usize = self.todo.len();
        if n == 0 {
            return None;
        }
        let e: &JournalEntry = &self.todo[n - 1];
        proof {
            assert(self@.todo.last() == e@);
        }
        Some(
            match self.step {
                UndoStep::Begin => if text::same(e.op.as_str(), "copy") || text::same(
                    e.op.as_str(),
                    "link",
                ) {
                    UndoOp::Present { path: e.dst.clone() }
                } else {
                    UndoOp::Exists { path: e.dst.clone() }
                },
                UndoStep::CheckOriginal => UndoOp::Exists { path: e.src.clone() },
                UndoStep::RemoveCopy => UndoOp::Remove { path: e.dst.clone() },
                UndoStep::CheckSource => UndoOp::Exists { path: e.src.clone() },
                UndoStep::MakeDirs => UndoOp::MakeDirs { path: home_of(e) },
                UndoStep::Restore => UndoOp::Rename { from: e.dst.clone(), to: e.src.clone() },
            },
        )
    }

    /// Takes what came of the operation that was due, and says what is to be
    /// told or written down.
    pub fn reply(&mut self, r: UndoReply) -> (note: UndoNote)
        requires
            old(self).wf(),
            old(self)@.todo.len() > 0,
        ensures
            final(self).wf(),
            final(self)@ == advanced(old(self)@, r),
            note@ == noted(old(self)@, r),
    {
        let n: usize = self.todo.len();
        let e: JournalEntry = journal::copy_entry(&self.todo[n - 1]);
        proof {
            assert(self@.todo.last() == e@);
        }
        let yes: bool = match r {
            UndoReply::Found(true) => true,
            _ => false,
        };
        let done: bool = match r {
            UndoReply::Done => true,
            _ => false,
        };
        match self.step {
            UndoStep::Begin => {
                if !yes {
                    self.skip();
                    if text::same(e.op.as_str(), "copy") || text::same(e.op.as_str(), "link") {
                        UndoNote::Silent
                    } else {
                        let mut line: String = "skip: target gone, cannot restore ".to_owned();
                        line.append(e.dst.as_str());
                        UndoNote::Skip { line }
                    }
                } else if text::same(e.op.as_str(), "copy") {
                    self.step = UndoStep::CheckOriginal;
                    UndoNote::Silent
                } else if text::same(e.op.as_str(), "link") {
                    self.step = UndoStep::RemoveCopy;
                    UndoNote::Silent
                } else {
                    self.step = UndoStep::CheckSource;
                    UndoNote::Silent
                }
            },
            UndoStep::CheckOriginal => {
                if yes {
                    self.step = UndoStep::RemoveCopy;
                    UndoNote::Silent
                } else {
                    self.skip();
                    let mut line: String = "skip: original gone, keeping copy ".to_owned();
                    line.append(e.dst.as_str());
                    UndoNote::Skip { line }
                }
            },
            UndoStep::RemoveCopy => {
                if done {
                    self.restore();
                    let mut op: String = "undo-".to_owned();
                    op.append(e.op.as_str());
                    UndoNote::Record { op, src: e.dst, dst: e.src, bytes: e.bytes }
                } else {
                    self.fail();
                    let mut line: String = "error: removing ".to_owned();
                    line.append(e.op.as_str());
                    line.append(" ");
                    line.append(e.dst.as_str());
                    UndoNote::Error { line }
                }
            },
            UndoStep::CheckSource => {
                if yes {
                    self.skip();
                    let mut line: String = "skip: source already occupied ".to_owned();
                    line.append(e.src.as_str());
                    UndoNote::Skip { line }
                } else if paths::parent(e.src.as_str()).is_some() {
                    self.step = UndoStep::MakeDirs;
                    UndoNote::Silent
                } else {
                    self.step = UndoStep::Restore;
                    UndoNote::Silent
                }
            },
            UndoStep::MakeDirs => {
                if done {
                    self.step = UndoStep::Restore;
                    UndoNote::Silent
                } else {
                    self.fail();
                    let mut line: String = "error: cannot recreate ".to_owned();
                    line.append(home_of(&e).as_str());
                    UndoNote::Error { line }
                }
            },
            UndoStep::Restore => {
                if done {
                    self.restore();
                    UndoNote::Record {
                        op: "undo-move".to_owned(),
                        src: e.dst,
                        dst: e.src,
                        bytes: e.bytes,
                    }
                } else {
                    self.fail();
                    let mut line: String = "error: restoring ".to_owned();
                    line.append(e.dst.as_str());
                    line.append(" -> ");
                    line.append(e.src.as_str());
                    UndoNote::Error { line }
                }
            },
        }
    }

    /// What the run has come to.
    pub fn summary(&self, reverse_journal: String) -> (r: UndoSummary)
        ensures
            r.restored == self@.restored,
            r.skipped == self@.skipped,
            r.errors == self@.errors,
            r.reverse_journal == reverse_journal,
    {
        UndoSummary {
            restored: self.restored,
            skipped: self.skipped,
            errors: self.errors,
            reverse_journal,
        }
    }

    fn next_entry(&mut self)
        requires
            old(self).todo@.len() > 0,
        ensures
            final(self)@ == (UndoModel {
                todo: old(self)@.todo.drop_last(),
                step: UndoStep::Begin,
                ..old(self)@
            }),
            final(self).todo@.len() == old(self).todo@.len() - 1,
            final(self).restored == old(self).restored,
            final(self).skipped == old(self).skipped,
            final(self).errors == old(self).errors,
    {
        let ghost before = self.todo@;
        let _ = self.todo.pop();
        proof {
            assert(journal::entry_models(self.todo@) =~= journal::entry_models(
                before,
            ).drop_last());
        }
        self.step = UndoStep::Begin;
    }

    fn restore(&mut self)
        requires
            old(self).wf(),
            old(self).todo@.len() > 0,
        ensures
            final(self).wf(),
            final(self)@ == restored(old(self)@),
    {
        self.next_entry();
        self.restored = self.restored + 1;
    }

    fn skip(&mut self)
        requires
            old(self).wf(),
            old(self).todo@.len() > 0,
        ensures
            final(self).wf(),
            final(self)@ == skipped(old(self)@),
    {
        self.next_entry();
        self.skipped = self.skipped + 1;
    }

    fn fail(&mut self)
        requires
            old(self).wf(),
            old(self).todo@.len() > 0,
        ensures
            final(self).wf(),
            final(self)@ == failed(old(self)@),
    {
        self.next_entry();
        self.errors = self.errors + 1;
    }
}

fn home_of(e: &JournalEntry) -> (r: String)
    ensures
        r@ == crate::types::or_empty(home(e@)),
{
    match paths::parent(e.src.as_str()) {
        Some(p) => p,
        None => String::new(),
    }
}

// ---------------------------------------------------------------------------
// The reverse journal
// ---------------------------------------------------------------------------

/// A moment as a stamp in a file name, such as `20260620-090503`.
pub open spec fn stamp_text(m: Moment) -> Seq<char> {
    clock::year_text(m.year as int) + clock::two(m.month as int) + clock::two(m.day as int) + "-"@
        + clock::two(m.hour as int) + clock::two(m.minute as int) + clock::two(m.second as int)
}

/// The path of the reverse journal: beside the journal, with its name and a
/// stamp.
pub open spec fn reverse_path(journal: Seq<char>, now: Moment) -> Seq<char> {
    let base = match paths::name_of(journal) {
        Some(n) => n,
        None => "journal"@,
    };
    let dir = match paths::name_of(journal) {
        Some(_) => paths::path_of(paths::parts(journal).drop_last()),
        None => journal,
    };
    paths::joined(dir, base + ".undo-"@ + stamp_text(now) + ".jsonl"@)
}

fn stamp(m: Moment) -> (r: String)
    ensures
        r@ == stamp_text(m),
{
    let mut s: String = clock::format_year(m.year);
    s.append(clock::two_digits(m.month).as_str());
    s.append(clock::two_digits(m.day).as_str());
    s.append("-");
    s.append(clock::two_digits(m.hour).as_str());
    s.append(clock::two_digits(m.minute).as_str());
    s.append(clock::two_digits(m.second).as_str());
    s
}

/// The path of the reverse journal of a run at a given time.
pub fn reverse_journal_path(journal: &str, now: Moment) -> (r: String)
    ensures
        r@ == reverse_path(journal@, now),
{
    let mut name: String;
    let dir: String;
    match paths::file_name(journal) {
        Some(n) => {
            name = n;
            dir = match paths::parent(journal) {
                Some(d) => d,
                None => String::new(),
            };
        },
        None => {
            name = "journal".to_owned();
            dir = journal.to_owned();
        },
    }
    name.append(".undo-");
    name.append(stamp(now).as_str());
    name.append(".jsonl");
    paths::join(dir.as_str(), name.as_str())
}

// ---------------------------------------------------------------------------
// Laws
// ---------------------------------------------------------------------------

/// The true answer of a file system on which every operation succeeds.
pub open spec fn answer(fs: Files, op: UndoOpModel) -> UndoReply {
    match op {
        UndoOpModel::Present(p) => UndoReply::Found(fs.contains_key(p)),
        UndoOpModel::Exists(p) => UndoReply::Found(fs.contains_key(p)),
        _ => UndoReply::Done,
    }
}

/// The file system after an operation that succeeded.
pub open spec fn effect(fs: Files, op: UndoOpModel) -> Files {
    match op {
        UndoOpModel::Remove(p) => fs.remove(p),
        UndoOpModel::Rename(from, to) => fs.remove(from).insert(to, fs[from]),
        _ => fs,
    }
}

/// The run and the file system after `n` operations.
pub open spec fn played(m: UndoModel, fs: Files, n: nat) -> (UndoModel, Files)
    decreases n,
{
    if n == 0 || due(m) is None {
        (m, fs)
    } else {
        let op = due(m)->0;
        played(advanced(m, answer(fs, op)), effect(fs, op), (n - 1) as nat)
    }
}

/// The file system once an entry has been undone. What cannot be undone
/// without losing something is left alone.
pub open spec fn undone_entry(fs: Files, e: EntryModel) -> Files {
    if !fs.contains_key(e.dst) {
        fs
    } else if e.op == "link"@ {
        fs.remove(e.dst)
    } else if e.op == "copy"@ {
        if fs.contains_key(e.src) {
            fs.remove(e.dst)
        } else {
            fs
        }
    } else if fs.contains_key(e.src) {
        fs
    } else {
        fs.remove(e.dst).insert(e.src, fs[e.dst])
    }
}

/// How many operations the undoing of an entry takes.
pub open spec fn effort(fs: Files, e: EntryModel) -> nat {
    if !fs.contains_key(e.dst) {
        1
    } else if e.op == "link"@ {
        2
    } else if e.op == "copy"@ {
        if fs.contains_key(e.src) {
            3
        } else {
            2
        }
    } else if fs.contains_key(e.src) {
        2
    } else if home(e) is Some {
        4
    } else {
        3
    }
}

/// Undoing an entry does to the file system what [`undone_entry`] says, and
/// the run goes on with the entry before.
pub proof fn law_undo_one(m: UndoModel, fs: Files)
    requires
        m.todo.len() > 0,
        m.step == UndoStep::Begin,
        undoable(m.todo.last()),
    ensures
        played(m, fs, effort(fs, m.todo.last())).1 == undone_entry(fs, m.todo.last()),
        played(m, fs, effort(fs, m.todo.last())).0.todo == m.todo.drop_last(),
        played(m, fs, effort(fs, m.todo.last())).0.step == UndoStep::Begin,
{
    reveal_strlit("copy");
    reveal_strlit("link");
    assert("copy"@[0] != "link"@[0]);
    reveal_with_fuel(played, 5);
}

proof fn lemma_played_on(m: UndoModel, fs: Files, a: nat, b: nat)
    ensures
        played(m, fs, a + b) == played(played(m, fs, a).0, played(m, fs, a).1, b),
    decreases a,
{
    if a > 0 && due(m) is Some {
        let op = due(m)->0;
        lemma_played_on(advanced(m, answer(fs, op)), effect(fs, op), (a - 1) as nat, b);
    } else if due(m) is None {
        assert(played(m, fs, a + b) == (m, fs));
        assert(played(m, fs, b) == (m, fs));
    }
}

/// The file system once a run has been undone, last entry first.
pub open spec fn undone_run(fs: Files, entries: Seq<EntryModel>) -> Files
    decreases entries.len(),
{
    if entries.len() == 0 {
        fs
    } else {
        undone_run(undone_entry(fs, entries.last()), entries.drop_last())
    }
}

/// How many operations the undoing of a run takes.
pub open spec fn run_effort(fs: Files, entries: Seq<EntryModel>) -> nat
    decreases entries.len(),
{
    if entries.len() == 0 {
        0
    } else {
        effort(fs, entries.last()) + run_effort(
            undone_entry(fs, entries.last()),
            entries.drop_last(),
        )
    }
}

/// A run goes through all of its entries, last one first, and does to the file
/// system what [`undone_run`] says.
pub proof fn law_undo_run(m: UndoModel, fs: Files)
    requires
        m.step == UndoStep::Begin,
        forall|i: int| 0 <= i < m.todo.len() ==> undoable(#[trigger] m.todo[i]),
    ensures
        played(m, fs, run_effort(fs, m.todo)).0.todo.len() == 0,
        played(m, fs, run_effort(fs, m.todo)).1 == undone_run(fs, m.todo),
    decreases m.todo.len(),
{
    if m.todo.len() > 0 {
        let e = m.todo.last();
        let rest = m.todo.drop_last();
        law_undo_one(m, fs);
        let (next, after) = played(m, fs, effort(fs, e));
        assert forall|i: int| 0 <= i < rest.len() implies undoable(#[trigger] rest[i]) by {
            assert(rest[i] == m.todo[i]);
        }
        law_undo_run(next, after);
        lemma_played_on(m, fs, effort(fs, e), run_effort(after, rest));
    }
}

/// The file system once a transfer has been done: the destination holds the
/// content, and a move has taken it from the source.
pub open spec fn done_entry(fs: Files, e: EntryModel) -> Files {
    if kept_source(e) {
        fs.insert(e.dst, fs[e.src])
    } else {
        fs.remove(e.src).insert(e.dst, fs[e.src])
    }
}

/// The file system once a run has been done.
pub open spec fn done_run(fs: Files, entries: Seq<EntryModel>) -> Files
    decreases entries.len(),
{
    if entries.len() == 0 {
        fs
    } else {
        done_entry(done_run(fs, entries.drop_last()), entries.last())
    }
}

/// A run in which every transfer found its source and nothing at its
/// destination.
pub open spec fn clean_run(fs: Files, entries: Seq<EntryModel>) -> bool
    decreases entries.len(),
{
    entries.len() == 0 || {
        let before = done_run(fs, entries.drop_last());
        let e = entries.last();
        &&& clean_run(fs, entries.drop_last())
        &&& before.contains_key(e.src)
        &&& !before.contains_key(e.dst)
        &&& e.src != e.dst
    }
}

proof fn lemma_undone_done(fs: Files, entries: Seq<EntryModel>)
    requires
        clean_run(fs, entries),
    ensures
        undone_run(done_run(fs, entries), entries) == fs,
    decreases entries.len(),
{
    if entries.len() > 0 {
        let t = entries.drop_last();
        let e = entries.last();
        let before = done_run(fs, t);
        lemma_undone_done(fs, t);
        assert(undone_entry(done_entry(before, e), e) =~= before);
    }
}

proof fn lemma_undoables(entries: Seq<EntryModel>)
    ensures
        forall|i: int|
            0 <= i < undoables(entries).len() ==> undoable(#[trigger] undoables(entries)[i]),
    decreases entries.len(),
{
    if entries.len() > 0 {
        let fewer = undoables(entries.drop_last());
        let all = undoables(entries);
        lemma_undoables(entries.drop_last());
        assert forall|i: int| 0 <= i < all.len() implies undoable(#[trigger] all[i]) by {
            if i < fewer.len() {
                assert(all[i] == fewer[i]);
            }
        }
    }
}

/// Undo rolls a whole run back: where the moves, copies and links of a journal
/// each went to a place where nothing was, undoing the journal leaves the file
/// system as it was before the run.
pub proof fn law_undo_restores(fs: Files, journal: Seq<EntryModel>)
    requires
        clean_run(fs, undoables(journal)),
    ensures
        ({
            let after = done_run(fs, undoables(journal));
            let end = played(begun(journal), after, run_effort(after, undoables(journal)));
            end.0.todo.len() == 0 && end.1 == fs
        }),
{
    lemma_undoables(journal);
    law_undo_run(begun(journal), done_run(fs, undoables(journal)));
    lemma_undone_done(fs, undoables(journal));
}

/// What a run writes to the reverse journal in its next `n` operations.
pub open spec fn written(m: UndoModel, fs: Files, n: nat) -> Seq<NoteModel>
    decreases n,
{
    if n == 0 || due(m) is None {
        Seq::empty()
    } else {
        let op = due(m)->0;
        let note = noted(m, answer(fs, op));
        let rest = written(advanced(m, answer(fs, op)), effect(fs, op), (n - 1) as nat);
        if note is Record {
            seq![note] + rest
        } else {
            rest
        }
    }
}

/// The reverse of a transfer, as it is recorded.
pub open spec fn reverse_of(e: EntryModel) -> NoteModel {
    NoteModel::Record(
        if kept_source(e) {
            "undo-"@ + e.op
        } else {
            "undo-move"@
        },
        e.dst,
        e.src,
        e.bytes,
    )
}

/// Whether a transfer can be undone: what it wrote is there, a copy's original
/// is too, and nothing has taken the place of what was moved.
pub open spec fn reversible(fs: Files, e: EntryModel) -> bool {
    fs.contains_key(e.dst) && if e.op == "link"@ {
        true
    } else if e.op == "copy"@ {
        fs.contains_key(e.src)
    } else {
        !fs.contains_key(e.src)
    }
}

/// Whether every transfer of a run can be undone, last one first.
pub open spec fn all_reversible(fs: Files, entries: Seq<EntryModel>) -> bool
    decreases entries.len(),
{
    entries.len() == 0 || (reversible(fs, entries.last()) && all_reversible(
        undone_entry(fs, entries.last()),
        entries.drop_last(),
    ))
}

proof fn lemma_written_on(m: UndoModel, fs: Files, a: nat, b: nat)
    ensures
        written(m, fs, a + b) == written(m, fs, a) + written(
            played(m, fs, a).0,
            played(m, fs, a).1,
            b,
        ),
    decreases a,
{
    if a > 0 && due(m) is Some {
        let op = due(m)->0;
        lemma_written_on(advanced(m, answer(fs, op)), effect(fs, op), (a - 1) as nat, b);
    }
    assert(written(m, fs, a + b) =~= written(m, fs, a) + written(
        played(m, fs, a).0,
        played(m, fs, a).1,
        b,
    ));
}

proof fn lemma_reverse_one(m: UndoModel, fs: Files)
    requires
        m.todo.len() > 0,
        m.step == UndoStep::Begin,
        undoable(m.todo.last()),
        reversible(fs, m.todo.last()),
    ensures
        played(m, fs, effort(fs, m.todo.last())).0 == restored(m),
        written(m, fs, effort(fs, m.todo.last())) == seq![reverse_of(m.todo.last())],
{
    reveal_strlit("copy");
    reveal_strlit("link");
    assert("copy"@[0] != "link"@[0]);
    reveal_with_fuel(played, 5);
    reveal_with_fuel(written, 5);
    assert(written(m, fs, effort(fs, m.todo.last())) =~= seq![reverse_of(m.todo.last())]);
}

proof fn lemma_reverse_run(m: UndoModel, fs: Files)
    requires
        m.step == UndoStep::Begin,
        forall|i: int| 0 <= i < m.todo.len() ==> undoable(#[trigger] m.todo[i]),
        all_reversible(fs, m.todo),
    ensures
        ({
            let n = run_effort(fs, m.todo);
            let end = played(m, fs, n).0;
            &&& end.restored == m.restored + m.todo.len()
            &&& end.skipped == m.skipped
            &&& end.errors == m.errors
            &&& written(m, fs, n) == Seq::new(
                m.todo.len(),
                |i: int| reverse_of(m.todo[m.todo.len() - 1 - i]),
            )
        }),
    decreases m.todo.len(),
{
    let all = Seq::new(m.todo.len(), |i: int| reverse_of(m.todo[m.todo.len() - 1 - i]));
    if m.todo.len() > 0 {
        let e = m.todo.last();
        let rest = m.todo.drop_last();
        law_undo_one(m, fs);
        lemma_reverse_one(m, fs);
        let (next, after) = played(m, fs, effort(fs, e));
        assert forall|i: int| 0 <= i < rest.len() implies undoable(#[trigger] rest[i]) by {
            assert(rest[i] == m.todo[i]);
        }
        lemma_reverse_run(next, after);
        lemma_played_on(m, fs, effort(fs, e), run_effort(after, rest));
        lemma_written_on(m, fs, effort(fs, e), run_effort(after, rest));
        let fewer = Seq::new(rest.len(), |i: int| reverse_of(rest[rest.len() - 1 - i]));
        assert(seq![reverse_of(e)] + fewer =~= all);
    } else {
        assert(written(m, fs, 0) =~= all);
    }
}

proof fn lemma_clean_reversible(fs: Files, entries: Seq<EntryModel>)
    requires
        clean_run(fs, entries),
    ensures
        all_reversible(done_run(fs, entries), entries),
    decreases entries.len(),
{
    if entries.len() > 0 {
        let t = entries.drop_last();
        let e = entries.last();
        let before = done_run(fs, t);
        lemma_clean_reversible(fs, t);
        assert(undone_entry(done_entry(before, e), e) =~= before);
    }
}

/// Undoing a run whose transfers each went to a place where nothing was counts
/// every one of them as restored, none as skipped or failed, and records the
/// reverse of each, last one first.
pub proof fn law_undo_counts(fs: Files, journal: Seq<EntryModel>)
    requires
        clean_run(fs, undoables(journal)),
    ensures
        ({
            let todo = undoables(journal);
            let after = done_run(fs, todo);
            let n = run_effort(after, todo);
            let end = played(begun(journal), after, n).0;
            &&& end.restored == todo.len()
            &&& end.skipped == 0
            &&& end.errors == 0
            &&& written(begun(journal), after, n) == Seq::new(
                todo.len(),
                |i: int| reverse_of(todo[todo.len() - 1 - i]),
            )
        }),
{
    lemma_undoables(journal);
    lemma_clean_reversible(fs, undoables(journal));
    lemma_reverse_run(begun(journal), done_run(fs, undoables(journal)));
}

/// Undo never removes the last copy: what was at the destination is there or at
/// the source afterwards, and no other file is touched. (A link holds no data,
/// and nothing can be said of an entry whose two paths are one.)
pub proof fn law_undo_keeps_data(fs: Files, e: EntryModel)
    requires
        undoable(e),
        e.op != "link"@,
        e.src != e.dst,
    ensures
        fs.contains_key(e.dst) ==> undone_entry(fs, e).contains_key(e.dst) || undone_entry(
            fs,
            e,
        ).contains_key(e.src),
        forall|p: Seq<char>|
            p != e.dst && #[trigger] fs.contains_key(p) ==> undone_entry(fs, e).contains_key(p)
                && undone_entry(fs, e)[p] == fs[p],
{
}

} // verus!
