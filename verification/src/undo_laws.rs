//! What undoing a run does, entry by entry, and what it tells and records.

use vstd::prelude::*;

use crate::clock;
use crate::clock::Moment;
use crate::engine::Files;
use crate::journal::EntryModel;
use crate::path_laws;
use crate::paths;
use crate::run;
use crate::text;
use crate::text_laws;
use crate::undo;
use crate::undo::{NoteModel, UndoModel, UndoOpModel, UndoReply, UndoStep};

verus! {

proof fn lemma_words()
    ensures
        "move"@ != "copy"@ && "move"@ != "link"@ && "move"@ != "overwrite"@,
        "copy"@ != "link"@ && "copy"@ != "overwrite"@ && "link"@ != "overwrite"@,
{
    reveal_strlit("move");
    reveal_strlit("copy");
    reveal_strlit("link");
    reveal_strlit("overwrite");
    assert("move"@[0] == 'm' && "copy"@[0] == 'c' && "link"@[0] == 'l' && "overwrite"@[0] == 'o');
}

/// What can be undone: a move, an overwriting move, a copy and a link; nothing
/// that an undo recorded.
pub proof fn law_undoable(e: EntryModel, word: Seq<char>)
    ensures
        undo::undoable(e) <==> e.op == "move"@ || e.op == "overwrite"@ || e.op == "copy"@ || e.op
            == "link"@,
        e.op == "undo-"@ + word ==> !undo::undoable(e),
{
    lemma_words();
    reveal_strlit("undo-");
    reveal_strlit("move");
    reveal_strlit("copy");
    reveal_strlit("link");
    reveal_strlit("overwrite");
    if e.op == "undo-"@ + word {
        assert(e.op[0] == 'u');
        assert("move"@[0] == 'm' && "copy"@[0] == 'c' && "link"@[0] == 'l' && "overwrite"@[0]
            == 'o');
    }
}

/// What undoing one entry leaves behind. Where the target is gone, nothing
/// happens. A link is removed. A copy is removed where its original is still
/// there, else it is kept. A moved file goes back to its source, unless
/// something else is there now.
pub proof fn law_entry_undone(fs: Files, e: EntryModel)
    requires
        undo::undoable(e),
    ensures
        ({
            let after = undo::undone_entry(fs, e);
            &&& !fs.contains_key(e.dst) ==> after == fs
            &&& fs.contains_key(e.dst) && e.op == "link"@ ==> after == fs.remove(e.dst)
            &&& fs.contains_key(e.dst) && e.op == "copy"@ && fs.contains_key(e.src) ==> after
                == fs.remove(e.dst)
            &&& e.op == "copy"@ && !fs.contains_key(e.src) ==> after == fs
            &&& e.op == "move"@ || e.op == "overwrite"@ ==> {
                &&& fs.contains_key(e.src) ==> after == fs
                &&& fs.contains_key(e.dst) && !fs.contains_key(e.src) ==> after == fs.remove(
                    e.dst,
                ).insert(e.src, fs[e.dst])
            }
        }),
{
    lemma_words();
}

/// A run is undone backwards: the last entry that can be undone comes first,
/// and every one comes.
pub proof fn law_undo_order(entries: Seq<EntryModel>, e: EntryModel)
    ensures
        undo::begun(entries).restored == 0 && undo::begun(entries).skipped == 0 && undo::begun(
            entries,
        ).errors == 0 && undo::begun(entries).step == UndoStep::Begin,
        undo::undoable(e) ==> undo::begun(entries.push(e)).todo == undo::begun(entries).todo.push(e),
        !undo::undoable(e) ==> undo::begun(entries.push(e)).todo == undo::begun(entries).todo,
        undo::begun(Seq::<EntryModel>::empty()).todo.len() == 0,
{
    assert(entries.push(e).drop_last() =~= entries);
}

/// The first question of an entry: is what the run wrote still there? For a
/// copy or a link a dead link counts too.
pub proof fn law_undo_first_question(m: UndoModel)
    requires
        m.todo.len() > 0,
        m.step == UndoStep::Begin,
        undo::undoable(m.todo.last()),
    ensures
        ({
            let e = m.todo.last();
            let no = undo::advanced(m, UndoReply::Found(false));
            let yes = undo::advanced(m, UndoReply::Found(true));
            &&& e.op == "copy"@ || e.op == "link"@ ==> undo::due(m) == Some(
                UndoOpModel::Present(e.dst),
            )
            &&& e.op == "move"@ || e.op == "overwrite"@ ==> undo::due(m) == Some(
                UndoOpModel::Exists(e.dst),
            )
            &&& no.todo == m.todo.drop_last() && no.skipped == m.skipped + 1 && no.restored
                == m.restored && no.errors == m.errors
            &&& e.op == "copy"@ ==> undo::due(yes) == Some(UndoOpModel::Exists(e.src))
            &&& e.op == "link"@ ==> undo::due(yes) == Some(UndoOpModel::Remove(e.dst))
            &&& e.op == "move"@ || e.op == "overwrite"@ ==> undo::due(yes) == Some(
                UndoOpModel::Exists(e.src),
            )
        }),
{
    lemma_words();
}

/// How a copy is taken back: only where its original is there is it removed.
pub proof fn law_undo_copy(m: UndoModel)
    requires
        m.todo.len() > 0,
        m.step == UndoStep::CheckOriginal,
    ensures
        ({
            let e = m.todo.last();
            let kept = undo::advanced(m, UndoReply::Found(false));
            let there = undo::advanced(m, UndoReply::Found(true));
            let gone = undo::advanced(there, UndoReply::Done);
            let stuck = undo::advanced(there, UndoReply::Failed);
            &&& undo::due(m) == Some(UndoOpModel::Exists(e.src))
            &&& kept.todo == m.todo.drop_last() && kept.skipped == m.skipped + 1 && kept.restored
                == m.restored && kept.errors == m.errors
            &&& undo::due(there) == Some(UndoOpModel::Remove(e.dst))
            &&& gone.todo == m.todo.drop_last() && gone.restored == m.restored + 1 && gone.skipped
                == m.skipped && gone.errors == m.errors
            &&& stuck.todo == m.todo.drop_last() && stuck.errors == m.errors + 1 && stuck.restored
                == m.restored && stuck.skipped == m.skipped
        }),
{
}

/// How a move is taken back: never over something that has taken the place of
/// the source; the directory of the source is made again first.
pub proof fn law_undo_move(m: UndoModel)
    requires
        m.todo.len() > 0,
        m.step == UndoStep::CheckSource,
    ensures
        ({
            let e = m.todo.last();
            let taken = undo::advanced(m, UndoReply::Found(true));
            let free = undo::advanced(m, UndoReply::Found(false));
            let made = if paths::parent_parts(e.src) is Some {
                undo::advanced(free, UndoReply::Done)
            } else {
                free
            };
            let back = undo::advanced(made, UndoReply::Done);
            let stuck = undo::advanced(made, UndoReply::Failed);
            &&& undo::due(m) == Some(UndoOpModel::Exists(e.src))
            &&& taken.todo == m.todo.drop_last() && taken.skipped == m.skipped + 1
                && taken.restored == m.restored && taken.errors == m.errors
            &&& paths::parent_parts(e.src) matches Some(c) ==> undo::due(free) == Some(
                UndoOpModel::MakeDirs(paths::path_of(c)),
            )
            &&& undo::due(made) == Some(UndoOpModel::Rename(e.dst, e.src))
            &&& back.todo == m.todo.drop_last() && back.restored == m.restored + 1 && back.skipped
                == m.skipped && back.errors == m.errors
            &&& stuck.todo == m.todo.drop_last() && stuck.errors == m.errors + 1 && stuck.restored
                == m.restored && stuck.skipped == m.skipped
        }),
{
}

/// What is recorded of an entry that was undone: the reverse operation, from
/// the target back to the source, with its size.
pub proof fn law_reverse_recorded(m: UndoModel)
    requires
        m.todo.len() > 0,
    ensures
        ({
            let e = m.todo.last();
            &&& m.step == UndoStep::Restore ==> undo::noted(m, UndoReply::Done)
                == NoteModel::Record("undo-move"@, e.dst, e.src, e.bytes)
            &&& m.step == UndoStep::RemoveCopy ==> undo::noted(m, UndoReply::Done)
                == NoteModel::Record("undo-"@ + e.op, e.dst, e.src, e.bytes)
            &&& m.step != UndoStep::Restore && m.step != UndoStep::RemoveCopy ==> !(undo::noted(
                m,
                UndoReply::Done,
            ) is Record)
        }),
{
}

/// What the user is told: why an entry was skipped, or what could not be done.
pub proof fn law_undo_told(m: UndoModel)
    requires
        m.todo.len() > 0,
    ensures
        ({
            let e = m.todo.last();
            let home = match paths::parent_parts(e.src) {
                Some(c) => paths::path_of(c),
                None => Seq::empty(),
            };
            &&& m.step == UndoStep::Begin && (e.op == "move"@ || e.op == "overwrite"@)
                ==> undo::noted(m, UndoReply::Found(false)) == NoteModel::Skip(
                "skip: target gone, cannot restore "@ + e.dst,
            )
            &&& m.step == UndoStep::CheckOriginal ==> undo::noted(m, UndoReply::Found(false))
                == NoteModel::Skip("skip: original gone, keeping copy "@ + e.dst)
            &&& m.step == UndoStep::CheckSource ==> undo::noted(m, UndoReply::Found(true))
                == NoteModel::Skip("skip: source already occupied "@ + e.src)
            &&& m.step == UndoStep::RemoveCopy ==> undo::noted(m, UndoReply::Failed)
                == NoteModel::Error("error: removing "@ + e.op + " "@ + e.dst)
            &&& m.step == UndoStep::MakeDirs ==> undo::noted(m, UndoReply::Failed)
                == NoteModel::Error("error: cannot recreate "@ + home)
            &&& m.step == UndoStep::Restore ==> undo::noted(m, UndoReply::Failed)
                == NoteModel::Error("error: restoring "@ + e.dst + " -> "@ + e.src)
        }),
{
    lemma_words();
}

/// The moment in the name of a reverse journal: the date and the time of day,
/// digits only, with a hyphen between them.
pub proof fn law_stamp(m: Moment)
    requires
        m.valid(),
        0 <= m.year <= 9999,
    ensures
        ({
            let t = undo::stamp_text(m);
            &&& t.len() == 15
            &&& t[0] as int == 48 + m.year as int / 1000
            &&& t[1] as int == 48 + m.year as int / 100 % 10
            &&& t[2] as int == 48 + m.year as int / 10 % 10
            &&& t[3] as int == 48 + m.year as int % 10
            &&& text_laws::two_digits_of(t.subrange(4, 6), m.month as int)
            &&& text_laws::two_digits_of(t.subrange(6, 8), m.day as int)
            &&& t[8] == '-'
            &&& text_laws::two_digits_of(t.subrange(9, 11), m.hour as int)
            &&& text_laws::two_digits_of(t.subrange(11, 13), m.minute as int)
            &&& text_laws::two_digits_of(t.subrange(13, 15), m.second as int)
        }),
{
    reveal_strlit("-");
    text_laws::law_four_digits(m.year as int);
    text_laws::law_two_digits(m.month as int);
    text_laws::law_two_digits(m.day as int);
    text_laws::law_two_digits(m.hour as int);
    text_laws::law_two_digits(m.minute as int);
    text_laws::law_two_digits(m.second as int);
    let t = undo::stamp_text(m);
    assert(t.subrange(4, 6) =~= clock::two(m.month as int));
    assert(t.subrange(6, 8) =~= clock::two(m.day as int));
    assert(t.subrange(9, 11) =~= clock::two(m.hour as int));
    assert(t.subrange(11, 13) =~= clock::two(m.minute as int));
    assert(t.subrange(13, 15) =~= clock::two(m.second as int));
}

/// The reverse journal stands beside the journal, under its name with
/// `.undo-<moment>.jsonl` behind it.
pub proof fn law_reverse_journal(d: Seq<char>, n: Seq<char>, now: Moment)
    requires
        d.len() > 0,
        paths::proper_name(n),
    ensures
        undo::reverse_path(d.push('/') + n, now) == paths::joined(
            paths::path_of(paths::parts(d)),
            n + ".undo-"@ + undo::stamp_text(now) + ".jsonl"@,
        ),
{
    path_laws::law_name_and_parent(d, n);
    assert(Some(paths::parts(d.push('/') + n).drop_last()) == Some(paths::parts(d)));
}

/// The closing line of an undo run.
pub proof fn law_undo_line(restored: nat, skipped: nat, errors: nat, reverse: Seq<char>)
    ensures
        run::undo_text(restored as int, skipped as int, errors as int, reverse)
            == "Undo complete: restored "@ + text::decimal(restored) + ", skipped "@
            + text::decimal(skipped) + ", errors "@ + text::decimal(errors)
            + ".\n  reverse journal: "@ + reverse,
{
}

} // verus!
