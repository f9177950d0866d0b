//! How a journal is read: line by line, blank lines passed over, broken ones
//! left out.

use vstd::prelude::*;

use crate::journal;
use crate::journal::EntryModel;
use crate::text;
use crate::text::Class;
use crate::text_laws;

verus! {

/// A line is written with a line end behind it, and nothing else changes.
pub proof fn law_framed(line: Seq<char>)
    ensures
        journal::framed(line) == line + seq!['\n'],
{
    assert(line.push('\n') =~= line + seq!['\n']);
}

/// A carriage return before a line end belongs to the line end.
pub proof fn law_bare(line: Seq<char>)
    ensures
        journal::bare(line.push('\r')) == line,
        line.len() > 0 && line.last() != '\r' ==> journal::bare(line) == line,
        line.len() == 0 ==> journal::bare(line) == line,
{
    assert(line.push('\r').drop_last() =~= line);
}

/// A journal is read line by line: the first line, then what follows it. Where
/// nothing follows the last line end, there is no line more.
pub proof fn law_lines(a: Seq<char>, rest: Seq<char>)
    requires
        !a.contains('\n'),
    ensures
        journal::lines_of(a + seq!['\n'] + rest) == seq![journal::bare(a)] + journal::lines_of(
            rest,
        ),
        journal::lines_of(Seq::<char>::empty()).len() == 0,
        a.len() > 0 ==> journal::lines_of(a) == seq![journal::bare(a)],
{
    let t = a + seq!['\n'] + rest;
    text::lemma_find(t, '\n');
    text::lemma_find(a, '\n');
    let k = text::find(t, '\n');
    assert(t[a.len() as int] == '\n');
    assert(k == a.len()) by {
        if k < a.len() {
            assert(a[k] == '\n');
        }
    }
    assert(t.take(k) =~= a);
    assert(t.skip(k + 1) =~= rest);
    let whole = text::split(t, '\n');
    let more = text::split(rest, '\n');
    assert(whole == seq![a] + more);
    lemma_split_some(rest);
    assert(whole.last() == more.last());
    if more.last().len() == 0 {
        assert(whole.drop_last() =~= seq![a] + more.drop_last());
    }
    assert(journal::lines_of(t) =~= seq![journal::bare(a)] + journal::lines_of(rest));
    let empty = Seq::<char>::empty();
    assert(text::split(empty, '\n') =~= seq![empty]);
    assert(text::split(a, '\n') =~= seq![a]);
    if a.len() > 0 {
        assert(journal::lines_of(a) =~= seq![journal::bare(a)]);
    }
}

proof fn lemma_split_some(s: Seq<char>)
    ensures
        text::split(s, '\n').len() > 0,
{
}

/// A line counts where it holds anything but white space.
pub proof fn law_record_line(line: Seq<char>)
    ensures
        journal::is_record(line) <==> exists|i: int|
            0 <= i < line.len() && !text::is_white(#[trigger] line[i]),
{
    let t = text::trimmed(line, Class::White);
    text_laws::law_trimmed(line, Class::White);
    let (a, b) = choose|a: int, b: int| #[trigger]
        text_laws::cut_out(line, Class::White, a, b) && t == line.subrange(a, b);
    if t.len() > 0 {
        assert(t[0] == line[a]);
        assert(!text::is_white(line[a]));
    }
    if exists|i: int| 0 <= i < line.len() && !text::is_white(#[trigger] line[i]) {
        let i = choose|i: int| 0 <= i < line.len() && !text::is_white(#[trigger] line[i]);
        assert(a <= i < b) by {
            assert(text::in_class(Class::White, line[i]) == text::is_white(line[i]));
        }
    }
}

/// The records of a journal are its lines that count, in order, each with its
/// line number.
pub proof fn law_records(lines: Seq<Seq<char>>, line: Seq<char>)
    ensures
        journal::records(Seq::<Seq<char>>::empty()).len() == 0,
        (exists|i: int| 0 <= i < line.len() && !text::is_white(#[trigger] line[i]))
            ==> journal::records(lines.push(line)) == journal::records(lines).push(
            (lines.len() as int + 1, line),
        ),
        (forall|i: int| 0 <= i < line.len() ==> text::is_white(#[trigger] line[i]))
            ==> journal::records(lines.push(line)) == journal::records(lines),
{
    law_record_line(line);
    assert(lines.push(line).drop_last() =~= lines);
}

/// The entries of a journal are those of the lines that could be read, in
/// order.
pub proof fn law_entries_kept(v: Seq<Option<EntryModel>>, e: EntryModel)
    ensures
        journal::present(Seq::<Option<EntryModel>>::empty()).len() == 0,
        journal::present(v.push(Some(e))) == journal::present(v).push(e),
        journal::present(v.push(None)) == journal::present(v),
{
    assert(v.push(Some(e)).drop_last() =~= v);
    assert(v.push(None).drop_last() =~= v);
}

/// What was done is known by the sources: one for each entry.
pub proof fn law_sources(entries: Seq<EntryModel>, i: int)
    ensures
        journal::sources(entries).len() == entries.len(),
        0 <= i < entries.len() ==> journal::sources(entries)[i] == entries[i].src,
{
}

} // verus!
