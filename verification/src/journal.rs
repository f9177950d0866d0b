//! Append-only operation journal (JSON Lines) for resume + undo.
//!
//! An entry becomes one line of text; what stands here is how lines make up a
//! journal, and what a run reads off its entries.

use vstd::prelude::*;

use crate::text;
use crate::text::Class;

verus! {

/// One committed file operation.
#[derive(Debug, Clone)]
pub struct JournalEntry {
    /// `move`, `copy`, `link`, `overwrite`, or one of these undone.
    pub op: String,
    pub src: String,
    pub dst: String,
    pub ts: String,
    pub bytes: u64,
}

/// The model of a [`JournalEntry`].
#[verifier::ext_equal]
pub struct EntryModel {
    pub op: Seq<char>,
    pub src: Seq<char>,
    pub dst: Seq<char>,
    pub ts: Seq<char>,
    pub bytes: u64,
}

impl View for JournalEntry {
    type V = EntryModel;

    open spec fn view(&self) -> EntryModel {
        EntryModel {
            op: self.op@,
            src: self.src@,
            dst: self.dst@,
            ts: self.ts@,
            bytes: self.bytes,
        }
    }
}

/// The models of a list of entries.
pub open spec fn entry_models(v: Seq<JournalEntry>) -> Seq<EntryModel> {
    Seq::new(v.len(), |i: int| v[i]@)
}

// ---------------------------------------------------------------------------
// Lines
// ---------------------------------------------------------------------------

/// A line as it is appended to a journal.
pub open spec fn framed(line: Seq<char>) -> Seq<char> {
    line.push('\n')
}

/// A line as it is appended to a journal, so that each entry stands on a line
/// of its own.
pub fn frame(line: &str) -> (r: String)
    ensures
        r@ == framed(line@),
{
    let mut r: String = line.to_owned();
    r.push('\n');
    r
}

/// A line without a carriage return at its end.
pub open spec fn bare(line: Seq<char>) -> Seq<char> {
    if line.len() > 0 && line.last() == '\r' {
        line.drop_last()
    } else {
        line
    }
}

/// The lines of a text. A line ends at a line feed, or with the text, unless
/// nothing stands behind the last line feed.
pub open spec fn lines_of(t: Seq<char>) -> Seq<Seq<char>> {
    let pieces = text::split(t, '\n');
    let lines = if pieces.last().len() == 0 {
        pieces.drop_last()
    } else {
        pieces
    };
    Seq::new(lines.len(), |i: int| bare(lines[i]))
}

/// Whether a line holds something else than blanks.
pub open spec fn is_record(line: Seq<char>) -> bool {
    text::trimmed(line, Class::White).len() > 0
}

/// The lines that hold entries, each with its number, counted from one.
pub open spec fn records(lines: Seq<Seq<char>>) -> Seq<(int, Seq<char>)>
    decreases lines.len(),
{
    if lines.len() == 0 {
        Seq::empty()
    } else if is_record(lines.last()) {
        records(lines.drop_last()).push((lines.len() as int, lines.last()))
    } else {
        records(lines.drop_last())
    }
}

/// The models of numbered lines.
pub open spec fn numbered(v: Seq<(usize, String)>) -> Seq<(int, Seq<char>)> {
    Seq::new(v.len(), |i: int| (v[i].0 as int, v[i].1@))
}

/// The lines of a journal that hold entries, each with its number. Blank lines
/// do not count.
pub fn entry_lines(journal: &str) -> (r: Vec<(usize, String)>)
    ensures
        numbered(r@) == records(lines_of(journal@)),
{
    let pieces: Vec<String> = text::split_text(journal, '\n');
    let ghost all = text::views(pieces@);
    let mut n: usize = pieces.len();
    proof {
        lemma_split_some(journal@);
        reveal_strlit("");
        assert(all.last() == pieces@[n - 1]@);
        assert(all.last().len() == 0 ==> all.last() =~= ""@);
    }
    if text::same(pieces[n - 1].as_str(), "") {
        n = n - 1;
    }
    let ghost lines = lines_of(journal@);
    let mut r: Vec<(usize, String)> = Vec::new();
    let mut i: usize = 0;
    proof {
        assert(lines.take(0) =~= Seq::<Seq<char>>::empty());
        assert(numbered(r@) =~= Seq::<(int, Seq<char>)>::empty());
    }
    while i < n
        invariant
            i <= n <= pieces@.len(),
            all == text::views(pieces@),
            lines.len() == n,
            forall|k: int| 0 <= k < n ==> #[trigger] lines[k] == bare(all[k]),
            numbered(r@) == records(lines.take(i as int)),
        decreases n - i,
    {
        let line: String = without_return(pieces[i].as_str());
        proof {
            assert(lines[i as int] == line@);
            assert(lines.take(i + 1).drop_last() =~= lines.take(i as int));
            assert(lines.take(i + 1).last() == line@);
        }
        let t: Vec<char> = text::trim_chars(&text::chars_of(line.as_str()), Class::White);
        if t.len() > 0 {
            let ghost held = r@;
            let item: (usize, String) = (i + 1, line);
            proof {
                assert(numbered(held.push(item)) =~= numbered(held).push(
                    (item.0 as int, item.1@),
                ));
            }
            r.push(item);
        }
        i = i + 1;
    }
    proof {
        assert(lines.take(n as int) =~= lines);
    }
    r
}

fn without_return(line: &str) -> (r: String)
    ensures
        r@ == bare(line@),
{
    let v: Vec<char> = text::chars_of(line);
    let n: usize = v.len();
    if n > 0 && v[n - 1] == '\r' {
        proof {
            assert(v@.drop_last() =~= v@.subrange(0, n - 1));
        }
        text::string_of(&text::slice_chars(&v, 0, n - 1))
    } else {
        line.to_owned()
    }
}

proof fn lemma_split_some(s: Seq<char>)
    ensures
        text::split(s, '\n').len() > 0,
{
}

// ---------------------------------------------------------------------------
// Resuming
// ---------------------------------------------------------------------------

/// The sources of entries.
pub open spec fn sources(entries: Seq<EntryModel>) -> Seq<Seq<char>> {
    Seq::new(entries.len(), |i: int| entries[i].src)
}

/// The source paths already recorded as done (for resume skipping).
pub fn completed_sources(entries: &Vec<JournalEntry>) -> (r: Vec<String>)
    ensures
        text::views(r@) == sources(entry_models(entries@)),
{
    let mut r: Vec<String> = Vec::new();
    let mut i: usize = 0;
    while i < entries.len()
        invariant
            i <= entries@.len(),
            r@.len() == i,
            forall|k: int| 0 <= k < i ==> (#[trigger] r@[k])@ == entries@[k].src@,
        decreases entries@.len() - i,
    {
        r.push(entries[i].src.clone());
        i = i + 1;
    }
    proof {
        assert(text::views(r@) =~= sources(entry_models(entries@)));
    }
    r
}

// ---------------------------------------------------------------------------
// Reading
// ---------------------------------------------------------------------------

/// The models of entries that may be absent.
pub open spec fn maybe_models(v: Seq<Option<JournalEntry>>) -> Seq<Option<EntryModel>> {
    Seq::new(
        v.len(),
        |i: int|
            match v[i] {
                Some(e) => Some(e@),
                None => None,
            },
    )
}

/// The entries that are there, in order.
pub open spec fn present(v: Seq<Option<EntryModel>>) -> Seq<EntryModel>
    decreases v.len(),
{
    if v.len() == 0 {
        Seq::empty()
    } else {
        match v.last() {
            Some(e) => present(v.drop_last()).push(e),
            None => present(v.drop_last()),
        }
    }
}

/// Every entry of a journal, given what was read from each of its lines: the
/// lines that hold no entry are skipped.
pub fn keep_parsed(parsed: Vec<Option<JournalEntry>>) -> (r: Vec<JournalEntry>)
    ensures
        entry_models(r@) == present(maybe_models(parsed@)),
{
    let ghost all = maybe_models(parsed@);
    let mut r: Vec<JournalEntry> = Vec::new();
    let mut i: usize = 0;
    proof {
        assert(all.take(0) =~= Seq::<Option<EntryModel>>::empty());
        assert(entry_models(r@) =~= Seq::<EntryModel>::empty());
    }
    while i < parsed.len()
        invariant
            i <= parsed@.len(),
            all == maybe_models(parsed@),
            entry_models(r@) == present(all.take(i as int)),
        decreases parsed@.len() - i,
    {
        proof {
            assert(all.take(i + 1).drop_last() =~= all.take(i as int));
            assert(all.take(i + 1).last() == all[i as int]);
        }
        match &parsed[i] {
            Some(e) => {
                let c: JournalEntry = copy_entry(e);
                proof {
                    assert(entry_models(r@.push(c)) =~= entry_models(r@).push(c@));
                }
                r.push(c);
            },
            None => {},
        }
        i = i + 1;
    }
    proof {
        assert(all.take(all.len() as int) =~= all);
    }
    r
}

/// A copy of an entry.
pub fn copy_entry(e: &JournalEntry) -> (r: JournalEntry)
    ensures
        r@ == e@,
{
    JournalEntry {
        op: e.op.clone(),
        src: e.src.clone(),
        dst: e.dst.clone(),
        ts: e.ts.clone(),
        bytes: e.bytes,
    }
}

// ---------------------------------------------------------------------------
// Laws
// ---------------------------------------------------------------------------

/// The journal that appending lines makes.
pub open spec fn journal_of(lines: Seq<Seq<char>>) -> Seq<char>
    decreases lines.len(),
{
    if lines.len() == 0 {
        Seq::empty()
    } else {
        journal_of(lines.drop_last()) + framed(lines.last())
    }
}

/// The lines and their numbers.
pub open spec fn with_numbers(lines: Seq<Seq<char>>) -> Seq<(int, Seq<char>)> {
    Seq::new(lines.len(), |i: int| (i + 1, lines[i]))
}

/// A journal gives back what was appended to it: the lines, in order, where
/// each is a line (it holds no line feed and does not end in a carriage
/// return) and none is blank.
pub proof fn law_journal_round_trip(lines: Seq<Seq<char>>)
    requires
        forall|i: int|
            0 <= i < lines.len() ==> !(#[trigger] lines[i]).contains('\n') && is_record(lines[i])
                && bare(lines[i]) == lines[i],
    ensures
        records(lines_of(journal_of(lines))) == with_numbers(lines),
{
    lemma_journal_split(lines);
    let empty = Seq::<char>::empty();
    assert(lines.push(empty).drop_last() =~= lines);
    assert(lines_of(journal_of(lines)) =~= lines);
    lemma_records(lines);
}

proof fn lemma_journal_split(lines: Seq<Seq<char>>)
    requires
        forall|i: int| 0 <= i < lines.len() ==> !(#[trigger] lines[i]).contains('\n'),
    ensures
        text::split(journal_of(lines), '\n') == lines.push(Seq::<char>::empty()),
    decreases lines.len(),
{
    let empty = Seq::<char>::empty();
    if lines.len() == 0 {
        assert(text::split(empty, '\n') =~= seq![empty]);
        assert(lines.push(empty) =~= seq![empty]);
    } else {
        let t = lines.drop_last();
        let x = lines.last();
        assert forall|i: int| 0 <= i < t.len() implies !(#[trigger] t[i]).contains('\n') by {
            assert(t[i] == lines[i]);
        }
        lemma_journal_split(t);
        assert(!lines[lines.len() - 1].contains('\n'));
        lemma_split_append(journal_of(t), x);
        assert(text::split(journal_of(t), '\n').last() == empty);
        assert(empty + x =~= x);
        assert(t.push(empty).drop_last() =~= t);
        assert(t.push(x) =~= lines);
    }
}

/// Splitting what a line was appended to: the last piece is extended by the
/// line, and an empty piece follows.
proof fn lemma_split_append(s: Seq<char>, x: Seq<char>)
    requires
        !x.contains('\n'),
    ensures
        text::split(s + framed(x), '\n') == text::split(s, '\n').drop_last().push(
            text::split(s, '\n').last() + x,
        ).push(Seq::<char>::empty()),
    decreases s.len(),
{
    let empty = Seq::<char>::empty();
    let all = s + framed(x);
    let k = text::find(s, '\n');
    text::lemma_find(s, '\n');
    text::lemma_find(all, '\n');
    text::lemma_find(empty, '\n');
    let f = text::find(all, '\n');
    if k < s.len() {
        assert(f == k) by {
            assert(all[k] == s[k]);
            if f < k {
                assert(all[f] == s[f]);
            }
        }
        let rest = s.skip(k + 1);
        lemma_split_append(rest, x);
        assert(all.take(k) =~= s.take(k));
        assert(all.skip(k + 1) =~= rest + framed(x));
        let p = text::split(rest, '\n');
        lemma_split_some(rest);
        assert((seq![s.take(k)] + p).drop_last() =~= seq![s.take(k)] + p.drop_last());
        assert((seq![s.take(k)] + p).last() == p.last());
        assert(seq![s.take(k)] + p.drop_last().push(p.last() + x).push(empty) =~= (seq![s.take(k)]
            + p.drop_last()).push(p.last() + x).push(empty));
    } else {
        assert(f == s.len() + x.len()) by {
            assert(all[(s.len() + x.len()) as int] == '\n');
            if f < s.len() {
                assert(all[f] == s[f]);
                assert(s.contains('\n'));
            } else if f < s.len() + x.len() {
                assert(all[f] == x[f - s.len()]);
                assert(x.contains('\n'));
            }
        }
        assert(all.take(f) =~= s + x);
        assert(all.skip(f + 1) =~= empty);
        assert(text::split(s, '\n') =~= seq![s]);
        assert(text::split(empty, '\n') =~= seq![empty]);
        assert(seq![s].drop_last().push(s + x).push(empty) =~= seq![s + x] + seq![empty]);
    }
}

proof fn lemma_records(lines: Seq<Seq<char>>)
    requires
        forall|i: int| 0 <= i < lines.len() ==> is_record(#[trigger] lines[i]),
    ensures
        records(lines) == with_numbers(lines),
    decreases lines.len(),
{
    if lines.len() > 0 {
        let t = lines.drop_last();
        assert forall|i: int| 0 <= i < t.len() implies is_record(#[trigger] t[i]) by {
            assert(t[i] == lines[i]);
        }
        lemma_records(t);
        assert(is_record(lines[lines.len() - 1]));
        assert(records(lines) =~= with_numbers(lines));
    } else {
        assert(records(lines) =~= with_numbers(lines));
    }
}

/// The entries of a journal, given how a line is read.
pub open spec fn entries_in(
    journal: Seq<char>,
    decode: spec_fn(Seq<char>) -> Option<EntryModel>,
) -> Seq<EntryModel> {
    let lines = records(lines_of(journal));
    present(Seq::new(lines.len(), |i: int| decode(lines[i].1)))
}

proof fn lemma_last_piece(s: Seq<char>)
    requires
        s.len() == 0 || s.last() == '\n',
    ensures
        text::split(s, '\n').len() > 0,
        text::split(s, '\n').last() == Seq::<char>::empty(),
    decreases s.len(),
{
    let empty = Seq::<char>::empty();
    let k = text::find(s, '\n');
    text::lemma_find(s, '\n');
    if s.len() == 0 {
        assert(text::split(s, '\n') =~= seq![s]);
        assert(s =~= empty);
    } else {
        assert(s.contains(s[s.len() - 1]));
        assert(0 <= k < s.len());
        let rest = s.skip(k + 1);
        lemma_last_piece(rest);
        assert((seq![s.take(k)] + text::split(rest, '\n')).last() == text::split(
            rest,
            '\n',
        ).last());
    }
}

/// A journal gives back what was appended to it: reading a journal to which the
/// line of an entry was appended gives the entries read before, in order and
/// complete, and then the entry. The journal is empty or ends in a line feed,
/// as appending leaves it; it may hold blank lines and lines that cannot be
/// read, which are skipped. The line of an entry is one line, not blank, and
/// reading it gives the entry.
pub proof fn law_journal_append(
    journal: Seq<char>,
    e: EntryModel,
    encode: spec_fn(EntryModel) -> Seq<char>,
    decode: spec_fn(Seq<char>) -> Option<EntryModel>,
)
    requires
        journal.len() == 0 || journal.last() == '\n',
        !encode(e).contains('\n'),
        bare(encode(e)) == encode(e),
        is_record(encode(e)),
        decode(encode(e)) == Some(e),
    ensures
        entries_in(journal + framed(encode(e)), decode) == entries_in(journal, decode).push(e),
{
    let x = encode(e);
    let empty = Seq::<char>::empty();
    let p = text::split(journal, '\n');
    lemma_last_piece(journal);
    lemma_split_append(journal, x);
    assert(empty + x =~= x);
    let old = lines_of(journal);
    let new = lines_of(journal + framed(x));
    assert(p.drop_last().push(x).push(empty).drop_last() =~= p.drop_last().push(x));
    assert(new =~= old.push(x));
    assert(new.drop_last() =~= old);
    let a = records(old);
    let b = records(new);
    assert(b == a.push((new.len() as int, x)));
    let da = Seq::new(a.len(), |i: int| decode(a[i].1));
    let db = Seq::new(b.len(), |i: int| decode(b[i].1));
    assert(db =~= da.push(Some(e)));
    assert(db.drop_last() =~= da);
}

} // verus!
