//! Lexical paths.
//!
//! A path is text with `/` between its components. Repeated separators, a
//! trailing separator and `.` components (but for a leading one) do not count,
//! so `/a//b/./c/` and `/a/b/c` have the same components.

use vstd::prelude::*;

use crate::text;

verus! {

/// One component of a path.
#[verifier::ext_equal]
pub enum Part {
    /// The leading `/`.
    Root,
    /// A leading `.`.
    Here,
    /// `..`.
    Up,
    /// A file or directory name.
    Name(Seq<char>),
}

/// One component of a path.
pub enum Component {
    /// The leading `/`.
    Root,
    /// A leading `.`.
    Here,
    /// `..`.
    Up,
    /// A file or directory name.
    Name(String),
}

impl View for Component {
    type V = Part;

    open spec fn view(&self) -> Part {
        match self {
            Component::Root => Part::Root,
            Component::Here => Part::Here,
            Component::Up => Part::Up,
            Component::Name(n) => Part::Name(n@),
        }
    }
}

/// The views of a list of components.
pub open spec fn part_views(v: Seq<Component>) -> Seq<Part> {
    Seq::new(v.len(), |i: int| v[i]@)
}

/// Whether a path starts at the root.
pub open spec fn absolute(p: Seq<char>) -> bool {
    p.len() > 0 && p[0] == '/'
}

/// What one piece between separators contributes; `first` holds of the first
/// piece of a relative path.
pub open spec fn piece_parts(piece: Seq<char>, first: bool) -> Seq<Part> {
    if piece.len() == 0 {
        Seq::empty()
    } else if piece == "."@ {
        if first {
            seq![Part::Here]
        } else {
            Seq::empty()
        }
    } else if piece == ".."@ {
        seq![Part::Up]
    } else {
        seq![Part::Name(piece)]
    }
}

/// What the pieces contribute, in order.
pub open spec fn pieces_parts(pieces: Seq<Seq<char>>, first: bool) -> Seq<Part>
    decreases pieces.len(),
{
    if pieces.len() == 0 {
        Seq::empty()
    } else {
        pieces_parts(pieces.drop_last(), first) + piece_parts(
            pieces.last(),
            first && pieces.len() == 1,
        )
    }
}

/// The components of a path.
pub open spec fn parts(p: Seq<char>) -> Seq<Part> {
    let rest = pieces_parts(text::split(p, '/'), !absolute(p));
    if absolute(p) {
        seq![Part::Root] + rest
    } else {
        rest
    }
}

/// Whether the path begins with a separator.
pub fn is_absolute(p: &str) -> (r: bool)
    ensures
        r == absolute(p@),
{
    let v: Vec<char> = text::chars_of(p);
    v.len() > 0 && v[0] == '/'
}

/// Splits a path into its components.
pub fn components(p: &str) -> (r: Vec<Component>)
    ensures
        part_views(r@) == parts(p@),
{
    let pieces: Vec<String> = text::split_text(p, '/');
    let abs: bool = is_absolute(p);
    let mut out: Vec<Component> = Vec::new();
    let ghost lead: Seq<Part> = if abs {
        seq![Part::Root]
    } else {
        Seq::empty()
    };
    if abs {
        out.push(Component::Root);
    }
    let mut i: usize = 0;
    proof {
        assert(part_views(out@) =~= lead + pieces_parts(text::views(pieces@).take(0), !abs));
    }
    while i < pieces.len()
        invariant
            i <= pieces@.len(),
            part_views(out@) == lead + pieces_parts(text::views(pieces@).take(i as int), !abs),
        decreases pieces@.len() - i,
    {
        let ghost before = part_views(out@);
        let ghost t = text::views(pieces@).take(i + 1);
        proof {
            assert(t.drop_last() =~= text::views(pieces@).take(i as int));
            assert(t.last() == pieces@[i as int]@);
        }
        let piece: &String = &pieces[i];
        if piece.as_str().is_empty() {
        } else if text::same(piece.as_str(), ".") {
            if !abs && i == 0 {
                out.push(Component::Here);
            }
        } else if text::same(piece.as_str(), "..") {
            out.push(Component::Up);
        } else {
            out.push(Component::Name(piece.clone()));
        }
        i = i + 1;
        proof {
            let added = piece_parts(pieces@[i - 1]@, !abs && i == 1);
            assert(part_views(out@) =~= before + added);
            assert(lead + (pieces_parts(t.drop_last(), !abs) + added) =~= (lead + pieces_parts(
                t.drop_last(),
                !abs,
            )) + added);
        }
    }
    proof {
        assert(text::views(pieces@).take(pieces@.len() as int) =~= text::views(pieces@));
        if !abs {
            assert(lead + pieces_parts(text::views(pieces@), true) =~= pieces_parts(
                text::views(pieces@),
                true,
            ));
        }
    }
    out
}

/// The text of one component.
pub open spec fn part_text(c: Part) -> Seq<char> {
    match c {
        Part::Root => "/"@,
        Part::Here => "."@,
        Part::Up => ".."@,
        Part::Name(n) => n,
    }
}

/// `base` extended by `x`: an absolute `x` replaces `base`, and a separator is
/// put between the two unless `base` is empty or ends with one.
pub open spec fn joined(base: Seq<char>, x: Seq<char>) -> Seq<char> {
    if absolute(x) || base.len() == 0 {
        x
    } else if base.last() == '/' {
        base + x
    } else {
        base.push('/') + x
    }
}

/// Extends a path.
pub fn join(base: &str, x: &str) -> (r: String)
    ensures
        r@ == joined(base@, x@),
{
    let b: Vec<char> = text::chars_of(base);
    if is_absolute(x) || b.len() == 0 {
        return x.to_owned();
    }
    let mut r: String = base.to_owned();
    if b[b.len() - 1] != '/' {
        r.push('/');
    }
    r.append(x);
    r
}

/// The path made of the given components.
pub open spec fn path_of(c: Seq<Part>) -> Seq<char>
    decreases c.len(),
{
    if c.len() == 0 {
        Seq::empty()
    } else {
        joined(path_of(c.drop_last()), part_text(c.last()))
    }
}

/// The text of one component.
pub fn component_text(c: &Component) -> (r: String)
    ensures
        r@ == part_text(c@),
{
    match c {
        Component::Root => "/".to_owned(),
        Component::Here => ".".to_owned(),
        Component::Up => "..".to_owned(),
        Component::Name(n) => n.clone(),
    }
}

/// The path made of the first `n` components.
pub fn path_from(c: &Vec<Component>, n: usize) -> (r: String)
    requires
        n <= c@.len(),
    ensures
        r@ == path_of(part_views(c@).take(n as int)),
{
    let mut out = String::new();
    let mut i: usize = 0;
    while i < n
        invariant
            i <= n <= c@.len(),
            out@ == path_of(part_views(c@).take(i as int)),
        decreases n - i,
    {
        let t: String = component_text(&c[i]);
        out = join(out.as_str(), t.as_str());
        i = i + 1;
        proof {
            let t = part_views(c@).take(i as int);
            assert(t.drop_last() =~= part_views(c@).take(i - 1));
            assert(t.last() == c@[i - 1]@);
        }
    }
    out
}

/// A copy of a component.
pub fn copy_component(c: &Component) -> (r: Component)
    ensures
        r@ == c@,
{
    match c {
        Component::Root => Component::Root,
        Component::Here => Component::Here,
        Component::Up => Component::Up,
        Component::Name(n) => Component::Name(n.clone()),
    }
}

/// Tests two components for equality.
pub fn same_component(a: &Component, b: &Component) -> (r: bool)
    ensures
        r == (a@ == b@),
{
    match (a, b) {
        (Component::Root, Component::Root) => true,
        (Component::Here, Component::Here) => true,
        (Component::Up, Component::Up) => true,
        (Component::Name(x), Component::Name(y)) => text::same(x.as_str(), y.as_str()),
        _ => false,
    }
}

/// Whether `p` lies at or below `prefix`, component by component.
pub open spec fn at_or_below(p: Seq<char>, prefix: Seq<char>) -> bool {
    let a = parts(p);
    let b = parts(prefix);
    b.len() <= a.len() && a.take(b.len() as int) == b
}

/// Tests whether `a` begins with the components `b`.
pub fn begins_with(a: &Vec<Component>, b: &Vec<Component>) -> (r: bool)
    ensures
        r == (b@.len() <= a@.len() && part_views(a@).take(b@.len() as int) == part_views(b@)),
{
    if b.len() > a.len() {
        return false;
    }
    let mut i: usize = 0;
    while i < b.len()
        invariant
            i <= b@.len() <= a@.len(),
            forall|j: int| 0 <= j < i ==> (#[trigger] a@[j])@ == b@[j]@,
        decreases b@.len() - i,
    {
        if !same_component(&a[i], &b[i]) {
            proof {
                assert(part_views(a@).take(b@.len() as int)[i as int] != part_views(b@)[i as int]);
            }
            return false;
        }
        i = i + 1;
    }
    proof {
        assert(part_views(a@).take(b@.len() as int) =~= part_views(b@));
    }
    true
}

// ---------------------------------------------------------------------------
// File names
// ---------------------------------------------------------------------------

/// The final name of a path, if it ends in one.
pub open spec fn name_of(p: Seq<char>) -> Option<Seq<char>> {
    let c = parts(p);
    if c.len() == 0 {
        None
    } else {
        match c.last() {
            Part::Name(n) => Some(n),
            _ => None,
        }
    }
}

/// The components without the last one; none where there is nothing above.
pub open spec fn parent_parts(p: Seq<char>) -> Option<Seq<Part>> {
    let c = parts(p);
    if c.len() == 0 || c.last() == Part::Root {
        None
    } else {
        Some(c.drop_last())
    }
}

/// The stem of a file name: what stands before its last dot. A name without a
/// dot, or with only a leading one, is its own stem.
pub open spec fn stem_of(name: Seq<char>) -> Seq<char> {
    let i = text::rfind(name, '.');
    if i <= 0 {
        name
    } else {
        name.take(i)
    }
}

/// The extension of a file name: what stands behind its last dot. A name
/// without a dot, or with only a leading one, has none.
pub open spec fn ext_of(name: Seq<char>) -> Option<Seq<char>> {
    let i = text::rfind(name, '.');
    if i <= 0 {
        None
    } else {
        Some(name.skip(i + 1))
    }
}

/// The final name of a path.
pub fn file_name(p: &str) -> (r: Option<String>)
    ensures
        crate::types::opt_view(r) == name_of(p@),
{
    let c: Vec<Component> = components(p);
    if c.len() == 0 {
        return None;
    }
    proof {
        assert(parts(p@).last() == c@[c@.len() - 1]@);
    }
    match &c[c.len() - 1] {
        Component::Name(n) => Some(n.clone()),
        _ => None,
    }
}

/// The path without its final component.
pub fn parent(p: &str) -> (r: Option<String>)
    ensures
        match r {
            Some(t) => parent_parts(p@) is Some && t@ == path_of(parent_parts(p@)->0),
            None => parent_parts(p@) is None,
        },
{
    let c: Vec<Component> = components(p);
    if c.len() == 0 {
        return None;
    }
    proof {
        assert(parts(p@).last() == c@[c@.len() - 1]@);
        assert(parts(p@).drop_last() =~= parts(p@).take(c@.len() - 1));
    }
    match &c[c.len() - 1] {
        Component::Root => None,
        _ => Some(path_from(&c, c.len() - 1)),
    }
}

/// The stem of a file name.
pub fn stem(name: &str) -> (r: String)
    ensures
        r@ == stem_of(name@),
{
    let v: Vec<char> = text::chars_of(name);
    match text::find_last(&v, '.') {
        Some(i) => {
            if i == 0 {
                name.to_owned()
            } else {
                proof {
                    text::lemma_rfind(v@, '.');
                    assert(v@.take(i as int) =~= v@.subrange(0, i as int));
                }
                text::string_of(&text::slice_chars(&v, 0, i))
            }
        },
        None => name.to_owned(),
    }
}

/// The extension of a file name.
pub fn extension(name: &str) -> (r: Option<String>)
    ensures
        crate::types::opt_view(r) == ext_of(name@),
{
    let v: Vec<char> = text::chars_of(name);
    match text::find_last(&v, '.') {
        Some(i) => {
            if i == 0 {
                None
            } else {
                proof {
                    text::lemma_rfind(v@, '.');
                    assert(v@.skip(i + 1) =~= v@.subrange(i + 1, v@.len() as int));
                }
                Some(text::string_of(&text::slice_chars(&v, i + 1, v.len())))
            }
        },
        None => None,
    }
}

// ---------------------------------------------------------------------------
// Components and text
// ---------------------------------------------------------------------------

/// A text that can stand as a name in a path.
pub open spec fn proper_name(n: Seq<char>) -> bool {
    n.len() > 0 && !n.contains('/') && n != "."@ && n != ".."@
}

/// The components of an absolute path without `.` and `..`.
pub open spec fn proper(c: Seq<Part>) -> bool {
    &&& c.len() > 0
    &&& c[0] == Part::Root
    &&& forall|i: int|
        1 <= i < c.len() ==> (#[trigger] c[i]) is Name && proper_name(c[i]->Name_0)
}

/// Splitting what ends in a separator and a piece gives that piece last.
pub proof fn lemma_split_push(a: Seq<char>, x: Seq<char>)
    requires
        !x.contains('/'),
    ensures
        text::split(a.push('/') + x, '/') == text::split(a, '/').push(x),
    decreases a.len(),
{
    let s = a.push('/') + x;
    let i = text::find(a, '/');
    text::lemma_find(a, '/');
    text::lemma_find(s, '/');
    text::lemma_find(x, '/');
    if i < a.len() {
        assert(text::find(s, '/') == i) by {
            assert(s[i] == a[i]);
            if text::find(s, '/') < i {
                assert(s[text::find(s, '/')] == a[text::find(s, '/')]);
            }
        }
        assert(s.take(i) =~= a.take(i));
        assert(s.skip(i + 1) =~= a.skip(i + 1).push('/') + x);
        lemma_split_push(a.skip(i + 1), x);
        assert(seq![a.take(i)] + text::split(a.skip(i + 1), '/').push(x) =~= (seq![a.take(i)]
            + text::split(a.skip(i + 1), '/')).push(x));
    } else {
        assert(text::find(s, '/') == a.len()) by {
            assert(s[a.len() as int] == '/');
            if text::find(s, '/') < a.len() {
                assert(s[text::find(s, '/')] == a[text::find(s, '/')]);
                assert(a.contains('/'));
            }
        }
        assert(s.take(a.len() as int) =~= a);
        assert(s.skip(a.len() as int + 1) =~= x);
        assert(text::split(x, '/') =~= seq![x]);
        assert(text::split(s, '/') =~= seq![a] + seq![x]);
        assert(text::split(a, '/') =~= seq![a]);
    }
}

/// No piece between separators holds a separator.
pub proof fn lemma_split_pieces(s: Seq<char>)
    ensures
        forall|i: int|
            0 <= i < text::split(s, '/').len() ==> !(#[trigger] text::split(s, '/')[i]).contains(
                '/',
            ),
    decreases s.len(),
{
    let k = text::find(s, '/');
    text::lemma_find(s, '/');
    let all = text::split(s, '/');
    if k >= s.len() {
        assert(all =~= seq![s]);
    } else {
        lemma_split_pieces(s.skip(k + 1));
        let rest = text::split(s.skip(k + 1), '/');
        assert forall|i: int| 0 <= i < all.len() implies !(#[trigger] all[i]).contains('/') by {
            if i == 0 {
                let t = s.take(k);
                assert(all[0] =~= t);
                assert forall|j: int| 0 <= j < t.len() implies t[j] != '/' by {
                    assert(t[j] == s[j]);
                }
            } else {
                assert(all[i] == rest[i - 1]);
            }
        }
    }
}

/// Every name among the components of a path is a proper one, and the root
/// can only come first.
pub proof fn lemma_parts_proper(p: Seq<char>)
    ensures
        forall|i: int|
            0 <= i < parts(p).len() ==> ((#[trigger] parts(p)[i]) is Name ==> proper_name(
                parts(p)[i]->Name_0,
            )),
        forall|i: int| 0 < i < parts(p).len() ==> (#[trigger] parts(p)[i]) != Part::Root,
        absolute(p) <==> parts(p).len() > 0 && parts(p)[0] == Part::Root,
{
    let pieces = text::split(p, '/');
    lemma_split_pieces(p);
    lemma_pieces_proper(pieces, !absolute(p));
    let rest = pieces_parts(pieces, !absolute(p));
    assert(!absolute(p) && rest.len() > 0 ==> rest[0] != Part::Root);
    assert forall|i: int| 0 <= i < parts(p).len() implies ((#[trigger] parts(p)[i]) is Name
        ==> proper_name(parts(p)[i]->Name_0)) by {
        if absolute(p) && i > 0 {
            assert(parts(p)[i] == rest[i - 1]);
        } else if !absolute(p) {
            assert(parts(p)[i] == rest[i]);
        }
    }
    assert forall|i: int| 0 < i < parts(p).len() implies (#[trigger] parts(p)[i]) != Part::Root by {
        if absolute(p) {
            assert(parts(p)[i] == rest[i - 1]);
        } else {
            assert(parts(p)[i] == rest[i]);
        }
    }
}

proof fn lemma_pieces_proper(pieces: Seq<Seq<char>>, first: bool)
    requires
        forall|i: int| 0 <= i < pieces.len() ==> !(#[trigger] pieces[i]).contains('/'),
    ensures
        forall|i: int|
            0 <= i < pieces_parts(pieces, first).len() ==> ((#[trigger] pieces_parts(
                pieces,
                first,
            )[i]) is Name ==> proper_name(pieces_parts(pieces, first)[i]->Name_0))
                && pieces_parts(pieces, first)[i] != Part::Root,
    decreases pieces.len(),
{
    if pieces.len() > 0 {
        let head = pieces.drop_last();
        assert forall|i: int| 0 <= i < head.len() implies !(#[trigger] head[i]).contains('/') by {
            assert(head[i] == pieces[i]);
        }
        lemma_pieces_proper(head, first);
        let a = pieces_parts(head, first);
        let b = piece_parts(pieces.last(), first && pieces.len() == 1);
        let all = pieces_parts(pieces, first);
        assert(!pieces[pieces.len() - 1].contains('/'));
        assert forall|i: int| 0 <= i < all.len() implies ((#[trigger] all[i]) is Name
            ==> proper_name(all[i]->Name_0)) && all[i] != Part::Root by {
            if i < a.len() {
                assert(all[i] == a[i]);
            } else {
                assert(all[i] == b[i - a.len()]);
            }
        }
    }
}

/// The components of an absolute path; it may go up.
pub open spec fn rooted(c: Seq<Part>) -> bool {
    &&& c.len() > 0
    &&& c[0] == Part::Root
    &&& forall|i: int|
        1 <= i < c.len() ==> ((#[trigger] c[i]) is Up || (c[i] is Name && proper_name(
            c[i]->Name_0,
        )))
}

/// Writing the components of an absolute path and splitting the text again
/// gives the same components.
pub proof fn law_path_round_trip(c: Seq<Part>)
    requires
        rooted(c),
    ensures
        parts(path_of(c)) == c,
        absolute(path_of(c)),
        c.len() > 1 ==> path_of(c).last() != '/',
        c.len() == 1 ==> path_of(c) == seq!['/'],
    decreases c.len(),
{
    reveal_strlit("/");
    reveal_strlit(".");
    reveal_strlit("..");
    let d = c.drop_last();
    let s = path_of(d);
    let empty = Seq::<char>::empty();
    if c.len() == 1 {
        assert(path_of(d) =~= empty);
        assert(path_of(c) =~= seq!['/']);
        assert(!empty.contains('/'));
        lemma_split_push(empty, empty);
        assert(empty.push('/') + empty =~= seq!['/']);
        assert(text::split(empty, '/') =~= seq![empty]);
        let pieces = text::split(seq!['/'], '/');
        assert(pieces =~= seq![empty, empty]);
        assert(pieces.drop_last() =~= seq![empty]);
        assert(pieces.drop_last().drop_last() =~= Seq::<Seq<char>>::empty());
        reveal_with_fuel(pieces_parts, 3);
        assert(pieces_parts(pieces, false) =~= Seq::<Part>::empty());
        assert(parts(path_of(c)) =~= c);
    } else {
        assert forall|i: int| 1 <= i < d.len() implies ((#[trigger] d[i]) is Up || (d[i] is Name
            && proper_name(d[i]->Name_0))) by {
            assert(d[i] == c[i]);
        }
        law_path_round_trip(d);
        let x = part_text(c.last());
        assert(c[c.len() - 1] is Up || proper_name(c[c.len() - 1]->Name_0));
        assert(x.len() > 0 && !x.contains('/'));
        assert(x[0] != '/' && x.last() != '/') by {
            assert(x.contains(x[0]));
            assert(x.contains(x[x.len() - 1]));
        }
        assert(x != "."@);
        assert(piece_parts(x, false) =~= seq![c.last()]);
        let full = path_of(c);
        if d.len() == 1 {
            assert(full =~= seq!['/'] + x);
            assert(full =~= empty.push('/') + x);
            lemma_split_push(empty, x);
            assert(text::split(empty, '/') =~= seq![empty]);
            let pieces = text::split(full, '/');
            assert(pieces =~= seq![empty, x]);
            assert(pieces.drop_last() =~= seq![empty]);
            assert(pieces.drop_last().drop_last() =~= Seq::<Seq<char>>::empty());
            reveal_with_fuel(pieces_parts, 3);
            assert(pieces_parts(pieces, false) =~= seq![c.last()]);
            assert(parts(full) =~= c);
        } else {
            assert(full =~= s.push('/') + x);
            lemma_split_push(s, x);
            let pieces = text::split(full, '/');
            assert(pieces.drop_last() =~= text::split(s, '/'));
            assert(pieces_parts(pieces, false) == pieces_parts(text::split(s, '/'), false) + seq![
                c.last(),
            ]);
            assert(parts(full) =~= parts(s) + seq![c.last()]);
            assert(c =~= d + seq![c.last()]);
        }
    }
}

/// The components of an absolute path are those of an absolute path.
pub proof fn lemma_parts_rooted(p: Seq<char>)
    requires
        absolute(p),
    ensures
        rooted(parts(p)),
{
    lemma_parts_proper(p);
    lemma_pieces_named(text::split(p, '/'));
    let rest = pieces_parts(text::split(p, '/'), false);
    let c = parts(p);
    assert forall|i: int| 1 <= i < c.len() implies ((#[trigger] c[i]) is Up || (c[i] is Name
        && proper_name(c[i]->Name_0))) by {
        assert(c[i] == rest[i - 1]);
    }
}

proof fn lemma_pieces_named(pieces: Seq<Seq<char>>)
    ensures
        forall|i: int|
            0 <= i < pieces_parts(pieces, false).len() ==> ((#[trigger] pieces_parts(
                pieces,
                false,
            )[i]) is Up || pieces_parts(pieces, false)[i] is Name),
    decreases pieces.len(),
{
    if pieces.len() > 0 {
        lemma_pieces_named(pieces.drop_last());
        let a = pieces_parts(pieces.drop_last(), false);
        let all = pieces_parts(pieces, false);
        assert forall|i: int| 0 <= i < all.len() implies ((#[trigger] all[i]) is Up
            || all[i] is Name) by {
            if i < a.len() {
                assert(all[i] == a[i]);
            }
        }
    }
}

/// The components of a relative path that only goes up and down.
pub open spec fn relative(c: Seq<Part>) -> bool {
    forall|i: int|
        0 <= i < c.len() ==> ((#[trigger] c[i]) is Up || (c[i] is Name && proper_name(
            c[i]->Name_0,
        )))
}

/// Writing the components of a relative path and splitting the text again
/// gives the same components.
pub proof fn law_relative_round_trip(c: Seq<Part>)
    requires
        relative(c),
    ensures
        parts(path_of(c)) == c,
        !absolute(path_of(c)),
        c.len() > 0 ==> path_of(c).len() > 0 && path_of(c).last() != '/',
    decreases c.len(),
{
    reveal_strlit("..");
    reveal_strlit(".");
    let empty = Seq::<char>::empty();
    if c.len() == 0 {
        assert(text::split(empty, '/') =~= seq![empty]);
        assert(seq![empty].drop_last() =~= Seq::<Seq<char>>::empty());
        reveal_with_fuel(pieces_parts, 2);
        assert(parts(path_of(c)) =~= c);
    } else {
        let d = c.drop_last();
        assert forall|i: int| 0 <= i < d.len() implies ((#[trigger] d[i]) is Up || (d[i] is Name
            && proper_name(d[i]->Name_0))) by {
            assert(d[i] == c[i]);
        }
        law_relative_round_trip(d);
        let s = path_of(d);
        let x = part_text(c.last());
        assert(c[c.len() - 1] is Up || proper_name(c[c.len() - 1]->Name_0));
        assert(x.len() > 0 && !x.contains('/'));
        assert(x[0] != '/' && x.last() != '/') by {
            assert(x.contains(x[0]));
            assert(x.contains(x[x.len() - 1]));
        }
        assert(x != "."@);
        assert(piece_parts(x, false) =~= seq![c.last()]);
        assert(piece_parts(x, true) =~= seq![c.last()]);
        let full = path_of(c);
        if d.len() == 0 {
            assert(full =~= x);
            text::lemma_find(x, '/');
            assert(text::split(x, '/') =~= seq![x]);
            assert(seq![x].drop_last() =~= Seq::<Seq<char>>::empty());
            reveal_with_fuel(pieces_parts, 2);
            assert(parts(full) =~= c);
        } else {
            assert(full =~= s.push('/') + x);
            assert(full[0] == s[0]);
            lemma_split_push(s, x);
            let pieces = text::split(full, '/');
            assert(pieces.drop_last() =~= text::split(s, '/'));
            assert(text::split(s, '/').len() > 0);
            assert(parts(full) =~= parts(s) + seq![c.last()]);
            assert(c =~= d + seq![c.last()]);
        }
    }
}

/// A path extended by a proper name ends in that name.
pub proof fn lemma_joined_name(base: Seq<char>, x: Seq<char>)
    requires
        proper_name(x),
    ensures
        name_of(joined(base, x)) == Some(x),
{
    assert(x[0] != '/') by {
        if x[0] == '/' {
            assert(x.contains('/'));
        }
    }
    let full = joined(base, x);
    assert(piece_parts(x, false) =~= seq![Part::Name(x)]);
    assert(piece_parts(x, true) =~= seq![Part::Name(x)]);
    if base.len() == 0 {
        text::lemma_find(x, '/');
        assert(text::split(x, '/') =~= seq![x]);
    } else {
        let front = if base.last() == '/' {
            base.drop_last()
        } else {
            base
        };
        assert(full =~= front.push('/') + x);
        lemma_split_push(front, x);
    }
    let pieces = text::split(full, '/');
    assert(pieces.last() == x);
    let rest = pieces_parts(pieces, !absolute(full));
    assert(rest.last() == Part::Name(x));
    assert(parts(full).last() == Part::Name(x));
}

} // verus!
