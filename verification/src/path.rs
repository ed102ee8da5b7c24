//! Unix paths, handled by their components.
//!
//! A path is text. Its components are found as `std::path::Path::components`
//! finds them on Unix: a leading `/` gives the root, the rest is split at `/`,
//! empty pieces and `.` pieces are dropped, except that a relative path that
//! begins with a `.` piece keeps it as the current directory, and `..` is the
//! parent directory. Two paths are the same path when their components are
//! equal, and paths are ordered by their components. Functions that compute a
//! new path work on the text as `std::path` does.
use vstd::prelude::*;

use crate::text::{lemma_split_on_around, lemma_text_lt_total, chars_equal, chars_of, compare_chars, concat_chars, copy_chars, slice_chars, has_prefix, join_with, lemma_chars_deep_view, split_chars, split_from, split_on, text_lt};

verus! {

/// A path component, as text.
pub enum Comp {
    RootDir,
    CurDir,
    ParentDir,
    Normal(Seq<char>),
}

/// A path component.
pub enum Component {
    RootDir,
    CurDir,
    ParentDir,
    Normal(Vec<char>),
}

impl DeepView for Component {
    type V = Comp;

    open spec fn deep_view(&self) -> Comp {
        match self {
            Component::RootDir => Comp::RootDir,
            Component::CurDir => Comp::CurDir,
            Component::ParentDir => Comp::ParentDir,
            Component::Normal(n) => Comp::Normal(n@),
        }
    }
}

pub open spec fn dot() -> Seq<char> {
    seq!['.']
}

pub open spec fn dot_dot() -> Seq<char> {
    seq!['.', '.']
}

/// Whether the path text begins with the root.
pub open spec fn is_absolute(p: Seq<char>) -> bool {
    p.len() > 0 && p[0] == '/'
}

/// The components that one `/`-separated piece stands for.
pub open spec fn piece_comps(s: Seq<char>) -> Seq<Comp> {
    if s.len() == 0 || s == dot() {
        Seq::empty()
    } else if s == dot_dot() {
        seq![Comp::ParentDir]
    } else {
        seq![Comp::Normal(s)]
    }
}

/// The components that a run of pieces stands for.
pub open spec fn pieces_comps(pieces: Seq<Seq<char>>) -> Seq<Comp>
    decreases pieces.len(),
{
    if pieces.len() == 0 {
        Seq::empty()
    } else {
        pieces_comps(pieces.drop_last()) + piece_comps(pieces.last())
    }
}

/// Whether a relative path begins with a `.` piece.
pub open spec fn leads_with_cur(p: Seq<char>) -> bool {
    !is_absolute(p) && split_on(p, '/')[0] == dot()
}

/// The components of a path.
pub open spec fn comps(p: Seq<char>) -> Seq<Comp> {
    let pieces = split_on(p, '/');
    if is_absolute(p) {
        seq![Comp::RootDir] + pieces_comps(pieces)
    } else if leads_with_cur(p) {
        seq![Comp::CurDir] + pieces_comps(pieces.drop_first())
    } else {
        pieces_comps(pieces)
    }
}

/// Whether two paths are the same path.
pub open spec fn same_path(a: Seq<char>, b: Seq<char>) -> bool {
    comps(a) == comps(b)
}

/// Whether `base`'s components begin `p`'s (`Path::starts_with`).
pub open spec fn path_starts_with(p: Seq<char>, base: Seq<char>) -> bool {
    comps(base).len() <= comps(p).len() && comps(p).take(comps(base).len() as int) == comps(base)
}

/// `p.join(q)` as `PathBuf::push` gives it: `q` when `q` is absolute, else `p`,
/// a `/` unless `p` is empty or already ends with one, and `q`.
pub open spec fn join(p: Seq<char>, q: Seq<char>) -> Seq<char> {
    if is_absolute(q) {
        q
    } else if p.len() > 0 && p.last() != '/' {
        p + seq!['/'] + q
    } else {
        p + q
    }
}

/// `q` without trailing `/`s and trailing `.` pieces, keeping its first
/// `keep` characters.
pub open spec fn trim_tail(q: Seq<char>, keep: int) -> Seq<char>
    decreases q.len(),
{
    if q.len() == 0 || q.len() <= keep {
        q
    } else if q.last() == '/' {
        trim_tail(q.drop_last(), keep)
    } else if q.last() == '.' && (q.len() == 1 || q[q.len() - 2] == '/') {
        trim_tail(q.drop_last(), keep)
    } else {
        q
    }
}

/// How many leading characters of a path come before its body: the root
/// `/`, or the `.` of a relative path that begins with a `.` piece.
pub open spec fn head_len(p: Seq<char>) -> int {
    if is_absolute(p) || leads_with_cur(p) {
        1
    } else {
        0
    }
}

/// The parent of a path (`Path::parent`): none for a path without
/// components or for the root alone; otherwise the text before the last
/// component, without the `/`s and `.` pieces that end it (the root and a
/// leading `.` are kept).
pub open spec fn parent(p: Seq<char>) -> Option<Seq<char>> {
    let cs = comps(p);
    if cs.len() == 0 || cs.last() == Comp::RootDir {
        None
    } else {
        Some(trim_tail(p.take(name_start(p, name_end(p))), head_len(p)))
    }
}

/// The file name of a path (`Path::file_name`): its last component when that
/// is a normal one.
pub open spec fn file_name(p: Seq<char>) -> Option<Seq<char>> {
    let cs = comps(p);
    if cs.len() > 0 && cs.last() is Normal {
        Some(cs.last()->Normal_0)
    } else {
        None
    }
}

/// The index of the last `.` in `s`, if any.
pub open spec fn last_dot(s: Seq<char>) -> Option<int>
    decreases s.len(),
{
    if s.len() == 0 {
        None
    } else if s.last() == '.' {
        Some(s.len() - 1)
    } else {
        last_dot(s.drop_last())
    }
}

/// A file name split at its last `.`, as `Path::file_stem` and
/// `Path::extension` split it: a name without a `.`, or whose only `.` is its
/// first character, has no extension.
pub open spec fn stem_of_name(name: Seq<char>) -> Seq<char> {
    match last_dot(name) {
        Some(i) => if i == 0 {
            name
        } else {
            name.take(i)
        },
        None => name,
    }
}

pub open spec fn extension_of_name(name: Seq<char>) -> Option<Seq<char>> {
    match last_dot(name) {
        Some(i) => if i == 0 {
            None
        } else {
            Some(name.skip(i + 1))
        },
        None => None,
    }
}

/// `Path::file_stem`.
pub open spec fn file_stem(p: Seq<char>) -> Option<Seq<char>> {
    match file_name(p) {
        Some(n) => Some(stem_of_name(n)),
        None => None,
    }
}

/// `Path::extension`.
pub open spec fn extension(p: Seq<char>) -> Option<Seq<char>> {
    match file_name(p) {
        Some(n) => extension_of_name(n),
        None => None,
    }
}

/// Where the last component of a path ends in its text: trailing `/`s and
/// `.` pieces are not part of it.
pub open spec fn name_end(p: Seq<char>) -> int
    decreases p.len(),
{
    if p.len() == 0 {
        0
    } else if p.last() == '/' {
        name_end(p.drop_last())
    } else if p.last() == '.' && (p.len() == 1 || p[p.len() - 2] == '/') {
        name_end(p.drop_last())
    } else {
        p.len() as int
    }
}

/// Where the piece of text that ends at `end` begins: just after the last
/// `/` before `end`, or at the start.
pub open spec fn name_start(p: Seq<char>, end: int) -> int
    decreases end,
{
    if end <= 0 {
        0
    } else if p[end - 1] == '/' {
        end
    } else {
        name_start(p, end - 1)
    }
}

/// `Path::with_extension` (`PathBuf::set_extension`): when the path has a
/// file name, its text up to where the file stem ends, then `.` and `ext`
/// (nothing when `ext` is empty); the path unchanged otherwise.
pub open spec fn with_extension(p: Seq<char>, ext: Seq<char>) -> Seq<char> {
    if file_name(p) is None {
        p
    } else {
        let end = name_end(p);
        let start = name_start(p, end);
        let stem_end = match last_dot(p.subrange(start, end)) {
            Some(i) => if i == 0 {
                end
            } else {
                start + i
            },
            None => end,
        };
        p.take(stem_end) + if ext.len() == 0 {
            Seq::<char>::empty()
        } else {
            dot() + ext
        }
    }
}

/// The order of `Path`: components compared in turn, the root before `.`,
/// `.` before `..`, `..` before names, and names as text.
pub open spec fn comp_lt(a: Comp, b: Comp) -> bool {
    match (a, b) {
        (Comp::Normal(x), Comp::Normal(y)) => text_lt(x, y),
        (Comp::Normal(_), _) => false,
        (_, Comp::Normal(_)) => true,
        (Comp::RootDir, Comp::RootDir) => false,
        (Comp::RootDir, _) => true,
        (Comp::CurDir, Comp::ParentDir) => true,
        _ => false,
    }
}

pub open spec fn comps_lt(a: Seq<Comp>, b: Seq<Comp>) -> bool
    decreases a.len(),
{
    if a.len() == 0 {
        b.len() > 0
    } else if b.len() == 0 {
        false
    } else if a[0] != b[0] {
        comp_lt(a[0], b[0])
    } else {
        comps_lt(a.drop_first(), b.drop_first())
    }
}

pub open spec fn path_lt(a: Seq<char>, b: Seq<char>) -> bool {
    comps_lt(comps(a), comps(b))
}

// ---------------------------------------------------------------------------
// Executable functions.
/// A copy of a component.
pub fn copy_component(c: &Component) -> (res: Component)
    ensures
        res.deep_view() == c.deep_view(),
{
    match c {
        Component::RootDir => Component::RootDir,
        Component::CurDir => Component::CurDir,
        Component::ParentDir => Component::ParentDir,
        Component::Normal(n) => Component::Normal(copy_chars(n)),
    }
}

fn text_of(s: &str) -> (res: Vec<char>)
    ensures
        res@ == s@,
{
    chars_of(s)
}

fn component_of_piece(s: &Vec<char>) -> (res: Vec<Component>)
    ensures
        res.deep_view() == piece_comps(s@),
{
    if s.len() == 0 || (s.len() == 1 && s[0] == '.') {
        let res: Vec<Component> = Vec::new();
        assert(res.deep_view() =~= piece_comps(s@)) by {
            if s.len() == 1 {
                assert(s@ =~= dot());
            }
        }
        res
    } else if s.len() == 2 && s[0] == '.' && s[1] == '.' {
        assert(s@ =~= dot_dot());
        assert(s@ != dot());
        let res = vec![Component::ParentDir];
        assert(res.deep_view() =~= piece_comps(s@));
        res
    } else {
        assert(s@ != dot()) by {
            if s@ == dot() {
                assert(s@.len() == 1);
            }
        }
        assert(s@ != dot_dot()) by {
            if s@ == dot_dot() {
                assert(s@.len() == 2 && s@[0] == '.' && s@[1] == '.');
            }
        }
        let res = vec![Component::Normal(copy_chars(s))];
        assert(res.deep_view() =~= piece_comps(s@));
        res
    }
}

/// The components of a path (`Path::components`).
pub fn components(p: &Vec<char>) -> (res: Vec<Component>)
    ensures
        res.deep_view() == comps(p@),
{
    let pieces = split_chars(p, '/');
    let absolute = p.len() > 0 && p[0] == '/';
    let mut res: Vec<Component> = Vec::new();
    let mut start: usize = 0;
    assert(pieces.deep_view().len() > 0) by {
        lemma_split_nonempty(p@, '/', Seq::empty());
    }
    if absolute {
        res.push(Component::RootDir);
    } else if pieces[0].len() == 1 && pieces[0][0] == '.' {
        assert(pieces.deep_view()[0] == pieces@[0]@) by {
            lemma_chars_deep_view(&pieces@[0]);
        }
        assert(pieces@[0]@ =~= dot());
        res.push(Component::CurDir);
        start = 1;
    } else {
        assert(pieces.deep_view()[0] == pieces@[0]@) by {
            lemma_chars_deep_view(&pieces@[0]);
        }
        assert(!leads_with_cur(p@)) by {
            if pieces@[0]@ == dot() {
                assert(pieces@[0]@.len() == 1);
            }
        }
    }
    let ghost head = res.deep_view();
    let ghost all = pieces.deep_view();
    let mut k = start;
    assert(all.subrange(start as int, k as int) =~= Seq::<Seq<char>>::empty());
    assert(res.deep_view() =~= head + pieces_comps(all.subrange(start as int, k as int)));
    while k < pieces.len()
        invariant
            start <= k <= pieces.len(),
            all == pieces.deep_view(),
            res.deep_view() == head + pieces_comps(all.subrange(start as int, k as int)),
        decreases pieces.len() - k,
    {
        let more = component_of_piece(&pieces[k]);
        proof {
            lemma_chars_deep_view(&pieces@[k as int]);
        }
        let ghost before = res.deep_view();
        let mut j: usize = 0;
        while j < more.len()
            invariant
                j <= more.len(),
                res.deep_view() == before + more.deep_view().take(j as int),
            decreases more.len() - j,
        {
            let c = copy_component(&more[j]);
            let ghost cv = c.deep_view();
            let ghost prev = res.deep_view();
            res.push(c);
            assert(res.deep_view() =~= prev.push(cv));
            j += 1;
            assert(more.deep_view().take(j as int) =~= more.deep_view().take(j - 1).push(cv));
            assert(res.deep_view() =~= before + more.deep_view().take(j as int));
        }
        assert(more.deep_view().take(j as int) =~= more.deep_view());
        assert(all.subrange(start as int, k + 1).drop_last() =~= all.subrange(
            start as int,
            k as int,
        ));
        k += 1;
        assert(res.deep_view() =~= head + pieces_comps(all.subrange(start as int, k as int)));
    }
    proof {
        if absolute {
            assert(all.subrange(start as int, k as int) =~= all);
        } else if start == 1 {
            assert(all.subrange(start as int, k as int) =~= all.drop_first());
        } else {
            assert(all.subrange(start as int, k as int) =~= all);
        }
        assert(res.deep_view() =~= comps(p@));
    }
    res
}

pub proof fn lemma_split_nonempty(s: Seq<char>, c: char, cur: Seq<char>)
    ensures
        split_from(s, c, cur).len() > 0,
    decreases s.len(),
{
    if s.len() > 0 {
        if s[0] == c {
            lemma_split_nonempty(s.drop_first(), c, Seq::empty());
        } else {
            lemma_split_nonempty(s.drop_first(), c, cur.push(s[0]));
        }
    }
}


/// Whether two components are equal.
pub fn same_component(a: &Component, b: &Component) -> (res: bool)
    ensures
        res == (a.deep_view() == b.deep_view()),
{
    match (a, b) {
        (Component::RootDir, Component::RootDir) => true,
        (Component::CurDir, Component::CurDir) => true,
        (Component::ParentDir, Component::ParentDir) => true,
        (Component::Normal(x), Component::Normal(y)) => chars_equal(x, y),
        _ => false,
    }
}

/// Whether `a`'s components begin `b`'s... in the sense that the first
/// `a.len()` components of `b` are `a`.
pub fn components_prefix(a: &Vec<Component>, b: &Vec<Component>) -> (res: bool)
    ensures
        res == (a.deep_view().len() <= b.deep_view().len() && b.deep_view().take(
            a.deep_view().len() as int,
        ) == a.deep_view()),
{
    if a.len() > b.len() {
        return false;
    }
    let mut i: usize = 0;
    while i < a.len()
        invariant
            a.len() <= b.len(),
            i <= a.len(),
            b.deep_view().take(i as int) == a.deep_view().take(i as int),
        decreases a.len() - i,
    {
        if !same_component(&a[i], &b[i]) {
            assert(b.deep_view().take(a.len() as int)[i as int] != a.deep_view()[i as int]);
            return false;
        }
        i += 1;
        assert(b.deep_view().take(i as int) =~= a.deep_view().take(i as int));
    }
    assert(a.deep_view().take(i as int) =~= a.deep_view());
    true
}

/// Whether two component sequences are equal.
pub fn same_components(a: &Vec<Component>, b: &Vec<Component>) -> (res: bool)
    ensures
        res == (a.deep_view() == b.deep_view()),
{
    if a.len() != b.len() {
        return false;
    }
    let r = components_prefix(a, b);
    assert(b.deep_view().take(a.len() as int) =~= b.deep_view());
    r
}

/// Whether two paths are the same path (`Path` equality).
pub fn same_path_chars(a: &Vec<char>, b: &Vec<char>) -> (res: bool)
    ensures
        res == same_path(a@, b@),
{
    let ca = components(a);
    let cb = components(b);
    same_components(&ca, &cb)
}

/// Whether `base`'s components begin `p`'s (`Path::starts_with`).
pub fn path_starts_with_chars(p: &Vec<char>, base: &Vec<char>) -> (res: bool)
    ensures
        res == path_starts_with(p@, base@),
{
    let cp = components(p);
    let cb = components(base);
    components_prefix(&cb, &cp)
}

/// Whether the path begins with the root (`Path::is_absolute`).
pub fn is_absolute_chars(p: &Vec<char>) -> (res: bool)
    ensures
        res == is_absolute(p@),
{
    p.len() > 0 && p[0] == '/'
}

/// `p.join(q)`.
pub fn join_chars(p: &Vec<char>, q: &Vec<char>) -> (res: Vec<char>)
    ensures
        res@ == join(p@, q@),
{
    if is_absolute_chars(q) {
        copy_chars(q)
    } else if p.len() > 0 && p[p.len() - 1] != '/' {
        let mut r = copy_chars(p);
        r.push('/');
        let res = concat_chars(&r, q);
        assert(res@ =~= p@ + seq!['/'] + q@);
        res
    } else {
        concat_chars(p, q)
    }
}

/// The parent of a path (`Path::parent`).
pub fn parent_chars(p: &Vec<char>) -> (res: Option<Vec<char>>)
    ensures
        res.deep_view() == parent(p@),
{
    let cs = components(p);
    if cs.len() == 0 {
        return None;
    }
    if let Component::RootDir = &cs[cs.len() - 1] {
        return None;
    }
    let end = name_end_index(p);
    let start = name_start_index(p, end);
    let keep: usize = if p.len() > 0 && p[0] == '/' {
        1
    } else if p.len() > 0 && p[0] == '.' && (p.len() == 1 || p[1] == '/') {
        1
    } else {
        0
    };
    proof {
        assert(keep == head_len(p@)) by {
            lemma_split_nonempty(p@, '/', Seq::empty());
            if !is_absolute(p@) {
                lemma_first_piece_dot(p@);
            }
        }
    }
    let mut i = start;
    assert(p@.take(start as int).take(i as int) =~= p@.take(start as int));
    while i > keep
        invariant
            keep <= 1,
            i <= start <= p.len(),
            trim_tail(p@.take(start as int), keep as int) == trim_tail(p@.take(i as int), keep as int),
        ensures
            i <= start <= p.len(),
            trim_tail(p@.take(start as int), keep as int) == p@.take(i as int),
        decreases i,
    {
        let c = p[i - 1];
        let skip = c == '/' || (c == '.' && (i == 1 || p[i - 2] == '/'));
        if !skip {
            break;
        }
        assert(p@.take(i as int).drop_last() =~= p@.take(i - 1));
        i -= 1;
    }
    let r = slice_chars(p, 0, i);
    assert(r@ =~= p@.take(i as int));
    proof {
        lemma_chars_deep_view(&r);
    }
    Some(r)
}

/// The file name of a path (`Path::file_name`).
pub fn file_name_chars(p: &Vec<char>) -> (res: Option<Vec<char>>)
    ensures
        res.deep_view() == file_name(p@),
{
    let cs = components(p);
    if cs.len() == 0 {
        return None;
    }
    match &cs[cs.len() - 1] {
        Component::Normal(n) => {
            let r = copy_chars(n);
            proof {
                lemma_chars_deep_view(&r);
            }
            Some(r)
        },
        _ => None,
    }
}

/// The index of the last `.` in `s`.
pub fn last_dot_index(s: &Vec<char>) -> (res: Option<usize>)
    ensures
        match res {
            Some(i) => i < s.len() && last_dot(s@) == Some(i as int),
            None => last_dot(s@) is None,
        },
{
    let mut j = s.len();
    assert(s@.take(j as int) =~= s@);
    while j > 0
        invariant
            j <= s.len(),
            last_dot(s@) == last_dot(s@.take(j as int)),
        decreases j,
    {
        if s[j - 1] == '.' {
            return Some(j - 1);
        }
        assert(s@.take(j as int).drop_last() =~= s@.take(j - 1));
        j -= 1;
    }
    None
}

/// The stem of a file name.
pub fn stem_of_name_chars(name: &Vec<char>) -> (res: Vec<char>)
    ensures
        res@ == stem_of_name(name@),
{
    match last_dot_index(name) {
        Some(i) => if i == 0 {
            copy_chars(name)
        } else {
            let r = slice_chars(name, 0, i);
            assert(r@ =~= name@.take(i as int));
            r
        },
        None => copy_chars(name),
    }
}

/// `Path::file_stem`.
pub fn file_stem_chars(p: &Vec<char>) -> (res: Option<Vec<char>>)
    ensures
        res.deep_view() == file_stem(p@),
{
    match file_name_chars(p) {
        Some(n) => {
            proof {
                lemma_chars_deep_view(&n);
            }
            let r = stem_of_name_chars(&n);
            proof {
                lemma_chars_deep_view(&r);
            }
            Some(r)
        },
        None => None,
    }
}

/// `Path::extension`.
pub fn extension_chars(p: &Vec<char>) -> (res: Option<Vec<char>>)
    ensures
        res.deep_view() == extension(p@),
{
    match file_name_chars(p) {
        Some(n) => {
            proof {
                lemma_chars_deep_view(&n);
            }
            match last_dot_index(&n) {
                Some(i) => if i == 0 {
                    None
                } else {
                    let r = slice_chars(&n, i + 1, n.len());
                    assert(r@ =~= n@.skip(i + 1));
                    proof {
                        lemma_chars_deep_view(&r);
                    }
                    Some(r)
                },
                None => None,
            }
        },
        None => None,
    }
}

/// Where the last component of `p` ends in its text.
fn name_end_index(p: &Vec<char>) -> (res: usize)
    ensures
        res == name_end(p@),
        res <= p.len(),
{
    let mut i = p.len();
    assert(p@.take(i as int) =~= p@);
    while i > 0
        invariant
            i <= p.len(),
            name_end(p@) == name_end(p@.take(i as int)),
        decreases i,
    {
        let c = p[i - 1];
        let skip = c == '/' || (c == '.' && (i == 1 || p[i - 2] == '/'));
        if !skip {
            return i;
        }
        assert(p@.take(i as int).drop_last() =~= p@.take(i - 1));
        i -= 1;
    }
    assert(p@.take(0) =~= Seq::<char>::empty());
    0
}

/// Where the piece of `p` that ends at `end` begins.
fn name_start_index(p: &Vec<char>, end: usize) -> (res: usize)
    requires
        end <= p.len(),
    ensures
        res == name_start(p@, end as int),
        res <= end,
{
    let mut i = end;
    while i > 0
        invariant
            i <= end <= p.len(),
            name_start(p@, end as int) == name_start(p@, i as int),
        decreases i,
    {
        if p[i - 1] == '/' {
            return i;
        }
        i -= 1;
    }
    0
}

/// `Path::with_extension`.
pub fn with_extension_chars(p: &Vec<char>, ext: &Vec<char>) -> (res: Vec<char>)
    ensures
        res@ == with_extension(p@, ext@),
{
    if file_name_chars(p).is_none() {
        return copy_chars(p);
    }
    let end = name_end_index(p);
    let start = name_start_index(p, end);
    let piece = slice_chars(p, start, end);
    let stem_end = match last_dot_index(&piece) {
        Some(i) => if i == 0 {
            end
        } else {
            start + i
        },
        None => end,
    };
    let mut res = slice_chars(p, 0, stem_end);
    assert(res@ =~= p@.take(stem_end as int));
    if ext.len() > 0 {
        res.push('.');
        let r = concat_chars(&res, ext);
        assert(r@ =~= p@.take(stem_end as int) + (dot() + ext@));
        r
    } else {
        assert(res@ =~= p@.take(stem_end as int) + Seq::<char>::empty());
        res
    }
}

/// Compares two components in the order of `Path`.
pub fn compare_component(a: &Component, b: &Component) -> (res: i8)
    ensures
        res == 0 <==> a.deep_view() == b.deep_view(),
        res < 0 <==> comp_lt(a.deep_view(), b.deep_view()),
        res > 0 <==> comp_lt(b.deep_view(), a.deep_view()),
{
    match (a, b) {
        (Component::Normal(x), Component::Normal(y)) => compare_chars(x, y),
        (Component::Normal(_), _) => 1,
        (_, Component::Normal(_)) => -1,
        (Component::RootDir, Component::RootDir) => 0,
        (Component::RootDir, _) => -1,
        (_, Component::RootDir) => 1,
        (Component::CurDir, Component::CurDir) => 0,
        (Component::CurDir, _) => -1,
        (_, Component::CurDir) => 1,
        (Component::ParentDir, Component::ParentDir) => 0,
    }
}

/// Whether path `a` comes before path `b` in the order of `Path`.
pub fn path_less(a: &Vec<char>, b: &Vec<char>) -> (res: bool)
    ensures
        res == path_lt(a@, b@),
{
    let ca = components(a);
    let cb = components(b);
    let ghost x = ca.deep_view();
    let ghost y = cb.deep_view();
    let mut i: usize = 0;
    assert(x.skip(0) =~= x);
    assert(y.skip(0) =~= y);
    while i < ca.len() && i < cb.len()
        invariant
            i <= ca.len(),
            i <= cb.len(),
            x == ca.deep_view(),
            y == cb.deep_view(),
            x == comps(a@),
            y == comps(b@),
            comps_lt(x, y) == comps_lt(x.skip(i as int), y.skip(i as int)),
        decreases ca.len() - i,
    {
        let c = compare_component(&ca[i], &cb[i]);
        assert(x.skip(i as int)[0] == ca@[i as int].deep_view());
        assert(y.skip(i as int)[0] == cb@[i as int].deep_view());
        if c != 0 {
            assert(x.skip(i as int).len() > 0 && y.skip(i as int).len() > 0);
            assert(x.skip(i as int)[0] != y.skip(i as int)[0]);
            assert(comps_lt(x.skip(i as int), y.skip(i as int)) == comp_lt(
                x.skip(i as int)[0],
                y.skip(i as int)[0],
            ));
            return c < 0;
        }
        assert(x.skip(i as int).drop_first() =~= x.skip(i + 1));
        assert(y.skip(i as int).drop_first() =~= y.skip(i + 1));
        i += 1;
    }
    i == ca.len() && i < cb.len()
}


/// A piece that stands for a normal component of its own text: not empty,
/// without `/`, neither `.` nor `..`.
pub open spec fn plain_piece(s: Seq<char>) -> bool {
    s.len() > 0 && !s.contains('/') && s != dot() && s != dot_dot()
}

pub proof fn lemma_pieces_comps_concat(a: Seq<Seq<char>>, b: Seq<Seq<char>>)
    ensures
        pieces_comps(a + b) == pieces_comps(a) + pieces_comps(b),
    decreases b.len(),
{
    if b.len() == 0 {
        assert(a + b =~= a);
        assert(pieces_comps(a) + Seq::<Comp>::empty() =~= pieces_comps(a));
    } else {
        assert((a + b).drop_last() =~= a + b.drop_last());
        assert((a + b).last() == b.last());
        lemma_pieces_comps_concat(a, b.drop_last());
        assert(pieces_comps(a) + pieces_comps(b.drop_last()) + piece_comps(b.last()) =~= pieces_comps(a)
            + (pieces_comps(b.drop_last()) + piece_comps(b.last())));
    }
}

/// One piece stands for its own components.
pub proof fn lemma_pieces_comps_single(s: Seq<char>)
    ensures
        pieces_comps(seq![s]) == piece_comps(s),
{
    reveal_with_fuel(pieces_comps, 2);
    assert(seq![s].drop_last() =~= Seq::<Seq<char>>::empty());
    assert(seq![s].last() == s);
    assert(pieces_comps(Seq::<Seq<char>>::empty()) == Seq::<Comp>::empty());
    assert(Seq::<Comp>::empty() + piece_comps(s) =~= piece_comps(s));
}

/// Plain pieces are the normal components of their texts.
pub proof fn lemma_pieces_comps_plain(q: Seq<Seq<char>>)
    requires
        forall|i: int| 0 <= i < q.len() ==> plain_piece(#[trigger] q[i]),
    ensures
        pieces_comps(q) == q.map_values(|n: Seq<char>| Comp::Normal(n)),
    decreases q.len(),
{
    if q.len() > 0 {
        lemma_pieces_comps_plain(q.drop_last());
        assert(plain_piece(q[q.len() - 1]));
        assert(q.map_values(|n: Seq<char>| Comp::Normal(n)) =~= q.drop_last().map_values(
            |n: Seq<char>| Comp::Normal(n),
        ) + seq![Comp::Normal(q.last())]);
    } else {
        assert(q.map_values(|n: Seq<char>| Comp::Normal(n)) =~= Seq::<Comp>::empty());
    }
}

/// A path joined with a relative text whose first piece is a name: the
/// components of the path, then those of the text's pieces.
pub proof fn lemma_comps_join(p: Seq<char>, x: Seq<char>)
    requires
        split_on(x, '/')[0].len() > 0,
        split_on(x, '/')[0] != dot(),
    ensures
        comps(join(p, x)) == comps(p) + pieces_comps(split_on(x, '/')),
{
    let xs = split_on(x, '/');
    assert(x.len() > 0 && x[0] != '/') by {
        if x.len() == 0 {
            assert(xs == seq![Seq::<char>::empty()]);
        } else if x[0] == '/' {
            assert(xs[0] == Seq::<char>::empty());
        }
    }
    lemma_split_nonempty(x, '/', Seq::empty());
    if p.len() == 0 {
        assert(join(p, x) == x);
        assert(split_on(p, '/') == seq![Seq::<char>::empty()]);
        lemma_pieces_comps_single(Seq::empty());
        assert(comps(p) =~= Seq::<Comp>::empty());
        assert(!is_absolute(x));
        assert(!leads_with_cur(x));
        assert(Seq::<Comp>::empty() + pieces_comps(xs) =~= pieces_comps(xs));
    } else {
        // the path without a trailing separator, and its pieces
        let q = if p.last() == '/' {
            p.drop_last()
        } else {
            p
        };
        let j = join(p, x);
        assert(j =~= q + seq!['/'] + x);
        lemma_split_on_around(q, x, '/');
        let qs = split_on(q, '/');
        lemma_split_nonempty(q, '/', Seq::empty());
        let ps = split_on(p, '/');
        // the pieces of `p` stand for the same components as those of `q`
        assert(pieces_comps(ps) == pieces_comps(qs) && ps.len() > 0 && ps[0] == qs[0]
            && (ps.len() > 0 ==> pieces_comps(ps.drop_first()) == pieces_comps(qs.drop_first()))) by {
            if p.last() == '/' {
                assert(p =~= q + seq!['/'] + Seq::<char>::empty());
                lemma_split_on_around(q, Seq::empty(), '/');
                assert(split_on(Seq::<char>::empty(), '/') == seq![Seq::<char>::empty()]);
                assert(ps == qs + seq![Seq::<char>::empty()]);
                lemma_pieces_comps_concat(qs, seq![Seq::<char>::empty()]);
                lemma_pieces_comps_single(Seq::empty());
                assert(pieces_comps(qs) + Seq::<Comp>::empty() =~= pieces_comps(qs));
                assert(ps.drop_first() =~= qs.drop_first() + seq![Seq::<char>::empty()]);
                lemma_pieces_comps_concat(qs.drop_first(), seq![Seq::<char>::empty()]);
                assert(pieces_comps(qs.drop_first()) + Seq::<Comp>::empty() =~= pieces_comps(qs.drop_first()));
            }
        }
        let js = split_on(j, '/');
        assert(js == qs + xs);
        assert(js[0] == qs[0]);
        assert(is_absolute(j) == is_absolute(p)) by {
            assert(j[0] == p[0]);
        }
        assert(leads_with_cur(j) == leads_with_cur(p));
        lemma_pieces_comps_concat(qs, xs);
        if is_absolute(p) {
            assert(seq![Comp::RootDir] + (pieces_comps(qs) + pieces_comps(xs)) =~= seq![Comp::RootDir]
                + pieces_comps(qs) + pieces_comps(xs));
        } else if leads_with_cur(p) {
            assert(js.drop_first() =~= qs.drop_first() + xs);
            lemma_pieces_comps_concat(qs.drop_first(), xs);
            assert(seq![Comp::CurDir] + (pieces_comps(qs.drop_first()) + pieces_comps(xs)) =~= seq![
                Comp::CurDir,
            ] + pieces_comps(qs.drop_first()) + pieces_comps(xs));
        }
    }
}

/// The first piece of a path is `.` exactly when the path is `.` or begins
/// with `./`.
pub proof fn lemma_first_piece_dot(p: Seq<char>)
    ensures
        (split_on(p, '/')[0] == dot()) <==> (p.len() > 0 && p[0] == '.' && (p.len() == 1 || p[1] == '/')),
{
    lemma_split_nonempty(p, '/', Seq::empty());
    if p.len() == 0 {
        assert(split_on(p, '/') == seq![Seq::<char>::empty()]);
    } else if p[0] == '/' {
        assert(split_on(p, '/')[0] == Seq::<char>::empty());
    } else {
        let cur = seq![p[0]];
        assert(Seq::<char>::empty().push(p[0]) =~= cur);
        let rest = p.drop_first();
        assert(split_on(p, '/') == split_from(rest, '/', cur));
        lemma_split_from_first(rest, cur);
        let first = split_on(p, '/')[0];
        assert(cur == dot() <==> p[0] == '.') by {
            if p[0] == '.' {
                assert(cur =~= dot());
            } else {
                assert(cur[0] != dot()[0]);
            }
        }
        if p.len() == 1 {
            assert(rest.len() == 0);
            assert(first == cur);
        } else if p[1] == '/' {
            assert(rest[0] == '/');
            assert(first == cur);
        } else {
            assert(rest[0] == p[1]);
            assert(first.len() > 1);
            assert(first != dot());
        }
    }
}

/// The first piece that `split_from` gives begins with what was collected,
/// and is just that when the text is empty or begins with the separator.
proof fn lemma_split_from_first(s: Seq<char>, cur: Seq<char>)
    ensures
        split_from(s, '/', cur).len() > 0,
        split_from(s, '/', cur)[0].len() >= cur.len(),
        split_from(s, '/', cur)[0].take(cur.len() as int) == cur,
        (s.len() == 0 || s[0] == '/') ==> split_from(s, '/', cur)[0] == cur,
        (s.len() > 0 && s[0] != '/') ==> split_from(s, '/', cur)[0].len() > cur.len(),
    decreases s.len(),
{
    lemma_split_nonempty(s, '/', cur);
    if s.len() > 0 && s[0] != '/' {
        lemma_split_from_first(s.drop_first(), cur.push(s[0]));
        assert(cur.push(s[0]).take(cur.len() as int) =~= cur);
        let f = split_from(s, '/', cur)[0];
        assert(f.take(cur.len() as int + 1) == cur.push(s[0]));
        assert(f.take(cur.len() as int) =~= f.take(cur.len() as int + 1).take(cur.len() as int));
    } else if s.len() > 0 {
        assert(cur.take(cur.len() as int) =~= cur);
    } else {
        assert(cur.take(cur.len() as int) =~= cur);
    }
}

proof fn lemma_name_end_bounds(p: Seq<char>)
    ensures
        0 <= name_end(p) <= p.len(),
        name_end(p) > 0 ==> p[name_end(p) - 1] != '/',
    decreases p.len(),
{
    if p.len() > 0 {
        if p.last() == '/' || (p.last() == '.' && (p.len() == 1 || p[p.len() - 2] == '/')) {
            lemma_name_end_bounds(p.drop_last());
        }
    }
}

proof fn lemma_name_start_bounds(p: Seq<char>, end: int)
    requires
        0 <= end <= p.len(),
    ensures
        0 <= name_start(p, end) <= end,
        end > 0 && p[end - 1] != '/' ==> name_start(p, end) < end,
    decreases end,
{
    if end > 0 && p[end - 1] != '/' {
        lemma_name_start_bounds(p, end - 1);
    }
}

proof fn lemma_trim_tail_len(q: Seq<char>, keep: int)
    ensures
        trim_tail(q, keep).len() <= q.len(),
    decreases q.len(),
{
    if !(q.len() == 0 || q.len() <= keep) {
        if q.last() == '/' || (q.last() == '.' && (q.len() == 1 || q[q.len() - 2] == '/')) {
            lemma_trim_tail_len(q.drop_last(), keep);
        }
    }
}

/// A parent is shorter than its path.
pub proof fn lemma_parent_shorter(p: Seq<char>)
    ensures
        parent(p) matches Some(q) ==> q.len() < p.len(),
{
    if parent(p) is Some {
        let e = name_end(p);
        lemma_name_end_bounds(p);
        lemma_name_start_bounds(p, e);
        let st = name_start(p, e);
        lemma_trim_tail_len(p.take(st), head_len(p));
        if p.len() == 0 {
            assert(split_on(p, '/') == seq![Seq::<char>::empty()]);
            lemma_pieces_comps_single(Seq::empty());
            assert(split_on(p, '/')[0] != dot()) by {
                assert(split_on(p, '/')[0].len() == 0);
            }
            assert(!leads_with_cur(p));
            assert(comps(p).len() == 0);
        }
    }
}

proof fn lemma_comp_lt_total(x: Comp, y: Comp)
    ensures
        x == y || comp_lt(x, y) || comp_lt(y, x),
{
    match (x, y) {
        (Comp::Normal(a), Comp::Normal(b)) => {
            lemma_text_lt_total(a, b);
        },
        _ => {},
    }
}

proof fn lemma_comps_lt_total(a: Seq<Comp>, b: Seq<Comp>)
    ensures
        a == b || comps_lt(a, b) || comps_lt(b, a),
    decreases a.len(),
{
    if a.len() > 0 && b.len() > 0 {
        if a[0] != b[0] {
            lemma_comp_lt_total(a[0], b[0]);
        } else {
            lemma_comps_lt_total(a.drop_first(), b.drop_first());
            if a.drop_first() == b.drop_first() {
                assert(a =~= seq![a[0]] + a.drop_first());
                assert(b =~= seq![b[0]] + b.drop_first());
            }
        }
    } else if a.len() == 0 && b.len() == 0 {
        assert(a =~= b);
    }
}

/// Two paths that are not the same path are ordered one way or the other.
pub proof fn lemma_path_lt_total(a: Seq<char>, b: Seq<char>)
    ensures
        same_path(a, b) || path_lt(a, b) || path_lt(b, a),
{
    lemma_comps_lt_total(comps(a), comps(b));
}

proof fn lemma_name_end_after_dots(p: Seq<char>, sl: int, len: int)
    requires
        0 <= sl,
        sl + 3 <= len <= p.len(),
        p[sl + 1] == '.',
        p[sl + 2] == '.',
    ensures
        name_end(p.take(len)) >= sl + 3,
    decreases len,
{
    let q = p.take(len);
    if len > sl + 3 {
        assert(q.drop_last() =~= p.take(len - 1));
        lemma_name_end_after_dots(p, sl, len - 1);
    } else {
        assert(q.last() == p[sl + 2]);
        assert(q[q.len() - 2] == p[sl + 1]);
    }
}

proof fn lemma_name_start_after(p: Seq<char>, sl: int, end: int)
    requires
        0 <= sl < end <= p.len(),
        p[sl] == '/',
    ensures
        name_start(p, end) >= sl + 1,
    decreases end,
{
    if p[end - 1] != '/' {
        lemma_name_start_after(p, sl, end - 1);
    }
}

/// Setting the extension of a path keeps the text up to a `/` that a `..`
/// piece follows: it changes only what comes after the last component's
/// start, which lies beyond that `..`.
pub proof fn lemma_with_extension_keeps_head(p: Seq<char>, ext: Seq<char>, sl: int)
    requires
        0 <= sl,
        sl + 2 < p.len(),
        p[sl] == '/',
        p[sl + 1] == '.',
        p[sl + 2] == '.',
    ensures
        has_prefix(with_extension(p, ext), p.take(sl + 1)),
{
    if file_name(p) is Some {
        assert(p.take(p.len() as int) =~= p);
        lemma_name_end_after_dots(p, sl, p.len() as int);
        lemma_name_end_bounds(p);
        let end = name_end(p);
        lemma_name_start_after(p, sl, end);
        let start = name_start(p, end);
        lemma_name_start_bounds(p, end);
        let piece = p.subrange(start, end);
        let stem_end = match last_dot(piece) {
            Some(i) => if i == 0 {
                end
            } else {
                start + i
            },
            None => end,
        };
        lemma_last_dot_bounds(piece);
        let r = with_extension(p, ext);
        assert(r.take(sl + 1) =~= p.take(sl + 1));
    } else {
        assert(with_extension(p, ext).take(sl + 1) =~= p.take(sl + 1));
    }
}

proof fn lemma_last_dot_bounds(s: Seq<char>)
    ensures
        last_dot(s) matches Some(i) ==> 0 <= i < s.len(),
    decreases s.len(),
{
    if s.len() > 0 && s.last() != '.' {
        lemma_last_dot_bounds(s.drop_last());
    }
}
} // verus!
