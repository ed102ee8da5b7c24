//! Paths known to exist, the module map, and the naming of modules after
//! their files.
use vstd::prelude::*;

use crate::config::{ScriptInput, ScriptInputView};
use crate::path::{
    comps, components, components_prefix, dot, dot_dot, is_absolute, is_absolute_chars, join, join_chars,
    lemma_comps_join, lemma_parent_shorter, lemma_pieces_comps_plain, parent, parent_chars, plain_piece,
    same_path, same_path_chars, Comp, Component,
};
use crate::text::{
    chars_equal, chars_of, compare_chars, concat_chars, copy_chars, ends_with_chars, has_prefix, has_suffix,
    join_with, lemma_chars_deep_view, lemma_text_lt_asymmetric, lemma_text_lt_irreflexive,
    lemma_text_lt_total, lemma_text_lt_transitive, replace_char, slice_chars, starts_with_chars,
    join_pieces, lemma_replace_joined, lemma_split_from_whole, lemma_split_on_joined, split_on, string_of,
    strictly_sorted, text_lt, trim, trim_chars,
};

verus! {

// ---------------------------------------------------------------------------
// Paths known to exist.
/// The answers of the file system to "does this path exist?".
#[derive(Debug, Clone)]
pub struct ExistingPaths {
    entries: Vec<(String, bool)>,
}

impl View for ExistingPaths {
    type V = Set<Seq<char>>;

    /// The paths that were found to exist.
    closed spec fn view(&self) -> Set<Seq<char>> {
        Set::new(
            |p: Seq<char>|
                exists|i: int|
                    0 <= i < self.entries@.len() && self.entries@[i].0@ == p
                        && self.entries@[i].1,
        )
    }
}

impl ExistingPaths {
    /// No answers yet.
    pub fn new() -> (res: ExistingPaths)
        ensures
            res@ == Set::<Seq<char>>::empty(),
    {
        let res = ExistingPaths { entries: Vec::new() };
        assert(res@ =~= Set::<Seq<char>>::empty());
        res
    }

    /// Records whether `path` exists.
    pub fn record(&mut self, path: String, exists: bool)
        ensures
            final(self)@ == (if exists {
                old(self)@.insert(path@)
            } else {
                old(self)@
            }),
    {
        let ghost old_entries = self.entries@;
        let ghost p = path@;
        self.entries.push((path, exists));
        assert(self.entries@ == old_entries.push((path, exists)));
        if exists {
            assert forall|q: Seq<char>| #[trigger] self@.contains(q) == old(self)@.insert(p).contains(
                q,
            ) by {
                if q == p {
                    assert(self.entries@[old_entries.len() as int].0@ == p);
                }
                if old(self)@.contains(q) {
                    let i = choose|i: int|
                        0 <= i < old_entries.len() && old_entries[i].0@ == q && old_entries[i].1;
                    assert(self.entries@[i] == old_entries[i]);
                }
            }
            assert(self@ =~= old(self)@.insert(p));
        } else {
            assert forall|q: Seq<char>| #[trigger] self@.contains(q) == old(self)@.contains(q) by {
                if old(self)@.contains(q) {
                    let i = choose|i: int|
                        0 <= i < old_entries.len() && old_entries[i].0@ == q && old_entries[i].1;
                    assert(self.entries@[i] == old_entries[i]);
                }
                if self@.contains(q) {
                    let i = choose|i: int|
                        0 <= i < self.entries@.len() && self.entries@[i].0@ == q
                            && self.entries@[i].1;
                    assert(i < old_entries.len());
                    assert(self.entries@[i] == old_entries[i]);
                }
            }
            assert(self@ =~= old(self)@);
        }
    }

    /// The answers for `paths`, in order: `flags[i]` tells whether `paths[i]`
    /// exists.
    pub fn from_probes(paths: &Vec<String>, flags: &Vec<bool>) -> (res: ExistingPaths)
        requires
            paths.len() == flags.len(),
        ensures
            forall|p: Seq<char>|
                #[trigger] res@.contains(p) <==> exists|i: int|
                    0 <= i < paths.len() && paths@[i]@ == p && flags@[i],
    {
        let mut res = ExistingPaths::new();
        let mut i: usize = 0;
        while i < paths.len()
            invariant
                paths.len() == flags.len(),
                i <= paths.len(),
                forall|p: Seq<char>|
                    #[trigger] res@.contains(p) <==> exists|k: int|
                        0 <= k < i && paths@[k]@ == p && flags@[k],
            decreases paths.len() - i,
        {
            let ghost before = res@;
            res.record(paths[i].clone(), flags[i]);
            i += 1;
            assert forall|p: Seq<char>|
                #[trigger] res@.contains(p) <==> exists|k: int|
                    0 <= k < i && paths@[k]@ == p && flags@[k] by {
                if res@.contains(p) && !before.contains(p) {
                    assert(paths@[i - 1]@ == p && flags@[i - 1]);
                }
                if exists|k: int| 0 <= k < i && paths@[k]@ == p && flags@[k] {
                    let k = choose|k: int| 0 <= k < i && paths@[k]@ == p && flags@[k];
                    if k < i - 1 {
                        assert(before.contains(p));
                    }
                }
            }
        }
        res
    }

    /// Whether `path` was found to exist.
    pub fn contains(&self, path: &Vec<char>) -> (res: bool)
        ensures
            res == self@.contains(path@),
    {
        let mut i: usize = 0;
        while i < self.entries.len()
            invariant
                i <= self.entries.len(),
                forall|k: int|
                    0 <= k < i ==> !(self.entries@[k].0@ == path@ && self.entries@[k].1),
            decreases self.entries.len() - i,
        {
            if self.entries[i].1 {
                let c = chars_of(self.entries[i].0.as_str());
                if chars_equal(&c, path) {
                    return true;
                }
            }
            i += 1;
        }
        false
    }
}

/// Whether `path` is one of the paths known to exist (`Path::exists`, with the
/// file system's answers given in `known`).
pub fn path_exists(path: &str, known: &ExistingPaths) -> (res: bool)
    ensures
        res == known@.contains(path@),
{
    known.contains(&chars_of(path))
}

// ---------------------------------------------------------------------------
// The module map.
/// The map that `pairs` stands for: each key to the value paired with it.
pub open spec fn pairs_map(pairs: Seq<(Seq<char>, Seq<char>)>) -> Map<Seq<char>, Seq<char>>
    decreases pairs.len(),
{
    if pairs.len() == 0 {
        Map::empty()
    } else {
        pairs_map(pairs.drop_last()).insert(pairs.last().0, pairs.last().1)
    }
}

/// The keys of `pairs`, in order.
pub open spec fn pair_keys(pairs: Seq<(Seq<char>, Seq<char>)>) -> Seq<Seq<char>> {
    pairs.map_values(|e: (Seq<char>, Seq<char>)| e.0)
}

/// Module names mapped to the files that define them, kept in the order of
/// the names, each name once.
#[derive(Debug)]
pub struct ModuleMap {
    entries: Vec<(String, String)>,
}

impl ModuleMap {
    /// The (name, file) pairs in order.
    pub closed spec fn pairs(&self) -> Seq<(Seq<char>, Seq<char>)> {
        self.entries@.map_values(|e: (String, String)| (e.0@, e.1@))
    }

    /// The names in order.
    pub open spec fn keys(&self) -> Seq<Seq<char>> {
        pair_keys(self.pairs())
    }

    #[verifier::type_invariant]
    closed spec fn names_sorted(&self) -> bool {
        strictly_sorted(pair_keys(self.pairs()))
    }

    /// An empty map.
    pub fn new() -> (res: ModuleMap)
        ensures
            res@ == Map::<Seq<char>, Seq<char>>::empty(),
            res.keys() == Seq::<Seq<char>>::empty(),
    {
        let res = ModuleMap { entries: Vec::new() };
        assert(res.pairs() =~= Seq::<(Seq<char>, Seq<char>)>::empty());
        assert(res.keys() =~= Seq::<Seq<char>>::empty());
        res
    }

    /// The number of modules.
    pub fn len(&self) -> (res: usize)
        ensures
            res == self.keys().len(),
            res == self@.dom().len(),
    {
        proof {
            use_type_invariant(self);
            lemma_pairs_map_len(self.pairs());
        }
        self.entries.len()
    }

    /// The names in order.
    pub fn names(&self) -> (res: Vec<String>)
        ensures
            res.deep_view() == self.keys(),
            strictly_sorted(res.deep_view()),
            res.deep_view().to_set() == self@.dom(),
    {
        proof {
            use_type_invariant(self);
            lemma_keys_set(self.pairs());
        }
        let mut res: Vec<String> = Vec::new();
        let mut i: usize = 0;
        while i < self.entries.len()
            invariant
                i <= self.entries.len(),
                res.deep_view() == self.keys().take(i as int),
            decreases self.entries.len() - i,
        {
            let ghost before = res.deep_view();
            let name = self.entries[i].0.clone();
            assert(name@ == self.keys()[i as int]);
            res.push(name);
            assert(res.deep_view() =~= before.push(self.keys()[i as int]));
            assert(self.keys().take(i + 1) =~= self.keys().take(i as int).push(self.keys()[i as int]));
            i += 1;
            assert(res.deep_view() =~= self.keys().take(i as int));
        }
        assert(self.keys().take(i as int) =~= self.keys());
        res
    }

    /// The (name, file) pairs in order.
    pub fn entries(&self) -> (res: Vec<(String, String)>)
        ensures
            res.deep_view() == self.pairs(),
    {
        let mut res: Vec<(String, String)> = Vec::new();
        let mut i: usize = 0;
        while i < self.entries.len()
            invariant
                i <= self.entries.len(),
                res.deep_view() == self.pairs().take(i as int),
            decreases self.entries.len() - i,
        {
            let ghost before = res.deep_view();
            let pair = (self.entries[i].0.clone(), self.entries[i].1.clone());
            assert(pair.deep_view() == self.pairs()[i as int]);
            res.push(pair);
            assert(res.deep_view() =~= before.push(self.pairs()[i as int]));
            assert(self.pairs().take(i + 1) =~= self.pairs().take(i as int).push(self.pairs()[i as int]));
            i += 1;
            assert(res.deep_view() =~= self.pairs().take(i as int));
        }
        assert(self.pairs().take(i as int) =~= self.pairs());
        res
    }
}

impl View for ModuleMap {
    type V = Map<Seq<char>, Seq<char>>;

    open spec fn view(&self) -> Map<Seq<char>, Seq<char>> {
        pairs_map(self.pairs())
    }
}

pub proof fn lemma_pairs_map_dom(pairs: Seq<(Seq<char>, Seq<char>)>, k: Seq<char>)
    ensures
        pairs_map(pairs).dom().contains(k) <==> pair_keys(pairs).contains(k),
    decreases pairs.len(),
{
    if pairs.len() == 0 {
        assert(!pair_keys(pairs).contains(k));
    } else {
        lemma_pairs_map_dom(pairs.drop_last(), k);
        assert(pair_keys(pairs) =~= pair_keys(pairs.drop_last()).push(pairs.last().0));
        assert(pair_keys(pairs)[pairs.len() - 1] == pairs.last().0);
        if pair_keys(pairs.drop_last()).contains(k) {
            let i = choose|i: int|
                0 <= i < pair_keys(pairs.drop_last()).len() && pair_keys(pairs.drop_last())[i]
                    == k;
            assert(pair_keys(pairs)[i] == k);
        }
        if pair_keys(pairs).contains(k) && k != pairs.last().0 {
            let i = choose|i: int| 0 <= i < pair_keys(pairs).len() && pair_keys(pairs)[i] == k;
            assert(pair_keys(pairs.drop_last())[i] == k);
        }
    }
}

pub proof fn lemma_pairs_map_len(pairs: Seq<(Seq<char>, Seq<char>)>)
    requires
        strictly_sorted(pair_keys(pairs)),
    ensures
        pairs_map(pairs).dom().finite(),
        pairs_map(pairs).dom().len() == pairs.len(),
    decreases pairs.len(),
{
    if pairs.len() > 0 {
        let init = pairs.drop_last();
        assert(pair_keys(init) =~= pair_keys(pairs).drop_last());
        lemma_pairs_map_len(init);
        lemma_pairs_map_dom(init, pairs.last().0);
        if pair_keys(init).contains(pairs.last().0) {
            let i = choose|i: int| 0 <= i < pair_keys(init).len() && pair_keys(init)[i] == pairs.last().0;
            assert(text_lt(pair_keys(pairs)[i], pair_keys(pairs)[pairs.len() - 1]));
            lemma_text_lt_irreflexive(pairs.last().0);
        }
    }
}

/// In pairs with distinct keys, the map gives each key its paired value.
pub proof fn lemma_pairs_map_value(pairs: Seq<(Seq<char>, Seq<char>)>, i: int)
    requires
        strictly_sorted(pair_keys(pairs)),
        0 <= i < pairs.len(),
    ensures
        pairs_map(pairs).dom().contains(pairs[i].0),
        pairs_map(pairs)[pairs[i].0] == pairs[i].1,
    decreases pairs.len(),
{
    let init = pairs.drop_last();
    assert(pair_keys(init) =~= pair_keys(pairs).drop_last());
    if i < pairs.len() - 1 {
        lemma_pairs_map_value(init, i);
        assert(text_lt(pair_keys(pairs)[i], pair_keys(pairs)[pairs.len() - 1]));
        if pairs[i].0 == pairs.last().0 {
            lemma_text_lt_irreflexive(pairs[i].0);
        }
    }
}

/// Inserting a pair whose key is new anywhere in the pairs inserts it in the map.
pub proof fn lemma_pairs_map_insert(
    pairs: Seq<(Seq<char>, Seq<char>)>,
    pos: int,
    e: (Seq<char>, Seq<char>),
)
    requires
        0 <= pos <= pairs.len(),
        !pair_keys(pairs).contains(e.0),
    ensures
        pairs_map(pairs.insert(pos, e)) == pairs_map(pairs).insert(e.0, e.1),
    decreases pairs.len(),
{
    let ins = pairs.insert(pos, e);
    if pos == pairs.len() {
        assert(ins.drop_last() =~= pairs);
    } else {
        let init = pairs.drop_last();
        assert(ins.drop_last() =~= init.insert(pos, e));
        assert(ins.last() == pairs.last());
        assert(!pair_keys(init).contains(e.0)) by {
            if pair_keys(init).contains(e.0) {
                let j = choose|j: int| 0 <= j < pair_keys(init).len() && pair_keys(init)[j] == e.0;
                assert(pair_keys(pairs)[j] == e.0);
            }
        }
        lemma_pairs_map_insert(init, pos, e);
        assert(pairs.last().0 != e.0) by {
            assert(pair_keys(pairs)[pairs.len() - 1] == pairs.last().0);
        }
        assert(pairs_map(ins) =~= pairs_map(pairs).insert(e.0, e.1));
    }
}

/// Binds `key` to `value` unless the map binds it already: the first file
/// found for a module name is the one kept (`entry(key).or_insert(value)`).
pub fn unique_push(map: &mut ModuleMap, key: String, value: String)
    ensures
        final(map)@ == (if old(map)@.dom().contains(key@) {
            old(map)@
        } else {
            old(map)@.insert(key@, value@)
        }),
        final(map).keys().to_set() == final(map)@.dom(),
{
    proof {
        use_type_invariant(&*map);
    }
    let k = chars_of(key.as_str());
    let n = map.entries.len();
    let mut pos: usize = 0;
    let ghost ks = pair_keys(map.pairs());
    while pos < n
        invariant
            n == map.entries.len(),
            k@ == key@,
            *map == *old(map),
            ks == pair_keys(map.pairs()),
            strictly_sorted(ks),
            pos <= n,
            forall|j: int| 0 <= j < pos ==> text_lt(#[trigger] ks[j], k@),
        ensures
            pos <= n,
            forall|j: int| 0 <= j < pos ==> text_lt(#[trigger] ks[j], k@),
            pos < n ==> text_lt(k@, ks[pos as int]),
        decreases n - pos,
    {
        let e = chars_of(map.entries[pos].0.as_str());
        assert(e@ == ks[pos as int]);
        let c = compare_chars(&e, &k);
        if c == 0 {
            // already bound
            proof {
                lemma_pairs_map_dom(map.pairs(), k@);
                assert(ks[pos as int] == k@);
                assert(pair_keys(map.pairs())[pos as int] == k@);
                assert(pair_keys(map.pairs()).contains(k@));
                assert(k@ == key@);
                assert(pairs_map(map.pairs()).dom().contains(k@));
                assert(map@.dom().contains(key@));
                assert(old(map)@.dom().contains(key@));
                lemma_keys_set(map.pairs());
            }
            return;
        } else if c > 0 {
            break;
        }
        pos += 1;
    }
    // `key` is not bound: everything before `pos` is smaller, everything from
    // `pos` on is larger.
    proof {
        assert forall|j: int| pos <= j < n implies text_lt(k@, #[trigger] ks[j]) by {
            if pos < n {
                if j > pos {
                    lemma_text_lt_transitive(k@, ks[pos as int], ks[j]);
                }
            }
        }
        assert(!ks.contains(k@)) by {
            if ks.contains(k@) {
                let j = choose|j: int| 0 <= j < ks.len() && ks[j] == k@;
                lemma_text_lt_irreflexive(k@);
            }
        }
        lemma_pairs_map_dom(map.pairs(), k@);
    }
    let ghost old_pairs = map.pairs();
    let ghost kv = key@;
    let ghost vv = value@;
    let mut entries: Vec<(String, String)> = Vec::new();
    std::mem::swap(&mut entries, &mut map.entries);
    entries.insert(pos, (key, value));
    proof {
        let np = entries@.map_values(|e: (String, String)| (e.0@, e.1@));
        assert(np =~= old_pairs.insert(pos as int, (kv, vv)));
        let nk = pair_keys(np);
        assert(nk =~= ks.insert(pos as int, kv));
        assert forall|a: int, b: int| 0 <= a < b < nk.len() implies text_lt(nk[a], nk[b]) by {
            if b < pos {
            } else if b == pos {
            } else if a < pos {
                lemma_text_lt_transitive(nk[a], kv, nk[b]);
            } else if a == pos {
            } else {
            }
        }
    }
    map.entries = entries;
    proof {
        assert(map.pairs() =~= old_pairs.insert(pos as int, (kv, vv)));
        lemma_pairs_map_insert(old_pairs, pos as int, (kv, vv));
        let nk = pair_keys(map.pairs());
        assert(nk =~= ks.insert(pos as int, kv));
        assert forall|a: int, b: int| 0 <= a < b < nk.len() implies text_lt(nk[a], nk[b]) by {
            if b < pos {
            } else if b == pos {
            } else if a < pos {
                lemma_text_lt_transitive(nk[a], kv, nk[b]);
            } else if a == pos {
            } else {
            }
        }
        lemma_keys_set(map.pairs());
    }
}

pub proof fn lemma_keys_set(pairs: Seq<(Seq<char>, Seq<char>)>)
    ensures
        pair_keys(pairs).to_set() == pairs_map(pairs).dom(),
{
    assert forall|k: Seq<char>| #[trigger] pair_keys(pairs).to_set().contains(k)
        == pairs_map(pairs).dom().contains(k) by {
        lemma_pairs_map_dom(pairs, k);
    }
    assert(pair_keys(pairs).to_set() =~= pairs_map(pairs).dom());
}

// ---------------------------------------------------------------------------
// Paths.
/// A script path written with either separator: `\` read as `/`
/// (`python_app\main.py` is `python_app/main.py`).
pub open spec fn unix_separators(p: Seq<char>) -> Seq<char> {
    replace_char(p, '\\', '/')
}

/// `path` made absolute: itself when it is, else joined to `current_dir`.
pub open spec fn absolute_path(path: Seq<char>, current_dir: Seq<char>) -> Seq<char> {
    if is_absolute(path) {
        path
    } else {
        join(current_dir, path)
    }
}

/// `path` made absolute against the process's current directory, which the
/// caller gives.
pub fn normalize_abs(path: &str, current_dir: &str) -> (res: String)
    ensures
        res@ == absolute_path(path@, current_dir@),
{
    let p = chars_of(path);
    if is_absolute_chars(&p) {
        path.to_owned()
    } else {
        let c = chars_of(current_dir);
        string_of(&join_chars(&c, &p))
    }
}

/// The canonical form of `path` when the file system gave one, else `path`
/// made absolute.
pub fn canonical_if_possible(path: &str, canonical: Option<String>, current_dir: &str) -> (res:
    String)
    ensures
        res@ == (match canonical {
            Some(c) => c@,
            None => absolute_path(path@, current_dir@),
        }),
{
    match canonical {
        Some(c) => c,
        None => normalize_abs(path, current_dir),
    }
}

/// Against an absolute current directory, every path is made absolute, and
/// making it absolute again (against any directory) leaves it as it is.
pub proof fn lemma_absolute_path_absolute(path: Seq<char>, current_dir: Seq<char>, other_dir: Seq<char>)
    requires
        is_absolute(current_dir),
    ensures
        is_absolute(absolute_path(path, current_dir)),
        absolute_path(absolute_path(path, current_dir), other_dir) == absolute_path(path, current_dir),
{
    if !is_absolute(path) {
        let j = join(current_dir, path);
        assert(j[0] == current_dir[0]);
    }
}

/// After `\` is read as `/`, none is left.
pub proof fn lemma_unix_separators_none(p: Seq<char>)
    ensures
        !unix_separators(p).contains('\\'),
        unix_separators(p).len() == p.len(),
{
    if unix_separators(p).contains('\\') {
        let i = choose|i: int| 0 <= i < unix_separators(p).len() && unix_separators(p)[i] == '\\';
    }
}

// ---------------------------------------------------------------------------
// Script inputs.
/// Whether trimmed text `t` looks like a path, `\` read as `/` in it: it is
/// absolute, it or its join to `base_dir` exists, it begins with `./` or
/// `../` (so also `.\` or `..\`), or it ends with `.py` or `.lua`.
pub open spec fn looks_like_path(base_dir: Seq<char>, t: Seq<char>, known: Set<Seq<char>>) -> bool {
    let p = unix_separators(t);
    ||| is_absolute(p)
    ||| known.contains(p)
    ||| known.contains(join(base_dir, p))
    ||| has_prefix(p, "./"@)
    ||| has_prefix(p, "../"@)
    ||| has_suffix(p, ".py"@)
    ||| has_suffix(p, ".lua"@)
}

/// A raw script source read as a path (trimmed, `\` read as `/`) when it
/// looks like one, and as code (untouched) otherwise, blank text being code.
pub open spec fn script_input_of(base_dir: Seq<char>, raw: Seq<char>, known: Set<Seq<char>>) -> ScriptInputView {
    let t = trim(raw);
    if t.len() > 0 && looks_like_path(base_dir, t, known) {
        ScriptInputView::Path(unix_separators(t))
    } else {
        ScriptInputView::Code(raw)
    }
}

/// The paths whose existence decides how `raw` is read: the trimmed text
/// (`\` read as `/`) and its join to `base_dir`, none for blank text.
pub open spec fn script_input_probe_paths(base_dir: Seq<char>, raw: Seq<char>) -> Seq<Seq<char>> {
    let t = trim(raw);
    if t.len() == 0 {
        Seq::empty()
    } else {
        seq![unix_separators(t), join(base_dir, unix_separators(t))]
    }
}

/// The paths whose existence decides how `raw` is read.
pub fn script_input_probes(base_dir: &str, raw: &str) -> (res: Vec<String>)
    ensures
        res.deep_view() == script_input_probe_paths(base_dir@, raw@),
{
    let r = chars_of(raw);
    let t = trim_chars(&r);
    let mut res: Vec<String> = Vec::new();
    if t.len() > 0 {
        let p = replace_chars(&t, '\\', '/');
        let b = chars_of(base_dir);
        let j = join_chars(&b, &p);
        res.push(string_of(&p));
        res.push(string_of(&j));
        assert(res.deep_view() =~= script_input_probe_paths(base_dir@, raw@));
    } else {
        assert(res.deep_view() =~= script_input_probe_paths(base_dir@, raw@));
    }
    res
}

/// A script source written with `\` and the same source written with `/`
/// (`python_app\main.py` and `python_app/main.py`) are read alike: when one
/// is read as a path, both are read as that same path.
pub proof fn lemma_separator_forms_agree(
    base_dir: Seq<char>,
    raw: Seq<char>,
    other: Seq<char>,
    known: Set<Seq<char>>,
)
    requires
        unix_separators(trim(raw)) == unix_separators(trim(other)),
    ensures
        script_input_of(base_dir, raw, known) is Path ==> script_input_of(base_dir, other, known)
            == script_input_of(base_dir, raw, known),
{
    lemma_unix_separators_none(trim(raw));
    lemma_unix_separators_none(trim(other));
}

/// Reads a raw script source as a path or as code; `known` says which of the
/// probed paths exist.
pub fn parse_script_input_source(base_dir: &str, raw: &str, known: &ExistingPaths) -> (res:
    ScriptInput)
    ensures
        res.deep_view() == script_input_of(base_dir@, raw@, known@),
{
    let r = chars_of(raw);
    let t = trim_chars(&r);
    if t.len() == 0 {
        return ScriptInput::Code(raw.to_owned());
    }
    let b = chars_of(base_dir);
    let p = replace_chars(&t, '\\', '/');
    let path_like = is_absolute_chars(&p) || known.contains(&p) || known.contains(
        &join_chars(&b, &p),
    ) || starts_with_chars(&p, &chars_of("./")) || starts_with_chars(&p, &chars_of("../"))
        || ends_with_chars(&p, &chars_of(".py")) || ends_with_chars(&p, &chars_of(".lua"));
    if path_like {
        ScriptInput::Path(string_of(&p))
    } else {
        ScriptInput::Code(raw.to_owned())
    }
}

// ---------------------------------------------------------------------------
// Module names.
/// The names of the normal components, in order.
pub open spec fn normal_names(cs: Seq<Comp>) -> Seq<Seq<char>>
    decreases cs.len(),
{
    if cs.len() == 0 {
        Seq::empty()
    } else {
        normal_names(cs.drop_last()) + match cs.last() {
            Comp::Normal(n) => seq![n],
            _ => Seq::empty(),
        }
    }
}

/// The pieces that are not empty, in order.
pub open spec fn non_empty_pieces(ps: Seq<Seq<char>>) -> Seq<Seq<char>>
    decreases ps.len(),
{
    if ps.len() == 0 {
        Seq::empty()
    } else {
        non_empty_pieces(ps.drop_last()) + if ps.last().len() > 0 {
            seq![ps.last()]
        } else {
            Seq::empty()
        }
    }
}

/// A file name without a `.py` suffix, or else without a `.lua` suffix.
pub open spec fn strip_script_extension(name: Seq<char>) -> Seq<char> {
    if has_suffix(name, ".py"@) {
        name.take(name.len() - 3)
    } else if has_suffix(name, ".lua"@) {
        name.take(name.len() - 4)
    } else {
        name
    }
}

/// The dotted module name of `file` relative to `base_dir`: the names of the
/// components of `file` after those of `base_dir`, the script extension taken
/// off the last, a last `__init__` dropped, empty names dropped, joined with
/// `.`. None when `file` is not under `base_dir` or no name is left.
pub open spec fn module_name_of(base_dir: Seq<char>, file: Seq<char>) -> Option<Seq<char>> {
    let bc = comps(base_dir);
    let fc = comps(file);
    if !(bc.len() <= fc.len() && fc.take(bc.len() as int) == bc) {
        None
    } else {
        let parts = normal_names(fc.skip(bc.len() as int));
        if parts.len() == 0 {
            None
        } else {
            let stripped = parts.update(parts.len() - 1, strip_script_extension(parts.last()));
            let named = if stripped.last() == "__init__"@ {
                stripped.drop_last()
            } else {
                stripped
            };
            let kept = non_empty_pieces(named);
            if kept.len() == 0 {
                None
            } else {
                Some(join_with(kept, "."@))
            }
        }
    }
}

/// The dotted module name of `file` relative to `base_dir`
/// (`base/pkg/mod.py` is `pkg.mod`, `base/pkg/__init__.py` is `pkg`).
pub fn path_to_module_name(base_dir: &str, file: &str) -> (res: Option<String>)
    ensures
        res.deep_view() == module_name_of(base_dir@, file@),
{
    let b = chars_of(base_dir);
    let f = chars_of(file);
    let bc = components(&b);
    let fc = components(&f);
    if !components_prefix(&bc, &fc) {
        return None;
    }
    let ghost rest = fc.deep_view().skip(bc.len() as int);
    let mut parts: Vec<Vec<char>> = Vec::new();
    let mut i = bc.len();
    assert(rest.take(0) =~= Seq::<Comp>::empty());
    while i < fc.len()
        invariant
            bc.len() <= i <= fc.len(),
            rest == fc.deep_view().skip(bc.len() as int),
            parts.deep_view() == normal_names(rest.take(i - bc.len())),
        decreases fc.len() - i,
    {
        let ghost before = parts.deep_view();
        let ghost j = (i - bc.len()) as int;
        assert(rest.take(j + 1).drop_last() =~= rest.take(j));
        assert(rest.take(j + 1).last() == fc.deep_view()[i as int]);
        if let Component::Normal(n) = &fc[i] {
            let c = copy_chars(n);
            proof {
                lemma_chars_deep_view(&c);
            }
            parts.push(c);
            assert(parts.deep_view() =~= before.push(n@));
        }
        i += 1;
        assert(parts.deep_view() =~= normal_names(rest.take(i - bc.len())));
    }
    assert(rest.take(i - bc.len()) =~= rest);
    if parts.len() == 0 {
        return None;
    }
    let last_index = parts.len() - 1;
    let last = copy_chars(&parts[last_index]);
    proof {
        lemma_chars_deep_view(&parts@[last_index as int]);
        reveal_strlit(".py");
        reveal_strlit(".lua");
    }
    let stripped = if ends_with_chars(&last, &chars_of(".py")) {
        slice_chars(&last, 0, last.len() - 3)
    } else if ends_with_chars(&last, &chars_of(".lua")) {
        slice_chars(&last, 0, last.len() - 4)
    } else {
        last
    };
    assert(stripped@ =~= strip_script_extension(parts.deep_view().last()));
    let ghost before = parts.deep_view();
    proof {
        lemma_chars_deep_view(&stripped);
    }
    let ghost sv = stripped@;
    parts.set(last_index, stripped);
    assert(parts.deep_view() =~= before.update(last_index as int, sv));
    if chars_equal(&parts[last_index], &chars_of("__init__")) {
        let ghost b2 = parts.deep_view();
        parts.pop();
        assert(parts.deep_view() =~= b2.drop_last());
    }
    let ghost named = parts.deep_view();
    let mut kept: Vec<Vec<char>> = Vec::new();
    let mut k: usize = 0;
    assert(named.take(0) =~= Seq::<Seq<char>>::empty());
    while k < parts.len()
        invariant
            k <= parts.len(),
            named == parts.deep_view(),
            kept.deep_view() == non_empty_pieces(named.take(k as int)),
        decreases parts.len() - k,
    {
        let ghost before = kept.deep_view();
        proof {
            lemma_chars_deep_view(&parts@[k as int]);
        }
        assert(named.take(k + 1).drop_last() =~= named.take(k as int));
        assert(named.take(k + 1).last() == parts@[k as int]@);
        if parts[k].len() > 0 {
            let c = copy_chars(&parts[k]);
            proof {
                lemma_chars_deep_view(&c);
            }
            kept.push(c);
            assert(kept.deep_view() =~= before.push(named[k as int]));
        }
        k += 1;
        assert(kept.deep_view() =~= non_empty_pieces(named.take(k as int)));
    }
    assert(named.take(k as int) =~= named);
    if kept.len() == 0 {
        return None;
    }
    let joined = join_pieces(&kept, '.');
    proof {
        reveal_strlit(".");
        assert(seq!['.'] =~= "."@);
    }
    let res = string_of(&joined);
    Some(res)
}

/// The two files that can hold module `module_name` under `root`: the dotted
/// name as a path with `extension` added, and the `__init__` file of the
/// package directory of that name.
pub open spec fn module_candidates(root: Seq<char>, module_name: Seq<char>, extension: Seq<char>) -> Seq<Seq<char>> {
    let rel = replace_char(module_name, '.', '/');
    seq![join(root, rel + extension), join(join(root, rel), "__init__"@ + extension)]
}

/// The files that can hold module `module_name` under `root`.
pub fn module_to_candidates(root: &str, module_name: &str, extension: &str) -> (res: Vec<String>)
    ensures
        res.deep_view() == module_candidates(root@, module_name@, extension@),
{
    let r = chars_of(root);
    let m = chars_of(module_name);
    let e = chars_of(extension);
    let rel = replace_chars(&m, '.', '/');
    let file = concat_chars(&rel, &e);
    let init = concat_chars(&chars_of("__init__"), &e);
    let first = join_chars(&r, &file);
    let dir = join_chars(&r, &rel);
    let second = join_chars(&dir, &init);
    let mut res: Vec<String> = Vec::new();
    res.push(string_of(&first));
    res.push(string_of(&second));
    assert(res.deep_view() =~= module_candidates(root@, module_name@, extension@));
    res
}

/// `s` with every `a` replaced by `b`.
pub fn replace_chars(s: &Vec<char>, a: char, b: char) -> (res: Vec<char>)
    ensures
        res@ == replace_char(s@, a, b),
{
    let mut res: Vec<char> = Vec::new();
    let mut i: usize = 0;
    while i < s.len()
        invariant
            i <= s.len(),
            res@ == replace_char(s@.take(i as int), a, b),
        decreases s.len() - i,
    {
        let c = s[i];
        res.push(if c == a { b } else { c });
        i += 1;
        assert(res@ =~= replace_char(s@.take(i as int), a, b));
    }
    assert(s@.take(i as int) =~= s@);
    res
}

/// The first of the files that can hold `module_name` under `root` that
/// exists, if any.
pub open spec fn resolved_module_file(
    root: Seq<char>,
    module_name: Seq<char>,
    extension: Seq<char>,
    known: Set<Seq<char>>,
) -> Option<Seq<char>> {
    let c = module_candidates(root, module_name, extension);
    if known.contains(c[0]) {
        Some(c[0])
    } else if known.contains(c[1]) {
        Some(c[1])
    } else {
        None
    }
}

proof fn lemma_normal_names_of_names(q: Seq<Seq<char>>)
    ensures
        normal_names(q.map_values(|n: Seq<char>| Comp::Normal(n))) == q,
    decreases q.len(),
{
    let cs = q.map_values(|n: Seq<char>| Comp::Normal(n));
    if q.len() > 0 {
        assert(cs.drop_last() =~= q.drop_last().map_values(|n: Seq<char>| Comp::Normal(n)));
        lemma_normal_names_of_names(q.drop_last());
        assert(cs.last() == Comp::Normal(q.last()));
        assert(q.drop_last() + seq![q.last()] =~= q);
    }
}

proof fn lemma_non_empty_pieces_keep(q: Seq<Seq<char>>)
    requires
        forall|i: int| 0 <= i < q.len() ==> (#[trigger] q[i]).len() > 0,
    ensures
        non_empty_pieces(q) == q,
    decreases q.len(),
{
    if q.len() > 0 {
        lemma_non_empty_pieces_keep(q.drop_last());
        assert(q[q.len() - 1].len() > 0);
        assert(q.drop_last() + seq![q.last()] =~= q);
    }
}

/// The dotted name of a module whose pieces are `parts`.
pub open spec fn dotted_name(parts: Seq<Seq<char>>) -> Seq<char> {
    join_with(parts, "."@)
}

/// Pieces that make up a module name: at least one, none empty, none holding
/// a `.` or a `/`.
pub open spec fn module_pieces(parts: Seq<Seq<char>>) -> bool {
    &&& parts.len() > 0
    &&& forall|i: int| 0 <= i < parts.len() ==> {
        &&& (#[trigger] parts[i]).len() > 0
        &&& !parts[i].contains('.')
        &&& !parts[i].contains('/')
    }
}

/// The files where a module is looked for are named after it: under any
/// root, and for either script extension, the package file
/// (`pkg/mod/__init__.py`) has the module's name, and so has the module file
/// (`pkg/mod.py`) unless the last piece of the name is `__init__`.
#[verifier::rlimit(60)]
#[verifier::spinoff_prover]
pub proof fn lemma_candidates_named_after_module(root: Seq<char>, parts: Seq<Seq<char>>, ext: Seq<char>)
    requires
        module_pieces(parts),
        ext == ".py"@ || ext == ".lua"@,
    ensures
        parts.last() != "__init__"@ ==> module_name_of(root, module_candidates(root, dotted_name(parts), ext)[0])
            == Some(dotted_name(parts)),
        module_name_of(root, module_candidates(root, dotted_name(parts), ext)[1]) == Some(dotted_name(parts)),
{
    reveal_strlit(".");
    reveal_strlit(".py");
    reveal_strlit(".lua");
    reveal_strlit("__init__");
    let m = dotted_name(parts);
    assert("."@ =~= seq!['.']);
    assert forall|i: int| 0 <= i < parts.len() implies !(#[trigger] parts[i]).contains('.') by {}
    lemma_replace_joined(parts, '.', '/');
    let rel = replace_char(m, '.', '/');
    assert(rel == join_with(parts, seq!['/']));
    assert(!ext.contains('/')) by {
        if ext.contains('/') {
            let i = choose|i: int| 0 <= i < ext.len() && ext[i] == '/';
        }
    }
    assert forall|i: int| 0 <= i < parts.len() implies plain_piece(#[trigger] parts[i]) by {
        if parts[i] == dot() {
            assert(parts[i][0] == '.');
        }
        if parts[i] == dot_dot() {
            assert(parts[i][0] == '.');
        }
    }
    let n = parts.len();
    let bc = comps(root);
    let to_comp = |x: Seq<char>| Comp::Normal(x);
    // the module file
    let x0 = rel + ext;
    lemma_split_on_joined(parts, ext, '/');
    let q0 = parts.update(n - 1, parts.last() + ext);
    assert(split_on(x0, '/') == q0);
    let l0 = parts.last() + ext;
    assert(plain_piece(l0)) by {
        assert(!l0.contains('/')) by {
            if l0.contains('/') {
                let i = choose|i: int| 0 <= i < l0.len() && l0[i] == '/';
                if i < parts.last().len() {
                    assert(parts[n - 1][i] == '/');
                } else {
                    assert(ext[i - parts.last().len()] == '/');
                }
            }
        }
        assert(l0.len() > 2);
    }
    assert(q0[0].len() > 0 && q0[0] != dot()) by {
        if n == 1 {
            assert(q0[0] == l0);
        } else {
            assert(q0[0] == parts[0]);
        }
    }
    assert forall|i: int| 0 <= i < q0.len() implies plain_piece(#[trigger] q0[i]) by {
        if i < n - 1 {
            assert(q0[i] == parts[i]);
        }
    }
    lemma_comps_join(root, x0);
    lemma_pieces_comps_plain(q0);
    let f0 = comps(join(root, x0));
    let t0 = q0.map_values(to_comp);
    assert(f0 == bc + t0);
    assert(f0.take(bc.len() as int) =~= bc);
    assert(f0.skip(bc.len() as int) =~= t0);
    lemma_normal_names_of_names(q0);
    // the last name loses its extension again
    assert(strip_script_extension(l0) == parts.last()) by {
        if ext == ".py"@ {
            assert(l0.skip(l0.len() - 3) =~= ext);
            assert(l0.take(l0.len() - 3) =~= parts.last());
        } else {
            assert(l0.skip(l0.len() - 4) =~= ext);
            assert(l0.skip(l0.len() - 3)[0] == 'l');
            assert(!has_suffix(l0, ".py"@));
            assert(l0.take(l0.len() - 4) =~= parts.last());
        }
    }
    assert(q0.update(n - 1, strip_script_extension(q0.last())) =~= parts);
    lemma_non_empty_pieces_keep(parts);
    assert(module_candidates(root, m, ext)[0] == join(root, x0));
    // the package file
    let init = "__init__"@ + ext;
    let dir = join(root, rel);
    lemma_split_on_joined(parts, Seq::empty(), '/');
    assert(rel + Seq::<char>::empty() =~= rel);
    assert(parts.update(n - 1, parts.last() + Seq::<char>::empty()) =~= parts);
    assert(parts[0].len() > 0 && parts[0] != dot());
    lemma_comps_join(root, rel);
    lemma_pieces_comps_plain(parts);
    assert(!init.contains('/')) by {
        if init.contains('/') {
            let i = choose|i: int| 0 <= i < init.len() && init[i] == '/';
            if i >= 8 {
                assert(ext[i - 8] == '/');
            }
        }
    }
    lemma_split_from_whole(init, '/', Seq::empty());
    assert(Seq::<char>::empty() + init =~= init);
    assert(split_on(init, '/') == seq![init]);
    assert(plain_piece(init)) by {
        assert(init.len() > 2);
    }
    lemma_comps_join(dir, init);
    lemma_pieces_comps_plain(seq![init]);
    let names1 = parts.push(init);
    let f1 = comps(join(dir, init));
    let t1 = names1.map_values(to_comp);
    assert(f1 =~= bc + t1) by {
        assert(seq![init].map_values(to_comp) =~= seq![Comp::Normal(init)]);
        assert(parts.map_values(to_comp) + seq![Comp::Normal(init)] =~= t1);
    }
    assert(f1.take(bc.len() as int) =~= bc);
    assert(f1.skip(bc.len() as int) =~= t1);
    lemma_normal_names_of_names(names1);
    assert(strip_script_extension(init) == "__init__"@) by {
        if ext == ".py"@ {
            assert(init.skip(init.len() - 3) =~= ext);
            assert(init.take(init.len() - 3) =~= "__init__"@);
        } else {
            assert(init.skip(init.len() - 4) =~= ext);
            assert(init.skip(init.len() - 3)[0] == 'l');
            assert(!has_suffix(init, ".py"@));
            assert(init.take(init.len() - 4) =~= "__init__"@);
        }
    }
    let stripped1 = names1.update(n as int, strip_script_extension(names1.last()));
    assert(stripped1.drop_last() =~= parts);
    assert(module_candidates(root, m, ext)[1] == join(dir, init));
}

/// The first existing file that can hold `module_name` under `root`.
pub fn resolve_module_file(root: &str, module_name: &str, extension: &str, known: &ExistingPaths) -> (res: Option<String>)
    ensures
        res.deep_view() == resolved_module_file(root@, module_name@, extension@, known@),
{
    let cands = module_to_candidates(root, module_name, extension);
    assert(cands.deep_view().len() == 2);
    assert(cands.len() == 2);
    let mut i: usize = 0;
    while i < cands.len()
        invariant
            cands.len() == 2,
            cands.deep_view() == module_candidates(root@, module_name@, extension@),
            i <= cands.len(),
            forall|k: int| 0 <= k < i ==> !known@.contains(#[trigger] cands.deep_view()[k]),
        decreases cands.len() - i,
    {
        if known.contains(&chars_of(cands[i].as_str())) {
            let r = cands[i].clone();
            assert(r@ == cands.deep_view()[i as int]);
            proof {
                if i == 1 {
                    assert(!known@.contains(cands.deep_view()[0]));
                }
            }
            return Some(r);
        }
        i += 1;
    }
    assert(!known@.contains(cands.deep_view()[0]));
    assert(!known@.contains(cands.deep_view()[1]));
    None
}

/// Whether `dir` holds an `__init__.py` or `__init__.lua` file.
pub open spec fn is_package_dir(dir: Seq<char>, known: Set<Seq<char>>) -> bool {
    known.contains(join(dir, "__init__.py"@)) || known.contains(join(dir, "__init__.lua"@))
}

/// Whether `dir` looks like a package directory.
pub fn is_probably_package_dir(dir: &str, known: &ExistingPaths) -> (res: bool)
    ensures
        res == is_package_dir(dir@, known@),
{
    let d = chars_of(dir);
    known.contains(&join_chars(&d, &chars_of("__init__.py"))) || known.contains(
        &join_chars(&d, &chars_of("__init__.lua")),
    )
}

/// The directories met going up from `p` by `Path::parent`, after `roots`:
/// each added unless it is the same path as the last one added.
pub open spec fn climb(p: Seq<char>, roots: Seq<Seq<char>>) -> Seq<Seq<char>>
    decreases p.len(),
{
    let added = if roots.len() > 0 && same_path(roots.last(), p) {
        roots
    } else {
        roots.push(p)
    };
    match parent(p) {
        Some(q) => {
            proof {
                lemma_parent_shorter(p);
            }
            climb(q, added)
        },
        None => added,
    }
}

/// The directories from `start` up to the root, then `base_dir` unless it is
/// the same path as the last of them.
pub open spec fn root_chain(start: Seq<char>, base_dir: Seq<char>) -> Seq<Seq<char>> {
    let chain = climb(start, Seq::empty());
    if same_path(chain.last(), base_dir) {
        chain
    } else {
        chain.push(base_dir)
    }
}

/// The directories to look in for modules, from `start` up to the root, then
/// `base_dir`.
pub fn candidate_roots(start: &str, base_dir: &str) -> (res: Vec<String>)
    ensures
        res.deep_view() == root_chain(start@, base_dir@),
{
    let mut roots: Vec<String> = Vec::new();
    let mut cur = chars_of(start);
    assert(roots.deep_view() =~= Seq::<Seq<char>>::empty());
    loop
        invariant
            climb(start@, Seq::empty()) == climb(cur@, roots.deep_view()),
        ensures
            climb(start@, Seq::empty()) == roots.deep_view(),
        decreases cur.len(),
    {
        let ghost before = roots.deep_view();
        let repeat = roots.len() > 0 && same_path_chars(&chars_of(roots[roots.len() - 1].as_str()), &cur);
        assert(repeat == (before.len() > 0 && same_path(before.last(), cur@)));
        if !repeat {
            roots.push(string_of(&cur));
            assert(roots.deep_view() =~= before.push(cur@));
        }
        match parent_chars(&cur) {
            Some(q) => {
                proof {
                    lemma_parent_shorter(cur@);
                    lemma_chars_deep_view(&q);
                }
                cur = q;
            },
            None => {
                break;
            },
        }
    }
    proof {
        lemma_climb_keeps(start@, Seq::empty());
    }
    let last = chars_of(roots[roots.len() - 1].as_str());
    let b = chars_of(base_dir);
    if !same_path_chars(&last, &b) {
        let ghost before = roots.deep_view();
        roots.push(base_dir.to_owned());
        assert(roots.deep_view() =~= before.push(base_dir@));
    }
    roots
}

/// Climbing keeps what was there and adds at least one directory when there
/// was none.
pub proof fn lemma_climb_keeps(p: Seq<char>, roots: Seq<Seq<char>>)
    ensures
        climb(p, roots).len() >= roots.len(),
        climb(p, roots).len() > 0,
        climb(p, roots).take(roots.len() as int) == roots,
        roots.len() == 0 ==> climb(p, roots)[0] == p,
    decreases p.len(),
{
    let added = if roots.len() > 0 && same_path(roots.last(), p) {
        roots
    } else {
        roots.push(p)
    };
    assert(added.take(roots.len() as int) =~= roots);
    match parent(p) {
        Some(q) => {
            lemma_parent_shorter(p);
            lemma_climb_keeps(q, added);
            let c = climb(q, added);
            assert(c.take(roots.len() as int) =~= c.take(added.len() as int).take(roots.len() as int));
            if roots.len() == 0 {
                assert(added[0] == p);
                assert(c[0] == c.take(added.len() as int)[0]);
            }
        },
        None => {},
    }
}

/// The search for modules begins at `start` and ends at (the same path as)
/// `base_dir`.
pub proof fn lemma_root_chain_ends(start: Seq<char>, base_dir: Seq<char>)
    ensures
        root_chain(start, base_dir).len() > 0,
        root_chain(start, base_dir)[0] == start,
        same_path(root_chain(start, base_dir).last(), base_dir),
{
    lemma_climb_keeps(start, Seq::empty());
}

} // verus!
