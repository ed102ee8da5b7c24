//! The import statements of Python, Lua and JavaScript sources.
//!
//! Each language's grammar of imports is written out here as the patterns
//! that it matches:
//!
//! - Python, line by line (the text before a `#`, trimmed):
//!   `import NAME, ...` and `from BASE import NAME, ...`, where `BASE` is a
//!   run of `.` and word characters.
//! - Lua: `require ( "NAME" )` and `require "NAME"`, with either quote.
//! - JavaScript: `import ... from "NAME"` and `require("NAME")`, with either
//!   quote.
//!
//! Whitespace is Unicode `White_Space`; word characters are those of
//! Unicode regular expressions (`\w`).
use vstd::prelude::*;

use vstd::seq_lib::lemma_flatten_concat;

use crate::text::{closed_lines, lemma_lines_from_joined, lemma_prefix_before_push, lemma_trim_push_white, lines_from, strip_cr,
    chars_of, concat_chars, first_word, first_word_chars, has_prefix, has_suffix,
    is_sorted_set_of, is_white_space, is_whitespace_char, lead_ws_len, lemma_chars_deep_view,
    lemma_lead_ws_len_bounds, lines_chars, lines_of, prefix_before, prefix_before_chars,
    occurs_at, occurs_at_chars, skip_ws, slice_chars, sorted_unique, strings_of, split_chars, split_on, starts_with_chars, string_of,
    trim, trim_chars, trim_start, trim_start_chars,
};

verus! {

/// Whether a character is a word character of Unicode regular expressions
/// (`\w`: alphabetic, decimal digit, mark, connector punctuation or join
/// control).
pub uninterp spec fn unicode_word_char(c: char) -> bool;

/// Whether `c` is a word character (`regex_syntax::is_word_character`, which
/// does not panic here since the crate is built with its default features,
/// `unicode-perl` among them).
///
/// What the function answers for a character outside ASCII is the Unicode
/// tables' business and is left unsaid here, but for this: no whitespace
/// character is a word character, since whitespace characters are separators
/// and controls.
#[verifier::external_body]
fn is_word_char(c: char) -> (res: bool)
    ensures
        res == unicode_word_char(c),
        (c as u32) < 128 ==> (res <==> (c == '_' || ('0' <= c && c <= '9') || ('a' <= c && c
            <= 'z') || ('A' <= c && c <= 'Z'))),
        is_white_space(c) ==> !res,
{
    regex_syntax::is_word_character(c)
}

/// A word character (`\w`): in ASCII, `_`, a digit or a letter; beyond
/// ASCII, a character of the Unicode word class, which holds no whitespace.
pub open spec fn word_char(c: char) -> bool {
    if (c as u32) < 128 {
        c == '_' || ('0' <= c && c <= '9') || ('a' <= c && c <= 'z') || ('A' <= c && c <= 'Z')
    } else {
        unicode_word_char(c) && !is_white_space(c)
    }
}

// ---------------------------------------------------------------------------
// Python.
/// The longest prefix of `s` made of `.` and word characters.
pub open spec fn dotted_word_prefix(s: Seq<char>) -> Seq<char>
    decreases s.len(),
{
    if s.len() > 0 && (s[0] == '.' || word_char(s[0])) {
        seq![s[0]] + dotted_word_prefix(s.drop_first())
    } else {
        Seq::empty()
    }
}

/// Whether `s` begins with keyword `kw` followed by whitespace.
pub open spec fn keyword_then_space(s: Seq<char>, kw: Seq<char>) -> bool {
    has_prefix(s, kw) && s.len() > kw.len() && is_white_space(s[kw.len() as int])
}

/// The names of an `import NAMES` line (trimmed), if it is one.
pub open spec fn import_statement(l: Seq<char>) -> Option<Seq<char>> {
    if keyword_then_space(l, "import"@) && trim_start(l.skip(6)).len() > 0 {
        Some(trim_start(l.skip(6)))
    } else {
        None
    }
}

/// The base and the names of a `from BASE import NAMES` line (trimmed), if it
/// is one.
pub open spec fn from_statement(l: Seq<char>) -> Option<(Seq<char>, Seq<char>)> {
    if !keyword_then_space(l, "from"@) {
        None
    } else {
        let r1 = trim_start(l.skip(4));
        let base = dotted_word_prefix(r1);
        let r2 = r1.skip(base.len() as int);
        if base.len() == 0 || !(r2.len() > 0 && is_white_space(r2[0])) {
            None
        } else {
            let r3 = trim_start(r2);
            if keyword_then_space(r3, "import"@) && trim_start(r3.skip(6)).len() > 0 {
                Some((base, trim_start(r3.skip(6))))
            } else {
                None
            }
        }
    }
}

/// The first words of the comma-separated items, empty ones left out.
pub open spec fn item_words(items: Seq<Seq<char>>) -> Seq<Seq<char>>
    decreases items.len(),
{
    if items.len() == 0 {
        Seq::empty()
    } else {
        item_words(items.drop_last()) + if first_word(items.last()).len() > 0 {
            seq![first_word(items.last())]
        } else {
            Seq::empty()
        }
    }
}

/// `base` and `name` joined with a `.` unless `base` is empty or ends with one.
pub open spec fn dotted(base: Seq<char>, name: Seq<char>) -> Seq<char> {
    if base.len() > 0 && !has_suffix(base, "."@) {
        base + "."@ + name
    } else {
        base + name
    }
}

/// Each word dotted onto `base`.
pub open spec fn dotted_all(base: Seq<char>, words: Seq<Seq<char>>) -> Seq<Seq<char>> {
    words.map_values(|w: Seq<char>| dotted(base, w))
}

/// The modules that one line of Python imports: for `import A, B as C` the
/// names `A` and `B`; for `from P import X, Y as Z` the base `P` and then
/// `P.X` and `P.Y`.
pub open spec fn python_line_imports(line: Seq<char>) -> Seq<Seq<char>> {
    let l = trim(prefix_before(line, '#'));
    if l.len() == 0 {
        Seq::empty()
    } else {
        match import_statement(l) {
            Some(names) => item_words(split_on(names, ',')),
            None => match from_statement(l) {
                Some((base, names)) => seq![base] + dotted_all(
                    base,
                    item_words(split_on(names, ',')),
                ),
                None => Seq::empty(),
            },
        }
    }
}

/// The modules that a Python source imports, line by line, in order.
pub open spec fn python_import_list(source: Seq<char>) -> Seq<Seq<char>> {
    lines_of(source).map_values(|l: Seq<char>| python_line_imports(l)).flatten()
}

/// The modules that lines of Python import, line by line, in order.
pub open spec fn imports_of_lines(lines: Seq<Seq<char>>) -> Seq<Seq<char>> {
    lines.map_values(|l: Seq<char>| python_line_imports(l)).flatten()
}

proof fn lemma_imports_of_lines_concat(x: Seq<Seq<char>>, y: Seq<Seq<char>>)
    ensures
        imports_of_lines(x + y) == imports_of_lines(x) + imports_of_lines(y),
{
    let f = |l: Seq<char>| python_line_imports(l);
    assert((x + y).map_values(f) =~= x.map_values(f) + y.map_values(f));
    lemma_flatten_concat(x.map_values(f), y.map_values(f));
}

proof fn lemma_imports_of_one_line(l: Seq<char>)
    ensures
        imports_of_lines(seq![l]) == python_line_imports(l),
{
    let m = seq![l].map_values(|x: Seq<char>| python_line_imports(x));
    assert(m =~= seq![python_line_imports(l)]);
    m.lemma_flatten_one_element();
}

/// A carriage return at the end of a line changes nothing that it imports.
proof fn lemma_line_imports_strip_cr(l: Seq<char>)
    ensures
        python_line_imports(strip_cr(l)) == python_line_imports(l),
{
    if l.len() > 0 && l.last() == '\r' {
        let x = l.drop_last();
        assert(x.push('\r') =~= l);
        lemma_prefix_before_push(x, '\r', '#');
        if !x.contains('#') {
            assert(is_white_space('\r'));
            lemma_trim_push_white(x, '\r');
        }
        assert(trim(prefix_before(l, '#')) == trim(prefix_before(x, '#')));
    }
}

/// Closing the last line of a text changes nothing that its lines import.
proof fn lemma_closed_lines_imports(a: Seq<char>, cur: Seq<char>)
    ensures
        imports_of_lines(closed_lines(a, cur)) == imports_of_lines(lines_from(a, cur)),
    decreases a.len(),
{
    if a.len() == 0 {
        lemma_imports_of_one_line(strip_cr(cur));
        lemma_line_imports_strip_cr(cur);
        if cur.len() == 0 {
            assert(prefix_before(Seq::<char>::empty(), '#') == Seq::<char>::empty());
            assert(trim_start(Seq::<char>::empty()) == Seq::<char>::empty());
            assert(trim(Seq::<char>::empty()) == Seq::<char>::empty());
            assert(python_line_imports(cur) =~= Seq::<Seq<char>>::empty());
            assert(imports_of_lines(Seq::<Seq<char>>::empty()) =~= Seq::<Seq<char>>::empty()) by {
                assert(Seq::<Seq<char>>::empty().map_values(|l: Seq<char>| python_line_imports(l))
                    =~= Seq::<Seq<Seq<char>>>::empty());
            }
        } else {
            lemma_imports_of_one_line(cur);
        }
    } else if a[0] == '\n' {
        lemma_closed_lines_imports(a.drop_first(), Seq::empty());
        lemma_imports_of_lines_concat(seq![strip_cr(cur)], closed_lines(a.drop_first(), Seq::empty()));
        lemma_imports_of_lines_concat(seq![strip_cr(cur)], lines_from(a.drop_first(), Seq::empty()));
    } else {
        lemma_closed_lines_imports(a.drop_first(), cur.push(a[0]));
    }
}

/// The imports of two Python sources joined by a line break are those of the
/// first, then those of the second.
pub proof fn lemma_python_imports_of_joined(s1: Seq<char>, s2: Seq<char>)
    ensures
        python_import_list(s1 + seq!['\n'] + s2) == python_import_list(s1) + python_import_list(s2),
{
    let f = |l: Seq<char>| python_line_imports(l);
    assert forall|s: Seq<char>| python_import_list(s) == imports_of_lines(#[trigger] lines_of(s)) by {
        assert(lines_of(s).map_values(|l: Seq<char>| python_line_imports(l)) =~= lines_of(s).map_values(f));
    }
    lemma_lines_from_joined(s1, s2, Seq::empty());
    lemma_imports_of_lines_concat(closed_lines(s1, Seq::empty()), lines_of(s2));
    lemma_closed_lines_imports(s1, Seq::empty());
}

/// What `python_imports_from_source` gives for two sources joined by a line
/// break is the sorted union, each once, of what it gives for each of them.
pub proof fn lemma_python_imports_of_joined_results(
    s1: Seq<char>,
    s2: Seq<char>,
    r1: Seq<Seq<char>>,
    r2: Seq<Seq<char>>,
    r: Seq<Seq<char>>,
)
    requires
        is_sorted_set_of(r1, python_import_list(s1)),
        is_sorted_set_of(r2, python_import_list(s2)),
        is_sorted_set_of(r, python_import_list(s1 + seq!['\n'] + s2)),
    ensures
        is_sorted_set_of(r, r1 + r2),
{
    lemma_python_imports_of_joined(s1, s2);
    let l1 = python_import_list(s1);
    let l2 = python_import_list(s2);
    assert forall|x: Seq<char>| r.contains(x) <==> (r1 + r2).contains(x) by {
        if (l1 + l2).contains(x) {
            let i = choose|i: int| 0 <= i < (l1 + l2).len() && (l1 + l2)[i] == x;
            if i < l1.len() {
                assert(l1[i] == x);
                assert(r1.contains(x));
                let j = choose|j: int| 0 <= j < r1.len() && r1[j] == x;
                assert((r1 + r2)[j] == x);
            } else {
                assert(l2[i - l1.len()] == x);
                assert(r2.contains(x));
                let j = choose|j: int| 0 <= j < r2.len() && r2[j] == x;
                assert((r1 + r2)[r1.len() + j] == x);
            }
        }
        if (r1 + r2).contains(x) {
            let i = choose|i: int| 0 <= i < (r1 + r2).len() && (r1 + r2)[i] == x;
            if i < r1.len() {
                assert(r1[i] == x);
                assert(l1.contains(x));
                let j = choose|j: int| 0 <= j < l1.len() && l1[j] == x;
                assert((l1 + l2)[j] == x);
            } else {
                assert(r2[i - r1.len()] == x);
                assert(l2.contains(x));
                let j = choose|j: int| 0 <= j < l2.len() && l2[j] == x;
                assert((l1 + l2)[l1.len() + j] == x);
            }
        }
    }
}

fn dotted_word_prefix_chars(s: &Vec<char>) -> (res: Vec<char>)
    ensures
        res@ == dotted_word_prefix(s@),
{
    let mut i: usize = 0;
    assert(s@.skip(0) =~= s@);
    assert(s@.take(0) + dotted_word_prefix(s@) =~= dotted_word_prefix(s@));
    while i < s.len() && (s[i] == '.' || is_word_char(s[i]))
        invariant
            i <= s.len(),
            dotted_word_prefix(s@) == s@.take(i as int) + dotted_word_prefix(s@.skip(i as int)),
        decreases s.len() - i,
    {
        assert(s@.skip(i as int).drop_first() =~= s@.skip(i + 1));
        assert(s@.take(i + 1) =~= s@.take(i as int) + seq![s@[i as int]]);
        i += 1;
    }
    assert(dotted_word_prefix(s@.skip(i as int)) =~= Seq::<char>::empty());
    assert(s@.take(i as int) + Seq::<char>::empty() =~= s@.take(i as int));
    slice_chars(s, 0, i)
}

fn keyword_then_space_chars(s: &Vec<char>, kw: &Vec<char>) -> (res: bool)
    ensures
        res == keyword_then_space(s@, kw@),
{
    starts_with_chars(s, kw) && s.len() > kw.len() && is_whitespace_char(s[kw.len()])
}

fn import_statement_chars(l: &Vec<char>) -> (res: Option<Vec<char>>)
    ensures
        res.deep_view() == import_statement(l@),
{
    let kw = chars_of("import");
    proof {
        reveal_strlit("import");
    }
    if keyword_then_space_chars(l, &kw) {
        let rest = slice_chars(l, 6, l.len());
        assert(rest@ =~= l@.skip(6));
        let names = trim_start_chars(&rest);
        if names.len() > 0 {
            proof {
                lemma_chars_deep_view(&names);
            }
            return Some(names);
        }
    }
    None
}

fn from_statement_chars(l: &Vec<char>) -> (res: Option<(Vec<char>, Vec<char>)>)
    ensures
        res.deep_view() == from_statement(l@),
{
    let from_kw = chars_of("from");
    let import_kw = chars_of("import");
    proof {
        reveal_strlit("from");
        reveal_strlit("import");
    }
    if !keyword_then_space_chars(l, &from_kw) {
        return None;
    }
    let after_from = slice_chars(l, 4, l.len());
    assert(after_from@ =~= l@.skip(4));
    let r1 = trim_start_chars(&after_from);
    let base = dotted_word_prefix_chars(&r1);
    if base.len() == 0 {
        return None;
    }
    assert(base.len() <= r1.len()) by {
        lemma_dotted_word_prefix_len(r1@);
    }
    let r2 = slice_chars(&r1, base.len(), r1.len());
    assert(r2@ =~= r1@.skip(base.len() as int));
    if !(r2.len() > 0 && is_whitespace_char(r2[0])) {
        return None;
    }
    let r3 = trim_start_chars(&r2);
    if keyword_then_space_chars(&r3, &import_kw) {
        let rest = slice_chars(&r3, 6, r3.len());
        assert(rest@ =~= r3@.skip(6));
        let names = trim_start_chars(&rest);
        if names.len() > 0 {
            proof {
                lemma_chars_deep_view(&names);
                lemma_chars_deep_view(&base);
            }
            return Some((base, names));
        }
    }
    None
}

pub proof fn lemma_dotted_word_prefix_len(s: Seq<char>)
    ensures
        dotted_word_prefix(s).len() <= s.len(),
    decreases s.len(),
{
    if s.len() > 0 && (s[0] == '.' || word_char(s[0])) {
        lemma_dotted_word_prefix_len(s.drop_first());
    }
}

fn item_words_chars(items: &Vec<Vec<char>>) -> (res: Vec<Vec<char>>)
    ensures
        res.deep_view() == item_words(items.deep_view()),
{
    let ghost dv = items.deep_view();
    let mut out: Vec<Vec<char>> = Vec::new();
    let mut k: usize = 0;
    assert(dv.take(0) =~= Seq::<Seq<char>>::empty());
    while k < items.len()
        invariant
            k <= items.len(),
            dv == items.deep_view(),
            out.deep_view() == item_words(dv.take(k as int)),
        decreases items.len() - k,
    {
        proof {
            lemma_chars_deep_view(&items@[k as int]);
        }
        let w = first_word_chars(&items[k]);
        let ghost before = out.deep_view();
        assert(dv.take(k + 1).drop_last() =~= dv.take(k as int));
        assert(dv.take(k + 1).last() == items@[k as int]@);
        if w.len() > 0 {
            let ghost wv = w@;
            proof {
                lemma_chars_deep_view(&w);
            }
            out.push(w);
            assert(out.deep_view() =~= before.push(wv));
        }
        k += 1;
        assert(out.deep_view() =~= item_words(dv.take(k as int)));
    }
    assert(dv.take(k as int) =~= dv);
    out
}

fn dotted_chars(base: &Vec<char>, name: &Vec<char>) -> (res: Vec<char>)
    ensures
        res@ == dotted(base@, name@),
{
    proof {
        reveal_strlit(".");
    }
    let mut combined = concat_chars(base, &Vec::new());
    assert(combined@ =~= base@);
    let dot = chars_of(".");
    if !(base.len() > 0 && base[base.len() - 1] == '.') && !(base.len() == 0) {
        combined.push('.');
        assert(!has_suffix(base@, "."@)) by {
            if has_suffix(base@, "."@) {
                assert(base@.skip(base@.len() - 1)[0] == '.');
            }
        }
        let r = concat_chars(&combined, name);
        assert(r@ =~= base@ + "."@ + name@);
        r
    } else {
        proof {
            if base.len() > 0 {
                assert(base@.skip(base@.len() - 1) =~= "."@);
            }
        }
        concat_chars(&combined, name)
    }
}

/// The modules that one line of Python imports.
pub fn python_line_imports_chars(line: &Vec<char>) -> (res: Vec<Vec<char>>)
    ensures
        res.deep_view() == python_line_imports(line@),
{
    let before_hash = prefix_before_chars(line, '#');
    let l = trim_chars(&before_hash);
    if l.len() == 0 {
        let res: Vec<Vec<char>> = Vec::new();
        assert(res.deep_view() =~= python_line_imports(line@));
        return res;
    }
    match import_statement_chars(&l) {
        Some(names) => {
            proof {
                lemma_chars_deep_view(&names);
            }
            let items = split_chars(&names, ',');
            item_words_chars(&items)
        },
        None => match from_statement_chars(&l) {
            Some((base, names)) => {
                proof {
                    lemma_chars_deep_view(&names);
                    lemma_chars_deep_view(&base);
                }
                let items = split_chars(&names, ',');
                let words = item_words_chars(&items);
                let mut out: Vec<Vec<char>> = Vec::new();
                out.push(copy_base(&base));
                let mut k: usize = 0;
                let ghost wv = words.deep_view();
                assert(out.deep_view() =~= seq![base@] + dotted_all(base@, wv.take(0)));
                while k < words.len()
                    invariant
                        k <= words.len(),
                        wv == words.deep_view(),
                        out.deep_view() == seq![base@] + dotted_all(base@, wv.take(k as int)),
                    decreases words.len() - k,
                {
                    proof {
                        lemma_chars_deep_view(&words@[k as int]);
                    }
                    let d = dotted_chars(&base, &words[k]);
                    let ghost dd = d@;
                    let ghost before = out.deep_view();
                    proof {
                        lemma_chars_deep_view(&d);
                    }
                    out.push(d);
                    assert(out.deep_view() =~= before.push(dd));
                    k += 1;
                    assert(dotted_all(base@, wv.take(k as int)) =~= dotted_all(
                        base@,
                        wv.take(k - 1),
                    ).push(dd));
                    assert(out.deep_view() =~= seq![base@] + dotted_all(base@, wv.take(k as int)));
                }
                assert(wv.take(k as int) =~= wv);
                out
            },
            None => {
                let res: Vec<Vec<char>> = Vec::new();
                assert(res.deep_view() =~= python_line_imports(line@));
                res
            },
        },
    }
}

fn copy_base(base: &Vec<char>) -> (res: Vec<char>)
    ensures
        res@ == base@,
        res.deep_view() == base@,
{
    let r = slice_chars(base, 0, base.len());
    assert(r@ =~= base@);
    proof {
        lemma_chars_deep_view(&r);
    }
    r
}

/// The modules that a Python source imports, sorted, each once.
pub fn python_imports_from_source(source: &str) -> (res: Vec<String>)
    ensures
        is_sorted_set_of(res.deep_view(), python_import_list(source@)),
{
    let s = chars_of(source);
    let lines = lines_chars(&s);
    let ghost lv = lines.deep_view();
    let ghost per_line = lv.map_values(|l: Seq<char>| python_line_imports(l));
    let mut all: Vec<Vec<char>> = Vec::new();
    let mut k: usize = 0;
    assert(per_line.take(0) =~= Seq::<Seq<Seq<char>>>::empty());
    while k < lines.len()
        invariant
            k <= lines.len(),
            lv == lines.deep_view(),
            per_line == lv.map_values(|l: Seq<char>| python_line_imports(l)),
            all.deep_view() == per_line.take(k as int).flatten(),
        decreases lines.len() - k,
    {
        proof {
            lemma_chars_deep_view(&lines@[k as int]);
        }
        let found = python_line_imports_chars(&lines[k]);
        let ghost before = all.deep_view();
        let mut j: usize = 0;
        while j < found.len()
            invariant
                j <= found.len(),
                all.deep_view() == before + found.deep_view().take(j as int),
            decreases found.len() - j,
        {
            proof {
                lemma_chars_deep_view(&found@[j as int]);
            }
            let x = copy_base(&found[j]);
            let ghost prev = all.deep_view();
            all.push(x);
            assert(all.deep_view() =~= prev.push(found.deep_view()[j as int]));
            j += 1;
            assert(all.deep_view() =~= before + found.deep_view().take(j as int));
        }
        assert(found.deep_view().take(j as int) =~= found.deep_view());
        proof {
            let t = per_line.take(k + 1);
            assert(t =~= per_line.take(k as int).push(per_line[k as int]));
            per_line.take(k as int).lemma_flatten_push(per_line[k as int]);
        }
        k += 1;
    }
    assert(per_line.take(k as int) =~= per_line);
    let sorted = sorted_unique(&all);
    let mut res: Vec<String> = Vec::new();
    let mut i: usize = 0;
    while i < sorted.len()
        invariant
            i <= sorted.len(),
            res.deep_view() == sorted.deep_view().take(i as int),
        decreases sorted.len() - i,
    {
        proof {
            lemma_chars_deep_view(&sorted@[i as int]);
        }
        let ghost prev = res.deep_view();
        let text = string_of(&sorted[i]);
        assert(text@ == sorted.deep_view()[i as int]);
        res.push(text);
        assert(res.deep_view() =~= prev.push(sorted.deep_view()[i as int]));
        i += 1;
        assert(res.deep_view() =~= sorted.deep_view().take(i as int));
    }
    assert(sorted.deep_view().take(i as int) =~= sorted.deep_view());
    res
}


// ---------------------------------------------------------------------------
// Lua.
/// A quote character, `'` or `"`.
pub open spec fn is_quote(c: char) -> bool {
    c == '\'' || c == '"'
}

/// The number of characters before the first quote in `s` (all of them when
/// there is none).
pub open spec fn non_quote_len(s: Seq<char>) -> int
    decreases s.len(),
{
    if s.len() > 0 && !is_quote(s[0]) {
        1 + non_quote_len(s.drop_first())
    } else {
        0
    }
}

/// The end and the quoted name of a `require ( "NAME" )` call that starts at
/// position `i` of `s`, if one does: `require`, optional whitespace, `(`,
/// optional whitespace, a quote, a name of one or more characters that are
/// not quotes, a quote, optional whitespace, `)`.
pub open spec fn lua_call_at(s: Seq<char>, i: int) -> Option<(int, Seq<char>)> {
    if !occurs_at(s, "require"@, i) {
        None
    } else {
        let a = i + 7 + lead_ws_len(s.skip(i + 7));
        if !(a < s.len() && s[a] == '(') {
            None
        } else {
            let b = a + 1 + lead_ws_len(s.skip(a + 1));
            if !(b < s.len() && is_quote(s[b])) {
                None
            } else {
                let n = non_quote_len(s.skip(b + 1));
                let c = b + 1 + n;
                if !(n > 0 && c < s.len()) {
                    None
                } else {
                    let d = c + 1 + lead_ws_len(s.skip(c + 1));
                    if !(d < s.len() && s[d] == ')') {
                        None
                    } else {
                        Some((d + 1, s.subrange(b + 1, c)))
                    }
                }
            }
        }
    }
}

/// The end and the quoted name of a `require "NAME"` call that starts at
/// position `i` of `s`, if one does: `require`, whitespace, a quote, a name
/// of one or more characters that are not quotes, a quote.
pub open spec fn lua_bare_at(s: Seq<char>, i: int) -> Option<(int, Seq<char>)> {
    if !occurs_at(s, "require"@, i) {
        None
    } else {
        let w = lead_ws_len(s.skip(i + 7));
        let b = i + 7 + w;
        if !(w > 0 && b < s.len() && is_quote(s[b])) {
            None
        } else {
            let n = non_quote_len(s.skip(b + 1));
            let c = b + 1 + n;
            if !(n > 0 && c < s.len()) {
                None
            } else {
                Some((c + 1, s.subrange(b + 1, c)))
            }
        }
    }
}

/// The names of the successive matches of one of the Lua call forms, from
/// position `i` on: each match is the first that starts at or after the end
/// of the one before.
pub open spec fn lua_scan(s: Seq<char>, i: int, bare: bool) -> Seq<Seq<char>>
    decreases s.len() - i,
{
    if i < 0 || i >= s.len() {
        Seq::empty()
    } else {
        let m = if bare {
            lua_bare_at(s, i)
        } else {
            lua_call_at(s, i)
        };
        match m {
            Some((e, name)) => if i < e <= s.len() {
                seq![name] + lua_scan(s, e, bare)
            } else {
                Seq::empty()
            },
            None => lua_scan(s, i + 1, bare),
        }
    }
}

/// The modules that a Lua source requires: those of the `require (...)` form,
/// then those of the `require "..."` form.
pub open spec fn lua_import_list(source: Seq<char>) -> Seq<Seq<char>> {
    lua_scan(source, 0, false) + lua_scan(source, 0, true)
}

proof fn lemma_lead_ws_run(s: Seq<char>, k: int, m: int)
    requires
        0 <= k,
        0 <= m,
        k + m < s.len(),
        forall|t: int| k <= t < k + m ==> is_white_space(#[trigger] s[t]),
        !is_white_space(s[k + m]),
    ensures
        lead_ws_len(s.skip(k)) == m,
    decreases m,
{
    if m > 0 {
        assert(s.skip(k)[0] == s[k]);
        assert(s.skip(k).drop_first() =~= s.skip(k + 1));
        lemma_lead_ws_run(s, k + 1, m - 1);
    } else {
        assert(s.skip(k)[0] == s[k]);
    }
}

proof fn lemma_lead_ws_white(x: Seq<char>, t: int)
    requires
        0 <= t < lead_ws_len(x),
    ensures
        t < x.len(),
        is_white_space(x[t]),
    decreases x.len(),
{
    if t > 0 {
        lemma_lead_ws_white(x.drop_first(), t - 1);
    }
}

proof fn lemma_non_quote_run(s: Seq<char>, k: int, m: int)
    requires
        0 <= k,
        0 <= m,
        k + m < s.len(),
        forall|t: int| k <= t < k + m ==> !is_quote(#[trigger] s[t]),
        is_quote(s[k + m]),
    ensures
        non_quote_len(s.skip(k)) == m,
    decreases m,
{
    if m > 0 {
        assert(s.skip(k)[0] == s[k]);
        assert(s.skip(k).drop_first() =~= s.skip(k + 1));
        lemma_non_quote_run(s, k + 1, m - 1);
    } else {
        assert(s.skip(k)[0] == s[k]);
    }
}

/// Before the first quote of a source, no `require ( "..." )` call can start:
/// its quote would lie before the `require` that is assumed to be there.
proof fn lemma_no_call_before(s: Seq<char>, i: int, p: int)
    requires
        occurs_at(s, "require"@, i),
        0 <= p < i,
        forall|t: int| 0 <= t < i ==> !is_quote(#[trigger] s[t]),
    ensures
        lua_call_at(s, p) is None,
{
    reveal_strlit("require");
    if lua_call_at(s, p) is Some {
        let a = p + 7 + lead_ws_len(s.skip(p + 7));
        let b = a + 1 + lead_ws_len(s.skip(a + 1));
        lemma_lead_ws_len_bounds(s.skip(p + 7));
        lemma_lead_ws_len_bounds(s.skip(a + 1));
        assert(is_quote(s[b]));
        assert(b >= i);
        assert(s.subrange(i, i + 7)[0] == 'r');
        assert(s[i] == 'r');
        if i < p + 7 {
            assert(s.subrange(p, p + 7)[i - p] == s[i]);
            assert(i - p == 5);
            assert(s.subrange(i, i + 7)[2] == 'q');
            assert(s[p + 7] == 'q');
            if a > p + 7 {
                lemma_lead_ws_white(s.skip(p + 7), 0);
                assert(s.skip(p + 7)[0] == s[p + 7]);
            }
        } else if i < a {
            lemma_lead_ws_white(s.skip(p + 7), i - (p + 7));
            assert(s.skip(p + 7)[i - (p + 7)] == s[i]);
        } else if i > a {
            lemma_lead_ws_white(s.skip(a + 1), i - (a + 1));
            assert(s.skip(a + 1)[i - (a + 1)] == s[i]);
        }
    }
}

proof fn lemma_scan_reaches(s: Seq<char>, j: int, i: int, name: Seq<char>, e: int)
    requires
        0 <= j <= i < s.len(),
        forall|p: int| j <= p < i ==> lua_call_at(s, p) is None,
        lua_call_at(s, i) == Some((e, name)),
        i < e <= s.len(),
    ensures
        lua_scan(s, j, false).contains(name),
    decreases i - j,
{
    if j < i {
        lemma_scan_reaches(s, j + 1, i, name, e);
    } else {
        assert(lua_scan(s, i, false) == seq![name] + lua_scan(s, e, false));
        assert(lua_scan(s, i, false)[0] == name);
    }
}

/// A `require ( "NAME" )` call in a Lua source, with no quote before it, is
/// found: `require`, optional whitespace, `(`, optional whitespace, a quote,
/// a name of characters that are not quotes, a quote, optional whitespace and
/// `)` make the name one of the modules the source requires (so
/// `require( "widget" )` requires `widget`).
pub proof fn lemma_lua_call_found(s: Seq<char>, i: int, a: int, b: int, c: int, d: int)
    requires
        occurs_at(s, "require"@, i),
        i + 7 <= a && a < b && b + 1 < c && c < d && d < s.len(),
        forall|t: int| i + 7 <= t < a ==> is_white_space(#[trigger] s[t]),
        s[a] == '(',
        forall|t: int| a + 1 <= t < b ==> is_white_space(#[trigger] s[t]),
        is_quote(s[b]),
        forall|t: int| b + 1 <= t < c ==> !is_quote(#[trigger] s[t]),
        is_quote(s[c]),
        forall|t: int| c + 1 <= t < d ==> is_white_space(#[trigger] s[t]),
        s[d] == ')',
        forall|t: int| 0 <= t < i ==> !is_quote(#[trigger] s[t]),
    ensures
        lua_import_list(s).contains(s.subrange(b + 1, c)),
{
    reveal_strlit("require");
    lemma_lead_ws_run(s, i + 7, a - (i + 7));
    lemma_lead_ws_run(s, a + 1, b - (a + 1));
    lemma_non_quote_run(s, b + 1, c - (b + 1));
    lemma_lead_ws_run(s, c + 1, d - (c + 1));
    assert(lua_call_at(s, i) == Some((d + 1, s.subrange(b + 1, c))));
    assert forall|p: int| 0 <= p < i implies lua_call_at(s, p) is None by {
        lemma_no_call_before(s, i, p);
    }
    lemma_scan_reaches(s, 0, i, s.subrange(b + 1, c), d + 1);
    let l = lua_scan(s, 0, false);
    let k = choose|k: int| 0 <= k < l.len() && l[k] == s.subrange(b + 1, c);
    assert(lua_import_list(s)[k] == l[k]);
}

fn is_quote_char(c: char) -> (res: bool)
    ensures
        res == is_quote(c),
{
    c == '\'' || c == '"'
}

fn skip_non_quote(s: &Vec<char>, j: usize) -> (res: usize)
    requires
        j <= s.len(),
    ensures
        res == j + non_quote_len(s@.skip(j as int)),
        j <= res <= s.len(),
        res < s.len() ==> is_quote(s@[res as int]),
{
    let mut k = j;
    assert(s@.skip(j as int).skip(0) =~= s@.skip(j as int));
    while k < s.len() && !is_quote_char(s[k])
        invariant
            j <= k <= s.len(),
            non_quote_len(s@.skip(j as int)) == (k - j) + non_quote_len(s@.skip(k as int)),
        decreases s.len() - k,
    {
        assert(s@.skip(k as int).drop_first() =~= s@.skip(k + 1));
        k += 1;
    }
    k
}

fn lua_call_at_chars(s: &Vec<char>, i: usize, require: &Vec<char>) -> (res: Option<(usize, Vec<char>)>)
    requires
        i < s.len(),
        require@ == "require"@,
    ensures
        match res {
            Some((e, name)) => lua_call_at(s@, i as int) == Some((e as int, name@)) && i < e <= s.len(),
            None => lua_call_at(s@, i as int) is None,
        },
{
    proof {
        reveal_strlit("require");
    }
    if !occurs_at_chars(s, i, require) {
        return None;
    }
    let a = skip_ws(s, i + 7);
    if !(a < s.len() && s[a] == '(') {
        return None;
    }
    let b = skip_ws(s, a + 1);
    if !(b < s.len() && is_quote_char(s[b])) {
        return None;
    }
    let c = skip_non_quote(s, b + 1);
    if !(c > b + 1 && c < s.len()) {
        return None;
    }
    let d = skip_ws(s, c + 1);
    if !(d < s.len() && s[d] == ')') {
        return None;
    }
    Some((d + 1, slice_chars(s, b + 1, c)))
}

fn lua_bare_at_chars(s: &Vec<char>, i: usize, require: &Vec<char>) -> (res: Option<(usize, Vec<char>)>)
    requires
        i < s.len(),
        require@ == "require"@,
    ensures
        match res {
            Some((e, name)) => lua_bare_at(s@, i as int) == Some((e as int, name@)) && i < e <= s.len(),
            None => lua_bare_at(s@, i as int) is None,
        },
{
    proof {
        reveal_strlit("require");
    }
    if !occurs_at_chars(s, i, require) {
        return None;
    }
    let b = skip_ws(s, i + 7);
    if !(b > i + 7 && b < s.len() && is_quote_char(s[b])) {
        return None;
    }
    let c = skip_non_quote(s, b + 1);
    if !(c > b + 1 && c < s.len()) {
        return None;
    }
    Some((c + 1, slice_chars(s, b + 1, c)))
}

fn lua_scan_chars(s: &Vec<char>, bare: bool) -> (res: Vec<Vec<char>>)
    ensures
        res.deep_view() == lua_scan(s@, 0, bare),
{
    let require = chars_of("require");
    let mut out: Vec<Vec<char>> = Vec::new();
    let mut i: usize = 0;
    assert(out.deep_view() + lua_scan(s@, 0, bare) =~= lua_scan(s@, 0, bare));
    while i < s.len()
        invariant
            i <= s.len(),
            require@ == "require"@,
            lua_scan(s@, 0, bare) == out.deep_view() + lua_scan(s@, i as int, bare),
        decreases s.len() - i,
    {
        let m = if bare {
            lua_bare_at_chars(s, i, &require)
        } else {
            lua_call_at_chars(s, i, &require)
        };
        match m {
            Some((e, name)) => {
                let ghost nv = name@;
                let ghost before = out.deep_view();
                proof {
                    lemma_chars_deep_view(&name);
                }
                out.push(name);
                assert(out.deep_view() =~= before.push(nv));
                assert(lua_scan(s@, 0, bare) =~= out.deep_view() + lua_scan(s@, e as int, bare));
                i = e;
            },
            None => {
                i += 1;
            },
        }
    }
    assert(out.deep_view() + lua_scan(s@, i as int, bare) =~= out.deep_view());
    out
}

/// The modules that a Lua source requires, sorted, each once.
pub fn lua_imports_from_source(source: &str) -> (res: Vec<String>)
    ensures
        is_sorted_set_of(res.deep_view(), lua_import_list(source@)),
{
    let s = chars_of(source);
    let calls = lua_scan_chars(&s, false);
    let bare = lua_scan_chars(&s, true);
    let mut all = calls;
    let mut j: usize = 0;
    let ghost first = all.deep_view();
    while j < bare.len()
        invariant
            j <= bare.len(),
            all.deep_view() == first + bare.deep_view().take(j as int),
        decreases bare.len() - j,
    {
        proof {
            lemma_chars_deep_view(&bare@[j as int]);
        }
        let x = slice_chars(&bare[j], 0, bare[j].len());
        assert(x@ =~= bare.deep_view()[j as int]);
        let ghost prev = all.deep_view();
        proof {
            lemma_chars_deep_view(&x);
        }
        all.push(x);
        assert(all.deep_view() =~= prev.push(bare.deep_view()[j as int]));
        j += 1;
        assert(all.deep_view() =~= first + bare.deep_view().take(j as int));
    }
    assert(bare.deep_view().take(j as int) =~= bare.deep_view());
    let sorted = sorted_unique(&all);
    strings_of(&sorted)
}


// ---------------------------------------------------------------------------
// JavaScript.
/// The first quote at or after position `r` of `s`, if one comes before any
/// newline.
pub open spec fn first_quote_from(s: Seq<char>, r: int) -> Option<int>
    decreases s.len() - r,
{
    if r < 0 || r >= s.len() {
        None
    } else if is_quote(s[r]) {
        Some(r)
    } else if s[r] == '\n' {
        None
    } else {
        first_quote_from(s, r + 1)
    }
}

/// The first quote followed by `)` at or after position `r` of `s`, if one
/// comes before any newline.
pub open spec fn first_close_from(s: Seq<char>, r: int) -> Option<int>
    decreases s.len() - r,
{
    if r < 0 || r >= s.len() {
        None
    } else if is_quote(s[r]) && r + 1 < s.len() && s[r + 1] == ')' {
        Some(r)
    } else if s[r] == '\n' {
        None
    } else {
        first_close_from(s, r + 1)
    }
}

/// The end and the name of a `from "NAME"` clause that starts at position `p`:
/// `from`, whitespace, a quote, then the shortest name of one or more
/// characters, none a newline, that a quote follows.
pub open spec fn js_from_at(s: Seq<char>, p: int) -> Option<(int, Seq<char>)> {
    if !occurs_at(s, "from"@, p) {
        None
    } else {
        let w = lead_ws_len(s.skip(p + 4));
        let q = p + 4 + w;
        if !(w > 0 && q < s.len() && is_quote(s[q]) && q + 1 < s.len() && s[q + 1] != '\n') {
            None
        } else {
            match first_quote_from(s, q + 2) {
                Some(r) => Some((r + 1, s.subrange(q + 1, r))),
                None => None,
            }
        }
    }
}

/// The first `from` clause at or after position `p`, looking no further than
/// the end of the line.
pub open spec fn js_from_search(s: Seq<char>, p: int) -> Option<(int, Seq<char>)>
    decreases s.len() - p,
{
    if p < 0 || p > s.len() {
        None
    } else {
        match js_from_at(s, p) {
            Some(m) => Some(m),
            None => if p < s.len() && s[p] != '\n' {
                js_from_search(s, p + 1)
            } else {
                None
            },
        }
    }
}

/// An `import ... from "NAME"` statement that starts at position `i`:
/// `import`, whitespace, then the first `from` clause on the line.
pub open spec fn js_import_at(s: Seq<char>, i: int) -> Option<(int, Seq<char>)> {
    if !occurs_at(s, "import"@, i) {
        None
    } else {
        let w = lead_ws_len(s.skip(i + 6));
        if w > 0 {
            js_from_search(s, i + 6 + w)
        } else {
            None
        }
    }
}

/// A `require("NAME")` call that starts at position `i`: `require(`, a quote,
/// then the shortest name of one or more characters, none a newline, that a
/// quote and `)` follow.
pub open spec fn js_require_at(s: Seq<char>, i: int) -> Option<(int, Seq<char>)> {
    if !(occurs_at(s, "require("@, i) && i + 9 < s.len() && is_quote(s[i + 8]) && s[i + 9]
        != '\n') {
        None
    } else {
        match first_close_from(s, i + 10) {
            Some(r) => Some((r + 2, s.subrange(i + 9, r))),
            None => None,
        }
    }
}

/// The import statement or require call that starts at position `i`, the
/// statement taken first.
pub open spec fn js_match_at(s: Seq<char>, i: int) -> Option<(int, Seq<char>)> {
    match js_import_at(s, i) {
        Some(m) => Some(m),
        None => js_require_at(s, i),
    }
}

/// The names of the successive imports from position `i` on.
pub open spec fn js_scan(s: Seq<char>, i: int) -> Seq<Seq<char>>
    decreases s.len() - i,
{
    if i < 0 || i >= s.len() {
        Seq::empty()
    } else {
        match js_match_at(s, i) {
            Some((e, name)) => if i < e <= s.len() {
                seq![name] + js_scan(s, e)
            } else {
                Seq::empty()
            },
            None => js_scan(s, i + 1),
        }
    }
}

/// The modules that a JavaScript source imports, in order.
pub open spec fn js_import_list(source: Seq<char>) -> Seq<Seq<char>> {
    js_scan(source, 0)
}

fn first_quote_from_chars(s: &Vec<char>, r: usize) -> (res: Option<usize>)
    requires
        r <= s.len(),
    ensures
        match res {
            Some(k) => first_quote_from(s@, r as int) == Some(k as int) && r <= k < s.len(),
            None => first_quote_from(s@, r as int) is None,
        },
{
    let mut k = r;
    while k < s.len()
        invariant
            r <= k <= s.len(),
            first_quote_from(s@, r as int) == first_quote_from(s@, k as int),
        decreases s.len() - k,
    {
        if is_quote_char(s[k]) {
            return Some(k);
        }
        if s[k] == '\n' {
            return None;
        }
        k += 1;
    }
    None
}

fn first_close_from_chars(s: &Vec<char>, r: usize) -> (res: Option<usize>)
    requires
        r <= s.len(),
    ensures
        match res {
            Some(k) => first_close_from(s@, r as int) == Some(k as int) && r <= k && k + 1 < s.len(),
            None => first_close_from(s@, r as int) is None,
        },
{
    let mut k = r;
    while k < s.len()
        invariant
            r <= k <= s.len(),
            first_close_from(s@, r as int) == first_close_from(s@, k as int),
        decreases s.len() - k,
    {
        if is_quote_char(s[k]) && k + 1 < s.len() && s[k + 1] == ')' {
            return Some(k);
        }
        if s[k] == '\n' {
            return None;
        }
        k += 1;
    }
    None
}

fn js_from_at_chars(s: &Vec<char>, p: usize, from_kw: &Vec<char>) -> (res: Option<(usize, Vec<char>)>)
    requires
        p <= s.len(),
        from_kw@ == "from"@,
    ensures
        match res {
            Some((e, name)) => js_from_at(s@, p as int) == Some((e as int, name@)) && p < e <= s.len(),
            None => js_from_at(s@, p as int) is None,
        },
{
    proof {
        reveal_strlit("from");
    }
    if !occurs_at_chars(s, p, from_kw) {
        return None;
    }
    let q = skip_ws(s, p + 4);
    if !(q > p + 4 && q < s.len() && is_quote_char(s[q]) && q + 1 < s.len() && s[q + 1] != '\n') {
        return None;
    }
    match first_quote_from_chars(s, q + 2) {
        Some(r) => Some((r + 1, slice_chars(s, q + 1, r))),
        None => None,
    }
}

fn js_from_search_chars(s: &Vec<char>, p: usize, from_kw: &Vec<char>) -> (res: Option<(usize, Vec<char>)>)
    requires
        p <= s.len(),
        from_kw@ == "from"@,
    ensures
        match res {
            Some((e, name)) => js_from_search(s@, p as int) == Some((e as int, name@)) && p < e <= s.len(),
            None => js_from_search(s@, p as int) is None,
        },
{
    let mut k = p;
    loop
        invariant
            p <= k <= s.len(),
            from_kw@ == "from"@,
            js_from_search(s@, p as int) == js_from_search(s@, k as int),
        decreases s.len() - k,
    {
        match js_from_at_chars(s, k, from_kw) {
            Some((e, name)) => {
                return Some((e, name));
            },
            None => {},
        }
        if k < s.len() && s[k] != '\n' {
            k += 1;
        } else {
            return None;
        }
    }
}

fn js_match_at_chars(s: &Vec<char>, i: usize, import_kw: &Vec<char>, from_kw: &Vec<char>, require_kw: &Vec<char>) -> (res: Option<(usize, Vec<char>)>)
    requires
        i < s.len(),
        import_kw@ == "import"@,
        from_kw@ == "from"@,
        require_kw@ == "require("@,
    ensures
        match res {
            Some((e, name)) => js_match_at(s@, i as int) == Some((e as int, name@)) && i < e <= s.len(),
            None => js_match_at(s@, i as int) is None,
        },
{
    proof {
        reveal_strlit("import");
        reveal_strlit("require(");
    }
    if occurs_at_chars(s, i, import_kw) {
        let p = skip_ws(s, i + 6);
        if p > i + 6 {
            match js_from_search_chars(s, p, from_kw) {
                Some(m) => {
                    return Some(m);
                },
                None => {},
            }
        }
    }
    if occurs_at_chars(s, i, require_kw) && s.len() - i > 9 && is_quote_char(s[i + 8]) && s[i + 9]
        != '\n' {
        match first_close_from_chars(s, i + 10) {
            Some(r) => Some((r + 2, slice_chars(s, i + 9, r))),
            None => None,
        }
    } else {
        None
    }
}

/// The modules that a JavaScript source imports, in order.
pub fn js_imports_from_source(source: &str) -> (res: Vec<String>)
    ensures
        res.deep_view() == js_import_list(source@),
{
    let s = chars_of(source);
    let import_kw = chars_of("import");
    let from_kw = chars_of("from");
    let require_kw = chars_of("require(");
    let mut out: Vec<Vec<char>> = Vec::new();
    let mut i: usize = 0;
    assert(out.deep_view() + js_scan(s@, 0) =~= js_scan(s@, 0));
    while i < s.len()
        invariant
            i <= s.len(),
            import_kw@ == "import"@,
            from_kw@ == "from"@,
            require_kw@ == "require("@,
            js_scan(s@, 0) == out.deep_view() + js_scan(s@, i as int),
        decreases s.len() - i,
    {
        match js_match_at_chars(&s, i, &import_kw, &from_kw, &require_kw) {
            Some((e, name)) => {
                let ghost nv = name@;
                let ghost before = out.deep_view();
                proof {
                    lemma_chars_deep_view(&name);
                }
                out.push(name);
                assert(out.deep_view() =~= before.push(nv));
                assert(js_scan(s@, 0) =~= out.deep_view() + js_scan(s@, e as int));
                i = e;
            },
            None => {
                i += 1;
            },
        }
    }
    assert(out.deep_view() + js_scan(s@, i as int) =~= out.deep_view());
    strings_of(&out)
}

} // verus!
