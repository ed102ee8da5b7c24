//! Character-level text helpers.
//!
//! Strings are handled as sequences of `char`s. Whitespace is the Unicode
//! `White_Space` property, which is what `char::is_whitespace`, `str::trim`
//! and `str::split_whitespace` use, and what `\s` matches in a Unicode regex.
use vstd::prelude::*;

verus! {

/// The Unicode `White_Space` property.
pub open spec fn is_white_space(c: char) -> bool {
    let u = c as u32;
    ||| 0x09 <= u <= 0x0D
    ||| u == 0x20
    ||| u == 0x85
    ||| u == 0xA0
    ||| u == 0x1680
    ||| 0x2000 <= u <= 0x200A
    ||| u == 0x2028
    ||| u == 0x2029
    ||| u == 0x202F
    ||| u == 0x205F
    ||| u == 0x3000
}

/// Whether `c` is a whitespace character.
pub fn is_whitespace_char(c: char) -> (b: bool)
    ensures
        b == is_white_space(c),
{
    let u = c as u32;
    (0x09 <= u && u <= 0x0D) || u == 0x20 || u == 0x85 || u == 0xA0 || u == 0x1680 || (0x2000
        <= u && u <= 0x200A) || u == 0x2028 || u == 0x2029 || u == 0x202F || u == 0x205F || u
        == 0x3000
}

/// `s` without its leading whitespace.
pub open spec fn trim_start(s: Seq<char>) -> Seq<char>
    decreases s.len(),
{
    if s.len() > 0 && is_white_space(s[0]) {
        trim_start(s.drop_first())
    } else {
        s
    }
}

/// `s` without its trailing whitespace.
pub open spec fn trim_end(s: Seq<char>) -> Seq<char>
    decreases s.len(),
{
    if s.len() > 0 && is_white_space(s.last()) {
        trim_end(s.drop_last())
    } else {
        s
    }
}

/// `s` without leading and trailing whitespace, as `str::trim` gives it.
pub open spec fn trim(s: Seq<char>) -> Seq<char> {
    trim_end(trim_start(s))
}

/// The longest prefix of `s` that holds no whitespace.
pub open spec fn non_white_prefix(s: Seq<char>) -> Seq<char>
    decreases s.len(),
{
    if s.len() > 0 && !is_white_space(s[0]) {
        seq![s[0]] + non_white_prefix(s.drop_first())
    } else {
        Seq::empty()
    }
}

/// The first whitespace-separated word of `s`, or the empty sequence when there
/// is none (`s.split_whitespace().next().unwrap_or("")`).
pub open spec fn first_word(s: Seq<char>) -> Seq<char> {
    non_white_prefix(trim_start(s))
}

/// The part of `s` before the first `c`, or all of `s` (`s.split(c).next()`).
pub open spec fn prefix_before(s: Seq<char>, c: char) -> Seq<char>
    decreases s.len(),
{
    if s.len() == 0 || s[0] == c {
        Seq::empty()
    } else {
        seq![s[0]] + prefix_before(s.drop_first(), c)
    }
}

/// The pieces of `s` between occurrences of `c`, given that the piece being
/// collected so far is `cur`.
pub open spec fn split_from(s: Seq<char>, c: char, cur: Seq<char>) -> Seq<Seq<char>>
    decreases s.len(),
{
    if s.len() == 0 {
        seq![cur]
    } else if s[0] == c {
        seq![cur] + split_from(s.drop_first(), c, Seq::empty())
    } else {
        split_from(s.drop_first(), c, cur.push(s[0]))
    }
}

/// The pieces of `s` between occurrences of `c`, as `str::split` gives them:
/// there is always at least one piece.
pub open spec fn split_on(s: Seq<char>, c: char) -> Seq<Seq<char>> {
    split_from(s, c, Seq::empty())
}

/// Text without `c` is one piece, the collected characters and the text.
pub proof fn lemma_split_from_whole(s: Seq<char>, c: char, cur: Seq<char>)
    requires
        !s.contains(c),
    ensures
        split_from(s, c, cur) == seq![cur + s],
    decreases s.len(),
{
    if s.len() == 0 {
        assert(cur + s =~= cur);
    } else {
        assert(s[0] != c);
        assert(!s.drop_first().contains(c)) by {
            if s.drop_first().contains(c) {
                let i = choose|i: int| 0 <= i < s.drop_first().len() && s.drop_first()[i] == c;
                assert(s[i + 1] == c);
            }
        }
        lemma_split_from_whole(s.drop_first(), c, cur.push(s[0]));
        assert(cur.push(s[0]) + s.drop_first() =~= cur + s);
    }
}

/// Splitting at a separator splits the text on each side of it.
pub proof fn lemma_split_from_around(a: Seq<char>, b: Seq<char>, c: char, cur: Seq<char>)
    ensures
        split_from(a + seq![c] + b, c, cur) == split_from(a, c, cur) + split_from(b, c, Seq::empty()),
    decreases a.len(),
{
    let s = a + seq![c] + b;
    if a.len() == 0 {
        assert(s.drop_first() =~= b);
        assert(s[0] == c);
    } else {
        assert(s[0] == a[0]);
        assert(s.drop_first() =~= a.drop_first() + seq![c] + b);
        if a[0] == c {
            lemma_split_from_around(a.drop_first(), b, c, Seq::empty());
            assert(seq![cur] + (split_from(a.drop_first(), c, Seq::empty()) + split_from(b, c, Seq::empty()))
                =~= seq![cur] + split_from(a.drop_first(), c, Seq::empty()) + split_from(b, c, Seq::empty()));
        } else {
            lemma_split_from_around(a.drop_first(), b, c, cur.push(a[0]));
        }
    }
}

/// `split_on` at a separator between two texts.
pub proof fn lemma_split_on_around(a: Seq<char>, b: Seq<char>, c: char)
    ensures
        split_on(a + seq![c] + b, c) == split_on(a, c) + split_on(b, c),
{
    lemma_split_from_around(a, b, c, Seq::empty());
}

/// Pieces without `c` joined with `c`, then followed by `e` without `c`,
/// split at `c` into the pieces again, `e` added to the last.
pub proof fn lemma_split_on_joined(q: Seq<Seq<char>>, e: Seq<char>, c: char)
    requires
        q.len() > 0,
        forall|i: int| 0 <= i < q.len() ==> !(#[trigger] q[i]).contains(c),
        !e.contains(c),
    ensures
        split_on(join_with(q, seq![c]) + e, c) == q.update(q.len() - 1, q.last() + e),
    decreases q.len(),
{
    if q.len() == 1 {
        assert(!(q[0] + e).contains(c)) by {
            if (q[0] + e).contains(c) {
                let i = choose|i: int| 0 <= i < (q[0] + e).len() && (q[0] + e)[i] == c;
                if i < q[0].len() {
                    assert(q[0][i] == c);
                } else {
                    assert(e[i - q[0].len()] == c);
                }
            }
        }
        lemma_split_from_whole(q[0] + e, c, Seq::empty());
        assert(Seq::<char>::empty() + (q[0] + e) =~= q[0] + e);
        assert(q.update(0, q.last() + e) =~= seq![q[0] + e]);
    } else {
        let init = q.drop_last();
        lemma_split_on_joined(init, Seq::empty(), c);
        assert(join_with(init, seq![c]) + Seq::<char>::empty() =~= join_with(init, seq![c]));
        assert(init.update(init.len() - 1, init.last() + Seq::<char>::empty()) =~= init);
        assert(join_with(q, seq![c]) + e =~= join_with(init, seq![c]) + seq![c] + (q.last() + e));
        lemma_split_on_around(join_with(init, seq![c]), q.last() + e, c);
        lemma_split_on_joined(seq![q.last()], e, c);
        assert(join_with(seq![q.last()], seq![c]) == q.last());
        assert(seq![q.last()].update(0, q.last() + e) =~= seq![q.last() + e]);
        assert(q.update(q.len() - 1, q.last() + e) =~= init + seq![q.last() + e]);
    }
}

/// Replacing the separator of joined pieces that do not hold it.
pub proof fn lemma_replace_joined(q: Seq<Seq<char>>, a: char, b: char)
    requires
        forall|i: int| 0 <= i < q.len() ==> !(#[trigger] q[i]).contains(a),
    ensures
        replace_char(join_with(q, seq![a]), a, b) == join_with(q, seq![b]),
    decreases q.len(),
{
    if q.len() == 0 {
        assert(replace_char(Seq::empty(), a, b) =~= Seq::<char>::empty());
    } else {
        let l = q.last();
        assert(replace_char(l, a, b) =~= l) by {
            assert forall|i: int| 0 <= i < l.len() implies l[i] != a by {
                assert(q[q.len() - 1] == l);
                if l[i] == a {
                    assert(l.contains(a));
                }
            }
        }
        if q.len() > 1 {
            let init = q.drop_last();
            lemma_replace_joined(init, a, b);
            let x = join_with(init, seq![a]);
            assert(replace_char(x + seq![a] + l, a, b) =~= replace_char(x, a, b) + seq![b] + replace_char(l, a, b));
        }
    }
}

/// `line` without one trailing carriage return.
pub open spec fn strip_cr(line: Seq<char>) -> Seq<char> {
    if line.len() > 0 && line.last() == '\r' {
        line.drop_last()
    } else {
        line
    }
}

/// The lines of `s` given that the line being collected so far is `cur`.
pub open spec fn lines_from(s: Seq<char>, cur: Seq<char>) -> Seq<Seq<char>>
    decreases s.len(),
{
    if s.len() == 0 {
        if cur.len() == 0 {
            Seq::empty()
        } else {
            seq![cur]
        }
    } else if s[0] == '\n' {
        seq![strip_cr(cur)] + lines_from(s.drop_first(), Seq::empty())
    } else {
        lines_from(s.drop_first(), cur.push(s[0]))
    }
}

/// The lines of `s`, as `str::lines` gives them: split at `\n`, one `\r`
/// before the `\n` removed, and no empty line after a final `\n`.
pub open spec fn lines_of(s: Seq<char>) -> Seq<Seq<char>> {
    lines_from(s, Seq::empty())
}

/// The lines of `s` given that the line being collected so far is `cur`,
/// when a `\n` follows `s`: the last line is closed too, even when empty.
pub open spec fn closed_lines(s: Seq<char>, cur: Seq<char>) -> Seq<Seq<char>>
    decreases s.len(),
{
    if s.len() == 0 {
        seq![strip_cr(cur)]
    } else if s[0] == '\n' {
        seq![strip_cr(cur)] + closed_lines(s.drop_first(), Seq::empty())
    } else {
        closed_lines(s.drop_first(), cur.push(s[0]))
    }
}

/// The lines of two texts joined by a `\n`: those of the first, its last
/// line closed, then those of the second.
pub proof fn lemma_lines_from_joined(a: Seq<char>, b: Seq<char>, cur: Seq<char>)
    ensures
        lines_from(a + seq!['\n'] + b, cur) == closed_lines(a, cur) + lines_from(b, Seq::empty()),
    decreases a.len(),
{
    let s = a + seq!['\n'] + b;
    if a.len() == 0 {
        assert(s[0] == '\n');
        assert(s.drop_first() =~= b);
    } else {
        assert(s[0] == a[0]);
        assert(s.drop_first() =~= a.drop_first() + seq!['\n'] + b);
        if a[0] == '\n' {
            lemma_lines_from_joined(a.drop_first(), b, Seq::empty());
            assert(seq![strip_cr(cur)] + (closed_lines(a.drop_first(), Seq::empty()) + lines_from(
                b,
                Seq::empty(),
            )) =~= seq![strip_cr(cur)] + closed_lines(a.drop_first(), Seq::empty()) + lines_from(
                b,
                Seq::empty(),
            ));
        } else {
            lemma_lines_from_joined(a.drop_first(), b, cur.push(a[0]));
        }
    }
}

proof fn lemma_trim_start_push(x: Seq<char>, w: char)
    requires
        is_white_space(w),
    ensures
        trim_start(x.push(w)) == (if trim_start(x).len() == 0 {
            Seq::<char>::empty()
        } else {
            trim_start(x).push(w)
        }),
    decreases x.len(),
{
    let y = x.push(w);
    if x.len() == 0 {
        assert(y.drop_first() =~= Seq::<char>::empty());
        assert(trim_start(Seq::<char>::empty()) == Seq::<char>::empty());
        assert(trim_start(y) == trim_start(y.drop_first()));
    } else if is_white_space(x[0]) {
        assert(y[0] == x[0]);
        assert(y.drop_first() =~= x.drop_first().push(w));
        lemma_trim_start_push(x.drop_first(), w);
    } else {
        assert(y[0] == x[0]);
    }
}

/// A trailing whitespace character does not change what `trim` gives.
pub proof fn lemma_trim_push_white(x: Seq<char>, w: char)
    requires
        is_white_space(w),
    ensures
        trim(x.push(w)) == trim(x),
{
    lemma_trim_start_push(x, w);
    let t = trim_start(x);
    if t.len() > 0 {
        assert(t.push(w).drop_last() =~= t);
    }
}

/// A character other than `c` at the end of `x` stays in what comes before
/// the first `c` only when `x` holds no `c`; text without `c` is all before it.
pub proof fn lemma_prefix_before_push(x: Seq<char>, d: char, c: char)
    requires
        d != c,
    ensures
        prefix_before(x.push(d), c) == (if x.contains(c) {
            prefix_before(x, c)
        } else {
            x.push(d)
        }),
        !x.contains(c) ==> prefix_before(x, c) == x,
    decreases x.len(),
{
    let y = x.push(d);
    if x.len() == 0 {
        assert(y.drop_first() =~= Seq::<char>::empty());
        assert(prefix_before(Seq::<char>::empty(), c) == Seq::<char>::empty());
        assert(prefix_before(y, c) == seq![d] + prefix_before(y.drop_first(), c));
        assert(seq![d] + Seq::<char>::empty() =~= y);
        assert(!x.contains(c));
    } else {
        assert(y[0] == x[0]);
        assert(y.drop_first() =~= x.drop_first().push(d));
        if x[0] != c {
            lemma_prefix_before_push(x.drop_first(), d, c);
            assert(x.contains(c) == x.drop_first().contains(c)) by {
                if x.contains(c) {
                    let i = choose|i: int| 0 <= i < x.len() && x[i] == c;
                    assert(x.drop_first()[i - 1] == c);
                }
                if x.drop_first().contains(c) {
                    let i = choose|i: int| 0 <= i < x.drop_first().len() && x.drop_first()[i] == c;
                    assert(x[i + 1] == c);
                }
            }
            assert(seq![x[0]] + x.drop_first().push(d) =~= y);
            assert(seq![x[0]] + x.drop_first() =~= x);
        } else {
            assert(x.contains(c));
        }
    }
}

/// Whether `s` begins with `p`.
pub open spec fn has_prefix(s: Seq<char>, p: Seq<char>) -> bool {
    p.len() <= s.len() && s.take(p.len() as int) == p
}

/// Whether `s` ends with `p`.
pub open spec fn has_suffix(s: Seq<char>, p: Seq<char>) -> bool {
    p.len() <= s.len() && s.skip(s.len() - p.len()) == p
}

/// Whether `p` occurs in `s` at position `i`.
pub open spec fn occurs_at(s: Seq<char>, p: Seq<char>, i: int) -> bool {
    0 <= i && i + p.len() <= s.len() && s.subrange(i, i + p.len()) == p
}

/// Whether `p` occurs in `s`.
pub open spec fn has_infix(s: Seq<char>, p: Seq<char>) -> bool {
    exists|i: int| occurs_at(s, p, i)
}

/// The ASCII lowercase of a character.
pub open spec fn ascii_lower_char(c: char) -> char {
    if 'A' <= c && c <= 'Z' {
        ((c as u32) + 32) as char
    } else {
        c
    }
}

/// `s` with ASCII letters made lowercase (`str::to_ascii_lowercase`).
pub open spec fn ascii_lower(s: Seq<char>) -> Seq<char> {
    s.map_values(|c: char| ascii_lower_char(c))
}

/// `s` with every `a` replaced by `b`.
pub open spec fn replace_char(s: Seq<char>, a: char, b: char) -> Seq<char> {
    s.map_values(|c: char| if c == a { b } else { c })
}

/// The pieces joined with `sep` between them (`[..].join(sep)`).
pub open spec fn join_with(parts: Seq<Seq<char>>, sep: Seq<char>) -> Seq<char>
    decreases parts.len(),
{
    if parts.len() == 0 {
        Seq::empty()
    } else if parts.len() == 1 {
        parts[0]
    } else {
        join_with(parts.drop_last(), sep) + sep + parts.last()
    }
}

/// Lexicographic order on character sequences, by code point. This is the
/// order of `String` and `str`, since UTF-8 keeps the order of code points.
pub open spec fn text_lt(a: Seq<char>, b: Seq<char>) -> bool
    decreases a.len(),
{
    if a.len() == 0 {
        b.len() > 0
    } else if b.len() == 0 {
        false
    } else if a[0] != b[0] {
        a[0] < b[0]
    } else {
        text_lt(a.drop_first(), b.drop_first())
    }
}

/// A sequence of texts in strictly increasing order.
pub open spec fn strictly_sorted(s: Seq<Seq<char>>) -> bool {
    forall|i: int, j: int| 0 <= i < j < s.len() ==> text_lt(s[i], s[j])
}

/// The sorted sequence without duplicates that holds exactly the texts of `s`
/// (what `sort` then `dedup` leaves).
pub open spec fn is_sorted_set_of(r: Seq<Seq<char>>, s: Seq<Seq<char>>) -> bool {
    &&& strictly_sorted(r)
    &&& forall|x: Seq<char>| r.contains(x) <==> s.contains(x)
}

pub proof fn lemma_text_lt_irreflexive(a: Seq<char>)
    ensures
        !text_lt(a, a),
    decreases a.len(),
{
    if a.len() > 0 {
        lemma_text_lt_irreflexive(a.drop_first());
    }
}

pub proof fn lemma_text_lt_transitive(a: Seq<char>, b: Seq<char>, c: Seq<char>)
    requires
        text_lt(a, b),
        text_lt(b, c),
    ensures
        text_lt(a, c),
    decreases a.len(),
{
    if a.len() > 0 && b.len() > 0 && c.len() > 0 {
        if a[0] == b[0] && b[0] == c[0] {
            lemma_text_lt_transitive(a.drop_first(), b.drop_first(), c.drop_first());
        }
    }
}

pub proof fn lemma_text_lt_total(a: Seq<char>, b: Seq<char>)
    ensures
        a == b || text_lt(a, b) || text_lt(b, a),
    decreases a.len(),
{
    if a.len() > 0 && b.len() > 0 {
        if a[0] == b[0] {
            lemma_text_lt_total(a.drop_first(), b.drop_first());
            if a.drop_first() == b.drop_first() {
                assert(a =~= seq![a[0]] + a.drop_first());
                assert(b =~= seq![b[0]] + b.drop_first());
            }
        }
    } else if a.len() == 0 && b.len() == 0 {
        assert(a =~= b);
    }
}

pub proof fn lemma_text_lt_asymmetric(a: Seq<char>, b: Seq<char>)
    requires
        text_lt(a, b),
    ensures
        !text_lt(b, a),
{
    if text_lt(b, a) {
        lemma_text_lt_transitive(a, b, a);
        lemma_text_lt_irreflexive(a);
    }
}

pub proof fn lemma_chars_deep_view(v: &Vec<char>)
    ensures
        v.deep_view() == v@,
{
    assert(v.deep_view() =~= v@);
}

/// The characters of `s`, in order.
pub fn chars_of(s: &str) -> (res: Vec<char>)
    ensures
        res@ == s@,
{
    let mut res: Vec<char> = Vec::new();
    for c in it: s.chars()
        invariant
            res@ == it.seq().take(it.index() as int),
    {
        res.push(c);
    }
    res
}

/// The string made of `cs`, collected by `String`'s `FromIterator<&char>`;
/// the contract claims that it holds exactly those characters, in order.
#[verifier::external_body]
pub(crate) fn string_of(cs: &Vec<char>) -> (res: String)
    ensures
        res@ == cs@,
{
    cs.iter().collect()
}

/// A copy of `s[from..to]`.
pub fn slice_chars(s: &Vec<char>, from: usize, to: usize) -> (res: Vec<char>)
    requires
        from <= to <= s.len(),
    ensures
        res@ == s@.subrange(from as int, to as int),
{
    let mut res: Vec<char> = Vec::new();
    let mut i = from;
    while i < to
        invariant
            from <= i <= to <= s.len(),
            res@ == s@.subrange(from as int, i as int),
        decreases to - i,
    {
        res.push(s[i]);
        i += 1;
    }
    res
}

/// A copy of `s`.
pub fn copy_chars(s: &Vec<char>) -> (res: Vec<char>)
    ensures
        res@ == s@,
{
    let res = slice_chars(s, 0, s.len());
    assert(res@ =~= s@);
    res
}

/// `a` followed by `b`.
pub fn concat_chars(a: &Vec<char>, b: &Vec<char>) -> (res: Vec<char>)
    ensures
        res@ == a@ + b@,
{
    let mut res = a.clone();
    let mut i: usize = 0;
    while i < b.len()
        invariant
            i <= b.len(),
            res@ == a@ + b@.take(i as int),
        decreases b.len() - i,
    {
        res.push(b[i]);
        i += 1;
        assert(b@.take(i as int) =~= b@.take((i - 1) as int).push(b@[i - 1]));
    }
    assert(b@.take(b.len() as int) =~= b@);
    res
}

/// Whether `a` and `b` hold the same characters.
pub fn chars_equal(a: &Vec<char>, b: &Vec<char>) -> (res: bool)
    ensures
        res == (a@ == b@),
{
    if a.len() != b.len() {
        return false;
    }
    let mut i: usize = 0;
    while i < a.len()
        invariant
            a.len() == b.len(),
            i <= a.len(),
            a@.take(i as int) == b@.take(i as int),
        decreases a.len() - i,
    {
        if a[i] != b[i] {
            return false;
        }
        i += 1;
        assert(a@.take(i as int) =~= a@.take((i - 1) as int).push(a@[i - 1]));
        assert(b@.take(i as int) =~= b@.take((i - 1) as int).push(b@[i - 1]));
    }
    assert(a@ =~= a@.take(i as int));
    assert(b@ =~= b@.take(i as int));
    true
}

/// Whether `s` begins with `p` (`str::starts_with`).
pub fn starts_with_chars(s: &Vec<char>, p: &Vec<char>) -> (res: bool)
    ensures
        res == has_prefix(s@, p@),
{
    if p.len() > s.len() {
        return false;
    }
    let head = slice_chars(s, 0, p.len());
    assert(head@ =~= s@.take(p.len() as int));
    chars_equal(&head, p)
}

/// Whether `s` ends with `p` (`str::ends_with`).
pub fn ends_with_chars(s: &Vec<char>, p: &Vec<char>) -> (res: bool)
    ensures
        res == has_suffix(s@, p@),
{
    if p.len() > s.len() {
        return false;
    }
    let tail = slice_chars(s, s.len() - p.len(), s.len());
    assert(tail@ =~= s@.skip(s.len() - p.len()));
    chars_equal(&tail, p)
}

/// Whether `p` occurs in `s` (`str::contains`).
pub fn contains_chars(s: &Vec<char>, p: &Vec<char>) -> (res: bool)
    ensures
        res == has_infix(s@, p@),
{
    if p.len() > s.len() {
        assert forall|i: int| !occurs_at(s@, p@, i) by {}
        return false;
    }
    let last = s.len() - p.len();
    let mut i: usize = 0;
    loop
        invariant
            p.len() <= s.len(),
            last == s.len() - p.len(),
            i <= last,
            forall|k: int| 0 <= k < i ==> !occurs_at(s@, p@, k),
        ensures
            forall|k: int| 0 <= k <= last ==> !occurs_at(s@, p@, k),
        decreases last - i,
    {
        let piece = slice_chars(s, i, i + p.len());
        if chars_equal(&piece, p) {
            assert(occurs_at(s@, p@, i as int));
            return true;
        }
        assert(!occurs_at(s@, p@, i as int));
        if i == last {
            break;
        }
        i += 1;
    }
    assert forall|k: int| !occurs_at(s@, p@, k) by {
        if 0 <= k <= last {
        }
    }
    false
}

/// `s` without leading whitespace (`str::trim_start`).
pub fn trim_start_chars(s: &Vec<char>) -> (res: Vec<char>)
    ensures
        res@ == trim_start(s@),
{
    let mut i: usize = 0;
    assert(s@.skip(0) =~= s@);
    while i < s.len() && is_whitespace_char(s[i])
        invariant
            i <= s.len(),
            trim_start(s@) == trim_start(s@.skip(i as int)),
        decreases s.len() - i,
    {
        assert(s@.skip(i as int).drop_first() =~= s@.skip(i + 1));
        i += 1;
    }
    slice_chars(s, i, s.len())
}

/// `s` without trailing whitespace (`str::trim_end`).
pub fn trim_end_chars(s: &Vec<char>) -> (res: Vec<char>)
    ensures
        res@ == trim_end(s@),
{
    let mut j: usize = s.len();
    assert(s@.take(j as int) =~= s@);
    while j > 0 && is_whitespace_char(s[j - 1])
        invariant
            j <= s.len(),
            trim_end(s@) == trim_end(s@.take(j as int)),
        decreases j,
    {
        assert(s@.take(j as int).drop_last() =~= s@.take(j - 1));
        j -= 1;
    }
    let res = slice_chars(s, 0, j);
    assert(res@ =~= s@.take(j as int));
    res
}

/// `s` without leading and trailing whitespace (`str::trim`).
pub fn trim_chars(s: &Vec<char>) -> (res: Vec<char>)
    ensures
        res@ == trim(s@),
{
    let t = trim_start_chars(s);
    trim_end_chars(&t)
}

/// The first whitespace-separated word of `s`, or nothing.
pub fn first_word_chars(s: &Vec<char>) -> (res: Vec<char>)
    ensures
        res@ == first_word(s@),
{
    let t = trim_start_chars(s);
    let mut i: usize = 0;
    assert(t@.skip(0) =~= t@);
    assert(t@.take(0) + non_white_prefix(t@) =~= non_white_prefix(t@));
    while i < t.len() && !is_whitespace_char(t[i])
        invariant
            i <= t.len(),
            non_white_prefix(t@) == t@.take(i as int) + non_white_prefix(t@.skip(i as int)),
        decreases t.len() - i,
    {
        assert(t@.skip(i as int).drop_first() =~= t@.skip(i + 1));
        assert(t@.take(i + 1) =~= t@.take(i as int) + seq![t@[i as int]]);
        i += 1;
    }
    assert(non_white_prefix(t@.skip(i as int)) =~= Seq::<char>::empty());
    assert(t@.take(i as int) + Seq::<char>::empty() =~= t@.take(i as int));
    slice_chars(&t, 0, i)
}

/// The part of `s` before the first `c` (`s.split(c).next()`).
pub fn prefix_before_chars(s: &Vec<char>, c: char) -> (res: Vec<char>)
    ensures
        res@ == prefix_before(s@, c),
{
    let mut i: usize = 0;
    assert(s@.skip(0) =~= s@);
    assert(s@.take(0) + prefix_before(s@, c) =~= prefix_before(s@, c));
    while i < s.len() && s[i] != c
        invariant
            i <= s.len(),
            prefix_before(s@, c) == s@.take(i as int) + prefix_before(s@.skip(i as int), c),
        decreases s.len() - i,
    {
        assert(s@.skip(i as int).drop_first() =~= s@.skip(i + 1));
        assert(s@.take(i + 1) =~= s@.take(i as int) + seq![s@[i as int]]);
        i += 1;
    }
    assert(prefix_before(s@.skip(i as int), c) =~= Seq::<char>::empty());
    assert(s@.take(i as int) + Seq::<char>::empty() =~= s@.take(i as int));
    slice_chars(s, 0, i)
}

/// The pieces of `s` between occurrences of `c` (`str::split`).
pub fn split_chars(s: &Vec<char>, c: char) -> (res: Vec<Vec<char>>)
    ensures
        res.deep_view() == split_on(s@, c),
{
    let mut res: Vec<Vec<char>> = Vec::new();
    let mut cur: Vec<char> = Vec::new();
    let mut i: usize = 0;
    assert(s@.skip(0) =~= s@);
    assert(res.deep_view() + split_on(s@, c) =~= split_on(s@, c));
    while i < s.len()
        invariant
            i <= s.len(),
            split_on(s@, c) == res.deep_view() + split_from(s@.skip(i as int), c, cur@),
        decreases s.len() - i,
    {
        assert(s@.skip(i as int).drop_first() =~= s@.skip(i + 1));
        if s[i] == c {
            let ghost before = res.deep_view();
            let ghost d = cur@;
            proof {
                lemma_chars_deep_view(&cur);
            }
            res.push(cur);
            assert(res.deep_view() =~= before.push(d));
            cur = Vec::new();
            assert(split_on(s@, c) =~= res.deep_view() + split_from(s@.skip(i + 1), c, cur@));
        } else {
            cur.push(s[i]);
        }
        i += 1;
    }
    let ghost before = res.deep_view();
    proof {
        lemma_chars_deep_view(&cur);
    }
    res.push(cur);
    assert(res.deep_view() =~= before.push(split_from(s@.skip(i as int), c, cur@)[0]));
    assert(res.deep_view() =~= split_on(s@, c));
    res
}

/// The lines of `s` (`str::lines`).
pub fn lines_chars(s: &Vec<char>) -> (res: Vec<Vec<char>>)
    ensures
        res.deep_view() == lines_of(s@),
{
    let mut res: Vec<Vec<char>> = Vec::new();
    let mut cur: Vec<char> = Vec::new();
    let mut i: usize = 0;
    assert(s@.skip(0) =~= s@);
    assert(res.deep_view() + lines_of(s@) =~= lines_of(s@));
    while i < s.len()
        invariant
            i <= s.len(),
            lines_of(s@) == res.deep_view() + lines_from(s@.skip(i as int), cur@),
        decreases s.len() - i,
    {
        assert(s@.skip(i as int).drop_first() =~= s@.skip(i + 1));
        if s[i] == '\n' {
            let ghost before = res.deep_view();
            let mut line = cur;
            if line.len() > 0 && line[line.len() - 1] == '\r' {
                line.pop();
            }
            assert(line@ =~= strip_cr(cur@));
            proof {
                lemma_chars_deep_view(&line);
            }
            res.push(line);
            assert(res.deep_view() =~= before.push(strip_cr(cur@)));
            cur = Vec::new();
            assert(lines_of(s@) =~= res.deep_view() + lines_from(s@.skip(i + 1), cur@));
        } else {
            cur.push(s[i]);
        }
        i += 1;
    }
    if cur.len() > 0 {
        let ghost before = res.deep_view();
        proof {
            lemma_chars_deep_view(&cur);
        }
        res.push(cur);
        assert(res.deep_view() =~= before.push(cur@));
        assert(res.deep_view() =~= lines_of(s@));
    } else {
        assert(res.deep_view() =~= lines_of(s@));
    }
    res
}

/// `s` with ASCII letters made lowercase.
pub fn ascii_lower_chars(s: &Vec<char>) -> (res: Vec<char>)
    ensures
        res@ == ascii_lower(s@),
{
    let mut res: Vec<char> = Vec::new();
    let mut i: usize = 0;
    while i < s.len()
        invariant
            i <= s.len(),
            res@ == ascii_lower(s@.take(i as int)),
        decreases s.len() - i,
    {
        let c = s[i];
        let l = if 'A' <= c && c <= 'Z' {
            let b = (c as u8) + 32;
            b as char
        } else {
            c
        };
        res.push(l);
        i += 1;
        assert(ascii_lower(s@.take(i as int)) =~= ascii_lower(s@.take((i - 1) as int)).push(l));
    }
    assert(s@.take(i as int) =~= s@);
    res
}


/// The pieces joined with `sep` between them.
pub fn join_pieces(parts: &Vec<Vec<char>>, sep: char) -> (res: Vec<char>)
    ensures
        res@ == join_with(parts.deep_view(), seq![sep]),
{
    let ghost dv = parts.deep_view();
    let mut out: Vec<char> = Vec::new();
    let mut k: usize = 0;
    assert(dv.take(0) =~= Seq::<Seq<char>>::empty());
    while k < parts.len()
        invariant
            k <= parts.len(),
            dv == parts.deep_view(),
            out@ == join_with(dv.take(k as int), seq![sep]),
        decreases parts.len() - k,
    {
        proof {
            lemma_chars_deep_view(&parts@[k as int]);
        }
        if k > 0 {
            out.push(sep);
        }
        let mid = out;
        out = concat_chars(&mid, &parts[k]);
        k += 1;
        proof {
            let n = k as int;
            assert(dv.take(n).drop_last() =~= dv.take(n - 1));
            assert(dv.take(n).last() == parts@[n - 1]@);
            if n == 1 {
                assert(dv.take(n - 1) =~= Seq::<Seq<char>>::empty());
                assert(out@ =~= join_with(dv.take(n), seq![sep]));
            } else {
                assert(out@ =~= join_with(dv.take(n), seq![sep]));
            }
        }
    }
    assert(dv.take(k as int) =~= dv);
    out
}


/// The number of whitespace characters `s` begins with.
pub open spec fn lead_ws_len(s: Seq<char>) -> int
    decreases s.len(),
{
    if s.len() > 0 && is_white_space(s[0]) {
        1 + lead_ws_len(s.drop_first())
    } else {
        0
    }
}

pub proof fn lemma_lead_ws_len_bounds(s: Seq<char>)
    ensures
        0 <= lead_ws_len(s) <= s.len(),
        lead_ws_len(s) < s.len() ==> !is_white_space(s[lead_ws_len(s)]),
        forall|k: int| 0 <= k < lead_ws_len(s) ==> is_white_space(#[trigger] s[k]),
    decreases s.len(),
{
    if s.len() > 0 && is_white_space(s[0]) {
        lemma_lead_ws_len_bounds(s.drop_first());
        assert forall|k: int| 0 <= k < lead_ws_len(s) implies is_white_space(#[trigger] s[k]) by {
            if k > 0 {
                assert(s[k] == s.drop_first()[k - 1]);
            }
        }
    }
}

/// The position after the run of whitespace that starts at `j` in `s`.
pub fn skip_ws(s: &Vec<char>, j: usize) -> (res: usize)
    requires
        j <= s.len(),
    ensures
        res == j + lead_ws_len(s@.skip(j as int)),
        j <= res <= s.len(),
{
    let mut k = j;
    assert(s@.skip(j as int).skip(0) =~= s@.skip(j as int));
    while k < s.len() && is_whitespace_char(s[k])
        invariant
            j <= k <= s.len(),
            lead_ws_len(s@.skip(j as int)) == (k - j) + lead_ws_len(s@.skip(k as int)),
        decreases s.len() - k,
    {
        assert(s@.skip(k as int).drop_first() =~= s@.skip(k + 1));
        k += 1;
    }
    k
}

/// Inserts `x` into the strictly sorted `out`, unless it is there already.
pub fn insert_sorted_unique(out: &mut Vec<Vec<char>>, x: Vec<char>)
    requires
        strictly_sorted(old(out).deep_view()),
    ensures
        strictly_sorted(final(out).deep_view()),
        forall|y: Seq<char>|
            #[trigger] final(out).deep_view().contains(y) <==> (old(out).deep_view().contains(y)
                || y == x@),
{
    let ghost dv = out.deep_view();
    let n = out.len();
    let mut pos: usize = 0;
    while pos < n
        invariant
            n == out.len(),
            dv == out.deep_view(),
            *out == *old(out),
            strictly_sorted(dv),
            pos <= n,
            forall|j: int| 0 <= j < pos ==> text_lt(#[trigger] dv[j], x@),
        ensures
            pos <= n,
            forall|j: int| 0 <= j < pos ==> text_lt(#[trigger] dv[j], x@),
            pos < n ==> text_lt(x@, dv[pos as int]) || dv[pos as int] == x@,
        decreases n - pos,
    {
        proof {
            lemma_chars_deep_view(&out@[pos as int]);
        }
        let c = compare_chars(&out[pos], &x);
        if c >= 0 {
            break;
        }
        pos += 1;
    }
    if pos < n {
        proof {
            lemma_chars_deep_view(&out@[pos as int]);
        }
        if chars_equal(&out[pos], &x) {
            assert(dv[pos as int] == x@);
            assert forall|y: Seq<char>| #[trigger] dv.contains(y) <==> (dv.contains(y) || y == x@) by {
                if y == x@ {
                    assert(dv[pos as int] == y);
                }
            }
            return;
        }
    }
    proof {
        assert forall|j: int| pos <= j < n implies text_lt(x@, #[trigger] dv[j]) by {
            if j > pos {
                lemma_text_lt_transitive(x@, dv[pos as int], dv[j]);
            }
        }
    }
    let ghost xv = x@;
    proof {
        lemma_chars_deep_view(&x);
    }
    out.insert(pos, x);
    proof {
        let nv = out.deep_view();
        assert(nv =~= dv.insert(pos as int, xv));
        assert forall|a: int, b: int| 0 <= a < b < nv.len() implies text_lt(nv[a], nv[b]) by {
            if b < pos {
            } else if b == pos {
            } else if a < pos {
                lemma_text_lt_transitive(nv[a], xv, nv[b]);
            } else if a == pos {
            } else {
            }
        }
        assert forall|y: Seq<char>| #[trigger] nv.contains(y) <==> (dv.contains(y) || y == xv) by {
            if nv.contains(y) {
                let k = choose|k: int| 0 <= k < nv.len() && nv[k] == y;
                if k < pos {
                    assert(dv[k] == y);
                } else if k > pos {
                    assert(dv[k - 1] == y);
                }
            }
            if dv.contains(y) {
                let k = choose|k: int| 0 <= k < dv.len() && dv[k] == y;
                if k < pos {
                    assert(nv[k] == y);
                } else {
                    assert(nv[k + 1] == y);
                }
            }
            if y == xv {
                assert(nv[pos as int] == y);
            }
        }
    }
}

/// The texts of `items` in strictly increasing order, each once
/// (what `sort` then `dedup` leaves).
pub fn sorted_unique(items: &Vec<Vec<char>>) -> (res: Vec<Vec<char>>)
    ensures
        is_sorted_set_of(res.deep_view(), items.deep_view()),
{
    let mut out: Vec<Vec<char>> = Vec::new();
    let mut i: usize = 0;
    while i < items.len()
        invariant
            i <= items.len(),
            strictly_sorted(out.deep_view()),
            forall|y: Seq<char>|
                #[trigger] out.deep_view().contains(y) <==> items.deep_view().take(
                    i as int,
                ).contains(y),
        decreases items.len() - i,
    {
        proof {
            lemma_chars_deep_view(&items@[i as int]);
        }
        let x = copy_chars(&items[i]);
        insert_sorted_unique(&mut out, x);
        i += 1;
        proof {
            let t = items.deep_view().take(i as int);
            assert(t =~= items.deep_view().take(i - 1).push(items.deep_view()[i - 1]));
            assert forall|y: Seq<char>| #[trigger] out.deep_view().contains(y) <==> t.contains(y) by {
                if t.contains(y) {
                    let k = choose|k: int| 0 <= k < t.len() && t[k] == y;
                    if k < i - 1 {
                        assert(items.deep_view().take(i - 1)[k] == y);
                    }
                }
                if items.deep_view().take(i - 1).contains(y) {
                    let k = choose|k: int|
                        0 <= k < i - 1 && #[trigger] items.deep_view().take(i - 1)[k] == y;
                    assert(t[k] == y);
                }
                if y == items.deep_view()[i - 1] {
                    assert(t[i - 1] == y);
                }
            }
        }
    }
    assert(items.deep_view().take(i as int) =~= items.deep_view());
    out
}

/// Compares two texts: negative, zero or positive as `a` is before, equal to
/// or after `b`.
pub fn compare_chars(a: &Vec<char>, b: &Vec<char>) -> (res: i8)
    ensures
        res == 0 <==> a@ == b@,
        res < 0 <==> text_lt(a@, b@),
        res > 0 <==> text_lt(b@, a@),
{
    let mut i: usize = 0;
    assert(a@.skip(0) =~= a@);
    assert(b@.skip(0) =~= b@);
    while i < a.len() && i < b.len()
        invariant
            i <= a.len(),
            i <= b.len(),
            a@.take(i as int) == b@.take(i as int),
            text_lt(a@, b@) == text_lt(a@.skip(i as int), b@.skip(i as int)),
            text_lt(b@, a@) == text_lt(b@.skip(i as int), a@.skip(i as int)),
        decreases a.len() - i,
    {
        if a[i] != b[i] {
            proof {
                lemma_text_lt_total(a@, b@);
            }
            if a[i] < b[i] {
                proof {
                    lemma_text_lt_asymmetric(a@, b@);
                }
                return -1;
            } else {
                proof {
                    lemma_text_lt_asymmetric(b@, a@);
                }
                return 1;
            }
        }
        assert(a@.skip(i as int).drop_first() =~= a@.skip(i + 1));
        assert(b@.skip(i as int).drop_first() =~= b@.skip(i + 1));
        i += 1;
        assert(a@.take(i as int) =~= a@.take((i - 1) as int).push(a@[i - 1]));
        assert(b@.take(i as int) =~= b@.take((i - 1) as int).push(b@[i - 1]));
    }
    if a.len() == b.len() {
        assert(a@ =~= a@.take(i as int));
        assert(b@ =~= b@.take(i as int));
        proof {
            lemma_text_lt_irreflexive(a@);
        }
        0
    } else if i == a.len() {
        assert(a@ != b@);
        -1
    } else {
        assert(a@ != b@);
        1
    }
}



/// Whether `p` occurs in `s` at position `i`.
pub fn occurs_at_chars(s: &Vec<char>, i: usize, p: &Vec<char>) -> (res: bool)
    ensures
        res == occurs_at(s@, p@, i as int),
{
    if i > s.len() || p.len() > s.len() - i {
        return false;
    }
    let piece = slice_chars(s, i, i + p.len());
    chars_equal(&piece, p)
}

/// The texts as strings.
pub fn strings_of(items: &Vec<Vec<char>>) -> (res: Vec<String>)
    ensures
        res.deep_view() == items.deep_view(),
{
    let mut res: Vec<String> = Vec::new();
    let mut i: usize = 0;
    while i < items.len()
        invariant
            i <= items.len(),
            res.deep_view() == items.deep_view().take(i as int),
        decreases items.len() - i,
    {
        proof {
            lemma_chars_deep_view(&items@[i as int]);
        }
        let ghost prev = res.deep_view();
        let text = string_of(&items[i]);
        assert(text@ == items.deep_view()[i as int]);
        res.push(text);
        assert(res.deep_view() =~= prev.push(items.deep_view()[i as int]));
        i += 1;
        assert(res.deep_view() =~= items.deep_view().take(i as int));
    }
    assert(items.deep_view().take(i as int) =~= items.deep_view());
    res
}

} // verus!
