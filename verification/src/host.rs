//! JSON handed to the Python host: the module manifest and the names of
//! stale modules.
use vstd::prelude::*;

use crate::error::{KernelError, KernelResult};
use crate::text::{chars_of, compare_chars, join_with, strictly_sorted, text_lt, lemma_text_lt_transitive, lemma_text_lt_irreflexive};
use crate::util::pair_keys;

verus! {

/// A lowercase hexadecimal digit.
pub open spec fn hex_digit(n: u32) -> char {
    if n < 10 {
        (('0' as u32) + n) as char
    } else {
        (('a' as u32) + n - 10) as char
    }
}

/// How a character stands in a JSON string: `"` and `\` after a `\`; line
/// feed, carriage return, tab, backspace and form feed as `\n`, `\r`, `\t`,
/// `\b`, `\f`; other control characters below U+0020 as `\u00` and two
/// lowercase hex digits; every other character as itself.
pub open spec fn json_escape(c: char) -> Seq<char> {
    let u = c as u32;
    if c == '"' {
        seq!['\\', '"']
    } else if c == '\\' {
        seq!['\\', '\\']
    } else if c == '\n' {
        seq!['\\', 'n']
    } else if c == '\r' {
        seq!['\\', 'r']
    } else if c == '\t' {
        seq!['\\', 't']
    } else if u == 0x08 {
        seq!['\\', 'b']
    } else if u == 0x0C {
        seq!['\\', 'f']
    } else if u < 0x20 {
        seq!['\\', 'u', '0', '0', hex_digit(u / 16), hex_digit(u % 16)]
    } else {
        seq![c]
    }
}

/// A text as a JSON string.
pub open spec fn json_string(s: Seq<char>) -> Seq<char> {
    seq!['"'] + s.map_values(|c: char| json_escape(c)).flatten() + seq!['"']
}

/// Texts as a compact JSON array of strings.
pub open spec fn json_array(items: Seq<Seq<char>>) -> Seq<char> {
    seq!['['] + join_with(items.map_values(|s: Seq<char>| json_string(s)), seq![',']) + seq![']']
}

/// (key, value) pairs as a compact JSON object of strings, in the given order.
pub open spec fn json_object(pairs: Seq<(Seq<char>, Seq<char>)>) -> Seq<char> {
    seq!['{'] + join_with(
        pairs.map_values(|e: (Seq<char>, Seq<char>)| json_string(e.0) + seq![':'] + json_string(e.1)),
        seq![','],
    ) + seq!['}']
}

/// A map of strings in JSON (`serde_json::to_string` of a
/// `BTreeMap<&str, &str>` built from the pairs).
///
/// With the keys in strictly increasing order, the map holds the pairs in
/// their order, and `serde_json` writes them as the compact object of
/// `json_object`, escaping strings as its `ESCAPE` table says; writing a map
/// of strings to a `Vec` cannot fail.
#[verifier::external_body]
fn json_object_text(pairs: &Vec<(String, String)>) -> (res: String)
    requires
        strictly_sorted(pair_keys(pairs.deep_view())),
    ensures
        res@ == json_object(pairs.deep_view()),
{
    let map: std::collections::BTreeMap<&str, &str> = pairs.iter().map(
        |(k, v)| (k.as_str(), v.as_str()),
    ).collect();
    match serde_json::to_string(&map) {
        Ok(text) => text,
        Err(_) => String::new(),
    }
}

/// A list of strings in JSON (`serde_json::to_string` of a `&[String]`).
///
/// `serde_json` writes the compact array of `json_array`, escaping strings as
/// its `ESCAPE` table says; writing strings to a `Vec` cannot fail.
#[verifier::external_body]
fn json_array_text(items: &Vec<String>) -> (res: String)
    ensures
        res@ == json_array(items.deep_view()),
{
    match serde_json::to_string(items.as_slice()) {
        Ok(text) => text,
        Err(_) => String::new(),
    }
}

/// Whether `k` is a key of the manifest.
pub open spec fn has_key(manifest: Seq<(Seq<char>, Seq<char>)>, k: Seq<char>) -> bool {
    exists|i: int| 0 <= i < manifest.len() && manifest[i].0 == k
}

/// The value of the last pair with key `k`.
pub open spec fn last_value(manifest: Seq<(Seq<char>, Seq<char>)>, k: Seq<char>) -> Seq<char>
    decreases manifest.len(),
{
    if manifest.len() == 0 {
        Seq::empty()
    } else if manifest.last().0 == k {
        manifest.last().1
    } else {
        last_value(manifest.drop_last(), k)
    }
}

/// The pairs of a manifest as a map holds them: one pair per key, the last
/// value given for it, in the order of the keys.
pub open spec fn manifest_map(
    manifest: Seq<(Seq<char>, Seq<char>)>,
    pairs: Seq<(Seq<char>, Seq<char>)>,
) -> bool {
    &&& strictly_sorted(pair_keys(pairs))
    &&& forall|k: Seq<char>| pair_keys(pairs).contains(k) <==> has_key(manifest, k)
    &&& forall|i: int| 0 <= i < pairs.len() ==> #[trigger] pairs[i].1 == last_value(manifest, pairs[i].0)
}

/// The manifest's pairs with one pair per key, the last value given for it,
/// in the order of the keys.
fn manifest_pairs(manifest: &Vec<(String, String)>) -> (res: Vec<(String, String)>)
    ensures
        manifest_map(manifest.deep_view(), res.deep_view()),
{
    let ghost m = manifest.deep_view();
    let mut out: Vec<(String, String)> = Vec::new();
    let mut i: usize = 0;
    assert(m.take(0) =~= Seq::<(Seq<char>, Seq<char>)>::empty());
    assert(pair_keys(out.deep_view()) =~= Seq::<Seq<char>>::empty());
    while i < manifest.len()
        invariant
            i <= manifest.len(),
            m == manifest.deep_view(),
            manifest_map(m.take(i as int), out.deep_view()),
        decreases manifest.len() - i,
    {
        let key = manifest[i].0.clone();
        let value = manifest[i].1.clone();
        let ghost before = out.deep_view();
        let ghost prefix = m.take(i as int);
        let ghost next = m.take(i + 1);
        assert(next =~= prefix.push(m[i as int]));
        assert(next.drop_last() =~= prefix);
        let k = chars_of(key.as_str());
        // find the position of `key`
        let n = out.len();
        let mut pos: usize = 0;
        let ghost ks = pair_keys(before);
        while pos < n
            invariant
                n == out.len(),
                before == out.deep_view(),
                ks == pair_keys(before),
                strictly_sorted(ks),
                k@ == key@,
                pos <= n,
                forall|j: int| 0 <= j < pos ==> text_lt(#[trigger] ks[j], k@),
            ensures
                pos <= n,
                forall|j: int| 0 <= j < pos ==> text_lt(#[trigger] ks[j], k@),
                pos < n ==> text_lt(k@, ks[pos as int]) || ks[pos as int] == k@,
            decreases n - pos,
        {
            let e = chars_of(out[pos].0.as_str());
            assert(e@ == ks[pos as int]);
            if compare_chars(&e, &k) >= 0 {
                break;
            }
            pos += 1;
        }
        let found = pos < n && {
            let e = chars_of(out[pos].0.as_str());
            assert(e@ == ks[pos as int]);
            compare_chars(&e, &k) == 0
        };
        if found {
            let ghost kv = key@;
            let ghost vv = value@;
            out.set(pos, (key, value));
            proof {
                let after = out.deep_view();
                assert(after =~= before.update(pos as int, (kv, vv)));
                assert(pair_keys(after) =~= ks);
                assert forall|x: Seq<char>| pair_keys(after).contains(x) <==> has_key(next, x) by {
                    if has_key(next, x) && x != kv {
                        let j = choose|j: int| 0 <= j < next.len() && next[j].0 == x;
                        assert(prefix[j].0 == x);
                        assert(has_key(prefix, x));
                    }
                    if pair_keys(after).contains(x) {
                        assert(pair_keys(before).contains(x));
                        assert(has_key(prefix, x));
                        let j = choose|j: int| 0 <= j < prefix.len() && prefix[j].0 == x;
                        assert(next[j].0 == x);
                    }
                    if x == kv {
                        assert(next[i as int].0 == x);
                    }
                }
                assert forall|j: int| 0 <= j < after.len() implies #[trigger] after[j].1 == last_value(next, after[j].0) by {
                    if j == pos {
                    } else {
                        assert(after[j] == before[j]);
                        assert(ks[j] != kv) by {
                            lemma_text_lt_irreflexive(kv);
                        }
                    }
                }
            }
        } else {
            proof {
                assert forall|j: int| pos <= j < n implies text_lt(k@, #[trigger] ks[j]) by {
                    if j > pos {
                        lemma_text_lt_transitive(k@, ks[pos as int], ks[j]);
                    }
                }
                assert(!ks.contains(k@)) by {
                    if ks.contains(k@) {
                        let j = choose|j: int| 0 <= j < ks.len() && ks[j] == k@;
                        lemma_text_lt_irreflexive(k@);
                    }
                }
            }
            let ghost kv = key@;
            let ghost vv = value@;
            out.insert(pos, (key, value));
            proof {
                let after = out.deep_view();
                assert(after =~= before.insert(pos as int, (kv, vv)));
                let nk = pair_keys(after);
                assert(nk =~= ks.insert(pos as int, kv));
                assert forall|a: int, b: int| 0 <= a < b < nk.len() implies text_lt(nk[a], nk[b]) by {
                    if b < pos {
                    } else if b == pos {
                    } else if a < pos {
                        lemma_text_lt_transitive(nk[a], kv, nk[b]);
                    } else if a == pos {
                    } else {
                    }
                }
                assert forall|x: Seq<char>| nk.contains(x) <==> has_key(next, x) by {
                    if nk.contains(x) && x != kv {
                        let j = choose|j: int| 0 <= j < nk.len() && nk[j] == x;
                        if j < pos {
                            assert(ks[j] == x);
                        } else {
                            assert(ks[j - 1] == x);
                        }
                        assert(pair_keys(before).contains(x));
                        assert(has_key(prefix, x));
                        let t = choose|t: int| 0 <= t < prefix.len() && prefix[t].0 == x;
                        assert(next[t].0 == x);
                    }
                    if has_key(next, x) && x != kv {
                        let j = choose|j: int| 0 <= j < next.len() && next[j].0 == x;
                        assert(prefix[j].0 == x);
                        assert(has_key(prefix, x));
                        assert(pair_keys(before).contains(x));
                        let t = choose|t: int| 0 <= t < ks.len() && ks[t] == x;
                        if t < pos {
                            assert(nk[t] == x);
                        } else {
                            assert(nk[t + 1] == x);
                        }
                    }
                    if x == kv {
                        assert(nk[pos as int] == x);
                        assert(next[i as int].0 == x);
                    }
                }
                assert forall|j: int| 0 <= j < after.len() implies #[trigger] after[j].1 == last_value(next, after[j].0) by {
                    if j < pos {
                        assert(after[j] == before[j]);
                        assert(ks[j] != kv);
                    } else if j > pos {
                        assert(after[j] == before[j - 1]);
                        assert(ks[j - 1] != kv);
                    }
                }
            }
        }
        i += 1;
    }
    assert(m.take(i as int) =~= m);
    out
}

/// The manifest as a JSON object, mapping each module name to its file: one
/// entry per name, the last file given for it, in the order of the names.
pub fn build_python_manifest_json(manifest: &Vec<(String, String)>) -> (res: KernelResult<String>)
    ensures
        res matches Ok(text) && exists|pairs: Seq<(Seq<char>, Seq<char>)>|
            manifest_map(manifest.deep_view(), pairs) && text@ == json_object(pairs),
{
    let pairs = manifest_pairs(manifest);
    let text = json_object_text(&pairs);
    Ok(text)
}

/// The names as a JSON array.
pub fn json_string_list(items: &Vec<String>) -> (res: KernelResult<String>)
    ensures
        res matches Ok(text) && text@ == json_array(items.deep_view()),
{
    Ok(json_array_text(items))
}

} // verus!
