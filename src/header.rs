//! The header of a sealed message: string entries, written as a JSON object.
use crate::text::{append_str, chars_of, push_char, vec_chars_eq};
use vstd::prelude::*;

verus! {

/// A lower-case hexadecimal digit.
pub open spec fn hex_digit(d: int) -> char {
    seq!['0', '1', '2', '3', '4', '5', '6', '7', '8', '9', 'a', 'b', 'c', 'd', 'e', 'f'][d]
}

/// How one character stands inside a JSON string: quote and backslash
/// escaped, the usual short escapes for backspace, tab, line feed, form feed
/// and carriage return, `\u00XX` for the other control characters, and any
/// other character as itself.
pub open spec fn escape_char(c: char) -> Seq<char> {
    if c == '"' {
        seq!['\\', '"']
    } else if c == '\\' {
        seq!['\\', '\\']
    } else if c == '\x08' {
        seq!['\\', 'b']
    } else if c == '\t' {
        seq!['\\', 't']
    } else if c == '\n' {
        seq!['\\', 'n']
    } else if c == '\x0C' {
        seq!['\\', 'f']
    } else if c == '\r' {
        seq!['\\', 'r']
    } else if (c as u32) < 0x20 {
        seq!['\\', 'u', '0', '0', hex_digit((c as u32) as int / 16), hex_digit((c as u32) as int % 16)]
    } else {
        seq![c]
    }
}

/// The characters of `s`, each escaped.
pub open spec fn escaped(s: Seq<char>) -> Seq<char>
    decreases s.len(),
{
    if s.len() == 0 {
        Seq::empty()
    } else {
        escaped(s.drop_last()) + escape_char(s.last())
    }
}

/// The JSON string literal for `s`.
pub open spec fn json_text(s: Seq<char>) -> Seq<char> {
    seq!['"'] + escaped(s) + seq!['"']
}

/// Relies on `json::stringify` of a `&str`: the JSON string literal for `s`,
/// escaped as `write_string` in the crate's code generator does it.
#[verifier::external_body]
fn json_quote(s: &str) -> (r: String)
    ensures
        r@ == json_text(s@),
{
    json::stringify(s)
}

/// The name of the entry that always holds the scope.
pub open spec fn scope_key() -> Seq<char> {
    seq!['s', 'c', 'o', 'p', 'e']
}

/// Whether no two entries share a key.
pub open spec fn unique_keys(es: Seq<(Seq<char>, Seq<char>)>) -> bool {
    forall|a: int, b: int| 0 <= a < b < es.len() ==> es[a].0 != es[b].0
}

/// Sets `k` to `v`: in place where `k` already has an entry, else at the end.
pub open spec fn put(es: Seq<(Seq<char>, Seq<char>)>, k: Seq<char>, v: Seq<char>) -> Seq<
    (Seq<char>, Seq<char>),
> {
    if exists|j: int| 0 <= j < es.len() && es[j].0 == k {
        es.update(choose|j: int| 0 <= j < es.len() && es[j].0 == k, (k, v))
    } else {
        es.push((k, v))
    }
}

/// The caller's entries, as texts, without any entry named `scope`. A key
/// given more than once keeps the position of its first entry and the value
/// of its last, so the header is a mapping.
pub open spec fn without_scope(hs: Seq<(String, String)>) -> Seq<(Seq<char>, Seq<char>)>
    decreases hs.len(),
{
    if hs.len() == 0 {
        Seq::empty()
    } else {
        let r = without_scope(hs.drop_last());
        if hs.last().0@ == scope_key() {
            r
        } else {
            put(r, hs.last().0@, hs.last().1@)
        }
    }
}

/// The entries of a header: the caller's, in their order, then the scope.
pub open spec fn header_entries(hs: Seq<(String, String)>, scope: Seq<char>) -> Seq<
    (Seq<char>, Seq<char>),
> {
    without_scope(hs).push((scope_key(), scope))
}

pub open spec fn entry_text(e: (Seq<char>, Seq<char>)) -> Seq<char> {
    json_text(e.0) + seq![':'] + json_text(e.1)
}

/// The entries, comma-separated.
pub open spec fn entries_text(es: Seq<(Seq<char>, Seq<char>)>) -> Seq<char>
    decreases es.len(),
{
    if es.len() == 0 {
        Seq::empty()
    } else if es.len() == 1 {
        entry_text(es[0])
    } else {
        entries_text(es.drop_last()) + seq![','] + entry_text(es.last())
    }
}

/// The header as JSON text: `{"k":"v",...,"scope":"<scope>"}`.
pub open spec fn header_text(hs: Seq<(String, String)>, scope: Seq<char>) -> Seq<char> {
    seq!['{'] + entries_text(header_entries(hs, scope)) + seq!['}']
}

fn append_entry(out: &mut String, first: bool, k: &str, v: &str)
    ensures
        final(out)@ == old(out)@ + (if first {
            Seq::empty()
        } else {
            seq![',']
        }) + entry_text((k@, v@)),
{
    if !first {
        push_char(out, ',');
    }
    let qk = json_quote(k);
    append_str(out, qk.as_str());
    push_char(out, ':');
    let qv = json_quote(v);
    append_str(out, qv.as_str());
}

/// The entries that `idx` points at: key from one element of `hs`, value
/// from another.
pub open spec fn picked(hs: Seq<(String, String)>, idx: Seq<(usize, usize)>) -> Seq<
    (Seq<char>, Seq<char>),
> {
    Seq::new(idx.len(), |j: int| (hs[idx[j].0 as int].0@, hs[idx[j].1 as int].1@))
}

/// Sorts the caller's entries into the mapping of `without_scope`, as index
/// pairs into `headers`.
fn collect_entries(headers: &Vec<(String, String)>, key_chars: &Vec<char>) -> (idx: Vec<
    (usize, usize),
>)
    requires
        key_chars@ == scope_key(),
    ensures
        forall|j: int| 0 <= j < idx@.len() ==> #[trigger] idx@[j].0 < headers@.len() && idx@[j].1
            < headers@.len(),
        picked(headers@, idx@) == without_scope(headers@),
{
    let mut idx: Vec<(usize, usize)> = Vec::new();
    let mut i: usize = 0;
    while i < headers.len()
        invariant
            i <= headers.len(),
            key_chars@ == scope_key(),
            forall|j: int| 0 <= j < idx@.len() ==> #[trigger] idx@[j].0 < headers@.len()
                && idx@[j].1 < headers@.len(),
            picked(headers@, idx@) =~= without_scope(headers@.take(i as int)),
            unique_keys(picked(headers@, idx@)),
        decreases headers.len() - i,
    {
        let ghost w = picked(headers@, idx@);
        assert(headers@.take(i + 1).drop_last() =~= headers@.take(i as int));
        let kc = chars_of(headers[i].0.as_str());
        if !vec_chars_eq(&kc, key_chars) {
            let ghost k = headers@[i as int].0@;
            let ghost v = headers@[i as int].1@;
            let mut j: usize = 0;
            let mut found = false;
            while !found && j < idx.len()
                invariant
                    j <= idx.len(),
                    w == picked(headers@, idx@),
                    kc@ == k,
                    forall|x: int| 0 <= x < idx@.len() ==> #[trigger] idx@[x].0 < headers@.len()
                        && idx@[x].1 < headers@.len(),
                    !found ==> forall|x: int| 0 <= x < j ==> #[trigger] w[x].0 != k,
                    found ==> j < idx.len() && w[j as int].0 == k,
                decreases idx.len() - j + (if found {
                    0int
                } else {
                    1int
                }),
            {
                let other = chars_of(headers[idx[j].0].0.as_str());
                if vec_chars_eq(&other, &kc) {
                    found = true;
                } else {
                    j = j + 1;
                }
            }
            if found {
                proof {
                    let c = choose|x: int| 0 <= x < w.len() && w[x].0 == k;
                    assert(c == j);
                }
                let ghost old_idx = idx@;
                let key_at = idx[j].0;
                idx.set(j, (key_at, i));
                assert(picked(headers@, idx@) =~= put(w, k, v));
                assert forall|x: int| 0 <= x < idx@.len() implies #[trigger] idx@[x].0
                    < headers@.len() && idx@[x].1 < headers@.len() by {
                    if x != j {
                        assert(idx@[x] == old_idx[x]);
                    }
                }
            } else {
                let ghost old_idx = idx@;
                idx.push((i, i));
                assert(picked(headers@, idx@) =~= put(w, k, v));
                assert forall|x: int| 0 <= x < idx@.len() implies #[trigger] idx@[x].0
                    < headers@.len() && idx@[x].1 < headers@.len() by {
                    if x < old_idx.len() {
                        assert(idx@[x] == old_idx[x]);
                    }
                }
            }
        }
        i = i + 1;
    }
    assert(headers@.take(i as int) =~= headers@);
    idx
}

/// Writes the header for `headers` under `scope`.
pub fn header_json(headers: &Vec<(String, String)>, scope: &str) -> (r: String)
    ensures
        r@ == header_text(headers@, scope@),
{
    let key_chars = chars_of("scope");
    proof {
        reveal_strlit("scope");
    }
    assert(key_chars@ == scope_key());
    let idx = collect_entries(headers, &key_chars);
    let ghost es = picked(headers@, idx@);
    let mut out = String::new();
    push_char(&mut out, '{');
    let mut j: usize = 0;
    while j < idx.len()
        invariant
            j <= idx.len(),
            es == picked(headers@, idx@),
            forall|x: int| 0 <= x < idx@.len() ==> #[trigger] idx@[x].0 < headers@.len()
                && idx@[x].1 < headers@.len(),
            out@ == seq!['{'] + entries_text(es.take(j as int)),
        decreases idx.len() - j,
    {
        assert(es.take(j + 1).drop_last() =~= es.take(j as int));
        let (ki, vi) = idx[j];
        append_entry(&mut out, j == 0, headers[ki].0.as_str(), headers[vi].1.as_str());
        assert(out@ =~= seq!['{'] + entries_text(es.take(j + 1)));
        j = j + 1;
    }
    assert(es.take(j as int) =~= es);
    let ghost e = (scope_key(), scope@);
    append_entry(&mut out, idx.len() == 0, "scope", scope);
    assert(es.push(e).drop_last() =~= es);
    assert(out@ =~= seq!['{'] + entries_text(es.push(e)));
    push_char(&mut out, '}');
    out
}

} // verus!
