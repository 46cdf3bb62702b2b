//! Character-level access to std's strings.
use vstd::prelude::*;
use vstd::std_specs::iter::IteratorSpec;

verus! {

/// Relies on `String::push`: appends one character.
#[verifier::external_body]
pub(crate) fn push_char(s: &mut String, c: char)
    ensures
        final(s)@ == old(s)@.push(c),
{
    s.push(c);
}

/// The characters of `s`, in order.
pub(crate) fn chars_of(s: &str) -> (r: Vec<char>)
    ensures
        r@ == s@,
{
    broadcast use vstd::string::axiom_spec_iter, vstd::string::next_postcondition;

    let mut it = s.chars();
    let mut r: Vec<char> = Vec::new();
    loop
        invariant
            r@ + it.remaining() == s@,
            it.decrease() is Some,
        ensures
            r@ == s@,
        decreases it.decrease()->0,
    {
        match it.next() {
            Some(c) => {
                r.push(c);
            },
            None => {
                assert(r@ =~= s@);
                break ;
            },
        }
    }
    r
}

/// Relies on `String::from_utf8`: it succeeds exactly on valid UTF-8, and
/// then holds the characters that the bytes encode.
#[verifier::external_body]
pub(crate) fn utf8_text(b: Vec<u8>) -> (r: Option<String>)
    ensures
        r is Some <==> vstd::utf8::valid_utf8(b@),
        r is Some ==> r->0@ == vstd::utf8::decode_utf8(b@),
{
    String::from_utf8(b).ok()
}

/// The pieces of `t` between occurrences of `sep`, as `str::split` gives
/// them: an empty text is one empty piece.
pub open spec fn split(t: Seq<char>, sep: char) -> Seq<Seq<char>>
    decreases t.len(),
{
    if t.len() == 0 {
        seq![Seq::empty()]
    } else {
        let parts = split(t.drop_last(), sep);
        if t.last() == sep {
            parts.push(Seq::empty())
        } else {
            parts.update(parts.len() - 1, parts.last().push(t.last()))
        }
    }
}

pub open spec fn char_views(v: Seq<Vec<char>>) -> Seq<Seq<char>> {
    Seq::new(v.len(), |x: int| v[x]@)
}

pub proof fn lemma_split_nonempty(t: Seq<char>, sep: char)
    ensures
        split(t, sep).len() >= 1,
    decreases t.len(),
{
    if t.len() > 0 {
        lemma_split_nonempty(t.drop_last(), sep);
    }
}

/// Splitting a text joined at a separator splits both sides.
pub proof fn lemma_split_join(a: Seq<char>, b: Seq<char>, sep: char)
    ensures
        split(a + seq![sep] + b, sep) =~= split(a, sep) + split(b, sep),
    decreases b.len(),
{
    lemma_split_nonempty(a, sep);
    lemma_split_nonempty(b, sep);
    if b.len() == 0 {
        assert((a + seq![sep] + b).drop_last() =~= a);
    } else {
        lemma_split_join(a, b.drop_last(), sep);
        assert((a + seq![sep] + b).drop_last() =~= a + seq![sep] + b.drop_last());
        lemma_split_nonempty(b.drop_last(), sep);
    }
}

/// Whether `sep` occurs nowhere in `t`.
pub open spec fn free_of(t: Seq<char>, sep: char) -> bool {
    forall|x: int| 0 <= x < t.len() ==> t[x] != sep
}

pub proof fn lemma_split_free(t: Seq<char>, sep: char)
    requires
        free_of(t, sep),
    ensures
        split(t, sep) =~= seq![t],
    decreases t.len(),
{
    if t.len() > 0 {
        assert(t[t.len() - 1] != sep);
        assert(free_of(t.drop_last(), sep)) by {
            assert forall|x: int| 0 <= x < t.len() - 1 implies t.drop_last()[x] != sep by {
                assert(t[x] != sep);
            }
        }
        lemma_split_free(t.drop_last(), sep);
        assert(t.drop_last().push(t.last()) =~= t);
        assert(split(t, sep)[0] =~= t);
    } else {
        assert(t =~= Seq::<char>::empty());
    }
}

/// The pieces of `t` between occurrences of `sep`.
pub(crate) fn split_chars(t: &Vec<char>, sep: char) -> (r: Vec<Vec<char>>)
    ensures
        char_views(r@) =~= split(t@, sep),
{
    let mut done: Vec<Vec<char>> = Vec::new();
    let mut cur: Vec<char> = Vec::new();
    let mut i: usize = 0;
    while i < t.len()
        invariant
            i <= t.len(),
            char_views(done@).push(cur@) =~= split(t@.take(i as int), sep),
        decreases t.len() - i,
    {
        proof {
            assert(t@.take(i + 1).drop_last() =~= t@.take(i as int));
            lemma_split_nonempty(t@.take(i as int), sep);
        }
        if t[i] == sep {
            let finished = cur;
            cur = Vec::new();
            done.push(finished);
        } else {
            cur.push(t[i]);
        }
        i = i + 1;
    }
    assert(t@.take(i as int) =~= t@);
    done.push(cur);
    done
}

/// Whether two character vectors hold the same characters.
pub(crate) fn vec_chars_eq(a: &Vec<char>, b: &Vec<char>) -> (r: bool)
    ensures
        r == (a@ == b@),
{
    if a.len() != b.len() {
        return false;
    }
    let mut i: usize = 0;
    while i < a.len()
        invariant
            i <= a.len(),
            a.len() == b.len(),
            forall|x: int| 0 <= x < i ==> a@[x] == b@[x],
        decreases a.len() - i,
    {
        if a[i] != b[i] {
            return false;
        }
        i = i + 1;
    }
    assert(a@ =~= b@);
    true
}

/// Appends the characters of `s`.
pub(crate) fn append_str(out: &mut String, s: &str)
    ensures
        final(out)@ == old(out)@ + s@,
{
    let cs = chars_of(s);
    let mut i: usize = 0;
    while i < cs.len()
        invariant
            i <= cs.len(),
            cs@ == s@,
            out@ == old(out)@ + cs@.take(i as int),
        decreases cs.len() - i,
    {
        push_char(out, cs[i]);
        assert(cs@.take(i + 1) =~= cs@.take(i as int).push(cs@[i as int]));
        i = i + 1;
    }
    assert(cs@.take(i as int) =~= cs@);
}

} // verus!
