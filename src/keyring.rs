//! Keyrings: the keys of a scope, read from their persisted text, indexed by
//! key id, with the newest key current.
use crate::base85::{decode_chars, encode85, spec_decode, spec_encode};
use crate::error::SboxError;
use crate::spritz::{hash, spec_hash};
use crate::text::{char_views, chars_of, split, split_chars, vec_chars_eq};
use vstd::prelude::*;

verus! {

/// The id of a key: its 8-byte digest, base-85 encoded.
pub open spec fn spec_keyid(key: Seq<u8>) -> Seq<char> {
    spec_encode(spec_hash(key, 8))
}

/// The id of `key`.
pub fn keyid(key: &[u8]) -> (r: String)
    ensures
        r@ == spec_keyid(key@),
{
    let h = hash(key, 8);
    encode85(h.as_slice())
}

/// Whether `c` is ASCII whitespace: space, tab, line feed, form feed or
/// carriage return.
pub open spec fn is_space(c: char) -> bool {
    c == ' ' || c == '\t' || c == '\n' || c == '\x0C' || c == '\r'
}

/// `row` without its leading whitespace.
pub open spec fn trim_start(row: Seq<char>) -> Seq<char>
    decreases row.len(),
{
    if row.len() > 0 && is_space(row[0]) {
        trim_start(row.skip(1))
    } else {
        row
    }
}

/// The characters of `row` before its first whitespace.
pub open spec fn leading_word(row: Seq<char>) -> Seq<char>
    decreases row.len(),
{
    if row.len() == 0 || is_space(row[0]) {
        Seq::empty()
    } else {
        seq![row[0]] + leading_word(row.skip(1))
    }
}

/// The first whitespace-delimited token of `row`; empty when the row is blank.
pub open spec fn first_token(row: Seq<char>) -> Seq<char> {
    leading_word(trim_start(row))
}

/// The keys of the non-blank lines, in order; `None` when the first token of
/// such a line is not valid base-85.
pub open spec fn line_keys(lines: Seq<Seq<char>>) -> Option<Seq<Seq<u8>>>
    decreases lines.len(),
{
    if lines.len() == 0 {
        Some(Seq::empty())
    } else {
        match line_keys(lines.drop_last()) {
            None => None,
            Some(ks) => {
                let row = lines.last();
                if first_token(row).len() == 0 {
                    Some(ks)
                } else {
                    match spec_decode(first_token(row)) {
                        None => None,
                        Some(k) => Some(ks.push(k)),
                    }
                }
            },
        }
    }
}

/// Each key under its id; a later key replaces an earlier one with the same id.
pub open spec fn key_map(keys: Seq<Seq<u8>>) -> Map<Seq<char>, Seq<u8>>
    decreases keys.len(),
{
    if keys.len() == 0 {
        Map::empty()
    } else {
        key_map(keys.drop_last()).insert(spec_keyid(keys.last()), keys.last())
    }
}

/// The keys that the persisted text `t` lists, one per non-blank line.
pub open spec fn spec_keys(t: Seq<char>) -> Option<Seq<Seq<u8>>> {
    line_keys(split(t, '\n'))
}

/// The keys of a scope, and the one that seals new messages.
pub struct Keyring {
    keys: Vec<Vec<u8>>,
    ids: Vec<String>,
}

impl Keyring {
    /// The keys, in the order of their lines.
    pub closed spec fn keys(&self) -> Seq<Seq<u8>> {
        Seq::new(self.keys@.len(), |x: int| self.keys@[x]@)
    }

    pub closed spec fn well_formed(&self) -> bool {
        &&& self.keys@.len() == self.ids@.len()
        &&& self.keys@.len() > 0
        &&& forall|x: int|
            0 <= x < self.ids@.len() ==> #[trigger] self.ids@[x]@ == spec_keyid(self.keys@[x]@)
    }

    /// Key ids to keys.
    pub open spec fn view(&self) -> Map<Seq<char>, Seq<u8>> {
        key_map(self.keys())
    }

    /// The key of the last non-empty line.
    pub open spec fn current(&self) -> Seq<u8> {
        self.keys().last()
    }

    /// The key that seals new messages.
    pub fn current_key(&self) -> (r: &Vec<u8>)
        requires
            self.well_formed(),
        ensures
            r@ == self.current(),
    {
        &self.keys[self.keys.len() - 1]
    }

    /// The key filed under `id`, or `UnknownKeyId`.
    pub fn lookup(&self, id: &str) -> (r: Result<&Vec<u8>, SboxError>)
        requires
            self.well_formed(),
        ensures
            self@.contains_key(id@) ==> r is Ok && r->Ok_0@ == self@[id@],
            !self@.contains_key(id@) ==> r == Err::<&Vec<u8>, SboxError>(SboxError::UnknownKeyId),
    {
        let cs = chars_of(id);
        self.lookup_chars(&cs)
    }

    pub(crate) fn lookup_chars(&self, id: &Vec<char>) -> (r: Result<&Vec<u8>, SboxError>)
        requires
            self.well_formed(),
        ensures
            self@.contains_key(id@) ==> r is Ok && r->Ok_0@ == self@[id@],
            !self@.contains_key(id@) ==> r == Err::<&Vec<u8>, SboxError>(SboxError::UnknownKeyId),
    {
        let mut i: usize = self.keys.len();
        assert(self.keys().take(i as int) =~= self.keys());
        while i > 0
            invariant
                i <= self.keys@.len(),
                self.well_formed(),
                forall|x: int| i <= x < self.keys@.len() ==> spec_keyid(self.keys()[x]) != id@,
                (key_map(self.keys()).contains_key(id@) <==> key_map(self.keys().take(i as int)).contains_key(id@)),
                key_map(self.keys()).contains_key(id@) ==> key_map(self.keys())[id@] == key_map(self.keys().take(i as int))[id@],
            decreases i,
        {
            let cs = chars_of(self.ids[i - 1].as_str());
            let ghost pre = self.keys().take(i as int);
            assert(pre.drop_last() =~= self.keys().take(i - 1));
            if vec_chars_eq(&cs, id) {
                return Ok(&self.keys[i - 1]);
            }
            i = i - 1;
        }
        assert(self.keys().take(0) =~= Seq::<Seq<u8>>::empty());
        Err(SboxError::UnknownKeyId)
    }
}

proof fn lemma_leading_word(row: Seq<char>, i: int)
    requires
        0 <= i <= row.len(),
        forall|x: int| 0 <= x < i ==> !is_space(#[trigger] row[x]),
        i == row.len() || is_space(row[i]),
    ensures
        leading_word(row) =~= row.take(i),
    decreases i,
{
    if i > 0 {
        assert(!is_space(row[0]));
        assert forall|x: int| 0 <= x < i - 1 implies !is_space(#[trigger] row.skip(1)[x]) by {
            assert(!is_space(row[x + 1]));
        }
        lemma_leading_word(row.skip(1), i - 1);
        assert(row.take(i) =~= seq![row[0]] + row.skip(1).take(i - 1));
    }
}

proof fn lemma_trim_start(row: Seq<char>, i: int)
    requires
        0 <= i <= row.len(),
        forall|x: int| 0 <= x < i ==> is_space(#[trigger] row[x]),
        i == row.len() || !is_space(row[i]),
    ensures
        trim_start(row) =~= row.skip(i),
    decreases i,
{
    if i > 0 {
        assert(is_space(row[0]));
        assert forall|x: int| 0 <= x < i - 1 implies is_space(#[trigger] row.skip(1)[x]) by {
            assert(is_space(row[x + 1]));
        }
        lemma_trim_start(row.skip(1), i - 1);
        assert(row.skip(1).skip(i - 1) =~= row.skip(i));
    } else {
        assert(row.skip(0) =~= row);
    }
}

fn is_space_exec(c: char) -> (r: bool)
    ensures
        r == is_space(c),
{
    c == ' ' || c == '\t' || c == '\n' || c == '\x0C' || c == '\r'
}

fn first_token_exec(row: &Vec<char>) -> (r: Vec<char>)
    ensures
        r@ == first_token(row@),
{
    let mut i: usize = 0;
    while i < row.len() && is_space_exec(row[i])
        invariant
            i <= row.len(),
            forall|x: int| 0 <= x < i ==> is_space(#[trigger] row@[x]),
        decreases row.len() - i,
    {
        i = i + 1;
    }
    proof {
        lemma_trim_start(row@, i as int);
    }
    let ghost rest = row@.skip(i as int);
    let mut r: Vec<char> = Vec::new();
    let mut j: usize = i;
    while j < row.len() && !is_space_exec(row[j])
        invariant
            i <= j <= row.len(),
            rest == row@.skip(i as int),
            forall|x: int| i <= x < j ==> !is_space(#[trigger] row@[x]),
            r@ =~= row@.subrange(i as int, j as int),
        decreases row.len() - j,
    {
        r.push(row[j]);
        j = j + 1;
    }
    proof {
        assert forall|x: int| 0 <= x < j - i implies !is_space(#[trigger] rest[x]) by {
            assert(!is_space(row@[x + i]));
        }
        lemma_leading_word(rest, j - i);
        assert(rest.take(j - i) =~= r@);
    }
    r
}

/// Reads key material: one key per non-blank line, base-85 encoded in the
/// line's first whitespace-delimited token; the last such key is current.
/// Every key read is non-empty.
pub fn load_keyring(t: &str) -> (r: Result<Keyring, SboxError>)
    ensures
        match spec_keys(t@) {
            None => r == Err::<Keyring, SboxError>(SboxError::InvalidEncoding),
            Some(ks) => if ks.len() == 0 {
                r == Err::<Keyring, SboxError>(SboxError::NoUsableKeys)
            } else {
                r is Ok && r->Ok_0.well_formed() && r->Ok_0.keys() == ks && forall|x: int|
                    0 <= x < ks.len() ==> #[trigger] ks[x].len() > 0
            },
        },
{
    let cs = chars_of(t);
    let lines = split_chars(&cs, '\n');
    let ghost lv = char_views(lines@);
    assert(lv == split(t@, '\n'));
    let mut keys: Vec<Vec<u8>> = Vec::new();
    let mut ids: Vec<String> = Vec::new();
    let mut i: usize = 0;
    while i < lines.len()
        invariant
            i <= lines.len(),
            lv == char_views(lines@),
            lv == split(t@, '\n'),
            line_keys(lv.take(i as int)) == Some(Seq::new(keys@.len(), |x: int| keys@[x]@)),
            keys@.len() == ids@.len(),
            forall|x: int| 0 <= x < ids@.len() ==> #[trigger] ids@[x]@ == spec_keyid(keys@[x]@),
            forall|x: int| 0 <= x < keys@.len() ==> #[trigger] keys@[x]@.len() > 0,
        decreases lines.len() - i,
    {
        assert(lv.take(i + 1).drop_last() =~= lv.take(i as int));
        let ghost before = Seq::new(keys@.len(), |x: int| keys@[x]@);
        let tok = first_token_exec(&lines[i]);
        if tok.len() > 0 {
            let key = match decode_chars(&tok) {
                Ok(k) => k,
                Err(_) => {
                    proof {
                        assert(lv[i as int] == lines@[i as int]@);
                        assert(lv.take(i + 1).last() == lv[i as int]);
                        assert(line_keys(lv.take(i + 1)) is None);
                        lemma_line_keys_none(lv, i as int + 1);
                        assert(split(t@, '\n') == lv);
                    }
                    return Err(SboxError::InvalidEncoding);
                },
            };
            proof {
                crate::base85::lemma_decode_nonempty(tok@);
            }
            let id = keyid(key.as_slice());
            keys.push(key);
            ids.push(id);
            assert(Seq::new(keys@.len(), |x: int| keys@[x]@) =~= before.push(keys@.last()@));
        }
        i = i + 1;
    }
    assert(lv.take(i as int) =~= lv);
    assert(split(t@, '\n') == lv);
    if keys.len() == 0 {
        return Err(SboxError::NoUsableKeys);
    }
    let kr = Keyring { keys, ids };
    assert(kr.keys() =~= Seq::new(kr.keys@.len(), |x: int| kr.keys@[x]@));
    assert(forall|x: int| 0 <= x < kr.keys().len() ==> #[trigger] kr.keys()[x].len() > 0);
    Ok(kr)
}

proof fn lemma_line_keys_none(lines: Seq<Seq<char>>, i: int)
    requires
        0 < i <= lines.len(),
        line_keys(lines.take(i)) is None,
    ensures
        line_keys(lines) is None,
    decreases lines.len() - i,
{
    if i < lines.len() {
        assert(lines.take(i + 1).drop_last() =~= lines.take(i));
        lemma_line_keys_none(lines, i + 1);
    } else {
        assert(lines.take(i) =~= lines);
    }
}

} // verus!
