//! Sealed messages: `keyid/nonce/header/ciphertext`, each field base-85
//! encoded, sealed under the current key of a scope's keyring.
use crate::base85::{
    decode_chars, encode85, lemma_encode_no_slash, lemma_round_trip, spec_decode, spec_encode,
};
use crate::error::SboxError;
use crate::header::{header_json, header_text};
use crate::keyring::{key_map, keyid, load_keyring, spec_keyid, spec_keys};
use crate::spritz::{aead, aead_decrypt, lemma_open_seal, spec_hash, spec_open, spec_seal};
use crate::text::{
    append_str, chars_of, free_of, lemma_split_free, lemma_split_join, push_char, split, split_chars,
    utf8_text,
};
use vstd::prelude::*;
use vstd::utf8::{decode_utf8, encode_utf8, valid_utf8};

verus! {

/// The length of the tag of every sealed message.
pub const TAG_LEN: u8 = 32;

/// Four fields joined by `/`.
pub open spec fn join4(a: Seq<char>, b: Seq<char>, c: Seq<char>, d: Seq<char>) -> Seq<char> {
    a + seq!['/'] + b + seq!['/'] + c + seq!['/'] + d
}

/// The message for `data`, sealed with `key` under `nonce`, with the header
/// text `h` authenticated alongside.
pub open spec fn token(data: Seq<u8>, h: Seq<char>, key: Seq<u8>, nonce: Seq<u8>) -> Seq<char> {
    let hb = encode_utf8(h);
    join4(
        spec_keyid(key),
        spec_encode(nonce),
        spec_encode(hb),
        spec_encode(spec_seal(key, nonce, hb, data, TAG_LEN)),
    )
}

/// What loading the key material `keys` fails with, if it does.
pub open spec fn key_error(keys: Seq<char>) -> Option<SboxError> {
    match spec_keys(keys) {
        None => Some(SboxError::InvalidEncoding),
        Some(ks) => if ks.len() == 0 {
            Some(SboxError::NoUsableKeys)
        } else {
            None
        },
    }
}

/// The current key of the key material `keys`, when it loads.
pub open spec fn current_of(keys: Seq<char>) -> Seq<u8> {
    spec_keys(keys)->0.last()
}

/// Sealing: the token under the current key, or the key material's error.
pub open spec fn spec_sbox(
    data: Seq<u8>,
    hs: Seq<(String, String)>,
    scope: Seq<char>,
    keys: Seq<char>,
    nonce: Seq<u8>,
) -> Result<Seq<char>, SboxError> {
    match key_error(keys) {
        Some(e) => Err(e),
        None => Ok(token(data, header_text(hs, scope), current_of(keys), nonce)),
    }
}

/// Opening: the header text, with the plaintext or `AuthenticationFailure`;
/// or why the message could not be read at all.
pub open spec fn spec_unsbox(msg: Seq<char>, keys: Seq<char>) -> Result<
    (Seq<char>, Result<Seq<u8>, SboxError>),
    SboxError,
> {
    let f = split(msg, '/');
    if f.len() != 4 {
        Err(SboxError::MalformedMessage)
    } else {
        match key_error(keys) {
            Some(e) => Err(e),
            None => {
                let m = key_map(spec_keys(keys)->0);
                if !m.contains_key(f[0]) {
                    Err(SboxError::UnknownKeyId)
                } else {
                    match (spec_decode(f[1]), spec_decode(f[2]), spec_decode(f[3])) {
                        (Some(n), Some(h), Some(c)) => if !valid_utf8(h) {
                            Err(SboxError::MalformedMessage)
                        } else {
                            Ok(
                                (
                                    decode_utf8(h),
                                    match spec_open(m[f[0]], n, h, c, TAG_LEN) {
                                        Some(p) => Ok(p),
                                        None => Err(SboxError::AuthenticationFailure),
                                    },
                                ),
                            )
                        },
                        _ => Err(SboxError::InvalidEncoding),
                    }
                }
            },
        }
    }
}

/// Seals `data` under the current key of `keys_str` (the persisted key
/// material of `scope`), with `nonce`; the header holds `headers` and the
/// scope.
pub fn sbox_with_headers_scope_and_nonce(
    data: &[u8],
    headers: &Vec<(String, String)>,
    scope: &str,
    keys_str: &str,
    nonce: &[u8; 12],
) -> (r: Result<String, SboxError>)
    ensures
        match spec_sbox(data@, headers@, scope@, keys_str@, nonce@) {
            Ok(t) => r is Ok && r->Ok_0@ == t,
            Err(e) => r == Err::<String, SboxError>(e),
        },
{
    let kr = match load_keyring(keys_str) {
        Ok(kr) => kr,
        Err(e) => {
            return Err(e);
        },
    };
    let key = kr.current_key();
    let header = header_json(headers, scope);
    let hb = header.as_str().as_bytes();
    let ns = nonce.as_slice();
    let ct = aead(key.as_slice(), ns, hb, data, TAG_LEN);
    let mut out = keyid(key.as_slice());
    push_char(&mut out, '/');
    append_str(&mut out, encode85(ns).as_str());
    push_char(&mut out, '/');
    append_str(&mut out, encode85(hb).as_str());
    push_char(&mut out, '/');
    append_str(&mut out, encode85(ct.as_slice()).as_str());
    Ok(out)
}

/// Opens the message `msg` with the key material `keys_str` of its scope.
pub fn unsbox(msg: &str, keys_str: &str) -> (r: Result<
    (String, Result<Vec<u8>, SboxError>),
    SboxError,
>)
    ensures
        match spec_unsbox(msg@, keys_str@) {
            Ok((h, res)) => r is Ok && r->Ok_0.0@ == h && match res {
                Ok(p) => r->Ok_0.1 is Ok && r->Ok_0.1->Ok_0@ == p,
                Err(e) => r->Ok_0.1 == Err::<Vec<u8>, SboxError>(e),
            },
            Err(e) => r == Err::<(String, Result<Vec<u8>, SboxError>), SboxError>(e),
        },
{
    let cs = chars_of(msg);
    let fields = split_chars(&cs, '/');
    if fields.len() != 4 {
        return Err(SboxError::MalformedMessage);
    }
    assert(fields@[0]@ == split(msg@, '/')[0]);
    assert(fields@[1]@ == split(msg@, '/')[1]);
    assert(fields@[2]@ == split(msg@, '/')[2]);
    assert(fields@[3]@ == split(msg@, '/')[3]);
    let kr = match load_keyring(keys_str) {
        Ok(kr) => kr,
        Err(e) => {
            return Err(e);
        },
    };
    let key = match kr.lookup_chars(&fields[0]) {
        Ok(k) => k,
        Err(e) => {
            return Err(e);
        },
    };
    let nonce = match decode_chars(&fields[1]) {
        Ok(n) => n,
        Err(e) => {
            return Err(e);
        },
    };
    let h = match decode_chars(&fields[2]) {
        Ok(h) => h,
        Err(e) => {
            return Err(e);
        },
    };
    let ct = match decode_chars(&fields[3]) {
        Ok(c) => c,
        Err(e) => {
            return Err(e);
        },
    };
    let opened = aead_decrypt(key.as_slice(), nonce.as_slice(), h.as_slice(), ct.as_slice(), TAG_LEN);
    match utf8_text(h) {
        Some(text) => Ok((text, opened)),
        None => Err(SboxError::MalformedMessage),
    }
}

/// Relies on `rand::random`, which draws from the thread-local generator
/// (ChaCha, seeded by the operating system): twelve bytes, of which nothing
/// is known.
#[verifier::external_body]
fn gen_nonce() -> (r: [u8; 12]) {
    rand::random::<[u8; 12]>()
}

/// What sealing with a fresh random nonce gives: the token for some nonce of
/// twelve bytes, or the key material's error.
pub open spec fn sealed_with_some_nonce(
    r: Result<String, SboxError>,
    data: Seq<u8>,
    hs: Seq<(String, String)>,
    scope: Seq<char>,
    keys: Seq<char>,
) -> bool {
    match key_error(keys) {
        Some(e) => r == Err::<String, SboxError>(e),
        None => r is Ok && exists|n: Seq<u8>|
            n.len() == 12 && #[trigger] spec_sbox(data, hs, scope, keys, n) == Ok::<
                Seq<char>,
                SboxError,
            >(r->Ok_0@),
    }
}

/// Seals `data` with `headers` under `scope`, whose key material is
/// `keys_str`, with a fresh random nonce.
pub fn sbox_with_headers_and_scope(
    data: &[u8],
    headers: &Vec<(String, String)>,
    scope: &str,
    keys_str: &str,
) -> (r: Result<String, SboxError>)
    ensures
        sealed_with_some_nonce(r, data@, headers@, scope@, keys_str@),
{
    let nonce = gen_nonce();
    let r = sbox_with_headers_scope_and_nonce(data, headers, scope, keys_str, &nonce);
    assert(nonce@.len() == 12);
    r
}

/// Seals `data` with no headers of the caller's under `scope`.
pub fn sbox_with_scope(data: &[u8], scope: &str, keys_str: &str) -> (r: Result<String, SboxError>)
    ensures
        sealed_with_some_nonce(r, data@, Seq::empty(), scope@, keys_str@),
{
    let headers: Vec<(String, String)> = Vec::new();
    sbox_with_headers_and_scope(data, &headers, scope, keys_str)
}

/// Seals `data` with `headers` under the scope named after the caller's
/// identity, `user`.
pub fn sbox_with_headers(
    data: &[u8],
    headers: &Vec<(String, String)>,
    user: &str,
    keys_str: &str,
) -> (r: Result<String, SboxError>)
    ensures
        sealed_with_some_nonce(r, data@, headers@, user@, keys_str@),
{
    sbox_with_headers_and_scope(data, headers, user, keys_str)
}

/// Seals `data` under the scope named after the caller's identity, `user`.
pub fn sbox(data: &[u8], user: &str, keys_str: &str) -> (r: Result<String, SboxError>)
    ensures
        sealed_with_some_nonce(r, data@, Seq::empty(), user@, keys_str@),
{
    sbox_with_scope(data, user, keys_str)
}

proof fn lemma_split_token(a: Seq<char>, b: Seq<char>, c: Seq<char>, d: Seq<char>)
    requires
        free_of(a, '/'),
        free_of(b, '/'),
        free_of(c, '/'),
        free_of(d, '/'),
    ensures
        split(join4(a, b, c, d), '/') =~= seq![a, b, c, d],
{
    let s = seq!['/'];
    lemma_split_join(a, b, '/');
    lemma_split_join(a + s + b, c, '/');
    lemma_split_join(a + s + b + s + c, d, '/');
    lemma_split_free(a, '/');
    lemma_split_free(b, '/');
    lemma_split_free(c, '/');
    lemma_split_free(d, '/');
}

/// A token sealed with a key that the key material files under its id opens
/// to its header text and plaintext.
proof fn lemma_open_token(data: Seq<u8>, h: Seq<char>, key: Seq<u8>, nonce: Seq<u8>, keys: Seq<char>)
    requires
        key_error(keys) is None,
        key_map(spec_keys(keys)->0).contains_key(spec_keyid(key)),
        key_map(spec_keys(keys)->0)[spec_keyid(key)] == key,
    ensures
        spec_unsbox(token(data, h, key, nonce), keys) == Ok::<
            (Seq<char>, Result<Seq<u8>, SboxError>),
            SboxError,
        >((h, Ok(data))),
{
    broadcast use vstd::utf8::encode_utf8_valid_utf8, vstd::utf8::encode_utf8_decode_utf8;

    let hb = encode_utf8(h);
    let ct = spec_seal(key, nonce, hb, data, TAG_LEN);
    lemma_encode_no_slash(spec_hash(key, 8));
    lemma_encode_no_slash(nonce);
    lemma_encode_no_slash(hb);
    lemma_encode_no_slash(ct);
    lemma_split_token(spec_keyid(key), spec_encode(nonce), spec_encode(hb), spec_encode(ct));
    lemma_round_trip(nonce);
    lemma_round_trip(hb);
    lemma_round_trip(ct);
    lemma_open_seal(key, nonce, hb, data, TAG_LEN);
}

proof fn lemma_current_filed(keys: Seq<char>)
    requires
        key_error(keys) is None,
    ensures
        key_map(spec_keys(keys)->0).contains_key(spec_keyid(current_of(keys))),
        key_map(spec_keys(keys)->0)[spec_keyid(current_of(keys))] == current_of(keys),
{
}

/// Opening what was sealed with key material that loads gives back the
/// header text (the caller's entries and the scope) and the plaintext, for
/// every plaintext, header list and nonce.
pub proof fn lemma_unsbox_sbox(
    data: Seq<u8>,
    hs: Seq<(String, String)>,
    scope: Seq<char>,
    keys: Seq<char>,
    nonce: Seq<u8>,
)
    requires
        key_error(keys) is None,
    ensures
        spec_sbox(data, hs, scope, keys, nonce) is Ok,
        spec_unsbox(spec_sbox(data, hs, scope, keys, nonce)->Ok_0, keys) == Ok::<
            (Seq<char>, Result<Seq<u8>, SboxError>),
            SboxError,
        >((header_text(hs, scope), Ok(data))),
{
    lemma_current_filed(keys);
    lemma_open_token(data, header_text(hs, scope), current_of(keys), nonce, keys);
}

/// Adding a key on a new last line makes it current, and a message sealed
/// before, under the former current key, still opens, provided the two keys
/// have different ids.
pub proof fn lemma_rotation(
    data: Seq<u8>,
    hs: Seq<(String, String)>,
    scope: Seq<char>,
    keys: Seq<char>,
    row: Seq<char>,
    nonce: Seq<u8>,
)
    requires
        key_error(keys) is None,
        crate::keyring::first_token(row).len() > 0,
        free_of(row, '\n'),
        spec_decode(crate::keyring::first_token(row)) is Some,
        spec_keyid(spec_decode(crate::keyring::first_token(row))->0) != spec_keyid(
            current_of(keys),
        ),
    ensures
        key_error(keys + seq!['\n'] + row) is None,
        current_of(keys + seq!['\n'] + row) == spec_decode(crate::keyring::first_token(row))->0,
        spec_unsbox(spec_sbox(data, hs, scope, keys, nonce)->Ok_0, keys + seq!['\n'] + row)
            == Ok::<(Seq<char>, Result<Seq<u8>, SboxError>), SboxError>(
            (header_text(hs, scope), Ok(data)),
        ),
{
    let keys2 = keys + seq!['\n'] + row;
    let lines = split(keys, '\n');
    lemma_split_join(keys, row, '\n');
    lemma_split_free(row, '\n');
    assert(split(keys2, '\n') =~= lines.push(row));
    assert(lines.push(row).drop_last() =~= lines);
    let ks = spec_keys(keys)->0;
    let k2 = spec_decode(crate::keyring::first_token(row))->0;
    assert(spec_keys(keys2) == Some(ks.push(k2)));
    assert(ks.push(k2).drop_last() =~= ks);
    lemma_current_filed(keys);
    lemma_open_token(data, header_text(hs, scope), current_of(keys), nonce, keys2);
}

/// Two seals of the same message under the same key material with different
/// nonces give different tokens: the nonce travels in its own field.
pub proof fn lemma_nonce_distinguishes(
    data: Seq<u8>,
    hs: Seq<(String, String)>,
    scope: Seq<char>,
    keys: Seq<char>,
    n1: Seq<u8>,
    n2: Seq<u8>,
)
    requires
        key_error(keys) is None,
        n1 != n2,
    ensures
        spec_sbox(data, hs, scope, keys, n1) != spec_sbox(data, hs, scope, keys, n2),
{
    let key = current_of(keys);
    let h = header_text(hs, scope);
    let hb = encode_utf8(h);
    lemma_encode_no_slash(spec_hash(key, 8));
    lemma_encode_no_slash(hb);
    lemma_encode_no_slash(n1);
    lemma_encode_no_slash(n2);
    lemma_encode_no_slash(spec_seal(key, n1, hb, data, TAG_LEN));
    lemma_encode_no_slash(spec_seal(key, n2, hb, data, TAG_LEN));
    lemma_split_token(
        spec_keyid(key),
        spec_encode(n1),
        spec_encode(hb),
        spec_encode(spec_seal(key, n1, hb, data, TAG_LEN)),
    );
    lemma_split_token(
        spec_keyid(key),
        spec_encode(n2),
        spec_encode(hb),
        spec_encode(spec_seal(key, n2, hb, data, TAG_LEN)),
    );
    lemma_round_trip(n1);
    lemma_round_trip(n2);
    if token(data, h, key, n1) == token(data, h, key, n2) {
        assert(split(token(data, h, key, n1), '/')[1] == spec_encode(n1));
        assert(split(token(data, h, key, n2), '/')[1] == spec_encode(n2));
    }
}

} // verus!
