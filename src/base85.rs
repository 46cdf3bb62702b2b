//! A base-85 text encoding whose symbols avoid quotes, backslash, `/` and
//! whitespace, so that encoded fields can be joined with `/`.
use crate::error::SboxError;
use crate::text::{chars_of, free_of, push_char};
use vstd::prelude::*;

verus! {

/// The 85 symbols, in the order of the digits they stand for.
pub open spec fn alphabet() -> Seq<char> {
    seq![
        '!', '#', '%', '&', '(', '*', '+', '-', '.', '0', '1', '2', '3', '4', '5', '6', '7',
        '8', '9', ':', ';', '<', '=', '>', '?', '@', 'A', 'B', 'C', 'D', 'E', 'F', 'G', 'H',
        'I', 'J', 'K', 'L', 'M', 'N', 'O', 'P', 'Q', 'R', 'S', 'T', 'U', 'V', 'W', 'X', 'Y',
        'Z', '[', '^', '_', '`', 'a', 'b', 'c', 'd', 'e', 'f', 'g', 'h', 'i', 'j', 'k', 'l',
        'm', 'n', 'o', 'p', 'q', 'r', 's', 't', 'u', 'v', 'w', 'x', 'y', 'z', '{', '|', '~',
    ]
}

/// The last `n` digits of `v` in `base`, most significant first.
pub open spec fn digits(base: nat, v: nat, n: nat) -> Seq<nat>
    decreases n,
{
    if n == 0 {
        Seq::empty()
    } else {
        digits(base, v / base, (n - 1) as nat).push(v % base)
    }
}

/// The number that the digits `ds` write in `base`, most significant first.
pub open spec fn value(base: nat, ds: Seq<nat>) -> nat
    decreases ds.len(),
{
    if ds.len() == 0 {
        0
    } else {
        value(base, ds.drop_last()) * base + ds.last()
    }
}

pub open spec fn power(base: nat, k: nat) -> nat
    decreases k,
{
    if k == 0 {
        1
    } else {
        base * power(base, (k - 1) as nat)
    }
}

pub open spec fn byte_digits(b: Seq<u8>) -> Seq<nat> {
    Seq::new(b.len(), |x: int| b[x] as nat)
}

pub open spec fn digit_bytes(ds: Seq<nat>) -> Seq<u8> {
    Seq::new(ds.len(), |x: int| ds[x] as u8)
}

pub open spec fn symbols(ds: Seq<nat>) -> Seq<char> {
    Seq::new(ds.len(), |x: int| alphabet()[ds[x] as int])
}

pub open spec fn symbol_values(t: Seq<char>) -> Seq<nat> {
    Seq::new(t.len(), |x: int| symbol_value(t[x]))
}

/// The symbols for one group of one to four bytes: the group is padded with
/// zero bytes to four, read as a big-endian number and written with five
/// base-85 digits, of which the first `len + 1` are kept.
pub open spec fn encode_group(b: Seq<u8>) -> Seq<char> {
    let k = (4 - b.len()) as nat;
    let p = value(256, byte_digits(b)) * power(256, k) / power(85, k);
    symbols(digits(85, p, (b.len() + 1) as nat))
}

pub open spec fn group_len(len: nat, full: nat) -> nat {
    if len < full {
        len
    } else {
        full
    }
}

/// The text for `b`: one group of symbols for each four bytes.
pub open spec fn spec_encode(b: Seq<u8>) -> Seq<char>
    decreases b.len(),
{
    if b.len() == 0 {
        Seq::empty()
    } else {
        let n = group_len(b.len(), 4);
        encode_group(b.take(n as int)) + spec_encode(b.skip(n as int))
    }
}

pub open spec fn is_symbol(c: char) -> bool {
    alphabet().contains(c)
}

pub open spec fn symbol_value(c: char) -> nat {
    alphabet().index_of(c) as nat
}

/// The bytes of one group of two to five symbols: missing symbols count as the
/// highest digit, the five digits make a number below 2^32, and its first
/// `len - 1` big-endian bytes are kept.
pub open spec fn decode_group(t: Seq<char>) -> Option<Seq<u8>> {
    let k = (5 - t.len()) as nat;
    let full = value(85, symbol_values(t)) * power(85, k) + power(85, k) - 1;
    if t.len() < 2 || !(forall|x: int| 0 <= x < t.len() ==> is_symbol(#[trigger] t[x])) || full
        >= 0x1_0000_0000 {
        None
    } else {
        Some(digit_bytes(digits(256, (full / power(256, k) as int) as nat, (t.len() - 1) as nat)))
    }
}

/// The bytes that `t` encodes, group by group of five symbols; `None` when a
/// symbol is outside the alphabet, a group is a lone symbol, or a group is too
/// large for four bytes.
pub open spec fn spec_decode(t: Seq<char>) -> Option<Seq<u8>>
    decreases t.len(),
{
    if t.len() == 0 {
        Some(Seq::empty())
    } else {
        let n = group_len(t.len(), 5);
        match (decode_group(t.take(n as int)), spec_decode(t.skip(n as int))) {
            (Some(g), Some(r)) => Some(g + r),
            _ => None,
        }
    }
}

proof fn lemma_alphabet_distinct()
    ensures
        alphabet().len() == 85,
        alphabet().no_duplicates(),
{
}

proof fn lemma_digits_len(base: nat, v: nat, n: nat)
    requires
        base > 1,
    ensures
        digits(base, v, n).len() == n,
        forall|x: int| 0 <= x < n ==> #[trigger] digits(base, v, n)[x] < base,
    decreases n,
{
    if n > 0 {
        lemma_digits_len(base, v / base, (n - 1) as nat);
    }
}

proof fn lemma_value_digits(base: nat, v: nat, n: nat)
    requires
        base > 1,
        v < power(base, n),
    ensures
        value(base, digits(base, v, n)) == v,
    decreases n,
{
    if n > 0 {
        let q = v / base;
        vstd::arithmetic::div_mod::lemma_fundamental_div_mod(v as int, base as int);
        assert(q < power(base, (n - 1) as nat)) by (nonlinear_arith)
            requires
                v < base * power(base, (n - 1) as nat),
                v == base * q + v % base,
                v % base >= 0,
                base > 1,
        ;
        lemma_value_digits(base, q, (n - 1) as nat);
        let ds = digits(base, v, n);
        assert(ds.drop_last() =~= digits(base, q, (n - 1) as nat));
        assert(value(base, ds) == value(base, ds.drop_last()) * base + ds.last());
        assert(value(base, ds) == q * base + v % base);
        assert(q * base == base * q) by (nonlinear_arith);
    } else {
        assert(v == 0);
    }
}

proof fn lemma_digits_value(base: nat, ds: Seq<nat>)
    requires
        base > 1,
        forall|x: int| 0 <= x < ds.len() ==> #[trigger] ds[x] < base,
    ensures
        digits(base, value(base, ds), ds.len()) =~= ds,
    decreases ds.len(),
{
    if ds.len() > 0 {
        let init = ds.drop_last();
        lemma_digits_value(base, init);
        let v = value(base, ds);
        vstd::arithmetic::div_mod::lemma_fundamental_div_mod_converse(
            v as int,
            base as int,
            value(base, init) as int,
            ds.last() as int,
        );
    }
}

proof fn lemma_value_bound(base: nat, ds: Seq<nat>)
    requires
        base > 1,
        forall|x: int| 0 <= x < ds.len() ==> #[trigger] ds[x] < base,
    ensures
        value(base, ds) < power(base, ds.len()),
    decreases ds.len(),
{
    if ds.len() > 0 {
        let init = ds.drop_last();
        lemma_value_bound(base, init);
        let a = value(base, init);
        let pw = power(base, init.len());
        assert(a * base + ds.last() < base * pw) by (nonlinear_arith)
            requires
                a < pw,
                ds.last() < base,
        ;
    }
}

proof fn lemma_symbol_value(d: nat)
    requires
        d < 85,
    ensures
        symbol_value(alphabet()[d as int]) == d,
        is_symbol(alphabet()[d as int]),
{
    lemma_alphabet_distinct();
    let c = alphabet()[d as int];
    assert(alphabet().contains(c));
    let j = alphabet().index_of(c);
    assert(alphabet()[j] == c);
}

proof fn lemma_powers()
    ensures
        power(256, 0) == 1,
        power(256, 1) == 256,
        power(256, 2) == 65536,
        power(256, 3) == 16777216,
        power(256, 4) == 4294967296,
        power(85, 0) == 1,
        power(85, 1) == 85,
        power(85, 2) == 7225,
        power(85, 3) == 614125,
        power(85, 4) == 52200625,
        power(85, 5) == 4437053125,
{
    reveal_with_fuel(power, 6);
}

proof fn lemma_group_round_trip(b: Seq<u8>)
    requires
        1 <= b.len() <= 4,
    ensures
        encode_group(b).len() == b.len() + 1,
        decode_group(encode_group(b)) == Some(b),
{
    lemma_powers();
    let m = b.len();
    let k = (4 - m) as nat;
    let bd = byte_digits(b);
    lemma_value_bound(256, bd);
    let bv = value(256, bd);
    let p256 = power(256, k);
    let p85 = power(85, k);
    let x = bv * p256;
    let p = x / p85;
    assert(power(256, m) * p256 == 4294967296 && power(85, m + 1) * p85 == 4437053125 && p85
        <= p256) by {
        if m == 1 {
            assert(k == 3);
        } else if m == 2 {
            assert(k == 2);
        } else if m == 3 {
            assert(k == 1);
        } else {
            assert(k == 0);
        }
    }
    assert(x + p256 <= 4294967296) by (nonlinear_arith)
        requires
            bv < power(256, m),
            x == bv * p256,
            power(256, m) * p256 == 4294967296,
    ;
    vstd::arithmetic::div_mod::lemma_fundamental_div_mod(x as int, p85 as int);
    assert(p * p85 <= x < p * p85 + p85);
    assert(p85 <= p256);
    assert(p < power(85, m + 1)) by (nonlinear_arith)
        requires
            p * p85 <= x,
            x < 4294967296,
            power(85, m + 1) * p85 == 4437053125,
            p85 > 0,
    ;
    let ds = digits(85, p, m + 1);
    lemma_digits_len(85, p, m + 1);
    lemma_value_digits(85, p, m + 1);
    let t = encode_group(b);
    assert forall|i: int| 0 <= i < t.len() implies is_symbol(#[trigger] t[i]) && symbol_value(t[i])
        == ds[i] by {
        lemma_symbol_value(ds[i]);
    }
    assert(symbol_values(t) =~= ds);
    let full = p * p85 + p85 - 1;
    assert(bv * p256 <= full < (bv + 1) * p256) by (nonlinear_arith)
        requires
            x == bv * p256,
            p * p85 <= x < p * p85 + p85,
            full == p * p85 + p85 - 1,
            p85 <= p256,
    ;
    assert(full < 4294967296);
    vstd::arithmetic::div_mod::lemma_fundamental_div_mod_converse(
        full as int,
        p256 as int,
        bv as int,
        (full - bv * p256) as int,
    );
    lemma_digits_value(256, bd);
    assert(digit_bytes(bd) =~= b);
}

proof fn lemma_encode_len(b: Seq<u8>)
    ensures
        b.len() > 4 ==> spec_encode(b).len() >= 5,
        b.len() <= 4 ==> spec_encode(b).len() == (if b.len() == 0 {
            0
        } else {
            b.len() + 1
        }),
    decreases b.len(),
{
    if b.len() > 0 {
        let n = group_len(b.len(), 4);
        lemma_group_round_trip(b.take(n as int));
        lemma_encode_len(b.skip(n as int));
    }
}

/// Decoding what was encoded gives back the bytes, for every byte string.
pub proof fn lemma_round_trip(b: Seq<u8>)
    ensures
        spec_decode(spec_encode(b)) == Some(b),
    decreases b.len(),
{
    if b.len() > 0 {
        let n = group_len(b.len(), 4);
        let g = encode_group(b.take(n as int));
        let rest = spec_encode(b.skip(n as int));
        lemma_group_round_trip(b.take(n as int));
        lemma_round_trip(b.skip(n as int));
        lemma_encode_len(b.skip(n as int));
        let t = spec_encode(b);
        assert(t == g + rest);
        assert(group_len(t.len(), 5) == g.len());
        assert(t.take(g.len() as int) =~= g);
        assert(t.skip(g.len() as int) =~= rest);
        assert(b.take(n as int) + b.skip(n as int) =~= b);
    }
}

fn alphabet_vec() -> (r: Vec<char>)
    ensures
        r@ == alphabet(),
{
    let r = vec![
        '!', '#', '%', '&', '(', '*', '+', '-', '.', '0', '1', '2', '3', '4', '5', '6', '7',
        '8', '9', ':', ';', '<', '=', '>', '?', '@', 'A', 'B', 'C', 'D', 'E', 'F', 'G', 'H',
        'I', 'J', 'K', 'L', 'M', 'N', 'O', 'P', 'Q', 'R', 'S', 'T', 'U', 'V', 'W', 'X', 'Y',
        'Z', '[', '^', '_', '`', 'a', 'b', 'c', 'd', 'e', 'f', 'g', 'h', 'i', 'j', 'k', 'l',
        'm', 'n', 'o', 'p', 'q', 'r', 's', 't', 'u', 'v', 'w', 'x', 'y', 'z', '{', '|', '~',
    ];
    assert(r@ =~= alphabet());
    r
}

fn group_scales(n: usize) -> (r: (u64, u64))
    requires
        1 <= n <= 4,
    ensures
        r.0 == power(256, (4 - n) as nat),
        r.1 == power(85, (4 - n) as nat),
{
    proof {
        lemma_powers();
    }
    if n == 1 {
        (16777216, 614125)
    } else if n == 2 {
        (65536, 7225)
    } else if n == 3 {
        (256, 85)
    } else {
        (1, 1)
    }
}

fn encode_group_exec(alpha: &Vec<char>, b: &[u8], p: usize, n: usize) -> (r: Vec<char>)
    requires
        alpha@ == alphabet(),
        1 <= n <= 4,
        p + n <= b.len(),
    ensures
        r@ == encode_group(b@.subrange(p as int, p + n)),
{
    let ghost g = b@.subrange(p as int, p + n);
    proof {
        lemma_powers();
    }
    let mut v: u64 = 0;
    let mut i: usize = 0;
    while i < n
        invariant
            i <= n <= 4,
            p + n <= b.len(),
            g == b@.subrange(p as int, p + n),
            v == value(256, byte_digits(g.take(i as int))),
            v < power(256, i as nat),
            power(256, 4) == 4294967296,
        decreases n - i,
    {
        assert(byte_digits(g.take(i + 1)).drop_last() =~= byte_digits(g.take(i as int)));
        proof {
            reveal_with_fuel(power, 2);
            assert(power(256, i as nat) <= 4294967296) by {
                lemma_powers();
                assert(i == 0 || i == 1 || i == 2 || i == 3);
            }
        }
        v = v * 256 + b[p + i] as u64;
        i = i + 1;
    }
    assert(g.take(n as int) =~= g);
    let (m256, m85) = group_scales(n);
    assert(power(256, n as nat) * power(256, (4 - n) as nat) == 4294967296) by {
        if n == 1 {
        } else if n == 2 {
        } else if n == 3 {
        } else {
        }
    }
    assert(v * m256 <= 4294967296) by (nonlinear_arith)
        requires
            v < power(256, n as nat),
            m256 == power(256, (4 - n) as nat),
            power(256, n as nat) * power(256, (4 - n) as nat) == 4294967296,
    {
    }
    let big = v * m256 / m85;
    let ghost ds = digits(85, big as nat, (n + 1) as nat);
    let mut q: u64 = big;
    let mut r: Vec<char> = Vec::new();
    let mut j: usize = 0;
    while j < n + 1
        invariant
            j <= n + 1,
            n <= 4,
            alpha@ == alphabet(),
            symbols(ds) =~= symbols(digits(85, q as nat, (n + 1 - j) as nat)) + r@,
        decreases n + 1 - j,
    {
        let d = q % 85;
        let ghost rest = digits(85, q as nat / 85, (n - j) as nat);
        assert(symbols(rest.push(d as nat)) =~= symbols(rest).push(alphabet()[d as int]));
        r.insert(0, alpha[d as usize]);
        q = q / 85;
        j = j + 1;
    }
    r
}

/// The text that encodes `b`.
pub fn encode85(b: &[u8]) -> (r: String)
    ensures
        r@ == spec_encode(b@),
{
    let alpha = alphabet_vec();
    let mut out = String::new();
    let mut p: usize = 0;
    assert(b@.skip(0) =~= b@);
    while p < b.len()
        invariant
            p <= b.len(),
            alpha@ == alphabet(),
            out@ + spec_encode(b@.skip(p as int)) == spec_encode(b@),
        decreases b.len() - p,
    {
        let ghost rest = b@.skip(p as int);
        let n: usize = if b.len() - p < 4 {
            b.len() - p
        } else {
            4
        };
        assert(rest.take(n as int) =~= b@.subrange(p as int, p + n));
        assert(rest.skip(n as int) =~= b@.skip(p + n));
        let grp = encode_group_exec(&alpha, b, p, n);
        let ghost out0 = out@;
        let mut x: usize = 0;
        while x < grp.len()
            invariant
                x <= grp.len(),
                out@ == out0 + grp@.take(x as int),
            decreases grp.len() - x,
        {
            push_char(&mut out, grp[x]);
            assert(grp@.take(x + 1) =~= grp@.take(x as int).push(grp@[x as int]));
            x = x + 1;
        }
        assert(grp@.take(x as int) =~= grp@);
        p = p + n;
        assert(out0 + (grp@ + spec_encode(b@.skip(p as int))) =~= out@ + spec_encode(
            b@.skip(p as int),
        ));
    }
    assert(b@.skip(p as int) =~= Seq::<u8>::empty());
    assert(out@ =~= spec_encode(b@));
    out
}

fn symbol_digit(alpha: &Vec<char>, c: char) -> (r: Option<u64>)
    requires
        alpha@ == alphabet(),
    ensures
        r is Some <==> is_symbol(c),
        r is Some ==> r->0 == symbol_value(c) && r->0 < 85,
{
    let mut i: usize = 0;
    while i < alpha.len()
        invariant
            i <= alpha.len(),
            alpha@ == alphabet(),
            forall|x: int| 0 <= x < i ==> alphabet()[x] != c,
        decreases alpha.len() - i,
    {
        if alpha[i] == c {
            proof {
                lemma_symbol_value(i as nat);
            }
            return Some(i as u64);
        }
        i = i + 1;
    }
    None
}

fn decode_group_exec(alpha: &Vec<char>, t: &Vec<char>, p: usize, n: usize) -> (r: Option<Vec<u8>>)
    requires
        alpha@ == alphabet(),
        1 <= n <= 5,
        p + n <= t.len(),
    ensures
        match decode_group(t@.subrange(p as int, p + n)) {
            Some(g) => r is Some && r->0@ == g,
            None => r is None,
        },
{
    let ghost g = t@.subrange(p as int, p + n);
    if n < 2 {
        return None;
    }
    proof {
        lemma_powers();
    }
    let mut v: u64 = 0;
    let mut i: usize = 0;
    while i < n
        invariant
            i <= n <= 5,
            p + n <= t.len(),
            alpha@ == alphabet(),
            g == t@.subrange(p as int, p + n),
            forall|x: int| 0 <= x < i ==> is_symbol(#[trigger] g[x]),
            v == value(85, symbol_values(g.take(i as int))),
            v < power(85, i as nat),
            power(85, 5) == 4437053125,
        decreases n - i,
    {
        let d = match symbol_digit(alpha, t[p + i]) {
            Some(d) => d,
            None => {
                assert(!is_symbol(g[i as int]));
                return None;
            },
        };
        assert(symbol_values(g.take(i + 1)).drop_last() =~= symbol_values(g.take(i as int)));
        proof {
            reveal_with_fuel(power, 2);
            assert(power(85, i as nat) <= 52200625) by {
                assert(i == 0 || i == 1 || i == 2 || i == 3 || i == 4);
            }
        }
        v = v * 85 + d;
        i = i + 1;
    }
    assert(g.take(n as int) =~= g);
    let (m256, m85) = group_scales(n - 1);
    assert(power(85, n as nat) * power(85, (5 - n) as nat) == 4437053125) by {
        if n == 2 {
        } else if n == 3 {
        } else if n == 4 {
        } else {
        }
    }
    assert(v * m85 + m85 <= 4437053125) by (nonlinear_arith)
        requires
            v < power(85, n as nat),
            m85 == power(85, (5 - n) as nat),
            power(85, n as nat) * power(85, (5 - n) as nat) == 4437053125,
    {
    }
    let full = v * m85 + m85 - 1;
    if full >= 0x1_0000_0000 {
        return None;
    }
    let big = full / m256;
    let ghost ds = digits(256, big as nat, (n - 1) as nat);
    let mut q: u64 = big;
    let mut r: Vec<u8> = Vec::new();
    let mut j: usize = 0;
    while j < n - 1
        invariant
            j <= n - 1,
            n <= 5,
            digit_bytes(ds) =~= digit_bytes(digits(256, q as nat, (n - 1 - j) as nat)) + r@,
        decreases n - 1 - j,
    {
        let d = q % 256;
        let ghost rest = digits(256, q as nat / 256, (n - 2 - j) as nat);
        assert(digit_bytes(rest.push(d as nat)) =~= digit_bytes(rest).push(d as u8));
        r.insert(0, d as u8);
        q = q / 256;
        j = j + 1;
    }
    Some(r)
}

pub(crate) fn decode_chars(t: &Vec<char>) -> (r: Result<Vec<u8>, SboxError>)
    ensures
        match spec_decode(t@) {
            Some(b) => r is Ok && r->Ok_0@ == b,
            None => r == Err::<Vec<u8>, SboxError>(SboxError::InvalidEncoding),
        },
{
    let alpha = alphabet_vec();
    let mut out: Vec<u8> = Vec::new();
    let mut p: usize = 0;
    assert(t@.skip(0) =~= t@);
    while p < t.len()
        invariant
            p <= t.len(),
            alpha@ == alphabet(),
            spec_decode(t@) == match spec_decode(t@.skip(p as int)) {
                Some(rest) => Some(out@ + rest),
                None => None,
            },
        decreases t.len() - p,
    {
        let ghost rest = t@.skip(p as int);
        let n: usize = if t.len() - p < 5 {
            t.len() - p
        } else {
            5
        };
        assert(rest.take(n as int) =~= t@.subrange(p as int, p + n));
        assert(rest.skip(n as int) =~= t@.skip(p + n));
        let mut grp = match decode_group_exec(&alpha, t, p, n) {
            Some(g) => g,
            None => {
                return Err(SboxError::InvalidEncoding);
            },
        };
        let ghost out0 = out@;
        let ghost g = grp@;
        out.append(&mut grp);
        p = p + n;
        assert(forall|r: Seq<u8>| out0 + (g + r) =~= out@ + r);
    }
    assert(t@.skip(p as int) =~= Seq::<char>::empty());
    assert(out@ + Seq::<u8>::empty() =~= out@);
    Ok(out)
}

/// The bytes that `t` encodes, or `InvalidEncoding`.
pub fn decode85(t: &str) -> (r: Result<Vec<u8>, SboxError>)
    ensures
        match spec_decode(t@) {
            Some(b) => r is Ok && r->Ok_0@ == b,
            None => r == Err::<Vec<u8>, SboxError>(SboxError::InvalidEncoding),
        },
{
    let cs = chars_of(t);
    decode_chars(&cs)
}

proof fn lemma_alphabet_no_slash(d: int)
    requires
        0 <= d < 85,
    ensures
        alphabet()[d] != '/',
{
}

/// Encoded text never holds `/`, the field separator of tokens.
pub proof fn lemma_encode_no_slash(b: Seq<u8>)
    ensures
        free_of(spec_encode(b), '/'),
    decreases b.len(),
{
    if b.len() > 0 {
        let n = group_len(b.len(), 4);
        let g = b.take(n as int);
        lemma_encode_no_slash(b.skip(n as int));
        let k = (4 - g.len()) as nat;
        let p = value(256, byte_digits(g)) * power(256, k) / power(85, k);
        lemma_digits_len(85, p, (g.len() + 1) as nat);
        let ds = digits(85, p, (g.len() + 1) as nat);
        assert forall|x: int| 0 <= x < encode_group(g).len() implies encode_group(g)[x] != '/' by {
            lemma_alphabet_no_slash(ds[x] as int);
        }
        let t = spec_encode(b);
        assert forall|x: int| 0 <= x < t.len() implies t[x] != '/' by {
            if x >= encode_group(g).len() {
                assert(t[x] == spec_encode(b.skip(n as int))[x - encode_group(g).len()]);
            }
        }
    }
}

/// Non-empty text that decodes gives at least one byte.
pub proof fn lemma_decode_nonempty(t: Seq<char>)
    requires
        t.len() > 0,
        spec_decode(t) is Some,
    ensures
        spec_decode(t)->0.len() > 0,
{
    let n = group_len(t.len(), 5);
    let g = t.take(n as int);
    let k = (5 - g.len()) as nat;
    let full = value(85, symbol_values(g)) * power(85, k) + power(85, k) - 1;
    lemma_digits_len(256, (full / power(256, k) as int) as nat, (g.len() - 1) as nat);
}

} // verus!
