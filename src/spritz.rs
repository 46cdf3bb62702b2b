//! The Spritz sponge: keyed hashing, keystream output and authenticated
//! encryption with associated data, all built on one byte permutation.
use crate::error::SboxError;
use vstd::prelude::*;

verus! {

/// The abstract state of the sponge: six registers and the permutation.
pub struct SpritzState {
    pub i: u8,
    pub j: u8,
    pub k: u8,
    pub z: u8,
    pub a: u8,
    pub w: u8,
    pub s: Seq<u8>,
}

pub open spec fn add8(x: u8, y: u8) -> u8 {
    ((x as int + y as int) % 256) as u8
}

pub open spec fn sub8(x: u8, y: u8) -> u8 {
    ((x as int - y as int + 256) % 256) as u8
}

pub open spec fn swap_at(s: Seq<u8>, x: int, y: int) -> Seq<u8> {
    s.update(x, s[y]).update(y, s[x])
}

pub open spec fn well_formed(st: SpritzState) -> bool {
    st.s.len() == 256 && st.a <= 128
}

/// The starting state: the identity permutation, `w` at one.
pub open spec fn initial() -> SpritzState {
    SpritzState { i: 0, j: 0, k: 0, z: 0, a: 0, w: 1, s: Seq::new(256, |x: int| x as u8) }
}

#[verifier::opaque]
pub open spec fn step(st: SpritzState) -> SpritzState {
    let i = add8(st.i, st.w);
    let j = add8(st.k, st.s[add8(st.j, st.s[i as int]) as int]);
    let k = add8(add8(i, st.k), st.s[j as int]);
    SpritzState { i, j, k, s: swap_at(st.s, i as int, j as int), ..st }
}

pub open spec fn steps(st: SpritzState, n: nat) -> SpritzState
    decreases n,
{
    if n == 0 {
        st
    } else {
        step(steps(st, (n - 1) as nat))
    }
}

pub open spec fn whip(st: SpritzState) -> SpritzState {
    let t = steps(st, 512);
    SpritzState { w: add8(t.w, 2), ..t }
}

pub open spec fn crush_pair(s: Seq<u8>, v: int) -> Seq<u8> {
    if s[v] > s[255 - v] {
        swap_at(s, v, 255 - v)
    } else {
        s
    }
}

pub open spec fn crush_upto(s: Seq<u8>, n: nat) -> Seq<u8>
    decreases n,
{
    if n == 0 {
        s
    } else {
        crush_pair(crush_upto(s, (n - 1) as nat), n - 1)
    }
}

pub open spec fn crush(st: SpritzState) -> SpritzState {
    SpritzState { s: crush_upto(st.s, 128), ..st }
}

#[verifier::opaque]
pub open spec fn shuffle(st: SpritzState) -> SpritzState {
    let t = whip(crush(whip(crush(whip(st)))));
    SpritzState { a: 0, ..t }
}

pub open spec fn shuffle_if_full(st: SpritzState) -> SpritzState {
    if st.a == 128 {
        shuffle(st)
    } else {
        st
    }
}

pub open spec fn absorb_nibble(st: SpritzState, x: u8) -> SpritzState {
    let t = shuffle_if_full(st);
    SpritzState { s: swap_at(t.s, t.a as int, 128 + x), a: (t.a + 1) as u8, ..t }
}

pub open spec fn absorb_byte(st: SpritzState, b: u8) -> SpritzState {
    absorb_nibble(absorb_nibble(st, b % 16), b / 16)
}

pub open spec fn absorb(st: SpritzState, m: Seq<u8>) -> SpritzState
    decreases m.len(),
{
    if m.len() == 0 {
        st
    } else {
        absorb_byte(absorb(st, m.drop_last()), m.last())
    }
}

pub open spec fn absorb_stop(st: SpritzState) -> SpritzState {
    let t = shuffle_if_full(st);
    SpritzState { a: (t.a + 1) as u8, ..t }
}

pub open spec fn shuffle_if_absorbed(st: SpritzState) -> SpritzState {
    if st.a > 0 {
        shuffle(st)
    } else {
        st
    }
}

/// One output byte: the new `z` register.
#[verifier::opaque]
pub open spec fn output(st: SpritzState) -> SpritzState {
    let s = st.s;
    let z = s[add8(st.j, s[add8(st.i, s[add8(st.z, st.k) as int]) as int]) as int];
    SpritzState { z, ..st }
}

pub open spec fn drip(st: SpritzState) -> SpritzState {
    output(step(shuffle_if_absorbed(st)))
}

/// `n` drips in a row, with the bytes they give.
pub open spec fn drips(st: SpritzState, n: nat) -> (SpritzState, Seq<u8>)
    decreases n,
{
    if n == 0 {
        (st, Seq::empty())
    } else {
        let (t, o) = drips(st, (n - 1) as nat);
        let u = drip(t);
        (u, o.push(u.z))
    }
}

pub open spec fn squeeze(st: SpritzState, n: nat) -> (SpritzState, Seq<u8>) {
    drips(shuffle_if_absorbed(st), n)
}

/// The digest of `m`, `r` bytes long.
pub open spec fn spec_hash(m: Seq<u8>, r: u8) -> Seq<u8> {
    squeeze(absorb_byte(absorb_stop(absorb(initial(), m)), r), r as nat).1
}

/// The state after key, nonce and associated data have been absorbed.
pub open spec fn keyed(key: Seq<u8>, nonce: Seq<u8>, aad: Seq<u8>) -> SpritzState {
    absorb_stop(absorb(absorb_stop(absorb(absorb_stop(absorb(initial(), key)), nonce)), aad))
}

pub open spec fn block_len(len: nat) -> nat {
    if len < 64 {
        len
    } else {
        64
    }
}

/// One block: keystream is added to the plaintext, and the ciphertext is
/// absorbed back.
pub open spec fn encrypt_block(st: SpritzState, blk: Seq<u8>) -> (SpritzState, Seq<u8>) {
    let (t, ks) = squeeze(st, blk.len());
    let c = Seq::new(blk.len(), |x: int| add8(blk[x], ks[x]));
    (absorb(t, c), c)
}

/// One block read back: keystream is subtracted, and the ciphertext absorbed.
pub open spec fn decrypt_block(st: SpritzState, blk: Seq<u8>) -> (SpritzState, Seq<u8>) {
    let (t, ks) = squeeze(st, blk.len());
    (absorb(t, blk), Seq::new(blk.len(), |x: int| sub8(blk[x], ks[x])))
}

/// Encrypts `m` block by block: each block is added to fresh keystream and
/// the ciphertext block is absorbed back.
pub open spec fn encrypt_blocks(st: SpritzState, m: Seq<u8>) -> (SpritzState, Seq<u8>)
    decreases m.len(),
{
    if m.len() == 0 {
        (st, Seq::empty())
    } else {
        let n = block_len(m.len());
        let (t, c) = encrypt_block(st, m.take(n as int));
        let (u, rest) = encrypt_blocks(t, m.skip(n as int));
        (u, c + rest)
    }
}

/// The inverse walk: keystream is subtracted, and the ciphertext is absorbed.
pub open spec fn decrypt_blocks(st: SpritzState, c: Seq<u8>) -> (SpritzState, Seq<u8>)
    decreases c.len(),
{
    if c.len() == 0 {
        (st, Seq::empty())
    } else {
        let n = block_len(c.len());
        let (t, p) = decrypt_block(st, c.take(n as int));
        let (u, rest) = decrypt_blocks(t, c.skip(n as int));
        (u, p + rest)
    }
}

pub open spec fn tag_of(st: SpritzState, r: u8) -> Seq<u8> {
    squeeze(absorb_byte(absorb_stop(st), r), r as nat).1
}

/// Ciphertext followed by an `r`-byte tag.
pub open spec fn spec_seal(
    key: Seq<u8>,
    nonce: Seq<u8>,
    aad: Seq<u8>,
    m: Seq<u8>,
    r: u8,
) -> Seq<u8> {
    let (st, c) = encrypt_blocks(keyed(key, nonce, aad), m);
    c + tag_of(st, r)
}

/// The plaintext, when the trailing `r` bytes are the tag of the rest.
pub open spec fn spec_open(
    key: Seq<u8>,
    nonce: Seq<u8>,
    aad: Seq<u8>,
    ct: Seq<u8>,
    r: u8,
) -> Option<Seq<u8>> {
    if ct.len() < r {
        None
    } else {
        let body = ct.take(ct.len() - r);
        let (st, m) = decrypt_blocks(keyed(key, nonce, aad), body);
        if tag_of(st, r) == ct.skip(ct.len() - r) {
            Some(m)
        } else {
            None
        }
    }
}


proof fn lemma_steps_wf(st: SpritzState, n: nat)
    requires
        well_formed(st),
    ensures
        well_formed(steps(st, n)),
        steps(st, n).a == st.a,
    decreases n,
{
    reveal(step);
    if n > 0 {
        lemma_steps_wf(st, (n - 1) as nat);
    }
}

proof fn lemma_crush_len(s: Seq<u8>, n: nat)
    requires
        s.len() == 256,
        n <= 128,
    ensures
        crush_upto(s, n).len() == 256,
    decreases n,
{
    if n > 0 {
        lemma_crush_len(s, (n - 1) as nat);
    }
}

proof fn lemma_shuffle_wf(st: SpritzState)
    requires
        well_formed(st),
    ensures
        well_formed(shuffle(st)),
        shuffle(st).a == 0,
{
    reveal(shuffle);
    let t1 = whip(st);
    lemma_steps_wf(st, 512);
    lemma_crush_len(t1.s, 128);
    let t2 = whip(crush(t1));
    lemma_steps_wf(crush(t1), 512);
    lemma_crush_len(t2.s, 128);
    lemma_steps_wf(crush(t2), 512);
}

proof fn lemma_absorb_wf(st: SpritzState, m: Seq<u8>)
    requires
        well_formed(st),
    ensures
        well_formed(absorb(st, m)),
    decreases m.len(),
{
    if m.len() > 0 {
        lemma_absorb_wf(st, m.drop_last());
        let t = absorb(st, m.drop_last());
        if t.a == 128 {
            lemma_shuffle_wf(t);
        }
        let u = absorb_nibble(t, m.last() % 16);
        if u.a == 128 {
            lemma_shuffle_wf(u);
        }
    }
}

proof fn lemma_drips_wf(st: SpritzState, n: nat)
    requires
        well_formed(st),
    ensures
        well_formed(drips(st, n).0),
        drips(st, n).1.len() == n,
    decreases n,
{
    reveal(step);
    reveal(output);
    if n > 0 {
        lemma_drips_wf(st, (n - 1) as nat);
        let t = drips(st, (n - 1) as nat).0;
        if t.a > 0 {
            lemma_shuffle_wf(t);
        }
    }
}

/// A running sponge.
struct Spritz {
    i: u8,
    j: u8,
    k: u8,
    z: u8,
    a: u8,
    w: u8,
    s: Vec<u8>,
}

impl View for Spritz {
    type V = SpritzState;

    closed spec fn view(&self) -> SpritzState {
        SpritzState { i: self.i, j: self.j, k: self.k, z: self.z, a: self.a, w: self.w, s: self.s@ }
    }
}

fn wrap_add(x: u8, y: u8) -> (r: u8)
    ensures
        r == add8(x, y),
{
    ((x as u16 + y as u16) % 256) as u8
}

fn wrap_sub(x: u8, y: u8) -> (r: u8)
    ensures
        r == sub8(x, y),
{
    ((x as u16 + 256 - y as u16) % 256) as u8
}

impl Spritz {
    fn new() -> (r: Spritz)
        ensures
            r@ == initial(),
    {
        let mut s: Vec<u8> = Vec::new();
        let mut v: usize = 0;
        while v < 256
            invariant
                v <= 256,
                s@ =~= Seq::new(v as nat, |x: int| x as u8),
            decreases 256 - v,
        {
            s.push(v as u8);
            v = v + 1;
        }
        assert(s@ =~= Seq::new(256, |x: int| x as u8));
        Spritz { i: 0, j: 0, k: 0, z: 0, a: 0, w: 1, s }
    }

    fn swap(&mut self, x: u8, y: u8)
        requires
            old(self).s.len() == 256,
        ensures
            final(self)@ == (SpritzState { s: swap_at(old(self).s@, x as int, y as int), ..old(self)@ }),
    {
        let tx = self.s[x as usize];
        let ty = self.s[y as usize];
        self.s.set(x as usize, ty);
        self.s.set(y as usize, tx);
    }

    fn update(&mut self)
        requires
            well_formed(old(self)@),
        ensures
            final(self)@ == step(old(self)@),
    {
        reveal(step);
        self.i = wrap_add(self.i, self.w);
        let si = self.s[self.i as usize];
        let sj = self.s[wrap_add(self.j, si) as usize];
        self.j = wrap_add(self.k, sj);
        self.k = wrap_add(wrap_add(self.i, self.k), self.s[self.j as usize]);
        self.swap(self.i, self.j);
    }

    fn whip(&mut self)
        requires
            well_formed(old(self)@),
        ensures
            final(self)@ == whip(old(self)@),
    {
        let ghost st = self@;
        let mut n: usize = 0;
        while n < 512
            invariant
                n <= 512,
                self@ == steps(st, n as nat),
                well_formed(st),
            decreases 512 - n,
        {
            proof {
                lemma_steps_wf(st, n as nat);
            }
            self.update();
            n = n + 1;
        }
        self.w = wrap_add(self.w, 2);
    }

    fn crush(&mut self)
        requires
            well_formed(old(self)@),
        ensures
            final(self)@ == crush(old(self)@),
    {
        let ghost st = self@;
        let mut v: usize = 0;
        while v < 128
            invariant
                v <= 128,
                well_formed(st),
                self@ == (SpritzState { s: crush_upto(st.s, v as nat), ..st }),
            decreases 128 - v,
        {
            proof {
                lemma_crush_len(st.s, v as nat);
            }
            let hi: usize = 255 - v;
            if self.s[v] > self.s[hi] {
                self.swap(v as u8, hi as u8);
            }
            v = v + 1;
        }
    }

    fn shuffle(&mut self)
        requires
            well_formed(old(self)@),
        ensures
            final(self)@ == shuffle(old(self)@),
    {
        reveal(shuffle);
        let ghost st = self@;
        proof {
            lemma_shuffle_wf(st);
            lemma_steps_wf(st, 512);
            lemma_crush_len(whip(st).s, 128);
            lemma_steps_wf(crush(whip(st)), 512);
            lemma_crush_len(whip(crush(whip(st))).s, 128);
        }
        self.whip();
        self.crush();
        self.whip();
        self.crush();
        self.whip();
        self.a = 0;
    }

    fn absorb_nibble(&mut self, x: u8)
        requires
            well_formed(old(self)@),
            x < 16,
        ensures
            final(self)@ == absorb_nibble(old(self)@, x),
            well_formed(final(self)@),
    {
        if self.a == 128 {
            proof {
                lemma_shuffle_wf(self@);
            }
            self.shuffle();
        }
        self.swap(self.a, 128 + x);
        self.a = self.a + 1;
    }

    fn absorb_byte(&mut self, b: u8)
        requires
            well_formed(old(self)@),
        ensures
            final(self)@ == absorb_byte(old(self)@, b),
            well_formed(final(self)@),
    {
        self.absorb_nibble(b % 16);
        self.absorb_nibble(b / 16);
    }

    fn absorb(&mut self, m: &[u8])
        requires
            well_formed(old(self)@),
        ensures
            final(self)@ == absorb(old(self)@, m@),
            well_formed(final(self)@),
    {
        let ghost st = self@;
        let mut p: usize = 0;
        while p < m.len()
            invariant
                p <= m.len(),
                self@ == absorb(st, m@.take(p as int)),
                well_formed(self@),
            decreases m.len() - p,
        {
            assert(m@.take(p + 1).drop_last() =~= m@.take(p as int));
            self.absorb_byte(m[p]);
            p = p + 1;
        }
        assert(m@.take(p as int) =~= m@);
    }

    fn absorb_stop(&mut self)
        requires
            well_formed(old(self)@),
        ensures
            final(self)@ == absorb_stop(old(self)@),
            well_formed(final(self)@),
    {
        if self.a == 128 {
            proof {
                lemma_shuffle_wf(self@);
            }
            self.shuffle();
        }
        self.a = self.a + 1;
    }

    fn drip(&mut self) -> (r: u8)
        requires
            well_formed(old(self)@),
        ensures
            final(self)@ == drip(old(self)@),
            r == final(self).z,
            well_formed(final(self)@),
    {
        if self.a > 0 {
            proof {
                lemma_shuffle_wf(self@);
            }
            self.shuffle();
        }
        self.update();
        proof {
            reveal(step);
            reveal(output);
        }
        let c = self.s[wrap_add(self.z, self.k) as usize];
        let b = self.s[wrap_add(self.i, c) as usize];
        self.z = self.s[wrap_add(self.j, b) as usize];
        self.z
    }

    fn squeeze(&mut self, n: usize) -> (r: Vec<u8>)
        requires
            well_formed(old(self)@),
        ensures
            (final(self)@, r@) == squeeze(old(self)@, n as nat),
            well_formed(final(self)@),
    {
        if self.a > 0 {
            proof {
                lemma_shuffle_wf(self@);
            }
            self.shuffle();
        }
        let ghost st = self@;
        let mut out: Vec<u8> = Vec::new();
        let mut p: usize = 0;
        while p < n
            invariant
                p <= n,
                (self@, out@) == drips(st, p as nat),
                well_formed(self@),
            decreases n - p,
        {
            let b = self.drip();
            out.push(b);
            p = p + 1;
        }
        out
    }
}

/// The digest of `m`, exactly `r` bytes long.
pub fn hash(m: &[u8], r: u8) -> (out: Vec<u8>)
    ensures
        out@ == spec_hash(m@, r),
        out@.len() == r,
{
    let mut sp = Spritz::new();
    sp.absorb(m);
    sp.absorb_stop();
    sp.absorb_byte(r);
    let out = sp.squeeze(r as usize);
    proof {
        lemma_absorb_wf(initial(), m@);
        let t = absorb_byte(absorb_stop(absorb(initial(), m@)), r);
        if t.a > 0 {
            lemma_shuffle_wf(t);
        }
        lemma_drips_wf(shuffle_if_absorbed(t), r as nat);
    }
    out
}

fn keyed_sponge(key: &[u8], nonce: &[u8], aad: &[u8]) -> (sp: Spritz)
    ensures
        sp@ == keyed(key@, nonce@, aad@),
        well_formed(sp@),
{
    let mut sp = Spritz::new();
    sp.absorb(key);
    sp.absorb_stop();
    sp.absorb(nonce);
    sp.absorb_stop();
    sp.absorb(aad);
    sp.absorb_stop();
    sp
}

/// Seals `m`: the ciphertext, as long as `m`, followed by a tag of `r` bytes
/// that authenticates the key, the nonce, `aad` and the ciphertext.
pub fn aead(key: &[u8], nonce: &[u8], aad: &[u8], m: &[u8], r: u8) -> (out: Vec<u8>)
    ensures
        out@ == spec_seal(key@, nonce@, aad@, m@, r),
        out@.len() == m@.len() + r,
{
    let mut sp = keyed_sponge(key, nonce, aad);
    let ghost st0 = sp@;
    let ghost total = encrypt_blocks(st0, m@);
    assert(well_formed(st0));
    let mut out: Vec<u8> = Vec::new();
    let mut p: usize = 0;
    assert(m@.skip(0) =~= m@);
    while p < m.len()
        invariant
            p <= m.len(),
            well_formed(sp@),
            encrypt_blocks(sp@, m@.skip(p as int)).0 == total.0,
            out@ + encrypt_blocks(sp@, m@.skip(p as int)).1 == total.1,
        decreases m.len() - p,
    {
        let ghost rest = m@.skip(p as int);
        let n: usize = if m.len() - p < 64 {
            m.len() - p
        } else {
            64
        };
        assert(n == block_len(rest.len()));
        assert(rest.take(n as int) =~= m@.subrange(p as int, p + n));
        let mut c = seal_block(&mut sp, m, p, n);
        assert(rest.skip(n as int) =~= m@.skip(p + n));
        let ghost out0 = out@;
        let ghost cb = c@;
        out.append(&mut c);
        p = p + n;
        assert(out0 + (cb + encrypt_blocks(sp@, m@.skip(p as int)).1) =~= out@
            + encrypt_blocks(sp@, m@.skip(p as int)).1);
    }
    assert(m@.skip(p as int) =~= Seq::<u8>::empty());
    assert(out@ =~= total.1);
    proof {
        lemma_decrypt_encrypt(st0, m@);
        lemma_tag_len(sp@, r);
    }
    let tag = tag_from(&mut sp, r);
    out.extend_from_slice(tag.as_slice());
    out
}

fn seal_block(sp: &mut Spritz, m: &[u8], p: usize, n: usize) -> (c: Vec<u8>)
    requires
        well_formed(old(sp)@),
        p + n <= m.len(),
    ensures
        (final(sp)@, c@) == encrypt_block(old(sp)@, m@.subrange(p as int, p + n)),
        well_formed(final(sp)@),
{
    let ghost blk = m@.subrange(p as int, p + n);
    let ks = sp.squeeze(n);
    proof {
        if old(sp)@.a > 0 {
            lemma_shuffle_wf(old(sp)@);
        }
        lemma_drips_wf(shuffle_if_absorbed(old(sp)@), n as nat);
    }
    let mut c: Vec<u8> = Vec::new();
    let mut x: usize = 0;
    while x < n
        invariant
            x <= n,
            p + n <= m.len(),
            ks@.len() == n,
            c@ =~= Seq::new(x as nat, |y: int| add8(m@[p + y], ks@[y])),
        decreases n - x,
    {
        c.push(wrap_add(m[p + x], ks[x]));
        x = x + 1;
    }
    assert(c@ =~= Seq::new(n as nat, |y: int| add8(blk[y], ks@[y])));
    sp.absorb(c.as_slice());
    c
}

fn tag_from(sp: &mut Spritz, r: u8) -> (tag: Vec<u8>)
    requires
        well_formed(old(sp)@),
    ensures
        tag@ == tag_of(old(sp)@, r),
{
    sp.absorb_stop();
    sp.absorb_byte(r);
    sp.squeeze(r as usize)
}

fn open_block(sp: &mut Spritz, c: &[u8], p: usize, n: usize) -> (m: Vec<u8>)
    requires
        well_formed(old(sp)@),
        p + n <= c.len(),
    ensures
        (final(sp)@, m@) == decrypt_block(old(sp)@, c@.subrange(p as int, p + n)),
        well_formed(final(sp)@),
{
    let ghost blk = c@.subrange(p as int, p + n);
    let ks = sp.squeeze(n);
    proof {
        if old(sp)@.a > 0 {
            lemma_shuffle_wf(old(sp)@);
        }
        lemma_drips_wf(shuffle_if_absorbed(old(sp)@), n as nat);
    }
    let mut m: Vec<u8> = Vec::new();
    let mut blk_exec: Vec<u8> = Vec::new();
    let mut x: usize = 0;
    while x < n
        invariant
            x <= n,
            p + n <= c.len(),
            ks@.len() == n,
            m@ =~= Seq::new(x as nat, |y: int| sub8(c@[p + y], ks@[y])),
            blk_exec@ =~= c@.subrange(p as int, p + x),
        decreases n - x,
    {
        m.push(wrap_sub(c[p + x], ks[x]));
        blk_exec.push(c[p + x]);
        x = x + 1;
    }
    assert(m@ =~= Seq::new(n as nat, |y: int| sub8(blk[y], ks@[y])));
    sp.absorb(blk_exec.as_slice());
    m
}

proof fn lemma_or_xor_zero(d: u8, x: u8, y: u8)
    ensures
        (d | (x ^ y)) == 0 <==> (d == 0 && x == y),
{
    assert((d | (x ^ y)) == 0 <==> (d == 0 && x == y)) by (bit_vector);
}

/// Compares `tag` with the bytes of `ct` from `off` on, reading every byte
/// whatever the outcome.
fn tags_match(tag: &Vec<u8>, ct: &[u8], off: usize) -> (r: bool)
    requires
        off <= ct.len(),
    ensures
        r == (tag@ == ct@.skip(off as int)),
{
    if tag.len() != ct.len() - off {
        return false;
    }
    let mut d: u8 = 0;
    let mut x: usize = 0;
    while x < tag.len()
        invariant
            x <= tag.len(),
            tag.len() == ct.len() - off,
            (d == 0) == (forall|y: int| 0 <= y < x ==> tag@[y] == ct@[off + y]),
        decreases tag.len() - x,
    {
        proof {
            lemma_or_xor_zero(d, tag[x as int], ct[off + x]);
        }
        d = d | (tag[x] ^ ct[off + x]);
        x = x + 1;
    }
    assert((d == 0) == (tag@ =~= ct@.skip(off as int)));
    d == 0
}

/// Opens a sealed message: the plaintext when the trailing `r` bytes are the
/// tag of key, nonce, `aad` and ciphertext, and an authentication failure
/// otherwise (also when `ct` is shorter than a tag).
pub fn aead_decrypt(key: &[u8], nonce: &[u8], aad: &[u8], ct: &[u8], r: u8) -> (res: Result<
    Vec<u8>,
    SboxError,
>)
    ensures
        match spec_open(key@, nonce@, aad@, ct@, r) {
            Some(m) => res is Ok && res->Ok_0@ == m,
            None => res == Err::<Vec<u8>, SboxError>(SboxError::AuthenticationFailure),
        },
{
    if ct.len() < r as usize {
        return Err(SboxError::AuthenticationFailure);
    }
    let len = ct.len() - r as usize;
    let ghost body = ct@.take(len as int);
    let mut sp = keyed_sponge(key, nonce, aad);
    let ghost total = decrypt_blocks(sp@, body);
    let mut out: Vec<u8> = Vec::new();
    let mut p: usize = 0;
    assert(body.skip(0) =~= body);
    while p < len
        invariant
            p <= len,
            len <= ct.len(),
            body == ct@.take(len as int),
            well_formed(sp@),
            decrypt_blocks(sp@, body.skip(p as int)).0 == total.0,
            out@ + decrypt_blocks(sp@, body.skip(p as int)).1 == total.1,
        decreases len - p,
    {
        let ghost rest = body.skip(p as int);
        let n: usize = if len - p < 64 {
            len - p
        } else {
            64
        };
        assert(n == block_len(rest.len()));
        assert(rest.take(n as int) =~= ct@.subrange(p as int, p + n));
        let mut m = open_block(&mut sp, ct, p, n);
        assert(rest.skip(n as int) =~= body.skip(p + n));
        let ghost out0 = out@;
        let ghost mb = m@;
        out.append(&mut m);
        p = p + n;
        assert(out0 + (mb + decrypt_blocks(sp@, body.skip(p as int)).1) =~= out@
            + decrypt_blocks(sp@, body.skip(p as int)).1);
    }
    assert(body.skip(p as int) =~= Seq::<u8>::empty());
    assert(out@ =~= total.1);
    let tag = tag_from(&mut sp, r);
    if tags_match(&tag, ct, len) {
        Ok(out)
    } else {
        Err(SboxError::AuthenticationFailure)
    }
}

proof fn lemma_stop_wf(st: SpritzState)
    requires
        well_formed(st),
    ensures
        well_formed(absorb_stop(st)),
{
    if st.a == 128 {
        lemma_shuffle_wf(st);
    }
}

proof fn lemma_byte_wf(st: SpritzState, b: u8)
    requires
        well_formed(st),
    ensures
        well_formed(absorb_byte(st, b)),
{
    if st.a == 128 {
        lemma_shuffle_wf(st);
    }
    let u = absorb_nibble(st, b % 16);
    if u.a == 128 {
        lemma_shuffle_wf(u);
    }
}

proof fn lemma_squeeze_wf(st: SpritzState, n: nat)
    requires
        well_formed(st),
    ensures
        well_formed(squeeze(st, n).0),
        squeeze(st, n).1.len() == n,
{
    if st.a > 0 {
        lemma_shuffle_wf(st);
    }
    lemma_drips_wf(shuffle_if_absorbed(st), n);
}

proof fn lemma_decrypt_encrypt(st: SpritzState, m: Seq<u8>)
    requires
        well_formed(st),
    ensures
        encrypt_blocks(st, m).1.len() == m.len(),
        well_formed(encrypt_blocks(st, m).0),
        decrypt_blocks(st, encrypt_blocks(st, m).1) == (encrypt_blocks(st, m).0, m),
    decreases m.len(),
{
    if m.len() > 0 {
        let n = block_len(m.len());
        let blk = m.take(n as int);
        let (t, ks) = squeeze(st, n);
        lemma_squeeze_wf(st, n);
        let (t2, c) = encrypt_block(st, blk);
        lemma_absorb_wf(t, c);
        lemma_decrypt_encrypt(t2, m.skip(n as int));
        let rest = encrypt_blocks(t2, m.skip(n as int)).1;
        let all = c + rest;
        assert(all.take(n as int) =~= c);
        assert(all.skip(n as int) =~= rest);
        assert forall|x: int| 0 <= x < n implies sub8(c[x], ks[x]) == blk[x] by {
            assert(sub8(add8(blk[x], ks[x]), ks[x]) == blk[x]);
        }
        assert(decrypt_block(st, c).1 =~= blk);
        assert(blk + m.skip(n as int) =~= m);
    }
}

/// Opening what was sealed, under the same key, nonce, associated data and
/// tag length, gives back the plaintext.
pub proof fn lemma_open_seal(key: Seq<u8>, nonce: Seq<u8>, aad: Seq<u8>, m: Seq<u8>, r: u8)
    ensures
        spec_open(key, nonce, aad, spec_seal(key, nonce, aad, m, r), r) == Some(m),
{
    let st = keyed(key, nonce, aad);
    let s1 = absorb_stop(absorb(initial(), key));
    let s2 = absorb_stop(absorb(s1, nonce));
    lemma_absorb_wf(initial(), key);
    lemma_stop_wf(absorb(initial(), key));
    lemma_absorb_wf(s1, nonce);
    lemma_stop_wf(absorb(s1, nonce));
    lemma_absorb_wf(s2, aad);
    lemma_stop_wf(absorb(s2, aad));
    lemma_decrypt_encrypt(st, m);
    let (fin, c) = encrypt_blocks(st, m);
    let ct = c + tag_of(fin, r);
    lemma_stop_wf(fin);
    lemma_byte_wf(absorb_stop(fin), r);
    let t0 = absorb_byte(absorb_stop(fin), r);
    lemma_squeeze_wf(t0, r as nat);
    assert(ct.take(ct.len() - r) =~= c);
    assert(ct.skip(ct.len() - r) =~= tag_of(fin, r));
}

proof fn lemma_tag_len(st: SpritzState, r: u8)
    requires
        well_formed(st),
    ensures
        tag_of(st, r).len() == r,
{
    lemma_stop_wf(st);
    lemma_byte_wf(absorb_stop(st), r);
    lemma_squeeze_wf(absorb_byte(absorb_stop(st), r), r as nat);
}

/// The first `n` output bytes after absorbing `m`: the keystream that `m` seeds.
pub fn keystream(m: &[u8], n: usize) -> (out: Vec<u8>)
    ensures
        out@ == squeeze(absorb(initial(), m@), n as nat).1,
        out@.len() == n,
{
    let mut sp = Spritz::new();
    sp.absorb(m);
    proof {
        lemma_absorb_wf(initial(), m@);
        lemma_squeeze_wf(absorb(initial(), m@), n as nat);
    }
    sp.squeeze(n)
}

} // verus!
