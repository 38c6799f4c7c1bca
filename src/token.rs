//! Tokens: fixed-width unsigned values read big-endian from a byte stream,
//! and the extraction of masked bits out of them.
use vstd::prelude::*;

verus! {

/// A token width in bits that the decoder supports: whole bytes, at most 64 bits.
pub open spec fn valid_width(w: nat) -> bool {
    8 <= w <= 64 && w % 8 == 0
}

/// The mask with the low `w` bits set.
pub open spec fn ones(w: nat) -> u64 {
    if w >= 64 {
        u64::MAX
    } else {
        ((1u64 << (w as u64)) - 1) as u64
    }
}

/// The bytes `start .. start + n` are inside the stream and all defined.
pub open spec fn defined(bytes: Seq<Option<u8>>, start: int, n: int) -> bool {
    &&& 0 <= start
    &&& 0 <= n
    &&& start + n <= bytes.len()
    &&& forall|j: int| start <= j < start + n ==> (#[trigger] bytes[j]) is Some
}

/// The value of the `n` bytes starting at `start`, most significant byte first.
pub open spec fn be_value(bytes: Seq<Option<u8>>, start: int, n: nat) -> u64
    decreases n,
{
    if n == 0 {
        0
    } else {
        let hi = be_value(bytes, start, (n - 1) as nat);
        (hi << 8u64) | (bytes[start + n - 1]->0 as u64)
    }
}

/// `k` whole tokens of `bpt` bytes each are available from `pos` on.
pub open spec fn available(bytes: Seq<Option<u8>>, pos: int, bpt: nat, k: nat) -> bool {
    defined(bytes, pos, (k * bpt) as int)
}

/// The first `k` tokens of `bpt` bytes each, read from `pos` on.
pub open spec fn tokens_at(bytes: Seq<Option<u8>>, pos: int, bpt: nat, k: nat) -> Seq<u64> {
    Seq::new(k, |i: int| be_value(bytes, pos + i * bpt, bpt))
}

/// One step of capture extraction: append bit `i` of `t` to `acc` when
/// bit `i` of the mask `m` is set.
pub open spec fn gather_bit(acc: u64, t: u64, m: u64, i: nat) -> u64 {
    if (m >> (i as u64)) & 1 == 1 {
        (acc << 1u64) | ((t >> (i as u64)) & 1)
    } else {
        acc
    }
}

/// Appends to `acc` the bits of `t` selected by `m` among the low `n` bit
/// positions, scanning from the most significant position down.
pub open spec fn gather(acc: u64, t: u64, m: u64, n: nat) -> u64
    decreases n,
{
    if n == 0 {
        acc
    } else {
        gather(gather_bit(acc, t, m, (n - 1) as nat), t, m, (n - 1) as nat)
    }
}

/// Appends to `acc` the bits that `masks` select from `toks`, position by
/// position in order, for tokens of `w` bits.
pub open spec fn capture(acc: u64, toks: Seq<u64>, masks: Seq<u64>, w: nat) -> u64
    decreases masks.len(),
{
    if masks.len() == 0 {
        acc
    } else {
        let last = (masks.len() - 1) as int;
        gather(capture(acc, toks, masks.drop_last(), w), toks[last], masks[last], w)
    }
}

/// Every mask of the list is zero: the group takes no bit.
pub open spec fn all_zero(masks: Seq<u64>) -> bool {
    forall|i: int| 0 <= i < masks.len() ==> masks[i] == 0
}

/// The mask with the low `w` bits set.
pub fn ones_mask(w: usize) -> (r: u64)
    requires
        valid_width(w as nat),
    ensures
        r == ones(w as nat),
{
    if w >= 64 {
        u64::MAX
    } else {
        let s: u64 = w as u64;
        assert(s < 64 ==> (1u64 << s) >= 1) by (bit_vector);
        (1u64 << s) - 1
    }
}

/// Reads the token of `bpt` bytes at `start`, or `None` where one of its
/// bytes is outside the stream or undefined.
pub fn read_token(bytes: &[Option<u8>], start: usize, bpt: usize) -> (r: Option<u64>)
    ensures
        r is Some <==> defined(bytes@, start as int, bpt as int),
        r is Some ==> r->0 == be_value(bytes@, start as int, bpt as nat),
{
    let n: usize = bytes.len();
    if start > n || bpt > n - start {
        return None;
    }
    let mut acc: u64 = 0;
    let mut i: usize = 0;
    while i < bpt
        invariant
            i <= bpt,
            n == bytes@.len(),
            start + bpt <= n,
            defined(bytes@, start as int, i as int),
            acc == be_value(bytes@, start as int, i as nat),
        decreases bpt - i,
    {
        match bytes[start + i] {
            Some(b) => {
                acc = (acc << 8u64) | (b as u64);
            },
            None => {
                return None;
            },
        }
        i = i + 1;
    }
    Some(acc)
}

/// Appends to `acc` the bits of `t` that `m` selects among the low `w`
/// positions, most significant first.
pub fn gather_bits(acc: u64, t: u64, m: u64, w: usize) -> (r: u64)
    requires
        w <= 64,
    ensures
        r == gather(acc, t, m, w as nat),
{
    let mut a = acc;
    let mut b: usize = w;
    while b > 0
        invariant
            b <= w <= 64,
            gather(a, t, m, b as nat) == gather(acc, t, m, w as nat),
        decreases b,
    {
        b = b - 1;
        if (m >> (b as u64)) & 1 == 1 {
            a = (a << 1u64) | ((t >> (b as u64)) & 1);
        }
    }
    a
}

/// Every token matches its pattern: `t & mask == value`.
pub open spec fn fits(pats: Seq<(u64, u64)>, toks: Seq<u64>) -> bool {
    &&& pats.len() <= toks.len()
    &&& forall|i: int| 0 <= i < pats.len() ==> toks[i] & (#[trigger] pats[i]).1 == pats[i].0
}

pub(crate) proof fn lemma_available_step(bytes: Seq<Option<u8>>, pos: int, bpt: nat, i: nat)
    requires
        0 <= pos,
    ensures
        available(bytes, pos, bpt, i + 1) <==> (available(bytes, pos, bpt, i) && defined(
            bytes,
            pos + i * bpt,
            bpt as int,
        )),
{
    assert((i + 1) * bpt == i * bpt + bpt) by (nonlinear_arith);
    assert(i * bpt >= 0) by (nonlinear_arith);
    if available(bytes, pos, bpt, i + 1) {
        assert forall|j: int| pos + i * bpt <= j < pos + i * bpt + bpt implies (#[trigger] bytes[j]) is Some by {
            assert(pos <= j < pos + ((i + 1) * bpt) as int);
        }
    }
}

pub(crate) proof fn lemma_available_mono(bytes: Seq<Option<u8>>, pos: int, bpt: nat, i: nat, k: nat)
    requires
        i <= k,
        available(bytes, pos, bpt, k),
    ensures
        available(bytes, pos, bpt, i),
{
    assert(i * bpt <= k * bpt) by (nonlinear_arith)
        requires
            i <= k,
    ;
}

/// Reads tokens into `buf` until it holds `need` of them or the stream has
/// no more defined tokens.
pub(crate) fn fill_tokens(bytes: &[Option<u8>], pos: usize, bpt: usize, need: usize, buf: &mut Vec<u64>) -> (r: bool)
    requires
        1 <= bpt <= 8,
        old(buf)@ == tokens_at(bytes@, pos as int, bpt as nat, old(buf)@.len()),
        available(bytes@, pos as int, bpt as nat, old(buf)@.len()),
    ensures
        final(buf)@ == tokens_at(bytes@, pos as int, bpt as nat, final(buf)@.len()),
        available(bytes@, pos as int, bpt as nat, final(buf)@.len()),
        r == available(bytes@, pos as int, bpt as nat, need as nat),
        r ==> final(buf)@.len() >= need,
{
    let len: usize = bytes.len();
    while buf.len() < need
        invariant
            len == bytes@.len(),
            1 <= bpt <= 8,
            buf@ == tokens_at(bytes@, pos as int, bpt as nat, buf@.len()),
            available(bytes@, pos as int, bpt as nat, buf@.len()),
        decreases need - buf@.len(),
    {
        let i = buf.len();
        proof { lemma_available_step(bytes@, pos as int, bpt as nat, i as nat); }
        assert(pos + i * bpt <= len);
        assert(i * bpt >= 0) by (nonlinear_arith);
        let off: usize = i * bpt;
        let p: usize = pos + off;
        match read_token(bytes, p, bpt) {
            Some(t) => {
                buf.push(t);
                assert(buf@ =~= tokens_at(bytes@, pos as int, bpt as nat, buf@.len()));
            },
            None => {
                proof {
                    if available(bytes@, pos as int, bpt as nat, need as nat) {
                        lemma_available_mono(bytes@, pos as int, bpt as nat, i as nat + 1, need as nat);
                    }
                }
                return false;
            },
        }
    }
    proof { lemma_available_mono(bytes@, pos as int, bpt as nat, need as nat, buf@.len()); }
    true
}

/// Whether the first tokens of `toks` fit the patterns `pats`.
pub(crate) fn fits_tokens(pats: &Vec<(u64, u64)>, toks: &Vec<u64>) -> (r: bool)
    requires
        pats@.len() <= toks@.len(),
    ensures
        r == fits(pats@, toks@),
{
    let mut i: usize = 0;
    while i < pats.len()
        invariant
            i <= pats@.len() <= toks@.len(),
            forall|j: int| 0 <= j < i ==> toks@[j] & (#[trigger] pats@[j]).1 == pats@[j].0,
        decreases pats@.len() - i,
    {
        let (v, m) = pats[i];
        if toks[i] & m != v {
            return false;
        }
        i = i + 1;
    }
    true
}

/// Whether every mask is zero.
pub(crate) fn masks_zero(ms: &Vec<u64>) -> (r: bool)
    ensures
        r == all_zero(ms@),
{
    let mut i: usize = 0;
    while i < ms.len()
        invariant
            i <= ms@.len(),
            forall|j: int| 0 <= j < i ==> ms@[j] == 0,
        decreases ms@.len() - i,
    {
        if ms[i] != 0 {
            return false;
        }
        i = i + 1;
    }
    true
}

/// Appends to `acc` the bits that `ms` selects from `toks`, token by token.
pub(crate) fn capture_bits(acc: u64, toks: &Vec<u64>, ms: &Vec<u64>, w: usize) -> (r: u64)
    requires
        ms@.len() <= toks@.len(),
        w <= 64,
    ensures
        r == capture(acc, toks@, ms@, w as nat),
{
    let mut a = acc;
    let mut p: usize = 0;
    while p < ms.len()
        invariant
            p <= ms@.len() <= toks@.len(),
            w <= 64,
            a == capture(acc, toks@, ms@.take(p as int), w as nat),
        decreases ms@.len() - p,
    {
        assert(ms@.take(p as int + 1).drop_last() =~= ms@.take(p as int));
        a = gather_bits(a, toks[p], ms[p], w);
        p = p + 1;
    }
    assert(ms@.take(p as int) =~= ms@);
    a
}

/// The first `n` items of `v`.
pub(crate) fn prefix(v: &Vec<u64>, n: usize) -> (r: Vec<u64>)
    requires
        n <= v@.len(),
    ensures
        r@ == v@.take(n as int),
{
    let mut r: Vec<u64> = Vec::new();
    let mut i: usize = 0;
    while i < n
        invariant
            i <= n <= v@.len(),
            r@ == v@.take(i as int),
        decreases n - i,
    {
        r.push(v[i]);
        assert(r@ =~= v@.take(i as int + 1));
        i = i + 1;
    }
    r
}

/// Copies the items of `src` onto the end of `dst`.
pub(crate) fn append_all<T: Copy>(dst: &mut Vec<T>, src: &Vec<T>)
    ensures
        final(dst)@ == old(dst)@ + src@,
{
    let mut i: usize = 0;
    while i < src.len()
        invariant
            i <= src@.len(),
            dst@ == old(dst)@ + src@.take(i as int),
        decreases src@.len() - i,
    {
        assert(src@.take(i as int + 1) =~= src@.take(i as int).push(src@[i as int]));
        dst.push(src[i]);
        i = i + 1;
    }
    assert(src@.take(i as int) =~= src@);
}

} // verus!
