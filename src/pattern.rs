//! The pattern compiler: one textual bit pattern becomes a `(value, mask)`
//! pair for one token, plus the bit positions owned by each named group.
//!
//! A pattern holds `0` and `1` (literal bits), `.` (a wildcard bit),
//! whitespace, and group names: one or more ASCII letters followed at once
//! by `@`. The bit characters right after a name belong to that group as
//! well, up to the next whitespace, the next name or the end; whitespace
//! has no other effect.
use vstd::prelude::*;
use vstd::string::*;
use crate::token::valid_width;

verus! {

/// Why a rule could not be compiled.
#[derive(Debug, Clone, Copy, PartialEq, Eq, Structural)]
pub enum PatternError {
    /// `@` without a group name right before it.
    AnonymousGroup,
    /// A group name that is not followed at once by `@`.
    UnclosedName,
    /// A character outside the pattern alphabet.
    InvalidCharacter(char),
    /// The number of bit characters differs from the token width.
    WrongLength,
    /// A constant term that does not fit in one token.
    ConstantTooWide,
    /// A nested decoder whose tokens have another width.
    WidthMismatch,
    /// A rule without terms.
    EmptyRule,
}

/// A compiled single-token pattern: a token `t` matches when
/// `t & mask == value`; `masks[g]` is the set of positions owned by the group
/// named `names[g]`.
///
/// Groups are kept as parallel lists in order of first appearance rather
/// than in a hash map: a map's walk order changes from process to process,
/// and the order of groups carries through to the compiled matches and to
/// the capture values of a decode, which the contracts state exactly.
pub struct TokenPattern {
    pub value: u64,
    pub mask: u64,
    pub names: Vec<String>,
    pub masks: Vec<u64>,
}

pub open spec fn is_letter(c: char) -> bool {
    ('a' <= c && c <= 'z') || ('A' <= c && c <= 'Z')
}

pub open spec fn is_space(c: char) -> bool {
    c == ' ' || c == '\t' || c == '\n' || c == '\r'
}

pub open spec fn is_bit_char(c: char) -> bool {
    c == '0' || c == '1' || c == '.'
}

/// The index of the first occurrence of `n` in `names`, or -1.
pub open spec fn find_name(names: Seq<Seq<char>>, n: Seq<char>) -> int
    decreases names.len(),
{
    if names.len() == 0 {
        -1
    } else if find_name(names.drop_last(), n) >= 0 {
        find_name(names.drop_last(), n)
    } else if names.last() == n {
        names.len() - 1
    } else {
        -1
    }
}

/// The state of the compiler after a prefix of the pattern.
pub struct Scan {
    pub err: Option<PatternError>,
    /// Letters of a group name are being read; it started at `name_start`.
    pub naming: bool,
    pub name_start: int,
    /// The group that owns the next bits, or -1.
    pub cur: int,
    /// Bit characters seen so far.
    pub bits: nat,
    pub value: u64,
    pub mask: u64,
    pub names: Seq<Seq<char>>,
    pub masks: Seq<u64>,
}

pub open spec fn scan_start() -> Scan {
    Scan {
        err: None,
        naming: false,
        name_start: 0,
        cur: -1,
        bits: 0,
        value: 0,
        mask: 0,
        names: Seq::empty(),
        masks: Seq::empty(),
    }
}

/// The bit of the token that the next bit character stands for.
pub open spec fn bit_for(w: nat, bits: nat) -> u64 {
    1u64 << ((w - 1 - bits) as u64)
}

/// The effect of character `s[i]` on the compiler state `st`.
pub open spec fn scan_step(st: Scan, s: Seq<char>, i: int, w: nat) -> Scan {
    let c = s[i];
    if st.err is Some {
        st
    } else if is_letter(c) {
        if st.naming {
            st
        } else {
            Scan { naming: true, name_start: i, ..st }
        }
    } else if c == '@' {
        if !st.naming {
            Scan { err: Some(PatternError::AnonymousGroup), ..st }
        } else {
            let n = s.subrange(st.name_start, i);
            let k = find_name(st.names, n);
            if k >= 0 {
                Scan { naming: false, cur: k, ..st }
            } else {
                Scan {
                    naming: false,
                    cur: st.names.len() as int,
                    names: st.names.push(n),
                    masks: st.masks.push(0u64),
                    ..st
                }
            }
        }
    } else if is_bit_char(c) {
        if st.naming {
            Scan { err: Some(PatternError::UnclosedName), ..st }
        } else if st.bits >= w {
            Scan { err: Some(PatternError::WrongLength), ..st }
        } else {
            let b = bit_for(w, st.bits);
            Scan {
                bits: st.bits + 1,
                value: if c == '1' { st.value | b } else { st.value },
                mask: if c != '.' { st.mask | b } else { st.mask },
                masks: if st.cur >= 0 { st.masks.update(st.cur, st.masks[st.cur] | b) } else { st.masks },
                ..st
            }
        }
    } else if is_space(c) {
        if st.naming {
            Scan { err: Some(PatternError::UnclosedName), ..st }
        } else {
            Scan { cur: -1, ..st }
        }
    } else {
        Scan { err: Some(PatternError::InvalidCharacter(c)), ..st }
    }
}

/// The compiler state after the first `n` characters of `s`.
pub open spec fn scan(s: Seq<char>, n: nat, w: nat) -> Scan
    decreases n,
{
    if n == 0 {
        scan_start()
    } else {
        scan_step(scan(s, (n - 1) as nat, w), s, n - 1, w)
    }
}

/// What compiling the pattern `s` for tokens of `w` bits gives:
/// `(value, mask, names, masks)`, or the first error.
pub open spec fn compiled(s: Seq<char>, w: nat) -> Result<
    (u64, u64, Seq<Seq<char>>, Seq<u64>),
    PatternError,
> {
    let st = scan(s, s.len(), w);
    if st.err is Some {
        Err(st.err->0)
    } else if st.naming {
        Err(PatternError::UnclosedName)
    } else if st.bits != w {
        Err(PatternError::WrongLength)
    } else {
        Ok((st.value, st.mask, st.names, st.masks))
    }
}

pub open spec fn strings_view(v: Seq<String>) -> Seq<Seq<char>> {
    v.map_values(|x: String| x@)
}

pub(crate) fn find_group(names: &Vec<String>, n: &String) -> (r: usize)
    ensures
        r < names@.len() ==> find_name(strings_view(names@), n@) == r as int,
        r >= names@.len() ==> find_name(strings_view(names@), n@) == -1,
{
    let mut j: usize = 0;
    while j < names.len()
        invariant
            j <= names@.len(),
            find_name(strings_view(names@).take(j as int), n@) == -1,
        decreases names@.len() - j,
    {
        assert(strings_view(names@).take(j as int + 1).drop_last() =~= strings_view(names@).take(j as int));
        if names[j] == *n {
            proof { lemma_find_prefix(strings_view(names@), n@, j as int + 1); }
            return j;
        }
        j = j + 1;
    }
    assert(strings_view(names@).take(j as int) =~= strings_view(names@));
    names.len()
}

pub proof fn lemma_find_name_range(names: Seq<Seq<char>>, n: Seq<char>)
    ensures
        -1 <= find_name(names, n) < names.len(),
        find_name(names, n) >= 0 ==> names[find_name(names, n)] == n,
    decreases names.len(),
{
    if names.len() > 0 {
        lemma_find_name_range(names.drop_last(), n);
    }
}

/// Extending a sequence keeps a name found in a prefix where it was found.
pub(crate) proof fn lemma_find_prefix(names: Seq<Seq<char>>, n: Seq<char>, k: int)
    requires
        0 <= k <= names.len(),
        find_name(names.take(k), n) >= 0,
    ensures
        find_name(names, n) == find_name(names.take(k), n),
    decreases names.len() - k,
{
    if k < names.len() {
        assert(names.take(k + 1).drop_last() =~= names.take(k));
        lemma_find_prefix(names, n, k + 1);
    } else {
        assert(names.take(k) =~= names);
    }
}

/// The number of bit characters (`0`, `1`, `.`) in `s`.
pub open spec fn bit_count(s: Seq<char>) -> nat
    decreases s.len(),
{
    if s.len() == 0 {
        0
    } else {
        bit_count(s.drop_last()) + if is_bit_char(s.last()) { 1nat } else { 0nat }
    }
}

proof fn lemma_bits_counted(s: Seq<char>, n: nat, w: nat)
    requires
        n <= s.len(),
        scan(s, n, w).err is None,
    ensures
        scan(s, n, w).bits == bit_count(s.take(n as int)),
    decreases n,
{
    if n > 0 {
        lemma_bits_counted(s, (n - 1) as nat, w);
        assert(s.take(n as int).drop_last() =~= s.take(n - 1));
    }
}

/// A pattern whose number of bit characters differs from the token width
/// does not compile.
pub proof fn lemma_wrong_length_rejected(s: Seq<char>, w: nat)
    requires
        bit_count(s) != w,
    ensures
        compiled(s, w) is Err,
{
    if scan(s, s.len(), w).err is None {
        lemma_bits_counted(s, s.len(), w);
        assert(s.take(s.len() as int) =~= s);
    }
}

proof fn lemma_scan_value_in_mask(s: Seq<char>, n: nat, w: nat)
    requires
        n <= s.len(),
    ensures
        scan(s, n, w).value & !scan(s, n, w).mask == 0,
    decreases n,
{
    if n > 0 {
        lemma_scan_value_in_mask(s, (n - 1) as nat, w);
        let st = scan(s, (n - 1) as nat, w);
        let v = st.value;
        let m = st.mask;
        let b = bit_for(w, st.bits);
        assert(v & !m == 0 ==> (v | b) & !(m | b) == 0) by (bit_vector);
        assert(v & !m == 0 ==> v & !(m | b) == 0) by (bit_vector);
        let nx = scan_step(st, s, n - 1, w);
        assert(scan(s, n, w) == nx);
        let c = s[n - 1];
        if st.err is None && is_bit_char(c) && !st.naming && st.bits < w {
            if c == '1' {
                assert(nx.value == v | b && nx.mask == m | b);
                assert((v | b) & !(m | b) == 0);
            } else if c == '0' {
                assert(nx.value == v && nx.mask == m | b);
                assert(v & !(m | b) == 0);
            } else {
                assert(nx.value == v && nx.mask == m);
            }
        } else {
            assert(nx.value == v && nx.mask == m);
        }
        assert(nx.value & !nx.mask == 0);
    } else {
        assert(0u64 & !0u64 == 0) by (bit_vector);
    }
}

/// A compiled pattern sets no value bit outside its mask.
pub proof fn lemma_value_within_mask(s: Seq<char>, w: nat)
    requires
        compiled(s, w) is Ok,
    ensures
        compiled(s, w)->Ok_0.0 & !compiled(s, w)->Ok_0.1 == 0,
{
    lemma_scan_value_in_mask(s, s.len(), w);
}

/// The token bit that the bit character at index `i` of `s` stands for:
/// bit characters take the positions from the most significant down.
pub open spec fn bit_pos(s: Seq<char>, i: int, w: nat) -> int {
    w - 1 - bit_count(s.take(i))
}

/// Bit `q` of `x` is set.
pub open spec fn bit_of(x: u64, q: int) -> bool {
    (x >> (q as u64)) & 1 == 1
}

proof fn lemma_bit_unchanged(x: u64, p0: u64, p: u64)
    requires
        p != p0,
        p < 64,
        p0 < 64,
    ensures
        ((x | (1u64 << p0)) >> p) & 1 == (x >> p) & 1,
{
    assert(p != p0 && p < 64 && p0 < 64 ==> ((x | (1u64 << p0)) >> p) & 1 == (x >> p) & 1) by (bit_vector);
}

proof fn lemma_bit_set(x: u64, p0: u64)
    requires
        p0 < 64,
    ensures
        ((x | (1u64 << p0)) >> p0) & 1 == 1,
{
    assert(p0 < 64 ==> ((x | (1u64 << p0)) >> p0) & 1 == 1) by (bit_vector);
}

proof fn lemma_scan_positions(s: Seq<char>, n: nat, w: nat)
    requires
        n <= s.len(),
        w <= 64,
        scan(s, n, w).err is None,
    ensures
        scan(s, n, w).bits == bit_count(s.take(n as int)),
        scan(s, n, w).bits <= w,
        forall|q: int|
            0 <= q < w - scan(s, n, w).bits ==> !#[trigger] bit_of(scan(s, n, w).mask, q) && !bit_of(
                scan(s, n, w).value,
                q,
            ),
        forall|i: int|
            0 <= i < n && is_bit_char(#[trigger] s[i]) ==> {
                let p = bit_pos(s, i, w);
                let st = scan(s, n, w);
                &&& bit_count(s.take(i)) < st.bits
                &&& (bit_of(st.mask, p) <==> s[i] != '.')
                &&& (bit_of(st.value, p) <==> s[i] == '1')
            },
    decreases n,
{
    if n == 0 {
        let st = scan(s, 0, w);
        assert(st == scan_start());
        assert forall|q: int| 0 <= q < w - st.bits implies !#[trigger] bit_of(st.mask, q) && !bit_of(
            st.value,
            q,
        ) by {
            let qq = q as u64;
            assert((0u64 >> qq) & 1 == 0) by (bit_vector);
        }
    } else {
        let m1 = (n - 1) as nat;
        assert(scan(s, m1, w).err is None);
        lemma_scan_positions(s, m1, w);
        let st = scan(s, m1, w);
        let nx = scan(s, n, w);
        assert(forall|q: int| 0 <= q < w - st.bits ==> !#[trigger] bit_of(st.mask, q) && !bit_of(st.value, q));
        assert(nx == scan_step(st, s, n - 1, w));
        assert(s.take(n as int).drop_last() =~= s.take(m1 as int));
        assert(s.take(n as int).last() == s[n - 1]);
        let c = s[n - 1];
        if is_bit_char(c) {
            assert(!st.naming && st.bits < w);
            let p0 = (w - 1 - st.bits) as u64;
            assert(bit_for(w, st.bits) == 1u64 << p0);
            assert(bit_pos(s, n - 1, w) == p0);
            assert forall|q: int| 0 <= q < w - nx.bits implies !#[trigger] bit_of(nx.mask, q) && !bit_of(
                nx.value,
                q,
            ) by {
                assert(nx.bits == st.bits + 1);
                assert(0 <= q < w - st.bits);
                lemma_scan_positions(s, m1, w);
                assert(!bit_of(st.mask, q));
                assert(!bit_of(st.value, q));
                lemma_bit_unchanged(st.mask, p0, q as u64);
                lemma_bit_unchanged(st.value, p0, q as u64);
            }
            assert forall|i: int| 0 <= i < n && is_bit_char(#[trigger] s[i]) implies {
                let p = bit_pos(s, i, w);
                &&& bit_count(s.take(i)) < nx.bits
                &&& (bit_of(nx.mask, p) <==> s[i] != '.')
                &&& (bit_of(nx.value, p) <==> s[i] == '1')
            } by {
                lemma_scan_positions(s, m1, w);
                let p = bit_pos(s, i, w);
                if i == n - 1 {
                    assert(p == p0);
                    lemma_bit_set(st.mask, p0);
                    lemma_bit_set(st.value, p0);
                    assert(0 <= p < w - st.bits);
                    assert(0 <= p0 < w - st.bits);
                    assert(!bit_of(st.mask, p0 as int));
                    assert(!bit_of(st.value, p0 as int));
                } else {
                    assert(p > p0);
                    lemma_bit_unchanged(st.mask, p0, p as u64);
                    lemma_bit_unchanged(st.value, p0, p as u64);
                }
            }
        } else {
            assert(nx.value == st.value && nx.mask == st.mask && nx.bits == st.bits);
            assert forall|q: int| 0 <= q < w - nx.bits implies !#[trigger] bit_of(nx.mask, q) && !bit_of(
                nx.value,
                q,
            ) by {
                lemma_scan_positions(s, m1, w);
                assert(!bit_of(st.mask, q));
                assert(!bit_of(st.value, q));
            }
        }
    }
}

/// What each bit character of a compiled pattern stands for: its token bit
/// is in the mask exactly when the character is a literal, and in the value
/// exactly when it is `1`.
pub proof fn lemma_bit_meaning(s: Seq<char>, w: nat, i: int)
    requires
        valid_width(w),
        compiled(s, w) is Ok,
        0 <= i < s.len(),
        is_bit_char(s[i]),
    ensures
        0 <= bit_pos(s, i, w) < w,
        bit_of(compiled(s, w)->Ok_0.1, bit_pos(s, i, w)) <==> s[i] != '.',
        bit_of(compiled(s, w)->Ok_0.0, bit_pos(s, i, w)) <==> s[i] == '1',
{
    lemma_scan_positions(s, s.len(), w);
}

/// Where the letter run that ends right before index `k` starts.
pub open spec fn name_start(s: Seq<char>, k: int) -> int
    decreases k,
{
    if 0 < k <= s.len() && is_letter(s[k - 1]) {
        name_start(s, k - 1)
    } else {
        k
    }
}

/// The group open after the first `j` characters: the name before the
/// nearest `@`, where only bit characters stand between that `@` and `j`.
pub open spec fn group_after(s: Seq<char>, j: int) -> Option<Seq<char>>
    decreases j,
{
    if j <= 0 || j > s.len() {
        None
    } else if is_bit_char(s[j - 1]) {
        group_after(s, j - 1)
    } else if s[j - 1] == '@' {
        Some(s.subrange(name_start(s, j - 1), j - 1))
    } else {
        None
    }
}

/// Bit character `i` belongs to group `g` of the list `names`.
pub open spec fn owned_by(s: Seq<char>, i: int, names: Seq<Seq<char>>, g: int) -> bool {
    group_after(s, i) is Some && g == find_name(names, group_after(s, i)->0)
}

pub open spec fn group_inv(s: Seq<char>, n: nat, w: nat) -> bool {
    let st = scan(s, n, w);
    &&& st.names.len() == st.masks.len()
    &&& st.naming ==> st.name_start == name_start(s, n as int) && st.name_start < n
    &&& !st.naming ==> (n == 0 || !is_letter(s[n - 1]))
    &&& !st.naming ==> (st.cur >= 0 <==> group_after(s, n as int) is Some)
    &&& st.cur >= 0 ==> 0 <= st.cur < st.names.len()
    &&& !st.naming && st.cur >= 0 ==> st.cur == find_name(st.names, group_after(s, n as int)->0)
    &&& forall|g: int, q: int|
        0 <= g < st.masks.len() && 0 <= q < w - st.bits ==> !#[trigger] bit_of(st.masks[g], q)
    &&& forall|i: int|
        0 <= i < n && is_bit_char(#[trigger] s[i]) && group_after(s, i) is Some ==> find_name(
            st.names,
            group_after(s, i)->0,
        ) >= 0
    &&& forall|i: int, g: int|
        0 <= i < n && is_bit_char(s[i]) && 0 <= g < st.masks.len() ==> (#[trigger] bit_of(
            st.masks[g],
            bit_pos(s, i, w),
        ) <==> owned_by(s, i, st.names, g))
}

proof fn lemma_find_push(names: Seq<Seq<char>>, x: Seq<char>, n: Seq<char>)
    requires
        find_name(names, n) >= 0,
    ensures
        find_name(names.push(x), n) == find_name(names, n),
{
    assert(names.push(x).drop_last() =~= names);
}

#[verifier::rlimit(50)]
proof fn lemma_group_bit_step(s: Seq<char>, n: nat, w: nat)
    requires
        0 < n <= s.len(),
        w <= 64,
        scan(s, n, w).err is None,
        scan(s, (n - 1) as nat, w).err is None,
        group_inv(s, (n - 1) as nat, w),
        is_bit_char(s[n - 1]),
    ensures
        group_inv(s, n, w),
{
    let m1 = (n - 1) as nat;
    lemma_scan_positions(s, n, w);
    lemma_scan_positions(s, m1, w);
    let st = scan(s, m1, w);
    let nx = scan(s, n, w);
    assert(nx == scan_step(st, s, n - 1, w));
    assert(!st.naming && st.bits < w);
    let p0 = (w - 1 - st.bits) as u64;
    let b = bit_for(w, st.bits);
    assert(b == 1u64 << p0);
    assert(bit_pos(s, n - 1, w) == p0);
    assert(group_after(s, n as int) == group_after(s, n - 1));
    assert(nx.names == st.names);
    assert(nx.masks.len() == st.masks.len());
    assert(forall|g: int| 0 <= g < st.masks.len() && g != st.cur ==> nx.masks[g] == st.masks[g]);
    assert(st.cur >= 0 ==> nx.masks[st.cur] == st.masks[st.cur] | b);
    assert forall|g: int, q: int|
        0 <= g < nx.masks.len() && 0 <= q < w - nx.bits implies !#[trigger] bit_of(nx.masks[g], q) by {
        assert(!bit_of(st.masks[g], q));
        if g == st.cur {
            lemma_bit_unchanged(st.masks[g], p0, q as u64);
        }
    }
    assert forall|i: int, g: int|
        0 <= i < n && is_bit_char(s[i]) && 0 <= g < nx.masks.len() implies (#[trigger] bit_of(
            nx.masks[g],
            bit_pos(s, i, w),
        ) <==> owned_by(s, i, nx.names, g)) by {
        let p = bit_pos(s, i, w);
        if i == n - 1 {
            assert(0 <= p0 < w - st.bits);
            assert(!bit_of(st.masks[g], p0 as int));
            if g == st.cur {
                lemma_bit_set(st.masks[g], p0);
            }
        } else {
            assert(bit_of(st.masks[g], p) <==> owned_by(s, i, st.names, g));
            assert(p > p0);
            if g == st.cur {
                lemma_bit_unchanged(st.masks[g], p0, p as u64);
            }
        }
    }
}

#[verifier::rlimit(50)]
proof fn lemma_group_inv(s: Seq<char>, n: nat, w: nat)
    requires
        n <= s.len(),
        w <= 64,
        scan(s, n, w).err is None,
    ensures
        group_inv(s, n, w),
    decreases n,
{
    lemma_scan_positions(s, n, w);
    if n == 0 {
        assert(scan(s, 0, w) == scan_start());
    } else {
        let m1 = (n - 1) as nat;
        assert(scan(s, m1, w).err is None);
        lemma_group_inv(s, m1, w);
        lemma_scan_positions(s, m1, w);
        let st = scan(s, m1, w);
        let nx = scan(s, n, w);
        assert(nx == scan_step(st, s, n - 1, w));
        let c = s[n - 1];
        if is_letter(c) {
            assert(nx.names == st.names && nx.masks == st.masks && nx.bits == st.bits);
            assert(name_start(s, n as int) == name_start(s, n - 1));
            assert(group_after(s, n as int) is None);
        } else if c == '@' {
            let nm = s.subrange(st.name_start, n - 1);
            assert(group_after(s, n as int) == Some(nm));
            lemma_find_name_range(st.names, nm);
            if find_name(st.names, nm) >= 0 {
                assert(nx.names == st.names && nx.masks == st.masks);
            } else {
                assert(nx.names == st.names.push(nm));
                assert(nx.names.drop_last() =~= st.names);
                assert(find_name(nx.names, nm) == st.names.len());
                assert forall|i: int|
                    0 <= i < n && is_bit_char(#[trigger] s[i]) && group_after(s, i) is Some implies find_name(
                        nx.names,
                        group_after(s, i)->0,
                    ) >= 0 by {
                    lemma_find_push(st.names, nm, group_after(s, i)->0);
                }
                assert forall|i: int, g: int|
                    0 <= i < n && is_bit_char(s[i]) && 0 <= g < nx.masks.len() implies (#[trigger] bit_of(
                        nx.masks[g],
                        bit_pos(s, i, w),
                    ) <==> owned_by(s, i, nx.names, g)) by {
                    if i == n - 1 {
                        assert(false);
                    }
                    if group_after(s, i) is Some {
                        lemma_find_push(st.names, nm, group_after(s, i)->0);
                    }
                    if g == st.masks.len() {
                        let p = bit_pos(s, i, w);
                        assert(nx.masks[g] == 0u64);
                        let pp = p as u64;
                        assert((0u64 >> pp) & 1 == 0) by (bit_vector);
                        lemma_find_name_range(st.names, group_after(s, i)->0);
                    } else {
                        assert(nx.masks[g] == st.masks[g]);
                    }
                }
                assert forall|g: int, q: int|
                    0 <= g < nx.masks.len() && 0 <= q < w - nx.bits implies !#[trigger] bit_of(nx.masks[g], q) by {
                    if g == st.masks.len() {
                        let qq = q as u64;
                        assert((0u64 >> qq) & 1 == 0) by (bit_vector);
                    } else {
                        assert(nx.masks[g] == st.masks[g]);
                    }
                }
            }
        } else if is_bit_char(c) {
            lemma_group_bit_step(s, n, w);
        } else {
            assert(is_space(c));
            assert(nx.names == st.names && nx.masks == st.masks && nx.bits == st.bits);
            assert(group_after(s, n as int) is None);
        }
    }
}

/// Bit character `i` of a compiled pattern sets its token bit in the mask
/// of group `g` exactly when it stands inside that group: after the `@`
/// of the group's name with only bit characters between.
pub proof fn lemma_group_bits(s: Seq<char>, w: nat, i: int, g: int)
    requires
        valid_width(w),
        compiled(s, w) is Ok,
        0 <= i < s.len(),
        is_bit_char(s[i]),
        0 <= g < compiled(s, w)->Ok_0.3.len(),
    ensures
        bit_of(compiled(s, w)->Ok_0.3[g], bit_pos(s, i, w)) <==> owned_by(s, i, compiled(s, w)->Ok_0.2, g),
{
    lemma_group_inv(s, s.len(), w);
}

/// Once the compiler has failed, later characters keep the first error.
proof fn lemma_error_kept(s: Seq<char>, n: nat, w: nat)
    requires
        n <= s.len(),
        scan(s, n, w).err is Some,
    ensures
        compiled(s, w) == Err::<(u64, u64, Seq<Seq<char>>, Seq<u64>), PatternError>(
            scan(s, n, w).err->0,
        ),
    decreases s.len() - n,
{
    if n < s.len() {
        lemma_error_kept(s, n + 1, w);
    }
}

/// Compiles one textual pattern for tokens of `w` bits.
pub fn compile_pattern(s: &str, w: usize) -> (r: Result<TokenPattern, PatternError>)
    requires
        valid_width(w as nat),
    ensures
        match compiled(s@, w as nat) {
            Ok(c) => r matches Ok(p) && p.value == c.0 && p.mask == c.1 && strings_view(p.names@)
                == c.2 && p.masks@ == c.3,
            Err(e) => r == Err::<TokenPattern, PatternError>(e),
        },
        r matches Ok(p) ==> p.names@.len() == p.masks@.len() && p.value & !p.mask == 0,
{
    let len: usize = s.unicode_len();
    let mut naming = false;
    let mut name_start: usize = 0;
    let mut cur: usize = 0;
    let mut has_cur = false;
    let mut bits: usize = 0;
    let mut value: u64 = 0;
    let mut mask: u64 = 0;
    let mut names: Vec<String> = Vec::new();
    let mut masks: Vec<u64> = Vec::new();
    let mut i: usize = 0;
    while i < len
        invariant
            len == s@.len(),
            i <= len,
            valid_width(w as nat),
            ({
                let st = scan(s@, i as nat, w as nat);
                &&& st.err is None
                &&& st.naming == naming
                &&& naming ==> st.name_start == name_start as int && name_start < i
                &&& st.cur == (if has_cur { cur as int } else { -1 })
                &&& has_cur ==> cur < names@.len()
                &&& st.bits == bits as nat
                &&& bits <= w
                &&& st.value == value
                &&& st.mask == mask
                &&& st.names == strings_view(names@)
                &&& st.masks == masks@
            }),
            names@.len() == masks@.len(),
        decreases len - i,
    {
        let c = s.get_char(i);
        if ('a' <= c && c <= 'z') || ('A' <= c && c <= 'Z') {
            if !naming {
                naming = true;
                name_start = i;
            }
        } else if c == '@' {
            if !naming {
                proof { lemma_error_kept(s@, i as nat + 1, w as nat); }
                return Err(PatternError::AnonymousGroup);
            }
            let n: String = s.substring_char(name_start, i).to_owned();
            proof {
                assert(n@ == s@.subrange(name_start as int, i as int));
            }
            let k = find_group(&names, &n);
            if k < names.len() {
                cur = k;
            } else {
                cur = names.len();
                names.push(n);
                masks.push(0);
                assert(strings_view(names@) =~= scan(s@, i as nat, w as nat).names.push(
                    s@.subrange(name_start as int, i as int),
                ));
            }
            has_cur = true;
            naming = false;
        } else if c == '0' || c == '1' || c == '.' {
            if naming {
                proof { lemma_error_kept(s@, i as nat + 1, w as nat); }
                return Err(PatternError::UnclosedName);
            }
            if bits >= w {
                proof { lemma_error_kept(s@, i as nat + 1, w as nat); }
                return Err(PatternError::WrongLength);
            }
            let sh: u64 = (w - 1 - bits) as u64;
            let b: u64 = 1u64 << sh;
            if c == '1' {
                value = value | b;
            }
            if c != '.' {
                mask = mask | b;
            }
            if has_cur {
                let old_m = masks[cur];
                masks.set(cur, old_m | b);
            }
            bits = bits + 1;
        } else if c == ' ' || c == '\t' || c == '\n' || c == '\r' {
            if naming {
                proof { lemma_error_kept(s@, i as nat + 1, w as nat); }
                return Err(PatternError::UnclosedName);
            }
            has_cur = false;
        } else {
            proof { lemma_error_kept(s@, i as nat + 1, w as nat); }
            return Err(PatternError::InvalidCharacter(c));
        }
        i = i + 1;
    }
    if naming {
        return Err(PatternError::UnclosedName);
    }
    if bits != w {
        return Err(PatternError::WrongLength);
    }
    proof { lemma_value_within_mask(s@, w as nat); }
    Ok(TokenPattern { value, mask, names, masks })
}

} // verus!
