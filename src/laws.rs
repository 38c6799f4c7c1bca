//! Laws of table construction and matching, stated over the views that the
//! functions' own contracts use.
use vstd::prelude::*;
use crate::disassembler::{
    action_only, concat, cross, expand, first_match, frags_of, masks_for, matches_at,
    rule_matches, term_frags, DecoderView, Expr, MatchView,
};
use crate::state::{find_value, merge_captures};
use crate::pattern::{bit_count, find_name, lemma_find_name_range, lemma_wrong_length_rejected};
use crate::token::{all_zero, capture};

verus! {

/// A textual pattern whose number of bit characters differs from the token
/// width compiles to no fragment, so a rule holding it yields no match.
pub proof fn lemma_wrong_length_no_fragment<A>(s: String, w: nat)
    requires
        bit_count(s@) != w,
    ensures
        frags_of(Expr::<A>::Pattern(s), w).len() == 0,
{
    lemma_wrong_length_rejected(s@, w);
}

/// A token that matches a pattern decides every literal bit: any token
/// that differs from it in a bit the mask covers does not match.
pub proof fn lemma_literal_bits_decide(value: u64, mask: u64, t: u64, u: u64)
    requires
        t & mask == value,
        (t ^ u) & mask != 0,
    ensures
        u & mask != value,
{
    assert(t & mask == value && (t ^ u) & mask != 0 ==> u & mask != value) by (bit_vector);
}

proof fn lemma_first_match_bounded<A>(d: DecoderView<A>, bytes: Seq<Option<u8>>, pos: int, from: nat, k: int)
    requires
        from <= k < d.matches.len(),
        matches_at(d, bytes, pos, k),
    ensures
        from <= first_match(d, bytes, pos, from) <= k,
    decreases k - from,
{
    if !matches_at(d, bytes, pos, from as int) {
        lemma_first_match_bounded(d, bytes, pos, from + 1, k);
    }
}

/// Matches are tried in declaration order: where matches `i < j` both
/// structurally match, the scan from the start reaches `i` (or an earlier
/// match) before `j`, and when `i` is passed over because its actions
/// reject, the scan that resumes after `i` reaches `j` at the latest.
pub proof fn lemma_declaration_order<A>(d: DecoderView<A>, bytes: Seq<Option<u8>>, pos: int, i: int, j: int)
    requires
        0 <= i < j < d.matches.len(),
        matches_at(d, bytes, pos, i),
        matches_at(d, bytes, pos, j),
    ensures
        0 <= first_match(d, bytes, pos, 0) <= i,
        i < first_match(d, bytes, pos, (i + 1) as nat) <= j,
{
    lemma_first_match_bounded(d, bytes, pos, 0, i);
    lemma_first_match_bounded(d, bytes, pos, (i + 1) as nat, j);
}

proof fn lemma_cross_single<A>(xs: Seq<MatchView<A>>, y: MatchView<A>)
    ensures
        cross(xs, seq![y]).len() == xs.len(),
        forall|k: int| 0 <= k < xs.len() ==> #[trigger] cross(xs, seq![y])[k] == concat(xs[k], y),
    decreases xs.len(),
{
    if xs.len() > 0 {
        lemma_cross_single(xs.drop_last(), y);
        let ys = seq![y];
        assert forall|k: int| 0 <= k < xs.len() implies #[trigger] cross(xs, seq![y])[k] == concat(xs[k], y) by {
            if k < xs.len() - 1 {
                assert(cross(xs, ys)[k] == cross(xs.drop_last(), ys)[k]);
            } else {
                assert(cross(xs, ys)[k] == ys.map_values(|z: MatchView<A>| concat(xs.last(), z))[0]);
            }
        }
    }
}

/// A rule of two terms whose first term compiles to one fragment (a
/// constant, say) and whose second is a nested decoder (or any term)
/// compiles to one whole-rule match per fragment of the second term: the
/// first term's pattern followed by that fragment's patterns.
pub proof fn lemma_prefix_fan_out<A>(e: Seq<Expr<A>>, w: nat, a: A)
    requires
        e.len() == 2,
        frags_of(e[0], w).len() == 1,
    ensures
        rule_matches(e, w, a).len() == frags_of(e[1], w).len(),
        forall|k: int|
            0 <= k < frags_of(e[1], w).len() ==> (#[trigger] rule_matches(e, w, a)[k]).patterns
                == frags_of(e[0], w)[0].patterns + frags_of(e[1], w)[k].patterns,
{
    let fl = term_frags(e, w);
    let base = action_only(a);
    let xs = frags_of(e[0], w);
    let ys = frags_of(e[1], w);
    assert(fl.drop_first().drop_first() =~= Seq::<Seq<MatchView<A>>>::empty());
    assert(expand(fl.drop_first().drop_first(), base) == seq![base]);
    assert(fl.drop_first()[0] == ys);
    let inner = expand(fl.drop_first(), base);
    assert(inner == cross(ys, seq![base]));
    lemma_cross_single(ys, base);
    assert(fl[0] == xs);
    assert(xs.drop_last() =~= Seq::<MatchView<A>>::empty());
    assert(cross(xs.drop_last(), inner) =~= Seq::<MatchView<A>>::empty());
    let r = rule_matches(e, w, a);
    assert(r =~= inner.map_values(|z: MatchView<A>| concat(xs.last(), z)));
    assert forall|k: int| 0 <= k < ys.len() implies (#[trigger] rule_matches(e, w, a)[k]).patterns
        == xs[0].patterns + ys[k].patterns by {
        assert(inner[k] == concat(ys[k], base));
        assert(inner[k].patterns =~= ys[k].patterns);
    }
}

proof fn lemma_capture_split(acc: u64, toks: Seq<u64>, m1: Seq<u64>, m2: Seq<u64>, w: nat)
    requires
        toks.len() >= m1.len() + m2.len(),
    ensures
        capture(acc, toks, m1 + m2, w) == capture(capture(acc, toks, m1, w), toks.skip(m1.len() as int), m2, w),
    decreases m2.len(),
{
    if m2.len() == 0 {
        assert(m1 + m2 =~= m1);
    } else {
        lemma_capture_split(acc, toks, m1, m2.drop_last(), w);
        assert((m1 + m2).drop_last() =~= m1 + m2.drop_last());
        assert(toks.skip(m1.len() as int)[m2.len() - 1] == toks[m1.len() + m2.len() - 1]);
    }
}

/// A group named in two consecutive terms owns, in the combined match, the
/// masks of the first term followed by those of the second; the value
/// captured over the combined tokens is the bits from the first term's
/// tokens followed by the bits from the second's.
pub proof fn lemma_group_across_terms<A>(x: MatchView<A>, y: MatchView<A>, n: Seq<char>, toks: Seq<u64>, w: nat)
    requires
        find_name(x.names, n) >= 0,
        find_name(y.names, n) >= 0,
        x.names.len() == x.masks.len(),
        x.masks[find_name(x.names, n)].len() == x.patterns.len(),
        y.masks[find_name(y.names, n)].len() == y.patterns.len(),
        toks.len() == x.patterns.len() + y.patterns.len(),
    ensures
        masks_for(concat(x, y), n) == masks_for(x, n) + masks_for(y, n),
        capture(0, toks, masks_for(concat(x, y), n), w) == capture(
            capture(0, toks.take(x.patterns.len() as int), masks_for(x, n), w),
            toks.skip(x.patterns.len() as int),
            masks_for(y, n),
            w,
        ),
{
    let c = concat(x, y);
    let gx = find_name(x.names, n);
    lemma_find_name_range(x.names, n);
    lemma_find_name_range(c.names, n);
    lemma_find_prefix_of_concat(x.names, c.names, n);
    assert(find_name(c.names, n) == gx);
    assert(c.masks[gx] == x.masks[gx] + masks_for(y, x.names[gx]));
    let m1 = masks_for(x, n);
    let m2 = masks_for(y, n);
    lemma_capture_split(0, toks, m1, m2, w);
    lemma_capture_prefix(0, toks, toks.take(x.patterns.len() as int), m1, w);
}

proof fn lemma_find_prefix_of_concat(a: Seq<Seq<char>>, b: Seq<Seq<char>>, n: Seq<char>)
    requires
        a.len() <= b.len(),
        a =~= b.take(a.len() as int),
        find_name(a, n) >= 0,
    ensures
        find_name(b, n) == find_name(a, n),
    decreases b.len() - a.len(),
{
    if a.len() < b.len() {
        assert(a =~= b.drop_last().take(a.len() as int));
        lemma_find_prefix_of_concat(a, b.drop_last(), n);
    } else {
        assert(b.take(a.len() as int) =~= b);
        assert(a == b);
    }
}

proof fn lemma_capture_prefix(acc: u64, t1: Seq<u64>, t2: Seq<u64>, ms: Seq<u64>, w: nat)
    requires
        t1.len() >= ms.len(),
        t2.len() >= ms.len(),
        forall|i: int| 0 <= i < ms.len() ==> t1[i] == t2[i],
    ensures
        capture(acc, t1, ms, w) == capture(acc, t2, ms, w),
    decreases ms.len(),
{
    if ms.len() > 0 {
        lemma_capture_prefix(acc, t1, t2, ms.drop_last(), w);
    }
}

/// A group that takes no bit in a match (its name is opened but closed
/// before any bit character) does not appear among the capture values after
/// the match, unless it was there before.
pub proof fn lemma_empty_group_absent(
    sg: Seq<(Seq<char>, u64)>,
    names: Seq<Seq<char>>,
    masks: Seq<Seq<u64>>,
    toks: Seq<u64>,
    w: nat,
    n: Seq<char>,
)
    requires
        names.len() == masks.len(),
        forall|g: int| 0 <= g < names.len() && names[g] == n ==> all_zero(#[trigger] masks[g]),
        find_value(sg, n) == -1,
    ensures
        find_value(merge_captures(sg, names, masks, toks, w), n) == -1,
    decreases names.len(),
{
    if names.len() > 0 {
        let nl = names.drop_last();
        let ml = masks.drop_last();
        assert forall|g: int| 0 <= g < nl.len() && nl[g] == n implies all_zero(#[trigger] ml[g]) by {
            assert(names[g] == nl[g]);
            assert(masks[g] == ml[g]);
        }
        lemma_empty_group_absent(sg, nl, ml, toks, w, n);
        let prev = merge_captures(sg, nl, ml, toks, w);
        let last = names.last();
        assert(names[names.len() - 1] == last);
        if !all_zero(masks.last()) {
            assert(last != n);
            let keys = prev.map_values(|p: (Seq<char>, u64)| p.0);
            let k = find_value(prev, last);
            lemma_find_name_range(keys, last);
            if k >= 0 {
                let next = prev.update(k, (last, capture(prev[k].1, toks, masks.last(), w)));
                assert(next.map_values(|p: (Seq<char>, u64)| p.0) =~= keys);
            } else {
                let next = prev.push((last, capture(0, toks, masks.last(), w)));
                assert(next.map_values(|p: (Seq<char>, u64)| p.0) =~= keys.push(last));
                assert(keys.push(last).drop_last() =~= keys);
            }
        }
    }
}

} // verus!
