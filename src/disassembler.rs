//! Decoder tables: rules compiled into whole-rule matches, and the
//! streaming matcher that picks the first match that commits.
use vstd::prelude::*;
use std::rc::Rc;
use crate::pattern::{
    compiled, compile_pattern, find_group, find_name, lemma_find_name_range, strings_view,
    PatternError,
};
use crate::state::{extend_state, find_capture, groups_view, merge_captures, State};
use crate::token::{
    append_all, available, fill_tokens, fits, fits_tokens, lemma_available_mono, masks_zero,
    capture_bits, ones, ones_mask, prefix, tokens_at, valid_width,
};

verus! {

/// The mathematical content of a compiled match: one `(value, mask)` pattern
/// per token, the actions to run in order, and for each capture group
/// `names[g]` one mask per token in `masks[g]`.
pub struct MatchView<A> {
    pub patterns: Seq<(u64, u64)>,
    pub actions: Seq<A>,
    pub names: Seq<Seq<char>>,
    pub masks: Seq<Seq<u64>>,
}

/// A compiled match.
pub struct Match<A> {
    patterns: Vec<(u64, u64)>,
    actions: Vec<A>,
    names: Vec<String>,
    masks: Vec<Vec<u64>>,
}

pub open spec fn vecs_view(v: Seq<Vec<u64>>) -> Seq<Seq<u64>> {
    v.map_values(|x: Vec<u64>| x@)
}

impl<A> View for Match<A> {
    type V = MatchView<A>;

    closed spec fn view(&self) -> MatchView<A> {
        MatchView {
            patterns: self.patterns@,
            actions: self.actions@,
            names: strings_view(self.names@),
            masks: vecs_view(self.masks@),
        }
    }
}

pub open spec fn matches_view<A>(v: Seq<Match<A>>) -> Seq<MatchView<A>> {
    v.map_values(|m: Match<A>| m@)
}

/// Each group has one mask per token.
pub open spec fn wf_match<A>(m: MatchView<A>) -> bool {
    &&& m.names.len() == m.masks.len()
    &&& forall|g: int| 0 <= g < m.masks.len() ==> (#[trigger] m.masks[g]).len() == m.patterns.len()
}

pub open spec fn zeros(n: nat) -> Seq<u64> {
    Seq::new(n, |i: int| 0u64)
}

/// The masks of group `n` in `m`, or zero masks where `m` has no such group.
pub open spec fn masks_for<A>(m: MatchView<A>, n: Seq<char>) -> Seq<u64> {
    let k = find_name(m.names, n);
    if k >= 0 {
        m.masks[k]
    } else {
        zeros(m.patterns.len())
    }
}

/// The groups of `yn` that `xn` lacks, in order.
pub open spec fn extra_names(xn: Seq<Seq<char>>, yn: Seq<Seq<char>>) -> Seq<Seq<char>>
    decreases yn.len(),
{
    if yn.len() == 0 {
        Seq::empty()
    } else if find_name(xn, yn.last()) >= 0 {
        extra_names(xn, yn.drop_last())
    } else {
        extra_names(xn, yn.drop_last()).push(yn.last())
    }
}

/// The masks of the groups of `extra_names`, with `xl` zero masks in front.
pub open spec fn extra_masks(xn: Seq<Seq<char>>, xl: nat, yn: Seq<Seq<char>>, ym: Seq<Seq<u64>>) -> Seq<Seq<u64>>
    decreases yn.len(),
{
    if yn.len() == 0 || ym.len() == 0 {
        Seq::empty()
    } else if find_name(xn, yn.last()) >= 0 {
        extra_masks(xn, xl, yn.drop_last(), ym.drop_last())
    } else {
        extra_masks(xn, xl, yn.drop_last(), ym.drop_last()).push(zeros(xl) + ym.last())
    }
}

/// The match that reads the tokens of `x` and then those of `y`: patterns
/// and actions in order; a group keeps its masks on its own side and zero
/// masks on the other.
pub open spec fn concat<A>(x: MatchView<A>, y: MatchView<A>) -> MatchView<A> {
    MatchView {
        patterns: x.patterns + y.patterns,
        actions: x.actions + y.actions,
        names: x.names + extra_names(x.names, y.names),
        masks: Seq::new(x.names.len(), |g: int| x.masks[g] + masks_for(y, x.names[g]))
            + extra_masks(x.names, x.patterns.len(), y.names, y.masks),
    }
}

/// Every pairing of a match of `xs` with a match of `ys`, in order.
pub open spec fn cross<A>(xs: Seq<MatchView<A>>, ys: Seq<MatchView<A>>) -> Seq<MatchView<A>>
    decreases xs.len(),
{
    if xs.len() == 0 {
        Seq::empty()
    } else {
        cross(xs.drop_last(), ys) + ys.map_values(|y: MatchView<A>| concat(xs.last(), y))
    }
}

/// The whole-rule matches of a rule whose terms have the fragment lists
/// `fl`, folded from the right onto `base`.
pub open spec fn expand<A>(fl: Seq<Seq<MatchView<A>>>, base: MatchView<A>) -> Seq<MatchView<A>>
    decreases fl.len(),
{
    if fl.len() == 0 {
        seq![base]
    } else {
        cross(fl[0], expand(fl.drop_first(), base))
    }
}

/// Appends `n` zero masks.
fn push_zeros(dst: &mut Vec<u64>, n: usize)
    ensures
        final(dst)@ == old(dst)@ + zeros(n as nat),
{
    let mut i: usize = 0;
    while i < n
        invariant
            i <= n,
            dst@ == old(dst)@ + zeros(i as nat),
        decreases n - i,
    {
        assert(zeros(i as nat + 1) =~= zeros(i as nat).push(0u64));
        dst.push(0);
        i = i + 1;
    }
}

proof fn lemma_extra_lengths<A>(xn: Seq<Seq<char>>, xl: nat, y: MatchView<A>)
    requires
        wf_match(y),
    ensures
        extra_names(xn, y.names).len() == extra_masks(xn, xl, y.names, y.masks).len(),
        forall|g: int|
            0 <= g < extra_masks(xn, xl, y.names, y.masks).len() ==> (#[trigger] extra_masks(
                xn,
                xl,
                y.names,
                y.masks,
            )[g]).len() == xl + y.patterns.len(),
    decreases y.names.len(),
{
    if y.names.len() > 0 {
        let y2 = MatchView { names: y.names.drop_last(), masks: y.masks.drop_last(), ..y };
        assert(wf_match(y2)) by {
            assert forall|g: int| 0 <= g < y2.masks.len() implies (#[trigger] y2.masks[g]).len()
                == y2.patterns.len() by {
                assert(y2.masks[g] == y.masks[g]);
            }
        }
        lemma_extra_lengths(xn, xl, y2);
        assert(y.masks.last() == y.masks[y.masks.len() - 1]);
    }
}

impl<A: Copy> Match<A> {
    /// The match of `x` followed by `y`.
    fn concat(x: &Match<A>, y: &Match<A>) -> (r: Match<A>)
        requires
            wf_match(x@),
            wf_match(y@),
        ensures
            r@ == concat(x@, y@),
            wf_match(r@),
    {
        let mut patterns: Vec<(u64, u64)> = Vec::new();
        append_all(&mut patterns, &x.patterns);
        append_all(&mut patterns, &y.patterns);
        let mut actions: Vec<A> = Vec::new();
        append_all(&mut actions, &x.actions);
        append_all(&mut actions, &y.actions);
        let xl = x.patterns.len();
        let yl = y.patterns.len();
        let mut names: Vec<String> = Vec::new();
        let mut masks: Vec<Vec<u64>> = Vec::new();
        let ghost left = Seq::new(x@.names.len(), |g: int| x@.masks[g] + masks_for(y@, x@.names[g]));
        let mut g: usize = 0;
        while g < x.names.len()
            invariant
                wf_match(x@),
                wf_match(y@),
                xl == x@.patterns.len(),
                yl == y@.patterns.len(),
                g <= x@.names.len(),
                left == Seq::new(x@.names.len(), |g: int| x@.masks[g] + masks_for(y@, x@.names[g])),
                strings_view(names@) == x@.names.take(g as int),
                vecs_view(masks@) == left.take(g as int),
            decreases x@.names.len() - g,
        {
            let mut ms: Vec<u64> = Vec::new();
            append_all(&mut ms, &x.masks[g]);
            let k = find_group(&y.names, &x.names[g]);
            if k < y.names.len() {
                append_all(&mut ms, &y.masks[k]);
            } else {
                push_zeros(&mut ms, yl);
            }
            assert(ms@ == x@.masks[g as int] + masks_for(y@, x@.names[g as int]));
            let ghost old_names = names@;
            let ghost old_masks = masks@;
            names.push(x.names[g].clone());
            masks.push(ms);
            assert(names@ == old_names.push(x.names@[g as int]));
            assert(strings_view(names@) =~= strings_view(old_names).push(x.names@[g as int]@));
            assert(vecs_view(masks@) =~= vecs_view(old_masks).push(ms@));
            assert(strings_view(names@) =~= x@.names.take(g as int + 1));
            assert(vecs_view(masks@) =~= left.take(g as int + 1));
            g = g + 1;
        }
        assert(x@.names.take(g as int) =~= x@.names);
        assert(left.take(g as int) =~= left);
        let mut h: usize = 0;
        while h < y.names.len()
            invariant
                wf_match(x@),
                wf_match(y@),
                xl == x@.patterns.len(),
                h <= y@.names.len(),
                strings_view(names@) == x@.names + extra_names(x@.names, y@.names.take(h as int)),
                vecs_view(masks@) == left + extra_masks(
                    x@.names,
                    xl as nat,
                    y@.names.take(h as int),
                    y@.masks.take(h as int),
                ),
            decreases y@.names.len() - h,
        {
            assert(y@.names.take(h as int + 1).drop_last() =~= y@.names.take(h as int));
            assert(y@.masks.take(h as int + 1).drop_last() =~= y@.masks.take(h as int));
            let k = find_group(&x.names, &y.names[h]);
            if k >= x.names.len() {
                let mut ms: Vec<u64> = Vec::new();
                push_zeros(&mut ms, xl);
                append_all(&mut ms, &y.masks[h]);
                assert(ms@ == zeros(xl as nat) + y@.masks[h as int]);
                let ghost old_names = names@;
                let ghost old_masks = masks@;
                names.push(y.names[h].clone());
                masks.push(ms);
                assert(names@ == old_names.push(y.names@[h as int]));
                assert(strings_view(names@) =~= strings_view(old_names).push(y.names@[h as int]@));
                assert(vecs_view(masks@) =~= vecs_view(old_masks).push(ms@));
            }
            assert(strings_view(names@) =~= x@.names + extra_names(x@.names, y@.names.take(h as int + 1)));
            assert(vecs_view(masks@) =~= left + extra_masks(
                x@.names,
                xl as nat,
                y@.names.take(h as int + 1),
                y@.masks.take(h as int + 1),
            ));
            h = h + 1;
        }
        assert(y@.names.take(h as int) =~= y@.names);
        assert(y@.masks.take(h as int) =~= y@.masks);
        let r = Match { patterns, actions, names, masks };
        proof {
            lemma_extra_lengths(x@.names, xl as nat, y@);
            assert forall|g: int| 0 <= g < r@.masks.len() implies (#[trigger] r@.masks[g]).len()
                == r@.patterns.len() by {
                if g < left.len() {
                    lemma_find_name_range(y@.names, x@.names[g]);
                    assert(r@.masks[g] == left[g]);
                } else {
                    assert(r@.masks[g] == extra_masks(x@.names, xl as nat, y@.names, y@.masks)[g
                        - left.len()]);
                }
            }
        }
        assert(r@.masks =~= concat(x@, y@).masks);
        assert(r@.names =~= concat(x@, y@).names);
        r
    }
}

impl<A: Copy> Match<A> {
    /// The `(value, mask)` pattern of each token, in order.
    pub fn patterns(&self) -> (r: &Vec<(u64, u64)>)
        ensures
            r@ == self@.patterns,
    {
        &self.patterns
    }

    /// The number of actions run when this match is tried.
    pub fn action_count(&self) -> (r: usize)
        ensures
            r == self@.actions.len(),
    {
        self.actions.len()
    }

    /// A copy of this match.
    fn duplicate(&self) -> (r: Match<A>)
        ensures
            r@ == self@,
    {
        let mut patterns: Vec<(u64, u64)> = Vec::new();
        append_all(&mut patterns, &self.patterns);
        let mut actions: Vec<A> = Vec::new();
        append_all(&mut actions, &self.actions);
        let mut names: Vec<String> = Vec::new();
        let mut masks: Vec<Vec<u64>> = Vec::new();
        let mut g: usize = 0;
        while g < self.names.len()
            invariant
                g <= self.names@.len(),
                strings_view(names@) == strings_view(self.names@).take(g as int),
            decreases self.names@.len() - g,
        {
            let ghost old_names = names@;
            names.push(self.names[g].clone());
            assert(strings_view(names@) =~= strings_view(old_names).push(self.names@[g as int]@));
            assert(strings_view(names@) =~= strings_view(self.names@).take(g as int + 1));
            g = g + 1;
        }
        let mut h: usize = 0;
        while h < self.masks.len()
            invariant
                h <= self.masks@.len(),
                vecs_view(masks@) == vecs_view(self.masks@).take(h as int),
            decreases self.masks@.len() - h,
        {
            let mut ms: Vec<u64> = Vec::new();
            append_all(&mut ms, &self.masks[h]);
            let ghost old_masks = masks@;
            masks.push(ms);
            assert(vecs_view(masks@) =~= vecs_view(old_masks).push(ms@));
            assert(vecs_view(masks@) =~= vecs_view(self.masks@).take(h as int + 1));
            h = h + 1;
        }
        assert(strings_view(self.names@).take(g as int) =~= strings_view(self.names@));
        assert(vecs_view(self.masks@).take(h as int) =~= vecs_view(self.masks@));
        Match { patterns, actions, names, masks }
    }
}

/// Every match is well formed and reads at least `min` tokens.
pub open spec fn all_wf<A>(s: Seq<MatchView<A>>, min: nat) -> bool {
    forall|k: int| 0 <= k < s.len() ==> wf_match(#[trigger] s[k]) && s[k].patterns.len() >= min
}

/// Every pairing of a match of `xs` with a match of `ys`.
fn cross_matches<A: Copy>(xs: &Vec<Match<A>>, ys: &Vec<Match<A>>) -> (r: Vec<Match<A>>)
    requires
        all_wf(matches_view(xs@), 1),
        all_wf(matches_view(ys@), 0),
    ensures
        matches_view(r@) == cross(matches_view(xs@), matches_view(ys@)),
        all_wf(matches_view(r@), 1),
{
    let ghost xv = matches_view(xs@);
    let ghost yv = matches_view(ys@);
    let mut r: Vec<Match<A>> = Vec::new();
    let mut i: usize = 0;
    while i < xs.len()
        invariant
            xv == matches_view(xs@),
            yv == matches_view(ys@),
            all_wf(xv, 1),
            all_wf(yv, 0),
            i <= xs@.len(),
            matches_view(r@) == cross(xv.take(i as int), yv),
            all_wf(matches_view(r@), 1),
        decreases xs@.len() - i,
    {
        let ghost before = matches_view(r@);
        let mut j: usize = 0;
        while j < ys.len()
            invariant
                xv == matches_view(xs@),
                yv == matches_view(ys@),
                all_wf(xv, 1),
                all_wf(yv, 0),
                i < xs@.len(),
                j <= ys@.len(),
                matches_view(r@) == before + Seq::new(j as nat, |k: int| concat(xv[i as int], yv[k])),
                all_wf(matches_view(r@), 1),
            decreases ys@.len() - j,
        {
            assert(wf_match(xv[i as int]));
            assert(wf_match(yv[j as int]));
            let m = Match::concat(&xs[i], &ys[j]);
            let ghost old_r = r@;
            r.push(m);
            assert(matches_view(r@) =~= matches_view(old_r).push(m@));
            assert(matches_view(r@) =~= before + Seq::new(j as nat + 1, |k: int| concat(xv[i as int], yv[k])));
            j = j + 1;
        }
        assert(xv.take(i as int + 1).drop_last() =~= xv.take(i as int));
        assert(yv.map_values(|y: MatchView<A>| concat(xv.take(i as int + 1).last(), y)) =~= Seq::new(
            ys@.len() as nat,
            |k: int| concat(xv[i as int], yv[k]),
        ));
        i = i + 1;
    }
    assert(xv.take(i as int) =~= xv);
    r
}

/// What a decoder table is: its token width in bits, its compiled matches in
/// priority order, and its fallback action.
pub struct DecoderView<A> {
    pub width: nat,
    pub matches: Seq<MatchView<A>>,
    pub default: Option<A>,
}

/// A decoder table.
pub struct Disassembler<A> {
    width: usize,
    matches: Vec<Match<A>>,
    default: Option<A>,
}

impl<A> View for Disassembler<A> {
    type V = DecoderView<A>;

    closed spec fn view(&self) -> DecoderView<A> {
        DecoderView { width: self.width as nat, matches: matches_view(self.matches@), default: self.default }
    }
}

/// A table is well formed when its width is supported and every match is
/// well formed and reads at least one token.
pub open spec fn table_ok<A>(d: DecoderView<A>) -> bool {
    valid_width(d.width) && all_wf(d.matches, 1)
}

impl<A> Disassembler<A> {
    #[verifier::type_invariant]
    closed spec fn inv(&self) -> bool {
        table_ok(self@)
    }
}

/// One term of a rule: a textual pattern, a constant token, or a nested
/// decoder whose matches all stand in for the term.
pub enum Expr<A> {
    Pattern(String),
    Terminal(u64),
    Subdecoder(Rc<Disassembler<A>>),
}

/// The single-token fragments that a term compiles to, for tokens of `w` bits.
pub open spec fn frags_of<A>(e: Expr<A>, w: nat) -> Seq<MatchView<A>> {
    match e {
        Expr::Pattern(s) => match compiled(s@, w) {
            Ok(c) => seq![
                MatchView {
                    patterns: seq![(c.0, c.1)],
                    actions: Seq::empty(),
                    names: c.2,
                    masks: c.3.map_values(|m: u64| seq![m]),
                },
            ],
            Err(_) => Seq::empty(),
        },
        Expr::Terminal(c) => if c <= ones(w) {
            seq![
                MatchView {
                    patterns: seq![(c, ones(w))],
                    actions: Seq::empty(),
                    names: Seq::empty(),
                    masks: Seq::empty(),
                },
            ]
        } else {
            Seq::empty()
        },
        Expr::Subdecoder(d) => if d@.width == w {
            d@.matches
        } else {
            Seq::empty()
        },
    }
}

/// Why the term `e` cannot be compiled for tokens of `w` bits, if it cannot.
pub open spec fn term_error<A>(e: Expr<A>, w: nat) -> Option<PatternError> {
    match e {
        Expr::Pattern(s) => match compiled(s@, w) {
            Ok(_) => None,
            Err(x) => Some(x),
        },
        Expr::Terminal(c) => if c <= ones(w) {
            None
        } else {
            Some(PatternError::ConstantTooWide)
        },
        Expr::Subdecoder(d) => if d@.width == w {
            None
        } else {
            Some(PatternError::WidthMismatch)
        },
    }
}

/// The first error among the terms `e`.
pub open spec fn first_term_error<A>(e: Seq<Expr<A>>, w: nat) -> Option<PatternError>
    decreases e.len(),
{
    if e.len() == 0 {
        None
    } else if first_term_error(e.drop_last(), w) is Some {
        first_term_error(e.drop_last(), w)
    } else {
        term_error(e.last(), w)
    }
}

/// Why the rule with terms `e` cannot be added to a table of width `w`.
pub open spec fn rule_error<A>(e: Seq<Expr<A>>, w: nat) -> Option<PatternError> {
    if e.len() == 0 {
        Some(PatternError::EmptyRule)
    } else {
        first_term_error(e, w)
    }
}

/// The fragment lists of the terms `e`.
pub open spec fn term_frags<A>(e: Seq<Expr<A>>, w: nat) -> Seq<Seq<MatchView<A>>> {
    Seq::new(e.len(), |i: int| frags_of(e[i], w))
}

/// The match of no token that runs only the action `a`.
pub open spec fn action_only<A>(a: A) -> MatchView<A> {
    MatchView { patterns: Seq::empty(), actions: seq![a], names: Seq::empty(), masks: Seq::empty() }
}

/// The whole-rule matches of the rule `e` with action `a`: every choice of
/// one fragment per term, concatenated in term order, then `a`.
pub open spec fn rule_matches<A>(e: Seq<Expr<A>>, w: nat, a: A) -> Seq<MatchView<A>> {
    expand(term_frags(e, w), action_only(a))
}

/// Values that can stand as a term of a rule.
pub trait ToExpr<A> {
    /// The term `e` stands for this value.
    spec fn is_expr(&self, e: Expr<A>) -> bool;

    fn to_expr(&self) -> (r: Expr<A>)
        ensures
            self.is_expr(r),
    ;
}

/// A string is a textual pattern.
impl<'a, A> ToExpr<A> for &'a str {
    open spec fn is_expr(&self, e: Expr<A>) -> bool {
        e matches Expr::Pattern(s) && s@ == (*self)@
    }

    fn to_expr(&self) -> (r: Expr<A>) {
        Expr::Pattern((*self).to_owned())
    }
}

/// A shared table is a nested decoder.
impl<A> ToExpr<A> for Rc<Disassembler<A>> {
    open spec fn is_expr(&self, e: Expr<A>) -> bool {
        e matches Expr::Subdecoder(d) && d@ == (*self)@
    }

    fn to_expr(&self) -> (r: Expr<A>) {
        Expr::Subdecoder(Rc::clone(self))
    }
}

/// A number is a constant token.
impl<A> ToExpr<A> for usize {
    open spec fn is_expr(&self, e: Expr<A>) -> bool {
        e == Expr::<A>::Terminal(*self as u64)
    }

    fn to_expr(&self) -> (r: Expr<A>) {
        Expr::Terminal(*self as u64)
    }
}

impl<A: Copy> Expr<A> {
    /// The single-token fragments of this term for tokens of `w` bits; none
    /// where the term cannot be compiled.
    pub fn matches(&self, w: usize) -> (r: Vec<Match<A>>)
        requires
            valid_width(w as nat),
        ensures
            matches_view(r@) == frags_of(*self, w as nat),
            all_wf(matches_view(r@), 1),
    {
        match self {
            Expr::Pattern(s) => match compile_pattern(s.as_str(), w) {
                Ok(p) => {
                    let mut masks: Vec<Vec<u64>> = Vec::new();
                    let mut g: usize = 0;
                    while g < p.masks.len()
                        invariant
                            g <= p.masks@.len(),
                            vecs_view(masks@) == p.masks@.take(g as int).map_values(|m: u64| seq![m]),
                        decreases p.masks@.len() - g,
                    {
                        let ghost old_masks = masks@;
                        let mut one: Vec<u64> = Vec::new();
                        one.push(p.masks[g]);
                        masks.push(one);
                        assert(vecs_view(masks@) =~= vecs_view(old_masks).push(seq![p.masks@[g as int]]));
                        assert(vecs_view(masks@) =~= p.masks@.take(g as int + 1).map_values(
                            |m: u64| seq![m],
                        ));
                        g = g + 1;
                    }
                    assert(p.masks@.take(g as int) =~= p.masks@);
                    let mut patterns: Vec<(u64, u64)> = Vec::new();
                    patterns.push((p.value, p.mask));
                    let m = Match { patterns, actions: Vec::new(), names: p.names, masks };
                    let mut r: Vec<Match<A>> = Vec::new();
                    r.push(m);
                    assert(m@.patterns =~= seq![(p.value, p.mask)]);
                    assert(matches_view(r@) =~= seq![m@]);
                    assert(matches_view(r@) =~= frags_of(*self, w as nat));
                    assert(wf_match(m@));
                    r
                },
                Err(_) => {
                    let r: Vec<Match<A>> = Vec::new();
                    assert(matches_view(r@) =~= frags_of(*self, w as nat));
                    r
                },
            },
            Expr::Terminal(c) => {
                let all = ones_mask(w);
                let mut r: Vec<Match<A>> = Vec::new();
                if *c <= all {
                    let mut patterns: Vec<(u64, u64)> = Vec::new();
                    patterns.push((*c, all));
                    let m = Match { patterns, actions: Vec::new(), names: Vec::new(), masks: Vec::new() };
                    r.push(m);
                    assert(m@.patterns =~= seq![(*c, all)]);
                    assert(m@.names =~= Seq::<Seq<char>>::empty());
                    assert(m@.masks =~= Seq::<Seq<u64>>::empty());
                    assert(m@.actions =~= Seq::<A>::empty());
                    assert(matches_view(r@) =~= seq![m@]);
                }
                assert(matches_view(r@) =~= frags_of(*self, w as nat));
                r
            },
            Expr::Subdecoder(d) => {
                let mut r: Vec<Match<A>> = Vec::new();
                let sub: &Disassembler<A> = &**d;
                proof { use_type_invariant(sub); }
                if sub.width == w {
                    let mut k: usize = 0;
                    while k < sub.matches.len()
                        invariant
                            k <= sub.matches@.len(),
                            table_ok(sub@),
                            matches_view(r@) == matches_view(sub.matches@).take(k as int),
                        decreases sub.matches@.len() - k,
                    {
                        let m = sub.matches[k].duplicate();
                        let ghost old_r = r@;
                        r.push(m);
                        assert(matches_view(r@) =~= matches_view(old_r).push(m@));
                        assert(matches_view(r@) =~= matches_view(sub.matches@).take(k as int + 1));
                        k = k + 1;
                    }
                    assert(matches_view(sub.matches@).take(k as int) =~= matches_view(sub.matches@));
                } else {
                    assert(matches_view(r@) =~= Seq::<MatchView<A>>::empty());
                }
                r
            },
        }
    }
}

impl<A: Copy> Expr<A> {
    /// Why this term cannot be compiled for tokens of `w` bits, if it cannot.
    pub fn check(&self, w: usize) -> (r: Option<PatternError>)
        requires
            valid_width(w as nat),
        ensures
            r == term_error(*self, w as nat),
    {
        match self {
            Expr::Pattern(s) => match compile_pattern(s.as_str(), w) {
                Ok(_) => None,
                Err(e) => Some(e),
            },
            Expr::Terminal(c) => {
                if *c <= ones_mask(w) {
                    None
                } else {
                    Some(PatternError::ConstantTooWide)
                }
            },
            Expr::Subdecoder(d) => {
                if d.width == w {
                    None
                } else {
                    Some(PatternError::WidthMismatch)
                }
            },
        }
    }
}

impl<A: Copy> Disassembler<A> {
    /// An empty table for tokens of `width` bits.
    pub fn new(width: usize) -> (r: Self)
        requires
            valid_width(width as nat),
        ensures
            r@.width == width as nat,
            r@.matches.len() == 0,
            r@.default is None,
    {
        let r = Disassembler { width, matches: Vec::new(), default: None };
        assert(matches_view(r.matches@) =~= Seq::<MatchView<A>>::empty());
        r
    }

    /// The token width in bits.
    pub fn width(&self) -> (r: usize)
        ensures
            r as nat == self@.width,
            valid_width(r as nat),
    {
        proof { use_type_invariant(self); }
        self.width
    }

    /// The number of compiled matches.
    pub fn len(&self) -> (r: usize)
        ensures
            r == self@.matches.len(),
    {
        self.matches.len()
    }

    /// The compiled match at index `k`.
    pub fn get(&self, k: usize) -> (r: &Match<A>)
        requires
            k < self@.matches.len(),
        ensures
            r@ == self@.matches[k as int],
    {
        &self.matches[k]
    }

    /// Sets the action run when no match commits.
    pub fn set_default(&mut self, f: A)
        ensures
            final(self)@ == (DecoderView { default: Some(f), ..old(self)@ }),
    {
        proof { use_type_invariant(&*self); }
        self.default = Some(f);
    }

    /// The whole-rule matches of the terms `e` with the action `a`.
    fn combine_expr(&self, e: &Vec<Expr<A>>, a: A) -> (r: Vec<Match<A>>)
        requires
            e@.len() > 0,
        ensures
            matches_view(r@) == rule_matches(e@, self@.width, a),
            all_wf(matches_view(r@), 1),
    {
        proof { use_type_invariant(self); }
        let w = self.width;
        let ghost fl = term_frags(e@, w as nat);
        let ghost base = action_only(a);
        let mut acc: Vec<Match<A>> = Vec::new();
        let mut actions: Vec<A> = Vec::new();
        actions.push(a);
        let unit = Match { patterns: Vec::new(), actions, names: Vec::new(), masks: Vec::new() };
        acc.push(unit);
        assert(unit@.patterns =~= base.patterns);
        assert(unit@.actions =~= base.actions);
        assert(unit@.names =~= base.names);
        assert(unit@.masks =~= base.masks);
        assert(matches_view(acc@) =~= seq![base]);
        assert(fl.subrange(e@.len() as int, e@.len() as int) =~= Seq::<Seq<MatchView<A>>>::empty());
        let mut i: usize = e.len();
        while i > 0
            invariant
                i <= e@.len(),
                e@.len() > 0,
                valid_width(w as nat),
                w as nat == self@.width,
                fl == term_frags(e@, w as nat),
                matches_view(acc@) == expand(fl.subrange(i as int, e@.len() as int), base),
                all_wf(matches_view(acc@), if i < e@.len() { 1nat } else { 0nat }),
            decreases i,
        {
            i = i - 1;
            let fr = e[i].matches(w);
            let next = cross_matches(&fr, &acc);
            assert(fl.subrange(i as int, e@.len() as int).drop_first() =~= fl.subrange(
                i as int + 1,
                e@.len() as int,
            ));
            assert(fl.subrange(i as int, e@.len() as int)[0] == fl[i as int]);
            acc = next;
        }
        assert(fl.subrange(0, e@.len() as int) =~= fl);
        acc
    }

    /// Compiles the rule with terms `e` and action `a` and appends its
    /// matches to the table; a rule with a term that cannot be compiled
    /// leaves the table as it is and reports the first such term's error.
    pub fn add_expr(&mut self, e: Vec<Expr<A>>, a: A) -> (r: Result<(), PatternError>)
        ensures
            r is Err <==> rule_error(e@, old(self)@.width) is Some,
            r is Err ==> r == Err::<(), PatternError>(rule_error(e@, old(self)@.width)->0)
                && final(self)@ == old(self)@,
            r is Ok ==> final(self)@ == (DecoderView {
                matches: old(self)@.matches + rule_matches(e@, old(self)@.width, a),
                ..old(self)@
            }),
    {
        proof { use_type_invariant(&*self); }
        if e.len() == 0 {
            return Err(PatternError::EmptyRule);
        }
        let w = self.width;
        let mut i: usize = 0;
        while i < e.len()
            invariant
                i <= e@.len(),
                valid_width(w as nat),
                w as nat == old(self)@.width,
                self@ == old(self)@,
                e@.len() > 0,
                first_term_error(e@.take(i as int), w as nat) is None,
            decreases e@.len() - i,
        {
            assert(e@.take(i as int + 1).drop_last() =~= e@.take(i as int));
            match e[i].check(w) {
                Some(x) => {
                    assert(e@.take(i as int + 1).last() == e@[i as int]);
                    assert(first_term_error(e@.take(i as int + 1), w as nat) == Some(x));
                    proof { lemma_first_error_kept(e@, i as int + 1, w as nat); }
                    return Err(x);
                },
                None => {},
            }
            i = i + 1;
        }
        assert(e@.take(i as int) =~= e@);
        let ms = self.combine_expr(&e, a);
        let mut all: Vec<Match<A>> = Vec::new();
        std::mem::swap(&mut self.matches, &mut all);
        let ghost start = matches_view(all@);
        assert(start == old(self)@.matches);
        let mut k: usize = 0;
        while k < ms.len()
            invariant
                k <= ms@.len(),
                all_wf(matches_view(ms@), 1),
                all_wf(start, 1),
                matches_view(all@) == start + matches_view(ms@).take(k as int),
            decreases ms@.len() - k,
        {
            let m = ms[k].duplicate();
            let ghost before = all@;
            all.push(m);
            assert(matches_view(all@) =~= matches_view(before).push(m@));
            assert(matches_view(ms@).take(k as int + 1) =~= matches_view(ms@).take(k as int).push(m@));
            k = k + 1;
        }
        assert(matches_view(ms@).take(k as int) =~= matches_view(ms@));
        assert(all_wf(matches_view(all@), 1));
        std::mem::swap(&mut self.matches, &mut all);
        Ok(())
    }
}

/// An error found among the first terms stays the first error of the rule.
proof fn lemma_first_error_kept<A>(e: Seq<Expr<A>>, n: int, w: nat)
    requires
        0 <= n <= e.len(),
        first_term_error(e.take(n), w) is Some,
    ensures
        first_term_error(e, w) == first_term_error(e.take(n), w),
    decreases e.len() - n,
{
    if n < e.len() {
        assert(e.take(n + 1).drop_last() =~= e.take(n));
        lemma_first_error_kept(e, n + 1, w);
    } else {
        assert(e.take(n) =~= e);
    }
}

/// A rule's semantic action: it accepts or rejects a structural match, and
/// may emit mnemonics and jumps into the decode state.
pub trait Action<V, G, C> {
    fn apply(&self, st: &mut State<V, G, C>) -> bool;
}

/// Match `k` of the table structurally matches the stream at `pos`: enough
/// defined bytes for its tokens, and each token fits its pattern.
pub open spec fn matches_at<A>(d: DecoderView<A>, bytes: Seq<Option<u8>>, pos: int, k: int) -> bool {
    let n = d.matches[k].patterns.len();
    &&& available(bytes, pos, d.width / 8, n)
    &&& fits(d.matches[k].patterns, tokens_at(bytes, pos, d.width / 8, n))
}

/// The first match at index `from` or later that structurally matches, or -1.
pub open spec fn first_match<A>(d: DecoderView<A>, bytes: Seq<Option<u8>>, pos: int, from: nat) -> int
    decreases d.matches.len() - from,
{
    if from >= d.matches.len() {
        -1
    } else if matches_at(d, bytes, pos, from as int) {
        from as int
    } else {
        first_match(d, bytes, pos, from + 1)
    }
}

proof fn lemma_first_match_found<A>(d: DecoderView<A>, bytes: Seq<Option<u8>>, pos: int, from: nat)
    ensures
        first_match(d, bytes, pos, from) >= -1,
        first_match(d, bytes, pos, from) >= 0 ==> from <= first_match(d, bytes, pos, from) < d.matches.len()
            && matches_at(d, bytes, pos, first_match(d, bytes, pos, from)),
    decreases d.matches.len() - from,
{
    if from < d.matches.len() && !matches_at(d, bytes, pos, from as int) {
        lemma_first_match_found(d, bytes, pos, from + 1);
    }
}

/// Runs `actions` in order on `st`, stopping at the first that rejects.
fn run_actions<A: Action<V, G, C>, V, G, C>(actions: &Vec<A>, st: &mut State<V, G, C>) -> (r: bool) {
    let mut i: usize = 0;
    while i < actions.len()
        invariant
            i <= actions@.len(),
        decreases actions@.len() - i,
    {
        if !actions[i].apply(st) {
            return false;
        }
        i = i + 1;
    }
    true
}

impl<A: Copy> Match<A> {
    /// Adds to the capture values `groups` the groups of this match, read
    /// from the tokens `toks`.
    fn merge_into(&self, groups: &mut Vec<(String, u64)>, toks: &Vec<u64>, w: usize)
        requires
            wf_match(self@),
            self@.patterns.len() <= toks@.len(),
            w <= 64,
        ensures
            groups_view(final(groups)@) == merge_captures(
                groups_view(old(groups)@),
                self@.names,
                self@.masks,
                toks@,
                w as nat,
            ),
    {
        let ghost sg = groups_view(groups@);
        let mut g: usize = 0;
        while g < self.names.len()
            invariant
                wf_match(self@),
                self@.patterns.len() <= toks@.len(),
                w <= 64,
                g <= self@.names.len(),
                groups_view(groups@) == merge_captures(
                    sg,
                    self@.names.take(g as int),
                    self@.masks.take(g as int),
                    toks@,
                    w as nat,
                ),
            decreases self@.names.len() - g,
        {
            assert(self@.names.take(g as int + 1).drop_last() =~= self@.names.take(g as int));
            assert(self@.masks.take(g as int + 1).drop_last() =~= self@.masks.take(g as int));
            assert(self@.masks[g as int].len() == self@.patterns.len());
            let ms = &self.masks[g];
            if !masks_zero(ms) {
                let n = &self.names[g];
                let k = find_capture(groups, n);
                let ghost prev = groups_view(groups@);
                if k < groups.len() {
                    let acc = capture_bits(groups[k].1, toks, ms, w);
                    groups.set(k, (n.clone(), acc));
                    assert(groups_view(groups@) =~= prev.update(k as int, (n@, acc)));
                } else {
                    let acc = capture_bits(0, toks, ms, w);
                    groups.push((n.clone(), acc));
                    assert(groups_view(groups@) =~= prev.push((n@, acc)));
                }
            }
            g = g + 1;
        }
        assert(self@.names.take(g as int) =~= self@.names);
        assert(self@.masks.take(g as int) =~= self@.masks);
    }
}

impl<A: Copy> Disassembler<A> {
    /// The first match at index `from` or later that structurally matches
    /// the stream at `pos`; `buf` holds the tokens read so far from `pos`.
    fn next_candidate(&self, bytes: &[Option<u8>], pos: usize, from: usize, buf: &mut Vec<u64>) -> (r: Option<usize>)
        requires
            valid_width(self@.width),
            old(buf)@ == tokens_at(bytes@, pos as int, self@.width / 8, old(buf)@.len()),
            available(bytes@, pos as int, self@.width / 8, old(buf)@.len()),
        ensures
            final(buf)@ == tokens_at(bytes@, pos as int, self@.width / 8, final(buf)@.len()),
            available(bytes@, pos as int, self@.width / 8, final(buf)@.len()),
            r is None ==> first_match(self@, bytes@, pos as int, from as nat) == -1,
            r is Some ==> r->0 as int == first_match(self@, bytes@, pos as int, from as nat)
                && r->0 >= from && r->0 < self@.matches.len() && final(buf)@.len()
                >= self@.matches[r->0 as int].patterns.len(),
    {
        let bpt = self.width / 8;
        let mut k: usize = from;
        while k < self.matches.len()
            invariant
                valid_width(self@.width),
                bpt as nat == self@.width / 8,
                from <= k,
                buf@ == tokens_at(bytes@, pos as int, bpt as nat, buf@.len()),
                available(bytes@, pos as int, bpt as nat, buf@.len()),
                first_match(self@, bytes@, pos as int, from as nat) == first_match(
                    self@,
                    bytes@,
                    pos as int,
                    k as nat,
                ),
            decreases self@.matches.len() - k,
        {
            let pats = &self.matches[k].patterns;
            let n = pats.len();
            assert(self@.matches[k as int].patterns == pats@);
            if fill_tokens(bytes, pos, bpt, n, buf) {
                let ok = fits_tokens(pats, buf);
                assert(buf@.take(n as int) =~= tokens_at(bytes@, pos as int, bpt as nat, n as nat));
                assert(ok == fits(pats@, tokens_at(bytes@, pos as int, bpt as nat, n as nat))) by {
                    let t = tokens_at(bytes@, pos as int, bpt as nat, n as nat);
                    assert forall|i: int| 0 <= i < n implies buf@[i] == t[i] by {
                        assert(buf@.take(n as int)[i] == buf@[i]);
                    }
                }
                if ok {
                    return Some(k);
                }
            }
            k = k + 1;
        }
        None
    }

    /// The first match at index `from` or later that structurally matches
    /// the stream at `pos`: the order in which the matcher tries candidates
    /// (see `after_answer`).
    pub fn first_candidate(&self, bytes: &[Option<u8>], pos: usize, from: usize) -> (r: Option<usize>)
        ensures
            r is None ==> first_match(self@, bytes@, pos as int, from as nat) == -1,
            r is Some ==> r->0 as int == first_match(self@, bytes@, pos as int, from as nat),
    {
        proof { use_type_invariant(self); }
        let bpt = self.width / 8;
        if pos > bytes.len() {
            proof {
                lemma_first_match_found(self@, bytes@, pos as int, from as nat);
                if first_match(self@, bytes@, pos as int, from as nat) >= 0 {
                    let k = first_match(self@, bytes@, pos as int, from as nat);
                    let n = self@.matches[k].patterns.len();
                    let b = self@.width / 8;
                    assert(n * b >= 0) by (nonlinear_arith);
                    assert(!available(bytes@, pos as int, b, n));
                }
            }
            return None;
        }
        let mut buf: Vec<u64> = Vec::new();
        assert(0 * bpt == 0);
        assert(buf@ =~= tokens_at(bytes@, pos as int, bpt as nat, 0));
        self.next_candidate(bytes, pos, from, &mut buf)
    }

    /// The state that match `k` hands to its actions: `st` with the match's
    /// tokens appended and its capture groups merged in; `None` where the
    /// match does not structurally match the stream at `pos`.
    pub fn try_match<V: Clone, G: Clone, C: Clone>(
        &self,
        k: usize,
        bytes: &[Option<u8>],
        pos: usize,
        st: &State<V, G, C>,
    ) -> (r: Option<State<V, G, C>>)
        requires
            k < self@.matches.len(),
        ensures
            r is Some <==> matches_at(self@, bytes@, pos as int, k as int),
            r matches Some(s) ==> {
                let n = self@.matches[k as int].patterns.len();
                let toks = tokens_at(bytes@, pos as int, self@.width / 8, n);
                &&& s.address == st.address
                &&& s.next_address == st.next_address
                &&& s.tokens@ == st.tokens@ + toks
                &&& groups_view(s.groups@) == merge_captures(
                    groups_view(st.groups@),
                    self@.matches[k as int].names,
                    self@.matches[k as int].masks,
                    toks,
                    self@.width,
                )
                &&& s.mnemonics@.len() == st.mnemonics@.len()
                &&& s.jumps@.len() == st.jumps@.len()
            },
    {
        proof { use_type_invariant(self); }
        let bpt = self.width / 8;
        let m = &self.matches[k];
        let n = m.patterns.len();
        if pos > bytes.len() {
            assert(n * bpt >= 0) by (nonlinear_arith);
            return None;
        }
        let mut buf: Vec<u64> = Vec::new();
        assert(0 * bpt == 0);
        assert(buf@ =~= tokens_at(bytes@, pos as int, bpt as nat, 0));
        if !fill_tokens(bytes, pos, bpt, n, &mut buf) {
            return None;
        }
        let toks = prefix(&buf, n);
        assert(toks@ =~= tokens_at(bytes@, pos as int, bpt as nat, n as nat));
        if !fits_tokens(&m.patterns, &toks) {
            return None;
        }
        assert(wf_match(self@.matches[k as int]));
        Some(Self::prepare(m, st, &toks, self.width))
    }

    fn prepare<V: Clone, G: Clone, C: Clone>(m: &Match<A>, st: &State<V, G, C>, toks: &Vec<u64>, w: usize) -> (r: State<V, G, C>)
        requires
            wf_match(m@),
            m@.patterns.len() <= toks@.len(),
            w <= 64,
        ensures
            r.address == st.address,
            r.next_address == st.next_address,
            r.tokens@ == st.tokens@ + toks@,
            groups_view(r.groups@) == merge_captures(groups_view(st.groups@), m@.names, m@.masks, toks@, w as nat),
            r.mnemonics@.len() == st.mnemonics@.len(),
            r.jumps@.len() == st.jumps@.len(),
    {
        let mut s = extend_state(st, toks);
        m.merge_into(&mut s.groups, toks, w);
        s
    }

    /// What follows after the matches from index `from` on: the first of
    /// them that structurally matches, else the fallback where there is one
    /// and a token remains, else no decode.
    fn next_from(&self, bytes: &[Option<u8>], pos: usize, from: usize) -> (r: Next)
        ensures
            r == next_spec(self@, bytes@, pos as int, from as nat),
    {
        proof { use_type_invariant(self); }
        match self.first_candidate(bytes, pos, from) {
            Some(k) => Next::Try(k),
            None => {
                let bpt = self.width / 8;
                if self.default.is_some() && pos <= bytes.len() && bpt <= bytes.len() - pos {
                    let mut buf: Vec<u64> = Vec::new();
                    assert(0 * bpt == 0);
                    assert(buf@ =~= tokens_at(bytes@, pos as int, bpt as nat, 0));
                    if fill_tokens(bytes, pos, bpt, 1, &mut buf) {
                        return Next::Fallback;
                    }
                } else {
                    assert(1 * (bpt as nat) == bpt as nat);
                }
                Next::NoDecode
            },
        }
    }

    /// The first step of decoding at `pos`: try the first match that
    /// structurally matches, else the fallback, else no decode.
    pub fn begin(&self, bytes: &[Option<u8>], pos: usize) -> (r: Next)
        ensures
            r == next_spec(self@, bytes@, pos as int, 0),
    {
        self.next_from(bytes, pos, 0)
    }

    /// The step after the actions of a candidate have answered: `tried` is
    /// the match that was tried, or `None` for the fallback. An accepted
    /// match commits past its tokens; a rejected one passes on to the next
    /// match that structurally matches, then to the fallback, then to no
    /// decode. The fallback commits one token when it accepts.
    pub fn after_answer(&self, bytes: &[Option<u8>], pos: usize, tried: Option<usize>, accepted: bool) -> (r: Next)
        requires
            tried matches Some(k) ==> k < self@.matches.len() && matches_at(
                self@,
                bytes@,
                pos as int,
                k as int,
            ),
            tried is None ==> self@.default is Some && available(bytes@, pos as int, self@.width / 8, 1),
        ensures
            tried is Some && accepted ==> r == Next::Commit(
                (pos + self@.matches[tried->0 as int].patterns.len() * (self@.width / 8)) as usize,
            ),
            tried is Some && !accepted ==> r == next_spec(self@, bytes@, pos as int, tried->0 as nat + 1),
            tried is None && accepted ==> r == Next::Commit((pos + self@.width / 8) as usize),
            tried is None && !accepted ==> r == Next::NoDecode,
    {
        proof { use_type_invariant(self); }
        let bpt = self.width / 8;
        match tried {
            Some(k) => {
                if accepted {
                    let n = self.matches[k].patterns.len();
                    let len: usize = bytes.len();
                    proof {
                        assert(self@.matches[k as int].patterns == self.matches@[k as int].patterns@);
                        assert(n * bpt >= 0) by (nonlinear_arith);
                        assert(available(bytes@, pos as int, bpt as nat, n as nat));
                    }
                    assert(pos + n * bpt <= len);
                    let adv: usize = n * bpt;
                    Next::Commit(pos + adv)
                } else {
                    assert(self@.matches.len() == self.matches.len());
                    self.next_from(bytes, pos, k + 1)
                }
            },
            None => {
                if accepted {
                    let len: usize = bytes.len();
                    assert(1 * (bpt as nat) == bpt as nat);
                    assert(available(bytes@, pos as int, bpt as nat, 1));
                    assert(pos + bpt <= len);
                    Next::Commit(pos + bpt)
                } else {
                    Next::NoDecode
                }
            },
        }
    }

    /// Decodes one instruction from the stream at `*pos`. Starting from
    /// `begin`, each candidate is handed its own copy of `st` prepared as
    /// `try_match` (or, for the fallback, with one token appended) and its
    /// actions run in order; their answer goes to `after_answer`, which says
    /// what to do next. Returns the state the committing actions left, with
    /// `*pos` moved past its tokens, or `None` with `*pos` unchanged.
    pub fn next_match<V: Clone, G: Clone, C: Clone>(
        &self,
        bytes: &[Option<u8>],
        pos: &mut usize,
        st: &State<V, G, C>,
    ) -> (r: Option<State<V, G, C>>) where A: Action<V, G, C>
        ensures
            r is None ==> *final(pos) == *old(pos),
            r is Some ==> (exists|k: int|
                0 <= k < self@.matches.len() && #[trigger] matches_at(self@, bytes@, *old(pos) as int, k)
                    && *final(pos) == *old(pos) + self@.matches[k].patterns.len() * (self@.width / 8))
                || (self@.default is Some && available(bytes@, *old(pos) as int, self@.width / 8, 1)
                && *final(pos) == *old(pos) + self@.width / 8),
            first_match(self@, bytes@, *old(pos) as int, 0) == -1 && self@.default is None ==> r is None,
            !available(bytes@, *old(pos) as int, self@.width / 8, 1) ==> r is None,
    {
        proof { use_type_invariant(self); }
        let start = *pos;
        let mut step = self.begin(bytes, start);
        let len: usize = bytes.len();
        assert(self@.matches.len() == self.matches.len());
        proof { lemma_next_spec(self@, bytes@, start as int, 0); }
        loop
            invariant
                table_ok(self@),
                self@.matches.len() <= usize::MAX,
                len == bytes@.len(),
                start == *old(pos),
                *pos == *old(pos),
                !available(bytes@, start as int, self@.width / 8, 1) ==> step == Next::NoDecode,
                step_ok(self@, bytes@, start as int, step),
                first_match(self@, bytes@, start as int, 0) == -1 ==> !(step is Try),
                step is Commit ==> false,
            decreases rank(step, self@.matches.len()),
        {
            match step {
                Next::Try(k) => {
                    let m = &self.matches[k];
                    let prepared = self.try_match(k, bytes, start, st);
                    let mut s = match prepared {
                        Some(s) => s,
                        None => {
                            return None;
                        },
                    };
                    let ok = run_actions(&m.actions, &mut s);
                    let after = self.after_answer(bytes, start, Some(k), ok);
                    proof {
                        lemma_next_spec(self@, bytes@, start as int, k as nat + 1);
                        lemma_first_match_found(self@, bytes@, start as int, k as nat + 1);
                    }
                    if let Next::Commit(p) = after {
                        assert(matches_at(self@, bytes@, start as int, k as int));
                        proof {
                            let n = self@.matches[k as int].patterns.len();
                            assert(available(bytes@, start as int, self@.width / 8, n));
                            assert(n * (self@.width / 8) >= 0) by (nonlinear_arith);
                            assert(start + n * (self@.width / 8) <= len);
                        }
                        *pos = p;
                        return Some(s);
                    }
                    step = after;
                },
                Next::Fallback => {
                    let mut buf: Vec<u64> = Vec::new();
                    let bpt = self.width / 8;
                    assert(0 * bpt == 0);
                    assert(buf@ =~= tokens_at(bytes@, start as int, bpt as nat, 0));
                    if !fill_tokens(bytes, start, bpt, 1, &mut buf) {
                        return None;
                    }
                    let one = prefix(&buf, 1);
                    let mut s = extend_state(st, &one);
                    let ok = match &self.default {
                        Some(a) => a.apply(&mut s),
                        None => false,
                    };
                    let after = self.after_answer(bytes, start, None, ok);
                    assert(1 * (bpt as nat) == bpt as nat);
                    assert(start + bpt <= len);
                    if let Next::Commit(p) = after {
                        *pos = p;
                        return Some(s);
                    }
                    return None;
                },
                _ => {
                    return None;
                },
            }
        }
    }
}

/// A step of decoding: commit with the stream position after the committed
/// tokens, try the match at an index, run the fallback, or give up.
#[derive(Debug, Clone, Copy, PartialEq, Eq, Structural)]
pub enum Next {
    Commit(usize),
    Try(usize),
    Fallback,
    NoDecode,
}

/// What follows after the matches before index `from` were passed over.
pub open spec fn next_spec<A>(d: DecoderView<A>, bytes: Seq<Option<u8>>, pos: int, from: nat) -> Next {
    let k = first_match(d, bytes, pos, from);
    if k >= 0 {
        Next::Try(k as usize)
    } else if d.default is Some && available(bytes, pos, d.width / 8, 1) {
        Next::Fallback
    } else {
        Next::NoDecode
    }
}

/// A step that the matcher can take: a match that structurally matches, or
/// the fallback with one token available.
pub open spec fn step_ok<A>(d: DecoderView<A>, bytes: Seq<Option<u8>>, pos: int, n: Next) -> bool {
    match n {
        Next::Try(k) => k < d.matches.len() && matches_at(d, bytes, pos, k as int),
        Next::Fallback => d.default is Some && available(bytes, pos, d.width / 8, 1),
        _ => true,
    }
}

spec fn rank(n: Next, len: nat) -> nat {
    match n {
        Next::Try(k) => if k < len { (len - k + 2) as nat } else { 0 },
        Next::Fallback => 1,
        _ => 0,
    }
}

proof fn lemma_next_spec<A>(d: DecoderView<A>, bytes: Seq<Option<u8>>, pos: int, from: nat)
    requires
        table_ok(d),
        d.matches.len() <= usize::MAX,
    ensures
        step_ok(d, bytes, pos, next_spec(d, bytes, pos, from)),
        next_spec(d, bytes, pos, from) matches Next::Try(k) ==> k >= from,
        !available(bytes, pos, d.width / 8, 1) ==> next_spec(d, bytes, pos, from) == Next::NoDecode,
{
    lemma_first_match_found(d, bytes, pos, from);
    let k = first_match(d, bytes, pos, from);
    if k >= 0 {
        lemma_available_mono(bytes, pos, d.width / 8, 1, d.matches[k].patterns.len());
    }
}

} // verus!
