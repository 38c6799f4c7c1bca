//! The decode state: what one decode call has read and what its actions
//! have emitted.
use vstd::prelude::*;
use crate::pattern::find_name;
use crate::token::{all_zero, append_all, capture};

verus! {

/// One disassembled instruction: the bytes `start .. end`, its opcode name,
/// a display format, its operands and the instructions generated for it.
#[derive(Debug, Clone)]
pub struct Mnemonic<V, C> {
    pub start: u64,
    pub end: u64,
    pub opcode: String,
    pub format: String,
    pub operands: Vec<V>,
    pub instructions: Vec<C>,
}

/// The state of one decode call. `address`, `tokens` and `groups` are its
/// input: where decoding started, the tokens matched so far and the values
/// of the capture groups. `mnemonics` and `jumps` are its output; each jump
/// is a target with a guard.
#[derive(Debug)]
pub struct State<V, G, C> {
    pub address: u64,
    pub tokens: Vec<u64>,
    pub groups: Vec<(String, u64)>,
    pub mnemonics: Vec<Mnemonic<V, C>>,
    pub jumps: Vec<(V, G)>,
    /// Where the next emitted mnemonic starts.
    pub next_address: u64,
}

/// The capture groups as names and values.
pub open spec fn groups_view(g: Seq<(String, u64)>) -> Seq<(Seq<char>, u64)> {
    g.map_values(|p: (String, u64)| (p.0@, p.1))
}

impl<V, G, C> State<V, G, C> {
    /// A fresh state for decoding at address `a`.
    pub fn new(a: u64) -> (r: Self)
        ensures
            r.address == a,
            r.next_address == a,
            r.tokens@.len() == 0,
            r.groups@.len() == 0,
            r.mnemonics@.len() == 0,
            r.jumps@.len() == 0,
    {
        State {
            address: a,
            tokens: Vec::new(),
            groups: Vec::new(),
            mnemonics: Vec::new(),
            jumps: Vec::new(),
            next_address: a,
        }
    }

    /// Emits a mnemonic of `len` bytes right after the previous one, with the
    /// operands `ops`; `f` builds the instructions generated for it.
    pub fn mnemonic<F: Fn() -> Vec<C>>(&mut self, len: usize, n: &str, fmt: &str, ops: Vec<V>, f: F)
        requires
            old(self).next_address + len <= u64::MAX,
            f.requires(()),
        ensures
            final(self).mnemonics@.len() == old(self).mnemonics@.len() + 1,
            final(self).mnemonics@.drop_last() == old(self).mnemonics@,
            final(self).mnemonics@.last().start == old(self).next_address,
            final(self).mnemonics@.last().end == old(self).next_address + len,
            final(self).mnemonics@.last().opcode@ == n@,
            final(self).mnemonics@.last().format@ == fmt@,
            final(self).mnemonics@.last().operands == ops,
            f.ensures((), final(self).mnemonics@.last().instructions),
            final(self).next_address == old(self).next_address + len,
            final(self).address == old(self).address,
            final(self).tokens == old(self).tokens,
            final(self).groups == old(self).groups,
            final(self).jumps == old(self).jumps,
    {
        let instructions = f();
        let start = self.next_address;
        let end = start + len as u64;
        self.mnemonics.push(
            Mnemonic {
                start,
                end,
                opcode: n.to_owned(),
                format: fmt.to_owned(),
                operands: ops,
                instructions,
            },
        );
        self.next_address = end;
    }

    /// Emits a mnemonic of `len` bytes right after the previous one; `f`
    /// builds its operands and the instructions generated for it.
    pub fn mnemonic_dynargs<F: Fn() -> (Vec<V>, Vec<C>)>(&mut self, len: usize, n: &str, fmt: &str, f: F)
        requires
            old(self).next_address + len <= u64::MAX,
            f.requires(()),
        ensures
            final(self).mnemonics@.len() == old(self).mnemonics@.len() + 1,
            final(self).mnemonics@.drop_last() == old(self).mnemonics@,
            final(self).mnemonics@.last().start == old(self).next_address,
            final(self).mnemonics@.last().end == old(self).next_address + len,
            final(self).mnemonics@.last().opcode@ == n@,
            final(self).mnemonics@.last().format@ == fmt@,
            f.ensures(
                (),
                (final(self).mnemonics@.last().operands, final(self).mnemonics@.last().instructions),
            ),
            final(self).next_address == old(self).next_address + len,
            final(self).address == old(self).address,
            final(self).tokens == old(self).tokens,
            final(self).groups == old(self).groups,
            final(self).jumps == old(self).jumps,
    {
        let (operands, instructions) = f();
        let start = self.next_address;
        let end = start + len as u64;
        self.mnemonics.push(
            Mnemonic {
                start,
                end,
                opcode: n.to_owned(),
                format: fmt.to_owned(),
                operands,
                instructions,
            },
        );
        self.next_address = end;
    }

    /// The value of the capture group `name`, if it has one.
    pub fn group(&self, name: &str) -> (r: Option<u64>)
        ensures
            find_value(groups_view(self.groups@), name@) == -1 <==> r is None,
            r matches Some(v) ==> v == groups_view(self.groups@)[find_value(groups_view(self.groups@), name@)].1,
    {
        let n: String = name.to_owned();
        let k = find_capture(&self.groups, &n);
        if k < self.groups.len() {
            Some(self.groups[k].1)
        } else {
            None
        }
    }

    /// Records a jump to `v` taken under the guard `g`.
    pub fn jump(&mut self, v: V, g: G)
        ensures
            final(self).jumps@ == old(self).jumps@.push((v, g)),
            final(self).mnemonics == old(self).mnemonics,
            final(self).next_address == old(self).next_address,
            final(self).address == old(self).address,
            final(self).tokens == old(self).tokens,
            final(self).groups == old(self).groups,
    {
        self.jumps.push((v, g));
    }
}

/// The index of group `n` among the capture values `g`, or -1.
pub open spec fn find_value(g: Seq<(Seq<char>, u64)>, n: Seq<char>) -> int {
    find_name(g.map_values(|p: (Seq<char>, u64)| p.0), n)
}

/// The capture values `sg` after a match with groups `names`/`masks` read
/// the tokens `toks`: each group that takes at least one bit appends its
/// bits to its earlier value, or starts from zero; a group that takes no bit
/// is left out.
pub open spec fn merge_captures(
    sg: Seq<(Seq<char>, u64)>,
    names: Seq<Seq<char>>,
    masks: Seq<Seq<u64>>,
    toks: Seq<u64>,
    w: nat,
) -> Seq<(Seq<char>, u64)>
    decreases names.len(),
{
    if names.len() == 0 || masks.len() == 0 {
        sg
    } else {
        let prev = merge_captures(sg, names.drop_last(), masks.drop_last(), toks, w);
        let n = names.last();
        let ms = masks.last();
        if all_zero(ms) {
            prev
        } else {
            let k = find_value(prev, n);
            if k >= 0 {
                prev.update(k, (n, capture(prev[k].1, toks, ms, w)))
            } else {
                prev.push((n, capture(0, toks, ms, w)))
            }
        }
    }
}

/// The index of group `n` in `g`, or `g.len()`.
pub(crate) fn find_capture(g: &Vec<(String, u64)>, n: &String) -> (r: usize)
    ensures
        r < g@.len() ==> find_value(groups_view(g@), n@) == r as int,
        r >= g@.len() ==> find_value(groups_view(g@), n@) == -1,
{
    let ghost keys = groups_view(g@).map_values(|p: (Seq<char>, u64)| p.0);
    let mut j: usize = 0;
    while j < g.len()
        invariant
            j <= g@.len(),
            keys == groups_view(g@).map_values(|p: (Seq<char>, u64)| p.0),
            find_name(keys.take(j as int), n@) == -1,
        decreases g@.len() - j,
    {
        assert(keys.take(j as int + 1).drop_last() =~= keys.take(j as int));
        if g[j].0 == *n {
            proof { crate::pattern::lemma_find_prefix(keys, n@, j as int + 1); }
            return j;
        }
        j = j + 1;
    }
    assert(keys.take(j as int) =~= keys);
    g.len()
}

/// A copy of the capture values `g`.
fn copy_groups(g: &Vec<(String, u64)>) -> (r: Vec<(String, u64)>)
    ensures
        groups_view(r@) == groups_view(g@),
{
    let mut r: Vec<(String, u64)> = Vec::new();
    let mut i: usize = 0;
    while i < g.len()
        invariant
            i <= g@.len(),
            groups_view(r@) == groups_view(g@).take(i as int),
        decreases g@.len() - i,
    {
        let ghost before = r@;
        let (n, v) = (g[i].0.clone(), g[i].1);
        r.push((n, v));
        assert(groups_view(r@) =~= groups_view(before).push((g@[i as int].0@, v)));
        assert(groups_view(r@) =~= groups_view(g@).take(i as int + 1));
        i = i + 1;
    }
    assert(groups_view(g@).take(i as int) =~= groups_view(g@));
    r
}

/// A copy of `st` whose record of tokens is extended by `toks`.
pub(crate) fn extend_state<V: Clone, G: Clone, C: Clone>(st: &State<V, G, C>, toks: &Vec<u64>) -> (r: State<V, G, C>)
    ensures
        r.address == st.address,
        r.next_address == st.next_address,
        r.tokens@ == st.tokens@ + toks@,
        groups_view(r.groups@) == groups_view(st.groups@),
        r.mnemonics@.len() == st.mnemonics@.len(),
        r.jumps@.len() == st.jumps@.len(),
{
    let mut tokens: Vec<u64> = Vec::new();
    append_all(&mut tokens, &st.tokens);
    append_all(&mut tokens, toks);
    State {
        address: st.address,
        tokens,
        groups: copy_groups(&st.groups),
        mnemonics: st.mnemonics.clone(),
        jumps: st.jumps.clone(),
        next_address: st.next_address,
    }
}

} // verus!
