//! A finite-state acceptor over symbol strings: transitions
//! `(state, symbol, next_state)` and accepting states, run from a set of
//! initial states.
use vstd::prelude::*;
use crate::graph::{contains_key, push_unique, views};
use crate::text::str_eq;

verus! {

broadcast use vstd::seq_lib::group_seq_properties;

/// A move from `state` to `next_state` on `symbol`.
#[derive(Clone, Debug, PartialEq, Eq)]
pub struct FsaTransition {
    pub state: String,
    pub symbol: String,
    pub next_state: String,
}

/// The acceptor.
pub struct RelationalFsa {
    pub transitions: Vec<FsaTransition>,
    pub accept_states: Vec<String>,
}

/// The states one move on `symbol` leads to from `active`.
pub open spec fn fsa_step(ts: Seq<FsaTransition>, active: Set<Seq<char>>, symbol: Seq<char>) -> Set<Seq<char>> {
    Set::new(
        |t: Seq<char>|
            exists|i: int|
                0 <= i < ts.len() && active.contains(#[trigger] ts[i].state@) && ts[i].symbol@ == symbol
                    && ts[i].next_state@ == t,
    )
}

/// The states active after reading `symbols` from `init`.
pub open spec fn fsa_run(ts: Seq<FsaTransition>, init: Set<Seq<char>>, symbols: Seq<Seq<char>>) -> Set<Seq<char>>
    decreases symbols.len(),
{
    if symbols.len() == 0 {
        init
    } else {
        fsa_step(ts, fsa_run(ts, init, symbols.drop_last()), symbols.last())
    }
}

/// The views of a sequence of symbols.
pub open spec fn symbol_views(s: Seq<&str>) -> Seq<Seq<char>> {
    s.map_values(|x: &str| x@)
}

impl RelationalFsa {
    /// An acceptor over the given relations.
    pub fn new(transitions: Vec<FsaTransition>, accept_states: Vec<String>) -> (f: Self)
        ensures
            f.transitions == transitions,
            f.accept_states == accept_states,
    {
        RelationalFsa { transitions, accept_states }
    }

    /// Whether reading `sequence` from `initial_states` ends in an accepting state.
    pub fn evaluate(&self, initial_states: &Vec<String>, sequence: &[&str]) -> (accepted: bool)
        ensures
            accepted == exists|t: Seq<char>|
                #[trigger] fsa_run(self.transitions@, views(initial_states@).to_set(), symbol_views(sequence@)).contains(t)
                    && views(self.accept_states@).contains(t),
    {
        let ghost ts = self.transitions@;
        let ghost init = views(initial_states@).to_set();
        let ghost syms = symbol_views(sequence@);
        let mut active: Vec<String> = Vec::new();
        let mut i: usize = 0;
        while i < initial_states.len()
            invariant
                i <= initial_states@.len(),
                views(active@).no_duplicates(),
                forall|b: Seq<char>| views(active@).contains(b) <==> views(initial_states@).take(i as int).contains(b),
            decreases initial_states@.len() - i,
        {
            assert(views(initial_states@).take(i + 1) == views(initial_states@).take(i as int).push(views(initial_states@)[i as int]));
            push_unique(&mut active, initial_states[i].clone());
            i = i + 1;
        }
        proof {
            assert(views(initial_states@).take(initial_states@.len() as int) == views(initial_states@));
            assert(syms.take(0) == Seq::<Seq<char>>::empty());
            assert forall|b: Seq<char>| views(active@).contains(b) <==> fsa_run(ts, init, syms.take(0)).contains(b) by {
            }
        }
        let mut k: usize = 0;
        while k < sequence.len()
            invariant
                ts == self.transitions@,
                init == views(initial_states@).to_set(),
                syms == symbol_views(sequence@),
                k <= sequence@.len(),
                views(active@).no_duplicates(),
                forall|b: Seq<char>| views(active@).contains(b) <==> fsa_run(ts, init, syms.take(k as int)).contains(b),
            decreases sequence@.len() - k,
        {
            let ghost prev = fsa_run(ts, init, syms.take(k as int));
            let symbol = sequence[k];
            proof {
                assert(syms.take(k + 1).drop_last() == syms.take(k as int));
                assert(syms.take(k + 1).last() == symbol@);
            }
            let mut next: Vec<String> = Vec::new();
            let mut j: usize = 0;
            while j < self.transitions.len()
                invariant
                    ts == self.transitions@,
                    j <= ts.len(),
                    views(next@).no_duplicates(),
                    forall|b: Seq<char>| views(active@).contains(b) <==> prev.contains(b),
                    forall|b: Seq<char>|
                        views(next@).contains(b) <==> exists|x: int|
                            0 <= x < j && prev.contains(#[trigger] ts[x].state@) && ts[x].symbol@ == symbol@
                                && ts[x].next_state@ == b,
                decreases ts.len() - j,
            {
                let t = &self.transitions[j];
                let ghost before = views(next@);
                if str_eq(t.symbol.as_str(), symbol) && contains_key(&active, &t.state) {
                    push_unique(&mut next, t.next_state.clone());
                }
                proof {
                    assert forall|b: Seq<char>|
                        views(next@).contains(b) <==> exists|x: int|
                            0 <= x < j + 1 && prev.contains(#[trigger] ts[x].state@) && ts[x].symbol@ == symbol@
                                && ts[x].next_state@ == b by {
                        if exists|x: int|
                            0 <= x < j + 1 && prev.contains(#[trigger] ts[x].state@) && ts[x].symbol@ == symbol@
                                && ts[x].next_state@ == b {
                            let x = choose|x: int|
                                0 <= x < j + 1 && prev.contains(#[trigger] ts[x].state@) && ts[x].symbol@ == symbol@
                                    && ts[x].next_state@ == b;
                            if x < j {
                                assert(before.contains(b));
                            }
                        }
                    }
                }
                j = j + 1;
            }
            active = next;
            k = k + 1;
        }
        assert(syms.take(sequence@.len() as int) == syms);
        let mut a: usize = 0;
        while a < self.accept_states.len()
            invariant
                a <= self.accept_states@.len(),
                ts == self.transitions@,
                init == views(initial_states@).to_set(),
                syms == symbol_views(sequence@),
                forall|b: Seq<char>| views(active@).contains(b) <==> fsa_run(ts, init, syms).contains(b),
                forall|x: int| 0 <= x < a ==> !views(active@).contains(#[trigger] views(self.accept_states@)[x]),
            decreases self.accept_states@.len() - a,
        {
            if contains_key(&active, &self.accept_states[a]) {
                assert(views(self.accept_states@).contains(views(self.accept_states@)[a as int]));
                return true;
            }
            a = a + 1;
        }
        proof {
            assert forall|t: Seq<char>| !(views(active@).contains(t) && views(self.accept_states@).contains(t)) by {
                if views(self.accept_states@).contains(t) {
                    let x = choose|x: int| 0 <= x < views(self.accept_states@).len() && views(self.accept_states@)[x] == t;
                }
            }
        }
        false
    }
}

/// `states` is a run of the acceptor on `symbols`: one state more than
/// symbols, the first initial, each next one reached by a transition on the
/// symbol between them.
pub open spec fn is_run(ts: Seq<FsaTransition>, init: Set<Seq<char>>, symbols: Seq<Seq<char>>, states: Seq<Seq<char>>) -> bool {
    &&& states.len() == symbols.len() + 1
    &&& init.contains(states[0])
    &&& forall|k: int| 0 <= k < symbols.len() ==> exists|i: int|
        0 <= i < ts.len() && (#[trigger] ts[i]).state@ == #[trigger] states[k] && ts[i].symbol@ == symbols[k]
            && ts[i].next_state@ == states[k + 1]
}

/// The states active after reading `symbols` are exactly the last states of
/// the runs on them: a state is reached when some path of transitions leads
/// to it from an initial state, reading the symbols in order.
pub proof fn law_run_is_path(ts: Seq<FsaTransition>, init: Set<Seq<char>>, symbols: Seq<Seq<char>>, t: Seq<char>)
    ensures
        fsa_run(ts, init, symbols).contains(t) <==> exists|states: Seq<Seq<char>>|
            #[trigger] is_run(ts, init, symbols, states) && states.last() == t,
    decreases symbols.len(),
{
    if symbols.len() == 0 {
        if init.contains(t) {
            assert(is_run(ts, init, symbols, seq![t]));
        }
    } else {
        let pre = symbols.drop_last();
        let sym = symbols.last();
        if fsa_run(ts, init, symbols).contains(t) {
            let i = choose|i: int|
                0 <= i < ts.len() && fsa_run(ts, init, pre).contains(#[trigger] ts[i].state@) && ts[i].symbol@ == sym
                    && ts[i].next_state@ == t;
            law_run_is_path(ts, init, pre, ts[i].state@);
            let st = choose|st: Seq<Seq<char>>| #[trigger] is_run(ts, init, pre, st) && st.last() == ts[i].state@;
            let st2 = st.push(t);
            assert forall|k: int| 0 <= k < symbols.len() implies exists|j: int|
                0 <= j < ts.len() && (#[trigger] ts[j]).state@ == #[trigger] st2[k] && ts[j].symbol@ == symbols[k]
                    && ts[j].next_state@ == st2[k + 1] by {
                if k < pre.len() {
                    assert(st2[k] == st[k] && st2[k + 1] == st[k + 1] && symbols[k] == pre[k]);
                    let j = choose|j: int|
                        0 <= j < ts.len() && (#[trigger] ts[j]).state@ == #[trigger] st[k] && ts[j].symbol@ == pre[k]
                            && ts[j].next_state@ == st[k + 1];
                    assert(ts[j].state@ == st2[k]);
                } else {
                    assert(st2[k] == st.last() && st2[k + 1] == t);
                    assert(ts[i].state@ == st2[k]);
                }
            }
            assert(is_run(ts, init, symbols, st2));
        }
        if exists|states: Seq<Seq<char>>| #[trigger] is_run(ts, init, symbols, states) && states.last() == t {
            let st = choose|states: Seq<Seq<char>>| #[trigger] is_run(ts, init, symbols, states) && states.last() == t;
            let st1 = st.drop_last();
            assert forall|k: int| 0 <= k < pre.len() implies exists|j: int|
                0 <= j < ts.len() && (#[trigger] ts[j]).state@ == #[trigger] st1[k] && ts[j].symbol@ == pre[k]
                    && ts[j].next_state@ == st1[k + 1] by {
                let j = choose|j: int|
                    0 <= j < ts.len() && (#[trigger] ts[j]).state@ == #[trigger] st[k] && ts[j].symbol@ == symbols[k]
                        && ts[j].next_state@ == st[k + 1];
                assert(st1[k] == st[k] && st1[k + 1] == st[k + 1]);
            }
            assert(is_run(ts, init, pre, st1));
            law_run_is_path(ts, init, pre, st1.last());
            let k = pre.len() as int;
            let j = choose|j: int|
                0 <= j < ts.len() && (#[trigger] ts[j]).state@ == #[trigger] st[k] && ts[j].symbol@ == symbols[k]
                    && ts[j].next_state@ == st[k + 1];
            assert(st1.last() == st[k]);
            assert(fsa_run(ts, init, pre).contains(ts[j].state@));
        }
    }
}

} // verus!
