//! Non-deterministic finite automata with epsilon moves, evaluated as
//! relations: states `(state, is_start, is_accept)` and transitions
//! `(from_state, symbol, to_state)`, where the empty symbol is an epsilon move.
use vstd::prelude::*;
use crate::graph::{edge_views, push_unique, reachable_from, reached_from, reaches, views};
use crate::text::chars_of;

verus! {

broadcast use vstd::seq_lib::group_seq_properties;

/// A state of the automaton.
#[derive(Clone, Debug, PartialEq, Eq)]
pub struct NfaState {
    pub state: String,
    pub is_start: bool,
    pub is_accept: bool,
}

/// A move from one state to another on a symbol; the empty symbol moves
/// without reading input.
#[derive(Clone, Debug, PartialEq, Eq)]
pub struct NfaTransition {
    pub from_state: String,
    pub symbol: String,
    pub to_state: String,
}

/// The automaton.
pub struct RelationalNfa {
    states: Vec<NfaState>,
    transitions: Vec<NfaTransition>,
}

/// `s` is listed among the states.
pub open spec fn declared(states: Seq<NfaState>, s: Seq<char>) -> bool {
    exists|i: int| 0 <= i < states.len() && #[trigger] states[i].state@ == s
}

/// `s` is listed as a start state.
pub open spec fn start_state(states: Seq<NfaState>, s: Seq<char>) -> bool {
    exists|i: int| 0 <= i < states.len() && #[trigger] states[i].state@ == s && states[i].is_start
}

/// `s` is listed as an accepting state.
pub open spec fn accept_state(states: Seq<NfaState>, s: Seq<char>) -> bool {
    exists|i: int|
        0 <= i < states.len() && #[trigger] states[i].state@ == s && states[i].is_accept
}

pub open spec fn is_epsilon(t: NfaTransition) -> bool {
    t.symbol@.len() == 0
}

pub open spec fn move_pair(t: NfaTransition) -> (Seq<char>, Seq<char>) {
    (t.from_state@, t.to_state@)
}

/// The epsilon moves as `(from, to)` pairs, in order.
pub open spec fn epsilon_edges(ts: Seq<NfaTransition>) -> Seq<(Seq<char>, Seq<char>)> {
    ts.filter(|t: NfaTransition| is_epsilon(t)).map_values(|t: NfaTransition| move_pair(t))
}

/// The states an active set stands for once epsilon moves are taken: the
/// listed states of the set, and every state one epsilon move or more away
/// from one of its states.
pub open spec fn epsilon_closure(
    states: Seq<NfaState>,
    ts: Seq<NfaTransition>,
    active: Set<Seq<char>>,
) -> Set<Seq<char>> {
    Set::new(
        |t: Seq<char>|
            (active.contains(t) && declared(states, t)) || exists|s: Seq<char>|
                #[trigger] active.contains(s) && reaches(epsilon_edges(ts), s, t),
    )
}

/// The states reached from an active set by one move on `c`.
pub open spec fn symbol_step(ts: Seq<NfaTransition>, active: Set<Seq<char>>, c: char) -> Set<
    Seq<char>,
> {
    Set::new(
        |t: Seq<char>|
            exists|i: int|
                0 <= i < ts.len() && active.contains(#[trigger] ts[i].from_state@) && ts[i].symbol@
                    == seq![c] && ts[i].to_state@ == t,
    )
}

/// The active states after reading `input`.
pub open spec fn active_after(
    states: Seq<NfaState>,
    ts: Seq<NfaTransition>,
    input: Seq<char>,
) -> Set<Seq<char>>
    decreases input.len(),
{
    if input.len() == 0 {
        epsilon_closure(states, ts, Set::new(|s: Seq<char>| start_state(states, s)))
    } else {
        epsilon_closure(
            states,
            ts,
            symbol_step(ts, active_after(states, ts, input.drop_last()), input.last()),
        )
    }
}

/// The automaton accepts `input`: an accepting state is active after it.
pub open spec fn nfa_accepts(states: Seq<NfaState>, ts: Seq<NfaTransition>, input: Seq<char>) -> bool {
    exists|t: Seq<char>| #[trigger] active_after(states, ts, input).contains(t) && accept_state(states, t)
}

impl RelationalNfa {
    /// An automaton over the given states and transitions.
    pub fn new(states: Vec<NfaState>, transitions: Vec<NfaTransition>) -> (nfa: Self)
        ensures
            nfa.states_view() == states@,
            nfa.transitions_view() == transitions@,
    {
        RelationalNfa { states, transitions }
    }

    pub closed spec fn states_view(&self) -> Seq<NfaState> {
        self.states@
    }

    pub closed spec fn transitions_view(&self) -> Seq<NfaTransition> {
        self.transitions@
    }

    /// Whether the automaton accepts `input`.
    pub fn accepts(&self, input: &str) -> (accepted: bool)
        ensures
            accepted == nfa_accepts(self.states_view(), self.transitions_view(), input@),
    {
        let ghost st = self.states@;
        let ghost ts = self.transitions@;
        let cs = chars_of(input);
        let eps = self.epsilon_moves();
        let starts = self.start_states();
        let mut active = self.close(&eps, &starts);
        proof {
            let a0 = Set::new(|s: Seq<char>| start_state(st, s));
            assert(active_after(st, ts, cs@.take(0)) == epsilon_closure(st, ts, a0));
            assert forall|b: Seq<char>| views(active@).contains(b) <==> active_after(
                st,
                ts,
                cs@.take(0),
            ).contains(b) by {
                lemma_closure_agrees(st, ts, views(starts@), a0, b);
            }
        }
        let mut i: usize = 0;
        while i < cs.len()
            invariant
                st == self.states@,
                ts == self.transitions@,
                edge_views(eps@) == epsilon_edges(ts),
                i <= cs@.len(),
                views(active@).no_duplicates(),
                forall|b: Seq<char>|
                    views(active@).contains(b) <==> active_after(st, ts, cs@.take(i as int)).contains(
                        b,
                    ),
            decreases cs@.len() - i,
        {
            let ghost prev = active_after(st, ts, cs@.take(i as int));
            let moved = self.step(&active, cs[i]);
            let next = self.close(&eps, &moved);
            proof {
                let input = cs@.take(i + 1);
                assert(input.drop_last() == cs@.take(i as int));
                assert(input.last() == cs@[i as int]);
                let a1 = symbol_step(ts, prev, cs@[i as int]);
                assert(active_after(st, ts, input) == epsilon_closure(st, ts, a1));
                assert forall|b: Seq<char>| views(moved@).contains(b) <==> a1.contains(b) by {
                }
                assert forall|b: Seq<char>| views(next@).contains(b) <==> active_after(
                    st,
                    ts,
                    input,
                ).contains(b) by {
                    lemma_closure_agrees(st, ts, views(moved@), a1, b);
                }
            }
            active = next;
            i = i + 1;
        }
        assert(cs@.take(cs@.len() as int) == input@);
        let accepted = self.any_accepting(&active);
        proof {
            if accepted {
                let t = choose|t: Seq<char>| views(active@).contains(t) && accept_state(st, t);
                assert(active_after(st, ts, input@).contains(t));
            }
        }
        accepted
    }

    /// The epsilon moves as `(from, to)` pairs.
    fn epsilon_moves(&self) -> (eps: Vec<(String, String)>)
        ensures
            edge_views(eps@) == epsilon_edges(self.transitions@),
    {
        let ghost ts = self.transitions@;
        let ghost pred = |t: NfaTransition| is_epsilon(t);
        let ghost f = |t: NfaTransition| move_pair(t);
        let mut eps: Vec<(String, String)> = Vec::new();
        let mut i: usize = 0;
        while i < self.transitions.len()
            invariant
                ts == self.transitions@,
                i <= ts.len(),
                pred == (|t: NfaTransition| is_epsilon(t)),
                f == (|t: NfaTransition| move_pair(t)),
                edge_views(eps@) == ts.take(i as int).filter(pred).map_values(f),
            decreases ts.len() - i,
        {
            let t = &self.transitions[i];
            proof {
                assert(ts.take(i + 1) == ts.take(i as int).push(ts[i as int]));
                ts.take(i as int).lemma_filter_push(ts[i as int], pred);
            }
            let sym = chars_of(t.symbol.as_str());
            if sym.len() == 0 {
                let ghost before = edge_views(eps@);
                let pair = (t.from_state.clone(), t.to_state.clone());
                eps.push(pair);
                proof {
                    let fl = ts.take(i as int).filter(pred);
                    assert(fl.push(ts[i as int]).map_values(f) == fl.map_values(f).push(
                        f(ts[i as int]),
                    ));
                    assert(edge_views(eps@) == before.push(move_pair(ts[i as int])));
                }
            }
            i = i + 1;
        }
        assert(ts.take(ts.len() as int) == ts);
        eps
    }

    /// Whether `s` is listed among the states.
    fn is_declared(&self, s: &String) -> (b: bool)
        ensures
            b == declared(self.states@, s@),
    {
        let mut i: usize = 0;
        while i < self.states.len()
            invariant
                i <= self.states@.len(),
                forall|j: int| 0 <= j < i ==> self.states@[j].state@ != s@,
            decreases self.states@.len() - i,
        {
            if self.states[i].state == *s {
                return true;
            }
            i = i + 1;
        }
        false
    }

    /// The start states, each once.
    fn start_states(&self) -> (starts: Vec<String>)
        ensures
            views(starts@).no_duplicates(),
            forall|b: Seq<char>| views(starts@).contains(b) <==> start_state(self.states@, b),
    {
        let mut starts: Vec<String> = Vec::new();
        let mut i: usize = 0;
        while i < self.states.len()
            invariant
                i <= self.states@.len(),
                views(starts@).no_duplicates(),
                forall|b: Seq<char>|
                    views(starts@).contains(b) <==> start_state(self.states@.take(i as int), b),
            decreases self.states@.len() - i,
        {
            let ghost prefix = self.states@.take(i as int);
            let ghost next = self.states@.take(i + 1);
            assert(next == prefix.push(self.states@[i as int]));
            let ghost old_starts = views(starts@);
            if self.states[i].is_start {
                let name = self.states[i].state.clone();
                push_unique(&mut starts, name);
            }
            proof {
                assert(next[i as int] == self.states@[i as int]);
                assert(forall|b: Seq<char>|
                    views(starts@).contains(b) <==> (old_starts.contains(b) || (
                    self.states@[i as int].is_start && b == self.states@[i as int].state@)));
                assert forall|b: Seq<char>| views(starts@).contains(b) <==> start_state(next, b) by {
                    if start_state(next, b) {
                        let k = choose|k: int|
                            0 <= k < next.len() && #[trigger] next[k].state@ == b
                                && next[k].is_start;
                        if k < i {
                            assert(prefix[k] == next[k]);
                            assert(start_state(prefix, b));
                        }
                    }
                    if start_state(prefix, b) {
                        let k = choose|k: int|
                            0 <= k < prefix.len() && #[trigger] prefix[k].state@ == b
                                && prefix[k].is_start;
                        assert(next[k] == prefix[k]);
                    }
                }
            }
            i = i + 1;
        }
        assert(self.states@.take(self.states@.len() as int) == self.states@);
        starts
    }

    /// The listed states of `active` and the states epsilon moves reach from it.
    fn close(&self, eps: &Vec<(String, String)>, active: &Vec<String>) -> (closed: Vec<String>)
        requires
            edge_views(eps@) == epsilon_edges(self.transitions@),
        ensures
            views(closed@).no_duplicates(),
            forall|b: Seq<char>|
                views(closed@).contains(b) <==> ((views(active@).contains(b) && declared(
                    self.states@,
                    b,
                )) || reached_from(epsilon_edges(self.transitions@), views(active@), b)),
    {
        let ghost es = epsilon_edges(self.transitions@);
        let mut closed = reachable_from(eps, active);
        let mut i: usize = 0;
        while i < active.len()
            invariant
                es == epsilon_edges(self.transitions@),
                i <= active@.len(),
                views(closed@).no_duplicates(),
                forall|b: Seq<char>|
                    views(closed@).contains(b) <==> ((views(active@).take(i as int).contains(b)
                        && declared(self.states@, b)) || reached_from(es, views(active@), b)),
            decreases active@.len() - i,
        {
            assert(views(active@).take(i + 1) == views(active@).take(i as int).push(
                active@[i as int]@,
            ));
            if self.is_declared(&active[i]) {
                let name = active[i].clone();
                push_unique(&mut closed, name);
            }
            i = i + 1;
        }
        assert(views(active@).take(active@.len() as int) == views(active@));
        closed
    }

    /// The states one move on `c` leads to from `active`, each once.
    fn step(&self, active: &Vec<String>, c: char) -> (moved: Vec<String>)
        ensures
            views(moved@).no_duplicates(),
            forall|b: Seq<char>|
                views(moved@).contains(b) <==> exists|i: int|
                    0 <= i < self.transitions@.len() && views(active@).contains(
                        #[trigger] self.transitions@[i].from_state@,
                    ) && self.transitions@[i].symbol@ == seq![c]
                        && self.transitions@[i].to_state@ == b,
    {
        let ghost ts = self.transitions@;
        let mut moved: Vec<String> = Vec::new();
        let mut i: usize = 0;
        while i < self.transitions.len()
            invariant
                ts == self.transitions@,
                i <= ts.len(),
                views(moved@).no_duplicates(),
                forall|b: Seq<char>|
                    views(moved@).contains(b) <==> exists|k: int|
                        0 <= k < i && views(active@).contains(#[trigger] ts[k].from_state@)
                            && ts[k].symbol@ == seq![c] && ts[k].to_state@ == b,
            decreases ts.len() - i,
        {
            let t = &self.transitions[i];
            let sym = chars_of(t.symbol.as_str());
            let fits = sym.len() == 1 && sym[0] == c;
            proof {
                if fits {
                    assert(sym@ =~= seq![c]);
                }
                if t.symbol@ == seq![c] {
                    assert(sym@[0] == c);
                }
            }
            let ghost before = views(moved@);
            if fits && crate::graph::contains_key(active, &t.from_state) {
                let name = t.to_state.clone();
                push_unique(&mut moved, name);
            }
            proof {
                assert forall|b: Seq<char>|
                    views(moved@).contains(b) <==> exists|k: int|
                        0 <= k < i + 1 && views(active@).contains(#[trigger] ts[k].from_state@)
                            && ts[k].symbol@ == seq![c] && ts[k].to_state@ == b by {
                    if exists|k: int|
                        0 <= k < i + 1 && views(active@).contains(#[trigger] ts[k].from_state@)
                            && ts[k].symbol@ == seq![c] && ts[k].to_state@ == b {
                        let k = choose|k: int|
                            0 <= k < i + 1 && views(active@).contains(#[trigger] ts[k].from_state@)
                                && ts[k].symbol@ == seq![c] && ts[k].to_state@ == b;
                        if k < i {
                            assert(before.contains(b));
                        }
                    }
                }
            }
            i = i + 1;
        }
        moved
    }

    /// Whether some state of `active` is accepting.
    fn any_accepting(&self, active: &Vec<String>) -> (found: bool)
        ensures
            found == exists|t: Seq<char>| views(active@).contains(t) && accept_state(self.states@, t),
    {
        let mut i: usize = 0;
        while i < self.states.len()
            invariant
                i <= self.states@.len(),
                forall|j: int|
                    0 <= j < i ==> !(self.states@[j].is_accept && views(active@).contains(
                        #[trigger] self.states@[j].state@,
                    )),
            decreases self.states@.len() - i,
        {
            if self.states[i].is_accept && crate::graph::contains_key(active, &self.states[i].state) {
                assert(accept_state(self.states@, self.states@[i as int].state@));
                return true;
            }
            i = i + 1;
        }
        proof {
            assert forall|t: Seq<char>|
                !(views(active@).contains(t) && accept_state(self.states@, t)) by {
                if views(active@).contains(t) && accept_state(self.states@, t) {
                    let k = choose|k: int|
                        0 <= k < self.states@.len() && #[trigger] self.states@[k].state@ == t
                            && self.states@[k].is_accept;
                    assert(!(self.states@[k].is_accept && views(active@).contains(
                        self.states@[k].state@,
                    )));
                }
            }
        }
        false
    }
}

/// Some node of `a` reaches `b` by epsilon moves.
pub open spec fn reached_by_epsilon(ts: Seq<NfaTransition>, a: Set<Seq<char>>, b: Seq<char>) -> bool {
    exists|s: Seq<char>| #[trigger] a.contains(s) && reaches(epsilon_edges(ts), s, b)
}

/// The closure of a vector agrees with the closure of the set it holds.
proof fn lemma_closure_agrees(
    states: Seq<NfaState>,
    ts: Seq<NfaTransition>,
    v: Seq<Seq<char>>,
    a: Set<Seq<char>>,
    b: Seq<char>,
)
    requires
        forall|x: Seq<char>| v.contains(x) <==> a.contains(x),
    ensures
        ((v.contains(b) && declared(states, b)) || reached_from(epsilon_edges(ts), v, b))
            <==> epsilon_closure(states, ts, a).contains(b),
{
    let es = epsilon_edges(ts);
    assert(epsilon_closure(states, ts, a).contains(b) == ((a.contains(b) && declared(states, b))
        || reached_by_epsilon(ts, a, b)));
    assert(reached_from(es, v, b) == reached_by_epsilon(ts, a, b)) by {
        if reached_from(es, v, b) {
            let s = choose|s: Seq<char>| #[trigger] v.contains(s) && reaches(es, s, b);
            assert(a.contains(s));
        }
        if reached_by_epsilon(ts, a, b) {
            let s = choose|s: Seq<char>| #[trigger] a.contains(s) && reaches(es, s, b);
            assert(v.contains(s));
        }
    }
}

} // verus!
