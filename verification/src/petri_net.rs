//! A Petri net over relations of places `(place_id, tokens)`, transitions
//! `(transition_id)` and weighted arcs `(transition_id, place_id, weight)`.
//! A transition is enabled when every input place holds at least the arc's
//! weight; firing it applies, to every place, the sum of the distinct
//! token changes `(place, -weight)` of its input arcs and `(place, weight)`
//! of its output arcs.
use vstd::prelude::*;
use crate::graph::{contains_key, push_unique, views, Key};

verus! {

broadcast use vstd::seq_lib::group_seq_properties;

/// A place and the tokens it holds.
#[derive(Clone, Debug, PartialEq, Eq)]
pub struct Place {
    pub place_id: String,
    pub tokens: i64,
}

/// A weighted arc between a transition and a place.
#[derive(Clone, Debug, PartialEq, Eq)]
pub struct Arc {
    pub transition_id: String,
    pub place_id: String,
    pub weight: i64,
}

impl View for Place {
    type V = (Seq<char>, i64);

    open spec fn view(&self) -> Self::V {
        (self.place_id@, self.tokens)
    }
}

impl Key for Place {
    fn same(&self, other: &Self) -> (b: bool) {
        self.place_id == other.place_id && self.tokens == other.tokens
    }

    fn duplicate(&self) -> (c: Self) {
        Place { place_id: self.place_id.clone(), tokens: self.tokens }
    }
}

impl View for Arc {
    type V = (Seq<char>, Seq<char>, i64);

    open spec fn view(&self) -> Self::V {
        (self.transition_id@, self.place_id@, self.weight)
    }
}

impl Key for Arc {
    fn same(&self, other: &Self) -> (b: bool) {
        self.transition_id == other.transition_id && self.place_id == other.place_id
            && self.weight == other.weight
    }

    fn duplicate(&self) -> (c: Self) {
        Arc {
            transition_id: self.transition_id.clone(),
            place_id: self.place_id.clone(),
            weight: self.weight,
        }
    }
}

/// The net's four relations.
pub struct PetriNet {
    pub places: Vec<Place>,
    pub transitions: Vec<String>,
    pub input_arcs: Vec<Arc>,
    pub output_arcs: Vec<Arc>,
}

/// Some input arc of `t` needs more tokens than an entry of its place holds.
pub open spec fn blocked(inputs: Seq<Arc>, places: Seq<Place>, t: Seq<char>) -> bool {
    exists|i: int, j: int|
        #![trigger inputs[i], places[j]]
        0 <= i < inputs.len() && 0 <= j < places.len() && inputs[i].transition_id@ == t
            && inputs[i].place_id@ == places[j].place_id@ && places[j].tokens < inputs[i].weight
}

/// The token changes `(place, weight)` of the arcs of `t`, in order, with
/// the weights negated for `negate`.
pub open spec fn arc_deltas(arcs: Seq<Arc>, t: Seq<char>, negate: bool) -> Seq<(Seq<char>, int)>
    decreases arcs.len(),
{
    if arcs.len() == 0 {
        Seq::empty()
    } else {
        let rest = arc_deltas(arcs.drop_last(), t, negate);
        let a = arcs.last();
        if a.transition_id@ == t {
            rest.push((a.place_id@, if negate { -a.weight } else { a.weight as int }))
        } else {
            rest
        }
    }
}

/// The sum of the distinct changes of place `p` in `s`.
pub open spec fn net_change(s: Seq<(Seq<char>, int)>, p: Seq<char>) -> int
    decreases s.len(),
{
    if s.len() == 0 {
        0
    } else {
        let rest = s.drop_last();
        let e = s.last();
        net_change(rest, p) + if e.0 == p && !rest.contains(e) {
            e.1
        } else {
            0
        }
    }
}

/// The token changes as integers.
pub open spec fn delta_views(v: Seq<(String, i128)>) -> Seq<(Seq<char>, int)> {
    v.map_values(|e: (String, i128)| (e.0@, e.1 as int))
}

impl PetriNet {
    /// No relation holds a tuple twice.
    pub open spec fn wf(&self) -> bool {
        &&& views(self.places@).no_duplicates()
        &&& views(self.transitions@).no_duplicates()
        &&& views(self.input_arcs@).no_duplicates()
        &&& views(self.output_arcs@).no_duplicates()
    }

    /// Transition `t` exists and no input place lacks tokens for it.
    pub open spec fn enabled(&self, t: Seq<char>) -> bool {
        views(self.transitions@).contains(t) && !blocked(self.input_arcs@, self.places@, t)
    }

    /// The token changes that firing `t` makes.
    pub open spec fn deltas(&self, t: Seq<char>) -> Seq<(Seq<char>, int)> {
        arc_deltas(self.input_arcs@, t, true) + arc_deltas(self.output_arcs@, t, false)
    }

    /// Firing `t` leaves every token count within `i64`.
    pub open spec fn firing_fits(&self, t: Seq<char>) -> bool {
        forall|j: int|
            0 <= j < self.places@.len() ==> i64::MIN <= #[trigger] self.places@[j].tokens + net_change(
                self.deltas(t),
                self.places@[j].place_id@,
            ) <= i64::MAX
    }

    /// An empty net.
    pub fn new() -> (net: Self)
        ensures
            net.wf(),
            net.places@.len() == 0,
            net.transitions@.len() == 0,
            net.input_arcs@.len() == 0,
            net.output_arcs@.len() == 0,
    {
        PetriNet {
            places: Vec::new(),
            transitions: Vec::new(),
            input_arcs: Vec::new(),
            output_arcs: Vec::new(),
        }
    }

    /// Adds the tuple `(id, tokens)` to the places.
    pub fn add_place(&mut self, id: &str, tokens: i64)
        requires
            old(self).wf(),
        ensures
            final(self).wf(),
            views(final(self).places@).to_set() == views(old(self).places@).to_set().insert((id@, tokens)),
            final(self).transitions == old(self).transitions,
            final(self).input_arcs == old(self).input_arcs,
            final(self).output_arcs == old(self).output_arcs,
    {
        let p = Place { place_id: id.to_owned(), tokens };
        push_unique(&mut self.places, p);
        assert(views(self.places@).to_set() =~= views(old(self).places@).to_set().insert((id@, tokens)));
    }

    /// Adds the tuple `(id)` to the transitions.
    pub fn add_transition(&mut self, id: &str)
        requires
            old(self).wf(),
        ensures
            final(self).wf(),
            views(final(self).transitions@).to_set() == views(old(self).transitions@).to_set().insert(id@),
            final(self).places == old(self).places,
            final(self).input_arcs == old(self).input_arcs,
            final(self).output_arcs == old(self).output_arcs,
    {
        push_unique(&mut self.transitions, id.to_owned());
        assert(views(self.transitions@).to_set() =~= views(old(self).transitions@).to_set().insert(id@));
    }

    /// Adds an arc from place `place_id` into transition `transition_id`.
    pub fn add_input_arc(&mut self, place_id: &str, transition_id: &str, weight: i64)
        requires
            old(self).wf(),
        ensures
            final(self).wf(),
            views(final(self).input_arcs@).to_set() == views(old(self).input_arcs@).to_set().insert(
                (transition_id@, place_id@, weight),
            ),
            final(self).places == old(self).places,
            final(self).transitions == old(self).transitions,
            final(self).output_arcs == old(self).output_arcs,
    {
        let a = Arc { transition_id: transition_id.to_owned(), place_id: place_id.to_owned(), weight };
        push_unique(&mut self.input_arcs, a);
        assert(views(self.input_arcs@).to_set() =~= views(old(self).input_arcs@).to_set().insert(
            (transition_id@, place_id@, weight),
        ));
    }

    /// Adds an arc from transition `transition_id` out to place `place_id`.
    pub fn add_output_arc(&mut self, transition_id: &str, place_id: &str, weight: i64)
        requires
            old(self).wf(),
        ensures
            final(self).wf(),
            views(final(self).output_arcs@).to_set() == views(old(self).output_arcs@).to_set().insert(
                (transition_id@, place_id@, weight),
            ),
            final(self).places == old(self).places,
            final(self).transitions == old(self).transitions,
            final(self).input_arcs == old(self).input_arcs,
    {
        let a = Arc { transition_id: transition_id.to_owned(), place_id: place_id.to_owned(), weight };
        push_unique(&mut self.output_arcs, a);
        assert(views(self.output_arcs@).to_set() =~= views(old(self).output_arcs@).to_set().insert(
            (transition_id@, place_id@, weight),
        ));
    }

    /// Whether some input arc of `t` lacks tokens.
    fn is_blocked(&self, t: &String) -> (b: bool)
        ensures
            b == blocked(self.input_arcs@, self.places@, t@),
    {
        let ghost inputs = self.input_arcs@;
        let ghost places = self.places@;
        let mut i: usize = 0;
        while i < self.input_arcs.len()
            invariant
                inputs == self.input_arcs@,
                places == self.places@,
                i <= inputs.len(),
                forall|a: int, j: int|
                    #![trigger inputs[a], places[j]]
                    0 <= a < i && 0 <= j < places.len() ==> !(inputs[a].transition_id@ == t@
                        && inputs[a].place_id@ == places[j].place_id@ && places[j].tokens
                        < inputs[a].weight),
            decreases inputs.len() - i,
        {
            let arc = &self.input_arcs[i];
            if arc.transition_id == *t {
                let mut j: usize = 0;
                while j < self.places.len()
                    invariant
                        inputs == self.input_arcs@,
                        places == self.places@,
                        i < inputs.len(),
                        arc == inputs[i as int],
                        arc.transition_id@ == t@,
                        j <= places.len(),
                        forall|a: int, k: int|
                            #![trigger inputs[a], places[k]]
                            0 <= a < i && 0 <= k < places.len() ==> !(inputs[a].transition_id@
                                == t@ && inputs[a].place_id@ == places[k].place_id@
                                && places[k].tokens < inputs[a].weight),
                        forall|k: int|
                            0 <= k < j ==> !(inputs[i as int].place_id@ == #[trigger] places[k].place_id@
                                && places[k].tokens < inputs[i as int].weight),
                    decreases places.len() - j,
                {
                    let pl = &self.places[j];
                    if pl.place_id == arc.place_id && pl.tokens < arc.weight {
                        assert(inputs[i as int].transition_id@ == t@ && inputs[i as int].place_id@
                            == places[j as int].place_id@ && places[j as int].tokens
                            < inputs[i as int].weight);
                        return true;
                    }
                    j = j + 1;
                }
            }
            i = i + 1;
        }
        false
    }

    /// The enabled transitions, each once.
    pub fn enabled_transitions(&self) -> (out: Vec<String>)
        ensures
            views(out@).no_duplicates(),
            forall|t: Seq<char>| #[trigger] views(out@).contains(t) <==> self.enabled(t),
    {
        let ghost ts = self.transitions@;
        let mut out: Vec<String> = Vec::new();
        let mut i: usize = 0;
        while i < self.transitions.len()
            invariant
                ts == self.transitions@,
                i <= ts.len(),
                views(out@).no_duplicates(),
                forall|t: Seq<char>|
                    #[trigger] views(out@).contains(t) <==> (views(ts.take(i as int)).contains(t)
                        && !blocked(self.input_arcs@, self.places@, t)),
            decreases ts.len() - i,
        {
            assert(views(ts.take(i + 1)) == views(ts.take(i as int)).push(ts[i as int]@));
            if !self.is_blocked(&self.transitions[i]) {
                push_unique(&mut out, self.transitions[i].clone());
            }
            i = i + 1;
        }
        assert(ts.take(ts.len() as int) == ts);
        out
    }

    /// Whether `t` is enabled.
    fn is_enabled(&self, t: &String) -> (b: bool)
        ensures
            b == self.enabled(t@),
    {
        contains_key(&self.transitions, t) && !self.is_blocked(t)
    }

    /// Appends the token changes of the arcs of `t`: `-weight` for input
    /// arcs, `weight` for output arcs.
    fn push_deltas(arcs: &Vec<Arc>, t: &String, input: bool, out: &mut Vec<(String, i128)>)
        ensures
            delta_views(final(out)@) == delta_views(old(out)@) + arc_deltas(arcs@, t@, input),
            final(out)@.len() >= old(out)@.len(),
            forall|k: int| 0 <= k < old(out)@.len() ==> final(out)@[k] == old(out)@[k],
            forall|k: int|
                old(out)@.len() <= k < final(out)@.len() ==> -0x8000_0000_0000_0000 <= (
                #[trigger] final(out)@[k]).1 <= 0x8000_0000_0000_0000,
    {
        let ghost start = out@;
        let mut i: usize = 0;
        while i < arcs.len()
            invariant
                i <= arcs@.len(),
                start.len() <= out@.len(),
                forall|k: int| 0 <= k < start.len() ==> out@[k] == start[k],
                delta_views(out@) == delta_views(start) + arc_deltas(arcs@.take(i as int), t@, input),
                forall|k: int|
                    start.len() <= k < out@.len() ==> -0x8000_0000_0000_0000 <= #[trigger] out@[k].1
                        <= 0x8000_0000_0000_0000,
            decreases arcs@.len() - i,
        {
            let a = &arcs[i];
            assert(arcs@.take(i + 1).drop_last() == arcs@.take(i as int));
            let ghost before = out@;
            if a.transition_id == *t {
                let w: i128 = a.weight as i128;
                let d: i128 = if input {
                    -w
                } else {
                    w
                };
                out.push((a.place_id.clone(), d));
                assert(delta_views(out@) =~= delta_views(before).push(
                    (a.place_id@, if input { -a.weight } else { a.weight as int }),
                ));
            } else {
                assert(delta_views(out@) == delta_views(before));
            }
            i = i + 1;
        }
        assert(arcs@.take(arcs@.len() as int) == arcs@);
    }

    /// The token changes that firing `t` makes, as a vector.
    fn collect_deltas(&self, t: &String) -> (all: Vec<(String, i128)>)
        ensures
            delta_views(all@) == self.deltas(t@),
            forall|k: int|
                0 <= k < all@.len() ==> -0x8000_0000_0000_0000 <= #[trigger] all@[k].1
                    <= 0x8000_0000_0000_0000,
    {
        let mut all: Vec<(String, i128)> = Vec::new();
        assert(delta_views(all@) == Seq::<(Seq<char>, int)>::empty());
        Self::push_deltas(&self.input_arcs, t, true, &mut all);
        Self::push_deltas(&self.output_arcs, t, false, &mut all);
        all
    }
}

/// The sum of the distinct changes of place `p`.
fn net_of(all: &Vec<(String, i128)>, p: &String) -> (n: i128)
    requires
        forall|k: int|
            0 <= k < all@.len() ==> -0x8000_0000_0000_0000 <= #[trigger] all@[k].1
                <= 0x8000_0000_0000_0000,
    ensures
        n == net_change(delta_views(all@), p@),
{
    let ghost dv = delta_views(all@);
    let mut acc: i128 = 0;
    let mut k: usize = 0;
    let len = all.len();
    while k < len
        invariant
            dv == delta_views(all@),
            len == all@.len(),
            k <= all@.len(),
            forall|x: int|
                0 <= x < all@.len() ==> -0x8000_0000_0000_0000 <= #[trigger] all@[x].1
                    <= 0x8000_0000_0000_0000,
            acc == net_change(dv.take(k as int), p@),
            -(k as int) * 0x8000_0000_0000_0000 <= acc <= (k as int) * 0x8000_0000_0000_0000,
        decreases all@.len() - k,
    {
        let ghost pre = dv.take(k as int);
        assert(dv.take(k + 1).drop_last() == pre);
        assert(dv.take(k + 1).last() == dv[k as int]);
        let e = &all[k];
        if e.0 == *p {
            let mut seen = false;
            let mut m: usize = 0;
            while m < k
                invariant
                    dv == delta_views(all@),
                    pre == dv.take(k as int),
                    k < all@.len(),
                    m <= k,
                    e == all@[k as int],
                    seen == exists|x: int| 0 <= x < m && #[trigger] pre[x] == dv[k as int],
                decreases k - m,
            {
                if all[m].0 == e.0 && all[m].1 == e.1 {
                    assert(pre[m as int] == dv[k as int]);
                    seen = true;
                } else {
                    assert(pre[m as int] != dv[k as int]);
                }
                proof {
                    if !seen {
                        assert forall|x: int| 0 <= x < m + 1 implies #[trigger] pre[x] != dv[k as int] by {}
                    }
                }
                m = m + 1;
            }
            assert(seen == pre.contains(dv[k as int]));
            if !seen {
                acc = acc + e.1;
            }
        }
        k = k + 1;
    }
    assert(dv.take(all@.len() as int) == dv);
    acc
}

impl PetriNet {
    /// Fires transition `transition_id` if it is enabled: every place gets
    /// its net token change. Returns whether it fired; a transition that is
    /// not enabled leaves the net as it was.
    pub fn fire(&mut self, transition_id: &str) -> (fired: bool)
        requires
            old(self).enabled(transition_id@) ==> old(self).firing_fits(transition_id@),
        ensures
            fired == old(self).enabled(transition_id@),
            final(self).transitions == old(self).transitions,
            final(self).input_arcs == old(self).input_arcs,
            final(self).output_arcs == old(self).output_arcs,
            !fired ==> final(self).places == old(self).places,
            fired ==> final(self).places@.len() == old(self).places@.len(),
            fired ==> forall|j: int|
                0 <= j < old(self).places@.len() ==> (#[trigger] final(self).places@[j]).place_id@
                    == old(self).places@[j].place_id@ && final(self).places@[j].tokens
                    == old(self).places@[j].tokens + net_change(
                    old(self).deltas(transition_id@),
                    old(self).places@[j].place_id@,
                ),
            old(self).wf() ==> final(self).wf(),
    {
        let t = transition_id.to_owned();
        if !self.is_enabled(&t) {
            return false;
        }
        let all = self.collect_deltas(&t);
        let ghost old_places = self.places@;
        let mut places: Vec<Place> = Vec::new();
        let mut j: usize = 0;
        while j < self.places.len()
            invariant
                old_places == self.places@,
                j <= old_places.len(),
                self.enabled(t@) ==> self.firing_fits(t@),
                self.enabled(t@),
                delta_views(all@) == self.deltas(t@),
                forall|k: int|
                    0 <= k < all@.len() ==> -0x8000_0000_0000_0000 <= #[trigger] all@[k].1
                        <= 0x8000_0000_0000_0000,
                places@.len() == j,
                forall|x: int|
                    0 <= x < j ==> (#[trigger] places@[x]).place_id@ == old_places[x].place_id@
                        && places@[x].tokens == old_places[x].tokens + net_change(
                        self.deltas(t@),
                        old_places[x].place_id@,
                    ),
            decreases old_places.len() - j,
        {
            let pl = &self.places[j];
            let n = net_of(&all, &pl.place_id);
            assert(i64::MIN <= old_places[j as int].tokens + net_change(self.deltas(t@), old_places[j as int].place_id@) <= i64::MAX);
            let total: i128 = pl.tokens as i128 + n;
            places.push(Place { place_id: pl.place_id.clone(), tokens: total as i64 });
            j = j + 1;
        }
        proof {
            if self.wf() {
                assert forall|x: int, y: int|
                    0 <= x < y < views(places@).len() implies views(places@)[x] != views(places@)[y] by {
                    assert(views(old_places)[x] != views(old_places)[y]);
                    assert(places@[x]@ == views(places@)[x]);
                    assert(places@[y]@ == views(places@)[y]);
                }
            }
        }
        self.places = places;
        true
    }
}

/// Each change that `arc_deltas` lists comes from an arc of `t`.
proof fn lemma_arc_deltas_from(arcs: Seq<Arc>, t: Seq<char>, negate: bool, k: int)
    requires
        0 <= k < arc_deltas(arcs, t, negate).len(),
    ensures
        exists|i: int|
            0 <= i < arcs.len() && #[trigger] arcs[i].transition_id@ == t && arc_deltas(arcs, t, negate)[k]
                == (arcs[i].place_id@, if negate {
                -arcs[i].weight
            } else {
                arcs[i].weight as int
            }),
    decreases arcs.len(),
{
    let rest = arc_deltas(arcs.drop_last(), t, negate);
    if k < rest.len() {
        lemma_arc_deltas_from(arcs.drop_last(), t, negate, k);
        let i = choose|i: int|
            0 <= i < arcs.drop_last().len() && #[trigger] arcs.drop_last()[i].transition_id@ == t
                && rest[k] == (arcs.drop_last()[i].place_id@, if negate {
                -arcs.drop_last()[i].weight
            } else {
                arcs.drop_last()[i].weight as int
            });
        assert(arcs[i] == arcs.drop_last()[i]);
        assert(arcs[i].transition_id@ == t);
    } else {
        assert(arcs[arcs.len() - 1].transition_id@ == t);
    }
}

/// The net change of `p` is at least `-w` when each of its changes is
/// non-negative or `-w`, and non-negative when `-w` is not among them.
proof fn lemma_net_lower(s: Seq<(Seq<char>, int)>, p: Seq<char>, w: int)
    requires
        w >= 0,
        forall|k: int| 0 <= k < s.len() && (#[trigger] s[k]).0 == p ==> s[k].1 >= 0 || s[k].1 == -w,
    ensures
        net_change(s, p) >= -w,
        !s.contains((p, -w)) ==> net_change(s, p) >= 0,
    decreases s.len(),
{
    if s.len() > 0 {
        let rest = s.drop_last();
        lemma_net_lower(rest, p, w);
        let e = s.last();
        assert(s[s.len() - 1] == e);
        if rest.contains((p, -w)) {
            let k = choose|k: int| 0 <= k < rest.len() && rest[k] == (p, -w);
            assert(s[k] == (p, -w));
        }
    }
}

/// Firing an enabled transition keeps every token count non-negative, when
/// the counts and weights are non-negative and the transition has one input
/// weight per place.
pub proof fn law_fire_keeps_tokens_nonnegative(net: PetriNet, t: Seq<char>)
    requires
        net.enabled(t),
        forall|j: int| 0 <= j < net.places@.len() ==> (#[trigger] net.places@[j]).tokens >= 0,
        forall|i: int| 0 <= i < net.input_arcs@.len() ==> (#[trigger] net.input_arcs@[i]).weight >= 0,
        forall|i: int| 0 <= i < net.output_arcs@.len() ==> (#[trigger] net.output_arcs@[i]).weight >= 0,
        forall|a: int, b: int|
            0 <= a < net.input_arcs@.len() && 0 <= b < net.input_arcs@.len()
                && (#[trigger] net.input_arcs@[a]).transition_id@ == t
                && (#[trigger] net.input_arcs@[b]).transition_id@ == t
                && net.input_arcs@[a].place_id@ == net.input_arcs@[b].place_id@
                ==> net.input_arcs@[a].weight == net.input_arcs@[b].weight,
    ensures
        forall|j: int|
            0 <= j < net.places@.len() ==> (#[trigger] net.places@[j]).tokens + net_change(
                net.deltas(t),
                net.places@[j].place_id@,
            ) >= 0,
{
    let inputs = net.input_arcs@;
    let outputs = net.output_arcs@;
    let consumed = arc_deltas(inputs, t, true);
    let produced = arc_deltas(outputs, t, false);
    let d = net.deltas(t);
    assert forall|j: int| 0 <= j < net.places@.len() implies (#[trigger] net.places@[j]).tokens
        + net_change(d, net.places@[j].place_id@) >= 0 by {
        let p = net.places@[j].place_id@;
        let w: int = if exists|i: int|
            0 <= i < inputs.len() && #[trigger] inputs[i].transition_id@ == t && inputs[i].place_id@ == p {
            let i = choose|i: int|
                0 <= i < inputs.len() && #[trigger] inputs[i].transition_id@ == t && inputs[i].place_id@ == p;
            inputs[i].weight as int
        } else {
            0
        };
        assert(w >= 0);
        assert forall|k: int| 0 <= k < d.len() && (#[trigger] d[k]).0 == p implies d[k].1 >= 0 || d[k].1
            == -w by {
            if k < consumed.len() {
                assert(d[k] == consumed[k]);
                lemma_arc_deltas_from(inputs, t, true, k);
                let i = choose|i: int|
                    0 <= i < inputs.len() && #[trigger] inputs[i].transition_id@ == t && consumed[k] == (
                    inputs[i].place_id@, -inputs[i].weight);
                assert(inputs[i].place_id@ == p);
            } else {
                assert(d[k] == produced[k - consumed.len()]);
                lemma_arc_deltas_from(outputs, t, false, k - consumed.len());
                let i = choose|i: int|
                    0 <= i < outputs.len() && #[trigger] outputs[i].transition_id@ == t && produced[k
                        - consumed.len()] == (outputs[i].place_id@, outputs[i].weight as int);
                assert(outputs[i].weight >= 0);
            }
        }
        lemma_net_lower(d, p, w);
        if w != 0 {
            let i = choose|i: int|
                0 <= i < inputs.len() && #[trigger] inputs[i].transition_id@ == t && inputs[i].place_id@ == p;
            assert(!(inputs[i].transition_id@ == t && inputs[i].place_id@ == net.places@[j].place_id@
                && net.places@[j].tokens < inputs[i].weight));
        }
    }
}

impl Default for PetriNet {
    fn default() -> (net: Self)
        ensures
            net.wf(),
            net.places@.len() == 0,
            net.transitions@.len() == 0,
            net.input_arcs@.len() == 0,
            net.output_arcs@.len() == 0,
    {
        PetriNet::new()
    }
}

/// The total weight of the arcs of `t` at place `p`.
pub open spec fn arc_weight(arcs: Seq<Arc>, t: Seq<char>, p: Seq<char>) -> int
    decreases arcs.len(),
{
    if arcs.len() == 0 {
        0
    } else {
        arc_weight(arcs.drop_last(), t, p) + if arcs.last().transition_id@ == t && arcs.last().place_id@ == p {
            arcs.last().weight as int
        } else {
            0
        }
    }
}

/// The plain sum of the changes of place `p`.
pub open spec fn plain_change(s: Seq<(Seq<char>, int)>, p: Seq<char>) -> int
    decreases s.len(),
{
    if s.len() == 0 {
        0
    } else {
        plain_change(s.drop_last(), p) + if s.last().0 == p { s.last().1 } else { 0 }
    }
}

proof fn lemma_net_plain(s: Seq<(Seq<char>, int)>, p: Seq<char>)
    requires
        forall|i: int, j: int| 0 <= i < j < s.len() && s[i] == s[j] ==> (#[trigger] s[j]).1 == 0 && #[trigger] s[i].1 == 0,
    ensures
        net_change(s, p) == plain_change(s, p),
    decreases s.len(),
{
    if s.len() > 0 {
        let rest = s.drop_last();
        lemma_net_plain(rest, p);
        if rest.contains(s.last()) {
            let i = choose|i: int| 0 <= i < rest.len() && rest[i] == s.last();
            assert(s[i] == s[s.len() - 1]);
        }
    }
}

proof fn lemma_plain_change_add(a: Seq<(Seq<char>, int)>, b: Seq<(Seq<char>, int)>, p: Seq<char>)
    ensures
        plain_change(a + b, p) == plain_change(a, p) + plain_change(b, p),
    decreases b.len(),
{
    if b.len() > 0 {
        lemma_plain_change_add(a, b.drop_last(), p);
        assert((a + b).drop_last() =~= a + b.drop_last());
    } else {
        assert(a + b =~= a);
    }
}

/// The changes of the arcs of `t`: their plain sum at `p`, where each comes
/// from, and that distinct arcs give distinct changes.
proof fn lemma_arc_deltas(arcs: Seq<Arc>, t: Seq<char>, negate: bool, p: Seq<char>)
    requires
        views(arcs).no_duplicates(),
    ensures
        plain_change(arc_deltas(arcs, t, negate), p) == if negate { -arc_weight(arcs, t, p) } else { arc_weight(arcs, t, p) },
        arc_deltas(arcs, t, negate).no_duplicates(),
        forall|i: int| #![trigger arc_deltas(arcs, t, negate)[i]] 0 <= i < arc_deltas(arcs, t, negate).len() ==> exists|k: int| 0 <= k < arcs.len()
            && (#[trigger] arcs[k]).transition_id@ == t && arc_deltas(arcs, t, negate)[i]
            == (arcs[k].place_id@, if negate { -arcs[k].weight } else { arcs[k].weight as int }),
    decreases arcs.len(),
{
    if arcs.len() > 0 {
        let pre = arcs.drop_last();
        assert(views(pre).no_duplicates()) by {
            assert forall|i: int, j: int| 0 <= i < views(pre).len() && 0 <= j < views(pre).len() && i != j implies views(pre)[i] != views(pre)[j] by {
                assert(views(pre)[i] == views(arcs)[i] && views(pre)[j] == views(arcs)[j]);
            }
        }
        lemma_arc_deltas(pre, t, negate, p);
        let rest = arc_deltas(pre, t, negate);
        let a = arcs.last();
        let d = arc_deltas(arcs, t, negate);
        assert forall|i: int| #![trigger d[i]] 0 <= i < d.len() implies exists|k: int| 0 <= k < arcs.len()
            && (#[trigger] arcs[k]).transition_id@ == t && d[i]
            == (arcs[k].place_id@, if negate { -arcs[k].weight } else { arcs[k].weight as int }) by {
            if i < rest.len() {
                assert(d[i] == rest[i]);
                let k = choose|k: int| 0 <= k < pre.len()
                    && (#[trigger] pre[k]).transition_id@ == t && rest[i]
                    == (pre[k].place_id@, if negate { -pre[k].weight } else { pre[k].weight as int });
                assert(arcs[k] == pre[k]);
            } else {
                assert(arcs[arcs.len() - 1] == a);
            }
        }
        if a.transition_id@ == t {
            let e = (a.place_id@, if negate { -a.weight } else { a.weight as int });
            assert(d == rest.push(e));
            assert(d.drop_last() =~= rest);
            assert(d.last() == e);
            if rest.contains(e) {
                let i = choose|i: int| 0 <= i < rest.len() && rest[i] == e;
                let k = choose|k: int| 0 <= k < pre.len()
                    && (#[trigger] pre[k]).transition_id@ == t && rest[i]
                    == (pre[k].place_id@, if negate { -pre[k].weight } else { pre[k].weight as int });
                assert(views(arcs)[k] == pre[k]@ && views(arcs)[arcs.len() - 1] == a@);
                assert(pre[k]@ == a@);
            }
            assert forall|x: int, y: int| 0 <= x < d.len() && 0 <= y < d.len() && x != y implies d[x] != d[y] by {
                if x < rest.len() && y < rest.len() {
                    assert(d[x] == rest[x] && d[y] == rest[y]);
                } else if x < rest.len() {
                    assert(d[x] == rest[x] && d[y] == e);
                } else {
                    assert(d[y] == rest[y] && d[x] == e);
                }
            }
        } else {
            assert(d == rest);
        }
    }
}

/// Firing changes each place by the weights of the transition's arcs: with
/// arcs of weight 0 or more, a place gains the total weight of the output
/// arcs into it and loses that of the input arcs from it.
pub proof fn law_fire_change_is_arc_weights(net: PetriNet, t: Seq<char>, p: Seq<char>)
    requires
        net.wf(),
        forall|i: int| 0 <= i < net.input_arcs@.len() ==> (#[trigger] net.input_arcs@[i]).weight >= 0,
        forall|i: int| 0 <= i < net.output_arcs@.len() ==> (#[trigger] net.output_arcs@[i]).weight >= 0,
    ensures
        net_change(net.deltas(t), p) == arc_weight(net.output_arcs@, t, p) - arc_weight(net.input_arcs@, t, p),
{
    let a = arc_deltas(net.input_arcs@, t, true);
    let b = arc_deltas(net.output_arcs@, t, false);
    lemma_arc_deltas(net.input_arcs@, t, true, p);
    lemma_arc_deltas(net.output_arcs@, t, false, p);
    let s = a + b;
    assert forall|i: int, j: int| 0 <= i < j < s.len() && s[i] == s[j] implies (#[trigger] s[j]).1 == 0 && #[trigger] s[i].1 == 0 by {
        if j < a.len() {
            assert(s[i] == a[i] && s[j] == a[j]);
        } else if i >= a.len() {
            assert(s[i] == b[i - a.len()] && s[j] == b[j - a.len()]);
        } else {
            assert(s[i] == a[i] && s[j] == b[j - a.len()]);
            let k = choose|k: int| 0 <= k < net.input_arcs@.len() && (#[trigger] net.input_arcs@[k]).transition_id@ == t
                && a[i] == (net.input_arcs@[k].place_id@, -net.input_arcs@[k].weight);
            let m = choose|m: int| 0 <= m < net.output_arcs@.len() && (#[trigger] net.output_arcs@[m]).transition_id@ == t
                && b[j - a.len()] == (net.output_arcs@[m].place_id@, net.output_arcs@[m].weight as int);
            assert(net.input_arcs@[k].weight >= 0 && net.output_arcs@[m].weight >= 0);
        }
    }
    lemma_net_plain(s, p);
    lemma_plain_change_add(a, b, p);
}

} // verus!
