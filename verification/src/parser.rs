//! CYK parsing over relations: terminal rules `(lhs, rhs)`, binary rules
//! `(lhs, rhs1, rhs2)` and an input `(pos, char)`. The parse table
//! `(start, length, non_terminal)` is the least set that holds every
//! terminal match of length one and every combination of two adjacent
//! entries by a binary rule.
use vstd::prelude::*;
use crate::graph::{contains_key, push_unique, views, Key};
use crate::text::str_eq;

verus! {

broadcast use vstd::seq_lib::group_seq_properties;

/// A rule `lhs -> rhs` with a terminal on the right.
#[derive(Clone, Debug, PartialEq, Eq)]
pub struct TerminalRule {
    pub lhs: String,
    pub rhs: String,
}

/// A rule `lhs -> rhs1 rhs2`.
#[derive(Clone, Debug, PartialEq, Eq)]
pub struct BinaryRule {
    pub lhs: String,
    pub rhs1: String,
    pub rhs2: String,
}

/// A symbol of the input at a position.
#[derive(Clone, Debug, PartialEq, Eq)]
pub struct Symbol {
    pub pos: i64,
    pub ch: String,
}

/// `non_terminal` derives the input from `start` for `length` symbols.
#[derive(Clone, Debug, PartialEq, Eq)]
pub struct ParseEntry {
    pub start: i64,
    pub length: i64,
    pub non_terminal: String,
}

impl View for ParseEntry {
    type V = (i64, i64, Seq<char>);

    open spec fn view(&self) -> Self::V {
        (self.start, self.length, self.non_terminal@)
    }
}

impl Key for ParseEntry {
    fn same(&self, other: &Self) -> (b: bool) {
        self.start == other.start && self.length == other.length && self.non_terminal == other.non_terminal
    }

    fn duplicate(&self) -> (c: Self) {
        ParseEntry { start: self.start, length: self.length, non_terminal: self.non_terminal.clone() }
    }
}

/// The grammar.
pub struct CykParser {
    pub terminals: Vec<TerminalRule>,
    pub non_terminals: Vec<BinaryRule>,
}

/// A parse table entry as values.
pub type Entry = (i64, i64, Seq<char>);

/// A terminal rule matches the input symbol at `q.0` and `q` is its entry.
pub open spec fn initial(input: Seq<Symbol>, terms: Seq<TerminalRule>, q: Entry) -> bool {
    exists|i: int, t: int|
        #![trigger input[i], terms[t]]
        0 <= i < input.len() && 0 <= t < terms.len() && input[i].ch@ == terms[t].rhs@ && q == (
            input[i].pos,
            1i64,
            terms[t].lhs@,
        )
}

/// `q` combines two adjacent entries of `table` by a binary rule.
pub open spec fn combines(table: Set<Entry>, rules: Seq<BinaryRule>, q: Entry) -> bool {
    exists|a: Entry, b: Entry, r: int|
        #![trigger table.contains(a), table.contains(b), rules[r]]
        table.contains(a) && table.contains(b) && 0 <= r < rules.len() && b.0 == a.0 + a.1 && a.2
            == rules[r].rhs1@ && b.2 == rules[r].rhs2@ && q.0 == a.0 && q.1 == a.1 + b.1 && q.2 == rules[r].lhs@
}

/// `table` holds every initial entry and every combination of its entries.
pub open spec fn closed(input: Seq<Symbol>, terms: Seq<TerminalRule>, rules: Seq<BinaryRule>, table: Set<Entry>) -> bool {
    &&& forall|q: Entry| #[trigger] initial(input, terms, q) ==> table.contains(q)
    &&& forall|q: Entry| #[trigger] combines(table, rules, q) ==> table.contains(q)
}

/// A terminal rule matches the input symbol at position `p`.
pub open spec fn matched(input: Seq<Symbol>, terms: Seq<TerminalRule>, p: int) -> bool {
    exists|i: int, t: int|
        #![trigger input[i], terms[t]]
        0 <= i < input.len() && 0 <= t < terms.len() && input[i].pos == p && input[i].ch@ == terms[t].rhs@
}

/// Spans between matched positions stay within `i64`.
pub open spec fn spans_fit(input: Seq<Symbol>, terms: Seq<TerminalRule>) -> bool {
    forall|p: int, q: int|
        #[trigger] matched(input, terms, p) && #[trigger] matched(input, terms, q) ==> p < i64::MAX && q + 1 - p
            <= i64::MAX
}

/// The grammar's left-hand sides.
pub open spec fn names(terms: Seq<TerminalRule>, rules: Seq<BinaryRule>) -> Seq<Seq<char>> {
    terms.map_values(|t: TerminalRule| t.lhs@) + rules.map_values(|r: BinaryRule| r.lhs@)
}

/// The entries from `s` to an end in `es` with a name in `ns`.
pub open spec fn row(s: i64, es: Seq<i64>, ns: Seq<Seq<char>>) -> Seq<Entry>
    decreases es.len(),
{
    if es.len() == 0 {
        Seq::empty()
    } else {
        row(s, es.drop_last(), ns) + ns.map_values(|n: Seq<char>| (s, (es.last() + 1 - s) as i64, n))
    }
}

/// The entries from a start in `ps` to an end in `es` with a name in `ns`.
pub open spec fn candidates(ps: Seq<i64>, es: Seq<i64>, ns: Seq<Seq<char>>) -> Seq<Entry>
    decreases ps.len(),
{
    if ps.len() == 0 {
        Seq::empty()
    } else {
        candidates(ps.drop_last(), es, ns) + row(ps.last(), es, ns)
    }
}

proof fn lemma_row_contains(s: i64, es: Seq<i64>, ns: Seq<Seq<char>>, e: i64, n: Seq<char>)
    requires
        es.contains(e),
        ns.contains(n),
    ensures
        row(s, es, ns).contains((s, (e + 1 - s) as i64, n)),
    decreases es.len(),
{
    let q = (s, (e + 1 - s) as i64, n);
    let rest = row(s, es.drop_last(), ns);
    let tail = ns.map_values(|m: Seq<char>| (s, (es.last() + 1 - s) as i64, m));
    if es.last() == e {
        let k = choose|k: int| 0 <= k < ns.len() && ns[k] == n;
        assert(tail[k] == q);
        assert((rest + tail)[rest.len() + k] == q);
    } else {
        let k = choose|k: int| 0 <= k < es.len() && es[k] == e;
        assert(es.drop_last()[k] == e);
        lemma_row_contains(s, es.drop_last(), ns, e, n);
        let j = choose|j: int| 0 <= j < rest.len() && rest[j] == q;
        assert((rest + tail)[j] == q);
    }
}

proof fn lemma_candidates_contain(ps: Seq<i64>, es: Seq<i64>, ns: Seq<Seq<char>>, s: i64, e: i64, n: Seq<char>)
    requires
        ps.contains(s),
        es.contains(e),
        ns.contains(n),
    ensures
        candidates(ps, es, ns).contains((s, (e + 1 - s) as i64, n)),
    decreases ps.len(),
{
    let q = (s, (e + 1 - s) as i64, n);
    let rest = candidates(ps.drop_last(), es, ns);
    let r = row(ps.last(), es, ns);
    if ps.last() == s {
        lemma_row_contains(s, es, ns, e, n);
        let j = choose|j: int| 0 <= j < r.len() && r[j] == q;
        assert((rest + r)[rest.len() + j] == q);
    } else {
        let k = choose|k: int| 0 <= k < ps.len() && ps[k] == s;
        assert(ps.drop_last()[k] == s);
        lemma_candidates_contain(ps.drop_last(), es, ns, s, e, n);
        let j = choose|j: int| 0 <= j < rest.len() && rest[j] == q;
        assert((rest + r)[j] == q);
    }
}

/// Rule applications of entries `a` then `b` give `q`.
pub open spec fn pair_yields(a: Entry, b: Entry, rules: Seq<BinaryRule>, q: Entry) -> bool {
    exists|r: int|
        0 <= r < rules.len() && b.0 == a.0 + a.1 && a.2 == (#[trigger] rules[r]).rhs1@ && b.2 == rules[r].rhs2@
            && q.0 == a.0 && q.1 == a.1 + b.1 && q.2 == rules[r].lhs@
}

/// Everything that entries `a` then `b` give is in `table`.
pub open spec fn pair_done(table: Set<Entry>, rules: Seq<BinaryRule>, a: Entry, b: Entry) -> bool {
    forall|q: Entry| #[trigger] pair_yields(a, b, rules, q) ==> table.contains(q)
}

/// An entry that can occur: it starts and ends at matched positions and
/// its name is a left-hand side.
pub open spec fn entry_ok(input: Seq<Symbol>, terms: Seq<TerminalRule>, rules: Seq<BinaryRule>, q: Entry) -> bool {
    &&& matched(input, terms, q.0 as int)
    &&& q.1 >= 1
    &&& matched(input, terms, q.0 + q.1 - 1)
    &&& names(terms, rules).contains(q.2)
}

/// `t` lies in every closed set.
pub open spec fn least(input: Seq<Symbol>, terms: Seq<TerminalRule>, rules: Seq<BinaryRule>, t: Set<Entry>) -> bool {
    forall|s: Set<Entry>| #[trigger] closed(input, terms, rules, s) ==> t.subset_of(s)
}

/// The parse table's invariant.
pub open spec fn table_ok(input: Seq<Symbol>, terms: Seq<TerminalRule>, rules: Seq<BinaryRule>, t: Seq<ParseEntry>) -> bool {
    &&& views(t).no_duplicates()
    &&& forall|k: int| 0 <= k < t.len() ==> entry_ok(input, terms, rules, (#[trigger] t[k])@)
    &&& least(input, terms, rules, views(t).to_set())
    &&& forall|q: Entry| #[trigger] initial(input, terms, q) ==> views(t).contains(q)
}

impl CykParser {
    /// Adds what entries `a` then `b` give by a binary rule.
    fn combine_pair(&self, table: &mut Vec<ParseEntry>, a: usize, b: usize, Ghost(input): Ghost<Seq<Symbol>>)
        requires
            a < old(table)@.len(),
            b < old(table)@.len(),
            spans_fit(input, self.terminals@),
            table_ok(input, self.terminals@, self.non_terminals@, old(table)@),
        ensures
            table_ok(input, self.terminals@, self.non_terminals@, final(table)@),
            final(table)@.len() >= old(table)@.len(),
            forall|k: int| 0 <= k < old(table)@.len() ==> final(table)@[k] == old(table)@[k],
            forall|q: Entry|
                #[trigger] views(final(table)@).contains(q) <==> (views(old(table)@).contains(q) || pair_yields(
                    old(table)@[a as int]@,
                    old(table)@[b as int]@,
                    self.non_terminals@,
                    q,
                )),
    {
        let ghost terms = self.terminals@;
        let ghost rules = self.non_terminals@;
        let ghost t0 = table@;
        let ea = table[a].duplicate();
        let eb = table[b].duplicate();
        proof {
            assert(entry_ok(input, terms, rules, t0[a as int]@));
            assert(entry_ok(input, terms, rules, t0[b as int]@));
            let ea_end = ea.start + ea.length - 1;
            assert(matched(input, terms, ea.start as int));
            assert(matched(input, terms, ea_end));
        }
        let ends_at: i64 = ea.start + ea.length;
        let mut r: usize = 0;
        while r < self.non_terminals.len()
            invariant
                terms == self.terminals@,
                rules == self.non_terminals@,
                r <= rules.len(),
                a < t0.len(),
                b < t0.len(),
                ea@ == t0[a as int]@,
                eb@ == t0[b as int]@,
                ends_at == ea.start + ea.length,
                entry_ok(input, terms, rules, ea@),
                entry_ok(input, terms, rules, eb@),
                spans_fit(input, terms),
                table_ok(input, terms, rules, table@),
                table@.len() >= t0.len(),
                forall|k: int| 0 <= k < t0.len() ==> table@[k] == t0[k],
                forall|q: Entry|
                    #[trigger] views(table@).contains(q) <==> (views(t0).contains(q) || exists|x: int|
                        0 <= x < r && eb.start == ea.start + ea.length && ea.non_terminal@ == (#[trigger] rules[x]).rhs1@
                            && eb.non_terminal@ == rules[x].rhs2@ && q.0 == ea.start && q.1 == ea.length + eb.length
                            && q.2 == rules[x].lhs@),
            decreases rules.len() - r,
        {
            let rule = &self.non_terminals[r];
            let ghost before = views(table@);
            if eb.start == ends_at && ea.non_terminal == rule.rhs1 && eb.non_terminal == rule.rhs2 {
                proof {
                    let bs = eb.start as int;
                    let be = eb.start + eb.length - 1;
                    assert(matched(input, terms, be));
                    assert(matched(input, terms, ea.start as int));
                }
                let len: i64 = ea.length + eb.length;
                let q = ParseEntry { start: ea.start, length: len, non_terminal: rule.lhs.clone() };
                proof {
                    assert(names(terms, rules)[terms.len() + r] == rule.lhs@);
                    assert(entry_ok(input, terms, rules, q@));
                    assert forall|s: Set<Entry>| #[trigger] closed(input, terms, rules, s) implies s.contains(q@) by {
                        assert(views(t0).to_set().subset_of(s));
                        assert(views(t0)[a as int] == ea@);
                        assert(views(t0)[b as int] == eb@);
                        assert(views(t0).contains(ea@));
                        assert(views(t0).contains(eb@));
                        assert(s.contains(ea@) && s.contains(eb@));
                        assert(combines(s, rules, q@));
                    }
                }
                push_unique(table, q);
                proof {
                    assert forall|s: Set<Entry>| #[trigger] closed(input, terms, rules, s) implies views(table@).to_set().subset_of(s) by {
                        assert(before.to_set().subset_of(s));
                    }
                    assert forall|k: int| 0 <= k < table@.len() implies entry_ok(input, terms, rules, (#[trigger] table@[k])@) by {
                        if k >= before.len() {
                            assert(table@[k]@ == q@);
                        }
                    }
                }
            }
            r = r + 1;
        }
        proof {
            assert forall|q: Entry|
                #[trigger] views(table@).contains(q) <==> (views(t0).contains(q) || pair_yields(t0[a as int]@, t0[b as int]@, rules, q)) by {
                if pair_yields(t0[a as int]@, t0[b as int]@, rules, q) {
                    let x = choose|x: int|
                        0 <= x < rules.len() && t0[b as int]@.0 == t0[a as int]@.0 + t0[a as int]@.1 && t0[a as int]@.2 == (#[trigger] rules[x]).rhs1@
                            && t0[b as int]@.2 == rules[x].rhs2@ && q.0 == t0[a as int]@.0 && q.1 == t0[a as int]@.1 + t0[b as int]@.1 && q.2 == rules[x].lhs@;
                    assert(rules[x] == rules[x]);
                }
            }
        }
    }
}

/// The input positions.
pub open spec fn positions(input: Seq<Symbol>) -> Seq<i64> {
    input.map_values(|x: Symbol| x.pos)
}

proof fn lemma_table_bounded(input: Seq<Symbol>, terms: Seq<TerminalRule>, rules: Seq<BinaryRule>, t: Seq<ParseEntry>)
    requires
        table_ok(input, terms, rules, t),
    ensures
        t.len() <= candidates(positions(input), positions(input), names(terms, rules)).len(),
{
    let ps = positions(input);
    let ns = names(terms, rules);
    let u = candidates(ps, ps, ns);
    assert forall|q: Entry| views(t).to_set().contains(q) implies u.to_set().contains(q) by {
        let k = choose|k: int| 0 <= k < views(t).len() && views(t)[k] == q;
        assert(entry_ok(input, terms, rules, t[k]@));
        let (i, x) = choose|i: int, x: int|
            #![trigger input[i], terms[x]]
            0 <= i < input.len() && 0 <= x < terms.len() && input[i].pos == q.0 && input[i].ch@ == terms[x].rhs@;
        assert(ps[i] == q.0);
        let (j, y) = choose|j: int, y: int|
            #![trigger input[j], terms[y]]
            0 <= j < input.len() && 0 <= y < terms.len() && input[j].pos == q.0 + q.1 - 1 && input[j].ch@ == terms[y].rhs@;
        assert(ps[j] == q.0 + q.1 - 1);
        lemma_candidates_contain(ps, ps, ns, q.0, ps[j], q.2);
    }
    views(t).unique_seq_to_set();
    vstd::set_lib::lemma_len_subset(views(t).to_set(), u.to_set());
    u.lemma_cardinality_of_set();
}

impl CykParser {
    /// A parser for the given grammar.
    pub fn new(terminals: Vec<TerminalRule>, non_terminals: Vec<BinaryRule>) -> (p: Self)
        ensures
            p.terminals == terminals,
            p.non_terminals == non_terminals,
    {
        CykParser { terminals, non_terminals }
    }

    /// The entries of length one: every input symbol that a terminal rule
    /// matches, with the rule's left-hand side.
    fn initialize_parse_table(&self, input: &Vec<Symbol>) -> (table: Vec<ParseEntry>)
        requires
            spans_fit(input@, self.terminals@),
        ensures
            table_ok(input@, self.terminals@, self.non_terminals@, table@),
    {
        let ghost terms = self.terminals@;
        let ghost rules = self.non_terminals@;
        let mut table: Vec<ParseEntry> = Vec::new();
        let mut i: usize = 0;
        while i < input.len()
            invariant
                terms == self.terminals@,
                rules == self.non_terminals@,
                i <= input@.len(),
                spans_fit(input@, terms),
                views(table@).no_duplicates(),
                forall|k: int| 0 <= k < table@.len() ==> entry_ok(input@, terms, rules, (#[trigger] table@[k])@),
                forall|q: Entry| #[trigger] views(table@).contains(q) ==> initial(input@, terms, q),
                forall|q: Entry|
                    #[trigger] initial(input@, terms, q) ==> (views(table@).contains(q) || exists|x: int, t: int|
                        #![trigger input@[x], terms[t]]
                        i <= x < input@.len() && 0 <= t < terms.len() && input@[x].ch@ == terms[t].rhs@ && q == (
                            input@[x].pos,
                            1i64,
                            terms[t].lhs@,
                        )),
            decreases input@.len() - i,
        {
            let mut t: usize = 0;
            while t < self.terminals.len()
                invariant
                    terms == self.terminals@,
                    rules == self.non_terminals@,
                    i < input@.len(),
                    t <= terms.len(),
                    spans_fit(input@, terms),
                    views(table@).no_duplicates(),
                    forall|k: int| 0 <= k < table@.len() ==> entry_ok(input@, terms, rules, (#[trigger] table@[k])@),
                    forall|q: Entry| #[trigger] views(table@).contains(q) ==> initial(input@, terms, q),
                    forall|q: Entry|
                        #[trigger] initial(input@, terms, q) ==> (views(table@).contains(q) || exists|x: int, y: int|
                            #![trigger input@[x], terms[y]]
                            ((x == i && t <= y) || i < x) && x < input@.len() && 0 <= y < terms.len() && input@[x].ch@
                                == terms[y].rhs@ && q == (input@[x].pos, 1i64, terms[y].lhs@)),
                decreases terms.len() - t,
            {
                let sym = &input[i];
                let rule = &self.terminals[t];
                let ghost before = views(table@);
                if sym.ch == rule.rhs {
                    let q = ParseEntry { start: sym.pos, length: 1, non_terminal: rule.lhs.clone() };
                    proof {
                        assert(matched(input@, terms, sym.pos as int));
                        assert(names(terms, rules)[t as int] == rule.lhs@);
                        assert(entry_ok(input@, terms, rules, q@));
                        assert(initial(input@, terms, q@));
                    }
                    push_unique(&mut table, q);
                    proof {
                        assert forall|k: int| 0 <= k < table@.len() implies entry_ok(input@, terms, rules, (#[trigger] table@[k])@) by {
                            if k >= before.len() {
                                assert(table@[k]@ == q@);
                            }
                        }
                    }
                }
                t = t + 1;
            }
            i = i + 1;
        }
        proof {
            assert forall|s: Set<Entry>| #[trigger] closed(input@, terms, rules, s) implies views(table@).to_set().subset_of(s) by {
                assert forall|q: Entry| views(table@).to_set().contains(q) implies s.contains(q) by {
                    assert(initial(input@, terms, q));
                }
            }
        }
        table
    }

    /// The parse table of `input`: the least set that holds every symbol a
    /// terminal rule matches (length one) and is closed under combining two
    /// adjacent entries by a binary rule; each entry once.
    pub fn parse(&self, input: &Vec<Symbol>) -> (table: Vec<ParseEntry>)
        requires
            spans_fit(input@, self.terminals@),
        ensures
            views(table@).no_duplicates(),
            closed(input@, self.terminals@, self.non_terminals@, views(table@).to_set()),
            least(input@, self.terminals@, self.non_terminals@, views(table@).to_set()),
    {
        let ghost terms = self.terminals@;
        let ghost rules = self.non_terminals@;
        let ghost u = candidates(positions(input@), positions(input@), names(terms, rules));
        let mut table = self.initialize_parse_table(input);
        proof {
            lemma_table_bounded(input@, terms, rules, table@);
        }
        loop
            invariant
                terms == self.terminals@,
                rules == self.non_terminals@,
                u == candidates(positions(input@), positions(input@), names(terms, rules)),
                spans_fit(input@, terms),
                table_ok(input@, terms, rules, table@),
                table@.len() <= u.len(),
            ensures
                table_ok(input@, terms, rules, table@),
                forall|q: Entry| #[trigger] combines(views(table@).to_set(), rules, q) ==> views(table@).contains(q),
            decreases u.len() - table@.len(),
        {
            let n0 = table.len();
            let ghost t0 = table@;
            let mut a: usize = 0;
            while a < n0
                invariant
                    terms == self.terminals@,
                    rules == self.non_terminals@,
                    spans_fit(input@, terms),
                    n0 == t0.len(),
                    a <= n0,
                    table_ok(input@, terms, rules, table@),
                    table@.len() >= n0,
                    forall|k: int| 0 <= k < n0 ==> table@[k] == t0[k],
                    table@.len() == n0 ==> forall|x: int, y: int|
                        #![trigger t0[x], t0[y]]
                        0 <= x < a && 0 <= y < n0 ==> pair_done(views(table@).to_set(), rules, t0[x]@, t0[y]@),
                decreases n0 - a,
            {
                let mut b: usize = 0;
                while b < n0
                    invariant
                        terms == self.terminals@,
                        rules == self.non_terminals@,
                        spans_fit(input@, terms),
                        n0 == t0.len(),
                        a < n0,
                        b <= n0,
                        table_ok(input@, terms, rules, table@),
                        table@.len() >= n0,
                        forall|k: int| 0 <= k < n0 ==> table@[k] == t0[k],
                        table@.len() == n0 ==> forall|x: int, y: int|
                            #![trigger t0[x], t0[y]]
                            0 <= x < n0 && 0 <= y < n0 && (x < a || (x == a && y < b)) ==> pair_done(
                                views(table@).to_set(),
                                rules,
                                t0[x]@,
                                t0[y]@,
                            ),
                    decreases n0 - b,
                {
                    let ghost before = table@;
                    self.combine_pair(&mut table, a, b, Ghost(input@));
                    proof {
                        if table@.len() == n0 {
                            assert(table@ =~= before);
                            assert forall|q: Entry| #[trigger] pair_yields(t0[a as int]@, t0[b as int]@, rules, q) implies views(table@).to_set().contains(q) by {
                                assert(views(table@).contains(q));
                            }
                        }
                    }
                    b = b + 1;
                }
                a = a + 1;
            }
            if table.len() == n0 {
                proof {
                    assert(table@ =~= t0);
                    assert forall|q: Entry| #[trigger] combines(views(table@).to_set(), rules, q) implies views(table@).contains(q) by {
                        let (ea, eb, r) = choose|ea: Entry, eb: Entry, r: int|
                            #![trigger views(table@).to_set().contains(ea), views(table@).to_set().contains(eb), rules[r]]
                            views(table@).to_set().contains(ea) && views(table@).to_set().contains(eb) && 0 <= r < rules.len()
                                && eb.0 == ea.0 + ea.1 && ea.2 == rules[r].rhs1@ && eb.2 == rules[r].rhs2@ && q.0 == ea.0
                                && q.1 == ea.1 + eb.1 && q.2 == rules[r].lhs@;
                        let x = choose|x: int| 0 <= x < views(table@).len() && views(table@)[x] == ea;
                        let y = choose|y: int| 0 <= y < views(table@).len() && views(table@)[y] == eb;
                        assert(t0[x]@ == ea && t0[y]@ == eb);
                        assert(pair_done(views(table@).to_set(), rules, t0[x]@, t0[y]@));
                        assert(pair_yields(ea, eb, rules, q));
                    }
                }
                break;
            }
            proof {
                lemma_table_bounded(input@, terms, rules, table@);
            }
        }
        table
    }

    /// Whether the table derives the whole input of `input_length` symbols
    /// from position 0 by `start_symbol`.
    pub fn is_accepted(parse_table: &Vec<ParseEntry>, start_symbol: &str, input_length: i64) -> (b: bool)
        ensures
            b == views(parse_table@).contains((0i64, input_length, start_symbol@)),
    {
        let mut i: usize = 0;
        while i < parse_table.len()
            invariant
                i <= parse_table@.len(),
                forall|k: int| 0 <= k < i ==> (#[trigger] parse_table@[k])@ != (0i64, input_length, start_symbol@),
            decreases parse_table@.len() - i,
        {
            let e = &parse_table[i];
            if e.start == 0 && e.length == input_length && str_eq(e.non_terminal.as_str(), start_symbol) {
                assert(views(parse_table@)[i as int] == (0i64, input_length, start_symbol@));
                return true;
            }
            i = i + 1;
        }
        assert forall|k: int| 0 <= k < views(parse_table@).len() implies views(parse_table@)[k] != (0i64, input_length, start_symbol@) by {
            assert(views(parse_table@)[k] == parse_table@[k]@);
        }
        false
    }
}

} // verus!
