//! An Enigma machine over relations: the plugboard, three rotors and the
//! reflector are wirings `(pin_in, pin_out)`; a message is a relation
//! `(pos, char)` with characters `0..26`. Each rotor is turned by an offset
//! that depends on the position, and the signal runs through plugboard,
//! rotors, reflector, the rotors backwards and the plugboard again.
use vstd::prelude::*;
use crate::graph::{push_unique, views};

verus! {

broadcast use vstd::seq_lib::group_seq_properties;

/// The machine's wirings.
pub struct EnigmaMachine {
    pub plugboard: Vec<(i64, i64)>,
    pub rotor1: Vec<(i64, i64)>,
    pub rotor2: Vec<(i64, i64)>,
    pub rotor3: Vec<(i64, i64)>,
    pub reflector: Vec<(i64, i64)>,
}

/// A set of pairs: a message `(pos, char)` or a wiring `(pin_in, pin_out)`.
pub type Pairs = Set<(i64, i64)>;

/// Division rounding toward zero, for a positive divisor.
pub open spec fn trunc_div(a: int, d: int) -> int {
    if a >= 0 {
        a / d
    } else {
        -((-a) / d)
    }
}

/// The remainder of division rounding toward zero, for a positive divisor.
pub open spec fn trunc_rem(a: int, d: int) -> int {
    if a >= 0 {
        a % d
    } else {
        -((-a) % d)
    }
}

/// The rotor offset at position `pos` for a rotor that steps every `step`
/// characters.
pub open spec fn offset(pos: i64, step: int) -> int {
    trunc_rem(trunc_div(pos as int, step), 26)
}

/// `c + k` taken modulo 26 into `0..26`.
pub open spec fn shift(c: int, k: int) -> i64 {
    ((c + k) % 26) as i64
}

/// The message through a fixed wiring.
pub open spec fn through(msg: Pairs, wiring: Pairs) -> Pairs {
    Set::new(
        |q: (i64, i64)|
            exists|c: i64| #![trigger msg.contains((q.0, c)), wiring.contains((c, q.1))] msg.contains((q.0, c)) && wiring.contains((c, q.1)),
    )
}

/// The message forward through a rotor turned by its offset.
pub open spec fn forward(msg: Pairs, rotor: Pairs, step: int) -> Pairs {
    Set::new(
        |q: (i64, i64)|
            exists|c: i64, o: i64|
                #![trigger msg.contains((q.0, c)), rotor.contains((shift(c as int, offset(q.0, step)), o))]
                msg.contains((q.0, c)) && rotor.contains((shift(c as int, offset(q.0, step)), o)) && q.1 == shift(
                    o as int,
                    -offset(q.0, step),
                ),
    )
}

/// The message backward through a rotor turned by its offset.
pub open spec fn backward(msg: Pairs, rotor: Pairs, step: int) -> Pairs {
    Set::new(
        |q: (i64, i64)|
            exists|c: i64, i: i64|
                #![trigger msg.contains((q.0, c)), rotor.contains((i, shift(c as int, offset(q.0, step))))]
                msg.contains((q.0, c)) && rotor.contains((i, shift(c as int, offset(q.0, step)))) && q.1 == shift(
                    i as int,
                    -offset(q.0, step),
                ),
    )
}

/// The whole signal path of the machine's wirings on a message.
pub open spec fn encipher(
    plug: Pairs,
    r1: Pairs,
    r2: Pairs,
    r3: Pairs,
    refl: Pairs,
    msg: Pairs,
) -> Pairs {
    let a = through(msg, plug);
    let b = forward(forward(forward(a, r1, 1), r2, 26), r3, 676);
    let c = through(b, refl);
    let d = backward(backward(backward(c, r3, 676), r2, 26), r1, 1);
    through(d, plug)
}

/// The rotor offset at `pos`.
fn rotor_offset(pos: i64, step: i64) -> (o: i64)
    requires
        step > 0,
    ensures
        o == offset(pos, step as int),
        -26 < o < 26,
{
    let p: i128 = pos as i128;
    let d: i128 = step as i128;
    let q: i128 = if p >= 0 {
        proof {
            let pi: int = p as int;
            let di: int = d as int;
            assert(pi / di <= pi) by (nonlinear_arith)
                requires
                    pi >= 0,
                    di >= 1,
            ;
        }
        p / d
    } else {
        proof {
            let np: int = -(p as int);
            let di: int = d as int;
            assert(np / di <= np) by (nonlinear_arith)
                requires
                    np >= 0,
                    di >= 1,
            ;
        }
        -((-p) / d)
    };
    assert(q == trunc_div(pos as int, step as int));
    let r: i128 = if q >= 0 {
        q % 26
    } else {
        -((-q) % 26)
    };
    r as i64
}

/// `c + k` modulo 26 into `0..26`.
fn shift_by(c: i64, k: i64) -> (s: i64)
    requires
        -26 < k < 26,
    ensures
        s == shift(c as int, k as int),
        0 <= s < 26,
{
    let x: i128 = c as i128 + k as i128;
    let m: i128 = x.checked_rem_euclid(26).unwrap();
    m as i64
}

/// The message through a fixed wiring, each pair once.
fn through_exec(msg: &Vec<(i64, i64)>, wiring: &Vec<(i64, i64)>) -> (out: Vec<(i64, i64)>)
    ensures
        out@.no_duplicates(),
        out@.to_set() == through(msg@.to_set(), wiring@.to_set()),
{
    let mut out: Vec<(i64, i64)> = Vec::new();
    let mut a: usize = 0;
    while a < msg.len()
        invariant
            a <= msg@.len(),
            out@.no_duplicates(),
            forall|q: (i64, i64)|
                #[trigger] out@.contains(q) <==> exists|x: int, y: int|
                    #![trigger msg@[x], wiring@[y]]
                    0 <= x < a && 0 <= y < wiring@.len() && msg@[x].1 == wiring@[y].0 && q == (msg@[x].0, wiring@[y].1),
        decreases msg@.len() - a,
    {
        let mut b: usize = 0;
        while b < wiring.len()
            invariant
                a < msg@.len(),
                b <= wiring@.len(),
                out@.no_duplicates(),
                forall|q: (i64, i64)|
                    #[trigger] out@.contains(q) <==> exists|x: int, y: int|
                        #![trigger msg@[x], wiring@[y]]
                        0 <= x < msg@.len() && 0 <= y < wiring@.len() && (x < a || (x == a && y < b)) && msg@[x].1
                            == wiring@[y].0 && q == (msg@[x].0, wiring@[y].1),
            decreases wiring@.len() - b,
        {
            let ghost before = out@;
            if msg[a].1 == wiring[b].0 {
                proof {
                    crate::graph::lemma_int_views(Seq::empty(), out@);
                }
                push_unique(&mut out, (msg[a].0, wiring[b].1));
                proof {
                    crate::graph::lemma_int_views(Seq::empty(), out@);
                    crate::graph::lemma_int_views(Seq::empty(), before);
                }
            }
            proof {
                assert forall|q: (i64, i64)|
                    #[trigger] out@.contains(q) <==> exists|x: int, y: int|
                        #![trigger msg@[x], wiring@[y]]
                        0 <= x < msg@.len() && 0 <= y < wiring@.len() && (x < a || (x == a && y < b + 1))
                            && msg@[x].1 == wiring@[y].0 && q == (msg@[x].0, wiring@[y].1) by {
                    if exists|x: int, y: int|
                        #![trigger msg@[x], wiring@[y]]
                        0 <= x < msg@.len() && 0 <= y < wiring@.len() && (x < a || (x == a && y < b + 1))
                            && msg@[x].1 == wiring@[y].0 && q == (msg@[x].0, wiring@[y].1) {
                        let (x, y) = choose|x: int, y: int|
                            #![trigger msg@[x], wiring@[y]]
                            0 <= x < msg@.len() && 0 <= y < wiring@.len() && (x < a || (x == a && y < b + 1))
                                && msg@[x].1 == wiring@[y].0 && q == (msg@[x].0, wiring@[y].1);
                        if !(x == a && y == b) {
                            assert(before.contains(q));
                        }
                    }
                }
            }
            b = b + 1;
        }
        a = a + 1;
    }
    proof {
        assert forall|q: (i64, i64)| out@.to_set().contains(q) <==> through(msg@.to_set(), wiring@.to_set()).contains(q) by {
            if through(msg@.to_set(), wiring@.to_set()).contains(q) {
                let c = choose|c: i64| #![trigger msg@.to_set().contains((q.0, c)), wiring@.to_set().contains((c, q.1))] msg@.to_set().contains((q.0, c)) && wiring@.to_set().contains((c, q.1));
                let x = choose|x: int| 0 <= x < msg@.len() && msg@[x] == (q.0, c);
                let y = choose|y: int| 0 <= y < wiring@.len() && wiring@[y] == (c, q.1);
                assert(msg@[x].1 == wiring@[y].0);
            }
            if out@.contains(q) {
                let (x, y) = choose|x: int, y: int|
                    #![trigger msg@[x], wiring@[y]]
                    0 <= x < msg@.len() && 0 <= y < wiring@.len() && (x < msg@.len() || (x == msg@.len() && y < 0)) && msg@[x].1
                        == wiring@[y].0 && q == (msg@[x].0, wiring@[y].1);
                assert(msg@.to_set().contains((q.0, msg@[x].1)));
                assert(wiring@.to_set().contains((msg@[x].1, q.1)));
            }
        }
        assert(out@.to_set() =~= through(msg@.to_set(), wiring@.to_set()));
    }
    out
}

/// Message pair `x` meets rotor wire `y` (forward: on its input pin,
/// backward: on its output pin), and `q` is what comes out.
pub open spec fn rotor_hit(
    msg: Seq<(i64, i64)>,
    rotor: Seq<(i64, i64)>,
    step: int,
    back: bool,
    x: int,
    y: int,
    q: (i64, i64),
) -> bool {
    let off = offset(msg[x].0, step);
    let pin = shift(msg[x].1 as int, off);
    &&& 0 <= x < msg.len()
    &&& 0 <= y < rotor.len()
    &&& if back {
        rotor[y].1 == pin && q == (msg[x].0, shift(rotor[y].0 as int, -off))
    } else {
        rotor[y].0 == pin && q == (msg[x].0, shift(rotor[y].1 as int, -off))
    }
}

/// The message through a rotor, forward or backward, each pair once.
fn rotor_exec(msg: &Vec<(i64, i64)>, rotor: &Vec<(i64, i64)>, step: i64, back: bool) -> (out: Vec<(i64, i64)>)
    requires
        step > 0,
    ensures
        out@.no_duplicates(),
        out@.to_set() == if back {
            backward(msg@.to_set(), rotor@.to_set(), step as int)
        } else {
            forward(msg@.to_set(), rotor@.to_set(), step as int)
        },
{
    let ghost ms = msg@;
    let ghost rs = rotor@;
    let mut out: Vec<(i64, i64)> = Vec::new();
    let mut a: usize = 0;
    while a < msg.len()
        invariant
            ms == msg@,
            rs == rotor@,
            step > 0,
            a <= ms.len(),
            out@.no_duplicates(),
            forall|q: (i64, i64)|
                #[trigger] out@.contains(q) <==> exists|x: int, y: int|
                    #![trigger ms[x], rs[y]]
                    x < a && rotor_hit(ms, rs, step as int, back, x, y, q),
        decreases ms.len() - a,
    {
        let pos = msg[a].0;
        let off = rotor_offset(pos, step);
        let pin = shift_by(msg[a].1, off);
        let mut b: usize = 0;
        while b < rotor.len()
            invariant
                ms == msg@,
                rs == rotor@,
                step > 0,
                a < ms.len(),
                b <= rs.len(),
                pos == ms[a as int].0,
                off == offset(pos, step as int),
                -26 < off < 26,
                pin == shift(ms[a as int].1 as int, off as int),
                out@.no_duplicates(),
                forall|q: (i64, i64)|
                    #[trigger] out@.contains(q) <==> exists|x: int, y: int|
                        #![trigger ms[x], rs[y]]
                        (x < a || (x == a && y < b)) && rotor_hit(ms, rs, step as int, back, x, y, q),
            decreases rs.len() - b,
        {
            let ghost before = out@;
            let wire = rotor[b];
            let (enter, leave) = if back {
                (wire.1, wire.0)
            } else {
                (wire.0, wire.1)
            };
            if enter == pin {
                let v = shift_by(leave, -off);
                proof {
                    crate::graph::lemma_int_views(Seq::empty(), out@);
                }
                push_unique(&mut out, (pos, v));
                proof {
                    crate::graph::lemma_int_views(Seq::empty(), out@);
                    crate::graph::lemma_int_views(Seq::empty(), before);
                    assert(rotor_hit(ms, rs, step as int, back, a as int, b as int, (pos, v)));
                }
            }
            proof {
                assert forall|q: (i64, i64)|
                    #[trigger] out@.contains(q) <==> exists|x: int, y: int|
                        #![trigger ms[x], rs[y]]
                        (x < a || (x == a && y < b + 1)) && rotor_hit(ms, rs, step as int, back, x, y, q) by {
                    if exists|x: int, y: int|
                        #![trigger ms[x], rs[y]]
                        (x < a || (x == a && y < b + 1)) && rotor_hit(ms, rs, step as int, back, x, y, q) {
                        let (x, y) = choose|x: int, y: int|
                            #![trigger ms[x], rs[y]]
                            (x < a || (x == a && y < b + 1)) && rotor_hit(ms, rs, step as int, back, x, y, q);
                        if !(x == a && y == b) {
                            assert(before.contains(q));
                        }
                    }
                }
            }
            b = b + 1;
        }
        a = a + 1;
    }
    proof {
        let target = if back {
            backward(ms.to_set(), rs.to_set(), step as int)
        } else {
            forward(ms.to_set(), rs.to_set(), step as int)
        };
        assert forall|q: (i64, i64)| out@.to_set().contains(q) <==> target.contains(q) by {
            let off = offset(q.0, step as int);
            if target.contains(q) {
                if back {
                    let (c, i) = choose|c: i64, i: i64|
                        #![trigger ms.to_set().contains((q.0, c)), rs.to_set().contains((i, shift(c as int, offset(q.0, step as int))))]
                        ms.to_set().contains((q.0, c)) && rs.to_set().contains((i, shift(c as int, offset(q.0, step as int)))) && q.1 == shift(
                            i as int,
                            -offset(q.0, step as int),
                        );
                    let x = choose|x: int| 0 <= x < ms.len() && ms[x] == (q.0, c);
                    let y = choose|y: int| 0 <= y < rs.len() && rs[y] == (i, shift(c as int, off));
                    assert(rotor_hit(ms, rs, step as int, back, x, y, q));
                } else {
                    let (c, o) = choose|c: i64, o: i64|
                        #![trigger ms.to_set().contains((q.0, c)), rs.to_set().contains((shift(c as int, offset(q.0, step as int)), o))]
                        ms.to_set().contains((q.0, c)) && rs.to_set().contains((shift(c as int, offset(q.0, step as int)), o)) && q.1 == shift(
                            o as int,
                            -offset(q.0, step as int),
                        );
                    let x = choose|x: int| 0 <= x < ms.len() && ms[x] == (q.0, c);
                    let y = choose|y: int| 0 <= y < rs.len() && rs[y] == (shift(c as int, off), o);
                    assert(rotor_hit(ms, rs, step as int, back, x, y, q));
                }
            }
            if out@.contains(q) {
                let (x, y) = choose|x: int, y: int|
                    #![trigger ms[x], rs[y]]
                    (x < ms.len() || (x == ms.len() && y < 0)) && rotor_hit(ms, rs, step as int, back, x, y, q);
                assert(ms.to_set().contains(ms[x]));
                assert(rs.to_set().contains(rs[y]));
                assert(ms[x].0 == q.0);
            }
        }
        assert(out@.to_set() =~= target);
    }
    out
}

impl EnigmaMachine {
    /// A machine with the given wirings.
    pub fn new(
        plugboard: Vec<(i64, i64)>,
        rotor1: Vec<(i64, i64)>,
        rotor2: Vec<(i64, i64)>,
        rotor3: Vec<(i64, i64)>,
        reflector: Vec<(i64, i64)>,
    ) -> (m: Self)
        ensures
            m.plugboard == plugboard,
            m.rotor1 == rotor1,
            m.rotor2 == rotor2,
            m.rotor3 == rotor3,
            m.reflector == reflector,
    {
        EnigmaMachine { plugboard, rotor1, rotor2, rotor3, reflector }
    }

    /// Enciphers (or deciphers) a message `(pos, char)`: the result holds,
    /// each once, every pair that the signal path gives.
    pub fn encrypt(&self, message: &Vec<(i64, i64)>) -> (out: Vec<(i64, i64)>)
        ensures
            out@.no_duplicates(),
            out@.to_set() == encipher(
                self.plugboard@.to_set(),
                self.rotor1@.to_set(),
                self.rotor2@.to_set(),
                self.rotor3@.to_set(),
                self.reflector@.to_set(),
                message@.to_set(),
            ),
    {
        let current = through_exec(message, &self.plugboard);
        let current = rotor_exec(&current, &self.rotor1, 1, false);
        let current = rotor_exec(&current, &self.rotor2, 26, false);
        let current = rotor_exec(&current, &self.rotor3, 676, false);
        let current = through_exec(&current, &self.reflector);
        let current = rotor_exec(&current, &self.rotor3, 676, true);
        let current = rotor_exec(&current, &self.rotor2, 26, true);
        let current = rotor_exec(&current, &self.rotor1, 1, true);
        through_exec(&current, &self.plugboard)
    }
}

/// Pin `x` is wired to some pin.
pub open spec fn wired_from(w: Pairs, x: i64) -> bool {
    exists|y: i64| #[trigger] w.contains((x, y))
}

/// Some pin is wired to pin `y`.
pub open spec fn wired_to(w: Pairs, y: i64) -> bool {
    exists|x: i64| #[trigger] w.contains((x, y))
}

/// `w` wires every pin of `0..26` to exactly one pin of `0..26`, and every
/// pin of `0..26` is wired from exactly one pin.
pub open spec fn is_permutation(w: Pairs) -> bool {
    &&& forall|p: (i64, i64)| #[trigger] w.contains(p) ==> 0 <= p.0 < 26 && 0 <= p.1 < 26
    &&& forall|x: i64| 0 <= x < 26 ==> #[trigger] wired_from(w, x)
    &&& forall|y: i64| 0 <= y < 26 ==> #[trigger] wired_to(w, y)
    &&& forall|x: i64, y1: i64, y2: i64| #[trigger] w.contains((x, y1)) && #[trigger] w.contains((x, y2)) ==> y1 == y2
    &&& forall|x1: i64, x2: i64, y: i64| #[trigger] w.contains((x1, y)) && #[trigger] w.contains((x2, y)) ==> x1 == x2
}

/// `w` is a permutation that swaps pins in pairs: it is its own inverse.
pub open spec fn is_involution(w: Pairs) -> bool {
    is_permutation(w) && forall|x: i64, y: i64| #[trigger] w.contains((x, y)) ==> w.contains((y, x))
}

/// Every character of the message lies in `0..26`.
pub open spec fn in_alphabet(msg: Pairs) -> bool {
    forall|p: (i64, i64)| #[trigger] msg.contains(p) ==> 0 <= p.1 < 26
}

/// The pin that `w` wires `x` to.
pub open spec fn app(w: Pairs, x: i64) -> i64 {
    choose|y: i64| w.contains((x, y))
}

/// The pin that `w` wires to `y`.
pub open spec fn inv(w: Pairs, y: i64) -> i64 {
    choose|x: i64| w.contains((x, y))
}

/// A character forward through a rotor turned by `off`.
pub open spec fn fwd(rotor: Pairs, off: int, c: i64) -> i64 {
    shift(app(rotor, shift(c as int, off)) as int, -off)
}

/// A character backward through a rotor turned by `off`.
pub open spec fn bwd(rotor: Pairs, off: int, c: i64) -> i64 {
    shift(inv(rotor, shift(c as int, off)) as int, -off)
}

/// The character that the signal path gives for `c` at position `pos`.
pub open spec fn path(plug: Pairs, r1: Pairs, r2: Pairs, r3: Pairs, refl: Pairs, pos: i64, c: i64) -> i64 {
    let o1 = offset(pos, 1);
    let o2 = offset(pos, 26);
    let o3 = offset(pos, 676);
    let a = app(plug, c);
    let b = fwd(r3, o3, fwd(r2, o2, fwd(r1, o1, a)));
    let m = app(refl, b);
    let d = bwd(r1, o1, bwd(r2, o2, bwd(r3, o3, m)));
    app(plug, d)
}

proof fn lemma_shift_back(o: int, k: int)
    requires
        0 <= o < 26,
        -26 < k < 26,
    ensures
        shift(shift(o, -k) as int, k) == o,
{
    let a = (o - k) % 26;
    assert(0 <= a < 26);
    assert(a == o - k || a == o - k + 26 || a == o - k - 26);
}

proof fn lemma_app(w: Pairs, x: i64)
    requires
        is_permutation(w),
        0 <= x < 26,
    ensures
        w.contains((x, app(w, x))),
        0 <= app(w, x) < 26,
{
    assert(wired_from(w, x));
}

proof fn lemma_inv(w: Pairs, y: i64)
    requires
        is_permutation(w),
        0 <= y < 26,
    ensures
        w.contains((inv(w, y), y)),
        0 <= inv(w, y) < 26,
{
    assert(wired_to(w, y));
}

proof fn lemma_fwd_bwd(rotor: Pairs, off: int, c: i64)
    requires
        is_permutation(rotor),
        -26 < off < 26,
        0 <= c < 26,
    ensures
        0 <= fwd(rotor, off, c) < 26,
        0 <= bwd(rotor, off, c) < 26,
        bwd(rotor, off, fwd(rotor, off, c)) == c,
        fwd(rotor, off, bwd(rotor, off, c)) == c,
{
    let x = shift(c as int, off);
    lemma_app(rotor, x);
    lemma_inv(rotor, x);
    let o = app(rotor, x);
    lemma_shift_back(o as int, off);
    lemma_inv(rotor, o);
    assert(rotor.contains((x, o)));
    assert(inv(rotor, o) == x);
    lemma_shift_back(c as int, -off);
    assert(shift(x as int, -off) == c) by {
        let a = (c + off) % 26;
        assert(a == c + off || a == c + off + 26 || a == c + off - 26);
    }
    let i = inv(rotor, x);
    lemma_shift_back(i as int, off);
    lemma_app(rotor, i);
    assert(app(rotor, i) == x);
}

proof fn lemma_involution(w: Pairs, c: i64)
    requires
        is_involution(w),
        0 <= c < 26,
    ensures
        0 <= app(w, c) < 26,
        app(w, app(w, c)) == c,
{
    lemma_app(w, c);
    let d = app(w, c);
    lemma_app(w, d);
    assert(w.contains((d, c)));
}

/// The pairs `(pos, f(pos, c))` for the pairs `(pos, c)` of `msg`.
pub open spec fn image(msg: Pairs, f: spec_fn(i64, i64) -> i64) -> Pairs {
    Set::new(|q: (i64, i64)| exists|c: i64| #[trigger] msg.contains((q.0, c)) && q.1 == f(q.0, c))
}

proof fn lemma_image_compose(msg: Pairs, f: spec_fn(i64, i64) -> i64, g: spec_fn(i64, i64) -> i64)
    ensures
        image(image(msg, f), g) == image(msg, |p: i64, c: i64| g(p, f(p, c))),
{
    let lhs = image(image(msg, f), g);
    let rhs = image(msg, |p: i64, c: i64| g(p, f(p, c)));
    assert forall|q: (i64, i64)| lhs.contains(q) <==> rhs.contains(q) by {
        if lhs.contains(q) {
            let d = choose|d: i64| #[trigger] image(msg, f).contains((q.0, d)) && q.1 == g(q.0, d);
            let c = choose|c: i64| #[trigger] msg.contains((q.0, c)) && d == f(q.0, c);
            assert(msg.contains((q.0, c)));
        }
        if rhs.contains(q) {
            let c = choose|c: i64| #[trigger] msg.contains((q.0, c)) && q.1 == g(q.0, f(q.0, c));
            let x = (q.0, f(q.0, c));
            assert(msg.contains((x.0, c)) && x.1 == f(x.0, c));
            assert(image(msg, f).contains(x));
            assert(lhs.contains(q));
        }
    }
    assert(lhs =~= rhs);
}

proof fn lemma_through_image(msg: Pairs, w: Pairs)
    requires
        is_permutation(w),
        in_alphabet(msg),
    ensures
        through(msg, w) == image(msg, |p: i64, c: i64| app(w, c)),
        in_alphabet(through(msg, w)),
{
    let lhs = through(msg, w);
    let rhs = image(msg, |p: i64, c: i64| app(w, c));
    assert forall|q: (i64, i64)| lhs.contains(q) <==> rhs.contains(q) by {
        if lhs.contains(q) {
            let c = choose|c: i64| #![trigger msg.contains((q.0, c)), w.contains((c, q.1))] msg.contains((q.0, c)) && w.contains((c, q.1));
            lemma_app(w, c);
            assert(msg.contains((q.0, c)) && q.1 == app(w, c));
        }
        if rhs.contains(q) {
            let c = choose|c: i64| #[trigger] msg.contains((q.0, c)) && q.1 == app(w, c);
            lemma_app(w, c);
        }
    }
    assert(lhs =~= rhs);
    assert forall|q: (i64, i64)| #[trigger] lhs.contains(q) implies 0 <= q.1 < 26 by {
        let c = choose|c: i64| #![trigger msg.contains((q.0, c)), w.contains((c, q.1))] msg.contains((q.0, c)) && w.contains((c, q.1));
    }
}

proof fn lemma_forward_image(msg: Pairs, rotor: Pairs, step: int)
    requires
        is_permutation(rotor),
        in_alphabet(msg),
        step > 0,
    ensures
        forward(msg, rotor, step) == image(msg, |p: i64, c: i64| fwd(rotor, offset(p, step), c)),
        in_alphabet(forward(msg, rotor, step)),
{
    let lhs = forward(msg, rotor, step);
    let rhs = image(msg, |p: i64, c: i64| fwd(rotor, offset(p, step), c));
    assert forall|q: (i64, i64)| lhs.contains(q) <==> rhs.contains(q) by {
        let off = offset(q.0, step);
        if lhs.contains(q) {
            let (c, o) = choose|c: i64, o: i64|
                #![trigger msg.contains((q.0, c)), rotor.contains((shift(c as int, offset(q.0, step)), o))]
                msg.contains((q.0, c)) && rotor.contains((shift(c as int, offset(q.0, step)), o)) && q.1 == shift(
                    o as int,
                    -offset(q.0, step),
                );
            lemma_app(rotor, shift(c as int, off));
            assert(msg.contains((q.0, c)) && q.1 == fwd(rotor, off, c));
        }
        if rhs.contains(q) {
            let c = choose|c: i64| #[trigger] msg.contains((q.0, c)) && q.1 == fwd(rotor, offset(q.0, step), c);
            lemma_app(rotor, shift(c as int, off));
            assert(rotor.contains((shift(c as int, off), app(rotor, shift(c as int, off)))));
        }
    }
    assert(lhs =~= rhs);
}

proof fn lemma_backward_image(msg: Pairs, rotor: Pairs, step: int)
    requires
        is_permutation(rotor),
        in_alphabet(msg),
        step > 0,
    ensures
        backward(msg, rotor, step) == image(msg, |p: i64, c: i64| bwd(rotor, offset(p, step), c)),
        in_alphabet(backward(msg, rotor, step)),
{
    let lhs = backward(msg, rotor, step);
    let rhs = image(msg, |p: i64, c: i64| bwd(rotor, offset(p, step), c));
    assert forall|q: (i64, i64)| lhs.contains(q) <==> rhs.contains(q) by {
        let off = offset(q.0, step);
        if lhs.contains(q) {
            let (c, i) = choose|c: i64, i: i64|
                #![trigger msg.contains((q.0, c)), rotor.contains((i, shift(c as int, offset(q.0, step))))]
                msg.contains((q.0, c)) && rotor.contains((i, shift(c as int, offset(q.0, step)))) && q.1 == shift(
                    i as int,
                    -offset(q.0, step),
                );
            lemma_inv(rotor, shift(c as int, off));
            assert(msg.contains((q.0, c)) && q.1 == bwd(rotor, off, c));
        }
        if rhs.contains(q) {
            let c = choose|c: i64| #[trigger] msg.contains((q.0, c)) && q.1 == bwd(rotor, offset(q.0, step), c);
            lemma_inv(rotor, shift(c as int, off));
            assert(rotor.contains((inv(rotor, shift(c as int, off)), shift(c as int, off))));
        }
    }
    assert(lhs =~= rhs);
}

/// The machine's wirings fit an Enigma: plugboard and reflector swap pins
/// in pairs, and each rotor is a permutation of `0..26`.
pub open spec fn proper_machine(plug: Pairs, r1: Pairs, r2: Pairs, r3: Pairs, refl: Pairs) -> bool {
    is_involution(plug) && is_permutation(r1) && is_permutation(r2) && is_permutation(r3) && is_involution(refl)
}

proof fn lemma_offset_range(pos: i64, step: int)
    requires
        step > 0,
    ensures
        -26 < offset(pos, step) < 26,
{
}

proof fn lemma_encipher_image(plug: Pairs, r1: Pairs, r2: Pairs, r3: Pairs, refl: Pairs, msg: Pairs)
    requires
        proper_machine(plug, r1, r2, r3, refl),
        in_alphabet(msg),
    ensures
        encipher(plug, r1, r2, r3, refl, msg) == image(msg, |p: i64, c: i64| path(plug, r1, r2, r3, refl, p, c)),
{
    let f0 = |p: i64, c: i64| app(plug, c);
    let f1 = |p: i64, c: i64| fwd(r1, offset(p, 1), c);
    let f2 = |p: i64, c: i64| fwd(r2, offset(p, 26), c);
    let f3 = |p: i64, c: i64| fwd(r3, offset(p, 676), c);
    let f4 = |p: i64, c: i64| app(refl, c);
    let f5 = |p: i64, c: i64| bwd(r3, offset(p, 676), c);
    let f6 = |p: i64, c: i64| bwd(r2, offset(p, 26), c);
    let f7 = |p: i64, c: i64| bwd(r1, offset(p, 1), c);
    let s0 = through(msg, plug);
    lemma_through_image(msg, plug);
    let s1 = forward(s0, r1, 1);
    lemma_forward_image(s0, r1, 1);
    let s2 = forward(s1, r2, 26);
    lemma_forward_image(s1, r2, 26);
    let s3 = forward(s2, r3, 676);
    lemma_forward_image(s2, r3, 676);
    let s4 = through(s3, refl);
    lemma_through_image(s3, refl);
    let s5 = backward(s4, r3, 676);
    lemma_backward_image(s4, r3, 676);
    let s6 = backward(s5, r2, 26);
    lemma_backward_image(s5, r2, 26);
    let s7 = backward(s6, r1, 1);
    lemma_backward_image(s6, r1, 1);
    lemma_through_image(s7, plug);
    lemma_image_compose(msg, f0, f1);
    let g1 = |p: i64, c: i64| f1(p, f0(p, c));
    lemma_image_compose(msg, g1, f2);
    let g2 = |p: i64, c: i64| f2(p, g1(p, c));
    lemma_image_compose(msg, g2, f3);
    let g3 = |p: i64, c: i64| f3(p, g2(p, c));
    lemma_image_compose(msg, g3, f4);
    let g4 = |p: i64, c: i64| f4(p, g3(p, c));
    lemma_image_compose(msg, g4, f5);
    let g5 = |p: i64, c: i64| f5(p, g4(p, c));
    lemma_image_compose(msg, g5, f6);
    let g6 = |p: i64, c: i64| f6(p, g5(p, c));
    lemma_image_compose(msg, g6, f7);
    let g7 = |p: i64, c: i64| f7(p, g6(p, c));
    lemma_image_compose(msg, g7, f0);
    let g8 = |p: i64, c: i64| f0(p, g7(p, c));
    let pf = |p: i64, c: i64| path(plug, r1, r2, r3, refl, p, c);
    assert(g8 =~= pf);
}

proof fn lemma_path_involution(plug: Pairs, r1: Pairs, r2: Pairs, r3: Pairs, refl: Pairs, pos: i64, c: i64)
    requires
        proper_machine(plug, r1, r2, r3, refl),
        0 <= c < 26,
    ensures
        0 <= path(plug, r1, r2, r3, refl, pos, c) < 26,
        path(plug, r1, r2, r3, refl, pos, path(plug, r1, r2, r3, refl, pos, c)) == c,
{
    let o1 = offset(pos, 1);
    let o2 = offset(pos, 26);
    let o3 = offset(pos, 676);
    lemma_offset_range(pos, 1);
    lemma_offset_range(pos, 26);
    lemma_offset_range(pos, 676);
    lemma_involution(plug, c);
    let a = app(plug, c);
    lemma_fwd_bwd(r1, o1, a);
    let b1 = fwd(r1, o1, a);
    lemma_fwd_bwd(r2, o2, b1);
    let b2 = fwd(r2, o2, b1);
    lemma_fwd_bwd(r3, o3, b2);
    let b3 = fwd(r3, o3, b2);
    lemma_involution(refl, b3);
    let m = app(refl, b3);
    lemma_fwd_bwd(r3, o3, m);
    let d3 = bwd(r3, o3, m);
    lemma_fwd_bwd(r2, o2, d3);
    let d2 = bwd(r2, o2, d3);
    lemma_fwd_bwd(r1, o1, d2);
    let d1 = bwd(r1, o1, d2);
    lemma_involution(plug, d1);
    let t = app(plug, d1);
    assert(t == path(plug, r1, r2, r3, refl, pos, c));
    // The second pass undoes the first, stage by stage.
    assert(app(plug, t) == d1);
    assert(fwd(r1, o1, d1) == d2);
    assert(fwd(r2, o2, d2) == d3);
    assert(fwd(r3, o3, d3) == m);
    assert(app(refl, m) == b3);
    assert(bwd(r3, o3, b3) == b2);
    assert(bwd(r2, o2, b2) == b1);
    assert(bwd(r1, o1, b1) == a);
    assert(app(plug, a) == c);
}

/// Enciphering twice gives the message back: on a proper machine, the
/// signal path is its own inverse at every position.
pub proof fn law_encrypt_twice_restores(plug: Pairs, r1: Pairs, r2: Pairs, r3: Pairs, refl: Pairs, msg: Pairs)
    requires
        proper_machine(plug, r1, r2, r3, refl),
        in_alphabet(msg),
    ensures
        encipher(plug, r1, r2, r3, refl, encipher(plug, r1, r2, r3, refl, msg)) == msg,
{
    let pf = |p: i64, c: i64| path(plug, r1, r2, r3, refl, p, c);
    lemma_encipher_image(plug, r1, r2, r3, refl, msg);
    let once = encipher(plug, r1, r2, r3, refl, msg);
    assert(in_alphabet(once)) by {
        assert forall|q: (i64, i64)| #[trigger] once.contains(q) implies 0 <= q.1 < 26 by {
            let c = choose|c: i64| #[trigger] msg.contains((q.0, c)) && q.1 == pf(q.0, c);
            lemma_path_involution(plug, r1, r2, r3, refl, q.0, c);
        }
    }
    lemma_encipher_image(plug, r1, r2, r3, refl, once);
    lemma_image_compose(msg, pf, pf);
    let twice = image(msg, |p: i64, c: i64| pf(p, pf(p, c)));
    assert forall|q: (i64, i64)| twice.contains(q) <==> msg.contains(q) by {
        if twice.contains(q) {
            let c = choose|c: i64| #[trigger] msg.contains((q.0, c)) && q.1 == pf(q.0, pf(q.0, c));
            lemma_path_involution(plug, r1, r2, r3, refl, q.0, c);
        }
        if msg.contains(q) {
            lemma_path_involution(plug, r1, r2, r3, refl, q.0, q.1);
            assert(msg.contains((q.0, q.1)));
        }
    }
    assert(twice =~= msg);
}

/// The reflector wires no pin to itself.
pub open spec fn no_fixed_pin(w: Pairs) -> bool {
    forall|x: i64| !#[trigger] w.contains((x, x))
}

/// The message holds one character per position.
pub open spec fn one_per_position(msg: Pairs) -> bool {
    forall|p: i64, a: i64, b: i64| #[trigger] msg.contains((p, a)) && #[trigger] msg.contains((p, b)) ==> a == b
}

proof fn lemma_path_moves(plug: Pairs, r1: Pairs, r2: Pairs, r3: Pairs, refl: Pairs, pos: i64, c: i64)
    requires
        proper_machine(plug, r1, r2, r3, refl),
        no_fixed_pin(refl),
        0 <= c < 26,
    ensures
        path(plug, r1, r2, r3, refl, pos, c) != c,
{
    let o1 = offset(pos, 1);
    let o2 = offset(pos, 26);
    let o3 = offset(pos, 676);
    lemma_path_involution(plug, r1, r2, r3, refl, pos, c);
    lemma_involution(plug, c);
    let a = app(plug, c);
    lemma_fwd_bwd(r1, o1, a);
    let b1 = fwd(r1, o1, a);
    lemma_fwd_bwd(r2, o2, b1);
    let b2 = fwd(r2, o2, b1);
    lemma_fwd_bwd(r3, o3, b2);
    let b3 = fwd(r3, o3, b2);
    lemma_involution(refl, b3);
    lemma_app(refl, b3);
    let m = app(refl, b3);
    lemma_fwd_bwd(r3, o3, m);
    let d3 = bwd(r3, o3, m);
    lemma_fwd_bwd(r2, o2, d3);
    let d2 = bwd(r2, o2, d3);
    lemma_fwd_bwd(r1, o1, d2);
    let d1 = bwd(r1, o1, d2);
    lemma_involution(plug, d1);
    if path(plug, r1, r2, r3, refl, pos, c) == c {
        assert(app(plug, app(plug, d1)) == d1);
        assert(d1 == a);
        assert(d2 == fwd(r1, o1, d1));
        assert(d2 == b1);
        assert(d3 == fwd(r2, o2, d2));
        assert(d3 == b2);
        assert(m == fwd(r3, o3, d3));
        assert(m == b3);
        assert(refl.contains((b3, b3)));
    }
}

/// No character enciphers to itself: with a reflector that wires no pin
/// to itself, a message with one character per position shares no pair
/// with its encipherment.
pub proof fn law_no_character_maps_to_itself(
    plug: Pairs,
    r1: Pairs,
    r2: Pairs,
    r3: Pairs,
    refl: Pairs,
    msg: Pairs,
    q: (i64, i64),
)
    requires
        proper_machine(plug, r1, r2, r3, refl),
        no_fixed_pin(refl),
        in_alphabet(msg),
        one_per_position(msg),
        msg.contains(q),
    ensures
        !encipher(plug, r1, r2, r3, refl, msg).contains(q),
{
    lemma_encipher_image(plug, r1, r2, r3, refl, msg);
    if encipher(plug, r1, r2, r3, refl, msg).contains(q) {
        let c = choose|c: i64| #[trigger] msg.contains((q.0, c)) && q.1 == path(plug, r1, r2, r3, refl, q.0, c);
        assert(msg.contains((q.0, q.1)));
        assert(c == q.1);
        lemma_path_moves(plug, r1, r2, r3, refl, q.0, c);
    }
}

/// Encryption keeps the message's positions and its alphabet: each
/// enciphered character stands at a position of the message and lies in
/// `0..26`, and each position of the message gets an enciphered character.
pub proof fn law_encrypt_keeps_positions_and_alphabet(plug: Pairs, r1: Pairs, r2: Pairs, r3: Pairs, refl: Pairs, msg: Pairs)
    requires
        proper_machine(plug, r1, r2, r3, refl),
        in_alphabet(msg),
    ensures
        in_alphabet(encipher(plug, r1, r2, r3, refl, msg)),
        forall|q: (i64, i64)| #[trigger] encipher(plug, r1, r2, r3, refl, msg).contains(q)
            ==> exists|c: i64| #[trigger] msg.contains((q.0, c)),
        forall|m: (i64, i64)| #[trigger] msg.contains(m)
            ==> exists|c: i64| #[trigger] encipher(plug, r1, r2, r3, refl, msg).contains((m.0, c)),
{
    let pf = |p: i64, c: i64| path(plug, r1, r2, r3, refl, p, c);
    lemma_encipher_image(plug, r1, r2, r3, refl, msg);
    let out = encipher(plug, r1, r2, r3, refl, msg);
    assert forall|q: (i64, i64)| #[trigger] out.contains(q) implies 0 <= q.1 < 26 && exists|c: i64| #[trigger] msg.contains((q.0, c)) by {
        let c = choose|c: i64| #[trigger] msg.contains((q.0, c)) && q.1 == pf(q.0, c);
        assert(0 <= c < 26);
        lemma_path_involution(plug, r1, r2, r3, refl, q.0, c);
    }
    assert forall|m: (i64, i64)| #[trigger] msg.contains(m) implies exists|c: i64| #[trigger] out.contains((m.0, c)) by {
        assert(msg.contains((m.0, m.1)));
        let q = (m.0, pf(m.0, m.1));
        assert(msg.contains((q.0, m.1)) && q.1 == pf(q.0, m.1));
        assert(image(msg, pf).contains(q));
        assert(out.contains(q));
    }
}

} // verus!
