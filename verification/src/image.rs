//! Images as relations: one tuple `(b, g, r, x, y)` per pixel, all
//! integers, so that relational operators can process pictures.
use vstd::prelude::*;
use vstd::arithmetic::div_mod::{lemma_fundamental_div_mod, lemma_fundamental_div_mod_converse};
use crate::exporter::{picked, sorted_tuples, tuple_order};
use crate::graph::{push_unique, views, Key};
use crate::relation::{copy_heading, fits_heading, sorted_names, type_of, Attribute, Relation, Row, ScalarType, ScalarValue, ValueView};
use crate::text::lex_less;

verus! {

broadcast use vstd::seq_lib::group_seq_properties;

/// The largest number of pixels that `load` and `save` handle.
pub const MAX_PIXELS: usize = 10_000_000;

/// The heading of an image: `b`, `g`, `r`, `x`, `y`, all integers, in
/// name order.
pub open spec fn image_attrs() -> Seq<(Seq<char>, ScalarType)> {
    seq![
        (seq!['b'], ScalarType::Int),
        (seq!['g'], ScalarType::Int),
        (seq!['r'], ScalarType::Int),
        (seq!['x'], ScalarType::Int),
        (seq!['y'], ScalarType::Int),
    ]
}

/// An integer value.
pub open spec fn int_v(i: int) -> ValueView {
    (0u8, i as i64, false, Seq::empty(), Seq::empty())
}

/// The position in a flat RGB buffer of pixel `(x, y)` of an image `w`
/// pixels wide.
pub open spec fn pixel_index(x: int, y: int, w: int) -> int {
    (y * w + x) * 3
}

/// The tuple of pixel `(x, y)` read from a flat RGB buffer.
pub open spec fn pixel_row(data: Seq<u8>, x: int, y: int, w: int) -> Seq<ValueView> {
    let i = pixel_index(x, y, w);
    seq![int_v(data[i + 2] as int), int_v(data[i + 1] as int), int_v(data[i] as int), int_v(x), int_v(y)]
}

/// The pixels of a `w` by `h` buffer that it holds completely, before row
/// `y0`, or in row `y0` before column `x0`.
pub open spec fn loaded_upto(data: Seq<u8>, w: int, h: int, x0: int, y0: int) -> Set<Seq<ValueView>> {
    Set::new(|t: Seq<ValueView>| exists|x: int, y: int|
        0 <= x < w && 0 <= y < h && (y < y0 || (y == y0 && x < x0))
        && pixel_index(x, y, w) + 2 < data.len() && t == #[trigger] pixel_row(data, x, y, w))
}

/// The pixels that a flat RGB buffer of `w` by `h` pixels holds: every
/// pixel whose three bytes lie in the buffer; none when the image has more
/// than `MAX_PIXELS` pixels.
pub open spec fn loaded(data: Seq<u8>, w: int, h: int) -> Set<Seq<ValueView>> {
    if w * h > MAX_PIXELS {
        Set::empty()
    } else {
        loaded_upto(data, w, h, 0, h)
    }
}

/// The empty image relation.
pub fn image_relation() -> (r: Relation)
    ensures
        r.wf(),
        r.tuples@.len() == 0,
        crate::graph::views(r.heading@) == image_attrs(),
{
    let heading = vec![
        Attribute { name: "b".to_owned(), ty: ScalarType::Int },
        Attribute { name: "g".to_owned(), ty: ScalarType::Int },
        Attribute { name: "r".to_owned(), ty: ScalarType::Int },
        Attribute { name: "x".to_owned(), ty: ScalarType::Int },
        Attribute { name: "y".to_owned(), ty: ScalarType::Int },
    ];
    proof {
        reveal_strlit("b");
        reveal_strlit("g");
        reveal_strlit("r");
        reveal_strlit("x");
        reveal_strlit("y");
        assert(heading@[0].name@ =~= seq!['b']);
        assert(heading@[1].name@ =~= seq!['g']);
        assert(heading@[2].name@ =~= seq!['r']);
        assert(heading@[3].name@ =~= seq!['x']);
        assert(heading@[4].name@ =~= seq!['y']);
        assert forall|i: int, j: int| 0 <= i < j < heading@.len() implies lex_less((#[trigger] heading@[i]).name@, (#[trigger] heading@[j]).name@) by {
            assert(heading@[i].name@.len() == 1 && heading@[j].name@.len() == 1);
        }
        assert(crate::graph::views(heading@) =~= image_attrs());
    }
    Relation::new(heading)
}

/// An image of `width` by `height` pixels from a flat RGB buffer (`r`,
/// `g`, `b` for each pixel, row by row): one tuple per pixel that the
/// buffer holds completely.
pub fn load(width: usize, height: usize, data: &Vec<u8>) -> (r: Relation)
    ensures
        r.wf(),
        crate::graph::views(r.heading@) == image_attrs(),
        r.tuple_set() == loaded(data@, width as int, height as int),
{
    let mut relation = image_relation();
    let too_big = match width.checked_mul(height) {
        Some(p) => p > MAX_PIXELS,
        None => true,
    };
    if too_big {
        assert(relation.tuple_set() =~= Set::<Seq<ValueView>>::empty());
        return relation;
    }
    let ghost w = width as int;
    let ghost h = height as int;
    assert(relation.tuple_set() =~= loaded_upto(data@, w, h, 0, 0));
    let mut y: usize = 0;
    while y < height
        invariant
            w == width,
            h == height,
            w * h <= MAX_PIXELS,
            y <= height,
            relation.wf(),
            crate::graph::views(relation.heading@) == image_attrs(),
            relation.tuple_set() == loaded_upto(data@, w, h, 0, y as int),
        decreases height - y,
    {
        assert(loaded_upto(data@, w, h, 0, y as int) =~= loaded_upto(data@, w, h, w, y as int - 1)) by {
            assert forall|t: Seq<ValueView>| loaded_upto(data@, w, h, 0, y as int).contains(t) implies loaded_upto(data@, w, h, w, y as int - 1).contains(t) by {
                let (px, py) = choose|x: int, y1: int|
                    0 <= x < w && 0 <= y1 < h && (y1 < y || (y1 == y && x < 0))
                    && pixel_index(x, y1, w) + 2 < data@.len() && t == #[trigger] pixel_row(data@, x, y1, w);
                assert(t == pixel_row(data@, px, py, w));
            }
            assert forall|t: Seq<ValueView>| loaded_upto(data@, w, h, w, y as int - 1).contains(t) implies loaded_upto(data@, w, h, 0, y as int).contains(t) by {
                let (px, py) = choose|x: int, y1: int|
                    0 <= x < w && 0 <= y1 < h && (y1 < y - 1 || (y1 == y - 1 && x < w))
                    && pixel_index(x, y1, w) + 2 < data@.len() && t == #[trigger] pixel_row(data@, x, y1, w);
                assert(t == pixel_row(data@, px, py, w));
            }
        }
        let mut x: usize = 0;
        while x < width
            invariant
                w == width,
                h == height,
                w * h <= MAX_PIXELS,
                y < height,
                x <= width,
                relation.wf(),
                crate::graph::views(relation.heading@) == image_attrs(),
                relation.tuple_set() == loaded_upto(data@, w, h, x as int, y as int),
            decreases width - x,
        {
            assert(y * w + x < w * h) by (nonlinear_arith)
                requires
                    0 <= x < w,
                    0 <= y < h,
            {
                assert(y * w + x < y * w + w);
                assert(y * w + w == (y + 1) * w);
                assert((y + 1) * w <= h * w);
            }
            let idx = (y * width + x) * 3;
            let ghost before = relation.tuple_set();
            if idx + 2 < data.len() {
                let row = Row {
                    values: vec![
                        ScalarValue::Int(data[idx + 2] as i64),
                        ScalarValue::Int(data[idx + 1] as i64),
                        ScalarValue::Int(data[idx] as i64),
                        ScalarValue::Int(x as i64),
                        ScalarValue::Int(y as i64),
                    ],
                };
                assert(row@ =~= pixel_row(data@, x as int, y as int, w));
                proof {
                    assert(crate::graph::views(relation.heading@).len() == relation.heading@.len());
                    assert(relation.heading@.len() == 5);
                    assert forall|i: int| 0 <= i < relation.heading@.len() implies type_of(#[trigger] row@[i]) == relation.heading@[i].ty by {
                        assert(crate::graph::views(relation.heading@)[i] == image_attrs()[i]);
                    }
                }
                relation.insert(row);
                assert(relation.tuple_set() =~= loaded_upto(data@, w, h, x + 1, y as int)) by {
                    assert forall|t: Seq<ValueView>| loaded_upto(data@, w, h, x + 1, y as int).contains(t) implies relation.tuple_set().contains(t) by {
                        let (px, py) = choose|x1: int, y1: int|
                            0 <= x1 < w && 0 <= y1 < h && (y1 < y || (y1 == y && x1 < x + 1))
                            && pixel_index(x1, y1, w) + 2 < data@.len() && t == #[trigger] pixel_row(data@, x1, y1, w);
                        if !(py == y && px == x) {
                            assert(loaded_upto(data@, w, h, x as int, y as int).contains(t));
                        }
                    }
                    assert forall|t: Seq<ValueView>| relation.tuple_set().contains(t) implies loaded_upto(data@, w, h, x + 1, y as int).contains(t) by {
                        if t != pixel_row(data@, x as int, y as int, w) {
                            assert(before.contains(t));
                            let (px, py) = choose|x1: int, y1: int|
                                0 <= x1 < w && 0 <= y1 < h && (y1 < y || (y1 == y && x1 < x))
                                && pixel_index(x1, y1, w) + 2 < data@.len() && t == #[trigger] pixel_row(data@, x1, y1, w);
                            assert(t == pixel_row(data@, px, py, w));
                        }
                    }
                }
            } else {
                assert(relation.tuple_set() =~= loaded_upto(data@, w, h, x + 1, y as int)) by {
                    assert forall|t: Seq<ValueView>| loaded_upto(data@, w, h, x + 1, y as int).contains(t) implies relation.tuple_set().contains(t) by {
                        let (px, py) = choose|x1: int, y1: int|
                            0 <= x1 < w && 0 <= y1 < h && (y1 < y || (y1 == y && x1 < x + 1))
                            && pixel_index(x1, y1, w) + 2 < data@.len() && t == #[trigger] pixel_row(data@, x1, y1, w);
                        assert(!(py == y && px == x));
                        assert(loaded_upto(data@, w, h, x as int, y as int).contains(t));
                    }
                    assert forall|t: Seq<ValueView>| relation.tuple_set().contains(t) implies loaded_upto(data@, w, h, x + 1, y as int).contains(t) by {
                        let (px, py) = choose|x1: int, y1: int|
                            0 <= x1 < w && 0 <= y1 < h && (y1 < y || (y1 == y && x1 < x))
                            && pixel_index(x1, y1, w) + 2 < data@.len() && t == #[trigger] pixel_row(data@, x1, y1, w);
                        assert(t == pixel_row(data@, px, py, w));
                    }
                }
            }
            x = x + 1;
        }
        y = y + 1;
    }
    relation
}

/// The values at position `k` of the tuples, as integers.
pub open spec fn coords(rows: Seq<Seq<ValueView>>, k: int) -> Seq<int> {
    rows.map_values(|t: Seq<ValueView>| t[k].1 as int)
}

/// The least of a non-empty sequence.
pub open spec fn seq_min(s: Seq<int>) -> int
    decreases s.len(),
{
    if s.len() <= 1 {
        s[0]
    } else if s.last() < seq_min(s.drop_last()) {
        s.last()
    } else {
        seq_min(s.drop_last())
    }
}

/// The greatest of a non-empty sequence.
pub open spec fn seq_max(s: Seq<int>) -> int
    decreases s.len(),
{
    if s.len() <= 1 {
        s[0]
    } else if s.last() > seq_max(s.drop_last()) {
        s.last()
    } else {
        seq_max(s.drop_last())
    }
}

/// Every element lies between the least and the greatest.
proof fn lemma_min_max(s: Seq<int>)
    requires
        s.len() > 0,
    ensures
        forall|i: int| 0 <= i < s.len() ==> seq_min(s) <= #[trigger] s[i] <= seq_max(s),
    decreases s.len(),
{
    if s.len() > 1 {
        lemma_min_max(s.drop_last());
        assert forall|i: int| 0 <= i < s.len() implies seq_min(s) <= #[trigger] s[i] <= seq_max(s) by {
            if i < s.len() - 1 {
                assert(s.drop_last()[i] == s[i]);
            }
        }
    }
}

/// A colour value clamped to a byte.
pub open spec fn clamp_byte(v: int) -> u8 {
    if v < 0 {
        0
    } else if v > 255 {
        255
    } else {
        v as u8
    }
}

/// The last of the first `k` tuples at pixel `(x, y)`, or -1.
pub open spec fn last_at(rows: Seq<Seq<ValueView>>, x: int, y: int, k: int) -> int
    decreases k,
{
    if k <= 0 {
        -1
    } else if rows[k - 1][3].1 == x && rows[k - 1][4].1 == y {
        k - 1
    } else {
        last_at(rows, x, y, k - 1)
    }
}

/// Byte `i` of the buffer that the first `k` tuples give, for an image
/// whose corner is `(mx, my)` and width `w`: the channel `i % 3` (red,
/// green, blue) of the last of them at the pixel, clamped; 0 where none is.
pub open spec fn saved_byte(rows: Seq<Seq<ValueView>>, mx: int, my: int, w: int, i: int, k: int) -> u8 {
    let p = i / 3;
    let j = last_at(rows, mx + p % w, my + p / w, k);
    if j < 0 {
        0
    } else {
        clamp_byte(rows[j][2 - i % 3].1 as int)
    }
}

/// The width, height and flat RGB buffer of the image that the tuples,
/// in the given order, make: the box from the least to the greatest
/// coordinates, each pixel taken from the last tuple at it; an empty image
/// when there is no tuple or the box has more than `MAX_PIXELS` pixels.
pub open spec fn saved(rows: Seq<Seq<ValueView>>) -> (int, int, Seq<u8>) {
    if rows.len() == 0 {
        (0, 0, Seq::empty())
    } else {
        let mx = seq_min(coords(rows, 3));
        let my = seq_min(coords(rows, 4));
        let w = seq_max(coords(rows, 3)) - mx + 1;
        let h = seq_max(coords(rows, 4)) - my + 1;
        if w * h > MAX_PIXELS {
            (0, 0, Seq::empty())
        } else {
            (w, h, Seq::new((w * h * 3) as nat, |i: int| saved_byte(rows, mx, my, w, i, rows.len() as int)))
        }
    }
}

/// The position of pixel `(px, py)`'s channel `c` decodes back to them.
proof fn lemma_decode(px: int, py: int, c: int, w: int)
    requires
        0 <= px < w,
        0 <= py,
        0 <= c < 3,
    ensures
        ((py * w + px) * 3 + c) / 3 == py * w + px,
        ((py * w + px) * 3 + c) % 3 == c,
        (py * w + px) % w == px,
        (py * w + px) / w == py,
{
    lemma_fundamental_div_mod_converse((py * w + px) * 3 + c, 3, py * w + px, c);
    lemma_fundamental_div_mod_converse(py * w + px, w, py, px);
}

/// A position that decodes to pixel `(px, py)` is one of its three bytes.
proof fn lemma_encode(i: int, px: int, py: int, w: int)
    requires
        0 <= i,
        0 < w,
        (i / 3) % w == px,
        (i / 3) / w == py,
    ensures
        (py * w + px) * 3 <= i < (py * w + px) * 3 + 3,
{
    lemma_fundamental_div_mod(i, 3);
    lemma_fundamental_div_mod(i / 3, w);
    assert(i / 3 == w * py + px);
    assert(0 <= i % 3 < 3);
    assert(py * w == w * py) by (nonlinear_arith);
}

/// The least and the greatest of a non-empty sequence are among its
/// elements.
proof fn lemma_min_max_attained(s: Seq<int>)
    requires
        s.len() > 0,
    ensures
        exists|i: int| 0 <= i < s.len() && s[i] == seq_min(s),
        exists|i: int| 0 <= i < s.len() && s[i] == seq_max(s),
    decreases s.len(),
{
    if s.len() > 1 {
        lemma_min_max_attained(s.drop_last());
        let a = choose|i: int| 0 <= i < s.drop_last().len() && s.drop_last()[i] == seq_min(s.drop_last());
        let b = choose|i: int| 0 <= i < s.drop_last().len() && s.drop_last()[i] == seq_max(s.drop_last());
        assert(s[a] == s.drop_last()[a]);
        assert(s[b] == s.drop_last()[b]);
        assert(s[s.len() - 1] == s.last());
    } else {
        assert(s[0] == seq_min(s));
        assert(s[0] == seq_max(s));
    }
}

/// `last_at` finds the last of the first `k` tuples at the pixel, if one is.
proof fn lemma_last_at(rows: Seq<Seq<ValueView>>, x: int, y: int, k: int)
    requires
        0 <= k <= rows.len(),
    ensures
        -1 <= last_at(rows, x, y, k) < k,
        last_at(rows, x, y, k) >= 0 ==> rows[last_at(rows, x, y, k)][3].1 == x && rows[last_at(rows, x, y, k)][4].1 == y,
        (exists|m: int| 0 <= m < k && (#[trigger] rows[m])[3].1 == x && rows[m][4].1 == y) ==> last_at(rows, x, y, k) >= 0,
    decreases k,
{
    if k > 0 {
        lemma_last_at(rows, x, y, k - 1);
        if exists|m: int| 0 <= m < k && (#[trigger] rows[m])[3].1 == x && rows[m][4].1 == y {
            let m = choose|m: int| 0 <= m < k && (#[trigger] rows[m])[3].1 == x && rows[m][4].1 == y;
            if m < k - 1 {
                assert(exists|m2: int| 0 <= m2 < k - 1 && (#[trigger] rows[m2])[3].1 == x && rows[m2][4].1 == y);
            }
        }
    }
}

/// Saving a loaded image gives it back: for a buffer of exactly `w` by `h`
/// pixels, the tuples that loading makes, listed in any order, save to the
/// same width, height and buffer.
#[verifier::rlimit(60)]
#[verifier::spinoff_prover]
pub proof fn law_save_after_load(data: Seq<u8>, w: int, h: int, rows: Seq<Seq<ValueView>>)
    requires
        0 < w,
        0 < h,
        w * h <= MAX_PIXELS,
        data.len() == w * h * 3,
        rows.to_set() == loaded(data, w, h),
    ensures
        saved(rows) == (w, h, data),
{
    assert(w <= MAX_PIXELS && h <= MAX_PIXELS) by (nonlinear_arith)
        requires 0 < w, 0 < h, w * h <= MAX_PIXELS;
    // Every tuple is the tuple of a pixel of the image.
    assert forall|k: int| 0 <= k < rows.len() implies exists|x: int, y: int|
        0 <= x < w && 0 <= y < h && (#[trigger] rows[k]) == #[trigger] pixel_row(data, x, y, w) by {
        assert(rows.to_set().contains(rows[k]));
    }
    // Every pixel has its tuple.
    assert forall|x: int, y: int| 0 <= x < w && 0 <= y < h implies rows.contains(#[trigger] pixel_row(data, x, y, w)) by {
        assert(y * w + x < w * h) by (nonlinear_arith)
            requires 0 <= x < w, 0 <= y < h;
        assert(pixel_index(x, y, w) + 2 < data.len());
        assert(loaded(data, w, h).contains(pixel_row(data, x, y, w)));
        assert(rows.to_set().contains(pixel_row(data, x, y, w)));
    }
    assert(rows.contains(pixel_row(data, 0, 0, w)));
    let xs = coords(rows, 3);
    let ys = coords(rows, 4);
    assert forall|k: int| 0 <= k < rows.len() implies 0 <= #[trigger] xs[k] < w && 0 <= ys[k] < h by {
        let (x, y) = choose|x: int, y: int| 0 <= x < w && 0 <= y < h && rows[k] == #[trigger] pixel_row(data, x, y, w);
        assert(xs[k] == x && ys[k] == y);
    }
    lemma_min_max(xs);
    lemma_min_max(ys);
    lemma_min_max_attained(xs);
    lemma_min_max_attained(ys);
    let k00 = choose|k: int| 0 <= k < rows.len() && rows[k] == pixel_row(data, 0, 0, w);
    assert(xs[k00] == 0 && ys[k00] == 0);
    assert(rows.contains(pixel_row(data, w - 1, h - 1, w)));
    let kmax = choose|k: int| 0 <= k < rows.len() && rows[k] == pixel_row(data, w - 1, h - 1, w);
    assert(xs[kmax] == w - 1 && ys[kmax] == h - 1);
    assert(seq_min(xs) == 0 && seq_min(ys) == 0);
    assert(seq_max(xs) == w - 1 && seq_max(ys) == h - 1);
    let n = rows.len() as int;
    let out = Seq::new((w * h * 3) as nat, |i: int| saved_byte(rows, 0, 0, w, i, n));
    assert forall|i: int| 0 <= i < data.len() implies out[i] == data[i] by {
        let p = i / 3;
        let c = i % 3;
        let x = p % w;
        let y = p / w;
        assert(0 <= p < w * h);
        assert(0 <= x < w);
        assert(0 <= y < h) by {
            vstd::arithmetic::div_mod::lemma_div_pos_is_pos(p, w);
            lemma_fundamental_div_mod(p, w);
            assert(y < h) by (nonlinear_arith)
                requires p == w * y + x, 0 <= x, p < w * h, w > 0;
        }
        lemma_encode(i, x, y, w);
        assert(0 + p % w == x && 0 + p / w == y);
        assert(rows.contains(pixel_row(data, x, y, w)));
        let m = choose|m: int| 0 <= m < rows.len() && rows[m] == pixel_row(data, x, y, w);
        assert(rows[m][3].1 == x && rows[m][4].1 == y);
        lemma_last_at(rows, x, y, n);
        let j = last_at(rows, x, y, n);
        assert(j >= 0);
        let (x2, y2) = choose|x2: int, y2: int| 0 <= x2 < w && 0 <= y2 < h && rows[j] == #[trigger] pixel_row(data, x2, y2, w);
        assert(x2 == x && y2 == y);
        assert(pixel_index(x, y, w) + c == i);
        assert(rows[j][2 - c].1 as int == data[i] as int);
    }
    assert(out =~= data);
}

/// Loading a buffer of at least `w` by `h` pixels gives one tuple per
/// pixel: `w * h` tuples, so the relation's cardinality is `w * h`.
pub proof fn law_load_cardinality(data: Seq<u8>, w: int, h: int, r: Relation)
    requires
        0 <= w,
        0 <= h,
        w * h <= MAX_PIXELS,
        data.len() >= w * h * 3,
        r.wf(),
        r.tuple_set() == loaded(data, w, h),
    ensures
        r.tuples@.len() == w * h,
{
    let n = w * h;
    if w == 0 || h == 0 {
        assert(n == 0) by (nonlinear_arith)
            requires n == w * h, w == 0 || h == 0;
        assert(loaded(data, w, h) =~= Set::<Seq<ValueView>>::empty());
        if r.tuples@.len() > 0 {
            assert(views(r.tuples@)[0] == r.tuples@[0]@);
            assert(r.tuple_set().contains(r.tuples@[0]@));
        }
        return;
    }
    let px = Seq::new(n as nat, |p: int| pixel_row(data, p % w, p / w, w));
    assert forall|p: int| 0 <= p < n implies 0 <= #[trigger] (p % w) < w && 0 <= p / w < h && p / w * w + p % w == p by {
        lemma_fundamental_div_mod(p, w);
        vstd::arithmetic::div_mod::lemma_div_pos_is_pos(p, w);
        assert(p / w < h) by (nonlinear_arith)
            requires p == w * (p / w) + p % w, 0 <= p % w, p < w * h, w > 0;
        assert(p / w * w == w * (p / w)) by (nonlinear_arith);
    }
    assert(px.no_duplicates()) by {
        assert forall|a: int, b: int| 0 <= a < px.len() && 0 <= b < px.len() && a != b implies px[a] != px[b] by {
            assert(px[a][3] == int_v(a % w) && px[a][4] == int_v(a / w));
            assert(px[b][3] == int_v(b % w) && px[b][4] == int_v(b / w));
            assert(a % w < w && b % w < w && a / w < h && b / w < h);
            assert(a / w * w + a % w == a);
            assert(b / w * w + b % w == b);
            assert(w * h <= MAX_PIXELS);
            assert((a % w) as i64 as int == a % w);
            assert((b % w) as i64 as int == b % w);
            assert((a / w) as i64 as int == a / w);
            assert((b / w) as i64 as int == b / w);
        }
    }
    assert forall|t: Seq<ValueView>| px.to_set().contains(t) <==> loaded(data, w, h).contains(t) by {
        if px.to_set().contains(t) {
            let p = choose|p: int| 0 <= p < px.len() && px[p] == t;
            let (x, y) = (p % w, p / w);
            assert(pixel_index(x, y, w) + 2 < data.len()) by (nonlinear_arith)
                requires pixel_index(x, y, w) == (y * w + x) * 3, y * w + x == p, p < w * h, data.len() >= w * h * 3;
            assert(t == pixel_row(data, x, y, w));
        }
        if loaded(data, w, h).contains(t) {
            let (x, y) = choose|x: int, y: int| 0 <= x < w && 0 <= y < h && (y < h || (y == h && x < 0))
                && pixel_index(x, y, w) + 2 < data.len() && t == #[trigger] pixel_row(data, x, y, w);
            let p = y * w + x;
            assert(0 <= p < n) by (nonlinear_arith)
                requires 0 <= x < w, 0 <= y < h, p == y * w + x, n == w * h, w > 0, h > 0;
            lemma_fundamental_div_mod_converse(p, w, y, x);
            assert(px[p] == t);
        }
    }
    assert(px.to_set() =~= loaded(data, w, h));
    px.unique_seq_to_set();
    views(r.tuples@).unique_seq_to_set();
}

/// The integer of a value, 0 for others.
fn int_of(v: &ScalarValue) -> (i: i64)
    ensures
        i == v@.1,
{
    match v {
        ScalarValue::Int(x) => *x,
        _ => 0,
    }
}

/// A colour clamped to a byte.
fn clamp_to_byte(v: i64) -> (b: u8)
    ensures
        b == clamp_byte(v as int),
{
    if v < 0 {
        0
    } else if v > 255 {
        255
    } else {
        v as u8
    }
}

/// The width, height and flat RGB buffer of an image relation (see
/// `saved`).
pub fn save(relation: &Relation) -> (r: (usize, usize, Vec<u8>))
    requires
        relation.wf(),
        crate::graph::views(relation.heading@) == image_attrs(),
    ensures
        r.0 as int == saved(sorted_tuples(relation)).0,
        r.1 as int == saved(sorted_tuples(relation)).1,
        r.2@ == saved(sorted_tuples(relation)).2,
        sorted_tuples(relation).to_set() == relation.tuple_set(),
{
    let order = tuple_order(relation);
    let ghost rows = sorted_tuples(relation);
    if order.len() == 0 {
        return (0, 0, Vec::new());
    }
    proof {
        assert(crate::graph::views(relation.heading@).len() == relation.heading@.len());
        assert forall|m: int| 0 <= m < rows.len() implies (#[trigger] rows[m]).len() == 5 by {
            assert(rows[m] == relation.tuples@[order@[m] as int]@);
            assert(fits_heading(relation.heading@, relation.tuples@[order@[m] as int]));
        }
    }
    let first = &relation.tuples[order[0]];
    assert(first@ == rows[0]);
    let mut min_x: i64 = int_of(&first.values[3]);
    let mut max_x: i64 = min_x;
    let mut min_y: i64 = int_of(&first.values[4]);
    let mut max_y: i64 = min_y;
    let mut k: usize = 1;
    proof {
        assert(coords(rows, 3).take(1).len() == 1);
    }
    while k < order.len()
        invariant
            rows == picked(relation.tuples@, order@),
            order@.len() == relation.tuples@.len(),
            forall|m: int| 0 <= m < order@.len() ==> order@[m] < relation.tuples@.len(),
            forall|m: int| 0 <= m < rows.len() ==> (#[trigger] rows[m]).len() == 5,
            1 <= k <= order@.len(),
            min_x == seq_min(coords(rows, 3).take(k as int)),
            max_x == seq_max(coords(rows, 3).take(k as int)),
            min_y == seq_min(coords(rows, 4).take(k as int)),
            max_y == seq_max(coords(rows, 4).take(k as int)),
        decreases order@.len() - k,
    {
        let t = &relation.tuples[order[k]];
        assert(t@ == rows[k as int]);
        assert(t@.len() == t.values@.len());
        let x = int_of(&t.values[3]);
        let y = int_of(&t.values[4]);
        assert(coords(rows, 3).take(k + 1).drop_last() == coords(rows, 3).take(k as int));
        assert(coords(rows, 4).take(k + 1).drop_last() == coords(rows, 4).take(k as int));
        if x < min_x {
            min_x = x;
        }
        if x > max_x {
            max_x = x;
        }
        if y < min_y {
            min_y = y;
        }
        if y > max_y {
            max_y = y;
        }
        k = k + 1;
    }
    let ghost xs = coords(rows, 3);
    let ghost ys = coords(rows, 4);
    assert(xs.take(rows.len() as int) == xs);
    assert(ys.take(rows.len() as int) == ys);
    proof {
        lemma_min_max(xs);
        lemma_min_max(ys);
    }
    let wd: i128 = (max_x as i128) - (min_x as i128) + 1;
    let hd: i128 = (max_y as i128) - (min_y as i128) + 1;
    assert(min_x <= xs[0] <= max_x);
    assert(min_y <= ys[0] <= max_y);
    let too_big = if wd > MAX_PIXELS as i128 || hd > MAX_PIXELS as i128 {
        true
    } else {
        assert(wd * hd <= 100_000_000_000_000) by (nonlinear_arith)
            requires
                1 <= wd <= MAX_PIXELS,
                1 <= hd <= MAX_PIXELS,
        ;
        wd * hd > MAX_PIXELS as i128
    };
    if too_big {
        proof {
            if wd > MAX_PIXELS as i128 {
                assert(wd * hd > MAX_PIXELS) by (nonlinear_arith)
                    requires
                        wd > MAX_PIXELS,
                        hd >= 1,
                ;
            }
            if hd > MAX_PIXELS as i128 {
                assert(wd * hd > MAX_PIXELS) by (nonlinear_arith)
                    requires
                        hd > MAX_PIXELS,
                        wd >= 1,
                ;
            }
        }
        return (0, 0, Vec::new());
    }
    let w = wd as usize;
    let h = hd as usize;
    assert(w * h <= MAX_PIXELS);
    let n = w * h * 3;
    let mut data: Vec<u8> = Vec::new();
    let mut i: usize = 0;
    while i < n
        invariant
            i <= n,
            data@.len() == i,
            forall|m: int| 0 <= m < i ==> #[trigger] data@[m] == 0u8,
        decreases n - i,
    {
        data.push(0);
        i = i + 1;
    }
    let ghost mx = min_x as int;
    let ghost my = min_y as int;
    assert(data@ =~= Seq::new(n as nat, |i: int| saved_byte(rows, mx, my, w as int, i, 0)));
    let mut k: usize = 0;
    while k < order.len()
        invariant
            rows == picked(relation.tuples@, order@),
            order@.len() == relation.tuples@.len(),
            forall|m: int| 0 <= m < order@.len() ==> order@[m] < relation.tuples@.len(),
            forall|m: int| 0 <= m < rows.len() ==> (#[trigger] rows[m]).len() == 5,
            xs == coords(rows, 3),
            ys == coords(rows, 4),
            forall|m: int| 0 <= m < xs.len() ==> min_x <= #[trigger] xs[m] <= max_x,
            forall|m: int| 0 <= m < ys.len() ==> min_y <= #[trigger] ys[m] <= max_y,
            mx == min_x,
            my == min_y,
            w as int == max_x - min_x + 1,
            h as int == max_y - min_y + 1,
            w * h <= MAX_PIXELS,
            n == w * h * 3,
            k <= order@.len(),
            data@ == Seq::new(n as nat, |i: int| saved_byte(rows, mx, my, w as int, i, k as int)),
        decreases order@.len() - k,
    {
        let t = &relation.tuples[order[k]];
        assert(t@ == rows[k as int]);
        assert(t@.len() == t.values@.len());
        let x = int_of(&t.values[3]);
        let y = int_of(&t.values[4]);
        assert(xs[k as int] == x);
        assert(ys[k as int] == y);
        let px = (x as i128 - min_x as i128) as usize;
        let py = (y as i128 - min_y as i128) as usize;
        assert(py * w + px < w * h) by (nonlinear_arith)
            requires
                px < w,
                py < h,
        {
            assert(py * w + px < py * w + w);
            assert(py * w + w == (py + 1) * w);
            assert((py + 1) * w <= h * w);
        }
        let idx = (py * w + px) * 3;
        let cr = clamp_to_byte(int_of(&t.values[2]));
        let cg = clamp_to_byte(int_of(&t.values[1]));
        let cb = clamp_to_byte(int_of(&t.values[0]));
        let ghost before = data@;
        data.set(idx, cr);
        data.set(idx + 1, cg);
        data.set(idx + 2, cb);
        proof {
            let nw = Seq::new(n as nat, |i: int| saved_byte(rows, mx, my, w as int, i, k + 1));
            assert forall|i: int| 0 <= i < n implies #[trigger] data@[i] == nw[i] by {
                let p = i / 3;
                let qx = mx + p % (w as int);
                let qy = my + p / (w as int);
                if qx == x && qy == y {
                    lemma_encode(i, px as int, py as int, w as int);
                    lemma_decode(px as int, py as int, i - idx, w as int);
                    assert(last_at(rows, qx, qy, k + 1) == k);
                } else {
                    if idx <= i < idx + 3 {
                        lemma_decode(px as int, py as int, i - idx, w as int);
                    }
                    assert(last_at(rows, qx, qy, k + 1) == last_at(rows, qx, qy, k as int));
                    assert(data@[i] == before[i]);
                }
            }
            assert(data@ =~= nw);
        }
        k = k + 1;
    }
    (w, h, data)
}

/// A weight at an offset: the pixel at `(x, y)` contributes its colours
/// times `weight` to the pixel at `(x + dx, y + dy)`.
#[derive(Clone, Copy, Debug)]
pub struct KernelTap {
    /// Horizontal offset.
    pub dx: i64,
    /// Vertical offset.
    pub dy: i64,
    /// Weight of this tap.
    pub weight: i64,
}

/// What tuple `t` gives through tap `k` to channel `c` of pixel `(px, py)`.
pub open spec fn term(t: Seq<ValueView>, k: KernelTap, px: int, py: int, c: int) -> int {
    if t[3].1 + k.dx == px && t[4].1 + k.dy == py {
        t[c].1 * k.weight
    } else {
        0
    }
}

/// What tuple `t` gives through the first `m` taps.
pub open spec fn tuple_sum(t: Seq<ValueView>, taps: Seq<KernelTap>, px: int, py: int, c: int, m: int) -> int
    decreases m,
{
    if m <= 0 {
        0
    } else {
        tuple_sum(t, taps, px, py, c, m - 1) + term(t, taps[m - 1], px, py, c)
    }
}

/// What the first `n` tuples give through all taps.
pub open spec fn channel_sum(rows: Seq<Seq<ValueView>>, taps: Seq<KernelTap>, px: int, py: int, c: int, n: int) -> int
    decreases n,
{
    if n <= 0 {
        0
    } else {
        channel_sum(rows, taps, px, py, c, n - 1) + tuple_sum(rows[n - 1], taps, px, py, c, taps.len() as int)
    }
}

/// The sum of the first `m` weights.
pub open spec fn weight_sum(taps: Seq<KernelTap>, m: int) -> int
    decreases m,
{
    if m <= 0 {
        0
    } else {
        weight_sum(taps, m - 1) + taps[m - 1].weight
    }
}

/// Division rounding toward zero, as Rust divides integers.
pub open spec fn trunc_div(x: int, d: int) -> int {
    if x >= 0 && d > 0 {
        x / d
    } else if x < 0 && d < 0 {
        (-x) / (-d)
    } else if x < 0 {
        -((-x) / d)
    } else {
        -(x / (-d))
    }
}

/// The pixel `(px, py)` of the convolved image: each channel the weighted
/// sum divided by the total weight.
pub open spec fn convolved_row(rows: Seq<Seq<ValueView>>, taps: Seq<KernelTap>, px: int, py: int) -> Seq<ValueView> {
    let w = weight_sum(taps, taps.len() as int);
    let n = rows.len() as int;
    seq![
        int_v(trunc_div(channel_sum(rows, taps, px, py, 0, n), w)),
        int_v(trunc_div(channel_sum(rows, taps, px, py, 1, n), w)),
        int_v(trunc_div(channel_sum(rows, taps, px, py, 2, n), w)),
        int_v(px),
        int_v(py),
    ]
}

/// The convolved image: a pixel for every place that some tuple reaches
/// through some tap.
pub open spec fn convolved(rows: Seq<Seq<ValueView>>, taps: Seq<KernelTap>) -> Set<Seq<ValueView>> {
    Set::new(|t: Seq<ValueView>| exists|i: int, k: int|
        0 <= i < rows.len() && 0 <= k < taps.len()
        && t == #[trigger] convolved_row(rows, taps, rows[i][3].1 + taps[k].dx, rows[i][4].1 + taps[k].dy))
}

/// The arithmetic of the convolution stays within `i64`, as its
/// integer operations need: shifted coordinates, weighted colours, the
/// running total of weights and the results; and the contributions are
/// countable.
pub open spec fn kernel_fits(rows: Seq<Seq<ValueView>>, taps: Seq<KernelTap>) -> bool {
    &&& rows.len() * taps.len() <= usize::MAX
    &&& forall|m: int| 0 <= m <= taps.len() ==> i64::MIN <= #[trigger] weight_sum(taps, m) <= i64::MAX
    &&& forall|i: int, k: int| 0 <= i < rows.len() && 0 <= k < taps.len() ==> {
        &&& i64::MIN <= rows[i][3].1 + #[trigger] taps[k].dx <= i64::MAX
        &&& i64::MIN <= #[trigger] rows[i][4].1 + taps[k].dy <= i64::MAX
        &&& forall|c: int| 0 <= c < 3 ==> i64::MIN <= #[trigger] (rows[i][c].1 * taps[k].weight) <= i64::MAX
    }
    &&& forall|px: int, py: int, c: int| 0 <= c < 3 ==> i64::MIN <= #[trigger] channel_sum(rows, taps, px, py, c, rows.len() as int) <= i64::MAX
        && (weight_sum(taps, taps.len() as int) != 0 ==> i64::MIN <= trunc_div(
        channel_sum(rows, taps, px, py, c, rows.len() as int),
        weight_sum(taps, taps.len() as int),
    ) <= i64::MAX)
}

/// A copy of a relation.
pub fn copy_relation(r: &Relation) -> (c: Relation)
    requires
        r.wf(),
    ensures
        c.wf(),
        views(c.heading@) == views(r.heading@),
        views(c.tuples@) == views(r.tuples@),
{
    let heading = copy_heading(&r.heading);
    let mut tuples: Vec<Row> = Vec::new();
    let mut i: usize = 0;
    while i < r.tuples.len()
        invariant
            i <= r.tuples@.len(),
            views(tuples@) == views(r.tuples@).take(i as int),
        decreases r.tuples@.len() - i,
    {
        let ghost before = views(tuples@);
        tuples.push(r.tuples[i].duplicate());
        assert(views(tuples@) =~= before.push(r.tuples@[i as int]@));
        assert(views(tuples@) =~= views(r.tuples@).take(i + 1));
        i = i + 1;
    }
    assert(views(r.tuples@).take(r.tuples@.len() as int) =~= views(r.tuples@));
    let c = Relation { heading, tuples };
    proof {
        assert forall|i: int, j: int| 0 <= i < j < c.heading@.len() implies lex_less((#[trigger] c.heading@[i]).name@, (#[trigger] c.heading@[j]).name@) by {
            assert(views(c.heading@)[i] == views(r.heading@)[i]);
            assert(views(c.heading@)[j] == views(r.heading@)[j]);
        }
        assert forall|k: int| 0 <= k < c.tuples@.len() implies fits_heading(c.heading@, #[trigger] c.tuples@[k]) by {
            assert(views(c.tuples@)[k] == views(r.tuples@)[k]);
            assert(fits_heading(r.heading@, r.tuples@[k]));
            assert forall|a: int| 0 <= a < c.heading@.len() implies type_of(#[trigger] c.tuples@[k]@[a]) == c.heading@[a].ty by {
                assert(views(c.heading@)[a] == views(r.heading@)[a]);
            }
        }
    }
    c
}

/// The sum of the weights.
fn total_weight(kernel: &Vec<KernelTap>) -> (t: i64)
    requires
        forall|m: int| 0 <= m <= kernel@.len() ==> i64::MIN <= #[trigger] weight_sum(kernel@, m) <= i64::MAX,
    ensures
        t == weight_sum(kernel@, kernel@.len() as int),
{
    let mut t: i64 = 0;
    let mut k: usize = 0;
    while k < kernel.len()
        invariant
            k <= kernel@.len(),
            forall|m: int| 0 <= m <= kernel@.len() ==> i64::MIN <= #[trigger] weight_sum(kernel@, m) <= i64::MAX,
            t == weight_sum(kernel@, k as int),
        decreases kernel@.len() - k,
    {
        assert(i64::MIN <= weight_sum(kernel@, k + 1) <= i64::MAX);
        t = t + kernel[k].weight;
        k = k + 1;
    }
    t
}

/// The places that the tuples reach through the taps, each once.
fn targets_of(r: &Relation, kernel: &Vec<KernelTap>) -> (ts: Vec<(i64, i64)>)
    requires
        r.wf(),
        views(r.heading@) == image_attrs(),
        kernel_fits(views(r.tuples@), kernel@),
    ensures
        forall|q: (i64, i64)| views(ts@).contains(q) <==> exists|i: int, k: int|
            0 <= i < r.tuples@.len() && 0 <= k < kernel@.len()
            && q.0 == r.tuples@[i]@[3].1 + kernel@[k].dx && q.1 == #[trigger] (r.tuples@[i]@[4].1 + kernel@[k].dy),
{
    let ghost rows = views(r.tuples@);
    let mut ts: Vec<(i64, i64)> = Vec::new();
    let mut i: usize = 0;
    proof {
        assert(views(r.heading@).len() == r.heading@.len());
    }
    while i < r.tuples.len()
        invariant
            rows == views(r.tuples@),
            r.wf(),
            r.heading@.len() == 5,
            kernel_fits(rows, kernel@),
            i <= r.tuples@.len(),
            views(ts@).no_duplicates(),
            forall|q: (i64, i64)| views(ts@).contains(q) <==> exists|i1: int, k1: int|
                0 <= i1 < i && 0 <= k1 < kernel@.len()
                && q.0 == r.tuples@[i1]@[3].1 + kernel@[k1].dx && q.1 == #[trigger] (r.tuples@[i1]@[4].1 + kernel@[k1].dy),
        decreases r.tuples@.len() - i,
    {
        let t = &r.tuples[i];
        assert(fits_heading(r.heading@, *t));
        assert(t@.len() == t.values@.len());
        let x = int_of(&t.values[3]);
        let y = int_of(&t.values[4]);
        let mut k: usize = 0;
        while k < kernel.len()
            invariant
                rows == views(r.tuples@),
                kernel_fits(rows, kernel@),
                i < r.tuples@.len(),
                *t == r.tuples@[i as int],
                x == t@[3].1,
                y == t@[4].1,
                k <= kernel@.len(),
                views(ts@).no_duplicates(),
                forall|q: (i64, i64)| views(ts@).contains(q) <==> exists|i1: int, k1: int|
                    0 <= i1 < r.tuples@.len() && 0 <= k1 < kernel@.len() && (i1 < i || (i1 == i && k1 < k))
                    && q.0 == r.tuples@[i1]@[3].1 + kernel@[k1].dx && q.1 == #[trigger] (r.tuples@[i1]@[4].1 + kernel@[k1].dy),
            decreases kernel@.len() - k,
        {
            assert(rows[i as int] == t@);
            assert(i64::MIN <= rows[i as int][3].1 + kernel@[k as int].dx <= i64::MAX);
            assert(i64::MIN <= rows[i as int][4].1 + kernel@[k as int].dy <= i64::MAX);
            let q = (x + kernel[k].dx, y + kernel[k].dy);
            push_unique(&mut ts, q);
            assert forall|q2: (i64, i64)| views(ts@).contains(q2) <==> exists|i1: int, k1: int|
                0 <= i1 < r.tuples@.len() && 0 <= k1 < kernel@.len() && (i1 < i || (i1 == i && k1 < k + 1))
                && q2.0 == r.tuples@[i1]@[3].1 + kernel@[k1].dx && q2.1 == #[trigger] (r.tuples@[i1]@[4].1 + kernel@[k1].dy) by {
                if views(ts@).contains(q2) && q2 != q {
                    let (i1, k1) = choose|i1: int, k1: int|
                        0 <= i1 < r.tuples@.len() && 0 <= k1 < kernel@.len() && (i1 < i || (i1 == i && k1 < k))
                        && q2.0 == r.tuples@[i1]@[3].1 + kernel@[k1].dx && q2.1 == #[trigger] (r.tuples@[i1]@[4].1 + kernel@[k1].dy);
                }
                if q2 == q {
                    assert(q2.1 == r.tuples@[i as int]@[4].1 + kernel@[k as int].dy);
                }
            }
            k = k + 1;
        }
        assert forall|q2: (i64, i64)| views(ts@).contains(q2) <==> exists|i1: int, k1: int|
            0 <= i1 < i + 1 && 0 <= k1 < kernel@.len()
            && q2.0 == r.tuples@[i1]@[3].1 + kernel@[k1].dx && q2.1 == #[trigger] (r.tuples@[i1]@[4].1 + kernel@[k1].dy) by {
            if views(ts@).contains(q2) {
                let (i1, k1) = choose|i1: int, k1: int|
                    0 <= i1 < r.tuples@.len() && 0 <= k1 < kernel@.len() && (i1 < i || (i1 == i && k1 < kernel@.len()))
                    && q2.0 == r.tuples@[i1]@[3].1 + kernel@[k1].dx && q2.1 == #[trigger] (r.tuples@[i1]@[4].1 + kernel@[k1].dy);
            }
        }
        i = i + 1;
    }
    ts
}

/// The weighted sum of channel `c` at pixel `(px, py)`.
fn channel_sum_at(r: &Relation, kernel: &Vec<KernelTap>, px: i64, py: i64, c: usize) -> (s: i64)
    requires
        r.wf(),
        views(r.heading@) == image_attrs(),
        kernel_fits(views(r.tuples@), kernel@),
        c < 3,
    ensures
        s == channel_sum(views(r.tuples@), kernel@, px as int, py as int, c as int, r.tuples@.len() as int),
{
    let ghost rows = views(r.tuples@);
    let ghost m = kernel@.len() as int;
    let ghost big: int = 9223372036854775808;
    proof {
        assert(views(r.heading@).len() == r.heading@.len());
    }
    let mut acc: i128 = 0;
    let mut i: usize = 0;
    while i < r.tuples.len()
        invariant
            rows == views(r.tuples@),
            r.wf(),
            r.heading@.len() == 5,
            kernel_fits(rows, kernel@),
            m == kernel@.len(),
            big == 9223372036854775808,
            c < 3,
            i <= r.tuples@.len(),
            acc == channel_sum(rows, kernel@, px as int, py as int, c as int, i as int),
            -(i * m) * big <= acc <= (i * m) * big,
        decreases r.tuples@.len() - i,
    {
        let t = &r.tuples[i];
        assert(fits_heading(r.heading@, *t));
        assert(t@.len() == t.values@.len());
        assert(rows[i as int] == t@);
        let x = int_of(&t.values[3]);
        let y = int_of(&t.values[4]);
        let v = int_of(&t.values[c]);
        let mut k: usize = 0;
        while k < kernel.len()
            invariant
                rows == views(r.tuples@),
                kernel_fits(rows, kernel@),
                m == kernel@.len(),
                big == 9223372036854775808,
                c < 3,
                i < r.tuples@.len(),
                rows[i as int] == t@,
                x == t@[3].1,
                y == t@[4].1,
                v == t@[c as int].1,
                k <= m,
                acc == channel_sum(rows, kernel@, px as int, py as int, c as int, i as int)
                    + tuple_sum(t@, kernel@, px as int, py as int, c as int, k as int),
                -(i * m + k) * big <= acc <= (i * m + k) * big,
            decreases m - k,
        {
            let tap = kernel[k];
            assert(i64::MIN <= rows[i as int][3].1 + kernel@[k as int].dx <= i64::MAX);
            assert(i64::MIN <= rows[i as int][4].1 + kernel@[k as int].dy <= i64::MAX);
            assert(i64::MIN <= rows[i as int][c as int].1 * kernel@[k as int].weight <= i64::MAX);
            let term: i64 = if x + tap.dx == px && y + tap.dy == py {
                v * tap.weight
            } else {
                0
            };
            assert((i * m + k + 1) <= rows.len() * m) by (nonlinear_arith)
                requires
                    i < rows.len(),
                    k < m,
            {
                assert(i * m + k + 1 <= i * m + m);
                assert(i * m + m == (i + 1) * m);
                assert((i + 1) * m <= rows.len() * m);
            }
            assert((i * m + k + 1) * big == (i * m + k) * big + big) by (nonlinear_arith);
            assert((rows.len() * m) * big <= 18446744073709551615 * big) by (nonlinear_arith)
                requires
                    rows.len() * m <= 18446744073709551615,
                    big > 0,
            ;
            acc = acc + term as i128;
            k = k + 1;
        }
        assert((i * m + m) == (i + 1) * m) by (nonlinear_arith);
        i = i + 1;
    }
    acc as i64
}

/// The place `(px, py)` of the convolved image.
fn convolved_pixel(r: &Relation, kernel: &Vec<KernelTap>, w: i64, px: i64, py: i64) -> (row: Row)
    requires
        r.wf(),
        views(r.heading@) == image_attrs(),
        kernel_fits(views(r.tuples@), kernel@),
        w == weight_sum(kernel@, kernel@.len() as int),
        w != 0,
    ensures
        row@ == convolved_row(views(r.tuples@), kernel@, px as int, py as int),
{
    let mut values: Vec<ScalarValue> = Vec::new();
    let mut c: usize = 0;
    let ghost rows = views(r.tuples@);
    while c < 3
        invariant
            rows == views(r.tuples@),
            r.wf(),
            views(r.heading@) == image_attrs(),
            kernel_fits(rows, kernel@),
            w == weight_sum(kernel@, kernel@.len() as int),
            w != 0,
            c <= 3,
            values@.len() == c,
            forall|q: int| 0 <= q < c ==> (#[trigger] values@[q])@ == int_v(trunc_div(
                channel_sum(rows, kernel@, px as int, py as int, q, rows.len() as int),
                w as int,
            )),
        decreases 3 - c,
    {
        let s = channel_sum_at(r, kernel, px, py, c);
        assert(i64::MIN <= channel_sum(rows, kernel@, px as int, py as int, c as int, rows.len() as int) <= i64::MAX);
        let q = match s.checked_div(w) {
            Some(q) => q,
            None => {
                assert(false);
                0
            },
        };
        assert(q == trunc_div(s as int, w as int));
        values.push(ScalarValue::Int(q));
        c = c + 1;
    }
    values.push(ScalarValue::Int(px));
    values.push(ScalarValue::Int(py));
    let row = Row { values };
    assert(row@ =~= convolved_row(rows, kernel@, px as int, py as int));
    row
}

/// Convolves an image with a kernel: every pixel spreads its colours,
/// weighted, to the places its taps reach; each place's sums are divided by
/// the total weight. With no tap, or taps whose weights sum to 0, the image
/// is returned as it is.
pub fn apply_kernel(relation: &Relation, kernel: &Vec<KernelTap>) -> (r: Relation)
    requires
        relation.wf(),
        views(relation.heading@) == image_attrs(),
        kernel_fits(views(relation.tuples@), kernel@),
    ensures
        r.wf(),
        views(r.heading@) == image_attrs(),
        kernel@.len() == 0 || weight_sum(kernel@, kernel@.len() as int) == 0 ==> r.tuple_set() == relation.tuple_set(),
        kernel@.len() > 0 && weight_sum(kernel@, kernel@.len() as int) != 0 ==> r.tuple_set() == convolved(
            views(relation.tuples@),
            kernel@,
        ),
{
    if kernel.len() == 0 {
        let c = copy_relation(relation);
        assert(c.tuple_set() == relation.tuple_set());
        return c;
    }
    let w = total_weight(kernel);
    if w == 0 {
        let c = copy_relation(relation);
        assert(c.tuple_set() == relation.tuple_set());
        return c;
    }
    let ghost rows = views(relation.tuples@);
    let targets = targets_of(relation, kernel);
    let mut result = image_relation();
    assert(result.tuple_set() =~= Set::<Seq<ValueView>>::empty());
    let mut q: usize = 0;
    while q < targets.len()
        invariant
            rows == views(relation.tuples@),
            relation.wf(),
            views(relation.heading@) == image_attrs(),
            kernel_fits(rows, kernel@),
            w == weight_sum(kernel@, kernel@.len() as int),
            w != 0,
            result.wf(),
            views(result.heading@) == image_attrs(),
            q <= targets@.len(),
            result.tuple_set() == Set::new(|t: Seq<ValueView>| exists|m: int| 0 <= m < q
                && t == convolved_row(rows, kernel@, (#[trigger] targets@[m]).0 as int, targets@[m].1 as int)),
        decreases targets@.len() - q,
    {
        let (px, py) = targets[q];
        let row = convolved_pixel(relation, kernel, w, px, py);
        proof {
            assert(views(result.heading@).len() == result.heading@.len());
            assert forall|a: int| 0 <= a < result.heading@.len() implies type_of(#[trigger] row@[a]) == result.heading@[a].ty by {
                assert(views(result.heading@)[a] == image_attrs()[a]);
            }
        }
        let ghost before = result.tuple_set();
        result.insert(row);
        assert(result.tuple_set() =~= Set::new(|t: Seq<ValueView>| exists|m: int| 0 <= m < q + 1
            && t == convolved_row(rows, kernel@, (#[trigger] targets@[m]).0 as int, targets@[m].1 as int))) by {
            assert forall|t: Seq<ValueView>| result.tuple_set().contains(t) implies exists|m: int| 0 <= m < q + 1
                && t == convolved_row(rows, kernel@, (#[trigger] targets@[m]).0 as int, targets@[m].1 as int) by {
                if t != row@ {
                    assert(before.contains(t));
                }
            }
        }
        q = q + 1;
    }
    assert(result.tuple_set() =~= convolved(rows, kernel@)) by {
        assert forall|t: Seq<ValueView>| result.tuple_set().contains(t) implies convolved(rows, kernel@).contains(t) by {
            let m = choose|m: int| 0 <= m < targets@.len()
                && t == convolved_row(rows, kernel@, (#[trigger] targets@[m]).0 as int, targets@[m].1 as int);
            assert(views(targets@)[m] == targets@[m]);
            assert(views(targets@).contains(targets@[m]));
            let (i, k) = choose|i: int, k: int|
                0 <= i < relation.tuples@.len() && 0 <= k < kernel@.len()
                && targets@[m].0 == relation.tuples@[i]@[3].1 + kernel@[k].dx
                && targets@[m].1 == #[trigger] (relation.tuples@[i]@[4].1 + kernel@[k].dy);
            assert(rows[i] == relation.tuples@[i]@);
        }
        assert forall|t: Seq<ValueView>| convolved(rows, kernel@).contains(t) implies result.tuple_set().contains(t) by {
            let (i, k) = choose|i: int, k: int|
                0 <= i < rows.len() && 0 <= k < kernel@.len()
                && t == #[trigger] convolved_row(rows, kernel@, rows[i][3].1 + kernel@[k].dx, rows[i][4].1 + kernel@[k].dy);
            assert(rows[i] == relation.tuples@[i]@);
            assert(i64::MIN <= rows[i][3].1 + kernel@[k].dx <= i64::MAX);
            assert(i64::MIN <= rows[i][4].1 + kernel@[k].dy <= i64::MAX);
            let qq: (i64, i64) = ((rows[i][3].1 + kernel@[k].dx) as i64, (rows[i][4].1 + kernel@[k].dy) as i64);
            assert(qq.1 == relation.tuples@[i]@[4].1 + kernel@[k].dy);
            assert(views(targets@).contains(qq));
            let m = choose|m: int| 0 <= m < views(targets@).len() && views(targets@)[m] == qq;
            assert(targets@[m] == qq);
        }
    }
    result
}

} // verus!
