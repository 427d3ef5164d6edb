//! Delimited text: splitting one line into fields, and quoting a field so
//! that the split gives it back.
use vstd::prelude::*;
use crate::text::{chars_of, joined, push_char};

verus! {

/// The quote character of the format.
pub open spec fn quote_char() -> char {
    '"'
}

/// Scans the rest of a line. `fields` are the fields already closed, `cur`
/// the field being read, `inq` whether the scanner is inside quotes.
/// A quote opens or closes a quoted stretch; inside quotes two quotes stand
/// for one; outside quotes the delimiter closes the current field.
pub open spec fn csv_scan(
    rest: Seq<char>,
    delim: char,
    fields: Seq<Seq<char>>,
    cur: Seq<char>,
    inq: bool,
) -> Seq<Seq<char>>
    decreases rest.len(),
{
    if rest.len() == 0 {
        fields.push(cur)
    } else {
        let c = rest[0];
        if c == quote_char() {
            if inq {
                if rest.len() > 1 && rest[1] == quote_char() {
                    csv_scan(rest.skip(2), delim, fields, cur.push(quote_char()), true)
                } else {
                    csv_scan(rest.skip(1), delim, fields, cur, false)
                }
            } else {
                csv_scan(rest.skip(1), delim, fields, cur, true)
            }
        } else if c == delim && !inq {
            csv_scan(rest.skip(1), delim, fields.push(cur), Seq::empty(), false)
        } else {
            csv_scan(rest.skip(1), delim, fields, cur.push(c), inq)
        }
    }
}

/// The fields of a line.
pub open spec fn csv_fields(line: Seq<char>, delim: char) -> Seq<Seq<char>> {
    csv_scan(line, delim, Seq::empty(), Seq::empty(), false)
}

/// The views of a vector of strings.
pub open spec fn strings_view(v: Seq<String>) -> Seq<Seq<char>> {
    v.map_values(|s: String| s@)
}

/// Splits a line into fields at `delimiter`, honouring double quotes: a
/// delimiter inside quotes belongs to the field, and `""` inside quotes
/// stands for one quote. There is always at least one field.
pub fn parse_csv_line(line: &str, delimiter: char) -> (fields: Vec<String>)
    ensures
        strings_view(fields@) == csv_fields(line@, delimiter),
{
    let cs = chars_of(line);
    let n = cs.len();
    let mut fields: Vec<String> = Vec::new();
    let mut current = String::new();
    let mut inside_quotes = false;
    let mut i: usize = 0;
    assert(cs@.skip(0) == cs@);
    assert(strings_view(fields@) == Seq::<Seq<char>>::empty());
    while i < n
        invariant
            n == cs@.len(),
            cs@ == line@,
            i <= n,
            csv_scan(cs@.skip(i as int), delimiter, strings_view(fields@), current@, inside_quotes)
                == csv_fields(line@, delimiter),
        decreases n - i,
    {
        let ghost rest = cs@.skip(i as int);
        let c = cs[i];
        assert(rest[0] == c);
        if c == '"' {
            if inside_quotes {
                if i + 1 < n && cs[i + 1] == '"' {
                    assert(rest[1] == cs@[i + 1]);
                    assert(rest.skip(2) == cs@.skip(i + 2));
                    push_char(&mut current, '"');
                    i = i + 2;
                } else {
                    assert(rest.len() > 1 ==> rest[1] == cs@[i + 1]);
                    assert(rest.skip(1) == cs@.skip(i + 1));
                    inside_quotes = false;
                    i = i + 1;
                }
            } else {
                assert(rest.skip(1) == cs@.skip(i + 1));
                inside_quotes = true;
                i = i + 1;
            }
        } else if c == delimiter && !inside_quotes {
            assert(rest.skip(1) == cs@.skip(i + 1));
            let ghost before = strings_view(fields@);
            let done = current;
            fields.push(done);
            assert(strings_view(fields@) == before.push(done@));
            current = String::new();
            i = i + 1;
        } else {
            assert(rest.skip(1) == cs@.skip(i + 1));
            push_char(&mut current, c);
            i = i + 1;
        }
    }
    assert(cs@.skip(i as int).len() == 0);
    let ghost before = strings_view(fields@);
    let last = current;
    fields.push(last);
    assert(strings_view(fields@) == before.push(last@));
    fields
}

/// A field's text with every quote doubled.
pub open spec fn csv_escape(f: Seq<char>) -> Seq<char>
    decreases f.len(),
{
    if f.len() == 0 {
        Seq::empty()
    } else {
        let head = if f[0] == quote_char() {
            seq![quote_char(), quote_char()]
        } else {
            seq![f[0]]
        };
        head + csv_escape(f.skip(1))
    }
}

/// A field written between quotes, with its quotes doubled.
pub open spec fn csv_quoted(f: Seq<char>) -> Seq<char> {
    seq![quote_char()] + csv_escape(f) + seq![quote_char()]
}

/// Quoted fields joined by the delimiter.
pub open spec fn csv_joined(fields: Seq<Seq<char>>, delim: char) -> Seq<char>
    decreases fields.len(),
{
    if fields.len() <= 1 {
        if fields.len() == 0 {
            Seq::empty()
        } else {
            csv_quoted(fields[0])
        }
    } else {
        csv_quoted(fields[0]) + seq![delim] + csv_joined(fields.skip(1), delim)
    }
}

/// Writes a text value as a field: between quotes, each quote doubled.
pub fn quote_csv_field(value: &str) -> (out: String)
    ensures
        out@ == csv_quoted(value@),
{
    let cs = chars_of(value);
    let n = cs.len();
    let mut out = String::new();
    push_char(&mut out, '"');
    let mut i: usize = 0;
    while i < n
        invariant
            n == cs@.len(),
            cs@ == value@,
            i <= n,
            out@ == seq![quote_char()] + csv_escape(cs@.take(i as int)),
        decreases n - i,
    {
        proof {
            lemma_escape_push(cs@.take(i as int), cs@[i as int]);
            assert(cs@.take(i + 1) == cs@.take(i as int).push(cs@[i as int]));
        }
        let c = cs[i];
        proof {
            let one = seq![c];
            assert(one.skip(1) == Seq::<char>::empty());
            assert(csv_escape(one.skip(1)) == Seq::<char>::empty());
            if c == quote_char() {
                assert(csv_escape(one) == seq![quote_char(), quote_char()] + Seq::<char>::empty());
            } else {
                assert(csv_escape(one) == seq![c] + Seq::<char>::empty());
            }
        }
        if c == '"' {
            push_char(&mut out, '"');
            push_char(&mut out, '"');
        } else {
            push_char(&mut out, c);
        }
        i = i + 1;
    }
    assert(cs@.take(n as int) == cs@);
    push_char(&mut out, '"');
    out
}

/// Escaping distributes over appending one character.
proof fn lemma_escape_push(f: Seq<char>, c: char)
    ensures
        csv_escape(f.push(c)) == csv_escape(f) + csv_escape(seq![c]),
    decreases f.len(),
{
    if f.len() == 0 {
        assert(f.push(c) == seq![c]);
        assert(csv_escape(f) == Seq::<char>::empty());
    } else {
        lemma_escape_push(f.skip(1), c);
        assert(f.push(c).skip(1) == f.skip(1).push(c));
        assert(f.push(c)[0] == f[0]);
    }
    reveal_with_fuel(csv_escape, 2);
}

/// Reading an escaped field up to its closing quote gives the field back.
proof fn lemma_scan_escaped(
    f: Seq<char>,
    rest: Seq<char>,
    delim: char,
    fields: Seq<Seq<char>>,
    cur: Seq<char>,
)
    requires
        rest.len() == 0 || rest[0] != quote_char(),
    ensures
        csv_scan(csv_escape(f) + seq![quote_char()] + rest, delim, fields, cur, true)
            == csv_scan(rest, delim, fields, cur + f, false),
    decreases f.len(),
{
    let input = csv_escape(f) + seq![quote_char()] + rest;
    if f.len() == 0 {
        assert(csv_escape(f) == Seq::<char>::empty());
        assert(input == seq![quote_char()] + rest);
        assert(input.skip(1) == rest);
        assert(cur + f == cur);
    } else {
        let tail = csv_escape(f.skip(1)) + seq![quote_char()] + rest;
        lemma_scan_escaped(f.skip(1), rest, delim, fields, cur + seq![f[0]]);
        assert(cur + seq![f[0]] + f.skip(1) == cur + f);
        if f[0] == quote_char() {
            assert(input == seq![quote_char(), quote_char()] + tail);
            assert(input.skip(2) == tail);
            assert(cur.push(quote_char()) == cur + seq![f[0]]);
        } else {
            assert(input == seq![f[0]] + tail);
            assert(input.skip(1) == tail);
            assert(cur.push(f[0]) == cur + seq![f[0]]);
        }
    }
}

/// Reading quoted fields joined by the delimiter gives the fields back.
proof fn lemma_scan_joined(fields: Seq<Seq<char>>, delim: char, done: Seq<Seq<char>>)
    requires
        fields.len() >= 1,
        delim != quote_char(),
    ensures
        csv_scan(csv_joined(fields, delim), delim, done, Seq::empty(), false) == done + fields,
    decreases fields.len(),
{
    let f = fields[0];
    let rest: Seq<char> = if fields.len() == 1 {
        Seq::empty()
    } else {
        seq![delim] + csv_joined(fields.skip(1), delim)
    };
    let input = csv_joined(fields, delim);
    assert(input == seq![quote_char()] + (csv_escape(f) + seq![quote_char()] + rest));
    assert(input.skip(1) == csv_escape(f) + seq![quote_char()] + rest);
    lemma_scan_escaped(f, rest, delim, done, Seq::empty());
    assert(Seq::<char>::empty() + f == f);
    if fields.len() == 1 {
        assert(done.push(f) == done + fields);
    } else {
        assert(rest.skip(1) == csv_joined(fields.skip(1), delim));
        lemma_scan_joined(fields.skip(1), delim, done.push(f));
        assert(done.push(f) + fields.skip(1) == done + fields);
    }
}

/// Splitting a line made of quoted fields joined by a delimiter other than
/// the quote gives back exactly those fields, whatever they contain.
pub proof fn law_csv_quote_round_trip(fields: Seq<Seq<char>>, delim: char)
    requires
        fields.len() >= 1,
        delim != quote_char(),
    ensures
        csv_fields(csv_joined(fields, delim), delim) == fields,
{
    lemma_scan_joined(fields, delim, Seq::empty());
    assert(Seq::<Seq<char>>::empty() + fields == fields);
}

/// A stretch without quotes or delimiters is read into the current field.
proof fn lemma_scan_plain_stretch(f: Seq<char>, rest: Seq<char>, delim: char, done: Seq<Seq<char>>, cur: Seq<char>)
    requires
        forall|i: int| 0 <= i < f.len() ==> #[trigger] f[i] != quote_char() && f[i] != delim,
    ensures
        csv_scan(f + rest, delim, done, cur, false) == csv_scan(rest, delim, done, cur + f, false),
    decreases f.len(),
{
    if f.len() == 0 {
        assert(f + rest =~= rest);
        assert(cur + f =~= cur);
    } else {
        let input = f + rest;
        assert(input[0] == f[0]);
        assert(input.skip(1) =~= f.skip(1) + rest);
        lemma_scan_plain_stretch(f.skip(1), rest, delim, done, cur.push(f[0]));
        assert(cur.push(f[0]) + f.skip(1) =~= cur + f);
    }
}

/// Joining parts, read from the front.
proof fn lemma_joined_front(parts: Seq<Seq<char>>, sep: Seq<char>)
    requires
        parts.len() >= 2,
    ensures
        joined(parts, sep) == parts[0] + sep + joined(parts.skip(1), sep),
    decreases parts.len(),
{
    if parts.len() == 2 {
        assert(parts.drop_last().len() == 1);
        assert(parts.skip(1).len() == 1);
        assert(joined(parts.drop_last(), sep) == parts[0]);
        assert(joined(parts.skip(1), sep) == parts[1]);
    } else {
        lemma_joined_front(parts.drop_last(), sep);
        assert(parts.drop_last().skip(1) =~= parts.skip(1).drop_last());
        assert(parts.skip(1).last() == parts.last());
        assert(joined(parts.skip(1), sep) == joined(parts.skip(1).drop_last(), sep) + sep + parts.last());
        assert(parts[0] + sep + joined(parts.drop_last().skip(1), sep) + sep + parts.last()
            =~= parts[0] + sep + (joined(parts.drop_last().skip(1), sep) + sep + parts.last()));
    }
}

proof fn lemma_scan_plain_fields(fields: Seq<Seq<char>>, delim: char, done: Seq<Seq<char>>)
    requires
        fields.len() >= 1,
        delim != quote_char(),
        forall|i: int, j: int| 0 <= i < fields.len() && 0 <= j < fields[i].len()
            ==> #[trigger] fields[i][j] != quote_char() && fields[i][j] != delim,
    ensures
        csv_scan(joined(fields, seq![delim]), delim, done, Seq::empty(), false) == done + fields,
    decreases fields.len(),
{
    let f = fields[0];
    assert forall|j: int| 0 <= j < f.len() implies #[trigger] f[j] != quote_char() && f[j] != delim by {
        assert(fields[0][j] == f[j]);
    }
    if fields.len() == 1 {
        assert(joined(fields, seq![delim]) == f);
        lemma_scan_plain_stretch(f, Seq::empty(), delim, done, Seq::empty());
        assert(f + Seq::<char>::empty() =~= f);
        assert(Seq::<char>::empty() + f =~= f);
        assert(done.push(f) =~= done + fields);
    } else {
        let rest = joined(fields.skip(1), seq![delim]);
        lemma_joined_front(fields, seq![delim]);
        assert(joined(fields, seq![delim]) =~= f + (seq![delim] + rest));
        lemma_scan_plain_stretch(f, seq![delim] + rest, delim, done, Seq::empty());
        assert(Seq::<char>::empty() + f =~= f);
        let input = seq![delim] + rest;
        assert(input[0] == delim);
        assert(input.skip(1) =~= rest);
        assert forall|i: int, j: int| 0 <= i < fields.skip(1).len() && 0 <= j < fields.skip(1)[i].len()
            implies #[trigger] fields.skip(1)[i][j] != quote_char() && fields.skip(1)[i][j] != delim by {
            assert(fields.skip(1)[i] == fields[i + 1]);
        }
        lemma_scan_plain_fields(fields.skip(1), delim, done.push(f));
        assert(done.push(f) + fields.skip(1) =~= done + fields);
    }
}

/// A line without quotes splits plainly: fields free of quotes and of the
/// delimiter, joined by the delimiter, are read back as exactly those
/// fields, one per stretch between delimiters.
pub proof fn law_csv_plain_split(fields: Seq<Seq<char>>, delim: char)
    requires
        fields.len() >= 1,
        delim != quote_char(),
        forall|i: int, j: int| 0 <= i < fields.len() && 0 <= j < fields[i].len()
            ==> #[trigger] fields[i][j] != quote_char() && fields[i][j] != delim,
    ensures
        csv_fields(joined(fields, seq![delim]), delim) == fields,
{
    lemma_scan_plain_fields(fields, delim, Seq::empty());
    assert(Seq::<Seq<char>>::empty() + fields =~= fields);
}

/// The delimiters of `rest` that stand outside quotes, the scan starting
/// inside quotes when `inq`: each quote switches between inside and outside.
pub open spec fn delims_outside(rest: Seq<char>, delim: char, inq: bool) -> nat
    decreases rest.len(),
{
    if rest.len() == 0 {
        0
    } else if rest[0] == quote_char() {
        delims_outside(rest.skip(1), delim, !inq)
    } else if rest[0] == delim && !inq {
        1 + delims_outside(rest.skip(1), delim, inq)
    } else {
        delims_outside(rest.skip(1), delim, inq)
    }
}

proof fn lemma_scan_count(rest: Seq<char>, delim: char, fields: Seq<Seq<char>>, cur: Seq<char>, inq: bool)
    requires
        delim != quote_char(),
    ensures
        csv_scan(rest, delim, fields, cur, inq).len() == fields.len() + 1 + delims_outside(rest, delim, inq),
    decreases rest.len(),
{
    if rest.len() > 0 {
        let c = rest[0];
        if c == quote_char() {
            if inq && rest.len() > 1 && rest[1] == quote_char() {
                lemma_scan_count(rest.skip(2), delim, fields, cur.push(quote_char()), true);
                assert(rest.skip(1).skip(1) =~= rest.skip(2));
                assert(rest.skip(1)[0] == quote_char());
                assert(delims_outside(rest.skip(1), delim, false) == delims_outside(rest.skip(2), delim, true));
            } else if inq {
                lemma_scan_count(rest.skip(1), delim, fields, cur, false);
            } else {
                lemma_scan_count(rest.skip(1), delim, fields, cur, true);
            }
        } else if c == delim && !inq {
            lemma_scan_count(rest.skip(1), delim, fields.push(cur), Seq::empty(), false);
        } else {
            lemma_scan_count(rest.skip(1), delim, fields, cur.push(c), inq);
        }
    }
}

/// A line has one field more than it has delimiters outside quotes: a
/// delimiter inside quotes is kept as data.
pub proof fn law_csv_field_count(line: Seq<char>, delim: char)
    requires
        delim != quote_char(),
    ensures
        csv_fields(line, delim).len() == 1 + delims_outside(line, delim, false),
        csv_fields(line, delim).len() >= 1,
{
    lemma_scan_count(line, delim, Seq::empty(), Seq::empty(), false);
}

/// The characters of a line free of quotes and of the delimiter.
pub open spec fn plain_field(f: Seq<char>, delim: char) -> bool {
    forall|j: int| 0 <= j < f.len() ==> #[trigger] f[j] != quote_char() && f[j] != delim
}

proof fn lemma_scan_quote_free(rest: Seq<char>, delim: char, fields: Seq<Seq<char>>, cur: Seq<char>)
    requires
        delim != quote_char(),
        forall|j: int| 0 <= j < rest.len() ==> #[trigger] rest[j] != quote_char(),
        plain_field(cur, delim),
    ensures
        ({
            let out = csv_scan(rest, delim, fields, cur, false);
            &&& out.len() >= fields.len() + 1
            &&& out.take(fields.len() as int) == fields
            &&& joined(out.skip(fields.len() as int), seq![delim]) == cur + rest
            &&& forall|i: int| fields.len() <= i < out.len() ==> plain_field(#[trigger] out[i], delim)
        }),
    decreases rest.len(),
{
    let out = csv_scan(rest, delim, fields, cur, false);
    if rest.len() == 0 {
        assert(out == fields.push(cur));
        assert(out.take(fields.len() as int) =~= fields);
        assert(out.skip(fields.len() as int) =~= seq![cur]);
        assert(cur + rest =~= cur);
    } else {
        let c = rest[0];
        assert(c != quote_char());
        let tail = rest.skip(1);
        assert forall|j: int| 0 <= j < tail.len() implies #[trigger] tail[j] != quote_char() by {
            assert(tail[j] == rest[j + 1]);
        }
        if c == delim {
            let fs = fields.push(cur);
            lemma_scan_quote_free(tail, delim, fs, Seq::empty());
            assert(out == csv_scan(tail, delim, fs, Seq::empty(), false));
            assert(out.take(fields.len() as int) =~= fs.take(fields.len() as int));
            assert(fs.take(fields.len() as int) =~= fields);
            assert(out.take(fs.len() as int) == fs);
            assert(out[fields.len() as int] == fs[fields.len() as int]);
            let after = out.skip(fs.len() as int);
            let whole = out.skip(fields.len() as int);
            assert(whole.len() >= 2);
            assert(whole[0] == cur);
            assert(whole.skip(1) =~= after);
            lemma_joined_front(whole, seq![delim]);
            assert(Seq::<char>::empty() + tail =~= tail);
            assert(rest =~= seq![delim] + tail);
            assert(cur + seq![delim] + tail =~= cur + rest);
        } else {
            assert(plain_field(cur.push(c), delim)) by {
                assert forall|j: int| 0 <= j < cur.push(c).len() implies #[trigger] cur.push(c)[j] != quote_char() && cur.push(c)[j] != delim by {
                    if j < cur.len() {
                        assert(cur.push(c)[j] == cur[j]);
                    }
                }
            }
            lemma_scan_quote_free(tail, delim, fields, cur.push(c));
            assert(cur.push(c) + tail =~= cur + rest);
        }
    }
}

/// A line without quotes is split at every delimiter: its fields, joined
/// by the delimiter, give the line back, and no field holds the delimiter
/// (so they are exactly the stretches between delimiters).
pub proof fn law_csv_quote_free_line(line: Seq<char>, delim: char)
    requires
        delim != quote_char(),
        forall|j: int| 0 <= j < line.len() ==> #[trigger] line[j] != quote_char(),
    ensures
        csv_fields(line, delim).len() >= 1,
        joined(csv_fields(line, delim), seq![delim]) == line,
        forall|i: int| 0 <= i < csv_fields(line, delim).len() ==> plain_field(#[trigger] csv_fields(line, delim)[i], delim),
{
    lemma_scan_quote_free(line, delim, Seq::empty(), Seq::empty());
    let out = csv_fields(line, delim);
    assert(out.skip(0) =~= out);
    assert(Seq::<char>::empty() + line =~= line);
}

} // verus!
