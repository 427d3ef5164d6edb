//! Importing relations from delimited text, checked against a heading.
//!
//! The first line names the columns; every attribute of the heading must be
//! among them. Each further line that is not blank gives one tuple: its
//! fields are read by the column's attribute type, columns that name no
//! attribute are passed over, and a tuple met twice is kept once.
use vstd::prelude::*;
use crate::csv::{csv_fields, parse_csv_line, strings_view};
use crate::differ::position_of;
use crate::relation::{
    fits_heading, lemma_lex_irreflexive, sorted_names, type_of, Attribute, Relation, Row,
    ScalarType, ScalarValue, ValueView,
};
use crate::graph::{contains_key, views, Key};
use crate::text::{chars_of, decimal, digits, push_digits, push_str, str_eq};

verus! {

broadcast use vstd::seq_lib::group_seq_properties;

/// The error type of `std::io`, carried through unchanged.
#[verifier::external_type_specification]
#[verifier::external_body]
pub struct ExIoError(std::io::Error);

/// Why an import failed.
#[derive(Debug)]
pub enum ImporterError {
    /// Reading the input failed.
    IoError(std::io::Error),
    /// The JSON parser refused the input.
    JsonError(serde_json::Error),
    /// The input is not laid out as expected.
    FormatError(String),
    /// A field does not read as its attribute's type: the attribute, the
    /// type, and what went wrong.
    TypeError(String, String, String),
    /// An attribute has no value.
    MissingValue(String),
    /// The relation refused a tuple.
    RelvarError(String),
}

/// An import failure as text.
pub enum ImportFailure {
    Format(Seq<char>),
    Type(Seq<char>, Seq<char>, Seq<char>),
    Missing(Seq<char>),
}

/// Whether `c` has the Unicode `White_Space` property, as `char::is_whitespace`
/// tests it: tab to carriage return, space, next line, no-break space, ogham
/// space mark, the spaces from en quad to hair space, line and paragraph
/// separators, narrow no-break space, medium mathematical space and
/// ideographic space.
pub open spec fn white_space(c: char) -> bool {
    let n = c as u32;
    ||| 0x09 <= n <= 0x0D
    ||| n == 0x20
    ||| n == 0x85
    ||| n == 0xA0
    ||| n == 0x1680
    ||| 0x2000 <= n <= 0x200A
    ||| n == 0x2028
    ||| n == 0x2029
    ||| n == 0x202F
    ||| n == 0x205F
    ||| n == 0x3000
}

/// Whether `c` has the Unicode `White_Space` property.
fn is_white_space(c: char) -> (b: bool)
    ensures
        b == white_space(c),
{
    let n = c as u32;
    (0x09 <= n && n <= 0x0D) || n == 0x20 || n == 0x85 || n == 0xA0 || n == 0x1680
        || (0x2000 <= n && n <= 0x200A) || n == 0x2028 || n == 0x2029 || n == 0x202F
        || n == 0x205F || n == 0x3000
}

/// What `serde_json` reads from `s` as an array of bytes, `None` where it
/// refuses the text.
pub uninterp spec fn json_byte_array(s: Seq<char>) -> Option<Seq<u8>>;

/// `serde_json::from_str::<Vec<u8>>`: the bytes that `s` holds as a JSON
/// array of numbers from 0 to 255, or `None` where it does not.
#[verifier::external_body]
fn read_json_bytes(s: &str) -> (r: Option<Vec<u8>>)
    ensures
        (match r {
            Some(v) => Some(v@),
            None => None,
        }) == json_byte_array(s@),
{
    serde_json::from_str::<Vec<u8>>(s).ok()
}

/// A line is blank when all its characters are white space.
pub open spec fn blank(s: Seq<char>) -> bool {
    forall|i: int| 0 <= i < s.len() ==> white_space(#[trigger] s[i])
}

/// Whether a line is blank.
pub fn is_blank(s: &str) -> (b: bool)
    ensures
        b == blank(s@),
{
    let cs = chars_of(s);
    let mut i: usize = 0;
    while i < cs.len()
        invariant
            cs@ == s@,
            i <= cs@.len(),
            forall|k: int| 0 <= k < i ==> white_space(#[trigger] s@[k]),
        decreases cs@.len() - i,
    {
        if !is_white_space(cs[i]) {
            return false;
        }
        i = i + 1;
    }
    true
}

/// The value of a decimal digit character.
pub open spec fn digit_value(c: char) -> int {
    (c as int) - ('0' as int)
}

/// Whether `c` is a decimal digit.
pub open spec fn is_digit(c: char) -> bool {
    '0' <= c <= '9'
}

/// The message for an empty integer text.
pub open spec fn empty_int_message() -> Seq<char> {
    "cannot parse integer from empty string"@
}

/// The message for a character that is not a digit.
pub open spec fn invalid_digit_message() -> Seq<char> {
    "invalid digit found in string"@
}

/// The message for a value above `i64::MAX`.
pub open spec fn too_large_message() -> Seq<char> {
    "number too large to fit in target type"@
}

/// The message for a value below `i64::MIN`.
pub open spec fn too_small_message() -> Seq<char> {
    "number too small to fit in target type"@
}

/// Reads the digits `ds` onto `acc`, left to right, subtracting when `neg`:
/// the value, or the message for the first character that is no digit or
/// the first step that leaves the range of `i64`.
pub open spec fn read_digits(ds: Seq<char>, neg: bool, acc: int) -> Result<int, Seq<char>>
    decreases ds.len(),
{
    if ds.len() == 0 {
        Ok(acc)
    } else if !is_digit(ds[0]) {
        Err(invalid_digit_message())
    } else {
        let next = if neg {
            acc * 10 - digit_value(ds[0])
        } else {
            acc * 10 + digit_value(ds[0])
        };
        if next > i64::MAX {
            Err(too_large_message())
        } else if next < i64::MIN {
            Err(too_small_message())
        } else {
            read_digits(ds.drop_first(), neg, next)
        }
    }
}

/// A text read as an `i64`: an optional sign, then decimal digits.
pub open spec fn parse_i64(s: Seq<char>) -> Result<int, Seq<char>> {
    if s.len() == 0 {
        Err(empty_int_message())
    } else if s.len() == 1 && (s[0] == '+' || s[0] == '-') {
        Err(invalid_digit_message())
    } else if s[0] == '+' {
        read_digits(s.drop_first(), false, 0)
    } else if s[0] == '-' {
        read_digits(s.drop_first(), true, 0)
    } else {
        read_digits(s, false, 0)
    }
}

/// Reads a text as an `i64`, as `str::parse::<i64>` does, with its messages.
pub fn parse_int(s: &str) -> (r: Result<i64, String>)
    ensures
        match r {
            Ok(v) => parse_i64(s@) == Ok::<int, Seq<char>>(v as int),
            Err(m) => parse_i64(s@) == Err::<int, Seq<char>>(m@),
        },
{
    let cs = chars_of(s);
    if cs.len() == 0 {
        return Err("cannot parse integer from empty string".to_owned());
    }
    if cs.len() == 1 && (cs[0] == '+' || cs[0] == '-') {
        return Err("invalid digit found in string".to_owned());
    }
    let neg = cs[0] == '-';
    let mut i: usize = if cs[0] == '+' || cs[0] == '-' { 1 } else { 0 };
    let ghost ds = s@.skip(i as int);
    assert(ds == s@.drop_first() || ds == s@);
    let mut acc: i64 = 0;
    while i < cs.len()
        invariant
            cs@ == s@,
            1 <= cs@.len(),
            i <= cs@.len(),
            neg == (cs@[0] == '-'),
            parse_i64(s@) == read_digits(s@.skip(i as int), neg, acc as int),
        decreases cs@.len() - i,
    {
        let c = cs[i];
        assert(s@.skip(i as int)[0] == c);
        assert(s@.skip(i as int).drop_first() == s@.skip(i + 1));
        if c < '0' || c > '9' {
            return Err("invalid digit found in string".to_owned());
        }
        let d: i128 = if c == '0' { 0 } else if c == '1' { 1 } else if c == '2' { 2 } else if c == '3' { 3 }
            else if c == '4' { 4 } else if c == '5' { 5 } else if c == '6' { 6 } else if c == '7' { 7 }
            else if c == '8' { 8 } else { 9 };
        assert(d == digit_value(c));
        let next: i128 = if neg { (acc as i128) * 10 - d } else { (acc as i128) * 10 + d };
        if next > i64::MAX as i128 {
            return Err("number too large to fit in target type".to_owned());
        }
        if next < i64::MIN as i128 {
            return Err("number too small to fit in target type".to_owned());
        }
        acc = next as i64;
        i = i + 1;
    }
    assert(s@.skip(i as int).len() == 0);
    Ok(acc)
}

/// The message for a text that is neither `true` nor `false`.
pub open spec fn bool_message() -> Seq<char> {
    "provided string was not `true` or `false`"@
}

/// The message for a text that is no byte array.
pub open spec fn bytes_message() -> Seq<char> {
    "Invalid bytes format"@
}

/// A value as mathematical data, by variant.
pub open spec fn int_view(v: int) -> ValueView {
    (0u8, v as i64, false, Seq::empty(), Seq::empty())
}

pub open spec fn bool_view(b: bool) -> ValueView {
    (1u8, 0i64, b, Seq::empty(), Seq::empty())
}

pub open spec fn string_view(s: Seq<char>) -> ValueView {
    (2u8, 0i64, false, s, Seq::empty())
}

pub open spec fn bytes_view(b: Seq<u8>) -> ValueView {
    (3u8, 0i64, false, Seq::empty(), b)
}

/// A text read as a value of type `t`: integers as `str::parse` reads
/// them, booleans from `true` or `false`, strings as they are, bytes as a
/// JSON array of numbers.
pub open spec fn str_scalar(s: Seq<char>, t: ScalarType) -> Result<ValueView, Seq<char>> {
    match t {
        ScalarType::Int => match parse_i64(s) {
            Ok(v) => Ok(int_view(v)),
            Err(m) => Err(m),
        },
        ScalarType::Bool => if s == "true"@ {
            Ok(bool_view(true))
        } else if s == "false"@ {
            Ok(bool_view(false))
        } else {
            Err(bool_message())
        },
        ScalarType::String => Ok(string_view(s)),
        ScalarType::Bytes => match json_byte_array(s) {
            Some(b) => Ok(bytes_view(b)),
            None => Err(bytes_message()),
        },
    }
}

/// The value for bytes that the JSON reader gave, or the message where it
/// gave none.
pub fn bytes_from_parsed(parsed: Option<Vec<u8>>) -> (r: Result<ScalarValue, String>)
    ensures
        match r {
            Ok(v) => parsed matches Some(b) && v@ == bytes_view(b@),
            Err(m) => parsed is None && m@ == bytes_message(),
        },
{
    match parsed {
        Some(b) => Ok(ScalarValue::Bytes(b)),
        None => Err("Invalid bytes format".to_owned()),
    }
}

/// Reads a text as a value of type `t`.
pub fn str_to_scalar(s: &str, t: ScalarType) -> (r: Result<ScalarValue, String>)
    ensures
        match r {
            Ok(v) => str_scalar(s@, t) == Ok::<ValueView, Seq<char>>(v@),
            Err(m) => str_scalar(s@, t) == Err::<ValueView, Seq<char>>(m@),
        },
{
    match t {
        ScalarType::Int => match parse_int(s) {
            Ok(v) => Ok(ScalarValue::Int(v)),
            Err(m) => Err(m),
        },
        ScalarType::Bool => {
            if str_eq(s, "true") {
                Ok(ScalarValue::Bool(true))
            } else if str_eq(s, "false") {
                Ok(ScalarValue::Bool(false))
            } else {
                Err("provided string was not `true` or `false`".to_owned())
            }
        },
        ScalarType::String => Ok(ScalarValue::String(s.to_owned())),
        ScalarType::Bytes => bytes_from_parsed(read_json_bytes(s)),
    }
}

/// The name of a type, as the error messages give it.
pub open spec fn type_label(t: ScalarType) -> Seq<char> {
    match t {
        ScalarType::Int => "Int"@,
        ScalarType::Bool => "Bool"@,
        ScalarType::String => "String"@,
        ScalarType::Bytes => "Bytes"@,
    }
}

/// The name of a type.
pub(crate) fn type_label_of(t: ScalarType) -> (n: String)
    ensures
        n@ == type_label(t),
{
    match t {
        ScalarType::Int => "Int".to_owned(),
        ScalarType::Bool => "Bool".to_owned(),
        ScalarType::String => "String".to_owned(),
        ScalarType::Bytes => "Bytes".to_owned(),
    }
}

/// The position of the attribute named `n`, or -1.
pub open spec fn attr_of(h: Seq<Attribute>, n: Seq<char>) -> int {
    if exists|a: int| 0 <= a < h.len() && (#[trigger] h[a]).name@ == n {
        choose|a: int| 0 <= a < h.len() && (#[trigger] h[a]).name@ == n
    } else {
        -1
    }
}

/// Column `i` names an attribute and its field does not read as that
/// attribute's type.
pub open spec fn column_fails(h: Seq<Attribute>, headers: Seq<Seq<char>>, fields: Seq<Seq<char>>, i: int) -> bool {
    let a = attr_of(h, headers[i]);
    a >= 0 && str_scalar(fields[i], h[a].ty) is Err
}

/// The first failing column from `i` on.
pub open spec fn first_failure(h: Seq<Attribute>, headers: Seq<Seq<char>>, fields: Seq<Seq<char>>, i: int) -> Option<int>
    decreases fields.len() - i,
{
    if i >= fields.len() || i < 0 {
        None
    } else if column_fails(h, headers, fields, i) {
        Some(i)
    } else {
        first_failure(h, headers, fields, i + 1)
    }
}

/// The last column before `i` named `n`, or -1.
pub open spec fn last_naming(headers: Seq<Seq<char>>, n: Seq<char>, i: int) -> int
    decreases i,
{
    if i <= 0 {
        -1
    } else if headers[i - 1] == n {
        i - 1
    } else {
        last_naming(headers, n, i - 1)
    }
}

/// The tuple of a line's fields, or the error of its first failing column.
/// An attribute named by several columns takes the last of them.
pub open spec fn row_result(h: Seq<Attribute>, headers: Seq<Seq<char>>, fields: Seq<Seq<char>>) -> Result<Seq<ValueView>, ImportFailure> {
    match first_failure(h, headers, fields, 0) {
        Some(i) => {
            let a = attr_of(h, headers[i]);
            Err(ImportFailure::Type(headers[i], type_label(h[a].ty), str_scalar(fields[i], h[a].ty)->Err_0))
        },
        None => Ok(Seq::new(h.len(), |a: int| str_scalar(fields[last_naming(headers, h[a].name@, fields.len() as int)], h[a].ty)->Ok_0)),
    }
}

/// The message for a line with the wrong number of fields.
pub open spec fn width_message(line: nat, got: nat, expected: nat) -> Seq<char> {
    "Row "@ + digits(line) + " has "@ + digits(got) + " fields, expected "@ + digits(expected)
}

/// The message for an attribute that no column names.
pub open spec fn header_message(n: Seq<char>) -> Seq<char> {
    "Header missing attribute '"@ + n + "'"@
}

/// Reads the lines from `k` on into the set `acc`: blank lines are passed
/// over, a line with the wrong number of fields or a failing column stops
/// the reading with its error.
pub open spec fn read_lines(
    h: Seq<Attribute>,
    headers: Seq<Seq<char>>,
    lines: Seq<Seq<char>>,
    d: char,
    k: int,
    acc: Set<Seq<ValueView>>,
) -> Result<Set<Seq<ValueView>>, ImportFailure>
    decreases lines.len() - k,
{
    if k >= lines.len() || k < 1 {
        Ok(acc)
    } else if blank(lines[k]) {
        read_lines(h, headers, lines, d, k + 1, acc)
    } else {
        let fields = csv_fields(lines[k], d);
        if fields.len() != headers.len() {
            Err(ImportFailure::Format(width_message(k as nat, fields.len(), headers.len())))
        } else {
            match row_result(h, headers, fields) {
                Err(e) => Err(e),
                Ok(r) => read_lines(h, headers, lines, d, k + 1, acc.insert(r)),
            }
        }
    }
}

/// The first attribute, in heading order, that no header names.
pub open spec fn first_unnamed(h: Seq<Attribute>, headers: Seq<Seq<char>>, a: int) -> Option<int>
    decreases h.len() - a,
{
    if a >= h.len() || a < 0 {
        None
    } else if !headers.contains(h[a].name@) {
        Some(a)
    } else {
        first_unnamed(h, headers, a + 1)
    }
}

/// The relation read from delimited lines: the tuples, or the error.
pub open spec fn csv_import(h: Seq<Attribute>, lines: Seq<Seq<char>>, d: char) -> Result<Set<Seq<ValueView>>, ImportFailure> {
    if lines.len() == 0 {
        Err(ImportFailure::Format("Empty CSV input"@))
    } else {
        let headers = csv_fields(lines[0], d);
        match first_unnamed(h, headers, 0) {
            Some(a) => Err(ImportFailure::Missing(header_message(h[a].name@))),
            None => read_lines(h, headers, lines, d, 1, Set::empty()),
        }
    }
}

/// The error as text.
pub open spec fn failure_of(e: ImporterError) -> Option<ImportFailure> {
    match e {
        ImporterError::FormatError(m) => Some(ImportFailure::Format(m@)),
        ImporterError::TypeError(a, t, m) => Some(ImportFailure::Type(a@, t@, m@)),
        ImporterError::MissingValue(m) => Some(ImportFailure::Missing(m@)),
        _ => None,
    }
}

/// Attributes of a sorted heading have distinct names.
pub proof fn lemma_names_distinct(h: Seq<Attribute>)
    requires
        sorted_names(h),
    ensures
        forall|a: int, b: int| 0 <= a < h.len() && 0 <= b < h.len() && a != b ==> (#[trigger] h[a]).name@ != (#[trigger] h[b]).name@,
{
    assert forall|a: int, b: int| 0 <= a < h.len() && 0 <= b < h.len() && a != b implies (#[trigger] h[a]).name@ != (#[trigger] h[b]).name@ by {
        lemma_lex_irreflexive(h[a].name@);
        if a < b {
            assert(crate::text::lex_less(h[a].name@, h[b].name@));
        } else {
            assert(crate::text::lex_less(h[b].name@, h[a].name@));
        }
    }
}

/// A column named `n` before `i` makes `last_naming` find one.
proof fn lemma_last_naming_found(headers: Seq<Seq<char>>, n: Seq<char>, i: int, j: int)
    requires
        0 <= j < i <= headers.len(),
        headers[j] == n,
    ensures
        0 <= last_naming(headers, n, i) < i,
        headers[last_naming(headers, n, i)] == n,
    decreases i,
{
    if headers[i - 1] != n {
        lemma_last_naming_found(headers, n, i - 1, j);
    }
}

/// The value read from `t` has type `t`.
proof fn lemma_str_scalar_type(s: Seq<char>, t: ScalarType)
    ensures
        str_scalar(s, t) is Ok ==> type_of(str_scalar(s, t)->Ok_0) == t,
{
}

/// The tuple of one line's fields, or the error of its first failing column.
fn row_from_fields(h: &Vec<Attribute>, headers: &Vec<String>, fields: &Vec<String>) -> (r: Result<Row, ImporterError>)
    requires
        sorted_names(h@),
        fields@.len() == headers@.len(),
        forall|a: int| 0 <= a < h@.len() ==> strings_view(headers@).contains((#[trigger] h@[a]).name@),
    ensures
        match r {
            Ok(row) => fits_heading(h@, row) && row_result(h@, strings_view(headers@), strings_view(fields@))
                == Ok::<Seq<ValueView>, ImportFailure>(row@),
            Err(e) => failure_of(e) matches Some(f) && row_result(h@, strings_view(headers@), strings_view(fields@))
                == Err::<Seq<ValueView>, ImportFailure>(f),
        },
{
    let ghost hv = strings_view(headers@);
    let ghost fv = strings_view(fields@);
    proof {
        lemma_names_distinct(h@);
    }
    let n = h.len();
    let mut slots: Vec<Option<ScalarValue>> = Vec::new();
    let mut a: usize = 0;
    while a < n
        invariant
            n == h@.len(),
            a <= n,
            slots@.len() == a,
            forall|b: int| 0 <= b < a ==> slots@[b] is None,
        decreases n - a,
    {
        slots.push(None);
        a = a + 1;
    }
    let mut i: usize = 0;
    while i < fields.len()
        invariant
            n == h@.len(),
            hv == strings_view(headers@),
            fv == strings_view(fields@),
            fields@.len() == headers@.len(),
            i <= fields@.len(),
            slots@.len() == n,
            forall|x: int, y: int| 0 <= x < h@.len() && 0 <= y < h@.len() && x != y ==> (#[trigger] h@[x]).name@ != (#[trigger] h@[y]).name@,
            first_failure(h@, hv, fv, 0) == first_failure(h@, hv, fv, i as int),
            forall|b: int| 0 <= b < n ==> match #[trigger] slots@[b] {
                None => last_naming(hv, h@[b].name@, i as int) == -1,
                Some(v) => last_naming(hv, h@[b].name@, i as int) >= 0 && str_scalar(
                    fv[last_naming(hv, h@[b].name@, i as int)],
                    h@[b].ty,
                ) == Ok::<ValueView, Seq<char>>(v@),
            },
        decreases fields@.len() - i,
    {
        let pos = position_of(h, &headers[i]);
        match pos {
            Some(a) => {
                assert(attr_of(h@, hv[i as int]) == a as int) by {
                    assert(h@[a as int].name@ == hv[i as int]);
                }
                let t = h[a].ty;
                match str_to_scalar(fields[i].as_str(), t) {
                    Ok(v) => {
                        assert(!column_fails(h@, hv, fv, i as int));
                        let ghost before = slots@;
                        slots.set(a, Some(v));
                        assert forall|b: int| 0 <= b < n implies match #[trigger] slots@[b] {
                            None => last_naming(hv, h@[b].name@, i + 1) == -1,
                            Some(v) => last_naming(hv, h@[b].name@, i + 1) >= 0 && str_scalar(
                                fv[last_naming(hv, h@[b].name@, i + 1)],
                                h@[b].ty,
                            ) == Ok::<ValueView, Seq<char>>(v@),
                        } by {
                            if b != a {
                                assert(h@[b].name@ != h@[a as int].name@);
                                assert(slots@[b] == before[b]);
                            }
                        }
                    },
                    Err(m) => {
                        assert(column_fails(h@, hv, fv, i as int));
                        let label = type_label_of(t);
                        return Err(ImporterError::TypeError(headers[i].clone(), label, m));
                    },
                }
            },
            None => {
                assert(attr_of(h@, hv[i as int]) == -1);
                assert(!column_fails(h@, hv, fv, i as int));
                assert forall|b: int| 0 <= b < n implies match #[trigger] slots@[b] {
                    None => last_naming(hv, h@[b].name@, i + 1) == -1,
                    Some(v) => last_naming(hv, h@[b].name@, i + 1) >= 0 && str_scalar(
                        fv[last_naming(hv, h@[b].name@, i + 1)],
                        h@[b].ty,
                    ) == Ok::<ValueView, Seq<char>>(v@),
                } by {
                    assert(h@[b].name@ != hv[i as int]);
                }
            },
        }
        i = i + 1;
    }
    let ghost m = fields@.len() as int;
    assert(first_failure(h@, hv, fv, m) is None);
    let mut values: Vec<ScalarValue> = Vec::new();
    let mut b: usize = 0;
    while b < n
        invariant
            n == h@.len(),
            m == fields@.len(),
            hv == strings_view(headers@),
            fv == strings_view(fields@),
            hv.len() == m,
            slots@.len() == n,
            b <= n,
            values@.len() == b,
            forall|a: int| 0 <= a < h@.len() ==> hv.contains((#[trigger] h@[a]).name@),
            forall|c: int| 0 <= c < n ==> match #[trigger] slots@[c] {
                None => last_naming(hv, h@[c].name@, m) == -1,
                Some(v) => last_naming(hv, h@[c].name@, m) >= 0 && str_scalar(
                    fv[last_naming(hv, h@[c].name@, m)],
                    h@[c].ty,
                ) == Ok::<ValueView, Seq<char>>(v@),
            },
            forall|c: int| 0 <= c < b ==> (#[trigger] values@[c])@ == str_scalar(
                fv[last_naming(hv, h@[c].name@, m)],
                h@[c].ty,
            )->Ok_0 && type_of(values@[c]@) == h@[c].ty,
        decreases n - b,
    {
        proof {
            let j = choose|j: int| 0 <= j < hv.len() && hv[j] == h@[b as int].name@;
            lemma_last_naming_found(hv, h@[b as int].name@, m, j);
        }
        match &slots[b] {
            Some(v) => {
                proof {
                    lemma_str_scalar_type(fv[last_naming(hv, h@[b as int].name@, m)], h@[b as int].ty);
                }
                values.push(v.duplicate());
            },
            None => {
                assert(false);
            },
        }
        b = b + 1;
    }
    let row = Row { values };
    assert(row@ =~= Seq::new(h@.len(), |a: int| str_scalar(fv[last_naming(hv, h@[a].name@, m)], h@[a].ty)->Ok_0));
    Ok(row)
}

/// Whether some header is `n`.
fn names_column(headers: &Vec<String>, n: &String) -> (b: bool)
    ensures
        b == strings_view(headers@).contains(n@),
{
    let b = contains_key(headers, n);
    assert(views(headers@) =~= strings_view(headers@));
    b
}

/// Reads a relation over `heading` from delimited lines: the first line
/// names the columns, and each further line that is not blank gives a
/// tuple (see `csv_import`).
pub fn from_csv(lines: &Vec<String>, heading: Vec<Attribute>, delimiter: char) -> (r: Result<Relation, ImporterError>)
    requires
        sorted_names(heading@),
    ensures
        match r {
            Ok(rel) => rel.wf() && rel.heading@ == heading@ && csv_import(heading@, strings_view(lines@), delimiter)
                == Ok::<Set<Seq<ValueView>>, ImportFailure>(rel.tuple_set()),
            Err(e) => failure_of(e) matches Some(f) && csv_import(heading@, strings_view(lines@), delimiter)
                == Err::<Set<Seq<ValueView>>, ImportFailure>(f),
        },
{
    let ghost h = heading@;
    let ghost lv = strings_view(lines@);
    if lines.len() == 0 {
        return Err(ImporterError::FormatError("Empty CSV input".to_owned()));
    }
    let headers = parse_csv_line(lines[0].as_str(), delimiter);
    let ghost hv = strings_view(headers@);
    assert(hv == csv_fields(lv[0], delimiter));
    let mut a: usize = 0;
    while a < heading.len()
        invariant
            h == heading@,
            a <= h.len(),
            lv == strings_view(lines@),
            lv.len() > 0,
            hv == csv_fields(lv[0], delimiter),
            hv == strings_view(headers@),
            first_unnamed(h, hv, 0) == first_unnamed(h, hv, a as int),
            forall|c: int| 0 <= c < a ==> hv.contains((#[trigger] h[c]).name@),
        decreases h.len() - a,
    {
        if !names_column(&headers, &heading[a].name) {
            let mut msg = "Header missing attribute '".to_owned();
            push_str(&mut msg, heading[a].name.as_str());
            push_str(&mut msg, "'");
            assert(first_unnamed(h, hv, a as int) == Some(a as int));
            assert(msg@ == header_message(h[a as int].name@));
            assert(csv_import(h, lv, delimiter) == Err::<Set<Seq<ValueView>>, ImportFailure>(ImportFailure::Missing(msg@)));
            return Err(ImporterError::MissingValue(msg));
        }
        a = a + 1;
    }
    let mut relation = Relation::new(heading);
    let mut k: usize = 1;
    assert(relation.tuple_set() =~= Set::<Seq<ValueView>>::empty());
    while k < lines.len()
        invariant
            relation.wf(),
            relation.heading@ == h,
            h == heading@,
            hv == csv_fields(lv[0], delimiter),
            sorted_names(h),
            lv == strings_view(lines@),
            hv == strings_view(headers@),
            1 <= k <= lv.len(),
            forall|c: int| 0 <= c < h.len() ==> hv.contains((#[trigger] h[c]).name@),
            csv_import(h, lv, delimiter) == read_lines(h, hv, lv, delimiter, k as int, relation.tuple_set()),
        decreases lv.len() - k,
    {
        assert(lv[k as int] == lines@[k as int]@);
        if is_blank(lines[k].as_str()) {
            k = k + 1;
            continue;
        }
        let fields = parse_csv_line(lines[k].as_str(), delimiter);
        let ghost fv = strings_view(fields@);
        assert(fv == csv_fields(lv[k as int], delimiter));
        assert(fv.len() == fields@.len());
        if fields.len() != headers.len() {
            let mut msg = "Row ".to_owned();
            push_digits(&mut msg, k as u64);
            push_str(&mut msg, " has ");
            push_digits(&mut msg, fields.len() as u64);
            push_str(&mut msg, " fields, expected ");
            push_digits(&mut msg, headers.len() as u64);
            assert(msg@ == width_message(k as nat, fields@.len() as nat, headers@.len() as nat));
            assert(read_lines(h, hv, lv, delimiter, k as int, relation.tuple_set()) == Err::<Set<Seq<ValueView>>, ImportFailure>(ImportFailure::Format(msg@)));
            return Err(ImporterError::FormatError(msg));
        }
        match row_from_fields(&relation.heading, &headers, &fields) {
            Err(e) => {
                assert(read_lines(h, hv, lv, delimiter, k as int, relation.tuple_set()) == match row_result(h, hv, fv) {
                    Err(e) => Err(e),
                    Ok(r) => read_lines(h, hv, lv, delimiter, k + 1, relation.tuple_set().insert(r)),
                });
                return Err(e);
            },
            Ok(row) => {
                relation.insert(row);
            },
        }
        k = k + 1;
    }
    assert(read_lines(h, hv, lv, delimiter, k as int, relation.tuple_set()) == Ok::<Set<Seq<ValueView>>, ImportFailure>(relation.tuple_set()));
    Ok(relation)
}

/// A JSON number: what it reads as, where it is a 64-bit integer, and
/// its text.
#[derive(Debug)]
pub struct JsonNumber {
    pub as_i64: Option<i64>,
    pub as_u64: Option<u64>,
    pub text: String,
}

/// A JSON value as the importer reads it.
#[derive(Debug)]
pub enum JsonNode {
    Null,
    Bool(bool),
    Number(JsonNumber),
    String(String),
    Array(Vec<Json>),
    Object(Vec<(String, Json)>),
}

/// A JSON value with its debugging text, which messages quote.
#[derive(Debug)]
pub struct Json {
    pub node: JsonNode,
    pub debug: String,
}

/// The first element of `items`, from `i` on, that is no byte: the
/// message for it, or `None`.
pub open spec fn first_bad_byte(items: Seq<Json>, i: int) -> Option<Seq<char>>
    decreases items.len() - i,
{
    if i >= items.len() || i < 0 {
        None
    } else {
        match items[i].node {
            JsonNode::Number(n) => match n.as_u64 {
                Some(u) => if u <= 255 {
                    first_bad_byte(items, i + 1)
                } else {
                    Some("Byte value "@ + digits(u as nat) + " out of range"@)
                },
                None => Some("Invalid byte value "@ + items[i].debug@),
            },
            _ => Some("Invalid byte value "@ + items[i].debug@),
        }
    }
}

/// The bytes of elements that are all bytes.
pub open spec fn byte_values(items: Seq<Json>) -> Seq<u8> {
    Seq::new(items.len(), |i: int| (items[i].node->Number_0.as_u64->Some_0) as u8)
}

/// A JSON value read as a value of type `t`: an integer number as `Int`,
/// a string as `String`, a boolean as `Bool`, an array of numbers from 0 to
/// 255 as `Bytes`; anything else is refused with a message.
pub open spec fn json_scalar(v: Json, t: ScalarType) -> Result<ValueView, Seq<char>> {
    match (v.node, t) {
        (JsonNode::Number(n), ScalarType::Int) => match n.as_i64 {
            Some(i) => Ok(int_view(i as int)),
            None => Err("Value "@ + n.text@ + " is not a valid Int"@),
        },
        (JsonNode::String(s), ScalarType::String) => Ok(string_view(s@)),
        (JsonNode::Bool(b), ScalarType::Bool) => Ok(bool_view(b)),
        (JsonNode::Array(items), ScalarType::Bytes) => match first_bad_byte(items@, 0) {
            Some(m) => Err(m),
            None => Ok(bytes_view(byte_values(items@))),
        },
        _ => Err("Incompatible value "@ + v.debug@ + " for type "@ + type_label(t)),
    }
}

/// Reads a JSON value as a value of type `t`.
pub fn json_value_to_scalar(v: &Json, t: ScalarType) -> (r: Result<ScalarValue, String>)
    ensures
        match r {
            Ok(x) => json_scalar(*v, t) == Ok::<ValueView, Seq<char>>(x@),
            Err(m) => json_scalar(*v, t) == Err::<ValueView, Seq<char>>(m@),
        },
{
    match (&v.node, t) {
        (JsonNode::Number(n), ScalarType::Int) => match n.as_i64 {
            Some(i) => Ok(ScalarValue::Int(i)),
            None => {
                let mut m = "Value ".to_owned();
                push_str(&mut m, n.text.as_str());
                push_str(&mut m, " is not a valid Int");
                Err(m)
            },
        },
        (JsonNode::String(s), ScalarType::String) => Ok(ScalarValue::String(s.clone())),
        (JsonNode::Bool(b), ScalarType::Bool) => Ok(ScalarValue::Bool(*b)),
        (JsonNode::Array(items), ScalarType::Bytes) => {
            let mut bytes: Vec<u8> = Vec::new();
            let mut i: usize = 0;
            while i < items.len()
                invariant
                    v.node == JsonNode::Array(*items),
                    t == ScalarType::Bytes,
                    i <= items@.len(),
                    bytes@.len() == i,
                    first_bad_byte(items@, 0) == first_bad_byte(items@, i as int),
                    forall|k: int| 0 <= k < i ==> (#[trigger] bytes@[k]) == byte_values(items@)[k],
                decreases items@.len() - i,
            {
                match &items[i].node {
                    JsonNode::Number(n) => match n.as_u64 {
                        Some(u) => {
                            if u <= 255 {
                                bytes.push(u as u8);
                            } else {
                                let mut m = "Byte value ".to_owned();
                                push_digits(&mut m, u);
                                push_str(&mut m, " out of range");
                                assert(first_bad_byte(items@, i as int) == Some(m@));
                                return Err(m);
                            }
                        },
                        None => {
                            let mut m = "Invalid byte value ".to_owned();
                            push_str(&mut m, items[i].debug.as_str());
                            return Err(m);
                        },
                    },
                    _ => {
                        let mut m = "Invalid byte value ".to_owned();
                        push_str(&mut m, items[i].debug.as_str());
                        assert(first_bad_byte(items@, i as int) == Some(m@));
                        return Err(m);
                    },
                }
                i = i + 1;
            }
            assert(bytes@ =~= byte_values(items@));
            Ok(ScalarValue::Bytes(bytes))
        },
        _ => {
            let mut m = "Incompatible value ".to_owned();
            push_str(&mut m, v.debug.as_str());
            push_str(&mut m, " for type ");
            let label = type_label_of(t);
            push_str(&mut m, label.as_str());
            Err(m)
        },
    }
}

/// The value under key `n` among an object's entries, from `i` on.
pub open spec fn lookup(entries: Seq<(String, Json)>, n: Seq<char>, i: int) -> Option<Json>
    decreases entries.len() - i,
{
    if i >= entries.len() || i < 0 {
        None
    } else if entries[i].0@ == n {
        Some(entries[i].1)
    } else {
        lookup(entries, n, i + 1)
    }
}

/// What an object gives for attribute `a`: its value read as the
/// attribute's type, or why not.
pub open spec fn attr_outcome(h: Seq<Attribute>, entries: Seq<(String, Json)>, a: int) -> Result<ValueView, ImportFailure> {
    match lookup(entries, h[a].name@, 0) {
        None => Err(ImportFailure::Missing(h[a].name@)),
        Some(v) => match json_scalar(v, h[a].ty) {
            Ok(x) => Ok(x),
            Err(m) => Err(ImportFailure::Type(h[a].name@, type_label(h[a].ty), m)),
        },
    }
}

/// The first attribute, from `a` on, that the object does not give.
pub open spec fn first_bad_attr(h: Seq<Attribute>, entries: Seq<(String, Json)>, a: int) -> Option<int>
    decreases h.len() - a,
{
    if a >= h.len() || a < 0 {
        None
    } else if attr_outcome(h, entries, a) is Err {
        Some(a)
    } else {
        first_bad_attr(h, entries, a + 1)
    }
}

/// The tuple of an object, or the failure of its first attribute in
/// heading order.
pub open spec fn object_result(h: Seq<Attribute>, entries: Seq<(String, Json)>) -> Result<Seq<ValueView>, ImportFailure> {
    match first_bad_attr(h, entries, 0) {
        Some(a) => Err(attr_outcome(h, entries, a)->Err_0),
        None => Ok(Seq::new(h.len(), |a: int| attr_outcome(h, entries, a)->Ok_0)),
    }
}

/// Reads the array items from `k` on into the set `acc`.
pub open spec fn read_items(h: Seq<Attribute>, items: Seq<Json>, k: int, acc: Set<Seq<ValueView>>) -> Result<Set<Seq<ValueView>>, ImportFailure>
    decreases items.len() - k,
{
    if k >= items.len() || k < 0 {
        Ok(acc)
    } else {
        match items[k].node {
            JsonNode::Object(entries) => match object_result(h, entries@) {
                Err(e) => Err(e),
                Ok(r) => read_items(h, items, k + 1, acc.insert(r)),
            },
            _ => Err(ImportFailure::Format("Item at index "@ + digits(k as nat) + " is not an object"@)),
        }
    }
}

/// The relation read from a JSON document: an array of objects, one tuple
/// per object.
pub open spec fn json_import(h: Seq<Attribute>, root: Json) -> Result<Set<Seq<ValueView>>, ImportFailure> {
    match root.node {
        JsonNode::Array(items) => read_items(h, items@, 0, Set::empty()),
        _ => Err(ImportFailure::Format("JSON root must be an array"@)),
    }
}

/// The value under key `n` in an object.
fn find_entry<'a>(entries: &'a Vec<(String, Json)>, n: &String) -> (r: Option<&'a Json>)
    ensures
        match r {
            Some(v) => lookup(entries@, n@, 0) == Some(*v),
            None => lookup(entries@, n@, 0) is None,
        },
{
    let mut i: usize = 0;
    while i < entries.len()
        invariant
            i <= entries@.len(),
            lookup(entries@, n@, 0) == lookup(entries@, n@, i as int),
        decreases entries@.len() - i,
    {
        if entries[i].0 == *n {
            return Some(&entries[i].1);
        }
        i = i + 1;
    }
    None
}

/// The tuple of an object.
fn object_to_row(h: &Vec<Attribute>, entries: &Vec<(String, Json)>) -> (r: Result<Row, ImporterError>)
    ensures
        match r {
            Ok(row) => fits_heading(h@, row) && object_result(h@, entries@) == Ok::<Seq<ValueView>, ImportFailure>(row@),
            Err(e) => failure_of(e) matches Some(f) && object_result(h@, entries@) == Err::<Seq<ValueView>, ImportFailure>(f),
        },
{
    let mut values: Vec<ScalarValue> = Vec::new();
    let mut a: usize = 0;
    while a < h.len()
        invariant
            a <= h@.len(),
            values@.len() == a,
            first_bad_attr(h@, entries@, 0) == first_bad_attr(h@, entries@, a as int),
            forall|c: int| 0 <= c < a ==> attr_outcome(h@, entries@, c) == Ok::<ValueView, ImportFailure>((#[trigger] values@[c])@)
                && type_of(values@[c]@) == h@[c].ty,
        decreases h@.len() - a,
    {
        let name = &h[a].name;
        let t = h[a].ty;
        match find_entry(entries, name) {
            None => {
                assert(attr_outcome(h@, entries@, a as int) is Err);
                return Err(ImporterError::MissingValue(name.clone()));
            },
            Some(v) => match json_value_to_scalar(v, t) {
                Ok(x) => {
                    assert(type_of(x@) == t) by {
                        assert(json_scalar(*v, t) == Ok::<ValueView, Seq<char>>(x@));
                    }
                    values.push(x);
                },
                Err(m) => {
                    assert(attr_outcome(h@, entries@, a as int) is Err);
                    let label = type_label_of(t);
                    return Err(ImporterError::TypeError(name.clone(), label, m));
                },
            },
        }
        a = a + 1;
    }
    let row = Row { values };
    assert(row@ =~= Seq::new(h@.len(), |c: int| attr_outcome(h@, entries@, c)->Ok_0));
    Ok(row)
}

/// Reads a relation over `heading` from a JSON document: an array of
/// objects, each giving a value for every attribute (see `json_import`).
pub fn from_json_value(root: &Json, heading: Vec<Attribute>) -> (r: Result<Relation, ImporterError>)
    requires
        sorted_names(heading@),
    ensures
        match r {
            Ok(rel) => rel.wf() && rel.heading@ == heading@ && json_import(heading@, *root)
                == Ok::<Set<Seq<ValueView>>, ImportFailure>(rel.tuple_set()),
            Err(e) => failure_of(e) matches Some(f) && json_import(heading@, *root)
                == Err::<Set<Seq<ValueView>>, ImportFailure>(f),
        },
{
    let ghost h = heading@;
    let items = match &root.node {
        JsonNode::Array(items) => items,
        _ => {
            return Err(ImporterError::FormatError("JSON root must be an array".to_owned()));
        },
    };
    let mut relation = Relation::new(heading);
    assert(relation.tuple_set() =~= Set::<Seq<ValueView>>::empty());
    let mut k: usize = 0;
    while k < items.len()
        invariant
            relation.wf(),
            relation.heading@ == h,
            h == heading@,
            root.node == JsonNode::Array(*items),
            k <= items@.len(),
            json_import(h, *root) == read_items(h, items@, k as int, relation.tuple_set()),
        decreases items@.len() - k,
    {
        match &items[k].node {
            JsonNode::Object(entries) => match object_to_row(&relation.heading, entries) {
                Err(e) => {
                    return Err(e);
                },
                Ok(row) => {
                    relation.insert(row);
                },
            },
            _ => {
                let mut m = "Item at index ".to_owned();
                push_digits(&mut m, k as u64);
                push_str(&mut m, " is not an object");
                return Err(ImporterError::FormatError(m));
            },
        }
        k = k + 1;
    }
    Ok(relation)
}

/// The value type of `serde_json`, carried through unchanged.
#[verifier::external_type_specification]
#[verifier::external_body]
pub struct ExJsonValue(serde_json::Value);

/// The JSON document that `serde_json` reads from `bytes`, taken into the
/// importer's model, or `None` where `serde_json` refuses the bytes.
pub uninterp spec fn json_document(bytes: Seq<u8>) -> Option<Json>;

/// A `serde_json` value in the importer's model, variant for variant: a
/// number with its readings as `i64` and `u64` and its text, every value
/// with its `Debug` text.
#[verifier::external_body]
fn json_model(v: &serde_json::Value) -> Json {
    let node = match v {
        serde_json::Value::Null => JsonNode::Null,
        serde_json::Value::Bool(b) => JsonNode::Bool(*b),
        serde_json::Value::Number(n) => JsonNode::Number(JsonNumber { as_i64: n.as_i64(), as_u64: n.as_u64(), text: n.to_string() }),
        serde_json::Value::String(t) => JsonNode::String(t.clone()),
        serde_json::Value::Array(items) => JsonNode::Array(items.iter().map(json_model).collect()),
        serde_json::Value::Object(m) => JsonNode::Object(m.iter().map(|(k, x)| (k.clone(), json_model(x))).collect()),
    };
    Json { node, debug: format!("{:?}", v) }
}

/// `serde_json::from_slice::<serde_json::Value>`: the document that the
/// bytes hold, in the importer's model (the name `json_document` stands for
/// it), or the parser's error where the bytes are no JSON document.
#[verifier::external_body]
fn parse_json(bytes: &[u8]) -> (r: Result<Json, serde_json::Error>)
    ensures
        r is Ok <==> json_document(bytes@) is Some,
        r matches Ok(j) ==> json_document(bytes@) == Some(j),
{
    match serde_json::from_slice::<serde_json::Value>(bytes) {
        Ok(v) => Ok(json_model(&v)),
        Err(e) => Err(e),
    }
}

/// Reads a relation over `heading` from the bytes of a JSON document: the
/// parser's error where the bytes are no JSON document, else what
/// `from_json_value` reads from the document.
pub fn from_json(bytes: &[u8], heading: Vec<Attribute>) -> (r: Result<Relation, ImporterError>)
    requires
        sorted_names(heading@),
    ensures
        json_document(bytes@) is None ==> r matches Err(ImporterError::JsonError(_)),
        json_document(bytes@) matches Some(root) ==> match r {
            Ok(rel) => rel.wf() && rel.heading@ == heading@ && json_import(heading@, root)
                == Ok::<Set<Seq<ValueView>>, ImportFailure>(rel.tuple_set()),
            Err(e) => failure_of(e) matches Some(f) && json_import(heading@, root)
                == Err::<Set<Seq<ValueView>>, ImportFailure>(f),
        },
{
    match parse_json(bytes) {
        Err(e) => Err(ImporterError::JsonError(e)),
        Ok(root) => from_json_value(&root, heading),
    }
}

proof fn lemma_digit_char(d: int)
    requires
        0 <= d < 10,
    ensures
        is_digit(crate::text::digit_char(d)),
        digit_value(crate::text::digit_char(d)) == d,
{
}

proof fn lemma_digits_shape(m: nat)
    ensures
        digits(m).len() >= 1,
        is_digit(digits(m)[0]),
    decreases m,
{
    if m < 10 {
        lemma_digit_char(m as int);
    } else {
        lemma_digits_shape(m / 10);
        assert(digits(m)[0] == digits(m / 10)[0]);
    }
}

/// Reading the decimal digits of `m` from zero gives `m` (or `-m`).
proof fn lemma_read_digits(m: nat, rest: Seq<char>, neg: bool)
    requires
        neg ==> -m >= i64::MIN,
        !neg ==> m <= i64::MAX,
    ensures
        read_digits(digits(m) + rest, neg, 0) == read_digits(rest, neg, if neg { -m } else { m as int }),
    decreases m,
{
    if m < 10 {
        let c = crate::text::digit_char(m as int);
        lemma_digit_char(m as int);
        let input = digits(m) + rest;
        assert(input[0] == c);
        assert(input.drop_first() =~= rest);
    } else {
        let q = m / 10;
        let d = (m % 10) as int;
        let c = crate::text::digit_char(d);
        lemma_digit_char(d);
        let rest2 = seq![c] + rest;
        assert(digits(m) + rest =~= digits(q) + rest2);
        lemma_read_digits(q, rest2, neg);
        assert(q * 10 + d == m) by (nonlinear_arith)
            requires
                q == m / 10,
                d == m % 10,
        ;
        assert(rest2[0] == c);
        assert(rest2.drop_first() =~= rest);
    }
}

/// Integers read back from their decimal text: `str::parse::<i64>` of
/// `n.to_string()` is `n`, for every `i64`.
pub proof fn law_int_text_round_trip(n: i64)
    ensures
        parse_i64(decimal(n as int)) == Ok::<int, Seq<char>>(n as int),
{
    let s = decimal(n as int);
    if n < 0 {
        let m = (-n) as nat;
        lemma_digits_shape(m);
        lemma_read_digits(m, Seq::empty(), true);
        assert(digits(m) + Seq::<char>::empty() =~= digits(m));
        assert(s.drop_first() =~= digits(m));
        assert(s[0] == '-');
    } else {
        let m = n as nat;
        lemma_digits_shape(m);
        lemma_read_digits(m, Seq::empty(), false);
        assert(digits(m) + Seq::<char>::empty() =~= digits(m));
        assert(s[0] != '+' && s[0] != '-');
    }
}

/// The text of a value, as it is written out: integers in decimal,
/// booleans as `true` or `false`, strings as they are.
pub open spec fn value_text(v: ValueView) -> Seq<char> {
    if v.0 == 0 {
        decimal(v.1 as int)
    } else if v.0 == 1 {
        crate::text::bool_text(v.2)
    } else {
        v.3
    }
}

/// Reading a value's own text as its type gives the value back, for
/// integers, booleans and strings; `true` and `false` read as those
/// booleans.
pub proof fn law_scalar_text_round_trip(v: ValueView)
    requires
        crate::relation::well_formed_value(v),
        v.0 != 3,
    ensures
        str_scalar(value_text(v), type_of(v)) == Ok::<ValueView, Seq<char>>(v),
        str_scalar("true"@, ScalarType::Bool) == Ok::<ValueView, Seq<char>>(bool_view(true)),
        str_scalar("false"@, ScalarType::Bool) == Ok::<ValueView, Seq<char>>(bool_view(false)),
        crate::text::bool_text(true) == "true"@,
        crate::text::bool_text(false) == "false"@,
{
    reveal_strlit("true");
    reveal_strlit("false");
    assert(crate::text::bool_text(true) =~= "true"@);
    assert(crate::text::bool_text(false) =~= "false"@);
    assert("true"@ != "false"@) by {
        assert("true"@.len() != "false"@.len());
    }
    if v.0 == 0 {
        law_int_text_round_trip(v.1);
        assert(int_view(v.1 as int) == v);
    } else if v.0 == 1 {
        assert(bool_view(v.2) == v);
    } else {
        assert(string_view(v.3) == v);
    }
}

} // verus!
