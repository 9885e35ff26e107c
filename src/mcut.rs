//! The selection compiler (tokens, references, plan) and the record projector.

use vstd::prelude::*;
use vstd::slice::{slice_subrange, slice_to_vec};
use vstd::string::*;
use vstd::utf8::*;

use crate::split::{
    field_slices, first_position, lemma_first_position, lemma_first_position_bound,
    field_spans, is_field_span, lemma_split_fields_len, next_delimiter, slice_views, split_fields,
};
use crate::text::{split_str, substr};
use crate::util::joined;

verus! {

/// Separates the tokens of a selection.
pub const COMMA: u8 = 0x2c;

/// Separates a token's column part from its default.
pub const COLON: u8 = 0x3a;

/// Doubled, separates the two ends of a range.
pub const DOT: u8 = 0x2e;

/// Ends a record.
pub const NEWLINE: u8 = 0x0a;

// ---------------------------------------------------------------------------
// Tokens

/// The three parts of a token: the column part's start, the end when the column
/// part is a range, and the default when the token has one.
pub struct TokenView {
    pub start: Seq<u8>,
    pub end: Option<Seq<u8>>,
    pub default: Option<Seq<u8>>,
}

/// Index of the first `x` immediately followed by `y` in `s`, or `s.len()`.
pub open spec fn pair_position(s: Seq<u8>, x: u8, y: u8) -> nat
    decreases s.len(),
{
    if s.len() < 2 {
        s.len()
    } else if s[0] == x && s[1] == y {
        0
    } else {
        1 + pair_position(s.drop_first(), x, y)
    }
}

/// A token split at its first `:` into column part and default, and the column
/// part split at its first `..` into start and end.
pub open spec fn token_of(t: Seq<u8>) -> TokenView {
    let c = first_position(t, COLON) as int;
    let col = t.subrange(0, c);
    let default = if c < t.len() {
        Some(t.subrange(c + 1, t.len() as int))
    } else {
        None
    };
    let r = pair_position(col, DOT, DOT) as int;
    if r < col.len() {
        TokenView { start: col.subrange(0, r), end: Some(col.subrange(r + 2, col.len() as int)), default }
    } else {
        TokenView { start: col, end: None, default }
    }
}

/// The tokens of a selection: its pieces between commas.
pub open spec fn tokens_of(selection: Seq<u8>) -> Seq<Seq<u8>> {
    split_fields(selection, COMMA)
}

/// `x` stands at `j` in `s` and `y` right after it.
pub open spec fn pair_at(s: Seq<u8>, j: int, x: u8, y: u8) -> bool {
    s[j] == x && s[j + 1] == y
}

/// `pair_position` is the index of the first pair, and `s.len()` when there is none.
pub proof fn lemma_pair_position(s: Seq<u8>, x: u8, y: u8, i: int)
    requires
        0 <= i <= s.len(),
        i < s.len() ==> i + 1 < s.len() && s[i] == x && s[i + 1] == y,
        forall|j: int| 0 <= j < i && j + 1 < s.len() ==> !#[trigger] pair_at(s, j, x, y),
    ensures
        pair_position(s, x, y) == i,
    decreases s.len(),
{
    if s.len() >= 2 && !(s[0] == x && s[1] == y) {
        let t = s.drop_first();
        assert forall|j: int| 0 <= j < i - 1 && j + 1 < t.len() implies !pair_at(t, j, x, y) by {
            assert(t[j] == s[j + 1] && t[j + 1] == s[j + 2]);
            assert(!pair_at(s, j + 1, x, y));
        }
        lemma_pair_position(t, x, y, i - 1);
    } else if s.len() >= 2 && i > 0 {
        assert(pair_at(s, 0, x, y));
    }
}

/// The index of the first `x` immediately followed by `y` in `s`, or `s.len()`.
fn find_pair(s: &[u8], x: u8, y: u8) -> (r: usize)
    ensures
        r == pair_position(s@, x, y),
        r <= s@.len(),
        r < s@.len() ==> r + 1 < s@.len() && pair_at(s@, r as int, x, y),
{
    let mut i: usize = 0;
    while s.len() - i >= 2
        invariant
            i <= s@.len(),
            forall|j: int| 0 <= j < i && j + 1 < s@.len() ==> !#[trigger] pair_at(s@, j, x, y),
        decreases s@.len() - i,
    {
        if s[i] == x && s[i + 1] == y {
            proof {
                lemma_pair_position(s@, x, y, i as int);
            }
            return i;
        }
        i = i + 1;
    }
    proof {
        lemma_pair_position(s@, x, y, s@.len() as int);
    }
    s.len()
}

/// Splits a token into start, optional end and optional default.
fn split_token(field: &str) -> (r: (&str, Option<&str>, Option<Vec<u8>>))
    ensures
        r.0.spec_bytes() == token_of(field.spec_bytes()).start,
        match (r.1, token_of(field.spec_bytes()).end) {
            (Some(e), Some(f)) => e.spec_bytes() == f,
            (None, None) => true,
            _ => false,
        },
        match (r.2, token_of(field.spec_bytes()).default) {
            (Some(e), Some(f)) => e@ == f,
            (None, None) => true,
            _ => false,
        },
{
    let bytes = field.as_bytes();
    let ghost t = bytes@;
    let c = next_delimiter(bytes, 0, COLON);
    proof {
        assert(t.subrange(0, t.len() as int) =~= t);
        lemma_first_position_bound(t, COLON);
        assert(c == first_position(t, COLON));
    }
    let col = substr(field, 0, c);
    let default = if c < bytes.len() {
        let d = substr(field, c + 1, bytes.len());
        Some(slice_to_vec(d.as_bytes()))
    } else {
        None
    };
    let cb = col.as_bytes();
    let ghost tok = token_of(t);
    assert(cb@ == t.subrange(0, c as int));
    assert(match (default, tok.default) {
        (Some(e), Some(f)) => e@ == f,
        (None, None) => true,
        _ => false,
    });
    let r = find_pair(cb, DOT, DOT);
    if r < cb.len() {
        proof {
            assert(cb@[r + 1] == DOT);
        }
        let start = substr(col, 0, r);
        let end = substr(col, r + 2, cb.len());
        assert(start.spec_bytes() == tok.start);
        (start, Some(end), default)
    } else {
        assert(col.spec_bytes() == tok.start);
        (col, None, default)
    }
}

// ---------------------------------------------------------------------------
// References

/// What goes wrong while compiling a selection or projecting a record.
#[derive(Debug, PartialEq, Eq)]
pub enum CutError {
    /// A reference names no column: it is neither an index below the header's
    /// width nor, where names are looked up, a name of the header.
    FieldNotFound(Vec<u8>),
    /// A record has fewer fields than the plan reads.
    IndexOutOfBounds,
}

/// An ASCII decimal digit.
pub open spec fn is_digit(b: u8) -> bool {
    0x30 <= b <= 0x39
}

/// A non-empty run of decimal digits.
pub open spec fn is_numeral(s: Seq<u8>) -> bool {
    s.len() > 0 && forall|i: int| 0 <= i < s.len() ==> is_digit(#[trigger] s[i])
}

/// The number that a run of decimal digits denotes.
pub open spec fn numeral_value(s: Seq<u8>) -> int
    decreases s.len(),
{
    if s.len() == 0 {
        0
    } else {
        10 * numeral_value(s.drop_last()) + (s.last() - 0x30)
    }
}

/// The three-byte UTF-8 encodings of White_Space characters: U+1680,
/// U+2000 to U+200A, U+2028, U+2029, U+202F, U+205F and U+3000.
pub open spec fn is_space3(a: u8, b: u8, c: u8) -> bool {
    ||| (a == 0xe1 && b == 0x9a && c == 0x80)
    ||| (a == 0xe2 && b == 0x80 && ((0x80 <= c <= 0x8a) || c == 0xa8 || c == 0xa9 || c == 0xaf))
    ||| (a == 0xe2 && b == 0x81 && c == 0x9f)
    ||| (a == 0xe3 && b == 0x80 && c == 0x80)
}

/// The width of the UTF-8 encoded White_Space character (`char::is_whitespace`)
/// that `r` starts with, or `0`. Besides the three-byte ones of [`is_space3`],
/// these are U+0009 to U+000D and U+0020 (one byte), U+0085 and U+00A0 (two).
pub open spec fn leading_space_width(r: Seq<u8>) -> nat {
    if r.len() >= 1 && ((0x09 <= r[0] <= 0x0d) || r[0] == 0x20) {
        1
    } else if r.len() >= 2 && r[0] == 0xc2 && (r[1] == 0x85 || r[1] == 0xa0) {
        2
    } else if r.len() >= 3 && is_space3(r[0], r[1], r[2]) {
        3
    } else {
        0
    }
}

/// The width of the UTF-8 encoded White_Space character that `r` ends with, or `0`.
pub open spec fn trailing_space_width(r: Seq<u8>) -> nat {
    let n = r.len() as int;
    if n >= 1 && ((0x09 <= r[n - 1] <= 0x0d) || r[n - 1] == 0x20) {
        1
    } else if n >= 2 && r[n - 2] == 0xc2 && (r[n - 1] == 0x85 || r[n - 1] == 0xa0) {
        2
    } else if n >= 3 && is_space3(r[n - 3], r[n - 2], r[n - 1]) {
        3
    } else {
        0
    }
}

/// `r` without its leading White_Space characters.
pub open spec fn trim_start(r: Seq<u8>) -> Seq<u8>
    decreases r.len(),
{
    let w = leading_space_width(r);
    if 0 < w <= r.len() {
        trim_start(r.subrange(w as int, r.len() as int))
    } else {
        r
    }
}

/// `r` without its trailing White_Space characters.
pub open spec fn trim_end(r: Seq<u8>) -> Seq<u8>
    decreases r.len(),
{
    let w = trailing_space_width(r);
    if 0 < w <= r.len() {
        trim_end(r.subrange(0, r.len() - w))
    } else {
        r
    }
}

/// The text of a reference read as an index: without surrounding White_Space
/// and without one leading `+`, as `str::trim` and `usize::from_str` take it.
pub open spec fn index_text(r: Seq<u8>) -> Seq<u8> {
    let t = trim_end(trim_start(r));
    if t.len() > 0 && t[0] == 0x2b {
        t.drop_first()
    } else {
        t
    }
}

/// A bare numeral is its own index text.
pub proof fn lemma_index_text_of_numeral(r: Seq<u8>)
    requires
        is_numeral(r),
    ensures
        index_text(r) == r,
{
    assert(is_digit(r[0]));
    assert(is_digit(r[r.len() - 1]));
    assert(trim_start(r) == r);
    assert(trim_end(r) == r);
}

/// The UTF-8 bytes of a sequence of strings.
pub open spec fn str_views(v: Seq<&str>) -> Seq<Seq<u8>> {
    v.map_values(|p: &str| p.spec_bytes())
}

/// The column that reference `r` denotes in `header`: an index below the
/// header's width first (read from the index text of `r`), then, where names
/// are looked up, the first column whose name is `r` exactly.
pub open spec fn lookup(r: Seq<u8>, header: Seq<Seq<u8>>, by_name: bool) -> Option<int> {
    let n = index_text(r);
    if is_numeral(n) && numeral_value(n) < header.len() {
        Some(numeral_value(n))
    } else if by_name && first_position(header, r) < header.len() {
        Some(first_position(header, r) as int)
    } else {
        None
    }
}

/// A reference resolved as the start (inclusive) or the end (exclusive) of a
/// range: an empty start is `0`, an empty end is the header's width, and an end
/// lies one past the column it denotes.
pub open spec fn resolve_bound(r: Seq<u8>, header: Seq<Seq<u8>>, by_name: bool, is_start: bool) -> Option<int> {
    if r.len() == 0 {
        if is_start {
            Some(0)
        } else {
            Some(header.len() as int)
        }
    } else {
        match lookup(r, header, by_name) {
            Some(i) => Some(if is_start { i } else { i + 1 }),
            None => None,
        }
    }
}

/// A run of digits denotes a non-negative number.
pub proof fn lemma_numeral_value_nonneg(s: Seq<u8>)
    requires
        forall|i: int| 0 <= i < s.len() ==> is_digit(#[trigger] s[i]),
    ensures
        numeral_value(s) >= 0,
    decreases s.len(),
{
    if s.len() > 0 {
        lemma_numeral_value_nonneg(s.drop_last());
    }
}

/// A prefix of a run of digits denotes no more than the whole run.
proof fn lemma_numeral_value_prefix(s: Seq<u8>, i: int)
    requires
        0 <= i <= s.len(),
        forall|j: int| 0 <= j < s.len() ==> is_digit(#[trigger] s[j]),
    ensures
        numeral_value(s.take(i)) <= numeral_value(s),
    decreases s.len(),
{
    if i < s.len() {
        let t = s.drop_last();
        assert(t.take(i) =~= s.take(i));
        lemma_numeral_value_prefix(t, i);
        lemma_numeral_value_nonneg(t);
    } else {
        assert(s.take(i) =~= s);
    }
}

/// The number that `s` denotes when it is a numeral below `bound`.
fn parse_index(s: &[u8], bound: usize) -> (r: Option<usize>)
    ensures
        match r {
            Some(v) => is_numeral(s@) && numeral_value(s@) < bound && v == numeral_value(s@),
            None => !(is_numeral(s@) && numeral_value(s@) < bound),
        },
{
    if s.len() == 0 || bound == 0 {
        proof {
            if is_numeral(s@) {
                lemma_numeral_value_nonneg(s@);
            }
        }
        return None;
    }
    let mut v: u128 = 0;
    let mut i: usize = 0;
    assert(s@.take(0) =~= Seq::<u8>::empty());
    while i < s.len()
        invariant
            i <= s@.len(),
            forall|j: int| 0 <= j < i ==> is_digit(#[trigger] s@[j]),
            v == numeral_value(s@.take(i as int)),
            v < bound,
        decreases s@.len() - i,
    {
        let b = s[i];
        if b < 0x30 || b > 0x39 {
            return None;
        }
        let ghost prefix = s@.take(i as int + 1);
        assert(prefix.drop_last() =~= s@.take(i as int));
        v = v * 10 + (b - 0x30) as u128;
        i = i + 1;
        if v >= bound as u128 {
            proof {
                if is_numeral(s@) {
                    lemma_numeral_value_prefix(s@, i as int);
                }
            }
            return None;
        }
    }
    assert(s@.take(i as int) =~= s@);
    Some(v as usize)
}

/// Whether two byte strings are equal.
fn bytes_eq(a: &[u8], b: &[u8]) -> (r: bool)
    ensures
        r == (a@ == b@),
{
    if a.len() != b.len() {
        return false;
    }
    let mut i: usize = 0;
    while i < a.len()
        invariant
            a@.len() == b@.len(),
            i <= a@.len(),
            forall|j: int| 0 <= j < i ==> a@[j] == b@[j],
        decreases a@.len() - i,
    {
        if a[i] != b[i] {
            return false;
        }
        i = i + 1;
    }
    assert(a@ =~= b@);
    true
}

/// The index of the first name of `header` equal to `name`, or the header's width.
fn find_name(header: &[&[u8]], name: &[u8]) -> (r: usize)
    ensures
        r == first_position(slice_views(header@), name@),
{
    let ghost names = slice_views(header@);
    let mut i: usize = 0;
    while i < header.len()
        invariant
            names == slice_views(header@),
            i <= header@.len(),
            forall|j: int| 0 <= j < i ==> names[j] != name@,
        decreases header@.len() - i,
    {
        if bytes_eq(header[i], name) {
            proof {
                lemma_first_position(names, name@, i as int);
            }
            return i;
        }
        i = i + 1;
    }
    proof {
        lemma_first_position(names, name@, i as int);
    }
    header.len()
}

/// The width of the White_Space character that `r` starts with, or `0`.
fn leading_width(r: &[u8]) -> (w: usize)
    ensures
        w == leading_space_width(r@),
{
    let n = r.len();
    if n >= 1 && ((0x09 <= r[0] && r[0] <= 0x0d) || r[0] == 0x20) {
        1
    } else if n >= 2 && r[0] == 0xc2 && (r[1] == 0x85 || r[1] == 0xa0) {
        2
    } else if n >= 3 && space3(r[0], r[1], r[2]) {
        3
    } else {
        0
    }
}

/// The width of the White_Space character that `r` ends with, or `0`.
fn trailing_width(r: &[u8]) -> (w: usize)
    ensures
        w == trailing_space_width(r@),
{
    let n = r.len();
    if n >= 1 && ((0x09 <= r[n - 1] && r[n - 1] <= 0x0d) || r[n - 1] == 0x20) {
        1
    } else if n >= 2 && r[n - 2] == 0xc2 && (r[n - 1] == 0x85 || r[n - 1] == 0xa0) {
        2
    } else if n >= 3 && space3(r[n - 3], r[n - 2], r[n - 1]) {
        3
    } else {
        0
    }
}

fn space3(a: u8, b: u8, c: u8) -> (r: bool)
    ensures
        r == is_space3(a, b, c),
{
    (a == 0xe1 && b == 0x9a && c == 0x80) || (a == 0xe2 && b == 0x80 && ((0x80 <= c && c <= 0x8a)
        || c == 0xa8 || c == 0xa9 || c == 0xaf)) || (a == 0xe2 && b == 0x81 && c == 0x9f) || (a
        == 0xe3 && b == 0x80 && c == 0x80)
}

/// `r` without surrounding White_Space characters.
fn trim_spaces(r: &[u8]) -> (t: &[u8])
    ensures
        t@ == trim_end(trim_start(r@)),
{
    let mut s = r;
    loop
        invariant
            trim_start(s@) == trim_start(r@),
        ensures
            trim_start(s@) == s@,
        decreases s@.len(),
    {
        let w = leading_width(s);
        if w == 0 || w > s.len() {
            break;
        }
        s = slice_subrange(s, w, s.len());
    }
    let ghost front = s@;
    loop
        invariant
            trim_end(s@) == trim_end(front),
        ensures
            trim_end(s@) == s@,
        decreases s@.len(),
    {
        let w = trailing_width(s);
        if w == 0 || w > s.len() {
            break;
        }
        s = slice_subrange(s, 0, s.len() - w);
    }
    s
}

/// The index that reference `r` denotes when its index text is a numeral below
/// `bound`.
fn numeric_index(r: &[u8], bound: usize) -> (res: Option<usize>)
    ensures
        match res {
            Some(v) => is_numeral(index_text(r@)) && numeral_value(index_text(r@)) < bound && v
                == numeral_value(index_text(r@)),
            None => !(is_numeral(index_text(r@)) && numeral_value(index_text(r@)) < bound),
        },
{
    let t = trim_spaces(r);
    let n = if t.len() > 0 && t[0] == 0x2b {
        slice_subrange(t, 1, t.len())
    } else {
        t
    };
    assert(n@ =~= index_text(r@));
    parse_index(n, bound)
}

/// The column that reference `r` denotes in `header`.
fn lookup_index(r: &[u8], header: &[&[u8]], by_name: bool) -> (res: Option<usize>)
    ensures
        match res {
            Some(i) => lookup(r@, slice_views(header@), by_name) == Some(i as int) && i < header.len(),
            None => lookup(r@, slice_views(header@), by_name) is None,
        },
{
    match numeric_index(r, header.len()) {
        Some(i) => Some(i),
        None => {
            if by_name {
                let i = find_name(header, r);
                if i < header.len() {
                    Some(i)
                } else {
                    None
                }
            } else {
                None
            }
        },
    }
}

/// Resolves a reference as the start or the end of a range over `header`.
fn resolve_index(r: &[u8], header: &[&[u8]], by_name: bool, is_start: bool) -> (res: Option<usize>)
    ensures
        match res {
            Some(i) => resolve_bound(r@, slice_views(header@), by_name, is_start) == Some(i as int),
            None => resolve_bound(r@, slice_views(header@), by_name, is_start) is None,
        },
{
    if r.len() == 0 {
        return if is_start {
            Some(0)
        } else {
            Some(header.len())
        };
    }
    match lookup_index(r, header, by_name) {
        Some(i) => Some(if is_start { i } else { i + 1 }),
        None => None,
    }
}

/// The bytes of each string.
fn names_of<'a>(header: &[&'a str]) -> (r: Vec<&'a [u8]>)
    ensures
        slice_views(r@) == str_views(header@),
{
    let mut r: Vec<&'a [u8]> = Vec::new();
    let mut i: usize = 0;
    while i < header.len()
        invariant
            i <= header@.len(),
            r@.len() == i,
            forall|j: int| 0 <= j < i ==> (#[trigger] r@[j])@ == header@[j].spec_bytes(),
        decreases header@.len() - i,
    {
        r.push(header[i].as_bytes());
        i = i + 1;
    }
    assert(slice_views(r@) =~= str_views(header@));
    r
}

/// The error for a reference that names no column.
fn not_found(r: &[u8]) -> (e: CutError)
    ensures
        e matches CutError::FieldNotFound(n) && n@ == r@,
{
    CutError::FieldNotFound(slice_to_vec(r))
}

// ---------------------------------------------------------------------------
// Columns and plans

/// One output column: the field of index `idx` of each record, or the literal
/// `default` in its place (then `idx` is `0` and no field is read). `name` is the
/// column's label in an echoed header.
#[derive(PartialEq, Debug)]
pub struct Column {
    pub idx: usize,
    pub default: Option<Vec<u8>>,
    pub name: Vec<u8>,
}

/// The mathematical value of a [`Column`].
pub struct ColumnView {
    pub idx: int,
    pub default: Option<Seq<u8>>,
    pub name: Seq<u8>,
}

/// The view of an optional byte vector.
pub open spec fn opt_view(o: Option<Vec<u8>>) -> Option<Seq<u8>> {
    match o {
        Some(v) => Some(v@),
        None => None,
    }
}

impl View for Column {
    type V = ColumnView;

    open spec fn view(&self) -> ColumnView {
        ColumnView { idx: self.idx as int, default: opt_view(self.default), name: self.name@ }
    }
}

impl Column {
    pub fn new(idx: usize, default: Option<Vec<u8>>, name: Vec<u8>) -> (r: Self)
        ensures
            r.idx == idx,
            r.default == default,
            r.name == name,
    {
        Column { idx, default, name }
    }
}

/// The views of a sequence of columns.
pub open spec fn column_views(v: Seq<Column>) -> Seq<ColumnView> {
    v.map_values(|c: Column| c@)
}

/// The header label of column `i`: its name where names are looked up, else empty.
pub open spec fn display(header: Seq<Seq<u8>>, i: int, by_name: bool) -> Seq<u8> {
    if by_name {
        header[i]
    } else {
        seq![]
    }
}

/// The columns `[a, b)` of a range, each reading its field or emitting `default`.
pub open spec fn range_columns(
    a: int,
    b: int,
    default: Option<Seq<u8>>,
    header: Seq<Seq<u8>>,
    by_name: bool,
) -> Seq<ColumnView> {
    Seq::new(
        if a < b { (b - a) as nat } else { 0 },
        |k: int|
            ColumnView {
                idx: if default is Some { 0 } else { a + k },
                default,
                name: display(header, a + k, by_name),
            },
    )
}

/// The columns that one token stands for, or the reference that fails to resolve.
/// A single reference with a default is a literal labelled by the reference,
/// which is never resolved. A single reference without one resolves by
/// [`lookup`], so an empty one names a column only where the header has an
/// empty name; the empty-means-open rule of [`resolve_bound`] is for range ends.
pub open spec fn token_columns(t: TokenView, header: Seq<Seq<u8>>, by_name: bool) -> Result<Seq<ColumnView>, Seq<u8>> {
    match t.end {
        None => match t.default {
            Some(d) => Ok(
                seq![ColumnView { idx: 0, default: Some(d), name: if by_name { t.start } else { seq![] } }],
            ),
            None => match lookup(t.start, header, by_name) {
                Some(i) => Ok(seq![ColumnView { idx: i, default: None, name: display(header, i, by_name) }]),
                None => Err(t.start),
            },
        },
        Some(e) => match resolve_bound(t.start, header, by_name, true) {
            None => Err(t.start),
            Some(a) => match resolve_bound(e, header, by_name, false) {
                None => Err(e),
                Some(b) => Ok(range_columns(a, b, t.default, header, by_name)),
            },
        },
    }
}

/// The plan of a sequence of tokens: their columns in order, or the first
/// reference that fails to resolve.
pub open spec fn plan_of(tokens: Seq<Seq<u8>>, header: Seq<Seq<u8>>, by_name: bool) -> Result<Seq<ColumnView>, Seq<u8>>
    decreases tokens.len(),
{
    if tokens.len() == 0 {
        Ok(seq![])
    } else {
        match plan_of(tokens.drop_last(), header, by_name) {
            Err(e) => Err(e),
            Ok(p) => match token_columns(token_of(tokens.last()), header, by_name) {
                Err(e) => Err(e),
                Ok(c) => Ok(p + c),
            },
        }
    }
}

/// Once a prefix of the tokens fails, the whole plan fails with the same reference.
proof fn lemma_plan_prefix_err(tokens: Seq<Seq<u8>>, k: int, header: Seq<Seq<u8>>, by_name: bool)
    requires
        0 <= k <= tokens.len(),
        plan_of(tokens.take(k), header, by_name) is Err,
    ensures
        plan_of(tokens, header, by_name) == plan_of(tokens.take(k), header, by_name),
    decreases tokens.len() - k,
{
    if k < tokens.len() {
        assert(tokens.take(k + 1).drop_last() =~= tokens.take(k));
        lemma_plan_prefix_err(tokens, k + 1, header, by_name);
    } else {
        assert(tokens.take(k) =~= tokens);
    }
}

/// A copy of an optional byte vector.
fn copy_default(d: &Option<Vec<u8>>) -> (r: Option<Vec<u8>>)
    ensures
        opt_view(r) == opt_view(*d),
{
    match d {
        Some(v) => Some(slice_to_vec(v.as_slice())),
        None => None,
    }
}

/// The header label of column `i`.
fn display_name(header: &[&[u8]], i: usize, by_name: bool) -> (r: Vec<u8>)
    requires
        i < header@.len(),
    ensures
        r@ == display(slice_views(header@), i as int, by_name),
{
    if by_name {
        slice_to_vec(header[i])
    } else {
        Vec::new()
    }
}

/// Appends the columns of one token to `columns`.
fn push_token(tok: &str, header: &[&[u8]], by_name: bool, columns: &mut Vec<Column>) -> (r: Result<(), CutError>)
    requires
        header@.len() > 0,
    ensures
        match token_columns(token_of(tok.spec_bytes()), slice_views(header@), by_name) {
            Ok(cs) => r is Ok && column_views(final(columns)@) == column_views(old(columns)@) + cs,
            Err(e) => r matches Err(CutError::FieldNotFound(n)) && n@ == e,
        },
{
    let ghost names = slice_views(header@);
    let ghost start0 = column_views(columns@);
    let (start, end, default) = split_token(tok);
    let ghost t = token_of(tok.spec_bytes());
    match end {
        None => match default {
            Some(d) => {
                let name = if by_name {
                    slice_to_vec(start.as_bytes())
                } else {
                    Vec::new()
                };
                columns.push(Column::new(0, Some(d), name));
                assert(column_views(columns@) =~= start0 + seq![columns@.last()@]);
                Ok(())
            },
            None => match lookup_index(start.as_bytes(), header, by_name) {
                Some(i) => {
                    let name = display_name(header, i, by_name);
                    columns.push(Column::new(i, None, name));
                    assert(column_views(columns@) =~= start0 + seq![columns@.last()@]);
                    Ok(())
                },
                None => Err(not_found(start.as_bytes())),
            },
        },
        Some(e) => {
            let a = match resolve_index(start.as_bytes(), header, by_name, true) {
                Some(a) => a,
                None => {
                    return Err(not_found(start.as_bytes()));
                },
            };
            let b = match resolve_index(e.as_bytes(), header, by_name, false) {
                Some(b) => b,
                None => {
                    return Err(not_found(e.as_bytes()));
                },
            };
            let ghost expected = range_columns(a as int, b as int, t.default, names, by_name);
            let mut i: usize = a;
            while i < b
                invariant
                    names == slice_views(header@),
                    b <= header@.len(),
                    a <= i,
                    a < b ==> i <= b,
                    a >= b ==> i == a,
                    opt_view(default) == t.default,
                    expected == range_columns(a as int, b as int, t.default, names, by_name),
                    column_views(columns@) == start0 + expected.take(i - a),
                decreases b - i,
            {
                let idx = if default.is_some() {
                    0
                } else {
                    i
                };
                let name = display_name(header, i, by_name);
                let cell = copy_default(&default);
                let ghost before = column_views(columns@);
                columns.push(Column::new(idx, cell, name));
                proof {
                    assert(column_views(columns@) =~= before + seq![columns@.last()@]);
                    assert(expected.take(i + 1 - a) =~= expected.take(i - a) + seq![expected[i - a]]);
                }
                i = i + 1;
            }
            assert(expected.take(i - a) =~= expected);
            Ok(())
        },
    }
}

// ---------------------------------------------------------------------------
// Records and configuration

/// The UTF-8 bytes of a string.
pub open spec fn bytes_of(s: String) -> Seq<u8> {
    encode_utf8(s@)
}

/// A record without its terminating newline, if it has one.
pub open spec fn record_content(line: Seq<u8>) -> Seq<u8> {
    if line.len() > 0 && line.last() == NEWLINE {
        line.drop_last()
    } else {
        line
    }
}

/// The fields of a record.
pub open spec fn record_fields(line: Seq<u8>, d: u8) -> Seq<Seq<u8>> {
    split_fields(record_content(line), d)
}

/// Every column that reads a field reads one of the first `n`.
pub open spec fn reads_within(plan: Seq<ColumnView>, n: int) -> bool {
    forall|i: int| 0 <= i < plan.len() && (#[trigger] plan[i]).default is None ==> 0 <= plan[i].idx < n
}

/// A compiled selection: the first line (the header), the delimiter, the
/// selection text and the plan of output columns.
pub struct Config {
    pub first_line: String,
    pub delimiter: u8,
    pub field: String,
    pub columns: Vec<Column>,
}

impl Config {
    /// The names of the header: the fields of the first line.
    pub open spec fn header(&self) -> Seq<Seq<u8>> {
        record_fields(bytes_of(self.first_line), self.delimiter)
    }

    /// The plan: the output columns in order.
    pub open spec fn plan(&self) -> Seq<ColumnView> {
        column_views(self.columns@)
    }

    /// Every column of the plan reads a field that the header has.
    pub open spec fn wf(&self) -> bool {
        reads_within(self.plan(), self.header().len() as int)
    }

    /// `r` is the outcome of compiling `fields` against `first_line`: the plan
    /// when every reference resolves, else the first one that does not.
    pub open spec fn compiled(
        r: Result<Config, CutError>,
        first_line: String,
        delimiter: u8,
        fields: String,
        by_name: bool,
    ) -> bool {
        let header = record_fields(bytes_of(first_line), delimiter);
        match (r, plan_of(tokens_of(bytes_of(fields)), header, by_name)) {
            (Ok(cfg), Ok(p)) => {
                &&& cfg.first_line == first_line
                &&& cfg.delimiter == delimiter
                &&& cfg.field == fields
                &&& cfg.plan() == p
            },
            (Err(CutError::FieldNotFound(n)), Err(e)) => n@ == e,
            _ => false,
        }
    }

    fn new(first_line: String, delimiter: u8, field: String, columns: Vec<Column>) -> (r: Config)
        ensures
            r.first_line == first_line,
            r.delimiter == delimiter,
            r.field == field,
            r.columns == columns,
    {
        Config { first_line, delimiter, field, columns }
    }

    fn compile(first_line: String, delimiter: u8, fields: String, by_name: bool) -> (r: Result<Config, CutError>)
        ensures
            Self::compiled(r, first_line, delimiter, fields, by_name),
            r matches Ok(cfg) ==> cfg.wf(),
    {
        let line = first_line.as_str().as_bytes();
        let content = slice_subrange(line, 0, content_len(line));
        let header = field_slices(content, delimiter);
        let ghost names = slice_views(header@);
        proof {
            lemma_split_fields_len(content@, delimiter);
        }
        let tokens = split_str(fields.as_str(), COMMA);
        let ghost toks = tokens_of(bytes_of(fields));
        let mut columns: Vec<Column> = Vec::new();
        let mut k: usize = 0;
        assert(toks.take(0) =~= Seq::<Seq<u8>>::empty());
        assert(column_views(columns@) =~= Seq::<ColumnView>::empty());
        while k < tokens.len()
            invariant
                names == slice_views(header@),
                names == record_fields(bytes_of(first_line), delimiter),
                names.len() > 0,
                toks == tokens_of(bytes_of(fields)),
                tokens@.len() == toks.len(),
                forall|j: int| 0 <= j < toks.len() ==> (#[trigger] tokens@[j]).spec_bytes() == toks[j],
                k <= tokens@.len(),
                plan_of(toks.take(k as int), names, by_name) == Ok::<Seq<ColumnView>, Seq<u8>>(column_views(columns@)),
            decreases tokens@.len() - k,
        {
            let res = push_token(tokens[k], header.as_slice(), by_name, &mut columns);
            proof {
                assert(toks.take(k + 1).drop_last() =~= toks.take(k as int));
            }
            match res {
                Ok(()) => {},
                Err(e) => {
                    proof {
                        assert(toks.take(k + 1).last() == toks[k as int]);
                        assert(plan_of(toks.take(k + 1), names, by_name) is Err);
                        lemma_plan_prefix_err(toks, k + 1, names, by_name);
                    }
                    return Err(e);
                },
            }
            k = k + 1;
        }
        assert(toks.take(k as int) =~= toks);
        proof {
            lemma_plan_reads_within(toks, names, by_name);
        }
        Ok(Config::new(first_line, delimiter, fields, columns))
    }

    /// Compiles `fields` against the first line, resolving references as column
    /// indices only.
    pub fn parse_field_as_number(first_line: String, delimiter: u8, fields: String) -> (r: Result<Self, CutError>)
        ensures
            Self::compiled(r, first_line, delimiter, fields, false),
            r matches Ok(cfg) ==> cfg.wf(),
    {
        Self::compile(first_line, delimiter, fields, false)
    }

    /// Compiles `fields` against the header on the first line, resolving each
    /// reference as a column index first and as a header name second.
    pub fn parse_field_as_name(first_line: String, delimiter: u8, fields: String) -> (r: Result<Self, CutError>)
        ensures
            Self::compiled(r, first_line, delimiter, fields, true),
            r matches Ok(cfg) ==> cfg.wf(),
    {
        Self::compile(first_line, delimiter, fields, true)
    }
}

impl Config {
    /// Splits a token at its first `:` into column part and default, and the column
    /// part at its first `..` into start and end. The start is always present.
    pub fn parse_field(field: &str) -> (r: (Option<&str>, Option<&str>, Option<Vec<u8>>))
        ensures
            match r.0 {
                Some(s) => s.spec_bytes() == token_of(field.spec_bytes()).start,
                None => false,
            },
            match (r.1, token_of(field.spec_bytes()).end) {
                (Some(e), Some(f)) => e.spec_bytes() == f,
                (None, None) => true,
                _ => false,
            },
            match (r.2, token_of(field.spec_bytes()).default) {
                (Some(e), Some(f)) => e@ == f,
                (None, None) => true,
                _ => false,
            },
    {
        let (start, end, default) = split_token(field);
        (Some(start), end, default)
    }

    /// Resolves `col_name` against the names of `header`, as a range's start or end:
    /// an index below the header's width first, then the first column of that name.
    pub fn col_to_idx(col_name: &str, header: &[&str], is_start: bool) -> (r: Result<usize, CutError>)
        ensures
            match r {
                Ok(i) => resolve_bound(col_name.spec_bytes(), str_views(header@), true, is_start) == Some(i as int),
                Err(CutError::FieldNotFound(n)) => {
                    &&& resolve_bound(col_name.spec_bytes(), str_views(header@), true, is_start) is None
                    &&& n@ == col_name.spec_bytes()
                },
                Err(_) => false,
            },
    {
        let names = names_of(header);
        match resolve_index(col_name.as_bytes(), names.as_slice(), true, is_start) {
            Some(i) => Ok(i),
            None => Err(not_found(col_name.as_bytes())),
        }
    }

    /// Resolves `col_name` as an index below the width of `header`, as a range's
    /// start or end; names are not looked up.
    pub fn number_to_idx(col_name: &str, header: &[&str], is_start: bool) -> (r: Result<usize, CutError>)
        ensures
            match r {
                Ok(i) => resolve_bound(col_name.spec_bytes(), str_views(header@), false, is_start) == Some(i as int),
                Err(CutError::FieldNotFound(n)) => {
                    &&& resolve_bound(col_name.spec_bytes(), str_views(header@), false, is_start) is None
                    &&& n@ == col_name.spec_bytes()
                },
                Err(_) => false,
            },
    {
        let names = names_of(header);
        match resolve_index(col_name.as_bytes(), names.as_slice(), false, is_start) {
            Some(i) => Ok(i),
            None => Err(not_found(col_name.as_bytes())),
        }
    }
}

/// The length of a record without its terminating newline.
fn content_len(line: &[u8]) -> (r: usize)
    ensures
        r <= line@.len(),
        line@.subrange(0, r as int) == record_content(line@),
{
    if line.len() > 0 && line[line.len() - 1] == NEWLINE {
        assert(line@.subrange(0, line@.len() - 1) =~= line@.drop_last());
        line.len() - 1
    } else {
        assert(line@.subrange(0, line@.len() as int) =~= line@);
        line.len()
    }
}

// ---------------------------------------------------------------------------
// Projection

/// What a column emits for a record with these fields.
pub open spec fn cell(c: ColumnView, fields: Seq<Seq<u8>>) -> Seq<u8> {
    match c.default {
        Some(v) => v,
        None => fields[c.idx],
    }
}

/// What each column of a plan emits for a record with these fields.
pub open spec fn cells(plan: Seq<ColumnView>, fields: Seq<Seq<u8>>) -> Seq<Seq<u8>> {
    plan.map_values(|c: ColumnView| cell(c, fields))
}

/// The output record for a record with these fields: the columns' bytes joined by
/// the delimiter, then one newline.
pub open spec fn record_output(plan: Seq<ColumnView>, fields: Seq<Seq<u8>>, d: u8) -> Seq<u8> {
    joined(cells(plan, fields), seq![d]) + seq![NEWLINE]
}

/// The header labels of a plan's columns.
pub open spec fn labels(plan: Seq<ColumnView>) -> Seq<Seq<u8>> {
    plan.map_values(|c: ColumnView| c.name)
}

/// The echoed header: the columns' labels joined by the delimiter, then one newline.
pub open spec fn header_output(plan: Seq<ColumnView>, d: u8) -> Seq<u8> {
    joined(labels(plan), seq![d]) + seq![NEWLINE]
}

/// Appends `b` to `out`.
fn append_bytes(out: &mut Vec<u8>, b: &[u8])
    ensures
        final(out)@ == old(out)@ + b@,
{
    let mut i: usize = 0;
    while i < b.len()
        invariant
            i <= b@.len(),
            out@ == old(out)@ + b@.take(i as int),
        decreases b@.len() - i,
    {
        out.push(b[i]);
        i = i + 1;
        assert(out@ =~= old(out)@ + b@.take(i as int));
    }
    assert(b@.take(i as int) =~= b@);
}

/// The highest field index that a column of `columns` reads, if any reads one.
fn last_read(columns: &Vec<Column>) -> (r: Option<usize>)
    ensures
        match r {
            Some(m) => {
                &&& exists|i: int| 0 <= i < columns@.len() && columns@[i].default is None && columns@[i].idx == m
                &&& forall|i: int| 0 <= i < columns@.len() && (#[trigger] columns@[i]).default is None ==> columns@[i].idx <= m
            },
            None => forall|i: int| 0 <= i < columns@.len() ==> (#[trigger] columns@[i]).default is Some,
        },
{
    let mut r: Option<usize> = None;
    let mut i: usize = 0;
    while i < columns.len()
        invariant
            i <= columns@.len(),
            match r {
                Some(m) => {
                    &&& exists|j: int| 0 <= j < i && columns@[j].default is None && columns@[j].idx == m
                    &&& forall|j: int| 0 <= j < i && (#[trigger] columns@[j]).default is None ==> columns@[j].idx <= m
                },
                None => forall|j: int| 0 <= j < i ==> (#[trigger] columns@[j]).default is Some,
            },
        decreases columns@.len() - i,
    {
        if columns[i].default.is_none() {
            let idx = columns[i].idx;
            match r {
                Some(m) => {
                    if idx > m {
                        r = Some(idx);
                    }
                },
                None => {
                    r = Some(idx);
                },
            }
        }
        i = i + 1;
    }
    r
}

impl Config {
    /// Projects one record: appends to `out` the plan's columns joined by the
    /// delimiter and one newline. A trailing newline of `line` ends the record and
    /// is not part of its last field. When a column reads a field that the record
    /// lacks, nothing is appended and the error is `IndexOutOfBounds`.
    pub fn project(&self, line: &[u8], out: &mut Vec<u8>) -> (r: Result<(), CutError>)
        ensures
            reads_within(self.plan(), record_fields(line@, self.delimiter).len() as int) ==> {
                &&& r is Ok
                &&& final(out)@ == old(out)@ + record_output(self.plan(), record_fields(line@, self.delimiter), self.delimiter)
            },
            !reads_within(self.plan(), record_fields(line@, self.delimiter).len() as int) ==> {
                &&& r matches Err(CutError::IndexOutOfBounds)
                &&& final(out)@ == old(out)@
            },
    {
        let d = self.delimiter;
        let content = slice_subrange(line, 0, content_len(line));
        let ghost fields = record_fields(line@, d);
        let ghost plan = self.plan();
        assert(content@ == record_content(line@));
        let last = last_read(&self.columns);
        let spans: Vec<(usize, usize)> = match last {
            Some(m) => field_spans(content, d, m),
            None => Vec::new(),
        };
        match last {
            Some(m) => {
                if m >= spans.len() {
                    proof {
                        let i = choose|i: int|
                            0 <= i < self.columns@.len() && self.columns@[i].default is None && self.columns@[i].idx == m;
                        assert(plan[i] == self.columns@[i]@);
                    }
                    return Err(CutError::IndexOutOfBounds);
                }
            },
            None => {},
        }
        proof {
            assert forall|i: int| 0 <= i < plan.len() && (#[trigger] plan[i]).default is None implies plan[i].idx < fields.len() && plan[i].idx < spans@.len() by {
                assert(plan[i] == self.columns@[i]@);
            }
        }
        let ghost start = out@;
        let ghost parts = cells(plan, fields);
        let mut i: usize = 0;
        while i < self.columns.len()
            invariant
                plan == column_views(self.columns@),
                parts == cells(plan, fields),
                fields == split_fields(content@, d),
                d == self.delimiter,
                i <= self.columns@.len(),
                forall|k: int| 0 <= k < plan.len() && (#[trigger] plan[k]).default is None ==> plan[k].idx < spans@.len(),
                forall|k: int| 0 <= k < spans@.len() ==> is_field_span(content@, d, k, #[trigger] spans@[k]),
                out@ == start + joined(parts.take(i as int), seq![d]),
            decreases self.columns@.len() - i,
        {
            if i > 0 {
                out.push(d);
            }
            let col = &self.columns[i];
            assert(plan[i as int] == col@);
            match &col.default {
                Some(v) => {
                    append_bytes(out, v.as_slice());
                },
                None => {
                    let (a, b) = spans[col.idx];
                    proof {
                        assert(is_field_span(content@, d, col.idx as int, spans@[col.idx as int]));
                    }
                    append_bytes(out, slice_subrange(content, a, b));
                },
            }
            proof {
                let p = parts.take(i + 1);
                assert(p.drop_last() =~= parts.take(i as int));
                assert(p.last() == cell(plan[i as int], fields));
                assert(out@ =~= start + joined(p, seq![d]));
            }
            i = i + 1;
        }
        assert(parts.take(i as int) =~= parts);
        out.push(NEWLINE);
        Ok(())
    }
}

impl Config {
    /// Appends the echoed header: the columns' labels joined by the delimiter, then
    /// one newline. A literal column's label is the reference written before its
    /// default, unresolved.
    pub fn write_header(&self, out: &mut Vec<u8>)
        ensures
            final(out)@ == old(out)@ + header_output(self.plan(), self.delimiter),
    {
        let d = self.delimiter;
        let ghost start = out@;
        let ghost plan = self.plan();
        let ghost parts = labels(plan);
        let mut i: usize = 0;
        while i < self.columns.len()
            invariant
                plan == column_views(self.columns@),
                parts == labels(plan),
                d == self.delimiter,
                i <= self.columns@.len(),
                out@ == start + joined(parts.take(i as int), seq![d]),
            decreases self.columns@.len() - i,
        {
            if i > 0 {
                out.push(d);
            }
            let col = &self.columns[i];
            assert(plan[i as int] == col@);
            append_bytes(out, col.name.as_slice());
            proof {
                let p = parts.take(i + 1);
                assert(p.drop_last() =~= parts.take(i as int));
                assert(out@ =~= start + joined(p, seq![d]));
            }
            i = i + 1;
        }
        assert(parts.take(i as int) =~= parts);
        out.push(NEWLINE);
    }

    /// Projects the first line like any later record and appends the result. It
    /// succeeds on every configuration that the compiler built.
    pub fn write_first_line(&self, out: &mut Vec<u8>) -> (r: Result<(), CutError>)
        ensures
            self.wf() ==> r is Ok,
            r is Ok ==> final(out)@ == old(out)@ + record_output(self.plan(), self.header(), self.delimiter),
            r is Err ==> final(out)@ == old(out)@,
    {
        self.project(self.first_line.as_str().as_bytes(), out)
    }
}

/// The columns of one resolved token read only fields of the header.
proof fn lemma_token_reads_within(t: TokenView, header: Seq<Seq<u8>>, by_name: bool)
    requires
        header.len() > 0,
        token_columns(t, header, by_name) is Ok,
    ensures
        reads_within(token_columns(t, header, by_name)->Ok_0, header.len() as int),
{
    lemma_first_position_bound(header, t.start);
    if is_numeral(index_text(t.start)) {
        lemma_numeral_value_nonneg(index_text(t.start));
    }
    if let Some(e) = t.end {
        lemma_first_position_bound(header, e);
    }
}

/// Every column of a resolved plan reads only fields of the header.
pub proof fn lemma_plan_reads_within(tokens: Seq<Seq<u8>>, header: Seq<Seq<u8>>, by_name: bool)
    requires
        header.len() > 0,
        plan_of(tokens, header, by_name) is Ok,
    ensures
        reads_within(plan_of(tokens, header, by_name)->Ok_0, header.len() as int),
    decreases tokens.len(),
{
    if tokens.len() > 0 {
        let p = plan_of(tokens.drop_last(), header, by_name)->Ok_0;
        let c = token_columns(token_of(tokens.last()), header, by_name)->Ok_0;
        lemma_plan_reads_within(tokens.drop_last(), header, by_name);
        lemma_token_reads_within(token_of(tokens.last()), header, by_name);
        let all = p + c;
        assert forall|i: int| 0 <= i < all.len() && (#[trigger] all[i]).default is None implies all[i].idx < header.len() by {
            if i >= p.len() {
                assert(all[i] == c[i - p.len()]);
            }
        }
    }
}

} // verus!
