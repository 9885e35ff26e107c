//! Splitting a byte string into the fields between occurrences of a delimiter.

use vstd::prelude::*;
use vstd::math::min;
use vstd::slice::slice_subrange;

verus! {

/// Index of the first occurrence of `x` in `s`, or `s.len()` when there is none.
pub open spec fn first_position<A>(s: Seq<A>, x: A) -> nat
    decreases s.len(),
{
    if s.len() == 0 {
        0
    } else if s[0] == x {
        0
    } else {
        1 + first_position(s.drop_first(), x)
    }
}

/// The fields of `s`: the maximal runs of bytes between occurrences of `d`.
/// There is always at least one field; `k` delimiters give `k + 1` fields.
pub open spec fn split_fields(s: Seq<u8>, d: u8) -> Seq<Seq<u8>>
    decreases s.len(),
{
    let p = first_position(s, d) as int;
    if p < s.len() {
        seq![s.subrange(0, p)] + split_fields(s.subrange(p + 1, s.len() as int), d)
    } else {
        seq![s]
    }
}

/// `first_position` is the index of the first match, and `s.len()` when nothing matches.
pub proof fn lemma_first_position<A>(s: Seq<A>, x: A, i: int)
    requires
        0 <= i <= s.len(),
        i < s.len() ==> s[i] == x,
        forall|j: int| 0 <= j < i ==> s[j] != x,
    ensures
        first_position(s, x) == i,
    decreases s.len(),
{
    if s.len() > 0 && s[0] != x {
        let t = s.drop_first();
        assert forall|j: int| 0 <= j < i - 1 implies t[j] != x by {
            assert(t[j] == s[j + 1]);
        }
        lemma_first_position(t, x, i - 1);
    }
}

/// `first_position` never exceeds the length.
pub proof fn lemma_first_position_bound<A>(s: Seq<A>, x: A)
    ensures
        first_position(s, x) <= s.len(),
        first_position(s, x) < s.len() ==> s[first_position(s, x) as int] == x,
        forall|j: int| 0 <= j < first_position(s, x) ==> s[j] != x,
    decreases s.len(),
{
    if s.len() > 0 && s[0] != x {
        let t = s.drop_first();
        lemma_first_position_bound(t, x);
        assert forall|j: int| 0 <= j < first_position(s, x) implies s[j] != x by {
            if j > 0 {
                assert(s[j] == t[j - 1]);
            }
        }
    }
}

/// A byte string has at least one and at most one more field than bytes.
pub proof fn lemma_split_fields_len(s: Seq<u8>, d: u8)
    ensures
        1 <= split_fields(s, d).len() <= s.len() + 1,
    decreases s.len(),
{
    lemma_first_position_bound(s, d);
    let p = first_position(s, d) as int;
    if p < s.len() {
        lemma_split_fields_len(s.subrange(p + 1, s.len() as int), d);
    }
}

/// Relies on memchr::memchr: the index of the first occurrence of `needle` in
/// `haystack`, or `None` when the byte does not occur.
#[verifier::external_body]
fn find_byte(needle: u8, haystack: &[u8]) -> (r: Option<usize>)
    ensures
        match r {
            Some(i) => {
                &&& i < haystack@.len()
                &&& haystack@[i as int] == needle
                &&& forall|j: int| 0 <= j < i ==> haystack@[j] != needle
            },
            None => forall|j: int| 0 <= j < haystack@.len() ==> haystack@[j] != needle,
        },
{
    memchr::memchr(needle, haystack)
}

/// The position of the first `d` at or after `from`, or `s.len()` when there is none.
pub fn next_delimiter(s: &[u8], from: usize, d: u8) -> (r: usize)
    requires
        from <= s@.len(),
    ensures
        r == from + first_position(s@.subrange(from as int, s@.len() as int), d),
        from <= r <= s@.len(),
{
    let rest = slice_subrange(s, from, s.len());
    match find_byte(d, rest) {
        Some(i) => {
            proof {
                lemma_first_position(rest@, d, i as int);
            }
            from + i
        },
        None => {
            proof {
                lemma_first_position(rest@, d, rest@.len() as int);
            }
            s.len()
        },
    }
}

/// A span `(a, b)` of `s` that holds the field of index `k` of `s`, with a
/// delimiter or the edge of `s` on either side.
pub open spec fn is_field_span(s: Seq<u8>, d: u8, k: int, span: (usize, usize)) -> bool {
    &&& span.0 <= span.1 <= s.len()
    &&& s.subrange(span.0 as int, span.1 as int) == split_fields(s, d)[k]
    &&& span.0 == 0 || s[span.0 - 1] == d
    &&& span.1 == s.len() || s[span.1 as int] == d
}

/// The spans of the first `last + 1` fields of `s` (of all of them when there are
/// fewer). Bytes after the field of index `last` are not scanned.
pub fn field_spans(s: &[u8], d: u8, last: usize) -> (r: Vec<(usize, usize)>)
    ensures
        r@.len() == min(split_fields(s@, d).len() as int, last + 1),
        forall|k: int| 0 <= k < r@.len() ==> is_field_span(s@, d, k, #[trigger] r@[k]),
{
    let mut r: Vec<(usize, usize)> = Vec::new();
    let mut pos: usize = 0;
    let ghost all = split_fields(s@, d);
    assert(s@.subrange(0, s@.len() as int) =~= s@);
    loop
        invariant_except_break
            r@.len() + split_fields(s@.subrange(pos as int, s@.len() as int), d).len() == all.len(),
            forall|j: int|
                0 <= j < split_fields(s@.subrange(pos as int, s@.len() as int), d).len()
                    ==> #[trigger] split_fields(s@.subrange(pos as int, s@.len() as int), d)[j]
                    == all[r@.len() + j],
            pos == 0 || s@[pos - 1] == d,
        invariant
            pos <= s@.len(),
            all == split_fields(s@, d),
            r@.len() <= last + 1,
            forall|k: int| 0 <= k < r@.len() ==> is_field_span(s@, d, k, #[trigger] r@[k]),
        ensures
            r@.len() == min(all.len() as int, last + 1),
        decreases s@.len() - pos,
    {
        let ghost rest = s@.subrange(pos as int, s@.len() as int);
        proof {
            lemma_split_fields_len(rest, d);
        }
        if r.len() > last {
            break;
        }
        let q = next_delimiter(s, pos, d);
        let ghost p = first_position(rest, d) as int;
        proof {
            lemma_first_position_bound(rest, d);
            assert(s@.subrange(pos as int, q as int) =~= rest.subrange(0, p));
            assert(split_fields(rest, d)[0] == all[r@.len() as int]);
        }
        r.push((pos, q));
        if q == s.len() {
            break;
        }
        proof {
            let next = s@.subrange(q + 1, s@.len() as int);
            assert(rest.subrange(p + 1, rest.len() as int) =~= next);
            assert(split_fields(rest, d) =~= seq![rest.subrange(0, p)] + split_fields(next, d));
            assert forall|j: int| 0 <= j < split_fields(next, d).len() implies
                #[trigger] split_fields(next, d)[j] == all[r@.len() + j] by {
                assert(split_fields(next, d)[j] == split_fields(rest, d)[j + 1]);
            }
        }
        pos = q + 1;
    }
    r
}

/// The views of a sequence of byte slices.
pub open spec fn slice_views(v: Seq<&[u8]>) -> Seq<Seq<u8>> {
    v.map_values(|p: &[u8]| p@)
}

/// All the fields of `s`, as slices of `s`.
pub fn field_slices<'a>(s: &'a [u8], d: u8) -> (r: Vec<&'a [u8]>)
    ensures
        slice_views(r@) == split_fields(s@, d),
{
    proof {
        lemma_split_fields_len(s@, d);
    }
    let spans = field_spans(s, d, s.len());
    let mut r: Vec<&'a [u8]> = Vec::new();
    let mut k: usize = 0;
    while k < spans.len()
        invariant
            spans@.len() == split_fields(s@, d).len(),
            forall|j: int| 0 <= j < spans@.len() ==> is_field_span(s@, d, j, #[trigger] spans@[j]),
            k <= spans@.len(),
            r@.len() == k,
            forall|j: int| 0 <= j < k ==> (#[trigger] r@[j])@ == split_fields(s@, d)[j],
        decreases spans@.len() - k,
    {
        let (a, b) = spans[k];
        proof {
            assert(is_field_span(s@, d, k as int, spans@[k as int]));
        }
        r.push(slice_subrange(s, a, b));
        k = k + 1;
    }
    assert(slice_views(r@) =~= split_fields(s@, d));
    r
}

} // verus!
