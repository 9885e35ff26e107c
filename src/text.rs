//! Cutting strings next to ASCII bytes, where a cut always falls between two
//! characters.

use vstd::prelude::*;
use vstd::string::*;
use vstd::utf8::*;

use crate::split::{field_spans, is_field_span, lemma_split_fields_len, split_fields};

verus! {

/// Byte offset `mid` of `b` lies at an edge of `b` or next to an ASCII byte.
pub open spec fn ascii_cut(b: Seq<u8>, mid: int) -> bool {
    ||| mid == 0
    ||| mid == b.len()
    ||| (0 <= mid < b.len() && b[mid] < 0x80)
    ||| (0 < mid <= b.len() && b[mid - 1] < 0x80)
}

/// In valid UTF-8, a cut next to an ASCII byte is a character boundary.
proof fn lemma_ascii_cut_is_boundary(b: Seq<u8>, mid: int)
    requires
        valid_utf8(b),
        0 <= mid <= b.len(),
        ascii_cut(b, mid),
    ensures
        is_char_boundary(b, mid),
{
    is_char_boundary_start_end_of_seq(b);
    if 0 < mid < b.len() {
        if b[mid] < 0x80 {
            is_char_boundary_iff_not_is_continuation_byte(b, mid);
        } else {
            is_char_boundary_iff_not_is_continuation_byte(b, mid - 1);
            valid_utf8_split(b, mid - 1);
            let tail = b.subrange(mid - 1, b.len() as int);
            assert(valid_utf8(pop_first_scalar(tail)));
            assert(pop_first_scalar(tail) =~= b.subrange(mid, b.len() as int));
            assert(valid_first_scalar(b.subrange(mid, b.len() as int)));
            is_char_boundary_iff_not_is_continuation_byte(b, mid);
        }
    }
}

/// Splits `s` at byte offset `mid`.
pub fn split_str_at(s: &str, mid: usize) -> (r: (&str, &str))
    requires
        mid <= s.spec_bytes().len(),
        ascii_cut(s.spec_bytes(), mid as int),
    ensures
        r.0.spec_bytes() == s.spec_bytes().subrange(0, mid as int),
        r.1.spec_bytes() == s.spec_bytes().subrange(mid as int, s.spec_bytes().len() as int),
{
    proof {
        encode_utf8_valid_utf8(s@);
        lemma_ascii_cut_is_boundary(s.spec_bytes(), mid as int);
    }
    s.split_at(mid)
}

/// The bytes of `s` from offset `a` to offset `b`, as a string.
pub fn substr(s: &str, a: usize, b: usize) -> (r: &str)
    requires
        a <= b <= s.spec_bytes().len(),
        ascii_cut(s.spec_bytes(), a as int),
        ascii_cut(s.spec_bytes(), b as int),
    ensures
        r.spec_bytes() == s.spec_bytes().subrange(a as int, b as int),
{
    let (head, _) = split_str_at(s, b);
    let (_, mid) = split_str_at(head, a);
    proof {
        assert(mid.spec_bytes() =~= s.spec_bytes().subrange(a as int, b as int));
    }
    mid
}

/// The fields of `s` between occurrences of the ASCII byte `d`, as strings.
pub fn split_str(s: &str, d: u8) -> (r: Vec<&str>)
    requires
        d < 0x80,
    ensures
        r@.len() == split_fields(s.spec_bytes(), d).len(),
        forall|k: int|
            0 <= k < r@.len() ==> (#[trigger] r@[k]).spec_bytes() == split_fields(
                s.spec_bytes(),
                d,
            )[k],
{
    let bytes = s.as_bytes();
    proof {
        lemma_split_fields_len(bytes@, d);
    }
    let spans = field_spans(bytes, d, bytes.len());
    let mut r: Vec<&str> = Vec::new();
    let mut k: usize = 0;
    while k < spans.len()
        invariant
            d < 0x80,
            bytes@ == s.spec_bytes(),
            spans@.len() == split_fields(bytes@, d).len(),
            forall|j: int| 0 <= j < spans@.len() ==> is_field_span(bytes@, d, j, #[trigger] spans@[j]),
            k <= spans@.len(),
            r@.len() == k,
            forall|j: int|
                0 <= j < k ==> (#[trigger] r@[j]).spec_bytes() == split_fields(bytes@, d)[j],
        decreases spans@.len() - k,
    {
        let (a, b) = spans[k];
        proof {
            assert(is_field_span(bytes@, d, k as int, spans@[k as int]));
        }
        r.push(substr(s, a, b));
        k = k + 1;
    }
    r
}

} // verus!
