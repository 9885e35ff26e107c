//! Laws that relate the compiler's and the projector's specifications.

use vstd::prelude::*;

use crate::mcut::{
    cell, cells, header_output, reads_within, index_text, is_numeral, lemma_index_text_of_numeral, trim_end, trim_start, labels, lemma_numeral_value_nonneg, lemma_pair_position,
    lookup, numeral_value, pair_at, plan_of, range_columns, record_content, record_fields,
    record_output, resolve_bound, token_columns, token_of, tokens_of, ColumnView, TokenView, COLON,
    COMMA, DOT, NEWLINE,
};
use crate::split::{
    first_position, lemma_first_position, lemma_first_position_bound, lemma_split_fields_len,
    split_fields,
};
use crate::util::joined;

verus! {

/// A numeric reference (one whose index text, see [`index_text`], is a numeral)
/// resolves exactly when its value is below the header's width, and then to
/// that index, as a single reference and as either end of a range; this holds
/// in both modes as long as no header name is the reference itself.
pub proof fn lemma_numeric_reference(r: Seq<u8>, header: Seq<Seq<u8>>, by_name: bool, is_start: bool)
    requires
        is_numeral(index_text(r)),
        by_name ==> !header.contains(r),
    ensures
        lookup(r, header, by_name) is Some <==> 0 <= numeral_value(index_text(r)) < header.len(),
        lookup(r, header, by_name) is Some ==> lookup(r, header, by_name) == Some(numeral_value(index_text(r))),
        resolve_bound(r, header, by_name, is_start) is Some <==> 0 <= numeral_value(index_text(r)) < header.len(),
        resolve_bound(r, header, by_name, is_start) is Some ==> resolve_bound(r, header, by_name, is_start)
            == Some(if is_start { numeral_value(index_text(r)) } else { numeral_value(index_text(r)) + 1 }),
{
    if r.len() == 0 {
        assert(trim_start(r) == r);
        assert(trim_end(r) == r);
    }
    lemma_first_position_bound(header, r);
    lemma_numeral_value_nonneg(index_text(r));
    if by_name && first_position(header, r) < header.len() {
        assert(header[first_position(header, r) as int] == r);
    }
}

/// Index lookup comes before name lookup: a reference whose index text is a
/// numeral below the header's width denotes that index even where a header name
/// is the reference itself, so name lookup never changes how it resolves; any
/// other reference resolves by name to the first column of exactly that name.
pub proof fn lemma_index_before_name(r: Seq<u8>, header: Seq<Seq<u8>>)
    ensures
        is_numeral(index_text(r)) && numeral_value(index_text(r)) < header.len() ==> {
            &&& lookup(r, header, true) == Some(numeral_value(index_text(r)))
            &&& lookup(r, header, true) == lookup(r, header, false)
        },
        !(is_numeral(index_text(r)) && numeral_value(index_text(r)) < header.len()) ==> {
            &&& lookup(r, header, false) is None
            &&& (header.contains(r) <==> lookup(r, header, true) is Some)
            &&& header.contains(r) ==> {
                let i = lookup(r, header, true)->Some_0;
                &&& 0 <= i < header.len()
                &&& header[i] == r
                &&& forall|j: int| 0 <= j < i ==> header[j] != r
            }
        },
{
    lemma_first_position_bound(header, r);
    if header.contains(r) {
        let k = choose|k: int| 0 <= k < header.len() && header[k] == r;
        assert(first_position(header, r) <= k);
    }
    if first_position(header, r) < header.len() {
        assert(header[first_position(header, r) as int] == r);
    }
}

/// A last record without a terminating newline has the same fields, and gives
/// the same output, as the record with the newline; that output ends in a
/// newline either way.
pub proof fn lemma_unterminated_record(plan: Seq<ColumnView>, line: Seq<u8>, d: u8)
    requires
        line.len() == 0 || line.last() != NEWLINE,
    ensures
        record_fields(line.push(NEWLINE), d) == record_fields(line, d),
        record_output(plan, record_fields(line.push(NEWLINE), d), d) == record_output(plan, record_fields(line, d), d),
        record_output(plan, record_fields(line, d), d).last() == NEWLINE,
{
    assert(line.push(NEWLINE).drop_last() =~= line);
    assert(record_content(line.push(NEWLINE)) == record_content(line));
}

/// A range token without a default, whose start resolves to `a` and whose end
/// resolves to `b`, expands to one column per index of `[a, b)` in ascending
/// order, each the very column that a single reference to that index gives; ends
/// that resolve to the same bound give no column.
pub proof fn lemma_range_expansion(
    start: Seq<u8>,
    end: Seq<u8>,
    header: Seq<Seq<u8>>,
    by_name: bool,
    a: int,
    b: int,
)
    requires
        resolve_bound(start, header, by_name, true) == Some(a),
        resolve_bound(end, header, by_name, false) == Some(b),
    ensures
        token_columns(TokenView { start, end: Some(end), default: None }, header, by_name) matches Ok(cols) && {
            &&& cols.len() == if a < b { b - a } else { 0 }
            &&& a == b ==> cols.len() == 0
            &&& forall|k: int| 0 <= k < cols.len() ==> (#[trigger] cols[k]).idx == a + k
            &&& forall|k: int, x: Seq<u8>|
                #![trigger cols[k], lookup(x, header, by_name)]
                0 <= k < cols.len() && lookup(x, header, by_name) == Some(a + k)
                    ==> token_columns(TokenView { start: x, end: None, default: None }, header, by_name)
                    == Ok::<Seq<ColumnView>, Seq<u8>>(seq![cols[k]])
        },
{
}

/// An open range at both ends (`..`) expands to every column of the header, in order.
pub proof fn lemma_full_range(header: Seq<Seq<u8>>, by_name: bool)
    ensures
        token_columns(TokenView { start: seq![], end: Some(seq![]), default: None }, header, by_name)
            matches Ok(cols) && {
            &&& cols.len() == header.len()
            &&& forall|k: int| 0 <= k < cols.len() ==> (#[trigger] cols[k]).idx == k
        },
{
}

/// Joining `x` and a non-empty rest puts the separator after `x`.
proof fn lemma_joined_cons<A>(x: Seq<A>, rest: Seq<Seq<A>>, sep: Seq<A>)
    requires
        rest.len() > 0,
    ensures
        joined(seq![x] + rest, sep) == x + sep + joined(rest, sep),
    decreases rest.len(),
{
    let all = seq![x] + rest;
    assert(all.len() >= 2);
    assert(all.last() == rest.last());
    if rest.len() == 1 {
        assert(all.drop_last() =~= seq![x]);
        assert(joined(seq![x], sep) == x);
        assert(joined(rest, sep) == rest[0]);
        assert(joined(all, sep) == joined(all.drop_last(), sep) + sep + all.last());
    } else {
        assert(all.drop_last() =~= seq![x] + rest.drop_last());
        lemma_joined_cons(x, rest.drop_last(), sep);
        assert(joined(all, sep) == joined(all.drop_last(), sep) + sep + all.last());
        assert(joined(rest, sep) == joined(rest.drop_last(), sep) + sep + rest.last());
        assert(x + sep + joined(rest, sep) =~= x + sep + joined(rest.drop_last(), sep) + sep + rest.last());
    }
}

/// Joining the fields of `s` with their delimiter gives `s` back.
pub proof fn lemma_join_split(s: Seq<u8>, d: u8)
    ensures
        joined(split_fields(s, d), seq![d]) == s,
    decreases s.len(),
{
    lemma_first_position_bound(s, d);
    let p = first_position(s, d) as int;
    if p < s.len() {
        let rest = s.subrange(p + 1, s.len() as int);
        lemma_join_split(rest, d);
        lemma_split_fields_len(rest, d);
        lemma_joined_cons(s.subrange(0, p), split_fields(rest, d), seq![d]);
        assert(s.subrange(0, p) + seq![d] + rest =~= s);
    }
}

/// The selection `0..` reproduces each record: compiled against any first line,
/// in either mode, its output for that line is the line itself with one newline,
/// and the header it echoes is that line too.
pub proof fn lemma_identity_projection(line: Seq<u8>, d: u8, by_name: bool)
    ensures
        plan_of(tokens_of(seq![0x30u8, DOT, DOT]), record_fields(line, d), by_name) matches Ok(p) && {
            &&& record_output(p, record_fields(line, d), d) == record_content(line) + seq![NEWLINE]
            &&& by_name ==> header_output(p, d) == record_content(line) + seq![NEWLINE]
        },
{
    let sel = seq![0x30u8, DOT, DOT];
    let header = record_fields(line, d);
    lemma_split_fields_len(record_content(line), d);
    lemma_first_position(sel, COMMA, 3);
    assert(sel.subrange(0, 3) =~= sel);
    assert(tokens_of(sel) == seq![sel]);
    lemma_first_position(sel, COLON, 3);
    assert(pair_at(sel, 1, DOT, DOT));
    assert(!pair_at(sel, 0, DOT, DOT));
    lemma_pair_position(sel, DOT, DOT, 1);
    let start = sel.subrange(0, 1);
    assert(token_of(sel) == TokenView { start, end: Some(sel.subrange(3, 3)), default: None });
    assert(sel.subrange(3, 3) =~= Seq::<u8>::empty());
    assert(start[0] == 0x30u8);
    assert(is_numeral(start));
    assert(numeral_value(start) == 0) by {
        assert(start.drop_last() =~= Seq::<u8>::empty());
        assert(start.last() == 0x30u8);
    }
    lemma_index_text_of_numeral(start);
    assert(resolve_bound(start, header, by_name, true) == Some(0int));
    assert(resolve_bound(Seq::<u8>::empty(), header, by_name, false) == Some(header.len() as int));
    let cols = range_columns(0, header.len() as int, None, header, by_name);
    assert(token_columns(token_of(sel), header, by_name) == Ok::<Seq<ColumnView>, Seq<u8>>(cols));
    assert(tokens_of(sel).drop_last() =~= Seq::<Seq<u8>>::empty());
    assert(tokens_of(sel).last() == sel);
    assert(plan_of(tokens_of(sel).drop_last(), header, by_name) == Ok::<Seq<ColumnView>, Seq<u8>>(seq![]));
    assert(plan_of(tokens_of(sel), header, by_name) == Ok::<Seq<ColumnView>, Seq<u8>>(seq![] + cols));
    assert(seq![] + cols =~= cols);
    assert(cells(cols, header) =~= header);
    lemma_join_split(record_content(line), d);
    if by_name {
        assert(labels(cols) =~= header);
    }
}

/// No byte of `s` is `b`.
pub open spec fn avoids(s: Seq<u8>, b: u8) -> bool {
    forall|i: int| 0 <= i < s.len() ==> s[i] != b
}

/// The fields of a byte string that avoids `b` avoid `b` too.
proof fn lemma_fields_avoid(s: Seq<u8>, d: u8, b: u8)
    requires
        avoids(s, b),
    ensures
        forall|k: int| 0 <= k < split_fields(s, d).len() ==> avoids(#[trigger] split_fields(s, d)[k], b),
    decreases s.len(),
{
    lemma_first_position_bound(s, d);
    let p = first_position(s, d) as int;
    if p < s.len() {
        let rest = s.subrange(p + 1, s.len() as int);
        assert(avoids(rest, b)) by {
            assert forall|i: int| 0 <= i < rest.len() implies rest[i] != b by {
                assert(rest[i] == s[p + 1 + i]);
            }
        }
        lemma_fields_avoid(rest, d, b);
        assert forall|k: int| 0 <= k < split_fields(s, d).len() implies avoids(#[trigger] split_fields(s, d)[k], b) by {
            if k > 0 {
                assert(split_fields(s, d)[k] == split_fields(rest, d)[k - 1]);
            } else {
                let f = s.subrange(0, p);
                assert forall|i: int| 0 <= i < f.len() implies f[i] != b by {
                    assert(f[i] == s[i]);
                }
            }
        }
    }
}

/// Parts and a separator that avoid `b` join into bytes that avoid `b`.
proof fn lemma_joined_avoids(parts: Seq<Seq<u8>>, sep: Seq<u8>, b: u8)
    requires
        avoids(sep, b),
        forall|k: int| 0 <= k < parts.len() ==> avoids(#[trigger] parts[k], b),
    ensures
        avoids(joined(parts, sep), b),
    decreases parts.len(),
{
    if parts.len() > 1 {
        let init = parts.drop_last();
        assert forall|k: int| 0 <= k < init.len() implies avoids(#[trigger] init[k], b) by {
            assert(init[k] == parts[k]);
        }
        lemma_joined_avoids(init, sep, b);
        let j = joined(init, sep);
        let all = j + sep + parts.last();
        assert(avoids(parts[parts.len() - 1], b));
        assert forall|i: int| 0 <= i < all.len() implies all[i] != b by {
            if i < j.len() {
                assert(all[i] == j[i]);
            } else if i < j.len() + sep.len() {
                assert(all[i] == sep[i - j.len()]);
            } else {
                assert(all[i] == parts.last()[i - j.len() - sep.len()]);
            }
        }
    } else if parts.len() == 1 {
        assert(avoids(parts[0], b));
    }
}

/// A record with no newline in it (in particular a last line that lacks its
/// terminator), projected with a delimiter other than newline by a plan whose
/// literals hold no newline, gives an output whose one newline is its last byte.
pub proof fn lemma_record_single_newline(plan: Seq<ColumnView>, line: Seq<u8>, d: u8)
    requires
        avoids(line, NEWLINE),
        d != NEWLINE,
        reads_within(plan, record_fields(line, d).len() as int),
        forall|i: int| 0 <= i < plan.len() ==> match (#[trigger] plan[i]).default {
            Some(v) => avoids(v, NEWLINE),
            None => true,
        },
    ensures
        record_output(plan, record_fields(line, d), d).last() == NEWLINE,
        avoids(record_output(plan, record_fields(line, d), d).drop_last(), NEWLINE),
{
    let fields = record_fields(line, d);
    assert(line.len() > 0 ==> line[line.len() - 1] != NEWLINE);
    assert(record_content(line) == line);
    lemma_fields_avoid(line, d, NEWLINE);
    let parts = cells(plan, fields);
    assert forall|k: int| 0 <= k < parts.len() implies avoids(#[trigger] parts[k], NEWLINE) by {
        assert(parts[k] == cell(plan[k], fields));
        match plan[k].default {
            Some(v) => {
                assert(avoids(v, NEWLINE));
            },
            None => {
                assert(plan[k].idx < fields.len());
                assert(fields == split_fields(line, d));
                assert(avoids(split_fields(line, d)[plan[k].idx], NEWLINE));
            },
        }
    }
    lemma_joined_avoids(parts, seq![d], NEWLINE);
    let out = record_output(plan, fields, d);
    assert(out.drop_last() =~= joined(parts, seq![d]));
}

} // verus!
