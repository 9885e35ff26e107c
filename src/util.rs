//! Joining displayed values with a separator.

use vstd::prelude::*;
use vstd::string::*;

verus! {

/// The parts with `sep` between each two neighbours, and none after the last.
pub open spec fn joined<A>(parts: Seq<Seq<A>>, sep: Seq<A>) -> Seq<A>
    decreases parts.len(),
{
    if parts.len() == 0 {
        seq![]
    } else if parts.len() == 1 {
        parts[0]
    } else {
        joined(parts.drop_last(), sep) + sep + parts.last()
    }
}

/// The views of a sequence of strings.
pub open spec fn string_views(v: Seq<String>) -> Seq<Seq<char>> {
    v.map_values(|s: String| s@)
}

/// Formats each element of `seq` and joins the texts with `delimiter`.
pub fn join<T: core::fmt::Display>(delimiter: char, seq: &[T]) -> (r: String)
    ensures
        exists|parts: Seq<String>, sep: String|
            {
                &&& parts.len() == seq@.len()
                &&& to_string_from_display_ensures::<char>(&delimiter, sep)
                &&& forall|i: int|
                    0 <= i < parts.len() ==> to_string_from_display_ensures::<T>(
                        &seq@[i],
                        #[trigger] parts[i],
                    )
                &&& r@ == joined(string_views(parts), sep@)
            },
{
    let sep = delimiter.to_string();
    let mut ret = String::new();
    let ghost mut parts: Seq<String> = seq![];
    let mut i: usize = 0;
    while i < seq.len()
        invariant
            i <= seq@.len(),
            parts.len() == i,
            to_string_from_display_ensures::<char>(&delimiter, sep),
            forall|k: int|
                0 <= k < i ==> to_string_from_display_ensures::<T>(&seq@[k], #[trigger] parts[k]),
            ret@ == joined(string_views(parts), sep@),
        decreases seq@.len() - i,
    {
        let text = seq[i].to_string();
        if i > 0 {
            ret.append(sep.as_str());
        }
        ret.append(text.as_str());
        proof {
            let next = parts.push(text);
            assert(next.drop_last() =~= parts);
            assert(string_views(next).drop_last() =~= string_views(parts));
            parts = next;
        }
        i = i + 1;
    }
    ret
}

} // verus!
