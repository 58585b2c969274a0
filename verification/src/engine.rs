//! Output helpers of the field-selection engine.
use vstd::prelude::*;
use crate::cutter::spec_json_string;
use crate::text::{join, push_char, push_str};

verus! {

/// A JSON array of strings: each item quoted and escaped, separated by commas.
pub open spec fn spec_json_array(items: Seq<Seq<char>>) -> Seq<char> {
    seq!['['] + join(items.map_values(|s: Seq<char>| spec_json_string(s)), seq![',']) + seq![']']
}

/// The items as a JSON array of strings.
pub fn json_array(items: &[String]) -> (r: String)
    ensures
        r@ == spec_json_array(crate::text::views(items@)),
{
    let ghost parts = crate::text::views(items@).map_values(|s: Seq<char>| spec_json_string(s));
    let mut body = String::new();
    let mut i: usize = 0;
    assert(parts.take(0) =~= Seq::<Seq<char>>::empty());
    while i < items.len()
        invariant
            i <= items@.len(),
            parts == crate::text::views(items@).map_values(|s: Seq<char>| spec_json_string(s)),
            body@ == join(parts.take(i as int), seq![',']),
        decreases items.len() - i,
    {
        if i > 0 {
            push_char(&mut body, ',');
        }
        let q = crate::cutter::json_string(items[i].as_str());
        push_str(&mut body, q.as_str());
        proof {
            assert(parts.take(i + 1) =~= parts.take(i as int).push(parts[i as int]));
            crate::text::lemma_join_push(parts.take(i as int), parts[i as int], seq![',']);
        }
        i = i + 1;
    }
    assert(parts.take(items@.len() as int) =~= parts);
    let mut out = String::new();
    push_char(&mut out, '[');
    push_str(&mut out, body.as_str());
    push_char(&mut out, ']');
    out
}

} // verus!
