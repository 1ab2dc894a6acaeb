use vstd::prelude::*;
use vstd::std_specs::iter::IteratorSpec;
use vstd::string::axiom_spec_iter;

verus! {

/// The characters of a string slice, in order.
pub fn chars_of(s: &str) -> (r: Vec<char>)
    ensures
        r@ == s@,
{
    broadcast use axiom_spec_iter, vstd::string::next_postcondition;

    let mut it = s.chars();
    let mut out: Vec<char> = Vec::new();
    loop
        invariant
            it.obeys_prophetic_iter_laws(),
            out@ + it.remaining() == s@,
            it.decrease() is Some,
        ensures
            out@ == s@,
        decreases it.decrease()->0,
    {
        match it.next() {
            Some(c) => {
                out.push(c);
                assert(out@ + it.remaining() =~= s@);
            },
            None => {
                assert(out@ + it.remaining() =~= out@);
                break;
            },
        }
    }
    out
}

} // verus!
