//! Real numbers in text.  The library holds a real as its binary64 bit
//! pattern; turning one into decimal text, and text into one, is binary64
//! arithmetic that callers supply as a function.  A caller's function is
//! taken to be deterministic: each contract that depends on the text of a
//! real holds when it is.
use vstd::prelude::*;

verus! {

/// Whether `f` accepts every bit pattern and always gives the same text
/// for the same pattern.
pub open spec fn deterministic_text<F: Fn(u64) -> String>(f: F) -> bool {
    &&& forall|b: u64| #[trigger] f.requires((b,))
    &&& forall|b: u64, s1: String, s2: String| f.ensures((b,), s1) && f.ensures((b,), s2) ==> s1@ == s2@
}

/// The text that `f` gives for the bit pattern `b`.
pub open spec fn text_of<F: Fn(u64) -> String>(f: F, b: u64) -> Seq<char> {
    (choose|s: String| f.ensures((b,), s))@
}

/// Calls `f` on `b`: when `f` is deterministic the text is `text_of(f, b)`.
pub fn real_text<F: Fn(u64) -> String>(f: &F, b: u64) -> (r: String)
    requires
        f.requires((b,)),
    ensures
        deterministic_text(*f) ==> r@ == text_of(*f, b),
{
    let r = f(b);
    proof {
        if deterministic_text(*f) {
            let c = choose|s: String| f.ensures((b,), s);
            assert(f.ensures((b,), c));
        }
    }
    r
}

/// Whether `f` accepts every text and always gives the same result for the
/// same text.
pub open spec fn deterministic_parse<F: Fn(&str) -> Option<u64>>(f: F) -> bool {
    &&& forall|s: &str| #[trigger] f.requires((s,))
    &&& forall|s1: &str, s2: &str, r1: Option<u64>, r2: Option<u64>|
        s1@ == s2@ && f.ensures((s1,), r1) && f.ensures((s2,), r2) ==> r1 == r2
}

/// What `f` gives for a text with characters `t`.
pub open spec fn parsed_by<F: Fn(&str) -> Option<u64>>(f: F, t: Seq<char>) -> Option<u64> {
    (choose|s: &str, r: Option<u64>| s@ == t && #[trigger] f.ensures((s,), r)).1
}

/// Calls `f` on `s`: when `f` is deterministic the result is
/// `parsed_by(f, s@)`.
pub fn parse_real<F: Fn(&str) -> Option<u64>>(f: &F, s: &str) -> (r: Option<u64>)
    requires
        f.requires((s,)),
    ensures
        deterministic_parse(*f) ==> r == parsed_by(*f, s@),
{
    let r = f(s);
    proof {
        if deterministic_parse(*f) {
            assert(exists|s2: &str, r2: Option<u64>| s2@ == s@ && #[trigger] f.ensures((s2,), r2)) by {
                assert(f.ensures((s,), r));
            }
            let (s2, c) = choose|s2: &str, r2: Option<u64>| s2@ == s@ && #[trigger] f.ensures((s2,), r2);
            assert(f.ensures((s2,), c));
        }
    }
    r
}

} // verus!
