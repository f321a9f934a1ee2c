//! Name aggregator and selector: merges the loaded name lists in source
//! order and draws one entry uniformly at random.

use vstd::prelude::*;

use crate::loader::copy_bytes;

verus! {

/// Concatenates two name lists: all of `a`'s entries first, then all of
/// `b`'s, each list's internal order preserved. No deduplication, no
/// sorting, no filtering.
pub fn merge_names(a: Vec<Vec<u8>>, b: Vec<Vec<u8>>) -> (m: Vec<Vec<u8>>)
    ensures
        m@ == a@ + b@,
{
    let mut m = a;
    let mut rest = b;
    m.append(&mut rest);
    m
}

/// Aggregation keeps source order: in the merged list, source A's entries
/// come first, in their order, then source B's, in theirs — never the
/// reverse.
pub proof fn lemma_aggregation_order(a: Seq<Seq<u8>>, b: Seq<Seq<u8>>)
    ensures
        (a + b).len() == a.len() + b.len(),
        forall|i: int| 0 <= i < a.len() ==> (a + b)[i] == a[i],
        forall|i: int| 0 <= i < b.len() ==> (a + b)[a.len() + i] == b[i],
{
}

/// Relies on rand: `Rng::random_range` over `0..n` returns a value drawn
/// uniformly from that non-empty range, seeded from the operating system.
/// The range is non-empty (`n > 0`), so the call cannot panic.
#[verifier::external_body]
fn random_index(n: usize) -> (r: usize)
    requires
        n > 0,
    ensures
        r < n,
{
    rand::Rng::random_range(&mut rand::rng(), 0..n)
}

/// Draws one name at random from the list, each entry equally likely.
/// Returns `None` exactly when the list is empty: the defensive
/// "no candidates" condition, distinct from any sentinel value.
pub fn select_name(names: &Vec<Vec<u8>>) -> (r: Option<Vec<u8>>)
    ensures
        r is Some <==> names@.len() > 0,
        r matches Some(name) ==> exists|i: int|
            0 <= i < names@.len() && name@ == #[trigger] names@[i]@,
{
    if names.len() == 0 {
        None
    } else {
        let i = random_index(names.len());
        let name = copy_bytes(&names[i]);
        assert(name@ == names@[i as int]@);
        Some(name)
    }
}

} // verus!
