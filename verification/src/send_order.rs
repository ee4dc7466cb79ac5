//! The order in which connections are served when packets go out.

use vstd::prelude::*;

use crate::keys::Address;

verus! {

broadcast use vstd::seq_lib::group_to_multiset_ensures;

/// fastrand's `shuffle`: reorders the addresses at random by a run of swaps,
/// so the same addresses come back, each as often as before. Which order
/// comes back is left open: it depends on the generator's state.
#[verifier::external_body]
fn shuffle(items: &mut Vec<Address>)
    ensures
        final(items)@.to_multiset() == old(items)@.to_multiset(),
{
    fastrand::shuffle(items.as_mut_slice())
}

/// The order in which to serve `connections` when sending: every one of
/// them, in a random order so that no user is always served first.
pub fn send_order(connections: &Vec<Address>) -> (r: Vec<Address>)
    ensures
        r@.to_multiset() == connections@.to_multiset(),
        r@.len() == connections@.len(),
{
    let mut order: Vec<Address> = Vec::new();
    let mut i: usize = 0;
    while i < connections.len()
        invariant
            i <= connections@.len(),
            order@ == connections@.take(i as int),
        decreases connections@.len() - i,
    {
        order.push(connections[i]);
        proof {
            assert(connections@.take(i + 1) =~= connections@.take(i as int).push(connections@[i as int]));
        }
        i += 1;
    }
    proof {
        assert(connections@.take(connections@.len() as int) =~= connections@);
    }
    shuffle(&mut order);
    proof {
        order@.to_multiset_ensures();
        connections@.to_multiset_ensures();
    }
    order
}

} // verus!
