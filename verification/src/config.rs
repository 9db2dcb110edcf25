//! The configuration of a cluster.

use std::collections::HashMap;
use std::hash::Hash;
use vstd::prelude::*;
use vstd::std_specs::hash::obeys_key_model;
use vstd::std_specs::iter::IteratorSpec;

use crate::common::{ReplicaId, SigningKey, ViewNumber};
use crate::text::{append_decimal, decimal};

verus! {

broadcast use vstd::std_specs::hash::group_hash_axioms;

/// Who takes part in a cluster.
#[derive(Debug)]
pub struct Config<A, K> {
    /// The address of each replica, by its id.
    pub replica_address: Vec<A>,
    /// The address that reaches all replicas, where there is one.
    pub multicast_address: Option<A>,
    /// How many replicas may be faulty.
    pub n_fault: usize,
    /// The signing keys, by address; empty for protocols without signatures.
    pub signing_key: HashMap<A, K>,
}

impl<A, K> Config<A, K> {
    /// The address of replica `id`.
    pub fn replica(&self, id: ReplicaId) -> (address: &A)
        requires
            id < self.replica_address.len(),
        ensures
            *address == self.replica_address[id as int],
    {
        &self.replica_address[id as usize]
    }

    /// The replica that leads view `view_number`: replicas take turns.
    pub fn view_primary(&self, view_number: ViewNumber) -> (primary: ReplicaId)
        requires
            self.replica_address.len() > 0,
        ensures
            primary == view_number as int % self.replica_address.len() as int,
            primary < self.replica_address.len(),
    {
        let primary = view_number as usize % self.replica_address.len();
        assert(primary <= view_number) by {
            vstd::arithmetic::div_mod::lemma_mod_decreases(
                view_number as nat,
                self.replica_address.len() as nat,
            );
        }
        primary as ReplicaId
    }
}

/// Addresses of this type can be the keys of a map: hashing and comparing
/// them is consistent, and a clone is the address that it was cloned from.
pub open spec fn are_keys<A: Clone>() -> bool {
    &&& obeys_key_model::<A>()
    &&& forall|a: A, b: A| #[trigger] cloned(a, b) ==> a == b
}

/// `keys` with the key of each replica entered under its address. Of several
/// replicas with one address the last one counts.
pub open spec fn keys_collected<A, K>(
    keys: Map<A, K>,
    addresses: Seq<A>,
    collected: Seq<K>,
) -> Map<A, K>
    decreases addresses.len(),
{
    if addresses.len() == 0 {
        keys
    } else {
        keys_collected(keys, addresses.drop_last(), collected.drop_last()).insert(
            addresses.last(),
            collected.last(),
        )
    }
}

/// Takes the next item from an iterator.
fn next_item<I: Iterator>(items: &mut I) -> (item: Option<I::Item>)
    ensures
        I::obeys_prophetic_iter_laws(old(items)) ==> if I::remaining(old(items)).len() > 0 {
            &&& item == Some(I::remaining(old(items))[0])
            &&& I::remaining(final(items)) == I::remaining(old(items)).drop_first()
        } else {
            item is None
        },
{
    items.next()
}

impl<A: Clone + Eq + Hash, K: SigningKey> Config<A, K> {
    /// The verifying key for each signing key.
    pub fn verifying_key(&self) -> (keys: HashMap<A, K::VerifyingKey>)
        ensures
            are_keys::<A>() ==> {
                &&& keys@.dom() == self.signing_key@.dom()
                &&& forall|address: A| #[trigger]
                    keys@.contains_key(address) ==> call_ensures(
                        K::verifying_key,
                        (&self.signing_key@[address],),
                        keys@[address],
                    )
            },
    {
        let mut keys: HashMap<A, K::VerifyingKey> = HashMap::new();
        let ghost signing = self.signing_key@;
        let count = self.signing_key.len();
        let mut entries = self.signing_key.iter();
        let mut i: usize = 0;
        while i < count
            invariant
                i <= count,
                signing == self.signing_key@,
                are_keys::<A>() ==> {
                    let all = self.signing_key.iter().remaining();
                    &&& all.len() == count
                    &&& entries.remaining() == all.skip(i as int)
                    &&& forall|j: int|
                        0 <= j < i ==> keys@.contains_key(*(#[trigger] all[j]).0)
                    &&& forall|a: A| #[trigger]
                        keys@.contains_key(a) ==> signing.contains_key(a) && call_ensures(
                            K::verifying_key,
                            (&signing[a],),
                            keys@[a],
                        )
                },
            decreases count - i,
        {
            if let Some((address, key)) = next_item(&mut entries) {
                let copy = address.clone();
                assert(cloned(*address, copy));
                keys.insert(copy, key.verifying_key());
            }
            i += 1;
        }
        assert(are_keys::<A>() ==> keys@.dom() =~= signing.dom());
        keys
    }
}

/// The name of the file that holds the signing key of replica `index`, given
/// the name that the files of a cluster have in common.
pub fn key_file_name(prefix: &str, index: usize) -> (name: String)
    ensures
        name@ == prefix@ + "-"@ + decimal(index as nat) + ".pem"@,
{
    let mut name = prefix.to_string();
    name.append("-");
    append_decimal(&mut name, index);
    name.append(".pem");
    name
}

impl<A: Clone + Eq + Hash, K> Config<A, K> {
    /// Enters the signing key of each replica under its address.
    pub fn collect_signing_key(&mut self, keys: Vec<K>)
        requires
            keys.len() == old(self).replica_address.len(),
        ensures
            final(self).replica_address == old(self).replica_address,
            final(self).multicast_address == old(self).multicast_address,
            final(self).n_fault == old(self).n_fault,
            are_keys::<A>() ==> final(self).signing_key@ == keys_collected(
                old(self).signing_key@,
                old(self).replica_address@,
                keys@,
            ),
    {
        let ghost before = *self;
        let ghost all = keys@;
        let mut i: usize = 0;
        assert(before.replica_address@.take(0) =~= seq![]);
        for key in it: keys
            invariant
                it.seq() == all,
                i == it.index(),
                all.len() == before.replica_address.len(),
                self.replica_address == before.replica_address,
                self.multicast_address == before.multicast_address,
                self.n_fault == before.n_fault,
                are_keys::<A>() ==> self.signing_key@ == keys_collected(
                    before.signing_key@,
                    before.replica_address@.take(i as int),
                    all.take(i as int),
                ),
        {
            let address = self.replica_address[i].clone();
            assert(cloned(self.replica_address[i as int], address));
            self.signing_key.insert(address, key);
            proof {
                let n = i as int;
                assert(key == all[n]);
                assert(before.replica_address@.take(n + 1).drop_last()
                    =~= before.replica_address@.take(n));
                assert(all.take(n + 1).drop_last() =~= all.take(n));
            }
            i += 1;
        }
        assert(before.replica_address@.take(i as int) =~= before.replica_address@);
        assert(all.take(i as int) =~= all);
    }
}

/// Where no two replicas share an address, every replica finds its own key
/// under its address, and the other keys stay.
pub proof fn law_replicas_find_their_keys<A, K>(
    keys: Map<A, K>,
    addresses: Seq<A>,
    collected: Seq<K>,
)
    requires
        addresses.len() == collected.len(),
        addresses.no_duplicates(),
    ensures
        forall|i: int|
            0 <= i < addresses.len() ==> keys_collected(keys, addresses, collected).contains_key(
                #[trigger] addresses[i],
            ) && keys_collected(keys, addresses, collected)[addresses[i]] == collected[i],
        forall|address: A| #[trigger]
            keys_collected(keys, addresses, collected).contains_key(address) && !addresses.contains(
                address,
            ) ==> keys.contains_key(address) && keys_collected(
                keys,
                addresses,
                collected,
            )[address] == keys[address],
        forall|address: A| #[trigger]
            keys.contains_key(address) ==> keys_collected(
                keys,
                addresses,
                collected,
            ).contains_key(address),
    decreases addresses.len(),
{
    if addresses.len() > 0 {
        let earlier = addresses.drop_last();
        law_replicas_find_their_keys(keys, earlier, collected.drop_last());
        assert forall|i: int| 0 <= i < addresses.len() implies keys_collected(
            keys,
            addresses,
            collected,
        ).contains_key(#[trigger] addresses[i]) && keys_collected(
            keys,
            addresses,
            collected,
        )[addresses[i]] == collected[i] by {
            if i < earlier.len() {
                assert(earlier[i] == addresses[i]);
                assert(addresses[i] != addresses.last());
            }
        }
        let before = keys_collected(keys, earlier, collected.drop_last());
        let after = keys_collected(keys, addresses, collected);
        assert forall|address: A| #[trigger] after.contains_key(address) && !addresses.contains(
            address,
        ) implies keys.contains_key(address) && after[address] == keys[address] by {
            assert(addresses[addresses.len() - 1] == addresses.last());
            assert(before.contains_key(address));
            assert(!earlier.contains(address)) by {
                if earlier.contains(address) {
                    let i = choose|i: int| 0 <= i < earlier.len() && earlier[i] == address;
                    assert(addresses[i] == address);
                }
            }
        }
        assert forall|address: A| #[trigger] keys.contains_key(address) implies after.contains_key(
            address,
        ) by {
            assert(before.contains_key(address));
        }
    }
}

} // verus!
