use vstd::prelude::*;
use std::collections::HashMap;
use vstd::std_specs::iter::IteratorSpec;

verus! {

broadcast use vstd::std_specs::hash::group_hash_axioms;

/// The server's answer to a client that asked to play a country.
#[derive(Clone, Copy, PartialEq, Eq, Structural, Debug)]
pub enum CountryAssignmentResponse {
    Success(u64),
    CountryIsBusy,
}

/// Which country each connected client plays, keyed by the client's entity.
pub struct Players(pub HashMap<u64, u64>);

/// No country is played by two clients.
pub open spec fn one_client_per_country(m: Map<u64, u64>) -> bool {
    forall|a: u64, b: u64|
        #[trigger] m.contains_key(a) && #[trigger] m.contains_key(b) && a != b ==> m[a] != m[b]
}

impl Players {
    /// Nobody plays yet.
    pub fn new() -> (res: Self)
        ensures
            res.0@ == Map::<u64, u64>::empty(),
    {
        Players(HashMap::new())
    }

    /// Whether some client plays `country`.
    fn is_played(&self, country: u64) -> (res: bool)
        ensures
            res == self.0@.values().contains(country),
    {
        let ghost vals = vstd::std_specs::hash::spec_values_iter(&self.0).remaining().unref();
        proof {
            assert(vals.to_set() == self.0@.values());
        }
        let mut busy = false;
        for v in iter: self.0.values()
            invariant
                vals == iter.seq().unref(),
                vals.to_set() == self.0@.values(),
                busy == exists|k: int| 0 <= k < iter.index() && vals[k] == country,
                iter.index() == vals.len() ==> (busy == vals.contains(country)),
        {
            if *v == country {
                busy = true;
            }
        }
        busy
    }

    /// A client asks to play `country`: it is refused when some client (the asking one
    /// included) already plays it; otherwise the client now plays it, in place of any
    /// country it played before.
    pub fn assign_country(&mut self, client: u64, country: u64) -> (res: CountryAssignmentResponse)
        ensures
            old(self).0@.values().contains(country) ==> {
                &&& res == CountryAssignmentResponse::CountryIsBusy
                &&& final(self).0@ == old(self).0@
            },
            !old(self).0@.values().contains(country) ==> {
                &&& res == CountryAssignmentResponse::Success(country)
                &&& final(self).0@ == old(self).0@.insert(client, country)
            },
    {
        if self.is_played(country) {
            CountryAssignmentResponse::CountryIsBusy
        } else {
            self.0.insert(client, country);
            CountryAssignmentResponse::Success(country)
        }
    }

    /// A client may give orders to a division of `division_country` only when it plays
    /// that country.
    pub fn may_order(&self, client: u64, division_country: u64) -> (res: bool)
        requires
            self.0@.contains_key(client),
        ensures
            res == (self.0@[client] == division_country),
    {
        *self.0.get(&client).unwrap() == division_country
    }
}

/// A client that was given a country may then order that country's divisions.
pub proof fn lemma_assigned_client_may_order(before: Map<u64, u64>, client: u64, country: u64)
    requires
        !before.values().contains(country),
    ensures
        before.insert(client, country).contains_key(client),
        before.insert(client, country)[client] == country,
{
}

/// Answering requests never lets two clients play the same country.
pub proof fn lemma_assign_keeps_countries_apart(
    before: Map<u64, u64>,
    client: u64,
    country: u64,
)
    requires
        one_client_per_country(before),
    ensures
        !before.values().contains(country) ==> one_client_per_country(
            before.insert(client, country),
        ),
{
    if !before.values().contains(country) {
        let after = before.insert(client, country);
        assert forall|a: u64, b: u64|
            #[trigger] after.contains_key(a) && #[trigger] after.contains_key(b) && a != b implies after[a]
            != after[b] by {
            if a == client {
                assert(before.contains_key(b));
                assert(before.values().contains(before[b]));
            } else if b == client {
                assert(before.contains_key(a));
                assert(before.values().contains(before[a]));
            }
        }
    }
}

} // verus!
