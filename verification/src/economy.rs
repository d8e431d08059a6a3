use vstd::prelude::*;
use std::collections::HashMap;
use crate::world::{WorldMap, ProvinceEntry};

verus! {

broadcast use vstd::std_specs::hash::group_hash_axioms;

/// What every province yields to its owner each tick.
pub const MONEY_PER_HOUR: usize = 1;

/// The number of provinces of `provs` owned by `c`.
pub open spec fn owned_count(provs: Seq<ProvinceEntry>, c: u64) -> nat
    decreases provs.len(),
{
    if provs.len() == 0 {
        0
    } else {
        owned_count(provs.drop_last(), c) + if provs.last().owner == Some(c) {
            1nat
        } else {
            0nat
        }
    }
}

proof fn lemma_owned_count_prefix(provs: Seq<ProvinceEntry>, c: u64, i: int)
    requires
        0 <= i <= provs.len(),
    ensures
        owned_count(provs.take(i), c) <= owned_count(provs, c),
    decreases provs.len(),
{
    if i < provs.len() {
        assert(provs.drop_last().take(i) =~= provs.take(i));
        lemma_owned_count_prefix(provs.drop_last(), c, i);
    } else {
        assert(provs.take(i) =~= provs);
    }
}

/// Every province yields `MONEY_PER_HOUR` to its owner: each country's money grows by
/// that much for every province it owns. `money` maps each country to its treasury.
pub fn gain_money(map: &WorldMap, money: &mut HashMap<u64, usize>)
    requires
        forall|i: int|
            0 <= i < map@.len() ==> (#[trigger] map@[i].owner matches Some(c) ==> old(
                money,
            )@.contains_key(c)),
        forall|c: u64|
            #[trigger] old(money)@.contains_key(c) ==> old(money)@[c] + owned_count(map@, c)
                * MONEY_PER_HOUR <= usize::MAX,
    ensures
        final(money)@.dom() == old(money)@.dom(),
        forall|c: u64|
            #[trigger] final(money)@.contains_key(c) ==> final(money)@[c] == old(money)@[c]
                + owned_count(map@, c) * MONEY_PER_HOUR,
        forall|c: u64|
            #[trigger] final(money)@.contains_key(c) ==> final(money)@[c] == old(money)@[c]
                + map@.filter(|e: ProvinceEntry| e.owner == Some(c)).len() * MONEY_PER_HOUR,
{
    let n = map.len();
    let mut i: usize = 0;
    while i < n
        invariant
            n == map@.len(),
            i <= n,
            forall|i: int|
                0 <= i < map@.len() ==> (#[trigger] map@[i].owner matches Some(c) ==> old(
                    money,
                )@.contains_key(c)),
            forall|c: u64|
                #[trigger] old(money)@.contains_key(c) ==> old(money)@[c] + owned_count(map@, c)
                    * MONEY_PER_HOUR <= usize::MAX,
            money@.dom() == old(money)@.dom(),
            forall|c: u64|
                #[trigger] money@.contains_key(c) ==> money@[c] == old(money)@[c] + owned_count(
                    map@.take(i as int),
                    c,
                ) * MONEY_PER_HOUR,
        decreases n - i,
    {
        let prov = map.province(i);
        assert(map@.take(i + 1).drop_last() =~= map@.take(i as int));
        match prov.owner {
            Some(country) => {
                assert(money@.contains_key(country));
                let m = *money.get(&country).unwrap();
                proof {
                    lemma_owned_count_prefix(map@, country, i + 1);
                }
                money.insert(country, m + MONEY_PER_HOUR);
            },
            None => {},
        }
        i += 1;
    }
    assert(map@.take(n as int) =~= map@);
    proof {
        assert forall|c: u64| #[trigger] money@.contains_key(c) implies money@[c] == old(money)@[c]
            + map@.filter(|e: ProvinceEntry| e.owner == Some(c)).len() * MONEY_PER_HOUR by {
            lemma_owned_count_is_filter_len(map@, c);
        }
    }
}

/// A country owns as many provinces as there are entries of the map with it as their
/// owner: `owned_count` is the length of the provinces filtered by owner, so every
/// owned province, wherever it stands in the map, counts once for its owner.
pub proof fn lemma_owned_count_is_filter_len(provs: Seq<ProvinceEntry>, c: u64)
    ensures
        owned_count(provs, c) == provs.filter(|e: ProvinceEntry| e.owner == Some(c)).len(),
    decreases provs.len(),
{
    reveal(Seq::filter);
    if provs.len() > 0 {
        lemma_owned_count_is_filter_len(provs.drop_last(), c);
    }
}

/// Adding a province to the map adds one to the count of its owner and leaves the
/// counts of the other countries as they were.
pub proof fn lemma_owned_count_push(provs: Seq<ProvinceEntry>, e: ProvinceEntry, c: u64)
    ensures
        owned_count(provs.push(e), c) == owned_count(provs, c) + if e.owner == Some(c) {
            1nat
        } else {
            0nat
        },
{
    lemma_owned_count_is_filter_len(provs, c);
    lemma_owned_count_is_filter_len(provs.push(e), c);
    reveal(Seq::filter);
    assert(provs.push(e).drop_last() =~= provs);
}

} // verus!
