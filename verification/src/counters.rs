//! The counter store: a shared, concurrently incrementable map from
//! disallowed character to how many times it was removed.

use vstd::prelude::*;
use dashmap::DashMap;

verus! {

/// Relies on dashmap::DashMap being a map with per-key atomic updates.
#[verifier::external_type_specification]
#[verifier::external_body]
#[verifier::reject_recursive_types(K)]
#[verifier::reject_recursive_types(V)]
#[verifier::reject_recursive_types(S)]
pub struct ExDashMap<K, V, S>(DashMap<K, V, S>);

/// What a counter map holds: each registered character's running count.
pub uninterp spec fn counts_of(m: DashMap<char, usize>) -> Map<char, nat>;

/// `n` capped at the largest count a counter can hold.
pub open spec fn sat_cap(n: nat) -> nat {
    if n > usize::MAX {
        usize::MAX as nat
    } else {
        n
    }
}

/// Saturating addition of counts.
pub open spec fn sat_add(a: nat, b: nat) -> nat {
    sat_cap(a + b)
}

/// Whether every count is representable. Every store the library hands out
/// satisfies this, and every operation keeps it.
pub open spec fn bounded(m: Map<char, nat>) -> bool {
    forall|c: char| #[trigger] m.contains_key(c) ==> m[c] <= usize::MAX
}

/// Adds one to a count, stopping at the largest representable value.
pub(crate) fn bump_count(v: usize) -> (r: usize)
    ensures
        r as nat == sat_add(v as nat, 1),
{
    if v < usize::MAX {
        v + 1
    } else {
        v
    }
}

/// Relies on DashMap::new: creates an empty map.
#[verifier::external_body]
fn dm_new() -> (r: DashMap<char, usize>)
    ensures
        forall|c: char| !counts_of(r).contains_key(c),
{
    DashMap::new()
}

/// Relies on DashMap::insert: associates the key with the value, replacing
/// any earlier value.
#[verifier::external_body]
fn dm_insert(m: &mut DashMap<char, usize>, c: char, v: usize)
    ensures
        counts_of(*final(m)) == counts_of(*old(m)).insert(c, v as nat),
{
    m.insert(c, v);
}

/// Relies on DashMap::alter: applies the given function to the key's value
/// while holding that key's lock (so no concurrent update is lost), and does
/// nothing where the key is absent. The function applied is `bump_count`.
#[verifier::external_body]
fn dm_bump(m: &mut DashMap<char, usize>, c: char)
    ensures
        counts_of(*final(m)) == (if counts_of(*old(m)).contains_key(c) {
            counts_of(*old(m)).insert(c, sat_add(counts_of(*old(m))[c], 1))
        } else {
            counts_of(*old(m))
        }),
{
    m.alter(&c, |_k, v| bump_count(v));
}

/// Relies on DashMap::iter: yields every entry exactly once, keys unique, in
/// no particular order.
#[verifier::external_body]
fn dm_snapshot(m: &DashMap<char, usize>) -> (r: Vec<(char, usize)>)
    ensures
        forall|i: int, j: int| 0 <= i < j < r@.len() ==> r@[i].0 != r@[j].0,
        forall|i: int|
            0 <= i < r@.len() ==> counts_of(*m).contains_key(#[trigger] r@[i].0) && counts_of(
                *m,
            )[r@[i].0] == r@[i].1 as nat,
        forall|c: char|
            counts_of(*m).contains_key(c) ==> exists|i: int|
                0 <= i < r@.len() && (#[trigger] r@[i]).0 == c,
{
    m.iter().map(|e| (*e.key(), *e.value())).collect()
}

/// A store of removal counters, one per registered character. Its view is
/// the mapping from registered character to count.
pub struct CounterStore {
    map: DashMap<char, usize>,
}

impl View for CounterStore {
    type V = Map<char, nat>;

    closed spec fn view(&self) -> Map<char, nat> {
        counts_of(self.map)
    }
}

impl CounterStore {
    /// A store with exactly the given characters registered, all counts zero.
    pub fn new(keys: &Vec<char>) -> (r: CounterStore)
        ensures
            forall|c: char| r@.contains_key(c) <==> keys@.contains(c),
            forall|c: char| #[trigger] r@.contains_key(c) ==> r@[c] == 0,
    {
        let mut map = dm_new();
        let n = keys.len();
        for k in 0..n
            invariant
                n == keys@.len(),
                forall|c: char| counts_of(map).contains_key(c) <==> keys@.take(k as int).contains(c),
                forall|c: char| #[trigger] counts_of(map).contains_key(c) ==> counts_of(map)[c] == 0,
        {
            dm_insert(&mut map, keys[k], 0);
            proof {
                assert forall|c: char| counts_of(map).contains_key(c) implies keys@.take(
                    k + 1,
                ).contains(c) by {
                    if c == keys@[k as int] {
                        assert(keys@.take(k + 1)[k as int] == c);
                    } else {
                        let i = choose|i: int| 0 <= i < k && #[trigger] keys@.take(k as int)[i] == c;
                        assert(keys@.take(k + 1)[i] == c);
                    }
                }
                assert forall|c: char| keys@.take(k + 1).contains(c) implies counts_of(
                    map,
                ).contains_key(c) by {
                    let i = choose|i: int| 0 <= i < k + 1 && #[trigger] keys@.take(k + 1)[i] == c;
                    if i < k {
                        assert(keys@.take(k as int)[i] == c);
                    }
                }
            }
        }
        proof {
            assert(keys@.take(n as int) =~= keys@);
        }
        CounterStore { map }
    }

    /// Zeroes every registered counter; no counter is added or removed.
    pub fn reset(&mut self)
        ensures
            final(self)@.dom() == old(self)@.dom(),
            forall|c: char| #[trigger] final(self)@.contains_key(c) ==> final(self)@[c] == 0,
    {
        let snap = dm_snapshot(&self.map);
        let n = snap.len();
        for k in 0..n
            invariant
                n == snap@.len(),
                counts_of(self.map).dom() == old(self)@.dom(),
                forall|i: int|
                    0 <= i < n ==> counts_of(self.map).contains_key(#[trigger] snap@[i].0),
                forall|i: int| 0 <= i < k ==> counts_of(self.map)[(#[trigger] snap@[i]).0] == 0,
        {
            dm_insert(&mut self.map, snap[k].0, 0);
            proof {
                assert(counts_of(self.map).dom() =~= old(self)@.dom());
            }
        }
        proof {
            assert forall|c: char| final(self)@.contains_key(c) implies final(self)@[c] == 0 by {
                let i = choose|i: int| 0 <= i < snap@.len() && (#[trigger] snap@[i]).0 == c;
                assert(counts_of(self.map)[snap@[i].0] == 0);
            }
        }
    }

    /// Adds one to `c`'s counter, saturating at the largest representable
    /// count; does nothing where `c` is not registered.
    pub fn increment(&mut self, c: char)
        ensures
            final(self)@ == (if old(self)@.contains_key(c) {
                old(self)@.insert(c, sat_add(old(self)@[c], 1))
            } else {
                old(self)@
            }),
    {
        dm_bump(&mut self.map, c);
    }

    /// The registered characters and their counts, each exactly once, in no
    /// particular order.
    pub fn snapshot(&self) -> (r: Vec<(char, usize)>)
        ensures
            forall|i: int, j: int| 0 <= i < j < r@.len() ==> r@[i].0 != r@[j].0,
            forall|i: int|
                0 <= i < r@.len() ==> self@.contains_key(#[trigger] r@[i].0) && self@[r@[i].0]
                    == r@[i].1 as nat,
            forall|c: char|
                self@.contains_key(c) ==> exists|i: int| 0 <= i < r@.len() && (#[trigger] r@[i]).0
                    == c,
    {
        dm_snapshot(&self.map)
    }
}

} // verus!
