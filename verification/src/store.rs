//! The in-memory model of the `world` collection, and the three operations
//! on it: point fetch, fan-out fetch, and unordered bulk update.

use vstd::prelude::*;
use crate::models::{MongoError, World};

verus! {

/// The model of the `world` collection: a list of entities whose keys are
/// pairwise distinct. The database is the sole owner of persisted state;
/// this model gives the operations their stated meaning, and the unverified
/// shell runs the same operations against the real store.
pub struct WorldStore {
    worlds: Vec<World>,
}

/// Pairwise-distinct keys.
pub open spec fn unique_ids(s: Seq<World>) -> bool {
    forall|i: int, j: int| 0 <= i < j < s.len() ==> s[i].id != s[j].id
}

/// Whether some entity in the list carries key `k`.
pub open spec fn contains_id(s: Seq<World>, k: int) -> bool {
    exists|i: int| 0 <= i < s.len() && s[i].id as int == k
}

/// A list of entities read as a map from key to payload; of two entries with
/// one key, the later shadows the earlier.
pub open spec fn map_of(s: Seq<World>) -> Map<int, int>
    decreases s.len(),
{
    if s.len() == 0 {
        Map::empty()
    } else {
        map_of(s.drop_last()).insert(s.last().id as int, s.last().random_number as int)
    }
}

impl View for WorldStore {
    type V = Map<int, int>;

    closed spec fn view(&self) -> Map<int, int> {
        map_of(self.worlds@)
    }
}

impl WorldStore {
    /// Keys are pairwise distinct; every constructor establishes this and
    /// every operation preserves it.
    pub closed spec fn wf(&self) -> bool {
        unique_ids(self.worlds@)
    }

    /// An empty store.
    pub fn new() -> (r: WorldStore)
        ensures
            r.wf(),
            r@ == Map::<int, int>::empty(),
    {
        WorldStore { worlds: Vec::new() }
    }

    /// Seed or overwrite one entity: insert it, or replace the payload of
    /// the stored entity carrying the same key.
    pub fn put(&mut self, w: World)
        requires
            old(self).wf(),
        ensures
            final(self).wf(),
            final(self)@ == old(self)@.insert(w.id as int, w.random_number as int),
    {
        let ghost s0 = self.worlds@;
        let mut i: usize = 0;
        while i < self.worlds.len()
            invariant
                self.worlds@ == s0,
                old(self).worlds@ == s0,
                unique_ids(s0),
                i <= s0.len(),
                forall|j: int| 0 <= j < i ==> s0[j].id != w.id,
            decreases s0.len() - i,
        {
            if self.worlds[i].id == w.id {
                proof {
                    lemma_map_of_update(s0, i as int, w);
                    lemma_map_of_at(s0, i as int);
                    assert(unique_ids(s0.update(i as int, w))) by {
                        assert(forall|j: int|
                            0 <= j < s0.len() ==> (#[trigger] s0.update(i as int, w)[j]).id
                                == s0[j].id);
                    }
                }
                self.worlds[i] = w;
                return ;
            }
            i += 1;
        }
        proof {
            assert(s0.push(w).drop_last() =~= s0);
            assert(unique_ids(s0.push(w))) by {
                assert(forall|j: int| 0 <= j < s0.len() ==> #[trigger] s0.push(w)[j] == s0[j]);
            }
        }
        self.worlds.push(w);
    }
}

/// For every key the map of a list holds exactly the keys its entities carry.
proof fn lemma_map_of_dom(s: Seq<World>)
    ensures
        forall|k: int| #[trigger] map_of(s).dom().contains(k) <==> contains_id(s, k),
    decreases s.len(),
{
    if s.len() == 0 {
    } else {
        let t = s.drop_last();
        lemma_map_of_dom(t);
        assert forall|k: int| #[trigger] map_of(s).dom().contains(k) <==> contains_id(s, k) by {
            if map_of(s).dom().contains(k) {
                if k == s.last().id as int {
                    assert(s[s.len() - 1].id as int == k);
                } else {
                    assert(map_of(t).dom().contains(k));
                    assert(contains_id(t, k));
                    let i = choose|i: int| 0 <= i < t.len() && t[i].id as int == k;
                    assert(s[i].id as int == k);
                }
            }
            if contains_id(s, k) {
                let i = choose|i: int| 0 <= i < s.len() && s[i].id as int == k;
                if i < s.len() - 1 {
                    assert(t[i].id as int == k);
                    assert(contains_id(t, k));
                    assert(map_of(t).dom().contains(k));
                }
            }
        }
    }
}

/// With distinct keys, the map of a list holds each entity's payload at its key.
proof fn lemma_map_of_at(s: Seq<World>, i: int)
    requires
        unique_ids(s),
        0 <= i < s.len(),
    ensures
        map_of(s).dom().contains(s[i].id as int),
        map_of(s)[s[i].id as int] == s[i].random_number as int,
    decreases s.len(),
{
    if i < s.len() - 1 {
        let t = s.drop_last();
        assert(unique_ids(t));
        assert(t[i] == s[i]);
        lemma_map_of_at(t, i);
        assert(s[i].id != s.last().id);
    }
}

/// Replacing the payload of the entity at index `i` turns the map of the
/// list into the map with that entity's key re-bound.
proof fn lemma_map_of_update(s: Seq<World>, i: int, w: World)
    requires
        unique_ids(s),
        0 <= i < s.len(),
        w.id == s[i].id,
    ensures
        map_of(s.update(i, w)) == map_of(s).insert(w.id as int, w.random_number as int),
    decreases s.len(),
{
    let s2 = s.update(i, w);
    if i == s.len() - 1 {
        assert(s2.drop_last() =~= s.drop_last());
        assert(map_of(s2) =~= map_of(s).insert(w.id as int, w.random_number as int));
    } else {
        let t = s.drop_last();
        assert(unique_ids(t));
        assert(t[i] == s[i]);
        lemma_map_of_update(t, i, w);
        assert(s2.drop_last() =~= t.update(i, w));
        assert(s2.last() == s.last());
        assert(w.id != s.last().id);
        assert(map_of(s2) =~= map_of(s).insert(w.id as int, w.random_number as int));
    }
}

/// Look up the one entity whose key equals `id`. Success exactly when the
/// key is present; a missing key is the typed `NotFound` error, never a crash.
pub fn find_world_by_id(store: &WorldStore, id: i32) -> (r: Result<World, MongoError>)
    requires
        store.wf(),
    ensures
        match r {
            Ok(w) => store@.dom().contains(id as int) && w.id == id && w.random_number as int
                == store@[id as int],
            Err(e) => !store@.dom().contains(id as int) && e == MongoError::NotFound,
        },
{
    let mut i: usize = 0;
    while i < store.worlds.len()
        invariant
            store.wf(),
            i <= store.worlds@.len(),
            forall|j: int| 0 <= j < i ==> store.worlds@[j].id != id,
        decreases store.worlds@.len() - i,
    {
        if store.worlds[i].id == id {
            proof {
                lemma_map_of_at(store.worlds@, i as int);
            }
            return Ok(store.worlds[i]);
        }
        i += 1;
    }
    proof {
        lemma_map_of_dom(store.worlds@);
    }
    Err(MongoError::NotFound)
}

/// Fetch one entity per key in `ids`, fail-fast: the first missing key fails
/// the whole batch with the typed `NotFound` error. On success the batch
/// holds exactly one entity per requested key, in request order; success is
/// owed exactly when every requested key is present.
pub fn find_worlds(store: &WorldStore, ids: &Vec<i32>) -> (r: Result<Vec<World>, MongoError>)
    requires
        store.wf(),
    ensures
        match r {
            Ok(ws) => ws@.len() == ids@.len() && forall|i: int|
                0 <= i < ids@.len() ==> (#[trigger] ws@[i]).id == ids@[i]
                    && store@.dom().contains(ids@[i] as int) && ws@[i].random_number as int
                    == store@[ids@[i] as int],
            Err(e) => e == MongoError::NotFound && exists|i: int|
                0 <= i < ids@.len() && !store@.dom().contains(#[trigger] (ids@[i] as int)) && (
                forall|j: int| 0 <= j < i ==> store@.dom().contains(#[trigger] (ids@[j] as int))),
        },
{
    let mut out: Vec<World> = Vec::new();
    let mut i: usize = 0;
    while i < ids.len()
        invariant
            store.wf(),
            i <= ids@.len(),
            out@.len() == i,
            forall|j: int|
                0 <= j < i ==> (#[trigger] out@[j]).id == ids@[j] && store@.dom().contains(
                    ids@[j] as int,
                ) && out@[j].random_number as int == store@[ids@[j] as int],
        decreases ids@.len() - i,
    {
        match find_world_by_id(store, ids[i]) {
            Ok(w) => {
                out.push(w);
            },
            Err(e) => {
                proof {
                    assert(!store@.dom().contains(ids@[i as int] as int));
                    assert forall|j: int|
                        0 <= j < i implies store@.dom().contains(
                        #[trigger] (ids@[j] as int),
                    ) by {
                        assert(out@[j].id == ids@[j]);
                    }
                }
                return Err(e);
            },
        }
        i += 1;
    }
    Ok(out)
}

/// The update statements a batch of entities stands for: one (key, payload)
/// statement per entity, in submission order.
pub open spec fn update_pairs(s: Seq<World>) -> Seq<(int, int)> {
    s.map_values(|w: World| (w.id as int, w.random_number as int))
}

/// The meaning of one unordered bulk update: each statement sets the payload
/// of the stored entity whose key equals the statement's key, and a statement
/// matching no stored key changes nothing. Statements are folded left to
/// right; of two statements with one key the later one wins, which is one of
/// the outcomes the unordered command permits.
pub open spec fn apply_updates(m: Map<int, int>, us: Seq<(int, int)>) -> Map<int, int>
    decreases us.len(),
{
    if us.len() == 0 {
        m
    } else {
        let prev = apply_updates(m, us.drop_last());
        if prev.dom().contains(us.last().0) {
            prev.insert(us.last().0, us.last().1)
        } else {
            prev
        }
    }
}

/// Whether some statement in the batch carries key `k`.
pub open spec fn has_key(us: Seq<(int, int)>, k: int) -> bool {
    exists|i: int| 0 <= i < us.len() && us[i].0 == k
}

/// The value of the last statement in the batch that carries key `k`.
pub open spec fn last_value(us: Seq<(int, int)>, k: int) -> int
    recommends
        has_key(us, k),
    decreases us.len(),
{
    if us.len() == 0 {
        0
    } else if us.last().0 == k {
        us.last().1
    } else {
        last_value(us.drop_last(), k)
    }
}

/// Pairwise-distinct statement keys.
pub open spec fn distinct_keys(us: Seq<(int, int)>) -> bool {
    forall|i: int, j: int| 0 <= i < j < us.len() ==> us[i].0 != us[j].0
}

/// A bulk update never adds or removes a key: it only re-binds stored ones.
pub proof fn lemma_apply_updates_dom(m: Map<int, int>, us: Seq<(int, int)>)
    ensures
        apply_updates(m, us).dom() == m.dom(),
    decreases us.len(),
{
    if us.len() == 0 {
    } else {
        lemma_apply_updates_dom(m, us.drop_last());
        assert(apply_updates(m, us).dom() =~= m.dom());
    }
}

/// A key no statement carries keeps its binding across the whole batch.
pub proof fn lemma_apply_updates_frame(m: Map<int, int>, us: Seq<(int, int)>, k: int)
    requires
        !has_key(us, k),
    ensures
        apply_updates(m, us).dom().contains(k) <==> m.dom().contains(k),
        m.dom().contains(k) ==> apply_updates(m, us)[k] == m[k],
    decreases us.len(),
{
    if us.len() == 0 {
    } else {
        let t = us.drop_last();
        assert(!has_key(t, k)) by {
            if has_key(t, k) {
                let i = choose|i: int| 0 <= i < t.len() && t[i].0 == k;
                assert(us[i].0 == k);
            }
        }
        lemma_apply_updates_frame(m, t, k);
        assert(us[us.len() - 1].0 != k);
    }
}

/// A stored key some statement carries ends bound to the value of the last
/// statement that carries it.
pub proof fn lemma_apply_updates_at(m: Map<int, int>, us: Seq<(int, int)>, k: int)
    requires
        m.dom().contains(k),
        has_key(us, k),
    ensures
        apply_updates(m, us).dom().contains(k),
        apply_updates(m, us)[k] == last_value(us, k),
    decreases us.len(),
{
    let t = us.drop_last();
    lemma_apply_updates_dom(m, t);
    if us.last().0 == k {
    } else {
        assert(has_key(t, k)) by {
            let i = choose|i: int| 0 <= i < us.len() && us[i].0 == k;
            assert(i != us.len() - 1);
            assert(t[i].0 == k);
        }
        lemma_apply_updates_at(m, t, k);
    }
}

/// With pairwise-distinct keys, the last (and only) statement carrying a key
/// is the statement itself.
proof fn lemma_last_value_distinct(us: Seq<(int, int)>, i: int)
    requires
        distinct_keys(us),
        0 <= i < us.len(),
    ensures
        last_value(us, us[i].0) == us[i].1,
    decreases us.len(),
{
    if i == us.len() - 1 {
    } else {
        let t = us.drop_last();
        assert(t[i] == us[i]);
        assert(us.last().0 != us[i].0);
        lemma_last_value_distinct(t, i);
    }
}

/// Law: in a batch with pairwise-distinct keys, every statement whose key is
/// stored sets that entity's payload to exactly its submitted value.
pub proof fn lemma_bulk_update_sets_values(m: Map<int, int>, us: Seq<(int, int)>, i: int)
    requires
        distinct_keys(us),
        0 <= i < us.len(),
        m.dom().contains(us[i].0),
    ensures
        apply_updates(m, us)[us[i].0] == us[i].1,
{
    assert(has_key(us, us[i].0)) by {
        assert(0 <= i < us.len() && us[i].0 == us[i].0);
    }
    lemma_apply_updates_at(m, us, us[i].0);
    lemma_last_value_distinct(us, i);
}

/// Law: a bulk update is idempotent: applying one batch to the state it
/// produced changes nothing.
pub proof fn lemma_bulk_update_idempotent(m: Map<int, int>, us: Seq<(int, int)>)
    ensures
        apply_updates(apply_updates(m, us), us) == apply_updates(m, us),
{
    let m1 = apply_updates(m, us);
    let m2 = apply_updates(m1, us);
    lemma_apply_updates_dom(m, us);
    lemma_apply_updates_dom(m1, us);
    assert forall|k: int| m1.dom().contains(k) implies m2[k] == m1[k] by {
        if has_key(us, k) {
            lemma_apply_updates_at(m, us, k);
            lemma_apply_updates_at(m1, us, k);
        } else {
            lemma_apply_updates_frame(m1, us, k);
        }
    }
    assert(m2 =~= m1);
}

/// Run one update statement: set the payload of the stored entity whose key
/// equals the statement's key, or change nothing when no key matches.
fn apply_one(store: &mut WorldStore, w: World)
    requires
        old(store).wf(),
    ensures
        final(store).wf(),
        final(store)@ == (if old(store)@.dom().contains(w.id as int) {
            old(store)@.insert(w.id as int, w.random_number as int)
        } else {
            old(store)@
        }),
{
    let ghost s0 = store.worlds@;
    let mut i: usize = 0;
    while i < store.worlds.len()
        invariant
            store.worlds@ == s0,
            old(store).worlds@ == s0,
            unique_ids(s0),
            i <= s0.len(),
            forall|j: int| 0 <= j < i ==> s0[j].id != w.id,
        decreases s0.len() - i,
    {
        if store.worlds[i].id == w.id {
            proof {
                lemma_map_of_update(s0, i as int, w);
                lemma_map_of_at(s0, i as int);
                assert(unique_ids(s0.update(i as int, w))) by {
                    assert(forall|j: int|
                        0 <= j < s0.len() ==> (#[trigger] s0.update(i as int, w)[j]).id
                            == s0[j].id);
                }
            }
            store.worlds[i] = w;
            return ;
        }
        i += 1;
    }
    proof {
        lemma_map_of_dom(s0);
    }
}

/// Submit one unordered bulk update, one statement per entity in `worlds`:
/// each statement matches the stored entity whose key equals the submitted
/// key and sets its payload to the submitted value; a statement matching no
/// stored key changes nothing, and no statement ever adds a key. The model
/// command itself always succeeds.
pub fn update_worlds(store: &mut WorldStore, worlds: &Vec<World>) -> (r: Result<
    bool,
    MongoError,
>)
    requires
        old(store).wf(),
    ensures
        final(store).wf(),
        final(store)@ == apply_updates(old(store)@, update_pairs(worlds@)),
        r == Ok::<bool, MongoError>(true),
{
    let mut i: usize = 0;
    while i < worlds.len()
        invariant
            store.wf(),
            i <= worlds@.len(),
            store@ == apply_updates(old(store)@, update_pairs(worlds@.take(i as int))),
        decreases worlds@.len() - i,
    {
        proof {
            let us = update_pairs(worlds@.take(i as int));
            let p = (worlds@[i as int].id as int, worlds@[i as int].random_number as int);
            assert(update_pairs(worlds@.take(i as int + 1)) =~= us.push(p));
            assert(us.push(p).drop_last() =~= us);
        }
        apply_one(store, worlds[i]);
        i += 1;
    }
    proof {
        assert(worlds@.take(worlds@.len() as int) =~= worlds@);
    }
    Ok(true)
}

/// Law: a successful fan-out returns exactly one entity per requested key,
/// and every returned key is one of the requested keys.
pub proof fn lemma_fan_out_keys(ids: Seq<i32>, ws: Seq<World>)
    requires
        ws.len() == ids.len(),
        forall|i: int| 0 <= i < ids.len() ==> (#[trigger] ws[i]).id == ids[i],
    ensures
        forall|j: int| 0 <= j < ws.len() ==> ids.contains(#[trigger] ws[j].id),
{
    assert forall|j: int| 0 <= j < ws.len() implies ids.contains(ws[j].id) by {
        assert(ids[j] == ws[j].id);
    }
}

} // verus!

