//! What holds of the index over many calls.

use vstd::prelude::*;
use crate::location::{RecordModel, key_of, fold_key};
use crate::index::{Database, added, lists};

verus! {

/// The identity that the next new record receives after a visit of `loc`.
pub open spec fn next_id_after(m: Map<Seq<char>, RecordModel>, next_id: u64, loc: Seq<char>) -> u64 {
    if m.contains_key(fold_key(loc)) {
        next_id
    } else {
        (next_id + 1) as u64
    }
}

/// The entries after the visits in order, each a location and its time, each
/// as a successful `add_location_at` states it.
pub open spec fn replay(
    m: Map<Seq<char>, RecordModel>,
    next_id: u64,
    visits: Seq<(Seq<char>, u64)>,
) -> Map<Seq<char>, RecordModel>
    decreases visits.len(),
{
    if visits.len() == 0 {
        m
    } else {
        let (loc, now) = visits[0];
        replay(added(m, next_id, loc, now), next_id_after(m, next_id, loc), visits.drop_first())
    }
}

/// The identity that the next new record receives after the visits in order.
pub open spec fn replay_next_id(
    m: Map<Seq<char>, RecordModel>,
    next_id: u64,
    visits: Seq<(Seq<char>, u64)>,
) -> u64
    decreases visits.len(),
{
    if visits.len() == 0 {
        next_id
    } else {
        let (loc, now) = visits[0];
        replay_next_id(added(m, next_id, loc, now), next_id_after(m, next_id, loc), visits.drop_first())
    }
}

/// One more visit extends the replay: an index whose entries and next identity
/// are those of `visits` replayed, after a successful `add_location_at(loc, now)`,
/// has those of `visits` followed by `(loc, now)`. So the entries after any run of
/// successful calls are `replay` of the calls' arguments, and the laws on `replay`
/// hold of them.
pub proof fn lemma_replay_push(
    m: Map<Seq<char>, RecordModel>,
    next_id: u64,
    visits: Seq<(Seq<char>, u64)>,
    loc: Seq<char>,
    now: u64,
)
    ensures
        replay(m, next_id, visits.push((loc, now))) == added(
            replay(m, next_id, visits),
            replay_next_id(m, next_id, visits),
            loc,
            now,
        ),
        replay_next_id(m, next_id, visits.push((loc, now))) == next_id_after(
            replay(m, next_id, visits),
            replay_next_id(m, next_id, visits),
            loc,
        ),
    decreases visits.len(),
{
    if visits.len() == 0 {
        let one = visits.push((loc, now));
        assert(one.drop_first() =~= Seq::<(Seq<char>, u64)>::empty());
        assert(one[0] == (loc, now));
        assert(replay(m, next_id, one) == replay(
            added(m, next_id, loc, now),
            next_id_after(m, next_id, loc),
            one.drop_first(),
        ));
        assert(replay_next_id(m, next_id, one) == replay_next_id(
            added(m, next_id, loc, now),
            next_id_after(m, next_id, loc),
            one.drop_first(),
        ));
    } else {
        let (l0, t0) = visits[0];
        let m2 = added(m, next_id, l0, t0);
        let n2 = next_id_after(m, next_id, l0);
        lemma_replay_push(m2, n2, visits.drop_first(), loc, now);
        assert(visits.push((loc, now)).drop_first() =~= visits.drop_first().push((loc, now)));
        let longer = visits.push((loc, now));
        assert(longer[0] == visits[0]);
        assert(replay(m, next_id, longer) == replay(m2, n2, longer.drop_first()));
        assert(replay_next_id(m, next_id, longer) == replay_next_id(m2, n2, longer.drop_first()));
        assert(replay(m, next_id, visits) == replay(m2, n2, visits.drop_first()));
        assert(replay_next_id(m, next_id, visits) == replay_next_id(m2, n2, visits.drop_first()));
    }
}

/// The index holds one record per key: its length is the number of keys.
pub proof fn lemma_len_is_key_count(db: &Database)
    requires
        db.wf(),
    ensures
        db@.len() == db.entries().dom().len(),
{
    let s = db@;
    let keys = s.map_values(|r: RecordModel| key_of(r));
    assert(lists(s, db.entries()));
    assert forall|k: Seq<char>| db.entries().dom().contains(k) <==> keys.to_set().contains(k) by {
        if db.entries().contains_key(k) {
            let i = choose|i: int| 0 <= i < s.len() && key_of(s[i]) == k;
            assert(keys[i] == k);
        }
        if keys.to_set().contains(k) {
            let i = choose|i: int| 0 <= i < keys.len() && keys[i] == k;
            assert(db.entries().contains_key(key_of(s[i])));
        }
    }
    assert(db.entries().dom() =~= keys.to_set());
    assert(keys.no_duplicates());
    keys.unique_seq_to_set();
}

/// Visits add no key but their own: after any sequence of visits the keys are
/// those present before and those of the visited locations, so repeated or
/// case-variant visits of one location never add a record.
pub proof fn lemma_visits_keys(m: Map<Seq<char>, RecordModel>, next_id: u64, visits: Seq<(Seq<char>, u64)>)
    ensures
        replay(m, next_id, visits).dom() == m.dom().union(
            visits.map_values(|v: (Seq<char>, u64)| fold_key(v.0)).to_set(),
        ),
    decreases visits.len(),
{
    let keys = visits.map_values(|v: (Seq<char>, u64)| fold_key(v.0));
    if visits.len() == 0 {
        assert(keys.to_set() =~= Set::empty());
        assert(m.dom().union(keys.to_set()) =~= m.dom());
    } else {
        let (loc, now) = visits[0];
        let m2 = added(m, next_id, loc, now);
        let rest = visits.drop_first();
        lemma_visits_keys(m2, next_id_after(m, next_id, loc), rest);
        let rest_keys = rest.map_values(|v: (Seq<char>, u64)| fold_key(v.0));
        assert(m2.dom() =~= m.dom().insert(fold_key(loc)));
        assert forall|k: Seq<char>| keys.to_set().contains(k) <==> (k == fold_key(loc) || rest_keys.to_set().contains(k)) by {
            if keys.to_set().contains(k) {
                let i = choose|i: int| 0 <= i < keys.len() && keys[i] == k;
                if i > 0 {
                    assert(rest_keys[i - 1] == k);
                }
            }
            if k == fold_key(loc) {
                assert(keys[0] == k);
            }
            if rest_keys.to_set().contains(k) {
                let i = choose|i: int| 0 <= i < rest_keys.len() && rest_keys[i] == k;
                assert(keys[i + 1] == k);
            }
        }
        assert(replay(m, next_id, visits).dom() =~= m.dom().union(keys.to_set()));
    }
}

/// From an empty index, the number of keys after any sequence of visits is the
/// number of distinct case-insensitive locations visited.
pub proof fn lemma_fresh_key_count(visits: Seq<(Seq<char>, u64)>)
    ensures
        replay(Map::empty(), 1, visits).dom().len() == visits.map_values(
            |v: (Seq<char>, u64)| fold_key(v.0),
        ).to_set().len(),
{
    lemma_visits_keys(Map::empty(), 1, visits);
    let keys = visits.map_values(|v: (Seq<char>, u64)| fold_key(v.0)).to_set();
    assert(Map::<Seq<char>, RecordModel>::empty().dom().union(keys) =~= keys);
}

/// Visiting one location `n` times raises its rank by `n` (from 0 when it was
/// absent): `n` visits of a new location leave it at rank `n`.
pub proof fn lemma_repeated_visits_rank(
    m: Map<Seq<char>, RecordModel>,
    next_id: u64,
    loc: Seq<char>,
    times: Seq<u64>,
)
    requires
        times.len() > 0,
    ensures
        replay(m, next_id, times.map_values(|t: u64| (loc, t))).contains_key(fold_key(loc)),
        replay(m, next_id, times.map_values(|t: u64| (loc, t)))[fold_key(loc)].rank == (if m.contains_key(
            fold_key(loc),
        ) {
            m[fold_key(loc)].rank
        } else {
            0
        }) + times.len(),
    decreases times.len(),
{
    let k = fold_key(loc);
    let visits = times.map_values(|t: u64| (loc, t));
    let m2 = added(m, next_id, loc, times[0]);
    let rest = times.drop_first();
    assert(visits.drop_first() =~= rest.map_values(|t: u64| (loc, t)));
    assert(visits[0] == (loc, times[0]));
    assert(replay(m, next_id, visits) == replay(m2, next_id_after(m, next_id, loc), visits.drop_first()));
    assert(m2.contains_key(k));
    if rest.len() > 0 {
        lemma_repeated_visits_rank(m2, next_id_after(m, next_id, loc), loc, rest);
    } else {
        assert(visits.drop_first() =~= Seq::<(Seq<char>, u64)>::empty());
    }
}

} // verus!
