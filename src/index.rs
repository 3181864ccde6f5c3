//! The location index: one record per case-insensitive location, listed by rank.

use vstd::prelude::*;
use crate::pattern::{compile_query, query_pattern, regex_compiles, regex_finds, regex_is_match};
use crate::timestamp::{decimal, decimal_text, local_ms, local_time_text, time_text};
use crate::location::{
    LocationRecord, RecordModel, key_of, fold_key, ranks_before, ranks_before_exec, folded_key,
    same_key,
};

verus! {

/// Why the index refused a change or a query.
#[derive(Debug, Clone, Copy, PartialEq, Eq)]
pub enum IndexError {
    /// The location's visit counter is at its largest value.
    RankOverflow,
    /// No identity is left for a new record.
    IdsExhausted,
    /// A stored record broke the index's rules (zero rank, repeated location or id).
    InvalidRecord,
    /// The query's pattern could not be compiled.
    Pattern,
}

/// Relies on std's `SystemTime::now`: the time now in milliseconds since the
/// Unix epoch, or 0 for a clock set before it. Nothing is promised of the value.
#[verifier::external_body]
fn current_millis() -> u64 {
    match std::time::SystemTime::now().duration_since(std::time::UNIX_EPOCH) {
        Ok(d) => d.as_millis() as u64,
        Err(_) => 0,
    }
}

/// Strictly ordered by `ranks_before`.
pub open spec fn well_ranked(s: Seq<RecordModel>) -> bool {
    forall|i: int, j: int| 0 <= i < j < s.len() ==> ranks_before(s[i], s[j])
}

/// `s` lists exactly the values of `m`, each under its own key, each key once.
pub open spec fn lists(s: Seq<RecordModel>, m: Map<Seq<char>, RecordModel>) -> bool {
    &&& forall|i: int| 0 <= i < s.len() ==> #[trigger] m.contains_key(key_of(s[i])) && m[key_of(s[i])] == s[i]
    &&& forall|k: Seq<char>| #[trigger] m.contains_key(k) ==> exists|i: int| 0 <= i < s.len() && key_of(s[i]) == k
    &&& forall|i: int, j: int| 0 <= i < j < s.len() ==> key_of(s[i]) != key_of(s[j])
}

/// The entries after one visit of `loc` at time `now`: a known location gains one
/// rank and the new time, an unknown one enters with rank 1 and identity `next_id`.
pub open spec fn added(
    m: Map<Seq<char>, RecordModel>,
    next_id: u64,
    loc: Seq<char>,
    now: u64,
) -> Map<Seq<char>, RecordModel> {
    let k = fold_key(loc);
    if m.contains_key(k) {
        m.insert(k, RecordModel { id: m[k].id, location: m[k].location, rank: m[k].rank + 1, last_access: now })
    } else {
        m.insert(k, RecordModel { id: next_id, location: loc, rank: 1, last_access: now })
    }
}

/// The locations of the records of `s` whose flag in `keep` is set, in order.
pub open spec fn chosen(s: Seq<RecordModel>, keep: Seq<bool>) -> Seq<Seq<char>>
    decreases s.len(),
{
    if s.len() == 0 {
        Seq::empty()
    } else {
        let rest = chosen(s.drop_last(), keep.drop_last());
        if keep.last() {
            rest.push(s.last().location)
        } else {
            rest
        }
    }
}

/// For each record, whether the query pattern of `tokens` finds a match in its
/// location.
pub open spec fn query_hits(s: Seq<RecordModel>, tokens: Seq<Seq<char>>) -> Seq<bool> {
    s.map_values(|m: RecordModel| regex_finds(query_pattern(tokens), m.location))
}

/// At most the first element of `s`.
pub open spec fn first_of(s: Seq<Seq<char>>) -> Seq<Seq<char>> {
    if s.len() == 0 {
        s
    } else {
        s.take(1)
    }
}

/// The text of one line of the verbose listing: location, rank and last
/// access as local time in a zone `offset_seconds` ahead of UTC.
pub open spec fn shown(m: RecordModel, offset_seconds: i32) -> Seq<char> {
    m.location + seq![' '] + decimal(m.rank) + seq![' '] + time_text(local_ms(m.last_access, offset_seconds))
}

/// The verbose line of `rec`.
fn show_record(rec: &LocationRecord, offset_seconds: i32) -> (r: String)
    ensures
        r@ == shown(rec@, offset_seconds),
{
    let mut r = rec.location.clone();
    r.append(" ");
    r.append(decimal_text(rec.rank).as_str());
    r.append(" ");
    r.append(local_time_text(rec.last_access, offset_seconds).as_str());
    proof {
        reveal_strlit(" ");
    }
    r
}

/// Stored records that an index can hold: ranks from 1, identities below the
/// largest value, no location or identity twice.
pub open spec fn valid_records(s: Seq<RecordModel>) -> bool {
    &&& forall|i: int| 0 <= i < s.len() ==> 1 <= #[trigger] s[i].rank && s[i].id < u64::MAX
    &&& forall|i: int, j: int| 0 <= i < j < s.len() ==> key_of(s[i]) != key_of(s[j]) && s[i].id != s[j].id
}

/// Adding the entry of `all[i]` to a map that holds the entries of the records
/// before it, under a new key, gives a map that holds the entries up to `all[i]`.
proof fn lemma_insert_keeps(m: Map<Seq<char>, RecordModel>, all: Seq<RecordModel>, i: int)
    requires
        0 <= i < all.len(),
        forall|j: int| 0 <= j < i ==> m.contains_key(key_of(#[trigger] all[j])) && m[key_of(all[j])] == all[j],
        !m.contains_key(key_of(all[i])),
    ensures
        forall|j: int| 0 <= j < i + 1 ==> m.insert(key_of(all[i]), all[i]).contains_key(key_of(#[trigger] all[j]))
            && m.insert(key_of(all[i]), all[i])[key_of(all[j])] == all[j],
{
    assert forall|j: int| 0 <= j < i + 1 implies m.insert(key_of(all[i]), all[i]).contains_key(key_of(#[trigger] all[j]))
        && m.insert(key_of(all[i]), all[i])[key_of(all[j])] == all[j] by {
        if j < i {
            assert(m.contains_key(key_of(all[j])));
        }
    }
}

/// The ranked index of locations.
pub struct Database {
    records: Vec<LocationRecord>,
    keys: Vec<Vec<char>>,
    next_id: u64,
    entries: Ghost<Map<Seq<char>, RecordModel>>,
}

impl View for Database {
    type V = Seq<RecordModel>;

    /// The records in listing order.
    closed spec fn view(&self) -> Seq<RecordModel> {
        self.records@.map_values(|r: LocationRecord| r@)
    }
}

impl Database {
    /// The records by key.
    pub closed spec fn entries(&self) -> Map<Seq<char>, RecordModel> {
        self.entries@
    }

    /// The identity that the next new record receives.
    pub closed spec fn next_id(&self) -> u64 {
        self.next_id
    }

    /// The stored keys match the records.
    pub closed spec fn layout_ok(&self) -> bool {
        &&& self.keys@.len() == self.records@.len()
        &&& forall|i: int| 0 <= i < self.keys@.len() ==> #[trigger] self.keys@[i]@ == key_of(self.records@[i]@)
    }

    /// The index's invariant.
    pub open spec fn wf(&self) -> bool {
        &&& self.layout_ok()
        &&& well_ranked(self@)
        &&& lists(self@, self.entries())
        &&& forall|i: int| 0 <= i < self@.len() ==> 1 <= #[trigger] self@[i].rank && self@[i].id < self.next_id()
        &&& forall|i: int, j: int| 0 <= i < j < self@.len() ==> self@[i].id != self@[j].id
    }

    /// An empty index.
    pub fn new() -> (r: Database)
        ensures
            r.wf(),
            r@ == Seq::<RecordModel>::empty(),
            r.entries() == Map::<Seq<char>, RecordModel>::empty(),
            r.next_id() == 1,
    {
        let r = Database { records: Vec::new(), keys: Vec::new(), next_id: 1, entries: Ghost(Map::empty()) };
        assert(r@ =~= Seq::<RecordModel>::empty());
        r
    }

    /// The number of records.
    pub fn len(&self) -> (r: usize)
        requires
            self.wf(),
        ensures
            r == self@.len(),
    {
        self.records.len()
    }

    /// Puts `rec` at its place in the listing order.
    fn insert_ranked(&mut self, rec: LocationRecord, key: Vec<char>)
        requires
            old(self).wf(),
            key@ == key_of(rec@),
            !old(self).entries().contains_key(key@),
            1 <= rec.rank,
            rec.id < old(self).next_id(),
            forall|i: int| 0 <= i < old(self)@.len() ==> old(self)@[i].id != rec.id,
        ensures
            final(self).wf(),
            final(self).entries() == old(self).entries().insert(key@, rec@),
            final(self).next_id() == old(self).next_id(),
            final(self)@.len() == old(self)@.len() + 1,
    {
        let ghost s = self@;
        let ghost k = key@;
        let ghost m = self.entries@;
        let mut p: usize = 0;
        while p < self.records.len() && !ranks_before_exec(&rec, &self.records[p])
            invariant
                self@ == s,
                p <= s.len(),
                self.records@.len() == s.len(),
                forall|j: int| 0 <= j < p ==> ranks_before(s[j], rec@),
                forall|i: int| 0 <= i < s.len() ==> s[i].id != rec.id,
            decreases s.len() - p,
        {
            assert(s[p as int] == self.records@[p as int]@);
            p = p + 1;
        }
        let ghost r = rec@;
        assert(p < s.len() ==> ranks_before(r, s[p as int]));
        self.records.insert(p, rec);
        self.keys.insert(p, key);
        self.entries = Ghost(m.insert(k, r));
        let ghost t = s.insert(p as int, r);
        assert(self@ =~= t);
        assert forall|i: int, j: int| 0 <= i < j < t.len() implies ranks_before(t[i], t[j]) by {
            if j < p {
            } else if j == p {
            } else if i < p {
                assert(ranks_before(s[i], r));
                assert(ranks_before(r, s[p as int]));
                assert(p == j - 1 || ranks_before(s[p as int], s[j - 1]));
            } else if i == p {
                assert(ranks_before(r, s[p as int]));
                assert(p == j - 1 || ranks_before(s[p as int], s[j - 1]));
            } else {
                assert(t[i] == s[i - 1] && t[j] == s[j - 1]);
            }
        }
        let ghost m2 = m.insert(k, r);
        assert forall|i: int| 0 <= i < t.len() implies #[trigger] m2.contains_key(key_of(t[i]))
            && m2[key_of(t[i])] == t[i] by {
            if i < p {
                assert(m.contains_key(key_of(s[i])));
            } else if i > p {
                assert(t[i] == s[i - 1]);
                assert(m.contains_key(key_of(s[i - 1])));
            }
        }
        assert forall|k2: Seq<char>| #[trigger] m2.contains_key(k2) implies exists|i: int|
            0 <= i < t.len() && key_of(t[i]) == k2 by {
            if k2 == k {
                assert(key_of(t[p as int]) == k2);
            } else {
                let i = choose|i: int| 0 <= i < s.len() && key_of(s[i]) == k2;
                if i < p {
                    assert(key_of(t[i]) == k2);
                } else {
                    assert(key_of(t[i + 1]) == k2);
                }
            }
        }
        assert forall|i: int, j: int| 0 <= i < j < t.len() implies key_of(t[i]) != key_of(t[j]) by {
            if i == p {
                assert(t[j] == s[j - 1]);
                assert(m.contains_key(key_of(s[j - 1])));
            } else if j == p {
                assert(m.contains_key(key_of(s[i])));
            } else {
                let i0 = if i < p { i } else { i - 1 };
                let j0 = if j < p { j } else { j - 1 };
                assert(t[i] == s[i0] && t[j] == s[j0]);
            }
        }
        assert forall|i: int| 0 <= i < t.len() implies 1 <= #[trigger] t[i].rank && t[i].id < self.next_id() by {
            if i > p {
                assert(t[i] == s[i - 1]);
            }
        }
        assert forall|i: int, j: int| 0 <= i < j < t.len() implies t[i].id != t[j].id by {
            let i0 = if i < p { i } else { i - 1 };
            let j0 = if j < p { j } else { j - 1 };
            if i != p && j != p {
                assert(t[i] == s[i0] && t[j] == s[j0]);
            } else if i == p {
                assert(t[j] == s[j0]);
            } else {
                assert(t[i] == s[i0]);
            }
        }
        assert forall|i: int| 0 <= i < self.keys@.len() implies #[trigger] self.keys@[i]@ == key_of(self.records@[i]@) by {
            if i < p {
                assert(self.keys@[i] == old(self).keys@[i]);
            } else if i > p {
                assert(self.keys@[i] == old(self).keys@[i - 1]);
            }
        }
        assert(self.layout_ok());
        assert(well_ranked(self@));
        assert(self@ == t);
    }

    /// Takes the record at position `i` out of the index.
    fn take_at(&mut self, i: usize) -> (r: LocationRecord)
        requires
            old(self).wf(),
            i < old(self)@.len(),
        ensures
            final(self).wf(),
            r@ == old(self)@[i as int],
            final(self)@ == old(self)@.remove(i as int),
            final(self).entries() == old(self).entries().remove(key_of(old(self)@[i as int])),
            final(self).next_id() == old(self).next_id(),
    {
        let ghost s = self@;
        let ghost m = self.entries@;
        let ghost k = key_of(s[i as int]);
        let r = self.records.remove(i);
        let _ = self.keys.remove(i);
        self.entries = Ghost(m.remove(k));
        let ghost t = s.remove(i as int);
        assert(self@ =~= t);
        assert forall|a: int, b: int| 0 <= a < b < t.len() implies ranks_before(t[a], t[b]) by {
            let a0 = if a < i { a } else { a + 1 };
            let b0 = if b < i { b } else { b + 1 };
            assert(t[a] == s[a0] && t[b] == s[b0]);
        }
        assert forall|a: int| 0 <= a < t.len() implies #[trigger] self.entries().contains_key(key_of(t[a]))
            && self.entries()[key_of(t[a])] == t[a] by {
            let a0 = if a < i { a } else { a + 1 };
            assert(t[a] == s[a0]);
            assert(m.contains_key(key_of(s[a0])));
        }
        assert forall|k2: Seq<char>| #[trigger] self.entries().contains_key(k2) implies exists|a: int|
            0 <= a < t.len() && key_of(t[a]) == k2 by {
            let a = choose|a: int| 0 <= a < s.len() && key_of(s[a]) == k2;
            if a < i {
                assert(key_of(t[a]) == k2);
            } else {
                assert(key_of(t[a - 1]) == k2);
            }
        }
        assert forall|a: int, b: int| 0 <= a < b < t.len() implies key_of(t[a]) != key_of(t[b]) by {
            let a0 = if a < i { a } else { a + 1 };
            let b0 = if b < i { b } else { b + 1 };
            assert(t[a] == s[a0] && t[b] == s[b0]);
        }
        assert forall|a: int| 0 <= a < t.len() implies 1 <= #[trigger] t[a].rank && t[a].id < self.next_id() by {
            let a0 = if a < i { a } else { a + 1 };
            assert(t[a] == s[a0]);
            assert(1 <= s[a0].rank);
        }
        assert forall|a: int, b: int| 0 <= a < b < t.len() implies t[a].id != t[b].id by {
            let a0 = if a < i { a } else { a + 1 };
            let b0 = if b < i { b } else { b + 1 };
            assert(t[a] == s[a0] && t[b] == s[b0]);
        }
        assert forall|a: int| 0 <= a < self.keys@.len() implies #[trigger] self.keys@[a]@ == key_of(self.records@[a]@) by {
            if a < i {
                assert(self.keys@[a] == old(self).keys@[a]);
            } else {
                assert(self.keys@[a] == old(self).keys@[a + 1]);
            }
        }
        r
    }

    /// Records a visit of `location` at time `now`: a location already present
    /// under case-insensitive comparison gains one rank and takes `now` as its last
    /// access, keeping its text and identity; a new one enters with rank 1.
    pub fn add_location_at(&mut self, location: &str, now: u64) -> (r: Result<(), IndexError>)
        requires
            old(self).wf(),
        ensures
            final(self).wf(),
            r == Err::<(), IndexError>(IndexError::RankOverflow) <==> (old(self).entries().contains_key(
                fold_key(location@),
            ) && old(self).entries()[fold_key(location@)].rank == u64::MAX),
            r == Err::<(), IndexError>(IndexError::IdsExhausted) <==> (!old(self).entries().contains_key(
                fold_key(location@),
            ) && old(self).next_id() == u64::MAX),
            r is Err ==> r == Err::<(), IndexError>(IndexError::RankOverflow) || r == Err::<(), IndexError>(IndexError::IdsExhausted),
            r is Err ==> final(self)@ == old(self)@ && final(self).entries() == old(self).entries()
                && final(self).next_id() == old(self).next_id(),
            r is Ok ==> final(self).entries() == added(old(self).entries(), old(self).next_id(), location@, now),
            r is Ok ==> final(self).next_id() == if old(self).entries().contains_key(fold_key(location@)) {
                old(self).next_id()
            } else {
                (old(self).next_id() + 1) as u64
            },
    {
        let key = folded_key(location);
        match self.find_key(&key) {
            Some(i) => {
                let ghost m = self.entries();
                let ghost old_rec = self@[i as int];
                assert(old_rec == self.records@[i as int]@);
                assert(m.contains_key(key_of(old_rec)));
                assert(m.contains_key(key@) && m[key@] == old_rec);
                if self.records[i].rank == u64::MAX {
                    return Err(IndexError::RankOverflow);
                }
                assert(1 <= old_rec.rank && old_rec.id < self.next_id);
                let mut rec = self.take_at(i);
                rec.rank = rec.rank + 1;
                rec.last_access = now;
                assert forall|j: int| 0 <= j < self@.len() implies self@[j].id != rec.id by {
                    let j0 = if j < i { j } else { j + 1 };
                    assert(self@[j] == old(self)@[j0]);
                }
                self.insert_ranked(rec, key);
                assert(self.entries() =~= added(m, old(self).next_id(), location@, now));
                Ok(())
            }
            None => {
                if self.next_id == u64::MAX {
                    return Err(IndexError::IdsExhausted);
                }
                assert forall|j: int| 0 <= j < self@.len() implies self@[j].id < self.next_id by {
                    assert(1 <= self@[j].rank);
                }
                let rec = LocationRecord { id: self.next_id, location: location.to_owned(), rank: 1, last_access: now };
                self.next_id = self.next_id + 1;
                self.insert_ranked(rec, key);
                Ok(())
            }
        }
    }

    /// Records a visit of `location` now; see `add_location_at`.
    pub fn add_location(&mut self, location: &str) -> (r: Result<(), IndexError>)
        requires
            old(self).wf(),
        ensures
            final(self).wf(),
            r == Err::<(), IndexError>(IndexError::RankOverflow) <==> (old(self).entries().contains_key(
                fold_key(location@),
            ) && old(self).entries()[fold_key(location@)].rank == u64::MAX),
            r == Err::<(), IndexError>(IndexError::IdsExhausted) <==> (!old(self).entries().contains_key(
                fold_key(location@),
            ) && old(self).next_id() == u64::MAX),
            r is Err ==> r == Err::<(), IndexError>(IndexError::RankOverflow) || r == Err::<(), IndexError>(IndexError::IdsExhausted),
            r is Err ==> final(self)@ == old(self)@ && final(self).entries() == old(self).entries()
                && final(self).next_id() == old(self).next_id(),
            r is Ok ==> exists|now: u64| final(self).entries() == #[trigger] added(old(self).entries(), old(self).next_id(), location@, now),
            r is Ok ==> final(self).next_id() == if old(self).entries().contains_key(fold_key(location@)) {
                old(self).next_id()
            } else {
                (old(self).next_id() + 1) as u64
            },
    {
        let now = current_millis();
        self.add_location_at(location, now)
    }

    /// The locations, highest rank first, the more recent visit first among equal
    /// ranks.
    pub fn get_locations(&self) -> (r: Vec<String>)
        requires
            self.wf(),
        ensures
            r@.map_values(|s: String| s@) == self@.map_values(|m: RecordModel| m.location),
            well_ranked(self@),
    {
        let mut r: Vec<String> = Vec::new();
        let mut i: usize = 0;
        while i < self.records.len()
            invariant
                i <= self.records@.len(),
                r@.len() == i,
                forall|j: int| 0 <= j < i ==> #[trigger] r@[j]@ == self@[j].location,
            decreases self.records@.len() - i,
        {
            r.push(self.records[i].location.clone());
            assert(self@[i as int] == self.records@[i as int]@);
            i = i + 1;
        }
        assert(r@.map_values(|s: String| s@) =~= self@.map_values(|m: RecordModel| m.location));
        r
    }

    /// The locations of the records whose flag in `keep` is set, in listing order.
    pub fn select_locations(&self, keep: &Vec<bool>) -> (r: Vec<String>)
        requires
            self.wf(),
            keep@.len() == self@.len(),
        ensures
            r@.map_values(|s: String| s@) == chosen(self@, keep@),
    {
        let mut r: Vec<String> = Vec::new();
        let mut i: usize = 0;
        while i < self.records.len()
            invariant
                i <= self.records@.len(),
                keep@.len() == self@.len(),
                r@.map_values(|s: String| s@) == chosen(self@.take(i as int), keep@.take(i as int)),
            decreases self.records@.len() - i,
        {
            let ghost before = r@;
            assert(self@.take(i as int + 1).drop_last() =~= self@.take(i as int));
            assert(keep@.take(i as int + 1).drop_last() =~= keep@.take(i as int));
            assert(self@[i as int] == self.records@[i as int]@);
            if keep[i] {
                r.push(self.records[i].location.clone());
                assert(r@.map_values(|s: String| s@) =~= before.map_values(|s: String| s@).push(
                    self@[i as int].location,
                ));
            }
            i = i + 1;
        }
        assert(self@.take(i as int) =~= self@);
        assert(keep@.take(i as int) =~= keep@);
        r
    }

    /// The locations in which the query finds a match, in listing order: each token
    /// taken literally, in the given order, ignoring case.
    pub fn get_matching_locations(&self, tokens: &[&str]) -> (r: Result<Vec<String>, IndexError>)
        requires
            self.wf(),
        ensures
            r is Ok <==> regex_compiles(query_pattern(tokens@.map_values(|t: &str| t@))),
            r is Err ==> r == Err::<Vec<String>, IndexError>(IndexError::Pattern),
            r is Ok ==> r->Ok_0@.map_values(|s: String| s@) == chosen(
                self@,
                query_hits(self@, tokens@.map_values(|t: &str| t@)),
            ),
    {
        let matcher = match compile_query(tokens) {
            Ok(m) => m,
            Err(_) => return Err(IndexError::Pattern),
        };
        let ghost hits = query_hits(self@, tokens@.map_values(|t: &str| t@));
        let mut keep: Vec<bool> = Vec::new();
        let mut i: usize = 0;
        while i < self.records.len()
            invariant
                i <= self.records@.len(),
                matcher.pattern() == query_pattern(tokens@.map_values(|t: &str| t@)),
                hits == query_hits(self@, tokens@.map_values(|t: &str| t@)),
                keep@.len() == i,
                forall|j: int| 0 <= j < i ==> #[trigger] keep@[j] == hits[j],
            decreases self.records@.len() - i,
        {
            assert(self@[i as int] == self.records@[i as int]@);
            keep.push(regex_is_match(&matcher, self.records[i].location.as_str()));
            i = i + 1;
        }
        assert(keep@ =~= hits);
        Ok(self.select_locations(&keep))
    }

    /// Answers a query: with no token, every location in listing order; with
    /// tokens, the first location in which they match, or none.
    pub fn resolve(&self, tokens: &[&str]) -> (r: Result<Vec<String>, IndexError>)
        requires
            self.wf(),
        ensures
            tokens@.len() == 0 ==> r is Ok && r->Ok_0@.map_values(|s: String| s@) == self@.map_values(
                |m: RecordModel| m.location,
            ),
            tokens@.len() > 0 ==> (r is Ok <==> regex_compiles(query_pattern(tokens@.map_values(|t: &str| t@)))),
            r is Err ==> r == Err::<Vec<String>, IndexError>(IndexError::Pattern),
            tokens@.len() > 0 && r is Ok ==> r->Ok_0@.map_values(|s: String| s@) == first_of(
                chosen(self@, query_hits(self@, tokens@.map_values(|t: &str| t@))),
            ),
    {
        if tokens.len() == 0 {
            return Ok(self.get_locations());
        }
        let mut found = self.get_matching_locations(tokens)?;
        let ghost all = found@.map_values(|s: String| s@);
        found.truncate(1);
        assert(found@.map_values(|s: String| s@) =~= first_of(all));
        Ok(found)
    }

    /// One line per record in listing order: its location, rank and last access,
    /// the time as local `YYYY-MM-DD HH:MM:SS.SSS` in a zone `utc_offset_seconds`
    /// ahead of UTC.
    pub fn get_all_locations(&self, utc_offset_seconds: i32) -> (r: Vec<String>)
        requires
            self.wf(),
        ensures
            r@.map_values(|s: String| s@) == self@.map_values(|m: RecordModel| shown(m, utc_offset_seconds)),
    {
        let mut r: Vec<String> = Vec::new();
        let mut i: usize = 0;
        while i < self.records.len()
            invariant
                i <= self.records@.len(),
                r@.len() == i,
                forall|j: int| 0 <= j < i ==> #[trigger] r@[j]@ == shown(self@[j], utc_offset_seconds),
            decreases self.records@.len() - i,
        {
            r.push(show_record(&self.records[i], utc_offset_seconds));
            assert(self@[i as int] == self.records@[i as int]@);
            i = i + 1;
        }
        assert(r@.map_values(|s: String| s@) =~= self@.map_values(|m: RecordModel| shown(m, utc_offset_seconds)));
        r
    }

    /// An index of stored records, or `InvalidRecord` where they break its rules.
    /// The next new record gets the identity after the largest stored one.
    pub fn from_records(records: &Vec<LocationRecord>) -> (r: Result<Database, IndexError>)
        ensures
            r is Ok <==> valid_records(records@.map_values(|x: LocationRecord| x@)),
            r is Err ==> r == Err::<Database, IndexError>(IndexError::InvalidRecord),
            r is Ok ==> {
                let db = r->Ok_0;
                &&& db.wf()
                &&& db@.len() == records@.len()
                &&& forall|i: int| 0 <= i < records@.len() ==> #[trigger] db.entries().contains_key(key_of(records@[i]@))
                    && db.entries()[key_of(records@[i]@)] == records@[i]@
                &&& forall|i: int| 0 <= i < records@.len() ==> #[trigger] records@[i].id < db.next_id()
                &&& records@.len() == 0 ==> db.next_id() == 1
                &&& records@.len() > 0 ==> exists|i: int| 0 <= i < records@.len() && db.next_id() == records@[i].id + 1
            },
    {
        let ghost all = records@.map_values(|x: LocationRecord| x@);
        let mut db = Database::new();
        let mut i: usize = 0;
        while i < records.len()
            invariant
                i <= records@.len(),
                all == records@.map_values(|x: LocationRecord| x@),
                db.wf(),
                db@.len() == i,
                valid_records(all.take(i as int)),
                forall|j: int| 0 <= j < i ==> db.entries().contains_key(key_of(#[trigger] all[j]))
                    && db.entries()[key_of(all[j])] == all[j],
                forall|k: Seq<char>| #[trigger] db.entries().contains_key(k) ==> exists|j: int| 0 <= j < i && key_of(all[j]) == k,
                forall|j: int| 0 <= j < i ==> #[trigger] all[j].id < db.next_id(),
                i == 0 ==> db.next_id() == 1,
                i > 0 ==> exists|j: int| 0 <= j < i && db.next_id() == all[j].id + 1,
            decreases records@.len() - i,
        {
            let src = &records[i];
            let ghost cur = all[i as int];
            assert(cur == src@);
            let rec = LocationRecord { id: src.id, location: src.location.clone(), rank: src.rank, last_access: src.last_access };
            let key = folded_key(rec.location.as_str());
            if rec.rank == 0 || rec.id == u64::MAX {
                assert(!valid_records(all)) by {
                    assert(all[i as int] == cur);
                    assert(all[i as int].rank < 1 || all[i as int].id == u64::MAX);
                }
                return Err(IndexError::InvalidRecord);
            }
            match db.find_key(&key) {
                Some(p) => {
                    proof {
                        let k = key_of(db@[p as int]);
                        assert(db.entries().contains_key(k));
                        let j = choose|j: int| 0 <= j < i && key_of(all[j]) == k;
                        assert(key_of(all[j]) == key_of(all[i as int]));
                    }
                    return Err(IndexError::InvalidRecord);
                }
                None => {}
            }
            if db.has_id(rec.id) {
                proof {
                    let x = choose|x: int| 0 <= x < db@.len() && db@[x].id == rec.id;
                    let k = key_of(db@[x]);
                    assert(db.entries().contains_key(k));
                    let j = choose|j: int| 0 <= j < i && key_of(all[j]) == k;
                    assert(db.entries()[k] == all[j]);
                    assert(all[j].id == cur.id);
                }
                return Err(IndexError::InvalidRecord);
            }
            let ghost old_db_next = db.next_id;
            if rec.id >= db.next_id {
                db.next_id = rec.id + 1;
            }
            assert forall|x: int| 0 <= x < db@.len() implies db@[x].id != rec.id by {}
            assert(rec@ == cur);
            let ghost old_entries = db.entries();
            assert(!old_entries.contains_key(key_of(cur)));
            db.insert_ranked(rec, key);
            assert(db.entries() == old_entries.insert(key_of(cur), cur));
            proof {
                assert(all.take(i as int + 1).drop_last() =~= all.take(i as int));
                assert forall|a: int, b: int| 0 <= a < b < i + 1 implies key_of(all[a]) != key_of(all[b]) && all[a].id != all[b].id by {
                    if b == i {
                        assert(db.entries().contains_key(key_of(all[a])));
                    } else {
                        assert(all.take(i as int)[a] == all[a] && all.take(i as int)[b] == all[b]);
                    }
                }
                assert forall|a: int| 0 <= a < i + 1 implies 1 <= #[trigger] all.take(i as int + 1)[a].rank && all.take(i as int + 1)[a].id < u64::MAX by {
                    if a < i {
                        assert(all.take(i as int)[a] == all[a]);
                    }
                }
                assert forall|k: Seq<char>| #[trigger] db.entries().contains_key(k) implies exists|j: int| 0 <= j < i + 1 && key_of(all[j]) == k by {
                    if k != key_of(cur) {
                        let j = choose|j: int| 0 <= j < i && key_of(all[j]) == k;
                        assert(key_of(all[j]) == k);
                    } else {
                        assert(key_of(all[i as int]) == k);
                    }
                }
                lemma_insert_keeps(old_entries, all, i as int);
                if cur.id < old_db_next && i > 0 {
                    let j = choose|j: int| 0 <= j < i && old_db_next == all[j].id + 1;
                    assert(db.next_id() == all[j].id + 1);
                }
            }
            i = i + 1;
        }
        assert(all.take(i as int) =~= all);
        assert forall|a: int| 0 <= a < records@.len() implies #[trigger] db.entries().contains_key(key_of(records@[a]@))
            && db.entries()[key_of(records@[a]@)] == records@[a]@ by {
            assert(all[a] == records@[a]@);
        }
        assert forall|a: int| 0 <= a < records@.len() implies #[trigger] records@[a].id < db.next_id() by {
            assert(all[a] == records@[a]@);
        }
        proof {
            if records@.len() > 0 {
                let j = choose|j: int| 0 <= j < i && db.next_id() == all[j].id + 1;
                assert(all[j] == records@[j]@);
            }
        }
        Ok(db)
    }

    /// Whether a record has identity `id`.
    fn has_id(&self, id: u64) -> (r: bool)
        requires
            self.wf(),
        ensures
            r == exists|x: int| 0 <= x < self@.len() && self@[x].id == id,
    {
        let mut i: usize = 0;
        while i < self.records.len()
            invariant
                i <= self.records@.len(),
                forall|x: int| 0 <= x < i ==> self@[x].id != id,
            decreases self.records@.len() - i,
        {
            assert(self@[i as int] == self.records@[i as int]@);
            if self.records[i].id == id {
                return true;
            }
            i = i + 1;
        }
        false
    }

    /// The record of `location`, compared case-insensitively, if there is one.
    pub fn find(&self, location: &str) -> (r: Option<&LocationRecord>)
        requires
            self.wf(),
        ensures
            r is Some <==> self.entries().contains_key(fold_key(location@)),
            r is Some ==> r->Some_0@ == self.entries()[fold_key(location@)],
    {
        let key = folded_key(location);
        match self.find_key(&key) {
            Some(i) => {
                assert(self@[i as int] == self.records@[i as int]@);
                assert(self.entries().contains_key(key_of(self@[i as int])));
                Some(&self.records[i])
            }
            None => None,
        }
    }

    /// The position of the record under `key`, if there is one.
    fn find_key(&self, key: &Vec<char>) -> (r: Option<usize>)
        requires
            self.wf(),
        ensures
            match r {
                Some(i) => i < self@.len() && key_of(self@[i as int]) == key@,
                None => !self.entries().contains_key(key@),
            },
    {
        let mut i: usize = 0;
        while i < self.keys.len()
            invariant
                self.wf(),
                i <= self.keys@.len(),
                forall|j: int| 0 <= j < i ==> key_of(self@[j]) != key@,
            decreases self.keys@.len() - i,
        {
            if same_key(&self.keys[i], key) {
                return Some(i);
            }
            i = i + 1;
        }
        None
    }
}

} // verus!
