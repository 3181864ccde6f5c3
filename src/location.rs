//! Location records, their case-insensitive key and their ranking order.

use vstd::prelude::*;

verus! {

/// ASCII case folding, the comparison under which two locations are the same.
pub open spec fn fold_char(c: char) -> char {
    if 'A' <= c && c <= 'Z' {
        ((c as u32) + 32) as char
    } else {
        c
    }
}

/// The key of a location: its text with ASCII letters folded to lower case.
pub open spec fn fold_key(s: Seq<char>) -> Seq<char> {
    s.map_values(|c: char| fold_char(c))
}

fn fold_exec(c: char) -> (r: char)
    ensures
        r == fold_char(c),
{
    if 'A' <= c && c <= 'Z' {
        ((c as u8) + 32) as char
    } else {
        c
    }
}

/// The folded key of `s`, one character per character of `s`.
pub fn folded_key(s: &str) -> (r: Vec<char>)
    ensures
        r@ == fold_key(s@),
{
    let mut r: Vec<char> = Vec::new();
    for c in it: s.chars()
        invariant
            it.seq() == s@,
            r@ == fold_key(s@.take(it.index() as int)),
    {
        r.push(fold_exec(c));
        assert(fold_key(s@.take(it.index() as int + 1)) =~= fold_key(
            s@.take(it.index() as int),
        ).push(fold_char(c)));
    }
    assert(r@ =~= fold_key(s@));
    r
}

/// One tracked location as stored: `rank` counts visits, `last_access` is the
/// time of the latest visit in milliseconds since the Unix epoch.
#[derive(Debug)]
pub struct LocationRecord {
    pub id: u64,
    pub location: String,
    pub rank: u64,
    pub last_access: u64,
}

/// What a record means: the same fields over mathematical values.
pub struct RecordModel {
    pub id: u64,
    pub location: Seq<char>,
    pub rank: nat,
    pub last_access: u64,
}

impl View for LocationRecord {
    type V = RecordModel;

    open spec fn view(&self) -> RecordModel {
        RecordModel {
            id: self.id,
            location: self.location@,
            rank: self.rank as nat,
            last_access: self.last_access,
        }
    }
}

/// The key under which a record is unique.
pub open spec fn key_of(r: RecordModel) -> Seq<char> {
    fold_key(r.location)
}

/// The listing order: higher rank first, then the more recent visit, then the
/// older record.
pub open spec fn ranks_before(a: RecordModel, b: RecordModel) -> bool {
    a.rank > b.rank || (a.rank == b.rank && (a.last_access > b.last_access || (a.last_access
        == b.last_access && a.id < b.id)))
}

/// Whether `a` is listed before `b`.
pub fn ranks_before_exec(a: &LocationRecord, b: &LocationRecord) -> (r: bool)
    ensures
        r == ranks_before(a@, b@),
{
    if a.rank != b.rank {
        a.rank > b.rank
    } else if a.last_access != b.last_access {
        a.last_access > b.last_access
    } else {
        a.id < b.id
    }
}

/// Whether two keys hold the same characters.
pub fn same_key(a: &Vec<char>, b: &Vec<char>) -> (r: bool)
    ensures
        r == (a@ == b@),
{
    if a.len() != b.len() {
        return false;
    }
    let mut i: usize = 0;
    while i < a.len()
        invariant
            a@.len() == b@.len(),
            i <= a@.len(),
            forall|j: int| 0 <= j < i ==> a@[j] == b@[j],
        decreases a@.len() - i,
    {
        if a[i] != b[i] {
            return false;
        }
        i = i + 1;
    }
    assert(a@ =~= b@);
    true
}

} // verus!
