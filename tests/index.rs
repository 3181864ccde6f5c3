use jumpjump::{Database, IndexError, LocationRecord};

fn record(id: u64, location: &str, rank: u64, last_access: u64) -> LocationRecord {
    LocationRecord { id, location: location.to_string(), rank, last_access }
}

#[test]
fn most_visited_location_is_first() {
    let mut db = Database::new();

    db.add_location("foo").unwrap();
    db.add_location("foo").unwrap();
    db.add_location("bar").unwrap();
    db.add_location("bar").unwrap();
    db.add_location("bar").unwrap();

    let locations: Vec<String> = db.get_locations();

    assert_eq!(locations[..], ["bar", "foo"]);
}

#[test]
fn finds_by_multiple_substr() {
    let mut db = Database::new();

    db.add_location("/foo/bar").unwrap();
    db.add_location("/foo/doo").unwrap();
    db.add_location("/foo/bar/doo").unwrap();

    let locations: Vec<String> = db.get_matching_locations(&["bar", "doo"]).unwrap();

    assert_eq!(locations[..], ["/foo/bar/doo"]);
}

#[test]
fn finds_by_single_substr() {
    let mut db = Database::new();

    db.add_location("/foo/bar").unwrap();
    db.add_location("/foo/bar/doo").unwrap();

    let locations: Vec<String> = db.get_matching_locations(&["doo"]).unwrap();

    assert_eq!(locations[..], ["/foo/bar/doo"]);
}

#[test]
fn finds_in_many() {
    let mut db = Database::new();

    for x in 0..10000 {
        db.add_location(&format!("/foo/bar/{}", x)).unwrap();
    }

    let locations: Vec<String> = db.get_matching_locations(&["bar", "9999"]).unwrap();

    assert_eq!(locations[..], ["/foo/bar/9999"]);
}

#[test]
fn case_variants_share_one_record() {
    let mut db = Database::new();
    db.add_location("/Home/Docs").unwrap();
    db.add_location("/home/docs").unwrap();
    db.add_location("/HOME/DOCS").unwrap();
    db.add_location("/home/music").unwrap();
    assert_eq!(db.len(), 2);
    let docs = db.find("/home/DOCS").unwrap();
    assert_eq!(docs.location, "/Home/Docs");
    assert_eq!(docs.rank, 3);
    assert_eq!(docs.id, 1);
    assert_eq!(db.find("/home/music").unwrap().id, 2);
}

#[test]
fn non_ascii_letters_are_not_folded() {
    let mut db = Database::new();
    db.add_location("/Ärger").unwrap();
    db.add_location("/ärger").unwrap();
    assert_eq!(db.len(), 2);
}

#[test]
fn repeated_visits_count_the_rank() {
    let mut db = Database::new();
    for _ in 0..7 {
        db.add_location("/x").unwrap();
    }
    assert_eq!(db.find("/x").unwrap().rank, 7);
    assert_eq!(db.len(), 1);
    assert!(db.find("/y").is_none());
}

#[test]
fn visit_takes_the_given_time() {
    let mut db = Database::new();
    db.add_location_at("/x", 500).unwrap();
    db.add_location_at("/x", 900).unwrap();
    let x = db.find("/x").unwrap();
    assert_eq!(x.rank, 2);
    assert_eq!(x.last_access, 900);
}

#[test]
fn visit_now_reads_the_clock() {
    let mut db = Database::new();
    db.add_location("/x").unwrap();
    assert!(db.find("/x").unwrap().last_access > 1_500_000_000_000);
}

#[test]
fn equal_ranks_list_the_latest_visit_first() {
    let mut db = Database::new();
    db.add_location_at("/a", 100).unwrap();
    db.add_location_at("/b", 300).unwrap();
    db.add_location_at("/c", 200).unwrap();
    assert_eq!(db.get_locations(), ["/b", "/c", "/a"]);
    db.add_location_at("/a", 50).unwrap();
    assert_eq!(db.get_locations(), ["/a", "/b", "/c"]);
}

#[test]
fn equal_rank_and_time_list_the_older_record_first() {
    let mut db = Database::new();
    db.add_location_at("/b", 100).unwrap();
    db.add_location_at("/a", 100).unwrap();
    assert_eq!(db.get_locations(), ["/b", "/a"]);
}

#[test]
fn rank_outweighs_recency() {
    let mut db = Database::new();
    db.add_location_at("/old", 1).unwrap();
    db.add_location_at("/old", 2).unwrap();
    db.add_location_at("/new", 1000).unwrap();
    assert_eq!(db.get_locations(), ["/old", "/new"]);
}

#[test]
fn empty_index_lists_nothing() {
    let db = Database::new();
    assert!(db.get_locations().is_empty());
    assert!(db.resolve(&[]).unwrap().is_empty());
    assert_eq!(db.len(), 0);
}

#[test]
fn query_without_match_resolves_to_nothing() {
    let mut db = Database::new();
    db.add_location("/foo/bar").unwrap();
    assert!(db.resolve(&["zzz"]).unwrap().is_empty());
    assert!(db.get_matching_locations(&["zzz"]).unwrap().is_empty());
}

#[test]
fn resolve_without_tokens_lists_all() {
    let mut db = Database::new();
    db.add_location_at("/a", 1).unwrap();
    db.add_location_at("/b", 2).unwrap();
    assert_eq!(db.resolve(&[]).unwrap(), ["/b", "/a"]);
}

#[test]
fn resolve_with_tokens_gives_the_best_match() {
    let mut db = Database::new();
    db.add_location_at("/src/one", 1).unwrap();
    db.add_location_at("/src/two", 2).unwrap();
    db.add_location_at("/src/two", 3).unwrap();
    db.add_location_at("/doc", 4).unwrap();
    assert_eq!(db.resolve(&["src"]).unwrap(), ["/src/two"]);
}

#[test]
fn tokens_match_in_order_only() {
    let mut db = Database::new();
    db.add_location("/foo/bar/doo").unwrap();
    assert!(db.get_matching_locations(&["doo", "bar"]).unwrap().is_empty());
    assert_eq!(db.get_matching_locations(&["foo", "doo"]).unwrap(), ["/foo/bar/doo"]);
}

#[test]
fn tokens_match_ignoring_case() {
    let mut db = Database::new();
    db.add_location("/Projects/Rust").unwrap();
    assert_eq!(db.get_matching_locations(&["proj", "RUST"]).unwrap(), ["/Projects/Rust"]);
}

#[test]
fn tokens_are_taken_literally() {
    let mut db = Database::new();
    db.add_location("/a/b").unwrap();
    db.add_location("/a.b").unwrap();
    db.add_location("/c+d").unwrap();
    assert_eq!(db.get_matching_locations(&["a.b"]).unwrap(), ["/a.b"]);
    assert_eq!(db.get_matching_locations(&["c+d"]).unwrap(), ["/c+d"]);
    assert!(db.get_matching_locations(&["("]).unwrap().is_empty());
}

#[test]
fn matching_keeps_the_listing_order() {
    let mut db = Database::new();
    db.add_location_at("/x/one", 1).unwrap();
    db.add_location_at("/x/two", 2).unwrap();
    db.add_location_at("/y", 3).unwrap();
    db.add_location_at("/x/one", 4).unwrap();
    assert_eq!(db.get_matching_locations(&["x"]).unwrap(), ["/x/one", "/x/two"]);
}

#[test]
fn select_keeps_flagged_records_in_order() {
    let mut db = Database::new();
    db.add_location_at("/a", 3).unwrap();
    db.add_location_at("/b", 2).unwrap();
    db.add_location_at("/c", 1).unwrap();
    assert_eq!(db.select_locations(&vec![true, false, true]), ["/a", "/c"]);
    assert!(db.select_locations(&vec![false, false, false]).is_empty());
}

#[test]
fn verbose_listing_shows_rank_and_time() {
    let mut db = Database::new();
    db.add_location_at("/foo", 1000).unwrap();
    db.add_location_at("/foo", 2005).unwrap();
    db.add_location_at("/bar", 7).unwrap();
    assert_eq!(
        db.get_all_locations(0),
        ["/foo 2 1970-01-01 00:00:02.005", "/bar 1 1970-01-01 00:00:00.007"]
    );
    assert_eq!(db.get_all_locations(3600), ["/foo 2 1970-01-01 01:00:02.005", "/bar 1 1970-01-01 01:00:00.007"]);
}

#[test]
fn loading_orders_the_records() {
    let db = Database::from_records(&vec![
        record(4, "/low", 1, 10),
        record(9, "/high", 5, 3),
        record(2, "/mid", 1, 20),
    ])
    .unwrap();
    assert_eq!(db.get_locations(), ["/high", "/mid", "/low"]);
    assert_eq!(db.len(), 3);
}

#[test]
fn loading_sets_the_next_identity() {
    let mut db = Database::from_records(&vec![record(4, "/a", 1, 10), record(9, "/b", 1, 3)]).unwrap();
    db.add_location_at("/c", 5).unwrap();
    assert_eq!(db.find("/c").unwrap().id, 10);
}

#[test]
fn loading_refuses_a_zero_rank() {
    assert_eq!(
        Database::from_records(&vec![record(1, "/a", 0, 10)]).err(),
        Some(IndexError::InvalidRecord)
    );
}

#[test]
fn loading_refuses_a_repeated_location() {
    assert_eq!(
        Database::from_records(&vec![record(1, "/A", 1, 10), record(2, "/a", 1, 10)]).err(),
        Some(IndexError::InvalidRecord)
    );
}

#[test]
fn loading_refuses_a_repeated_identity() {
    assert_eq!(
        Database::from_records(&vec![record(3, "/a", 1, 10), record(3, "/b", 1, 10)]).err(),
        Some(IndexError::InvalidRecord)
    );
}

#[test]
fn loading_refuses_the_largest_identity() {
    assert_eq!(
        Database::from_records(&vec![record(u64::MAX, "/a", 1, 10)]).err(),
        Some(IndexError::InvalidRecord)
    );
}

#[test]
fn rank_overflow_is_refused() {
    let mut db = Database::from_records(&vec![record(1, "/a", u64::MAX, 10)]).unwrap();
    assert_eq!(db.add_location_at("/a", 20), Err(IndexError::RankOverflow));
    assert_eq!(db.find("/a").unwrap().last_access, 10);
}

#[test]
fn exhausted_identities_are_refused() {
    let mut db = Database::from_records(&vec![record(u64::MAX - 1, "/a", 1, 10)]).unwrap();
    assert_eq!(db.add_location_at("/b", 20), Err(IndexError::IdsExhausted));
    assert_eq!(db.len(), 1);
    db.add_location_at("/A", 30).unwrap();
    assert_eq!(db.find("/a").unwrap().rank, 2);
}
