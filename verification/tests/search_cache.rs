use caltrack::search::{Cache, SearchItem, Searcher};
use r2d2_sqlite::rusqlite::Connection;

fn item(name: &str, calories: i64) -> SearchItem {
    SearchItem { name: name.to_string(), calories }
}

fn items_db(rows: &[(i64, &str, i64)]) -> Connection {
    let conn = Connection::open_in_memory().expect("open in-memory db");
    conn.execute_batch("CREATE TABLE items (id INTEGER PRIMARY KEY, name TEXT, calories INTEGER);")
        .expect("create items");
    for (id, name, calories) in rows {
        conn.execute(
            "INSERT INTO items (id, name, calories) VALUES (?1, ?2, ?3);",
            (id, name, calories),
        )
        .expect("insert item");
    }
    conn
}

#[test]
fn bootstrap_serves_the_store_rows() {
    let conn = items_db(&[(1, "Rice", 130)]);
    let searcher = Searcher::new(&conn).expect("bootstrap");
    let results = searcher.search("ric");
    assert_eq!(results.len(), 1);
    assert_eq!(results[0].name, "Rice");
    assert_eq!(results[0].calories, 130);
    // The match is case-insensitive and reports the matched positions; a
    // matcher that handed its input back unchanged could not produce them.
    assert_eq!(results[0].positions, vec![0, 1, 2]);
}

#[test]
fn duplicate_names_newest_id_wins() {
    let conn = items_db(&[(1, "Rice", 130), (5, "Rice", 140)]);
    let searcher = Searcher::new(&conn).expect("bootstrap");
    let results = searcher.search("ric");
    assert_eq!(results.len(), 1);
    assert_eq!(results[0].name, "Rice");
    assert_eq!(results[0].calories, 140);
}

#[test]
fn update_and_remove_keep_search_consistent() {
    let conn = items_db(&[(1, "Rice", 130), (5, "Rice", 140)]);
    let searcher = Searcher::new(&conn).expect("bootstrap");

    searcher.update(5, None, Some(145));
    let results = searcher.search("ric");
    assert_eq!(results.len(), 1);
    assert_eq!(results[0].calories, 145);

    searcher.remove(5);
    let results = searcher.search("ric");
    assert_eq!(results.len(), 1);
    assert_eq!(results[0].calories, 130);
}

#[test]
fn no_match_returns_nothing() {
    let conn = items_db(&[(1, "Rice", 130)]);
    let searcher = Searcher::new(&conn).expect("bootstrap");
    assert_eq!(searcher.search("zzz").len(), 0);
}

#[test]
fn at_most_five_results_highest_ranked_first() {
    let conn = items_db(&[
        (1, "ricea", 101),
        (2, "riceb", 102),
        (3, "ricec", 103),
        (4, "riced", 104),
        (5, "ricee", 105),
        (6, "ricef", 106),
        (7, "riceg", 107),
        (8, "riceh", 108),
    ]);
    let searcher = Searcher::new(&conn).expect("bootstrap");
    let results = searcher.search("ric");
    // Eight distinct names match with equal scores, so the tie goes to the
    // newer ids: exactly five results, ids eight down to four.
    assert_eq!(results.len(), 5);
    let calories: Vec<i64> = results.iter().map(|r| r.calories).collect();
    assert_eq!(calories, vec![108, 107, 106, 105, 104]);
}

#[test]
fn empty_names_are_never_served() {
    let conn = items_db(&[(1, "", 50), (2, "Rice", 130)]);
    let searcher = Searcher::new(&conn).expect("bootstrap");
    // An empty query matches everything that is eligible at all; the
    // nameless row stays invisible.
    let results = searcher.search("");
    assert_eq!(results.len(), 1);
    assert_eq!(results[0].name, "Rice");
}

#[test]
fn bootstrap_without_items_table_is_fatal() {
    let conn = Connection::open_in_memory().expect("open in-memory db");
    assert!(Searcher::new(&conn).is_err());
}

#[test]
fn cache_insert_overwrites_and_update_ignores_absent_ids() {
    let mut cache = Cache::new();
    cache.insert(1, item("Bread", 250));
    cache.insert(1, item("Toast", 260));
    cache.update(9, Some("Ghost".to_string()), Some(1)); // absent: ignored
    cache.remove(9); // absent: ignored

    let results = cache.search("toa");
    assert_eq!(results.len(), 1);
    assert_eq!(results[0].name, "Toast");
    assert_eq!(results[0].calories, 260);
    assert_eq!(cache.search("bread").len(), 0);
    assert_eq!(cache.search("ghost").len(), 0);
}

#[test]
fn cache_update_patches_only_supplied_fields() {
    let mut cache = Cache::new();
    cache.insert(3, item("Milk", 60));
    cache.update(3, None, Some(64));
    let results = cache.search("milk");
    assert_eq!(results.len(), 1);
    assert_eq!(results[0].name, "Milk");
    assert_eq!(results[0].calories, 64);

    cache.update(3, Some("Oat milk".to_string()), None);
    let results = cache.search("oat");
    assert_eq!(results.len(), 1);
    assert_eq!(results[0].name, "Oat milk");
    assert_eq!(results[0].calories, 64);
}

#[test]
fn search_ranks_better_matches_first() {
    let mut cache = Cache::new();
    cache.insert(1, item("raisin cheesecake", 300));
    cache.insert(2, item("rice", 130));
    let results = cache.search("rice");
    assert_eq!(results.len(), 2);
    // The exact, contiguous match outscores the scattered one.
    assert_eq!(results[0].name, "rice");
    assert_eq!(results[1].name, "raisin cheesecake");
}
