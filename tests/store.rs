use quote_server::error::StoreError;
use quote_server::quote::{JsonQuote, Quote};
use quote_server::store::QuoteStore;

fn quote(id: &str, text: &str, author: &str) -> Quote {
    Quote { id: id.to_string(), quote: text.to_string(), author: author.to_string() }
}

fn strings(v: &[&str]) -> Vec<String> {
    v.iter().map(|s| s.to_string()).collect()
}

fn two_quote_store() -> QuoteStore {
    let mut s = QuoteStore::new();
    assert_eq!(s.add_quote(quote("1", "Q1", "A"), &strings(&["love", "life"])), Ok(()));
    assert_eq!(s.add_quote(quote("2", "Q2", "B"), &strings(&["loss"])), Ok(()));
    s
}

#[test]
fn add_then_get_returns_row_and_tags() {
    let s = two_quote_store();
    let (q, tags) = s.get("1").unwrap();
    assert_eq!(q.id, "1");
    assert_eq!(q.quote, "Q1");
    assert_eq!(q.author, "A");
    assert_eq!(tags, strings(&["love", "life"]));
    assert_eq!(s.len(), 2);
    assert_eq!(s.tag_count(), 3);
}

#[test]
fn get_unknown_id_is_not_found() {
    let s = two_quote_store();
    assert!(matches!(s.get("9"), Err(StoreError::NotFound)));
}

#[test]
fn duplicate_id_is_refused_and_row_kept() {
    let mut s = two_quote_store();
    let r = s.add_quote(quote("1", "other", "other"), &strings(&["x"]));
    assert_eq!(r, Err(StoreError::DuplicateId));
    let (q, tags) = s.get("1").unwrap();
    assert_eq!(q.quote, "Q1");
    assert_eq!(q.author, "A");
    assert_eq!(tags, strings(&["love", "life"]));
    assert_eq!(s.tag_count(), 3);
}

#[test]
fn failed_tag_insert_leaves_no_quote_row() {
    let mut s = QuoteStore::with_tag_capacity(2);
    assert_eq!(s.add_quote(quote("1", "A", "X"), &strings(&["a"])), Ok(()));
    let r = s.add_quote(quote("2", "B", "Y"), &strings(&["b", "c"]));
    assert_eq!(r, Err(StoreError::TagInsertFailed));
    assert!(matches!(s.get("2"), Err(StoreError::NotFound)));
    assert_eq!(s.len(), 1);
    assert_eq!(s.tag_count(), 1);
    // A quote that fits still goes in afterwards.
    assert_eq!(s.add_quote(quote("2", "B", "Y"), &strings(&["b"])), Ok(()));
    assert_eq!(s.tag_count(), 2);
}

#[test]
fn quote_without_tags_needs_no_tag_room() {
    let mut s = QuoteStore::with_tag_capacity(0);
    assert_eq!(s.add_quote(quote("1", "A", "X"), &Vec::new()), Ok(()));
    let (_, tags) = s.get("1").unwrap();
    assert!(tags.is_empty());
}

#[test]
fn delete_removes_row_and_tags_then_not_found() {
    let mut s = two_quote_store();
    assert_eq!(s.delete_quote("1"), Ok(()));
    assert!(matches!(s.get("1"), Err(StoreError::NotFound)));
    assert_eq!(s.tag_count(), 1);
    assert_eq!(s.get_tagged(&strings(&["love", "life"])), None);
    assert_eq!(s.delete_quote("1"), Err(StoreError::NotFound));
    assert_eq!(s.len(), 1);
}

#[test]
fn tagged_selection_picks_only_matching_quotes() {
    let s = two_quote_store();
    for _ in 0..200 {
        let id = s.get_tagged(&strings(&["life", "loss"])).unwrap();
        assert!(id == "1" || id == "2");
    }
    assert_eq!(s.get_tagged(&strings(&["unknown"])), None);
    assert_eq!(s.get_tagged(&Vec::new()), None);
}

#[test]
fn tagged_selection_reaches_every_match() {
    let s = two_quote_store();
    let mut seen1 = false;
    let mut seen2 = false;
    for _ in 0..500 {
        match s.get_tagged(&strings(&["life", "loss"])).unwrap().as_str() {
            "1" => seen1 = true,
            "2" => seen2 = true,
            other => panic!("unexpected id {}", other),
        }
    }
    assert!(seen1 && seen2);
}

#[test]
fn tags_are_case_sensitive() {
    let s = two_quote_store();
    assert_eq!(s.get_tagged(&strings(&["Love"])), None);
    assert_eq!(s.get_tagged(&strings(&["love"])), Some("1".to_string()));
}

#[test]
fn matching_ids_are_distinct() {
    let s = two_quote_store();
    let ids = s.matching_ids(&strings(&["love", "life", "loss", "love"]));
    assert_eq!(ids, strings(&["1", "2"]));
}

#[test]
fn random_on_empty_store_is_not_found() {
    let s = QuoteStore::new();
    assert_eq!(s.get_random(), Err(StoreError::NotFound));
}

#[test]
fn random_visits_every_quote() {
    let mut s = QuoteStore::new();
    for i in 1..=5 {
        let id = i.to_string();
        assert_eq!(s.add_quote(quote(&id, "t", "a"), &Vec::new()), Ok(()));
    }
    let mut seen = [false; 5];
    for _ in 0..1000 {
        let id = s.get_random().unwrap();
        let k: usize = id.parse().unwrap();
        seen[k - 1] = true;
    }
    assert!(seen.iter().all(|b| *b));
}

#[test]
fn quote_id_at_follows_insert_order() {
    let s = two_quote_store();
    assert_eq!(s.quote_id_at(0), Ok("1".to_string()));
    assert_eq!(s.quote_id_at(1), Ok("2".to_string()));
    assert_eq!(s.quote_id_at(2), Err(StoreError::NotFound));
}

#[test]
fn list_all_gives_every_quote_with_tags() {
    let s = two_quote_store();
    let all = s.list_all();
    assert_eq!(all.len(), 2);
    assert_eq!(all[0].0.id, "1");
    assert_eq!(all[0].1, strings(&["love", "life"]));
    assert_eq!(all[1].0.id, "2");
    assert_eq!(all[1].1, strings(&["loss"]));
}

#[test]
fn json_quote_collapses_duplicate_tags() {
    let j = JsonQuote::new(quote("7", "T", "W"), strings(&["a", "b", "a"]));
    let (q, tags) = j.to_quote();
    assert_eq!(q.id, "7");
    assert_eq!(q.quote, "T");
    assert_eq!(q.author, "W");
    assert_eq!(tags, strings(&["a", "b"]));
}

#[test]
fn json_quote_round_trip() {
    let j = JsonQuote::new(quote("3", "text", "someone"), strings(&["x", "y", "z"]));
    let (q, tags) = j.to_quote();
    let again = JsonQuote::new(q, tags);
    let (q1, t1) = j.to_quote();
    let (q2, t2) = again.to_quote();
    assert_eq!((q1.id, q1.quote, q1.author), (q2.id, q2.quote, q2.author));
    let mut t1 = t1;
    let mut t2 = t2;
    t1.sort();
    t2.sort();
    assert_eq!(t1, t2);
}

#[test]
fn blank_labels_select_nothing() {
    let mut s = QuoteStore::new();
    assert_eq!(s.add_quote(quote("1", "A", "X"), &strings(&[" ", "", "calm"])), Ok(()));
    assert_eq!(s.get_tagged(&strings(&[" "])), None);
    assert_eq!(s.get_tagged(&strings(&["", "\t "])), None);
    assert!(s.matching_ids(&strings(&[" ", ""])).is_empty());
    assert_eq!(s.get_tagged(&strings(&[" ", "calm"])), Some("1".to_string()));
}

#[test]
fn delete_right_after_add_restores_store() {
    let mut s = two_quote_store();
    assert_eq!(s.add_quote(quote("3", "Q3", "C"), &strings(&["new", "life"])), Ok(()));
    assert_eq!(s.delete_quote("3"), Ok(()));
    assert_eq!(s.len(), 2);
    assert_eq!(s.tag_count(), 3);
    assert_eq!(s.matching_ids(&strings(&["life", "new"])), strings(&["1"]));
}
