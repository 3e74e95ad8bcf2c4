use quote_server::error::{QuoteError, StoreError};
use quote_server::page::{redirect_uri, GetQuoteParams, IndexTemplate, Page};
use quote_server::quote::{JsonQuote, Quote};
use quote_server::state::{default_quote, AppState};
use quote_server::store::QuoteStore;
use quote_server::text::{
    endpoint_for, extract_db_dir, get_db_uri, is_whitespace, join_tags, parse_tag_list,
    sanitize_theme, theme_from_parts,
};

fn quote(id: &str, text: &str, author: &str) -> Quote {
    Quote { id: id.to_string(), quote: text.to_string(), author: author.to_string() }
}

fn strings(v: &[&str]) -> Vec<String> {
    v.iter().map(|s| s.to_string()).collect()
}

fn wisdom_state() -> AppState {
    let mut store = QuoteStore::new();
    assert_eq!(store.add_quote(quote("1", "A", "X"), &strings(&["wisdom"])), Ok(()));
    AppState::new(store, "SECRET-REDACTED".to_string())
}

#[test]
fn lookup_by_tags_scenario() {
    let st = wisdom_state();
    let j = st.get_tagged_quote("wisdom,unknown").unwrap();
    let (q, tags) = j.to_quote();
    assert_eq!(q.id, "1");
    assert_eq!(tags, strings(&["wisdom"]));
    let miss = st.get_tagged_quote("nope");
    assert!(matches!(miss, Err(StoreError::Empty)));
    assert_eq!(miss.unwrap_err().status_code(), 404);
}

#[test]
fn lookup_by_tags_with_blank_list_is_empty() {
    let st = wisdom_state();
    assert!(matches!(st.get_tagged_quote(" , ,"), Err(StoreError::Empty)));
    assert!(matches!(st.get_tagged_quote(""), Err(StoreError::Empty)));
}

#[test]
fn lookup_by_id_and_random() {
    let st = wisdom_state();
    let (q, _) = st.get_quote("1").unwrap().to_quote();
    assert_eq!(q.quote, "A");
    assert!(matches!(st.get_quote("2"), Err(StoreError::NotFound)));
    let (r, _) = st.get_random_quote().unwrap().to_quote();
    assert_eq!(r.id, "1");
    let empty = AppState::new(QuoteStore::new(), String::new());
    assert!(matches!(empty.get_random_quote(), Err(StoreError::NotFound)));
}

#[test]
fn create_delete_and_list() {
    let mut st = wisdom_state();
    let j = JsonQuote::new(quote("2", "B", "Y"), strings(&["life", "life"]));
    assert_eq!(st.add_quote(&j), Ok(()));
    assert_eq!(st.add_quote(&j), Err(StoreError::DuplicateId));
    let all = st.get_all_quotes();
    assert_eq!(all.len(), 2);
    let (q, tags) = all[1].to_quote();
    assert_eq!(q.id, "2");
    assert_eq!(tags, strings(&["life"]));
    assert_eq!(st.delete_quote("2"), Ok(()));
    assert_eq!(st.delete_quote("2"), Err(StoreError::NotFound));
    assert_eq!(st.get_all_quotes().len(), 1);
}

#[test]
fn register_checks_the_secret() {
    let st = wisdom_state();
    assert_eq!(st.register("SECRET-REDACTED"), Ok(()));
    assert_eq!(st.register("wrong"), Err(StoreError::Unauthorized));
    assert_eq!(st.register(""), Err(StoreError::Unauthorized));
    assert_eq!(StoreError::Unauthorized.status_code(), 401);
}

#[test]
fn status_codes_follow_the_taxonomy() {
    assert_eq!(StoreError::NotFound.status_code(), 404);
    assert_eq!(StoreError::Empty.status_code(), 404);
    assert_eq!(StoreError::DuplicateId.status_code(), 400);
    assert_eq!(StoreError::InvalidInput.status_code(), 400);
    assert_eq!(StoreError::TagInsertFailed.status_code(), 500);
    assert_eq!(StoreError::StoreUnavailable.status_code(), 500);
}

#[test]
fn page_by_id_shows_quote_and_sets_current() {
    let mut store = QuoteStore::new();
    assert_eq!(store.add_quote(quote("5", "Q", "Z"), &strings(&["love", "life"])), Ok(()));
    let mut st = AppState::new(store, String::new());
    assert_eq!(st.current_quote().id, "101");
    let params = GetQuoteParams { id: Some("5".to_string()), tags: None };
    match st.view_page(&params) {
        Ok(Page::Show(t)) => {
            assert_eq!(t.quote.id, "5");
            assert_eq!(t.tags, "love, life");
            assert_eq!(t.stylesheet, "/quote.css");
        }
        _ => panic!("expected a page"),
    }
    assert_eq!(st.current_quote().id, "5");
    let missing = GetQuoteParams { id: Some("6".to_string()), tags: None };
    assert!(matches!(st.view_page(&missing), Err(StoreError::NotFound)));
    assert_eq!(st.current_quote().id, "5");
}

#[test]
fn page_by_theme_redirects_to_a_match() {
    let mut st = wisdom_state();
    let params = GetQuoteParams { id: None, tags: Some("Wis-dom, Nothing".to_string()) };
    match st.view_page(&params) {
        Ok(Page::Redirect(u)) => assert_eq!(u, "/?id=1"),
        _ => panic!("expected a redirect"),
    }
    assert_eq!(st.current_quote().id, "101");
}

#[test]
fn page_without_match_falls_back_to_random() {
    let mut st = wisdom_state();
    let params = GetQuoteParams { id: None, tags: Some("zzz".to_string()) };
    assert!(matches!(st.view_page(&params), Ok(Page::Redirect(ref u)) if u == "/?id=1"));
    let mut empty = AppState::new(QuoteStore::new(), String::new());
    let none = GetQuoteParams { id: None, tags: None };
    assert!(matches!(empty.view_page(&none), Err(StoreError::NotFound)));
}

#[test]
fn default_quote_is_the_turtle() {
    let q = default_quote();
    assert_eq!(q.id, "101");
    assert_eq!(q.author, "Turtle");
    assert!(q.quote.starts_with("Yesterday is history"));
}

#[test]
fn index_template_links_stylesheet() {
    let t = IndexTemplate::new(quote("1", "A", "X"), "a, b".to_string());
    assert_eq!(t.stylesheet, "/quote.css");
    assert_eq!(t.tags, "a, b");
    assert_eq!(redirect_uri("42"), "/?id=42");
}

#[test]
fn parse_tag_list_splits_trims_and_drops_empty() {
    assert_eq!(parse_tag_list("wisdom,unknown"), strings(&["wisdom", "unknown"]));
    assert_eq!(parse_tag_list("  love , ,life\t,"), strings(&["love", "life"]));
    assert_eq!(parse_tag_list(""), Vec::<String>::new());
    assert_eq!(parse_tag_list("\u{3000}zen\u{a0}"), strings(&["zen"]));
}

#[test]
fn whitespace_matches_std() {
    for c in ['\t', '\n', ' ', '\u{85}', '\u{a0}', '\u{2003}', '\u{3000}', 'a', ',', '\u{200b}'] {
        assert_eq!(is_whitespace(c), c.is_whitespace());
    }
}

#[test]
fn join_tags_uses_separator() {
    assert_eq!(join_tags(&strings(&["love", "life"]), ", "), "love, life");
    assert_eq!(join_tags(&strings(&["one"]), ", "), "one");
    assert_eq!(join_tags(&Vec::new(), ", "), "");
}

#[test]
fn sanitize_theme_keeps_lowercase_letters_and_commas() {
    assert_eq!(sanitize_theme("Love, LIFE!"), "love,life");
    assert_eq!(sanitize_theme("Ärger-2"), "ärger");
    assert_eq!(sanitize_theme("123 ?"), "");
}

#[test]
fn extract_db_dir_of_valid_uris() {
    assert_eq!(extract_db_dir("sqlite://db/quotes.db"), Ok("db"));
    assert_eq!(extract_db_dir("sqlite://a/b/c.db"), Ok("a/b"));
    assert_eq!(extract_db_dir("sqlite://quotes.db"), Ok(""));
}

#[test]
fn extract_db_dir_refuses_other_uris() {
    assert_eq!(
        extract_db_dir("postgres://db/quotes.db"),
        Err(QuoteError::InvalidDbUri("postgres://db/quotes.db".to_string()))
    );
    assert_eq!(
        extract_db_dir("sqlite://db/quotes.sqlite"),
        Err(QuoteError::InvalidDbUri("sqlite://db/quotes.sqlite".to_string()))
    );
}

#[test]
fn db_uri_prefers_argument_then_environment() {
    assert_eq!(get_db_uri(Some("sqlite://x.db"), Some("sqlite://y.db")), "sqlite://x.db");
    assert_eq!(get_db_uri(None, Some("sqlite://y.db")), "sqlite://y.db");
    assert_eq!(get_db_uri(None, None), "sqlite://db/quotes.db");
}

#[test]
fn front_end_endpoint_choice() {
    assert_eq!(endpoint_for(""), "random-quote");
    assert_eq!(endpoint_for("   "), "random-quote");
    assert_eq!(endpoint_for("42"), "quote/42");
    assert_eq!(endpoint_for("love, life"), "tagged-quote?tags=love,life");
    assert_eq!(endpoint_for(" a ,, b"), "tagged-quote?tags=a,,b");
    assert_eq!(endpoint_for(" 12"), "tagged-quote?tags=12");
}

#[test]
fn theme_from_parts_keeps_marked_letters_and_commas() {
    let lowered = strings(&["x", "y", "z", "w"]);
    assert_eq!(theme_from_parts("Ab,?", &vec![true, false, false, false], &lowered), "xz");
    assert_eq!(theme_from_parts("", &Vec::new(), &Vec::new()), "");
}
