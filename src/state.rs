//! The shared service state: the quote store, the registration secret, and the
//! quote last shown on the page view. Queries take `&self`; the operations
//! that write (the store, or the shown quote) take `&mut self`.

use vstd::prelude::*;

use crate::error::StoreError;
use crate::page::{page_uri, redirect_uri, GetQuoteParams, IndexTemplate, Page, stylesheet_path};
use crate::quote::{assemble, members, strings_view, JsonQuote, JsonQuoteView, Quote, QuoteView};
use crate::store::{has_id, lemma_match_is_stored, tags_of, QuoteStore, StoreView};
use crate::text::{join, join_tags, parse_tag_list, parse_tags, sanitize_theme, theme_filter};

verus! {

/// The quote shown before any other.
pub open spec fn default_quote_view() -> QuoteView {
    QuoteView {
        id: "101"@,
        quote: "Yesterday is history, tomorrow is a mystery, and today is a gift, that's why it's called the present."@,
        author: "Turtle"@,
    }
}

/// The quote shown before any other.
pub fn default_quote() -> (r: Quote)
    ensures
        r@ == default_quote_view(),
{
    Quote {
        id: String::from_str("101"),
        quote: String::from_str(
            "Yesterday is history, tomorrow is a mystery, and today is a gift, that's why it's called the present.",
        ),
        author: String::from_str("Turtle"),
    }
}

/// Whether `j` is the record of a stored quote: its row is stored and its tags
/// are the tags stored for its identifier.
pub open spec fn is_record(s: StoreView, j: JsonQuoteView) -> bool {
    s.quotes.contains(j.row()) && j.tags == members(tags_of(s.tags, j.id))
}

/// The labels that a theme of the page view stands for.
pub open spec fn theme_labels(theme: Seq<char>) -> Seq<Seq<char>> {
    parse_tags(theme_filter(theme))
}

/// The content of the service state.
pub ghost struct AppStateView {
    pub store: StoreView,
    pub reg_key: Seq<char>,
    pub current: QuoteView,
}

/// The state shared by all requests.
pub struct AppState {
    store: QuoteStore,
    reg_key: String,
    current_quote: Quote,
}

impl View for AppState {
    type V = AppStateView;

    closed spec fn view(&self) -> AppStateView {
        AppStateView { store: self.store@, reg_key: self.reg_key@, current: self.current_quote@ }
    }
}

impl AppState {
    /// The state over `store` with the registration secret `reg_key`, showing
    /// the default quote.
    pub fn new(store: QuoteStore, reg_key: String) -> (r: Self)
        ensures
            r@.store == store@,
            r@.reg_key == reg_key@,
            r@.current == default_quote_view(),
    {
        AppState { store, reg_key, current_quote: default_quote() }
    }

    /// The store, for queries.
    pub fn store(&self) -> (r: &QuoteStore)
        ensures
            r@ == self@.store,
    {
        &self.store
    }

    /// The quote last shown on the page view.
    pub fn current_quote(&self) -> (r: &Quote)
        ensures
            r@ == self@.current,
    {
        &self.current_quote
    }

    /// The record of the quote `id`; `NotFound` when there is none.
    pub fn get_quote(&self, id: &str) -> (r: Result<JsonQuote, StoreError>)
        ensures
            self@.store.wf(),
            match r {
                Ok(j) => j@.id == id@ && is_record(self@.store, j@),
                Err(e) => e == StoreError::NotFound && !has_id(self@.store.quotes, id@),
            },
    {
        match self.store.get(id) {
            Ok((q, tags)) => {
                let ghost qv = q@;
                let j = JsonQuote::new(q, tags);
                assert(j@.row() == qv);
                Ok(j)
            },
            Err(e) => Err(e),
        }
    }

    /// The record of a quote drawn uniformly at random; `NotFound` when the
    /// store is empty.
    pub fn get_random_quote(&self) -> (r: Result<JsonQuote, StoreError>)
        ensures
            match r {
                Ok(j) => is_record(self@.store, j@),
                Err(e) => e == StoreError::NotFound && self@.store.quotes.len() == 0,
            },
    {
        match self.store.get_random() {
            Ok(id) => self.get_quote(id.as_str()),
            Err(e) => Err(e),
        }
    }

    /// The record of a quote drawn uniformly at random among those with a tag
    /// among the labels of the comma-separated list `query`; `Empty` when no
    /// quote has one (also when the list holds no label).
    pub fn get_tagged_quote(&self, query: &str) -> (r: Result<JsonQuote, StoreError>)
        ensures
            match r {
                Ok(j) => is_record(self@.store, j@) && self@.store.matches(parse_tags(query@), j@.id),
                Err(e) => e == StoreError::Empty && forall|id: Seq<char>|
                    !self@.store.matches(parse_tags(query@), id),
            },
    {
        let labels = parse_tag_list(query);
        match self.store.get_tagged(&labels) {
            Some(id) => {
                proof {
                    lemma_match_is_stored(self@.store, strings_view(labels@), id@);
                }
                match self.get_quote(id.as_str()) {
                    Ok(j) => Ok(j),
                    Err(e) => Err(e),
                }
            },
            None => Err(StoreError::Empty),
        }
    }

    /// Stores the record's quote with its tags, as one unit (see
    /// `QuoteStore::add_quote`); the tags go in some order of the record's set.
    pub fn add_quote(&mut self, j: &JsonQuote) -> (r: Result<(), StoreError>)
        ensures
            final(self)@.reg_key == old(self)@.reg_key,
            final(self)@.current == old(self)@.current,
            final(self)@.store.wf(),
            exists|ts: Seq<Seq<char>>|
                members(ts) == j@.tags && ts.no_duplicates() && (final(self)@.store, r)
                    == old(self)@.store.add_outcome(j@.row(), ts),
    {
        let (q, tags) = j.to_quote();
        let r = self.store.add_quote(q, &tags);
        assert(members(strings_view(tags@)) == j@.tags);
        r
    }

    /// Deletes the quote `id` with its tags, as one unit (see
    /// `QuoteStore::delete_quote`).
    pub fn delete_quote(&mut self, id: &str) -> (r: Result<(), StoreError>)
        ensures
            final(self)@.reg_key == old(self)@.reg_key,
            final(self)@.current == old(self)@.current,
            final(self)@.store.wf(),
            (final(self)@.store, r) == old(self)@.store.delete_outcome(id@),
    {
        self.store.delete_quote(id)
    }

    /// The records of all stored quotes, in the order of the quote rows.
    pub fn get_all_quotes(&self) -> (r: Vec<JsonQuote>)
        ensures
            r@.len() == self@.store.quotes.len(),
            forall|i: int|
                0 <= i < r@.len() ==> (#[trigger] r@[i])@ == assemble(
                    self@.store.quotes[i],
                    tags_of(self@.store.tags, self@.store.quotes[i].id),
                ),
    {
        let rows = self.store.list_all();
        let mut r: Vec<JsonQuote> = Vec::new();
        let mut i: usize = 0;
        while i < rows.len()
            invariant
                i <= rows.len(),
                rows@.len() == self@.store.quotes.len(),
                forall|x: int|
                    0 <= x < rows@.len() ==> {
                        &&& (#[trigger] rows@[x]).0@ == self@.store.quotes[x]
                        &&& strings_view(rows@[x].1@) == tags_of(
                            self@.store.tags,
                            self@.store.quotes[x].id,
                        )
                    },
                r@.len() == i,
                forall|x: int|
                    0 <= x < i ==> (#[trigger] r@[x])@ == assemble(
                        self@.store.quotes[x],
                        tags_of(self@.store.tags, self@.store.quotes[x].id),
                    ),
            decreases rows.len() - i,
        {
            let q = rows[i].0.duplicate();
            let mut tags: Vec<String> = Vec::new();
            let mut k: usize = 0;
            while k < rows[i].1.len()
                invariant
                    i < rows@.len(),
                    k <= rows@[i as int].1.len(),
                    strings_view(tags@) == strings_view(rows@[i as int].1@.subrange(0, k as int)),
                decreases rows@[i as int].1.len() - k,
            {
                let ghost before = tags@;
                tags.push(rows[i].1[k].clone());
                assert(strings_view(tags@) =~= strings_view(before).push(rows@[i as int].1@[k as int]@));
                assert(strings_view(rows@[i as int].1@.subrange(0, k + 1)) =~= strings_view(
                    rows@[i as int].1@.subrange(0, k as int),
                ).push(rows@[i as int].1@[k as int]@));
                k = k + 1;
            }
            assert(rows@[i as int].1@.subrange(0, rows@[i as int].1@.len() as int) == rows@[i as int].1@);
            r.push(JsonQuote::new(q, tags));
            i = i + 1;
        }
        r
    }

    /// Admits a registration whose secret equals the registration secret;
    /// anything else is `Unauthorized`, with no hint of why.
    pub fn register(&self, secret: &str) -> (r: Result<(), StoreError>)
        ensures
            r is Ok <==> secret@ == self@.reg_key,
            r is Err ==> r == Err::<(), StoreError>(StoreError::Unauthorized),
    {
        let presented = String::from_str(secret);
        if presented == self.reg_key {
            Ok(())
        } else {
            Err(StoreError::Unauthorized)
        }
    }

    /// The page view. With an identifier: the page of that quote, which becomes
    /// the shown quote, or `NotFound`. Otherwise, with a theme that some quote
    /// matches: a redirect to a quote drawn among those. Otherwise a redirect to
    /// a quote drawn among all, or `NotFound` when the store is empty.
    pub fn view_page(&mut self, params: &GetQuoteParams) -> (r: Result<Page, StoreError>)
        ensures
            final(self)@.store == old(self)@.store,
            final(self)@.reg_key == old(self)@.reg_key,
            match params.id {
                Some(id) => match r {
                    Ok(Page::Show(t)) => {
                        &&& t.quote@.id == id@
                        &&& old(self)@.store.quotes.contains(t.quote@)
                        &&& t.tags@ == join(tags_of(old(self)@.store.tags, id@), ", "@)
                        &&& t.stylesheet@ == stylesheet_path()
                        &&& final(self)@.current == t.quote@
                    },
                    Ok(Page::Redirect(_)) => false,
                    Err(e) => {
                        &&& e == StoreError::NotFound
                        &&& !has_id(old(self)@.store.quotes, id@)
                        &&& final(self)@.current == old(self)@.current
                    },
                },
                None => {
                    let themed = params.tags matches Some(th) && exists|x: Seq<char>|
                        old(self)@.store.matches(theme_labels(th@), x);
                    &&& final(self)@.current == old(self)@.current
                    &&& match r {
                        Ok(Page::Show(_)) => false,
                        Ok(Page::Redirect(u)) => exists|id: Seq<char>|
                            u@ == page_uri(id) && has_id(old(self)@.store.quotes, id) && (themed
                                ==> (params.tags matches Some(th) && old(self)@.store.matches(
                                theme_labels(th@),
                                id,
                            ))),
                        Err(e) => e == StoreError::NotFound && !themed && old(self)@.store.quotes.len()
                            == 0,
                    }
                },
            },
    {
        if let Some(id) = &params.id {
            return match self.store.get(id.as_str()) {
                Ok((q, tags)) => {
                    let shown = join_tags(&tags, ", ");
                    self.current_quote = q.duplicate();
                    Ok(Page::Show(IndexTemplate::new(q, shown)))
                },
                Err(e) => Err(e),
            };
        }
        if let Some(th) = &params.tags {
            let cleaned = sanitize_theme(th.as_str());
            let labels = parse_tag_list(cleaned.as_str());
            if let Some(id) = self.store.get_tagged(&labels) {
                proof {
                    lemma_match_is_stored(self@.store, strings_view(labels@), id@);
                }
                return Ok(Page::Redirect(redirect_uri(id.as_str())));
            }
        }
        match self.store.get_random() {
            Ok(id) => Ok(Page::Redirect(redirect_uri(id.as_str()))),
            Err(e) => Err(e),
        }
    }
}

} // verus!
