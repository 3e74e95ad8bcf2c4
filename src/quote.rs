//! The record model: a stored quote row, and the transfer shape that carries
//! a quote together with its set of tags.

use vstd::prelude::*;

verus! {

/// The value of a stored quote row.
pub ghost struct QuoteView {
    pub id: Seq<char>,
    pub quote: Seq<char>,
    pub author: Seq<char>,
}

/// A stored quote row: its identifier, its text and its author.
#[derive(Clone, Debug)]
pub struct Quote {
    pub id: String,
    pub quote: String,
    pub author: String,
}

impl View for Quote {
    type V = QuoteView;

    open spec fn view(&self) -> QuoteView {
        QuoteView { id: self.id@, quote: self.quote@, author: self.author@ }
    }
}

impl Quote {
    /// A copy of the row with the same three fields.
    pub fn duplicate(&self) -> (r: Quote)
        ensures
            r@ == self@,
    {
        Quote { id: self.id.clone(), quote: self.quote.clone(), author: self.author.clone() }
    }
}

/// The character sequences held by a sequence of strings.
pub open spec fn strings_view(v: Seq<String>) -> Seq<Seq<char>> {
    v.map_values(|s: String| s@)
}

/// The set of the members of a sequence.
pub open spec fn members(s: Seq<Seq<char>>) -> Set<Seq<char>> {
    Set::new(|t: Seq<char>| s.contains(t))
}

/// The value of a transfer record: a quote's fields and its set of tags.
pub ghost struct JsonQuoteView {
    pub id: Seq<char>,
    pub quote: Seq<char>,
    pub author: Seq<char>,
    pub tags: Set<Seq<char>>,
}

impl JsonQuoteView {
    /// The quote row that the record describes.
    pub open spec fn row(self) -> QuoteView {
        QuoteView { id: self.id, quote: self.quote, author: self.author }
    }
}

/// The record built from a quote row and a list of tags: duplicates collapse and
/// order is dropped.
pub open spec fn assemble(q: QuoteView, tags: Seq<Seq<char>>) -> JsonQuoteView {
    JsonQuoteView { id: q.id, quote: q.quote, author: q.author, tags: members(tags) }
}

/// A quote with its tags, in the shape that crosses the system boundary.
/// The tags are kept without duplicates, so the list stands for a set.
#[derive(Debug)]
pub struct JsonQuote {
    id: String,
    quote: String,
    author: String,
    tags: Vec<String>,
}

impl View for JsonQuote {
    type V = JsonQuoteView;

    closed spec fn view(&self) -> JsonQuoteView {
        JsonQuoteView {
            id: self.id@,
            quote: self.quote@,
            author: self.author@,
            tags: members(strings_view(self.tags@)),
        }
    }
}

/// Whether `t` equals one of `v`'s strings, by a scan of `v`.
pub(crate) fn contains_string(v: &Vec<String>, t: &String) -> (r: bool)
    ensures
        r == strings_view(v@).contains(t@),
{
    let mut i: usize = 0;
    while i < v.len()
        invariant
            i <= v.len(),
            forall|k: int| 0 <= k < i ==> v@[k]@ != t@,
        decreases v.len() - i,
    {
        if v[i] == *t {
            assert(strings_view(v@)[i as int] == t@);
            return true;
        }
        i = i + 1;
    }
    assert(!strings_view(v@).contains(t@)) by {
        if strings_view(v@).contains(t@) {
            let k = choose|k: int| 0 <= k < strings_view(v@).len() && strings_view(v@)[k] == t@;
            assert(v@[k]@ == t@);
        }
    }
    false
}

proof fn lemma_members_push(s: Seq<Seq<char>>, x: Seq<char>)
    ensures
        members(s.push(x)) == members(s).insert(x),
{
    assert forall|t: Seq<char>|
        #[trigger] members(s.push(x)).contains(t) == members(s).insert(x).contains(t) by {
        if s.push(x).contains(t) && t != x {
            let k = choose|k: int| 0 <= k < s.push(x).len() && s.push(x)[k] == t;
            assert(s[k] == t);
        }
        if s.contains(t) {
            let k = choose|k: int| 0 <= k < s.len() && s[k] == t;
            assert(s.push(x)[k] == t);
        }
        if t == x {
            assert(s.push(x)[s.len() as int] == t);
        }
    }
    assert(members(s.push(x)) =~= members(s).insert(x));
}

impl JsonQuote {
    /// The tag list holds no string twice.
    #[verifier::type_invariant]
    spec fn inv(&self) -> bool {
        strings_view(self.tags@).no_duplicates()
    }

    /// The record of a quote row and its tags; repeated tags are kept once.
    pub fn new(quote: Quote, tags: Vec<String>) -> (r: Self)
        ensures
            r@ == assemble(quote@, strings_view(tags@)),
    {
        let mut kept: Vec<String> = Vec::new();
        let mut i: usize = 0;
        while i < tags.len()
            invariant
                i <= tags.len(),
                strings_view(kept@).no_duplicates(),
                members(strings_view(kept@)) == members(strings_view(tags@.subrange(0, i as int))),
            decreases tags.len() - i,
        {
            let t = &tags[i];
            let seen = contains_string(&kept, t);
            let ghost before = kept@;
            if !seen {
                kept.push(t.clone());
                assert(strings_view(kept@) == strings_view(before).push(t@));
            }
            let ghost pre = strings_view(tags@.subrange(0, i as int));
            let ghost post = strings_view(tags@.subrange(0, i + 1));
            assert(post =~= pre.push(t@));
            proof {
                lemma_members_push(pre, t@);
                lemma_members_push(strings_view(before), t@);
            }
            assert(members(strings_view(kept@)) =~= members(post));
            i = i + 1;
        }
        assert(tags@.subrange(0, tags.len() as int) == tags@);
        JsonQuote { id: quote.id, quote: quote.quote, author: quote.author, tags: kept }
    }

    /// The quote row of the record, and its tags, each once.
    pub fn to_quote(&self) -> (r: (Quote, Vec<String>))
        ensures
            r.0@ == self@.row(),
            strings_view(r.1@).no_duplicates(),
            members(strings_view(r.1@)) == self@.tags,
    {
        proof {
            use_type_invariant(self);
        }
        let q = Quote { id: self.id.clone(), quote: self.quote.clone(), author: self.author.clone() };
        let mut tags: Vec<String> = Vec::new();
        let mut i: usize = 0;
        while i < self.tags.len()
            invariant
                i <= self.tags.len(),
                strings_view(tags@) == strings_view(self.tags@.subrange(0, i as int)),
            decreases self.tags.len() - i,
        {
            let ghost before = tags@;
            tags.push(self.tags[i].clone());
            assert(tags@ == before.push(self.tags@[i as int]));
            assert(self.tags@.subrange(0, i + 1) =~= self.tags@.subrange(0, i as int).push(
                self.tags@[i as int],
            ));
            assert(strings_view(tags@) =~= strings_view(before).push(self.tags@[i as int]@));
            assert(strings_view(self.tags@.subrange(0, i + 1)) =~= strings_view(
                self.tags@.subrange(0, i as int),
            ).push(self.tags@[i as int]@));
            i = i + 1;
        }
        assert(self.tags@.subrange(0, self.tags.len() as int) == self.tags@);
        (q, tags)
    }
}

/// Splitting a record into its quote row and its tags, and building a record
/// again from these, gives back a record with the same identifier, text, author
/// and set of tags.
pub proof fn lemma_round_trip(j: JsonQuoteView, q: QuoteView, tags: Seq<Seq<char>>)
    requires
        q == j.row(),
        members(tags) == j.tags,
    ensures
        assemble(q, tags) == j,
{
}

} // verus!
