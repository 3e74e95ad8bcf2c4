//! The quote repository: quote rows and tag associations kept together, with
//! writes that take effect all at once or not at all.

use vstd::prelude::*;

use crate::error::StoreError;
use crate::quote::{contains_string, strings_view, Quote, QuoteView};
use crate::text::{is_blank, trim};

verus! {

/// A tag association: the quote it belongs to and the tag itself.
pub type TagPair = (Seq<char>, Seq<char>);

/// A stored tag association.
#[derive(Clone, Debug)]
pub struct TagRow {
    pub quote_id: String,
    pub tag: String,
}

impl View for TagRow {
    type V = TagPair;

    open spec fn view(&self) -> TagPair {
        (self.quote_id@, self.tag@)
    }
}

impl TagRow {
    /// A copy of the row.
    pub fn clone_row(&self) -> (r: TagRow)
        ensures
            r@ == self@,
    {
        TagRow { quote_id: self.quote_id.clone(), tag: self.tag.clone() }
    }
}

/// The views of a sequence of tag rows.
pub open spec fn rows_view(v: Seq<TagRow>) -> Seq<TagPair> {
    v.map_values(|r: TagRow| r@)
}

/// The views of a sequence of quote rows.
pub open spec fn quotes_view(v: Seq<Quote>) -> Seq<QuoteView> {
    v.map_values(|q: Quote| q@)
}

/// The tags of the quote `id`, in the order of the rows.
pub open spec fn tags_of(rows: Seq<TagPair>, id: Seq<char>) -> Seq<Seq<char>>
    decreases rows.len(),
{
    if rows.len() == 0 {
        Seq::empty()
    } else {
        let rest = tags_of(rows.drop_last(), id);
        if rows.last().0 == id {
            rest.push(rows.last().1)
        } else {
            rest
        }
    }
}

/// The rows that do not belong to the quote `id`, in their order.
pub open spec fn rows_without(rows: Seq<TagPair>, id: Seq<char>) -> Seq<TagPair>
    decreases rows.len(),
{
    if rows.len() == 0 {
        Seq::empty()
    } else {
        let rest = rows_without(rows.drop_last(), id);
        if rows.last().0 == id {
            rest
        } else {
            rest.push(rows.last())
        }
    }
}

/// The quotes whose identifier is not `id`, in their order.
pub open spec fn quotes_without(qs: Seq<QuoteView>, id: Seq<char>) -> Seq<QuoteView>
    decreases qs.len(),
{
    if qs.len() == 0 {
        Seq::empty()
    } else {
        let rest = quotes_without(qs.drop_last(), id);
        if qs.last().id == id {
            rest
        } else {
            rest.push(qs.last())
        }
    }
}

/// The tag rows that attach each of `tags` to the quote `id`.
pub open spec fn tag_pairs(id: Seq<char>, tags: Seq<Seq<char>>) -> Seq<TagPair> {
    tags.map_values(|t: Seq<char>| (id, t))
}

/// Whether the tag `t` is one of `labels` and is not blank: a label that is
/// empty once trimmed selects nothing.
pub open spec fn selects(labels: Seq<Seq<char>>, t: Seq<char>) -> bool {
    labels.contains(t) && trim(t).len() > 0
}

/// Whether no two quotes share an identifier.
pub open spec fn ids_unique(qs: Seq<QuoteView>) -> bool {
    forall|i: int, j: int| 0 <= i < qs.len() && 0 <= j < qs.len() && i != j ==> qs[i].id != qs[j].id
}

/// Whether some quote has the identifier `id`.
pub open spec fn has_id(qs: Seq<QuoteView>, id: Seq<char>) -> bool {
    exists|i: int| 0 <= i < qs.len() && qs[i].id == id
}

/// The content of a store: its quote rows, its tag rows, and the number of tag
/// rows it can hold.
pub ghost struct StoreView {
    pub quotes: Seq<QuoteView>,
    pub tags: Seq<TagPair>,
    pub capacity: nat,
}

impl StoreView {
    /// Identifiers are unique, every tag row refers to a stored quote, and the
    /// tag rows fit the capacity.
    pub open spec fn wf(self) -> bool {
        &&& ids_unique(self.quotes)
        &&& forall|k: int| 0 <= k < self.tags.len() ==> has_id(self.quotes, #[trigger] self.tags[k].0)
        &&& self.tags.len() <= self.capacity
    }

    /// Whether the quote `id` has a tag that is one of `labels` and not blank.
    pub open spec fn matches(self, labels: Seq<Seq<char>>, id: Seq<char>) -> bool {
        exists|k: int|
            0 <= k < self.tags.len() && #[trigger] self.tags[k].0 == id && selects(
                labels,
                self.tags[k].1,
            )
    }

    /// The store after an insert of quote `q` with `tags`, and the result: the
    /// insert is refused when the identifier is taken, undone whole when the tag
    /// rows would exceed the capacity, and otherwise adds the row and one tag
    /// row per tag.
    pub open spec fn add_outcome(self, q: QuoteView, tags: Seq<Seq<char>>) -> (StoreView, Result<(), StoreError>) {
        if has_id(self.quotes, q.id) {
            (self, Err(StoreError::DuplicateId))
        } else if self.tags.len() + tags.len() > self.capacity {
            (self, Err(StoreError::TagInsertFailed))
        } else {
            (
                StoreView {
                    quotes: self.quotes.push(q),
                    tags: self.tags + tag_pairs(q.id, tags),
                    capacity: self.capacity,
                },
                Ok(()),
            )
        }
    }

    /// The store after a delete of `id`, and the result: the tag rows of `id`
    /// and its quote row go, and the result is `NotFound` when there was no
    /// such quote row.
    pub open spec fn delete_outcome(self, id: Seq<char>) -> (StoreView, Result<(), StoreError>) {
        (
            StoreView {
                quotes: quotes_without(self.quotes, id),
                tags: rows_without(self.tags, id),
                capacity: self.capacity,
            },
            if has_id(self.quotes, id) {
                Ok(())
            } else {
                Err(StoreError::NotFound)
            },
        )
    }
}

proof fn lemma_quotes_without(qs: Seq<QuoteView>, id: Seq<char>)
    ensures
        forall|q: QuoteView| #[trigger]
            quotes_without(qs, id).contains(q) <==> (qs.contains(q) && q.id != id),
        ids_unique(qs) ==> ids_unique(quotes_without(qs, id)),
    decreases qs.len(),
{
    if qs.len() > 0 {
        let init = qs.drop_last();
        lemma_quotes_without(init, id);
        let rest = quotes_without(init, id);
        assert forall|q: QuoteView| #[trigger]
            quotes_without(qs, id).contains(q) <==> (qs.contains(q) && q.id != id) by {
            if qs.contains(q) && q.id != id {
                let i = choose|i: int| 0 <= i < qs.len() && qs[i] == q;
                if i < qs.len() - 1 {
                    assert(init[i] == q);
                    assert(init.contains(q));
                    assert(rest.contains(q));
                    let x = choose|x: int| 0 <= x < rest.len() && rest[x] == q;
                    if qs.last().id != id {
                        assert(rest.push(qs.last())[x] == q);
                    }
                } else {
                    assert(quotes_without(qs, id) == rest.push(q));
                    assert(rest.push(q)[rest.len() as int] == q);
                }
            }
            if quotes_without(qs, id).contains(q) {
                let i = choose|i: int|
                    0 <= i < quotes_without(qs, id).len() && quotes_without(qs, id)[i] == q;
                if i < rest.len() {
                    assert(rest[i] == q);
                    assert(rest.contains(q));
                    let x = choose|x: int| 0 <= x < init.len() && init[x] == q;
                    assert(qs[x] == q);
                } else {
                    assert(qs[qs.len() - 1] == q);
                }
            }
        }
        if ids_unique(qs) {
            assert(ids_unique(init));
            if qs.last().id != id {
                let r = quotes_without(qs, id);
                assert forall|i: int, j: int|
                    0 <= i < r.len() && 0 <= j < r.len() && i != j implies r[i].id != r[j].id by {
                    if i < rest.len() && j == rest.len() {
                        assert(rest.contains(rest[i]));
                        let x = choose|x: int| 0 <= x < init.len() && init[x] == rest[i];
                        assert(qs[x] == rest[i]);
                    }
                    if j < rest.len() && i == rest.len() {
                        assert(rest.contains(rest[j]));
                        let x = choose|x: int| 0 <= x < init.len() && init[x] == rest[j];
                        assert(qs[x] == rest[j]);
                    }
                }
            }
        }
    }
}

proof fn lemma_rows_without(rows: Seq<TagPair>, id: Seq<char>)
    ensures
        forall|p: TagPair| #[trigger]
            rows_without(rows, id).contains(p) <==> (rows.contains(p) && p.0 != id),
        rows_without(rows, id).len() <= rows.len(),
        tags_of(rows_without(rows, id), id) == Seq::<Seq<char>>::empty(),
    decreases rows.len(),
{
    if rows.len() > 0 {
        let init = rows.drop_last();
        lemma_rows_without(init, id);
        let rest = rows_without(init, id);
        assert forall|p: TagPair| #[trigger]
            rows_without(rows, id).contains(p) <==> (rows.contains(p) && p.0 != id) by {
            if rows.contains(p) && p.0 != id {
                let i = choose|i: int| 0 <= i < rows.len() && rows[i] == p;
                if i < rows.len() - 1 {
                    assert(init[i] == p);
                    assert(init.contains(p));
                    assert(rest.contains(p));
                    let x = choose|x: int| 0 <= x < rest.len() && rest[x] == p;
                    if rows.last().0 != id {
                        assert(rest.push(rows.last())[x] == p);
                    }
                } else {
                    assert(rest.push(p)[rest.len() as int] == p);
                }
            }
            if rows_without(rows, id).contains(p) {
                let i = choose|i: int|
                    0 <= i < rows_without(rows, id).len() && rows_without(rows, id)[i] == p;
                if i < rest.len() {
                    assert(rest[i] == p);
                    assert(rest.contains(p));
                    let x = choose|x: int| 0 <= x < init.len() && init[x] == p;
                    assert(rows[x] == p);
                } else {
                    assert(rows[rows.len() - 1] == p);
                }
            }
        }
        if rows.last().0 != id {
            assert(rest.push(rows.last()).drop_last() == rest);
        }
    }
}

/// Relies on fastrand::usize: a number drawn from `0..n`, which it returns for
/// every non-empty range (it panics on an empty one).
#[verifier::external_body]
fn random_below(n: usize) -> (r: usize)
    requires
        n > 0,
    ensures
        r < n,
{
    fastrand::usize(..n)
}

/// An insert keeps a well-formed store well formed.
pub proof fn lemma_add_keeps_wf(s: StoreView, q: QuoteView, tags: Seq<Seq<char>>)
    requires
        s.wf(),
    ensures
        s.add_outcome(q, tags).0.wf(),
{
    if !has_id(s.quotes, q.id) && s.tags.len() + tags.len() <= s.capacity {
        let t = s.add_outcome(q, tags).0;
        let n = s.quotes.len();
        assert forall|k: int| 0 <= k < t.tags.len() implies has_id(t.quotes, #[trigger] t.tags[k].0) by {
            if k < s.tags.len() {
                assert(has_id(s.quotes, s.tags[k].0));
                let i = choose|i: int| 0 <= i < s.quotes.len() && s.quotes[i].id == s.tags[k].0;
                assert(t.quotes[i] == s.quotes[i]);
            } else {
                assert(t.tags[k] == (q.id, tags[k - s.tags.len()]));
                assert(t.quotes[n as int] == q);
            }
        }
        assert forall|i: int, j: int|
            0 <= i < t.quotes.len() && 0 <= j < t.quotes.len() && i != j implies t.quotes[i].id
            != t.quotes[j].id by {
            if i == n {
                assert(s.quotes[j].id != q.id);
            }
            if j == n {
                assert(s.quotes[i].id != q.id);
            }
        }
    }
}

/// A delete keeps a well-formed store well formed.
pub proof fn lemma_delete_keeps_wf(s: StoreView, id: Seq<char>)
    requires
        s.wf(),
    ensures
        s.delete_outcome(id).0.wf(),
{
    let t = s.delete_outcome(id).0;
    lemma_quotes_without(s.quotes, id);
    lemma_rows_without(s.tags, id);
    assert forall|k: int| 0 <= k < t.tags.len() implies has_id(t.quotes, #[trigger] t.tags[k].0) by {
        let p = t.tags[k];
        assert(t.tags.contains(p));
        assert(s.tags.contains(p));
        let x = choose|x: int| 0 <= x < s.tags.len() && s.tags[x] == p;
        assert(has_id(s.quotes, s.tags[x].0));
        let i = choose|i: int| 0 <= i < s.quotes.len() && s.quotes[i].id == p.0;
        assert(s.quotes.contains(s.quotes[i]));
        assert(t.quotes.contains(s.quotes[i]));
        let j = choose|j: int| 0 <= j < t.quotes.len() && t.quotes[j] == s.quotes[i];
        assert(t.quotes[j].id == p.0);
    }
}

/// When an insert of a quote with at least one tag fails on a tag row, nothing
/// of it remains: the store is as before and holds no quote with that
/// identifier, so a lookup of the identifier finds nothing.
pub proof fn lemma_failed_insert_leaves_nothing(s: StoreView, q: QuoteView, tags: Seq<Seq<char>>)
    requires
        s.wf(),
        tags.len() > 0,
        s.add_outcome(q, tags).1 == Err::<(), StoreError>(StoreError::TagInsertFailed),
    ensures
        s.add_outcome(q, tags).0 == s,
        !has_id(s.add_outcome(q, tags).0.quotes, q.id),
{
}

/// Inserting a quote whose identifier is already stored is refused with
/// `DuplicateId`, and the stored row with that identifier keeps its fields.
pub proof fn lemma_duplicate_refused(s: StoreView, q: QuoteView, tags: Seq<Seq<char>>)
    requires
        s.wf(),
        has_id(s.quotes, q.id),
    ensures
        s.add_outcome(q, tags).1 == Err::<(), StoreError>(StoreError::DuplicateId),
        s.add_outcome(q, tags).0 == s,
        forall|i: int|
            0 <= i < s.quotes.len() && s.quotes[i].id == q.id ==> s.add_outcome(q, tags).0.quotes[i]
                == s.quotes[i],
{
}

/// After a delete that succeeds, neither the quote row nor any of its tag rows
/// is left, and deleting the same identifier again reports `NotFound`.
pub proof fn lemma_delete_is_complete(s: StoreView, id: Seq<char>)
    requires
        s.wf(),
        s.delete_outcome(id).1 == Ok::<(), StoreError>(()),
    ensures
        !has_id(s.delete_outcome(id).0.quotes, id),
        tags_of(s.delete_outcome(id).0.tags, id) == Seq::<Seq<char>>::empty(),
        s.delete_outcome(id).0.delete_outcome(id).1 == Err::<(), StoreError>(StoreError::NotFound),
{
    let t = s.delete_outcome(id).0;
    lemma_quotes_without(s.quotes, id);
    lemma_rows_without(s.tags, id);
    if has_id(t.quotes, id) {
        let i = choose|i: int| 0 <= i < t.quotes.len() && t.quotes[i].id == id;
        assert(t.quotes.contains(t.quotes[i]));
    }
}

proof fn lemma_rows_without_none(rows: Seq<TagPair>, id: Seq<char>)
    requires
        forall|k: int| 0 <= k < rows.len() ==> (#[trigger] rows[k]).0 != id,
    ensures
        rows_without(rows, id) == rows,
    decreases rows.len(),
{
    if rows.len() > 0 {
        lemma_rows_without_none(rows.drop_last(), id);
        assert(rows.drop_last().push(rows.last()) == rows);
    }
}

proof fn lemma_rows_without_tail(a: Seq<TagPair>, b: Seq<TagPair>, id: Seq<char>)
    requires
        forall|k: int| 0 <= k < b.len() ==> (#[trigger] b[k]).0 == id,
    ensures
        rows_without(a + b, id) == rows_without(a, id),
    decreases b.len(),
{
    if b.len() > 0 {
        assert((a + b).drop_last() == a + b.drop_last());
        assert((a + b).last() == b.last());
        lemma_rows_without_tail(a, b.drop_last(), id);
    } else {
        assert(a + b == a);
    }
}

proof fn lemma_quotes_without_none(qs: Seq<QuoteView>, id: Seq<char>)
    requires
        !has_id(qs, id),
    ensures
        quotes_without(qs, id) == qs,
    decreases qs.len(),
{
    if qs.len() > 0 {
        let init = qs.drop_last();
        assert(!has_id(init, id)) by {
            if has_id(init, id) {
                let i = choose|i: int| 0 <= i < init.len() && init[i].id == id;
                assert(qs[i].id == id);
            }
        }
        lemma_quotes_without_none(init, id);
        assert(qs[qs.len() - 1].id != id);
        assert(init.push(qs.last()) == qs);
    }
}

/// Deleting a quote right after it was inserted successfully gives back the
/// store as it was before the insert, and the delete reports success.
pub proof fn lemma_add_then_delete_restores(s: StoreView, q: QuoteView, tags: Seq<Seq<char>>)
    requires
        s.wf(),
        s.add_outcome(q, tags).1 == Ok::<(), StoreError>(()),
    ensures
        s.add_outcome(q, tags).0.delete_outcome(q.id).0 == s,
        s.add_outcome(q, tags).0.delete_outcome(q.id).1 == Ok::<(), StoreError>(()),
{
    let t = s.add_outcome(q, tags).0;
    let added = tag_pairs(q.id, tags);
    lemma_rows_without_tail(s.tags, added, q.id);
    assert forall|k: int| 0 <= k < s.tags.len() implies (#[trigger] s.tags[k]).0 != q.id by {
        assert(has_id(s.quotes, s.tags[k].0));
    }
    lemma_rows_without_none(s.tags, q.id);
    lemma_quotes_without_none(s.quotes, q.id);
    assert(t.quotes.drop_last() == s.quotes);
    assert(t.quotes[s.quotes.len() as int].id == q.id);
}

/// Tag selection names only stored quotes: in a well-formed store, an
/// identifier that has a tag among `labels` is the identifier of a stored quote.
pub proof fn lemma_match_is_stored(s: StoreView, labels: Seq<Seq<char>>, id: Seq<char>)
    requires
        s.wf(),
        s.matches(labels, id),
    ensures
        has_id(s.quotes, id),
{
    let k = choose|k: int| 0 <= k < s.tags.len() && #[trigger] s.tags[k].0 == id && selects(labels, s.tags[k].1);
    assert(has_id(s.quotes, s.tags[k].0));
}

/// The rows themselves; `QuoteStore` keeps them well formed.
struct Tables {
    quotes: Vec<Quote>,
    tags: Vec<TagRow>,
    tag_capacity: usize,
}

impl View for Tables {
    type V = StoreView;

    closed spec fn view(&self) -> StoreView {
        StoreView {
            quotes: quotes_view(self.quotes@),
            tags: rows_view(self.tags@),
            capacity: self.tag_capacity as nat,
        }
    }
}

impl Tables {
    spec fn wf(&self) -> bool {
        self@.wf()
    }

    /// Empty tables for at most `capacity` tag rows.
    fn empty(capacity: usize) -> (r: Self)
        ensures
            r.wf(),
            r@.quotes.len() == 0,
            r@.tags.len() == 0,
            r@.capacity == capacity,
    {
        Tables { quotes: Vec::new(), tags: Vec::new(), tag_capacity: capacity }
    }

    /// The position of the quote `id`, if it is stored.
    fn find(&self, id: &String) -> (r: Option<usize>)
        ensures
            match r {
                Some(i) => i < self@.quotes.len() && self@.quotes[i as int].id == id@,
                None => !has_id(self@.quotes, id@),
            },
    {
        let mut i: usize = 0;
        while i < self.quotes.len()
            invariant
                i <= self.quotes.len(),
                forall|k: int| 0 <= k < i ==> self@.quotes[k].id != id@,
            decreases self.quotes.len() - i,
        {
            if self.quotes[i].id == *id {
                return Some(i);
            }
            i = i + 1;
        }
        None
    }

    /// The tags of the quote `id`, in the order of the tag rows.
    fn tags_for(&self, id: &String) -> (r: Vec<String>)
        ensures
            strings_view(r@) == tags_of(self@.tags, id@),
    {
        let mut r: Vec<String> = Vec::new();
        let mut k: usize = 0;
        while k < self.tags.len()
            invariant
                k <= self.tags.len(),
                strings_view(r@) == tags_of(self@.tags.subrange(0, k as int), id@),
            decreases self.tags.len() - k,
        {
            let ghost before = r@;
            let ghost pre = self@.tags.subrange(0, k as int);
            assert(self@.tags.subrange(0, k + 1).drop_last() == pre);
            if self.tags[k].quote_id == *id {
                r.push(self.tags[k].tag.clone());
                assert(strings_view(r@) =~= strings_view(before).push(self@.tags[k as int].1));
            }
            k = k + 1;
        }
        assert(self@.tags.subrange(0, self.tags.len() as int) == self@.tags);
        r
    }

    /// Inserts the quote row and then one tag row per tag, as one unit: when
    /// the identifier is taken nothing is written (`DuplicateId`); when a tag
    /// row does not fit, the rows written so far are undone (`TagInsertFailed`).
    fn add_quote(&mut self, quote: Quote, tags: &Vec<String>) -> (r: Result<(), StoreError>)
        requires
            old(self).wf(),
        ensures
            final(self).wf(),
            (final(self)@, r) == old(self)@.add_outcome(quote@, strings_view(tags@)),
    {
        let ghost s0 = self@;
        let ghost raw_q = self.quotes@;
        let ghost raw_t = self.tags@;
        let ghost qv = quote@;
        proof {
            lemma_add_keeps_wf(s0, qv, strings_view(tags@));
        }
        let key = quote.id.clone();
        if self.find(&key).is_some() {
            return Err(StoreError::DuplicateId);
        }
        let start = self.tags.len();
        let ghost qq = quote;
        self.quotes.push(quote);
        let mut i: usize = 0;
        while i < tags.len()
            invariant
                i <= tags.len(),
                key@ == qv.id,
                qq@ == qv,
                s0 == (StoreView {
                    quotes: quotes_view(raw_q),
                    tags: rows_view(raw_t),
                    capacity: s0.capacity,
                }),
                !has_id(s0.quotes, qv.id),
                old(self)@ == s0,
                s0.wf(),
                qv == quote@,
                self.quotes@ == raw_q.push(qq),
                self.tag_capacity == s0.capacity,
                start == raw_t.len(),
                self.tags.len() == start + i,
                start + i <= self.tag_capacity,
                self.tags@.subrange(0, start as int) == raw_t,
                rows_view(self.tags@) == rows_view(raw_t) + tag_pairs(
                    qv.id,
                    strings_view(tags@.subrange(0, i as int)),
                ),
            decreases tags.len() - i,
        {
            if self.tags.len() < self.tag_capacity {
                let ghost before = self.tags@;
                self.tags.push(TagRow { quote_id: key.clone(), tag: tags[i].clone() });
                assert(self.tags@.subrange(0, start as int) =~= before.subrange(0, start as int));
                assert(strings_view(tags@.subrange(0, i + 1)) =~= strings_view(
                    tags@.subrange(0, i as int),
                ).push(tags@[i as int]@));
                assert(rows_view(self.tags@) =~= rows_view(before).push((qv.id, tags@[i as int]@)));
                assert(rows_view(self.tags@) =~= rows_view(raw_t) + tag_pairs(
                    qv.id,
                    strings_view(tags@.subrange(0, i + 1)),
                ));
            } else {
                self.tags.truncate(start);
                self.quotes.pop();
                assert(self.quotes@ =~= raw_q);
                assert(self.tags@ =~= raw_t);
                assert(self@ == s0);
                return Err(StoreError::TagInsertFailed);
            }
            i = i + 1;
        }
        assert(tags@.subrange(0, tags.len() as int) == tags@);
        assert(quotes_view(self.quotes@) =~= quotes_view(raw_q).push(qv));
        Ok(())
    }

    /// Deletes the tag rows of `id` and then its quote row, as one unit; reports
    /// `NotFound` when there was no quote row, after the tag rows are gone.
    fn delete_quote(&mut self, id: &str) -> (r: Result<(), StoreError>)
        requires
            old(self).wf(),
        ensures
            final(self).wf(),
            (final(self)@, r) == old(self)@.delete_outcome(id@),
    {
        let ghost s0 = self@;
        proof {
            lemma_delete_keeps_wf(s0, id@);
        }
        let key = String::from_str(id);
        let mut kept_tags: Vec<TagRow> = Vec::new();
        let mut k: usize = 0;
        while k < self.tags.len()
            invariant
                k <= self.tags.len(),
                key@ == id@,
                s0 == self@,
                rows_view(kept_tags@) == rows_without(s0.tags.subrange(0, k as int), id@),
            decreases self.tags.len() - k,
        {
            assert(s0.tags.subrange(0, k + 1).drop_last() == s0.tags.subrange(0, k as int));
            assert(s0.tags[k as int] == self.tags[k as int]@);
            if !(self.tags[k].quote_id == key) {
                let ghost before = kept_tags@;
                kept_tags.push(self.tags[k].clone_row());
                assert(rows_view(kept_tags@) =~= rows_view(before).push(s0.tags[k as int]));
            }
            k = k + 1;
        }
        let mut kept_quotes: Vec<Quote> = Vec::new();
        let mut found = false;
        let mut j: usize = 0;
        while j < self.quotes.len()
            invariant
                j <= self.quotes.len(),
                key@ == id@,
                s0 == self@,
                quotes_view(kept_quotes@) == quotes_without(s0.quotes.subrange(0, j as int), id@),
                found == has_id(s0.quotes.subrange(0, j as int), id@),
            decreases self.quotes.len() - j,
        {
            let ghost pre = s0.quotes.subrange(0, j as int);
            let ghost post = s0.quotes.subrange(0, j + 1);
            assert(post.drop_last() == pre);
            assert(s0.quotes[j as int] == self.quotes[j as int]@);
            if self.quotes[j].id == key {
                found = true;
                assert(post[j as int].id == id@);
            } else {
                let ghost before = kept_quotes@;
                kept_quotes.push(self.quotes[j].duplicate());
                assert(quotes_view(kept_quotes@) =~= quotes_view(before).push(s0.quotes[j as int]));
                proof {
                    if has_id(post, id@) {
                        let x = choose|x: int| 0 <= x < post.len() && post[x].id == id@;
                        assert(pre[x].id == id@);
                    }
                }
            }
            j = j + 1;
        }
        assert(s0.tags.subrange(0, self.tags.len() as int) == s0.tags);
        assert(s0.quotes.subrange(0, self.quotes.len() as int) == s0.quotes);
        self.tags = kept_tags;
        self.quotes = kept_quotes;
        if found {
            Ok(())
        } else {
            Err(StoreError::NotFound)
        }
    }
}

/// Quote rows and tag rows, with at most a fixed number of tag rows. Every
/// value of this type is well formed: identifiers are unique and every tag row
/// belongs to a stored quote.
pub struct QuoteStore {
    t: Tables,
}

impl View for QuoteStore {
    type V = StoreView;

    closed spec fn view(&self) -> StoreView {
        self.t@
    }
}

impl QuoteStore {
    #[verifier::type_invariant]
    spec fn inv(&self) -> bool {
        self.t@.wf()
    }

    /// An empty store whose tag rows are bounded only by the machine.
    pub fn new() -> (r: Self)
        ensures
            r@.wf(),
            r@.quotes.len() == 0,
            r@.tags.len() == 0,
            r@.capacity == usize::MAX,
    {
        QuoteStore { t: Tables::empty(usize::MAX) }
    }

    /// An empty store that holds at most `capacity` tag rows; a tag row beyond
    /// them fails to insert.
    pub fn with_tag_capacity(capacity: usize) -> (r: Self)
        ensures
            r@.wf(),
            r@.quotes.len() == 0,
            r@.tags.len() == 0,
            r@.capacity == capacity,
    {
        QuoteStore { t: Tables::empty(capacity) }
    }

    /// Inserts the quote row and then one tag row per tag, as one unit: when
    /// the identifier is taken nothing is written (`DuplicateId`); when a tag
    /// row does not fit, the rows written so far are undone (`TagInsertFailed`).
    pub fn add_quote(&mut self, quote: Quote, tags: &Vec<String>) -> (r: Result<(), StoreError>)
        ensures
            final(self)@.wf(),
            (final(self)@, r) == old(self)@.add_outcome(quote@, strings_view(tags@)),
    {
        proof {
            use_type_invariant(&*self);
        }
        let mut t = Tables::empty(0);
        std::mem::swap(&mut t, &mut self.t);
        let r = t.add_quote(quote, tags);
        self.t = t;
        r
    }

    /// Deletes the tag rows of `id` and then its quote row, as one unit; reports
    /// `NotFound` when there was no quote row, after the tag rows are gone.
    pub fn delete_quote(&mut self, id: &str) -> (r: Result<(), StoreError>)
        ensures
            final(self)@.wf(),
            (final(self)@, r) == old(self)@.delete_outcome(id@),
    {
        proof {
            use_type_invariant(&*self);
        }
        let mut t = Tables::empty(0);
        std::mem::swap(&mut t, &mut self.t);
        let r = t.delete_quote(id);
        self.t = t;
        r
    }

    /// The quote `id` with its tags; `NotFound` when no quote has that
    /// identifier.
    pub fn get(&self, id: &str) -> (r: Result<(Quote, Vec<String>), StoreError>)
        ensures
            self@.wf(),
            match r {
                Ok((q, ts)) => {
                    &&& self@.quotes.contains(q@)
                    &&& q@.id == id@
                    &&& strings_view(ts@) == tags_of(self@.tags, id@)
                },
                Err(e) => e == StoreError::NotFound && !has_id(self@.quotes, id@),
            },
    {
        proof {
            use_type_invariant(self);
        }
        let key = String::from_str(id);
        match self.t.find(&key) {
            Some(i) => {
                let q = self.t.quotes[i].duplicate();
                let ts = self.t.tags_for(&key);
                assert(self@.quotes[i as int] == q@);
                Ok((q, ts))
            },
            None => Err(StoreError::NotFound),
        }
    }

    /// Every stored quote with its tags, in the order of the quote rows.
    pub fn list_all(&self) -> (r: Vec<(Quote, Vec<String>)>)
        ensures
            self@.wf(),
            r@.len() == self@.quotes.len(),
            forall|i: int|
                0 <= i < r@.len() ==> {
                    &&& (#[trigger] r@[i]).0@ == self@.quotes[i]
                    &&& strings_view(r@[i].1@) == tags_of(self@.tags, self@.quotes[i].id)
                },
    {
        proof {
            use_type_invariant(self);
        }
        let mut r: Vec<(Quote, Vec<String>)> = Vec::new();
        let mut i: usize = 0;
        while i < self.t.quotes.len()
            invariant
                i <= self.t.quotes.len(),
                r@.len() == i,
                forall|x: int|
                    0 <= x < i ==> {
                        &&& (#[trigger] r@[x]).0@ == self@.quotes[x]
                        &&& strings_view(r@[x].1@) == tags_of(self@.tags, self@.quotes[x].id)
                    },
            decreases self.t.quotes.len() - i,
        {
            let q = self.t.quotes[i].duplicate();
            let ts = self.t.tags_for(&q.id);
            assert(self@.quotes[i as int] == q@);
            r.push((q, ts));
            i = i + 1;
        }
        r
    }

    /// The number of stored quotes.
    pub fn len(&self) -> (r: usize)
        ensures
            r == self@.quotes.len(),
    {
        self.t.quotes.len()
    }

    /// The number of stored tag rows.
    pub fn tag_count(&self) -> (r: usize)
        ensures
            r == self@.tags.len(),
    {
        self.t.tags.len()
    }

    /// The identifier of the quote at position `k`; `NotFound` past the end.
    pub fn quote_id_at(&self, k: usize) -> (r: Result<String, StoreError>)
        ensures
            k < self@.quotes.len() ==> (r matches Ok(id) && id@ == self@.quotes[k as int].id),
            k >= self@.quotes.len() ==> r == Err::<String, StoreError>(StoreError::NotFound),
    {
        if k < self.t.quotes.len() {
            Ok(self.t.quotes[k].id.clone())
        } else {
            Err(StoreError::NotFound)
        }
    }

    /// The identifier of a quote drawn uniformly at random; `NotFound` when the
    /// store is empty.
    pub fn get_random(&self) -> (r: Result<String, StoreError>)
        ensures
            self@.wf(),
            match r {
                Ok(id) => has_id(self@.quotes, id@),
                Err(e) => e == StoreError::NotFound && self@.quotes.len() == 0,
            },
    {
        proof {
            use_type_invariant(self);
        }
        if self.t.quotes.len() == 0 {
            return Err(StoreError::NotFound);
        }
        let k = random_below(self.t.quotes.len());
        self.quote_id_at(k)
    }

    /// The distinct identifiers of the quotes that have at least one tag among
    /// `labels`, in the order of their first matching tag row. Labels that are
    /// empty once trimmed select nothing.
    pub fn matching_ids(&self, labels: &Vec<String>) -> (r: Vec<String>)
        ensures
            strings_view(r@).no_duplicates(),
            forall|id: Seq<char>|
                strings_view(r@).contains(id) <==> self@.matches(strings_view(labels@), id),
    {
        let ghost lv = strings_view(labels@);
        let mut r: Vec<String> = Vec::new();
        let mut k: usize = 0;
        while k < self.t.tags.len()
            invariant
                k <= self.t.tags.len(),
                lv == strings_view(labels@),
                strings_view(r@).no_duplicates(),
                forall|id: Seq<char>|
                    strings_view(r@).contains(id) <==> exists|j: int|
                        0 <= j < k && #[trigger] self@.tags[j].0 == id && selects(lv, self@.tags[j].1),
            decreases self.t.tags.len() - k,
        {
            let row = &self.t.tags[k];
            let ghost before = strings_view(r@);
            assert(self@.tags[k as int] == row@);
            if contains_string(labels, &row.tag) && !is_blank(row.tag.as_str()) && !contains_string(
                &r,
                &row.quote_id,
            ) {
                r.push(row.quote_id.clone());
                assert(strings_view(r@) =~= before.push(row.quote_id@));
                assert forall|id: Seq<char>|
                    strings_view(r@).contains(id) <==> exists|j: int|
                        0 <= j < k + 1 && #[trigger] self@.tags[j].0 == id && selects(lv, self@.tags[j].1) by {
                    if strings_view(r@).contains(id) && id != row.quote_id@ {
                        let x = choose|x: int| 0 <= x < strings_view(r@).len() && strings_view(r@)[x] == id;
                        assert(before[x] == id);
                    }
                    if before.contains(id) {
                        let x = choose|x: int| 0 <= x < before.len() && before[x] == id;
                        assert(strings_view(r@)[x] == id);
                    }
                    if id == row.quote_id@ {
                        assert(strings_view(r@)[before.len() as int] == id);
                        assert(self@.tags[k as int].0 == id && selects(lv, self@.tags[k as int].1));
                    }
                    if exists|j: int|
                        0 <= j < k + 1 && #[trigger] self@.tags[j].0 == id && selects(lv, self@.tags[j].1) {
                        let j = choose|j: int|
                            0 <= j < k + 1 && #[trigger] self@.tags[j].0 == id && selects(lv, self@.tags[j].1);
                        if j < k {
                            assert(before.contains(id));
                        }
                    }
                }
            } else {
                assert forall|id: Seq<char>|
                    strings_view(r@).contains(id) <==> exists|j: int|
                        0 <= j < k + 1 && #[trigger] self@.tags[j].0 == id && selects(lv, self@.tags[j].1) by {
                    if exists|j: int|
                        0 <= j < k + 1 && #[trigger] self@.tags[j].0 == id && selects(lv, self@.tags[j].1) {
                        let j = choose|j: int|
                            0 <= j < k + 1 && #[trigger] self@.tags[j].0 == id && selects(lv, self@.tags[j].1);
                        if j == k {
                            assert(strings_view(r@).contains(id));
                        }
                    }
                }
            }
            k = k + 1;
        }
        r
    }

    /// The identifier of a quote drawn uniformly at random among those with at
    /// least one tag in `labels`; `None` (the `Empty` outcome) when there is no
    /// such quote, and so when every label is empty once trimmed.
    pub fn get_tagged(&self, labels: &Vec<String>) -> (r: Option<String>)
        ensures
            self@.wf(),
            match r {
                Some(id) => self@.matches(strings_view(labels@), id@),
                None => forall|id: Seq<char>| !self@.matches(strings_view(labels@), id),
            },
            (forall|i: int| 0 <= i < labels@.len() ==> trim(#[trigger] labels@[i]@).len() == 0)
                ==> r is None,
    {
        proof {
            use_type_invariant(self);
        }
        let candidates = self.matching_ids(labels);
        if candidates.len() == 0 {
            assert forall|id: Seq<char>| !self@.matches(strings_view(labels@), id) by {
                if self@.matches(strings_view(labels@), id) {
                    assert(strings_view(candidates@).contains(id));
                }
            }
            return None;
        }
        proof {
            if forall|i: int| 0 <= i < labels@.len() ==> trim(#[trigger] labels@[i]@).len() == 0 {
                let id = candidates@[0]@;
                assert(strings_view(candidates@)[0] == id);
                assert(strings_view(candidates@).contains(id));
                assert(self@.matches(strings_view(labels@), id));
                let k = choose|k: int|
                    0 <= k < self@.tags.len() && #[trigger] self@.tags[k].0 == id && selects(
                        strings_view(labels@),
                        self@.tags[k].1,
                    );
                let x = choose|x: int|
                    0 <= x < strings_view(labels@).len() && strings_view(labels@)[x]
                        == self@.tags[k].1;
                assert(trim(labels@[x]@).len() == 0);
            }
        }
        let k = random_below(candidates.len());
        let id = candidates[k].clone();
        assert(strings_view(candidates@)[k as int] == id@);
        assert(strings_view(candidates@).contains(id@));
        Some(id)
    }
}

} // verus!
