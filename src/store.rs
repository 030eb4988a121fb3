//! The content-addressed store of records.

use vstd::prelude::*;
use crate::analyzer::{analyze_string, properties_of};
use crate::filter::{filter_valid, matches_filter, record_matches, FilterQuery, FilterView};
use crate::record::{current_time, RecordView, StringData, Timestamp};
use crate::text::content_id;
use crate::translate::{parse_natural_language_query, translation};

verus! {

/// Why a store operation failed.
#[derive(Clone, Copy, PartialEq, Eq, Debug)]
pub enum StoreError {
    /// A record with the same content address is already stored.
    Conflict,
    /// No record has the content address asked for.
    NotFound,
    /// A filter's character constraint is not exactly one character.
    InvalidArgument,
    /// A phrase query came without a phrase.
    BadRequest,
}

/// Whether some record has the given id.
pub open spec fn has_id(rs: Seq<RecordView>, id: Seq<char>) -> bool {
    exists|i: int| 0 <= i < rs.len() && #[trigger] rs[i].id == id
}

/// The record with the given id, if there is one.
pub open spec fn lookup(rs: Seq<RecordView>, id: Seq<char>) -> Option<RecordView> {
    if has_id(rs, id) {
        Some(rs[choose|i: int| 0 <= i < rs.len() && #[trigger] rs[i].id == id])
    } else {
        None
    }
}

/// Exactly one record has the given id.
pub open spec fn has_one(rs: Seq<RecordView>, id: Seq<char>) -> bool {
    exists|i: int|
        0 <= i < rs.len() && #[trigger] rs[i].id == id && forall|j: int|
            0 <= j < rs.len() && #[trigger] rs[j].id == id ==> j == i
}

/// The records a store may hold: ids are unique, and each record's id and
/// properties are those of its text.
pub open spec fn records_valid(rs: Seq<RecordView>) -> bool {
    &&& forall|i: int, j: int| 0 <= i < j < rs.len() ==> #[trigger] rs[i].id != #[trigger] rs[j].id
    &&& forall|i: int|
        0 <= i < rs.len() ==> (#[trigger] rs[i]).id == content_id(rs[i].value) && properties_of(
            rs[i].value,
            rs[i].properties,
        )
}

/// The record that a create of `value` at `created_at` stores.
pub open spec fn new_record(value: Seq<char>, created_at: Timestamp, r: RecordView) -> bool {
    &&& r.id == content_id(value)
    &&& r.value == value
    &&& r.created_at == created_at
    &&& properties_of(value, r.properties)
}

/// The mathematical values of a sequence of records.
pub open spec fn views_of(v: Seq<StringData>) -> Seq<RecordView> {
    v.map_values(|d: StringData| d@)
}

/// The stored records that meet a filter, in store order.
pub open spec fn selected(rs: Seq<RecordView>, q: FilterView) -> Seq<RecordView> {
    rs.filter(|r: RecordView| record_matches(r, q))
}

/// The records a listing found, their number and the filter it applied.
pub struct StringsResponse {
    pub data: Vec<StringData>,
    pub count: usize,
    pub filters_applied: FilterQuery,
}

/// How a phrase query was read.
pub struct InterpretedQuery {
    pub original: String,
    pub parsed_filters: FilterQuery,
}

/// The records a phrase query found, their number and how the phrase was
/// read.
pub struct NaturalLanguageResponse {
    pub data: Vec<StringData>,
    pub count: usize,
    pub interpreted_query: InterpretedQuery,
}

/// A store of records keyed by the content address of their text.
pub struct StringStore {
    records: Vec<StringData>,
}

impl View for StringStore {
    type V = Seq<RecordView>;

    closed spec fn view(&self) -> Seq<RecordView> {
        self.records@.map_values(|r: StringData| r@)
    }
}

impl StringStore {
    /// Whether the store's records meet their invariant.
    pub open spec fn wf(&self) -> bool {
        records_valid(self@)
    }

    /// An empty store.
    pub fn new() -> (r: StringStore)
        ensures
            r.wf(),
            r@ == Seq::<RecordView>::empty(),
    {
        let r = StringStore { records: Vec::new() };
        assert(r@ =~= Seq::<RecordView>::empty());
        r
    }

    /// Number of stored records.
    pub fn len(&self) -> (r: usize)
        ensures
            r == self@.len(),
    {
        self.records.len()
    }

    /// Position of the record with the given id, if any.
    fn position(&self, id: &String) -> (r: Option<usize>)
        ensures
            match r {
                Some(i) => i < self@.len() && self@[i as int].id == id@,
                None => !has_id(self@, id@),
            },
    {
        let mut i: usize = 0;
        while i < self.records.len()
            invariant
                i <= self@.len(),
                self@.len() == self.records@.len(),
                forall|j: int| 0 <= j < i ==> (#[trigger] self@[j]).id != id@,
            decreases self@.len() - i,
        {
            if self.records[i].id == *id {
                return Some(i);
            }
            i = i + 1;
        }
        None
    }

    /// Stores a new record for `value`, created at `created_at`, unless
    /// one with the same content address is already stored.
    pub fn create_string_at(&mut self, value: String, created_at: Timestamp) -> (r: Result<
        StringData,
        StoreError,
    >)
        requires
            old(self).wf(),
        ensures
            final(self).wf(),
            has_id(final(self)@, content_id(value@)),
            has_id(old(self)@, content_id(value@)) ==> r == Err::<StringData, StoreError>(
                StoreError::Conflict,
            ) && final(self)@ == old(self)@,
            !has_id(old(self)@, content_id(value@)) ==> r is Ok && new_record(
                value@,
                created_at,
                r->Ok_0@,
            ) && final(self)@ == old(self)@.push(r->Ok_0@),
    {
        let properties = analyze_string(value.as_str());
        let id = properties.sha256_hash.clone();
        if let Some(_) = self.position(&id) {
            return Err(StoreError::Conflict);
        }
        let data = StringData { id, value, properties, created_at };
        let out = data.duplicate();
        let ghost before = self@;
        self.records.push(data);
        assert(self@ =~= before.push(out@));
        assert(self@[self@.len() - 1].id == out@.id);
        Ok(out)
    }

    /// Stores a new record for `value`, stamped with the current time,
    /// unless one with the same content address is already stored.
    pub fn create_string(&mut self, value: String) -> (r: Result<StringData, StoreError>)
        requires
            old(self).wf(),
        ensures
            final(self).wf(),
            has_id(final(self)@, content_id(value@)),
            has_id(old(self)@, content_id(value@)) ==> r == Err::<StringData, StoreError>(
                StoreError::Conflict,
            ) && final(self)@ == old(self)@,
            !has_id(old(self)@, content_id(value@)) ==> r is Ok && new_record(
                value@,
                r->Ok_0@.created_at,
                r->Ok_0@,
            ) && final(self)@ == old(self)@.push(r->Ok_0@),
    {
        let now = current_time();
        self.create_string_at(value, now)
    }

    /// The record whose text is `value`.
    pub fn get_string(&self, value: &str) -> (r: Result<StringData, StoreError>)
        requires
            self.wf(),
        ensures
            has_id(self@, content_id(value@)) <==> r is Ok,
            !has_id(self@, content_id(value@)) ==> r == Err::<StringData, StoreError>(
                StoreError::NotFound,
            ),
            r matches Ok(d) ==> lookup(self@, content_id(value@)) == Some(d@),
    {
        let properties = analyze_string(value);
        match self.position(&properties.sha256_hash) {
            Some(i) => {
                let d = self.records[i].duplicate();
                assert(self@[i as int] == d@);
                proof {
                    let k = choose|k: int| 0 <= k < self@.len() && #[trigger] self@[k].id == content_id(value@);
                    assert(k == i);
                }
                Ok(d)
            },
            None => Err(StoreError::NotFound),
        }
    }

    /// Removes the record whose text is `value`.
    pub fn delete_string(&mut self, value: &str) -> (r: Result<(), StoreError>)
        requires
            old(self).wf(),
        ensures
            final(self).wf(),
            has_id(old(self)@, content_id(value@)) <==> r is Ok,
            !has_id(old(self)@, content_id(value@)) ==> r == Err::<(), StoreError>(
                StoreError::NotFound,
            ) && final(self)@ == old(self)@,
            r is Ok ==> exists|i: int|
                0 <= i < old(self)@.len() && old(self)@[i].id == content_id(value@)
                    && final(self)@ == old(self)@.remove(i),
    {
        let properties = analyze_string(value);
        match self.position(&properties.sha256_hash) {
            Some(i) => {
                let ghost before = self@;
                self.records.remove(i);
                assert(self@ =~= before.remove(i as int));
                Ok(())
            },
            None => Err(StoreError::NotFound),
        }
    }

    /// The stored records that meet a filter, in store order.
    pub fn select(&self, q: &FilterQuery) -> (r: Vec<StringData>)
        ensures
            views_of(r@) == selected(self@, q@),
    {
        let mut out: Vec<StringData> = Vec::new();
        let mut i: usize = 0;
        while i < self.records.len()
            invariant
                i <= self@.len(),
                self@.len() == self.records@.len(),
                views_of(out@) == selected(self@.take(i as int), q@),
            decreases self@.len() - i,
        {
            let ghost before = views_of(out@);
            assert(self@.take(i + 1).drop_last() =~= self@.take(i as int));
            assert(self@.take(i + 1).last() == self@[i as int]);
            reveal(Seq::filter);
            if matches_filter(&self.records[i], q) {
                out.push(self.records[i].duplicate());
                assert(views_of(out@) =~= before.push(self@[i as int]));
            }
            i = i + 1;
        }
        assert(self@.take(self@.len() as int) =~= self@);
        out
    }

    /// Lists the stored records that meet a filter. A filter whose
    /// character constraint is not exactly one character is refused,
    /// whatever the store holds.
    pub fn get_all_strings(&self, query: FilterQuery) -> (r: Result<StringsResponse, StoreError>)
        ensures
            !filter_valid(query@) <==> r is Err,
            r is Err ==> r == Err::<StringsResponse, StoreError>(StoreError::InvalidArgument),
            r matches Ok(resp) ==> views_of(resp.data@) == selected(self@, query@)
                && resp.count == resp.data@.len() && resp.filters_applied@ == query@,
    {
        if !query.is_valid() {
            return Err(StoreError::InvalidArgument);
        }
        let data = self.select(&query);
        let count = data.len();
        Ok(StringsResponse { data, count, filters_applied: query })
    }

    /// Lists the stored records that meet the filter a phrase translates
    /// to. A query without a phrase is refused.
    pub fn filter_by_natural_language(&self, query: Option<String>) -> (r: Result<
        NaturalLanguageResponse,
        StoreError,
    >)
        ensures
            query is None <==> r == Err::<NaturalLanguageResponse, StoreError>(
                StoreError::BadRequest,
            ),
            query matches Some(q) ==> r matches Ok(resp) && resp.interpreted_query.original@ == q@
                && resp.interpreted_query.parsed_filters@ == translation(q@) && views_of(
                resp.data@,
            ) == selected(self@, translation(q@)) && resp.count == resp.data@.len(),
    {
        let original = match query {
            Some(q) => q,
            None => {
                return Err(StoreError::BadRequest);
            },
        };
        let parsed = match parse_natural_language_query(original.as_str()) {
            Ok(f) => f,
            Err(_) => {
                return Err(StoreError::BadRequest);
            },
        };
        let data = self.select(&parsed);
        let count = data.len();
        Ok(
            NaturalLanguageResponse {
                data,
                count,
                interpreted_query: InterpretedQuery { original, parsed_filters: parsed },
            },
        )
    }
}

/// Round trip: after a text is created in a store that did not hold it,
/// looking the text up finds the created record, whose value is the text
/// and whose id is its content address.
pub proof fn lemma_create_then_get(
    before: Seq<RecordView>,
    value: Seq<char>,
    created_at: Timestamp,
    created: RecordView,
)
    requires
        records_valid(before),
        !has_id(before, content_id(value)),
        new_record(value, created_at, created),
    ensures
        lookup(before.push(created), content_id(value)) == Some(created),
        created.value == value,
        created.id == content_id(value),
{
    let after = before.push(created);
    let id = content_id(value);
    assert(after[before.len() as int].id == id);
    let k = choose|k: int| 0 <= k < after.len() && #[trigger] after[k].id == id;
    if k < before.len() {
        assert(before[k].id == id);
    }
}

/// A valid store holds at most one record per id, so once a text has been
/// created (and a second create of it has conflicted), the store holds
/// exactly one record for it.
pub proof fn lemma_one_record_per_text(rs: Seq<RecordView>, value: Seq<char>)
    requires
        records_valid(rs),
        has_id(rs, content_id(value)),
    ensures
        has_one(rs, content_id(value)),
{
    let id = content_id(value);
    let i = choose|i: int| 0 <= i < rs.len() && #[trigger] rs[i].id == id;
    assert forall|j: int| 0 <= j < rs.len() && #[trigger] rs[j].id == id implies j == i by {
        if j < i {
            assert(rs[j].id != rs[i].id);
        } else if i < j {
            assert(rs[i].id != rs[j].id);
        }
    }
}

/// Once the record of a text has been deleted, the store holds none for
/// it, so a second delete of the text finds nothing.
pub proof fn lemma_delete_removes(rs: Seq<RecordView>, i: int, value: Seq<char>)
    requires
        records_valid(rs),
        0 <= i < rs.len(),
        rs[i].id == content_id(value),
    ensures
        !has_id(rs.remove(i), content_id(value)),
        records_valid(rs.remove(i)),
{
    let after = rs.remove(i);
    let id = content_id(value);
    if has_id(after, id) {
        let j = choose|j: int| 0 <= j < after.len() && #[trigger] after[j].id == id;
        if j < i {
            assert(rs[j].id != rs[i].id);
        } else {
            assert(after[j] == rs[j + 1]);
            assert(rs[i].id != rs[j + 1].id);
        }
    }
}

} // verus!
