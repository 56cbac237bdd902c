use vstd::prelude::*;

use crate::error::Error;
use crate::params::bound_ok;
use crate::params::digits_value;
use crate::params::opt_view;
use crate::params::parse_range;
use crate::question::lemma_seq_view_index;
use crate::question::lemma_seq_view_len;
use crate::question::seq_view;
use crate::question::Question;
use crate::question::QuestionId;
use crate::question::QuestionView;

verus! {

broadcast use lemma_seq_view_len, lemma_seq_view_index;

/// True when some record in `s` holds the identifier `id`.
pub open spec fn contains_id(s: Seq<QuestionView>, id: Seq<char>) -> bool {
    exists|i: int| 0 <= i < s.len() && s[i].id == id
}

/// The index of the record that holds `id`; meaningful only when
/// `contains_id(s, id)` holds, and unique when `unique_ids(s)` holds.
pub open spec fn index_of(s: Seq<QuestionView>, id: Seq<char>) -> int {
    choose|i: int| 0 <= i < s.len() && s[i].id == id
}

/// The record stored under `id`, if any.
pub open spec fn lookup(s: Seq<QuestionView>, id: Seq<char>) -> Option<QuestionView> {
    if contains_id(s, id) {
        Some(s[index_of(s, id)])
    } else {
        None
    }
}

/// No two records share an identifier: the snapshot is a mapping from
/// identifier to record.
pub open spec fn unique_ids(s: Seq<QuestionView>) -> bool {
    forall|i: int, j: int| 0 <= i < j < s.len() ==> s[i].id != s[j].id
}

/// Last-write-wins insertion: replaces the record that holds the same
/// key, or appends the record when its key is new.
pub open spec fn spec_insert(s: Seq<QuestionView>, q: QuestionView) -> Seq<QuestionView> {
    if contains_id(s, q.id) {
        s.update(index_of(s, q.id), q)
    } else {
        s.push(q)
    }
}

/// Removal by key: drops the record that holds `id`, or leaves `s` as it
/// is when no record does.
pub open spec fn spec_delete(s: Seq<QuestionView>, id: Seq<char>) -> Seq<QuestionView> {
    if contains_id(s, id) {
        s.remove(index_of(s, id))
    } else {
        s
    }
}

/// The records of `s`, inserted into `base` from first to last.
pub open spec fn spec_insert_all(
    base: Seq<QuestionView>,
    s: Seq<QuestionView>,
) -> Seq<QuestionView>
    decreases s.len(),
{
    if s.len() == 0 {
        base
    } else {
        spec_insert(spec_insert_all(base, s.drop_last()), s.last())
    }
}

/// What a raw listing request must come to, over the snapshot `s`: the
/// query must carry parameters, both bounds must be decimal numbers
/// within the machine's size, the bounds must be strictly increasing,
/// and the window must fit the record count; the first failure in that
/// order names the error, and otherwise the window is the slice.
pub open spec fn outcome_of_query(
    s: Seq<QuestionView>,
    has_params: bool,
    start: Option<Seq<char>>,
    end: Option<Seq<char>>,
) -> Result<Seq<QuestionView>, Error> {
    if !has_params {
        Err(Error::MissingParameters)
    } else if !bound_ok(start) || !bound_ok(end) {
        Err(Error::InvalidRange)
    } else {
        match (start, end) {
            (Some(st), Some(et)) => {
                let lo = digits_value(st);
                let hi = digits_value(et);
                if lo >= hi {
                    Err(Error::InvalidRange)
                } else if hi > s.len() {
                    Err(Error::NotFound)
                } else {
                    Ok(s.subrange(lo, hi))
                }
            },
            _ => Err(Error::InvalidRange),
        }
    }
}

/// The question repository: owns every stored record, keyed uniquely by
/// identifier. A snapshot of it is a sequence of record values; the order
/// of that sequence is an implementation accident, and no contract
/// promises more of it than "one fixed order at each instant".
pub struct QuestionBase {
    questions: Vec<Question>,
}

impl View for QuestionBase {
    type V = Seq<QuestionView>;

    closed spec fn view(&self) -> Seq<QuestionView> {
        seq_view(self.questions@)
    }
}

impl QuestionBase {
    /// The store's invariant: no two records share an identifier.
    pub open spec fn wf(&self) -> bool {
        unique_ids(self@)
    }

    /// An empty store.
    pub fn new() -> (base: QuestionBase)
        ensures
            base@ == Seq::<QuestionView>::empty(),
            base.wf(),
    {
        let base = QuestionBase { questions: Vec::new() };
        proof {
            assert(base@ =~= Seq::<QuestionView>::empty());
        }
        base
    }

    /// Builds the store from seed records, inserted from first to last,
    /// so a later record silently replaces an earlier one with the same
    /// identifier.
    pub fn init(seed: Vec<Question>) -> (base: QuestionBase)
        ensures
            base.wf(),
            base@ == spec_insert_all(Seq::<QuestionView>::empty(), seq_view(seed@)),
    {
        let mut base = QuestionBase::new();
        let mut i: usize = 0;
        while i < seed.len()
            invariant
                i <= seed.len(),
                base.wf(),
                base@ == spec_insert_all(
                    Seq::<QuestionView>::empty(),
                    seq_view(seed@).subrange(0, i as int),
                ),
            decreases seed.len() - i,
        {
            let q = seed[i].clone();
            proof {
                let prefix = seq_view(seed@).subrange(0, i as int);
                let next = seq_view(seed@).subrange(0, i + 1 as int);
                assert(next.drop_last() =~= prefix);
                assert(next.last() == seed@[i as int]@);
            }
            base.insert(q);
            i = i + 1;
        }
        proof {
            assert(seq_view(seed@).subrange(0, seed@.len() as int) =~= seq_view(seed@));
        }
        base
    }

    /// How many records are stored.
    pub fn len(&self) -> (n: usize)
        ensures
            n == self@.len(),
    {
        self.questions.len()
    }

    /// The position of the record that holds `id`, if any record does.
    fn find_index(&self, id: &QuestionId) -> (found: Option<usize>)
        ensures
            match found {
                Some(i) => i < self@.len() && self@[i as int].id == id@,
                None => !contains_id(self@, id@),
            },
    {
        let mut i: usize = 0;
        while i < self.questions.len()
            invariant
                i <= self.questions.len(),
                forall|j: int| 0 <= j < i ==> self.questions@[j]@.id != id@,
            decreases self.questions.len() - i,
        {
            if self.questions[i].id.same_as(id) {
                return Some(i);
            }
            i = i + 1;
        }
        None
    }

    /// Returns the record stored under `id`, and fails with `NotFound`
    /// exactly when no record holds that identifier.
    pub fn get_by_id(&self, id: &QuestionId) -> (result: Result<Question, Error>)
        requires
            self.wf(),
        ensures
            match result {
                Ok(q) => lookup(self@, id@) == Some(q@),
                Err(e) => lookup(self@, id@) is None && e == Error::NotFound,
            },
    {
        match self.find_index(id) {
            Some(i) => {
                let q = self.questions[i].clone();
                proof {
                    lemma_found_index(self@, i as int, id@);
                }
                Ok(q)
            },
            None => Err(Error::NotFound),
        }
    }

    /// Returns a snapshot of every stored record.
    pub fn list(&self) -> (snapshot: Vec<Question>)
        ensures
            seq_view(snapshot@) == self@,
    {
        let mut snapshot: Vec<Question> = Vec::new();
        let mut i: usize = 0;
        while i < self.questions.len()
            invariant
                i <= self.questions.len(),
                seq_view(snapshot@) =~= self@.subrange(0, i as int),
            decreases self.questions.len() - i,
        {
            let q = self.questions[i].clone();
            let ghost prev = snapshot@;
            snapshot.push(q);
            proof {
                assert(snapshot@ == prev.push(q));
                assert(seq_view(prev).len() == prev.len());
                assert(prev.len() == i);
                assert(self@.len() == self.questions@.len());
                assert(i < self@.len());
                assert(q@ == self@[i as int]);
                assert forall|j: int| 0 <= j < i + 1 implies seq_view(snapshot@)[j] == self@[j] by {
                    assert(seq_view(snapshot@)[j] == snapshot@[j]@);
                    if j < i {
                        assert(snapshot@[j] == prev[j]);
                        assert(seq_view(prev)[j] == prev[j]@);
                        assert(seq_view(prev)[j] == self@.subrange(0, i as int)[j]);
                        assert(self@.subrange(0, i as int)[j] == self@[j]);
                    } else {
                        assert(snapshot@[j] == q);
                    }
                }
                assert(seq_view(snapshot@) =~= self@.subrange(0, i + 1));
            }
            i = i + 1;
        }
        proof {
            assert(self@.subrange(0, self@.len() as int) =~= self@);
        }
        snapshot
    }

    /// Returns the half-open window `[start, end)` of the snapshot.
    /// Fails with `InvalidRange` when the bounds are not strictly
    /// increasing, and with `NotFound` when the window does not fit the
    /// current record count; the slice is returned if and only if
    /// `start < end <= len`.
    pub fn list_range(&self, start: usize, end: usize) -> (result: Result<Vec<Question>, Error>)
        ensures
            match result {
                Ok(v) => start < end <= self@.len() && seq_view(v@) == self@.subrange(
                    start as int,
                    end as int,
                ),
                Err(e) => {
                    &&& (start >= end ==> e == Error::InvalidRange)
                    &&& (start < end ==> end > self@.len() && e == Error::NotFound)
                },
            },
    {
        if start >= end {
            return Err(Error::InvalidRange);
        }
        if start >= self.questions.len() || end > self.questions.len() {
            return Err(Error::NotFound);
        }
        let mut window: Vec<Question> = Vec::new();
        let mut i: usize = start;
        while i < end
            invariant
                start <= i <= end,
                end <= self.questions.len(),
                seq_view(window@) =~= self@.subrange(start as int, i as int),
            decreases end - i,
        {
            let q = self.questions[i].clone();
            let ghost prev = window@;
            window.push(q);
            proof {
                assert(window@ == prev.push(q));
                assert(seq_view(prev).len() == prev.len());
                assert(prev.len() == i - start);
                assert(self@.len() == self.questions@.len());
                assert(q@ == self@[i as int]);
                assert forall|j: int| 0 <= j < i + 1 - start implies seq_view(window@)[j] == self@[j
                    + start] by {
                    assert(seq_view(window@)[j] == window@[j]@);
                    if j < i - start {
                        assert(window@[j] == prev[j]);
                        assert(seq_view(prev)[j] == prev[j]@);
                        assert(seq_view(prev)[j] == self@.subrange(start as int, i as int)[j]);
                        assert(self@.subrange(start as int, i as int)[j] == self@[j + start]);
                    } else {
                        assert(window@[j] == q);
                    }
                }
                assert(seq_view(window@) =~= self@.subrange(start as int, i + 1));
            }
            i = i + 1;
        }
        Ok(window)
    }

    /// Answers a listing request exactly as the raw query arrived at the
    /// boundary: interprets the bounds, then slices the snapshot, and
    /// fails precisely as `outcome_of_query` classifies the request.
    pub fn paginate(&self, has_params: bool, start: Option<&str>, end: Option<&str>) -> (result:
        Result<Vec<Question>, Error>)
        ensures
            ({
                let expected = outcome_of_query(self@, has_params, opt_view(start), opt_view(end));
                match result {
                    Ok(v) => expected matches Ok(w) && seq_view(v@) == w,
                    Err(e) => expected matches Err(d) && e == d,
                }
            }),
    {
        let (start_value, end_value) = match parse_range(has_params, start, end) {
            Ok(bounds) => bounds,
            Err(e) => {
                return Err(e);
            },
        };
        self.list_range(start_value, end_value)
    }

    /// Stores `q` under its identifier, last-write-wins: an existing
    /// record with the same identifier is silently replaced, and a record
    /// with a new identifier is added.
    pub fn insert(&mut self, q: Question)
        requires
            old(self).wf(),
        ensures
            final(self).wf(),
            final(self)@ == spec_insert(old(self)@, q@),
    {
        proof {
            lemma_spec_insert_effect(old(self)@, q@);
        }
        match self.find_index(&q.id) {
            Some(i) => {
                proof {
                    lemma_found_index(self@, i as int, q@.id);
                }
                self.questions[i] = q;
                proof {
                    assert(self@ =~= spec_insert(old(self)@, q@));
                }
            },
            None => {
                self.questions.push(q);
                proof {
                    assert(self@ =~= spec_insert(old(self)@, q@));
                }
            },
        }
    }

    /// Replaces the record stored under `id` with `q`'s title, content
    /// and tags, keeping `id` as the key, and fails with `NotFound`
    /// exactly when no record holds that identifier. A record is never
    /// rekeyed: the stored identifier stays `id` whatever `q.id` holds.
    pub fn update(&mut self, id: &QuestionId, q: Question) -> (result: Result<(), Error>)
        requires
            old(self).wf(),
        ensures
            final(self).wf(),
            match result {
                Ok(_) => contains_id(old(self)@, id@) && final(self)@ == old(self)@.update(
                    index_of(old(self)@, id@),
                    (QuestionView { id: id@, title: q@.title, content: q@.content, tags: q@.tags }),
                ),
                Err(e) => {
                    &&& e == Error::NotFound
                    &&& !contains_id(old(self)@, id@)
                    &&& final(self)@ == old(self)@
                },
            },
    {
        match self.find_index(id) {
            Some(i) => {
                proof {
                    lemma_found_index(self@, i as int, id@);
                }
                let replacement = Question {
                    id: id.clone(),
                    title: q.title,
                    content: q.content,
                    tags: q.tags,
                };
                self.questions[i] = replacement;
                proof {
                    let updated = old(self)@.update(
                        index_of(old(self)@, id@),
                        (QuestionView {
                            id: id@,
                            title: q@.title,
                            content: q@.content,
                            tags: q@.tags,
                        }),
                    );
                    assert(self@ =~= updated);
                    lemma_update_same_id_wf(old(self)@, index_of(old(self)@, id@), updated);
                }
                Ok(())
            },
            None => Err(Error::NotFound),
        }
    }

    /// Removes the record stored under `id`. Returns whether a record
    /// existed and was removed; an absent identifier leaves the store
    /// unchanged.
    pub fn delete(&mut self, id: &QuestionId) -> (removed: bool)
        requires
            old(self).wf(),
        ensures
            final(self).wf(),
            removed == contains_id(old(self)@, id@),
            final(self)@ == spec_delete(old(self)@, id@),
    {
        proof {
            lemma_spec_delete_effect(old(self)@, id@);
        }
        match self.find_index(id) {
            Some(i) => {
                proof {
                    lemma_found_index(self@, i as int, id@);
                }
                self.questions.remove(i);
                proof {
                    assert(self@ =~= spec_delete(old(self)@, id@));
                }
                true
            },
            None => false,
        }
    }
}

impl Default for QuestionBase {
    /// The default store is empty.
    fn default() -> (base: Self)
        ensures
            base@ == Seq::<QuestionView>::empty(),
            base.wf(),
    {
        QuestionBase::new()
    }
}

/// With unique identifiers, any position whose record holds `id` is the
/// one `index_of` picks.
pub proof fn lemma_found_index(s: Seq<QuestionView>, i: int, id: Seq<char>)
    requires
        unique_ids(s),
        0 <= i < s.len(),
        s[i].id == id,
    ensures
        contains_id(s, id),
        index_of(s, id) == i,
        lookup(s, id) == Some(s[i]),
{
    assert(contains_id(s, id));
    let j = index_of(s, id);
    assert(0 <= j < s.len() && s[j].id == id);
    if i != j {
        assert(s[i].id != s[j].id);
    }
}

/// What one insertion does to the snapshot: the inserted record is
/// present under its key, every other key is untouched, the length grows
/// exactly when the key was new, and uniqueness of identifiers is kept.
pub proof fn lemma_spec_insert_effect(s: Seq<QuestionView>, q: QuestionView)
    requires
        unique_ids(s),
    ensures
        unique_ids(spec_insert(s, q)),
        lookup(spec_insert(s, q), q.id) == Some(q),
        forall|other: Seq<char>|
            other != q.id ==> #[trigger] lookup(spec_insert(s, q), other) == lookup(s, other),
        contains_id(s, q.id) ==> spec_insert(s, q).len() == s.len(),
        !contains_id(s, q.id) ==> spec_insert(s, q).len() == s.len() + 1,
{
    let t = spec_insert(s, q);
    if contains_id(s, q.id) {
        let i = index_of(s, q.id);
        assert(0 <= i < s.len() && s[i].id == q.id);
        assert(t == s.update(i, q));
        assert forall|a: int, b: int| 0 <= a < b < t.len() implies t[a].id != t[b].id by {
            assert(s[a].id != s[b].id);
        }
        lemma_found_index(t, i, q.id);
        assert forall|other: Seq<char>| other != q.id implies #[trigger] lookup(t, other)
            == lookup(s, other) by {
            lemma_lookup_after_update(s, i, q, other);
        }
    } else {
        assert(t == s.push(q));
        assert forall|a: int, b: int| 0 <= a < b < t.len() implies t[a].id != t[b].id by {
            if b < s.len() {
                assert(s[a].id != s[b].id);
            } else {
                assert(t[b] == q);
                if t[a].id == q.id {
                    assert(contains_id(s, q.id));
                }
            }
        }
        lemma_found_index(t, s.len() as int, q.id);
        assert forall|other: Seq<char>| other != q.id implies #[trigger] lookup(t, other)
            == lookup(s, other) by {
            lemma_lookup_after_push(s, q, other);
        }
    }
}

/// Updating position `i` with a record of the same identifier keeps
/// identifiers unique.
proof fn lemma_update_same_id_wf(s: Seq<QuestionView>, i: int, t: Seq<QuestionView>)
    requires
        unique_ids(s),
        0 <= i < s.len(),
        t.len() == s.len(),
        t == s.update(i, t[i]),
        t[i].id == s[i].id,
    ensures
        unique_ids(t),
{
    assert forall|a: int, b: int| 0 <= a < b < t.len() implies t[a].id != t[b].id by {
        assert(s[a].id != s[b].id);
        assert(t[a].id == s[a].id && t[b].id == s[b].id);
    }
}

/// Replacing the record at `i` leaves every other key's lookup unchanged.
proof fn lemma_lookup_after_update(s: Seq<QuestionView>, i: int, q: QuestionView, other: Seq<char>)
    requires
        unique_ids(s),
        0 <= i < s.len(),
        s[i].id == q.id,
        other != q.id,
    ensures
        lookup(s.update(i, q), other) == lookup(s, other),
{
    let t = s.update(i, q);
    if contains_id(s, other) {
        let j = index_of(s, other);
        assert(0 <= j < s.len() && s[j].id == other);
        assert(j != i);
        assert(t[j].id == other);
        assert forall|a: int, b: int| 0 <= a < b < t.len() implies t[a].id != t[b].id by {
            assert(s[a].id != s[b].id);
        }
        lemma_found_index(t, j, other);
    } else {
        if contains_id(t, other) {
            let j = index_of(t, other);
            assert(0 <= j < t.len() && t[j].id == other);
            assert(j != i);
            assert(s[j].id == other);
        }
    }
}

/// Appending a record with a fresh key leaves every other key's lookup
/// unchanged.
proof fn lemma_lookup_after_push(s: Seq<QuestionView>, q: QuestionView, other: Seq<char>)
    requires
        unique_ids(s),
        !contains_id(s, q.id),
        other != q.id,
    ensures
        lookup(s.push(q), other) == lookup(s, other),
{
    let t = s.push(q);
    assert forall|a: int, b: int| 0 <= a < b < t.len() implies t[a].id != t[b].id by {
        if b < s.len() {
            assert(s[a].id != s[b].id);
        } else {
            assert(t[b] == q);
            if t[a].id == q.id {
                assert(contains_id(s, q.id));
            }
        }
    }
    if contains_id(s, other) {
        let j = index_of(s, other);
        assert(0 <= j < s.len() && s[j].id == other);
        assert(t[j].id == other);
        lemma_found_index(t, j, other);
    } else {
        if contains_id(t, other) {
            let j = index_of(t, other);
            assert(0 <= j < t.len() && t[j].id == other);
            if j < s.len() {
                assert(s[j].id == other);
            } else {
                assert(t[j] == q);
            }
        }
    }
}

/// What one removal does to the snapshot: the removed key is gone, every
/// other key is untouched, the length shrinks exactly when the key was
/// present, and uniqueness of identifiers is kept.
pub proof fn lemma_spec_delete_effect(s: Seq<QuestionView>, id: Seq<char>)
    requires
        unique_ids(s),
    ensures
        unique_ids(spec_delete(s, id)),
        lookup(spec_delete(s, id), id) is None,
        forall|other: Seq<char>|
            other != id ==> #[trigger] lookup(spec_delete(s, id), other) == lookup(s, other),
        contains_id(s, id) ==> spec_delete(s, id).len() == s.len() - 1,
        !contains_id(s, id) ==> spec_delete(s, id) == s,
{
    if contains_id(s, id) {
        let i = index_of(s, id);
        assert(0 <= i < s.len() && s[i].id == id);
        let t = s.remove(i);
        assert(t.len() == s.len() - 1);
        assert forall|a: int, b: int| 0 <= a < b < t.len() implies t[a].id != t[b].id by {
            let a0 = if a < i { a } else { a + 1 };
            let b0 = if b < i { b } else { b + 1 };
            assert(t[a] == s[a0] && t[b] == s[b0]);
            assert(s[a0].id != s[b0].id);
        }
        if contains_id(t, id) {
            let j = index_of(t, id);
            assert(0 <= j < t.len() && t[j].id == id);
            let j0 = if j < i { j } else { j + 1 };
            assert(s[j0].id == id);
            if j0 < i {
                assert(s[j0].id != s[i].id);
            } else {
                assert(s[i].id != s[j0].id);
            }
        }
        assert forall|other: Seq<char>| other != id implies #[trigger] lookup(t, other) == lookup(
            s,
            other,
        ) by {
            lemma_lookup_after_remove(s, i, other);
        }
    }
}

/// Last write wins: after two insertions under one identifier, the store
/// holds the second record.
pub proof fn lemma_insert_last_write_wins(
    s: Seq<QuestionView>,
    q1: QuestionView,
    q2: QuestionView,
)
    requires
        unique_ids(s),
        q1.id == q2.id,
    ensures
        lookup(spec_insert(spec_insert(s, q1), q2), q2.id) == Some(q2),
{
    lemma_spec_insert_effect(s, q1);
    lemma_spec_insert_effect(spec_insert(s, q1), q2);
}

/// No lost updates: inserting records with pairwise distinct fresh
/// identifiers, in any order they may have been serialized in, leaves
/// every one of them present, grows the store by their number, and
/// touches no other key.
pub proof fn lemma_insert_all_distinct(base: Seq<QuestionView>, qs: Seq<QuestionView>)
    requires
        unique_ids(base),
        unique_ids(qs),
        forall|i: int| 0 <= i < qs.len() ==> !contains_id(base, #[trigger] qs[i].id),
    ensures
        unique_ids(spec_insert_all(base, qs)),
        spec_insert_all(base, qs).len() == base.len() + qs.len(),
        forall|i: int|
            0 <= i < qs.len() ==> lookup(spec_insert_all(base, qs), #[trigger] qs[i].id) == Some(
                qs[i],
            ),
        forall|other: Seq<char>|
            !contains_id(qs, other) ==> #[trigger] lookup(spec_insert_all(base, qs), other)
                == lookup(base, other),
    decreases qs.len(),
{
    if qs.len() > 0 {
        let prefix = qs.drop_last();
        let last = qs.last();
        assert forall|a: int, b: int| 0 <= a < b < prefix.len() implies prefix[a].id
            != prefix[b].id by {
            assert(qs[a].id != qs[b].id);
        }
        assert forall|i: int| 0 <= i < prefix.len() implies !contains_id(
            base,
            #[trigger] prefix[i].id,
        ) by {
            assert(prefix[i] == qs[i]);
        }
        lemma_insert_all_distinct(base, prefix);
        let mid = spec_insert_all(base, prefix);
        assert(spec_insert_all(base, qs) == spec_insert(mid, last));
        assert(!contains_id(prefix, last.id)) by {
            if contains_id(prefix, last.id) {
                let i = index_of(prefix, last.id);
                assert(qs[i].id == qs[qs.len() - 1].id);
            }
        }
        assert(!contains_id(base, last.id)) by {
            assert(qs[qs.len() - 1].id == last.id);
        }
        assert(lookup(mid, last.id) == lookup(base, last.id));
        assert(!contains_id(mid, last.id));
        lemma_spec_insert_effect(mid, last);
        let whole = spec_insert(mid, last);
        assert forall|i: int| 0 <= i < qs.len() implies lookup(whole, #[trigger] qs[i].id) == Some(
            qs[i],
        ) by {
            if i < qs.len() - 1 {
                assert(qs[i].id != last.id);
                assert(prefix[i] == qs[i]);
                assert(lookup(mid, qs[i].id) == Some(qs[i]));
            }
        }
        assert forall|other: Seq<char>| !contains_id(qs, other) implies #[trigger] lookup(
            whole,
            other,
        ) == lookup(base, other) by {
            assert(!contains_id(prefix, other)) by {
                if contains_id(prefix, other) {
                    let i = index_of(prefix, other);
                    assert(qs[i].id == other);
                }
            }
            assert(other != last.id) by {
                assert(qs[qs.len() - 1].id == last.id);
            }
        }
    }
}

/// Seeding an empty store with records of pairwise distinct identifiers
/// stores exactly those records, in order.
pub proof fn lemma_init_distinct(qs: Seq<QuestionView>)
    requires
        unique_ids(qs),
    ensures
        spec_insert_all(Seq::<QuestionView>::empty(), qs) == qs,
    decreases qs.len(),
{
    if qs.len() == 0 {
        assert(spec_insert_all(Seq::<QuestionView>::empty(), qs) =~= qs);
    } else {
        let prefix = qs.drop_last();
        let last = qs.last();
        assert forall|a: int, b: int| 0 <= a < b < prefix.len() implies prefix[a].id
            != prefix[b].id by {
            assert(qs[a].id != qs[b].id);
        }
        lemma_init_distinct(prefix);
        assert(!contains_id(prefix, last.id)) by {
            if contains_id(prefix, last.id) {
                let i = index_of(prefix, last.id);
                assert(qs[i].id == qs[qs.len() - 1].id);
            }
        }
        assert(spec_insert_all(Seq::<QuestionView>::empty(), qs) == prefix.push(last));
        assert(prefix.push(last) =~= qs);
    }
}

/// Removing the record at `i` leaves every other key's lookup unchanged.
proof fn lemma_lookup_after_remove(s: Seq<QuestionView>, i: int, other: Seq<char>)
    requires
        unique_ids(s),
        0 <= i < s.len(),
        other != s[i].id,
    ensures
        lookup(s.remove(i), other) == lookup(s, other),
{
    let t = s.remove(i);
    assert forall|a: int, b: int| 0 <= a < b < t.len() implies t[a].id != t[b].id by {
        let a0 = if a < i { a } else { a + 1 };
        let b0 = if b < i { b } else { b + 1 };
        assert(t[a] == s[a0] && t[b] == s[b0]);
        assert(s[a0].id != s[b0].id);
    }
    if contains_id(s, other) {
        let j = index_of(s, other);
        assert(0 <= j < s.len() && s[j].id == other);
        assert(j != i);
        let j1 = if j < i { j } else { j - 1 };
        assert(t[j1] == s[j]);
        lemma_found_index(t, j1, other);
    } else {
        if contains_id(t, other) {
            let j = index_of(t, other);
            assert(0 <= j < t.len() && t[j].id == other);
            let j0 = if j < i { j } else { j + 1 };
            assert(s[j0].id == other);
        }
    }
}

} // verus!
