//! The entry store: durable CRUD over individual time entries, keyed by
//! entry id, holding the per-entry invariants and the uniqueness of ids.

use crate::entry::EntryView;
use crate::entry::TimeEntry;
use crate::tags::lemma_normalize_canonical;
use crate::tags::normalize;
use crate::tags::normalize_spec;
use crate::time::Timestamp;
use crate::time::ts_le;
use vstd::prelude::*;

verus! {

/// A persistence failure: the id is unknown, or the write would break a
/// stored invariant.
#[derive(Clone, Copy, PartialEq, Eq, Structural, Debug)]
pub enum StoreError {
    NotFound,
    Constraint,
}

/// The views of a sequence of entries.
pub open spec fn entry_views(s: Seq<TimeEntry>) -> Seq<EntryView> {
    s.map_values(|e: TimeEntry| e@)
}

/// Some entry of `s` carries `id`.
pub open spec fn contains_id(s: Seq<EntryView>, id: u64) -> bool {
    exists|i: int| 0 <= i < s.len() && s[i].id == id
}

/// The first entry of `s` carrying `id`, if any.
pub open spec fn lookup(s: Seq<EntryView>, id: u64) -> Option<EntryView>
    decreases s.len(),
{
    if s.len() == 0 {
        None
    } else if s[0].id == id {
        Some(s[0])
    } else {
        lookup(s.drop_first(), id)
    }
}

/// The entries of `s` carrying the requested ids, in request order,
/// requests for absent ids skipped.
pub open spec fn get_ids_spec(s: Seq<EntryView>, ids: Seq<u64>) -> Seq<EntryView>
    decreases ids.len(),
{
    if ids.len() == 0 {
        Seq::empty()
    } else {
        let rest = get_ids_spec(s, ids.drop_last());
        match lookup(s, ids.last()) {
            Some(e) => rest.push(e),
            None => rest,
        }
    }
}

/// What every store state satisfies: each entry meets the entry
/// invariant, and no two entries share an id.
pub open spec fn abs_inv(s: Seq<EntryView>) -> bool {
    &&& forall|i: int| 0 <= i < s.len() ==> #[trigger] s[i].inv()
    &&& forall|i: int, j: int| 0 <= i < j < s.len() ==> s[i].id != s[j].id
}

pub proof fn lemma_lookup_skip(s: Seq<EntryView>, id: u64, k: int)
    requires
        0 <= k <= s.len(),
        forall|j: int| 0 <= j < k ==> s[j].id != id,
    ensures
        lookup(s, id) == lookup(s.skip(k), id),
    decreases k,
{
    if k > 0 {
        assert(s[0].id != id);
        assert(s.drop_first() =~= s.skip(1));
        lemma_lookup_skip(s.skip(1), id, k - 1);
        assert(s.skip(1).skip(k - 1) =~= s.skip(k));
    } else {
        assert(s.skip(0) =~= s);
    }
}

pub proof fn lemma_lookup_props(s: Seq<EntryView>, id: u64)
    ensures
        match lookup(s, id) {
            Some(e) => contains_id(s, id) && e.id == id && exists|i: int|
                0 <= i < s.len() && s[i] == e,
            None => !contains_id(s, id),
        },
    decreases s.len(),
{
    if s.len() > 0 {
        if s[0].id != id {
            lemma_lookup_props(s.drop_first(), id);
            match lookup(s.drop_first(), id) {
                Some(e) => {
                    let i = choose|i: int|
                        0 <= i < s.drop_first().len() && s.drop_first()[i] == e;
                    assert(s[i + 1] == e);
                },
                None => {
                    assert forall|i: int| 0 <= i < s.len() implies s[i].id != id by {
                        if i > 0 {
                            assert(s.drop_first()[i - 1] == s[i]);
                        }
                    }
                },
            }
        }
    }
}

/// Lookup after adding a fresh entry finds that entry.
pub proof fn lemma_lookup_push_fresh(s: Seq<EntryView>, e: EntryView)
    requires
        !contains_id(s, e.id),
    ensures
        lookup(s.push(e), e.id) == Some(e),
    decreases s.len(),
{
    if s.len() == 0 {
        assert(s.push(e)[0] == e);
    } else {
        assert(s.push(e)[0] == s[0]);
        assert(s[0].id != e.id);
        assert(!contains_id(s.drop_first(), e.id)) by {
            if contains_id(s.drop_first(), e.id) {
                let i = choose|i: int|
                    0 <= i < s.drop_first().len() && s.drop_first()[i].id == e.id;
                assert(s[i + 1].id == e.id);
            }
        }
        lemma_lookup_push_fresh(s.drop_first(), e);
        assert(s.push(e).drop_first() =~= s.drop_first().push(e));
    }
}

/// The entry store: an in-memory table of entries with unique ids and a
/// monotone id counter.
pub struct EntryStore {
    entries: Vec<TimeEntry>,
    next_id: u64,
}

impl View for EntryStore {
    type V = Seq<EntryView>;

    closed spec fn view(&self) -> Seq<EntryView> {
        entry_views(self.entries@)
    }
}

impl EntryStore {
    /// How many entries have ever been created: the id the next creation
    /// receives.
    pub closed spec fn creations(self) -> int {
        self.next_id as int
    }

    /// The store's invariant.
    pub closed spec fn inv(self) -> bool {
        &&& abs_inv(self@)
        &&& forall|i: int| 0 <= i < self@.len() ==> #[trigger] self@[i].id < self.next_id
    }

    /// An empty store.
    pub fn new() -> (s: EntryStore)
        ensures
            s.inv(),
            s@ == Seq::<EntryView>::empty(),
            s.creations() == 0,
    {
        let s = EntryStore { entries: Vec::new(), next_id: 0 };
        proof {
            assert(s@ =~= Seq::<EntryView>::empty());
        }
        s
    }

    /// The creation counter as a machine integer: the id the next
    /// creation receives.
    pub fn creation_count(&self) -> (r: u64)
        ensures
            r as int == self.creations(),
    {
        self.next_id
    }

    /// Index of the entry carrying `id`, if any.
    fn find_index(&self, id: u64) -> (r: Option<usize>)
        ensures
            match r {
                Some(i) => i < self@.len() && self@[i as int].id == id && lookup(self@, id)
                    == Some(self@[i as int]),
                None => !contains_id(self@, id) && lookup(self@, id) is None,
            },
    {
        let mut i: usize = 0;
        while i < self.entries.len()
            invariant
                i <= self@.len(),
                self@.len() == self.entries@.len(),
                forall|j: int| 0 <= j < i ==> self@[j].id != id,
            decreases self@.len() - i,
        {
            if self.entries[i].id == id {
                proof {
                    lemma_lookup_skip(self@, id, i as int);
                    assert(self@.skip(i as int)[0] == self@[i as int]);
                    assert(self@.skip(i as int).len() > 0);
                }
                return Some(i);
            }
            assert(self@[i as int].id != id);
            i = i + 1;
        }
        proof {
            lemma_lookup_skip(self@, id, self@.len() as int);
            assert(self@.skip(self@.len() as int) =~= Seq::<EntryView>::empty());
        }
        None
    }

    /// The entry carrying `id`, if any.
    pub fn get_one(&self, id: u64) -> (r: Option<&TimeEntry>)
        ensures
            match r {
                Some(e) => lookup(self@, id) == Some(e@),
                None => !contains_id(self@, id) && lookup(self@, id) is None,
            },
    {
        match self.find_index(id) {
            Some(i) => Some(&self.entries[i]),
            None => None,
        }
    }

    /// Create one entry: the task name is stored as given, the raw tag
    /// text is normalized, and a fresh id is assigned and returned.
    pub fn create(&mut self, task_name: &str, raw_tags: &str, start: Timestamp, stop: Timestamp)
        -> (r: u64)
        requires
            old(self).inv(),
            old(self).creations() < u64::MAX,
            start.wf(),
            stop.wf(),
            ts_le(start, stop),
        ensures
            final(self).inv(),
            final(self).creations() == old(self).creations() + 1,
            r == old(self).creations(),
            !contains_id(old(self)@, r),
            final(self)@ == old(self)@.push(
                EntryView {
                    id: r,
                    task_name: task_name@,
                    tags: normalize_spec(raw_tags@),
                    start_time: start,
                    stop_time: stop,
                },
            ),
    {
        let id = self.next_id;
        self.next_id = self.next_id + 1;
        let tags = normalize(raw_tags);
        let e = TimeEntry {
            id,
            task_name: task_name.to_owned(),
            tags,
            start_time: start,
            stop_time: stop,
        };
        proof {
            lemma_normalize_canonical(raw_tags@);
            assert(e@.inv());
        }
        let ghost pv = self.entries@;
        self.entries.push(e);
        proof {
            assert forall|j: int| 0 <= j < pv.len() implies self@[j] == entry_views(pv)[j] by {
                assert(self.entries@[j] == pv[j]);
            }
            assert(self@ =~~= entry_views(pv).push(
                EntryView {
                    id,
                    task_name: task_name@,
                    tags: normalize_spec(raw_tags@),
                    start_time: start,
                    stop_time: stop,
                },
            ));
        }
        id
    }

    /// Fetch the entries carrying the requested ids, in request order;
    /// requests for absent ids are skipped.
    pub fn get_by_ids(&self, ids: &Vec<u64>) -> (r: Vec<TimeEntry>)
        ensures
            entry_views(r@) == get_ids_spec(self@, ids@),
    {
        let mut out: Vec<TimeEntry> = Vec::new();
        let mut k: usize = 0;
        while k < ids.len()
            invariant
                k <= ids@.len(),
                entry_views(out@) == get_ids_spec(self@, ids@.take(k as int)),
            decreases ids@.len() - k,
        {
            proof {
                assert(ids@.take(k as int + 1).drop_last() =~= ids@.take(k as int));
                assert(ids@.take(k as int + 1).last() == ids@[k as int]);
            }
            let ghost pv = out@;
            match self.find_index(ids[k]) {
                Some(i) => {
                    out.push(self.entries[i].duplicate());
                    proof {
                        assert forall|j: int| 0 <= j < pv.len() implies entry_views(out@)[j]
                            == entry_views(pv)[j] by {
                            assert(out@[j] == pv[j]);
                        }
                        assert(entry_views(out@) =~~= get_ids_spec(self@, ids@.take(k as int + 1)));
                    }
                },
                None => {
                    assert(entry_views(out@) =~~= get_ids_spec(self@, ids@.take(k as int + 1)));
                },
            }
            k = k + 1;
        }
        proof {
            assert(ids@.take(ids@.len() as int) =~= ids@);
        }
        out
    }
}


/// `e` with its task name replaced.
pub open spec fn with_name(e: EntryView, name: Seq<char>) -> EntryView {
    EntryView { task_name: name, ..e }
}

/// `e` with its tag list replaced.
pub open spec fn with_tags(e: EntryView, tags: Seq<Seq<char>>) -> EntryView {
    EntryView { tags: tags, ..e }
}

/// `e` with both timestamps replaced.
pub open spec fn with_times(e: EntryView, start: Timestamp, stop: Timestamp) -> EntryView {
    EntryView { start_time: start, stop_time: stop, ..e }
}

/// `s` with the task name of the entry carrying `id` replaced.
pub open spec fn rename_one_spec(s: Seq<EntryView>, id: u64, name: Seq<char>) -> Seq<EntryView> {
    s.map_values(
        |e: EntryView|
            if e.id == id {
                with_name(e, name)
            } else {
                e
            },
    )
}

/// `s` with the tag list of the entry carrying `id` replaced.
pub open spec fn retag_one_spec(s: Seq<EntryView>, id: u64, tags: Seq<Seq<char>>) -> Seq<
    EntryView,
> {
    s.map_values(
        |e: EntryView|
            if e.id == id {
                with_tags(e, tags)
            } else {
                e
            },
    )
}

/// `s` with both timestamps of the entry carrying `id` replaced.
pub open spec fn retime_one_spec(
    s: Seq<EntryView>,
    id: u64,
    start: Timestamp,
    stop: Timestamp,
) -> Seq<EntryView> {
    s.map_values(
        |e: EntryView|
            if e.id == id {
                with_times(e, start, stop)
            } else {
                e
            },
    )
}

/// `s` without the entries carrying `id`.
pub open spec fn remove_id_spec(s: Seq<EntryView>, id: u64) -> Seq<EntryView>
    decreases s.len(),
{
    if s.len() == 0 {
        Seq::empty()
    } else {
        let rest = remove_id_spec(s.drop_last(), id);
        if s.last().id == id {
            rest
        } else {
            rest.push(s.last())
        }
    }
}

/// `s` without the entries whose id is among `ids`.
pub open spec fn remove_ids_spec(s: Seq<EntryView>, ids: Seq<u64>) -> Seq<EntryView>
    decreases s.len(),
{
    if s.len() == 0 {
        Seq::empty()
    } else {
        let rest = remove_ids_spec(s.drop_last(), ids);
        if ids.contains(s.last().id) {
            rest
        } else {
            rest.push(s.last())
        }
    }
}

pub proof fn lemma_remove_ids_inv(s: Seq<EntryView>, ids: Seq<u64>)
    requires
        abs_inv(s),
    ensures
        abs_inv(remove_ids_spec(s, ids)),
        forall|i: int|
            0 <= i < remove_ids_spec(s, ids).len() ==> exists|j: int|
                0 <= j < s.len() && #[trigger] remove_ids_spec(s, ids)[i] == s[j],
        forall|i: int|
            0 <= i < remove_ids_spec(s, ids).len() ==> !ids.contains(
                #[trigger] remove_ids_spec(s, ids)[i].id,
            ),
    decreases s.len(),
{
    if s.len() > 0 {
        assert(abs_inv(s.drop_last()));
        lemma_remove_ids_inv(s.drop_last(), ids);
        let rest = remove_ids_spec(s.drop_last(), ids);
        let d = remove_ids_spec(s, ids);
        assert forall|i: int| 0 <= i < d.len() implies exists|j: int|
            0 <= j < s.len() && #[trigger] d[i] == s[j] by {
            if i < rest.len() {
                let j = choose|j: int| 0 <= j < s.drop_last().len() && rest[i] == s.drop_last()[j];
                assert(d[i] == s[j]);
            } else {
                assert(d[i] == s[s.len() - 1]);
            }
        }
        if !ids.contains(s.last().id) {
            assert forall|i: int, j: int| 0 <= i < j < d.len() implies d[i].id != d[j].id by {
                if j < rest.len() {
                } else {
                    let k = choose|k: int|
                        0 <= k < s.drop_last().len() && rest[i] == s.drop_last()[k];
                    assert(d[i] == s[k]);
                    assert(d[j] == s[s.len() - 1]);
                }
            }
        }
    }
}

/// Membership of a plain id in an id list.
pub fn ids_contain(ids: &Vec<u64>, x: u64) -> (r: bool)
    ensures
        r == ids@.contains(x),
{
    let mut i: usize = 0;
    while i < ids.len()
        invariant
            i <= ids@.len(),
            forall|j: int| 0 <= j < i ==> ids@[j] != x,
        decreases ids@.len() - i,
    {
        if ids[i] == x {
            return true;
        }
        i = i + 1;
    }
    false
}

impl EntryStore {
    /// Replace the task name of the entry carrying `id`; the name is
    /// stored as given.
    pub fn update_task_name(&mut self, id: u64, name: &str) -> (r: Result<(), StoreError>)
        requires
            old(self).inv(),
        ensures
            final(self).inv(),
            final(self).creations() == old(self).creations(),
            r is Ok <==> contains_id(old(self)@, id),
            r is Ok ==> final(self)@ == rename_one_spec(old(self)@, id, name@),
            r is Err ==> final(self)@ == old(self)@ && r == Err::<(), StoreError>(
                StoreError::NotFound,
            ),
    {
        let ghost oldv = self@;
        match self.find_index(id) {
            None => Err(StoreError::NotFound),
            Some(i) => {
                let mut e = self.entries.remove(i);
                e.task_name = name.to_owned();
                self.entries.insert(i, e);
                proof {
                    assert forall|j: int| 0 <= j < oldv.len() implies self@[j] == rename_one_spec(
                        oldv,
                        id,
                        name@,
                    )[j] by {
                        if j < i as int {
                            assert(self.entries@[j] == old(self).entries@[j]);
                        } else if j == i as int {
                        } else {
                            assert(self.entries@[j] == old(self).entries@[j]);
                        }
                        if j != i as int {
                            assert(oldv[j].id != id);
                        }
                    }
                    assert(self@ =~~= rename_one_spec(oldv, id, name@));
                    assert forall|j: int| 0 <= j < self@.len() implies #[trigger] self@[j].inv()
                        && self@[j].id < self.next_id && self@[j].id == oldv[j].id by {
                        assert(oldv[j].inv());
                    }
                }
                Ok(())
            },
        }
    }

    /// Replace the tag list of the entry carrying `id`; the raw tag text
    /// is normalized before it is stored.
    pub fn update_tags(&mut self, id: u64, raw_tags: &str) -> (r: Result<(), StoreError>)
        requires
            old(self).inv(),
        ensures
            final(self).inv(),
            final(self).creations() == old(self).creations(),
            r is Ok <==> contains_id(old(self)@, id),
            r is Ok ==> final(self)@ == retag_one_spec(old(self)@, id, normalize_spec(raw_tags@)),
            r is Err ==> final(self)@ == old(self)@ && r == Err::<(), StoreError>(
                StoreError::NotFound,
            ),
    {
        let ghost oldv = self@;
        match self.find_index(id) {
            None => Err(StoreError::NotFound),
            Some(i) => {
                let mut e = self.entries.remove(i);
                e.tags = normalize(raw_tags);
                self.entries.insert(i, e);
                proof {
                    lemma_normalize_canonical(raw_tags@);
                    let tv = normalize_spec(raw_tags@);
                    assert forall|j: int| 0 <= j < oldv.len() implies self@[j] == retag_one_spec(
                        oldv,
                        id,
                        tv,
                    )[j] by {
                        if j != i as int {
                            assert(self.entries@[j] == old(self).entries@[j]);
                            assert(oldv[j].id != id);
                        }
                    }
                    assert(self@ =~~= retag_one_spec(oldv, id, tv));
                    assert forall|j: int| 0 <= j < self@.len() implies #[trigger] self@[j].inv()
                        && self@[j].id < self.next_id && self@[j].id == oldv[j].id by {
                        assert(oldv[j].inv());
                    }
                }
                Ok(())
            },
        }
    }

    /// Replace the tag list of the entry carrying `id` with an already
    /// canonical list, stored as given.
    pub fn update_tags_list(&mut self, id: u64, tags: &Vec<String>) -> (r: Result<(), StoreError>)
        requires
            old(self).inv(),
            crate::entry::canon_tags(tags.deep_view()),
        ensures
            final(self).inv(),
            final(self).creations() == old(self).creations(),
            r is Ok <==> contains_id(old(self)@, id),
            r is Ok ==> final(self)@ == retag_one_spec(old(self)@, id, tags.deep_view()),
            r is Err ==> final(self)@ == old(self)@ && r == Err::<(), StoreError>(
                StoreError::NotFound,
            ),
    {
        let ghost oldv = self@;
        match self.find_index(id) {
            None => Err(StoreError::NotFound),
            Some(i) => {
                let mut e = self.entries.remove(i);
                e.tags = crate::entry::clone_tag_list(tags);
                self.entries.insert(i, e);
                proof {
                    let tv = tags.deep_view();
                    assert forall|j: int| 0 <= j < oldv.len() implies self@[j] == retag_one_spec(
                        oldv,
                        id,
                        tv,
                    )[j] by {
                        if j != i as int {
                            assert(self.entries@[j] == old(self).entries@[j]);
                            assert(oldv[j].id != id);
                        }
                    }
                    assert(self@ =~~= retag_one_spec(oldv, id, tv));
                    assert forall|j: int| 0 <= j < self@.len() implies #[trigger] self@[j].inv()
                        && self@[j].id < self.next_id && self@[j].id == oldv[j].id by {
                        assert(oldv[j].inv());
                    }
                }
                Ok(())
            },
        }
    }

    /// Replace both timestamps of the entry carrying `id` in one write.
    pub fn update_times(&mut self, id: u64, start: Timestamp, stop: Timestamp) -> (r: Result<
        (),
        StoreError,
    >)
        requires
            old(self).inv(),
            start.wf(),
            stop.wf(),
            ts_le(start, stop),
        ensures
            final(self).inv(),
            final(self).creations() == old(self).creations(),
            r is Ok <==> contains_id(old(self)@, id),
            r is Ok ==> final(self)@ == retime_one_spec(old(self)@, id, start, stop),
            r is Err ==> final(self)@ == old(self)@ && r == Err::<(), StoreError>(
                StoreError::NotFound,
            ),
    {
        let ghost oldv = self@;
        match self.find_index(id) {
            None => Err(StoreError::NotFound),
            Some(i) => {
                let mut e = self.entries.remove(i);
                e.start_time = start;
                e.stop_time = stop;
                self.entries.insert(i, e);
                proof {
                    assert forall|j: int| 0 <= j < oldv.len() implies self@[j] == retime_one_spec(
                        oldv,
                        id,
                        start,
                        stop,
                    )[j] by {
                        if j != i as int {
                            assert(self.entries@[j] == old(self).entries@[j]);
                            assert(oldv[j].id != id);
                        }
                    }
                    assert(self@ =~~= retime_one_spec(oldv, id, start, stop));
                    assert forall|j: int| 0 <= j < self@.len() implies #[trigger] self@[j].inv()
                        && self@[j].id < self.next_id && self@[j].id == oldv[j].id by {
                        assert(oldv[j].inv());
                    }
                }
                Ok(())
            },
        }
    }

    /// Replace the start time of the entry carrying `id`; the stored stop
    /// time must not come before it.
    pub fn update_start_time(&mut self, id: u64, start: Timestamp) -> (r: Result<(), StoreError>)
        requires
            old(self).inv(),
            start.wf(),
        ensures
            final(self).inv(),
            final(self).creations() == old(self).creations(),
            r is Ok <==> match lookup(old(self)@, id) {
                Some(e) => ts_le(start, e.stop_time),
                None => false,
            },
            r is Ok ==> final(self)@ == match lookup(old(self)@, id) {
                Some(e) => retime_one_spec(old(self)@, id, start, e.stop_time),
                None => old(self)@,
            },
            r is Err ==> final(self)@ == old(self)@,
            r == Err::<(), StoreError>(StoreError::NotFound) <==> !contains_id(old(self)@, id),
    {
        let ghost oldv = self@;
        match self.find_index(id) {
            None => Err(StoreError::NotFound),
            Some(i) => {
                let stop = self.entries[i].stop_time;
                proof {
                    assert(oldv[i as int].inv());
                }
                if !start.le(&stop) {
                    return Err(StoreError::Constraint);
                }
                self.update_times(id, start, stop)
            },
        }
    }

    /// Replace the stop time of the entry carrying `id`; it must not come
    /// before the stored start time.
    pub fn update_stop_time(&mut self, id: u64, stop: Timestamp) -> (r: Result<(), StoreError>)
        requires
            old(self).inv(),
            stop.wf(),
        ensures
            final(self).inv(),
            final(self).creations() == old(self).creations(),
            r is Ok <==> match lookup(old(self)@, id) {
                Some(e) => ts_le(e.start_time, stop),
                None => false,
            },
            r is Ok ==> final(self)@ == match lookup(old(self)@, id) {
                Some(e) => retime_one_spec(old(self)@, id, e.start_time, stop),
                None => old(self)@,
            },
            r is Err ==> final(self)@ == old(self)@,
            r == Err::<(), StoreError>(StoreError::NotFound) <==> !contains_id(old(self)@, id),
    {
        let ghost oldv = self@;
        match self.find_index(id) {
            None => Err(StoreError::NotFound),
            Some(i) => {
                let start = self.entries[i].start_time;
                proof {
                    assert(oldv[i as int].inv());
                }
                if !start.le(&stop) {
                    return Err(StoreError::Constraint);
                }
                self.update_times(id, start, stop)
            },
        }
    }

    /// Delete the entry carrying `id`.
    pub fn delete(&mut self, id: u64) -> (r: Result<(), StoreError>)
        requires
            old(self).inv(),
        ensures
            final(self).inv(),
            final(self).creations() == old(self).creations(),
            r is Ok <==> contains_id(old(self)@, id),
            r is Ok ==> final(self)@ == remove_id_spec(old(self)@, id),
            r is Err ==> final(self)@ == old(self)@ && r == Err::<(), StoreError>(
                StoreError::NotFound,
            ),
    {
        let ghost oldv = self@;
        match self.find_index(id) {
            None => Err(StoreError::NotFound),
            Some(i) => {
                self.entries.remove(i);
                proof {
                    assert forall|j: int| 0 <= j < oldv.len() implies (if j < i as int {
                        self@[j] == oldv[j]
                    } else if j > i as int {
                        self@[j - 1] == oldv[j]
                    } else {
                        true
                    }) by {
                        if j < i as int {
                            assert(self.entries@[j] == old(self).entries@[j]);
                        } else if j > i as int {
                            assert(self.entries@[j - 1] == old(self).entries@[j]);
                        }
                    }
                    lemma_remove_id_is_remove(oldv, id, i as int);
                    assert(self@ =~~= remove_id_spec(oldv, id));
                    assert forall|j: int| 0 <= j < self@.len() implies #[trigger] self@[j].inv()
                        && self@[j].id < self.next_id by {
                        if j < i as int {
                            assert(oldv[j].inv());
                        } else {
                            assert(oldv[j + 1].inv());
                        }
                    }
                }
                Ok(())
            },
        }
    }

    /// Delete every entry whose id is among `ids`; ids that are absent
    /// are ignored.
    pub fn delete_many(&mut self, ids: &Vec<u64>) -> (r: Result<(), StoreError>)
        requires
            old(self).inv(),
        ensures
            final(self).inv(),
            final(self).creations() == old(self).creations(),
            r is Ok,
            final(self)@ == remove_ids_spec(old(self)@, ids@),
    {
        let ghost oldv = self@;
        let mut out: Vec<TimeEntry> = Vec::new();
        let mut j: usize = 0;
        while j < self.entries.len()
            invariant
                j <= self.entries@.len(),
                self@ == oldv,
                self@.len() == self.entries@.len(),
                entry_views(out@) == remove_ids_spec(oldv.take(j as int), ids@),
            decreases self.entries@.len() - j,
        {
            proof {
                assert(oldv.take(j as int + 1).drop_last() =~= oldv.take(j as int));
                assert(oldv.take(j as int + 1).last() == oldv[j as int]);
            }
            let ghost pv = out@;
            if !ids_contain(ids, self.entries[j].id) {
                out.push(self.entries[j].duplicate());
                proof {
                    assert forall|k: int| 0 <= k < pv.len() implies entry_views(out@)[k]
                        == entry_views(pv)[k] by {
                        assert(out@[k] == pv[k]);
                    }
                    assert(entry_views(out@) =~~= remove_ids_spec(oldv.take(j as int + 1), ids@));
                }
            } else {
                assert(entry_views(out@) =~~= remove_ids_spec(oldv.take(j as int + 1), ids@));
            }
            j = j + 1;
        }
        proof {
            assert(oldv.take(oldv.len() as int) =~= oldv);
        }
        self.entries = out;
        proof {
            lemma_remove_ids_inv(oldv, ids@);
            assert forall|k: int| 0 <= k < self@.len() implies #[trigger] self@[k].inv()
                && self@[k].id < self.next_id by {
                let j2 = choose|j2: int| 0 <= j2 < oldv.len() && self@[k] == oldv[j2];
                assert(oldv[j2].inv());
                assert(oldv[j2].id < self.next_id);
            }
        }
        Ok(())
    }

    /// Delete every entry.
    pub fn delete_all(&mut self) -> (r: Result<(), StoreError>)
        requires
            old(self).inv(),
        ensures
            final(self).inv(),
            final(self).creations() == old(self).creations(),
            r is Ok,
            final(self)@ == Seq::<EntryView>::empty(),
    {
        self.entries = Vec::new();
        proof {
            assert(self@ =~= Seq::<EntryView>::empty());
        }
        Ok(())
    }
}

pub proof fn lemma_remove_id_is_remove(s: Seq<EntryView>, id: u64, i: int)
    requires
        0 <= i < s.len(),
        s[i].id == id,
        forall|j: int| 0 <= j < s.len() && j != i ==> s[j].id != id,
    ensures
        remove_id_spec(s, id) == s.remove(i),
    decreases s.len(),
{
    if i == s.len() - 1 {
        lemma_remove_id_keeps_all(s.drop_last(), id);
        assert(remove_id_spec(s, id) == remove_id_spec(s.drop_last(), id));
        assert(s.remove(i) =~= s.drop_last());
    } else {
        assert(s.last().id != id);
        assert(forall|j: int|
            0 <= j < s.drop_last().len() && j != i ==> s.drop_last()[j].id != id);
        lemma_remove_id_is_remove(s.drop_last(), id, i);
        assert(remove_id_spec(s, id) == s.drop_last().remove(i).push(s.last()));
        assert(s.drop_last().remove(i).push(s.last()) =~= s.remove(i));
    }
}

pub proof fn lemma_remove_id_keeps_all(s: Seq<EntryView>, id: u64)
    requires
        forall|j: int| 0 <= j < s.len() ==> s[j].id != id,
    ensures
        remove_id_spec(s, id) == s,
    decreases s.len(),
{
    if s.len() > 0 {
        lemma_remove_id_keeps_all(s.drop_last(), id);
        assert(s.drop_last().push(s.last()) =~= s);
    }
}


/// Law: a round trip through the store. After a creation pushing a fresh
/// entry, fetching by the new id alone yields exactly that entry, with
/// its normalized tags and its timestamps as given.
pub proof fn lemma_create_then_get(s: Seq<EntryView>, e: EntryView)
    requires
        !contains_id(s, e.id),
    ensures
        get_ids_spec(s.push(e), seq![e.id]) == seq![e],
{
    lemma_lookup_push_fresh(s, e);
    let ids = seq![e.id];
    assert(ids.drop_last() =~= Seq::<u64>::empty());
    assert(get_ids_spec(s.push(e), ids.drop_last()) == Seq::<EntryView>::empty());
    assert(get_ids_spec(s.push(e), ids) =~= seq![e]);
}


impl EntryStore {
    /// Every entry, in store order, as owned copies.
    pub fn export_all(&self) -> (r: Vec<TimeEntry>)
        ensures
            entry_views(r@) == self@,
    {
        let mut out: Vec<TimeEntry> = Vec::new();
        let mut i: usize = 0;
        while i < self.entries.len()
            invariant
                i <= self.entries@.len(),
                out@.len() == i,
                forall|k: int| 0 <= k < i ==> (#[trigger] out@[k])@ == self.entries@[k]@,
            decreases self.entries@.len() - i,
        {
            out.push(self.entries[i].duplicate());
            i = i + 1;
        }
        proof {
            assert forall|k: int| 0 <= k < out@.len() implies entry_views(out@)[k] == self@[k] by {
                assert(out@[k]@ == self.entries@[k]@);
            }
            assert(entry_views(out@) =~~= self@);
        }
        out
    }

    /// Rebuild a store from exported rows. Exactly the row lists that
    /// satisfy the store's invariants — valid, ordered timestamps,
    /// canonical tags, unique ids, every id below the id ceiling — are
    /// accepted.
    pub fn from_entries(rows: &Vec<TimeEntry>) -> (r: Option<EntryStore>)
        ensures
            r is Some <==> (abs_inv(entry_views(rows@)) && forall|i: int|
                0 <= i < rows@.len() ==> #[trigger] entry_views(rows@)[i].id < u64::MAX),
            r matches Some(s) ==> s.inv() && s@ == entry_views(rows@),
    {
        let ghost dv = entry_views(rows@);
        let mut next: u64 = 0;
        let mut i: usize = 0;
        while i < rows.len()
            invariant
                i <= rows@.len(),
                dv == entry_views(rows@),
                forall|k: int| 0 <= k < i ==> (#[trigger] dv[k]).inv(),
                forall|k: int| 0 <= k < i ==> (#[trigger] dv[k]).id < next,
                forall|a: int, b: int| 0 <= a < b < i ==> dv[a].id != dv[b].id,
            decreases rows@.len() - i,
        {
            let e = &rows[i];
            proof {
                assert(dv[i as int] == rows@[i as int]@);
            }
            if !e.start_time.check_wf() || !e.stop_time.check_wf() {
                proof {
                    assert(!dv[i as int].inv());
                    assert(!abs_inv(entry_views(rows@)));
                }
                return None;
            }
            if !e.start_time.le(&e.stop_time) {
                proof {
                    assert(!dv[i as int].inv());
                    assert(!abs_inv(entry_views(rows@)));
                }
                return None;
            }
            if !crate::entry::canon_tags_check(&e.tags) {
                proof {
                    assert(!dv[i as int].inv());
                    assert(!abs_inv(entry_views(rows@)));
                }
                return None;
            }
            if e.id == u64::MAX {
                proof {
                    assert(dv[i as int].id == u64::MAX);
                }
                return None;
            }
            let mut j: usize = 0;
            while j < i
                invariant
                    j <= i < rows@.len(),
                    dv == entry_views(rows@),
                    dv[i as int] == rows@[i as int]@,
                    forall|a: int| 0 <= a < j ==> dv[a].id != dv[i as int].id,
                decreases i - j,
            {
                proof {
                    assert(dv[j as int] == rows@[j as int]@);
                }
                if rows[j].id == rows[i].id {
                    proof {
                        assert(rows@[j as int].id == rows@[i as int].id);
                        assert(dv[j as int].id == rows@[j as int].id);
                        assert(dv[i as int].id == rows@[i as int].id);
                        assert(!abs_inv(entry_views(rows@)));
                    }
                    return None;
                }
                proof {
                    assert(dv[j as int].id == rows@[j as int].id);
                    assert(dv[i as int].id == rows@[i as int].id);
                    assert(dv[j as int].id != dv[i as int].id);
                }
                j = j + 1;
            }
            if e.id >= next {
                next = e.id + 1;
            }
            i = i + 1;
        }
        let mut entries: Vec<TimeEntry> = Vec::new();
        let mut i: usize = 0;
        while i < rows.len()
            invariant
                i <= rows@.len(),
                entries@.len() == i,
                forall|k: int| 0 <= k < i ==> (#[trigger] entries@[k])@ == rows@[k]@,
            decreases rows@.len() - i,
        {
            entries.push(rows[i].duplicate());
            i = i + 1;
        }
        let s = EntryStore { entries, next_id: next };
        proof {
            assert forall|k: int| 0 <= k < s@.len() implies s@[k] == entry_views(rows@)[k] by {
                assert(s.entries@[k]@ == rows@[k]@);
            }
            assert(s@ =~~= entry_views(rows@));
        }
        Some(s)
    }
}

/// In a store holding its invariant, every id lies below the id ceiling.
pub proof fn lemma_store_ids_bounded(s: EntryStore)
    requires
        s.inv(),
    ensures
        forall|i: int| 0 <= i < s@.len() ==> #[trigger] s@[i].id < u64::MAX,
{
}

/// In a store holding its invariant, no two entries share an id.
pub proof fn lemma_store_ids_unique(s: EntryStore)
    requires
        s.inv(),
    ensures
        forall|a: int, b: int| 0 <= a < b < s@.len() ==> s@[a].id != s@[b].id,
{
}

/// A store holding its invariant holds the abstract store invariant:
/// unique ids and the per-entry invariant.
pub proof fn lemma_store_abs_inv(s: EntryStore)
    requires
        s.inv(),
    ensures
        abs_inv(s@),
{
}

} // verus!
