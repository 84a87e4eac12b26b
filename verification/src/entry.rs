//! Time entries: the stored record of one work interval, its mathematical
//! view, and the per-entry invariants the store keeps.

use crate::tags::canon_tag;
use crate::time::DayKey;
use crate::time::Timestamp;
use crate::time::ts_le;
use vstd::prelude::*;

verus! {

/// One recorded work interval.
#[derive(Debug)]
pub struct TimeEntry {
    pub id: u64,
    pub task_name: String,
    pub tags: Vec<String>,
    pub start_time: Timestamp,
    pub stop_time: Timestamp,
}

/// The mathematical view of a time entry.
pub struct EntryView {
    pub id: u64,
    pub task_name: Seq<char>,
    pub tags: Seq<Seq<char>>,
    pub start_time: Timestamp,
    pub stop_time: Timestamp,
}

impl View for TimeEntry {
    type V = EntryView;

    open spec fn view(&self) -> EntryView {
        EntryView {
            id: self.id,
            task_name: self.task_name@,
            tags: self.tags.deep_view(),
            start_time: self.start_time,
            stop_time: self.stop_time,
        }
    }
}

/// A canonical tag list: every tag canonical and no two equal.
pub open spec fn canon_tags(ts: Seq<Seq<char>>) -> bool {
    &&& forall|i: int| 0 <= i < ts.len() ==> canon_tag(#[trigger] ts[i])
    &&& forall|i: int, j: int| 0 <= i < j < ts.len() ==> ts[i] != ts[j]
}

impl EntryView {
    /// The invariant of every persisted entry: valid timestamps, start no
    /// later than stop, and a canonical tag list.
    pub open spec fn inv(self) -> bool {
        &&& self.start_time.wf()
        &&& self.stop_time.wf()
        &&& ts_le(self.start_time, self.stop_time)
        &&& canon_tags(self.tags)
    }

    /// The grouping key: task name, tag list, and calendar day of the
    /// start time.
    pub open spec fn key(self) -> (Seq<char>, Seq<Seq<char>>, DayKey) {
        (self.task_name, self.tags, self.start_time.day_key())
    }
}

/// Executable equality of two tag lists.
pub fn tag_lists_eq(a: &Vec<String>, b: &Vec<String>) -> (r: bool)
    ensures
        r == (a.deep_view() == b.deep_view()),
{
    if a.len() != b.len() {
        assert(a.deep_view().len() == a@.len() && b.deep_view().len() == b@.len());
        return false;
    }
    let mut i: usize = 0;
    while i < a.len()
        invariant
            i <= a@.len(),
            a@.len() == b@.len(),
            forall|j: int| 0 <= j < i ==> a.deep_view()[j] == b.deep_view()[j],
        decreases a@.len() - i,
    {
        if !(a[i] == b[i]) {
            assert(a.deep_view()[i as int] != b.deep_view()[i as int]);
            return false;
        }
        assert(a.deep_view()[i as int] == b.deep_view()[i as int]);
        i = i + 1;
    }
    proof {
        assert(a.deep_view() =~= b.deep_view());
    }
    true
}

/// A copy of a tag list.
pub fn clone_tag_list(v: &Vec<String>) -> (r: Vec<String>)
    ensures
        r.deep_view() == v.deep_view(),
{
    let mut tags: Vec<String> = Vec::new();
    let mut i: usize = 0;
    while i < v.len()
        invariant
            i <= v@.len(),
            tags.deep_view() =~= v.deep_view().take(i as int),
        decreases v@.len() - i,
    {
        let ghost pv = tags@;
        let ghost pdv = tags.deep_view();
        tags.push(v[i].clone());
        proof {
            assert(pdv.len() == pv.len());
            assert forall|j: int| 0 <= j < pv.len() implies tags@[j].deep_view()
                == v.deep_view()[j] by {
                assert(tags@[j] == pv[j]);
                assert(pdv[j] == pv[j].deep_view());
            }
            assert(tags@[pv.len() as int]@ == v@[i as int]@);
            assert(tags.deep_view() =~~= v.deep_view().take(i as int + 1));
        }
        i = i + 1;
    }
    proof {
        assert(v.deep_view().take(v@.len() as int) =~= v.deep_view());
    }
    tags
}

impl TimeEntry {
    /// A deep copy of this entry.
    pub fn duplicate(&self) -> (r: TimeEntry)
        ensures
            r@ == self@,
    {
        let tags = clone_tag_list(&self.tags);
        let r = TimeEntry {
            id: self.id,
            task_name: self.task_name.clone(),
            tags,
            start_time: self.start_time,
            stop_time: self.stop_time,
        };
        assert(r@ =~~= self@);
        r
    }

    /// Whether this entry's key equals the given defining key.
    pub fn matches_key(&self, name: &String, tags: &Vec<String>, day: &DayKey) -> (r: bool)
        ensures
            r == (self@.key() == (name@, tags.deep_view(), *day)),
{
        let name_eq = self.task_name == *name;
        let tags_eq = tag_lists_eq(&self.tags, tags);
        let day_eq = self.start_time.day_of() == *day;
        name_eq && tags_eq && day_eq
    }
}


/// Whether a whole tag list is canonical: every tag canonical and no
/// two tags equal.
pub fn canon_tags_check(ts: &Vec<String>) -> (r: bool)
    ensures
        r == canon_tags(ts.deep_view()),
{
    let dv_len = ts.len();
    let mut i: usize = 0;
    while i < dv_len
        invariant
            i <= ts@.len(),
            dv_len == ts@.len(),
            forall|k: int| 0 <= k < i ==> canon_tag(#[trigger] ts.deep_view()[k]),
            forall|a: int, b: int| 0 <= a < b < i ==> ts.deep_view()[a] != ts.deep_view()[b],
        decreases ts@.len() - i,
    {
        if !crate::tags::canon_tag_check(ts[i].as_str()) {
            assert(ts.deep_view()[i as int] == ts@[i as int]@);
            return false;
        }
        assert(ts.deep_view()[i as int] == ts@[i as int]@);
        let mut j: usize = 0;
        while j < i
            invariant
                j <= i < dv_len,
                dv_len == ts@.len(),
                forall|a: int| 0 <= a < j ==> ts.deep_view()[a] != ts.deep_view()[i as int],
            decreases i - j,
        {
            if ts[j] == ts[i] {
                assert(ts.deep_view()[j as int] == ts.deep_view()[i as int]);
                return false;
            }
            assert(ts.deep_view()[j as int] != ts.deep_view()[i as int]);
            j = j + 1;
        }
        i = i + 1;
    }
    true
}

} // verus!
