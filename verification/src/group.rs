//! Task groups and batch group editing: renaming, retagging, deleting and
//! cloning the entries that share a defining key, with membership
//! re-derived from current stored values before every destructive step.

use crate::entry::EntryView;
use crate::entry::TimeEntry;
use crate::entry::canon_tags;
use crate::entry::clone_tag_list;
use crate::store::EntryStore;
use crate::store::StoreError;
use crate::store::contains_id;
use crate::store::lookup;
use crate::store::remove_ids_spec;
use crate::store::rename_one_spec;
use crate::store::retag_one_spec;
use crate::tags::normalize_spec;
use crate::tags::trim_spec;
use crate::time::DayKey;
use crate::time::Precision;
use crate::time::Timestamp;
use crate::validate::EditRequest;
use crate::validate::EntryPatch;
use crate::validate::PatchView;
use crate::validate::ReqView;
use crate::validate::Rule;
use crate::validate::accepted;
use crate::validate::validate_edit;
use crate::validate::violations_spec;
use vstd::prelude::*;

verus! {

/// A task group: a transient, non-owning view of the entry ids believed
/// to share the defining key `(name, tags, day)`.
#[derive(Debug)]
pub struct TaskGroup {
    pub ids: Vec<u64>,
    pub name: String,
    pub tags: Vec<String>,
    pub day: DayKey,
}

/// The mathematical view of a task group.
pub struct GroupView {
    pub ids: Seq<u64>,
    pub name: Seq<char>,
    pub tags: Seq<Seq<char>>,
    pub day: DayKey,
}

impl View for TaskGroup {
    type V = GroupView;

    open spec fn view(&self) -> GroupView {
        GroupView {
            ids: self.ids@,
            name: self.name@,
            tags: self.tags.deep_view(),
            day: self.day,
        }
    }
}

impl GroupView {
    /// The defining key.
    pub open spec fn key(self) -> (Seq<char>, Seq<Seq<char>>, DayKey) {
        (self.name, self.tags, self.day)
    }
}

/// The ids of `ids`, in order, whose entry in `s` exists and still
/// matches the key `(name, tags, day)`.
pub open spec fn live_ids_spec(
    s: Seq<EntryView>,
    ids: Seq<u64>,
    name: Seq<char>,
    tags: Seq<Seq<char>>,
    day: DayKey,
) -> Seq<u64>
    decreases ids.len(),
{
    if ids.len() == 0 {
        Seq::empty()
    } else {
        let rest = live_ids_spec(s, ids.drop_last(), name, tags, day);
        match lookup(s, ids.last()) {
            Some(e) => if e.key() == (name, tags, day) {
                rest.push(ids.last())
            } else {
                rest
            },
            None => rest,
        }
    }
}

/// An id is live exactly when it is among the group's ids and its stored
/// entry still matches the defining key.
pub proof fn lemma_live_ids_member(
    s: Seq<EntryView>,
    ids: Seq<u64>,
    name: Seq<char>,
    tags: Seq<Seq<char>>,
    day: DayKey,
    x: u64,
)
    ensures
        live_ids_spec(s, ids, name, tags, day).contains(x) <==> (ids.contains(x) && match lookup(
            s,
            x,
        ) {
            Some(e) => e.key() == (name, tags, day),
            None => false,
        }),
    decreases ids.len(),
{
    if ids.len() > 0 {
        lemma_live_ids_member(s, ids.drop_last(), name, tags, day, x);
        let rest = live_ids_spec(s, ids.drop_last(), name, tags, day);
        let live = live_ids_spec(s, ids, name, tags, day);
        if live.contains(x) {
            let i = choose|i: int| 0 <= i < live.len() && live[i] == x;
            if i < rest.len() {
                assert(rest[i] == x);
                assert(rest.contains(x));
                let j = choose|j: int| 0 <= j < ids.drop_last().len() && ids.drop_last()[j] == x;
                assert(ids[j] == x);
            } else {
                assert(x == ids.last());
                assert(ids[ids.len() - 1] == x);
            }
        }
        if ids.contains(x) && match lookup(s, x) {
            Some(e) => e.key() == (name, tags, day),
            None => false,
        } {
            let j = choose|j: int| 0 <= j < ids.len() && ids[j] == x;
            if j < ids.len() - 1 {
                assert(ids.drop_last()[j] == x);
                assert(ids.drop_last().contains(x));
                assert(rest.contains(x));
                let i = choose|i: int| 0 <= i < rest.len() && rest[i] == x;
                assert(live[i] == x);
            } else {
                assert(ids.last() == x);
                assert(live.last() == x);
            }
            assert(live.contains(x));
        }
    }
}

/// The live member ids of a group against the current store.
fn live_ids(store: &EntryStore, group: &TaskGroup) -> (r: Vec<u64>)
    ensures
        r@ == live_ids_spec(store@, group@.ids, group@.name, group@.tags, group@.day),
{
    let mut out: Vec<u64> = Vec::new();
    let mut k: usize = 0;
    while k < group.ids.len()
        invariant
            k <= group.ids@.len(),
            out@ == live_ids_spec(
                store@,
                group@.ids.take(k as int),
                group@.name,
                group@.tags,
                group@.day,
            ),
        decreases group.ids@.len() - k,
    {
        proof {
            assert(group@.ids.take(k as int + 1).drop_last() =~= group@.ids.take(k as int));
            assert(group@.ids.take(k as int + 1).last() == group@.ids[k as int]);
        }
        match store.get_one(group.ids[k]) {
            Some(e) => {
                if e.matches_key(&group.name, &group.tags, &group.day) {
                    out.push(group.ids[k]);
                }
            },
            None => {},
        }
        k = k + 1;
    }
    proof {
        assert(group@.ids.take(group.ids@.len() as int) =~= group@.ids);
    }
    out
}

/// Re-derive a group's membership from current stored values: keep
/// exactly the ids whose entry still matches the defining key; `None`
/// when no member remains.
pub fn refresh(store: &EntryStore, group: &TaskGroup) -> (r: Option<TaskGroup>)
    ensures
        ({
            let live = live_ids_spec(store@, group@.ids, group@.name, group@.tags, group@.day);
            &&& (r is Some <==> live.len() > 0)
            &&& (r matches Some(g) ==> g@.ids == live && g@.name == group@.name && g@.tags
                == group@.tags && g@.day == group@.day)
        }),
{
    let live = live_ids(store, group);
    if live.len() == 0 {
        None
    } else {
        Some(
            TaskGroup {
                ids: live,
                name: copy_name(&group.name),
                tags: clone_tag_list(&group.tags),
                day: group.day,
            },
        )
    }
}

/// A copy of a task name.
fn copy_name(s: &String) -> (r: String)
    ensures
        r@ == s@,
{
    s.clone()
}

/// What deleting a group leaves: every entry except those that carry one
/// of the group's ids and still match the defining key.
pub open spec fn delete_group_spec(
    s: Seq<EntryView>,
    ids: Seq<u64>,
    name: Seq<char>,
    tags: Seq<Seq<char>>,
    day: DayKey,
) -> Seq<EntryView>
    decreases s.len(),
{
    if s.len() == 0 {
        Seq::empty()
    } else {
        let rest = delete_group_spec(s.drop_last(), ids, name, tags, day);
        if ids.contains(s.last().id) && s.last().key() == (name, tags, day) {
            rest
        } else {
            rest.push(s.last())
        }
    }
}

/// In a store with unique ids, looking up a member's id finds that
/// member.
pub proof fn lemma_lookup_of_member(s: Seq<EntryView>, i: int)
    requires
        forall|a: int, b: int| 0 <= a < b < s.len() ==> s[a].id != s[b].id,
        0 <= i < s.len(),
    ensures
        lookup(s, s[i].id) == Some(s[i]),
    decreases i,
{
    crate::store::lemma_lookup_skip(s, s[i].id, i);
    assert(s.skip(i)[0] == s[i]);
    assert(s.skip(i).len() > 0);
}

/// Law: deleting a group removes exactly the entries that carry one of
/// the group's ids and still match the group's defining key at the time
/// of the call, and no entry outside that set.
pub proof fn lemma_delete_group_exact(
    s: Seq<EntryView>,
    ids: Seq<u64>,
    name: Seq<char>,
    tags: Seq<Seq<char>>,
    day: DayKey,
)
    requires
        forall|a: int, b: int| 0 <= a < b < s.len() ==> s[a].id != s[b].id,
    ensures
        remove_ids_spec(s, live_ids_spec(s, ids, name, tags, day)) == delete_group_spec(
            s,
            ids,
            name,
            tags,
            day,
        ),
{
    lemma_delete_group_rec(s, s, ids, name, tags, day);
}

/// Helper induction: the removal walks a suffix of the unique-id store
/// while the live list stays derived from the whole store.
proof fn lemma_delete_group_rec(
    whole: Seq<EntryView>,
    s: Seq<EntryView>,
    ids: Seq<u64>,
    name: Seq<char>,
    tags: Seq<Seq<char>>,
    day: DayKey,
)
    requires
        forall|a: int, b: int| 0 <= a < b < whole.len() ==> whole[a].id != whole[b].id,
        forall|i: int| 0 <= i < s.len() ==> exists|j: int|
            0 <= j < whole.len() && #[trigger] s[i] == whole[j],
    ensures
        remove_ids_spec(s, live_ids_spec(whole, ids, name, tags, day)) == delete_group_spec(
            s,
            ids,
            name,
            tags,
            day,
        ),
    decreases s.len(),
{
    let live = live_ids_spec(whole, ids, name, tags, day);
    if s.len() > 0 {
        assert(forall|i: int| 0 <= i < s.drop_last().len() ==> exists|j: int|
            0 <= j < whole.len() && #[trigger] s.drop_last()[i] == whole[j]);
        lemma_delete_group_rec(whole, s.drop_last(), ids, name, tags, day);
        let e = s.last();
        let j = choose|j: int| 0 <= j < whole.len() && s[s.len() - 1] == whole[j];
        lemma_lookup_of_member(whole, j);
        assert(lookup(whole, e.id) == Some(e));
        lemma_live_ids_member(whole, ids, name, tags, day, e.id);
        assert(live.contains(e.id) <==> (ids.contains(e.id) && e.key() == (name, tags, day)));
    }
}

/// Delete every current member of `group`: the group's id list is first
/// re-filtered against current stored values, so an entry that was moved
/// out of the group since it was formed is never deleted.
pub fn delete_group(store: &mut EntryStore, group: &TaskGroup) -> (r: Result<(), StoreError>)
    requires
        old(store).inv(),
    ensures
        final(store).inv(),
        final(store).creations() == old(store).creations(),
        r is Ok,
        final(store)@ == delete_group_spec(
            old(store)@,
            group@.ids,
            group@.name,
            group@.tags,
            group@.day,
        ),
{
    let live = live_ids(store, group);
    let r = store.delete_many(&live);
    proof {
        crate::store::lemma_store_ids_unique(*old(store));
        lemma_delete_group_exact(old(store)@, group@.ids, group@.name, group@.tags, group@.day);
    }
    r
}

/// The outcome of deleting one entry out of a group.
#[derive(Debug)]
pub enum DeleteOutcome {
    /// The deleted entry was the group's last member.
    GroupEmpty,
    /// The group keeps the listed members.
    GroupRefreshed(Vec<u64>),
}

/// Delete one entry, then report whether its group still has members:
/// `GroupEmpty` when none of the group's ids still matches the defining
/// key, else `GroupRefreshed` with the remaining member ids.
pub fn delete_single(store: &mut EntryStore, group: &TaskGroup, id: u64) -> (r: Result<
    DeleteOutcome,
    StoreError,
>)
    requires
        old(store).inv(),
    ensures
        final(store).inv(),
        final(store).creations() == old(store).creations(),
        r is Ok <==> contains_id(old(store)@, id),
        r is Ok ==> final(store)@ == crate::store::remove_id_spec(old(store)@, id),
        r is Err ==> final(store)@ == old(store)@ && r == Err::<DeleteOutcome, StoreError>(
            StoreError::NotFound,
        ),
        r matches Ok(out) ==> ({
            let live = live_ids_spec(
                final(store)@,
                group@.ids,
                group@.name,
                group@.tags,
                group@.day,
            );
            match out {
                DeleteOutcome::GroupEmpty => live.len() == 0,
                DeleteOutcome::GroupRefreshed(rest) => live.len() > 0 && rest@ == live,
            }
        }),
{
    match store.delete(id) {
        Err(e) => Err(e),
        Ok(()) => {
            let live = live_ids(store, group);
            if live.len() == 0 {
                Ok(DeleteOutcome::GroupEmpty)
            } else {
                Ok(DeleteOutcome::GroupRefreshed(live))
            }
        },
    }
}

/// `e` with its task name and tag list replaced.
pub open spec fn with_name_tags(e: EntryView, name: Seq<char>, tags: Seq<Seq<char>>) -> EntryView {
    EntryView { task_name: name, tags: tags, ..e }
}

/// `s` with name and tags replaced on every entry whose id is among
/// `ids`.
pub open spec fn group_rename_spec(
    s: Seq<EntryView>,
    ids: Seq<u64>,
    name: Seq<char>,
    tags: Seq<Seq<char>>,
) -> Seq<EntryView> {
    s.map_values(
        |e: EntryView|
            if ids.contains(e.id) {
                with_name_tags(e, name, tags)
            } else {
                e
            },
    )
}

/// Why a group rename was refused.
#[derive(Clone, Copy, PartialEq, Eq, Structural, Debug)]
pub enum RenameError {
    /// The new name trims to nothing; the store was not touched.
    NameRequired,
    /// A member id was unknown to the store; members before it were
    /// already written.
    Store(StoreError),
}

/// Rename and retag every member of `group`: the new name is trimmed,
/// the new tag text is normalized, and both are written to every id in
/// the group's list. An empty new name is refused before any write; an
/// unknown id stops the batch, keeping the writes already made.
pub fn rename_group(store: &mut EntryStore, group: &TaskGroup, new_name: &str, new_tags: &str)
    -> (r: Result<(), RenameError>)
    requires
        old(store).inv(),
    ensures
        final(store).inv(),
        final(store).creations() == old(store).creations(),
        r == Err::<(), RenameError>(RenameError::NameRequired) <==> trim_spec(new_name@).len()
            == 0,
        r == Err::<(), RenameError>(RenameError::NameRequired) ==> final(store)@ == old(store)@,
        r is Ok <==> (trim_spec(new_name@).len() > 0 && forall|k: int|
            0 <= k < group@.ids.len() ==> contains_id(old(store)@, #[trigger] group@.ids[k])),
        r is Ok ==> final(store)@ == group_rename_spec(
            old(store)@,
            group@.ids,
            trim_spec(new_name@),
            normalize_spec(new_tags@),
        ),
        r matches Err(RenameError::Store(e)) ==> e == StoreError::NotFound && exists|k: int|
            0 <= k < group@.ids.len() && !contains_id(old(store)@, #[trigger] group@.ids[k]) && (
            forall|j: int| 0 <= j < k ==> contains_id(old(store)@, group@.ids[j]))
            && final(store)@ == group_rename_spec(
                old(store)@,
                group@.ids.take(k),
                trim_spec(new_name@),
                normalize_spec(new_tags@),
            ),
{
    let trimmed = crate::tags::trim_str(new_name);
    if trimmed.as_str().unicode_len() == 0 {
        return Err(RenameError::NameRequired);
    }
    let ghost oldv = store@;
    let ghost nm = trim_spec(new_name@);
    let ghost tg = normalize_spec(new_tags@);
    let mut k: usize = 0;
    proof {
        assert(group@.ids.take(0) =~= Seq::<u64>::empty());
        assert(store@ =~~= group_rename_spec(oldv, group@.ids.take(0), nm, tg));
    }
    while k < group.ids.len()
        invariant
            store.inv(),
            store.creations() == old(store).creations(),
            k <= group@.ids.len(),
            trimmed@ == nm,
            nm == trim_spec(new_name@),
            tg == normalize_spec(new_tags@),
            nm.len() > 0,
            oldv == old(store)@,
            store@ == group_rename_spec(oldv, group@.ids.take(k as int), nm, tg),
            forall|j: int| 0 <= j < k ==> contains_id(oldv, #[trigger] group@.ids[j]),
        decreases group@.ids.len() - k,
    {
        let id = group.ids[k];
        let ghost pre = store@;
        proof {
            assert(pre.len() == oldv.len());
            assert(forall|i: int| 0 <= i < pre.len() ==> #[trigger] pre[i].id == oldv[i].id);
        }
        match store.update_task_name(id, trimmed.as_str()) {
            Err(e) => {
                proof {
                    if contains_id(oldv, id) {
                        let i = choose|i: int| 0 <= i < oldv.len() && oldv[i].id == id;
                        assert(pre[i].id == id);
                        assert(contains_id(pre, id));
                    }
                }
                return Err(RenameError::Store(e));
            },
            Ok(()) => {},
        }
        let ghost mid = store@;
        proof {
            let i = choose|i: int| 0 <= i < pre.len() && pre[i].id == id;
            assert(mid[i].id == pre[i].id);
            assert(contains_id(mid, id));
            assert(oldv[i].id == id);
            assert(contains_id(oldv, id));
        }
        match store.update_tags(id, new_tags) {
            Err(e) => {
                proof {
                    assert(false);
                }
                return Err(RenameError::Store(e));
            },
            Ok(()) => {},
        }
        proof {
            let cur = store@;
            let t1 = group@.ids.take(k as int);
            let t2 = group@.ids.take(k as int + 1);
            assert(t2 =~= t1.push(id));
            assert forall|i: int| 0 <= i < cur.len() implies cur[i] == group_rename_spec(
                oldv,
                t2,
                nm,
                tg,
            )[i] by {
                let e0 = oldv[i];
                assert(pre[i] == (if t1.contains(e0.id) {
                    with_name_tags(e0, nm, tg)
                } else {
                    e0
                }));
                assert(mid[i] == rename_one_spec(pre, id, nm)[i]);
                assert(cur[i] == retag_one_spec(mid, id, tg)[i]);
                if t1.contains(e0.id) {
                    let w = choose|w: int| 0 <= w < t1.len() && t1[w] == e0.id;
                    assert(t2[w] == e0.id);
                    assert(t2.contains(e0.id));
                }
                if e0.id == id {
                    assert(t2[t2.len() - 1] == id);
                    assert(t2.contains(e0.id));
                } else {
                    if t2.contains(e0.id) && !t1.contains(e0.id) {
                        let w = choose|w: int| 0 <= w < t2.len() && t2[w] == e0.id;
                        assert(w < t1.len() ==> t1[w] == e0.id);
                        assert(false);
                    }
                }
            }
            assert(store@ =~~= group_rename_spec(oldv, t2, nm, tg));
        }
        k = k + 1;
    }
    proof {
        assert(group@.ids.take(group@.ids.len() as int) =~= group@.ids);
    }
    Ok(())
}

/// Law: a rename moves membership with the entry. After a group rename,
/// a refresh over any id list containing a renamed member reports it
/// exactly under the key made of the new name, the new tags and the
/// entry's unchanged day; under any other key — the old group's key
/// included, wherever it differs — the member is no longer reported.
pub proof fn lemma_rename_moves_membership(
    s: Seq<EntryView>,
    gids: Seq<u64>,
    name: Seq<char>,
    tags: Seq<Seq<char>>,
    ids2: Seq<u64>,
    name2: Seq<char>,
    tags2: Seq<Seq<char>>,
    day2: DayKey,
    x: u64,
)
    requires
        forall|a: int, b: int| 0 <= a < b < s.len() ==> s[a].id != s[b].id,
        gids.contains(x),
        lookup(s, x) is Some,
    ensures
        ({
            let e = lookup(s, x)->Some_0;
            let s2 = group_rename_spec(s, gids, name, tags);
            live_ids_spec(s2, ids2, name2, tags2, day2).contains(x) <==> (ids2.contains(x) && name2
                == name && tags2 == tags && day2 == e.start_time.day_key())
        }),
{
    let e = lookup(s, x)->Some_0;
    let s2 = group_rename_spec(s, gids, name, tags);
    crate::store::lemma_lookup_props(s, x);
    let i = choose|i: int| 0 <= i < s.len() && s[i] == e;
    assert(s2[i] == with_name_tags(e, name, tags));
    assert(forall|j: int| 0 <= j < s2.len() ==> #[trigger] s2[j].id == s[j].id);
    assert forall|a: int, b: int| 0 <= a < b < s2.len() implies s2[a].id != s2[b].id by {
        assert(s2[a].id == s[a].id && s2[b].id == s[b].id);
    }
    lemma_lookup_of_member(s2, i);
    assert(lookup(s2, x) == Some(s2[i]));
    lemma_live_ids_member(s2, ids2, name2, tags2, day2, x);
    assert(s2[i].key() == (name, tags, e.start_time.day_key()));
}


/// `e` after the patch: each present field replaces the stored one.
pub open spec fn patched_entry(e: EntryView, p: PatchView) -> EntryView {
    EntryView {
        id: e.id,
        task_name: match p.name {
            Some(n) => n,
            None => e.task_name,
        },
        tags: match p.tags {
            Some(t) => t,
            None => e.tags,
        },
        start_time: match p.start {
            Some(t) => t,
            None => e.start_time,
        },
        stop_time: match p.stop {
            Some(t) => t,
            None => e.stop_time,
        },
    }
}

/// `s` with the patch applied to the entry carrying `id`.
pub open spec fn apply_patch_spec(s: Seq<EntryView>, id: u64, p: PatchView) -> Seq<EntryView> {
    s.map_values(
        |e: EntryView|
            if e.id == id {
                patched_entry(e, p)
            } else {
                e
            },
    )
}

/// The patch's times are compatible with the entry it is applied to: a
/// single edited endpoint is checked against the stored counterpart.
pub open spec fn patch_times_ok(e: EntryView, p: PatchView) -> bool {
    match (p.start, p.stop) {
        (Some(_), Some(_)) => true,
        (Some(a), None) => crate::time::ts_le(a, e.stop_time),
        (None, Some(b)) => crate::time::ts_le(e.start_time, b),
        (None, None) => true,
    }
}

/// Apply an approved patch to one entry, atomically: either every
/// present field is written, or — when the id is unknown or an edited
/// endpoint falls outside the stored counterpart — nothing is.
pub fn edit_single(store: &mut EntryStore, id: u64, patch: &EntryPatch) -> (r: Result<
    (),
    StoreError,
>)
    requires
        old(store).inv(),
        patch@.start matches Some(t) ==> t.wf(),
        patch@.stop matches Some(t) ==> t.wf(),
        match (patch@.start, patch@.stop) {
            (Some(a), Some(b)) => crate::time::ts_le(a, b),
            _ => true,
        },
        patch@.tags matches Some(tv) ==> canon_tags(tv),
    ensures
        final(store).inv(),
        final(store).creations() == old(store).creations(),
        r is Ok <==> (match lookup(old(store)@, id) {
            Some(e) => patch_times_ok(e, patch@),
            None => false,
        }),
        r is Ok ==> final(store)@ == apply_patch_spec(old(store)@, id, patch@),
        r is Err ==> final(store)@ == old(store)@,
        r == Err::<(), StoreError>(StoreError::NotFound) <==> !contains_id(old(store)@, id),
{
    let ghost oldv = store@;
    let (cur_start, cur_stop) = match store.get_one(id) {
        None => {
            return Err(StoreError::NotFound);
        },
        Some(e) => (e.start_time, e.stop_time),
    };
    proof {
        crate::store::lemma_lookup_props(oldv, id);
        crate::store::lemma_store_abs_inv(*old(store));
        let w = choose|w: int| 0 <= w < oldv.len() && oldv[w] == lookup(oldv, id)->Some_0;
        assert(oldv[w].inv());
    }
    let new_start = match patch.start {
        Some(t) => t,
        None => cur_start,
    };
    let new_stop = match patch.stop {
        Some(t) => t,
        None => cur_stop,
    };
    if !new_start.le(&new_stop) {
        return Err(StoreError::Constraint);
    }
    let ghost e0 = lookup(oldv, id)->Some_0;
    let r1 = store.update_times(id, new_start, new_stop);
    proof {
        assert(r1 is Ok);
    }
    let ghost s1 = store@;
    match patch.name {
        Some(ref n) => {
            proof {
                let i = choose|i: int| 0 <= i < oldv.len() && oldv[i].id == id;
                assert(s1[i].id == id);
            }
            let r2 = store.update_task_name(id, n.as_str());
            proof {
                assert(r2 is Ok);
            }
        },
        None => {},
    }
    let ghost s2 = store@;
    match patch.tags {
        Some(ref tv) => {
            proof {
                let i = choose|i: int| 0 <= i < oldv.len() && oldv[i].id == id;
                assert(s1[i].id == id);
                assert(s2[i].id == id);
            }
            let r3 = store.update_tags_list(id, tv);
            proof {
                assert(r3 is Ok);
            }
        },
        None => {},
    }
    proof {
        let cur = store@;
        assert forall|i: int| 0 <= i < cur.len() implies cur[i] == apply_patch_spec(
            oldv,
            id,
            patch@,
        )[i] by {
            if oldv[i].id == id {
                assert(e0 == oldv[i]);
            }
        }
        assert(store@ =~~= apply_patch_spec(oldv, id, patch@));
    }
    Ok(())
}


/// The edit request that a clone-as-new creation amounts to: the group's
/// name and optionally overridden tag text, with both time texts set.
pub open spec fn creation_req(
    name: Seq<char>,
    tags: Option<Seq<char>>,
    start_text: Seq<char>,
    stop_text: Seq<char>,
) -> ReqView {
    ReqView { name: Some(name), tags: tags, start_text: Some(start_text), stop_text: Some(stop_text) }
}

/// Create one new entry cloned from the group's defining name and
/// (optionally overridden) tags, with caller-supplied times validated as
/// a fresh creation: the name must not trim to nothing, both time texts
/// must parse, neither instant may lie in the future, and start must not
/// come after stop. Every violated rule is reported; on success the new
/// entry's id is returned.
pub fn add_similar(
    store: &mut EntryStore,
    group: &TaskGroup,
    start_text: &str,
    stop_text: &str,
    tags_override: Option<&String>,
    now: &Timestamp,
    p: Precision,
) -> (r: Result<u64, Vec<Rule>>)
    requires
        old(store).inv(),
        old(store).creations() < u64::MAX,
        now.wf(),
    ensures
        final(store).inv(),
        ({
            let rq = creation_req(
                group@.name,
                match tags_override {
                    Some(s) => Some(s@),
                    None => None,
                },
                start_text@,
                stop_text@,
            );
            &&& (r is Ok <==> accepted(rq, p, *now, *now, *now))
            &&& (r matches Ok(id) ==> id == old(store).creations() && final(store).creations()
                == old(store).creations() + 1 && final(store)@ == old(store)@.push(
                EntryView {
                    id: id,
                    task_name: trim_spec(group@.name),
                    tags: match tags_override {
                        Some(s) => normalize_spec(s@),
                        None => normalize_spec(crate::tags::render_spec(group@.tags)),
                    },
                    start_time: crate::time::text_fields(start_text@, p),
                    stop_time: crate::time::text_fields(stop_text@, p),
                },
            ))
            &&& (r matches Err(v) ==> v@ == violations_spec(rq, p, *now, *now, *now) && v@.len()
                > 0 && final(store)@ == old(store)@ && final(store).creations() == old(
                store,
            ).creations())
        }),
{
    let req = EditRequest {
        name: Some(group.name.clone()),
        tags: match tags_override {
            Some(s) => Some(s.clone()),
            None => None,
        },
        start_text: Some(String::from_str(start_text)),
        stop_text: Some(String::from_str(stop_text)),
    };
    match validate_edit(&req, now, now, now, p) {
        Err(v) => Err(v),
        Ok(patch) => {
            let start = match patch.start {
                Some(t) => t,
                None => {
                    proof {
                        assert(false);
                    }
                    *now
                },
            };
            let stop = match patch.stop {
                Some(t) => t,
                None => {
                    proof {
                        assert(false);
                    }
                    *now
                },
            };
            let name_t = crate::tags::trim_str(group.name.as_str());
            let id = match tags_override {
                Some(s) => store.create(name_t.as_str(), s.as_str(), start, stop),
                None => {
                    let raw = crate::tags::render(&group.tags);
                    store.create(name_t.as_str(), raw.as_str(), start, stop)
                },
            };
            Ok(id)
        },
    }
}

} // verus!
