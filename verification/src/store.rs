//! The stash store: a flat collection of entries, each keyed by a name and
//! a per-name index, carrying raw bytes and a creation timestamp.

use vstd::prelude::*;
use vstd::multiset::Multiset;
use crate::id::str_eq;

verus! {

/// One stored entry: a blob of bytes keyed by `(name, index)`, with the
/// creation time (nanoseconds since the Unix epoch) that ordering is
/// derived from.
pub struct Entry {
    pub name: String,
    pub index: u32,
    pub data: Vec<u8>,
    pub created: u64,
}

/// The mathematical image of an [`Entry`].
pub struct EntryView {
    pub name: Seq<char>,
    pub index: u32,
    pub data: Seq<u8>,
    pub created: u64,
}

impl View for Entry {
    type V = EntryView;

    open spec fn view(&self) -> EntryView {
        EntryView { name: self.name@, index: self.index, data: self.data@, created: self.created }
    }
}

/// The views of a sequence of entries.
pub open spec fn views_of(s: Seq<Entry>) -> Seq<EntryView> {
    Seq::new(s.len(), |i: int| s[i]@)
}

/// Some entry of `s` is keyed `(name, index)`.
pub open spec fn has_entry(s: Seq<EntryView>, name: Seq<char>, index: u32) -> bool {
    exists|i: int| 0 <= i < s.len() && s[i].name == name && s[i].index == index
}

/// Some entry of `s` bears `name`.
pub open spec fn has_name(s: Seq<EntryView>, name: Seq<char>) -> bool {
    exists|i: int| 0 <= i < s.len() && s[i].name == name
}

/// No two entries of `s` share a key.
pub open spec fn unique_ids(s: Seq<EntryView>) -> bool {
    forall|i: int, j: int|
        0 <= i < j < s.len() ==> !(s[i].name == s[j].name && s[i].index == s[j].index)
}

/// The position of the entry keyed `(name, index)`; meaningful when
/// `has_entry` holds, and then unique under `unique_ids`.
pub open spec fn entry_pos(s: Seq<EntryView>, name: Seq<char>, index: u32) -> int {
    choose|i: int| 0 <= i < s.len() && s[i].name == name && s[i].index == index
}

/// The bytes of the entry keyed `(name, index)`; meaningful when
/// `has_entry` holds.
pub open spec fn entry_data(s: Seq<EntryView>, name: Seq<char>, index: u32) -> Seq<u8> {
    s[entry_pos(s, name, index)].data
}

/// What a lookup of `(name, index)` yields: the entry's bytes, or nothing
/// when no such entry exists.
pub open spec fn get_model(s: Seq<EntryView>, name: Seq<char>, index: u32) -> Option<Seq<u8>> {
    if has_entry(s, name, index) {
        Some(entry_data(s, name, index))
    } else {
        None
    }
}

/// The index a push of `name` would assign: one above the greatest index
/// present for `name`, or 0 where none is.
pub open spec fn next_index(s: Seq<EntryView>, name: Seq<char>) -> nat
    decreases s.len(),
{
    if s.len() == 0 {
        0
    } else {
        let rest = next_index(s.drop_last(), name);
        if s.last().name == name && s.last().index + 1 > rest {
            (s.last().index + 1) as nat
        } else {
            rest
        }
    }
}

/// The greatest index present for `name`; meaningful when `has_name`
/// holds.
pub open spec fn newest_of(s: Seq<EntryView>, name: Seq<char>) -> u32 {
    (next_index(s, name) - 1) as u32
}

/// The store after a push: the new entry, keyed with the next index for
/// its name, in front of everything already present.
pub open spec fn push_model(
    s: Seq<EntryView>,
    name: Seq<char>,
    data: Seq<u8>,
    created: u64,
) -> Seq<EntryView> {
    seq![
        EntryView { name, index: next_index(s, name) as u32, data, created },
    ] + s
}

/// What a pop of `name` returns: the bytes of its newest entry, or
/// nothing when the name is absent.
pub open spec fn pop_result(s: Seq<EntryView>, name: Seq<char>) -> Option<Seq<u8>> {
    if has_name(s, name) {
        Some(entry_data(s, name, newest_of(s, name)))
    } else {
        None
    }
}

/// The store after the entry keyed `(name, index)` is removed; unchanged
/// when no such entry exists.
pub open spec fn remove_model(s: Seq<EntryView>, name: Seq<char>, index: u32) -> Seq<EntryView> {
    if has_entry(s, name, index) {
        s.remove(entry_pos(s, name, index))
    } else {
        s
    }
}

/// The store after a pop of `name`: its newest entry removed, or
/// unchanged when the name is absent.
pub open spec fn pop_model(s: Seq<EntryView>, name: Seq<char>) -> Seq<EntryView> {
    if has_name(s, name) {
        remove_model(s, name, newest_of(s, name))
    } else {
        s
    }
}

/// The store after `clear`: empty.
pub open spec fn clear_model() -> Seq<EntryView> {
    Seq::<EntryView>::empty()
}

/// What `list` yields: one `(name, index, created)` line per entry, in
/// store order.
pub open spec fn listing(s: Seq<EntryView>) -> Seq<(Seq<char>, u32, u64)> {
    Seq::new(s.len(), |i: int| (s[i].name, s[i].index, s[i].created))
}

/// `next_index` is 0 exactly for an absent name, exceeds every index
/// present for the name, and one below it an entry is present.
pub proof fn lemma_next_index(s: Seq<EntryView>, name: Seq<char>)
    ensures
        next_index(s, name) == 0 <==> !has_name(s, name),
        forall|i: int|
            0 <= i < s.len() && s[i].name == name ==> (s[i].index as nat) < next_index(s, name),
        has_name(s, name) ==> has_entry(s, name, newest_of(s, name)),
        next_index(s, name) <= u32::MAX + 1,
    decreases s.len(),
{
    if s.len() > 0 {
        let t = s.drop_last();
        lemma_next_index(t, name);
        assert(forall|i: int| 0 <= i < s.len() - 1 ==> s[i] == t[i]);
        if has_name(t, name) {
            let w = choose|i: int| 0 <= i < t.len() && t[i].name == name;
            assert(s[w].name == name);
            assert(has_name(s, name));
        }
        if s.last().name == name && s.last().index + 1 > next_index(t, name) {
            assert(s[s.len() - 1].name == name);
            assert(s[s.len() - 1].index == newest_of(s, name));
            assert(has_entry(s, name, newest_of(s, name)));
        } else {
            if has_name(t, name) {
                let w = choose|i: int|
                    0 <= i < t.len() && t[i].name == name && t[i].index == newest_of(t, name);
                assert(t[w].name == name && t[w].index == newest_of(t, name));
                assert(s[w].name == name && s[w].index == newest_of(s, name));
                assert(has_entry(s, name, newest_of(s, name)));
            }
        }
        if has_name(s, name) && !has_name(t, name) {
            let w = choose|i: int| 0 <= i < s.len() && s[i].name == name;
            if w < s.len() - 1 {
                assert(t[w].name == name);
            }
            assert(s.last().name == name);
        }
    }
}

/// Prepending an entry shifts the views of the rest by one.
proof fn lemma_views_insert_front(s: Seq<Entry>, e: Entry)
    ensures
        views_of(s.insert(0, e)) =~= seq![e@] + views_of(s),
{
}

/// Removing an entry removes its view.
proof fn lemma_views_remove(s: Seq<Entry>, p: int)
    requires
        0 <= p < s.len(),
    ensures
        views_of(s.remove(p)) =~= views_of(s).remove(p),
{
    assert forall|i: int| 0 <= i < s.len() - 1 implies views_of(s.remove(p))[i] == views_of(
        s,
    ).remove(p)[i] by {
        if i < p {
            assert(s.remove(p)[i] == s[i]);
        } else {
            assert(s.remove(p)[i] == s[i + 1]);
        }
    }
}

/// Removing an entry keeps the remaining keys unique.
proof fn lemma_unique_remove(s: Seq<EntryView>, p: int)
    requires
        unique_ids(s),
        0 <= p < s.len(),
    ensures
        unique_ids(s.remove(p)),
{
    let t = s.remove(p);
    assert forall|i: int, j: int| 0 <= i < j < t.len() implies !(t[i].name == t[j].name && t[i].index
        == t[j].index) by {
        let i2: int = if i < p {
            i
        } else {
            i + 1
        };
        let j2: int = if j < p {
            j
        } else {
            j + 1
        };
        assert(t[i] == s[i2]);
        assert(t[j] == s[j2]);
        assert(0 <= i2 < j2 < s.len());
    }
}

/// A push keeps the keys unique: the new entry's index lies above every
/// index its name already carries.
pub proof fn lemma_push_model_wf(s: Seq<EntryView>, name: Seq<char>, data: Seq<u8>, created: u64)
    requires
        unique_ids(s),
        next_index(s, name) <= u32::MAX,
    ensures
        unique_ids(push_model(s, name, data, created)),
{
    lemma_next_index(s, name);
    let ps = push_model(s, name, data, created);
    assert forall|i: int, j: int| 0 <= i < j < ps.len() implies !(ps[i].name == ps[j].name
        && ps[i].index == ps[j].index) by {
        if i == 0 {
            assert(ps[j] == s[j - 1]);
            if s[j - 1].name == name {
                assert((s[j - 1].index as nat) < next_index(s, name));
            }
        } else {
            assert(ps[i] == s[i - 1]);
            assert(ps[j] == s[j - 1]);
        }
    }
}

/// Under unique keys, the position of the entry keyed `(name, index)` is
/// the one position holding that key.
pub proof fn lemma_entry_pos_unique(s: Seq<EntryView>, name: Seq<char>, index: u32, j: int)
    requires
        unique_ids(s),
        0 <= j < s.len(),
        s[j].name == name,
        s[j].index == index,
    ensures
        entry_pos(s, name, index) == j,
        has_entry(s, name, index),
{
    assert(has_entry(s, name, index));
    let p = entry_pos(s, name, index);
    assert(0 <= p < s.len() && s[p].name == name && s[p].index == index);
    if p < j {
        assert(!(s[p].name == s[j].name && s[p].index == s[j].index));
    } else if j < p {
        assert(!(s[j].name == s[p].name && s[j].index == s[p].index));
    }
}

/// The next index of a store with one entry in front: the front entry
/// raises it where it bears the name and a high enough index.
pub proof fn lemma_next_index_prepend(e: EntryView, s: Seq<EntryView>, name: Seq<char>)
    ensures
        next_index(seq![e] + s, name) == if e.name == name && e.index + 1 > next_index(s, name) {
            (e.index + 1) as nat
        } else {
            next_index(s, name)
        },
    decreases s.len(),
{
    let ps = seq![e] + s;
    if s.len() == 0 {
        assert(ps =~= seq![e]);
        assert(ps.last() == e);
        assert(ps.drop_last() =~= Seq::<EntryView>::empty());
        assert(next_index(ps.drop_last(), name) == 0);
        assert(next_index(s, name) == 0);
    } else {
        let t = s.drop_last();
        assert(ps.drop_last() =~= seq![e] + t);
        assert(ps.last() == s.last());
        lemma_next_index_prepend(e, t, name);
        assert(next_index(ps, name) == (if ps.last().name == name && ps.last().index + 1
            > next_index(ps.drop_last(), name) {
            (ps.last().index + 1) as nat
        } else {
            next_index(ps.drop_last(), name)
        }));
        assert(next_index(s, name) == (if s.last().name == name && s.last().index + 1 > next_index(
            t,
            name,
        ) {
            (s.last().index + 1) as nat
        } else {
            next_index(t, name)
        }));
    }
}

/// Pushes assign strictly increasing indices per name, starting at 0: a
/// name not yet present gets index 0, every push lands above every index
/// its name already carries, and it raises the name's next index by one.
pub proof fn lemma_push_indices_increase(
    s: Seq<EntryView>,
    name: Seq<char>,
    data: Seq<u8>,
    created: u64,
)
    requires
        next_index(s, name) <= u32::MAX,
    ensures
        !has_name(s, name) ==> next_index(s, name) == 0,
        forall|i: int|
            0 <= i < s.len() && s[i].name == name ==> (s[i].index as nat) < next_index(s, name),
        next_index(push_model(s, name, data, created), name) == next_index(s, name) + 1,
{
    lemma_next_index(s, name);
    let e = EntryView { name, index: next_index(s, name) as u32, data, created };
    lemma_next_index_prepend(e, s, name);
}

/// Popping right after a push returns exactly the pushed bytes and
/// restores the store as it was; when the name had no other entry, a
/// further pop finds nothing.
pub proof fn lemma_pop_after_push(s: Seq<EntryView>, name: Seq<char>, data: Seq<u8>, created: u64)
    requires
        unique_ids(s),
        next_index(s, name) <= u32::MAX,
    ensures
        pop_result(push_model(s, name, data, created), name) == Some(data),
        pop_model(push_model(s, name, data, created), name) == s,
        !has_name(s, name) ==> pop_result(s, name) is None,
{
    lemma_next_index(s, name);
    lemma_push_model_wf(s, name, data, created);
    let e = EntryView { name, index: next_index(s, name) as u32, data, created };
    lemma_next_index_prepend(e, s, name);
    let ps = push_model(s, name, data, created);
    assert(ps[0] == e);
    assert(has_name(ps, name));
    assert(next_index(ps, name) == next_index(s, name) + 1);
    assert(newest_of(ps, name) == e.index);
    lemma_entry_pos_unique(ps, name, e.index, 0);
    assert(pop_result(ps, name) == Some(data));
    assert(ps.remove(0) =~= s);
}

/// A lookup is a function of the store alone, so repeated lookups agree;
/// an entry survives pushes, which assign only fresh keys; once the entry
/// is deleted, the lookup yields nothing.
pub proof fn lemma_get_stable(
    s: Seq<EntryView>,
    name: Seq<char>,
    index: u32,
    name2: Seq<char>,
    data2: Seq<u8>,
    created2: u64,
)
    requires
        unique_ids(s),
        next_index(s, name2) <= u32::MAX,
    ensures
        has_entry(s, name, index) ==> get_model(push_model(s, name2, data2, created2), name, index)
            == get_model(s, name, index),
        get_model(remove_model(s, name, index), name, index) is None,
{
    lemma_next_index(s, name2);
    lemma_push_model_wf(s, name2, data2, created2);
    let ps = push_model(s, name2, data2, created2);
    if has_entry(s, name, index) {
        let p = entry_pos(s, name, index);
        assert(0 <= p < s.len() && s[p].name == name && s[p].index == index);
        assert(ps[p + 1] == s[p]);
        if name2 == name {
            assert((s[p].index as nat) < next_index(s, name2));
        }
        lemma_entry_pos_unique(ps, name, index, p + 1);
        assert(get_model(ps, name, index) == get_model(s, name, index));
    }
    if has_entry(s, name, index) {
        let p = entry_pos(s, name, index);
        let rm = s.remove(p);
        assert forall|q: int| 0 <= q < rm.len() implies !(rm[q].name == name && rm[q].index
            == index) by {
            let q2: int = if q < p {
                q
            } else {
                q + 1
            };
            assert(rm[q] == s[q2]);
            if q2 < p {
                assert(!(s[q2].name == s[p].name && s[q2].index == s[p].index));
            } else {
                assert(!(s[p].name == s[q2].name && s[p].index == s[q2].index));
            }
        }
        assert(!has_entry(rm, name, index));
    }
}

/// A cleared store lists nothing.
pub proof fn lemma_clear_then_list()
    ensures
        listing(clear_model()) =~= Seq::<(Seq<char>, u32, u64)>::empty(),
{
}

/// Appending an entry appends its view.
proof fn lemma_views_push(s: Seq<Entry>, e: Entry)
    ensures
        views_of(s.push(e)) =~= views_of(s).push(e@),
{
}

/// `s` is ordered newest first: creation times never increase.
pub open spec fn sorted_newest_first(s: Seq<EntryView>) -> bool {
    forall|i: int, j: int| 0 <= i <= j < s.len() ==> s[i].created >= s[j].created
}

/// Moving one element from `rest` to the end of `out` leaves the combined
/// contents unchanged.
proof fn lemma_multiset_transfer(
    out_s: Seq<EntryView>,
    rest_s: Seq<EntryView>,
    p: int,
    total: Multiset<EntryView>,
)
    requires
        0 <= p < rest_s.len(),
        out_s.to_multiset().add(rest_s.to_multiset()) == total,
    ensures
        out_s.push(rest_s[p]).to_multiset().add(rest_s.remove(p).to_multiset()) == total,
{
    broadcast use vstd::seq_lib::group_to_multiset_ensures;
    broadcast use vstd::multiset::group_multiset_axioms;

    let e = rest_s[p];
    assert(rest_s.contains(e));
    assert(rest_s.to_multiset().count(e) > 0);
    assert(out_s.push(e).to_multiset() =~= out_s.to_multiset().insert(e));
    assert(rest_s.remove(p).to_multiset() =~= rest_s.to_multiset().remove(e));
    assert(out_s.push(e).to_multiset().add(rest_s.remove(p).to_multiset()) =~= total);
}

/// An empty collection adds nothing, on either side.
proof fn lemma_multiset_add_empty(a: Multiset<EntryView>, b_s: Seq<EntryView>)
    requires
        b_s.len() == 0,
    ensures
        a.add(b_s.to_multiset()) =~= a,
        b_s.to_multiset().add(a) =~= a,
{
    broadcast use vstd::seq_lib::group_to_multiset_ensures;
    broadcast use vstd::multiset::group_multiset_axioms;

    assert(forall|x: EntryView| b_s.to_multiset().count(x) == 0);
}

/// Orders entries by creation time, newest first, keeping exactly the
/// given entries.
pub fn sort_newest_first(entries: Vec<Entry>) -> (r: Vec<Entry>)
    ensures
        sorted_newest_first(views_of(r@)),
        views_of(r@).to_multiset() == views_of(entries@).to_multiset(),
{
    let ghost total = views_of(entries@).to_multiset();
    let mut rest = entries;
    let mut out: Vec<Entry> = Vec::new();
    proof {
        lemma_multiset_add_empty(views_of(rest@).to_multiset(), views_of(out@));
    }
    while rest.len() > 0
        invariant
            sorted_newest_first(views_of(out@)),
            views_of(out@).to_multiset().add(views_of(rest@).to_multiset()) == total,
            total == views_of(entries@).to_multiset(),
            forall|i: int, j: int|
                0 <= i < out@.len() && 0 <= j < rest@.len() ==> out@[i].created >= rest@[
                    j
                ].created,
        decreases rest.len(),
    {
        let mut p: usize = 0;
        let mut k: usize = 1;
        while k < rest.len()
            invariant
                0 < rest@.len(),
                p < k,
                k <= rest@.len(),
                forall|i: int| 0 <= i < k ==> rest@[i].created <= rest@[p as int].created,
            decreases rest@.len() - k,
        {
            if rest[k].created > rest[p].created {
                p = k;
            }
            k = k + 1;
        }
        proof {
            lemma_views_remove(rest@, p as int);
            lemma_views_push(out@, rest@[p as int]);
            lemma_multiset_transfer(views_of(out@), views_of(rest@), p as int, total);
        }
        let ghost old_out = out@;
        let ghost old_rest = rest@;
        let e = rest.remove(p);
        out.push(e);
        proof {
            assert(views_of(out@) =~= views_of(old_out).push(old_rest[p as int]@));
            assert(views_of(rest@) =~= views_of(old_rest).remove(p as int));
            assert forall|i: int, j: int|
                0 <= i <= j < out@.len() implies views_of(out@)[i].created >= views_of(
                out@,
            )[j].created by {
                if j == out@.len() - 1 && i < j {
                    assert(views_of(old_out)[i].created >= old_rest[p as int]@.created);
                }
            }
            assert forall|i: int, j: int|
                0 <= i < out@.len() && 0 <= j < rest@.len() implies out@[i].created >= rest@[
                j
            ].created by {
                let j2: int = if j < p {
                    j
                } else {
                    j + 1
                };
                assert(rest@[j] == old_rest[j2]);
                if i < out@.len() - 1 {
                    assert(out@[i] == old_out[i]);
                } else {
                    assert(out@[i] == old_rest[p as int]);
                    assert(old_rest[j2].created <= old_rest[p as int].created);
                }
            }
        }
    }
    proof {
        lemma_multiset_add_empty(views_of(out@).to_multiset(), views_of(rest@));
    }
    out
}

/// Builds a store from entries read back from the stash directory,
/// keeping their order. Fails exactly when two entries share a key.
pub fn from_entries(entries: Vec<Entry>) -> (r: Option<StashStore>)
    ensures
        r is Some <==> unique_ids(views_of(entries@)),
        match r {
            Some(st) => st@ == views_of(entries@) && st.wf(),
            None => !unique_ids(views_of(entries@)),
        },
{
    let n = entries.len();
    let mut i: usize = 0;
    while i < n
        invariant
            n == entries@.len(),
            i <= n,
            forall|a: int, b: int|
                0 <= a < b < n && a < i ==> !(views_of(entries@)[a].name == views_of(entries@)[
                    b
                ].name && views_of(entries@)[a].index == views_of(entries@)[b].index),
        decreases n - i,
    {
        let mut j: usize = i + 1;
        while j < n
            invariant
                n == entries@.len(),
                i < j <= n,
                forall|a: int, b: int|
                    0 <= a < b < n && a < i ==> !(views_of(entries@)[a].name == views_of(entries@)[
                        b
                    ].name && views_of(entries@)[a].index == views_of(entries@)[b].index),
                forall|b: int|
                    i < b < j ==> !(views_of(entries@)[i as int].name == views_of(entries@)[b].name
                        && views_of(entries@)[i as int].index == views_of(entries@)[b].index),
            decreases n - j,
        {
            if entries[i].index == entries[j].index && str_eq(
                entries[i].name.as_str(),
                entries[j].name.as_str(),
            ) {
                proof {
                    let vs = views_of(entries@);
                    assert(vs[i as int].name == vs[j as int].name);
                    assert(vs[i as int].index == vs[j as int].index);
                    assert(!unique_ids(vs));
                }
                return None;
            }
            j = j + 1;
        }
        i = i + 1;
    }
    let st = StashStore { entries };
    Some(st)
}

/// A verified in-memory stash store: the entries of the stash directory,
/// newest first, each keyed by `(name, index)`.
pub struct StashStore {
    entries: Vec<Entry>,
}

impl View for StashStore {
    type V = Seq<EntryView>;

    closed spec fn view(&self) -> Seq<EntryView> {
        views_of(self.entries@)
    }
}

impl StashStore {
    /// The store's invariant: no two entries share a key.
    pub open spec fn wf(self) -> bool {
        unique_ids(self@)
    }

    /// Creates an empty store.
    pub fn new() -> (r: StashStore)
        ensures
            r@ == clear_model(),
            r.wf(),
    {
        let r = StashStore { entries: Vec::new() };
        proof {
            assert(r@ =~= clear_model());
        }
        r
    }

    /// Removes every entry.
    pub fn clear(&mut self)
        ensures
            final(self)@ == clear_model(),
            final(self).wf(),
    {
        self.entries.clear();
        proof {
            assert(self@ =~= clear_model());
        }
    }

    /// The position of the newest (highest-index) entry bearing `name`,
    /// or nothing when the name is absent.
    fn newest_pos(&self, name: &str) -> (r: Option<usize>)
        ensures
            r is Some <==> has_name(self@, name@),
            match r {
                Some(p) => p < self@.len() && self@[p as int].name == name@ && self@[p as int].index
                    == newest_of(self@, name@) && self@[p as int].index as nat + 1 == next_index(
                    self@,
                    name@,
                ),
                None => next_index(self@, name@) == 0,
            },
    {
        let ghost vs = self@;
        let n = self.entries.len();
        let mut best: Option<usize> = None;
        let mut j: usize = 0;
        while j < n
            invariant
                n == self.entries@.len(),
                vs == self@,
                vs.len() == n,
                j <= n,
                match best {
                    None => next_index(vs.take(j as int), name@) == 0,
                    Some(p) => p < j && vs[p as int].name == name@ && vs[p as int].index as nat + 1
                        == next_index(vs.take(j as int), name@),
                },
            decreases n - j,
        {
            proof {
                assert(vs.take(j + 1).drop_last() =~= vs.take(j as int));
                assert(vs.take(j + 1).last() == vs[j as int]);
            }
            let matches_name = str_eq(self.entries[j].name.as_str(), name);
            match best {
                None => {
                    if matches_name {
                        best = Some(j);
                    }
                },
                Some(p) => {
                    if matches_name && self.entries[j].index > self.entries[p].index {
                        best = Some(j);
                    }
                },
            }
            j = j + 1;
        }
        proof {
            assert(vs.take(n as int) =~= vs);
            lemma_next_index(vs, name@);
        }
        best
    }

    /// The greatest index currently assigned to `name`, or nothing when
    /// the name is absent.
    pub fn newest_index(&self, name: &str) -> (r: Option<u32>)
        ensures
            r is Some <==> has_name(self@, name@),
            match r {
                Some(m) => m == newest_of(self@, name@) && m as nat + 1 == next_index(
                    self@,
                    name@,
                ),
                None => next_index(self@, name@) == 0,
            },
    {
        match self.newest_pos(name) {
            Some(p) => Some(self.entries[p].index),
            None => None,
        }
    }

    /// Stores `data` under `name`, assigning the next free index for that
    /// name, and returns the index. The new entry stands in front of the
    /// older ones. A push never overwrites: its index lies above every
    /// index its name already carries.
    pub fn push(&mut self, name: &str, data: Vec<u8>, created: u64) -> (idx: u32)
        requires
            next_index(old(self)@, name@) <= u32::MAX,
        ensures
            idx as nat == next_index(old(self)@, name@),
            final(self)@ == push_model(old(self)@, name@, data@, created),
            old(self).wf() ==> final(self).wf(),
    {
        proof {
            lemma_next_index(self@, name@);
            if self.wf() {
                lemma_push_model_wf(self@, name@, data@, created);
            }
        }
        let idx: u32 = match self.newest_index(name) {
            Some(m) => m + 1,
            None => 0,
        };
        let entry = Entry { name: name.to_owned(), index: idx, data, created };
        proof {
            lemma_views_insert_front(self.entries@, entry);
        }
        self.entries.insert(0, entry);
        proof {
            assert(self@ =~= push_model(old(self)@, name@, entry.data@, entry.created));
        }
        idx
    }

    /// The bytes stored under exactly `(name, index)`, or nothing when no
    /// such entry exists.
    pub fn get(&self, name: &str, index: u32) -> (r: Option<&Vec<u8>>)
        requires
            self.wf(),
        ensures
            r is Some <==> has_entry(self@, name@, index),
            match r {
                Some(d) => get_model(self@, name@, index) == Some(d@),
                None => get_model(self@, name@, index) is None,
            },
    {
        let n = self.entries.len();
        let mut j: usize = 0;
        while j < n
            invariant
                self.wf(),
                n == self.entries@.len(),
                j <= n,
                forall|i: int|
                    0 <= i < j ==> !(self@[i].name == name@ && self@[i].index == index),
            decreases n - j,
        {
            if str_eq(self.entries[j].name.as_str(), name) && self.entries[j].index == index {
                proof {
                    lemma_entry_pos_unique(self@, name@, index, j as int);
                }
                return Some(&self.entries[j].data);
            }
            j = j + 1;
        }
        assert(!has_entry(self@, name@, index));
        None
    }

    /// The bytes of the newest entry bearing `name`, or nothing when the
    /// name is absent.
    pub fn get_newest(&self, name: &str) -> (r: Option<&Vec<u8>>)
        requires
            self.wf(),
        ensures
            r is Some <==> has_name(self@, name@),
            match r {
                Some(d) => pop_result(self@, name@) == Some(d@),
                None => pop_result(self@, name@) is None,
            },
    {
        match self.newest_pos(name) {
            Some(p) => {
                proof {
                    lemma_entry_pos_unique(self@, name@, newest_of(self@, name@), p as int);
                }
                Some(&self.entries[p].data)
            },
            None => None,
        }
    }

    /// Removes the newest entry bearing `name` and returns its bytes, or
    /// does nothing and returns nothing when the name is absent.
    pub fn pop(&mut self, name: &str) -> (r: Option<Vec<u8>>)
        requires
            old(self).wf(),
        ensures
            final(self)@ == pop_model(old(self)@, name@),
            final(self).wf(),
            r is Some <==> has_name(old(self)@, name@),
            match r {
                Some(d) => pop_result(old(self)@, name@) == Some(d@),
                None => pop_result(old(self)@, name@) is None,
            },
    {
        match self.newest_pos(name) {
            Some(p) => {
                proof {
                    lemma_entry_pos_unique(self@, name@, newest_of(self@, name@), p as int);
                    lemma_views_remove(self.entries@, p as int);
                    lemma_unique_remove(self@, p as int);
                }
                let e = self.entries.remove(p);
                Some(e.data)
            },
            None => None,
        }
    }

    /// Removes the entry keyed exactly `(name, index)`. Returns whether
    /// such an entry was present; when none was, the store is unchanged.
    pub fn delete(&mut self, name: &str, index: u32) -> (found: bool)
        requires
            old(self).wf(),
        ensures
            final(self)@ == remove_model(old(self)@, name@, index),
            final(self).wf(),
            found <==> has_entry(old(self)@, name@, index),
    {
        let n = self.entries.len();
        let mut j: usize = 0;
        while j < n
            invariant
                self.wf(),
                n == self.entries@.len(),
                j <= n,
                old(self) == self,
                forall|i: int|
                    0 <= i < j ==> !(self@[i].name == name@ && self@[i].index == index),
            decreases n - j,
        {
            if str_eq(self.entries[j].name.as_str(), name) && self.entries[j].index == index {
                proof {
                    lemma_entry_pos_unique(self@, name@, index, j as int);
                    lemma_views_remove(self.entries@, j as int);
                    lemma_unique_remove(self@, j as int);
                }
                self.entries.remove(j);
                return true;
            }
            j = j + 1;
        }
        assert(!has_entry(self@, name@, index));
        false
    }

    /// One `(name, index, created)` line per entry, in store order,
    /// newest first.
    pub fn list(&self) -> (r: Vec<(String, u32, u64)>)
        ensures
            r@.len() == listing(self@).len(),
            forall|i: int| 0 <= i < r@.len() ==> (r@[i].0@, r@[i].1, r@[i].2) == listing(self@)[i],
    {
        let n = self.entries.len();
        let mut r: Vec<(String, u32, u64)> = Vec::new();
        let mut j: usize = 0;
        while j < n
            invariant
                n == self.entries@.len(),
                j <= n,
                r@.len() == j,
                forall|i: int| 0 <= i < j ==> (r@[i].0@, r@[i].1, r@[i].2) == listing(self@)[i],
            decreases n - j,
        {
            r.push(
                (self.entries[j].name.clone(), self.entries[j].index, self.entries[j].created),
            );
            j = j + 1;
        }
        r
    }
}

} // verus!
