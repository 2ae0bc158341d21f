//! The in-memory event store: a mapping from positive numeric identifiers to
//! event titles, kept internally as a vector sorted by identifier, with an
//! auto-incrementing identifier policy (`1 + max(existing ids)`, or `1` when
//! the store is empty).

use vstd::prelude::*;

verus! {

/// An event record: an optional numeric identifier and a title.
/// The identifier is absent on input to a create operation and always
/// present on records handed out by the store.
pub struct Event {
    pub id: Option<usize>,
    pub title: String,
}

/// The event store. Entries are kept sorted by strictly increasing
/// identifier; the abstract content is the map from identifier to title.
pub struct EventStore {
    entries: Vec<(usize, String)>,
}

/// Identifiers are strictly increasing along the sequence of entries
/// (hence pairwise distinct).
pub open spec fn sorted_by_id(s: Seq<(usize, Seq<char>)>) -> bool {
    forall|i: int, j: int|
        0 <= i < j < s.len() ==> (#[trigger] s[i]).0 < (#[trigger] s[j]).0
}

/// The mapping described by a sequence of (identifier, title) pairs;
/// later pairs win, though a well-formed store never repeats a key.
pub open spec fn entries_map(s: Seq<(usize, Seq<char>)>) -> Map<usize, Seq<char>>
    decreases s.len(),
{
    if s.len() == 0 {
        Map::empty()
    } else {
        entries_map(s.drop_last()).insert(s.last().0, s.last().1)
    }
}

/// `id` is the identifier the store assigns next, given content `m`:
/// strictly above every identifier in use, and exactly `1 + max(existing)`
/// (`1` when `m` is empty).
pub open spec fn is_next_id(m: Map<usize, Seq<char>>, id: usize) -> bool {
    &&& id >= 1
    &&& forall|k: usize| #[trigger] m.dom().contains(k) ==> k < id
    &&& (id == 1 || m.dom().contains((id - 1) as usize))
}

/// `s` with every pair keyed `id` dropped, order of the rest kept.
pub open spec fn remove_id(s: Seq<(usize, Seq<char>)>, id: usize) -> Seq<(usize, Seq<char>)>
    decreases s.len(),
{
    if s.len() == 0 {
        Seq::empty()
    } else if s.last().0 == id {
        remove_id(s.drop_last(), id)
    } else {
        remove_id(s.drop_last(), id).push(s.last())
    }
}

/// A key is in the map of a pair sequence exactly when some pair carries it.
pub proof fn lemma_entries_map_dom(s: Seq<(usize, Seq<char>)>, k: usize)
    ensures
        entries_map(s).dom().contains(k) <==> exists|i: int|
            0 <= i < s.len() && (#[trigger] s[i]).0 == k,
    decreases s.len(),
{
    if s.len() > 0 {
        lemma_entries_map_dom(s.drop_last(), k);
        if s.last().0 == k {
            assert(s[s.len() - 1].0 == k);
        } else {
            if exists|i: int| 0 <= i < s.len() && (#[trigger] s[i]).0 == k {
                let i = choose|i: int| 0 <= i < s.len() && (#[trigger] s[i]).0 == k;
                assert(s.drop_last()[i] == s[i]);
            }
            if exists|i: int| 0 <= i < s.drop_last().len() && (#[trigger] s.drop_last()[i]).0 == k {
                let i = choose|i: int|
                    0 <= i < s.drop_last().len() && (#[trigger] s.drop_last()[i]).0 == k;
                assert(s[i].0 == k);
            }
        }
    }
}

/// Sortedness is inherited by the sequence without its last pair.
proof fn lemma_sorted_drop_last(s: Seq<(usize, Seq<char>)>)
    requires
        sorted_by_id(s),
        s.len() > 0,
    ensures
        sorted_by_id(s.drop_last()),
{
    assert forall|i: int, j: int|
        0 <= i < j < s.drop_last().len() implies (#[trigger] s.drop_last()[i]).0
        < (#[trigger] s.drop_last()[j]).0 by {
        assert(s.drop_last()[i] == s[i]);
        assert(s.drop_last()[j] == s[j]);
    }
}

/// In a sorted pair sequence, the map's value at the key of pair `i` is
/// that pair's title.
pub proof fn lemma_entries_map_at(s: Seq<(usize, Seq<char>)>, i: int)
    requires
        sorted_by_id(s),
        0 <= i < s.len(),
    ensures
        entries_map(s).dom().contains(s[i].0),
        entries_map(s)[s[i].0] == s[i].1,
    decreases s.len(),
{
    if i == s.len() - 1 {
    } else {
        lemma_sorted_drop_last(s);
        assert(s.drop_last()[i] == s[i]);
        lemma_entries_map_at(s.drop_last(), i);
        assert(s[i].0 < s.last().0);
    }
}

impl EventStore {
    /// The store as a sequence of (identifier, title) pairs, in the
    /// internal (identifier-sorted) order.
    pub closed spec fn view(&self) -> Seq<(usize, Seq<char>)> {
        self.entries@.map_values(|p: (usize, String)| (p.0, p.1@))
    }

    /// Well-formedness: the entry sequence is sorted by strictly
    /// increasing identifier.
    pub open spec fn wf(&self) -> bool {
        sorted_by_id(self@)
    }

    /// The store's abstract content: the mapping from identifier to title.
    pub open spec fn as_map(&self) -> Map<usize, Seq<char>> {
        entries_map(self@)
    }

    /// Inserting one more record cannot overflow the identifier type.
    pub open spec fn can_insert(&self) -> bool {
        self@.len() == 0 || self@.last().0 < usize::MAX
    }

    /// An empty store.
    pub fn new() -> (s: EventStore)
        ensures
            s@ == Seq::<(usize, Seq<char>)>::empty(),
            s.as_map() == Map::<usize, Seq<char>>::empty(),
            s.wf(),
            s.can_insert(),
    {
        let s = EventStore { entries: Vec::new() };
        proof {
            assert(s@ =~= Seq::<(usize, Seq<char>)>::empty());
        }
        s
    }

    /// The store as seeded at process start: three fixture events.
    pub fn seeded() -> (s: EventStore)
        ensures
            s@ == seq![
                (1usize, "First Event"@),
                (2usize, "Second Event"@),
                (3usize, "Third Event"@),
            ],
            s.wf(),
            s.can_insert(),
    {
        let mut entries: Vec<(usize, String)> = Vec::new();
        entries.push((1, String::from_str("First Event")));
        entries.push((2, String::from_str("Second Event")));
        entries.push((3, String::from_str("Third Event")));
        let s = EventStore { entries };
        proof {
            assert(s@ =~= seq![
                (1usize, "First Event"@),
                (2usize, "Second Event"@),
                (3usize, "Third Event"@),
            ]);
        }
        s
    }

    /// How many events the store holds.
    pub fn len(&self) -> (n: usize)
        ensures
            n == self@.len(),
    {
        self.entries.len()
    }

    /// Whether the store is well formed; true for every store built from
    /// `new` or `seeded` and mutated through `insert` and `delete` alone.
    pub fn is_well_formed(&self) -> (b: bool)
        ensures
            b == self.wf(),
    {
        let n: usize = self.entries.len();
        if n == 0 {
            return true;
        }
        let mut i: usize = 0;
        while i < n - 1
            invariant
                n == self.entries.len(),
                1 <= n,
                0 <= i <= n - 1,
                forall|j: int| 0 <= j < i ==> (#[trigger] self@[j]).0 < self@[j + 1].0,
            decreases n - i,
        {
            if self.entries[i].0 >= self.entries[i + 1].0 {
                proof {
                    let ii: int = i as int;
                    assert(self@[ii].0 >= self@[ii + 1].0);
                    assert(!sorted_by_id(self@));
                }
                return false;
            }
            i += 1;
        }
        proof {
            lemma_adjacent_sorted(self@);
        }
        true
    }

    /// Whether an insertion can be performed without the next identifier
    /// overflowing.
    pub fn can_insert_now(&self) -> (b: bool)
        ensures
            b == self.can_insert(),
    {
        let n: usize = self.entries.len();
        n == 0 || self.entries[n - 1].0 < usize::MAX
    }

    /// The identifier of the entry at position `i` of the internal order.
    pub fn id_at(&self, i: usize) -> (k: usize)
        requires
            i < self@.len(),
        ensures
            k == self@[i as int].0,
    {
        self.entries[i].0
    }

    /// The title of the entry at position `i` of the internal order.
    pub fn title_at(&self, i: usize) -> (t: &str)
        requires
            i < self@.len(),
        ensures
            t@ == self@[i as int].1,
    {
        self.entries[i].1.as_str()
    }

    /// Looks up the event stored under `id`; `None` signals *not found*.
    pub fn get(&self, id: usize) -> (r: Option<Event>)
        requires
            self.wf(),
        ensures
            r is Some <==> self.as_map().dom().contains(id),
            r matches Some(e) ==> e.id == Some(id) && e.title@ == self.as_map()[id],
    {
        let n: usize = self.entries.len();
        let mut i: usize = 0;
        while i < n
            invariant
                n == self.entries.len(),
                self.wf(),
                0 <= i <= n,
                forall|j: int| 0 <= j < i ==> (#[trigger] self@[j]).0 != id,
            decreases n - i,
        {
            if self.entries[i].0 == id {
                let title = self.entries[i].1.clone();
                proof {
                    lemma_entries_map_at(self@, i as int);
                }
                return Some(Event { id: Some(id), title });
            }
            i += 1;
        }
        proof {
            lemma_entries_map_dom(self@, id);
        }
        None
    }

    /// Stores `title` under the next free identifier — `1 + max(existing)`,
    /// or `1` when the store is empty — and returns that identifier.
    pub fn insert(&mut self, title: String) -> (id: usize)
        requires
            old(self).wf(),
            old(self).can_insert(),
        ensures
            final(self).wf(),
            final(self).can_insert() == (id < usize::MAX),
            final(self)@ == old(self)@.push((id, title@)),
            is_next_id(old(self).as_map(), id),
            final(self).as_map() == old(self).as_map().insert(id, title@),
    {
        let n: usize = self.entries.len();
        let id: usize = if n == 0 {
            1
        } else {
            self.entries[n - 1].0 + 1
        };
        self.entries.push((id, title));
        proof {
            let prev = old(self)@;
            assert(self@ =~= prev.push((id, title@)));
            if n == 0 {
                assert(prev =~= Seq::<(usize, Seq<char>)>::empty());
                assert(entries_map(prev) == Map::<usize, Seq<char>>::empty());
                assert forall|k: usize| #[trigger]
                    entries_map(prev).dom().contains(k) implies k < id by {}
            } else {
                assert forall|k: usize| #[trigger]
                    entries_map(prev).dom().contains(k) implies k < id by {
                    lemma_entries_map_dom(prev, k);
                    let i = choose|i: int| 0 <= i < prev.len() && (#[trigger] prev[i]).0 == k;
                    if i < n - 1 {
                        assert(prev[i].0 < prev[n - 1].0);
                    }
                }
                lemma_entries_map_at(prev, n - 1);
            }
            assert(self@.drop_last() =~= prev);
            assert(self@.last() == (id, title@));
            assert(final(self).as_map() == entries_map(prev).insert(id, title@));
            assert forall|i: int, j: int|
                0 <= i < j < self@.len() implies (#[trigger] self@[i]).0
                < (#[trigger] self@[j]).0 by {
                if j < n as int {
                    assert(prev[i].0 < prev[j].0);
                } else {
                    if i < n - 1 {
                        assert(prev[i].0 < prev[n - 1].0);
                    }
                }
            }
        }
        id
    }

    /// Removes the event stored under `id`. Returns whether it was present;
    /// when it was not, the store is left exactly as it was.
    pub fn delete(&mut self, id: usize) -> (found: bool)
        requires
            old(self).wf(),
        ensures
            final(self).wf(),
            found <==> old(self).as_map().dom().contains(id),
            final(self)@ == remove_id(old(self)@, id),
            final(self).as_map() == old(self).as_map().remove(id),
            !found ==> final(self)@ == old(self)@,
    {
        let n: usize = self.entries.len();
        let mut i: usize = 0;
        while i < n
            invariant
                n == self.entries.len(),
                self.wf(),
                self == old(self),
                0 <= i <= n,
                forall|j: int| 0 <= j < i ==> (#[trigger] self@[j]).0 != id,
            decreases n - i,
        {
            if self.entries[i].0 == id {
                self.entries.remove(i);
                proof {
                    let prev = old(self)@;
                    let ii: int = i as int;
                    assert(self@ =~= prev.subrange(0, ii) + prev.subrange(ii + 1, n as int));
                    lemma_entries_map_at(prev, ii);
                    lemma_remove_id_at(prev, id, ii);
                    lemma_sorted_remove(prev, ii);
                    lemma_entries_map_remove(prev, id, ii);
                }
                return true;
            }
            i += 1;
        }
        proof {
            let prev = old(self)@;
            lemma_entries_map_dom(prev, id);
            lemma_remove_id_absent(prev, id);
            assert(entries_map(prev).remove(id) =~= entries_map(prev));
        }
        false
    }

    /// Every stored event, as full records, in identifier order.
    pub fn list(&self) -> (r: Vec<Event>)
        ensures
            r@.len() == self@.len(),
            forall|i: int|
                0 <= i < self@.len() ==> (#[trigger] r@[i]).id == Some(self@[i].0)
                    && r@[i].title@ == self@[i].1,
    {
        let n: usize = self.entries.len();
        let mut r: Vec<Event> = Vec::new();
        let mut i: usize = 0;
        while i < n
            invariant
                n == self.entries.len(),
                0 <= i <= n,
                r@.len() == i,
                forall|j: int|
                    0 <= j < i ==> (#[trigger] r@[j]).id == Some(self@[j].0)
                        && r@[j].title@ == self@[j].1,
            decreases n - i,
        {
            let title = self.entries[i].1.clone();
            r.push(Event { id: Some(self.entries[i].0), title });
            i += 1;
        }
        r
    }
}

/// The next identifier for a list of identifiers in use: strictly above
/// every one of them, and exactly one more than the greatest (`1` when the
/// list is empty). This is the identifier policy an insertion follows.
pub fn next_insert_id(current_ids: Vec<&usize>) -> (r: usize)
    requires
        forall|i: int| 0 <= i < current_ids@.len() ==> *(#[trigger] current_ids@[i]) < usize::MAX,
    ensures
        current_ids@.len() == 0 ==> r == 1,
        forall|i: int| 0 <= i < current_ids@.len() ==> *(#[trigger] current_ids@[i]) < r,
        current_ids@.len() > 0 ==> exists|i: int|
            0 <= i < current_ids@.len() && *(#[trigger] current_ids@[i]) + 1 == r,
{
    let n: usize = current_ids.len();
    if n == 0 {
        return 1;
    }
    let mut max: usize = *current_ids[0];
    let mut i: usize = 1;
    while i < n
        invariant
            n == current_ids@.len(),
            1 <= i <= n,
            forall|j: int|
                0 <= j < current_ids@.len() ==> *(#[trigger] current_ids@[j]) < usize::MAX,
            forall|j: int| 0 <= j < i ==> *(#[trigger] current_ids@[j]) <= max,
            exists|j: int| 0 <= j < i && *(#[trigger] current_ids@[j]) == max,
            max < usize::MAX,
        decreases n - i,
    {
        if *current_ids[i] > max {
            max = *current_ids[i];
        }
        i += 1;
    }
    max + 1
}

/// A sequence whose adjacent identifiers increase is sorted throughout.
proof fn lemma_adjacent_sorted(s: Seq<(usize, Seq<char>)>)
    requires
        forall|j: int| 0 <= j < s.len() - 1 ==> (#[trigger] s[j]).0 < s[j + 1].0,
    ensures
        sorted_by_id(s),
{
    assert forall|i: int, j: int|
        0 <= i < j < s.len() implies (#[trigger] s[i]).0 < (#[trigger] s[j]).0 by {
        lemma_id_lt_trans(s, i, j);
    }
}

/// Transitivity step for `lemma_adjacent_sorted`.
proof fn lemma_id_lt_trans(s: Seq<(usize, Seq<char>)>, i: int, j: int)
    requires
        forall|k: int| 0 <= k < s.len() - 1 ==> (#[trigger] s[k]).0 < s[k + 1].0,
        0 <= i < j < s.len(),
    ensures
        s[i].0 < s[j].0,
    decreases j - i,
{
    if j == i + 1 {
        assert(s[i].0 < s[i + 1].0);
    } else {
        lemma_id_lt_trans(s, i, j - 1);
        assert(s[j - 1].0 < s[j].0);
    }
}

/// Dropping an absent key leaves a pair sequence unchanged.
proof fn lemma_remove_id_absent(s: Seq<(usize, Seq<char>)>, id: usize)
    requires
        forall|i: int| 0 <= i < s.len() ==> (#[trigger] s[i]).0 != id,
    ensures
        remove_id(s, id) == s,
    decreases s.len(),
{
    if s.len() > 0 {
        assert(s[s.len() - 1].0 != id);
        assert forall|i: int| 0 <= i < s.drop_last().len() implies (#[trigger] s.drop_last()[i]).0
            != id by {
            assert(s.drop_last()[i] == s[i]);
        }
        lemma_remove_id_absent(s.drop_last(), id);
        assert(remove_id(s, id) =~= s);
    }
}

/// In a sorted sequence whose pair `i` carries `id`, dropping `id` removes
/// exactly that pair.
proof fn lemma_remove_id_at(s: Seq<(usize, Seq<char>)>, id: usize, i: int)
    requires
        sorted_by_id(s),
        0 <= i < s.len(),
        s[i].0 == id,
    ensures
        remove_id(s, id) == s.subrange(0, i) + s.subrange(i + 1, s.len() as int),
    decreases s.len(),
{
    let n = s.len() as int;
    if i == n - 1 {
        assert forall|j: int| 0 <= j < s.drop_last().len() implies (#[trigger] s.drop_last()[j]).0
            != id by {
            assert(s.drop_last()[j] == s[j]);
            assert(s[j].0 < s[i].0);
        }
        lemma_remove_id_absent(s.drop_last(), id);
        assert(remove_id(s, id) =~= s.subrange(0, i) + s.subrange(i + 1, n));
    } else {
        assert(s[i].0 < s[n - 1].0);
        lemma_sorted_drop_last(s);
        assert(s.drop_last()[i] == s[i]);
        lemma_remove_id_at(s.drop_last(), id, i);
        assert(s.drop_last().subrange(0, i) =~= s.subrange(0, i));
        assert(s.drop_last().subrange(i + 1, n - 1) =~= s.subrange(i + 1, n - 1));
        assert(remove_id(s, id) =~= s.subrange(0, i) + s.subrange(i + 1, n));
    }
}

/// Removing one pair of a sorted sequence keeps it sorted.
proof fn lemma_sorted_remove(s: Seq<(usize, Seq<char>)>, i: int)
    requires
        sorted_by_id(s),
        0 <= i < s.len(),
    ensures
        sorted_by_id(s.subrange(0, i) + s.subrange(i + 1, s.len() as int)),
{
    let n = s.len() as int;
    let r = s.subrange(0, i) + s.subrange(i + 1, n);
    assert forall|a: int, b: int|
        0 <= a < b < r.len() implies (#[trigger] r[a]).0 < (#[trigger] r[b]).0 by {
        let a2 = if a < i { a } else { a + 1 };
        let b2 = if b < i { b } else { b + 1 };
        assert(r[a] == s[a2]);
        assert(r[b] == s[b2]);
        assert(s[a2].0 < s[b2].0);
    }
}

/// Removing the pair that carries `id` from a sorted sequence removes
/// exactly `id` from its map.
proof fn lemma_entries_map_remove(s: Seq<(usize, Seq<char>)>, id: usize, i: int)
    requires
        sorted_by_id(s),
        0 <= i < s.len(),
        s[i].0 == id,
    ensures
        entries_map(s.subrange(0, i) + s.subrange(i + 1, s.len() as int))
            == entries_map(s).remove(id),
{
    let n = s.len() as int;
    let r = s.subrange(0, i) + s.subrange(i + 1, n);
    lemma_sorted_remove(s, i);
    assert forall|k: usize|
        #[trigger] entries_map(s).dom().contains(k) && k != id implies entries_map(
        r,
    ).dom().contains(k) && entries_map(r)[k] == entries_map(s)[k] by {
        lemma_entries_map_dom(s, k);
        let j = choose|j: int| 0 <= j < s.len() && (#[trigger] s[j]).0 == k;
        let j2 = if j < i { j } else { j - 1 };
        assert(r[j2] == s[j]);
        lemma_entries_map_at(r, j2);
        lemma_entries_map_at(s, j);
    }
    assert forall|k: usize| #[trigger]
        entries_map(r).dom().contains(k) implies entries_map(s).dom().contains(k)
        && k != id by {
        lemma_entries_map_dom(r, k);
        let j = choose|j: int| 0 <= j < r.len() && (#[trigger] r[j]).0 == k;
        let j2 = if j < i { j } else { j + 1 };
        assert(r[j] == s[j2]);
        lemma_entries_map_dom(s, k);
        if k == id {
            assert(s[j2].0 == s[i].0);
            if j2 < i {
                assert(s[j2].0 < s[i].0);
            }
            if j2 > i {
                assert(s[i].0 < s[j2].0);
            }
        }
    }
    assert(entries_map(r) =~= entries_map(s).remove(id));
}

/// Law: across two consecutive insertions the assigned identifiers grow
/// strictly — the second is exactly one more than the first — and a freshly
/// assigned identifier is never one already in use.
pub proof fn lemma_insert_ids_strictly_increase(
    m: Map<usize, Seq<char>>,
    t: Seq<char>,
    k1: usize,
    k2: usize,
)
    requires
        is_next_id(m, k1),
        is_next_id(m.insert(k1, t), k2),
    ensures
        k1 < k2,
        k2 == k1 + 1,
        !m.dom().contains(k1),
{
    let m2 = m.insert(k1, t);
    assert(m2.dom().contains(k1));
    assert(k1 < k2);
    assert(m2.dom().contains((k2 - 1) as usize));
    if m.dom().contains((k2 - 1) as usize) {
        assert(((k2 - 1) as usize) < k1);
    }
}

/// An insertion run: `stores[i]` is the content before the `i`-th
/// insertion, which assigns identifier `ids[i]` to title `titles[i]` and
/// leaves `stores[i + 1]`.
pub open spec fn insert_run(
    stores: Seq<Map<usize, Seq<char>>>,
    titles: Seq<Seq<char>>,
    ids: Seq<usize>,
) -> bool {
    &&& stores.len() == ids.len() + 1
    &&& titles.len() == ids.len()
    &&& forall|i: int| 0 <= i < ids.len() ==> is_next_id(#[trigger] stores[i], ids[i])
    &&& forall|i: int|
        0 <= i < ids.len() ==> stores[i + 1] == (#[trigger] stores[i]).insert(ids[i], titles[i])
}

/// An identifier assigned during a run is still in use at every later
/// point of the run.
proof fn lemma_id_in_later_store(
    stores: Seq<Map<usize, Seq<char>>>,
    titles: Seq<Seq<char>>,
    ids: Seq<usize>,
    i: int,
    j: int,
)
    requires
        insert_run(stores, titles, ids),
        0 <= i < j < stores.len(),
    ensures
        stores[j].dom().contains(ids[i]),
    decreases j - i,
{
    if j == i + 1 {
        assert(stores[j] == stores[i].insert(ids[i], titles[i]));
    } else {
        lemma_id_in_later_store(stores, titles, ids, i, j - 1);
        assert(stores[j] == stores[j - 1].insert(ids[j - 1], titles[j - 1]));
    }
}

/// Law: over any sequence of insertions the assigned identifiers are
/// strictly increasing — so none is ever assigned twice — and each is
/// fresh: not in use at the moment it is assigned.
pub proof fn lemma_insert_run_ids_increase(
    stores: Seq<Map<usize, Seq<char>>>,
    titles: Seq<Seq<char>>,
    ids: Seq<usize>,
)
    requires
        insert_run(stores, titles, ids),
    ensures
        forall|i: int, j: int| 0 <= i < j < ids.len() ==> (#[trigger] ids[i]) < (#[trigger] ids[j]),
        forall|i: int| 0 <= i < ids.len() ==> !(#[trigger] stores[i]).dom().contains(ids[i]),
{
    assert forall|i: int| 0 <= i < ids.len() implies !(#[trigger] stores[i]).dom().contains(
        ids[i],
    ) by {
        if stores[i].dom().contains(ids[i]) {
            assert(ids[i] < ids[i]);
        }
    }
    assert forall|i: int, j: int|
        0 <= i < j < ids.len() implies (#[trigger] ids[i]) < (#[trigger] ids[j]) by {
        lemma_id_in_later_store(stores, titles, ids, i, j);
        assert(stores[j].dom().contains(ids[i]));
    }
}

/// Law: the identifier policy is deterministic — the store's content
/// determines the next identifier completely, as `1 + max(existing)`
/// (`1` when the store is empty).
pub proof fn lemma_next_id_unique(m: Map<usize, Seq<char>>, a: usize, b: usize)
    requires
        is_next_id(m, a),
        is_next_id(m, b),
    ensures
        a == b,
{
    if a < b {
        assert(b != 1);
        assert(m.dom().contains((b - 1) as usize));
        assert(((b - 1) as usize) < a);
    }
    if b < a {
        assert(a != 1);
        assert(m.dom().contains((a - 1) as usize));
        assert(((a - 1) as usize) < b);
    }
}

/// Law: immediately after an insertion stores title `t` under the fresh
/// identifier `k`, a lookup of `k` finds exactly `t`.
pub proof fn lemma_get_after_insert(m: Map<usize, Seq<char>>, k: usize, t: Seq<char>)
    ensures
        m.insert(k, t).dom().contains(k),
        m.insert(k, t)[k] == t,
{
}

/// Law: immediately after a successful deletion of identifier `k`, a lookup
/// of `k` finds nothing.
pub proof fn lemma_get_after_delete(m: Map<usize, Seq<char>>, k: usize)
    ensures
        !m.remove(k).dom().contains(k),
{
}

} // verus!
