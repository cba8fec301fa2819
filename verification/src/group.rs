//! Groups of entries that share an id, and the lookup of an attribute across
//! the layers of a group and along the chain of bases.

use vstd::prelude::*;
use vstd::string::*;
use vstd::hash_map::StringHashMap;
use vstd::relations::injective_on;
use vstd::set_lib::{lemma_int_range, lemma_len_subset, lemma_map_size, set_int_range};
use crate::entry::{attr_get, entries_view, Stats, StatsView};
use crate::text::{opt_view, texts_view};

verus! {

/// The name of the attribute that points to an entry's base.
pub open spec fn using_key() -> Seq<char> {
    "Using"@
}

/// The distinct ids among the first `k` entries, in the order in which they
/// are first seen.
pub open spec fn ids_upto(entries: Seq<StatsView>, k: nat) -> Seq<Seq<char>>
    decreases k,
{
    if k == 0 {
        Seq::empty()
    } else {
        let prev = ids_upto(entries, (k - 1) as nat);
        if prev.contains(entries[k - 1].id) {
            prev
        } else {
            prev.push(entries[k - 1].id)
        }
    }
}

/// The distinct ids of the entries, in the order in which they are first seen.
pub open spec fn group_ids(entries: Seq<StatsView>) -> Seq<Seq<char>> {
    ids_upto(entries, entries.len())
}

/// The first place at or after `from` in `ms` whose entry weighs more than
/// `w`, or the length of `ms`.
pub open spec fn weight_slot(entries: Seq<StatsView>, ms: Seq<usize>, w: u8, from: int) -> int
    decreases ms.len() - from,
{
    if from < 0 || from >= ms.len() {
        ms.len() as int
    } else if entries[ms[from] as int].weight > w {
        from
    } else {
        weight_slot(entries, ms, w, from + 1)
    }
}

/// The positions, among the first `k` entries, of those filed under `id`:
/// ascending by weight, and by position where the weights are equal.
pub open spec fn members_upto(entries: Seq<StatsView>, id: Seq<char>, k: nat) -> Seq<usize>
    decreases k,
{
    if k == 0 {
        Seq::empty()
    } else {
        let prev = members_upto(entries, id, (k - 1) as nat);
        if entries[k - 1].id == id {
            prev.insert(weight_slot(entries, prev, entries[k - 1].weight, 0), (k - 1) as usize)
        } else {
            prev
        }
    }
}

/// The group filed under `id`: the positions of its entries, ascending by
/// weight.
pub open spec fn members(entries: Seq<StatsView>, id: Seq<char>) -> Seq<usize> {
    members_upto(entries, id, entries.len())
}

/// The value of `attr` in the first entry of `ms` that has it.
pub open spec fn group_attr(entries: Seq<StatsView>, ms: Seq<usize>, attr: Seq<char>) -> Option<
    Seq<char>,
>
    decreases ms.len(),
{
    if ms.len() == 0 {
        None
    } else {
        match group_attr(entries, ms.drop_last(), attr) {
            Some(v) => Some(v),
            None => attr_get(entries[ms.last() as int].data, attr),
        }
    }
}

/// The base that one entry of the group `key` names: its `Using`, unless that
/// is `key` itself.
pub open spec fn own_pointer(entry: StatsView, key: Seq<char>) -> Option<Seq<char>> {
    match attr_get(entry.data, using_key()) {
        Some(u) => if u != key {
            Some(u)
        } else {
            None
        },
        None => None,
    }
}

/// The base of the group `key`: what the first entry of `ms` that names a
/// base names.
pub open spec fn group_pointer(entries: Seq<StatsView>, ms: Seq<usize>, key: Seq<char>) -> Option<
    Seq<char>,
>
    decreases ms.len(),
{
    if ms.len() == 0 {
        None
    } else {
        match group_pointer(entries, ms.drop_last(), key) {
            Some(p) => Some(p),
            None => own_pointer(entries[ms.last() as int], key),
        }
    }
}

/// The value of `attr` for the group `key`: the value in the lowest layer of
/// the group that has it; where no layer has it, the value for the base of
/// the group, found in the same way, through at most `fuel` bases.
pub open spec fn resolve(entries: Seq<StatsView>, key: Seq<char>, attr: Seq<char>, fuel: nat)
    -> Option<Seq<char>>
    decreases fuel,
{
    let ms = members(entries, key);
    match group_attr(entries, ms, attr) {
        Some(v) => Some(v),
        None => match group_pointer(entries, ms, key) {
            Some(p) => if fuel == 0 {
                None
            } else {
                resolve(entries, p, attr, (fuel - 1) as nat)
            },
            None => None,
        },
    }
}

/// The value of `attr` for the group `key`, searched through at most as many
/// bases as there are entries.
pub open spec fn resolved(entries: Seq<StatsView>, key: Seq<char>, attr: Seq<char>) -> Option<
    Seq<char>,
> {
    resolve(entries, key, attr, entries.len())
}

/// `weight_slot` lies between `from` and the length of `ms`; all the entries
/// from `from` up to it weigh at most `w`, and the entry at it weighs more.
pub proof fn lemma_weight_slot(entries: Seq<StatsView>, ms: Seq<usize>, w: u8, from: int)
    requires
        0 <= from <= ms.len(),
    ensures
        from <= weight_slot(entries, ms, w, from) <= ms.len(),
        forall|j: int|
            from <= j < weight_slot(entries, ms, w, from) ==> entries[(#[trigger] ms[j]) as int].weight
                <= w,
        weight_slot(entries, ms, w, from) < ms.len() ==> entries[ms[weight_slot(
            entries,
            ms,
            w,
            from,
        )] as int].weight > w,
    decreases ms.len() - from,
{
    if from < ms.len() && entries[ms[from] as int].weight <= w {
        lemma_weight_slot(entries, ms, w, from + 1);
    }
}

/// Every member of a group is the position of an entry with the group's id,
/// and a group has a member exactly if its id is among the ids.
pub proof fn lemma_members_upto(entries: Seq<StatsView>, id: Seq<char>, k: nat)
    requires
        k <= entries.len() <= usize::MAX,
    ensures
        forall|j: int|
            0 <= j < members_upto(entries, id, k).len() ==> (#[trigger] members_upto(
                entries,
                id,
                k,
            )[j]) < k && entries[members_upto(entries, id, k)[j] as int].id == id,
        members_upto(entries, id, k).len() > 0 <==> ids_upto(entries, k).contains(id),
        members_upto(entries, id, k).len() <= k,
    decreases k,
{
    if k > 0 {
        let prev = members_upto(entries, id, (k - 1) as nat);
        let prev_ids = ids_upto(entries, (k - 1) as nat);
        lemma_members_upto(entries, id, (k - 1) as nat);
        let e = entries[k - 1];
        if e.id == id {
            lemma_weight_slot(entries, prev, e.weight, 0);
            let now = members_upto(entries, id, k);
            assert(now[weight_slot(entries, prev, e.weight, 0)] == (k - 1) as usize);
        }
        if prev_ids.contains(e.id) {
        } else {
            let now_ids = prev_ids.push(e.id);
            assert(now_ids[prev_ids.len() as int] == e.id);
            if prev_ids.contains(id) {
                let i = choose|i: int| 0 <= i < prev_ids.len() && prev_ids[i] == id;
                assert(now_ids[i] == id);
            }
        }
    }
}

/// The members of a group ascend by weight, and by position where the weights
/// are equal; so no position occurs twice.
pub proof fn lemma_members_ascend(entries: Seq<StatsView>, id: Seq<char>, k: nat)
    requires
        k <= entries.len() <= usize::MAX,
    ensures
        forall|i: int, j: int|
            0 <= i < j < members_upto(entries, id, k).len() ==> {
                let a = #[trigger] members_upto(entries, id, k)[i];
                let b = #[trigger] members_upto(entries, id, k)[j];
                entries[a as int].weight < entries[b as int].weight || (entries[a as int].weight
                    == entries[b as int].weight && a < b)
            },
    decreases k,
{
    if k > 0 {
        lemma_members_ascend(entries, id, (k - 1) as nat);
        lemma_members_upto(entries, id, (k - 1) as nat);
        let prev = members_upto(entries, id, (k - 1) as nat);
        let e = entries[k - 1];
        if e.id == id {
            let p = weight_slot(entries, prev, e.weight, 0);
            lemma_weight_slot(entries, prev, e.weight, 0);
            let now = members_upto(entries, id, k);
            assert(now == prev.insert(p, (k - 1) as usize));
            assert forall|i: int, j: int| 0 <= i < j < now.len() implies {
                let a = #[trigger] now[i];
                let b = #[trigger] now[j];
                entries[a as int].weight < entries[b as int].weight || (entries[a as int].weight
                    == entries[b as int].weight && a < b)
            } by {
                let pi = if i < p {
                    i
                } else {
                    i - 1
                };
                let pj = if j < p {
                    j
                } else {
                    j - 1
                };
                if i != p && j != p {
                    assert(now[i] == prev[pi] && now[j] == prev[pj]);
                } else if i == p {
                    assert(now[j] == prev[j - 1]);
                    assert(entries[prev[p] as int].weight > e.weight);
                    if j - 1 > p {
                        let a = prev[p];
                        let b = prev[j - 1];
                        assert(entries[a as int].weight <= entries[b as int].weight);
                    }
                } else {
                    assert(now[i] == prev[i]);
                    assert(entries[prev[i] as int].weight <= e.weight);
                }
            }
        }
    }
}

/// Every entry is a member of the group of its id.
pub proof fn lemma_members_complete(entries: Seq<StatsView>, id: Seq<char>, k: nat)
    requires
        k <= entries.len() <= usize::MAX,
    ensures
        forall|e: int|
            0 <= e < k && (#[trigger] entries[e]).id == id ==> members_upto(entries, id, k).contains(
                e as usize,
            ),
    decreases k,
{
    if k > 0 {
        lemma_members_complete(entries, id, (k - 1) as nat);
        let prev = members_upto(entries, id, (k - 1) as nat);
        let now = members_upto(entries, id, k);
        let last = entries[k - 1];
        let p = weight_slot(entries, prev, last.weight, 0);
        lemma_weight_slot(entries, prev, last.weight, 0);
        assert forall|e: int| 0 <= e < k && (#[trigger] entries[e]).id == id implies now.contains(
            e as usize,
        ) by {
            if e == k - 1 {
                assert(now[p] == e as usize);
            } else if last.id == id {
                let q = choose|q: int| 0 <= q < prev.len() && prev[q] == e as usize;
                if q < p {
                    assert(now[q] == e as usize);
                } else {
                    assert(now[q + 1] == e as usize);
                }
            }
        }
    }
}

/// No id occurs twice among the ids, and each is the id of an entry.
pub proof fn lemma_ids_upto(entries: Seq<StatsView>, k: nat)
    requires
        k <= entries.len(),
    ensures
        ids_upto(entries, k).len() <= k,
        forall|i: int, j: int|
            0 <= i < j < ids_upto(entries, k).len() ==> ids_upto(entries, k)[i] != ids_upto(
                entries,
                k,
            )[j],
        forall|i: int| 0 <= i < k ==> ids_upto(entries, k).contains(#[trigger] entries[i].id),
    decreases k,
{
    if k > 0 {
        lemma_ids_upto(entries, (k - 1) as nat);
        let prev = ids_upto(entries, (k - 1) as nat);
        let now = ids_upto(entries, k);
        let id = entries[k - 1].id;
        if !prev.contains(id) {
            assert(now[prev.len() as int] == id);
        }
        assert forall|i: int| 0 <= i < k implies now.contains(#[trigger] entries[i].id) by {
            if i < k - 1 {
                let p = choose|p: int| 0 <= p < prev.len() && prev[p] == entries[i].id;
                assert(now[p] == entries[i].id);
            }
        }
    }
}

/// Once a prefix of the group has the attribute, the group has it with the
/// same value.
pub proof fn lemma_group_attr_prefix(
    entries: Seq<StatsView>,
    ms: Seq<usize>,
    attr: Seq<char>,
    j: int,
)
    requires
        0 <= j <= ms.len(),
        group_attr(entries, ms.take(j), attr).is_some(),
    ensures
        group_attr(entries, ms, attr) == group_attr(entries, ms.take(j), attr),
    decreases ms.len(),
{
    if j == ms.len() {
        assert(ms.take(j) == ms);
    } else {
        assert(ms.drop_last().take(j) == ms.take(j));
        lemma_group_attr_prefix(entries, ms.drop_last(), attr, j);
    }
}

/// The entries filed by id, ready for lookups.
pub struct Resolver {
    /// The entries, in the order in which they were given.
    pub entries: Vec<Stats>,
    /// The ids of the groups, in the order in which they are first seen.
    pub ids: Vec<String>,
    /// For each id, the positions of its entries, ascending by weight.
    pub members: Vec<Vec<usize>>,
    /// For each id, its place in `ids`.
    pub index: StringHashMap<usize>,
}

impl Resolver {
    /// The entries as contracts see them.
    pub open spec fn model(&self) -> Seq<StatsView> {
        entries_view(self.entries@)
    }

    /// Whether the groups are those of the entries.
    pub open spec fn wf(&self) -> bool {
        self.filed(self.entries@.len())
    }

    /// Whether the groups are those of the first `k` entries.
    pub open spec fn filed(&self, k: nat) -> bool {
        &&& k <= self.entries@.len()
        &&& texts_view(self.ids@) == ids_upto(self.model(), k)
        &&& self.members@.len() == self.ids@.len()
        &&& forall|g: int|
            0 <= g < self.ids@.len() ==> (#[trigger] self.members@[g])@ == members_upto(
                self.model(),
                self.ids@[g]@,
                k,
            )
        &&& forall|key: Seq<char>|
            self.index@.contains_key(key) <==> ids_upto(self.model(), k).contains(key)
        &&& forall|key: Seq<char>| #[trigger]
            self.index@.contains_key(key) ==> self.index@[key] < self.ids@.len()
                && self.ids@[self.index@[key] as int]@ == key
    }

    /// Files `entries` by id.
    pub fn new(entries: Vec<Stats>) -> (r: Resolver)
        ensures
            r.wf(),
            r.entries == entries,
    {
        let mut r = Resolver {
            entries,
            ids: Vec::new(),
            members: Vec::new(),
            index: StringHashMap::new(),
        };
        assert(texts_view(r.ids@) =~= ids_upto(r.model(), 0));
        let n = r.entries.len();
        let mut i: usize = 0;
        while i < n
            invariant
                i <= n,
                n == r.entries@.len(),
                r.entries == entries,
                r.filed(i as nat),
            decreases n - i,
        {
            let ghost model = r.model();
            let ghost before = r;
            let id = r.entries[i].id.clone();
            let w = r.entries[i].weight;
            assert(model[i as int].id == id@);
            assert(model[i as int].weight == w);
            let found: Option<usize> = match r.index.get(id.as_str()) {
                Some(g) => Some(*g),
                None => None,
            };
            match found {
                Some(g) => {
                    let ghost ms = r.members@[g as int]@;
                    assert(ms == members_upto(model, id@, i as nat));
                    proof {
                        lemma_members_upto(model, id@, i as nat);
                    }
                    let mut p: usize = 0;
                    while p < r.members[g].len() && r.entries[r.members[g][p]].weight <= w
                        invariant
                            r == before,
                            forall|j: int| 0 <= j < ms.len() ==> (#[trigger] ms[j]) < i,
                            model == r.model(),
                            g < r.members@.len(),
                            ms == r.members@[g as int]@,
                            ms == members_upto(model, id@, i as nat),
                            i < r.entries@.len(),
                            p <= ms.len(),
                            weight_slot(model, ms, w, 0) == weight_slot(model, ms, w, p as int),
                        decreases ms.len() - p,
                    {
                        p = p + 1;
                    }
                    r.members[g].insert(p, i);
                    proof {
                        assert(r.model() == model);
                        lemma_ids_upto(model, i as nat);
                        assert(texts_view(before.ids@)[g as int] == id@);
                        assert forall|h: int| 0 <= h < r.ids@.len() implies (#[trigger] r.members@[h])@
                            == members_upto(model, r.ids@[h]@, (i + 1) as nat) by {
                            if h != g {
                                assert(before.members@[h]@ == members_upto(
                                    model,
                                    before.ids@[h]@,
                                    i as nat,
                                ));
                                assert(texts_view(before.ids@)[h] == before.ids@[h]@);
                                assert(before.ids@[h]@ != id@);
                            }
                        }
                    }
                },
                None => {
                    let g = r.ids.len();
                    let mut fresh: Vec<usize> = Vec::new();
                    fresh.push(i);
                    r.ids.push(id.clone());
                    r.members.push(fresh);
                    r.index.insert(id, g);
                    proof {
                        assert(r.model() == model);
                        lemma_members_upto(model, id@, i as nat);
                        lemma_ids_upto(model, i as nat);
                        let prev_ids = ids_upto(model, i as nat);
                        let now_ids = ids_upto(model, (i + 1) as nat);
                        assert(!prev_ids.contains(id@));
                        assert(texts_view(r.ids@) =~= now_ids);
                        assert(members_upto(model, id@, i as nat).len() == 0);
                        assert(fresh@ =~= members_upto(model, id@, (i + 1) as nat));
                        assert forall|h: int| 0 <= h < r.ids@.len() implies (#[trigger] r.members@[h])@
                            == members_upto(model, r.ids@[h]@, (i + 1) as nat) by {
                            if h < g {
                                assert(before.members@[h]@ == members_upto(
                                    model,
                                    before.ids@[h]@,
                                    i as nat,
                                ));
                                assert(prev_ids[h] == before.ids@[h]@);
                            }
                        }
                        assert forall|key: Seq<char>|
                            r.index@.contains_key(key) <==> now_ids.contains(key) by {
                            if key == id@ {
                                assert(now_ids[g as int] == id@);
                            } else if prev_ids.contains(key) {
                                let q = choose|q: int| 0 <= q < prev_ids.len() && prev_ids[q] == key;
                                assert(now_ids[q] == key);
                            }
                        }
                    }
                },
            }
            i = i + 1;
        }
        r
    }

    /// The place in `ids` of the group filed under `key`.
    pub fn group_of(&self, key: &str) -> (r: Option<usize>)
        requires
            self.wf(),
        ensures
            match r {
                Some(g) => g < self.ids@.len() && self.ids@[g as int]@ == key@
                    && self.members@[g as int]@ == members(self.model(), key@)
                    && self.members@[g as int]@.len() > 0,
                None => members(self.model(), key@).len() == 0,
            },
            forall|j: int|
                0 <= j < members(self.model(), key@).len() ==> (#[trigger] members(
                    self.model(),
                    key@,
                )[j]) < self.entries@.len(),
    {
        let n = self.entries.len();
        proof {
            assert(self.model().len() == n);
            lemma_members_upto(self.model(), key@, n as nat);
        }
        match self.index.get(key) {
            Some(g) => Some(*g),
            None => None,
        }
    }

    /// The value of `attr` in the lowest layer of the group `key` that has
    /// it, and, where no layer has it, the base that the group names.
    fn scan(&self, key: &str, attr: &str) -> (r: (Option<String>, Option<String>))
        requires
            self.wf(),
        ensures
            opt_view(r.0) == group_attr(self.model(), members(self.model(), key@), attr@),
            r.0.is_none() ==> opt_view(r.1) == group_pointer(
                self.model(),
                members(self.model(), key@),
                key@,
            ),
    {
        let ghost model = self.model();
        let ghost ms = members(model, key@);
        let g = match self.group_of(key) {
            Some(g) => g,
            None => {
                return (None, None);
            },
        };
        let own = key.to_string();
        let list = &self.members[g];
        let mut pointer: Option<String> = None;
        let mut j: usize = 0;
        while j < list.len()
            invariant
                j <= ms.len(),
                list@ == ms,
                ms == members(model, key@),
                model == self.model(),
                own@ == key@,
                forall|k: int| 0 <= k < ms.len() ==> (#[trigger] ms[k]) < self.entries@.len(),
                group_attr(model, ms.take(j as int), attr@).is_none(),
                opt_view(pointer) == group_pointer(model, ms.take(j as int), key@),
            decreases ms.len() - j,
        {
            let entry = &self.entries[list[j]];
            assert(model[ms[j as int] as int] == entry@);
            assert(ms.take(j + 1).drop_last() == ms.take(j as int));
            match entry.get(attr) {
                Some(v) => {
                    let value: String = v.clone();
                    proof {
                        assert(ms.take(j + 1).last() == ms[j as int]);
                        assert(group_attr(model, ms.take(j + 1), attr@) == Some(value@));
                        lemma_group_attr_prefix(model, ms, attr@, j + 1);
                        assert(group_attr(model, ms, attr@) == Some(value@));
                    }
                    return (Some(value), None);
                },
                None => {},
            }
            if pointer.is_none() {
                match entry.get("Using") {
                    Some(u) => {
                        if !(*u == own) {
                            pointer = Some(u.clone());
                        }
                    },
                    None => {},
                }
            }
            j = j + 1;
        }
        assert(ms.take(j as int) == ms);
        (None, pointer)
    }

    /// The value of `attr` for the group `key`: from the lowest layer of the
    /// group that has it, else from the group's base, and so on along the
    /// bases. Nothing where no group on the way has it; bases that lead back
    /// to a group they came from end the search in the same way, after as
    /// many bases as there are entries.
    pub fn get_attr(&self, key: &str, attr: &str) -> (r: Option<String>)
        requires
            self.wf(),
        ensures
            opt_view(r) == resolved(self.model(), key@, attr@),
    {
        let ghost model = self.model();
        let mut cur: String = key.to_string();
        let mut fuel: usize = self.entries.len();
        loop
            invariant
                self.wf(),
                model == self.model(),
                resolved(model, key@, attr@) == resolve(model, cur@, attr@, fuel as nat),
            decreases fuel,
        {
            let (found, pointer) = self.scan(cur.as_str(), attr);
            match found {
                Some(v) => {
                    return Some(v);
                },
                None => {},
            }
            match pointer {
                Some(p) => {
                    if fuel == 0 {
                        return None;
                    }
                    fuel = fuel - 1;
                    cur = p;
                },
                None => {
                    return None;
                },
            }
        }
    }
}

/// What a search with less fuel finds, a search with more fuel finds too.
pub proof fn lemma_resolve_more_fuel(
    entries: Seq<StatsView>,
    key: Seq<char>,
    attr: Seq<char>,
    less: nat,
    more: nat,
)
    requires
        less <= more,
        resolve(entries, key, attr, less).is_some(),
    ensures
        resolve(entries, key, attr, more) == resolve(entries, key, attr, less),
    decreases less,
{
    let ms = members(entries, key);
    if group_attr(entries, ms, attr).is_none() {
        let p = group_pointer(entries, ms, key).unwrap();
        lemma_resolve_more_fuel(entries, p, attr, (less - 1) as nat, (more - 1) as nat);
    }
}

/// The lowest layer of a group that has the attribute decides its value:
/// where the entry at `ms[j]` has it and no entry before it in `ms` does, the
/// group has the value of that entry, whatever the entries after it hold.
pub proof fn lemma_lowest_layer_wins(
    entries: Seq<StatsView>,
    ms: Seq<usize>,
    attr: Seq<char>,
    j: int,
)
    requires
        0 <= j < ms.len(),
        attr_get(entries[ms[j] as int].data, attr).is_some(),
        forall|k: int| 0 <= k < j ==> attr_get(entries[(#[trigger] ms[k]) as int].data, attr).is_none(),
    ensures
        group_attr(entries, ms, attr) == attr_get(entries[ms[j] as int].data, attr),
{
    lemma_group_attr_none(entries, ms.take(j), attr);
    assert(ms.take(j + 1).drop_last() == ms.take(j));
    lemma_group_attr_prefix(entries, ms, attr, j + 1);
}

/// A list of entries of which none has the attribute gives no value.
pub proof fn lemma_group_attr_none(entries: Seq<StatsView>, ms: Seq<usize>, attr: Seq<char>)
    requires
        forall|k: int| 0 <= k < ms.len() ==> attr_get(entries[(#[trigger] ms[k]) as int].data, attr).is_none(),
    ensures
        group_attr(entries, ms, attr).is_none(),
    decreases ms.len(),
{
    if ms.len() > 0 {
        assert forall|k: int| 0 <= k < ms.drop_last().len() implies attr_get(
            entries[(#[trigger] ms.drop_last()[k]) as int].data,
            attr,
        ).is_none() by {
            assert(ms.drop_last()[k] == ms[k]);
        }
        lemma_group_attr_none(entries, ms.drop_last(), attr);
    }
}

/// The base at which the search for `attr` goes on after the group `key`: the
/// base of the group, unless the group has the attribute.
pub open spec fn next_base(entries: Seq<StatsView>, key: Seq<char>, attr: Seq<char>) -> Option<
    Seq<char>,
> {
    let ms = members(entries, key);
    if group_attr(entries, ms, attr).is_some() {
        None
    } else {
        group_pointer(entries, ms, key)
    }
}

/// The group that the search for `attr` from `key` is at after `hops` bases,
/// if it goes that far.
pub open spec fn base_at(entries: Seq<StatsView>, key: Seq<char>, attr: Seq<char>, hops: nat)
    -> Option<Seq<char>>
    decreases hops,
{
    if hops == 0 {
        Some(key)
    } else {
        match next_base(entries, key, attr) {
            Some(p) => base_at(entries, p, attr, (hops - 1) as nat),
            None => None,
        }
    }
}

/// Whether the search for `attr` from `key` comes to no group twice.
pub open spec fn no_cycle(entries: Seq<StatsView>, key: Seq<char>, attr: Seq<char>) -> bool {
    forall|i: nat, j: nat|
        i < j && (#[trigger] base_at(entries, key, attr, i)).is_some() && (#[trigger] base_at(
            entries,
            key,
            attr,
            j,
        )).is_some() ==> base_at(entries, key, attr, i) != base_at(entries, key, attr, j)
}

/// The group after one more base is the base at which the search goes on
/// after the group before.
pub proof fn lemma_base_at_next(entries: Seq<StatsView>, key: Seq<char>, attr: Seq<char>, hops: nat)
    ensures
        base_at(entries, key, attr, hops + 1) == match base_at(entries, key, attr, hops) {
            Some(k) => next_base(entries, k, attr),
            None => None,
        },
    decreases hops,
{
    reveal_with_fuel(base_at, 3);
    if hops > 0 {
        match next_base(entries, key, attr) {
            Some(p) => {
                lemma_base_at_next(entries, p, attr, (hops - 1) as nat);
                assert(base_at(entries, key, attr, hops + 1) == base_at(entries, p, attr, hops));
                assert(base_at(entries, key, attr, hops) == base_at(
                    entries,
                    p,
                    attr,
                    (hops - 1) as nat,
                ));
            },
            None => {},
        }
    }
}

/// A search that goes as far as `hops` bases went as far as every number of
/// bases below.
pub proof fn lemma_base_at_earlier(
    entries: Seq<StatsView>,
    key: Seq<char>,
    attr: Seq<char>,
    h: nat,
    hops: nat,
)
    requires
        h <= hops,
        base_at(entries, key, attr, hops).is_some(),
    ensures
        base_at(entries, key, attr, h).is_some(),
    decreases hops - h,
{
    if h < hops {
        lemma_base_at_earlier(entries, key, attr, h + 1, hops);
        lemma_base_at_next(entries, key, attr, h);
    }
}

/// A search that has ended after `less` bases gives the same with more.
pub proof fn lemma_resolve_settled(
    entries: Seq<StatsView>,
    key: Seq<char>,
    attr: Seq<char>,
    less: nat,
    more: nat,
)
    requires
        less <= more,
        base_at(entries, key, attr, less + 1).is_none(),
    ensures
        resolve(entries, key, attr, more) == resolve(entries, key, attr, less),
    decreases less,
{
    reveal_with_fuel(base_at, 3);
    match next_base(entries, key, attr) {
        Some(p) => {
            assert(base_at(entries, key, attr, less + 1) == base_at(entries, p, attr, less));
            assert(less >= 1);
            lemma_resolve_settled(entries, p, attr, (less - 1) as nat, (more - 1) as nat);
        },
        None => {},
    }
}

/// A search that comes to no group twice ends within as many bases as there
/// are entries: each group that it leaves has an entry of its own.
pub proof fn lemma_no_cycle_ends(entries: Seq<StatsView>, key: Seq<char>, attr: Seq<char>)
    requires
        entries.len() <= usize::MAX,
        no_cycle(entries, key, attr),
    ensures
        base_at(entries, key, attr, entries.len() + 1).is_none(),
{
    let n = entries.len();
    if base_at(entries, key, attr, n + 1).is_some() {
        let hops = set_int_range(0, n + 1 as int);
        let rep = |h: int| members(entries, base_at(entries, key, attr, h as nat).unwrap())[0] as int;
        assert forall|h: int| 0 <= h <= n implies {
            let k = base_at(entries, key, attr, h as nat);
            k.is_some() && 0 <= #[trigger] rep(h) < n && entries[rep(h)].id == k.unwrap()
        } by {
            lemma_base_at_earlier(entries, key, attr, (h + 1) as nat, n + 1);
            lemma_base_at_earlier(entries, key, attr, h as nat, n + 1);
            lemma_base_at_next(entries, key, attr, h as nat);
            let k = base_at(entries, key, attr, h as nat).unwrap();
            assert(next_base(entries, k, attr).is_some());
            assert(members(entries, k).len() > 0);
            lemma_members_upto(entries, k, n);
        }
        assert(injective_on(rep, hops)) by {
            assert forall|a: int, b: int|
                hops.contains(a) && hops.contains(b) && #[trigger] rep(a) == #[trigger] rep(
                    b,
                ) implies a == b by {
                let ka = base_at(entries, key, attr, a as nat);
                let kb = base_at(entries, key, attr, b as nat);
                assert(entries[rep(a)].id == ka.unwrap());
                assert(entries[rep(b)].id == kb.unwrap());
                if a < b {
                    assert(base_at(entries, key, attr, a as nat) != base_at(
                        entries,
                        key,
                        attr,
                        b as nat,
                    ));
                } else if b < a {
                    assert(base_at(entries, key, attr, b as nat) != base_at(
                        entries,
                        key,
                        attr,
                        a as nat,
                    ));
                }
            }
        }
        let reps = hops.map(rep);
        lemma_int_range(0, n + 1 as int);
        lemma_map_size(hops, reps, rep);
        lemma_int_range(0, n as int);
        assert(reps.subset_of(set_int_range(0, n as int))) by {
            assert forall|e: int| reps.contains(e) implies set_int_range(0, n as int).contains(e) by {
                let h = choose|h: int| hops.contains(h) && rep(h) == e;
                assert(0 <= rep(h) < n);
            }
        }
        lemma_len_subset(reps, set_int_range(0, n as int));
    }
}

/// Where the search comes to no group twice, the bound on the bases does not
/// matter: a search through any larger number of bases gives the same.
pub proof fn lemma_search_without_cycle(
    entries: Seq<StatsView>,
    key: Seq<char>,
    attr: Seq<char>,
    more: nat,
)
    requires
        entries.len() <= usize::MAX,
        no_cycle(entries, key, attr),
        more >= entries.len(),
    ensures
        resolve(entries, key, attr, more) == resolved(entries, key, attr),
{
    lemma_no_cycle_ends(entries, key, attr);
    lemma_resolve_settled(entries, key, attr, entries.len(), more);
}

} // verus!
