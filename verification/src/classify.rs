//! The order of the groups, and the split of each group into the record that
//! is shown and the records that are hidden behind it.

use vstd::prelude::*;
use vstd::string::*;
use vstd::relations::injective_on;
use vstd::set_lib::{lemma_int_range, lemma_len_subset, lemma_map_size, set_int_range};
use crate::entry::{attr_get, StatsView};
use crate::group::{
    group_ids, lemma_ids_upto, lemma_members_ascend, lemma_members_complete, lemma_members_upto,
    members, resolved, using_key, Resolver,
};
use crate::pattern::{regex_replace, replace_str, replaced_or, replaced_text};
use crate::text::{
    chars_of, comes_before, lemma_before_irreflexive, lemma_before_total,
    lemma_before_transitive, opt_view, parse_byte, parse_u8, same_chars, text_before,
    texts_view,
};

verus! {

/// What a group is sorted by.
pub struct SortKey {
    /// The rank of the group's level.
    pub rank: u8,
    /// The name the group sorts under.
    pub name: Vec<char>,
    /// The id of the group.
    pub id: Vec<char>,
}

/// A sort key as contracts see it.
pub struct SortKeyView {
    pub rank: u8,
    pub name: Seq<char>,
    pub id: Seq<char>,
}

impl View for SortKey {
    type V = SortKeyView;

    open spec fn view(&self) -> SortKeyView {
        SortKeyView { rank: self.rank, name: self.name@, id: self.id@ }
    }
}

/// The views of a list of sort keys.
pub open spec fn keys_view(keys: Seq<SortKey>) -> Seq<SortKeyView> {
    Seq::new(keys.len(), |i: int| keys[i]@)
}

/// Whether a group with key `a` stands before one with key `b`: by rank,
/// then by name, then by id.
pub open spec fn key_before(a: SortKeyView, b: SortKeyView) -> bool {
    a.rank < b.rank || (a.rank == b.rank && (text_before(a.name, b.name) || (a.name == b.name
        && text_before(a.id, b.id))))
}

/// Whether a group with key `a` stands before one with key `b`.
pub fn sorts_before(a: &SortKey, b: &SortKey) -> (r: bool)
    ensures
        r == key_before(a@, b@),
{
    if a.rank != b.rank {
        a.rank < b.rank
    } else if comes_before(&a.name, &b.name) {
        true
    } else {
        same_chars(&a.name, &b.name) && comes_before(&a.id, &b.id)
    }
}

/// The name of the attribute that holds a group's level.
pub open spec fn level_key() -> Seq<char> {
    "Level"@
}

/// The rank of a level: 99 without a level, 98 for level 0, else the level
/// itself. `None` where the level is no number below 256.
pub open spec fn rank_of(level: Option<Seq<char>>) -> Option<u8> {
    match level {
        None => Some(99u8),
        Some(t) => match parse_u8(t) {
            None => None,
            Some(v) => if v == 0 {
                Some(98u8)
            } else {
                Some(v)
            },
        },
    }
}

/// The rank of a level.
pub fn level_rank(level: &Option<String>) -> (r: Option<u8>)
    ensures
        r == rank_of(opt_view(*level)),
{
    match level {
        None => Some(99),
        Some(t) => match parse_byte(t.as_str()) {
            None => None,
            Some(v) => if v == 0 {
                Some(98)
            } else {
                Some(v)
            },
        },
    }
}

/// The pattern of what is cut from the front of an id before it is sorted:
/// its leading letters.
pub open spec fn prefix_pattern() -> Seq<char> {
    "^[a-zA-Z]+"@
}

/// The type whose entries sort under their whole id.
pub open spec fn interrupt_type() -> Seq<char> {
    "InterruptData"@
}

/// The name that a group sorts under: its id without the leading letters,
/// or, for a group of the interrupt type, its whole id.
pub open spec fn name_key(id: Seq<char>, stats_type: Seq<char>) -> Seq<char> {
    if stats_type == interrupt_type() {
        id
    } else {
        replaced_or(id, regex_replace(prefix_pattern(), id, ""@))
    }
}

/// The name that a group with this id and type sorts under.
pub fn sort_name(id: &String, stats_type: &String) -> (r: String)
    ensures
        r@ == name_key(id@, stats_type@),
{
    let interrupt = "InterruptData".to_string();
    if *stats_type == interrupt {
        id.clone()
    } else {
        replaced_text(id.as_str(), replace_str(id.as_str(), "^[a-zA-Z]+", ""))
    }
}

/// The sort key of the group `id`; `None` where its level is no number.
pub open spec fn key_of(entries: Seq<StatsView>, id: Seq<char>) -> Option<SortKeyView> {
    match rank_of(resolved(entries, id, level_key())) {
        Some(rank) => Some(
            SortKeyView {
                rank,
                name: name_key(id, entries[members(entries, id)[0] as int].stats_type),
                id,
            },
        ),
        None => None,
    }
}

/// Whether the level of every group is a number, or missing.
pub open spec fn levels_ok(entries: Seq<StatsView>) -> bool {
    forall|g: int|
        0 <= g < group_ids(entries).len() ==> key_of(entries, #[trigger] group_ids(entries)[g]).is_some()
}

/// The sort keys of the groups, in the order of `group_ids`.
pub open spec fn group_keys(entries: Seq<StatsView>) -> Seq<SortKeyView> {
    Seq::new(group_ids(entries).len(), |g: int| key_of(entries, group_ids(entries)[g]).unwrap())
}

/// The first place at or after `from` in `order` whose key stands after `k`,
/// or the length of `order`.
pub open spec fn key_slot(keys: Seq<SortKeyView>, order: Seq<usize>, k: SortKeyView, from: int)
    -> int
    decreases order.len() - from,
{
    if from < 0 || from >= order.len() {
        order.len() as int
    } else if key_before(k, keys[order[from] as int]) {
        from
    } else {
        key_slot(keys, order, k, from + 1)
    }
}

/// The first `k` places of `keys`, sorted by their keys; of two equal keys
/// the earlier place stays first.
pub open spec fn sorted_upto(keys: Seq<SortKeyView>, k: nat) -> Seq<usize>
    decreases k,
{
    if k == 0 {
        Seq::empty()
    } else {
        let prev = sorted_upto(keys, (k - 1) as nat);
        prev.insert(key_slot(keys, prev, keys[k - 1], 0), (k - 1) as usize)
    }
}

/// The places of `keys`, sorted by their keys.
pub open spec fn sorted_order(keys: Seq<SortKeyView>) -> Seq<usize> {
    sorted_upto(keys, keys.len())
}

/// `key_slot` lies between `from` and the length of `order`.
pub proof fn lemma_key_slot(keys: Seq<SortKeyView>, order: Seq<usize>, k: SortKeyView, from: int)
    requires
        0 <= from <= order.len(),
    ensures
        from <= key_slot(keys, order, k, from) <= order.len(),
        forall|j: int|
            from <= j < key_slot(keys, order, k, from) ==> !key_before(
                k,
                keys[(#[trigger] order[j]) as int],
            ),
        key_slot(keys, order, k, from) < order.len() ==> key_before(
            k,
            keys[order[key_slot(keys, order, k, from)] as int],
        ),
    decreases order.len() - from,
{
    if from < order.len() && !key_before(k, keys[order[from] as int]) {
        lemma_key_slot(keys, order, k, from + 1);
    }
}

/// The sorted order of the first `k` places has `k` places, each below `k`.
pub proof fn lemma_sorted_upto(keys: Seq<SortKeyView>, k: nat)
    requires
        k <= keys.len() <= usize::MAX,
    ensures
        sorted_upto(keys, k).len() == k,
        forall|j: int| 0 <= j < k ==> (#[trigger] sorted_upto(keys, k)[j]) < k,
    decreases k,
{
    if k > 0 {
        lemma_sorted_upto(keys, (k - 1) as nat);
        let prev = sorted_upto(keys, (k - 1) as nat);
        lemma_key_slot(keys, prev, keys[k - 1], 0);
    }
}

/// The order of sort keys is transitive.
pub proof fn lemma_key_before_transitive(a: SortKeyView, b: SortKeyView, c: SortKeyView)
    requires
        key_before(a, b),
        key_before(b, c),
    ensures
        key_before(a, c),
{
    if a.rank == b.rank && b.rank == c.rank {
        if text_before(a.name, b.name) && text_before(b.name, c.name) {
            lemma_before_transitive(a.name, b.name, c.name, 0);
        } else if a.name == b.name && b.name == c.name {
            lemma_before_transitive(a.id, b.id, c.id, 0);
        }
    }
}

/// No sort key stands before itself.
pub proof fn lemma_key_before_irreflexive(a: SortKeyView)
    ensures
        !key_before(a, a),
{
    lemma_before_irreflexive(a.name, 0);
    lemma_before_irreflexive(a.id, 0);
}

/// Of the sort keys of two groups with different ids, one stands before the
/// other.
pub proof fn lemma_key_before_total(a: SortKeyView, b: SortKeyView)
    requires
        a.id != b.id,
    ensures
        key_before(a, b) || key_before(b, a),
{
    if a.rank == b.rank {
        if a.name != b.name {
            lemma_before_total(a.name, b.name, 0);
        } else {
            lemma_before_total(a.id, b.id, 0);
        }
    }
}

/// Whether no place of `order` holds a key that stands before the key of an
/// earlier place.
pub open spec fn ascending(keys: Seq<SortKeyView>, order: Seq<usize>) -> bool {
    forall|i: int, j: int|
        0 <= i < j < order.len() ==> !key_before(
            keys[(#[trigger] order[j]) as int],
            keys[(#[trigger] order[i]) as int],
        )
}

/// Whether `order` holds each of the places below `n` exactly once.
pub open spec fn arranges(order: Seq<usize>, n: nat) -> bool {
    &&& order.len() == n
    &&& forall|j: int| 0 <= j < order.len() ==> (#[trigger] order[j]) < n
    &&& forall|i: int, j: int| 0 <= i < j < order.len() ==> order[i] != order[j]
}

/// The sorted order of the first `k` places holds each of them exactly once,
/// and ascends by key.
pub proof fn lemma_sorted_upto_ascends(keys: Seq<SortKeyView>, k: nat)
    requires
        k <= keys.len() <= usize::MAX,
    ensures
        arranges(sorted_upto(keys, k), k),
        ascending(keys, sorted_upto(keys, k)),
    decreases k,
{
    if k > 0 {
        lemma_sorted_upto_ascends(keys, (k - 1) as nat);
        let prev = sorted_upto(keys, (k - 1) as nat);
        let new = keys[k - 1];
        let p = key_slot(keys, prev, new, 0);
        lemma_key_slot(keys, prev, new, 0);
        let now = sorted_upto(keys, k);
        assert(now == prev.insert(p, (k - 1) as usize));
        assert forall|i: int, j: int| 0 <= i < j < now.len() implies !key_before(
            keys[(#[trigger] now[j]) as int],
            keys[(#[trigger] now[i]) as int],
        ) && now[i] != now[j] by {
            let pi = if i < p {
                i
            } else {
                i - 1
            };
            let pj = if j < p {
                j
            } else {
                j - 1
            };
            if i != p && j != p {
                assert(now[i] == prev[pi] && now[j] == prev[pj]);
                assert(!key_before(keys[prev[pj] as int], keys[prev[pi] as int]));
            } else if i == p {
                assert(now[j] == prev[j - 1]);
                let later = keys[prev[j - 1] as int];
                let at = keys[prev[p] as int];
                if key_before(later, new) {
                    lemma_key_before_transitive(later, new, at);
                    if j - 1 == p {
                        lemma_key_before_irreflexive(at);
                    } else {
                        assert(!key_before(keys[prev[j - 1] as int], keys[prev[p] as int]));
                    }
                }
            } else {
                assert(now[i] == prev[i]);
            }
        }
    }
}

/// The sorted order is an arrangement of all the places that ascends by key.
pub proof fn lemma_sorted_order(keys: Seq<SortKeyView>)
    requires
        keys.len() <= usize::MAX,
    ensures
        arranges(sorted_order(keys), keys.len()),
        ascending(keys, sorted_order(keys)),
{
    lemma_sorted_upto_ascends(keys, keys.len());
}

/// Where the keys belong to groups with different ids, the sorted order
/// ascends strictly: each place holds a key that stands before the keys of
/// all later places.
pub proof fn lemma_sorted_order_strict(keys: Seq<SortKeyView>)
    requires
        keys.len() <= usize::MAX,
        forall|a: int, b: int| 0 <= a < b < keys.len() ==> keys[a].id != keys[b].id,
    ensures
        forall|i: int, j: int|
            0 <= i < j < keys.len() ==> key_before(
                keys[(#[trigger] sorted_order(keys)[i]) as int],
                keys[(#[trigger] sorted_order(keys)[j]) as int],
            ),
{
    lemma_sorted_order(keys);
    let order = sorted_order(keys);
    assert forall|i: int, j: int| 0 <= i < j < keys.len() implies key_before(
        keys[(#[trigger] order[i]) as int],
        keys[(#[trigger] order[j]) as int],
    ) by {
        let a = order[i] as int;
        let b = order[j] as int;
        assert(a != b);
        if a < b {
            assert(keys[a].id != keys[b].id);
        } else {
            assert(keys[b].id != keys[a].id);
        }
        lemma_key_before_total(keys[a], keys[b]);
    }
}

/// The groups of the entries have different ids, so their sorted order
/// ascends strictly by key, whatever the order of the entries.
pub proof fn lemma_groups_strictly_sorted(entries: Seq<StatsView>)
    requires
        entries.len() <= usize::MAX,
        levels_ok(entries),
    ensures
        forall|i: int, j: int|
            0 <= i < j < group_keys(entries).len() ==> key_before(
                group_keys(entries)[(#[trigger] sorted_order(group_keys(entries))[i]) as int],
                group_keys(entries)[(#[trigger] sorted_order(group_keys(entries))[j]) as int],
            ),
{
    lemma_ids_upto(entries, entries.len());
    let keys = group_keys(entries);
    let ids = group_ids(entries);
    assert forall|a: int, b: int| 0 <= a < b < keys.len() implies keys[a].id != keys[b].id by {
        assert(key_of(entries, ids[a]).is_some());
        assert(key_of(entries, ids[b]).is_some());
        assert(keys[a].id == ids[a]);
        assert(keys[b].id == ids[b]);
    }
    lemma_sorted_order_strict(keys);
}

/// Sorts the places of `keys` by their keys: the result holds every place
/// once, and no place in it holds a key that stands before the key of an
/// earlier place.
pub fn sort_keys(keys: &Vec<SortKey>) -> (order: Vec<usize>)
    ensures
        order@ == sorted_order(keys_view(keys@)),
        arranges(order@, keys@.len()),
        ascending(keys_view(keys@), order@),
{
    let ghost all = keys_view(keys@);
    let n = keys.len();
    let mut order: Vec<usize> = Vec::new();
    let mut k: usize = 0;
    while k < n
        invariant
            k <= n,
            n == keys@.len(),
            all == keys_view(keys@),
            order@ == sorted_upto(all, k as nat),
        decreases n - k,
    {
        proof {
            lemma_sorted_upto(all, k as nat);
        }
        let mut p: usize = 0;
        while p < order.len() && !sorts_before(&keys[k], &keys[order[p]])
            invariant
                k < n,
                n == keys@.len(),
                all == keys_view(keys@),
                p <= order@.len(),
                forall|j: int| 0 <= j < order@.len() ==> (#[trigger] order@[j]) < k,
                key_slot(all, order@, all[k as int], 0) == key_slot(
                    all,
                    order@,
                    all[k as int],
                    p as int,
                ),
            decreases order@.len() - p,
        {
            p = p + 1;
        }
        order.insert(p, k);
        k = k + 1;
    }
    proof {
        lemma_sorted_order(all);
    }
    order
}

/// The sort keys of the groups of `resolver`, in the order of its ids.
/// `None` where the level of some group is no number below 256.
pub fn sort_keys_of(resolver: &Resolver) -> (r: Option<Vec<SortKey>>)
    requires
        resolver.wf(),
    ensures
        match r {
            Some(keys) => levels_ok(resolver.model()) && keys_view(keys@) == group_keys(
                resolver.model(),
            ),
            None => !levels_ok(resolver.model()),
        },
{
    let ghost model = resolver.model();
    let ghost ids = group_ids(model);
    let n = resolver.entries.len();
    assert(model.len() == n);
    let mut keys: Vec<SortKey> = Vec::new();
    let mut g: usize = 0;
    while g < resolver.ids.len()
        invariant
            resolver.wf(),
            model == resolver.model(),
            ids == group_ids(model),
            ids == texts_view(resolver.ids@),
            model.len() == n,
            g <= resolver.ids@.len(),
            keys@.len() == g,
            forall|h: int| 0 <= h < g ==> key_of(model, #[trigger] ids[h]) == Some(keys@[h]@),
        decreases resolver.ids@.len() - g,
    {
        let id = &resolver.ids[g];
        assert(ids[g as int] == id@);
        let level = resolver.get_attr(id.as_str(), "Level");
        let rank = match level_rank(&level) {
            Some(rank) => rank,
            None => {
                assert(key_of(model, ids[g as int]).is_none());
                return None;
            },
        };
        proof {
            lemma_members_upto(model, id@, n as nat);
            assert(ids.contains(id@));
        }
        let ms = &resolver.members[g];
        let first = &resolver.entries[ms[0]];
        assert(model[ms@[0] as int] == first@);
        let name = sort_name(&first.id, &first.stats_type);
        let key = SortKey { rank, name: chars_of(name.as_str()), id: chars_of(id.as_str()) };
        assert(key_of(model, ids[g as int]) == Some(key@));
        keys.push(key);
        g = g + 1;
    }
    assert(keys_view(keys@) =~= group_keys(model));
    Some(keys)
}

/// Whether the entry at place `e` names a base that has no group.
pub open spec fn dangling(entries: Seq<StatsView>, e: int) -> bool {
    match attr_get(entries[e].data, using_key()) {
        Some(u) => u != entries[e].id && members(entries, u).len() == 0,
        None => false,
    }
}

/// Whether every base that an entry names has a group.
pub open spec fn bases_ok(entries: Seq<StatsView>) -> bool {
    forall|e: int| 0 <= e < entries.len() ==> !dangling(entries, e)
}

/// Whether every base that an entry names has a group.
pub fn bases_known(resolver: &Resolver) -> (r: bool)
    requires
        resolver.wf(),
    ensures
        r == bases_ok(resolver.model()),
{
    let ghost model = resolver.model();
    let mut e: usize = 0;
    while e < resolver.entries.len()
        invariant
            resolver.wf(),
            model == resolver.model(),
            e <= resolver.entries@.len(),
            forall|k: int| 0 <= k < e ==> !dangling(model, k),
        decreases resolver.entries@.len() - e,
    {
        let entry = &resolver.entries[e];
        assert(model[e as int] == entry@);
        match entry.get("Using") {
            Some(u) => {
                if !(*u == entry.id) {
                    if resolver.group_of(u.as_str()).is_none() {
                        assert(dangling(model, e as int));
                        return false;
                    }
                }
            },
            None => {},
        }
        e = e + 1;
    }
    true
}

/// The entry that the entry at place `q` of the group `ms` hands over to. An
/// entry whose `Using` is its own id hands over to the next layer of its
/// group, the last layer to itself; one that names another id hands over to
/// the lowest layer of that group; one without `Using`, or whose base has no
/// group, to itself.
pub open spec fn link_of(entries: Seq<StatsView>, ms: Seq<usize>, q: int) -> usize {
    let e = ms[q];
    match attr_get(entries[e as int].data, using_key()) {
        None => e,
        Some(u) => if u == entries[e as int].id {
            if q + 1 < ms.len() {
                ms[q + 1]
            } else {
                e
            }
        } else {
            let base = members(entries, u);
            if base.len() > 0 {
                base[0]
            } else {
                e
            }
        },
    }
}

/// The entry that the entry at place `q` of the group at place `g` hands over
/// to.
pub fn link(resolver: &Resolver, g: usize, q: usize) -> (t: usize)
    requires
        resolver.wf(),
        g < resolver.ids@.len(),
        q < resolver.members@[g as int]@.len(),
    ensures
        t == link_of(resolver.model(), resolver.members@[g as int]@, q as int),
        t < resolver.entries@.len(),
{
    let ghost model = resolver.model();
    let n = resolver.entries.len();
    assert(model.len() == n);
    proof {
        lemma_members_upto(model, resolver.ids@[g as int]@, n as nat);
    }
    let ms = &resolver.members[g];
    let e = ms[q];
    let entry = &resolver.entries[e];
    assert(model[e as int] == entry@);
    match entry.get("Using") {
        None => e,
        Some(u) => {
            if *u == entry.id {
                if q + 1 < ms.len() {
                    ms[q + 1]
                } else {
                    e
                }
            } else {
                match resolver.group_of(u.as_str()) {
                    Some(b) => resolver.members[b][0],
                    None => e,
                }
            }
        },
    }
}

/// One record of the result.
#[derive(Clone, Copy, Debug)]
pub struct Record {
    /// The place of the entry among the entries.
    pub entry: usize,
    /// The place of the entry's group in the sorted order.
    pub owner: usize,
    /// The place, among the entries, of the entry it hands over to.
    pub target: usize,
    /// Whether the record is the one shown for its group.
    pub shown: bool,
}

/// The record shown for the group at place `p` of `order`: its lowest layer.
pub open spec fn shown_record(entries: Seq<StatsView>, order: Seq<usize>, p: int) -> Record {
    let ms = members(entries, group_ids(entries)[order[p] as int]);
    Record { entry: ms[0], owner: p as usize, target: link_of(entries, ms, 0), shown: true }
}

/// The records hidden behind the group `ms`, which stands at place `p` of the
/// order: its layers above the lowest, ascending.
pub open spec fn hidden_of(entries: Seq<StatsView>, ms: Seq<usize>, p: int) -> Seq<Record> {
    Seq::new(
        if ms.len() == 0 {
            0
        } else {
            (ms.len() - 1) as nat
        },
        |q: int|
            Record {
                entry: ms[q + 1],
                owner: p as usize,
                target: link_of(entries, ms, q + 1),
                shown: false,
            },
    )
}

/// The hidden records of the first `p` groups of `order`, group after group.
pub open spec fn hidden_upto(entries: Seq<StatsView>, order: Seq<usize>, p: nat) -> Seq<Record>
    decreases p,
{
    if p == 0 {
        Seq::empty()
    } else {
        hidden_upto(entries, order, (p - 1) as nat) + hidden_of(
            entries,
            members(entries, group_ids(entries)[order[p - 1] as int]),
            p - 1,
        )
    }
}

/// The records for the groups in the order `order`: the shown record of each
/// group, then the hidden records of each group.
pub open spec fn records_for(entries: Seq<StatsView>, order: Seq<usize>) -> Seq<Record> {
    Seq::new(order.len(), |p: int| shown_record(entries, order, p)) + hidden_upto(
        entries,
        order,
        order.len(),
    )
}

/// The records of the entries: the groups sorted by their keys, the shown
/// record of each, then the hidden records of each.
pub open spec fn records(entries: Seq<StatsView>) -> Seq<Record> {
    records_for(entries, sorted_order(group_keys(entries)))
}

/// Splits the groups, taken in the order `order`, into records.
pub fn classify(resolver: &Resolver, order: &Vec<usize>) -> (r: Vec<Record>)
    requires
        resolver.wf(),
        order@.len() == resolver.ids@.len(),
        forall|j: int| 0 <= j < order@.len() ==> (#[trigger] order@[j]) < resolver.ids@.len(),
    ensures
        r@ == records_for(resolver.model(), order@),
        forall|i: int|
            0 <= i < r@.len() ==> (#[trigger] r@[i]).entry < resolver.entries@.len() && r@[i].target
                < resolver.entries@.len(),
{
    let ghost model = resolver.model();
    let ghost ids = group_ids(model);
    let n = resolver.entries.len();
    assert(model.len() == n);
    let count = order.len();
    let mut out: Vec<Record> = Vec::new();
    let mut p: usize = 0;
    while p < count
        invariant
            resolver.wf(),
            model == resolver.model(),
            ids == group_ids(model),
            ids == texts_view(resolver.ids@),
            model.len() == n,
            n == resolver.entries@.len(),
            count == order@.len(),
            count == resolver.ids@.len(),
            forall|j: int| 0 <= j < order@.len() ==> (#[trigger] order@[j]) < resolver.ids@.len(),
            p <= count,
            out@.len() == p,
            forall|k: int| 0 <= k < p ==> #[trigger] out@[k] == shown_record(model, order@, k),
            forall|i: int|
                0 <= i < out@.len() ==> (#[trigger] out@[i]).entry < n && out@[i].target < n,
        decreases count - p,
    {
        let g = order[p];
        proof {
            lemma_members_upto(model, resolver.ids@[g as int]@, n as nat);
            assert(ids[g as int] == resolver.ids@[g as int]@);
            assert(ids.contains(ids[g as int]));
        }
        let ms = &resolver.members[g];
        let target = link(resolver, g, 0);
        out.push(Record { entry: ms[0], owner: p, target, shown: true });
        p = p + 1;
    }
    let ghost shown = out@;
    assert(shown =~= Seq::new(order@.len(), |p: int| shown_record(model, order@, p)));
    let mut p: usize = 0;
    while p < count
        invariant
            resolver.wf(),
            model == resolver.model(),
            ids == group_ids(model),
            ids == texts_view(resolver.ids@),
            model.len() == n,
            n == resolver.entries@.len(),
            count == order@.len(),
            count == resolver.ids@.len(),
            forall|j: int| 0 <= j < order@.len() ==> (#[trigger] order@[j]) < resolver.ids@.len(),
            p <= count,
            out@ == shown + hidden_upto(model, order@, p as nat),
            forall|i: int|
                0 <= i < out@.len() ==> (#[trigger] out@[i]).entry < n && out@[i].target < n,
        decreases count - p,
    {
        let g = order[p];
        proof {
            lemma_members_upto(model, resolver.ids@[g as int]@, n as nat);
            assert(ids[g as int] == resolver.ids@[g as int]@);
        }
        let ms = &resolver.members[g];
        let ghost before = out@;
        let ghost group = ms@;
        let mut q: usize = 1;
        while q < ms.len()
            invariant
                resolver.wf(),
                model == resolver.model(),
                n == resolver.entries@.len(),
                g < resolver.ids@.len(),
                ms@ == resolver.members@[g as int]@,
                group == ms@,
                forall|j: int| 0 <= j < group.len() ==> (#[trigger] group[j]) < n,
                1 <= q,
                q <= group.len() || q == 1,
                out@.len() == before.len() + if q <= group.len() {
                    q - 1
                } else {
                    0
                },
                forall|k: int| 0 <= k < before.len() ==> out@[k] == before[k],
                forall|k: int|
                    before.len() <= k < out@.len() ==> #[trigger] out@[k] == hidden_of(
                        model,
                        group,
                        p as int,
                    )[k - before.len()],
                forall|i: int|
                    0 <= i < before.len() ==> (#[trigger] before[i]).entry < n && before[i].target
                        < n,
            decreases group.len() - q,
        {
            let target = link(resolver, g, q);
            out.push(Record { entry: ms[q], owner: p, target, shown: false });
            q = q + 1;
        }
        proof {
            assert(out@ =~= before + hidden_of(model, group, p as int));
            assert forall|i: int| 0 <= i < out@.len() implies (#[trigger] out@[i]).entry < n
                && out@[i].target < n by {
                if i < before.len() {
                    assert(out@[i] == before[i]);
                } else {
                    let k = i - before.len();
                    assert(out@[i] == hidden_of(model, group, p as int)[k]);
                    lemma_link_bound(model, group, k + 1);
                }
            }
        }
        p = p + 1;
    }
    out
}

/// The entry that an entry hands over to is one of the entries.
pub proof fn lemma_link_bound(entries: Seq<StatsView>, ms: Seq<usize>, q: int)
    requires
        entries.len() <= usize::MAX,
        0 <= q < ms.len(),
        forall|j: int| 0 <= j < ms.len() ==> (#[trigger] ms[j]) < entries.len(),
    ensures
        link_of(entries, ms, q) < entries.len(),
{
    match attr_get(entries[ms[q] as int].data, using_key()) {
        Some(u) => {
            lemma_members_upto(entries, u, entries.len());
        },
        None => {},
    }
}

/// An entry whose `Using` is its own id hands over to the next layer of its
/// group, and the last layer of the group to itself.
pub proof fn lemma_patch_hands_over(entries: Seq<StatsView>, ms: Seq<usize>, q: int)
    requires
        0 <= q < ms.len(),
        attr_get(entries[ms[q] as int].data, using_key()) == Some(entries[ms[q] as int].id),
    ensures
        q + 1 < ms.len() ==> link_of(entries, ms, q) == ms[q + 1],
        q + 1 == ms.len() ==> link_of(entries, ms, q) == ms[q],
{
}

/// The hidden records of the first `p` groups stand at the front of those of
/// the first `k` groups.
pub proof fn lemma_hidden_prefix(entries: Seq<StatsView>, order: Seq<usize>, p: nat, k: nat)
    requires
        p <= k,
    ensures
        hidden_upto(entries, order, p).len() <= hidden_upto(entries, order, k).len(),
        forall|i: int|
            0 <= i < hidden_upto(entries, order, p).len() ==> hidden_upto(entries, order, k)[i]
                == hidden_upto(entries, order, p)[i],
    decreases k,
{
    if p < k {
        lemma_hidden_prefix(entries, order, p, (k - 1) as nat);
    }
}

/// No hidden record is marked as shown.
pub proof fn lemma_hidden_not_shown(entries: Seq<StatsView>, order: Seq<usize>, k: nat)
    ensures
        forall|i: int|
            0 <= i < hidden_upto(entries, order, k).len() ==> !(#[trigger] hidden_upto(
                entries,
                order,
                k,
            )[i]).shown,
    decreases k,
{
    if k > 0 {
        lemma_hidden_not_shown(entries, order, (k - 1) as nat);
        let before = hidden_upto(entries, order, (k - 1) as nat);
        let ms = members(entries, group_ids(entries)[order[k - 1] as int]);
        let now = hidden_upto(entries, order, k);
        assert(now == before + hidden_of(entries, ms, k - 1));
        assert forall|i: int| 0 <= i < now.len() implies !(#[trigger] now[i]).shown by {
            if i < before.len() {
                assert(now[i] == before[i]);
            } else {
                assert(now[i] == hidden_of(entries, ms, k - 1)[i - before.len()]);
            }
        }
    }
}

/// Of the records, the first ones are those that are shown, one for each
/// group in the order of the groups, each for the lowest layer of its group;
/// none of the records behind them is shown.
pub proof fn lemma_one_shown_per_group(entries: Seq<StatsView>, order: Seq<usize>)
    ensures
        records_for(entries, order).len() >= order.len(),
        forall|p: int|
            0 <= p < order.len() ==> #[trigger] records_for(entries, order)[p] == shown_record(
                entries,
                order,
                p,
            ),
        forall|i: int|
            order.len() <= i < records_for(entries, order).len() ==> !(#[trigger] records_for(
                entries,
                order,
            )[i]).shown,
{
    lemma_hidden_not_shown(entries, order, order.len());
}

/// The layers of a group above the lowest are hidden records that stand
/// together, ascending: the layer at place `q` of the group at place `p`
/// stands behind the shown records and the hidden records of the groups
/// before `p`, at place `q - 1` of those of its own group.
pub proof fn lemma_hidden_record(entries: Seq<StatsView>, order: Seq<usize>, p: int, q: int)
    requires
        0 <= p < order.len(),
        1 <= q < members(entries, group_ids(entries)[order[p] as int]).len(),
    ensures
        ({
            let ms = members(entries, group_ids(entries)[order[p] as int]);
            let at = order.len() + hidden_upto(entries, order, p as nat).len() + q - 1;
            at < records_for(entries, order).len() && records_for(entries, order)[at] == (Record {
                entry: ms[q],
                owner: p as usize,
                target: link_of(entries, ms, q),
                shown: false,
            })
        }),
{
    let ms = members(entries, group_ids(entries)[order[p] as int]);
    let before = hidden_upto(entries, order, p as nat);
    let with = hidden_upto(entries, order, (p + 1) as nat);
    assert(with == before + hidden_of(entries, ms, p));
    assert(with[before.len() + q - 1] == hidden_of(entries, ms, p)[q - 1]);
    lemma_hidden_prefix(entries, order, (p + 1) as nat, order.len());
}

/// Each hidden record stands for a layer above the lowest of the group that
/// owns it: the record at place `i` among the hidden records for the layer
/// at place `i - before + 1` of the group, where `before` hidden records
/// belong to the groups before it.
pub proof fn lemma_hidden_shape(entries: Seq<StatsView>, order: Seq<usize>, k: nat, i: int)
    requires
        k <= order.len() <= usize::MAX,
        0 <= i < hidden_upto(entries, order, k).len(),
    ensures
        ({
            let r = hidden_upto(entries, order, k)[i];
            let ms = members(entries, group_ids(entries)[order[r.owner as int] as int]);
            let q = i - hidden_upto(entries, order, r.owner as nat).len() + 1;
            r.owner < k && 1 <= q < ms.len() && r.entry == ms[q]
        }),
    decreases k,
{
    if k > 0 {
        let before = hidden_upto(entries, order, (k - 1) as nat);
        let ms = members(entries, group_ids(entries)[order[k - 1] as int]);
        let now = hidden_upto(entries, order, k);
        assert(now == before + hidden_of(entries, ms, k - 1));
        if i < before.len() {
            assert(now[i] == before[i]);
            lemma_hidden_shape(entries, order, (k - 1) as nat, i);
        } else {
            assert(now[i] == hidden_of(entries, ms, k - 1)[i - before.len()]);
        }
    }
}

/// The place, in `order`, of the group that the record at place `i` belongs
/// to.
pub open spec fn group_place(entries: Seq<StatsView>, order: Seq<usize>, i: int) -> int {
    if i < order.len() {
        i
    } else {
        hidden_upto(entries, order, order.len())[i - order.len()].owner as int
    }
}

/// The place, in its group, of the layer that the record at place `i` stands
/// for.
pub open spec fn layer_place(entries: Seq<StatsView>, order: Seq<usize>, i: int) -> int {
    if i < order.len() {
        0
    } else {
        i - order.len() - hidden_upto(
            entries,
            order,
            group_place(entries, order, i) as nat,
        ).len() + 1
    }
}

/// Every record stands for one layer of one group, and its entry is the
/// entry of that layer.
pub proof fn lemma_record_shape(entries: Seq<StatsView>, order: Seq<usize>, i: int)
    requires
        entries.len() <= usize::MAX,
        arranges(order, group_ids(entries).len()),
        0 <= i < records_for(entries, order).len(),
    ensures
        ({
            let p = group_place(entries, order, i);
            let q = layer_place(entries, order, i);
            let id = group_ids(entries)[order[p] as int];
            let ms = members(entries, id);
            &&& 0 <= p < order.len()
            &&& 0 <= q < ms.len()
            &&& (i < order.len() <==> q == 0)
            &&& records_for(entries, order)[i].entry == ms[q]
            &&& ms[q] < entries.len()
            &&& entries[ms[q] as int].id == id
        }),
{
    let ids = group_ids(entries);
    let recs = records_for(entries, order);
    let hidden = hidden_upto(entries, order, order.len());
    lemma_ids_upto(entries, entries.len());
    lemma_one_shown_per_group(entries, order);
    if i >= order.len() {
        assert(recs[i] == hidden[i - order.len()]);
        lemma_hidden_shape(entries, order, order.len(), i - order.len());
    }
    let p = group_place(entries, order, i);
    let id = ids[order[p] as int];
    lemma_members_upto(entries, id, entries.len());
    assert(ids.contains(id));
}

/// No entry has two records, where `order` holds no group twice.
pub proof fn lemma_records_distinct(entries: Seq<StatsView>, order: Seq<usize>, i: int, j: int)
    requires
        entries.len() <= usize::MAX,
        arranges(order, group_ids(entries).len()),
        0 <= i < j < records_for(entries, order).len(),
    ensures
        records_for(entries, order)[i].entry != records_for(entries, order)[j].entry,
{
    let ids = group_ids(entries);
    lemma_ids_upto(entries, entries.len());
    lemma_record_shape(entries, order, i);
    lemma_record_shape(entries, order, j);
    let pi = group_place(entries, order, i);
    let pj = group_place(entries, order, j);
    let qi = layer_place(entries, order, i);
    let qj = layer_place(entries, order, j);
    let gi = ids[order[pi] as int];
    let gj = ids[order[pj] as int];
    let mi = members(entries, gi);
    if pi != pj {
        assert(order[pi] != order[pj]);
        assert(gi != gj);
    } else {
        assert(qi != qj);
        lemma_members_ascend(entries, gi, entries.len());
        if qi < qj {
            let a = mi[qi];
            let b = mi[qj];
            assert(a != b);
        } else {
            let a = mi[qj];
            let b = mi[qi];
            assert(a != b);
        }
    }
}

/// There are as many records as entries.
pub proof fn lemma_records_len(entries: Seq<StatsView>)
    requires
        entries.len() <= usize::MAX,
    ensures
        records(entries).len() == entries.len(),
{
    let keys = group_keys(entries);
    let order = sorted_order(keys);
    let recs = records(entries);
    let n = entries.len() as int;
    lemma_ids_upto(entries, entries.len());
    assert(keys.len() == group_ids(entries).len());
    lemma_sorted_order(keys);
    let all = set_int_range(0, recs.len() as int);
    let entry_of = |i: int| recs[i].entry as int;
    assert(injective_on(entry_of, all)) by {
        assert forall|a: int, b: int|
            all.contains(a) && all.contains(b) && #[trigger] entry_of(a) == #[trigger] entry_of(
                b,
            ) implies a == b by {
            if a < b {
                lemma_records_distinct(entries, order, a, b);
            } else if b < a {
                lemma_records_distinct(entries, order, b, a);
            }
        }
    }
    let held = all.map(entry_of);
    lemma_int_range(0, recs.len() as int);
    lemma_map_size(all, held, entry_of);
    lemma_int_range(0, n);
    assert(held =~= set_int_range(0, n)) by {
        assert forall|e: int| held.contains(e) implies set_int_range(0, n).contains(e) by {
            let i = choose|i: int| all.contains(i) && entry_of(i) == e;
            lemma_record_shape(entries, order, i);
        }
        assert forall|e: int| set_int_range(0, n).contains(e) implies held.contains(e) by {
            lemma_records_hold_all(entries, e);
            let i = choose|i: int| 0 <= i < recs.len() && (#[trigger] recs[i]).entry == e;
            assert(all.contains(i) && entry_of(i) == e);
        }
    }
}

/// Every entry has exactly one record among the records of the entries.
pub proof fn lemma_one_record_per_entry(entries: Seq<StatsView>, e: int)
    requires
        0 <= e < entries.len() <= usize::MAX,
    ensures
        records(entries).len() == entries.len(),
        place_of(records(entries), e as usize) < records(entries).len(),
        forall|i: int|
            0 <= i < records(entries).len() ==> ((#[trigger] records(entries)[i]).entry == e
                <==> i == place_of(records(entries), e as usize)),
{
    let keys = group_keys(entries);
    let order = sorted_order(keys);
    let recs = records(entries);
    lemma_ids_upto(entries, entries.len());
    assert(keys.len() == group_ids(entries).len());
    lemma_sorted_order(keys);
    lemma_records_len(entries);
    lemma_records_hold_all(entries, e);
    lemma_place_upto(recs, e as usize, recs.len());
    let at = place_of(recs, e as usize) as int;
    assert forall|i: int| 0 <= i < recs.len() && (#[trigger] recs[i]).entry == e implies i
        == at by {
        if i < at {
            lemma_records_distinct(entries, order, i, at);
        } else if at < i {
            lemma_records_distinct(entries, order, at, i);
        }
    }
}

/// Every entry has a record, where `order` holds every group.
pub proof fn lemma_every_entry_has_a_record(entries: Seq<StatsView>, order: Seq<usize>, e: int)
    requires
        0 <= e < entries.len() <= usize::MAX,
        forall|g: usize| g < group_ids(entries).len() ==> order.contains(g),
    ensures
        exists|i: int|
            0 <= i < records_for(entries, order).len() && (#[trigger] records_for(
                entries,
                order,
            )[i]).entry == e,
{
    let ids = group_ids(entries);
    let id = entries[e].id;
    lemma_ids_upto(entries, entries.len());
    let g = choose|g: int| 0 <= g < ids.len() && ids[g] == id;
    assert(order.contains(g as usize));
    let p = choose|p: int| 0 <= p < order.len() && order[p] == g as usize;
    let ms = members(entries, ids[order[p] as int]);
    lemma_members_complete(entries, id, entries.len());
    let q = choose|q: int| 0 <= q < ms.len() && ms[q] == e as usize;
    if q == 0 {
        lemma_one_shown_per_group(entries, order);
        assert(records_for(entries, order)[p].entry == e);
    } else {
        lemma_hidden_record(entries, order, p, q);
        let at = order.len() + hidden_upto(entries, order, p as nat).len() + q - 1;
        assert(records_for(entries, order)[at].entry == e);
    }
}

/// The sorted order holds every place.
pub proof fn lemma_sorted_upto_holds_all(keys: Seq<SortKeyView>, k: nat)
    requires
        k <= keys.len() <= usize::MAX,
    ensures
        forall|g: usize| g < k ==> sorted_upto(keys, k).contains(g),
    decreases k,
{
    if k > 0 {
        lemma_sorted_upto_holds_all(keys, (k - 1) as nat);
        let prev = sorted_upto(keys, (k - 1) as nat);
        let now = sorted_upto(keys, k);
        let p = key_slot(keys, prev, keys[k - 1], 0);
        lemma_key_slot(keys, prev, keys[k - 1], 0);
        assert forall|g: usize| g < k implies now.contains(g) by {
            if g == k - 1 {
                assert(now[p] == g);
            } else {
                assert(prev.contains(g));
                let q = choose|q: int| 0 <= q < prev.len() && prev[q] == g;
                if q < p {
                    assert(now[q] == g);
                } else {
                    assert(now[q + 1] == g);
                }
            }
        }
    }
}

/// Every entry has a record among the records of the entries.
pub proof fn lemma_records_hold_all(entries: Seq<StatsView>, e: int)
    requires
        0 <= e < entries.len() <= usize::MAX,
    ensures
        exists|i: int|
            0 <= i < records(entries).len() && (#[trigger] records(entries)[i]).entry == e,
{
    lemma_ids_upto(entries, entries.len());
    let keys = group_keys(entries);
    let order = sorted_order(keys);
    assert(keys.len() == group_ids(entries).len());
    lemma_sorted_upto_holds_all(keys, keys.len());
    lemma_every_entry_has_a_record(entries, order, e);
    let i = choose|i: int|
        0 <= i < records_for(entries, order).len() && (#[trigger] records_for(
            entries,
            order,
        )[i]).entry == e;
    assert(records(entries)[i].entry == e);
}

/// Where `e` has a record among the first `k`, its place is the place of such
/// a record.
pub proof fn lemma_place_upto(recs: Seq<Record>, e: usize, k: nat)
    requires
        k <= recs.len() <= usize::MAX,
        exists|i: int| 0 <= i < k && (#[trigger] recs[i]).entry == e,
    ensures
        place_upto(recs, e, k) < k,
        recs[place_upto(recs, e, k) as int].entry == e,
    decreases k,
{
    if recs[k - 1].entry != e {
        let i = choose|i: int| 0 <= i < k && (#[trigger] recs[i]).entry == e;
        assert(i < k - 1);
        lemma_place_upto(recs, e, (k - 1) as nat);
    }
}

/// The place in `records`, among the first `k`, of the last record for the
/// entry `e`; 0 where there is none.
pub open spec fn place_upto(records: Seq<Record>, e: usize, k: nat) -> usize
    decreases k,
{
    if k == 0 {
        0
    } else if records[k - 1].entry == e {
        (k - 1) as usize
    } else {
        place_upto(records, e, (k - 1) as nat)
    }
}

/// The place in `records` of the record for the entry `e`.
pub open spec fn place_of(records: Seq<Record>, e: usize) -> usize {
    place_upto(records, e, records.len())
}

/// For each of `n` entries, the place of its record in `records`.
pub fn places(records: &Vec<Record>, n: usize) -> (r: Vec<usize>)
    requires
        forall|i: int| 0 <= i < records@.len() ==> (#[trigger] records@[i]).entry < n,
    ensures
        r@.len() == n,
        forall|e: int| 0 <= e < n ==> #[trigger] r@[e] == place_of(records@, e as usize),
{
    let mut out: Vec<usize> = Vec::new();
    let mut e: usize = 0;
    while e < n
        invariant
            e <= n,
            out@.len() == e,
            forall|k: int| 0 <= k < e ==> #[trigger] out@[k] == 0,
        decreases n - e,
    {
        out.push(0);
        e = e + 1;
    }
    let mut i: usize = 0;
    while i < records.len()
        invariant
            i <= records@.len(),
            out@.len() == n,
            forall|i: int| 0 <= i < records@.len() ==> (#[trigger] records@[i]).entry < n,
            forall|e: int| 0 <= e < n ==> #[trigger] out@[e] == place_upto(records@, e as usize, i as nat),
        decreases records@.len() - i,
    {
        out.set(records[i].entry, i);
        i = i + 1;
    }
    out
}

} // verus!
