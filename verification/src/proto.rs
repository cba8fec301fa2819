//! The prototype of an entry in a list of entries: the later entry of the
//! base that the entry names, picked by the ranks of the layers.

use vstd::prelude::*;
use vstd::string::*;
use crate::entry::{attr_get, entries_view, Stats, StatsView};
use crate::group::using_key;

verus! {

/// The highest weight that a prototype of `entry` may have: for an entry that
/// names itself as base, the weight of the layer below its own; for any
/// other, its own weight.
pub open spec fn proto_limit(entry: StatsView, base: Seq<char>) -> int {
    if entry.id == base {
        entry.weight - 1
    } else {
        entry.weight as int
    }
}

/// Where the search for a prototype stands: the place it would give now, and
/// whether it has ended.
pub struct Search {
    pub last: usize,
    pub ended: bool,
}

/// The search after it has looked at the entry at `x`. An entry that is not
/// filed under `base`, or that weighs more than `max`, changes nothing. One
/// that weighs exactly `max` is the prototype, and the search ends. One
/// that weighs less takes the place, unless the entry that holds the place
/// weighs more; while the place is still 0 and `cur` is 0 too, nothing
/// holds it.
pub open spec fn search_step(
    entries: Seq<StatsView>,
    cur: usize,
    base: Seq<char>,
    max: int,
    st: Search,
    x: usize,
) -> Search {
    let e = entries[x as int];
    if st.ended || e.id != base || e.weight > max {
        st
    } else if e.weight == max {
        Search { last: x, ended: true }
    } else if st.last != cur && entries[st.last as int].weight > e.weight {
        st
    } else {
        Search { last: x, ended: false }
    }
}

/// The search after it has looked at the entries behind `cur` up to, not
/// including, the place `x`. It starts with the place 0.
pub open spec fn search_upto(
    entries: Seq<StatsView>,
    cur: usize,
    base: Seq<char>,
    max: int,
    x: nat,
) -> Search
    decreases x,
{
    if x <= cur + 1 {
        Search { last: 0, ended: false }
    } else {
        search_step(
            entries,
            cur,
            base,
            max,
            search_upto(entries, cur, base, max, (x - 1) as nat),
            (x - 1) as usize,
        )
    }
}

/// The place of the prototype of the entry at `cur`: the entry itself where
/// it names no base, else what the search among the entries behind it gives.
pub open spec fn proto_of(entries: Seq<StatsView>, cur: usize) -> usize {
    match attr_get(entries[cur as int].data, using_key()) {
        Some(base) => search_upto(
            entries,
            cur,
            base,
            proto_limit(entries[cur as int], base),
            entries.len(),
        ).last,
        None => cur,
    }
}

/// The place that the search holds is 0 or lies behind `cur`, where an entry
/// of the base stands that weighs at most `max`.
pub proof fn lemma_search_upto(
    entries: Seq<StatsView>,
    cur: usize,
    base: Seq<char>,
    max: int,
    x: nat,
)
    requires
        cur < entries.len() <= usize::MAX,
        x <= entries.len(),
    ensures
        ({
            let st = search_upto(entries, cur, base, max, x);
            st.last == 0 || (cur < st.last < x && entries[st.last as int].id == base
                && entries[st.last as int].weight <= max)
        }),
        search_upto(entries, cur, base, max, x).ended ==> entries[search_upto(
            entries,
            cur,
            base,
            max,
            x,
        ).last as int].weight == max,
    decreases x,
{
    if x > cur + 1 {
        lemma_search_upto(entries, cur, base, max, (x - 1) as nat);
    }
}

/// The place in `list` of the prototype of the entry at `cur`.
pub fn get_spell_proto(cur: usize, list: &Vec<Stats>) -> (r: usize)
    requires
        cur < list@.len(),
        attr_get(list@[cur as int]@.data, using_key()) == Some(list@[cur as int]@.id)
            ==> list@[cur as int]@.weight >= 1,
    ensures
        r == proto_of(entries_view(list@), cur),
        r < list@.len(),
        attr_get(list@[cur as int]@.data, using_key()).is_none() ==> r == cur,
        attr_get(list@[cur as int]@.data, using_key()).is_some() ==> r == 0 || (cur < r
            && Some(list@[r as int]@.id) == attr_get(list@[cur as int]@.data, using_key())),
{
    let ghost model = entries_view(list@);
    let spell = &list[cur];
    assert(model[cur as int] == spell@);
    match spell.get("Using") {
        Some(id) => {
            let len = list.len();
            let max: u8 = if spell.id == *id {
                spell.weight - 1
            } else {
                spell.weight
            };
            let mut last: usize = 0;
            let mut x: usize = cur + 1;
            while x < len
                invariant_except_break
                    cur < x <= len,
                    (Search { last, ended: false }) == search_upto(
                        model,
                        cur,
                        id@,
                        max as int,
                        x as nat,
                    ),
                invariant
                    len == list@.len(),
                    model == entries_view(list@),
                    cur < len,
                    last < len,
                ensures
                    last == search_upto(model, cur, id@, max as int, len as nat).last,
                decreases len - x,
            {
                let s = &list[x];
                assert(model[x as int] == s@);
                assert(model[last as int] == list@[last as int]@);
                if s.id == *id {
                    if s.weight > max {
                    } else if s.weight == max {
                        last = x;
                        proof {
                            lemma_search_ended(model, cur, id@, max as int, (x + 1) as nat, len as nat);
                        }
                        break;
                    } else if last != cur && list[last].weight > s.weight {
                    } else {
                        last = x;
                    }
                }
                x = x + 1;
            }
            proof {
                lemma_search_upto(model, cur, id@, max as int, len as nat);
            }
            last
        },
        None => cur,
    }
}

/// A search that has ended stays as it is.
pub proof fn lemma_search_ended(
    entries: Seq<StatsView>,
    cur: usize,
    base: Seq<char>,
    max: int,
    x: nat,
    y: nat,
)
    requires
        cur + 1 < x <= y,
        search_upto(entries, cur, base, max, x).ended,
    ensures
        search_upto(entries, cur, base, max, y) == search_upto(entries, cur, base, max, x),
    decreases y,
{
    if x < y {
        lemma_search_ended(entries, cur, base, max, x, (y - 1) as nat);
    }
}

} // verus!
