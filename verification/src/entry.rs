//! Entries of the stat language and their ordered attribute lists.

use vstd::prelude::*;
use vstd::string::*;

verus! {

/// An attribute list as contracts see it: names and values in insertion
/// order.
pub type Attrs = Seq<(Seq<char>, Seq<char>)>;

/// The view of a list of attributes.
pub open spec fn attrs_view(data: Seq<(String, String)>) -> Attrs {
    Seq::new(data.len(), |i: int| (data[i].0@, data[i].1@))
}

/// The position of the first attribute named `key`, or the length of the
/// list where none has that name.
pub open spec fn attr_pos(attrs: Attrs, key: Seq<char>) -> int
    decreases attrs.len(),
{
    if attrs.len() == 0 {
        0
    } else {
        let p = attr_pos(attrs.drop_last(), key);
        if p < attrs.len() - 1 {
            p
        } else if attrs.last().0 == key {
            attrs.len() - 1
        } else {
            attrs.len() as int
        }
    }
}

/// Whether some attribute is named `key`.
pub open spec fn attr_has(attrs: Attrs, key: Seq<char>) -> bool {
    attr_pos(attrs, key) < attrs.len()
}

/// The value of the first attribute named `key`.
pub open spec fn attr_get(attrs: Attrs, key: Seq<char>) -> Option<Seq<char>> {
    if attr_has(attrs, key) {
        Some(attrs[attr_pos(attrs, key)].1)
    } else {
        None
    }
}

/// The list after `key` is set to `value`: the first attribute of that name
/// takes the value and keeps its place; where there is none, the pair is
/// appended.
pub open spec fn attr_set(attrs: Attrs, key: Seq<char>, value: Seq<char>) -> Attrs {
    if attr_has(attrs, key) {
        attrs.update(attr_pos(attrs, key), (key, value))
    } else {
        attrs.push((key, value))
    }
}

/// Whether no name occurs twice.
pub open spec fn attrs_distinct(attrs: Attrs) -> bool {
    forall|i: int, j: int| 0 <= i < j < attrs.len() ==> attrs[i].0 != attrs[j].0
}

/// `attr_pos` is the first position that holds `key`.
pub proof fn lemma_attr_pos(attrs: Attrs, key: Seq<char>)
    ensures
        0 <= attr_pos(attrs, key) <= attrs.len(),
        attr_has(attrs, key) ==> attrs[attr_pos(attrs, key)].0 == key,
        forall|j: int| 0 <= j < attr_pos(attrs, key) ==> (#[trigger] attrs[j]).0 != key,
    decreases attrs.len(),
{
    if attrs.len() > 0 {
        lemma_attr_pos(attrs.drop_last(), key);
        let p = attr_pos(attrs.drop_last(), key);
        assert forall|j: int| 0 <= j < attr_pos(attrs, key) implies (#[trigger] attrs[j]).0
            != key by {
            if j < attrs.len() - 1 {
                assert(attrs.drop_last()[j] == attrs[j]);
            }
        }
        if p < attrs.len() - 1 {
            assert(attrs.drop_last()[p] == attrs[p]);
        }
    }
}

/// A position that holds `key`, with none before it that does, is `attr_pos`.
pub proof fn lemma_attr_pos_is(attrs: Attrs, key: Seq<char>, i: int)
    requires
        0 <= i <= attrs.len(),
        i < attrs.len() ==> attrs[i].0 == key,
        forall|j: int| 0 <= j < i ==> (#[trigger] attrs[j]).0 != key,
    ensures
        attr_pos(attrs, key) == i,
{
    lemma_attr_pos(attrs, key);
    let p = attr_pos(attrs, key);
    if p < i {
        assert(attrs[p].0 != key);
    }
}

/// Setting an attribute keeps the names distinct, and a lookup of the name
/// then gives the new value, while every other name keeps its value.
pub proof fn lemma_attr_set(attrs: Attrs, key: Seq<char>, value: Seq<char>, other: Seq<char>)
    ensures
        attr_get(attr_set(attrs, key, value), key) == Some(value),
        other != key ==> attr_get(attr_set(attrs, key, value), other) == attr_get(attrs, other),
        attrs_distinct(attrs) ==> attrs_distinct(attr_set(attrs, key, value)),
{
    let after = attr_set(attrs, key, value);
    lemma_attr_pos(attrs, key);
    lemma_attr_pos(attrs, other);
    let p = attr_pos(attrs, key);
    lemma_attr_pos_is(after, key, p);
    if other != key {
        let q = attr_pos(attrs, other);
        lemma_attr_pos_is(after, other, if q < attrs.len() { q } else { after.len() as int });
    }
    if attrs_distinct(attrs) {
        assert forall|i: int, j: int| 0 <= i < j < after.len() implies after[i].0 != after[j].0 by {
            if j < attrs.len() {
                assert(attrs[i].0 != attrs[j].0);
            }
        }
    }
}

/// One entry of a stat file.
pub struct Stats {
    /// The name the entry is filed under.
    pub id: String,
    /// The stat category.
    pub stats_type: String,
    /// The rank of the layer the entry comes from.
    pub weight: u8,
    /// The attributes, in insertion order.
    pub data: Vec<(String, String)>,
}

/// An entry as contracts see it.
pub struct StatsView {
    pub id: Seq<char>,
    pub stats_type: Seq<char>,
    pub weight: u8,
    pub data: Attrs,
}

impl View for Stats {
    type V = StatsView;

    open spec fn view(&self) -> StatsView {
        StatsView {
            id: self.id@,
            stats_type: self.stats_type@,
            weight: self.weight,
            data: attrs_view(self.data@),
        }
    }
}

/// The views of a list of entries.
pub open spec fn entries_view(list: Seq<Stats>) -> Seq<StatsView> {
    Seq::new(list.len(), |i: int| list[i]@)
}

impl Stats {
    /// An entry with an empty id, an empty type, weight 0 and no attribute.
    pub fn new() -> (r: Stats)
        ensures
            r@.id.len() == 0,
            r@.stats_type.len() == 0,
            r@.weight == 0,
            r@.data.len() == 0,
    {
        Stats { id: String::new(), stats_type: String::new(), weight: 0, data: Vec::new() }
    }

    /// The value of the first attribute named `key`.
    pub fn get(&self, key: &str) -> (r: Option<&String>)
        ensures
            match r {
                Some(v) => attr_get(self@.data, key@) == Some(v@),
                None => attr_get(self@.data, key@).is_none(),
            },
    {
        let name = key.to_string();
        let mut i: usize = 0;
        while i < self.data.len()
            invariant
                i <= self.data@.len(),
                name@ == key@,
                forall|j: int| 0 <= j < i ==> (#[trigger] self@.data[j]).0 != key@,
            decreases self.data@.len() - i,
        {
            if self.data[i].0 == name {
                proof {
                    lemma_attr_pos_is(self@.data, key@, i as int);
                }
                return Some(&self.data[i].1);
            }
            i = i + 1;
        }
        proof {
            lemma_attr_pos_is(self@.data, key@, i as int);
        }
        None
    }

    /// Sets the attribute `key` to `value`: in place where the entry has the
    /// name already, at the end where it has not.
    pub fn insert(&mut self, key: String, value: String)
        ensures
            final(self)@.id == old(self)@.id,
            final(self)@.stats_type == old(self)@.stats_type,
            final(self)@.weight == old(self)@.weight,
            final(self)@.data == attr_set(old(self)@.data, key@, value@),
    {
        set_attr(&mut self.data, key, value);
    }
}

/// Sets the attribute `key` of `data` to `value`: in place where the list has
/// the name already, at the end where it has not.
pub fn set_attr(data: &mut Vec<(String, String)>, key: String, value: String)
    ensures
        attrs_view(final(data)@) == attr_set(attrs_view(old(data)@), key@, value@),
{
    let ghost before = attrs_view(data@);
    let mut i: usize = 0;
    while i < data.len()
        invariant
            i <= data@.len(),
            *data == *old(data),
            before == attrs_view(data@),
            forall|j: int| 0 <= j < i ==> (#[trigger] before[j]).0 != key@,
        decreases data@.len() - i,
    {
        if data[i].0 == key {
            proof {
                lemma_attr_pos_is(before, key@, i as int);
            }
            data.set(i, (key, value));
            assert(attrs_view(data@) =~= attr_set(before, key@, value@));
            return ;
        }
        i = i + 1;
    }
    proof {
        lemma_attr_pos_is(before, key@, i as int);
    }
    data.push((key, value));
    assert(attrs_view(data@) =~= attr_set(before, key@, value@));
}

/// A copy of the list `data`.
pub fn clone_attrs(data: &Vec<(String, String)>) -> (r: Vec<(String, String)>)
    ensures
        attrs_view(r@) == attrs_view(data@),
{
    let mut out: Vec<(String, String)> = Vec::new();
    let mut i: usize = 0;
    while i < data.len()
        invariant
            i <= data@.len(),
            out@.len() == i,
            forall|j: int| 0 <= j < i ==> (#[trigger] out@[j]).0@ == data@[j].0@ && out@[j].1@ == data@[j].1@,
        decreases data@.len() - i,
    {
        out.push((data[i].0.clone(), data[i].1.clone()));
        i = i + 1;
    }
    assert(attrs_view(out@) =~= attrs_view(data@));
    out
}

} // verus!
