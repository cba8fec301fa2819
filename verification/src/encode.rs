//! The dictionary of attribute names and the encoding of the records.

use vstd::prelude::*;
use vstd::string::*;
use crate::classify::{
    bases_known, bases_ok, classify, lemma_records_len, levels_ok, place_of, places, records,
    sort_keys, sort_keys_of, Record,
};
use crate::codec::{n2s, token, TOKEN_LIMIT};
use crate::entry::{
    attr_set, attrs_view, clone_attrs, entries_view, set_attr, Attrs, Stats, StatsView,
};
use crate::group::{using_key, Resolver};
use crate::text::{decimal, decimal_text, join, joined, texts_view};

verus! {

/// The position of `key` in `names`, or the length of `names` where it is not
/// among them.
pub open spec fn name_pos(names: Seq<Seq<char>>, key: Seq<char>) -> int
    decreases names.len(),
{
    if names.len() == 0 {
        0
    } else {
        let p = name_pos(names.drop_last(), key);
        if p < names.len() - 1 {
            p
        } else if names.last() == key {
            names.len() - 1
        } else {
            names.len() as int
        }
    }
}

/// The dictionary after `key` was looked up in it: a name that it lacks is
/// appended.
pub open spec fn dict_add(names: Seq<Seq<char>>, key: Seq<char>) -> Seq<Seq<char>> {
    if name_pos(names, key) < names.len() {
        names
    } else {
        names.push(key)
    }
}

/// The dictionary after the names of the first `k` attributes of `attrs` were
/// looked up in it, one after the other.
pub open spec fn dict_extend(names: Seq<Seq<char>>, attrs: Attrs, k: nat) -> Seq<Seq<char>>
    decreases k,
{
    if k == 0 {
        names
    } else {
        dict_add(dict_extend(names, attrs, (k - 1) as nat), attrs[k - 1].0)
    }
}

/// The tokens of the names of the first `k` attributes, one after the other;
/// each name has the token of its position in the dictionary as it stands
/// when the name is looked up.
pub open spec fn header_upto(names: Seq<Seq<char>>, attrs: Attrs, k: nat) -> Seq<char>
    decreases k,
{
    if k == 0 {
        Seq::empty()
    } else {
        header_upto(names, attrs, (k - 1) as nat) + token(
            name_pos(dict_extend(names, attrs, (k - 1) as nat), attrs[k - 1].0),
        )
    }
}

/// The values of the first `k` attributes, each behind a NUL.
pub open spec fn values_upto(attrs: Attrs, k: nat) -> Seq<char>
    decreases k,
{
    if k == 0 {
        Seq::empty()
    } else {
        (values_upto(attrs, (k - 1) as nat) + seq!['\0']) + attrs[k - 1].1
    }
}

/// A record in its encoded form: the tokens of its names, a NUL, and its
/// values with a NUL between each two.
pub open spec fn encoded(names: Seq<Seq<char>>, attrs: Attrs) -> Seq<char> {
    header_upto(names, attrs, attrs.len()) + values_upto(attrs, attrs.len())
}

/// `name_pos` is the first position that holds `key`.
pub proof fn lemma_name_pos(names: Seq<Seq<char>>, key: Seq<char>)
    ensures
        0 <= name_pos(names, key) <= names.len(),
        name_pos(names, key) < names.len() ==> names[name_pos(names, key)] == key,
        forall|j: int| 0 <= j < name_pos(names, key) ==> #[trigger] names[j] != key,
    decreases names.len(),
{
    if names.len() > 0 {
        lemma_name_pos(names.drop_last(), key);
        let p = name_pos(names.drop_last(), key);
        assert forall|j: int| 0 <= j < name_pos(names, key) implies #[trigger] names[j] != key by {
            if j < names.len() - 1 {
                assert(names.drop_last()[j] == names[j]);
            }
        }
        if p < names.len() - 1 {
            assert(names.drop_last()[p] == names[p]);
        }
    }
}

/// A position that holds `key`, with none before it that does, is `name_pos`.
pub proof fn lemma_name_pos_is(names: Seq<Seq<char>>, key: Seq<char>, i: int)
    requires
        0 <= i <= names.len(),
        i < names.len() ==> names[i] == key,
        forall|j: int| 0 <= j < i ==> #[trigger] names[j] != key,
    ensures
        name_pos(names, key) == i,
{
    lemma_name_pos(names, key);
    let p = name_pos(names, key);
    if p < i {
        assert(names[p] != key);
    }
}

/// The dictionary never shrinks while names are looked up.
pub proof fn lemma_dict_extend_grows(names: Seq<Seq<char>>, attrs: Attrs, j: nat, k: nat)
    requires
        j <= k,
    ensures
        dict_extend(names, attrs, j).len() <= dict_extend(names, attrs, k).len(),
    decreases k,
{
    if j < k {
        lemma_dict_extend_grows(names, attrs, j, (k - 1) as nat);
    }
}

/// Whether no name occurs twice in `names`.
pub open spec fn names_distinct(names: Seq<Seq<char>>) -> bool {
    forall|i: int, j: int| 0 <= i < j < names.len() ==> names[i] != names[j]
}

/// Whether `later` is `earlier` with names appended: every name of
/// `earlier` has kept its place.
pub open spec fn extends(later: Seq<Seq<char>>, earlier: Seq<Seq<char>>) -> bool {
    earlier.len() <= later.len() && forall|i: int|
        0 <= i < earlier.len() ==> later[i] == earlier[i]
}

/// A lookup only appends to the dictionary and keeps its names distinct, and
/// the name that was looked up then stands at the place that was given.
pub proof fn lemma_dict_add_keeps(names: Seq<Seq<char>>, key: Seq<char>)
    ensures
        extends(dict_add(names, key), names),
        names_distinct(names) ==> names_distinct(dict_add(names, key)),
        name_pos(names, key) < dict_add(names, key).len(),
        dict_add(names, key)[name_pos(names, key)] == key,
{
    lemma_name_pos(names, key);
}

/// Looking up the names of a record only appends to the dictionary and keeps
/// its names distinct.
pub proof fn lemma_dict_extend_keeps(names: Seq<Seq<char>>, attrs: Attrs, k: nat)
    ensures
        extends(dict_extend(names, attrs, k), names),
        names_distinct(names) ==> names_distinct(dict_extend(names, attrs, k)),
    decreases k,
{
    if k > 0 {
        lemma_dict_extend_keeps(names, attrs, (k - 1) as nat);
        lemma_dict_add_keeps(dict_extend(names, attrs, (k - 1) as nat), attrs[k - 1].0);
    }
}

/// The attribute names of a run, each with the place it was first seen at.
pub struct KeyDictionary {
    /// The names, in the order in which they were first seen.
    pub names: Vec<String>,
}

impl View for KeyDictionary {
    type V = Seq<Seq<char>>;

    open spec fn view(&self) -> Seq<Seq<char>> {
        texts_view(self.names@)
    }
}

impl KeyDictionary {
    /// A dictionary without names.
    pub fn new() -> (r: KeyDictionary)
        ensures
            r@ == Seq::<Seq<char>>::empty(),
    {
        let r = KeyDictionary { names: Vec::new() };
        assert(r@ =~= Seq::<Seq<char>>::empty());
        r
    }

    /// The place of `key` in the dictionary; a name that the dictionary lacks
    /// is appended first.
    pub fn index_of(&mut self, key: &String) -> (i: usize)
        ensures
            i == name_pos(old(self)@, key@),
            final(self)@ == dict_add(old(self)@, key@),
    {
        let ghost before = self@;
        let mut i: usize = 0;
        while i < self.names.len()
            invariant
                i <= self.names@.len(),
                *self == *old(self),
                before == self@,
                forall|j: int| 0 <= j < i ==> #[trigger] before[j] != key@,
            decreases self.names@.len() - i,
        {
            if self.names[i] == *key {
                proof {
                    lemma_name_pos_is(before, key@, i as int);
                }
                return i;
            }
            i = i + 1;
        }
        proof {
            lemma_name_pos_is(before, key@, i as int);
        }
        self.names.push(key.clone());
        assert(self@ =~= before.push(key@));
        i
    }
}

/// Encodes the record with the attributes `attrs` and enters its names into
/// `dict`, which comes back with the record. `None` where a name would get a
/// place that has no token.
pub fn encode_record(dict: KeyDictionary, attrs: &Vec<(String, String)>) -> (r: Option<
    (String, KeyDictionary),
>)
    requires
        dict@.len() <= TOKEN_LIMIT,
    ensures
        match r {
            Some((s, after)) => {
                &&& s@ == encoded(dict@, attrs_view(attrs@))
                &&& after@ == dict_extend(dict@, attrs_view(attrs@), attrs@.len())
                &&& after@.len() <= TOKEN_LIMIT
            },
            None => dict_extend(dict@, attrs_view(attrs@), attrs@.len()).len() > TOKEN_LIMIT,
        },
{
    let ghost start = dict@;
    let ghost all = attrs_view(attrs@);
    let mut names = dict;
    let mut out = String::new();
    let mut k: usize = 0;
    while k < attrs.len()
        invariant
            k <= attrs@.len(),
            all == attrs_view(attrs@),
            start == dict@,
            names@ == dict_extend(start, all, k as nat),
            names@.len() <= TOKEN_LIMIT,
            out@ == header_upto(start, all, k as nat),
        decreases attrs@.len() - k,
    {
        let i = names.index_of(&attrs[k].0);
        assert(all[k as int].0 == attrs@[k as int].0@);
        if i >= TOKEN_LIMIT {
            proof {
                lemma_name_pos(dict_extend(start, all, k as nat), all[k as int].0);
                lemma_dict_extend_grows(start, all, (k + 1) as nat, all.len());
            }
            return None;
        }
        let t = n2s(i);
        out.append(t.as_str());
        k = k + 1;
    }
    let mut k: usize = 0;
    let ghost head = out@;
    while k < attrs.len()
        invariant
            k <= attrs@.len(),
            all == attrs_view(attrs@),
            out@ == head + values_upto(all, k as nat),
        decreases attrs@.len() - k,
    {
        out.append("\0");
        out.append(attrs[k].1.as_str());
        proof {
            reveal_strlit("\0");
            assert("\0"@ =~= seq!['\0']);
            assert(all[k as int].1 == attrs@[k as int].1@);
            assert(out@ =~= head + values_upto(all, (k + 1) as nat));
        }
        k = k + 1;
    }
    Some((out, names))
}

/// The name of the attribute that holds, for a hidden record, the place of
/// its group.
pub open spec fn owner_key() -> Seq<char> {
    "i"@
}

/// The name of the attribute that holds the name of a record's layer.
pub open spec fn layer_key() -> Seq<char> {
    "mod"@
}

/// The attributes of the record at place `i`, as they are encoded: those of
/// its entry, then `Using` set to the place of the record it hands over to,
/// for a hidden record `i` set to the place of its group, and `mod` set to
/// the name of its layer.
pub open spec fn record_attrs(
    entries: Seq<StatsView>,
    flags: Seq<Seq<char>>,
    recs: Seq<Record>,
    i: int,
) -> Attrs {
    let r = recs[i];
    let entry = entries[r.entry as int];
    let linked = attr_set(entry.data, using_key(), decimal(place_of(recs, r.target) as nat));
    let owned = if r.shown {
        linked
    } else {
        attr_set(linked, owner_key(), decimal(r.owner as nat))
    };
    attr_set(owned, layer_key(), flags[entry.weight as int])
}

/// The dictionary after the first `k` records were encoded.
pub open spec fn dict_upto(
    entries: Seq<StatsView>,
    flags: Seq<Seq<char>>,
    recs: Seq<Record>,
    k: nat,
) -> Seq<Seq<char>>
    decreases k,
{
    if k == 0 {
        Seq::empty()
    } else {
        let attrs = record_attrs(entries, flags, recs, k - 1);
        dict_extend(dict_upto(entries, flags, recs, (k - 1) as nat), attrs, attrs.len())
    }
}

/// The first `k` records in their encoded form.
pub open spec fn encoded_upto(
    entries: Seq<StatsView>,
    flags: Seq<Seq<char>>,
    recs: Seq<Record>,
    k: nat,
) -> Seq<Seq<char>>
    decreases k,
{
    if k == 0 {
        Seq::empty()
    } else {
        encoded_upto(entries, flags, recs, (k - 1) as nat).push(
            encoded(
                dict_upto(entries, flags, recs, (k - 1) as nat),
                record_attrs(entries, flags, recs, k - 1),
            ),
        )
    }
}

/// The dictionary never shrinks from record to record.
pub proof fn lemma_dict_upto_grows(
    entries: Seq<StatsView>,
    flags: Seq<Seq<char>>,
    recs: Seq<Record>,
    j: nat,
    k: nat,
)
    requires
        j <= k,
    ensures
        dict_upto(entries, flags, recs, j).len() <= dict_upto(entries, flags, recs, k).len(),
    decreases k,
{
    if j < k {
        lemma_dict_upto_grows(entries, flags, recs, j, (k - 1) as nat);
        let attrs = record_attrs(entries, flags, recs, k - 1);
        lemma_dict_extend_grows(
            dict_upto(entries, flags, recs, (k - 1) as nat),
            attrs,
            0,
            attrs.len(),
        );
    }
}

/// From record to record the dictionary only gets names appended, and no
/// name occurs in it twice: a name keeps the place at which it was first
/// seen.
pub proof fn lemma_dict_upto_keeps(
    entries: Seq<StatsView>,
    flags: Seq<Seq<char>>,
    recs: Seq<Record>,
    j: nat,
    k: nat,
)
    requires
        j <= k,
    ensures
        extends(dict_upto(entries, flags, recs, k), dict_upto(entries, flags, recs, j)),
        names_distinct(dict_upto(entries, flags, recs, k)),
    decreases k,
{
    if k > 0 {
        let attrs = record_attrs(entries, flags, recs, k - 1);
        let prev = dict_upto(entries, flags, recs, (k - 1) as nat);
        lemma_dict_upto_keeps(entries, flags, recs, if j < k {
            j
        } else {
            (k - 1) as nat
        }, (k - 1) as nat);
        lemma_dict_extend_keeps(prev, attrs, attrs.len());
    }
}

/// Encodes the records `recs` of `entries`, in their order, with one
/// dictionary for all of them. `None` where the dictionary outgrows the
/// tokens.
pub fn encode_records(entries: &Vec<Stats>, flags: &Vec<String>, recs: &Vec<Record>) -> (r: Option<
    (Vec<String>, KeyDictionary),
>)
    requires
        forall|i: int|
            0 <= i < recs@.len() ==> (#[trigger] recs@[i]).entry < entries@.len() && recs@[i].target
                < entries@.len(),
        forall|e: int| 0 <= e < entries@.len() ==> (#[trigger] entries@[e]).weight < flags@.len(),
    ensures
        match r {
            Some((out, dict)) => {
                &&& texts_view(out@) == encoded_upto(
                    entries_view(entries@),
                    texts_view(flags@),
                    recs@,
                    recs@.len(),
                )
                &&& dict@ == dict_upto(
                    entries_view(entries@),
                    texts_view(flags@),
                    recs@,
                    recs@.len(),
                )
                &&& dict@.len() <= TOKEN_LIMIT
            },
            None => dict_upto(entries_view(entries@), texts_view(flags@), recs@, recs@.len()).len()
                > TOKEN_LIMIT,
        },
{
    let ghost model = entries_view(entries@);
    let ghost names = texts_view(flags@);
    let at = places(recs, entries.len());
    let mut dict = KeyDictionary::new();
    let mut out: Vec<String> = Vec::new();
    let mut i: usize = 0;
    while i < recs.len()
        invariant
            i <= recs@.len(),
            model == entries_view(entries@),
            names == texts_view(flags@),
            at@.len() == entries@.len(),
            forall|e: int|
                0 <= e < entries@.len() ==> #[trigger] at@[e] == place_of(recs@, e as usize),
            forall|i: int|
                0 <= i < recs@.len() ==> (#[trigger] recs@[i]).entry < entries@.len()
                    && recs@[i].target < entries@.len(),
            forall|e: int|
                0 <= e < entries@.len() ==> (#[trigger] entries@[e]).weight < flags@.len(),
            texts_view(out@) == encoded_upto(model, names, recs@, i as nat),
            dict@ == dict_upto(model, names, recs@, i as nat),
            dict@.len() <= TOKEN_LIMIT,
        decreases recs@.len() - i,
    {
        let rec = recs[i];
        let entry = &entries[rec.entry];
        assert(model[rec.entry as int] == entry@);
        let mut attrs = clone_attrs(&entry.data);
        set_attr(&mut attrs, "Using".to_string(), decimal_text(at[rec.target]));
        if !rec.shown {
            set_attr(&mut attrs, "i".to_string(), decimal_text(rec.owner));
        }
        set_attr(&mut attrs, "mod".to_string(), flags[entry.weight as usize].clone());
        assert(names[entry.weight as int] == flags@[entry.weight as int]@);
        assert(attrs_view(attrs@) == record_attrs(model, names, recs@, i as int));
        match encode_record(dict, &attrs) {
            Some((s, after)) => {
                out.push(s);
                dict = after;
                assert(texts_view(out@) =~= encoded_upto(model, names, recs@, (i + 1) as nat));
            },
            None => {
                proof {
                    lemma_dict_upto_grows(model, names, recs@, (i + 1) as nat, recs@.len());
                }
                return None;
            },
        }
        i = i + 1;
    }
    Some((out, dict))
}

/// Why a list of entries cannot be encoded.
#[derive(Clone, Copy, Debug, PartialEq, Eq)]
pub enum EncodeError {
    /// The level of a group is no number below 256.
    BadLevel,
    /// An entry names a base that no entry is filed under.
    UnknownBase,
    /// The weight of an entry is the rank of no layer.
    UnknownLayer,
    /// There are more attribute names than tokens.
    TooManyKeys,
}

/// What is handed to the writer of the viewer's data.
#[derive(Debug, PartialEq, Eq)]
pub struct ParseResult {
    /// The records in their encoded form: the shown ones in the order of
    /// their groups, then the hidden ones.
    pub spells: Vec<String>,
    /// The attribute names in the order of the dictionary, with a comma
    /// between each two.
    pub keys: String,
    /// The spell types, with a comma between each two.
    pub types: String,
    /// The icon data. It is empty here and filled by the writer.
    pub icons: String,
    /// The texts of the viewer. They are empty here and filled by the writer.
    pub dic: String,
}

/// Whether the weight of every entry is the rank of a layer.
pub open spec fn layers_ok(entries: Seq<StatsView>, flags: Seq<Seq<char>>) -> bool {
    forall|e: int| 0 <= e < entries.len() ==> (#[trigger] entries[e]).weight < flags.len()
}

/// The dictionary after all the records of the entries were encoded.
pub open spec fn dictionary(entries: Seq<StatsView>, flags: Seq<Seq<char>>) -> Seq<Seq<char>> {
    dict_upto(entries, flags, records(entries), records(entries).len())
}

/// All the records of the entries in their encoded form.
pub open spec fn encoded_records(entries: Seq<StatsView>, flags: Seq<Seq<char>>) -> Seq<
    Seq<char>,
> {
    encoded_upto(entries, flags, records(entries), records(entries).len())
}

/// The first `k` records give `k` encoded records.
pub proof fn lemma_encoded_upto_len(
    entries: Seq<StatsView>,
    flags: Seq<Seq<char>>,
    recs: Seq<Record>,
    k: nat,
)
    ensures
        encoded_upto(entries, flags, recs, k).len() == k,
    decreases k,
{
    if k > 0 {
        lemma_encoded_upto_len(entries, flags, recs, (k - 1) as nat);
    }
}

/// Every entry is encoded: there are as many encoded records as entries.
pub proof fn lemma_encoded_records_len(entries: Seq<StatsView>, flags: Seq<Seq<char>>)
    requires
        entries.len() <= usize::MAX,
    ensures
        encoded_records(entries, flags).len() == entries.len(),
{
    lemma_records_len(entries);
    lemma_encoded_upto_len(entries, flags, records(entries), records(entries).len());
}

/// Why the entries cannot be encoded, if they cannot: the first of the four
/// reasons that holds.
pub open spec fn failure(entries: Seq<StatsView>, flags: Seq<Seq<char>>) -> Option<EncodeError> {
    if !levels_ok(entries) {
        Some(EncodeError::BadLevel)
    } else if !bases_ok(entries) {
        Some(EncodeError::UnknownBase)
    } else if !layers_ok(entries, flags) {
        Some(EncodeError::UnknownLayer)
    } else if dictionary(entries, flags).len() > TOKEN_LIMIT {
        Some(EncodeError::TooManyKeys)
    } else {
        None
    }
}

/// Whether the weight of every entry is the rank of a layer.
pub fn layers_known(entries: &Vec<Stats>, flags: &Vec<String>) -> (r: bool)
    ensures
        r == layers_ok(entries_view(entries@), texts_view(flags@)),
{
    let ghost model = entries_view(entries@);
    let mut e: usize = 0;
    while e < entries.len()
        invariant
            e <= entries@.len(),
            model == entries_view(entries@),
            forall|k: int| 0 <= k < e ==> (#[trigger] model[k]).weight < flags@.len(),
        decreases entries@.len() - e,
    {
        assert(model[e as int] == entries@[e as int]@);
        if entries[e].weight as usize >= flags.len() {
            return false;
        }
        e = e + 1;
    }
    true
}

/// Groups the entries by id, sorts the groups, splits each into the record
/// that is shown and those that are hidden, and encodes all of them with
/// one dictionary. `spell_types` are the spell types that were seen, `flags`
/// the names of the layers, by rank. Every entry of `spells` gets a record;
/// a caller that wants the last one left out hands the list over without
/// it.
pub fn parse_data(spells: Vec<Stats>, spell_types: &Vec<String>, flags: &Vec<String>) -> (r: Result<
    ParseResult,
    EncodeError,
>)
    ensures
        match r {
            Ok(pr) => {
                &&& failure(entries_view(spells@), texts_view(flags@)).is_none()
                &&& pr.spells@.len() == spells@.len()
                &&& texts_view(pr.spells@) == encoded_records(
                    entries_view(spells@),
                    texts_view(flags@),
                )
                &&& pr.keys@ == joined(
                    dictionary(entries_view(spells@), texts_view(flags@)),
                    ","@,
                )
                &&& pr.types@ == joined(texts_view(spell_types@), ","@)
                &&& pr.icons@.len() == 0
                &&& pr.dic@.len() == 0
            },
            Err(e) => failure(entries_view(spells@), texts_view(flags@)) == Some(e),
        },
{
    let ghost model = entries_view(spells@);
    let count = spells.len();
    proof {
        assert(model.len() == count);
        lemma_encoded_records_len(model, texts_view(flags@));
    }
    let resolver = Resolver::new(spells);
    let keys = match sort_keys_of(&resolver) {
        Some(keys) => keys,
        None => {
            return Err(EncodeError::BadLevel);
        },
    };
    if !bases_known(&resolver) {
        return Err(EncodeError::UnknownBase);
    }
    if !layers_known(&resolver.entries, flags) {
        return Err(EncodeError::UnknownLayer);
    }
    let order = sort_keys(&keys);
    let recs = classify(&resolver, &order);
    assert(recs@ == records(model));
    assert forall|e: int| 0 <= e < resolver.entries@.len() implies (#[trigger] resolver.entries@[e]).weight
        < flags@.len() by {
        assert(model[e].weight < flags@.len());
    }
    match encode_records(&resolver.entries, flags, &recs) {
        Some((out, dict)) => Ok(
            ParseResult {
                spells: out,
                keys: join(&dict.names, ","),
                types: join(spell_types, ","),
                icons: String::new(),
                dic: String::new(),
            },
        ),
        None => Err(EncodeError::TooManyKeys),
    }
}

} // verus!
