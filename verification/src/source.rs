//! The stat files of a run: which files count, and how what they hold is
//! merged into one list.

use vstd::prelude::*;
use vstd::string::*;
use crate::entry::{attr_get, clone_attrs, entries_view, Stats, StatsView};
use crate::lookup::{Localization, Tooltips};
use crate::parser::{parse_spell, parsed};
use crate::text::{chars_of, has_prefix, starts_with, texts_view};

verus! {

/// Whether a file of this name is a stat file: its name starts with `Spell_`
/// or with `Passive`.
pub open spec fn is_stat_name(name: Seq<char>) -> bool {
    starts_with(name, "Spell_"@) || starts_with(name, "Passive"@)
}

/// Whether a file of this name is a stat file.
pub fn is_stat_file(name: &str) -> (r: bool)
    ensures
        r == is_stat_name(name@),
{
    let chars = chars_of(name);
    let spell = chars_of("Spell_");
    let passive = chars_of("Passive");
    has_prefix(&chars, &spell) || has_prefix(&chars, &passive)
}

/// The name of the attribute that holds the type of a spell.
pub open spec fn spell_type_key() -> Seq<char> {
    "SpellType"@
}

/// The distinct spell types of the first `k` entries, in the order in which
/// they are first seen.
pub open spec fn types_upto(entries: Seq<StatsView>, k: nat) -> Seq<Seq<char>>
    decreases k,
{
    if k == 0 {
        Seq::empty()
    } else {
        let prev = types_upto(entries, (k - 1) as nat);
        match attr_get(entries[k - 1].data, spell_type_key()) {
            Some(t) => if prev.contains(t) {
                prev
            } else {
                prev.push(t)
            },
            None => prev,
        }
    }
}

/// The distinct spell types of the entries, in the order in which they are
/// first seen.
pub open spec fn spell_types(entries: Seq<StatsView>) -> Seq<Seq<char>> {
    types_upto(entries, entries.len())
}

/// The entries of the first `k` lists, one list after the other.
pub open spec fn flat_upto(parts: Seq<Seq<StatsView>>, k: nat) -> Seq<StatsView>
    decreases k,
{
    if k == 0 {
        Seq::empty()
    } else {
        flat_upto(parts, (k - 1) as nat) + parts[k - 1]
    }
}

/// The views of a list of lists of entries.
pub open spec fn parts_view(parts: Seq<Vec<Stats>>) -> Seq<Seq<StatsView>> {
    Seq::new(parts.len(), |i: int| entries_view(parts[i]@))
}

/// A copy of `entry`.
pub fn clone_entry(entry: &Stats) -> (r: Stats)
    ensures
        r@ == entry@,
{
    Stats {
        id: entry.id.clone(),
        stats_type: entry.stats_type.clone(),
        weight: entry.weight,
        data: clone_attrs(&entry.data),
    }
}

/// Whether `t` is among `types`.
fn has_type(types: &Vec<String>, t: &String) -> (r: bool)
    ensures
        r == texts_view(types@).contains(t@),
{
    let mut i: usize = 0;
    while i < types.len()
        invariant
            i <= types@.len(),
            forall|k: int| 0 <= k < i ==> texts_view(types@)[k] != t@,
        decreases types@.len() - i,
    {
        if types[i] == *t {
            assert(texts_view(types@)[i as int] == t@);
            return true;
        }
        i = i + 1;
    }
    false
}

/// The distinct spell types of `entries`, in the order in which they are
/// first seen.
pub fn collect_types(entries: &Vec<Stats>) -> (r: Vec<String>)
    ensures
        texts_view(r@) == spell_types(entries_view(entries@)),
{
    let ghost model = entries_view(entries@);
    let mut types: Vec<String> = Vec::new();
    assert(texts_view(types@) =~= types_upto(model, 0));
    let mut i: usize = 0;
    while i < entries.len()
        invariant
            i <= entries@.len(),
            model == entries_view(entries@),
            texts_view(types@) == types_upto(model, i as nat),
        decreases entries@.len() - i,
    {
        assert(model[i as int] == entries@[i as int]@);
        match entries[i].get("SpellType") {
            Some(t) => {
                if !has_type(&types, t) {
                    let ghost before = texts_view(types@);
                    types.push(t.clone());
                    assert(texts_view(types@) =~= before.push(t@));
                }
            },
            None => {},
        }
        i = i + 1;
    }
    types
}

/// Puts the lists of `parts` into one list, one after the other, and
/// collects the spell types that occur in it.
pub fn merge(parts: &Vec<Vec<Stats>>) -> (r: (Vec<Stats>, Vec<String>))
    ensures
        entries_view(r.0@) == flat_upto(parts_view(parts@), parts@.len()),
        texts_view(r.1@) == spell_types(entries_view(r.0@)),
{
    let ghost all = parts_view(parts@);
    let mut list: Vec<Stats> = Vec::new();
    assert(entries_view(list@) =~= flat_upto(all, 0));
    let mut i: usize = 0;
    while i < parts.len()
        invariant
            i <= parts@.len(),
            all == parts_view(parts@),
            entries_view(list@) == flat_upto(all, i as nat),
        decreases parts@.len() - i,
    {
        let part = &parts[i];
        let ghost before = entries_view(list@);
        assert(all[i as int] == entries_view(part@));
        let mut j: usize = 0;
        while j < part.len()
            invariant
                j <= part@.len(),
                entries_view(list@) == before + entries_view(part@).take(j as int),
            decreases part@.len() - j,
        {
            let ghost so_far = entries_view(list@);
            list.push(clone_entry(&part[j]));
            assert(entries_view(list@) =~= so_far.push(part@[j as int]@));
            assert(entries_view(part@).take(j + 1) =~= entries_view(part@).take(j as int).push(
                part@[j as int]@,
            ));
            j = j + 1;
        }
        assert(entries_view(part@).take(j as int) =~= entries_view(part@));
        i = i + 1;
    }
    let types = collect_types(&list);
    (list, types)
}

/// A file of a source directory: its name, the rank of its layer, and what
/// it holds.
pub struct SourceFile {
    pub name: String,
    pub weight: u8,
    pub content: String,
}

/// The entries that one file contributes: those it holds if it is a stat
/// file, none if it is not.
pub open spec fn file_entries(
    name: Seq<char>,
    weight: u8,
    content: Seq<char>,
    lang: Map<Seq<char>, Seq<char>>,
    tips: Map<Seq<char>, (Seq<char>, Seq<char>)>,
) -> Seq<StatsView> {
    if is_stat_name(name) {
        parsed(content, weight, lang, tips)
    } else {
        Seq::empty()
    }
}

/// What each of the files contributes.
pub open spec fn files_entries(
    files: Seq<SourceFile>,
    lang: Map<Seq<char>, Seq<char>>,
    tips: Map<Seq<char>, (Seq<char>, Seq<char>)>,
) -> Seq<Seq<StatsView>> {
    Seq::new(
        files.len(),
        |i: int| file_entries(files[i].name@, files[i].weight, files[i].content@, lang, tips),
    )
}

/// Reads the stat files among `files` and merges what they hold, in the
/// order of the files; with it come the spell types that occur.
pub fn load_spell(files: &Vec<SourceFile>, lang: &Localization, tips: &Tooltips) -> (r: (
    Vec<Stats>,
    Vec<String>,
))
    ensures
        entries_view(r.0@) == flat_upto(files_entries(files@, lang@, tips@), files@.len()),
        texts_view(r.1@) == spell_types(entries_view(r.0@)),
{
    let mut parts: Vec<Vec<Stats>> = Vec::new();
    let mut i: usize = 0;
    while i < files.len()
        invariant
            i <= files@.len(),
            parts@.len() == i,
            forall|k: int|
                0 <= k < i ==> entries_view(#[trigger] parts@[k]@) == files_entries(
                    files@,
                    lang@,
                    tips@,
                )[k],
        decreases files@.len() - i,
    {
        let file = &files[i];
        if is_stat_file(file.name.as_str()) {
            parts.push(parse_spell(file.content.as_str(), file.weight, lang, tips));
        } else {
            let none: Vec<Stats> = Vec::new();
            assert(entries_view(none@) =~= Seq::<StatsView>::empty());
            parts.push(none);
        }
        i = i + 1;
    }
    assert(parts_view(parts@) =~= files_entries(files@, lang@, tips@));
    merge(&parts)
}

} // verus!
