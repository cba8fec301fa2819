//! The reader of stat files: lines that open an entry, name its base, give
//! its type or set one of its attributes.

use vstd::prelude::*;
use vstd::string::*;
use vstd::utf8::encode_utf8;
use crate::codec::{hash, hash_text};
use crate::entry::{attr_set, entries_view, Stats, StatsView};
use crate::group::using_key;
use crate::lookup::{localized, Localization, Tooltips};
use crate::pattern::{
    match_str, matched, regex_captures, regex_replace, replace_str, replaced_or, replaced_text,
};
use crate::text::{
    chars_of, has_prefix, opt_texts_view, same_chars, slice_chars, starts_with, string_of,
};

verus! {

/// The place of the first line feed at or after `from`, or the length of
/// `s`.
pub open spec fn line_end(s: Seq<char>, from: int) -> int
    decreases s.len() - from,
{
    if from < 0 || from >= s.len() {
        s.len() as int
    } else if s[from] == '\n' {
        from
    } else {
        line_end(s, from + 1)
    }
}

/// `line` without a carriage return at its end.
pub open spec fn trim_cr(line: Seq<char>) -> Seq<char> {
    if line.len() > 0 && line.last() == '\r' {
        line.drop_last()
    } else {
        line
    }
}

/// The lines of `s` from `from` on. A line ends at a line feed, or at a
/// carriage return with a line feed behind it; neither belongs to the line.
/// What follows the last line feed is a line if it is not empty.
pub open spec fn lines_from(s: Seq<char>, from: int) -> Seq<Seq<char>>
    decreases s.len() - from,
{
    if from < 0 || from >= s.len() {
        Seq::empty()
    } else {
        let end = line_end(s, from);
        proof {
            lemma_line_end(s, from);
        }
        if end < s.len() {
            seq![trim_cr(s.subrange(from, end))] + lines_from(s, end + 1)
        } else {
            seq![s.subrange(from, end)]
        }
    }
}

/// The lines of `s`.
pub open spec fn lines_of(s: Seq<char>) -> Seq<Seq<char>> {
    lines_from(s, 0)
}

/// The views of a list of lines.
pub open spec fn lines_view(lines: Seq<Vec<char>>) -> Seq<Seq<char>> {
    Seq::new(lines.len(), |i: int| lines[i]@)
}

/// `line_end` lies between `from` and the length of `s`.
pub proof fn lemma_line_end(s: Seq<char>, from: int)
    requires
        0 <= from <= s.len(),
    ensures
        from <= line_end(s, from) <= s.len(),
    decreases s.len() - from,
{
    if from < s.len() && s[from] != '\n' {
        lemma_line_end(s, from + 1);
    }
}

/// Cuts `s` into its lines.
pub fn split_lines(s: &Vec<char>) -> (r: Vec<Vec<char>>)
    ensures
        lines_view(r@) == lines_of(s@),
{
    let n = s.len();
    let mut out: Vec<Vec<char>> = Vec::new();
    let mut pos: usize = 0;
    assert(lines_view(out@) =~= Seq::<Seq<char>>::empty());
    while pos < n
        invariant
            pos <= n,
            n == s@.len(),
            lines_of(s@) == lines_view(out@) + lines_from(s@, pos as int),
        decreases n - pos,
    {
        let mut end: usize = pos;
        while end < n && s[end] != '\n'
            invariant
                pos <= end <= n,
                n == s@.len(),
                line_end(s@, pos as int) == line_end(s@, end as int),
            decreases n - end,
        {
            end = end + 1;
        }
        let ghost before = lines_view(out@);
        if end < n {
            let stop: usize = if end > pos && s[end - 1] == '\r' {
                end - 1
            } else {
                end
            };
            let line = slice_chars(s, pos, stop);
            assert(line@ =~= trim_cr(s@.subrange(pos as int, end as int)));
            out.push(line);
            assert(lines_view(out@) =~= before.push(line@));
            assert(lines_of(s@) =~= lines_view(out@) + lines_from(s@, end + 1));
            pos = end + 1;
        } else {
            let line = slice_chars(s, pos, end);
            out.push(line);
            assert(lines_view(out@) =~= before.push(line@));
            assert(lines_of(s@) =~= lines_view(out@) + lines_from(s@, end as int));
            pos = end;
        }
    }
    assert(lines_of(s@) =~= lines_view(out@));
    out
}

/// What a line holds behind its first `skip` characters and before its last
/// one; nothing where the line is no longer than `skip`.
pub open spec fn payload(line: Seq<char>, skip: int) -> Seq<char> {
    if line.len() > skip {
        line.subrange(skip, line.len() - 1)
    } else {
        Seq::empty()
    }
}

/// What `line` holds behind its first `skip` characters and before its last
/// one.
pub fn payload_of(line: &Vec<char>, skip: usize) -> (r: String)
    ensures
        r@ == payload(line@, skip as int),
{
    if line.len() > skip {
        let part = slice_chars(line, skip, line.len() - 1);
        string_of(&part)
    } else {
        String::new()
    }
}

/// The pattern of a name with arguments in brackets behind it.
pub open spec fn call_pattern() -> Seq<char> {
    r"([a-zA-Z]+\([0-9',.+\-a-zA-Z \/\\()_]*\))"@
}

/// What a match of `call_pattern` is replaced with: itself in bold.
pub open spec fn bold_markup() -> Seq<char> {
    "<b>$1</b>"@
}

/// The pattern of a semicolon and digits at the end of a text.
pub open spec fn serial_pattern() -> Seq<char> {
    r";\d+$"@
}

/// The pattern of the name and the value of a `data` line, each in quotes.
pub open spec fn data_pattern() -> Seq<char> {
    r#""([^"]+)" "([^"]+)""#@
}

/// The value of a tooltip reference: the name and the text of the tooltip
/// filed under the hash of `value`, with a line break between them; `value`
/// itself where no tooltip is filed there.
pub open spec fn upcast(value: Seq<char>, tips: Map<Seq<char>, (Seq<char>, Seq<char>)>) -> Seq<
    char,
> {
    let key = hash_text(encode_utf8(value));
    if tips.contains_key(key) {
        (tips[key].0 + "<br>"@) + tips[key].1
    } else {
        value
    }
}

/// Whether the attribute `key` holds a text of the localization.
pub open spec fn is_localized(key: Seq<char>) -> bool {
    key == "DisplayName"@ || key == "Description"@ || key == "ExtraDescription"@
}

/// A value that is neither a tooltip reference nor a localized text: empty
/// for the word `unknown`, else with each semicolon replaced by the
/// character 2, which parts the values of a list.
pub open spec fn plain(value: Seq<char>) -> Seq<char> {
    if value == "unknown"@ {
        Seq::empty()
    } else {
        Seq::new(
            value.len(),
            |i: int|
                if value[i] == ';' {
                    '\x02'
                } else {
                    value[i]
                },
        )
    }
}

/// The value that is stored for the attribute `key`, given the value
/// `marked` that the line holds, with its first call in bold, and what
/// cutting the serial number from `marked` returned.
pub open spec fn stored(
    key: Seq<char>,
    marked: Seq<char>,
    cut: Option<Seq<char>>,
    lang: Map<Seq<char>, Seq<char>>,
    tips: Map<Seq<char>, (Seq<char>, Seq<char>)>,
) -> Seq<char> {
    if key == "TooltipUpcastDescription"@ {
        upcast(marked, tips)
    } else if is_localized(key) {
        localized(replaced_or(marked, cut), lang)
    } else {
        plain(marked)
    }
}

/// The value that is stored for the attribute `key` when a line gives it the
/// value `value`.
pub open spec fn transformed(
    key: Seq<char>,
    value: Seq<char>,
    lang: Map<Seq<char>, Seq<char>>,
    tips: Map<Seq<char>, (Seq<char>, Seq<char>)>,
) -> Seq<char> {
    let marked = replaced_or(value, regex_replace(call_pattern(), value, bold_markup()));
    stored(key, marked, regex_replace(serial_pattern(), marked, ""@), lang, tips)
}

/// The value of a tooltip reference.
pub fn upcast_text(value: &str, tips: &Tooltips) -> (r: String)
    ensures
        r@ == upcast(value@, tips@),
{
    let key = hash(value);
    match tips.get(key.as_str()) {
        Some(tip) => {
            let mut out = tip.0.clone();
            out.append("<br>");
            out.append(tip.1.as_str());
            out
        },
        None => value.to_string(),
    }
}

/// A value that is neither a tooltip reference nor a localized text.
pub fn plain_value(value: &str) -> (r: String)
    ensures
        r@ == plain(value@),
{
    let chars = chars_of(value);
    let word = chars_of("unknown");
    if same_chars(&chars, &word) {
        return String::new();
    }
    let mut out: Vec<char> = Vec::new();
    let mut i: usize = 0;
    while i < chars.len()
        invariant
            i <= chars@.len(),
            out@.len() == i,
            forall|k: int|
                0 <= k < i ==> out@[k] == if chars@[k] == ';' {
                    '\x02'
                } else {
                    chars@[k]
                },
        decreases chars@.len() - i,
    {
        let c: char = chars[i];
        if c == ';' {
            out.push('\x02');
        } else {
            out.push(c);
        }
        i = i + 1;
    }
    assert(out@ =~= plain(value@));
    string_of(&out)
}

/// The value that is stored for the attribute `key`, given the value
/// `marked` with its first call in bold.
pub fn store(key: &str, marked: &str, lang: &Localization, tips: &Tooltips) -> (r: String)
    ensures
        r@ == stored(key@, marked@, regex_replace(serial_pattern(), marked@, ""@), lang@, tips@),
{
    let name = key.to_string();
    if name == "TooltipUpcastDescription".to_string() {
        upcast_text(marked, tips)
    } else if name == "DisplayName".to_string() || name == "Description".to_string() || name
        == "ExtraDescription".to_string() {
        let cut = replaced_text(marked, replace_str(marked, r";\d+$", ""));
        lang.resolve(cut.as_str())
    } else {
        plain_value(marked)
    }
}

/// The value that is stored for the attribute `key` when a line gives it the
/// value `value`.
pub fn transform(key: &str, value: &str, lang: &Localization, tips: &Tooltips) -> (r: String)
    ensures
        r@ == transformed(key@, value@, lang@, tips@),
{
    let marked = replaced_text(
        value,
        replace_str(value, r"([a-zA-Z]+\([0-9',.+\-a-zA-Z \/\\()_]*\))", "<b>$1</b>"),
    );
    store(key, marked.as_str(), lang, tips)
}

/// Where the reader stands: the entries that are complete, and the one that
/// is being read.
pub struct Reading {
    pub done: Seq<StatsView>,
    pub cur: StatsView,
}

/// An entry of the layer `weight` with nothing in it.
pub open spec fn blank(weight: u8) -> StatsView {
    StatsView { id: Seq::empty(), stats_type: Seq::empty(), weight, data: Seq::empty() }
}

/// The complete entries once the one being read is closed: it is kept if it
/// has an id.
pub open spec fn flushed(st: Reading) -> Seq<StatsView> {
    if st.cur.id.len() > 0 {
        st.done.push(st.cur)
    } else {
        st.done
    }
}

/// The id that a line which opens an entry gives it: what stands in the
/// quotes behind `new entry`, or behind `new` alone.
pub open spec fn opened_id(line: Seq<char>) -> Seq<char> {
    if starts_with(line, "new entry"@) {
        payload(line, 11)
    } else {
        payload(line, 5)
    }
}

/// The entry being read after a `data` line, given what the search for its
/// name and value found: with exactly the two of them the attribute is set,
/// else the line changes nothing.
pub open spec fn with_data(
    cur: StatsView,
    found: Option<Seq<Seq<char>>>,
    lang: Map<Seq<char>, Seq<char>>,
    tips: Map<Seq<char>, (Seq<char>, Seq<char>)>,
) -> StatsView {
    match found {
        Some(v) => if v.len() == 2 {
            StatsView {
                data: attr_set(cur.data, v[0], transformed(v[0], v[1], lang, tips)),
                ..cur
            }
        } else {
            cur
        },
        None => cur,
    }
}

/// Where the reader stands after one more line. A line that starts with
/// `new` closes the entry being read and opens one of the layer `weight`;
/// `using` names the base, `type` gives the type, `data` sets an attribute;
/// any other line changes nothing.
pub open spec fn after_line(
    st: Reading,
    line: Seq<char>,
    weight: u8,
    lang: Map<Seq<char>, Seq<char>>,
    tips: Map<Seq<char>, (Seq<char>, Seq<char>)>,
) -> Reading {
    if starts_with(line, "new"@) {
        Reading { done: flushed(st), cur: StatsView { id: opened_id(line), ..blank(weight) } }
    } else if starts_with(line, "using"@) {
        Reading {
            cur: StatsView { data: attr_set(st.cur.data, using_key(), payload(line, 7)), ..st.cur },
            ..st
        }
    } else if starts_with(line, "type"@) {
        Reading { cur: StatsView { stats_type: payload(line, 6), ..st.cur }, ..st }
    } else if starts_with(line, "data"@) {
        Reading {
            cur: with_data(st.cur, matched(regex_captures(data_pattern(), line)), lang, tips),
            ..st
        }
    } else {
        st
    }
}

/// Where the reader stands after the first `k` lines.
pub open spec fn after_lines(
    lines: Seq<Seq<char>>,
    k: nat,
    weight: u8,
    lang: Map<Seq<char>, Seq<char>>,
    tips: Map<Seq<char>, (Seq<char>, Seq<char>)>,
) -> Reading
    decreases k,
{
    if k == 0 {
        Reading { done: Seq::empty(), cur: blank(weight) }
    } else {
        after_line(after_lines(lines, (k - 1) as nat, weight, lang, tips), lines[k - 1], weight, lang, tips)
    }
}

/// The entries that the text of a stat file of the layer `weight` holds, in
/// the order of the file.
pub open spec fn parsed(
    text: Seq<char>,
    weight: u8,
    lang: Map<Seq<char>, Seq<char>>,
    tips: Map<Seq<char>, (Seq<char>, Seq<char>)>,
) -> Seq<StatsView> {
    flushed(after_lines(lines_of(text), lines_of(text).len(), weight, lang, tips))
}

/// While a file is read, every complete entry has an id and is of the layer
/// of the file, and so is the entry being read, but that it may lack an id.
pub proof fn lemma_after_lines(
    lines: Seq<Seq<char>>,
    k: nat,
    weight: u8,
    lang: Map<Seq<char>, Seq<char>>,
    tips: Map<Seq<char>, (Seq<char>, Seq<char>)>,
)
    ensures
        after_lines(lines, k, weight, lang, tips).cur.weight == weight,
        forall|i: int|
            0 <= i < after_lines(lines, k, weight, lang, tips).done.len() ==> (#[trigger] after_lines(
                lines,
                k,
                weight,
                lang,
                tips,
            ).done[i]).id.len() > 0 && after_lines(lines, k, weight, lang, tips).done[i].weight
                == weight,
    decreases k,
{
    if k > 0 {
        lemma_after_lines(lines, (k - 1) as nat, weight, lang, tips);
    }
}

/// Every entry that comes out of a file has an id and is of the layer of the
/// file.
pub proof fn lemma_parsed(
    text: Seq<char>,
    weight: u8,
    lang: Map<Seq<char>, Seq<char>>,
    tips: Map<Seq<char>, (Seq<char>, Seq<char>)>,
)
    ensures
        forall|i: int|
            0 <= i < parsed(text, weight, lang, tips).len() ==> (#[trigger] parsed(
                text,
                weight,
                lang,
                tips,
            )[i]).id.len() > 0 && parsed(text, weight, lang, tips)[i].weight == weight,
{
    lemma_after_lines(lines_of(text), lines_of(text).len(), weight, lang, tips);
}

/// Sets an attribute of `cur` from what the search of a `data` line found.
pub fn set_data(cur: &mut Stats, found: Option<Vec<String>>, lang: &Localization, tips: &Tooltips)
    ensures
        final(cur)@ == with_data(old(cur)@, opt_texts_view(found), lang@, tips@),
{
    match found {
        Some(v) => {
            if v.len() == 2 {
                let value = transform(v[0].as_str(), v[1].as_str(), lang, tips);
                cur.insert(v[0].clone(), value);
            }
        },
        None => {},
    }
}

/// An entry of the layer `weight` with nothing in it.
fn blank_entry(weight: u8) -> (r: Stats)
    ensures
        r@ == blank(weight),
{
    let mut s = Stats::new();
    s.weight = weight;
    assert(s@.id =~= Seq::<char>::empty());
    assert(s@.stats_type =~= Seq::<char>::empty());
    assert(s@.data =~= Seq::<(Seq<char>, Seq<char>)>::empty());
    s
}

/// Reads the text of a stat file of the layer `weight`.
pub fn parse_spell(text: &str, weight: u8, lang: &Localization, tips: &Tooltips) -> (r: Vec<Stats>)
    ensures
        entries_view(r@) == parsed(text@, weight, lang@, tips@),
{
    let chars = chars_of(text);
    let lines = split_lines(&chars);
    let ghost all = lines_of(text@);
    let new_word = chars_of("new");
    let new_entry = chars_of("new entry");
    let using_word = chars_of("using");
    let type_word = chars_of("type");
    let data_word = chars_of("data");
    let mut list: Vec<Stats> = Vec::new();
    let mut cur = blank_entry(weight);
    assert(entries_view(list@) =~= Seq::<StatsView>::empty());
    let mut k: usize = 0;
    while k < lines.len()
        invariant
            k <= lines@.len(),
            all == lines_view(lines@),
            new_word@ == "new"@,
            new_entry@ == "new entry"@,
            using_word@ == "using"@,
            type_word@ == "type"@,
            data_word@ == "data"@,
            (Reading { done: entries_view(list@), cur: cur@ }) == after_lines(
                all,
                k as nat,
                weight,
                lang@,
                tips@,
            ),
        decreases lines@.len() - k,
    {
        let line = &lines[k];
        assert(all[k as int] == line@);
        let ghost st = Reading { done: entries_view(list@), cur: cur@ };
        if has_prefix(line, &new_word) {
            let id = if has_prefix(line, &new_entry) {
                payload_of(line, 11)
            } else {
                payload_of(line, 5)
            };
            if !cur.id.as_str().is_empty() {
                let ghost before = entries_view(list@);
                list.push(cur);
                assert(entries_view(list@) =~= before.push(st.cur));
            }
            cur = blank_entry(weight);
            cur.id = id;
        } else if has_prefix(line, &using_word) {
            cur.insert("Using".to_string(), payload_of(line, 7));
        } else if has_prefix(line, &type_word) {
            cur.stats_type = payload_of(line, 6);
        } else if has_prefix(line, &data_word) {
            let whole = string_of(line);
            let found = match_str(whole.as_str(), r#""([^"]+)" "([^"]+)""#);
            set_data(&mut cur, found, lang, tips);
        }
        assert((Reading { done: entries_view(list@), cur: cur@ }) == after_line(
            st,
            line@,
            weight,
            lang@,
            tips@,
        ));
        k = k + 1;
    }
    if !cur.id.as_str().is_empty() {
        let ghost before = entries_view(list@);
        let ghost last = cur@;
        list.push(cur);
        assert(entries_view(list@) =~= before.push(last));
    }
    list
}

} // verus!
