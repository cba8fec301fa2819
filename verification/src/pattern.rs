//! Searching text with regular expressions. The searches themselves are done
//! by the `regex` crate; what they return is named here, and what the library
//! does with it is verified.

use vstd::prelude::*;
use vstd::string::*;
use regex::Regex;
use crate::text::{opt_texts_view, opt_view, texts_view};

verus! {

/// The view of the groups of one match: a group that took no part in the
/// match is `None`.
pub open spec fn groups_view(g: Seq<Option<String>>) -> Seq<Option<Seq<char>>> {
    Seq::new(
        g.len(),
        |i: int|
            match g[i] {
                Some(s) => Some(s@),
                None => None,
            },
    )
}

/// The view of the groups of a list of matches.
pub open spec fn captures_view(c: Seq<Vec<Option<String>>>) -> Seq<Seq<Option<Seq<char>>>> {
    Seq::new(c.len(), |i: int| groups_view(c[i]@))
}

/// The successive non-overlapping matches of `pattern` in `text`, as
/// `Regex::find_iter` yields them; `None` where `Regex::new` refuses the
/// pattern.
pub uninterp spec fn regex_matches(pattern: Seq<char>, text: Seq<char>) -> Option<Seq<Seq<char>>>;

/// For each successive match of `pattern` in `text`, as `Regex::captures_iter`
/// yields them, its groups from group 0 on; `None` where `Regex::new` refuses
/// the pattern.
pub uninterp spec fn regex_captures(pattern: Seq<char>, text: Seq<char>) -> Option<
    Seq<Seq<Option<Seq<char>>>>,
>;

/// The parts of `text` between the matches of `pattern`, as `Regex::split`
/// yields them; `None` where `Regex::new` refuses the pattern.
pub uninterp spec fn regex_split(pattern: Seq<char>, text: Seq<char>) -> Option<Seq<Seq<char>>>;

/// `text` with the leftmost match of `pattern` replaced by the expansion of
/// `rep`, as `Regex::replace` returns it; `None` where `Regex::new` refuses
/// the pattern.
pub uninterp spec fn regex_replace(pattern: Seq<char>, text: Seq<char>, rep: Seq<char>) -> Option<
    Seq<char>,
>;

/// Trusted: compiles `pattern` with `Regex::new` and collects what
/// `Regex::find_iter` yields on `text`, each match as its own string. The
/// result is the one that `regex_matches` names.
#[verifier::external_body]
fn find_all(text: &str, pattern: &str) -> (r: Option<Vec<String>>)
    ensures
        match r {
            Some(v) => regex_matches(pattern@, text@) == Some(texts_view(v@)),
            None => regex_matches(pattern@, text@).is_none(),
        },
{
    match Regex::new(pattern) {
        Ok(re) => Some(re.find_iter(text).map(|m| m.as_str().to_string()).collect()),
        Err(_) => None,
    }
}

/// Trusted: compiles `pattern` with `Regex::new` and collects what
/// `Regex::captures_iter` yields on `text`: for each match its groups, group
/// 0 first, each as its own string. The result is the one that
/// `regex_captures` names.
#[verifier::external_body]
fn capture_all(text: &str, pattern: &str) -> (r: Option<Vec<Vec<Option<String>>>>)
    ensures
        match r {
            Some(v) => regex_captures(pattern@, text@) == Some(captures_view(v@)),
            None => regex_captures(pattern@, text@).is_none(),
        },
{
    match Regex::new(pattern) {
        Ok(re) => Some(
            re.captures_iter(text).map(
                |c| c.iter().map(|g| g.map(|m| m.as_str().to_string())).collect(),
            ).collect(),
        ),
        Err(_) => None,
    }
}

/// Trusted: compiles `pattern` with `Regex::new` and collects what
/// `Regex::split` yields on `text`. The result is the one that `regex_split`
/// names.
#[verifier::external_body]
pub(crate) fn split_str(text: &str, pattern: &str) -> (r: Option<Vec<String>>)
    ensures
        match r {
            Some(v) => regex_split(pattern@, text@) == Some(texts_view(v@)),
            None => regex_split(pattern@, text@).is_none(),
        },
{
    match Regex::new(pattern) {
        Ok(re) => Some(re.split(text).map(|s| s.to_string()).collect()),
        Err(_) => None,
    }
}

/// Trusted: compiles `pattern` with `Regex::new` and calls `Regex::replace`
/// on `text` with the replacement `rep`. The result is the one that
/// `regex_replace` names.
#[verifier::external_body]
pub(crate) fn replace_str(text: &str, pattern: &str, rep: &str) -> (r: Option<String>)
    ensures
        match r {
            Some(s) => regex_replace(pattern@, text@, rep@) == Some(s@),
            None => regex_replace(pattern@, text@, rep@).is_none(),
        },
{
    match Regex::new(pattern) {
        Ok(re) => Some(re.replace(text, rep).into_owned()),
        Err(_) => None,
    }
}

/// The pattern of the tokenizer: a run of characters other than letters,
/// digits and hyphens, or a run of letters, digits and hyphens.
pub open spec fn token_pattern() -> Seq<char> {
    r"([^a-zA-Z0-9\-]+)|([a-zA-Z0-9\-]+)"@
}

/// The matches where the search was made, and none where it was not.
pub open spec fn matches_or_none(found: Option<Seq<Seq<char>>>) -> Seq<Seq<char>> {
    match found {
        Some(v) => v,
        None => Seq::empty(),
    }
}

/// The matches where the search was made, and none where it was not.
pub fn found_texts(found: Option<Vec<String>>) -> (r: Vec<String>)
    ensures
        texts_view(r@) == matches_or_none(opt_texts_view(found)),
{
    match found {
        Some(v) => v,
        None => {
            let v: Vec<String> = Vec::new();
            assert(texts_view(v@) =~= Seq::<Seq<char>>::empty());
            v
        },
    }
}

/// Cuts `s` into the successive matches of `token_pattern`.
pub fn tokenizer(s: &str) -> (r: Vec<String>)
    ensures
        texts_view(r@) == matches_or_none(regex_matches(token_pattern(), s@)),
{
    found_texts(find_all(s, r"([^a-zA-Z0-9\-]+)|([a-zA-Z0-9\-]+)"))
}

/// The text after a replacement, given what the replacement returned; the
/// text itself where none was made.
pub open spec fn replaced_or(text: Seq<char>, replaced: Option<Seq<char>>) -> Seq<char> {
    match replaced {
        Some(s) => s,
        None => text,
    }
}

/// The text after a replacement, given what the replacement returned.
pub fn replaced_text(text: &str, replaced: Option<String>) -> (r: String)
    ensures
        r@ == replaced_or(text@, opt_view(replaced)),
{
    match replaced {
        Some(s) => s,
        None => text.to_string(),
    }
}

/// The groups of one match from group 1 on, each of which took part.
pub open spec fn inner_groups(groups: Seq<Option<Seq<char>>>) -> Seq<Seq<char>> {
    Seq::new(
        if groups.len() == 0 {
            0
        } else {
            (groups.len() - 1) as nat
        },
        |i: int| groups[i + 1].unwrap(),
    )
}

/// Whether every group from group 1 on took part in every match.
pub open spec fn groups_present(caps: Seq<Seq<Option<Seq<char>>>>) -> bool {
    forall|m: int, g: int|
        0 <= m < caps.len() && 1 <= g < caps[m].len() ==> (#[trigger] caps[m][g]).is_some()
}

/// The groups from group 1 on of all the matches, one match after the other.
pub open spec fn flat_groups(caps: Seq<Seq<Option<Seq<char>>>>) -> Seq<Seq<char>>
    decreases caps.len(),
{
    if caps.len() == 0 {
        Seq::empty()
    } else {
        flat_groups(caps.drop_last()) + inner_groups(caps.last())
    }
}

/// What `collect_groups` makes of the matches: their groups from group 1 on
/// in one list, unless a group took no part or there is no group at all.
pub open spec fn collected(caps: Seq<Seq<Option<Seq<char>>>>) -> Option<Seq<Seq<char>>> {
    if groups_present(caps) && flat_groups(caps).len() > 0 {
        Some(flat_groups(caps))
    } else {
        None
    }
}

/// Gathers the groups from group 1 on of every match into one list. Gives
/// `None` where a group took no part in its match, and where the list would
/// be empty.
pub fn collect_groups(caps: &Vec<Vec<Option<String>>>) -> (r: Option<Vec<String>>)
    ensures
        opt_texts_view(r) == collected(captures_view(caps@)),
{
    let ghost all = captures_view(caps@);
    let mut out: Vec<String> = Vec::new();
    let mut m: usize = 0;
    while m < caps.len()
        invariant
            m <= caps@.len(),
            all == captures_view(caps@),
            groups_present(all.take(m as int)),
            texts_view(out@) == flat_groups(all.take(m as int)),
        decreases caps@.len() - m,
    {
        let groups = &caps[m];
        let ghost before = out@;
        let mut g: usize = 1;
        while g < groups.len()
            invariant
                1 <= g,
                g <= groups@.len() || g == 1,
                m < caps@.len(),
                all == captures_view(caps@),
                groups@ == caps@[m as int]@,
                forall|k: int| 1 <= k < g && k < groups@.len() ==> (#[trigger] all[m as int][k]).is_some(),
                out@.len() == before.len() + if g <= groups@.len() { g - 1 } else { 0 },
                forall|k: int| 0 <= k < before.len() ==> out@[k] == before[k],
                forall|j: int|
                    before.len() <= j < out@.len() ==> (#[trigger] out@[j])@ == all[m as int][j
                        - before.len() + 1].unwrap(),
            decreases groups@.len() - g,
        {
            match &groups[g] {
                Some(s) => {
                    out.push(s.clone());
                },
                None => {
                    assert(all[m as int][g as int].is_none());
                    assert(!groups_present(all));
                    return None;
                },
            }
            g = g + 1;
        }
        proof {
            let next = all.take(m + 1);
            assert(next.drop_last() == all.take(m as int));
            assert(next.last() == all[m as int]);
            assert(texts_view(out@) =~= texts_view(before) + inner_groups(all[m as int]));
            assert forall|i: int, k: int|
                0 <= i < next.len() && 1 <= k < next[i].len() implies (#[trigger] next[i][k]).is_some() by {
                if i < m {
                    assert(all.take(m as int)[i][k].is_some());
                }
            }
        }
        m = m + 1;
    }
    assert(all.take(m as int) == all);
    if out.len() == 0 {
        None
    } else {
        Some(out)
    }
}

/// What `match_str` returns: nothing where the pattern is refused, else what
/// `collect_groups` makes of the matches.
pub open spec fn matched(found: Option<Seq<Seq<Option<Seq<char>>>>>) -> Option<Seq<Seq<char>>> {
    match found {
        Some(caps) => collected(caps),
        None => None,
    }
}

/// The capture groups of every match of `regex` in `txt`, in one list.
pub fn match_str(txt: &str, regex: &str) -> (r: Option<Vec<String>>)
    ensures
        opt_texts_view(r) == matched(regex_captures(regex@, txt@)),
{
    match capture_all(txt, regex) {
        Some(caps) => collect_groups(&caps),
        None => None,
    }
}

} // verus!
