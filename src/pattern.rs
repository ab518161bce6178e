//! The pairing pattern: a file name of the shape
//! `<sample>` `_`/`-` [`R`/`r`] `1`/`2` `.` `<extension>`, where the
//! extension is one of the extensions seen among the input files.
use vstd::prelude::*;
use crate::names::{extension_of, get_extension};

verus! {

/// Which read of a pair a file holds.
#[derive(Clone, Copy, Debug, PartialEq, Eq, Structural, Hash)]
pub enum ReadDirection {
    Forward,
    Reverse,
}

/// The character views of a sequence of strings.
pub open spec fn views(v: Seq<String>) -> Seq<Seq<char>> {
    v.map_values(|s: String| s@)
}

/// The distinct extensions of the paths, in the order first seen.
pub open spec fn vocabulary(paths: Seq<Seq<char>>) -> Seq<Seq<char>>
    decreases paths.len(),
{
    if paths.len() == 0 {
        Seq::empty()
    } else {
        let v = vocabulary(paths.drop_last());
        match extension_of(paths.last()) {
            Some(e) => if v.contains(e) {
                v
            } else {
                v.push(e)
            },
            None => v,
        }
    }
}

/// `t` reads as an optional `R`/`r` (`r` characters), an optional `1`/`2`
/// (`d` characters), a dot and an extension of `vocab`. The pattern asks for
/// the digit: only the readings with `d == 1` count as a match.
pub open spec fn marker_parse(t: Seq<char>, vocab: Set<Seq<char>>, r: int, d: int) -> bool {
    &&& 0 <= r <= 1
    &&& 0 <= d <= 1
    &&& r + d < t.len()
    &&& (r == 1 ==> (t[0] == 'R' || t[0] == 'r'))
    &&& (d == 1 ==> (t[r] == '1' || t[r] == '2'))
    &&& t[r + d] == '.'
    &&& vocab.contains(t.subrange(r + d + 1, t.len() as int))
}

/// The direction that the text after a separator marks, if it has the
/// pattern's shape: `1` marks the forward read, `2` the reverse one. A file
/// without the digit matches nothing.
pub open spec fn marker_direction(t: Seq<char>, vocab: Set<Seq<char>>) -> Option<ReadDirection> {
    if (marker_parse(t, vocab, 0, 1) && t[0] == '1') || (marker_parse(t, vocab, 1, 1) && t[1]
        == '1') {
        Some(ReadDirection::Forward)
    } else if marker_parse(t, vocab, 0, 1) || marker_parse(t, vocab, 1, 1) {
        Some(ReadDirection::Reverse)
    } else {
        None
    }
}

/// The name splits at `k`: a non-empty sample name, a separator at `k`, and
/// a direction marker with an extension after it.
pub open spec fn splits_at(b: Seq<char>, vocab: Set<Seq<char>>, k: int) -> bool {
    &&& 1 <= k < b.len()
    &&& (b[k] == '_' || b[k] == '-')
    &&& marker_direction(b.subrange(k + 1, b.len() as int), vocab) is Some
}

/// The last split point at or before `j`, or 0 where there is none.
pub open spec fn last_split(b: Seq<char>, vocab: Set<Seq<char>>, j: int) -> int
    decreases j,
{
    if j < 1 {
        0
    } else if splits_at(b, vocab, j) {
        j
    } else {
        last_split(b, vocab, j - 1)
    }
}

/// The sample name and direction that a file name gives. The longest sample
/// name wins, as a greedy `(.+)` would take it.
pub open spec fn pair_match(b: Seq<char>, vocab: Set<Seq<char>>) -> Option<(Seq<char>, ReadDirection)> {
    let k = last_split(b, vocab, b.len() - 1);
    if k >= 1 {
        Some((b.subrange(0, k), marker_direction(b.subrange(k + 1, b.len() as int), vocab)->0))
    } else {
        None
    }
}

/// Whether `v` holds a string equal to `s`.
pub fn contains_string(v: &Vec<String>, s: &String) -> (r: bool)
    ensures
        r == views(v@).contains(s@),
{
    let mut i: usize = 0;
    while i < v.len()
        invariant
            i <= v@.len(),
            forall|j: int| 0 <= j < i ==> views(v@)[j] != s@,
        decreases v@.len() - i,
    {
        if v[i].eq(s) {
            assert(views(v@)[i as int] == s@);
            return true;
        }
        i = i + 1;
    }
    false
}

/// The distinct extensions of the files that `paths` name, first seen first.
pub fn extension_vocabulary(paths: &[String]) -> (r: Vec<String>)
    ensures
        views(r@) == vocabulary(views(paths@)),
{
    let mut v: Vec<String> = Vec::new();
    let mut i: usize = 0;
    while i < paths.len()
        invariant
            i <= paths@.len(),
            views(v@) == vocabulary(views(paths@).subrange(0, i as int)),
        decreases paths@.len() - i,
    {
        let ghost pre = views(paths@).subrange(0, i as int);
        let ghost cur = views(paths@).subrange(0, i + 1);
        assert(cur.drop_last() =~= pre);
        assert(cur.last() == paths@[i as int]@);
        match get_extension(paths[i].as_str()) {
            Some(e) => {
                if !contains_string(&v, &e) {
                    let ghost old_v = v@;
                    v.push(e);
                    assert(views(v@) =~= views(old_v).push(e@));
                }
            },
            None => {},
        }
        i = i + 1;
    }
    assert(views(paths@).subrange(0, paths@.len() as int) =~= views(paths@));
    v
}

/// The direction marked by the text `t` that follows a separator, if `t`
/// has the pattern's shape.
pub fn direction_marker(t: &str, vocab: &Vec<String>) -> (r: Option<ReadDirection>)
    ensures
        r == marker_direction(t@, views(vocab@).to_set()),
{
    let ghost vs = views(vocab@).to_set();
    let len = t.unicode_len();
    let r: usize = if len > 0 && (t.get_char(0) == 'R' || t.get_char(0) == 'r') {
        1
    } else {
        0
    };
    let d: usize = if len > r && (t.get_char(r) == '1' || t.get_char(r) == '2') {
        1
    } else {
        0
    };
    if r + d >= len || t.get_char(r + d) != '.' {
        assert(!marker_parse(t@, vs, 0, 0));
        assert(!marker_parse(t@, vs, 0, 1));
        assert(!marker_parse(t@, vs, 1, 0));
        assert(!marker_parse(t@, vs, 1, 1));
        return None;
    }
    let ext = String::from_str(t.substring_char(r + d + 1, len));
    let known = contains_string(vocab, &ext);
    assert(marker_parse(t@, vs, r as int, d as int) == known);
    assert forall|r2: int, d2: int| #[trigger] marker_parse(t@, vs, r2, d2) implies r2 == r && d2
        == d by {}
    if !known || d == 0 {
        return None;
    }
    if d == 1 && t.get_char(r) == '1' {
        Some(ReadDirection::Forward)
    } else {
        Some(ReadDirection::Reverse)
    }
}

/// The sample name and direction that the file name `name` gives under the
/// pairing pattern with the extensions `vocab`.
pub fn match_pair(name: &str, vocab: &Vec<String>) -> (r: Option<(String, ReadDirection)>)
    ensures
        match r {
            Some((s, dir)) => pair_match(name@, views(vocab@).to_set()) == Some((s@, dir)),
            None => pair_match(name@, views(vocab@).to_set()) is None,
        },
{
    let ghost vs = views(vocab@).to_set();
    let len = name.unicode_len();
    if len == 0 {
        return None;
    }
    let mut k: usize = len - 1;
    while k >= 1
        invariant
            k < len == name@.len(),
            vs == views(vocab@).to_set(),
            last_split(name@, vs, len - 1) == last_split(name@, vs, k as int),
        decreases k,
    {
        let c = name.get_char(k);
        if c == '_' || c == '-' {
            let found = direction_marker(name.substring_char(k + 1, len), vocab);
            assert(splits_at(name@, vs, k as int) == (found is Some));
            if let Some(dir) = found {
                return Some((String::from_str(name.substring_char(0, k)), dir));
            }
        } else {
            assert(!splits_at(name@, vs, k as int));
        }
        k = k - 1;
    }
    None
}

} // verus!
