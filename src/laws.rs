//! Properties of classification that hold for every list of paths.
use vstd::prelude::*;
use crate::classify::{
    classification, complete_only, groups_of, index_of_sample, is_complete, lemma_index_of_sample,
    record, samples_unique, GroupView,
};
use crate::pattern::ReadDirection;
use crate::names::extension_of;
use crate::pattern::{pair_match, vocabulary};

verus! {

pub proof fn lemma_complete_only(groups: Seq<GroupView>)
    ensures
        forall|i: int|
            0 <= i < complete_only(groups).len() ==> is_complete(#[trigger] complete_only(groups)[i]),
    decreases groups.len(),
{
    if groups.len() > 0 {
        let rest = complete_only(groups.drop_last());
        lemma_complete_only(groups.drop_last());
        assert forall|i: int| 0 <= i < complete_only(groups).len() implies is_complete(
            #[trigger] complete_only(groups)[i],
        ) by {
            if i < rest.len() {
                assert(is_complete(rest[i]));
            }
        }
    }
}

/// Every sample that classification keeps has both its forward and its
/// reverse read.
pub proof fn lemma_classified_groups_complete(paths: Seq<Seq<char>>)
    ensures
        forall|i: int|
            0 <= i < classification(paths).len() ==> (#[trigger] classification(paths)[i]).forward is Some
                && classification(paths)[i].reverse is Some,
{
    let g = groups_of(paths, vocabulary(paths).to_set());
    lemma_complete_only(g);
    assert forall|i: int| 0 <= i < classification(paths).len() implies (#[trigger] classification(
        paths,
    )[i]).forward is Some && classification(paths)[i].reverse is Some by {
        assert(is_complete(complete_only(g)[i]));
    }
}

pub proof fn lemma_record_unique(
    groups: Seq<GroupView>,
    sample: Seq<char>,
    dir: ReadDirection,
    path: Seq<char>,
)
    requires
        samples_unique(groups),
    ensures
        samples_unique(record(groups, sample, dir, path)),
{
    lemma_index_of_sample(groups, sample);
    let r = record(groups, sample, dir, path);
    let i = index_of_sample(groups, sample);
    assert forall|a: int, b: int|
        0 <= a < r.len() && 0 <= b < r.len() && a != b implies #[trigger] r[a].sample
        != #[trigger] r[b].sample by {
        if i < 0 {
            if a < groups.len() && b < groups.len() {
                assert(r[a] == groups[a] && r[b] == groups[b]);
            } else if a < groups.len() {
                assert(r[a] == groups[a]);
            } else {
                assert(r[b] == groups[b]);
            }
        } else {
            assert(r[a].sample == groups[a].sample);
            assert(r[b].sample == groups[b].sample);
        }
    }
}

pub proof fn lemma_groups_unique(paths: Seq<Seq<char>>, vocab: Set<Seq<char>>)
    ensures
        samples_unique(groups_of(paths, vocab)),
    decreases paths.len(),
{
    if paths.len() > 0 {
        lemma_groups_unique(paths.drop_last(), vocab);
        let g = groups_of(paths.drop_last(), vocab);
        match crate::classify::key_of(paths.last(), vocab) {
            Some((sample, dir)) => lemma_record_unique(g, sample, dir, paths.last()),
            None => {},
        }
    }
}

pub proof fn lemma_complete_only_from(groups: Seq<GroupView>)
    ensures
        forall|i: int|
            0 <= i < complete_only(groups).len() ==> groups.contains(
                #[trigger] complete_only(groups)[i],
            ),
    decreases groups.len(),
{
    if groups.len() > 0 {
        let rest = groups.drop_last();
        lemma_complete_only_from(rest);
        assert forall|i: int| 0 <= i < complete_only(groups).len() implies groups.contains(
            #[trigger] complete_only(groups)[i],
        ) by {
            let c = complete_only(rest);
            if i < c.len() {
                assert(rest.contains(c[i]));
                let j = choose|j: int| 0 <= j < rest.len() && rest[j] == c[i];
                assert(groups[j] == c[i]);
            } else {
                assert(groups[groups.len() - 1] == groups.last());
            }
        }
    }
}

pub proof fn lemma_complete_only_unique(groups: Seq<GroupView>)
    requires
        samples_unique(groups),
    ensures
        samples_unique(complete_only(groups)),
    decreases groups.len(),
{
    if groups.len() > 0 {
        let rest = groups.drop_last();
        assert(samples_unique(rest)) by {
            assert forall|a: int, b: int|
                0 <= a < rest.len() && 0 <= b < rest.len() && a != b implies #[trigger] rest[a].sample
                != #[trigger] rest[b].sample by {
                assert(rest[a] == groups[a] && rest[b] == groups[b]);
            }
        }
        lemma_complete_only_unique(rest);
        lemma_complete_only_from(rest);
        let c = complete_only(rest);
        if is_complete(groups.last()) {
            let r = c.push(groups.last());
            assert forall|a: int, b: int|
                0 <= a < r.len() && 0 <= b < r.len() && a != b implies #[trigger] r[a].sample
                != #[trigger] r[b].sample by {
                if a < c.len() && b < c.len() {
                    assert(r[a] == c[a] && r[b] == c[b]);
                } else if a < c.len() {
                    assert(rest.contains(c[a]));
                    let j = choose|j: int| 0 <= j < rest.len() && rest[j] == c[a];
                    assert(groups[j] == c[a]);
                    assert(r[a] == c[a]);
                } else {
                    assert(rest.contains(c[b]));
                    let j = choose|j: int| 0 <= j < rest.len() && rest[j] == c[b];
                    assert(groups[j] == c[b]);
                    assert(r[b] == c[b]);
                }
            }
        }
    }
}

/// No two samples that classification keeps have the same name: each
/// sample name stands for one group.
pub proof fn lemma_classified_samples_unique(paths: Seq<Seq<char>>)
    ensures
        samples_unique(classification(paths)),
{
    let g = groups_of(paths, vocabulary(paths).to_set());
    lemma_groups_unique(paths, vocabulary(paths).to_set());
    lemma_complete_only_unique(g);
}

/// The extensions that some path has.
pub open spec fn extension_set(paths: Seq<Seq<char>>) -> Set<Seq<char>> {
    Set::new(|e: Seq<char>| exists|i: int| 0 <= i < paths.len() && extension_of(paths[i]) == Some(e))
}

/// The extension vocabulary holds each extension of the paths once, and
/// nothing else.
pub proof fn lemma_vocabulary_distinct(paths: Seq<Seq<char>>)
    ensures
        vocabulary(paths).no_duplicates(),
        vocabulary(paths).to_set() == extension_set(paths),
    decreases paths.len(),
{
    if paths.len() > 0 {
        let rest = paths.drop_last();
        lemma_vocabulary_distinct(rest);
        let v = vocabulary(rest);
        assert forall|e: Seq<char>| #[trigger] extension_set(paths).contains(e) <==> extension_set(
            rest,
        ).contains(e) || extension_of(paths.last()) == Some(e) by {
            if extension_set(paths).contains(e) {
                let i = choose|i: int| 0 <= i < paths.len() && extension_of(paths[i]) == Some(e);
                if i < rest.len() {
                    assert(rest[i] == paths[i]);
                }
            }
            if extension_set(rest).contains(e) {
                let i = choose|i: int| 0 <= i < rest.len() && extension_of(rest[i]) == Some(e);
                assert(paths[i] == rest[i]);
            }
        }
        match extension_of(paths.last()) {
            Some(e) => {
                if !v.contains(e) {
                    assert forall|i: int, j: int|
                        0 <= i < v.push(e).len() && 0 <= j < v.push(e).len() && i != j implies #[trigger] v.push(
                        e,
                    )[i] != #[trigger] v.push(e)[j] by {
                        if i == v.len() {
                            assert(v.push(e)[j] == v[j]);
                        }
                        if j == v.len() {
                            assert(v.push(e)[i] == v[i]);
                        }
                    }
                    assert forall|x: Seq<char>| #[trigger] v.push(e).contains(x) <==> (v.contains(x)
                        || x == e) by {
                        if v.contains(x) {
                            let k = choose|k: int| 0 <= k < v.len() && v[k] == x;
                            assert(v.push(e)[k] == x);
                        }
                        if v.push(e).contains(x) {
                            let k = choose|k: int| 0 <= k < v.push(e).len() && v.push(e)[k] == x;
                            if k < v.len() {
                                assert(v[k] == x);
                            }
                        }
                        assert(v.push(e)[v.len() as int] == e);
                    }
                    assert(v.push(e).to_set() =~= extension_set(paths));
                } else {
                    assert(v.to_set() =~= extension_set(paths));
                }
            },
            None => {
                assert(v.to_set() =~= extension_set(paths));
            },
        }
    }
}

/// The pairing pattern does not depend on the order of the paths, nor on
/// how often each occurs: two lists that hold the same paths give the same
/// extensions, and so read every file name alike.
pub proof fn lemma_vocabulary_order_independent(a: Seq<Seq<char>>, b: Seq<Seq<char>>)
    requires
        a.to_set() == b.to_set(),
    ensures
        vocabulary(a).to_set() == vocabulary(b).to_set(),
        vocabulary(a).no_duplicates(),
        vocabulary(b).no_duplicates(),
        forall|name: Seq<char>|
            pair_match(name, vocabulary(a).to_set()) == #[trigger] pair_match(
                name,
                vocabulary(b).to_set(),
            ),
{
    lemma_vocabulary_distinct(a);
    lemma_vocabulary_distinct(b);
    assert forall|e: Seq<char>| #[trigger] extension_set(a).contains(e) implies extension_set(
        b,
    ).contains(e) by {
        let i = choose|i: int| 0 <= i < a.len() && extension_of(a[i]) == Some(e);
        assert(a.to_set().contains(a[i]));
        assert(b.contains(a[i]));
        let j = choose|j: int| 0 <= j < b.len() && b[j] == a[i];
        assert(extension_of(b[j]) == Some(e));
    }
    assert forall|e: Seq<char>| #[trigger] extension_set(b).contains(e) implies extension_set(
        a,
    ).contains(e) by {
        let i = choose|i: int| 0 <= i < b.len() && extension_of(b[i]) == Some(e);
        assert(b.to_set().contains(b[i]));
        assert(a.contains(b[i]));
        let j = choose|j: int| 0 <= j < a.len() && a[j] == b[i];
        assert(extension_of(a[j]) == Some(e));
    }
    assert(extension_set(a) =~= extension_set(b));
}

} // verus!
