//! How classification depends on the list of paths: each read of a sample
//! is the last path that gives it, so a list given twice, or the same paths
//! in another order where no two give the same read, classify alike.
use vstd::prelude::*;
use crate::classify::{
    classification, complete_only, groups_of, has_sample, index_of_sample, is_complete, key_of,
    lemma_index_of_sample, record, GroupView,
};
use crate::laws::{
    lemma_complete_only, lemma_complete_only_from, lemma_groups_unique,
    lemma_vocabulary_order_independent,
};
use crate::pattern::{vocabulary, ReadDirection};

verus! {

/// The path stored for a direction.
pub open spec fn read_of(g: GroupView, dir: ReadDirection) -> Option<Seq<char>> {
    match dir {
        ReadDirection::Forward => g.forward,
        ReadDirection::Reverse => g.reverse,
    }
}

/// The last of the paths whose file gives `sample` and `dir`.
pub open spec fn last_for(
    paths: Seq<Seq<char>>,
    vocab: Set<Seq<char>>,
    sample: Seq<char>,
    dir: ReadDirection,
) -> Option<Seq<char>>
    decreases paths.len(),
{
    if paths.len() == 0 {
        None
    } else if key_of(paths.last(), vocab) == Some((sample, dir)) {
        Some(paths.last())
    } else {
        last_for(paths.drop_last(), vocab, sample, dir)
    }
}

/// Some path's file gives `sample`.
pub open spec fn seen(paths: Seq<Seq<char>>, vocab: Set<Seq<char>>, sample: Seq<char>) -> bool
    decreases paths.len(),
{
    if paths.len() == 0 {
        false
    } else {
        (key_of(paths.last(), vocab) is Some && (key_of(paths.last(), vocab)->0).0 == sample) || seen(
            paths.drop_last(),
            vocab,
            sample,
        )
    }
}

/// The groups after the paths are recorded, in order, into `groups`.
pub open spec fn replay(groups: Seq<GroupView>, paths: Seq<Seq<char>>, vocab: Set<Seq<char>>) -> Seq<
    GroupView,
>
    decreases paths.len(),
{
    if paths.len() == 0 {
        groups
    } else {
        let g = replay(groups, paths.drop_last(), vocab);
        match key_of(paths.last(), vocab) {
            Some((sample, dir)) => record(g, sample, dir, paths.last()),
            None => g,
        }
    }
}

proof fn lemma_unseen_none(
    paths: Seq<Seq<char>>,
    vocab: Set<Seq<char>>,
    sample: Seq<char>,
    dir: ReadDirection,
)
    requires
        !seen(paths, vocab, sample),
    ensures
        last_for(paths, vocab, sample, dir) is None,
    decreases paths.len(),
{
    if paths.len() > 0 {
        lemma_unseen_none(paths.drop_last(), vocab, sample, dir);
    }
}

proof fn lemma_seen_at(paths: Seq<Seq<char>>, vocab: Set<Seq<char>>, k: int)
    requires
        0 <= k < paths.len(),
        key_of(paths[k], vocab) is Some,
    ensures
        seen(paths, vocab, (key_of(paths[k], vocab)->0).0),
    decreases paths.len(),
{
    if k < paths.len() - 1 {
        assert(paths.drop_last()[k] == paths[k]);
        lemma_seen_at(paths.drop_last(), vocab, k);
    }
}

proof fn lemma_index_same_samples(a: Seq<GroupView>, b: Seq<GroupView>, s: Seq<char>)
    requires
        a.len() == b.len(),
        forall|i: int| 0 <= i < a.len() ==> (#[trigger] a[i]).sample == b[i].sample,
    ensures
        index_of_sample(a, s) == index_of_sample(b, s),
    decreases a.len(),
{
    if a.len() > 0 {
        assert(a.last().sample == b.last().sample);
        lemma_index_same_samples(a.drop_last(), b.drop_last(), s);
    }
}

/// Each group of `groups_of` holds, for each direction, the last path that
/// gives its sample and that direction, and there is a group for exactly
/// the samples that some path gives.
proof fn lemma_groups_last_write(paths: Seq<Seq<char>>, vocab: Set<Seq<char>>)
    ensures
        forall|s: Seq<char>|
            #![trigger seen(paths, vocab, s)]
            #![trigger index_of_sample(groups_of(paths, vocab), s)]
            seen(paths, vocab, s) == (index_of_sample(groups_of(paths, vocab), s) >= 0),
        forall|i: int, d: ReadDirection|
            0 <= i < groups_of(paths, vocab).len() ==> #[trigger] read_of(
                groups_of(paths, vocab)[i],
                d,
            ) == last_for(paths, vocab, groups_of(paths, vocab)[i].sample, d),
    decreases paths.len(),
{
    if paths.len() > 0 {
        let rest = paths.drop_last();
        let x = paths.last();
        lemma_groups_last_write(rest, vocab);
        lemma_groups_unique(rest, vocab);
        let g = groups_of(rest, vocab);
        let g2 = groups_of(paths, vocab);
        match key_of(x, vocab) {
            None => {},
            Some((s, dir)) => {
                lemma_index_of_sample(g, s);
                let i = index_of_sample(g, s);
                if i >= 0 {
                    assert forall|j: int| 0 <= j < g.len() implies (#[trigger] g2[j]).sample
                        == g[j].sample by {}
                    assert forall|s2: Seq<char>|
                        #![trigger seen(paths, vocab, s2)]
                        #![trigger index_of_sample(g2, s2)]
                        seen(paths, vocab, s2) == (index_of_sample(g2, s2) >= 0) by {
                        lemma_index_same_samples(g2, g, s2);
                        assert(seen(rest, vocab, s2) == (index_of_sample(g, s2) >= 0));
                    }
                    assert forall|j: int, d: ReadDirection| 0 <= j < g2.len() implies #[trigger] read_of(
                        g2[j],
                        d,
                    ) == last_for(paths, vocab, g2[j].sample, d) by {
                        assert(read_of(g[j], d) == last_for(rest, vocab, g[j].sample, d));
                        if j != i {
                            assert(g[j].sample != g[i].sample);
                        }
                    }
                } else {
                    assert(g2.drop_last() =~= g);
                    assert forall|s2: Seq<char>|
                        #![trigger seen(paths, vocab, s2)]
                        #![trigger index_of_sample(g2, s2)]
                        seen(paths, vocab, s2) == (index_of_sample(g2, s2) >= 0) by {
                        assert(seen(rest, vocab, s2) == (index_of_sample(g, s2) >= 0));
                    }
                    assert forall|j: int, d: ReadDirection| 0 <= j < g2.len() implies #[trigger] read_of(
                        g2[j],
                        d,
                    ) == last_for(paths, vocab, g2[j].sample, d) by {
                        if j < g.len() {
                            assert(g2[j] == g[j]);
                            assert(read_of(g[j], d) == last_for(rest, vocab, g[j].sample, d));
                        } else {
                            assert(!seen(rest, vocab, s));
                            lemma_unseen_none(rest, vocab, s, d);
                        }
                    }
                }
            },
        }
    }
}

proof fn lemma_groups_of_concat(p: Seq<Seq<char>>, q: Seq<Seq<char>>, vocab: Set<Seq<char>>)
    ensures
        groups_of(p + q, vocab) == replay(groups_of(p, vocab), q, vocab),
    decreases q.len(),
{
    if q.len() == 0 {
        assert(p + q =~= p);
    } else {
        lemma_groups_of_concat(p, q.drop_last(), vocab);
        assert((p + q).drop_last() =~= p + q.drop_last());
        assert((p + q).last() == q.last());
    }
}

/// Recording the first `k` paths again into their own groups keeps the
/// samples, and sets each read that one of those paths gives to the last
/// such path.
proof fn lemma_replay_prefix(paths: Seq<Seq<char>>, vocab: Set<Seq<char>>, k: int)
    requires
        0 <= k <= paths.len(),
    ensures
        replay(groups_of(paths, vocab), paths.subrange(0, k), vocab).len() == groups_of(
            paths,
            vocab,
        ).len(),
        forall|i: int|
            0 <= i < groups_of(paths, vocab).len() ==> (#[trigger] replay(
                groups_of(paths, vocab),
                paths.subrange(0, k),
                vocab,
            )[i]).sample == groups_of(paths, vocab)[i].sample,
        forall|i: int, d: ReadDirection|
            0 <= i < groups_of(paths, vocab).len() ==> #[trigger] read_of(
                replay(groups_of(paths, vocab), paths.subrange(0, k), vocab)[i],
                d,
            ) == if last_for(paths.subrange(0, k), vocab, groups_of(paths, vocab)[i].sample, d) is Some {
                last_for(paths.subrange(0, k), vocab, groups_of(paths, vocab)[i].sample, d)
            } else {
                read_of(groups_of(paths, vocab)[i], d)
            },
    decreases k,
{
    let g = groups_of(paths, vocab);
    if k > 0 {
        lemma_replay_prefix(paths, vocab, k - 1);
        let pre = paths.subrange(0, k - 1);
        let cur = paths.subrange(0, k);
        assert(cur.drop_last() =~= pre);
        assert(cur.last() == paths[k - 1]);
        let h = replay(g, pre, vocab);
        let h2 = replay(g, cur, vocab);
        let x = paths[k - 1];
        match key_of(x, vocab) {
            None => {},
            Some((s, dir)) => {
                lemma_seen_at(paths, vocab, k - 1);
                lemma_groups_last_write(paths, vocab);
                lemma_groups_unique(paths, vocab);
                lemma_index_of_sample(g, s);
                lemma_index_same_samples(h, g, s);
                let i = index_of_sample(g, s);
                assert(i >= 0);
                assert forall|j: int, d: ReadDirection| 0 <= j < g.len() implies #[trigger] read_of(
                    h2[j],
                    d,
                ) == if last_for(cur, vocab, g[j].sample, d) is Some {
                    last_for(cur, vocab, g[j].sample, d)
                } else {
                    read_of(g[j], d)
                } by {
                    assert(read_of(h[j], d) == if last_for(pre, vocab, g[j].sample, d) is Some {
                        last_for(pre, vocab, g[j].sample, d)
                    } else {
                        read_of(g[j], d)
                    });
                    if j != i {
                        assert(g[j].sample != g[i].sample);
                    }
                }
                assert forall|j: int| 0 <= j < g.len() implies (#[trigger] h2[j]).sample
                    == g[j].sample by {
                    assert(h[j].sample == g[j].sample);
                }
            },
        }
    } else {
        assert forall|i: int, d: ReadDirection| 0 <= i < g.len() implies #[trigger] read_of(
            replay(g, paths.subrange(0, 0), vocab)[i],
            d,
        ) == read_of(g[i], d) by {}
    }
}

/// Classifying a list of paths given twice over gives the same samples,
/// with the same reads, as classifying it once: repeated files, and so
/// repeated extensions, change nothing.
pub proof fn lemma_classification_repeated(paths: Seq<Seq<char>>)
    ensures
        classification(paths + paths) == classification(paths),
{
    let pp = paths + paths;
    assert forall|x: Seq<char>| #[trigger] pp.contains(x) <==> paths.contains(x) by {
        if pp.contains(x) {
            let i = choose|i: int| 0 <= i < pp.len() && pp[i] == x;
            if i < paths.len() {
                assert(paths[i] == x);
            } else {
                assert(paths[i - paths.len()] == x);
            }
        }
        if paths.contains(x) {
            let i = choose|i: int| 0 <= i < paths.len() && paths[i] == x;
            assert(pp[i] == x);
        }
    }
    assert(pp.to_set() =~= paths.to_set());
    lemma_vocabulary_order_independent(pp, paths);
    let v = vocabulary(paths).to_set();
    assert(vocabulary(pp).to_set() == v);
    lemma_groups_of_concat(paths, paths, v);
    lemma_replay_prefix(paths, v, paths.len() as int);
    lemma_groups_last_write(paths, v);
    let g = groups_of(paths, v);
    assert(paths.subrange(0, paths.len() as int) =~= paths);
    let h = replay(g, paths, v);
    assert forall|i: int| 0 <= i < g.len() implies #[trigger] h[i] == g[i] by {
        assert(read_of(h[i], ReadDirection::Forward) == read_of(g[i], ReadDirection::Forward));
        assert(read_of(h[i], ReadDirection::Reverse) == read_of(g[i], ReadDirection::Reverse));
    }
    assert(h =~= g);
}

/// No two different paths give the same sample and direction.
pub open spec fn keys_distinct(paths: Seq<Seq<char>>, vocab: Set<Seq<char>>) -> bool {
    forall|i: int, j: int|
        0 <= i < paths.len() && 0 <= j < paths.len() && key_of(paths[i], vocab) is Some
            && #[trigger] key_of(paths[i], vocab) == #[trigger] key_of(paths[j], vocab) ==> paths[i]
            == paths[j]
}

proof fn lemma_last_for_found(
    paths: Seq<Seq<char>>,
    vocab: Set<Seq<char>>,
    sample: Seq<char>,
    dir: ReadDirection,
)
    ensures
        last_for(paths, vocab, sample, dir) is Some ==> paths.contains(
            last_for(paths, vocab, sample, dir)->0,
        ) && key_of(last_for(paths, vocab, sample, dir)->0, vocab) == Some((sample, dir)),
        forall|k: int|
            0 <= k < paths.len() && #[trigger] key_of(paths[k], vocab) == Some((sample, dir))
                ==> last_for(paths, vocab, sample, dir) is Some,
    decreases paths.len(),
{
    if paths.len() > 0 {
        let rest = paths.drop_last();
        lemma_last_for_found(rest, vocab, sample, dir);
        if last_for(paths, vocab, sample, dir) is Some && key_of(paths.last(), vocab) != Some(
            (sample, dir),
        ) {
            let x = last_for(rest, vocab, sample, dir)->0;
            let i = choose|i: int| 0 <= i < rest.len() && rest[i] == x;
            assert(paths[i] == x);
        }
        assert forall|k: int|
            0 <= k < paths.len() && #[trigger] key_of(paths[k], vocab) == Some((sample, dir))
                implies last_for(paths, vocab, sample, dir) is Some by {
            if k < rest.len() {
                assert(rest[k] == paths[k]);
            }
        }
    }
}

proof fn lemma_seen_found(paths: Seq<Seq<char>>, vocab: Set<Seq<char>>, sample: Seq<char>)
    ensures
        seen(paths, vocab, sample) <==> exists|k: int|
            0 <= k < paths.len() && (#[trigger] key_of(paths[k], vocab)) is Some && (key_of(
                paths[k],
                vocab,
            )->0).0 == sample,
    decreases paths.len(),
{
    if paths.len() > 0 {
        let rest = paths.drop_last();
        lemma_seen_found(rest, vocab, sample);
        if seen(rest, vocab, sample) {
            let k = choose|k: int|
                0 <= k < rest.len() && (#[trigger] key_of(rest[k], vocab)) is Some && (key_of(
                    rest[k],
                    vocab,
                )->0).0 == sample;
            assert(paths[k] == rest[k]);
        }
        if exists|k: int|
            0 <= k < paths.len() && (#[trigger] key_of(paths[k], vocab)) is Some && (key_of(
                paths[k],
                vocab,
            )->0).0 == sample {
            let k = choose|k: int|
                0 <= k < paths.len() && (#[trigger] key_of(paths[k], vocab)) is Some && (key_of(
                    paths[k],
                    vocab,
                )->0).0 == sample;
            if k < rest.len() {
                assert(rest[k] == paths[k]);
            }
        }
    }
}

/// Under distinct keys, the last path for a sample and direction is the one
/// path that gives them, so two lists holding the same paths agree on it.
proof fn lemma_last_for_same_set(
    p: Seq<Seq<char>>,
    q: Seq<Seq<char>>,
    vocab: Set<Seq<char>>,
    sample: Seq<char>,
    dir: ReadDirection,
)
    requires
        p.to_set() == q.to_set(),
        keys_distinct(p, vocab),
    ensures
        last_for(p, vocab, sample, dir) == last_for(q, vocab, sample, dir),
{
    lemma_last_for_found(p, vocab, sample, dir);
    lemma_last_for_found(q, vocab, sample, dir);
    if last_for(p, vocab, sample, dir) is Some {
        let x = last_for(p, vocab, sample, dir)->0;
        assert(p.to_set().contains(x));
        assert(q.contains(x));
        let k = choose|k: int| 0 <= k < q.len() && q[k] == x;
        assert(key_of(q[k], vocab) == Some((sample, dir)));
        let y = last_for(q, vocab, sample, dir)->0;
        assert(q.to_set().contains(y));
        assert(p.contains(y));
        let i = choose|i: int| 0 <= i < p.len() && p[i] == y;
        let j = choose|j: int| 0 <= j < p.len() && p[j] == x;
        assert(key_of(p[i], vocab) == key_of(p[j], vocab));
    } else if last_for(q, vocab, sample, dir) is Some {
        let y = last_for(q, vocab, sample, dir)->0;
        assert(q.to_set().contains(y));
        assert(p.contains(y));
        let i = choose|i: int| 0 <= i < p.len() && p[i] == y;
        assert(key_of(p[i], vocab) == Some((sample, dir)));
    }
}

proof fn lemma_seen_same_set(
    p: Seq<Seq<char>>,
    q: Seq<Seq<char>>,
    vocab: Set<Seq<char>>,
    sample: Seq<char>,
)
    requires
        p.to_set() == q.to_set(),
    ensures
        seen(p, vocab, sample) == seen(q, vocab, sample),
{
    lemma_seen_found(p, vocab, sample);
    lemma_seen_found(q, vocab, sample);
    if seen(p, vocab, sample) {
        let k = choose|k: int|
            0 <= k < p.len() && (#[trigger] key_of(p[k], vocab)) is Some && (key_of(
                p[k],
                vocab,
            )->0).0 == sample;
        assert(p.to_set().contains(p[k]));
        assert(q.contains(p[k]));
        let m = choose|m: int| 0 <= m < q.len() && q[m] == p[k];
        assert(key_of(q[m], vocab) == key_of(p[k], vocab));
    }
    if seen(q, vocab, sample) {
        let k = choose|k: int|
            0 <= k < q.len() && (#[trigger] key_of(q[k], vocab)) is Some && (key_of(
                q[k],
                vocab,
            )->0).0 == sample;
        assert(q.to_set().contains(q[k]));
        assert(p.contains(q[k]));
        let m = choose|m: int| 0 <= m < p.len() && p[m] == q[k];
        assert(key_of(p[m], vocab) == key_of(q[k], vocab));
    }
}

proof fn lemma_complete_kept(groups: Seq<GroupView>, i: int)
    requires
        0 <= i < groups.len(),
        is_complete(groups[i]),
    ensures
        complete_only(groups).contains(groups[i]),
    decreases groups.len(),
{
    let rest = groups.drop_last();
    if i < groups.len() - 1 {
        assert(rest[i] == groups[i]);
        lemma_complete_kept(rest, i);
        let c = complete_only(rest);
        let k = choose|k: int| 0 <= k < c.len() && c[k] == groups[i];
        if is_complete(groups.last()) {
            assert(c.push(groups.last())[k] == groups[i]);
        }
    } else {
        assert(complete_only(groups).last() == groups[i]);
    }
}

/// The kept group for a sample is that sample's group in `groups_of`.
proof fn lemma_kept_group(paths: Seq<Seq<char>>, vocab: Set<Seq<char>>, i: int)
    requires
        0 <= i < complete_only(groups_of(paths, vocab)).len(),
    ensures
        ({
            let c = complete_only(groups_of(paths, vocab))[i];
            &&& is_complete(c)
            &&& seen(paths, vocab, c.sample)
            &&& read_of(c, ReadDirection::Forward) == last_for(paths, vocab, c.sample, ReadDirection::Forward)
            &&& read_of(c, ReadDirection::Reverse) == last_for(paths, vocab, c.sample, ReadDirection::Reverse)
        }),
{
    let g = groups_of(paths, vocab);
    let c = complete_only(g);
    lemma_complete_only(g);
    lemma_complete_only_from(g);
    lemma_groups_last_write(paths, vocab);
    lemma_groups_unique(paths, vocab);
    assert(is_complete(c[i]));
    assert(g.contains(c[i]));
    let k = choose|k: int| 0 <= k < g.len() && g[k] == c[i];
    lemma_index_of_sample(g, c[i].sample);
    assert(index_of_sample(g, c[i].sample) >= 0);
    assert(read_of(g[k], ReadDirection::Forward) == last_for(paths, vocab, g[k].sample, ReadDirection::Forward));
    assert(read_of(g[k], ReadDirection::Reverse) == last_for(paths, vocab, g[k].sample, ReadDirection::Reverse));
}

/// A sample whose reads are both found is kept, with those reads.
proof fn lemma_group_kept(paths: Seq<Seq<char>>, vocab: Set<Seq<char>>, s: Seq<char>)
    requires
        seen(paths, vocab, s),
        last_for(paths, vocab, s, ReadDirection::Forward) is Some,
        last_for(paths, vocab, s, ReadDirection::Reverse) is Some,
    ensures
        has_sample(complete_only(groups_of(paths, vocab)), s),
{
    let g = groups_of(paths, vocab);
    lemma_groups_last_write(paths, vocab);
    lemma_index_of_sample(g, s);
    let k = index_of_sample(g, s);
    assert(read_of(g[k], ReadDirection::Forward) == last_for(paths, vocab, s, ReadDirection::Forward));
    assert(read_of(g[k], ReadDirection::Reverse) == last_for(paths, vocab, s, ReadDirection::Reverse));
    lemma_complete_kept(g, k);
    let c = complete_only(g);
    let m = choose|m: int| 0 <= m < c.len() && c[m] == g[k];
    assert(c[m].sample == s);
}

/// Where no two different paths give the same sample and direction, two
/// lists that hold the same paths, in any order and any number of times,
/// keep the same samples, each with the same reads.
pub proof fn lemma_classification_same_paths(p: Seq<Seq<char>>, q: Seq<Seq<char>>)
    requires
        p.to_set() == q.to_set(),
        keys_distinct(p, vocabulary(p).to_set()),
    ensures
        forall|s: Seq<char>|
            has_sample(classification(p), s) == #[trigger] has_sample(classification(q), s),
        forall|i: int, j: int|
            0 <= i < classification(p).len() && 0 <= j < classification(q).len() && (
            #[trigger] classification(p)[i]).sample == (#[trigger] classification(q)[j]).sample
                ==> classification(p)[i] == classification(q)[j],
{
    lemma_vocabulary_order_independent(p, q);
    let v = vocabulary(p).to_set();
    assert(vocabulary(q).to_set() == v);
    let cp = classification(p);
    let cq = classification(q);
    assert forall|s: Seq<char>| has_sample(cp, s) implies #[trigger] has_sample(cq, s) by {
        let i = choose|i: int| 0 <= i < cp.len() && cp[i].sample == s;
        lemma_kept_group(p, v, i);
        lemma_seen_same_set(p, q, v, s);
        lemma_last_for_same_set(p, q, v, s, ReadDirection::Forward);
        lemma_last_for_same_set(p, q, v, s, ReadDirection::Reverse);
        lemma_group_kept(q, v, s);
    }
    assert forall|s: Seq<char>| #[trigger] has_sample(cq, s) implies has_sample(cp, s) by {
        let j = choose|j: int| 0 <= j < cq.len() && cq[j].sample == s;
        lemma_kept_group(q, v, j);
        lemma_seen_same_set(p, q, v, s);
        lemma_last_for_same_set(p, q, v, s, ReadDirection::Forward);
        lemma_last_for_same_set(p, q, v, s, ReadDirection::Reverse);
        lemma_group_kept(p, v, s);
    }
    assert forall|i: int, j: int|
        0 <= i < cp.len() && 0 <= j < cq.len() && (#[trigger] cp[i]).sample == (
        #[trigger] cq[j]).sample implies cp[i] == cq[j] by {
        let s = cp[i].sample;
        lemma_kept_group(p, v, i);
        lemma_kept_group(q, v, j);
        lemma_last_for_same_set(p, q, v, s, ReadDirection::Forward);
        lemma_last_for_same_set(p, q, v, s, ReadDirection::Reverse);
    }
}

} // verus!
