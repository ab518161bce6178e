//! Grouping files into samples, each with a forward and a reverse read.
use vstd::prelude::*;
use crate::names::{file_name, file_name_of};
use crate::pattern::{
    extension_vocabulary, match_pair, pair_match, views, vocabulary, ReadDirection,
};

verus! {

/// The reads of one sample, each present once some file gave it.
pub struct ReadPair {
    pub forward: Option<String>,
    pub reverse: Option<String>,
}

/// A sample name and the reads found for it.
pub struct SampleGroup {
    pub sample: String,
    pub pair: ReadPair,
}

/// What a sample group holds, as character sequences.
pub struct GroupView {
    pub sample: Seq<char>,
    pub forward: Option<Seq<char>>,
    pub reverse: Option<Seq<char>>,
}

pub open spec fn opt_view(o: Option<String>) -> Option<Seq<char>> {
    match o {
        Some(s) => Some(s@),
        None => None,
    }
}

impl SampleGroup {
    pub open spec fn view(&self) -> GroupView {
        GroupView {
            sample: self.sample@,
            forward: opt_view(self.pair.forward),
            reverse: opt_view(self.pair.reverse),
        }
    }
}

pub open spec fn group_views(g: Seq<SampleGroup>) -> Seq<GroupView> {
    g.map_values(|x: SampleGroup| x.view())
}

/// Both reads of the group are present.
pub open spec fn is_complete(g: GroupView) -> bool {
    g.forward is Some && g.reverse is Some
}

/// The index of the group for `sample`, or -1.
pub open spec fn index_of_sample(groups: Seq<GroupView>, sample: Seq<char>) -> int
    decreases groups.len(),
{
    if groups.len() == 0 {
        -1
    } else if groups.last().sample == sample {
        groups.len() - 1
    } else {
        index_of_sample(groups.drop_last(), sample)
    }
}

pub proof fn lemma_index_of_sample(groups: Seq<GroupView>, sample: Seq<char>)
    ensures
        -1 <= index_of_sample(groups, sample) < groups.len(),
        index_of_sample(groups, sample) >= 0 ==> groups[index_of_sample(groups, sample)].sample
            == sample,
        index_of_sample(groups, sample) == -1 ==> forall|j: int|
            0 <= j < groups.len() ==> groups[j].sample != sample,
    decreases groups.len(),
{
    if groups.len() > 0 && groups.last().sample != sample {
        lemma_index_of_sample(groups.drop_last(), sample);
        let i = index_of_sample(groups, sample);
        if i == -1 {
            assert forall|j: int| 0 <= j < groups.len() implies groups[j].sample != sample by {
                if j < groups.len() - 1 {
                    assert(groups.drop_last()[j] == groups[j]);
                }
            }
        }
    }
}

/// The group with the path stored for the direction, replacing any earlier one.
pub open spec fn with_read(g: GroupView, dir: ReadDirection, path: Seq<char>) -> GroupView {
    match dir {
        ReadDirection::Forward => GroupView { forward: Some(path), ..g },
        ReadDirection::Reverse => GroupView { reverse: Some(path), ..g },
    }
}

/// Records a file for a sample: the sample's group gets the path for the
/// direction, a new group being added at the end for a sample not seen yet.
pub open spec fn record(groups: Seq<GroupView>, sample: Seq<char>, dir: ReadDirection, path: Seq<char>) -> Seq<GroupView> {
    let i = index_of_sample(groups, sample);
    if i < 0 {
        groups.push(with_read(GroupView { sample, forward: None, reverse: None }, dir, path))
    } else {
        groups.update(i, with_read(groups[i], dir, path))
    }
}

/// The sample name and direction that the file a path names gives under
/// the pairing pattern with the extensions `vocab`.
pub open spec fn key_of(p: Seq<char>, vocab: Set<Seq<char>>) -> Option<(Seq<char>, ReadDirection)> {
    match file_name_of(p) {
        Some(b) => pair_match(b, vocab),
        None => None,
    }
}

/// The groups that the paths form under the pairing pattern with the
/// extensions `vocab`, in the order in which their samples were first seen.
pub open spec fn groups_of(paths: Seq<Seq<char>>, vocab: Set<Seq<char>>) -> Seq<GroupView>
    decreases paths.len(),
{
    if paths.len() == 0 {
        Seq::empty()
    } else {
        let g = groups_of(paths.drop_last(), vocab);
        let p = paths.last();
        match key_of(p, vocab) {
            Some((sample, dir)) => record(g, sample, dir, p),
            None => g,
        }
    }
}

/// The complete groups among `groups`, in their order.
pub open spec fn complete_only(groups: Seq<GroupView>) -> Seq<GroupView>
    decreases groups.len(),
{
    if groups.len() == 0 {
        Seq::empty()
    } else if is_complete(groups.last()) {
        complete_only(groups.drop_last()).push(groups.last())
    } else {
        complete_only(groups.drop_last())
    }
}

/// The samples that a list of paths yields: the groups formed under the
/// pattern built from the paths' own extensions, with every incomplete
/// group left out.
pub open spec fn classification(paths: Seq<Seq<char>>) -> Seq<GroupView> {
    complete_only(groups_of(paths, vocabulary(paths).to_set()))
}

/// No two groups have the same sample name.
pub open spec fn samples_unique(groups: Seq<GroupView>) -> bool {
    forall|i: int, j: int|
        0 <= i < groups.len() && 0 <= j < groups.len() && i != j ==> groups[i].sample
            != groups[j].sample
}

/// Why classification found nothing to run.
#[derive(Clone, Copy, Debug, PartialEq, Eq, Structural)]
pub enum PearError {
    /// No input file was given.
    NoInputFiles,
    /// No sample has both of its reads.
    NoPairs,
    /// The job pool ended with a failure.
    JobsFailed,
}

impl PearError {
    /// A one-line description of the error.
    pub fn message(&self) -> (r: String)
        ensures
            r@ == match *self {
                PearError::NoInputFiles => "No input files"@,
                PearError::NoPairs => "No pairs"@,
                PearError::JobsFailed => "Failed to run jobs in parallel"@,
            },
    {
        let s = match self {
            PearError::NoInputFiles => "No input files",
            PearError::NoPairs => "No pairs",
            PearError::JobsFailed => "Failed to run jobs in parallel",
        };
        String::from_str(s)
    }
}

/// The complete sample groups of a classification, by sample name.
pub struct ReadPairLookup {
    groups: Vec<SampleGroup>,
}

impl ReadPairLookup {
    pub closed spec fn view(&self) -> Seq<GroupView> {
        group_views(self.groups@)
    }

    /// Every group has both reads, and no two share a sample name.
    #[verifier::type_invariant]
    spec fn inv(&self) -> bool {
        &&& forall|i: int|
            0 <= i < self.groups@.len() ==> is_complete(#[trigger] group_views(self.groups@)[i])
        &&& samples_unique(group_views(self.groups@))
    }

    /// The number of samples.
    pub fn len(&self) -> (r: usize)
        ensures
            r == self.view().len(),
    {
        self.groups.len()
    }

    /// Whether there are no samples.
    pub fn is_empty(&self) -> (r: bool)
        ensures
            r == (self.view().len() == 0),
    {
        self.groups.len() == 0
    }

    /// Whether a sample of that name is present.
    pub fn contains_key(&self, sample: &str) -> (r: bool)
        ensures
            r == has_sample(self.view(), sample@),
    {
        let key = String::from_str(sample);
        proof {
            lemma_index_of_sample(self.view(), sample@);
        }
        find_group(&self.groups, &key).is_some()
    }

    /// The reads of the sample of that name.
    pub fn get(&self, sample: &str) -> (r: Option<&ReadPair>)
        ensures
            match r {
                Some(p) => {
                    let i = index_of_sample(self.view(), sample@);
                    &&& 0 <= i < self.view().len()
                    &&& self.view()[i].sample == sample@
                    &&& self.view()[i].forward == opt_view(p.forward)
                    &&& self.view()[i].reverse == opt_view(p.reverse)
                },
                None => !has_sample(self.view(), sample@),
            },
    {
        let key = String::from_str(sample);
        proof {
            lemma_index_of_sample(self.view(), sample@);
        }
        match find_group(&self.groups, &key) {
            Some(i) => Some(&self.groups[i].pair),
            None => None,
        }
    }

    /// The sample groups, first seen first.
    pub fn groups(&self) -> (r: &Vec<SampleGroup>)
        ensures
            group_views(r@) == self.view(),
            forall|i: int| 0 <= i < r@.len() ==> is_complete(#[trigger] group_views(r@)[i]),
            samples_unique(group_views(r@)),
    {
        proof {
            use_type_invariant(self);
        }
        &self.groups
    }
}

/// Some group has that sample name.
pub open spec fn has_sample(groups: Seq<GroupView>, sample: Seq<char>) -> bool {
    exists|i: int| 0 <= i < groups.len() && groups[i].sample == sample
}

impl ReadPair {
    /// The path stored for a direction.
    pub open spec fn read(&self, dir: ReadDirection) -> Option<String> {
        match dir {
            ReadDirection::Forward => self.forward,
            ReadDirection::Reverse => self.reverse,
        }
    }

    /// Whether a path is stored for the direction.
    pub fn contains_key(&self, dir: &ReadDirection) -> (r: bool)
        ensures
            r == self.read(*dir) is Some,
    {
        match dir {
            ReadDirection::Forward => self.forward.is_some(),
            ReadDirection::Reverse => self.reverse.is_some(),
        }
    }

    /// The path stored for the direction.
    pub fn get(&self, dir: &ReadDirection) -> (r: Option<&String>)
        ensures
            match r {
                Some(p) => self.read(*dir) == Some(*p),
                None => self.read(*dir) is None,
            },
    {
        let o = match dir {
            ReadDirection::Forward => &self.forward,
            ReadDirection::Reverse => &self.reverse,
        };
        match o {
            Some(p) => Some(p),
            None => None,
        }
    }
}

/// The position of the group for `sample`, searching from the end.
fn find_group(groups: &Vec<SampleGroup>, sample: &String) -> (r: Option<usize>)
    ensures
        match r {
            Some(i) => i == index_of_sample(group_views(groups@), sample@),
            None => index_of_sample(group_views(groups@), sample@) == -1,
        },
{
    let ghost all = group_views(groups@);
    let mut i: usize = groups.len();
    assert(all.subrange(0, i as int) =~= all);
    while i > 0
        invariant
            i <= groups@.len(),
            all == group_views(groups@),
            index_of_sample(all, sample@) == index_of_sample(all.subrange(0, i as int), sample@),
        decreases i,
    {
        let ghost pre = all.subrange(0, i as int);
        assert(pre.drop_last() =~= all.subrange(0, i - 1));
        assert(pre.last() == groups@[i - 1].view());
        if groups[i - 1].sample.eq(sample) {
            return Some(i - 1);
        }
        i = i - 1;
    }
    None
}

fn copy_read(o: &Option<String>) -> (r: Option<String>)
    ensures
        opt_view(r) == opt_view(*o),
{
    match o {
        Some(s) => Some(s.clone()),
        None => None,
    }
}

fn copy_group(g: &SampleGroup) -> (r: SampleGroup)
    ensures
        r.view() == g.view(),
{
    SampleGroup {
        sample: g.sample.clone(),
        pair: ReadPair { forward: copy_read(&g.pair.forward), reverse: copy_read(&g.pair.reverse) },
    }
}

/// Stores `path` as the `dir` read of `sample`, replacing an earlier one.
fn record_file(groups: &mut Vec<SampleGroup>, sample: String, dir: ReadDirection, path: String)
    ensures
        group_views(final(groups)@) == record(group_views(old(groups)@), sample@, dir, path@),
{
    let ghost before = group_views(groups@);
    proof {
        lemma_index_of_sample(before, sample@);
    }
    match find_group(groups, &sample) {
        None => {
            let g = match dir {
                ReadDirection::Forward => SampleGroup {
                    sample,
                    pair: ReadPair { forward: Some(path), reverse: None },
                },
                ReadDirection::Reverse => SampleGroup {
                    sample,
                    pair: ReadPair { forward: None, reverse: Some(path) },
                },
            };
            groups.push(g);
            assert(group_views(groups@) =~= record(before, sample@, dir, path@));
        },
        Some(i) => {
            let old_g = copy_group(&groups[i]);
            let g = match dir {
                ReadDirection::Forward => SampleGroup {
                    sample: old_g.sample,
                    pair: ReadPair { forward: Some(path), reverse: old_g.pair.reverse },
                },
                ReadDirection::Reverse => SampleGroup {
                    sample: old_g.sample,
                    pair: ReadPair { forward: old_g.pair.forward, reverse: Some(path) },
                },
            };
            groups.set(i, g);
            assert(group_views(groups@) =~= record(before, sample@, dir, path@));
        },
    }
}

/// Groups the files that `paths` name into samples under the pairing
/// pattern, built from the extensions of those same files, and keeps the
/// samples that have both reads. Where several files give the same read of
/// a sample, the last one wins. Fails with `NoPairs` where no sample is
/// complete.
pub fn classify(paths: &[String]) -> (r: Result<ReadPairLookup, PearError>)
    ensures
        match r {
            Ok(l) => {
                &&& l.view() == classification(views(paths@))
                &&& l.view().len() > 0
                &&& samples_unique(l.view())
            },
            Err(e) => e == PearError::NoPairs && classification(views(paths@)).len() == 0,
        },
{
    let vocab = extension_vocabulary(paths);
    let ghost pv = views(paths@);
    let ghost vs = views(vocab@).to_set();
    assert(vs == vocabulary(pv).to_set());
    let mut groups: Vec<SampleGroup> = Vec::new();
    let mut i: usize = 0;
    while i < paths.len()
        invariant
            i <= paths@.len(),
            pv == views(paths@),
            vs == views(vocab@).to_set(),
            group_views(groups@) == groups_of(pv.subrange(0, i as int), vs),
        decreases paths@.len() - i,
    {
        let ghost cur = pv.subrange(0, i + 1);
        assert(cur.drop_last() =~= pv.subrange(0, i as int));
        assert(cur.last() == paths@[i as int]@);
        match file_name(paths[i].as_str()) {
            Some(b) => match match_pair(b, &vocab) {
                Some((sample, dir)) => record_file(&mut groups, sample, dir, paths[i].clone()),
                None => {},
            },
            None => {},
        }
        i = i + 1;
    }
    assert(pv.subrange(0, paths@.len() as int) =~= pv);
    let ghost all = group_views(groups@);
    let mut kept: Vec<SampleGroup> = Vec::new();
    let mut j: usize = 0;
    while j < groups.len()
        invariant
            j <= groups@.len(),
            all == group_views(groups@),
            group_views(kept@) == complete_only(all.subrange(0, j as int)),
        decreases groups@.len() - j,
    {
        let ghost cur = all.subrange(0, j + 1);
        assert(cur.drop_last() =~= all.subrange(0, j as int));
        assert(cur.last() == groups@[j as int].view());
        if groups[j].pair.forward.is_some() && groups[j].pair.reverse.is_some() {
            let ghost before = kept@;
            kept.push(copy_group(&groups[j]));
            assert(group_views(kept@) =~= group_views(before).push(groups@[j as int].view()));
        }
        j = j + 1;
    }
    assert(all.subrange(0, groups@.len() as int) =~= all);
    proof {
        crate::laws::lemma_classified_samples_unique(pv);
        crate::laws::lemma_classified_groups_complete(pv);
        assert forall|k: int| 0 <= k < kept@.len() implies is_complete(
            #[trigger] group_views(kept@)[k],
        ) by {
            assert(classification(pv)[k] == group_views(kept@)[k]);
        }
    }
    if kept.len() == 0 {
        Err(PearError::NoPairs)
    } else {
        Ok(ReadPairLookup { groups: kept })
    }
}

} // verus!
