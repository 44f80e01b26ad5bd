//! Grouping of fingerprinted files into sets of duplicates.

use crate::{file_views, FileInfo, FileView};
use vstd::hash_map::StringHashMap;
use vstd::prelude::*;

verus! {

/// Files that share one fingerprint.
#[derive(Debug, Clone)]
pub struct DuplicateGroup {
    /// The shared fingerprint.
    pub hash: String,
    /// The files, in the order in which they were given.
    pub members: Vec<FileInfo>,
    /// Length of the first member; in a duplicate set, of every member.
    pub size: u64,
}

/// A `DuplicateGroup` as plain values.
pub struct GroupView {
    pub hash: Seq<char>,
    pub members: Seq<FileView>,
    pub size: u64,
}

impl View for DuplicateGroup {
    type V = GroupView;

    open spec fn view(&self) -> GroupView {
        GroupView { hash: self.hash@, members: file_views(self.members@), size: self.size }
    }
}

/// The files with fingerprint `hash`, in their order in `files`.
pub open spec fn with_hash(files: Seq<FileView>, hash: Seq<char>) -> Seq<FileView> {
    files.filter(|f: FileView| f.hash == hash)
}

/// `position` is where the first file with fingerprint `hash` stands.
pub open spec fn is_first(files: Seq<FileView>, hash: Seq<char>, position: int) -> bool {
    &&& 0 <= position < files.len()
    &&& files[position].hash == hash
    &&& forall|j: int| 0 <= j < position ==> files[j].hash != hash
}

/// Where the first file with fingerprint `hash` stands in `files`.
pub open spec fn first_seen(files: Seq<FileView>, hash: Seq<char>) -> int {
    choose|position: int| is_first(files, hash, position)
}

/// All of `members` have one length.
pub open spec fn same_length(members: Seq<FileView>) -> bool {
    forall|i: int, j: int|
        0 <= i < members.len() && 0 <= j < members.len() ==> members[i].size == members[j].size
}

/// Bytes that would be freed by keeping one member of the group only.
pub open spec fn wasted_space(group: GroupView) -> int {
    if group.members.len() == 0 {
        0
    } else {
        (group.members.len() - 1) * group.size
    }
}

/// `group` holds all the files of `files` with its fingerprint, in their
/// order, and records the length of the first.
pub open spec fn collects(files: Seq<FileView>, group: GroupView) -> bool {
    &&& group.members == with_hash(files, group.hash)
    &&& group.members.len() >= 1
    &&& group.size == group.members[0].size
}

proof fn lemma_with_hash_push(files: Seq<FileView>, file: FileView, hash: Seq<char>)
    ensures
        with_hash(files.push(file), hash) == if file.hash == hash {
            with_hash(files, hash).push(file)
        } else {
            with_hash(files, hash)
        },
{
    files.lemma_filter_push(file, |f: FileView| f.hash == hash);
}

proof fn lemma_with_hash_absent(files: Seq<FileView>, hash: Seq<char>)
    requires
        forall|j: int| 0 <= j < files.len() ==> files[j].hash != hash,
    ensures
        with_hash(files, hash).len() == 0,
    decreases files.len(),
{
    reveal(Seq::filter);
    if files.len() > 0 {
        lemma_with_hash_absent(files.drop_last(), hash);
    }
}

proof fn lemma_with_hash_present(files: Seq<FileView>, hash: Seq<char>)
    requires
        with_hash(files, hash).len() > 0,
    ensures
        exists|j: int| 0 <= j < files.len() && files[j].hash == hash,
{
    if forall|j: int| 0 <= j < files.len() ==> files[j].hash != hash {
        lemma_with_hash_absent(files, hash);
    }
}

proof fn lemma_first_seen(files: Seq<FileView>, hash: Seq<char>, position: int)
    requires
        is_first(files, hash, position),
    ensures
        first_seen(files, hash) == position,
{
    let chosen = first_seen(files, hash);
    assert(is_first(files, hash, chosen));
    if chosen < position {
        assert(files[chosen].hash != hash);
    } else if position < chosen {
        assert(files[position].hash != hash);
    }
}

/// Sorts the files into one group for each fingerprint, the groups in the
/// order in which their fingerprints first occur.
fn partition(files: Vec<FileInfo>) -> (buckets: Vec<DuplicateGroup>)
    ensures
        forall|b: int|
            0 <= b < buckets.len() ==> collects(file_views(files@), (#[trigger] buckets[b])@),
        forall|a: int, b: int|
            0 <= a < b < buckets.len() ==> first_seen(file_views(files@), buckets[a].hash@)
                < first_seen(file_views(files@), buckets[b].hash@),
        forall|hash: Seq<char>|
            with_hash(file_views(files@), hash).len() > 0 ==> exists|b: int|
                0 <= b < buckets.len() && (#[trigger] buckets[b]).hash@ == hash,
{
    let mut buckets: Vec<DuplicateGroup> = Vec::new();
    let mut index: StringHashMap<usize> = StringHashMap::new();
    let ghost all = file_views(files@);
    let ghost mut firsts: Seq<int> = Seq::empty();
    for file in it: files
        invariant
            it.seq() == files@,
            all == file_views(files@),
            buckets.len() == firsts.len(),
            forall|b: int|
                0 <= b < buckets.len() ==> collects(all.take(it.index()), (#[trigger] buckets[b])@)
                    && is_first(all.take(it.index()), buckets[b].hash@, firsts[b]),
            forall|a: int, b: int| 0 <= a < b < firsts.len() ==> firsts[a] < firsts[b],
            forall|hash: Seq<char>| #[trigger]
                index@.contains_key(hash) ==> index@[hash] < buckets.len()
                    && buckets[index@[hash] as int].hash@ == hash,
            forall|b: int|
                0 <= b < buckets.len() ==> index@.contains_key((#[trigger] buckets[b]).hash@)
                    && index@[buckets[b].hash@] == b,
            forall|j: int| 0 <= j < it.index() ==> index@.contains_key(#[trigger] all[j].hash),
    {
        let ghost seen = all.take(it.index());
        let ghost now = all.take(it.index() + 1);
        proof {
            assert(now =~= seen.push(file@));
            assert forall|b: int| 0 <= b < buckets.len() implies with_hash(
                now,
                (#[trigger] buckets[b]).hash@,
            ) == if file.hash@ == buckets[b].hash@ {
                with_hash(seen, buckets[b].hash@).push(file@)
            } else {
                with_hash(seen, buckets[b].hash@)
            } by {
                lemma_with_hash_push(seen, file@, buckets[b].hash@);
            }
        }
        let found = match index.get(file.hash.as_str()) {
            Some(position) => Some(*position),
            None => None,
        };
        match found {
            Some(position) => {
                let ghost before = buckets[position as int].members@;
                buckets[position].members.push(file);
                proof {
                    assert(file_views(buckets[position as int].members@) =~= file_views(
                        before,
                    ).push(file@));
                }
            },
            None => {
                proof {
                    assert forall|j: int| 0 <= j < seen.len() implies seen[j].hash != file.hash@ by {
                        assert(index@.contains_key(all[j].hash));
                    }
                    lemma_with_hash_absent(seen, file.hash@);
                    lemma_with_hash_push(seen, file@, file.hash@);
                    assert forall|a: int| 0 <= a < firsts.len() implies firsts[a] < it.index() by {
                        assert(is_first(seen, buckets[a].hash@, firsts[a]));
                    }
                    firsts = firsts.push(it.index());
                }
                let position = buckets.len();
                let hash = file.hash.clone();
                let size = file.size;
                let ghost view = file@;
                let mut members: Vec<FileInfo> = Vec::new();
                members.push(file);
                proof {
                    assert(file_views(members@) =~= seq![view]);
                    assert(with_hash(now, view.hash) =~= seq![view]);
                }
                index.insert(hash.clone(), position);
                buckets.push(DuplicateGroup { hash, members, size });
            },
        }
    }
    proof {
        assert(all.take(all.len() as int) =~= all);
        assert forall|a: int, b: int| 0 <= a < b < buckets.len() implies first_seen(
            all,
            buckets[a].hash@,
        ) < first_seen(all, buckets[b].hash@) by {
            lemma_first_seen(all, buckets[a].hash@, firsts[a]);
            lemma_first_seen(all, buckets[b].hash@, firsts[b]);
        }
        assert forall|hash: Seq<char>| with_hash(all, hash).len() > 0 implies exists|b: int|
            0 <= b < buckets.len() && (#[trigger] buckets[b]).hash@ == hash by {
            lemma_with_hash_present(all, hash);
            let j = choose|j: int| 0 <= j < all.len() && all[j].hash == hash;
            assert(index@.contains_key(all[j].hash));
            assert(buckets[index@[hash] as int].hash@ == hash);
        }
    }
    buckets
}

/// The duplicate sets of a list of files, and the fingerprints that turned
/// out to stand for files of different lengths.
#[derive(Debug, Clone)]
pub struct Duplicates {
    /// The duplicate sets, those that waste the most space first.
    pub groups: Vec<DuplicateGroup>,
    /// Groups whose members share a fingerprint but not a length: the
    /// fingerprint has collided, and the members are no duplicates.
    pub anomalies: Vec<DuplicateGroup>,
}

/// The groups of a list as plain values.
pub open spec fn group_views(groups: Seq<DuplicateGroup>) -> Seq<GroupView> {
    groups.map_values(|g: DuplicateGroup| g@)
}

/// `group` is a duplicate set of `files`: all the files with its fingerprint,
/// two or more, and all of one length.
pub open spec fn is_duplicate_set(files: Seq<FileView>, group: GroupView) -> bool {
    &&& collects(files, group)
    &&& group.members.len() >= 2
    &&& same_length(group.members)
}

/// `group` is a collision in `files`: all the files with its fingerprint, two
/// or more, and not all of one length.
pub open spec fn is_collision(files: Seq<FileView>, group: GroupView) -> bool {
    &&& collects(files, group)
    &&& group.members.len() >= 2
    &&& !same_length(group.members)
}

/// `first` has to come before `second` in a list of duplicate sets: it wastes
/// more space, or as much and its fingerprint occurs earlier in `files`.
pub open spec fn goes_before(files: Seq<FileView>, first: GroupView, second: GroupView) -> bool {
    wasted_space(first) > wasted_space(second) || (wasted_space(first) == wasted_space(second)
        && first_seen(files, first.hash) < first_seen(files, second.hash))
}

/// A `Duplicates` as plain values.
pub struct DuplicatesView {
    pub groups: Seq<GroupView>,
    pub anomalies: Seq<GroupView>,
}

impl View for Duplicates {
    type V = DuplicatesView;

    open spec fn view(&self) -> DuplicatesView {
        DuplicatesView {
            groups: group_views(self.groups@),
            anomalies: group_views(self.anomalies@),
        }
    }
}

/// `found` is the grouping of `files`: every fingerprint that two or more
/// files share has its group, among the duplicate sets where the members have
/// one length and among the anomalies where they have not; there is no other
/// group; and both lists are in order.
pub open spec fn is_grouping(files: Seq<FileView>, found: DuplicatesView) -> bool {
    &&& forall|i: int|
        0 <= i < found.groups.len() ==> is_duplicate_set(files, #[trigger] found.groups[i])
    &&& forall|i: int|
        0 <= i < found.anomalies.len() ==> is_collision(files, #[trigger] found.anomalies[i])
    &&& forall|hash: Seq<char>|
        with_hash(files, hash).len() >= 2 ==> (exists|i: int|
            0 <= i < found.groups.len() && (#[trigger] found.groups[i]).hash == hash) || (exists|
            i: int,
        | 0 <= i < found.anomalies.len() && (#[trigger] found.anomalies[i]).hash == hash)
    &&& forall|i: int, j: int|
        0 <= i < j < found.groups.len() ==> goes_before(
            files,
            #[trigger] found.groups[i],
            #[trigger] found.groups[j],
        )
    &&& forall|i: int, j: int|
        0 <= i < j < found.anomalies.len() ==> first_seen(
            files,
            (#[trigger] found.anomalies[i]).hash,
        ) < first_seen(files, (#[trigger] found.anomalies[j]).hash)
}

impl DuplicateGroup {
    /// Bytes that would be freed by keeping one member only.
    pub fn wasted_space(&self) -> (bytes: u128)
        ensures
            bytes == wasted_space(self@),
    {
        if self.members.len() == 0 {
            0
        } else {
            let extra = (self.members.len() - 1) as u128;
            let size = self.size as u128;
            assert(extra * size <= 0xffff_ffff_ffff_ffff * 0xffff_ffff_ffff_ffff)
                by (nonlinear_arith)
                requires
                    extra <= 0xffff_ffff_ffff_ffff,
                    size <= 0xffff_ffff_ffff_ffff,
            ;
            extra * size
        }
    }

    /// Whether every member has the length that the group records.
    pub fn has_one_length(&self) -> (uniform: bool)
        ensures
            uniform == (forall|i: int|
                0 <= i < self.members.len() ==> (#[trigger] self.members[i]).size == self.size),
    {
        let mut i: usize = 0;
        while i < self.members.len()
            invariant
                i <= self.members.len(),
                forall|j: int| 0 <= j < i ==> (#[trigger] self.members[j]).size == self.size,
            decreases self.members.len() - i,
        {
            if self.members[i].size != self.size {
                return false;
            }
            i += 1;
        }
        true
    }
}

proof fn lemma_one_length(group: DuplicateGroup)
    requires
        group.members.len() >= 1,
        group.size == group.members[0].size,
    ensures
        same_length(group@.members) == (forall|i: int|
            0 <= i < group.members.len() ==> (#[trigger] group.members[i]).size == group.size),
{
    let members = group@.members;
    assert(members.len() == group.members.len());
    assert forall|i: int| 0 <= i < members.len() implies members[i].size
        == group.members[i].size by {}
    if same_length(members) {
        assert forall|i: int| 0 <= i < group.members.len() implies (
        #[trigger] group.members[i]).size == group.size by {
            assert(members[i].size == members[0].size);
        }
    }
}

/// Groups `files` by fingerprint and keeps the groups of two or more. Those
/// whose members all have one length are the duplicate sets, ordered by the
/// space they waste, largest first, and among equals by where their
/// fingerprint first occurs in `files`. Those whose members differ in length
/// are set apart as anomalies, in the order in which their fingerprints first
/// occur.
pub fn find_duplicates(files: Vec<FileInfo>) -> (found: Duplicates)
    ensures
        is_grouping(file_views(files@), found@),
{
    let ghost all = file_views(files@);
    let buckets = partition(files);
    let ghost given = buckets@;
    let mut groups: Vec<DuplicateGroup> = Vec::new();
    let mut anomalies: Vec<DuplicateGroup> = Vec::new();
    let ghost mut group_source: Seq<int> = Seq::empty();
    let ghost mut anomaly_source: Seq<int> = Seq::empty();
    for bucket in it: buckets
        invariant
            it.seq() == given,
            forall|b: int| 0 <= b < given.len() ==> collects(all, (#[trigger] given[b])@),
            groups.len() == group_source.len(),
            anomalies.len() == anomaly_source.len(),
            forall|i: int|
                0 <= i < groups.len() ==> 0 <= #[trigger] group_source[i] < it.index()
                    && groups[i] == given[group_source[i]] && groups[i].members.len() >= 2
                    && same_length(groups[i]@.members),
            forall|i: int|
                0 <= i < anomalies.len() ==> 0 <= #[trigger] anomaly_source[i] < it.index()
                    && anomalies[i] == given[anomaly_source[i]] && anomalies[i].members.len() >= 2
                    && !same_length(anomalies[i]@.members),
            forall|i: int, j: int|
                0 <= i < j < groups.len() ==> wasted_space((#[trigger] groups[i])@) > wasted_space(
                    (#[trigger] groups[j])@,
                ) || (wasted_space(groups[i]@) == wasted_space(groups[j]@) && group_source[i]
                    < group_source[j]),
            forall|i: int, j: int|
                0 <= i < j < anomalies.len() ==> #[trigger] anomaly_source[i]
                    < #[trigger] anomaly_source[j],
            forall|b: int|
                0 <= b < it.index() && (#[trigger] given[b]).members.len() >= 2 ==> (exists|i: int|
                    0 <= i < group_source.len() && #[trigger] group_source[i] == b) || (exists|
                    i: int,
                | 0 <= i < anomaly_source.len() && #[trigger] anomaly_source[i] == b),
    {
        let ghost here = it.index();
        assert(bucket == given[here]);
        assert(collects(all, bucket@));
        let ghost old_group_source = group_source;
        let ghost old_anomaly_source = anomaly_source;
        if bucket.members.len() >= 2 {
            let uniform = bucket.has_one_length();
            proof {
                lemma_one_length(bucket);
            }
            if uniform {
                let wasted = bucket.wasted_space();
                let mut position: usize = 0;
                while position < groups.len()
                    invariant_except_break
                        position <= groups.len(),
                    invariant
                        forall|i: int|
                            0 <= i < position ==> wasted_space((#[trigger] groups[i])@) >= wasted,
                    ensures
                        position <= groups.len(),
                        position < groups.len() ==> wasted_space(groups[position as int]@) < wasted,
                    decreases groups.len() - position,
                {
                    if groups[position].wasted_space() < wasted {
                        break ;
                    }
                    position += 1;
                }
                let ghost old_groups = groups@;
                groups.insert(position, bucket);
                proof {
                    group_source = group_source.insert(position as int, here);
                    assert forall|i: int| 0 <= i < groups.len() implies 0
                        <= #[trigger] group_source[i] < here + 1 && groups[i]
                        == given[group_source[i]] && groups[i].members.len() >= 2 && same_length(
                        groups[i]@.members,
                    ) by {
                        if i < position {
                            assert(groups[i] == old_groups[i]);
                            assert(group_source[i] == old_group_source[i]);
                        } else if i > position {
                            assert(groups[i] == old_groups[i - 1]);
                            assert(group_source[i] == old_group_source[i - 1]);
                        }
                    }
                    assert forall|b: int|
                        0 <= b < here + 1 && (#[trigger] given[b]).members.len() >= 2 implies (
                    exists|i: int| 0 <= i < group_source.len() && #[trigger] group_source[i] == b)
                        || (exists|i: int|
                        0 <= i < anomaly_source.len() && #[trigger] anomaly_source[i] == b) by {
                        if b == here {
                            assert(group_source[position as int] == b);
                        } else if exists|i: int|
                            0 <= i < old_group_source.len() && #[trigger] old_group_source[i] == b {
                            let i = choose|i: int|
                                0 <= i < old_group_source.len() && #[trigger] old_group_source[i]
                                    == b;
                            if i < position {
                                assert(group_source[i] == b);
                            } else {
                                assert(group_source[i + 1] == b);
                            }
                        }
                    }
                    assert forall|i: int, j: int| 0 <= i < j < groups.len() implies wasted_space(
                        (#[trigger] groups[i])@,
                    ) > wasted_space((#[trigger] groups[j])@) || (wasted_space(groups[i]@)
                        == wasted_space(groups[j]@) && group_source[i] < group_source[j]) by {
                        let oi = if i < position { i } else { i - 1 };
                        let oj = if j < position { j } else { j - 1 };
                        if i != position {
                            assert(groups[i] == old_groups[oi]);
                            assert(group_source[i] == old_group_source[oi]);
                        }
                        if j != position {
                            assert(groups[j] == old_groups[oj]);
                            assert(group_source[j] == old_group_source[oj]);
                        }
                        if j == position {
                            assert(wasted_space(old_groups[oi]@) >= wasted);
                        } else if i == position {
                            if position < old_groups.len() && oj > position {
                                assert(wasted_space(old_groups[position as int]@) > wasted_space(
                                    old_groups[oj]@,
                                ) || wasted_space(old_groups[position as int]@) == wasted_space(
                                    old_groups[oj]@,
                                ));
                            }
                        }
                    }
                }
            } else {
                anomalies.push(bucket);
                proof {
                    anomaly_source = anomaly_source.push(here);
                    assert forall|b: int|
                        0 <= b < here + 1 && (#[trigger] given[b]).members.len() >= 2 implies (
                    exists|i: int| 0 <= i < group_source.len() && #[trigger] group_source[i] == b)
                        || (exists|i: int|
                        0 <= i < anomaly_source.len() && #[trigger] anomaly_source[i] == b) by {
                        if b == here {
                            assert(anomaly_source[anomaly_source.len() - 1] == b);
                        } else if exists|i: int|
                            0 <= i < old_anomaly_source.len() && #[trigger] old_anomaly_source[i]
                                == b {
                            let i = choose|i: int|
                                0 <= i < old_anomaly_source.len()
                                    && #[trigger] old_anomaly_source[i] == b;
                            assert(anomaly_source[i] == b);
                        }
                    }
                }
            }
        }
    }
    let found = Duplicates { groups, anomalies };
    proof {
        let gv = found@.groups;
        let av = found@.anomalies;
        assert forall|i: int| 0 <= i < gv.len() implies is_duplicate_set(all, #[trigger] gv[i]) by {
            assert(gv[i] == found.groups[i]@);
            assert(collects(all, given[group_source[i]]@));
        }
        assert forall|i: int| 0 <= i < av.len() implies is_collision(all, #[trigger] av[i]) by {
            assert(av[i] == found.anomalies[i]@);
            assert(collects(all, given[anomaly_source[i]]@));
        }
        assert forall|i: int, j: int| 0 <= i < j < gv.len() implies goes_before(
            all,
            #[trigger] gv[i],
            #[trigger] gv[j],
        ) by {
            let a = group_source[i];
            let b = group_source[j];
            assert(gv[i] == found.groups[i]@ && gv[j] == found.groups[j]@);
            assert(found.groups[i] == given[a] && found.groups[j] == given[b]);
            if a < b {
                assert(first_seen(all, given[a].hash@) < first_seen(all, given[b].hash@));
            }
        }
        assert forall|i: int, j: int| 0 <= i < j < av.len() implies first_seen(
            all,
            (#[trigger] av[i]).hash,
        ) < first_seen(all, (#[trigger] av[j]).hash) by {
            let a = anomaly_source[i];
            let b = anomaly_source[j];
            assert(av[i] == found.anomalies[i]@ && av[j] == found.anomalies[j]@);
            assert(found.anomalies[i] == given[a] && found.anomalies[j] == given[b]);
            assert(first_seen(all, given[a].hash@) < first_seen(all, given[b].hash@));
        }
        assert forall|hash: Seq<char>| with_hash(all, hash).len() >= 2 implies (exists|i: int|
            0 <= i < gv.len() && (#[trigger] gv[i]).hash == hash) || (exists|i: int|
            0 <= i < av.len() && (#[trigger] av[i]).hash == hash) by {
            let b = choose|b: int| 0 <= b < given.len() && (#[trigger] given[b]).hash@ == hash;
            assert(collects(all, given[b]@));
            assert(given[b].members.len() >= 2);
            if exists|i: int| 0 <= i < group_source.len() && #[trigger] group_source[i] == b {
                let i = choose|i: int| 0 <= i < group_source.len() && #[trigger] group_source[i] == b;
                assert(gv[i] == found.groups[i]@);
                assert(gv[i].hash == hash);
            } else {
                let i = choose|i: int|
                    0 <= i < anomaly_source.len() && #[trigger] anomaly_source[i] == b;
                assert(av[i] == found.anomalies[i]@);
                assert(av[i].hash == hash);
            }
        }
    }
    found
}

/// Two files that stand at different places of the list are members of one
/// group exactly if their fingerprints are equal.
pub proof fn lemma_grouped_iff_same_hash(
    files: Seq<FileView>,
    found: DuplicatesView,
    p: int,
    q: int,
)
    requires
        is_grouping(files, found),
        0 <= p < files.len(),
        0 <= q < files.len(),
        p != q,
    ensures
        files[p].hash == files[q].hash <==> (exists|i: int|
            0 <= i < found.groups.len() && (#[trigger] found.groups[i]).members.contains(files[p])
                && found.groups[i].members.contains(files[q])) || (exists|i: int|
            0 <= i < found.anomalies.len() && (#[trigger] found.anomalies[i]).members.contains(
                files[p],
            ) && found.anomalies[i].members.contains(files[q])),
{
    broadcast use vstd::seq_lib::group_filter_ensures;

    let hash = files[p].hash;
    let same = |f: FileView| f.hash == hash;
    if files[p].hash == files[q].hash {
        lemma_two_with_hash(files, hash, p, q);
        assert(files.filter(same).contains(files[p]));
        assert(files.filter(same).contains(files[q]));
        if exists|i: int| 0 <= i < found.groups.len() && (#[trigger] found.groups[i]).hash == hash {
            let i = choose|i: int|
                0 <= i < found.groups.len() && (#[trigger] found.groups[i]).hash == hash;
            assert(is_duplicate_set(files, found.groups[i]));
        } else {
            let i = choose|i: int|
                0 <= i < found.anomalies.len() && (#[trigger] found.anomalies[i]).hash == hash;
            assert(is_collision(files, found.anomalies[i]));
        }
    }
    if exists|i: int|
        0 <= i < found.groups.len() && (#[trigger] found.groups[i]).members.contains(files[p])
            && found.groups[i].members.contains(files[q]) {
        let i = choose|i: int|
            0 <= i < found.groups.len() && (#[trigger] found.groups[i]).members.contains(files[p])
                && found.groups[i].members.contains(files[q]);
        assert(is_duplicate_set(files, found.groups[i]));
        lemma_member_has_hash(files, found.groups[i].hash, files[p]);
        lemma_member_has_hash(files, found.groups[i].hash, files[q]);
    }
    if exists|i: int|
        0 <= i < found.anomalies.len() && (#[trigger] found.anomalies[i]).members.contains(
            files[p],
        ) && found.anomalies[i].members.contains(files[q]) {
        let i = choose|i: int|
            0 <= i < found.anomalies.len() && (#[trigger] found.anomalies[i]).members.contains(
                files[p],
            ) && found.anomalies[i].members.contains(files[q]);
        assert(is_collision(files, found.anomalies[i]));
        lemma_member_has_hash(files, found.anomalies[i].hash, files[p]);
        lemma_member_has_hash(files, found.anomalies[i].hash, files[q]);
    }
}

/// A fingerprint has a group exactly if two or more files have it.
pub proof fn lemma_group_iff_shared(files: Seq<FileView>, found: DuplicatesView, hash: Seq<char>)
    requires
        is_grouping(files, found),
    ensures
        with_hash(files, hash).len() >= 2 <==> (exists|i: int|
            0 <= i < found.groups.len() && (#[trigger] found.groups[i]).hash == hash) || (exists|
            i: int,
        | 0 <= i < found.anomalies.len() && (#[trigger] found.anomalies[i]).hash == hash),
{
    if exists|i: int| 0 <= i < found.groups.len() && (#[trigger] found.groups[i]).hash == hash {
        let i = choose|i: int|
            0 <= i < found.groups.len() && (#[trigger] found.groups[i]).hash == hash;
        assert(is_duplicate_set(files, found.groups[i]));
    }
    if exists|i: int|
        0 <= i < found.anomalies.len() && (#[trigger] found.anomalies[i]).hash == hash {
        let i = choose|i: int|
            0 <= i < found.anomalies.len() && (#[trigger] found.anomalies[i]).hash == hash;
        assert(is_collision(files, found.anomalies[i]));
    }
}

/// Every member of a duplicate set has the length that the set records.
pub proof fn lemma_members_have_one_length(
    files: Seq<FileView>,
    found: DuplicatesView,
    i: int,
    member: int,
)
    requires
        is_grouping(files, found),
        0 <= i < found.groups.len(),
        0 <= member < found.groups[i].members.len(),
    ensures
        found.groups[i].members[member].size == found.groups[i].size,
        found.groups[i].members[member].hash == found.groups[i].hash,
{
    let group = found.groups[i];
    assert(is_duplicate_set(files, group));
    assert(group.members[member].size == group.members[0].size);
    assert(group.members.contains(group.members[member]));
    lemma_member_has_hash(files, group.hash, group.members[member]);
}

/// Two files with one fingerprint and different lengths are never reported as
/// duplicates: their fingerprint is among the anomalies and not among the
/// duplicate sets.
pub proof fn lemma_collision_is_set_apart(
    files: Seq<FileView>,
    found: DuplicatesView,
    p: int,
    q: int,
)
    requires
        is_grouping(files, found),
        0 <= p < files.len(),
        0 <= q < files.len(),
        files[p].hash == files[q].hash,
        files[p].size != files[q].size,
    ensures
        exists|i: int|
            0 <= i < found.anomalies.len() && (#[trigger] found.anomalies[i]).hash
                == files[p].hash,
        forall|i: int|
            0 <= i < found.groups.len() ==> (#[trigger] found.groups[i]).hash != files[p].hash,
{
    broadcast use vstd::seq_lib::group_filter_ensures;

    let hash = files[p].hash;
    let same = |f: FileView| f.hash == hash;
    let members = with_hash(files, hash);
    lemma_two_with_hash(files, hash, p, q);
    assert(same(files[p]) && same(files[q]));
    assert(files.filter(same).contains(files[p]));
    assert(files.filter(same).contains(files[q]));
    let a = choose|a: int| 0 <= a < members.len() && members[a] == files[p];
    let b = choose|b: int| 0 <= b < members.len() && members[b] == files[q];
    assert(members[a].size != members[b].size);
    assert(!same_length(members));
    assert forall|i: int| 0 <= i < found.groups.len() implies (#[trigger] found.groups[i]).hash
        != hash by {
        assert(is_duplicate_set(files, found.groups[i]));
    }
}

/// The duplicate sets come in the order of the space they waste, and none
/// wastes more than one before it.
pub proof fn lemma_wasted_space_descends(files: Seq<FileView>, found: DuplicatesView, i: int, j: int)
    requires
        is_grouping(files, found),
        0 <= i <= j < found.groups.len(),
    ensures
        wasted_space(found.groups[i]) >= wasted_space(found.groups[j]),
{
    if i < j {
        assert(goes_before(files, found.groups[i], found.groups[j]));
    }
}

proof fn lemma_member_has_hash(files: Seq<FileView>, hash: Seq<char>, file: FileView)
    requires
        with_hash(files, hash).contains(file),
    ensures
        file.hash == hash,
        files.contains(file),
{
    broadcast use vstd::seq_lib::group_filter_ensures;

    let same = |f: FileView| f.hash == hash;
    let members = files.filter(same);
    let i = choose|i: int| 0 <= i < members.len() && members[i] == file;
    assert(same(members[i]));
    files.lemma_filter_contains_rev(same, file);
}

proof fn lemma_two_with_hash(files: Seq<FileView>, hash: Seq<char>, p: int, q: int)
    requires
        0 <= p < files.len(),
        0 <= q < files.len(),
        p != q,
        files[p].hash == hash,
        files[q].hash == hash,
    ensures
        with_hash(files, hash).len() >= 2,
    decreases files.len(),
{
    let rest = files.drop_last();
    let last = files.last();
    assert(files =~= rest.push(last));
    lemma_with_hash_push(rest, last, hash);
    if p == files.len() - 1 {
        lemma_with_hash_some(rest, hash, q);
    } else if q == files.len() - 1 {
        lemma_with_hash_some(rest, hash, p);
    } else {
        lemma_two_with_hash(rest, hash, p, q);
    }
}

proof fn lemma_with_hash_some(files: Seq<FileView>, hash: Seq<char>, p: int)
    requires
        0 <= p < files.len(),
        files[p].hash == hash,
    ensures
        with_hash(files, hash).len() >= 1,
{
    broadcast use vstd::seq_lib::group_filter_ensures;

    let same = |f: FileView| f.hash == hash;
    assert(same(files[p]));
    assert(files.filter(same).contains(files[p]));
}

proof fn lemma_with_hash_count(files: Seq<FileView>, hash: Seq<char>, file: FileView)
    ensures
        with_hash(files, hash).to_multiset().count(file) == if file.hash == hash {
            files.to_multiset().count(file)
        } else {
            0
        },
    decreases files.len(),
{
    broadcast use {
        vstd::seq_lib::group_to_multiset_ensures,
        vstd::multiset::group_multiset_properties,
    };

    if files.len() == 0 {
        lemma_with_hash_absent(files, hash);
        assert(with_hash(files, hash) =~= Seq::<FileView>::empty());
        assert(files =~= Seq::<FileView>::empty());
        assert(Seq::<FileView>::empty().to_multiset().len() == 0);
    } else {
        let rest = files.drop_last();
        let last = files.last();
        assert(files =~= rest.push(last));
        lemma_with_hash_push(rest, last, hash);
        lemma_with_hash_count(rest, hash, file);
        assert(rest.push(last).to_multiset() =~= rest.to_multiset().insert(last));
        if last.hash == hash {
            assert(with_hash(rest, hash).push(last).to_multiset() =~= with_hash(
                rest,
                hash,
            ).to_multiset().insert(last));
        }
    }
}

/// The files with a given fingerprint are the same, but for their order, in
/// two lists that hold the same files.
pub proof fn lemma_members_ignore_order(
    first: Seq<FileView>,
    second: Seq<FileView>,
    hash: Seq<char>,
)
    requires
        first.to_multiset() == second.to_multiset(),
    ensures
        with_hash(first, hash).to_multiset() == with_hash(second, hash).to_multiset(),
{
    assert forall|file: FileView|
        with_hash(first, hash).to_multiset().count(file) == with_hash(
            second,
            hash,
        ).to_multiset().count(file) by {
        lemma_with_hash_count(first, hash, file);
        lemma_with_hash_count(second, hash, file);
    }
    assert(with_hash(first, hash).to_multiset() =~= with_hash(second, hash).to_multiset());
}

/// Two groups are one set of files: the same fingerprint and the same
/// members, in whatever order.
pub open spec fn same_files(first: GroupView, second: GroupView) -> bool {
    first.hash == second.hash && first.members.to_multiset() == second.members.to_multiset()
}

/// `groups` has a group with the files of `group`.
pub open spec fn has_files_of(groups: Seq<GroupView>, group: GroupView) -> bool {
    exists|j: int| 0 <= j < groups.len() && same_files(group, #[trigger] groups[j])
}

/// `groups` has a group with the files of `group` that records the same
/// length and wastes the same space.
pub open spec fn has_set_of(groups: Seq<GroupView>, group: GroupView) -> bool {
    exists|j: int|
        0 <= j < groups.len() && same_files(group, #[trigger] groups[j]) && group.size
            == groups[j].size && wasted_space(group) == wasted_space(groups[j])
}

/// The grouping does not depend on the order in which the files come: of two
/// lists that hold the same files, each duplicate set of the first is one of
/// the second, with the same length of its members and the same wasted
/// space, and each anomaly of the first is one of the second.
pub proof fn lemma_grouping_ignores_order(
    first: Seq<FileView>,
    second: Seq<FileView>,
    found_first: DuplicatesView,
    found_second: DuplicatesView,
)
    requires
        first.to_multiset() == second.to_multiset(),
        is_grouping(first, found_first),
        is_grouping(second, found_second),
    ensures
        forall|i: int|
            0 <= i < found_first.groups.len() ==> has_set_of(
                found_second.groups,
                #[trigger] found_first.groups[i],
            ),
        forall|i: int|
            0 <= i < found_first.anomalies.len() ==> has_files_of(
                found_second.anomalies,
                #[trigger] found_first.anomalies[i],
            ),
{
    broadcast use vstd::seq_lib::group_to_multiset_ensures;

    assert forall|i: int| 0 <= i < found_first.groups.len() implies has_set_of(
        found_second.groups,
        #[trigger] found_first.groups[i],
    ) by {
        let group = found_first.groups[i];
        assert(is_duplicate_set(first, group));
        let other = with_hash(second, group.hash);
        lemma_members_ignore_order(first, second, group.hash);
        vstd::seq_lib::to_multiset_len(other);
        vstd::seq_lib::to_multiset_len(group.members);
        assert(other.len() == group.members.len());
        lemma_same_length_ignores_order(group.members, other);
        if exists|j: int|
            0 <= j < found_second.anomalies.len() && (#[trigger] found_second.anomalies[j]).hash
                == group.hash {
            let j = choose|j: int|
                0 <= j < found_second.anomalies.len() && (#[trigger] found_second.anomalies[j]).hash
                    == group.hash;
            assert(is_collision(second, found_second.anomalies[j]));
        }
        let j = choose|j: int|
            0 <= j < found_second.groups.len() && (#[trigger] found_second.groups[j]).hash
                == group.hash;
        assert(is_duplicate_set(second, found_second.groups[j]));
        assert(other.to_multiset().count(other[0]) > 0);
        assert(group.members.contains(other[0]));
        let k = choose|k: int| 0 <= k < group.members.len() && group.members[k] == other[0];
        assert(group.members[k].size == group.members[0].size);
        assert(same_files(group, found_second.groups[j]));
    }
    assert forall|i: int| 0 <= i < found_first.anomalies.len() implies has_files_of(
        found_second.anomalies,
        #[trigger] found_first.anomalies[i],
    ) by {
        let group = found_first.anomalies[i];
        assert(is_collision(first, group));
        let other = with_hash(second, group.hash);
        lemma_members_ignore_order(first, second, group.hash);
        vstd::seq_lib::to_multiset_len(other);
        vstd::seq_lib::to_multiset_len(group.members);
        assert(other.len() == group.members.len());
        if same_length(other) {
            lemma_same_length_ignores_order(other, group.members);
        }
        if exists|j: int|
            0 <= j < found_second.groups.len() && (#[trigger] found_second.groups[j]).hash
                == group.hash {
            let j = choose|j: int|
                0 <= j < found_second.groups.len() && (#[trigger] found_second.groups[j]).hash
                    == group.hash;
            assert(is_duplicate_set(second, found_second.groups[j]));
        }
        let j = choose|j: int|
            0 <= j < found_second.anomalies.len() && (#[trigger] found_second.anomalies[j]).hash
                == group.hash;
        assert(is_collision(second, found_second.anomalies[j]));
        assert(same_files(group, found_second.anomalies[j]));
    }
}

proof fn lemma_same_length_ignores_order(first: Seq<FileView>, second: Seq<FileView>)
    requires
        first.to_multiset() == second.to_multiset(),
        same_length(first),
    ensures
        same_length(second),
{
    broadcast use vstd::seq_lib::group_to_multiset_ensures;

    assert forall|i: int, j: int| 0 <= i < second.len() && 0 <= j < second.len() implies second[i].size
        == second[j].size by {
        assert(second.contains(second[i]));
        assert(second.contains(second[j]));
        assert(first.to_multiset().count(second[i]) > 0);
        assert(first.to_multiset().count(second[j]) > 0);
        assert(first.contains(second[i]));
        assert(first.contains(second[j]));
        let a = choose|a: int| 0 <= a < first.len() && first[a] == second[i];
        let b = choose|b: int| 0 <= b < first.len() && first[b] == second[j];
        assert(first[a].size == first[b].size);
    }
}

/// Every element of `first` is one of `second`.
spec fn all_among<A>(first: Seq<A>, second: Seq<A>) -> bool {
    forall|i: int| 0 <= i < first.len() ==> second.contains(#[trigger] first[i])
}

/// `items` is in the order of `before`.
spec fn in_order<A>(items: Seq<A>, before: spec_fn(A, A) -> bool) -> bool {
    forall|i: int, j: int|
        0 <= i < j < items.len() ==> before(#[trigger] items[i], #[trigger] items[j])
}

proof fn lemma_ordered_prefix<A>(
    first: Seq<A>,
    second: Seq<A>,
    before: spec_fn(A, A) -> bool,
    upto: int,
)
    requires
        in_order(first, before),
        in_order(second, before),
        forall|a: A, b: A| !(#[trigger] before(a, b) && before(b, a)),
        all_among(first, second),
        all_among(second, first),
        0 <= upto <= first.len(),
    ensures
        upto <= second.len(),
        forall|i: int| 0 <= i < upto ==> first[i] == second[i],
    decreases upto,
{
    if upto > 0 {
        let k = upto - 1;
        lemma_ordered_prefix(first, second, before, k);
        let x = first[k];
        assert(second.contains(x));
        let j = choose|j: int| 0 <= j < second.len() && second[j] == x;
        if j < k {
            assert(before(first[j], first[k]));
        } else if j > k {
            let y = second[k];
            assert(first.contains(y));
            let m = choose|m: int| 0 <= m < first.len() && first[m] == y;
            assert(before(second[k], second[j]));
            if m < k {
                assert(before(second[m], second[k]));
            } else if m > k {
                assert(before(first[k], first[m]));
            }
        }
    }
}

proof fn lemma_ordered_same<A>(first: Seq<A>, second: Seq<A>, before: spec_fn(A, A) -> bool)
    requires
        in_order(first, before),
        in_order(second, before),
        forall|a: A, b: A| !(#[trigger] before(a, b) && before(b, a)),
        all_among(first, second),
        all_among(second, first),
    ensures
        first == second,
{
    lemma_ordered_prefix(first, second, before, first.len() as int);
    lemma_ordered_prefix(second, first, before, second.len() as int);
    assert(first =~= second);
}

proof fn lemma_groups_among(files: Seq<FileView>, first: DuplicatesView, second: DuplicatesView)
    requires
        is_grouping(files, first),
        is_grouping(files, second),
    ensures
        all_among(first.groups, second.groups),
        all_among(first.anomalies, second.anomalies),
{
    assert forall|i: int| 0 <= i < first.groups.len() implies second.groups.contains(
        #[trigger] first.groups[i],
    ) by {
        let group = first.groups[i];
        assert(is_duplicate_set(files, group));
        if exists|j: int|
            0 <= j < second.anomalies.len() && (#[trigger] second.anomalies[j]).hash == group.hash {
            let j = choose|j: int|
                0 <= j < second.anomalies.len() && (#[trigger] second.anomalies[j]).hash
                    == group.hash;
            assert(is_collision(files, second.anomalies[j]));
        }
        let j = choose|j: int|
            0 <= j < second.groups.len() && (#[trigger] second.groups[j]).hash == group.hash;
        assert(is_duplicate_set(files, second.groups[j]));
        assert(second.groups[j] == group);
    }
    assert forall|i: int| 0 <= i < first.anomalies.len() implies second.anomalies.contains(
        #[trigger] first.anomalies[i],
    ) by {
        let group = first.anomalies[i];
        assert(is_collision(files, group));
        if exists|j: int|
            0 <= j < second.groups.len() && (#[trigger] second.groups[j]).hash == group.hash {
            let j = choose|j: int|
                0 <= j < second.groups.len() && (#[trigger] second.groups[j]).hash == group.hash;
            assert(is_duplicate_set(files, second.groups[j]));
        }
        let j = choose|j: int|
            0 <= j < second.anomalies.len() && (#[trigger] second.anomalies[j]).hash
                == group.hash;
        assert(is_collision(files, second.anomalies[j]));
        assert(second.anomalies[j] == group);
    }
}

/// A list of files has one grouping only: which groups there are, what they
/// hold and in which order they come is settled by the files.
pub proof fn lemma_grouping_is_unique(
    files: Seq<FileView>,
    first: DuplicatesView,
    second: DuplicatesView,
)
    requires
        is_grouping(files, first),
        is_grouping(files, second),
    ensures
        first.groups == second.groups,
        first.anomalies == second.anomalies,
{
    lemma_groups_among(files, first, second);
    lemma_groups_among(files, second, first);
    let by_waste = |a: GroupView, b: GroupView| goes_before(files, a, b);
    assert(in_order(first.groups, by_waste));
    assert(in_order(second.groups, by_waste));
    lemma_ordered_same(first.groups, second.groups, by_waste);
    let by_place = |a: GroupView, b: GroupView|
        first_seen(files, a.hash) < first_seen(files, b.hash);
    assert(in_order(first.anomalies, by_place));
    assert(in_order(second.anomalies, by_place));
    lemma_ordered_same(first.anomalies, second.anomalies, by_place);
}

} // verus!
