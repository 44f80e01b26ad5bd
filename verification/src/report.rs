//! The report of a scan, as lines of text.

use crate::cache::{path_without_prefix, strip_base};
use crate::duplicates::{wasted_space, DuplicateGroup, Duplicates, DuplicatesView, GroupView};
use crate::text::{decimal, number_text, push_decimal};
use crate::{FileInfo, FileView};
use vstd::prelude::*;
use vstd::string::StringExecFns;

verus! {

/// A number of bytes as `indicatif::HumanBytes` writes it, in binary units.
pub uninterp spec fn human_bytes_text(bytes: u64) -> Seq<char>;

/// `indicatif::HumanBytes` writes a number of bytes in the largest binary unit
/// that leaves at least one, with two decimals from KiB on.
#[verifier::external_body]
fn human_bytes(bytes: u64) -> (text: String)
    ensures
        text@ == human_bytes_text(bytes),
{
    format!("{}", indicatif::HumanBytes(bytes))
}

/// `indicatif::HumanCount` writes a count in decimal, with a comma after
/// every digit that has a multiple of three digits to its right.
#[verifier::external_body]
fn human_count(count: u64) -> (text: String)
    ensures
        text@ == number_text(count as nat),
{
    format!("{}", indicatif::HumanCount(count))
}

/// `n`, or the largest `u64` where `n` is larger.
pub open spec fn capped(n: int) -> u64 {
    if n > u64::MAX {
        u64::MAX
    } else if n < 0 {
        0
    } else {
        n as u64
    }
}

/// The files that could go: all members of the groups but one of each.
pub open spec fn extra_files(groups: Seq<GroupView>) -> int
    decreases groups.len(),
{
    if groups.len() == 0 {
        0
    } else {
        let last = groups.last();
        extra_files(groups.drop_last()) + if last.members.len() == 0 {
            0
        } else {
            last.members.len() - 1
        }
    }
}

/// The space that the groups waste together.
pub open spec fn wasted_total(groups: Seq<GroupView>) -> int
    decreases groups.len(),
{
    if groups.len() == 0 {
        0
    } else {
        wasted_total(groups.drop_last()) + wasted_space(groups.last())
    }
}

/// The totals of a report. They stop at the largest value they can hold.
#[derive(Debug, Clone, Copy)]
pub struct Summary {
    /// Files that could go.
    pub duplicate_files: u64,
    /// Bytes that they take up.
    pub wasted_bytes: u64,
}

proof fn lemma_totals_not_negative(groups: Seq<GroupView>)
    ensures
        extra_files(groups) >= 0,
        wasted_total(groups) >= 0,
    decreases groups.len(),
{
    if groups.len() > 0 {
        lemma_totals_not_negative(groups.drop_last());
        let last = groups.last();
        if last.members.len() > 0 {
            assert((last.members.len() - 1) * last.size >= 0) by (nonlinear_arith)
                requires
                    last.members.len() - 1 >= 0,
                    last.size >= 0,
            ;
        }
    }
}

/// Adds up what the duplicate sets hold.
pub fn summarize(found: &Duplicates) -> (summary: Summary)
    ensures
        summary.duplicate_files == capped(extra_files(found@.groups)),
        summary.wasted_bytes == capped(wasted_total(found@.groups)),
{
    let mut duplicate_files: u64 = 0;
    let mut wasted_bytes: u64 = 0;
    let ghost groups = found@.groups;
    let mut i: usize = 0;
    while i < found.groups.len()
        invariant
            i <= found.groups.len(),
            groups == found@.groups,
            groups.len() == found.groups.len(),
            duplicate_files == capped(extra_files(groups.take(i as int))),
            wasted_bytes == capped(wasted_total(groups.take(i as int))),
        decreases found.groups.len() - i,
    {
        proof {
            assert(groups.take(i + 1).drop_last() =~= groups.take(i as int));
            assert(groups.take(i + 1).last() == found.groups[i as int]@);
            lemma_totals_not_negative(groups.take(i as int));
            lemma_totals_not_negative(groups.take(i + 1));
        }
        let group = &found.groups[i];
        let extra = if group.members.len() == 0 {
            0
        } else {
            (group.members.len() - 1) as u64
        };
        duplicate_files = duplicate_files.saturating_add(extra);
        let wasted = group.wasted_space();
        let wasted = if wasted > u64::MAX as u128 {
            u64::MAX
        } else {
            wasted as u64
        };
        wasted_bytes = wasted_bytes.saturating_add(wasted);
        i += 1;
    }
    assert(groups.take(i as int) =~= groups);
    Summary { duplicate_files, wasted_bytes }
}

/// A path as the report shows it: relative to `base` where it lies under
/// `base`, whole where it does not.
pub open spec fn shown_path(path: Seq<char>, base: Seq<char>) -> Seq<char> {
    match path_without_prefix(path, base) {
        Some(rest) => rest,
        None => path,
    }
}

/// The line that says that nothing was found.
pub open spec fn nothing_found() -> Seq<char> {
    "No duplicate files found!"@
}

/// The line that sums up the duplicate sets.
pub open spec fn headline(groups: Seq<GroupView>) -> Seq<char> {
    "Found "@ + number_text(capped(extra_files(groups)) as nat) + " duplicate files wasting "@
        + human_bytes_text(capped(wasted_total(groups))) + " of space"@
}

/// The line that opens a duplicate set.
pub open spec fn group_heading(group: GroupView) -> Seq<char> {
    "Duplicate group ("@ + human_bytes_text(group.size) + ", "@ + decimal(group.members.len())
        + " files):"@
}

/// The line that opens an anomaly.
pub open spec fn anomaly_heading(group: GroupView) -> Seq<char> {
    "Fingerprint collision ("@ + group.hash + ", "@ + decimal(group.members.len())
        + " files of different lengths):"@
}

/// The line for one member of a group.
pub open spec fn member_line(file: FileView, base: Seq<char>) -> Seq<char> {
    "  "@ + shown_path(file.path, base)
}

/// The lines for the members of a group.
pub open spec fn member_lines(members: Seq<FileView>, base: Seq<char>) -> Seq<Seq<char>> {
    members.map_values(|f: FileView| member_line(f, base))
}

/// The lines for the duplicate sets: for each its heading and its members.
pub open spec fn group_lines(groups: Seq<GroupView>, base: Seq<char>) -> Seq<Seq<char>>
    decreases groups.len(),
{
    if groups.len() == 0 {
        Seq::empty()
    } else {
        let last = groups.last();
        group_lines(groups.drop_last(), base).push(group_heading(last)) + member_lines(
            last.members,
            base,
        )
    }
}

/// The lines for the anomalies: for each its heading and its members.
pub open spec fn anomaly_lines(groups: Seq<GroupView>, base: Seq<char>) -> Seq<Seq<char>>
    decreases groups.len(),
{
    if groups.len() == 0 {
        Seq::empty()
    } else {
        let last = groups.last();
        anomaly_lines(groups.drop_last(), base).push(anomaly_heading(last)) + member_lines(
            last.members,
            base,
        )
    }
}

/// The whole report: the line that nothing was found, or the summary and the
/// duplicate sets in their order; then the anomalies, if there are any.
pub open spec fn report(found: DuplicatesView, base: Seq<char>) -> Seq<Seq<char>> {
    if found.groups.len() == 0 {
        seq![nothing_found()] + anomaly_lines(found.anomalies, base)
    } else {
        seq![headline(found.groups)] + group_lines(found.groups, base) + anomaly_lines(
            found.anomalies,
            base,
        )
    }
}

/// The text of each line.
pub open spec fn line_texts(lines: Seq<String>) -> Seq<Seq<char>> {
    lines.map_values(|line: String| line@)
}

/// Computes `shown_path`.
pub fn display_path(path: &str, base_path: &str) -> (shown: String)
    ensures
        shown@ == shown_path(path@, base_path@),
{
    match strip_base(path, base_path) {
        Some(rest) => rest,
        None => path.to_owned(),
    }
}

fn push_member_lines(lines: &mut Vec<String>, members: &Vec<FileInfo>, base_path: &str)
    ensures
        line_texts(final(lines)@) == line_texts(old(lines)@) + member_lines(
            crate::file_views(members@),
            base_path@,
        ),
{
    let ghost views = crate::file_views(members@);
    let mut i: usize = 0;
    while i < members.len()
        invariant
            i <= members.len(),
            views == crate::file_views(members@),
            line_texts(lines@) == line_texts(old(lines)@) + member_lines(
                views.take(i as int),
                base_path@,
            ),
        decreases members.len() - i,
    {
        let mut line = String::new();
        line.append("  ");
        let shown = display_path(members[i].path.as_str(), base_path);
        line.append(shown.as_str());
        let ghost before = lines@;
        lines.push(line);
        proof {
            assert(line@ =~= member_line(views[i as int], base_path@));
            assert(line_texts(lines@) =~= line_texts(before).push(line@));
            assert(member_lines(views.take(i + 1), base_path@) =~= member_lines(
                views.take(i as int),
                base_path@,
            ).push(member_line(views[i as int], base_path@)));
        }
        i += 1;
    }
    assert(views.take(i as int) =~= views);
}

fn heading_of(group: &DuplicateGroup) -> (line: String)
    ensures
        line@ == group_heading(group@),
{
    let mut line = String::new();
    line.append("Duplicate group (");
    line.append(human_bytes(group.size).as_str());
    line.append(", ");
    push_decimal(&mut line, group.members.len() as u64);
    line.append(" files):");
    assert(line@ =~= group_heading(group@));
    line
}

fn anomaly_heading_of(group: &DuplicateGroup) -> (line: String)
    ensures
        line@ == anomaly_heading(group@),
{
    let mut line = String::new();
    line.append("Fingerprint collision (");
    line.append(group.hash.as_str());
    line.append(", ");
    push_decimal(&mut line, group.members.len() as u64);
    line.append(" files of different lengths):");
    assert(line@ =~= anomaly_heading(group@));
    line
}

/// Writes the report of a scan. Paths under `base_path` are shown relative to
/// it.
pub fn print_results(found: &Duplicates, base_path: &str) -> (lines: Vec<String>)
    ensures
        line_texts(lines@) == report(found@, base_path@),
{
    let mut lines: Vec<String> = Vec::new();
    let ghost groups = found@.groups;
    let ghost anomalies = found@.anomalies;
    if found.groups.len() == 0 {
        lines.push("No duplicate files found!".to_owned());
        assert(line_texts(lines@) =~= seq![nothing_found()]);
    } else {
        let summary = summarize(found);
        let mut line = String::new();
        line.append("Found ");
        line.append(human_count(summary.duplicate_files).as_str());
        line.append(" duplicate files wasting ");
        line.append(human_bytes(summary.wasted_bytes).as_str());
        line.append(" of space");
        assert(line@ =~= headline(groups));
        lines.push(line);
        assert(line_texts(lines@) =~= seq![headline(groups)]);
        let ghost start = line_texts(lines@);
        let mut i: usize = 0;
        while i < found.groups.len()
            invariant
                i <= found.groups.len(),
                groups == found@.groups,
                groups.len() == found.groups.len(),
                line_texts(lines@) == start + group_lines(groups.take(i as int), base_path@),
            decreases found.groups.len() - i,
        {
            proof {
                assert(groups.take(i + 1).drop_last() =~= groups.take(i as int));
                assert(groups.take(i + 1).last() == found.groups[i as int]@);
            }
            let ghost before = lines@;
            let heading = heading_of(&found.groups[i]);
            lines.push(heading);
            assert(line_texts(lines@) =~= line_texts(before).push(heading@));
            push_member_lines(&mut lines, &found.groups[i].members, base_path);
            assert(line_texts(lines@) =~= start + group_lines(groups.take(i + 1), base_path@));
            i += 1;
        }
        assert(groups.take(i as int) =~= groups);
    }
    let ghost start = line_texts(lines@);
    let mut i: usize = 0;
    while i < found.anomalies.len()
        invariant
            i <= found.anomalies.len(),
            anomalies == found@.anomalies,
            anomalies.len() == found.anomalies.len(),
            line_texts(lines@) == start + anomaly_lines(anomalies.take(i as int), base_path@),
        decreases found.anomalies.len() - i,
    {
        proof {
            assert(anomalies.take(i + 1).drop_last() =~= anomalies.take(i as int));
            assert(anomalies.take(i + 1).last() == found.anomalies[i as int]@);
        }
        let ghost before = lines@;
        let heading = anomaly_heading_of(&found.anomalies[i]);
        lines.push(heading);
        assert(line_texts(lines@) =~= line_texts(before).push(heading@));
        push_member_lines(&mut lines, &found.anomalies[i].members, base_path);
        assert(line_texts(lines@) =~= start + anomaly_lines(anomalies.take(i + 1), base_path@));
        i += 1;
    }
    assert(anomalies.take(i as int) =~= anomalies);
    lines
}

} // verus!
