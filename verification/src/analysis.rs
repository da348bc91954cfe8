//! One run over the histories: every parameter is classified and handed
//! to the reporter in the order of the names, and the changes are counted.

use crate::history::{
    all_present, as_map, histories, lemma_lookup, lemma_sorted_entries_unique, strictly_sorted,
    EntryView, Parameters,
};
use crate::parameters::{analyze_changes, classify, Change, ChangeType, ChangeView};
use crate::reporter::{
    advanced, format_named, fresh, lemma_unmodified_is_silent, rendered, ChangeReporter,
    ReporterState,
};
use crate::text::{decimal, lex_lt, line_views, push_decimal};
use vstd::prelude::*;
use vstd::string::*;

verus! {

/// How many parameters a run has found of each kind, and how many in all.
#[derive(Debug, Clone, Copy, PartialEq, Eq)]
pub struct Summary {
    pub modified: u64,
    pub added: u64,
    pub removed: u64,
    pub unmodified: u64,
    pub analyzed: usize,
}

/// What a run gives: the lines that the reporter printed, and the counts.
pub struct Report {
    pub lines: Vec<String>,
    pub summary: Summary,
}

/// The change that an entry shows.
pub open spec fn change_of(entry: EntryView) -> ChangeView {
    ChangeView {
        change_type: classify(entry.history),
        parameter_name: entry.name,
        old_value: entry.history.old_value,
        new_value: entry.history.new_value,
    }
}

/// The state of a reporter that started in `state` and was given the
/// changes of `entries` in their order.
pub open spec fn state_after(entries: Seq<EntryView>, state: ReporterState) -> ReporterState
    decreases entries.len(),
{
    if entries.len() == 0 {
        state
    } else {
        advanced(state_after(entries.drop_last(), state), change_of(entries.last()))
    }
}

/// The lines that a reporter prints that starts in `state` and is given
/// the changes of `entries` in their order.
pub open spec fn report_lines(entries: Seq<EntryView>, state: ReporterState) -> Seq<Seq<char>>
    decreases entries.len(),
{
    if entries.len() == 0 {
        Seq::empty()
    } else {
        report_lines(entries.drop_last(), state) + rendered(
            state_after(entries.drop_last(), state),
            change_of(entries.last()),
        )
    }
}

/// The number of entries whose change is of the kind `kind`.
pub open spec fn count_of(entries: Seq<EntryView>, kind: ChangeType) -> nat
    decreases entries.len(),
{
    if entries.len() == 0 {
        0
    } else if classify(entries.last().history) == kind {
        count_of(entries.drop_last(), kind) + 1
    } else {
        count_of(entries.drop_last(), kind)
    }
}

/// The line that frames the summary.
pub open spec fn rule() -> Seq<char> {
    "--------------------------------------------------------------------------------"@
}

/// The block that sums a run up.
pub open spec fn summary_lines(summary: Summary) -> Seq<Seq<char>> {
    seq![
        rule(),
        "SUMMARY"@,
        rule(),
        "Parameters:"@,
        "  - Modified:"@ + decimal(summary.modified as nat),
        "  - Added:"@ + decimal(summary.added as nat),
        "  - Removed:"@ + decimal(summary.removed as nat),
        "  - Unmodified:"@ + decimal(summary.unmodified as nat),
        "  - Analyzed:"@ + decimal(summary.analyzed as nat),
        rule(),
    ]
}

/// Whether an entry shows a change.
pub open spec fn has_changed(entry: EntryView) -> bool {
    !(classify(entry.history) is Unmodified)
}

/// The parameters that have not changed may be left out: the reporter
/// prints the same lines and ends in the same state without them.
pub proof fn lemma_unmodified_entries_drop_out(entries: Seq<EntryView>, state: ReporterState)
    ensures
        report_lines(entries.filter(|entry: EntryView| has_changed(entry)), state) == report_lines(
            entries,
            state,
        ),
        state_after(entries.filter(|entry: EntryView| has_changed(entry)), state) == state_after(
            entries,
            state,
        ),
    decreases entries.len(),
{
    reveal(Seq::filter);
    let changed = |entry: EntryView| has_changed(entry);
    if entries.len() > 0 {
        let front = entries.drop_last();
        let last = entries.last();
        lemma_unmodified_entries_drop_out(front, state);
        if has_changed(last) {
            assert(entries.filter(changed).drop_last() =~= front.filter(changed));
        } else {
            lemma_unmodified_is_silent(state_after(front, state), change_of(last));
            assert(report_lines(front, state) + Seq::<Seq<char>>::empty() =~= report_lines(
                front,
                state,
            ));
        }
    }
}

/// The lines come out in the order of the names: what the first `i`
/// entries give stands before what the later ones give, and each name is
/// smaller than every name that follows it.
pub proof fn lemma_lines_in_key_order(
    entries: Seq<EntryView>,
    state: ReporterState,
    i: int,
    j: int,
)
    requires
        strictly_sorted(entries),
        0 <= i <= j <= entries.len(),
    ensures
        report_lines(entries.take(i), state).is_prefix_of(report_lines(entries.take(j), state)),
        i < j < entries.len() ==> lex_lt(entries[i].name, entries[j].name),
    decreases j - i,
{
    if i < j {
        lemma_lines_in_key_order(entries, state, i, j - 1);
        assert(entries.take(j).drop_last() =~= entries.take(j - 1));
        let shorter = report_lines(entries.take(j - 1), state);
        let longer = report_lines(entries.take(j), state);
        let first = report_lines(entries.take(i), state);
        assert(first =~= longer.subrange(0, first.len() as int)) by {
            assert(first =~= shorter.subrange(0, first.len() as int));
        }
    } else {
        let first = report_lines(entries.take(i), state);
        assert(first =~= first.subrange(0, first.len() as int));
    }
}

/// Two runs over the same two files in the same format print the same
/// lines and count the same changes, in whatever way each has come by its
/// histories.
pub proof fn lemma_same_files_same_report(
    first: Seq<Seq<char>>,
    second: Seq<Seq<char>>,
    format: Seq<char>,
    one: Seq<EntryView>,
    other: Seq<EntryView>,
)
    requires
        strictly_sorted(one),
        strictly_sorted(other),
        as_map(one) == histories(first, second),
        as_map(other) == histories(first, second),
    ensures
        report_lines(one, fresh(format_named(format))) == report_lines(
            other,
            fresh(format_named(format)),
        ),
        forall|kind: ChangeType| count_of(one, kind) == count_of(other, kind),
        one.len() == other.len(),
{
    lemma_sorted_entries_unique(one, other);
}

/// Every entry is counted once: the four counts add up to the number of
/// the entries.
pub proof fn lemma_counts_add_up(entries: Seq<EntryView>)
    ensures
        count_of(entries, ChangeType::Modified) + count_of(entries, ChangeType::Added) + count_of(
            entries,
            ChangeType::Removed,
        ) + count_of(entries, ChangeType::Unmodified) == entries.len(),
    decreases entries.len(),
{
    if entries.len() > 0 {
        lemma_counts_add_up(entries.drop_last());
    }
}

/// No kind is counted more often than there are entries, and a reporter
/// prints at most one row for each.
proof fn lemma_bounds(entries: Seq<EntryView>, state: ReporterState, kind: ChangeType)
    ensures
        count_of(entries, kind) <= entries.len(),
        state_after(entries, state).counter <= state.counter + entries.len(),
    decreases entries.len(),
{
    if entries.len() > 0 {
        lemma_bounds(entries.drop_last(), state, kind);
    }
}

impl Summary {
    /// The block that sums the run up, line by line.
    pub fn lines(&self) -> (lines: Vec<String>)
        ensures
            line_views(lines@) == summary_lines(*self),
    {
        let rule = "--------------------------------------------------------------------------------";
        let mut modified = "  - Modified:".to_owned();
        push_decimal(&mut modified, self.modified);
        let mut added = "  - Added:".to_owned();
        push_decimal(&mut added, self.added);
        let mut removed = "  - Removed:".to_owned();
        push_decimal(&mut removed, self.removed);
        let mut unmodified = "  - Unmodified:".to_owned();
        push_decimal(&mut unmodified, self.unmodified);
        let mut analyzed = "  - Analyzed:".to_owned();
        push_decimal(&mut analyzed, self.analyzed as u64);
        let mut lines: Vec<String> = Vec::new();
        lines.push(rule.to_owned());
        lines.push("SUMMARY".to_owned());
        lines.push(rule.to_owned());
        lines.push("Parameters:".to_owned());
        lines.push(modified);
        lines.push(added);
        lines.push(removed);
        lines.push(unmodified);
        lines.push(analyzed);
        lines.push(rule.to_owned());
        assert(line_views(lines@) =~= summary_lines(*self));
        lines
    }
}

/// Classifies every parameter, hands each change to the reporter in the
/// lexicographic order of the names, and counts the changes of each kind.
pub fn analyze<R: ChangeReporter>(parameters: &Parameters, reporter: R) -> (report: Report)
    requires
        parameters.classifiable(),
        reporter.state().counter + parameters.entries().len() <= u64::MAX,
    ensures
        strictly_sorted(parameters.entries()),
        line_views(report.lines@) == report_lines(parameters.entries(), reporter.state()),
        report.summary.modified == count_of(parameters.entries(), ChangeType::Modified),
        report.summary.added == count_of(parameters.entries(), ChangeType::Added),
        report.summary.removed == count_of(parameters.entries(), ChangeType::Removed),
        report.summary.unmodified == count_of(parameters.entries(), ChangeType::Unmodified),
        report.summary.analyzed == parameters.entries().len(),
{
    let mut reporter = reporter;
    let ghost start = reporter.state();
    let ghost entries = parameters.entries();
    let names = parameters.keys();
    let mut lines: Vec<String> = Vec::new();
    let mut modified: u64 = 0;
    let mut added: u64 = 0;
    let mut removed: u64 = 0;
    let mut unmodified: u64 = 0;
    let mut i: usize = 0;
    assert(line_views(lines@) =~= Seq::<Seq<char>>::empty());
    while i < names.len()
        invariant
            i <= names.len() == entries.len(),
            entries == parameters.entries(),
            strictly_sorted(entries),
            all_present(entries),
            forall|k: int| 0 <= k < names.len() ==> names[k]@ == entries[k].name,
            start.counter + entries.len() <= u64::MAX,
            reporter.state() == state_after(entries.take(i as int), start),
            line_views(lines@) == report_lines(entries.take(i as int), start),
            modified == count_of(entries.take(i as int), ChangeType::Modified),
            added == count_of(entries.take(i as int), ChangeType::Added),
            removed == count_of(entries.take(i as int), ChangeType::Removed),
            unmodified == count_of(entries.take(i as int), ChangeType::Unmodified),
        decreases names.len() - i,
    {
        let ghost seen = entries.take(i as int);
        let ghost entry = entries[i as int];
        proof {
            lemma_lookup(entries, i as int);
            lemma_bounds(seen, start, ChangeType::Modified);
            lemma_bounds(seen, start, ChangeType::Added);
            lemma_bounds(seen, start, ChangeType::Removed);
            lemma_bounds(seen, start, ChangeType::Unmodified);
            assert(entries.take(i + 1).drop_last() =~= seen);
            assert(entries.take(i + 1).last() == entry);
        }
        let parameter_name = names[i];
        let values = parameters.get(parameter_name).unwrap();
        let change_type = analyze_changes(values);
        let change = Change {
            change_type,
            parameter_name,
            old_value: values[0].as_str(),
            new_value: values[1].as_str(),
        };
        assert(change@ == change_of(entry));
        let ghost printed = line_views(lines@);
        let mut rendered = reporter.on_change(&change);
        assert(line_views(lines@ + rendered@) =~= printed + line_views(rendered@));
        lines.append(&mut rendered);
        match change_type {
            ChangeType::Modified => {
                modified += 1;
            },
            ChangeType::Unmodified => {
                unmodified += 1;
            },
            ChangeType::Added => {
                added += 1;
            },
            ChangeType::Removed => {
                removed += 1;
            },
        }
        i += 1;
    }
    assert(entries.take(i as int) =~= entries);
    Report {
        lines,
        summary: Summary { modified, added, removed, unmodified, analyzed: parameters.len() },
    }
}

} // verus!
