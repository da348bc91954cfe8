//! The formats in which changes are reported.

use crate::parameters::{kind_name, Change, ChangeType, ChangeView};
use crate::text::{decimal, line_views, push_decimal, same_text};
use vstd::prelude::*;
use vstd::string::*;

verus! {

/// The formats of a report.
#[derive(Debug, Clone, Copy, PartialEq, Eq)]
pub enum Format {
    /// One line for each change.
    Text,
    /// One line for each change, with a link to the parameter's page.
    TextWithLinks,
    /// A Markdown table.
    Markdown,
    /// A table of comma-separated values.
    Csv,
}

/// What a reporter has to remember between two changes.
pub struct ReporterState {
    pub format: Format,
    /// The table's header is still to be printed.
    pub print_header: bool,
    /// The number of rows printed so far.
    pub counter: nat,
}

/// The state of a reporter that has printed nothing yet.
pub open spec fn fresh(format: Format) -> ReporterState {
    ReporterState { format, print_header: true, counter: 0 }
}

/// The format that a name selects. A name that is not known selects the
/// plain text.
pub open spec fn format_named(name: Seq<char>) -> Format {
    if name == "text-with-links"@ {
        Format::TextWithLinks
    } else if name == "md"@ {
        Format::Markdown
    } else if name == "csv"@ {
        Format::Csv
    } else {
        Format::Text
    }
}

/// The address of the page that describes a parameter: the parameter's
/// name without its first seven characters, put into the address of the
/// catalogue. A name of seven characters or fewer has no page.
pub open spec fn link_of(name: Seq<char>) -> Option<Seq<char>> {
    if name.len() > 7 {
        Some("https://cateee.net/lkddb/web-lkddb/"@ + name.skip(7) + ".html"@)
    } else {
        None
    }
}

/// The address of a parameter's page, or `NA` where it has none.
pub open spec fn link_text(name: Seq<char>) -> Seq<char> {
    match link_of(name) {
        Some(link) => link,
        None => "NA"@,
    }
}

/// The line of the plain text format.
pub open spec fn text_line(change: ChangeView) -> Seq<char> {
    kind_name(change.change_type) + "("@ + change.parameter_name + ","@ + change.old_value + ","@
        + change.new_value + ")"@
}

/// The line of the plain text format with links.
pub open spec fn linked_line(change: ChangeView) -> Seq<char> {
    kind_name(change.change_type) + "("@ + change.parameter_name + ","@ + change.old_value + ","@
        + change.new_value + ","@ + link_text(change.parameter_name) + ")"@
}

/// The two lines that head a Markdown table.
pub open spec fn markdown_header() -> Seq<Seq<char>> {
    seq![
        "|# | Parameter | Status | Old Value | New Value |"@,
        "|--|-----------|--------|-----------|-----------|"@,
    ]
}

/// The row of a Markdown table with the number `counter`.
pub open spec fn markdown_row(counter: nat, change: ChangeView) -> Seq<char> {
    "| "@ + decimal(counter) + " | ["@ + change.parameter_name + "]("@ + link_text(
        change.parameter_name,
    ) + ") | "@ + kind_name(change.change_type) + " | "@ + change.old_value + " | "@
        + change.new_value + " |"@
}

/// The line that heads a table of comma-separated values.
pub open spec fn csv_header() -> Seq<Seq<char>> {
    seq!["#,Parameter,Status,Old Value,New Value,Description"@]
}

/// The row of a table of comma-separated values with the number
/// `counter`.
pub open spec fn csv_row(counter: nat, change: ChangeView) -> Seq<char> {
    decimal(counter) + ","@ + change.parameter_name + ","@ + kind_name(change.change_type) + ","@
        + change.old_value + ","@ + change.new_value + ","@ + link_text(change.parameter_name)
}

/// The header that a table still lacks.
pub open spec fn pending_header(state: ReporterState) -> Seq<Seq<char>> {
    if !state.print_header {
        Seq::empty()
    } else if state.format is Markdown {
        markdown_header()
    } else if state.format is Csv {
        csv_header()
    } else {
        Seq::empty()
    }
}

/// The lines that a reporter in the state `state` prints for `change`. A
/// parameter that has not changed gives no line. A table gets its header
/// before its first row, and its rows are numbered from one.
pub open spec fn rendered(state: ReporterState, change: ChangeView) -> Seq<Seq<char>> {
    if change.change_type is Unmodified {
        Seq::empty()
    } else {
        match state.format {
            Format::Text => seq![text_line(change)],
            Format::TextWithLinks => seq![linked_line(change)],
            Format::Markdown => pending_header(state).push(
                markdown_row(state.counter + 1, change),
            ),
            Format::Csv => pending_header(state).push(csv_row(state.counter + 1, change)),
        }
    }
}

/// The state of a reporter after it was given `change` in the state
/// `state`. Only a row of a table changes it.
pub open spec fn advanced(state: ReporterState, change: ChangeView) -> ReporterState {
    if change.change_type is Unmodified {
        state
    } else {
        match state.format {
            Format::Text => state,
            Format::TextWithLinks => state,
            _ => ReporterState {
                format: state.format,
                print_header: false,
                counter: state.counter + 1,
            },
        }
    }
}

/// A parameter that has not changed is never printed and leaves the
/// reporter as it was, whatever the format and the state.
pub proof fn lemma_unmodified_is_silent(state: ReporterState, change: ChangeView)
    requires
        change.change_type is Unmodified,
    ensures
        rendered(state, change) == Seq::<Seq<char>>::empty(),
        advanced(state, change) == state,
{
}

/// Builds the address of the page that describes the parameter
/// `config_name`.
pub fn make_link(config_name: &str) -> (link: Option<String>)
    ensures
        match link {
            Some(address) => link_of(config_name@) == Some(address@),
            None => link_of(config_name@) is None,
        },
{
    let length = config_name.unicode_len();
    if length > 7 {
        let mut address = String::new();
        address.append("https://cateee.net/lkddb/web-lkddb/");
        address.append(config_name.substring_char(7, length));
        address.append(".html");
        assert(address@ =~= "https://cateee.net/lkddb/web-lkddb/"@ + config_name@.skip(7)
            + ".html"@);
        Some(address)
    } else {
        None
    }
}

/// The address of the parameter's page, or `NA`.
fn link_or_na(config_name: &str) -> (text: String)
    ensures
        text@ == link_text(config_name@),
{
    match make_link(config_name) {
        Some(address) => address,
        None => "NA".to_owned(),
    }
}

/// A sink for changes: it is given each change once, in the order of
/// the names, and returns the lines to print for it.
pub trait ChangeReporter {
    /// What the reporter remembers.
    spec fn state(&self) -> ReporterState;

    /// Returns the lines to print for `change`.
    fn on_change(&mut self, change: &Change) -> (lines: Vec<String>)
        requires
            advanced(old(self).state(), change@).counter <= u64::MAX,
        ensures
            line_views(lines@) == rendered(old(self).state(), change@),
            final(self).state() == advanced(old(self).state(), change@),
    ;
}

/// Reports each change on a line of plain text.
pub struct SimpleTextReporter;

/// Reports each change on a line of plain text that ends with a link.
pub struct SimpleTextReporterWithLinks {}

/// Reports the changes as the rows of a Markdown table.
pub struct MDReporter {
    print_header: bool,
    counter: u64,
}

/// Reports the changes as the rows of a table of comma-separated values.
pub struct CSVReporter {
    print_header: bool,
    counter: u64,
}

/// The reporter of one of the formats.
pub enum Reporter {
    Text(SimpleTextReporter),
    TextWithLinks(SimpleTextReporterWithLinks),
    Markdown(MDReporter),
    Csv(CSVReporter),
}

impl MDReporter {
    /// A reporter that has printed nothing yet.
    pub fn new() -> (reporter: MDReporter)
        ensures
            reporter.state() == fresh(Format::Markdown),
    {
        MDReporter { print_header: true, counter: 0 }
    }
}

impl CSVReporter {
    /// A reporter that has printed nothing yet.
    pub fn new() -> (reporter: CSVReporter)
        ensures
            reporter.state() == fresh(Format::Csv),
    {
        CSVReporter { print_header: true, counter: 0 }
    }
}

impl ChangeReporter for SimpleTextReporter {
    open spec fn state(&self) -> ReporterState {
        fresh(Format::Text)
    }

    fn on_change(&mut self, change: &Change) -> (lines: Vec<String>) {
        let mut lines: Vec<String> = Vec::new();
        if matches!(change.change_type, ChangeType::Unmodified) {
            assert(line_views(lines@) =~= Seq::<Seq<char>>::empty());
            return lines;
        }
        let mut line = String::new();
        line.append(change.change_type.name());
        line.append("(");
        line.append(change.parameter_name);
        line.append(",");
        line.append(change.old_value);
        line.append(",");
        line.append(change.new_value);
        line.append(")");
        assert(line@ =~= text_line(change@));
        lines.push(line);
        assert(line_views(lines@) =~= seq![text_line(change@)]);
        lines
    }
}

impl ChangeReporter for SimpleTextReporterWithLinks {
    open spec fn state(&self) -> ReporterState {
        fresh(Format::TextWithLinks)
    }

    fn on_change(&mut self, change: &Change) -> (lines: Vec<String>) {
        let mut lines: Vec<String> = Vec::new();
        if matches!(change.change_type, ChangeType::Unmodified) {
            assert(line_views(lines@) =~= Seq::<Seq<char>>::empty());
            return lines;
        }
        let link = link_or_na(change.parameter_name);
        let mut line = String::new();
        line.append(change.change_type.name());
        line.append("(");
        line.append(change.parameter_name);
        line.append(",");
        line.append(change.old_value);
        line.append(",");
        line.append(change.new_value);
        line.append(",");
        line.append(link.as_str());
        line.append(")");
        assert(line@ =~= linked_line(change@));
        lines.push(line);
        assert(line_views(lines@) =~= seq![linked_line(change@)]);
        lines
    }
}

impl ChangeReporter for MDReporter {
    closed spec fn state(&self) -> ReporterState {
        ReporterState {
            format: Format::Markdown,
            print_header: self.print_header,
            counter: self.counter as nat,
        }
    }

    fn on_change(&mut self, change: &Change) -> (lines: Vec<String>) {
        let mut lines: Vec<String> = Vec::new();
        if matches!(change.change_type, ChangeType::Unmodified) {
            assert(line_views(lines@) =~= Seq::<Seq<char>>::empty());
            return lines;
        }
        if self.print_header {
            lines.push("|# | Parameter | Status | Old Value | New Value |".to_owned());
            lines.push("|--|-----------|--------|-----------|-----------|".to_owned());
            self.print_header = false;
        }
        assert(line_views(lines@) =~= pending_header(old(self).state()));
        let link = link_or_na(change.parameter_name);
        self.counter += 1;
        let mut row = String::new();
        row.append("| ");
        push_decimal(&mut row, self.counter);
        row.append(" | [");
        row.append(change.parameter_name);
        row.append("](");
        row.append(link.as_str());
        row.append(") | ");
        row.append(change.change_type.name());
        row.append(" | ");
        row.append(change.old_value);
        row.append(" | ");
        row.append(change.new_value);
        row.append(" |");
        assert(row@ =~= markdown_row(self.counter as nat, change@));
        lines.push(row);
        assert(line_views(lines@) =~= pending_header(old(self).state()).push(
            markdown_row(self.counter as nat, change@),
        ));
        lines
    }
}

impl ChangeReporter for CSVReporter {
    closed spec fn state(&self) -> ReporterState {
        ReporterState {
            format: Format::Csv,
            print_header: self.print_header,
            counter: self.counter as nat,
        }
    }

    fn on_change(&mut self, change: &Change) -> (lines: Vec<String>) {
        let mut lines: Vec<String> = Vec::new();
        if matches!(change.change_type, ChangeType::Unmodified) {
            assert(line_views(lines@) =~= Seq::<Seq<char>>::empty());
            return lines;
        }
        if self.print_header {
            lines.push("#,Parameter,Status,Old Value,New Value,Description".to_owned());
            self.print_header = false;
        }
        assert(line_views(lines@) =~= pending_header(old(self).state()));
        let link = link_or_na(change.parameter_name);
        self.counter += 1;
        let mut row = String::new();
        push_decimal(&mut row, self.counter);
        row.append(",");
        row.append(change.parameter_name);
        row.append(",");
        row.append(change.change_type.name());
        row.append(",");
        row.append(change.old_value);
        row.append(",");
        row.append(change.new_value);
        row.append(",");
        row.append(link.as_str());
        assert(row@ =~= csv_row(self.counter as nat, change@));
        lines.push(row);
        assert(line_views(lines@) =~= pending_header(old(self).state()).push(
            csv_row(self.counter as nat, change@),
        ));
        lines
    }
}

impl ChangeReporter for Reporter {
    open spec fn state(&self) -> ReporterState {
        match self {
            Reporter::Text(reporter) => reporter.state(),
            Reporter::TextWithLinks(reporter) => reporter.state(),
            Reporter::Markdown(reporter) => reporter.state(),
            Reporter::Csv(reporter) => reporter.state(),
        }
    }

    fn on_change(&mut self, change: &Change) -> (lines: Vec<String>) {
        match self {
            Reporter::Text(reporter) => reporter.on_change(change),
            Reporter::TextWithLinks(reporter) => reporter.on_change(change),
            Reporter::Markdown(reporter) => reporter.on_change(change),
            Reporter::Csv(reporter) => reporter.on_change(change),
        }
    }
}

/// Builds the reporter for the format that `reporter_name` selects.
pub fn build(reporter_name: &str) -> (reporter: Reporter)
    ensures
        reporter.state() == fresh(format_named(reporter_name@)),
{
    if same_text(reporter_name, "text-with-links") {
        Reporter::TextWithLinks(SimpleTextReporterWithLinks {  })
    } else if same_text(reporter_name, "md") {
        Reporter::Markdown(MDReporter::new())
    } else if same_text(reporter_name, "csv") {
        Reporter::Csv(CSVReporter::new())
    } else {
        Reporter::Text(SimpleTextReporter)
    }
}

} // verus!
