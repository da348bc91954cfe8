//! The histories of all parameters of two configuration files, kept in
//! the order of their names.

use crate::parameters::{
    line_shape, name_and_value, new_values_sequence, scan_line, update_values_sequence,
    history_of, LineShape, ParsedLine, ValueHistory, ValuesSequence,
};
use crate::text::{
    compare, lemma_lex_lt_irreflexive, lemma_lex_lt_transitive, lex_lt, line_views, Position,
};
use vstd::prelude::*;
use vstd::string::*;

verus! {

/// A parameter's name with its history, as character sequences.
pub struct EntryView {
    pub name: Seq<char>,
    pub history: ValueHistory,
}

/// The names of `entries` rise strictly from each entry to the next, so
/// that no name occurs twice.
pub open spec fn strictly_sorted(entries: Seq<EntryView>) -> bool {
    forall|i: int, j: int|
        0 <= i < j < entries.len() ==> lex_lt(
            #[trigger] entries[i].name,
            #[trigger] entries[j].name,
        )
}

/// Whether some entry carries `name`.
pub open spec fn holds(entries: Seq<EntryView>, name: Seq<char>) -> bool {
    exists|i: int| 0 <= i < entries.len() && #[trigger] entries[i].name == name
}

/// The index of an entry that carries `name`.
pub open spec fn index_of(entries: Seq<EntryView>, name: Seq<char>) -> int {
    choose|i: int| 0 <= i < entries.len() && #[trigger] entries[i].name == name
}

/// The mapping from names to histories that `entries` stand for.
pub open spec fn as_map(entries: Seq<EntryView>) -> Map<Seq<char>, ValueHistory> {
    Map::new(
        |name: Seq<char>| holds(entries, name),
        |name: Seq<char>| entries[index_of(entries, name)].history,
    )
}

/// Every entry of a sorted sequence is found in its mapping, under its
/// name and with its history.
pub proof fn lemma_lookup(entries: Seq<EntryView>, i: int)
    requires
        strictly_sorted(entries),
        0 <= i < entries.len(),
    ensures
        as_map(entries).contains_key(entries[i].name),
        as_map(entries)[entries[i].name] == entries[i].history,
        index_of(entries, entries[i].name) == i,
{
    let name = entries[i].name;
    let j = index_of(entries, name);
    lemma_lex_lt_irreflexive(name);
    if j < i {
        assert(lex_lt(entries[j].name, entries[i].name));
    } else if i < j {
        assert(lex_lt(entries[i].name, entries[j].name));
    }
}

/// A new entry put at its place in a sorted sequence leaves it sorted
/// and adds the entry's name to the mapping.
pub proof fn lemma_insert(entries: Seq<EntryView>, at: int, entry: EntryView)
    requires
        strictly_sorted(entries),
        0 <= at <= entries.len(),
        forall|i: int| 0 <= i < at ==> lex_lt(#[trigger] entries[i].name, entry.name),
        forall|i: int| at <= i < entries.len() ==> lex_lt(entry.name, #[trigger] entries[i].name),
    ensures
        !as_map(entries).contains_key(entry.name),
        strictly_sorted(entries.insert(at, entry)),
        as_map(entries.insert(at, entry)) == as_map(entries).insert(entry.name, entry.history),
{
    let after = entries.insert(at, entry);
    lemma_lex_lt_irreflexive(entry.name);
    assert forall|i: int, j: int| 0 <= i < j < after.len() implies lex_lt(
        #[trigger] after[i].name,
        #[trigger] after[j].name,
    ) by {
        if j < at {
            assert(lex_lt(entries[i].name, entries[j].name));
        } else if j == at {
            assert(lex_lt(entries[i].name, entry.name));
        } else if i < at {
            assert(lex_lt(entries[i].name, entries[j - 1].name));
        } else if i == at {
            assert(lex_lt(entry.name, entries[j - 1].name));
        } else {
            assert(lex_lt(entries[i - 1].name, entries[j - 1].name));
        }
    }
    assert(after[at] == entry);
    lemma_lookup(after, at);
    assert forall|name: Seq<char>| #[trigger]
        as_map(after).contains_key(name) == as_map(entries).insert(
            entry.name,
            entry.history,
        ).contains_key(name) by {
        if holds(entries, name) {
            let i = index_of(entries, name);
            if i < at {
                assert(after[i].name == name);
            } else {
                assert(after[i + 1].name == name);
            }
        }
        if holds(after, name) && name != entry.name {
            let i = index_of(after, name);
            if i < at {
                assert(entries[i].name == name);
            } else {
                assert(entries[i - 1].name == name);
            }
        }
    }
    assert forall|name: Seq<char>| #[trigger]
        as_map(after).contains_key(name) implies as_map(after)[name] == as_map(entries).insert(
        entry.name,
        entry.history,
    )[name] by {
        if name != entry.name {
            let i = index_of(entries, name);
            lemma_lookup(entries, i);
            if i < at {
                assert(after[i] == entries[i]);
                lemma_lookup(after, i);
            } else {
                assert(after[i + 1] == entries[i]);
                lemma_lookup(after, i + 1);
            }
        }
    }
    assert(as_map(after) =~= as_map(entries).insert(entry.name, entry.history));
}

/// A new history for an entry of a sorted sequence leaves it sorted and
/// replaces the history under the entry's name.
pub proof fn lemma_update(entries: Seq<EntryView>, at: int, history: ValueHistory)
    requires
        strictly_sorted(entries),
        0 <= at < entries.len(),
    ensures
        strictly_sorted(entries.update(at, EntryView { name: entries[at].name, history })),
        as_map(entries.update(at, EntryView { name: entries[at].name, history })) == as_map(
            entries,
        ).insert(entries[at].name, history),
{
    let entry = EntryView { name: entries[at].name, history };
    let after = entries.update(at, entry);
    assert forall|i: int, j: int| 0 <= i < j < after.len() implies lex_lt(
        #[trigger] after[i].name,
        #[trigger] after[j].name,
    ) by {
        assert(lex_lt(entries[i].name, entries[j].name));
    }
    lemma_lookup(after, at);
    lemma_lookup(entries, at);
    assert forall|name: Seq<char>| #[trigger]
        as_map(after).contains_key(name) == as_map(entries).contains_key(name) by {
        if holds(entries, name) {
            let i = index_of(entries, name);
            assert(after[i].name == name);
        }
        if holds(after, name) {
            let i = index_of(after, name);
            assert(entries[i].name == name);
        }
    }
    assert forall|name: Seq<char>| #[trigger]
        as_map(after).contains_key(name) implies as_map(after)[name] == as_map(entries).insert(
        entry.name,
        history,
    )[name] by {
        if name != entry.name {
            let i = index_of(entries, name);
            lemma_lookup(entries, i);
            assert(after[i] == entries[i]);
            lemma_lookup(after, i);
        }
    }
    assert(as_map(after) =~= as_map(entries).insert(entry.name, history));
}

/// Two sorted sequences that stand for the same mapping are the same
/// sequence: the order of the entries depends on nothing but the names.
pub proof fn lemma_sorted_entries_unique(a: Seq<EntryView>, b: Seq<EntryView>)
    requires
        strictly_sorted(a),
        strictly_sorted(b),
        as_map(a) == as_map(b),
    ensures
        a == b,
    decreases a.len(),
{
    if a.len() == 0 {
        if b.len() > 0 {
            lemma_lookup(b, 0);
            assert(holds(a, b[0].name));
        }
        assert(a =~= b);
    } else if b.len() == 0 {
        lemma_lookup(a, 0);
        assert(holds(b, a[0].name));
    } else {
        let last_a = a.len() - 1;
        let last_b = b.len() - 1;
        lemma_lookup(a, last_a);
        lemma_lookup(b, last_b);
        let i = index_of(b, a[last_a].name);
        let j = index_of(a, b[last_b].name);
        assert(holds(b, a[last_a].name));
        assert(holds(a, b[last_b].name));
        lemma_lex_lt_irreflexive(a[last_a].name);
        if i < last_b && j < last_a {
            assert(lex_lt(b[i].name, b[last_b].name));
            assert(lex_lt(a[j].name, a[last_a].name));
            lemma_lex_lt_transitive(a[last_a].name, b[last_b].name, a[last_a].name);
        }
        if i < last_b {
            assert(lex_lt(b[i].name, b[last_b].name));
        }
        if j < last_a {
            assert(lex_lt(a[j].name, a[last_a].name));
        }
        assert(a[last_a].name == b[last_b].name);
        assert(a[last_a] == b[last_b]);
        lemma_drop_last(a);
        lemma_drop_last(b);
        lemma_sorted_entries_unique(a.drop_last(), b.drop_last());
        assert(a =~= a.drop_last().push(a[last_a]));
        assert(b =~= b.drop_last().push(b[last_b]));
    }
}

/// Without its last entry a sorted sequence is still sorted, and its
/// mapping has lost that entry's name and nothing else.
pub proof fn lemma_drop_last(entries: Seq<EntryView>)
    requires
        strictly_sorted(entries),
        entries.len() > 0,
    ensures
        strictly_sorted(entries.drop_last()),
        as_map(entries.drop_last()) == as_map(entries).remove(entries.last().name),
{
    let front = entries.drop_last();
    let last = entries.len() - 1;
    assert forall|i: int, j: int| 0 <= i < j < front.len() implies lex_lt(
        #[trigger] front[i].name,
        #[trigger] front[j].name,
    ) by {
        assert(lex_lt(entries[i].name, entries[j].name));
    }
    lemma_lex_lt_irreflexive(entries[last].name);
    assert forall|name: Seq<char>| #[trigger]
        as_map(front).contains_key(name) == as_map(entries).remove(
            entries[last].name,
        ).contains_key(name) by {
        if holds(front, name) {
            let i = index_of(front, name);
            assert(entries[i].name == name);
            assert(lex_lt(entries[i].name, entries[last].name));
        }
        if holds(entries, name) && name != entries[last].name {
            let i = index_of(entries, name);
            assert(front[i].name == name);
        }
    }
    assert forall|name: Seq<char>| #[trigger]
        as_map(front).contains_key(name) implies as_map(front)[name] == as_map(entries).remove(
        entries[last].name,
    )[name] by {
        let i = index_of(front, name);
        lemma_lookup(front, i);
        assert(entries[i] == front[i]);
        lemma_lookup(entries, i);
    }
    assert(as_map(front) =~= as_map(entries).remove(entries[last].name));
}

/// What the reading of a line may report besides the value it records.
#[derive(Debug)]
pub enum Diagnostic {
    /// A line that names a parameter and cannot be split: the text of it.
    UnparsedLine(String),
    /// A parameter that a file sets again: its name.
    DuplicateKey(String),
}

/// A diagnostic as character sequences.
pub enum DiagnosticView {
    UnparsedLine { text: Seq<char> },
    DuplicateKey { name: Seq<char> },
}

/// A parameter's name with its history.
struct Entry {
    name: String,
    values: ValuesSequence,
}

/// The histories of the parameters that two files set, each under its
/// name.
pub struct Parameters {
    entries: Vec<Entry>,
}

/// What `read` hands back: the histories, and the diagnostics of each
/// file in the order of its lines.
pub struct Reading {
    pub parameters: Parameters,
    pub first_diagnostics: Vec<Diagnostic>,
    pub second_diagnostics: Vec<Diagnostic>,
}

/// The mapping after the line `line` of file `idx` has been read. A
/// parameter met for the first time gets a history with its value in slot
/// `idx`. A parameter whose slot `idx` is empty gets the value there. A
/// parameter whose slot `idx` holds a value keeps it.
pub open spec fn recorded(map: Map<Seq<char>, ValueHistory>, idx: int, line: Seq<char>) -> Map<
    Seq<char>,
    ValueHistory,
> {
    match name_and_value(line) {
        None => map,
        Some((key, value)) => if !map.contains_key(key) {
            map.insert(key, ValueHistory::starting(idx, value))
        } else if map[key].slot(idx).len() == 0 {
            map.insert(key, map[key].with_slot(idx, value))
        } else {
            map
        },
    }
}

/// What the line `line` of file `idx` gives to report: a line that cannot
/// be split, or a parameter that the file has given a value already.
pub open spec fn diagnostic_of(map: Map<Seq<char>, ValueHistory>, idx: int, line: Seq<char>)
    -> Option<DiagnosticView> {
    match line_shape(line) {
        LineShape::Ignored => None,
        LineShape::Malformed { text } => Some(DiagnosticView::UnparsedLine { text }),
        LineShape::Pair { key, value } => if map.contains_key(key) && map[key].slot(idx).len()
            > 0 {
            Some(DiagnosticView::DuplicateKey { name: key })
        } else {
            None
        },
    }
}

/// The mapping after the lines `lines` of file `idx` have been read in
/// their order.
pub open spec fn recorded_all(
    map: Map<Seq<char>, ValueHistory>,
    idx: int,
    lines: Seq<Seq<char>>,
) -> Map<Seq<char>, ValueHistory>
    decreases lines.len(),
{
    if lines.len() == 0 {
        map
    } else {
        recorded(recorded_all(map, idx, lines.drop_last()), idx, lines.last())
    }
}

/// The diagnostics that the lines `lines` of file `idx` give, in the
/// order of the lines.
pub open spec fn diagnostics_all(
    map: Map<Seq<char>, ValueHistory>,
    idx: int,
    lines: Seq<Seq<char>>,
) -> Seq<DiagnosticView>
    decreases lines.len(),
{
    if lines.len() == 0 {
        Seq::empty()
    } else {
        let before = diagnostics_all(map, idx, lines.drop_last());
        match diagnostic_of(recorded_all(map, idx, lines.drop_last()), idx, lines.last()) {
            Some(diagnostic) => before.push(diagnostic),
            None => before,
        }
    }
}

/// The histories that two files give, the first read before the second.
pub open spec fn histories(first: Seq<Seq<char>>, second: Seq<Seq<char>>) -> Map<
    Seq<char>,
    ValueHistory,
> {
    recorded_all(recorded_all(Map::empty(), 0, first), 1, second)
}

/// The text of a diagnostic.
pub open spec fn message_of(diagnostic: DiagnosticView) -> Seq<char> {
    match diagnostic {
        DiagnosticView::UnparsedLine { text } => "failed to parse line:'"@ + text + "'"@,
        DiagnosticView::DuplicateKey { name } => "WARN: key "@ + name + " already exists"@,
    }
}

/// The diagnostics of a list as character sequences.
pub open spec fn diagnostic_views(diagnostics: Seq<Diagnostic>) -> Seq<DiagnosticView> {
    diagnostics.map_values(|d: Diagnostic| d@)
}

/// In every history at least one file gives the parameter a value that
/// is not empty.
pub open spec fn all_present(entries: Seq<EntryView>) -> bool {
    forall|i: int| 0 <= i < entries.len() ==> (#[trigger] entries[i]).history.present()
}

/// In every history of the mapping at least one file gives the parameter
/// a value that is not empty.
pub open spec fn all_histories_present(map: Map<Seq<char>, ValueHistory>) -> bool {
    forall|name: Seq<char>| map.contains_key(name) ==> (#[trigger] map[name]).present()
}

/// No line gives a parameter the empty value.
pub open spec fn no_empty_values(lines: Seq<Seq<char>>) -> bool {
    forall|i: int|
        0 <= i < lines.len() ==> match name_and_value(#[trigger] lines[i]) {
            Some((_, value)) => value.len() > 0,
            None => true,
        }
}

/// Lines that give no empty value keep every history with a value.
pub proof fn lemma_recorded_all_present(
    map: Map<Seq<char>, ValueHistory>,
    idx: int,
    lines: Seq<Seq<char>>,
)
    requires
        all_histories_present(map),
        no_empty_values(lines),
    ensures
        all_histories_present(recorded_all(map, idx, lines)),
    decreases lines.len(),
{
    if lines.len() > 0 {
        let front = lines.drop_last();
        assert forall|i: int| 0 <= i < front.len() implies match name_and_value(
            #[trigger] front[i],
        ) {
            Some((_, value)) => value.len() > 0,
            None => true,
        } by {
            assert(front[i] == lines[i]);
        }
        lemma_recorded_all_present(map, idx, front);
        assert(lines.last() == lines[lines.len() - 1]);
    }
}

/// Two files in which no line gives a parameter the empty value give
/// histories that can all be classified.
pub proof fn lemma_histories_present(
    first: Seq<Seq<char>>,
    second: Seq<Seq<char>>,
    entries: Seq<EntryView>,
)
    requires
        no_empty_values(first),
        no_empty_values(second),
        strictly_sorted(entries),
        as_map(entries) == histories(first, second),
    ensures
        all_present(entries),
{
    lemma_recorded_all_present(Map::empty(), 0, first);
    lemma_recorded_all_present(recorded_all(Map::empty(), 0, first), 1, second);
    assert forall|i: int| 0 <= i < entries.len() implies (#[trigger] entries[i]).history.present() by {
        lemma_lookup(entries, i);
    }
}

/// A line of the first file and a line of the second may be read in
/// either order: each fills its own slot.
proof fn lemma_lines_commute(
    map: Map<Seq<char>, ValueHistory>,
    first_line: Seq<char>,
    second_line: Seq<char>,
)
    ensures
        recorded(recorded(map, 0, first_line), 1, second_line) == recorded(
            recorded(map, 1, second_line),
            0,
            first_line,
        ),
{
    assert(recorded(recorded(map, 0, first_line), 1, second_line) =~= recorded(
        recorded(map, 1, second_line),
        0,
        first_line,
    ));
}

/// The lines of the first file and a line of the second may be read in
/// either order.
proof fn lemma_lines_commute_with_file(
    map: Map<Seq<char>, ValueHistory>,
    first: Seq<Seq<char>>,
    second_line: Seq<char>,
)
    ensures
        recorded(recorded_all(map, 0, first), 1, second_line) == recorded_all(
            recorded(map, 1, second_line),
            0,
            first,
        ),
    decreases first.len(),
{
    if first.len() > 0 {
        lemma_lines_commute_with_file(map, first.drop_last(), second_line);
        lemma_lines_commute(recorded_all(map, 0, first.drop_last()), first.last(), second_line);
    }
}

/// The two files may be read in either order: each fills its own slot of
/// every history, so that the histories are the same.
pub proof fn lemma_files_commute(
    map: Map<Seq<char>, ValueHistory>,
    first: Seq<Seq<char>>,
    second: Seq<Seq<char>>,
)
    ensures
        recorded_all(recorded_all(map, 0, first), 1, second) == recorded_all(
            recorded_all(map, 1, second),
            0,
            first,
        ),
    decreases second.len(),
{
    if second.len() > 0 {
        lemma_files_commute(map, first, second.drop_last());
        lemma_lines_commute_with_file(
            recorded_all(map, 1, second.drop_last()),
            first,
            second.last(),
        );
    }
}

impl View for Diagnostic {
    type V = DiagnosticView;

    open spec fn view(&self) -> DiagnosticView {
        match self {
            Diagnostic::UnparsedLine(text) => DiagnosticView::UnparsedLine { text: text@ },
            Diagnostic::DuplicateKey(name) => DiagnosticView::DuplicateKey { name: name@ },
        }
    }
}

impl View for Entry {
    type V = EntryView;

    closed spec fn view(&self) -> EntryView {
        EntryView { name: self.name@, history: history_of(self.values) }
    }
}

impl View for Parameters {
    type V = Map<Seq<char>, ValueHistory>;

    open spec fn view(&self) -> Map<Seq<char>, ValueHistory> {
        as_map(self.entries())
    }
}

/// The entries of a list as character sequences.
spec fn entry_views(entries: Seq<Entry>) -> Seq<EntryView> {
    entries.map_values(|entry: Entry| entry@)
}

/// Searches a sorted list for `name`. Returns the index of the entry that
/// carries it and `true`, or the index at which an entry of that name
/// belongs and `false`.
fn locate(entries: &Vec<Entry>, name: &str) -> (place: (usize, bool))
    requires
        strictly_sorted(entry_views(entries@)),
    ensures
        place.0 <= entries.len(),
        place.1 ==> place.0 < entries.len() && entry_views(entries@)[place.0 as int].name
            == name@,
        !place.1 ==> forall|i: int|
            0 <= i < place.0 ==> lex_lt(#[trigger] entry_views(entries@)[i].name, name@),
        !place.1 ==> forall|i: int|
            place.0 <= i < entries.len() ==> lex_lt(
                name@,
                #[trigger] entry_views(entries@)[i].name,
            ),
{
    let ghost views = entry_views(entries@);
    let mut lo: usize = 0;
    let mut hi: usize = entries.len();
    while lo < hi
        invariant
            lo <= hi <= entries.len(),
            views == entry_views(entries@),
            strictly_sorted(views),
            forall|i: int| 0 <= i < lo ==> lex_lt(#[trigger] views[i].name, name@),
            forall|i: int| hi <= i < entries.len() ==> lex_lt(name@, #[trigger] views[i].name),
        decreases hi - lo,
    {
        let mid = lo + (hi - lo) / 2;
        assert(views[mid as int].name == entries[mid as int].name@);
        match compare(entries[mid].name.as_str(), name) {
            Position::Same => {
                return (mid, true);
            },
            Position::Before => {
                assert forall|i: int| 0 <= i < mid + 1 implies lex_lt(
                    #[trigger] views[i].name,
                    name@,
                ) by {
                    if i < mid {
                        assert(lex_lt(views[i].name, views[mid as int].name));
                        lemma_lex_lt_transitive(views[i].name, views[mid as int].name, name@);
                    }
                }
                lo = mid + 1;
            },
            Position::After => {
                assert forall|i: int| mid <= i < entries.len() implies lex_lt(
                    name@,
                    #[trigger] views[i].name,
                ) by {
                    if mid < i {
                        assert(lex_lt(views[mid as int].name, views[i].name));
                        lemma_lex_lt_transitive(name@, views[mid as int].name, views[i].name);
                    }
                }
                hi = mid;
            },
        }
    }
    (lo, false)
}

impl Diagnostic {
    /// The text of this diagnostic.
    pub fn message(&self) -> (text: String)
        ensures
            text@ == message_of(self@),
    {
        let mut text = String::new();
        match self {
            Diagnostic::UnparsedLine(line) => {
                text.append("failed to parse line:'");
                text.append(line.as_str());
                text.append("'");
            },
            Diagnostic::DuplicateKey(name) => {
                text.append("WARN: key ");
                text.append(name.as_str());
                text.append(" already exists");
            },
        }
        text
    }
}

impl Parameters {
    #[verifier::type_invariant]
    spec fn ordered(self) -> bool {
        strictly_sorted(entry_views(self.entries@))
    }

    /// The entries in the order of their names.
    pub closed spec fn entries(self) -> Seq<EntryView> {
        entry_views(self.entries@)
    }

    /// What holds of every value of this type: the names of the entries
    /// rise strictly, whatever order the parameters were met in, and the
    /// number of the entries fits the machine.
    pub open spec fn well_formed(self) -> bool {
        strictly_sorted(self.entries()) && self.entries().len() <= usize::MAX
    }

    /// Every history holds a value that is not empty, so that each can be
    /// classified.
    pub open spec fn classifiable(self) -> bool {
        all_present(self.entries())
    }

    /// No parameters.
    pub fn new() -> (parameters: Parameters)
        ensures
            parameters.well_formed(),
            parameters.entries() == Seq::<EntryView>::empty(),
            parameters@ == Map::<Seq<char>, ValueHistory>::empty(),
    {
        let parameters = Parameters { entries: Vec::new() };
        assert(parameters.entries() =~= Seq::<EntryView>::empty());
        assert(parameters@ =~= Map::<Seq<char>, ValueHistory>::empty());
        parameters
    }

    /// The number of parameters.
    pub fn len(&self) -> (n: usize)
        ensures
            self.well_formed(),
            n == self.entries().len(),
    {
        proof {
            use_type_invariant(self);
        }
        self.entries.len()
    }

    /// The names of the parameters in lexicographic order.
    pub fn keys(&self) -> (names: Vec<&str>)
        ensures
            self.well_formed(),
            names.len() == self.entries().len(),
            forall|i: int| 0 <= i < names.len() ==> names[i]@ == self.entries()[i].name,
    {
        proof {
            use_type_invariant(self);
        }
        let mut names: Vec<&str> = Vec::new();
        let mut i: usize = 0;
        while i < self.entries.len()
            invariant
                i <= self.entries.len(),
                names.len() == i,
                forall|k: int| 0 <= k < i ==> names[k]@ == self.entries()[k].name,
            decreases self.entries.len() - i,
        {
            names.push(self.entries[i].name.as_str());
            i += 1;
        }
        names
    }

    /// The history of the parameter `name`, if a file sets it.
    pub fn get(&self, name: &str) -> (values: Option<&ValuesSequence>)
        ensures
            match values {
                Some(sequence) => self@.contains_key(name@) && self@[name@] == history_of(
                    *sequence,
                ),
                None => !self@.contains_key(name@),
            },
    {
        proof {
            use_type_invariant(self);
        }
        let (at, found) = locate(&self.entries, name);
        if found {
            proof {
                lemma_lookup(self.entries(), at as int);
            }
            Some(&self.entries[at].values)
        } else {
            proof {
                lemma_lex_lt_irreflexive(name@);
                if holds(self.entries(), name@) {
                    let i = index_of(self.entries(), name@);
                    assert(self.entries()[i].name == name@);
                }
            }
            None
        }
    }

    /// The name of the first parameter, in the order of the names, whose
    /// history holds no value but the empty one; none where every history
    /// can be classified.
    pub fn blank_key(&self) -> (name: Option<&str>)
        ensures
            name is None <==> self.classifiable(),
            match name {
                Some(key) => exists|i: int|
                    0 <= i < self.entries().len() && self.entries()[i].name == key@
                        && !self.entries()[i].history.present() && all_present(
                        self.entries().take(i),
                    ),
                None => true,
            },
    {
        let mut i: usize = 0;
        while i < self.entries.len()
            invariant
                i <= self.entries.len(),
                all_present(self.entries().take(i as int)),
            decreases self.entries.len() - i,
        {
            let entry = &self.entries[i];
            if entry.values[0].as_str().is_empty() && entry.values[1].as_str().is_empty() {
                assert(!self.entries()[i as int].history.present());
                return Some(entry.name.as_str());
            }
            assert forall|k: int| 0 <= k < i + 1 implies (#[trigger] self.entries().take(
                i + 1,
            )[k]).history.present() by {
                if k < i {
                    assert(self.entries().take(i as int)[k].history.present());
                }
            }
            i += 1;
        }
        assert(self.entries().take(i as int) =~= self.entries());
        None
    }

    /// Reads the line `line` of file `idx` into the histories. Returns what
    /// the line gives to report, if anything.
    pub fn update_history(&mut self, line: &str, idx: usize) -> (diagnostic: Option<Diagnostic>)
        requires
            idx < 2,
        ensures
            final(self).well_formed(),
            final(self)@ == recorded(old(self)@, idx as int, line@),
            match diagnostic {
                Some(d) => diagnostic_of(old(self)@, idx as int, line@) == Some(d@),
                None => diagnostic_of(old(self)@, idx as int, line@) is None,
            },
    {
        proof {
            use_type_invariant(&*self);
            assert(self.entries().len() == self.entries.len());
        }
        match scan_line(line) {
            ParsedLine::Ignored => None,
            ParsedLine::Malformed(text) => Some(Diagnostic::UnparsedLine(text.to_owned())),
            ParsedLine::Pair(key, value) => {
                let ghost before = self.entries();
                let mut entries: Vec<Entry> = Vec::new();
                std::mem::swap(&mut self.entries, &mut entries);
                let (at, found) = locate(&entries, key);
                let diagnostic = if found {
                    proof {
                        lemma_lookup(before, at as int);
                    }
                    let updated = update_values_sequence(&mut entries[at].values, idx, value);
                    proof {
                        if updated {
                            let history = before[at as int].history.with_slot(idx as int, value@);
                            lemma_update(before, at as int, history);
                            assert(entry_views(entries@) =~= before.update(
                                at as int,
                                EntryView { name: before[at as int].name, history },
                            ));
                        } else {
                            assert(entry_views(entries@) =~= before);
                        }
                    }
                    if updated {
                        None
                    } else {
                        Some(Diagnostic::DuplicateKey(key.to_owned()))
                    }
                } else {
                    let entry = Entry {
                        name: key.to_owned(),
                        values: new_values_sequence(idx, value),
                    };
                    proof {
                        lemma_insert(before, at as int, entry@);
                    }
                    entries.insert(at, entry);
                    assert(entry_views(entries@) =~= before.insert(at as int, entry@));
                    None
                };
                assert(entry_views(entries@).len() == entries.len());
                std::mem::swap(&mut self.entries, &mut entries);
                diagnostic
            },
        }
    }

    /// Reads the lines of file `idx` into the histories, in their order.
    /// Returns what they give to report.
    pub fn read_lines(&mut self, idx: usize, lines: &Vec<String>) -> (diagnostics: Vec<Diagnostic>)
        requires
            idx < 2,
        ensures
            final(self).well_formed(),
            final(self)@ == recorded_all(old(self)@, idx as int, line_views(lines@)),
            diagnostic_views(diagnostics@) == diagnostics_all(
                old(self)@,
                idx as int,
                line_views(lines@),
            ),
    {
        proof {
            use_type_invariant(&*self);
            assert(self.entries().len() == self.entries.len());
        }
        let ghost all = line_views(lines@);
        let mut diagnostics: Vec<Diagnostic> = Vec::new();
        let mut i: usize = 0;
        assert(all.take(0) =~= Seq::<Seq<char>>::empty());
        assert(diagnostic_views(diagnostics@) =~= Seq::<DiagnosticView>::empty());
        while i < lines.len()
            invariant
                idx < 2,
                i <= lines.len(),
                all == line_views(lines@),
                self.well_formed(),
                self@ == recorded_all(old(self)@, idx as int, all.take(i as int)),
                diagnostic_views(diagnostics@) == diagnostics_all(
                    old(self)@,
                    idx as int,
                    all.take(i as int),
                ),
            decreases lines.len() - i,
        {
            let ghost seen = diagnostic_views(diagnostics@);
            proof {
                assert(all.take(i + 1).drop_last() =~= all.take(i as int));
                assert(all.take(i + 1).last() == lines[i as int]@);
            }
            match self.update_history(lines[i].as_str(), idx) {
                Some(diagnostic) => {
                    diagnostics.push(diagnostic);
                    assert(diagnostic_views(diagnostics@) =~= seen.push(diagnostic@));
                },
                None => {},
            }
            i += 1;
        }
        assert(all.take(i as int) =~= all);
        diagnostics
    }
}

/// Builds the histories of the parameters of two files from their lines:
/// the first file fills slot 0 of each history, the second slot 1.
pub fn read(first: &Vec<String>, second: &Vec<String>) -> (reading: Reading)
    ensures
        reading.parameters.well_formed(),
        reading.parameters@ == histories(line_views(first@), line_views(second@)),
        diagnostic_views(reading.first_diagnostics@) == diagnostics_all(
            Map::empty(),
            0,
            line_views(first@),
        ),
        diagnostic_views(reading.second_diagnostics@) == diagnostics_all(
            recorded_all(Map::empty(), 0, line_views(first@)),
            1,
            line_views(second@),
        ),
{
    let mut parameters = Parameters::new();
    let first_diagnostics = parameters.read_lines(0, first);
    let second_diagnostics = parameters.read_lines(1, second);
    Reading { parameters, first_diagnostics, second_diagnostics }
}

} // verus!
