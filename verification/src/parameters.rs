//! Parameters, the histories of their values, and the lines that set them.

use crate::text::{
    find_in_range, first_index, lemma_first_index, lemma_first_index_is_first, lemma_trimmed_bare,
    range_ends_with, range_starts_with, to_chars, trim_range, trimmed, white_space,
};
use vstd::prelude::*;
use vstd::string::*;

verus! {

/// The history of one parameter: slot 0 holds its value in the first
/// file, slot 1 its value in the second. An empty slot stands for a file
/// that does not set the parameter.
pub type ValuesSequence = [String; 2];

/// What became of a parameter between the first file and the second.
#[derive(Debug, Clone, Copy, PartialEq, Eq)]
pub enum ChangeType {
    Modified,
    Unmodified,
    Added,
    Removed,
}

/// One parameter with its two values and the kind of its change.
pub struct Change<'a> {
    pub change_type: ChangeType,
    pub parameter_name: &'a str,
    pub old_value: &'a str,
    pub new_value: &'a str,
}

/// What a line of a configuration file holds.
pub enum ParsedLine<'a> {
    /// A parameter and the text that the line gives it.
    Pair(&'a str, &'a str),
    /// A line that names a parameter but lacks the separator; it holds
    /// the text that could not be split.
    Malformed(&'a str),
    /// Any other line.
    Ignored,
}

/// The two values of a history as character sequences.
pub struct ValueHistory {
    pub old_value: Seq<char>,
    pub new_value: Seq<char>,
}

/// A change as character sequences.
pub struct ChangeView {
    pub change_type: ChangeType,
    pub parameter_name: Seq<char>,
    pub old_value: Seq<char>,
    pub new_value: Seq<char>,
}

/// A parsed line as character sequences.
pub enum LineShape {
    Pair { key: Seq<char>, value: Seq<char> },
    Malformed { text: Seq<char> },
    Ignored,
}

impl ValueHistory {
    /// The value in slot `idx`.
    pub open spec fn slot(self, idx: int) -> Seq<char> {
        if idx == 0 {
            self.old_value
        } else {
            self.new_value
        }
    }

    /// This history with `value` in slot `idx`.
    pub open spec fn with_slot(self, idx: int, value: Seq<char>) -> ValueHistory {
        if idx == 0 {
            ValueHistory { old_value: value, new_value: self.new_value }
        } else {
            ValueHistory { old_value: self.old_value, new_value: value }
        }
    }

    /// The history of a parameter first met with `value` in file `idx`.
    pub open spec fn starting(idx: int, value: Seq<char>) -> ValueHistory {
        ValueHistory { old_value: Seq::empty(), new_value: Seq::empty() }.with_slot(idx, value)
    }

    /// At least one file gives the parameter a value that is not empty.
    pub open spec fn present(self) -> bool {
        self.old_value.len() > 0 || self.new_value.len() > 0
    }
}

/// The history that a pair of strings stands for.
pub open spec fn history_of(sequence: ValuesSequence) -> ValueHistory {
    ValueHistory { old_value: sequence@[0]@, new_value: sequence@[1]@ }
}

/// The kind of change that a history shows. Which slots are empty decides
/// between added and removed; the values are compared only where both
/// files set the parameter.
pub open spec fn classify(history: ValueHistory) -> ChangeType
    recommends
        history.present(),
{
    if history.old_value.len() == 0 {
        ChangeType::Added
    } else if history.new_value.len() == 0 {
        ChangeType::Removed
    } else if history.old_value == history.new_value {
        ChangeType::Unmodified
    } else {
        ChangeType::Modified
    }
}

/// The name under which a kind of change is printed.
pub open spec fn kind_name(kind: ChangeType) -> Seq<char> {
    match kind {
        ChangeType::Modified => "Modified"@,
        ChangeType::Unmodified => "Unmodified"@,
        ChangeType::Added => "Added"@,
        ChangeType::Removed => "Removed"@,
    }
}

/// Splits `text` at its first `separator`: the key stands before it, the
/// value after it. Text without the separator cannot be split.
pub open spec fn split_at_first(text: Seq<char>, separator: char) -> LineShape {
    let at = first_index(text, separator);
    if at < text.len() {
        LineShape::Pair { key: text.take(at), value: text.skip(at + 1) }
    } else {
        LineShape::Malformed { text }
    }
}

/// What a line holds. A trimmed line that begins with `CONFIG` sets a
/// parameter and is split at its first `=`. A trimmed line that begins
/// with `#` is a comment; where the rest of it, trimmed again, begins
/// with `CONFIG` and ends with `is not set`, it switches a parameter off
/// and is split at its first space. Every other line is ignored.
pub open spec fn line_shape(line: Seq<char>) -> LineShape {
    let text = trimmed(line);
    if "CONFIG"@.is_prefix_of(text) {
        split_at_first(text, '=')
    } else if text.len() > 0 && text[0] == '#' {
        let rest = trimmed(text.skip(1));
        if "CONFIG"@.is_prefix_of(rest) && "is not set"@.is_suffix_of(rest) {
            split_at_first(rest, ' ')
        } else {
            LineShape::Ignored
        }
    } else {
        LineShape::Ignored
    }
}

/// The parameter and the value that a line gives, if it gives any.
pub open spec fn name_and_value(line: Seq<char>) -> Option<(Seq<char>, Seq<char>)> {
    match line_shape(line) {
        LineShape::Pair { key, value } => Some((key, value)),
        _ => None,
    }
}

impl<'a> View for Change<'a> {
    type V = ChangeView;

    open spec fn view(&self) -> ChangeView {
        ChangeView {
            change_type: self.change_type,
            parameter_name: self.parameter_name@,
            old_value: self.old_value@,
            new_value: self.new_value@,
        }
    }
}

impl<'a> View for ParsedLine<'a> {
    type V = LineShape;

    open spec fn view(&self) -> LineShape {
        match *self {
            ParsedLine::Pair(key, value) => LineShape::Pair { key: key@, value: value@ },
            ParsedLine::Malformed(text) => LineShape::Malformed { text: text@ },
            ParsedLine::Ignored => LineShape::Ignored,
        }
    }
}

/// A history in which a file sets the parameter is of exactly one kind:
/// modified where both files set the parameter and the values differ,
/// unmodified where both set it and the values are equal, added where
/// only the second file sets it, removed where only the first does.
pub proof fn lemma_classification(history: ValueHistory)
    requires
        history.present(),
    ensures
        classify(history) is Modified <==> history.old_value.len() > 0 && history.new_value.len()
            > 0 && history.old_value != history.new_value,
        classify(history) is Unmodified <==> history.old_value.len() > 0
            && history.new_value.len() > 0 && history.old_value == history.new_value,
        classify(history) is Added <==> history.old_value.len() == 0,
        classify(history) is Removed <==> history.new_value.len() == 0,
{
}

/// A line that begins neither with `CONFIG` nor with `#`, and does not
/// after trimming either, gives no parameter.
pub proof fn lemma_other_lines_give_nothing(line: Seq<char>)
    requires
        !"CONFIG"@.is_prefix_of(line),
        !(line.len() > 0 && line[0] == '#'),
        !"CONFIG"@.is_prefix_of(trimmed(line)),
        !(trimmed(line).len() > 0 && trimmed(line)[0] == '#'),
    ensures
        line_shape(line) is Ignored,
        name_and_value(line) is None,
{
}

/// Only a line that begins with `CONFIG` after trimming can fail to be
/// split: what ends with `is not set` holds a space.
pub proof fn lemma_only_assignments_are_malformed(line: Seq<char>)
    requires
        line_shape(line) is Malformed,
    ensures
        "CONFIG"@.is_prefix_of(trimmed(line)),
{
    reveal_strlit("is not set");
    let text = trimmed(line);
    if !"CONFIG"@.is_prefix_of(text) {
        let rest = trimmed(text.skip(1));
        let space = rest.len() - 8;
        assert(rest[space] == "is not set"@[2]) by {
            assert(rest.subrange(rest.len() - 10, rest.len() as int)[2] == rest[space]);
        }
        lemma_first_index_is_first(rest, ' ');
    }
}

/// A line made of a key that begins with `CONFIG` and holds no `=`, of
/// `=`, and of a value that does not end in white space, gives that key
/// and that value. The value may be empty.
pub proof fn lemma_assignment_line(key: Seq<char>, value: Seq<char>)
    requires
        "CONFIG"@.is_prefix_of(key),
        !key.contains('='),
        value.len() > 0 ==> !white_space(value.last()),
    ensures
        name_and_value(key + seq!['='] + value) == Some((key, value)),
{
    reveal_strlit("CONFIG");
    let line = key + seq!['='] + value;
    assert(key[0] == "CONFIG"@.subrange(0, 6)[0]);
    assert(line[0] == 'C');
    assert(line.last() == if value.len() > 0 {
        value.last()
    } else {
        '='
    });
    lemma_trimmed_bare(line);
    assert("CONFIG"@ =~= line.subrange(0, 6)) by {
        assert(key.subrange(0, 6) =~= line.subrange(0, 6));
    }
    assert forall|k: int| 0 <= k < key.len() implies line[k] != '=' by {
        assert(key.contains(key[k]));
    }
    lemma_first_index(line, '=', key.len() as int);
    assert(line.take(key.len() as int) =~= key);
    assert(line.skip(key.len() as int + 1) =~= value);
}

/// The line `# `, then a key that begins with `CONFIG` and holds no
/// space, then ` is not set` gives that key and the value `is not set`.
pub proof fn lemma_disabled_line(key: Seq<char>)
    requires
        "CONFIG"@.is_prefix_of(key),
        !key.contains(' '),
    ensures
        name_and_value("# "@ + key + " is not set"@) == Some((key, "is not set"@)),
{
    reveal_strlit("CONFIG");
    reveal_strlit("# ");
    reveal_strlit(" is not set");
    reveal_strlit("is not set");
    let line = "# "@ + key + " is not set"@;
    let rest = key + " is not set"@;
    assert(key[0] == "CONFIG"@.subrange(0, 6)[0]);
    assert(line[0] == '#');
    assert(line.last() == 't');
    lemma_trimmed_bare(line);
    let tail = line.skip(1);
    assert(tail[0] == ' ');
    assert(tail.drop_first() =~= rest);
    assert(rest[0] == 'C');
    assert(rest.last() == 't');
    lemma_trimmed_bare(rest);
    assert(trimmed(tail) == rest);
    assert("CONFIG"@ =~= rest.subrange(0, 6)) by {
        assert(key.subrange(0, 6) =~= rest.subrange(0, 6));
    }
    assert("is not set"@ =~= rest.subrange(rest.len() - 10, rest.len() as int));
    assert forall|k: int| 0 <= k < key.len() implies rest[k] != ' ' by {
        assert(key.contains(key[k]));
    }
    assert(rest[key.len() as int] == ' ');
    lemma_first_index(rest, ' ', key.len() as int);
    assert(rest.take(key.len() as int) =~= key);
    assert(rest.skip(key.len() as int + 1) =~= "is not set"@);
}

impl ChangeType {
    /// The name under which this kind of change is printed.
    pub fn name(self) -> (name: &'static str)
        ensures
            name@ == kind_name(self),
    {
        match self {
            ChangeType::Modified => "Modified",
            ChangeType::Unmodified => "Unmodified",
            ChangeType::Added => "Added",
            ChangeType::Removed => "Removed",
        }
    }
}

/// Starts the history of a parameter first met with `value` in file
/// `idx`.
pub fn new_values_sequence(idx: usize, value: &str) -> (sequence: ValuesSequence)
    requires
        idx < 2,
    ensures
        history_of(sequence) == ValueHistory::starting(idx as int, value@),
{
    let mut sequence = [String::new(), String::new()];
    sequence[idx] = value.to_owned();
    sequence
}

/// Records `value` as the parameter's value in file `idx`, unless that
/// file has given it a value already: the first one stays. Returns whether
/// the value was recorded.
pub fn update_values_sequence(state: &mut ValuesSequence, idx: usize, value: &str) -> (updated:
    bool)
    requires
        idx < 2,
    ensures
        updated == (history_of(*old(state)).slot(idx as int).len() == 0),
        updated ==> history_of(*final(state)) == history_of(*old(state)).with_slot(
            idx as int,
            value@,
        ),
        !updated ==> *final(state) == *old(state),
{
    let target = &mut state[idx];
    if target.as_str().is_empty() {
        *target = value.to_owned();
        true
    } else {
        false
    }
}

/// Classifies a history in which at least one file sets the parameter.
pub fn analyze_changes(sequence: &ValuesSequence) -> (kind: ChangeType)
    requires
        history_of(*sequence).present(),
    ensures
        kind == classify(history_of(*sequence)),
        kind is Modified <==> sequence@[0]@.len() > 0 && sequence@[1]@.len() > 0 && sequence@[0]@
            != sequence@[1]@,
        kind is Unmodified <==> sequence@[0]@.len() > 0 && sequence@[1]@.len() > 0 && sequence@[0]@
            == sequence@[1]@,
        kind is Added <==> sequence@[0]@.len() == 0,
        kind is Removed <==> sequence@[1]@.len() == 0,
{
    let old_present = !sequence[0].as_str().is_empty();
    let new_present = !sequence[1].as_str().is_empty();
    if old_present && new_present {
        if sequence[0] == sequence[1] {
            ChangeType::Unmodified
        } else {
            ChangeType::Modified
        }
    } else if new_present {
        ChangeType::Added
    } else {
        ChangeType::Removed
    }
}

/// Reads one line of a configuration file.
pub fn scan_line<'a>(line: &'a str) -> (parsed: ParsedLine<'a>)
    ensures
        parsed@ == line_shape(line@),
{
    let chars = to_chars(line);
    let (lo, hi) = trim_range(&chars, 0, chars.len());
    assert(chars@.subrange(0, chars.len() as int) =~= line@);
    let ghost text = trimmed(line@);
    proof {
        reveal_strlit("CONFIG");
    }
    if lo == hi {
        return ParsedLine::Ignored;
    }
    if range_starts_with(&chars, lo, hi, "CONFIG") {
        match find_in_range(&chars, lo, hi, '=') {
            Some(at) => {
                let key = line.substring_char(lo, at);
                let value = line.substring_char(at + 1, hi);
                assert(key@ =~= text.take(at - lo));
                assert(value@ =~= text.skip(at - lo + 1));
                ParsedLine::Pair(key, value)
            },
            None => ParsedLine::Malformed(line.substring_char(lo, hi)),
        }
    } else if chars[lo] == '#' {
        assert(text.skip(1) =~= chars@.subrange(lo + 1, hi as int));
        let (from, to) = trim_range(&chars, lo + 1, hi);
        let ghost rest = trimmed(text.skip(1));
        if range_starts_with(&chars, from, to, "CONFIG") && range_ends_with(
            &chars,
            from,
            to,
            "is not set",
        ) {
            match find_in_range(&chars, from, to, ' ') {
                Some(at) => {
                    let key = line.substring_char(from, at);
                    let value = line.substring_char(at + 1, to);
                    assert(key@ =~= rest.take(at - from));
                    assert(value@ =~= rest.skip(at - from + 1));
                    ParsedLine::Pair(key, value)
                },
                None => ParsedLine::Malformed(line.substring_char(from, to)),
            }
        } else {
            ParsedLine::Ignored
        }
    } else {
        ParsedLine::Ignored
    }
}

/// Extracts the parameter and its value from one line of a
/// configuration file.
pub fn parse_name_and_value<'a>(line: &'a str) -> (pair: Option<(&'a str, &'a str)>)
    ensures
        match pair {
            Some((key, value)) => name_and_value(line@) == Some((key@, value@)),
            None => name_and_value(line@) is None,
        },
{
    match scan_line(line) {
        ParsedLine::Pair(key, value) => Some((key, value)),
        _ => None,
    }
}

} // verus!
