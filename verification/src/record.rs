//! Records and the line-by-line parser that produces them.
//!
//! The input is a sequence of text lines. Marker lines set the fields of the
//! record being read; a blank line closes it and emits a [`Record`] with the
//! fields as they stand. Fields are never reset: a record that sets no title
//! of its own is emitted with the title that was set last. Until a first
//! identifier line has been read a blank line emits nothing, and lines after
//! the last blank line emit nothing either.

use crate::text::{
    blank, chars_of, copy_strings, is_blank, remove_all, split_words, starts_with, string_of,
    trim_bounds, trimmed, without, words,
};
use vstd::prelude::*;

verus! {

/// One product entry: its identifier, title, category, and the identifiers
/// of the products it names as similar.
#[derive(Debug)]
pub struct Record {
    pub identifier: String,
    pub title: String,
    pub category: String,
    pub related: Vec<String>,
}

/// The mathematical content of a [`Record`].
pub struct RecordModel {
    pub identifier: Seq<char>,
    pub title: Seq<char>,
    pub category: Seq<char>,
    pub related: Seq<Seq<char>>,
}

impl DeepView for Record {
    type V = RecordModel;

    open spec fn deep_view(&self) -> RecordModel {
        RecordModel {
            identifier: self.identifier@,
            title: self.title@,
            category: self.category@,
            related: self.related.deep_view(),
        }
    }
}

/// The fields accumulated so far. `identifier` is `None` until the first
/// identifier line.
pub struct ParserModel {
    pub identifier: Option<Seq<char>>,
    pub title: Seq<char>,
    pub category: Seq<char>,
    pub related: Seq<Seq<char>>,
}

/// The prefix of a line that sets the identifier.
pub open spec fn identifier_marker() -> Seq<char> {
    "ASIN: "@
}

/// The prefix of a line that sets the title.
pub open spec fn title_marker() -> Seq<char> {
    "  title: "@
}

/// The prefix of a line that sets the category.
pub open spec fn category_marker() -> Seq<char> {
    "  group: "@
}

/// The prefix of a line that sets the related identifiers.
pub open spec fn similar_marker() -> Seq<char> {
    "  similar: "@
}

/// What a line is to the parser. The markers are tried in this order, and
/// only a line that bears none of them can close a record.
pub enum LineKind {
    Identifier,
    Title,
    Category,
    Similar,
    End,
    Other,
}

/// The kind of `line`.
pub open spec fn kind_of(line: Seq<char>) -> LineKind {
    if identifier_marker().is_prefix_of(line) {
        LineKind::Identifier
    } else if title_marker().is_prefix_of(line) {
        LineKind::Title
    } else if category_marker().is_prefix_of(line) {
        LineKind::Category
    } else if similar_marker().is_prefix_of(line) {
        LineKind::Similar
    } else if blank(line) {
        LineKind::End
    } else {
        LineKind::Other
    }
}

/// The value that a marker line carries: the line with the marker cut out
/// wherever it occurs, then trimmed.
pub open spec fn field_value(line: Seq<char>, marker: Seq<char>) -> Seq<char> {
    trimmed(without(line, marker))
}

/// The related identifiers that a similar line carries: its words after the
/// marker is cut out, but for the first word, which is a count that is
/// dropped without being looked at.
pub open spec fn related_of(line: Seq<char>) -> Seq<Seq<char>> {
    let tokens = words(without(line, similar_marker()));
    if tokens.len() > 0 {
        tokens.skip(1)
    } else {
        tokens
    }
}

/// The state before the first line.
pub open spec fn initial() -> ParserModel {
    ParserModel {
        identifier: None,
        title: Seq::empty(),
        category: Seq::empty(),
        related: Seq::empty(),
    }
}

/// The state after reading `line` in state `state`.
pub open spec fn step(state: ParserModel, line: Seq<char>) -> ParserModel {
    match kind_of(line) {
        LineKind::Identifier => ParserModel {
            identifier: Some(field_value(line, identifier_marker())),
            ..state
        },
        LineKind::Title => ParserModel { title: field_value(line, title_marker()), ..state },
        LineKind::Category => ParserModel {
            category: field_value(line, category_marker()),
            ..state
        },
        LineKind::Similar => ParserModel { related: related_of(line), ..state },
        LineKind::End => state,
        LineKind::Other => state,
    }
}

/// The record that reading `line` in state `state` emits, if any: a blank
/// line emits the fields as they stand, once an identifier has been read.
pub open spec fn emitted(state: ParserModel, line: Seq<char>) -> Option<RecordModel> {
    if kind_of(line) is End && state.identifier is Some {
        Some(
            RecordModel {
                identifier: state.identifier->0,
                title: state.title,
                category: state.category,
                related: state.related,
            },
        )
    } else {
        None
    }
}

/// The state after reading all of `lines` from `state`.
pub open spec fn run(state: ParserModel, lines: Seq<Seq<char>>) -> ParserModel
    decreases lines.len(),
{
    if lines.len() == 0 {
        state
    } else {
        step(run(state, lines.drop_last()), lines.last())
    }
}

/// The records that reading all of `lines` from `state` emits, in order.
pub open spec fn records_from(state: ParserModel, lines: Seq<Seq<char>>) -> Seq<RecordModel>
    decreases lines.len(),
{
    if lines.len() == 0 {
        Seq::empty()
    } else {
        let before = records_from(state, lines.drop_last());
        match emitted(run(state, lines.drop_last()), lines.last()) {
            Some(record) => before.push(record),
            None => before,
        }
    }
}

/// The records of a whole input.
pub open spec fn records(lines: Seq<Seq<char>>) -> Seq<RecordModel> {
    records_from(initial(), lines)
}

/// A blank line bears no marker, so every blank line closes a record.
pub proof fn lemma_blank_line_ends(line: Seq<char>)
    requires
        blank(line),
    ensures
        kind_of(line) is End,
{
    reveal_strlit("ASIN: ");
    reveal_strlit("  title: ");
    reveal_strlit("  group: ");
    reveal_strlit("  similar: ");
    if identifier_marker().is_prefix_of(line) {
        assert(line[0] == identifier_marker()[0]);
    }
    if title_marker().is_prefix_of(line) {
        assert(line[2] == title_marker()[2]);
    }
    if category_marker().is_prefix_of(line) {
        assert(line[2] == category_marker()[2]);
    }
    if similar_marker().is_prefix_of(line) {
        assert(line[2] == similar_marker()[2]);
    }
}

/// Lines that close no record emit none: what follows the last blank line
/// of an input is dropped.
pub proof fn lemma_unclosed_tail_dropped(lines: Seq<Seq<char>>, tail: Seq<Seq<char>>)
    requires
        forall|j: int| 0 <= j < tail.len() ==> !(kind_of(#[trigger] tail[j]) is End),
    ensures
        records(lines + tail) == records(lines),
    decreases tail.len(),
{
    if tail.len() == 0 {
        assert(lines + tail =~= lines);
    } else {
        let front = tail.drop_last();
        assert((lines + tail).drop_last() =~= lines + front);
        assert((lines + tail).last() == tail[tail.len() - 1]);
        assert forall|j: int| 0 <= j < front.len() implies !(kind_of(#[trigger] front[j]) is End) by {
            assert(front[j] == tail[j]);
        }
        lemma_unclosed_tail_dropped(lines, front);
    }
}

/// Until a line sets an identifier, no record is emitted.
pub proof fn lemma_no_record_before_identifier(lines: Seq<Seq<char>>)
    requires
        forall|j: int| 0 <= j < lines.len() ==> !(kind_of(#[trigger] lines[j]) is Identifier),
    ensures
        run(initial(), lines).identifier is None,
        records(lines) == Seq::<RecordModel>::empty(),
    decreases lines.len(),
{
    if lines.len() > 0 {
        let front = lines.drop_last();
        assert forall|j: int| 0 <= j < front.len() implies !(kind_of(#[trigger] front[j])
            is Identifier) by {
            assert(front[j] == lines[j]);
        }
        lemma_no_record_before_identifier(front);
        assert(!(kind_of(lines[lines.len() - 1]) is Identifier));
    }
}

/// The parser: the fields read so far, and the four markers as characters.
pub struct RecordParser {
    identifier: Option<String>,
    title: String,
    category: String,
    related: Vec<String>,
    identifier_marker: Vec<char>,
    title_marker: Vec<char>,
    category_marker: Vec<char>,
    similar_marker: Vec<char>,
}

impl View for RecordParser {
    type V = ParserModel;

    closed spec fn view(&self) -> ParserModel {
        ParserModel {
            identifier: match self.identifier {
                Some(id) => Some(id@),
                None => None,
            },
            title: self.title@,
            category: self.category@,
            related: self.related.deep_view(),
        }
    }
}

impl RecordParser {
    /// The markers held by the parser are the four markers of the format.
    pub closed spec fn wf(&self) -> bool {
        &&& self.identifier_marker@ == identifier_marker()
        &&& self.title_marker@ == title_marker()
        &&& self.category_marker@ == category_marker()
        &&& self.similar_marker@ == similar_marker()
    }

    /// A parser that has read nothing.
    pub fn new() -> (parser: Self)
        ensures
            parser.wf(),
            parser@ == initial(),
    {
        let parser = RecordParser {
            identifier: None,
            title: String::new(),
            category: String::new(),
            related: Vec::new(),
            identifier_marker: chars_of("ASIN: "),
            title_marker: chars_of("  title: "),
            category_marker: chars_of("  group: "),
            similar_marker: chars_of("  similar: "),
        };
        assert(parser.related.deep_view() =~= Seq::<Seq<char>>::empty());
        parser
    }

    /// Reads one line: updates the fields, and hands out the record that the
    /// line closes, if it closes one.
    pub fn feed(&mut self, line: &str) -> (out: Option<Record>)
        requires
            old(self).wf(),
        ensures
            final(self).wf(),
            final(self)@ == step(old(self)@, line@),
            out.deep_view() == emitted(old(self)@, line@),
    {
        let chars = chars_of(line);
        if starts_with(&chars, &self.identifier_marker) {
            self.identifier = Some(value_after(&chars, &self.identifier_marker));
            None
        } else if starts_with(&chars, &self.title_marker) {
            self.title = value_after(&chars, &self.title_marker);
            None
        } else if starts_with(&chars, &self.category_marker) {
            self.category = value_after(&chars, &self.category_marker);
            None
        } else if starts_with(&chars, &self.similar_marker) {
            let tokens = split_words(&remove_all(&chars, &self.similar_marker));
            self.related = drop_count(tokens);
            None
        } else if is_blank(&chars) {
            match &self.identifier {
                Some(identifier) => {
                    let related = copy_strings(&self.related);
                    Some(
                        Record {
                            identifier: identifier.clone(),
                            title: self.title.clone(),
                            category: self.category.clone(),
                            related,
                        },
                    )
                },
                None => None,
            }
        } else {
            None
        }
    }
}

/// The value of a marker line, as a string.
fn value_after(chars: &Vec<char>, marker: &Vec<char>) -> (out: String)
    ensures
        out@ == field_value(chars@, marker@),
{
    let rest = remove_all(chars, marker);
    let (from, to) = trim_bounds(&rest);
    string_of(&rest, from, to)
}

/// The tokens without the first one.
fn drop_count(tokens: Vec<String>) -> (out: Vec<String>)
    ensures
        out.deep_view() == if tokens.len() > 0 {
            tokens.deep_view().skip(1)
        } else {
            tokens.deep_view()
        },
{
    let mut tokens = tokens;
    if tokens.len() > 0 {
        let ghost before = tokens.deep_view();
        tokens.remove(0);
        assert(tokens.deep_view() =~= before.skip(1));
    }
    tokens
}

/// All the records of `lines`, in order.
pub fn parse_records(lines: &Vec<String>) -> (out: Vec<Record>)
    ensures
        out.deep_view() == records(lines.deep_view()),
{
    let mut parser = RecordParser::new();
    let mut out: Vec<Record> = Vec::new();
    let mut i: usize = 0;
    assert(out.deep_view() =~= Seq::<RecordModel>::empty());
    while i < lines.len()
        invariant
            i <= lines.len(),
            parser.wf(),
            parser@ == run(initial(), lines.deep_view().take(i as int)),
            out.deep_view() == records(lines.deep_view().take(i as int)),
        decreases lines.len() - i,
    {
        let ghost before = out.deep_view();
        let ghost read = lines.deep_view().take(i as int);
        let ghost next = lines.deep_view().take(i + 1);
        assert(next.drop_last() =~= read);
        assert(next.last() == lines[i as int]@);
        match parser.feed(lines[i].as_str()) {
            Some(record) => {
                out.push(record);
                assert(out.deep_view() =~= before.push(record.deep_view()));
            },
            None => {},
        }
        i += 1;
    }
    assert(lines.deep_view().take(lines.len() as int) =~= lines.deep_view());
    out
}

} // verus!
