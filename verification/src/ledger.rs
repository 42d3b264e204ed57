//! The ledger: the text that records, line by line, which modules are done.
//!
//! A record is a line of exactly two words, the module's name and its status.
//! The status `0` marks a module that is still to be done. A line that is not
//! a record is passed over when the ledger is read.

use crate::text::{
    char_is_whitespace, chars_of, is_blank, is_whitespace, is_word, lemma_blank_has_no_words,
    lemma_len_before_bounds, lemma_len_before_is, lemma_words_of_leading_space,
    lemma_words_of_leading_word, line_len, position_of, split_words, words_of,
};
use vstd::prelude::*;

verus! {

/// One record of the ledger, as the text holds it.
#[derive(Debug, Clone, PartialEq, Eq)]
pub struct Record {
    pub name: String,
    pub status: String,
}

/// A record as a pair of texts.
pub struct RecordView {
    pub name: Seq<char>,
    pub status: Seq<char>,
}

impl View for Record {
    type V = RecordView;

    open spec fn view(&self) -> RecordView {
        RecordView { name: self.name@, status: self.status@ }
    }
}

impl DeepView for Record {
    type V = RecordView;

    open spec fn deep_view(&self) -> RecordView {
        self@
    }
}

/// What the selector answers.
#[derive(Debug, Clone, PartialEq, Eq)]
pub enum Selection {
    /// The module to run next.
    Module(String),
    /// The ledger holds content, and no record of it is still to be done.
    AllComplete,
    /// The ledger holds nothing but white space.
    NoModules,
}

/// A selection over texts.
pub enum SelectionView {
    Module(Seq<char>),
    AllComplete,
    NoModules,
}

impl View for Selection {
    type V = SelectionView;

    open spec fn view(&self) -> SelectionView {
        match self {
            Selection::Module(name) => SelectionView::Module(name@),
            Selection::AllComplete => SelectionView::AllComplete,
            Selection::NoModules => SelectionView::NoModules,
        }
    }
}

/// The status that marks a module as still to be done.
pub open spec fn incomplete_status() -> Seq<char> {
    seq!['0']
}

/// Whether the record marks its module as still to be done.
pub open spec fn is_incomplete(record: RecordView) -> bool {
    record.status == incomplete_status()
}

/// The record that a line holds: one where the line is exactly two words.
pub open spec fn record_of_line(line: Seq<char>) -> Option<RecordView> {
    let words = words_of(line);
    if words.len() == 2 {
        Some(RecordView { name: words[0], status: words[1] })
    } else {
        None
    }
}

/// The records of a ledger text, in the order of its lines.
pub open spec fn records_of(text: Seq<char>) -> Seq<RecordView>
    decreases text.len(),
    via records_of_decreases
{
    if text.len() == 0 {
        Seq::empty()
    } else {
        let n = line_len(text) as int;
        let rest = if n < text.len() {
            records_of(text.skip(n + 1))
        } else {
            Seq::empty()
        };
        match record_of_line(text.take(n)) {
            Some(record) => seq![record] + rest,
            None => rest,
        }
    }
}

#[via_fn]
proof fn records_of_decreases(text: Seq<char>) {
    lemma_len_before_bounds(text, '\n');
}

/// Whether no record of the text is still to be done.
pub open spec fn ledger_complete(text: Seq<char>) -> bool {
    forall|i: int|
        0 <= i < records_of(text).len() ==> !is_incomplete(#[trigger] records_of(text)[i])
}

/// The name of the first record that is still to be done.
pub open spec fn first_incomplete(records: Seq<RecordView>) -> Option<Seq<char>>
    decreases records.len(),
{
    if records.len() == 0 {
        None
    } else if is_incomplete(records[0]) {
        Some(records[0].name)
    } else {
        first_incomplete(records.drop_first())
    }
}

/// The selection that a ledger text calls for: its first record that is still
/// to be done; failing that, `NoModules` for a blank text and `AllComplete`
/// for any other.
pub open spec fn selection_of(text: Seq<char>) -> SelectionView {
    match first_incomplete(records_of(text)) {
        Some(name) => SelectionView::Module(name),
        None => if is_blank(text) {
            SelectionView::NoModules
        } else {
            SelectionView::AllComplete
        },
    }
}

/// The line that records `name` as still to be done.
pub open spec fn ledger_line(name: Seq<char>) -> Seq<char> {
    name + seq![' ', '0', '\n']
}

/// The text of a new ledger: one line for each name, in the order given, each
/// marked as still to be done.
pub open spec fn ledger_text(names: Seq<Seq<char>>) -> Seq<char>
    decreases names.len(),
{
    if names.len() == 0 {
        Seq::empty()
    } else {
        ledger_line(names[0]) + ledger_text(names.drop_first())
    }
}

/// The records of a new ledger for `names`: one for each name, in the order
/// given, each marked as still to be done.
pub open spec fn fresh_records(names: Seq<Seq<char>>) -> Seq<RecordView> {
    Seq::new(names.len(), |i: int| RecordView { name: names[i], status: incomplete_status() })
}

/// Whether each of `names` is a word, so that a line can hold it.
pub open spec fn all_words(names: Seq<Seq<char>>) -> bool {
    forall|i: int| 0 <= i < names.len() ==> is_word(#[trigger] names[i])
}

/// One more name adds its line to the end of the ledger text.
pub proof fn lemma_ledger_text_push(names: Seq<Seq<char>>, name: Seq<char>)
    ensures
        ledger_text(names.push(name)) == ledger_text(names) + ledger_line(name),
    decreases names.len(),
{
    let all = names.push(name);
    if names.len() == 0 {
        assert(all.drop_first() =~= names);
        assert(all[0] == name);
        assert(ledger_text(all) =~= ledger_line(name) + ledger_text(names));
        assert(ledger_text(names) + ledger_line(name) =~= ledger_line(name));
    } else {
        assert(all.drop_first() =~= names.drop_first().push(name));
        assert(all[0] == names[0]);
        lemma_ledger_text_push(names.drop_first(), name);
        assert(ledger_text(all) =~= ledger_text(names) + ledger_line(name));
    }
}

/// A line that records a word as still to be done reads back as that record.
pub proof fn lemma_ledger_line_reads_back(name: Seq<char>, rest: Seq<char>)
    requires
        is_word(name),
    ensures
        records_of(ledger_line(name) + rest) == seq![
            RecordView { name, status: incomplete_status() },
        ] + records_of(rest),
{
    let text = ledger_line(name) + rest;
    let n = name.len() as int + 2;
    assert(text.len() == name.len() + 3 + rest.len());
    assert forall|k: int| 0 <= k < n implies text[k] != '\n' by {
        if k < name.len() {
            assert(text[k] == name[k]);
            assert(!is_whitespace(name[k]));
        }
    }
    assert(text[n] == '\n');
    lemma_len_before_is(text, '\n', n);
    let status = incomplete_status();
    let tail = seq![' '] + status;
    assert(text.take(n) =~= name + tail);
    assert(text.skip(n + 1) =~= rest);
    assert(tail[0] == ' ');
    lemma_words_of_leading_word(name, tail);
    lemma_words_of_leading_space(' ', status);
    assert(is_word(status));
    lemma_words_of_leading_word(status, Seq::<char>::empty());
    assert(status + Seq::<char>::empty() =~= status);
    assert(words_of(text.take(n)) =~= seq![name, status]);
    if n + 1 == text.len() {
        assert(rest =~= Seq::<char>::empty());
    }
}

/// Writing a ledger for `names` and reading it back gives one record for each
/// name, in the order given, each marked as still to be done. This holds where
/// each name is a word: one that is empty or holds white space does not fill
/// the first of a line's two words.
pub proof fn lemma_ledger_round_trip(names: Seq<Seq<char>>)
    requires
        all_words(names),
    ensures
        records_of(ledger_text(names)) == fresh_records(names),
    decreases names.len(),
{
    if names.len() == 0 {
        assert(records_of(ledger_text(names)) =~= fresh_records(names));
    } else {
        let rest = names.drop_first();
        assert forall|i: int| 0 <= i < rest.len() implies is_word(#[trigger] rest[i]) by {
            assert(rest[i] == names[i + 1]);
        }
        lemma_ledger_round_trip(rest);
        lemma_ledger_line_reads_back(names[0], ledger_text(rest));
        assert(seq![RecordView { name: names[0], status: incomplete_status() }] + fresh_records(
            rest,
        ) =~= fresh_records(names));
    }
}

/// A blank ledger holds no record.
pub proof fn lemma_blank_has_no_records(text: Seq<char>)
    requires
        is_blank(text),
    ensures
        records_of(text) == Seq::<RecordView>::empty(),
    decreases text.len(),
{
    if text.len() > 0 {
        lemma_len_before_bounds(text, '\n');
        let n = line_len(text) as int;
        let line = text.take(n);
        assert forall|i: int| 0 <= i < line.len() implies is_whitespace(#[trigger] line[i]) by {
            assert(line[i] == text[i]);
        }
        lemma_blank_has_no_words(line);
        if n < text.len() {
            let rest = text.skip(n + 1);
            assert forall|i: int| 0 <= i < rest.len() implies is_whitespace(#[trigger] rest[i]) by {
                assert(rest[i] == text[i + n + 1]);
            }
            lemma_blank_has_no_records(rest);
        }
    }
}

/// The selector names a module exactly where some record is still to be done,
/// and the module it names is that of the first such record.
pub proof fn lemma_first_incomplete(records: Seq<RecordView>)
    ensures
        match first_incomplete(records) {
            Some(name) => exists|i: int|
                0 <= i < records.len() && is_incomplete(#[trigger] records[i]) && records[i].name
                    == name && forall|j: int| 0 <= j < i ==> !is_incomplete(#[trigger] records[j]),
            None => forall|i: int| 0 <= i < records.len() ==> !is_incomplete(#[trigger] records[i]),
        },
    decreases records.len(),
{
    if records.len() > 0 && !is_incomplete(records[0]) {
        let rest = records.drop_first();
        lemma_first_incomplete(rest);
        match first_incomplete(rest) {
            Some(name) => {
                let i = choose|i: int|
                    0 <= i < rest.len() && is_incomplete(#[trigger] rest[i]) && rest[i].name == name
                        && forall|j: int| 0 <= j < i ==> !is_incomplete(#[trigger] rest[j]);
                assert(records[i + 1] == rest[i]);
                assert forall|j: int| 0 <= j < i + 1 implies !is_incomplete(
                    #[trigger] records[j],
                ) by {
                    if j > 0 {
                        assert(records[j] == rest[j - 1]);
                    }
                }
            },
            None => {
                assert forall|i: int| 0 <= i < records.len() implies !is_incomplete(
                    #[trigger] records[i],
                ) by {
                    if i > 0 {
                        assert(records[i] == rest[i - 1]);
                    }
                }
            },
        }
    } else if records.len() > 0 {
        assert(is_incomplete(records[0]));
    }
}

/// A ledger is complete exactly where the selector names no module. Of the two
/// other answers, a blank ledger gets `NoModules` and any other `AllComplete`;
/// the empty ledger is complete and gets `NoModules`.
pub proof fn lemma_complete_iff_none_selected(text: Seq<char>)
    ensures
        ledger_complete(text) <==> !(selection_of(text) is Module),
        ledger_complete(text) && is_blank(text) <==> selection_of(text) == SelectionView::NoModules,
        ledger_complete(text) && !is_blank(text) <==> selection_of(text)
            == SelectionView::AllComplete,
        is_blank(text) ==> ledger_complete(text),
        text.len() == 0 ==> selection_of(text) == SelectionView::NoModules,
{
    lemma_first_incomplete(records_of(text));
    if is_blank(text) {
        lemma_blank_has_no_records(text);
    }
}

/// A ledger that holds records, each of them with the status `1`, is complete,
/// and the selector answers `AllComplete` for it.
pub proof fn lemma_all_done_ledger(text: Seq<char>)
    requires
        records_of(text).len() > 0,
        forall|i: int|
            0 <= i < records_of(text).len() ==> (#[trigger] records_of(text)[i]).status == seq![
                '1',
            ],
    ensures
        ledger_complete(text),
        selection_of(text) == SelectionView::AllComplete,
{
    assert forall|i: int| 0 <= i < records_of(text).len() implies !is_incomplete(
        #[trigger] records_of(text)[i],
    ) by {
        let status = records_of(text)[i].status;
        assert(status[0] == '1');
    }
    if is_blank(text) {
        lemma_blank_has_no_records(text);
    }
    lemma_complete_iff_none_selected(text);
}

/// The selector answers by the text alone: two answers for one text are the
/// same answer.
pub proof fn lemma_selection_repeats(text: Seq<char>, first: Selection, second: Selection)
    requires
        first@ == selection_of(text),
        second@ == selection_of(text),
    ensures
        first@ == second@,
{
}

/// A new ledger for names that are words is not complete unless it is empty,
/// and the selector names the first of them.
pub proof fn lemma_fresh_ledger_selects_first(names: Seq<Seq<char>>)
    requires
        all_words(names),
        names.len() > 0,
    ensures
        !ledger_complete(ledger_text(names)),
        selection_of(ledger_text(names)) == SelectionView::Module(names[0]),
{
    lemma_ledger_round_trip(names);
    let records = records_of(ledger_text(names));
    assert(is_incomplete(records[0]));
}

impl Record {
    /// Whether the record marks its module as still to be done.
    pub fn is_incomplete(&self) -> (b: bool)
        ensures
            b == is_incomplete(self@),
    {
        let status = self.status.as_str();
        let b = status.unicode_len() == 1 && status.get_char(0) == '0';
        proof {
            if b {
                assert(self.status@ =~= incomplete_status());
            }
        }
        b
    }
}

/// Reads the records of a ledger text. Lines that are not records are passed
/// over.
pub fn parse_ledger(content: &str) -> (records: Vec<Record>)
    ensures
        records.deep_view() == records_of(content@),
{
    let chars = chars_of(content);
    let n = chars.len();
    let mut records: Vec<Record> = Vec::new();
    let mut pos: usize = 0;
    assert(chars@.skip(0) =~= chars@);
    assert(records.deep_view() + records_of(chars@) =~= records_of(chars@));
    while pos < n
        invariant
            pos <= n,
            n == chars.len(),
            records_of(chars@) == records.deep_view() + records_of(chars@.skip(pos as int)),
        decreases n - pos,
    {
        let ghost rest = chars@.skip(pos as int);
        let ghost before = records.deep_view();
        let end = position_of(&chars, pos, '\n');
        let mut words = split_words(&chars, pos, end);
        assert(rest.take(end - pos) =~= chars@.subrange(pos as int, end as int));
        let next = if end < n {
            end + 1
        } else {
            n
        };
        proof {
            if end < n {
                assert(rest.skip(end - pos + 1) =~= chars@.skip(next as int));
            } else {
                assert(chars@.skip(next as int) =~= Seq::<char>::empty());
            }
        }
        if words.len() == 2 {
            let status = words.pop().unwrap();
            let name = words.pop().unwrap();
            let record = Record { name, status };
            records.push(record);
            proof {
                assert(records.deep_view() =~= before.push(record@));
                assert(before.push(record@) + records_of(chars@.skip(next as int)) =~= before + (
                seq![record@] + records_of(chars@.skip(next as int))));
            }
        }
        pos = next;
    }
    assert(records.deep_view() + Seq::<RecordView>::empty() =~= records.deep_view());
    records
}

/// Writes the text of a new ledger: one line for each module, in the order
/// given, each marked as still to be done.
pub fn render_ledger(modules: &Vec<String>) -> (text: String)
    ensures
        text@ == ledger_text(modules.deep_view()),
{
    let mut text = String::new();
    let ghost names = modules.deep_view();
    for i in 0..modules.len()
        invariant
            names == modules.deep_view(),
            text@ == ledger_text(names.take(i as int)),
    {
        proof {
            reveal_strlit(" 0\n");
            lemma_ledger_text_push(names.take(i as int), names[i as int]);
            assert(names.take(i as int).push(names[i as int]) =~= names.take(i + 1));
            assert(" 0\n"@ =~= seq![' ', '0', '\n']);
        }
        text.append(modules[i].as_str());
        text.append(" 0\n");
        assert(text@ =~= ledger_text(names.take(i as int)) + ledger_line(names[i as int]));
    }
    assert(names.take(modules.len() as int) =~= names);
    text
}

/// Tells whether the ledger holds no record that is still to be done. A
/// ledger without records is complete.
pub fn is_complete(content: &str) -> (done: bool)
    ensures
        done == ledger_complete(content@),
{
    let records = parse_ledger(content);
    let mut i: usize = 0;
    while i < records.len()
        invariant
            i <= records.len(),
            records.deep_view() == records_of(content@),
            forall|k: int| 0 <= k < i ==> !is_incomplete(#[trigger] records_of(content@)[k]),
        decreases records.len() - i,
    {
        assert(records.deep_view()[i as int] == records[i as int]@);
        if records[i].is_incomplete() {
            return false;
        }
        i += 1;
    }
    true
}

/// Tells whether `chars` holds nothing but white space.
pub fn all_whitespace(chars: &Vec<char>) -> (blank: bool)
    ensures
        blank == is_blank(chars@),
{
    let mut i: usize = 0;
    while i < chars.len()
        invariant
            i <= chars.len(),
            forall|k: int| 0 <= k < i ==> is_whitespace(#[trigger] chars[k]),
        decreases chars.len() - i,
    {
        if !char_is_whitespace(chars[i]) {
            return false;
        }
        i += 1;
    }
    true
}

/// Picks the module to run next: the first record of the ledger, in the order
/// of its lines, that is still to be done. Where there is none, the answer is
/// `NoModules` for a ledger of white space alone and `AllComplete` otherwise.
pub fn select_next(content: &str) -> (selection: Selection)
    ensures
        selection@ == selection_of(content@),
{
    let records = parse_ledger(content);
    let mut i: usize = 0;
    assert(records_of(content@).skip(0) =~= records_of(content@));
    while i < records.len()
        invariant
            i <= records.len(),
            records.deep_view() == records_of(content@),
            first_incomplete(records_of(content@)) == first_incomplete(
                records_of(content@).skip(i as int),
            ),
        decreases records.len() - i,
    {
        let ghost rest = records_of(content@).skip(i as int);
        assert(records.deep_view()[i as int] == records[i as int]@);
        assert(rest[0] == records[i as int]@);
        if records[i].is_incomplete() {
            return Selection::Module(records[i].name.clone());
        }
        assert(rest.drop_first() =~= records_of(content@).skip(i + 1));
        i += 1;
    }
    let chars = chars_of(content);
    if all_whitespace(&chars) {
        Selection::NoModules
    } else {
        Selection::AllComplete
    }
}

} // verus!
