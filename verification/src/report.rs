//! What is handed to the renderer: one compact record per entry, or one line
//! of text per entry.

use crate::host::{opt_text, RemoteHost, RemoteHostView};
use crate::outcome::{
    outcome_view, records_view, OutcomeView, Response, Responses, ResponsesView, RunResult,
};
use crate::text::{decimal, pad_left, padded_left, render_decimal};
use vstd::prelude::*;
use vstd::std_specs::convert::FromSpecImpl;
use vstd::string::*;

verus! {

/// The forms the output can take.
#[derive(Debug, Clone, Copy, PartialEq, Eq)]
pub enum Output {
    Json,
    Text,
    Table,
}

/// One entry of a host's record, reduced to what is shown of it.
#[derive(Debug, PartialEq, Eq)]
pub struct CompactResponse {
    pub remote_host: RemoteHost,
    /// The command's output, or the text of the error in its place.
    pub out: String,
    /// Milliseconds the command took; zero for an error.
    pub duration: u64,
    pub success: bool,
}

/// Model of a [`CompactResponse`].
pub struct CompactResponseView {
    pub remote_host: RemoteHostView,
    pub out: Seq<char>,
    pub duration: u64,
    pub success: bool,
}

impl View for CompactResponse {
    type V = CompactResponseView;

    open spec fn view(&self) -> CompactResponseView {
        CompactResponseView {
            remote_host: self.remote_host@,
            out: self.out@,
            duration: self.duration,
            success: self.success,
        }
    }
}

impl CompactResponse {
    pub fn new(remote_host: RemoteHost, output_or_error: String, success: bool, duration: u64) -> (compact:
        Self)
        ensures
            compact@ == (CompactResponseView {
                remote_host: remote_host@,
                out: output_or_error@,
                duration,
                success,
            }),
    {
        Self { remote_host, out: output_or_error, success, duration }
    }
}

/// Model of a list of compact records.
pub open spec fn compact_view(list: Seq<CompactResponse>) -> Seq<CompactResponseView> {
    list.map_values(|compact: CompactResponse| compact@)
}

/// The text shown for an entry: the command's output, or the text of the
/// error in its place.
pub open spec fn entry_text(entry: OutcomeView) -> Seq<char> {
    match entry {
        Ok(response) => response.out,
        Err(error) => error.message(),
    }
}

/// The compact record of one entry of `remote_host`.
pub open spec fn compact_of(remote_host: RemoteHostView, entry: OutcomeView) -> CompactResponseView {
    CompactResponseView {
        remote_host,
        out: entry_text(entry),
        duration: match entry {
            Ok(response) => response.duration,
            Err(_) => 0,
        },
        success: entry is Ok,
    }
}

/// The compact records of a host, one per entry, in the entries' order.
pub open spec fn compacted(record: ResponsesView) -> Seq<CompactResponseView> {
    record.responses.map_values(|entry: OutcomeView| compact_of(record.remote_host, entry))
}

/// The compact records of all hosts, host after host.
pub open spec fn compacted_all(records: Seq<ResponsesView>) -> Seq<CompactResponseView>
    decreases records.len(),
{
    if records.len() == 0 {
        Seq::empty()
    } else {
        compacted_all(records.drop_last()) + compacted(records.last())
    }
}

/// The text shown for an entry.
pub fn entry_message(entry: &RunResult<Response>) -> (text: String)
    ensures
        text@ == entry_text(outcome_view(*entry)),
{
    match entry {
        Ok(response) => response.out.clone(),
        Err(error) => error.to_string(),
    }
}

impl Responses {
    /// The compact records of this host, one per entry.
    pub fn compact(&self) -> (list: Vec<CompactResponse>)
        ensures
            compact_view(list@) == compacted(self@),
    {
        let mut list: Vec<CompactResponse> = Vec::new();
        let mut i: usize = 0;
        while i < self.responses.len()
            invariant
                i <= self.responses.len(),
                list.len() == i,
                forall|k: int|
                    0 <= k < i ==> (#[trigger] list[k])@ == compact_of(
                        self@.remote_host,
                        outcome_view(self.responses[k]),
                    ),
            decreases self.responses.len() - i,
        {
            let entry = &self.responses[i];
            let compact = match entry {
                Ok(response) => CompactResponse::new(
                    self.remote_host.clone(),
                    response.out.clone(),
                    true,
                    response.duration,
                ),
                Err(error) => CompactResponse::new(
                    self.remote_host.clone(),
                    error.to_string(),
                    false,
                    0,
                ),
            };
            list.push(compact);
            i = i + 1;
        }
        proof {
            assert(compact_view(list@) =~= compacted(self@));
        }
        list
    }
}

impl<'a> From<&'a Responses> for Vec<CompactResponse> {
    fn from(responses: &'a Responses) -> (list: Self)
        ensures
            compact_view(list@) == compacted(responses@),
    {
        responses.compact()
    }
}

impl<'a> FromSpecImpl<&'a Responses> for Vec<CompactResponse> {
    open spec fn obeys_from_spec() -> bool {
        false
    }

    open spec fn from_spec(responses: &'a Responses) -> Self {
        arbitrary()
    }
}

/// The compact records of all hosts, host after host.
pub fn compact_all(records: &Vec<Responses>) -> (list: Vec<CompactResponse>)
    ensures
        compact_view(list@) == compacted_all(records_view(records@)),
{
    let ghost all = records_view(records@);
    let mut list: Vec<CompactResponse> = Vec::new();
    let mut i: usize = 0;
    proof {
        assert(compact_view(list@) =~= compacted_all(all.take(0)));
    }
    while i < records.len()
        invariant
            i <= records.len(),
            all == records_view(records@),
            compact_view(list@) == compacted_all(all.take(i as int)),
        decreases records.len() - i,
    {
        let mut more = records[i].compact();
        let ghost before = compact_view(list@);
        let ghost added = compact_view(more@);
        list.append(&mut more);
        proof {
            assert(compact_view(list@) =~= before + added);
            assert(all.take(i + 1).drop_last() =~= all.take(i as int));
            assert(all.take(i + 1).last() == records[i as int]@);
        }
        i = i + 1;
    }
    proof {
        assert(all.take(i as int) =~= all);
    }
    list
}

/// Width the host name is padded to in a line of text.
pub const HOST_COLUMN: usize = 15;

/// The line of text for one entry of `host`: the host name, set to the right
/// of its column, then the entry's text.
pub open spec fn line_of(host: Seq<char>, entry: OutcomeView) -> Seq<char> {
    padded_left(host, HOST_COLUMN as nat) + ": "@ + entry_text(entry)
}

/// The lines of text of a host, one per entry.
pub open spec fn lines_of(record: ResponsesView) -> Seq<Seq<char>> {
    record.responses.map_values(|entry: OutcomeView| line_of(record.remote_host.host, entry))
}

/// The lines of text of all hosts, host after host.
pub open spec fn lines_of_all(records: Seq<ResponsesView>) -> Seq<Seq<char>>
    decreases records.len(),
{
    if records.len() == 0 {
        Seq::empty()
    } else {
        lines_of_all(records.drop_last()) + lines_of(records.last())
    }
}

/// The line of text for one entry of `host`.
pub fn text_line(host: &str, entry: &RunResult<Response>) -> (line: String)
    ensures
        line@ == line_of(host@, outcome_view(*entry)),
{
    let mut line = pad_left(host, HOST_COLUMN);
    line.append(": ");
    let text = entry_message(entry);
    line.append(text.as_str());
    line
}

/// The lines of text of all hosts, host after host, one line per entry.
pub fn text_lines(records: &Vec<Responses>) -> (lines: Vec<String>)
    ensures
        lines.deep_view() == lines_of_all(records_view(records@)),
{
    let ghost all = records_view(records@);
    let mut lines: Vec<String> = Vec::new();
    let mut i: usize = 0;
    proof {
        assert(lines.deep_view() =~= lines_of_all(all.take(0)));
    }
    while i < records.len()
        invariant
            i <= records.len(),
            all == records_view(records@),
            lines.deep_view() == lines_of_all(all.take(i as int)),
        decreases records.len() - i,
    {
        let record = &records[i];
        let ghost done = lines.deep_view();
        let mut j: usize = 0;
        while j < record.responses.len()
            invariant
                j <= record.responses.len(),
                record == records[i as int],
                lines.deep_view() == done + lines_of(record@).take(j as int),
            decreases record.responses.len() - j,
        {
            let ghost before = lines.deep_view();
            let line = text_line(record.remote_host.host.as_str(), &record.responses[j]);
            lines.push(line);
            proof {
                assert(lines.deep_view() =~= before.push(line@));
                assert(lines_of(record@).take(j + 1) =~= lines_of(record@).take(j as int).push(
                    line@,
                ));
            }
            j = j + 1;
        }
        proof {
            assert(lines_of(record@).take(j as int) =~= lines_of(record@));
            assert(all.take(i + 1).drop_last() =~= all.take(i as int));
            assert(all.take(i + 1).last() == record@);
        }
        i = i + 1;
    }
    proof {
        assert(all.take(i as int) =~= all);
    }
    lines
}

/// What is handed to the renderer.
#[derive(Debug, PartialEq, Eq)]
pub enum Report {
    /// One compact record per entry, for the structured and tabular forms.
    Records(Vec<CompactResponse>),
    /// One line per entry, for plain text.
    Lines(Vec<String>),
}

/// Model of a [`Report`].
pub enum ReportView {
    Records(Seq<CompactResponseView>),
    Lines(Seq<Seq<char>>),
}

impl View for Report {
    type V = ReportView;

    open spec fn view(&self) -> ReportView {
        match *self {
            Report::Records(list) => ReportView::Records(compact_view(list@)),
            Report::Lines(lines) => ReportView::Lines(lines.deep_view()),
        }
    }
}

/// What the renderer gets for `output`: lines for plain text, compact
/// records for the other forms.
pub open spec fn report_of(output: Output, records: Seq<ResponsesView>) -> ReportView {
    match output {
        Output::Text => ReportView::Lines(lines_of_all(records)),
        _ => ReportView::Records(compacted_all(records)),
    }
}

/// Prepares the records, already in their final order, for the renderer.
pub fn report(output: Output, records: &Vec<Responses>) -> (prepared: Report)
    ensures
        prepared@ == report_of(output, records_view(records@)),
{
    match output {
        Output::Text => Report::Lines(text_lines(records)),
        _ => Report::Records(compact_all(records)),
    }
}

/// Some entry of some host is an error.
pub open spec fn some_error(records: Seq<ResponsesView>) -> bool {
    exists|i: int, j: int|
        0 <= i < records.len() && 0 <= j < records[i].responses.len()
            && (#[trigger] records[i].responses[j]) is Err
}

/// Whether anything went wrong on any host.
pub fn any_host_error(records: &Vec<Responses>) -> (failed: bool)
    ensures
        failed == some_error(records_view(records@)),
{
    let ghost all = records_view(records@);
    let mut i: usize = 0;
    while i < records.len()
        invariant
            i <= records.len(),
            all == records_view(records@),
            forall|a: int, b: int|
                0 <= a < i && 0 <= b < all[a].responses.len() ==> !((
                #[trigger] all[a].responses[b]) is Err),
        decreases records.len() - i,
    {
        let record = &records[i];
        let mut j: usize = 0;
        while j < record.responses.len()
            invariant
                j <= record.responses.len(),
                i < records.len(),
                record == records[i as int],
                all == records_view(records@),
                forall|b: int| 0 <= b < j ==> !((#[trigger] all[i as int].responses[b]) is Err),
            decreases record.responses.len() - j,
        {
            if record.responses[j].is_err() {
                proof {
                    assert(all[i as int].responses[j as int] is Err);
                }
                return true;
            }
            j = j + 1;
        }
        i = i + 1;
    }
    false
}

/// The mark that stands for success, and the one that stands for failure.
pub open spec fn mark_of(success: bool) -> Seq<char> {
    if success {
        "\u{2705}"@
    } else {
        "\u{274c}"@
    }
}

/// The emoji that the `emojis` crate knows `text` as, in its fully
/// qualified form, if it knows it as one.
pub uninterp spec fn emoji_form(text: Seq<char>) -> Option<Seq<char>>;

/// `emojis::get`, with the emoji it finds given as its string: a lookup of
/// `text` in the crate's table, which depends on `text` alone.
#[verifier::external_body]
fn find_emoji(text: &str) -> (found: Option<String>)
    ensures
        opt_text(found) == emoji_form(text@),
{
    match emojis::get(text) {
        Some(emoji) => Some(emoji.as_str().to_string()),
        None => None,
    }
}

/// The word that stands for success, and the one that stands for failure.
pub open spec fn word_of(success: bool) -> Seq<char> {
    if success {
        "true"@
    } else {
        "false"@
    }
}

/// What is shown for a mark: its emoji if there is one, else the word given
/// with it.
pub open spec fn mark_shown(emoji: Option<Seq<char>>, word: Seq<char>) -> Seq<char> {
    match emoji {
        Some(form) => form,
        None => word,
    }
}

/// What is shown for a mark, given the emoji that was found for it.
pub fn mark_text(emoji: Option<String>, word: &str) -> (shown: String)
    ensures
        shown@ == mark_shown(opt_text(emoji), word@),
{
    match emoji {
        Some(form) => form,
        None => word.to_string(),
    }
}

/// What is shown for `mark`: the emoji it is known as, in its fully
/// qualified form, or `word` where it is not known as one.
pub fn mark_print(mark: &str, word: &str) -> (shown: String)
    ensures
        shown@ == mark_shown(emoji_form(mark@), word@),
{
    mark_text(find_emoji(mark), word)
}

/// What is shown for success or failure in a table: a check mark or a cross
/// where they are known as emoji, else the word `true` or `false`.
pub fn success_print(success: &bool) -> (shown: String)
    ensures
        shown@ == mark_shown(emoji_form(mark_of(*success)), word_of(*success)),
{
    if *success {
        mark_print("\u{2705}", "true")
    } else {
        mark_print("\u{274c}", "false")
    }
}

/// What is shown for a duration: its milliseconds in decimal, then `ms`.
pub fn duration_print(duration: &u64) -> (shown: String)
    ensures
        shown@ == decimal(*duration as nat) + "ms"@,
{
    let mut shown = render_decimal(*duration);
    shown.append("ms");
    shown
}

} // verus!
