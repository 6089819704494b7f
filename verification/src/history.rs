//! The session transcript: finalized utterances, their translations, the
//! append-only records a session is persisted as, and its text exports.
use vstd::prelude::*;

use crate::events::SourceKind;
use crate::clock::{clock_label, is_clock_label, is_digit, start_fits_stamp, MAX_LABEL_MS};
use crate::text::{chars_of, has_prefix, join_lines, lemma_lex_before_irreflexive, lemma_lex_before_transitive, lex_before, lex_less, lines_of, starts_with, text_lines, views, is_white_space};

verus! {

/// One finalized utterance of the session.
#[derive(Clone, Debug)]
pub struct HistoryEntry {
    pub utterance_id: String,
    pub source: SourceKind,
    pub text: String,
    pub translation: Option<String>,
    /// Milliseconds since the UNIX epoch at which the utterance was finalized
    pub time_ms: u64,
}

/// The mathematical value of a [`HistoryEntry`].
pub struct EntryView {
    pub utterance_id: Seq<char>,
    pub source: SourceKind,
    pub text: Seq<char>,
    pub translation: Option<Seq<char>>,
    pub time_ms: u64,
}

pub open spec fn opt_view(o: Option<String>) -> Option<Seq<char>> {
    match o {
        Some(s) => Some(s@),
        None => None,
    }
}

impl View for HistoryEntry {
    type V = EntryView;

    open spec fn view(&self) -> EntryView {
        EntryView {
            utterance_id: self.utterance_id@,
            source: self.source,
            text: self.text@,
            translation: opt_view(self.translation),
            time_ms: self.time_ms,
        }
    }
}

impl HistoryEntry {
    /// A copy of this entry.
    pub fn duplicate(&self) -> (e: HistoryEntry)
        ensures
            e@ == self@,
    {
        let translation = match &self.translation {
            Some(t) => Some(t.clone()),
            None => None,
        };
        HistoryEntry {
            utterance_id: self.utterance_id.clone(),
            source: self.source,
            text: self.text.clone(),
            translation,
            time_ms: self.time_ms,
        }
    }
}

/// The views of a sequence of entries.
pub open spec fn entry_views(v: Seq<HistoryEntry>) -> Seq<EntryView> {
    Seq::new(v.len(), |i: int| v[i]@)
}

/// Index of the newest entry of `entries` with id `id`.
pub open spec fn newest_with_id(entries: Seq<EntryView>, id: Seq<char>) -> Option<int>
    decreases entries.len(),
{
    if entries.len() == 0 {
        None
    } else if entries.last().utterance_id == id {
        Some(entries.len() - 1)
    } else {
        newest_with_id(entries.drop_last(), id)
    }
}

/// `entries` with `translation` attached to the newest entry with id `id`
/// (unchanged when there is none).
pub open spec fn with_translation(entries: Seq<EntryView>, id: Seq<char>, translation: Seq<char>) -> Seq<EntryView> {
    match newest_with_id(entries, id) {
        Some(i) => entries.update(i, EntryView { translation: Some(translation), ..entries[i] }),
        None => entries,
    }
}

/// Facts about the newest matching index.
pub proof fn lemma_newest_with_id(entries: Seq<EntryView>, id: Seq<char>)
    ensures
        match newest_with_id(entries, id) {
            Some(i) => 0 <= i < entries.len() && entries[i].utterance_id == id && forall|j: int|
                i < j < entries.len() ==> #[trigger] entries[j].utterance_id != id,
            None => forall|j: int| 0 <= j < entries.len() ==> #[trigger] entries[j].utterance_id != id,
        },
    decreases entries.len(),
{
    if entries.len() > 0 {
        lemma_newest_with_id(entries.drop_last(), id);
        assert(forall|j: int| 0 <= j < entries.len() - 1 ==> entries.drop_last()[j] == entries[j]);
    }
}

/// Attaches a translation to the newest matching utterance. Shared by the
/// live path and session replay so the two can never diverge.
pub fn apply_translation(entries: &mut Vec<HistoryEntry>, utterance_id: &str, translation: String) -> (found: bool)
    ensures
        found == newest_with_id(entry_views(old(entries)@), utterance_id@).is_some(),
        entry_views(final(entries)@) == with_translation(entry_views(old(entries)@), utterance_id@, translation@),
{
    let key = utterance_id.to_owned();
    let ghost ev = entry_views(entries@);
    let mut i: usize = entries.len();
    while i > 0
        invariant
            i <= entries.len(),
            ev == entry_views(entries@),
            entries@ == old(entries)@,
            key@ == utterance_id@,
            forall|j: int| i <= j < entries.len() ==> #[trigger] ev[j].utterance_id != key@,
        decreases i,
    {
        if entries[i - 1].utterance_id == key {
            proof {
                assert(newest_with_id(ev, key@) == Some((i - 1) as int)) by {
                    lemma_newest_with_id(ev, key@);
                    assert(ev[i - 1].utterance_id == key@);
                }
            }
            entries[i - 1].translation = Some(translation);
            assert(entry_views(entries@) =~= with_translation(ev, utterance_id@, translation@));
            return true;
        }
        i = i - 1;
    }
    proof {
        lemma_newest_with_id(ev, key@);
    }
    assert(newest_with_id(ev, key@).is_none());
    false
}


/// One line of a session file. Append-only so a crash mid-meeting loses at
/// most the in-flight utterance; translations arrive after their utterance
/// and are replayed onto it on load.
#[derive(Clone, Debug)]
pub enum SessionRecord {
    Utterance { utterance_id: String, source: SourceKind, text: String, time_ms: u64 },
    Translation { utterance_id: String, text: String },
}

/// The mathematical value of a [`SessionRecord`].
pub enum RecordView {
    Utterance { utterance_id: Seq<char>, source: SourceKind, text: Seq<char>, time_ms: u64 },
    Translation { utterance_id: Seq<char>, text: Seq<char> },
}

impl View for SessionRecord {
    type V = RecordView;

    open spec fn view(&self) -> RecordView {
        match self {
            SessionRecord::Utterance { utterance_id, source, text, time_ms } => RecordView::Utterance {
                utterance_id: utterance_id@,
                source: *source,
                text: text@,
                time_ms: *time_ms,
            },
            SessionRecord::Translation { utterance_id, text } => RecordView::Translation {
                utterance_id: utterance_id@,
                text: text@,
            },
        }
    }
}

/// The views of a sequence of records, `None` standing for a line that did not parse.
pub open spec fn record_views(v: Seq<Option<SessionRecord>>) -> Seq<Option<RecordView>> {
    Seq::new(
        v.len(),
        |i: int|
            match v[i] {
                Some(r) => Some(r@),
                None => None,
            },
    )
}

/// The entries that a session file holds: utterances in order, each
/// translation attached to the newest utterance with its id; lines that did
/// not parse (`None`) are skipped.
pub open spec fn replay(records: Seq<Option<RecordView>>) -> Seq<EntryView>
    decreases records.len(),
{
    if records.len() == 0 {
        Seq::empty()
    } else {
        let before = replay(records.drop_last());
        match records.last() {
            Some(RecordView::Utterance { utterance_id, source, text, time_ms }) => before.push(
                EntryView { utterance_id, source, text, translation: None, time_ms },
            ),
            Some(RecordView::Translation { utterance_id, text }) => with_translation(before, utterance_id, text),
            None => before,
        }
    }
}

/// Rebuilds the entries of a session from its records, in file order.
/// Tolerates a torn last line from a crashed session: lines that did not
/// parse arrive as `None` and are skipped.
pub fn read_session(records: Vec<Option<SessionRecord>>) -> (entries: Vec<HistoryEntry>)
    ensures
        entry_views(entries@) == replay(record_views(records@)),
{
    let ghost rv = record_views(records@);
    let mut entries: Vec<HistoryEntry> = Vec::new();
    for record in it: records
        invariant
            rv == record_views(it.seq()),
            entry_views(entries@) == replay(rv.take(it.index())),
    {
        let ghost k = it.index();
        assert(rv.take(k + 1).drop_last() =~= rv.take(k));
        match record {
            Some(SessionRecord::Utterance { utterance_id, source, text, time_ms }) => {
                entries.push(HistoryEntry { utterance_id, source, text, translation: None, time_ms });
            },
            Some(SessionRecord::Translation { utterance_id, text }) => {
                apply_translation(&mut entries, utterance_id.as_str(), text);
            },
            None => {},
        }
        assert(entry_views(entries@) =~= replay(rv.take(k + 1)));
    }
    assert(rv.take(rv.len() as int) =~= rv);
    entries
}


/// Accumulates finalized utterances during a session. Used for export and
/// summary generation. Every change hands back the record that persists it,
/// so that the session file, replayed, gives back exactly these entries.
pub struct History {
    entries: Vec<HistoryEntry>,
    /// Records handed out since the session started, in order
    recorded: Ghost<Seq<Option<RecordView>>>,
}

impl View for History {
    type V = Seq<EntryView>;

    closed spec fn view(&self) -> Seq<EntryView> {
        entry_views(self.entries@)
    }
}

impl Default for History {
    fn default() -> (h: History)
        ensures
            h.wf(),
            h@ == Seq::<EntryView>::empty(),
            h.recorded() == Seq::<Option<RecordView>>::empty(),
    {
        History::new()
    }
}

impl History {
    /// The records handed out since the session started, in order.
    pub closed spec fn recorded(&self) -> Seq<Option<RecordView>> {
        self.recorded@
    }

    /// The records handed out so far replay to the entries.
    pub closed spec fn wf(&self) -> bool {
        replay(self.recorded@) == entry_views(self.entries@)
    }

    /// The records a session hands out replay to its entries: whatever
    /// sequence of `new`, `push_final`, `set_translation` and `rotate_session`
    /// built `self` (all of which keep `wf`), reading back the records it
    /// handed out since the session started gives exactly the live entries.
    pub proof fn law_records_replay_to_entries(&self)
        requires
            self.wf(),
        ensures
            replay(self.recorded()) == self@,
    {
    }

    /// An empty session.
    pub fn new() -> (h: History)
        ensures
            h.wf(),
            h@ == Seq::<EntryView>::empty(),
            h.recorded() == Seq::<Option<RecordView>>::empty(),
            replay(h.recorded()) == h@,
    {
        let h = History { entries: Vec::new(), recorded: Ghost(Seq::empty()) };
        assert(entry_views(h.entries@) =~= Seq::<EntryView>::empty());
        assert(replay(h.recorded@) =~= Seq::<EntryView>::empty());
        h
    }

    /// Starts a new session: clears the in-memory entries (the caller points
    /// the writer at a fresh file).
    pub fn rotate_session(&mut self)
        ensures
            final(self).wf(),
            final(self)@ == Seq::<EntryView>::empty(),
            final(self).recorded() == Seq::<Option<RecordView>>::empty(),
            replay(final(self).recorded()) == final(self)@,
    {
        *self = History::new();
    }

    /// Records a finalized utterance; returns the record that persists it.
    pub fn push_final(&mut self, utterance_id: String, source: SourceKind, text: String, time_ms: u64) -> (record: SessionRecord)
        requires
            old(self).wf(),
        ensures
            final(self).wf(),
            final(self)@ == old(self)@.push(
                EntryView { utterance_id: utterance_id@, source, text: text@, translation: None, time_ms },
            ),
            record@ == (RecordView::Utterance { utterance_id: utterance_id@, source, text: text@, time_ms }),
            final(self).recorded() == old(self).recorded().push(Some(record@)),
            replay(final(self).recorded()) == final(self)@,
    {
        let record = SessionRecord::Utterance {
            utterance_id: utterance_id.clone(),
            source,
            text: text.clone(),
            time_ms,
        };
        let ghost before = self.recorded@;
        let ghost after = before.push(Some(record@));
        assert(after.drop_last() =~= before);
        let mut entries: Vec<HistoryEntry> = Vec::new();
        std::mem::swap(&mut entries, &mut self.entries);
        entries.push(HistoryEntry { utterance_id, source, text, translation: None, time_ms });
        assert(entry_views(entries@) =~= replay(after));
        *self = History { entries, recorded: Ghost(after) };
        record
    }

    /// Attaches a translation to the newest utterance with this id. A
    /// translation can outlive its session (in-flight during rotation); it
    /// is only persisted, and only then a record returned, when the
    /// utterance is in this session.
    pub fn set_translation(&mut self, utterance_id: &str, translation: String) -> (record: Option<SessionRecord>)
        requires
            old(self).wf(),
        ensures
            final(self).wf(),
            final(self)@ == with_translation(old(self)@, utterance_id@, translation@),
            record.is_some() == newest_with_id(old(self)@, utterance_id@).is_some(),
            match record {
                Some(r) => r@ == (RecordView::Translation { utterance_id: utterance_id@, text: translation@ })
                    && final(self).recorded() == old(self).recorded().push(Some(r@)),
                None => final(self).recorded() == old(self).recorded() && final(self)@ == old(self)@,
            },
            replay(final(self).recorded()) == final(self)@,
    {
        let ghost before = self.recorded@;
        let kept = translation.clone();
        let mut entries: Vec<HistoryEntry> = Vec::new();
        std::mem::swap(&mut entries, &mut self.entries);
        let found = apply_translation(&mut entries, utterance_id, translation);
        if found {
            let record = SessionRecord::Translation { utterance_id: utterance_id.to_owned(), text: kept };
            let ghost after = before.push(Some(record@));
            assert(after.drop_last() =~= before);
            *self = History { entries, recorded: Ghost(after) };
            Some(record)
        } else {
            *self = History { entries, recorded: Ghost(before) };
            None
        }
    }

    pub fn is_empty(&self) -> (empty: bool)
        ensures
            empty == (self@.len() == 0),
    {
        self.entries.len() == 0
    }

    /// A copy of the entries so far.
    pub fn snapshot(&self) -> (entries: Vec<HistoryEntry>)
        ensures
            entry_views(entries@) == self@,
    {
        let mut out: Vec<HistoryEntry> = Vec::new();
        let mut i: usize = 0;
        while i < self.entries.len()
            invariant
                i <= self.entries.len(),
                out.len() == i,
                forall|j: int| 0 <= j < i ==> #[trigger] out@[j]@ == self.entries@[j]@,
            decreases self.entries.len() - i,
        {
            out.push(self.entries[i].duplicate());
            i = i + 1;
        }
        assert(entry_views(out@) =~= self@);
        out
    }
}


/// The line of an entry in the plain-text transcript fed to summarization:
/// "speaker: text", followed by " (translation)" when there is one.
pub open spec fn plain_line(e: EntryView) -> Seq<char> {
    e.source.spec_speaker_ja() + ": "@ + e.text + match e.translation {
        Some(t) => " ("@ + t + ")"@,
        None => Seq::empty(),
    }
}

/// Plain text of `entries`: one line per entry.
pub open spec fn spec_plain_text(entries: Seq<EntryView>) -> Seq<char> {
    join_lines(Seq::new(entries.len(), |i: int| plain_line(entries[i])))
}

/// The plain text of two non-empty runs of entries, one after the other, is
/// the first run's plain text, a '\n', then the second's.
pub proof fn law_plain_text_concat(a: Seq<EntryView>, b: Seq<EntryView>)
    requires
        a.len() > 0,
        b.len() > 0,
    ensures
        spec_plain_text(a + b) == spec_plain_text(a) + seq!['\n'] + spec_plain_text(b),
{
    let la = Seq::new(a.len(), |i: int| plain_line(a[i]));
    let lb = Seq::new(b.len(), |i: int| plain_line(b[i]));
    let ab = a + b;
    assert(Seq::new(ab.len(), |i: int| plain_line(ab[i])) =~= la + lb);
    crate::text::lemma_join_lines_concat(la, lb);
}

/// No entries give no text; one entry gives its own line.
pub proof fn law_plain_text_small(e: EntryView)
    ensures
        spec_plain_text(Seq::empty()) == Seq::<char>::empty(),
        spec_plain_text(seq![e]) == plain_line(e),
{
    assert(Seq::new(0, |i: int| plain_line(Seq::<EntryView>::empty()[i])) =~= Seq::<Seq<char>>::empty());
    assert(Seq::new(1, |i: int| plain_line(seq![e][i])) =~= seq![plain_line(e)]);
}

/// Plain text used for summary generation.
pub fn to_plain_text(entries: &[HistoryEntry]) -> (text: String)
    ensures
        text@ == spec_plain_text(entry_views(entries@)),
{
    let ghost lines = Seq::new(entries@.len(), |i: int| plain_line(entries@[i]@));
    let mut out = String::new();
    let mut i: usize = 0;
    while i < entries.len()
        invariant
            i <= entries.len(),
            lines == Seq::new(entries@.len(), |i: int| plain_line(entries@[i]@)),
            out@ == join_lines(lines.take(i as int)),
        decreases entries.len() - i,
    {
        assert(lines.take(i + 1).drop_last() =~= lines.take(i as int));
        let e = &entries[i];
        if i > 0 {
            out.push('\n');
        }
        out.append(e.source.speaker_ja());
        out.append(": ");
        out.append(e.text.as_str());
        match &e.translation {
            Some(t) => {
                out.append(" (");
                out.append(t.as_str());
                out.append(")");
            },
            None => {},
        }
        i = i + 1;
        assert(out@ =~= join_lines(lines.take(i as int)));
    }
    assert(lines.take(entries.len() as int) =~= lines);
    let ghost ev = entry_views(entries@);
    assert(lines =~= Seq::new(ev.len(), |i: int| plain_line(ev[i])));
    out
}

/// The Markdown block of an entry, with `label` as its clock time:
/// "**[label] speaker**: text", a "> translation" line when there is one,
/// and a blank line.
pub open spec fn markdown_block(e: EntryView, label: Seq<char>) -> Seq<char> {
    "**["@ + label + "] "@ + e.source.spec_speaker_ja() + "**: "@ + e.text + "\n"@ + match e.translation {
        Some(t) => "> "@ + t + "\n"@,
        None => Seq::empty(),
    } + "\n"@
}

/// Every Markdown block ends with a blank line, and an entry's translation
/// adds one quote line, "> " + translation, right before that blank line:
/// the translated block is the untranslated one with the quote inserted.
pub proof fn law_markdown_block_layout(e: EntryView, label: Seq<char>)
    ensures
        ({
            let plain = markdown_block(EntryView { translation: None, ..e }, label);
            &&& plain.len() >= 2
            &&& plain[plain.len() - 2] == '\n' && plain[plain.len() - 1] == '\n'
            &&& markdown_block(e, label).len() >= 2
            &&& markdown_block(e, label)[markdown_block(e, label).len() - 2] == '\n'
            &&& markdown_block(e, label)[markdown_block(e, label).len() - 1] == '\n'
            &&& forall|t: Seq<char>|
                e.translation == Some(t) ==> #[trigger] markdown_block(e, label) == plain.take(plain.len() - 1) + seq![
                    '>',
                    ' ',
                ] + t + seq!['\n', '\n']
        }),
{
    reveal_strlit("\n");
    reveal_strlit("> ");
    let plain = markdown_block(EntryView { translation: None, ..e }, label);
    let head = "**["@ + label + "] "@ + e.source.spec_speaker_ja() + "**: "@ + e.text + "\n"@;
    assert(plain =~= head + Seq::<char>::empty() + "\n"@);
    match e.translation {
        Some(t) => {
            assert(markdown_block(e, label) =~= head + ("> "@ + t + "\n"@) + "\n"@);
            assert(plain.take(plain.len() - 1) =~= head);
            assert(markdown_block(e, label) =~= plain.take(plain.len() - 1) + seq!['>', ' '] + t + seq!['\n', '\n']);
        },
        None => {},
    }
}

/// The Markdown transcript of `entries`, entry `i` shown at clock time `labels[i]`.
pub open spec fn spec_markdown(entries: Seq<EntryView>, labels: Seq<Seq<char>>) -> Seq<char>
    decreases entries.len(),
{
    if entries.len() == 0 {
        Seq::empty()
    } else {
        spec_markdown(entries.drop_last(), labels) + markdown_block(entries.last(), labels[entries.len() - 1])
    }
}

/// The views of a sequence of strings.
pub open spec fn label_views(v: Seq<String>) -> Seq<Seq<char>> {
    Seq::new(v.len(), |i: int| v[i]@)
}

/// Appends the Markdown block of `e`, shown at clock time `label`.
fn append_markdown_block(out: &mut String, e: &HistoryEntry, label: &str)
    ensures
        final(out)@ == old(out)@ + markdown_block(e@, label@),
{
    let ghost before = out@;
    out.append("**[");
    out.append(label);
    out.append("] ");
    out.append(e.source.speaker_ja());
    out.append("**: ");
    out.append(e.text.as_str());
    out.append("\n");
    match &e.translation {
        Some(t) => {
            out.append("> ");
            out.append(t.as_str());
            out.append("\n");
        },
        None => {},
    }
    out.append("\n");
    assert(out@ =~= before + markdown_block(e@, label@));
}

/// Builds the transcript body as Markdown, entry `i` shown at clock time `labels[i]`.
pub fn markdown_with_times(entries: &[HistoryEntry], labels: &[String]) -> (md: String)
    requires
        labels.len() == entries.len(),
    ensures
        md@ == spec_markdown(entry_views(entries@), label_views(labels@)),
{
    let ghost ev = entry_views(entries@);
    let ghost lv = label_views(labels@);
    let mut out = String::new();
    let mut i: usize = 0;
    while i < entries.len()
        invariant
            i <= entries.len() == labels.len(),
            ev == entry_views(entries@),
            lv == label_views(labels@),
            out@ == spec_markdown(ev.take(i as int), lv),
        decreases entries.len() - i,
    {
        assert(ev.take(i + 1).drop_last() =~= ev.take(i as int));
        append_markdown_block(&mut out, &entries[i], labels[i].as_str());
        i = i + 1;
        assert(out@ =~= spec_markdown(ev.take(i as int), lv));
    }
    assert(ev.take(entries.len() as int) =~= ev);
    out
}

/// Builds the transcript body as Markdown, each entry shown at its local
/// clock time ("HH:MM:SS", in the machine's time zone).
pub fn to_markdown(entries: &[HistoryEntry]) -> (md: String)
    requires
        forall|i: int| 0 <= i < entries@.len() ==> #[trigger] entries@[i].time_ms <= MAX_LABEL_MS,
    ensures
        exists|labels: Seq<Seq<char>>|
            {
                &&& labels.len() == entries@.len()
                &&& forall|i: int| 0 <= i < labels.len() ==> is_clock_label(#[trigger] labels[i])
                &&& md@ == spec_markdown(entry_views(entries@), labels)
            },
{
    let mut labels: Vec<String> = Vec::new();
    let mut i: usize = 0;
    while i < entries.len()
        invariant
            i <= entries.len(),
            labels.len() == i,
            forall|j: int| 0 <= j < entries@.len() ==> #[trigger] entries@[j].time_ms <= MAX_LABEL_MS,
            forall|j: int| 0 <= j < i ==> is_clock_label(#[trigger] labels@[j]@),
        decreases entries.len() - i,
    {
        labels.push(clock_label(entries[i].time_ms));
        i = i + 1;
    }
    let md = markdown_with_times(entries, labels.as_slice());
    assert(forall|j: int| 0 <= j < labels@.len() ==> is_clock_label(#[trigger] label_views(labels@)[j]));
    md
}


// ---- Stored sessions ----

/// A stored session as the session list shows it.
#[derive(Clone, Debug)]
pub struct SessionInfo {
    /// File stem, e.g. "20260719-140302"
    pub id: String,
    pub started_at_ms: u64,
    pub ended_at_ms: u64,
    pub utterances: usize,
}

/// The mathematical value of a [`SessionInfo`].
pub struct SessionInfoView {
    pub id: Seq<char>,
    pub started_at_ms: u64,
    pub ended_at_ms: u64,
    pub utterances: nat,
}

impl View for SessionInfo {
    type V = SessionInfoView;

    open spec fn view(&self) -> SessionInfoView {
        SessionInfoView {
            id: self.id@,
            started_at_ms: self.started_at_ms,
            ended_at_ms: self.ended_at_ms,
            utterances: self.utterances as nat,
        }
    }
}

/// The views of a sequence of session infos.
pub open spec fn info_views(v: Seq<SessionInfo>) -> Seq<SessionInfoView> {
    Seq::new(v.len(), |i: int| v[i]@)
}

/// A session file as read from the sessions directory.
pub struct SessionFile {
    /// File stem
    pub id: String,
    /// File contents
    pub content: String,
    /// Last modification time, in ms since the UNIX epoch, when the file system gives one
    pub modified_ms: Option<u64>,
}

/// Prefix every utterance line starts with (we are the only writer, and the
/// `kind` tag is written first) — lets the listing count without a full parse.
pub const UTTERANCE_PREFIX: &'static str = "{\"kind\":\"utterance\"";

/// Number of `lines` that begin with `prefix`.
pub open spec fn count_prefixed(lines: Seq<Seq<char>>, prefix: Seq<char>) -> nat
    decreases lines.len(),
{
    if lines.len() == 0 {
        0
    } else {
        count_prefixed(lines.drop_last(), prefix) + if has_prefix(lines.last(), prefix) {
            1nat
        } else {
            0nat
        }
    }
}

/// Number of utterance lines in a session file's text.
pub open spec fn utterance_count(content: Seq<char>) -> nat {
    count_prefixed(text_lines(content), UTTERANCE_PREFIX@)
}

proof fn lemma_count_prefixed_le(lines: Seq<Seq<char>>, prefix: Seq<char>)
    ensures
        count_prefixed(lines, prefix) <= lines.len(),
    decreases lines.len(),
{
    if lines.len() > 0 {
        lemma_count_prefixed_le(lines.drop_last(), prefix);
    }
}

/// Counts the utterance lines of a session file's text.
pub fn count_utterance_lines(content: &str) -> (n: usize)
    ensures
        n == utterance_count(content@),
{
    let lines = lines_of(content);
    let prefix = chars_of(UTTERANCE_PREFIX);
    let ghost lv = views(lines@);
    let mut n: usize = 0;
    let mut i: usize = 0;
    while i < lines.len()
        invariant
            i <= lines.len(),
            lv == views(lines@),
            prefix@ == UTTERANCE_PREFIX@,
            n == count_prefixed(lv.take(i as int), prefix@),
        decreases lines.len() - i,
    {
        assert(lv.take(i + 1).drop_last() =~= lv.take(i as int));
        proof {
            lemma_count_prefixed_le(lv.take(i as int), prefix@);
        }
        let line = chars_of(lines[i].as_str());
        if starts_with(&line, &prefix) {
            n = n + 1;
        }
        i = i + 1;
    }
    assert(lv.take(lines.len() as int) =~= lv);
    n
}

/// The list entry for a session file whose name gives `started` as its start
/// time (`None`: the name is not a timestamp): none when the name is not a
/// timestamp or the file holds no utterance; its end is the file's
/// modification time, or its start when there is none.
pub open spec fn spec_session_info(
    id: Seq<char>,
    started: Option<u64>,
    content: Seq<char>,
    modified: Option<u64>,
) -> Option<SessionInfoView> {
    match started {
        None => None,
        Some(start) => if utterance_count(content) == 0 {
            None
        } else {
            Some(
                SessionInfoView {
                    id,
                    started_at_ms: start,
                    ended_at_ms: match modified {
                        Some(m) => m,
                        None => start,
                    },
                    utterances: utterance_count(content),
                },
            )
        },
    }
}

/// The list entry for one session file; see [`spec_session_info`].
pub fn session_info(file: &SessionFile, started: Option<u64>) -> (info: Option<SessionInfo>)
    ensures
        match info {
            Some(i) => spec_session_info(file.id@, started, file.content@, file.modified_ms) == Some(i@),
            None => spec_session_info(file.id@, started, file.content@, file.modified_ms).is_none(),
        },
{
    let start = match started {
        Some(s) => s,
        None => return None,
    };
    let utterances = count_utterance_lines(file.content.as_str());
    if utterances == 0 {
        return None;
    }
    let ended_at_ms = match file.modified_ms {
        Some(m) => m,
        None => start,
    };
    Some(SessionInfo { id: file.id.clone(), started_at_ms: start, ended_at_ms, utterances })
}

/// Where `x` goes in a list sorted newest first: before the first entry whose
/// id sorts before `x`'s, after all others (so equal ids keep their order).
pub open spec fn insert_pos(s: Seq<SessionInfoView>, x: SessionInfoView) -> int
    decreases s.len(),
{
    if s.len() == 0 {
        0
    } else if lex_before(s[0].id, x.id) {
        0
    } else {
        1 + insert_pos(s.drop_first(), x)
    }
}

proof fn lemma_insert_pos(s: Seq<SessionInfoView>, x: SessionInfoView)
    ensures
        0 <= insert_pos(s, x) <= s.len(),
        forall|i: int| 0 <= i < insert_pos(s, x) ==> !lex_before(#[trigger] s[i].id, x.id),
        insert_pos(s, x) < s.len() ==> lex_before(s[insert_pos(s, x)].id, x.id),
    decreases s.len(),
{
    if s.len() > 0 && !lex_before(s[0].id, x.id) {
        lemma_insert_pos(s.drop_first(), x);
        assert forall|i: int| 0 <= i < insert_pos(s, x) implies !lex_before(#[trigger] s[i].id, x.id) by {
            if i > 0 {
                assert(s[i] == s.drop_first()[i - 1]);
            }
        }
    }
}

/// `infos` ordered newest first (by id, descending), equal ids in their
/// order of arrival.
pub open spec fn sort_newest_first(infos: Seq<SessionInfoView>) -> Seq<SessionInfoView>
    decreases infos.len(),
{
    if infos.len() == 0 {
        Seq::empty()
    } else {
        let sorted = sort_newest_first(infos.drop_last());
        sorted.insert(insert_pos(sorted, infos.last()), infos.last())
    }
}

/// The list entries of `files`, in file order, file `i` starting at `starts[i]`.
pub open spec fn collect_infos(files: Seq<SessionFile>, starts: Seq<Option<u64>>) -> Seq<SessionInfoView>
    decreases files.len(),
{
    if files.len() == 0 {
        Seq::empty()
    } else {
        let before = collect_infos(files.drop_last(), starts);
        let f = files.last();
        match spec_session_info(f.id@, starts[files.len() - 1], f.content@, f.modified_ms) {
            Some(info) => before.push(info),
            None => before,
        }
    }
}

/// Whether `c` may occur in a name that chrono parses with "%Y%m%d-%H%M%S":
/// a digit, a sign, or white space (chrono skips white space before each
/// number, and the year may carry a sign).
pub open spec fn is_stamp_name_char(c: char) -> bool {
    is_digit(c) || c == '-' || c == '+' || is_white_space(c)
}

/// What a name that chrono parses with "%Y%m%d-%H%M%S" is made of: digits,
/// signs and white space only, with at least one digit.
pub open spec fn is_stamp_name(id: Seq<char>) -> bool {
    &&& forall|i: int| 0 <= i < id.len() ==> is_stamp_name_char(#[trigger] id[i])
    &&& exists|i: int| 0 <= i < id.len() && is_digit(#[trigger] id[i])
}

/// Calls chrono's `NaiveDateTime::parse_from_str(id, "%Y%m%d-%H%M%S")`, places
/// the result in the machine's time zone (`and_local_timezone(Local).earliest()`)
/// and returns its `timestamp_millis()` as u64; `None` when the parse fails or
/// the local time does not exist. chrono's parser reads each field as ASCII
/// digits (the year with an optional sign), skips white space before each
/// field, matches the '-' literally and refuses trailing text, so a name it
/// accepts is made of digits, signs and white space. A plain stamp
/// "YYYYMMDD-HHMMSS" is read field by field as written; the local time is
/// turned into UTC with the zone's offset, which chrono keeps under a day
/// (`FixedOffset`), and no fraction of a second is added, so the result is a
/// whole second less than a day from the stamp read as UTC (from the second
/// day of 1970 on, where the `as u64` cast keeps the value). Which stamps the
/// calendar and the time zone accept, and the exact instant given, depend on
/// the machine's time zone and are left unsaid.
#[verifier::external_body]
fn session_start_ms(id: &str) -> (start: Option<u64>)
    ensures
        start.is_some() ==> is_stamp_name(id@),
        start matches Some(s) ==> start_fits_stamp(s, id@),
{
    match chrono::NaiveDateTime::parse_from_str(id, "%Y%m%d-%H%M%S") {
        Ok(t) => match t.and_local_timezone(chrono::Local).earliest() {
            Some(local) => Some(local.timestamp_millis() as u64),
            None => None,
        },
        Err(_) => None,
    }
}

/// The session list for `files`, file `i` starting at `starts[i]` (`None`:
/// its name is not a timestamp): newest first, files without a start or
/// without any utterance left out.
pub fn list_sessions_at(files: Vec<SessionFile>, starts: Vec<Option<u64>>) -> (sessions: Vec<SessionInfo>)
    requires
        starts.len() == files.len(),
    ensures
        info_views(sessions@) == sort_newest_first(collect_infos(files@, starts@)),
{
    let mut sessions: Vec<SessionInfo> = Vec::new();
    let mut i: usize = 0;
    while i < files.len()
        invariant
            i <= files.len(),
            starts.len() == files.len(),
            info_views(sessions@) == sort_newest_first(collect_infos(files@.take(i as int), starts@)),
        decreases files.len() - i,
    {
        let file = &files[i];
        let started = starts[i];
        assert(files@.take(i + 1).drop_last() =~= files@.take(i as int));
        let ghost before = collect_infos(files@.take(i as int), starts@);
        let ghost f = files@.take(i + 1).last();
        assert(f == files@[i as int]);
        match session_info(file, started) {
            Some(info) => {
                insert_newest_first(&mut sessions, info);
                assert(collect_infos(files@.take(i + 1), starts@) == before.push(info@));
                assert(before.push(info@).drop_last() =~= before);
            },
            None => {
                assert(collect_infos(files@.take(i + 1), starts@) == before);
            },
        }
        i = i + 1;
    }
    assert(files@.take(files.len() as int) =~= files@);
    sessions
}

/// Lists stored sessions, newest first, without deserializing their contents:
/// the id encodes the start time, the modification time approximates the
/// end, and utterances are counted by line prefix. Files whose name is not a
/// timestamp, and files a torn write left without any utterance, are hidden.
/// The start of each file is what chrono reads from its name in the
/// machine's time zone; only a name made of digits, signs and white space
/// gets one.
pub fn list_sessions(files: Vec<SessionFile>) -> (sessions: Vec<SessionInfo>)
    ensures
        exists|starts: Seq<Option<u64>>|
            #![trigger collect_infos(files@, starts)]
            {
                &&& starts.len() == files@.len()
                &&& forall|i: int|
                    0 <= i < starts.len() && (#[trigger] starts[i]).is_some() ==> is_stamp_name(files@[i].id@)
                &&& forall|i: int|
                    0 <= i < starts.len() ==> match #[trigger] starts[i] {
                        Some(s) => start_fits_stamp(s, files@[i].id@),
                        None => true,
                    }
                &&& info_views(sessions@) == sort_newest_first(collect_infos(files@, starts))
            },
{
    let mut starts: Vec<Option<u64>> = Vec::new();
    let mut i: usize = 0;
    while i < files.len()
        invariant
            i <= files.len(),
            starts.len() == i,
            forall|j: int| 0 <= j < i && (#[trigger] starts@[j]).is_some() ==> is_stamp_name(files@[j].id@),
            forall|j: int|
                0 <= j < i ==> match #[trigger] starts@[j] {
                    Some(s) => start_fits_stamp(s, files@[j].id@),
                    None => true,
                },
        decreases files.len() - i,
    {
        let started = session_start_ms(files[i].id.as_str());
        starts.push(started);
        i = i + 1;
    }
    let ghost start_view = starts@;
    let ghost file_view = files@;
    let sessions = list_sessions_at(files, starts);
    assert(collect_infos(file_view, start_view) == collect_infos(file_view, start_view));
    sessions
}

/// Every entry collected from `files` is the entry of some file, started
/// at that file's start.
proof fn lemma_collected_from_files(files: Seq<SessionFile>, starts: Seq<Option<u64>>)
    requires
        starts.len() >= files.len(),
    ensures
        forall|k: int|
            0 <= k < collect_infos(files, starts).len() ==> exists|i: int|
                0 <= i < files.len() && (#[trigger] collect_infos(files, starts)[k]).id == files[i].id@
                    && starts[i] == Some(collect_infos(files, starts)[k].started_at_ms),
    decreases files.len(),
{
    if files.len() > 0 {
        let prev = files.drop_last();
        lemma_collected_from_files(prev, starts);
        let before = collect_infos(prev, starts);
        let all = collect_infos(files, starts);
        assert forall|k: int| 0 <= k < all.len() implies exists|i: int|
            0 <= i < files.len() && (#[trigger] all[k]).id == files[i].id@ && starts[i] == Some(
                all[k].started_at_ms,
            ) by {
            if k < before.len() {
                assert(all[k] == before[k]);
                let i = choose|i: int|
                    0 <= i < prev.len() && (#[trigger] before[k]).id == prev[i].id@ && starts[i] == Some(
                        before[k].started_at_ms,
                    );
                assert(files[i] == prev[i]);
            } else {
                let i = files.len() - 1;
                assert(files[i] == files.last());
            }
        }
    }
}

/// A listed session starts at the instant its name stamps: when every
/// start given fits its file's stamp (as chrono's reading of the name in the
/// machine's time zone does), every session in the list, whatever its place,
/// starts at a whole second less than a day from its id read as UTC.
pub proof fn law_listed_starts_fit_their_ids(files: Seq<SessionFile>, starts: Seq<Option<u64>>)
    requires
        starts.len() == files.len(),
        forall|i: int|
            0 <= i < starts.len() ==> match #[trigger] starts[i] {
                Some(s) => start_fits_stamp(s, files[i].id@),
                None => true,
            },
    ensures
        forall|k: int|
            0 <= k < sort_newest_first(collect_infos(files, starts)).len() ==> start_fits_stamp(
                (#[trigger] sort_newest_first(collect_infos(files, starts))[k]).started_at_ms,
                sort_newest_first(collect_infos(files, starts))[k].id,
            ),
{
    let infos = collect_infos(files, starts);
    let sorted = sort_newest_first(infos);
    lemma_collected_from_files(files, starts);
    law_sessions_sort_keeps_entries(infos);
    assert forall|k: int| 0 <= k < sorted.len() implies start_fits_stamp(
        (#[trigger] sorted[k]).started_at_ms,
        sorted[k].id,
    ) by {
        let x = sorted[k];
        vstd::seq_lib::to_multiset_contains(sorted, x);
        vstd::seq_lib::to_multiset_contains(infos, x);
        assert(sorted.contains(x));
        let j = choose|j: int| 0 <= j < infos.len() && infos[j] == x;
        let i = choose|i: int|
            0 <= i < files.len() && (#[trigger] infos[j]).id == files[i].id@ && starts[i] == Some(
                infos[j].started_at_ms,
            );
        assert(starts[i] == Some(x.started_at_ms));
    }
}

/// Inserts `info` into `sessions`, kept newest first; see [`sort_newest_first`].
fn insert_newest_first(sessions: &mut Vec<SessionInfo>, info: SessionInfo)
    ensures
        info_views(final(sessions)@) == info_views(old(sessions)@).insert(
            insert_pos(info_views(old(sessions)@), info@),
            info@,
        ),
{
    let ghost sv = info_views(sessions@);
    proof {
        lemma_insert_pos(sv, info@);
    }
    let key = chars_of(info.id.as_str());
    let mut p: usize = 0;
    while p < sessions.len()
        invariant
            p <= sessions.len(),
            sv == info_views(sessions@),
            sessions@ == old(sessions)@,
            key@ == info.id@,
            forall|i: int| 0 <= i < p ==> !lex_before(#[trigger] sv[i].id, key@),
        ensures
            p <= sessions.len(),
            sessions@ == old(sessions)@,
            forall|i: int| 0 <= i < p ==> !lex_before(#[trigger] sv[i].id, key@),
            p < sessions.len() ==> lex_before(sv[p as int].id, key@),
        decreases sessions.len() - p,
    {
        let other = chars_of(sessions[p].id.as_str());
        if lex_less(&other, &key) {
            break;
        }
        p = p + 1;
    }
    assert(p == insert_pos(sv, info@)) by {
        let q = insert_pos(sv, info@);
        if q < p {
            assert(!lex_before(sv[q].id, key@));
        } else if q > p {
            assert(!lex_before(sv[p as int].id, info@.id));
        }
    }
    sessions.insert(p, info);
    assert(info_views(sessions@) =~= sv.insert(p as int, info@));
}

/// Whether `infos` are ordered newest first: no id sorts before a later one.
pub open spec fn newest_first(infos: Seq<SessionInfoView>) -> bool {
    forall|i: int, j: int| 0 <= i < j < infos.len() ==> !lex_before(#[trigger] infos[i].id, #[trigger] infos[j].id)
}

proof fn lemma_insert_keeps_order(s: Seq<SessionInfoView>, x: SessionInfoView)
    requires
        newest_first(s),
    ensures
        newest_first(s.insert(insert_pos(s, x), x)),
{
    lemma_insert_pos(s, x);
    let p = insert_pos(s, x);
    let t = s.insert(p, x);
    assert forall|i: int, j: int| 0 <= i < j < t.len() implies !lex_before(#[trigger] t[i].id, #[trigger] t[j].id) by {
        if i < p && j < p {
            assert(t[i] == s[i] && t[j] == s[j]);
        } else if i < p && j == p {
            assert(t[i] == s[i] && t[j] == x);
        } else if i < p {
            assert(t[i] == s[i] && t[j] == s[j - 1]);
        } else if i == p {
            assert(t[i] == x && t[j] == s[j - 1]);
            if lex_before(x.id, s[j - 1].id) {
                lemma_lex_before_transitive(s[p].id, x.id, s[j - 1].id);
                if j - 1 == p {
                    lemma_lex_before_irreflexive(s[p].id);
                }
            }
        } else {
            assert(t[i] == s[i - 1] && t[j] == s[j - 1]);
        }
    }
}

/// The session list is ordered newest first: whatever the files, no
/// session's id sorts before the id of a session listed after it.
pub proof fn law_sessions_newest_first(infos: Seq<SessionInfoView>)
    ensures
        newest_first(sort_newest_first(infos)),
    decreases infos.len(),
{
    if infos.len() > 0 {
        law_sessions_newest_first(infos.drop_last());
        lemma_insert_keeps_order(sort_newest_first(infos.drop_last()), infos.last());
    }
}

/// Ordering the session list neither drops nor adds an entry: the sorted
/// list holds exactly the entries collected, as a multiset.
pub proof fn law_sessions_sort_keeps_entries(infos: Seq<SessionInfoView>)
    ensures
        sort_newest_first(infos).to_multiset() == infos.to_multiset(),
    decreases infos.len(),
{
    if infos.len() == 0 {
        assert(sort_newest_first(infos) =~= infos);
    } else {
        let prev = infos.drop_last();
        let x = infos.last();
        law_sessions_sort_keeps_entries(prev);
        let sorted = sort_newest_first(prev);
        lemma_insert_pos(sorted, x);
        let pos = insert_pos(sorted, x);
        assert(sort_newest_first(infos) == sorted.insert(pos, x));
        vstd::seq_lib::to_multiset_insert(sorted, pos, x);
        vstd::seq_lib::to_multiset_build(prev, x);
        assert(prev.push(x) =~= infos);
        assert(sort_newest_first(infos).to_multiset() == sorted.to_multiset().insert(x));
        assert(infos.to_multiset() == prev.to_multiset().insert(x));
    }
}

/// Whether `c` may appear in a session id: an ASCII letter or digit, or '-'.
pub open spec fn is_session_id_char(c: char) -> bool {
    ('a' <= c <= 'z') || ('A' <= c <= 'Z') || ('0' <= c <= '9') || c == '-'
}

/// Whether `id` is a valid session id: non-empty, of ASCII letters, digits and '-'.
pub open spec fn valid_session_id(id: Seq<char>) -> bool {
    id.len() > 0 && forall|i: int| 0 <= i < id.len() ==> is_session_id_char(#[trigger] id[i])
}

/// The file name of session `id`. Ids come back from the frontend; never let
/// them escape the sessions directory.
pub fn session_file_name(id: &str) -> (name: Result<String, String>)
    ensures
        match name {
            Ok(n) => valid_session_id(id@) && n@ == id@ + ".jsonl"@,
            Err(e) => !valid_session_id(id@) && e@ == "不正なセッションIDです"@,
        },
{
    let chars = chars_of(id);
    let mut i: usize = 0;
    while i < chars.len()
        invariant
            i <= chars.len(),
            chars@ == id@,
            forall|j: int| 0 <= j < i ==> is_session_id_char(#[trigger] chars@[j]),
        decreases chars.len() - i,
    {
        let c = chars[i];
        if !(('a' <= c && c <= 'z') || ('A' <= c && c <= 'Z') || ('0' <= c && c <= '9') || c == '-') {
            return Err("不正なセッションIDです".to_owned());
        }
        i = i + 1;
    }
    if chars.len() == 0 {
        return Err("不正なセッションIDです".to_owned());
    }
    let mut name = id.to_owned();
    name.append(".jsonl");
    Ok(name)
}

} // verus!
