//! Chunking and request planning for Ollama summaries, and NDJSON stream framing.
use vstd::prelude::*;

use vstd::utf8::{
    decode_utf8, is_continuation_byte, is_leading_byte_width_2, is_leading_byte_width_3,
    is_leading_byte_width_4, valid_utf8,
};

use crate::text::{chars_of, decimal, join_lines, lemma_text_lines_no_newline, lines_of, push_decimal, text_lines, views};

verus! {

/// Character budget per summarization request. Japanese averages roughly one
/// token per character, so this stays well inside the requested context window.
pub const SUMMARY_CHUNK_CHARS: usize = 6000;

/// Number of characters of the separator placed between interim notes ("\n\n---\n\n").
pub const NOTE_SEPARATOR_LEN: usize = 7;

/// The separator placed between interim notes when they are merged.
pub open spec fn note_separator() -> Seq<char> {
    NOTE_SEPARATOR@
}

/// The separator placed between interim notes when they are merged.
pub const NOTE_SEPARATOR: &'static str = "\n\n---\n\n";

/// One step of line chunking: `line` joins the open chunk when the chunk, a '\n'
/// and the line fit in `max` characters; otherwise the open chunk is closed first.
pub open spec fn chunk_step(
    acc: (Seq<Seq<char>>, Seq<char>),
    line: Seq<char>,
    max: nat,
) -> (Seq<Seq<char>>, Seq<char>) {
    let (chunks, cur) = acc;
    if cur.len() == 0 {
        (chunks, line)
    } else if cur.len() + 1 + line.len() > max {
        (chunks.push(cur), line)
    } else {
        (chunks, cur + seq!['\n'] + line)
    }
}

/// Closed chunks and the open chunk after placing `lines` in order.
pub open spec fn chunk_fold(lines: Seq<Seq<char>>, max: nat) -> (Seq<Seq<char>>, Seq<char>)
    decreases lines.len(),
{
    if lines.len() == 0 {
        (Seq::empty(), Seq::empty())
    } else {
        chunk_step(chunk_fold(lines.drop_last(), max), lines.last(), max)
    }
}

/// The chunks of `text` for a budget of `max` characters per chunk.
pub open spec fn spec_split_chunks(text: Seq<char>, max: nat) -> Seq<Seq<char>> {
    let (chunks, cur) = chunk_fold(text_lines(text), max);
    if cur.len() == 0 {
        chunks
    } else {
        chunks.push(cur)
    }
}

/// Splits text into chunks of at most `max_chars` characters, breaking on
/// line boundaries (one line = one utterance). A single oversized line
/// becomes its own chunk rather than being cut mid-sentence.
pub fn split_chunks(text: &str, max_chars: usize) -> (chunks: Vec<String>)
    ensures
        views(chunks@) == spec_split_chunks(text@, max_chars as nat),
{
    let lines = lines_of(text);
    let ghost lv = views(lines@);
    let mut chunks: Vec<String> = Vec::new();
    let mut current = String::new();
    let mut current_chars: usize = 0;
    let mut i: usize = 0;
    while i < lines.len()
        invariant
            lv == views(lines@),
            lv == text_lines(text@),
            i <= lines.len(),
            current_chars == current@.len(),
            (views(chunks@), current@) == chunk_fold(lv.take(i as int), max_chars as nat),
        decreases lines.len() - i,
    {
        assert(lv.take(i + 1).drop_last() =~= lv.take(i as int));
        let line = lines[i].as_str();
        let line_chars = line.unicode_len();
        if current_chars == 0 {
            current = line.to_owned();
            current_chars = line_chars;
        } else if (current_chars as u128) + 1 + (line_chars as u128) > (max_chars as u128) {
            let mut closed = line.to_owned();
            std::mem::swap(&mut closed, &mut current);
            chunks.push(closed);
            current_chars = line_chars;
            assert(views(chunks@) =~= chunk_fold(lv.take(i + 1), max_chars as nat).0);
        } else {
            current.push('\n');
            current.append(line);
            current_chars = current_chars + 1 + line_chars;
        }
        i = i + 1;
        assert(current@ =~= chunk_fold(lv.take(i as int), max_chars as nat).1);
    }
    assert(lv.take(lines.len() as int) =~= lv);
    if current_chars > 0 {
        chunks.push(current);
        assert(views(chunks@) =~= spec_split_chunks(text@, max_chars as nat));
    }
    chunks
}


/// The views of a sequence of string groups.
pub open spec fn group_views(v: Seq<Vec<String>>) -> Seq<Seq<Seq<char>>> {
    Seq::new(v.len(), |i: int| views(v[i]@))
}

/// Budget a note takes in a merge request: its characters and one separator.
pub open spec fn note_weight(note: Seq<char>) -> int {
    note.len() + NOTE_SEPARATOR_LEN
}

/// One step of note grouping: `note` joins the open group unless the group is
/// non-empty and the note's weight would take it over `max`.
pub open spec fn group_step(
    acc: (Seq<Seq<Seq<char>>>, Seq<Seq<char>>, int),
    note: Seq<char>,
    max: int,
) -> (Seq<Seq<Seq<char>>>, Seq<Seq<char>>, int) {
    let (groups, cur, weight) = acc;
    if cur.len() > 0 && weight + note_weight(note) > max {
        (groups.push(cur), seq![note], note_weight(note))
    } else {
        (groups, cur.push(note), weight + note_weight(note))
    }
}

/// Closed groups, the open group and its weight after placing `notes` in order.
pub open spec fn group_fold(notes: Seq<Seq<char>>, max: int) -> (
    Seq<Seq<Seq<char>>>,
    Seq<Seq<char>>,
    int,
)
    decreases notes.len(),
{
    if notes.len() == 0 {
        (Seq::empty(), Seq::empty(), 0)
    } else {
        group_step(group_fold(notes.drop_last(), max), notes.last(), max)
    }
}

/// The groups that `notes` fall into for a budget of `max` characters.
pub open spec fn spec_group_by_budget(notes: Seq<Seq<char>>, max: int) -> Seq<Seq<Seq<char>>> {
    let (groups, cur, _) = group_fold(notes, max);
    if cur.len() == 0 {
        groups
    } else {
        groups.push(cur)
    }
}

/// The open group holds at most one note, or stays within the budget.
proof fn lemma_group_fold_weight(notes: Seq<Seq<char>>, max: int)
    ensures
        ({
            let (groups, cur, weight) = group_fold(notes, max);
            &&& cur.len() == 0 ==> weight == 0
            &&& cur.len() == 1 ==> weight == note_weight(cur[0])
            &&& cur.len() > 1 ==> weight <= max
            &&& weight >= 0
        }),
    decreases notes.len(),
{
    if notes.len() > 0 {
        lemma_group_fold_weight(notes.drop_last(), max);
    }
}

/// Groups whole notes into batches whose joined length stays within budget.
/// Notes are never split internally, so a section header can't be
/// severed from its bullets.
pub fn group_by_budget(notes: Vec<String>, max_chars: usize) -> (groups: Vec<Vec<String>>)
    ensures
        group_views(groups@) == spec_group_by_budget(views(notes@), max_chars as int),
{
    let ghost nv = views(notes@);
    let mut groups: Vec<Vec<String>> = Vec::new();
    let mut current: Vec<String> = Vec::new();
    let mut current_chars: u128 = 0;
    let mut i: usize = 0;
    while i < notes.len()
        invariant
            nv == views(notes@),
            i <= notes.len(),
            (group_views(groups@), views(current@), current_chars as int) == group_fold(
                nv.take(i as int),
                max_chars as int,
            ),
            current_chars <= usize::MAX as u128 + 7 || current_chars <= max_chars as u128,
        decreases notes.len() - i,
    {
        assert(nv.take(i + 1).drop_last() =~= nv.take(i as int));
        proof {
            lemma_group_fold_weight(nv.take(i as int), max_chars as int);
        }
        let note = notes[i].clone();
        let len: u128 = note.as_str().unicode_len() as u128 + NOTE_SEPARATOR_LEN as u128;
        if current.len() > 0 && current_chars + len > max_chars as u128 {
            let mut closed: Vec<String> = Vec::new();
            std::mem::swap(&mut closed, &mut current);
            groups.push(closed);
            current_chars = 0;
            assert(group_views(groups@) =~= group_fold(nv.take(i + 1), max_chars as int).0);
        }
        current_chars = current_chars + len;
        current.push(note);
        i = i + 1;
        assert(views(current@) =~= group_fold(nv.take(i as int), max_chars as int).1);
        assert(group_views(groups@) =~= group_fold(nv.take(i as int), max_chars as int).0);
    }
    assert(nv.take(notes.len() as int) =~= nv);
    if current.len() > 0 {
        groups.push(current);
        assert(group_views(groups@) =~= spec_group_by_budget(nv, max_chars as int));
    }
    groups
}


/// What the closed chunks and the open chunk hold after any prefix of lines:
/// each closed chunk is non-empty and within budget or a single line, and the
/// open chunk is within budget or a single line.
proof fn lemma_chunk_fold_shape(lines: Seq<Seq<char>>, max: nat)
    requires
        forall|i: int| 0 <= i < lines.len() ==> !#[trigger] lines[i].contains('\n'),
    ensures
        ({
            let (chunks, cur) = chunk_fold(lines, max);
            &&& forall|i: int|
                0 <= i < chunks.len() ==> #[trigger] chunks[i].len() > 0 && (chunks[i].len() <= max
                    || !chunks[i].contains('\n'))
            &&& cur.len() <= max || !cur.contains('\n')
        }),
    decreases lines.len(),
{
    if lines.len() > 0 {
        let init = lines.drop_last();
        assert forall|i: int| 0 <= i < init.len() implies !#[trigger] init[i].contains('\n') by {
            assert(init[i] == lines[i]);
        }
        lemma_chunk_fold_shape(init, max);
        let (chunks, cur) = chunk_fold(init, max);
        let line = lines.last();
        assert(!line.contains('\n')) by {
            assert(line == lines[lines.len() - 1]);
        }
        if cur.len() > 0 && cur.len() + 1 + line.len() > max {
            assert(forall|i: int| 0 <= i < chunks.len() ==> chunks.push(cur)[i] == chunks[i]);
        }
    }
}

/// Every chunk is non-empty, and holds at most `max` characters unless it is a
/// single line longer than that (a line is never cut).
pub proof fn law_chunks_within_budget(text: Seq<char>, max: nat)
    ensures
        forall|i: int|
            0 <= i < spec_split_chunks(text, max).len() ==> {
                let c = #[trigger] spec_split_chunks(text, max)[i];
                &&& c.len() > 0
                &&& c.len() <= max || !c.contains('\n')
            },
{
    lemma_text_lines_no_newline(text);
    lemma_chunk_fold_shape(text_lines(text), max);
    let (chunks, cur) = chunk_fold(text_lines(text), max);
    if cur.len() > 0 {
        assert(forall|i: int| 0 <= i < chunks.len() ==> chunks.push(cur)[i] == chunks[i]);
    }
}

/// Joining the closed chunks and the open one gives back the lines joined,
/// as long as no line is empty.
proof fn lemma_chunk_fold_joins(lines: Seq<Seq<char>>, max: nat)
    requires
        forall|i: int| 0 <= i < lines.len() ==> #[trigger] lines[i].len() > 0,
    ensures
        ({
            let (chunks, cur) = chunk_fold(lines, max);
            &&& lines.len() == 0 ==> chunks.len() == 0 && cur.len() == 0
            &&& lines.len() > 0 ==> cur.len() > 0 && join_lines(chunks.push(cur)) == join_lines(lines)
        }),
    decreases lines.len(),
{
    if lines.len() > 0 {
        let init = lines.drop_last();
        assert forall|i: int| 0 <= i < init.len() implies #[trigger] init[i].len() > 0 by {
            assert(init[i] == lines[i]);
        }
        lemma_chunk_fold_joins(init, max);
        let (chunks, cur) = chunk_fold(init, max);
        let line = lines.last();
        assert(line.len() > 0) by {
            assert(line == lines[lines.len() - 1]);
        }
        if cur.len() == 0 {
            assert(chunks.push(line).drop_last() =~= chunks);
        } else if cur.len() + 1 + line.len() > max {
            let next = chunks.push(cur).push(line);
            assert(next.drop_last() =~= chunks.push(cur));
            assert(init =~= lines.drop_last());
        } else {
            let glued = cur + seq!['\n'] + line;
            assert(chunks.push(glued).drop_last() =~= chunks);
            assert(chunks.push(cur).drop_last() =~= chunks);
            if chunks.len() > 0 {
                assert(join_lines(chunks.push(glued)) =~= join_lines(chunks) + seq!['\n'] + glued);
                assert(join_lines(chunks.push(cur)) =~= join_lines(chunks) + seq!['\n'] + cur);
                assert(join_lines(chunks.push(glued)) =~= join_lines(chunks.push(cur)) + seq!['\n'] + line);
            } else {
                assert(join_lines(chunks.push(glued)) =~= glued);
                assert(join_lines(chunks.push(cur)) =~= cur);
            }
        }
    }
}

/// Chunking loses nothing: when no line of `text` is empty, the chunks joined
/// with '\n' are the lines of `text` joined with '\n'.
pub proof fn law_chunks_keep_text(text: Seq<char>, max: nat)
    requires
        forall|i: int| 0 <= i < text_lines(text).len() ==> #[trigger] text_lines(text)[i].len() > 0,
    ensures
        join_lines(spec_split_chunks(text, max)) == join_lines(text_lines(text)),
{
    lemma_chunk_fold_joins(text_lines(text), max);
}

/// `groups` laid end to end.
pub open spec fn flatten_groups(groups: Seq<Seq<Seq<char>>>) -> Seq<Seq<char>>
    decreases groups.len(),
{
    if groups.len() == 0 {
        Seq::empty()
    } else {
        flatten_groups(groups.drop_last()) + groups.last()
    }
}

/// Total budget that the notes of `group` take.
pub open spec fn group_weight(group: Seq<Seq<char>>) -> int
    decreases group.len(),
{
    if group.len() == 0 {
        0
    } else {
        group_weight(group.drop_last()) + note_weight(group.last())
    }
}

/// `parts` joined with `sep` between consecutive parts.
pub open spec fn join_with(parts: Seq<Seq<char>>, sep: Seq<char>) -> Seq<char>
    decreases parts.len(),
{
    if parts.len() == 0 {
        Seq::empty()
    } else if parts.len() == 1 {
        parts[0]
    } else {
        join_with(parts.drop_last(), sep) + sep + parts.last()
    }
}

/// A non-empty group joined with the note separator is its weight less one separator long.
proof fn lemma_joined_len(group: Seq<Seq<char>>)
    requires
        group.len() > 0,
    ensures
        join_with(group, note_separator()).len() + NOTE_SEPARATOR_LEN == group_weight(group),
    decreases group.len(),
{
    reveal_strlit("\n\n---\n\n");
    assert(note_separator().len() == 7);
    if group.len() > 1 {
        lemma_joined_len(group.drop_last());
    } else {
        assert(group.drop_last().len() == 0);
        assert(group_weight(group.drop_last()) == 0);
        assert(group.last() == group[0]);
    }
}

/// The fold keeps every note, in order, in non-empty groups, and the open
/// group's weight is the one the fold tracks.
proof fn lemma_group_fold_keeps(notes: Seq<Seq<char>>, max: int)
    ensures
        ({
            let (groups, cur, weight) = group_fold(notes, max);
            &&& weight == group_weight(cur)
            &&& (notes.len() > 0 <==> cur.len() > 0)
            &&& flatten_groups(groups) + cur == notes
            &&& forall|i: int|
                0 <= i < groups.len() ==> #[trigger] groups[i].len() > 0 && (groups[i].len() == 1
                    || group_weight(groups[i]) <= max)
            &&& cur.len() <= 1 || weight <= max
        }),
    decreases notes.len(),
{
    if notes.len() == 0 {
        assert(flatten_groups(Seq::<Seq<Seq<char>>>::empty()) + Seq::<Seq<char>>::empty() =~= notes);
    } else {
        let init = notes.drop_last();
        lemma_group_fold_keeps(init, max);
        let (groups, cur, weight) = group_fold(init, max);
        let note = notes.last();
        if cur.len() > 0 && weight + note_weight(note) > max {
            let g2 = groups.push(cur);
            assert(g2.drop_last() =~= groups);
            assert(forall|i: int| 0 <= i < groups.len() ==> g2[i] == groups[i]);
            assert(seq![note].drop_last() =~= Seq::<Seq<char>>::empty());
            assert(group_weight(seq![note].drop_last()) == 0);
            assert(seq![note].last() == note);
            assert(notes =~= init.push(note));
            assert(flatten_groups(g2) =~= flatten_groups(groups) + cur);
            assert(flatten_groups(g2) + seq![note] =~= notes);
        } else {
            assert(cur.push(note).drop_last() =~= cur);
            assert(cur.push(note).last() == note);
            assert(notes =~= init.push(note));
            assert(flatten_groups(groups) + cur.push(note) =~= (flatten_groups(groups) + cur).push(note));
        }
    }
}

/// Grouping keeps every note whole and in order, leaves no group empty,
/// never makes more groups than notes, and a group of two or more notes,
/// joined with the separator, stays within `max` characters.
pub proof fn law_groups_keep_notes(notes: Seq<Seq<char>>, max: int)
    ensures
        flatten_groups(spec_group_by_budget(notes, max)) == notes,
        spec_group_by_budget(notes, max).len() <= notes.len(),
        forall|i: int|
            0 <= i < spec_group_by_budget(notes, max).len() ==> {
                let g = #[trigger] spec_group_by_budget(notes, max)[i];
                &&& g.len() > 0
                &&& g.len() == 1 || join_with(g, note_separator()).len() <= max
            },
{
    lemma_group_fold_keeps(notes, max);
    let (groups, cur, weight) = group_fold(notes, max);
    let result = spec_group_by_budget(notes, max);
    if cur.len() > 0 {
        assert(result.drop_last() =~= groups);
        assert(forall|i: int| 0 <= i < groups.len() ==> result[i] == groups[i]);
    } else {
        assert(flatten_groups(groups) + cur =~= flatten_groups(groups));
    }
    assert forall|i: int| 0 <= i < result.len() implies {
        let g = #[trigger] result[i];
        &&& g.len() > 0
        &&& g.len() == 1 || join_with(g, note_separator()).len() <= max
    } by {
        lemma_joined_len(result[i]);
    }
    lemma_flatten_len(result);
}

/// Laying out non-empty groups gives at least as many notes as groups.
proof fn lemma_flatten_len(groups: Seq<Seq<Seq<char>>>)
    requires
        forall|i: int| 0 <= i < groups.len() ==> #[trigger] groups[i].len() > 0,
    ensures
        flatten_groups(groups).len() >= groups.len(),
    decreases groups.len(),
{
    if groups.len() > 0 {
        let init = groups.drop_last();
        assert forall|i: int| 0 <= i < init.len() implies #[trigger] init[i].len() > 0 by {
            assert(init[i] == groups[i]);
        }
        lemma_flatten_len(init);
        assert(groups.last() == groups[groups.len() - 1]);
    }
}


/// The instruction a summary request is sent with.
#[derive(Clone, Copy, Debug, PartialEq, Eq, Structural)]
pub enum SummaryPrompt {
    /// Minutes for a whole transcript that fits one request
    Whole,
    /// Interim notes for one part of a long transcript
    Part,
    /// Minutes merged from interim notes
    Merge,
}

/// One summarization call: the instruction and the user message.
pub struct SummaryRequest {
    pub prompt: SummaryPrompt,
    pub user: String,
}

impl View for SummaryRequest {
    type V = (SummaryPrompt, Seq<char>);

    open spec fn view(&self) -> (SummaryPrompt, Seq<char>) {
        (self.prompt, self.user@)
    }
}

/// The views of a sequence of requests.
pub open spec fn request_views(v: Seq<SummaryRequest>) -> Seq<(SummaryPrompt, Seq<char>)> {
    Seq::new(v.len(), |i: int| v[i].view())
}

/// The user message for part `i` (counted from 0) of `total` parts.
pub open spec fn part_message(i: nat, total: nat, chunk: Seq<char>) -> Seq<char> {
    "(パート "@ + decimal(i + 1) + "/"@ + decimal(total) + ")\n"@ + chunk
}

/// The first round of requests for summarizing `transcript`: the whole
/// transcript at once when it fits one chunk, else one request per chunk.
pub open spec fn spec_plan_summary(transcript: Seq<char>) -> Seq<(SummaryPrompt, Seq<char>)> {
    let chunks = spec_split_chunks(transcript, SUMMARY_CHUNK_CHARS as nat);
    if chunks.len() <= 1 {
        seq![(SummaryPrompt::Whole, transcript)]
    } else {
        Seq::new(
            chunks.len(),
            |i: int| (SummaryPrompt::Part, part_message(i as nat, chunks.len(), chunks[i])),
        )
    }
}

/// A summary is planned as one whole-transcript request only when the
/// transcript makes at most one chunk; a transcript of several chunks is
/// planned as one labelled part request per chunk, in order, part `i` of `n`
/// carrying "(パート i/n)" and then exactly chunk `i`.
pub proof fn law_plan_follows_chunks(transcript: Seq<char>)
    ensures
        ({
            let chunks = spec_split_chunks(transcript, SUMMARY_CHUNK_CHARS as nat);
            let plan = spec_plan_summary(transcript);
            &&& plan.len() >= 1
            &&& forall|i: int|
                0 <= i < plan.len() && (#[trigger] plan[i]).0 == SummaryPrompt::Whole ==> chunks.len() <= 1
                    && plan.len() == 1 && plan[i].1 == transcript
            &&& chunks.len() >= 2 ==> plan.len() == chunks.len() && forall|i: int|
                0 <= i < plan.len() ==> (#[trigger] plan[i]).0 == SummaryPrompt::Part && plan[i].1
                    == "(パート "@ + decimal((i + 1) as nat) + "/"@ + decimal(chunks.len()) + ")\n"@
                    + chunks[i]
        }),
{
}

/// The first round of requests that summarizing `transcript` takes.
/// Long transcripts (1-2h meetings) exceed a small local model's context, so
/// they are map-reduced: interim notes per transcript chunk first.
pub fn plan_summary(transcript: &str) -> (requests: Vec<SummaryRequest>)
    ensures
        request_views(requests@) == spec_plan_summary(transcript@),
{
    let chunks = split_chunks(transcript, SUMMARY_CHUNK_CHARS);
    let mut requests: Vec<SummaryRequest> = Vec::new();
    if chunks.len() <= 1 {
        requests.push(SummaryRequest { prompt: SummaryPrompt::Whole, user: transcript.to_owned() });
        assert(request_views(requests@) =~= spec_plan_summary(transcript@));
        return requests;
    }
    let total = chunks.len();
    let ghost cv = views(chunks@);
    let mut i: usize = 0;
    while i < total
        invariant
            total == chunks.len(),
            cv == views(chunks@),
            cv == spec_split_chunks(transcript@, SUMMARY_CHUNK_CHARS as nat),
            i <= total,
            requests.len() == i,
            forall|j: int|
                0 <= j < i ==> #[trigger] requests@[j].view() == (
                    SummaryPrompt::Part,
                    part_message(j as nat, total as nat, cv[j]),
                ),
        decreases total - i,
    {
        let mut user = String::new();
        user.append("(パート ");
        push_decimal(&mut user, (i as u64) + 1);
        user.append("/");
        push_decimal(&mut user, total as u64);
        user.append(")\n");
        user.append(chunks[i].as_str());
        assert(user@ =~= part_message(i as nat, total as nat, cv[i as int]));
        requests.push(SummaryRequest { prompt: SummaryPrompt::Part, user });
        i = i + 1;
    }
    assert(request_views(requests@) =~= spec_plan_summary(transcript@));
    requests
}

/// `notes` joined with the note separator.
pub fn join_notes(notes: &Vec<String>) -> (joined: String)
    ensures
        joined@ == join_with(views(notes@), note_separator()),
{
    let ghost nv = views(notes@);
    let mut joined = String::new();
    let mut i: usize = 0;
    while i < notes.len()
        invariant
            nv == views(notes@),
            i <= notes.len(),
            joined@ == join_with(nv.take(i as int), note_separator()),
        decreases notes.len() - i,
    {
        assert(nv.take(i + 1).drop_last() =~= nv.take(i as int));
        if i > 0 {
            joined.append(NOTE_SEPARATOR);
        }
        joined.append(notes[i].as_str());
        i = i + 1;
        assert(joined@ =~= join_with(nv.take(i as int), note_separator()));
    }
    assert(nv.take(notes.len() as int) =~= nv);
    joined
}

/// Whether `notes` are merged into the final minutes in one request: a single
/// note, or notes whose joined text fits one request.
pub open spec fn merges_at_once(notes: Seq<Seq<char>>) -> bool {
    notes.len() == 1 || join_with(notes, note_separator()).len() <= SUMMARY_CHUNK_CHARS
}

/// What to do with the interim notes of a summary.
pub enum MergeStep {
    /// Send this request; its answer is the final minutes
    Final(SummaryRequest),
    /// Send these requests; their answers are the next round of notes
    Reduce(Vec<SummaryRequest>),
}

/// The next merge round for `notes`. When the notes themselves exceed one
/// request's budget (3h+ meetings) they are tree-reduced: note groups merged
/// with the merge prompt, never routed back through the transcript prompt.
pub fn merge_step(notes: Vec<String>) -> (step: MergeStep)
    ensures
        match step {
            MergeStep::Final(r) => merges_at_once(views(notes@)) && r.view() == (
                SummaryPrompt::Merge,
                join_with(views(notes@), note_separator()),
            ),
            MergeStep::Reduce(rs) => {
                let groups = spec_group_by_budget(views(notes@), SUMMARY_CHUNK_CHARS as int);
                &&& !merges_at_once(views(notes@))
                &&& request_views(rs@) == Seq::new(
                    groups.len(),
                    |i: int| (SummaryPrompt::Merge, join_with(groups[i], note_separator())),
                )
                &&& rs.len() <= notes.len()
            },
        },
{
    let merged = join_notes(&notes);
    if notes.len() == 1 || merged.as_str().unicode_len() <= SUMMARY_CHUNK_CHARS {
        return MergeStep::Final(SummaryRequest { prompt: SummaryPrompt::Merge, user: merged });
    }
    proof {
        law_groups_keep_notes(views(notes@), SUMMARY_CHUNK_CHARS as int);
    }
    let groups = group_by_budget(notes, SUMMARY_CHUNK_CHARS);
    let ghost gv = group_views(groups@);
    let mut requests: Vec<SummaryRequest> = Vec::new();
    let mut i: usize = 0;
    while i < groups.len()
        invariant
            gv == group_views(groups@),
            i <= groups.len(),
            requests.len() == i,
            forall|j: int|
                0 <= j < i ==> #[trigger] requests@[j].view() == (
                    SummaryPrompt::Merge,
                    join_with(gv[j], note_separator()),
                ),
        decreases groups.len() - i,
    {
        let user = join_notes(&groups[i]);
        requests.push(SummaryRequest { prompt: SummaryPrompt::Merge, user });
        i = i + 1;
    }
    assert(request_views(requests@) =~= Seq::new(
        gv.len(),
        |i: int| (SummaryPrompt::Merge, join_with(gv[i], note_separator())),
    ));
    MergeStep::Reduce(requests)
}


/// What `String::from_utf8_lossy` makes of `bytes`.
pub uninterp spec fn utf8_lossy(bytes: Seq<u8>) -> Seq<char>;

/// The text `String::from_utf8_lossy` gives for `bytes`: valid UTF-8 decodes
/// to exactly its characters; other input as [`utf8_lossy`] names it.
pub open spec fn lossy_decode(bytes: Seq<u8>) -> Seq<char> {
    if valid_utf8(bytes) {
        decode_utf8(bytes)
    } else {
        utf8_lossy(bytes)
    }
}

/// Calls `String::from_utf8_lossy`: the result is a function of the bytes, and
/// valid UTF-8 decodes to exactly its characters (std documentation: "If our byte
/// slice is valid UTF-8, then no conversion"). What invalid sequences become
/// (U+FFFD replacements) is left unsaid.
#[verifier::external_body]
fn decode_lossy(bytes: &[u8]) -> (text: String)
    ensures
        valid_utf8(bytes@) ==> text@ == decode_utf8(bytes@),
        !valid_utf8(bytes@) ==> text@ == utf8_lossy(bytes@),
{
    String::from_utf8_lossy(bytes).into_owned()
}

/// Number of bytes the UTF-8 sequence led by `b` takes (1 for a byte that
/// leads no longer sequence).
pub open spec fn lead_width(b: u8) -> int {
    if is_leading_byte_width_2(b) {
        2
    } else if is_leading_byte_width_3(b) {
        3
    } else if is_leading_byte_width_4(b) {
        4
    } else {
        1
    }
}

/// Whether `bytes` end with a sequence that starts at `j` and is cut short:
/// a leading byte among the last three, only continuation bytes after it,
/// and fewer bytes than it announces.
pub open spec fn cut_at(bytes: Seq<u8>, j: int) -> bool {
    &&& 0 <= j < bytes.len()
    &&& bytes.len() - j <= 3
    &&& !is_continuation_byte(bytes[j])
    &&& forall|k: int| j < k < bytes.len() ==> is_continuation_byte(#[trigger] bytes[k])
    &&& bytes.len() - j < lead_width(bytes[j])
}

/// Where the bytes that can be decoded now end: at the start of a sequence
/// cut short at the end, or at the end.
pub open spec fn decodable_len(bytes: Seq<u8>) -> int {
    if exists|j: int| cut_at(bytes, j) {
        choose|j: int| cut_at(bytes, j)
    } else {
        bytes.len() as int
    }
}

/// A buffer holding `text` and the held-back `held` bytes after `bytes`
/// arrive: the decodable bytes are decoded, a sequence cut short is held.
pub open spec fn feed(text: Seq<char>, held: Seq<u8>, bytes: Seq<u8>) -> (Seq<char>, Seq<u8>) {
    let received = held + bytes;
    let k = decodable_len(received);
    (text + lossy_decode(received.take(k)), received.skip(k))
}

/// The buffer after `chunks` arrive one after another.
pub open spec fn feed_all(text: Seq<char>, held: Seq<u8>, chunks: Seq<Seq<u8>>) -> (Seq<char>, Seq<u8>)
    decreases chunks.len(),
{
    if chunks.len() == 0 {
        (text, held)
    } else {
        let next = feed(text, held, chunks[0]);
        feed_all(next.0, next.1, chunks.drop_first())
    }
}

/// The bytes of `chunks`, one after another.
pub open spec fn concat_bytes(chunks: Seq<Seq<u8>>) -> Seq<u8>
    decreases chunks.len(),
{
    if chunks.len() == 0 {
        Seq::empty()
    } else {
        chunks[0] + concat_bytes(chunks.drop_first())
    }
}

/// Index of the first byte of `bytes` that `decodable_len` leaves held back.
fn decodable_len_of(bytes: &Vec<u8>) -> (k: usize)
    ensures
        k == decodable_len(bytes@),
{
    let n = bytes.len();
    let lo: usize = if n >= 3 { n - 3 } else { 0 };
    let mut i: usize = n;
    while i > lo
        invariant
            lo <= i <= n,
            n == bytes.len(),
            lo == (if n >= 3 { n - 3 } else { 0 }),
            forall|k: int| i <= k < n ==> is_continuation_byte(#[trigger] bytes@[k]),
        decreases i,
    {
        let b = bytes[i - 1];
        if b < 0x80 || b > 0xbf {
            let j = i - 1;
            let w: usize = if 0xc0 <= b && b <= 0xdf {
                2
            } else if 0xe0 <= b && b <= 0xef {
                3
            } else if 0xf0 <= b && b <= 0xf7 {
                4
            } else {
                1
            };
            assert(w == lead_width(b));
            proof {
                assert forall|j2: int| cut_at(bytes@, j2) implies j2 == j by {
                    if j2 < j {
                        assert(is_continuation_byte(bytes@[j as int]));
                    } else if j2 > j {
                        assert(is_continuation_byte(bytes@[j2]));
                    }
                }
            }
            if n - j < w {
                assert(cut_at(bytes@, j as int));
                return j;
            } else {
                assert(!cut_at(bytes@, j as int));
                return n;
            }
        }
        i = i - 1;
    }
    assert forall|j2: int| !cut_at(bytes@, j2) by {
        if cut_at(bytes@, j2) {
            assert(is_continuation_byte(bytes@[j2]));
        }
    }
    n
}

/// In valid UTF-8, the sequence a leading byte at `p` starts fits in the
/// bytes, and the byte after it (if any) starts the next one.
proof fn lemma_sequence_at(x: Seq<u8>, p: int)
    requires
        valid_utf8(x),
        0 <= p < x.len(),
        !is_continuation_byte(x[p]),
    ensures
        p + lead_width(x[p]) <= x.len(),
        p + lead_width(x[p]) < x.len() ==> !is_continuation_byte(x[p + lead_width(x[p])]),
{
    vstd::utf8::is_char_boundary_iff_not_is_continuation_byte(x, p);
    vstd::utf8::valid_utf8_split(x, p);
    let s = x.subrange(p, x.len() as int);
    assert(valid_utf8(s));
    assert(s[0] == x[p]);
    assert(vstd::utf8::valid_first_scalar(s));
    let w = vstd::utf8::length_of_first_scalar(s);
    assert(w == lead_width(x[p]));
    let rest = vstd::utf8::pop_first_scalar(s);
    assert(valid_utf8(rest));
    if rest.len() > 0 {
        assert(vstd::utf8::valid_first_scalar(rest));
        assert(rest[0] == x[p + w]);
    }
}

/// The last leading byte before `n`, at or after the leading byte at `q`.
proof fn lemma_last_lead(x: Seq<u8>, q: int, n: int) -> (p: int)
    requires
        0 <= q < n <= x.len(),
        !is_continuation_byte(x[q]),
    ensures
        q <= p < n,
        !is_continuation_byte(x[p]),
        forall|k: int| p < k < n ==> is_continuation_byte(#[trigger] x[k]),
    decreases n - q,
{
    if exists|k: int| q < k < n && !is_continuation_byte(#[trigger] x[k]) {
        let k = choose|k: int| q < k < n && !is_continuation_byte(#[trigger] x[k]);
        lemma_last_lead(x, k, n)
    } else {
        q
    }
}

/// When the bytes received so far continue into valid UTF-8, the decodable
/// part ends where a character starts (or at the end of all bytes).
proof fn lemma_decodable_len_boundary(r: Seq<u8>, t: Seq<u8>)
    requires
        valid_utf8(r + t),
    ensures
        0 <= decodable_len(r) <= r.len(),
        decodable_len(r) == (r + t).len() || !is_continuation_byte((r + t)[decodable_len(r)]),
{
    let x = r + t;
    let n = r.len() as int;
    if exists|j: int| cut_at(r, j) {
        let j = choose|j: int| cut_at(r, j);
        assert(x[j] == r[j]);
    } else {
        if n < x.len() && is_continuation_byte(x[n]) {
            assert(vstd::utf8::valid_first_scalar(x));
            if n == 0 {
                assert(x[0] == x[n]);
            } else {
                let p = lemma_last_lead(x, 0, n);
                lemma_sequence_at(x, p);
                let w = lead_width(x[p]);
                if p + w <= n {
                    if p + w < n {
                        assert(is_continuation_byte(x[p + w]));
                    }
                }
                assert forall|k: int| p < k < r.len() implies is_continuation_byte(#[trigger] r[k]) by {
                    assert(r[k] == x[k]);
                }
                assert(r[p] == x[p]);
                assert(cut_at(r, p));
            }
        }
    }
}

/// Valid UTF-8 received whole is decoded whole: nothing is held back.
proof fn lemma_decodable_len_whole(r: Seq<u8>)
    requires
        valid_utf8(r),
    ensures
        decodable_len(r) == r.len(),
{
    if exists|j: int| cut_at(r, j) {
        let j = choose|j: int| cut_at(r, j);
        lemma_sequence_at(r, j);
    }
}

/// However a valid UTF-8 stream is cut into chunks, the text a buffer hands
/// on is the stream decoded character by character: after any chunks, the
/// text so far followed by the decoding of the held bytes and the bytes still
/// to come is the decoding of the whole stream, and once the last chunk has
/// arrived nothing is held back.
pub proof fn law_stream_decodes_whole_characters(
    text: Seq<char>,
    held: Seq<u8>,
    chunks: Seq<Seq<u8>>,
    rest: Seq<u8>,
)
    requires
        valid_utf8(held + concat_bytes(chunks) + rest),
    ensures
        valid_utf8(feed_all(text, held, chunks).1 + rest),
        feed_all(text, held, chunks).0 + decode_utf8(feed_all(text, held, chunks).1 + rest) == text
            + decode_utf8(held + concat_bytes(chunks) + rest),
        chunks.len() > 0 && rest.len() == 0 ==> feed_all(text, held, chunks).1 == Seq::<u8>::empty(),
    decreases chunks.len(),
{
    if chunks.len() == 0 {
        assert(held + concat_bytes(chunks) + rest =~= held + rest);
    } else {
        let c = chunks[0];
        let cs = chunks.drop_first();
        let received = held + c;
        let tail = concat_bytes(cs) + rest;
        let x = received + tail;
        assert(x =~= held + concat_bytes(chunks) + rest);
        lemma_decodable_len_boundary(received, tail);
        let k = decodable_len(received);
        if k < x.len() {
            vstd::utf8::is_char_boundary_iff_not_is_continuation_byte(x, k);
        } else {
            vstd::utf8::is_char_boundary_start_end_of_seq(x);
        }
        vstd::utf8::valid_utf8_split(x, k);
        vstd::utf8::decode_utf8_split(x, k);
        assert(received.take(k) =~= x.subrange(0, k));
        let next = feed(text, held, c);
        assert(next.0 == text + decode_utf8(x.subrange(0, k)));
        assert(next.1 + concat_bytes(cs) + rest =~= x.subrange(k, x.len() as int));
        law_stream_decodes_whole_characters(next.0, next.1, cs, rest);
        assert(feed_all(text, held, chunks) == feed_all(next.0, next.1, cs));
        assert(text + decode_utf8(x.subrange(0, k)) + decode_utf8(x.subrange(k, x.len() as int))
            =~= text + decode_utf8(x));
        if rest.len() == 0 && cs.len() == 0 {
            assert(x =~= received);
            lemma_decodable_len_whole(received);
            assert(next.1 =~= Seq::<u8>::empty());
        }
    }
}

/// A fresh buffer fed a valid UTF-8 stream, cut into chunks anywhere (inside
/// a character too), ends with exactly the stream's characters and nothing
/// held back: two cuttings of the same bytes give the same text.
pub proof fn law_cutting_does_not_change_text(chunks: Seq<Seq<u8>>)
    requires
        chunks.len() > 0,
        valid_utf8(concat_bytes(chunks)),
    ensures
        feed_all(Seq::empty(), Seq::empty(), chunks) == (decode_utf8(concat_bytes(chunks)), Seq::<u8>::empty()),
{
    let e = Seq::<u8>::empty();
    assert(e + concat_bytes(chunks) + e =~= concat_bytes(chunks));
    law_stream_decodes_whole_characters(Seq::empty(), e, chunks, e);
    let r = feed_all(Seq::empty(), e, chunks);
    assert(r.1 + e =~= e);
    assert(Seq::<char>::empty() + decode_utf8(concat_bytes(chunks)) =~= decode_utf8(concat_bytes(chunks)));
    assert(r.0 + decode_utf8(e) =~= r.0) by {
        assert(decode_utf8(e) =~= Seq::<char>::empty());
    }
}

/// A copy of `bytes[from..to]`.
fn bytes_between(bytes: &Vec<u8>, from: usize, to: usize) -> (out: Vec<u8>)
    requires
        from <= to <= bytes.len(),
    ensures
        out@ == bytes@.subrange(from as int, to as int),
{
    let mut out: Vec<u8> = Vec::new();
    let mut i = from;
    while i < to
        invariant
            from <= i <= to <= bytes.len(),
            out@ == bytes@.subrange(from as int, i as int),
        decreases to - i,
    {
        out.push(bytes[i]);
        i = i + 1;
        assert(out@ =~= bytes@.subrange(from as int, i as int));
    }
    out
}

/// Index of the first '\n' in `s`, if any.
pub open spec fn first_newline(s: Seq<char>) -> Option<int>
    decreases s.len(),
{
    if s.len() == 0 {
        None
    } else if s[0] == '\n' {
        Some(0)
    } else {
        match first_newline(s.drop_first()) {
            Some(i) => Some(i + 1),
            None => None,
        }
    }
}

/// The index `first_newline` gives holds a '\n' and none comes before it;
/// without one, `s` holds no '\n'.
pub proof fn lemma_first_newline(s: Seq<char>)
    ensures
        match first_newline(s) {
            Some(p) => 0 <= p < s.len() && s[p] == '\n' && forall|j: int| 0 <= j < p ==> s[j] != '\n',
            None => forall|j: int| 0 <= j < s.len() ==> s[j] != '\n',
        },
    decreases s.len(),
{
    if s.len() > 0 && s[0] != '\n' {
        lemma_first_newline(s.drop_first());
        assert(forall|j: int| 1 <= j < s.len() ==> s[j] == s.drop_first()[j - 1]);
    }
}

/// The complete lines of `t` (each without its '\n'), in order, and what
/// follows the last '\n'.
pub open spec fn drain_lines(t: Seq<char>) -> (Seq<Seq<char>>, Seq<char>)
    decreases t.len(),
{
    match first_newline(t) {
        Some(p) => {
            proof {
                lemma_first_newline(t);
            }
            let rest = drain_lines(t.skip(p + 1));
            (seq![t.take(p)] + rest.0, rest.1)
        },
        None => (Seq::empty(), t),
    }
}

/// A '\n' found in `a` is still the first one once more text follows.
proof fn lemma_first_newline_append(a: Seq<char>, b: Seq<char>)
    requires
        first_newline(a).is_some(),
    ensures
        first_newline(a + b) == first_newline(a),
{
    lemma_first_newline(a);
    lemma_first_newline(a + b);
    let p = first_newline(a).unwrap();
    assert((a + b)[p] == a[p]);
    match first_newline(a + b) {
        Some(q) => {
            if q < p {
                assert((a + b)[q] == a[q]);
            } else if q > p {
                assert((a + b)[p] == '\n');
            }
        },
        None => {
            assert((a + b)[p] == '\n');
        },
    }
}

/// Cutting lines off text that arrives in two parts gives the lines of the
/// first part, then the lines of its remainder followed by the second part.
proof fn lemma_drain_lines_append(a: Seq<char>, b: Seq<char>)
    ensures
        drain_lines(a + b) == (drain_lines(a).0 + drain_lines(drain_lines(a).1 + b).0, drain_lines(
            drain_lines(a).1 + b,
        ).1),
    decreases a.len(),
{
    match first_newline(a) {
        Some(p) => {
            lemma_first_newline(a);
            lemma_first_newline_append(a, b);
            assert((a + b).take(p) =~= a.take(p));
            assert((a + b).skip(p + 1) =~= a.skip(p + 1) + b);
            lemma_drain_lines_append(a.skip(p + 1), b);
            let r = drain_lines(a.skip(p + 1));
            assert(seq![a.take(p)] + (r.0 + drain_lines(r.1 + b).0) =~= seq![a.take(p)] + r.0 + drain_lines(
                r.1 + b,
            ).0);
        },
        None => {
            assert(Seq::<Seq<char>>::empty() + drain_lines(a + b).0 =~= drain_lines(a + b).0);
        },
    }
}

/// What is left after cutting off the complete lines holds no '\n'.
proof fn lemma_drain_lines_rest(t: Seq<char>)
    ensures
        first_newline(drain_lines(t).1).is_none(),
    decreases t.len(),
{
    if let Some(p) = first_newline(t) {
        lemma_first_newline(t);
        lemma_drain_lines_rest(t.skip(p + 1));
    }
}

/// The lines handed on as `chunks` arrive, from a buffer holding `text` and
/// `held` that has handed on `out`: after each chunk every complete line is
/// cut off. Gives the lines handed on, the text left, and the bytes held.
pub open spec fn stream_lines(
    text: Seq<char>,
    held: Seq<u8>,
    out: Seq<Seq<char>>,
    chunks: Seq<Seq<u8>>,
) -> (Seq<Seq<char>>, Seq<char>, Seq<u8>)
    decreases chunks.len(),
{
    if chunks.len() == 0 {
        (out, text, held)
    } else {
        let f = feed(text, held, chunks[0]);
        let d = drain_lines(f.0);
        stream_lines(d.1, f.1, out + d.0, chunks.drop_first())
    }
}

proof fn lemma_stream_lines(
    text: Seq<char>,
    held: Seq<u8>,
    out: Seq<Seq<char>>,
    chunks: Seq<Seq<u8>>,
    rest: Seq<u8>,
)
    requires
        valid_utf8(held + concat_bytes(chunks) + rest),
    ensures
        ({
            let r = stream_lines(text, held, out, chunks);
            let whole = drain_lines(text + decode_utf8(held + concat_bytes(chunks) + rest));
            &&& valid_utf8(r.2 + rest)
            &&& r.0 + drain_lines(r.1 + decode_utf8(r.2 + rest)).0 == out + whole.0
            &&& drain_lines(r.1 + decode_utf8(r.2 + rest)).1 == whole.1
            &&& chunks.len() > 0 && rest.len() == 0 ==> r.2 == Seq::<u8>::empty()
            &&& chunks.len() > 0 ==> first_newline(r.1).is_none()
        }),
    decreases chunks.len(),
{
    if chunks.len() == 0 {
        assert(held + concat_bytes(chunks) + rest =~= held + rest);
    } else {
        let c = chunks[0];
        let cs = chunks.drop_first();
        let tail = concat_bytes(cs) + rest;
        assert(seq![c].drop_first() =~= Seq::<Seq<u8>>::empty());
        assert(concat_bytes(seq![c].drop_first()) == Seq::<u8>::empty());
        assert(concat_bytes(seq![c]) =~= c);
        assert(held + concat_bytes(seq![c]) + tail =~= held + concat_bytes(chunks) + rest);
        law_stream_decodes_whole_characters(text, held, seq![c], tail);
        let f = feed(text, held, c);
        assert(feed_all(text, held, seq![c]) == feed_all(f.0, f.1, seq![c].drop_first()));
        assert(f.1 + concat_bytes(cs) + rest =~= f.1 + tail);
        let d = drain_lines(f.0);
        let y = decode_utf8(f.1 + tail);
        lemma_drain_lines_append(f.0, y);
        lemma_stream_lines(d.1, f.1, out + d.0, cs, rest);
        let x = decode_utf8(held + concat_bytes(chunks) + rest);
        assert(text + x == f.0 + y);
        assert(out + d.0 + drain_lines(d.1 + y).0 =~= out + (d.0 + drain_lines(d.1 + y).0));
        if rest.len() == 0 && cs.len() == 0 {
            assert(f.1 + tail =~= f.1);
        }
        if cs.len() == 0 {
            lemma_drain_lines_rest(f.0);
        }
    }
}

/// However a valid UTF-8 response stream is cut into chunks (inside a
/// character too), a fresh buffer that cuts off every complete line after
/// each chunk hands on exactly the lines of the decoded stream, in order,
/// keeps what follows its last '\n', and holds no bytes back at the end:
/// two cuttings of the same bytes hand on the same lines.
pub proof fn law_stream_lines_do_not_depend_on_cutting(chunks: Seq<Seq<u8>>)
    requires
        chunks.len() > 0,
        valid_utf8(concat_bytes(chunks)),
    ensures
        stream_lines(Seq::empty(), Seq::empty(), Seq::empty(), chunks) == (
            drain_lines(decode_utf8(concat_bytes(chunks))).0,
            drain_lines(decode_utf8(concat_bytes(chunks))).1,
            Seq::<u8>::empty(),
        ),
{
    let e = Seq::<u8>::empty();
    let no_text = Seq::<char>::empty();
    let no_lines = Seq::<Seq<char>>::empty();
    assert(e + concat_bytes(chunks) + e =~= concat_bytes(chunks));
    lemma_stream_lines(no_text, e, no_lines, chunks, e);
    let r = stream_lines(no_text, e, no_lines, chunks);
    let x = decode_utf8(concat_bytes(chunks));
    assert(no_text + x =~= x);
    assert(r.2 + e =~= e);
    assert(decode_utf8(e) =~= no_text);
    assert(r.1 + no_text =~= r.1);
    lemma_drain_lines_rest(x);
    assert(drain_lines(r.1) == (no_lines, r.1));
    assert(r.0 + no_lines =~= r.0);
    assert(no_lines + drain_lines(x).0 =~= drain_lines(x).0);
}

/// Bytes of an NDJSON response stream, cut into complete lines as they arrive.
pub struct LineBuffer {
    pending: Vec<char>,
    held: Vec<u8>,
}

impl View for LineBuffer {
    /// The characters received but not yet handed out as a line, and the
    /// bytes held back: the start of a UTF-8 sequence whose remaining bytes
    /// have not arrived yet.
    type V = (Seq<char>, Seq<u8>);

    closed spec fn view(&self) -> (Seq<char>, Seq<u8>) {
        (self.pending@, self.held@)
    }
}

impl LineBuffer {
    pub fn new() -> (b: Self)
        ensures
            b@ == (Seq::<char>::empty(), Seq::<u8>::empty()),
    {
        LineBuffer { pending: Vec::new(), held: Vec::new() }
    }

    /// Appends a network chunk, decoded as (lossy) UTF-8. A character whose
    /// bytes are split across chunks is held back until its last byte
    /// arrives, so it is decoded whole; see [`feed`].
    pub fn push_chunk(&mut self, bytes: &[u8])
        ensures
            final(self)@ == feed(old(self)@.0, old(self)@.1, bytes@),
    {
        let mut received = self.held.clone();
        let mut i: usize = 0;
        while i < bytes.len()
            invariant
                i <= bytes.len(),
                received@ == old(self)@.1 + bytes@.take(i as int),
            decreases bytes.len() - i,
        {
            received.push(bytes[i]);
            i = i + 1;
            assert(received@ =~= old(self)@.1 + bytes@.take(i as int));
        }
        assert(bytes@.take(bytes.len() as int) =~= bytes@);
        let k = decodable_len_of(&received);
        let head = bytes_between(&received, 0, k);
        let tail = bytes_between(&received, k, received.len());
        let text = decode_lossy(head.as_slice());
        self.push_text(text.as_str());
        self.held = tail;
        assert(head@ =~= received@.take(k as int));
        assert(tail@ =~= received@.skip(k as int));
    }

    /// Appends decoded text.
    pub fn push_text(&mut self, text: &str)
        ensures
            final(self)@.0 == old(self)@.0 + text@,
            final(self)@.1 == old(self)@.1,
    {
        let chars = chars_of(text);
        let mut i: usize = 0;
        while i < chars.len()
            invariant
                i <= chars.len(),
                chars@ == text@,
                self.pending@ == old(self)@.0 + chars@.take(i as int),
                self.held@ == old(self)@.1,
            decreases chars.len() - i,
        {
            self.pending.push(chars[i]);
            i = i + 1;
            assert(self.pending@ =~= old(self)@.0 + chars@.take(i as int));
        }
        assert(chars@.take(chars.len() as int) =~= chars@);
    }

    /// Takes every complete line (each without its '\n') out of the buffer,
    /// in order; see [`drain_lines`].
    pub fn take_lines(&mut self) -> (lines: Vec<String>)
        ensures
            views(lines@) == drain_lines(old(self)@.0).0,
            final(self)@.0 == drain_lines(old(self)@.0).1,
            final(self)@.1 == old(self)@.1,
    {
        let mut lines: Vec<String> = Vec::new();
        loop
            invariant
                views(lines@) + drain_lines(self@.0).0 == drain_lines(old(self)@.0).0,
                drain_lines(self@.0).1 == drain_lines(old(self)@.0).1,
                self@.1 == old(self)@.1,
            ensures
                views(lines@) == drain_lines(old(self)@.0).0,
                self@.0 == drain_lines(old(self)@.0).1,
                self@.1 == old(self)@.1,
            decreases self@.0.len(),
        {
            let ghost before = self@.0;
            proof {
                lemma_first_newline(before);
            }
            match self.next_line() {
                Some(line) => {
                    let ghost rest = drain_lines(self@.0);
                    assert(drain_lines(before).0 == seq![line@] + rest.0);
                    lines.push(line);
                    assert(views(lines@) =~= views(lines@.drop_last()).push(line@));
                    assert(lines@.drop_last() =~= lines@.take(lines@.len() - 1));
                    assert(views(lines@) + rest.0 =~= views(lines@.drop_last()) + (seq![line@] + rest.0));
                },
                None => {
                    assert(views(lines@) + Seq::<Seq<char>>::empty() =~= views(lines@));
                    break;
                },
            }
        }
        lines
    }

    /// Takes the first complete line (without its '\n') out of the buffer;
    /// `None`, with the buffer unchanged, while no '\n' has arrived.
    pub fn next_line(&mut self) -> (line: Option<String>)
        ensures
            match first_newline(old(self)@.0) {
                Some(p) => line.is_some() && line.unwrap()@ == old(self)@.0.take(p)
                    && final(self)@.0 == old(self)@.0.skip(p + 1),
                None => line.is_none() && final(self)@.0 == old(self)@.0,
            },
            final(self)@.1 == old(self)@.1,
    {
        let mut p: usize = 0;
        while p < self.pending.len()
            invariant
                p <= self.pending.len(),
                forall|j: int| 0 <= j < p ==> self.pending@[j] != '\n',
            ensures
                p <= self.pending.len(),
                forall|j: int| 0 <= j < p ==> self.pending@[j] != '\n',
                p < self.pending.len() ==> self.pending@[p as int] == '\n',
            decreases self.pending.len() - p,
        {
            if self.pending[p] == '\n' {
                break;
            }
            p = p + 1;
        }
        proof {
            lemma_first_newline(self.pending@);
        }
        if p == self.pending.len() {
            return None;
        }
        let ghost old_view = self.pending@;
        assert(first_newline(old_view) == Some(p as int)) by {
            match first_newline(old_view) {
                Some(q) => {
                    if q < p {
                        assert(old_view[q] != '\n');
                    } else if q > p {
                        assert(old_view[p as int] == '\n');
                    }
                },
                None => {
                    assert(old_view[p as int] == '\n');
                },
            }
        }
        let line = crate::text::string_of(&self.pending, 0, p);
        let mut rest: Vec<char> = Vec::new();
        let mut k: usize = p + 1;
        while k < self.pending.len()
            invariant
                p + 1 <= k <= self.pending.len(),
                self.pending@ == old_view,
                rest@ == old_view.subrange(p + 1, k as int),
            decreases self.pending.len() - k,
        {
            rest.push(self.pending[k]);
            k = k + 1;
            assert(rest@ =~= old_view.subrange(p + 1, k as int));
        }
        self.pending = rest;
        assert(self.pending@ =~= old_view.skip(p + 1));
        assert(line@ =~= old_view.take(p as int));
        Some(line)
    }
}

/// Cutting a line off the buffer loses nothing: the line, the '\n' and the
/// rest of the buffer make up what was there, and the line holds no '\n'.
pub proof fn law_line_cut_keeps_text(s: Seq<char>)
    ensures
        match first_newline(s) {
            Some(p) => s.take(p) + seq!['\n'] + s.skip(p + 1) == s && !s.take(p).contains('\n'),
            None => !s.contains('\n'),
        },
{
    lemma_first_newline(s);
    match first_newline(s) {
        Some(p) => {
            assert(s.take(p) + seq!['\n'] + s.skip(p + 1) =~= s);
            if s.take(p).contains('\n') {
                let k = choose|k: int| 0 <= k < s.take(p).len() && s.take(p)[k] == '\n';
                assert(s[k] == '\n');
            }
        },
        None => {
            if s.contains('\n') {
                let k = choose|k: int| 0 <= k < s.len() && s[k] == '\n';
                assert(s[k] != '\n');
            }
        },
    }
}

/// What one parsed stream message asks for: the token text to hand on (with
/// the done flag) when it carries text or ends the stream, and whether the
/// stream stops after it.
pub struct StreamStep {
    pub emit: Option<(String, bool)>,
    pub stop: bool,
}

/// The step for one parsed stream message; see [`StreamStep`]. The stream
/// stops at the message that says it is done.
pub fn stream_step(content: Option<String>, done: bool) -> (step: StreamStep)
    ensures
        ({
            let text = match content {
                Some(c) => c@,
                None => Seq::<char>::empty(),
            };
            &&& step.stop == done
            &&& match step.emit {
                Some((delta, d)) => delta@ == text && d == done && (text.len() > 0 || done),
                None => text.len() == 0 && !done,
            }
        }),
{
    let delta = match content {
        Some(c) => c,
        None => String::new(),
    };
    let emit = if delta.as_str().unicode_len() > 0 || done {
        Some((delta, done))
    } else {
        None
    };
    StreamStep { emit, stop: done }
}

/// The text of a summary reply: the message content, trimmed; an error when
/// the reply carries none.
pub fn summary_text(content: Option<&str>) -> (text: Result<String, String>)
    ensures
        match content {
            Some(c) => text is Ok && text->Ok_0@ == crate::text::trimmed(c@),
            None => text is Err && text->Err_0@ == "Ollama の応答を解釈できません"@,
        },
{
    match content {
        Some(c) => Ok(crate::text::trim_text(c)),
        None => Err("Ollama の応答を解釈できません".to_owned()),
    }
}

} // verus!
