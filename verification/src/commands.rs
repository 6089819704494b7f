//! What the app's commands compute: the exported minutes document and its
//! file name, and the model a summary is written with.
use vstd::prelude::*;

use crate::clock::{
    file_stamp, is_clock_label, is_file_stamp, is_title_stamp, title_stamp, MAX_LABEL_MS,
};
use crate::history::{entry_views, to_markdown, valid_session_id, HistoryEntry};

verus! {

/// The exported minutes: a title with the export time, the summary section
/// when there is a summary, then the transcript.
pub open spec fn spec_export_document(stamp: Seq<char>, summary: Option<Seq<char>>, body: Seq<char>) -> Seq<char> {
    "# ミーティング記録 "@ + stamp + "\n\n"@ + match summary {
        Some(s) => "## サマリ\n\n"@ + s + "\n\n## トランスクリプト\n\n"@,
        None => Seq::empty(),
    } + body
}

/// The view of an optional text.
pub open spec fn opt_str_view(o: Option<&str>) -> Option<Seq<char>> {
    match o {
        Some(s) => Some(s@),
        None => None,
    }
}

/// The exported minutes; see [`spec_export_document`].
pub fn export_document(stamp: &str, summary: Option<&str>, body: &str) -> (md: String)
    ensures
        md@ == spec_export_document(stamp@, opt_str_view(summary), body@),
{
    let mut md = "# ミーティング記録 ".to_owned();
    md.append(stamp);
    md.append("\n\n");
    match summary {
        Some(s) => {
            md.append("## サマリ\n\n");
            md.append(s);
            md.append("\n\n## トランスクリプト\n\n");
        },
        None => {},
    }
    md.append(body);
    md
}

/// The minutes of the session `entries` exported at `now_ms`, with `summary`
/// when one was written: refused while nothing was said yet. Times are shown
/// in the machine's time zone.
pub fn compose_export(entries: &[HistoryEntry], now_ms: u64, summary: Option<&str>) -> (md: Result<String, String>)
    requires
        entries@.len() > 0 ==> now_ms <= MAX_LABEL_MS,
        forall|i: int| 0 <= i < entries@.len() ==> #[trigger] entries@[i].time_ms <= MAX_LABEL_MS,
    ensures
        match md {
            Err(e) => entries@.len() == 0 && e@ == "書き出す発話がまだありません"@,
            Ok(m) => entries@.len() > 0 && exists|stamp: Seq<char>, labels: Seq<Seq<char>>|
                #![trigger spec_export_document(stamp, opt_str_view(summary), crate::history::spec_markdown(entry_views(entries@), labels))]
                {
                    &&& is_title_stamp(stamp)
                    &&& labels.len() == entries@.len()
                    &&& forall|i: int| 0 <= i < labels.len() ==> is_clock_label(#[trigger] labels[i])
                    &&& m@ == spec_export_document(
                        stamp,
                        opt_str_view(summary),
                        crate::history::spec_markdown(entry_views(entries@), labels),
                    )
                },
        },
{
    if entries.len() == 0 {
        return Err("書き出す発話がまだありません".to_owned());
    }
    let body = to_markdown(entries);
    let ghost labels = choose|labels: Seq<Seq<char>>|
        {
            &&& labels.len() == entries@.len()
            &&& forall|i: int| 0 <= i < labels.len() ==> is_clock_label(#[trigger] labels[i])
            &&& body@ == crate::history::spec_markdown(entry_views(entries@), labels)
        };
    let stamp = title_stamp(now_ms);
    let md = export_document(stamp.as_str(), summary, body.as_str());
    assert(md@ == spec_export_document(
        stamp@,
        opt_str_view(summary),
        crate::history::spec_markdown(entry_views(entries@), labels),
    ));
    Ok(md)
}

/// The model a summary is written with when none is configured: the first
/// model Ollama lists.
pub fn first_listed_model(models: Vec<String>) -> (model: Result<String, String>)
    ensures
        match model {
            Ok(m) => models.len() > 0 && m@ == models@[0]@,
            Err(e) => models.len() == 0 && e@ == "Ollama にモデルがありません"@,
        },
{
    if models.len() == 0 {
        return Err("Ollama にモデルがありません".to_owned());
    }
    Ok(models[0].clone())
}

/// File name of the minutes exported at `now_ms`: "kotonoha-YYYYMMDD-HHMMSS.md".
pub fn export_file_name(now_ms: u64) -> (name: String)
    requires
        now_ms <= MAX_LABEL_MS,
    ensures
        exists|stamp: Seq<char>| is_file_stamp(stamp) && name@ == "kotonoha-"@ + stamp + ".md"@,
{
    let stamp = file_stamp(now_ms);
    let mut name = "kotonoha-".to_owned();
    name.append(stamp.as_str());
    name.append(".md");
    name
}

/// File name of a session started at `now_ms`: "YYYYMMDD-HHMMSS.jsonl".
pub fn new_session_file_name(now_ms: u64) -> (name: String)
    requires
        now_ms <= MAX_LABEL_MS,
    ensures
        exists|stamp: Seq<char>| is_file_stamp(stamp) && name@ == stamp + ".jsonl"@,
{
    let mut name = file_stamp(now_ms);
    name.append(".jsonl");
    name
}

/// A new session's id (its file name's stem) is a valid session id, so the
/// session can be loaded and deleted again by that id, as long as the year
/// has four digits (up to 9999; later years carry a '+', which ids refuse).
pub proof fn law_new_session_ids_valid(stamp: Seq<char>)
    requires
        is_file_stamp(stamp),
        stamp.len() == 15,
    ensures
        valid_session_id(stamp),
{
    assert forall|i: int| 0 <= i < stamp.len() implies crate::history::is_session_id_char(#[trigger] stamp[i]) by {
        if i < 4 {
            assert(stamp.take(4)[i] == stamp[i]);
        } else if 4 <= i < 8 {
            assert(stamp.subrange(4, 8)[i - 4] == stamp[i]);
        } else if i > 8 {
            assert(stamp.skip(9)[i - 9] == stamp[i]);
        }
    }
}

} // verus!
