use kotonoha::events::SourceKind;
use kotonoha::history::{
    apply_translation, count_utterance_lines, list_sessions, list_sessions_at, read_session, session_file_name,
    session_info, to_markdown, to_plain_text, History, HistoryEntry, SessionFile, SessionRecord,
};

const T0: u64 = 1_752_000_000_000;

#[test]
fn markdown_includes_speaker_text_and_translation() {
    let mut h = History::default();
    h.push_final("sys-1".into(), SourceKind::System, "Let's ship on July 10th.".into(), T0);
    h.push_final("mic-1".into(), SourceKind::Mic, "了解です。".into(), T0 + 1000);
    h.set_translation("sys-1", "7月10日にリリースしましょう。".to_string());

    let entries = h.snapshot();
    let md = to_markdown(&entries);
    assert!(md.contains("**[") && md.contains("] 相手**: Let's ship on July 10th."));
    assert!(md.contains("> 7月10日にリリースしましょう。"));
    assert!(md.contains("] 自分**: 了解です。"));

    let plain = to_plain_text(&entries);
    assert!(plain.contains("相手: Let's ship on July 10th. (7月10日にリリースしましょう。)"));
    assert!(plain.contains("自分: 了解です。"));
}

#[test]
fn empty_state() {
    let mut h = History::default();
    assert!(h.is_empty());
    h.push_final("a".into(), SourceKind::Mic, "x".into(), T0);
    assert!(!h.is_empty());
}

#[test]
fn session_records_replay_to_the_live_history() {
    let mut h = History::default();
    let mut written: Vec<Option<SessionRecord>> = Vec::new();
    written.push(Some(h.push_final("sys-1".into(), SourceKind::System, "hello".into(), T0)));
    written.push(Some(h.push_final("mic-1".into(), SourceKind::Mic, "こんにちは".into(), T0 + 5)));
    written.push(h.set_translation("sys-1", "やあ".into()));
    // Translation for an unknown utterance must not be persisted
    let stray = h.set_translation("sys-999", "捨てられる".into());
    assert!(stray.is_none());

    let entries = read_session(written.into_iter().filter(|r| r.is_some()).collect());
    assert_eq!(entries.len(), 2);
    assert_eq!(entries[0].text, "hello");
    assert_eq!(entries[0].translation.as_deref(), Some("やあ"));
    assert_eq!(entries[0].time_ms, T0);
    assert_eq!(entries[1].text, "こんにちは");
    assert_eq!(entries[1].translation, None);

    let live = h.snapshot();
    assert_eq!(live.len(), entries.len());
    for (a, b) in live.iter().zip(entries.iter()) {
        assert_eq!(a.utterance_id, b.utterance_id);
        assert_eq!(a.text, b.text);
        assert_eq!(a.translation, b.translation);
        assert_eq!(a.time_ms, b.time_ms);
    }
}

#[test]
fn stray_translation_produces_no_record() {
    let mut h = History::default();
    assert!(h.set_translation("sys-1", "訳".into()).is_none());
    assert!(h.is_empty());
}

#[test]
fn read_session_skips_lines_that_did_not_parse() {
    let records = vec![
        Some(SessionRecord::Utterance {
            utterance_id: "mic-1".into(),
            source: SourceKind::Mic,
            text: "x".into(),
            time_ms: 1,
        }),
        None,
    ];
    let entries = read_session(records);
    assert_eq!(entries.len(), 1);
    assert_eq!(entries[0].text, "x");
}

#[test]
fn translation_goes_to_the_newest_matching_utterance() {
    let mut entries = vec![
        HistoryEntry { utterance_id: "a".into(), source: SourceKind::Mic, text: "1".into(), translation: None, time_ms: 1 },
        HistoryEntry { utterance_id: "a".into(), source: SourceKind::Mic, text: "2".into(), translation: None, time_ms: 2 },
        HistoryEntry { utterance_id: "b".into(), source: SourceKind::Mic, text: "3".into(), translation: None, time_ms: 3 },
    ];
    assert!(apply_translation(&mut entries, "a", "T".into()));
    assert_eq!(entries[0].translation, None);
    assert_eq!(entries[1].translation.as_deref(), Some("T"));
    assert_eq!(entries[2].translation, None);
    assert!(!apply_translation(&mut entries, "zzz", "U".into()));
}

#[test]
fn rotate_session_clears_entries() {
    let mut h = History::default();
    h.push_final("a".into(), SourceKind::Mic, "x".into(), T0);
    h.rotate_session();
    assert!(h.is_empty());
}

#[test]
fn plain_text_joins_lines() {
    let mut h = History::new();
    h.push_final("m-0".into(), SourceKind::Mic, "one".into(), T0);
    h.push_final("s-1".into(), SourceKind::System, "two".into(), T0);
    assert_eq!(to_plain_text(&h.snapshot()), "自分: one\n相手: two");
    assert_eq!(to_plain_text(&[]), "");
}

#[test]
fn markdown_block_layout() {
    let mut h = History::new();
    h.push_final("m-0".into(), SourceKind::Mic, "one".into(), T0);
    let md = to_markdown(&h.snapshot());
    // "**[HH:MM:SS] 自分**: one\n\n"
    assert!(md.starts_with("**["));
    assert_eq!(&md[3 + 8..], "] 自分**: one\n\n");
    let label = &md[3..11];
    assert_eq!(label.as_bytes()[2], b':');
    assert_eq!(label.as_bytes()[5], b':');
}

#[test]
fn utterance_lines_are_counted_by_prefix() {
    let content = "{\"kind\":\"utterance\",\"utterance_id\":\"mic-1\"}\n{\"kind\":\"translation\"}\n{\"kind\":\"utterance\",\"x\":1}\n{\"kind\":\"utt";
    assert_eq!(count_utterance_lines(content), 2);
    assert_eq!(count_utterance_lines(""), 0);
}

#[test]
fn session_info_hides_files_without_utterances() {
    let file = SessionFile { id: "20260719-140302".into(), content: "{\"kind\":\"utt".into(), modified_ms: Some(5) };
    assert!(session_info(&file, Some(1)).is_none());
    let file = SessionFile {
        id: "20260719-140302".into(),
        content: "{\"kind\":\"utterance\"}\n".into(),
        modified_ms: None,
    };
    assert!(session_info(&file, None).is_none());
    let info = session_info(&file, Some(7)).unwrap();
    assert_eq!(info.started_at_ms, 7);
    assert_eq!(info.ended_at_ms, 7);
    assert_eq!(info.utterances, 1);
}

#[test]
fn sessions_are_listed_newest_first() {
    let line = "{\"kind\":\"utterance\"}\n";
    let files = vec![
        SessionFile { id: "20260101-090000".into(), content: line.into(), modified_ms: Some(1) },
        SessionFile { id: "not-a-time".into(), content: line.into(), modified_ms: Some(1) },
        SessionFile { id: "20260301-090000".into(), content: line.repeat(3), modified_ms: None },
        SessionFile { id: "20260201-090000".into(), content: String::new(), modified_ms: Some(1) },
    ];
    let sessions = list_sessions(files);
    let ids: Vec<&str> = sessions.iter().map(|s| s.id.as_str()).collect();
    assert_eq!(ids, vec!["20260301-090000", "20260101-090000"]);
    assert_eq!(sessions[0].utterances, 3);
    assert_eq!(sessions[0].ended_at_ms, sessions[0].started_at_ms);
    assert_eq!(sessions[1].ended_at_ms, 1);
}

#[test]
fn session_ids_cannot_escape_the_directory() {
    assert_eq!(session_file_name("20260719-140302"), Ok("20260719-140302.jsonl".to_string()));
    assert_eq!(session_file_name("../etc"), Err("不正なセッションIDです".to_string()));
    assert_eq!(session_file_name(""), Err("不正なセッションIDです".to_string()));
    assert_eq!(session_file_name("a/b"), Err("不正なセッションIDです".to_string()));
}

const U: &str = r#"{"kind":"utterance","utterance_id":"mic-1","source":"mic","text":"x","time_ms":1}"#;
const T: &str = r#"{"kind":"translation","utterance_id":"mic-1","text":"y"}"#;

#[test]
fn torn_and_foreign_files_are_hidden_from_the_listing() {
    let files = vec![
        SessionFile { id: "20260719-140302".into(), content: format!("{U}\n{T}\n"), modified_ms: Some(10) },
        SessionFile { id: "20260720-090000".into(), content: format!("{U}\n{U}\n"), modified_ms: Some(20) },
        SessionFile { id: "20260721-100000".into(), content: r#"{"kind":"utt"#.into(), modified_ms: Some(30) },
    ];
    let sessions = list_sessions(files);
    assert_eq!(sessions.len(), 2);
    assert_eq!(sessions[0].id, "20260720-090000");
    assert_eq!(sessions[0].utterances, 2);
    assert_eq!(sessions[1].id, "20260719-140302");
    assert_eq!(sessions[1].utterances, 1);
}

#[test]
fn listing_with_given_starts_keeps_started_files_only() {
    let files = vec![
        SessionFile { id: "20260719-140302".into(), content: format!("{U}\n{T}\n"), modified_ms: Some(10) },
        SessionFile { id: "20260720-090000".into(), content: format!("{U}\n{U}\n"), modified_ms: None },
        SessionFile { id: "20260721-100000".into(), content: r#"{"kind":"utt"#.into(), modified_ms: Some(30) },
        SessionFile { id: "notes".into(), content: format!("{U}\n"), modified_ms: Some(40) },
    ];
    let sessions = list_sessions_at(files, vec![Some(100), Some(200), Some(300), None]);
    assert_eq!(sessions.len(), 2);
    assert_eq!(sessions[0].id, "20260720-090000");
    assert_eq!(sessions[0].started_at_ms, 200);
    assert_eq!(sessions[0].ended_at_ms, 200);
    assert_eq!(sessions[0].utterances, 2);
    assert_eq!(sessions[1].id, "20260719-140302");
    assert_eq!(sessions[1].started_at_ms, 100);
    assert_eq!(sessions[1].ended_at_ms, 10);
    assert_eq!(sessions[1].utterances, 1);
}

#[test]
fn plain_text_of_joined_transcripts_joins_with_a_newline() {
    let mut a = History::default();
    a.push_final("mic-1".into(), SourceKind::Mic, "おはよう".into(), T0);
    a.set_translation("mic-1", "good morning".into());
    a.push_final("sys-2".into(), SourceKind::System, "Hi".into(), T0);
    let mut b = History::default();
    b.push_final("sys-3".into(), SourceKind::System, "Bye".into(), T0);
    let mut both = a.snapshot();
    both.extend(b.snapshot());
    let joined = to_plain_text(&both);
    assert_eq!(joined, format!("{}\n{}", to_plain_text(&a.snapshot()), to_plain_text(&b.snapshot())));
    assert_eq!(to_plain_text(&[]), "");
    assert_eq!(to_plain_text(&b.snapshot()), "相手: Bye");
}

#[test]
fn handed_out_records_replay_to_the_live_entries() {
    let mut h = History::default();
    let mut records = Vec::new();
    records.push(Some(h.push_final("mic-1".into(), SourceKind::Mic, "a".into(), T0)));
    records.push(Some(h.push_final("sys-2".into(), SourceKind::System, "b".into(), T0 + 1)));
    records.extend(h.set_translation("sys-2", "ビー".into()).map(Some));
    assert!(h.set_translation("sys-9", "x".into()).is_none());
    records.push(Some(h.push_final("mic-1".into(), SourceKind::Mic, "c".into(), T0 + 2)));
    records.extend(h.set_translation("mic-1", "シー".into()).map(Some));
    let replayed = read_session(records);
    let live = h.snapshot();
    assert_eq!(replayed.len(), live.len());
    for (r, l) in replayed.iter().zip(live.iter()) {
        assert_eq!(r.utterance_id, l.utterance_id);
        assert_eq!(r.text, l.text);
        assert_eq!(r.translation, l.translation);
        assert_eq!(r.time_ms, l.time_ms);
        assert!(r.source == l.source);
    }
    assert_eq!(live[0].translation, None);
    assert_eq!(live[2].translation.as_deref(), Some("シー"));
}
