use kotonoha::commands::{compose_export, export_document, export_file_name, first_listed_model, new_session_file_name};
use kotonoha::config::{Config, Direction};
use kotonoha::events::SourceKind;
use kotonoha::history::{session_file_name, History};
use kotonoha::pipeline::{next_utterance_id, PipelineParams, UtteranceTracker};
use kotonoha::stt::engine::JobKind;
use kotonoha::translate::queue::{ModelDecision, StreamingTranslation, TranslationWorker};

#[test]
fn config_defaults_and_language() {
    let c = Config::default();
    assert!(c.direction == Direction::Ja);
    assert!(c.ollama_model.is_none() && c.mic_enabled && c.system_enabled);
    assert_eq!(c.whisper_language(), "ja");
    let en = Config { direction: Direction::EnJa, ..Config::default() };
    assert_eq!(en.whisper_language(), "en");
    let p = PipelineParams::for_config(&en, "/m/vad.bin".to_string());
    assert_eq!(p.language, "en");
    assert!(p.translate);
    assert!(!PipelineParams::for_config(&c, String::new()).translate);
}

#[test]
fn source_labels() {
    assert_eq!(SourceKind::Mic.id_prefix(), "mic");
    assert_eq!(SourceKind::System.id_prefix(), "sys");
    assert_eq!(SourceKind::Mic.speaker_ja(), "自分");
    assert_eq!(SourceKind::System.speaker_ja(), "相手");
}

#[test]
fn utterance_ids_count_up_per_app() {
    let mut counter = 7u64;
    assert_eq!(next_utterance_id(SourceKind::Mic, &mut counter), "mic-7");
    assert_eq!(next_utterance_id(SourceKind::System, &mut counter), "sys-8");
    assert_eq!(counter, 9);
    let mut top = u64::MAX;
    assert_eq!(next_utterance_id(SourceKind::Mic, &mut top), format!("mic-{}", u64::MAX));
    assert_eq!(top, 0);
}

#[test]
fn partials_and_final_share_an_utterance_id() {
    let mut counter = 0u64;
    let mut t = UtteranceTracker::new(SourceKind::Mic);
    assert_eq!(t.on_segment(JobKind::Partial, false, &mut counter).as_deref(), Some("mic-0"));
    assert_eq!(t.on_segment(JobKind::Partial, true, &mut counter), None);
    assert_eq!(t.on_segment(JobKind::Final, true, &mut counter).as_deref(), Some("mic-0"));
    assert_eq!(t.on_segment(JobKind::Final, false, &mut counter).as_deref(), Some("mic-1"));
    assert_eq!(counter, 2);
}

#[test]
fn worker_reports_connection_loss_once() {
    let mut w = TranslationWorker::new();
    let f = w.on_finished(StreamingTranslation::new("sys-1".into()), Err("down".into()));
    assert_eq!(f.report.as_deref(), Some("down"));
    let f = w.on_finished(StreamingTranslation::new("sys-2".into()), Err("down".into()));
    assert!(f.report.is_none() && f.store.is_none());
    match w.on_model_listing(None) {
        ModelDecision::Skip(r) => assert!(r.is_none()),
        ModelDecision::UseAndRemember(_) => panic!("no model"),
    }
    let mut t = StreamingTranslation::new("sys-3".into());
    let ev = t.on_delta("やあ".into(), false);
    assert_eq!(ev.utterance_id, "sys-3");
    t.on_delta(String::new(), true);
    let f = w.on_finished(t, Ok(()));
    assert_eq!(f.store.as_deref(), Some("やあ"));
    assert!(!w.warned);
    let f = w.on_finished(StreamingTranslation::new("sys-4".into()), Ok(()));
    assert!(f.store.is_none());
}

#[test]
fn worker_skips_without_a_model_and_warns_once() {
    let mut w = TranslationWorker::new();
    match w.on_model_listing(None) {
        ModelDecision::Skip(Some(m)) => {
            assert_eq!(m, "Ollama が起動していないかモデルがありません。翻訳をスキップします。")
        }
        _ => panic!("expected a warning"),
    }
    match w.on_model_listing(Some("qwen2.5:3b-instruct".into())) {
        ModelDecision::UseAndRemember(m) => assert_eq!(m, "qwen2.5:3b-instruct"),
        _ => panic!("expected the listed model"),
    }
}

#[test]
fn export_document_layout() {
    let md = export_document("2026-07-19 14:03", None, "BODY");
    assert_eq!(md, "# ミーティング記録 2026-07-19 14:03\n\nBODY");
    let md = export_document("2026-07-19 14:03", Some("SUM"), "BODY");
    assert_eq!(md, "# ミーティング記録 2026-07-19 14:03\n\n## サマリ\n\nSUM\n\n## トランスクリプト\n\nBODY");
}

#[test]
fn summary_model_is_the_first_listed() {
    assert_eq!(first_listed_model(vec!["a".into(), "b".into()]), Ok("a".to_string()));
    assert_eq!(first_listed_model(vec![]), Err("Ollama にモデルがありません".to_string()));
}

#[test]
fn new_session_names_are_valid_session_ids() {
    let name = new_session_file_name(1_752_900_000_000);
    assert!(name.ends_with(".jsonl"));
    let stem = &name[..name.len() - 6];
    assert_eq!(stem.len(), 15);
    assert!(session_file_name(stem).is_ok());
    let export = export_file_name(1_752_900_000_000);
    assert!(export.starts_with("kotonoha-") && export.ends_with(".md"));
}

#[test]
fn compose_export_refuses_an_empty_session_and_titles_the_minutes() {
    let mut h = History::new();
    assert_eq!(compose_export(&h.snapshot(), 1_752_900_000_000, None).err(), Some("書き出す発話がまだありません".to_string()));
    assert_eq!(compose_export(&[], u64::MAX, None).err(), Some("書き出す発話がまだありません".to_string()));
    h.push_final("mic-0".into(), SourceKind::Mic, "はい".into(), 1_752_900_000_000);
    let md = compose_export(&h.snapshot(), 1_752_900_000_000, Some("要点")).unwrap();
    assert!(md.starts_with("# ミーティング記録 "));
    let title_end = md.find("\n\n").unwrap();
    let stamp = &md["# ミーティング記録 ".len()..title_end];
    assert_eq!(stamp.len(), 16);
    assert_eq!(&stamp[4..5], "-");
    assert_eq!(&stamp[10..11], " ");
    assert!(md.contains("\n\n## サマリ\n\n要点\n\n## トランスクリプト\n\n**["));
    assert!(md.ends_with("] 自分**: はい\n\n"));
}

#[test]
fn utterance_ids_number_consecutively_across_sources() {
    let mut counter = 40u64;
    let ids: Vec<String> = [SourceKind::Mic, SourceKind::System, SourceKind::System, SourceKind::Mic]
        .iter()
        .map(|s| next_utterance_id(*s, &mut counter))
        .collect();
    assert_eq!(ids, vec!["mic-40", "sys-41", "sys-42", "mic-43"]);
}

#[test]
fn an_utterance_id_is_held_until_its_final() {
    let mut counter = 3u64;
    let mut t = UtteranceTracker::new(SourceKind::System);
    let run = [
        (JobKind::Partial, false),
        (JobKind::Partial, true),
        (JobKind::Partial, false),
        (JobKind::Final, true),
        (JobKind::Partial, true),
        (JobKind::Partial, false),
        (JobKind::Final, false),
        (JobKind::Final, false),
    ];
    let ids: Vec<Option<String>> = run.iter().map(|(k, b)| t.on_segment(*k, *b, &mut counter)).collect();
    let expected = [Some("sys-3"), None, Some("sys-3"), Some("sys-3"), None, Some("sys-4"), Some("sys-4"), Some("sys-5")];
    assert_eq!(ids.iter().map(|i| i.as_deref()).collect::<Vec<_>>(), expected.to_vec());
    assert_eq!(counter, 6);
}

#[test]
fn a_run_of_failures_is_reported_once_until_a_success() {
    let mut w = TranslationWorker::new();
    let mut reports = Vec::new();
    for ok in [false, false, true, false, false, false, true, true, false] {
        let result = if ok { Ok(()) } else { Err("down".to_string()) };
        let f = w.on_finished(StreamingTranslation::new("mic-1".into()), result);
        reports.push(f.report.is_some());
    }
    assert_eq!(reports, vec![true, false, false, true, false, false, false, false, true]);
}

#[test]
fn years_past_9999_are_written_with_a_sign() {
    // 10001-06-01 UTC: whatever the time zone, the year is 10001.
    let ms = 253_446_969_600_000u64;
    let name = export_file_name(ms);
    assert!(name.starts_with("kotonoha-+10001"), "{name}");
    assert_eq!(name.len(), "kotonoha-".len() + 17 + ".md".len());
    let mut h = History::new();
    h.push_final("mic-0".into(), SourceKind::Mic, "はい".into(), ms);
    let md = compose_export(&h.snapshot(), ms, None).unwrap();
    assert!(md.starts_with("# ミーティング記録 +10001-"), "{md}");
}
