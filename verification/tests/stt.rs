use kotonoha::events::SourceKind;
use kotonoha::stt::engine::{coalesce, inference_threads, outcome_for_text, transcript_outcome, JobKind, TranscribeJob};
use kotonoha::stt::models::{list, is_known_model, plan_download, DownloadTracker, CATALOG_LEN, VAD_MODEL, VAD_URL};
use kotonoha::stt::segmenter::{SampleSegmenter, SegmentAction, Segmenter, SegmenterOutput, MAX_UTTERANCE, PARTIAL_EVERY, PRE_ROLL, TAIL_WINDOW, VAD_INTERVAL};

fn job(source: SourceKind, id: &str, kind: JobKind, audio: u32) -> TranscribeJob<u32> {
    TranscribeJob { source, utterance_id: id.to_string(), kind, audio, language: "ja", translate: false }
}

#[test]
fn coalesce_keeps_finals_first_and_latest_partials() {
    let jobs = vec![
        job(SourceKind::Mic, "mic-1", JobKind::Partial, 1),
        job(SourceKind::System, "sys-2", JobKind::Partial, 2),
        job(SourceKind::Mic, "mic-1", JobKind::Partial, 3),
        job(SourceKind::System, "sys-3", JobKind::Partial, 4),
        job(SourceKind::System, "sys-2", JobKind::Final, 5),
        job(SourceKind::System, "sys-2", JobKind::Partial, 6),
    ];
    let run: Vec<u32> = coalesce(jobs).into_iter().map(|j| j.audio).collect();
    assert_eq!(run, vec![5, 3, 4]);
}

#[test]
fn coalesce_distinguishes_sources() {
    let jobs = vec![
        job(SourceKind::Mic, "x-1", JobKind::Partial, 1),
        job(SourceKind::System, "x-1", JobKind::Final, 2),
    ];
    let run: Vec<u32> = coalesce(jobs).into_iter().map(|j| j.audio).collect();
    assert_eq!(run, vec![2, 1]);
    assert!(coalesce(Vec::<TranscribeJob<u32>>::new()).is_empty());
}

#[test]
fn outcome_of_a_final_in_english_mode() {
    let mut j = job(SourceKind::System, "sys-4", JobKind::Final, 0);
    j.language = "en";
    j.translate = true;
    let out = transcript_outcome(&j, &vec!["  Hello".to_string(), " world. ".to_string()]).unwrap();
    assert_eq!(out.event.text, "Hello world.");
    assert_eq!(out.event.utterance_id, "sys-4");
    assert!(out.event.is_final);
    assert!(out.record);
    let t = out.translation.unwrap();
    assert_eq!(t.utterance_id, "sys-4");
    assert_eq!(t.text, "Hello world.");
}

#[test]
fn outcome_of_a_partial_and_of_silence() {
    let j = job(SourceKind::Mic, "mic-1", JobKind::Partial, 0);
    let out = outcome_for_text(&j, "こんにちは".to_string()).unwrap();
    assert!(!out.event.is_final);
    assert!(!out.record);
    assert!(out.translation.is_none());
    assert!(transcript_outcome(&j, &vec!["   ".to_string()]).is_none());
    assert!(transcript_outcome(&j, &vec![]).is_none());
}

#[test]
fn inference_threads_is_half_the_cores_clamped() {
    assert_eq!(inference_threads(1), 2);
    assert_eq!(inference_threads(4), 2);
    assert_eq!(inference_threads(10), 5);
    assert_eq!(inference_threads(64), 8);
}

#[test]
fn segmenter_runs_vad_every_interval_over_the_tail() {
    let mut s = Segmenter::new();
    assert!(s.push(VAD_INTERVAL - 1).is_none());
    let r = s.push(1).unwrap();
    assert_eq!(r.window_len, VAD_INTERVAL);
    assert_eq!(r.window_start, 0);
    assert!(!r.recreate);
    let r = s.push(TAIL_WINDOW).unwrap();
    assert_eq!(r.window_len, TAIL_WINDOW);
    assert_eq!(r.window_start, VAD_INTERVAL);
}

#[test]
fn segmenter_trims_silence_to_the_pre_roll() {
    let mut s = Segmenter::new();
    s.push(PRE_ROLL + VAD_INTERVAL).unwrap();
    assert_eq!(s.on_vad(Some((false, false))), SegmentAction::DropFront(VAD_INTERVAL));
    assert_eq!(s.buffer_len, PRE_ROLL);
    assert!(!s.in_speech);
}

#[test]
fn segmenter_emits_partials_then_a_final_on_silence() {
    let mut s = Segmenter::new();
    s.push(VAD_INTERVAL).unwrap();
    assert_eq!(s.on_vad(Some((true, true))), SegmentAction::Keep);
    assert!(s.in_speech);
    s.push(PARTIAL_EVERY).unwrap();
    assert_eq!(s.on_vad(Some((true, true))), SegmentAction::Partial);
    s.push(VAD_INTERVAL).unwrap();
    assert_eq!(s.on_vad(Some((true, true))), SegmentAction::Keep);
    s.push(VAD_INTERVAL).unwrap();
    assert_eq!(s.on_vad(Some((true, false))), SegmentAction::Final);
    assert_eq!(s.buffer_len, 0);
    assert!(!s.in_speech);
}

#[test]
fn segmenter_force_splits_long_utterances_and_treats_failures_as_speech() {
    let mut s = Segmenter::new();
    s.push(VAD_INTERVAL).unwrap();
    assert_eq!(s.on_vad(None), SegmentAction::Keep);
    s.push(MAX_UTTERANCE).unwrap();
    assert_eq!(s.on_vad(None), SegmentAction::Final);
}

#[test]
fn segmenter_asks_to_recreate_vad_every_fifty_runs() {
    let mut s = Segmenter::new();
    for _ in 0..49 {
        assert!(!s.push(VAD_INTERVAL).unwrap().recreate);
        s.on_vad(Some((false, false)));
    }
    assert!(s.push(VAD_INTERVAL).unwrap().recreate);
    s.vad_recreated();
    assert_eq!(s.vad_calls, 0);
}

#[test]
fn model_catalog_lists_download_state() {
    let infos = list(&vec![true, false]);
    assert_eq!(infos.len(), CATALOG_LEN);
    assert_eq!(infos[0].file, "ggml-large-v3-turbo-q5_0.bin");
    assert_eq!(infos[0].size_mb, 574);
    assert!(infos[0].downloaded);
    assert_eq!(infos[1].label, "base (軽量・低精度)");
    assert!(!infos[1].downloaded);
    assert!(is_known_model("ggml-base.bin"));
    assert!(!is_known_model("ggml-tiny.bin"));
}

#[test]
fn download_plan_fetches_vad_first_and_refuses_unknown_models() {
    let plan = plan_download("ggml-base.bin", false, false).unwrap();
    assert_eq!(plan.len(), 2);
    assert_eq!(plan[0].url, VAD_URL);
    assert_eq!(plan[0].file, VAD_MODEL);
    assert_eq!(plan[1].url, "https://huggingface.co/ggerganov/whisper.cpp/resolve/main/ggml-base.bin");
    assert!(plan_download("ggml-base.bin", true, true).unwrap().is_empty());
    assert_eq!(plan_download("evil.bin", true, true).err(), Some("未知のモデル: evil.bin".to_string()));
}

#[test]
fn download_tracker_reports_every_two_megabytes_and_at_the_end() {
    let mut t = DownloadTracker::new("m.bin".into(), 5_000_000);
    assert!(t.on_chunk(1_500_000).is_none());
    let p = t.on_chunk(1_000_000).unwrap();
    assert_eq!(p.downloaded, 2_500_000);
    assert!(t.on_chunk(2_000_000).is_none());
    let p = t.on_chunk(500_000).unwrap();
    assert_eq!(p.downloaded, 5_000_000);
    let done = t.finish().unwrap();
    assert_eq!(done.total, 5_000_000);
}

#[test]
fn download_tracker_detects_truncation_and_unknown_length() {
    let mut t = DownloadTracker::new("m.bin".into(), 10);
    t.on_chunk(4);
    assert_eq!(t.finish().err(), Some("ダウンロードが不完全です。再試行してください。".to_string()));
    let mut t = DownloadTracker::new("m.bin".into(), 0);
    t.on_chunk(7);
    let done = t.finish().unwrap();
    assert_eq!((done.downloaded, done.total), (7, 7));
}

#[test]
fn sample_segmenter_keeps_the_pre_roll_and_hands_on_the_utterance() {
    let mut s: SampleSegmenter<u32> = SampleSegmenter::new();
    let first: Vec<u32> = (0..(PRE_ROLL + VAD_INTERVAL) as u32).collect();
    let r = s.push(&first).unwrap();
    let w = s.window(r.window_start, r.window_len);
    assert_eq!(w.len(), TAIL_WINDOW);
    assert_eq!(w[0], (PRE_ROLL + VAD_INTERVAL - TAIL_WINDOW) as u32);
    assert!(s.on_vad(Some((false, false))).is_none());
    assert_eq!(s.len(), PRE_ROLL);
    // Speech starts: nothing is handed on yet.
    let more: Vec<u32> = (100_000..100_000 + VAD_INTERVAL as u32).collect();
    s.push(&more).unwrap();
    assert!(s.on_vad(Some((true, true))).is_none());
    let speech: Vec<u32> = (200_000..200_000 + PARTIAL_EVERY as u32).collect();
    s.push(&speech).unwrap();
    let expected: Vec<u32> = (VAD_INTERVAL as u32..(PRE_ROLL + VAD_INTERVAL) as u32)
        .chain(more.iter().copied())
        .chain(speech.iter().copied())
        .collect();
    match s.on_vad(Some((true, true))) {
        Some(SegmenterOutput::Partial(a)) => assert_eq!(a, expected),
        _ => panic!("expected a partial"),
    }
    let tail: Vec<u32> = vec![7; VAD_INTERVAL];
    s.push(&tail).unwrap();
    let mut all = expected.clone();
    all.extend(tail.iter().copied());
    match s.on_vad(Some((true, false))) {
        Some(SegmenterOutput::Final(a)) => assert_eq!(a, all),
        _ => panic!("expected a final"),
    }
    assert_eq!(s.len(), 0);
}

#[test]
fn partials_come_every_partial_every_samples() {
    let mut s = Segmenter::new();
    s.push(VAD_INTERVAL).unwrap();
    s.on_vad(Some((true, true)));
    let mut partial_lens = Vec::new();
    for _ in 0..20 {
        s.push(VAD_INTERVAL).unwrap();
        if s.on_vad(Some((true, true))) == SegmentAction::Partial {
            partial_lens.push(s.buffer_len);
        }
    }
    assert!(partial_lens[0] >= PARTIAL_EVERY);
    for w in partial_lens.windows(2) {
        assert!(w[1] >= w[0] + PARTIAL_EVERY);
    }
    assert_eq!(partial_lens, vec![24_000, 48_000, 72_000, 96_000]);
}

#[test]
fn each_final_hands_on_what_was_pushed_since_the_last_final() {
    let mut s: SampleSegmenter<u32> = SampleSegmenter::new();
    let mut pushed: Vec<u32> = Vec::new();
    let mut finals: Vec<Vec<u32>> = Vec::new();
    let mut partials: Vec<Vec<u32>> = Vec::new();
    let mut next = 0u32;
    // speech, silence, speech, silence
    let verdicts = [(true, true), (true, true), (true, true), (true, true), (true, true), (true, true), (true, false),
        (false, false), (true, true), (true, true), (true, true), (true, true), (true, true), (true, true), (true, false)];
    for v in verdicts {
        let batch: Vec<u32> = (next..next + VAD_INTERVAL as u32).collect();
        next += VAD_INTERVAL as u32;
        pushed.extend(batch.iter().copied());
        s.push(&batch).unwrap();
        match s.on_vad(Some(v)) {
            Some(SegmenterOutput::Partial(a)) => partials.push(a),
            Some(SegmenterOutput::Final(b)) => {
                assert!(pushed.ends_with(&b));
                for a in partials.drain(..) {
                    assert!(b.starts_with(&a));
                }
                finals.push(b);
                pushed.clear();
            }
            None => {}
        }
    }
    assert_eq!(finals.len(), 2);
    assert_eq!(finals[0].len(), 7 * VAD_INTERVAL);
    assert_eq!(finals[1].len(), 8 * VAD_INTERVAL);
}
