use kotonoha::translate::ollama::{
    group_by_budget, merge_step, plan_summary, split_chunks, stream_step, summary_text, LineBuffer, MergeStep,
    SummaryPrompt, SUMMARY_CHUNK_CHARS,
};

#[test]
fn split_chunks_respects_line_boundaries() {
    let text = "あ".repeat(10) + "\n" + &"い".repeat(10) + "\n" + &"う".repeat(10);
    let chunks = split_chunks(&text, 25);
    assert_eq!(chunks.len(), 2);
    assert_eq!(chunks[0], "あ".repeat(10) + "\n" + &"い".repeat(10));
    assert_eq!(chunks[1], "う".repeat(10));
}

#[test]
fn split_chunks_short_text_is_single_chunk() {
    let chunks = split_chunks("a\nb\nc", 100);
    assert_eq!(chunks, vec!["a\nb\nc".to_string()]);
}

#[test]
fn split_chunks_oversized_line_stays_whole() {
    let long = "x".repeat(50);
    let chunks = split_chunks(&format!("short\n{long}\nshort"), 20);
    assert_eq!(chunks.len(), 3);
    assert_eq!(chunks[1], long);
}

#[test]
fn group_by_budget_keeps_notes_whole() {
    let notes: Vec<String> = vec!["a".repeat(10), "b".repeat(10), "c".repeat(10)];
    // 10 chars + 7-char separator each (17): two fit in 40, not three
    let groups = group_by_budget(notes, 40);
    assert_eq!(groups.len(), 2);
    assert_eq!(groups[0].len(), 2);
    assert_eq!(groups[1].len(), 1);
    // An oversized note still forms its own group instead of being split
    let big = vec!["x".repeat(100)];
    assert_eq!(group_by_budget(big, 30).len(), 1);
}

#[test]
fn split_chunks_empty_text_has_no_chunk() {
    assert!(split_chunks("", 10).is_empty());
    assert!(split_chunks("\n", 10).is_empty());
}

#[test]
fn split_chunks_strips_crlf_and_counts_separator() {
    // "abc\r\ndef": lines "abc" and "def"; together with the '\n' they need 7
    let chunks = split_chunks("abc\r\ndef", 7);
    assert_eq!(chunks, vec!["abc\ndef".to_string()]);
    let chunks = split_chunks("abc\r\ndef", 6);
    assert_eq!(chunks, vec!["abc".to_string(), "def".to_string()]);
}

#[test]
fn split_chunks_rejoins_to_the_text() {
    let text = "one\ntwo\nthree\nfour\nfive";
    let chunks = split_chunks(text, 9);
    assert_eq!(chunks.join("\n"), text);
    for c in &chunks {
        assert!(c.chars().count() <= 9 || !c.contains('\n'));
    }
}

#[test]
fn group_by_budget_keeps_order_and_count() {
    let notes: Vec<String> = (0..7).map(|i| format!("note{i}")).collect();
    let groups = group_by_budget(notes.clone(), 30);
    let flat: Vec<String> = groups.iter().flatten().cloned().collect();
    assert_eq!(flat, notes);
    assert!(groups.len() <= notes.len());
    for g in &groups {
        assert!(!g.is_empty());
        assert!(g.len() == 1 || g.join("\n\n---\n\n").chars().count() <= 30);
    }
}

#[test]
fn plan_summary_short_transcript_is_one_request() {
    let plan = plan_summary("自分: こんにちは\n相手: どうも");
    assert_eq!(plan.len(), 1);
    assert_eq!(plan[0].prompt, SummaryPrompt::Whole);
    assert_eq!(plan[0].user, "自分: こんにちは\n相手: どうも");
}

#[test]
fn plan_summary_long_transcript_is_split_into_labelled_parts() {
    let line = "x".repeat(100);
    let transcript = vec![line.clone(); 130].join("\n");
    let plan = plan_summary(&transcript);
    let chunks = split_chunks(&transcript, SUMMARY_CHUNK_CHARS);
    assert_eq!(plan.len(), chunks.len());
    assert_eq!(plan.len(), 3);
    for (i, req) in plan.iter().enumerate() {
        assert_eq!(req.prompt, SummaryPrompt::Part);
        assert_eq!(req.user, format!("(パート {}/{})\n{}", i + 1, 3, chunks[i]));
    }
}

#[test]
fn merge_step_merges_small_notes_at_once() {
    let step = merge_step(vec!["A".to_string(), "B".to_string()]);
    match step {
        MergeStep::Final(r) => {
            assert_eq!(r.prompt, SummaryPrompt::Merge);
            assert_eq!(r.user, "A\n\n---\n\nB");
        }
        MergeStep::Reduce(_) => panic!("expected a final merge"),
    }
}

#[test]
fn merge_step_reduces_large_notes_in_groups() {
    let notes: Vec<String> = (0..4).map(|i| format!("{i}").repeat(2500)).collect();
    match merge_step(notes.clone()) {
        MergeStep::Reduce(rs) => {
            assert_eq!(rs.len(), 2);
            assert_eq!(rs[0].user, format!("{}\n\n---\n\n{}", notes[0], notes[1]));
            assert_eq!(rs[1].user, format!("{}\n\n---\n\n{}", notes[2], notes[3]));
            assert!(rs.iter().all(|r| r.prompt == SummaryPrompt::Merge));
        }
        MergeStep::Final(_) => panic!("expected a reduction"),
    }
    // A single note always merges at once, however long
    assert!(matches!(merge_step(vec!["y".repeat(9000)]), MergeStep::Final(_)));
}

#[test]
fn line_buffer_hands_out_complete_lines_only() {
    let mut b = LineBuffer::new();
    b.push_chunk(b"{\"a\":1}\n{\"b\"");
    assert_eq!(b.next_line(), Some("{\"a\":1}".to_string()));
    assert_eq!(b.next_line(), None);
    b.push_chunk(b":2}\n");
    assert_eq!(b.next_line(), Some("{\"b\":2}".to_string()));
    assert_eq!(b.next_line(), None);
}

#[test]
fn line_buffer_decodes_invalid_utf8_lossily() {
    let mut b = LineBuffer::new();
    b.push_chunk(&[0x61, 0xff, 0x0a]);
    assert_eq!(b.next_line(), Some("a\u{fffd}".to_string()));
}

#[test]
fn stream_steps_skip_empty_messages_and_stop_when_done() {
    let step = stream_step(None, false);
    assert_eq!(step.emit, None);
    assert!(!step.stop);
    assert_eq!(stream_step(Some(String::new()), false).emit, None);
    let step = stream_step(Some("やあ".to_string()), false);
    assert_eq!(step.emit, Some(("やあ".to_string(), false)));
    assert!(!step.stop);
    let step = stream_step(None, true);
    assert_eq!(step.emit, Some((String::new(), true)));
    assert!(step.stop);
}

#[test]
fn summary_replies_are_trimmed() {
    assert_eq!(summary_text(Some("\n  要点\u{3000}\n")), Ok("要点".to_string()));
    assert_eq!(summary_text(Some(" \t ")), Ok(String::new()));
    assert_eq!(summary_text(None), Err("Ollama の応答を解釈できません".to_string()));
}

#[test]
fn characters_split_across_chunks_arrive_whole() {
    let body = "{\"t\":\"翻訳です\"}\n".as_bytes();
    for cut in 0..=body.len() {
        let mut b = LineBuffer::new();
        b.push_chunk(&body[..cut]);
        b.push_chunk(&body[cut..]);
        assert_eq!(b.next_line(), Some("{\"t\":\"翻訳です\"}".to_string()));
        assert_eq!(b.next_line(), None);
    }
}

#[test]
fn a_character_cut_into_single_bytes_is_held_until_complete() {
    let mut b = LineBuffer::new();
    let bytes = "あ\n".as_bytes();
    b.push_chunk(&bytes[..1]);
    assert_eq!(b.next_line(), None);
    b.push_chunk(&bytes[1..2]);
    assert_eq!(b.next_line(), None);
    b.push_chunk(&bytes[2..]);
    assert_eq!(b.next_line(), Some("あ".to_string()));
}

#[test]
fn a_broken_sequence_is_still_decoded_lossily() {
    let mut b = LineBuffer::new();
    b.push_chunk(&[0xe3]);
    b.push_chunk(b"a\n");
    assert_eq!(b.next_line(), Some("\u{fffd}a".to_string()));
}

#[test]
fn the_same_lines_come_out_however_the_stream_is_cut() {
    let body = "{\"m\":\"会議を\"}\n{\"m\":\"始めます\"}\n{\"done\":true}\n".as_bytes();
    let mut whole = LineBuffer::new();
    whole.push_chunk(body);
    let expected = whole.take_lines();
    assert_eq!(expected.len(), 3);
    for a in 0..=body.len() {
        for b in a..=body.len() {
            let mut buf = LineBuffer::new();
            let mut got = Vec::new();
            for chunk in [&body[..a], &body[a..b], &body[b..]] {
                buf.push_chunk(chunk);
                got.extend(buf.take_lines());
            }
            assert_eq!(got, expected);
        }
    }
}

#[test]
fn take_lines_keeps_the_unfinished_line() {
    let mut b = LineBuffer::new();
    b.push_chunk(b"a\nb\r\nc");
    assert_eq!(b.take_lines(), vec!["a".to_string(), "b\r".to_string()]);
    assert!(b.take_lines().is_empty());
    b.push_chunk(b"d\n");
    assert_eq!(b.take_lines(), vec!["cd".to_string()]);
}
