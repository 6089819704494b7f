# kotonoha

The caption, transcript and summary logic of kotonoha, a fully-local realtime
transcription and translation overlay for macOS, written in Verus and proved
against its contracts.

- `src/` — the verified library
  - `history.rs`: the session transcript, the JSONL records it is persisted
    as and their replay, Markdown / plain-text exports, the stored-session list
  - `translate/ollama.rs`: transcript chunking, interim-note grouping, the
    map-reduce plan of summaries, UTF-8 decoding and NDJSON line framing of
    streamed answers
  - `translate/queue.rs`: the translation worker's decisions
  - `stt/engine.rs`: batching of whisper jobs and what a transcription leads to
  - `stt/segmenter.rs`: the voice-activity segmenter state machine and the
    sample buffer it drives
  - `stt/models.rs`: the model catalog and download bookkeeping
  - `pipeline.rs`, `config.rs`, `events.rs`, `commands.rs`, `clock.rs`, `text.rs`
- `tests/` — tests of the library
- `app/` — the Tauri app around it: audio capture, whisper.cpp, the Ollama
  HTTP client, files, windows and tray
