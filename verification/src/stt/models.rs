//! The whisper model catalog and the bookkeeping of model downloads.
use vstd::prelude::*;

verus! {

/// File of the whisper model the app transcribes with.
pub const WHISPER_MODEL: &'static str = "ggml-large-v3-turbo-q5_0.bin";

/// File of the Silero VAD model.
pub const VAD_MODEL: &'static str = "ggml-silero-v5.1.2.bin";

/// Where whisper models are downloaded from.
pub const HF_BASE: &'static str = "https://huggingface.co/ggerganov/whisper.cpp/resolve/main";

/// Where the VAD model is downloaded from.
pub const VAD_URL: &'static str = "https://huggingface.co/ggml-org/whisper-vad/resolve/main/ggml-silero-v5.1.2.bin";

/// Number of whisper models downloadable from within the app.
pub const CATALOG_LEN: usize = 2;

/// The whisper models downloadable from within the app: label, file, size in MB.
pub open spec fn catalog() -> Seq<(Seq<char>, Seq<char>, u64)> {
    seq![
        ("large-v3-turbo (推奨)"@, "ggml-large-v3-turbo-q5_0.bin"@, 574u64),
        ("base (軽量・低精度)"@, "ggml-base.bin"@, 142u64),
    ]
}

/// Entry `i` of the catalog.
pub fn catalog_entry(i: usize) -> (entry: (&'static str, &'static str, u64))
    requires
        i < CATALOG_LEN,
    ensures
        (entry.0@, entry.1@, entry.2) == catalog()[i as int],
{
    if i == 0 {
        ("large-v3-turbo (推奨)", "ggml-large-v3-turbo-q5_0.bin", 574)
    } else {
        ("base (軽量・低精度)", "ggml-base.bin", 142)
    }
}

/// A whisper model as the settings screen lists it.
#[derive(Clone, Debug)]
pub struct WhisperModelInfo {
    pub label: String,
    pub file: String,
    pub size_mb: u64,
    pub downloaded: bool,
}

/// The catalog, model `i` marked as downloaded when `downloaded[i]`.
pub fn list(downloaded: &Vec<bool>) -> (infos: Vec<WhisperModelInfo>)
    requires
        downloaded.len() == CATALOG_LEN,
    ensures
        infos.len() == CATALOG_LEN,
        forall|i: int|
            0 <= i < CATALOG_LEN ==> {
                let info = #[trigger] infos@[i];
                &&& (info.label@, info.file@, info.size_mb) == catalog()[i]
                &&& info.downloaded == downloaded@[i]
            },
{
    let mut infos: Vec<WhisperModelInfo> = Vec::new();
    let mut i: usize = 0;
    while i < CATALOG_LEN
        invariant
            i <= CATALOG_LEN,
            downloaded.len() == CATALOG_LEN,
            infos.len() == i,
            forall|j: int|
                0 <= j < i ==> {
                    let info = #[trigger] infos@[j];
                    &&& (info.label@, info.file@, info.size_mb) == catalog()[j]
                    &&& info.downloaded == downloaded@[j]
                },
        decreases CATALOG_LEN - i,
    {
        let (label, file, size_mb) = catalog_entry(i);
        infos.push(
            WhisperModelInfo {
                label: label.to_owned(),
                file: file.to_owned(),
                size_mb,
                downloaded: downloaded[i],
            },
        );
        i = i + 1;
    }
    infos
}

/// Whether `file` is a model of the catalog.
pub open spec fn spec_is_known_model(file: Seq<char>) -> bool {
    exists|i: int| 0 <= i < CATALOG_LEN && catalog()[i].1 == file
}

/// Whether `file` is a model of the catalog.
pub fn is_known_model(file: &str) -> (known: bool)
    ensures
        known == spec_is_known_model(file@),
{
    let wanted = file.to_owned();
    let mut i: usize = 0;
    while i < CATALOG_LEN
        invariant
            i <= CATALOG_LEN,
            wanted@ == file@,
            forall|j: int| 0 <= j < i ==> catalog()[j].1 != file@,
        decreases CATALOG_LEN - i,
    {
        let (_, f, _) = catalog_entry(i);
        if f.to_owned() == wanted {
            return true;
        }
        i = i + 1;
    }
    false
}

/// One file to fetch: from where, and under which name it is reported.
pub struct DownloadItem {
    pub url: String,
    pub file: String,
}

/// Files to fetch for model `file`: the VAD model first when it is missing
/// (~1 MB), then the model itself unless it is already there. An unknown
/// model is refused.
pub fn plan_download(file: &str, vad_present: bool, model_present: bool) -> (plan: Result<Vec<DownloadItem>, String>)
    ensures
        match plan {
            Err(e) => !spec_is_known_model(file@) && e@ == "未知のモデル: "@ + file@,
            Ok(items) => {
                &&& spec_is_known_model(file@)
                &&& items.len() == (if vad_present { 0int } else { 1int }) + (if model_present { 0int } else { 1int })
                &&& !vad_present ==> items@[0].url@ == VAD_URL@ && items@[0].file@ == VAD_MODEL@
                &&& !model_present ==> items@[items.len() - 1].url@ == HF_BASE@ + "/"@ + file@
                    && items@[items.len() - 1].file@ == file@
            },
        },
{
    if !is_known_model(file) {
        let mut e = "未知のモデル: ".to_owned();
        e.append(file);
        return Err(e);
    }
    let mut items: Vec<DownloadItem> = Vec::new();
    if !vad_present {
        items.push(DownloadItem { url: VAD_URL.to_owned(), file: VAD_MODEL.to_owned() });
    }
    if !model_present {
        let mut url = HF_BASE.to_owned();
        url.append("/");
        url.append(file);
        items.push(DownloadItem { url, file: file.to_owned() });
    }
    Ok(items)
}

/// Progress of a download, as reported to the settings screen.
#[derive(Clone, Debug)]
pub struct DownloadProgress {
    pub file: String,
    pub downloaded: u64,
    pub total: u64,
}

/// Progress is reported every this many bytes (2 MB).
pub const PROGRESS_STEP: u64 = 2_000_000;

/// Bookkeeping of one streamed download: bytes received, when progress was
/// last reported, and the announced length (0 when unknown).
pub struct DownloadTracker {
    pub file: String,
    pub downloaded: u64,
    pub last_emit: u64,
    pub total: u64,
}

impl DownloadTracker {
    pub fn new(file: String, total: u64) -> (t: Self)
        ensures
            t.file@ == file@,
            t.downloaded == 0,
            t.last_emit == 0,
            t.total == total,
    {
        DownloadTracker { file, downloaded: 0, last_emit: 0, total }
    }

    /// Counts a received chunk of `len` bytes; returns the progress to report
    /// when 2 MB more arrived since the last report, or the download is complete.
    pub fn on_chunk(&mut self, len: u64) -> (progress: Option<DownloadProgress>)
        requires
            old(self).last_emit <= old(self).downloaded,
            old(self).downloaded + len <= u64::MAX,
        ensures
            final(self).file@ == old(self).file@,
            final(self).total == old(self).total,
            final(self).downloaded == old(self).downloaded + len,
            final(self).last_emit <= final(self).downloaded,
            ({
                let d = old(self).downloaded + len;
                if d - old(self).last_emit > PROGRESS_STEP || d == old(self).total {
                    &&& final(self).last_emit == d
                    &&& progress matches Some(p) && p.file@ == old(self).file@ && p.downloaded == d
                        && p.total == old(self).total
                } else {
                    final(self).last_emit == old(self).last_emit && progress.is_none()
                }
            }),
    {
        self.downloaded = self.downloaded + len;
        if self.downloaded - self.last_emit > PROGRESS_STEP || self.downloaded == self.total {
            self.last_emit = self.downloaded;
            Some(DownloadProgress { file: self.file.clone(), downloaded: self.downloaded, total: self.total })
        } else {
            None
        }
    }

    /// The end of the stream: an announced length that was not reached means
    /// an interrupted download (the partial file is discarded); otherwise the
    /// final progress report.
    pub fn finish(&self) -> (result: Result<DownloadProgress, String>)
        ensures
            match result {
                Err(e) => self.total > 0 && self.downloaded != self.total
                    && e@ == "ダウンロードが不完全です。再試行してください。"@,
                Ok(p) => !(self.total > 0 && self.downloaded != self.total) && p.file@ == self.file@
                    && p.downloaded == self.downloaded && p.total == if self.downloaded > self.total {
                    self.downloaded
                } else {
                    self.total
                },
            },
    {
        if self.total > 0 && self.downloaded != self.total {
            return Err("ダウンロードが不完全です。再試行してください。".to_owned());
        }
        let total = if self.downloaded > self.total {
            self.downloaded
        } else {
            self.total
        };
        Ok(DownloadProgress { file: self.file.clone(), downloaded: self.downloaded, total })
    }
}

} // verus!
