use vstd::prelude::*;

use crate::codec::{spec_ass_text, spec_json_cues, cues_of_clock, srt_cues_of, vtt_cues_of};
use crate::combiner::{args_view, spec_media_path, spec_mux_args, spec_mux_program};
use crate::error::{Error, MuxError, SubtitleError};
use crate::metadata::{EpisodeMetadata, EpisodeMetadataV, SeasonMetadata};
use crate::packager::{PackageAction, Packager, spec_package_action};
use crate::subtitle::{
    JsonSubtitle, SubtitleFormat, SubtitleType, spec_subtitle_format_of_dir,
};

verus! {

/// The read-only configuration of one run: subtitle language, embedding
/// mode, where to package, where to scan, and whether episodes within a
/// season are compiled concurrently.
#[derive(Debug, Clone)]
pub struct Context {
    pub language: String,
    pub subtitle_type: SubtitleType,
    pub packager: Packager,
    pub input_path: String,
    pub is_parallel: bool,
}

pub struct ContextV {
    pub language: Seq<char>,
    pub subtitle_type: SubtitleType,
    pub packager: crate::packager::PackagerV,
    pub input_path: Seq<char>,
    pub is_parallel: bool,
}

impl View for Context {
    type V = ContextV;

    open spec fn view(&self) -> ContextV {
        ContextV {
            language: self.language@,
            subtitle_type: self.subtitle_type,
            packager: self.packager@,
            input_path: self.input_path@,
            is_parallel: self.is_parallel,
        }
    }
}

/// Drives the per-episode pipeline and decides how a season's batch
/// proceeds; everything that touches the outside world is asked of the
/// caller through `CompileRequest`s.
pub struct Compiler {
    pub context: Context,
}

impl Compiler {
    pub fn new(context: Context) -> (r: Compiler)
        ensures
            r.context@ == context@,
    {
        Compiler { context }
    }
}

/// One outside action the per-episode pipeline needs performed.
pub enum CompileRequest {
    /// List the file names in the episode's language-specific subtitle
    /// directory.
    ListSubtitleDir { path: String },
    /// Read this subtitle file as text.
    ReadSubtitle { path: String },
    /// Read this subtitle file and decode it as a structured-JSON
    /// subtitle.
    ReadJsonSubtitle { path: String },
    /// Move this file to the staging path; the source is already in the
    /// native target syntax.
    StageSubtitle { from: String, to: String },
    /// Write this converted subtitle text to the staging path.
    WriteSubtitle { path: String, text: String },
    /// Run the external multiplexer and report its exit status.
    RunMuxer { program: String, args: Vec<String> },
}

/// What came back from the last requested action.
pub enum CompileEvent {
    /// The subtitle directory's file names, in any order.
    DirListing { entries: Vec<String> },
    /// The subtitle directory could not be listed: the episode has no
    /// usable subtitle.
    DirListingFailed,
    /// The subtitle file's text.
    SubtitleText { text: String },
    /// The decoded structured-JSON subtitle.
    JsonSubtitleRead { subtitle: JsonSubtitle },
    /// The subtitle file could not be read or decoded.
    ReadFailed,
    /// The file was moved to the staging path.
    Staged,
    /// The move failed.
    StageFailed,
    /// The converted text was written.
    Written,
    /// The write failed.
    WriteFailed,
    /// The multiplexer ran and exited with this status.
    MuxExited { code: i32 },
    /// The multiplexer could not be started.
    MuxSpawnFailed,
}

/// Where one episode stands: the stages run strictly in this order and
/// none may be skipped.
#[derive(Debug, Clone, PartialEq, Eq)]
pub enum CompileState {
    /// Waiting for the subtitle directory listing.
    AwaitingSubtitleDir,
    /// Waiting for the subtitle data of this source format.
    AwaitingSubtitleData { format: SubtitleFormat },
    /// The subtitle was already in the native target syntax; waiting
    /// for it to be moved to the staging path.
    AwaitingStaging,
    /// Waiting for the converted subtitle text to be written.
    AwaitingWrite,
    /// Waiting for the external multiplexer's exit status.
    AwaitingMux,
    /// The episode is fully compiled and muxed.
    Done,
    /// The episode failed at some stage with this error; no further
    /// stage runs.
    Failed(Error),
}

/// The per-episode pipeline: subtitle normalization, then muxing. The
/// caller performs each requested action and reports its outcome; the
/// machine decides every step.
pub struct EpisodeCompilation {
    pub episode: EpisodeMetadata,
    pub language: String,
    pub subtitle_type: SubtitleType,
    pub state: CompileState,
}

/// The staging path every normalized subtitle ends at: `subtitle.ass`
/// in the episode directory.
pub open spec fn spec_staging_path(e: EpisodeMetadataV) -> Seq<char> {
    e.path->0 + "/subtitle.ass"@
}

/// The path of the single file in the episode's subtitle directory.
pub open spec fn spec_subtitle_file_path(e: EpisodeMetadataV, language: Seq<char>, entries: Seq<Seq<char>>) -> Seq<char> {
    e.path->0 + "/"@ + language + "/"@ + entries[0]
}

/// The muxer invocation for an episode whose subtitle is staged.
pub open spec fn spec_mux_request(e: EpisodeMetadataV, language: Seq<char>, mode: SubtitleType) -> Seq<Seq<char>> {
    spec_mux_args(
        spec_media_path(e, "video.m4s"@),
        spec_media_path(e, "audio.m4s"@),
        spec_staging_path(e),
        spec_media_path(e, "episode.mkv"@),
        language,
        mode,
    )
}

impl EpisodeCompilation {
    /// Whether the machine's episode still carries its source path; all
    /// transitions keep this.
    pub open spec fn wf(&self) -> bool {
        self.episode.path is Some
    }

    /// Starts compiling one episode: the first step is always to look
    /// for its subtitle.
    pub fn start(episode: EpisodeMetadata, language: String, subtitle_type: SubtitleType) -> (r: (EpisodeCompilation, CompileRequest))
        requires
            episode.path is Some,
        ensures
            r.0.wf(),
            r.0.episode == episode,
            r.0.language == language,
            r.0.subtitle_type == subtitle_type,
            r.0.state == CompileState::AwaitingSubtitleDir,
            r.1 matches CompileRequest::ListSubtitleDir { path }
                && path@ == episode@.path->0 + "/"@ + language@,
    {
        let dir = episode.subtitle_dir(language.as_str());
        let machine = EpisodeCompilation {
            episode,
            language,
            subtitle_type,
            state: CompileState::AwaitingSubtitleDir,
        };
        (machine, CompileRequest::ListSubtitleDir { path: dir })
    }

    /// The staging path of this machine's episode.
    fn staging_path(&self) -> (r: String)
        requires
            self.wf(),
        ensures
            r@ == spec_staging_path(self.episode@),
    {
        let base = match &self.episode.path {
            Some(p) => p,
            None => {
                proof {
                    assert(false);
                }
                return String::new();
            },
        };
        proof {
            reveal_strlit("/subtitle.ass");
        }
        let mut out = base.clone();
        out.append("/subtitle.ass");
        out
    }

    /// The muxer request for this machine's episode.
    fn mux_request(&self) -> (r: CompileRequest)
        requires
            self.wf(),
        ensures
            r matches CompileRequest::RunMuxer { program, args }
                && program@ == spec_mux_program()
                && args_view(args@) == spec_mux_request(self.episode@, self.language@, self.subtitle_type),
    {
        let staging = self.staging_path();
        let args = self.episode.combine_command(
            staging.as_str(),
            self.language.as_str(),
            self.subtitle_type,
        );
        CompileRequest::RunMuxer { program: crate::combiner::mux_program().to_owned(), args }
    }

    /// Feeds the outcome of the last requested action into the machine
    /// and yields the next request, if a stage is still pending. An
    /// event that does not answer the pending stage leaves the machine
    /// unchanged and asks nothing.
    pub fn on_event(&mut self, event: CompileEvent) -> (r: Option<CompileRequest>)
        requires
            old(self).wf(),
        ensures
            final(self).wf(),
            final(self).episode == old(self).episode,
            final(self).language == old(self).language,
            final(self).subtitle_type == old(self).subtitle_type,
            spec_on_event(old(self).state, old(self).episode@, old(self).language@, old(self).subtitle_type, event, final(self).state, r),
    {
        match (&self.state, event) {
            (CompileState::AwaitingSubtitleDir, CompileEvent::DirListing { entries }) => {
                match SubtitleFormat::get_episode_subtitle_type(&self.episode, &entries) {
                    Err(e) => {
                        self.state = CompileState::Failed(e);
                        None
                    },
                    Ok(format) => {
                        let file = match self.episode.get_subtitle_path(self.language.as_str(), &entries) {
                            Ok(p) => p,
                            Err(e) => {
                                proof {
                                    assert(false);
                                }
                                self.state = CompileState::Failed(e);
                                return None;
                            },
                        };
                        match format {
                            SubtitleFormat::Ssa => {
                                self.state = CompileState::AwaitingStaging;
                                let to = self.staging_path();
                                Some(CompileRequest::StageSubtitle { from: file, to })
                            },
                            SubtitleFormat::Json => {
                                self.state = CompileState::AwaitingSubtitleData { format: SubtitleFormat::Json };
                                Some(CompileRequest::ReadJsonSubtitle { path: file })
                            },
                            SubtitleFormat::Srt => {
                                self.state = CompileState::AwaitingSubtitleData { format: SubtitleFormat::Srt };
                                Some(CompileRequest::ReadSubtitle { path: file })
                            },
                            SubtitleFormat::Vtt => {
                                self.state = CompileState::AwaitingSubtitleData { format: SubtitleFormat::Vtt };
                                Some(CompileRequest::ReadSubtitle { path: file })
                            },
                        }
                    },
                }
            },
            (CompileState::AwaitingSubtitleDir, CompileEvent::DirListingFailed) => {
                self.state = CompileState::Failed(Error::Subtitle(SubtitleError::DirectoryEmpty));
                None
            },
            (CompileState::AwaitingSubtitleData { format: SubtitleFormat::Json }, CompileEvent::JsonSubtitleRead { subtitle }) => {
                match crate::codec::convert_json_to_ass(&subtitle) {
                    Err(e) => {
                        self.state = CompileState::Failed(e);
                        None
                    },
                    Ok(text) => {
                        self.state = CompileState::AwaitingWrite;
                        let path = self.staging_path();
                        Some(CompileRequest::WriteSubtitle { path, text })
                    },
                }
            },
            (CompileState::AwaitingSubtitleData { format: SubtitleFormat::Srt }, CompileEvent::SubtitleText { text }) => {
                match crate::codec::convert_srt_to_ass(text.as_str()) {
                    Err(e) => {
                        self.state = CompileState::Failed(e);
                        None
                    },
                    Ok(converted) => {
                        self.state = CompileState::AwaitingWrite;
                        let path = self.staging_path();
                        Some(CompileRequest::WriteSubtitle { path, text: converted })
                    },
                }
            },
            (CompileState::AwaitingSubtitleData { format: SubtitleFormat::Vtt }, CompileEvent::SubtitleText { text }) => {
                match crate::codec::convert_vtt_to_ass(text.as_str()) {
                    Err(e) => {
                        self.state = CompileState::Failed(e);
                        None
                    },
                    Ok(converted) => {
                        self.state = CompileState::AwaitingWrite;
                        let path = self.staging_path();
                        Some(CompileRequest::WriteSubtitle { path, text: converted })
                    },
                }
            },
            (CompileState::AwaitingSubtitleData { format: _ }, CompileEvent::ReadFailed) => {
                self.state = CompileState::Failed(Error::Subtitle(SubtitleError::CodecFailure));
                None
            },
            (CompileState::AwaitingStaging, CompileEvent::Staged) => {
                self.state = CompileState::AwaitingMux;
                Some(self.mux_request())
            },
            (CompileState::AwaitingStaging, CompileEvent::StageFailed) => {
                self.state = CompileState::Failed(Error::Subtitle(SubtitleError::CodecFailure));
                None
            },
            (CompileState::AwaitingWrite, CompileEvent::Written) => {
                self.state = CompileState::AwaitingMux;
                Some(self.mux_request())
            },
            (CompileState::AwaitingWrite, CompileEvent::WriteFailed) => {
                self.state = CompileState::Failed(Error::Subtitle(SubtitleError::CodecFailure));
                None
            },
            (CompileState::AwaitingMux, CompileEvent::MuxExited { code }) => {
                if code == 0 {
                    self.state = CompileState::Done;
                } else {
                    self.state = CompileState::Failed(Error::Mux(MuxError::ExternalFailure(code)));
                }
                None
            },
            (CompileState::AwaitingMux, CompileEvent::MuxSpawnFailed) => {
                self.state = CompileState::Failed(Error::Mux(MuxError::ProcessSpawnFailure));
                None
            },
            _ => {
                None
            },
        }
    }

    /// The episode's outcome, once the machine neither awaits an event
    /// nor asks for an action.
    pub fn result(&self) -> (r: Option<Result<(), Error>>)
        ensures
            match r {
                Some(Ok(())) => self.state == CompileState::Done,
                Some(Err(e)) => self.state == CompileState::Failed(e),
                None => !(self.state is Done || self.state is Failed),
            },
    {
        match &self.state {
            CompileState::Done => Some(Ok(())),
            CompileState::Failed(e) => Some(Err(*e)),
            _ => None,
        }
    }
}

/// The transition relation of the per-episode pipeline, one clause per
/// stage and outcome.
pub open spec fn spec_on_event(
    state: CompileState,
    e: EpisodeMetadataV,
    language: Seq<char>,
    mode: SubtitleType,
    event: CompileEvent,
    new_state: CompileState,
    r: Option<CompileRequest>,
) -> bool {
    match (state, event) {
        (CompileState::AwaitingSubtitleDir, CompileEvent::DirListing { entries }) => {
            let names = entries@.map_values(|x: String| x@);
            match spec_subtitle_format_of_dir(names) {
                Err(err) => new_state == CompileState::Failed(err) && r is None,
                Ok(format) => {
                    let file = spec_subtitle_file_path(e, language, names);
                    match format {
                        SubtitleFormat::Ssa => new_state == CompileState::AwaitingStaging
                            && (r matches Some(CompileRequest::StageSubtitle { from, to })
                                && from@ == file && to@ == spec_staging_path(e)),
                        SubtitleFormat::Json => new_state == (CompileState::AwaitingSubtitleData {
                            format: SubtitleFormat::Json,
                        }) && (r matches Some(CompileRequest::ReadJsonSubtitle { path })
                            && path@ == file),
                        SubtitleFormat::Srt => new_state == (CompileState::AwaitingSubtitleData {
                            format: SubtitleFormat::Srt,
                        }) && (r matches Some(CompileRequest::ReadSubtitle { path })
                            && path@ == file),
                        SubtitleFormat::Vtt => new_state == (CompileState::AwaitingSubtitleData {
                            format: SubtitleFormat::Vtt,
                        }) && (r matches Some(CompileRequest::ReadSubtitle { path })
                            && path@ == file),
                    }
                },
            }
        },
        (CompileState::AwaitingSubtitleDir, CompileEvent::DirListingFailed) => {
            new_state == CompileState::Failed(Error::Subtitle(SubtitleError::DirectoryEmpty))
                && r is None
        },
        (CompileState::AwaitingSubtitleData { format: SubtitleFormat::Json }, CompileEvent::JsonSubtitleRead { subtitle }) => {
            if forall|i: int| 0 <= i < subtitle@.body.len()
                ==> crate::subtitle::json_cue_ok(#[trigger] subtitle@.body[i]) {
                new_state == CompileState::AwaitingWrite
                    && (r matches Some(CompileRequest::WriteSubtitle { path, text })
                        && path@ == spec_staging_path(e)
                        && text@ == spec_ass_text(spec_json_cues(subtitle@.body)))
            } else {
                new_state == CompileState::Failed(Error::Subtitle(SubtitleError::CodecFailure))
                    && r is None
            }
        },
        (CompileState::AwaitingSubtitleData { format: SubtitleFormat::Srt }, CompileEvent::SubtitleText { text: input }) => {
            match srt_cues_of(input@) {
                Some(cues) => new_state == CompileState::AwaitingWrite
                    && (r matches Some(CompileRequest::WriteSubtitle { path, text })
                        && path@ == spec_staging_path(e)
                        && text@ == spec_ass_text(cues_of_clock(cues))),
                None => new_state == CompileState::Failed(Error::Subtitle(SubtitleError::CodecFailure))
                    && r is None,
            }
        },
        (CompileState::AwaitingSubtitleData { format: SubtitleFormat::Vtt }, CompileEvent::SubtitleText { text: input }) => {
            if !crate::codec::has_visible_char(input@) {
                new_state == CompileState::Failed(Error::Subtitle(SubtitleError::CodecFailure))
                    && r is None
            } else {
                match vtt_cues_of(input@) {
                    Some(cues) => new_state == CompileState::AwaitingWrite
                        && (r matches Some(CompileRequest::WriteSubtitle { path, text })
                            && path@ == spec_staging_path(e)
                            && text@ == spec_ass_text(cues_of_clock(cues))),
                    None => new_state == CompileState::Failed(Error::Subtitle(SubtitleError::CodecFailure))
                        && r is None,
                }
            }
        },
        (CompileState::AwaitingSubtitleData { format: _ }, CompileEvent::ReadFailed) => {
            new_state == CompileState::Failed(Error::Subtitle(SubtitleError::CodecFailure))
                && r is None
        },
        (CompileState::AwaitingStaging, CompileEvent::Staged) => {
            new_state == CompileState::AwaitingMux
                && (r matches Some(CompileRequest::RunMuxer { program, args })
                    && program@ == spec_mux_program()
                    && args_view(args@) == spec_mux_request(e, language, mode))
        },
        (CompileState::AwaitingStaging, CompileEvent::StageFailed) => {
            new_state == CompileState::Failed(Error::Subtitle(SubtitleError::CodecFailure))
                && r is None
        },
        (CompileState::AwaitingWrite, CompileEvent::Written) => {
            new_state == CompileState::AwaitingMux
                && (r matches Some(CompileRequest::RunMuxer { program, args })
                    && program@ == spec_mux_program()
                    && args_view(args@) == spec_mux_request(e, language, mode))
        },
        (CompileState::AwaitingWrite, CompileEvent::WriteFailed) => {
            new_state == CompileState::Failed(Error::Subtitle(SubtitleError::CodecFailure))
                && r is None
        },
        (CompileState::AwaitingMux, CompileEvent::MuxExited { code }) => {
            if code == 0 {
                new_state == CompileState::Done && r is None
            } else {
                new_state == CompileState::Failed(Error::Mux(MuxError::ExternalFailure(code)))
                    && r is None
            }
        },
        (CompileState::AwaitingMux, CompileEvent::MuxSpawnFailed) => {
            new_state == CompileState::Failed(Error::Mux(MuxError::ProcessSpawnFailure))
                && r is None
        },
        _ => new_state == state && r is None,
    }
}

// ---------------------------------------------------------------------------
// Grouping a season's episodes
// ---------------------------------------------------------------------------

/// The numbered episodes of a sequence, in order.
pub open spec fn spec_normals(s: Seq<EpisodeMetadataV>) -> Seq<EpisodeMetadataV>
    decreases s.len(),
{
    if s.len() == 0 {
        Seq::empty()
    } else if s[0].episode is Normal {
        seq![s[0]] + spec_normals(s.skip(1))
    } else {
        spec_normals(s.skip(1))
    }
}

/// The named special episodes of a sequence, in order.
pub open spec fn spec_specials(s: Seq<EpisodeMetadataV>) -> Seq<EpisodeMetadataV>
    decreases s.len(),
{
    if s.len() == 0 {
        Seq::empty()
    } else if s[0].episode is Special {
        seq![s[0]] + spec_specials(s.skip(1))
    } else {
        spec_specials(s.skip(1))
    }
}

impl SeasonMetadata {
    /// The season's numbered episodes, in the season's order.
    pub fn normal_episodes(&self) -> (r: Vec<EpisodeMetadata>)
        ensures
            crate::metadata::eps_view(r@) == spec_normals(self@.episodes),
    {
        let ghost all = self@.episodes;
        let mut out: Vec<EpisodeMetadata> = Vec::new();
        let mut i: usize = 0;
        proof {
            assert(all.skip(0) =~= all);
            assert(crate::metadata::eps_view(out@) + spec_normals(all.skip(0))
                =~= spec_normals(all));
        }
        while i < self.episodes.len()
            invariant
                i <= all.len(),
                all.len() == self.episodes@.len(),
                all == self@.episodes,
                crate::metadata::eps_view(out@) + spec_normals(all.skip(i as int))
                    == spec_normals(all),
            decreases all.len() - i,
        {
            proof {
                assert(all[i as int] == self.episodes@[i as int]@);
                assert(all.skip(i as int)[0] == all[i as int]);
                assert(all.skip(i as int).skip(1) =~= all.skip(i + 1));
            }
            let ghost prev = out@;
            let is_normal = match &self.episodes[i].episode {
                crate::metadata::EpisodeId::Normal(_) => true,
                crate::metadata::EpisodeId::Special(_) => false,
            };
            if is_normal {
                out.push(self.episodes[i].clone_episode());
                proof {
                    assert(crate::metadata::eps_view(out@)
                        =~= crate::metadata::eps_view(prev).push(all[i as int])) by {
                        assert(forall|m: int| 0 <= m < prev.len() ==> out@[m] == prev[m]);
                        assert(forall|m: int| 0 <= m <= prev.len()
                            ==> #[trigger] crate::metadata::eps_view(out@)[m] == out@[m]@);
                        assert(forall|m: int| 0 <= m < prev.len()
                            ==> #[trigger] crate::metadata::eps_view(prev)[m] == prev[m]@);
                    }
                    assert(crate::metadata::eps_view(prev).push(all[i as int])
                        + spec_normals(all.skip(i + 1))
                        =~= crate::metadata::eps_view(prev)
                        + (seq![all[i as int]] + spec_normals(all.skip(i + 1))));
                }
            }
            i = i + 1;
        }
        proof {
            assert(spec_normals(all.skip(all.len() as int)) =~= Seq::<EpisodeMetadataV>::empty());
            assert(crate::metadata::eps_view(out@) + Seq::<EpisodeMetadataV>::empty()
                =~= crate::metadata::eps_view(out@));
        }
        out
    }

    /// The season's named special episodes, in the season's order.
    pub fn special_episodes(&self) -> (r: Vec<EpisodeMetadata>)
        ensures
            crate::metadata::eps_view(r@) == spec_specials(self@.episodes),
    {
        let ghost all = self@.episodes;
        let mut out: Vec<EpisodeMetadata> = Vec::new();
        let mut i: usize = 0;
        proof {
            assert(all.skip(0) =~= all);
            assert(crate::metadata::eps_view(out@) + spec_specials(all.skip(0))
                =~= spec_specials(all));
        }
        while i < self.episodes.len()
            invariant
                i <= all.len(),
                all.len() == self.episodes@.len(),
                all == self@.episodes,
                crate::metadata::eps_view(out@) + spec_specials(all.skip(i as int))
                    == spec_specials(all),
            decreases all.len() - i,
        {
            proof {
                assert(all[i as int] == self.episodes@[i as int]@);
                assert(all.skip(i as int)[0] == all[i as int]);
                assert(all.skip(i as int).skip(1) =~= all.skip(i + 1));
            }
            let ghost prev = out@;
            let is_special = match &self.episodes[i].episode {
                crate::metadata::EpisodeId::Normal(_) => false,
                crate::metadata::EpisodeId::Special(_) => true,
            };
            if is_special {
                out.push(self.episodes[i].clone_episode());
                proof {
                    assert(crate::metadata::eps_view(out@)
                        =~= crate::metadata::eps_view(prev).push(all[i as int])) by {
                        assert(forall|m: int| 0 <= m < prev.len() ==> out@[m] == prev[m]);
                        assert(forall|m: int| 0 <= m <= prev.len()
                            ==> #[trigger] crate::metadata::eps_view(out@)[m] == out@[m]@);
                        assert(forall|m: int| 0 <= m < prev.len()
                            ==> #[trigger] crate::metadata::eps_view(prev)[m] == prev[m]@);
                    }
                    assert(crate::metadata::eps_view(prev).push(all[i as int])
                        + spec_specials(all.skip(i + 1))
                        =~= crate::metadata::eps_view(prev)
                        + (seq![all[i as int]] + spec_specials(all.skip(i + 1))));
                }
            }
            i = i + 1;
        }
        proof {
            assert(spec_specials(all.skip(all.len() as int)) =~= Seq::<EpisodeMetadataV>::empty());
            assert(crate::metadata::eps_view(out@) + Seq::<EpisodeMetadataV>::empty()
                =~= crate::metadata::eps_view(out@));
        }
        out
    }
}

// ---------------------------------------------------------------------------
// Batch sequencing
// ---------------------------------------------------------------------------

/// The position of the first failed episode, or the batch length if
/// every episode succeeded.
pub open spec fn spec_first_failure(outcomes: Seq<Result<(), Error>>) -> int
    decreases outcomes.len(),
{
    if outcomes.len() == 0 {
        0
    } else if outcomes[0] is Err {
        0
    } else {
        1 + spec_first_failure(outcomes.skip(1))
    }
}

pub proof fn lemma_first_failure_range(outcomes: Seq<Result<(), Error>>)
    ensures
        0 <= spec_first_failure(outcomes) <= outcomes.len(),
        spec_first_failure(outcomes) < outcomes.len()
            ==> outcomes[spec_first_failure(outcomes)] is Err,
        forall|j: int| 0 <= j < spec_first_failure(outcomes) ==> outcomes[j] is Ok,
    decreases outcomes.len(),
{
    if outcomes.len() > 0 && outcomes[0] is Ok {
        lemma_first_failure_range(outcomes.skip(1));
        let f = spec_first_failure(outcomes.skip(1));
        if f < outcomes.skip(1).len() {
            assert(outcomes.skip(1)[f] == outcomes[f + 1]);
        }
        assert forall|j: int| 0 <= j < f + 1 implies outcomes[j] is Ok by {
            if j > 0 {
                assert(outcomes.skip(1)[j - 1] == outcomes[j]);
            }
        }
    }
}

/// Folds the per-episode outcomes of one batch: how many episodes were
/// attempted and what the batch reports.
///
/// Sequentially, episodes run one at a time in order and the first
/// failure aborts the batch: nothing after it is attempted, and that
/// failure is the batch's error. Concurrently, the batch is
/// best-effort: every episode is attempted, and the batch reports the
/// first failure in episode order.
fn fold_outcomes(outcomes: &Vec<Result<(), Error>>, parallel: bool) -> (r: (usize, Result<(), Error>))
    ensures
        ({
            let f = spec_first_failure(outcomes@);
            &&& (r.0 as int) == if parallel {
                outcomes@.len() as int
            } else if f < outcomes@.len() {
                f + 1
            } else {
                f
            }
            &&& r.1 == if f < outcomes@.len() {
                Result::<(), Error>::Err(outcomes@[f]->Err_0)
            } else {
                Result::<(), Error>::Ok(())
            }
        }),
{
    let ghost all = outcomes@;
    let mut i: usize = 0;
    proof {
        assert(all.skip(0) =~= all);
    }
    while i < outcomes.len()
        invariant
            i <= all.len(),
            all.len() == outcomes@.len(),
            all == outcomes@,
            forall|j: int| 0 <= j < i ==> all[j] is Ok,
            spec_first_failure(all) == i + spec_first_failure(all.skip(i as int)),
        decreases all.len() - i,
    {
        proof {
            assert(all.skip(i as int)[0] == all[i as int]);
            assert(all.skip(i as int).skip(1) =~= all.skip(i + 1));
        }
        match &outcomes[i] {
            Ok(_) => {},
            Err(e) => {
                proof {
                    assert(spec_first_failure(all.skip(i as int)) == 0);
                    assert(spec_first_failure(all) == i as int);
                }
                if parallel {
                    return (outcomes.len(), Err(*e));
                }
                return (i + 1, Err(*e));
            },
        }
        i = i + 1;
    }
    proof {
        assert(all.skip(all.len() as int).len() == 0);
        assert(spec_first_failure(all) == all.len());
    }
    (outcomes.len(), Ok(()))
}

impl Compiler {
    /// Folds a numbered-episode batch, sequentially or concurrently as
    /// the run's configuration says. Sequential batches are fail-fast:
    /// an episode after the first failure is never attempted.
    pub fn compile_normal_episodes(&self, episodes: &Vec<EpisodeMetadata>, outcomes: &Vec<Result<(), Error>>) -> (r: (usize, Result<(), Error>))
        requires
            outcomes@.len() == episodes@.len(),
            forall|i: int| 0 <= i < episodes@.len()
                ==> (#[trigger] episodes@[i]).episode is Normal,
        ensures
            ({
                let f = spec_first_failure(outcomes@);
                &&& (r.0 as int) == if self.context.is_parallel {
                    outcomes@.len() as int
                } else if f < outcomes@.len() {
                    f + 1
                } else {
                    f
                }
                &&& r.1 == if f < outcomes@.len() {
                    Result::<(), Error>::Err(outcomes@[f]->Err_0)
                } else {
                    Result::<(), Error>::Ok(())
                }
            }),
    {
        fold_outcomes(outcomes, self.context.is_parallel)
    }

    /// Folds a special-episode batch, like `compile_normal_episodes`.
    pub fn compile_special_episodes(&self, episodes: &Vec<EpisodeMetadata>, outcomes: &Vec<Result<(), Error>>) -> (r: (usize, Result<(), Error>))
        requires
            outcomes@.len() == episodes@.len(),
            forall|i: int| 0 <= i < episodes@.len()
                ==> (#[trigger] episodes@[i]).episode is Special,
        ensures
            ({
                let f = spec_first_failure(outcomes@);
                &&& (r.0 as int) == if self.context.is_parallel {
                    outcomes@.len() as int
                } else if f < outcomes@.len() {
                    f + 1
                } else {
                    f
                }
                &&& r.1 == if f < outcomes@.len() {
                    Result::<(), Error>::Err(outcomes@[f]->Err_0)
                } else {
                    Result::<(), Error>::Ok(())
                }
            }),
    {
        fold_outcomes(outcomes, self.context.is_parallel)
    }

    /// Decides a season's outcome once both groups have reported, and
    /// plans the season's packaging: the numbered group's failure wins,
    /// then the special group's; only a season whose every episode
    /// succeeded is packaged.
    pub fn compile_season(&self, season_metadata: &SeasonMetadata, normal_result: Result<(), Error>, special_result: Result<(), Error>) -> (r: Result<Vec<PackageAction>, Error>)
        requires
            forall|i: int| 0 <= i < season_metadata.episodes@.len()
                ==> (#[trigger] season_metadata.episodes@[i]).path is Some,
        ensures
            match (normal_result, special_result) {
                (Err(e), _) => r == Result::<Vec<PackageAction>, Error>::Err(e),
                (Ok(()), Err(e)) => r == Result::<Vec<PackageAction>, Error>::Err(e),
                (Ok(()), Ok(())) => r is Ok && {
                    let plan = r->Ok_0;
                    &&& plan@.len() == season_metadata@.episodes.len()
                    &&& forall|i: int| 0 <= i < plan@.len()
                        ==> (#[trigger] plan@[i])@ == spec_package_action(
                            self.context.packager@, season_metadata@.episodes[i])
                },
            },
    {
        match normal_result {
            Err(e) => Err(e),
            Ok(()) => match special_result {
                Err(e) => Err(e),
                Ok(()) => Ok(self.context.packager.save_season(season_metadata)),
            },
        }
    }

    /// Folds the per-season results of a whole run: seasons are always
    /// processed one at a time in order, and the first season failure
    /// aborts the run.
    pub fn compile_seasons(&self, seasons: &Vec<SeasonMetadata>, outcomes: &Vec<Result<(), Error>>) -> (r: (usize, Result<(), Error>))
        requires
            outcomes@.len() == seasons@.len(),
        ensures
            ({
                let f = spec_first_failure(outcomes@);
                &&& (r.0 as int) == if f < outcomes@.len() {
                    f + 1
                } else {
                    f
                }
                &&& r.1 == if f < outcomes@.len() {
                    Result::<(), Error>::Err(outcomes@[f]->Err_0)
                } else {
                    Result::<(), Error>::Ok(())
                }
            }),
    {
        fold_outcomes(outcomes, false)
    }
}

/// Law: a sequential batch is fail-fast. When episode `f` is the first
/// to fail, every episode before it was attempted and succeeded, the
/// batch reports episode `f`'s error, and no episode after `f` is
/// attempted.
pub proof fn lemma_sequential_fail_fast(outcomes: Seq<Result<(), Error>>, attempted: int)
    requires
        spec_first_failure(outcomes) < outcomes.len(),
        attempted == spec_first_failure(outcomes) + 1,
    ensures
        forall|j: int| 0 <= j < attempted - 1 ==> outcomes[j] is Ok,
        outcomes[attempted - 1] is Err,
{
    lemma_first_failure_range(outcomes);
}

} // verus!
