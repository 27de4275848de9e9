use vstd::prelude::*;

use crate::error::{Error, MuxError};
use crate::metadata::EpisodeMetadata;
use crate::subtitle::SubtitleType;

verus! {

/// The program the pipeline invokes to multiplex streams.
pub open spec fn spec_mux_program() -> Seq<char> {
    "ffmpeg"@
}

/// The external multiplexer's program name.
pub fn mux_program() -> (r: &'static str)
    ensures
        r@ == spec_mux_program(),
{
    "ffmpeg"
}

/// The view of an argument vector.
pub open spec fn args_view(v: Seq<String>) -> Seq<Seq<char>> {
    v.map_values(|s: String| s@)
}

/// The argument list handed to the external multiplexer. Both modes
/// read the video and the audio stream and stay silent on the console.
/// Hard mode re-renders the video with the subtitle burned in. Soft
/// mode adds the subtitle as a third input, maps the video, the first
/// audio track and the subtitle into the output, tags the subtitle
/// track with the language, marks it as the default track, and copies
/// every stream without re-encoding.
pub open spec fn spec_mux_args(
    video: Seq<char>,
    audio: Seq<char>,
    subtitle: Seq<char>,
    output: Seq<char>,
    language: Seq<char>,
    mode: SubtitleType,
) -> Seq<Seq<char>> {
    match mode {
        SubtitleType::Hard => seq![
            "-y"@, "-hide_banner"@, "-loglevel"@, "error"@,
            "-i"@, video, "-i"@, audio,
            "-vf"@, "subtitles="@ + subtitle,
            output,
        ],
        SubtitleType::Soft => seq![
            "-y"@, "-hide_banner"@, "-loglevel"@, "error"@,
            "-i"@, video, "-i"@, audio, "-i"@, subtitle,
            "-map"@, "0"@, "-map"@, "1:a:0"@, "-map"@, "2"@,
            "-metadata:s:s:0"@, "language="@ + language,
            "-disposition:s:s:0"@, "default"@,
            "-codec"@, "copy"@,
            output,
        ],
    }
}

/// Builds the external multiplexer's argument list.
#[verifier::rlimit(60)]
pub fn mux_arguments(
    video: &str,
    audio: &str,
    subtitle: &str,
    output: &str,
    language: &str,
    mode: SubtitleType,
) -> (r: Vec<String>)
    ensures
        args_view(r@) == spec_mux_args(video@, audio@, subtitle@, output@, language@, mode),
{
    let mut args: Vec<String> = Vec::new();
    args.push(("-y").to_owned());
    args.push(("-hide_banner").to_owned());
    args.push(("-loglevel").to_owned());
    args.push(("error").to_owned());
    args.push(("-i").to_owned());
    args.push(video.to_owned());
    args.push(("-i").to_owned());
    args.push(audio.to_owned());
    match mode {
        SubtitleType::Hard => {
            args.push(("-vf").to_owned());
            let mut filter = ("subtitles=").to_owned();
            filter.append(subtitle);
            args.push(filter);
            args.push(output.to_owned());
        },
        SubtitleType::Soft => {
            args.push(("-i").to_owned());
            args.push(subtitle.to_owned());
            args.push(("-map").to_owned());
            args.push(("0").to_owned());
            args.push(("-map").to_owned());
            args.push(("1:a:0").to_owned());
            args.push(("-map").to_owned());
            args.push(("2").to_owned());
            args.push(("-metadata:s:s:0").to_owned());
            let mut meta = ("language=").to_owned();
            meta.append(language);
            args.push(meta);
            args.push(("-disposition:s:s:0").to_owned());
            args.push(("default").to_owned());
            args.push(("-codec").to_owned());
            args.push(("copy").to_owned());
            args.push(output.to_owned());
        },
    }
    proof {
        assert(args_view(args@) =~= spec_mux_args(
            video@, audio@, subtitle@, output@, language@, mode));
    }
    args
}

/// A stream file of an episode's technical rendition: the episode path,
/// the type tag, and the file name joined with '/'.
pub open spec fn spec_media_path(episode: crate::metadata::EpisodeMetadataV, file: Seq<char>) -> Seq<char> {
    episode.path->0 + "/"@ + episode.type_tag + "/"@ + file
}

impl EpisodeMetadata {
    /// The path of a stream file in the episode's rendition directory.
    pub fn media_path(&self, file: &str) -> (r: String)
        requires
            self.path is Some,
        ensures
            r@ == spec_media_path(self@, file@),
    {
        let base = match &self.path {
            Some(p) => p,
            None => {
                proof {
                    assert(false);
                }
                return String::new();
            },
        };
        proof {
            reveal_strlit("/");
        }
        let mut out = base.clone();
        out.append("/");
        out.append(self.type_tag.as_str());
        out.append("/");
        out.append(file);
        out
    }

    /// The external multiplexer invocation that combines the episode's
    /// video and audio streams with a staged subtitle into the muxed
    /// container `episode.mkv`, in the given embedding mode.
    pub fn combine_command(&self, subtitle_path: &str, subtitle_language: &str, subtitle_type: SubtitleType) -> (r: Vec<String>)
        requires
            self.path is Some,
        ensures
            args_view(r@) == spec_mux_args(
                spec_media_path(self@, "video.m4s"@),
                spec_media_path(self@, "audio.m4s"@),
                subtitle_path@,
                spec_media_path(self@, "episode.mkv"@),
                subtitle_language@,
                subtitle_type,
            ),
    {
        let video = self.media_path("video.m4s");
        let audio = self.media_path("audio.m4s");
        let output = self.media_path("episode.mkv");
        mux_arguments(
            video.as_str(),
            audio.as_str(),
            subtitle_path,
            output.as_str(),
            subtitle_language,
            subtitle_type,
        )
    }
}

/// What an exit status of the external multiplexer means for the
/// episode: zero is success, anything else is the episode's terminal
/// mux failure carrying the status.
pub fn interpret_mux_exit(code: i32) -> (r: Result<(), Error>)
    ensures
        code == 0 ==> r is Ok,
        code != 0 ==> r == Result::<(), Error>::Err(Error::Mux(MuxError::ExternalFailure(code))),
{
    if code == 0 {
        Ok(())
    } else {
        Err(Error::Mux(MuxError::ExternalFailure(code)))
    }
}

} // verus!
