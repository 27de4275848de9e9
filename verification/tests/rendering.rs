use bilibili_extractor::codec::{format_ass_time, format_srt_time, parse_ass_time};
use bilibili_extractor::combiner::{interpret_mux_exit, mux_arguments};
use bilibili_extractor::error::{Error, MetadataError, MuxError, SubtitleError};
use bilibili_extractor::lister::{Colorer, Lister};
use bilibili_extractor::metadata::{
    DescriptorScan, EpisodeScan, JsonEntry, JsonEntryEpisodeMetadata, SeasonMetadata, SeasonScan,
};
use bilibili_extractor::subtitle::SubtitleType;

#[test]
fn ass_clock_notation_renders_and_reads_back() {
    assert_eq!(format_ass_time(0), "0:00:00.00");
    assert_eq!(format_ass_time(1500), "0:00:01.50");
    // The odd millisecond rounds to the nearest centisecond.
    assert_eq!(format_ass_time(1504), "0:00:01.50");
    assert_eq!(format_ass_time(1505), "0:00:01.51");
    assert_eq!(format_ass_time(3_725_640), "1:02:05.64");
    assert_eq!(parse_ass_time("1:02:05.64"), Some(3_725_640));
    assert_eq!(parse_ass_time("0:00:01.50"), Some(1500));
    assert_eq!(parse_ass_time("0:00:01"), None);
    assert_eq!(parse_ass_time("x:00:01.00"), None);
}

#[test]
fn srt_clock_notation_renders_milliseconds() {
    assert_eq!(format_srt_time(0), "00:00:00,000");
    assert_eq!(format_srt_time(3_725_640), "01:02:05,640");
    assert_eq!(format_srt_time(61_007), "00:01:01,007");
}

#[test]
fn soft_mux_arguments_copy_streams_and_tag_language() {
    let args = mux_arguments(
        "v.m4s",
        "a.m4s",
        "s.ass",
        "out.mkv",
        "en",
        SubtitleType::Soft,
    );
    assert_eq!(
        args,
        vec![
            "-y",
            "-hide_banner",
            "-loglevel",
            "error",
            "-i",
            "v.m4s",
            "-i",
            "a.m4s",
            "-i",
            "s.ass",
            "-map",
            "0",
            "-map",
            "1:a:0",
            "-map",
            "2",
            "-metadata:s:s:0",
            "language=en",
            "-disposition:s:s:0",
            "default",
            "-codec",
            "copy",
            "out.mkv",
        ]
    );
}

#[test]
fn hard_mux_arguments_burn_the_subtitle_in() {
    let args = mux_arguments(
        "v.m4s",
        "a.m4s",
        "s.ass",
        "out.mkv",
        "en",
        SubtitleType::Hard,
    );
    assert_eq!(
        args,
        vec![
            "-y",
            "-hide_banner",
            "-loglevel",
            "error",
            "-i",
            "v.m4s",
            "-i",
            "a.m4s",
            "-vf",
            "subtitles=s.ass",
            "out.mkv",
        ]
    );
}

#[test]
fn nonzero_exit_becomes_the_mux_error() {
    assert_eq!(interpret_mux_exit(0), Ok(()));
    assert_eq!(
        interpret_mux_exit(2),
        Err(Error::Mux(MuxError::ExternalFailure(2)))
    );
}

#[test]
fn error_messages_name_the_stage() {
    assert_eq!(
        Error::Metadata(MetadataError::EmptySeason).message(),
        "metadata error: season directory has no episodes"
    );
    assert_eq!(
        Error::Subtitle(SubtitleError::UnknownFormat).message(),
        "subtitle error: unsupported subtitle format"
    );
    assert_eq!(
        Error::Mux(MuxError::ProcessSpawnFailure).message(),
        "mux error: external multiplexer could not be started"
    );
}

#[test]
fn colorer_wraps_text_in_ansi_codes() {
    assert_eq!("ok".to_string().color_as_success(), "\x1b[1;32mok\x1b[0m");
    assert_eq!("hm".to_string().color_as_warning(), "\x1b[1;33mhm\x1b[0m");
    assert_eq!("no".to_string().color_as_error(), "\x1b[1;31mno\x1b[0m");
}

#[test]
fn listing_renders_seasons_and_episodes() {
    let season = SeasonMetadata::new_from_path(&SeasonScan {
        path: "root/s".to_string(),
        episodes: vec![
            EpisodeScan {
                path: "root/s/e1".to_string(),
                descriptor: DescriptorScan::Found(JsonEntry {
                    title: "Show".to_string(),
                    ep: JsonEntryEpisodeMetadata {
                        index_title: String::new(),
                        index: "1".to_string(),
                    },
                    type_tag: "1080p".to_string(),
                }),
            },
        ],
    })
    .unwrap();
    let lister = Lister::new();
    let listing = lister.list_seasons(&vec![season]);
    assert_eq!(listing, "1.) Title: Show\n    Episodes:\n        Show Episode 01\n");
    let empty = lister.list_seasons(&vec![]);
    assert_eq!(empty, "");
}
