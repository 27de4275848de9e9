use bilibili_extractor::codec::{convert_json_to_ass, convert_srt_to_ass, convert_vtt_to_ass};
use bilibili_extractor::error::{Error, SubtitleError};
use bilibili_extractor::metadata::{EpisodeId, EpisodeMetadata};
use bilibili_extractor::subtitle::{
    parse_seconds_to_ms, JsonSubtitle, JsonSubtitleBody, SubtitleCue, SubtitleDocument,
    SubtitleFormat,
};

fn episode() -> EpisodeMetadata {
    EpisodeMetadata {
        title: "Show".to_string(),
        episode: EpisodeId::Normal(1),
        path: Some("root/s_1/e1".to_string()),
        type_tag: "1080p".to_string(),
    }
}

fn cue(from: &str, to: &str, content: &str) -> JsonSubtitleBody {
    JsonSubtitleBody {
        from: from.to_string(),
        to: to.to_string(),
        content: content.to_string(),
    }
}

#[test]
fn empty_subtitle_directory_is_rejected() {
    let entries: Vec<String> = vec![];
    assert_eq!(
        SubtitleFormat::get_episode_subtitle_type(&episode(), &entries).unwrap_err(),
        Error::Subtitle(SubtitleError::DirectoryEmpty)
    );
}

#[test]
fn ambiguous_subtitle_directory_is_rejected() {
    let entries = vec!["a.json".to_string(), "b.json".to_string()];
    assert_eq!(
        SubtitleFormat::get_episode_subtitle_type(&episode(), &entries).unwrap_err(),
        Error::Subtitle(SubtitleError::AmbiguousDirectory)
    );
}

#[test]
fn unknown_extension_is_rejected() {
    let entries = vec!["subtitle.txt".to_string()];
    assert_eq!(
        SubtitleFormat::get_episode_subtitle_type(&episode(), &entries).unwrap_err(),
        Error::Subtitle(SubtitleError::UnknownFormat)
    );
    let entries = vec!["subtitle".to_string()];
    assert_eq!(
        SubtitleFormat::get_episode_subtitle_type(&episode(), &entries).unwrap_err(),
        Error::Subtitle(SubtitleError::UnknownFormat)
    );
}

#[test]
fn extension_mapping_is_case_insensitive() {
    let entries = vec!["subtitle.JSON".to_string()];
    assert_eq!(
        SubtitleFormat::get_episode_subtitle_type(&episode(), &entries).unwrap(),
        SubtitleFormat::Json
    );
    let entries = vec!["subtitle.Ass".to_string()];
    assert_eq!(
        SubtitleFormat::get_episode_subtitle_type(&episode(), &entries).unwrap(),
        SubtitleFormat::Ssa
    );
    let entries = vec!["subtitle.ssa".to_string()];
    assert_eq!(
        SubtitleFormat::get_episode_subtitle_type(&episode(), &entries).unwrap(),
        SubtitleFormat::Ssa
    );
    let entries = vec!["subtitle.sRt".to_string()];
    assert_eq!(
        SubtitleFormat::get_episode_subtitle_type(&episode(), &entries).unwrap(),
        SubtitleFormat::Srt
    );
    let entries = vec!["subtitle.VTT".to_string()];
    assert_eq!(
        SubtitleFormat::get_episode_subtitle_type(&episode(), &entries).unwrap(),
        SubtitleFormat::Vtt
    );
}

#[test]
fn subtitle_path_names_the_single_file() {
    let entries = vec!["subtitle.json".to_string()];
    let path = episode().get_subtitle_path("en", &entries).unwrap();
    assert_eq!(path, "root/s_1/e1/en/subtitle.json");
}

#[test]
fn seconds_parse_to_rounded_milliseconds() {
    assert_eq!(parse_seconds_to_ms("0"), Some(0));
    assert_eq!(parse_seconds_to_ms("1.5"), Some(1500));
    assert_eq!(parse_seconds_to_ms("12.64"), Some(12640));
    assert_eq!(parse_seconds_to_ms("1.23456"), Some(1235));
    assert_eq!(parse_seconds_to_ms("0.0004"), Some(0));
    assert_eq!(parse_seconds_to_ms("0.0005"), Some(1));
    assert_eq!(parse_seconds_to_ms(""), None);
    assert_eq!(parse_seconds_to_ms("1."), None);
    assert_eq!(parse_seconds_to_ms(".5"), None);
    assert_eq!(parse_seconds_to_ms("1.5.2"), None);
    assert_eq!(parse_seconds_to_ms("-1"), None);
    assert_eq!(parse_seconds_to_ms("1e3"), None);
}

#[test]
fn json_document_keeps_cue_order() {
    let json = JsonSubtitle {
        body: vec![cue("0.0", "1.0", "A"), cue("1.5", "2.5", "B")],
    };
    let doc = SubtitleDocument::from_json(&json).unwrap();
    assert_eq!(doc.cues.len(), 2);
    assert_eq!(doc.cues[0].start_ms, 0);
    assert_eq!(doc.cues[0].end_ms, 1000);
    assert_eq!(doc.cues[0].text, "A");
    assert_eq!(doc.cues[1].start_ms, 1500);
    assert_eq!(doc.cues[1].text, "B");
}

#[test]
fn json_document_rejects_malformed_timestamp() {
    let json = JsonSubtitle {
        body: vec![cue("abc", "1.0", "A")],
    };
    assert_eq!(
        SubtitleDocument::from_json(&json).unwrap_err(),
        Error::Subtitle(SubtitleError::CodecFailure)
    );
}

#[test]
fn round_trip_through_native_target_preserves_order() {
    // The cue list of the round-trip property: [(0.0s, "A"), (1.5s, "B")].
    let json = JsonSubtitle {
        body: vec![cue("0.0", "1.0", "A"), cue("1.5", "2.5", "B")],
    };
    let doc = SubtitleDocument::from_json(&json).unwrap();
    let ass = doc.to_ass_text();
    let back = SubtitleDocument::from_ass_text(&ass).unwrap();
    assert_eq!(back.cues.len(), 2);
    assert_eq!(back.cues[0].text, "A");
    assert_eq!(back.cues[1].text, "B");
    assert_eq!(back.cues[0].start_ms, 0);
    assert_eq!(back.cues[1].start_ms, 1500);
    assert!(back.cues[0].start_ms <= back.cues[1].start_ms);
}

#[test]
fn round_trip_keeps_multi_line_text() {
    let json = JsonSubtitle {
        body: vec![cue("0.25", "1.75", "line one\nline two")],
    };
    let doc = SubtitleDocument::from_json(&json).unwrap();
    let ass = doc.to_ass_text();
    assert!(ass.contains("Dialogue: 0,0:00:00.25,0:00:01.75,Default,,0,0,0,,line one\\Nline two\n"));
    let back = SubtitleDocument::from_ass_text(&ass).unwrap();
    assert_eq!(back.cues[0].text, "line one\nline two");
    assert_eq!(back.cues[0].start_ms, 250);
    assert_eq!(back.cues[0].end_ms, 1750);
}

#[test]
fn convert_json_emits_the_fixed_profile() {
    let json = JsonSubtitle {
        body: vec![cue("0.0", "1.0", "Subtitle")],
    };
    let text = convert_json_to_ass(&json).unwrap();
    assert!(text.starts_with("[Script Info]\nTitle: Bilibili Subtitle\n"));
    assert!(text.contains("Style: Default,Noto Sans,100,"));
    assert!(text.ends_with("Dialogue: 0,0:00:00.00,0:00:01.00,Default,,0,0,0,,Subtitle\n"));
}

#[test]
fn convert_srt_reads_real_cues() {
    let srt = "1\n00:00:01,000 --> 00:00:02,500\nHello\n\n2\n00:01:00,250 --> 00:01:02,000\nWorld\n\n";
    let text = convert_srt_to_ass(srt).unwrap();
    // Would fail if the external parser's result were not read back:
    // the times below come out of the SRT stamps.
    assert!(text.contains("Dialogue: 0,0:00:01.00,0:00:02.50,Default,,0,0,0,,Hello\n"));
    assert!(text.contains("Dialogue: 0,0:01:00.25,0:01:02.00,Default,,0,0,0,,World\n"));
}

#[test]
fn convert_vtt_reads_real_cues() {
    let vtt = "WEBVTT\n\n00:00:01.000 --> 00:00:02.500\nHello\n\n00:01:00.250 --> 00:01:02.000\nWorld\n\n";
    let text = convert_vtt_to_ass(vtt).unwrap();
    assert!(text.contains("Dialogue: 0,0:00:01.00,0:00:02.50,Default,,0,0,0,,Hello\n"));
    assert!(text.contains("Dialogue: 0,0:01:00.25,0:01:02.00,Default,,0,0,0,,World\n"));
}

#[test]
fn srt_emission_round_trips_from_native_target() {
    let json = JsonSubtitle {
        body: vec![cue("1.0", "2.5", "Hello")],
    };
    let ass = convert_json_to_ass(&json).unwrap();
    let srt = bilibili_extractor::codec::convert_ass_to_srt(&ass).unwrap();
    assert_eq!(srt, "1\n00:00:01,000 --> 00:00:02,500\nHello\n\n");
}

#[test]
fn blank_text_is_not_webvtt() {
    // No printable character at all: rejected before the external
    // parser ever runs.
    assert_eq!(
        convert_vtt_to_ass("").unwrap_err(),
        Error::Subtitle(SubtitleError::CodecFailure)
    );
    assert_eq!(
        convert_vtt_to_ass("  \n \t \n").unwrap_err(),
        Error::Subtitle(SubtitleError::CodecFailure)
    );
}

#[test]
fn vtt_emission_round_trips_from_the_pivot() {
    let json = JsonSubtitle {
        body: vec![cue("1.0", "2.5", "Hello")],
    };
    let doc = SubtitleDocument::from_json(&json).unwrap();
    assert_eq!(
        doc.to_vtt_text(),
        "WEBVTT\n\nSTYLE\n::cue {\nfont-family: Noto Sans;\nfont-size: 100px;\ncolor: #FFFFFF;\nbackground-color: #000000;\n}\n\n0\n00:00:01.000 --> 00:00:02.500\nHello\n\n"
    );
}

#[test]
fn crlf_normalizes_to_one_break() {
    let doc = SubtitleDocument {
        cues: vec![SubtitleCue {
            start_ms: 0,
            end_ms: 1000,
            text: "a\r\nb".to_string(),
        }],
    };
    let ass = doc.to_ass_text();
    assert!(ass.ends_with("Dialogue: 0,0:00:00.00,0:00:01.00,Default,,0,0,0,,a\\Nb\n"));
    // The pair collapses to a single newline on the way back.
    let back = SubtitleDocument::from_ass_text(&ass).unwrap();
    assert_eq!(back.cues[0].text, "a\nb");
}
