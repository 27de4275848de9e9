use bilibili_extractor::codec::convert_json_to_ass;
use bilibili_extractor::compiler::{
    CompileEvent, CompileRequest, CompileState, Compiler, Context, EpisodeCompilation,
};
use bilibili_extractor::error::{Error, MuxError};
use bilibili_extractor::metadata::{
    DescriptorScan, DownloadFolder, EpisodeScan, JsonEntry, JsonEntryEpisodeMetadata, SeasonScan,
};
use bilibili_extractor::packager::{Packager, PackagerConfig};
use bilibili_extractor::subtitle::{JsonSubtitle, JsonSubtitleBody, SubtitleType};

fn context(parallel: bool) -> Context {
    Context {
        language: "en".to_string(),
        subtitle_type: SubtitleType::Soft,
        packager: Packager::new("out".to_string())
            .set_config(PackagerConfig { copy: true }),
        input_path: "root".to_string(),
        is_parallel: parallel,
    }
}

fn scan(path: &str, title: &str, index: &str) -> EpisodeScan {
    EpisodeScan {
        path: path.to_string(),
        descriptor: DescriptorScan::Found(JsonEntry {
            title: title.to_string(),
            ep: JsonEntryEpisodeMetadata {
                index_title: String::new(),
                index: index.to_string(),
            },
            type_tag: "1080p".to_string(),
        }),
    }
}

#[test]
fn sequential_batch_is_fail_fast() {
    // Three numbered episodes; the second fails: the third is not
    // attempted, and the first's outcome stands.
    let compiler = Compiler::new(context(false));
    let season = bilibili_extractor::metadata::SeasonMetadata::new_from_path(&SeasonScan {
        path: "root/s".to_string(),
        episodes: vec![
            scan("root/s/e1", "Show", "1"),
            scan("root/s/e2", "Show", "2"),
            scan("root/s/e3", "Show", "3"),
        ],
    })
    .unwrap();
    let episodes = season.normal_episodes();
    let failure = Error::Mux(MuxError::ExternalFailure(1));
    let outcomes = vec![Ok(()), Err(failure), Ok(())];
    let (attempted, result) = compiler.compile_normal_episodes(&episodes, &outcomes);
    assert_eq!(attempted, 2);
    assert_eq!(result, Err(failure));
}

#[test]
fn concurrent_batch_is_best_effort() {
    let compiler = Compiler::new(context(true));
    let season = bilibili_extractor::metadata::SeasonMetadata::new_from_path(&SeasonScan {
        path: "root/s".to_string(),
        episodes: vec![
            scan("root/s/e1", "Show", "1"),
            scan("root/s/e2", "Show", "2"),
            scan("root/s/e3", "Show", "3"),
        ],
    })
    .unwrap();
    let episodes = season.normal_episodes();
    let failure = Error::Mux(MuxError::ExternalFailure(1));
    let outcomes = vec![Ok(()), Err(failure), Ok(())];
    let (attempted, result) = compiler.compile_normal_episodes(&episodes, &outcomes);
    assert_eq!(attempted, 3);
    assert_eq!(result, Err(failure));
}

#[test]
fn season_outcome_prefers_the_numbered_groups_failure() {
    let compiler = Compiler::new(context(false));
    let season = bilibili_extractor::metadata::SeasonMetadata::new_from_path(&SeasonScan {
        path: "root/s".to_string(),
        episodes: vec![scan("root/s/e1", "Show", "1")],
    })
    .unwrap();
    let normal_failure = Error::Mux(MuxError::ExternalFailure(2));
    let special_failure = Error::Mux(MuxError::ProcessSpawnFailure);
    assert_eq!(
        compiler
            .compile_season(&season, Err(normal_failure), Err(special_failure))
            .unwrap_err(),
        normal_failure
    );
    assert_eq!(
        compiler
            .compile_season(&season, Ok(()), Err(special_failure))
            .unwrap_err(),
        special_failure
    );
}

#[test]
fn run_aborts_at_first_failed_season() {
    let compiler = Compiler::new(context(false));
    let seasons = vec![];
    let outcomes = vec![];
    let (attempted, result) = compiler.compile_seasons(&seasons, &outcomes);
    assert_eq!(attempted, 0);
    assert_eq!(result, Ok(()));
}

#[test]
fn packaging_is_idempotent_and_places_by_identity() {
    let packager = Packager::new("out".to_string()).set_config(PackagerConfig { copy: true });
    let season = bilibili_extractor::metadata::SeasonMetadata::new_from_path(&SeasonScan {
        path: "root/s".to_string(),
        episodes: vec![scan("root/s/e1", "Show", "1"), scan("root/s/sp", "Show", "OVA 1")],
    })
    .unwrap();
    let first = packager.save_episode(&season.episodes[0]);
    let again = packager.save_episode(&season.episodes[0]);
    assert_eq!(first, again);
    assert_eq!(first.source, "root/s/e1/1080p/episode.mkv");
    assert_eq!(first.dest_dir, "out/Show");
    assert_eq!(first.dest, "out/Show/Show EP01.mkv");
    assert!(first.copy);
    let special = packager.save_episode(&season.episodes[1]);
    assert_eq!(special.dest, "out/Show/Show OVA 1.mkv");
}

#[test]
fn end_to_end_soft_copy_run() {
    // One season "Show" with episodes "1" and "2", English subtitles in
    // the structured-JSON syntax, soft mode, copy policy.
    let compiler = Compiler::new(context(false));
    let scans = vec![SeasonScan {
        path: "root/Show".to_string(),
        episodes: vec![scan("root/Show/e1", "Show", "1"), scan("root/Show/e2", "Show", "2")],
    }];
    let folder = DownloadFolder::new_from_path(&scans);
    assert_eq!(folder.seasons.len(), 1);
    let season = &folder.seasons[0];
    let episodes = season.normal_episodes();
    assert_eq!(episodes.len(), 2);

    let mut outcomes = Vec::new();
    for episode in &episodes {
        let subtitle = JsonSubtitle {
            body: vec![JsonSubtitleBody {
                from: "0.0".to_string(),
                to: "1.0".to_string(),
                content: "Hi".to_string(),
            }],
        };
        let expected_text = convert_json_to_ass(&subtitle).unwrap();
        let episode_dir = episode.path.clone().unwrap();

        let (mut machine, request) = EpisodeCompilation::start(
            episode.clone(),
            compiler.context.language.clone(),
            compiler.context.subtitle_type,
        );
        match request {
            CompileRequest::ListSubtitleDir { path } => {
                assert_eq!(path, format!("{episode_dir}/en"));
            }
            _ => panic!("the first step must look for the subtitle"),
        }
        let request = machine
            .on_event(CompileEvent::DirListing {
                entries: vec!["subtitle.json".to_string()],
            })
            .unwrap();
        match request {
            CompileRequest::ReadJsonSubtitle { path } => {
                assert_eq!(path, format!("{episode_dir}/en/subtitle.json"));
            }
            _ => panic!("a structured-JSON subtitle must be read and decoded"),
        }
        let request = machine
            .on_event(CompileEvent::JsonSubtitleRead { subtitle })
            .unwrap();
        match request {
            CompileRequest::WriteSubtitle { path, text } => {
                assert_eq!(path, format!("{episode_dir}/subtitle.ass"));
                assert_eq!(text, expected_text);
            }
            _ => panic!("the converted subtitle must be staged"),
        }
        let request = machine.on_event(CompileEvent::Written).unwrap();
        match request {
            CompileRequest::RunMuxer { program, args } => {
                assert_eq!(program, "ffmpeg");
                assert!(args.contains(&format!("{episode_dir}/1080p/video.m4s")));
                assert!(args.contains(&format!("{episode_dir}/1080p/audio.m4s")));
                assert!(args.contains(&format!("{episode_dir}/subtitle.ass")));
                assert!(args.contains(&"copy".to_string()));
                assert!(args.contains(&"language=en".to_string()));
            }
            _ => panic!("a staged episode must be muxed"),
        }
        assert!(machine.on_event(CompileEvent::MuxExited { code: 0 }).is_none());
        assert_eq!(machine.state, CompileState::Done);
        outcomes.push(machine.result().unwrap());
    }

    let (attempted, normal_result) = compiler.compile_normal_episodes(&episodes, &outcomes);
    assert_eq!(attempted, 2);
    let plan = compiler
        .compile_season(season, normal_result, Ok(()))
        .unwrap();
    assert_eq!(plan.len(), 2);
    assert_eq!(plan[0].dest, "out/Show/Show EP01.mkv");
    assert_eq!(plan[1].dest, "out/Show/Show EP02.mkv");
    assert!(plan[0].copy && plan[1].copy);
}

#[test]
fn mux_failure_is_the_episodes_terminal_error() {
    let episode = bilibili_extractor::metadata::EpisodeMetadata {
        title: "Show".to_string(),
        episode: bilibili_extractor::metadata::EpisodeId::Normal(1),
        path: Some("root/Show/e1".to_string()),
        type_tag: "1080p".to_string(),
    };
    let (mut machine, _) =
        EpisodeCompilation::start(episode, "en".to_string(), SubtitleType::Hard);
    let request = machine
        .on_event(CompileEvent::DirListing {
            entries: vec!["subtitle.ass".to_string()],
        })
        .unwrap();
    match request {
        CompileRequest::StageSubtitle { from, to } => {
            assert_eq!(from, "root/Show/e1/en/subtitle.ass");
            assert_eq!(to, "root/Show/e1/subtitle.ass");
        }
        _ => panic!("a native-target subtitle is staged, not re-parsed"),
    }
    let request = machine.on_event(CompileEvent::Staged).unwrap();
    match request {
        CompileRequest::RunMuxer { args, .. } => {
            // Hard mode burns the subtitle in through the video filter.
            assert!(args.contains(&"-vf".to_string()));
            assert!(args.contains(&"subtitles=root/Show/e1/subtitle.ass".to_string()));
        }
        _ => panic!("a staged episode must be muxed"),
    }
    assert!(machine.on_event(CompileEvent::MuxExited { code: 3 }).is_none());
    assert_eq!(
        machine.result().unwrap(),
        Err(Error::Mux(MuxError::ExternalFailure(3)))
    );
}

#[test]
fn spawn_failure_is_the_episodes_terminal_error() {
    let episode = bilibili_extractor::metadata::EpisodeMetadata {
        title: "Show".to_string(),
        episode: bilibili_extractor::metadata::EpisodeId::Normal(1),
        path: Some("root/Show/e1".to_string()),
        type_tag: "1080p".to_string(),
    };
    let (mut machine, _) =
        EpisodeCompilation::start(episode, "en".to_string(), SubtitleType::Soft);
    machine
        .on_event(CompileEvent::DirListing {
            entries: vec!["subtitle.ass".to_string()],
        })
        .unwrap();
    machine.on_event(CompileEvent::Staged).unwrap();
    assert!(machine.on_event(CompileEvent::MuxSpawnFailed).is_none());
    assert_eq!(
        machine.result().unwrap(),
        Err(Error::Mux(MuxError::ProcessSpawnFailure))
    );
}
