use bilibili_extractor::error::{Error, MetadataError};
use bilibili_extractor::metadata::{
    DescriptorScan, DownloadFolder, EpisodeId, EpisodeMetadata, EpisodeScan, JsonEntry,
    JsonEntryEpisodeMetadata, SeasonMetadata, SeasonScan,
};

fn entry(title: &str, index: &str, type_tag: &str) -> JsonEntry {
    JsonEntry {
        title: title.to_string(),
        ep: JsonEntryEpisodeMetadata {
            index_title: String::new(),
            index: index.to_string(),
        },
        type_tag: type_tag.to_string(),
    }
}

fn found(path: &str, title: &str, index: &str) -> EpisodeScan {
    EpisodeScan {
        path: path.to_string(),
        descriptor: DescriptorScan::Found(entry(title, index, "1080p")),
    }
}

#[test]
fn classify_numbered_index_token() {
    let e = EpisodeMetadata::from_entry(&entry("Show", "3", "1080p"));
    assert_eq!(e.episode, EpisodeId::Normal(3));
    assert_eq!(e.title, "Show");
    assert_eq!(e.path, None);
}

#[test]
fn classify_special_index_token() {
    let e = EpisodeMetadata::from_entry(&entry("Show", "SP1", "1080p"));
    assert_eq!(e.episode, EpisodeId::Special("SP1".to_string()));
}

#[test]
fn classify_overlong_index_token_as_special() {
    // Does not fit the ordinal type, so it stays a label.
    let e = EpisodeMetadata::from_entry(&entry("Show", "99999999999999999999999", "1080p"));
    assert_eq!(
        e.episode,
        EpisodeId::Special("99999999999999999999999".to_string())
    );
}

#[test]
fn resolve_season_sorts_episodes_and_keeps_count() {
    let scan = SeasonScan {
        path: "root/s_1".to_string(),
        episodes: vec![
            found("root/s_1/e2", "Show", "2"),
            found("root/s_1/sp", "Show", "OVA 1"),
            found("root/s_1/e1", "Show", "1"),
        ],
    };
    let season = SeasonMetadata::new_from_path(&scan).unwrap();
    assert_eq!(season.title, "Show");
    assert_eq!(season.path, Some("root/s_1".to_string()));
    assert_eq!(season.episodes.len(), 3);
    assert_eq!(season.episodes[0].episode, EpisodeId::Normal(1));
    assert_eq!(season.episodes[1].episode, EpisodeId::Normal(2));
    assert_eq!(
        season.episodes[2].episode,
        EpisodeId::Special("OVA 1".to_string())
    );
    assert_eq!(season.episodes[0].path, Some("root/s_1/e1".to_string()));
}

#[test]
fn resolve_empty_season_fails() {
    let scan = SeasonScan {
        path: "root/s_1".to_string(),
        episodes: vec![],
    };
    assert_eq!(
        SeasonMetadata::new_from_path(&scan).unwrap_err(),
        Error::Metadata(MetadataError::EmptySeason)
    );
}

#[test]
fn resolve_missing_descriptor_fails() {
    let scan = SeasonScan {
        path: "root/s_1".to_string(),
        episodes: vec![
            found("root/s_1/e1", "Show", "1"),
            EpisodeScan {
                path: "root/s_1/e2".to_string(),
                descriptor: DescriptorScan::Missing,
            },
        ],
    };
    assert_eq!(
        SeasonMetadata::new_from_path(&scan).unwrap_err(),
        Error::Metadata(MetadataError::MissingDescriptor)
    );
}

#[test]
fn resolve_invalid_descriptor_fails() {
    let scan = SeasonScan {
        path: "root/s_1".to_string(),
        episodes: vec![EpisodeScan {
            path: "root/s_1/e1".to_string(),
            descriptor: DescriptorScan::Invalid,
        }],
    };
    assert_eq!(
        SeasonMetadata::new_from_path(&scan).unwrap_err(),
        Error::Metadata(MetadataError::InvalidDescriptor)
    );
}

#[test]
fn resolve_folder_skips_bad_seasons_and_sorts_titles() {
    let scans = vec![
        SeasonScan {
            path: "root/s_b".to_string(),
            episodes: vec![found("root/s_b/e1", "Beta", "1")],
        },
        SeasonScan {
            path: "root/s_bad".to_string(),
            episodes: vec![],
        },
        SeasonScan {
            path: "root/s_a".to_string(),
            episodes: vec![found("root/s_a/e1", "Alpha", "1")],
        },
    ];
    let folder = DownloadFolder::new_from_path(&scans);
    assert_eq!(folder.seasons.len(), 2);
    assert_eq!(folder.seasons[0].title, "Alpha");
    assert_eq!(folder.seasons[1].title, "Beta");
}

#[test]
fn season_builders_append_episodes() {
    let mut season = SeasonMetadata::new(entry("Show", "1", "1080p"));
    assert_eq!(season.title, "Show");
    assert_eq!(season.episodes.len(), 0);
    let normal = EpisodeMetadata::from_entry(&entry("Show", "1", "1080p"));
    let special = EpisodeMetadata::from_entry(&entry("Show", "SP", "1080p"));
    season.add_normal_episode(normal);
    season.add_special_episode(special);
    season.add_episode(EpisodeMetadata::from_entry(&entry("Show", "2", "1080p")));
    assert_eq!(season.episodes.len(), 3);
    let season = season.set_path("root/s_1".to_string());
    assert_eq!(season.path, Some("root/s_1".to_string()));
}

#[test]
fn full_display_pads_ordinals() {
    assert_eq!(EpisodeId::Normal(3).get_full_display(), "Episode 03");
    assert_eq!(EpisodeId::Normal(14).get_full_display(), "Episode 14");
    assert_eq!(
        EpisodeId::Special("OVA 1".to_string()).get_full_display(),
        "OVA 1"
    );
}

#[test]
fn sorting_is_stable_for_equal_identities() {
    // Two bundles claim the same ordinal: the scan order decides.
    let scan = SeasonScan {
        path: "root/s_1".to_string(),
        episodes: vec![
            found("root/s_1/first", "Show", "1"),
            found("root/s_1/second", "Show", "1"),
        ],
    };
    let season = SeasonMetadata::new_from_path(&scan).unwrap();
    assert_eq!(season.episodes[0].path, Some("root/s_1/first".to_string()));
    assert_eq!(season.episodes[1].path, Some("root/s_1/second".to_string()));
}

#[test]
fn classify_accepts_a_leading_plus_sign() {
    // Unsigned-integer parsing reads one optional leading '+'.
    let e = EpisodeMetadata::from_entry(&entry("Show", "+3", "1080p"));
    assert_eq!(e.episode, EpisodeId::Normal(3));
    let e = EpisodeMetadata::from_entry(&entry("Show", "+", "1080p"));
    assert_eq!(e.episode, EpisodeId::Special("+".to_string()));
    let e = EpisodeMetadata::from_entry(&entry("Show", "++3", "1080p"));
    assert_eq!(e.episode, EpisodeId::Special("++3".to_string()));
    let e = EpisodeMetadata::from_entry(&entry("Show", "3+", "1080p"));
    assert_eq!(e.episode, EpisodeId::Special("3+".to_string()));
    let e = EpisodeMetadata::from_entry(&entry("Show", "-3", "1080p"));
    assert_eq!(e.episode, EpisodeId::Special("-3".to_string()));
}
