use vstd::prelude::*;

use crate::metadata::{EpisodeId, EpisodeIdV, EpisodeMetadata, EpisodeMetadataV, SeasonMetadata};
use crate::text::padded2_string;

verus! {

/// The run-wide packaging policy: copy the muxed container into the
/// library, or move it.
#[derive(Debug, Clone, Copy, PartialEq, Eq, Structural, Default)]
pub struct PackagerConfig {
    pub copy: bool,
}

/// Moves or copies finished containers into the final library layout.
#[derive(Debug, Clone, PartialEq, Eq)]
pub struct Packager {
    pub output_path: String,
    pub config: PackagerConfig,
}

pub struct PackagerV {
    pub output_path: Seq<char>,
    pub config: PackagerConfig,
}

impl View for Packager {
    type V = PackagerV;

    open spec fn view(&self) -> PackagerV {
        PackagerV { output_path: self.output_path@, config: self.config }
    }
}

/// One placement of a finished container: the muxed source file, the
/// season directory to create if absent, the final destination, and
/// whether to copy or move. Destinations are overwritten, never
/// appended to, so performing an action twice leaves one file.
#[derive(Debug, Clone, PartialEq, Eq)]
pub struct PackageAction {
    pub source: String,
    pub dest_dir: String,
    pub dest: String,
    pub copy: bool,
}

pub struct PackageActionV {
    pub source: Seq<char>,
    pub dest_dir: Seq<char>,
    pub dest: Seq<char>,
    pub copy: bool,
}

impl View for PackageAction {
    type V = PackageActionV;

    open spec fn view(&self) -> PackageActionV {
        PackageActionV {
            source: self.source@,
            dest_dir: self.dest_dir@,
            dest: self.dest@,
            copy: self.copy,
        }
    }
}

/// A packaged episode's file name: the season title, then ` EP` and the
/// two-digit zero-padded ordinal for a numbered episode or a space and
/// the label verbatim for a special, then `.mkv`.
pub open spec fn spec_episode_file_name(title: Seq<char>, id: EpisodeIdV) -> Seq<char> {
    match id {
        EpisodeIdV::Normal(n) => title + " EP"@ + padded2_string(n as nat) + ".mkv"@,
        EpisodeIdV::Special(label) => title + " "@ + label + ".mkv"@,
    }
}

/// Renders a packaged episode's file name.
pub fn episode_file_name(title: &str, id: &EpisodeId) -> (r: String)
    ensures
        r@ == spec_episode_file_name(title@, id@),
{
    let mut out = title.to_owned();
    match id {
        EpisodeId::Normal(n) => {
            proof {
                reveal_strlit(" EP");
                reveal_strlit(".mkv");
            }
            out.append(" EP");
            let num = crate::text::u64_to_padded2_string(*n);
            out.append(num.as_str());
            out.append(".mkv");
        },
        EpisodeId::Special(label) => {
            proof {
                reveal_strlit(" ");
                reveal_strlit(".mkv");
            }
            out.append(" ");
            out.append(label.as_str());
            out.append(".mkv");
        },
    }
    out
}

/// The placement an episode gets under an output root: the muxed
/// container from the episode's rendition directory goes into
/// `<output>/<title>/`, under the episode's rendered file name.
pub open spec fn spec_package_action(p: PackagerV, e: EpisodeMetadataV) -> PackageActionV {
    PackageActionV {
        source: crate::combiner::spec_media_path(e, "episode.mkv"@),
        dest_dir: p.output_path + "/"@ + e.title,
        dest: p.output_path + "/"@ + e.title + "/"@ + spec_episode_file_name(e.title, e.episode),
        copy: p.config.copy,
    }
}

/// Law: two numbered episodes of one season with different ordinals
/// are placed at different destinations. Together with the overwrite
/// semantics of each single action, the final directory contents do not
/// depend on the order concurrent episodes finish in.
pub proof fn lemma_distinct_destinations(p: PackagerV, a: EpisodeMetadataV, b: EpisodeMetadataV)
    requires
        a.episode is Normal,
        b.episode is Normal,
        a.episode != b.episode,
        a.title == b.title,
    ensures
        spec_package_action(p, a).dest != spec_package_action(p, b).dest,
{
    let na = a.episode->Normal_0;
    let nb = b.episode->Normal_0;
    let pre = p.output_path + "/"@ + a.title + "/"@ + a.title + " EP"@;
    let sa = padded2_string(na as nat) + ".mkv"@;
    let sb = padded2_string(nb as nat) + ".mkv"@;
    crate::text::lemma_padded2_value(na as nat);
    crate::text::lemma_padded2_value(nb as nat);
    assert(spec_package_action(p, a).dest =~= pre + sa);
    assert(spec_package_action(p, b).dest =~= pre + sb);
    if spec_package_action(p, a).dest == spec_package_action(p, b).dest {
        assert(sa.len() == sb.len());
        assert(padded2_string(na as nat).len() == padded2_string(nb as nat).len());
        assert(padded2_string(na as nat) =~= padded2_string(nb as nat)) by {
            assert(forall|j: int| 0 <= j < padded2_string(na as nat).len()
                ==> (pre + sa)[pre.len() + j] == padded2_string(na as nat)[j]
                    && (pre + sb)[pre.len() + j] == padded2_string(nb as nat)[j]);
        }
        assert(na == nb);
        assert(false);
    }
}

impl Packager {
    /// A packager that will place episodes under this output root. The
    /// caller creates the root if it is absent, with create-if-absent
    /// semantics, before performing any action.
    pub fn new(output_path: String) -> (r: Packager)
        ensures
            r@.output_path == output_path@,
            r@.config == (PackagerConfig { copy: false }),
    {
        Packager { output_path, config: PackagerConfig { copy: false } }
    }

    /// Replaces the packaging policy.
    pub fn set_config(self, config: PackagerConfig) -> (r: Packager)
        ensures
            r@ == (PackagerV { config, ..self@ }),
    {
        Packager { config, ..self }
    }

    /// The placement of one episode's finished container. The same
    /// packager and episode always yield the same single destination,
    /// so packaging twice is idempotent: one file at one path.
    pub fn save_episode(&self, episode: &EpisodeMetadata) -> (r: PackageAction)
        requires
            episode.path is Some,
        ensures
            r@ == spec_package_action(self@, episode@),
    {
        let source = episode.media_path("episode.mkv");
        proof {
            reveal_strlit("/");
        }
        let mut dest_dir = self.output_path.clone();
        dest_dir.append("/");
        dest_dir.append(episode.title.as_str());
        let name = episode_file_name(episode.title.as_str(), &episode.episode);
        let mut dest = dest_dir.clone();
        dest.append("/");
        dest.append(name.as_str());
        PackageAction { source, dest_dir, dest, copy: self.config.copy }
    }

    /// The placements of a whole season's episodes, in the season's
    /// episode order.
    pub fn save_season(&self, season_metadata: &SeasonMetadata) -> (r: Vec<PackageAction>)
        requires
            forall|i: int| 0 <= i < season_metadata.episodes@.len()
                ==> (#[trigger] season_metadata.episodes@[i]).path is Some,
        ensures
            r@.len() == season_metadata@.episodes.len(),
            forall|i: int| 0 <= i < r@.len()
                ==> (#[trigger] r@[i])@ == spec_package_action(self@, season_metadata@.episodes[i]),
    {
        let mut out: Vec<PackageAction> = Vec::new();
        let mut i: usize = 0;
        while i < season_metadata.episodes.len()
            invariant
                i <= season_metadata.episodes@.len(),
                season_metadata@.episodes.len() == season_metadata.episodes@.len(),
                forall|k: int| 0 <= k < season_metadata.episodes@.len()
                    ==> (#[trigger] season_metadata.episodes@[k]).path is Some,
                out@.len() == i,
                forall|k: int| 0 <= k < i
                    ==> (#[trigger] out@[k])@ == spec_package_action(self@, season_metadata@.episodes[k]),
            decreases season_metadata.episodes@.len() - i,
        {
            let action = self.save_episode(&season_metadata.episodes[i]);
            proof {
                assert(season_metadata@.episodes[i as int] == season_metadata.episodes@[i as int]@);
            }
            out.push(action);
            i = i + 1;
        }
        out
    }
}

} // verus!
