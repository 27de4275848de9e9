use vstd::prelude::*;

use crate::metadata::{EpisodeMetadata, EpisodeMetadataV, SeasonMetadata, SeasonMetadataV, spec_full_display};
use crate::text::dec_string;

verus! {

/// Decorates console text with the pipeline's colours.
pub trait Colorer {
    /// The characters being decorated.
    spec fn text(&self) -> Seq<char>;

    /// The text in bold green.
    fn color_as_success(&self) -> (r: String)
        ensures
            r@ == "\x1b[1;32m"@ + self.text() + "\x1b[0m"@,
    ;

    /// The text in bold yellow.
    fn color_as_warning(&self) -> (r: String)
        ensures
            r@ == "\x1b[1;33m"@ + self.text() + "\x1b[0m"@,
    ;

    /// The text in bold red.
    fn color_as_error(&self) -> (r: String)
        ensures
            r@ == "\x1b[1;31m"@ + self.text() + "\x1b[0m"@,
    ;
}

impl Colorer for String {
    open spec fn text(&self) -> Seq<char> {
        self@
    }

    fn color_as_success(&self) -> (r: String) {
        let mut out = ("\x1b[1;32m").to_owned();
        out.append(self.as_str());
        out.append("\x1b[0m");
        out
    }

    fn color_as_warning(&self) -> (r: String) {
        let mut out = ("\x1b[1;33m").to_owned();
        out.append(self.as_str());
        out.append("\x1b[0m");
        out
    }

    fn color_as_error(&self) -> (r: String) {
        let mut out = ("\x1b[1;31m").to_owned();
        out.append(self.as_str());
        out.append("\x1b[0m");
        out
    }
}

/// Renders the seasons and episodes a scan found, for the console.
pub struct Lister;

/// One episode's listing line: indented title and identity.
pub open spec fn spec_episode_line(e: EpisodeMetadataV) -> Seq<char> {
    "        "@ + e.title + " "@ + spec_full_display(e.episode) + seq!['\n']
}

/// One season's listing block: its position in the listing (numbered
/// from one), its title, and its episodes, or a note that it has none.
pub open spec fn spec_season_block(s: SeasonMetadataV, n: nat) -> Seq<char> {
    dec_string(n) + ".) Title: "@ + s.title + seq!['\n']
        + if s.episodes.len() == 0 {
            "    No Episodes!!\n"@
        } else {
            "    Episodes:\n"@ + spec_episode_lines(s.episodes, 0)
        }
}

/// The listing lines of episodes from index `i` on.
pub open spec fn spec_episode_lines(eps: Seq<EpisodeMetadataV>, i: int) -> Seq<char>
    decreases eps.len() - i,
{
    if i < 0 || i >= eps.len() {
        Seq::empty()
    } else {
        spec_episode_line(eps[i]) + spec_episode_lines(eps, i + 1)
    }
}

/// The listing blocks of seasons from index `i` on, numbered from
/// `i + 1`.
pub open spec fn spec_season_blocks(seasons: Seq<SeasonMetadataV>, i: int) -> Seq<char>
    decreases seasons.len() - i,
{
    if i < 0 || i >= seasons.len() {
        Seq::empty()
    } else {
        spec_season_block(seasons[i], (i + 1) as nat) + spec_season_blocks(seasons, i + 1)
    }
}

impl Lister {
    pub fn new() -> (r: Lister) {
        Lister
    }

    /// Renders the listing lines of a batch of episodes.
    pub fn list_normal_episodes(&self, episodes: &Vec<EpisodeMetadata>) -> (r: String)
        ensures
            r@ == spec_episode_lines(crate::metadata::eps_view(episodes@), 0),
    {
        self.list_episodes(episodes)
    }

    /// Renders the listing lines of a batch of special episodes.
    pub fn list_special_episodes(&self, episodes: &Vec<EpisodeMetadata>) -> (r: String)
        ensures
            r@ == spec_episode_lines(crate::metadata::eps_view(episodes@), 0),
    {
        self.list_episodes(episodes)
    }

    /// Renders the listing lines of episodes, one per episode, in
    /// order.
    pub fn list_episodes(&self, episodes: &Vec<EpisodeMetadata>) -> (r: String)
        ensures
            r@ == spec_episode_lines(crate::metadata::eps_view(episodes@), 0),
    {
        let ghost eps = crate::metadata::eps_view(episodes@);
        let mut out = String::new();
        let mut i: usize = 0;
        proof {
            assert(out@ + spec_episode_lines(eps, 0) =~= spec_episode_lines(eps, 0));
            reveal_strlit("        ");
            reveal_strlit(" ");
            reveal_strlit("\n");
            assert("\n"@ =~= seq!['\n']);
        }
        while i < episodes.len()
            invariant
                i <= eps.len(),
                eps.len() == episodes@.len(),
                eps == crate::metadata::eps_view(episodes@),
                out@ + spec_episode_lines(eps, i as int) == spec_episode_lines(eps, 0),
            decreases eps.len() - i,
        {
            let e = &episodes[i];
            proof {
                assert(eps[i as int] == e@);
                reveal_strlit("        ");
                reveal_strlit(" ");
                reveal_strlit("\n");
                assert("\n"@ =~= seq!['\n']);
            }
            out.append("        ");
            out.append(e.title.as_str());
            out.append(" ");
            let display = e.episode.get_full_display();
            out.append(display.as_str());
            out.append("\n");
            i = i + 1;
        }
        proof {
            assert(spec_episode_lines(eps, eps.len() as int) =~= Seq::<char>::empty());
            assert(out@ + Seq::<char>::empty() =~= out@);
        }
        out
    }

    /// Renders the whole listing: each season numbered from one, its
    /// title, and its episodes in season order.
    #[verifier::rlimit(60)]
    pub fn list_seasons(&self, seasons: &Vec<SeasonMetadata>) -> (r: String)
        ensures
            r@ == spec_season_blocks(crate::metadata::sns_view(seasons@), 0),
    {
        let ghost sv = crate::metadata::sns_view(seasons@);
        let mut out = String::new();
        let mut i: usize = 0;
        proof {
            assert(out@ + spec_season_blocks(sv, 0) =~= spec_season_blocks(sv, 0));
        }
        while i < seasons.len()
            invariant
                i <= sv.len(),
                sv.len() == seasons@.len(),
                sv == crate::metadata::sns_view(seasons@),
                out@ + spec_season_blocks(sv, i as int) == spec_season_blocks(sv, 0),
            decreases sv.len() - i,
        {
            let s = &seasons[i];
            proof {
                assert(sv[i as int] == s@);
                reveal_strlit(".) Title: ");
                reveal_strlit("\n");
                reveal_strlit("    No Episodes!!\n");
                reveal_strlit("    Episodes:\n");
                assert("\n"@ =~= seq!['\n']);
            }
            let num = crate::text::u64_to_string((i as u64) + 1);
            out.append(num.as_str());
            out.append(".) Title: ");
            out.append(s.title.as_str());
            out.append("\n");
            if s.episodes.len() == 0 {
                proof {
                    assert(s@.episodes.len() == 0);
                }
                out.append("    No Episodes!!\n");
            } else {
                proof {
                    assert(s@.episodes.len() > 0);
                }
                out.append("    Episodes:\n");
                let lines = self.list_episodes(&s.episodes);
                out.append(lines.as_str());
                proof {
                    assert(crate::metadata::eps_view(s.episodes@) =~= s@.episodes);
                }
            }
            i = i + 1;
        }
        proof {
            assert(spec_season_blocks(sv, sv.len() as int) =~= Seq::<char>::empty());
            assert(out@ + Seq::<char>::empty() =~= out@);
        }
        out
    }
}

} // verus!
