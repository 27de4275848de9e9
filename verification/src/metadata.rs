use vstd::prelude::*;

use crate::error::{Error, MetadataError};
use crate::text::{digits_value, index_digits, lex_lt, valid_index};

verus! {

/// Per-episode information as it appears inside a descriptor file.
#[derive(Debug, Clone, PartialEq, Eq)]
pub struct JsonEntryEpisodeMetadata {
    pub index_title: String,
    pub index: String,
}

/// The content of one episode descriptor file.
#[derive(Debug, Clone, PartialEq, Eq)]
pub struct JsonEntry {
    pub title: String,
    pub ep: JsonEntryEpisodeMetadata,
    pub type_tag: String,
}

/// The identity of an episode: a positive ordinal for numbered episodes,
/// an opaque label for named specials.
#[derive(Debug, Clone, PartialEq, Eq)]
pub enum EpisodeId {
    Normal(u64),
    Special(String),
}

/// One episode of a season, as resolved from its on-disk bundle.
#[derive(Debug, Clone, PartialEq, Eq)]
pub struct EpisodeMetadata {
    pub title: String,
    pub episode: EpisodeId,
    pub path: Option<String>,
    pub type_tag: String,
}

/// One season: a title and its ordered episodes.
#[derive(Debug, Clone, PartialEq, Eq)]
pub struct SeasonMetadata {
    pub title: String,
    pub path: Option<String>,
    pub episodes: Vec<EpisodeMetadata>,
}

/// The root of a download directory: every season that resolved.
#[derive(Debug, Clone, PartialEq, Eq)]
pub struct DownloadFolder {
    pub seasons: Vec<SeasonMetadata>,
}

/// What scanning one episode bundle for its descriptor found.
/// The caller performs the directory and file reads and reports them here;
/// classification of the outcome is the resolver's.
#[derive(Debug, Clone, PartialEq, Eq)]
pub enum DescriptorScan {
    /// No descriptor file could be read.
    Missing,
    /// A descriptor file was read but could not be understood.
    Invalid,
    /// The descriptor parsed into an entry.
    Found(JsonEntry),
}

/// The scan of one episode subdirectory.
#[derive(Debug, Clone, PartialEq, Eq)]
pub struct EpisodeScan {
    pub path: String,
    pub descriptor: DescriptorScan,
}

/// The scan of one season directory: its episode subdirectories in the
/// order the directory listing produced them.
#[derive(Debug, Clone, PartialEq, Eq)]
pub struct SeasonScan {
    pub path: String,
    pub episodes: Vec<EpisodeScan>,
}

// ---------------------------------------------------------------------------
// Mathematical views
// ---------------------------------------------------------------------------

pub enum EpisodeIdV {
    Normal(u64),
    Special(Seq<char>),
}

pub struct EpisodeMetadataV {
    pub title: Seq<char>,
    pub episode: EpisodeIdV,
    pub path: Option<Seq<char>>,
    pub type_tag: Seq<char>,
}

pub struct SeasonMetadataV {
    pub title: Seq<char>,
    pub path: Option<Seq<char>>,
    pub episodes: Seq<EpisodeMetadataV>,
}

pub struct JsonEntryV {
    pub title: Seq<char>,
    pub index_title: Seq<char>,
    pub index: Seq<char>,
    pub type_tag: Seq<char>,
}

pub enum DescriptorScanV {
    Missing,
    Invalid,
    Found(JsonEntryV),
}

pub struct EpisodeScanV {
    pub path: Seq<char>,
    pub descriptor: DescriptorScanV,
}

pub struct SeasonScanV {
    pub path: Seq<char>,
    pub episodes: Seq<EpisodeScanV>,
}

impl View for EpisodeId {
    type V = EpisodeIdV;

    open spec fn view(&self) -> EpisodeIdV {
        match self {
            EpisodeId::Normal(n) => EpisodeIdV::Normal(*n),
            EpisodeId::Special(s) => EpisodeIdV::Special(s@),
        }
    }
}

impl View for EpisodeMetadata {
    type V = EpisodeMetadataV;

    open spec fn view(&self) -> EpisodeMetadataV {
        EpisodeMetadataV {
            title: self.title@,
            episode: self.episode@,
            path: match self.path {
                Some(ref p) => Some(p@),
                None => None,
            },
            type_tag: self.type_tag@,
        }
    }
}

impl View for SeasonMetadata {
    type V = SeasonMetadataV;

    open spec fn view(&self) -> SeasonMetadataV {
        SeasonMetadataV {
            title: self.title@,
            path: match self.path {
                Some(ref p) => Some(p@),
                None => None,
            },
            episodes: self.episodes@.map_values(|e: EpisodeMetadata| e@),
        }
    }
}

impl View for JsonEntry {
    type V = JsonEntryV;

    open spec fn view(&self) -> JsonEntryV {
        JsonEntryV {
            title: self.title@,
            index_title: self.ep.index_title@,
            index: self.ep.index@,
            type_tag: self.type_tag@,
        }
    }
}

impl View for EpisodeScan {
    type V = EpisodeScanV;

    open spec fn view(&self) -> EpisodeScanV {
        EpisodeScanV {
            path: self.path@,
            descriptor: match self.descriptor {
                DescriptorScan::Missing => DescriptorScanV::Missing,
                DescriptorScan::Invalid => DescriptorScanV::Invalid,
                DescriptorScan::Found(ref e) => DescriptorScanV::Found(e@),
            },
        }
    }
}

impl View for SeasonScan {
    type V = SeasonScanV;

    open spec fn view(&self) -> SeasonScanV {
        SeasonScanV {
            path: self.path@,
            episodes: self.episodes@.map_values(|e: EpisodeScan| e@),
        }
    }
}

// ---------------------------------------------------------------------------
// Ordering of episode identities
// ---------------------------------------------------------------------------

/// Strict order on episode identities: numbered episodes come first, by
/// ordinal ascending; named specials follow, by label in lexicographic
/// order of code points. The choice to put every numbered episode before
/// every special is stable across the whole pipeline.
pub open spec fn id_lt(a: EpisodeIdV, b: EpisodeIdV) -> bool {
    match (a, b) {
        (EpisodeIdV::Normal(x), EpisodeIdV::Normal(y)) => x < y,
        (EpisodeIdV::Normal(_), EpisodeIdV::Special(_)) => true,
        (EpisodeIdV::Special(_), EpisodeIdV::Normal(_)) => false,
        (EpisodeIdV::Special(x), EpisodeIdV::Special(y)) => lex_lt(x, y),
    }
}

/// Reflexive order on episode identities.
pub open spec fn id_le(a: EpisodeIdV, b: EpisodeIdV) -> bool {
    id_lt(a, b) || a == b
}

/// Compares two episode identities in the pipeline's order.
pub fn id_lt_exec(a: &EpisodeId, b: &EpisodeId) -> (r: bool)
    ensures
        r == id_lt(a@, b@),
{
    match (a, b) {
        (EpisodeId::Normal(x), EpisodeId::Normal(y)) => *x < *y,
        (EpisodeId::Normal(_), EpisodeId::Special(_)) => true,
        (EpisodeId::Special(_), EpisodeId::Normal(_)) => false,
        (EpisodeId::Special(x), EpisodeId::Special(y)) => {
            crate::text::str_lex_lt(x.as_str(), y.as_str())
        },
    }
}

impl EpisodeId {
    /// The identity as shown to a user: numbered episodes render as
    /// "Episode NN" with the ordinal zero-padded to two digits, specials
    /// render their label verbatim.
    pub fn get_full_display(&self) -> (r: String)
        ensures
            r@ == spec_full_display(self@),
    {
        match self {
            EpisodeId::Normal(v) => {
                proof {
                    reveal_strlit("Episode ");
                }
                let mut s = ("Episode ").to_owned();
                let num = crate::text::u64_to_padded2_string(*v);
                s.append(num.as_str());
                s
            },
            EpisodeId::Special(v) => v.clone(),
        }
    }
}

/// The display form of an episode identity.
pub open spec fn spec_full_display(id: EpisodeIdV) -> Seq<char> {
    match id {
        EpisodeIdV::Normal(v) => "Episode "@ + crate::text::padded2_string(v as nat),
        EpisodeIdV::Special(s) => s,
    }
}

// ---------------------------------------------------------------------------
// Classification of one descriptor entry
// ---------------------------------------------------------------------------

/// The identity an index token denotes: a numbered episode when the
/// token reads as an unsigned integer — one optional leading plus sign,
/// then decimal digits whose value fits the ordinal type — and a named
/// special otherwise.
pub open spec fn spec_classify_index(index: Seq<char>) -> EpisodeIdV {
    if valid_index(index) {
        EpisodeIdV::Normal(digits_value(index_digits(index)) as u64)
    } else {
        EpisodeIdV::Special(index)
    }
}

/// The episode a descriptor entry denotes, before a path is attached.
pub open spec fn spec_episode_of_entry(entry: JsonEntryV, path: Option<Seq<char>>) -> EpisodeMetadataV {
    EpisodeMetadataV {
        title: entry.title,
        episode: spec_classify_index(entry.index),
        path: path,
        type_tag: entry.type_tag,
    }
}

impl EpisodeMetadata {
    /// Classifies a descriptor entry into an episode: an index token
    /// that reads as an unsigned integer (one optional leading plus
    /// sign, then digits whose value fits) yields a numbered episode
    /// with that ordinal, any other token yields a named special
    /// labeled with the token itself.
    pub fn from_entry(entry: &JsonEntry) -> (r: EpisodeMetadata)
        ensures
            r@ == spec_episode_of_entry(entry@, None),
    {
        let episode = match crate::text::parse_index_token(entry.ep.index.as_str()) {
            Some(v) => EpisodeId::Normal(v),
            None => EpisodeId::Special(entry.ep.index.clone()),
        };
        EpisodeMetadata {
            title: entry.title.clone(),
            episode,
            path: None,
            type_tag: entry.type_tag.clone(),
        }
    }

    /// A copy of the episode.
    pub fn clone_episode(&self) -> (r: EpisodeMetadata)
        ensures
            r@ == self@,
    {
        let episode = match &self.episode {
            EpisodeId::Normal(n) => EpisodeId::Normal(*n),
            EpisodeId::Special(s) => EpisodeId::Special(s.clone()),
        };
        let path = match &self.path {
            Some(p) => Some(p.clone()),
            None => None,
        };
        EpisodeMetadata {
            title: self.title.clone(),
            episode,
            path,
            type_tag: self.type_tag.clone(),
        }
    }

    /// Replaces the episode's source path.
    pub fn set_path(self, path: String) -> (r: EpisodeMetadata)
        ensures
            r@ == (EpisodeMetadataV { path: Some(path@), ..self@ }),
    {
        EpisodeMetadata { path: Some(path), ..self }
    }

    /// Resolves one scanned episode bundle: reports the descriptor's
    /// absence or malformation as the corresponding metadata error, and
    /// otherwise classifies the entry and attaches the bundle's path.
    pub fn new_from_path(scan: &EpisodeScan) -> (r: Result<EpisodeMetadata, Error>)
        ensures
            match spec_resolve_episode(scan@) {
                Ok(ep) => r is Ok && r->Ok_0@ == ep,
                Err(e) => r is Err && r->Err_0 == e,
            },
    {
        match &scan.descriptor {
            DescriptorScan::Missing => Err(Error::Metadata(MetadataError::MissingDescriptor)),
            DescriptorScan::Invalid => Err(Error::Metadata(MetadataError::InvalidDescriptor)),
            DescriptorScan::Found(entry) => {
                Ok(EpisodeMetadata::from_entry(entry).set_path(scan.path.clone()))
            },
        }
    }
}

/// The outcome of resolving one scanned episode bundle.
pub open spec fn spec_resolve_episode(scan: EpisodeScanV) -> Result<EpisodeMetadataV, Error> {
    match scan.descriptor {
        DescriptorScanV::Missing => Err(Error::Metadata(MetadataError::MissingDescriptor)),
        DescriptorScanV::Invalid => Err(Error::Metadata(MetadataError::InvalidDescriptor)),
        DescriptorScanV::Found(entry) => Ok(spec_episode_of_entry(entry, Some(scan.path))),
    }
}

// ---------------------------------------------------------------------------
// Ordering properties and sorting
// ---------------------------------------------------------------------------

/// Episode identities are totally ordered by `id_lt`.
pub proof fn lemma_id_total(a: EpisodeIdV, b: EpisodeIdV)
    ensures
        id_lt(a, b) || id_lt(b, a) || a == b,
{
    match (a, b) {
        (EpisodeIdV::Special(x), EpisodeIdV::Special(y)) => {
            crate::text::lemma_lex_total(x, y);
        },
        _ => {},
    }
}

/// `id_lt` is asymmetric.
pub proof fn lemma_id_asym(a: EpisodeIdV, b: EpisodeIdV)
    requires
        id_lt(a, b),
    ensures
        !id_lt(b, a),
{
    match (a, b) {
        (EpisodeIdV::Special(x), EpisodeIdV::Special(y)) => {
            crate::text::lemma_lex_asym(x, y);
        },
        _ => {},
    }
}

/// `id_le` is transitive.
pub proof fn lemma_id_le_trans(a: EpisodeIdV, b: EpisodeIdV, c: EpisodeIdV)
    requires
        id_le(a, b),
        id_le(b, c),
    ensures
        id_le(a, c),
{
    if a == b || b == c {
    } else {
        match (a, b, c) {
            (EpisodeIdV::Special(x), EpisodeIdV::Special(y), EpisodeIdV::Special(z)) => {
                crate::text::lemma_lex_trans(x, y, z);
            },
            _ => {},
        }
    }
}

/// Whether a sequence of episodes is sorted by identity.
pub open spec fn episodes_sorted(s: Seq<EpisodeMetadataV>) -> bool {
    forall|i: int, j: int| 0 <= i < j < s.len() ==> id_le(#[trigger] s[i].episode, #[trigger] s[j].episode)
}

/// Inserts an episode into a sequence sorted by identity, before the
/// first episode whose identity is greater than or equal; an episode
/// inserted this way stays ahead of later episodes with an equal identity.
pub open spec fn spec_insert_episode(e: EpisodeMetadataV, s: Seq<EpisodeMetadataV>) -> Seq<EpisodeMetadataV>
    decreases s.len(),
{
    if s.len() == 0 {
        seq![e]
    } else if id_le(e.episode, s[0].episode) {
        seq![e] + s
    } else {
        seq![s[0]] + spec_insert_episode(e, s.skip(1))
    }
}

/// Sorts episodes by identity; the sort is stable.
pub open spec fn spec_sort_episodes(s: Seq<EpisodeMetadataV>) -> Seq<EpisodeMetadataV>
    decreases s.len(),
{
    if s.len() == 0 {
        Seq::empty()
    } else {
        spec_insert_episode(s[0], spec_sort_episodes(s.skip(1)))
    }
}

pub proof fn lemma_insert_episode_len(e: EpisodeMetadataV, s: Seq<EpisodeMetadataV>)
    ensures
        spec_insert_episode(e, s).len() == s.len() + 1,
    decreases s.len(),
{
    if s.len() > 0 && !id_le(e.episode, s[0].episode) {
        lemma_insert_episode_len(e, s.skip(1));
    }
}

/// Everything in the inserted sequence is either the new episode or one
/// of the old ones.
pub proof fn lemma_insert_episode_contents(e: EpisodeMetadataV, s: Seq<EpisodeMetadataV>)
    ensures
        forall|k: int| 0 <= k < spec_insert_episode(e, s).len()
            ==> #[trigger] spec_insert_episode(e, s)[k] == e
                || exists|m: int| 0 <= m < s.len() && spec_insert_episode(e, s)[k] == s[m],
    decreases s.len(),
{
    let r = spec_insert_episode(e, s);
    if s.len() == 0 {
    } else if id_le(e.episode, s[0].episode) {
        assert forall|k: int| 0 <= k < r.len() implies r[k] == e
            || exists|m: int| 0 <= m < s.len() && r[k] == s[m] by {
            if k > 0 {
                assert(r[k] == s[k - 1]);
            }
        }
    } else {
        lemma_insert_episode_contents(e, s.skip(1));
        let rr = spec_insert_episode(e, s.skip(1));
        assert forall|k: int| 0 <= k < r.len() implies r[k] == e
            || exists|m: int| 0 <= m < s.len() && r[k] == s[m] by {
            if k == 0 {
                assert(r[0] == s[0]);
            } else {
                assert(r[k] == rr[k - 1]);
                if rr[k - 1] == e {
                } else {
                    let m = choose|m: int| 0 <= m < s.skip(1).len() && rr[k - 1] == s.skip(1)[m];
                    assert(s.skip(1)[m] == s[m + 1]);
                }
            }
        }
    }
}

/// Inserting into a sorted sequence keeps it sorted.
pub proof fn lemma_insert_episode_sorted(e: EpisodeMetadataV, s: Seq<EpisodeMetadataV>)
    requires
        episodes_sorted(s),
    ensures
        episodes_sorted(spec_insert_episode(e, s)),
    decreases s.len(),
{
    let r = spec_insert_episode(e, s);
    if s.len() == 0 {
    } else if id_le(e.episode, s[0].episode) {
        assert forall|i: int, j: int| 0 <= i < j < r.len() implies id_le(r[i].episode, r[j].episode) by {
            if i == 0 {
                assert(r[j] == s[j - 1]);
                if j - 1 == 0 {
                } else {
                    assert(id_le(s[0].episode, s[j - 1].episode));
                    lemma_id_le_trans(e.episode, s[0].episode, s[j - 1].episode);
                }
            } else {
                assert(r[i] == s[i - 1]);
                assert(r[j] == s[j - 1]);
            }
        }
    } else {
        assert(episodes_sorted(s.skip(1))) by {
            assert(forall|i: int, j: int| 0 <= i < j < s.skip(1).len()
                ==> s.skip(1)[i] == s[i + 1] && s.skip(1)[j] == s[j + 1]);
        }
        lemma_insert_episode_sorted(e, s.skip(1));
        lemma_insert_episode_contents(e, s.skip(1));
        let rr = spec_insert_episode(e, s.skip(1));
        lemma_id_total(e.episode, s[0].episode);
        assert(id_le(s[0].episode, e.episode));
        assert forall|i: int, j: int| 0 <= i < j < r.len() implies id_le(r[i].episode, r[j].episode) by {
            if i == 0 {
                assert(r[j] == rr[j - 1]);
                if rr[j - 1] == e {
                } else {
                    let m = choose|m: int| 0 <= m < s.skip(1).len() && rr[j - 1] == s.skip(1)[m];
                    assert(s.skip(1)[m] == s[m + 1]);
                    assert(id_le(s[0].episode, s[m + 1].episode));
                }
            } else {
                assert(r[i] == rr[i - 1]);
                assert(r[j] == rr[j - 1]);
            }
        }
    }
}

/// Sorting yields a sorted sequence of the same length.
pub proof fn lemma_sort_episodes_ensures(s: Seq<EpisodeMetadataV>)
    ensures
        spec_sort_episodes(s).len() == s.len(),
        episodes_sorted(spec_sort_episodes(s)),
    decreases s.len(),
{
    if s.len() > 0 {
        lemma_sort_episodes_ensures(s.skip(1));
        lemma_insert_episode_len(s[0], spec_sort_episodes(s.skip(1)));
        lemma_insert_episode_sorted(s[0], spec_sort_episodes(s.skip(1)));
    }
}

/// A `spec_insert_episode` call with the insertion point made explicit:
/// inserting before index `j`, the first position holding an episode
/// the new one must precede.
pub proof fn lemma_insert_episode_at(e: EpisodeMetadataV, s: Seq<EpisodeMetadataV>, j: int)
    requires
        0 <= j <= s.len(),
        forall|k: int| 0 <= k < j ==> !id_le(e.episode, #[trigger] s[k].episode),
        j < s.len() ==> id_le(e.episode, s[j].episode),
    ensures
        spec_insert_episode(e, s) == s.take(j) + seq![e] + s.skip(j),
    decreases j,
{
    if j == 0 {
        if s.len() == 0 {
            assert(spec_insert_episode(e, s) =~= s.take(0) + seq![e] + s.skip(0));
        } else {
            assert(spec_insert_episode(e, s) =~= s.take(0) + seq![e] + s.skip(0));
        }
    } else {
        assert(!id_le(e.episode, s[0].episode));
        assert(forall|k: int| 0 <= k < j - 1 ==> s.skip(1)[k] == s[k + 1]);
        lemma_insert_episode_at(e, s.skip(1), j - 1);
        assert(s.skip(1).take(j - 1) =~= s.take(j).skip(1));
        assert(s.skip(1).skip(j - 1) =~= s.skip(j));
        assert(seq![s[0]] + spec_insert_episode(e, s.skip(1))
            =~= s.take(j) + seq![e] + s.skip(j));
    }
}

/// The view of a vector of episodes.
pub open spec fn eps_view(v: Seq<EpisodeMetadata>) -> Seq<EpisodeMetadataV> {
    v.map_values(|e: EpisodeMetadata| e@)
}

/// Finds the position before the first episode whose identity is greater
/// than or equal to the new one's.
fn find_insert_pos(e: &EpisodeMetadata, v: &Vec<EpisodeMetadata>) -> (j: usize)
    ensures
        j <= v@.len(),
        forall|k: int| 0 <= k < j ==> !id_le(e@.episode, #[trigger] eps_view(v@)[k].episode),
        j < v@.len() ==> id_le(e@.episode, eps_view(v@)[j as int].episode),
{
    let ghost s = eps_view(v@);
    let mut j: usize = 0;
    loop
        invariant
            j <= v@.len(),
            s == eps_view(v@),
            forall|k: int| 0 <= k < j ==> !id_le(e@.episode, #[trigger] s[k].episode),
        decreases v@.len() - j,
    {
        if j == v.len() {
            return j;
        }
        proof {
            assert(s[j as int] == v@[j as int]@);
        }
        if !id_lt_exec(&v[j].episode, &e.episode) {
            proof {
                lemma_id_total(e@.episode, s[j as int].episode);
            }
            return j;
        }
        proof {
            lemma_id_asym(s[j as int].episode, e@.episode);
        }
        j = j + 1;
    }
}

/// Inserts an episode into a vector sorted by identity, at the position
/// `spec_insert_episode` describes.
fn insert_episode(e: EpisodeMetadata, v: &mut Vec<EpisodeMetadata>)
    ensures
        eps_view(final(v)@) == spec_insert_episode(e@, eps_view(old(v)@)),
{
    let ghost s = eps_view(v@);
    let j = find_insert_pos(&e, v);
    proof {
        lemma_insert_episode_at(e@, s, j as int);
    }
    let ghost prev = v@;
    v.insert(j, e);
    proof {
        prev.insert_ensures(j as int, e);
        let t = s.take(j as int) + seq![e@] + s.skip(j as int);
        assert forall|m: int| 0 <= m < v@.len() implies #[trigger] eps_view(v@)[m] == t[m] by {
            assert(eps_view(v@)[m] == v@[m]@);
            if m < j {
                assert(v@[m] == prev[m]);
                assert(t[m] == s.take(j as int)[m]);
            } else if m == j {
                assert(v@[m] == e);
            } else {
                assert(v@[m] == prev[m - 1]);
                assert(t[m] == s.skip(j as int)[m - j - 1]);
            }
        }
        assert(eps_view(v@) =~= t);
    }
}

/// Sorts episodes by identity, stably: the back of the vector is folded
/// into a sorted accumulator one element at a time.
fn sort_episodes(v: Vec<EpisodeMetadata>) -> (r: Vec<EpisodeMetadata>)
    ensures
        eps_view(r@) == spec_sort_episodes(eps_view(v@)),
{
    let ghost s = eps_view(v@);
    let mut rest = v;
    let mut r: Vec<EpisodeMetadata> = Vec::new();
    proof {
        assert(eps_view(rest@) =~= s.take(rest@.len() as int));
        assert(s.skip(s.len() as int).len() == 0);
        assert(eps_view(r@) =~= spec_sort_episodes(s.skip(rest@.len() as int)));
    }
    loop
        invariant
            rest@.len() <= s.len(),
            eps_view(rest@) == s.take(rest@.len() as int),
            eps_view(r@) == spec_sort_episodes(s.skip(rest@.len() as int)),
        ensures
            rest@.len() == 0,
            eps_view(r@) == spec_sort_episodes(s.skip(0)),
        decreases rest@.len(),
    {
        if rest.len() == 0 {
            break;
        }
        let ghost k = rest@.len() as int;
        let ghost prev = rest@;
        let e = rest.pop().unwrap();
        proof {
            assert(e == prev[k - 1]);
            assert(eps_view(prev)[k - 1] == prev[k - 1]@);
            assert(s.take(k)[k - 1] == s[k - 1]);
            assert(e@ == s[k - 1]);
            assert(eps_view(rest@) =~= s.take(k - 1)) by {
                assert(forall|m: int| 0 <= m < k - 1 ==> rest@[m] == prev[m]);
                assert(forall|m: int| 0 <= m < k - 1
                    ==> #[trigger] eps_view(rest@)[m] == rest@[m]@ && eps_view(prev)[m] == prev[m]@);
            }
        }
        insert_episode(e, &mut r);
        proof {
            assert(s.skip(k - 1)[0] == s[k - 1]);
            assert(s.skip(k - 1).skip(1) =~= s.skip(k));
            assert(spec_sort_episodes(s.skip(k - 1))
                == spec_insert_episode(s[k - 1], spec_sort_episodes(s.skip(k))));
        }
    }
    proof {
        assert(s.skip(0) =~= s);
        assert(eps_view(r@) == spec_sort_episodes(s));
    }
    r
}

// ---------------------------------------------------------------------------
// Sorting seasons by title
// ---------------------------------------------------------------------------

/// Whether a sequence of seasons is sorted by title.
pub open spec fn seasons_sorted(s: Seq<SeasonMetadataV>) -> bool {
    forall|i: int, j: int| 0 <= i < j < s.len()
        ==> crate::text::lex_le(#[trigger] s[i].title, #[trigger] s[j].title)
}

/// Inserts a season into a sequence sorted by title, before the first
/// season whose title is greater than or equal.
pub open spec fn spec_insert_season(e: SeasonMetadataV, s: Seq<SeasonMetadataV>) -> Seq<SeasonMetadataV>
    decreases s.len(),
{
    if s.len() == 0 {
        seq![e]
    } else if crate::text::lex_le(e.title, s[0].title) {
        seq![e] + s
    } else {
        seq![s[0]] + spec_insert_season(e, s.skip(1))
    }
}

/// Sorts seasons by title; the sort is stable.
pub open spec fn spec_sort_seasons(s: Seq<SeasonMetadataV>) -> Seq<SeasonMetadataV>
    decreases s.len(),
{
    if s.len() == 0 {
        Seq::empty()
    } else {
        spec_insert_season(s[0], spec_sort_seasons(s.skip(1)))
    }
}

pub proof fn lemma_insert_season_len(e: SeasonMetadataV, s: Seq<SeasonMetadataV>)
    ensures
        spec_insert_season(e, s).len() == s.len() + 1,
    decreases s.len(),
{
    if s.len() > 0 && !crate::text::lex_le(e.title, s[0].title) {
        lemma_insert_season_len(e, s.skip(1));
    }
}

/// Everything in the inserted sequence is either the new season or one
/// of the old ones.
pub proof fn lemma_insert_season_contents(e: SeasonMetadataV, s: Seq<SeasonMetadataV>)
    ensures
        forall|k: int| 0 <= k < spec_insert_season(e, s).len()
            ==> #[trigger] spec_insert_season(e, s)[k] == e
                || exists|m: int| 0 <= m < s.len() && spec_insert_season(e, s)[k] == s[m],
    decreases s.len(),
{
    let r = spec_insert_season(e, s);
    if s.len() == 0 {
    } else if crate::text::lex_le(e.title, s[0].title) {
        assert forall|k: int| 0 <= k < r.len() implies r[k] == e
            || exists|m: int| 0 <= m < s.len() && r[k] == s[m] by {
            if k > 0 {
                assert(r[k] == s[k - 1]);
            }
        }
    } else {
        lemma_insert_season_contents(e, s.skip(1));
        let rr = spec_insert_season(e, s.skip(1));
        assert forall|k: int| 0 <= k < r.len() implies r[k] == e
            || exists|m: int| 0 <= m < s.len() && r[k] == s[m] by {
            if k == 0 {
                assert(r[0] == s[0]);
            } else {
                assert(r[k] == rr[k - 1]);
                if rr[k - 1] == e {
                } else {
                    let m = choose|m: int| 0 <= m < s.skip(1).len() && rr[k - 1] == s.skip(1)[m];
                    assert(s.skip(1)[m] == s[m + 1]);
                }
            }
        }
    }
}

/// `lex_le` is transitive.
pub proof fn lemma_lex_le_trans(a: Seq<char>, b: Seq<char>, c: Seq<char>)
    requires
        crate::text::lex_le(a, b),
        crate::text::lex_le(b, c),
    ensures
        crate::text::lex_le(a, c),
{
    if a == b || b == c {
    } else {
        crate::text::lemma_lex_trans(a, b, c);
    }
}

/// Inserting into a title-sorted sequence keeps it sorted.
pub proof fn lemma_insert_season_sorted(e: SeasonMetadataV, s: Seq<SeasonMetadataV>)
    requires
        seasons_sorted(s),
    ensures
        seasons_sorted(spec_insert_season(e, s)),
    decreases s.len(),
{
    let r = spec_insert_season(e, s);
    if s.len() == 0 {
    } else if crate::text::lex_le(e.title, s[0].title) {
        assert forall|i: int, j: int| 0 <= i < j < r.len()
            implies crate::text::lex_le(r[i].title, r[j].title) by {
            if i == 0 {
                assert(r[j] == s[j - 1]);
                if j - 1 == 0 {
                } else {
                    assert(crate::text::lex_le(s[0].title, s[j - 1].title));
                    lemma_lex_le_trans(e.title, s[0].title, s[j - 1].title);
                }
            } else {
                assert(r[i] == s[i - 1]);
                assert(r[j] == s[j - 1]);
            }
        }
    } else {
        assert(seasons_sorted(s.skip(1))) by {
            assert(forall|i: int, j: int| 0 <= i < j < s.skip(1).len()
                ==> s.skip(1)[i] == s[i + 1] && s.skip(1)[j] == s[j + 1]);
        }
        lemma_insert_season_sorted(e, s.skip(1));
        lemma_insert_season_contents(e, s.skip(1));
        let rr = spec_insert_season(e, s.skip(1));
        crate::text::lemma_lex_total(e.title, s[0].title);
        assert(crate::text::lex_le(s[0].title, e.title));
        assert forall|i: int, j: int| 0 <= i < j < r.len()
            implies crate::text::lex_le(r[i].title, r[j].title) by {
            if i == 0 {
                assert(r[j] == rr[j - 1]);
                if rr[j - 1] == e {
                } else {
                    let m = choose|m: int| 0 <= m < s.skip(1).len() && rr[j - 1] == s.skip(1)[m];
                    assert(s.skip(1)[m] == s[m + 1]);
                    assert(crate::text::lex_le(s[0].title, s[m + 1].title));
                }
            } else {
                assert(r[i] == rr[i - 1]);
                assert(r[j] == rr[j - 1]);
            }
        }
    }
}

/// Sorting seasons yields a title-sorted sequence of the same length.
pub proof fn lemma_sort_seasons_ensures(s: Seq<SeasonMetadataV>)
    ensures
        spec_sort_seasons(s).len() == s.len(),
        seasons_sorted(spec_sort_seasons(s)),
    decreases s.len(),
{
    if s.len() > 0 {
        lemma_sort_seasons_ensures(s.skip(1));
        lemma_insert_season_len(s[0], spec_sort_seasons(s.skip(1)));
        lemma_insert_season_sorted(s[0], spec_sort_seasons(s.skip(1)));
    }
}

/// Law: a resolved download folder lists its seasons sorted by title,
/// whatever order the directory scan produced them in.
pub proof fn lemma_folder_sorted(scans: Seq<SeasonScanV>)
    ensures
        seasons_sorted(spec_resolve_folder(scans)),
{
    lemma_sort_seasons_ensures(spec_ok_seasons(scans));
}

/// A `spec_insert_season` call with the insertion point made explicit.
pub proof fn lemma_insert_season_at(e: SeasonMetadataV, s: Seq<SeasonMetadataV>, j: int)
    requires
        0 <= j <= s.len(),
        forall|k: int| 0 <= k < j ==> !crate::text::lex_le(e.title, #[trigger] s[k].title),
        j < s.len() ==> crate::text::lex_le(e.title, s[j].title),
    ensures
        spec_insert_season(e, s) == s.take(j) + seq![e] + s.skip(j),
    decreases j,
{
    if j == 0 {
        assert(spec_insert_season(e, s) =~= s.take(0) + seq![e] + s.skip(0));
    } else {
        assert(!crate::text::lex_le(e.title, s[0].title));
        assert(forall|k: int| 0 <= k < j - 1 ==> s.skip(1)[k] == s[k + 1]);
        lemma_insert_season_at(e, s.skip(1), j - 1);
        assert(s.skip(1).take(j - 1) =~= s.take(j).skip(1));
        assert(s.skip(1).skip(j - 1) =~= s.skip(j));
        assert(seq![s[0]] + spec_insert_season(e, s.skip(1))
            =~= s.take(j) + seq![e] + s.skip(j));
    }
}

/// The view of a vector of seasons.
pub open spec fn sns_view(v: Seq<SeasonMetadata>) -> Seq<SeasonMetadataV> {
    v.map_values(|e: SeasonMetadata| e@)
}

/// Finds the position before the first season whose title is greater
/// than or equal to the new one's.
fn find_insert_pos_season(e: &SeasonMetadata, v: &Vec<SeasonMetadata>) -> (j: usize)
    ensures
        j <= v@.len(),
        forall|k: int| 0 <= k < j ==> !crate::text::lex_le(e@.title, #[trigger] sns_view(v@)[k].title),
        j < v@.len() ==> crate::text::lex_le(e@.title, sns_view(v@)[j as int].title),
{
    let ghost s = sns_view(v@);
    let mut j: usize = 0;
    loop
        invariant
            j <= v@.len(),
            s == sns_view(v@),
            forall|k: int| 0 <= k < j ==> !crate::text::lex_le(e@.title, #[trigger] s[k].title),
        decreases v@.len() - j,
    {
        if j == v.len() {
            return j;
        }
        proof {
            assert(s[j as int] == v@[j as int]@);
        }
        if !crate::text::str_lex_lt(v[j].title.as_str(), e.title.as_str()) {
            proof {
                crate::text::lemma_lex_total(e@.title, s[j as int].title);
            }
            return j;
        }
        proof {
            crate::text::lemma_lex_asym(s[j as int].title, e@.title);
        }
        j = j + 1;
    }
}

/// Inserts a season into a vector sorted by title, at the position
/// `spec_insert_season` describes.
fn insert_season(e: SeasonMetadata, v: &mut Vec<SeasonMetadata>)
    ensures
        sns_view(final(v)@) == spec_insert_season(e@, sns_view(old(v)@)),
{
    let ghost s = sns_view(v@);
    let j = find_insert_pos_season(&e, v);
    proof {
        lemma_insert_season_at(e@, s, j as int);
    }
    let ghost prev = v@;
    v.insert(j, e);
    proof {
        prev.insert_ensures(j as int, e);
        let t = s.take(j as int) + seq![e@] + s.skip(j as int);
        assert forall|m: int| 0 <= m < v@.len() implies #[trigger] sns_view(v@)[m] == t[m] by {
            assert(sns_view(v@)[m] == v@[m]@);
            if m < j {
                assert(v@[m] == prev[m]);
                assert(t[m] == s.take(j as int)[m]);
            } else if m == j {
                assert(v@[m] == e);
            } else {
                assert(v@[m] == prev[m - 1]);
                assert(t[m] == s.skip(j as int)[m - j - 1]);
            }
        }
        assert(sns_view(v@) =~= t);
    }
}

/// Sorts seasons by title, stably.
fn sort_seasons(v: Vec<SeasonMetadata>) -> (r: Vec<SeasonMetadata>)
    ensures
        sns_view(r@) == spec_sort_seasons(sns_view(v@)),
{
    let ghost s = sns_view(v@);
    let mut rest = v;
    let mut r: Vec<SeasonMetadata> = Vec::new();
    proof {
        assert(sns_view(rest@) =~= s.take(rest@.len() as int));
        assert(s.skip(s.len() as int).len() == 0);
        assert(sns_view(r@) =~= spec_sort_seasons(s.skip(rest@.len() as int)));
    }
    loop
        invariant
            rest@.len() <= s.len(),
            sns_view(rest@) == s.take(rest@.len() as int),
            sns_view(r@) == spec_sort_seasons(s.skip(rest@.len() as int)),
        ensures
            rest@.len() == 0,
            sns_view(r@) == spec_sort_seasons(s.skip(0)),
        decreases rest@.len(),
    {
        if rest.len() == 0 {
            break;
        }
        let ghost k = rest@.len() as int;
        let ghost prev = rest@;
        let e = rest.pop().unwrap();
        proof {
            assert(e == prev[k - 1]);
            assert(sns_view(prev)[k - 1] == prev[k - 1]@);
            assert(s.take(k)[k - 1] == s[k - 1]);
            assert(e@ == s[k - 1]);
            assert(sns_view(rest@) =~= s.take(k - 1)) by {
                assert(forall|m: int| 0 <= m < k - 1 ==> rest@[m] == prev[m]);
                assert(forall|m: int| 0 <= m < k - 1
                    ==> #[trigger] sns_view(rest@)[m] == rest@[m]@ && sns_view(prev)[m] == prev[m]@);
            }
        }
        insert_season(e, &mut r);
        proof {
            assert(s.skip(k - 1)[0] == s[k - 1]);
            assert(s.skip(k - 1).skip(1) =~= s.skip(k));
            assert(spec_sort_seasons(s.skip(k - 1))
                == spec_insert_season(s[k - 1], spec_sort_seasons(s.skip(k))));
        }
    }
    proof {
        assert(s.skip(0) =~= s);
        assert(sns_view(r@) == spec_sort_seasons(s));
    }
    r
}

// ---------------------------------------------------------------------------
// Season construction and resolution
// ---------------------------------------------------------------------------

impl SeasonMetadata {
    /// Starts a season from a descriptor entry: the season takes the
    /// entry's title and has no episodes yet.
    pub fn new(entry: JsonEntry) -> (r: SeasonMetadata)
        ensures
            r@.title == entry@.title,
            r@.path is None,
            r@.episodes.len() == 0,
    {
        SeasonMetadata { title: entry.title, path: None, episodes: Vec::new() }
    }

    /// Replaces the season's source path.
    pub fn set_path(self, path: String) -> (r: SeasonMetadata)
        ensures
            r@ == (SeasonMetadataV { path: Some(path@), ..self@ }),
    {
        SeasonMetadata { path: Some(path), ..self }
    }

    /// Appends an episode to the season.
    pub fn add_episode(&mut self, episode: EpisodeMetadata)
        ensures
            final(self)@ == (SeasonMetadataV {
                episodes: old(self)@.episodes.push(episode@),
                ..old(self)@
            }),
    {
        let ghost prev = self.episodes@;
        self.episodes.push(episode);
        proof {
            assert(eps_view(self.episodes@) =~= eps_view(prev).push(episode@)) by {
                assert(forall|m: int| 0 <= m < prev.len() ==> self.episodes@[m] == prev[m]);
            }
            assert(self@.episodes =~= eps_view(self.episodes@));
            assert(old(self)@.episodes =~= eps_view(prev));
        }
    }

    /// Appends a numbered episode to the season.
    pub fn add_normal_episode(&mut self, episode: EpisodeMetadata)
        requires
            episode.episode is Normal,
        ensures
            final(self)@ == (SeasonMetadataV {
                episodes: old(self)@.episodes.push(episode@),
                ..old(self)@
            }),
    {
        self.add_episode(episode)
    }

    /// Appends a named special episode to the season.
    pub fn add_special_episode(&mut self, episode: EpisodeMetadata)
        requires
            episode.episode is Special,
        ensures
            final(self)@ == (SeasonMetadataV {
                episodes: old(self)@.episodes.push(episode@),
                ..old(self)@
            }),
    {
        self.add_episode(episode)
    }
}

/// The first error among the scanned episode bundles, in scan order.
pub open spec fn spec_first_episode_error(s: Seq<EpisodeScanV>) -> Option<Error>
    decreases s.len(),
{
    if s.len() == 0 {
        None
    } else if spec_resolve_episode(s[0]) is Err {
        Some(spec_resolve_episode(s[0])->Err_0)
    } else {
        spec_first_episode_error(s.skip(1))
    }
}

/// The episodes the scans denote, in scan order. Only meaningful when no
/// scan fails to resolve.
pub open spec fn spec_resolved_episodes(s: Seq<EpisodeScanV>) -> Seq<EpisodeMetadataV> {
    s.map_values(|sc: EpisodeScanV| spec_resolve_episode(sc)->Ok_0)
}

/// The outcome of resolving one scanned season directory: a season whose
/// title comes from the first scanned bundle's entry, whose path is the
/// scanned directory, and whose episodes are the resolved bundles sorted
/// by identity. A directory with no bundles fails with `EmptySeason`; a
/// bundle that fails to resolve fails the season with the first such
/// error, in scan order.
pub open spec fn spec_resolve_season(scan: SeasonScanV) -> Result<SeasonMetadataV, Error> {
    if scan.episodes.len() == 0 {
        Err(Error::Metadata(MetadataError::EmptySeason))
    } else if spec_first_episode_error(scan.episodes) is Some {
        Err(spec_first_episode_error(scan.episodes)->Some_0)
    } else {
        Ok(SeasonMetadataV {
            title: spec_resolve_episode(scan.episodes[0])->Ok_0.title,
            path: Some(scan.path),
            episodes: spec_sort_episodes(spec_resolved_episodes(scan.episodes)),
        })
    }
}

impl SeasonMetadata {
    /// Resolves one scanned season directory, as `spec_resolve_season`
    /// describes. Episodes are sorted by identity regardless of the
    /// order the directory listing produced them in.
    pub fn new_from_path(scan: &SeasonScan) -> (r: Result<SeasonMetadata, Error>)
        ensures
            match spec_resolve_season(scan@) {
                Ok(sv) => r is Ok && r->Ok_0@ == sv,
                Err(e) => r is Err && r->Err_0 == e,
            },
    {
        let ghost sv = scan@.episodes;
        proof {
            assert(sv.len() == scan.episodes@.len());
        }
        if scan.episodes.len() == 0 {
            return Err(Error::Metadata(MetadataError::EmptySeason));
        }
        let mut eps: Vec<EpisodeMetadata> = Vec::new();
        let mut i: usize = 0;
        proof {
            assert(sv.skip(0) =~= sv);
            assert(eps_view(eps@) =~= spec_resolved_episodes(sv).take(0));
        }
        while i < scan.episodes.len()
            invariant
                i <= sv.len(),
                sv.len() == scan.episodes@.len(),
                sv == scan@.episodes,
                spec_first_episode_error(sv) == spec_first_episode_error(sv.skip(i as int)),
                forall|k: int| 0 <= k < i ==> spec_resolve_episode(#[trigger] sv[k]) is Ok,
                eps_view(eps@) == spec_resolved_episodes(sv).take(i as int),
            decreases sv.len() - i,
        {
            proof {
                assert(sv[i as int] == scan.episodes@[i as int]@);
                assert(sv.skip(i as int)[0] == sv[i as int]);
                assert(sv.skip(i as int).skip(1) =~= sv.skip(i + 1));
            }
            let ghost prev_eps = eps@;
            match EpisodeMetadata::new_from_path(&scan.episodes[i]) {
                Ok(e) => {
                    proof {
                        assert(prev_eps.len() == i) by {
                            assert(eps_view(prev_eps).len() == prev_eps.len());
                            assert(spec_resolved_episodes(sv).take(i as int).len() == i);
                        }
                    }
                    eps.push(e);
                    proof {
                        assert(eps@ == prev_eps.push(e));
                        assert(eps_view(eps@) =~= spec_resolved_episodes(sv).take(i + 1)) by {
                            assert(forall|m: int| 0 <= m < prev_eps.len() ==> eps@[m] == prev_eps[m]);
                            assert(forall|m: int| 0 <= m <= prev_eps.len()
                                ==> #[trigger] eps_view(eps@)[m] == eps@[m]@);
                            assert(eps@[i as int] == e);
                            assert(spec_resolved_episodes(sv)[i as int]
                                == spec_resolve_episode(sv[i as int])->Ok_0);
                        }
                    }
                },
                Err(er) => {
                    proof {
                        assert(spec_first_episode_error(sv.skip(i as int)) == Some(er));
                    }
                    return Err(er);
                },
            }
            i = i + 1;
        }
        proof {
            assert(sv.skip(sv.len() as int).len() == 0);
            assert(spec_first_episode_error(sv) is None);
            assert(spec_resolve_episode(sv[0]) is Ok);
        }
        let title = match &scan.episodes[0].descriptor {
            DescriptorScan::Found(entry) => entry.title.clone(),
            DescriptorScan::Missing => {
                proof {
                    assert(false);
                }
                return Err(Error::Metadata(MetadataError::MissingDescriptor));
            },
            DescriptorScan::Invalid => {
                proof {
                    assert(false);
                }
                return Err(Error::Metadata(MetadataError::InvalidDescriptor));
            },
        };
        let sorted = sort_episodes(eps);
        let season = SeasonMetadata { title, path: Some(scan.path.clone()), episodes: sorted };
        proof {
            let resolved = spec_resolved_episodes(sv);
            assert(resolved.take(sv.len() as int) =~= resolved);
            assert(season@.episodes =~= eps_view(season.episodes@));
            assert(season@.title == spec_resolve_episode(sv[0])->Ok_0.title);
        }
        Ok(season)
    }
}

/// Law: a season that resolves has exactly one episode per scanned
/// bundle, and its episodes are sorted by identity — strictly so
/// wherever two identities differ.
pub proof fn lemma_resolver_preserves_count_and_order(scan: SeasonScanV)
    requires
        spec_resolve_season(scan) is Ok,
    ensures
        spec_resolve_season(scan)->Ok_0.episodes.len() == scan.episodes.len(),
        episodes_sorted(spec_resolve_season(scan)->Ok_0.episodes),
{
    // `id_le` is `id_lt` or equality, so the order is strict wherever two
    // identities differ.
    lemma_sort_episodes_ensures(spec_resolved_episodes(scan.episodes));
}

/// The seasons that resolve, in scan order.
pub open spec fn spec_ok_seasons(scans: Seq<SeasonScanV>) -> Seq<SeasonMetadataV>
    decreases scans.len(),
{
    if scans.len() == 0 {
        Seq::empty()
    } else {
        let rest = spec_ok_seasons(scans.skip(1));
        match spec_resolve_season(scans[0]) {
            Ok(s) => seq![s] + rest,
            Err(_) => rest,
        }
    }
}

/// The folder a set of season scans denotes: every season that resolves,
/// sorted by title. A season that fails to resolve is skipped, so one
/// malformed season directory does not block discovery of its siblings.
pub open spec fn spec_resolve_folder(scans: Seq<SeasonScanV>) -> Seq<SeasonMetadataV> {
    spec_sort_seasons(spec_ok_seasons(scans))
}

pub struct DownloadFolderV {
    pub seasons: Seq<SeasonMetadataV>,
}

impl View for DownloadFolder {
    type V = DownloadFolderV;

    open spec fn view(&self) -> DownloadFolderV {
        DownloadFolderV { seasons: self.seasons@.map_values(|s: SeasonMetadata| s@) }
    }
}

impl DownloadFolder {
    /// Resolves a whole scanned download directory: every season scan
    /// that resolves contributes a season, failures are skipped, and the
    /// result is sorted by season title.
    pub fn new_from_path(scans: &Vec<SeasonScan>) -> (r: DownloadFolder)
        ensures
            r@.seasons == spec_resolve_folder(scans@.map_values(|s: SeasonScan| s@)),
    {
        let ghost sv = scans@.map_values(|s: SeasonScan| s@);
        let mut seasons: Vec<SeasonMetadata> = Vec::new();
        let mut i: usize = 0;
        proof {
            assert(sv.skip(0) =~= sv);
            assert(spec_ok_seasons(sv) =~= sns_view(seasons@) + spec_ok_seasons(sv.skip(0)));
        }
        while i < scans.len()
            invariant
                i <= sv.len(),
                sv.len() == scans@.len(),
                sv == scans@.map_values(|s: SeasonScan| s@),
                spec_ok_seasons(sv) == sns_view(seasons@) + spec_ok_seasons(sv.skip(i as int)),
            decreases sv.len() - i,
        {
            proof {
                assert(sv[i as int] == scans@[i as int]@);
                assert(sv.skip(i as int)[0] == sv[i as int]);
                assert(sv.skip(i as int).skip(1) =~= sv.skip(i + 1));
            }
            let ghost prev = seasons@;
            match SeasonMetadata::new_from_path(&scans[i]) {
                Ok(season) => {
                    seasons.push(season);
                    proof {
                        assert(sns_view(seasons@) =~= sns_view(prev).push(season@)) by {
                            assert(forall|m: int| 0 <= m < prev.len() ==> seasons@[m] == prev[m]);
                        }
                        assert(sns_view(prev).push(season@) + spec_ok_seasons(sv.skip(i + 1))
                            =~= sns_view(prev) + (seq![season@] + spec_ok_seasons(sv.skip(i + 1))));
                    }
                },
                Err(_) => {
                },
            }
            i = i + 1;
        }
        proof {
            assert(sv.skip(sv.len() as int).len() == 0);
            assert(sns_view(seasons@) + spec_ok_seasons(sv.skip(sv.len() as int))
                =~= sns_view(seasons@));
        }
        let sorted = sort_seasons(seasons);
        let folder = DownloadFolder { seasons: sorted };
        proof {
            assert(folder@.seasons =~= sns_view(folder.seasons@));
        }
        folder
    }
}

} // verus!
