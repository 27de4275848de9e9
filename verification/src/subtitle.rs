use vstd::prelude::*;

use crate::error::{Error, SubtitleError};
use crate::metadata::EpisodeMetadata;
use crate::text::{all_digits, digit_val, digits_value, is_digit};

verus! {

/// How the subtitle ends up in the output container: burned into the
/// video, or carried as a separate default-flagged track.
#[derive(Debug, Clone, Copy, PartialEq, Eq, Structural, Default)]
pub enum SubtitleType {
    Hard,
    #[default]
    Soft,
}

/// The on-disk subtitle syntaxes the pipeline recognizes, by file
/// extension.
#[derive(Debug, Clone, Copy, PartialEq, Eq, Structural, Default)]
pub enum SubtitleFormat {
    #[default]
    Json,
    Ssa,
    Srt,
    Vtt,
}

// ---------------------------------------------------------------------------
// Extension classification (case-insensitive)
// ---------------------------------------------------------------------------

/// Maps an ASCII capital letter to its lower-case form and leaves every
/// other character as it is.
pub open spec fn ascii_lower_char(c: char) -> char {
    if 'A' <= c && c <= 'Z' {
        ((c as int) + 32) as char
    } else {
        c
    }
}

pub open spec fn ascii_lower(s: Seq<char>) -> Seq<char> {
    s.map_values(|c: char| ascii_lower_char(c))
}

/// Lower-cases an ASCII capital letter.
pub fn lower_char(c: char) -> (r: char)
    ensures
        r == ascii_lower_char(c),
{
    match c {
        'A' => 'a',
        'B' => 'b',
        'C' => 'c',
        'D' => 'd',
        'E' => 'e',
        'F' => 'f',
        'G' => 'g',
        'H' => 'h',
        'I' => 'i',
        'J' => 'j',
        'K' => 'k',
        'L' => 'l',
        'M' => 'm',
        'N' => 'n',
        'O' => 'o',
        'P' => 'p',
        'Q' => 'q',
        'R' => 'r',
        'S' => 's',
        'T' => 't',
        'U' => 'u',
        'V' => 'v',
        'W' => 'w',
        'X' => 'x',
        'Y' => 'y',
        'Z' => 'z',
        _ => c,
    }
}

/// Whether two strings are equal once ASCII capitals are lowered.
fn eq_ignore_ascii_case(a: &str, b: &str) -> (r: bool)
    ensures
        r == (ascii_lower(a@) == ascii_lower(b@)),
{
    let a_len = a.unicode_len();
    let b_len = b.unicode_len();
    if a_len != b_len {
        proof {
            assert(ascii_lower(a@).len() != ascii_lower(b@).len());
        }
        return false;
    }
    let mut i: usize = 0;
    while i < a_len
        invariant
            i <= a_len,
            a_len == a@.len(),
            b_len == b@.len(),
            a_len == b_len,
            forall|j: int| 0 <= j < i
                ==> ascii_lower_char(#[trigger] a@[j]) == ascii_lower_char(b@[j]),
        decreases a_len - i,
    {
        let ca = lower_char(a.get_char(i));
        let cb = lower_char(b.get_char(i));
        if ca != cb {
            proof {
                assert(ascii_lower(a@)[i as int] != ascii_lower(b@)[i as int]);
            }
            return false;
        }
        i = i + 1;
    }
    proof {
        assert(ascii_lower(a@) =~= ascii_lower(b@)) by {
            assert(forall|j: int| 0 <= j < a@.len()
                ==> ascii_lower(a@)[j] == ascii_lower_char(#[trigger] a@[j])
                    && ascii_lower(b@)[j] == ascii_lower_char(b@[j]));
        }
    }
    true
}

/// The format a file extension denotes, compared without regard to ASCII
/// case: "json", "ass"/"ssa", "srt", "vtt"; anything else is unknown.
pub open spec fn spec_format_of_extension(ext: Seq<char>) -> Option<SubtitleFormat> {
    let l = ascii_lower(ext);
    if l == "json"@ {
        Some(SubtitleFormat::Json)
    } else if l == "ass"@ || l == "ssa"@ {
        Some(SubtitleFormat::Ssa)
    } else if l == "srt"@ {
        Some(SubtitleFormat::Srt)
    } else if l == "vtt"@ {
        Some(SubtitleFormat::Vtt)
    } else {
        None
    }
}

/// A lower-case ASCII literal is fixed by `ascii_lower`.
proof fn lemma_lower_fixes(s: Seq<char>)
    requires
        forall|j: int| 0 <= j < s.len() ==> !('A' <= #[trigger] s[j] && s[j] <= 'Z'),
    ensures
        ascii_lower(s) == s,
{
    assert(ascii_lower(s) =~= s) by {
        assert(forall|j: int| 0 <= j < s.len()
            ==> ascii_lower(s)[j] == ascii_lower_char(#[trigger] s[j]));
    }
}

impl SubtitleFormat {
    /// Classifies a file extension, without regard to ASCII case.
    pub fn from_extension(ext: &str) -> (r: Option<SubtitleFormat>)
        ensures
            r == spec_format_of_extension(ext@),
    {
        proof {
            reveal_strlit("json");
            reveal_strlit("ass");
            reveal_strlit("ssa");
            reveal_strlit("srt");
            reveal_strlit("vtt");
            lemma_lower_fixes("json"@);
            lemma_lower_fixes("ass"@);
            lemma_lower_fixes("ssa"@);
            lemma_lower_fixes("srt"@);
            lemma_lower_fixes("vtt"@);
        }
        if eq_ignore_ascii_case(ext, "json") {
            Some(SubtitleFormat::Json)
        } else if eq_ignore_ascii_case(ext, "ass") || eq_ignore_ascii_case(ext, "ssa") {
            Some(SubtitleFormat::Ssa)
        } else if eq_ignore_ascii_case(ext, "srt") {
            Some(SubtitleFormat::Srt)
        } else if eq_ignore_ascii_case(ext, "vtt") {
            Some(SubtitleFormat::Vtt)
        } else {
            None
        }
    }
}

// ---------------------------------------------------------------------------
// Locating the single subtitle file
// ---------------------------------------------------------------------------

/// The index of the last '.' in a file name, or -1 if there is none.
pub open spec fn spec_last_dot(s: Seq<char>) -> int
    decreases s.len(),
{
    if s.len() == 0 {
        -1
    } else if s.last() == '.' {
        s.len() - 1
    } else {
        spec_last_dot(s.drop_last())
    }
}

/// The extension of a file name: what follows the last '.', or nothing
/// if there is no dot.
pub open spec fn spec_extension_of(s: Seq<char>) -> Option<Seq<char>> {
    if spec_last_dot(s) >= 0 {
        Some(s.skip(spec_last_dot(s) + 1))
    } else {
        None
    }
}

pub proof fn lemma_last_dot_range(s: Seq<char>)
    ensures
        -1 <= spec_last_dot(s) < s.len(),
        spec_last_dot(s) >= 0 ==> s[spec_last_dot(s)] == '.',
        forall|j: int| spec_last_dot(s) < j < s.len() ==> s[j] != '.',
    decreases s.len(),
{
    if s.len() > 0 && s.last() != '.' {
        lemma_last_dot_range(s.drop_last());
        assert(forall|j: int| 0 <= j < s.len() - 1 ==> s.drop_last()[j] == s[j]);
    }
}

/// Finds the last '.' of a file name.
fn find_last_dot(s: &str) -> (r: Option<usize>)
    ensures
        match r {
            Some(i) => spec_last_dot(s@) == i as int,
            None => spec_last_dot(s@) == -1,
        },
{
    let len = s.unicode_len();
    let mut i: usize = len;
    proof {
        assert(s@.take(len as int) =~= s@);
    }
    loop
        invariant
            i <= len,
            len == s@.len(),
            spec_last_dot(s@) == spec_last_dot(s@.take(i as int)),
        decreases i,
    {
        if i == 0 {
            return None;
        }
        let c = s.get_char(i - 1);
        proof {
            let t = s@.take(i as int);
            assert(t.last() == s@[i - 1]);
            assert(t.drop_last() =~= s@.take(i - 1));
        }
        if c == '.' {
            return Some(i - 1);
        }
        i = i - 1;
    }
}

/// Picks the single file a subtitle directory must contain and
/// classifies its format by extension: no file is `DirectoryEmpty`, more
/// than one is `AmbiguousDirectory`, a missing or unknown extension is
/// `UnknownFormat`.
pub open spec fn spec_subtitle_format_of_dir(entries: Seq<Seq<char>>) -> Result<SubtitleFormat, Error> {
    if entries.len() == 0 {
        Err(Error::Subtitle(SubtitleError::DirectoryEmpty))
    } else if entries.len() > 1 {
        Err(Error::Subtitle(SubtitleError::AmbiguousDirectory))
    } else {
        match spec_extension_of(entries[0]) {
            None => Err(Error::Subtitle(SubtitleError::UnknownFormat)),
            Some(ext) => match spec_format_of_extension(ext) {
                None => Err(Error::Subtitle(SubtitleError::UnknownFormat)),
                Some(f) => Ok(f),
            },
        }
    }
}

impl SubtitleFormat {
    /// The subtitle format available for an episode, given the file
    /// names found in its language-specific subtitle directory.
    pub fn get_episode_subtitle_type(episode: &EpisodeMetadata, entries: &Vec<String>) -> (r: Result<SubtitleFormat, Error>)
        requires
            episode.path is Some,
        ensures
            r == spec_subtitle_format_of_dir(entries@.map_values(|e: String| e@)),
    {
        let ghost names = entries@.map_values(|e: String| e@);
        if entries.len() == 0 {
            return Err(Error::Subtitle(SubtitleError::DirectoryEmpty));
        }
        if entries.len() > 1 {
            return Err(Error::Subtitle(SubtitleError::AmbiguousDirectory));
        }
        let name = &entries[0];
        proof {
            assert(names[0] == name@);
        }
        match find_last_dot(name.as_str()) {
            None => Err(Error::Subtitle(SubtitleError::UnknownFormat)),
            Some(i) => {
                let len = name.as_str().unicode_len();
                proof {
                    lemma_last_dot_range(name@);
                }
                let ext = name.as_str().substring_char(i + 1, len);
                match SubtitleFormat::from_extension(ext) {
                    None => Err(Error::Subtitle(SubtitleError::UnknownFormat)),
                    Some(f) => Ok(f),
                }
            },
        }
    }

    /// The subtitle format for a numbered episode.
    pub fn get_normal_episode_subtitle_type(episode: &EpisodeMetadata, entries: &Vec<String>) -> (r: Result<SubtitleFormat, Error>)
        requires
            episode.path is Some,
            episode.episode is Normal,
        ensures
            r == spec_subtitle_format_of_dir(entries@.map_values(|e: String| e@)),
    {
        SubtitleFormat::get_episode_subtitle_type(episode, entries)
    }

    /// The subtitle format for a named special episode.
    pub fn get_special_episode_subtitle_type(episode: &EpisodeMetadata, entries: &Vec<String>) -> (r: Result<SubtitleFormat, Error>)
        requires
            episode.path is Some,
            episode.episode is Special,
        ensures
            r == spec_subtitle_format_of_dir(entries@.map_values(|e: String| e@)),
    {
        SubtitleFormat::get_episode_subtitle_type(episode, entries)
    }
}

impl EpisodeMetadata {
    /// The path of the single file in the episode's language-specific
    /// subtitle directory, given that directory's file names: the
    /// episode path, the language tag, and the file name joined with
    /// '/'. No file is `DirectoryEmpty`, more than one is
    /// `AmbiguousDirectory`.
    pub fn get_subtitle_path(&self, subtitle_language: &str, entries: &Vec<String>) -> (r: Result<String, Error>)
        requires
            self.path is Some,
        ensures
            match r {
                Ok(p) => entries@.len() == 1
                    && p@ == self.path->0@ + "/"@ + subtitle_language@ + "/"@ + entries@[0]@,
                Err(e) => (entries@.len() == 0 && e == Error::Subtitle(SubtitleError::DirectoryEmpty))
                    || (entries@.len() > 1 && e == Error::Subtitle(SubtitleError::AmbiguousDirectory)),
            },
    {
        if entries.len() == 0 {
            return Err(Error::Subtitle(SubtitleError::DirectoryEmpty));
        }
        if entries.len() > 1 {
            return Err(Error::Subtitle(SubtitleError::AmbiguousDirectory));
        }
        let base = match &self.path {
            Some(p) => p,
            None => {
                proof {
                    assert(false);
                }
                return Err(Error::Subtitle(SubtitleError::DirectoryEmpty));
            },
        };
        proof {
            reveal_strlit("/");
        }
        let mut out = base.clone();
        out.append("/");
        out.append(subtitle_language);
        out.append("/");
        out.append(entries[0].as_str());
        Ok(out)
    }

    /// The directory holding the episode's subtitles for one language:
    /// the episode path and the language tag joined with '/'.
    pub fn subtitle_dir(&self, subtitle_language: &str) -> (r: String)
        requires
            self.path is Some,
        ensures
            r@ == self.path->0@ + "/"@ + subtitle_language@,
    {
        let base = match &self.path {
            Some(p) => p,
            None => {
                proof {
                    assert(false);
                }
                return String::new();
            },
        };
        proof {
            reveal_strlit("/");
        }
        let mut out = base.clone();
        out.append("/");
        out.append(subtitle_language);
        out
    }
}

// ---------------------------------------------------------------------------
// The pivot document
// ---------------------------------------------------------------------------

/// One timed cue of the pivot document. Offsets are whole milliseconds
/// from zero.
#[derive(Debug, Clone, PartialEq, Eq)]
pub struct SubtitleCue {
    pub start_ms: u64,
    pub end_ms: u64,
    pub text: String,
}

/// The format-agnostic timed-text representation every supported syntax
/// is converted into before re-serialization.
#[derive(Debug, Clone, PartialEq, Eq)]
pub struct SubtitleDocument {
    pub cues: Vec<SubtitleCue>,
}

pub struct SubtitleCueV {
    pub start_ms: u64,
    pub end_ms: u64,
    pub text: Seq<char>,
}

pub struct SubtitleDocumentV {
    pub cues: Seq<SubtitleCueV>,
}

impl View for SubtitleCue {
    type V = SubtitleCueV;

    open spec fn view(&self) -> SubtitleCueV {
        SubtitleCueV { start_ms: self.start_ms, end_ms: self.end_ms, text: self.text@ }
    }
}

impl View for SubtitleDocument {
    type V = SubtitleDocumentV;

    open spec fn view(&self) -> SubtitleDocumentV {
        SubtitleDocumentV { cues: self.cues@.map_values(|c: SubtitleCue| c@) }
    }
}

/// Whether cue start times never decrease along the document.
pub open spec fn cues_ordered(cues: Seq<SubtitleCueV>) -> bool {
    forall|i: int, j: int| 0 <= i < j < cues.len()
        ==> #[trigger] cues[i].start_ms <= #[trigger] cues[j].start_ms
}

// ---------------------------------------------------------------------------
// Timed-text timestamps in decimal seconds
// ---------------------------------------------------------------------------

/// A timestamp in seconds as it appears in the structured-JSON subtitle
/// syntax: one or more digits, optionally followed by '.' and one or
/// more fractional digits.
pub open spec fn valid_seconds(s: Seq<char>) -> bool {
    (s.len() > 0 && all_digits(s))
    || (exists|i: int| #![trigger s[i]] 0 < i < s.len() - 1 && s[i] == '.'
        && all_digits(s.take(i)) && all_digits(s.skip(i + 1)))
}

/// The fractional digit at position `k`, reading missing digits as zero.
pub open spec fn padded_digit(f: Seq<char>, k: int) -> int {
    if 0 <= k < f.len() {
        digit_val(f[k])
    } else {
        0
    }
}

/// The whole milliseconds a fractional-second digit string denotes,
/// rounded to nearest (half away from zero): the first three digits,
/// plus one when the fourth digit is five or more.
pub open spec fn frac_ms(f: Seq<char>) -> int {
    padded_digit(f, 0) * 100 + padded_digit(f, 1) * 10 + padded_digit(f, 2)
        + if padded_digit(f, 3) >= 5 { 1int } else { 0int }
}

/// Where the '.' of a valid timestamp sits, or the whole length if the
/// timestamp is all digits.
pub open spec fn spec_dot_of(s: Seq<char>) -> int {
    if all_digits(s) {
        s.len() as int
    } else {
        choose|i: int| #![trigger s[i]] 0 < i < s.len() - 1 && s[i] == '.'
            && all_digits(s.take(i)) && all_digits(s.skip(i + 1))
    }
}

/// The whole milliseconds a valid decimal-seconds timestamp denotes,
/// rounded to nearest.
pub open spec fn seconds_to_ms(s: Seq<char>) -> int {
    if all_digits(s) {
        digits_value(s) * 1000
    } else {
        let i = spec_dot_of(s);
        digits_value(s.take(i)) * 1000 + frac_ms(s.skip(i + 1))
    }
}

/// The whole-second digits of a valid timestamp.
pub open spec fn int_part(s: Seq<char>) -> Seq<char> {
    if all_digits(s) {
        s
    } else {
        s.take(spec_dot_of(s))
    }
}

/// The fractional digits of a valid timestamp, empty when it has none.
pub open spec fn frac_part(s: Seq<char>) -> Seq<char> {
    if all_digits(s) {
        Seq::empty()
    } else {
        s.skip(spec_dot_of(s) + 1)
    }
}

/// Strict order on fractional digit strings, compared digit by digit
/// with missing digits read as zero.
pub open spec fn frac_lt(f: Seq<char>, g: Seq<char>) -> bool {
    exists|k: int| #![trigger padded_digit(f, k), padded_digit(g, k)] 0 <= k
        && (forall|j: int| #![trigger padded_digit(f, j), padded_digit(g, j)]
            0 <= j < k ==> padded_digit(f, j) == padded_digit(g, j))
        && padded_digit(f, k) < padded_digit(g, k)
}

/// Equality of fractional digit strings up to trailing zeros.
pub open spec fn frac_eq(f: Seq<char>, g: Seq<char>) -> bool {
    forall|k: int| #![trigger padded_digit(f, k), padded_digit(g, k)]
        0 <= k ==> padded_digit(f, k) == padded_digit(g, k)
}

/// Numeric order on valid timestamps: by whole seconds, then by the
/// fractional digits.
pub open spec fn seconds_le(a: Seq<char>, b: Seq<char>) -> bool {
    digits_value(int_part(a)) < digits_value(int_part(b))
    || (digits_value(int_part(a)) == digits_value(int_part(b))
        && (frac_lt(frac_part(a), frac_part(b)) || frac_eq(frac_part(a), frac_part(b))))
}

/// If `i` is the first dot of `s`, it is the only place a valid
/// decomposition can cut, and `s` is not all digits.
proof fn lemma_first_dot_witness(s: Seq<char>, i: int)
    requires
        0 <= i < s.len(),
        s[i] == '.',
        forall|j: int| 0 <= j < i ==> s[j] != '.',
    ensures
        !all_digits(s),
        forall|k: int| #![trigger s[k]] 0 < k < s.len() - 1 && s[k] == '.'
            && all_digits(s.take(k)) && all_digits(s.skip(k + 1)) ==> k == i,
        valid_seconds(s) ==> spec_dot_of(s) == i,
{
    assert(!is_digit(s[i]));
    assert(!all_digits(s));
    assert forall|k: int| #![trigger s[k]] 0 < k < s.len() - 1 && s[k] == '.'
        && all_digits(s.take(k)) && all_digits(s.skip(k + 1)) implies k == i by {
        if k < i {
            assert(s[k] != '.');
        } else if k > i {
            assert(s.take(k)[i] == s[i]);
            assert(is_digit(s.take(k)[i]));
        }
    }
    if valid_seconds(s) {
        let w = spec_dot_of(s);
        assert(0 < w < s.len() - 1 && s[w] == '.'
            && all_digits(s.take(w)) && all_digits(s.skip(w + 1)));
    }
}

/// Finds the first '.' in a timestamp.
fn find_first_dot(s: &str) -> (r: Option<usize>)
    ensures
        match r {
            Some(i) => i < s@.len() && s@[i as int] == '.'
                && forall|j: int| 0 <= j < i ==> s@[j] != '.',
            None => forall|j: int| 0 <= j < s@.len() ==> s@[j] != '.',
        },
{
    let len = s.unicode_len();
    let mut i: usize = 0;
    while i < len
        invariant
            i <= len,
            len == s@.len(),
            forall|j: int| 0 <= j < i ==> s@[j] != '.',
        decreases len - i,
    {
        if s.get_char(i) == '.' {
            return Some(i);
        }
        i = i + 1;
    }
    None
}

/// Whether every character of a string is a decimal digit.
fn check_all_digits(s: &str) -> (r: bool)
    ensures
        r == all_digits(s@),
{
    let len = s.unicode_len();
    let mut i: usize = 0;
    while i < len
        invariant
            i <= len,
            len == s@.len(),
            forall|j: int| 0 <= j < i ==> is_digit(#[trigger] s@[j]),
        decreases len - i,
    {
        match crate::text::char_digit(s.get_char(i)) {
            None => {
                return false;
            },
            Some(_) => {},
        }
        i = i + 1;
    }
    true
}

/// The fractional digit at position `k`, or zero past the end.
fn padded_digit_exec(f: &str, k: usize) -> (r: u8)
    requires
        all_digits(f@),
    ensures
        r as int == padded_digit(f@, k as int),
{
    if k < f.unicode_len() {
        match crate::text::char_digit(f.get_char(k)) {
            Some(d) => d,
            None => {
                proof {
                    assert(is_digit(f@[k as int]));
                    assert(false);
                }
                0
            },
        }
    } else {
        0
    }
}

/// Parses a decimal-seconds timestamp into whole milliseconds, rounding
/// to nearest: `Some` exactly when the timestamp is well-formed and the
/// result fits the millisecond type.
pub fn parse_seconds_to_ms(s: &str) -> (r: Option<u64>)
    ensures
        match r {
            Some(v) => valid_seconds(s@) && v as int == seconds_to_ms(s@),
            None => !valid_seconds(s@) || seconds_to_ms(s@) > u64::MAX,
        },
{
    match find_first_dot(s) {
        None => {
            // All characters must be digits for the timestamp to be valid:
            // there is no dot to cut at.
            match crate::text::parse_digits(s) {
                None => {
                    proof {
                        if valid_seconds(s@) {
                            if !all_digits(s@) {
                                let w = spec_dot_of(s@);
                                assert(0 < w < s@.len() - 1 && s@[w] == '.');
                            }
                            crate::text::lemma_digits_value_nonneg(s@);
                            assert(digits_value(s@) > u64::MAX);
                            assert(seconds_to_ms(s@) == digits_value(s@) * 1000);
                            assert(digits_value(s@) * 1000 > u64::MAX) by (nonlinear_arith)
                                requires
                                    digits_value(s@) > u64::MAX,
                            ;
                        }
                    }
                    None
                },
                Some(v) => {
                    match v.checked_mul(1000) {
                        Some(ms) => Some(ms),
                        None => {
                            proof {
                                assert(seconds_to_ms(s@) == digits_value(s@) * 1000);
                            }
                            None
                        },
                    }
                },
            }
        },
        Some(i) => {
            let len = s.unicode_len();
            proof {
                lemma_first_dot_witness(s@, i as int);
            }
            if i == 0 || i + 1 >= len {
                // A valid timestamp needs a digit on each side of the dot.
                proof {
                    if valid_seconds(s@) {
                        if !all_digits(s@) {
                            let w = spec_dot_of(s@);
                            assert(0 < w < s@.len() - 1 && s@[w] == '.'
                                && all_digits(s@.take(w)) && all_digits(s@.skip(w + 1)));
                        }
                    }
                }
                return None;
            }
            let whole = s.substring_char(0, i);
            let frac = s.substring_char(i + 1, len);
            proof {
                assert(whole@ =~= s@.take(i as int));
                assert(frac@ =~= s@.skip(i + 1));
            }
            if !check_all_digits(frac) {
                proof {
                    if valid_seconds(s@) {
                        if !all_digits(s@) {
                            let w = spec_dot_of(s@);
                            assert(0 < w < s@.len() - 1 && s@[w] == '.'
                                && all_digits(s@.take(w)) && all_digits(s@.skip(w + 1)));
                            assert(w == i as int);
                        }
                    }
                }
                return None;
            }
            match crate::text::parse_digits(whole) {
                None => {
                    proof {
                        if valid_seconds(s@) {
                            assert(spec_dot_of(s@) == i as int);
                            assert(all_digits(s@.take(i as int)));
                            crate::text::lemma_digits_value_nonneg(s@.take(i as int));
                            assert(digits_value(s@.take(i as int)) > u64::MAX);
                            assert(frac_ms(s@.skip(i + 1)) >= 0) by {
                                assert(padded_digit(s@.skip(i + 1), 0) >= 0);
                                assert(padded_digit(s@.skip(i + 1), 1) >= 0);
                                assert(padded_digit(s@.skip(i + 1), 2) >= 0);
                            }
                            assert(digits_value(s@.take(i as int)) * 1000 > u64::MAX) by (nonlinear_arith)
                                requires
                                    digits_value(s@.take(i as int)) > u64::MAX,
                            ;
                        }
                    }
                    None
                },
                Some(v) => {
                    proof {
                        assert(valid_seconds(s@));
                        assert(spec_dot_of(s@) == i as int);
                    }
                    let d0 = padded_digit_exec(frac, 0);
                    let d1 = padded_digit_exec(frac, 1);
                    let d2 = padded_digit_exec(frac, 2);
                    let d3 = padded_digit_exec(frac, 3);
                    let fraction: u64 = (d0 as u64) * 100 + (d1 as u64) * 10 + (d2 as u64)
                        + if d3 >= 5 { 1 } else { 0 };
                    proof {
                        assert(fraction as int == frac_ms(s@.skip(i + 1)));
                    }
                    match v.checked_mul(1000) {
                        None => {
                            proof {
                                assert(fraction >= 0);
                            }
                            None
                        },
                        Some(base) => {
                            match base.checked_add(fraction) {
                                None => None,
                                Some(total) => Some(total),
                            }
                        },
                    }
                },
            }
        },
    }
}

// ---------------------------------------------------------------------------
// Rounding is monotone
// ---------------------------------------------------------------------------

/// A valid timestamp decomposes into whole seconds and fractional
/// milliseconds, both non-negative and the fraction at most a second.
pub proof fn lemma_ms_decomposition(s: Seq<char>)
    requires
        valid_seconds(s),
    ensures
        seconds_to_ms(s) == digits_value(int_part(s)) * 1000 + frac_ms(frac_part(s)),
        digits_value(int_part(s)) >= 0,
        0 <= frac_ms(frac_part(s)) <= 1000,
        all_digits(frac_part(s)),
{
    if all_digits(s) {
        crate::text::lemma_digits_value_nonneg(s);
        assert(frac_part(s).len() == 0);
        assert(padded_digit(frac_part(s), 0) == 0);
        assert(padded_digit(frac_part(s), 1) == 0);
        assert(padded_digit(frac_part(s), 2) == 0);
        assert(padded_digit(frac_part(s), 3) == 0);
    } else {
        let i = spec_dot_of(s);
        assert(0 < i < s.len() - 1 && s[i] == '.'
            && all_digits(s.take(i)) && all_digits(s.skip(i + 1)));
        crate::text::lemma_digits_value_nonneg(s.take(i));
        lemma_padded_digit_bounds(s.skip(i + 1));
    }
}

/// Every padded digit of an all-digit string lies between zero and nine.
proof fn lemma_padded_digit_bounds(f: Seq<char>)
    requires
        all_digits(f),
    ensures
        forall|k: int| 0 <= #[trigger] padded_digit(f, k) <= 9,
{
    assert forall|k: int| 0 <= #[trigger] padded_digit(f, k) <= 9 by {
        if 0 <= k < f.len() {
            assert(is_digit(f[k]));
        }
    }
}

/// Fractional digit strings in digit order have their milliseconds in
/// order: the first three digits dominate, and the rounding digit can
/// only add one on the larger side first.
proof fn lemma_frac_ms_monotone(f: Seq<char>, g: Seq<char>)
    requires
        all_digits(f),
        all_digits(g),
        frac_lt(f, g) || frac_eq(f, g),
    ensures
        frac_ms(f) <= frac_ms(g),
{
    lemma_padded_digit_bounds(f);
    lemma_padded_digit_bounds(g);
    if frac_eq(f, g) {
        assert(padded_digit(f, 0) == padded_digit(g, 0));
        assert(padded_digit(f, 1) == padded_digit(g, 1));
        assert(padded_digit(f, 2) == padded_digit(g, 2));
        assert(padded_digit(f, 3) == padded_digit(g, 3));
    } else {
        let k = choose|k: int| #![trigger padded_digit(f, k), padded_digit(g, k)] 0 <= k
            && (forall|j: int| #![trigger padded_digit(f, j), padded_digit(g, j)]
                0 <= j < k ==> padded_digit(f, j) == padded_digit(g, j))
            && padded_digit(f, k) < padded_digit(g, k);
        if k >= 4 {
            assert(padded_digit(f, 0) == padded_digit(g, 0));
            assert(padded_digit(f, 1) == padded_digit(g, 1));
            assert(padded_digit(f, 2) == padded_digit(g, 2));
            assert(padded_digit(f, 3) == padded_digit(g, 3));
        } else if k == 3 {
            assert(frac_ms(f) <= frac_ms(g));
        } else {
            // The digits before `k` agree, the digit at `k` is strictly
            // smaller, and rounding adds at most one.
            assert(frac_ms(f) <= frac_ms(g));
        }
    }
}

/// Law: converting timestamps to whole milliseconds preserves their
/// numeric order, so two cues ordered by start time are never inverted
/// by the rounding — in particular not when they differ by a
/// millisecond or more.
pub proof fn lemma_seconds_to_ms_monotone(a: Seq<char>, b: Seq<char>)
    requires
        valid_seconds(a),
        valid_seconds(b),
        seconds_le(a, b),
    ensures
        seconds_to_ms(a) <= seconds_to_ms(b),
{
    lemma_ms_decomposition(a);
    lemma_ms_decomposition(b);
    let va = digits_value(int_part(a));
    let vb = digits_value(int_part(b));
    if va < vb {
        assert(va * 1000 + 1000 <= vb * 1000) by (nonlinear_arith)
            requires
                va < vb,
        ;
    } else {
        assert(va == vb);
        lemma_frac_ms_monotone(frac_part(a), frac_part(b));
    }
}

// ---------------------------------------------------------------------------
// The structured-JSON subtitle syntax
// ---------------------------------------------------------------------------

/// One line of a structured-JSON subtitle: start and end offsets in
/// decimal seconds, as written in the file, and the cue text.
#[derive(Debug, Clone, PartialEq, Eq)]
pub struct JsonSubtitleBody {
    pub from: String,
    pub to: String,
    pub content: String,
}

/// The cue list of a structured-JSON subtitle file.
#[derive(Debug, Clone, PartialEq, Eq)]
pub struct JsonSubtitle {
    pub body: Vec<JsonSubtitleBody>,
}

pub struct JsonSubtitleBodyV {
    pub from: Seq<char>,
    pub to: Seq<char>,
    pub content: Seq<char>,
}

pub struct JsonSubtitleV {
    pub body: Seq<JsonSubtitleBodyV>,
}

impl View for JsonSubtitleBody {
    type V = JsonSubtitleBodyV;

    open spec fn view(&self) -> JsonSubtitleBodyV {
        JsonSubtitleBodyV { from: self.from@, to: self.to@, content: self.content@ }
    }
}

impl View for JsonSubtitle {
    type V = JsonSubtitleV;

    open spec fn view(&self) -> JsonSubtitleV {
        JsonSubtitleV { body: self.body@.map_values(|b: JsonSubtitleBody| b@) }
    }
}

/// Whether one structured-JSON cue can be converted: both timestamps
/// well-formed and in millisecond range.
pub open spec fn json_cue_ok(b: JsonSubtitleBodyV) -> bool {
    valid_seconds(b.from) && seconds_to_ms(b.from) <= u64::MAX
        && valid_seconds(b.to) && seconds_to_ms(b.to) <= u64::MAX
}

/// Whether a pivot cue is the one a structured-JSON cue denotes.
pub open spec fn cue_matches_json(cue: SubtitleCueV, b: JsonSubtitleBodyV) -> bool {
    cue.start_ms as int == seconds_to_ms(b.from)
        && cue.end_ms as int == seconds_to_ms(b.to)
        && cue.text == b.content
}

/// The view of a vector of cues.
pub open spec fn cue_view(v: Seq<SubtitleCue>) -> Seq<SubtitleCueV> {
    v.map_values(|c: SubtitleCue| c@)
}

impl SubtitleDocument {
    /// Converts a structured-JSON subtitle into the pivot document: cue
    /// order is kept, each offset becomes whole milliseconds rounded to
    /// nearest, and any malformed or out-of-range timestamp fails the
    /// whole conversion with `CodecFailure`.
    pub fn from_json(json: &JsonSubtitle) -> (r: Result<SubtitleDocument, Error>)
        ensures
            match r {
                Ok(doc) => (forall|i: int| 0 <= i < json@.body.len()
                        ==> json_cue_ok(#[trigger] json@.body[i]))
                    && doc@.cues.len() == json@.body.len()
                    && forall|i: int| 0 <= i < json@.body.len()
                        ==> cue_matches_json(#[trigger] doc@.cues[i], json@.body[i]),
                Err(e) => e == Error::Subtitle(SubtitleError::CodecFailure)
                    && exists|i: int| 0 <= i < json@.body.len()
                        && !json_cue_ok(#[trigger] json@.body[i]),
            },
    {
        let ghost bodies = json@.body;
        let mut cues: Vec<SubtitleCue> = Vec::new();
        let mut i: usize = 0;
        while i < json.body.len()
            invariant
                i <= bodies.len(),
                bodies.len() == json.body@.len(),
                bodies == json@.body,
                cues@.len() == i,
                forall|k: int| 0 <= k < i ==> json_cue_ok(#[trigger] bodies[k]),
                forall|k: int| 0 <= k < i
                    ==> cue_matches_json(#[trigger] cue_view(cues@)[k], bodies[k]),
            decreases bodies.len() - i,
        {
            let b = &json.body[i];
            proof {
                assert(bodies[i as int] == b@);
            }
            let start_ms = match parse_seconds_to_ms(b.from.as_str()) {
                Some(v) => v,
                None => {
                    return Err(Error::Subtitle(SubtitleError::CodecFailure));
                },
            };
            let end_ms = match parse_seconds_to_ms(b.to.as_str()) {
                Some(v) => v,
                None => {
                    return Err(Error::Subtitle(SubtitleError::CodecFailure));
                },
            };
            let ghost prev = cues@;
            cues.push(SubtitleCue { start_ms, end_ms, text: b.content.clone() });
            proof {
                assert(forall|k: int| 0 <= k < prev.len() ==> cues@[k] == prev[k]);
                assert(forall|k: int| 0 <= k <= prev.len()
                    ==> #[trigger] cue_view(cues@)[k] == cues@[k]@);
                assert(forall|k: int| 0 <= k < prev.len()
                    ==> #[trigger] cue_view(prev)[k] == prev[k]@);
                assert(json_cue_ok(bodies[i as int]));
                assert(cue_view(cues@)[i as int] == cues@[i as int]@);
                assert(cue_matches_json(cue_view(cues@)[i as int], bodies[i as int]));
                assert forall|k: int| 0 <= k < i
                    implies cue_matches_json(#[trigger] cue_view(cues@)[k], bodies[k]) by {
                    assert(cues@[k] == prev[k]);
                    assert(cue_view(prev)[k] == prev[k]@);
                    assert(cue_view(cues@)[k] == cues@[k]@);
                }
            }
            i = i + 1;
        }
        let doc = SubtitleDocument { cues };
        proof {
            assert(doc@.cues =~= cue_view(doc.cues@));
            assert(doc@.cues.len() == bodies.len());
            assert(forall|k: int| 0 <= k < bodies.len()
                ==> #[trigger] doc@.cues[k] == cue_view(doc.cues@)[k]);
        }
        Ok(doc)
    }
}

/// Law: a structured-JSON subtitle whose cue start times never decrease
/// converts to a pivot document whose cue start times never decrease;
/// millisecond rounding cannot invert them.
pub proof fn lemma_json_order_preserved(body: Seq<JsonSubtitleBodyV>, cues: Seq<SubtitleCueV>)
    requires
        cues.len() == body.len(),
        forall|i: int| 0 <= i < body.len() ==> json_cue_ok(#[trigger] body[i]),
        forall|i: int| 0 <= i < body.len()
            ==> cue_matches_json(#[trigger] cues[i], body[i]),
        forall|i: int, j: int| 0 <= i < j < body.len()
            ==> seconds_le(#[trigger] body[i].from, #[trigger] body[j].from),
    ensures
        cues_ordered(cues),
{
    assert forall|i: int, j: int| 0 <= i < j < cues.len()
        implies #[trigger] cues[i].start_ms <= #[trigger] cues[j].start_ms by {
        lemma_seconds_to_ms_monotone(body[i].from, body[j].from);
        lemma_ms_decomposition(body[i].from);
        lemma_ms_decomposition(body[j].from);
    }
}

} // verus!
