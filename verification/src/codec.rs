use vstd::prelude::*;

use crate::error::{Error, SubtitleError};
use crate::subtitle::{
    cue_view, JsonSubtitle, SubtitleCue, SubtitleCueV, SubtitleDocument,
};
use crate::text::{dec_string, padded2_string, u64_to_padded2_string, u64_to_string};

verus! {

// ---------------------------------------------------------------------------
// The native target syntax: emission
// ---------------------------------------------------------------------------

/// The fixed preamble of every emitted native-target subtitle: script
/// metadata and the pipeline's single hardcoded presentation profile
/// (font family and size, colours, outline, alignment, margins). None
/// of it depends on the source format.
pub open spec fn spec_ass_header() -> Seq<char> {
    "[Script Info]\nTitle: Bilibili Subtitle\nScriptType: v4.00+\nWrapStyle: 0\nScaledBorderAndShadow: yes\nYCbCr Matrix: TV.601\nPlayResX: 1920\nPlayResY: 1080\n\n[V4+ Styles]\nFormat: Name, Fontname, Fontsize, PrimaryColour, SecondaryColour, OutlineColour, BackColour, Bold, Italic, Underline, StrikeOut, ScaleX, ScaleY, Spacing, Angle, BorderStyle, Outline, Shadow, Alignment, MarginL, MarginR, MarginV, Encoding\nStyle: Default,Noto Sans,100,&H00FFFFFF,&H00FFFF00,&H00002208,&H7F000000,0,0,0,0,100,100,0,0,1,5,1.5,2,96,96,65,1\n\n[Events]\nFormat: Layer, Start, End, Style, Name, MarginL, MarginR, MarginV, Effect, Text\n"@
}

/// The fixed preamble, as text.
pub fn ass_header() -> (r: &'static str)
    ensures
        r@ == spec_ass_header(),
{
    "[Script Info]\nTitle: Bilibili Subtitle\nScriptType: v4.00+\nWrapStyle: 0\nScaledBorderAndShadow: yes\nYCbCr Matrix: TV.601\nPlayResX: 1920\nPlayResY: 1080\n\n[V4+ Styles]\nFormat: Name, Fontname, Fontsize, PrimaryColour, SecondaryColour, OutlineColour, BackColour, Bold, Italic, Underline, StrikeOut, ScaleX, ScaleY, Spacing, Angle, BorderStyle, Outline, Shadow, Alignment, MarginL, MarginR, MarginV, Encoding\nStyle: Default,Noto Sans,100,&H00FFFFFF,&H00FFFF00,&H00002208,&H7F000000,0,0,0,0,100,100,0,0,1,5,1.5,2,96,96,65,1\n\n[Events]\nFormat: Layer, Start, End, Style, Name, MarginL, MarginR, MarginV, Effect, Text\n"
}

/// The nearest centisecond to a millisecond offset, half rounded up.
pub open spec fn spec_centi_of(ms: nat) -> nat {
    ms / 10 + if ms % 10 >= 5 { 1nat } else { 0nat }
}

/// A millisecond offset in the native target's clock notation:
/// hours (no padding), minutes, seconds, and centiseconds, the last
/// three zero-padded to two digits. The odd millisecond rounds to the
/// nearest centisecond, half up.
pub open spec fn spec_ass_time(ms: nat) -> Seq<char> {
    let cs = spec_centi_of(ms);
    dec_string(cs / 360000) + ":"@ + padded2_string(cs / 6000 % 60) + ":"@
        + padded2_string(cs / 100 % 60) + "."@ + padded2_string(cs % 100)
}

/// Renders a millisecond offset in the native target's clock notation.
pub fn format_ass_time(ms: u64) -> (r: String)
    ensures
        r@ == spec_ass_time(ms as nat),
{
    proof {
        reveal_strlit(":");
        reveal_strlit(".");
    }
    let cs: u64 = ms / 10 + if ms % 10 >= 5 { 1 } else { 0 };
    let mut out = u64_to_string(cs / 360000);
    out.append(":");
    let m = u64_to_padded2_string(cs / 6000 % 60);
    out.append(m.as_str());
    out.append(":");
    let s = u64_to_padded2_string(cs / 100 % 60);
    out.append(s.as_str());
    out.append(".");
    let c = u64_to_padded2_string(cs % 100);
    out.append(c.as_str());
    out
}

/// Cue text with embedded newline sequences replaced by the native
/// target's two-character line-break marker: a CRLF pair is one break,
/// as is a lone line feed.
pub open spec fn normalize_newlines(s: Seq<char>) -> Seq<char>
    decreases s.len(),
{
    if s.len() == 0 {
        Seq::empty()
    } else if s.len() >= 2 && s[0] == '\r' && s[1] == '\n' {
        seq!['\\', 'N'] + normalize_newlines(s.skip(2))
    } else if s[0] == '\n' {
        seq!['\\', 'N'] + normalize_newlines(s.skip(1))
    } else {
        seq![s[0]] + normalize_newlines(s.skip(1))
    }
}

/// Replaces newline sequences in cue text by the native target's
/// line-break marker.
pub fn normalize_text(s: &str) -> (r: String)
    ensures
        r@ == normalize_newlines(s@),
{
    let len = s.unicode_len();
    let mut out = String::new();
    let mut i: usize = 0;
    proof {
        assert(s@.skip(0) =~= s@);
        assert(out@ + normalize_newlines(s@.skip(0)) =~= normalize_newlines(s@));
        reveal_strlit("\\N");
        assert("\\N"@ =~= seq!['\\', 'N']);
    }
    while i < len
        invariant
            i <= len,
            len == s@.len(),
            out@ + normalize_newlines(s@.skip(i as int)) == normalize_newlines(s@),
        decreases len - i,
    {
        let ghost tail = s@.skip(i as int);
        proof {
            assert(tail[0] == s@[i as int]);
            if i + 1 < len {
                assert(tail[1] == s@[i + 1]);
            }
            assert(tail.skip(1) =~= s@.skip(i + 1));
            if i + 2 <= len {
                assert(tail.skip(2) =~= s@.skip(i + 2));
            }
            reveal_strlit("\\N");
            assert("\\N"@ =~= seq!['\\', 'N']);
        }
        let c = s.get_char(i);
        if c == '\r' && i + 1 < len && s.get_char(i + 1) == '\n' {
            out.append("\\N");
            i = i + 2;
        } else if c == '\n' {
            out.append("\\N");
            i = i + 1;
        } else {
            let piece = s.substring_char(i, i + 1);
            proof {
                assert(piece@ =~= seq![s@[i as int]]);
            }
            out.append(piece);
            i = i + 1;
        }
    }
    proof {
        assert(s@.skip(len as int).len() == 0);
        assert(out@ + Seq::<char>::empty() =~= out@);
    }
    out
}

/// One cue as a native-target event line: layer zero, the two clock
/// stamps, the fixed style, empty actor and effect fields, zero
/// margins, and the normalized text.
#[verifier::opaque]
pub open spec fn spec_dialogue_line(c: SubtitleCueV) -> Seq<char> {
    "Dialogue: 0,"@ + spec_ass_time(c.start_ms as nat) + ","@ + spec_ass_time(c.end_ms as nat)
        + ",Default,,0,0,0,,"@ + normalize_newlines(c.text)
}

/// The event lines of a document, each ended by a newline.
pub open spec fn spec_dialogue_block(cues: Seq<SubtitleCueV>) -> Seq<char>
    decreases cues.len(),
{
    if cues.len() == 0 {
        Seq::empty()
    } else {
        spec_dialogue_line(cues[0]) + seq!['\n'] + spec_dialogue_block(cues.skip(1))
    }
}

/// A whole document in the native target syntax: the fixed preamble
/// followed by one event line per cue, in cue order.
pub open spec fn spec_ass_text(cues: Seq<SubtitleCueV>) -> Seq<char> {
    spec_ass_header() + spec_dialogue_block(cues)
}

impl SubtitleDocument {
    /// Serializes the pivot document in the native target syntax, with
    /// the pipeline's fixed presentation profile.
    #[verifier::rlimit(60)]
    pub fn to_ass_text(&self) -> (r: String)
        ensures
            r@ == spec_ass_text(self@.cues),
    {
        let ghost cues = self@.cues;
        let mut out = ass_header().to_owned();
        let mut i: usize = 0;
        proof {
            assert(cues =~= cue_view(self.cues@));
            assert(cues.skip(0) =~= cues);
            reveal_strlit("Dialogue: 0,");
            reveal_strlit(",");
            reveal_strlit(",Default,,0,0,0,,");
            reveal_strlit("\n");
        }
        while i < self.cues.len()
            invariant
                i <= cues.len(),
                cues.len() == self.cues@.len(),
                cues == cue_view(self.cues@),
                out@ + spec_dialogue_block(cues.skip(i as int)) == spec_ass_text(cues),
            decreases cues.len() - i,
        {
            let c = &self.cues[i];
            proof {
                reveal(spec_dialogue_line);
                assert(cues[i as int] == c@);
                assert(cues.skip(i as int)[0] == cues[i as int]);
                assert(cues.skip(i as int).skip(1) =~= cues.skip(i + 1));
                reveal_strlit("\n");
                assert("\n"@ =~= seq!['\n']);
            }
            out.append("Dialogue: 0,");
            let start = format_ass_time(c.start_ms);
            out.append(start.as_str());
            out.append(",");
            let end = format_ass_time(c.end_ms);
            out.append(end.as_str());
            out.append(",Default,,0,0,0,,");
            let text = normalize_text(c.text.as_str());
            out.append(text.as_str());
            out.append("\n");
            i = i + 1;
        }
        proof {
            assert(spec_dialogue_block(cues.skip(cues.len() as int)) =~= Seq::<char>::empty());
            assert(out@ + Seq::<char>::empty() =~= out@);
        }
        out
    }
}

// ---------------------------------------------------------------------------
// The native target syntax: parsing
// ---------------------------------------------------------------------------

/// Cue text with the native target's line-break marker turned back into
/// newlines.
pub open spec fn restore_newlines(s: Seq<char>) -> Seq<char>
    decreases s.len(),
{
    if s.len() == 0 {
        Seq::empty()
    } else if s.len() >= 2 && s[0] == '\\' && s[1] == 'N' {
        seq!['\n'] + restore_newlines(s.skip(2))
    } else {
        seq![s[0]] + restore_newlines(s.skip(1))
    }
}

/// Replaces the native target's line-break marker by newlines.
pub fn restore_text(s: &str) -> (r: String)
    ensures
        r@ == restore_newlines(s@),
{
    let len = s.unicode_len();
    let mut out = String::new();
    let mut i: usize = 0;
    proof {
        assert(s@.skip(0) =~= s@);
        assert(out@ + restore_newlines(s@.skip(0)) =~= restore_newlines(s@));
    }
    while i < len
        invariant
            i <= len,
            len == s@.len(),
            out@ + restore_newlines(s@.skip(i as int)) == restore_newlines(s@),
        decreases len - i,
    {
        let ghost tail = s@.skip(i as int);
        proof {
            assert(tail[0] == s@[i as int]);
            if i + 1 < len {
                assert(tail[1] == s@[i + 1]);
            }
            assert(tail.skip(1) =~= s@.skip(i + 1));
            if i + 2 <= len {
                assert(tail.skip(2) =~= s@.skip(i + 2));
            }
        }
        let c = s.get_char(i);
        if c == '\\' && i + 1 < len && s.get_char(i + 1) == 'N' {
            proof {
                reveal_strlit("\n");
                assert("\n"@ =~= seq!['\n']);
            }
            out.append("\n");
            i = i + 2;
        } else {
            let piece = s.substring_char(i, i + 1);
            proof {
                assert(piece@ =~= seq![s@[i as int]]);
            }
            out.append(piece);
            i = i + 1;
        }
    }
    proof {
        assert(s@.skip(len as int).len() == 0);
        assert(out@ + Seq::<char>::empty() =~= out@);
    }
    out
}

/// The lines of a text, split at each newline; the separators are not
/// part of any line.
pub open spec fn spec_split_lines(s: Seq<char>) -> Seq<Seq<char>>
    decreases s.len(),
{
    let i = crate::text::spec_find_char(s, '\n');
    if i < 0 || i >= s.len() {
        seq![s]
    } else {
        seq![s.take(i)] + spec_split_lines(s.skip(i + 1))
    }
}

/// The view of a vector of lines.
pub open spec fn lines_view(v: Seq<String>) -> Seq<Seq<char>> {
    v.map_values(|x: String| x@)
}

/// Splits a text into its lines.
fn split_lines(s: &str) -> (r: Vec<String>)
    ensures
        lines_view(r@) == spec_split_lines(s@),
{
    let mut acc: Vec<String> = Vec::new();
    let mut rest = s.to_owned();
    proof {
        assert(lines_view(acc@) + spec_split_lines(rest@) =~= spec_split_lines(s@));
    }
    loop
        invariant_except_break
            lines_view(acc@) + spec_split_lines(rest@) == spec_split_lines(s@),
        ensures
            lines_view(acc@) == spec_split_lines(s@),
        decreases rest@.len(),
    {
        let ghost prev_acc = acc@;
        let ghost prev_rest = rest@;
        match crate::text::split_at_char(rest.as_str(), '\n') {
            Some(p) => {
                proof {
                    crate::text::lemma_find_char_range(prev_rest, '\n');
                }
                let (line, r2) = p;
                acc.push(line);
                rest = r2;
                proof {
                    assert(forall|m: int| 0 <= m < prev_acc.len() ==> acc@[m] == prev_acc[m]);
                    assert(lines_view(acc@) =~= lines_view(prev_acc).push(acc@[prev_acc.len() as int]@)) by {
                        assert(forall|m: int| 0 <= m <= prev_acc.len()
                            ==> #[trigger] lines_view(acc@)[m] == acc@[m]@);
                        assert(forall|m: int| 0 <= m < prev_acc.len()
                            ==> #[trigger] lines_view(prev_acc)[m] == prev_acc[m]@);
                    }
                    let i = crate::text::spec_find_char(prev_rest, '\n');
                    assert(spec_split_lines(prev_rest)
                        == seq![prev_rest.take(i)] + spec_split_lines(prev_rest.skip(i + 1)));
                    assert(lines_view(prev_acc).push(prev_rest.take(i)) + spec_split_lines(rest@)
                        =~= lines_view(prev_acc) + (seq![prev_rest.take(i)] + spec_split_lines(rest@)));
                }
            },
            None => {
                proof {
                    crate::text::lemma_find_char_range(prev_rest, '\n');
                    assert(spec_split_lines(prev_rest) == seq![prev_rest]);
                }
                acc.push(rest);
                proof {
                    assert(forall|m: int| 0 <= m < prev_acc.len() ==> acc@[m] == prev_acc[m]);
                    assert(lines_view(acc@) =~= lines_view(prev_acc).push(prev_rest)) by {
                        assert(forall|m: int| 0 <= m <= prev_acc.len()
                            ==> #[trigger] lines_view(acc@)[m] == acc@[m]@);
                        assert(forall|m: int| 0 <= m < prev_acc.len()
                            ==> #[trigger] lines_view(prev_acc)[m] == prev_acc[m]@);
                    }
                    assert(lines_view(prev_acc).push(prev_rest)
                        =~= lines_view(prev_acc) + seq![prev_rest]);
                    assert(lines_view(acc@) =~= spec_split_lines(s@));
                }
                break;
            },
        }
    }
    acc
}

/// A clock stamp of the native target, read back into milliseconds:
/// `H:MM:SS.CC` with any number of digits in each field, the last field
/// counted in centiseconds. A stamp that is malformed or beyond the
/// millisecond range is rejected.
pub open spec fn spec_parse_ass_time(t: Seq<char>) -> Option<int> {
    let c1 = crate::text::spec_find_char(t, ':');
    if c1 < 0 {
        None
    } else {
        let h = t.take(c1);
        let rest1 = t.skip(c1 + 1);
        let c2 = crate::text::spec_find_char(rest1, ':');
        if c2 < 0 {
            None
        } else {
            let m = rest1.take(c2);
            let rest2 = rest1.skip(c2 + 1);
            let d = crate::text::spec_find_char(rest2, '.');
            if d < 0 {
                None
            } else {
                let sec = rest2.take(d);
                let cs = rest2.skip(d + 1);
                spec_parse_time_fields(h, m, sec, cs)
            }
        }
    }
}

/// Reads a clock stamp of the native target back into milliseconds.
pub fn parse_ass_time(t: &str) -> (r: Option<u64>)
    ensures
        match r {
            Some(v) => spec_parse_ass_time(t@) == Some(v as int),
            None => spec_parse_ass_time(t@) is None,
        },
{
    let p1 = match crate::text::split_at_char(t, ':') {
        Some(p) => p,
        None => {
            return None;
        },
    };
    let (h_txt, rest1) = p1;
    let p2 = match crate::text::split_at_char(rest1.as_str(), ':') {
        Some(p) => p,
        None => {
            return None;
        },
    };
    let (m_txt, rest2) = p2;
    let p3 = match crate::text::split_at_char(rest2.as_str(), '.') {
        Some(p) => p,
        None => {
            return None;
        },
    };
    let (s_txt, cs_txt) = p3;
    let h = match crate::text::parse_digits(h_txt.as_str()) {
        Some(v) => v,
        None => {
            proof {
                lemma_time_field_overflow(h_txt@, m_txt@, s_txt@, cs_txt@);
            }
            return None;
        },
    };
    let m = match crate::text::parse_digits(m_txt.as_str()) {
        Some(v) => v,
        None => {
            proof {
                lemma_time_field_overflow(h_txt@, m_txt@, s_txt@, cs_txt@);
            }
            return None;
        },
    };
    let sec = match crate::text::parse_digits(s_txt.as_str()) {
        Some(v) => v,
        None => {
            proof {
                lemma_time_field_overflow(h_txt@, m_txt@, s_txt@, cs_txt@);
            }
            return None;
        },
    };
    let cs = match crate::text::parse_digits(cs_txt.as_str()) {
        Some(v) => v,
        None => {
            proof {
                lemma_time_field_overflow(h_txt@, m_txt@, s_txt@, cs_txt@);
            }
            return None;
        },
    };
    let total = match checked_time_value(h, m, sec, cs) {
        Some(v) => v,
        None => {
            proof {
                lemma_time_field_overflow(h_txt@, m_txt@, s_txt@, cs_txt@);
            }
            return None;
        },
    };
    Some(total)
}

/// The millisecond value of four clock fields, or nothing when it
/// exceeds the millisecond range.
fn checked_time_value(h: u64, m: u64, s: u64, cs: u64) -> (r: Option<u64>)
    ensures
        match r {
            Some(v) => v as int == ((h * 60 + m) * 60 + s) * 1000 + cs * 10,
            None => ((h * 60 + m) * 60 + s) * 1000 + cs * 10 > u64::MAX,
        },
{
    let hm = match h.checked_mul(60) {
        Some(x) => match x.checked_add(m) {
            Some(y) => y,
            None => {
                proof {
                    lemma_time_value_grows(h as int, m as int, s as int, cs as int);
                }
                return None;
            },
        },
        None => {
            proof {
                lemma_time_value_grows(h as int, m as int, s as int, cs as int);
            }
            return None;
        },
    };
    let hms = match hm.checked_mul(60) {
        Some(x) => match x.checked_add(s) {
            Some(y) => y,
            None => {
                proof {
                    lemma_time_value_grows(h as int, m as int, s as int, cs as int);
                }
                return None;
            },
        },
        None => {
            proof {
                lemma_time_value_grows(h as int, m as int, s as int, cs as int);
            }
            return None;
        },
    };
    let base = match hms.checked_mul(1000) {
        Some(x) => x,
        None => {
            proof {
                lemma_time_value_grows(h as int, m as int, s as int, cs as int);
            }
            return None;
        },
    };
    let cs10 = match cs.checked_mul(10) {
        Some(x) => x,
        None => {
            proof {
                lemma_time_value_grows(h as int, m as int, s as int, cs as int);
            }
            return None;
        },
    };
    match base.checked_add(cs10) {
        Some(v) => Some(v),
        None => None,
    }
}

/// The millisecond value of a clock stamp dominates each of its partial
/// sums, so an overflow anywhere means the whole value is out of range.
proof fn lemma_time_value_grows(h: int, m: int, s: int, cs: int)
    requires
        h >= 0,
        m >= 0,
        s >= 0,
        cs >= 0,
    ensures
        ((h * 60 + m) * 60 + s) * 1000 + cs * 10 >= h * 60 + m,
        ((h * 60 + m) * 60 + s) * 1000 + cs * 10 >= (h * 60 + m) * 60 + s,
        ((h * 60 + m) * 60 + s) * 1000 + cs * 10 >= h * 60,
        ((h * 60 + m) * 60 + s) * 1000 + cs * 10 >= cs * 10,
        ((h * 60 + m) * 60 + s) * 1000 + cs * 10 >= ((h * 60 + m) * 60 + s) * 1000,
{
    assert(((h * 60 + m) * 60 + s) * 1000 + cs * 10 >= (h * 60 + m) * 60 + s >= h * 60 + m >= h * 60
        && ((h * 60 + m) * 60 + s) * 1000 + cs * 10 >= cs * 10
        && ((h * 60 + m) * 60 + s) * 1000 + cs * 10 >= ((h * 60 + m) * 60 + s) * 1000)
        by (nonlinear_arith)
        requires
            h >= 0,
            m >= 0,
            s >= 0,
            cs >= 0,
    ;
}

/// When one clock field cannot be read as a machine ordinal, either the
/// stamp is malformed or its value is out of range: in both cases the
/// stamp is rejected.
proof fn lemma_time_field_overflow(h: Seq<char>, m: Seq<char>, s: Seq<char>, cs: Seq<char>)
    requires
        !(crate::text::valid_digits(h) && crate::text::valid_digits(m)
            && crate::text::valid_digits(s) && crate::text::valid_digits(cs))
        || ((crate::text::digits_value(h) * 60 + crate::text::digits_value(m)) * 60
            + crate::text::digits_value(s)) * 1000 + crate::text::digits_value(cs) * 10 > u64::MAX,
    ensures
        spec_parse_time_fields(h, m, s, cs) is None,
{
    if crate::text::all_digits(h) && crate::text::all_digits(m)
        && crate::text::all_digits(s) && crate::text::all_digits(cs)
        && h.len() > 0 && m.len() > 0 && s.len() > 0 && cs.len() > 0 {
        crate::text::lemma_digits_value_nonneg(h);
        crate::text::lemma_digits_value_nonneg(m);
        crate::text::lemma_digits_value_nonneg(s);
        crate::text::lemma_digits_value_nonneg(cs);
        let vh = crate::text::digits_value(h);
        let vm = crate::text::digits_value(m);
        let vs = crate::text::digits_value(s);
        let vcs = crate::text::digits_value(cs);
        if vh > u64::MAX || vm > u64::MAX || vs > u64::MAX || vcs > u64::MAX {
            assert(((vh * 60 + vm) * 60 + vs) * 1000 + vcs * 10 > u64::MAX) by (nonlinear_arith)
                requires
                    vh >= 0,
                    vm >= 0,
                    vs >= 0,
                    vcs >= 0,
                    vh > u64::MAX || vm > u64::MAX || vs > u64::MAX || vcs > u64::MAX,
            ;
        }
    }
}

/// What a clock stamp denotes, given its four fields.
pub open spec fn spec_parse_time_fields(h: Seq<char>, m: Seq<char>, s: Seq<char>, cs: Seq<char>) -> Option<int> {
    if h.len() > 0 && crate::text::all_digits(h)
        && m.len() > 0 && crate::text::all_digits(m)
        && s.len() > 0 && crate::text::all_digits(s)
        && cs.len() > 0 && crate::text::all_digits(cs) {
        let v = ((crate::text::digits_value(h) * 60 + crate::text::digits_value(m)) * 60
            + crate::text::digits_value(s)) * 1000 + crate::text::digits_value(cs) * 10;
        if v <= u64::MAX {
            Some(v)
        } else {
            None
        }
    } else {
        None
    }
}

/// What is left of an event line after dropping `n` comma-separated
/// fields, or nothing if a comma is missing.
pub open spec fn spec_skip_fields(s: Seq<char>, n: nat) -> Option<Seq<char>>
    decreases n,
{
    if n == 0 {
        Some(s)
    } else {
        let i = crate::text::spec_find_char(s, ',');
        if i < 0 {
            None
        } else {
            spec_skip_fields(s.skip(i + 1), (n - 1) as nat)
        }
    }
}

/// Drops `n` comma-separated fields from the front of an event line.
fn skip_fields(s: String, n: usize) -> (r: Option<String>)
    ensures
        match r {
            Some(t) => spec_skip_fields(s@, n as nat) == Some(t@),
            None => spec_skip_fields(s@, n as nat) is None,
        },
{
    let mut rest = s;
    let mut k: usize = n;
    loop
        invariant_except_break
            k <= n,
            spec_skip_fields(rest@, k as nat) is Some
                ==> spec_skip_fields(s@, n as nat) == spec_skip_fields(rest@, k as nat),
            spec_skip_fields(rest@, k as nat) is None
                ==> spec_skip_fields(s@, n as nat) is None,
        ensures
            spec_skip_fields(s@, n as nat) == Some(rest@),
        decreases k,
    {
        if k == 0 {
            proof {
                assert(spec_skip_fields(rest@, 0) == Some(rest@));
            }
            break;
        }
        match crate::text::split_at_char(rest.as_str(), ',') {
            None => {
                proof {
                    assert(spec_skip_fields(rest@, k as nat) is None);
                }
                return None;
            },
            Some(p) => {
                proof {
                    crate::text::lemma_find_char_range(rest@, ',');
                    assert(spec_skip_fields(rest@, k as nat)
                        == spec_skip_fields(p.1@, (k - 1) as nat));
                }
                rest = p.1;
                k = k - 1;
            },
        }
    }
    Some(rest)
}

/// The start stamp, end stamp, and text an event line of the native
/// target denotes, once its `Dialogue: ` prefix is dropped: the layer
/// field, the two stamps, and six more fields separated by commas, then
/// the text, whose line-break markers become newlines again.
pub open spec fn spec_parse_dialogue_rest(rest: Seq<char>) -> Option<(int, int, Seq<char>)> {
    let c0 = crate::text::spec_find_char(rest, ',');
    if c0 < 0 {
        None
    } else {
        let r1 = rest.skip(c0 + 1);
        let c1 = crate::text::spec_find_char(r1, ',');
        if c1 < 0 {
            None
        } else {
            let start_txt = r1.take(c1);
            let r2 = r1.skip(c1 + 1);
            let c2 = crate::text::spec_find_char(r2, ',');
            if c2 < 0 {
                None
            } else {
                let end_txt = r2.take(c2);
                let r3 = r2.skip(c2 + 1);
                match spec_skip_fields(r3, 6) {
                    None => None,
                    Some(raw) => match (spec_parse_ass_time(start_txt), spec_parse_ass_time(end_txt)) {
                        (Some(b), Some(e)) => Some((b, e, restore_newlines(raw))),
                        _ => None,
                    },
                }
            }
        }
    }
}

/// Reads one event line of the native target, without its prefix.
fn parse_dialogue_rest(rest: &str) -> (r: Option<(u64, u64, String)>)
    ensures
        match r {
            Some(t) => spec_parse_dialogue_rest(rest@) == Some((t.0 as int, t.1 as int, t.2@)),
            None => spec_parse_dialogue_rest(rest@) is None,
        },
{
    let p0 = match crate::text::split_at_char(rest, ',') {
        Some(p) => p,
        None => {
            return None;
        },
    };
    let r1 = p0.1;
    let p1 = match crate::text::split_at_char(r1.as_str(), ',') {
        Some(p) => p,
        None => {
            return None;
        },
    };
    let (start_txt, r2) = p1;
    let p2 = match crate::text::split_at_char(r2.as_str(), ',') {
        Some(p) => p,
        None => {
            return None;
        },
    };
    let (end_txt, r3) = p2;
    let raw = match skip_fields(r3, 6) {
        Some(t) => t,
        None => {
            return None;
        },
    };
    let start = match parse_ass_time(start_txt.as_str()) {
        Some(v) => v,
        None => {
            return None;
        },
    };
    let end = match parse_ass_time(end_txt.as_str()) {
        Some(v) => v,
        None => {
            return None;
        },
    };
    let text = restore_text(raw.as_str());
    Some((start, end, text))
}

/// Whether a line is an event line.
pub open spec fn is_dialogue_line(l: Seq<char>) -> bool {
    l.len() >= "Dialogue: "@.len() && l.take("Dialogue: "@.len() as int) == "Dialogue: "@
}

/// The cues a sequence of lines denotes: every event line in order,
/// other lines ignored; one bad event line rejects the whole document.
pub open spec fn spec_parse_lines(lines: Seq<Seq<char>>) -> Option<Seq<(int, int, Seq<char>)>>
    decreases lines.len(),
{
    if lines.len() == 0 {
        Some(Seq::empty())
    } else {
        let rest = spec_parse_lines(lines.skip(1));
        if is_dialogue_line(lines[0]) {
            match spec_parse_dialogue_rest(lines[0].skip("Dialogue: "@.len() as int)) {
                None => None,
                Some(t) => match rest {
                    None => None,
                    Some(r) => Some(seq![t] + r),
                },
            }
        } else {
            rest
        }
    }
}

/// The cues a native-target document denotes.
pub open spec fn spec_parse_ass(s: Seq<char>) -> Option<Seq<(int, int, Seq<char>)>> {
    spec_parse_lines(spec_split_lines(s))
}

impl SubtitleDocument {
    /// Parses a native-target document back into the pivot: one cue per
    /// event line, in line order; every other line is ignored. A
    /// malformed event line fails with `CodecFailure`.
    pub fn from_ass_text(s: &str) -> (r: Result<SubtitleDocument, Error>)
        ensures
            match r {
                Ok(doc) => {
                    &&& spec_parse_ass(s@) is Some
                    &&& doc@.cues.len() == spec_parse_ass(s@)->Some_0.len()
                    &&& forall|k: int| 0 <= k < doc@.cues.len()
                        ==> (#[trigger] doc@.cues[k]).start_ms as int == spec_parse_ass(s@)->Some_0[k].0
                            && doc@.cues[k].end_ms as int == spec_parse_ass(s@)->Some_0[k].1
                            && doc@.cues[k].text == spec_parse_ass(s@)->Some_0[k].2
                },
                Err(e) => e == Error::Subtitle(SubtitleError::CodecFailure)
                    && spec_parse_ass(s@) is None,
            },
    {
        let lines = split_lines(s);
        let ghost lv = lines_view(lines@);
        let mut cues: Vec<SubtitleCue> = Vec::new();
        let mut i: usize = 0;
        proof {
            assert(lv.skip(0) =~= lv);
            assert(cue_triples(cue_view(cues@)).len() == 0);
        }
        while i < lines.len()
            invariant
                i <= lv.len(),
                lv.len() == lines@.len(),
                lv == lines_view(lines@),
                lv == spec_split_lines(s@),
                spec_parse_lines(lv) is Some <==> spec_parse_lines(lv.skip(i as int)) is Some,
                spec_parse_lines(lv) is Some ==> spec_parse_lines(lv)->Some_0
                    =~= cue_triples(cue_view(cues@)) + spec_parse_lines(lv.skip(i as int))->Some_0,
            decreases lv.len() - i,
        {
            let line = &lines[i];
            proof {
                assert(lv[i as int] == line@);
                assert(lv.skip(i as int)[0] == lv[i as int]);
                assert(lv.skip(i as int).skip(1) =~= lv.skip(i + 1));
            }
            let prefix = "Dialogue: ";
            if crate::text::starts_with(line.as_str(), prefix) {
                let n = prefix.unicode_len();
                let len = line.as_str().unicode_len();
                let restl = line.as_str().substring_char(n, len);
                proof {
                    assert(restl@ =~= line@.skip("Dialogue: "@.len() as int));
                }
                match parse_dialogue_rest(restl) {
                    None => {
                        proof {
                            assert(is_dialogue_line(lv[i as int]));
                            assert(spec_parse_dialogue_rest(
                                lv[i as int].skip("Dialogue: "@.len() as int)) is None);
                            assert(spec_parse_lines(lv.skip(i as int)) is None);
                            assert(spec_parse_lines(lv) is None);
                            assert(spec_parse_ass(s@) is None);
                        }
                        return Err(Error::Subtitle(SubtitleError::CodecFailure));
                    },
                    Some(t) => {
                        let ghost t3 = (t.0 as int, t.1 as int, t.2@);
                        let (start_ms, end_ms, text) = t;
                        let ghost prev = cues@;
                        cues.push(SubtitleCue { start_ms, end_ms, text });
                        proof {
                            assert(forall|m: int| 0 <= m < prev.len() ==> cues@[m] == prev[m]);
                            assert(forall|m: int| 0 <= m <= prev.len()
                                ==> #[trigger] cue_view(cues@)[m] == cues@[m]@);
                            assert(forall|m: int| 0 <= m < prev.len()
                                ==> #[trigger] cue_view(prev)[m] == prev[m]@);
                            assert(cues@[prev.len() as int]@.start_ms as int == t3.0);
                            assert(cue_triples(cue_view(cues@))
                                =~= cue_triples(cue_view(prev)).push(t3)) by {
                                assert(forall|m: int| 0 <= m <= prev.len()
                                    ==> #[trigger] cue_triples(cue_view(cues@))[m]
                                        == (cue_view(cues@)[m].start_ms as int,
                                            cue_view(cues@)[m].end_ms as int,
                                            cue_view(cues@)[m].text));
                                assert(forall|m: int| 0 <= m < prev.len()
                                    ==> #[trigger] cue_triples(cue_view(prev))[m]
                                        == (cue_view(prev)[m].start_ms as int,
                                            cue_view(prev)[m].end_ms as int,
                                            cue_view(prev)[m].text));
                            }
                            assert(spec_parse_dialogue_rest(lv[i as int].skip("Dialogue: "@.len() as int))
                                == Some(t3));
                            if spec_parse_lines(lv) is Some {
                                let b = spec_parse_lines(lv.skip(i + 1))->Some_0;
                                assert(spec_parse_lines(lv.skip(i as int))->Some_0 =~= seq![t3] + b);
                                assert(cue_triples(cue_view(prev)).push(t3) + b
                                    =~= cue_triples(cue_view(prev)) + (seq![t3] + b));
                            }
                        }
                    },
                }
            }
            i = i + 1;
        }
        proof {
            assert(lv.skip(lv.len() as int).len() == 0);
            assert(spec_parse_lines(lv.skip(lv.len() as int)) == Some(Seq::<(int, int, Seq<char>)>::empty()));
        }
        let doc = SubtitleDocument { cues };
        proof {
            let ts = spec_parse_lines(lv)->Some_0;
            assert(ts =~= cue_triples(cue_view(cues@)) + Seq::<(int, int, Seq<char>)>::empty());
            assert(ts =~= cue_triples(cue_view(cues@)));
            assert(doc@.cues =~= cue_view(doc.cues@));
            assert forall|k: int| 0 <= k < doc@.cues.len()
                implies (#[trigger] doc@.cues[k]).start_ms as int == ts[k].0
                    && doc@.cues[k].end_ms as int == ts[k].1
                    && doc@.cues[k].text == ts[k].2 by {
                assert(cue_triples(cue_view(cues@))[k]
                    == (cue_view(cues@)[k].start_ms as int,
                        cue_view(cues@)[k].end_ms as int,
                        cue_view(cues@)[k].text));
            }
        }
        Ok(doc)
    }
}

/// The stamp-and-text triples of a cue sequence.
pub open spec fn cue_triples(cues: Seq<SubtitleCueV>) -> Seq<(int, int, Seq<char>)> {
    cues.map_values(|c: SubtitleCueV| (c.start_ms as int, c.end_ms as int, c.text))
}

/// The cues a sequence of stamp-and-text triples denotes. Only
/// meaningful when every stamp is in millisecond range.
pub open spec fn cues_of_triples(ts: Seq<(int, int, Seq<char>)>) -> Seq<SubtitleCueV> {
    ts.map_values(|t: (int, int, Seq<char>)| SubtitleCueV {
        start_ms: t.0 as u64,
        end_ms: t.1 as u64,
        text: t.2,
    })
}

/// Every stamp read out of a native-target document lies in the
/// millisecond range.
pub proof fn lemma_parse_lines_bounds(lines: Seq<Seq<char>>)
    requires
        spec_parse_lines(lines) is Some,
    ensures
        forall|k: int| 0 <= k < spec_parse_lines(lines)->Some_0.len()
            ==> 0 <= (#[trigger] spec_parse_lines(lines)->Some_0[k]).0 <= u64::MAX
                && 0 <= spec_parse_lines(lines)->Some_0[k].1 <= u64::MAX,
    decreases lines.len(),
{
    if lines.len() > 0 {
        lemma_parse_lines_bounds(lines.skip(1));
        let rest = spec_parse_lines(lines.skip(1))->Some_0;
        if is_dialogue_line(lines[0]) {
            let t = spec_parse_dialogue_rest(lines[0].skip("Dialogue: "@.len() as int))->Some_0;
            lemma_parse_dialogue_bounds(lines[0].skip("Dialogue: "@.len() as int));
            assert forall|k: int| 0 <= k < spec_parse_lines(lines)->Some_0.len()
                implies 0 <= (#[trigger] spec_parse_lines(lines)->Some_0[k]).0 <= u64::MAX
                    && 0 <= spec_parse_lines(lines)->Some_0[k].1 <= u64::MAX by {
                if k == 0 {
                    assert(spec_parse_lines(lines)->Some_0[0] == t);
                } else {
                    assert(spec_parse_lines(lines)->Some_0[k] == rest[k - 1]);
                }
            }
        }
    }
}

/// Every stamp read out of one event line lies in the millisecond
/// range.
proof fn lemma_parse_dialogue_bounds(rest: Seq<char>)
    requires
        spec_parse_dialogue_rest(rest) is Some,
    ensures
        0 <= spec_parse_dialogue_rest(rest)->Some_0.0 <= u64::MAX,
        0 <= spec_parse_dialogue_rest(rest)->Some_0.1 <= u64::MAX,
{
    let c0 = crate::text::spec_find_char(rest, ',');
    let r1 = rest.skip(c0 + 1);
    let c1 = crate::text::spec_find_char(r1, ',');
    let start_txt = r1.take(c1);
    let r2 = r1.skip(c1 + 1);
    let c2 = crate::text::spec_find_char(r2, ',');
    let end_txt = r2.take(c2);
    lemma_parse_time_nonneg(start_txt);
    lemma_parse_time_nonneg(end_txt);
}

/// A clock stamp that parses denotes a non-negative value.
proof fn lemma_parse_time_nonneg(t: Seq<char>)
    requires
        spec_parse_ass_time(t) is Some,
    ensures
        0 <= spec_parse_ass_time(t)->Some_0 <= u64::MAX,
{
    let c1 = crate::text::spec_find_char(t, ':');
    let h = t.take(c1);
    let rest1 = t.skip(c1 + 1);
    let c2 = crate::text::spec_find_char(rest1, ':');
    let m = rest1.take(c2);
    let rest2 = rest1.skip(c2 + 1);
    let d = crate::text::spec_find_char(rest2, '.');
    let sec = rest2.take(d);
    let cs = rest2.skip(d + 1);
    crate::text::lemma_digits_value_nonneg(h);
    crate::text::lemma_digits_value_nonneg(m);
    crate::text::lemma_digits_value_nonneg(sec);
    crate::text::lemma_digits_value_nonneg(cs);
    let vh = crate::text::digits_value(h);
    let vm = crate::text::digits_value(m);
    let vs = crate::text::digits_value(sec);
    let vcs = crate::text::digits_value(cs);
    assert(((vh * 60 + vm) * 60 + vs) * 1000 + vcs * 10 >= 0) by (nonlinear_arith)
        requires
            vh >= 0,
            vm >= 0,
            vs >= 0,
            vcs >= 0,
    ;
}

// ---------------------------------------------------------------------------
// SRT emission
// ---------------------------------------------------------------------------

/// Decimal rendering padded on the left with '0' to at least three
/// characters.
pub open spec fn padded3_string(n: nat) -> Seq<char> {
    if n < 10 {
        seq!['0', '0'] + dec_string(n)
    } else if n < 100 {
        seq!['0'] + dec_string(n)
    } else {
        dec_string(n)
    }
}

/// Renders a number in decimal, zero-padded to at least three digits.
pub fn u64_to_padded3_string(n: u64) -> (r: String)
    ensures
        r@ == padded3_string(n as nat),
{
    proof {
        reveal_strlit("00");
        reveal_strlit("0");
        assert("00"@ =~= seq!['0', '0']);
        assert("0"@ =~= seq!['0']);
    }
    if n < 10 {
        let mut out = ("00").to_owned();
        let d = u64_to_string(n);
        out.append(d.as_str());
        out
    } else if n < 100 {
        let mut out = ("0").to_owned();
        let d = u64_to_string(n);
        out.append(d.as_str());
        out
    } else {
        u64_to_string(n)
    }
}

/// A millisecond offset in SRT clock notation: two-digit hours, minutes
/// and seconds, a comma, and three-digit milliseconds.
pub open spec fn spec_srt_time(ms: nat) -> Seq<char> {
    padded2_string(ms / 3600000) + ":"@ + padded2_string(ms / 60000 % 60) + ":"@
        + padded2_string(ms / 1000 % 60) + ","@ + padded3_string(ms % 1000)
}

/// Renders a millisecond offset in SRT clock notation.
pub fn format_srt_time(ms: u64) -> (r: String)
    ensures
        r@ == spec_srt_time(ms as nat),
{
    proof {
        reveal_strlit(":");
        reveal_strlit(",");
    }
    let mut out = u64_to_padded2_string(ms / 3600000);
    out.append(":");
    let m = u64_to_padded2_string(ms / 60000 % 60);
    out.append(m.as_str());
    out.append(":");
    let s = u64_to_padded2_string(ms / 1000 % 60);
    out.append(s.as_str());
    out.append(",");
    let milli = u64_to_padded3_string(ms % 1000);
    out.append(milli.as_str());
    out
}

/// The SRT entries of a document from cue index `i` on, numbered from
/// `i + 1`: sequence number, the two clock stamps joined by an arrow,
/// the text, and a blank separator line.
pub open spec fn spec_srt_entries(cues: Seq<SubtitleCueV>, i: int) -> Seq<char>
    decreases cues.len() - i,
{
    if i < 0 || i >= cues.len() {
        Seq::empty()
    } else {
        dec_string((i + 1) as nat) + seq!['\n']
            + spec_srt_time(cues[i].start_ms as nat) + " --> "@
            + spec_srt_time(cues[i].end_ms as nat) + seq!['\n']
            + cues[i].text + seq!['\n', '\n']
            + spec_srt_entries(cues, i + 1)
    }
}

/// A whole document in SRT syntax.
pub open spec fn spec_srt_text(cues: Seq<SubtitleCueV>) -> Seq<char> {
    spec_srt_entries(cues, 0)
}

impl SubtitleDocument {
    /// Serializes the pivot document in SRT syntax, numbering cues from
    /// one.
    #[verifier::rlimit(60)]
    pub fn to_srt_text(&self) -> (r: String)
        ensures
            r@ == spec_srt_text(self@.cues),
    {
        let ghost cues = self@.cues;
        let mut out = String::new();
        let mut i: usize = 0;
        proof {
            assert(cues =~= cue_view(self.cues@));
            assert(out@ + spec_srt_entries(cues, 0) =~= spec_srt_entries(cues, 0));
            reveal_strlit("\n");
            reveal_strlit(" --> ");
            reveal_strlit("\n\n");
            assert("\n"@ =~= seq!['\n']);
            assert("\n\n"@ =~= seq!['\n', '\n']);
        }
        while i < self.cues.len()
            invariant
                i <= cues.len(),
                cues.len() == self.cues@.len(),
                cues == cue_view(self.cues@),
                out@ + spec_srt_entries(cues, i as int) == spec_srt_text(cues),
            decreases cues.len() - i,
        {
            let c = &self.cues[i];
            proof {
                assert(cues[i as int] == c@);
                reveal_strlit("\n");
                reveal_strlit(" --> ");
                reveal_strlit("\n\n");
                assert("\n"@ =~= seq!['\n']);
                assert("\n\n"@ =~= seq!['\n', '\n']);
            }
            let num = u64_to_string((i as u64) + 1);
            out.append(num.as_str());
            out.append("\n");
            let start = format_srt_time(c.start_ms);
            out.append(start.as_str());
            out.append(" --> ");
            let end = format_srt_time(c.end_ms);
            out.append(end.as_str());
            out.append("\n");
            out.append(c.text.as_str());
            out.append("\n\n");
            i = i + 1;
        }
        proof {
            assert(spec_srt_entries(cues, cues.len() as int) =~= Seq::<char>::empty());
            assert(out@ + Seq::<char>::empty() =~= out@);
        }
        out
    }
}

/// A millisecond offset in WebVTT clock notation: two-digit hours,
/// minutes and seconds, a dot, and three-digit milliseconds.
pub open spec fn spec_vtt_time(ms: nat) -> Seq<char> {
    padded2_string(ms / 3600000) + ":"@ + padded2_string(ms / 60000 % 60) + ":"@
        + padded2_string(ms / 1000 % 60) + "."@ + padded3_string(ms % 1000)
}

/// Renders a millisecond offset in WebVTT clock notation.
pub fn format_vtt_time(ms: u64) -> (r: String)
    ensures
        r@ == spec_vtt_time(ms as nat),
{
    proof {
        reveal_strlit(":");
        reveal_strlit(".");
    }
    let mut out = u64_to_padded2_string(ms / 3600000);
    out.append(":");
    let m = u64_to_padded2_string(ms / 60000 % 60);
    out.append(m.as_str());
    out.append(":");
    let s = u64_to_padded2_string(ms / 1000 % 60);
    out.append(s.as_str());
    out.append(".");
    let milli = u64_to_padded3_string(ms % 1000);
    out.append(milli.as_str());
    out
}

/// The WebVTT cue blocks of a document from cue index `i` on, numbered
/// from `i`: sequence number, the two clock stamps joined by an arrow,
/// the text, and a blank separator line.
pub open spec fn spec_vtt_entries(cues: Seq<SubtitleCueV>, i: int) -> Seq<char>
    decreases cues.len() - i,
{
    if i < 0 || i >= cues.len() {
        Seq::empty()
    } else {
        dec_string(i as nat) + seq!['\n']
            + spec_vtt_time(cues[i].start_ms as nat) + " --> "@
            + spec_vtt_time(cues[i].end_ms as nat) + seq!['\n']
            + cues[i].text + seq!['\n', '\n']
            + spec_vtt_entries(cues, i + 1)
    }
}

/// A whole document in WebVTT syntax: the signature block, the default
/// cue style of the fixed presentation profile, then one cue block per
/// cue, numbered from zero, in cue order.
pub open spec fn spec_vtt_text(cues: Seq<SubtitleCueV>) -> Seq<char> {
    "WEBVTT\n\nSTYLE\n::cue {\nfont-family: Noto Sans;\nfont-size: 100px;\ncolor: #FFFFFF;\nbackground-color: #000000;\n}\n\n"@
        + spec_vtt_entries(cues, 0)
}

impl SubtitleDocument {
    /// Serializes the pivot document in WebVTT syntax, numbering cues
    /// from one.
    #[verifier::rlimit(60)]
    pub fn to_vtt_text(&self) -> (r: String)
        ensures
            r@ == spec_vtt_text(self@.cues),
    {
        let ghost cues = self@.cues;
        let mut out = ("WEBVTT\n\nSTYLE\n::cue {\nfont-family: Noto Sans;\nfont-size: 100px;\ncolor: #FFFFFF;\nbackground-color: #000000;\n}\n\n").to_owned();
        let mut i: usize = 0;
        proof {
            assert(cues =~= cue_view(self.cues@));
            reveal_strlit("\n");
            reveal_strlit(" --> ");
            reveal_strlit("\n\n");
            assert("\n"@ =~= seq!['\n']);
            assert("\n\n"@ =~= seq!['\n', '\n']);
            assert(out@ + spec_vtt_entries(cues, 0) =~= spec_vtt_text(cues));
        }
        while i < self.cues.len()
            invariant
                i <= cues.len(),
                cues.len() == self.cues@.len(),
                cues == cue_view(self.cues@),
                out@ + spec_vtt_entries(cues, i as int) == spec_vtt_text(cues),
            decreases cues.len() - i,
        {
            let c = &self.cues[i];
            proof {
                assert(cues[i as int] == c@);
                reveal_strlit("\n");
                reveal_strlit(" --> ");
                reveal_strlit("\n\n");
                assert("\n"@ =~= seq!['\n']);
                assert("\n\n"@ =~= seq!['\n', '\n']);
            }
            let num = u64_to_string(i as u64);
            out.append(num.as_str());
            out.append("\n");
            let start = format_vtt_time(c.start_ms);
            out.append(start.as_str());
            out.append(" --> ");
            let end = format_vtt_time(c.end_ms);
            out.append(end.as_str());
            out.append("\n");
            out.append(c.text.as_str());
            out.append("\n\n");
            i = i + 1;
        }
        proof {
            assert(spec_vtt_entries(cues, cues.len() as int) =~= Seq::<char>::empty());
            assert(out@ + Seq::<char>::empty() =~= out@);
        }
        out
    }
}

// ---------------------------------------------------------------------------
// Whole-file conversions
// ---------------------------------------------------------------------------

/// The pivot cues a structured-JSON subtitle denotes. Only meaningful
/// when every cue converts.
pub open spec fn spec_json_cues(body: Seq<crate::subtitle::JsonSubtitleBodyV>) -> Seq<SubtitleCueV> {
    body.map_values(|b: crate::subtitle::JsonSubtitleBodyV| SubtitleCueV {
        start_ms: crate::subtitle::seconds_to_ms(b.from) as u64,
        end_ms: crate::subtitle::seconds_to_ms(b.to) as u64,
        text: b.content,
    })
}

/// Converts a structured-JSON subtitle straight to the native target
/// syntax: the pivot in between, the fixed presentation profile, cue
/// order kept.
pub fn convert_json_to_ass(json: &JsonSubtitle) -> (r: Result<String, Error>)
    ensures
        match r {
            Ok(t) => (forall|i: int| 0 <= i < json@.body.len()
                    ==> crate::subtitle::json_cue_ok(#[trigger] json@.body[i]))
                && t@ == spec_ass_text(spec_json_cues(json@.body)),
            Err(e) => e == Error::Subtitle(SubtitleError::CodecFailure)
                && exists|i: int| 0 <= i < json@.body.len()
                    && !crate::subtitle::json_cue_ok(#[trigger] json@.body[i]),
        },
{
    let doc = match SubtitleDocument::from_json(json) {
        Ok(d) => d,
        Err(e) => {
            return Err(e);
        },
    };
    let text = doc.to_ass_text();
    proof {
        assert(doc@.cues =~= spec_json_cues(json@.body)) by {
            assert forall|k: int| 0 <= k < doc@.cues.len()
                implies #[trigger] doc@.cues[k] == spec_json_cues(json@.body)[k] by {
                crate::subtitle::lemma_ms_decomposition(json@.body[k].from);
                crate::subtitle::lemma_ms_decomposition(json@.body[k].to);
            }
        }
    }
    Ok(text)
}

/// Converts a native-target subtitle to SRT: the pivot in between, cue
/// order kept, numbering from one.
pub fn convert_ass_to_srt(s: &str) -> (r: Result<String, Error>)
    ensures
        match r {
            Ok(t) => spec_parse_ass(s@) is Some
                && t@ == spec_srt_text(cues_of_triples(spec_parse_ass(s@)->Some_0)),
            Err(e) => e == Error::Subtitle(SubtitleError::CodecFailure)
                && spec_parse_ass(s@) is None,
        },
{
    let doc = match SubtitleDocument::from_ass_text(s) {
        Ok(d) => d,
        Err(e) => {
            return Err(e);
        },
    };
    let text = doc.to_srt_text();
    proof {
        lemma_parse_lines_bounds(spec_split_lines(s@));
        let ts = spec_parse_ass(s@)->Some_0;
        assert(doc@.cues =~= cues_of_triples(ts)) by {
            assert(forall|k: int| 0 <= k < ts.len()
                ==> #[trigger] cues_of_triples(ts)[k] == (SubtitleCueV {
                    start_ms: ts[k].0 as u64,
                    end_ms: ts[k].1 as u64,
                    text: ts[k].2,
                }));
        }
    }
    Ok(text)
}


// ---------------------------------------------------------------------------
// SRT and WebVTT input, through the external subtitle codec
// ---------------------------------------------------------------------------

/// What the external SRT parser reads out of a text: for each cue in
/// file order, the hour, minute, second and millisecond fields of its
/// start and end stamps, and its text; or nothing when the text is not
/// well-formed SRT.
pub uninterp spec fn srt_cues_of(s: Seq<char>) -> Option<Seq<((u8, u8, u8, u16), (u8, u8, u8, u16), Seq<char>)>>;

/// What the external WebVTT parser reads out of a text, in the same
/// shape as the SRT parser's result.
pub uninterp spec fn vtt_cues_of(s: Seq<char>) -> Option<Seq<((u8, u8, u8, u16), (u8, u8, u8, u16), Seq<char>)>>;

/// Relies on rsubs_lib::SRT::parse: whether a text parses and what
/// its cues hold depends on the text alone; each parsed line carries a
/// start stamp, an end stamp and a text.
#[verifier::external_body]
fn parse_srt_cues(s: &str) -> (r: Option<Vec<((u8, u8, u8, u16), (u8, u8, u8, u16), String)>>)
    ensures
        match r {
            Some(v) => srt_cues_of(s@) == Some(v@.map_values(
                |c: ((u8, u8, u8, u16), (u8, u8, u8, u16), String)| (c.0, c.1, c.2@))),
            None => srt_cues_of(s@) is None,
        },
{
    match rsubs_lib::SRT::parse(s) {
        Err(_) => None,
        Ok(f) => Some(f.lines.into_iter().map(|l| (
            (l.start.hour(), l.start.minute(), l.start.second(), l.start.millisecond()),
            (l.end.hour(), l.end.minute(), l.end.second(), l.end.millisecond()),
            l.text,
        )).collect()),
    }
}

/// Whether the text holds at least one printable ASCII character
/// (above the space). Such a character is never Unicode whitespace, so
/// a text holding one has at least one non-blank line.
pub open spec fn has_visible_char(s: Seq<char>) -> bool {
    exists|j: int| 0 <= j < s.len() && '!' <= #[trigger] s[j] && s[j] <= '~'
}

/// Whether the text holds a printable ASCII character.
fn contains_visible_char(s: &str) -> (r: bool)
    ensures
        r == has_visible_char(s@),
{
    let len = s.unicode_len();
    let mut i: usize = 0;
    while i < len
        invariant
            i <= len,
            len == s@.len(),
            forall|j: int| 0 <= j < i ==> !('!' <= #[trigger] s@[j] && s@[j] <= '~'),
        decreases len - i,
    {
        let c = s.get_char(i);
        if '!' <= c && c <= '~' {
            return true;
        }
        i = i + 1;
    }
    false
}

/// Relies on rsubs_lib::VTT::parse, and on the hour, minute, second
/// and millisecond accessors of the clock type its lines carry:
/// whether a text parses and what its cues hold depends on the text
/// alone. The parser indexes into its first block of non-blank lines,
/// so the text must hold at least one: a printable ASCII character
/// guarantees that, since trimming whitespace cannot erase the line
/// carrying it.
#[verifier::external_body]
fn parse_vtt_cues(s: &str) -> (r: Option<Vec<((u8, u8, u8, u16), (u8, u8, u8, u16), String)>>)
    requires
        has_visible_char(s@),
    ensures
        match r {
            Some(v) => vtt_cues_of(s@) == Some(v@.map_values(
                |c: ((u8, u8, u8, u16), (u8, u8, u8, u16), String)| (c.0, c.1, c.2@))),
            None => vtt_cues_of(s@) is None,
        },
{
    match rsubs_lib::VTT::parse(s) {
        Err(_) => None,
        Ok(f) => Some(f.lines.into_iter().map(|l| (
            (l.start.hour(), l.start.minute(), l.start.second(), l.start.millisecond()),
            (l.end.hour(), l.end.minute(), l.end.second(), l.end.millisecond()),
            l.text,
        )).collect()),
    }
}

/// The milliseconds a clock stamp of hour, minute, second and
/// millisecond fields denotes.
pub open spec fn clock_ms(c: (u8, u8, u8, u16)) -> int {
    ((c.0 * 60 + c.1) * 60 + c.2) * 1000 + c.3
}

/// The pivot cues a parsed clock-stamped cue list denotes.
pub open spec fn cues_of_clock(cs: Seq<((u8, u8, u8, u16), (u8, u8, u8, u16), Seq<char>)>) -> Seq<SubtitleCueV> {
    cs.map_values(|c: ((u8, u8, u8, u16), (u8, u8, u8, u16), Seq<char>)| SubtitleCueV {
        start_ms: clock_ms(c.0) as u64,
        end_ms: clock_ms(c.1) as u64,
        text: c.2,
    })
}

/// Assembles the pivot document from a parsed clock-stamped cue list,
/// whatever the external parser returned: each stamp becomes whole
/// milliseconds, cue order is kept.
pub fn document_from_clock_cues(cues: Vec<((u8, u8, u8, u16), (u8, u8, u8, u16), String)>) -> (r: SubtitleDocument)
    ensures
        r@.cues == cues_of_clock(cues@.map_values(
            |c: ((u8, u8, u8, u16), (u8, u8, u8, u16), String)| (c.0, c.1, c.2@))),
{
    let ghost cv = cues@.map_values(
        |c: ((u8, u8, u8, u16), (u8, u8, u8, u16), String)| (c.0, c.1, c.2@));
    let mut out: Vec<SubtitleCue> = Vec::new();
    let mut i: usize = 0;
    while i < cues.len()
        invariant
            i <= cues@.len(),
            cv.len() == cues@.len(),
            cv == cues@.map_values(
                |c: ((u8, u8, u8, u16), (u8, u8, u8, u16), String)| (c.0, c.1, c.2@)),
            out@.len() == i,
            forall|k: int| 0 <= k < i
                ==> #[trigger] cue_view(out@)[k] == cues_of_clock(cv)[k],
        decreases cues@.len() - i,
    {
        let c = &cues[i];
        let (sh, sm, ss, sms) = c.0;
        let (eh, em, es, ems) = c.1;
        let start_ms: u64 = ((sh as u64) * 60 + (sm as u64)) * 60 * 1000
            + (ss as u64) * 1000 + (sms as u64);
        let end_ms: u64 = ((eh as u64) * 60 + (em as u64)) * 60 * 1000
            + (es as u64) * 1000 + (ems as u64);
        let ghost prev = out@;
        out.push(SubtitleCue { start_ms, end_ms, text: c.2.clone() });
        proof {
            assert(cv[i as int] == (c.0, c.1, c.2@));
            assert(start_ms as int == clock_ms(cv[i as int].0)) by (nonlinear_arith)
                requires
                    start_ms as int == ((sh as int * 60 + sm as int) * 60) * 1000
                        + ss as int * 1000 + sms as int,
                    cv[i as int].0 == (sh, sm, ss, sms),
            ;
            assert(end_ms as int == clock_ms(cv[i as int].1)) by (nonlinear_arith)
                requires
                    end_ms as int == ((eh as int * 60 + em as int) * 60) * 1000
                        + es as int * 1000 + ems as int,
                    cv[i as int].1 == (eh, em, es, ems),
            ;
            assert(forall|m: int| 0 <= m < prev.len() ==> out@[m] == prev[m]);
            assert(forall|m: int| 0 <= m <= prev.len()
                ==> #[trigger] cue_view(out@)[m] == out@[m]@);
            assert(forall|m: int| 0 <= m < prev.len()
                ==> #[trigger] cue_view(prev)[m] == prev[m]@);
            assert(cues_of_clock(cv)[i as int] == (SubtitleCueV {
                start_ms: clock_ms(cv[i as int].0) as u64,
                end_ms: clock_ms(cv[i as int].1) as u64,
                text: cv[i as int].2,
            }));
            assert(cue_view(out@)[i as int] == cues_of_clock(cv)[i as int]);
            assert forall|k: int| 0 <= k <= prev.len()
                implies #[trigger] cue_view(out@)[k] == cues_of_clock(cv)[k] by {
                if k < prev.len() {
                    assert(out@[k] == prev[k]);
                    assert(cue_view(prev)[k] == prev[k]@);
                    assert(cue_view(out@)[k] == out@[k]@);
                }
            }
        }
        i = i + 1;
    }
    let doc = SubtitleDocument { cues: out };
    proof {
        assert(doc@.cues =~= cues_of_clock(cv)) by {
            assert(forall|k: int| 0 <= k < out@.len()
                ==> #[trigger] doc@.cues[k] == cue_view(out@)[k]);
        }
    }
    doc
}

/// Converts an SRT subtitle to the native target syntax: the external
/// codec reads the cues, the pivot carries them, the fixed presentation
/// profile is applied. A text the codec rejects fails with
/// `CodecFailure`.
pub fn convert_srt_to_ass(s: &str) -> (r: Result<String, Error>)
    ensures
        match r {
            Ok(t) => srt_cues_of(s@) is Some
                && t@ == spec_ass_text(cues_of_clock(srt_cues_of(s@)->Some_0)),
            Err(e) => e == Error::Subtitle(SubtitleError::CodecFailure)
                && srt_cues_of(s@) is None,
        },
{
    match parse_srt_cues(s) {
        None => Err(Error::Subtitle(SubtitleError::CodecFailure)),
        Some(cues) => {
            let doc = document_from_clock_cues(cues);
            Ok(doc.to_ass_text())
        },
    }
}

/// Converts a WebVTT subtitle to the native target syntax, like
/// `convert_srt_to_ass`. A blank text — one without a printable ASCII
/// character — cannot open with the `WEBVTT` signature, so it fails
/// with `CodecFailure` without reaching the external parser.
pub fn convert_vtt_to_ass(s: &str) -> (r: Result<String, Error>)
    ensures
        match r {
            Ok(t) => has_visible_char(s@)
                && vtt_cues_of(s@) is Some
                && t@ == spec_ass_text(cues_of_clock(vtt_cues_of(s@)->Some_0)),
            Err(e) => e == Error::Subtitle(SubtitleError::CodecFailure)
                && (!has_visible_char(s@) || vtt_cues_of(s@) is None),
        },
{
    if !contains_visible_char(s) {
        return Err(Error::Subtitle(SubtitleError::CodecFailure));
    }
    match parse_vtt_cues(s) {
        None => Err(Error::Subtitle(SubtitleError::CodecFailure)),
        Some(cues) => {
            let doc = document_from_clock_cues(cues);
            Ok(doc.to_ass_text())
        },
    }
}


// ---------------------------------------------------------------------------
// The clock notation round-trips
// ---------------------------------------------------------------------------

/// The clock fields of a centisecond count recombine to the count.
proof fn lemma_clock_value(cs: nat)
    ensures
        ((cs / 360000) * 60 + cs / 6000 % 60) * 60 + cs / 100 % 60 == cs / 100,
        (cs / 100) * 1000 + (cs % 100) * 10 == cs * 10,
{
    let m = cs as int;
    let q = m / 100;
    vstd::arithmetic::div_mod::lemma_div_denominator(m, 100, 3600);
    vstd::arithmetic::div_mod::lemma_div_denominator(m, 100, 60);
    vstd::arithmetic::div_mod::lemma_div_denominator(q, 60, 60);
    vstd::arithmetic::div_mod::lemma_fundamental_div_mod(q / 60, 60);
    vstd::arithmetic::div_mod::lemma_fundamental_div_mod(q, 60);
    vstd::arithmetic::div_mod::lemma_fundamental_div_mod(m, 100);
}

/// A digit is neither a separator nor a comma.
proof fn lemma_digit_not_separator(s: Seq<char>)
    requires
        crate::text::all_digits(s),
    ensures
        forall|j: int| 0 <= j < s.len() ==> s[j] != ':' && s[j] != '.' && s[j] != ',' && s[j] != '\n',
{
    assert forall|j: int| 0 <= j < s.len()
        implies s[j] != ':' && s[j] != '.' && s[j] != ',' && s[j] != '\n' by {
        assert(crate::text::is_digit(s[j]));
    }
}

/// Reading a rendered clock stamp back yields the offset rounded to
/// the nearest centisecond, in milliseconds.
#[verifier::rlimit(100)]
proof fn lemma_parse_of_ass_time(ms: nat)
    requires
        spec_centi_of(ms) * 10 <= u64::MAX,
    ensures
        spec_parse_ass_time(spec_ass_time(ms)) == Some((spec_centi_of(ms) * 10) as int),
{
    let cs = spec_centi_of(ms);
    let h = dec_string(cs / 360000);
    let m2 = padded2_string(cs / 6000 % 60);
    let s2 = padded2_string(cs / 100 % 60);
    let c2 = padded2_string(cs % 100);
    crate::text::lemma_dec_string_value(cs / 360000);
    crate::text::lemma_padded2_value(cs / 6000 % 60);
    crate::text::lemma_padded2_value(cs / 100 % 60);
    crate::text::lemma_padded2_value(cs % 100);
    lemma_digit_not_separator(h);
    lemma_digit_not_separator(m2);
    lemma_digit_not_separator(s2);
    lemma_digit_not_separator(c2);
    let t = spec_ass_time(ms);
    lemma_separator_literals();
    let tail1 = ":"@ + (m2 + (":"@ + (s2 + ("."@ + c2))));
    assert(t =~= h + tail1);
    assert(tail1[0] == ':');
    assert(crate::text::spec_find_char(tail1, ':') == 0);
    crate::text::lemma_find_char_concat(h, tail1, ':');
    let c1 = crate::text::spec_find_char(t, ':');
    assert(c1 == h.len());
    assert(t.take(c1) =~= h);
    let rest1 = t.skip(c1 + 1);
    assert(rest1 =~= m2 + (":"@ + (s2 + ("."@ + c2))));
    let tail2 = ":"@ + (s2 + ("."@ + c2));
    assert(rest1 =~= m2 + tail2);
    assert(tail2[0] == ':');
    assert(crate::text::spec_find_char(tail2, ':') == 0);
    crate::text::lemma_find_char_concat(m2, tail2, ':');
    let c2i = crate::text::spec_find_char(rest1, ':');
    assert(c2i == m2.len());
    assert(rest1.take(c2i) =~= m2);
    let rest2 = rest1.skip(c2i + 1);
    assert(rest2 =~= s2 + ("."@ + c2));
    let tail3 = "."@ + c2;
    assert(rest2 =~= s2 + tail3);
    assert(tail3[0] == '.');
    assert(crate::text::spec_find_char(tail3, '.') == 0);
    crate::text::lemma_find_char_concat(s2, tail3, '.');
    let d = crate::text::spec_find_char(rest2, '.');
    assert(d == s2.len());
    assert(rest2.take(d) =~= s2);
    assert(rest2.skip(d + 1) =~= c2);
    let vh = crate::text::digits_value(h);
    let vm = crate::text::digits_value(m2);
    let vs = crate::text::digits_value(s2);
    let vc = crate::text::digits_value(c2);
    lemma_clock_value(cs);
    assert(((vh * 60 + vm) * 60 + vs) * 1000 + vc * 10 == cs * 10);
    assert(spec_parse_time_fields(h, m2, s2, c2) == Some(((cs * 10) as int)));
}

/// The separator literals, revealed.
proof fn lemma_separator_literals()
    ensures
        ":"@ =~= seq![':'],
        "."@ =~= seq!['.'],
{
    reveal_strlit(":");
    reveal_strlit(".");
}


/// Text whose line breaks survive the round trip through the native
/// target: it holds neither the two-character break marker itself —
/// indistinguishable from a written newline — nor a CRLF pair, which
/// normalization collapses to a single newline.
pub open spec fn no_break_marker(s: Seq<char>) -> bool {
    forall|j: int| 0 <= j < s.len() - 1
        ==> !(#[trigger] s[j] == '\\' && s[j + 1] == 'N') && !(s[j] == '\r' && s[j + 1] == '\n')
}

/// Normalized text holds no raw newline.
proof fn lemma_normalize_no_newline(t: Seq<char>)
    ensures
        forall|j: int| 0 <= j < normalize_newlines(t).len()
            ==> #[trigger] normalize_newlines(t)[j] != '\n',
    decreases t.len(),
{
    if t.len() >= 2 && t[0] == '\r' && t[1] == '\n' {
        lemma_normalize_no_newline(t.skip(2));
        let n = normalize_newlines(t);
        let rest = normalize_newlines(t.skip(2));
        assert forall|j: int| 0 <= j < n.len() implies #[trigger] n[j] != '\n' by {
            if j >= 2 {
                assert(n[j] == rest[j - 2]);
            }
        }
    } else if t.len() > 0 {
        lemma_normalize_no_newline(t.skip(1));
        let n = normalize_newlines(t);
        let rest = normalize_newlines(t.skip(1));
        assert forall|j: int| 0 <= j < n.len() implies #[trigger] n[j] != '\n' by {
            if t[0] == '\n' {
                if j >= 2 {
                    assert(n[j] == rest[j - 2]);
                }
            } else {
                if j >= 1 {
                    assert(n[j] == rest[j - 1]);
                }
            }
        }
    }
}

/// Restoring line-break markers undoes writing them, for text whose
/// breaks survive the round trip.
proof fn lemma_restore_normalize(t: Seq<char>)
    requires
        no_break_marker(t),
    ensures
        restore_newlines(normalize_newlines(t)) == t,
    decreases t.len(),
{
    if t.len() == 0 {
        assert(restore_newlines(normalize_newlines(t)) =~= t);
    } else {
        assert(no_break_marker(t.skip(1))) by {
            assert(forall|j: int| 0 <= j < t.skip(1).len() - 1
                ==> #[trigger] t.skip(1)[j] == t[j + 1] && t.skip(1)[j + 1] == t[j + 2]);
        }
        lemma_restore_normalize(t.skip(1));
        let n = normalize_newlines(t);
        let rest = normalize_newlines(t.skip(1));
        // A CRLF pair at the head is excluded by the precondition.
        assert(!(t.len() >= 2 && t[0] == '\r' && t[1] == '\n'));
        if t[0] == '\n' {
            assert(n =~= seq!['\\', 'N'] + rest);
            assert(n[0] == '\\' && n[1] == 'N');
            assert(n.skip(2) =~= rest);
            assert(restore_newlines(n) == seq!['\n'] + t.skip(1));
            assert(seq!['\n'] + t.skip(1) =~= t);
        } else {
            assert(n =~= seq![t[0]] + rest);
            assert(n[0] == t[0]);
            if n.len() >= 2 && n[0] == '\\' && n[1] == 'N' {
                // The marker cannot appear here: the second character
                // comes from the tail, whose head never normalizes to
                // 'N' when the pair would form a marker.
                assert(rest.len() > 0);
                assert(n[1] == rest[0]);
                assert(t.skip(1).len() > 0);
                assert(rest[0] == if t.skip(1).len() >= 2 && t.skip(1)[0] == '\r' && t.skip(1)[1] == '\n' {
                    '\\'
                } else if t.skip(1)[0] == '\n' {
                    '\\'
                } else {
                    t.skip(1)[0]
                });
                assert(t.skip(1)[0] == t[1]);
                assert(!(t[0] == '\\' && t[1] == 'N'));
                assert(false);
            }
            assert(restore_newlines(n) == seq![t[0]] + restore_newlines(n.skip(1)));
            assert(n.skip(1) =~= rest);
            assert(seq![t[0]] + t.skip(1) =~= t);
        }
    }
}

/// No character of a rendered clock stamp is a comma or a newline.
proof fn lemma_ass_time_chars(ms: nat)
    ensures
        forall|j: int| 0 <= j < spec_ass_time(ms).len()
            ==> #[trigger] spec_ass_time(ms)[j] != ',' && spec_ass_time(ms)[j] != '\n',
{
    let cs = spec_centi_of(ms);
    let h = dec_string(cs / 360000);
    let m2 = padded2_string(cs / 6000 % 60);
    let s2 = padded2_string(cs / 100 % 60);
    let c2 = padded2_string(cs % 100);
    crate::text::lemma_dec_string_value(cs / 360000);
    crate::text::lemma_padded2_value(cs / 6000 % 60);
    crate::text::lemma_padded2_value(cs / 100 % 60);
    crate::text::lemma_padded2_value(cs % 100);
    lemma_digit_not_separator(h);
    lemma_digit_not_separator(m2);
    lemma_digit_not_separator(s2);
    lemma_digit_not_separator(c2);
    lemma_separator_literals();
    let t = spec_ass_time(ms);
    assert forall|j: int| 0 <= j < t.len()
        implies #[trigger] t[j] != ',' && t[j] != '\n' by {
        let a = h.len() as int;
        let b = a + 1 + m2.len();
        let c = b + 1 + s2.len();
        if j < a {
            assert(t[j] == h[j]);
        } else if j == a {
            assert(t[j] == ':');
        } else if j < b {
            assert(t[j] == m2[j - a - 1]);
        } else if j == b {
            assert(t[j] == ':');
        } else if j < c {
            assert(t[j] == s2[j - b - 1]);
        } else if j == c {
            assert(t[j] == '.');
        } else {
            assert(t[j] == c2[j - c - 1]);
        }
    }
}

/// Skipping the six style fields of an emitted event line leaves
/// exactly the text.
proof fn lemma_skip_style_fields(n: Seq<char>)
    ensures
        spec_skip_fields("Default,,0,0,0,,"@ + n, 6) == Some(n),
{
    let lit16 = "Default,,0,0,0,,"@;
    reveal_strlit("Default,,0,0,0,,");
    let s0 = lit16 + n;
    assert(crate::text::spec_find_char(s0, ',') == 7) by {
        assert(s0[7] == lit16[7]);
        assert(forall|j: int| 0 <= j < 7 ==> s0[j] == lit16[j]);
        crate::text::lemma_find_char_at(s0, ',', 7);
    }
    let s1 = s0.skip(8);
    assert(s1 =~= lit16.skip(8) + n);
    assert(s1[0] == lit16[8]);
    assert(crate::text::spec_find_char(s1, ',') == 0);
    let s2 = s1.skip(1);
    assert(s2 =~= lit16.skip(9) + n);
    assert(s2[0] == lit16[9] && s2[1] == lit16[10]);
    assert(crate::text::spec_find_char(s2, ',') == 1) by {
        crate::text::lemma_find_char_at(s2, ',', 1);
    }
    let s3 = s2.skip(2);
    assert(s3 =~= lit16.skip(11) + n);
    assert(s3[0] == lit16[11] && s3[1] == lit16[12]);
    assert(crate::text::spec_find_char(s3, ',') == 1) by {
        crate::text::lemma_find_char_at(s3, ',', 1);
    }
    let s4 = s3.skip(2);
    assert(s4 =~= lit16.skip(13) + n);
    assert(s4[0] == lit16[13] && s4[1] == lit16[14]);
    assert(crate::text::spec_find_char(s4, ',') == 1) by {
        crate::text::lemma_find_char_at(s4, ',', 1);
    }
    let s5 = s4.skip(2);
    assert(s5 =~= lit16.skip(15) + n);
    assert(s5[0] == lit16[15]);
    assert(crate::text::spec_find_char(s5, ',') == 0);
    let s6 = s5.skip(1);
    assert(s6 =~= n);
    assert(spec_skip_fields(s0, 6) == spec_skip_fields(s1, 5));
    assert(spec_skip_fields(s1, 5) == spec_skip_fields(s2, 4));
    assert(spec_skip_fields(s2, 4) == spec_skip_fields(s3, 3));
    assert(spec_skip_fields(s3, 3) == spec_skip_fields(s4, 2));
    assert(spec_skip_fields(s4, 2) == spec_skip_fields(s5, 1));
    assert(spec_skip_fields(s5, 1) == spec_skip_fields(s6, 0));
}

/// Parsing an assembled event line recovers its three payloads, for
/// any stamp texts free of commas.
#[verifier::rlimit(100)]
proof fn lemma_event_line_parse(t1: Seq<char>, t2: Seq<char>, n: Seq<char>)
    requires
        forall|j: int| 0 <= j < t1.len() ==> #[trigger] t1[j] != ',',
        forall|j: int| 0 <= j < t2.len() ==> #[trigger] t2[j] != ',',
    ensures
        ({
            let line = "Dialogue: 0,"@ + t1 + ","@ + t2 + ",Default,,0,0,0,,"@ + n;
            &&& is_dialogue_line(line)
            &&& spec_parse_dialogue_rest(line.skip("Dialogue: "@.len() as int))
                == match (spec_parse_ass_time(t1), spec_parse_ass_time(t2)) {
                    (Some(a), Some(b)) => Some((a, b, restore_newlines(n))),
                    _ => None,
                }
        }),
{
    reveal_strlit("Dialogue: 0,");
    reveal_strlit("Dialogue: ");
    reveal_strlit(",");
    reveal_strlit(",Default,,0,0,0,,");
    let line = "Dialogue: 0,"@ + t1 + ","@ + t2 + ",Default,,0,0,0,,"@ + n;
    assert(is_dialogue_line(line)) by {
        assert(line.take("Dialogue: "@.len() as int) =~= "Dialogue: "@);
    }
    let rest = line.skip("Dialogue: "@.len() as int);
    assert(rest =~= seq!['0', ','] + (t1 + (seq![','] + (t2 + (",Default,,0,0,0,,"@ + n)))));
    // The layer field.
    assert(rest[0] == '0' && rest[1] == ',');
    crate::text::lemma_find_char_at(rest, ',', 1);
    let r1 = rest.skip(2);
    assert(r1 =~= t1 + (seq![','] + (t2 + (",Default,,0,0,0,,"@ + n))));
    // The start stamp.
    let tail1 = seq![','] + (t2 + (",Default,,0,0,0,,"@ + n));
    assert(crate::text::spec_find_char(tail1, ',') == 0);
    crate::text::lemma_find_char_concat(t1, tail1, ',');
    assert(crate::text::spec_find_char(r1, ',') == t1.len());
    assert(r1.take(t1.len() as int) =~= t1);
    let r2 = r1.skip(t1.len() as int + 1);
    assert(r2 =~= t2 + (",Default,,0,0,0,,"@ + n));
    // The end stamp; the comma opening the style fields separates it.
    let lit8 = ",Default,,0,0,0,,"@;
    let tail2 = lit8 + n;
    assert(tail2[0] == ',');
    assert(crate::text::spec_find_char(tail2, ',') == 0);
    crate::text::lemma_find_char_concat(t2, tail2, ',');
    assert(crate::text::spec_find_char(r2, ',') == t2.len());
    assert(r2.take(t2.len() as int) =~= t2);
    let r3 = r2.skip(t2.len() as int + 1);
    reveal_strlit("Default,,0,0,0,,");
    assert(lit8.skip(1) =~= "Default,,0,0,0,,"@);
    assert(r3 =~= "Default,,0,0,0,,"@ + n);
    lemma_skip_style_fields(n);
    assert(spec_skip_fields(r3, 6) == Some(n));
}

/// Whether a cue's stamps stay in millisecond range once rounded to
/// the nearest centisecond; only an offset within five of the largest
/// representable one fails this.
pub open spec fn cue_clock_in_range(c: SubtitleCueV) -> bool {
    spec_centi_of(c.start_ms as nat) * 10 <= u64::MAX
        && spec_centi_of(c.end_ms as nat) * 10 <= u64::MAX
}

/// Reading back one emitted event line yields the cue's text and its
/// stamps rounded to the nearest centisecond.
pub proof fn lemma_dialogue_line_round_trip(c: SubtitleCueV)
    requires
        no_break_marker(c.text),
        cue_clock_in_range(c),
    ensures
        is_dialogue_line(spec_dialogue_line(c)),
        spec_parse_dialogue_rest(spec_dialogue_line(c).skip("Dialogue: "@.len() as int))
            == Some(((spec_centi_of(c.start_ms as nat) * 10) as int,
                (spec_centi_of(c.end_ms as nat) * 10) as int, c.text)),
{
    let t1 = spec_ass_time(c.start_ms as nat);
    let t2 = spec_ass_time(c.end_ms as nat);
    let n = normalize_newlines(c.text);
    lemma_ass_time_chars(c.start_ms as nat);
    lemma_ass_time_chars(c.end_ms as nat);
    lemma_parse_of_ass_time(c.start_ms as nat);
    lemma_parse_of_ass_time(c.end_ms as nat);
    lemma_restore_normalize(c.text);
    lemma_event_line_parse(t1, t2, n);
    reveal(spec_dialogue_line);
    assert(spec_dialogue_line(c) =~= "Dialogue: 0,"@ + t1 + ","@ + t2 + ",Default,,0,0,0,,"@ + n);
}


/// A split always yields at least one line.
proof fn lemma_split_lines_nonempty(s: Seq<char>)
    ensures
        spec_split_lines(s).len() >= 1,
{
}

/// Splitting a concatenation whose first part ends with a newline:
/// the first part's lines (except the empty line after its final
/// newline), then the second part's lines.
proof fn lemma_split_lines_concat(a: Seq<char>, b: Seq<char>)
    requires
        a.len() > 0,
        a.last() == '\n',
    ensures
        spec_split_lines(a + b) == spec_split_lines(a).drop_last() + spec_split_lines(b),
    decreases a.len(),
{
    crate::text::lemma_find_char_range(a, '\n');
    let i = crate::text::spec_find_char(a, '\n');
    assert(0 <= i < a.len());
    assert(crate::text::spec_find_char(a + b, '\n') == i) by {
        assert((a + b)[i] == a[i]);
        assert(forall|j: int| 0 <= j < i ==> (a + b)[j] == a[j]);
        crate::text::lemma_find_char_at(a + b, '\n', i);
    }
    assert((a + b).take(i) =~= a.take(i));
    assert((a + b).skip(i + 1) =~= a.skip(i + 1) + b);
    if i == a.len() - 1 {
        assert(a.skip(i + 1).len() == 0);
        assert(a.skip(i + 1) + b =~= b);
        assert(crate::text::spec_find_char(a.skip(i + 1), '\n') == -1);
        assert(spec_split_lines(a) == seq![a.take(i)] + spec_split_lines(a.skip(i + 1)));
        assert(spec_split_lines(a.skip(i + 1)) == seq![a.skip(i + 1)]);
        assert(spec_split_lines(a).drop_last() =~= seq![a.take(i)]);
        assert(spec_split_lines(a + b) == seq![a.take(i)] + spec_split_lines(b));
    } else {
        assert(a.skip(i + 1).len() > 0);
        assert(a.skip(i + 1).last() == a.last());
        lemma_split_lines_concat(a.skip(i + 1), b);
        lemma_split_lines_nonempty(a.skip(i + 1));
        assert(spec_split_lines(a) == seq![a.take(i)] + spec_split_lines(a.skip(i + 1)));
        assert(spec_split_lines(a).drop_last()
            =~= seq![a.take(i)] + spec_split_lines(a.skip(i + 1)).drop_last());
        assert(spec_split_lines(a + b)
            == seq![a.take(i)] + (spec_split_lines(a.skip(i + 1)).drop_last()
                + spec_split_lines(b)));
        assert(seq![a.take(i)] + (spec_split_lines(a.skip(i + 1)).drop_last()
                + spec_split_lines(b))
            =~= (seq![a.take(i)] + spec_split_lines(a.skip(i + 1)).drop_last())
                + spec_split_lines(b));
    }
}

/// A text with no adjacent 'D', 'i' pair splits into lines none of
/// which is an event line.
proof fn lemma_lines_not_dialogue(s: Seq<char>)
    requires
        forall|j: int| 0 <= j < s.len() - 1 ==> !(#[trigger] s[j] == 'D' && s[j + 1] == 'i'),
    ensures
        forall|k: int| 0 <= k < spec_split_lines(s).len()
            ==> !is_dialogue_line(#[trigger] spec_split_lines(s)[k]),
    decreases s.len(),
{
    reveal_strlit("Dialogue: ");
    crate::text::lemma_find_char_range(s, '\n');
    let i = crate::text::spec_find_char(s, '\n');
    if i < 0 || i >= s.len() {
        assert(spec_split_lines(s) == seq![s]);
        if is_dialogue_line(s) {
            assert(s.take("Dialogue: "@.len() as int)[0] == 'D');
            assert(s.take("Dialogue: "@.len() as int)[1] == 'i');
            assert(s[0] == 'D' && s[1] == 'i');
        }
    } else {
        assert(forall|j: int| 0 <= j < s.skip(i + 1).len() - 1
            ==> #[trigger] s.skip(i + 1)[j] == s[j + i + 1]
                && s.skip(i + 1)[j + 1] == s[j + i + 2]);
        lemma_lines_not_dialogue(s.skip(i + 1));
        let first = s.take(i);
        assert(spec_split_lines(s) == seq![first] + spec_split_lines(s.skip(i + 1)));
        assert forall|k: int| 0 <= k < spec_split_lines(s).len()
            implies !is_dialogue_line(#[trigger] spec_split_lines(s)[k]) by {
            if k == 0 {
                if is_dialogue_line(first) {
                    assert(first.take("Dialogue: "@.len() as int)[0] == 'D');
                    assert(first.take("Dialogue: "@.len() as int)[1] == 'i');
                    assert(s[0] == 'D' && s[1] == 'i');
                }
            } else {
                assert(spec_split_lines(s)[k] == spec_split_lines(s.skip(i + 1))[k - 1]);
            }
        }
    }
}

/// Lines that are no event lines contribute nothing to parsing.
proof fn lemma_parse_lines_concat(l1: Seq<Seq<char>>, l2: Seq<Seq<char>>)
    requires
        forall|k: int| 0 <= k < l1.len() ==> !is_dialogue_line(#[trigger] l1[k]),
    ensures
        spec_parse_lines(l1 + l2) == spec_parse_lines(l2),
    decreases l1.len(),
{
    if l1.len() == 0 {
        assert(l1 + l2 =~= l2);
    } else {
        assert(forall|k: int| 0 <= k < l1.skip(1).len()
            ==> #[trigger] l1.skip(1)[k] == l1[k + 1]);
        lemma_parse_lines_concat(l1.skip(1), l2);
        assert((l1 + l2)[0] == l1[0]);
        assert((l1 + l2).skip(1) =~= l1.skip(1) + l2);
    }
}

/// No character of an emitted event line is a newline.
proof fn lemma_dialogue_line_no_newline(c: SubtitleCueV)
    requires
        forall|j: int| 0 <= j < normalize_newlines(c.text).len()
            ==> #[trigger] normalize_newlines(c.text)[j] != '\n',
    ensures
        forall|j: int| 0 <= j < spec_dialogue_line(c).len()
            ==> #[trigger] spec_dialogue_line(c)[j] != '\n',
{
    reveal(spec_dialogue_line);
    reveal_strlit("Dialogue: 0,");
    reveal_strlit(",");
    reveal_strlit(",Default,,0,0,0,,");
    lemma_ass_time_chars(c.start_ms as nat);
    lemma_ass_time_chars(c.end_ms as nat);
    let t1 = spec_ass_time(c.start_ms as nat);
    let t2 = spec_ass_time(c.end_ms as nat);
    let n = normalize_newlines(c.text);
    let l = spec_dialogue_line(c);
    assert forall|j: int| 0 <= j < l.len() implies #[trigger] l[j] != '\n' by {
        let a = "Dialogue: 0,"@.len() as int;
        let b = a + t1.len();
        let d = b + 1 + t2.len();
        let e = d + ",Default,,0,0,0,,"@.len();
        if j < a {
            assert(l[j] == "Dialogue: 0,"@[j]);
        } else if j < b {
            assert(l[j] == t1[j - a]);
        } else if j == b {
            assert(l[j] == ","@[0]);
        } else if j < d {
            assert(l[j] == t2[j - b - 1]);
        } else if j < e {
            assert(l[j] == ",Default,,0,0,0,,"@[j - d]);
        } else {
            assert(l[j] == n[j - e]);
        }
    }
}

/// A newline-free line followed by a newline splits off as the first
/// line.
proof fn lemma_split_first_line(line: Seq<char>, rest: Seq<char>)
    requires
        forall|j: int| 0 <= j < line.len() ==> #[trigger] line[j] != '\n',
    ensures
        spec_split_lines((line + seq!['\n']) + rest) == seq![line] + spec_split_lines(rest),
{
    lemma_split_lines_concat(line + seq!['\n'], rest);
    assert((line + seq!['\n']).last() == '\n');
    assert(crate::text::spec_find_char(line + seq!['\n'], '\n') == line.len()) by {
        assert((line + seq!['\n'])[line.len() as int] == '\n');
        assert(forall|j: int| 0 <= j < line.len()
            ==> (line + seq!['\n'])[j] == line[j]);
        crate::text::lemma_find_char_at(line + seq!['\n'], '\n', line.len() as int);
    }
    assert((line + seq!['\n']).take(line.len() as int) =~= line);
    let nub = (line + seq!['\n']).skip(line.len() as int + 1);
    assert(nub.len() == 0);
    crate::text::lemma_find_char_range(nub, '\n');
    assert(spec_split_lines(line + seq!['\n'])
        == seq![line] + spec_split_lines(nub));
    assert(spec_split_lines(nub) == seq![nub]);
    assert(spec_split_lines(line + seq!['\n']).drop_last() =~= seq![line]);
    assert(seq![line] + spec_split_lines(rest)
        =~= spec_split_lines(line + seq!['\n']).drop_last() + spec_split_lines(rest));
}

/// An event line at the head of a line sequence contributes its
/// payloads in front of the rest.
proof fn lemma_parse_lines_cons(line: Seq<char>, lrest: Seq<Seq<char>>, t: (int, int, Seq<char>))
    requires
        is_dialogue_line(line),
        spec_parse_dialogue_rest(line.skip("Dialogue: "@.len() as int)) == Some(t),
        spec_parse_lines(lrest) is Some,
    ensures
        spec_parse_lines(seq![line] + lrest)
            == Some(seq![t] + spec_parse_lines(lrest)->Some_0),
{
    assert((seq![line] + lrest)[0] == line);
    assert((seq![line] + lrest).skip(1) =~= lrest);
}

/// Parsing the emitted event lines of a document recovers each cue's
/// text and centisecond-rounded stamps, in order.
proof fn lemma_parse_block(cues: Seq<SubtitleCueV>)
    requires
        forall|k: int| 0 <= k < cues.len() ==> no_break_marker((#[trigger] cues[k]).text),
        forall|k: int| 0 <= k < cues.len() ==> cue_clock_in_range(#[trigger] cues[k]),
    ensures
        ({
            let p = spec_parse_lines(spec_split_lines(spec_dialogue_block(cues)));
            &&& p is Some
            &&& p->Some_0.len() == cues.len()
            &&& forall|k: int| 0 <= k < cues.len()
                ==> #[trigger] p->Some_0[k]
                    == (((spec_centi_of(cues[k].start_ms as nat) * 10) as int,
                        (spec_centi_of(cues[k].end_ms as nat) * 10) as int,
                        cues[k].text))
        }),
    decreases cues.len(),
{
    if cues.len() == 0 {
        let e = spec_dialogue_block(cues);
        assert(e.len() == 0);
        crate::text::lemma_find_char_range(e, '\n');
        assert(spec_split_lines(e) == seq![e]);
        reveal_strlit("Dialogue: ");
        assert(!is_dialogue_line(e));
        assert(spec_split_lines(e).skip(1).len() == 0);
        assert(spec_parse_lines(spec_split_lines(e).skip(1))
            == Some(Seq::<(int, int, Seq<char>)>::empty()));
        assert(spec_split_lines(e)[0] == e);
        assert(spec_parse_lines(spec_split_lines(e))
            == spec_parse_lines(spec_split_lines(e).skip(1)));
    } else {
        let c = cues[0];
        let line = spec_dialogue_line(c);
        let rest = spec_dialogue_block(cues.skip(1));
        assert(forall|k: int| 0 <= k < cues.skip(1).len()
            ==> #[trigger] cues.skip(1)[k] == cues[k + 1]);
        lemma_parse_block(cues.skip(1));
        lemma_normalize_no_newline(c.text);
        lemma_dialogue_line_no_newline(c);
        lemma_dialogue_line_round_trip(c);
        let ghost t = (((spec_centi_of(c.start_ms as nat) * 10) as int,
            (spec_centi_of(c.end_ms as nat) * 10) as int, c.text));
        let block = spec_dialogue_block(cues);
        assert(block == (line + seq!['\n']) + rest);
        lemma_split_first_line(line, rest);
        lemma_parse_lines_cons(line, spec_split_lines(rest), t);
        let p = spec_parse_lines(spec_split_lines(block));
        let p_rest = spec_parse_lines(spec_split_lines(rest));
        assert(p == Some(seq![t] + p_rest->Some_0));
        assert forall|k: int| 0 <= k < cues.len()
            implies #[trigger] p->Some_0[k]
                == (((spec_centi_of(cues[k].start_ms as nat) * 10) as int,
                    (spec_centi_of(cues[k].end_ms as nat) * 10) as int,
                    cues[k].text)) by {
            if k > 0 {
                assert(p->Some_0[k] == p_rest->Some_0[k - 1]);
                assert(cues.skip(1)[k - 1] == cues[k]);
            }
        }
    }
}

/// Law: serializing a document in the native target syntax and parsing
/// it back preserves the number of cues, their order and their texts;
/// each stamp comes back rounded to the nearest centisecond the
/// notation carries. Cue texts may not hold the native line-break
/// marker or a CRLF pair, since neither survives being written as a
/// break; and each rounded stamp must stay in millisecond range.
pub proof fn lemma_ass_round_trip(cues: Seq<SubtitleCueV>)
    requires
        forall|k: int| 0 <= k < cues.len() ==> no_break_marker((#[trigger] cues[k]).text),
        forall|k: int| 0 <= k < cues.len() ==> cue_clock_in_range(#[trigger] cues[k]),
    ensures
        ({
            let p = spec_parse_ass(spec_ass_text(cues));
            &&& p is Some
            &&& p->Some_0.len() == cues.len()
            &&& forall|k: int| 0 <= k < cues.len()
                ==> #[trigger] p->Some_0[k]
                    == (((spec_centi_of(cues[k].start_ms as nat) * 10) as int,
                        (spec_centi_of(cues[k].end_ms as nat) * 10) as int,
                        cues[k].text))
        }),
{
    let h = spec_ass_header();
    let block = spec_dialogue_block(cues);
    reveal_strlit("[Script Info]\nTitle: Bilibili Subtitle\nScriptType: v4.00+\nWrapStyle: 0\nScaledBorderAndShadow: yes\nYCbCr Matrix: TV.601\nPlayResX: 1920\nPlayResY: 1080\n\n[V4+ Styles]\nFormat: Name, Fontname, Fontsize, PrimaryColour, SecondaryColour, OutlineColour, BackColour, Bold, Italic, Underline, StrikeOut, ScaleX, ScaleY, Spacing, Angle, BorderStyle, Outline, Shadow, Alignment, MarginL, MarginR, MarginV, Encoding\nStyle: Default,Noto Sans,100,&H00FFFFFF,&H00FFFF00,&H00002208,&H7F000000,0,0,0,0,100,100,0,0,1,5,1.5,2,96,96,65,1\n\n[Events]\nFormat: Layer, Start, End, Style, Name, MarginL, MarginR, MarginV, Effect, Text\n");
    assert(h.len() > 0 && h.last() == '\n');
    lemma_split_lines_concat(h, block);
    lemma_lines_not_dialogue(h);
    let hl = spec_split_lines(h);
    assert(forall|k: int| 0 <= k < hl.drop_last().len()
        ==> #[trigger] hl.drop_last()[k] == hl[k]);
    lemma_parse_lines_concat(hl.drop_last(), spec_split_lines(block));
    lemma_parse_block(cues);
    assert(spec_split_lines(spec_ass_text(cues))
        == hl.drop_last() + spec_split_lines(block));
}

} // verus!
