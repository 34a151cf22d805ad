//! The filename grammar and its parser.
//!
//! A recognized path reads, left to right: a leading directory part up to and
//! including the final `/`, the title (shortest possible), the literal
//! separator `" - "`, an episode marker (`"Ep"`, or `"S"`, season digits, an
//! optional `"x"`, then `"E"`), an optional one-letter episode-type code out
//! of `C`, `S`, `T`, `O`, the episode digits, an optional `"v"` plus version
//! digits, and an optional media block `" ["` token `"]["` width `"x"` height.
//! The numeric captures must fit their field widths (the version is the one
//! field that silently falls back to 1); otherwise the path is not a
//! recognized media file and parsing yields nothing.

use vstd::prelude::*;
use vstd::string::StrSliceExecFns;
use vstd::string::StringExecFns;
use crate::records::AnimeFile;
use crate::records::AnimeFileView;
use crate::records::EpisodeNum;
use crate::records::SeasonNum;
use crate::records::SourceMedia;
use crate::text::all_digits;
use crate::text::digits_end;
use crate::text::digits_end_exec;
use crate::text::lemma_digits_end;
use crate::text::chars_of;
use crate::text::digits_val;
use crate::text::is_digit;
use crate::text::parse_u64_digits;
use crate::text::spec_is_digit;
use crate::text::str_range_eq;

verus! {

/// The position of the last `/` at or before `i`, or -1 when there is none.
pub open spec fn last_slash_from(s: Seq<char>, i: int) -> int
    decreases i + 1,
{
    if i < 0 {
        -1
    } else if i < s.len() && s[i] == '/' {
        i
    } else {
        last_slash_from(s, i - 1)
    }
}

/// What a successful episode-marker match captures: the season digits, if the
/// marker was the `"S"` form, and the position right after the marker.
pub ghost struct MarkerMatch {
    pub season: Option<Seq<char>>,
    pub after: int,
}

/// The episode marker at position `k`: either the literal `"Ep"`, or `"S"`,
/// one or more season digits, an optional `"x"`, then `"E"`.
pub open spec fn match_marker(s: Seq<char>, k: int) -> Option<MarkerMatch> {
    if 0 <= k && k + 2 <= s.len() && s[k] == 'E' && s[k + 1] == 'p' {
        Some(MarkerMatch { season: None, after: k + 2 })
    } else if 0 <= k && k < s.len() && s[k] == 'S' {
        let d = digits_end(s, k + 1);
        if d == k + 1 {
            None
        } else {
            let e = if d < s.len() && s[d] == 'x' {
                d + 1
            } else {
                d
            };
            if e < s.len() && s[e] == 'E' {
                Some(MarkerMatch { season: Some(s.subrange(k + 1, d)), after: e + 1 })
            } else {
                None
            }
        }
    } else {
        None
    }
}

/// A single-letter episode-type code.
pub open spec fn spec_is_code(c: char) -> bool {
    c == 'C' || c == 'S' || c == 'T' || c == 'O'
}

/// What the episode part captures: the optional type code, the episode
/// digits, and the position right after them.
pub ghost struct EpisodeMatch {
    pub code: Option<char>,
    pub digits: Seq<char>,
    pub after: int,
}

/// The episode part at position `a`: an optional type code, then one or more
/// digits. A code not followed by a digit does not count as a code.
pub open spec fn match_episode(s: Seq<char>, a: int) -> Option<EpisodeMatch> {
    if 0 <= a && a + 1 < s.len() && spec_is_code(s[a]) && spec_is_digit(s[a + 1]) {
        Some(
            EpisodeMatch {
                code: Some(s[a]),
                digits: s.subrange(a + 1, digits_end(s, a + 1)),
                after: digits_end(s, a + 1),
            },
        )
    } else if 0 <= a && a < s.len() && spec_is_digit(s[a]) {
        Some(
            EpisodeMatch { code: None, digits: s.subrange(a, digits_end(s, a)), after: digits_end(s, a) },
        )
    } else {
        None
    }
}

/// What the optional version suffix captures and where it ends.
pub ghost struct VersionMatch {
    pub digits: Option<Seq<char>>,
    pub after: int,
}

/// The version suffix at position `m`: `"v"` followed by one or more digits,
/// or nothing.
pub open spec fn match_version(s: Seq<char>, m: int) -> VersionMatch {
    if 0 <= m && m + 1 < s.len() && s[m] == 'v' && spec_is_digit(s[m + 1]) {
        VersionMatch { digits: Some(s.subrange(m + 1, digits_end(s, m + 1))), after: digits_end(s, m + 1) }
    } else {
        VersionMatch { digits: None, after: m }
    }
}

/// The `"]["` bracket pair at `j` followed by width digits, `"x"`, and height
/// digits: the end of a media token.
pub open spec fn media_tail_at(s: Seq<char>, j: int) -> bool {
    &&& 0 <= j
    &&& j + 2 <= s.len()
    &&& s[j] == ']'
    &&& s[j + 1] == '['
    &&& digits_end(s, j + 2) > j + 2
    &&& ({
        let w = digits_end(s, j + 2);
        w < s.len() && s[w] == 'x' && digits_end(s, w + 1) > w + 1
    })
}

/// The first position at or after `j` where a media tail matches. The media
/// token is matched shortest-first, so the first viable tail ends it.
pub open spec fn first_media_tail(s: Seq<char>, j: int) -> Option<int>
    decreases s.len() - j,
{
    if j < 0 || j >= s.len() {
        None
    } else if media_tail_at(s, j) {
        Some(j)
    } else {
        first_media_tail(s, j + 1)
    }
}

/// What a media block captures: the media token, the width digits and the
/// height digits.
pub ghost struct MediaMatch {
    pub token: Seq<char>,
    pub width: Seq<char>,
    pub height: Seq<char>,
}

/// The optional media block at position `m`: `" ["`, a non-empty token, then
/// a media tail. Its absence is not a parse failure.
pub open spec fn match_media(s: Seq<char>, m: int) -> Option<MediaMatch> {
    if 0 <= m && m + 1 < s.len() && s[m] == ' ' && s[m + 1] == '[' {
        match first_media_tail(s, m + 3) {
            Some(j) => {
                let w = digits_end(s, j + 2);
                Some(
                    MediaMatch {
                        token: s.subrange(m + 2, j),
                        width: s.subrange(j + 2, w),
                        height: s.subrange(w + 1, digits_end(s, w + 1)),
                    },
                )
            },
            None => None,
        }
    } else {
        None
    }
}

/// The separator `" - "` stands at `j` and an episode marker with episode
/// digits follows it: the mandatory part of the grammar matches here.
pub open spec fn sep_match_at(s: Seq<char>, j: int) -> bool {
    &&& 0 <= j
    &&& j + 3 <= s.len()
    &&& s[j] == ' '
    &&& s[j + 1] == '-'
    &&& s[j + 2] == ' '
    &&& match_marker(s, j + 3) is Some
    &&& match_episode(s, match_marker(s, j + 3)->Some_0.after) is Some
}

/// The first position at or after `j` where the mandatory part matches; the
/// title is matched shortest-first.
pub open spec fn first_sep_match(s: Seq<char>, j: int) -> Option<int>
    decreases s.len() - j,
{
    if j < 0 || j + 3 > s.len() {
        None
    } else if sep_match_at(s, j) {
        Some(j)
    } else {
        first_sep_match(s, j + 1)
    }
}

/// Everything one grammar match captures out of a path.
pub ghost struct RawCaptures {
    pub title: Seq<char>,
    pub season: Option<Seq<char>>,
    pub code: Option<char>,
    pub episode: Seq<char>,
    pub version: Option<Seq<char>>,
    pub media: Option<MediaMatch>,
}

/// The grammar match of a whole path: the leading directory part up to the
/// final `/` is skipped, the title runs from there to the first viable
/// separator, and the remaining parts follow the separator.
pub open spec fn spec_captures(s: Seq<char>) -> Option<RawCaptures> {
    let ls = last_slash_from(s, s.len() - 1);
    if ls < 0 {
        None
    } else {
        match first_sep_match(s, ls + 1) {
            None => None,
            Some(j) => {
                let mk = match_marker(s, j + 3)->Some_0;
                let ep = match_episode(s, mk.after)->Some_0;
                let v = match_version(s, ep.after);
                Some(
                    RawCaptures {
                        title: s.subrange(ls + 1, j),
                        season: mk.season,
                        code: ep.code,
                        episode: ep.digits,
                        version: v.digits,
                        media: match_media(s, v.after),
                    },
                )
            },
        }
    }
}

/// Finds the last `/` of the path, if any.
fn last_slash_exec(v: &Vec<char>) -> (r: Option<usize>)
    ensures
        match r {
            Some(i) => last_slash_from(v@, v@.len() - 1) == i as int && i < v@.len(),
            None => last_slash_from(v@, v@.len() - 1) == -1,
        },
{
    let mut i = v.len();
    while i > 0
        invariant
            i <= v@.len(),
            last_slash_from(v@, v@.len() - 1) == last_slash_from(v@, i - 1),
        decreases i,
    {
        if v[i - 1] == '/' {
            return Some(i - 1);
        }
        i = i - 1;
    }
    None
}

/// Decides [`match_marker`] at `k`, handing back the season digit range and
/// the position after the marker.
fn marker_at(v: &Vec<char>, k: usize) -> (r: Option<(Option<(usize, usize)>, usize)>)
    requires
        k <= v@.len(),
    ensures
        ({
            let m = match_marker(v@, k as int);
            match r {
                None => m is None,
                Some(t) => {
                    &&& m is Some
                    &&& m->Some_0.after == t.1
                    &&& t.1 <= v@.len()
                    &&& match t.0 {
                        None => m->Some_0.season is None,
                        Some(ab) => {
                            &&& m->Some_0.season == Some(v@.subrange(ab.0 as int, ab.1 as int))
                            &&& ab.0 <= ab.1 <= v@.len()
                            &&& all_digits(v@.subrange(ab.0 as int, ab.1 as int))
                        },
                    }
                },
            }
        }),
{
    let n = v.len();
    if n - k >= 2 && v[k] == 'E' && v[k + 1] == 'p' {
        return Some((None, k + 2));
    }
    if k < n && v[k] == 'S' {
        let d = digits_end_exec(v, k + 1);
        if d == k + 1 {
            return None;
        }
        let e = if d < n && v[d] == 'x' {
            d + 1
        } else {
            d
        };
        if e < n && v[e] == 'E' {
            proof {
                lemma_digits_end(v@, k + 1);
            }
            return Some((Some((k + 1, d)), e + 1));
        }
        return None;
    }
    None
}

/// Decides [`match_episode`] at `a`, handing back the type code, the episode
/// digit range and the position after it.
fn episode_at(v: &Vec<char>, a: usize) -> (r: Option<(Option<char>, (usize, usize), usize)>)
    requires
        a <= v@.len(),
    ensures
        ({
            let m = match_episode(v@, a as int);
            match r {
                None => m is None,
                Some(t) => {
                    &&& m is Some
                    &&& m->Some_0.code == t.0
                    &&& m->Some_0.digits == v@.subrange(t.1.0 as int, t.1.1 as int)
                    &&& m->Some_0.after == t.2
                    &&& t.1.0 < t.1.1 <= v@.len()
                    &&& t.2 == t.1.1
                    &&& all_digits(v@.subrange(t.1.0 as int, t.1.1 as int))
                },
            }
        }),
{
    let n = v.len();
    if n - a >= 2 && (v[a] == 'C' || v[a] == 'S' || v[a] == 'T' || v[a] == 'O') && is_digit(v[a + 1]) {
        let de = digits_end_exec(v, a + 1);
        proof {
            lemma_digits_end(v@, a + 1);
        }
        return Some((Some(v[a]), (a + 1, de), de));
    }
    if a < n && is_digit(v[a]) {
        let de = digits_end_exec(v, a);
        proof {
            lemma_digits_end(v@, a as int);
        }
        return Some((None, (a, de), de));
    }
    None
}

/// Decides [`match_version`] at `m`, handing back the version digit range and
/// the position after it.
fn version_at(v: &Vec<char>, m: usize) -> (r: (Option<(usize, usize)>, usize))
    requires
        m <= v@.len(),
    ensures
        ({
            let vm = match_version(v@, m as int);
            &&& vm.after == r.1
            &&& r.1 <= v@.len()
            &&& m <= r.1
            &&& match r.0 {
                None => vm.digits is None,
                Some(ab) => {
                    &&& vm.digits == Some(v@.subrange(ab.0 as int, ab.1 as int))
                    &&& ab.0 <= ab.1 <= v@.len()
                    &&& all_digits(v@.subrange(ab.0 as int, ab.1 as int))
                },
            }
        }),
{
    let n = v.len();
    if n - m >= 2 && v[m] == 'v' && is_digit(v[m + 1]) {
        let ve = digits_end_exec(v, m + 1);
        proof {
            lemma_digits_end(v@, m + 1);
        }
        (Some((m + 1, ve)), ve)
    } else {
        (None, m)
    }
}

/// Decides [`media_tail_at`] at `j`.
fn media_tail_exec(v: &Vec<char>, j: usize) -> (r: bool)
    requires
        j < v@.len(),
    ensures
        r == media_tail_at(v@, j as int),
{
    let n = v.len();
    if !(j + 1 < n && v[j] == ']' && v[j + 1] == '[') {
        return false;
    }
    let w = digits_end_exec(v, j + 2);
    if w == j + 2 {
        return false;
    }
    if !(w < n && v[w] == 'x') {
        return false;
    }
    let h = digits_end_exec(v, w + 1);
    h > w + 1
}

/// Finds the first viable media tail at or after `j0`.
fn first_media_tail_exec(v: &Vec<char>, j0: usize) -> (r: Option<usize>)
    ensures
        match r {
            Some(j) => {
                &&& first_media_tail(v@, j0 as int) == Some(j as int)
                &&& media_tail_at(v@, j as int)
                &&& j0 <= j < v@.len()
            },
            None => first_media_tail(v@, j0 as int) is None,
        },
{
    let mut j = j0;
    while j < v.len()
        invariant
            j0 <= j,
            first_media_tail(v@, j0 as int) == first_media_tail(v@, j as int),
        decreases v@.len() - j,
    {
        if media_tail_exec(v, j) {
            return Some(j);
        }
        j = j + 1;
    }
    None
}

/// Decides [`sep_match_at`] at `j`.
fn sep_match_exec(v: &Vec<char>, j: usize) -> (r: bool)
    requires
        j + 3 <= v@.len(),
    ensures
        r == sep_match_at(v@, j as int),
{
    let n = v.len();
    if !(v[j] == ' ' && v[j + 1] == '-' && v[j + 2] == ' ') {
        return false;
    }
    match marker_at(v, j + 3) {
        None => false,
        Some((_, after)) => episode_at(v, after).is_some(),
    }
}

/// Finds the first viable separator at or after `t0`.
fn first_sep_exec(v: &Vec<char>, t0: usize) -> (r: Option<usize>)
    requires
        t0 <= v@.len(),
    ensures
        match r {
            Some(j) => {
                &&& first_sep_match(v@, t0 as int) == Some(j as int)
                &&& sep_match_at(v@, j as int)
                &&& t0 <= j && j + 3 <= v@.len()
            },
            None => first_sep_match(v@, t0 as int) is None,
        },
{
    let n = v.len();
    if n < 3 {
        return None;
    }
    let mut j = t0;
    while j <= n - 3
        invariant
            t0 <= j,
            n == v@.len(),
            3 <= n,
            first_sep_match(v@, t0 as int) == first_sep_match(v@, j as int),
        decreases n - j,
    {
        if sep_match_exec(v, j) {
            return Some(j);
        }
        j = j + 1;
    }
    None
}

/// The episode kind for a type code; no code means a plain episode, and a
/// letter the grammar does not know falls back to `OtherEpisode`.
pub open spec fn spec_episode_kind(code: Option<char>, n: u16) -> EpisodeNum {
    match code {
        None => EpisodeNum::Episode(n),
        Some(c) => if c == 'C' {
            EpisodeNum::Closing(n)
        } else if c == 'S' {
            EpisodeNum::Special(n)
        } else if c == 'T' {
            EpisodeNum::Trailer(n)
        } else if c == 'O' {
            EpisodeNum::Opening(n)
        } else {
            EpisodeNum::OtherEpisode(n)
        },
    }
}

/// The fixed lookup table from media tokens to media kinds; an unmatched
/// non-empty token maps to `OtherMedia`, an empty or literal "unknown" one to
/// `UnknownMedia`.
pub open spec fn spec_source_media(t: Seq<char>) -> SourceMedia {
    if t == "www"@ {
        SourceMedia::WWW
    } else if t == "Blu-ray"@ {
        SourceMedia::BluRay
    } else if t == "DVD"@ {
        SourceMedia::DVD
    } else if t == "HDTV"@ {
        SourceMedia::HDTV
    } else if t == "DTV"@ {
        SourceMedia::DTV
    } else if t == "VHS"@ {
        SourceMedia::VHS
    } else if t == "HKDVD"@ {
        SourceMedia::HKDVD
    } else if t == "LD"@ {
        SourceMedia::LaserDisc
    } else if t == "TV"@ {
        SourceMedia::TV
    } else if t.len() == 0 || t == "unknown"@ {
        SourceMedia::UnknownMedia
    } else {
        SourceMedia::OtherMedia
    }
}

/// The capture positions a grammar match yields, as index ranges into the
/// parsed character vector.
struct CapturesIdx {
    title_start: usize,
    title_end: usize,
    season: Option<(usize, usize)>,
    code: Option<char>,
    episode: (usize, usize),
    version: Option<(usize, usize)>,
    media: Option<MediaIdx>,
}

/// Index ranges of a matched media block.
struct MediaIdx {
    token: (usize, usize),
    width: (usize, usize),
    height: (usize, usize),
}

/// The capture sequences an index struct stands for.
spec fn caps_of_idx(s: Seq<char>, ci: CapturesIdx) -> RawCaptures {
    RawCaptures {
        title: s.subrange(ci.title_start as int, ci.title_end as int),
        season: match ci.season {
            None => None,
            Some(ab) => Some(s.subrange(ab.0 as int, ab.1 as int)),
        },
        code: ci.code,
        episode: s.subrange(ci.episode.0 as int, ci.episode.1 as int),
        version: match ci.version {
            None => None,
            Some(ab) => Some(s.subrange(ab.0 as int, ab.1 as int)),
        },
        media: match ci.media {
            None => None,
            Some(m) => Some(
                MediaMatch {
                    token: s.subrange(m.token.0 as int, m.token.1 as int),
                    width: s.subrange(m.width.0 as int, m.width.1 as int),
                    height: s.subrange(m.height.0 as int, m.height.1 as int),
                },
            ),
        },
    }
}

/// A digit capture range: within bounds and all digits.
spec fn digit_range_ok(s: Seq<char>, ab: (usize, usize)) -> bool {
    ab.0 <= ab.1 <= s.len() && all_digits(s.subrange(ab.0 as int, ab.1 as int))
}

/// Runs the grammar match over the character vector and hands back the
/// capture positions.
fn captures_of(v: &Vec<char>) -> (r: Option<CapturesIdx>)
    ensures
        match r {
            None => spec_captures(v@) is None,
            Some(ci) => {
                &&& spec_captures(v@) == Some(caps_of_idx(v@, ci))
                &&& ci.title_start <= ci.title_end <= v@.len()
                &&& match ci.season {
                    None => true,
                    Some(ab) => digit_range_ok(v@, ab),
                }
                &&& digit_range_ok(v@, ci.episode)
                &&& match ci.version {
                    None => true,
                    Some(ab) => digit_range_ok(v@, ab),
                }
                &&& match ci.media {
                    None => true,
                    Some(m) => {
                        &&& m.token.0 <= m.token.1 <= v@.len()
                        &&& digit_range_ok(v@, m.width)
                        &&& digit_range_ok(v@, m.height)
                    },
                }
            },
        },
{
    let n = v.len();
    let ls = match last_slash_exec(v) {
        Some(i) => i,
        None => {
            return None;
        },
    };
    let t0 = ls + 1;
    let j = match first_sep_exec(v, t0) {
        Some(j) => j,
        None => {
            return None;
        },
    };
    let (season, marker_after) = match marker_at(v, j + 3) {
        Some(t) => t,
        None => {
            proof {
                assert(false);
            }
            return None;
        },
    };
    let (code, ep_range, ep_after) = match episode_at(v, marker_after) {
        Some(t) => t,
        None => {
            proof {
                assert(false);
            }
            return None;
        },
    };
    let (version, v_after) = version_at(v, ep_after);
    let media = if n - v_after >= 2 && v[v_after] == ' ' && v[v_after + 1] == '[' {
        if n - v_after == 2 {
            // Too short for any media tail: the block is absent.
            proof {
                assert(first_media_tail(v@, v_after + 3) is None);
            }
            None
        } else {
            match first_media_tail_exec(v, v_after + 3) {
                Some(mj) => {
                    let w = digits_end_exec(v, mj + 2);
                    proof {
                        lemma_digits_end(v@, mj + 2);
                    }
                    let h = digits_end_exec(v, w + 1);
                    proof {
                        lemma_digits_end(v@, w + 1);
                    }
                    Some(
                        MediaIdx { token: (v_after + 2, mj), width: (mj + 2, w), height: (w + 1, h) },
                    )
                },
                None => None,
            }
        }
    } else {
        None
    };
    Some(
        CapturesIdx {
            title_start: t0,
            title_end: j,
            season,
            code,
            episode: ep_range,
            version,
            media,
        },
    )
}

/// The record a path parses to, if any: the grammar match of the path with
/// its numeric captures converted. Season, episode, width and height must fit
/// their field widths; a version that does not fit falls back to 1.
pub open spec fn spec_parse(s: Seq<char>) -> Option<AnimeFileView> {
    match spec_captures(s) {
        None => None,
        Some(c) => {
            let season_over = match c.season {
                Some(d) => digits_val(d) > u8::MAX,
                None => false,
            };
            let media_over = match c.media {
                Some(m) => digits_val(m.width) > u64::MAX || digits_val(m.height) > u64::MAX,
                None => false,
            };
            if season_over || digits_val(c.episode) > u16::MAX || media_over {
                None
            } else {
                Some(
                    AnimeFileView {
                        file_name: s,
                        title: c.title,
                        season: match c.season {
                            None => SeasonNum::NoSeason,
                            Some(d) => SeasonNum::Season(digits_val(d) as u8),
                        },
                        episode: spec_episode_kind(c.code, digits_val(c.episode) as u16),
                        source_media: match c.media {
                            None => SourceMedia::UnknownMedia,
                            Some(m) => spec_source_media(m.token),
                        },
                        resolution_width: match c.media {
                            None => None,
                            Some(m) => Some(digits_val(m.width) as u64),
                        },
                        resolution_height: match c.media {
                            None => None,
                            Some(m) => Some(digits_val(m.height) as u64),
                        },
                        version: match c.version {
                            None => 1u8,
                            Some(d) => if digits_val(d) > u8::MAX {
                                1u8
                            } else {
                                digits_val(d) as u8
                            },
                        },
                    },
                )
            }
        },
    }
}

/// Episode-type codes map to kinds as the grammar names them: `C` is a
/// closing, `S` a special, `T` a trailer, `O` an opening, and a missing code
/// is a plain episode, whatever the episode number.
pub proof fn lemma_episode_code_kinds(n: u16)
    ensures
        spec_episode_kind(None, n) == EpisodeNum::Episode(n),
        spec_episode_kind(Some('C'), n) == EpisodeNum::Closing(n),
        spec_episode_kind(Some('S'), n) == EpisodeNum::Special(n),
        spec_episode_kind(Some('T'), n) == EpisodeNum::Trailer(n),
        spec_episode_kind(Some('O'), n) == EpisodeNum::Opening(n),
{
}

/// The captured type code decides the parsed record's episode kind, and the
/// captured digits its number: the code round-trips through parsing.
pub proof fn lemma_code_decides_kind(s: Seq<char>)
    requires
        spec_parse(s) is Some,
    ensures
        spec_captures(s) is Some,
        spec_parse(s)->Some_0.episode == spec_episode_kind(
            spec_captures(s)->Some_0.code,
            digits_val(spec_captures(s)->Some_0.episode) as u16,
        ),
{
}

/// A recognized path without a version suffix parses to version 1.
pub proof fn lemma_version_default(s: Seq<char>)
    requires
        spec_parse(s) is Some,
        spec_captures(s)->Some_0.version is None,
    ensures
        spec_parse(s)->Some_0.version == 1u8,
{
}

/// A version suffix overrides the default: the parsed version is the value
/// of the suffix's digits whenever that value fits its field.
pub proof fn lemma_version_override(s: Seq<char>)
    requires
        spec_parse(s) is Some,
        spec_captures(s)->Some_0.version is Some,
        digits_val(spec_captures(s)->Some_0.version->Some_0) <= u8::MAX,
    ensures
        spec_parse(s)->Some_0.version == digits_val(
            spec_captures(s)->Some_0.version->Some_0,
        ) as u8,
{
}

impl AnimeFile {
    /// Parses one path string into a record.
    ///
    /// The result is exactly [`spec_parse`] of the path, for every input:
    /// parsing is total, and identical input always yields an identical
    /// record. `None` signals "not a recognized media file", never an error.
    pub fn new(file: String) -> (r: Option<AnimeFile>)
        ensures
            match r {
                Some(af) => spec_parse(file@) == Some(af@),
                None => spec_parse(file@) is None,
            },
    {
        let v = chars_of(file.as_str());
        let ci = match captures_of(&v) {
            Some(c) => c,
            None => {
                return None;
            },
        };
        let season = match ci.season {
            None => SeasonNum::NoSeason,
            Some((a, b)) => {
                match parse_u64_digits(&v, a, b) {
                    None => {
                        return None;
                    },
                    Some(x) => {
                        if x > 255 {
                            return None;
                        }
                        SeasonNum::Season(x as u8)
                    },
                }
            },
        };
        let (ea, eb) = ci.episode;
        let ep_val: u16 = match parse_u64_digits(&v, ea, eb) {
            None => {
                return None;
            },
            Some(x) => {
                if x > 65535 {
                    return None;
                }
                x as u16
            },
        };
        let episode = match ci.code {
            None => EpisodeNum::Episode(ep_val),
            Some(c) => {
                if c == 'C' {
                    EpisodeNum::Closing(ep_val)
                } else if c == 'S' {
                    EpisodeNum::Special(ep_val)
                } else if c == 'T' {
                    EpisodeNum::Trailer(ep_val)
                } else if c == 'O' {
                    EpisodeNum::Opening(ep_val)
                } else {
                    EpisodeNum::OtherEpisode(ep_val)
                }
            },
        };
        let (source_media, width, height) = match ci.media {
            None => (SourceMedia::UnknownMedia, None, None),
            Some(m) => {
                let w = match parse_u64_digits(&v, m.width.0, m.width.1) {
                    None => {
                        return None;
                    },
                    Some(x) => x,
                };
                let h = match parse_u64_digits(&v, m.height.0, m.height.1) {
                    None => {
                        return None;
                    },
                    Some(x) => x,
                };
                let (ta, tb) = m.token;
                let sm = if str_range_eq(&v, ta, tb, "www") {
                    SourceMedia::WWW
                } else if str_range_eq(&v, ta, tb, "Blu-ray") {
                    SourceMedia::BluRay
                } else if str_range_eq(&v, ta, tb, "DVD") {
                    SourceMedia::DVD
                } else if str_range_eq(&v, ta, tb, "HDTV") {
                    SourceMedia::HDTV
                } else if str_range_eq(&v, ta, tb, "DTV") {
                    SourceMedia::DTV
                } else if str_range_eq(&v, ta, tb, "VHS") {
                    SourceMedia::VHS
                } else if str_range_eq(&v, ta, tb, "HKDVD") {
                    SourceMedia::HKDVD
                } else if str_range_eq(&v, ta, tb, "LD") {
                    SourceMedia::LaserDisc
                } else if str_range_eq(&v, ta, tb, "TV") {
                    SourceMedia::TV
                } else if tb - ta == 0 || str_range_eq(&v, ta, tb, "unknown") {
                    SourceMedia::UnknownMedia
                } else {
                    SourceMedia::OtherMedia
                };
                (sm, Some(w), Some(h))
            },
        };
        let version: u8 = match ci.version {
            None => 1,
            Some((a, b)) => {
                match parse_u64_digits(&v, a, b) {
                    None => 1,
                    Some(x) => {
                        if x > 255 {
                            1
                        } else {
                            x as u8
                        }
                    },
                }
            },
        };
        let title_str = file.as_str().substring_char(ci.title_start, ci.title_end);
        let title = String::from_str(title_str);
        Some(
            AnimeFile {
                file_name: file,
                title,
                season,
                episode,
                source_media,
                resolution_width: width,
                resolution_height: height,
                version,
            },
        )
    }
}

} // verus!

