//! The typed record that one parsed file path yields: season and episode
//! tags, source media, optional resolution, and a release version.

use vstd::prelude::*;

verus! {

/// The season marker of a file, or its absence.
#[derive(Debug, PartialEq, Eq, Clone, Copy, Structural)]
pub enum SeasonNum {
    Season(u8),
    NoSeason,
}

/// The episode number of a file together with its kind: a plain episode, an
/// opening, a closing, a special, a trailer, a number whose unit code matched
/// no known letter, or no episode digits at all.
#[derive(Debug, PartialEq, Eq, Clone, Copy, Structural)]
pub enum EpisodeNum {
    Episode(u16),
    Opening(u16),
    Closing(u16),
    Special(u16),
    Trailer(u16),
    OtherEpisode(u16),
    NoEpisode,
}

/// The medium a file was sourced from; `OtherMedia` stands for a recognized
/// but uncategorized token, `UnknownMedia` for an empty or literal "unknown"
/// token.
#[derive(Debug, PartialEq, Eq, Clone, Copy, Structural)]
pub enum SourceMedia {
    BluRay,
    DVD,
    WWW,
    HDTV,
    DTV,
    HKDVD,
    VHS,
    LaserDisc,
    TV,
    OtherMedia,
    UnknownMedia,
}

/// The record parsed out of one file path. `resolution_width` and
/// `resolution_height` are captured together, so they are both present or
/// both absent; `version` defaults to 1 when the path carries no version
/// suffix.
#[derive(Debug, PartialEq, Eq)]
pub struct AnimeFile {
    pub file_name: String,
    pub title: String,
    pub season: SeasonNum,
    pub episode: EpisodeNum,
    pub source_media: SourceMedia,
    pub resolution_width: Option<u64>,
    pub resolution_height: Option<u64>,
    pub version: u8,
}

/// The mathematical image of an [`AnimeFile`]: the strings as character
/// sequences, everything else as it is.
pub ghost struct AnimeFileView {
    pub file_name: Seq<char>,
    pub title: Seq<char>,
    pub season: SeasonNum,
    pub episode: EpisodeNum,
    pub source_media: SourceMedia,
    pub resolution_width: Option<u64>,
    pub resolution_height: Option<u64>,
    pub version: u8,
}

impl View for AnimeFile {
    type V = AnimeFileView;

    open spec fn view(&self) -> AnimeFileView {
        AnimeFileView {
            file_name: self.file_name@,
            title: self.title@,
            season: self.season,
            episode: self.episode,
            source_media: self.source_media,
            resolution_width: self.resolution_width,
            resolution_height: self.resolution_height,
            version: self.version,
        }
    }
}

impl Clone for AnimeFile {
    fn clone(&self) -> (r: Self)
        ensures
            r == *self,
    {
        AnimeFile {
            file_name: self.file_name.clone(),
            title: self.title.clone(),
            season: self.season,
            episode: self.episode,
            source_media: self.source_media,
            resolution_width: self.resolution_width,
            resolution_height: self.resolution_height,
            version: self.version,
        }
    }
}

} // verus!
