use anime_dupe_finder::records::AnimeFile;
use anime_dupe_finder::records::EpisodeNum;
use anime_dupe_finder::records::SeasonNum;
use anime_dupe_finder::records::SourceMedia;

#[test]
fn animefile_sets_parts_for_episode() {
    let file: String = String::from(
        "./Fairy Tail 2014 - S01E01 [www][1280x720.H264AVC.AAC][HorribleSubs](6a6129cd511d56c6080d50d68dcea5011600d7f4).mkv",
    );
    let title: String = String::from("Fairy Tail 2014");
    let af = match AnimeFile::new(file.clone()) {
        Some(a) => a,
        None => panic!("Didn't get an AnimeFile!"),
    };
    println!("{:?}", af);

    assert_eq!(file, af.file_name);
    assert_eq!(title, af.title);
    assert_eq!(SeasonNum::Season(1), af.season);
    assert_eq!(EpisodeNum::Episode(1), af.episode);
    assert_eq!(SourceMedia::WWW, af.source_media);
    assert_eq!(Some(1280u64), af.resolution_width);
    assert_eq!(Some(720u64), af.resolution_height);
    assert_eq!(1u8, af.version);
}

#[test]
fn animefile_sets_parts_for_trailer() {
    let file: String = String::from(
        "./Working`!! - S01ET9 [Blu-ray][1920x1080.H264AVC.FLAC][tlacatlc6](91938f8ec4d2affd2f5877279af7e6803b7abcf5).mkv",
    );
    let title: String = String::from("Working`!!");
    let af = match AnimeFile::new(file.clone()) {
        Some(a) => a,
        None => panic!("Didn't get an AnimeFile!"),
    };
    println!("{:?}", af);

    assert_eq!(file, af.file_name);
    assert_eq!(title, af.title);
    assert_eq!(SeasonNum::Season(1), af.season);
    assert_eq!(EpisodeNum::Trailer(9), af.episode);
    assert_eq!(SourceMedia::BluRay, af.source_media);
    assert_eq!(Some(1920u64), af.resolution_width);
    assert_eq!(Some(1080u64), af.resolution_height);
    assert_eq!(1u8, af.version);
}

#[test]
fn animefile_sets_parts_for_closing() {
    let file: String = String::from(
        "./Zero no Tsukaima Princess no Rondo - S01EC2 [Blu-ray][1280x720.H264AVC.FLAC][Doki](bea85424422dd1465d0758b051991966eeca6574).mkv",
    );
    let title: String = String::from("Zero no Tsukaima Princess no Rondo");
    let af = match AnimeFile::new(file.clone()) {
        Some(a) => a,
        None => panic!("Didn't get an AnimeFile!"),
    };
    println!("{:?}", af);

    assert_eq!(file, af.file_name);
    assert_eq!(title, af.title);
    assert_eq!(SeasonNum::Season(1), af.season);
    assert_eq!(EpisodeNum::Closing(2), af.episode);
    assert_eq!(SourceMedia::BluRay, af.source_media);
    assert_eq!(Some(1280u64), af.resolution_width);
    assert_eq!(Some(720u64), af.resolution_height);
    assert_eq!(1u8, af.version);
}

#[test]
fn animefile_sets_parts_for_opening() {
    let file: String = String::from(
        "./The Garden of Sinners - S01EO7 [Blu-ray][1920x1080.H264AVC.FLAC][Coalgirls](8e28f917be6423ce5ee4deee1369eb4e2eb02e48).mkv",
    );
    let title: String = String::from("The Garden of Sinners");
    let af = match AnimeFile::new(file.clone()) {
        Some(a) => a,
        None => panic!("Didn't get an AnimeFile!"),
    };
    println!("{:?}", af);

    assert_eq!(file, af.file_name);
    assert_eq!(title, af.title);
    assert_eq!(SeasonNum::Season(1), af.season);
    assert_eq!(EpisodeNum::Opening(7), af.episode);
    assert_eq!(SourceMedia::BluRay, af.source_media);
    assert_eq!(Some(1920u64), af.resolution_width);
    assert_eq!(Some(1080u64), af.resolution_height);
    assert_eq!(1u8, af.version);
}

#[test]
fn animefile_sets_parts_for_special() {
    let file: String = String::from(
        "./Texhnolyze - S01ES5 [DVD][704x396.XviD.Vorbis Ogg Vorbis_][V-A](d6175eabce82902d23446af3574fdd87286368c6).mkv",
    );
    let title: String = String::from("Texhnolyze");
    let af = match AnimeFile::new(file.clone()) {
        Some(a) => a,
        None => panic!("Didn't get an AnimeFile!"),
    };
    println!("{:?}", af);

    assert_eq!(file, af.file_name);
    assert_eq!(title, af.title);
    assert_eq!(SeasonNum::Season(1), af.season);
    assert_eq!(EpisodeNum::Special(5), af.episode);
    assert_eq!(SourceMedia::DVD, af.source_media);
    assert_eq!(Some(704u64), af.resolution_width);
    assert_eq!(Some(396u64), af.resolution_height);
    assert_eq!(1u8, af.version);
}

#[test]
fn animefile_sets_parts_for_version() {
    let file: String = String::from(
        "./Fairy Tail - S01E034v2 [HDTV][1280x720.H264AVC.AAC][Kyuubi](304a75ced2d46016e3df0c8b4607f4afe4e75952).mp4",
    );
    let title: String = String::from("Fairy Tail");
    let af = match AnimeFile::new(file.clone()) {
        Some(a) => a,
        None => panic!("Didn't get an AnimeFile!"),
    };
    println!("{:?}", af);

    assert_eq!(file, af.file_name);
    assert_eq!(title, af.title);
    assert_eq!(SeasonNum::Season(1), af.season);
    assert_eq!(EpisodeNum::Episode(34), af.episode);
    assert_eq!(SourceMedia::HDTV, af.source_media);
    assert_eq!(Some(1280u64), af.resolution_width);
    assert_eq!(Some(720u64), af.resolution_height);
    assert_eq!(2u8, af.version);
}

#[test]
fn parses_minimal_media_block_prefix() {
    let af = AnimeFile::new(String::from("A/B - S01E01 [www][1280x720")).unwrap();
    assert_eq!("B", af.title);
    assert_eq!(SeasonNum::Season(1), af.season);
    assert_eq!(EpisodeNum::Episode(1), af.episode);
    assert_eq!(SourceMedia::WWW, af.source_media);
    assert_eq!(Some(1280u64), af.resolution_width);
    assert_eq!(Some(720u64), af.resolution_height);
    assert_eq!(1u8, af.version);
}

#[test]
fn parse_is_deterministic_on_identical_input() {
    let path = "./X - Ep12v3 [DTV][640x480]";
    let a = AnimeFile::new(String::from(path)).unwrap();
    let b = AnimeFile::new(String::from(path)).unwrap();
    assert_eq!(a, b);
}

#[test]
fn unrecognized_paths_yield_nothing() {
    assert_eq!(None, AnimeFile::new(String::from("./just a plain file.mkv")));
    assert_eq!(None, AnimeFile::new(String::from("no slash - Ep1")).map(|_| ()));
    assert_eq!(None, AnimeFile::new(String::from("./Title - S01x [www]")));
    assert_eq!(None, AnimeFile::new(String::from("")));
}

#[test]
fn ep_marker_without_season_yields_no_season() {
    let af = AnimeFile::new(String::from("dir/Show - Ep7")).unwrap();
    assert_eq!(SeasonNum::NoSeason, af.season);
    assert_eq!(EpisodeNum::Episode(7), af.episode);
    assert_eq!(SourceMedia::UnknownMedia, af.source_media);
    assert_eq!(None, af.resolution_width);
    assert_eq!(None, af.resolution_height);
    assert_eq!(1u8, af.version);
}

#[test]
fn season_marker_with_x_parses() {
    let af = AnimeFile::new(String::from("dir/Show - S2xE3")).unwrap();
    assert_eq!(SeasonNum::Season(2), af.season);
    assert_eq!(EpisodeNum::Episode(3), af.episode);
}

#[test]
fn media_token_table_maps_every_kind() {
    let cases: Vec<(&str, SourceMedia)> = vec![
        ("www", SourceMedia::WWW),
        ("Blu-ray", SourceMedia::BluRay),
        ("DVD", SourceMedia::DVD),
        ("HDTV", SourceMedia::HDTV),
        ("DTV", SourceMedia::DTV),
        ("VHS", SourceMedia::VHS),
        ("HKDVD", SourceMedia::HKDVD),
        ("LD", SourceMedia::LaserDisc),
        ("TV", SourceMedia::TV),
        ("unknown", SourceMedia::UnknownMedia),
        ("SomethingElse", SourceMedia::OtherMedia),
    ];
    for (token, media) in cases {
        let path = format!("d/T - Ep1 [{}][100x200", token);
        let af = AnimeFile::new(path).unwrap();
        assert_eq!(media, af.source_media);
        assert_eq!(Some(100u64), af.resolution_width);
        assert_eq!(Some(200u64), af.resolution_height);
    }
}

#[test]
fn version_out_of_range_falls_back_to_one() {
    let af = AnimeFile::new(String::from("d/T - Ep1v999")).unwrap();
    assert_eq!(1u8, af.version);
}

#[test]
fn season_out_of_range_is_no_match() {
    assert_eq!(None, AnimeFile::new(String::from("d/T - S999E01")));
    assert_eq!(None, AnimeFile::new(String::from("d/T - Ep99999")));
}

#[test]
fn title_runs_from_last_slash_to_first_viable_separator() {
    let af = AnimeFile::new(String::from("a/b/T - X - Ep1 - Ep2")).unwrap();
    assert_eq!("T - X", af.title);
    assert_eq!(EpisodeNum::Episode(1), af.episode);
}

#[test]
fn numeric_field_width_boundaries() {
    let af = AnimeFile::new(String::from("d/T - S255E65535")).unwrap();
    assert_eq!(SeasonNum::Season(255), af.season);
    assert_eq!(EpisodeNum::Episode(65535), af.episode);
    assert_eq!(None, AnimeFile::new(String::from("d/T - S256E01")));
    assert_eq!(None, AnimeFile::new(String::from("d/T - Ep65536")));
}
