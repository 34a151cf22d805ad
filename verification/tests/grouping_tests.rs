use anime_dupe_finder::grouping::group_files;
use anime_dupe_finder::records::AnimeFile;
use anime_dupe_finder::records::EpisodeNum;
use anime_dupe_finder::records::SeasonNum;
use anime_dupe_finder::records::SourceMedia;
use anime_dupe_finder::resolve::removal_plan;

fn record(path: &str, season: SeasonNum, episode: EpisodeNum) -> AnimeFile {
    AnimeFile {
        file_name: String::from(path),
        title: String::from("T"),
        season,
        episode,
        source_media: SourceMedia::UnknownMedia,
        resolution_width: None,
        resolution_height: None,
        version: 1,
    }
}

#[test]
fn two_files_of_one_episode_form_one_group() {
    let a = record("d/T - S01E01 a.mkv", SeasonNum::Season(1), EpisodeNum::Episode(1));
    let b = record("d/T - S01E01 b.mkv", SeasonNum::Season(1), EpisodeNum::Episode(1));
    let groups = group_files(vec![a.clone(), b.clone()]);
    assert_eq!(1, groups.len());
    assert_eq!(vec![a, b], groups[0]);
}

#[test]
fn grouping_partitions_without_loss_or_duplication() {
    let a = record("a", SeasonNum::Season(1), EpisodeNum::Episode(1));
    let b = record("b", SeasonNum::Season(1), EpisodeNum::Episode(2));
    let c = record("c", SeasonNum::Season(1), EpisodeNum::Episode(1));
    let d = record("d", SeasonNum::NoSeason, EpisodeNum::Episode(1));
    let groups = group_files(vec![a.clone(), b.clone(), c.clone(), d.clone()]);
    let total: usize = groups.iter().map(|g| g.len()).sum();
    assert_eq!(4, total);
    let mut flat: Vec<AnimeFile> = Vec::new();
    for g in &groups {
        for f in g {
            flat.push(f.clone());
        }
    }
    for x in [&a, &b, &c, &d] {
        assert_eq!(1, flat.iter().filter(|y| *y == x).count());
    }
    // a and c share a key and arrive in order; b and d stand alone.
    assert!(groups.iter().any(|g| g.len() == 2 && g[0] == a && g[1] == c));
}

#[test]
fn different_episode_kinds_never_share_a_group() {
    let a = record("a", SeasonNum::Season(1), EpisodeNum::Episode(1));
    let b = record("b", SeasonNum::Season(1), EpisodeNum::OtherEpisode(1));
    let groups = group_files(vec![a, b]);
    assert_eq!(2, groups.len());
    assert_eq!(1, groups[0].len());
    assert_eq!(1, groups[1].len());
}

#[test]
fn groups_come_out_in_textual_key_order() {
    let ep10 = record("x", SeasonNum::Season(1), EpisodeNum::Episode(10));
    let ep2 = record("y", SeasonNum::Season(1), EpisodeNum::Episode(2));
    let groups = group_files(vec![ep2.clone(), ep10.clone()]);
    // "Episode(10)" sorts before "Episode(2)" textually.
    assert_eq!(2, groups.len());
    assert_eq!(ep10, groups[0][0]);
    assert_eq!(ep2, groups[1][0]);
}

#[test]
fn keeping_one_of_three_removes_the_other_two() {
    let a = record("a", SeasonNum::Season(1), EpisodeNum::Episode(1));
    let b = record("b", SeasonNum::Season(1), EpisodeNum::Episode(1));
    let c = record("c", SeasonNum::Season(1), EpisodeNum::Episode(1));
    let files = vec![a.clone(), b.clone(), c.clone()];
    let plan = removal_plan(&files, &vec![String::from("1")]).unwrap();
    assert_eq!(vec![a, c], plan);
}

#[test]
fn keep_selection_is_independent_of_token_order() {
    let a = record("a", SeasonNum::Season(1), EpisodeNum::Episode(1));
    let b = record("b", SeasonNum::Season(1), EpisodeNum::Episode(1));
    let c = record("c", SeasonNum::Season(1), EpisodeNum::Episode(1));
    let files = vec![a, b, c];
    let p1 = removal_plan(&files, &vec![String::from("0"), String::from("2")]);
    let p2 = removal_plan(&files, &vec![String::from("2"), String::from("0")]);
    let p3 = removal_plan(&files, &vec![String::from("2"), String::from("0"), String::from("0")]);
    assert_eq!(p1, p2);
    assert_eq!(p1, p3);
    assert_eq!(vec![files[1].clone()], p1.unwrap());
}

#[test]
fn cancel_skips_the_whole_group() {
    let a = record("a", SeasonNum::Season(1), EpisodeNum::Episode(1));
    let b = record("b", SeasonNum::Season(1), EpisodeNum::Episode(1));
    let files = vec![a, b];
    assert_eq!(None, removal_plan(&files, &vec![String::from("c")]));
    assert_eq!(None, removal_plan(&files, &vec![String::from("0"), String::from("c")]));
}

#[test]
fn keeping_an_out_of_range_index_removes_everything() {
    let a = record("a", SeasonNum::Season(1), EpisodeNum::Episode(1));
    let b = record("b", SeasonNum::Season(1), EpisodeNum::Episode(1));
    let files = vec![a.clone(), b.clone()];
    // Index 2 names no candidate: nothing is kept.
    let plan = removal_plan(&files, &vec![String::from("2")]).unwrap();
    assert_eq!(vec![a, b], plan);
}
