//! Grouping of parsed records by their shared episode identity.
//!
//! Two records belong to the same group exactly when the textual rendering of
//! their `(season, episode)` pair — tag and value, episode kind included — is
//! the same, and groups come out ordered by that text ascending. Ordering by
//! the rendering, not the number, is deliberate: `Episode(10)` sorts before
//! `Episode(2)`.

use vstd::prelude::*;
use crate::records::AnimeFile;
use crate::records::EpisodeNum;
use crate::records::SeasonNum;
use crate::text::dec_str;
use crate::text::lemma_dec_str_all_digits;
use crate::text::lemma_dec_str_injective;
use crate::text::spec_is_digit;
use crate::text::chars_eq;
use crate::text::lemma_lex_lt_transitive;
use crate::text::lemma_lex_lt_trichotomy;
use crate::text::lex_lt;
use crate::text::lex_lt_chars;
use crate::text::push_dec_u64;
use crate::text::push_str_chars;

verus! {

/// The textual rendering of a season tag.
pub open spec fn season_key(s: SeasonNum) -> Seq<char> {
    match s {
        SeasonNum::Season(n) => "Season("@ + dec_str(n as nat) + ")"@,
        SeasonNum::NoSeason => "NoSeason"@,
    }
}

/// The textual rendering of an episode tag, kind included.
pub open spec fn episode_key(e: EpisodeNum) -> Seq<char> {
    match e {
        EpisodeNum::Episode(n) => "Episode("@ + dec_str(n as nat) + ")"@,
        EpisodeNum::Opening(n) => "Opening("@ + dec_str(n as nat) + ")"@,
        EpisodeNum::Closing(n) => "Closing("@ + dec_str(n as nat) + ")"@,
        EpisodeNum::Special(n) => "Special("@ + dec_str(n as nat) + ")"@,
        EpisodeNum::Trailer(n) => "Trailer("@ + dec_str(n as nat) + ")"@,
        EpisodeNum::OtherEpisode(n) => "OtherEpisode("@ + dec_str(n as nat) + ")"@,
        EpisodeNum::NoEpisode => "NoEpisode"@,
    }
}

/// The grouping key of a season and episode pair: the two renderings joined
/// by one space.
pub open spec fn group_key(s: SeasonNum, e: EpisodeNum) -> Seq<char> {
    season_key(s) + " "@ + episode_key(e)
}

/// The grouping key of a record.
pub open spec fn spec_key(f: AnimeFile) -> Seq<char> {
    group_key(f.season, f.episode)
}

/// Renders the grouping key of a record.
fn key_of(f: &AnimeFile) -> (r: Vec<char>)
    ensures
        r@ == spec_key(*f),
{
    let mut k: Vec<char> = Vec::new();
    match f.season {
        SeasonNum::Season(n) => {
            push_str_chars(&mut k, "Season(");
            push_dec_u64(&mut k, n as u64);
            push_str_chars(&mut k, ")");
        },
        SeasonNum::NoSeason => {
            push_str_chars(&mut k, "NoSeason");
        },
    }
    push_str_chars(&mut k, " ");
    match f.episode {
        EpisodeNum::Episode(n) => {
            push_str_chars(&mut k, "Episode(");
            push_dec_u64(&mut k, n as u64);
            push_str_chars(&mut k, ")");
        },
        EpisodeNum::Opening(n) => {
            push_str_chars(&mut k, "Opening(");
            push_dec_u64(&mut k, n as u64);
            push_str_chars(&mut k, ")");
        },
        EpisodeNum::Closing(n) => {
            push_str_chars(&mut k, "Closing(");
            push_dec_u64(&mut k, n as u64);
            push_str_chars(&mut k, ")");
        },
        EpisodeNum::Special(n) => {
            push_str_chars(&mut k, "Special(");
            push_dec_u64(&mut k, n as u64);
            push_str_chars(&mut k, ")");
        },
        EpisodeNum::Trailer(n) => {
            push_str_chars(&mut k, "Trailer(");
            push_dec_u64(&mut k, n as u64);
            push_str_chars(&mut k, ")");
        },
        EpisodeNum::OtherEpisode(n) => {
            push_str_chars(&mut k, "OtherEpisode(");
            push_dec_u64(&mut k, n as u64);
            push_str_chars(&mut k, ")");
        },
        EpisodeNum::NoEpisode => {
            push_str_chars(&mut k, "NoEpisode");
        },
    }
    proof {
        assert(k@ =~= spec_key(*f));
    }
    k
}

/// Some group of the output starts with a record of key `k`.
pub open spec fn some_group_headed_by(groups: Seq<Vec<AnimeFile>>, k: Seq<char>) -> bool {
    exists|g: int| 0 <= g < groups.len() && k == spec_key(#[trigger] groups[g]@[0])
}

/// The predicate selecting the records whose key is `k`.
pub open spec fn key_pred(k: Seq<char>) -> spec_fn(AnimeFile) -> bool {
    |f: AnimeFile| spec_key(f) == k
}

/// The predicate selecting the records whose key is not `k`.
pub open spec fn not_key_pred(k: Seq<char>) -> spec_fn(AnimeFile) -> bool {
    |f: AnimeFile| spec_key(f) != k
}

/// Filtering a sequence extended by one record keeps the old records and
/// appends the new one exactly when it satisfies the predicate.
proof fn lemma_filter_push(s: Seq<AnimeFile>, f: AnimeFile, pred: spec_fn(AnimeFile) -> bool)
    ensures
        s.push(f).filter(pred) == if pred(f) {
            s.filter(pred).push(f)
        } else {
            s.filter(pred)
        },
{
    reveal(Seq::filter);
    assert(s.push(f).drop_last() =~= s);
    assert(s.push(f).last() == f);
}

/// A key that no record of the sequence has selects nothing.
proof fn lemma_filter_none(s: Seq<AnimeFile>, k: Seq<char>)
    requires
        forall|i: int| 0 <= i < s.len() ==> spec_key(#[trigger] s[i]) != k,
    ensures
        s.filter(key_pred(k)) == Seq::<AnimeFile>::empty(),
    decreases s.len(),
{
    reveal(Seq::filter);
    if s.len() > 0 {
        assert(forall|i: int|
            0 <= i < s.drop_last().len() ==> spec_key(#[trigger] s.drop_last()[i]) != k);
        lemma_filter_none(s.drop_last(), k);
        assert(spec_key(s.last()) != k);
    } else {
        assert(s.filter(key_pred(k)) =~= Seq::<AnimeFile>::empty());
    }
}

/// Every record of a filtered sequence comes from the original sequence.
proof fn lemma_filter_subset(s: Seq<AnimeFile>, pred: spec_fn(AnimeFile) -> bool)
    ensures
        forall|i: int| 0 <= i < s.filter(pred).len() ==> s.contains(#[trigger] s.filter(pred)[i]),
    decreases s.len(),
{
    reveal(Seq::filter);
    if s.len() > 0 {
        let dl = s.drop_last();
        lemma_filter_subset(dl, pred);
        assert forall|i: int| 0 <= i < s.filter(pred).len() implies s.contains(
            #[trigger] s.filter(pred)[i],
        ) by {
            if i < dl.filter(pred).len() {
                assert(dl.filter(pred)[i] == s.filter(pred)[i]);
                let j = choose|j: int| 0 <= j < dl.len() && dl[j] == dl.filter(pred)[i];
                assert(s[j] == s.filter(pred)[i]);
            } else {
                assert(s.filter(pred)[i] == s.last());
                assert(s[s.len() - 1] == s.last());
            }
        }
    }
}

/// A sequence splits, as a multiset, into the records of one key and the
/// records of the other keys.
proof fn lemma_filter_complement_multiset(s: Seq<AnimeFile>, k: Seq<char>)
    ensures
        s.filter(key_pred(k)).to_multiset().add(s.filter(not_key_pred(k)).to_multiset())
            =~= s.to_multiset(),
    decreases s.len(),
{
    broadcast use vstd::seq_lib::group_to_multiset_ensures;
    broadcast use vstd::multiset::group_multiset_axioms;

    reveal(Seq::filter);
    if s.len() == 0 {
        assert(s.filter(key_pred(k)) == s);
        assert(s.filter(not_key_pred(k)) == s);
    } else {
        let dl = s.drop_last();
        let f = s.last();
        lemma_filter_complement_multiset(dl, k);
        assert(s =~= dl.push(f));
        assert(s.to_multiset() =~= dl.to_multiset().insert(f));
        lemma_filter_push(dl, f, key_pred(k));
        lemma_filter_push(dl, f, not_key_pred(k));
        assert(s.filter(key_pred(k)) == dl.push(f).filter(key_pred(k)));
        assert(s.filter(not_key_pred(k)) == dl.push(f).filter(not_key_pred(k)));
    }
}

/// Filtering for one key passes unchanged through a filter that only drops a
/// different key.
proof fn lemma_filter_of_filter(s: Seq<AnimeFile>, k: Seq<char>, kex: Seq<char>)
    requires
        k != kex,
    ensures
        s.filter(not_key_pred(kex)).filter(key_pred(k)) == s.filter(key_pred(k)),
    decreases s.len(),
{
    reveal(Seq::filter);
    if s.len() > 0 {
        let dl = s.drop_last();
        let f = s.last();
        lemma_filter_of_filter(dl, k, kex);
        assert(s =~= dl.push(f));
        lemma_filter_push(dl, f, key_pred(k));
        lemma_filter_push(dl, f, not_key_pred(kex));
        if spec_key(f) != kex {
            lemma_filter_push(dl.filter(not_key_pred(kex)), f, key_pred(k));
        }
    }
}

/// The groups that a list of keys selects out of the records.
spec fn groups_of(files: Seq<AnimeFile>, keys: Seq<Seq<char>>) -> Seq<Seq<AnimeFile>> {
    Seq::new(keys.len(), |g: int| files.filter(key_pred(keys[g])))
}

/// Selecting the records of each of a list of distinct keys that covers every
/// record redistributes the records exactly: nothing is dropped, nothing is
/// duplicated.
proof fn lemma_keyed_partition(files: Seq<AnimeFile>, keys: Seq<Seq<char>>)
    requires
        forall|g1: int, g2: int| 0 <= g1 < g2 < keys.len() ==> keys[g1] != keys[g2],
        forall|i: int| 0 <= i < files.len() ==> keys.contains(spec_key(#[trigger] files[i])),
    ensures
        groups_of(files, keys).flatten().to_multiset() =~= files.to_multiset(),
    decreases keys.len(),
{
    broadcast use vstd::seq_lib::group_to_multiset_ensures;
    broadcast use vstd::multiset::group_multiset_axioms;

    if keys.len() == 0 {
        assert(files.len() == 0) by {
            if files.len() > 0 {
                assert(keys.contains(spec_key(files[0])));
            }
        }
        assert(groups_of(files, keys).len() == 0);
        assert(groups_of(files, keys).flatten() =~= Seq::<AnimeFile>::empty());
        assert(groups_of(files, keys).flatten().to_multiset().len() == 0);
        assert(files.to_multiset().len() == 0);
    } else {
        let kd = keys.drop_last();
        let kl = keys.last();
        let rest = files.filter(not_key_pred(kl));
        assert forall|i: int| 0 <= i < rest.len() implies kd.contains(
            spec_key(#[trigger] rest[i]),
        ) by {
            lemma_filter_subset(files, not_key_pred(kl));
            assert(files.contains(rest[i]));
            let j = choose|j: int| 0 <= j < files.len() && files[j] == rest[i];
            assert(keys.contains(spec_key(files[j])));
            let m = choose|m: int| 0 <= m < keys.len() && keys[m] == spec_key(files[j]);
            assert(not_key_pred(kl)(rest[i]));
            assert(m < keys.len() - 1);
            assert(kd[m] == keys[m]);
        }
        lemma_keyed_partition(rest, kd);
        assert(groups_of(files, keys) =~= groups_of(rest, kd).push(
            files.filter(key_pred(kl)),
        )) by {
            assert forall|g: int| 0 <= g < kd.len() implies groups_of(rest, kd)[g] == groups_of(
                files,
                keys,
            )[g] by {
                lemma_filter_of_filter(files, keys[g], kl);
                assert(kd[g] == keys[g]);
            }
        }
        groups_of(rest, kd).lemma_flatten_push(files.filter(key_pred(kl)));
        vstd::seq_lib::lemma_multiset_commutative(
            groups_of(rest, kd).flatten(),
            files.filter(key_pred(kl)),
        );
        lemma_filter_complement_multiset(files, kl);
    }
}

/// The grouping is a pure partition: taken together, the groups of
/// [`group_files`] hold exactly the input records — none dropped, none
/// duplicated, and records of different keys never share a group.
pub proof fn lemma_group_files_partition(files: Seq<AnimeFile>, gs: Seq<Vec<AnimeFile>>)
    requires
        forall|g: int| 0 <= g < gs.len() ==> #[trigger] gs[g]@.len() > 0,
        forall|g: int|
            0 <= g < gs.len() ==> #[trigger] gs[g]@ == files.filter(key_pred(spec_key(gs[g]@[0]))),
        forall|g1: int, g2: int|
            0 <= g1 < g2 < gs.len() ==> lex_lt(
                spec_key(#[trigger] gs[g1]@[0]),
                spec_key(#[trigger] gs[g2]@[0]),
            ),
        forall|i: int| 0 <= i < files.len() ==> some_group_headed_by(gs, #[trigger] spec_key(files[i])),
    ensures
        gs.map_values(|v: Vec<AnimeFile>| v@).flatten().to_multiset() == files.to_multiset(),
{
    let keys = Seq::new(gs.len(), |g: int| spec_key(gs[g]@[0]));
    assert forall|g1: int, g2: int| 0 <= g1 < g2 < keys.len() implies keys[g1] != keys[g2] by {
        lemma_lex_lt_trichotomy(spec_key(gs[g1]@[0]), spec_key(gs[g2]@[0]));
    }
    assert forall|i: int| 0 <= i < files.len() implies keys.contains(
        spec_key(#[trigger] files[i]),
    ) by {
        assert(some_group_headed_by(gs, spec_key(files[i])));
        let g = choose|g: int|
            0 <= g < gs.len() && spec_key(files[i]) == spec_key(#[trigger] gs[g]@[0]);
        assert(keys[g] == spec_key(files[i]));
    }
    lemma_keyed_partition(files, keys);
    assert(gs.map_values(|v: Vec<AnimeFile>| v@) =~= groups_of(files, keys));
}

/// The episode number an episode tag carries, if any.
pub open spec fn episode_value(e: EpisodeNum) -> Option<u16> {
    match e {
        EpisodeNum::Episode(n) => Some(n),
        EpisodeNum::Opening(n) => Some(n),
        EpisodeNum::Closing(n) => Some(n),
        EpisodeNum::Special(n) => Some(n),
        EpisodeNum::Trailer(n) => Some(n),
        EpisodeNum::OtherEpisode(n) => Some(n),
        EpisodeNum::NoEpisode => None,
    }
}

/// The constant lead-in of an episode tag's rendering, before the number.
spec fn ep_prefix(e: EpisodeNum) -> Seq<char> {
    match e {
        EpisodeNum::Episode(_) => "Episode("@,
        EpisodeNum::Opening(_) => "Opening("@,
        EpisodeNum::Closing(_) => "Closing("@,
        EpisodeNum::Special(_) => "Special("@,
        EpisodeNum::Trailer(_) => "Trailer("@,
        EpisodeNum::OtherEpisode(_) => "OtherEpisode("@,
        EpisodeNum::NoEpisode => Seq::empty(),
    }
}

/// An episode tag with a number renders as its lead-in, the number, and a
/// closing parenthesis; the lead-in is never empty.
proof fn lemma_ep_key_shape(e: EpisodeNum, n: u16)
    requires
        episode_value(e) == Some(n),
    ensures
        episode_key(e) == ep_prefix(e) + dec_str(n as nat) + ")"@,
        ep_prefix(e).len() >= 7,
{
    reveal_strlit("Episode(");
    reveal_strlit("Opening(");
    reveal_strlit("Closing(");
    reveal_strlit("Special(");
    reveal_strlit("Trailer(");
    reveal_strlit("OtherEpisode(");
}

/// A number for each episode kind, to speak of the kind apart from its
/// value.
pub open spec fn kind_tag(e: EpisodeNum) -> int {
    match e {
        EpisodeNum::Episode(_) => 0,
        EpisodeNum::Opening(_) => 1,
        EpisodeNum::Closing(_) => 2,
        EpisodeNum::Special(_) => 3,
        EpisodeNum::Trailer(_) => 4,
        EpisodeNum::OtherEpisode(_) => 5,
        EpisodeNum::NoEpisode => 6,
    }
}

/// Any two different episode kinds with a number differ in one of the first
/// two characters of their rendering's lead-in.
proof fn lemma_ep_prefix_discriminates(e1: EpisodeNum, e2: EpisodeNum)
    requires
        kind_tag(e1) != kind_tag(e2),
        kind_tag(e1) != 6,
        kind_tag(e2) != 6,
    ensures
        ep_prefix(e1)[0] != ep_prefix(e2)[0] || ep_prefix(e1)[1] != ep_prefix(e2)[1],
{
    reveal_strlit("Episode(");
    reveal_strlit("Opening(");
    reveal_strlit("Closing(");
    reveal_strlit("Special(");
    reveal_strlit("Trailer(");
    reveal_strlit("OtherEpisode(");
}

/// Equal digit-and-parenthesis tails carry equal numbers.
proof fn lemma_digits_paren_inj(n1: nat, n2: nat)
    requires
        dec_str(n1) + ")"@ == dec_str(n2) + ")"@,
    ensures
        n1 == n2,
{
    reveal_strlit(")");
    let d1 = dec_str(n1);
    let d2 = dec_str(n2);
    lemma_dec_str_all_digits(n1);
    lemma_dec_str_all_digits(n2);
    assert((d1 + ")"@).len() == (d2 + ")"@).len());
    if d1.len() < d2.len() {
        assert((d1 + ")"@)[d1.len() as int] == ')');
        assert((d2 + ")"@)[d1.len() as int] == d2[d1.len() as int]);
        assert(spec_is_digit(d2[d1.len() as int]));
        assert(false);
    }
    if d2.len() < d1.len() {
        assert((d2 + ")"@)[d2.len() as int] == ')');
        assert((d1 + ")"@)[d2.len() as int] == d1[d2.len() as int]);
        assert(spec_is_digit(d1[d2.len() as int]));
        assert(false);
    }
    assert forall|i: int| 0 <= i < d1.len() implies d1[i] == d2[i] by {
        assert((d1 + ")"@)[i] == d1[i]);
        assert((d2 + ")"@)[i] == d2[i]);
    }
    assert(d1 =~= d2);
    lemma_dec_str_injective(n1, n2);
}

/// No character of a season rendering is a space, so the key's first space
/// separates the season from the episode.
proof fn lemma_season_key_spaceless(s: SeasonNum)
    ensures
        forall|i: int| 0 <= i < season_key(s).len() ==> #[trigger] season_key(s)[i] != ' ',
{
    reveal_strlit("Season(");
    reveal_strlit("NoSeason");
    reveal_strlit(")");
    match s {
        SeasonNum::Season(n) => {
            lemma_dec_str_all_digits(n as nat);
            let d = dec_str(n as nat);
            assert forall|i: int| 0 <= i < season_key(s).len() implies #[trigger] season_key(s)[i]
                != ' ' by {
                if i < 7 {
                    assert(season_key(s)[i] == "Season("@[i]);
                } else if i < 7 + d.len() {
                    assert(season_key(s)[i] == d[i - 7]);
                    assert(spec_is_digit(d[i - 7]));
                } else {
                    assert(season_key(s)[i] == ')');
                }
            }
        },
        SeasonNum::NoSeason => {
        },
    }
}

/// Equal season renderings come from equal season tags.
proof fn lemma_season_key_inj(s1: SeasonNum, s2: SeasonNum)
    requires
        season_key(s1) == season_key(s2),
    ensures
        s1 == s2,
{
    reveal_strlit("Season(");
    reveal_strlit("NoSeason");
    match (s1, s2) {
        (SeasonNum::Season(n1), SeasonNum::Season(n2)) => {
            let k1 = season_key(s1);
            let t1 = dec_str(n1 as nat) + ")"@;
            let t2 = dec_str(n2 as nat) + ")"@;
            assert(t1 =~= k1.subrange(7, k1.len() as int));
            assert(t2 =~= season_key(s2).subrange(7, season_key(s2).len() as int));
            lemma_digits_paren_inj(n1 as nat, n2 as nat);
        },
        (SeasonNum::Season(n1), SeasonNum::NoSeason) => {
            assert(season_key(s1)[0] == 'S');
            assert(season_key(s2)[0] == 'N');
        },
        (SeasonNum::NoSeason, SeasonNum::Season(n2)) => {
            assert(season_key(s1)[0] == 'N');
            assert(season_key(s2)[0] == 'S');
        },
        (SeasonNum::NoSeason, SeasonNum::NoSeason) => {
        },
    }
}

/// Equal episode renderings come from equal episode tags.
proof fn lemma_episode_key_inj(e1: EpisodeNum, e2: EpisodeNum)
    requires
        episode_key(e1) == episode_key(e2),
    ensures
        e1 == e2,
{
    reveal_strlit("Episode(");
    reveal_strlit("Opening(");
    reveal_strlit("Closing(");
    reveal_strlit("Special(");
    reveal_strlit("Trailer(");
    reveal_strlit("OtherEpisode(");
    reveal_strlit("NoEpisode");
    reveal_strlit(")");
    if kind_tag(e1) == 6 && kind_tag(e2) == 6 {
    } else if kind_tag(e1) == 6 {
        let n2 = episode_value(e2)->Some_0;
        lemma_ep_key_shape(e2, n2);
        assert(episode_key(e1)[0] == 'N');
        assert(episode_key(e2)[0] == ep_prefix(e2)[0]);
        assert(ep_prefix(e2)[0] != 'N');
        assert(false);
    } else if kind_tag(e2) == 6 {
        let n1 = episode_value(e1)->Some_0;
        lemma_ep_key_shape(e1, n1);
        assert(episode_key(e2)[0] == 'N');
        assert(episode_key(e1)[0] == ep_prefix(e1)[0]);
        assert(ep_prefix(e1)[0] != 'N');
        assert(false);
    } else {
        let n1 = episode_value(e1)->Some_0;
        let n2 = episode_value(e2)->Some_0;
        lemma_ep_key_shape(e1, n1);
        lemma_ep_key_shape(e2, n2);
        let p1 = ep_prefix(e1);
        let p2 = ep_prefix(e2);
        if kind_tag(e1) != kind_tag(e2) {
            lemma_ep_prefix_discriminates(e1, e2);
            assert(episode_key(e1)[0] == p1[0] && episode_key(e1)[1] == p1[1]);
            assert(episode_key(e2)[0] == p2[0] && episode_key(e2)[1] == p2[1]);
            assert(false);
        } else {
            assert(p1 == p2);
            let k1 = episode_key(e1);
            let t1 = dec_str(n1 as nat) + ")"@;
            let t2 = dec_str(n2 as nat) + ")"@;
            assert(t1 =~= k1.subrange(p1.len() as int, k1.len() as int));
            assert(t2 =~= episode_key(e2).subrange(
                p1.len() as int,
                episode_key(e2).len() as int,
            ));
            lemma_digits_paren_inj(n1 as nat, n2 as nat);
            assert(n1 == n2);
        }
    }
}

/// The textual key names the episode identity exactly: two pairs of season
/// and episode tags render to the same key only when they are the same pair.
/// Sharing a key is therefore the same as sharing the episode identity.
pub proof fn lemma_key_identifies_episode(
    s1: SeasonNum,
    e1: EpisodeNum,
    s2: SeasonNum,
    e2: EpisodeNum,
)
    requires
        group_key(s1, e1) == group_key(s2, e2),
    ensures
        s1 == s2 && e1 == e2,
{
    reveal_strlit(" ");
    lemma_season_key_spaceless(s1);
    lemma_season_key_spaceless(s2);
    let k = group_key(s1, e1);
    let a1 = season_key(s1).len() as int;
    let a2 = season_key(s2).len() as int;
    assert(k[a1] == ' ');
    assert(group_key(s2, e2)[a2] == ' ');
    if a1 < a2 {
        assert(group_key(s2, e2)[a1] == season_key(s2)[a1]);
        assert(false);
    }
    if a2 < a1 {
        assert(k[a2] == season_key(s1)[a2]);
        assert(false);
    }
    assert forall|i: int| 0 <= i < a1 implies season_key(s1)[i] == season_key(s2)[i] by {
        assert(k[i] == season_key(s1)[i]);
        assert(group_key(s2, e2)[i] == season_key(s2)[i]);
    }
    assert(season_key(s1) =~= season_key(s2));
    assert(" "@.len() == 1);
    assert(k.len() == a1 + 1 + episode_key(e1).len());
    assert(group_key(s2, e2).len() == a2 + 1 + episode_key(e2).len());
    assert(episode_key(e1).len() == episode_key(e2).len());
    assert forall|i: int| 0 <= i < episode_key(e1).len() implies episode_key(e1)[i]
        == episode_key(e2)[i] by {
        assert(k[a1 + 1 + i] == episode_key(e1)[i]);
        assert(group_key(s2, e2)[a2 + 1 + i] == episode_key(e2)[i]);
    }
    assert(episode_key(e1) =~= episode_key(e2));
    lemma_season_key_inj(s1, s2);
    lemma_episode_key_inj(e1, e2);
}

/// Two records with the same key share the whole episode identity: grouping
/// by the textual key is grouping by `(season, episode)`, kind included.
pub proof fn lemma_same_key_same_identity(f1: AnimeFile, f2: AnimeFile)
    requires
        spec_key(f1) == spec_key(f2),
    ensures
        f1.season == f2.season,
        f1.episode == f2.episode,
{
    lemma_key_identifies_episode(f1.season, f1.episode, f2.season, f2.episode);
}

/// Two records that differ only in episode kind never share a group: with
/// the same season and the same episode number, different kinds render to
/// different keys.
pub proof fn lemma_kind_separates_groups(s: SeasonNum, e1: EpisodeNum, e2: EpisodeNum)
    requires
        e1 != e2,
        episode_value(e1) == episode_value(e2),
    ensures
        group_key(s, e1) != group_key(s, e2),
{
    if group_key(s, e1) == group_key(s, e2) {
        lemma_key_identifies_episode(s, e1, s, e2);
    }
}

/// One group accumulated while scanning the input: its key and its members
/// in arrival order.
struct GroupAcc {
    key: Vec<char>,
    members: Vec<AnimeFile>,
}

/// A well-formed accumulated group over the whole input: its members are
/// exactly the input records of its key, and there is at least one.
spec fn acc_ok(input: Seq<AnimeFile>, e: GroupAcc) -> bool {
    e.members@ == input.filter(key_pred(e.key@)) && e.members@.len() > 0
}

/// Some accumulated group carries the key `k`.
spec fn has_key(es: Seq<GroupAcc>, k: Seq<char>) -> bool {
    exists|g: int| 0 <= g < es.len() && #[trigger] es[g].key@ == k
}

/// Finds the accumulated group with key `k`, if any.
fn find_entry(entries: &Vec<GroupAcc>, k: &Vec<char>) -> (r: Option<usize>)
    ensures
        match r {
            Some(g) => g < entries@.len() && entries@[g as int].key@ == k@,
            None => forall|h: int| 0 <= h < entries@.len() ==> entries@[h].key@ != k@,
        },
{
    let n = entries.len();
    let mut g: usize = 0;
    while g < n
        invariant
            g <= n,
            n == entries@.len(),
            forall|h: int| 0 <= h < g ==> entries@[h].key@ != k@,
        decreases n - g,
    {
        if chars_eq(&entries[g].key, k) {
            return Some(g);
        }
        g = g + 1;
    }
    None
}

/// Finds the position where a group with key `k` belongs in a sorted run:
/// the first position whose key is above `k`.
fn find_insert_pos(sorted: &Vec<GroupAcc>, k: &Vec<char>) -> (r: usize)
    ensures
        r <= sorted@.len(),
        forall|h: int| 0 <= h < r ==> !lex_lt(k@, sorted@[h].key@),
        r < sorted@.len() ==> lex_lt(k@, sorted@[r as int].key@),
{
    let n = sorted.len();
    let mut g: usize = 0;
    while g < n
        invariant
            g <= n,
            n == sorted@.len(),
            forall|h: int| 0 <= h < g ==> !lex_lt(k@, sorted@[h].key@),
        decreases n - g,
    {
        if lex_lt_chars(k, &sorted[g].key) {
            return g;
        }
        g = g + 1;
    }
    n
}

/// Partitions the records into groups of one shared `(season, episode)` key
/// each, ordered by the textual key ascending.
///
/// Every group is non-empty and holds exactly the input records of its key in
/// arrival order; the groups' keys are strictly ascending, so no two groups
/// share a key; and every input record's key heads some group: no record is
/// dropped or duplicated.
pub fn group_files(files: Vec<AnimeFile>) -> (r: Vec<Vec<AnimeFile>>)
    ensures
        forall|g: int| 0 <= g < r@.len() ==> #[trigger] r@[g]@.len() > 0,
        forall|g: int|
            0 <= g < r@.len() ==> #[trigger] r@[g]@ == files@.filter(
                key_pred(spec_key(r@[g]@[0])),
            ),
        forall|g1: int, g2: int|
            0 <= g1 < g2 < r@.len() ==> lex_lt(
                spec_key(#[trigger] r@[g1]@[0]),
                spec_key(#[trigger] r@[g2]@[0]),
            ),
        forall|i: int|
            0 <= i < files@.len() ==> some_group_headed_by(r@, #[trigger] spec_key(files@[i])),
{
    let ghost input = files@;
    let mut entries: Vec<GroupAcc> = Vec::new();
    let mut i: usize = 0;
    while i < files.len()
        invariant
            i <= input.len(),
            input == files@,
            forall|g: int|
                0 <= g < entries@.len() ==> #[trigger] entries@[g].members@ == input.take(
                    i as int,
                ).filter(key_pred(entries@[g].key@)),
            forall|g: int| 0 <= g < entries@.len() ==> #[trigger] entries@[g].members@.len() > 0,
            forall|g1: int, g2: int|
                0 <= g1 < g2 < entries@.len() ==> entries@[g1].key@ != entries@[g2].key@,
            forall|j: int| 0 <= j < i ==> has_key(entries@, #[trigger] spec_key(input[j])),
        decreases input.len() - i,
    {
        let k = key_of(&files[i]);
        let ghost processed = input.take(i as int);
        let ghost f = input[i as int];
        let ghost entries0 = entries@;
        proof {
            assert(input.take(i + 1) =~= processed.push(f));
        }
        match find_entry(&entries, &k) {
            Some(g) => {
                let mut e = entries.remove(g);
                e.members.push(files[i].clone());
                entries.insert(g, e);
                proof {
                    assert(entries@ =~= entries0.update(g as int, e));
                    assert forall|h: int| 0 <= h < entries@.len() implies #[trigger] entries@[h].members@.len()
                        > 0 by {
                        if h != g as int {
                            assert(entries@[h] == entries0[h]);
                            assert(entries0[h].members@.len() > 0);
                        } else {
                            assert(entries@[h] == e);
                        }
                    }
                    assert forall|h: int| 0 <= h < entries@.len() implies #[trigger] entries@[h].members@
                        == input.take(i + 1).filter(key_pred(entries@[h].key@)) by {
                        lemma_filter_push(processed, f, key_pred(entries@[h].key@));
                        if h == g {
                            assert(entries@[h].key@ == k@);
                            assert(spec_key(f) == k@);
                        } else {
                            assert(entries@[h] == entries0[h]);
                            assert(entries@[h].key@ != k@);
                        }
                    }
                    assert forall|j: int| 0 <= j < i + 1 implies has_key(
                        entries@,
                        #[trigger] spec_key(input[j]),
                    ) by {
                        if j == i {
                            assert(spec_key(input[j]) == entries@[g as int].key@);
                        } else {
                            let g2 = choose|g2: int|
                                0 <= g2 < entries0.len() && #[trigger] entries0[g2].key@
                                    == spec_key(input[j]);
                            assert(entries@[g2].key@ == entries0[g2].key@);
                        }
                    }
                }
            },
            None => {
                let mut members: Vec<AnimeFile> = Vec::new();
                members.push(files[i].clone());
                entries.push(GroupAcc { key: k, members });
                proof {
                    assert forall|h: int| 0 <= h < entries@.len() implies #[trigger] entries@[h].members@.len()
                        > 0 by {
                        if h < entries0.len() {
                            assert(entries@[h] == entries0[h]);
                            assert(entries0[h].members@.len() > 0);
                        }
                    }
                    let ghost kk = entries@[entries0.len() as int].key@;
                    assert(kk == spec_key(f));
                    assert forall|j: int|
                        0 <= j < processed.len() implies spec_key(#[trigger] processed[j])
                        != kk by {
                        assert(has_key(entries0, spec_key(input[j])));
                        let g2 = choose|g2: int|
                            0 <= g2 < entries0.len() && #[trigger] entries0[g2].key@ == spec_key(
                                input[j],
                            );
                        assert(processed[j] == input[j]);
                    }
                    lemma_filter_none(processed, kk);
                    assert forall|h: int| 0 <= h < entries@.len() implies #[trigger] entries@[h].members@
                        == input.take(i + 1).filter(key_pred(entries@[h].key@)) by {
                        lemma_filter_push(processed, f, key_pred(entries@[h].key@));
                        if h < entries0.len() {
                            assert(entries@[h] == entries0[h]);
                            assert(entries@[h].key@ != kk);
                        } else {
                            assert(entries@[h].members@ =~= Seq::<AnimeFile>::empty().push(f));
                            assert(input.take(i + 1).filter(key_pred(kk)) == processed.filter(
                                key_pred(kk),
                            ).push(f));
                        }
                    }
                    assert forall|j: int| 0 <= j < i + 1 implies has_key(
                        entries@,
                        #[trigger] spec_key(input[j]),
                    ) by {
                        if j == i {
                            assert(spec_key(input[j]) == entries@[entries0.len() as int].key@);
                        } else {
                            let g2 = choose|g2: int|
                                0 <= g2 < entries0.len() && #[trigger] entries0[g2].key@
                                    == spec_key(input[j]);
                            assert(entries@[g2].key@ == entries0[g2].key@);
                        }
                    }
                }
            },
        }
        i = i + 1;
    }
    proof {
        assert(input.take(input.len() as int) =~= input);
    }
    let mut sorted: Vec<GroupAcc> = Vec::new();
    while entries.len() > 0
        invariant
            input == files@,
            forall|g: int| 0 <= g < entries@.len() ==> acc_ok(input, #[trigger] entries@[g]),
            forall|g: int| 0 <= g < sorted@.len() ==> acc_ok(input, #[trigger] sorted@[g]),
            forall|g1: int, g2: int|
                0 <= g1 < g2 < entries@.len() ==> entries@[g1].key@ != entries@[g2].key@,
            forall|ge: int, gs: int|
                0 <= ge < entries@.len() && 0 <= gs < sorted@.len() ==> entries@[ge].key@
                    != sorted@[gs].key@,
            forall|g1: int, g2: int|
                0 <= g1 < g2 < sorted@.len() ==> lex_lt(sorted@[g1].key@, sorted@[g2].key@),
            forall|j: int|
                0 <= j < input.len() ==> has_key(entries@, #[trigger] spec_key(input[j]))
                    || has_key(sorted@, spec_key(input[j])),
        decreases entries@.len(),
    {
        let ghost entries0 = entries@;
        let ghost sorted0 = sorted@;
        let e = entries.remove(0);
        let pos = find_insert_pos(&sorted, &e.key);
        sorted.insert(pos, e);
        proof {
            assert(entries@ =~= entries0.skip(1));
            assert forall|g1: int, g2: int|
                0 <= g1 < g2 < sorted@.len() implies lex_lt(
                sorted@[g1].key@,
                sorted@[g2].key@,
            ) by {
                if g2 == pos as int {
                    lemma_lex_lt_trichotomy(sorted0[g1].key@, e.key@);
                } else if g1 == pos as int {
                    assert(lex_lt(e.key@, sorted0[pos as int].key@));
                    if g2 > pos as int + 1 {
                        lemma_lex_lt_transitive(
                            e.key@,
                            sorted0[pos as int].key@,
                            sorted0[g2 - 1].key@,
                        );
                    }
                } else if g1 < pos as int && g2 > pos as int {
                    assert(lex_lt(sorted0[g1].key@, sorted0[g2 - 1].key@));
                }
            }
            assert forall|j: int| 0 <= j < input.len() implies has_key(
                entries@,
                #[trigger] spec_key(input[j]),
            ) || has_key(sorted@, spec_key(input[j])) by {
                if has_key(entries0, spec_key(input[j])) {
                    let g = choose|g: int|
                        0 <= g < entries0.len() && #[trigger] entries0[g].key@ == spec_key(
                            input[j],
                        );
                    if g == 0 {
                        assert(sorted@[pos as int].key@ == entries0[0].key@);
                    } else {
                        assert(entries@[g - 1].key@ == entries0[g].key@);
                    }
                } else {
                    assert(has_key(sorted0, spec_key(input[j])));
                    let g = choose|g: int|
                        0 <= g < sorted0.len() && #[trigger] sorted0[g].key@ == spec_key(input[j]);
                    if g < pos as int {
                        assert(sorted@[g].key@ == sorted0[g].key@);
                    } else {
                        assert(sorted@[g + 1].key@ == sorted0[g].key@);
                    }
                }
            }
        }
    }
    let ghost ss = sorted@;
    let mut r: Vec<Vec<AnimeFile>> = Vec::new();
    while sorted.len() > 0
        invariant
            r@.len() + sorted@.len() == ss.len(),
            sorted@ == ss.skip(r@.len() as int),
            forall|g: int| 0 <= g < r@.len() ==> #[trigger] r@[g]@ == ss[g].members@,
        decreases sorted@.len(),
    {
        let ghost r0 = r@;
        let e = sorted.remove(0);
        proof {
            assert(e == ss[r0.len() as int]);
            assert(sorted@ =~= ss.skip(r0.len() as int + 1));
        }
        r.push(e.members);
    }
    proof {
        broadcast use vstd::seq_lib::group_filter_ensures;

        assert forall|g: int| 0 <= g < r@.len() implies #[trigger] r@[g]@ == files@.filter(
            key_pred(spec_key(r@[g]@[0])),
        ) by {
            assert(acc_ok(input, ss[g]));
            assert(r@[g]@ == ss[g].members@);
            assert(key_pred(ss[g].key@)(ss[g].members@[0]));
            assert(spec_key(r@[g]@[0]) == ss[g].key@);
        }
        assert forall|g1: int, g2: int| 0 <= g1 < g2 < r@.len() implies lex_lt(
            spec_key(#[trigger] r@[g1]@[0]),
            spec_key(#[trigger] r@[g2]@[0]),
        ) by {
            assert(key_pred(ss[g1].key@)(ss[g1].members@[0]));
            assert(key_pred(ss[g2].key@)(ss[g2].members@[0]));
        }
        assert forall|i2: int| 0 <= i2 < files@.len() implies some_group_headed_by(
            r@,
            #[trigger] spec_key(files@[i2]),
        ) by {
            assert(has_key(ss, spec_key(input[i2])));
            let g = choose|g: int|
                0 <= g < ss.len() && #[trigger] ss[g].key@ == spec_key(input[i2]);
            assert(key_pred(ss[g].key@)(ss[g].members@[0]));
            assert(spec_key(r@[g]@[0]) == ss[g].key@);
        }
    }
    r
}

} // verus!
