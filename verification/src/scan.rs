//! The computational side of one directory scan: telling support files from
//! candidate media files, parsing the candidates into records, sorting the
//! records, and advancing the sorted, duplicate-free queue of directories
//! still to walk.

use vstd::prelude::*;
use vstd::multiset::Multiset;
use crate::parser::spec_parse;
use crate::records::AnimeFile;
use crate::records::AnimeFileView;
use crate::text::chars_of;
use crate::text::lex_lt;
use crate::text::lex_lt_chars;
use crate::text::lemma_lex_lt_transitive;
use crate::text::lemma_lex_lt_trichotomy;

verus! {

/// `c` matches the lowercase letter `w`, ignoring case.
pub open spec fn matches_ci(c: char, w: char) -> bool {
    c == w || c as u32 + 32 == w as u32
}

/// The path ends in a dot followed by the extension `w`, ignoring case.
pub open spec fn ends_with_ext(s: Seq<char>, w: Seq<char>) -> bool {
    &&& s.len() >= w.len() + 1
    &&& s[s.len() - w.len() - 1] == '.'
    &&& forall|i: int| 0 <= i < w.len() ==> matches_ci(s[s.len() - w.len() + i], #[trigger] w[i])
}

/// The path names a support file (subtitles, separate audio tracks and the
/// like) that accompanies an episode and is never a duplicate candidate.
pub open spec fn spec_is_support_file(s: Seq<char>) -> bool {
    ||| ends_with_ext(s, "srt"@)
    ||| ends_with_ext(s, "ass"@)
    ||| ends_with_ext(s, "ssa"@)
    ||| ends_with_ext(s, "ac3"@)
    ||| ends_with_ext(s, "idx"@)
    ||| ends_with_ext(s, "sub"@)
    ||| ends_with_ext(s, "dts"@)
    ||| ends_with_ext(s, "flac"@)
    ||| ends_with_ext(s, "mka"@)
}

/// Decides [`ends_with_ext`] against a lowercase extension word.
fn ends_with_ext_exec(v: &Vec<char>, w: &str) -> (r: bool)
    ensures
        r == ends_with_ext(v@, w@),
{
    let n = v.len();
    let wn = w.unicode_len();
    if n <= wn {
        return false;
    }
    if v[n - wn - 1] != '.' {
        return false;
    }
    let mut i: usize = 0;
    while i < wn
        invariant
            i <= wn,
            wn == w@.len(),
            n == v@.len(),
            n >= wn + 1,
            forall|k: int| 0 <= k < i ==> matches_ci(v@[n - wn + k], #[trigger] w@[k]),
        decreases wn - i,
    {
        let c = v[n - wn + i];
        let wc = w.get_char(i);
        let cu = c as u32;
        if !(c == wc || (cu <= 0xFFFF_FFFFu32 - 32 && cu + 32 == (wc as u32))) {
            return false;
        }
        i = i + 1;
    }
    true
}

/// Decides whether a path names a support file.
pub fn is_support_file(path: &String) -> (r: bool)
    ensures
        r == spec_is_support_file(path@),
{
    let v = chars_of(path.as_str());
    if ends_with_ext_exec(&v, "srt") {
        return true;
    }
    if ends_with_ext_exec(&v, "ass") {
        return true;
    }
    if ends_with_ext_exec(&v, "ssa") {
        return true;
    }
    if ends_with_ext_exec(&v, "ac3") {
        return true;
    }
    if ends_with_ext_exec(&v, "idx") {
        return true;
    }
    if ends_with_ext_exec(&v, "sub") {
        return true;
    }
    if ends_with_ext_exec(&v, "dts") {
        return true;
    }
    if ends_with_ext_exec(&v, "flac") {
        return true;
    }
    if ends_with_ext_exec(&v, "mka") {
        return true;
    }
    false
}

/// The records that a list of paths yields: every path that is not a support
/// file and parses, parsed, in path order.
pub open spec fn spec_collected(paths: Seq<Seq<char>>) -> Seq<AnimeFileView>
    decreases paths.len(),
{
    if paths.len() == 0 {
        Seq::empty()
    } else {
        spec_collected(paths.drop_last()) + (if !spec_is_support_file(paths.last())
            && spec_parse(paths.last()) is Some {
            seq![spec_parse(paths.last())->Some_0]
        } else {
            Seq::empty()
        })
    }
}

/// Parses every path that is not a support file, keeping the records of the
/// paths the grammar recognizes, in path order.
pub fn collect_media_files(paths: Vec<String>) -> (r: Vec<AnimeFile>)
    ensures
        r@.map_values(|af: AnimeFile| af@) == spec_collected(paths@.map_values(|p: String| p@)),
{
    let ghost dv = paths@.map_values(|p: String| p@);
    let mut r: Vec<AnimeFile> = Vec::new();
    let mut i: usize = 0;
    proof {
        assert(dv.take(0) =~= Seq::<Seq<char>>::empty());
        assert(r@.map_values(|af: AnimeFile| af@) =~= Seq::<AnimeFileView>::empty());
    }
    while i < paths.len()
        invariant
            i <= paths@.len(),
            dv == paths@.map_values(|p: String| p@),
            r@.map_values(|af: AnimeFile| af@) == spec_collected(dv.take(i as int)),
        decreases paths@.len() - i,
    {
        let ghost r0 = r@;
        let p = paths[i].clone();
        proof {
            assert(p@ == dv[i as int]);
            assert(dv.take(i + 1).drop_last() =~= dv.take(i as int));
            assert(dv.take(i + 1).last() == dv[i as int]);
        }
        if !is_support_file(&p) {
            match AnimeFile::new(p) {
                Some(af) => {
                    r.push(af);
                    proof {
                        assert(r@.map_values(|af2: AnimeFile| af2@) =~= r0.map_values(
                            |af2: AnimeFile| af2@,
                        ).push(r@[r0.len() as int]@));
                        assert(r@.map_values(|af2: AnimeFile| af2@) =~= spec_collected(
                            dv.take(i + 1),
                        ));
                    }
                },
                None => {
                    proof {
                        assert(spec_collected(dv.take(i + 1)) =~= spec_collected(dv.take(i as int)));
                    }
                },
            }
        } else {
            proof {
                assert(spec_collected(dv.take(i + 1)) =~= spec_collected(dv.take(i as int)));
            }
        }
        i = i + 1;
    }
    proof {
        assert(dv.take(dv.len() as int) =~= dv);
    }
    r
}

/// Inserting an element anywhere in a sequence adds exactly it to the
/// sequence's multiset.
proof fn lemma_insert_to_multiset(s: Seq<AnimeFile>, i: int, x: AnimeFile)
    requires
        0 <= i <= s.len(),
    ensures
        s.insert(i, x).to_multiset() =~= s.to_multiset().insert(x),
{
    broadcast use vstd::seq_lib::group_to_multiset_ensures;
    broadcast use vstd::multiset::group_multiset_axioms;

    let s1 = s.insert(i, x);
    assert(s1.remove(i) =~= s);
    assert(s1[i] == x);
    assert(s1.remove(i).to_multiset() =~= s1.to_multiset().remove(x));
    assert(s1.contains(x));
    assert(s1.to_multiset().count(x) > 0);
    assert(s1.to_multiset() =~= s.to_multiset().insert(x));
}

/// Finds the position where a record with path `key` belongs in a sorted
/// run: the first position whose path is above `key`.
fn find_record_pos(sorted: &Vec<AnimeFile>, key: &Vec<char>) -> (r: usize)
    ensures
        r <= sorted@.len(),
        forall|h: int| 0 <= h < r ==> !lex_lt(key@, sorted@[h].file_name@),
        r < sorted@.len() ==> lex_lt(key@, sorted@[r as int].file_name@),
{
    let n = sorted.len();
    let mut g: usize = 0;
    while g < n
        invariant
            g <= n,
            n == sorted@.len(),
            forall|h: int| 0 <= h < g ==> !lex_lt(key@, sorted@[h].file_name@),
        decreases n - g,
    {
        let sk = chars_of(sorted[g].file_name.as_str());
        if lex_lt_chars(key, &sk) {
            return g;
        }
        g = g + 1;
    }
    n
}

/// Sorts the records by their path, ascending: the same records come out
/// that went in.
pub fn sort_media_files(files: &mut Vec<AnimeFile>)
    ensures
        final(files)@.to_multiset() == old(files)@.to_multiset(),
        forall|i: int, j: int|
            0 <= i < j < final(files)@.len() ==> !lex_lt(
                final(files)@[j].file_name@,
                final(files)@[i].file_name@,
            ),
{
    broadcast use vstd::seq_lib::group_to_multiset_ensures;
    broadcast use vstd::multiset::group_multiset_axioms;

    let mut sorted: Vec<AnimeFile> = Vec::new();
    proof {
        assert(sorted@.to_multiset().len() == 0);
        assert(files@.to_multiset().add(sorted@.to_multiset()) =~= old(files)@.to_multiset());
    }
    while files.len() > 0
        invariant
            files@.to_multiset().add(sorted@.to_multiset()) == old(files)@.to_multiset(),
            forall|i: int, j: int|
                0 <= i < j < sorted@.len() ==> !lex_lt(
                    sorted@[j].file_name@,
                    sorted@[i].file_name@,
                ),
        decreases files@.len(),
    {
        let ghost files0 = files@;
        let ghost sorted0 = sorted@;
        let af = files.pop().unwrap();
        let key = chars_of(af.file_name.as_str());
        let pos = find_record_pos(&sorted, &key);
        sorted.insert(pos, af);
        proof {
            broadcast use vstd::seq_lib::group_to_multiset_ensures;
            broadcast use vstd::multiset::group_multiset_axioms;

            assert(files0 =~= files@.push(af));
            assert(files@.push(af).to_multiset() =~= files@.to_multiset().insert(af));
            assert(files0.to_multiset() =~= files@.to_multiset().insert(af));
            lemma_insert_to_multiset(sorted0, pos as int, af);
            assert(files@.to_multiset().add(sorted@.to_multiset()) =~= old(
                files,
            )@.to_multiset());
            assert forall|i: int, j: int| 0 <= i < j < sorted@.len() implies !lex_lt(
                sorted@[j].file_name@,
                sorted@[i].file_name@,
            ) by {
                let p = pos as int;
                if j < p {
                    assert(sorted@[i] == sorted0[i] && sorted@[j] == sorted0[j]);
                } else if i > p {
                    assert(sorted@[i] == sorted0[i - 1] && sorted@[j] == sorted0[j - 1]);
                } else if i < p && j > p {
                    assert(sorted@[i] == sorted0[i] && sorted@[j] == sorted0[j - 1]);
                } else if j == p {
                    assert(sorted@[i] == sorted0[i] && sorted@[j] == af);
                    assert(!lex_lt(af.file_name@, sorted0[i].file_name@));
                } else {
                    assert(i == p && j > p);
                    assert(sorted@[i] == af && sorted@[j] == sorted0[j - 1]);
                    assert(lex_lt(af.file_name@, sorted0[p].file_name@));
                    if lex_lt(sorted0[j - 1].file_name@, af.file_name@) {
                        if j - 1 == p {
                            lemma_lex_lt_trichotomy(af.file_name@, sorted0[p].file_name@);
                        } else {
                            lemma_lex_lt_transitive(
                                sorted0[j - 1].file_name@,
                                af.file_name@,
                                sorted0[p].file_name@,
                            );
                        }
                    }
                }
            }
        }
    }
    proof {
        broadcast use vstd::multiset::group_multiset_axioms;

        assert(files@.to_multiset().len() == 0);
        assert(files@.to_multiset() =~= Multiset::<AnimeFile>::empty());
        assert(sorted@.to_multiset() =~= old(files)@.to_multiset());
    }
    *files = sorted;
}

/// A strictly ascending run of path strings: sorted, with no duplicates.
pub open spec fn strictly_sorted(s: Seq<Seq<char>>) -> bool {
    forall|i: int, j: int| 0 <= i < j < s.len() ==> lex_lt(#[trigger] s[i], #[trigger] s[j])
}

/// Finds the position where the path `key` belongs in a strictly sorted run:
/// the first position whose path is above `key`.
fn find_str_pos(sorted: &Vec<String>, key: &Vec<char>) -> (r: usize)
    ensures
        r <= sorted@.len(),
        forall|h: int| 0 <= h < r ==> !lex_lt(key@, #[trigger] sorted@[h]@),
        r < sorted@.len() ==> lex_lt(key@, sorted@[r as int]@),
{
    let n = sorted.len();
    let mut g: usize = 0;
    while g < n
        invariant
            g <= n,
            n == sorted@.len(),
            forall|h: int| 0 <= h < g ==> !lex_lt(key@, #[trigger] sorted@[h]@),
        decreases n - g,
    {
        let sk = chars_of(sorted[g].as_str());
        if lex_lt_chars(key, &sk) {
            return g;
        }
        g = g + 1;
    }
    n
}

/// Puts one path into a strictly sorted run, keeping it strictly sorted: a
/// path already present is dropped.
fn sorted_insert_dedup(v: &mut Vec<String>, s: String)
    requires
        strictly_sorted(old(v).deep_view()),
    ensures
        strictly_sorted(final(v).deep_view()),
        forall|x: Seq<char>|
            #[trigger] final(v).deep_view().contains(x) <==> old(v).deep_view().contains(x) || x
                == s@,
{
    let ghost dv0 = v.deep_view();
    proof {
        assert(forall|h: int| 0 <= h < dv0.len() ==> dv0[h] == #[trigger] v@[h]@);
    }
    let key = chars_of(s.as_str());
    let pos = find_str_pos(v, &key);
    if pos > 0 && v[pos - 1] == s {
        proof {
            assert(dv0[pos - 1] == s@);
            assert(dv0.contains(s@));
            assert forall|x: Seq<char>| #[trigger] final(v).deep_view().contains(x)
                <==> dv0.contains(x) || x == s@ by {}
        }
        return ;
    }
    proof {
        // No path below the insertion point equals the new one.
        assert forall|h: int| 0 <= h < pos implies lex_lt(#[trigger] dv0[h], s@) by {
            lemma_lex_lt_trichotomy(s@, dv0[h]);
            if dv0[h] == s@ {
                if h < pos - 1 {
                    assert(lex_lt(dv0[h], dv0[pos - 1]));
                    assert(!lex_lt(s@, dv0[pos - 1]));
                    lemma_lex_lt_trichotomy(s@, dv0[pos - 1]);
                }
            }
        }
    }
    v.insert(pos, s);
    proof {
        let dv1 = v.deep_view();
        assert(forall|h: int| 0 <= h < dv1.len() ==> dv1[h] == #[trigger] v@[h]@);
        assert(dv1 =~= dv0.insert(pos as int, s@));
        assert forall|i: int, j: int| 0 <= i < j < dv1.len() implies lex_lt(
            #[trigger] dv1[i],
            #[trigger] dv1[j],
        ) by {
            let p = pos as int;
            if j < p {
            } else if i > p {
                assert(dv1[i] == dv0[i - 1] && dv1[j] == dv0[j - 1]);
            } else if i < p && j > p {
                assert(dv1[i] == dv0[i] && dv1[j] == dv0[j - 1]);
                assert(lex_lt(dv0[i], dv0[j - 1]));
            } else if j == p {
                assert(dv1[i] == dv0[i] && dv1[j] == s@);
            } else {
                assert(i == p && j > p);
                assert(dv1[j] == dv0[j - 1]);
                assert(lex_lt(s@, dv0[p]));
                if j - 1 > p {
                    lemma_lex_lt_transitive(s@, dv0[p], dv0[j - 1]);
                }
            }
        }
        assert forall|x: Seq<char>| #[trigger] dv1.contains(x) implies dv0.contains(x) || x
            == s@ by {
            let k = choose|k: int| 0 <= k < dv1.len() && dv1[k] == x;
            if k < pos as int {
                assert(dv0[k] == x);
            } else if k > pos as int {
                assert(dv0[k - 1] == x);
            }
        }
        assert forall|x: Seq<char>| dv0.contains(x) || x == s@ implies #[trigger] dv1.contains(
            x,
        ) by {
            if dv0.contains(x) {
                let k = choose|k: int| 0 <= k < dv0.len() && dv0[k] == x;
                if k < pos as int {
                    assert(dv1[k] == x);
                } else {
                    assert(dv1[k + 1] == x);
                }
            } else {
                assert(dv1[pos as int] == x);
            }
        }
    }
}

/// A sequence's prefix one longer contains exactly the prefix's paths and
/// the one more path.
proof fn lemma_contains_take_push(dv: Seq<Seq<char>>, i: int, x: Seq<char>)
    requires
        0 <= i < dv.len(),
    ensures
        dv.take(i + 1).contains(x) <==> dv.take(i).contains(x) || x == dv[i],
{
    assert(dv.take(i + 1) =~= dv.take(i).push(dv[i]));
    if dv.take(i).contains(x) {
        let k = choose|k: int| 0 <= k < dv.take(i).len() && #[trigger] dv.take(i)[k] == x;
        assert(dv.take(i + 1)[k] == x);
    }
    if x == dv[i] {
        assert(dv.take(i + 1)[i] == x);
    }
    if dv.take(i + 1).contains(x) {
        let k = choose|k: int| 0 <= k < dv.take(i + 1).len() && #[trigger] dv.take(i + 1)[k] == x;
        if k < i {
            assert(dv.take(i)[k] == x);
        }
    }
}

/// A concatenation contains exactly the paths of its two parts.
proof fn lemma_contains_concat(a: Seq<Seq<char>>, b: Seq<Seq<char>>, x: Seq<char>)
    ensures
        (a + b).contains(x) <==> a.contains(x) || b.contains(x),
{
    if a.contains(x) {
        let k = choose|k: int| 0 <= k < a.len() && a[k] == x;
        assert((a + b)[k] == x);
    }
    if b.contains(x) {
        let k = choose|k: int| 0 <= k < b.len() && b[k] == x;
        assert((a + b)[a.len() + k] == x);
    }
    if (a + b).contains(x) {
        let k = choose|k: int| 0 <= k < (a + b).len() && #[trigger] (a + b)[k] == x;
        if k < a.len() {
            assert(a[k] == x);
        } else {
            assert(b[k - a.len()] == x);
        }
    }
}

/// Advances the directory walk one step: merges the directories found by the
/// previous step into the work queue — sorted by path, duplicates dropped —
/// and pops the first directory still to be scanned.
///
/// The popped directory and the new queue together hold, strictly sorted,
/// exactly the paths that the old queue and the found directories held;
/// nothing comes back only when there was nothing left to scan.
pub fn scan_dirs(queue: &mut Vec<String>, found_dirs: Vec<String>) -> (r: Option<String>)
    ensures
        ({
            let all = old(queue).deep_view() + found_dirs.deep_view();
            match r {
                None => all.len() == 0 && final(queue)@.len() == 0,
                Some(d) => {
                    let out = seq![d@] + final(queue).deep_view();
                    &&& strictly_sorted(out)
                    &&& forall|x: Seq<char>| #[trigger] out.contains(x) <==> all.contains(x)
                },
            }
        }),
{
    let ghost qdv = queue.deep_view();
    let ghost fdv = found_dirs.deep_view();
    let mut result: Vec<String> = Vec::new();
    proof {
        assert(forall|h: int| 0 <= h < qdv.len() ==> qdv[h] == #[trigger] queue@[h]@);
        assert(forall|h: int| 0 <= h < fdv.len() ==> fdv[h] == #[trigger] found_dirs@[h]@);
        assert(qdv.take(0) =~= Seq::<Seq<char>>::empty());
    }
    let mut i: usize = 0;
    while i < queue.len()
        invariant
            i <= queue@.len(),
            queue@ == old(queue)@,
            qdv == queue.deep_view(),
            fdv == found_dirs.deep_view(),
            strictly_sorted(result.deep_view()),
            forall|x: Seq<char>|
                #[trigger] result.deep_view().contains(x) <==> qdv.take(i as int).contains(x),
        decreases queue@.len() - i,
    {
        let ghost rdv0 = result.deep_view();
        let s = queue[i].clone();
        proof {
            assert(s@ == qdv[i as int]);
        }
        sorted_insert_dedup(&mut result, s);
        proof {
            assert forall|x: Seq<char>| #[trigger] result.deep_view().contains(x) <==> qdv.take(
                i + 1,
            ).contains(x) by {
                lemma_contains_take_push(qdv, i as int, x);
            }
        }
        i = i + 1;
    }
    proof {
        assert(qdv.take(queue@.len() as int) =~= qdv);
        assert(fdv.take(0) =~= Seq::<Seq<char>>::empty());
    }
    let mut j: usize = 0;
    while j < found_dirs.len()
        invariant
            j <= found_dirs@.len(),
            queue@ == old(queue)@,
            qdv == queue.deep_view(),
            fdv == found_dirs.deep_view(),
            strictly_sorted(result.deep_view()),
            forall|x: Seq<char>|
                #[trigger] result.deep_view().contains(x) <==> qdv.contains(x) || fdv.take(
                    j as int,
                ).contains(x),
        decreases found_dirs@.len() - j,
    {
        let s = found_dirs[j].clone();
        proof {
            assert(s@ == fdv[j as int]);
        }
        sorted_insert_dedup(&mut result, s);
        proof {
            assert forall|x: Seq<char>| #[trigger] result.deep_view().contains(x) <==> qdv.contains(
                x,
            ) || fdv.take(j + 1).contains(x) by {
                lemma_contains_take_push(fdv, j as int, x);
            }
        }
        j = j + 1;
    }
    proof {
        assert(fdv.take(found_dirs@.len() as int) =~= fdv);
    }
    if result.is_empty() {
        proof {
            if qdv.len() > 0 {
                assert(qdv.contains(qdv[0]));
                assert(result.deep_view().contains(qdv[0]));
            }
            if fdv.len() > 0 {
                assert(fdv.contains(fdv[0]));
                assert(result.deep_view().contains(fdv[0]));
            }
            assert((qdv + fdv).len() == 0);
        }
        queue.clear();
        return None;
    }
    let ghost rdv = result.deep_view();
    let d = result.remove(0);
    *queue = result;
    proof {
        assert(forall|h: int|
            0 <= h < queue.deep_view().len() ==> queue.deep_view()[h] == #[trigger] queue@[h]@);
        let out = seq![d@] + queue.deep_view();
        assert(out =~= rdv);
        assert forall|x: Seq<char>| #[trigger] out.contains(x) <==> (qdv + fdv).contains(x) by {
            lemma_contains_concat(qdv, fdv, x);
        }
    }
    Some(d)
}

} // verus!
