//! Resolution of a validated selection over one group of duplicates.
//!
//! The selection names the zero-based indices of the files to keep; its
//! complement is the deletion plan. A cancel token `"c"` anywhere in the
//! selection skips the whole group, whatever else was typed. The plan is a
//! set difference over indices: keeping the same index twice, or an index
//! beyond the group, removes nothing extra.

use vstd::prelude::*;
use vstd::string::StrSliceExecFns;
use crate::records::AnimeFile;
use crate::text::all_digits;
use crate::text::chars_of;
use crate::text::digits_end_exec;
use crate::text::digits_val;
use crate::text::lemma_digits_end;
use crate::text::parse_u64_digits;

verus! {

/// The command keeps the zero-based index `i`: it is a digit string with
/// value `i`.
pub open spec fn spec_keeps(cmd: Seq<char>, i: int) -> bool {
    cmd.len() > 0 && all_digits(cmd) && digits_val(cmd) == i
}

/// Some command is the cancel marker.
pub open spec fn spec_has_cancel(cmds: Seq<Seq<char>>) -> bool {
    exists|k: int| 0 <= k < cmds.len() && cmds[k] == seq!['c']
}

/// Some command keeps index `i`.
pub open spec fn spec_kept(cmds: Seq<Seq<char>>, i: int) -> bool {
    exists|k: int| 0 <= k < cmds.len() && spec_keeps(#[trigger] cmds[k], i)
}

/// The files at the positions from `i` on that no command keeps, in order.
pub open spec fn deletions_from(files: Seq<AnimeFile>, cmds: Seq<Seq<char>>, i: int) -> Seq<
    AnimeFile,
>
    decreases files.len() - i,
{
    if !(0 <= i < files.len()) {
        Seq::empty()
    } else if spec_kept(cmds, i) {
        deletions_from(files, cmds, i + 1)
    } else {
        seq![files[i]] + deletions_from(files, cmds, i + 1)
    }
}

/// The deletion plan of a selection: nothing when it cancels, otherwise all
/// files whose position no command keeps.
pub open spec fn spec_removal_plan(files: Seq<AnimeFile>, cmds: Seq<Seq<char>>) -> Option<
    Seq<AnimeFile>,
> {
    if spec_has_cancel(cmds) {
        None
    } else {
        Some(deletions_from(files, cmds, 0))
    }
}

/// The command equals the cancel marker `"c"`.
fn is_cancel(cmd: &String) -> (r: bool)
    ensures
        r == (cmd@ == seq!['c']),
{
    let n = cmd.as_str().unicode_len();
    if n != 1 {
        return false;
    }
    let r = cmd.as_str().get_char(0) == 'c';
    proof {
        if r {
            assert(cmd@ =~= seq!['c']);
        } else {
            assert(cmd@ != seq!['c']);
        }
    }
    r
}

/// The command keeps index `i`.
fn keeps_index(cmd: &String, i: usize) -> (r: bool)
    ensures
        r == spec_keeps(cmd@, i as int),
{
    let chars = chars_of(cmd.as_str());
    let n = chars.len();
    if n == 0 {
        return false;
    }
    let de = digits_end_exec(&chars, 0);
    if de != n {
        proof {
            lemma_digits_end(chars@, 0);
            assert(!all_digits(chars@));
        }
        return false;
    }
    proof {
        lemma_digits_end(chars@, 0);
        assert(chars@.subrange(0, n as int) =~= chars@);
    }
    match parse_u64_digits(&chars, 0, n) {
        None => {
            // The value does not even fit a u64, so it is no group index.
            false
        },
        Some(x) => x == i as u64,
    }
}

/// Some command in `commands` keeps index `i`.
fn any_keeps(commands: &Vec<String>, i: usize) -> (r: bool)
    ensures
        r == spec_kept(commands.deep_view(), i as int),
{
    let mut k: usize = 0;
    while k < commands.len()
        invariant
            k <= commands@.len(),
            forall|j: int| 0 <= j < k ==> !spec_keeps(#[trigger] commands.deep_view()[j], i as int),
        decreases commands@.len() - k,
    {
        if keeps_index(&commands[k], i) {
            proof {
                assert(spec_keeps(commands.deep_view()[k as int], i as int));
            }
            return true;
        }
        k = k + 1;
    }
    false
}

/// Applies a validated selection to one group of duplicates and hands back
/// the files to delete: `None` when the selection cancels the group,
/// otherwise exactly the files at the positions the selection does not keep,
/// in their original order.
pub fn removal_plan(files_to_consider: &Vec<AnimeFile>, commands: &Vec<String>) -> (r: Option<
    Vec<AnimeFile>,
>)
    ensures
        match r {
            None => spec_removal_plan(files_to_consider@, commands.deep_view()) is None,
            Some(del) => spec_removal_plan(files_to_consider@, commands.deep_view()) == Some(del@),
        },
{
    let mut k: usize = 0;
    while k < commands.len()
        invariant
            k <= commands@.len(),
            forall|j: int| 0 <= j < k ==> commands.deep_view()[j] != seq!['c'],
        decreases commands@.len() - k,
    {
        if is_cancel(&commands[k]) {
            proof {
                assert(commands.deep_view()[k as int] == seq!['c']);
            }
            return None;
        }
        k = k + 1;
    }
    proof {
        assert(!spec_has_cancel(commands.deep_view()));
    }
    let ghost files = files_to_consider@;
    let ghost cmds = commands.deep_view();
    let mut del: Vec<AnimeFile> = Vec::new();
    let mut i: usize = 0;
    proof {
        assert(deletions_from(files, cmds, 0) =~= del@ + deletions_from(files, cmds, 0));
    }
    while i < files_to_consider.len()
        invariant
            i <= files.len(),
            files == files_to_consider@,
            cmds == commands.deep_view(),
            deletions_from(files, cmds, 0) == del@ + deletions_from(files, cmds, i as int),
        decreases files.len() - i,
    {
        if !any_keeps(commands, i) {
            del.push(files_to_consider[i].clone());
            proof {
                assert(deletions_from(files, cmds, i as int) == seq![files[i as int]]
                    + deletions_from(files, cmds, i + 1));
                assert(deletions_from(files, cmds, 0) =~= del@ + deletions_from(
                    files,
                    cmds,
                    i + 1,
                ));
            }
        }
        i = i + 1;
    }
    proof {
        assert(deletions_from(files, cmds, 0) =~= del@);
    }
    Some(del)
}

/// The deletion plan hears only which indices are kept and whether the
/// selection cancels: two selections that keep the same indices resolve one
/// group the same way, whatever order their tokens were typed in, and a
/// repeated token changes nothing.
pub proof fn lemma_removal_plan_selection_only(
    files: Seq<AnimeFile>,
    c1: Seq<Seq<char>>,
    c2: Seq<Seq<char>>,
)
    requires
        spec_has_cancel(c1) == spec_has_cancel(c2),
        forall|i: int| spec_kept(c1, i) == spec_kept(c2, i),
    ensures
        spec_removal_plan(files, c1) == spec_removal_plan(files, c2),
{
    lemma_deletions_from_selection_only(files, c1, c2, 0);
}

proof fn lemma_deletions_from_selection_only(
    files: Seq<AnimeFile>,
    c1: Seq<Seq<char>>,
    c2: Seq<Seq<char>>,
    i: int,
)
    requires
        forall|j: int| spec_kept(c1, j) == spec_kept(c2, j),
    ensures
        deletions_from(files, c1, i) == deletions_from(files, c2, i),
    decreases files.len() - i,
{
    if 0 <= i < files.len() {
        lemma_deletions_from_selection_only(files, c1, c2, i + 1);
    }
}

/// A permutation of the selection tokens yields the same deletion plan: the
/// selection behaves as a set of tokens.
pub proof fn lemma_removal_plan_commutative(
    files: Seq<AnimeFile>,
    c1: Seq<Seq<char>>,
    c2: Seq<Seq<char>>,
)
    requires
        c1.to_multiset() == c2.to_multiset(),
    ensures
        spec_removal_plan(files, c1) == spec_removal_plan(files, c2),
{
    broadcast use vstd::seq_lib::group_to_multiset_ensures;

    assert forall|x: Seq<char>| c1.contains(x) implies c2.contains(x) by {
        assert(c1.to_multiset().count(x) > 0);
    }
    assert forall|x: Seq<char>| c2.contains(x) implies c1.contains(x) by {
        assert(c2.to_multiset().count(x) > 0);
    }
    assert(spec_has_cancel(c1) == spec_has_cancel(c2)) by {
        if spec_has_cancel(c1) {
            let k = choose|k: int| 0 <= k < c1.len() && c1[k] == seq!['c'];
            assert(c1.contains(c1[k]));
            let m = choose|m: int| 0 <= m < c2.len() && c2[m] == c1[k];
            assert(c2[m] == seq!['c']);
        }
        if spec_has_cancel(c2) {
            let k = choose|k: int| 0 <= k < c2.len() && c2[k] == seq!['c'];
            assert(c2.contains(c2[k]));
            let m = choose|m: int| 0 <= m < c1.len() && c1[m] == c2[k];
            assert(c1[m] == seq!['c']);
        }
    }
    assert forall|i: int| spec_kept(c1, i) == spec_kept(c2, i) by {
        if spec_kept(c1, i) {
            let k = choose|k: int| 0 <= k < c1.len() && spec_keeps(#[trigger] c1[k], i);
            assert(c1.contains(c1[k]));
            let m = choose|m: int| 0 <= m < c2.len() && c2[m] == c1[k];
            assert(spec_keeps(c2[m], i));
        }
        if spec_kept(c2, i) {
            let k = choose|k: int| 0 <= k < c2.len() && spec_keeps(#[trigger] c2[k], i);
            assert(c2.contains(c2[k]));
            let m = choose|m: int| 0 <= m < c1.len() && c1[m] == c2[k];
            assert(spec_keeps(c1[m], i));
        }
    }
    lemma_removal_plan_selection_only(files, c1, c2);
}

} // verus!
