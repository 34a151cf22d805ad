//! The selection-command parser: turns one line of user input into a
//! normalized list of selection tokens.
//!
//! The input is scanned, case-insensitively, for tokens that are a bare
//! non-negative integer, a dash-separated integer range with optional
//! whitespace around the dash, or the literal `c`, each starting at a word
//! boundary and ending at one (a comma ends a word too). A range expands,
//! after swapping a descending pair of bounds, to the inclusive list of its
//! integers rendered in decimal; a bare integer passes through unchanged.
//! Either is checked against the candidate count (the count itself, not the
//! last zero-based index): a bound above it is a hard error naming the bound
//! and the count. An input that yields no token at all is an error too.

use vstd::prelude::*;
use vstd::string::StrSliceExecFns;
use vstd::string::StringExecFns;
use crate::text::all_digits;
use crate::text::chars_of;
use crate::text::digits_end_exec;
use crate::text::is_digit;
use crate::text::digits_end;
use crate::text::lemma_digits_end;
use crate::text::dec_str;
use crate::text::dec_string_u64;
use crate::text::parse_u64_digits;
use crate::text::push_dec_string;
use crate::text::digits_val;
use crate::text::spec_is_digit;

verus! {

/// A word character: an ASCII letter, digit or underscore. Word boundaries
/// delimit selection tokens.
pub open spec fn spec_is_word_char(c: char) -> bool {
    spec_is_digit(c) || ('a' <= c && c <= 'z') || ('A' <= c && c <= 'Z') || c == '_'
}

/// An ASCII whitespace character, as allowed around the dash of a range.
pub open spec fn spec_is_space(c: char) -> bool {
    c == ' ' || c == '\t' || c == '\n' || c == '\r' || c == '\u{b}' || c == '\u{c}'
}

/// The end of the run of whitespace starting at `i`.
pub open spec fn spaces_end(s: Seq<char>, i: int) -> int
    decreases s.len() - i,
{
    if 0 <= i < s.len() && spec_is_space(s[i]) {
        spaces_end(s, i + 1)
    } else {
        i
    }
}

/// The whitespace run starting at `i` stays inside the string.
pub proof fn lemma_spaces_end(s: Seq<char>, i: int)
    requires
        0 <= i <= s.len(),
    ensures
        i <= spaces_end(s, i) <= s.len(),
    decreases s.len() - i,
{
    if i < s.len() && spec_is_space(s[i]) {
        lemma_spaces_end(s, i + 1);
    }
}

/// A word boundary stands right before position `p`.
pub open spec fn boundary_before(s: Seq<char>, p: int) -> bool {
    p == 0 || !spec_is_word_char(s[p - 1])
}

/// A word boundary stands right after position `e - 1`.
pub open spec fn boundary_after(s: Seq<char>, e: int) -> bool {
    e == s.len() || !spec_is_word_char(s[e])
}

/// One raw selection token: the cancel letter, a bare digit string, or a
/// range of two digit strings.
pub ghost enum RawToken {
    Cancel,
    Bare(Seq<char>),
    Range(Seq<char>, Seq<char>),
}

/// The token starting exactly at `p`, with the position after it. A token
/// must start and end at word boundaries; a range whose second bound ends in
/// the middle of a word falls back to its bare first bound.
pub open spec fn token_at(s: Seq<char>, p: int) -> Option<(RawToken, int)> {
    if !(0 <= p < s.len()) || !boundary_before(s, p) {
        None
    } else if spec_is_digit(s[p]) {
        let de = digits_end(s, p);
        let q = spaces_end(s, de);
        let bare = if boundary_after(s, de) {
            Some((RawToken::Bare(s.subrange(p, de)), de))
        } else {
            None
        };
        if q < s.len() && s[q] == '-' {
            let r0 = spaces_end(s, q + 1);
            if r0 < s.len() && spec_is_digit(s[r0]) {
                let re = digits_end(s, r0);
                if boundary_after(s, re) {
                    Some((RawToken::Range(s.subrange(p, de), s.subrange(r0, re)), re))
                } else {
                    bare
                }
            } else {
                bare
            }
        } else {
            bare
        }
    } else if s[p] == 'c' || s[p] == 'C' {
        if boundary_after(s, p + 1) {
            Some((RawToken::Cancel, p + 1))
        } else {
            None
        }
    } else {
        None
    }
}

/// A token always ends after it starts and inside the string.
pub proof fn lemma_token_at_bounds(s: Seq<char>, p: int)
    requires
        token_at(s, p) is Some,
    ensures
        p < token_at(s, p)->Some_0.1 <= s.len(),
{
    let de = digits_end(s, p);
    if 0 <= p < s.len() && boundary_before(s, p) && spec_is_digit(s[p]) {
        lemma_digits_end(s, p);
        assert(de == digits_end(s, p + 1));
        lemma_digits_end(s, p + 1);
        let q = spaces_end(s, de);
        lemma_spaces_end(s, de);
        if q < s.len() && s[q] == '-' {
            let r0 = spaces_end(s, q + 1);
            lemma_spaces_end(s, q + 1);
            if r0 < s.len() && spec_is_digit(s[r0]) {
                lemma_digits_end(s, r0);
                assert(digits_end(s, r0) == digits_end(s, r0 + 1));
                lemma_digits_end(s, r0 + 1);
            }
        }
    }
}

/// All tokens of the input from position `p` on, leftmost first; scanning
/// resumes right after each token found.
pub open spec fn scan_tokens(s: Seq<char>, p: int) -> Seq<RawToken>
    decreases s.len() - p,
    via scan_tokens_dec
{
    if !(0 <= p < s.len()) {
        Seq::empty()
    } else {
        match token_at(s, p) {
            Some(t) => seq![t.0] + scan_tokens(s, t.1),
            None => scan_tokens(s, p + 1),
        }
    }
}

#[via_fn]
proof fn scan_tokens_dec(s: Seq<char>, p: int) {
    if 0 <= p < s.len() && token_at(s, p) is Some {
        lemma_token_at_bounds(s, p);
    }
}

/// A selection error: either no token was found in the whole input, or a
/// selection index exceeds the candidate count.
pub ghost enum SelErrorSpec {
    NoSelection,
    BoundExceeded { bound: Seq<char>, max: int },
}

/// The inclusive range of integers `lo..=hi`, rendered in decimal.
pub open spec fn range_strings(lo: nat, hi: nat) -> Seq<Seq<char>> {
    Seq::new((hi - lo + 1) as nat, |i: int| dec_str((lo + i) as nat))
}

/// What one token contributes to the selection: the cancel marker passes
/// through as `"c"`, a bare integer passes through verbatim, a range expands
/// to its members. A bound above `max` is an error naming the bound (its
/// digits verbatim when they overflow a `u64`, its decimal value otherwise)
/// and `max`.
pub open spec fn expand_token(t: RawToken, max: nat) -> Result<Seq<Seq<char>>, SelErrorSpec> {
    match t {
        RawToken::Cancel => Ok(seq![seq!['c']]),
        RawToken::Bare(d) => {
            if digits_val(d) > u64::MAX {
                Err(SelErrorSpec::BoundExceeded { bound: d, max: max as int })
            } else if digits_val(d) > max {
                Err(SelErrorSpec::BoundExceeded { bound: dec_str(digits_val(d)), max: max as int })
            } else {
                Ok(seq![d])
            }
        },
        RawToken::Range(lo, hi) => {
            if digits_val(lo) > u64::MAX {
                Err(SelErrorSpec::BoundExceeded { bound: lo, max: max as int })
            } else if digits_val(hi) > u64::MAX {
                Err(SelErrorSpec::BoundExceeded { bound: hi, max: max as int })
            } else {
                let l = if digits_val(lo) <= digits_val(hi) {
                    digits_val(lo)
                } else {
                    digits_val(hi)
                };
                let h = if digits_val(lo) <= digits_val(hi) {
                    digits_val(hi)
                } else {
                    digits_val(lo)
                };
                if h > max {
                    Err(SelErrorSpec::BoundExceeded { bound: dec_str(h), max: max as int })
                } else {
                    Ok(range_strings(l, h))
                }
            }
        },
    }
}

/// The expansions of a token list in order; the first failing token decides
/// the error.
pub open spec fn expand_all(ts: Seq<RawToken>, max: nat) -> Result<Seq<Seq<char>>, SelErrorSpec>
    decreases ts.len(),
{
    if ts.len() == 0 {
        Ok(Seq::empty())
    } else {
        match expand_token(ts[0], max) {
            Err(e) => Err(e),
            Ok(head) => match expand_all(ts.skip(1), max) {
                Err(e) => Err(e),
                Ok(rest) => Ok(head + rest),
            },
        }
    }
}

/// Expansion distributes over concatenation of token lists.
pub proof fn lemma_expand_all_append(ts1: Seq<RawToken>, ts2: Seq<RawToken>, max: nat)
    ensures
        expand_all(ts1 + ts2, max) == match expand_all(ts1, max) {
            Err(e) => Err::<Seq<Seq<char>>, SelErrorSpec>(e),
            Ok(r1) => match expand_all(ts2, max) {
                Err(e) => Err(e),
                Ok(r2) => Ok(r1 + r2),
            },
        },
    decreases ts1.len(),
{
    if ts1.len() == 0 {
        assert(ts1 + ts2 =~= ts2);
        if expand_all(ts2, max) is Ok {
            assert(Seq::<Seq<char>>::empty() + expand_all(ts2, max)->Ok_0 =~= expand_all(
                ts2,
                max,
            )->Ok_0);
        }
    } else {
        assert((ts1 + ts2)[0] == ts1[0]);
        assert((ts1 + ts2).skip(1) =~= ts1.skip(1) + ts2);
        lemma_expand_all_append(ts1.skip(1), ts2, max);
        if expand_token(ts1[0], max) is Ok && expand_all(ts1.skip(1), max) is Ok && expand_all(
            ts2,
            max,
        ) is Ok {
            let h = expand_token(ts1[0], max)->Ok_0;
            let r1 = expand_all(ts1.skip(1), max)->Ok_0;
            let r2 = expand_all(ts2, max)->Ok_0;
            assert(h + (r1 + r2) =~= (h + r1) + r2);
        }
    }
}

/// The selection a whole input line parses to, against `max` candidates: the
/// expansions of all its tokens, or the first error; an input without tokens
/// is the no-selection error.
pub open spec fn spec_parse_selection(s: Seq<char>, max: nat) -> Result<
    Seq<Seq<char>>,
    SelErrorSpec,
> {
    match expand_all(scan_tokens(s, 0), max) {
        Err(e) => Err(e),
        Ok(toks) => if toks.len() == 0 {
            Err(SelErrorSpec::NoSelection)
        } else {
            Ok(toks)
        },
    }
}

/// An ASCII whitespace character, executable form.
#[verifier::when_used_as_spec(spec_is_space)]
pub fn is_space(c: char) -> (r: bool)
    ensures
        r == spec_is_space(c),
{
    c == ' ' || c == '\t' || c == '\n' || c == '\r' || c == '\u{b}' || c == '\u{c}'
}

/// A word character, executable form.
#[verifier::when_used_as_spec(spec_is_word_char)]
pub fn is_word_char(c: char) -> (r: bool)
    ensures
        r == spec_is_word_char(c),
{
    is_digit(c) || ('a' <= c && c <= 'z') || ('A' <= c && c <= 'Z') || c == '_'
}

/// Computes [`spaces_end`].
fn spaces_end_exec(v: &Vec<char>, i: usize) -> (r: usize)
    requires
        i <= v@.len(),
    ensures
        r == spaces_end(v@, i as int),
        i <= r <= v@.len(),
{
    let mut j = i;
    while j < v.len() && is_space(v[j])
        invariant
            i <= j <= v@.len(),
            spaces_end(v@, i as int) == spaces_end(v@, j as int),
        decreases v@.len() - j,
    {
        j = j + 1;
    }
    proof {
        lemma_spaces_end(v@, i as int);
    }
    j
}

/// Decides [`boundary_after`] at `e`.
fn boundary_after_exec(v: &Vec<char>, e: usize) -> (r: bool)
    requires
        e <= v@.len(),
    ensures
        r == boundary_after(v@, e as int),
{
    e == v.len() || !is_word_char(v[e])
}

/// The capture positions of one recognized token.
enum TokenIdx {
    Cancel { end: usize },
    Bare { digits: (usize, usize), end: usize },
    Range { lo: (usize, usize), hi: (usize, usize), end: usize },
}

/// The raw token an index struct stands for.
spec fn tok_view(s: Seq<char>, tok: TokenIdx) -> RawToken {
    match tok {
        TokenIdx::Cancel { .. } => RawToken::Cancel,
        TokenIdx::Bare { digits, .. } => RawToken::Bare(
            s.subrange(digits.0 as int, digits.1 as int),
        ),
        TokenIdx::Range { lo, hi, .. } => RawToken::Range(
            s.subrange(lo.0 as int, lo.1 as int),
            s.subrange(hi.0 as int, hi.1 as int),
        ),
    }
}

/// A digit capture range of a token: within bounds and all digits.
spec fn tok_range_ok(s: Seq<char>, ab: (usize, usize)) -> bool {
    ab.0 <= ab.1 <= s.len() && all_digits(s.subrange(ab.0 as int, ab.1 as int))
}

/// All capture ranges of a token are within bounds and hold digits, and the
/// token ends after `p`.
spec fn tok_idx_ok(s: Seq<char>, tok: TokenIdx, p: int) -> bool {
    match tok {
        TokenIdx::Cancel { end } => p < end <= s.len(),
        TokenIdx::Bare { digits, end } => tok_range_ok(s, digits) && p < end <= s.len(),
        TokenIdx::Range { lo, hi, end } => tok_range_ok(s, lo) && tok_range_ok(s, hi) && p < end
            <= s.len(),
    }
}

/// The end position of a recognized token.
spec fn tok_end(tok: TokenIdx) -> int {
    match tok {
        TokenIdx::Cancel { end } => end as int,
        TokenIdx::Bare { end, .. } => end as int,
        TokenIdx::Range { end, .. } => end as int,
    }
}

/// Decides [`token_at`] at `p`, handing back the capture positions.
fn token_at_exec(v: &Vec<char>, p: usize) -> (r: Option<TokenIdx>)
    requires
        p < v@.len(),
    ensures
        match r {
            None => token_at(v@, p as int) is None,
            Some(tok) => {
                &&& token_at(v@, p as int) == Some((tok_view(v@, tok), tok_end(tok)))
                &&& tok_idx_ok(v@, tok, p as int)
            },
        },
{
    let n = v.len();
    if !(p == 0 || !is_word_char(v[p - 1])) {
        return None;
    }
    if is_digit(v[p]) {
        proof {
            lemma_digits_end(v@, p as int);
        }
        let de = digits_end_exec(v, p);
        proof {
            assert(digits_end(v@, p as int) == digits_end(v@, p + 1));
            lemma_digits_end(v@, p + 1);
        }
        let q = spaces_end_exec(v, de);
        let bare_ok = boundary_after_exec(v, de);
        if q < n && v[q] == '-' {
            let r0 = spaces_end_exec(v, q + 1);
            if r0 < n && is_digit(v[r0]) {
                proof {
                    lemma_digits_end(v@, r0 as int);
                    assert(digits_end(v@, r0 as int) == digits_end(v@, r0 + 1));
                    lemma_digits_end(v@, r0 + 1);
                }
                let re = digits_end_exec(v, r0);
                if boundary_after_exec(v, re) {
                    return Some(TokenIdx::Range { lo: (p, de), hi: (r0, re), end: re });
                }
            }
        }
        if bare_ok {
            return Some(TokenIdx::Bare { digits: (p, de), end: de });
        }
        return None;
    }
    if v[p] == 'c' || v[p] == 'C' {
        if boundary_after_exec(v, p + 1) {
            return Some(TokenIdx::Cancel { end: p + 1 });
        }
        return None;
    }
    None
}

/// A selection that could not be used: no token at all, or a selection index
/// above the candidate count.
#[derive(Debug, PartialEq, Eq, Clone)]
pub enum SelectionError {
    NoSelection,
    BoundExceeded { bound: String, max: u64 },
}

impl View for SelectionError {
    type V = SelErrorSpec;

    open spec fn view(&self) -> SelErrorSpec {
        match self {
            SelectionError::NoSelection => SelErrorSpec::NoSelection,
            SelectionError::BoundExceeded { bound, max } => (SelErrorSpec::BoundExceeded {
                bound: bound@,
                max: *max as int,
            }),
        }
    }
}

/// The one-line message of a selection error.
pub open spec fn sel_error_message(e: SelErrorSpec) -> Seq<char> {
    match e {
        SelErrorSpec::NoSelection => "No selection(s) made."@,
        SelErrorSpec::BoundExceeded { bound, max } => bound + " is greater than the max index ("@
            + dec_str(max as nat) + ")"@,
    }
}

impl SelectionError {
    /// Renders the error for the interactive user.
    pub fn message(&self) -> (r: String)
        ensures
            r@ == sel_error_message(self@),
    {
        match self {
            SelectionError::NoSelection => String::from_str("No selection(s) made."),
            SelectionError::BoundExceeded { bound, max } => {
                let mut m = bound.clone();
                m.append(" is greater than the max index (");
                push_dec_string(&mut m, *max);
                m.append(")");
                m
            },
        }
    }
}

/// Expands one recognized token against `max_index` candidates, appending its
/// selection strings to `out`, or hands back the error it raises.
fn expand_token_exec(
    input: &String,
    v: &Vec<char>,
    tok: &TokenIdx,
    max_index: u64,
    out: &mut Vec<String>,
) -> (r: Option<SelectionError>)
    requires
        input@ == v@,
        tok_idx_ok(v@, *tok, -1),
    ensures
        ({
            let exp = expand_token(tok_view(v@, *tok), max_index as nat);
            match r {
                None => exp is Ok && final(out).deep_view() == old(out).deep_view() + exp->Ok_0,
                Some(e) => exp == Err::<Seq<Seq<char>>, SelErrorSpec>(e@) && *final(out) == *old(out),
            }
        }),
{
    match tok {
        TokenIdx::Cancel { .. } => {
            let c = String::from_str("c");
            proof {
                reveal_strlit("c");
                assert(c@ =~= seq!['c']);
            }
            out.push(c);
            proof {
                assert(out.deep_view() =~= old(out).deep_view() + seq![seq!['c']]);
            }
            None
        },
        TokenIdx::Bare { digits, .. } => {
            let (a, b) = *digits;
            match parse_u64_digits(v, a, b) {
                None => Some(
                    SelectionError::BoundExceeded {
                        bound: String::from_str(input.as_str().substring_char(a, b)),
                        max: max_index,
                    },
                ),
                Some(x) => {
                    if x > max_index {
                        Some(
                            SelectionError::BoundExceeded { bound: dec_string_u64(x), max: max_index },
                        )
                    } else {
                        let raw = String::from_str(input.as_str().substring_char(a, b));
                        out.push(raw);
                        proof {
                            assert(out.deep_view() =~= old(out).deep_view() + seq![
                                v@.subrange(a as int, b as int),
                            ]);
                        }
                        None
                    }
                },
            }
        },
        TokenIdx::Range { lo, hi, .. } => {
            let (la, lb) = *lo;
            let (ha, hb) = *hi;
            let l_val = match parse_u64_digits(v, la, lb) {
                None => {
                    return Some(
                        SelectionError::BoundExceeded {
                            bound: String::from_str(input.as_str().substring_char(la, lb)),
                            max: max_index,
                        },
                    );
                },
                Some(x) => x,
            };
            let h_val = match parse_u64_digits(v, ha, hb) {
                None => {
                    return Some(
                        SelectionError::BoundExceeded {
                            bound: String::from_str(input.as_str().substring_char(ha, hb)),
                            max: max_index,
                        },
                    );
                },
                Some(x) => x,
            };
            let (l, h) = if l_val <= h_val {
                (l_val, h_val)
            } else {
                (h_val, l_val)
            };
            if h > max_index {
                return Some(
                    SelectionError::BoundExceeded { bound: dec_string_u64(h), max: max_index },
                );
            }
            let ghost out0 = out.deep_view();
            let ghost rs = range_strings(l as nat, h as nat);
            proof {
                assert(out.deep_view() =~= out0 + rs.take(0));
            }
            let mut k = l;
            while k < h
                invariant
                    l <= k <= h,
                    rs == range_strings(l as nat, h as nat),
                    out.deep_view() == out0 + rs.take(k - l),
                decreases h - k,
            {
                let ghost pre = out.deep_view();
                out.push(dec_string_u64(k));
                proof {
                    assert(out.deep_view() =~= pre.push(dec_str(k as nat)));
                    assert(rs[k - l] == dec_str(k as nat));
                    assert(out.deep_view() =~= out0 + rs.take(k + 1 - l));
                }
                k = k + 1;
            }
            let ghost pre = out.deep_view();
            out.push(dec_string_u64(h));
            proof {
                assert(out.deep_view() =~= pre.push(dec_str(h as nat)));
                assert(rs[h - l] == dec_str(h as nat));
                assert(rs.take(h + 1 - l) =~= rs);
                assert(out.deep_view() =~= out0 + rs);
            }
            None
        },
    }
}

/// Parses one line of user input against `files_to_consider_len` candidates
/// into the normalized selection tokens, exactly as [`spec_parse_selection`]
/// says: every token expanded in input order, the first bad bound or an empty
/// selection reported as the error.
pub fn parse_user_input(input: &String, files_to_consider_len: usize) -> (r: Result<
    Vec<String>,
    SelectionError,
>)
    ensures
        match r {
            Ok(toks) => spec_parse_selection(input@, files_to_consider_len as nat) == Ok::<
                Seq<Seq<char>>,
                SelErrorSpec,
            >(toks.deep_view()),
            Err(e) => spec_parse_selection(input@, files_to_consider_len as nat) == Err::<
                Seq<Seq<char>>,
                SelErrorSpec,
            >(e@),
        },
{
    let v = chars_of(input.as_str());
    let max_index: u64 = files_to_consider_len as u64;
    let mut result: Vec<String> = Vec::new();
    let ghost s = v@;
    let ghost mut done: Seq<RawToken> = Seq::empty();
    let mut p: usize = 0;
    proof {
        assert(scan_tokens(s, 0) =~= done + scan_tokens(s, 0));
        assert(result.deep_view() =~= Seq::<Seq<char>>::empty());
    }
    while p < v.len()
        invariant
            s == v@,
            input@ == v@,
            p <= v@.len(),
            max_index == files_to_consider_len as u64,
            scan_tokens(s, 0) == done + scan_tokens(s, p as int),
            expand_all(done, max_index as nat) == Ok::<Seq<Seq<char>>, SelErrorSpec>(
                result.deep_view(),
            ),
        decreases v@.len() - p,
    {
        match token_at_exec(&v, p) {
            None => {
                proof {
                    assert(scan_tokens(s, p as int) == scan_tokens(s, p + 1));
                }
                p = p + 1;
            },
            Some(tok) => {
                let ghost t = tok_view(s, tok);
                let ghost rest = scan_tokens(s, tok_end(tok));
                proof {
                    assert(scan_tokens(s, p as int) == seq![t] + rest);
                }
                let ghost dv0 = result.deep_view();
                let err = expand_token_exec(input, &v, &tok, max_index, &mut result);
                proof {
                    lemma_expand_all_append(done, seq![t] + rest, max_index as nat);
                    assert((seq![t] + rest)[0] == t);
                    assert((seq![t] + rest).skip(1) =~= rest);
                }
                match err {
                    Some(e) => {
                        proof {
                            assert(scan_tokens(s, 0) =~= done + (seq![t] + rest));
                            assert(expand_all(scan_tokens(s, 0), max_index as nat) == Err::<
                                Seq<Seq<char>>,
                                SelErrorSpec,
                            >(e@));
                        }
                        return Err(e);
                    },
                    None => {
                        let ghost exp = expand_token(t, max_index as nat)->Ok_0;
                        proof {
                            lemma_expand_all_append(done, seq![t], max_index as nat);
                            assert(seq![t][0] == t);
                            assert(seq![t].skip(1) =~= Seq::<RawToken>::empty());
                            assert(expand_all(Seq::<RawToken>::empty(), max_index as nat) == Ok::<
                                Seq<Seq<char>>,
                                SelErrorSpec,
                            >(Seq::empty()));
                            assert(exp + Seq::<Seq<char>>::empty() =~= exp);
                            assert(expand_all(seq![t], max_index as nat) == Ok::<
                                Seq<Seq<char>>,
                                SelErrorSpec,
                            >(exp));
                            done = done + seq![t];
                            assert(expand_all(done, max_index as nat) == Ok::<
                                Seq<Seq<char>>,
                                SelErrorSpec,
                            >(dv0 + exp));
                            assert(scan_tokens(s, 0) =~= done + rest);
                        }
                        let end = match tok {
                            TokenIdx::Cancel { end } => end,
                            TokenIdx::Bare { end, .. } => end,
                            TokenIdx::Range { end, .. } => end,
                        };
                        p = end;
                    },
                }
            },
        }
    }
    proof {
        assert(scan_tokens(s, p as int) =~= Seq::<RawToken>::empty());
        assert(scan_tokens(s, 0) =~= done);
    }
    if result.len() == 0 {
        proof {
            assert(result.deep_view() =~= Seq::<Seq<char>>::empty());
        }
        Err(SelectionError::NoSelection)
    } else {
        proof {
            assert(result.deep_view().len() == result@.len());
        }
        Ok(result)
    }
}

} // verus!
