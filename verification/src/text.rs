//! Character and digit-string utilities shared by the filename parser, the
//! selection parser and the group ordering: digit classification, decimal
//! rendering, digit-string values, and lexicographic order over `Seq<char>`.

use vstd::prelude::*;
use vstd::string::StrSliceExecFns;

verus! {

/// A decimal digit character, `'0'` through `'9'`.
pub open spec fn spec_is_digit(c: char) -> bool {
    48 <= c as u32 && c as u32 <= 57
}

#[verifier::when_used_as_spec(spec_is_digit)]
pub fn is_digit(c: char) -> (r: bool)
    ensures
        r == spec_is_digit(c),
{
    let u: u32 = c as u32;
    48 <= u && u <= 57
}

/// The numeric value of a decimal digit character.
pub open spec fn digit_val(c: char) -> nat {
    (c as u32 - 48) as nat
}

/// Every character of `s` is a decimal digit.
pub open spec fn all_digits(s: Seq<char>) -> bool {
    forall|i: int| 0 <= i < s.len() ==> spec_is_digit(#[trigger] s[i])
}

/// The decimal digit character for a value below ten.
pub open spec fn digit_char(d: nat) -> char {
    ((d + 48) as u8) as char
}

/// The canonical decimal rendering of a natural number, without leading zeros.
pub open spec fn dec_str(n: nat) -> Seq<char>
    decreases n,
{
    if n < 10 {
        seq![digit_char(n)]
    } else {
        dec_str(n / 10) + seq![digit_char(n % 10)]
    }
}

/// The scalar value of a digit character below ten.
pub proof fn lemma_digit_char_val(d: nat)
    requires
        d < 10,
    ensures
        digit_char(d) as u32 == 48 + d,
        spec_is_digit(digit_char(d)),
{
}

/// Every character of a decimal rendering is a digit.
pub proof fn lemma_dec_str_all_digits(n: nat)
    ensures
        all_digits(dec_str(n)),
    decreases n,
{
    if n < 10 {
        lemma_digit_char_val(n);
    } else {
        lemma_dec_str_all_digits(n / 10);
        lemma_digit_char_val(n % 10);
        assert forall|i: int| 0 <= i < dec_str(n).len() implies spec_is_digit(
            #[trigger] dec_str(n)[i],
        ) by {
            if i < dec_str(n / 10).len() {
                assert(dec_str(n)[i] == dec_str(n / 10)[i]);
            } else {
                assert(dec_str(n)[i] == digit_char(n % 10));
            }
        }
    }
}

/// Two numbers with the same decimal rendering are the same number.
pub proof fn lemma_dec_str_injective(n1: nat, n2: nat)
    requires
        dec_str(n1) == dec_str(n2),
    ensures
        n1 == n2,
    decreases n1,
{
    lemma_dec_str_len_pos(n1 / 10);
    lemma_dec_str_len_pos(n2 / 10);
    if n1 < 10 && n2 < 10 {
        assert(dec_str(n1)[0] == digit_char(n1));
        assert(dec_str(n2)[0] == digit_char(n2));
        assert(digit_char(n1) == digit_char(n2));
        lemma_digit_char_val(n1);
        lemma_digit_char_val(n2);
        assert(digit_char(n1) as u32 == digit_char(n2) as u32);
    } else if n1 >= 10 && n2 >= 10 {
        assert(dec_str(n1).last() == digit_char(n1 % 10));
        assert(dec_str(n2).last() == digit_char(n2 % 10));
        lemma_digit_char_val(n1 % 10);
        lemma_digit_char_val(n2 % 10);
        assert(digit_char(n1 % 10) as u32 == digit_char(n2 % 10) as u32);
        assert(n1 % 10 == n2 % 10);
        assert(dec_str(n1).drop_last() =~= dec_str(n1 / 10));
        assert(dec_str(n2).drop_last() =~= dec_str(n2 / 10));
        lemma_dec_str_injective(n1 / 10, n2 / 10);
        assert(n1 == 10 * (n1 / 10) + n1 % 10);
        assert(n2 == 10 * (n2 / 10) + n2 % 10);
    } else {
        // One rendering has a single digit, the other at least two.
        assert(dec_str(n1).len() == dec_str(n2).len());
    }
}

/// Appends the decimal rendering of `n` to `out`.
pub fn push_dec_u64(out: &mut Vec<char>, n: u64)
    ensures
        final(out)@ == old(out)@ + dec_str(n as nat),
    decreases n,
{
    if n >= 10 {
        push_dec_u64(out, n / 10);
    }
    let d: u8 = (n % 10) as u8;
    let c: char = (d + 48) as char;
    assert(c == digit_char((n % 10) as nat));
    out.push(c);
    proof {
        if n < 10 {
            assert(n as nat % 10 == n as nat);
            assert(final(out)@ =~= old(out)@ + dec_str(n as nat));
        } else {
            assert(final(out)@ =~= old(out)@ + dec_str(n as nat));
        }
    }
}

/// The numeric value of a string of decimal digits, most significant first.
pub open spec fn digits_val(s: Seq<char>) -> nat
    decreases s.len(),
{
    if s.len() == 0 {
        0
    } else {
        digits_val(s.drop_last()) * 10 + digit_val(s.last())
    }
}

/// The value of a digit string never shrinks when digits are appended.
pub proof fn lemma_digits_val_take_le(s: Seq<char>, i: int)
    requires
        0 <= i <= s.len(),
    ensures
        digits_val(s.take(i)) <= digits_val(s),
    decreases s.len() - i,
{
    if i < s.len() {
        lemma_digits_val_take_le(s, i + 1);
        let t = s.take(i + 1);
        assert(t.drop_last() =~= s.take(i));
        assert(digits_val(t) == digits_val(s.take(i)) * 10 + digit_val(t.last()));
        assert(digits_val(s.take(i)) * 10 >= digits_val(s.take(i))) by (nonlinear_arith);
    } else {
        assert(s.take(i) =~= s);
    }
}

/// Parses the digit run `s[from..to]` as a `u64`, most significant digit
/// first. Returns `None` exactly when the value does not fit in a `u64`.
pub fn parse_u64_digits(s: &Vec<char>, from: usize, to: usize) -> (r: Option<u64>)
    requires
        from <= to <= s@.len(),
        all_digits(s@.subrange(from as int, to as int)),
    ensures
        ({
            let d = s@.subrange(from as int, to as int);
            match r {
                Some(x) => x == digits_val(d) && digits_val(d) <= u64::MAX,
                None => digits_val(d) > u64::MAX,
            }
        }),
{
    let ghost d = s@.subrange(from as int, to as int);
    let mut acc: u64 = 0;
    let mut i: usize = from;
    while i < to
        invariant
            from <= i <= to <= s@.len(),
            d == s@.subrange(from as int, to as int),
            all_digits(d),
            acc == digits_val(d.take(i - from)),
        decreases to - i,
    {
        proof {
            assert(d[i - from] == s@[i as int]);
            assert(spec_is_digit(d[i - from]));
            let t = d.take(i - from + 1);
            assert(t.drop_last() =~= d.take(i - from));
            assert(t.last() == d[i - from]);
        }
        let dig: u64 = (s[i] as u32 - 48) as u64;
        if acc > (0xFFFF_FFFF_FFFF_FFFFu64 - dig) / 10 {
            proof {
                let q = (0xFFFF_FFFF_FFFF_FFFF - dig as int) / 10;
                assert(acc * 10 + dig > 0xFFFF_FFFF_FFFF_FFFF) by (nonlinear_arith)
                    requires
                        acc > q,
                        q == (0xFFFF_FFFF_FFFF_FFFF - dig as int) / 10,
                        0 <= dig <= 9,
                ;
                lemma_digits_val_take_le(d, i - from + 1);
            }
            return None;
        }
        proof {
            let q = (0xFFFF_FFFF_FFFF_FFFF - dig as int) / 10;
            assert(acc * 10 + dig <= 0xFFFF_FFFF_FFFF_FFFF) by (nonlinear_arith)
                requires
                    acc <= q,
                    q == (0xFFFF_FFFF_FFFF_FFFF - dig as int) / 10,
                    0 <= dig <= 9,
            ;
        }
        acc = acc * 10 + dig;
        i = i + 1;
    }
    proof {
        assert(d.take(to - from) =~= d);
    }
    Some(acc)
}

/// The end of the run of decimal digits starting at `i`.
pub open spec fn digits_end(s: Seq<char>, i: int) -> int
    decreases s.len() - i,
{
    if 0 <= i < s.len() && spec_is_digit(s[i]) {
        digits_end(s, i + 1)
    } else {
        i
    }
}

/// The digit run starting at `i` stays inside the string, consists of digits,
/// and ends right before a non-digit.
pub proof fn lemma_digits_end(s: Seq<char>, i: int)
    requires
        0 <= i <= s.len(),
    ensures
        i <= digits_end(s, i) <= s.len(),
        all_digits(s.subrange(i, digits_end(s, i))),
        digits_end(s, i) < s.len() ==> !spec_is_digit(s[digits_end(s, i)]),
    decreases s.len() - i,
{
    let e = digits_end(s, i);
    if i < s.len() && spec_is_digit(s[i]) {
        lemma_digits_end(s, i + 1);
        assert(e == digits_end(s, i + 1));
        assert forall|k: int| 0 <= k < e - i implies spec_is_digit(#[trigger] s.subrange(i, e)[k]) by {
            if k == 0 {
                assert(s.subrange(i, e)[0] == s[i]);
            } else {
                assert(s.subrange(i + 1, e)[k - 1] == s.subrange(i, e)[k]);
                assert(spec_is_digit(s.subrange(i + 1, e)[k - 1]));
            }
        }
    }
}

/// Computes [`digits_end`].
pub fn digits_end_exec(v: &Vec<char>, i: usize) -> (r: usize)
    requires
        i <= v@.len(),
    ensures
        r == digits_end(v@, i as int),
        i <= r <= v@.len(),
{
    let mut j = i;
    while j < v.len() && is_digit(v[j])
        invariant
            i <= j <= v@.len(),
            digits_end(v@, i as int) == digits_end(v@, j as int),
        decreases v@.len() - j,
    {
        j = j + 1;
    }
    proof {
        lemma_digits_end(v@, i as int);
    }
    j
}

/// The decimal rendering of a number is never empty.
pub proof fn lemma_dec_str_len_pos(n: nat)
    ensures
        dec_str(n).len() >= 1,
    decreases n,
{
    if n >= 10 {
        lemma_dec_str_len_pos(n / 10);
    }
}

/// Appends the characters of a string slice to a vector.
pub fn push_str_chars(out: &mut Vec<char>, s: &str)
    ensures
        final(out)@ == old(out)@ + s@,
{
    let n: usize = s.unicode_len();
    let mut i: usize = 0;
    while i < n
        invariant
            i <= n,
            n == s@.len(),
            out@ == old(out)@ + s@.take(i as int),
        decreases n - i,
    {
        let c: char = s.get_char(i);
        out.push(c);
        i = i + 1;
        proof {
            assert(out@ =~= old(out)@ + s@.take(i as int));
        }
    }
    proof {
        assert(old(out)@ + s@.take(n as int) =~= old(out)@ + s@);
    }
}

/// Compares two character vectors for equality.
pub fn chars_eq(a: &Vec<char>, b: &Vec<char>) -> (r: bool)
    ensures
        r == (a@ == b@),
{
    if a.len() != b.len() {
        return false;
    }
    let n = a.len();
    let mut i: usize = 0;
    while i < n
        invariant
            i <= n,
            n == a@.len() && n == b@.len(),
            forall|k: int| 0 <= k < i ==> a@[k] == b@[k],
        decreases n - i,
    {
        if a[i] != b[i] {
            return false;
        }
        i = i + 1;
    }
    proof {
        assert(a@ =~= b@);
    }
    true
}

/// Strict lexicographic order over character sequences, comparing by scalar
/// value; the byte-wise order of the corresponding UTF-8 strings agrees with
/// it.
pub open spec fn lex_lt(a: Seq<char>, b: Seq<char>) -> bool
    decreases a.len(),
{
    if b.len() == 0 {
        false
    } else if a.len() == 0 {
        true
    } else if (a[0] as u32) < (b[0] as u32) {
        true
    } else if a[0] == b[0] {
        lex_lt(a.skip(1), b.skip(1))
    } else {
        false
    }
}

/// Two characters with the same scalar value are the same character.
pub proof fn lemma_char_cast_inj(c1: char, c2: char)
    requires
        c1 as u32 == c2 as u32,
    ensures
        c1 == c2,
{
}

/// Exactly one of `lex_lt(a, b)`, `lex_lt(b, a)` and `a == b` holds.
pub proof fn lemma_lex_lt_trichotomy(a: Seq<char>, b: Seq<char>)
    ensures
        lex_lt(a, b) || lex_lt(b, a) || a == b,
        lex_lt(a, b) ==> !lex_lt(b, a) && a != b,
        lex_lt(b, a) ==> !lex_lt(a, b) && a != b,
    decreases a.len(),
{
    if a.len() == 0 && b.len() == 0 {
        assert(a =~= b);
    } else if a.len() != 0 && b.len() != 0 {
        lemma_lex_lt_trichotomy(a.skip(1), b.skip(1));
        if (a[0] as u32) < (b[0] as u32) {
            assert(lex_lt(a, b));
            assert(!lex_lt(b, a));
        } else if (b[0] as u32) < (a[0] as u32) {
            assert(lex_lt(b, a));
            assert(!lex_lt(a, b));
        } else {
            lemma_char_cast_inj(a[0], b[0]);
            assert(a[0] == b[0]);
            assert(lex_lt(a, b) == lex_lt(a.skip(1), b.skip(1)));
            assert(lex_lt(b, a) == lex_lt(b.skip(1), a.skip(1)));
            if a.skip(1) == b.skip(1) {
                assert(a =~= seq![a[0]] + a.skip(1));
                assert(b =~= seq![b[0]] + b.skip(1));
            }
        }
    }
}

/// Lexicographic order is transitive.
pub proof fn lemma_lex_lt_transitive(a: Seq<char>, b: Seq<char>, c: Seq<char>)
    requires
        lex_lt(a, b),
        lex_lt(b, c),
    ensures
        lex_lt(a, c),
    decreases a.len(),
{
    if a.len() != 0 && b.len() != 0 && c.len() != 0 && a[0] == b[0] && b[0] == c[0] {
        lemma_lex_lt_transitive(a.skip(1), b.skip(1), c.skip(1));
    }
}

/// Decides `lex_lt` over character vectors.
pub fn lex_lt_chars(a: &Vec<char>, b: &Vec<char>) -> (r: bool)
    ensures
        r == lex_lt(a@, b@),
{
    let mut i: usize = 0;
    let alen = a.len();
    let blen = b.len();
    proof {
        assert(a@.skip(0) =~= a@);
        assert(b@.skip(0) =~= b@);
    }
    loop
        invariant
            i <= alen <= a@.len(),
            i <= blen <= b@.len(),
            alen == a@.len(),
            blen == b@.len(),
            lex_lt(a@, b@) == lex_lt(a@.skip(i as int), b@.skip(i as int)),
        decreases alen - i,
    {
        if i == blen {
            return false;
        }
        if i == alen {
            return true;
        }
        let ca = a[i];
        let cb = b[i];
        if (ca as u32) < (cb as u32) {
            return true;
        }
        if ca != cb {
            assert(!lex_lt(a@.skip(i as int), b@.skip(i as int)));
            return false;
        }
        proof {
            assert(a@.skip(i as int).skip(1) =~= a@.skip(i + 1));
            assert(b@.skip(i as int).skip(1) =~= b@.skip(i + 1));
        }
        i = i + 1;
    }
}

/// Appends the decimal rendering of `n` to a `String`.
pub fn push_dec_string(s: &mut String, n: u64)
    ensures
        final(s)@ == old(s)@ + dec_str(n as nat),
    decreases n,
{
    if n >= 10 {
        push_dec_string(s, n / 10);
    }
    let d: usize = (n % 10) as usize;
    let digits: &str = "0123456789";
    proof {
        reveal_strlit("0123456789");
    }
    let one: &str = digits.substring_ascii(d, d + 1);
    proof {
        assert(one@ =~= seq![digit_char((n % 10) as nat)]);
        if n < 10 {
            assert(n as nat % 10 == n as nat);
        }
    }
    s.append(one);
}

/// Renders `n` in decimal as a `String`.
pub fn dec_string_u64(n: u64) -> (r: String)
    ensures
        r@ == dec_str(n as nat),
{
    let mut s = String::new();
    push_dec_string(&mut s, n);
    proof {
        assert(s@ =~= dec_str(n as nat));
    }
    s
}

/// Compares the characters `v[from..to]` against the word `w`.
pub fn str_range_eq(v: &Vec<char>, from: usize, to: usize, w: &str) -> (r: bool)
    requires
        from <= to <= v@.len(),
    ensures
        r == (v@.subrange(from as int, to as int) == w@),
{
    let wlen = w.unicode_len();
    if to - from != wlen {
        return false;
    }
    let mut i: usize = 0;
    while i < wlen
        invariant
            0 <= i <= wlen,
            wlen == w@.len(),
            from <= to <= v@.len(),
            to - from == wlen,
            forall|k: int| 0 <= k < i ==> v@[from + k] == w@[k],
        decreases wlen - i,
    {
        if v[from + i] != w.get_char(i) {
            assert(v@.subrange(from as int, to as int)[i as int] != w@[i as int]);
            return false;
        }
        i = i + 1;
    }
    proof {
        assert(v@.subrange(from as int, to as int) =~= w@);
    }
    true
}

/// Collects the characters of a string slice into a vector.
pub fn chars_of(s: &str) -> (r: Vec<char>)
    ensures
        r@ == s@,
{
    let n: usize = s.unicode_len();
    let mut r: Vec<char> = Vec::new();
    let mut i: usize = 0;
    while i < n
        invariant
            i <= n,
            n == s@.len(),
            r@ == s@.take(i as int),
        decreases n - i,
    {
        let c: char = s.get_char(i);
        r.push(c);
        i = i + 1;
        proof {
            assert(r@ =~= s@.take(i as int));
        }
    }
    proof {
        assert(s@.take(n as int) =~= s@);
    }
    r
}

} // verus!



