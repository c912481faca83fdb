//! Decimal rendering, zero padding and lexicographic order on strings.
//!
//! Archive entry names are built from a zero-padded positional index, so that
//! lexicographic name order agrees with numeric index order.  The spec
//! functions here define decimal digit strings and the padded form, and the
//! lemmas culminate in `lemma_padded_lex`: equal-width zero-padded decimals
//! compare lexicographically exactly as the numbers they denote.

use vstd::prelude::*;

verus! {

/// The decimal digit character for `d` (meaningful for `d < 10`).
pub open spec fn digit_char(d: nat) -> char {
    if d == 0 {
        '0'
    } else if d == 1 {
        '1'
    } else if d == 2 {
        '2'
    } else if d == 3 {
        '3'
    } else if d == 4 {
        '4'
    } else if d == 5 {
        '5'
    } else if d == 6 {
        '6'
    } else if d == 7 {
        '7'
    } else if d == 8 {
        '8'
    } else {
        '9'
    }
}

/// The decimal digit string of `n`, without padding or sign.
pub open spec fn dec_of(n: nat) -> Seq<char>
    decreases n,
{
    if n < 10 {
        seq![digit_char(n)]
    } else {
        dec_of(n / 10).push(digit_char(n % 10))
    }
}

/// A run of `k` zero characters.
pub open spec fn zeroes(k: nat) -> Seq<char> {
    Seq::new(k, |i: int| '0')
}

/// The decimal string of `n` left-padded with zeroes to at least width `w`,
/// as decimal formatting with a zero-fill minimum width produces it.
pub open spec fn padded_of(n: nat, w: nat) -> Seq<char> {
    if w > dec_of(n).len() {
        zeroes((w - dec_of(n).len()) as nat) + dec_of(n)
    } else {
        dec_of(n)
    }
}

/// Ten to the power `w`.
pub open spec fn pow10(w: nat) -> nat
    decreases w,
{
    if w == 0 {
        1
    } else {
        10 * pow10((w - 1) as nat)
    }
}

/// Strict lexicographic order on character sequences, by code point.
pub open spec fn lex_lt(a: Seq<char>, b: Seq<char>) -> bool
    decreases a.len(), b.len(),
{
    if b.len() == 0 {
        false
    } else if a.len() == 0 {
        true
    } else if (a[0] as int) < (b[0] as int) {
        true
    } else if a[0] == b[0] {
        lex_lt(a.drop_first(), b.drop_first())
    } else {
        false
    }
}

pub proof fn lemma_dec_len_monotone(m: nat, n: nat)
    requires
        m <= n,
    ensures
        1 <= dec_of(m).len() <= dec_of(n).len(),
    decreases n,
{
    if n >= 10 && m >= 10 {
        vstd::arithmetic::div_mod::lemma_div_is_ordered(m as int, n as int, 10);
        vstd::arithmetic::div_mod::lemma_div_decreases(n as int, 10);
        lemma_dec_len_monotone(m / 10, n / 10);
    } else if n >= 10 {
        vstd::arithmetic::div_mod::lemma_div_decreases(n as int, 10);
        lemma_dec_len_monotone(n / 10, n / 10);
    }
}

/// The padded rendering is as wide as asked for, or as wide as the digits
/// themselves if they do not fit.
pub proof fn lemma_padded_len(n: nat, w: nat)
    ensures
        dec_of(n).len() <= w ==> padded_of(n, w).len() == w,
        padded_of(n, w).len() >= dec_of(n).len(),
{
}

/// Peeling the least significant digit off a padded rendering of width at
/// least two.
proof fn lemma_padded_snoc(n: nat, w: nat)
    requires
        w >= 2,
    ensures
        padded_of(n, w) == padded_of(n / 10, (w - 1) as nat).push(digit_char(n % 10)),
{
    if n < 10 {
        vstd::arithmetic::div_mod::lemma_small_mod(n, 10);
        vstd::arithmetic::div_mod::lemma_basic_div(n as int, 10);
        assert(n / 10 == 0);
        assert(dec_of(0) == seq![digit_char(0)]);
        assert(padded_of(n, w) =~= padded_of(n / 10, (w - 1) as nat).push(digit_char(n % 10)));
    } else {
        assert(dec_of(n) == dec_of(n / 10).push(digit_char(n % 10)));
        vstd::arithmetic::div_mod::lemma_div_decreases(n as int, 10);
        lemma_dec_len_monotone(n / 10, n / 10);
        assert(padded_of(n, w) =~= padded_of(n / 10, (w - 1) as nat).push(digit_char(n % 10)));
    }
}

pub proof fn lemma_digit_char_val(d: nat)
    requires
        d <= 9,
    ensures
        digit_char(d) as int == 48 + d,
{
}

pub proof fn lemma_lex_irrefl(a: Seq<char>)
    ensures
        !lex_lt(a, a),
    decreases a.len(),
{
    if a.len() > 0 {
        lemma_lex_irrefl(a.drop_first());
    }
}

/// Prepending a common prefix preserves lexicographic order.
pub proof fn lemma_lex_prefix(p: Seq<char>, a: Seq<char>, b: Seq<char>)
    requires
        lex_lt(a, b),
    ensures
        lex_lt(p + a, p + b),
    decreases p.len(),
{
    if p.len() == 0 {
        assert(p + a =~= a);
        assert(p + b =~= b);
    } else {
        lemma_lex_prefix(p.drop_first(), a, b);
        assert((p + a).drop_first() =~= p.drop_first() + a);
        assert((p + b).drop_first() =~= p.drop_first() + b);
        assert((p + a)[0] == (p + b)[0]);
    }
}

/// Appending anything after two ordered strings of equal length keeps the
/// order: it is already decided within the common width.
pub proof fn lemma_lex_extend(a: Seq<char>, b: Seq<char>, x: Seq<char>, y: Seq<char>)
    requires
        lex_lt(a, b),
        a.len() == b.len(),
    ensures
        lex_lt(a + x, b + y),
    decreases a.len(),
{
    if a.len() == 0 {
        assert(false);
    } else {
        assert((a + x)[0] == a[0]);
        assert((b + y)[0] == b[0]);
        if a[0] == b[0] {
            lemma_lex_extend(a.drop_first(), b.drop_first(), x, y);
            assert((a + x).drop_first() =~= a.drop_first() + x);
            assert((b + y).drop_first() =~= b.drop_first() + y);
        }
    }
}

/// Pushing one character onto equal-length strings: the result is ordered if
/// the prefixes are, or if they are equal and the new characters are ordered.
proof fn lemma_lex_push(a: Seq<char>, b: Seq<char>, x: char, y: char)
    requires
        a.len() == b.len(),
        lex_lt(a, b) || (a == b && (x as int) < (y as int)),
    ensures
        lex_lt(a.push(x), b.push(y)),
    decreases a.len(),
{
    if a.len() == 0 {
        assert(a.push(x) =~= seq![x]);
        assert(b.push(y) =~= seq![y]);
        assert(lex_lt(seq![x], seq![y]));
    } else {
        assert(a.push(x)[0] == a[0]);
        assert(b.push(y)[0] == b[0]);
        if a[0] == b[0] {
            if lex_lt(a, b) {
                lemma_lex_push(a.drop_first(), b.drop_first(), x, y);
            } else {
                assert(a.drop_first() == b.drop_first());
                lemma_lex_push(a.drop_first(), b.drop_first(), x, y);
            }
            assert(a.push(x).drop_first() =~= a.drop_first().push(x));
            assert(b.push(y).drop_first() =~= b.drop_first().push(y));
        } else {
            assert(lex_lt(a, b));
        }
    }
}

/// Zero padding to a width that holds the digits of the larger number makes
/// lexicographic order agree with numeric order, and in particular makes the
/// renderings distinct.
pub proof fn lemma_padded_lex(i: nat, j: nat, w: nat)
    requires
        i < j,
        dec_of(j).len() <= w,
    ensures
        lex_lt(padded_of(i, w), padded_of(j, w)),
        padded_of(i, w) != padded_of(j, w),
        padded_of(i, w).len() == w,
        padded_of(j, w).len() == w,
    decreases w,
{
    lemma_dec_len_monotone(i, j);
    lemma_padded_len(i, w);
    lemma_padded_len(j, w);
    if w <= 1 {
        // both are bare single digits
        assert(dec_of(j).len() == 1);
        assert(j < 10) by {
            if j >= 10 {
                vstd::arithmetic::div_mod::lemma_div_decreases(j as int, 10);
                lemma_dec_len_monotone(j / 10, j / 10);
            }
        }
        assert(padded_of(i, w) == seq![digit_char(i)]);
        assert(padded_of(j, w) == seq![digit_char(j)]);
        lemma_digit_char_val(i);
        lemma_digit_char_val(j);
        assert(lex_lt(seq![digit_char(i)], seq![digit_char(j)]));
    } else {
        lemma_padded_snoc(i, w);
        lemma_padded_snoc(j, w);
        vstd::arithmetic::div_mod::lemma_div_is_ordered(i as int, j as int, 10);
        assert(dec_of(j / 10).len() <= w - 1) by {
            if j >= 10 {
                assert(dec_of(j).len() == dec_of(j / 10).len() + 1);
            } else {
                vstd::arithmetic::div_mod::lemma_basic_div(j as int, 10);
            }
        }
        lemma_padded_len(i / 10, (w - 1) as nat);
        lemma_padded_len(j / 10, (w - 1) as nat);
        vstd::arithmetic::div_mod::lemma_div_is_ordered(i as int, j as int, 10);
        lemma_dec_len_monotone(i / 10, j / 10);
        if i / 10 == j / 10 {
            assert(i % 10 < j % 10) by {
                vstd::arithmetic::div_mod::lemma_fundamental_div_mod(i as int, 10);
                vstd::arithmetic::div_mod::lemma_fundamental_div_mod(j as int, 10);
            }
            vstd::arithmetic::div_mod::lemma_mod_bound(i as int, 10);
            vstd::arithmetic::div_mod::lemma_mod_bound(j as int, 10);
            lemma_digit_char_val((i % 10) as nat);
            lemma_digit_char_val((j % 10) as nat);
            lemma_lex_push(
                padded_of(i / 10, (w - 1) as nat),
                padded_of(j / 10, (w - 1) as nat),
                digit_char((i % 10) as nat),
                digit_char((j % 10) as nat),
            );
        } else {
            lemma_padded_lex(i / 10, j / 10, (w - 1) as nat);
            lemma_lex_push(
                padded_of(i / 10, (w - 1) as nat),
                padded_of(j / 10, (w - 1) as nat),
                digit_char((i % 10) as nat),
                digit_char((j % 10) as nat),
            );
        }
    }
    if padded_of(i, w) == padded_of(j, w) {
        lemma_lex_irrefl(padded_of(i, w));
    }
}

/// A number below ten to the power `w` has at most `w` digits.
pub proof fn lemma_pow10_dec_len(n: nat, w: nat)
    requires
        n < pow10(w),
        1 <= w,
    ensures
        dec_of(n).len() <= w,
    decreases w,
{
    if n >= 10 {
        vstd::arithmetic::div_mod::lemma_fundamental_div_mod(n as int, 10);
        vstd::arithmetic::div_mod::lemma_mod_bound(n as int, 10);
        assert(pow10(w) == 10 * pow10((w - 1) as nat));
        assert(n / 10 < pow10((w - 1) as nat)) by {
            if n / 10 >= pow10((w - 1) as nat) {
                vstd::arithmetic::mul::lemma_mul_inequality(
                    pow10((w - 1) as nat) as int,
                    (n / 10) as int,
                    10,
                );
            }
        }
        lemma_pow10_dec_len(n / 10, (w - 1) as nat);
    }
}

/// Any machine-word-sized number has at most twenty digits.
pub proof fn lemma_dec_len_machine(n: nat)
    requires
        n <= 0xffff_ffff_ffff_ffff,
    ensures
        dec_of(n).len() <= 20,
{
    assert(pow10(2) == 100) by {
        assert(pow10(0) == 1);
        assert(pow10(1) == 10);
    }
    assert(pow10(4) == 10000) by {
        assert(pow10(3) == 10 * pow10(2));
    }
    assert(pow10(6) == 1000000) by {
        assert(pow10(5) == 10 * pow10(4));
    }
    assert(pow10(8) == 100000000) by {
        assert(pow10(7) == 10 * pow10(6));
    }
    assert(pow10(10) == 10000000000) by {
        assert(pow10(9) == 10 * pow10(8));
    }
    assert(pow10(12) == 1000000000000) by {
        assert(pow10(11) == 10 * pow10(10));
    }
    assert(pow10(14) == 100000000000000) by {
        assert(pow10(13) == 10 * pow10(12));
    }
    assert(pow10(16) == 10000000000000000) by {
        assert(pow10(15) == 10 * pow10(14));
    }
    assert(pow10(18) == 1000000000000000000) by {
        assert(pow10(17) == 10 * pow10(16));
    }
    assert(pow10(20) == 100000000000000000000) by {
        assert(pow10(19) == 10 * pow10(18));
    }
    lemma_pow10_dec_len(n, 20);
}

/// Decimal digit strings are unique to their number.
pub proof fn lemma_dec_injective(a: nat, b: nat)
    requires
        dec_of(a) == dec_of(b),
    ensures
        a == b,
    decreases a,
{
    if a < 10 && b < 10 {
        assert(dec_of(a)[0] == digit_char(a));
        assert(dec_of(b)[0] == digit_char(b));
        lemma_digit_char_val(a);
        lemma_digit_char_val(b);
    } else if a < 10 && b >= 10 {
        vstd::arithmetic::div_mod::lemma_div_decreases(b as int, 10);
        lemma_dec_len_monotone(b / 10, b / 10);
        assert(dec_of(b).len() >= 2);
    } else if a >= 10 && b < 10 {
        vstd::arithmetic::div_mod::lemma_div_decreases(a as int, 10);
        lemma_dec_len_monotone(a / 10, a / 10);
        assert(dec_of(a).len() >= 2);
    } else {
        assert(dec_of(a).last() == digit_char(a % 10));
        assert(dec_of(b).last() == digit_char(b % 10));
        vstd::arithmetic::div_mod::lemma_mod_bound(a as int, 10);
        vstd::arithmetic::div_mod::lemma_mod_bound(b as int, 10);
        lemma_digit_char_val((a % 10) as nat);
        lemma_digit_char_val((b % 10) as nat);
        assert(a % 10 == b % 10);
        assert(dec_of(a).drop_last() =~= dec_of(a / 10));
        assert(dec_of(b).drop_last() =~= dec_of(b / 10));
        vstd::arithmetic::div_mod::lemma_div_decreases(a as int, 10);
        lemma_dec_injective(a / 10, b / 10);
        vstd::arithmetic::div_mod::lemma_fundamental_div_mod(a as int, 10);
        vstd::arithmetic::div_mod::lemma_fundamental_div_mod(b as int, 10);
    }
}

/// The pattern occurs in `s` at position `i`.
pub open spec fn match_at(s: Seq<char>, pat: Seq<char>, i: int) -> bool {
    0 <= i && i + pat.len() <= s.len() && s.subrange(i, i + pat.len() as int) == pat
}

/// The first position at or after `i` where the pattern occurs, if any.
pub open spec fn first_match_from(s: Seq<char>, pat: Seq<char>, i: nat) -> Option<int>
    decreases s.len() + 1 - i,
{
    if i + pat.len() > s.len() {
        None
    } else if match_at(s, pat, i as int) {
        Some(i as int)
    } else {
        first_match_from(s, pat, i + 1)
    }
}

/// The prefix of `s` before the first occurrence of the pattern, or all of
/// `s` when the pattern does not occur: the first piece of a split.
pub open spec fn before_first(s: Seq<char>, pat: Seq<char>) -> Seq<char> {
    match first_match_from(s, pat, 0) {
        Some(k) => s.subrange(0, k),
        None => s,
    }
}

/// The pieces joined with the separator between consecutive pieces.
pub open spec fn join_sep(parts: Seq<Seq<char>>, sep: Seq<char>) -> Seq<char>
    decreases parts.len(),
{
    if parts.len() == 0 {
        Seq::empty()
    } else if parts.len() == 1 {
        parts[0]
    } else {
        join_sep(parts.drop_last(), sep) + sep + parts.last()
    }
}

/// Whether the pattern matches `s` at position `i`, by characters.
fn check_match_at(s: &str, pat: &str, i: usize, n: usize, m: usize) -> (r: bool)
    requires
        n == s@.len(),
        m == pat@.len(),
        i + m <= n,
    ensures
        r == match_at(s@, pat@, i as int),
{
    let mut j: usize = 0;
    while j < m
        invariant
            n == s@.len(),
            m == pat@.len(),
            i + m <= n,
            j <= m,
            forall|k: int| 0 <= k < j ==> s@[i + k] == pat@[k],
        decreases m - j,
    {
        if s.get_char(i + j) != pat.get_char(j) {
            proof {
                assert(s@.subrange(i as int, i + m as int)[j as int] != pat@[j as int]);
            }
            return false;
        }
        j = j + 1;
    }
    proof {
        assert(s@.subrange(i as int, i + m as int) =~= pat@);
    }
    true
}

/// The prefix of `s` before the first occurrence of `pat`, or all of `s`.
pub fn prefix_before(s: &str, pat: &str) -> (r: String)
    ensures
        r@ == before_first(s@, pat@),
{
    let n = s.unicode_len();
    let m = pat.unicode_len();
    if m > n {
        proof {
            assert(first_match_from(s@, pat@, 0) is None);
        }
        return s.to_owned();
    }
    let limit = n - m;
    let mut i: usize = 0;
    while i < limit
        invariant
            n == s@.len(),
            m == pat@.len(),
            m <= n,
            limit == n - m,
            i <= limit,
            first_match_from(s@, pat@, 0) == first_match_from(s@, pat@, i as nat),
        decreases limit - i,
    {
        if check_match_at(s, pat, i, n, m) {
            let r = s.substring_char(0, i).to_owned();
            proof {
                assert(first_match_from(s@, pat@, i as nat) == Some(i as int));
            }
            return r;
        }
        i = i + 1;
    }
    if check_match_at(s, pat, limit, n, m) {
        let r = s.substring_char(0, limit).to_owned();
        proof {
            assert(first_match_from(s@, pat@, limit as nat) == Some(limit as int));
        }
        return r;
    }
    proof {
        assert(first_match_from(s@, pat@, (limit + 1) as nat) is None);
        assert(first_match_from(s@, pat@, limit as nat) is None);
    }
    s.to_owned()
}

/// The pieces joined with the separator between consecutive pieces.
pub fn join_with(parts: &Vec<String>, sep: &str) -> (r: String)
    ensures
        r@ == join_sep(parts.deep_view(), sep@),
{
    let ghost all = parts.deep_view();
    let mut r = String::new();
    let mut i: usize = 0;
    proof {
        assert(all.take(0) =~= Seq::<Seq<char>>::empty());
    }
    while i < parts.len()
        invariant
            i <= parts.len(),
            all == parts.deep_view(),
            all.len() == parts.len(),
            r@ == join_sep(all.take(i as int), sep@),
        decreases parts.len() - i,
    {
        if i > 0 {
            r.append(sep);
        }
        r.append(parts[i].as_str());
        i = i + 1;
        proof {
            let t = all.take(i as int);
            assert(t.len() == i);
            assert(t.drop_last() =~= all.take(i - 1));
            assert(t.last() == all[i - 1]);
            if i == 1 {
                assert(join_sep(t, sep@) == all[0]);
                assert(r@ =~= all[0]);
            } else {
                assert(join_sep(t, sep@) == join_sep(all.take(i - 1), sep@) + sep@ + all[i - 1]);
                assert(r@ =~= join_sep(all.take(i - 1), sep@) + sep@ + all[i - 1]);
            }
        }
    }
    proof {
        assert(all.take(i as int) =~= all);
    }
    r
}

/// One decimal digit as a static string.
fn digit_str(d: u64) -> (r: &'static str)
    requires
        d < 10,
    ensures
        r@ =~= seq![digit_char(d as nat)],
{
    proof {
        reveal_strlit("0");
        reveal_strlit("1");
        reveal_strlit("2");
        reveal_strlit("3");
        reveal_strlit("4");
        reveal_strlit("5");
        reveal_strlit("6");
        reveal_strlit("7");
        reveal_strlit("8");
        reveal_strlit("9");
    }
    if d == 0 {
        "0"
    } else if d == 1 {
        "1"
    } else if d == 2 {
        "2"
    } else if d == 3 {
        "3"
    } else if d == 4 {
        "4"
    } else if d == 5 {
        "5"
    } else if d == 6 {
        "6"
    } else if d == 7 {
        "7"
    } else if d == 8 {
        "8"
    } else {
        "9"
    }
}

/// The decimal string of `n`.
pub fn dec_string(n: u64) -> (r: String)
    ensures
        r@ == dec_of(n as nat),
    decreases n,
{
    if n < 10 {
        String::from_str(digit_str(n))
    } else {
        let mut s = dec_string(n / 10);
        s.append(digit_str(n % 10));
        proof {
            assert(dec_of((n / 10) as nat).push(digit_char((n % 10) as nat)) =~= dec_of(
                (n / 10) as nat,
            ) + seq![digit_char((n % 10) as nat)]);
        }
        s
    }
}

/// The decimal string of `n`, zero-padded on the left to at least width `w`.
pub fn pad_string(n: u64, w: usize) -> (r: String)
    ensures
        r@ == padded_of(n as nat, w as nat),
{
    let d = dec_string(n);
    let dlen = d.as_str().unicode_len();
    let mut r = String::new();
    let mut k: usize = dlen;
    proof {
        reveal_strlit("0");
        assert(r@ =~= zeroes((k - dlen) as nat));
    }
    while k < w
        invariant
            dlen <= k,
            k == dlen || k <= w,
            r@ =~= zeroes((k - dlen) as nat),
        decreases w - k,
    {
        r.append("0");
        k = k + 1;
        proof {
            reveal_strlit("0");
            assert(r@ =~= zeroes((k - dlen) as nat));
        }
    }
    r.append(d.as_str());
    proof {
        if (w as nat) > dec_of(n as nat).len() {
            assert(k == w);
        } else {
            assert(k == dlen);
            assert(r@ =~= dec_of(n as nat));
        }
    }
    r
}

} // verus!
