//! Natural (alphanumeric) string ordering for user-facing lists.
//!
//! Digit runs compare by numeric value, everything else ASCII-case-insensitively,
//! so "Bench 2" sorts before "Bench 10". When two strings tie under those rules
//! the plain character order decides, so the ordering is total.
use std::cmp::Ordering;
use vstd::prelude::*;

use crate::text::{chars_of, is_ascii_digit, is_digit_char};

verus! {

// ---------------------------------------------------------------------------
// The mathematical ordering
// ---------------------------------------------------------------------------

/// The reverse of an ordering (`Less` and `Greater` swap).
pub open spec fn flip(o: Ordering) -> Ordering {
    match o {
        Ordering::Less => Ordering::Greater,
        Ordering::Equal => Ordering::Equal,
        Ordering::Greater => Ordering::Less,
    }
}

/// ASCII lower-casing of one character: `'A'..='Z'` become `'a'..='z'`,
/// every other character is left alone.
pub open spec fn folded(c: char) -> char {
    if 'A' <= c && c <= 'Z' {
        ((c as u32) + 32) as char
    } else {
        c
    }
}

/// Order of two characters by code point.
pub open spec fn char_order(x: char, y: char) -> Ordering {
    if x < y {
        Ordering::Less
    } else if x == y {
        Ordering::Equal
    } else {
        Ordering::Greater
    }
}

/// Lexicographic order of two character sequences; a proper prefix is smaller.
/// On strings this is the same order as comparing their UTF-8 bytes.
pub open spec fn lex_order(a: Seq<char>, b: Seq<char>) -> Ordering
    decreases a.len(),
{
    if a.len() == 0 {
        if b.len() == 0 {
            Ordering::Equal
        } else {
            Ordering::Less
        }
    } else if b.len() == 0 {
        Ordering::Greater
    } else if a[0] != b[0] {
        char_order(a[0], b[0])
    } else {
        lex_order(a.drop_first(), b.drop_first())
    }
}

/// Number of ASCII digits at the start of `s`.
pub open spec fn digit_run_len(s: Seq<char>) -> nat
    decreases s.len(),
{
    if s.len() > 0 && is_digit_char(s[0]) {
        1 + digit_run_len(s.drop_first())
    } else {
        0
    }
}

/// `s` without its leading `'0'` characters.
pub open spec fn strip_zeros(s: Seq<char>) -> Seq<char>
    decreases s.len(),
{
    if s.len() > 0 && s[0] == '0' {
        strip_zeros(s.drop_first())
    } else {
        s
    }
}

/// Numeric order of two digit runs of any length: leading zeros do not count,
/// a longer number is larger, numbers of equal length compare digit by digit.
pub open spec fn digit_runs_order(a: Seq<char>, b: Seq<char>) -> Ordering {
    let ta = strip_zeros(a);
    let tb = strip_zeros(b);
    if ta.len() < tb.len() {
        Ordering::Less
    } else if ta.len() > tb.len() {
        Ordering::Greater
    } else {
        lex_order(ta, tb)
    }
}

/// Length of the first token of a non-empty `s`: a whole digit run, or one
/// other character.
pub open spec fn token_len(s: Seq<char>) -> nat {
    if is_digit_char(s[0]) {
        digit_run_len(s)
    } else {
        1
    }
}

/// The digit run at the start of `s`.
pub open spec fn digit_run(s: Seq<char>) -> Seq<char> {
    s.take(digit_run_len(s) as int)
}

/// What follows the first token of a non-empty `s`.
pub open spec fn after_token(s: Seq<char>) -> Seq<char> {
    s.skip(token_len(s) as int)
}

/// Order of the first tokens of two non-empty sequences: two digit runs
/// compare numerically, anything else compares the case-folded first
/// characters.
pub open spec fn token_order(a: Seq<char>, b: Seq<char>) -> Ordering {
    if is_digit_char(a[0]) && is_digit_char(b[0]) {
        digit_runs_order(digit_run(a), digit_run(b))
    } else {
        char_order(folded(a[0]), folded(b[0]))
    }
}

/// Walks both sequences token by token: the first unequal pair of tokens
/// decides, running out first makes a sequence smaller, and `None` means both
/// ran out together with every token pair equal.
pub open spec fn natural_walk(a: Seq<char>, b: Seq<char>) -> Option<Ordering>
    decreases a.len() + b.len(),
{
    if a.len() == 0 {
        if b.len() == 0 {
            None
        } else {
            Some(Ordering::Less)
        }
    } else if b.len() == 0 {
        Some(Ordering::Greater)
    } else if token_order(a, b) != Ordering::Equal {
        Some(token_order(a, b))
    } else {
        proof {
            lemma_token_len_bounds(a);
            lemma_token_len_bounds(b);
        }
        natural_walk(after_token(a), after_token(b))
    }
}

/// The natural order of two strings: the token walk, and where it ties the
/// plain character order.
pub open spec fn natural_order(a: Seq<char>, b: Seq<char>) -> Ordering {
    match natural_walk(a, b) {
        Some(o) => o,
        None => lex_order(a, b),
    }
}

// ---------------------------------------------------------------------------
// Supporting lemmas
// ---------------------------------------------------------------------------

pub proof fn lemma_digit_run_len_bounds(s: Seq<char>)
    ensures
        digit_run_len(s) <= s.len(),
        s.len() > 0 && is_digit_char(s[0]) ==> digit_run_len(s) >= 1,
        forall|k: int| 0 <= k < digit_run_len(s) ==> is_digit_char(#[trigger] s[k]),
        digit_run_len(s) < s.len() ==> !is_digit_char(s[digit_run_len(s) as int]),
    decreases s.len(),
{
    if s.len() > 0 && is_digit_char(s[0]) {
        lemma_digit_run_len_bounds(s.drop_first());
        assert forall|k: int| 0 <= k < digit_run_len(s) implies is_digit_char(#[trigger] s[k]) by {
            if k > 0 {
                assert(s[k] == s.drop_first()[k - 1]);
            }
        }
        if digit_run_len(s) < s.len() {
            assert(s[digit_run_len(s) as int] == s.drop_first()[digit_run_len(s.drop_first()) as int]);
        }
    }
}

pub proof fn lemma_token_len_bounds(s: Seq<char>)
    requires
        s.len() > 0,
    ensures
        1 <= token_len(s) <= s.len(),
{
    lemma_digit_run_len_bounds(s);
}

proof fn lemma_fold_keeps_digits(c: char)
    ensures
        is_digit_char(folded(c)) == is_digit_char(c),
        is_digit_char(c) ==> folded(c) == c,
{
}

proof fn lemma_lex_flip(a: Seq<char>, b: Seq<char>)
    ensures
        lex_order(b, a) == flip(lex_order(a, b)),
    decreases a.len(),
{
    if a.len() > 0 && b.len() > 0 && a[0] == b[0] {
        lemma_lex_flip(a.drop_first(), b.drop_first());
    }
}

proof fn lemma_lex_equal(a: Seq<char>, b: Seq<char>)
    ensures
        (lex_order(a, b) == Ordering::Equal) <==> (a == b),
    decreases a.len(),
{
    if a.len() > 0 && b.len() > 0 && a[0] == b[0] {
        lemma_lex_equal(a.drop_first(), b.drop_first());
        if a.drop_first() == b.drop_first() {
            assert(a =~= seq![a[0]] + a.drop_first());
            assert(b =~= seq![b[0]] + b.drop_first());
        }
        if a == b {
            assert(a.drop_first() =~= b.drop_first());
        }
    } else if a.len() > 0 && b.len() > 0 {
        assert(a[0] != b[0]);
    } else if a.len() == 0 && b.len() == 0 {
        assert(a =~= b);
    }
}

proof fn lemma_lex_trans(a: Seq<char>, b: Seq<char>, c: Seq<char>)
    requires
        lex_order(a, b) == Ordering::Less,
        lex_order(b, c) == Ordering::Less,
    ensures
        lex_order(a, c) == Ordering::Less,
    decreases a.len(),
{
    if a.len() > 0 && b.len() > 0 && c.len() > 0 && a[0] == b[0] && b[0] == c[0] {
        lemma_lex_trans(a.drop_first(), b.drop_first(), c.drop_first());
    }
}

proof fn lemma_digit_runs_flip(a: Seq<char>, b: Seq<char>)
    ensures
        digit_runs_order(b, a) == flip(digit_runs_order(a, b)),
{
    lemma_lex_flip(strip_zeros(a), strip_zeros(b));
}

proof fn lemma_digit_runs_trans(a: Seq<char>, b: Seq<char>, c: Seq<char>)
    requires
        digit_runs_order(a, b) == Ordering::Less,
        digit_runs_order(b, c) == Ordering::Less,
    ensures
        digit_runs_order(a, c) == Ordering::Less,
{
    let (ta, tb, tc) = (strip_zeros(a), strip_zeros(b), strip_zeros(c));
    if ta.len() == tb.len() && tb.len() == tc.len() {
        lemma_lex_trans(ta, tb, tc);
    }
}

proof fn lemma_digit_runs_equal(a: Seq<char>, b: Seq<char>, c: Seq<char>)
    requires
        digit_runs_order(a, b) == Ordering::Equal,
    ensures
        digit_runs_order(a, c) == digit_runs_order(b, c),
{
    lemma_lex_equal(strip_zeros(a), strip_zeros(b));
}

proof fn lemma_digit_runs_refl(a: Seq<char>)
    ensures
        digit_runs_order(a, a) == Ordering::Equal,
{
    lemma_lex_equal(strip_zeros(a), strip_zeros(a));
}

proof fn lemma_token_flip(a: Seq<char>, b: Seq<char>)
    requires
        a.len() > 0,
        b.len() > 0,
    ensures
        token_order(b, a) == flip(token_order(a, b)),
{
    if is_digit_char(a[0]) && is_digit_char(b[0]) {
        lemma_digit_runs_flip(
            digit_run(a),
            digit_run(b),
        );
    }
}

proof fn lemma_token_equal(a: Seq<char>, b: Seq<char>, c: Seq<char>)
    requires
        a.len() > 0,
        b.len() > 0,
        c.len() > 0,
        token_order(a, b) == Ordering::Equal,
    ensures
        token_order(a, c) == token_order(b, c),
        is_digit_char(a[0]) == is_digit_char(b[0]),
{
    lemma_fold_keeps_digits(a[0]);
    lemma_fold_keeps_digits(b[0]);
    lemma_fold_keeps_digits(c[0]);
    if is_digit_char(a[0]) && is_digit_char(b[0]) && is_digit_char(c[0]) {
        lemma_digit_runs_equal(
            digit_run(a),
            digit_run(b),
            digit_run(c),
        );
    }
}

proof fn lemma_token_trans(a: Seq<char>, b: Seq<char>, c: Seq<char>)
    requires
        a.len() > 0,
        b.len() > 0,
        c.len() > 0,
        token_order(a, b) == Ordering::Less,
        token_order(b, c) == Ordering::Less,
    ensures
        token_order(a, c) == Ordering::Less,
{
    lemma_fold_keeps_digits(a[0]);
    lemma_fold_keeps_digits(b[0]);
    lemma_fold_keeps_digits(c[0]);
    if is_digit_char(a[0]) && is_digit_char(b[0]) && is_digit_char(c[0]) {
        lemma_digit_runs_trans(
            digit_run(a),
            digit_run(b),
            digit_run(c),
        );
    }
}

proof fn lemma_token_refl(a: Seq<char>)
    requires
        a.len() > 0,
    ensures
        token_order(a, a) == Ordering::Equal,
{
    lemma_digit_runs_refl(digit_run(a));
}

proof fn lemma_walk_flip(a: Seq<char>, b: Seq<char>)
    ensures
        natural_walk(b, a) == (match natural_walk(a, b) {
            Some(o) => Some(flip(o)),
            None => None,
        }),
    decreases a.len() + b.len(),
{
    if a.len() > 0 && b.len() > 0 {
        lemma_token_flip(a, b);
        if token_order(a, b) == Ordering::Equal {
            lemma_token_len_bounds(a);
            lemma_token_len_bounds(b);
            lemma_walk_flip(after_token(a), after_token(b));
        }
    }
}

proof fn lemma_walk_never_equal(a: Seq<char>, b: Seq<char>)
    ensures
        natural_walk(a, b) != Some(Ordering::Equal),
    decreases a.len() + b.len(),
{
    if a.len() > 0 && b.len() > 0 && token_order(a, b) == Ordering::Equal {
        lemma_token_len_bounds(a);
        lemma_token_len_bounds(b);
        lemma_walk_never_equal(after_token(a), after_token(b));
    }
}

proof fn lemma_walk_refl(a: Seq<char>)
    ensures
        natural_walk(a, a) == None::<Ordering>,
    decreases a.len(),
{
    if a.len() > 0 {
        lemma_token_refl(a);
        lemma_token_len_bounds(a);
        lemma_walk_refl(after_token(a));
    }
}

proof fn lemma_walk_tie(a: Seq<char>, b: Seq<char>, c: Seq<char>)
    requires
        natural_walk(a, b) == None::<Ordering>,
    ensures
        natural_walk(a, c) == natural_walk(b, c),
    decreases a.len() + b.len() + c.len(),
{
    if a.len() == 0 {
        assert(b.len() == 0);
        assert(a =~= b);
    } else {
        assert(b.len() > 0);
        if c.len() > 0 {
            lemma_token_equal(a, b, c);
            if token_order(a, c) == Ordering::Equal {
                lemma_token_len_bounds(a);
                lemma_token_len_bounds(b);
                lemma_token_len_bounds(c);
                lemma_walk_tie(
                    after_token(a),
                    after_token(b),
                    after_token(c),
                );
            }
        }
    }
}

proof fn lemma_walk_trans(a: Seq<char>, b: Seq<char>, c: Seq<char>)
    requires
        natural_walk(a, b) == Some(Ordering::Less),
        natural_walk(b, c) == Some(Ordering::Less),
    ensures
        natural_walk(a, c) == Some(Ordering::Less),
    decreases a.len() + b.len() + c.len(),
{
    if a.len() > 0 {
        assert(b.len() > 0 && c.len() > 0);
        let t1 = token_order(a, b);
        let t2 = token_order(b, c);
        if t1 == Ordering::Less && t2 == Ordering::Less {
            lemma_token_trans(a, b, c);
        } else if t1 == Ordering::Less {
            lemma_token_equal(b, c, a);
            lemma_token_flip(a, b);
            lemma_token_flip(a, c);
        } else if t2 == Ordering::Less {
            lemma_token_equal(a, b, c);
        } else {
            lemma_token_equal(a, b, c);
            lemma_token_len_bounds(a);
            lemma_token_len_bounds(b);
            lemma_token_len_bounds(c);
            lemma_walk_trans(
                after_token(a),
                after_token(b),
                after_token(c),
            );
        }
    }
}

// ---------------------------------------------------------------------------
// Laws of the natural order
// ---------------------------------------------------------------------------

/// Two strings compare `Equal` exactly when they are the same string, so
/// numerically equal runs ("01" and "1") and case variants ("a" and "A") are
/// still told apart.
pub proof fn law_natural_order_equal_iff_same(a: Seq<char>, b: Seq<char>)
    ensures
        (natural_order(a, b) == Ordering::Equal) <==> (a == b),
{
    lemma_walk_never_equal(a, b);
    lemma_lex_equal(a, b);
    if a == b {
        lemma_walk_refl(a);
    }
}

/// Swapping the arguments reverses the result.
pub proof fn law_natural_order_antisymmetric(a: Seq<char>, b: Seq<char>)
    ensures
        natural_order(b, a) == flip(natural_order(a, b)),
{
    lemma_walk_flip(a, b);
    lemma_lex_flip(a, b);
}

/// The order is transitive.
pub proof fn law_natural_order_transitive(a: Seq<char>, b: Seq<char>, c: Seq<char>)
    requires
        natural_order(a, b) == Ordering::Less,
        natural_order(b, c) == Ordering::Less,
    ensures
        natural_order(a, c) == Ordering::Less,
{
    lemma_walk_flip(a, b);
    lemma_walk_flip(b, c);
    lemma_walk_flip(a, c);
    match (natural_walk(a, b), natural_walk(b, c)) {
        (Some(_), Some(_)) => {
            lemma_walk_trans(a, b, c);
        },
        (Some(_), None) => {
            lemma_walk_tie(c, b, a);
        },
        (None, Some(_)) => {
            lemma_walk_tie(a, b, c);
        },
        (None, None) => {
            lemma_walk_tie(a, b, c);
            lemma_lex_trans(a, b, c);
        },
    }
}


// ---------------------------------------------------------------------------
// Executable comparison
// ---------------------------------------------------------------------------

/// The part of `s` from position `i` on.
pub open spec fn suffix(s: Seq<char>, i: usize) -> Seq<char> {
    s.skip(i as int)
}

proof fn lemma_suffix_step(s: Seq<char>, i: usize, k: usize)
    requires
        i + k <= s.len(),
        s.len() <= usize::MAX,
    ensures
        suffix(s, i).skip(k as int) == suffix(s, (i + k) as usize),
        suffix(s, i).len() == s.len() - i,
        i < s.len() ==> suffix(s, i)[0] == s[i as int],
        i < s.len() ==> suffix(s, i).drop_first() == suffix(s, (i + 1) as usize),
{
    assert(suffix(s, i).skip(k as int) =~= suffix(s, (i + k) as usize));
    if i < s.len() {
        assert(suffix(s, i).drop_first() =~= suffix(s, (i + 1) as usize));
    }
}

proof fn lemma_digit_run_exact(s: Seq<char>, n: int)
    requires
        0 <= n <= s.len(),
        forall|k: int| 0 <= k < n ==> is_digit_char(#[trigger] s[k]),
        n == s.len() || !is_digit_char(s[n]),
    ensures
        digit_run_len(s) == n,
    decreases n,
{
    if n > 0 {
        assert forall|k: int| 0 <= k < n - 1 implies is_digit_char(#[trigger] s.drop_first()[k]) by {
            assert(s.drop_first()[k] == s[k + 1]);
        }
        if n < s.len() {
            assert(s.drop_first()[n - 1] == s[n]);
        }
        lemma_digit_run_exact(s.drop_first(), n - 1);
    }
}

proof fn lemma_strip_zeros_exact(s: Seq<char>, n: int)
    requires
        0 <= n <= s.len(),
        forall|k: int| 0 <= k < n ==> #[trigger] s[k] == '0',
        n == s.len() || s[n] != '0',
    ensures
        strip_zeros(s) == s.skip(n),
    decreases n,
{
    if n > 0 {
        assert forall|k: int| 0 <= k < n - 1 implies #[trigger] s.drop_first()[k] == '0' by {
            assert(s.drop_first()[k] == s[k + 1]);
        }
        if n < s.len() {
            assert(s.drop_first()[n - 1] == s[n]);
        }
        lemma_strip_zeros_exact(s.drop_first(), n - 1);
        assert(s.drop_first().skip(n - 1) =~= s.skip(n));
    } else {
        assert(s.skip(0) =~= s);
    }
}

/// Case-folds an ASCII letter, leaving every other character unchanged
/// (the behaviour of `char::to_ascii_lowercase`).
pub fn fold_char(c: char) -> (r: char)
    ensures
        r == folded(c),
{
    if 'A' <= c && c <= 'Z' {
        ((c as u8) + 32) as char
    } else {
        c
    }
}

/// The digit run that starts at `start`: every ASCII digit from there up to
/// the first character that is not one.
pub fn take_digit_run(chars: &[char], start: usize) -> (run: Vec<char>)
    requires
        start <= chars.len(),
    ensures
        run@ == digit_run(chars@.skip(start as int)),
{
    let ghost s = chars@.skip(start as int);
    let mut run: Vec<char> = Vec::new();
    let mut k: usize = start;
    while k < chars.len() && is_ascii_digit(chars[k])
        invariant
            start <= k <= chars.len(),
            s == chars@.skip(start as int),
            run@ == s.take(k - start),
            forall|m: int| 0 <= m < k - start ==> is_digit_char(#[trigger] s[m]),
        decreases chars.len() - k,
    {
        run.push(chars[k]);
        k = k + 1;
        assert(s.take(k - start) =~= s.take(k - 1 - start).push(s[k - 1 - start]));
    }
    proof {
        lemma_digit_run_exact(s, k - start);
    }
    run
}

/// Number of leading `'0'` characters of `s`.
fn leading_zeros(s: &[char]) -> (n: usize)
    ensures
        n <= s.len(),
        strip_zeros(s@) == s@.skip(n as int),
{
    let mut n: usize = 0;
    while n < s.len() && s[n] == '0'
        invariant
            n <= s.len(),
            forall|k: int| 0 <= k < n ==> #[trigger] s@[k] == '0',
        decreases s.len() - n,
    {
        n = n + 1;
    }
    proof {
        lemma_strip_zeros_exact(s@, n as int);
    }
    n
}

/// Lexicographic order of `a` from `i` on and `b` from `j` on.
fn lex_compare_from(a: &[char], i: usize, b: &[char], j: usize) -> (r: Ordering)
    requires
        i <= a.len(),
        j <= b.len(),
    ensures
        r == lex_order(suffix(a@, i), suffix(b@, j)),
{
    let mut x = i;
    let mut y = j;
    loop
        invariant
            i <= x <= a.len(),
            j <= y <= b.len(),
            lex_order(suffix(a@, i), suffix(b@, j)) == lex_order(suffix(a@, x), suffix(b@, y)),
        decreases a.len() - x,
    {
        proof {
            lemma_suffix_step(a@, x, 0);
            lemma_suffix_step(b@, y, 0);
        }
        if x == a.len() {
            if y == b.len() {
                return Ordering::Equal;
            }
            return Ordering::Less;
        }
        if y == b.len() {
            return Ordering::Greater;
        }
        let ca = a[x];
        let cb = b[y];
        if ca < cb {
            return Ordering::Less;
        }
        if ca > cb {
            return Ordering::Greater;
        }
        x = x + 1;
        y = y + 1;
    }
}

/// Numeric comparison of two digit runs of any length, with no overflow:
/// leading zeros are stripped, then the lengths decide, then the digits.
pub fn compare_digit_runs(a: &[char], b: &[char]) -> (r: Ordering)
    ensures
        r == digit_runs_order(a@, b@),
{
    let za = leading_zeros(a);
    let zb = leading_zeros(b);
    let la = a.len() - za;
    let lb = b.len() - zb;
    if la < lb {
        Ordering::Less
    } else if la > lb {
        Ordering::Greater
    } else {
        lex_compare_from(a, za, b, zb)
    }
}

/// Compare two strings in natural (alphanumeric) order.
///
/// Ties between numerically-equal digit runs ("01" vs "1") and
/// case-insensitively-equal text fall back to a plain comparison so the
/// ordering is total and stable.
pub fn natural_cmp(a: &str, b: &str) -> (r: Ordering)
    ensures
        r == natural_order(a@, b@),
{
    let av = chars_of(a);
    let bv = chars_of(b);
    let mut i: usize = 0;
    let mut j: usize = 0;
    proof {
        assert(suffix(a@, 0) =~= a@);
        assert(suffix(b@, 0) =~= b@);
    }
    loop
        invariant
            i <= av.len(),
            j <= bv.len(),
            av@ == a@,
            bv@ == b@,
            natural_walk(a@, b@) == natural_walk(suffix(a@, i), suffix(b@, j)),
        decreases av.len() - i + bv.len() - j,
    {
        let ghost sa = suffix(a@, i);
        let ghost sb = suffix(b@, j);
        proof {
            lemma_suffix_step(a@, i, 0);
            lemma_suffix_step(b@, j, 0);
        }
        if i == av.len() && j == bv.len() {
            proof {
                assert(suffix(a@, 0) =~= a@);
                assert(suffix(b@, 0) =~= b@);
            }
            return lex_compare_from(&av, 0, &bv, 0);
        }
        if i == av.len() {
            return Ordering::Less;
        }
        if j == bv.len() {
            return Ordering::Greater;
        }
        let ca = av[i];
        let cb = bv[j];
        if is_ascii_digit(ca) && is_ascii_digit(cb) {
            let a_run = take_digit_run(&av, i);
            let b_run = take_digit_run(&bv, j);
            let ordering = compare_digit_runs(&a_run, &b_run);
            proof {
                lemma_digit_run_len_bounds(sa);
                lemma_digit_run_len_bounds(sb);
            }
            match ordering {
                Ordering::Equal => {},
                _ => {
                    return ordering;
                },
            }
            proof {
                lemma_suffix_step(a@, i, a_run.len());
                lemma_suffix_step(b@, j, b_run.len());
            }
            i = i + a_run.len();
            j = j + b_run.len();
        } else {
            let fa = fold_char(ca);
            let fb = fold_char(cb);
            proof {
                lemma_fold_keeps_digits(ca);
                lemma_fold_keeps_digits(cb);
            }
            if fa < fb {
                return Ordering::Less;
            }
            if fa > fb {
                return Ordering::Greater;
            }
            proof {
                lemma_suffix_step(a@, i, 1);
                lemma_suffix_step(b@, j, 1);
            }
            i = i + 1;
            j = j + 1;
        }
    }
}

// ---------------------------------------------------------------------------
// Sorting by the natural order
// ---------------------------------------------------------------------------

/// Whether `a` comes after `b` in natural order.
pub open spec fn natural_after(a: Seq<char>, b: Seq<char>) -> bool {
    natural_order(a, b) == Ordering::Greater
}

/// Whether `a` comes after `b` in natural order.
pub fn is_after(a: &str, b: &str) -> (r: bool)
    ensures
        r == natural_after(a@, b@),
{
    match natural_cmp(a, b) {
        Ordering::Greater => true,
        _ => false,
    }
}

/// If `x` comes before `y` and `y` not after `z`, then `x` comes before `z`
/// and is a different string.
pub proof fn lemma_before_then_not_after(x: Seq<char>, y: Seq<char>, z: Seq<char>)
    requires
        natural_after(y, x),
        !natural_after(y, z),
    ensures
        natural_after(z, x),
        !natural_after(x, z),
        x != z,
{
    law_natural_order_antisymmetric(x, y);
    law_natural_order_antisymmetric(x, z);
    law_natural_order_equal_iff_same(y, z);
    law_natural_order_equal_iff_same(x, z);
    if y != z {
        law_natural_order_transitive(x, y, z);
    }
}

/// Of two different strings, one comes after the other.
pub proof fn lemma_after_total(a: Seq<char>, b: Seq<char>)
    requires
        !natural_after(a, b),
        a != b,
    ensures
        natural_after(b, a),
{
    law_natural_order_equal_iff_same(a, b);
    law_natural_order_antisymmetric(a, b);
}

/// No string comes after itself.
pub proof fn lemma_not_after_self(y: Seq<char>)
    ensures
        !natural_after(y, y),
{
    law_natural_order_equal_iff_same(y, y);
}

} // verus!
