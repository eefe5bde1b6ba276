//! Name comparison: strict lexicographic (code-point) order for legacy style
//! editions, and natural (version-aware) order for modern ones, in which
//! embedded digit runs compare as numeric values rather than digit by digit.

use vstd::prelude::*;

verus! {

/// Result of a three-way comparison.
#[derive(Debug, Clone, Copy, PartialEq, Eq, Structural)]
pub enum ItemOrdering {
    Less,
    Equal,
    Greater,
}

/// The ordering of the swapped pair of arguments.
pub open spec fn flip_ordering(o: ItemOrdering) -> ItemOrdering {
    match o {
        ItemOrdering::Less => ItemOrdering::Greater,
        ItemOrdering::Equal => ItemOrdering::Equal,
        ItemOrdering::Greater => ItemOrdering::Less,
    }
}

pub open spec fn is_ascii_digit_char(c: char) -> bool {
    '0' <= c && c <= '9'
}

/// Strict code-point comparison of `a` from position `i` against `b` from
/// position `j`.
pub open spec fn lex_cmp_at(a: Seq<char>, b: Seq<char>, i: int, j: int) -> ItemOrdering
    decreases a.len() - i,
{
    if i >= a.len() && j >= b.len() {
        ItemOrdering::Equal
    } else if i >= a.len() {
        ItemOrdering::Less
    } else if j >= b.len() {
        ItemOrdering::Greater
    } else if a[i] < b[j] {
        ItemOrdering::Less
    } else if b[j] < a[i] {
        ItemOrdering::Greater
    } else {
        lex_cmp_at(a, b, i + 1, j + 1)
    }
}

/// Strict lexicographic (code-point) order on whole names.
pub open spec fn lex_cmp(a: Seq<char>, b: Seq<char>) -> ItemOrdering {
    lex_cmp_at(a, b, 0, 0)
}

/// End of the maximal run of ASCII digits beginning at `i`.
pub open spec fn digit_run_end(s: Seq<char>, i: int) -> int
    decreases s.len() - i,
{
    if 0 <= i && i < s.len() && is_ascii_digit_char(s[i]) {
        digit_run_end(s, i + 1)
    } else {
        i
    }
}

/// First position in `[i, e)` holding a digit other than `'0'`, or `e`.
pub open spec fn nonzero_start(s: Seq<char>, i: int, e: int) -> int
    decreases e - i,
{
    if i < e && s[i] == '0' {
        nonzero_start(s, i + 1, e)
    } else {
        i
    }
}

/// Digit-by-digit comparison of two ranges of equal length `len`.
pub open spec fn digits_cmp_at(a: Seq<char>, b: Seq<char>, i: int, j: int, len: int) -> ItemOrdering
    decreases len,
{
    if len <= 0 {
        ItemOrdering::Equal
    } else if a[i] < b[j] {
        ItemOrdering::Less
    } else if b[j] < a[i] {
        ItemOrdering::Greater
    } else {
        digits_cmp_at(a, b, i + 1, j + 1, len - 1)
    }
}

/// Numeric comparison of the digit runs `a[i..ea)` and `b[j..eb)`: leading
/// zeros do not affect a run's value; of two zero-stripped runs the shorter
/// denotes the smaller number, and equal-length stripped runs compare digit by
/// digit, which on equal lengths is exactly comparison by value. Runs of equal
/// value order by their count of leading zeros, fewer zeros first.
pub open spec fn digit_run_cmp(
    a: Seq<char>,
    i: int,
    ea: int,
    b: Seq<char>,
    j: int,
    eb: int,
) -> ItemOrdering {
    let za = nonzero_start(a, i, ea);
    let zb = nonzero_start(b, j, eb);
    if ea - za < eb - zb {
        ItemOrdering::Less
    } else if eb - zb < ea - za {
        ItemOrdering::Greater
    } else {
        let d = digits_cmp_at(a, b, za, zb, ea - za);
        if d != ItemOrdering::Equal {
            d
        } else if ea - i < eb - j {
            ItemOrdering::Less
        } else if eb - j < ea - i {
            ItemOrdering::Greater
        } else {
            ItemOrdering::Equal
        }
    }
}

/// Natural (version-aware) comparison of `a` from position `i` against `b`
/// from position `j`: maximal digit runs compare as numbers, everything else
/// compares by code point.
pub open spec fn version_cmp_at(a: Seq<char>, b: Seq<char>, i: int, j: int) -> ItemOrdering
    decreases a.len() - i,
    via version_cmp_at_decreases
{
    if i >= a.len() && j >= b.len() {
        ItemOrdering::Equal
    } else if i >= a.len() {
        ItemOrdering::Less
    } else if j >= b.len() {
        ItemOrdering::Greater
    } else if 0 <= i && 0 <= j && is_ascii_digit_char(a[i]) && is_ascii_digit_char(b[j]) {
        let ea = digit_run_end(a, i);
        let eb = digit_run_end(b, j);
        let d = digit_run_cmp(a, i, ea, b, j, eb);
        if d != ItemOrdering::Equal {
            d
        } else {
            version_cmp_at(a, b, ea, eb)
        }
    } else if a[i] < b[j] {
        ItemOrdering::Less
    } else if b[j] < a[i] {
        ItemOrdering::Greater
    } else {
        version_cmp_at(a, b, i + 1, j + 1)
    }
}

#[via_fn]
proof fn version_cmp_at_decreases(a: Seq<char>, b: Seq<char>, i: int, j: int) {
    lemma_digit_run_end_bounds(a, i);
}

/// Natural (version-aware) order on whole names.
pub open spec fn version_cmp(a: Seq<char>, b: Seq<char>) -> ItemOrdering {
    version_cmp_at(a, b, 0, 0)
}

/// The edition-conditioned name order: lexicographic at or below the legacy
/// threshold, natural above it.
pub open spec fn name_cmp(legacy: bool, a: Seq<char>, b: Seq<char>) -> ItemOrdering {
    if legacy {
        lex_cmp(a, b)
    } else {
        version_cmp(a, b)
    }
}

pub proof fn lemma_digit_run_end_bounds(s: Seq<char>, i: int)
    ensures
        i <= digit_run_end(s, i),
        i <= s.len() ==> digit_run_end(s, i) <= s.len(),
        0 <= i && i < s.len() && is_ascii_digit_char(s[i]) ==> i < digit_run_end(s, i),
        forall|k: int| i <= k < digit_run_end(s, i) ==> is_ascii_digit_char(s[k]),
        digit_run_end(s, i) < s.len() && digit_run_end(s, i) >= 0 ==> !is_ascii_digit_char(
            s[digit_run_end(s, i)],
        ),
    decreases s.len() - i,
{
    if 0 <= i && i < s.len() && is_ascii_digit_char(s[i]) {
        lemma_digit_run_end_bounds(s, i + 1);
    }
}

pub proof fn lemma_nonzero_start_bounds(s: Seq<char>, i: int, e: int)
    requires
        i <= e,
    ensures
        i <= nonzero_start(s, i, e) <= e,
        forall|k: int| i <= k < nonzero_start(s, i, e) ==> s[k] == '0',
        nonzero_start(s, i, e) < e ==> s[nonzero_start(s, i, e)] != '0',
    decreases e - i,
{
    if i < e && s[i] == '0' {
        lemma_nonzero_start_bounds(s, i + 1, e);
    }
}

proof fn lemma_digits_cmp_at_flip(a: Seq<char>, b: Seq<char>, i: int, j: int, len: int)
    ensures
        digits_cmp_at(b, a, j, i, len) == flip_ordering(digits_cmp_at(a, b, i, j, len)),
    decreases len,
{
    if len > 0 && a[i] == b[j] {
        lemma_digits_cmp_at_flip(a, b, i + 1, j + 1, len - 1);
    }
}

proof fn lemma_digits_cmp_at_refl(a: Seq<char>, i: int, len: int)
    ensures
        digits_cmp_at(a, a, i, i, len) == ItemOrdering::Equal,
    decreases len,
{
    if len > 0 {
        lemma_digits_cmp_at_refl(a, i + 1, len - 1);
    }
}

/// Exchanging the arguments of the lexicographic comparison flips its result.
pub proof fn lemma_lex_cmp_at_flip(a: Seq<char>, b: Seq<char>, i: int, j: int)
    ensures
        lex_cmp_at(b, a, j, i) == flip_ordering(lex_cmp_at(a, b, i, j)),
    decreases a.len() - i,
{
    if i < a.len() && j < b.len() && !(a[i] < b[j]) && !(b[j] < a[i]) {
        lemma_lex_cmp_at_flip(a, b, i + 1, j + 1);
    }
}

/// The lexicographic comparison is reflexive.
pub proof fn lemma_lex_cmp_at_refl(a: Seq<char>, i: int)
    ensures
        lex_cmp_at(a, a, i, i) == ItemOrdering::Equal,
    decreases a.len() - i,
{
    if i < a.len() {
        lemma_lex_cmp_at_refl(a, i + 1);
    }
}

/// Exchanging the arguments of the natural comparison flips its result.
pub proof fn lemma_version_cmp_at_flip(a: Seq<char>, b: Seq<char>, i: int, j: int)
    ensures
        version_cmp_at(b, a, j, i) == flip_ordering(version_cmp_at(a, b, i, j)),
    decreases a.len() - i,
{
    lemma_digit_run_end_bounds(a, i);
    lemma_digit_run_end_bounds(b, j);
    if i < a.len() && j < b.len() {
        if 0 <= i && 0 <= j && is_ascii_digit_char(a[i]) && is_ascii_digit_char(b[j]) {
            let ea = digit_run_end(a, i);
            let eb = digit_run_end(b, j);
            lemma_digits_cmp_at_flip(a, b, nonzero_start(a, i, ea), nonzero_start(b, j, eb),
                ea - nonzero_start(a, i, ea));
            lemma_digits_cmp_at_flip(a, b, nonzero_start(a, i, ea), nonzero_start(b, j, eb),
                eb - nonzero_start(b, j, eb));
            if digit_run_cmp(a, i, ea, b, j, eb) == ItemOrdering::Equal {
                lemma_version_cmp_at_flip(a, b, ea, eb);
            }
        } else if a[i] as u32 == b[j] as u32 {
            lemma_version_cmp_at_flip(a, b, i + 1, j + 1);
        }
    }
}

/// The natural comparison is reflexive.
pub proof fn lemma_version_cmp_at_refl(a: Seq<char>, i: int)
    ensures
        version_cmp_at(a, a, i, i) == ItemOrdering::Equal,
    decreases a.len() - i,
{
    lemma_digit_run_end_bounds(a, i);
    if i < a.len() {
        if 0 <= i && is_ascii_digit_char(a[i]) {
            let ea = digit_run_end(a, i);
            lemma_nonzero_start_bounds(a, i, ea);
            lemma_digits_cmp_at_refl(a, nonzero_start(a, i, ea), ea - nonzero_start(a, i, ea));
            lemma_version_cmp_at_refl(a, ea);
        } else {
            lemma_version_cmp_at_refl(a, i + 1);
        }
    }
}

proof fn lemma_skip_shift(a: Seq<char>, i: int, b: Seq<char>, j: int)
    requires
        0 <= i < a.len(),
        0 <= j < b.len(),
        a.skip(i) == b.skip(j),
    ensures
        a[i] == b[j],
        a.skip(i + 1) == b.skip(j + 1),
{
    assert(a.skip(i).len() == a.len() - i);
    assert(b.skip(j).len() == b.len() - j);
    assert(a.skip(i)[0] == a[i] && b.skip(j)[0] == b[j]);
    assert(a.skip(i + 1) =~= b.skip(j + 1)) by {
        assert forall|t: int| 0 <= t < a.skip(i + 1).len() implies #[trigger] a.skip(i + 1)[t]
            == b.skip(j + 1)[t] by {
            assert(a.skip(i + 1)[t] == a[i + 1 + t]);
            assert(a.skip(i)[t + 1] == a[i + 1 + t]);
            assert(b.skip(j)[t + 1] == b[j + 1 + t]);
            assert(b.skip(j + 1)[t] == b[j + 1 + t]);
        }
    }
}

proof fn lemma_skip_unshift(a: Seq<char>, i: int, b: Seq<char>, j: int)
    requires
        0 <= i < a.len(),
        0 <= j < b.len(),
        a[i] == b[j],
        a.skip(i + 1) == b.skip(j + 1),
    ensures
        a.skip(i) == b.skip(j),
{
    assert(a.skip(i + 1).len() == a.len() - i - 1);
    assert(b.skip(j + 1).len() == b.len() - j - 1);
    assert(a.skip(i) =~= b.skip(j)) by {
        assert forall|t: int| 0 <= t < a.skip(i).len() implies #[trigger] a.skip(i)[t] == b.skip(
            j,
        )[t] by {
            if t == 0 {
                assert(a.skip(i)[0] == a[i] && b.skip(j)[0] == b[j]);
            } else {
                assert(a.skip(i)[t] == a[i + t]);
                assert(a.skip(i + 1)[t - 1] == a[i + t]);
                assert(b.skip(j + 1)[t - 1] == b[j + t]);
                assert(b.skip(j)[t] == b[j + t]);
            }
        }
    }
}

/// Digit ranges of equal length compare equal exactly when they hold the
/// same characters.
proof fn lemma_digits_cmp_at_eq(a: Seq<char>, b: Seq<char>, i: int, j: int, len: int)
    ensures
        (digits_cmp_at(a, b, i, j, len) == ItemOrdering::Equal) <==> (forall|t: int|
            i <= t < i + len ==> #[trigger] a[t] == b[t - i + j]),
    decreases len,
{
    if len > 0 {
        lemma_digits_cmp_at_eq(a, b, i + 1, j + 1, len - 1);
        if a[i] == b[j] {
            if digits_cmp_at(a, b, i, j, len) == ItemOrdering::Equal {
                assert forall|t: int| i <= t < i + len implies #[trigger] a[t] == b[t - i + j] by {
                    if t > i {
                        assert(a[t] == b[t - (i + 1) + (j + 1)]);
                    }
                }
            }
            if forall|t: int| i <= t < i + len ==> #[trigger] a[t] == b[t - i + j] {
                assert forall|t: int| i + 1 <= t < i + 1 + (len - 1) implies #[trigger] a[t] == b[t
                    - (i + 1) + (j + 1)] by {
                    assert(a[t] == b[t - i + j]);
                }
            }
        } else {
            assert(!(forall|t: int| i <= t < i + len ==> #[trigger] a[t] == b[t - i + j])) by {
                assert(!(a[i] == b[i - i + j]));
            }
        }
    }
}

/// Equal character ranges have their zero prefixes at the same offset.
proof fn lemma_nonzero_align(a: Seq<char>, i: int, ea: int, b: Seq<char>, j: int, eb: int)
    requires
        i <= ea,
        j <= eb,
        ea - i == eb - j,
        forall|t: int| i <= t < ea ==> #[trigger] a[t] == b[t - i + j],
    ensures
        nonzero_start(a, i, ea) - i == nonzero_start(b, j, eb) - j,
    decreases ea - i,
{
    if i < ea {
        assert(a[i] == b[j]);
        if a[i] == '0' {
            assert(forall|t: int| i + 1 <= t < ea ==> #[trigger] a[t] == b[t - (i + 1) + (j
                + 1)]) by {
                assert(forall|t: int| i + 1 <= t < ea ==> #[trigger] a[t] == b[t - i + j]);
            }
            lemma_nonzero_align(a, i + 1, ea, b, j + 1, eb);
        }
    }
}

/// Equal character suffixes have their digit runs end at the same offset.
proof fn lemma_run_end_align(a: Seq<char>, i: int, b: Seq<char>, j: int)
    requires
        0 <= i <= a.len(),
        0 <= j <= b.len(),
        a.skip(i) == b.skip(j),
    ensures
        digit_run_end(a, i) - i == digit_run_end(b, j) - j,
    decreases a.len() - i,
{
    assert(a.skip(i).len() == a.len() - i);
    assert(b.skip(j).len() == b.len() - j);
    if i < a.len() {
        lemma_skip_shift(a, i, b, j);
        if is_ascii_digit_char(a[i]) {
            lemma_run_end_align(a, i + 1, b, j + 1);
        }
    }
}

/// Names compare equal under the natural order exactly when they are the
/// same sequence of characters.
pub proof fn lemma_version_cmp_at_eq(a: Seq<char>, b: Seq<char>, i: int, j: int)
    requires
        0 <= i <= a.len(),
        0 <= j <= b.len(),
    ensures
        (version_cmp_at(a, b, i, j) == ItemOrdering::Equal) <==> (a.skip(i) == b.skip(j)),
    decreases a.len() - i,
{
    lemma_digit_run_end_bounds(a, i);
    lemma_digit_run_end_bounds(b, j);
    assert(a.skip(i).len() == a.len() - i);
    assert(b.skip(j).len() == b.len() - j);
    if i >= a.len() && j >= b.len() {
        assert(a.skip(i) =~= b.skip(j));
    } else if i >= a.len() || j >= b.len() {
        assert(a.skip(i).len() != b.skip(j).len());
    } else if is_ascii_digit_char(a[i]) && is_ascii_digit_char(b[j]) {
        let ea = digit_run_end(a, i);
        let eb = digit_run_end(b, j);
        let za = nonzero_start(a, i, ea);
        let zb = nonzero_start(b, j, eb);
        lemma_nonzero_start_bounds(a, i, ea);
        lemma_nonzero_start_bounds(b, j, eb);
        lemma_digits_cmp_at_eq(a, b, za, zb, ea - za);
        lemma_version_cmp_at_eq(a, b, ea, eb);
        if version_cmp_at(a, b, i, j) == ItemOrdering::Equal {
            // the runs hold identical characters, and the suffixes after
            // them are equal by induction
            assert(ea - za == eb - zb && ea - i == eb - j && za - i == zb - j);
            assert(forall|t: int| za <= t < ea ==> #[trigger] a[t] == b[t - za + zb]);
            assert(a.skip(ea) == b.skip(eb));
            assert(a.skip(i) =~= b.skip(j)) by {
                assert(a.skip(ea).len() == a.len() - ea);
                assert forall|t: int| 0 <= t < a.skip(i).len() implies #[trigger] a.skip(i)[t]
                    == b.skip(j)[t] by {
                    assert(a.skip(i)[t] == a[i + t] && b.skip(j)[t] == b[j + t]);
                    if t < za - i {
                        assert(a[i + t] == '0' && b[j + t] == '0');
                    } else if t < ea - i {
                        assert(a[i + t] == b[(i + t) - za + zb]);
                    } else {
                        assert(a.skip(ea)[t - (ea - i)] == a[ea + (t - (ea - i))]);
                        assert(b.skip(eb)[t - (ea - i)] == b[eb + (t - (ea - i))]);
                    }
                }
            }
        }
        if a.skip(i) == b.skip(j) {
            lemma_run_end_align(a, i, b, j);
            assert(ea - i == eb - j);
            assert(forall|t: int| i <= t < ea ==> #[trigger] a[t] == b[t - i + j]) by {
                assert forall|t: int| i <= t < ea implies #[trigger] a[t] == b[t - i + j] by {
                    assert(a.skip(i)[t - i] == a[t] && b.skip(j)[t - i] == b[(t - i) + j]);
                }
            }
            lemma_nonzero_align(a, i, ea, b, j, eb);
            assert(za - i == zb - j);
            assert(forall|t: int| za <= t < ea ==> #[trigger] a[t] == b[t - za + zb]) by {
                assert(forall|t: int| za <= t < ea ==> #[trigger] a[t] == b[t - i + j]);
            }
            assert(digits_cmp_at(a, b, za, zb, ea - za) == ItemOrdering::Equal);
            assert(digit_run_cmp(a, i, ea, b, j, eb) == ItemOrdering::Equal);
            assert(a.skip(ea) =~= b.skip(eb)) by {
                assert forall|t: int| 0 <= t < a.skip(ea).len() implies #[trigger] a.skip(ea)[t]
                    == b.skip(eb)[t] by {
                    assert(a.skip(ea)[t] == a[ea + t] && b.skip(eb)[t] == b[eb + t]);
                    assert(a.skip(i)[t + (ea - i)] == a[ea + t]);
                    assert(b.skip(j)[t + (ea - i)] == b[eb + t]);
                }
            }
        }
    } else {
        if a[i] == b[j] {
            lemma_version_cmp_at_eq(a, b, i + 1, j + 1);
            if version_cmp_at(a, b, i, j) == ItemOrdering::Equal {
                lemma_skip_unshift(a, i, b, j);
            }
            if a.skip(i) == b.skip(j) {
                lemma_skip_shift(a, i, b, j);
            }
        } else {
            assert(a.skip(i)[0] == a[i] && b.skip(j)[0] == b[j]);
        }
    }
}

proof fn lemma_digits_cmp_at_trans(
    a: Seq<char>,
    b: Seq<char>,
    c: Seq<char>,
    i: int,
    j: int,
    k: int,
    len: int,
)
    ensures
        (digits_cmp_at(a, b, i, j, len) != ItemOrdering::Greater && digits_cmp_at(
            b,
            c,
            j,
            k,
            len,
        ) != ItemOrdering::Greater) ==> (digits_cmp_at(a, c, i, k, len) != ItemOrdering::Greater
            && ((digits_cmp_at(a, c, i, k, len) == ItemOrdering::Equal) <==> (digits_cmp_at(
            a,
            b,
            i,
            j,
            len,
        ) == ItemOrdering::Equal && digits_cmp_at(b, c, j, k, len) == ItemOrdering::Equal))),
    decreases len,
{
    if len > 0 {
        lemma_digits_cmp_at_trans(a, b, c, i + 1, j + 1, k + 1, len - 1);
    }
}

proof fn lemma_digit_run_cmp_trans(
    a: Seq<char>,
    i: int,
    ea: int,
    b: Seq<char>,
    j: int,
    eb: int,
    c: Seq<char>,
    k: int,
    ec: int,
)
    requires
        i <= ea,
        j <= eb,
        k <= ec,
    ensures
        (digit_run_cmp(a, i, ea, b, j, eb) != ItemOrdering::Greater && digit_run_cmp(
            b,
            j,
            eb,
            c,
            k,
            ec,
        ) != ItemOrdering::Greater) ==> (digit_run_cmp(a, i, ea, c, k, ec)
            != ItemOrdering::Greater && ((digit_run_cmp(a, i, ea, c, k, ec)
            == ItemOrdering::Equal) <==> (digit_run_cmp(a, i, ea, b, j, eb)
            == ItemOrdering::Equal && digit_run_cmp(b, j, eb, c, k, ec) == ItemOrdering::Equal))),
{
    lemma_nonzero_start_bounds(a, i, ea);
    lemma_nonzero_start_bounds(b, j, eb);
    lemma_nonzero_start_bounds(c, k, ec);
    let za = nonzero_start(a, i, ea);
    let zb = nonzero_start(b, j, eb);
    let zc = nonzero_start(c, k, ec);
    if ea - za == eb - zb && eb - zb == ec - zc {
        lemma_digits_cmp_at_trans(a, b, c, za, zb, zc, ea - za);
    }
}

/// The natural order is transitive on its non-strict side: two comparisons
/// that do not come out Greater compose, and the composite is Equal exactly
/// when both are.
pub proof fn lemma_version_cmp_at_trans(
    a: Seq<char>,
    b: Seq<char>,
    c: Seq<char>,
    i: int,
    j: int,
    k: int,
)
    requires
        0 <= i <= a.len(),
        0 <= j <= b.len(),
        0 <= k <= c.len(),
    ensures
        (version_cmp_at(a, b, i, j) != ItemOrdering::Greater && version_cmp_at(b, c, j, k)
            != ItemOrdering::Greater) ==> (version_cmp_at(a, c, i, k) != ItemOrdering::Greater
            && ((version_cmp_at(a, c, i, k) == ItemOrdering::Equal) <==> (version_cmp_at(
            a,
            b,
            i,
            j,
        ) == ItemOrdering::Equal && version_cmp_at(b, c, j, k) == ItemOrdering::Equal))),
    decreases a.len() - i,
{
    lemma_digit_run_end_bounds(a, i);
    lemma_digit_run_end_bounds(b, j);
    lemma_digit_run_end_bounds(c, k);
    if version_cmp_at(a, b, i, j) != ItemOrdering::Greater && version_cmp_at(b, c, j, k)
        != ItemOrdering::Greater {
        if i >= a.len() {
            // an exhausted first argument compares at most Equal to anything
            if version_cmp_at(a, c, i, k) == ItemOrdering::Equal {
                assert(k >= c.len());
                assert(j >= b.len()) by {
                    if j < b.len() {
                        assert(version_cmp_at(b, c, j, k) == ItemOrdering::Greater);
                    }
                }
            }
        } else if j >= b.len() || k >= c.len() {
            // otherwise an exhausted middle or last argument forces a
            // Greater comparison in the hypothesis
            assert(j < b.len() || version_cmp_at(a, b, i, j) == ItemOrdering::Greater);
            assert(k < c.len() || version_cmp_at(b, c, j, k) == ItemOrdering::Greater);
        } else {
            let pa = a[i];
            let pb = b[j];
            let pc = c[k];
            let da = is_ascii_digit_char(pa);
            let db = is_ascii_digit_char(pb);
            let dc = is_ascii_digit_char(pc);
            if da && db && dc {
                let ea = digit_run_end(a, i);
                let eb = digit_run_end(b, j);
                let ec = digit_run_end(c, k);
                lemma_digit_run_cmp_trans(a, i, ea, b, j, eb, c, k, ec);
                if digit_run_cmp(a, i, ea, b, j, eb) == ItemOrdering::Equal && digit_run_cmp(
                    b,
                    j,
                    eb,
                    c,
                    k,
                    ec,
                ) == ItemOrdering::Equal {
                    lemma_version_cmp_at_trans(a, b, c, ea, eb, ec);
                }
            } else if da && db && !dc {
                // the middle head is a digit, the last is not and sorts
                // above every digit
                assert(pb < pc);
                assert(pc > '9');
                assert(pa < pc);
            } else if !da && db {
                // a non-digit head below a digit sorts below every digit
                assert(pa < pb);
                assert(pa < '0');
                assert(pa < pc) by {
                    if dc {
                    } else {
                        assert(pb < pc || (pb == pc && version_cmp_at(b, c, j + 1, k + 1)
                            != ItemOrdering::Greater));
                    }
                }
            } else if da && !db {
                // a digit head below a non-digit middle puts the middle
                // above every digit
                assert(pa < pb);
                assert(pb > '9');
                if dc {
                    assert(pb < pc || pb == pc);
                    assert(pc <= '9');
                } else {
                    assert(pb < pc || (pb == pc && version_cmp_at(b, c, j + 1, k + 1)
                        != ItemOrdering::Greater));
                    assert(pa < pc);
                }
            } else {
                // no digit pair anywhere: plain code-point comparison
                assert(!da && !db);
                if pa == pb && pb == pc {
                    lemma_version_cmp_at_trans(a, b, c, i + 1, j + 1, k + 1);
                } else {
                    assert(pa < pb || pa == pb);
                    assert(pb < pc || pb == pc);
                }
            }
        }
    }
}

/// The lexicographic order is transitive on its non-strict side.
pub proof fn lemma_lex_cmp_at_trans(
    a: Seq<char>,
    b: Seq<char>,
    c: Seq<char>,
    i: int,
    j: int,
    k: int,
)
    ensures
        (lex_cmp_at(a, b, i, j) != ItemOrdering::Greater && lex_cmp_at(b, c, j, k)
            != ItemOrdering::Greater) ==> (lex_cmp_at(a, c, i, k) != ItemOrdering::Greater && ((
        lex_cmp_at(a, c, i, k) == ItemOrdering::Equal) <==> (lex_cmp_at(a, b, i, j)
            == ItemOrdering::Equal && lex_cmp_at(b, c, j, k) == ItemOrdering::Equal))),
    decreases a.len() - i,
{
    if i < a.len() && j < b.len() && k < c.len() && a[i] == b[j] && b[j] == c[k] {
        lemma_lex_cmp_at_trans(a, b, c, i + 1, j + 1, k + 1);
    }
}

/// Law: under either edition policy, two names compare Equal exactly when
/// they are the same sequence of characters.
pub proof fn lemma_name_cmp_eq(legacy: bool, a: Seq<char>, b: Seq<char>)
    ensures
        (name_cmp(legacy, a, b) == ItemOrdering::Equal) <==> a == b,
{
    lemma_lex_cmp_eq(a, b);
    lemma_version_cmp_at_eq(a, b, 0, 0);
    assert(a.skip(0) =~= a);
    assert(b.skip(0) =~= b);
}

/// Law: the edition-conditioned name order is transitive — two comparisons
/// that are Less compose to Less, and two that are Equal compose to Equal —
/// so together with `lemma_name_cmp_total` it is a strict weak ordering.
pub proof fn lemma_name_cmp_trans(legacy: bool, a: Seq<char>, b: Seq<char>, c: Seq<char>)
    ensures
        name_cmp(legacy, a, b) == ItemOrdering::Less && name_cmp(legacy, b, c)
            == ItemOrdering::Less ==> name_cmp(legacy, a, c) == ItemOrdering::Less,
        name_cmp(legacy, a, b) == ItemOrdering::Equal && name_cmp(legacy, b, c)
            == ItemOrdering::Equal ==> name_cmp(legacy, a, c) == ItemOrdering::Equal,
        (name_cmp(legacy, a, b) != ItemOrdering::Greater && name_cmp(legacy, b, c)
            != ItemOrdering::Greater) ==> (name_cmp(legacy, a, c) != ItemOrdering::Greater && ((
        name_cmp(legacy, a, c) == ItemOrdering::Equal) <==> (name_cmp(legacy, a, b)
            == ItemOrdering::Equal && name_cmp(legacy, b, c) == ItemOrdering::Equal))),
{
    lemma_lex_cmp_at_trans(a, b, c, 0, 0, 0);
    lemma_version_cmp_at_trans(a, b, c, 0, 0, 0);
}

/// The edition-conditioned order is consistent under exchange of arguments
/// and reflexive.
pub proof fn lemma_name_cmp_total(legacy: bool, a: Seq<char>, b: Seq<char>)
    ensures
        name_cmp(legacy, b, a) == flip_ordering(name_cmp(legacy, a, b)),
        name_cmp(legacy, a, a) == ItemOrdering::Equal,
{
    lemma_lex_cmp_at_flip(a, b, 0, 0);
    lemma_lex_cmp_at_refl(a, 0);
    lemma_version_cmp_at_flip(a, b, 0, 0);
    lemma_version_cmp_at_refl(a, 0);
}

proof fn lemma_lex_cmp_at_eq(a: Seq<char>, b: Seq<char>, i: int, j: int)
    requires
        0 <= i <= a.len(),
        0 <= j <= b.len(),
    ensures
        (lex_cmp_at(a, b, i, j) == ItemOrdering::Equal) <==> (a.skip(i) == b.skip(j)),
    decreases a.len() - i,
{
    if i >= a.len() && j >= b.len() {
        assert(a.skip(i) =~= b.skip(j));
    } else if i >= a.len() {
        assert(a.skip(i).len() != b.skip(j).len());
    } else if j >= b.len() {
        assert(a.skip(i).len() != b.skip(j).len());
    } else if a[i] < b[j] || b[j] < a[i] {
        assert(a.skip(i)[0] == a[i] && b.skip(j)[0] == b[j]);
        assert(a[i] != b[j]);
    } else {
        lemma_lex_cmp_at_eq(a, b, i + 1, j + 1);
        if a.skip(i + 1) == b.skip(j + 1) {
            assert(a.skip(i) =~= b.skip(j)) by {
                assert(a.skip(i).len() == b.skip(j).len());
                assert forall|k: int| 0 <= k < a.skip(i).len() implies a.skip(i)[k] == b.skip(
                    j,
                )[k] by {
                    if k == 0 {
                        assert(a.skip(i)[0] == a[i] && b.skip(j)[0] == b[j]);
                    } else {
                        assert(a.skip(i)[k] == a[i + k]);
                        assert(a.skip(i + 1)[k - 1] == a[i + k]);
                        assert(b.skip(j + 1)[k - 1] == b[j + k]);
                        assert(b.skip(j)[k] == b[j + k]);
                    }
                }
            }
        }
        if a.skip(i) == b.skip(j) {
            assert(a.skip(i + 1) =~= a.skip(i).drop_first());
            assert(b.skip(j + 1) =~= b.skip(j).drop_first());
        }
    }
}

/// Names compare equal under the lexicographic order exactly when they are
/// the same sequence of characters.
pub proof fn lemma_lex_cmp_eq(a: Seq<char>, b: Seq<char>)
    ensures
        (lex_cmp(a, b) == ItemOrdering::Equal) <==> (a == b),
{
    lemma_lex_cmp_at_eq(a, b, 0, 0);
    assert(a.skip(0) =~= a);
    assert(b.skip(0) =~= b);
}

fn digit_run_end_exec(s: &str, start: usize, len: usize) -> (e: usize)
    requires
        len == s@.len(),
        start <= len,
    ensures
        e == digit_run_end(s@, start as int),
        start <= e <= len,
{
    let mut k = start;
    loop
        invariant
            start <= k <= len,
            len == s@.len(),
            digit_run_end(s@, start as int) == digit_run_end(s@, k as int),
        decreases len - k,
    {
        if k == len {
            return k;
        }
        let c = s.get_char(k);
        if '0' <= c && c <= '9' {
            k = k + 1;
        } else {
            return k;
        }
    }
}

fn nonzero_start_exec(s: &str, start: usize, e: usize) -> (z: usize)
    requires
        start <= e <= s@.len(),
    ensures
        z == nonzero_start(s@, start as int, e as int),
        start <= z <= e,
{
    let mut k = start;
    loop
        invariant
            start <= k <= e <= s@.len(),
            nonzero_start(s@, start as int, e as int) == nonzero_start(s@, k as int, e as int),
        decreases e - k,
    {
        if k == e {
            return k;
        }
        let c = s.get_char(k);
        if c == '0' {
            k = k + 1;
        } else {
            return k;
        }
    }
}

fn digit_run_cmp_exec(a: &str, i: usize, ea: usize, b: &str, j: usize, eb: usize) -> (o:
    ItemOrdering)
    requires
        i <= ea <= a@.len(),
        j <= eb <= b@.len(),
    ensures
        o == digit_run_cmp(a@, i as int, ea as int, b@, j as int, eb as int),
{
    let za = nonzero_start_exec(a, i, ea);
    let zb = nonzero_start_exec(b, j, eb);
    if ea - za < eb - zb {
        return ItemOrdering::Less;
    }
    if eb - zb < ea - za {
        return ItemOrdering::Greater;
    }
    let len: usize = ea - za;
    let mut t: usize = 0;
    loop
        invariant
            t <= len,
            len == ea - za == eb - zb,
            i <= za <= ea <= a@.len(),
            j <= zb <= eb <= b@.len(),
            za == nonzero_start(a@, i as int, ea as int),
            zb == nonzero_start(b@, j as int, eb as int),
            digits_cmp_at(a@, b@, za as int, zb as int, len as int) == digits_cmp_at(
                a@,
                b@,
                za + t,
                zb + t,
                len - t,
            ),
        decreases len - t,
    {
        if t == len {
            if ea - i < eb - j {
                return ItemOrdering::Less;
            } else if eb - j < ea - i {
                return ItemOrdering::Greater;
            } else {
                return ItemOrdering::Equal;
            }
        }
        let ca = a.get_char(za + t);
        let cb = b.get_char(zb + t);
        if ca < cb {
            return ItemOrdering::Less;
        }
        if cb < ca {
            return ItemOrdering::Greater;
        }
        t = t + 1;
    }
}

/// Natural (version-aware) name comparison: digit runs compare as numbers,
/// so for example `"item2"` sorts before `"item10"`.
pub fn version_sort(a: &str, b: &str) -> (o: ItemOrdering)
    ensures
        o == version_cmp(a@, b@),
{
    let alen = a.unicode_len();
    let blen = b.unicode_len();
    let mut i: usize = 0;
    let mut j: usize = 0;
    loop
        invariant
            i <= alen,
            j <= blen,
            alen == a@.len(),
            blen == b@.len(),
            version_cmp(a@, b@) == version_cmp_at(a@, b@, i as int, j as int),
        decreases alen - i + blen - j,
    {
        if i == alen && j == blen {
            return ItemOrdering::Equal;
        }
        if i == alen {
            return ItemOrdering::Less;
        }
        if j == blen {
            return ItemOrdering::Greater;
        }
        let ca = a.get_char(i);
        let cb = b.get_char(j);
        if '0' <= ca && ca <= '9' && '0' <= cb && cb <= '9' {
            proof {
                lemma_digit_run_end_bounds(a@, i as int);
                lemma_digit_run_end_bounds(b@, j as int);
            }
            let ea = digit_run_end_exec(a, i, alen);
            let eb = digit_run_end_exec(b, j, blen);
            let d = digit_run_cmp_exec(a, i, ea, b, j, eb);
            if d != ItemOrdering::Equal {
                return d;
            }
            i = ea;
            j = eb;
        } else if ca < cb {
            return ItemOrdering::Less;
        } else if cb < ca {
            return ItemOrdering::Greater;
        } else {
            i = i + 1;
            j = j + 1;
        }
    }
}

/// Strict lexicographic (code-point) name comparison, used at or below the
/// legacy style edition threshold.
pub fn lexicographic_cmp(a: &str, b: &str) -> (o: ItemOrdering)
    ensures
        o == lex_cmp(a@, b@),
{
    let alen = a.unicode_len();
    let blen = b.unicode_len();
    let mut i: usize = 0;
    loop
        invariant
            i <= alen,
            i <= blen,
            alen == a@.len(),
            blen == b@.len(),
            lex_cmp(a@, b@) == lex_cmp_at(a@, b@, i as int, i as int),
        decreases alen - i,
    {
        if i == alen && i == blen {
            return ItemOrdering::Equal;
        }
        if i == alen {
            return ItemOrdering::Less;
        }
        if i == blen {
            return ItemOrdering::Greater;
        }
        let ca = a.get_char(i);
        let cb = b.get_char(i);
        if ca < cb {
            return ItemOrdering::Less;
        }
        if cb < ca {
            return ItemOrdering::Greater;
        }
        i = i + 1;
    }
}

/// The edition-conditioned name comparison of the ordering comparator.
pub fn compare_names(legacy: bool, a: &str, b: &str) -> (o: ItemOrdering)
    ensures
        o == name_cmp(legacy, a@, b@),
{
    if legacy {
        lexicographic_cmp(a, b)
    } else {
        version_sort(a, b)
    }
}

} // verus!
