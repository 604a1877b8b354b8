//! Character- and sequence-level notions shared by the ranking and search
//! code: ASCII case folding, case-insensitive subsequence embedding,
//! lexicographic order on character sequences, and substring search,
//! together with their executable counterparts.

use vstd::prelude::*;

verus! {

/// An ASCII capital letter.
pub open spec fn is_ascii_upper(c: char) -> bool {
    'A' <= c && c <= 'Z'
}

/// `low` is `c` with an ASCII capital folded to its small form and any
/// other character kept as it is.
pub open spec fn folds_to(c: char, low: char) -> bool {
    if is_ascii_upper(c) {
        low as int == c as int + 32
    } else {
        low == c
    }
}

/// `low` is `s` folded character by character.
pub open spec fn folding_of(s: Seq<char>, low: Seq<char>) -> bool {
    low.len() == s.len() && forall|i: int| 0 <= i < s.len() ==> folds_to(s[i], #[trigger] low[i])
}

/// Equality of characters up to ASCII case.
pub open spec fn ci_char_eq(a: char, b: char) -> bool {
    a == b || (is_ascii_upper(a) && b as int == a as int + 32) || (is_ascii_upper(b) && a as int
        == b as int + 32)
}

/// The characters of `pattern` appear in `choice` in order (not necessarily
/// contiguously), compared up to ASCII case.
pub open spec fn ci_subseq(pattern: Seq<char>, choice: Seq<char>) -> bool
    decreases choice.len(),
{
    if pattern.len() == 0 {
        true
    } else if choice.len() == 0 {
        false
    } else if ci_char_eq(pattern[0], choice[0]) {
        ci_subseq(pattern.drop_first(), choice.drop_first()) || ci_subseq(
            pattern,
            choice.drop_first(),
        )
    } else {
        ci_subseq(pattern, choice.drop_first())
    }
}

/// The sequence holds at least one ASCII capital.
pub open spec fn has_ascii_upper(s: Seq<char>) -> bool {
    exists|i: int| 0 <= i < s.len() && is_ascii_upper(#[trigger] s[i])
}

/// The characters of `pattern` appear in `choice` in order, compared
/// exactly.
pub open spec fn eq_subseq(pattern: Seq<char>, choice: Seq<char>) -> bool
    decreases choice.len(),
{
    if pattern.len() == 0 {
        true
    } else if choice.len() == 0 {
        false
    } else if pattern[0] == choice[0] {
        eq_subseq(pattern.drop_first(), choice.drop_first()) || eq_subseq(
            pattern,
            choice.drop_first(),
        )
    } else {
        eq_subseq(pattern, choice.drop_first())
    }
}

/// The embedding the skim matcher's smart case decides on: exact when the
/// pattern holds an ASCII capital, up to ASCII case otherwise.
pub open spec fn smart_subseq(pattern: Seq<char>, choice: Seq<char>) -> bool {
    if has_ascii_upper(pattern) {
        eq_subseq(pattern, choice)
    } else {
        ci_subseq(pattern, choice)
    }
}

/// An exact embedding is in particular one up to ASCII case.
pub proof fn lemma_eq_subseq_implies_ci(pattern: Seq<char>, choice: Seq<char>)
    requires
        eq_subseq(pattern, choice),
    ensures
        ci_subseq(pattern, choice),
    decreases choice.len(),
{
    if pattern.len() == 0 {
    } else if choice.len() == 0 {
    } else if pattern[0] == choice[0] {
        if eq_subseq(pattern.drop_first(), choice.drop_first()) {
            lemma_eq_subseq_implies_ci(pattern.drop_first(), choice.drop_first());
        } else {
            lemma_eq_subseq_implies_ci(pattern, choice.drop_first());
        }
    } else {
        lemma_eq_subseq_implies_ci(pattern, choice.drop_first());
    }
}

/// A smart-case embedding is in particular one up to ASCII case.
pub proof fn lemma_smart_subseq_implies_ci(pattern: Seq<char>, choice: Seq<char>)
    requires
        smart_subseq(pattern, choice),
    ensures
        ci_subseq(pattern, choice),
{
    if has_ascii_upper(pattern) {
        lemma_eq_subseq_implies_ci(pattern, choice);
    }
}

/// Case-insensitive equality is preserved when both sides are folded.
proof fn lemma_ci_char_eq_fold(a: char, b: char, fa: char, fb: char)
    requires
        folds_to(a, fa),
        folds_to(b, fb),
        ci_char_eq(fa, fb),
    ensures
        ci_char_eq(a, b),
{
}

/// A case-insensitive embedding of the folded strings is one of the
/// originals as well.
pub proof fn lemma_ci_subseq_unfold(
    pattern: Seq<char>,
    choice: Seq<char>,
    fpattern: Seq<char>,
    fchoice: Seq<char>,
)
    requires
        folding_of(pattern, fpattern),
        folding_of(choice, fchoice),
        ci_subseq(fpattern, fchoice),
    ensures
        ci_subseq(pattern, choice),
    decreases choice.len(),
{
    if fpattern.len() == 0 {
    } else if fchoice.len() == 0 {
    } else {
        assert(folding_of(pattern.drop_first(), fpattern.drop_first()));
        assert(folding_of(choice.drop_first(), fchoice.drop_first()));
        if ci_char_eq(fpattern[0], fchoice[0]) {
            lemma_ci_char_eq_fold(pattern[0], choice[0], fpattern[0], fchoice[0]);
            if ci_subseq(fpattern.drop_first(), fchoice.drop_first()) {
                lemma_ci_subseq_unfold(
                    pattern.drop_first(),
                    choice.drop_first(),
                    fpattern.drop_first(),
                    fchoice.drop_first(),
                );
            } else {
                lemma_ci_subseq_unfold(
                    pattern,
                    choice.drop_first(),
                    fpattern,
                    fchoice.drop_first(),
                );
            }
        } else {
            lemma_ci_subseq_unfold(pattern, choice.drop_first(), fpattern, fchoice.drop_first());
        }
    }
}

/// Lexicographic order on character sequences by Unicode scalar value; on
/// ASCII strings this coincides with the byte order of the encoded string.
pub open spec fn lex_le(a: Seq<char>, b: Seq<char>) -> bool
    decreases a.len(),
{
    if a.len() == 0 {
        true
    } else if b.len() == 0 {
        false
    } else if a[0] != b[0] {
        (a[0] as int) < (b[0] as int)
    } else {
        lex_le(a.drop_first(), b.drop_first())
    }
}

/// Any two character sequences are comparable.
pub proof fn lemma_lex_le_total(a: Seq<char>, b: Seq<char>)
    ensures
        lex_le(a, b) || lex_le(b, a),
    decreases a.len(),
{
    if a.len() == 0 {
    } else if b.len() == 0 {
    } else if a[0] == b[0] {
        lemma_lex_le_total(a.drop_first(), b.drop_first());
    }
}

/// Lexicographic order is transitive.
pub proof fn lemma_lex_le_trans(a: Seq<char>, b: Seq<char>, c: Seq<char>)
    requires
        lex_le(a, b),
        lex_le(b, c),
    ensures
        lex_le(a, c),
    decreases a.len(),
{
    if a.len() == 0 {
    } else if b.len() == 0 {
    } else if c.len() == 0 {
    } else if a[0] == b[0] && b[0] == c[0] {
        lemma_lex_le_trans(a.drop_first(), b.drop_first(), c.drop_first());
    }
}

/// Decides `lex_le` on two string slices, character by character.
pub fn str_lex_le(a: &str, b: &str) -> (r: bool)
    ensures
        r == lex_le(a@, b@),
{
    let a_len = a.unicode_len();
    let b_len = b.unicode_len();
    let mut i: usize = 0;
    proof {
        assert(a@.skip(0) =~= a@);
        assert(b@.skip(0) =~= b@);
    }
    loop
        invariant
            i <= a_len,
            i <= b_len,
            a_len == a@.len(),
            b_len == b@.len(),
            lex_le(a@, b@) == lex_le(a@.skip(i as int), b@.skip(i as int)),
        decreases a_len - i,
    {
        if i == a_len {
            return true;
        }
        if i == b_len {
            return false;
        }
        let ca = a.get_char(i);
        let cb = b.get_char(i);
        if ca != cb {
            return (ca as u32) < (cb as u32);
        }
        proof {
            assert(a@.skip(i as int).drop_first() =~= a@.skip(i as int + 1));
            assert(b@.skip(i as int).drop_first() =~= b@.skip(i as int + 1));
        }
        i = i + 1;
    }
}

/// `needle` occurs contiguously somewhere in `hay`.
pub open spec fn has_substring(hay: Seq<char>, needle: Seq<char>) -> bool {
    exists|k: int|
        0 <= k && k + needle.len() <= hay.len() && #[trigger] hay.subrange(k, k + needle.len())
            == needle
}

/// Whether `needle` occurs at position `k` of `hay`.
fn matches_at(hay: &str, needle: &str, k: usize) -> (r: bool)
    requires
        k + needle@.len() <= hay@.len(),
        hay@.len() <= usize::MAX,
    ensures
        r == (hay@.subrange(k as int, k as int + needle@.len() as int) == needle@),
{
    let m = needle.unicode_len();
    let mut j: usize = 0;
    while j < m
        invariant
            j <= m,
            m == needle@.len(),
            k + m <= hay@.len(),
            hay@.len() <= usize::MAX,
            forall|x: int| 0 <= x < j ==> hay@[k + x] == needle@[x],
        decreases m - j,
    {
        if hay.get_char(k + j) != needle.get_char(j) {
            proof {
                let sub = hay@.subrange(k as int, k as int + needle@.len() as int);
                assert(sub[j as int] == hay@[k + j]);
            }
            return false;
        }
        j = j + 1;
    }
    proof {
        let sub = hay@.subrange(k as int, k as int + needle@.len() as int);
        assert forall|x: int| 0 <= x < m implies sub[x] == needle@[x] by {
            assert(sub[x] == hay@[k + x]);
        }
        assert(sub =~= needle@);
    }
    true
}

/// Substring search: decides `has_substring` by trying every position.
pub fn str_has_substring(hay: &str, needle: &str) -> (r: bool)
    ensures
        r == has_substring(hay@, needle@),
{
    let n = hay.unicode_len();
    let m = needle.unicode_len();
    if m > n {
        return false;
    }
    if m == 0 {
        proof {
            assert(hay@.subrange(0, 0 + needle@.len() as int) =~= needle@);
        }
        return true;
    }
    let mut k: usize = 0;
    while k <= n - m
        invariant
            1 <= m <= n,
            n == hay@.len(),
            m == needle@.len(),
            k <= n - m + 1,
            forall|k2: int|
                0 <= k2 < k ==> #[trigger] hay@.subrange(k2, k2 + needle@.len()) != needle@,
        decreases n - k,
    {
        if matches_at(hay, needle, k) {
            return true;
        }
        k = k + 1;
    }
    false
}

} // verus!
