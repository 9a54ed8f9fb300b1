//! Deterministic gates. Every model output passes one of these before it is
//! allowed to touch anything, and self-reported confidence is ignored.
use vstd::prelude::*;

use crate::text::{
    ascii_lower, char_ascii_lower, chars_of, is_ascii_letter, same, split_whitespace, views, words,
};

verus! {

// ---------------------------------------------------------------------------
// What a word sounds like
// ---------------------------------------------------------------------------
pub open spec fn is_vowel(c: char) -> bool {
    c == 'a' || c == 'e' || c == 'i' || c == 'o' || c == 'u'
}

/// The ASCII letters of a text, in lower case.
pub open spec fn letters_of(s: Seq<char>) -> Seq<char>
    decreases s.len(),
{
    if s.len() == 0 {
        Seq::empty()
    } else if is_ascii_letter(s.last()) {
        letters_of(s.drop_last()).push(ascii_lower(s.last()))
    } else {
        letters_of(s.drop_last())
    }
}

/// The consonants of a text, in lower case.
pub open spec fn consonants_of(s: Seq<char>) -> Seq<char>
    decreases s.len(),
{
    if s.len() == 0 {
        Seq::empty()
    } else if is_ascii_letter(s.last()) && !is_vowel(ascii_lower(s.last())) {
        consonants_of(s.drop_last()).push(ascii_lower(s.last()))
    } else {
        consonants_of(s.drop_last())
    }
}

/// Consonant skeleton: lower case, letters only, vowels dropped.
pub fn skeleton(s: &str) -> (r: String)
    ensures
        r@ == consonants_of(s@),
{
    let v = chars_of(s);
    let mut r = String::new();
    let mut i: usize = 0;
    while i < v.len()
        invariant
            i <= v@.len(),
            r@ == consonants_of(v@.take(i as int)),
        decreases v@.len() - i,
    {
        assert(v@.take(i + 1).drop_last() =~= v@.take(i as int));
        let c: char = v[i];
        if ('a' <= c && c <= 'z') || ('A' <= c && c <= 'Z') {
            let l: char = char_ascii_lower(c);
            if !(l == 'a' || l == 'e' || l == 'i' || l == 'o' || l == 'u') {
                r.push(l);
            }
        }
        i += 1;
    }
    assert(v@.take(i as int) =~= v@);
    r
}

/// The letters of a text, in lower case.
pub fn letters(s: &str) -> (r: String)
    ensures
        r@ == letters_of(s@),
{
    let v = chars_of(s);
    let mut r = String::new();
    let mut i: usize = 0;
    while i < v.len()
        invariant
            i <= v@.len(),
            r@ == letters_of(v@.take(i as int)),
        decreases v@.len() - i,
    {
        assert(v@.take(i + 1).drop_last() =~= v@.take(i as int));
        let c: char = v[i];
        if ('a' <= c && c <= 'z') || ('A' <= c && c <= 'Z') {
            r.push(char_ascii_lower(c));
        }
        i += 1;
    }
    assert(v@.take(i as int) =~= v@);
    r
}

// ---------------------------------------------------------------------------
// Edit distance
// ---------------------------------------------------------------------------
pub open spec fn min2(a: int, b: int) -> int {
    if a < b {
        a
    } else {
        b
    }
}

pub open spec fn max2(a: int, b: int) -> int {
    if a > b {
        a
    } else {
        b
    }
}

/// The least number of insertions, deletions and substitutions that turn the
/// first `i` characters of `a` into the first `j` of `b`.
pub open spec fn distance(a: Seq<char>, b: Seq<char>, i: int, j: int) -> int
    decreases i + j,
{
    if i <= 0 {
        max2(j, 0)
    } else if j <= 0 {
        i
    } else {
        min2(
            min2(distance(a, b, i - 1, j) + 1, distance(a, b, i, j - 1) + 1),
            distance(a, b, i - 1, j - 1) + (if a[i - 1] == b[j - 1] {
                0int
            } else {
                1
            }),
        )
    }
}

/// How alike two texts are, in millionths, rounded down: one less the share of
/// the longer text that has to be edited.
pub open spec fn similarity(a: Seq<char>, b: Seq<char>) -> int {
    let longest = max2(a.len() as int, b.len() as int);
    if longest == 0 {
        1_000_000
    } else {
        (longest - distance(a, b, a.len() as int, b.len() as int)) * 1_000_000 / longest
    }
}

/// The distance is never negative and never more than the longer text.
proof fn lemma_distance_bounds(a: Seq<char>, b: Seq<char>, i: int, j: int)
    requires
        0 <= i,
        0 <= j,
    ensures
        0 <= distance(a, b, i, j) <= max2(i, j),
    decreases i + j,
{
    if i > 0 && j > 0 {
        lemma_distance_bounds(a, b, i - 1, j);
        lemma_distance_bounds(a, b, i, j - 1);
        lemma_distance_bounds(a, b, i - 1, j - 1);
    }
}

proof fn lemma_distance_symmetric(a: Seq<char>, b: Seq<char>, i: int, j: int)
    requires
        0 <= i,
        0 <= j,
    ensures
        distance(a, b, i, j) == distance(b, a, j, i),
    decreases i + j,
{
    if i > 0 && j > 0 {
        lemma_distance_symmetric(a, b, i - 1, j);
        lemma_distance_symmetric(a, b, i, j - 1);
        lemma_distance_symmetric(a, b, i - 1, j - 1);
    }
}

proof fn lemma_distance_self(a: Seq<char>, i: int)
    requires
        0 <= i <= a.len(),
    ensures
        distance(a, a, i, i) == 0,
    decreases i,
{
    if i > 0 {
        lemma_distance_self(a, i - 1);
        lemma_distance_bounds(a, a, i - 1, i);
        lemma_distance_bounds(a, a, i, i - 1);
    }
}

/// Similarity lies between nothing and one, does not depend on which text
/// comes first, and is one between a text and itself.
pub proof fn law_similarity(a: Seq<char>, b: Seq<char>)
    ensures
        0 <= similarity(a, b) <= 1_000_000,
        similarity(a, b) == similarity(b, a),
        similarity(a, a) == 1_000_000,
{
    let n = a.len() as int;
    let m = b.len() as int;
    lemma_distance_bounds(a, b, n, m);
    lemma_distance_symmetric(a, b, n, m);
    lemma_distance_self(a, n);
    let longest = max2(n, m);
    if longest > 0 {
        let d = distance(a, b, n, m);
        assert(0 <= (longest - d) * 1_000_000 / longest <= 1_000_000) by (nonlinear_arith)
            requires
                0 <= d <= longest,
                longest > 0,
        ;
    }
    if n > 0 {
        assert(n * 1_000_000 / n == 1_000_000) by (nonlinear_arith)
            requires
                n > 0,
        ;
    }
}

/// Levenshtein similarity, in millionths.
pub fn sim(a: &str, b: &str) -> (s: i64)
    ensures
        s == similarity(a@, b@),
        0 <= s <= 1_000_000,
{
    let x = chars_of(a);
    let y = chars_of(b);
    let n: usize = x.len();
    let m: usize = y.len();
    proof {
        law_similarity(a@, b@);
        lemma_distance_bounds(a@, b@, n as int, m as int);
    }
    if n == 0 && m == 0 {
        return 1_000_000;
    }
    let mut prev: Vec<u128> = Vec::new();
    prev.push(0);
    let mut j: usize = 0;
    while j < m
        invariant
            j <= m,
            prev@.len() == j + 1,
            forall|q: int| 0 <= q <= j ==> #[trigger] prev@[q] == distance(a@, b@, 0, q),
        decreases m - j,
    {
        prev.push(j as u128 + 1);
        j += 1;
    }
    let mut i: usize = 0;
    while i < n
        invariant
            i <= n,
            n == x@.len(),
            m == y@.len(),
            x@ == a@,
            y@ == b@,
            prev@.len() == m + 1,
            forall|q: int| 0 <= q <= m ==> #[trigger] prev@[q] == distance(a@, b@, i as int, q),
        decreases n - i,
    {
        let mut cur: Vec<u128> = Vec::new();
        cur.push(i as u128 + 1);
        let mut k: usize = 0;
        while k < m
            invariant
                i < n,
                k <= m,
                n == x@.len(),
                m == y@.len(),
                x@ == a@,
                y@ == b@,
                prev@.len() == m + 1,
                forall|q: int|
                    0 <= q <= m ==> #[trigger] prev@[q] == distance(a@, b@, i as int, q),
                cur@.len() == k + 1,
                forall|q: int|
                    0 <= q <= k ==> #[trigger] cur@[q] == distance(a@, b@, i + 1, q),
            decreases m - k,
        {
            proof {
                lemma_distance_bounds(a@, b@, i as int, k + 1);
                lemma_distance_bounds(a@, b@, i as int, k as int);
                lemma_distance_bounds(a@, b@, i + 1, k as int);
            }
            let cost: u128 = if x[i] == y[k] {
                0
            } else {
                1
            };
            let up: u128 = prev[k + 1] + 1;
            let left: u128 = cur[k] + 1;
            let diag: u128 = prev[k] + cost;
            let best: u128 = if up < left {
                up
            } else {
                left
            };
            let best: u128 = if best < diag {
                best
            } else {
                diag
            };
            assert(best == distance(a@, b@, i + 1, k + 1));
            cur.push(best);
            k += 1;
        }
        prev = cur;
        i += 1;
    }
    let dist: u128 = prev[m];
    let longest: u128 = if n > m {
        n as u128
    } else {
        m as u128
    };
    ((longest - dist) * 1_000_000 / longest) as i64
}

/// How alike two words sound, in millionths: the lesser of direct and
/// consonant-skeleton similarity.
pub open spec fn sounds_like(a: Seq<char>, b: Seq<char>) -> int {
    min2(
        similarity(letters_of(a), letters_of(b)),
        similarity(consonants_of(a), consonants_of(b)),
    )
}

/// The lesser of direct and consonant-skeleton similarity, not the greater:
/// the greater lets words through that only share a consonant or two.
///
/// ```text
/// division   -> duration     accept
/// blockboard -> block        accept
/// division   -> schedules    reject
/// 2020       -> BrainClean   reject
/// PowerPoint -> BrainClean   reject   (right answer, phonetically distant)
/// ```
pub fn phonetic_sim(a: &str, b: &str) -> (s: i64)
    ensures
        s == sounds_like(a@, b@),
        0 <= s <= 1_000_000,
{
    let direct: i64 = sim(letters(a).as_str(), letters(b).as_str());
    let skel: i64 = sim(skeleton(a).as_str(), skeleton(b).as_str());
    if direct < skel {
        direct
    } else {
        skel
    }
}

/// A substituted word must sound at least this much like what was heard.
pub const PHONETIC_MIN: i64 = 400_000;

/// The lists differ at index `i` and nowhere else.
pub open spec fn only_difference(a: Seq<Seq<char>>, b: Seq<Seq<char>>, i: int) -> bool {
    &&& a.len() == b.len()
    &&& 0 <= i < a.len()
    &&& a[i] != b[i]
    &&& forall|j: int| 0 <= j < a.len() && j != i ==> #[trigger] a[j] == b[j]
}

/// The words of `p` are those of `h` with one of them, the `i`-th, replaced by
/// a word that sounds like it.
pub open spec fn is_correction(h: Seq<char>, p: Seq<char>, i: int) -> bool {
    &&& only_difference(words(h), words(p), i)
    &&& sounds_like(words(h)[i], words(p)[i]) >= PHONETIC_MIN
}

/// A caption may stay as heard; any change must replace one word by one that
/// sounds like it.
pub open spec fn may_replace(heard: Seq<char>, proposed: Seq<char>) -> bool {
    heard == proposed || exists|i: int| #[trigger] is_correction(heard, proposed, i)
}

/// A caption fix is allowed only if it changes one word and that word is
/// phonetically close to what was heard. Keep-as-heard is always allowed.
pub fn caption_fix_allowed(heard: &str, proposed: &str) -> (b: bool)
    ensures
        b == may_replace(heard@, proposed@),
{
    if same(heard, proposed) {
        return true;
    }
    let h = split_whitespace(heard);
    let p = split_whitespace(proposed);
    let ghost hv = words(heard@);
    let ghost pv = words(proposed@);
    if h.len() != p.len() {
        assert forall|i: int| !is_correction(heard@, proposed@, i) by {
            assert(hv.len() != pv.len());
        }
        return false;
    }
    let mut found: Option<usize> = None;
    let mut i: usize = 0;
    while i < h.len()
        invariant
            i <= h@.len(),
            h@.len() == p@.len(),
            views(h@) == hv,
            views(p@) == pv,
            hv == words(heard@),
            pv == words(proposed@),
            heard@ != proposed@,
            match found {
                Some(k) => k < i && hv[k as int] != pv[k as int] && (forall|j: int|
                    0 <= j < i && j != k ==> #[trigger] hv[j] == pv[j]),
                None => forall|j: int| 0 <= j < i ==> #[trigger] hv[j] == pv[j],
            },
        decreases h@.len() - i,
    {
        assert(hv[i as int] == h@[i as int]@);
        assert(pv[i as int] == p@[i as int]@);
        if !same(h[i].as_str(), p[i].as_str()) {
            match found {
                Some(k) => {
                    assert forall|q: int| !is_correction(heard@, proposed@, q) by {
                        if only_difference(hv, pv, q) {
                            if q != k {
                                assert(hv[k as int] == pv[k as int]);
                            } else {
                                assert(hv[i as int] == pv[i as int]);
                            }
                        }
                    }
                    return false;
                },
                None => {
                    found = Some(i);
                },
            }
        }
        i += 1;
    }
    match found {
        None => {
            assert forall|q: int| !is_correction(heard@, proposed@, q) by {
                if only_difference(hv, pv, q) {
                    assert(hv[q] == pv[q]);
                }
            }
            false
        },
        Some(k) => {
            assert(hv[k as int] == h@[k as int]@);
            assert(pv[k as int] == p@[k as int]@);
            assert(only_difference(hv, pv, k as int));
            let ok = phonetic_sim(h[k].as_str(), p[k].as_str()) >= PHONETIC_MIN;
            assert(ok ==> is_correction(heard@, proposed@, k as int));
            assert forall|q: int| is_correction(heard@, proposed@, q) implies ok by {
                if q != k {
                    assert(hv[k as int] == pv[k as int]);
                }
            }
            ok
        },
    }
}

/// A fix never adds, drops or moves a word.
pub proof fn law_fixes_keep_the_word_count(heard: Seq<char>, proposed: Seq<char>)
    requires
        may_replace(heard, proposed),
    ensures
        words(heard).len() == words(proposed).len(),
{
}

// ---------------------------------------------------------------------------
// Laws
// ---------------------------------------------------------------------------
/// At how many of the first `n` places two texts differ.
pub open spec fn differing(a: Seq<char>, b: Seq<char>, n: int) -> int
    decreases n,
{
    if n <= 0 {
        0
    } else {
        differing(a, b, n - 1) + (if a[n - 1] != b[n - 1] {
            1int
        } else {
            0
        })
    }
}

/// Replacing a character costs one: two texts of a length are no further apart
/// than the places at which they differ.
pub proof fn law_a_replaced_character_costs_one(a: Seq<char>, b: Seq<char>, n: int)
    requires
        0 <= n,
    ensures
        distance(a, b, n, n) <= differing(a, b, n),
    decreases n,
{
    if n > 0 {
        law_a_replaced_character_costs_one(a, b, n - 1);
    }
}

/// Adding or dropping a character costs one: one more on either side takes the
/// texts no more than one apart.
pub proof fn law_a_dropped_character_costs_one(a: Seq<char>, b: Seq<char>, i: int, j: int)
    requires
        0 <= i,
        0 <= j,
    ensures
        distance(a, b, i + 1, j) <= distance(a, b, i, j) + 1,
        distance(a, b, i, j + 1) <= distance(a, b, i, j) + 1,
{
    if i == 0 && j == 0 {
        assert(distance(a, b, 1, 0) == 1 && distance(a, b, 0, 1) == 1);
    }
}

/// Texts are at least as far apart as their lengths are, and only equal texts
/// are not apart at all.
pub proof fn law_only_equal_texts_are_not_apart(a: Seq<char>, b: Seq<char>, i: int, j: int)
    requires
        0 <= i <= a.len(),
        0 <= j <= b.len(),
    ensures
        distance(a, b, i, j) >= i - j,
        distance(a, b, i, j) >= j - i,
        distance(a, b, i, j) == 0 <==> a.take(i) == b.take(j),
    decreases i + j,
{
    lemma_distance_bounds(a, b, i, j);
    if i > 0 && j > 0 {
        law_only_equal_texts_are_not_apart(a, b, i - 1, j);
        law_only_equal_texts_are_not_apart(a, b, i, j - 1);
        law_only_equal_texts_are_not_apart(a, b, i - 1, j - 1);
        let (x, y) = (a.take(i), b.take(j));
        assert(x.drop_last() =~= a.take(i - 1));
        assert(y.drop_last() =~= b.take(j - 1));
        if distance(a, b, i, j) == 0 {
            lemma_distance_bounds(a, b, i - 1, j);
            lemma_distance_bounds(a, b, i, j - 1);
            lemma_distance_bounds(a, b, i - 1, j - 1);
            assert(x =~= y) by {
                assert(a.take(i - 1) == b.take(j - 1));
                assert forall|k: int| 0 <= k < i implies x[k] == y[k] by {
                    if k < i - 1 {
                        assert(x[k] == a.take(i - 1)[k]);
                        assert(y[k] == b.take(j - 1)[k]);
                    }
                }
            }
        }
        if x == y {
            assert(x.len() == y.len());
            assert(x[i - 1] == y[j - 1]);
            assert(a.take(i - 1) == b.take(j - 1));
        }
    } else {
        if a.take(i) == b.take(j) {
            assert(a.take(i).len() == b.take(j).len());
        }
        if distance(a, b, i, j) == 0 {
            assert(a.take(i) =~= b.take(j));
        }
    }
}

/// How alike two texts are is what is left of the longer one once the edits are
/// taken off, in millionths of it, rounded down.
pub proof fn law_similarity_is_what_no_edit_touches(a: Seq<char>, b: Seq<char>, longest: int)
    requires
        longest > 0,
        a.len() <= longest,
        b.len() <= longest,
        longest == a.len() || longest == b.len(),
    ensures
        ({
            let kept = longest - distance(a, b, a.len() as int, b.len() as int);
            longest * similarity(a, b) <= 1_000_000 * kept < longest * similarity(a, b) + longest
        }),
{
    let kept = longest - distance(a, b, a.len() as int, b.len() as int);
    crate::plan::lemma_quotient(kept * 1_000_000, longest, similarity(a, b));
}

/// The letters of a text come in order and in lower case, and its consonants are
/// those of them that are no vowels.
pub proof fn law_the_skeleton_is_the_consonants(s: Seq<char>)
    ensures
        consonants_of(s) == letters_of(s).filter(
            |c: char| !(c == 'a' || c == 'e' || c == 'i' || c == 'o' || c == 'u'),
        ),
        forall|k: int| 0 <= k < letters_of(s).len() ==> 'a' <= #[trigger] letters_of(s)[k] <= 'z',
    decreases s.len(),
{
    let p = |c: char| !(c == 'a' || c == 'e' || c == 'i' || c == 'o' || c == 'u');
    reveal(Seq::filter);
    if s.len() > 0 {
        law_the_skeleton_is_the_consonants(s.drop_last());
        let l = letters_of(s);
        if is_ascii_letter(s.last()) {
            assert(l.drop_last() =~= letters_of(s.drop_last()));
        }
    } else {
        assert(letters_of(s).filter(p) =~= Seq::empty());
    }
}

/// Two words sound no more alike than their letters, and no more alike than
/// their consonants.
pub proof fn law_both_ways_of_listening_count(a: Seq<char>, b: Seq<char>)
    ensures
        sounds_like(a, b) <= similarity(letters_of(a), letters_of(b)),
        sounds_like(a, b) <= similarity(consonants_of(a), consonants_of(b)),
        sounds_like(a, b) == similarity(letters_of(a), letters_of(b)) || sounds_like(a, b)
            == similarity(consonants_of(a), consonants_of(b)),
{
}

/// A caption is changed only where one word, and no other, gives way to one
/// that sounds at least 0.4 like it.
pub proof fn law_a_fix_changes_one_word_that_sounds_alike(
    heard: Seq<char>,
    proposed: Seq<char>,
    i: int,
)
    requires
        words(heard).len() == words(proposed).len(),
        0 <= i < words(heard).len(),
        words(heard)[i] != words(proposed)[i],
    ensures
        may_replace(heard, proposed) <==> (forall|j: int|
            0 <= j < words(heard).len() && j != i ==> #[trigger] words(heard)[j] == words(
                proposed,
            )[j]) && sounds_like(words(heard)[i], words(proposed)[i]) >= 400_000,
{
    let (h, p) = (words(heard), words(proposed));
    assert(heard != proposed);
    if may_replace(heard, proposed) {
        let k = choose|k: int| #[trigger] is_correction(heard, proposed, k);
        assert(k == i) by {
            if k != i {
                assert(h[i] == p[i]);
            }
        }
    }
    if (forall|j: int| 0 <= j < h.len() && j != i ==> #[trigger] h[j] == p[j]) && sounds_like(
        h[i],
        p[i],
    ) >= 400_000 {
        assert(only_difference(h, p, i));
        assert(is_correction(heard, proposed, i));
    }
}

} // verus!
