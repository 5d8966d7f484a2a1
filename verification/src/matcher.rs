//! Selection of the best candidate name for a lookup string.
//!
//! [`find_best_match_for_name`] tries, in strict priority order: a
//! case-insensitive exact or substring match; a ranking by edit distance
//! under a shrinking budget (with a tie-break pass in substring-score mode);
//! and finally a fallback that matches names whose `'_'`-separated words are
//! the same up to order. The spec function [`best_match`] states the whole
//! strategy over character sequences, and the executable functions are
//! proved to return exactly what it names.

use vstd::prelude::*;

use crate::distance::chars_vec;
use crate::distance::edit_distance;
use crate::distance::edit_distance_with_substrings;
use crate::distance::max_nat;
use crate::distance::osa_distance;
use crate::distance::substring_score;

verus! {

/// The uppercase form of a character sequence, as `str::to_uppercase`
/// computes it.
pub uninterp spec fn upper_of(s: Seq<char>) -> Seq<char>;

/// Relies on str::to_uppercase: the uppercase form of a string depends on
/// its characters alone (no locale is involved).
#[verifier::external_body]
fn to_upper(s: &str) -> (r: String)
    ensures
        r@ == upper_of(s@),
{
    s.to_uppercase()
}

/// Whether `needle` occurs contiguously inside `hay`.
pub open spec fn is_substring_of(needle: Seq<char>, hay: Seq<char>) -> bool {
    exists|i: int|
        0 <= i && i + needle.len() <= hay.len() && #[trigger] hay.subrange(i, i + needle.len())
            == needle
}

/// Relies on str::contains: it reports whether the pattern occurs
/// contiguously in the string; UTF-8 being self-synchronizing, byte-level
/// occurrences coincide with character-level ones.
#[verifier::external_body]
fn str_contains(hay: &str, needle: &str) -> (r: bool)
    ensures
        r == is_substring_of(needle@, hay@),
{
    hay.contains(needle)
}

/// The UTF-8 encoded length of one scalar value.
pub open spec fn char_utf8_len(c: char) -> nat {
    let v = c as u32;
    if v < 0x80 {
        1
    } else if v < 0x800 {
        2
    } else if v < 0x10000 {
        3
    } else {
        4
    }
}

/// The UTF-8 encoded length of a character sequence.
pub open spec fn utf8_len(s: Seq<char>) -> nat
    decreases s.len(),
{
    if s.len() == 0 {
        0
    } else {
        utf8_len(s.drop_last()) + char_utf8_len(s.last())
    }
}

/// Relies on str::len: the length of a string slice in bytes, which is the
/// sum of the UTF-8 encoded lengths of its characters.
#[verifier::external_body]
fn byte_len(s: &str) -> (r: usize)
    ensures
        r == utf8_len(s@),
{
    s.len()
}

/// The first, case-insensitive tier: the candidate's uppercase form equals,
/// contains, or is contained in the uppercase lookup.
pub open spec fn tier1_matches(lookup_up: Seq<char>, c: Seq<char>) -> bool {
    ||| upper_of(c) == lookup_up
    ||| is_substring_of(lookup_up, upper_of(c))
    ||| is_substring_of(upper_of(c), lookup_up)
}

/// The first candidate the first tier accepts, if any.
pub open spec fn first_tier1(lookup_up: Seq<char>, cands: Seq<Seq<char>>) -> Option<Seq<char>>
    decreases cands.len(),
{
    if cands.len() == 0 {
        None
    } else if tier1_matches(lookup_up, cands[0]) {
        Some(cands[0])
    } else {
        first_tier1(lookup_up, cands.drop_first())
    }
}

proof fn lemma_first_tier1_found(lookup_up: Seq<char>, cands: Seq<Seq<char>>, k: int)
    requires
        0 <= k < cands.len(),
        tier1_matches(lookup_up, cands[k]),
        forall|t: int| 0 <= t < k ==> !tier1_matches(lookup_up, cands[t]),
    ensures
        first_tier1(lookup_up, cands) == Some(cands[k]),
    decreases k,
{
    if k == 0 {
    } else {
        assert(!tier1_matches(lookup_up, cands[0]));
        assert forall|t: int| 0 <= t < k - 1 implies !tier1_matches(
            lookup_up,
            #[trigger] cands.drop_first()[t],
        ) by {
            assert(cands.drop_first()[t] == cands[t + 1]);
        }
        assert(cands.drop_first()[k - 1] == cands[k]);
        lemma_first_tier1_found(lookup_up, cands.drop_first(), k - 1);
    }
}

proof fn lemma_first_tier1_none(lookup_up: Seq<char>, cands: Seq<Seq<char>>)
    requires
        forall|t: int| 0 <= t < cands.len() ==> !tier1_matches(lookup_up, cands[t]),
    ensures
        first_tier1(lookup_up, cands) is None,
    decreases cands.len(),
{
    if cands.len() == 0 {
    } else {
        assert forall|t: int| 0 <= t < cands.len() - 1 implies !tier1_matches(
            lookup_up,
            #[trigger] cands.drop_first()[t],
        ) by {
            assert(cands.drop_first()[t] == cands[t + 1]);
        }
        lemma_first_tier1_none(lookup_up, cands.drop_first());
    }
}

/// The position of the first word separator, or `-1` if there is none.
pub open spec fn first_separator(s: Seq<char>) -> int
    decreases s.len(),
{
    if s.len() == 0 {
        -1
    } else if s[0] == '_' {
        0
    } else {
        let r = first_separator(s.drop_first());
        if r < 0 {
            -1
        } else {
            r + 1
        }
    }
}

/// The words of a name: the segments between `'_'` separators, in order,
/// empty segments included.
pub open spec fn words_of(s: Seq<char>) -> Seq<Seq<char>>
    decreases s.len(),
{
    let i = first_separator(s);
    if i < 0 || i >= s.len() {
        seq![s]
    } else {
        seq![s.take(i)] + words_of(s.skip(i + 1))
    }
}

proof fn lemma_first_separator_at(s: Seq<char>, p: int)
    requires
        0 <= p < s.len(),
        s[p] == '_',
        forall|k: int| 0 <= k < p ==> s[k] != '_',
    ensures
        first_separator(s) == p,
    decreases p,
{
    if p == 0 {
    } else {
        assert(s[0] != '_');
        assert forall|k: int| 0 <= k < p - 1 implies #[trigger] s.drop_first()[k] != '_' by {
            assert(s.drop_first()[k] == s[k + 1]);
        }
        assert(s.drop_first()[p - 1] == s[p]);
        lemma_first_separator_at(s.drop_first(), p - 1);
    }
}

proof fn lemma_first_separator_none(s: Seq<char>)
    requires
        forall|k: int| 0 <= k < s.len() ==> s[k] != '_',
    ensures
        first_separator(s) == -1,
    decreases s.len(),
{
    if s.len() == 0 {
    } else {
        assert(s[0] != '_');
        assert forall|k: int| 0 <= k < s.len() - 1 implies #[trigger] s.drop_first()[k] != '_' by {
            assert(s.drop_first()[k] == s[k + 1]);
        }
        lemma_first_separator_none(s.drop_first());
    }
}

/// How many times the word `w` occurs in `ws`.
pub open spec fn occurrences(ws: Seq<Seq<char>>, w: Seq<char>) -> nat
    decreases ws.len(),
{
    if ws.len() == 0 {
        0
    } else {
        occurrences(ws.drop_last(), w) + (if ws.last() == w {
            1nat
        } else {
            0nat
        })
    }
}

proof fn lemma_occurrences_positive(ws: Seq<Seq<char>>, w: Seq<char>)
    ensures
        occurrences(ws, w) > 0 <==> ws.contains(w),
    decreases ws.len(),
{
    if ws.len() == 0 {
    } else {
        lemma_occurrences_positive(ws.drop_last(), w);
        if ws.contains(w) {
            let t = choose|t: int| 0 <= t < ws.len() && ws[t] == w;
            if t < ws.len() - 1 {
                assert(ws.drop_last()[t] == w);
                assert(ws.drop_last().contains(w));
            }
        }
        if ws.drop_last().contains(w) {
            let t = choose|t: int| 0 <= t < ws.drop_last().len() && ws.drop_last()[t] == w;
            assert(ws[t] == w);
            assert(ws.contains(w));
        }
    }
}

/// Two names have the same words exactly when every word occurs equally
/// often in both, i.e. their word multisets — and so their sorted word
/// lists — are equal.
pub open spec fn same_words(a: Seq<char>, b: Seq<char>) -> bool {
    forall|w: Seq<char>| #[trigger] occurrences(words_of(a), w) == occurrences(words_of(b), w)
}

/// The candidate the word fallback returns: the first one whose words match
/// the lookup's up to order.
pub open spec fn first_words_match(cands: Seq<Seq<char>>, lookup: Seq<char>) -> Option<Seq<char>>
    decreases cands.len(),
{
    if cands.len() == 0 {
        None
    } else if same_words(cands[0], lookup) {
        Some(cands[0])
    } else {
        first_words_match(cands.drop_first(), lookup)
    }
}

proof fn lemma_first_words_found(cands: Seq<Seq<char>>, lookup: Seq<char>, k: int)
    requires
        0 <= k < cands.len(),
        same_words(cands[k], lookup),
        forall|t: int| 0 <= t < k ==> !same_words(#[trigger] cands[t], lookup),
    ensures
        first_words_match(cands, lookup) == Some(cands[k]),
    decreases k,
{
    if k == 0 {
    } else {
        assert(!same_words(cands[0], lookup));
        assert forall|t: int| 0 <= t < k - 1 implies !same_words(
            #[trigger] cands.drop_first()[t],
            lookup,
        ) by {
            assert(cands.drop_first()[t] == cands[t + 1]);
        }
        assert(cands.drop_first()[k - 1] == cands[k]);
        lemma_first_words_found(cands.drop_first(), lookup, k - 1);
    }
}

proof fn lemma_first_words_none(cands: Seq<Seq<char>>, lookup: Seq<char>)
    requires
        forall|t: int| 0 <= t < cands.len() ==> !same_words(#[trigger] cands[t], lookup),
    ensures
        first_words_match(cands, lookup) is None,
    decreases cands.len(),
{
    if cands.len() == 0 {
    } else {
        assert forall|t: int| 0 <= t < cands.len() - 1 implies !same_words(
            #[trigger] cands.drop_first()[t],
            lookup,
        ) by {
            assert(cands.drop_first()[t] == cands[t + 1]);
        }
        lemma_first_words_none(cands.drop_first(), lookup);
    }
}

/// The running state of the distance-ranking pass.
pub struct ScanState {
    /// the budget a candidate's score must not exceed
    pub budget: nat,
    /// the best candidate seen so far
    pub best: Option<Seq<char>>,
    /// candidates tied at the current best score (substring mode only)
    pub pool: Seq<Seq<char>>,
    /// a candidate that scored zero, which ends the pass at once
    pub early: Option<Seq<char>>,
}

/// The score the ranking pass assigns in each mode.
pub open spec fn mode_score(use_substring_score: bool, lookup: Seq<char>, c: Seq<char>) -> nat {
    if use_substring_score {
        substring_score(lookup, c)
    } else {
        osa_distance(lookup, c)
    }
}

/// One pass over the candidates, in order. A score of zero stops the pass;
/// in plain mode every accepted candidate tightens the budget to one below
/// its score, while in substring mode a strictly better score restarts the
/// pool of tied candidates and an equal score joins it.
pub open spec fn scan(
    use_substring_score: bool,
    lookup: Seq<char>,
    cands: Seq<Seq<char>>,
    st: ScanState,
) -> ScanState
    decreases cands.len(),
{
    if st.early is Some || cands.len() == 0 {
        st
    } else {
        let c = cands[0];
        let rest = cands.drop_first();
        let d = mode_score(use_substring_score, lookup, c);
        if d > st.budget {
            scan(use_substring_score, lookup, rest, st)
        } else if d == 0 {
            ScanState { early: Some(c), ..st }
        } else if use_substring_score {
            if d < st.budget {
                scan(
                    use_substring_score,
                    lookup,
                    rest,
                    (ScanState { budget: d, best: Some(c), pool: seq![c], early: None }),
                )
            } else {
                scan(
                    use_substring_score,
                    lookup,
                    rest,
                    (ScanState {
                        budget: st.budget,
                        best: Some(c),
                        pool: st.pool.push(c),
                        early: None,
                    }),
                )
            }
        } else {
            scan(
                use_substring_score,
                lookup,
                rest,
                (ScanState {
                    budget: (d - 1) as nat,
                    best: Some(c),
                    pool: st.pool,
                    early: None,
                }),
            )
        }
    }
}

/// The view of each candidate.
pub open spec fn views_of(cands: Seq<&str>) -> Seq<Seq<char>> {
    cands.map_values(|c: &str| c@)
}

/// The default acceptance budget: a third of the lookup's character count,
/// but at least one.
pub open spec fn default_budget(lookup_len: nat) -> nat {
    max_nat(lookup_len, 3) / 3
}

/// The state the ranking pass starts from.
pub open spec fn fresh_state(budget: nat) -> ScanState {
    ScanState { budget, best: None, pool: Seq::empty(), early: None }
}

/// An optional budget, as a mathematical value.
pub open spec fn budget_view(dist: Option<usize>) -> Option<nat> {
    match dist {
        Some(d) => Some(d as nat),
        None => None,
    }
}

/// What the tiered selection returns: the first case-insensitive
/// exact-or-substring match if there is one; otherwise the winner of the
/// ranking pass (re-ranked without substring scores when several candidates
/// tie); otherwise the first candidate whose words match up to order.
pub open spec fn best_match(
    use_substring_score: bool,
    cands: Seq<Seq<char>>,
    lookup: Seq<char>,
    dist: Option<nat>,
) -> Option<Seq<char>>
    decreases (if use_substring_score {
        1int
    } else {
        0int
    }),
{
    let t1 = first_tier1(upper_of(lookup), cands);
    if t1 is Some {
        t1
    } else {
        let budget = match dist {
            Some(d) => d,
            None => default_budget(lookup.len()),
        };
        let st = scan(use_substring_score, lookup, cands, fresh_state(budget));
        if st.early is Some {
            st.early
        } else {
            let chosen = if use_substring_score && st.pool.len() > 1 {
                best_match(false, st.pool, lookup, Some(utf8_len(lookup)))
            } else {
                st.best
            };
            if chosen is Some {
                chosen
            } else {
                first_words_match(cands, lookup)
            }
        }
    }
}

/// The words of a split name, each as a character sequence.
pub open spec fn word_views(ws: Seq<Vec<char>>) -> Seq<Seq<char>> {
    ws.map_values(|v: Vec<char>| v@)
}

/// A copy of `s[from..to]`.
fn copy_range(s: &Vec<char>, from: usize, to: usize) -> (r: Vec<char>)
    requires
        from <= to <= s@.len(),
    ensures
        r@ == s@.subrange(from as int, to as int),
{
    let mut r: Vec<char> = Vec::new();
    let mut k: usize = from;
    while k < to
        invariant
            from <= k <= to <= s@.len(),
            r@ == s@.subrange(from as int, k as int),
        decreases to - k,
    {
        let c = s[k];
        r.push(c);
        proof {
            assert(s@.subrange(from as int, k as int).push(s@[k as int]) =~= s@.subrange(
                from as int,
                k + 1,
            ));
        }
        k = k + 1;
    }
    r
}

/// Splits a name into its `'_'`-separated words.
fn split_words(s: &Vec<char>) -> (r: Vec<Vec<char>>)
    ensures
        word_views(r@) == words_of(s@),
{
    let len = s.len();
    let mut done: Vec<Vec<char>> = Vec::new();
    let mut start: usize = 0;
    let mut k: usize = 0;
    proof {
        assert(word_views(done@) =~= Seq::<Seq<char>>::empty());
        assert(s@.skip(0) =~= s@);
        assert(word_views(done@) + words_of(s@) =~= words_of(s@));
    }
    while k < len
        invariant
            start <= k <= len,
            len == s@.len(),
            forall|t: int| start <= t < k ==> s@[t] != '_',
            words_of(s@) == word_views(done@) + words_of(s@.skip(start as int)),
        decreases len - k,
    {
        if s[k] == '_' {
            let word = copy_range(s, start, k);
            proof {
                let tail = s@.skip(start as int);
                assert forall|t: int| 0 <= t < k - start implies #[trigger] tail[t] != '_' by {
                    assert(tail[t] == s@[start + t]);
                }
                assert(tail[k - start] == s@[k as int]);
                lemma_first_separator_at(tail, k - start);
                assert(tail.take(k - start) =~= s@.subrange(start as int, k as int));
                assert(tail.skip(k - start + 1) =~= s@.skip(k + 1));
                assert(word_views(done@.push(word)) =~= word_views(done@).push(word@));
                assert(word_views(done@) + (seq![word@] + words_of(s@.skip(k + 1)))
                    =~= word_views(done@.push(word)) + words_of(s@.skip(k + 1)));
            }
            done.push(word);
            start = k + 1;
        }
        k = k + 1;
    }
    let word = copy_range(s, start, len);
    proof {
        let tail = s@.skip(start as int);
        assert forall|t: int| 0 <= t < tail.len() implies #[trigger] tail[t] != '_' by {
            assert(tail[t] == s@[start + t]);
        }
        lemma_first_separator_none(tail);
        assert(tail =~= s@.subrange(start as int, len as int));
        assert(word_views(done@.push(word)) =~= word_views(done@).push(word@));
        assert(word_views(done@) + seq![word@] =~= word_views(done@.push(word)));
    }
    done.push(word);
    done
}

/// Whether two character vectors hold the same characters.
fn chars_eq(a: &Vec<char>, b: &Vec<char>) -> (r: bool)
    ensures
        r == (a@ == b@),
{
    if a.len() != b.len() {
        return false;
    }
    let mut k: usize = 0;
    while k < a.len()
        invariant
            k <= a@.len(),
            a@.len() == b@.len(),
            forall|t: int| 0 <= t < k ==> a@[t] == b@[t],
        decreases a@.len() - k,
    {
        if a[k] != b[k] {
            return false;
        }
        k = k + 1;
    }
    proof {
        assert(a@ =~= b@);
    }
    true
}

/// How many of the words equal `w`.
fn count_word(ws: &Vec<Vec<char>>, w: &Vec<char>) -> (r: usize)
    ensures
        r == occurrences(word_views(ws@), w@),
{
    let mut r: usize = 0;
    let mut k: usize = 0;
    while k < ws.len()
        invariant
            k <= ws@.len(),
            r <= k,
            r == occurrences(word_views(ws@).take(k as int), w@),
        decreases ws@.len() - k,
    {
        let hit = chars_eq(&ws[k], w);
        proof {
            let m = word_views(ws@);
            assert(m.take(k + 1).drop_last() =~= m.take(k as int));
            assert(m.take(k + 1).last() == m[k as int]);
        }
        if hit {
            r = r + 1;
        }
        k = k + 1;
    }
    proof {
        assert(word_views(ws@).take(ws@.len() as int) =~= word_views(ws@));
    }
    r
}

/// Whether every word occurs equally often in both lists.
fn words_agree(aw: &Vec<Vec<char>>, bw: &Vec<Vec<char>>) -> (r: bool)
    ensures
        r == (forall|w: Seq<char>| #[trigger] occurrences(word_views(aw@), w) == occurrences(
            word_views(bw@),
            w,
        )),
{
    let ghost wa = word_views(aw@);
    let ghost wb = word_views(bw@);
    let mut k: usize = 0;
    while k < aw.len()
        invariant
            k <= aw@.len(),
            wa == word_views(aw@),
            wb == word_views(bw@),
            forall|t: int|
                0 <= t < k ==> occurrences(wa, #[trigger] wa[t]) == occurrences(wb, wa[t]),
        decreases aw@.len() - k,
    {
        let ca = count_word(aw, &aw[k]);
        let cb = count_word(bw, &aw[k]);
        if ca != cb {
            proof {
                assert(occurrences(wa, wa[k as int]) != occurrences(wb, wa[k as int]));
            }
            return false;
        }
        k = k + 1;
    }
    let mut k2: usize = 0;
    while k2 < bw.len()
        invariant
            k2 <= bw@.len(),
            wa == word_views(aw@),
            wb == word_views(bw@),
            forall|t: int|
                0 <= t < aw@.len() ==> occurrences(wa, #[trigger] wa[t]) == occurrences(wb, wa[t]),
            forall|t: int|
                0 <= t < k2 ==> occurrences(wa, #[trigger] wb[t]) == occurrences(wb, wb[t]),
        decreases bw@.len() - k2,
    {
        let ca = count_word(aw, &bw[k2]);
        let cb = count_word(bw, &bw[k2]);
        if ca != cb {
            proof {
                assert(occurrences(wa, wb[k2 as int]) != occurrences(wb, wb[k2 as int]));
            }
            return false;
        }
        k2 = k2 + 1;
    }
    proof {
        assert forall|w: Seq<char>| #[trigger] occurrences(wa, w) == occurrences(wb, w) by {
            lemma_occurrences_positive(wa, w);
            lemma_occurrences_positive(wb, w);
            if wa.contains(w) {
                let t = choose|t: int| 0 <= t < wa.len() && wa[t] == w;
                assert(occurrences(wa, wa[t]) == occurrences(wb, wa[t]));
            } else if wb.contains(w) {
                let t = choose|t: int| 0 <= t < wb.len() && wb[t] == w;
                assert(occurrences(wa, wb[t]) == occurrences(wb, wb[t]));
            }
        }
    }
    true
}

/// The sorted-word fallback: returns the first candidate whose
/// `'_'`-separated words are the lookup's, up to order.
fn find_match_by_sorted_words<'a>(candidates: &[&'a str], lookup: &str) -> (r: Option<&'a str>)
    ensures
        (match r {
            Some(c) => first_words_match(views_of(candidates@), lookup@) == Some(c@),
            None => first_words_match(views_of(candidates@), lookup@) is None,
        }),
{
    let lookup_chars = chars_vec(lookup);
    let lookup_words = split_words(&lookup_chars);
    let ghost cs = views_of(candidates@);
    let mut k: usize = 0;
    while k < candidates.len()
        invariant
            k <= candidates@.len(),
            cs == views_of(candidates@),
            word_views(lookup_words@) == words_of(lookup@),
            forall|t: int| 0 <= t < k ==> !same_words(#[trigger] cs[t], lookup@),
        decreases candidates@.len() - k,
    {
        let c = candidates[k];
        let c_chars = chars_vec(c);
        let c_words = split_words(&c_chars);
        let agree = words_agree(&c_words, &lookup_words);
        proof {
            assert(cs[k as int] == candidates@[k as int]@);
            assert(agree == same_words(cs[k as int], lookup@));
        }
        if agree {
            proof {
                lemma_first_words_found(cs, lookup@, k as int);
            }
            return Some(c);
        }
        k = k + 1;
    }
    proof {
        lemma_first_words_none(cs, lookup@);
    }
    None
}

/// The view of an optional candidate.
pub open spec fn found_view(r: Option<&str>) -> Option<Seq<char>> {
    match r {
        Some(c) => Some(c@),
        None => None,
    }
}

/// Finds the best match for a lookup string among the candidates, with the
/// mode toggle that the tie-break pass uses internally.
///
/// With `use_substring_score` the ranking pass scores candidates by
/// [`edit_distance_with_substrings`] and re-ranks tied candidates by plain
/// distance; without it, by [`edit_distance`] under a budget that shrinks
/// below each accepted score.
pub fn find_best_match_for_name_impl<'a>(
    use_substring_score: bool,
    candidates: &[&'a str],
    lookup: &'a str,
    dist: Option<usize>,
) -> (r: Option<&'a str>)
    ensures
        found_view(r) == best_match(
            use_substring_score,
            views_of(candidates@),
            lookup@,
            budget_view(dist),
        ),
    decreases (if use_substring_score {
        1int
    } else {
        0int
    }),
{
    let ghost cs = views_of(candidates@);
    let ghost up = upper_of(lookup@);
    let lookup_uppercase = to_upper(lookup);
    // tier 1: case-insensitive exact or substring match, first hit wins
    let mut k: usize = 0;
    while k < candidates.len()
        invariant
            k <= candidates@.len(),
            cs == views_of(candidates@),
            up == upper_of(lookup@),
            lookup_uppercase@ == up,
            forall|t: int| 0 <= t < k ==> !tier1_matches(up, #[trigger] cs[t]),
        decreases candidates@.len() - k,
    {
        let c = candidates[k];
        let cu = to_upper(c);
        proof {
            assert(cs[k as int] == candidates@[k as int]@);
        }
        if cu == lookup_uppercase || str_contains(cu.as_str(), lookup_uppercase.as_str())
            || str_contains(lookup_uppercase.as_str(), cu.as_str()) {
            proof {
                lemma_first_tier1_found(up, cs, k as int);
            }
            return Some(c);
        }
        k = k + 1;
    }
    proof {
        lemma_first_tier1_none(up, cs);
    }
    // tier 2: rank by edit distance under a shrinking budget
    let lookup_chars = chars_vec(lookup);
    let lookup_len = lookup_chars.len();
    let mut dist_budget = match dist {
        Some(d) => d,
        None => {
            let base = if lookup_len >= 3 {
                lookup_len
            } else {
                3
            };
            base / 3
        },
    };
    let ghost budget0 = match budget_view(dist) {
        Some(d) => d,
        None => default_budget(lookup@.len()),
    };
    assert(dist_budget as nat == budget0);
    let mut best: Option<&'a str> = None;
    let mut next_candidates: Vec<&'a str> = Vec::new();
    let mut k2: usize = 0;
    proof {
        assert(cs.skip(0) =~= cs);
        assert(views_of(next_candidates@) =~= Seq::<Seq<char>>::empty());
        assert((ScanState {
            budget: dist_budget as nat,
            best: found_view(best),
            pool: views_of(next_candidates@),
            early: None,
        }) == fresh_state(budget0));
    }
    while k2 < candidates.len()
        invariant
            k2 <= candidates@.len(),
            cs == views_of(candidates@),
            up == upper_of(lookup@),
            first_tier1(up, cs) is None,
            budget0 == (match budget_view(dist) {
                Some(d) => d,
                None => default_budget(lookup@.len()),
            }),
            !use_substring_score ==> next_candidates@.len() == 0,
            scan(use_substring_score, lookup@, cs, fresh_state(budget0)) == scan(
                use_substring_score,
                lookup@,
                cs.skip(k2 as int),
                (ScanState {
                    budget: dist_budget as nat,
                    best: found_view(best),
                    pool: views_of(next_candidates@),
                    early: None,
                }),
            ),
        decreases candidates@.len() - k2,
    {
        let c = candidates[k2];
        proof {
            assert(cs[k2 as int] == candidates@[k2 as int]@);
            assert(cs.skip(k2 as int).drop_first() =~= cs.skip(k2 + 1));
            assert(cs.skip(k2 as int)[0] == cs[k2 as int]);
        }
        let ghost st_here = ScanState {
            budget: dist_budget as nat,
            best: found_view(best),
            pool: views_of(next_candidates@),
            early: None,
        };
        let score_opt = if use_substring_score {
            edit_distance_with_substrings(lookup, c, dist_budget)
        } else {
            edit_distance(lookup, c, dist_budget)
        };
        match score_opt {
            Some(d) => {
                assert(d == mode_score(use_substring_score, lookup@, cs[k2 as int]));
                if d == 0 {
                    assert(scan(use_substring_score, lookup@, cs.skip(k2 as int), st_here)
                        == (ScanState { early: Some(cs[k2 as int]), ..st_here }));
                    assert(best_match(
                        use_substring_score,
                        cs,
                        lookup@,
                        budget_view(dist),
                    ) == Some(cs[k2 as int]));
                    return Some(c);
                }
                if use_substring_score {
                    let tightened = d < dist_budget;
                    if tightened {
                        dist_budget = d;
                        next_candidates.clear();
                    }
                    let ghost pool_before = views_of(next_candidates@);
                    next_candidates.push(c);
                    proof {
                        assert(views_of(next_candidates@) =~= pool_before.push(cs[k2 as int]));
                        if tightened {
                            assert(pool_before =~= Seq::<Seq<char>>::empty());
                            assert(views_of(next_candidates@) =~= seq![cs[k2 as int]]);
                            assert(scan(use_substring_score, lookup@, cs.skip(k2 as int), st_here)
                                == scan(
                                use_substring_score,
                                lookup@,
                                cs.skip(k2 + 1),
                                (ScanState {
                                    budget: d as nat,
                                    best: Some(cs[k2 as int]),
                                    pool: seq![cs[k2 as int]],
                                    early: None,
                                }),
                            ));
                        } else {
                            assert(d == st_here.budget);
                            assert(scan(use_substring_score, lookup@, cs.skip(k2 as int), st_here)
                                == scan(
                                use_substring_score,
                                lookup@,
                                cs.skip(k2 + 1),
                                (ScanState {
                                    budget: st_here.budget,
                                    best: Some(cs[k2 as int]),
                                    pool: st_here.pool.push(cs[k2 as int]),
                                    early: None,
                                }),
                            ));
                        }
                    }
                } else {
                    dist_budget = d - 1;
                    proof {
                        assert(scan(use_substring_score, lookup@, cs.skip(k2 as int), st_here)
                            == scan(
                            use_substring_score,
                            lookup@,
                            cs.skip(k2 + 1),
                            (ScanState {
                                budget: (d - 1) as nat,
                                best: Some(cs[k2 as int]),
                                pool: st_here.pool,
                                early: None,
                            }),
                        ));
                    }
                }
                best = Some(c);
            },
            None => {
                assert(mode_score(use_substring_score, lookup@, cs[k2 as int]) > dist_budget);
                assert(scan(use_substring_score, lookup@, cs.skip(k2 as int), st_here) == scan(
                    use_substring_score,
                    lookup@,
                    cs.skip(k2 + 1),
                    st_here,
                ));
            },
        }
        k2 = k2 + 1;
    }
    proof {
        assert(cs.skip(candidates@.len() as int) =~= Seq::<Seq<char>>::empty());
    }
    let ghost st_final = scan(use_substring_score, lookup@, cs, fresh_state(budget0));
    assert(st_final.early is None);
    assert(st_final.best == found_view(best));
    assert(st_final.pool == views_of(next_candidates@));
    // the tie-break: several candidates tied at the best score are
    // re-ranked by plain distance with the lookup's byte length as budget
    if next_candidates.len() > 1 {
        assert(use_substring_score);
        best = find_best_match_for_name_impl(
            false,
            next_candidates.as_slice(),
            lookup,
            Some(byte_len(lookup)),
        );
    }
    match best {
        Some(c) => Some(c),
        None => {
            // the last tier: match by sorted words
            find_match_by_sorted_words(candidates, lookup)
        },
    }
}

/// Finds the best match for a lookup string among the candidates.
///
/// `dist` is the acceptance budget for the edit-distance tier; when absent,
/// a third of the lookup's character count (but at least one) is used.
pub fn find_best_match_for_name<'a>(
    candidates: &[&'a str],
    lookup: &'a str,
    dist: Option<usize>,
) -> (r: Option<&'a str>)
    ensures
        found_view(r) == best_match(false, views_of(candidates@), lookup@, budget_view(dist)),
{
    find_best_match_for_name_impl(false, candidates, lookup, dist)
}

} // verus!
