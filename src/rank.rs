use vstd::prelude::*;

use crate::filter::{feedback, feedback_of, Feedback, WordFilter};
use crate::word::{is_slot_char, lemma_lex_key_injective, lex_key, Word};

verus! {

/// The number of feedback patterns of a five-letter guess.
pub const PATTERNS: usize = 243;

/// The digit of one feedback category in a pattern.
pub open spec fn category(f: Feedback) -> int {
    match f {
        Feedback::Correct => 0,
        Feedback::Present => 1,
        Feedback::Absent => 2,
    }
}

/// The feedback of all five positions of `guess` against `target` as one number below 243:
/// the category of position `i` is its digit of weight `3^i`.
pub open spec fn pattern(guess: Seq<char>, target: Seq<char>) -> int {
    category(feedback_of(guess, target, 0)) + 3 * category(feedback_of(guess, target, 1)) + 9
        * category(feedback_of(guess, target, 2)) + 27 * category(feedback_of(guess, target, 3))
        + 81 * category(feedback_of(guess, target, 4))
}

/// How many words of `pool`, each taken as the target, give feedback pattern `p` to `guess`.
pub open spec fn partition_size(pool: Seq<Word>, guess: Seq<char>, p: int) -> nat
    decreases pool.len(),
{
    if pool.len() == 0 {
        0
    } else {
        partition_size(pool.drop_last(), guess, p) + if pattern(guess, pool.last()@) == p {
            1nat
        } else {
            0nat
        }
    }
}

/// The largest partition of `pool` by the feedback patterns of `guess` below `k`.
pub open spec fn largest_partition(pool: Seq<Word>, guess: Seq<char>, k: int) -> nat
    decreases k,
{
    if k <= 0 {
        0
    } else {
        let a = largest_partition(pool, guess, k - 1);
        let b = partition_size(pool, guess, k - 1);
        if a >= b {
            a
        } else {
            b
        }
    }
}

/// The score of `guess` over `pool`: the size of the largest set of words of `pool` that give
/// `guess` the same feedback, so that guessing it leaves at most that many in the worst case.
pub open spec fn worst_case(pool: Seq<Word>, guess: Seq<char>) -> nat {
    largest_partition(pool, guess, PATTERNS as int)
}

/// The words of `pool` that `filter` accepts, in the order of `pool`.
pub open spec fn candidate_pool(filter: WordFilter, pool: Seq<Word>) -> Seq<Word> {
    pool.filter(|w: Word| filter.accepts(w@))
}

/// A ranked candidate as plain values: its characters and its score.
pub open spec fn entry_view(e: (Word, usize)) -> (Seq<char>, usize) {
    (e.0@, e.1)
}

/// A ranking as plain values.
pub open spec fn entries_view(s: Seq<(Word, usize)>) -> Seq<(Seq<char>, usize)> {
    s.map_values(|e: (Word, usize)| entry_view(e))
}

/// The ranking order: the lower score first, and for equal scores the word that comes first
/// lexically.
pub open spec fn ranks_before(a: (Seq<char>, usize), b: (Seq<char>, usize)) -> bool {
    a.1 < b.1 || (a.1 == b.1 && lex_key(a.0) <= lex_key(b.0))
}

/// Every entry ranks before those after it.
pub open spec fn is_sorted(s: Seq<(Seq<char>, usize)>) -> bool {
    forall|i: int, j: int| 0 <= i < j < s.len() ==> ranks_before(s[i], s[j])
}

/// Each candidate of `pool` for `filter`, with its worst case over all the candidates.
pub open spec fn scored(filter: WordFilter, pool: Seq<Word>) -> Seq<(Seq<char>, usize)> {
    let cands = candidate_pool(filter, pool);
    cands.map_values(|g: Word| (g@, worst_case(cands, g@) as usize))
}

/// `r` holds each scored candidate exactly as often as the pool does, in ranking order.
pub open spec fn is_ranking(filter: WordFilter, pool: Seq<Word>, r: Seq<(Seq<char>, usize)>) -> bool {
    &&& is_sorted(r)
    &&& r.to_multiset() == scored(filter, pool).to_multiset()
}

fn category_of(f: Feedback) -> (r: usize)
    ensures
        r == category(f),
{
    match f {
        Feedback::Correct => 0,
        Feedback::Present => 1,
        Feedback::Absent => 2,
    }
}

/// The feedback pattern of `guess` against `target`.
pub fn pattern_of(guess: Word, target: Word) -> (r: usize)
    ensures
        r == pattern(guess@, target@),
        r < PATTERNS,
{
    category_of(feedback(guess, target, 0)) + 3 * category_of(feedback(guess, target, 1)) + 9
        * category_of(feedback(guess, target, 2)) + 27 * category_of(feedback(guess, target, 3))
        + 81 * category_of(feedback(guess, target, 4))
}

proof fn lemma_partition_bound(pool: Seq<Word>, guess: Seq<char>, p: int)
    ensures
        partition_size(pool, guess, p) <= pool.len(),
    decreases pool.len(),
{
    if pool.len() > 0 {
        lemma_partition_bound(pool.drop_last(), guess, p);
    }
}

/// The worst case of `guess` over `pool`.
pub fn score(guess: Word, pool: &Vec<Word>) -> (r: usize)
    ensures
        r == worst_case(pool@, guess@),
{
    let mut counts: Vec<usize> = Vec::new();
    while counts.len() < PATTERNS
        invariant
            counts@.len() <= PATTERNS,
            forall|p: int| 0 <= p < counts@.len() ==> counts@[p] == 0,
        decreases PATTERNS - counts@.len(),
    {
        counts.push(0);
    }
    let mut j: usize = 0;
    while j < pool.len()
        invariant
            j <= pool@.len(),
            counts@.len() == PATTERNS,
            forall|p: int|
                0 <= p < PATTERNS ==> #[trigger] counts@[p] == partition_size(
                    pool@.take(j as int),
                    guess@,
                    p,
                ),
        decreases pool@.len() - j,
    {
        let p = pattern_of(guess, pool[j]);
        proof {
            lemma_partition_bound(pool@.take(j as int), guess@, p as int);
            assert(pool@.take(j + 1 as int).drop_last() == pool@.take(j as int));
            assert(pool@.take(j + 1 as int).last() == pool@[j as int]);
        }
        counts[p] = counts[p] + 1;
        j = j + 1;
    }
    assert(pool@.take(pool@.len() as int) == pool@);
    let mut best: usize = 0;
    let mut k: usize = 0;
    while k < PATTERNS
        invariant
            k <= PATTERNS,
            counts@.len() == PATTERNS,
            forall|p: int|
                0 <= p < PATTERNS ==> #[trigger] counts@[p] == partition_size(pool@, guess@, p),
            best == largest_partition(pool@, guess@, k as int),
        decreases PATTERNS - k,
    {
        if counts[k] > best {
            best = counts[k];
        }
        k = k + 1;
    }
    best
}

/// The words of `pool` that `filter` accepts, in the order of `pool`.
pub fn candidates(filter: &WordFilter, pool: &Vec<Word>) -> (r: Vec<Word>)
    ensures
        r@ == candidate_pool(*filter, pool@),
{
    let mut r: Vec<Word> = Vec::new();
    let mut i: usize = 0;
    while i < pool.len()
        invariant
            i <= pool@.len(),
            r@ == pool@.take(i as int).filter(|w: Word| filter.accepts(w@)),
        decreases pool@.len() - i,
    {
        let w = pool[i];
        proof {
            assert(pool@.take(i + 1 as int) == pool@.take(i as int).push(w));
            pool@.take(i as int).lemma_filter_push(w, |w: Word| filter.accepts(w@));
        }
        if filter.matches(w) {
            r.push(w);
        }
        i = i + 1;
    }
    assert(pool@.take(pool@.len() as int) == pool@);
    r
}

/// Whether entry `a` ranks before entry `b`.
fn precedes(a: (Word, usize), b: (Word, usize)) -> (r: bool)
    ensures
        r == ranks_before(entry_view(a), entry_view(b)),
{
    a.1 < b.1 || (a.1 == b.1 && a.0.lex_key() <= b.0.lex_key())
}

/// Puts `e` into the sorted `ranked`, after the entries that rank before it.
fn insert_ranked(ranked: &mut Vec<(Word, usize)>, e: (Word, usize))
    requires
        is_sorted(entries_view(old(ranked)@)),
    ensures
        is_sorted(entries_view(final(ranked)@)),
        entries_view(final(ranked)@).to_multiset() == entries_view(old(ranked)@).to_multiset().insert(
            entry_view(e),
        ),
{
    let ghost v = entries_view(ranked@);
    let ghost x = entry_view(e);
    let mut pos: usize = 0;
    while pos < ranked.len()
        invariant
            pos <= ranked@.len(),
            v == entries_view(ranked@),
            x == entry_view(e),
            forall|q: int| 0 <= q < pos ==> ranks_before(#[trigger] v[q], x),
        ensures
            pos <= ranked@.len(),
            forall|q: int| 0 <= q < pos ==> ranks_before(#[trigger] v[q], x),
            pos < ranked@.len() ==> !ranks_before(v[pos as int], x),
        decreases ranked@.len() - pos,
    {
        assert(v[pos as int] == entry_view(ranked@[pos as int]));
        if !precedes(ranked[pos], e) {
            break;
        }
        pos = pos + 1;
    }
    ranked.insert(pos, e);
    proof {
        let w = entries_view(ranked@);
        assert(w =~= v.insert(pos as int, x));
        assert forall|i: int, j: int| 0 <= i < j < w.len() implies ranks_before(w[i], w[j]) by {
            if i == pos && j > pos && pos < v.len() {
                assert(!ranks_before(v[pos as int], x));
                assert(ranks_before(x, v[pos as int]));
                if j - 1 > pos {
                    assert(ranks_before(v[pos as int], v[j - 1]));
                }
            } else if i < pos && j > pos {
                assert(ranks_before(v[i], v[j - 1]));
            } else if i > pos {
                assert(ranks_before(v[i - 1], v[j - 1]));
            }
        }
        vstd::seq_lib::to_multiset_insert(v, pos as int, x);
    }
}

/// The candidates of `pool` that `filter` accepts, each with its worst case over all the
/// candidates (the size of the largest group of candidates that would give it the same
/// feedback), ordered by that score and, for equal scores, lexically by word.
pub fn rank(filter: &WordFilter, pool: &Vec<Word>) -> (r: Vec<(Word, usize)>)
    ensures
        is_ranking(*filter, pool@, entries_view(r@)),
{
    let cands = candidates(filter, pool);
    let ghost all = scored(*filter, pool@);
    let mut ranked: Vec<(Word, usize)> = Vec::new();
    assert(entries_view(ranked@) =~= all.take(0));
    let mut i: usize = 0;
    while i < cands.len()
        invariant
            i <= cands@.len(),
            cands@ == candidate_pool(*filter, pool@),
            all == scored(*filter, pool@),
            all.len() == cands@.len(),
            is_sorted(entries_view(ranked@)),
            entries_view(ranked@).to_multiset() == all.take(i as int).to_multiset(),
        decreases cands@.len() - i,
    {
        let g = cands[i];
        let s = score(g, &cands);
        insert_ranked(&mut ranked, (g, s));
        proof {
            assert(all.take(i + 1 as int) == all.take(i as int).push(entry_view((g, s))));
            vstd::seq_lib::to_multiset_build(all.take(i as int), entry_view((g, s)));
        }
        i = i + 1;
    }
    assert(all.take(cands@.len() as int) == all);
    ranked
}

/// Sorted sequences of word entries that hold the same entries are the same.
proof fn lemma_sorted_unique(a: Seq<(Seq<char>, usize)>, b: Seq<(Seq<char>, usize)>)
    requires
        is_sorted(a),
        is_sorted(b),
        a.to_multiset() == b.to_multiset(),
        forall|x: (Seq<char>, usize)|
            #[trigger] a.to_multiset().count(x) > 0 ==> x.0.len() == 5 && forall|i: int|
                0 <= i < 5 ==> is_slot_char(#[trigger] x.0[i]),
    ensures
        a == b,
    decreases a.len(),
{
    broadcast use vstd::seq_lib::to_multiset_contains;

    vstd::seq_lib::to_multiset_len(a);
    vstd::seq_lib::to_multiset_len(b);
    if a.len() == 0 {
        assert(a =~= b);
    } else {
        let x = a[0];
        let y = b[0];
        assert(a.contains(x));
        assert(b.contains(y));
        assert(a.to_multiset().count(y) > 0);
        assert(b.to_multiset().count(x) > 0);
        let k = choose|k: int| 0 <= k < a.len() && a[k] == y;
        let m = choose|m: int| 0 <= m < b.len() && b[m] == x;
        if k > 0 {
            assert(ranks_before(a[0], a[k]));
        }
        if m > 0 {
            assert(ranks_before(b[0], b[m]));
        }
        lemma_lex_key_injective(x.0, y.0);
        assert(x == y);
        vstd::seq_lib::to_multiset_remove(a, 0);
        vstd::seq_lib::to_multiset_remove(b, 0);
        assert(a.remove(0) == a.drop_first());
        assert(b.remove(0) == b.drop_first());
        let a1 = a.drop_first();
        let b1 = b.drop_first();
        assert forall|x1: (Seq<char>, usize)| #[trigger] a1.to_multiset().count(x1) > 0 implies x1.0.len()
            == 5 && forall|i: int| 0 <= i < 5 ==> is_slot_char(#[trigger] x1.0[i]) by {
            assert(a.to_multiset().count(x1) > 0);
        }
        lemma_sorted_unique(a1, b1);
        assert(a =~= seq![x] + a1);
        assert(b =~= seq![y] + b1);
    }
}

/// Ranking is deterministic: any two rankings of the same pool under the same filter are the
/// same sequence of words and scores.
pub proof fn lemma_ranking_unique(
    filter: WordFilter,
    pool: Seq<Word>,
    a: Seq<(Seq<char>, usize)>,
    b: Seq<(Seq<char>, usize)>,
)
    requires
        is_ranking(filter, pool, a),
        is_ranking(filter, pool, b),
    ensures
        a == b,
{
    broadcast use vstd::seq_lib::to_multiset_contains;

    let all = scored(filter, pool);
    let cands = candidate_pool(filter, pool);
    assert forall|x: (Seq<char>, usize)| #[trigger] a.to_multiset().count(x) > 0 implies x.0.len()
        == 5 && forall|i: int| 0 <= i < 5 ==> is_slot_char(#[trigger] x.0[i]) by {
        assert(all.to_multiset().count(x) > 0);
        assert(all.contains(x));
        let k = choose|k: int| 0 <= k < all.len() && all[k] == x;
        cands[k].lemma_view();
    }
    lemma_sorted_unique(a, b);
}

/// Filtering keeps each element that passes as often as it occurs.
proof fn lemma_filter_count<A>(s: Seq<A>, p: spec_fn(A) -> bool, x: A)
    ensures
        s.filter(p).to_multiset().count(x) == if p(x) {
            s.to_multiset().count(x)
        } else {
            0
        },
    decreases s.len(),
{
    broadcast use vstd::seq_lib::to_multiset_build;

    if s.len() == 0 {
        assert(s.filter(p) =~= Seq::<A>::empty()) by {
            reveal(Seq::filter);
        }
        assert(s =~= Seq::<A>::empty());
        vstd::seq_lib::to_multiset_len(s);
        vstd::seq_lib::to_multiset_len(s.filter(p));
    } else {
        let s0 = s.drop_last();
        let y = s.last();
        lemma_filter_count(s0, p, x);
        assert(s == s0.push(y));
        s0.lemma_filter_push(y, p);
    }
}

/// Sequences with the same elements keep the same elements when filtered.
proof fn lemma_filter_permutation<A>(s1: Seq<A>, s2: Seq<A>, p: spec_fn(A) -> bool)
    requires
        s1.to_multiset() == s2.to_multiset(),
    ensures
        s1.filter(p).to_multiset() == s2.filter(p).to_multiset(),
{
    assert forall|x: A| s1.filter(p).to_multiset().count(x) == s2.filter(p).to_multiset().count(
        x,
    ) by {
        lemma_filter_count(s1, p, x);
        lemma_filter_count(s2, p, x);
    }
    assert(s1.filter(p).to_multiset() =~= s2.filter(p).to_multiset());
}

/// A partition is the filter of the pool by its pattern.
proof fn lemma_partition_filter(pool: Seq<Word>, guess: Seq<char>, p: int)
    ensures
        partition_size(pool, guess, p) == pool.filter(|w: Word| pattern(guess, w@) == p).len(),
    decreases pool.len(),
{
    let pr = |w: Word| pattern(guess, w@) == p;
    if pool.len() == 0 {
        assert(pool.filter(pr) =~= Seq::<Word>::empty()) by {
            reveal(Seq::filter);
        }
    } else {
        let s0 = pool.drop_last();
        lemma_partition_filter(s0, guess, p);
        assert(pool == s0.push(pool.last()));
        s0.lemma_filter_push(pool.last(), pr);
    }
}

/// Pools with the same words, in any order, give each guess the same worst case.
proof fn lemma_worst_case_permutation(c1: Seq<Word>, c2: Seq<Word>, guess: Seq<char>)
    requires
        c1.to_multiset() == c2.to_multiset(),
    ensures
        worst_case(c1, guess) == worst_case(c2, guess),
{
    assert forall|p: int| partition_size(c1, guess, p) == partition_size(c2, guess, p) by {
        let pr = |w: Word| pattern(guess, w@) == p;
        lemma_partition_filter(c1, guess, p);
        lemma_partition_filter(c2, guess, p);
        lemma_filter_permutation(c1, c2, pr);
        vstd::seq_lib::to_multiset_len(c1.filter(pr));
        vstd::seq_lib::to_multiset_len(c2.filter(pr));
    }
    lemma_largest_permutation(c1, c2, guess, PATTERNS as int);
}

proof fn lemma_largest_permutation(c1: Seq<Word>, c2: Seq<Word>, guess: Seq<char>, k: int)
    requires
        forall|p: int| partition_size(c1, guess, p) == partition_size(c2, guess, p),
    ensures
        largest_partition(c1, guess, k) == largest_partition(c2, guess, k),
    decreases k,
{
    if k > 0 {
        lemma_largest_permutation(c1, c2, guess, k - 1);
    }
}

/// Sequences with the same elements keep the same elements when mapped.
proof fn lemma_map_permutation<A, B>(s1: Seq<A>, s2: Seq<A>, f: spec_fn(A) -> B)
    requires
        s1.to_multiset() == s2.to_multiset(),
    ensures
        s1.map_values(f).to_multiset() == s2.map_values(f).to_multiset(),
    decreases s1.len(),
{
    broadcast use vstd::seq_lib::to_multiset_contains, vstd::multiset::group_multiset_axioms;

    vstd::seq_lib::to_multiset_len(s1);
    vstd::seq_lib::to_multiset_len(s2);
    if s1.len() == 0 {
        assert(s1.map_values(f) =~= s2.map_values(f));
    } else {
        let x = s1.last();
        let s0 = s1.drop_last();
        assert(s1 == s0.push(x));
        vstd::seq_lib::to_multiset_build(s0, x);
        assert(s1.to_multiset().count(x) > 0);
        assert(s2.contains(x));
        let k = choose|k: int| 0 <= k < s2.len() && s2[k] == x;
        let s2r = s2.remove(k);
        assert(s2 =~= s2r.insert(k, x));
        vstd::seq_lib::to_multiset_insert(s2r, k, x);
        assert(s2r.len() == s2.len() - 1);
        assert(s1.to_multiset() == s0.to_multiset().insert(x));
        assert(s2.to_multiset() == s2r.to_multiset().insert(x));
        assert forall|y: A| s0.to_multiset().count(y) == s2r.to_multiset().count(y) by {
            assert(s1.to_multiset().count(y) == s2.to_multiset().count(y));
            assert(s0.to_multiset().insert(x).count(y) == s0.to_multiset().count(y)
                + vstd::multiset::Multiset::singleton(x).count(y));
            assert(s2r.to_multiset().insert(x).count(y) == s2r.to_multiset().count(y)
                + vstd::multiset::Multiset::singleton(x).count(y));
        }
        assert(s0.to_multiset() =~= s2r.to_multiset());
        lemma_map_permutation(s0, s2r, f);
        assert(s1.map_values(f) =~= s0.map_values(f).push(f(x)));
        vstd::seq_lib::to_multiset_build(s0.map_values(f), f(x));
        assert(s2.map_values(f) =~= s2r.map_values(f).insert(k, f(x)));
        vstd::seq_lib::to_multiset_insert(s2r.map_values(f), k, f(x));
    }
}

/// Ranking does not depend on the order of the pool: pools that hold the same words, each as
/// often, have the same ranking under the same filter.
pub proof fn lemma_ranking_order_free(
    filter: WordFilter,
    pool1: Seq<Word>,
    pool2: Seq<Word>,
    a: Seq<(Seq<char>, usize)>,
    b: Seq<(Seq<char>, usize)>,
)
    requires
        pool1.to_multiset() == pool2.to_multiset(),
        is_ranking(filter, pool1, a),
        is_ranking(filter, pool2, b),
    ensures
        a == b,
{
    let c1 = candidate_pool(filter, pool1);
    let c2 = candidate_pool(filter, pool2);
    lemma_filter_permutation(pool1, pool2, |w: Word| filter.accepts(w@));
    let f1 = |g: Word| (g@, worst_case(c1, g@) as usize);
    let f2 = |g: Word| (g@, worst_case(c2, g@) as usize);
    assert forall|i: int| 0 <= i < c1.len() implies c1.map_values(f1)[i] == c1.map_values(f2)[i] by {
        lemma_worst_case_permutation(c1, c2, c1[i]@);
    }
    assert(c1.map_values(f1) =~= c1.map_values(f2));
    lemma_map_permutation(c1, c2, f2);
    assert(is_ranking(filter, pool1, b));
    lemma_ranking_unique(filter, pool1, a, b);
}

} // verus!
