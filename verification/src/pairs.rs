//! Pair assembly: every vocabulary word with a homophone result contributes
//! one `(word, homophone)` pair per extracted homophone, and the flat singles
//! list gathers every word that appears in any pair.

use vstd::prelude::*;
use crate::vocab::{strictly_sorted, sort_and_dedup};

verus! {

/// After a push, a vector's deep view grows by the pushed element's deep view.
proof fn lemma_deep_view_push<T: DeepView>(v1: Seq<T>, v2: Seq<T>, x: T)
    requires
        v2 == v1.push(x),
    ensures
        Seq::new(v2.len(), |i: int| v2[i].deep_view()) == Seq::new(
            v1.len(),
            |i: int| v1[i].deep_view(),
        ).push(x.deep_view()),
{
    let d1 = Seq::new(v1.len(), |i: int| v1[i].deep_view());
    let d2 = Seq::new(v2.len(), |i: int| v2[i].deep_view());
    assert forall|i: int| 0 <= i < d2.len() implies d2[i] == d1.push(x.deep_view())[i] by {
        if i < v1.len() {
            assert(v2[i] == v1[i]);
        } else {
            assert(v2[i] == x);
        }
    }
    assert(d2 =~= d1.push(x.deep_view()));
}

/// The pairs contributed by one vocabulary word: one pair per extracted
/// homophone, in extraction order; a word with no homophone result
/// contributes nothing.
pub open spec fn pairs_for_word(
    word: Seq<char>,
    result: Option<Seq<Seq<char>>>,
) -> Seq<(Seq<char>, Seq<char>)> {
    match result {
        Option::None => Seq::empty(),
        Option::Some(hs) => hs.map_values(|h: Seq<char>| (word, h)),
    }
}

/// The full pair collection of a sequence of looked-up words, in vocabulary
/// order then extraction order.
pub open spec fn pairs_of(
    lookups: Seq<(Seq<char>, Option<Seq<Seq<char>>>)>,
) -> Seq<(Seq<char>, Seq<char>)>
    decreases lookups.len(),
{
    if lookups.len() == 0 {
        Seq::empty()
    } else {
        pairs_for_word(lookups[0].0, lookups[0].1) + pairs_of(lookups.skip(1))
    }
}

proof fn lemma_pairs_of_push(
    lookups: Seq<(Seq<char>, Option<Seq<Seq<char>>>)>,
    x: (Seq<char>, Option<Seq<Seq<char>>>),
)
    ensures
        pairs_of(lookups.push(x)) == pairs_of(lookups) + pairs_for_word(x.0, x.1),
    decreases lookups.len(),
{
    if lookups.len() == 0 {
        assert(lookups.push(x)[0] == x);
        assert(lookups.push(x).len() == 1);
        assert(lookups.push(x).skip(1) =~= Seq::<(Seq<char>, Option<Seq<Seq<char>>>)>::empty());
        assert(pairs_of(lookups.push(x))
            == pairs_for_word(x.0, x.1) + pairs_of(lookups.push(x).skip(1)));
        assert(pairs_of(lookups.push(x).skip(1))
            =~= Seq::<(Seq<char>, Seq<char>)>::empty());
        assert(pairs_of(lookups) =~= Seq::<(Seq<char>, Seq<char>)>::empty());
        assert(pairs_of(lookups.push(x))
            =~= pairs_of(lookups) + pairs_for_word(x.0, x.1));
    } else {
        assert(lookups.push(x)[0] == lookups[0]);
        assert(lookups.push(x).skip(1) =~= lookups.skip(1).push(x));
        lemma_pairs_of_push(lookups.skip(1), x);
        assert(pairs_of(lookups.push(x))
            =~= pairs_of(lookups) + pairs_for_word(x.0, x.1));
    }
}

/// Walks the looked-up vocabulary in order and emits one pair per extracted
/// homophone, pairing the source word with it; words whose lookup found no
/// homophones are silently dropped. An empty vocabulary yields no pairs.
pub fn make_pairs_of_homophones(
    lookups: &Vec<(String, Option<Vec<String>>)>,
) -> (r: Vec<(String, String)>)
    ensures
        r.deep_view() == pairs_of(lookups.deep_view()),
{
    let ghost lks = lookups.deep_view();
    let mut r: Vec<(String, String)> = Vec::new();
    let mut i: usize = 0;
    proof {
        assert(lks.take(0) =~= Seq::empty());
    }
    while i < lookups.len()
        invariant
            i <= lookups.len(),
            lks == lookups.deep_view(),
            r.deep_view() == pairs_of(lks.take(i as int)),
        decreases lookups.len() - i,
    {
        proof {
            assert(lks.take(i as int + 1) =~= lks.take(i as int).push(lks[i as int]));
            lemma_pairs_of_push(lks.take(i as int), lks[i as int]);
            assert(lookups@[i as int].deep_view() == lks[i as int]);
        }
        let word = &lookups[i].0;
        let ghost homs = pairs_for_word(lks[i as int].0, lks[i as int].1);
        match &lookups[i].1 {
            Option::None => {
                proof {
                    assert(homs =~= Seq::empty());
                    assert(r.deep_view() =~= pairs_of(lks.take(i as int)) + homs);
                }
            },
            Option::Some(hs) => {
                let ghost hsd = hs.deep_view();
                proof {
                    assert(homs == hsd.map_values(|h: Seq<char>| (lks[i as int].0, h)));
                }
                let mut j: usize = 0;
                proof {
                    assert(r.deep_view() =~= pairs_of(lks.take(i as int))
                        + homs.take(0));
                }
                while j < hs.len()
                    invariant
                        j <= hs.len(),
                        lks == lookups.deep_view(),
                        hsd == hs.deep_view(),
                        word@ == lks[i as int].0,
                        0 <= i < lks.len(),
                        homs == pairs_for_word(lks[i as int].0, lks[i as int].1),
                        homs == hsd.map_values(|h: Seq<char>| (lks[i as int].0, h)),
                        r.deep_view() == pairs_of(lks.take(i as int)) + homs.take(j as int),
                    decreases hs.len() - j,
                {
                    let h = hs[j].clone();
                    let ghost r0 = r@;
                    proof {
                        assert(h@ == hsd[j as int]);
                    }
                    r.push((word.clone(), h));
                    proof {
                        assert(r@ == r0.push(r@[r0.len() as int]));
                        lemma_deep_view_push(r0, r@, r@[r0.len() as int]);
                        assert(r@[r0.len() as int].deep_view() == (lks[i as int].0, hsd[j as int]));
                        assert(homs[j as int] == (lks[i as int].0, hsd[j as int]));
                        assert(homs.take(j as int + 1) =~= homs.take(j as int).push(homs[j as int]));
                        assert(r.deep_view() =~= pairs_of(lks.take(i as int))
                            + homs.take(j as int + 1));
                    }
                    j += 1;
                }
                proof {
                    assert(homs.take(hs@.len() as int) =~= homs);
                }
            },
        }
        proof {
            assert(r.deep_view() =~= pairs_of(lks.take(i as int + 1)));
        }
        i += 1;
    }
    proof {
        assert(lks.take(lookups@.len() as int) =~= lks);
    }
    r
}

/// The pair collection with duplicate pairs removed: each pair's first
/// occurrence is kept, in collection order, and later repeats of the exact
/// same `(source, homophone)` pair are dropped.
pub open spec fn dedup_pairs_of(
    ps: Seq<(Seq<char>, Seq<char>)>,
) -> Seq<(Seq<char>, Seq<char>)>
    decreases ps.len(),
{
    if ps.len() == 0 {
        Seq::empty()
    } else if ps.drop_last().contains(ps.last()) {
        dedup_pairs_of(ps.drop_last())
    } else {
        dedup_pairs_of(ps.drop_last()).push(ps.last())
    }
}

/// Removing duplicate pairs keeps exactly the pairs that occur.
pub proof fn lemma_dedup_pairs_membership(ps: Seq<(Seq<char>, Seq<char>)>, x: (Seq<char>, Seq<char>))
    ensures
        dedup_pairs_of(ps).contains(x) == ps.contains(x),
    decreases ps.len(),
{
    if ps.len() > 0 {
        lemma_dedup_pairs_membership(ps.drop_last(), x);
        assert(ps.contains(x) == (ps.drop_last().contains(x) || x == ps.last())) by {
            if ps.contains(x) {
                let i = choose|i: int| 0 <= i < ps.len() && ps[i] == x;
                if i < ps.len() - 1 {
                    assert(ps.drop_last()[i] == x);
                }
            }
            if ps.drop_last().contains(x) {
                let i = choose|i: int| 0 <= i < ps.drop_last().len() && ps.drop_last()[i] == x;
                assert(ps[i] == x);
            }
            if x == ps.last() {
                assert(ps[ps.len() - 1] == x);
            }
        }
        if !ps.drop_last().contains(ps.last()) {
            vstd::seq_lib::lemma_seq_contains_after_push(
                dedup_pairs_of(ps.drop_last()),
                ps.last(),
                x,
            );
        }
    }
}

/// A deduplicated pair collection holds no pair twice.
pub proof fn lemma_dedup_pairs_distinct(ps: Seq<(Seq<char>, Seq<char>)>)
    ensures
        forall|i: int, j: int|
            0 <= i < j < dedup_pairs_of(ps).len() ==> dedup_pairs_of(ps)[i] != dedup_pairs_of(
                ps,
            )[j],
    decreases ps.len(),
{
    if ps.len() > 0 {
        lemma_dedup_pairs_distinct(ps.drop_last());
        if !ps.drop_last().contains(ps.last()) {
            let init = dedup_pairs_of(ps.drop_last());
            let whole = dedup_pairs_of(ps);
            lemma_dedup_pairs_membership(ps.drop_last(), ps.last());
            assert forall|i: int, j: int| 0 <= i < j < whole.len()
                implies whole[i] != whole[j] by {
                if j < init.len() {
                    assert(whole[i] == init[i]);
                    assert(whole[j] == init[j]);
                } else {
                    assert(whole[j] == ps.last());
                    assert(whole[i] == init[i]);
                    if init[i] == ps.last() {
                        assert(init.contains(ps.last()));
                    }
                }
            }
        }
    }
}

/// Tells whether `p` occurs in `v`, by exact equality of both words.
fn contains_pair(v: &Vec<(String, String)>, p: &(String, String)) -> (r: bool)
    ensures
        r == v.deep_view().contains((p.0@, p.1@)),
{
    let ghost vd = v.deep_view();
    let mut k: usize = 0;
    while k < v.len()
        invariant
            k <= v.len(),
            vd == v.deep_view(),
            forall|m: int| 0 <= m < k ==> vd[m] != (p.0@, p.1@),
        decreases v.len() - k,
    {
        if v[k].0 == p.0 && v[k].1 == p.1 {
            proof {
                assert(vd[k as int] == (p.0@, p.1@));
            }
            return true;
        }
        proof {
            assert(vd[k as int] == (v@[k as int].0@, v@[k as int].1@));
        }
        k += 1;
    }
    proof {
        if vd.contains((p.0@, p.1@)) {
            let m = choose|m: int| 0 <= m < vd.len() && vd[m] == (p.0@, p.1@);
            assert(false);
        }
    }
    false
}

/// Drops every later repeat of an already seen pair, keeping first
/// occurrences in collection order.
pub fn dedupe_pairs(pairs: &Vec<(String, String)>) -> (r: Vec<(String, String)>)
    ensures
        r.deep_view() == dedup_pairs_of(pairs.deep_view()),
{
    let ghost ps = pairs.deep_view();
    let mut r: Vec<(String, String)> = Vec::new();
    let mut i: usize = 0;
    proof {
        assert(ps.take(0) =~= Seq::<(Seq<char>, Seq<char>)>::empty());
    }
    while i < pairs.len()
        invariant
            i <= pairs.len(),
            ps == pairs.deep_view(),
            r.deep_view() == dedup_pairs_of(ps.take(i as int)),
        decreases pairs.len() - i,
    {
        proof {
            assert(ps.take(i as int + 1).drop_last() =~= ps.take(i as int));
            assert(ps.take(i as int + 1).last() == ps[i as int]);
            assert((pairs@[i as int].0@, pairs@[i as int].1@) == ps[i as int]);
            lemma_dedup_pairs_membership(ps.take(i as int), ps[i as int]);
        }
        let seen = contains_pair(&r, &pairs[i]);
        if !seen {
            let w0 = pairs[i].0.clone();
            let w1 = pairs[i].1.clone();
            let ghost r0 = r@;
            let ghost dv_pre = r.deep_view();
            proof {
                assert(dv_pre.len() == r0.len());
                assert(forall|k: int| 0 <= k < r0.len() ==> #[trigger] dv_pre[k] == r0[k].deep_view());
            }
            r.push((w0, w1));
            proof {
                assert(r@ == r0.push(r@[r0.len() as int]));
                assert(r@[r0.len() as int].deep_view() == ps[i as int]);
                assert forall|k: int| 0 <= k < r.deep_view().len()
                    implies r.deep_view()[k] == dedup_pairs_of(ps.take(i as int + 1))[k] by {
                    assert(r.deep_view()[k] == r@[k].deep_view());
                    if k < r0.len() {
                        assert(r@[k] == r0[k]);
                        assert(dv_pre[k] == dedup_pairs_of(ps.take(i as int))[k]);
                    }
                }
                assert(r.deep_view() =~= dedup_pairs_of(ps.take(i as int + 1)));
            }
        }
        i += 1;
    }
    proof {
        assert(ps.take(pairs@.len() as int) =~= ps);
    }
    r
}

/// The set of words appearing as either element of any pair.
pub open spec fn words_of(pairs: Seq<(Seq<char>, Seq<char>)>) -> Set<Seq<char>> {
    Set::new(
        |w: Seq<char>|
            exists|i: int| 0 <= i < pairs.len() && (pairs[i].0 == w || pairs[i].1 == w),
    )
}

/// Flattens every pair into its two words and returns them sorted ascending
/// and deduplicated, exactly as the vocabulary loader normalizes its lines.
/// A harvested homophone appears here even if it was never an input word.
pub fn singularize(pairs_of_homophones: &Vec<(String, String)>) -> (r: Vec<String>)
    ensures
        strictly_sorted(r.deep_view()),
        r.deep_view().to_set() == words_of(pairs_of_homophones.deep_view()),
{
    let ghost ps = pairs_of_homophones.deep_view();
    let mut homophones: Vec<String> = Vec::new();
    let mut i: usize = 0;
    while i < pairs_of_homophones.len()
        invariant
            i <= pairs_of_homophones.len(),
            ps == pairs_of_homophones.deep_view(),
            homophones.deep_view().to_set() == words_of(ps.take(i as int)),
        decreases pairs_of_homophones.len() - i,
    {
        let w0 = pairs_of_homophones[i].0.clone();
        let w1 = pairs_of_homophones[i].1.clone();
        proof {
            assert((w0@, w1@) == ps[i as int]);
        }
        let ghost h0 = homophones@;
        homophones.push(w0);
        proof {
            assert(homophones@ == h0.push(homophones@[h0.len() as int]));
            lemma_deep_view_push(h0, homophones@, homophones@[h0.len() as int]);
            Seq::new(h0.len(), |k: int| h0[k].deep_view()).lemma_push_to_set_commute(
                ps[i as int].0,
            );
        }
        let ghost h1 = homophones@;
        homophones.push(w1);
        proof {
            assert(homophones@ == h1.push(homophones@[h1.len() as int]));
            lemma_deep_view_push(h1, homophones@, homophones@[h1.len() as int]);
            Seq::new(h1.len(), |k: int| h1[k].deep_view()).lemma_push_to_set_commute(
                ps[i as int].1,
            );
            assert(homophones.deep_view().to_set() =~= words_of(ps.take(i as int + 1))) by {
                let before = words_of(ps.take(i as int));
                let after = words_of(ps.take(i as int + 1));
                assert(homophones.deep_view().to_set()
                    == before.insert(ps[i as int].0).insert(ps[i as int].1));
                let t1 = ps.take(i as int + 1);
                let t0 = ps.take(i as int);
                assert forall|w: Seq<char>| after.contains(w)
                    implies before.insert(ps[i as int].0).insert(ps[i as int].1).contains(w) by {
                    let k = choose|k: int|
                        0 <= k < t1.len() && (#[trigger] t1[k].0 == w || t1[k].1 == w);
                    if k < i {
                        assert(t0[k] == ps[k]);
                        assert(before.contains(w));
                    }
                }
                assert forall|w: Seq<char>|
                    before.insert(ps[i as int].0).insert(ps[i as int].1).contains(w)
                    implies after.contains(w) by {
                    if before.contains(w) {
                        let k = choose|k: int|
                            0 <= k < t0.len() && (#[trigger] t0[k].0 == w || t0[k].1 == w);
                        assert(t1[k] == ps[k]);
                    } else {
                        assert(t1[i as int] == ps[i as int]);
                    }
                }
            }
        }
        i += 1;
    }
    proof {
        assert(ps.take(pairs_of_homophones@.len() as int) =~= ps);
    }
    sort_and_dedup(&mut homophones)
}

} // verus!
