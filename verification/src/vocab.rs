//! Vocabulary normalization: the raw lines gathered from the word-list files
//! are sorted lexicographically and deduplicated into the vocabulary the rest
//! of the pipeline walks.

use vstd::prelude::*;
use crate::order::{lex_lt, lemma_lex_lt_total, lemma_lex_lt_asym, lemma_lex_lt_trans,
    lemma_lex_lt_irrefl, str_lt};

verus! {

/// The words stand in strictly ascending lexicographic order; in particular
/// no two entries are equal.
pub open spec fn strictly_sorted(s: Seq<Seq<char>>) -> bool {
    forall|i: int, j: int| 0 <= i < j < s.len() ==> lex_lt(s[i], s[j])
}

/// `out` is the vocabulary built from the raw lines `inp`: sorted ascending,
/// duplicate-free, and holding exactly the words that occur in `inp`.
pub open spec fn is_canonical_form_of(out: Seq<Seq<char>>, inp: Seq<Seq<char>>) -> bool {
    &&& strictly_sorted(out)
    &&& out.to_set() == inp.to_set()
}

/// A strictly sorted vocabulary contains no duplicate entries.
pub proof fn lemma_strictly_sorted_distinct(s: Seq<Seq<char>>)
    requires
        strictly_sorted(s),
    ensures
        forall|i: int, j: int| 0 <= i < j < s.len() ==> s[i] != s[j],
{
    assert forall|i: int, j: int| 0 <= i < j < s.len() implies s[i] != s[j] by {
        lemma_lex_lt_irrefl(s[i], s[j]);
    }
}

/// The first entry of a strictly sorted vocabulary is its least member.
proof fn lemma_first_is_least(s: Seq<Seq<char>>, x: Seq<char>)
    requires
        strictly_sorted(s),
        s.len() > 0,
        s.to_set().contains(x),
        x != s[0],
    ensures
        lex_lt(s[0], x),
{
    let i = choose|i: int| 0 <= i < s.len() && s[i] == x;
    assert(lex_lt(s[0], s[i]));
}

/// Dropping the first entry of a strictly sorted vocabulary leaves a strictly
/// sorted vocabulary whose member set is the old one without that entry.
proof fn lemma_strictly_sorted_skip_first(s: Seq<Seq<char>>)
    requires
        strictly_sorted(s),
        s.len() > 0,
    ensures
        strictly_sorted(s.skip(1)),
        s.skip(1).to_set() == s.to_set().remove(s[0]),
{
    assert forall|i: int, j: int| 0 <= i < j < s.skip(1).len()
        implies lex_lt(s.skip(1)[i], s.skip(1)[j]) by {
        assert(s.skip(1)[i] == s[i + 1]);
        assert(s.skip(1)[j] == s[j + 1]);
    }
    assert(s.skip(1).to_set() =~= s.to_set().remove(s[0])) by {
        assert forall|x: Seq<char>| s.skip(1).to_set().contains(x)
            implies s.to_set().remove(s[0]).contains(x) by {
            let i = choose|i: int| 0 <= i < s.skip(1).len() && s.skip(1)[i] == x;
            assert(s[i + 1] == x);
            lemma_lex_lt_irrefl(s[0], s[i + 1]);
        }
        assert forall|x: Seq<char>| s.to_set().remove(s[0]).contains(x)
            implies s.skip(1).to_set().contains(x) by {
            let i = choose|i: int| 0 <= i < s.len() && s[i] == x;
            assert(i >= 1);
            assert(s.skip(1)[i - 1] == x);
        }
    }
}

/// A member set determines the sorted, duplicate-free vocabulary: two
/// strictly sorted sequences with the same member set are identical.
pub proof fn lemma_strictly_sorted_unique(a: Seq<Seq<char>>, b: Seq<Seq<char>>)
    requires
        strictly_sorted(a),
        strictly_sorted(b),
        a.to_set() == b.to_set(),
    ensures
        a == b,
    decreases a.len(),
{
    if a.len() == 0 {
        if b.len() > 0 {
            assert(b.to_set().contains(b[0]));
            assert(a.contains(b[0]));
        }
        assert(a =~= b);
    } else {
        assert(a.to_set().contains(a[0]));
        assert(b.to_set().contains(a[0]));
        assert(b.len() > 0);
        if a[0] != b[0] {
            lemma_first_is_least(b, a[0]);
            lemma_first_is_least(a, b[0]);
            lemma_lex_lt_asym(a[0], b[0]);
            assert(false);
        }
        lemma_strictly_sorted_skip_first(a);
        lemma_strictly_sorted_skip_first(b);
        lemma_strictly_sorted_unique(a.skip(1), b.skip(1));
        assert(a =~= b) by {
            assert(a.skip(1).len() == a.len() - 1);
            assert(b.skip(1).len() == b.len() - 1);
            assert forall|i: int| 0 <= i < a.len() implies a[i] == b[i] by {
                if i >= 1 {
                    assert(a[i] == a.skip(1)[i - 1]);
                    assert(b[i] == b.skip(1)[i - 1]);
                }
            }
        }
    }
}

/// Normalizing raw lines is deterministic: any two canonical vocabularies of
/// the same lines are identical, so loading the same files twice yields the
/// same vocabulary.
pub proof fn lemma_canonical_form_unique(
    a: Seq<Seq<char>>,
    b: Seq<Seq<char>>,
    lines: Seq<Seq<char>>,
)
    requires
        is_canonical_form_of(a, lines),
        is_canonical_form_of(b, lines),
    ensures
        a == b,
{
    lemma_strictly_sorted_unique(a, b);
}

/// Normalizing is idempotent: the canonical form of an already canonical
/// vocabulary is that vocabulary itself.
pub proof fn lemma_canonical_form_idempotent(v: Seq<Seq<char>>, w: Seq<Seq<char>>)
    requires
        strictly_sorted(v),
        is_canonical_form_of(w, v),
    ensures
        w == v,
{
    lemma_canonical_form_unique(w, v, v);
}

/// Inserts `s` into the sorted, duplicate-free `v` at its position, or leaves
/// `v` unchanged when `s` is already present.
fn insert_unique(v: &mut Vec<String>, s: String)
    requires
        strictly_sorted(old(v).deep_view()),
    ensures
        strictly_sorted(final(v).deep_view()),
        final(v).deep_view().to_set() == old(v).deep_view().to_set().insert(s@),
{
    let ghost dv0 = v.deep_view();
    let mut j: usize = 0;
    while j < v.len() && str_lt(v[j].as_str(), s.as_str())
        invariant
            j <= v.len(),
            v == old(v),
            dv0 == v.deep_view(),
            forall|k: int| 0 <= k < j ==> lex_lt(dv0[k], s@),
        decreases v.len() - j,
    {
        proof {
            assert(dv0[j as int] == v@[j as int]@);
        }
        j += 1;
    }
    if j < v.len() && v[j] == s {
        proof {
            assert(dv0[j as int] == s@);
            assert(dv0.to_set().contains(s@));
            assert(dv0.to_set().insert(s@) =~= dv0.to_set());
        }
        return;
    }
    proof {
        if j < v.len() {
            lemma_lex_lt_total(dv0[j as int], s@);
        }
    }
    v.insert(j, s);
    proof {
        let dv1 = v.deep_view();
        dv0.insert_ensures(j as int, s@);
        assert(dv1 =~= dv0.insert(j as int, s@)) by {
            assert(v@ == old(v)@.insert(j as int, s));
            old(v)@.insert_ensures(j as int, s);
            assert forall|i: int| 0 <= i < dv1.len()
                implies dv1[i] == dv0.insert(j as int, s@)[i] by {
                assert(dv1[i] == v@[i]@);
            }
        }
        assert forall|i1: int, i2: int| 0 <= i1 < i2 < dv1.len()
            implies lex_lt(dv1[i1], dv1[i2]) by {
            if i2 < j {
                assert(lex_lt(dv0[i1], dv0[i2]));
            } else if i1 < j && i2 == j {
                assert(lex_lt(dv0[i1], s@));
            } else if i1 < j && i2 > j {
                assert(lex_lt(dv0[i1], dv0[i2 - 1]));
            } else if i1 == j && i2 > j {
                if i2 - 1 == j {
                    assert(lex_lt(s@, dv0[j as int]));
                } else {
                    lemma_lex_lt_trans(s@, dv0[j as int], dv0[i2 - 1]);
                }
            } else {
                assert(i1 > j);
                assert(lex_lt(dv0[i1 - 1], dv0[i2 - 1]));
            }
        }
        assert(dv1.to_set() =~= dv0.to_set().insert(s@)) by {
            assert forall|x: Seq<char>| dv1.to_set().contains(x)
                implies dv0.to_set().insert(s@).contains(x) by {
                let i = choose|i: int| 0 <= i < dv1.len() && dv1[i] == x;
                if i < j {
                    assert(dv0[i] == x);
                } else if i > j {
                    assert(dv0[i - 1] == x);
                }
            }
            assert forall|x: Seq<char>| dv0.to_set().insert(s@).contains(x)
                implies dv1.to_set().contains(x) by {
                if x == s@ {
                    assert(dv1[j as int] == x);
                } else {
                    let i = choose|i: int| 0 <= i < dv0.len() && dv0[i] == x;
                    if i < j {
                        assert(dv1[i] == x);
                    } else {
                        assert(dv1[i + 1] == x);
                    }
                }
            }
        }
    }
}

/// Sorts the gathered lines ascending and removes duplicates, leaving `list`
/// itself in that canonical form and returning a copy of it. This is the
/// whole normalization the loader applies: entries are kept verbatim.
pub fn sort_and_dedup(list: &mut Vec<String>) -> (r: Vec<String>)
    ensures
        is_canonical_form_of(r.deep_view(), old(list).deep_view()),
        final(list).deep_view() == r.deep_view(),
{
    let ghost lines = list.deep_view();
    let mut out: Vec<String> = Vec::new();
    let mut i: usize = 0;
    while i < list.len()
        invariant
            i <= list.len(),
            list@ == old(list)@,
            lines == list.deep_view(),
            strictly_sorted(out.deep_view()),
            out.deep_view().to_set() == lines.take(i as int).to_set(),
        decreases list.len() - i,
    {
        let w = list[i].clone();
        proof {
            assert(w@ == lines[i as int]);
            assert(lines.take(i as int + 1) =~= lines.take(i as int).push(w@));
            lines.take(i as int).lemma_push_to_set_commute(w@);
        }
        insert_unique(&mut out, w);
        i += 1;
    }
    proof {
        assert(lines.take(list@.len() as int) =~= lines);
    }
    let mut copy: Vec<String> = Vec::new();
    let mut k: usize = 0;
    while k < out.len()
        invariant
            k <= out.len(),
            copy.deep_view() == out.deep_view().take(k as int),
        decreases out.len() - k,
    {
        let w = out[k].clone();
        proof {
            assert(w@ == out.deep_view()[k as int]);
        }
        let ghost c0 = copy@;
        let ghost dv_pre = copy.deep_view();
        proof {
            assert(dv_pre.len() == c0.len());
            assert(dv_pre.len() == k as int);
            assert(forall|i: int| 0 <= i < c0.len() ==> #[trigger] dv_pre[i] == c0[i]@);
        }
        copy.push(w);
        proof {
            assert(copy@ == c0.push(w));
            assert forall|i: int| 0 <= i < copy.deep_view().len()
                implies copy.deep_view()[i] == out.deep_view().take(k as int + 1)[i] by {
                assert(copy.deep_view()[i] == copy@[i]@);
                if i < k {
                    assert(copy@[i] == c0[i]);
                    assert(dv_pre[i] == out.deep_view().take(k as int)[i]);
                } else {
                    assert(copy@[i] == w);
                }
            }
            assert(copy.deep_view() =~= out.deep_view().take(k as int + 1));
        }
        k += 1;
    }
    proof {
        assert(out.deep_view().take(out@.len() as int) =~= out.deep_view());
    }
    *list = copy;
    out
}

} // verus!
