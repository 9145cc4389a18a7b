use crate::model::{run_model, run_warnings, seq_set, str_set, views_of, Stylesheet};
use crate::order::{
    lemma_lex_le_total, lemma_lex_lt_trans, lex_lt, strict_sorted, str_lt,
};
use crate::usage::{keys_unique, lemma_model_at, UsageEntry, UsageMap};
use crate::walk::collect_usages;
use vstd::prelude::*;

verus! {

/// The property names of an entry sequence, in order.
pub open spec fn names_of(entries: Seq<UsageEntry>) -> Seq<Seq<char>> {
    entries.map_values(|e: UsageEntry| e.name@)
}

/// What it means for an entry sequence to be the finalized rendering of a
/// usage mapping: property names strictly sorted, every label list strictly
/// sorted, and the names and label sets exactly those of the mapping. Only
/// one entry sequence (up to views) satisfies this for a given mapping.
pub open spec fn index_matches(entries: Seq<UsageEntry>, m: Map<Seq<char>, Set<Seq<char>>>) -> bool {
    &&& strict_sorted(names_of(entries))
    &&& forall|i: int|
        0 <= i < entries.len() ==> strict_sorted(views_of(#[trigger] entries[i].labels@))
    &&& forall|i: int| 0 <= i < entries.len() ==> m.dom().contains(#[trigger] entries[i].name@)
    &&& forall|n: Seq<char>|
        #[trigger] m.dom().contains(n) ==> exists|i: int|
            0 <= i < entries.len() && entries[i].name@ == n
    &&& forall|i: int|
        0 <= i < entries.len() ==> #[trigger] str_set(entries[i].labels@) == m[entries[i].name@]
}

/// The view of a finalized index: each property name with its label views.
pub open spec fn index_view(entries: Seq<UsageEntry>) -> Seq<(Seq<char>, Seq<Seq<char>>)> {
    entries.map_values(|e: UsageEntry| (e.name@, views_of(e.labels@)))
}

/// The finalized usage index: one entry per referenced custom property, in
/// strictly sorted name order, each holding its sorted, deduplicated labels.
pub struct UsageIndex {
    pub entries: Vec<UsageEntry>,
}

/// Index of the first string not lexicographically below `x`, in a strictly
/// sorted vector.
fn lower_bound(v: &Vec<String>, x: &String) -> (r: usize)
    ensures
        r <= v@.len(),
        forall|k: int| 0 <= k < r ==> lex_lt(#[trigger] v@[k]@, x@),
        r < v@.len() ==> !lex_lt(v@[r as int]@, x@),
{
    let mut i: usize = 0;
    while i < v.len()
        invariant
            i <= v@.len(),
            forall|k: int| 0 <= k < i ==> lex_lt(#[trigger] v@[k]@, x@),
        decreases v@.len() - i,
    {
        if !str_lt(&v[i], x) {
            return i;
        }
        i += 1;
    }
    i
}

/// Insert a label into a strictly sorted label list, keeping it strictly
/// sorted; a label already present is left alone.
fn insert_label(v: &mut Vec<String>, x: &String)
    requires
        strict_sorted(views_of(old(v)@)),
    ensures
        strict_sorted(views_of(final(v)@)),
        seq_set(views_of(final(v)@)) == seq_set(views_of(old(v)@)).insert(x@),
{
    let ghost v0 = old(v)@;
    let i = lower_bound(v, x);
    let dup = i < v.len() && v[i] == *x;
    if dup {
        proof {
            assert(views_of(v0)[i as int] == v0[i as int]@);
            assert(seq_set(views_of(v0)).contains(x@));
            assert(seq_set(views_of(v@)) =~= seq_set(views_of(v0)).insert(x@));
        }
    } else {
        let xc = x.clone();
        v.insert(i, xc);
        proof {
            let w = views_of(v@);
            let wv = views_of(v0);
            assert(v@ == v0.insert(i as int, xc));
            assert forall|k: int| 0 <= k < w.len() implies w[k] == (if k < i {
                wv[k]
            } else if k == i {
                x@
            } else {
                wv[k - 1]
            }) by {
                if k < i {
                    assert(v@[k] == v0[k]);
                } else if k == i {
                    assert(v@[k] == xc);
                } else {
                    assert(v@[k] == v0[k - 1]);
                }
            }
            if i < v0.len() {
                // the element displaced to the right is strictly above x
                lemma_lex_le_total(x@, v0[i as int]@);
                assert(lex_lt(x@, wv[i as int]));
            }
            assert forall|k1: int, k2: int| 0 <= k1 < k2 < w.len() implies lex_lt(
                w[k1],
                w[k2],
            ) by {
                if k2 < i {
                    assert(lex_lt(wv[k1], wv[k2]));
                } else if k2 == i {
                    assert(lex_lt(wv[k1], x@));
                } else if k1 == i {
                    if k2 - 1 > i {
                        lemma_lex_lt_trans(x@, wv[i as int], wv[k2 - 1]);
                    }
                } else if k1 < i {
                    assert(lex_lt(wv[k1], wv[k2 - 1]));
                } else {
                    assert(lex_lt(wv[k1 - 1], wv[k2 - 1]));
                }
            }
            assert forall|l: Seq<char>| seq_set(w).contains(l) implies seq_set(wv).insert(
                x@,
            ).contains(l) by {
                let k = choose|k: int| 0 <= k < w.len() && (#[trigger] w[k]) == l;
                if k != i {
                    let k0: int = if k < i {
                        k
                    } else {
                        k - 1
                    };
                    assert(wv[k0] == l);
                }
            }
            assert forall|l: Seq<char>| seq_set(wv).insert(x@).contains(l) implies seq_set(
                w,
            ).contains(l) by {
                if seq_set(wv).contains(l) {
                    let k = choose|k: int| 0 <= k < wv.len() && (#[trigger] wv[k]) == l;
                    let k1: int = if k < i {
                        k
                    } else {
                        k + 1
                    };
                    assert(w[k1] == l);
                } else {
                    assert(w[i as int] == x@);
                }
            }
            assert(seq_set(w) =~= seq_set(wv).insert(x@));
        }
    }
}

proof fn lemma_str_set_take(ss: Seq<String>, i: int)
    requires
        0 <= i < ss.len(),
    ensures
        str_set(ss.take(i + 1)) == str_set(ss.take(i)).insert(ss[i]@),
{
    let lhs = str_set(ss.take(i + 1));
    let rhs = str_set(ss.take(i)).insert(ss[i]@);
    assert forall|l: Seq<char>| lhs.contains(l) implies rhs.contains(l) by {
        let k = choose|k: int|
            0 <= k < views_of(ss.take(i + 1)).len() && (#[trigger] views_of(ss.take(i + 1))[k])
                == l;
        assert(ss.take(i + 1)[k]@ == l);
        if k < i {
            assert(views_of(ss.take(i))[k] == l);
        }
    }
    assert forall|l: Seq<char>| rhs.contains(l) implies lhs.contains(l) by {
        if str_set(ss.take(i)).contains(l) {
            let k = choose|k: int|
                0 <= k < views_of(ss.take(i)).len() && (#[trigger] views_of(ss.take(i))[k]) == l;
            assert(views_of(ss.take(i + 1))[k] == l);
        } else {
            assert(views_of(ss.take(i + 1))[i] == l);
        }
    }
    assert(lhs =~= rhs);
}

/// Sort a label list lexicographically and remove duplicates: the unique
/// strictly sorted list holding exactly the input's labels.
fn sorted_dedup(labels: &Vec<String>) -> (r: Vec<String>)
    ensures
        strict_sorted(views_of(r@)),
        str_set(r@) == str_set(labels@),
{
    let mut r: Vec<String> = Vec::new();
    proof {
        assert(str_set(r@) =~= str_set(labels@.take(0)));
    }
    let mut i: usize = 0;
    while i < labels.len()
        invariant
            i <= labels.len(),
            strict_sorted(views_of(r@)),
            str_set(r@) == str_set(labels@.take(i as int)),
        decreases labels.len() - i,
    {
        insert_label(&mut r, &labels[i]);
        proof {
            lemma_str_set_take(labels@, i as int);
        }
        i += 1;
    }
    proof {
        assert(labels@.take(labels@.len() as int) =~= labels@);
    }
    r
}

/// Index of the first entry whose name is not lexicographically below `name`,
/// in a vector with strictly sorted names.
fn lower_bound_entry(v: &Vec<UsageEntry>, name: &String) -> (r: usize)
    ensures
        r <= v@.len(),
        forall|k: int| 0 <= k < r ==> lex_lt(#[trigger] v@[k].name@, name@),
        r < v@.len() ==> !lex_lt(v@[r as int].name@, name@),
{
    let mut i: usize = 0;
    while i < v.len()
        invariant
            i <= v@.len(),
            forall|k: int| 0 <= k < i ==> lex_lt(#[trigger] v@[k].name@, name@),
        decreases v@.len() - i,
    {
        if !str_lt(&v[i].name, name) {
            return i;
        }
        i += 1;
    }
    i
}

/// Insert an entry whose name is not yet present, keeping names strictly
/// sorted.
#[verifier::rlimit(100)]
#[verifier::spinoff_prover]
fn insert_entry(v: &mut Vec<UsageEntry>, e: UsageEntry)
    requires
        strict_sorted(names_of(old(v)@)),
        forall|k: int| 0 <= k < old(v)@.len() ==> old(v)@[k].name@ != e.name@,
    ensures
        strict_sorted(names_of(final(v)@)),
        forall|en: UsageEntry| #[trigger] final(v)@.contains(en) ==> old(v)@.contains(en) || en
            == e,
        forall|en: UsageEntry| #[trigger] old(v)@.contains(en) ==> final(v)@.contains(en),
        final(v)@.contains(e),
        seq_set(names_of(final(v)@)) == seq_set(names_of(old(v)@)).insert(e.name@),
{
    let ghost v0 = old(v)@;
    let i = lower_bound_entry(v, &e.name);
    v.insert(i, e);
    proof {
        let w = names_of(v@);
        let wv = names_of(v0);
        assert(v@ == v0.insert(i as int, e));
        assert forall|k: int| 0 <= k < w.len() implies w[k] == (if k < i {
            wv[k]
        } else if k == i {
            e.name@
        } else {
            wv[k - 1]
        }) by {
            if k < i {
                assert(v@[k] == v0[k]);
            } else if k == i {
                assert(v@[k] == e);
            } else {
                assert(v@[k] == v0[k - 1]);
            }
        }
        if i < v0.len() {
            lemma_lex_le_total(e.name@, v0[i as int].name@);
            assert(lex_lt(e.name@, wv[i as int]));
        }
        assert forall|k1: int, k2: int| 0 <= k1 < k2 < w.len() implies lex_lt(w[k1], w[k2]) by {
            if k2 < i {
                assert(lex_lt(wv[k1], wv[k2]));
            } else if k2 == i {
                assert(lex_lt(wv[k1], e.name@));
            } else if k1 == i {
                if k2 - 1 > i {
                    lemma_lex_lt_trans(e.name@, wv[i as int], wv[k2 - 1]);
                }
            } else if k1 < i {
                assert(lex_lt(wv[k1], wv[k2 - 1]));
            } else {
                assert(lex_lt(wv[k1 - 1], wv[k2 - 1]));
            }
        }
        assert forall|en: UsageEntry| v@.contains(en) implies v0.contains(en) || en == e by {
            let k = choose|k: int| 0 <= k < v@.len() && (#[trigger] v@[k]) == en;
            if k != i {
                let k0: int = if k < i {
                    k
                } else {
                    k - 1
                };
                assert(v0[k0] == en);
            }
        }
        assert forall|en: UsageEntry| v0.contains(en) || en == e implies v@.contains(en) by {
            if v0.contains(en) {
                let k = choose|k: int| 0 <= k < v0.len() && (#[trigger] v0[k]) == en;
                let k1: int = if k < i {
                    k
                } else {
                    k + 1
                };
                assert(v@[k1] == en);
            } else {
                assert(v@[i as int] == e);
            }
        }
        assert forall|l: Seq<char>| seq_set(w).contains(l) implies seq_set(wv).insert(
            e.name@,
        ).contains(l) by {
            let k = choose|k: int| 0 <= k < w.len() && (#[trigger] w[k]) == l;
            if k != i {
                let k0: int = if k < i {
                    k
                } else {
                    k - 1
                };
                assert(wv[k0] == l);
            }
        }
        assert forall|l: Seq<char>| seq_set(wv).insert(e.name@).contains(l) implies seq_set(
            w,
        ).contains(l) by {
            if seq_set(wv).contains(l) {
                let k = choose|k: int| 0 <= k < wv.len() && (#[trigger] wv[k]) == l;
                let k1: int = if k < i {
                    k
                } else {
                    k + 1
                };
                assert(w[k1] == l);
            } else {
                assert(w[i as int] == e.name@);
            }
        }
        assert(seq_set(w) =~= seq_set(wv).insert(e.name@));
        assert(v@[i as int] == e);
        assert(v@.contains(e));
    }
}

/// Finalize an accumulation: sort and deduplicate each property's labels,
/// then order the properties by name. The result is the unique sorted
/// rendering of the accumulated mapping.
pub fn finalize(map: &UsageMap) -> (idx: UsageIndex)
    requires
        map.wf(),
    ensures
        index_matches(idx.entries@, map.model()),
{
    let src = &map.entries;
    let mut out: Vec<UsageEntry> = Vec::new();
    let mut k: usize = 0;
    while k < src.len()
        invariant
            k <= src@.len(),
            keys_unique(src@),
            strict_sorted(names_of(out@)),
            forall|j: int|
                0 <= j < out@.len() ==> strict_sorted(views_of(#[trigger] out@[j].labels@)),
            forall|j: int|
                0 <= j < out@.len() ==> exists|t: int|
                    0 <= t < k && src@[t].name@ == #[trigger] out@[j].name@ && str_set(
                        out@[j].labels@,
                    ) == str_set(src@[t].labels@),
            forall|t: int|
                0 <= t < k ==> seq_set(names_of(out@)).contains(#[trigger] src@[t].name@),
        decreases src@.len() - k,
    {
        let ghost out0 = out@;
        let entry = &src[k];
        let labels = sorted_dedup(&entry.labels);
        let e = UsageEntry { name: entry.name.clone(), labels };
        proof {
            assert forall|j: int| 0 <= j < out@.len() implies out@[j].name@ != e.name@ by {
                let t = choose|t: int|
                    0 <= t < k && src@[t].name@ == out@[j].name@ && str_set(out@[j].labels@)
                        == str_set(src@[t].labels@);
                assert(src@[t].name@ != src@[k as int].name@);
            }
        }
        insert_entry(&mut out, e);
        proof {
            assert forall|j: int| 0 <= j < out@.len() implies strict_sorted(
                views_of(#[trigger] out@[j].labels@),
            ) by {
                assert(out@.contains(out@[j]));
                if out@[j] != e {
                    assert(out0.contains(out@[j]));
                    let j0 = choose|j0: int|
                        0 <= j0 < out0.len() && (#[trigger] out0[j0]) == out@[j];
                    assert(strict_sorted(views_of(out0[j0].labels@)));
                }
            }
            assert forall|j: int| 0 <= j < out@.len() implies exists|t: int|
                0 <= t < k + 1 && src@[t].name@ == #[trigger] out@[j].name@ && str_set(
                    out@[j].labels@,
                ) == str_set(src@[t].labels@) by {
                assert(out@.contains(out@[j]));
                if out@[j] == e {
                    assert(src@[k as int].name@ == out@[j].name@ && str_set(out@[j].labels@)
                        == str_set(src@[k as int].labels@));
                } else {
                    assert(out0.contains(out@[j]));
                    let j0 = choose|j0: int| 0 <= j0 < out0.len() && out0[j0] == out@[j];
                    let t = choose|t: int|
                        0 <= t < k && src@[t].name@ == out0[j0].name@ && str_set(out0[j0].labels@)
                            == str_set(src@[t].labels@);
                    assert(0 <= t < k + 1 && src@[t].name@ == out@[j].name@ && str_set(
                        out@[j].labels@,
                    ) == str_set(src@[t].labels@));
                }
            }
            assert forall|t: int| 0 <= t < k + 1 implies seq_set(names_of(out@)).contains(
                #[trigger] src@[t].name@,
            ) by {
                if t < k {
                    assert(seq_set(names_of(out0)).contains(src@[t].name@));
                } else {
                    assert(e.name@ == src@[t].name@);
                }
            }
        }
        k += 1;
    }
    proof {
        let m = map.model();
        assert forall|j: int| 0 <= j < out@.len() implies m.dom().contains(
            #[trigger] out@[j].name@,
        ) && #[trigger] str_set(out@[j].labels@) == m[out@[j].name@] by {
            let t = choose|t: int|
                0 <= t < src@.len() && src@[t].name@ == out@[j].name@ && str_set(out@[j].labels@)
                    == str_set(src@[t].labels@);
            lemma_model_at(src@, t);
        }
        assert forall|n: Seq<char>| #[trigger] m.dom().contains(n) implies exists|i: int|
            0 <= i < out@.len() && out@[i].name@ == n by {
            let t = choose|t: int| 0 <= t < src@.len() && (#[trigger] src@[t].name@) == n;
            assert(seq_set(names_of(out@)).contains(n));
            let j = choose|j: int|
                0 <= j < names_of(out@).len() && (#[trigger] names_of(out@)[j]) == n;
            assert(out@[j].name@ == n);
        }
    }
    UsageIndex { entries: out }
}

/// Audit a set of stylesheets: walk every rule of every sheet in order,
/// aggregate the usages found, and finalize them into the sorted,
/// deduplicated index, alongside the warnings the walk emitted.
pub fn audit_stylesheets(sheets: &Vec<Stylesheet>) -> (r: (UsageIndex, Vec<String>))
    ensures
        index_matches(r.0.entries@, run_model(sheets@)),
        r.1@ == run_warnings(sheets@),
{
    let (map, warnings) = collect_usages(sheets);
    let idx = finalize(&map);
    (idx, warnings)
}

} // verus!
