use crate::index::{index_matches, index_view, names_of};
use crate::model::{
    decl_names, is_reserved, merge_model, nested_model, rule_model, run_model,
    scan_model, sheet_model, steps_model, token_names, Declaration, Rule, Stylesheet,
};
use crate::order::{lemma_strict_sorted_no_dup, lemma_strict_sorted_unique, strict_sorted};
use crate::usage::UsageEntry;
use crate::model::views_of;
use vstd::prelude::*;

verus! {

/// No name in the mapping's domain carries the reserved prefix.
pub open spec fn no_reserved(m: Map<Seq<char>, Set<Seq<char>>>) -> bool {
    forall|n: Seq<char>| #[trigger] m.dom().contains(n) ==> !is_reserved(n)
}

proof fn lemma_merge_no_reserved(a: Map<Seq<char>, Set<Seq<char>>>, b: Map<Seq<char>, Set<Seq<char>>>)
    requires
        no_reserved(a),
        no_reserved(b),
    ensures
        no_reserved(merge_model(a, b)),
{
}

proof fn lemma_scan_no_reserved(contexts: Seq<Seq<char>>, ds: Seq<Declaration>)
    ensures
        no_reserved(scan_model(contexts, ds)),
{
    assert forall|n: Seq<char>| #[trigger]
        scan_model(contexts, ds).dom().contains(n) implies !is_reserved(n) by {
        let i = choose|i: int| 0 <= i < ds.len() && #[trigger] decl_names(ds[i]).contains(n);
        match ds[i] {
            Declaration::Resolved => {},
            Declaration::Unparsed(toks) => {
                assert(token_names(toks@).contains(n));
            },
        }
    }
}

proof fn lemma_nested_no_reserved(prefix: Seq<char>, rules: Seq<Rule>)
    ensures
        no_reserved(nested_model(prefix, rules)),
    decreases rules.len(),
{
    if rules.len() > 0 {
        lemma_nested_no_reserved(prefix, rules.drop_last());
        match rules.last() {
            Rule::Style { selectors, declarations } => {
                lemma_scan_no_reserved(
                    crate::model::nested_labels(prefix, views_of(selectors@)),
                    declarations@,
                );
                lemma_merge_no_reserved(
                    nested_model(prefix, rules.drop_last()),
                    scan_model(
                        crate::model::nested_labels(prefix, views_of(selectors@)),
                        declarations@,
                    ),
                );
            },
            _ => {},
        }
    }
}

proof fn lemma_steps_no_reserved(label: Seq<char>, steps: Seq<Vec<Declaration>>)
    ensures
        no_reserved(steps_model(label, steps)),
    decreases steps.len(),
{
    if steps.len() > 0 {
        lemma_steps_no_reserved(label, steps.drop_last());
        lemma_scan_no_reserved(seq![label], steps.last()@);
        lemma_merge_no_reserved(
            steps_model(label, steps.drop_last()),
            scan_model(seq![label], steps.last()@),
        );
    }
}

proof fn lemma_rule_no_reserved(r: Rule)
    ensures
        no_reserved(rule_model(r)),
{
    match r {
        Rule::Style { selectors, declarations } => {
            lemma_scan_no_reserved(views_of(selectors@), declarations@);
        },
        Rule::Keyframes { name, steps } => {
            lemma_steps_no_reserved(crate::model::keyframes_label(name@), steps@);
        },
        Rule::Media { condition, rules } => {
            lemma_nested_no_reserved(crate::model::media_prefix(condition@), rules@);
        },
        Rule::Supports { condition, rules } => {
            lemma_nested_no_reserved(crate::model::supports_prefix(condition@), rules@);
        },
        Rule::Container { condition, rules } => {
            lemma_nested_no_reserved(crate::model::container_prefix(condition@), rules@);
        },
        Rule::LayerBlock { name, rules } => {
            lemma_nested_no_reserved(crate::model::layer_prefix(name), rules@);
        },
        Rule::Unsupported { .. } => {},
    }
}

proof fn lemma_sheet_no_reserved(rules: Seq<Rule>)
    ensures
        no_reserved(sheet_model(rules)),
    decreases rules.len(),
{
    if rules.len() > 0 {
        lemma_sheet_no_reserved(rules.drop_last());
        lemma_rule_no_reserved(rules.last());
        lemma_merge_no_reserved(sheet_model(rules.drop_last()), rule_model(rules.last()));
    }
}

proof fn lemma_run_no_reserved(sheets: Seq<Stylesheet>)
    ensures
        no_reserved(run_model(sheets)),
    decreases sheets.len(),
{
    if sheets.len() > 0 {
        lemma_run_no_reserved(sheets.drop_last());
        lemma_sheet_no_reserved(sheets.last().rules@);
        lemma_merge_no_reserved(
            run_model(sheets.drop_last()),
            sheet_model(sheets.last().rules@),
        );
    }
}

/// Law: a reserved-prefix property name (`--__…`) never appears as a key of
/// the finalized index, whatever the stylesheets hold.
pub proof fn lemma_reserved_never_indexed(entries: Seq<UsageEntry>, sheets: Seq<Stylesheet>)
    requires
        index_matches(entries, run_model(sheets)),
    ensures
        forall|i: int| 0 <= i < entries.len() ==> !is_reserved(#[trigger] entries[i].name@),
{
    lemma_run_no_reserved(sheets);
}

/// Law: in a finalized index every property's label sequence is strictly
/// sorted, so it holds no duplicate label.
pub proof fn lemma_labels_sorted_and_unique(entries: Seq<UsageEntry>, m: Map<Seq<char>, Set<Seq<char>>>)
    requires
        index_matches(entries, m),
    ensures
        forall|i: int|
            0 <= i < entries.len() ==> strict_sorted(views_of(#[trigger] entries[i].labels@)),
        forall|i: int, j1: int, j2: int|
            0 <= i < entries.len() && 0 <= j1 < j2 < entries[i].labels@.len()
                ==> entries[i].labels@[j1]@ != entries[i].labels@[j2]@,
{
    assert forall|i: int, j1: int, j2: int|
        0 <= i < entries.len() && 0 <= j1 < j2
            < entries[i].labels@.len() implies entries[i].labels@[j1]@
        != entries[i].labels@[j2]@ by {
        assert(strict_sorted(views_of(entries[i].labels@)));
        lemma_strict_sorted_no_dup(views_of(entries[i].labels@));
        assert(views_of(entries[i].labels@)[j1] == entries[i].labels@[j1]@);
        assert(views_of(entries[i].labels@)[j2] == entries[i].labels@[j2]@);
    }
}

/// Some supplied stylesheet's mapping holds this name.
pub open spec fn some_sheet_has(sheets: Seq<Stylesheet>, n: Seq<char>) -> bool {
    exists|k: int|
        0 <= k < sheets.len() && #[trigger] sheet_model(sheets[k].rules@).dom().contains(n)
}

/// Some supplied stylesheet's mapping holds this label under this name.
pub open spec fn some_sheet_has_label(sheets: Seq<Stylesheet>, n: Seq<char>, l: Seq<char>) -> bool {
    exists|k: int|
        0 <= k < sheets.len() && #[trigger] sheet_model(sheets[k].rules@).dom().contains(n)
            && sheet_model(sheets[k].rules@)[n].contains(l)
}

/// The run's mapping is exactly the pointwise union of the per-stylesheet
/// mappings: membership in it does not depend on stylesheet order.
proof fn lemma_run_model_char(sheets: Seq<Stylesheet>)
    ensures
        forall|n: Seq<char>| #[trigger]
            run_model(sheets).dom().contains(n) <==> some_sheet_has(sheets, n),
        forall|n: Seq<char>, l: Seq<char>|
            run_model(sheets).dom().contains(n) && #[trigger] run_model(sheets)[n].contains(l)
                ==> some_sheet_has_label(sheets, n, l),
        forall|n: Seq<char>, l: Seq<char>| #[trigger]
            some_sheet_has_label(sheets, n, l) ==> run_model(sheets).dom().contains(n)
                && run_model(sheets)[n].contains(l),
    decreases sheets.len(),
{
    if sheets.len() == 0 {
        assert forall|n: Seq<char>| !(#[trigger] run_model(sheets).dom().contains(n)) by {}
        assert forall|n: Seq<char>| !some_sheet_has(sheets, n) by {}
    } else {
        let d = sheets.drop_last();
        let last = sheets.last();
        lemma_run_model_char(d);
        assert(forall|k: int| 0 <= k < d.len() ==> #[trigger] sheets[k] == d[k]);
        assert forall|n: Seq<char>| #[trigger]
            run_model(sheets).dom().contains(n) implies some_sheet_has(sheets, n) by {
            if run_model(d).dom().contains(n) {
                let k = choose|k: int|
                    0 <= k < d.len() && #[trigger] sheet_model(d[k].rules@).dom().contains(n);
                assert(sheet_model(sheets[k].rules@).dom().contains(n));
            } else {
                assert(sheet_model(sheets[sheets.len() - 1].rules@).dom().contains(n));
            }
        }
        assert forall|n: Seq<char>| some_sheet_has(sheets, n) implies #[trigger]
            run_model(sheets).dom().contains(n) by {
            let k = choose|k: int|
                0 <= k < sheets.len() && #[trigger] sheet_model(sheets[k].rules@).dom().contains(
                    n,
                );
            if k < d.len() {
                assert(sheet_model(d[k].rules@).dom().contains(n));
                assert(some_sheet_has(d, n));
                assert(run_model(d).dom().contains(n));
            } else {
                assert(sheets[k] == last);
                assert(sheet_model(last.rules@).dom().contains(n));
            }
        }
        assert forall|n: Seq<char>, l: Seq<char>|
            run_model(sheets).dom().contains(n) && #[trigger] run_model(sheets)[n].contains(
                l,
            ) implies some_sheet_has_label(sheets, n, l) by {
            let md = run_model(d);
            let ml = sheet_model(last.rules@);
            if md.dom().contains(n) && md[n].contains(l) {
                let k = choose|k: int|
                    0 <= k < d.len() && #[trigger] sheet_model(d[k].rules@).dom().contains(n)
                        && sheet_model(d[k].rules@)[n].contains(l);
                assert(sheet_model(sheets[k].rules@).dom().contains(n) && sheet_model(
                    sheets[k].rules@,
                )[n].contains(l));
            } else {
                assert(ml.dom().contains(n) && ml[n].contains(l));
                let k = sheets.len() - 1;
                assert(sheet_model(sheets[k].rules@).dom().contains(n) && sheet_model(
                    sheets[k].rules@,
                )[n].contains(l));
            }
        }
        assert forall|n: Seq<char>, l: Seq<char>| #[trigger]
            some_sheet_has_label(sheets, n, l) implies run_model(sheets).dom().contains(n)
            && run_model(sheets)[n].contains(l) by {
            let k = choose|k: int|
                0 <= k < sheets.len() && #[trigger] sheet_model(sheets[k].rules@).dom().contains(
                    n,
                ) && sheet_model(sheets[k].rules@)[n].contains(l);
            if k < d.len() {
                assert(sheet_model(d[k].rules@).dom().contains(n) && sheet_model(
                    d[k].rules@,
                )[n].contains(l));
                assert(some_sheet_has_label(d, n, l));
                assert(some_sheet_has(d, n));
                assert(run_model(d).dom().contains(n));
                assert(run_model(d)[n].contains(l));
                assert(run_model(sheets).dom().contains(n));
            } else {
                assert(sheets[k] == last);
                assert(sheet_model(last.rules@).dom().contains(n));
                assert(sheet_model(last.rules@)[n].contains(l));
                assert(run_model(sheets).dom().contains(n));
            }
        }
    }
}

/// Law: the accumulated mapping of a run depends only on which stylesheets
/// were supplied, not on their order or how they were grouped into the
/// sequence.
pub proof fn lemma_run_model_order_independent(s1: Seq<Stylesheet>, s2: Seq<Stylesheet>)
    requires
        s1.to_multiset() == s2.to_multiset(),
    ensures
        run_model(s1) == run_model(s2),
{
    broadcast use vstd::seq_lib::group_to_multiset_ensures;

    lemma_run_model_char(s1);
    lemma_run_model_char(s2);
    assert forall|sh: Stylesheet| s1.contains(sh) implies s2.contains(sh) by {
        assert(s1.to_multiset().count(sh) > 0);
    }
    assert forall|sh: Stylesheet| s2.contains(sh) implies s1.contains(sh) by {
        assert(s2.to_multiset().count(sh) > 0);
    }
    assert forall|n: Seq<char>| some_sheet_has(s1, n) implies some_sheet_has(s2, n) by {
        let k = choose|k: int|
            0 <= k < s1.len() && #[trigger] sheet_model(s1[k].rules@).dom().contains(n);
        assert(s1.contains(s1[k]));
        assert(s2.contains(s1[k]));
        let m = choose|m: int| 0 <= m < s2.len() && s2[m] == s1[k];
        assert(sheet_model(s2[m].rules@).dom().contains(n));
    }
    assert forall|n: Seq<char>| some_sheet_has(s2, n) implies some_sheet_has(s1, n) by {
        let k = choose|k: int|
            0 <= k < s2.len() && #[trigger] sheet_model(s2[k].rules@).dom().contains(n);
        assert(s2.contains(s2[k]));
        assert(s1.contains(s2[k]));
        let m = choose|m: int| 0 <= m < s1.len() && s1[m] == s2[k];
        assert(sheet_model(s1[m].rules@).dom().contains(n));
    }
    assert forall|n: Seq<char>, l: Seq<char>| #[trigger]
        some_sheet_has_label(s1, n, l) implies some_sheet_has_label(s2, n, l) by {
        let k = choose|k: int|
            0 <= k < s1.len() && #[trigger] sheet_model(s1[k].rules@).dom().contains(n)
                && sheet_model(s1[k].rules@)[n].contains(l);
        assert(s1.contains(s1[k]));
        assert(s2.contains(s1[k]));
        let m = choose|m: int| 0 <= m < s2.len() && s2[m] == s1[k];
        assert(sheet_model(s2[m].rules@).dom().contains(n) && sheet_model(
            s2[m].rules@,
        )[n].contains(l));
    }
    assert forall|n: Seq<char>, l: Seq<char>| #[trigger]
        some_sheet_has_label(s2, n, l) implies some_sheet_has_label(s1, n, l) by {
        let k = choose|k: int|
            0 <= k < s2.len() && #[trigger] sheet_model(s2[k].rules@).dom().contains(n)
                && sheet_model(s2[k].rules@)[n].contains(l);
        assert(s2.contains(s2[k]));
        assert(s1.contains(s2[k]));
        let m = choose|m: int| 0 <= m < s1.len() && s1[m] == s2[k];
        assert(sheet_model(s1[m].rules@).dom().contains(n) && sheet_model(
            s1[m].rules@,
        )[n].contains(l));
    }
    assert forall|n: Seq<char>|
        run_model(s1).dom().contains(n) implies #[trigger] run_model(s1)[n] =~= run_model(
        s2,
    )[n] by {
        assert forall|l: Seq<char>| #[trigger]
            run_model(s1)[n].contains(l) implies run_model(s2)[n].contains(l) by {
            assert(some_sheet_has_label(s1, n, l));
        }
        assert forall|l: Seq<char>| #[trigger]
            run_model(s2)[n].contains(l) implies run_model(s1)[n].contains(l) by {
            assert(some_sheet_has_label(s2, n, l));
        }
    }
    assert(run_model(s1) =~~= run_model(s2));
}

/// Law: a mapping has only one finalized rendering. Two index entry
/// sequences that both finalize the same mapping agree name for name and
/// label for label.
pub proof fn lemma_index_unique(
    e1: Seq<UsageEntry>,
    e2: Seq<UsageEntry>,
    m: Map<Seq<char>, Set<Seq<char>>>,
)
    requires
        index_matches(e1, m),
        index_matches(e2, m),
    ensures
        index_view(e1) == index_view(e2),
{
    assert forall|x: Seq<char>| names_of(e1).contains(x) implies names_of(e2).contains(x) by {
        let j = choose|j: int| 0 <= j < names_of(e1).len() && names_of(e1)[j] == x;
        assert(e1[j].name@ == x);
        assert(m.dom().contains(x));
        let i = choose|i: int| 0 <= i < e2.len() && e2[i].name@ == x;
        assert(names_of(e2)[i] == x);
    }
    assert forall|x: Seq<char>| names_of(e2).contains(x) implies names_of(e1).contains(x) by {
        let j = choose|j: int| 0 <= j < names_of(e2).len() && names_of(e2)[j] == x;
        assert(e2[j].name@ == x);
        assert(m.dom().contains(x));
        let i = choose|i: int| 0 <= i < e1.len() && e1[i].name@ == x;
        assert(names_of(e1)[i] == x);
    }
    lemma_strict_sorted_unique(names_of(e1), names_of(e2));
    assert(e1.len() == e2.len());
    assert forall|i: int| 0 <= i < e1.len() implies index_view(e1)[i] == index_view(e2)[i] by {
        assert(names_of(e1)[i] == names_of(e2)[i]);
        assert(e1[i].name@ == e2[i].name@);
        let v1 = views_of(e1[i].labels@);
        let v2 = views_of(e2[i].labels@);
        assert(crate::model::str_set(e1[i].labels@) == m[e1[i].name@]);
        assert(crate::model::str_set(e2[i].labels@) == m[e2[i].name@]);
        assert forall|x: Seq<char>| v1.contains(x) implies v2.contains(x) by {
            assert(crate::model::str_set(e1[i].labels@).contains(x));
            assert(m[e1[i].name@].contains(x));
            assert(crate::model::str_set(e2[i].labels@).contains(x));
            let j = choose|j: int| 0 <= j < v2.len() && (#[trigger] v2[j]) == x;
        }
        assert forall|x: Seq<char>| v2.contains(x) implies v1.contains(x) by {
            assert(crate::model::str_set(e2[i].labels@).contains(x));
            assert(m[e2[i].name@].contains(x));
            assert(crate::model::str_set(e1[i].labels@).contains(x));
            let j = choose|j: int| 0 <= j < v1.len() && (#[trigger] v1[j]) == x;
        }
        lemma_strict_sorted_unique(v1, v2);
    }
    assert(index_view(e1) =~= index_view(e2));
}

/// Law: the finalized index is the same, name for name and label for label,
/// for any two runs over the same multiset of stylesheets — aggregation is
/// deterministic and independent of stylesheet order, so repeating a run, in
/// any order, reproduces its output.
pub proof fn lemma_audit_order_independent(
    e1: Seq<UsageEntry>,
    e2: Seq<UsageEntry>,
    s1: Seq<Stylesheet>,
    s2: Seq<Stylesheet>,
)
    requires
        s1.to_multiset() == s2.to_multiset(),
        index_matches(e1, run_model(s1)),
        index_matches(e2, run_model(s2)),
    ensures
        index_view(e1) == index_view(e2),
{
    lemma_run_model_order_independent(s1, s2);
    lemma_index_unique(e1, e2, run_model(s1));
}

} // verus!
