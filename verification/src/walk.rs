use crate::model::{
    container_prefix, keyframes_label, layer_prefix, media_prefix, merge_model, nest_sep,
    nested_label, nested_labels, rule_model, rule_warnings, run_model, run_warnings, scan_model,
    sheet_model, sheet_warnings, steps_model, supports_prefix, views_of, Declaration, Rule,
    Stylesheet,
};
use crate::scan::scan_declarations;
use crate::usage::{lemma_merge_assoc, lemma_merge_empty, UsageMap};
use vstd::prelude::*;
use vstd::string::StringExecFns;

verus! {

/// The `@keyframes <name>` context label of a keyframes rule.
fn keyframes_context(name: &String) -> (r: String)
    ensures
        r@ == keyframes_label(name@),
{
    let r = String::from_str("@keyframes ").concat(name.as_str());
    r
}

/// The context labels of a style rule nested under a conditional/grouping
/// rule: the serialized at-rule prefix, a newline and indent, then the
/// selector, one label per selector.
fn nested_contexts(prefix: &String, selectors: &Vec<String>) -> (r: Vec<String>)
    ensures
        views_of(r@) == nested_labels(prefix@, views_of(selectors@)),
{
    let mut r: Vec<String> = Vec::new();
    let mut i: usize = 0;
    while i < selectors.len()
        invariant
            i <= selectors.len(),
            views_of(r@) == nested_labels(prefix@, views_of(selectors@.take(i as int))),
        decreases selectors.len() - i,
    {
        let cloned = prefix.clone();
        proof {
            assert(cloned@ == prefix@);
        }
        let withsep = cloned.concat("\n    ");
        proof {
            assert("\n    "@ == nest_sep());
            assert(withsep@ == prefix@ + nest_sep());
        }
        let label = withsep.concat(selectors[i].as_str());
        proof {
            assert(label@ =~= nested_label(prefix@, selectors@[i as int]@));
        }
        let ghost r0 = r@;
        r.push(label);
        proof {
            let lhs = views_of(r@);
            let rhs = nested_labels(prefix@, views_of(selectors@.take(i + 1 as int)));
            assert(r@ == r0.push(label));
            assert(views_of(r@).len() == r0.len() + 1);
            assert(views_of(r0).len() == r0.len());
            assert(nested_labels(prefix@, views_of(selectors@.take(i as int))).len() == i as int);
            assert(r0.len() == i as int);
            assert(rhs.len() == i + 1);
            assert(lhs.len() == rhs.len());
            assert forall|k: int| 0 <= k < lhs.len() implies lhs[k] == rhs[k] by {
                assert(lhs[k] == r@[k]@);
                assert(rhs[k] == nested_label(prefix@, views_of(selectors@.take(i + 1 as int))[k]));
                assert(views_of(selectors@.take(i + 1 as int))[k] == selectors@.take(
                    i + 1 as int,
                )[k]@);
                if k < i {
                    assert(r@[k] == r0[k]);
                    assert(views_of(r0)[k] == r0[k]@);
                    assert(views_of(r0)[k] == nested_labels(
                        prefix@,
                        views_of(selectors@.take(i as int)),
                    )[k]);
                    assert(views_of(selectors@.take(i as int))[k] == selectors@.take(
                        i as int,
                    )[k]@);
                } else {
                    assert(r@[k] == label);
                }
            }
            assert(lhs =~= rhs);
        }
        i += 1;
    }
    proof {
        assert(selectors@.take(selectors@.len() as int) =~= selectors@);
    }
    r
}

proof fn lemma_nested_take(prefix: Seq<char>, rules: Seq<Rule>, k: int)
    requires
        0 <= k < rules.len(),
    ensures
        crate::model::nested_model(prefix, rules.take(k + 1)) == (match rules[k] {
            Rule::Style { selectors, declarations } => merge_model(
                crate::model::nested_model(prefix, rules.take(k)),
                scan_model(nested_labels(prefix, views_of(selectors@)), declarations@),
            ),
            _ => crate::model::nested_model(prefix, rules.take(k)),
        }),
{
    let t = rules.take(k + 1);
    assert(t.drop_last() =~= rules.take(k));
    assert(t.last() == rules[k]);
}

proof fn lemma_steps_take(label: Seq<char>, steps: Seq<Vec<Declaration>>, k: int)
    requires
        0 <= k < steps.len(),
    ensures
        steps_model(label, steps.take(k + 1)) == merge_model(
            steps_model(label, steps.take(k)),
            scan_model(seq![label], steps[k]@),
        ),
{
    let t = steps.take(k + 1);
    assert(t.drop_last() =~= steps.take(k));
    assert(t.last() == steps[k]);
}

proof fn lemma_sheet_take(rules: Seq<Rule>, k: int)
    requires
        0 <= k < rules.len(),
    ensures
        sheet_model(rules.take(k + 1)) == merge_model(
            sheet_model(rules.take(k)),
            rule_model(rules[k]),
        ),
        sheet_warnings(rules.take(k + 1)) == sheet_warnings(rules.take(k)) + rule_warnings(
            rules[k],
        ),
{
    let t = rules.take(k + 1);
    assert(t.drop_last() =~= rules.take(k));
    assert(t.last() == rules[k]);
}

proof fn lemma_run_take(sheets: Seq<Stylesheet>, k: int)
    requires
        0 <= k < sheets.len(),
    ensures
        run_model(sheets.take(k + 1)) == merge_model(
            run_model(sheets.take(k)),
            sheet_model(sheets[k].rules@),
        ),
        run_warnings(sheets.take(k + 1)) == run_warnings(sheets.take(k)) + sheet_warnings(
            sheets[k].rules@,
        ),
{
    let t = sheets.take(k + 1);
    assert(t.drop_last() =~= sheets.take(k));
    assert(t.last() == sheets[k]);
}

/// Walk the style rules directly nested under a conditional/grouping rule,
/// scanning each under its prefixed labels; deeper conditional rules are not
/// descended into.
fn walk_nested(acc: &mut UsageMap, prefix: &String, rules: &Vec<Rule>)
    requires
        old(acc).wf(),
    ensures
        final(acc).wf(),
        final(acc).model() == merge_model(
            old(acc).model(),
            crate::model::nested_model(prefix@, rules@),
        ),
{
    let ghost m0 = old(acc).model();
    proof {
        assert(crate::model::nested_model(prefix@, rules@.take(0)) =~~= Map::<
            Seq<char>,
            Set<Seq<char>>,
        >::empty());
        lemma_merge_empty(m0);
    }
    let mut k: usize = 0;
    while k < rules.len()
        invariant
            k <= rules.len(),
            acc.wf(),
            acc.model() == merge_model(
                m0,
                crate::model::nested_model(prefix@, rules@.take(k as int)),
            ),
        decreases rules.len() - k,
    {
        let ghost part = crate::model::nested_model(prefix@, rules@.take(k as int));
        match &rules[k] {
            Rule::Style { selectors, declarations } => {
                let ctxs = nested_contexts(prefix, selectors);
                let m = scan_declarations(&ctxs, declarations);
                acc.merge_from(&m);
                proof {
                    lemma_nested_take(prefix@, rules@, k as int);
                    lemma_merge_assoc(
                        m0,
                        part,
                        scan_model(nested_labels(prefix@, views_of(selectors@)), declarations@),
                    );
                }
            },
            _ => {
                proof {
                    lemma_nested_take(prefix@, rules@, k as int);
                }
            },
        }
        k += 1;
    }
    proof {
        assert(rules@.take(rules@.len() as int) =~= rules@);
    }
}

/// Walk one rule: build its context labels, scan the declarations it
/// (directly) holds, and merge what was found into the running accumulation;
/// unsupported rule kinds append their warning instead.
pub fn walk_rule(acc: &mut UsageMap, warnings: &mut Vec<String>, r: &Rule)
    requires
        old(acc).wf(),
    ensures
        final(acc).wf(),
        final(acc).model() == merge_model(old(acc).model(), rule_model(*r)),
        final(warnings)@ == old(warnings)@ + rule_warnings(*r),
{
    let ghost m0 = old(acc).model();
    match r {
        Rule::Style { selectors, declarations } => {
            let m = scan_declarations(selectors, declarations);
            acc.merge_from(&m);
            proof {
                assert(warnings@ =~= old(warnings)@ + rule_warnings(*r));
            }
        },
        Rule::Keyframes { name, steps } => {
            let ctx = keyframes_context(name);
            let ghost label = keyframes_label(name@);
            let mut ctxs: Vec<String> = Vec::new();
            ctxs.push(ctx);
            proof {
                assert(views_of(ctxs@) =~= seq![label]);
                assert(steps_model(label, steps@.take(0)) =~~= Map::<
                    Seq<char>,
                    Set<Seq<char>>,
                >::empty());
                lemma_merge_empty(m0);
            }
            let mut k: usize = 0;
            while k < steps.len()
                invariant
                    k <= steps.len(),
                    acc.wf(),
                    views_of(ctxs@) == seq![label],
                    acc.model() == merge_model(m0, steps_model(label, steps@.take(k as int))),
                decreases steps.len() - k,
            {
                let ghost part = steps_model(label, steps@.take(k as int));
                let m = scan_declarations(&ctxs, &steps[k]);
                acc.merge_from(&m);
                proof {
                    lemma_steps_take(label, steps@, k as int);
                    lemma_merge_assoc(m0, part, scan_model(seq![label], steps@[k as int]@));
                }
                k += 1;
            }
            proof {
                assert(steps@.take(steps@.len() as int) =~= steps@);
                assert(warnings@ =~= old(warnings)@ + rule_warnings(*r));
            }
        },
        Rule::Media { condition, rules } => {
            let prefix = String::from_str("@media ").concat(condition.as_str());
            proof {
                assert(prefix@ == media_prefix(condition@));
            }
            walk_nested(acc, &prefix, rules);
            proof {
                assert(warnings@ =~= old(warnings)@ + rule_warnings(*r));
            }
        },
        Rule::Supports { condition, rules } => {
            let prefix = String::from_str("@supports ").concat(condition.as_str());
            proof {
                assert(prefix@ == supports_prefix(condition@));
            }
            walk_nested(acc, &prefix, rules);
            proof {
                assert(warnings@ =~= old(warnings)@ + rule_warnings(*r));
            }
        },
        Rule::Container { condition, rules } => {
            let prefix = String::from_str("@container ").concat(condition.as_str());
            proof {
                assert(prefix@ == container_prefix(condition@));
            }
            walk_nested(acc, &prefix, rules);
            proof {
                assert(warnings@ =~= old(warnings)@ + rule_warnings(*r));
            }
        },
        Rule::LayerBlock { name, rules } => {
            let prefix = match name {
                Option::Some(n) => String::from_str("@layer ").concat(n.as_str()),
                Option::None => String::from_str("@layer"),
            };
            proof {
                assert(prefix@ == layer_prefix(*name));
            }
            walk_nested(acc, &prefix, rules);
            proof {
                assert(warnings@ =~= old(warnings)@ + rule_warnings(*r));
            }
        },
        Rule::Unsupported { message } => {
            warnings.push(message.clone());
            proof {
                lemma_merge_empty(m0);
                assert(warnings@ =~= old(warnings)@ + rule_warnings(*r));
            }
        },
    }
}

/// Walk every rule of one stylesheet in order, accumulating usages and
/// warnings.
pub fn walk_rules(acc: &mut UsageMap, warnings: &mut Vec<String>, rules: &Vec<Rule>)
    requires
        old(acc).wf(),
    ensures
        final(acc).wf(),
        final(acc).model() == merge_model(old(acc).model(), sheet_model(rules@)),
        final(warnings)@ == old(warnings)@ + sheet_warnings(rules@),
{
    let ghost m0 = old(acc).model();
    let ghost w0 = old(warnings)@;
    proof {
        assert(sheet_model(rules@.take(0)) =~~= Map::<Seq<char>, Set<Seq<char>>>::empty());
        lemma_merge_empty(m0);
        assert(w0 + sheet_warnings(rules@.take(0)) =~= w0);
    }
    let mut k: usize = 0;
    while k < rules.len()
        invariant
            k <= rules.len(),
            acc.wf(),
            acc.model() == merge_model(m0, sheet_model(rules@.take(k as int))),
            warnings@ == w0 + sheet_warnings(rules@.take(k as int)),
        decreases rules.len() - k,
    {
        let ghost part = sheet_model(rules@.take(k as int));
        let ghost wpart = sheet_warnings(rules@.take(k as int));
        walk_rule(acc, warnings, &rules[k]);
        proof {
            lemma_sheet_take(rules@, k as int);
            lemma_merge_assoc(m0, part, rule_model(rules@[k as int]));
            assert((w0 + wpart) + rule_warnings(rules@[k as int]) =~= w0 + (wpart + rule_warnings(
                rules@[k as int],
            )));
        }
        k += 1;
    }
    proof {
        assert(rules@.take(rules@.len() as int) =~= rules@);
    }
}

/// Walk every supplied stylesheet in order, producing the full accumulated
/// usage mapping of the run and every warning emitted along the way.
pub fn collect_usages(sheets: &Vec<Stylesheet>) -> (r: (UsageMap, Vec<String>))
    ensures
        r.0.wf(),
        r.0.model() == run_model(sheets@),
        r.1@ == run_warnings(sheets@),
{
    let mut acc = UsageMap::new();
    let mut warnings: Vec<String> = Vec::new();
    let ghost m0 = acc.model();
    proof {
        assert(run_model(sheets@.take(0)) =~~= Map::<Seq<char>, Set<Seq<char>>>::empty());
        lemma_merge_empty(run_model(sheets@.take(0)));
        assert(merge_model(m0, run_model(sheets@.take(0))) =~~= m0);
        assert(warnings@ =~= run_warnings(sheets@.take(0)));
    }
    let mut k: usize = 0;
    while k < sheets.len()
        invariant
            k <= sheets.len(),
            acc.wf(),
            acc.model() == merge_model(m0, run_model(sheets@.take(k as int))),
            m0 == Map::<Seq<char>, Set<Seq<char>>>::empty(),
            warnings@ == run_warnings(sheets@.take(k as int)),
        decreases sheets.len() - k,
    {
        let ghost part = run_model(sheets@.take(k as int));
        let ghost wpart = run_warnings(sheets@.take(k as int));
        walk_rules(&mut acc, &mut warnings, &sheets[k].rules);
        proof {
            lemma_run_take(sheets@, k as int);
            lemma_merge_assoc(m0, part, sheet_model(sheets@[k as int].rules@));
            assert(wpart + sheet_warnings(sheets@[k as int].rules@) == run_warnings(
                sheets@.take(k + 1 as int),
            ));
        }
        k += 1;
    }
    proof {
        assert(sheets@.take(sheets@.len() as int) =~= sheets@);
        lemma_merge_empty(run_model(sheets@));
        assert(merge_model(m0, run_model(sheets@)) =~~= run_model(sheets@));
    }
    (acc, warnings)
}

} // verus!
