use crate::model::{
    decl_names, decls_names, is_reserved, is_reserved_name, merge_model, scan_model, seq_set,
    singleton_model, str_set, token_names, views_of, Declaration, ValueToken,
};
use crate::usage::UsageMap;
use vstd::prelude::*;

verus! {

/// A usage mapping holding exactly the given names, each mapped to the given
/// context labels; the intermediate shape of a scan in progress.
pub open spec fn partial_model(names: Set<Seq<char>>, contexts: Seq<Seq<char>>) -> Map<
    Seq<char>,
    Set<Seq<char>>,
> {
    Map::new(|n: Seq<char>| names.contains(n), |n: Seq<char>| seq_set(contexts))
}

proof fn lemma_scan_is_partial(contexts: Seq<Seq<char>>, ds: Seq<Declaration>)
    ensures
        scan_model(contexts, ds) == partial_model(decls_names(ds), contexts),
{
    assert(scan_model(contexts, ds) =~~= partial_model(decls_names(ds), contexts));
}

proof fn lemma_partial_extend(s: Set<Seq<char>>, cv: Seq<Seq<char>>, n: Seq<char>)
    ensures
        merge_model(partial_model(s, cv), singleton_model(n, seq_set(cv))) == partial_model(
            s.insert(n),
            cv,
        ),
{
    let lhs = merge_model(partial_model(s, cv), singleton_model(n, seq_set(cv)));
    let rhs = partial_model(s.insert(n), cv);
    assert forall|k: Seq<char>| lhs.dom().contains(k) implies lhs[k] =~= rhs[k] by {}
    assert(lhs =~~= rhs);
}

proof fn lemma_decls_names_take(ds: Seq<Declaration>, i: int)
    requires
        0 <= i < ds.len(),
    ensures
        decls_names(ds.take(i + 1)) == decls_names(ds.take(i)).union(decl_names(ds[i])),
{
    let lhs = decls_names(ds.take(i + 1));
    let rhs = decls_names(ds.take(i)).union(decl_names(ds[i]));
    assert forall|n: Seq<char>| lhs.contains(n) implies rhs.contains(n) by {
        let k = choose|k: int|
            0 <= k < ds.take(i + 1).len() && #[trigger] decl_names(ds.take(i + 1)[k]).contains(n);
        if k < i {
            assert(decl_names(ds.take(i)[k]).contains(n));
        } else {
            assert(ds.take(i + 1)[k] == ds[i]);
        }
    }
    assert forall|n: Seq<char>| rhs.contains(n) implies lhs.contains(n) by {
        if decls_names(ds.take(i)).contains(n) {
            let k = choose|k: int|
                0 <= k < ds.take(i).len() && #[trigger] decl_names(ds.take(i)[k]).contains(n);
            assert(decl_names(ds.take(i + 1)[k]).contains(n));
        } else {
            assert(ds.take(i + 1)[i] == ds[i]);
            assert(decl_names(ds.take(i + 1)[i]).contains(n));
        }
    }
    assert(lhs =~= rhs);
}

proof fn lemma_token_names_take(toks: Seq<ValueToken>, j: int)
    requires
        0 <= j < toks.len(),
    ensures
        token_names(toks.take(j + 1)) == (match toks[j] {
            ValueToken::VarRef(v) => if !is_reserved(v@) {
                token_names(toks.take(j)).insert(v@)
            } else {
                token_names(toks.take(j))
            },
            ValueToken::Other => token_names(toks.take(j)),
        }),
{
    let lhs = token_names(toks.take(j + 1));
    let small = token_names(toks.take(j));
    assert forall|n: Seq<char>| lhs.contains(n) implies small.contains(n) || (
    toks[j] matches ValueToken::VarRef(v) && !is_reserved(v@) && v@ == n) by {
        let k = choose|k: int|
            0 <= k < toks.take(j + 1).len() && (#[trigger] toks.take(j + 1)[k] matches
                ValueToken::VarRef(v) && v@ == n);
        if k < j {
            assert(toks.take(j)[k] == toks[k]);
        } else {
            assert(toks.take(j + 1)[k] == toks[j]);
        }
    }
    assert forall|n: Seq<char>| small.contains(n) implies lhs.contains(n) by {
        let k = choose|k: int|
            0 <= k < toks.take(j).len() && (#[trigger] toks.take(j)[k] matches ValueToken::VarRef(
                v,
            ) && v@ == n);
        assert(toks.take(j + 1)[k] == toks[k]);
    }
    match toks[j] {
        ValueToken::VarRef(v) => {
            if !is_reserved(v@) {
                assert(toks.take(j + 1)[j] == toks[j]);
                assert(lhs.contains(v@));
                assert(lhs =~= small.insert(v@));
            } else {
                assert(lhs =~= small);
            }
        },
        ValueToken::Other => {
            assert(lhs =~= small);
        },
    }
}

/// Scan a declaration block under a fixed sequence of context labels: collect
/// every non-reserved custom-property name referenced from an unparsed value,
/// mapping each to all the given labels.
pub fn scan_declarations(contexts: &Vec<String>, decls: &Vec<Declaration>) -> (r: UsageMap)
    ensures
        r.wf(),
        r.model() == scan_model(views_of(contexts@), decls@),
{
    let ghost cv = views_of(contexts@);
    let mut r = UsageMap::new();
    proof {
        assert(r.model() =~~= partial_model(decls_names(decls@.take(0)), cv));
    }
    let mut i: usize = 0;
    while i < decls.len()
        invariant
            i <= decls.len(),
            r.wf(),
            cv == views_of(contexts@),
            r.model() == partial_model(decls_names(decls@.take(i as int)), cv),
        decreases decls.len() - i,
    {
        let ghost outer = decls_names(decls@.take(i as int));
        match &decls[i] {
            Declaration::Resolved => {
                proof {
                    lemma_decls_names_take(decls@, i as int);
                    assert(outer.union(decl_names(decls@[i as int])) =~= outer);
                }
            },
            Declaration::Unparsed(toks) => {
                proof {
                    assert(outer.union(token_names(toks@.take(0))) =~= outer);
                }
                let mut j: usize = 0;
                while j < toks.len()
                    invariant
                        j <= toks.len(),
                        r.wf(),
                        cv == views_of(contexts@),
                        decls@[i as int] == Declaration::Unparsed(*toks),
                        0 <= i < decls.len(),
                        outer == decls_names(decls@.take(i as int)),
                        r.model() == partial_model(
                            outer.union(token_names(toks@.take(j as int))),
                            cv,
                        ),
                    decreases toks.len() - j,
                {
                    let ghost names0 = outer.union(token_names(toks@.take(j as int)));
                    match &toks[j] {
                        ValueToken::VarRef(nm) => {
                            if !is_reserved_name(nm.as_str()) {
                                r.add_usage(nm, contexts);
                                proof {
                                    lemma_partial_extend(names0, cv, nm@);
                                    lemma_token_names_take(toks@, j as int);
                                    assert(names0.insert(nm@) =~= outer.union(
                                        token_names(toks@.take(j + 1 as int)),
                                    ));
                                }
                            } else {
                                proof {
                                    lemma_token_names_take(toks@, j as int);
                                    assert(names0 =~= outer.union(
                                        token_names(toks@.take(j + 1 as int)),
                                    ));
                                }
                            }
                        },
                        ValueToken::Other => {
                            proof {
                                lemma_token_names_take(toks@, j as int);
                                assert(names0 =~= outer.union(
                                    token_names(toks@.take(j + 1 as int)),
                                ));
                            }
                        },
                    }
                    j += 1;
                }
                proof {
                    assert(toks@.take(toks@.len() as int) =~= toks@);
                    lemma_decls_names_take(decls@, i as int);
                    assert(decl_names(decls@[i as int]) == token_names(toks@));
                }
            },
        }
        i += 1;
    }
    proof {
        assert(decls@.take(decls@.len() as int) =~= decls@);
        lemma_scan_is_partial(cv, decls@);
    }
    r
}

} // verus!
