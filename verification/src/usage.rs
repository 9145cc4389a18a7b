use crate::model::{merge_model, singleton_model, str_set, views_of};
use vstd::prelude::*;

verus! {

/// One accumulated entry: a custom-property name and the context labels
/// recorded for it so far, duplicates included until finalization.
pub struct UsageEntry {
    pub name: String,
    pub labels: Vec<String>,
}

/// No two entries carry the same property name.
pub open spec fn keys_unique(entries: Seq<UsageEntry>) -> bool {
    forall|i: int, j: int|
        0 <= i < j < entries.len() ==> entries[i].name@ != entries[j].name@
}

/// The usage mapping an entry sequence denotes: each recorded name, mapped to
/// the set of labels recorded for it anywhere in the sequence.
pub open spec fn map_model(entries: Seq<UsageEntry>) -> Map<Seq<char>, Set<Seq<char>>> {
    Map::new(
        |n: Seq<char>| exists|i: int| 0 <= i < entries.len() && entries[i].name@ == n,
        |n: Seq<char>|
            Set::new(
                |l: Seq<char>|
                    exists|i: int, j: int|
                        0 <= i < entries.len() && entries[i].name@ == n && 0 <= j
                            < entries[i].labels@.len() && entries[i].labels@[j]@ == l,
            ),
    )
}

/// Appending one entry to the sequence merges a singleton mapping in.
pub proof fn lemma_model_push(s: Seq<UsageEntry>, e: UsageEntry)
    ensures
        map_model(s.push(e)) == merge_model(
            map_model(s),
            singleton_model(e.name@, str_set(e.labels@)),
        ),
{
    let t = s.push(e);
    let lhs = map_model(t);
    let rhs = merge_model(map_model(s), singleton_model(e.name@, str_set(e.labels@)));
    assert forall|n: Seq<char>| lhs.dom().contains(n) implies rhs.dom().contains(n) by {
        let i = choose|i: int| 0 <= i < t.len() && t[i].name@ == n;
        if i < s.len() {
            assert(s[i].name@ == n);
        } else {
            assert(t[i] == e);
        }
    }
    assert forall|n: Seq<char>| rhs.dom().contains(n) implies lhs.dom().contains(n) by {
        if map_model(s).dom().contains(n) {
            let i = choose|i: int| 0 <= i < s.len() && s[i].name@ == n;
            assert(t[i].name@ == n);
        } else {
            assert(t[s.len() as int].name@ == n);
        }
    }
    assert forall|n: Seq<char>| lhs.dom().contains(n) implies lhs[n] =~= rhs[n] by {
        assert forall|l: Seq<char>| lhs[n].contains(l) implies rhs[n].contains(l) by {
            let (i, j) = choose|i: int, j: int|
                0 <= i < t.len() && t[i].name@ == n && 0 <= j < t[i].labels@.len()
                    && t[i].labels@[j]@ == l;
            if i < s.len() {
                assert(map_model(s).dom().contains(n));
                assert(map_model(s)[n].contains(l));
            } else {
                assert(t[i] == e);
                assert(views_of(e.labels@)[j] == l);
                assert(str_set(e.labels@).contains(l));
            }
        }
        assert forall|n2: Seq<char>, l: Seq<char>|
            n2 == n && rhs[n2].contains(l) implies lhs[n].contains(l) by {
            if map_model(s).dom().contains(n) && map_model(s)[n].contains(l) {
                let (i, j) = choose|i: int, j: int|
                    0 <= i < s.len() && s[i].name@ == n && 0 <= j < s[i].labels@.len()
                        && s[i].labels@[j]@ == l;
                assert(t[i].name@ == n && t[i].labels@[j]@ == l);
            } else {
                assert(n == e.name@ && str_set(e.labels@).contains(l));
                let j = choose|j: int| 0 <= j < views_of(e.labels@).len() && views_of(e.labels@)[j]
                    == l;
                let i = s.len() as int;
                assert(t[i].name@ == n && t[i].labels@[j]@ == l);
            }
        }
    }
    assert(lhs =~~= rhs);
}

/// Extending the labels of the entry holding a name merges a singleton
/// mapping for that name in.
pub proof fn lemma_model_update_extend(s: Seq<UsageEntry>, i: int, e: UsageEntry, extra: Seq<String>)
    requires
        0 <= i < s.len(),
        keys_unique(s),
        e.name@ == s[i].name@,
        e.labels@ == s[i].labels@ + extra,
    ensures
        map_model(s.update(i, e)) == merge_model(
            map_model(s),
            singleton_model(s[i].name@, str_set(extra)),
        ),
        keys_unique(s.update(i, e)),
{
    let t = s.update(i, e);
    let lhs = map_model(t);
    let rhs = merge_model(map_model(s), singleton_model(s[i].name@, str_set(extra)));
    assert(forall|k: int| 0 <= k < t.len() ==> t[k].name@ == s[k].name@);
    assert forall|n: Seq<char>| lhs.dom().contains(n) implies rhs.dom().contains(n) by {
        let k = choose|k: int| 0 <= k < t.len() && t[k].name@ == n;
        assert(s[k].name@ == n);
    }
    assert forall|n: Seq<char>| rhs.dom().contains(n) implies lhs.dom().contains(n) by {
        if map_model(s).dom().contains(n) {
            let k = choose|k: int| 0 <= k < s.len() && s[k].name@ == n;
            assert(t[k].name@ == n);
        } else {
            assert(t[i].name@ == n);
        }
    }
    assert forall|n: Seq<char>| lhs.dom().contains(n) implies lhs[n] =~= rhs[n] by {
        assert forall|l: Seq<char>| lhs[n].contains(l) implies rhs[n].contains(l) by {
            let (k, j) = choose|k: int, j: int|
                0 <= k < t.len() && t[k].name@ == n && 0 <= j < t[k].labels@.len()
                    && t[k].labels@[j]@ == l;
            if k != i {
                assert(s[k].name@ == n && s[k].labels@[j]@ == l);
                assert(map_model(s)[n].contains(l));
            } else {
                assert(t[i] == e);
                if j < s[i].labels@.len() {
                    assert(s[i].labels@[j]@ == l);
                    assert(map_model(s)[n].contains(l));
                } else {
                    let j2 = j - s[i].labels@.len();
                    assert(extra[j2]@ == l);
                    assert(views_of(extra)[j2] == l);
                    assert(str_set(extra).contains(l));
                    assert(n == s[i].name@);
                }
            }
        }
        assert forall|n2: Seq<char>, l: Seq<char>|
            n2 == n && rhs[n2].contains(l) implies lhs[n].contains(l) by {
            if map_model(s).dom().contains(n) && map_model(s)[n].contains(l) {
                let (k, j) = choose|k: int, j: int|
                    0 <= k < s.len() && s[k].name@ == n && 0 <= j < s[k].labels@.len()
                        && s[k].labels@[j]@ == l;
                if k != i {
                    assert(t[k].name@ == n && t[k].labels@[j]@ == l);
                } else {
                    assert(t[i] == e);
                    assert(e.labels@[j] == s[i].labels@[j]);
                    assert(t[i].name@ == n && t[i].labels@[j]@ == l);
                }
            } else {
                assert(n == s[i].name@ && str_set(extra).contains(l));
                let j2 = choose|j2: int| 0 <= j2 < views_of(extra).len() && views_of(extra)[j2]
                    == l;
                let j = s[i].labels@.len() + j2;
                assert(t[i] == e);
                assert(e.labels@[j] == extra[j2]);
                assert(t[i].name@ == n && t[i].labels@[j]@ == l);
            }
        }
    }
    assert(lhs =~~= rhs);
}

/// With unique keys, the mapping's value at an entry's name is exactly that
/// entry's label set.
pub proof fn lemma_model_at(entries: Seq<UsageEntry>, t: int)
    requires
        keys_unique(entries),
        0 <= t < entries.len(),
    ensures
        map_model(entries).dom().contains(entries[t].name@),
        map_model(entries)[entries[t].name@] == str_set(entries[t].labels@),
{
    let n = entries[t].name@;
    let lhs = map_model(entries)[n];
    let rhs = str_set(entries[t].labels@);
    assert forall|l: Seq<char>| lhs.contains(l) implies rhs.contains(l) by {
        let (i, j) = choose|i: int, j: int|
            0 <= i < entries.len() && entries[i].name@ == n && 0 <= j < entries[i].labels@.len()
                && entries[i].labels@[j]@ == l;
        assert(i == t);
        assert(views_of(entries[t].labels@)[j] == l);
    }
    assert forall|l: Seq<char>| rhs.contains(l) implies lhs.contains(l) by {
        let j = choose|j: int|
            0 <= j < views_of(entries[t].labels@).len() && views_of(entries[t].labels@)[j] == l;
        assert(entries[t].labels@[j]@ == l);
    }
    assert(lhs =~= rhs);
}

/// Merging usage mappings is associative.
pub proof fn lemma_merge_assoc(
    a: Map<Seq<char>, Set<Seq<char>>>,
    b: Map<Seq<char>, Set<Seq<char>>>,
    c: Map<Seq<char>, Set<Seq<char>>>,
)
    ensures
        merge_model(merge_model(a, b), c) == merge_model(a, merge_model(b, c)),
{
    let lhs = merge_model(merge_model(a, b), c);
    let rhs = merge_model(a, merge_model(b, c));
    assert forall|n: Seq<char>| lhs.dom().contains(n) implies lhs[n] =~= rhs[n] by {}
    assert(lhs =~~= rhs);
}

/// The empty mapping is the unit of merging.
pub proof fn lemma_merge_empty(m: Map<Seq<char>, Set<Seq<char>>>)
    ensures
        merge_model(Map::empty(), m) == m,
        merge_model(m, Map::empty()) == m,
{
    assert(merge_model(Map::<Seq<char>, Set<Seq<char>>>::empty(), m) =~~= m);
    assert(merge_model(m, Map::<Seq<char>, Set<Seq<char>>>::empty()) =~~= m);
}

/// Clone a vector of strings, value for value.
pub fn clone_strings(v: &Vec<String>) -> (r: Vec<String>)
    ensures
        r@ == v@,
{
    let mut r: Vec<String> = Vec::new();
    let mut i: usize = 0;
    while i < v.len()
        invariant
            i <= v.len(),
            r@ == v@.take(i as int),
        decreases v.len() - i,
    {
        r.push(v[i].clone());
        proof {
            assert(r@ =~= v@.take(i + 1 as int));
        }
        i += 1;
    }
    proof {
        assert(v@.take(v@.len() as int) =~= v@);
    }
    r
}

/// Index of the entry holding a name, or the length when no entry does.
fn find_entry(entries: &Vec<UsageEntry>, name: &String) -> (r: usize)
    ensures
        r <= entries@.len(),
        r < entries@.len() ==> entries@[r as int].name@ == name@,
        forall|k: int| 0 <= k < r ==> entries@[k].name@ != name@,
{
    let mut i: usize = 0;
    while i < entries.len()
        invariant
            i <= entries@.len(),
            forall|k: int| 0 <= k < i ==> entries@[k].name@ != name@,
        decreases entries@.len() - i,
    {
        if entries[i].name == *name {
            return i;
        }
        i += 1;
    }
    i
}

/// The running name-to-labels accumulation: the append-on-collision store
/// that scanning and walking fill before finalization.
pub struct UsageMap {
    pub entries: Vec<UsageEntry>,
}

impl UsageMap {
    pub open spec fn model(self) -> Map<Seq<char>, Set<Seq<char>>> {
        map_model(self.entries@)
    }

    pub open spec fn wf(self) -> bool {
        keys_unique(self.entries@)
    }

    pub fn new() -> (r: Self)
        ensures
            r.wf(),
            r.model() == Map::<Seq<char>, Set<Seq<char>>>::empty(),
    {
        let r = UsageMap { entries: Vec::new() };
        proof {
            assert(r.model() =~~= Map::<Seq<char>, Set<Seq<char>>>::empty());
        }
        r
    }

    /// Record every given context label against a name: append to the name's
    /// entry if one exists, otherwise add a fresh entry holding the labels.
    pub fn add_usage(&mut self, name: &String, contexts: &Vec<String>)
        requires
            old(self).wf(),
        ensures
            final(self).wf(),
            final(self).model() == merge_model(
                old(self).model(),
                singleton_model(name@, str_set(contexts@)),
            ),
    {
        let n = self.entries.len();
        let i = find_entry(&self.entries, name);
        if i < n {
            let ghost s0 = self.entries@;
            let mut entry = self.entries.remove(i);
            let ghost labels0 = entry.labels@;
            let mut j: usize = 0;
            while j < contexts.len()
                invariant
                    j <= contexts.len(),
                    entry.labels@ == labels0 + contexts@.take(j as int),
                    entry.name@ == name@,
                decreases contexts.len() - j,
            {
                entry.labels.push(contexts[j].clone());
                proof {
                    assert(entry.labels@ =~= labels0 + contexts@.take(j + 1 as int));
                }
                j += 1;
            }
            self.entries.insert(i, entry);
            proof {
                assert(contexts@.take(contexts@.len() as int) =~= contexts@);
                assert(self.entries@ =~= s0.update(i as int, entry));
                lemma_model_update_extend(s0, i as int, entry, contexts@);
            }
        } else {
            let ghost s0 = self.entries@;
            let entry = UsageEntry { name: name.clone(), labels: clone_strings(contexts) };
            self.entries.push(entry);
            proof {
                lemma_model_push(s0, entry);
                assert forall|k: int, m: int|
                    0 <= k < m < self.entries@.len() implies self.entries@[k].name@
                    != self.entries@[m].name@ by {
                    assert(self.entries@[k] == s0[k]);
                    if m < s0.len() {
                        assert(self.entries@[m] == s0[m]);
                    } else {
                        assert(self.entries@[m] == entry);
                    }
                }
            }
        }
    }

    /// Merge another accumulation into this one, entry by entry, with the
    /// same append-on-collision rule.
    pub fn merge_from(&mut self, src: &UsageMap)
        requires
            old(self).wf(),
        ensures
            final(self).wf(),
            final(self).model() == merge_model(old(self).model(), src.model()),
    {
        let ghost m0 = old(self).model();
        proof {
            assert(map_model(src.entries@.take(0)) =~~= Map::<Seq<char>, Set<Seq<char>>>::empty());
            lemma_merge_empty(m0);
        }
        let mut k: usize = 0;
        while k < src.entries.len()
            invariant
                k <= src.entries.len(),
                self.wf(),
                self.model() == merge_model(m0, map_model(src.entries@.take(k as int))),
            decreases src.entries.len() - k,
        {
            let e = &src.entries[k];
            self.add_usage(&e.name, &e.labels);
            proof {
                let pre = src.entries@.take(k as int);
                assert(src.entries@.take(k + 1 as int) =~= pre.push(src.entries@[k as int]));
                lemma_model_push(pre, src.entries@[k as int]);
                lemma_merge_assoc(
                    m0,
                    map_model(pre),
                    singleton_model(src.entries@[k as int].name@, str_set(src.entries@[k as int].labels@)),
                );
            }
            k += 1;
        }
        proof {
            assert(src.entries@.take(src.entries@.len() as int) =~= src.entries@);
        }
    }
}

} // verus!
