use vstd::prelude::*;

verus! {

/// The position of the first entry of `s` whose name is `k`.
pub open spec fn assoc_index<V>(s: Seq<(String, V)>, k: Seq<char>) -> Option<int>
    decreases s.len(),
{
    if s.len() == 0 {
        None
    } else if s[0].0@ == k {
        Some(0)
    } else {
        match assoc_index(s.drop_first(), k) {
            Some(i) => Some(i + 1),
            None => None,
        }
    }
}

/// The value recorded for the name `k`.
pub open spec fn assoc_get<V>(s: Seq<(String, V)>, k: Seq<char>) -> Option<V> {
    match assoc_index(s, k) {
        Some(i) => Some(s[i].1),
        None => None,
    }
}

/// `s` with `v` recorded for the name `k`: the entry for `k` is replaced in
/// place, or a new entry is added at the end.
pub open spec fn assoc_insert<V>(s: Seq<(String, V)>, k: String, v: V) -> Seq<(String, V)> {
    match assoc_index(s, k@) {
        Some(i) => s.update(i, (k, v)),
        None => s.push((k, v)),
    }
}

/// `s` with `x` added, unless it is there already.
pub open spec fn set_insert<T>(s: Seq<T>, x: T) -> Seq<T> {
    if s.contains(x) {
        s
    } else {
        s.push(x)
    }
}

pub proof fn lemma_assoc_index_found<V>(s: Seq<(String, V)>, k: Seq<char>, i: int)
    requires
        0 <= i < s.len(),
        s[i].0@ == k,
        forall|j: int| 0 <= j < i ==> s[j].0@ != k,
    ensures
        assoc_index(s, k) == Some(i),
    decreases i,
{
    if i > 0 {
        lemma_assoc_index_found(s.drop_first(), k, i - 1);
    }
}

pub proof fn lemma_assoc_index_absent<V>(s: Seq<(String, V)>, k: Seq<char>)
    requires
        forall|j: int| 0 <= j < s.len() ==> s[j].0@ != k,
    ensures
        assoc_index(s, k) is None,
    decreases s.len(),
{
    if s.len() > 0 {
        lemma_assoc_index_absent(s.drop_first(), k);
    }
}

pub proof fn lemma_assoc_index_bounds<V>(s: Seq<(String, V)>, k: Seq<char>)
    ensures
        assoc_index(s, k) matches Some(i) ==> 0 <= i < s.len() && s[i].0@ == k,
    decreases s.len(),
{
    if s.len() > 0 {
        lemma_assoc_index_bounds(s.drop_first(), k);
    }
}

/// The position of the entry named `k` in `s`.
pub fn assoc_find<V>(s: &Vec<(String, V)>, k: &String) -> (r: Option<usize>)
    ensures
        match r {
            Some(i) => i < s@.len() && s@[i as int].0@ == k@ && assoc_index(s@, k@) == Some(i as int),
            None => assoc_index(s@, k@) is None,
        },
{
    let mut i: usize = 0;
    while i < s.len()
        invariant
            i <= s@.len(),
            forall|j: int| 0 <= j < i ==> s@[j].0@ != k@,
        decreases s@.len() - i,
    {
        if s[i].0 == *k {
            proof {
                lemma_assoc_index_found(s@, k@, i as int);
            }
            return Some(i);
        }
        i = i + 1;
    }
    proof {
        lemma_assoc_index_absent(s@, k@);
    }
    None
}

/// No two entries of `s` have the same name.
pub open spec fn distinct_names<V>(s: Seq<(String, V)>) -> bool {
    forall|i: int, j: int| 0 <= i < j < s.len() ==> (#[trigger] s[i]).0@ != (#[trigger] s[j]).0@
}

/// No value occurs twice in `s`.
pub open spec fn no_dups<T>(s: Seq<T>) -> bool {
    forall|i: int, j: int| 0 <= i < j < s.len() ==> #[trigger] s[i] != #[trigger] s[j]
}

pub proof fn lemma_assoc_index_some<V>(s: Seq<(String, V)>, k: Seq<char>, j: int)
    requires
        0 <= j < s.len(),
        s[j].0@ == k,
    ensures
        assoc_index(s, k) is Some,
    decreases s.len(),
{
    if s[0].0@ != k {
        lemma_assoc_index_some(s.drop_first(), k, j - 1);
    }
}

pub proof fn lemma_set_insert_no_dups<T>(s: Seq<T>, x: T)
    ensures
        no_dups(s) ==> no_dups(set_insert(s, x)),
{
    if no_dups(s) && !s.contains(x) {
        let t = s.push(x);
        assert forall|i: int, j: int| 0 <= i < j < t.len() implies #[trigger] t[i] != #[trigger] t[j] by {
            if j == s.len() {
                assert(t[i] == s[i]);
            }
        }
    }
}

pub proof fn lemma_assoc_index_first<V>(s: Seq<(String, V)>, k: Seq<char>)
    ensures
        assoc_index(s, k) matches Some(p) ==> forall|q: int| 0 <= q < p ==> (#[trigger] s[q]).0@ != k,
    decreases s.len(),
{
    lemma_assoc_index_bounds(s, k);
    if s.len() > 0 && s[0].0@ != k {
        lemma_assoc_index_first(s.drop_first(), k);
        if let Some(p) = assoc_index(s, k) {
            assert forall|q: int| 0 <= q < p implies (#[trigger] s[q]).0@ != k by {
                if q > 0 {
                    assert(s[q] == s.drop_first()[q - 1]);
                }
            }
        }
    }
}

/// What `assoc_insert` records: `v` for `k`, and for any other name what was
/// recorded before.
pub proof fn lemma_assoc_get_insert<V>(s: Seq<(String, V)>, k: String, v: V, name: Seq<char>)
    ensures
        assoc_get(assoc_insert(s, k, v), name) == (if name == k@ { Some(v) } else { assoc_get(s, name) }),
{
    let t = assoc_insert(s, k, v);
    lemma_assoc_index_first(s, k@);
    lemma_assoc_index_first(s, name);
    lemma_assoc_index_bounds(s, k@);
    lemma_assoc_index_bounds(s, name);
    match assoc_index(s, k@) {
        Some(i) => {
            if name == k@ {
                lemma_assoc_index_found(t, name, i);
            } else {
                match assoc_index(s, name) {
                    Some(p) => {
                        assert forall|q: int| 0 <= q < p implies t[q].0@ != name by {
                            if q != i {
                                assert(t[q] == s[q]);
                            }
                        }
                        lemma_assoc_index_found(t, name, p);
                    },
                    None => {
                        assert forall|q: int| 0 <= q < t.len() implies t[q].0@ != name by {
                            if q != i && s[q].0@ == name {
                                lemma_assoc_index_some(s, name, q);
                            }
                        }
                        lemma_assoc_index_absent(t, name);
                    },
                }
            }
        },
        None => {
            if name == k@ {
                assert forall|q: int| 0 <= q < s.len() implies t[q].0@ != name by {
                    assert(t[q] == s[q]);
                    if s[q].0@ == name {
                        lemma_assoc_index_some(s, name, q);
                    }
                }
                lemma_assoc_index_found(t, name, s.len() as int);
            } else {
                match assoc_index(s, name) {
                    Some(p) => {
                        assert forall|q: int| 0 <= q < p implies t[q].0@ != name by {
                            assert(t[q] == s[q]);
                        }
                        lemma_assoc_index_found(t, name, p);
                    },
                    None => {
                        assert forall|q: int| 0 <= q < t.len() implies t[q].0@ != name by {
                            if q < s.len() && s[q].0@ == name {
                                lemma_assoc_index_some(s, name, q);
                            }
                        }
                        lemma_assoc_index_absent(t, name);
                    },
                }
            }
        },
    }
}

} // verus!
