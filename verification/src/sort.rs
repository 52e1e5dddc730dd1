//! Stable ordering of rows by an integer key or by a name.

use vstd::prelude::*;
use crate::order::{lemma_str_lt_asym, lemma_str_lt_total, lemma_str_lt_trans, str_less, str_lt};

verus! {

/// Row `a` comes before row `b`: by key (ascending, or descending when
/// `desc`), and by position when the keys are equal.
pub open spec fn goes_before(keys: Seq<i128>, desc: bool, a: int, b: int) -> bool {
    if keys[a] != keys[b] {
        if desc {
            keys[a] > keys[b]
        } else {
            keys[a] < keys[b]
        }
    } else {
        a < b
    }
}

/// `perm` lists the positions `0..keys.len()` in the stable order by key.
pub open spec fn is_stable_order(keys: Seq<i128>, desc: bool, perm: Seq<usize>) -> bool {
    &&& perm.len() == keys.len()
    &&& forall|i: int| 0 <= i < perm.len() ==> #[trigger] perm[i] < keys.len()
    &&& forall|i: int, j: int| 0 <= i < j < perm.len() ==> goes_before(keys, desc, #[trigger] perm[i] as int, #[trigger] perm[j] as int)
}

fn before_exec(keys: &Vec<i128>, desc: bool, a: usize, b: usize) -> (r: bool)
    requires
        a < keys@.len(),
        b < keys@.len(),
    ensures
        r == goes_before(keys@, desc, a as int, b as int),
{
    if keys[a] != keys[b] {
        if desc {
            keys[a] > keys[b]
        } else {
            keys[a] < keys[b]
        }
    } else {
        a < b
    }
}

/// The positions of the rows in the stable order by key.
pub fn stable_order(keys: &Vec<i128>, desc: bool) -> (perm: Vec<usize>)
    ensures
        is_stable_order(keys@, desc, perm@),
{
    let n = keys.len();
    let mut perm: Vec<usize> = Vec::new();
    let mut k: usize = 0;
    while k < n
        invariant
            n == keys@.len(),
            k <= n,
            perm@.len() == k,
            forall|i: int| 0 <= i < perm@.len() ==> #[trigger] perm@[i] < k,
            forall|i: int, j: int| 0 <= i < j < perm@.len() ==> goes_before(keys@, desc, #[trigger] perm@[i] as int, #[trigger] perm@[j] as int),
        decreases n - k,
    {
        let mut p: usize = 0;
        while p < perm.len() && !before_exec(keys, desc, k, perm[p])
            invariant
                n == keys@.len(),
                k < n,
                p <= perm@.len(),
                forall|i: int| 0 <= i < perm@.len() ==> #[trigger] perm@[i] < k,
                forall|q: int| 0 <= q < p ==> goes_before(keys@, desc, #[trigger] perm@[q] as int, k as int),
            decreases perm.len() - p,
        {
            p = p + 1;
        }
        let ghost old_perm = perm@;
        proof {
            assert forall|q: int| p <= q < old_perm.len() implies goes_before(keys@, desc, k as int, #[trigger] old_perm[q] as int) by {
                assert(goes_before(keys@, desc, k as int, old_perm[p as int] as int));
                if q > p {
                    assert(goes_before(keys@, desc, old_perm[p as int] as int, old_perm[q] as int));
                }
            }
        }
        perm.insert(p, k);
        proof {
            assert forall|i: int, j: int| 0 <= i < j < perm@.len() implies goes_before(keys@, desc, #[trigger] perm@[i] as int, #[trigger] perm@[j] as int) by {
                if j < p {
                    assert(perm@[i] == old_perm[i] && perm@[j] == old_perm[j]);
                } else if j == p {
                    assert(perm@[i] == old_perm[i]);
                } else if i == p {
                    assert(perm@[j] == old_perm[j - 1]);
                } else if i < p {
                    assert(perm@[i] == old_perm[i] && perm@[j] == old_perm[j - 1]);
                } else {
                    assert(perm@[i] == old_perm[i - 1] && perm@[j] == old_perm[j - 1]);
                }
            }
        }
        k = k + 1;
    }
    perm
}


/// Row `a` comes before row `b` by name (code-point order), and by position
/// when the names are equal.
pub open spec fn goes_before_by_name(names: Seq<Seq<char>>, a: int, b: int) -> bool {
    if names[a] != names[b] {
        str_lt(names[a], names[b])
    } else {
        a < b
    }
}

/// `perm` lists the positions `0..names.len()` in the stable order by name.
pub open spec fn is_name_order(names: Seq<Seq<char>>, perm: Seq<usize>) -> bool {
    &&& perm.len() == names.len()
    &&& forall|i: int| 0 <= i < perm.len() ==> #[trigger] perm[i] < names.len()
    &&& forall|i: int, j: int| 0 <= i < j < perm.len() ==> goes_before_by_name(names, #[trigger] perm[i] as int, #[trigger] perm[j] as int)
}

proof fn lemma_by_name_trans(names: Seq<Seq<char>>, a: int, b: int, c: int)
    requires
        goes_before_by_name(names, a, b),
        goes_before_by_name(names, b, c),
    ensures
        goes_before_by_name(names, a, c),
{
    let (na, nb, nc) = (names[a], names[b], names[c]);
    if na != nb && nb != nc {
        lemma_str_lt_trans(na, nb, nc);
        if na == nc {
            lemma_str_lt_asym(na, nb);
        }
    }
}

proof fn lemma_by_name_total(names: Seq<Seq<char>>, a: int, b: int)
    requires
        a != b,
        !goes_before_by_name(names, a, b),
    ensures
        goes_before_by_name(names, b, a),
{
    if names[a] != names[b] {
        lemma_str_lt_total(names[a], names[b]);
    }
}

fn before_by_name(names: &Vec<String>, a: usize, b: usize) -> (r: bool)
    requires
        a < names@.len(),
        b < names@.len(),
    ensures
        r == goes_before_by_name(name_views(names@), a as int, b as int),
{
    let same = crate::text::str_eq(names[a].as_str(), names[b].as_str());
    if !same {
        str_less(&names[a], &names[b])
    } else {
        a < b
    }
}

/// The character sequences of names.
pub open spec fn name_views(v: Seq<String>) -> Seq<Seq<char>> {
    Seq::new(v.len(), |i: int| v[i]@)
}

/// The positions of the names in the stable order by name.
pub fn name_order(names: &Vec<String>) -> (perm: Vec<usize>)
    ensures
        is_name_order(name_views(names@), perm@),
{
    let ghost nv = name_views(names@);
    let n = names.len();
    let mut perm: Vec<usize> = Vec::new();
    let mut k: usize = 0;
    while k < n
        invariant
            n == names@.len(),
            nv == name_views(names@),
            k <= n,
            perm@.len() == k,
            forall|i: int| 0 <= i < perm@.len() ==> #[trigger] perm@[i] < k,
            forall|i: int, j: int| 0 <= i < j < perm@.len() ==> goes_before_by_name(nv, #[trigger] perm@[i] as int, #[trigger] perm@[j] as int),
        decreases n - k,
    {
        let mut p: usize = 0;
        while p < perm.len() && !before_by_name(names, k, perm[p])
            invariant
                n == names@.len(),
                nv == name_views(names@),
                k < n,
                p <= perm@.len(),
                forall|i: int| 0 <= i < perm@.len() ==> #[trigger] perm@[i] < k,
                forall|q: int| 0 <= q < p ==> goes_before_by_name(nv, #[trigger] perm@[q] as int, k as int),
            decreases perm.len() - p,
        {
            proof {
                lemma_by_name_total(nv, k as int, perm@[p as int] as int);
            }
            p = p + 1;
        }
        let ghost old_perm = perm@;
        proof {
            assert forall|q: int| p <= q < old_perm.len() implies goes_before_by_name(nv, k as int, #[trigger] old_perm[q] as int) by {
                assert(goes_before_by_name(nv, k as int, old_perm[p as int] as int));
                if q > p {
                    assert(goes_before_by_name(nv, old_perm[p as int] as int, old_perm[q] as int));
                    lemma_by_name_trans(nv, k as int, old_perm[p as int] as int, old_perm[q] as int);
                }
            }
        }
        perm.insert(p, k);
        proof {
            assert forall|i: int, j: int| 0 <= i < j < perm@.len() implies goes_before_by_name(nv, #[trigger] perm@[i] as int, #[trigger] perm@[j] as int) by {
                if j < p {
                    assert(perm@[i] == old_perm[i] && perm@[j] == old_perm[j]);
                } else if j == p {
                    assert(perm@[i] == old_perm[i]);
                } else if i == p {
                    assert(perm@[j] == old_perm[j - 1]);
                } else if i < p {
                    assert(perm@[i] == old_perm[i] && perm@[j] == old_perm[j - 1]);
                } else {
                    assert(perm@[i] == old_perm[i - 1] && perm@[j] == old_perm[j - 1]);
                }
            }
        }
        k = k + 1;
    }
    perm
}

} // verus!
