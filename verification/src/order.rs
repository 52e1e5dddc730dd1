//! Ordering of strings and of keyed tables.
//!
//! Strings are ordered lexicographically by code point, which is the order
//! of their UTF-8 bytes (SQLite's default `BINARY` collation). A keyed table
//! keeps its rows strictly ascending by key, so keys are unique and a listing
//! is already in key order.

use vstd::prelude::*;
use crate::text::chars_of;

verus! {

/// Lexicographic order of character sequences.
pub open spec fn str_lt(a: Seq<char>, b: Seq<char>) -> bool
    decreases a.len(),
{
    if a.len() == 0 {
        b.len() > 0
    } else if b.len() == 0 {
        false
    } else if a[0] != b[0] {
        a[0] < b[0]
    } else {
        str_lt(a.drop_first(), b.drop_first())
    }
}

/// No sequence is below itself.
pub proof fn lemma_str_lt_irrefl(a: Seq<char>)
    ensures
        !str_lt(a, a),
    decreases a.len(),
{
    if a.len() > 0 {
        lemma_str_lt_irrefl(a.drop_first());
    }
}

/// The order is transitive.
pub proof fn lemma_str_lt_trans(a: Seq<char>, b: Seq<char>, c: Seq<char>)
    requires
        str_lt(a, b),
        str_lt(b, c),
    ensures
        str_lt(a, c),
    decreases a.len(),
{
    if a.len() > 0 && b.len() > 0 && c.len() > 0 && a[0] == b[0] && b[0] == c[0] {
        lemma_str_lt_trans(a.drop_first(), b.drop_first(), c.drop_first());
    }
}

/// Two different sequences are ordered one way or the other.
pub proof fn lemma_str_lt_total(a: Seq<char>, b: Seq<char>)
    requires
        a != b,
    ensures
        str_lt(a, b) || str_lt(b, a),
    decreases a.len(),
{
    if a.len() > 0 && b.len() > 0 && a[0] == b[0] {
        if a.drop_first() == b.drop_first() {
            assert(a =~= seq![a[0]] + a.drop_first());
            assert(b =~= seq![b[0]] + b.drop_first());
        }
        lemma_str_lt_total(a.drop_first(), b.drop_first());
    } else if a.len() == 0 && b.len() == 0 {
        assert(a =~= b);
    }
}

/// The order is asymmetric.
pub proof fn lemma_str_lt_asym(a: Seq<char>, b: Seq<char>)
    requires
        str_lt(a, b),
    ensures
        !str_lt(b, a),
{
    if str_lt(b, a) {
        lemma_str_lt_trans(a, b, a);
        lemma_str_lt_irrefl(a);
    }
}

/// Whether `a` sorts before `b`.
pub fn str_less(a: &String, b: &String) -> (r: bool)
    ensures
        r == str_lt(a@, b@),
{
    let ac = chars_of(a.as_str());
    let bc = chars_of(b.as_str());
    let mut i: usize = 0;
    proof {
        assert(ac@.skip(0) =~= ac@);
        assert(bc@.skip(0) =~= bc@);
    }
    while i < ac.len() && i < bc.len() && ac[i] == bc[i]
        invariant
            i <= ac@.len(),
            i <= bc@.len(),
            str_lt(ac@, bc@) == str_lt(ac@.skip(i as int), bc@.skip(i as int)),
        decreases ac.len() - i,
    {
        proof {
            assert(ac@.skip(i as int).drop_first() =~= ac@.skip(i + 1));
            assert(bc@.skip(i as int).drop_first() =~= bc@.skip(i + 1));
        }
        i = i + 1;
    }
    if i == ac.len() {
        i < bc.len()
    } else if i == bc.len() {
        false
    } else {
        ac[i] < bc[i]
    }
}

/// Records stored in a keyed table.
pub trait Keyed {
    /// The key of the record.
    spec fn key_of(&self) -> Seq<char>;

    /// The key of the record.
    fn key(&self) -> (r: &String)
        ensures
            r@ == self.key_of(),
    ;
}

/// The rows are strictly ascending by key.
pub open spec fn keys_sorted<T: Keyed>(rows: Seq<T>) -> bool {
    forall|i: int, j: int| 0 <= i < j < rows.len() ==> str_lt(#[trigger] rows[i].key_of(), #[trigger] rows[j].key_of())
}

/// Whether the rows are strictly ascending by key (checked pair by pair).
pub fn rows_sorted<T: Keyed>(rows: &Vec<T>) -> (r: bool)
    ensures
        r == keys_sorted(rows@),
{
    let mut k: usize = 1;
    while k < rows.len()
        invariant
            1 <= k || rows@.len() == 0,
            k <= rows@.len() || rows@.len() == 0,
            forall|i: int, j: int| 0 <= i < j < k && j < rows@.len() ==> str_lt(#[trigger] rows@[i].key_of(), #[trigger] rows@[j].key_of()),
        decreases rows.len() - k,
    {
        if !str_less(rows[k - 1].key(), rows[k].key()) {
            assert(!keys_sorted(rows@)) by {
                assert(!str_lt(rows@[k - 1].key_of(), rows@[k as int].key_of()));
            }
            return false;
        }
        proof {
            assert forall|i: int, j: int| 0 <= i < j < k + 1 && j < rows@.len() implies str_lt(#[trigger] rows@[i].key_of(), #[trigger] rows@[j].key_of()) by {
                if j == k && i < k - 1 {
                    lemma_str_lt_trans(rows@[i].key_of(), rows@[k - 1].key_of(), rows@[j].key_of());
                }
            }
        }
        k = k + 1;
    }
    true
}

/// Some row has key `k`.
pub open spec fn has_key<T: Keyed>(rows: Seq<T>, k: Seq<char>) -> bool {
    exists|i: int| 0 <= i < rows.len() && #[trigger] rows[i].key_of() == k
}

/// The position of the row with key `k` in a sorted table.
pub open spec fn key_index<T: Keyed>(rows: Seq<T>, k: Seq<char>) -> int {
    choose|i: int| 0 <= i < rows.len() && #[trigger] rows[i].key_of() == k
}

/// The number of rows whose key is below `k`: where a row with key `k` goes.
pub open spec fn count_below<T: Keyed>(rows: Seq<T>, k: Seq<char>) -> nat
    decreases rows.len(),
{
    if rows.len() == 0 {
        0
    } else {
        count_below(rows.drop_last(), k) + (if str_lt(rows.last().key_of(), k) { 1nat } else { 0nat })
    }
}

/// In a sorted table the key of a row determines its position.
pub proof fn lemma_key_unique<T: Keyed>(rows: Seq<T>, i: int, j: int)
    requires
        keys_sorted(rows),
        0 <= i < rows.len(),
        0 <= j < rows.len(),
        rows[i].key_of() == rows[j].key_of(),
    ensures
        i == j,
{
    if i < j {
        assert(str_lt(rows[i].key_of(), rows[j].key_of()));
        lemma_str_lt_irrefl(rows[i].key_of());
    } else if j < i {
        assert(str_lt(rows[j].key_of(), rows[i].key_of()));
        lemma_str_lt_irrefl(rows[i].key_of());
    }
}

/// The rows below position `p` are exactly those with a key below `k`.
pub proof fn lemma_count_below<T: Keyed>(rows: Seq<T>, k: Seq<char>, p: int)
    requires
        0 <= p <= rows.len(),
        forall|j: int| 0 <= j < p ==> str_lt(#[trigger] rows[j].key_of(), k),
        forall|j: int| p <= j < rows.len() ==> !str_lt(#[trigger] rows[j].key_of(), k),
    ensures
        count_below(rows, k) == p,
    decreases rows.len(),
{
    if rows.len() > 0 {
        let d = rows.drop_last();
        if p == rows.len() {
            assert forall|j: int| 0 <= j < d.len() implies str_lt(#[trigger] d[j].key_of(), k) by {
                assert(d[j] == rows[j]);
            }
            lemma_count_below(d, k, p - 1);
            assert(str_lt(rows[rows.len() - 1].key_of(), k));
        } else {
            assert forall|j: int| 0 <= j < p implies str_lt(#[trigger] d[j].key_of(), k) by {
                assert(d[j] == rows[j]);
            }
            assert forall|j: int| p <= j < d.len() implies !str_lt(#[trigger] d[j].key_of(), k) by {
                assert(d[j] == rows[j]);
            }
            lemma_count_below(d, k, p);
            assert(!str_lt(rows[rows.len() - 1].key_of(), k));
        }
    }
}

/// Finds the row with key `key`, or the position where such a row belongs.
pub fn locate<T: Keyed>(rows: &Vec<T>, key: &String) -> (r: Result<usize, usize>)
    requires
        keys_sorted(rows@),
    ensures
        match r {
            Ok(i) => has_key(rows@, key@) && i == key_index(rows@, key@) && i < rows@.len()
                && rows@[i as int].key_of() == key@,
            Err(p) => !has_key(rows@, key@) && p == count_below(rows@, key@) && p <= rows@.len(),
        },
{
    let mut i: usize = 0;
    while i < rows.len()
        invariant
            keys_sorted(rows@),
            i <= rows@.len(),
            forall|j: int| 0 <= j < i ==> str_lt(#[trigger] rows@[j].key_of(), key@),
        decreases rows.len() - i,
    {
        let k = rows[i].key();
        if *k == *key {
            proof {
                assert(has_key(rows@, key@));
                let c = key_index(rows@, key@);
                lemma_key_unique(rows@, c, i as int);
            }
            return Ok(i);
        }
        if !str_less(k, key) {
            proof {
                lemma_str_lt_total(rows@[i as int].key_of(), key@);
                assert(str_lt(key@, rows@[i as int].key_of()));
                assert forall|j: int| i <= j < rows@.len() implies str_lt(key@, #[trigger] rows@[j].key_of()) by {
                    if j > i {
                        lemma_str_lt_trans(key@, rows@[i as int].key_of(), rows@[j].key_of());
                    }
                }
                assert forall|j: int| i <= j < rows@.len() implies !str_lt(#[trigger] rows@[j].key_of(), key@) by {
                    lemma_str_lt_asym(key@, rows@[j].key_of());
                }
                assert(!has_key(rows@, key@)) by {
                    if has_key(rows@, key@) {
                        let c = choose|c: int| 0 <= c < rows@.len() && #[trigger] rows@[c].key_of() == key@;
                        if c < i {
                            lemma_str_lt_irrefl(key@);
                        } else {
                            lemma_str_lt_irrefl(key@);
                        }
                    }
                }
                lemma_count_below(rows@, key@, i as int);
            }
            return Err(i);
        }
        i = i + 1;
    }
    proof {
        assert(!has_key(rows@, key@)) by {
            if has_key(rows@, key@) {
                let c = choose|c: int| 0 <= c < rows@.len() && #[trigger] rows@[c].key_of() == key@;
                lemma_str_lt_irrefl(key@);
            }
        }
        lemma_count_below(rows@, key@, i as int);
    }
    Err(i)
}

/// `count_below` never exceeds the number of rows.
pub proof fn lemma_count_below_le<T: Keyed>(rows: Seq<T>, k: Seq<char>)
    ensures
        count_below(rows, k) <= rows.len(),
    decreases rows.len(),
{
    if rows.len() > 0 {
        lemma_count_below_le(rows.drop_last(), k);
    }
}

/// In a sorted table, the first `count_below` rows are exactly those below `k`.
pub proof fn lemma_count_below_split<T: Keyed>(rows: Seq<T>, k: Seq<char>)
    requires
        keys_sorted(rows),
    ensures
        count_below(rows, k) <= rows.len(),
        forall|j: int| 0 <= j < rows.len() ==> (j < count_below(rows, k) <==> str_lt(#[trigger] rows[j].key_of(), k)),
    decreases rows.len(),
{
    lemma_count_below_le(rows, k);
    if rows.len() > 0 {
        let d = rows.drop_last();
        assert forall|i: int, j: int| 0 <= i < j < d.len() implies str_lt(#[trigger] d[i].key_of(), #[trigger] d[j].key_of()) by {
            assert(d[i] == rows[i] && d[j] == rows[j]);
        }
        lemma_count_below_split(d, k);
        let n = rows.len() - 1;
        if str_lt(rows[n].key_of(), k) {
            assert forall|j: int| 0 <= j < d.len() implies str_lt(#[trigger] d[j].key_of(), k) by {
                assert(d[j] == rows[j]);
                lemma_str_lt_trans(rows[j].key_of(), rows[n].key_of(), k);
            }
            assert(count_below(d, k) >= d.len()) by {
                if count_below(d, k) < d.len() {
                    let j = count_below(d, k) as int;
                    assert(str_lt(d[j].key_of(), k));
                }
            }
        }
        assert forall|j: int| 0 <= j < rows.len() implies (j < count_below(rows, k) <==> str_lt(#[trigger] rows[j].key_of(), k)) by {
            if j < n {
                assert(d[j] == rows[j]);
            }
        }
    }
}

/// Inserting a row with a new key at its position keeps the table sorted.
pub proof fn lemma_insert_sorted<T: Keyed>(rows: Seq<T>, x: T)
    requires
        keys_sorted(rows),
        !has_key(rows, x.key_of()),
    ensures
        keys_sorted(rows.insert(count_below(rows, x.key_of()) as int, x)),
        count_below(rows, x.key_of()) <= rows.len(),
{
    let k = x.key_of();
    lemma_count_below_split(rows, k);
    let p = count_below(rows, k) as int;
    assert forall|j: int| p <= j < rows.len() implies str_lt(k, #[trigger] rows[j].key_of()) by {
        assert(rows[j].key_of() != k);
        lemma_str_lt_total(rows[j].key_of(), k);
    }
    let s = rows.insert(p, x);
    assert forall|i: int, j: int| 0 <= i < j < s.len() implies str_lt(#[trigger] s[i].key_of(), #[trigger] s[j].key_of()) by {
        if j < p {
            assert(s[i] == rows[i] && s[j] == rows[j]);
        } else if j == p {
            assert(s[i] == rows[i]);
        } else if i == p {
            assert(s[j] == rows[j - 1]);
        } else if i < p {
            assert(s[i] == rows[i] && s[j] == rows[j - 1]);
        } else {
            assert(s[i] == rows[i - 1] && s[j] == rows[j - 1]);
        }
    }
}

/// Replacing a row by one with the same key keeps the table sorted.
pub proof fn lemma_update_sorted<T: Keyed>(rows: Seq<T>, i: int, x: T)
    requires
        keys_sorted(rows),
        0 <= i < rows.len(),
        x.key_of() == rows[i].key_of(),
    ensures
        keys_sorted(rows.update(i, x)),
{
    let s = rows.update(i, x);
    assert forall|a: int, b: int| 0 <= a < b < s.len() implies str_lt(#[trigger] s[a].key_of(), #[trigger] s[b].key_of()) by {
        assert(s[a].key_of() == rows[a].key_of());
        assert(s[b].key_of() == rows[b].key_of());
    }
}

/// Removing a row keeps the table sorted.
pub proof fn lemma_remove_sorted<T: Keyed>(rows: Seq<T>, i: int)
    requires
        keys_sorted(rows),
        0 <= i < rows.len(),
    ensures
        keys_sorted(rows.remove(i)),
{
    let s = rows.remove(i);
    assert forall|a: int, b: int| 0 <= a < b < s.len() implies str_lt(#[trigger] s[a].key_of(), #[trigger] s[b].key_of()) by {
        let a0 = if a < i { a } else { a + 1 };
        let b0 = if b < i { b } else { b + 1 };
        assert(s[a] == rows[a0] && s[b] == rows[b0]);
    }
}

} // verus!
