//! Sorting by a total preorder, used for file lists, configs and backups.
use vstd::prelude::*;
use vstd::multiset::Multiset;

use crate::text::{lemma_text_le_total_ordering, lemma_text_lt_asymmetric, lemma_text_lt_irreflexive, lemma_text_lt_transitive, lemma_text_trichotomy, str_less, text_le, text_lt};

verus! {

broadcast use vstd::seq_lib::group_to_multiset_ensures;

/// A total preorder on the values of a type, with an executable comparison.
pub trait SortKey: Sized {
    spec fn key_le(&self, other: &Self) -> bool;

    proof fn lemma_key_le_total(a: &Self, b: &Self)
        ensures
            a.key_le(b) || b.key_le(a),
    ;

    proof fn lemma_key_le_transitive(a: &Self, b: &Self, c: &Self)
        requires
            a.key_le(b),
            b.key_le(c),
        ensures
            a.key_le(c),
    ;

    fn less_or_equal(&self, other: &Self) -> (r: bool)
        ensures
            r == self.key_le(other),
    ;
}

/// A sequence is sorted by the preorder of its element type.
pub open spec fn sorted_by_key<T: SortKey>(s: Seq<T>) -> bool {
    forall|i: int, j: int| #![trigger s[i], s[j]] 0 <= i < j < s.len() ==> s[i].key_le(&s[j])
}

proof fn lemma_insert_to_multiset<T>(s: Seq<T>, i: int, x: T)
    requires
        0 <= i <= s.len(),
    ensures
        s.insert(i, x).to_multiset() =~= s.to_multiset().insert(x),
{
    let t = s.insert(i, x);
    assert(t.remove(i) =~= s);
    assert(t.to_multiset().remove(x) =~= s.to_multiset());
    assert(t.to_multiset().count(x) > 0) by {
        assert(t[i] == x);
        assert(t.contains(x));
    }
    let m = t.to_multiset();
    let n = s.to_multiset().insert(x);
    assert forall|y: T| m.count(y) == n.count(y) by {
        if y == x {
            assert(m.remove(x).count(x) == m.count(x) - 1);
        } else {
            assert(m.remove(x).count(y) == m.count(y));
        }
    }
}

/// Sorts a vector by the element order; the result holds the same elements.
/// Elements that compare equal keep their relative order.
pub fn sort_by_key<T: SortKey>(v: Vec<T>) -> (r: Vec<T>)
    ensures
        r@.to_multiset() =~= v@.to_multiset(),
        r@.len() == v@.len(),
        sorted_by_key(r@),
{
    let ghost orig = v@;
    let mut rest = v;
    let mut out: Vec<T> = Vec::new();
    while rest.len() > 0
        invariant
            out@.to_multiset().add(rest@.to_multiset()) =~= orig.to_multiset(),
            out@.len() + rest@.len() == orig.len(),
            sorted_by_key(out@),
        decreases rest.len(),
    {
        let ghost before = rest@;
        let x = rest.pop().unwrap();
        assert(before =~= rest@.push(x));
        let mut j: usize = 0;
        while j < out.len() && !x.less_or_equal(&out[j])
            invariant
                j <= out.len(),
                forall|k: int| #![trigger out@[k]] 0 <= k < j ==> out@[k].key_le(&x),
            decreases out.len() - j,
        {
            proof {
                T::lemma_key_le_total(&x, &out@[j as int]);
            }
            j = j + 1;
        }
        let ghost old_out = out@;
        proof {
            if j < old_out.len() {
                assert(x.key_le(&old_out[j as int]));
                assert forall|k: int| #![trigger old_out[k]] j < k < old_out.len() implies x.key_le(&old_out[k]) by {
                    T::lemma_key_le_transitive(&x, &old_out[j as int], &old_out[k]);
                }
            }
            lemma_insert_to_multiset(old_out, j as int, x);
        }
        out.insert(j, x);
        assert(out@ =~= old_out.insert(j as int, x));
        assert forall|a: int, b: int| #![trigger out@[a], out@[b]] 0 <= a < b < out@.len() implies out@[a].key_le(&out@[b]) by {
            if b < j {
            } else if b == j {
            } else if a < j {
                assert(out@[a] == old_out[a]);
                assert(out@[b] == old_out[b - 1]);
                assert(old_out[a].key_le(&x));
                T::lemma_key_le_transitive(&old_out[a], &x, &old_out[b - 1]);
            } else if a == j {
            } else {
                assert(out@[a] == old_out[a - 1]);
                assert(out@[b] == old_out[b - 1]);
            }
        }
    }
    out
}

/// Two sequences with the same elements still have the same elements after
/// each element is mapped.
pub proof fn lemma_map_multiset<A, B>(a: Seq<A>, b: Seq<A>, f: spec_fn(A) -> B)
    requires
        a.to_multiset() == b.to_multiset(),
    ensures
        a.map_values(f).to_multiset() == b.map_values(f).to_multiset(),
    decreases a.len(),
{
    if a.len() == 0 {
        assert(a.to_multiset().len() == a.len());
        assert(b.to_multiset().len() == b.len());
        assert(b.len() == 0);
        assert(a.map_values(f) =~= b.map_values(f));
    } else {
        let x = a.last();
        assert(a.contains(x)) by {
            assert(a[a.len() - 1] == x);
        }
        assert(b.to_multiset().count(x) > 0);
        assert(b.contains(x));
        let i = choose|i: int| 0 <= i < b.len() && b[i] == x;
        let b2 = b.remove(i);
        assert(a.drop_last().push(x) =~= a);
        assert(a.drop_last().to_multiset() =~= b2.to_multiset()) by {
            assert(a.to_multiset() =~= a.drop_last().to_multiset().insert(x));
            assert(b2.to_multiset() =~= b.to_multiset().remove(x));
            assert forall|y: A| a.drop_last().to_multiset().count(y) == b2.to_multiset().count(y) by {
                if y == x {
                } else {
                }
            }
        }
        lemma_map_multiset(a.drop_last(), b2, f);
        assert(a.map_values(f) =~= a.drop_last().map_values(f).push(f(x)));
        assert(b.map_values(f) =~= b2.map_values(f).insert(i, f(x)));
        lemma_insert_to_multiset(b2.map_values(f), i, f(x));
    }
}

/// Two texts sequences sorted the same way and holding the same texts are equal.
pub proof fn lemma_sorted_texts_unique(x: Seq<String>, y: Seq<String>)
    requires
        sorted_by_key(x),
        sorted_by_key(y),
        x.to_multiset() == y.to_multiset(),
    ensures
        x.map_values(|s: String| s@) == y.map_values(|s: String| s@),
{
    let f = |s: String| s@;
    let le = |a: Seq<char>, b: Seq<char>| text_le(a, b);
    lemma_map_multiset(x, y, f);
    lemma_text_le_total_ordering();
    let xv = x.map_values(f);
    let yv = y.map_values(f);
    assert(vstd::relations::sorted_by(xv, le)) by {
        assert forall|i: int, j: int| 0 <= i < j < xv.len() implies #[trigger] le(xv[i], xv[j]) by {
            assert(x[i].key_le(&x[j]));
        }
    }
    assert(vstd::relations::sorted_by(yv, le)) by {
        assert forall|i: int, j: int| 0 <= i < j < yv.len() implies #[trigger] le(yv[i], yv[j]) by {
            assert(y[i].key_le(&y[j]));
        }
    }
    vstd::seq_lib::lemma_sorted_unique(xv, yv, le);
}

impl SortKey for String {
    open spec fn key_le(&self, other: &Self) -> bool {
        text_le(self@, other@)
    }

    proof fn lemma_key_le_total(a: &Self, b: &Self) {
        lemma_text_trichotomy(a@, b@);
    }

    proof fn lemma_key_le_transitive(a: &Self, b: &Self, c: &Self) {
        if text_lt(a@, b@) && text_lt(b@, c@) {
            lemma_text_lt_transitive(a@, b@, c@);
        }
    }

    fn less_or_equal(&self, other: &Self) -> (r: bool) {
        let r = !str_less(other.as_str(), self.as_str());
        proof {
            lemma_text_trichotomy(self@, other@);
            lemma_text_lt_asymmetric(self@, other@);
            lemma_text_lt_irreflexive(self@);
        }
        r
    }
}

} // verus!
