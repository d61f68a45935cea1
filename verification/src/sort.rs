//! Presentation ordering: rows keyed by a metric, sorted descending
//! with alphabetical tie-break.

use vstd::prelude::*;
use vstd::multiset::group_multiset_axioms;
use vstd::seq_lib::group_to_multiset_ensures;

use crate::text::lemma_lex_total;
use crate::text::lemma_lex_trans;
use crate::text::lex_le;
use crate::text::str_lex_le;

verus! {

broadcast use group_to_multiset_ensures, group_multiset_axioms;

/// `a` is listed no later than `b`: the larger key first, ties in
/// lexicographic name order.
pub open spec fn order_le(a: (Seq<char>, int), b: (Seq<char>, int)) -> bool {
    a.1 > b.1 || (a.1 == b.1 && lex_le(a.0, b.0))
}

pub proof fn lemma_order_total(a: (Seq<char>, int), b: (Seq<char>, int))
    ensures
        order_le(a, b) || order_le(b, a),
{
    lemma_lex_total(a.0, b.0);
}

pub proof fn lemma_order_trans(a: (Seq<char>, int), b: (Seq<char>, int), c: (Seq<char>, int))
    requires
        order_le(a, b),
        order_le(b, c),
    ensures
        order_le(a, c),
{
    if a.1 == b.1 && b.1 == c.1 {
        lemma_lex_trans(a.0, b.0, c.0);
    }
}

/// One row prepared for sorting: a product name and its sort key.
pub struct SortEntry {
    pub name: String,
    pub key: i128,
}

impl View for SortEntry {
    type V = (Seq<char>, int);

    open spec fn view(&self) -> (Seq<char>, int) {
        (self.name@, self.key as int)
    }
}

/// The pairs a vector of sort rows stands for.
pub open spec fn entry_views(s: Seq<SortEntry>) -> Seq<(Seq<char>, int)> {
    s.map_values(|e: SortEntry| e@)
}

/// Compares two rows in presentation order.
fn entry_le(a: &SortEntry, b: &SortEntry) -> (r: bool)
    ensures
        r == order_le(a@, b@),
{
    if a.key > b.key {
        true
    } else if a.key < b.key {
        false
    } else {
        str_lex_le(a.name.as_str(), b.name.as_str())
    }
}

/// Sorts rows into presentation order, keeping exactly the same rows.
pub fn sort_entries(v: &mut Vec<SortEntry>)
    ensures
        final(v)@.len() == old(v)@.len(),
        entry_views(final(v)@).to_multiset() == entry_views(old(v)@).to_multiset(),
        forall|p: int, q: int|
            0 <= p < q < final(v)@.len() ==> order_le(
                #[trigger] entry_views(final(v)@)[p],
                #[trigger] entry_views(final(v)@)[q],
            ),
{
    let n = v.len();
    if n == 0 {
        return ;
    }
    let mut i: usize = 1;
    while i < n
        invariant
            1 <= i <= n,
            n == v@.len(),
            entry_views(v@).to_multiset() == entry_views(old(v)@).to_multiset(),
            forall|p: int, q: int|
                0 <= p < q < i ==> order_le(
                    #[trigger] entry_views(v@)[p],
                    #[trigger] entry_views(v@)[q],
                ),
        decreases n - i,
    {
        let ghost before = v@;
        let ghost bv = entry_views(v@);
        let mut p: usize = 0;
        while p < i && entry_le(&v[p], &v[i])
            invariant
                0 <= p <= i,
                i < n,
                n == v@.len(),
                v@ == before,
                bv == entry_views(before),
                forall|q: int|
                    0 <= q < p ==> order_le(#[trigger] bv[q], bv[i as int]),
            decreases i - p,
        {
            proof {
                assert(bv[p as int] == v@[p as int]@);
                assert(bv[i as int] == v@[i as int]@);
            }
            p += 1;
        }
        proof {
            assert(bv[p as int] == v@[p as int]@);
            assert(bv[i as int] == v@[i as int]@);
        }
        let x = v.remove(i);
        v.insert(p, x);
        proof {
            let av = entry_views(v@);
            let e = bv[i as int];
            assert(v@ =~= before.remove(i as int).insert(p as int, before[i as int]));
            assert(av =~= bv.remove(i as int).insert(p as int, e));
            // same rows as before
            assert(bv.contains(e));
            assert(bv.to_multiset().contains(e));
            assert(bv.remove(i as int).to_multiset() == bv.to_multiset().remove(e));
            assert(av.to_multiset() == bv.to_multiset().remove(e).insert(e));
            assert(av.to_multiset() =~= bv.to_multiset());
            // index map: av = bv[0..p] + [e] + bv[p..i] + bv[i+1..]
            assert(forall|q: int| 0 <= q < p ==> av[q] == bv[q]);
            assert(av[p as int] == e);
            assert(forall|q: int| p < q <= i ==> av[q] == bv[q - 1]);
            // the moved row comes after everything before its slot,
            // and before everything it displaced
            if p < i {
                assert(!order_le(bv[p as int], e));
                lemma_order_total(bv[p as int], e);
                assert forall|q: int| p <= q < i implies order_le(e, #[trigger] bv[q]) by {
                    if q > p {
                        assert(order_le(bv[p as int], bv[q]));
                        lemma_order_trans(e, bv[p as int], bv[q]);
                    }
                }
            }
            assert forall|a: int, b: int|
                0 <= a < b < i + 1 implies order_le(#[trigger] av[a], #[trigger] av[b]) by {
                if b < p {
                    assert(order_le(bv[a], bv[b]));
                } else if b == p {
                    assert(order_le(bv[a], e));
                } else if a < p {
                    assert(order_le(bv[a], bv[b - 1]));
                } else if a == p {
                    assert(order_le(e, bv[b - 1]));
                } else {
                    assert(order_le(bv[a - 1], bv[b - 1]));
                }
            }
        }
        i += 1;
    }
}

/// Two pair sequences with the same rows have the same names.
pub proof fn lemma_map_fst_multiset(a: Seq<(Seq<char>, int)>, b: Seq<(Seq<char>, int)>)
    requires
        a.to_multiset() == b.to_multiset(),
    ensures
        a.map_values(|p: (Seq<char>, int)| p.0).to_multiset() == b.map_values(
            |p: (Seq<char>, int)| p.0,
        ).to_multiset(),
    decreases a.len(),
{
    let fst = |p: (Seq<char>, int)| p.0;
    if a.len() == 0 {
        assert(a.to_multiset().len() == 0);
        assert(b.len() == 0);
        assert(a.map_values(fst) =~= b.map_values(fst));
    } else {
        let x = a[0];
        assert(a.contains(x));
        assert(a.to_multiset().contains(x));
        assert(b.to_multiset().contains(x));
        assert(b.contains(x));
        let j = choose|j: int| 0 <= j < b.len() && b[j] == x;
        assert(a.remove(0).to_multiset() == a.to_multiset().remove(x));
        assert(b.remove(j).to_multiset() == b.to_multiset().remove(x));
        lemma_map_fst_multiset(a.remove(0), b.remove(j));
        assert(a.remove(0).map_values(fst) =~= a.map_values(fst).remove(0));
        assert(b.remove(j).map_values(fst) =~= b.map_values(fst).remove(j));
        let ma = a.map_values(fst).to_multiset();
        let mb = b.map_values(fst).to_multiset();
        assert(a.map_values(fst).remove(0).to_multiset() == ma.remove(x.0)) by {
            assert(a.map_values(fst)[0] == x.0);
        }
        assert(b.map_values(fst).remove(j).to_multiset() == mb.remove(x.0)) by {
            assert(b.map_values(fst)[j] == x.0);
        }
        assert(ma.contains(x.0)) by {
            assert(a.map_values(fst)[0] == x.0);
            assert(a.map_values(fst).contains(x.0));
        }
        assert(mb.contains(x.0)) by {
            assert(b.map_values(fst)[j] == x.0);
            assert(b.map_values(fst).contains(x.0));
        }
        assert(ma =~= mb) by {
            assert(ma.remove(x.0) =~= mb.remove(x.0));
            assert forall|y: Seq<char>| true implies ma.count(y) == mb.count(y) by {
                if y == x.0 {
                    assert(ma.count(y) == ma.remove(x.0).count(y) + 1);
                    assert(mb.count(y) == mb.remove(x.0).count(y) + 1);
                } else {
                    assert(ma.count(y) == ma.remove(x.0).count(y));
                    assert(mb.count(y) == mb.remove(x.0).count(y));
                }
            }
        }
    }
}

} // verus!
