use crate::ledger::{distinct_ids, ledger_view};
use vstd::prelude::*;

verus! {

/// Lexicographic order of identifiers by characters, which is the byte order of their
/// UTF-8 encoding.
pub open spec fn id_less(a: Seq<char>, b: Seq<char>) -> bool
    decreases a.len(),
{
    if a.len() == 0 {
        b.len() > 0
    } else if b.len() == 0 {
        false
    } else if a[0] != b[0] {
        a[0] < b[0]
    } else {
        id_less(a.drop_first(), b.drop_first())
    }
}

/// The identifiers of the ledger are in strictly increasing order.
pub open spec fn sorted_ids(l: Seq<(Seq<char>, u64)>) -> bool {
    forall|i: int, j: int| 0 <= i < j < l.len() ==> id_less((#[trigger] l[i]).0, (#[trigger] l[j]).0)
}

pub proof fn lemma_id_less_irreflexive(a: Seq<char>)
    ensures
        !id_less(a, a),
    decreases a.len(),
{
    if a.len() > 0 {
        lemma_id_less_irreflexive(a.drop_first());
    }
}

pub proof fn lemma_id_less_total(a: Seq<char>, b: Seq<char>)
    requires
        a != b,
    ensures
        id_less(a, b) || id_less(b, a),
    decreases a.len(),
{
    if a.len() > 0 && b.len() > 0 && a[0] == b[0] {
        if a.drop_first() == b.drop_first() {
            assert(a =~= seq![a[0]] + a.drop_first());
            assert(b =~= seq![b[0]] + b.drop_first());
        }
        lemma_id_less_total(a.drop_first(), b.drop_first());
    } else if a.len() == 0 && b.len() == 0 {
        assert(a =~= b);
    }
}

pub proof fn lemma_id_less_transitive(a: Seq<char>, b: Seq<char>, c: Seq<char>)
    requires
        id_less(a, b),
        id_less(b, c),
    ensures
        id_less(a, c),
    decreases a.len(),
{
    if a.len() > 0 && a[0] == b[0] && b[0] == c[0] {
        lemma_id_less_transitive(a.drop_first(), b.drop_first(), c.drop_first());
    }
}

/// `x` is an entry of `l`.
pub open spec fn has_entry(l: Seq<(Seq<char>, u64)>, x: (Seq<char>, u64)) -> bool {
    exists|j: int| 0 <= j < l.len() && l[j] == x
}

/// Whether identifier `a` comes before identifier `b`.
pub fn id_before(a: &String, b: &String) -> (r: bool)
    ensures
        r == id_less(a@, b@),
{
    let n = a.as_str().unicode_len();
    let m = b.as_str().unicode_len();
    let mut i: usize = 0;
    assert(a@.skip(0) =~= a@);
    assert(b@.skip(0) =~= b@);
    while i < n && i < m
        invariant
            n == a@.len(),
            m == b@.len(),
            i <= n,
            i <= m,
            id_less(a@, b@) == id_less(a@.skip(i as int), b@.skip(i as int)),
        decreases n - i,
    {
        let x = a.as_str().get_char(i);
        let y = b.as_str().get_char(i);
        assert(a@.skip(i as int)[0] == x);
        assert(b@.skip(i as int)[0] == y);
        if x != y {
            return x < y;
        }
        assert(a@.skip(i as int).drop_first() =~= a@.skip(i + 1));
        assert(b@.skip(i as int).drop_first() =~= b@.skip(i + 1));
        i += 1;
    }
    i < m
}

/// The same entries, ordered by identifier.
pub fn sort_by_id(l: Vec<(String, u64)>) -> (r: Vec<(String, u64)>)
    requires
        distinct_ids(ledger_view(l@)),
    ensures
        r.len() == l.len(),
        sorted_ids(ledger_view(r@)),
        forall|i: int| 0 <= i < r.len() ==> has_entry(ledger_view(l@), #[trigger] ledger_view(r@)[i]),
        forall|j: int| 0 <= j < l.len() ==> has_entry(ledger_view(r@), #[trigger] ledger_view(l@)[j]),
{
    let ghost lv = ledger_view(l@);
    let mut out: Vec<(String, u64)> = Vec::new();
    let mut t: usize = 0;
    while t < l.len()
        invariant
            t <= l.len(),
            lv == ledger_view(l@),
            distinct_ids(lv),
            out.len() == t,
            sorted_ids(ledger_view(out@)),
            forall|i: int| 0 <= i < out.len() ==> has_entry(lv.take(t as int), #[trigger] ledger_view(out@)[i]),
            forall|j: int| 0 <= j < t ==> has_entry(ledger_view(out@), #[trigger] lv[j]),
        decreases l.len() - t,
    {
        let ghost ov = ledger_view(out@);
        let mut p: usize = 0;
        while p < out.len() && id_before(&out[p].0, &l[t].0)
            invariant
                p <= out.len(),
                t < l.len(),
                lv == ledger_view(l@),
                ov == ledger_view(out@),
                forall|q: int| 0 <= q < p ==> id_less(#[trigger] ov[q].0, lv[t as int].0),
            decreases out.len() - p,
        {
            p += 1;
        }
        proof {
            assert forall|q: int| p <= q < ov.len() implies id_less(lv[t as int].0, #[trigger] ov[q].0) by {
                assert(has_entry(lv.take(t as int), ov[p as int]));
                let j = choose|j: int| 0 <= j < t && lv.take(t as int)[j] == ov[p as int];
                assert(lv.take(t as int)[j] == lv[j]);
                assert(lv[j].0 != lv[t as int].0);
                lemma_id_less_total(ov[p as int].0, lv[t as int].0);
                if q > p {
                    lemma_id_less_transitive(lv[t as int].0, ov[p as int].0, ov[q].0);
                }
            }
        }
        out.insert(p, (l[t].0.clone(), l[t].1));
        proof {
            let nv = ledger_view(out@);
            assert(nv =~= ov.insert(p as int, lv[t as int]));
            assert forall|i: int, j: int| 0 <= i < j < nv.len() implies id_less((#[trigger] nv[i]).0, (#[trigger] nv[j]).0) by {
                if j < p {
                } else if j == p {
                } else if i < p {
                    lemma_id_less_transitive(ov[i].0, lv[t as int].0, ov[j - 1].0);
                } else if i == p {
                } else {
                }
            }
            assert forall|i: int| 0 <= i < nv.len() implies has_entry(lv.take(t + 1), #[trigger] nv[i]) by {
                if i == p {
                    assert(lv.take(t + 1)[t as int] == nv[i]);
                } else {
                    let k = if i < p { i } else { i - 1 };
                    assert(nv[i] == ov[k]);
                    assert(has_entry(lv.take(t as int), ov[k]));
                    let j = choose|j: int| 0 <= j < t && lv.take(t as int)[j] == ov[k];
                    assert(lv.take(t + 1)[j] == lv.take(t as int)[j]);
                }
            }
            assert forall|j: int| 0 <= j < t + 1 implies has_entry(nv, #[trigger] lv[j]) by {
                if j < t {
                    assert(has_entry(ov, lv[j]));
                    let i = choose|i: int| 0 <= i < ov.len() && ov[i] == lv[j];
                    if i < p {
                        assert(nv[i] == lv[j]);
                    } else {
                        assert(nv[i + 1] == lv[j]);
                    }
                } else {
                    assert(nv[p as int] == lv[j]);
                }
            }
        }
        t += 1;
    }
    assert(lv.take(l.len() as int) =~= lv);
    out
}

} // verus!
