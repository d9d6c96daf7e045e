use crate::order::{
    has_entry,
    id_less,
    lemma_id_less_irreflexive,
    lemma_id_less_transitive,
    sort_by_id,
    sorted_ids,
};
use vstd::prelude::*;

verus! {


/// The entries of the documents as identifiers and fixed-point amounts.
pub open spec fn entries_view(e: Seq<(String, i128)>) -> Seq<(Seq<char>, int)> {
    e.map_values(|p: (String, i128)| (p.0@, p.1 as int))
}

/// A ledger as identifiers and fixed-point balances.
pub open spec fn ledger_view(l: Seq<(String, u64)>) -> Seq<(Seq<char>, u64)> {
    l.map_values(|p: (String, u64)| (p.0@, p.1))
}

/// The sum of every amount recorded for `id`.
pub open spec fn total_for(e: Seq<(Seq<char>, int)>, id: Seq<char>) -> int
    decreases e.len(),
{
    if e.len() == 0 {
        0
    } else {
        total_for(e.drop_last(), id) + if e.last().0 == id {
            e.last().1
        } else {
            0
        }
    }
}

/// `id` has at least one entry.
pub open spec fn occurs(e: Seq<(Seq<char>, int)>, id: Seq<char>) -> bool {
    exists|i: int| 0 <= i < e.len() && (#[trigger] e[i]).0 == id
}

pub open spec fn distinct_ids(l: Seq<(Seq<char>, u64)>) -> bool {
    forall|i: int, j: int| 0 <= i < l.len() && 0 <= j < l.len() && i != j ==> (#[trigger] l[i]).0 != (#[trigger] l[j]).0
}

/// Every running total, after each prefix of the entries, stays within the 128-bit range.
pub open spec fn running_totals_fit(e: Seq<(Seq<char>, int)>) -> bool {
    forall|t: int, id: Seq<char>|
        0 <= t <= e.len() ==> i128::MIN <= #[trigger] total_for(e.take(t), id) <= i128::MAX
}

/// Every total stays below the largest unsigned 64-bit value.
pub open spec fn totals_fit(e: Seq<(Seq<char>, int)>) -> bool {
    forall|id: Seq<char>| #[trigger] occurs(e, id) ==> total_for(e, id) < u64::MAX
}

/// `l` lists, once each, exactly the identifiers of `e` whose total is positive, with that total.
pub open spec fn is_balance_ledger(l: Seq<(Seq<char>, u64)>, e: Seq<(Seq<char>, int)>) -> bool {
    &&& distinct_ids(l)
    &&& forall|i: int| 0 <= i < l.len() ==> {
        &&& occurs(e, (#[trigger] l[i]).0)
        &&& l[i].1 as int == total_for(e, l[i].0)
        &&& l[i].1 > 0
    }
    &&& forall|id: Seq<char>| #[trigger] occurs(e, id) && total_for(e, id) > 0 ==> exists|i: int|
        0 <= i < l.len() && (#[trigger] l[i]).0 == id
}

proof fn lemma_total_absent(e: Seq<(Seq<char>, int)>, id: Seq<char>)
    requires
        !occurs(e, id),
    ensures
        total_for(e, id) == 0,
    decreases e.len(),
{
    if e.len() > 0 {
        assert(!occurs(e.drop_last(), id)) by {
            if occurs(e.drop_last(), id) {
                let i = choose|i: int| 0 <= i < e.drop_last().len() && (#[trigger] e.drop_last()[i]).0 == id;
                assert(e[i] == e.drop_last()[i]);
            }
        }
        assert(e[e.len() - 1].0 != id);
        lemma_total_absent(e.drop_last(), id);
    }
}

fn find_key(keys: &Vec<String>, id: &String) -> (r: Option<usize>)
    ensures
        r matches Some(j) ==> j < keys.len() && keys@[j as int]@ == id@,
        r is None ==> forall|a: int| 0 <= a < keys.len() ==> (#[trigger] keys@[a])@ != id@,
{
    let mut j: usize = 0;
    while j < keys.len()
        invariant
            j <= keys.len(),
            forall|a: int| 0 <= a < j ==> (#[trigger] keys@[a])@ != id@,
        decreases keys.len() - j,
    {
        if keys[j] == *id {
            return Some(j);
        }
        j += 1;
    }
    None
}

proof fn lemma_reordered_ledger(
    l: Seq<(Seq<char>, u64)>,
    r: Seq<(Seq<char>, u64)>,
    e: Seq<(Seq<char>, int)>,
)
    requires
        is_balance_ledger(l, e),
        sorted_ids(r),
        forall|i: int| 0 <= i < r.len() ==> has_entry(l, #[trigger] r[i]),
        forall|j: int| 0 <= j < l.len() ==> has_entry(r, #[trigger] l[j]),
    ensures
        is_balance_ledger(r, e),
{
    assert forall|i: int, j: int| 0 <= i < r.len() && 0 <= j < r.len() && i != j implies (#[trigger] r[i]).0
        != (#[trigger] r[j]).0 by {
        lemma_id_less_irreflexive(r[i].0);
    }
    assert forall|i: int| 0 <= i < r.len() implies {
        &&& occurs(e, (#[trigger] r[i]).0)
        &&& r[i].1 as int == total_for(e, r[i].0)
        &&& r[i].1 > 0
    } by {
        assert(has_entry(l, r[i]));
        let j = choose|j: int| 0 <= j < l.len() && l[j] == r[i];
        assert(l[j] == r[i]);
    }
    assert forall|id: Seq<char>| #[trigger] occurs(e, id) && total_for(e, id) > 0 implies exists|i: int|
        0 <= i < r.len() && (#[trigger] r[i]).0 == id by {
        let j = choose|j: int| 0 <= j < l.len() && (#[trigger] l[j]).0 == id;
        assert(has_entry(r, l[j]));
        let i = choose|i: int| 0 <= i < r.len() && r[i] == l[j];
        assert(r[i].0 == id);
    }
}

/// Sums the amounts per identifier and keeps the positive totals, ordered by identifier;
/// fails with an identifier whose running total leaves the 128-bit range, or whose total
/// reaches the largest unsigned 64-bit value.
pub fn aggregate(entries: &Vec<(String, i128)>) -> (r: Result<Vec<(String, u64)>, String>)
    ensures
        r is Ok <==> running_totals_fit(entries_view(entries@)) && totals_fit(entries_view(entries@)),
        r matches Ok(l) ==> is_balance_ledger(ledger_view(l@), entries_view(entries@)) && sorted_ids(
            ledger_view(l@),
        ),
        r matches Err(id) ==> occurs(entries_view(entries@), id@) && (total_for(
            entries_view(entries@),
            id@,
        ) >= u64::MAX || exists|t: int|
            0 <= t <= entries.len() && !(i128::MIN <= #[trigger] total_for(
                entries_view(entries@).take(t),
                id@,
            ) <= i128::MAX)),
{
    let ghost e = entries_view(entries@);
    let mut keys: Vec<String> = Vec::new();
    let mut sums: Vec<i128> = Vec::new();
    let mut t: usize = 0;
    while t < entries.len()
        invariant
            e == entries_view(entries@),
            t <= entries.len(),
            keys.len() == sums.len(),
            forall|a: int, b: int|
                0 <= a < keys.len() && 0 <= b < keys.len() && a != b ==> (#[trigger] keys@[a])@
                    != (#[trigger] keys@[b])@,
            forall|a: int|
                0 <= a < keys.len() ==> occurs(e.take(t as int), (#[trigger] keys@[a])@) && sums@[a]
                    == total_for(e.take(t as int), keys@[a]@),
            forall|q: int, id: Seq<char>|
                0 <= q <= t ==> i128::MIN <= #[trigger] total_for(e.take(q), id) <= i128::MAX,
            forall|id: Seq<char>|
                #[trigger] occurs(e.take(t as int), id) ==> exists|a: int|
                    0 <= a < keys.len() && (#[trigger] keys@[a])@ == id,
        decreases entries.len() - t,
    {
        let id = &entries[t].0;
        let x = entries[t].1;
        let ghost before = e.take(t as int);
        let ghost after = e.take(t + 1);
        assert(after.drop_last() =~= before);
        assert(after.last() == (id@, x as int));
        let pos = find_key(&keys, id);
        proof {
            assert forall|a: int| 0 <= a < keys.len() && (#[trigger] keys@[a])@ != id@ implies occurs(
                after,
                keys@[a]@,
            ) && sums@[a] == total_for(after, keys@[a]@) by {
                let i = choose|i: int| 0 <= i < before.len() && (#[trigger] before[i]).0 == keys@[a]@;
                assert(after[i] == before[i]);
            }
        }
        if let Some(j) = pos {
            let s = match sums[j].checked_add(x) {
                Some(v) => v,
                None => {
                    proof {
                        assert(total_for(after, id@) == sums@[j as int] + x);
                        assert(occurs(e, id@)) by {
                            assert(e[t as int].0 == id@);
                        }
                        assert(e.take(t + 1) == after);
                    }
                    return Err(id.clone());
                },
            };
            proof {
                assert(total_for(after, id@) == s);
            }
            sums.set(j, s);
            proof {
                assert(keys@[j as int]@ == id@);
                assert(occurs(after, id@)) by {
                    assert(after[t as int].0 == id@);
                }
                assert forall|i: Seq<char>| #[trigger] occurs(after, i) implies exists|a: int|
                    0 <= a < keys.len() && (#[trigger] keys@[a])@ == i by {
                    let w = choose|w: int| 0 <= w < after.len() && (#[trigger] after[w]).0 == i;
                    if w < t {
                        assert(before[w] == after[w]);
                        assert(occurs(before, i));
                    } else {
                        assert(keys@[j as int]@ == i);
                    }
                }
            }
        } else {
            let ghost old_keys = keys@;
            proof {
                assert(!occurs(before, id@)) by {
                    if occurs(before, id@) {
                        let a = choose|a: int| 0 <= a < keys.len() && (#[trigger] keys@[a])@ == id@;
                    }
                }
                lemma_total_absent(before, id@);
            }
            keys.push(id.clone());
            sums.push(x);
            assert(total_for(after, id@) == x);
            proof {
                assert(keys@[old_keys.len() as int]@ == id@);
                assert(occurs(after, id@)) by {
                    assert(after[t as int].0 == id@);
                }
                assert forall|a: int| 0 <= a < old_keys.len() implies keys@[a] == old_keys[a] by {}
                assert forall|i: Seq<char>| #[trigger] occurs(after, i) implies exists|a: int|
                    0 <= a < keys.len() && (#[trigger] keys@[a])@ == i by {
                    let w = choose|w: int| 0 <= w < after.len() && (#[trigger] after[w]).0 == i;
                    if w < t {
                        assert(before[w] == after[w]);
                        assert(occurs(before, i));
                        let a = choose|a: int| 0 <= a < old_keys.len() && (#[trigger] old_keys[a])@ == i;
                        assert(keys@[a] == old_keys[a]);
                    } else {
                        assert(keys@[old_keys.len() as int]@ == i);
                    }
                }
            }
        }
        proof {
            assert(i128::MIN <= total_for(after, id@) <= i128::MAX);
            assert forall|q: int, i: Seq<char>| 0 <= q <= t + 1 implies i128::MIN <= #[trigger] total_for(
                e.take(q),
                i,
            ) <= i128::MAX by {
                if q == t + 1 && i != id@ {
                    assert(total_for(e.take(q), i) == total_for(e.take(t as int), i));
                }
            }
        }
        t += 1;
    }
    assert(e.take(entries.len() as int) =~= e);
    let mut out: Vec<(String, u64)> = Vec::new();
    let mut j: usize = 0;
    while j < keys.len()
        invariant
            e == entries_view(entries@),
            j <= keys.len(),
            keys.len() == sums.len(),
            forall|a: int, b: int|
                0 <= a < keys.len() && 0 <= b < keys.len() && a != b ==> (#[trigger] keys@[a])@
                    != (#[trigger] keys@[b])@,
            forall|a: int|
                0 <= a < keys.len() ==> occurs(e, (#[trigger] keys@[a])@) && sums@[a] == total_for(
                    e,
                    keys@[a]@,
                ),
            forall|id: Seq<char>|
                #[trigger] occurs(e, id) ==> exists|a: int| 0 <= a < keys.len() && (#[trigger] keys@[a])@ == id,
            forall|a: int| 0 <= a < j ==> #[trigger] sums@[a] < u64::MAX,
            forall|i: int, a: int|
                0 <= i < out.len() && j <= a < keys.len() ==> (#[trigger] keys@[a])@
                    != (#[trigger] out@[i]).0@,
            forall|i: int|
                0 <= i < out.len() ==> occurs(e, (#[trigger] out@[i]).0@) && out@[i].1 as int
                    == total_for(e, out@[i].0@) && out@[i].1 > 0,
            forall|a: int|
                0 <= a < j && #[trigger] sums@[a] > 0 ==> exists|i: int|
                    0 <= i < out.len() && (#[trigger] out@[i]).0@ == keys@[a]@,
            distinct_ids(ledger_view(out@)),
        decreases keys.len() - j,
    {
        let s = sums[j];
        if s >= u64::MAX as i128 {
            return Err(keys[j].clone());
        }
        if s > 0 {
            let ghost old_out = out@;
            let k = keys[j].clone();
            out.push((k, s as u64));
            proof {
                assert forall|i: int| 0 <= i < old_out.len() implies out@[i] == old_out[i] by {}
                assert forall|i: int|
                    0 <= i < old_out.len() implies (#[trigger] out@[i]).0@ != keys@[j as int]@ by {
                    assert(out@[i] == old_out[i]);
                }
                let lv = ledger_view(out@);
                assert forall|p: int, q: int|
                    0 <= p < lv.len() && 0 <= q < lv.len() && p != q implies (#[trigger] lv[p]).0
                        != (#[trigger] lv[q]).0 by {
                    if p < old_out.len() && q < old_out.len() {
                        assert(ledger_view(old_out)[p] == lv[p]);
                        assert(ledger_view(old_out)[q] == lv[q]);
                    }
                }
                assert forall|i: int, a: int|
                    0 <= i < out.len() && j + 1 <= a < keys.len() implies (#[trigger] keys@[a])@
                    != (#[trigger] out@[i]).0@ by {
                    if i < old_out.len() {
                        assert(out@[i] == old_out[i]);
                    } else {
                        assert(keys@[j as int]@ != keys@[a]@);
                    }
                }
                assert forall|a: int| 0 <= a < j + 1 && #[trigger] sums@[a] > 0 implies exists|i: int|
                    0 <= i < out.len() && (#[trigger] out@[i]).0@ == keys@[a]@ by {
                    if a == j {
                        assert(out@[old_out.len() as int].0@ == keys@[a]@);
                    } else {
                        let i = choose|i: int| 0 <= i < old_out.len() && (#[trigger] old_out[i]).0@ == keys@[a]@;
                        assert(out@[i] == old_out[i]);
                    }
                }
            }
        }
        j += 1;
    }
    proof {
        assert forall|id: Seq<char>| #[trigger] occurs(e, id) implies total_for(e, id) < u64::MAX by {
            let a = choose|a: int| 0 <= a < keys.len() && (#[trigger] keys@[a])@ == id;
            assert(sums@[a] < u64::MAX);
        }
        let lv = ledger_view(out@);
        assert forall|id: Seq<char>| #[trigger] occurs(e, id) && total_for(e, id) > 0 implies exists|i: int|
            0 <= i < lv.len() && (#[trigger] lv[i]).0 == id by {
            let a = choose|a: int| 0 <= a < keys.len() && (#[trigger] keys@[a])@ == id;
            assert(sums@[a] > 0);
            let i = choose|i: int| 0 <= i < out.len() && (#[trigger] out@[i]).0@ == keys@[a]@;
            assert(lv[i].0 == id);
        }
        assert forall|i: int| 0 <= i < lv.len() implies {
            &&& occurs(e, (#[trigger] lv[i]).0)
            &&& lv[i].1 as int == total_for(e, lv[i].0)
            &&& lv[i].1 > 0
        } by {
            assert(lv[i].0 == out@[i].0@);
        }
    }
    let sorted = sort_by_id(out);
    proof {
        lemma_reordered_ledger(ledger_view(out@), ledger_view(sorted@), e);
    }
    Ok(sorted)
}

proof fn lemma_total_concat(a: Seq<(Seq<char>, int)>, b: Seq<(Seq<char>, int)>, id: Seq<char>)
    ensures
        total_for(a + b, id) == total_for(a, id) + total_for(b, id),
    decreases b.len(),
{
    if b.len() == 0 {
        assert(a + b =~= a);
    } else {
        assert((a + b).drop_last() =~= a + b.drop_last());
        lemma_total_concat(a, b.drop_last(), id);
    }
}

proof fn lemma_occurs_concat(a: Seq<(Seq<char>, int)>, b: Seq<(Seq<char>, int)>, id: Seq<char>)
    ensures
        occurs(a + b, id) == (occurs(a, id) || occurs(b, id)),
{
    if occurs(a + b, id) {
        let i = choose|i: int| 0 <= i < (a + b).len() && (#[trigger] (a + b)[i]).0 == id;
        if i < a.len() {
            assert(a[i] == (a + b)[i]);
        } else {
            assert(b[i - a.len()] == (a + b)[i]);
        }
    }
    if occurs(a, id) {
        let i = choose|i: int| 0 <= i < a.len() && (#[trigger] a[i]).0 == id;
        assert((a + b)[i] == a[i]);
    }
    if occurs(b, id) {
        let i = choose|i: int| 0 <= i < b.len() && (#[trigger] b[i]).0 == id;
        assert((a + b)[a.len() + i] == b[i]);
    }
}

/// An identifier's total is the same whichever of two groups of entries comes first.
pub proof fn law_total_order_independent(
    a: Seq<(Seq<char>, int)>,
    b: Seq<(Seq<char>, int)>,
    id: Seq<char>,
)
    ensures
        total_for(a + b, id) == total_for(b + a, id),
        total_for(a + b, id) == total_for(a, id) + total_for(b, id),
{
    lemma_total_concat(a, b, id);
    lemma_total_concat(b, a, id);
}

proof fn lemma_ledger_same_totals(l: Seq<(Seq<char>, u64)>, e1: Seq<(Seq<char>, int)>, e2: Seq<(Seq<char>, int)>)
    requires
        forall|id: Seq<char>| #[trigger] occurs(e1, id) == occurs(e2, id),
        forall|id: Seq<char>| #[trigger] total_for(e1, id) == total_for(e2, id),
        is_balance_ledger(l, e1),
    ensures
        is_balance_ledger(l, e2),
{
    assert forall|i: int| 0 <= i < l.len() implies {
        &&& occurs(e2, (#[trigger] l[i]).0)
        &&& l[i].1 as int == total_for(e2, l[i].0)
        &&& l[i].1 > 0
    } by {
        assert(occurs(e1, l[i].0));
        assert(total_for(e1, l[i].0) == total_for(e2, l[i].0));
    }
    assert forall|id: Seq<char>| #[trigger] occurs(e2, id) && total_for(e2, id) > 0 implies exists|i: int|
        0 <= i < l.len() && (#[trigger] l[i]).0 == id by {
        assert(occurs(e1, id));
        assert(total_for(e1, id) == total_for(e2, id));
    }
}

/// A ledger of the entries of two groups of documents is a ledger of the same entries
/// taken in the other order, and the totals fit in one order exactly when they do in the other.
pub proof fn law_ledger_order_independent(
    l: Seq<(Seq<char>, u64)>,
    a: Seq<(Seq<char>, int)>,
    b: Seq<(Seq<char>, int)>,
)
    ensures
        is_balance_ledger(l, a + b) == is_balance_ledger(l, b + a),
        totals_fit(a + b) == totals_fit(b + a),
{
    assert forall|id: Seq<char>| #[trigger] occurs(a + b, id) == occurs(b + a, id) by {
        lemma_occurs_concat(a, b, id);
        lemma_occurs_concat(b, a, id);
    }
    assert forall|id: Seq<char>| #[trigger] total_for(a + b, id) == total_for(b + a, id) by {
        law_total_order_independent(a, b, id);
    }
    if is_balance_ledger(l, a + b) {
        lemma_ledger_same_totals(l, a + b, b + a);
    }
    if is_balance_ledger(l, b + a) {
        lemma_ledger_same_totals(l, b + a, a + b);
    }
    if totals_fit(a + b) {
        assert forall|id: Seq<char>| #[trigger] occurs(b + a, id) implies total_for(b + a, id) < u64::MAX by {
            assert(occurs(a + b, id));
        }
    }
    if totals_fit(b + a) {
        assert forall|id: Seq<char>| #[trigger] occurs(a + b, id) implies total_for(a + b, id) < u64::MAX by {
            assert(occurs(b + a, id));
        }
    }
}

proof fn lemma_total_single(x: (Seq<char>, int), id: Seq<char>)
    ensures
        total_for(seq![x], id) == if x.0 == id {
            x.1
        } else {
            0
        },
{
    let e = Seq::<(Seq<char>, int)>::empty();
    assert(seq![x].drop_last() =~= e);
    assert(total_for(e, id) == 0);
    assert(seq![x].last() == x);
}

/// An identifier's total depends only on which entries there are, not on their order.
pub proof fn law_total_permutation(
    first: Seq<(Seq<char>, int)>,
    second: Seq<(Seq<char>, int)>,
    id: Seq<char>,
)
    requires
        first.to_multiset() == second.to_multiset(),
    ensures
        total_for(first, id) == total_for(second, id),
    decreases first.len(),
{
    broadcast use vstd::seq_lib::group_to_multiset_ensures;

    if first.len() == 0 {
        assert(first.to_multiset().len() == 0);
        assert(second.len() == 0);
    } else {
        let x = first.last();
        let rest = first.drop_last();
        assert(rest.push(x) =~= first);
        assert(first.to_multiset() == rest.to_multiset().insert(x));
        assert(second.to_multiset().count(x) > 0);
        assert(second.contains(x));
        let j = choose|j: int| 0 <= j < second.len() && second[j] == x;
        let other = second.remove(j);
        assert(other.to_multiset() == second.to_multiset().remove(x));
        assert(other.to_multiset() =~= rest.to_multiset());
        law_total_permutation(rest, other, id);
        assert(second =~= second.take(j) + seq![x] + second.skip(j + 1));
        assert(other =~= second.take(j) + second.skip(j + 1));
        lemma_total_concat(second.take(j) + seq![x], second.skip(j + 1), id);
        lemma_total_concat(second.take(j), seq![x], id);
        lemma_total_concat(second.take(j), second.skip(j + 1), id);
        lemma_total_single(x, id);
    }
}

/// A ledger of some entries is a ledger of the same entries in any other order, and the
/// totals fit in one order exactly when they do in the other.
pub proof fn law_ledger_permutation(
    l: Seq<(Seq<char>, u64)>,
    first: Seq<(Seq<char>, int)>,
    second: Seq<(Seq<char>, int)>,
)
    requires
        first.to_multiset() == second.to_multiset(),
    ensures
        is_balance_ledger(l, first) == is_balance_ledger(l, second),
        totals_fit(first) == totals_fit(second),
{
    broadcast use vstd::seq_lib::group_to_multiset_ensures;

    assert forall|id: Seq<char>| #[trigger] occurs(first, id) == occurs(second, id) by {
        if occurs(first, id) {
            let i = choose|i: int| 0 <= i < first.len() && (#[trigger] first[i]).0 == id;
            assert(first.contains(first[i]));
            assert(first.to_multiset().count(first[i]) > 0);
            assert(second.contains(first[i]));
            let j = choose|j: int| 0 <= j < second.len() && second[j] == first[i];
            assert(second[j].0 == id);
        }
        if occurs(second, id) {
            let i = choose|i: int| 0 <= i < second.len() && (#[trigger] second[i]).0 == id;
            assert(second.contains(second[i]));
            assert(second.to_multiset().count(second[i]) > 0);
            assert(first.contains(second[i]));
            let j = choose|j: int| 0 <= j < first.len() && first[j] == second[i];
            assert(first[j].0 == id);
        }
    }
    assert forall|id: Seq<char>| #[trigger] total_for(first, id) == total_for(second, id) by {
        law_total_permutation(first, second, id);
    }
    if is_balance_ledger(l, first) {
        lemma_ledger_same_totals(l, first, second);
    }
    if is_balance_ledger(l, second) {
        lemma_ledger_same_totals(l, second, first);
    }
    if totals_fit(first) {
        assert forall|id: Seq<char>| #[trigger] occurs(second, id) implies total_for(second, id) < u64::MAX by {
            assert(occurs(first, id));
        }
    }
    if totals_fit(second) {
        assert forall|id: Seq<char>| #[trigger] occurs(first, id) implies total_for(first, id) < u64::MAX by {
            assert(occurs(second, id));
        }
    }
}

proof fn lemma_sorted_same_entries(a: Seq<(Seq<char>, u64)>, b: Seq<(Seq<char>, u64)>)
    requires
        sorted_ids(a),
        sorted_ids(b),
        forall|i: int| 0 <= i < a.len() ==> has_entry(b, #[trigger] a[i]),
        forall|j: int| 0 <= j < b.len() ==> has_entry(a, #[trigger] b[j]),
    ensures
        a == b,
    decreases a.len() + b.len(),
{
    if a.len() == 0 || b.len() == 0 {
        if a.len() > 0 {
            assert(has_entry(b, a[0]));
        }
        if b.len() > 0 {
            assert(has_entry(a, b[0]));
        }
        assert(a =~= b);
    } else {
        assert(has_entry(b, a[0]));
        let j = choose|j: int| 0 <= j < b.len() && b[j] == a[0];
        assert(has_entry(a, b[0]));
        let i = choose|i: int| 0 <= i < a.len() && a[i] == b[0];
        if j > 0 {
            assert(id_less(b[0].0, a[0].0));
            if i == 0 {
                lemma_id_less_irreflexive(a[0].0);
            } else {
                assert(id_less(a[0].0, b[0].0));
                lemma_id_less_transitive(a[0].0, b[0].0, a[0].0);
                lemma_id_less_irreflexive(a[0].0);
            }
        }
        assert(a[0] == b[0]);
        let ta = a.drop_first();
        let tb = b.drop_first();
        assert forall|p: int| 0 <= p < ta.len() implies has_entry(tb, #[trigger] ta[p]) by {
            assert(a[p + 1] == ta[p]);
            assert(has_entry(b, a[p + 1]));
            let q = choose|q: int| 0 <= q < b.len() && b[q] == a[p + 1];
            if q == 0 {
                assert(id_less(a[0].0, a[p + 1].0));
                lemma_id_less_irreflexive(a[0].0);
            }
            assert(tb[q - 1] == ta[p]);
        }
        assert forall|q: int| 0 <= q < tb.len() implies has_entry(ta, #[trigger] tb[q]) by {
            assert(b[q + 1] == tb[q]);
            assert(has_entry(a, b[q + 1]));
            let p = choose|p: int| 0 <= p < a.len() && a[p] == b[q + 1];
            if p == 0 {
                assert(id_less(b[0].0, b[q + 1].0));
                lemma_id_less_irreflexive(b[0].0);
            }
            assert(ta[p - 1] == tb[q]);
        }
        assert(sorted_ids(ta)) by {
            assert forall|x: int, y: int| 0 <= x < y < ta.len() implies id_less((#[trigger] ta[x]).0, (#[trigger] ta[y]).0) by {
                assert(ta[x] == a[x + 1] && ta[y] == a[y + 1]);
            }
        }
        assert(sorted_ids(tb)) by {
            assert forall|x: int, y: int| 0 <= x < y < tb.len() implies id_less((#[trigger] tb[x]).0, (#[trigger] tb[y]).0) by {
                assert(tb[x] == b[x + 1] && tb[y] == b[y + 1]);
            }
        }
        lemma_sorted_same_entries(ta, tb);
        assert(a =~= seq![a[0]] + ta);
        assert(b =~= seq![b[0]] + tb);
    }
}

/// There is only one ledger of given entries ordered by identifier: aggregation gives the
/// same result for the same entries in any order.
pub proof fn law_sorted_ledger_unique(
    first: Seq<(Seq<char>, u64)>,
    second: Seq<(Seq<char>, u64)>,
    e: Seq<(Seq<char>, int)>,
)
    requires
        is_balance_ledger(first, e),
        is_balance_ledger(second, e),
        sorted_ids(first),
        sorted_ids(second),
    ensures
        first == second,
{
    assert forall|i: int| 0 <= i < first.len() implies has_entry(second, #[trigger] first[i]) by {
        assert(occurs(e, first[i].0) && total_for(e, first[i].0) > 0);
        let j = choose|j: int| 0 <= j < second.len() && (#[trigger] second[j]).0 == first[i].0;
        assert(second[j] == first[i]);
    }
    assert forall|j: int| 0 <= j < second.len() implies has_entry(first, #[trigger] second[j]) by {
        assert(occurs(e, second[j].0) && total_for(e, second[j].0) > 0);
        let i = choose|i: int| 0 <= i < first.len() && (#[trigger] first[i]).0 == second[j].0;
        assert(second[j] == first[i]);
    }
    lemma_sorted_same_entries(first, second);
}

} // verus!
