use crate::amount::{raw_amount, raw_amount_value, AmountError, RawAmount};
use crate::json::{document_entries, parse_document};
use crate::ledger::{
    aggregate,
    entries_view,
    is_balance_ledger,
    law_ledger_order_independent,
    law_ledger_permutation,
    ledger_view,
    occurs,
    running_totals_fit,
    total_for,
    totals_fit,
};
use crate::order::sorted_ids;
use vstd::prelude::*;

verus! {

/// Why a set of documents could not be aggregated.
#[derive(Debug, Clone, PartialEq, Eq)]
pub enum LedgerError {
    /// The document at this index is not a JSON object.
    Malformed { document: usize },
    /// The document at this index holds an amount that is refused.
    BadAmount { document: usize, id: String, error: AmountError },
    /// The total of this identifier reaches the largest unsigned 64-bit value, or a running
    /// total of it leaves the 128-bit range.
    TooLarge { id: String },
}

/// Every amount of the document is accepted.
pub open spec fn amounts_valid(d: Seq<(String, RawAmount)>) -> bool {
    forall|i: int| 0 <= i < d.len() ==> (#[trigger] raw_amount_value(d[i].1)) is Ok
}

pub open spec fn accepted_value(v: RawAmount) -> int {
    match raw_amount_value(v) {
        Ok(x) => x,
        Err(_) => 0,
    }
}

/// The entries of a document as identifiers and fixed-point amounts.
pub open spec fn amounts_view(d: Seq<(String, RawAmount)>) -> Seq<(Seq<char>, int)> {
    d.map_values(|p: (String, RawAmount)| (p.0@, accepted_value(p.1)))
}

/// The document text is a JSON object whose amounts are all accepted.
pub open spec fn document_valid(text: Seq<char>) -> bool {
    &&& document_entries(text) is Some
    &&& amounts_valid(document_entries(text)->Some_0)
}

pub open spec fn documents_valid(texts: Seq<String>) -> bool {
    forall|i: int| 0 <= i < texts.len() ==> #[trigger] document_valid(texts[i]@)
}

/// The entries of a document text, empty when it is not a JSON object.
pub open spec fn document_amounts_of(text: Seq<char>) -> Seq<(Seq<char>, int)> {
    match document_entries(text) {
        Some(d) => amounts_view(d),
        None => Seq::empty(),
    }
}

/// The entries of all documents, in document order.
pub open spec fn all_entries(texts: Seq<String>) -> Seq<(Seq<char>, int)>
    decreases texts.len(),
{
    if texts.len() == 0 {
        Seq::empty()
    } else {
        all_entries(texts.drop_last()) + document_amounts_of(texts.last()@)
    }
}

/// Converts every amount of a document to fixed-point units; fails with the first
/// identifier whose amount is refused.
pub fn document_amounts(doc: &Vec<(String, RawAmount)>) -> (r: Result<
    Vec<(String, i128)>,
    (String, AmountError),
>)
    ensures
        r is Ok <==> amounts_valid(doc@),
        r matches Ok(v) ==> entries_view(v@) == amounts_view(doc@),
        r matches Err(p) ==> exists|i: int|
            0 <= i < doc.len() && (#[trigger] doc@[i]).0@ == p.0@ && raw_amount_value(doc@[i].1)
                == Err::<int, AmountError>(p.1) && amounts_valid(doc@.take(i)),
{
    let mut out: Vec<(String, i128)> = Vec::new();
    let mut i: usize = 0;
    while i < doc.len()
        invariant
            i <= doc.len(),
            out.len() == i,
            entries_view(out@) == amounts_view(doc@.take(i as int)),
            forall|k: int| 0 <= k < i ==> (#[trigger] raw_amount_value(doc@[k].1)) is Ok,
        decreases doc.len() - i,
    {
        match raw_amount(&doc[i].1) {
            Ok(x) => {
                let ghost old_out = out@;
                out.push((doc[i].0.clone(), x));
                proof {
                    let ev = entries_view(out@);
                    let av = amounts_view(doc@.take(i + 1));
                    assert(ev.len() == av.len());
                    assert forall|k: int| 0 <= k < ev.len() implies ev[k] == av[k] by {
                        if k < i {
                            assert(out@[k] == old_out[k]);
                            assert(entries_view(old_out)[k] == ev[k]);
                            assert(amounts_view(doc@.take(i as int))[k] == av[k]);
                        } else {
                            assert(accepted_value(doc@[k].1) == x as int);
                        }
                    }
                    assert(ev =~= av);
                }
            },
            Err(e) => {
                assert(amounts_valid(doc@.take(i as int))) by {
                    assert forall|k: int| 0 <= k < i implies (#[trigger] raw_amount_value(
                        doc@.take(i as int)[k].1,
                    )) is Ok by {
                        assert(doc@.take(i as int)[k] == doc@[k]);
                    }
                }
                return Err((doc[i].0.clone(), e));
            },
        }
        i += 1;
    }
    assert(doc@.take(doc.len() as int) =~= doc@);
    Ok(out)
}

proof fn lemma_valid_prefix(texts: Seq<String>, t: int)
    requires
        0 <= t < texts.len(),
        documents_valid(texts.take(t)),
        document_valid(texts[t]@),
    ensures
        documents_valid(texts.take(t + 1)),
{
    assert forall|i: int| 0 <= i < t + 1 implies #[trigger] document_valid(texts.take(t + 1)[i]@) by {
        if i < t {
            assert(texts.take(t)[i] == texts[i]);
        }
    }
}

/// Aggregates the balances recorded in a sequence of JSON documents into a ledger ordered
/// by identifier.
pub fn aggregate_documents(texts: &Vec<String>) -> (r: Result<Vec<(String, u64)>, LedgerError>)
    ensures
        r is Ok <==> documents_valid(texts@) && running_totals_fit(all_entries(texts@)) && totals_fit(
            all_entries(texts@),
        ),
        r matches Ok(l) ==> is_balance_ledger(ledger_view(l@), all_entries(texts@)) && sorted_ids(
            ledger_view(l@),
        ),
        r matches Err(LedgerError::Malformed { document }) ==> document < texts.len()
            && document_entries(texts@[document as int]@) is None && documents_valid(
            texts@.take(document as int),
        ),
        r matches Err(LedgerError::BadAmount { document, id, error }) ==> document < texts.len()
            && documents_valid(texts@.take(document as int)) && document_entries(
            texts@[document as int]@,
        ) is Some && exists|i: int|
            0 <= i < document_entries(texts@[document as int]@)->Some_0.len() && (#[trigger] document_entries(
                texts@[document as int]@,
            )->Some_0[i]).0@ == id@ && raw_amount_value(
                document_entries(texts@[document as int]@)->Some_0[i].1,
            ) == Err::<int, AmountError>(error),
        r matches Err(LedgerError::TooLarge { id }) ==> documents_valid(texts@) && occurs(
            all_entries(texts@),
            id@,
        ) && (total_for(all_entries(texts@), id@) >= u64::MAX || exists|t: int|
            0 <= t <= all_entries(texts@).len() && !(i128::MIN <= #[trigger] total_for(
                all_entries(texts@).take(t),
                id@,
            ) <= i128::MAX)),
{
    let mut flat: Vec<(String, i128)> = Vec::new();
    let mut t: usize = 0;
    while t < texts.len()
        invariant
            t <= texts.len(),
            entries_view(flat@) == all_entries(texts@.take(t as int)),
            documents_valid(texts@.take(t as int)),
        decreases texts.len() - t,
    {
        let ghost before = texts@.take(t as int);
        assert(texts@.take(t + 1).drop_last() =~= before);
        let doc = match parse_document(texts[t].as_str()) {
            Some(d) => d,
            None => {
                assert(!document_valid(texts@[t as int]@));
                return Err(LedgerError::Malformed { document: t });
            },
        };
        let amounts = match document_amounts(&doc) {
            Ok(v) => v,
            Err(p) => {
                assert(!document_valid(texts@[t as int]@));
                return Err(LedgerError::BadAmount { document: t, id: p.0, error: p.1 });
            },
        };
        let ghost old_flat = flat@;
        let mut k: usize = 0;
        while k < amounts.len()
            invariant
                k <= amounts.len(),
                flat.len() == old_flat.len() + k,
                entries_view(flat@) == entries_view(old_flat) + entries_view(amounts@.take(k as int)),
            decreases amounts.len() - k,
        {
            let ghost prev = flat@;
            flat.push((amounts[k].0.clone(), amounts[k].1));
            proof {
                let lhs = entries_view(flat@);
                let rhs = entries_view(old_flat) + entries_view(amounts@.take(k + 1));
                assert(lhs.len() == rhs.len());
                assert forall|q: int| 0 <= q < lhs.len() implies lhs[q] == rhs[q] by {
                    if q < prev.len() {
                        assert(flat@[q] == prev[q]);
                        assert(entries_view(prev)[q] == lhs[q]);
                        assert((entries_view(old_flat) + entries_view(amounts@.take(k as int)))[q] == rhs[q]);
                    }
                }
                assert(lhs =~= rhs);
            }
            k += 1;
        }
        proof {
            assert(amounts@.take(amounts.len() as int) =~= amounts@);
            lemma_valid_prefix(texts@, t as int);
        }
        t += 1;
    }
    assert(texts@.take(texts.len() as int) =~= texts@);
    match aggregate(&flat) {
        Ok(l) => Ok(l),
        Err(id) => Err(LedgerError::TooLarge { id }),
    }
}

proof fn lemma_all_entries_concat(first: Seq<String>, second: Seq<String>)
    ensures
        all_entries(first + second) == all_entries(first) + all_entries(second),
    decreases second.len(),
{
    if second.len() == 0 {
        assert(first + second =~= first);
        assert(all_entries(first) + all_entries(second) =~= all_entries(first));
    } else {
        assert((first + second).drop_last() =~= first + second.drop_last());
        lemma_all_entries_concat(first, second.drop_last());
        assert(all_entries(first + second) =~= all_entries(first) + all_entries(second));
    }
}

/// Aggregation does not depend on the order of the documents: a ledger of two groups of
/// documents is a ledger of the same documents in the other order, and the documents are
/// valid in one order exactly when they are in the other.
pub proof fn law_document_order_independent(
    l: Seq<(Seq<char>, u64)>,
    first: Seq<String>,
    second: Seq<String>,
)
    ensures
        is_balance_ledger(l, all_entries(first + second)) == is_balance_ledger(
            l,
            all_entries(second + first),
        ),
        documents_valid(first + second) == documents_valid(second + first),
        totals_fit(all_entries(first + second)) == totals_fit(all_entries(second + first)),
{
    lemma_all_entries_concat(first, second);
    lemma_all_entries_concat(second, first);
    law_ledger_order_independent(l, all_entries(first), all_entries(second));
    let a = first + second;
    let b = second + first;
    if documents_valid(a) {
        assert forall|i: int| 0 <= i < b.len() implies #[trigger] document_valid(b[i]@) by {
            if i < second.len() {
                assert(b[i] == a[first.len() + i]);
            } else {
                assert(b[i] == a[i - second.len()]);
            }
        }
    }
    if documents_valid(b) {
        assert forall|i: int| 0 <= i < a.len() implies #[trigger] document_valid(a[i]@) by {
            if i < first.len() {
                assert(a[i] == b[second.len() + i]);
            } else {
                assert(a[i] == b[i - first.len()]);
            }
        }
    }
}

proof fn lemma_all_entries_permutation(first: Seq<String>, second: Seq<String>)
    requires
        first.to_multiset() == second.to_multiset(),
    ensures
        all_entries(first).to_multiset() == all_entries(second).to_multiset(),
    decreases first.len(),
{
    broadcast use vstd::seq_lib::group_to_multiset_ensures;
    broadcast use vstd::seq_lib::lemma_multiset_commutative;

    if first.len() == 0 {
        assert(first.to_multiset().len() == 0);
        assert(second.len() == 0);
        assert(first =~= second);
    } else {
        let x = first.last();
        let rest = first.drop_last();
        assert(rest.push(x) =~= first);
        assert(first.to_multiset() == rest.to_multiset().insert(x));
        assert(second.to_multiset().count(x) > 0);
        assert(second.contains(x));
        let j = choose|j: int| 0 <= j < second.len() && second[j] == x;
        let other = second.remove(j);
        assert(other.to_multiset() == second.to_multiset().remove(x));
        assert(other.to_multiset() =~= rest.to_multiset());
        lemma_all_entries_permutation(rest, other);
        let a = second.take(j);
        let b = second.skip(j + 1);
        assert(second =~= (a + seq![x]) + b);
        assert(other =~= a + b);
        lemma_all_entries_concat(a + seq![x], b);
        lemma_all_entries_concat(a, seq![x]);
        lemma_all_entries_concat(a, b);
        let one = seq![x];
        let none = Seq::<String>::empty();
        assert(one.drop_last() =~= none);
        assert(all_entries(none) == Seq::<(Seq<char>, int)>::empty());
        assert(one.last() == x);
        assert(all_entries(one) == all_entries(none) + document_amounts_of(x@));
        assert(all_entries(one) =~= document_amounts_of(x@));
        assert(all_entries(first) == all_entries(rest) + document_amounts_of(x@));
        let ea = all_entries(a);
        let eb = all_entries(b);
        let dx = document_amounts_of(x@);
        assert(all_entries(second) == (ea + dx) + eb);
        assert(((ea + dx) + eb).to_multiset() =~= ea.to_multiset().add(dx.to_multiset()).add(
            eb.to_multiset(),
        ));
        assert((ea + eb).to_multiset() =~= ea.to_multiset().add(eb.to_multiset()));
        assert((all_entries(rest) + dx).to_multiset() =~= all_entries(rest).to_multiset().add(
            dx.to_multiset(),
        ));
        assert(all_entries(first).to_multiset() =~= all_entries(second).to_multiset());
    }
}

/// Aggregation does not depend on the order in which the documents are read: for any
/// reordering of the same documents, a ledger of one is a ledger of the other, the documents
/// are valid in both or neither, and the totals fit in both or neither.
pub proof fn law_document_permutation(
    l: Seq<(Seq<char>, u64)>,
    first: Seq<String>,
    second: Seq<String>,
)
    requires
        first.to_multiset() == second.to_multiset(),
    ensures
        is_balance_ledger(l, all_entries(first)) == is_balance_ledger(l, all_entries(second)),
        totals_fit(all_entries(first)) == totals_fit(all_entries(second)),
        documents_valid(first) == documents_valid(second),
{
    broadcast use vstd::seq_lib::group_to_multiset_ensures;

    lemma_all_entries_permutation(first, second);
    law_ledger_permutation(l, all_entries(first), all_entries(second));
    if documents_valid(first) {
        assert forall|i: int| 0 <= i < second.len() implies #[trigger] document_valid(second[i]@) by {
            assert(second.contains(second[i]));
            assert(second.to_multiset().count(second[i]) > 0);
            assert(first.contains(second[i]));
            let j = choose|j: int| 0 <= j < first.len() && first[j] == second[i];
            assert(document_valid(first[j]@));
        }
    }
    if documents_valid(second) {
        assert forall|i: int| 0 <= i < first.len() implies #[trigger] document_valid(first[i]@) by {
            assert(first.contains(first[i]));
            assert(first.to_multiset().count(first[i]) > 0);
            assert(second.contains(first[i]));
            let j = choose|j: int| 0 <= j < second.len() && second[j] == first[i];
            assert(document_valid(second[j]@));
        }
    }
}

} // verus!
