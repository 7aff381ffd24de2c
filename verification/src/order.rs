//! The order of the calendar: newest first, undated documents last, and
//! documents of one date in the order they came in.

use crate::date::Date;
use crate::doc::Doc;
use vstd::prelude::*;
use vstd::relations::{sorted_by, total_ordering};
use vstd::seq_lib::{
    lemma_sorted_unique,
    to_multiset_build,
    to_multiset_insert,
    to_multiset_remove,
};
use vstd::set_lib::{lemma_int_range, lemma_subset_equality, set_int_range};

verus! {

/// Whether a document dated `a` has its place before one dated `b`: a later
/// date goes before an earlier one, and any date before none.
pub open spec fn goes_before(a: Option<Date>, b: Option<Date>) -> bool {
    match (a, b) {
        (Some(x), Some(y)) => y.is_before(x),
        (Some(_), None) => true,
        (None, _) => false,
    }
}

/// Whether `p` holds each of the numbers from 0 up to its length once.
pub open spec fn is_permutation(p: Seq<int>) -> bool {
    &&& forall|i: int| 0 <= i < p.len() ==> 0 <= #[trigger] p[i] < p.len()
    &&& forall|i: int, j: int| 0 <= i < j < p.len() ==> #[trigger] p[i] != #[trigger] p[j]
}

/// Whether `output` holds the documents of `input` in calendar order, the
/// document at `i` being the one that stood at `from[i]`: no document
/// stands behind one that it goes before, and documents of one date, or of
/// none, stand as they stood in `input`.
pub open spec fn is_ordering_of(from: Seq<int>, input: Seq<Doc>, output: Seq<Doc>) -> bool {
    &&& from.len() == input.len()
    &&& output.len() == input.len()
    &&& is_permutation(from)
    &&& forall|i: int| 0 <= i < output.len() ==> #[trigger] output[i] == input[from[i]]
    &&& forall|i: int, j: int|
        0 <= i < j < output.len() ==> !goes_before(
            (#[trigger] output[j]).revdate,
            (#[trigger] output[i]).revdate,
        )
    &&& forall|i: int, j: int|
        0 <= i < j < output.len() && (#[trigger] output[i]).revdate == (
        #[trigger] output[j]).revdate ==> from[i] < from[j]
}

/// Whether `output` is `input` put in calendar order: newest first,
/// undated documents last, and what has the same date in the order it came
/// in.
pub open spec fn is_calendar_order_of(input: Seq<Doc>, output: Seq<Doc>) -> bool {
    exists|from: Seq<int>| is_ordering_of(from, input, output)
}

/// Whether a document dated `a` has its place before one dated `b`.
pub fn dated_before(a: &Option<Date>, b: &Option<Date>) -> (r: bool)
    ensures
        r == goes_before(*a, *b),
{
    match (a, b) {
        (Some(x), Some(y)) => !x.le(y),
        (Some(_), None) => true,
        _ => false,
    }
}

/// Puts the documents in calendar order: newest first, undated documents
/// last. Documents of one date keep the order they came in.
pub fn sort_docs(docs: &mut Vec<Doc>)
    ensures
        is_calendar_order_of(old(docs)@, final(docs)@),
        final(docs)@.to_multiset() == old(docs)@.to_multiset(),
{
    let n = docs.len();
    let ghost input = docs@;
    let ghost mut from: Seq<int> = Seq::new(n as nat, |k: int| k);
    let mut i: usize = 0;
    while i < n
        invariant
            i <= n,
            n == input.len(),
            docs@.len() == n,
            from.len() == n,
            is_permutation(from),
            forall|k: int| 0 <= k < n ==> #[trigger] docs@[k] == input[from[k]],
            forall|k: int| i <= k < n ==> #[trigger] from[k] == k,
            forall|k: int| 0 <= k < i ==> #[trigger] from[k] < i,
            forall|a: int, b: int|
                0 <= a < b < i ==> !goes_before(
                    (#[trigger] docs@[b]).revdate,
                    (#[trigger] docs@[a]).revdate,
                ),
            forall|a: int, b: int|
                0 <= a < b < i && (#[trigger] docs@[a]).revdate == (#[trigger] docs@[b]).revdate
                    ==> from[a] < from[b],
        decreases n - i,
    {
        let mut j: usize = i;
        while j > 0 && dated_before(&docs[i].revdate, &docs[j - 1].revdate)
            invariant
                j <= i < n,
                docs@.len() == n,
                forall|k: int|
                    j <= k < i ==> goes_before(docs@[i as int].revdate, (#[trigger] docs@[k]).revdate),
            decreases j,
        {
            j -= 1;
        }
        let ghost before = docs@;
        let ghost from_before = from;
        let doc = docs.remove(i);
        docs.insert(j, doc);
        proof {
            from = from_before.remove(i as int).insert(j as int, i as int);
            before.remove_ensures(i as int);
            before.remove(i as int).insert_ensures(j as int, before[i as int]);
            from_before.remove_ensures(i as int);
            from_before.remove(i as int).insert_ensures(j as int, i as int);
        }
        i += 1;
    }
    proof {
        assert(is_ordering_of(from, input, docs@));
        lemma_calendar_order_keeps_documents(input, docs@);
    }
}

/// The dates of documents, in the order of the documents.
pub open spec fn revdates(docs: Seq<Doc>) -> Seq<Option<Date>> {
    docs.map_values(|doc: Doc| doc.revdate)
}

/// Whether `dates` stand in calendar order: newest first, none last.
pub open spec fn newest_first(dates: Seq<Option<Date>>) -> bool {
    forall|i: int, j: int|
        0 <= i < j < dates.len() ==> !goes_before(#[trigger] dates[j], #[trigger] dates[i])
}

/// Whether `dates` stand against calendar order: none first, then oldest
/// first.
pub open spec fn oldest_first(dates: Seq<Option<Date>>) -> bool {
    forall|i: int, j: int|
        0 <= i < j < dates.len() ==> !goes_before(#[trigger] dates[i], #[trigger] dates[j])
}

/// Going before is a strict order in which only equal dates tie: nothing
/// goes before itself, no two dates go before each other, going before is
/// transitive, and of two different dates one goes before the other.
pub proof fn lemma_goes_before_is_strict_order(a: Option<Date>, b: Option<Date>, c: Option<Date>)
    ensures
        !goes_before(a, a),
        goes_before(a, b) ==> !goes_before(b, a),
        goes_before(a, b) && goes_before(b, c) ==> goes_before(a, c),
        a != b ==> goes_before(a, b) || goes_before(b, a),
{
}

/// Standing at or before: the order that calendar order sorts by.
spec fn not_behind() -> spec_fn(Option<Date>, Option<Date>) -> bool {
    |a: Option<Date>, b: Option<Date>| !goes_before(b, a)
}

proof fn lemma_not_behind_is_total()
    ensures
        total_ordering(not_behind()),
{
    let r = not_behind();
    assert forall|x: Option<Date>, y: Option<Date>| #[trigger] r(x, y) && #[trigger] r(y, x) implies x == y by {
        lemma_goes_before_is_strict_order(x, y, x);
    }
    assert forall|x: Option<Date>, y: Option<Date>, z: Option<Date>| #[trigger] r(x, y) && #[trigger] r(y, z) implies r(x, z) by {
        lemma_goes_before_is_strict_order(z, y, x);
        lemma_goes_before_is_strict_order(z, x, y);
        lemma_goes_before_is_strict_order(x, y, z);
    }
}

/// Sorting newest first and sorting oldest first give each other's
/// reverse: where two sequences hold the same dates, one newest first and
/// the other oldest first, each is the other read backwards.
pub proof fn lemma_newest_first_reverses_oldest_first(
    newest: Seq<Option<Date>>,
    oldest: Seq<Option<Date>>,
)
    requires
        newest_first(newest),
        oldest_first(oldest),
        newest.to_multiset() == oldest.to_multiset(),
    ensures
        newest == oldest.reverse(),
        oldest == newest.reverse(),
{
    lemma_not_behind_is_total();
    oldest.lemma_reverse_to_multiset();
    let backwards = oldest.reverse();
    assert(sorted_by(newest, not_behind()));
    assert(sorted_by(backwards, not_behind())) by {
        assert forall|i: int, j: int| 0 <= i < j < backwards.len() implies #[trigger] not_behind()(
            backwards[i],
            backwards[j],
        ) by {
            assert(backwards[i] == oldest[oldest.len() - 1 - i]);
            assert(backwards[j] == oldest[oldest.len() - 1 - j]);
        }
    }
    lemma_sorted_unique(newest, backwards, not_behind());
    assert(oldest =~= newest.reverse());
}

/// Sequences of the same documents hold the same dates.
proof fn lemma_same_docs_same_dates(s: Seq<Doc>, t: Seq<Doc>)
    requires
        s.to_multiset() == t.to_multiset(),
    ensures
        revdates(s).to_multiset() == revdates(t).to_multiset(),
    decreases s.len(),
{
    broadcast use vstd::multiset::group_multiset_axioms;

    s.to_multiset_ensures();
    t.to_multiset_ensures();
    if s.len() == 0 {
        assert(t.len() == 0);
        assert(revdates(s) =~= revdates(t));
    } else {
        let x = s.last();
        assert(s.contains(x));
        assert(s.to_multiset().count(x) > 0);
        assert(t.to_multiset().count(x) > 0);
        assert(t.contains(x));
        let k = choose|k: int| 0 <= k < t.len() && t[k] == x;
        let s1 = s.drop_last();
        let t1 = t.remove(k);
        assert(s1.push(x) =~= s);
        to_multiset_build(s1, x);
        to_multiset_remove(t, k);
        assert(s1.to_multiset() =~= t1.to_multiset());
        lemma_same_docs_same_dates(s1, t1);
        assert(revdates(s) =~= revdates(s1).push(x.revdate));
        assert(revdates(t) =~= revdates(t1).insert(k, x.revdate));
        to_multiset_build(revdates(s1), x.revdate);
        to_multiset_insert(revdates(t1), k, x.revdate);
    }
}

/// Putting documents in order neither adds nor drops one: what is in
/// calendar order holds the documents it was made from, each as often.
pub proof fn lemma_calendar_order_keeps_documents(input: Seq<Doc>, output: Seq<Doc>)
    requires
        is_calendar_order_of(input, output),
    ensures
        output.to_multiset() == input.to_multiset(),
{
    let from = choose|from: Seq<int>| is_ordering_of(from, input, output);
    lemma_rearranged_holds_the_same(from, input, output);
}

proof fn lemma_rearranged_holds_the_same(from: Seq<int>, input: Seq<Doc>, output: Seq<Doc>)
    requires
        from.len() == input.len(),
        output.len() == input.len(),
        is_permutation(from),
        forall|i: int| 0 <= i < output.len() ==> #[trigger] output[i] == input[from[i]],
    ensures
        output.to_multiset() == input.to_multiset(),
    decreases input.len(),
{
    broadcast use vstd::multiset::group_multiset_axioms;

    if input.len() == 0 {
        assert(output =~= input);
    } else {
        let n = input.len() as int;
        let k = from[n - 1];
        let rest_out = output.drop_last();
        let rest_in = input.remove(k);
        let rest_from = Seq::new(
            (n - 1) as nat,
            |i: int|
                if from[i] < k {
                    from[i]
                } else {
                    from[i] - 1
                },
        );
        assert forall|i: int| 0 <= i < rest_from.len() implies 0 <= #[trigger] rest_from[i]
            < rest_from.len() by {
            assert(from[i] != from[n - 1]);
        }
        assert forall|i: int, j: int| 0 <= i < j < rest_from.len() implies #[trigger] rest_from[i]
            != #[trigger] rest_from[j] by {
            assert(from[i] != from[j]);
            assert(from[i] != from[n - 1]);
            assert(from[j] != from[n - 1]);
        }
        assert forall|i: int| 0 <= i < rest_out.len() implies #[trigger] rest_out[i]
            == rest_in[rest_from[i]] by {
            assert(output[i] == input[from[i]]);
            assert(from[i] != from[n - 1]);
        }
        lemma_rearranged_holds_the_same(rest_from, rest_in, rest_out);
        assert(rest_out.push(output[n - 1]) =~= output);
        to_multiset_build(rest_out, output[n - 1]);
        to_multiset_remove(input, k);
        input.to_multiset_ensures();
        assert(input.contains(input[k]));
        assert(input.to_multiset().count(input[k]) > 0);
        assert(output.to_multiset() =~= input.to_multiset());
    }
}

/// The calendar order of documents is the reverse of their order oldest
/// first: the dates of the sorted documents are the dates of any
/// arrangement of the same documents oldest first, read backwards. Where
/// no two documents have the same date, the documents themselves stand in
/// reverse.
pub proof fn lemma_calendar_order_reverses_oldest_first(
    input: Seq<Doc>,
    output: Seq<Doc>,
    oldest: Seq<Doc>,
)
    requires
        is_calendar_order_of(input, output),
        oldest.to_multiset() == input.to_multiset(),
        oldest_first(revdates(oldest)),
    ensures
        revdates(output) == revdates(oldest).reverse(),
        (forall|i: int, j: int|
            0 <= i < j < input.len() ==> (#[trigger] input[i]).revdate != (
            #[trigger] input[j]).revdate) ==> output == oldest.reverse(),
{
    lemma_calendar_order_keeps_documents(input, output);
    lemma_same_docs_same_dates(output, oldest);
    assert(newest_first(revdates(output)));
    lemma_newest_first_reverses_oldest_first(revdates(output), revdates(oldest));
    if forall|i: int, j: int|
        0 <= i < j < input.len() ==> (#[trigger] input[i]).revdate != (#[trigger] input[j]).revdate {
        input.to_multiset_ensures();
        output.to_multiset_ensures();
        oldest.to_multiset_ensures();
        let backwards = oldest.reverse();
        assert(output.len() == backwards.len());
        assert forall|i: int| 0 <= i < output.len() implies output[i] == backwards[i] by {
            let a = output[i];
            let b = oldest[oldest.len() - 1 - i];
            assert(backwards[i] == b);
            assert(revdates(output)[i] == a.revdate);
            assert(revdates(oldest).reverse()[i] == b.revdate);
            assert(output.contains(a));
            assert(oldest.contains(b));
            assert(output.to_multiset().count(a) > 0);
            assert(oldest.to_multiset().count(b) > 0);
            assert(input.to_multiset().count(a) > 0);
            assert(input.to_multiset().count(b) > 0);
            assert(input.contains(a));
            assert(input.contains(b));
            let k = choose|k: int| 0 <= k < input.len() && input[k] == a;
            let l = choose|l: int| 0 <= l < input.len() && input[l] == b;
            assert(k == l);
        }
        assert(output =~= backwards);
    }
}

/// Two permutations of one length hold the same numbers.
proof fn lemma_permutations_hold_the_same(p: Seq<int>, q: Seq<int>)
    requires
        is_permutation(p),
        is_permutation(q),
        p.len() == q.len(),
    ensures
        p.to_multiset() == q.to_multiset(),
{
    lemma_permutation_counts(p);
    lemma_permutation_counts(q);
    assert(p.to_multiset() =~= q.to_multiset());
}

proof fn lemma_permutation_counts(p: Seq<int>)
    requires
        is_permutation(p),
    ensures
        forall|v: int| #[trigger]
            p.to_multiset().count(v) == if 0 <= v < p.len() {
                1nat
            } else {
                0nat
            },
{
    let n = p.len() as int;
    assert(p.no_duplicates());
    p.unique_seq_to_set();
    lemma_int_range(0, n);
    assert(p.to_set().subset_of(set_int_range(0, n)));
    vstd::seq_lib::seq_to_set_is_finite(p);
    lemma_subset_equality(p.to_set(), set_int_range(0, n));
    p.lemma_multiset_has_no_duplicates();
    p.to_multiset_ensures();
    assert forall|v: int| #[trigger]
        p.to_multiset().count(v) == if 0 <= v < p.len() {
            1nat
        } else {
            0nat
        } by {
        if 0 <= v < n {
            assert(set_int_range(0, n).contains(v));
            assert(p.to_set().contains(v));
            assert(p.contains(v));
        } else {
            if p.contains(v) {
                let k = choose|k: int| 0 <= k < p.len() && p[k] == v;
                assert(0 <= p[k] < p.len());
            }
        }
    }
}

/// The calendar order of documents is one: two arrangements of the same
/// documents that both are in calendar order are the same arrangement.
pub proof fn lemma_calendar_order_is_unique(input: Seq<Doc>, a: Seq<Doc>, b: Seq<Doc>)
    requires
        is_calendar_order_of(input, a),
        is_calendar_order_of(input, b),
    ensures
        a == b,
{
    let p = choose|p: Seq<int>| is_ordering_of(p, input, a);
    let q = choose|q: Seq<int>| is_ordering_of(q, input, b);
    let first = |i: int, j: int|
        goes_before(input[i].revdate, input[j].revdate) || (input[i].revdate == input[j].revdate
            && i <= j);
    assert(total_ordering(first)) by {
        assert forall|x: int, y: int| #[trigger] first(x, y) && #[trigger] first(y, x) implies x == y by {
            lemma_goes_before_is_strict_order(input[x].revdate, input[y].revdate, input[x].revdate);
        }
        assert forall|x: int, y: int, z: int| #[trigger] first(x, y) && #[trigger] first(y, z) implies first(x, z) by {
            lemma_goes_before_is_strict_order(input[x].revdate, input[y].revdate, input[z].revdate);
        }
        assert forall|x: int, y: int| #[trigger] first(x, y) || #[trigger] first(y, x) by {
            lemma_goes_before_is_strict_order(input[x].revdate, input[y].revdate, input[x].revdate);
        }
    }
    assert(sorted_by(p, first)) by {
        assert forall|i: int, j: int| 0 <= i < j < p.len() implies #[trigger] first(p[i], p[j]) by {
            assert(a[i] == input[p[i]]);
            assert(a[j] == input[p[j]]);
            lemma_goes_before_is_strict_order(a[i].revdate, a[j].revdate, a[i].revdate);
        }
    }
    assert(sorted_by(q, first)) by {
        assert forall|i: int, j: int| 0 <= i < j < q.len() implies #[trigger] first(q[i], q[j]) by {
            assert(b[i] == input[q[i]]);
            assert(b[j] == input[q[j]]);
            lemma_goes_before_is_strict_order(b[i].revdate, b[j].revdate, b[i].revdate);
        }
    }
    lemma_permutations_hold_the_same(p, q);
    lemma_sorted_unique(p, q, first);
    assert(a =~= b);
}

} // verus!
