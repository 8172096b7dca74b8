//! Comparing two lists of transactions regardless of their order: two
//! transactions are the same when all their fields are.

use vstd::prelude::*;
use vstd::std_specs::cmp::PartialEqSpec;
use crate::error::starts_with;
use crate::text::{decimal, push_decimal};
use crate::transaction::{records, Transaction, TxRecord};

verus! {

/// How many times `x` occurs in `s`.
pub open spec fn occurrences<T>(s: Seq<T>, x: T) -> nat
    decreases s.len(),
{
    if s.len() == 0 {
        0
    } else {
        occurrences(s.drop_last(), x) + if s.last() == x { 1nat } else { 0nat }
    }
}

/// The position of `s[i]` among the elements of `s` equal to it, from 1.
pub open spec fn rank<T>(s: Seq<T>, i: int) -> nat {
    occurrences(s.take(i + 1), s[i])
}

/// `a[i]` has no partner left in `b`: the elements equal to it up to `i`
/// outnumber those in `b`.
pub open spec fn unmatched<T>(a: Seq<T>, b: Seq<T>, i: int) -> bool {
    rank(a, i) > occurrences(b, a[i])
}

/// The first difference between two lists.
#[derive(Debug, Clone, Copy, PartialEq, Eq, Structural)]
pub enum Difference {
    /// The lists have different lengths.
    CountDiffers,
    /// The element of the first list at this index has no partner in the second.
    MissingFromSecond(usize),
    /// The element of the second list at this index is left over.
    MissingFromFirst(usize),
}

proof fn lemma_occurrences_step<T>(s: Seq<T>, j: int, x: T)
    requires
        0 <= j < s.len(),
    ensures
        occurrences(s.take(j + 1), x) == occurrences(s.take(j), x) + if s[j] == x { 1nat } else { 0nat },
{
    assert(s.take(j + 1).drop_last() =~= s.take(j));
    assert(s.take(j + 1).last() == s[j]);
}

proof fn lemma_occurrences_prefix<T>(s: Seq<T>, k1: int, k2: int, x: T)
    requires
        0 <= k1 <= k2 <= s.len(),
    ensures
        occurrences(s.take(k1), x) <= occurrences(s.take(k2), x),
    decreases k2 - k1,
{
    if k1 < k2 {
        lemma_occurrences_prefix(s, k1, k2 - 1, x);
        lemma_occurrences_step(s, k2 - 1, x);
    }
}

proof fn lemma_rank_bound<T>(s: Seq<T>, i: int)
    requires
        0 <= i < s.len(),
    ensures
        1 <= rank(s, i) <= occurrences(s, s[i]),
{
    lemma_occurrences_step(s, i, s[i]);
    lemma_occurrences_prefix(s, i + 1, s.len() as int, s[i]);
    assert(s.take(s.len() as int) =~= s);
}

proof fn lemma_ranks_distinct<T>(s: Seq<T>, m: int, j: int)
    requires
        0 <= m < j < s.len(),
        s[m] == s[j],
    ensures
        rank(s, m) < rank(s, j),
{
    lemma_occurrences_prefix(s, m + 1, j, s[j]);
    lemma_occurrences_step(s, j, s[j]);
}

/// Every count up to the occurrences of `x` before `j` is the rank of some
/// occurrence of `x` before `j`.
proof fn lemma_rank_reached<T>(s: Seq<T>, j: int, x: T, k: nat)
    requires
        0 <= j <= s.len(),
        1 <= k <= occurrences(s.take(j), x),
    ensures
        exists|m: int| 0 <= m < j && s[m] == x && rank(s, m) == k,
    decreases j,
{
    if j == 0 {
        assert(s.take(0) =~= Seq::<T>::empty());
    } else {
        lemma_occurrences_step(s, j - 1, x);
        if s[j - 1] == x && k == occurrences(s.take(j), x) {
            assert(rank(s, j - 1) == k);
        } else {
            lemma_rank_reached(s, j - 1, x, k);
            let m = choose|m: int| 0 <= m < j - 1 && s[m] == x && rank(s, m) == k;
            assert(0 <= m < j && s[m] == x && rank(s, m) == k);
        }
    }
}

/// The first difference between two lists compared without regard to order,
/// where two elements are alike when their images under `f` are equal.
fn find_difference_by<T: PartialEq, V>(a: &[T], b: &[T], Ghost(f): Ghost<spec_fn(T) -> V>) -> (r: Option<Difference>)
    requires
        T::obeys_eq_spec(),
        forall|x: T, y: T| x.eq_spec(&y) <==> (f(x) == f(y)),
    ensures
        found_difference(a@.map_values(f), b@.map_values(f), r),
{
    let ghost av = a@.map_values(f);
    let ghost bv = b@.map_values(f);
    if a.len() != b.len() {
        return Some(Difference::CountDiffers);
    }
    let n = b.len();
    let mut used: Vec<bool> = Vec::new();
    for j in 0..n
        invariant
            used@.len() == j,
            forall|m: int| 0 <= m < j ==> !used@[m],
    {
        used.push(false);
    }
    assert(av.take(0) =~= Seq::<V>::empty());
    let mut i: usize = 0;
    while i < a.len()
        invariant
            T::obeys_eq_spec(),
            forall|x: T, y: T| x.eq_spec(&y) <==> (f(x) == f(y)),
            av == a@.map_values(f),
            bv == b@.map_values(f),
            a@.len() == b@.len(),
            n == b@.len(),
            used@.len() == n,
            i <= a@.len(),
            forall|m: int| 0 <= m < n ==> (used@[m] <==> rank(bv, m) <= occurrences(av.take(i as int), bv[m])),
            forall|k: int| 0 <= k < i ==> !unmatched(av, bv, k),
        decreases a@.len() - i,
    {
        let ghost x = av[i as int];
        let ghost c = occurrences(av.take(i as int), x);
        proof {
            lemma_occurrences_step(av, i as int, x);
        }
        let mut j: usize = 0;
        while j < n && (used[j] || !(b[j] == a[i]))
            invariant
                T::obeys_eq_spec(),
                forall|x: T, y: T| x.eq_spec(&y) <==> (f(x) == f(y)),
                av == a@.map_values(f),
                bv == b@.map_values(f),
                n == b@.len(),
                used@.len() == n,
                i < a@.len(),
                x == av[i as int],
                j <= n,
                forall|m: int| 0 <= m < j ==> used@[m] || bv[m] != x,
            decreases n - j,
        {
            j = j + 1;
        }
        if j == n {
            proof {
                if occurrences(bv, x) > 0 {
                    assert(bv.take(n as int) =~= bv);
                    lemma_rank_reached(bv, n as int, x, occurrences(bv, x));
                    let m = choose|m: int| 0 <= m < n && bv[m] == x && rank(bv, m) == occurrences(bv, x);
                    assert(used@[m]);
                }
            }
            return Some(Difference::MissingFromSecond(i));
        }
        proof {
            assert(bv[j as int] == x);
            assert(!used@[j as int]);
            assert(rank(bv, j as int) > c);
            lemma_occurrences_step(bv, j as int, x);
            if rank(bv, j as int) > c + 1 {
                lemma_rank_reached(bv, j as int, x, c + 1);
                let m = choose|m: int| 0 <= m < j && bv[m] == x && rank(bv, m) == c + 1;
                assert(used@[m] || bv[m] != x);
            }
            assert(rank(bv, j as int) == c + 1);
            lemma_rank_bound(bv, j as int);
            assert forall|m: int| 0 <= m < n && m != j && bv[m] == x implies rank(bv, m) != c + 1 by {
                if m < j {
                    lemma_ranks_distinct(bv, m, j as int);
                } else {
                    lemma_ranks_distinct(bv, j as int, m);
                }
            }
        }
        used.set(j, true);
        i = i + 1;
        proof {
            assert forall|m: int| 0 <= m < n implies (used@[m] <==> rank(bv, m) <= occurrences(av.take(i as int), bv[m])) by {
                lemma_occurrences_step(av, (i - 1) as int, bv[m]);
            }
        }
    }
    assert(av.take(av.len() as int) =~= av);
    let mut j: usize = 0;
    while j < n
        invariant
            n == b@.len(),
            used@.len() == n,
            av.take(av.len() as int) == av,
            av == a@.map_values(f),
            bv == b@.map_values(f),
            a@.len() == b@.len(),
            forall|k: int| 0 <= k < a@.len() ==> !unmatched(av, bv, k),
            forall|m: int| 0 <= m < n ==> (used@[m] <==> rank(bv, m) <= occurrences(av, bv[m])),
            forall|m: int| 0 <= m < j ==> used@[m],
            j <= n,
        decreases n - j,
    {
        if !used[j] {
            assert(unmatched(bv, av, j as int));
            assert forall|k: int| 0 <= k < j implies !unmatched(bv, av, k) by {
                assert(used@[k]);
            }
            return Some(Difference::MissingFromFirst(j));
        }
        j = j + 1;
    }
    assert forall|k: int| 0 <= k < b@.len() implies !unmatched(bv, av, k) by {
        assert(used@[k]);
    }
    None
}


/// What `r` says of two lists compared without regard to order: their
/// lengths differ; else the first element of `a` with no partner in `b`;
/// else the first element of `b` left over; else no difference.
pub open spec fn found_difference<V>(a: Seq<V>, b: Seq<V>, r: Option<Difference>) -> bool {
    &&& (a.len() != b.len()) <==> (r == Some(Difference::CountDiffers))
    &&& r matches Some(Difference::MissingFromSecond(i)) ==> {
        &&& a.len() == b.len()
        &&& i < a.len()
        &&& unmatched(a, b, i as int)
        &&& forall|k: int| 0 <= k < i ==> !unmatched(a, b, k)
    }
    &&& r matches Some(Difference::MissingFromFirst(j)) ==> {
        &&& a.len() == b.len()
        &&& forall|k: int| 0 <= k < a.len() ==> !unmatched(a, b, k)
        &&& j < b.len()
        &&& unmatched(b, a, j as int)
        &&& forall|k: int| 0 <= k < j ==> !unmatched(b, a, k)
    }
    &&& r is None ==> no_difference(a, b)
}

/// `==` on `T` is lawful: it follows its specification and is an
/// equivalence (reflexive, symmetric and transitive).
pub open spec fn lawful_eq<T: PartialEq>() -> bool {
    &&& T::obeys_eq_spec()
    &&& forall|x: T| #[trigger] x.eq_spec(&x)
    &&& forall|x: T, y: T| #[trigger] x.eq_spec(&y) ==> y.eq_spec(&x)
    &&& forall|x: T, y: T, z: T| #![trigger x.eq_spec(&y), y.eq_spec(&z)] x.eq_spec(&y) && y.eq_spec(&z) ==> x.eq_spec(&z)
}

/// The elements that `x` is `==` to.
pub open spec fn eq_class<T: PartialEq>(x: T) -> Set<T> {
    Set::new(|y: T| x.eq_spec(&y))
}

/// The list with each element replaced by the elements it is `==` to: two
/// entries are equal exactly when the elements are `==`.
pub open spec fn eq_classes<T: PartialEq>(s: Seq<T>) -> Seq<Set<T>> {
    s.map_values(|x: T| eq_class(x))
}

proof fn lemma_eq_class<T: PartialEq>()
    requires
        lawful_eq::<T>(),
    ensures
        forall|x: T, y: T| x.eq_spec(&y) <==> (eq_class(x) == eq_class(y)),
{
    assert forall|x: T, y: T| x.eq_spec(&y) <==> (eq_class(x) == eq_class(y)) by {
        if x.eq_spec(&y) {
            assert forall|z: T| eq_class(x).contains(z) <==> eq_class(y).contains(z) by {
                assert(y.eq_spec(&x));
                if x.eq_spec(&z) {
                    assert(y.eq_spec(&z));
                }
                if y.eq_spec(&z) {
                    assert(x.eq_spec(&z));
                }
            }
            assert(eq_class(x) =~= eq_class(y));
        }
        if eq_class(x) == eq_class(y) {
            assert(y.eq_spec(&y));
            assert(eq_class(y).contains(y));
        }
    }
}

/// The first difference between two lists compared without regard to order,
/// elements being alike when they are `==`: their lengths; else the first
/// element of `a` with no partner in `b`; else the first element of `b`
/// left over.
pub fn find_difference<T: PartialEq>(a: &[T], b: &[T]) -> (r: Option<Difference>)
    requires
        lawful_eq::<T>(),
    ensures
        found_difference(eq_classes(a@), eq_classes(b@), r),
{
    proof {
        lemma_eq_class::<T>();
    }
    let ghost f: spec_fn(T) -> Set<T> = |x: T| eq_class(x);
    assert(a@.map_values(f) =~= eq_classes(a@));
    assert(b@.map_values(f) =~= eq_classes(b@));
    find_difference_by::<T, Set<T>>(a, b, Ghost(f))
}

/// The first difference between two lists of transactions compared without
/// regard to order, a transaction being alike another when all their fields
/// are equal.
pub fn find_transaction_difference(a: &[Transaction], b: &[Transaction]) -> (r: Option<Difference>)
    ensures
        found_difference(records(a@), records(b@), r),
{
    let ghost f: spec_fn(Transaction) -> TxRecord = |t: Transaction| t@;
    assert(a@.map_values(f) =~= records(a@));
    assert(b@.map_values(f) =~= records(b@));
    find_difference_by::<Transaction, TxRecord>(a, b, Ghost(f))
}

/// No difference: equal lengths, and every element of each list has a
/// partner in the other.
pub open spec fn no_difference<T>(a: Seq<T>, b: Seq<T>) -> bool {
    &&& a.len() == b.len()
    &&& forall|k: int| 0 <= k < a.len() ==> !unmatched(a, b, k)
    &&& forall|k: int| 0 <= k < b.len() ==> !unmatched(b, a, k)
}

proof fn lemma_occurrences_multiset<T>(s: Seq<T>, x: T)
    ensures
        occurrences(s, x) == s.to_multiset().count(x),
    decreases s.len(),
{
    broadcast use vstd::seq_lib::group_to_multiset_ensures;

    if s.len() == 0 {
        assert(s.to_multiset().len() == 0);
    } else {
        lemma_occurrences_multiset(s.drop_last(), x);
        assert(s =~= s.drop_last().push(s.last()));
    }
}

/// Each list's elements outnumber those of the other nowhere exactly when
/// the lists hold the same elements, each as many times.
pub proof fn lemma_no_difference_iff_same_elements<T>(a: Seq<T>, b: Seq<T>)
    ensures
        no_difference(a, b) <==> a.to_multiset() == b.to_multiset(),
{
    broadcast use vstd::seq_lib::group_to_multiset_ensures;

    if no_difference(a, b) {
        assert forall|x: T| a.to_multiset().count(x) == b.to_multiset().count(x) by {
            lemma_occurrences_multiset(a, x);
            lemma_occurrences_multiset(b, x);
            assert(a.take(a.len() as int) =~= a);
            assert(b.take(b.len() as int) =~= b);
            if occurrences(a, x) > 0 {
                lemma_rank_reached(a, a.len() as int, x, occurrences(a, x));
                let m = choose|m: int| 0 <= m < a.len() && a[m] == x && rank(a, m) == occurrences(a, x);
                assert(!unmatched(a, b, m));
            }
            if occurrences(b, x) > 0 {
                lemma_rank_reached(b, b.len() as int, x, occurrences(b, x));
                let m = choose|m: int| 0 <= m < b.len() && b[m] == x && rank(b, m) == occurrences(b, x);
                assert(!unmatched(b, a, m));
            }
        }
        assert(a.to_multiset() =~= b.to_multiset());
    }
    if a.to_multiset() == b.to_multiset() {
        assert(a.to_multiset().len() == a.len());
        assert(b.to_multiset().len() == b.len());
        assert forall|k: int| 0 <= k < a.len() implies !unmatched(a, b, k) by {
            lemma_rank_bound(a, k);
            lemma_occurrences_multiset(a, a[k]);
            lemma_occurrences_multiset(b, a[k]);
        }
        assert forall|k: int| 0 <= k < b.len() implies !unmatched(b, a, k) by {
            lemma_rank_bound(b, k);
            lemma_occurrences_multiset(a, b[k]);
            lemma_occurrences_multiset(b, b[k]);
        }
    }
}

/// The `Debug` text of a value: `format!("{:?}", ..)`. Nothing is stated of
/// the text.
#[verifier::external_body]
fn debug_text<T: std::fmt::Debug>(value: &T) -> String {
    format!("{:?}", value)
}

/// The message for lists of different lengths.
pub open spec fn count_message(name1: Seq<char>, len1: nat, name2: Seq<char>, len2: nat) -> Seq<char> {
    "The number of transactions differs: "@ + name1 + " has "@ + decimal(len1) + ", "@ + name2 + " has "@
        + decimal(len2) + "."@
}

/// How the message for an element of one list missing from the other opens;
/// the element's `Debug` text follows.
pub open spec fn missing_opening(has: Seq<char>, lacks: Seq<char>) -> Seq<char> {
    "Transaction present in '"@ + has + "' but not in '"@ + lacks + "': "@
}

/// `d` is a text that `format!("{:?}", ..)` can give for `x`: an outcome of
/// the `Debug` formatting of `x` (`debug_text` called on `x`).
pub closed spec fn debug_text_of<T: std::fmt::Debug>(x: T, d: String) -> bool {
    call_ensures(debug_text::<T>, (&x,), d)
}

/// The message for an element of one list missing from the other.
fn missing_message<T: std::fmt::Debug>(has: &str, lacks: &str, value: &T) -> (m: String)
    ensures
        starts_with(m@, missing_opening(has@, lacks@)),
        exists|d: String| debug_text_of(*value, d) && m@ == missing_opening(has@, lacks@) + d@,
{
    let mut m = "Transaction present in '".to_owned();
    m.append(has);
    m.append("' but not in '");
    m.append(lacks);
    m.append("': ");
    let ghost opening = m@;
    let d = debug_text(value);
    m.append(d.as_str());
    assert(m@.subrange(0, opening.len() as int) =~= opening);
    assert(opening =~= missing_opening(has@, lacks@));
    assert(debug_text_of(*value, d));
    m
}

/// The message for what [`find_difference`] or
/// [`find_transaction_difference`] found, naming the lists `file1_name` and
/// `file2_name`.
fn difference_message<T: std::fmt::Debug>(
    d: Option<Difference>,
    txs1: &[T],
    txs2: &[T],
    file1_name: &str,
    file2_name: &str,
) -> (r: Option<String>)
    requires
        d matches Some(Difference::MissingFromSecond(i)) ==> i < txs1@.len(),
        d matches Some(Difference::MissingFromFirst(j)) ==> j < txs2@.len(),
    ensures
        d is None <==> r is None,
        d == Some(Difference::CountDiffers) ==> (r matches Some(m) && m@ == count_message(
            file1_name@,
            txs1@.len(),
            file2_name@,
            txs2@.len(),
        )),
        d matches Some(Difference::MissingFromSecond(_)) ==> (r matches Some(m) && starts_with(m@, missing_opening(file1_name@, file2_name@))),
        d matches Some(Difference::MissingFromFirst(_)) ==> (r matches Some(m) && starts_with(m@, missing_opening(file2_name@, file1_name@))),
        d matches Some(Difference::MissingFromSecond(i)) ==> (r matches Some(m) && exists|t: String|
            debug_text_of(txs1@[i as int], t) && m@ == missing_opening(file1_name@, file2_name@) + t@),
        d matches Some(Difference::MissingFromFirst(j)) ==> (r matches Some(m) && exists|t: String|
            debug_text_of(txs2@[j as int], t) && m@ == missing_opening(file2_name@, file1_name@) + t@),
{
    match d {
        None => None,
        Some(Difference::CountDiffers) => {
            let mut m = "The number of transactions differs: ".to_owned();
            m.append(file1_name);
            m.append(" has ");
            push_decimal(&mut m, txs1.len() as u64);
            m.append(", ");
            m.append(file2_name);
            m.append(" has ");
            push_decimal(&mut m, txs2.len() as u64);
            m.append(".");
            Some(m)
        },
        Some(Difference::MissingFromSecond(i)) => Some(missing_message(file1_name, file2_name, &txs1[i])),
        Some(Difference::MissingFromFirst(j)) => Some(missing_message(file2_name, file1_name, &txs2[j])),
    }
}

/// What the message `r` of comparing lists with elements `a` and `b` says:
/// none exactly when they hold the same elements as often; else the exact
/// count message, or the opening for the first missing element.
pub open spec fn comparison_reported<V>(a: Seq<V>, b: Seq<V>, name1: Seq<char>, name2: Seq<char>, r: Option<String>) -> bool {
    &&& r is None <==> a.to_multiset() == b.to_multiset()
    &&& a.len() != b.len() ==> (r matches Some(m) && m@ == count_message(name1, a.len(), name2, b.len()))
    &&& a.len() == b.len() && (exists|k: int| 0 <= k < a.len() && unmatched(a, b, k))
        ==> (r matches Some(m) && starts_with(m@, missing_opening(name1, name2)))
    &&& a.len() == b.len() && (forall|k: int| 0 <= k < a.len() ==> !unmatched(a, b, k))
        && (exists|k: int| 0 <= k < b.len() && unmatched(b, a, k))
        ==> (r matches Some(m) && starts_with(m@, missing_opening(name2, name1)))
}

/// Compares two lists regardless of order; `None` when they hold the same
/// elements, else a message about the first difference (see
/// [`find_difference`]).
pub fn compare_transaction_lists<T: Eq + std::fmt::Debug + Clone>(
    txs1: &[T],
    txs2: &[T],
    file1_name: &str,
    file2_name: &str,
) -> (r: Option<String>)
    requires
        lawful_eq::<T>(),
    ensures
        comparison_reported(eq_classes(txs1@), eq_classes(txs2@), file1_name@, file2_name@, r),
        forall|i: int|
            txs1@.len() == txs2@.len() && #[trigger] first_unmatched(eq_classes(txs1@), eq_classes(txs2@), i)
                ==> (r matches Some(m) && exists|t: String|
                debug_text_of(txs1@[i], t) && m@ == missing_opening(file1_name@, file2_name@) + t@),
        forall|j: int|
            txs1@.len() == txs2@.len() && (forall|k: int| 0 <= k < txs1@.len() ==> !unmatched(eq_classes(txs1@), eq_classes(txs2@), k))
                && #[trigger] first_unmatched(eq_classes(txs2@), eq_classes(txs1@), j)
                ==> (r matches Some(m) && exists|t: String|
                debug_text_of(txs2@[j], t) && m@ == missing_opening(file2_name@, file1_name@) + t@),
{
    let ghost a = eq_classes(txs1@);
    let ghost b = eq_classes(txs2@);
    proof {
        lemma_no_difference_iff_same_elements(a, b);
    }
    let d = find_difference(txs1, txs2);
    proof {
        match d {
            Some(Difference::MissingFromSecond(i)) => {
                assert forall|k: int| txs1@.len() == txs2@.len() && #[trigger] first_unmatched(a, b, k) implies k == i by {
                    if k < i {
                        assert(!unmatched(a, b, k));
                    } else if k > i {
                        assert(!unmatched(a, b, i as int));
                    }
                }
            },
            Some(Difference::MissingFromFirst(j)) => {
                assert forall|k: int| #[trigger] first_unmatched(b, a, k) implies k == j by {
                    if k < j {
                        assert(!unmatched(b, a, k));
                    } else if k > j {
                        assert(!unmatched(b, a, j as int));
                    }
                }
            },
            _ => {},
        }
    }
    difference_message(d, txs1, txs2, file1_name, file2_name)
}

/// The text that the derived `Debug` of a transaction writes, which
/// depends on the transaction's fields alone.
pub uninterp spec fn transaction_debug_text(t: TxRecord) -> Seq<char>;

/// `format!("{:?}", ..)` on a transaction, through its derived `Debug`; its
/// text is named [`transaction_debug_text`] of the transaction's fields.
#[verifier::external_body]
fn transaction_debug(t: &Transaction) -> (s: String)
    ensures
        s@ == transaction_debug_text(t@),
{
    format!("{:?}", t)
}

/// The message for a transaction of one list missing from the other.
fn transaction_missing_message(has: &str, lacks: &str, t: &Transaction) -> (m: String)
    ensures
        m@ == missing_opening(has@, lacks@) + transaction_debug_text(t@),
{
    let mut m = "Transaction present in '".to_owned();
    m.append(has);
    m.append("' but not in '");
    m.append(lacks);
    m.append("': ");
    let d = transaction_debug(t);
    m.append(d.as_str());
    m
}

/// `a[i]` is the first element of `a` with no partner in `b`.
pub open spec fn first_unmatched<V>(a: Seq<V>, b: Seq<V>, i: int) -> bool {
    &&& 0 <= i < a.len()
    &&& unmatched(a, b, i)
    &&& forall|k: int| 0 <= k < i ==> !unmatched(a, b, k)
}

/// Compares two lists of transactions regardless of order, a transaction
/// matching another when all their fields are equal; `None` when they hold
/// the same transactions, else a message about the first difference (see
/// [`find_transaction_difference`]): the counts, or the first transaction of
/// the first list with no partner in the second, else the first of the
/// second left over, written as its `Debug` text.
pub fn compare_transactions(
    txs1: &[Transaction],
    txs2: &[Transaction],
    file1_name: &str,
    file2_name: &str,
) -> (r: Option<String>)
    ensures
        comparison_reported(records(txs1@), records(txs2@), file1_name@, file2_name@, r),
        forall|i: int|
            txs1@.len() == txs2@.len() && #[trigger] first_unmatched(records(txs1@), records(txs2@), i)
                ==> (r matches Some(m) && m@ == missing_opening(file1_name@, file2_name@)
                + transaction_debug_text(records(txs1@)[i])),
        forall|j: int|
            txs1@.len() == txs2@.len() && (forall|k: int| 0 <= k < txs1@.len() ==> !unmatched(records(txs1@), records(txs2@), k))
                && #[trigger] first_unmatched(records(txs2@), records(txs1@), j)
                ==> (r matches Some(m) && m@ == missing_opening(file2_name@, file1_name@)
                + transaction_debug_text(records(txs2@)[j])),
{
    let ghost a = records(txs1@);
    let ghost b = records(txs2@);
    proof {
        lemma_no_difference_iff_same_elements(a, b);
    }
    let d = find_transaction_difference(txs1, txs2);
    match d {
        Some(Difference::MissingFromSecond(i)) => {
            let m = transaction_missing_message(file1_name, file2_name, &txs1[i]);
            proof {
                assert(a[i as int] == txs1@[i as int]@);
                assert forall|k: int| txs1@.len() == txs2@.len() && #[trigger] first_unmatched(a, b, k) implies k == i by {
                    if k < i {
                        assert(!unmatched(a, b, k));
                    } else if k > i {
                        assert(!unmatched(a, b, i as int));
                    }
                }
                assert(starts_with(m@, missing_opening(file1_name@, file2_name@))) by {
                    assert(m@.subrange(0, missing_opening(file1_name@, file2_name@).len() as int)
                        =~= missing_opening(file1_name@, file2_name@));
                }
            }
            Some(m)
        },
        Some(Difference::MissingFromFirst(j)) => {
            let m = transaction_missing_message(file2_name, file1_name, &txs2[j]);
            proof {
                assert(b[j as int] == txs2@[j as int]@);
                assert forall|k: int| #[trigger] first_unmatched(b, a, k) implies k == j by {
                    if k < j {
                        assert(!unmatched(b, a, k));
                    } else if k > j {
                        assert(!unmatched(b, a, j as int));
                    }
                }
                assert forall|k: int| !(0 <= k < txs1@.len() && #[trigger] unmatched(a, b, k)) by {
                }
                assert(starts_with(m@, missing_opening(file2_name@, file1_name@))) by {
                    assert(m@.subrange(0, missing_opening(file2_name@, file1_name@).len() as int)
                        =~= missing_opening(file2_name@, file1_name@));
                }
            }
            Some(m)
        },
        _ => difference_message(d, txs1, txs2, file1_name, file2_name),
    }
}

} // verus!
