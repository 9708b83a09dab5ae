//! Stable sorting and run partitioning, the two order-shaping operations of
//! the cascade: a stable insertion sort by an integer key (ascending or
//! descending), and the split of a sorted sequence into maximal runs of
//! equal key. Both are specified as recursive spec functions, so callers'
//! contracts pin the result down exactly.

use vstd::multiset::Multiset;
use vstd::prelude::*;

verus! {

/// Direction-aware comparison: in an ascending sort a key `ka` may stand
/// before `kb` when `ka <= kb`; in a descending sort when `ka >= kb`.
pub open spec fn keys_in_order(asc: bool, ka: int, kb: int) -> bool {
    if asc {
        ka <= kb
    } else {
        ka >= kb
    }
}

/// A sequence is sorted when every pair of entries is in key order.
pub open spec fn sorted_by_key<T>(key: spec_fn(T) -> int, asc: bool, s: Seq<T>) -> bool {
    forall|i: int, j: int|
        #![trigger s[i], s[j]]
        0 <= i < j < s.len() ==> keys_in_order(asc, key(s[i]), key(s[j]))
}

/// Stable insertion of `x` into `s`: `x` goes after every entry whose key
/// may stand before its own, so entries of equal key keep their order.
pub open spec fn insert_stable<T>(key: spec_fn(T) -> int, asc: bool, x: T, s: Seq<T>) -> Seq<T>
    decreases s.len(),
{
    if s.len() == 0 {
        seq![x]
    } else if keys_in_order(asc, key(s[0]), key(x)) {
        seq![s[0]] + insert_stable(key, asc, x, s.drop_first())
    } else {
        seq![x] + s
    }
}

/// Stable insertion sort: entries are inserted left to right, so the result
/// is sorted and entries of equal key keep their input order.
pub open spec fn sort_stable<T>(key: spec_fn(T) -> int, asc: bool, s: Seq<T>) -> Seq<T>
    decreases s.len(),
{
    if s.len() == 0 {
        Seq::empty()
    } else {
        insert_stable(key, asc, s.last(), sort_stable(key, asc, s.drop_last()))
    }
}

/// Where `insert_stable` places the new entry: at the first position whose
/// current entry may not stand before `x`.
pub proof fn lemma_insert_stable_at<T>(key: spec_fn(T) -> int, asc: bool, x: T, s: Seq<T>, p: int)
    requires
        0 <= p <= s.len(),
        forall|k: int| 0 <= k < p ==> keys_in_order(asc, key(#[trigger] s[k]), key(x)),
        p < s.len() ==> !keys_in_order(asc, key(s[p]), key(x)),
    ensures
        insert_stable(key, asc, x, s) == s.subrange(0, p) + seq![x] + s.subrange(p, s.len() as int),
    decreases p,
{
    if p == 0 {
        if s.len() == 0 {
            assert(insert_stable(key, asc, x, s) =~= s.subrange(0, 0) + seq![x] + s.subrange(
                0,
                0,
            ));
        } else {
            assert(insert_stable(key, asc, x, s) =~= s.subrange(0, 0) + seq![x] + s.subrange(
                0,
                s.len() as int,
            ));
        }
    } else {
        let t = s.drop_first();
        assert(forall|k: int| 0 <= k < p - 1 ==> keys_in_order(
            asc,
            key(#[trigger] t[k]),
            key(x),
        )) by {
            assert(forall|k: int| 0 <= k < p - 1 ==> t[k] == s[k + 1]);
        }
        assert(p - 1 < t.len() ==> !keys_in_order(asc, key(t[p - 1]), key(x)));
        lemma_insert_stable_at(key, asc, x, t, p - 1);
        assert(keys_in_order(asc, key(s[0]), key(x)));
        assert(insert_stable(key, asc, x, s) == seq![s[0]] + insert_stable(key, asc, x, t));
        assert(seq![s[0]] + (t.subrange(0, p - 1) + seq![x] + t.subrange(p - 1, t.len() as int))
            =~= s.subrange(0, p) + seq![x] + s.subrange(p, s.len() as int));
    }
}

/// Inserting into a sorted sequence keeps it sorted.
pub proof fn lemma_insert_stable_sorted<T>(key: spec_fn(T) -> int, asc: bool, x: T, s: Seq<T>)
    requires
        sorted_by_key(key, asc, s),
    ensures
        sorted_by_key(key, asc, insert_stable(key, asc, x, s)),
    decreases s.len(),
{
    if s.len() == 0 {
    } else if keys_in_order(asc, key(s[0]), key(x)) {
        let t = s.drop_first();
        assert(forall|i: int, j: int|
            #![trigger t[i], t[j]]
            0 <= i < j < t.len() ==> keys_in_order(asc, key(t[i]), key(t[j]))) by {
            assert(forall|i: int| 0 <= i < t.len() ==> t[i] == s[i + 1]);
        }
        lemma_insert_stable_sorted(key, asc, x, t);
        let r = seq![s[0]] + insert_stable(key, asc, x, t);
        let it = insert_stable(key, asc, x, t);
        assert(forall|j: int| 0 <= j < it.len() ==> keys_in_order(
            asc,
            key(s[0]),
            key(#[trigger] it[j]),
        )) by {
            lemma_insert_stable_membership(key, asc, x, t);
            assert(forall|i: int| 0 <= i < t.len() ==> keys_in_order(
                asc,
                key(s[0]),
                key(#[trigger] t[i]),
            )) by {
                assert(forall|i: int| 0 <= i < t.len() ==> t[i] == s[i + 1]);
            }
        }
        assert(forall|i: int, j: int|
            #![trigger r[i], r[j]]
            0 <= i < j < r.len() ==> keys_in_order(asc, key(r[i]), key(r[j])));
    } else {
        let r = seq![x] + s;
        assert(forall|i: int, j: int|
            #![trigger r[i], r[j]]
            0 <= i < j < r.len() ==> keys_in_order(asc, key(r[i]), key(r[j])));
    }
}

/// Every entry of the inserted sequence is the new entry or one of the old.
pub proof fn lemma_insert_stable_membership<T>(key: spec_fn(T) -> int, asc: bool, x: T, s: Seq<T>)
    ensures
        insert_stable(key, asc, x, s).len() == s.len() + 1,
        forall|i: int|
            0 <= i < insert_stable(key, asc, x, s).len() ==> (#[trigger] insert_stable(
                key,
                asc,
                x,
                s,
            )[i] == x || s.contains(insert_stable(key, asc, x, s)[i])),
    decreases s.len(),
{
    if s.len() == 0 {
    } else if keys_in_order(asc, key(s[0]), key(x)) {
        let t = s.drop_first();
        lemma_insert_stable_membership(key, asc, x, t);
        assert(forall|i: int| 0 <= i < t.len() ==> s.contains(#[trigger] t[i])) by {
            assert(forall|i: int| 0 <= i < t.len() ==> t[i] == s[i + 1]);
        }
        let r = seq![s[0]] + insert_stable(key, asc, x, t);
        assert(s.contains(s[0]));
        assert(forall|i: int| 1 <= i < r.len() ==> r[i] == insert_stable(key, asc, x, t)[i - 1]);
    } else {
        assert(forall|i: int| 0 <= i < s.len() ==> s.contains(#[trigger] s[i]));
    }
}

/// The multiset of entries is unchanged by stable insertion.
pub proof fn lemma_insert_stable_multiset<T>(key: spec_fn(T) -> int, asc: bool, x: T, s: Seq<T>)
    ensures
        insert_stable(key, asc, x, s).to_multiset() == s.push(x).to_multiset(),
    decreases s.len(),
{
    broadcast use vstd::seq_lib::group_seq_properties;

    if s.len() == 0 {
        assert(insert_stable(key, asc, x, s) =~= s.push(x));
    } else if keys_in_order(asc, key(s[0]), key(x)) {
        let t = s.drop_first();
        lemma_insert_stable_multiset(key, asc, x, t);
        let r = seq![s[0]] + insert_stable(key, asc, x, t);
        assert(r =~= insert_stable(key, asc, x, t).insert(0, s[0]));
        assert(s.push(x) =~= t.push(x).insert(0, s[0]));
        lemma_insert_to_multiset(insert_stable(key, asc, x, t), 0, s[0]);
        lemma_insert_to_multiset(t.push(x), 0, s[0]);
    } else {
        assert(seq![x] + s =~= s.insert(0, x));
        lemma_insert_to_multiset(s, 0, x);
        assert(s.push(x) =~= s.insert(s.len() as int, x));
        lemma_insert_to_multiset(s, s.len() as int, x);
    }
}

/// Inserting anywhere in a sequence adds one occurrence to its multiset.
pub proof fn lemma_insert_to_multiset<T>(s: Seq<T>, p: int, x: T)
    requires
        0 <= p <= s.len(),
    ensures
        s.insert(p, x).to_multiset() == s.to_multiset().insert(x),
{
    broadcast use vstd::seq_lib::group_seq_properties;

    let r = s.insert(p, x);
    assert(r =~= s.subrange(0, p) + seq![x] + s.subrange(p, s.len() as int));
    let a = s.subrange(0, p);
    let b = s.subrange(p, s.len() as int);
    vstd::seq_lib::lemma_multiset_commutative(a + seq![x], b);
    vstd::seq_lib::lemma_multiset_commutative(a, seq![x]);
    vstd::seq_lib::lemma_multiset_commutative(a, b);
    assert(a + b =~= s);
    assert(seq![x].to_multiset() =~= Multiset::empty().insert(x)) by {
        assert(seq![x] =~= Seq::empty().push(x));
        assert(Seq::<T>::empty().to_multiset() =~= Multiset::empty());
    }
    assert(r.to_multiset() =~= s.to_multiset().insert(x));
}

/// A stable sort is a permutation: the multiset of entries is unchanged.
pub proof fn lemma_sort_stable_multiset<T>(key: spec_fn(T) -> int, asc: bool, s: Seq<T>)
    ensures
        sort_stable(key, asc, s).to_multiset() == s.to_multiset(),
    decreases s.len(),
{
    broadcast use vstd::seq_lib::group_seq_properties;

    if s.len() == 0 {
        assert(sort_stable(key, asc, s) =~= Seq::<T>::empty());
    } else {
        let t = s.drop_last();
        lemma_sort_stable_multiset(key, asc, t);
        lemma_insert_stable_multiset(key, asc, s.last(), sort_stable(key, asc, t));
        assert(sort_stable(key, asc, t).push(s.last()).to_multiset() == sort_stable(
            key,
            asc,
            t,
        ).to_multiset().insert(s.last())) by {
            let u = sort_stable(key, asc, t);
            assert(u.push(s.last()) =~= u.insert(u.len() as int, s.last()));
            lemma_insert_to_multiset(u, u.len() as int, s.last());
        }
        assert(t.push(s.last()).to_multiset() == t.to_multiset().insert(s.last())) by {
            assert(t.push(s.last()) =~= t.insert(t.len() as int, s.last()));
            lemma_insert_to_multiset(t, t.len() as int, s.last());
        }
        assert(t.push(s.last()) =~= s);
    }
}

/// The result of a stable sort is sorted.
pub proof fn lemma_sort_stable_sorted<T>(key: spec_fn(T) -> int, asc: bool, s: Seq<T>)
    ensures
        sorted_by_key(key, asc, sort_stable(key, asc, s)),
    decreases s.len(),
{
    if s.len() == 0 {
    } else {
        lemma_sort_stable_sorted(key, asc, s.drop_last());
        lemma_insert_stable_sorted(key, asc, s.last(), sort_stable(key, asc, s.drop_last()));
    }
}

/// Stability: for every key value, the subsequence of entries carrying that
/// key is exactly the same, in the same order, before and after sorting.
pub proof fn lemma_sort_stable_stability<T>(key: spec_fn(T) -> int, asc: bool, s: Seq<T>, k: int)
    ensures
        sort_stable(key, asc, s).filter(|t: T| key(t) == k) == s.filter(|t: T| key(t) == k),
    decreases s.len(),
{
    broadcast use vstd::seq_lib::group_seq_properties;

    if s.len() == 0 {
        assert(sort_stable(key, asc, s) =~= Seq::<T>::empty());
        assert(Seq::<T>::empty().filter(|t: T| key(t) == k) =~= Seq::<T>::empty());
    } else {
        let t = s.drop_last();
        lemma_sort_stable_stability(key, asc, t, k);
        lemma_sort_stable_sorted(key, asc, t);
        lemma_insert_stable_filter(key, asc, s.last(), sort_stable(key, asc, t), k);
        lemma_filter_push(t, |x: T| key(x) == k, s.last());
        assert(t.push(s.last()) =~= s);
    }
}

/// Filtering distributes over push.
pub proof fn lemma_filter_push<T>(s: Seq<T>, pred: spec_fn(T) -> bool, x: T)
    ensures
        s.push(x).filter(pred) == if pred(x) {
            s.filter(pred).push(x)
        } else {
            s.filter(pred)
        },
    decreases s.len(),
{
    reveal_with_fuel(Seq::filter, 2);
    if s.len() == 0 {
        assert(s.push(x).drop_last() =~= s);
        assert(s.push(x).last() == x);
    } else {
        assert(s.push(x).drop_last() =~= s);
        assert(s.push(x).last() == x);
    }
}

/// Stable insertion appends the new entry at the end of its key's
/// subsequence and leaves every other key's subsequence unchanged.
pub proof fn lemma_insert_stable_filter<T>(
    key: spec_fn(T) -> int,
    asc: bool,
    x: T,
    s: Seq<T>,
    k: int,
)
    requires
        sorted_by_key(key, asc, s),
    ensures
        insert_stable(key, asc, x, s).filter(|t: T| key(t) == k) == if key(x) == k {
            s.filter(|t: T| key(t) == k).push(x)
        } else {
            s.filter(|t: T| key(t) == k)
        },
    decreases s.len(),
{
    broadcast use vstd::seq_lib::group_seq_properties;

    let pred = |t: T| key(t) == k;
    if s.len() == 0 {
        assert(insert_stable(key, asc, x, s) =~= Seq::<T>::empty().push(x));
        lemma_filter_push(Seq::<T>::empty(), pred, x);
        assert(Seq::<T>::empty().filter(pred) =~= Seq::<T>::empty());
        assert(s.filter(pred) =~= Seq::<T>::empty());
    } else if keys_in_order(asc, key(s[0]), key(x)) {
        let t = s.drop_first();
        assert(forall|i: int, j: int|
            #![trigger t[i], t[j]]
            0 <= i < j < t.len() ==> keys_in_order(asc, key(t[i]), key(t[j]))) by {
            assert(forall|i: int| 0 <= i < t.len() ==> t[i] == s[i + 1]);
        }
        lemma_insert_stable_filter(key, asc, x, t, k);
        let it = insert_stable(key, asc, x, t);
        assert(insert_stable(key, asc, x, s) == seq![s[0]] + it);
        lemma_filter_cons(s[0], it, pred);
        lemma_filter_cons(s[0], t, pred);
        assert(seq![s[0]] + t =~= s);
        if pred(x) {
            if pred(s[0]) {
                assert((seq![s[0]] + it).filter(pred) =~= (seq![s[0]] + t).filter(pred).push(x));
            } else {
                assert((seq![s[0]] + it).filter(pred) =~= (seq![s[0]] + t).filter(pred).push(x));
            }
        }
    } else {
        // x stands first: s[0] may not stand before x, and s is sorted, so
        // every entry of s is strictly after x in sort order; equal keys
        // always stand in order, so no entry of s carries x's key.
        let r = seq![x] + s;
        lemma_filter_cons(x, s, pred);
        if pred(x) {
            assert(forall|i: int| 0 <= i < s.len() ==> !pred(#[trigger] s[i])) by {
                assert(forall|i: int| 0 <= i < s.len() ==> keys_in_order(
                    asc,
                    key(s[0]),
                    key(#[trigger] s[i]),
                ));
            }
            lemma_filter_all_false(s, pred);
            assert(r.filter(pred) =~= s.filter(pred).push(x));
        }
    }
}

/// Filtering distributes over prepending one entry.
pub proof fn lemma_filter_cons<T>(x: T, s: Seq<T>, pred: spec_fn(T) -> bool)
    ensures
        (seq![x] + s).filter(pred) == if pred(x) {
            seq![x] + s.filter(pred)
        } else {
            s.filter(pred)
        },
    decreases s.len(),
{
    broadcast use vstd::seq_lib::group_seq_properties;

    if s.len() == 0 {
        reveal_with_fuel(Seq::filter, 3);
        assert((seq![x] + s) =~= seq![x]);
        assert(seq![x] =~= Seq::<T>::empty().push(x));
        lemma_filter_push(Seq::<T>::empty(), pred, x);
        assert(Seq::<T>::empty().filter(pred) =~= Seq::<T>::empty());
        assert(s.filter(pred) =~= Seq::<T>::empty());
        if pred(x) {
            assert(seq![x] + s.filter(pred) =~= Seq::<T>::empty().filter(pred).push(x));
        }
    } else {
        let t = s.drop_last();
        lemma_filter_cons(x, t, pred);
        assert((seq![x] + s).drop_last() =~= seq![x] + t);
        lemma_filter_push(seq![x] + t, pred, s.last());
        lemma_filter_push(t, pred, s.last());
        assert((seq![x] + s) =~= (seq![x] + t).push(s.last()));
        assert(s =~= t.push(s.last()));
        if pred(x) {
            assert(seq![x] + s.filter(pred) =~= if pred(s.last()) {
                (seq![x] + t.filter(pred)).push(s.last())
            } else {
                seq![x] + t.filter(pred)
            });
        }
    }
}

/// Entries that an exec sort or run split can order: each carries an
/// integer sort key, with an executable comparison tied to it.
pub trait SortKey: Sized {
    /// The key the entry is ordered by.
    spec fn sort_key(self) -> int;

    /// Executable comparison agreeing with `sort_key`.
    fn key_le(&self, other: &Self) -> (r: bool)
        ensures
            r == (self.sort_key() <= other.sort_key()),
    ;
}

/// The sort key as a spec closure, for use with the generic spec functions.
pub open spec fn key_fn<T: SortKey>() -> spec_fn(T) -> int {
    |t: T| t.sort_key()
}

/// Inserts `x` into a sorted vector at its stable position.
pub fn insert_by_key<T: SortKey>(v: &mut Vec<T>, x: T, asc: bool)
    requires
        sorted_by_key(key_fn::<T>(), asc, old(v)@),
    ensures
        final(v)@ == insert_stable(key_fn::<T>(), asc, x, old(v)@),
{
    let ghost s = v@;
    let mut p: usize = 0;
    loop
        invariant
            p <= v.len(),
            v@ == s,
            forall|k: int| 0 <= k < p ==> keys_in_order(
                asc,
                (#[trigger] s[k]).sort_key(),
                x.sort_key(),
            ),
        ensures
            p <= s.len(),
            v@ == s,
            forall|k: int| 0 <= k < p ==> keys_in_order(
                asc,
                (#[trigger] s[k]).sort_key(),
                x.sort_key(),
            ),
            p < s.len() ==> !keys_in_order(asc, s[p as int].sort_key(), x.sort_key()),
        decreases v.len() - p,
    {
        if p == v.len() {
            break ;
        }
        let go = if asc {
            v[p].key_le(&x)
        } else {
            x.key_le(&v[p])
        };
        if !go {
            break ;
        }
        p += 1;
    }
    proof {
        let kf = key_fn::<T>();
        assert(forall|k: int| 0 <= k < s.len() ==> kf(#[trigger] s[k]) == s[k].sort_key());
        assert(kf(x) == x.sort_key());
        lemma_insert_stable_at(kf, asc, x, s, p as int);
    }
    v.insert(p, x);
    proof {
        assert(v@ =~= s.subrange(0, p as int) + seq![x] + s.subrange(p as int, s.len() as int));
    }
}

/// Stable sort of a vector by key, in the given direction. The result is
/// exactly `sort_stable` of the input: sorted, a permutation, and with
/// entries of equal key in their input order.
pub fn sort_by_key<T: SortKey>(v: Vec<T>, asc: bool) -> (r: Vec<T>)
    ensures
        r@ == sort_stable(key_fn::<T>(), asc, v@),
{
    let ghost orig = v@;
    let mut input = v;
    let mut out: Vec<T> = Vec::new();
    proof {
        assert(orig.subrange(0, 0) =~= Seq::<T>::empty());
        assert(input@ =~= orig.subrange(0, orig.len() as int));
    }
    while input.len() > 0
        invariant
            input.len() <= orig.len(),
            input@ == orig.subrange(orig.len() - input.len(), orig.len() as int),
            out@ == sort_stable(key_fn::<T>(), asc, orig.subrange(0, orig.len() - input.len())),
        decreases input.len(),
    {
        let ghost k = orig.len() - input.len();
        let x = input.remove(0);
        proof {
            let kf = key_fn::<T>();
            assert(x == orig[k as int]);
            assert(input@ =~= orig.subrange(k as int + 1, orig.len() as int));
            let consumed = orig.subrange(0, k as int);
            let consumed_next = orig.subrange(0, k as int + 1);
            lemma_sort_stable_sorted(kf, asc, consumed);
            assert(consumed_next.drop_last() =~= consumed);
            assert(consumed_next.last() == x);
            assert(sort_stable(kf, asc, consumed_next) == insert_stable(
                kf,
                asc,
                x,
                sort_stable(kf, asc, consumed),
            ));
        }
        insert_by_key(&mut out, x, asc);
    }
    proof {
        assert(orig.subrange(0, orig.len() as int) =~= orig);
    }
    out
}

/// The maximal runs of equal key, in order: each run is a maximal stretch
/// of consecutive entries sharing one key value.
pub open spec fn runs_by_key<T>(key: spec_fn(T) -> int, s: Seq<T>) -> Seq<Seq<T>>
    decreases s.len(),
{
    if s.len() == 0 {
        Seq::empty()
    } else {
        let rest = runs_by_key(key, s.drop_first());
        if rest.len() > 0 && key(rest[0][0]) == key(s[0]) {
            seq![seq![s[0]] + rest[0]] + rest.drop_first()
        } else {
            seq![seq![s[0]]] + rest
        }
    }
}

/// The first run of a non-empty sequence starts with its first entry.
pub proof fn lemma_runs_head<T>(key: spec_fn(T) -> int, s: Seq<T>)
    requires
        s.len() > 0,
    ensures
        runs_by_key(key, s).len() > 0,
        runs_by_key(key, s)[0].len() > 0,
        runs_by_key(key, s)[0][0] == s[0],
    decreases s.len(),
{
    if s.len() > 1 {
        lemma_runs_head(key, s.drop_first());
    }
}

/// Splitting off a complete first run: if the first `n` entries share the
/// first entry's key and entry `n` (if any) does not, the runs are that
/// stretch followed by the runs of the remainder.
pub proof fn lemma_runs_first<T>(key: spec_fn(T) -> int, s: Seq<T>, n: int)
    requires
        1 <= n <= s.len(),
        forall|i: int| 0 <= i < n ==> key(#[trigger] s[i]) == key(s[0]),
        n < s.len() ==> key(s[n]) != key(s[0]),
    ensures
        runs_by_key(key, s) == seq![s.subrange(0, n)] + runs_by_key(
            key,
            s.subrange(n, s.len() as int),
        ),
    decreases n,
{
    let t = s.drop_first();
    if n == 1 {
        if s.len() == 1 {
            assert(runs_by_key(key, s) =~= seq![seq![s[0]]]);
            assert(seq![s[0]] =~= s.subrange(0, 1));
            assert(s.subrange(1, 1) =~= Seq::<T>::empty());
            assert(runs_by_key(key, s) =~= seq![s.subrange(0, 1)] + runs_by_key(
                key,
                s.subrange(1, s.len() as int),
            ));
        } else {
            lemma_runs_head(key, t);
            assert(t[0] == s[1]);
            assert(key(runs_by_key(key, t)[0][0]) != key(s[0]));
            assert(runs_by_key(key, s) == seq![seq![s[0]]] + runs_by_key(key, t));
            assert(seq![s[0]] =~= s.subrange(0, 1));
            assert(t =~= s.subrange(1, s.len() as int));
        }
    } else {
        assert(forall|i: int| 0 <= i < n - 1 ==> key(#[trigger] t[i]) == key(t[0])) by {
            assert(forall|i: int| 0 <= i < t.len() ==> t[i] == s[i + 1]);
        }
        assert(n - 1 < t.len() ==> key(t[n - 1]) != key(t[0])) by {
            assert(forall|i: int| 0 <= i < t.len() ==> t[i] == s[i + 1]);
        }
        lemma_runs_first(key, t, n - 1);
        lemma_runs_head(key, t);
        let rest = runs_by_key(key, t);
        assert(rest == seq![t.subrange(0, n - 1)] + runs_by_key(key, t.subrange(n - 1, t.len() as int)));
        assert(rest[0] == t.subrange(0, n - 1));
        assert(rest[0][0] == t[0]);
        assert(key(rest[0][0]) == key(s[0]));
        assert(runs_by_key(key, s) == seq![seq![s[0]] + rest[0]] + rest.drop_first());
        assert(seq![s[0]] + t.subrange(0, n - 1) =~= s.subrange(0, n));
        assert(rest.drop_first() =~= runs_by_key(key, t.subrange(n - 1, t.len() as int)));
        assert(t.subrange(n - 1, t.len() as int) =~= s.subrange(n, s.len() as int));
        assert(runs_by_key(key, s) =~= seq![s.subrange(0, n)] + runs_by_key(
            key,
            s.subrange(n, s.len() as int),
        ));
    }
}

/// Concatenating the runs gives back the sequence unchanged.
pub proof fn lemma_runs_flatten<T>(key: spec_fn(T) -> int, s: Seq<T>)
    ensures
        runs_by_key(key, s).flatten() == s,
    decreases s.len(),
{
    if s.len() == 0 {
        assert(runs_by_key(key, s).flatten() =~= s);
    } else {
        let t = s.drop_first();
        lemma_runs_flatten(key, t);
        let rest = runs_by_key(key, t);
        if rest.len() > 0 && key(rest[0][0]) == key(s[0]) {
            let r = seq![seq![s[0]] + rest[0]] + rest.drop_first();
            assert(r.first() == seq![s[0]] + rest[0]);
            assert(r.drop_first() =~= rest.drop_first());
            assert(r.flatten() == (seq![s[0]] + rest[0]) + rest.drop_first().flatten());
            assert(rest.flatten() == rest[0] + rest.drop_first().flatten());
            assert((seq![s[0]] + rest[0]) + rest.drop_first().flatten() =~= seq![s[0]]
                + (rest[0] + rest.drop_first().flatten()));
            assert(seq![s[0]] + rest.flatten() =~= s);
        } else {
            let r = seq![seq![s[0]]] + rest;
            assert(r.first() == seq![s[0]]);
            assert(r.drop_first() =~= rest);
            assert(r.flatten() == seq![s[0]] + rest.flatten());
            assert(seq![s[0]] + rest.flatten() =~= s);
        }
    }
}

/// Each run is non-empty and all its entries share one key; adjacent runs
/// carry different keys, so every run is maximal.
pub proof fn lemma_runs_shape<T>(key: spec_fn(T) -> int, s: Seq<T>)
    ensures
        forall|g: int|
            0 <= g < runs_by_key(key, s).len() ==> (#[trigger] runs_by_key(key, s)[g]).len() > 0,
        forall|g: int, i: int|
            #![trigger runs_by_key(key, s)[g][i]]
            0 <= g < runs_by_key(key, s).len() && 0 <= i < runs_by_key(key, s)[g].len() ==> key(
                runs_by_key(key, s)[g][i],
            ) == key(runs_by_key(key, s)[g][0]),
        forall|g: int|
            0 < g < runs_by_key(key, s).len() ==> key((#[trigger] runs_by_key(key, s)[g])[0])
                != key(runs_by_key(key, s)[g - 1][0]),
    decreases s.len(),
{
    if s.len() == 0 {
    } else {
        let t = s.drop_first();
        lemma_runs_shape(key, t);
        let rest = runs_by_key(key, t);
        let r = runs_by_key(key, s);
        if rest.len() > 0 && key(rest[0][0]) == key(s[0]) {
            assert(r == seq![seq![s[0]] + rest[0]] + rest.drop_first());
            assert(r[0] == seq![s[0]] + rest[0]);
            assert(forall|g: int| 1 <= g < r.len() ==> r[g] == rest[g]);
            assert(forall|g: int| 0 <= g < rest.drop_first().len() ==> rest.drop_first()[g]
                == rest[g + 1]);
            assert(forall|i: int| 0 <= i < r[0].len() ==> key(#[trigger] r[0][i]) == key(r[0][0]))
                by {
                assert(r[0][0] == s[0]);
                assert(forall|i: int| 1 <= i < r[0].len() ==> r[0][i] == rest[0][i - 1]);
            }
            if r.len() > 1 {
                assert(r[1] == rest[1]);
                assert(key(r[1][0]) != key(rest[0][0]));
            }
        } else {
            assert(r == seq![seq![s[0]]] + rest);
            assert(r[0] == seq![s[0]]);
            assert(forall|g: int| 1 <= g < r.len() ==> r[g] == rest[g - 1]);
            if rest.len() > 0 {
                lemma_runs_head(key, t);
            }
        }
    }
}

/// Splits a vector into its maximal runs of equal key, in order.
pub fn split_runs<T: SortKey>(v: Vec<T>) -> (r: Vec<Vec<T>>)
    ensures
        r@.len() == runs_by_key(key_fn::<T>(), v@).len(),
        forall|i: int|
            0 <= i < r@.len() ==> (#[trigger] r@[i])@ == runs_by_key(key_fn::<T>(), v@)[i],
{
    let ghost orig = v@;
    let mut input = v;
    let mut out: Vec<Vec<T>> = Vec::new();
    while input.len() > 0
        invariant
            out@.len() + runs_by_key(key_fn::<T>(), input@).len() == runs_by_key(
                key_fn::<T>(),
                orig,
            ).len(),
            forall|i: int|
                0 <= i < out@.len() ==> (#[trigger] out@[i])@ == runs_by_key(key_fn::<T>(), orig)[i],
            forall|i: int|
                0 <= i < runs_by_key(key_fn::<T>(), input@).len() ==> #[trigger] runs_by_key(
                    key_fn::<T>(),
                    input@,
                )[i] == runs_by_key(key_fn::<T>(), orig)[out@.len() + i],
        decreases input.len(),
    {
        let ghost cur = input@;
        let mut n: usize = 1;
        loop
            invariant
                1 <= n <= input.len(),
                input@ == cur,
                forall|i: int| 0 <= i < n ==> (#[trigger] cur[i]).sort_key() == cur[0].sort_key(),
            ensures
                1 <= n <= cur.len(),
                input@ == cur,
                forall|i: int| 0 <= i < n ==> (#[trigger] cur[i]).sort_key() == cur[0].sort_key(),
                n < cur.len() ==> cur[n as int].sort_key() != cur[0].sort_key(),
            decreases input.len() - n,
        {
            if n == input.len() {
                break ;
            }
            let le_a = input[n].key_le(&input[0]);
            let le_b = input[0].key_le(&input[n]);
            if !(le_a && le_b) {
                break ;
            }
            n += 1;
        }
        let rest = input.split_off(n);
        let ghost done = out@.len() as int;
        proof {
            let kf = key_fn::<T>();
            assert(forall|i: int| 0 <= i < cur.len() ==> kf(#[trigger] cur[i])
                == cur[i].sort_key());
            lemma_runs_first(kf, cur, n as int);
            assert(input@ == cur.subrange(0, n as int));
            assert(rest@ == cur.subrange(n as int, cur.len() as int));
            assert(runs_by_key(kf, cur)[0] == cur.subrange(0, n as int));
            assert(forall|i: int|
                0 <= i < runs_by_key(kf, rest@).len() ==> #[trigger] runs_by_key(kf, rest@)[i]
                    == runs_by_key(kf, cur)[i + 1]);
        }
        out.push(input);
        input = rest;
    }
    out
}

/// Between two runs of a sorted sequence, the earlier run's first entry is
/// in key order with the later run's first entry.
pub proof fn lemma_runs_starts_in_order<T>(
    key: spec_fn(T) -> int,
    asc: bool,
    s: Seq<T>,
    i: int,
    j: int,
)
    requires
        sorted_by_key(key, asc, s),
        0 <= i < j < runs_by_key(key, s).len(),
    ensures
        keys_in_order(asc, key(runs_by_key(key, s)[i][0]), key(runs_by_key(key, s)[j][0])),
{
    let runs = runs_by_key(key, s);
    lemma_runs_shape(key, s);
    lemma_runs_flatten(key, s);
    lemma_flatten_positions(runs, i, j);
    let (pi, pj): (int, int) = choose|pi: int, pj: int|
        0 <= pi < pj < runs.flatten().len() && runs.flatten()[pi] == runs[i][0]
            && runs.flatten()[pj] == runs[j][0];
    assert(s == runs.flatten());
    assert(keys_in_order(asc, key(s[pi]), key(s[pj])));
}

/// Entries of an earlier group appear earlier in the flattened sequence.
pub proof fn lemma_flatten_positions<T>(gs: Seq<Seq<T>>, i: int, j: int)
    requires
        0 <= i < j < gs.len(),
        forall|g: int| 0 <= g < gs.len() ==> (#[trigger] gs[g]).len() > 0,
    ensures
        exists|pi: int, pj: int|
            0 <= pi < pj < gs.flatten().len() && gs.flatten()[pi] == gs[i][0] && gs.flatten()[pj]
                == gs[j][0],
    decreases gs.len(),
{
    if i == 0 {
        assert(gs.flatten() == gs.first() + gs.drop_first().flatten());
        let t = gs.drop_first();
        lemma_flatten_start(t, j - 1);
        let pj0 = choose|p: int|
            0 <= p < t.flatten().len() && t.flatten()[p] == t[j - 1][0] && p >= 0;
        assert(gs.flatten()[gs[0].len() + pj0] == t[j - 1][0]);
        assert(gs.flatten()[0] == gs[0][0]);
        assert(t[j - 1] == gs[j]);
    } else {
        let t = gs.drop_first();
        lemma_flatten_positions(t, i - 1, j - 1);
        let (pi, pj): (int, int) = choose|pi: int, pj: int|
            0 <= pi < pj < t.flatten().len() && t.flatten()[pi] == t[i - 1][0] && t.flatten()[pj]
                == t[j - 1][0];
        assert(gs.flatten() == gs.first() + t.flatten());
        assert(gs.flatten()[gs[0].len() + pi] == t[i - 1][0]);
        assert(gs.flatten()[gs[0].len() + pj] == t[j - 1][0]);
        assert(t[i - 1] == gs[i]);
        assert(t[j - 1] == gs[j]);
    }
}

/// The first entry of any group has a position in the flattened sequence.
pub proof fn lemma_flatten_start<T>(gs: Seq<Seq<T>>, g: int)
    requires
        0 <= g < gs.len(),
        forall|k: int| 0 <= k < gs.len() ==> (#[trigger] gs[k]).len() > 0,
    ensures
        exists|p: int| 0 <= p < gs.flatten().len() && gs.flatten()[p] == gs[g][0] && p >= 0,
    decreases gs.len(),
{
    if g == 0 {
        assert(gs.flatten() == gs.first() + gs.drop_first().flatten());
        assert(gs.flatten()[0] == gs[0][0]);
    } else {
        let t = gs.drop_first();
        lemma_flatten_start(t, g - 1);
        let p0 = choose|p: int|
            0 <= p < t.flatten().len() && t.flatten()[p] == t[g - 1][0] && p >= 0;
        assert(gs.flatten() == gs.first() + t.flatten());
        assert(gs.flatten()[gs[0].len() + p0] == t[g - 1][0]);
        assert(t[g - 1] == gs[g]);
    }
}

/// An entry of any group is an entry of the flattened sequence.
pub proof fn lemma_flatten_member<T>(gs: Seq<Seq<T>>, g: int, j: int)
    requires
        0 <= g < gs.len(),
        0 <= j < gs[g].len(),
    ensures
        gs.flatten().contains(gs[g][j]),
    decreases gs.len(),
{
    if g == 0 {
        assert(gs.flatten() == gs.first() + gs.drop_first().flatten());
        assert(gs.flatten()[j] == gs[0][j]);
    } else {
        let t = gs.drop_first();
        lemma_flatten_member(t, g - 1, j);
        assert(t[g - 1] == gs[g]);
        assert(gs.flatten() == gs.first() + t.flatten());
        let x = gs[g][j];
        let i = choose|i: int| 0 <= i < t.flatten().len() && t.flatten()[i] == x;
        assert(gs.flatten()[gs[0].len() + i] == x);
    }
}

/// Every position of the flattened sequence comes from some group.
pub proof fn lemma_flatten_index<T>(gs: Seq<Seq<T>>, p: int)
    requires
        0 <= p < gs.flatten().len(),
    ensures
        exists|g: int, i: int|
            0 <= g < gs.len() && 0 <= i < gs[g].len() && gs.flatten()[p] == gs[g][i],
    decreases gs.len(),
{
    assert(gs.len() > 0);
    assert(gs.flatten() == gs.first() + gs.drop_first().flatten());
    if p < gs[0].len() {
        assert(gs.flatten()[p] == gs[0][p]);
    } else {
        let t = gs.drop_first();
        lemma_flatten_index(t, p - gs[0].len());
        let (g, i): (int, int) = choose|g: int, i: int|
            0 <= g < t.len() && 0 <= i < t[g].len() && t.flatten()[p - gs[0].len()] == t[g][i];
        assert(t[g] == gs[g + 1]);
        assert(gs.flatten()[p] == t.flatten()[p - gs[0].len()]);
    }
}

/// A sequence with no entry satisfying the predicate filters to empty.
pub proof fn lemma_filter_all_false<T>(s: Seq<T>, pred: spec_fn(T) -> bool)
    requires
        forall|i: int| 0 <= i < s.len() ==> !pred(#[trigger] s[i]),
    ensures
        s.filter(pred) == Seq::<T>::empty(),
    decreases s.len(),
{
    reveal_with_fuel(Seq::filter, 2);
    if s.len() == 0 {
        assert(s.filter(pred) =~= Seq::<T>::empty());
    } else {
        let t = s.drop_last();
        assert(forall|i: int| 0 <= i < t.len() ==> t[i] == s[i]);
        lemma_filter_all_false(t, pred);
    }
}

} // verus!
