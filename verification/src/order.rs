//! Lexicographic ordering of strings and canonical (sorted) forms for the
//! hash-backed collections, so that serialization is byte-stable regardless of
//! the order in which a collection was built.

use vstd::prelude::*;

verus! {

use vstd::multiset::Multiset;
use vstd::relations::{sorted_by, total_ordering};
use vstd::seq_lib::lemma_sorted_unique;

/// Lexicographic order on strings, comparing unicode scalar values.
pub open spec fn str_le(a: Seq<char>, b: Seq<char>) -> bool
    decreases a.len(),
{
    if a.len() == 0 {
        true
    } else if b.len() == 0 {
        false
    } else if a[0] == b[0] {
        str_le(a.drop_first(), b.drop_first())
    } else {
        (a[0] as u32) < (b[0] as u32)
    }
}

/// `str_le` lifted through a key function, as a binary relation on `T`.
pub open spec fn key_le<T>(key: spec_fn(T) -> Seq<char>) -> spec_fn(T, T) -> bool {
    |x: T, y: T| str_le(key(x), key(y))
}

/// The identity key: ordering strings by themselves.
pub open spec fn str_key() -> spec_fn(Seq<char>) -> Seq<char> {
    |s: Seq<char>| s
}

pub proof fn lemma_str_le_refl(a: Seq<char>)
    ensures
        str_le(a, a),
    decreases a.len(),
{
    if a.len() > 0 {
        lemma_str_le_refl(a.drop_first());
    }
}

pub proof fn lemma_str_le_connected(a: Seq<char>, b: Seq<char>)
    ensures
        str_le(a, b) || str_le(b, a),
    decreases a.len(),
{
    if a.len() > 0 && b.len() > 0 {
        if a[0] == b[0] {
            lemma_str_le_connected(a.drop_first(), b.drop_first());
        } else {
            lemma_char_code_injective(a[0], b[0]);
        }
    }
}

pub proof fn lemma_str_le_antisym(a: Seq<char>, b: Seq<char>)
    requires
        str_le(a, b),
        str_le(b, a),
    ensures
        a == b,
    decreases a.len(),
{
    if a.len() == 0 {
        assert(b.len() == 0);
        assert(a =~= b);
    } else {
        assert(b.len() > 0);
        if a[0] == b[0] {
            lemma_str_le_antisym(a.drop_first(), b.drop_first());
            assert(a =~= seq![a[0]] + a.drop_first());
            assert(b =~= seq![b[0]] + b.drop_first());
        }
    }
}

pub proof fn lemma_str_le_trans(a: Seq<char>, b: Seq<char>, c: Seq<char>)
    requires
        str_le(a, b),
        str_le(b, c),
    ensures
        str_le(a, c),
    decreases a.len(),
{
    if a.len() > 0 && b.len() > 0 && c.len() > 0 {
        if a[0] == b[0] && b[0] == c[0] {
            lemma_str_le_trans(a.drop_first(), b.drop_first(), c.drop_first());
        }
    }
}

/// The lexicographic order on strings is a total order.
pub proof fn lemma_str_le_total_ordering()
    ensures
        total_ordering(key_le(str_key())),
{
    let leq = key_le(str_key());
    assert forall|a: Seq<char>| #[trigger] leq(a, a) by {
        lemma_str_le_refl(a);
    }
    assert forall|a: Seq<char>, b: Seq<char>| #[trigger] leq(a, b) && #[trigger] leq(b, a)
        implies a == b by {
        lemma_str_le_antisym(a, b);
    }
    assert forall|a: Seq<char>, b: Seq<char>, c: Seq<char>|
        #[trigger] leq(a, b) && #[trigger] leq(b, c) implies leq(a, c) by {
        lemma_str_le_trans(a, b, c);
    }
    assert forall|a: Seq<char>, b: Seq<char>| #[trigger] leq(a, b) || #[trigger] leq(b, a) by {
        lemma_str_le_connected(a, b);
    }
}

/// Decides `str_le` on string slices.
pub fn str_le_exec(a: &str, b: &str) -> (r: bool)
    ensures
        r == str_le(a@, b@),
{
    let alen = a.unicode_len();
    let blen = b.unicode_len();
    let mut i: usize = 0;
    proof {
        assert(a@.skip(0) =~= a@);
        assert(b@.skip(0) =~= b@);
    }
    loop
        invariant
            i <= alen,
            i <= blen,
            alen == a@.len(),
            blen == b@.len(),
            str_le(a@, b@) == str_le(a@.skip(i as int), b@.skip(i as int)),
        decreases alen - i,
    {
        if i == alen {
            return true;
        }
        if i == blen {
            return false;
        }
        let ca = a.get_char(i);
        let cb = b.get_char(i);
        if ca == cb {
            proof {
                assert(a@.skip(i as int).drop_first() =~= a@.skip(i as int + 1));
                assert(b@.skip(i as int).drop_first() =~= b@.skip(i as int + 1));
            }
            i = i + 1;
        } else {
            return (ca as u32) < (cb as u32);
        }
    }
}

/// Insert `x` into `q` in front of the first element whose key is not below
/// `x`'s key; on a sorted sequence this keeps the sort order.
pub open spec fn insert_sorted<T>(key: spec_fn(T) -> Seq<char>, x: T, q: Seq<T>) -> Seq<T>
    decreases q.len(),
{
    if q.len() == 0 {
        seq![x]
    } else if str_le(key(x), key(q[0])) {
        seq![x] + q
    } else {
        seq![q[0]] + insert_sorted(key, x, q.drop_first())
    }
}

/// Insertion sort of `q` by the keys' lexicographic order.
pub open spec fn sort_by_str_key<T>(key: spec_fn(T) -> Seq<char>, q: Seq<T>) -> Seq<T>
    decreases q.len(),
{
    if q.len() == 0 {
        q
    } else {
        insert_sorted(key, q.last(), sort_by_str_key(key, q.drop_last()))
    }
}

proof fn lemma_char_code_injective(c: char, d: char)
    requires
        c != d,
    ensures
        c as u32 != d as u32,
{
}

/// Prepending an element inserts it into the sequence's multiset.
proof fn lemma_cons_multiset<T>(x: T, q: Seq<T>)
    ensures
        (seq![x] + q).to_multiset() == q.to_multiset().insert(x),
{
    broadcast use vstd::seq_lib::group_to_multiset_ensures;
    broadcast use vstd::seq_lib::lemma_multiset_commutative;
    broadcast use vstd::multiset::group_multiset_axioms;

    assert(seq![x] =~= Seq::<T>::empty().push(x));
    assert(Seq::<T>::empty().push(x).to_multiset() =~= Seq::<T>::empty().to_multiset().insert(x));
    assert(Seq::<T>::empty().to_multiset() =~= Multiset::<T>::empty());
    assert((seq![x] + q).to_multiset() =~= seq![x].to_multiset().add(q.to_multiset()));
    assert(Multiset::<T>::empty().insert(x).add(q.to_multiset()) =~= q.to_multiset().insert(x));
}

pub proof fn lemma_insert_sorted_ensures<T>(key: spec_fn(T) -> Seq<char>, x: T, q: Seq<T>)
    requires
        sorted_by(q, key_le(key)),
    ensures
        sorted_by(insert_sorted(key, x, q), key_le(key)),
        insert_sorted(key, x, q).to_multiset() == q.to_multiset().insert(x),
        insert_sorted(key, x, q).len() == q.len() + 1,
    decreases q.len(),
{
    broadcast use vstd::seq_lib::lemma_multiset_commutative;
    broadcast use vstd::seq_lib::group_to_multiset_ensures;

    let out = insert_sorted(key, x, q);
    if q.len() == 0 {
        assert(out =~= seq![x] + q);
        lemma_cons_multiset(x, q);
    } else if str_le(key(x), key(q[0])) {
        assert forall|i: int, j: int| 0 <= i < j < out.len() implies key_le(key)(out[i], out[j]) by {
            if i == 0 {
                if j == 1 {
                } else {
                    assert(key_le(key)(q[0], q[j - 1]));
                    lemma_str_le_trans(key(x), key(q[0]), key(q[j - 1]));
                }
            } else {
                assert(out[i] == q[i - 1] && out[j] == q[j - 1]);
                assert(key_le(key)(q[i - 1], q[j - 1]));
            }
        }
        lemma_cons_multiset(x, q);
    } else {
        lemma_str_le_connected(key(x), key(q[0]));
        let rec = insert_sorted(key, x, q.drop_first());
        assert(sorted_by(q.drop_first(), key_le(key))) by {
            assert forall|i: int, j: int| 0 <= i < j < q.drop_first().len()
                implies key_le(key)(q.drop_first()[i], q.drop_first()[j]) by {
                assert(q.drop_first()[i] == q[i + 1]);
                assert(q.drop_first()[j] == q[j + 1]);
            }
        }
        lemma_insert_sorted_ensures(key, x, q.drop_first());
        // every element of rec is either x or from q.drop_first(), so q[0] is below all of them
        assert forall|i: int, j: int| 0 <= i < j < out.len() implies key_le(key)(out[i], out[j]) by {
            if i == 0 {
                assert(out[j] == rec[j - 1]);
                assert(rec.to_multiset().contains(rec[j - 1]));
                if rec[j - 1] == x {
                } else {
                    assert(q.drop_first().to_multiset().contains(rec[j - 1]));
                    let k = choose|k: int|
                        0 <= k < q.drop_first().len() && q.drop_first()[k] == rec[j - 1];
                    assert(q.drop_first()[k] == q[k + 1]);
                    assert(key_le(key)(q[0], q[k + 1]));
                }
            } else {
                assert(out[i] == rec[i - 1]);
                assert(out[j] == rec[j - 1]);
            }
        }
        lemma_cons_multiset(q[0], rec);
        lemma_cons_multiset(q[0], q.drop_first());
        assert(q =~= seq![q[0]] + q.drop_first());
        assert(out.to_multiset() =~= q.to_multiset().insert(x)) by {
            broadcast use vstd::multiset::group_multiset_axioms;

            assert(out.to_multiset() == q.drop_first().to_multiset().insert(x).insert(q[0]));
            assert(q.to_multiset() == q.drop_first().to_multiset().insert(q[0]));
            assert(q.drop_first().to_multiset().insert(x).insert(q[0])
                =~= q.drop_first().to_multiset().insert(q[0]).insert(x));
        }
    }
}

pub proof fn lemma_sort_by_str_key_ensures<T>(key: spec_fn(T) -> Seq<char>, q: Seq<T>)
    ensures
        sorted_by(sort_by_str_key(key, q), key_le(key)),
        sort_by_str_key(key, q).to_multiset() == q.to_multiset(),
        sort_by_str_key(key, q).len() == q.len(),
    decreases q.len(),
{
    broadcast use vstd::seq_lib::group_to_multiset_ensures;

    if q.len() == 0 {
        assert(sorted_by(q, key_le(key)));
    } else {
        lemma_sort_by_str_key_ensures(key, q.drop_last());
        lemma_insert_sorted_ensures(key, q.last(), sort_by_str_key(key, q.drop_last()));
        assert(q =~= q.drop_last().push(q.last()));
        assert(q.drop_last().push(q.last()).to_multiset() == q.drop_last().to_multiset().insert(
            q.last(),
        ));
    }
}

/// Two duplicate-free sequences with the same elements have the same multiset.
pub proof fn lemma_nodup_same_set_same_multiset<T>(a: Seq<T>, b: Seq<T>)
    requires
        a.no_duplicates(),
        b.no_duplicates(),
        a.to_set() == b.to_set(),
    ensures
        a.to_multiset() == b.to_multiset(),
{
    broadcast use vstd::seq_lib::group_to_multiset_ensures;

    a.lemma_multiset_has_no_duplicates();
    b.lemma_multiset_has_no_duplicates();
    assert forall|x: T| a.to_multiset().count(x) == b.to_multiset().count(x) by {
        assert(a.contains(x) <==> a.to_set().contains(x));
        assert(b.contains(x) <==> b.to_set().contains(x));
        if a.contains(x) {
            assert(a.to_multiset().count(x) == 1);
            assert(b.to_multiset().count(x) == 1);
        } else {
            assert(a.to_multiset().count(x) == 0);
            assert(b.to_multiset().count(x) == 0);
        }
    }
    assert(a.to_multiset() =~= b.to_multiset());
}

/// Sorting two duplicate-free string sequences with the same members gives the
/// same sequence: the sorted form is canonical for the membership set.
pub proof fn lemma_sorted_strings_canonical(a: Seq<Seq<char>>, b: Seq<Seq<char>>)
    requires
        a.no_duplicates(),
        b.no_duplicates(),
        a.to_set() == b.to_set(),
    ensures
        sort_by_str_key(str_key(), a) == sort_by_str_key(str_key(), b),
{
    lemma_nodup_same_set_same_multiset(a, b);
    lemma_sort_by_str_key_ensures(str_key(), a);
    lemma_sort_by_str_key_ensures(str_key(), b);
    lemma_str_le_total_ordering();
    lemma_sorted_unique(
        sort_by_str_key(str_key(), a),
        sort_by_str_key(str_key(), b),
        key_le(str_key()),
    );
}

/// Insertion position characterization: inserting before the first element
/// whose key is not below `x`'s is the same as `insert_sorted`.
pub proof fn lemma_insert_sorted_at<T>(key: spec_fn(T) -> Seq<char>, x: T, q: Seq<T>, j: int)
    requires
        0 <= j <= q.len(),
        forall|i: int| 0 <= i < j ==> !str_le(key(x), key(#[trigger] q[i])),
        j < q.len() ==> str_le(key(x), key(q[j])),
    ensures
        insert_sorted(key, x, q) == q.insert(j, x),
    decreases q.len(),
{
    if q.len() == 0 {
        assert(insert_sorted(key, x, q) =~= q.insert(0, x));
    } else if str_le(key(x), key(q[0])) {
        assert(j == 0);
        assert(seq![x] + q =~= q.insert(0, x));
    } else {
        assert(j >= 1);
        assert(forall|i: int|
            0 <= i < j - 1 ==> !str_le(key(x), key(#[trigger] q.drop_first()[i])));
        assert(j - 1 < q.drop_first().len() ==> str_le(key(x), key(q.drop_first()[j - 1])));
        lemma_insert_sorted_at(key, x, q.drop_first(), j - 1);
        assert(seq![q[0]] + q.drop_first().insert(j - 1, x) =~= q.insert(j, x));
    }
}

} // verus!
