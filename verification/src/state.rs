//! The engine-state entities that the persistence layer reads and rebuilds:
//! order-significant rule buckets, hash-backed selector collections modelled as
//! duplicate-free vectors, and opaque resource tables.

use vstd::prelude::*;

verus! {

use vstd::relations::sorted_by;
use crate::order::{
    str_le, str_le_exec, key_le, str_key, insert_sorted, sort_by_str_key,
    lemma_insert_sorted_ensures, lemma_insert_sorted_at, lemma_str_le_refl, lemma_str_le_antisym,
};

/// The views of a sequence of strings.
pub open spec fn views_of(s: Seq<String>) -> Seq<Seq<char>> {
    s.map_values(|x: String| x@)
}

/// The views of a sequence of name/payload pairs.
pub open spec fn pair_views_of(s: Seq<(String, String)>) -> Seq<(Seq<char>, Seq<char>)> {
    s.map_values(|p: (String, String)| (p.0@, p.1@))
}

/// The views of a sequence of key/string-list pairs.
pub open spec fn nested_views_of(s: Seq<(String, Vec<String>)>) -> Seq<(Seq<char>, Seq<Seq<char>>)> {
    s.map_values(|p: (String, Vec<String>)| (p.0@, views_of(p.1@)))
}

/// The keys of a sequence of key/value pairs.
pub open spec fn keys_of<V>(q: Seq<(Seq<char>, V)>) -> Seq<Seq<char>> {
    q.map_values(|p: (Seq<char>, V)| p.0)
}

/// The map described by a sequence of key/value pairs (earlier entries win,
/// which is immaterial once the keys are duplicate-free).
pub open spec fn pairs_to_map<V>(q: Seq<(Seq<char>, V)>) -> Map<Seq<char>, V>
    decreases q.len(),
{
    if q.len() == 0 {
        Map::empty()
    } else {
        pairs_to_map(q.drop_first()).insert(q[0].0, q[0].1)
    }
}

/// The key of a key/string-list entry, for sorting map entries.
pub open spec fn entry_key() -> spec_fn((Seq<char>, Seq<Seq<char>>)) -> Seq<char> {
    |p: (Seq<char>, Seq<Seq<char>>)| p.0
}

/// Decides string equality through the lexicographic order.
pub fn str_eq_exec(a: &str, b: &str) -> (r: bool)
    ensures
        r == (a@ == b@),
{
    let le1 = str_le_exec(a, b);
    let le2 = str_le_exec(b, a);
    proof {
        if le1 && le2 {
            lemma_str_le_antisym(a@, b@);
        }
        lemma_str_le_refl(a@);
    }
    le1 && le2
}

/// An order-significant bucket of compiled network rules.
pub struct NetworkFilterList {
    pub filters: Vec<String>,
}

impl View for NetworkFilterList {
    type V = Seq<Seq<char>>;

    open spec fn view(&self) -> Seq<Seq<char>> {
        views_of(self.filters@)
    }
}

impl NetworkFilterList {
    pub fn new() -> (r: Self)
        ensures
            r@ == Seq::<Seq<char>>::empty(),
    {
        let r = NetworkFilterList { filters: Vec::new() };
        proof {
            assert(r@ =~= Seq::<Seq<char>>::empty());
        }
        r
    }

    pub fn push(&mut self, rule: String)
        ensures
            final(self)@ == old(self)@.push(rule@),
    {
        self.filters.push(rule);
        proof {
            assert(views_of(self.filters@) =~= views_of(old(self).filters@).push(
                self.filters@.last()@,
            ));
        }
    }
}

/// A hash-set of strings, modelled as a duplicate-free vector: membership is
/// the only meaningful observation, the element order is incidental.
pub struct StringSet {
    pub elems: Vec<String>,
}

impl View for StringSet {
    type V = Seq<Seq<char>>;

    open spec fn view(&self) -> Seq<Seq<char>> {
        views_of(self.elems@)
    }
}

impl StringSet {
    /// The membership set: the only observation a hash-set offers.
    pub open spec fn to_set(&self) -> Set<Seq<char>> {
        self@.to_set()
    }

    pub open spec fn wf(&self) -> bool {
        self@.no_duplicates()
    }

    pub fn new() -> (r: Self)
        ensures
            r@ == Seq::<Seq<char>>::empty(),
            r.wf(),
    {
        let r = StringSet { elems: Vec::new() };
        proof {
            assert(r@ =~= Seq::<Seq<char>>::empty());
        }
        r
    }

    pub fn contains(&self, x: &str) -> (r: bool)
        ensures
            r == self@.contains(x@),
    {
        let mut i: usize = 0;
        while i < self.elems.len()
            invariant
                i <= self.elems@.len(),
                forall|j: int| 0 <= j < i ==> self@[j] != x@,
            decreases self.elems@.len() - i,
        {
            if str_eq_exec(self.elems[i].as_str(), x) {
                assert(self@[i as int] == x@);
                return true;
            }
            i = i + 1;
        }
        false
    }

    /// Hash-set insertion: adds the string if it is not yet a member.
    pub fn insert(&mut self, x: String)
        ensures
            final(self)@.to_set() == old(self)@.to_set().insert(x@),
            old(self).wf() ==> final(self).wf(),
    {
        broadcast use vstd::seq_lib::group_seq_properties;

        if !self.contains(x.as_str()) {
            let ghost oldv = self@;
            self.elems.push(x);
            proof {
                assert(self@ =~= oldv.push(self.elems@.last()@));
                assert(self@.to_set() =~= oldv.to_set().insert(self.elems@.last()@));
            }
        } else {
            proof {
                assert(self@.to_set() =~= old(self)@.to_set().insert(x@));
            }
        }
    }
}

/// A hash-map from strings to order-significant string lists, modelled as a
/// vector of entries with duplicate-free keys.
pub struct StringMultiMap {
    pub entries: Vec<(String, Vec<String>)>,
}

impl View for StringMultiMap {
    type V = Seq<(Seq<char>, Seq<Seq<char>>)>;

    open spec fn view(&self) -> Seq<(Seq<char>, Seq<Seq<char>>)> {
        nested_views_of(self.entries@)
    }
}

impl StringMultiMap {
    /// The key-to-list map: the only observation a hash-map offers.
    pub open spec fn to_map(&self) -> Map<Seq<char>, Seq<Seq<char>>> {
        pairs_to_map(self@)
    }

    pub open spec fn wf(&self) -> bool {
        keys_of(self@).no_duplicates()
    }

    pub fn new() -> (r: Self)
        ensures
            r@ == Seq::<(Seq<char>, Seq<Seq<char>>)>::empty(),
            r.wf(),
    {
        let r = StringMultiMap { entries: Vec::new() };
        proof {
            assert(r@ =~= Seq::<(Seq<char>, Seq<Seq<char>>)>::empty());
            assert(keys_of(r@) =~= Seq::<Seq<char>>::empty());
        }
        r
    }

    pub fn contains_key(&self, k: &str) -> (r: bool)
        ensures
            r == keys_of(self@).contains(k@),
    {
        let mut i: usize = 0;
        while i < self.entries.len()
            invariant
                i <= self.entries@.len(),
                forall|j: int| 0 <= j < i ==> keys_of(self@)[j] != k@,
            decreases self.entries@.len() - i,
        {
            if str_eq_exec(self.entries[i].0.as_str(), k) {
                assert(keys_of(self@)[i as int] == k@);
                return true;
            }
            i = i + 1;
        }
        false
    }

    /// Hash-map insertion for a key not yet present.
    pub fn insert(&mut self, k: String, v: Vec<String>)
        requires
            !keys_of(old(self)@).contains(k@),
        ensures
            final(self)@ == old(self)@.push((k@, views_of(v@))),
            old(self).wf() ==> final(self).wf(),
    {
        broadcast use vstd::seq_lib::group_seq_properties;

        self.entries.push((k, v));
        proof {
            assert(self@ =~= old(self)@.push((self.entries@.last().0@, views_of(
                self.entries@.last().1@,
            ))));
            assert(keys_of(self@) =~= keys_of(old(self)@).push(self.entries@.last().0@));
        }
    }
}

/// Redirect resources: a name-to-payload table, opaque to this layer and
/// round-tripped as a unit in its stored order.
pub struct RedirectResourceStorage {
    pub entries: Vec<(String, String)>,
}

impl View for RedirectResourceStorage {
    type V = Seq<(Seq<char>, Seq<char>)>;

    open spec fn view(&self) -> Seq<(Seq<char>, Seq<char>)> {
        pair_views_of(self.entries@)
    }
}

/// Scriptlet resources: a name-to-script table, opaque to this layer and
/// round-tripped as a unit in its stored order.
pub struct ScriptletResourceStorage {
    pub entries: Vec<(String, String)>,
}

impl View for ScriptletResourceStorage {
    type V = Seq<(Seq<char>, Seq<char>)>;

    open spec fn view(&self) -> Seq<(Seq<char>, Seq<char>)> {
        pair_views_of(self.entries@)
    }
}

/// Per-hostname cosmetic rules, opaque to this layer and round-tripped as a
/// unit in its stored order.
pub struct HostnameRuleDb {
    pub entries: Vec<(String, Vec<String>)>,
}

impl View for HostnameRuleDb {
    type V = Seq<(Seq<char>, Seq<Seq<char>>)>;

    open spec fn view(&self) -> Seq<(Seq<char>, Seq<Seq<char>>)> {
        nested_views_of(self.entries@)
    }
}

/// The network-filtering half of the engine state.
pub struct Blocker {
    pub csp: NetworkFilterList,
    pub exceptions: NetworkFilterList,
    pub importants: NetworkFilterList,
    pub redirects: NetworkFilterList,
    pub filters_tagged: NetworkFilterList,
    pub filters: NetworkFilterList,
    pub generic_hide: NetworkFilterList,
    /// Runtime-only: which activation tags are currently on. Derived state,
    /// never persisted; reset to empty when a blob is loaded.
    pub tags_enabled: StringSet,
    pub tagged_filters_all: Vec<String>,
    pub enable_optimizations: bool,
    pub resources: RedirectResourceStorage,
}

/// The cosmetic-filtering half of the engine state.
pub struct CosmeticFilterCache {
    pub simple_class_rules: StringSet,
    pub simple_id_rules: StringSet,
    pub complex_class_rules: StringMultiMap,
    pub complex_id_rules: StringMultiMap,
    pub specific_rules: HostnameRuleDb,
    pub misc_generic_selectors: StringSet,
    pub scriptlets: ScriptletResourceStorage,
}

/// Copies a vector of strings.
pub fn clone_strings(v: &Vec<String>) -> (r: Vec<String>)
    ensures
        r@ == v@,
{
    let mut r: Vec<String> = Vec::new();
    let mut i: usize = 0;
    while i < v.len()
        invariant
            i <= v@.len(),
            r@ == v@.take(i as int),
        decreases v@.len() - i,
    {
        r.push(v[i].clone());
        proof {
            assert(r@ =~= v@.take(i as int + 1));
        }
        i = i + 1;
    }
    proof {
        assert(v@.take(v@.len() as int) =~= v@);
    }
    r
}

/// Inserts a string into a vector that is sorted by `str_le`, keeping it sorted.
fn insert_string_sorted(r: &mut Vec<String>, x: String)
    requires
        sorted_by(views_of(old(r)@), key_le(str_key())),
    ensures
        views_of(final(r)@) == insert_sorted(str_key(), x@, views_of(old(r)@)),
        sorted_by(views_of(final(r)@), key_le(str_key())),
{
    let mut j: usize = 0;
    while j < r.len() && !str_le_exec(x.as_str(), r[j as usize].as_str())
        invariant
            j <= r@.len(),
            r@ == old(r)@,
            forall|i: int| 0 <= i < j ==> !str_le(x@, views_of(r@)[i]),
        decreases r@.len() - j,
    {
        j = j + 1;
    }
    let ghost oldv = views_of(r@);
    let ghost jj = j as int;
    r.insert(j, x);
    proof {
        lemma_insert_sorted_at(str_key(), x@, oldv, jj);
        assert(views_of(r@) =~= oldv.insert(jj, x@));
        lemma_insert_sorted_ensures(str_key(), x@, oldv);
    }
}

/// Copies the strings of `v` into lexicographically sorted order: the
/// canonical serialization order for a hash-backed set.
pub fn sort_strings(v: &Vec<String>) -> (r: Vec<String>)
    ensures
        views_of(r@) == sort_by_str_key(str_key(), views_of(v@)),
{
    let mut r: Vec<String> = Vec::new();
    let mut i: usize = 0;
    proof {
        assert(views_of(r@) =~= Seq::<Seq<char>>::empty());
        assert(views_of(v@).take(0) =~= Seq::<Seq<char>>::empty());
        assert(sorted_by(views_of(r@), key_le(str_key())));
    }
    while i < v.len()
        invariant
            i <= v@.len(),
            views_of(r@) == sort_by_str_key(str_key(), views_of(v@).take(i as int)),
            sorted_by(views_of(r@), key_le(str_key())),
        decreases v@.len() - i,
    {
        let x = v[i].clone();
        insert_string_sorted(&mut r, x);
        proof {
            let vs = views_of(v@);
            assert(vs.take(i as int + 1).drop_last() =~= vs.take(i as int));
            assert(vs.take(i as int + 1).last() == v@[i as int]@);
        }
        i = i + 1;
    }
    proof {
        assert(views_of(v@).take(v@.len() as int) =~= views_of(v@));
    }
    r
}

/// Inserts an entry into a vector sorted by key, keeping it sorted.
fn insert_entry_sorted(r: &mut Vec<(String, Vec<String>)>, k: String, v: Vec<String>)
    requires
        sorted_by(nested_views_of(old(r)@), key_le(entry_key())),
    ensures
        nested_views_of(final(r)@) == insert_sorted(
            entry_key(),
            (k@, views_of(v@)),
            nested_views_of(old(r)@),
        ),
        sorted_by(nested_views_of(final(r)@), key_le(entry_key())),
{
    let mut j: usize = 0;
    while j < r.len() && !str_le_exec(k.as_str(), r[j as usize].0.as_str())
        invariant
            j <= r@.len(),
            r@ == old(r)@,
            forall|i: int| 0 <= i < j ==> !str_le(k@, entry_key()(nested_views_of(r@)[i])),
        decreases r@.len() - j,
    {
        j = j + 1;
    }
    let ghost oldv = nested_views_of(r@);
    let ghost jj = j as int;
    let ghost xv = (k@, views_of(v@));
    r.insert(j, (k, v));
    proof {
        lemma_insert_sorted_at(entry_key(), xv, oldv, jj);
        assert(nested_views_of(r@) =~= oldv.insert(jj, xv));
        lemma_insert_sorted_ensures(entry_key(), xv, oldv);
    }
}

/// Copies the entries of `v` into order sorted by key: the canonical
/// serialization order for a hash-backed map.
pub fn sort_entries(v: &Vec<(String, Vec<String>)>) -> (r: Vec<(String, Vec<String>)>)
    ensures
        nested_views_of(r@) == sort_by_str_key(entry_key(), nested_views_of(v@)),
{
    let mut r: Vec<(String, Vec<String>)> = Vec::new();
    let mut i: usize = 0;
    proof {
        assert(nested_views_of(r@) =~= Seq::<(Seq<char>, Seq<Seq<char>>)>::empty());
        assert(nested_views_of(v@).take(0) =~= Seq::<(Seq<char>, Seq<Seq<char>>)>::empty());
        assert(sorted_by(nested_views_of(r@), key_le(entry_key())));
    }
    while i < v.len()
        invariant
            i <= v@.len(),
            nested_views_of(r@) == sort_by_str_key(entry_key(), nested_views_of(v@).take(i as int)),
            sorted_by(nested_views_of(r@), key_le(entry_key())),
        decreases v@.len() - i,
    {
        let k = v[i].0.clone();
        let ghost kv = k@;
        let vals = clone_strings(&v[i].1);
        insert_entry_sorted(&mut r, k, vals);
        proof {
            let vs = nested_views_of(v@);
            assert(vs.take(i as int + 1).drop_last() =~= vs.take(i as int));
            assert(vs.take(i as int + 1).last() == (v@[i as int].0@, views_of(v@[i as int].1@)));
        }
        i = i + 1;
    }
    proof {
        assert(nested_views_of(v@).take(v@.len() as int) =~= nested_views_of(v@));
    }
    r
}


/// Two sequences with the same multiset have the same membership set.
pub proof fn lemma_same_multiset_same_set<T>(a: Seq<T>, b: Seq<T>)
    requires
        a.to_multiset() == b.to_multiset(),
    ensures
        a.to_set() == b.to_set(),
{
    broadcast use vstd::seq_lib::group_to_multiset_ensures;

    assert forall|x: T| a.to_set().contains(x) == b.to_set().contains(x) by {
        assert(a.contains(x) <==> a.to_multiset().count(x) > 0);
        assert(b.contains(x) <==> b.to_multiset().count(x) > 0);
    }
    assert(a.to_set() =~= b.to_set());
}

/// Mapping a function over two multiset-equal sequences gives multiset-equal
/// results.
pub proof fn lemma_map_values_multiset<A, B>(s: Seq<A>, t: Seq<A>, f: spec_fn(A) -> B)
    requires
        s.to_multiset() == t.to_multiset(),
    ensures
        s.map_values(f).to_multiset() == t.map_values(f).to_multiset(),
    decreases s.len(),
{
    broadcast use vstd::seq_lib::group_to_multiset_ensures;
    broadcast use vstd::multiset::group_multiset_axioms;

    if s.len() == 0 {
        s.to_multiset_ensures();
        t.to_multiset_ensures();
        assert(s.to_multiset().len() == t.to_multiset().len());
        assert(t.len() == 0);
        assert(s.map_values(f) =~= t.map_values(f));
    } else {
        let x = s[0];
        assert(s.contains(x));
        assert(t.to_multiset().count(x) > 0);
        assert(t.contains(x));
        let j = choose|j: int| 0 <= j < t.len() && t[j] == x;
        assert(s.drop_first() =~= s.remove(0));
        assert(s.remove(0).to_multiset() =~= s.to_multiset().remove(x));
        assert(t.remove(j).to_multiset() =~= t.to_multiset().remove(x));
        lemma_map_values_multiset(s.drop_first(), t.remove(j), f);
        assert(s.map_values(f).remove(0) =~= s.drop_first().map_values(f));
        assert(t.map_values(f).remove(j) =~= t.remove(j).map_values(f));
        assert(s.map_values(f).remove(0).to_multiset() =~= s.map_values(f).to_multiset().remove(
            f(x),
        ));
        assert(t.map_values(f)[j] == f(x));
        assert(t.map_values(f).remove(j).to_multiset() =~= t.map_values(f).to_multiset().remove(
            f(x),
        ));
        assert(s.map_values(f).contains(f(x)));
        assert(t.map_values(f).contains(f(x)));
        assert forall|y: B|
            s.map_values(f).to_multiset().count(y) == t.map_values(f).to_multiset().count(y) by {
            if y == f(x) {
                assert(s.map_values(f).to_multiset().count(y) > 0);
                assert(t.map_values(f).to_multiset().count(y) > 0);
                assert(s.map_values(f).to_multiset().remove(f(x)).count(y) == s.map_values(
                    f,
                ).to_multiset().count(y) - 1);
                assert(t.map_values(f).to_multiset().remove(f(x)).count(y) == t.map_values(
                    f,
                ).to_multiset().count(y) - 1);
            } else {
                assert(s.map_values(f).to_multiset().remove(f(x)).count(y) == s.map_values(
                    f,
                ).to_multiset().count(y));
                assert(t.map_values(f).to_multiset().remove(f(x)).count(y) == t.map_values(
                    f,
                ).to_multiset().count(y));
            }
        }
        assert(s.map_values(f).to_multiset() =~= t.map_values(f).to_multiset());
    }
}

/// Freedom from duplicates carries over to any multiset-equal sequence.
pub proof fn lemma_nodup_transfer<T>(a: Seq<T>, b: Seq<T>)
    requires
        a.to_multiset() == b.to_multiset(),
        a.no_duplicates(),
    ensures
        b.no_duplicates(),
{
    broadcast use vstd::seq_lib::group_to_multiset_ensures;

    a.lemma_multiset_has_no_duplicates();
    assert forall|x: T| b.to_multiset().contains(x) implies b.to_multiset().count(x) == 1 by {
        assert(a.to_multiset().count(x) > 0);
        assert(a.contains(x));
    }
    b.lemma_multiset_has_no_duplicates_conv();
}

/// The domain of the map described by an entry list is its key set.
pub proof fn lemma_pairs_to_map_dom<V>(q: Seq<(Seq<char>, V)>)
    ensures
        pairs_to_map(q).dom() == keys_of(q).to_set(),
    decreases q.len(),
{
    if q.len() == 0 {
        assert(pairs_to_map(q).dom() =~= keys_of(q).to_set());
    } else {
        lemma_pairs_to_map_dom(q.drop_first());
        assert(keys_of(q.drop_first()) =~= keys_of(q).drop_first());
        assert forall|k: Seq<char>|
            pairs_to_map(q).dom().contains(k) == keys_of(q).to_set().contains(k) by {
            if pairs_to_map(q).dom().contains(k) {
                if k == q[0].0 {
                    assert(keys_of(q)[0] == k);
                    assert(keys_of(q).contains(k));
                } else {
                    assert(keys_of(q).drop_first().contains(k));
                    let i = choose|i: int|
                        0 <= i < keys_of(q).drop_first().len() && keys_of(q).drop_first()[i] == k;
                    assert(keys_of(q)[i + 1] == k);
                }
            }
            if keys_of(q).to_set().contains(k) {
                let i = choose|i: int| 0 <= i < keys_of(q).len() && keys_of(q)[i] == k;
                if i == 0 {
                    assert(pairs_to_map(q).dom().contains(k));
                } else {
                    assert(keys_of(q).drop_first()[i - 1] == k);
                    assert(keys_of(q).drop_first().contains(k));
                }
            }
        }
        assert(pairs_to_map(q).dom() =~= keys_of(q).to_set());
    }
}

/// The value the map holds for a key comes from an entry of the list.
pub proof fn lemma_pairs_to_map_wins<V>(q: Seq<(Seq<char>, V)>, k: Seq<char>)
    requires
        pairs_to_map(q).dom().contains(k),
    ensures
        q.contains((k, pairs_to_map(q)[k])),
    decreases q.len(),
{
    if q.len() > 0 {
        if k == q[0].0 {
            assert(pairs_to_map(q)[k] == q[0].1);
            assert(q[0] == (k, pairs_to_map(q)[k]));
        } else {
            lemma_pairs_to_map_wins(q.drop_first(), k);
            let p = (k, pairs_to_map(q)[k]);
            let i = choose|i: int|
                0 <= i < q.drop_first().len() && q.drop_first()[i] == (
                k,
                pairs_to_map(q.drop_first())[k],
                );
            assert(q[i + 1] == p);
        }
    }
}

/// With duplicate-free keys, the map sends each entry's key to that entry's
/// value.
pub proof fn lemma_pairs_to_map_index<V>(q: Seq<(Seq<char>, V)>, i: int)
    requires
        keys_of(q).no_duplicates(),
        0 <= i < q.len(),
    ensures
        pairs_to_map(q).dom().contains(q[i].0),
        pairs_to_map(q)[q[i].0] == q[i].1,
    decreases q.len(),
{
    if i == 0 {
    } else {
        assert(keys_of(q.drop_first()) =~= keys_of(q).drop_first());
        assert(keys_of(q).drop_first().no_duplicates());
        lemma_pairs_to_map_index(q.drop_first(), i - 1);
        assert(q.drop_first()[i - 1] == q[i]);
        assert(keys_of(q)[0] != keys_of(q)[i]);
        assert(q[i].0 != q[0].0);
    }
}

/// Two entry lists with the same entries (as a multiset) describe the same
/// map, as long as the first list's keys are duplicate-free.
pub proof fn lemma_entry_maps_agree<V>(a: Seq<(Seq<char>, V)>, b: Seq<(Seq<char>, V)>)
    requires
        (a.to_multiset() == b.to_multiset()),
        (keys_of(a).no_duplicates()),
    ensures
        (pairs_to_map(a) == pairs_to_map(b)),
{
    broadcast use vstd::seq_lib::group_to_multiset_ensures;

    lemma_pairs_to_map_dom(a);
    lemma_pairs_to_map_dom(b);
    assert forall|k: Seq<char>|
        pairs_to_map(a).dom().contains(k) == pairs_to_map(b).dom().contains(k) by {
        if keys_of(a).to_set().contains(k) {
            let i = choose|i: int| 0 <= i < keys_of(a).len() && keys_of(a)[i] == k;
            assert(a[i].0 == k);
            assert(a.contains(a[i]));
            assert(a.to_multiset().count(a[i]) > 0);
            assert(b.to_multiset().count(a[i]) > 0);
            assert(b.contains(a[i]));
            let j = choose|j: int| 0 <= j < b.len() && b[j] == a[i];
            assert(keys_of(b)[j] == k);
            assert(keys_of(b).contains(k));
        }
        if keys_of(b).to_set().contains(k) {
            let i = choose|i: int| 0 <= i < keys_of(b).len() && keys_of(b)[i] == k;
            assert(b[i].0 == k);
            assert(b.contains(b[i]));
            assert(b.to_multiset().count(b[i]) > 0);
            assert(a.to_multiset().count(b[i]) > 0);
            assert(a.contains(b[i]));
            let j = choose|j: int| 0 <= j < a.len() && a[j] == b[i];
            assert(keys_of(a)[j] == k);
            assert(keys_of(a).contains(k));
        }
    }
    assert forall|k: Seq<char>| #[trigger]
        pairs_to_map(a).dom().contains(k) implies pairs_to_map(a)[k] == pairs_to_map(b)[k] by {
        lemma_pairs_to_map_wins(b, k);
        let p = (k, pairs_to_map(b)[k]);
        assert(b.contains(p));
        assert(b.to_multiset().count(p) > 0);
        assert(a.to_multiset().count(p) > 0);
        assert(a.contains(p));
        let i = choose|i: int| 0 <= i < a.len() && a[i] == p;
        lemma_pairs_to_map_index(a, i);
    }
    assert(pairs_to_map(a) =~= pairs_to_map(b));
}


/// Sorted-by-key entry lists with duplicate-free keys are determined by the
/// map they describe.
pub proof fn lemma_sorted_pairs_unique(
    x: Seq<(Seq<char>, Seq<Seq<char>>)>,
    y: Seq<(Seq<char>, Seq<Seq<char>>)>,
)
    requires
        sorted_by(x, key_le(entry_key())),
        sorted_by(y, key_le(entry_key())),
        keys_of(x).no_duplicates(),
        keys_of(y).no_duplicates(),
        pairs_to_map(x) == pairs_to_map(y),
    ensures
        x == y,
    decreases x.len() + y.len(),
{
    lemma_pairs_to_map_dom(x);
    lemma_pairs_to_map_dom(y);
    if x.len() == 0 {
        if y.len() > 0 {
            assert(keys_of(y)[0] == y[0].0);
            assert(keys_of(y).contains(y[0].0));
            assert(keys_of(x).to_set().contains(y[0].0));
            assert(keys_of(x).len() == 0);
            assert(false);
        }
        assert(x =~= y);
    } else if y.len() == 0 {
        assert(keys_of(x)[0] == x[0].0);
        assert(keys_of(x).contains(x[0].0));
        assert(keys_of(y).to_set().contains(x[0].0));
        assert(keys_of(y).len() == 0);
        assert(false);
    } else {
        let kx = x[0].0;
        let ky = y[0].0;
        assert(keys_of(y)[0] == ky);
        assert(keys_of(y).contains(ky));
        assert(keys_of(x).to_set().contains(ky));
        let i = choose|i: int| 0 <= i < keys_of(x).len() && keys_of(x)[i] == ky;
        if i > 0 {
            assert(key_le(entry_key())(x[0], x[i]));
            assert(x[i].0 == ky);
        } else {
            lemma_str_le_refl(kx);
        }
        assert(str_le(kx, ky));
        assert(keys_of(x)[0] == kx);
        assert(keys_of(x).contains(kx));
        assert(keys_of(y).to_set().contains(kx));
        let j = choose|j: int| 0 <= j < keys_of(y).len() && keys_of(y)[j] == kx;
        if j > 0 {
            assert(key_le(entry_key())(y[0], y[j]));
            assert(y[j].0 == kx);
        } else {
            lemma_str_le_refl(ky);
        }
        assert(str_le(ky, kx));
        lemma_str_le_antisym(kx, ky);
        lemma_pairs_to_map_index(x, 0);
        lemma_pairs_to_map_index(y, 0);
        assert(x[0] == y[0]);
        assert(keys_of(x.drop_first()) =~= keys_of(x).drop_first());
        assert(keys_of(y.drop_first()) =~= keys_of(y).drop_first());
        assert(keys_of(x).drop_first().no_duplicates());
        assert(keys_of(y).drop_first().no_duplicates());
        assert(!keys_of(x.drop_first()).contains(kx)) by {
            if keys_of(x.drop_first()).contains(kx) {
                let ii = choose|ii: int|
                    0 <= ii < keys_of(x.drop_first()).len() && keys_of(x.drop_first())[ii] == kx;
                assert(keys_of(x)[ii + 1] == kx);
                assert(keys_of(x)[0] == kx);
            }
        }
        assert(!keys_of(y.drop_first()).contains(ky)) by {
            if keys_of(y.drop_first()).contains(ky) {
                let ii = choose|ii: int|
                    0 <= ii < keys_of(y.drop_first()).len() && keys_of(y.drop_first())[ii] == ky;
                assert(keys_of(y)[ii + 1] == ky);
                assert(keys_of(y)[0] == ky);
            }
        }
        lemma_pairs_to_map_dom(x.drop_first());
        lemma_pairs_to_map_dom(y.drop_first());
        assert(pairs_to_map(x.drop_first()) =~= pairs_to_map(x).remove(kx));
        assert(pairs_to_map(y.drop_first()) =~= pairs_to_map(y).remove(ky));
        assert(sorted_by(x.drop_first(), key_le(entry_key()))) by {
            assert forall|p: int, q: int| 0 <= p < q < x.drop_first().len() implies key_le(
                entry_key(),
            )(x.drop_first()[p], x.drop_first()[q]) by {
                assert(x.drop_first()[p] == x[p + 1]);
                assert(x.drop_first()[q] == x[q + 1]);
            }
        }
        assert(sorted_by(y.drop_first(), key_le(entry_key()))) by {
            assert forall|p: int, q: int| 0 <= p < q < y.drop_first().len() implies key_le(
                entry_key(),
            )(y.drop_first()[p], y.drop_first()[q]) by {
                assert(y.drop_first()[p] == y[p + 1]);
                assert(y.drop_first()[q] == y[q + 1]);
            }
        }
        lemma_sorted_pairs_unique(x.drop_first(), y.drop_first());
        assert(x.len() == y.len());
        assert forall|ii: int| 0 <= ii < x.len() implies x[ii] == y[ii] by {
            if ii > 0 {
                assert(x[ii] == x.drop_first()[ii - 1]);
                assert(y[ii] == y.drop_first()[ii - 1]);
            }
        }
        assert(x =~= y);
    }
}

/// Sorting two entry lists with duplicate-free keys that describe the same map
/// gives the same list: the key-sorted form is canonical for the map.
pub proof fn lemma_sorted_entries_canonical(
    a: Seq<(Seq<char>, Seq<Seq<char>>)>,
    b: Seq<(Seq<char>, Seq<Seq<char>>)>,
)
    requires
        keys_of(a).no_duplicates(),
        keys_of(b).no_duplicates(),
        pairs_to_map(a) == pairs_to_map(b),
    ensures
        sort_by_str_key(entry_key(), a) == sort_by_str_key(entry_key(), b),
{
    let sa = sort_by_str_key(entry_key(), a);
    let sb = sort_by_str_key(entry_key(), b);
    crate::order::lemma_sort_by_str_key_ensures(entry_key(), a);
    crate::order::lemma_sort_by_str_key_ensures(entry_key(), b);
    lemma_entry_keys_nodup(a, sa);
    lemma_entry_keys_nodup(b, sb);
    lemma_entry_maps_agree(a, sa);
    lemma_entry_maps_agree(b, sb);
    lemma_sorted_pairs_unique(sa, sb);
}

/// Duplicate-free keys carry over to any multiset-equal entry list.
pub proof fn lemma_entry_keys_nodup(
    a: Seq<(Seq<char>, Seq<Seq<char>>)>,
    b: Seq<(Seq<char>, Seq<Seq<char>>)>,
)
    requires
        a.to_multiset() == b.to_multiset(),
        keys_of(a).no_duplicates(),
    ensures
        keys_of(b).no_duplicates(),
{
    let f = |p: (Seq<char>, Seq<Seq<char>>)| p.0;
    lemma_map_values_multiset(a, b, f);
    assert(keys_of(a) =~= a.map_values(f));
    assert(keys_of(b) =~= b.map_values(f));
    lemma_nodup_transfer(keys_of(a), keys_of(b));
}

} // verus!
