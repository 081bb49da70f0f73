//! The member table of an open object: encoded keys mapped to encoded
//! values, kept in ascending byte order of the keys.

use vstd::prelude::*;
use crate::order::{compare, lemma_lex_asymmetric, lemma_lex_irreflexive, lemma_lex_total, lemma_lex_transitive, lex_lt, strictly_ascending, Rank};

verus! {

/// `keys` lists the keys of `m`, each once, in strictly ascending byte order.
pub open spec fn is_key_order(keys: Seq<Seq<u8>>, m: Map<Seq<u8>, Seq<u8>>) -> bool {
    &&& strictly_ascending(keys)
    &&& forall|k: Seq<u8>| #[trigger] keys.contains(k) <==> m.dom().contains(k)
}

/// The keys of `m` in strictly ascending byte order. A map with finitely
/// many keys has exactly one such listing (`lemma_key_order`).
pub open spec fn key_order(m: Map<Seq<u8>, Seq<u8>>) -> Seq<Seq<u8>> {
    choose|keys: Seq<Seq<u8>>| is_key_order(keys, m)
}

/// A strictly ascending sequence holds no key twice.
pub proof fn lemma_ascending_distinct(keys: Seq<Seq<u8>>, i: int, j: int)
    requires
        strictly_ascending(keys),
        0 <= i < keys.len(),
        0 <= j < keys.len(),
        keys[i] == keys[j],
    ensures
        i == j,
{
    lemma_lex_irreflexive(keys[i]);
}

/// Two strictly ascending sequences with the same elements are equal.
pub proof fn lemma_ascending_unique(a: Seq<Seq<u8>>, b: Seq<Seq<u8>>)
    requires
        strictly_ascending(a),
        strictly_ascending(b),
        forall|k: Seq<u8>| #[trigger] a.contains(k) <==> b.contains(k),
    ensures
        a == b,
    decreases a.len(),
{
    if a.len() == 0 {
        if b.len() > 0 {
            assert(b.contains(b[0]));
            assert(a.contains(b[0]));
        }
        assert(a =~= b);
    } else if b.len() == 0 {
        assert(a.contains(a[0]));
        assert(b.contains(a[0]));
    } else {
        // The last element of each is the greatest element of the common set.
        let x = a.last();
        let y = b.last();
        assert(a.contains(x));
        assert(b.contains(x));
        assert(b.contains(y));
        assert(a.contains(y));
        let i = choose|i: int| 0 <= i < b.len() && b[i] == x;
        let j = choose|j: int| 0 <= j < a.len() && a[j] == y;
        if x != y {
            assert(i < b.len() - 1);
            assert(j < a.len() - 1);
            assert(lex_lt(b[i], b[b.len() - 1]));
            assert(lex_lt(a[j], a[a.len() - 1]));
            lemma_lex_asymmetric(x, y);
        }
        let a0 = a.drop_last();
        let b0 = b.drop_last();
        assert forall|k: Seq<u8>| #[trigger] a0.contains(k) <==> b0.contains(k) by {
            if a0.contains(k) {
                let p = choose|p: int| 0 <= p < a0.len() && a0[p] == k;
                assert(a[p] == k);
                assert(a.contains(k));
                assert(lex_lt(a[p], a[a.len() - 1]));
                let q = choose|q: int| 0 <= q < b.len() && b[q] == k;
                if q == b.len() - 1 {
                    lemma_lex_irreflexive(k);
                }
                assert(b0[q] == k);
            }
            if b0.contains(k) {
                let p = choose|p: int| 0 <= p < b0.len() && b0[p] == k;
                assert(b[p] == k);
                assert(b.contains(k));
                assert(a.contains(k));
                assert(lex_lt(b[p], b[b.len() - 1]));
                let q = choose|q: int| 0 <= q < a.len() && a[q] == k;
                if q == a.len() - 1 {
                    lemma_lex_irreflexive(k);
                }
                assert(a0[q] == k);
            }
        }
        assert(strictly_ascending(a0)) by {
            assert forall|i: int, j: int| 0 <= i < j < a0.len() implies lex_lt(
                #[trigger] a0[i],
                #[trigger] a0[j],
            ) by {
                assert(lex_lt(a[i], a[j]));
            }
        }
        assert(strictly_ascending(b0)) by {
            assert forall|i: int, j: int| 0 <= i < j < b0.len() implies lex_lt(
                #[trigger] b0[i],
                #[trigger] b0[j],
            ) by {
                assert(lex_lt(b[i], b[j]));
            }
        }
        lemma_ascending_unique(a0, b0);
        assert(a =~= a0.push(x));
        assert(b =~= b0.push(y));
    }
}

/// `keys` with `k` put in at position `at`.
pub open spec fn with_key(keys: Seq<Seq<u8>>, at: int, k: Seq<u8>) -> Seq<Seq<u8>> {
    keys.take(at).push(k) + keys.skip(at)
}

/// Putting a new key between its neighbours keeps a sequence strictly ascending.
pub proof fn lemma_with_key_ascending(keys: Seq<Seq<u8>>, at: int, k: Seq<u8>)
    requires
        strictly_ascending(keys),
        0 <= at <= keys.len(),
        forall|i: int| 0 <= i < at ==> lex_lt(#[trigger] keys[i], k),
        forall|i: int| at <= i < keys.len() ==> lex_lt(k, #[trigger] keys[i]),
    ensures
        strictly_ascending(with_key(keys, at, k)),
        forall|x: Seq<u8>| #[trigger] with_key(keys, at, k).contains(x) <==> (keys.contains(x) || x == k),
{
    let r = with_key(keys, at, k);
    assert forall|i: int, j: int| 0 <= i < j < r.len() implies lex_lt(
        #[trigger] r[i],
        #[trigger] r[j],
    ) by {
        if i < at && j > at {
            assert(lex_lt(keys[i], keys[j - 1]) || i == j - 1);
            if i == j - 1 {
                lemma_lex_transitive(keys[i], k, keys[at]);
            }
        } else if i < at && j < at {
            assert(lex_lt(keys[i], keys[j]));
        } else if i > at {
            assert(lex_lt(keys[i - 1], keys[j - 1]));
        }
    }
    assert forall|x: Seq<u8>| #[trigger] r.contains(x) <==> (keys.contains(x) || x == k) by {
        if r.contains(x) {
            let p = choose|p: int| 0 <= p < r.len() && r[p] == x;
            if p < at {
                assert(keys[p] == x);
            } else if p > at {
                assert(keys[p - 1] == x);
            }
        }
        if keys.contains(x) {
            let p = choose|p: int| 0 <= p < keys.len() && keys[p] == x;
            if p < at {
                assert(r[p] == x);
            } else {
                assert(r[p + 1] == x);
            }
        }
        if x == k {
            assert(r[at] == x);
        }
    }
}

/// How many of `keys` come before `k`.
pub open spec fn count_before(keys: Seq<Seq<u8>>, k: Seq<u8>) -> int
    decreases keys.len(),
{
    if keys.len() == 0 {
        0
    } else if lex_lt(keys.last(), k) {
        keys.len() as int
    } else {
        count_before(keys.drop_last(), k)
    }
}

proof fn lemma_count_before(keys: Seq<Seq<u8>>, k: Seq<u8>)
    requires
        strictly_ascending(keys),
    ensures
        0 <= count_before(keys, k) <= keys.len(),
        forall|i: int| 0 <= i < count_before(keys, k) ==> lex_lt(#[trigger] keys[i], k),
        forall|i: int| count_before(keys, k) <= i < keys.len() ==> !lex_lt(#[trigger] keys[i], k),
    decreases keys.len(),
{
    if keys.len() == 0 {
    } else if lex_lt(keys.last(), k) {
        assert forall|i: int| 0 <= i < keys.len() implies lex_lt(#[trigger] keys[i], k) by {
            if i < keys.len() - 1 {
                assert(lex_lt(keys[i], keys[keys.len() - 1]));
                lemma_lex_transitive(keys[i], keys.last(), k);
            }
        }
    } else {
        let rest = keys.drop_last();
        assert(strictly_ascending(rest)) by {
            assert forall|i: int, j: int| 0 <= i < j < rest.len() implies lex_lt(
                #[trigger] rest[i],
                #[trigger] rest[j],
            ) by {
                assert(lex_lt(keys[i], keys[j]));
            }
        }
        lemma_count_before(rest, k);
        assert forall|i: int| 0 <= i < count_before(keys, k) implies lex_lt(
            #[trigger] keys[i],
            k,
        ) by {
            assert(lex_lt(rest[i], k));
        }
        assert forall|i: int| count_before(keys, k) <= i < keys.len() implies !lex_lt(
            #[trigger] keys[i],
            k,
        ) by {
            if i < keys.len() - 1 {
                assert(!lex_lt(rest[i], k));
            }
        }
    }
}

/// Every map with finitely many keys has a key order, and only one.
pub proof fn lemma_key_order(m: Map<Seq<u8>, Seq<u8>>)
    requires
        m.dom().finite(),
    ensures
        is_key_order(key_order(m), m),
        forall|keys: Seq<Seq<u8>>| is_key_order(keys, m) ==> keys == key_order(m),
        key_order(m).len() == m.dom().len(),
    decreases m.dom().len(),
{
    let keys = lemma_key_order_exists(m);
    assert forall|other: Seq<Seq<u8>>| is_key_order(other, m) implies other == key_order(m) by {
        lemma_ascending_unique(other, key_order(m));
    }
    lemma_ascending_unique(keys, key_order(m));
}

proof fn lemma_key_order_exists(m: Map<Seq<u8>, Seq<u8>>) -> (keys: Seq<Seq<u8>>)
    requires
        m.dom().finite(),
    ensures
        is_key_order(keys, m),
        keys.len() == m.dom().len(),
    decreases m.dom().len(),
{
    if m.dom().len() == 0 {
        let keys = Seq::<Seq<u8>>::empty();
        assert forall|k: Seq<u8>| #[trigger] keys.contains(k) <==> m.dom().contains(k) by {
            if m.dom().contains(k) {
                assert(m.dom().len() != 0);
            }
        }
        keys
    } else {
        let k = m.dom().choose();
        let rest = m.remove(k);
        assert(rest.dom() =~= m.dom().remove(k));
        let keys0 = lemma_key_order_exists(rest);
        let at = count_before(keys0, k);
        lemma_count_before(keys0, k);
        assert forall|i: int| at <= i < keys0.len() implies lex_lt(k, #[trigger] keys0[i]) by {
            assert(keys0.contains(keys0[i]));
            assert(rest.dom().contains(keys0[i]));
            lemma_lex_total(keys0[i], k);
        }
        lemma_with_key_ascending(keys0, at, k);
        let keys = with_key(keys0, at, k);
        assert forall|x: Seq<u8>| #[trigger] keys.contains(x) <==> m.dom().contains(x) by {
            assert(keys0.contains(x) <==> rest.dom().contains(x));
        }
        keys
    }
}

/// One member of an object: its encoded key and its encoded value.
#[derive(Debug)]
struct Member {
    key: Vec<u8>,
    value: Vec<u8>,
}

/// The members collected for one object, with no key twice.
#[derive(Debug)]
pub struct Members {
    entries: Vec<Member>,
}

impl View for Members {
    type V = Map<Seq<u8>, Seq<u8>>;

    /// The table as a map from encoded key to encoded value.
    closed spec fn view(&self) -> Map<Seq<u8>, Seq<u8>> {
        Map::new(
            |k: Seq<u8>| self.keys().contains(k),
            |k: Seq<u8>| self.entries[self.keys().index_of(k)].value@,
        )
    }
}

impl Members {
    closed spec fn keys(&self) -> Seq<Seq<u8>> {
        Seq::new(self.entries.len() as nat, |i: int| self.entries[i].key@)
    }

    closed spec fn values(&self) -> Seq<Seq<u8>> {
        Seq::new(self.entries.len() as nat, |i: int| self.entries[i].value@)
    }

    #[verifier::type_invariant]
    closed spec fn ascending(&self) -> bool {
        strictly_ascending(self.keys())
    }

    proof fn lemma_view(&self)
        requires
            self.ascending(),
        ensures
            self@.dom().finite(),
            is_key_order(self.keys(), self@),
            self.keys() == key_order(self@),
            self.keys().len() == self.entries.len(),
            forall|i: int|
                0 <= i < self.entries.len() ==> self@[#[trigger] self.keys()[i]]
                    == self.entries[i].value@,
    {
        let keys = self.keys();
        assert forall|k: Seq<u8>| #[trigger] keys.contains(k) <==> self@.dom().contains(k) by {}
        assert(self@.dom() =~= keys.to_set());
        vstd::seq_lib::seq_to_set_is_finite(keys);
        lemma_key_order(self@);
        assert forall|i: int| 0 <= i < self.entries.len() implies self@[#[trigger] keys[i]]
            == self.entries[i].value@ by {
            assert(keys.contains(keys[i]));
            let j = keys.index_of(keys[i]);
            lemma_ascending_distinct(keys, i, j);
        }
    }

    /// An empty table.
    pub fn new() -> (r: Members)
        ensures
            r@ == Map::<Seq<u8>, Seq<u8>>::empty(),
    {
        let r = Members { entries: Vec::new() };
        assert(r@ =~= Map::<Seq<u8>, Seq<u8>>::empty());
        r
    }

    /// The number of members.
    pub fn len(&self) -> (n: usize)
        ensures
            self@.dom().finite(),
            n == self@.dom().len(),
            n == key_order(self@).len(),
    {
        proof {
            use_type_invariant(self);
            self.lemma_view();
            lemma_key_order(self@);
        }
        self.entries.len()
    }

    /// The key at position `i` of the ascending order.
    pub fn key(&self, i: usize) -> (k: &Vec<u8>)
        requires
            i < key_order(self@).len(),
        ensures
            k@ == key_order(self@)[i as int],
    {
        proof {
            use_type_invariant(self);
            self.lemma_view();
        }
        &self.entries[i].key
    }

    /// The value that belongs to the key at position `i` of the ascending order.
    pub fn value(&self, i: usize) -> (v: &Vec<u8>)
        requires
            i < key_order(self@).len(),
        ensures
            v@ == self@[key_order(self@)[i as int]],
    {
        proof {
            use_type_invariant(self);
            self.lemma_view();
        }
        &self.entries[i].value
    }

    /// Where `key` stands in the table: the number of keys before it, and
    /// whether the key at that position is `key` itself.
    fn find(&self, key: &[u8]) -> (r: (usize, bool))
        ensures
            r.0 == count_before(self.keys(), key@),
            r.0 <= self.entries.len(),
            r.1 <==> self.keys().contains(key@),
            r.1 ==> r.0 < self.entries.len() && self.keys()[r.0 as int] == key@,
    {
        proof {
            use_type_invariant(self);
            lemma_count_before(self.keys(), key@);
        }
        let ghost keys = self.keys();
        let mut lo: usize = 0;
        let mut hi: usize = self.entries.len();
        while lo < hi
            invariant
                keys == self.keys(),
                keys.len() == self.entries.len(),
                strictly_ascending(keys),
                lo <= hi <= self.entries.len(),
                forall|i: int| 0 <= i < lo ==> lex_lt(#[trigger] keys[i], key@),
                forall|i: int| hi <= i < keys.len() ==> !lex_lt(#[trigger] keys[i], key@),
            decreases hi - lo,
        {
            let mid = lo + (hi - lo) / 2;
            match compare(self.entries[mid].key.as_slice(), key) {
                Rank::Before => {
                    proof {
                        assert forall|i: int| 0 <= i < mid + 1 implies lex_lt(
                            #[trigger] keys[i],
                            key@,
                        ) by {
                            if i < mid {
                                assert(lex_lt(keys[i], keys[mid as int]));
                                lemma_lex_transitive(keys[i], keys[mid as int], key@);
                            }
                        }
                    }
                    lo = mid + 1;
                },
                _ => {
                    proof {
                        assert forall|i: int| mid <= i < keys.len() implies !lex_lt(
                            #[trigger] keys[i],
                            key@,
                        ) by {
                            if i > mid && lex_lt(keys[i], key@) {
                                assert(lex_lt(keys[mid as int], keys[i]));
                                lemma_lex_transitive(keys[mid as int], keys[i], key@);
                            }
                        }
                    }
                    hi = mid;
                },
            }
        }
        let found = if lo < self.entries.len() {
            match compare(self.entries[lo].key.as_slice(), key) {
                Rank::Same => true,
                _ => false,
            }
        } else {
            false
        };
        proof {
            let c = count_before(keys, key@);
            if lo < c {
                assert(lex_lt(keys[lo as int], key@));
            }
            if c < lo {
                assert(lex_lt(keys[c], key@));
            }
            if !found && keys.contains(key@) {
                let p = choose|p: int| 0 <= p < keys.len() && keys[p] == key@;
                lemma_lex_irreflexive(key@);
                if p > lo {
                    assert(lex_lt(keys[lo as int], keys[p]));
                    lemma_lex_total(keys[lo as int], key@);
                    lemma_lex_asymmetric(keys[lo as int], key@);
                }
            }
            if found {
                assert(keys[lo as int] == key@);
            }
        }
        (lo, found)
    }

    /// Puts `key` with `value` into the table. Where the table holds `key`
    /// already, the new value takes the place of the old one.
    pub fn insert(&mut self, key: Vec<u8>, value: Vec<u8>)
        ensures
            final(self)@ == old(self)@.insert(key@, value@),
    {
        proof {
            use_type_invariant(&*self);
            self.lemma_view();
            lemma_count_before(self.keys(), key@);
        }
        let ghost keys0 = self.keys();
        let ghost map0 = self@;
        let ghost values0 = self.values();
        let (at, found) = self.find(key.as_slice());
        let mut entries: Vec<Member> = Vec::new();
        core::mem::swap(&mut self.entries, &mut entries);
        if found {
            entries[at].value = value;
        } else {
            proof {
                assert forall|i: int| at <= i < keys0.len() implies lex_lt(key@, #[trigger] keys0[i]) by {
                    assert(keys0.contains(keys0[i]));
                    lemma_lex_total(keys0[i], key@);
                }
                lemma_with_key_ascending(keys0, at as int, key@);
            }
            entries.insert(at, Member { key, value });
        }
        proof {
            let keys1 = Seq::new(entries.len() as nat, |i: int| entries[i].key@);
            if found {
                assert(keys1 =~= keys0);
            } else {
                assert(keys1 =~= with_key(keys0, at as int, key@));
            }
        }
        self.entries = entries;
        proof {
            self.lemma_view();
            let keys1 = self.keys();
            assert(self@ =~= map0.insert(key@, value@)) by {
                assert forall|k: Seq<u8>| map0.insert(key@, value@).dom().contains(k) implies #[trigger] self@[k]
                    == map0.insert(key@, value@)[k] by {
                    if k == key@ {
                        assert(keys1[at as int] == k);
                        assert(self@[keys1[at as int]] == self.entries[at as int].value@);
                    } else {
                        let p = choose|p: int| 0 <= p < keys0.len() && keys0[p] == k;
                        assert(map0[keys0[p]] == values0[p]);
                        if found || p < at {
                            assert(keys1[p] == k);
                            assert(self@[keys1[p]] == self.entries[p].value@);
                        } else {
                            assert(keys1[p + 1] == k);
                            assert(self@[keys1[p + 1]] == self.entries[p + 1].value@);
                        }
                    }
                }
            }
        }
    }
}

} // verus!
