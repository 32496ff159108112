use vstd::prelude::*;
use vstd::utf8::encode_utf8_decode_utf8;

verus! {

/// The UTF-8 bytes of a string's characters.
pub open spec fn key_bytes(k: Seq<char>) -> Seq<u8> {
    vstd::utf8::encode_utf8(k)
}

/// Lexicographic order on byte strings, looking from position `i` on,
/// the two prefixes before `i` being taken as equal.
pub open spec fn bytes_lt_from(a: Seq<u8>, b: Seq<u8>, i: int) -> bool
    decreases a.len() - i,
{
    if i < 0 || i >= a.len() {
        0 <= i < b.len()
    } else if i >= b.len() {
        false
    } else if a[i] < b[i] {
        true
    } else if a[i] > b[i] {
        false
    } else {
        bytes_lt_from(a, b, i + 1)
    }
}

/// Lexicographic order on byte strings: the order of `String`'s `Ord`.
pub open spec fn bytes_lt(a: Seq<u8>, b: Seq<u8>) -> bool {
    bytes_lt_from(a, b, 0)
}

/// Lexicographic order on keys, by their UTF-8 bytes.
pub open spec fn key_lt(a: Seq<char>, b: Seq<char>) -> bool {
    bytes_lt(key_bytes(a), key_bytes(b))
}

proof fn lemma_lt_from_irreflexive(a: Seq<u8>, i: int)
    requires
        0 <= i,
    ensures
        !bytes_lt_from(a, a, i),
    decreases a.len() - i,
{
    if i < a.len() {
        lemma_lt_from_irreflexive(a, i + 1);
    }
}

proof fn lemma_lt_from_total(a: Seq<u8>, b: Seq<u8>, i: int)
    requires
        0 <= i <= a.len(),
        i <= b.len(),
        a.subrange(0, i) == b.subrange(0, i),
        !bytes_lt_from(a, b, i),
        !bytes_lt_from(b, a, i),
    ensures
        a == b,
    decreases a.len() - i,
{
    if i < a.len() && i < b.len() {
        assert(a.subrange(0, i + 1) == a.subrange(0, i).push(a[i]));
        assert(b.subrange(0, i + 1) == b.subrange(0, i).push(b[i]));
        lemma_lt_from_total(a, b, i + 1);
    } else {
        assert(a.len() == i && b.len() == i);
        assert(a == a.subrange(0, i));
        assert(b == b.subrange(0, i));
    }
}

proof fn lemma_lt_from_transitive(a: Seq<u8>, b: Seq<u8>, c: Seq<u8>, i: int)
    requires
        0 <= i,
        bytes_lt_from(a, b, i),
        bytes_lt_from(b, c, i),
    ensures
        bytes_lt_from(a, c, i),
    decreases a.len() - i,
{
    if i < a.len() && i < b.len() && i < c.len() && a[i] == b[i] && b[i] == c[i] {
        lemma_lt_from_transitive(a, b, c, i + 1);
    }
}

proof fn lemma_lt_from_asymmetric(a: Seq<u8>, b: Seq<u8>, i: int)
    requires
        0 <= i,
        bytes_lt_from(a, b, i),
    ensures
        !bytes_lt_from(b, a, i),
    decreases a.len() - i,
{
    if i < a.len() && i < b.len() && a[i] == b[i] {
        lemma_lt_from_asymmetric(a, b, i + 1);
    }
}

/// Keys are ordered strictly: no key precedes itself.
pub proof fn lemma_key_lt_irreflexive(a: Seq<char>)
    ensures
        !key_lt(a, a),
{
    lemma_lt_from_irreflexive(key_bytes(a), 0);
}

/// Keys are ordered strictly: the order is transitive.
pub proof fn lemma_key_lt_transitive(a: Seq<char>, b: Seq<char>, c: Seq<char>)
    requires
        key_lt(a, b),
        key_lt(b, c),
    ensures
        key_lt(a, c),
{
    lemma_lt_from_transitive(key_bytes(a), key_bytes(b), key_bytes(c), 0);
}

/// Keys are ordered totally: two distinct keys are ordered one way or the other.
pub proof fn lemma_key_lt_total(a: Seq<char>, b: Seq<char>)
    ensures
        a == b || key_lt(a, b) || key_lt(b, a),
{
    if !key_lt(a, b) && !key_lt(b, a) {
        let (x, y) = (key_bytes(a), key_bytes(b));
        assert(x.subrange(0, 0) == y.subrange(0, 0));
        lemma_lt_from_total(x, y, 0);
        encode_utf8_decode_utf8(a);
        encode_utf8_decode_utf8(b);
    }
}

/// Keys are ordered strictly: never both ways.
pub proof fn lemma_key_lt_asymmetric(a: Seq<char>, b: Seq<char>)
    requires
        key_lt(a, b),
    ensures
        !key_lt(b, a),
{
    lemma_lt_from_asymmetric(key_bytes(a), key_bytes(b), 0);
}


/// Whether `ks` is strictly increasing in key order.
pub open spec fn strictly_sorted(ks: Seq<Seq<char>>) -> bool {
    forall|i: int, j: int| 0 <= i < j < ks.len() ==> key_lt(#[trigger] ks[i], #[trigger] ks[j])
}

/// The keys of `m`, in increasing key order.
pub open spec fn sorted_keys(m: Map<Seq<char>, Seq<char>>) -> Seq<Seq<char>> {
    choose|ks: Seq<Seq<char>>| strictly_sorted(ks) && ks.to_set() == m.dom()
}

/// Two strictly sorted key sequences with the same elements are equal.
pub proof fn lemma_sorted_unique(a: Seq<Seq<char>>, b: Seq<Seq<char>>)
    requires
        strictly_sorted(a),
        strictly_sorted(b),
        a.to_set() == b.to_set(),
    ensures
        a == b,
    decreases a.len(),
{
    if a.len() == 0 {
        if b.len() > 0 {
            assert(b.to_set().contains(b[0]));
        }
        assert(a =~= b);
    } else {
        if b.len() == 0 {
            assert(a.to_set().contains(a[0]));
        }
        assert(a.to_set().contains(a[0]));
        assert(b.to_set().contains(b[0]));
        let j = choose|j: int| 0 <= j < b.len() && b[j] == a[0];
        let i = choose|i: int| 0 <= i < a.len() && a[i] == b[0];
        if a[0] != b[0] {
            assert(j > 0 && i > 0);
            assert(key_lt(b[0], b[j]));
            assert(key_lt(a[0], a[i]));
            lemma_key_lt_asymmetric(a[0], b[0]);
        }
        let (a1, b1) = (a.drop_first(), b.drop_first());
        assert forall|x: Seq<char>| a1.to_set().contains(x) implies b1.to_set().contains(x) by {
            let p = choose|p: int| 0 <= p < a1.len() && a1[p] == x;
            assert(a[p + 1] == x);
            assert(key_lt(a[0], a[p + 1]));
            lemma_key_lt_irreflexive(x);
            assert(a.to_set().contains(x));
            let q = choose|q: int| 0 <= q < b.len() && b[q] == x;
            assert(q != 0);
            assert(b1[q - 1] == x);
        }
        assert forall|x: Seq<char>| b1.to_set().contains(x) implies a1.to_set().contains(x) by {
            let p = choose|p: int| 0 <= p < b1.len() && b1[p] == x;
            assert(b[p + 1] == x);
            assert(key_lt(b[0], b[p + 1]));
            lemma_key_lt_irreflexive(x);
            assert(b.to_set().contains(x));
            let q = choose|q: int| 0 <= q < a.len() && a[q] == x;
            assert(q != 0);
            assert(a1[q - 1] == x);
        }
        assert(a1.to_set() =~= b1.to_set());
        lemma_sorted_unique(a1, b1);
        assert(a =~= seq![a[0]] + a1);
        assert(b =~= seq![b[0]] + b1);
    }
}

/// Compares two keys by their UTF-8 bytes: -1, 0 or 1 as `a` comes
/// before, equals or comes after `b`.
pub fn compare_keys(a: &str, b: &str) -> (r: i8)
    ensures
        r == -1 <==> key_lt(a@, b@),
        r == 0 <==> a@ == b@,
        r == 1 <==> key_lt(b@, a@),
        r == -1 || r == 0 || r == 1,
{
    let x = a.as_bytes();
    let y = b.as_bytes();
    proof {
        lemma_key_lt_total(a@, b@);
        lemma_key_lt_irreflexive(a@);
        lemma_key_lt_irreflexive(b@);
        if key_lt(a@, b@) {
            lemma_key_lt_asymmetric(a@, b@);
        }
    }
    let mut i: usize = 0;
    while i < x.len() && i < y.len()
        invariant
            x@ == key_bytes(a@),
            y@ == key_bytes(b@),
            0 <= i <= x@.len(),
            i <= y@.len(),
            bytes_lt(x@, y@) == bytes_lt_from(x@, y@, i as int),
            bytes_lt(y@, x@) == bytes_lt_from(y@, x@, i as int),
        decreases x@.len() - i,
    {
        if x[i] < y[i] {
            return -1;
        }
        if x[i] > y[i] {
            return 1;
        }
        i = i + 1;
    }
    if x.len() < y.len() {
        -1
    } else if y.len() < x.len() {
        1
    } else {
        0
    }
}

/// An ordered map from string keys to string values, kept sorted by key
/// in the lexicographic order of the keys' bytes.
#[derive(Debug, Clone)]
pub struct StrMap {
    entries: Vec<(String, String)>,
}

impl View for StrMap {
    type V = Map<Seq<char>, Seq<char>>;

    closed spec fn view(&self) -> Map<Seq<char>, Seq<char>> {
        Map::new(
            |k: Seq<char>| exists|i: int| 0 <= i < self.entries@.len() && self.entries@[i].0@ == k,
            |k: Seq<char>| self.entries@[self.position_of(k)].1@,
        )
    }
}

impl StrMap {
    /// A position that holds key `k`.
    closed spec fn position_of(&self, k: Seq<char>) -> int {
        choose|i: int| 0 <= i < self.entries@.len() && self.entries@[i].0@ == k
    }

    /// The keys, in order.
    pub closed spec fn key_seq(&self) -> Seq<Seq<char>> {
        self.entries@.map_values(|e: (String, String)| e.0@)
    }

    /// Keys strictly increasing.
    pub closed spec fn wf(&self) -> bool {
        forall|i: int, j: int|
            0 <= i < j < self.entries@.len() ==> key_lt(
                #[trigger] self.entries@[i].0@,
                #[trigger] self.entries@[j].0@,
            )
    }

    proof fn lemma_index_of(&self, i: int)
        requires
            self.wf(),
            0 <= i < self.entries@.len(),
        ensures
            self@.contains_key(self.entries@[i].0@),
            self@[self.entries@[i].0@] == self.entries@[i].1@,
    {
        let k = self.entries@[i].0@;
        assert(self.entries@[i].0@ == k);
        assert(self@.contains_key(k));
        let j = self.position_of(k);
        if j != i {
            if j < i {
                assert(key_lt(self.entries@[j].0@, self.entries@[i].0@));
            } else {
                assert(key_lt(self.entries@[i].0@, self.entries@[j].0@));
            }
            lemma_key_lt_irreflexive(k);
        }
    }

    /// An empty map.
    pub fn new() -> (r: StrMap)
        ensures
            r.wf(),
            r@ == Map::<Seq<char>, Seq<char>>::empty(),
            r.key_seq().len() == 0,
    {
        let r = StrMap { entries: Vec::new() };
        assert(r@ =~= Map::<Seq<char>, Seq<char>>::empty());
        r
    }

    /// The number of entries.
    pub fn len(&self) -> (r: usize)
        requires
            self.wf(),
        ensures
            r == self@.len(),
            r == self.key_seq().len(),
    {
        proof { self.lemma_len(); }
        self.entries.len()
    }

    /// The keys are the map's domain, each once, in increasing order.
    pub proof fn lemma_len(&self)
        requires
            self.wf(),
        ensures
            self@.dom() == self.key_seq().to_set(),
            self@.len() == self.key_seq().len(),
            self.key_seq().no_duplicates(),
            strictly_sorted(self.key_seq()),
            self.key_seq() == sorted_keys(self@),
    {
        let ks = self.key_seq();
        assert forall|i: int, j: int| 0 <= i < ks.len() && 0 <= j < ks.len() && i != j
            implies ks[i] != ks[j] by {
            if i < j {
                assert(key_lt(self.entries@[i].0@, self.entries@[j].0@));
            } else {
                assert(key_lt(self.entries@[j].0@, self.entries@[i].0@));
            }
            lemma_key_lt_irreflexive(ks[i]);
        }
        assert(self@.dom() =~= ks.to_set()) by {
            assert forall|k: Seq<char>| self@.dom().contains(k) implies ks.to_set().contains(k) by {
                let i = choose|i: int| 0 <= i < self.entries@.len() && self.entries@[i].0@ == k;
                assert(ks[i] == k);
            }
        }
        ks.unique_seq_to_set();
        assert(strictly_sorted(ks)) by {
            assert forall|i: int, j: int| 0 <= i < j < ks.len() implies key_lt(
                #[trigger] ks[i],
                #[trigger] ks[j],
            ) by {
                assert(key_lt(self.entries@[i].0@, self.entries@[j].0@));
            }
        }
        let other = sorted_keys(self@);
        lemma_sorted_unique(ks, other);
    }

    /// The entries, in key order.
    pub(crate) fn pairs(&self) -> (r: &Vec<(String, String)>)
        ensures
            r@.len() == self.key_seq().len(),
    {
        &self.entries
    }

    /// The key at position `i` in key order.
    pub fn key_at(&self, i: usize) -> (r: &String)
        requires
            i < self.key_seq().len(),
        ensures
            r@ == self.key_seq()[i as int],
    {
        &self.entries[i].0
    }

    /// The value at position `i` in key order.
    pub fn value_at(&self, i: usize) -> (r: &String)
        requires
            self.wf(),
            i < self.key_seq().len(),
        ensures
            r@ == self@[self.key_seq()[i as int]],
    {
        proof { self.lemma_index_of(i as int); }
        &self.entries[i].1
    }

    /// The value bound to `k`, if any.
    pub fn get(&self, k: &str) -> (r: Option<&String>)
        requires
            self.wf(),
        ensures
            r is Some <==> self@.contains_key(k@),
            r is Some ==> r.unwrap()@ == self@[k@],
    {
        let mut i: usize = 0;
        while i < self.entries.len()
            invariant
                self.wf(),
                0 <= i <= self.entries@.len(),
                forall|j: int| 0 <= j < i ==> self.entries@[j].0@ != k@,
            decreases self.entries@.len() - i,
        {
            if compare_keys(self.entries[i].0.as_str(), k) == 0 {
                proof { self.lemma_index_of(i as int); }
                return Some(&self.entries[i].1);
            }
            i = i + 1;
        }
        None
    }

    /// Binds `k` to `v`, replacing an earlier binding of `k`.
    pub fn insert(&mut self, k: String, v: String)
        requires
            old(self).wf(),
        ensures
            final(self).wf(),
            final(self)@ == old(self)@.insert(k@, v@),
    {
        let mut i: usize = 0;
        while i < self.entries.len() && compare_keys(self.entries[i].0.as_str(), k.as_str()) == -1
            invariant
                self.wf(),
                0 <= i <= self.entries@.len(),
                forall|j: int| 0 <= j < i ==> key_lt(#[trigger] self.entries@[j].0@, k@),
            decreases self.entries@.len() - i,
        {
            i = i + 1;
        }
        let ghost pre = *self;
        if i < self.entries.len() && compare_keys(self.entries[i].0.as_str(), k.as_str()) == 0 {
            self.entries.set(i, (k, v));
            proof {
                assert(self.wf()) by {
                    assert forall|a: int, b: int| 0 <= a < b < self.entries@.len() implies key_lt(
                        #[trigger] self.entries@[a].0@,
                        #[trigger] self.entries@[b].0@,
                    ) by {
                        assert(pre.wf());
                        assert(key_lt(pre.entries@[a].0@, pre.entries@[b].0@));
                    }
                }
                self.lemma_view_after_set(pre, i as int);
            }
        } else {
            let ghost kv = (k@, v@);
            proof {
                if i < self.entries.len() {
                    lemma_key_lt_total(self.entries@[i as int].0@, k@);
                }
                assert forall|j: int| 0 <= j < pre.entries@.len() implies #[trigger] pre.entries@[j].0@
                    != kv.0 by {
                    if j < i {
                        lemma_key_lt_irreflexive(kv.0);
                    } else {
                        if j > i {
                            lemma_key_lt_transitive(kv.0, pre.entries@[i as int].0@, pre.entries@[j].0@);
                        }
                        lemma_key_lt_irreflexive(kv.0);
                    }
                }
            }
            self.entries.insert(i, (k, v));
            proof {
                assert(self.wf()) by {
                    assert forall|a: int, b: int| 0 <= a < b < self.entries@.len() implies key_lt(
                        #[trigger] self.entries@[a].0@,
                        #[trigger] self.entries@[b].0@,
                    ) by {
                        if b < i {
                            assert(key_lt(pre.entries@[a].0@, pre.entries@[b].0@));
                        } else if a < i && b == i {
                        } else if a < i {
                            assert(key_lt(pre.entries@[a].0@, pre.entries@[b - 1].0@));
                        } else if a == i {
                            if b > i + 1 {
                                assert(key_lt(pre.entries@[i as int].0@, pre.entries@[b - 1].0@));
                                lemma_key_lt_transitive(
                                    kv.0, pre.entries@[i as int].0@, pre.entries@[b - 1].0@);
                            }
                        } else {
                            assert(key_lt(pre.entries@[a - 1].0@, pre.entries@[b - 1].0@));
                        }
                    }
                }
                self.lemma_view_after_insert(pre, i as int);
            }
        }
    }

    proof fn lemma_view_after_set(&self, pre: StrMap, i: int)
        requires
            pre.wf(),
            self.wf(),
            0 <= i < pre.entries@.len(),
            self.entries@ == pre.entries@.update(i, self.entries@[i]),
            self.entries@[i].0@ == pre.entries@[i].0@,
        ensures
            self@ == pre@.insert(self.entries@[i].0@, self.entries@[i].1@),
    {
        let k = self.entries@[i].0@;
        assert forall|j: int| 0 <= j < self.entries@.len() implies self@.contains_key(
            #[trigger] self.entries@[j].0@,
        ) && self@[self.entries@[j].0@] == (if j == i {
            self.entries@[i].1@
        } else {
            pre@[pre.entries@[j].0@]
        }) by {
            self.lemma_index_of(j);
            pre.lemma_index_of(j);
        }
        assert forall|j: int| 0 <= j < pre.entries@.len() implies pre@.contains_key(
            #[trigger] pre.entries@[j].0@,
        ) by {
            pre.lemma_index_of(j);
        }
        assert(self@ =~= pre@.insert(k, self.entries@[i].1@)) by {
            assert forall|x: Seq<char>| #[trigger] self@.contains_key(x) implies pre@.insert(
                k, self.entries@[i].1@).contains_key(x) && self@[x] == pre@.insert(
                k, self.entries@[i].1@)[x] by {
                let j = choose|j: int| 0 <= j < self.entries@.len() && self.entries@[j].0@ == x;
                assert(self.entries@[j].0@ == x);
            }
            assert forall|x: Seq<char>| #[trigger] pre@.insert(k, self.entries@[i].1@).contains_key(x)
                implies self@.contains_key(x) by {
                if x != k {
                    let j = choose|j: int| 0 <= j < pre.entries@.len() && pre.entries@[j].0@ == x;
                    assert(self.entries@[j].0@ == x);
                }
            }
        }
    }

    proof fn lemma_view_after_insert(&self, pre: StrMap, i: int)
        requires
            pre.wf(),
            self.wf(),
            0 <= i <= pre.entries@.len(),
            self.entries@ == pre.entries@.insert(i, self.entries@[i]),
            !pre@.contains_key(self.entries@[i].0@),
        ensures
            self@ == pre@.insert(self.entries@[i].0@, self.entries@[i].1@),
    {
        let k = self.entries@[i].0@;
        let v = self.entries@[i].1@;
        assert forall|j: int| 0 <= j < self.entries@.len() implies self@.contains_key(
            #[trigger] self.entries@[j].0@,
        ) && self@[self.entries@[j].0@] == (if j == i {
            v
        } else if j < i {
            pre@[pre.entries@[j].0@]
        } else {
            pre@[pre.entries@[j - 1].0@]
        }) by {
            self.lemma_index_of(j);
            if j < i {
                pre.lemma_index_of(j);
            } else if j > i {
                pre.lemma_index_of(j - 1);
            }
        }
        assert(self@ =~= pre@.insert(k, v)) by {
            assert forall|x: Seq<char>| #[trigger] self@.contains_key(x) implies pre@.insert(
                k, v).contains_key(x) && self@[x] == pre@.insert(k, v)[x] by {
                let j = choose|j: int| 0 <= j < self.entries@.len() && self.entries@[j].0@ == x;
                assert(self.entries@[j].0@ == x);
                if j < i {
                    pre.lemma_index_of(j);
                } else if j > i {
                    pre.lemma_index_of(j - 1);
                }
            }
            assert forall|x: Seq<char>| #[trigger] pre@.insert(k, v).contains_key(x)
                implies self@.contains_key(x) by {
                if x != k {
                    let j = choose|j: int| 0 <= j < pre.entries@.len() && pre.entries@[j].0@ == x;
                    if j < i {
                        assert(self.entries@[j].0@ == x);
                    } else {
                        assert(self.entries@[j + 1].0@ == x);
                    }
                }
            }
        }
    }
}

} // verus!
