//! A map keyed by name, kept in name order.
//!
//! What a `BTreeMap<String, _>` gives the rest of the crate: one value per
//! name, and the names walked in `str` order.
use vstd::prelude::*;
use vstd::relations::*;

use crate::text::{
    chars_of, copy_text, less_chars, lemma_text_lt_irreflexive, lemma_text_lt_total,
    lemma_text_lt_trans, same_chars, text_lt, views,
};

verus! {

/// Names in strictly increasing order: sorted, and none twice.
pub open spec fn strictly_sorted(s: Seq<Seq<char>>) -> bool {
    forall|i: int, j: int| 0 <= i < j < s.len() ==> text_lt(#[trigger] s[i], #[trigger] s[j])
}

#[derive(Debug)]
pub struct NameMap<T> {
    entries: Vec<(String, T)>,
}

impl<T> NameMap<T> {
    /// The names, in order.
    pub closed spec fn keys(&self) -> Seq<Seq<char>> {
        self.entries@.map_values(|e: (String, T)| e.0@)
    }

    /// The values, in the order of their names.
    pub closed spec fn values(&self) -> Seq<T> {
        self.entries@.map_values(|e: (String, T)| e.1)
    }

    #[verifier::type_invariant]
    pub open spec fn ordered(&self) -> bool {
        strictly_sorted(self.keys())
    }

    pub open spec fn has(&self, k: Seq<char>) -> bool {
        self.keys().contains(k)
    }

    /// Where a name sits among the keys.
    pub open spec fn position(&self, k: Seq<char>) -> int {
        choose|i: int| 0 <= i < self.keys().len() && self.keys()[i] == k
    }

    /// The value stored under a name, if there is one.
    pub open spec fn lookup(&self, k: Seq<char>) -> Option<T> {
        if self.has(k) {
            Some(self.values()[self.position(k)])
        } else {
            None
        }
    }

    pub proof fn lemma_shape(&self)
        ensures
            self.keys().len() == self.values().len(),
    {
    }

    /// A name sits at exactly one place.
    pub proof fn lemma_position(&self, i: int)
        requires
            self.ordered(),
            0 <= i < self.keys().len(),
        ensures
            self.position(self.keys()[i]) == i,
            self.lookup(self.keys()[i]) == Some(self.values()[i]),
    {
        let k = self.keys()[i];
        assert(self.keys().contains(k));
        let p = self.position(k);
        if p < i {
            assert(text_lt(self.keys()[p], self.keys()[i]));
            lemma_text_lt_irreflexive(k);
        } else if p > i {
            assert(text_lt(self.keys()[i], self.keys()[p]));
            lemma_text_lt_irreflexive(k);
        }
    }

    pub fn new() -> (m: Self)
        ensures
            m.keys() == Seq::<Seq<char>>::empty(),
            m.values() == Seq::<T>::empty(),
    {
        let m = NameMap { entries: Vec::new() };
        assert(m.keys() =~= Seq::<Seq<char>>::empty());
        assert(m.values() =~= Seq::<T>::empty());
        m
    }

    pub fn len(&self) -> (n: usize)
        ensures
            n == self.keys().len(),
            n == self.values().len(),
    {
        self.entries.len()
    }

    pub fn is_empty(&self) -> (r: bool)
        ensures
            r == (self.keys().len() == 0),
    {
        self.entries.len() == 0
    }

    pub fn key_at(&self, i: usize) -> (k: &String)
        requires
            i < self.keys().len(),
        ensures
            k@ == self.keys()[i as int],
    {
        &self.entries[i].0
    }

    pub fn value_at(&self, i: usize) -> (v: &T)
        requires
            i < self.keys().len(),
        ensures
            *v == self.values()[i as int],
    {
        &self.entries[i].1
    }

    /// Where a name is, or where it would go.
    fn seek(&self, k: &[char]) -> (j: usize)
        ensures
            j <= self.keys().len(),
            forall|i: int| 0 <= i < j ==> text_lt(#[trigger] self.keys()[i], k@),
            j < self.keys().len() ==> !text_lt(self.keys()[j as int], k@),
    {
        let mut j: usize = 0;
        while j < self.entries.len()
            invariant
                j <= self.keys().len(),
                self.keys().len() == self.entries@.len(),
                forall|i: int| 0 <= i < j ==> text_lt(#[trigger] self.keys()[i], k@),
            decreases self.entries.len() - j,
        {
            let name = chars_of(self.entries[j].0.as_str());
            if !less_chars(name.as_slice(), k) {
                return j;
            }
            j += 1;
        }
        j
    }

    /// The index of a name, if it is a key.
    pub fn find(&self, k: &str) -> (r: Option<usize>)
        ensures
            match r {
                Some(i) => i < self.keys().len() && self.keys()[i as int] == k@ && self.position(
                    k@,
                ) == i,
                None => !self.has(k@),
            },
    {
        proof {
            use_type_invariant(self);
        }
        let key = chars_of(k);
        let j = self.seek(key.as_slice());
        if j < self.entries.len() {
            let name = chars_of(self.entries[j].0.as_str());
            if same_chars(name.as_slice(), key.as_slice()) {
                proof {
                    self.lemma_position(j as int);
                }
                return Some(j);
            }
            proof {
                lemma_text_lt_total(self.keys()[j as int], k@);
                assert forall|i: int| 0 <= i < self.keys().len() implies self.keys()[i] != k@ by {
                    if i > j {
                        assert(text_lt(self.keys()[j as int], self.keys()[i]));
                        lemma_text_lt_trans(k@, self.keys()[j as int], self.keys()[i]);
                        lemma_text_lt_irreflexive(k@);
                    } else if i < j {
                        lemma_text_lt_irreflexive(k@);
                    }
                }
            }
            return None;
        }
        proof {
            assert forall|i: int| 0 <= i < self.keys().len() implies self.keys()[i] != k@ by {
                lemma_text_lt_irreflexive(k@);
            }
        }
        None
    }

    pub fn contains_key(&self, k: &str) -> (r: bool)
        ensures
            r == self.has(k@),
    {
        match self.find(k) {
            Some(_) => true,
            None => false,
        }
    }

    pub fn get(&self, k: &str) -> (r: Option<&T>)
        ensures
            match r {
                Some(v) => self.lookup(k@) == Some(*v),
                None => self.lookup(k@) is None,
            },
    {
        match self.find(k) {
            Some(i) => {
                proof {
                    use_type_invariant(self);
                    self.lemma_position(i as int);
                }
                Some(&self.entries[i].1)
            },
            None => None,
        }
    }

    /// Store a value under a name, replacing any value already there.
    pub fn insert(&mut self, k: String, v: T)
        ensures
            forall|x: Seq<char>| #[trigger] final(self).has(x) <==> (old(self).has(x) || x == k@),
            final(self).lookup(k@) == Some(v),
            forall|x: Seq<char>|
                x != k@ ==> #[trigger] final(self).lookup(x) == old(self).lookup(x),
    {
        proof {
            use_type_invariant(&*self);
        }
        let key = chars_of(k.as_str());
        let j = self.seek(key.as_slice());
        let ghost before = *self;
        if j < self.entries.len() {
            let name = chars_of(self.entries[j].0.as_str());
            if same_chars(name.as_slice(), key.as_slice()) {
                proof {
                    let ks = self.keys();
                    assert(self.entries@.update(j as int, (k, v)).map_values(
                        |e: (String, T)| e.0@,
                    ) =~= ks);
                }
                let mut es: Vec<(String, T)> = Vec::new();
        std::mem::swap(&mut es, &mut self.entries);
                es.set(j, (k, v));
                self.entries = es;
                proof {
                    assert(self.keys() =~= before.keys());
                    assert(self.values() =~= before.values().update(j as int, v));
                    self.lemma_position(j as int);
                    assert forall|x: Seq<char>| x != k@ implies #[trigger] self.lookup(x)
                        == before.lookup(x) by {
                        if self.has(x) {
                            let p = choose|i: int| 0 <= i < self.keys().len() && self.keys()[i] == x;
                            self.lemma_position(p);
                            before.lemma_position(p);
                        }
                    }
                }
                return;
            }
        }
        proof {
            let ks = self.keys();
            if j < ks.len() {
                lemma_text_lt_total(ks[j as int], k@);
            }
            assert(self.entries@.insert(j as int, (k, v)).map_values(|e: (String, T)| e.0@)
                =~= ks.insert(j as int, k@));
            assert forall|a: int, b: int| 0 <= a < b < ks.len() + 1 implies text_lt(
                #[trigger] ks.insert(j as int, k@)[a],
                #[trigger] ks.insert(j as int, k@)[b],
            ) by {
                let s = ks.insert(j as int, k@);
                if b == j {
                } else if a == j {
                    assert(s[b] == ks[b - 1]);
                    if b - 1 > j {
                        lemma_text_lt_trans(k@, ks[j as int], ks[b - 1]);
                    }
                } else if a < j && b > j {
                    assert(s[b] == ks[b - 1]);
                } else if a > j {
                    assert(s[a] == ks[a - 1]);
                    assert(s[b] == ks[b - 1]);
                }
            }
        }
        let mut es: Vec<(String, T)> = Vec::new();
        std::mem::swap(&mut es, &mut self.entries);
        es.insert(j, (k, v));
        self.entries = es;
        proof {
            let ks = before.keys();
            assert(self.keys() =~= ks.insert(j as int, k@));
            assert(self.values() =~= before.values().insert(j as int, v));
            self.lemma_position(j as int);
            assert forall|x: Seq<char>| #[trigger] self.has(x) <==> (before.has(x) || x == k@) by {
                if before.has(x) {
                    let p = choose|i: int| 0 <= i < ks.len() && ks[i] == x;
                    if p < j {
                        assert(self.keys()[p] == x);
                    } else {
                        assert(self.keys()[p + 1] == x);
                    }
                }
                if self.has(x) && x != k@ {
                    let p = choose|i: int| 0 <= i < self.keys().len() && self.keys()[i] == x;
                    if p < j {
                        assert(ks[p] == x);
                    } else {
                        assert(ks[p - 1] == x);
                    }
                }
            }
            assert forall|x: Seq<char>| x != k@ implies #[trigger] self.lookup(x) == before.lookup(
                x,
            ) by {
                if before.has(x) {
                    let p = choose|i: int| 0 <= i < ks.len() && ks[i] == x;
                    before.lemma_position(p);
                    if p < j {
                        self.lemma_position(p);
                    } else {
                        self.lemma_position(p + 1);
                    }
                }
            }
        }
    }

}

impl<T> NameMap<T> {
    /// The names, in order.
    pub fn names(&self) -> (r: Vec<String>)
        ensures
            views(r@) == self.keys(),
    {
        let mut r: Vec<String> = Vec::new();
        let mut i: usize = 0;
        while i < self.entries.len()
            invariant
                i <= self.entries@.len(),
                self.keys().len() == self.entries@.len(),
                views(r@) == self.keys().take(i as int),
            decreases self.entries.len() - i,
        {
            let ghost before = r@;
            r.push(copy_text(&self.entries[i].0));
            assert(views(r@) =~= views(before).push(self.keys()[i as int]));
            assert(self.keys().take(i + 1) =~= self.keys().take(i as int).push(
                self.keys()[i as int],
            ));
            i += 1;
        }
        assert(self.keys().take(i as int) =~= self.keys());
        r
    }
}

} // verus!

verus! {

/// Two lists in strictly increasing order that hold the same names are the
/// same list.
pub proof fn lemma_strictly_sorted_unique(a: Seq<Seq<char>>, b: Seq<Seq<char>>)
    requires
        strictly_sorted(a),
        strictly_sorted(b),
        forall|x: Seq<char>|
            #![trigger a.contains(x)]
            #![trigger b.contains(x)]
            a.contains(x) <==> b.contains(x),
    ensures
        a == b,
    decreases a.len(),
{
    if a.len() == 0 {
        if b.len() > 0 {
            assert(b.contains(b[0]));
        }
        assert(a =~= b);
    } else if b.len() == 0 {
        assert(a.contains(a[0]));
    } else {
        assert(a.contains(a[0]));
        assert(b.contains(b[0]));
        let i = choose|i: int| 0 <= i < b.len() && b[i] == a[0];
        let j = choose|j: int| 0 <= j < a.len() && a[j] == b[0];
        if a[0] != b[0] {
            if i > 0 {
                assert(text_lt(b[0], b[i]));
            }
            if j > 0 {
                assert(text_lt(a[0], a[j]));
            }
            crate::text::lemma_text_lt_asym(a[0], b[0]);
        }
        assert forall|x: Seq<char>|
            #![trigger a.drop_first().contains(x)]
            #![trigger b.drop_first().contains(x)]
            a.drop_first().contains(x) <==> b.drop_first().contains(x) by {
            if a.drop_first().contains(x) {
                let p = choose|p: int| 0 <= p < a.drop_first().len() && a.drop_first()[p] == x;
                assert(a[p + 1] == x);
                assert(text_lt(a[0], a[p + 1]));
                assert(b.contains(x));
                let q = choose|q: int| 0 <= q < b.len() && b[q] == x;
                if q == 0 {
                    lemma_text_lt_irreflexive(x);
                }
                assert(b.drop_first()[q - 1] == x);
            }
            if b.drop_first().contains(x) {
                let p = choose|p: int| 0 <= p < b.drop_first().len() && b.drop_first()[p] == x;
                assert(b[p + 1] == x);
                assert(text_lt(b[0], b[p + 1]));
                assert(a.contains(x));
                let q = choose|q: int| 0 <= q < a.len() && a[q] == x;
                if q == 0 {
                    lemma_text_lt_irreflexive(x);
                }
                assert(a.drop_first()[q - 1] == x);
            }
        }
        lemma_strictly_sorted_unique(a.drop_first(), b.drop_first());
        assert(a[0] == b[0]);
        assert(a =~= seq![a[0]] + a.drop_first());
        assert(b =~= seq![b[0]] + b.drop_first());
        assert(a =~= b);
    }
}

} // verus!
