//! Names and tables keyed by name.

use vstd::prelude::*;
use vstd::string::StringSliceAdditionalSpecFns;
use vstd::utf8::encode_utf8_decode_utf8;

verus! {

/// Whether two names are the same text.
pub fn str_eq(a: &str, b: &str) -> (r: bool)
    ensures
        r == (a@ == b@),
{
    let x = a.as_bytes();
    let y = b.as_bytes();
    proof {
        encode_utf8_decode_utf8(a@);
        encode_utf8_decode_utf8(b@);
    }
    if x.len() != y.len() {
        return false;
    }
    let mut i: usize = 0;
    while i < x.len()
        invariant
            i <= x.len(),
            x.len() == y.len(),
            x@ == a.spec_bytes(),
            y@ == b.spec_bytes(),
            forall|j: int| 0 <= j < i ==> x@[j] == y@[j],
        decreases x.len() - i,
    {
        if x[i] != y[i] {
            return false;
        }
        i += 1;
    }
    assert(x@ =~= y@);
    true
}

/// A table from names to values, in the order in which the names came.
#[derive(Debug)]
pub struct NameTable<V> {
    entries: Vec<(String, V)>,
}

impl<V> NameTable<V> {
    /// No name occurs twice.
    pub closed spec fn wf(&self) -> bool {
        forall|i: int, j: int|
            0 <= i < j < self.entries.len() ==> (#[trigger] self.entries[i]).0@ != (
            #[trigger] self.entries[j]).0@
    }

    /// The names in the order in which they came.
    pub closed spec fn names(&self) -> Seq<Seq<char>> {
        Seq::new(self.entries.len() as nat, |i: int| self.entries[i].0@)
    }

    /// The values in the order of `names`.
    pub closed spec fn values(&self) -> Seq<V> {
        Seq::new(self.entries.len() as nat, |i: int| self.entries[i].1)
    }

    closed spec fn index_of(&self, name: Seq<char>) -> int {
        choose|i: int| 0 <= i < self.entries.len() && self.entries[i].0@ == name
    }

    /// The table as a map.
    pub closed spec fn map(&self) -> Map<Seq<char>, V> {
        Map::new(
            |name: Seq<char>|
                exists|i: int| 0 <= i < self.entries.len() && (#[trigger] self.entries[i]).0@ == name,
            |name: Seq<char>| self.entries[self.index_of(name)].1,
        )
    }

    /// The map holds what `names` and `values` hold, place by place.
    pub proof fn lemma_places(&self)
        requires
            self.wf(),
        ensures
            self.names().len() == self.values().len(),
            forall|i: int|
                0 <= i < self.names().len() ==> self.map().contains_key(#[trigger] self.names()[i])
                    && self.map()[self.names()[i]] == self.values()[i],
            forall|name: Seq<char>| #[trigger]
                self.map().contains_key(name) ==> self.names().contains(name),
            self.names().no_duplicates(),
    {
        assert forall|i: int| 0 <= i < self.names().len() implies self.map().contains_key(
            #[trigger] self.names()[i],
        ) && self.map()[self.names()[i]] == self.values()[i] by {
            let name = self.entries[i].0@;
            assert(self.map().contains_key(name));
            let k = self.index_of(name);
            assert(k == i);
        }
        assert forall|name: Seq<char>| #[trigger] self.map().contains_key(name) implies self.names().contains(
            name,
        ) by {
            let i = choose|i: int| 0 <= i < self.entries.len() && (#[trigger] self.entries[i]).0@ == name;
            assert(self.names()[i] == name);
        }
    }

    pub fn new() -> (r: NameTable<V>)
        ensures
            r.wf(),
            r.map() == Map::<Seq<char>, V>::empty(),
            r.names() == Seq::<Seq<char>>::empty(),
    {
        let r = NameTable { entries: Vec::new() };
        assert(r.map() =~= Map::<Seq<char>, V>::empty());
        assert(r.names() =~= Seq::<Seq<char>>::empty());
        r
    }

    pub fn len(&self) -> (r: usize)
        ensures
            r == self.names().len(),
    {
        self.entries.len()
    }

    /// The name at place `i`.
    pub fn name_at(&self, i: usize) -> (r: &str)
        requires
            i < self.names().len(),
        ensures
            r@ == self.names()[i as int],
    {
        self.entries[i].0.as_str()
    }

    /// The value at place `i`.
    pub fn value_at(&self, i: usize) -> (r: &V)
        requires
            i < self.names().len(),
        ensures
            *r == self.values()[i as int],
    {
        &self.entries[i].1
    }

    /// The place of `name`, if the table has it.
    fn position(&self, name: &str) -> (r: Option<usize>)
        requires
            self.wf(),
        ensures
            match r {
                Some(i) => i < self.entries.len() && self.entries[i as int].0@ == name@
                    && self.map().contains_key(name@) && self.map()[name@]
                    == self.entries[i as int].1,
                None => !self.map().contains_key(name@) && forall|j: int|
                    0 <= j < self.entries.len() ==> (#[trigger] self.entries[j]).0@ != name@,
            },
    {
        let mut i: usize = 0;
        while i < self.entries.len()
            invariant
                i <= self.entries.len(),
                self.wf(),
                forall|j: int| 0 <= j < i ==> (#[trigger] self.entries[j]).0@ != name@,
            decreases self.entries.len() - i,
        {
            if str_eq(self.entries[i].0.as_str(), name) {
                assert(self.map().contains_key(name@));
                let ghost k = self.index_of(name@);
                assert(self.entries[k].0@ == name@);
                assert(k == i);
                return Some(i);
            }
            i += 1;
        }
        None
    }

    /// The value under `name`, if the table has it.
    pub fn get(&self, name: &str) -> (r: Option<&V>)
        requires
            self.wf(),
        ensures
            match r {
                Some(v) => self.map().contains_key(name@) && self.map()[name@] == *v,
                None => !self.map().contains_key(name@),
            },
    {
        match self.position(name) {
            Some(i) => Some(&self.entries[i].1),
            None => None,
        }
    }

    /// Puts `value` under `name` and hands back what was there before.
    pub fn insert(&mut self, name: String, value: V) -> (r: Option<V>)
        requires
            old(self).wf(),
        ensures
            final(self).wf(),
            final(self).map() == old(self).map().insert(name@, value),
            match r {
                Some(v) => old(self).map().contains_key(name@) && old(self).map()[name@] == v,
                None => !old(self).map().contains_key(name@),
            },
            old(self).map().contains_key(name@) ==> final(self).names() == old(self).names(),
            !old(self).map().contains_key(name@) ==> final(self).names() == old(self).names().push(
                name@,
            ),
    {
        match self.position(name.as_str()) {
            Some(i) => {
                let slot = &mut self.entries[i];
                let mut held = value;
                core::mem::swap(&mut slot.1, &mut held);
                proof {
                    assert(final(self).names() =~= old(self).names());
                    Self::lemma_after_put(*old(self), *self, i as int, name@, value);
                }
                Some(held)
            },
            None => {
                self.entries.push((name, value));
                proof {
                    assert(final(self).names() =~= old(self).names().push(name@));
                    Self::lemma_after_push(*old(self), *self, name@, value);
                }
                None
            },
        }
    }

    proof fn lemma_after_put(before: Self, after: Self, i: int, name: Seq<char>, value: V)
        requires
            before.wf(),
            0 <= i < before.entries.len(),
            before.entries[i].0@ == name,
            after.entries.len() == before.entries.len(),
            after.entries[i].0@ == name,
            after.entries[i].1 == value,
            forall|j: int|
                0 <= j < before.entries.len() && j != i ==> after.entries[j] == before.entries[j],
        ensures
            after.wf(),
            after.map() == before.map().insert(name, value),
    {
        assert(after.wf()) by {
            assert forall|a: int, b: int| 0 <= a < b < after.entries.len() implies (
            #[trigger] after.entries[a]).0@ != (#[trigger] after.entries[b]).0@ by {
                assert(before.entries[a].0@ != before.entries[b].0@);
            }
        }
        assert forall|k: Seq<char>| after.map().contains_key(k) <==> before.map().insert(
            name,
            value,
        ).contains_key(k) by {
            if after.map().contains_key(k) {
                let j = choose|j: int| 0 <= j < after.entries.len() && (#[trigger] after.entries[j]).0@ == k;
                assert(before.entries[j].0@ == k);
            }
            if before.map().contains_key(k) {
                let j = choose|j: int| 0 <= j < before.entries.len() && (#[trigger] before.entries[j]).0@ == k;
                assert(after.entries[j].0@ == k);
            }
            if k == name {
                assert(after.entries[i].0@ == k);
            }
        }
        assert forall|k: Seq<char>| after.map().contains_key(k) implies after.map()[k]
            == before.map().insert(name, value)[k] by {
            let j = after.index_of(k);
            assert(after.entries[j].0@ == k);
            if k != name {
                assert(before.entries[j].0@ == k);
                let j2 = before.index_of(k);
                assert(before.entries[j2].0@ == k);
                assert(j2 == j);
            } else {
                assert(j == i);
            }
        }
        assert(after.map() =~= before.map().insert(name, value));
    }

    proof fn lemma_after_push(before: Self, after: Self, name: Seq<char>, value: V)
        requires
            before.wf(),
            !before.map().contains_key(name),
            after.entries.len() == before.entries.len() + 1,
            after.entries[before.entries.len() as int].0@ == name,
            after.entries[before.entries.len() as int].1 == value,
            forall|j: int| 0 <= j < before.entries.len() ==> after.entries[j] == before.entries[j],
        ensures
            after.wf(),
            after.map() == before.map().insert(name, value),
    {
        let n = before.entries.len() as int;
        assert(after.wf()) by {
            assert forall|a: int, b: int| 0 <= a < b < after.entries.len() implies (
            #[trigger] after.entries[a]).0@ != (#[trigger] after.entries[b]).0@ by {
                if b < n {
                    assert(before.entries[a].0@ != before.entries[b].0@);
                } else {
                    assert(before.entries[a].0@ == after.entries[a].0@);
                    if before.entries[a].0@ == name {
                        assert(before.map().contains_key(name));
                    }
                }
            }
        }
        assert forall|k: Seq<char>| after.map().contains_key(k) <==> before.map().insert(
            name,
            value,
        ).contains_key(k) by {
            if after.map().contains_key(k) {
                let j = choose|j: int| 0 <= j < after.entries.len() && (#[trigger] after.entries[j]).0@ == k;
                if j < n {
                    assert(before.entries[j].0@ == k);
                }
            }
            if before.map().contains_key(k) {
                let j = choose|j: int| 0 <= j < before.entries.len() && (#[trigger] before.entries[j]).0@ == k;
                assert(after.entries[j].0@ == k);
            }
            if k == name {
                assert(after.entries[n].0@ == k);
            }
        }
        assert forall|k: Seq<char>| after.map().contains_key(k) implies after.map()[k]
            == before.map().insert(name, value)[k] by {
            let j = after.index_of(k);
            assert(after.entries[j].0@ == k);
            if k != name {
                assert(j < n);
                assert(before.entries[j].0@ == k);
                let j2 = before.index_of(k);
                assert(before.entries[j2].0@ == k);
                assert(j2 == j);
            } else {
                if j < n {
                    assert(before.entries[j].0@ == k);
                    assert(before.map().contains_key(k));
                }
            }
        }
        assert(after.map() =~= before.map().insert(name, value));
    }
}

impl<T> NameTable<Vec<T>> {
    /// Adds `item` to the list under `name`, which starts empty.
    pub fn push_to(&mut self, name: &str, item: T)
        requires
            old(self).wf(),
        ensures
            final(self).wf(),
            final(self).map().dom() == old(self).map().dom().insert(name@),
            final(self).map()[name@]@ == (if old(self).map().contains_key(name@) {
                old(self).map()[name@]@
            } else {
                Seq::empty()
            }).push(item),
            forall|k: Seq<char>|
                k != name@ && old(self).map().contains_key(k) ==> final(self).map()[k] == old(
                    self,
                ).map()[k],
    {
        let place = self.position(name);
        let mut list: Vec<T> = Vec::new();
        if let Some(i) = place {
            let slot = &mut self.entries[i];
            core::mem::swap(&mut slot.1, &mut list);
        }
        list.push(item);
        let ghost mid = *self;
        proof {
            if let Some(i) = place {
                assert(mid.wf()) by {
                    assert forall|a: int, b: int| 0 <= a < b < mid.entries.len() implies (
                    #[trigger] mid.entries[a]).0@ != (#[trigger] mid.entries[b]).0@ by {
                        assert(old(self).entries[a].0@ != old(self).entries[b].0@);
                    }
                }
                assert(mid.map().dom() =~= old(self).map().dom()) by {
                    assert forall|k: Seq<char>| mid.map().contains_key(k) <==> old(
                        self,
                    ).map().contains_key(k) by {
                        if mid.map().contains_key(k) {
                            let j = choose|j: int| 0 <= j < mid.entries.len() && (#[trigger] mid.entries[j]).0@ == k;
                            assert(old(self).entries[j].0@ == k);
                        }
                        if old(self).map().contains_key(k) {
                            let j = choose|j: int| 0 <= j < old(self).entries.len() && (#[trigger] old(self).entries[j]).0@ == k;
                            assert(mid.entries[j].0@ == k);
                        }
                    }
                }
                assert forall|k: Seq<char>| k != name@ && old(self).map().contains_key(k) implies mid.map()[k]
                    == old(self).map()[k] by {
                    let j = old(self).index_of(k);
                    assert(mid.entries[j].0@ == k);
                    let j2 = mid.index_of(k);
                    assert(mid.map().contains_key(k));
                    assert(j2 == j);
                }
            }
        }
        let previous = self.insert(name.to_owned(), list);
        proof {
            assert(final(self).map().dom() =~= old(self).map().dom().insert(name@));
        }
    }
}

} // verus!
