use vstd::prelude::*;

verus! {

/// A record as the proofs see it: key and value as character sequences.
pub type RecordView = (Seq<char>, Seq<char>);

/// The mapping that a sequence of records denotes: each record, from first to
/// last, inserted into an initially empty map, so a later key overrides an
/// earlier one.
pub open spec fn map_of(rs: Seq<RecordView>) -> Map<Seq<char>, Seq<char>>
    decreases rs.len(),
{
    if rs.len() == 0 {
        Map::empty()
    } else {
        map_of(rs.drop_last()).insert(rs.last().0, rs.last().1)
    }
}

/// No two records share a key.
pub open spec fn keys_unique(rs: Seq<RecordView>) -> bool {
    forall|i: int, j: int|
        0 <= i < rs.len() && 0 <= j < rs.len() && i != j ==> #[trigger] rs[i].0 != #[trigger] rs[j].0
}

/// Some record has key `k`.
pub open spec fn has_key(rs: Seq<RecordView>, k: Seq<char>) -> bool {
    exists|i: int| 0 <= i < rs.len() && #[trigger] rs[i].0 == k
}

/// The keys of `map_of(rs)` are exactly the keys of the records.
pub proof fn lemma_map_of_dom(rs: Seq<RecordView>, k: Seq<char>)
    ensures
        map_of(rs).contains_key(k) <==> has_key(rs, k),
    decreases rs.len(),
{
    if rs.len() > 0 {
        let p = rs.drop_last();
        lemma_map_of_dom(p, k);
        if has_key(p, k) {
            let i = choose|i: int| 0 <= i < p.len() && #[trigger] p[i].0 == k;
            assert(rs[i].0 == k);
        }
        if has_key(rs, k) && rs.last().0 != k {
            let i = choose|i: int| 0 <= i < rs.len() && #[trigger] rs[i].0 == k;
            assert(p[i].0 == k);
        }
    }
}

/// With unique keys, the map sends each record's key to that record's value.
pub proof fn lemma_map_of_index(rs: Seq<RecordView>, i: int)
    requires
        keys_unique(rs),
        0 <= i < rs.len(),
    ensures
        map_of(rs).contains_key(rs[i].0),
        map_of(rs)[rs[i].0] == rs[i].1,
    decreases rs.len(),
{
    if i < rs.len() - 1 {
        let p = rs.drop_last();
        assert(p[i] == rs[i]);
        lemma_map_of_index(p, i);
        assert(rs[rs.len() - 1].0 != rs[i].0);
    }
}

/// The records after setting key `k` to `v`: the record with key `k` is
/// replaced in place, or a new record is appended when there is none.
pub open spec fn insert_record(rs: Seq<RecordView>, k: Seq<char>, v: Seq<char>) -> Seq<RecordView> {
    if has_key(rs, k) {
        rs.update(choose|i: int| 0 <= i < rs.len() && #[trigger] rs[i].0 == k, (k, v))
    } else {
        rs.push((k, v))
    }
}

/// Replacing the record of a key in place sets that key in the map.
pub proof fn lemma_map_of_update(rs: Seq<RecordView>, i: int, v: Seq<char>)
    requires
        keys_unique(rs),
        0 <= i < rs.len(),
    ensures
        keys_unique(rs.update(i, (rs[i].0, v))),
        map_of(rs.update(i, (rs[i].0, v))) == map_of(rs).insert(rs[i].0, v),
{
    let k = rs[i].0;
    let us = rs.update(i, (k, v));
    assert(keys_unique(us)) by {
        assert forall|a: int, b: int|
            0 <= a < us.len() && 0 <= b < us.len() && a != b implies #[trigger] us[a].0
            != #[trigger] us[b].0 by {
            assert(us[a].0 == rs[a].0 && us[b].0 == rs[b].0);
        }
    }
    assert forall|x: Seq<char>| #[trigger] map_of(us).contains_key(x) <==> map_of(rs).insert(k, v).contains_key(x) by {
        lemma_map_of_dom(us, x);
        lemma_map_of_dom(rs, x);
        if has_key(us, x) {
            let j = choose|j: int| 0 <= j < us.len() && #[trigger] us[j].0 == x;
            assert(rs[j].0 == x);
        }
        if has_key(rs, x) {
            let j = choose|j: int| 0 <= j < rs.len() && #[trigger] rs[j].0 == x;
            assert(us[j].0 == x);
        }
    }
    assert forall|x: Seq<char>| #[trigger] map_of(us).contains_key(x) implies map_of(us)[x]
        == map_of(rs).insert(k, v)[x] by {
        lemma_map_of_dom(us, x);
        let j = choose|j: int| 0 <= j < us.len() && #[trigger] us[j].0 == x;
        lemma_map_of_index(us, j);
        if j != i {
            lemma_map_of_index(rs, j);
        }
    }
    assert(map_of(us) =~= map_of(rs).insert(k, v));
}

/// Removing the record of a key removes that key from the map.
pub proof fn lemma_map_of_remove(rs: Seq<RecordView>, i: int)
    requires
        keys_unique(rs),
        0 <= i < rs.len(),
    ensures
        keys_unique(rs.remove(i)),
        map_of(rs.remove(i)) == map_of(rs).remove(rs[i].0),
{
    let k = rs[i].0;
    let us = rs.remove(i);
    assert forall|j: int| 0 <= j < us.len() implies #[trigger] us[j] == rs[if j < i { j } else { j + 1 }] by {}
    assert(keys_unique(us)) by {
        assert forall|a: int, b: int|
            0 <= a < us.len() && 0 <= b < us.len() && a != b implies #[trigger] us[a].0
            != #[trigger] us[b].0 by {
            assert(us[a] == rs[if a < i { a } else { a + 1 }]);
            assert(us[b] == rs[if b < i { b } else { b + 1 }]);
        }
    }
    assert forall|x: Seq<char>| #[trigger] map_of(us).contains_key(x) <==> map_of(rs).remove(k).contains_key(x) by {
        lemma_map_of_dom(us, x);
        lemma_map_of_dom(rs, x);
        if has_key(us, x) {
            let j = choose|j: int| 0 <= j < us.len() && #[trigger] us[j].0 == x;
            let jj = if j < i { j } else { j + 1 };
            assert(rs[jj].0 == x);
        }
        if has_key(rs, x) && x != k {
            let j = choose|j: int| 0 <= j < rs.len() && #[trigger] rs[j].0 == x;
            let jj = if j < i { j } else { j - 1 };
            assert(us[jj].0 == x);
        }
    }
    assert forall|x: Seq<char>| #[trigger] map_of(us).contains_key(x) implies map_of(us)[x]
        == map_of(rs).remove(k)[x] by {
        lemma_map_of_dom(us, x);
        let j = choose|j: int| 0 <= j < us.len() && #[trigger] us[j].0 == x;
        lemma_map_of_index(us, j);
        lemma_map_of_index(rs, if j < i { j } else { j + 1 });
    }
    assert(map_of(us) =~= map_of(rs).remove(k));
}

/// With unique keys there are as many keys in the map as records.
pub proof fn lemma_map_of_len(rs: Seq<RecordView>)
    requires
        keys_unique(rs),
    ensures
        map_of(rs).dom().finite(),
        map_of(rs).dom().len() == rs.len(),
    decreases rs.len(),
{
    if rs.len() > 0 {
        let p = rs.drop_last();
        assert(keys_unique(p)) by {
            assert forall|a: int, b: int|
                0 <= a < p.len() && 0 <= b < p.len() && a != b implies #[trigger] p[a].0
                != #[trigger] p[b].0 by {
                assert(p[a] == rs[a] && p[b] == rs[b]);
            }
        }
        lemma_map_of_len(p);
        lemma_map_of_dom(p, rs.last().0);
        if has_key(p, rs.last().0) {
            let j = choose|j: int| 0 <= j < p.len() && #[trigger] p[j].0 == rs.last().0;
            assert(rs[j].0 == rs[rs.len() - 1].0);
        }
    }
}

/// The store's mapping, keyed by text, with at most one record per key.
pub struct Store {
    entries: Vec<(String, String)>,
}

impl Store {
    /// The records in the order the store keeps them.
    pub closed spec fn records(&self) -> Seq<RecordView> {
        self.entries@.map_values(|e: (String, String)| (e.0@, e.1@))
    }

    /// The store's invariant: each key stands in one record only.
    pub open spec fn wf(&self) -> bool {
        keys_unique(self.records())
    }

    /// A store with no records.
    pub fn new() -> (r: Store)
        ensures
            r.wf(),
            r.records() == Seq::<RecordView>::empty(),
            r@ == Map::<Seq<char>, Seq<char>>::empty(),
    {
        let r = Store { entries: Vec::new() };
        assert(r.records() =~= Seq::<RecordView>::empty());
        r
    }

    /// The position of the record with key `k`, if there is one.
    fn find(&self, k: &String) -> (r: Option<usize>)
        ensures
            match r {
                Some(i) => i < self.records().len() && self.records()[i as int].0 == k@,
                None => !has_key(self.records(), k@),
            },
    {
        let mut i: usize = 0;
        while i < self.entries.len()
            invariant
                i <= self.entries.len(),
                forall|j: int| 0 <= j < i ==> #[trigger] self.records()[j].0 != k@,
            decreases self.entries.len() - i,
        {
            if self.entries[i].0 == *k {
                return Some(i);
            }
            i = i + 1;
        }
        None
    }

    /// Sets `key` to `value`, replacing the value it had.
    pub fn insert(&mut self, key: &str, value: &str)
        requires
            old(self).wf(),
        ensures
            final(self).wf(),
            final(self).records() == insert_record(old(self).records(), key@, value@),
            final(self)@ == old(self)@.insert(key@, value@),
    {
        let k = key.to_owned();
        let v = value.to_owned();
        let ghost rs = self.records();
        match self.find(&k) {
            Some(i) => {
                self.entries.set(i, (k, v));
                proof {
                    assert(self.records() =~= rs.update(i as int, (key@, value@)));
                    lemma_map_of_update(rs, i as int, value@);
                    let c = choose|j: int| 0 <= j < rs.len() && #[trigger] rs[j].0 == key@;
                    assert(c == i as int);
                }
            },
            None => {
                self.entries.push((k, v));
                proof {
                    let us = self.records();
                    assert(us =~= rs.push((key@, value@)));
                    assert(us.drop_last() =~= rs);
                    assert(keys_unique(us)) by {
                        assert forall|a: int, b: int|
                            0 <= a < us.len() && 0 <= b < us.len() && a != b implies #[trigger] us[a].0
                            != #[trigger] us[b].0 by {
                            if a < rs.len() && b < rs.len() {
                                assert(us[a] == rs[a] && us[b] == rs[b]);
                            } else if a < rs.len() {
                                assert(us[a] == rs[a]);
                            } else {
                                assert(us[b] == rs[b]);
                            }
                        }
                    }
                }
            },
        }
    }

    /// Removes the record of `key`; tells whether there was one.
    pub fn remove(&mut self, key: &str) -> (r: bool)
        requires
            old(self).wf(),
        ensures
            final(self).wf(),
            r == old(self)@.contains_key(key@),
            final(self)@ == old(self)@.remove(key@),
            !r ==> final(self).records() == old(self).records(),
    {
        let k = key.to_owned();
        let ghost rs = self.records();
        proof {
            lemma_map_of_dom(rs, key@);
        }
        match self.find(&k) {
            Some(i) => {
                self.entries.remove(i);
                proof {
                    assert(self.records() =~= rs.remove(i as int));
                    lemma_map_of_remove(rs, i as int);
                }
                true
            },
            None => {
                assert(map_of(rs).remove(key@) =~= map_of(rs));
                false
            },
        }
    }

    /// The value of `key`, if the store has one.
    pub fn get(&self, key: &str) -> (r: Option<String>)
        requires
            self.wf(),
        ensures
            match r {
                Some(v) => self@.contains_key(key@) && v@ == self@[key@],
                None => !self@.contains_key(key@),
            },
    {
        let k = key.to_owned();
        proof {
            lemma_map_of_dom(self.records(), key@);
        }
        match self.find(&k) {
            Some(i) => {
                proof {
                    lemma_map_of_index(self.records(), i as int);
                }
                Some(self.entries[i].1.clone())
            },
            None => None,
        }
    }

    /// The record at position `i`, as key and value.
    pub fn entry(&self, i: usize) -> (r: (&String, &String))
        requires
            i < self.records().len(),
        ensures
            (r.0@, r.1@) == self.records()[i as int],
    {
        (&self.entries[i].0, &self.entries[i].1)
    }

    /// The number of records, which is the number of keys in the mapping.
    pub fn len(&self) -> (r: usize)
        requires
            self.wf(),
        ensures
            r == self.records().len(),
            r == self@.dom().len(),
    {
        proof {
            lemma_map_of_len(self.records());
        }
        self.entries.len()
    }
}

impl View for Store {
    type V = Map<Seq<char>, Seq<char>>;

    open spec fn view(&self) -> Map<Seq<char>, Seq<char>> {
        map_of(self.records())
    }
}

} // verus!
