//! Keyed registries that bind a key to one datum and a set of identifiers.
//!
//! The coordinator keeps two of these in lock-step: block id → (block,
//! replica servers) and server id → (server info, stored blocks).  Keys and
//! identifiers are 128-bit values; the datum type is free.

use vstd::prelude::*;

verus! {

/// One binding: a key, its datum, and its identifier set (kept duplicate-free).
pub struct IdSetEntry<D> {
    pub key: u128,
    pub data: D,
    pub ids: Vec<u128>,
}

/// A map from key to a datum and a set of identifiers.
pub struct KeyToDataAndIdMap<D> {
    pub entries: Vec<IdSetEntry<D>>,
}

/// Whether `ids` holds `id`.
fn ids_contain(ids: &Vec<u128>, id: u128) -> (r: bool)
    ensures
        r == ids@.contains(id),
{
    let mut i: usize = 0;
    while i < ids.len()
        invariant
            i <= ids@.len(),
            forall|j: int| 0 <= j < i ==> ids@[j] != id,
        decreases ids@.len() - i,
    {
        if ids[i] == id {
            return true;
        }
        i = i + 1;
    }
    false
}

impl<D> KeyToDataAndIdMap<D> {
    /// Whether `key` is bound.
    pub open spec fn spec_contains_key(self, key: u128) -> bool {
        exists|i: int| 0 <= i < self.entries@.len() && self.entries@[i].key == key
    }

    /// The index of `key`'s entry.
    pub open spec fn spec_index_of(self, key: u128) -> int {
        choose|i: int| 0 <= i < self.entries@.len() && self.entries@[i].key == key
    }

    /// The datum bound to `key`.
    pub open spec fn spec_data(self, key: u128) -> D {
        self.entries@[self.spec_index_of(key)].data
    }

    /// Whether `id` belongs to `key`'s identifier set.
    pub open spec fn spec_has_id(self, key: u128, id: u128) -> bool {
        exists|i: int|
            0 <= i < self.entries@.len() && self.entries@[i].key == key
                && self.entries@[i].ids@.contains(id)
    }

    /// How many identifiers `key`'s set holds (0 if the key is unbound).
    pub open spec fn spec_num_ids(self, key: u128) -> nat {
        if self.spec_contains_key(key) {
            self.entries@[self.spec_index_of(key)].ids@.len()
        } else {
            0
        }
    }

    /// Keys are distinct and each identifier set is duplicate-free.
    pub open spec fn wf(self) -> bool {
        &&& forall|i: int, j: int|
            0 <= i < j < self.entries@.len() ==> self.entries@[i].key != self.entries@[j].key
        &&& forall|i: int, a: int, b: int|
            0 <= i < self.entries@.len() && 0 <= a < b < self.entries@[i].ids@.len()
                ==> self.entries@[i].ids@[a] != self.entries@[i].ids@[b]
    }

    pub fn new() -> (m: KeyToDataAndIdMap<D>)
        ensures
            m.wf(),
            forall|k: u128| !m.spec_contains_key(k),
            forall|k: u128, id: u128| !m.spec_has_id(k, id),
            forall|k: u128| m.spec_num_ids(k) == 0,
    {
        KeyToDataAndIdMap { entries: Vec::new() }
    }

    fn find(&self, key: u128) -> (r: Option<usize>)
        requires
            self.wf(),
        ensures
            match r {
                Some(i) => i < self.entries@.len() && self.entries@[i as int].key == key
                    && self.spec_contains_key(key) && self.spec_index_of(key) == i as int,
                None => !self.spec_contains_key(key),
            },
    {
        let mut i: usize = 0;
        while i < self.entries.len()
            invariant
                self.wf(),
                i <= self.entries@.len(),
                forall|j: int| 0 <= j < i ==> self.entries@[j].key != key,
            decreases self.entries@.len() - i,
        {
            if self.entries[i].key == key {
                proof {
                    let w = self.spec_index_of(key);
                    assert(self.entries@[i as int].key == key);
                    assert(0 <= w < self.entries@.len() && self.entries@[w].key == key);
                    assert(w == i as int);
                }
                return Some(i);
            }
            i = i + 1;
        }
        None
    }

    /// Whether `key` is bound.
    pub fn contains_key(&self, key: &u128) -> (r: bool)
        requires
            self.wf(),
        ensures
            r == self.spec_contains_key(*key),
    {
        self.find(*key).is_some()
    }

    /// Whether `id` belongs to `key`'s identifier set.
    pub fn contains_id_for_key(&self, key: &u128, id: &u128) -> (r: bool)
        requires
            self.wf(),
        ensures
            r == self.spec_has_id(*key, *id),
    {
        match self.find(*key) {
            Some(i) => {
                let r = ids_contain(&self.entries[i].ids, *id);
                proof {
                    if r {
                        assert(self.spec_has_id(*key, *id));
                    } else {
                        if self.spec_has_id(*key, *id) {
                            let w = choose|w: int|
                                0 <= w < self.entries@.len() && self.entries@[w].key == *key
                                    && self.entries@[w].ids@.contains(*id);
                            assert(w == i as int);
                        }
                    }
                }
                r
            },
            None => {
                proof {
                    if self.spec_has_id(*key, *id) {
                        let w = choose|w: int|
                            0 <= w < self.entries@.len() && self.entries@[w].key == *key
                                && self.entries@[w].ids@.contains(*id);
                        assert(self.spec_contains_key(*key));
                    }
                }
                false
            },
        }
    }

    /// Binds `data` to `key` with an empty identifier set; does nothing if
    /// `key` is already bound.
    pub fn insert_data(&mut self, key: u128, data: D)
        requires
            old(self).wf(),
        ensures
            final(self).wf(),
            forall|k: u128|
                final(self).spec_contains_key(k) <==> (old(self).spec_contains_key(k) || k
                    == key),
            forall|k: u128, id: u128|
                final(self).spec_has_id(k, id) == old(self).spec_has_id(k, id),
            forall|k: u128| final(self).spec_num_ids(k) == old(self).spec_num_ids(k),
            forall|k: u128|
                old(self).spec_contains_key(k) ==> final(self).spec_data(k) == old(
                    self,
                ).spec_data(k) && final(self).spec_index_of(k) == old(self).spec_index_of(k),
            !old(self).spec_contains_key(key) ==> final(self).spec_data(key) == data,
    {
        if self.find(key).is_none() {
            let ghost pre = *self;
            self.entries.push(IdSetEntry { key, data, ids: Vec::new() });
            proof {
                let m = pre.entries@.len() as int;
                assert(self.entries@.take(m) =~= pre.entries@);
                lemma_entry_pushed(pre, *self, key);
                assert(!old(self).spec_contains_key(key));
                assert(final(self).spec_data(key) == self.entries@[m].data);
            }
        }
    }

    /// Adds `id` to `key`'s identifier set, creating the binding (with
    /// `data`) if `key` is absent.  Returns whether `id` was not yet there.
    pub fn insert_id_for_key(&mut self, key: u128, data: D, id: u128) -> (r: bool)
        requires
            old(self).wf(),
        ensures
            final(self).wf(),
            r == !old(self).spec_has_id(key, id),
            forall|k: u128|
                final(self).spec_contains_key(k) <==> (old(self).spec_contains_key(k) || k
                    == key),
            forall|k: u128, id2: u128|
                final(self).spec_has_id(k, id2) <==> (old(self).spec_has_id(k, id2) || (k == key
                    && id2 == id)),
            forall|k: u128|
                old(self).spec_contains_key(k) ==> final(self).spec_data(k) == old(
                    self,
                ).spec_data(k),
            !old(self).spec_contains_key(key) ==> final(self).spec_data(key) == data,
            forall|k: u128| k != key ==> final(self).spec_num_ids(k) == old(self).spec_num_ids(k),
            r ==> final(self).spec_num_ids(key) == old(self).spec_num_ids(key) + 1,
            !r ==> final(self).spec_num_ids(key) == old(self).spec_num_ids(key),
    {
        let ghost pre = *self;
        match self.find(key) {
            Some(i) => {
                if ids_contain(&self.entries[i].ids, id) {
                    proof {
                        assert(old(self).spec_has_id(key, id));
                        assert forall|k: u128, id2: u128| #[trigger]
                            final(self).spec_has_id(k, id2) <==> (old(self).spec_has_id(k, id2)
                                || (k == key && id2 == id)) by {
                            if k == key && id2 == id {
                                assert(old(self).spec_has_id(key, id));
                            }
                        }
                    }
                    false
                } else {
                    let entry = &mut self.entries[i];
                    entry.ids.push(id);
                    proof {
                        lemma_id_pushed(pre, *self, i as int, id);
                        assert(!pre.spec_has_id(key, id)) by {
                            if pre.spec_has_id(key, id) {
                                let w = choose|w: int|
                                    0 <= w < pre.entries@.len() && pre.entries@[w].key == key
                                        && pre.entries@[w].ids@.contains(id);
                                assert(w == i as int);
                            }
                        }
                    }
                    true
                }
            },
            None => {
                let mut ids: Vec<u128> = Vec::new();
                ids.push(id);
                self.entries.push(IdSetEntry { key, data, ids });
                proof {
                    let m = pre.entries@.len() as int;
                    assert(self.entries@.take(m) =~= pre.entries@);
                    assert(self.entries@.last().ids@ =~= seq![id]);
                    lemma_entry_with_id_pushed(pre, *self, key, id);
                    assert(!pre.spec_has_id(key, id)) by {
                        if pre.spec_has_id(key, id) {
                            assert(pre.spec_contains_key(key));
                        }
                    }
                    assert(final(self).spec_data(key) == self.entries@[m].data);
                }
                true
            },
        }
    }

    /// Adds `id` to `key`'s identifier set if `key` is bound; returns whether
    /// it was.
    pub fn insert_id_for_key_if_present(&mut self, key: u128, id: u128) -> (r: bool)
        requires
            old(self).wf(),
        ensures
            final(self).wf(),
            r == old(self).spec_contains_key(key),
            forall|k: u128|
                final(self).spec_contains_key(k) == old(self).spec_contains_key(k),
            forall|k: u128|
                old(self).spec_contains_key(k) ==> final(self).spec_data(k) == old(
                    self,
                ).spec_data(k),
            r ==> forall|k: u128, id2: u128|
                final(self).spec_has_id(k, id2) <==> (old(self).spec_has_id(k, id2) || (k == key
                    && id2 == id)),
            !r ==> forall|k: u128, id2: u128|
                final(self).spec_has_id(k, id2) == old(self).spec_has_id(k, id2),
            forall|k: u128| k != key ==> final(self).spec_num_ids(k) == old(self).spec_num_ids(k),
            r && !old(self).spec_has_id(key, id) ==> final(self).spec_num_ids(key) == old(
                self,
            ).spec_num_ids(key) + 1,
            !(r && !old(self).spec_has_id(key, id)) ==> final(self).spec_num_ids(key) == old(
                self,
            ).spec_num_ids(key),
    {
        let ghost pre = *self;
        match self.find(key) {
            Some(i) => {
                if !ids_contain(&self.entries[i].ids, id) {
                    let entry = &mut self.entries[i];
                    entry.ids.push(id);
                    proof {
                        lemma_id_pushed(pre, *self, i as int, id);
                    }
                } else {
                    proof {
                        assert(pre.spec_has_id(key, id));
                        assert forall|k: u128, id2: u128| #[trigger]
                            final(self).spec_has_id(k, id2) <==> (pre.spec_has_id(k, id2) || (k
                                == key && id2 == id)) by {}
                    }
                }
                true
            },
            None => false,
        }
    }

    /// Replaces the datum bound to `key`, creating the binding (with an empty
    /// identifier set) if `key` is absent.
    pub fn update_data(&mut self, key: u128, data: D)
        requires
            old(self).wf(),
        ensures
            final(self).wf(),
            forall|k: u128|
                final(self).spec_contains_key(k) <==> (old(self).spec_contains_key(k) || k
                    == key),
            forall|k: u128, id: u128|
                final(self).spec_has_id(k, id) == old(self).spec_has_id(k, id),
            forall|k: u128|
                k != key && old(self).spec_contains_key(k) ==> final(self).spec_data(k) == old(
                    self,
                ).spec_data(k),
            final(self).spec_data(key) == data,
            forall|k: u128| final(self).spec_num_ids(k) == old(self).spec_num_ids(k),
    {
        let ghost pre = *self;
        match self.find(key) {
            Some(i) => {
                let entry = &mut self.entries[i];
                entry.data = data;
                proof {
                    lemma_data_updated(pre, *self, i as int);
                }
            },
            None => {
                self.entries.push(IdSetEntry { key, data, ids: Vec::new() });
                proof {
                    let m = pre.entries@.len() as int;
                    assert(self.entries@.take(m) =~= pre.entries@);
                    lemma_entry_pushed(pre, *self, key);
                    assert(final(self).spec_data(key) == self.entries@[m].data);
                }
            },
        }
    }

    /// Unbinds `key`, returning its datum.
    pub fn remove_key(&mut self, key: &u128) -> (r: Option<D>)
        requires
            old(self).wf(),
        ensures
            final(self).wf(),
            r is Some <==> old(self).spec_contains_key(*key),
            r matches Some(d) ==> d == old(self).spec_data(*key),
            forall|k: u128|
                final(self).spec_contains_key(k) <==> (old(self).spec_contains_key(k) && k
                    != *key),
            forall|k: u128, id: u128|
                final(self).spec_has_id(k, id) <==> (old(self).spec_has_id(k, id) && k != *key),
            forall|k: u128|
                k != *key && old(self).spec_contains_key(k) ==> final(self).spec_data(k) == old(
                    self,
                ).spec_data(k),
    {
        let ghost pre = *self;
        match self.find(*key) {
            Some(i) => {
                let entry = self.entries.swap_remove(i);
                proof {
                    lemma_entry_swap_removed(pre, *self, i as int);
                }
                Some(entry.data)
            },
            None => None,
        }
    }

    /// Removes `id` from `key`'s identifier set; returns whether it was there.
    pub fn remove_id_for_key(&mut self, key: &u128, id: &u128) -> (r: bool)
        requires
            old(self).wf(),
        ensures
            final(self).wf(),
            r == old(self).spec_has_id(*key, *id),
            forall|k: u128|
                final(self).spec_contains_key(k) == old(self).spec_contains_key(k),
            forall|k: u128|
                old(self).spec_contains_key(k) ==> final(self).spec_data(k) == old(
                    self,
                ).spec_data(k),
            forall|k: u128, id2: u128|
                final(self).spec_has_id(k, id2) <==> (old(self).spec_has_id(k, id2) && !(k
                    == *key && id2 == *id)),
    {
        let ghost pre = *self;
        match self.find(*key) {
            Some(i) => {
                let had = ids_contain(&self.entries[i].ids, *id);
                let kept = remove_id(&self.entries[i].ids, *id);
                let entry = &mut self.entries[i];
                entry.ids = kept;
                proof {
                    lemma_ids_filtered(pre, *self, i as int, *id);
                    if pre.spec_has_id(*key, *id) {
                        let w = choose|w: int|
                            0 <= w < pre.entries@.len() && pre.entries@[w].key == *key
                                && pre.entries@[w].ids@.contains(*id);
                        assert(w == i as int);
                    }
                }
                had
            },
            None => {
                proof {
                    if pre.spec_has_id(*key, *id) {
                        assert(pre.spec_contains_key(*key));
                    }
                }
                false
            },
        }
    }

    /// The datum bound to `key`, if any.
    pub fn get_data(&self, key: &u128) -> (r: Option<&D>)
        requires
            self.wf(),
        ensures
            match r {
                Some(d) => self.spec_contains_key(*key) && *d == self.spec_data(*key),
                None => !self.spec_contains_key(*key),
            },
    {
        match self.find(*key) {
            Some(i) => Some(&self.entries[i].data),
            None => None,
        }
    }

    /// The identifier set bound to `key`, if any.
    pub fn get_ids_for_key(&self, key: &u128) -> (r: Option<&Vec<u128>>)
        requires
            self.wf(),
        ensures
            match r {
                Some(v) => {
                    &&& self.spec_contains_key(*key)
                    &&& forall|id: u128| v@.contains(id) <==> self.spec_has_id(*key, id)
                    &&& forall|a: int, b: int| 0 <= a < b < v@.len() ==> v@[a] != v@[b]
                },
                None => !self.spec_contains_key(*key),
            },
    {
        match self.find(*key) {
            Some(i) => {
                proof {
                    assert forall|id: u128|
                        self.entries@[i as int].ids@.contains(id) <==> self.spec_has_id(
                            *key,
                            id,
                        ) by {
                        if self.spec_has_id(*key, id) {
                            let w = choose|w: int|
                                0 <= w < self.entries@.len() && self.entries@[w].key == *key
                                    && self.entries@[w].ids@.contains(id);
                            assert(w == i as int);
                        }
                    }
                }
                Some(&self.entries[i].ids)
            },
            None => None,
        }
    }
}

/// A copy of `ids` (kept duplicate-free) with `id` removed.
fn remove_id(ids: &Vec<u128>, id: u128) -> (r: Vec<u128>)
    requires
        forall|a: int, b: int| 0 <= a < b < ids@.len() ==> ids@[a] != ids@[b],
    ensures
        forall|x: u128| r@.contains(x) <==> (ids@.contains(x) && x != id),
        forall|a: int, b: int| 0 <= a < b < r@.len() ==> r@[a] != r@[b],
{
    let mut r: Vec<u128> = Vec::new();
    let mut i: usize = 0;
    while i < ids.len()
        invariant
            i <= ids@.len(),
            forall|a: int, b: int| 0 <= a < b < ids@.len() ==> ids@[a] != ids@[b],
            forall|x: u128| r@.contains(x) <==> (ids@.take(i as int).contains(x) && x != id),
            forall|a: int, b: int| 0 <= a < b < r@.len() ==> r@[a] != r@[b],
        decreases ids@.len() - i,
    {
        let cur = ids[i];
        let ghost prev = r@;
        if cur != id {
            r.push(cur);
        }
        proof {
            let tprev = ids@.take(i as int);
            let tnext = ids@.take(i + 1);
            assert forall|x: u128|
                r@.contains(x) <==> (ids@.take(i + 1).contains(x) && x != id) by {
                if r@.contains(x) {
                    let w = choose|w: int| 0 <= w < r@.len() && r@[w] == x;
                    if w < prev.len() {
                        assert(prev[w] == x);
                        assert(prev.contains(x));
                        let v = choose|v: int| 0 <= v < tprev.len() && tprev[v] == x;
                        assert(tnext[v] == x);
                        assert(tnext.contains(x));
                    } else {
                        assert(x == cur);
                        assert(tnext[i as int] == cur);
                        assert(tnext.contains(x));
                    }
                }
                if tnext.contains(x) && x != id {
                    let v = choose|v: int| 0 <= v < tnext.len() && tnext[v] == x;
                    if v < i {
                        assert(tprev[v] == x);
                        assert(tprev.contains(x));
                        assert(prev.contains(x));
                        let w = choose|w: int| 0 <= w < prev.len() && prev[w] == x;
                        assert(r@[w] == x);
                        assert(r@.contains(x));
                    } else {
                        assert(x == cur && cur != id);
                        assert(r@[r@.len() - 1] == cur);
                        assert(r@.contains(x));
                    }
                }
            }
            assert forall|a: int, b: int|
                0 <= a < b < r@.len() implies r@[a] != r@[b] by {
                if b == r@.len() - 1 && r@.len() > prev.len() {
                    assert(r@[b] == cur);
                    assert(prev[a] == r@[a]);
                    assert(prev.contains(r@[a]));
                    let v = choose|v: int| 0 <= v < tprev.len() && tprev[v] == r@[a];
                    assert(ids@[v] == r@[a]);
                    assert(ids@[i as int] == cur);
                }
            }
        }
        i = i + 1;
    }
    proof {
        assert(ids@.take(ids@.len() as int) =~= ids@);
    }
    r
}

/// After pushing a fresh entry for `key` with no identifiers.
proof fn lemma_entry_pushed<D>(pre: KeyToDataAndIdMap<D>, post: KeyToDataAndIdMap<D>, key: u128)
    requires
        pre.wf(),
        !pre.spec_contains_key(key),
        post.entries@.len() == pre.entries@.len() + 1,
        post.entries@.take(pre.entries@.len() as int) == pre.entries@,
        post.entries@.last().key == key,
        post.entries@.last().ids@.len() == 0,
    ensures
        post.wf(),
        forall|k: u128| post.spec_contains_key(k) <==> (pre.spec_contains_key(k) || k == key),
        forall|k: u128, id: u128| post.spec_has_id(k, id) == pre.spec_has_id(k, id),
        forall|k: u128|
            pre.spec_contains_key(k) ==> post.spec_data(k) == pre.spec_data(k)
                && post.spec_index_of(k) == pre.spec_index_of(k),
        post.spec_data(key) == post.entries@.last().data,
        forall|k: u128| post.spec_num_ids(k) == pre.spec_num_ids(k),
{
    let m = pre.entries@.len() as int;
    assert(forall|i: int| 0 <= i < m ==> post.entries@[i] == pre.entries@[i]);
    assert forall|k: u128| post.spec_contains_key(k) <==> (pre.spec_contains_key(k) || k
        == key) by {
        if post.spec_contains_key(k) {
            let w = choose|i: int|
                0 <= i < post.entries@.len() && post.entries@[i].key == k;
            if w < m {
                assert(pre.spec_contains_key(k));
            }
        }
        if pre.spec_contains_key(k) {
            let w = choose|i: int| 0 <= i < pre.entries@.len() && pre.entries@[i].key == k;
            assert(post.entries@[w].key == k);
        }
        if k == key {
            assert(post.entries@[m].key == key);
        }
    }
    assert forall|k: u128, id: u128| post.spec_has_id(k, id) == pre.spec_has_id(k, id) by {
        if post.spec_has_id(k, id) {
            let w = choose|i: int|
                0 <= i < post.entries@.len() && post.entries@[i].key == k
                    && post.entries@[i].ids@.contains(id);
            if w < m {
                assert(pre.spec_has_id(k, id));
            } else {
                assert(post.entries@[w].ids@.len() == 0);
            }
        }
        if pre.spec_has_id(k, id) {
            let w = choose|i: int|
                0 <= i < pre.entries@.len() && pre.entries@[i].key == k
                    && pre.entries@[i].ids@.contains(id);
            assert(post.entries@[w].key == k && post.entries@[w].ids@.contains(id));
        }
    }
    assert forall|k: u128| pre.spec_contains_key(k) implies post.spec_data(k) == pre.spec_data(k)
        && post.spec_index_of(k) == pre.spec_index_of(k) by {
        let w = pre.spec_index_of(k);
        assert(0 <= w < m && pre.entries@[w].key == k);
        assert(post.entries@[w].key == k);
        let w2 = post.spec_index_of(k);
        assert(0 <= w2 < post.entries@.len() && post.entries@[w2].key == k);
        if w2 != w {
            if w2 < m {
                assert(pre.entries@[w2].key == k);
            } else {
                assert(k == key);
                assert(pre.spec_contains_key(key));
            }
        }
    }
    let wk = post.spec_index_of(key);
    assert(post.entries@[m].key == key);
    assert(0 <= wk < post.entries@.len() && post.entries@[wk].key == key);
    if wk != m {
        assert(pre.entries@[wk].key == key);
        assert(pre.spec_contains_key(key));
    }
    assert forall|k: u128| post.spec_num_ids(k) == pre.spec_num_ids(k) by {
        if pre.spec_contains_key(k) {
            assert(post.spec_index_of(k) == pre.spec_index_of(k));
            assert(post.entries@[pre.spec_index_of(k)] == pre.entries@[pre.spec_index_of(k)]);
        } else if k == key {
            assert(post.spec_index_of(key) == m);
            assert(post.entries@[m].ids@.len() == 0);
        } else {
            assert(!post.spec_contains_key(k));
        }
    }
}

/// After pushing a fresh entry for `key` whose identifier set is `[id]`.
proof fn lemma_entry_with_id_pushed<D>(
    pre: KeyToDataAndIdMap<D>,
    post: KeyToDataAndIdMap<D>,
    key: u128,
    id: u128,
)
    requires
        pre.wf(),
        !pre.spec_contains_key(key),
        post.entries@.len() == pre.entries@.len() + 1,
        post.entries@.take(pre.entries@.len() as int) == pre.entries@,
        post.entries@.last().key == key,
        post.entries@.last().ids@ == seq![id],
    ensures
        post.wf(),
        forall|k: u128| post.spec_contains_key(k) <==> (pre.spec_contains_key(k) || k == key),
        forall|k: u128, id2: u128|
            post.spec_has_id(k, id2) <==> (pre.spec_has_id(k, id2) || (k == key && id2 == id)),
        forall|k: u128| pre.spec_contains_key(k) ==> post.spec_data(k) == pre.spec_data(k),
        post.spec_data(key) == post.entries@.last().data,
        forall|k: u128| k != key ==> post.spec_num_ids(k) == pre.spec_num_ids(k),
        post.spec_num_ids(key) == 1,
{
    let m = pre.entries@.len() as int;
    assert(forall|i: int| 0 <= i < m ==> post.entries@[i] == pre.entries@[i]);
    assert forall|k: u128| post.spec_contains_key(k) <==> (pre.spec_contains_key(k) || k
        == key) by {
        if post.spec_contains_key(k) {
            let w = choose|i: int|
                0 <= i < post.entries@.len() && post.entries@[i].key == k;
            if w < m {
                assert(pre.spec_contains_key(k));
            }
        }
        if pre.spec_contains_key(k) {
            let w = choose|i: int| 0 <= i < pre.entries@.len() && pre.entries@[i].key == k;
            assert(post.entries@[w].key == k);
        }
        if k == key {
            assert(post.entries@[m].key == key);
        }
    }
    assert forall|k: u128| k != key implies post.spec_num_ids(k) == pre.spec_num_ids(k) by {
        if pre.spec_contains_key(k) {
            let w = pre.spec_index_of(k);
            assert(0 <= w < m && pre.entries@[w].key == k);
            assert(post.entries@[w].key == k);
            let w2 = post.spec_index_of(k);
            assert(0 <= w2 < post.entries@.len() && post.entries@[w2].key == k);
            if w2 != w {
                if w2 < m {
                    assert(pre.entries@[w2].key == k);
                } else {
                    assert(k == key);
                }
            }
            assert(post.entries@[w] == pre.entries@[w]);
        } else {
            assert(!post.spec_contains_key(k));
        }
    }
    assert(post.spec_num_ids(key) == 1) by {
        let wk = post.spec_index_of(key);
        assert(post.entries@[m].key == key);
        assert(0 <= wk < post.entries@.len() && post.entries@[wk].key == key);
        if wk != m {
            assert(pre.entries@[wk].key == key);
            assert(pre.spec_contains_key(key));
        }
        assert(post.entries@[m].ids@.len() == 1);
    }
    assert forall|k: u128, id2: u128|
        post.spec_has_id(k, id2) <==> (pre.spec_has_id(k, id2) || (k == key && id2 == id)) by {
        if post.spec_has_id(k, id2) {
            let w = choose|i: int|
                0 <= i < post.entries@.len() && post.entries@[i].key == k
                    && post.entries@[i].ids@.contains(id2);
            if w < m {
                assert(pre.spec_has_id(k, id2));
            } else {
                assert(post.entries@[w].ids@ == seq![id]);
                assert(post.entries@[w].ids@[0] == id);
            }
        }
        if pre.spec_has_id(k, id2) {
            let w = choose|i: int|
                0 <= i < pre.entries@.len() && pre.entries@[i].key == k
                    && pre.entries@[i].ids@.contains(id2);
            assert(post.entries@[w].key == k && post.entries@[w].ids@.contains(id2));
        }
        if k == key && id2 == id {
            assert(post.entries@[m].ids@[0] == id);
            assert(post.entries@[m].ids@.contains(id));
        }
    }
    assert forall|k: u128| pre.spec_contains_key(k) implies post.spec_data(k) == pre.spec_data(
        k,
    ) by {
        let w = pre.spec_index_of(k);
        assert(0 <= w < m && pre.entries@[w].key == k);
        assert(post.entries@[w].key == k);
        let w2 = post.spec_index_of(k);
        if w2 != w {
            if w2 < m {
                assert(pre.entries@[w2].key == k);
            } else {
                assert(pre.spec_contains_key(key));
            }
        }
    }
    let wk = post.spec_index_of(key);
    assert(post.entries@[m].key == key);
    if wk != m {
        assert(pre.entries@[wk].key == key);
        assert(pre.spec_contains_key(key));
    }
}

/// After pushing `id` onto the identifier set of the entry at `i`.
proof fn lemma_id_pushed<D>(
    pre: KeyToDataAndIdMap<D>,
    post: KeyToDataAndIdMap<D>,
    i: int,
    id: u128,
)
    requires
        pre.wf(),
        0 <= i < pre.entries@.len(),
        !pre.entries@[i].ids@.contains(id),
        post.entries@.len() == pre.entries@.len(),
        forall|j: int| 0 <= j < pre.entries@.len() && j != i ==> post.entries@[j] == pre.entries@[j],
        post.entries@[i].key == pre.entries@[i].key,
        post.entries@[i].data == pre.entries@[i].data,
        post.entries@[i].ids@ == pre.entries@[i].ids@.push(id),
    ensures
        post.wf(),
        forall|k: u128| post.spec_contains_key(k) == pre.spec_contains_key(k),
        forall|k: u128| pre.spec_contains_key(k) ==> post.spec_data(k) == pre.spec_data(k),
        forall|k: u128, id2: u128|
            post.spec_has_id(k, id2) <==> (pre.spec_has_id(k, id2) || (k == pre.entries@[i].key
                && id2 == id)),
        forall|k: u128|
            k != pre.entries@[i].key ==> post.spec_num_ids(k) == pre.spec_num_ids(k),
        post.spec_num_ids(pre.entries@[i].key) == pre.spec_num_ids(pre.entries@[i].key) + 1,
{
    let key = pre.entries@[i].key;
    assert(post.wf()) by {
        assert forall|w: int, a: int, b: int|
            0 <= w < post.entries@.len() && 0 <= a < b < post.entries@[w].ids@.len()
                implies post.entries@[w].ids@[a] != post.entries@[w].ids@[b] by {
            if w == i {
                if b == post.entries@[i].ids@.len() - 1 {
                    assert(post.entries@[i].ids@[a] == pre.entries@[i].ids@[a]);
                    assert(pre.entries@[i].ids@.contains(pre.entries@[i].ids@[a]));
                }
            }
        }
    }
    assert forall|k: u128| post.spec_contains_key(k) == pre.spec_contains_key(k) by {
        if post.spec_contains_key(k) {
            let w = choose|j: int|
                0 <= j < post.entries@.len() && post.entries@[j].key == k;
            assert(pre.entries@[w].key == k);
        }
        if pre.spec_contains_key(k) {
            let w = choose|j: int| 0 <= j < pre.entries@.len() && pre.entries@[j].key == k;
            assert(post.entries@[w].key == k);
        }
    }
    assert forall|k: u128| pre.spec_contains_key(k) implies post.spec_data(k) == pre.spec_data(
        k,
    ) by {
        let w = pre.spec_index_of(k);
        assert(0 <= w < pre.entries@.len() && pre.entries@[w].key == k);
        assert(post.entries@[w].key == k);
        let w2 = post.spec_index_of(k);
        assert(0 <= w2 < post.entries@.len() && post.entries@[w2].key == k);
        assert(pre.entries@[w2].key == k);
        if w2 != w {
            assert(false);
        }
    }
    assert forall|k: u128, id2: u128|
        post.spec_has_id(k, id2) <==> (pre.spec_has_id(k, id2) || (k == key && id2 == id)) by {
        if post.spec_has_id(k, id2) {
            let w = choose|j: int|
                0 <= j < post.entries@.len() && post.entries@[j].key == k
                    && post.entries@[j].ids@.contains(id2);
            if w != i {
                assert(pre.spec_has_id(k, id2));
            } else {
                let a = choose|a: int|
                    0 <= a < post.entries@[i].ids@.len() && post.entries@[i].ids@[a] == id2;
                if a < pre.entries@[i].ids@.len() {
                    assert(pre.entries@[i].ids@.contains(id2));
                    assert(pre.spec_has_id(k, id2));
                } else {
                    assert(id2 == id && k == key);
                }
            }
        }
        if pre.spec_has_id(k, id2) {
            let w = choose|j: int|
                0 <= j < pre.entries@.len() && pre.entries@[j].key == k
                    && pre.entries@[j].ids@.contains(id2);
            if w != i {
                assert(post.entries@[w].ids@.contains(id2));
            } else {
                let a = choose|a: int|
                    0 <= a < pre.entries@[i].ids@.len() && pre.entries@[i].ids@[a] == id2;
                assert(post.entries@[i].ids@[a] == id2);
                assert(post.entries@[i].ids@.contains(id2));
            }
        }
        if k == key && id2 == id {
            assert(post.entries@[i].ids@.last() == id);
            assert(post.entries@[i].ids@.contains(id));
        }
    }
    assert forall|k: u128| k != key implies post.spec_num_ids(k) == pre.spec_num_ids(k) by {
        if pre.spec_contains_key(k) {
            let w = pre.spec_index_of(k);
            assert(0 <= w < pre.entries@.len() && pre.entries@[w].key == k);
            assert(w != i);
            assert(post.entries@[w].key == k);
            let w2 = post.spec_index_of(k);
            assert(pre.entries@[w2].key == k);
            if w2 != w {
                assert(false);
            }
            assert(post.entries@[w] == pre.entries@[w]);
        } else {
            assert(!post.spec_contains_key(k));
        }
    }
    assert(post.spec_num_ids(key) == pre.spec_num_ids(key) + 1) by {
        let w = pre.spec_index_of(key);
        assert(pre.entries@[i].key == key);
        assert(0 <= w < pre.entries@.len() && pre.entries@[w].key == key);
        if w != i {
            assert(false);
        }
        let w2 = post.spec_index_of(key);
        assert(post.entries@[i].key == key);
        assert(pre.entries@[w2].key == key);
        if w2 != i {
            assert(false);
        }
        assert(post.entries@[i].ids@.len() == pre.entries@[i].ids@.len() + 1);
    }
}

/// After replacing the datum of the entry at `i`.
proof fn lemma_data_updated<D>(pre: KeyToDataAndIdMap<D>, post: KeyToDataAndIdMap<D>, i: int)
    requires
        pre.wf(),
        0 <= i < pre.entries@.len(),
        post.entries@.len() == pre.entries@.len(),
        forall|j: int| 0 <= j < pre.entries@.len() && j != i ==> post.entries@[j] == pre.entries@[j],
        post.entries@[i].key == pre.entries@[i].key,
        post.entries@[i].ids == pre.entries@[i].ids,
    ensures
        post.wf(),
        forall|k: u128| post.spec_contains_key(k) == pre.spec_contains_key(k),
        forall|k: u128, id: u128| post.spec_has_id(k, id) == pre.spec_has_id(k, id),
        forall|k: u128|
            k != pre.entries@[i].key && pre.spec_contains_key(k) ==> post.spec_data(k)
                == pre.spec_data(k),
        pre.spec_contains_key(pre.entries@[i].key),
        post.spec_data(pre.entries@[i].key) == post.entries@[i].data,
{
    let key = pre.entries@[i].key;
    assert forall|k: u128| post.spec_contains_key(k) == pre.spec_contains_key(k) by {
        if post.spec_contains_key(k) {
            let w = choose|j: int|
                0 <= j < post.entries@.len() && post.entries@[j].key == k;
            assert(pre.entries@[w].key == k);
        }
        if pre.spec_contains_key(k) {
            let w = choose|j: int| 0 <= j < pre.entries@.len() && pre.entries@[j].key == k;
            assert(post.entries@[w].key == k);
        }
    }
    assert forall|k: u128, id: u128| post.spec_has_id(k, id) == pre.spec_has_id(k, id) by {
        if post.spec_has_id(k, id) {
            let w = choose|j: int|
                0 <= j < post.entries@.len() && post.entries@[j].key == k
                    && post.entries@[j].ids@.contains(id);
            assert(pre.entries@[w].key == k && pre.entries@[w].ids@.contains(id));
        }
        if pre.spec_has_id(k, id) {
            let w = choose|j: int|
                0 <= j < pre.entries@.len() && pre.entries@[j].key == k
                    && pre.entries@[j].ids@.contains(id);
            assert(post.entries@[w].key == k && post.entries@[w].ids@.contains(id));
        }
    }
    assert forall|k: u128|
        k != key && pre.spec_contains_key(k) implies post.spec_data(k) == pre.spec_data(k) by {
        let w = pre.spec_index_of(k);
        assert(0 <= w < pre.entries@.len() && pre.entries@[w].key == k);
        assert(w != i);
        assert(post.entries@[w].key == k);
        let w2 = post.spec_index_of(k);
        assert(pre.entries@[w2].key == k);
        if w2 != w {
            assert(false);
        }
    }
    assert(pre.entries@[i].key == key);
    let w2 = post.spec_index_of(key);
    assert(post.entries@[i].key == key);
    assert(0 <= w2 < post.entries@.len() && post.entries@[w2].key == key);
    if w2 != i {
        assert(pre.entries@[w2].key == key);
        assert(false);
    }
}

/// After `swap_remove` of the entry at `i`.
proof fn lemma_entry_swap_removed<D>(
    pre: KeyToDataAndIdMap<D>,
    post: KeyToDataAndIdMap<D>,
    i: int,
)
    requires
        pre.wf(),
        0 <= i < pre.entries@.len(),
        post.entries@ == pre.entries@.update(i, pre.entries@.last()).drop_last(),
    ensures
        post.wf(),
        forall|k: u128|
            post.spec_contains_key(k) <==> (pre.spec_contains_key(k) && k
                != pre.entries@[i].key),
        forall|k: u128, id: u128|
            post.spec_has_id(k, id) <==> (pre.spec_has_id(k, id) && k != pre.entries@[i].key),
        forall|k: u128|
            k != pre.entries@[i].key && pre.spec_contains_key(k) ==> post.spec_data(k)
                == pre.spec_data(k),
    decreases 0int,
{
    let key = pre.entries@[i].key;
    let m = pre.entries@.len() - 1;
    assert(post.entries@.len() == m);
    assert forall|j: int| 0 <= j < m implies post.entries@[j] == (if j == i {
        pre.entries@[m]
    } else {
        pre.entries@[j]
    }) by {}
    assert forall|k: u128|
        post.spec_contains_key(k) <==> (pre.spec_contains_key(k) && k != key) by {
        if post.spec_contains_key(k) {
            let w = choose|j: int|
                0 <= j < post.entries@.len() && post.entries@[j].key == k;
            if w == i {
                assert(pre.entries@[m].key == k);
                if m != i {
                    assert(k != key);
                }
                assert(pre.spec_contains_key(k));
            } else {
                assert(pre.entries@[w].key == k);
                assert(k != key);
                assert(pre.spec_contains_key(k));
            }
        }
        if pre.spec_contains_key(k) && k != key {
            let w = choose|j: int| 0 <= j < pre.entries@.len() && pre.entries@[j].key == k;
            assert(w != i);
            if w == m {
                assert(i < m);
                assert(post.entries@[i].key == k);
            } else {
                assert(post.entries@[w].key == k);
            }
        }
    }
    assert forall|k: u128, id: u128|
        post.spec_has_id(k, id) <==> (pre.spec_has_id(k, id) && k != key) by {
        if post.spec_has_id(k, id) {
            let w = choose|j: int|
                0 <= j < post.entries@.len() && post.entries@[j].key == k
                    && post.entries@[j].ids@.contains(id);
            if w == i {
                assert(pre.entries@[m].key == k && pre.entries@[m].ids@.contains(id));
                if m != i {
                    assert(k != key);
                }
                assert(pre.spec_has_id(k, id));
            } else {
                assert(pre.entries@[w].key == k && pre.entries@[w].ids@.contains(id));
                assert(k != key);
                assert(pre.spec_has_id(k, id));
            }
        }
        if pre.spec_has_id(k, id) && k != key {
            let w = choose|j: int|
                0 <= j < pre.entries@.len() && pre.entries@[j].key == k
                    && pre.entries@[j].ids@.contains(id);
            assert(w != i);
            if w == m {
                assert(i < m);
                assert(post.entries@[i].key == k && post.entries@[i].ids@.contains(id));
            } else {
                assert(post.entries@[w].key == k && post.entries@[w].ids@.contains(id));
            }
        }
    }
    assert forall|k: u128|
        k != key && pre.spec_contains_key(k) implies post.spec_data(k) == pre.spec_data(k) by {
        let w = pre.spec_index_of(k);
        assert(0 <= w < pre.entries@.len() && pre.entries@[w].key == k);
        assert(w != i);
        let v = if w == m { i } else { w };
        assert(post.entries@[v].key == k && post.entries@[v].data == pre.entries@[w].data);
        let w2 = post.spec_index_of(k);
        assert(0 <= w2 < post.entries@.len() && post.entries@[w2].key == k);
        if w2 != v {
            if w2 == i {
                assert(pre.entries@[m].key == k);
                assert(m == w);
            } else {
                assert(pre.entries@[w2].key == k);
                assert(w2 == w);
                assert(v == w);
            }
        }
    }
}

/// After removing `id` from the identifier set of the entry at `i`.
proof fn lemma_ids_filtered<D>(
    pre: KeyToDataAndIdMap<D>,
    post: KeyToDataAndIdMap<D>,
    i: int,
    id: u128,
)
    requires
        pre.wf(),
        0 <= i < pre.entries@.len(),
        post.entries@.len() == pre.entries@.len(),
        forall|j: int| 0 <= j < pre.entries@.len() && j != i ==> post.entries@[j] == pre.entries@[j],
        post.entries@[i].key == pre.entries@[i].key,
        post.entries@[i].data == pre.entries@[i].data,
        forall|x: u128|
            post.entries@[i].ids@.contains(x) <==> (pre.entries@[i].ids@.contains(x) && x != id),
        forall|a: int, b: int|
            0 <= a < b < post.entries@[i].ids@.len() ==> post.entries@[i].ids@[a]
                != post.entries@[i].ids@[b],
    ensures
        post.wf(),
        forall|k: u128| post.spec_contains_key(k) == pre.spec_contains_key(k),
        forall|k: u128| pre.spec_contains_key(k) ==> post.spec_data(k) == pre.spec_data(k),
        forall|k: u128, id2: u128|
            post.spec_has_id(k, id2) <==> (pre.spec_has_id(k, id2) && !(k == pre.entries@[i].key
                && id2 == id)),
{
    let key = pre.entries@[i].key;
    assert(post.wf());
    assert forall|k: u128| post.spec_contains_key(k) == pre.spec_contains_key(k) by {
        if post.spec_contains_key(k) {
            let w = choose|j: int|
                0 <= j < post.entries@.len() && post.entries@[j].key == k;
            assert(pre.entries@[w].key == k);
        }
        if pre.spec_contains_key(k) {
            let w = choose|j: int| 0 <= j < pre.entries@.len() && pre.entries@[j].key == k;
            assert(post.entries@[w].key == k);
        }
    }
    assert forall|k: u128| pre.spec_contains_key(k) implies post.spec_data(k) == pre.spec_data(
        k,
    ) by {
        let w = pre.spec_index_of(k);
        assert(0 <= w < pre.entries@.len() && pre.entries@[w].key == k);
        assert(post.entries@[w].key == k);
        let w2 = post.spec_index_of(k);
        assert(pre.entries@[w2].key == k);
        if w2 != w {
            assert(false);
        }
    }
    assert forall|k: u128, id2: u128|
        post.spec_has_id(k, id2) <==> (pre.spec_has_id(k, id2) && !(k == key && id2 == id)) by {
        if post.spec_has_id(k, id2) {
            let w = choose|j: int|
                0 <= j < post.entries@.len() && post.entries@[j].key == k
                    && post.entries@[j].ids@.contains(id2);
            if w != i {
                assert(pre.spec_has_id(k, id2));
                if k == key {
                    assert(pre.entries@[w].key == key);
                    assert(false);
                }
            } else {
                assert(pre.entries@[i].ids@.contains(id2) && id2 != id);
                assert(pre.spec_has_id(k, id2));
            }
        }
        if pre.spec_has_id(k, id2) && !(k == key && id2 == id) {
            let w = choose|j: int|
                0 <= j < pre.entries@.len() && pre.entries@[j].key == k
                    && pre.entries@[j].ids@.contains(id2);
            if w != i {
                assert(post.entries@[w].key == k && post.entries@[w].ids@.contains(id2));
            } else {
                assert(k == key);
                assert(id2 != id);
                assert(post.entries@[i].ids@.contains(id2));
            }
        }
    }
}

/// A map from block id to the block and the servers that hold a replica.
pub struct BlockIdToDatanodeMap<B> {
    pub inner: KeyToDataAndIdMap<B>,
}

impl<B> BlockIdToDatanodeMap<B> {
    /// Whether the block is known.
    pub open spec fn spec_contains_block(self, block_id: u128) -> bool {
        self.inner.spec_contains_key(block_id)
    }

    /// The block stored under `block_id`.
    pub open spec fn spec_block(self, block_id: u128) -> B {
        self.inner.spec_data(block_id)
    }

    /// Whether `datanode_id` holds a replica of `block_id`.
    pub open spec fn spec_has_datanode(self, block_id: u128, datanode_id: u128) -> bool {
        self.inner.spec_has_id(block_id, datanode_id)
    }

    pub open spec fn wf(self) -> bool {
        self.inner.wf()
    }

    pub fn new() -> (m: BlockIdToDatanodeMap<B>)
        ensures
            m.wf(),
            forall|b: u128| !m.spec_contains_block(b),
            forall|b: u128, d: u128| !m.spec_has_datanode(b, d),
    {
        BlockIdToDatanodeMap { inner: KeyToDataAndIdMap::new() }
    }

    /// Whether the block is known.
    pub fn contains_block(&self, block_id: &u128) -> (r: bool)
        requires
            self.wf(),
        ensures
            r == self.spec_contains_block(*block_id),
    {
        self.inner.contains_key(block_id)
    }

    /// Whether `datanode_id` holds a replica of `block_id`.
    pub fn contains_datanode_for_block(&self, block_id: &u128, datanode_id: &u128) -> (r: bool)
        requires
            self.wf(),
        ensures
            r == self.spec_has_datanode(*block_id, *datanode_id),
    {
        self.inner.contains_id_for_key(block_id, datanode_id)
    }

    /// Records the block with no replicas; does nothing if it is known.
    pub fn insert_block(&mut self, block_id: u128, block: B)
        requires
            old(self).wf(),
        ensures
            final(self).wf(),
            forall|b: u128|
                final(self).spec_contains_block(b) <==> (old(self).spec_contains_block(b) || b
                    == block_id),
            forall|b: u128, d: u128|
                final(self).spec_has_datanode(b, d) == old(self).spec_has_datanode(b, d),
            forall|b: u128|
                old(self).spec_contains_block(b) ==> final(self).spec_block(b) == old(
                    self,
                ).spec_block(b),
            !old(self).spec_contains_block(block_id) ==> final(self).spec_block(block_id)
                == block,
    {
        self.inner.insert_data(block_id, block)
    }

    /// Records that `datanode_id` holds a replica of the block, creating the
    /// block entry if needed.  Returns whether the replica is new.
    pub fn insert_datanode_for_block(&mut self, block_id: u128, block: B, datanode_id: u128) -> (r:
        bool)
        requires
            old(self).wf(),
        ensures
            final(self).wf(),
            r == !old(self).spec_has_datanode(block_id, datanode_id),
            forall|b: u128|
                final(self).spec_contains_block(b) <==> (old(self).spec_contains_block(b) || b
                    == block_id),
            forall|b: u128, d: u128|
                final(self).spec_has_datanode(b, d) <==> (old(self).spec_has_datanode(b, d) || (b
                    == block_id && d == datanode_id)),
            forall|b: u128|
                old(self).spec_contains_block(b) ==> final(self).spec_block(b) == old(
                    self,
                ).spec_block(b),
            !old(self).spec_contains_block(block_id) ==> final(self).spec_block(block_id)
                == block,
    {
        self.inner.insert_id_for_key(block_id, block, datanode_id)
    }

    /// Forgets that `datanode_id` holds a replica; returns whether it did.
    pub fn remove_datanode_for_block(&mut self, block_id: &u128, datanode_id: &u128) -> (r: bool)
        requires
            old(self).wf(),
        ensures
            final(self).wf(),
            r == old(self).spec_has_datanode(*block_id, *datanode_id),
            forall|b: u128|
                final(self).spec_contains_block(b) == old(self).spec_contains_block(b),
            forall|b: u128|
                old(self).spec_contains_block(b) ==> final(self).spec_block(b) == old(
                    self,
                ).spec_block(b),
            forall|b: u128, d: u128|
                final(self).spec_has_datanode(b, d) <==> (old(self).spec_has_datanode(b, d) && !(b
                    == *block_id && d == *datanode_id)),
    {
        self.inner.remove_id_for_key(block_id, datanode_id)
    }

    /// The block stored under `block_id`, if known.
    pub fn get_block(&self, block_id: &u128) -> (r: Option<&B>)
        requires
            self.wf(),
        ensures
            match r {
                Some(b) => self.spec_contains_block(*block_id) && *b == self.spec_block(
                    *block_id,
                ),
                None => !self.spec_contains_block(*block_id),
            },
    {
        self.inner.get_data(block_id)
    }

    /// The replica holders of `block_id`, if the block is known.
    pub fn get_datanodes_for_block(&self, block_id: &u128) -> (r: Option<&Vec<u128>>)
        requires
            self.wf(),
        ensures
            match r {
                Some(v) => {
                    &&& self.spec_contains_block(*block_id)
                    &&& forall|d: u128|
                        v@.contains(d) <==> self.spec_has_datanode(*block_id, d)
                    &&& forall|a: int, b: int| 0 <= a < b < v@.len() ==> v@[a] != v@[b]
                },
                None => !self.spec_contains_block(*block_id),
            },
    {
        self.inner.get_ids_for_key(block_id)
    }
}

} // verus!
