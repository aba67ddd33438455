//! Small association-list containers with mathematical map and set views.
//!
//! The engines keep their bookkeeping tables in these containers so that every
//! table operation has an exact contract over `Map` and `Seq` views.

use vstd::prelude::*;
use crate::types::PeerId;

verus! {

/// Map denoted by an association sequence, folded left to right.
pub open spec fn id_map_of<V>(s: Seq<(u64, V)>) -> Map<u64, V>
    decreases s.len(),
{
    if s.len() == 0 {
        Map::empty()
    } else {
        id_map_of(s.drop_last()).insert(s.last().0, s.last().1)
    }
}

/// No two entries share a key.
pub open spec fn id_keys_distinct<V>(s: Seq<(u64, V)>) -> bool {
    forall|i: int, j: int| 0 <= i < j < s.len() ==> s[i].0 != s[j].0
}

/// The domain of the denoted map is exactly the set of keys in the sequence.
pub proof fn lemma_id_map_dom<V>(s: Seq<(u64, V)>)
    ensures
        forall|k: u64|
            id_map_of(s).dom().contains(k) <==> exists|i: int| 0 <= i < s.len() && s[i].0 == k,
    decreases s.len(),
{
    if s.len() > 0 {
        lemma_id_map_dom(s.drop_last());
        assert forall|k: u64| id_map_of(s).dom().contains(k) implies exists|i: int|
            0 <= i < s.len() && s[i].0 == k by {
            if k == s.last().0 {
                assert(s[s.len() - 1].0 == k);
            } else {
                assert(id_map_of(s.drop_last()).dom().contains(k));
                assert(exists|i: int| 0 <= i < s.drop_last().len() && s.drop_last()[i].0 == k);
                let i = choose|i: int| 0 <= i < s.drop_last().len() && s.drop_last()[i].0 == k;
                assert(s.drop_last()[i] == s[i]);
                assert(s[i].0 == k);
            }
        }
        assert forall|k: u64| (exists|i: int| 0 <= i < s.len() && s[i].0 == k) implies id_map_of(
            s,
        ).dom().contains(k) by {
            let i = choose|i: int| 0 <= i < s.len() && s[i].0 == k;
            if i < s.len() - 1 {
                assert(s.drop_last()[i] == s[i]);
                assert(s.drop_last()[i].0 == k);
                assert(id_map_of(s.drop_last()).dom().contains(k));
            }
        }
    }
}

/// With distinct keys, each entry's key maps to that entry's value.
pub proof fn lemma_id_map_index<V>(s: Seq<(u64, V)>, i: int)
    requires
        id_keys_distinct(s),
        0 <= i < s.len(),
    ensures
        id_map_of(s).dom().contains(s[i].0),
        id_map_of(s)[s[i].0] == s[i].1,
    decreases s.len(),
{
    lemma_id_map_dom(s);
    if i < s.len() - 1 {
        assert(id_keys_distinct(s.drop_last()));
        lemma_id_map_index(s.drop_last(), i);
        assert(s.drop_last()[i] == s[i]);
        assert(s[i].0 != s.last().0);
    }
}

/// Removing the entry at `i` removes exactly that key from the denoted map.
pub proof fn lemma_id_map_remove<V>(s: Seq<(u64, V)>, i: int)
    requires
        id_keys_distinct(s),
        0 <= i < s.len(),
    ensures
        id_map_of(s.remove(i)) == id_map_of(s).remove(s[i].0),
    decreases s.len(),
{
    lemma_id_map_dom(s.drop_last());
    if i == s.len() - 1 {
        assert(s.remove(i) =~= s.drop_last());
        assert(!id_map_of(s.drop_last()).dom().contains(s.last().0));
        assert(id_map_of(s.drop_last()) =~= id_map_of(s.drop_last()).insert(
            s.last().0,
            s.last().1,
        ).remove(s.last().0));
    } else {
        assert(id_keys_distinct(s.drop_last()));
        lemma_id_map_remove(s.drop_last(), i);
        assert(s.remove(i).drop_last() =~= s.drop_last().remove(i));
        assert(s.remove(i).last() == s.last());
        assert(s[i].0 != s.last().0);
        assert(id_map_of(s.remove(i)) == id_map_of(s.drop_last().remove(i)).insert(
            s.last().0,
            s.last().1,
        ));
        assert(id_map_of(s).remove(s[i].0) =~= id_map_of(s.drop_last()).remove(s[i].0).insert(
            s.last().0,
            s.last().1,
        ));
    }
}

/// A map table keyed by `u64` identifiers.
pub struct IdMap<V> {
    pub entries: Vec<(u64, V)>,
}

impl<V> View for IdMap<V> {
    type V = Map<u64, V>;

    open spec fn view(&self) -> Map<u64, V> {
        id_map_of(self.entries@)
    }
}

impl<V> IdMap<V> {
    /// Keys are pairwise distinct.
    pub open spec fn wf(&self) -> bool {
        id_keys_distinct(self.entries@)
    }

    /// The empty table.
    pub fn new() -> (r: Self)
        ensures
            r.wf(),
            r@ == Map::<u64, V>::empty(),
            r.entries@.len() == 0,
    {
        IdMap { entries: Vec::new() }
    }

    /// Number of entries.
    pub fn len(&self) -> (r: usize)
        requires
            self.wf(),
        ensures
            r == self.entries@.len(),
            r == self@.dom().len(),
    {
        proof {
            lemma_id_map_card(self.entries@);
        }
        self.entries.len()
    }

    /// Index of the entry holding `key`, if any.
    fn position(&self, key: u64) -> (r: Option<usize>)
        ensures
            match r {
                Some(i) => i < self.entries@.len() && self.entries@[i as int].0 == key,
                None => forall|i: int| 0 <= i < self.entries@.len() ==> self.entries@[i].0 != key,
            },
    {
        let n = self.entries.len();
        let mut i: usize = 0;
        while i < n
            invariant
                i <= n,
                n == self.entries@.len(),
                forall|j: int| 0 <= j < i ==> self.entries@[j].0 != key,
            decreases n - i,
        {
            if self.entries[i].0 == key {
                return Some(i);
            }
            i += 1;
        }
        None
    }

    /// Whether `key` is present.
    pub fn contains_key(&self, key: u64) -> (r: bool)
        ensures
            r == self@.dom().contains(key),
    {
        proof {
            lemma_id_map_dom(self.entries@);
        }
        self.position(key).is_some()
    }

    /// The value under `key`, if present.
    pub fn get(&self, key: u64) -> (r: Option<&V>)
        requires
            self.wf(),
        ensures
            match r {
                Some(v) => self@.dom().contains(key) && *v == self@[key],
                None => !self@.dom().contains(key),
            },
    {
        proof {
            lemma_id_map_dom(self.entries@);
        }
        match self.position(key) {
            Some(i) => {
                proof {
                    lemma_id_map_index(self.entries@, i as int);
                }
                Some(&self.entries[i].1)
            },
            None => None,
        }
    }

    /// Insert `value` under `key`, replacing any previous value.
    pub fn insert(&mut self, key: u64, value: V)
        requires
            old(self).wf(),
        ensures
            final(self).wf(),
            final(self)@ == old(self)@.insert(key, value),
    {
        let _ = self.remove(key);
        let ghost s = self.entries@;
        self.entries.push((key, value));
        proof {
            assert(self.entries@.drop_last() =~= s);
            lemma_id_map_dom(s);
            assert(!id_map_of(s).dom().contains(key));
            assert forall|i: int| 0 <= i < s.len() implies s[i].0 != key by {
                if s[i].0 == key {
                    assert(id_map_of(s).dom().contains(key));
                }
            }
            assert forall|a: int, b: int|
                0 <= a < b < self.entries@.len() implies self.entries@[a].0
                != self.entries@[b].0 by {
                if b == self.entries@.len() - 1 {
                    assert(self.entries@[a] == s[a]);
                } else {
                    assert(self.entries@[a] == s[a]);
                    assert(self.entries@[b] == s[b]);
                }
            }
            assert(old(self)@.insert(key, value) =~= id_map_of(s).insert(key, value));
        }
    }

    /// Remove and return the value under `key`, if present.
    pub fn remove(&mut self, key: u64) -> (r: Option<V>)
        requires
            old(self).wf(),
        ensures
            final(self).wf(),
            final(self)@ == old(self)@.remove(key),
            r is Some <==> old(self)@.dom().contains(key),
            r matches Some(v) ==> v == old(self)@[key],
            r is None ==> *final(self) == *old(self),
    {
        proof {
            lemma_id_map_dom(self.entries@);
        }
        match self.position(key) {
            Some(i) => {
                proof {
                    lemma_id_map_index(self.entries@, i as int);
                    lemma_id_map_remove(self.entries@, i as int);
                    let s = self.entries@;
                    assert forall|a: int, b: int|
                        0 <= a < b < s.remove(i as int).len() implies s.remove(i as int)[a].0 != s.remove(
                        i as int,
                    )[b].0 by {
                        if a < i {
                            assert(s.remove(i as int)[a] == s[a]);
                        } else {
                            assert(s.remove(i as int)[a] == s[a + 1]);
                        }
                        if b < i {
                            assert(s.remove(i as int)[b] == s[b]);
                        } else {
                            assert(s.remove(i as int)[b] == s[b + 1]);
                        }
                    }
                }
                let entry = self.entries.remove(i);
                Some(entry.1)
            },
            None => {
                proof {
                    assert(old(self)@ =~= old(self)@.remove(key));
                }
                None
            },
        }
    }
}

/// A set of `u64` identifiers that remembers insertion order.
pub struct IdSet {
    pub items: Vec<u64>,
}

impl View for IdSet {
    type V = Seq<u64>;

    open spec fn view(&self) -> Seq<u64> {
        self.items@
    }
}

impl IdSet {
    /// No identifier occurs twice.
    pub open spec fn wf(&self) -> bool {
        self@.no_duplicates()
    }

    /// The members, order forgotten.
    pub open spec fn set_view(&self) -> Set<u64> {
        self@.to_set()
    }

    /// The empty set.
    pub fn new() -> (r: Self)
        ensures
            r.wf(),
            r@ == Seq::<u64>::empty(),
    {
        IdSet { items: Vec::new() }
    }

    /// A set holding exactly `id`.
    pub fn singleton(id: u64) -> (r: Self)
        ensures
            r.wf(),
            r@ == seq![id],
    {
        let mut items: Vec<u64> = Vec::new();
        items.push(id);
        proof {
            assert(items@ =~= seq![id]);
        }
        IdSet { items }
    }

    /// Number of members.
    pub fn len(&self) -> (r: usize)
        ensures
            r == self@.len(),
    {
        self.items.len()
    }

    /// Whether `id` is a member.
    pub fn contains(&self, id: u64) -> (r: bool)
        ensures
            r == self@.contains(id),
            r == self.set_view().contains(id),
    {
        let n = self.items.len();
        let mut i: usize = 0;
        while i < n
            invariant
                i <= n,
                n == self@.len(),
                forall|j: int| 0 <= j < i ==> self@[j] != id,
            decreases n - i,
        {
            if self.items[i] == id {
                return true;
            }
            i += 1;
        }
        false
    }

    /// Add `id`; no effect if it is already a member. Returns whether it was
    /// newly added.
    pub fn insert(&mut self, id: u64) -> (r: bool)
        requires
            old(self).wf(),
        ensures
            final(self).wf(),
            r == !old(self)@.contains(id),
            final(self)@ == if old(self)@.contains(id) {
                old(self)@
            } else {
                old(self)@.push(id)
            },
            old(self)@.contains(id) ==> *final(self) == *old(self),
    {
        if self.contains(id) {
            false
        } else {
            self.items.push(id);
            proof {
                assert forall|a: int, b: int|
                    0 <= a < b < self@.len() && self@[a] == self@[b] implies false by {
                    if b == self@.len() - 1 {
                        assert(old(self)@.contains(self@[a]));
                    }
                }
            }
            true
        }
    }

    /// Remove `id` if it is a member. Returns whether it was present.
    pub fn remove(&mut self, id: u64) -> (r: bool)
        requires
            old(self).wf(),
        ensures
            final(self).wf(),
            r == old(self)@.contains(id),
            final(self).set_view() == old(self).set_view().remove(id),
            !final(self)@.contains(id),
            forall|x: u64| x != id ==> (final(self)@.contains(x) == old(self)@.contains(x)),
            final(self)@.len() == if old(self)@.contains(id) {
                old(self)@.len() - 1
            } else {
                old(self)@.len() as int
            },
            !old(self)@.contains(id) ==> *final(self) == *old(self),
    {
        let n = self.items.len();
        let mut i: usize = 0;
        while i < n
            invariant
                i <= n,
                n == self@.len(),
                *self == *old(self),
                old(self).wf(),
                forall|j: int| 0 <= j < i ==> self@[j] != id,
            decreases n - i,
        {
            if self.items[i] == id {
                let ghost s = self@;
                let _ = self.items.remove(i);
                proof {
                    lemma_seq_remove_membership(s, i as int);
                    assert(forall|j: int| 0 <= j < i ==> s[j] != id);
                    assert forall|x: u64| self@.contains(x) implies x != id by {
                        let j = choose|j: int| 0 <= j < self@.len() && self@[j] == x;
                        if j < i {
                            assert(s[j] == x);
                        } else {
                            assert(s[j + 1] == x);
                            assert(s.no_duplicates());
                            assert(s[i as int] == id);
                        }
                    }
                    assert(final(self).set_view() =~= old(self).set_view().remove(id));
                }
                return true;
            }
            i += 1;
        }
        proof {
            assert(!old(self)@.contains(id));
            assert(final(self).set_view() =~= old(self).set_view().remove(id));
        }
        false
    }

    /// Give up the members as a vector, in insertion order.
    pub fn into_vec(self) -> (r: Vec<u64>)
        ensures
            r@ == self@,
    {
        self.items
    }
}

/// Removing one element keeps the others, keeps distinctness, and keeps
/// relative order.
pub proof fn lemma_seq_remove_membership(s: Seq<u64>, i: int)
    requires
        s.no_duplicates(),
        0 <= i < s.len(),
    ensures
        s.remove(i).no_duplicates(),
        forall|x: u64| #[trigger] s.remove(i).contains(x) ==> s.contains(x),
        forall|x: u64| s.contains(x) && x != s[i] ==> #[trigger] s.remove(i).contains(x),
{
    assert forall|a: int, b: int|
        0 <= a < b < s.remove(i).len() implies s.remove(i)[a] != s.remove(i)[b] by {
        if a < i {
            assert(s.remove(i)[a] == s[a]);
        } else {
            assert(s.remove(i)[a] == s[a + 1]);
        }
        if b < i {
            assert(s.remove(i)[b] == s[b]);
        } else {
            assert(s.remove(i)[b] == s[b + 1]);
        }
    }
    assert forall|x: u64| #[trigger] s.remove(i).contains(x) implies s.contains(x) by {
        let j = choose|j: int| 0 <= j < s.remove(i).len() && s.remove(i)[j] == x;
        if j < i {
            assert(s[j] == x);
        } else {
            assert(s[j + 1] == x);
        }
    }
    assert forall|x: u64| s.contains(x) && x != s[i] implies #[trigger] s.remove(i).contains(
        x,
    ) by {
        let j = choose|j: int| 0 <= j < s.len() && s[j] == x;
        if j < i {
            assert(s.remove(i)[j] == x);
        } else {
            assert(s.remove(i)[j - 1] == x);
        }
    }
}

/// Map denoted by a peer-keyed association sequence, folded left to right.
pub open spec fn peer_map_of<V>(s: Seq<(PeerId, V)>) -> Map<Seq<u8>, V>
    decreases s.len(),
{
    if s.len() == 0 {
        Map::empty()
    } else {
        peer_map_of(s.drop_last()).insert(s.last().0@, s.last().1)
    }
}

/// No two entries share a peer id.
pub open spec fn peer_keys_distinct<V>(s: Seq<(PeerId, V)>) -> bool {
    forall|i: int, j: int| 0 <= i < j < s.len() ==> s[i].0@ != s[j].0@
}

/// The domain of the denoted map is exactly the set of peer ids in the
/// sequence.
pub proof fn lemma_peer_map_dom<V>(s: Seq<(PeerId, V)>)
    ensures
        forall|k: Seq<u8>|
            peer_map_of(s).dom().contains(k) <==> exists|i: int| 0 <= i < s.len() && s[i].0@ == k,
    decreases s.len(),
{
    if s.len() > 0 {
        lemma_peer_map_dom(s.drop_last());
        assert forall|k: Seq<u8>| peer_map_of(s).dom().contains(k) implies exists|i: int|
            0 <= i < s.len() && s[i].0@ == k by {
            if k == s.last().0@ {
                assert(s[s.len() - 1].0@ == k);
            } else {
                assert(peer_map_of(s.drop_last()).dom().contains(k));
                assert(exists|i: int| 0 <= i < s.drop_last().len() && s.drop_last()[i].0@ == k);
                let i = choose|i: int| 0 <= i < s.drop_last().len() && s.drop_last()[i].0@ == k;
                assert(s.drop_last()[i] == s[i]);
                assert(s[i].0@ == k);
            }
        }
        assert forall|k: Seq<u8>| (exists|i: int| 0 <= i < s.len() && s[i].0@ == k) implies peer_map_of(
            s,
        ).dom().contains(k) by {
            let i = choose|i: int| 0 <= i < s.len() && s[i].0@ == k;
            if i < s.len() - 1 {
                assert(s.drop_last()[i] == s[i]);
                assert(s.drop_last()[i].0@ == k);
                assert(peer_map_of(s.drop_last()).dom().contains(k));
            }
        }
    }
}

/// With distinct peer ids, each entry's id maps to that entry's value.
pub proof fn lemma_peer_map_index<V>(s: Seq<(PeerId, V)>, i: int)
    requires
        peer_keys_distinct(s),
        0 <= i < s.len(),
    ensures
        peer_map_of(s).dom().contains(s[i].0@),
        peer_map_of(s)[s[i].0@] == s[i].1,
    decreases s.len(),
{
    lemma_peer_map_dom(s);
    if i < s.len() - 1 {
        assert(peer_keys_distinct(s.drop_last()));
        lemma_peer_map_index(s.drop_last(), i);
        assert(s.drop_last()[i] == s[i]);
        assert(s[i].0@ != s.last().0@);
    }
}

/// Removing the entry at `i` removes exactly that peer id from the denoted
/// map.
pub proof fn lemma_peer_map_remove<V>(s: Seq<(PeerId, V)>, i: int)
    requires
        peer_keys_distinct(s),
        0 <= i < s.len(),
    ensures
        peer_map_of(s.remove(i)) == peer_map_of(s).remove(s[i].0@),
    decreases s.len(),
{
    lemma_peer_map_dom(s.drop_last());
    if i == s.len() - 1 {
        assert(s.remove(i) =~= s.drop_last());
        assert(!peer_map_of(s.drop_last()).dom().contains(s.last().0@));
        assert(peer_map_of(s.drop_last()) =~= peer_map_of(s.drop_last()).insert(
            s.last().0@,
            s.last().1,
        ).remove(s.last().0@));
    } else {
        assert(peer_keys_distinct(s.drop_last()));
        lemma_peer_map_remove(s.drop_last(), i);
        assert(s.remove(i).drop_last() =~= s.drop_last().remove(i));
        assert(s.remove(i).last() == s.last());
        assert(s[i].0@ != s.last().0@);
        assert(peer_map_of(s.remove(i)) == peer_map_of(s.drop_last().remove(i)).insert(
            s.last().0@,
            s.last().1,
        ));
        assert(peer_map_of(s).remove(s[i].0@) =~= peer_map_of(s.drop_last()).remove(
            s[i].0@,
        ).insert(s.last().0@, s.last().1));
    }
}

/// A map table keyed by peer id.
pub struct PeerMap<V> {
    pub entries: Vec<(PeerId, V)>,
}

impl<V> View for PeerMap<V> {
    type V = Map<Seq<u8>, V>;

    open spec fn view(&self) -> Map<Seq<u8>, V> {
        peer_map_of(self.entries@)
    }
}

impl<V> PeerMap<V> {
    /// Peer ids are pairwise distinct.
    pub open spec fn wf(&self) -> bool {
        peer_keys_distinct(self.entries@)
    }

    /// The empty table.
    pub fn new() -> (r: Self)
        ensures
            r.wf(),
            r@ == Map::<Seq<u8>, V>::empty(),
            r.entries@.len() == 0,
    {
        PeerMap { entries: Vec::new() }
    }

    /// Number of entries.
    pub fn len(&self) -> (r: usize)
        ensures
            r == self.entries@.len(),
    {
        self.entries.len()
    }

    /// Index of the entry holding `key`, if any.
    fn position(&self, key: &PeerId) -> (r: Option<usize>)
        ensures
            match r {
                Some(i) => i < self.entries@.len() && self.entries@[i as int].0@ == key@,
                None => forall|i: int| 0 <= i < self.entries@.len() ==> self.entries@[i].0@ != key@,
            },
    {
        let n = self.entries.len();
        let mut i: usize = 0;
        while i < n
            invariant
                i <= n,
                n == self.entries@.len(),
                forall|j: int| 0 <= j < i ==> self.entries@[j].0@ != key@,
            decreases n - i,
        {
            if self.entries[i].0.same(key) {
                return Some(i);
            }
            i += 1;
        }
        None
    }

    /// Whether `key` is present.
    pub fn contains_key(&self, key: &PeerId) -> (r: bool)
        ensures
            r == self@.dom().contains(key@),
    {
        proof {
            lemma_peer_map_dom(self.entries@);
        }
        self.position(key).is_some()
    }

    /// The value under `key`, if present.
    pub fn get(&self, key: &PeerId) -> (r: Option<&V>)
        requires
            self.wf(),
        ensures
            match r {
                Some(v) => self@.dom().contains(key@) && *v == self@[key@],
                None => !self@.dom().contains(key@),
            },
    {
        proof {
            lemma_peer_map_dom(self.entries@);
        }
        match self.position(key) {
            Some(i) => {
                proof {
                    lemma_peer_map_index(self.entries@, i as int);
                }
                Some(&self.entries[i].1)
            },
            None => None,
        }
    }

    /// Insert `value` under `key`, replacing any previous value.
    pub fn insert(&mut self, key: PeerId, value: V)
        requires
            old(self).wf(),
        ensures
            final(self).wf(),
            final(self)@ == old(self)@.insert(key@, value),
    {
        let _ = self.remove(&key);
        let ghost s = self.entries@;
        self.entries.push((key, value));
        proof {
            assert(self.entries@.drop_last() =~= s);
            lemma_peer_map_dom(s);
            assert(!peer_map_of(s).dom().contains(key@));
            assert forall|i: int| 0 <= i < s.len() implies s[i].0@ != key@ by {
                if s[i].0@ == key@ {
                    assert(peer_map_of(s).dom().contains(key@));
                }
            }
            assert forall|a: int, b: int|
                0 <= a < b < self.entries@.len() implies self.entries@[a].0@
                != self.entries@[b].0@ by {
                if b == self.entries@.len() - 1 {
                    assert(self.entries@[a] == s[a]);
                } else {
                    assert(self.entries@[a] == s[a]);
                    assert(self.entries@[b] == s[b]);
                }
            }
            assert(old(self)@.insert(key@, value) =~= peer_map_of(s).insert(key@, value));
        }
    }

    /// Remove and return the value under `key`, if present.
    pub fn remove(&mut self, key: &PeerId) -> (r: Option<V>)
        requires
            old(self).wf(),
        ensures
            final(self).wf(),
            final(self)@ == old(self)@.remove(key@),
            r is Some <==> old(self)@.dom().contains(key@),
            r matches Some(v) ==> v == old(self)@[key@],
            r is None ==> *final(self) == *old(self),
    {
        proof {
            lemma_peer_map_dom(self.entries@);
        }
        match self.position(key) {
            Some(i) => {
                proof {
                    lemma_peer_map_index(self.entries@, i as int);
                    lemma_peer_map_remove(self.entries@, i as int);
                    let s = self.entries@;
                    assert forall|a: int, b: int|
                        0 <= a < b < s.remove(i as int).len() implies s.remove(i as int)[a].0@ != s.remove(
                        i as int,
                    )[b].0@ by {
                        if a < i {
                            assert(s.remove(i as int)[a] == s[a]);
                        } else {
                            assert(s.remove(i as int)[a] == s[a + 1]);
                        }
                        if b < i {
                            assert(s.remove(i as int)[b] == s[b]);
                        } else {
                            assert(s.remove(i as int)[b] == s[b + 1]);
                        }
                    }
                }
                let entry = self.entries.remove(i);
                Some(entry.1)
            },
            None => {
                proof {
                    assert(old(self)@ =~= old(self)@.remove(key@));
                }
                None
            },
        }
    }
}

/// With distinct keys the map's cardinality equals the sequence's length.
pub proof fn lemma_id_map_card<V>(s: Seq<(u64, V)>)
    requires
        id_keys_distinct(s),
    ensures
        id_map_of(s).dom().finite(),
        id_map_of(s).dom().len() == s.len(),
    decreases s.len(),
{
    if s.len() > 0 {
        assert(id_keys_distinct(s.drop_last()));
        lemma_id_map_card(s.drop_last());
        lemma_id_map_dom(s.drop_last());
        assert(!id_map_of(s.drop_last()).dom().contains(s.last().0));
    }
}

} // verus!
