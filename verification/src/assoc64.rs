//! A small association table with unique 64-bit keys, viewed as a `Map`.
//!
//! QUIC stream ids are 64-bit values the endpoint hands out; the client
//! and server key their per-stream state by them. This table stores the
//! pairs in a vector, keeps the keys unique, and exposes a `Map` view
//! that the contracts of its users speak of.

use vstd::prelude::*;

verus! {

/// The map described by a sequence of key-value pairs; later pairs win,
/// though the table never stores a key twice.
pub open spec fn pairs_map64<V>(s: Seq<(u64, V)>) -> Map<u64, V>
    decreases s.len(),
{
    if s.len() == 0 {
        Map::empty()
    } else {
        pairs_map64(s.drop_last()).insert(s.last().0, s.last().1)
    }
}

/// No key occurs twice.
pub open spec fn pairs_unique64<V>(s: Seq<(u64, V)>) -> bool {
    forall|i: int, j: int| 0 <= i < j < s.len() ==> (#[trigger] s[i]).0 != (#[trigger] s[j]).0
}

/// A key is in the map exactly when some pair carries it.
pub proof fn lemma_pairs_map64_contains<V>(s: Seq<(u64, V)>, id: u64)
    ensures
        pairs_map64(s).contains_key(id) <==> exists|i: int| 0 <= i < s.len() && (#[trigger] s[i]).0 == id,
    decreases s.len(),
{
    if s.len() > 0 {
        lemma_pairs_map64_contains(s.drop_last(), id);
        if s.last().0 == id {
            assert(s[s.len() - 1].0 == id);
        } else if pairs_map64(s).contains_key(id) {
            let i = choose|i: int| 0 <= i < s.drop_last().len() && (#[trigger] s.drop_last()[i]).0 == id;
            assert(s[i].0 == id);
        } else {
            assert forall|i: int| 0 <= i < s.len() implies (#[trigger] s[i]).0 != id by {
                if i < s.len() - 1 {
                    assert(s.drop_last()[i].0 == s[i].0);
                }
            }
        }
    }
}

/// With unique keys, the pair at any index gives the map's value for its key.
pub proof fn lemma_pairs_map64_get<V>(s: Seq<(u64, V)>, j: int)
    requires
        pairs_unique64(s),
        0 <= j < s.len(),
    ensures
        pairs_map64(s).contains_key(s[j].0),
        pairs_map64(s)[s[j].0] == s[j].1,
    decreases s.len(),
{
    if j == s.len() - 1 {
    } else {
        lemma_pairs_map64_get(s.drop_last(), j);
        assert(s.drop_last()[j] == s[j]);
        assert(s.last().0 != s[j].0);
    }
}

/// Appending a pair with a fresh key inserts it into the map.
pub proof fn lemma_pairs_map64_push<V>(s: Seq<(u64, V)>, id: u64, v: V)
    ensures
        pairs_map64(s.push((id, v))) == pairs_map64(s).insert(id, v),
{
    assert(s.push((id, v)).drop_last() =~= s);
}

/// Removing the pair at an index removes its key from the map.
pub proof fn lemma_pairs_map64_remove<V>(s: Seq<(u64, V)>, j: int)
    requires
        pairs_unique64(s),
        0 <= j < s.len(),
    ensures
        pairs_map64(s.remove(j)) =~= pairs_map64(s).remove(s[j].0),
    decreases s.len(),
{
    let id = s[j].0;
    lemma_pairs_map64_contains(s.drop_last(), id);
    if j == s.len() - 1 {
        assert(s.remove(j) =~= s.drop_last());
        assert forall|k: int| 0 <= k < s.drop_last().len() implies (#[trigger] s.drop_last()[k]).0
            != id by {
            assert(s[k] == s.drop_last()[k]);
        }
        assert(!pairs_map64(s.drop_last()).contains_key(id));
        assert(pairs_map64(s.drop_last()).insert(id, s.last().1).remove(id) =~= pairs_map64(
            s.drop_last(),
        ));
    } else {
        lemma_pairs_map64_remove(s.drop_last(), j);
        assert(s.remove(j).drop_last() =~= s.drop_last().remove(j));
        assert(s.remove(j).last() == s.last());
        assert(s.drop_last()[j] == s[j]);
        assert(s.last().0 != id);
        assert(pairs_map64(s.remove(j)) == pairs_map64(s.drop_last().remove(j)).insert(
            s.last().0,
            s.last().1,
        ));
        assert(pairs_map64(s.drop_last()).remove(id).insert(s.last().0, s.last().1) =~= pairs_map64(
            s.drop_last(),
        ).insert(s.last().0, s.last().1).remove(id));
    }
}

/// A table with unique keys holds as many keys as pairs.
pub proof fn lemma_pairs_map64_card<V>(s: Seq<(u64, V)>)
    requires
        pairs_unique64(s),
    ensures
        pairs_map64(s).dom().finite(),
        pairs_map64(s).dom().len() == s.len(),
    decreases s.len(),
{
    if s.len() > 0 {
        lemma_pairs_map64_card(s.drop_last());
        lemma_pairs_map64_contains(s.drop_last(), s.last().0);
        assert forall|k: int| 0 <= k < s.drop_last().len() implies (#[trigger] s.drop_last()[k]).0
            != s.last().0 by {
            assert(s[k] == s.drop_last()[k]);
        }
        assert(!pairs_map64(s.drop_last()).contains_key(s.last().0));
        assert(pairs_map64(s).dom() =~= pairs_map64(s.drop_last()).dom().insert(s.last().0));
    }
}

/// The association table: a vector of pairs with unique keys.
pub struct AssocTable64<V> {
    pub entries: Vec<(u64, V)>,
}

impl<V> AssocTable64<V> {
    /// The table's contents as a map.
    pub open spec fn view(&self) -> Map<u64, V> {
        pairs_map64(self.entries@)
    }

    /// Well-formed: keys unique.
    pub open spec fn wf(&self) -> bool {
        pairs_unique64(self.entries@)
    }

    /// An empty table.
    pub fn new() -> (r: Self)
        ensures
            r.wf(),
            r.view() == Map::<u64, V>::empty(),
            r.entries@.len() == 0,
    {
        AssocTable64 { entries: Vec::new() }
    }

    /// How many keys the table holds.
    pub fn len(&self) -> (r: usize)
        ensures
            r == self.entries@.len(),
    {
        self.entries.len()
    }

    /// The index of the pair carrying `id`, if the table holds it.
    pub fn find(&self, id: u64) -> (r: Option<usize>)
        requires
            self.wf(),
        ensures
            match r {
                Some(j) => {
                    &&& 0 <= j < self.entries@.len()
                    &&& self.entries@[j as int].0 == id
                    &&& self.view().contains_key(id)
                    &&& self.view()[id] == self.entries@[j as int].1
                },
                None => !self.view().contains_key(id),
            },
    {
        let n = self.entries.len();
        let mut i: usize = 0;
        while i < n
            invariant
                n == self.entries@.len(),
                0 <= i <= n,
                self.wf(),
                forall|k: int| 0 <= k < i ==> (#[trigger] self.entries@[k]).0 != id,
            decreases n - i,
        {
            if self.entries[i].0 == id {
                proof {
                    lemma_pairs_map64_get(self.entries@, i as int);
                }
                return Some(i);
            }
            i += 1;
        }
        proof {
            lemma_pairs_map64_contains(self.entries@, id);
        }
        None
    }

    /// Add a pair whose key the table does not hold yet.
    pub fn insert_fresh(&mut self, id: u64, v: V)
        requires
            old(self).wf(),
            !old(self).view().contains_key(id),
        ensures
            final(self).wf(),
            final(self).view() == old(self).view().insert(id, v),
            final(self).entries@ == old(self).entries@.push((id, v)),
    {
        proof {
            lemma_pairs_map64_contains(self.entries@, id);
            lemma_pairs_map64_push(self.entries@, id, v);
        }
        self.entries.push((id, v));
    }

    /// Remove the pair at a known index, dropping its key from the map.
    pub fn remove_at(&mut self, j: usize) -> (r: (u64, V))
        requires
            old(self).wf(),
            j < old(self).entries@.len(),
        ensures
            final(self).wf(),
            r == old(self).entries@[j as int],
            final(self).entries@ == old(self).entries@.remove(j as int),
            final(self).view() == old(self).view().remove(r.0),
            old(self).view().contains_key(r.0),
            old(self).view()[r.0] == r.1,
    {
        proof {
            lemma_pairs_map64_get(self.entries@, j as int);
            lemma_pairs_map64_remove(self.entries@, j as int);
            assert forall|a: int, b: int|
                0 <= a < b < self.entries@.remove(j as int).len() implies (#[trigger] self.entries@.remove(
                j as int,
            )[a]).0 != (#[trigger] self.entries@.remove(j as int)[b]).0 by {
                let s = self.entries@;
                let a0: int = if a < j { a } else { a + 1 };
                let b0: int = if b < j { b } else { b + 1 };
                assert(s.remove(j as int)[a] == s[a0]);
                assert(s.remove(j as int)[b] == s[b0]);
            }
        }
        self.entries.remove(j)
    }
}

} // verus!
