//! The in-memory index: a mapping from each live key to the location of its
//! latest record in the log. Kept as an association list with pairwise
//! distinct keys; its mathematical view is a finite `Map`.

use vstd::prelude::*;

verus! {

/// The location of the record that currently represents a key: the byte
/// offset of the record in the log and its length in bytes.
#[derive(Debug, Clone, Copy, PartialEq, Eq, Structural)]
pub struct CommandEntry {
    pub pos: u64,
    pub len: u64,
}

/// The in-memory index. Rebuilt by full replay on open; never persisted.
pub struct Index {
    entries: Vec<(String, CommandEntry)>,
}

/// The map described by an association list, later pairs winning.
pub open spec fn map_of(s: Seq<(String, CommandEntry)>) -> Map<Seq<char>, CommandEntry>
    decreases s.len(),
{
    if s.len() == 0 {
        Map::empty()
    } else {
        map_of(s.drop_last()).insert(s.last().0@, s.last().1)
    }
}

/// Membership in `map_of` is exactly having a pair in the list.
proof fn lemma_map_of_membership(s: Seq<(String, CommandEntry)>)
    ensures
        map_of(s).dom().finite(),
        forall|k: Seq<char>|
            #[trigger] map_of(s).contains_key(k) <==> exists|i: int|
                0 <= i < s.len() && s[i].0@ == k,
    decreases s.len(),
{
    if s.len() == 0 {
    } else {
        lemma_map_of_membership(s.drop_last());
        assert forall|k: Seq<char>| #[trigger]
            map_of(s).contains_key(k) implies exists|i: int| 0 <= i < s.len() && s[i].0@ == k by {
            if k == s.last().0@ {
                assert(s[s.len() - 1].0@ == k);
            } else {
                let i = choose|i: int| 0 <= i < s.drop_last().len() && s.drop_last()[i].0@ == k;
                assert(s[i].0@ == k);
            }
        }
        assert forall|k: Seq<char>|
            exists|i: int| 0 <= i < s.len() && s[i].0@ == k implies #[trigger] map_of(
            s,
        ).contains_key(k) by {
            let i = choose|i: int| 0 <= i < s.len() && s[i].0@ == k;
            if i < s.len() - 1 {
                assert(s.drop_last()[i].0@ == k);
            }
        }
    }
}

/// With pairwise distinct keys, each listed pair is bound in `map_of`.
proof fn lemma_map_of_value(s: Seq<(String, CommandEntry)>, i: int)
    requires
        forall|p: int, q: int| 0 <= p < q < s.len() ==> s[p].0@ != s[q].0@,
        0 <= i < s.len(),
    ensures
        map_of(s).contains_key(s[i].0@),
        map_of(s)[s[i].0@] == s[i].1,
    decreases s.len(),
{
    lemma_map_of_membership(s);
    if i == s.len() - 1 {
    } else {
        assert(s.drop_last()[i] == s[i]);
        lemma_map_of_value(s.drop_last(), i);
        assert(s[i].0@ != s.last().0@);
    }
}

/// With pairwise distinct keys, the map has exactly one binding per pair.
proof fn lemma_map_of_card(s: Seq<(String, CommandEntry)>)
    requires
        forall|p: int, q: int| 0 <= p < q < s.len() ==> s[p].0@ != s[q].0@,
    ensures
        map_of(s).dom().len() == s.len(),
    decreases s.len(),
{
    lemma_map_of_membership(s);
    if s.len() == 0 {
        assert(map_of(s).dom() =~= Set::<Seq<char>>::empty());
    } else {
        let d = s.drop_last();
        lemma_map_of_membership(d);
        lemma_map_of_card(d);
        assert(!map_of(d).contains_key(s.last().0@)) by {
            if map_of(d).contains_key(s.last().0@) {
                let i = choose|i: int| 0 <= i < d.len() && d[i].0@ == s.last().0@;
                assert(s[i].0@ == s[s.len() - 1].0@);
            }
        }
        assert(map_of(s).dom() =~= map_of(d).dom().insert(s.last().0@));
        vstd::set::axiom_set_insert_len(map_of(d).dom(), s.last().0@);
    }
}

/// Removing the pair at `i` removes exactly its key from the map.
proof fn lemma_map_of_remove(s: Seq<(String, CommandEntry)>, i: int)
    requires
        forall|p: int, q: int| 0 <= p < q < s.len() ==> s[p].0@ != s[q].0@,
        0 <= i < s.len(),
    ensures
        map_of(s.remove(i)) == map_of(s).remove(s[i].0@),
    decreases s.len(),
{
    lemma_map_of_membership(s.drop_last());
    if i == s.len() - 1 {
        assert(s.remove(i) =~= s.drop_last());
        assert(!map_of(s.drop_last()).contains_key(s[i].0@)) by {
            if map_of(s.drop_last()).contains_key(s[i].0@) {
                let j = choose|j: int|
                    0 <= j < s.drop_last().len() && s.drop_last()[j].0@ == s[i].0@;
                assert(s[j].0@ == s[i].0@);
            }
        }
        assert(map_of(s.drop_last()) =~= map_of(s).remove(s[i].0@));
    } else {
        let d = s.drop_last();
        assert(s.remove(i).drop_last() =~= d.remove(i));
        assert(s.remove(i).last() == s.last());
        lemma_map_of_remove(d, i);
        assert(d[i] == s[i]);
        assert(s[i].0@ != s.last().0@);
        assert(map_of(d).remove(s[i].0@).insert(s.last().0@, s.last().1) =~= map_of(d).insert(
            s.last().0@,
            s.last().1,
        ).remove(s[i].0@));
    }
}

impl View for Index {
    type V = Map<Seq<char>, CommandEntry>;

    closed spec fn view(&self) -> Map<Seq<char>, CommandEntry> {
        map_of(self.entries@)
    }
}

impl Index {
    /// Pairwise distinct keys: each key appears at most once in the list.
    pub closed spec fn wf(&self) -> bool {
        forall|p: int, q: int|
            0 <= p < q < self.entries@.len() ==> self.entries@[p].0@ != self.entries@[q].0@
    }

    /// The keys in the order the index holds them.
    pub closed spec fn key_seq(&self) -> Seq<Seq<char>> {
        Seq::new(self.entries@.len(), |i: int| self.entries@[i].0@)
    }

    /// The key order is duplicate-free and enumerates the map's domain.
    pub proof fn lemma_key_props(&self)
        requires
            self.wf(),
        ensures
            self@.dom().finite(),
            self.key_seq().len() == self@.dom().len(),
            forall|p: int, q: int|
                0 <= p < q < self.key_seq().len() ==> self.key_seq()[p] != self.key_seq()[q],
            forall|k: Seq<char>|
                #[trigger] self@.contains_key(k) <==> exists|i: int|
                    0 <= i < self.key_seq().len() && self.key_seq()[i] == k,
    {
        lemma_map_of_membership(self.entries@);
        lemma_map_of_card(self.entries@);
        assert forall|k: Seq<char>| #[trigger]
            self@.contains_key(k) implies exists|i: int|
            0 <= i < self.key_seq().len() && self.key_seq()[i] == k by {
            let i = choose|i: int| 0 <= i < self.entries@.len() && self.entries@[i].0@ == k;
            assert(self.key_seq()[i] == k);
        }
        assert forall|k: Seq<char>|
            exists|i: int|
                0 <= i < self.key_seq().len() && self.key_seq()[i] == k implies #[trigger] self@.contains_key(
            k,
        ) by {
            let i = choose|i: int| 0 <= i < self.key_seq().len() && self.key_seq()[i] == k;
            assert(self.entries@[i].0@ == k);
        }
    }

    /// A fresh, empty index.
    pub fn new() -> (r: Index)
        ensures
            r.wf(),
            r@ == Map::<Seq<char>, CommandEntry>::empty(),
            r.key_seq() == Seq::<Seq<char>>::empty(),
    {
        let r = Index { entries: Vec::new() };
        proof {
            assert(r.key_seq() =~= Seq::<Seq<char>>::empty());
        }
        r
    }

    /// Looks a key up; reports the stored location if the key is live.
    pub fn lookup(&self, key: &String) -> (r: Option<CommandEntry>)
        requires
            self.wf(),
        ensures
            r is Some <==> self@.contains_key(key@),
            r matches Some(e) ==> e == self@[key@],
    {
        proof {
            lemma_map_of_membership(self.entries@);
        }
        let n = self.entries.len();
        let mut i: usize = 0;
        while i < n
            invariant
                self.wf(),
                n == self.entries@.len(),
                0 <= i <= n,
                forall|j: int| 0 <= j < i ==> self.entries@[j].0@ != key@,
            decreases n - i,
        {
            if self.entries[i].0 == *key {
                proof {
                    lemma_map_of_value(self.entries@, i as int);
                }
                return Some(self.entries[i].1);
            }
            i = i + 1;
        }
        None
    }

    /// Binds a key to a location, last write winning.
    pub fn insert(&mut self, key: String, entry: CommandEntry)
        requires
            old(self).wf(),
        ensures
            final(self).wf(),
            final(self)@ == old(self)@.insert(key@, entry),
    {
        self.remove(&key);
        let ghost pre = self.entries@;
        self.entries.push((key, entry));
        proof {
            assert(self.entries@.drop_last() =~= pre);
            lemma_map_of_membership(pre);
            assert(!map_of(pre).contains_key(key@));
            assert forall|p: int, q: int|
                0 <= p < q < self.entries@.len() implies self.entries@[p].0@
                != self.entries@[q].0@ by {
                assert(self.entries@[p] == pre[p]);
                if q < self.entries@.len() - 1 {
                    assert(self.entries@[q] == pre[q]);
                } else {
                    assert(self.entries@[q].0@ == key@);
                    assert(pre[p].0@ != key@);
                }
            }
            assert(map_of(self.entries@) == map_of(pre).insert(key@, entry));
            assert(old(self)@.remove(key@).insert(key@, entry) =~= old(self)@.insert(key@, entry));
        }
    }

    /// Deletes a key's binding if present; a no-op if absent.
    pub fn remove(&mut self, key: &String)
        requires
            old(self).wf(),
        ensures
            final(self).wf(),
            final(self)@ == old(self)@.remove(key@),
    {
        proof {
            lemma_map_of_membership(self.entries@);
        }
        let n = self.entries.len();
        let mut i: usize = 0;
        while i < n
            invariant
                self.wf(),
                self.entries@ == old(self).entries@,
                n == self.entries@.len(),
                0 <= i <= n,
                forall|j: int| 0 <= j < i ==> self.entries@[j].0@ != key@,
            decreases n - i,
        {
            if self.entries[i].0 == *key {
                proof {
                    lemma_map_of_remove(self.entries@, i as int);
                }
                self.entries.remove(i);
                proof {
                    assert forall|p: int, q: int|
                        0 <= p < q < self.entries@.len() implies self.entries@[p].0@
                        != self.entries@[q].0@ by {
                        assert(self.entries@[p] == if p < i as int {
                            old(self).entries@[p]
                        } else {
                            old(self).entries@[p + 1]
                        });
                        assert(self.entries@[q] == if q < i as int {
                            old(self).entries@[q]
                        } else {
                            old(self).entries@[q + 1]
                        });
                    }
                }
                return ;
            }
            i = i + 1;
        }
        proof {
            assert(!old(self)@.contains_key(key@));
            assert(old(self)@.remove(key@) =~= old(self)@);
        }
    }

    /// How many keys are live.
    pub fn len(&self) -> (n: usize)
        requires
            self.wf(),
        ensures
            n == self@.dom().len(),
            n == self.key_seq().len(),
    {
        proof {
            lemma_map_of_card(self.entries@);
        }
        self.entries.len()
    }

    /// The pair at position `i` of the key order: its key and its location.
    pub fn pair_at(&self, i: usize) -> (r: (&String, CommandEntry))
        requires
            self.wf(),
            i < self.key_seq().len(),
        ensures
            r.0@ == self.key_seq()[i as int],
            self@.contains_key(r.0@),
            r.1 == self@[r.0@],
    {
        proof {
            lemma_map_of_value(self.entries@, i as int);
        }
        let p = &self.entries[i];
        (&p.0, p.1)
    }
}

} // verus!
