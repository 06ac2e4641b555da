//! The vocabulary: which token has which id.
//!
//! A token is a string, an id a row number of the embedding table. Tokens
//! that may only continue a word carry the two-character marker in front.
use vstd::prelude::*;
use vstd::hash_map::StringHashMap;
use crate::error::InitError;

verus! {

/// What one vocabulary entry is made of: the token's characters and its id.
pub open spec fn entry_view(e: (String, i32)) -> (Seq<char>, i32) {
    (e.0@, e.1)
}

/// Whether `entries` can be a vocabulary: no id below zero, no token twice.
pub open spec fn entries_valid(entries: Seq<(Seq<char>, i32)>) -> bool {
    &&& forall|i: int| 0 <= i < entries.len() ==> (#[trigger] entries[i]).1 >= 0
    &&& forall|i: int, j: int|
        0 <= i < j < entries.len() ==> (#[trigger] entries[i]).0 != (#[trigger] entries[j]).0
}

/// The mapping that `entries` spell out, read from the front.
pub open spec fn entries_map(entries: Seq<(Seq<char>, i32)>) -> Map<Seq<char>, i32>
    decreases entries.len(),
{
    if entries.len() == 0 {
        Map::empty()
    } else {
        entries_map(entries.drop_last()).insert(entries.last().0, entries.last().1)
    }
}

/// Whether `n` is the least number above every id of `m`: zero for the empty
/// mapping, else one more than the greatest id.
pub open spec fn is_id_bound(m: Map<Seq<char>, i32>, n: nat) -> bool {
    &&& forall|k: Seq<char>| #[trigger] m.contains_key(k) ==> 0 <= m[k] < n
    &&& n == 0 || exists|k: Seq<char>| #[trigger] m.contains_key(k) && m[k] == n - 1
}

/// The mapping of entries without a token twice has exactly their tokens,
/// each with the id of its entry.
pub proof fn lemma_entries_map(entries: Seq<(Seq<char>, i32)>)
    requires
        entries_valid(entries),
    ensures
        forall|i: int|
            0 <= i < entries.len() ==> entries_map(entries).contains_key(
                (#[trigger] entries[i]).0,
            ) && entries_map(entries)[entries[i].0] == entries[i].1,
        forall|k: Seq<char>| #[trigger]
            entries_map(entries).contains_key(k) ==> exists|i: int|
                0 <= i < entries.len() && (#[trigger] entries[i]).0 == k,
    decreases entries.len(),
{
    if entries.len() > 0 {
        let front = entries.drop_last();
        let last = entries.last();
        assert forall|i: int, j: int| 0 <= i < j < front.len() implies (#[trigger] front[i]).0 != (
        #[trigger] front[j]).0 by {
            assert(front[i] == entries[i] && front[j] == entries[j]);
        }
        assert forall|i: int| 0 <= i < front.len() implies (#[trigger] front[i]).1 >= 0 by {
            assert(front[i] == entries[i]);
        }
        lemma_entries_map(front);
        let m = entries_map(entries);
        assert forall|i: int| 0 <= i < entries.len() implies m.contains_key(
            (#[trigger] entries[i]).0,
        ) && m[entries[i].0] == entries[i].1 by {
            if i < front.len() {
                assert(front[i] == entries[i]);
                assert(entries[i].0 != entries[entries.len() - 1].0);
            }
        }
        assert forall|k: Seq<char>| #[trigger] m.contains_key(k) implies exists|i: int|
            0 <= i < entries.len() && (#[trigger] entries[i]).0 == k by {
            if k == last.0 {
                assert(entries[entries.len() - 1].0 == k);
            } else {
                assert(entries_map(front).contains_key(k));
                let i = choose|i: int| 0 <= i < front.len() && (#[trigger] front[i]).0 == k;
                assert(entries[i].0 == k);
            }
        }
    }
}

/// A mapping has one id bound only.
pub proof fn lemma_id_bound_unique(m: Map<Seq<char>, i32>, a: nat, b: nat)
    requires
        is_id_bound(m, a),
        is_id_bound(m, b),
    ensures
        a == b,
{
    if a < b {
        let k = choose|k: Seq<char>| #[trigger] m.contains_key(k) && m[k] == b - 1;
        assert(m.contains_key(k));
    } else if b < a {
        let k = choose|k: Seq<char>| #[trigger] m.contains_key(k) && m[k] == a - 1;
        assert(m.contains_key(k));
    }
}

/// A mapping from token to id. No id is negative.
pub struct Vocabulary {
    map: StringHashMap<i32>,
    bound: usize,
}

impl View for Vocabulary {
    type V = Map<Seq<char>, i32>;

    closed spec fn view(&self) -> Map<Seq<char>, i32> {
        self.map@
    }
}

impl Vocabulary {
    #[verifier::type_invariant]
    spec fn inv(self) -> bool {
        is_id_bound(self.map@, self.bound as nat)
    }

    /// The least number above every id: the number of rows that a table
    /// needs to serve this vocabulary.
    pub closed spec fn spec_id_bound(&self) -> usize {
        self.bound
    }

    /// The vocabulary without tokens.
    pub fn new() -> (r: Vocabulary)
        ensures
            r@ == Map::<Seq<char>, i32>::empty(),
            r.spec_id_bound() == 0,
    {
        Vocabulary { map: StringHashMap::new(), bound: 0 }
    }

    /// The id of `token`, if it has one.
    pub fn get(&self, token: &str) -> (r: Option<i32>)
        ensures
            r == (if self@.contains_key(token@) {
                Some(self@[token@])
            } else {
                None
            }),
            r matches Some(id) ==> 0 <= id < self.spec_id_bound(),
    {
        proof {
            use_type_invariant(self);
        }
        match self.map.get(token) {
            Some(id) => Some(*id),
            None => None,
        }
    }

    /// Whether `token` has an id.
    pub fn contains(&self, token: &str) -> (r: bool)
        ensures
            r == self@.contains_key(token@),
    {
        self.map.contains_key(token)
    }

    /// The number of tokens.
    pub fn len(&self) -> (r: usize)
        ensures
            r == self@.len(),
    {
        self.map.len()
    }

    /// The least number above every id.
    #[verifier::when_used_as_spec(spec_id_bound)]
    pub fn id_bound(&self) -> (r: usize)
        ensures
            r == self.spec_id_bound(),
            is_id_bound(self@, r as nat),
    {
        proof {
            use_type_invariant(self);
        }
        self.bound
    }

    /// Adds `token` with `id`. A negative id and a token that is already
    /// there are refused, and the vocabulary is then left as it was.
    pub fn insert(&mut self, token: String, id: i32) -> (r: Result<(), InitError>)
        ensures
            r is Ok <==> id >= 0 && !old(self)@.contains_key(token@),
            r is Ok ==> final(self)@ == old(self)@.insert(token@, id),
            r is Ok ==> final(self).spec_id_bound() == (if id + 1 > old(self).spec_id_bound() {
                id + 1
            } else {
                old(self).spec_id_bound() as int
            }),
            r is Err ==> r == Err::<(), InitError>(InitError::MalformedVocabulary) && final(self)@
                == old(self)@ && final(self).spec_id_bound() == old(self).spec_id_bound(),
    {
        proof {
            use_type_invariant(&*self);
        }
        if id < 0 || self.map.contains_key(token.as_str()) {
            return Err(InitError::MalformedVocabulary);
        }
        let ghost before = self.map@;
        let ghost key = token@;
        let ghost old_bound = self.bound as nat;
        let needed: usize = id as usize + 1;
        let bound = if needed > self.bound {
            needed
        } else {
            self.bound
        };
        proof {
            let after = before.insert(key, id);
            assert forall|k: Seq<char>| #[trigger] after.contains_key(k) implies 0 <= after[k]
                < bound by {
                if k != key {
                    assert(before.contains_key(k));
                }
            }
            if needed > old_bound {
                assert(after.contains_key(key) && after[key] == bound - 1);
            } else {
                let top = choose|k: Seq<char>| #[trigger]
                    before.contains_key(k) && before[k] == old_bound - 1;
                assert(after.contains_key(top) && after[top] == bound - 1);
            }
            assert(is_id_bound(after, bound as nat));
        }
        let mut taken = Vocabulary::new();
        std::mem::swap(self, &mut taken);
        let Vocabulary { map, bound: _ } = taken;
        let mut map = map;
        map.insert(token, id);
        *self = Vocabulary { map, bound };
        Ok(())
    }

    /// The vocabulary that `entries` spell out.
    pub fn from_entries(entries: Vec<(String, i32)>) -> (r: Result<Vocabulary, InitError>)
        ensures
            r is Ok <==> entries_valid(entries@.map_values(|e: (String, i32)| entry_view(e))),
            r matches Ok(v) ==> v@ == entries_map(
                entries@.map_values(|e: (String, i32)| entry_view(e)),
            ),
            r is Err ==> r == Err::<Vocabulary, InitError>(InitError::MalformedVocabulary),
    {
        let ghost raw = entries@;
        let ghost all = raw.map_values(|e: (String, i32)| entry_view(e));
        let mut vocab = Vocabulary::new();
        for entry in it: entries
            invariant
                it.seq() == raw,
                all == raw.map_values(|e: (String, i32)| entry_view(e)),
                entries_valid(all.take(it.index())),
                vocab@ == entries_map(all.take(it.index())),
                forall|k: Seq<char>| #[trigger]
                    vocab@.contains_key(k) <==> exists|j: int|
                        0 <= j < it.index() && (#[trigger] all[j]).0 == k,
        {
            let ghost i = it.index();
            let (token, id) = entry;
            assert(token@ == all[i].0);
            assert(id == all[i].1);
            let ghost prefix = all.take(i);
            let ghost next = all.take(i + 1);
            let ghost before = vocab@;
            proof {
                assert(next.drop_last() =~= prefix);
                assert(next.last() == all[i]);
            }
            match vocab.insert(token, id) {
                Ok(()) => {
                    proof {
                        assert(!before.contains_key(all[i].0));
                        assert forall|a: int| 0 <= a < next.len() implies (#[trigger] next[a]).1
                            >= 0 by {
                            if a < i {
                                assert(prefix[a] == next[a]);
                            }
                        }
                        assert forall|a: int, b: int| 0 <= a < b < next.len() implies (
                        #[trigger] next[a]).0 != (#[trigger] next[b]).0 by {
                            if b < i {
                                assert(prefix[a] == next[a] && prefix[b] == next[b]);
                            } else {
                                assert(all[a].0 == next[a].0);
                            }
                        }
                        assert forall|k: Seq<char>| #[trigger]
                            vocab@.contains_key(k) <==> exists|j: int|
                                0 <= j < i + 1 && (#[trigger] all[j]).0 == k by {
                            if vocab@.contains_key(k) {
                                if k == all[i].0 {
                                    assert(all[i].0 == k);
                                } else {
                                    assert(before.contains_key(k));
                                    let j = choose|j: int| 0 <= j < i && (#[trigger] all[j]).0 == k;
                                    assert(0 <= j < i + 1 && all[j].0 == k);
                                }
                            }
                            if exists|j: int| 0 <= j < i + 1 && (#[trigger] all[j]).0 == k {
                                let j = choose|j: int| 0 <= j < i + 1 && (#[trigger] all[j]).0 == k;
                                if j < i {
                                    assert(before.contains_key(k));
                                }
                            }
                        }
                    }
                },
                Err(e) => {
                    proof {
                        if id >= 0 {
                            assert(before.contains_key(all[i].0));
                            let j = choose|j: int| 0 <= j < i && (#[trigger] all[j]).0 == all[i].0;
                            assert(all[j].0 == all[i].0);
                        }
                        assert(!entries_valid(all));
                    }
                    return Err(InitError::MalformedVocabulary);
                },
            }
        }
        assert(all.take(all.len() as int) =~= all);
        Ok(vocab)
    }
}

} // verus!
