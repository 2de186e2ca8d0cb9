use vstd::prelude::*;

verus! {

/// A position as the table keys it: red stones, blue stones, player to move.
pub type Position = (u128, u128, u8);

/// The map that a list of entries with distinct keys stands for.
pub open spec fn entries_map(s: Seq<(Position, i32)>) -> Map<Position, i32>
    decreases s.len(),
{
    if s.len() == 0 {
        Map::empty()
    } else {
        entries_map(s.drop_last()).insert(s.last().0, s.last().1)
    }
}

/// No key occurs twice in the list.
pub open spec fn distinct_keys(s: Seq<(Position, i32)>) -> bool {
    forall|i: int, j: int| 0 <= i < j < s.len() ==> #[trigger] s[i].0 != #[trigger] s[j].0
}

proof fn lemma_entries_map(s: Seq<(Position, i32)>)
    requires
        distinct_keys(s),
    ensures
        forall|k: Position| #[trigger]
            entries_map(s).contains_key(k) <==> exists|i: int| 0 <= i < s.len() && s[i].0 == k,
        forall|i: int| 0 <= i < s.len() ==> entries_map(s)[#[trigger] s[i].0] == s[i].1,
        entries_map(s).dom().finite(),
        entries_map(s).dom().len() == s.len(),
    decreases s.len(),
{
    if s.len() > 0 {
        let p = s.drop_last();
        assert forall|i: int, j: int| 0 <= i < j < p.len() implies #[trigger] p[i].0 != #[trigger] p[j].0 by {
            assert(p[i] == s[i] && p[j] == s[j]);
        }
        lemma_entries_map(p);
        let last = s.last();
        assert(!entries_map(p).contains_key(last.0)) by {
            if entries_map(p).contains_key(last.0) {
                let i = choose|i: int| 0 <= i < p.len() && p[i].0 == last.0;
                assert(s[i] == p[i]);
                assert(s[i].0 != s[s.len() - 1].0);
            }
        }
        assert forall|k: Position| #[trigger]
            entries_map(s).contains_key(k) <==> exists|i: int| 0 <= i < s.len() && s[i].0 == k by {
            if entries_map(s).contains_key(k) && k != last.0 {
                let i = choose|i: int| 0 <= i < p.len() && p[i].0 == k;
                assert(s[i] == p[i]);
            }
            if exists|i: int| 0 <= i < s.len() && s[i].0 == k {
                let i = choose|i: int| 0 <= i < s.len() && s[i].0 == k;
                if i < p.len() {
                    assert(s[i] == p[i]);
                }
            }
        }
        assert forall|i: int| 0 <= i < s.len() implies entries_map(s)[#[trigger] s[i].0] == s[i].1 by {
            if i < p.len() {
                assert(s[i] == p[i]);
                assert(s[i].0 != last.0);
            }
        }
        assert(entries_map(s).dom() == entries_map(p).dom().insert(last.0));
    }
}

/// A transposition table: the evaluation stored for each position met.
pub struct Transpositions {
    entries: Vec<(Position, i32)>,
}

impl View for Transpositions {
    type V = Map<Position, i32>;

    closed spec fn view(&self) -> Map<Position, i32> {
        entries_map(self.entries@)
    }
}

impl Transpositions {
    #[verifier::type_invariant]
    spec fn wf(self) -> bool {
        distinct_keys(self.entries@)
    }

    /// An empty table.
    pub fn new() -> (t: Transpositions)
        ensures
            t@ == Map::<Position, i32>::empty(),
    {
        Transpositions { entries: Vec::new() }
    }

    /// The number of positions stored.
    pub fn len(&self) -> (n: usize)
        ensures
            n == self@.len(),
    {
        proof {
            use_type_invariant(self);
            lemma_entries_map(self.entries@);
        }
        self.entries.len()
    }

    /// The evaluation stored for `key`, if any.
    pub fn get(&self, key: &Position) -> (r: Option<i32>)
        ensures
            r == (if self@.contains_key(*key) {
                Some(self@[*key])
            } else {
                None
            }),
    {
        proof {
            use_type_invariant(self);
            lemma_entries_map(self.entries@);
        }
        let mut i: usize = 0;
        while i < self.entries.len()
            invariant
                0 <= i <= self.entries@.len(),
                forall|j: int| 0 <= j < i ==> self.entries@[j].0 != *key,
            decreases self.entries@.len() - i,
        {
            let entry = self.entries[i];
            if entry.0.0 == key.0 && entry.0.1 == key.1 && entry.0.2 == key.2 {
                assert(self.entries@[i as int].0 == *key);
                proof {
                    use_type_invariant(self);
                    lemma_entries_map(self.entries@);
                }
                return Some(entry.1);
            }
            i = i + 1;
        }
        proof {
            use_type_invariant(self);
            lemma_entries_map(self.entries@);
        }
        None
    }

    /// Stores `value` for `key`, replacing what was stored for it.
    pub fn insert(&mut self, key: Position, value: i32)
        ensures
            final(self)@ == old(self)@.insert(key, value),
    {
        proof {
            use_type_invariant(&*self);
            lemma_entries_map(self.entries@);
        }
        let ghost s0 = self.entries@;
        let mut i: usize = 0;
        while i < self.entries.len()
            invariant
                0 <= i <= self.entries@.len(),
                self.entries@ == s0,
                old(self).entries@ == s0,
                distinct_keys(s0),
                forall|j: int| 0 <= j < i ==> s0[j].0 != key,
            decreases self.entries@.len() - i,
        {
            let entry = self.entries[i];
            if entry.0.0 == key.0 && entry.0.1 == key.1 && entry.0.2 == key.2 {
                let ghost s1 = s0.update(i as int, (key, value));
                assert(distinct_keys(s1)) by {
                    assert forall|a: int, b: int| 0 <= a < b < s1.len() implies #[trigger] s1[a].0 != #[trigger] s1[b].0 by {
                        assert(s1[a].0 == s0[a].0);
                        assert(s1[b].0 == s0[b].0);
                    }
                }
                proof {
                    lemma_entries_map(s0);
                    lemma_entries_map(s1);
                    assert(entries_map(s1) =~= entries_map(s0).insert(key, value)) by {
                        assert forall|k: Position| #[trigger] entries_map(s1).contains_key(k) == entries_map(s0).insert(
                            key,
                            value,
                        ).contains_key(k) by {
                            if exists|j: int| 0 <= j < s0.len() && s0[j].0 == k {
                                let j = choose|j: int| 0 <= j < s0.len() && s0[j].0 == k;
                                assert(s1[j].0 == k);
                            }
                            if exists|j: int| 0 <= j < s1.len() && s1[j].0 == k {
                                let j = choose|j: int| 0 <= j < s1.len() && s1[j].0 == k;
                                assert(s0[j].0 == k);
                            }
                        }
                        assert forall|k: Position| #[trigger] entries_map(s1).contains_key(k) implies entries_map(s1)[k]
                            == entries_map(s0).insert(key, value)[k] by {
                            let j = choose|j: int| 0 <= j < s1.len() && s1[j].0 == k;
                            assert(entries_map(s1)[s1[j].0] == s1[j].1);
                            if j != i {
                                assert(s1[j] == s0[j]);
                                assert(entries_map(s0)[s0[j].0] == s0[j].1);
                            }
                        }
                    }
                }
                let mut entries: Vec<(Position, i32)> = Vec::new();
                std::mem::swap(&mut entries, &mut self.entries);
                entries.set(i, (key, value));
                self.entries = entries;
                return;
            }
            i = i + 1;
        }
        let ghost s1 = s0.push((key, value));
        assert(distinct_keys(s1)) by {
            assert forall|a: int, b: int| 0 <= a < b < s1.len() implies #[trigger] s1[a].0 != #[trigger] s1[b].0 by {
                assert(s1[a] == s0[a]);
                if b < s0.len() {
                    assert(s1[b] == s0[b]);
                }
            }
        }
        assert(s1.drop_last() == s0);
        let mut entries: Vec<(Position, i32)> = Vec::new();
        std::mem::swap(&mut entries, &mut self.entries);
        entries.push((key, value));
        self.entries = entries;
    }
}

} // verus!
