//! Small lookup tables: names keyed by a number or by a string, and sets of numbers.
//!
//! Numeric keys go in std's `HashMap` and `HashSet`, whose contents vstd states as a
//! `Map` and a `Set`. String keys are held in a vector with one entry per key: they are
//! few (the PnP vendor codes one machine asks about, the languages of one label), and
//! vstd states a `HashMap`'s or `HashSet`'s contents only for keys it knows to hash and
//! compare faithfully, which are the primitive types and boxes of them, not `String`.
use vstd::prelude::*;
use std::collections::{HashMap, HashSet};

verus! {

// ------------------------------------------------------------------ numbers to names

/// Names keyed by a number.
pub struct Table {
    entries: HashMap<u64, String>,
}

impl View for Table {
    type V = Map<u64, Seq<char>>;

    closed spec fn view(&self) -> Map<u64, Seq<char>> {
        self.entries@.map_values(|s: String| s@)
    }
}

impl Table {
    /// The table holds finitely many keys.
    pub closed spec fn wf(&self) -> bool {
        self.entries@.dom().finite()
    }

    pub fn new() -> (t: Self)
        ensures
            t.wf(),
            t@ == Map::<u64, Seq<char>>::empty(),
    {
        let t = Table { entries: HashMap::new() };
        proof {
            assert(t@ =~= Map::<u64, Seq<char>>::empty());
        }
        t
    }

    /// The name stored under `k`.
    pub fn get(&self, k: u64) -> (r: Option<&String>)
        requires
            self.wf(),
        ensures
            match r {
                Some(s) => self@.contains_key(k) && self@[k] == s@,
                None => !self@.contains_key(k),
            },
    {
        self.entries.get(&k)
    }

    /// Stores `v` under `k`, replacing what was there.
    pub fn insert(&mut self, k: u64, v: String)
        requires
            old(self).wf(),
        ensures
            final(self).wf(),
            final(self)@ == old(self)@.insert(k, v@),
    {
        let ghost vv = v@;
        let _ = self.entries.insert(k, v);
        proof {
            assert(self@ =~= old(self)@.insert(k, vv));
        }
    }

    /// Number of keys.
    pub fn len(&self) -> (n: usize)
        requires
            self.wf(),
        ensures
            n == self@.dom().len(),
    {
        proof {
            assert(self@.dom() =~= self.entries@.dom());
        }
        self.entries.len()
    }
}

// ------------------------------------------------------------------ sets of numbers

/// A set of numbers.
pub struct KeySet {
    keys: HashSet<u64>,
}

impl View for KeySet {
    type V = Set<u64>;

    closed spec fn view(&self) -> Set<u64> {
        self.keys@
    }
}

impl KeySet {
    pub fn new() -> (s: Self)
        ensures
            s@ == Set::<u64>::empty(),
    {
        KeySet { keys: HashSet::new() }
    }

    pub fn contains(&self, k: u64) -> (r: bool)
        ensures
            r == self@.contains(k),
    {
        self.keys.contains(&k)
    }

    pub fn insert(&mut self, k: u64)
        ensures
            final(self)@ == old(self)@.insert(k),
    {
        let _ = self.keys.insert(k);
    }
}

// ------------------------------------------------------------------ strings to names

/// Names keyed by a string.
pub struct StrTable {
    entries: Vec<(String, String)>,
}

pub open spec fn str_keys_distinct(e: Seq<(String, String)>) -> bool {
    forall|i: int, j: int|
        0 <= i < e.len() && 0 <= j < e.len() && e[i].0@ == e[j].0@ ==> i == j
}

pub open spec fn has_str_key(e: Seq<(String, String)>, k: Seq<char>) -> bool {
    exists|i: int| 0 <= i < e.len() && e[i].0@ == k
}

pub open spec fn str_key_index(e: Seq<(String, String)>, k: Seq<char>) -> int {
    choose|i: int| 0 <= i < e.len() && e[i].0@ == k
}

pub open spec fn str_table_map(e: Seq<(String, String)>) -> Map<Seq<char>, Seq<char>> {
    Map::new(|k: Seq<char>| has_str_key(e, k), |k: Seq<char>| e[str_key_index(e, k)].1@)
}

impl View for StrTable {
    type V = Map<Seq<char>, Seq<char>>;

    closed spec fn view(&self) -> Map<Seq<char>, Seq<char>> {
        str_table_map(self.entries@)
    }
}

impl StrTable {
    pub closed spec fn wf(&self) -> bool {
        str_keys_distinct(self.entries@)
    }

    pub fn new() -> (t: Self)
        ensures
            t.wf(),
            t@ == Map::<Seq<char>, Seq<char>>::empty(),
    {
        let t = StrTable { entries: Vec::new() };
        proof {
            assert(t@ =~= Map::<Seq<char>, Seq<char>>::empty());
        }
        t
    }

    fn find(&self, k: &[char]) -> (r: Option<usize>)
        ensures
            match r {
                Some(i) => i < self.entries@.len() && self.entries@[i as int].0@ == k@,
                None => !has_str_key(self.entries@, k@),
            },
    {
        let mut i: usize = 0;
        while i < self.entries.len()
            invariant
                i <= self.entries@.len(),
                forall|j: int| 0 <= j < i ==> self.entries@[j].0@ != k@,
            decreases self.entries@.len() - i,
        {
            let c = crate::text::chars_of(self.entries[i].0.as_str());
            if crate::text::chars_eq(c.as_slice(), k) {
                return Some(i);
            }
            i += 1;
        }
        None
    }

    /// Every key and its text, each key once.
    pub fn entries(&self) -> (e: &[(String, String)])
        ensures
            str_table_map(e@) == self@,
            self.wf() ==> str_keys_distinct(e@),
    {
        self.entries.as_slice()
    }

    pub fn get(&self, k: &[char]) -> (r: Option<&String>)
        requires
            self.wf(),
        ensures
            match r {
                Some(s) => self@.contains_key(k@) && self@[k@] == s@,
                None => !self@.contains_key(k@),
            },
    {
        match self.find(k) {
            Some(i) => {
                proof {
                    let j = str_key_index(self.entries@, k@);
                    assert(has_str_key(self.entries@, k@));
                    assert(self.entries@[j].0@ == k@);
                }
                Some(&self.entries[i].1)
            },
            None => None,
        }
    }

    pub fn insert(&mut self, k: String, v: String)
        requires
            old(self).wf(),
        ensures
            final(self).wf(),
            final(self)@ == old(self)@.insert(k@, v@),
    {
        let ghost old_e = self.entries@;
        let ghost kv = k@;
        let ghost vv = v@;
        let kc = crate::text::chars_of(k.as_str());
        match self.find(kc.as_slice()) {
            Some(i) => {
                self.entries.set(i, (k, v));
                proof {
                    let e = self.entries@;
                    assert forall|a: int, b: int|
                        0 <= a < e.len() && 0 <= b < e.len() && e[a].0@ == e[b].0@ implies a
                        == b by {
                        if a != i && b != i {
                            assert(old_e[a].0@ == old_e[b].0@);
                        } else if a == i && b != i {
                            assert(old_e[b].0@ == kv);
                        } else if b == i && a != i {
                            assert(old_e[a].0@ == kv);
                        }
                    }
                    assert forall|x: Seq<char>| #[trigger] has_str_key(e, x) == has_str_key(
                        old_e,
                        x,
                    ) || x == kv by {
                        if has_str_key(e, x) && x != kv {
                            let a = choose|a: int| 0 <= a < e.len() && e[a].0@ == x;
                            assert(old_e[a].0@ == x);
                        }
                        if has_str_key(old_e, x) && x != kv {
                            let a = choose|a: int| 0 <= a < old_e.len() && old_e[a].0@ == x;
                            assert(e[a].0@ == x);
                        }
                    }
                    assert forall|x: Seq<char>|
                        has_str_key(e, x) && x != kv implies #[trigger] e[str_key_index(
                        e,
                        x,
                    )].1@ == old_e[str_key_index(old_e, x)].1@ by {
                        let a = str_key_index(e, x);
                        let b = str_key_index(old_e, x);
                        assert(old_e[a].0@ == x);
                    }
                    assert(e[i as int].0@ == kv);
                    assert(has_str_key(e, kv));
                    assert(e[str_key_index(e, kv)].0@ == kv);
                    assert(self@ =~= str_table_map(old_e).insert(kv, vv));
                }
            },
            None => {
                self.entries.push((k, v));
                proof {
                    let e = self.entries@;
                    assert forall|x: Seq<char>| #[trigger] has_str_key(e, x) == (has_str_key(
                        old_e,
                        x,
                    ) || x == kv) by {
                        if has_str_key(old_e, x) {
                            let a = choose|a: int| 0 <= a < old_e.len() && old_e[a].0@ == x;
                            assert(e[a].0@ == x);
                        }
                        if x == kv {
                            assert(e[old_e.len() as int].0@ == kv);
                        }
                    }
                    assert forall|x: Seq<char>|
                        has_str_key(e, x) && x != kv implies #[trigger] e[str_key_index(
                        e,
                        x,
                    )].1@ == old_e[str_key_index(old_e, x)].1@ by {
                        let a = str_key_index(e, x);
                        let b = str_key_index(old_e, x);
                        assert(e[b].0@ == x);
                    }
                    assert(e[old_e.len() as int].0@ == kv);
                    assert(has_str_key(e, kv));
                    assert(e[str_key_index(e, kv)].0@ == kv);
                    assert(self@ =~= str_table_map(old_e).insert(kv, vv));
                }
            },
        }
    }
}

} // verus!
