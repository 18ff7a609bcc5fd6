//! The mapping from signal identifier to output name that the resolver
//! builds and the generator reads.
//!
//! Entries are kept in insertion order; a repeated insertion of an existing
//! key overwrites that key's name in place (last write wins).

use vstd::prelude::*;

verus! {

/// The mapping an entry sequence denotes: a later entry for the same key
/// overwrites an earlier one.
pub open spec fn entries_map(s: Seq<(u64, Seq<char>)>) -> Map<u64, Seq<char>>
    decreases s.len(),
{
    if s.len() == 0 {
        Map::empty()
    } else {
        entries_map(s.drop_last()).insert(s.last().0, s.last().1)
    }
}

/// Whether some entry carries the key `k`.
pub open spec fn has_key(s: Seq<(u64, Seq<char>)>, k: u64) -> bool {
    exists|i: int| 0 <= i < s.len() && s[i].0 == k
}

/// Whether no two entries share a key.
pub open spec fn unique_keys(s: Seq<(u64, Seq<char>)>) -> bool {
    forall|i: int, j: int| 0 <= i < j < s.len() ==> s[i].0 != s[j].0
}

/// The position of the first entry carrying `k`, or a negative value if
/// there is none.
pub open spec fn index_of_key(s: Seq<(u64, Seq<char>)>, k: u64) -> int
    decreases s.len(),
{
    if s.len() == 0 {
        -1
    } else if s[0].0 == k {
        0
    } else {
        let r = index_of_key(s.drop_first(), k);
        if r < 0 {
            -1
        } else {
            r + 1
        }
    }
}

/// `index_of_key` finds the first entry carrying `k`, and a negative result
/// means there is none.
pub proof fn lemma_index_of_key(s: Seq<(u64, Seq<char>)>, k: u64)
    ensures
        index_of_key(s, k) < 0 ==> !has_key(s, k),
        index_of_key(s, k) >= 0 ==> 0 <= index_of_key(s, k) < s.len() && s[index_of_key(s, k)].0
            == k && forall|j: int| 0 <= j < index_of_key(s, k) ==> s[j].0 != k,
    decreases s.len(),
{
    if s.len() == 0 {
    } else if s[0].0 == k {
    } else {
        lemma_index_of_key(s.drop_first(), k);
        if index_of_key(s, k) < 0 && has_key(s, k) {
            let i = choose|i: int| 0 <= i < s.len() && s[i].0 == k;
            assert(s.drop_first()[i - 1].0 == k);
        }
        let r = index_of_key(s.drop_first(), k);
        if r >= 0 {
            assert(s[r + 1] == s.drop_first()[r]);
            assert(forall|j: int| 1 <= j < r + 1 ==> s[j] == s.drop_first()[j - 1]);
        }
    }
}

/// If the entry at `i` is the first one carrying `k`, `index_of_key` finds
/// exactly `i`.
pub proof fn lemma_index_of_key_first(s: Seq<(u64, Seq<char>)>, k: u64, i: int)
    requires
        0 <= i < s.len(),
        s[i].0 == k,
        forall|j: int| 0 <= j < i ==> s[j].0 != k,
    ensures
        index_of_key(s, k) == i,
    decreases s.len(),
{
    if i > 0 {
        lemma_index_of_key_first(s.drop_first(), k, i - 1);
    }
}

/// The entry sequence after inserting `(k, v)`: an existing key has its name
/// overwritten in place, a new key goes to the end.
pub open spec fn upsert_entries(s: Seq<(u64, Seq<char>)>, k: u64, v: Seq<char>) -> Seq<
    (u64, Seq<char>),
> {
    let i = index_of_key(s, k);
    if 0 <= i < s.len() {
        s.update(i, (k, v))
    } else {
        s.push((k, v))
    }
}

/// The entry sequence after inserting each pair of `pairs` in order.
pub open spec fn apply_upserts(
    s: Seq<(u64, Seq<char>)>,
    pairs: Seq<(u64, Seq<char>)>,
) -> Seq<(u64, Seq<char>)>
    decreases pairs.len(),
{
    if pairs.len() == 0 {
        s
    } else {
        apply_upserts(upsert_entries(s, pairs[0].0, pairs[0].1), pairs.drop_first())
    }
}

/// The denoted mapping contains exactly the keys of the entries.
pub proof fn lemma_entries_map_domain(s: Seq<(u64, Seq<char>)>, k: u64)
    ensures
        entries_map(s).contains_key(k) <==> has_key(s, k),
    decreases s.len(),
{
    if s.len() == 0 {
    } else {
        lemma_entries_map_domain(s.drop_last(), k);
        if s.last().0 == k {
            assert(s[s.len() - 1].0 == k);
        } else {
            if has_key(s, k) {
                let i = choose|i: int| 0 <= i < s.len() && s[i].0 == k;
                assert(s.drop_last()[i].0 == k);
            }
            if has_key(s.drop_last(), k) {
                let i = choose|i: int| 0 <= i < s.drop_last().len() && s.drop_last()[i].0 == k;
                assert(s[i].0 == k);
            }
        }
    }
}

/// With unique keys, the denoted mapping sends each entry's key to that
/// entry's name.
pub proof fn lemma_entries_map_at(s: Seq<(u64, Seq<char>)>, i: int)
    requires
        unique_keys(s),
        0 <= i < s.len(),
    ensures
        entries_map(s).contains_key(s[i].0),
        entries_map(s)[s[i].0] == s[i].1,
    decreases s.len(),
{
    if i == s.len() - 1 {
    } else {
        assert(s.drop_last()[i] == s[i]);
        assert(unique_keys(s.drop_last())) by {
            assert(forall|a: int, b: int|
                0 <= a < b < s.drop_last().len() ==> s.drop_last()[a].0 != s.drop_last()[b].0);
        }
        lemma_entries_map_at(s.drop_last(), i);
        assert(s.last().0 != s[i].0);
    }
}

/// A mapping from signal identifier to output name, in insertion order.
#[derive(Debug)]
pub struct SignalMap {
    entries: Vec<(u64, String)>,
}

impl View for SignalMap {
    type V = Seq<(u64, Seq<char>)>;

    closed spec fn view(&self) -> Seq<(u64, Seq<char>)> {
        self.entries@.map_values(|e: (u64, String)| (e.0, e.1@))
    }
}

impl SignalMap {
    /// No two entries share a key.
    pub open spec fn wf(self) -> bool {
        unique_keys(self@)
    }

    /// The mapping this value denotes.
    pub open spec fn as_map(self) -> Map<u64, Seq<char>> {
        entries_map(self@)
    }

    /// An empty mapping.
    pub fn new() -> (r: SignalMap)
        ensures
            r@ =~= Seq::<(u64, Seq<char>)>::empty(),
            r.wf(),
    {
        SignalMap { entries: Vec::new() }
    }

    /// The number of entries.
    pub fn len(&self) -> (n: usize)
        ensures
            n == self@.len(),
    {
        self.entries.len()
    }

    /// The key of the entry at position `i`.
    pub fn key_at(&self, i: usize) -> (k: u64)
        requires
            i < self@.len(),
        ensures
            k == self@[i as int].0,
    {
        self.entries[i].0
    }

    /// The output name of the entry at position `i`.
    pub fn name_at(&self, i: usize) -> (r: &String)
        requires
            i < self@.len(),
        ensures
            r@ == self@[i as int].1,
    {
        &self.entries[i].1
    }

    /// The position of the entry carrying `key`, if any.
    fn position(&self, key: u64) -> (r: Option<usize>)
        ensures
            match r {
                Some(i) => i < self@.len() && self@[i as int].0 == key && index_of_key(self@, key)
                    == i,
                None => !has_key(self@, key) && index_of_key(self@, key) < 0,
            },
    {
        let n = self.entries.len();
        let mut i: usize = 0;
        while i < n
            invariant
                i <= n,
                n == self@.len(),
                forall|j: int| 0 <= j < i ==> self@[j].0 != key,
            decreases n - i,
        {
            if self.entries[i].0 == key {
                proof {
                    lemma_index_of_key_first(self@, key, i as int);
                }
                return Some(i);
            }
            i = i + 1;
        }
        proof {
            lemma_index_of_key(self@, key);
        }
        None
    }

    /// Whether some entry carries `key`.
    pub fn contains_key(&self, key: u64) -> (r: bool)
        ensures
            r == has_key(self@, key),
    {
        match self.position(key) {
            Some(_) => true,
            None => false,
        }
    }

    /// The output name mapped to `key`, if any.
    pub fn get(&self, key: u64) -> (r: Option<&String>)
        requires
            self.wf(),
        ensures
            match r {
                Some(v) => self.as_map().contains_key(key) && v@ == self.as_map()[key],
                None => !self.as_map().contains_key(key),
            },
    {
        match self.position(key) {
            Some(i) => {
                proof {
                    lemma_entries_map_at(self@, i as int);
                }
                Some(&self.entries[i].1)
            }
            None => {
                proof {
                    lemma_entries_map_domain(self@, key);
                }
                None
            }
        }
    }

    /// Inserts `(key, name)`: a new key goes to the end, an existing key has
    /// its name overwritten in place. Last write wins.
    pub fn upsert(&mut self, key: u64, name: String)
        requires
            old(self).wf(),
        ensures
            final(self).wf(),
            final(self)@ == upsert_entries(old(self)@, key, name@),
            final(self).as_map() == old(self).as_map().insert(key, name@),
    {
        let ghost s0 = self@;
        proof {
            lemma_upsert_entries(s0, key, name@);
        }
        match self.position(key) {
            Some(i) => {
                self.entries[i] = (key, name);
                proof {
                    assert(self@ =~= s0.update(i as int, (key, name@)));
                }
            }
            None => {
                self.entries.push((key, name));
                proof {
                    assert(self@ =~= s0.push((key, name@)));
                }
            }
        }
    }
}

/// Inserting one pair changes the denoted mapping exactly as a map insert
/// does, and keeps the keys unique.
pub proof fn lemma_upsert_entries(s: Seq<(u64, Seq<char>)>, k: u64, v: Seq<char>)
    requires
        unique_keys(s),
    ensures
        unique_keys(upsert_entries(s, k, v)),
        entries_map(upsert_entries(s, k, v)) == entries_map(s).insert(k, v),
{
    lemma_index_of_key(s, k);
    let i = index_of_key(s, k);
    if 0 <= i < s.len() {
        lemma_entries_map_update(s, i, k, v);
        assert(entries_map(upsert_entries(s, k, v)) =~= entries_map(s).insert(k, v));
    } else {
        let p = s.push((k, v));
        assert(p.drop_last() =~= s);
        assert(forall|j: int| 0 <= j < s.len() ==> s[j].0 != k);
        assert(unique_keys(p));
        assert(entries_map(p) =~= entries_map(s).insert(k, v));
    }
}

/// Inserting a sequence of pairs in order overrides the denoted mapping with
/// the mapping the pairs themselves denote, and keeps the keys unique.
pub proof fn lemma_apply_upserts(s: Seq<(u64, Seq<char>)>, pairs: Seq<(u64, Seq<char>)>)
    requires
        unique_keys(s),
    ensures
        unique_keys(apply_upserts(s, pairs)),
        entries_map(apply_upserts(s, pairs)) == entries_map(s).union_prefer_right(
            entries_map(pairs),
        ),
    decreases pairs.len(),
{
    if pairs.len() == 0 {
        assert(entries_map(s).union_prefer_right(Map::empty()) =~= entries_map(s));
    } else {
        let p = pairs[0];
        let rest = pairs.drop_first();
        lemma_upsert_entries(s, p.0, p.1);
        lemma_apply_upserts(upsert_entries(s, p.0, p.1), rest);
        lemma_entries_map_cons(pairs);
        assert(entries_map(s).insert(p.0, p.1).union_prefer_right(entries_map(rest))
            =~= entries_map(s).union_prefer_right(entries_map(pairs))) by {
            lemma_entries_map_domain_all(rest);
        }
    }
}

/// The mapping of a non-empty entry sequence, unfolded at the front: the
/// first entry counts only where no later entry repeats its key.
proof fn lemma_entries_map_cons(s: Seq<(u64, Seq<char>)>)
    requires
        s.len() > 0,
    ensures
        entries_map(s) == if entries_map(s.drop_first()).contains_key(s[0].0) {
            entries_map(s.drop_first())
        } else {
            entries_map(s.drop_first()).insert(s[0].0, s[0].1)
        },
    decreases s.len(),
{
    let rest = s.drop_first();
    if s.len() == 1 {
        assert(s.drop_last().len() == 0);
        assert(entries_map(s.drop_last()) == Map::<u64, Seq<char>>::empty());
        assert(rest.len() == 0);
        assert(entries_map(rest) == Map::<u64, Seq<char>>::empty());
        assert(entries_map(s) =~= entries_map(rest).insert(s[0].0, s[0].1));
    } else {
        lemma_entries_map_cons(s.drop_last());
        assert(s.drop_last().drop_first() =~= rest.drop_last());
        assert(s.drop_last()[0] == s[0]);
        assert(s.last() == rest.last());
        lemma_entries_map_domain(rest.drop_last(), s[0].0);
        lemma_entries_map_domain(rest, s[0].0);
        if entries_map(rest.drop_last()).contains_key(s[0].0) {
            let i = choose|i: int| 0 <= i < rest.drop_last().len() && rest.drop_last()[i].0
                == s[0].0;
            assert(rest[i].0 == s[0].0);
            assert(entries_map(s) =~= entries_map(rest));
        } else if s.last().0 == s[0].0 {
            assert(entries_map(s) =~= entries_map(rest));
        } else {
            if has_key(rest, s[0].0) {
                let i = choose|i: int| 0 <= i < rest.len() && rest[i].0 == s[0].0;
                assert(rest.drop_last()[i].0 == s[0].0);
            }
            assert(entries_map(s) == entries_map(rest.drop_last()).insert(s[0].0, s[0].1).insert(
                s.last().0,
                s.last().1,
            ));
            assert(entries_map(rest) == entries_map(rest.drop_last()).insert(
                rest.last().0,
                rest.last().1,
            ));
            let m = entries_map(rest.drop_last());
            let a = s[0].0;
            let b = s.last().0;
            assert(a != b);
            assert(m.insert(a, s[0].1).insert(b, s.last().1) =~= m.insert(b, s.last().1).insert(
                a,
                s[0].1,
            ));
            assert(entries_map(rest).insert(s[0].0, s[0].1) == m.insert(b, s.last().1).insert(
                a,
                s[0].1,
            ));
            assert(entries_map(s) == entries_map(rest).insert(s[0].0, s[0].1));
        }
    }
}

/// Every value of the denoted mapping comes from some entry with that key.
pub proof fn lemma_entries_map_value(s: Seq<(u64, Seq<char>)>, k: u64)
    requires
        entries_map(s).contains_key(k),
    ensures
        exists|j: int| 0 <= j < s.len() && s[j].0 == k && s[j].1 == entries_map(s)[k],
    decreases s.len(),
{
    if s.len() == 0 {
        assert(entries_map(s) == Map::<u64, Seq<char>>::empty());
    } else if s.last().0 == k {
        assert(s[s.len() - 1].0 == k && s[s.len() - 1].1 == entries_map(s)[k]);
    } else {
        lemma_entries_map_value(s.drop_last(), k);
        let j = choose|j: int|
            0 <= j < s.drop_last().len() && s.drop_last()[j].0 == k && s.drop_last()[j].1
                == entries_map(s.drop_last())[k];
        assert(s[j].0 == k && s[j].1 == entries_map(s)[k]);
    }
}

/// Helper: domains of entry maps match their key sets, for every key.
pub proof fn lemma_entries_map_domain_all(s: Seq<(u64, Seq<char>)>)
    ensures
        forall|k: u64| entries_map(s).contains_key(k) <==> has_key(s, k),
{
    assert forall|k: u64| entries_map(s).contains_key(k) <==> has_key(s, k) by {
        lemma_entries_map_domain(s, k);
    }
}

/// Overwriting the entry that carries `k` in place changes the denoted
/// mapping exactly as an insert of `(k, v)` does, and keeps the keys.
proof fn lemma_entries_map_update(s: Seq<(u64, Seq<char>)>, i: int, k: u64, v: Seq<char>)
    requires
        unique_keys(s),
        0 <= i < s.len(),
        s[i].0 == k,
    ensures
        entries_map(s.update(i, (k, v))) =~= entries_map(s).insert(k, v),
        unique_keys(s.update(i, (k, v))),
    decreases s.len(),
{
    let u = s.update(i, (k, v));
    assert(forall|j: int| 0 <= j < s.len() ==> u[j].0 == s[j].0);
    if i == s.len() - 1 {
        assert(u.drop_last() =~= s.drop_last());
        assert(entries_map(u) =~= entries_map(s).insert(k, v));
    } else {
        assert(unique_keys(s.drop_last())) by {
            assert(forall|a: int, b: int|
                0 <= a < b < s.drop_last().len() ==> s.drop_last()[a].0 != s.drop_last()[b].0);
        }
        assert(s.drop_last()[i] == s[i]);
        lemma_entries_map_update(s.drop_last(), i, k, v);
        assert(u.drop_last() =~= s.drop_last().update(i, (k, v)));
        assert(u.last() == s.last());
        assert(s.last().0 != k);
        assert(entries_map(u) =~= entries_map(s).insert(k, v));
    }
}

} // verus!
