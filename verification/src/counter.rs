//! A frequency table over string keys with a zero default.

use vstd::prelude::*;

verus! {

/// A table mapping a string key to a non-negative count. A key that was
/// never incremented reads as 0. Counts only grow: there is no removal.
///
/// The table is kept as a vector of key/count pairs; a key occurs at most
/// once because `increment` only appends a key it did not find. All
/// contracts speak through [`Counter::count`], which reads the first entry
/// whose key matches.
pub struct Counter {
    pub entries: Vec<(String, u32)>,
}

/// The count recorded for `key` in `entries`: the value of the first
/// matching entry, or 0 when no entry matches.
pub open spec fn seq_count(entries: Seq<(String, u32)>, key: Seq<char>) -> u32
    decreases entries.len(),
{
    if entries.len() == 0 {
        0u32
    } else if entries[0].0@ == key {
        entries[0].1
    } else {
        seq_count(entries.drop_first(), key)
    }
}

/// The sum of all counts recorded in `entries`.
pub open spec fn seq_total(entries: Seq<(String, u32)>) -> int
    decreases entries.len(),
{
    if entries.len() == 0 {
        0
    } else {
        entries[0].1 + seq_total(entries.drop_first())
    }
}

/// When no entry before `i` matches `key` and entry `i` does, the recorded
/// count is the value of entry `i`.
proof fn lemma_seq_count_first_match(s: Seq<(String, u32)>, i: int, key: Seq<char>)
    requires
        0 <= i < s.len(),
        s[i].0@ == key,
        forall|j: int| 0 <= j < i ==> s[j].0@ != key,
    ensures
        seq_count(s, key) == s[i].1,
    decreases i,
{
    if i > 0 {
        lemma_seq_count_first_match(s.drop_first(), i - 1, key);
    }
}

/// When no entry matches `key`, the recorded count is 0.
proof fn lemma_seq_count_absent(s: Seq<(String, u32)>, key: Seq<char>)
    requires
        forall|j: int| 0 <= j < s.len() ==> s[j].0@ != key,
    ensures
        seq_count(s, key) == 0,
    decreases s.len(),
{
    if s.len() > 0 {
        lemma_seq_count_absent(s.drop_first(), key);
    }
}

/// Replacing the first entry that matches `key` by a pair with the same key
/// changes that key's count to the new value, leaves every other key's count
/// alone, and moves the total by the difference of the two values.
proof fn lemma_seq_count_update(s: Seq<(String, u32)>, i: int, t: (String, u32), key: Seq<char>)
    requires
        0 <= i < s.len(),
        s[i].0@ == key,
        forall|j: int| 0 <= j < i ==> s[j].0@ != key,
        t.0@ == key,
    ensures
        seq_count(s.update(i, t), key) == t.1,
        forall|k2: Seq<char>|
            k2 != key ==> seq_count(s.update(i, t), k2) == seq_count(s, k2),
        seq_total(s.update(i, t)) == seq_total(s) - s[i].1 + t.1,
    decreases s.len(),
{
    if i == 0 {
        assert(s.update(0, t).drop_first() =~= s.drop_first());
    } else {
        assert(s.update(i, t).drop_first() =~= s.drop_first().update(i - 1, t));
        lemma_seq_count_update(s.drop_first(), i - 1, t, key);
        assert forall|k2: Seq<char>|
            k2 != key implies seq_count(s.update(i, t), k2) == seq_count(s, k2) by {
            assert(seq_count(s.drop_first().update(i - 1, t), k2) == seq_count(
                s.drop_first(),
                k2,
            ));
        }
    }
}

/// Appending a pair whose key matches no existing entry records its value
/// for that key, leaves every other key's count alone, and adds its value to
/// the total.
proof fn lemma_seq_count_push(s: Seq<(String, u32)>, t: (String, u32), key: Seq<char>)
    requires
        forall|j: int| 0 <= j < s.len() ==> s[j].0@ != key,
        t.0@ == key,
    ensures
        seq_count(s.push(t), key) == t.1,
        forall|k2: Seq<char>| k2 != key ==> seq_count(s.push(t), k2) == seq_count(s, k2),
        seq_total(s.push(t)) == seq_total(s) + t.1,
    decreases s.len(),
{
    if s.len() == 0 {
        assert(s.push(t).drop_first() =~= Seq::<(String, u32)>::empty());
        assert(seq_total(Seq::<(String, u32)>::empty()) == 0);
        assert forall|k2: Seq<char>|
            k2 != key implies seq_count(s.push(t), k2) == seq_count(s, k2) by {
            assert(seq_count(Seq::<(String, u32)>::empty(), k2) == 0);
        }
    } else {
        assert(s.push(t).drop_first() =~= s.drop_first().push(t));
        lemma_seq_count_push(s.drop_first(), t, key);
        assert forall|k2: Seq<char>|
            k2 != key implies seq_count(s.push(t), k2) == seq_count(s, k2) by {
            assert(seq_count(s.drop_first().push(t), k2) == seq_count(s.drop_first(), k2));
        }
    }
}

impl Counter {
    /// The count this table records for `key`.
    pub open spec fn count(self, key: Seq<char>) -> u32 {
        seq_count(self.entries@, key)
    }

    /// The sum of all counts this table records.
    pub open spec fn total(self) -> int {
        seq_total(self.entries@)
    }

    /// An empty table: every key, having never been inserted, reads as 0.
    pub fn new() -> (c: Counter)
        ensures
            forall|k: Seq<char>| c.count(k) == 0,
            c.total() == 0,
            c.entries@.len() == 0,
    {
        let c = Counter { entries: Vec::new() };
        proof {
            assert forall|k: Seq<char>| c.count(k) == 0 by {
                lemma_seq_count_absent(c.entries@, k);
            }
        }
        c
    }

    /// Reads the stored count, or 0 for an absent key. No side effect.
    pub fn get(&self, label: &str) -> (r: u32)
        ensures
            r == self.count(label@),
    {
        let key: String = label.to_owned();
        let n: usize = self.entries.len();
        let mut i: usize = 0;
        while i < n
            invariant
                n == self.entries@.len(),
                i <= n,
                key@ == label@,
                forall|j: int| 0 <= j < i ==> self.entries@[j].0@ != label@,
            decreases n - i,
        {
            if self.entries[i].0 == key {
                proof {
                    lemma_seq_count_first_match(self.entries@, i as int, label@);
                }
                return self.entries[i].1;
            }
            i += 1;
        }
        proof {
            lemma_seq_count_absent(self.entries@, label@);
        }
        0
    }

    /// Adds 1 to the stored count, inserting the key at 1 when absent, and
    /// returns the new count. Every other key's count is untouched.
    pub fn increment(&mut self, label: &str) -> (r: u32)
        requires
            old(self).count(label@) < u32::MAX,
        ensures
            final(self).count(label@) == old(self).count(label@) + 1,
            r == final(self).count(label@),
            forall|k: Seq<char>| k != label@ ==> final(self).count(k) == old(self).count(k),
            final(self).total() == old(self).total() + 1,
    {
        let key: String = label.to_owned();
        let n: usize = self.entries.len();
        let mut i: usize = 0;
        while i < n
            invariant
                self.entries@ == old(self).entries@,
                n == self.entries@.len(),
                i <= n,
                key@ == label@,
                old(self).count(label@) < u32::MAX,
                forall|j: int| 0 <= j < i ==> self.entries@[j].0@ != label@,
            decreases n - i,
        {
            if self.entries[i].0 == key {
                proof {
                    lemma_seq_count_first_match(self.entries@, i as int, label@);
                }
                let pair = self.entries.remove(i);
                let bumped: u32 = pair.1 + 1;
                self.entries.insert(i, (pair.0, bumped));
                proof {
                    assert(self.entries@ =~= old(self).entries@.update(
                        i as int,
                        (pair.0, bumped),
                    ));
                    lemma_seq_count_update(
                        old(self).entries@,
                        i as int,
                        (pair.0, bumped),
                        label@,
                    );
                }
                return bumped;
            }
            i += 1;
        }
        let fresh = (key, 1u32);
        self.entries.push(fresh);
        proof {
            lemma_seq_count_push(old(self).entries@, ((fresh.0), 1u32), label@);
            lemma_seq_count_absent(old(self).entries@, label@);
        }
        1
    }

    /// The recorded key/count pairs, for a caller that walks the table.
    pub fn iter(&self) -> (r: &Vec<(String, u32)>)
        ensures
            r@ == self.entries@,
    {
        &self.entries
    }
}

/// How many of the `keys` equal `k`.
pub open spec fn occurrences(keys: Seq<Seq<char>>, k: Seq<char>) -> int
    decreases keys.len(),
{
    if keys.len() == 0 {
        0
    } else {
        (if keys[0] == k {
            1int
        } else {
            0int
        }) + occurrences(keys.drop_first(), k)
    }
}

/// One `increment` step: exactly `key` went up by one.
pub open spec fn is_increment(pre: Counter, post: Counter, key: Seq<char>) -> bool {
    &&& post.count(key) == pre.count(key) + 1
    &&& forall|k2: Seq<char>| k2 != key ==> post.count(k2) == pre.count(k2)
}

/// Along any chain of `increment` calls, a key's count grows by exactly the
/// number of calls made with that key.
pub proof fn lemma_increment_tally(states: Seq<Counter>, keys: Seq<Seq<char>>, k: Seq<char>)
    requires
        states.len() == keys.len() + 1,
        forall|i: int|
            0 <= i < keys.len() ==> is_increment(states[i], states[i + 1], keys[i]),
    ensures
        states.last().count(k) == states.first().count(k) + occurrences(keys, k),
    decreases keys.len(),
{
    if keys.len() > 0 {
        assert(is_increment(states[0], states[1], keys[0]));
        lemma_increment_tally(states.drop_first(), keys.drop_first(), k);
        assert(states.drop_first().first() == states[1]);
        assert(states.drop_first().last() == states.last());
    }
}

} // verus!
