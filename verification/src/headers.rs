//! The header block of a request or a response: a map from key to value that
//! remembers the order in which its keys first came.

use crate::text::same_text;
use vstd::prelude::*;

verus! {

/// No two entries of `es` share their key.
pub open spec fn distinct_keys(es: Seq<(Seq<char>, Seq<char>)>) -> bool {
    forall|i: int, j: int| 0 <= i < j < es.len() ==> (#[trigger] es[i]).0 != (#[trigger] es[j]).0
}

/// The index of the first entry of `es` under `key`, or the length of `es`
/// where there is none.
pub open spec fn key_index(es: Seq<(Seq<char>, Seq<char>)>, key: Seq<char>) -> nat
    decreases es.len(),
{
    if es.len() == 0 || es[0].0 == key {
        0
    } else {
        1 + key_index(es.drop_first(), key)
    }
}

/// The map that the entries of `es` build up when they are inserted one after
/// the other, a later entry replacing an earlier one of the same key.
pub open spec fn entries_map(es: Seq<(Seq<char>, Seq<char>)>) -> Map<Seq<char>, Seq<char>>
    decreases es.len(),
{
    if es.len() == 0 {
        Map::empty()
    } else {
        entries_map(es.drop_last()).insert(es.last().0, es.last().1)
    }
}

/// `es` after `value` was put under `key`: in the place of the entry that held
/// the key, or at the end.
pub open spec fn entries_insert(
    es: Seq<(Seq<char>, Seq<char>)>,
    key: Seq<char>,
    value: Seq<char>,
) -> Seq<(Seq<char>, Seq<char>)> {
    let i = key_index(es, key) as int;
    if i < es.len() {
        es.update(i, (key, value))
    } else {
        es.push((key, value))
    }
}

/// Where `key_index` points there is the key, and before it there is not.
pub proof fn lemma_key_index(es: Seq<(Seq<char>, Seq<char>)>, key: Seq<char>)
    ensures
        key_index(es, key) <= es.len(),
        key_index(es, key) < es.len() ==> es[key_index(es, key) as int].0 == key,
        forall|i: int| 0 <= i < key_index(es, key) ==> (#[trigger] es[i]).0 != key,
    decreases es.len(),
{
    if es.len() == 0 || es[0].0 == key {
    } else {
        let rest = es.drop_first();
        lemma_key_index(rest, key);
        assert forall|i: int| 0 <= i < key_index(es, key) implies (#[trigger] es[i]).0 != key by {
            if i > 0 {
                assert(es[i] == rest[i - 1]);
            }
        }
    }
}

/// The map of a list of entries holds exactly the keys of the list, and under
/// each key of a list without repeated keys the value that the list has there.
pub proof fn lemma_entries_map(es: Seq<(Seq<char>, Seq<char>)>, key: Seq<char>)
    ensures
        entries_map(es).contains_key(key) <==> key_index(es, key) < es.len(),
        distinct_keys(es) && key_index(es, key) < es.len() ==> entries_map(es)[key]
            == es[key_index(es, key) as int].1,
    decreases es.len(),
{
    lemma_key_index(es, key);
    if es.len() > 0 {
        let front = es.drop_last();
        lemma_entries_map(front, key);
        lemma_key_index(front, key);
        let i = key_index(es, key) as int;
        let k = key_index(front, key) as int;
        if k < front.len() {
            assert(front[k] == es[k]);
            if i < k {
                assert(front[i] == es[i]);
            }
            assert(i == k);
            if distinct_keys(es) {
                assert(es[k].0 != es[es.len() - 1].0);
                assert(distinct_keys(front)) by {
                    assert forall|a: int, b: int| 0 <= a < b < front.len() implies (
                    #[trigger] front[a]).0 != (#[trigger] front[b]).0 by {
                        assert(front[a] == es[a]);
                        assert(front[b] == es[b]);
                    }
                }
            }
        } else {
            assert forall|a: int| 0 <= a < front.len() implies (#[trigger] es[a]).0 != key by {
                assert(front[a] == es[a]);
            }
            if es.last().0 == key {
                assert(i == es.len() - 1);
            } else {
                assert(i == es.len());
            }
        }
    }
}

/// Putting a value under a key of a list without repeated keys leaves the
/// list without repeated keys, and does to its map what `Map::insert` does.
pub proof fn lemma_entries_insert(
    es: Seq<(Seq<char>, Seq<char>)>,
    key: Seq<char>,
    value: Seq<char>,
)
    requires
        distinct_keys(es),
    ensures
        distinct_keys(entries_insert(es, key, value)),
        entries_map(entries_insert(es, key, value)) == entries_map(es).insert(key, value),
{
    let after = entries_insert(es, key, value);
    lemma_key_index(es, key);
    let i = key_index(es, key) as int;
    if i < es.len() {
        assert(distinct_keys(after)) by {
            assert forall|a: int, b: int| 0 <= a < b < after.len() implies (#[trigger] after[a]).0
                != (#[trigger] after[b]).0 by {
                assert(after[a].0 == es[a].0);
                assert(after[b].0 == es[b].0);
            }
        }
    } else {
        assert(after.drop_last() =~= es);
    }
    assert forall|k: Seq<char>|
        entries_map(after).contains_key(k) <==> entries_map(es).insert(key, value).contains_key(
            k,
        ) by {
        lemma_entries_map(after, k);
        lemma_entries_map(es, k);
        lemma_key_index(after, k);
        lemma_key_index(es, k);
        lemma_same_keys(es, after, k);
    }
    assert forall|k: Seq<char>| entries_map(after).contains_key(k) implies entries_map(after)[k]
        == entries_map(es).insert(key, value)[k] by {
        lemma_entries_map(after, k);
        lemma_entries_map(es, k);
        lemma_key_index(after, k);
        lemma_key_index(es, k);
        lemma_same_keys(es, after, k);
        if i < es.len() {
            if k != key {
                assert(after[key_index(after, k) as int] == es[key_index(es, k) as int]);
            }
        } else {
            if k != key {
                assert(after[key_index(after, k) as int] == es[key_index(es, k) as int]);
            }
        }
    }
    assert(entries_map(after) =~= entries_map(es).insert(key, value));
}

/// A key that a list does not hold is put behind its entries.
pub proof fn lemma_entries_insert_fresh(
    es: Seq<(Seq<char>, Seq<char>)>,
    key: Seq<char>,
    value: Seq<char>,
)
    requires
        forall|i: int| 0 <= i < es.len() ==> (#[trigger] es[i]).0 != key,
    ensures
        entries_insert(es, key, value) == es.push((key, value)),
{
    lemma_key_index(es, key);
}

/// Two lists with the same keys at the same places, up to the length of the
/// shorter one, find a key of the shorter one at the same place.
proof fn lemma_same_keys(
    es: Seq<(Seq<char>, Seq<char>)>,
    after: Seq<(Seq<char>, Seq<char>)>,
    key: Seq<char>,
)
    requires
        es.len() <= after.len(),
        forall|i: int| 0 <= i < es.len() ==> (#[trigger] es[i]).0 == after[i].0,
    ensures
        key_index(es, key) < es.len() ==> key_index(after, key) == key_index(es, key),
        key_index(es, key) == es.len() ==> key_index(after, key) >= es.len(),
    decreases es.len(),
{
    if es.len() == 0 {
    } else {
        assert(es[0].0 == after[0].0);
        if es[0].0 == key {
        } else {
            let a = es.drop_first();
            let b = after.drop_first();
            assert forall|i: int| 0 <= i < a.len() implies (#[trigger] a[i]).0 == b[i].0 by {
                assert(a[i] == es[i + 1]);
                assert(b[i] == after[i + 1]);
            }
            lemma_same_keys(a, b, key);
        }
    }
}

/// A header block.
#[derive(Debug)]
pub struct Headers {
    entries: Vec<(String, String)>,
}

impl View for Headers {
    type V = Map<Seq<char>, Seq<char>>;

    /// The headers as a map from key to value.
    open spec fn view(&self) -> Map<Seq<char>, Seq<char>> {
        entries_map(self.entries())
    }
}

impl Headers {
    /// The headers as text, in the order in which their keys first came.
    pub closed spec fn entries(&self) -> Seq<(Seq<char>, Seq<char>)> {
        Seq::new(self.entries@.len(), |i: int| (self.entries@[i].0@, self.entries@[i].1@))
    }

    /// No key occurs twice. `new` makes such a block and `insert` keeps it so.
    pub open spec fn wf(&self) -> bool {
        distinct_keys(self.entries())
    }

    /// A header block without headers.
    pub fn new() -> (h: Headers)
        ensures
            h.entries() == Seq::<(Seq<char>, Seq<char>)>::empty(),
            h@ == Map::<Seq<char>, Seq<char>>::empty(),
            h.wf(),
    {
        let h = Headers { entries: Vec::new() };
        assert(h.entries() =~= Seq::<(Seq<char>, Seq<char>)>::empty());
        h
    }

    /// How many headers there are.
    pub fn len(&self) -> (n: usize)
        ensures
            n == self.entries().len(),
    {
        self.entries.len()
    }

    /// The place of `key` among the entries, if it has one.
    fn index_of(&self, key: &str) -> (r: usize)
        ensures
            r == key_index(self.entries(), key@),
            r <= self.entries().len(),
    {
        let ghost es = self.entries();
        let mut i: usize = 0;
        assert(es.skip(0) =~= es);
        while i < self.entries.len() && !same_text(self.entries[i].0.as_str(), key)
            invariant
                i <= self.entries@.len(),
                es == self.entries(),
                key_index(es, key@) == i + key_index(es.skip(i as int), key@),
            decreases self.entries@.len() - i,
        {
            assert(es.skip(i as int).drop_first() =~= es.skip(i as int + 1));
            i += 1;
        }
        i
    }

    /// The value under `key`, if there is one.
    pub fn get(&self, key: &str) -> (r: Option<&String>)
        requires
            self.wf(),
        ensures
            match r {
                Some(v) => self@.contains_key(key@) && v@ == self@[key@],
                None => !self@.contains_key(key@),
            },
    {
        proof {
            lemma_entries_map(self.entries(), key@);
            lemma_key_index(self.entries(), key@);
        }
        let i = self.index_of(key);
        if i < self.entries.len() {
            Some(&self.entries[i].1)
        } else {
            None
        }
    }

    /// Puts `value` under `key`. A value that was there before is replaced.
    pub fn insert(&mut self, key: String, value: String)
        requires
            old(self).wf(),
        ensures
            final(self).entries() == entries_insert(old(self).entries(), key@, value@),
            final(self)@ == old(self)@.insert(key@, value@),
            final(self).wf(),
    {
        proof {
            lemma_entries_insert(self.entries(), key@, value@);
            lemma_key_index(self.entries(), key@);
        }
        let ghost before = self.entries();
        let i = self.index_of(key.as_str());
        if i < self.entries.len() {
            self.entries.set(i, (key, value));
        } else {
            self.entries.push((key, value));
        }
        assert(self.entries() =~= entries_insert(before, key@, value@));
    }

    /// Key and value of the header at place `i`.
    pub(crate) fn entry(&self, i: usize) -> (r: (&String, &String))
        requires
            i < self.entries().len(),
        ensures
            (r.0@, r.1@) == self.entries()[i as int],
    {
        (&self.entries[i].0, &self.entries[i].1)
    }
}

} // verus!
