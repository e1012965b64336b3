//! String-keyed, string-valued property maps attached to graph entities.
//!
//! A `PropertyMap` is viewed as a `Map<Seq<char>, Seq<char>>`. Assigning the
//! same key twice keeps only the later value.

use vstd::prelude::*;

verus! {

/// The map denoted by a sequence of key/value assignments, applied in order,
/// so that a later assignment to a key shadows an earlier one.
pub open spec fn map_of_entries(es: Seq<(String, String)>) -> Map<Seq<char>, Seq<char>>
    decreases es.len(),
{
    if es.len() == 0 {
        Map::empty()
    } else {
        map_of_entries(es.drop_last()).insert(es.last().0@, es.last().1@)
    }
}

/// A string-to-string property map with last-assignment-wins semantics.
#[derive(Debug, Clone, PartialEq)]
pub struct PropertyMap {
    entries: Vec<(String, String)>,
}

impl View for PropertyMap {
    type V = Map<Seq<char>, Seq<char>>;

    closed spec fn view(&self) -> Map<Seq<char>, Seq<char>> {
        map_of_entries(self.entries@)
    }
}

/// Entries at positions `i` and above never mention key `k`, so the denoted
/// map agrees at `k` with the map denoted by the first `i` entries alone.
proof fn lemma_map_of_entries_agree(es: Seq<(String, String)>, k: Seq<char>, i: int)
    requires
        0 <= i <= es.len(),
        forall|j: int| i <= j < es.len() ==> (#[trigger] es[j]).0@ != k,
    ensures
        map_of_entries(es).contains_key(k) == map_of_entries(es.take(i)).contains_key(k),
        map_of_entries(es).contains_key(k) ==> map_of_entries(es)[k] == map_of_entries(
            es.take(i),
        )[k],
    decreases es.len() - i,
{
    if i < es.len() {
        let es1 = es.drop_last();
        assert(es1 =~= es.take(es.len() - 1));
        lemma_map_of_entries_agree(es1, k, i);
        assert(es1.take(i) =~= es.take(i));
    } else {
        assert(es.take(i) =~= es);
    }
}

impl PropertyMap {
    /// Creates an empty property map.
    pub fn new() -> (r: Self)
        ensures
            r@ == Map::<Seq<char>, Seq<char>>::empty(),
    {
        PropertyMap { entries: Vec::new() }
    }

    /// Assigns `value` to `key`, shadowing any earlier assignment.
    pub fn insert(&mut self, key: String, value: String)
        ensures
            final(self)@ == old(self)@.insert(key@, value@),
    {
        let ghost es0 = self.entries@;
        self.entries.push((key, value));
        proof {
            assert(self.entries@.drop_last() =~= es0);
        }
    }

    /// Looks up the value assigned to `key`, if any.
    pub fn get(&self, key: &str) -> (r: Option<&String>)
        ensures
            (match r {
                Some(v) => self@.contains_key(key@) && v@ == self@[key@],
                None => !self@.contains_key(key@),
            }),
    {
        let n = self.entries.len();
        let mut i = n;
        while i > 0
            invariant
                i <= n,
                n == self.entries@.len(),
                forall|j: int| i <= j < n ==> (#[trigger] self.entries@[j]).0@ != key@,
            decreases i,
        {
            i = i - 1;
            if crate::text::str_eq(self.entries[i].0.as_str(), key) {
                proof {
                    lemma_map_of_entries_agree(self.entries@, key@, i + 1);
                    let pre = self.entries@.take(i + 1);
                    assert(pre.drop_last() =~= self.entries@.take(i as int));
                    assert(pre.last() == self.entries@[i as int]);
                }
                return Some(&self.entries[i].1);
            }
        }
        proof {
            lemma_map_of_entries_agree(self.entries@, key@, 0);
            assert(self.entries@.take(0) =~= Seq::<(String, String)>::empty());
        }
        None
    }
}

} // verus!
