//! The paths of an app, by platform key.

use crate::text::{clone_texts, same, texts};
use vstd::prelude::*;

verus! {

/// Whether no key occurs twice.
pub open spec fn distinct_keys(t: Seq<(Seq<char>, Seq<Seq<char>>)>) -> bool {
    forall|i: int, j: int| 0 <= i < j < t.len() ==> (#[trigger] t[i]).0 != (#[trigger] t[j]).0
}

/// Where `key` stands in the table, or its length.
pub open spec fn key_index(t: Seq<(Seq<char>, Seq<Seq<char>>)>, key: Seq<char>) -> int
    decreases t.len(),
{
    if t.len() == 0 {
        0
    } else if t[0].0 == key {
        0
    } else {
        1 + key_index(t.skip(1), key)
    }
}

/// The paths under `key`.
pub open spec fn paths_under(
    t: Seq<(Seq<char>, Seq<Seq<char>>)>,
    key: Seq<char>,
) -> Option<Seq<Seq<char>>> {
    let i = key_index(t, key);
    if i < t.len() {
        Some(t[i].1)
    } else {
        None
    }
}

/// The table with `paths` under `key`: in the place of the key where it is
/// there, at the end otherwise.
pub open spec fn with_paths(
    t: Seq<(Seq<char>, Seq<Seq<char>>)>,
    key: Seq<char>,
    paths: Seq<Seq<char>>,
) -> Seq<(Seq<char>, Seq<Seq<char>>)> {
    let i = key_index(t, key);
    if i < t.len() {
        t.update(i, (key, paths))
    } else {
        t.push((key, paths))
    }
}

/// The table without `key`.
pub open spec fn without_key(
    t: Seq<(Seq<char>, Seq<Seq<char>>)>,
    key: Seq<char>,
) -> Seq<(Seq<char>, Seq<Seq<char>>)> {
    let i = key_index(t, key);
    if i < t.len() {
        t.remove(i)
    } else {
        t
    }
}

/// Where a key is found it stands, and not before.
pub proof fn key_index_first(t: Seq<(Seq<char>, Seq<Seq<char>>)>, key: Seq<char>)
    ensures
        0 <= key_index(t, key) <= t.len(),
        key_index(t, key) < t.len() ==> t[key_index(t, key)].0 == key,
        forall|j: int| 0 <= j < key_index(t, key) ==> (#[trigger] t[j]).0 != key,
    decreases t.len(),
{
    if t.len() > 0 && t[0].0 != key {
        key_index_first(t.skip(1), key);
        assert forall|j: int| 0 <= j < key_index(t, key) implies (#[trigger] t[j]).0 != key by {
            if j > 0 {
                assert(t[j] == t.skip(1)[j - 1]);
            }
        }
    }
}

/// The index at which a key stands is the one where it is found.
pub proof fn key_index_at(t: Seq<(Seq<char>, Seq<Seq<char>>)>, i: int)
    requires
        distinct_keys(t),
        0 <= i < t.len(),
    ensures
        key_index(t, t[i].0) == i,
{
    key_index_first(t, t[i].0);
}

/// What was put under a key is found there, and what is under other keys is
/// kept.
pub proof fn paths_after_insert(
    t: Seq<(Seq<char>, Seq<Seq<char>>)>,
    key: Seq<char>,
    paths: Seq<Seq<char>>,
    other: Seq<char>,
)
    requires
        distinct_keys(t),
    ensures
        distinct_keys(with_paths(t, key, paths)),
        paths_under(with_paths(t, key, paths), key) == Some(paths),
        other != key ==> paths_under(with_paths(t, key, paths), other) == paths_under(t, other),
{
    let n = with_paths(t, key, paths);
    key_index_first(t, key);
    key_index_first(n, key);
    key_index_first(t, other);
    key_index_first(n, other);
    let i = key_index(t, key);
    assert(n[i] == (key, paths));
    assert(distinct_keys(n));
    key_index_at(n, i);
    if other != key {
        let j = key_index(t, other);
        let m = key_index(n, other);
        if j < t.len() {
            assert(n[j].0 == other);
            key_index_at(n, j);
        } else if m < n.len() {
            assert(m != i);
            assert(t[m].0 == other);
        }
    }
}

/// Path strings by platform key. No key occurs twice.
#[derive(Debug)]
pub struct PathTable {
    entries: Vec<(String, Vec<String>)>,
}

/// The contents of one entry.
pub open spec fn entry_view(e: (String, Vec<String>)) -> (Seq<char>, Seq<Seq<char>>) {
    (e.0@, texts(e.1@))
}

impl View for PathTable {
    type V = Seq<(Seq<char>, Seq<Seq<char>>)>;

    closed spec fn view(&self) -> Seq<(Seq<char>, Seq<Seq<char>>)> {
        self.entries@.map_values(|e: (String, Vec<String>)| entry_view(e))
    }
}

impl PathTable {
    #[verifier::type_invariant]
    closed spec fn keys_once(self) -> bool {
        distinct_keys(self@)
    }

    pub fn new() -> (r: PathTable)
        ensures
            r@ == Seq::<(Seq<char>, Seq<Seq<char>>)>::empty(),
    {
        let r = PathTable { entries: Vec::new() };
        assert(r@ =~= Seq::empty());
        r
    }

    pub fn len(&self) -> (r: usize)
        ensures
            r == self@.len(),
    {
        self.entries.len()
    }

    /// The key of the entry at `i`.
    pub fn key(&self, i: usize) -> (r: &String)
        requires
            i < self@.len(),
        ensures
            r@ == self@[i as int].0,
    {
        &self.entries[i].0
    }

    /// The paths of the entry at `i`.
    pub fn paths(&self, i: usize) -> (r: &Vec<String>)
        requires
            i < self@.len(),
        ensures
            texts(r@) == self@[i as int].1,
    {
        &self.entries[i].1
    }

    fn index(&self, key: &str) -> (r: usize)
        ensures
            r == key_index(self@, key@),
            r <= self@.len(),
    {
        let ghost all = self@;
        let mut i: usize = 0;
        assert(all.skip(0) =~= all);
        while i < self.entries.len()
            invariant
                i <= self.entries@.len(),
                all == self@,
                key_index(all, key@) == i + key_index(all.skip(i as int), key@),
            decreases self.entries@.len() - i,
        {
            assert(all.skip(i as int)[0] == all[i as int]);
            if same(self.entries[i].0.as_str(), key) {
                return i;
            }
            assert(all.skip(i as int).skip(1) =~= all.skip(i + 1));
            i = i + 1;
        }
        i
    }

    /// The paths under `key`.
    pub fn get(&self, key: &str) -> (r: Option<&Vec<String>>)
        ensures
            match paths_under(self@, key@) {
                Some(paths) => r is Some && texts(r->0@) == paths,
                None => r is None,
            },
    {
        let i: usize = self.index(key);
        if i < self.entries.len() {
            Some(&self.entries[i].1)
        } else {
            None
        }
    }

    pub fn contains_key(&self, key: &str) -> (r: bool)
        ensures
            r == (paths_under(self@, key@) is Some),
    {
        self.index(key) < self.entries.len()
    }

    /// Puts `paths` under `key`.
    pub fn insert(&mut self, key: String, paths: Vec<String>)
        ensures
            final(self)@ == with_paths(old(self)@, key@, texts(paths@)),
            distinct_keys(final(self)@),
    {
        proof {
            use_type_invariant(&*self);
            paths_after_insert(self@, key@, texts(paths@), key@);
            key_index_first(self@, key@);
        }
        let i: usize = self.index(key.as_str());
        let ghost entry = entry_view((key, paths));
        let ghost whole = self@;
        let mut entries: Vec<(String, Vec<String>)> = Vec::new();
        std::mem::swap(&mut entries, &mut self.entries);
        let ghost before = entries@;
        if i < entries.len() {
            entries.set(i, (key, paths));
            assert(entries@ =~= before.update(i as int, (key, paths)));
        } else {
            entries.push((key, paths));
        }
        assert(entries@.map_values(|e: (String, Vec<String>)| entry_view(e)) =~= with_paths(
            whole,
            key@,
            texts(paths@),
        ));
        *self = PathTable { entries };
    }

    /// Takes `key` and its paths out. Returns whether it was there.
    pub fn remove(&mut self, key: &str) -> (r: bool)
        ensures
            final(self)@ == without_key(old(self)@, key@),
            r == (paths_under(old(self)@, key@) is Some),
    {
        proof {
            use_type_invariant(&*self);
            key_index_first(self@, key@);
        }
        let i: usize = self.index(key);
        if i >= self.entries.len() {
            return false;
        }
        let ghost whole = self@;
        let mut entries: Vec<(String, Vec<String>)> = Vec::new();
        std::mem::swap(&mut entries, &mut self.entries);
        entries.remove(i);
        assert(entries@.map_values(|e: (String, Vec<String>)| entry_view(e)) =~= whole.remove(
            i as int,
        ));
        *self = PathTable { entries };
        true
    }
}

impl Clone for PathTable {
    fn clone(&self) -> (r: PathTable)
        ensures
            r@ == self@,
    {
        proof {
            use_type_invariant(self);
        }
        let ghost view = |e: (String, Vec<String>)| entry_view(e);
        let mut entries: Vec<(String, Vec<String>)> = Vec::new();
        let mut i: usize = 0;
        while i < self.entries.len()
            invariant
                i <= self.entries@.len(),
                view == (|e: (String, Vec<String>)| entry_view(e)),
                entries@.map_values(view) == self@.take(i as int),
            decreases self.entries@.len() - i,
        {
            let ghost so_far = entries@;
            entries.push((self.entries[i].0.clone(), clone_texts(&self.entries[i].1)));
            i = i + 1;
            proof {
                assert(entries@.map_values(view) =~= so_far.map_values(view).push(
                    self@[i - 1],
                ));
                assert(self@.take(i as int) =~= self@.take(i - 1).push(self@[i - 1]));
            }
        }
        assert(self@.take(i as int) =~= self@);
        assert(entries@.map_values(|e: (String, Vec<String>)| entry_view(e)) =~= self@);
        PathTable { entries }
    }
}

/// What is removed is gone, and what is under other keys is kept.
pub proof fn paths_after_removal(
    t: Seq<(Seq<char>, Seq<Seq<char>>)>,
    key: Seq<char>,
    other: Seq<char>,
)
    requires
        distinct_keys(t),
    ensures
        paths_under(without_key(t, key), key) is None,
        other != key ==> paths_under(without_key(t, key), other) == paths_under(t, other),
        distinct_keys(without_key(t, key)),
{
    let n = without_key(t, key);
    let i = key_index(t, key);
    key_index_first(t, key);
    key_index_first(n, key);
    key_index_first(t, other);
    key_index_first(n, other);
    assert forall|j: int| 0 <= j < n.len() implies #[trigger] n[j] == if j < i || i >= t.len() {
        t[j]
    } else {
        t[j + 1]
    } by {}
    assert(distinct_keys(n));
    let m = key_index(n, key);
    if m < n.len() && i < t.len() {
        if m < i {
            assert(t[m].0 != t[i].0);
        } else {
            assert(t[i].0 != t[m + 1].0);
        }
    }
    if other != key {
        let a = key_index(t, other);
        let b = key_index(n, other);
        if a < t.len() {
            let c = if a < i || i >= t.len() {
                a
            } else {
                a - 1
            };
            assert(n[c] == t[a]);
            key_index_at(n, c);
        } else if b < n.len() {
            let c = if b < i || i >= t.len() {
                b
            } else {
                b + 1
            };
            assert(n[b] == t[c]);
            key_index_at(t, c);
        }
    }
}

} // verus!
