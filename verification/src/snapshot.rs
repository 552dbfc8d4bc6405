//! The in-memory hierarchical model: hive name -> key path -> entry name
//! -> typed value, together with the association-list machinery its maps
//! are built on and the single insertion operation of the capture walk.

use vstd::prelude::*;
use crate::strings::str_eq;
use crate::value::{Entry, EntryV};

verus! {

/// The one error kind of the library: some store operation failed.
#[derive(Debug, Clone, Copy, PartialEq, Eq, Structural)]
pub enum Error {
    RegistryIssue,
}

/// What a capture reports about the key it was asked for: whether any of
/// the key's own direct values made it into the snapshot.
#[derive(Debug, Clone, Copy, PartialEq, Eq, Structural)]
pub struct RegistryInfo {
    pub found: bool,
}

/// An association list holds each key at most once.
pub open spec fn assoc_wf<V>(s: Seq<(String, V)>) -> bool {
    forall|i: int, j: int| 0 <= i < j < s.len() ==> s[i].0@ != s[j].0@
}

pub open spec fn assoc_contains<V>(s: Seq<(String, V)>, k: Seq<char>) -> bool {
    exists|i: int| 0 <= i < s.len() && s[i].0@ == k
}

pub open spec fn assoc_at<V>(s: Seq<(String, V)>, k: Seq<char>) -> V {
    s[choose|i: int| 0 <= i < s.len() && s[i].0@ == k].1
}

/// On a well-formed association list the value found for a key is the
/// value stored beside any index holding that key.
pub proof fn lemma_assoc_at<V>(s: Seq<(String, V)>, j: int)
    requires
        assoc_wf(s),
        0 <= j < s.len(),
    ensures
        assoc_contains(s, s[j].0@),
        assoc_at(s, s[j].0@) == s[j].1,
{
    assert(assoc_contains(s, s[j].0@));
    let i = choose|i: int| 0 <= i < s.len() && s[i].0@ == s[j].0@;
    if i < j {
        assert(s[i].0@ != s[j].0@);
    } else if j < i {
        assert(s[j].0@ != s[i].0@);
    }
}

/// Appending a fresh key extends the association map by exactly that key.
pub proof fn lemma_assoc_push<V>(s: Seq<(String, V)>, x: (String, V))
    requires
        assoc_wf(s),
        !assoc_contains(s, x.0@),
    ensures
        assoc_wf(s.push(x)),
        forall|q: Seq<char>| #[trigger]
            assoc_contains(s.push(x), q) <==> (assoc_contains(s, q) || q == x.0@),
        forall|q: Seq<char>|
            assoc_contains(s, q) ==> #[trigger] assoc_at(s.push(x), q) == assoc_at(s, q),
        assoc_at(s.push(x), x.0@) == x.1,
{
    let t = s.push(x);
    assert forall|i: int, j: int| 0 <= i < j < t.len() implies t[i].0@ != t[j].0@ by {
        if j < s.len() {
            assert(s[i].0@ != s[j].0@);
        } else {
            assert(t[j] == x);
            assert(assoc_contains(s, s[i].0@));
        }
    }
    assert forall|q: Seq<char>| #[trigger]
        assoc_contains(t, q) implies (assoc_contains(s, q) || q == x.0@) by {
        let i = choose|i: int| 0 <= i < t.len() && t[i].0@ == q;
        if i < s.len() {
            assert(assoc_contains(s, q));
        }
    }
    assert forall|q: Seq<char>| assoc_contains(s, q) || q == x.0@ implies #[trigger]
        assoc_contains(t, q) by {
        if assoc_contains(s, q) {
            let i = choose|i: int| 0 <= i < s.len() && s[i].0@ == q;
            assert(t[i].0@ == q);
        } else {
            assert(t[s.len() as int].0@ == q);
        }
    }
    assert forall|q: Seq<char>| assoc_contains(s, q) implies #[trigger] assoc_at(t, q)
        == assoc_at(s, q) by {
        let i = choose|i: int| 0 <= i < s.len() && s[i].0@ == q;
        assert(t[i].0@ == q);
        lemma_assoc_at(t, i);
        lemma_assoc_at(s, i);
    }
    assert(t[s.len() as int] == x);
    lemma_assoc_at(t, s.len() as int);
}

/// Replacing the value beside an existing key updates the association map
/// at exactly that key.
pub proof fn lemma_assoc_update<V>(s: Seq<(String, V)>, i: int, x: (String, V))
    requires
        assoc_wf(s),
        0 <= i < s.len(),
        x.0@ == s[i].0@,
    ensures
        assoc_wf(s.update(i, x)),
        forall|q: Seq<char>| #[trigger]
            assoc_contains(s.update(i, x), q) <==> assoc_contains(s, q),
        assoc_at(s.update(i, x), x.0@) == x.1,
        forall|q: Seq<char>|
            assoc_contains(s, q) && q != x.0@ ==> #[trigger] assoc_at(s.update(i, x), q)
                == assoc_at(s, q),
{
    let t = s.update(i, x);
    assert(forall|j: int| 0 <= j < t.len() ==> #[trigger] t[j].0@ == s[j].0@);
    assert forall|q: Seq<char>| #[trigger]
        assoc_contains(t, q) <==> assoc_contains(s, q) by {
        if assoc_contains(t, q) {
            let j = choose|j: int| 0 <= j < t.len() && t[j].0@ == q;
            assert(s[j].0@ == q);
        }
        if assoc_contains(s, q) {
            let j = choose|j: int| 0 <= j < s.len() && s[j].0@ == q;
            assert(t[j].0@ == q);
        }
    }
    lemma_assoc_at(t, i);
    assert forall|q: Seq<char>| assoc_contains(s, q) && q != x.0@ implies #[trigger]
        assoc_at(t, q) == assoc_at(s, q) by {
        let j = choose|j: int| 0 <= j < s.len() && s[j].0@ == q;
        assert(t[j].0@ == q);
        lemma_assoc_at(t, j);
        lemma_assoc_at(s, j);
    }
}

/// Inserts a binding only when the key is not bound yet.
pub open spec fn map_or_insert<K, V>(m: Map<K, V>, k: K, v: V) -> Map<K, V> {
    if m.contains_key(k) {
        m
    } else {
        m.insert(k, v)
    }
}

/// Entry name -> typed value, for one key of the store.
#[derive(Debug, Clone, PartialEq, Eq)]
pub struct Entries(pub Vec<(String, Entry)>);

/// Key path -> entries, for one hive.  Key paths are full paths from the
/// hive root, joined by the canonical separator.
#[derive(Debug, Clone, PartialEq, Eq)]
pub struct Keys(pub Vec<(String, Entries)>);

/// Hive name -> keys: a whole snapshot of the captured subtrees.
#[derive(Debug, Clone, PartialEq, Eq)]
pub struct Hives(pub Vec<(String, Keys)>);

impl View for Entries {
    type V = Map<Seq<char>, EntryV>;

    open spec fn view(&self) -> Map<Seq<char>, EntryV> {
        Map::new(
            |k: Seq<char>| assoc_contains(self.0@, k),
            |k: Seq<char>| assoc_at(self.0@, k)@,
        )
    }
}

impl View for Keys {
    type V = Map<Seq<char>, Map<Seq<char>, EntryV>>;

    open spec fn view(&self) -> Map<Seq<char>, Map<Seq<char>, EntryV>> {
        Map::new(
            |k: Seq<char>| assoc_contains(self.0@, k),
            |k: Seq<char>| assoc_at(self.0@, k)@,
        )
    }
}

impl View for Hives {
    type V = Map<Seq<char>, Map<Seq<char>, Map<Seq<char>, EntryV>>>;

    open spec fn view(&self) -> Map<Seq<char>, Map<Seq<char>, Map<Seq<char>, EntryV>>> {
        Map::new(
            |k: Seq<char>| assoc_contains(self.0@, k),
            |k: Seq<char>| assoc_at(self.0@, k)@,
        )
    }
}

impl Entries {
    pub open spec fn wf(&self) -> bool {
        assoc_wf(self.0@)
    }
}

impl Keys {
    pub open spec fn wf(&self) -> bool {
        assoc_wf(self.0@) && forall|i: int|
            0 <= i < self.0@.len() ==> (#[trigger] self.0@[i]).1.wf()
    }
}

impl Hives {
    pub open spec fn wf(&self) -> bool {
        assoc_wf(self.0@) && forall|i: int|
            0 <= i < self.0@.len() ==> (#[trigger] self.0@[i]).1.wf()
    }
}

impl Default for Entries {
    /// An empty entry map.
    fn default() -> (r: Self)
        ensures
            r@ == Map::<Seq<char>, EntryV>::empty(),
            r.wf(),
    {
        let r = Entries(Vec::new());
        proof {
            assert(r@ =~= Map::<Seq<char>, EntryV>::empty());
        }
        r
    }
}

impl Default for Keys {
    /// An empty key map.
    fn default() -> (r: Self)
        ensures
            r@ == Map::<Seq<char>, Map<Seq<char>, EntryV>>::empty(),
            r.wf(),
    {
        let r = Keys(Vec::new());
        proof {
            assert(r@ =~= Map::<Seq<char>, Map<Seq<char>, EntryV>>::empty());
        }
        r
    }
}

impl Default for Hives {
    /// An empty snapshot.
    fn default() -> (r: Self)
        ensures
            r@ == Map::<Seq<char>, Map<Seq<char>, Map<Seq<char>, EntryV>>>::empty(),
            r.wf(),
    {
        let r = Hives(Vec::new());
        proof {
            assert(r@ =~= Map::<Seq<char>, Map<Seq<char>, Map<Seq<char>, EntryV>>>::empty());
        }
        r
    }
}

/// The index at which an association list binds the given key.
pub(crate) fn assoc_position<V>(v: &Vec<(String, V)>, name: &str) -> (r: Option<usize>)
    ensures
        match r {
            Some(i) => i < v@.len() && v@[i as int].0@ == name@,
            None => !assoc_contains(v@, name@),
        },
{
    let mut i: usize = 0;
    while i < v.len()
        invariant
            i <= v@.len(),
            forall|j: int| 0 <= j < i ==> v@[j].0@ != name@,
        decreases v@.len() - i,
    {
        if str_eq(v[i].0.as_str(), name) {
            return Some(i);
        }
        i += 1;
    }
    None
}

/// How one captured value lands in a snapshot: the hive and key maps are
/// created when missing, and the entry is added only when its name is not
/// bound yet (the first captured value under a name wins).
pub open spec fn snap_insert(
    m: Map<Seq<char>, Map<Seq<char>, Map<Seq<char>, EntryV>>>,
    hive: Seq<char>,
    key: Seq<char>,
    name: Seq<char>,
    e: EntryV,
) -> Map<Seq<char>, Map<Seq<char>, Map<Seq<char>, EntryV>>> {
    let km = if m.contains_key(hive) {
        m[hive]
    } else {
        Map::<Seq<char>, Map<Seq<char>, EntryV>>::empty()
    };
    let em = if km.contains_key(key) {
        km[key]
    } else {
        Map::<Seq<char>, EntryV>::empty()
    };
    m.insert(hive, km.insert(key, map_or_insert(em, name, e)))
}

impl Entries {
    /// Adds the entry under the given name unless the name is taken.
    pub fn insert_if_absent(&mut self, name: &str, e: Entry)
        requires
            old(self).wf(),
        ensures
            final(self).wf(),
            final(self)@ == map_or_insert(old(self)@, name@, e@),
    {
        match assoc_position(&self.0, name) {
            Some(_) => {
                proof {
                    assert(assoc_contains(self.0@, name@));
                }
            },
            None => {
                let ghost s0 = self.0@;
                self.0.push((name.to_owned(), e));
                proof {
                    lemma_assoc_push(s0, self.0@[s0.len() as int]);
                    assert(self@ =~= map_or_insert(old(self)@, name@, e@));
                }
            },
        }
    }
}

impl Keys {
    /// Adds the entry at `[key][name]`, creating the key's entry map when
    /// missing and leaving an already bound entry name untouched.
    pub fn insert_value(&mut self, key: &str, name: &str, e: Entry)
        requires
            old(self).wf(),
        ensures
            final(self).wf(),
            final(self)@ == map_or_insert_nested(old(self)@, key@, name@, e@),
    {
        let i = match assoc_position(&self.0, key) {
            Some(i) => i,
            None => {
                let i = self.0.len();
                let ghost s0 = self.0@;
                self.0.push((key.to_owned(), Entries::default()));
                proof {
                    lemma_assoc_push(s0, self.0@[s0.len() as int]);
                }
                i
            },
        };
        let ghost s1 = self.0@;
        proof {
            lemma_assoc_at(s1, i as int);
        }
        let mut pair = self.0.remove(i);
        pair.1.insert_if_absent(name, e);
        self.0.insert(i, pair);
        proof {
            s1.remove_ensures(i as int);
            s1.remove(i as int).insert_ensures(i as int, self.0@[i as int]);
            assert(self.0@ =~= s1.update(i as int, self.0@[i as int]));
            lemma_assoc_update(s1, i as int, self.0@[i as int]);
            assert(self@ =~= map_or_insert_nested(old(self)@, key@, name@, e@));
        }
    }
}

/// `snap_insert` one level down: what one captured value does to the map
/// of a single hive.
pub open spec fn map_or_insert_nested(
    m: Map<Seq<char>, Map<Seq<char>, EntryV>>,
    key: Seq<char>,
    name: Seq<char>,
    e: EntryV,
) -> Map<Seq<char>, Map<Seq<char>, EntryV>> {
    let em = if m.contains_key(key) {
        m[key]
    } else {
        Map::<Seq<char>, EntryV>::empty()
    };
    m.insert(key, map_or_insert(em, name, e))
}

impl Hives {
    /// Adds one captured value at `[hive][key][name]`, creating the hive
    /// and key maps when missing and leaving an already bound entry name
    /// untouched.
    pub fn insert_value(&mut self, hive: &str, key: &str, name: &str, e: Entry)
        requires
            old(self).wf(),
        ensures
            final(self).wf(),
            final(self)@ == snap_insert(old(self)@, hive@, key@, name@, e@),
    {
        let i = match assoc_position(&self.0, hive) {
            Some(i) => i,
            None => {
                let i = self.0.len();
                let ghost s0 = self.0@;
                self.0.push((hive.to_owned(), Keys::default()));
                proof {
                    lemma_assoc_push(s0, self.0@[s0.len() as int]);
                }
                i
            },
        };
        let ghost s1 = self.0@;
        proof {
            lemma_assoc_at(s1, i as int);
        }
        let mut pair = self.0.remove(i);
        pair.1.insert_value(key, name, e);
        self.0.insert(i, pair);
        proof {
            s1.remove_ensures(i as int);
            s1.remove(i as int).insert_ensures(i as int, self.0@[i as int]);
            assert(self.0@ =~= s1.update(i as int, self.0@[i as int]));
            lemma_assoc_update(s1, i as int, self.0@[i as int]);
            assert(self@ =~= snap_insert(old(self)@, hive@, key@, name@, e@));
        }
    }
}

} // verus!
