//! The replay walk: writing a snapshot back into the store.  Replay is
//! best-effort: an unresolvable hive name or an unset entry is recorded as
//! a failure and skipped, everything else is still applied, and the call
//! reports one aggregate error at the end.

use vstd::prelude::*;
use crate::hive::{get_hkey_from_name, hive_id_of, HiveId};
use crate::snapshot::{
    assoc_at, assoc_contains, assoc_wf, lemma_assoc_at, lemma_assoc_push, lemma_assoc_update,
    map_or_insert, Entries, Error, Hives, Keys,
};
use crate::strings::str_eq;
use crate::value::{raw_of_entry, Entry, RawValue, RawValueV};

verus! {

/// One existing key of the store model: the root it lives under, its full
/// path from that root, and its named values.
#[derive(Debug, PartialEq, Eq)]
pub struct StoreKey {
    pub hive: HiveId,
    pub path: String,
    pub values: Vec<(String, RawValue)>,
}

impl View for StoreKey {
    type V = Map<Seq<char>, RawValueV>;

    open spec fn view(&self) -> Map<Seq<char>, RawValueV> {
        Map::new(
            |k: Seq<char>| assoc_contains(self.values@, k),
            |k: Seq<char>| assoc_at(self.values@, k)@,
        )
    }
}

/// A model of the live store as the replay walk writes it: the keys that
/// exist, each addressed by root and full path.  Key paths are flat here,
/// as in the store interface replay uses: a key is created directly at its
/// full path.
#[derive(Debug, PartialEq, Eq)]
pub struct RegStore {
    pub keys: Vec<StoreKey>,
}

/// A store holds each (root, path) address at most once, and each key's
/// value list holds each name at most once.
pub open spec fn store_wf(s: Seq<StoreKey>) -> bool {
    (forall|i: int, j: int|
        0 <= i < j < s.len() ==> !(s[i].hive == s[j].hive && s[i].path@ == s[j].path@))
        && (forall|i: int| 0 <= i < s.len() ==> assoc_wf((#[trigger] s[i]).values@))
}

pub open spec fn store_contains(s: Seq<StoreKey>, h: HiveId, p: Seq<char>) -> bool {
    exists|i: int| 0 <= i < s.len() && (#[trigger] s[i]).hive == h && s[i].path@ == p
}

pub open spec fn store_index(s: Seq<StoreKey>, h: HiveId, p: Seq<char>) -> int {
    choose|i: int| 0 <= i < s.len() && (#[trigger] s[i]).hive == h && s[i].path@ == p
}

impl View for RegStore {
    type V = Map<(HiveId, Seq<char>), Map<Seq<char>, RawValueV>>;

    open spec fn view(&self) -> Map<(HiveId, Seq<char>), Map<Seq<char>, RawValueV>> {
        Map::new(
            |hp: (HiveId, Seq<char>)| store_contains(self.keys@, hp.0, hp.1),
            |hp: (HiveId, Seq<char>)| self.keys@[store_index(self.keys@, hp.0, hp.1)]@,
        )
    }
}

impl RegStore {
    pub open spec fn wf(&self) -> bool {
        store_wf(self.keys@)
    }
}

impl Default for RegStore {
    /// An empty store: no key exists yet.
    fn default() -> (r: Self)
        ensures
            r@ == Map::<(HiveId, Seq<char>), Map<Seq<char>, RawValueV>>::empty(),
            r.wf(),
    {
        let r = RegStore { keys: Vec::new() };
        proof {
            assert(r@ =~= Map::<(HiveId, Seq<char>), Map<Seq<char>, RawValueV>>::empty());
        }
        r
    }
}

/// On a well-formed store the key found at an address is the key stored at
/// any index holding that address.
pub proof fn lemma_store_at(s: Seq<StoreKey>, j: int)
    requires
        store_wf(s),
        0 <= j < s.len(),
    ensures
        store_contains(s, s[j].hive, s[j].path@),
        store_index(s, s[j].hive, s[j].path@) == j,
{
    assert(store_contains(s, s[j].hive, s[j].path@));
    let i = store_index(s, s[j].hive, s[j].path@);
    if i < j {
        assert(!(s[i].hive == s[j].hive && s[i].path@ == s[j].path@));
    } else if j < i {
        assert(!(s[j].hive == s[i].hive && s[j].path@ == s[i].path@));
    }
}

/// Appending a key at a fresh address extends the store map by exactly
/// that address.
pub proof fn lemma_store_push(s: Seq<StoreKey>, x: StoreKey)
    requires
        store_wf(s),
        !store_contains(s, x.hive, x.path@),
        assoc_wf(x.values@),
    ensures
        store_wf(s.push(x)),
        forall|h: HiveId, p: Seq<char>| #[trigger]
            store_contains(s.push(x), h, p) <==> (store_contains(s, h, p) || (h == x.hive && p
                == x.path@)),
        forall|h: HiveId, p: Seq<char>|
            store_contains(s, h, p) ==> s.push(x)[store_index(s.push(x), h, p)] == s[store_index(
                s,
                h,
                p,
            )],
        store_index(s.push(x), x.hive, x.path@) == s.len(),
{
    let t = s.push(x);
    assert forall|i: int, j: int| 0 <= i < j < t.len() implies !((#[trigger] t[i]).hive
        == (#[trigger] t[j]).hive && t[i].path@ == t[j].path@) by {
        if j < s.len() {
            assert(!(s[i].hive == s[j].hive && s[i].path@ == s[j].path@));
        } else {
            assert(t[j] == x);
            assert(store_contains(s, s[i].hive, s[i].path@));
        }
    }
    assert forall|h: HiveId, p: Seq<char>| #[trigger]
        store_contains(t, h, p) implies (store_contains(s, h, p) || (h == x.hive && p
        == x.path@)) by {
        let i = choose|i: int| 0 <= i < t.len() && (#[trigger] t[i]).hive == h && t[i].path@ == p;
        if i < s.len() {
            assert(store_contains(s, h, p));
        }
    }
    assert forall|h: HiveId, p: Seq<char>|
        store_contains(s, h, p) || (h == x.hive && p == x.path@) implies #[trigger] store_contains(
        t,
        h,
        p,
    ) by {
        if store_contains(s, h, p) {
            let i = choose|i: int|
                0 <= i < s.len() && (#[trigger] s[i]).hive == h && s[i].path@ == p;
            assert(t[i].hive == h && t[i].path@ == p);
        } else {
            assert(t[s.len() as int].hive == h && t[s.len() as int].path@ == p);
        }
    }
    assert forall|h: HiveId, p: Seq<char>| store_contains(s, h, p) implies t[store_index(t, h, p)]
        == s[store_index(s, h, p)] by {
        let i = store_index(s, h, p);
        assert(0 <= i < s.len() && s[i].hive == h && s[i].path@ == p);
        assert(t[i].hive == h && t[i].path@ == p);
        lemma_store_at(t, i);
        lemma_store_at(s, i);
    }
    assert(t[s.len() as int] == x);
    lemma_store_at(t, s.len() as int);
}

/// Replacing the key at an index with one at the same address updates the
/// store map at exactly that address.
pub proof fn lemma_store_update(s: Seq<StoreKey>, i: int, x: StoreKey)
    requires
        store_wf(s),
        0 <= i < s.len(),
        x.hive == s[i].hive,
        x.path@ == s[i].path@,
        assoc_wf(x.values@),
    ensures
        store_wf(s.update(i, x)),
        forall|h: HiveId, p: Seq<char>| #[trigger]
            store_contains(s.update(i, x), h, p) <==> store_contains(s, h, p),
        s.update(i, x)[store_index(s.update(i, x), x.hive, x.path@)] == x,
        forall|h: HiveId, p: Seq<char>|
            store_contains(s, h, p) && !(h == x.hive && p == x.path@) ==> s.update(i, x)[store_index(
                s.update(i, x),
                h,
                p,
            )] == s[store_index(s, h, p)],
{
    let t = s.update(i, x);
    assert(forall|j: int|
        0 <= j < t.len() ==> (#[trigger] t[j]).hive == s[j].hive && t[j].path@ == s[j].path@);
    assert forall|h: HiveId, p: Seq<char>| #[trigger]
        store_contains(t, h, p) <==> store_contains(s, h, p) by {
        if store_contains(t, h, p) {
            let j = choose|j: int|
                0 <= j < t.len() && (#[trigger] t[j]).hive == h && t[j].path@ == p;
            assert(s[j].hive == h && s[j].path@ == p);
        }
        if store_contains(s, h, p) {
            let j = choose|j: int|
                0 <= j < s.len() && (#[trigger] s[j]).hive == h && s[j].path@ == p;
            assert(t[j].hive == h && t[j].path@ == p);
        }
    }
    lemma_store_at(t, i);
    assert forall|h: HiveId, p: Seq<char>|
        store_contains(s, h, p) && !(h == x.hive && p == x.path@) implies t[store_index(t, h, p)]
        == s[store_index(s, h, p)] by {
        let j = store_index(s, h, p);
        assert(0 <= j < s.len() && s[j].hive == h && s[j].path@ == p);
        assert(t[j].hive == h && t[j].path@ == p);
        lemma_store_at(t, j);
        lemma_store_at(s, j);
    }
}

impl RegStore {
    /// The index of the key at the given address, if the key exists.
    fn position(&self, hive: HiveId, path: &str) -> (r: Option<usize>)
        ensures
            match r {
                Some(i) => i < self.keys@.len() && self.keys@[i as int].hive == hive
                    && self.keys@[i as int].path@ == path@,
                None => !store_contains(self.keys@, hive, path@),
            },
    {
        let mut i: usize = 0;
        while i < self.keys.len()
            invariant
                i <= self.keys@.len(),
                forall|j: int|
                    0 <= j < i ==> !((#[trigger] self.keys@[j]).hive == hive && self.keys@[j].path@
                        == path@),
            decreases self.keys@.len() - i,
        {
            if self.keys[i].hive == hive && str_eq(self.keys[i].path.as_str(), path) {
                return Some(i);
            }
            i += 1;
        }
        None
    }

    /// Creates the key at the given address, or opens it when it already
    /// exists.  Creation is idempotent: reopening an existing key keeps
    /// every value it already holds.
    pub fn create_or_open(&mut self, hive: HiveId, path: &str) -> (i: usize)
        requires
            old(self).wf(),
        ensures
            final(self).wf(),
            i < final(self).keys@.len(),
            final(self).keys@[i as int].hive == hive,
            final(self).keys@[i as int].path@ == path@,
            final(self)@ == map_or_insert(
                old(self)@,
                (hive, path@),
                Map::<Seq<char>, RawValueV>::empty(),
            ),
    {
        match self.position(hive, path) {
            Some(i) => {
                proof {
                    assert(old(self)@.contains_key((hive, path@)));
                    assert(final(self)@ =~= map_or_insert(
                        old(self)@,
                        (hive, path@),
                        Map::<Seq<char>, RawValueV>::empty(),
                    ));
                }
                i
            },
            None => {
                let i = self.keys.len();
                let ghost s0 = self.keys@;
                self.keys.push(
                    StoreKey { hive, path: path.to_owned(), values: Vec::new() },
                );
                proof {
                    lemma_store_push(s0, self.keys@[s0.len() as int]);
                    assert(self.keys@[s0.len() as int]@ =~= Map::<Seq<char>, RawValueV>::empty());
                    assert(self@ =~= map_or_insert(
                        old(self)@,
                        (hive, path@),
                        Map::<Seq<char>, RawValueV>::empty(),
                    ));
                }
                i
            },
        }
    }

    /// Writes a value under the key at index `i`, overwriting any value of
    /// the same name and leaving every other value and key untouched.
    pub fn set_value(&mut self, i: usize, name: &str, v: RawValue)
        requires
            old(self).wf(),
            i < old(self).keys@.len(),
        ensures
            final(self).wf(),
            final(self).keys@.len() == old(self).keys@.len(),
            final(self).keys@[i as int].hive == old(self).keys@[i as int].hive,
            final(self).keys@[i as int].path@ == old(self).keys@[i as int].path@,
            final(self)@ == old(self)@.insert(
                (old(self).keys@[i as int].hive, old(self).keys@[i as int].path@),
                old(self)@[(old(self).keys@[i as int].hive, old(self).keys@[i as int].path@)]
                    .insert(name@, v@),
            ),
    {
        let ghost s0 = self.keys@;
        proof {
            lemma_store_at(s0, i as int);
        }
        let mut key = self.keys.remove(i);
        let ghost vals0 = key.values@;
        match crate::snapshot::assoc_position(&key.values, name) {
            Some(j) => {
                let ghost w0 = key.values@;
                key.values.remove(j);
                key.values.insert(j, (name.to_owned(), v));
                proof {
                    w0.remove_ensures(j as int);
                    w0.remove(j as int).insert_ensures(j as int, key.values@[j as int]);
                    assert(key.values@ =~= w0.update(j as int, key.values@[j as int]));
                    lemma_assoc_update(w0, j as int, key.values@[j as int]);
                }
            },
            None => {
                let ghost w0 = key.values@;
                key.values.push((name.to_owned(), v));
                proof {
                    lemma_assoc_push(w0, key.values@[w0.len() as int]);
                }
            },
        }
        self.keys.insert(i, key);
        proof {
            s0.remove_ensures(i as int);
            s0.remove(i as int).insert_ensures(i as int, self.keys@[i as int]);
            assert(self.keys@ =~= s0.update(i as int, self.keys@[i as int]));
            lemma_store_update(s0, i as int, self.keys@[i as int]);
            assert(self.keys@[i as int]@ =~= old(self)@[(s0[i as int].hive, s0[i as int].path@)]
                .insert(name@, v@));
            assert(self@ =~= old(self)@.insert(
                (s0[i as int].hive, s0[i as int].path@),
                old(self)@[(s0[i as int].hive, s0[i as int].path@)].insert(name@, v@),
            ));
        }
    }
}

/// The store after replaying the first `n` entries of one key, which the
/// walk has already created or opened at address `hk`: each set entry is
/// written under its name, each unset entry is skipped.
pub open spec fn replay_entries(
    st: Map<(HiveId, Seq<char>), Map<Seq<char>, RawValueV>>,
    hk: (HiveId, Seq<char>),
    entries: Seq<(String, Entry)>,
    n: int,
) -> Map<(HiveId, Seq<char>), Map<Seq<char>, RawValueV>>
    decreases n,
{
    if n <= 0 {
        st
    } else {
        let st1 = replay_entries(st, hk, entries, n - 1);
        match raw_of_entry(entries[n - 1].1@) {
            None => st1,
            Some(rv) => st1.insert(hk, st1[hk].insert(entries[n - 1].0@, rv)),
        }
    }
}

/// The store after replaying the first `n` keys of one resolvable hive:
/// each key is created or opened at its full path, then its entries are
/// replayed.
pub open spec fn replay_keys(
    st: Map<(HiveId, Seq<char>), Map<Seq<char>, RawValueV>>,
    h: HiveId,
    keys: Seq<(String, Entries)>,
    n: int,
) -> Map<(HiveId, Seq<char>), Map<Seq<char>, RawValueV>>
    decreases n,
{
    if n <= 0 {
        st
    } else {
        let st1 = replay_keys(st, h, keys, n - 1);
        let hk = (h, keys[n - 1].0@);
        let st2 = map_or_insert(st1, hk, Map::<Seq<char>, RawValueV>::empty());
        replay_entries(st2, hk, keys[n - 1].1.0@, keys[n - 1].1.0@.len() as int)
    }
}

/// The store after replaying the first `n` hives of a snapshot: a hive
/// whose name is outside the closed root set is skipped whole.
pub open spec fn replay_hives(
    st: Map<(HiveId, Seq<char>), Map<Seq<char>, RawValueV>>,
    hives: Seq<(String, Keys)>,
    n: int,
) -> Map<(HiveId, Seq<char>), Map<Seq<char>, RawValueV>>
    decreases n,
{
    if n <= 0 {
        st
    } else {
        let st1 = replay_hives(st, hives, n - 1);
        match hive_id_of(hives[n - 1].0@) {
            None => st1,
            Some(h) => replay_keys(st1, h, hives[n - 1].1.0@, hives[n - 1].1.0@.len() as int),
        }
    }
}

/// Whether one key of the snapshot holds an unset entry, which replay
/// cannot write.
pub open spec fn key_has_unset(kv: (String, Entries)) -> bool {
    exists|k: int| 0 <= k < kv.1.0@.len() && !(#[trigger] kv.1.0@[k]).1@.is_set()
}

/// Whether replaying one hive of the snapshot records a failure: its name
/// is outside the closed root set, or some entry under it is unset.
pub open spec fn hive_fails(hv: (String, Keys)) -> bool {
    hive_id_of(hv.0@) is None || exists|j: int|
        0 <= j < hv.1.0@.len() && key_has_unset(#[trigger] hv.1.0@[j])
}

/// Whether replaying the snapshot reports the aggregate failure.
pub open spec fn replay_fails(hives: Seq<(String, Keys)>) -> bool {
    exists|i: int| 0 <= i < hives.len() && hive_fails(#[trigger] hives[i])
}

/// Whether one of the first `n` entries writes a value named `nm`.
pub open spec fn written_in_entries(entries: Seq<(String, Entry)>, n: int, nm: Seq<char>) -> bool {
    exists|t: int| 0 <= t < n && (#[trigger] entries[t]).0@ == nm && entries[t].1@.is_set()
}

/// Replaying the entries of one key touches no other store address, never
/// removes anything, writes exactly the set entries under their names,
/// and keeps every value whose name the entries do not write.
pub proof fn lemma_replay_entries_detail(
    st: Map<(HiveId, Seq<char>), Map<Seq<char>, RawValueV>>,
    hk: (HiveId, Seq<char>),
    entries: Seq<(String, Entry)>,
    n: int,
)
    requires
        st.contains_key(hk),
        assoc_wf(entries),
        n <= entries.len(),
    ensures
        forall|a: (HiveId, Seq<char>)| #[trigger]
            replay_entries(st, hk, entries, n).contains_key(a) <==> st.contains_key(a),
        forall|a: (HiveId, Seq<char>)|
            st.contains_key(a) && a != hk ==> #[trigger] replay_entries(st, hk, entries, n)[a]
                == st[a],
        forall|t: int|
            0 <= t < n && (#[trigger] entries[t]).1@.is_set() ==> replay_entries(
                st,
                hk,
                entries,
                n,
            )[hk].contains_key(entries[t].0@) && replay_entries(st, hk, entries, n)[hk][entries[t].0@]
                == raw_of_entry(entries[t].1@)->0,
        forall|nm: Seq<char>|
            !written_in_entries(entries, n, nm) ==> (#[trigger] replay_entries(
                st,
                hk,
                entries,
                n,
            )[hk].contains_key(nm) <==> st[hk].contains_key(nm)),
        forall|nm: Seq<char>|
            !written_in_entries(entries, n, nm) && st[hk].contains_key(nm) ==> #[trigger]
                replay_entries(st, hk, entries, n)[hk][nm] == st[hk][nm],
    decreases n,
{
    if n > 0 {
        lemma_replay_entries_detail(st, hk, entries, n - 1);
        let r1 = replay_entries(st, hk, entries, n - 1);
        let r = replay_entries(st, hk, entries, n);
        if entries[n - 1].1@.is_set() {
            assert(r == r1.insert(hk, r1[hk].insert(entries[n - 1].0@, raw_of_entry(
                entries[n - 1].1@,
            )->0)));
            assert forall|t: int|
                0 <= t < n && (#[trigger] entries[t]).1@.is_set() implies r[hk].contains_key(
                entries[t].0@,
            ) && r[hk][entries[t].0@] == raw_of_entry(entries[t].1@)->0 by {
                if t < n - 1 {
                    assert(entries[t].0@ != entries[n - 1].0@);
                }
            }
            assert forall|nm: Seq<char>| !written_in_entries(entries, n, nm) implies (
            #[trigger] r[hk].contains_key(nm) <==> st[hk].contains_key(nm)) by {
                assert(!written_in_entries(entries, n - 1, nm));
                assert(entries[n - 1].0@ != nm);
            }
            assert forall|nm: Seq<char>|
                !written_in_entries(entries, n, nm) && st[hk].contains_key(nm) implies #[trigger]
                r[hk][nm] == st[hk][nm] by {
                assert(!written_in_entries(entries, n - 1, nm));
                assert(entries[n - 1].0@ != nm);
            }
        } else {
            assert(r == r1);
            assert forall|nm: Seq<char>| !written_in_entries(entries, n, nm) implies (
            #[trigger] r[hk].contains_key(nm) <==> st[hk].contains_key(nm)) by {
                assert(!written_in_entries(entries, n - 1, nm));
            }
            assert forall|nm: Seq<char>|
                !written_in_entries(entries, n, nm) && st[hk].contains_key(nm) implies #[trigger]
                r[hk][nm] == st[hk][nm] by {
                assert(!written_in_entries(entries, n - 1, nm));
            }
        }
    }
}

/// Whether one of the first `n` keys stands at key path `p`.
pub open spec fn key_path_in(keys: Seq<(String, Entries)>, n: int, p: Seq<char>) -> bool {
    exists|j: int| 0 <= j < n && (#[trigger] keys[j]).0@ == p
}

/// Whether one of the first `n` keys writes a value named `nm` at path `p`.
pub open spec fn written_in_keys(
    keys: Seq<(String, Entries)>,
    n: int,
    p: Seq<char>,
    nm: Seq<char>,
) -> bool {
    exists|j: int|
        0 <= j < n && (#[trigger] keys[j]).0@ == p && written_in_entries(
            keys[j].1.0@,
            keys[j].1.0@.len() as int,
            nm,
        )
}

/// Replaying the keys of one resolvable hive touches no other root,
/// creates exactly the keys it was given (keeping ones that existed),
/// writes exactly their set entries, and keeps every value it does not
/// write.
pub proof fn lemma_replay_keys_detail(
    st: Map<(HiveId, Seq<char>), Map<Seq<char>, RawValueV>>,
    h: HiveId,
    keys: Seq<(String, Entries)>,
    n: int,
)
    requires
        assoc_wf(keys),
        forall|j: int| 0 <= j < keys.len() ==> (#[trigger] keys[j]).1.wf(),
        n <= keys.len(),
    ensures
        forall|a: (HiveId, Seq<char>)| #[trigger]
            replay_keys(st, h, keys, n).contains_key(a) <==> (st.contains_key(a) || (a.0 == h
                && key_path_in(keys, n, a.1))),
        forall|a: (HiveId, Seq<char>)|
            st.contains_key(a) && !(a.0 == h && key_path_in(keys, n, a.1)) ==> #[trigger]
                replay_keys(st, h, keys, n)[a] == st[a],
        forall|j: int, t: int|
            0 <= j < n && 0 <= t < (#[trigger] keys[j]).1.0@.len() && (#[trigger]
            keys[j].1.0@[t]).1@.is_set() ==> replay_keys(st, h, keys, n)[(h, keys[j].0@)]
                .contains_key(keys[j].1.0@[t].0@) && replay_keys(st, h, keys, n)[(h, keys[j].0@)][
                keys[j].1.0@[t].0@
            ] == raw_of_entry(keys[j].1.0@[t].1@)->0,
        forall|j: int, nm: Seq<char>|
            0 <= j < n && !written_in_entries(
                (#[trigger] keys[j]).1.0@,
                keys[j].1.0@.len() as int,
                nm,
            ) ==> ((#[trigger] replay_keys(st, h, keys, n)[(h, keys[j].0@)].contains_key(nm))
                <==> (st.contains_key((h, keys[j].0@)) && st[(h, keys[j].0@)].contains_key(nm))),
        forall|j: int, nm: Seq<char>|
            0 <= j < n && !written_in_entries(
                (#[trigger] keys[j]).1.0@,
                keys[j].1.0@.len() as int,
                nm,
            ) && st.contains_key((h, keys[j].0@)) && st[(h, keys[j].0@)].contains_key(nm)
                ==> #[trigger] replay_keys(st, h, keys, n)[(h, keys[j].0@)][nm] == st[(
                h,
                keys[j].0@,
            )][nm],
    decreases n,
{
    if n > 0 {
        lemma_replay_keys_detail(st, h, keys, n - 1);
        let st1 = replay_keys(st, h, keys, n - 1);
        let hk = (h, keys[n - 1].0@);
        let st2 = map_or_insert(st1, hk, Map::<Seq<char>, RawValueV>::empty());
        let e = keys[n - 1].1.0@;
        assert(keys[n - 1].1.wf());
        lemma_replay_entries_detail(st2, hk, e, e.len() as int);
        let r = replay_keys(st, h, keys, n);
        assert(r == replay_entries(st2, hk, e, e.len() as int));
        assert(!key_path_in(keys, n - 1, keys[n - 1].0@));
        assert forall|a: (HiveId, Seq<char>)| #[trigger]
            r.contains_key(a) <==> (st.contains_key(a) || (a.0 == h && key_path_in(
            keys,
            n,
            a.1,
        ))) by {
            if a == hk {
                assert(keys[n - 1].0@ == a.1);
                assert(key_path_in(keys, n, a.1));
            } else {
                if r.contains_key(a) {
                    assert(st2.contains_key(a));
                    assert(st1.contains_key(a));
                    if !st.contains_key(a) {
                        assert(a.0 == h && key_path_in(keys, n - 1, a.1));
                        assert(key_path_in(keys, n, a.1));
                    }
                }
                if st.contains_key(a) || (a.0 == h && key_path_in(keys, n, a.1)) {
                    if st.contains_key(a) {
                        assert(st1.contains_key(a));
                    } else {
                        let j = choose|j: int| 0 <= j < n && (#[trigger] keys[j]).0@ == a.1;
                        assert(j < n - 1);
                        assert(key_path_in(keys, n - 1, a.1));
                        assert(st1.contains_key(a));
                    }
                    assert(st2.contains_key(a));
                }
            }
        }
        assert forall|a: (HiveId, Seq<char>)|
            st.contains_key(a) && !(a.0 == h && key_path_in(keys, n, a.1)) implies #[trigger] r[a]
            == st[a] by {
            assert(a != hk);
            assert(!(a.0 == h && key_path_in(keys, n - 1, a.1)));
            assert(st1[a] == st[a]);
            assert(st1.contains_key(a));
            assert(st2[a] == st1[a]);
            assert(st2.contains_key(a));
        }
        assert forall|j: int, t: int|
            0 <= j < n && 0 <= t < (#[trigger] keys[j]).1.0@.len() && (#[trigger]
            keys[j].1.0@[t]).1@.is_set() implies r[(h, keys[j].0@)].contains_key(
            keys[j].1.0@[t].0@,
        ) && r[(h, keys[j].0@)][keys[j].1.0@[t].0@] == raw_of_entry(keys[j].1.0@[t].1@)->0 by {
            if j == n - 1 {
            } else {
                let a = (h, keys[j].0@);
                assert(keys[j].0@ != keys[n - 1].0@);
                assert(a != hk);
                assert(st1[a].contains_key(keys[j].1.0@[t].0@));
                assert(st1.contains_key(a));
                assert(st2.contains_key(a) && st2[a] == st1[a]);
                assert(r[a] == st2[a]);
            }
        }
        assert forall|j: int, nm: Seq<char>|
            0 <= j < n && !written_in_entries(
                (#[trigger] keys[j]).1.0@,
                keys[j].1.0@.len() as int,
                nm,
            ) implies ((#[trigger] r[(h, keys[j].0@)].contains_key(nm)) <==> (st.contains_key(
            (h, keys[j].0@),
        ) && st[(h, keys[j].0@)].contains_key(nm))) by {
            let a = (h, keys[j].0@);
            if j == n - 1 {
                assert(r[a].contains_key(nm) <==> st2[hk].contains_key(nm));
                if st1.contains_key(hk) {
                    assert(st2[hk] == st1[hk]);
                    if st.contains_key(hk) {
                        assert(st1[hk] == st[hk]);
                    } else {
                        assert(a.0 == h && key_path_in(keys, n - 1, a.1));
                        assert(false);
                    }
                } else {
                    assert(st2[hk] =~= Map::<Seq<char>, RawValueV>::empty());
                    assert(!st.contains_key(hk));
                }
            } else {
                assert(keys[j].0@ != keys[n - 1].0@);
                assert(a != hk);
                if st.contains_key(a) || st1.contains_key(a) || r.contains_key(a) {
                    if st1.contains_key(a) {
                        assert(st2.contains_key(a) && st2[a] == st1[a]);
                        assert(r[a] == st2[a]);
                    }
                }
            }
        }
        assert forall|j: int, nm: Seq<char>|
            0 <= j < n && !written_in_entries(
                (#[trigger] keys[j]).1.0@,
                keys[j].1.0@.len() as int,
                nm,
            ) && st.contains_key((h, keys[j].0@)) && st[(h, keys[j].0@)].contains_key(nm)
            implies #[trigger] r[(h, keys[j].0@)][nm] == st[(h, keys[j].0@)][nm] by {
            let a = (h, keys[j].0@);
            if j == n - 1 {
                assert(st1.contains_key(a));
                assert(st1[a] == st[a]);
                assert(st2[hk] == st1[hk]);
            } else {
                assert(keys[j].0@ != keys[n - 1].0@);
                assert(a != hk);
                assert(st1[a].contains_key(nm) && st1[a][nm] == st[a][nm]);
                assert(st1.contains_key(a));
                assert(st2.contains_key(a) && st2[a] == st1[a]);
                assert(r[a] == st2[a]);
            }
        }
    }
}

/// Whether one of the first `n` hives resolves to root `a.0` and holds a
/// key at path `a.1`.
pub open spec fn hive_written_path(
    hives: Seq<(String, Keys)>,
    n: int,
    a: (HiveId, Seq<char>),
) -> bool {
    exists|i: int|
        0 <= i < n && hive_id_of((#[trigger] hives[i]).0@) == Some(a.0) && key_path_in(
            hives[i].1.0@,
            hives[i].1.0@.len() as int,
            a.1,
        )
}

/// Whether one of the first `n` hives writes a value named `nm` at store
/// address `a`.
pub open spec fn written_in_hives(
    hives: Seq<(String, Keys)>,
    n: int,
    a: (HiveId, Seq<char>),
    nm: Seq<char>,
) -> bool {
    exists|i: int|
        0 <= i < n && hive_id_of((#[trigger] hives[i]).0@) == Some(a.0) && written_in_keys(
            hives[i].1.0@,
            hives[i].1.0@.len() as int,
            a.1,
            nm,
        )
}

/// Replaying a whole well-formed snapshot creates exactly the key
/// addresses it holds under resolvable hive names, writes exactly their
/// set entries, and keeps every store value it does not write.
pub proof fn lemma_replay_hives_detail(
    st: Map<(HiveId, Seq<char>), Map<Seq<char>, RawValueV>>,
    hives: Seq<(String, Keys)>,
    n: int,
)
    requires
        assoc_wf(hives),
        forall|i: int| 0 <= i < hives.len() ==> (#[trigger] hives[i]).1.wf(),
        n <= hives.len(),
    ensures
        forall|a: (HiveId, Seq<char>)| #[trigger]
            replay_hives(st, hives, n).contains_key(a) <==> (st.contains_key(a)
                || hive_written_path(hives, n, a)),
        forall|i: int, j: int, t: int|
            0 <= i < n && hive_id_of(hives[i].0@) is Some && 0 <= j < hives[i].1.0@.len() && 0 <= t
                < hives[i].1.0@[j].1.0@.len() && (#[trigger] hives[i].1.0@[j].1.0@[t]).1@.is_set()
                ==> {
                let a = (hive_id_of(hives[i].0@)->0, hives[i].1.0@[j].0@);
                let nm = hives[i].1.0@[j].1.0@[t].0@;
                &&& replay_hives(st, hives, n).contains_key(a)
                &&& replay_hives(st, hives, n)[a].contains_key(nm)
                &&& replay_hives(st, hives, n)[a][nm] == raw_of_entry(
                    hives[i].1.0@[j].1.0@[t].1@,
                )->0
            },
        forall|a: (HiveId, Seq<char>), nm: Seq<char>|
            !written_in_hives(hives, n, a, nm) ==> ((replay_hives(st, hives, n).contains_key(a)
                && #[trigger] replay_hives(st, hives, n)[a].contains_key(nm)) <==> (
            st.contains_key(a) && st[a].contains_key(nm))),
        forall|a: (HiveId, Seq<char>), nm: Seq<char>|
            !written_in_hives(hives, n, a, nm) && st.contains_key(a) && st[a].contains_key(nm)
                ==> #[trigger] replay_hives(st, hives, n)[a][nm] == st[a][nm],
    decreases n,
{
    if n > 0 {
        lemma_replay_hives_detail(st, hives, n - 1);
        let st1 = replay_hives(st, hives, n - 1);
        let r = replay_hives(st, hives, n);
        match hive_id_of(hives[n - 1].0@) {
            None => {
                assert(r == st1);
                assert forall|a: (HiveId, Seq<char>)| #[trigger]
                    r.contains_key(a) <==> (st.contains_key(a) || hive_written_path(
                    hives,
                    n,
                    a,
                )) by {
                    if hive_written_path(hives, n, a) {
                        let i = choose|i: int|
                            0 <= i < n && hive_id_of((#[trigger] hives[i]).0@) == Some(a.0)
                                && key_path_in(hives[i].1.0@, hives[i].1.0@.len() as int, a.1);
                        assert(i < n - 1);
                        assert(hive_written_path(hives, n - 1, a));
                    }
                }
                assert forall|a: (HiveId, Seq<char>), nm: Seq<char>|
                    !written_in_hives(hives, n, a, nm) implies ((r.contains_key(a)
                    && #[trigger] r[a].contains_key(nm)) <==> (st.contains_key(a)
                    && st[a].contains_key(nm))) by {
                    assert(!written_in_hives(hives, n - 1, a, nm));
                }
                assert forall|a: (HiveId, Seq<char>), nm: Seq<char>|
                    !written_in_hives(hives, n, a, nm) && st.contains_key(a)
                        && st[a].contains_key(nm) implies #[trigger] r[a][nm] == st[a][nm] by {
                    assert(!written_in_hives(hives, n - 1, a, nm));
                }
            },
            Some(h) => {
                let keys = hives[n - 1].1.0@;
                assert(hives[n - 1].1.wf());
                lemma_replay_keys_detail(st1, h, keys, keys.len() as int);
                assert forall|a: (HiveId, Seq<char>)| #[trigger]
                    r.contains_key(a) <==> (st.contains_key(a) || hive_written_path(
                    hives,
                    n,
                    a,
                )) by {
                    if r.contains_key(a) {
                        if !st1.contains_key(a) {
                            assert(a.0 == h && key_path_in(keys, keys.len() as int, a.1));
                            assert(hive_written_path(hives, n, a));
                        } else if !st.contains_key(a) {
                            let i = choose|i: int|
                                0 <= i < n - 1 && hive_id_of((#[trigger] hives[i]).0@) == Some(
                                    a.0,
                                ) && key_path_in(hives[i].1.0@, hives[i].1.0@.len() as int, a.1);
                            assert(hive_written_path(hives, n, a));
                        }
                    }
                    if st.contains_key(a) {
                        assert(st1.contains_key(a));
                        assert(r.contains_key(a));
                    } else if hive_written_path(hives, n, a) {
                        let i = choose|i: int|
                            0 <= i < n && hive_id_of((#[trigger] hives[i]).0@) == Some(a.0)
                                && key_path_in(hives[i].1.0@, hives[i].1.0@.len() as int, a.1);
                        if i < n - 1 {
                            assert(hive_written_path(hives, n - 1, a));
                            assert(st1.contains_key(a));
                            assert(r.contains_key(a));
                        } else {
                            assert(a.0 == h && key_path_in(keys, keys.len() as int, a.1));
                            assert(r.contains_key(a));
                        }
                    }
                }
                assert forall|i: int, j: int, t: int|
                    0 <= i < n && hive_id_of(hives[i].0@) is Some && 0 <= j < hives[i].1.0@.len()
                        && 0 <= t < hives[i].1.0@[j].1.0@.len() && (#[trigger]
                    hives[i].1.0@[j].1.0@[t]).1@.is_set() implies {
                    let a = (hive_id_of(hives[i].0@)->0, hives[i].1.0@[j].0@);
                    let nm = hives[i].1.0@[j].1.0@[t].0@;
                    &&& r.contains_key(a)
                    &&& r[a].contains_key(nm)
                    &&& r[a][nm] == raw_of_entry(hives[i].1.0@[j].1.0@[t].1@)->0
                } by {
                    let a = (hive_id_of(hives[i].0@)->0, hives[i].1.0@[j].0@);
                    let nm = hives[i].1.0@[j].1.0@[t].0@;
                    if i == n - 1 {
                        assert(r[a].contains_key(nm) && r[a][nm] == raw_of_entry(
                            hives[i].1.0@[j].1.0@[t].1@,
                        )->0);
                        assert(hive_written_path(hives, n, a));
                    } else {
                        assert(st1.contains_key(a) && st1[a].contains_key(nm) && st1[a][nm]
                            == raw_of_entry(hives[i].1.0@[j].1.0@[t].1@)->0);
                        if a.0 == h {
                            crate::hive::lemma_hive_id_injective(hives[i].0@, hives[n - 1].0@);
                            assert(hives[i].0@ == hives[n - 1].0@);
                            assert(false);
                        }
                        assert(!(a.0 == h && key_path_in(keys, keys.len() as int, a.1)));
                        assert(r[a] == st1[a]);
                        assert(r.contains_key(a));
                    }
                }
                assert forall|a: (HiveId, Seq<char>), nm: Seq<char>|
                    !written_in_hives(hives, n, a, nm) implies ((r.contains_key(a)
                    && #[trigger] r[a].contains_key(nm)) <==> (st.contains_key(a)
                    && st[a].contains_key(nm))) by {
                    assert(!written_in_hives(hives, n - 1, a, nm));
                    if a.0 == h {
                        assert(!written_in_keys(keys, keys.len() as int, a.1, nm)) by {
                            if written_in_keys(keys, keys.len() as int, a.1, nm) {
                                assert(hive_id_of(hives[n - 1].0@) == Some(a.0));
                                assert(written_in_hives(hives, n, a, nm));
                            }
                        }
                        if key_path_in(keys, keys.len() as int, a.1) {
                            let j = choose|j: int|
                                0 <= j < keys.len() && (#[trigger] keys[j]).0@ == a.1;
                            assert(!written_in_entries(keys[j].1.0@, keys[j].1.0@.len() as int, nm))
                                by {
                                if written_in_entries(keys[j].1.0@, keys[j].1.0@.len() as int, nm) {
                                    assert(written_in_keys(keys, keys.len() as int, a.1, nm));
                                }
                            }
                            assert((r[(h, keys[j].0@)].contains_key(nm)) <==> (st1.contains_key(
                                (h, keys[j].0@),
                            ) && st1[(h, keys[j].0@)].contains_key(nm)));
                            assert(r.contains_key(a));
                        } else {
                            assert(!(a.0 == h && key_path_in(keys, keys.len() as int, a.1)));
                            if st1.contains_key(a) {
                                assert(r[a] == st1[a]);
                            }
                            assert(r.contains_key(a) <==> st1.contains_key(a));
                        }
                    } else {
                        if st1.contains_key(a) {
                            assert(r[a] == st1[a]);
                        }
                        assert(r.contains_key(a) <==> st1.contains_key(a));
                    }
                }
                assert forall|a: (HiveId, Seq<char>), nm: Seq<char>|
                    !written_in_hives(hives, n, a, nm) && st.contains_key(a)
                        && st[a].contains_key(nm) implies #[trigger] r[a][nm] == st[a][nm] by {
                    assert(!written_in_hives(hives, n - 1, a, nm));
                    assert(st1.contains_key(a) && st1[a].contains_key(nm) && st1[a][nm]
                        == st[a][nm]);
                    if a.0 == h {
                        assert(!written_in_keys(keys, keys.len() as int, a.1, nm)) by {
                            if written_in_keys(keys, keys.len() as int, a.1, nm) {
                                assert(hive_id_of(hives[n - 1].0@) == Some(a.0));
                                assert(written_in_hives(hives, n, a, nm));
                            }
                        }
                        if key_path_in(keys, keys.len() as int, a.1) {
                            let j = choose|j: int|
                                0 <= j < keys.len() && (#[trigger] keys[j]).0@ == a.1;
                            assert(!written_in_entries(keys[j].1.0@, keys[j].1.0@.len() as int, nm))
                                by {
                                if written_in_entries(keys[j].1.0@, keys[j].1.0@.len() as int, nm) {
                                    assert(written_in_keys(keys, keys.len() as int, a.1, nm));
                                }
                            }
                            assert(r[(h, keys[j].0@)][nm] == st1[(h, keys[j].0@)][nm]);
                        } else {
                            assert(r[a] == st1[a]);
                        }
                    } else {
                        assert(r[a] == st1[a]);
                    }
                }
            },
        }
    }
}

/// Idempotent key creation: replaying never removes a key from the store
/// and never alters a value the snapshot does not write, so unrelated
/// pre-existing values under a recreated key survive replay unchanged.
pub proof fn law_replay_idempotent(
    st: Map<(HiveId, Seq<char>), Map<Seq<char>, RawValueV>>,
    hives: Seq<(String, Keys)>,
    a: (HiveId, Seq<char>),
    nm: Seq<char>,
)
    requires
        assoc_wf(hives),
        forall|i: int| 0 <= i < hives.len() ==> (#[trigger] hives[i]).1.wf(),
        st.contains_key(a),
        st[a].contains_key(nm),
        !written_in_hives(hives, hives.len() as int, a, nm),
    ensures
        replay_hives(st, hives, hives.len() as int).contains_key(a),
        replay_hives(st, hives, hives.len() as int)[a].contains_key(nm),
        replay_hives(st, hives, hives.len() as int)[a][nm] == st[a][nm],
{
    lemma_replay_hives_detail(st, hives, hives.len() as int);
}

/// Unset exclusion, replay side: only set entries are ever written.  A
/// name that the snapshot holds unset (or not at all) at an address is in
/// the store after replay exactly when it was there before.
pub proof fn law_replay_unset_excluded(
    st: Map<(HiveId, Seq<char>), Map<Seq<char>, RawValueV>>,
    hives: Seq<(String, Keys)>,
    a: (HiveId, Seq<char>),
    nm: Seq<char>,
)
    requires
        assoc_wf(hives),
        forall|i: int| 0 <= i < hives.len() ==> (#[trigger] hives[i]).1.wf(),
        !written_in_hives(hives, hives.len() as int, a, nm),
    ensures
        (replay_hives(st, hives, hives.len() as int).contains_key(a) && replay_hives(
            st,
            hives,
            hives.len() as int,
        )[a].contains_key(nm)) <==> (st.contains_key(a) && st[a].contains_key(nm)),
{
    lemma_replay_hives_detail(st, hives, hives.len() as int);
}

/// Round trip, write side: replaying a snapshot into the empty store
/// writes every set entry of every resolvable hive at its own address,
/// as a native value that decodes back to exactly the typed value the
/// snapshot holds.
pub proof fn law_round_trip_writes(hives: Seq<(String, Keys)>, i: int, j: int, t: int)
    requires
        assoc_wf(hives),
        forall|q: int| 0 <= q < hives.len() ==> (#[trigger] hives[q]).1.wf(),
        0 <= i < hives.len(),
        hive_id_of(hives[i].0@) is Some,
        0 <= j < hives[i].1.0@.len(),
        0 <= t < hives[i].1.0@[j].1.0@.len(),
        hives[i].1.0@[j].1.0@[t].1@.is_set(),
    ensures
        ({
            let r = replay_hives(
                Map::<(HiveId, Seq<char>), Map<Seq<char>, RawValueV>>::empty(),
                hives,
                hives.len() as int,
            );
            let a = (hive_id_of(hives[i].0@)->0, hives[i].1.0@[j].0@);
            let nm = hives[i].1.0@[j].1.0@[t].0@;
            &&& r.contains_key(a)
            &&& r[a].contains_key(nm)
            &&& crate::value::entry_of_native(crate::value::native_of_raw(r[a][nm]))
                == hives[i].1.0@[j].1.0@[t].1@
        }),
{
    lemma_replay_hives_detail(
        Map::<(HiveId, Seq<char>), Map<Seq<char>, RawValueV>>::empty(),
        hives,
        hives.len() as int,
    );
    crate::value::law_value_round_trip(hives[i].1.0@[j].1.0@[t].1@);
}

/// Round trip, nothing extra: the empty store replayed holds a value only
/// where some set entry of the snapshot wrote one.
pub proof fn law_round_trip_no_extra(
    hives: Seq<(String, Keys)>,
    a: (HiveId, Seq<char>),
    nm: Seq<char>,
)
    requires
        assoc_wf(hives),
        forall|i: int| 0 <= i < hives.len() ==> (#[trigger] hives[i]).1.wf(),
        !written_in_hives(hives, hives.len() as int, a, nm),
    ensures
        !(replay_hives(
            Map::<(HiveId, Seq<char>), Map<Seq<char>, RawValueV>>::empty(),
            hives,
            hives.len() as int,
        ).contains_key(a) && replay_hives(
            Map::<(HiveId, Seq<char>), Map<Seq<char>, RawValueV>>::empty(),
            hives,
            hives.len() as int,
        )[a].contains_key(nm)),
{
    lemma_replay_hives_detail(
        Map::<(HiveId, Seq<char>), Map<Seq<char>, RawValueV>>::empty(),
        hives,
        hives.len() as int,
    );
}

/// Round trip: every set entry of a well-formed snapshot under a
/// resolvable hive name — such as a snapshot built by capture — lands,
/// after replay into the empty store, at its own address, as a native
/// value that decodes back to exactly the typed value the snapshot holds.
pub proof fn law_round_trip(hv: Hives, h: Seq<char>, k: Seq<char>, nm: Seq<char>)
    requires
        hv.wf(),
        hive_id_of(h) is Some,
        hv@.contains_key(h),
        hv@[h].contains_key(k),
        hv@[h][k].contains_key(nm),
        hv@[h][k][nm].is_set(),
    ensures
        ({
            let st = replay_hives(
                Map::<(HiveId, Seq<char>), Map<Seq<char>, RawValueV>>::empty(),
                hv.0@,
                hv.0@.len() as int,
            );
            let a = (hive_id_of(h)->0, k);
            &&& st.contains_key(a)
            &&& st[a].contains_key(nm)
            &&& crate::value::entry_of_native(crate::value::native_of_raw(st[a][nm]))
                == hv@[h][k][nm]
        }),
{
    let i = choose|i: int| 0 <= i < hv.0@.len() && (#[trigger] hv.0@[i]).0@ == h;
    lemma_assoc_at(hv.0@, i);
    let keys = hv.0@[i].1;
    assert(hv@[h] == keys@);
    let j = choose|j: int| 0 <= j < keys.0@.len() && (#[trigger] keys.0@[j]).0@ == k;
    lemma_assoc_at(keys.0@, j);
    let entries = keys.0@[j].1;
    assert(hv@[h][k] == entries@);
    let t = choose|t: int| 0 <= t < entries.0@.len() && (#[trigger] entries.0@[t]).0@ == nm;
    lemma_assoc_at(entries.0@, t);
    assert(hv@[h][k][nm] == entries.0@[t].1@);
    law_round_trip_writes(hv.0@, i, j, t);
}

impl Hives {
    /// Replays the snapshot into the store.  Every key of every resolvable
    /// hive is created or opened at its full path — never clearing what an
    /// existing key already holds — and every set entry is written under
    /// it, overwriting a value of the same name.  An unresolvable hive
    /// name or an unset entry is skipped and recorded; the call returns
    /// the single aggregate error exactly when anything was skipped.
    pub fn restore(&self, store: &mut RegStore) -> (r: Result<(), Error>)
        requires
            self.wf(),
            old(store).wf(),
        ensures
            final(store).wf(),
            final(store)@ == replay_hives(old(store)@, self.0@, self.0@.len() as int),
            r is Err <==> replay_fails(self.0@),
    {
        let mut failed = false;
        let mut i: usize = 0;
        while i < self.0.len()
            invariant
                self.wf(),
                store.wf(),
                i <= self.0@.len(),
                store@ == replay_hives(old(store)@, self.0@, i as int),
                failed <==> exists|t: int| 0 <= t < i && hive_fails(#[trigger] self.0@[t]),
            decreases self.0@.len() - i,
        {
            let hv = &self.0[i];
            match get_hkey_from_name(hv.0.as_str()) {
                None => {
                    failed = true;
                },
                Some(h) => {
                    let keys = &hv.1;
                    let ghost st_hive = store@;
                    let ghost f_hive = failed;
                    let mut j: usize = 0;
                    while j < keys.0.len()
                        invariant
                            self.wf(),
                            store.wf(),
                            i < self.0@.len(),
                            *keys == self.0@[i as int].1,
                            hive_id_of(self.0@[i as int].0@) == Some(h),
                            j <= keys.0@.len(),
                            store@ == replay_keys(st_hive, h, keys.0@, j as int),
                            failed <==> (f_hive || exists|t: int|
                                0 <= t < j && key_has_unset(#[trigger] keys.0@[t])),
                        decreases keys.0@.len() - j,
                    {
                        let kv = &keys.0[j];
                        let ki = store.create_or_open(h, kv.0.as_str());
                        let entries = &kv.1;
                        let ghost st_key = store@;
                        let ghost f_key = failed;
                        let mut k: usize = 0;
                        while k < entries.0.len()
                            invariant
                                self.wf(),
                                store.wf(),
                                i < self.0@.len(),
                                j < keys.0@.len(),
                                *keys == self.0@[i as int].1,
                                *entries == keys.0@[j as int].1,
                                assoc_wf(entries.0@),
                                k <= entries.0@.len(),
                                ki < store.keys@.len(),
                                store.keys@[ki as int].hive == h,
                                store.keys@[ki as int].path@ == keys.0@[j as int].0@,
                                store@ == replay_entries(
                                    st_key,
                                    (h, keys.0@[j as int].0@),
                                    entries.0@,
                                    k as int,
                                ),
                                failed <==> (f_key || exists|t: int|
                                    0 <= t < k && !(#[trigger] entries.0@[t]).1@.is_set()),
                            decreases entries.0@.len() - k,
                        {
                            let ev = &entries.0[k];
                            match ev.1.to_raw() {
                                None => {
                                    failed = true;
                                },
                                Some(rv) => {
                                    proof {
                                        lemma_store_at(store.keys@, ki as int);
                                    }
                                    store.set_value(ki, ev.0.as_str(), rv);
                                },
                            }
                            k += 1;
                        }
                        j += 1;
                    }
                },
            }
            i += 1;
        }
        if failed {
            Err(Error::RegistryIssue)
        } else {
            Ok(())
        }
    }
}

} // verus!
