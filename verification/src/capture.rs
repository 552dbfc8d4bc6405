//! The capture walk: depth-first enumeration of a store subtree into a
//! snapshot.  The walk is best-effort: every branch is attempted even when
//! a sibling branch has already failed, and a failure anywhere surfaces as
//! the single aggregate error of the call.

use vstd::prelude::*;
use crate::hive::{get_hkey_from_name, hive_id_of};
use crate::snapshot::{snap_insert, Error, Hives, RegistryInfo};
use crate::strings::{
    find_sep, join_key, joined, lemma_first_sep, normalize_separators, parsed_path, sep_char,
};
use vstd::string::StrSliceExecFns;
use crate::value::{entry_of_native, Entry, NativeValue};

verus! {

broadcast use {vstd::seq::axiom_seq_index_decreases, vstd::std_specs::vec::group_vec_axioms};

/// One key of a store subtree as the enumeration hands it to the walk:
/// either opening the key failed, or it was opened and its own values and
/// immediate child keys were listed.
#[derive(Debug, PartialEq, Eq)]
pub enum RegNode {
    /// Opening this key failed (missing, access denied, ...).
    Inaccessible,
    /// The key was opened and enumerated.
    Key(RegKeyData),
}

/// What enumerating one opened key yields: its named values with their
/// native type tags, and its immediate child keys by name.
#[derive(Debug, PartialEq, Eq)]
pub struct RegKeyData {
    pub values: Vec<(String, NativeValue)>,
    pub children: Vec<(String, RegNode)>,
}

impl RegNode {
    /// Whether capturing this subtree reports failure: the key itself or
    /// any descendant key could not be opened.
    pub open spec fn capture_fails(self) -> bool
        decreases self,
    {
        match self {
            RegNode::Inaccessible => true,
            RegNode::Key(d) => exists|i: int|
                0 <= i < d.children@.len() && (#[trigger] d.children@[i]).1.capture_fails(),
        }
    }

    /// Whether any of the key's own direct values decodes to a set entry;
    /// descendants do not count.
    pub open spec fn found_direct(self) -> bool {
        match self {
            RegNode::Inaccessible => false,
            RegNode::Key(d) => exists|i: int|
                0 <= i < d.values@.len() && entry_of_native(
                    (#[trigger] d.values@[i]).1@,
                ).is_set(),
        }
    }
}

/// What one enumerated value does to the snapshot: it is inserted exactly
/// when it decodes to a set entry, and dropped otherwise.
pub open spec fn capture_one_value(
    m: Map<Seq<char>, Map<Seq<char>, Map<Seq<char>, crate::value::EntryV>>>,
    hive: Seq<char>,
    key: Seq<char>,
    v: (String, NativeValue),
) -> Map<Seq<char>, Map<Seq<char>, Map<Seq<char>, crate::value::EntryV>>> {
    if entry_of_native(v.1@).is_set() {
        snap_insert(m, hive, key, v.0@, entry_of_native(v.1@))
    } else {
        m
    }
}

/// The snapshot after capturing the first `n` enumerated values of a key.
pub open spec fn capture_values(
    m: Map<Seq<char>, Map<Seq<char>, Map<Seq<char>, crate::value::EntryV>>>,
    hive: Seq<char>,
    key: Seq<char>,
    vals: Seq<(String, NativeValue)>,
    n: int,
) -> Map<Seq<char>, Map<Seq<char>, Map<Seq<char>, crate::value::EntryV>>>
    decreases n,
{
    if n <= 0 {
        m
    } else {
        capture_one_value(capture_values(m, hive, key, vals, n - 1), hive, key, vals[n - 1])
    }
}

/// The snapshot after capturing a whole subtree rooted at `key`.
pub open spec fn capture_node(
    m: Map<Seq<char>, Map<Seq<char>, Map<Seq<char>, crate::value::EntryV>>>,
    hive: Seq<char>,
    key: Seq<char>,
    node: RegNode,
) -> Map<Seq<char>, Map<Seq<char>, Map<Seq<char>, crate::value::EntryV>>>
    decreases node, 1int,
{
    match node {
        RegNode::Inaccessible => m,
        RegNode::Key(d) => capture_children(
            capture_values(m, hive, key, d.values@, d.values@.len() as int),
            hive,
            key,
            d.children@,
            d.children@.len() as int,
        ),
    }
}

/// The snapshot after capturing the subtrees of the first `n` child keys.
pub open spec fn capture_children(
    m: Map<Seq<char>, Map<Seq<char>, Map<Seq<char>, crate::value::EntryV>>>,
    hive: Seq<char>,
    key: Seq<char>,
    children: Seq<(String, RegNode)>,
    n: int,
) -> Map<Seq<char>, Map<Seq<char>, Map<Seq<char>, crate::value::EntryV>>>
    decreases children, 0int, n,
{
    if n <= 0 || n > children.len() {
        m
    } else {
        capture_node(
            capture_children(m, hive, key, children, n - 1),
            hive,
            joined(key, children[n - 1].0@),
            children[n - 1].1,
        )
    }
}

impl Hives {
    /// Captures the subtree rooted at `key` under the named hive into the
    /// snapshot.  Every value that decodes to a set entry is recorded at
    /// `[hive_name][key path][value name]`; other values are dropped.
    /// Every child branch is attempted; the call reports failure exactly
    /// when this key or some descendant key could not be opened, and
    /// `found` exactly when one of this key's own direct values was
    /// recorded.
    pub fn store_key(&mut self, node: &RegNode, hive_name: &str, key: &str) -> (r: Result<
        RegistryInfo,
        Error,
    >)
        requires
            old(self).wf(),
        ensures
            final(self).wf(),
            final(self)@ == capture_node(old(self)@, hive_name@, key@, *node),
            r is Err <==> node.capture_fails(),
            r matches Ok(info) ==> info.found == node.found_direct(),
        decreases *node,
    {
        let d = match node {
            RegNode::Inaccessible => {
                return Err(Error::RegistryIssue);
            },
            RegNode::Key(d) => d,
        };
        let mut info = RegistryInfo { found: false };
        let mut i: usize = 0;
        while i < d.values.len()
            invariant
                self.wf(),
                i <= d.values@.len(),
                self@ == capture_values(old(self)@, hive_name@, key@, d.values@, i as int),
                info.found <==> exists|j: int|
                    0 <= j < i && entry_of_native(
                        (#[trigger] d.values@[j]).1@,
                    ).is_set(),
            decreases d.values@.len() - i,
        {
            let pair = &d.values[i];
            let entry = Entry::from_native(&pair.1);
            if entry.is_set() {
                info.found = true;
                self.insert_value(hive_name, key, pair.0.as_str(), entry);
                proof {
                    assert(entry_of_native(d.values@[i as int].1@).is_set());
                }
            }
            i += 1;
        }
        let ghost m_vals = self@;
        let mut failed = false;
        let mut c: usize = 0;
        while c < d.children.len()
            invariant
                *node == RegNode::Key(*d),
                self.wf(),
                c <= d.children@.len(),
                self@ == capture_children(m_vals, hive_name@, key@, d.children@, c as int),
                failed <==> exists|j: int|
                    0 <= j < c && (#[trigger] d.children@[j]).1.capture_fails(),
            decreases d.children@.len() - c,
        {
            let child = &d.children[c];
            proof {
                assert(decreases_to!(*node => node->Key_0));
                assert(node->Key_0 == *d);
                assert(decreases_to!(*d => d.children));
                assert(decreases_to!(d.children => d.children@));
                assert(decreases_to!(d.children@ => d.children@[c as int]));
                assert(decreases_to!(d.children@[c as int] => d.children@[c as int].1));
            }
            let child_path = join_key(key, child.0.as_str());
            if self.store_key(&child.1, hive_name, child_path.as_str()).is_err() {
                failed = true;
            }
            c += 1;
        }
        if failed {
            return Err(Error::RegistryIssue);
        }
        Ok(info)
    }

    /// Top-level capture entry point.  The full path is `<hive>\<key>`,
    /// with `/` accepted as an alternate separator.  A path without a
    /// separator, or whose hive name is outside the closed root set, is
    /// rejected before any enumeration, leaving the snapshot unchanged;
    /// otherwise the capture of the named subtree runs as `store_key`
    /// states.
    pub fn store_key_from_full_path(&mut self, path: &str, node: &RegNode) -> (r: Result<
        RegistryInfo,
        Error,
    >)
        requires
            old(self).wf(),
        ensures
            final(self).wf(),
            match parsed_path(path@) {
                None => r is Err && final(self)@ == old(self)@,
                Some(parts) => {
                    if hive_id_of(parts.0) is None {
                        r is Err && final(self)@ == old(self)@
                    } else {
                        &&& final(self)@ == capture_node(old(self)@, parts.0, parts.1, *node)
                        &&& (r is Err <==> node.capture_fails())
                        &&& (r matches Ok(info) ==> info.found == node.found_direct())
                    }
                },
            },
    {
        let path2 = normalize_separators(path);
        let p = path2.as_str();
        let n = p.unicode_len();
        match find_sep(p) {
            None => Err(Error::RegistryIssue),
            Some(i) => {
                proof {
                    lemma_first_sep(p@, i as int);
                }
                let hive_name = p.substring_char(0, i);
                let key = p.substring_char(i + 1, n);
                if get_hkey_from_name(hive_name).is_none() {
                    return Err(Error::RegistryIssue);
                }
                self.store_key(node, hive_name, key)
            },
        }
    }
}

/// Whether a snapshot holds an entry at `[h][k][n]`.
pub open spec fn snap_contains(
    m: Map<Seq<char>, Map<Seq<char>, Map<Seq<char>, crate::value::EntryV>>>,
    h: Seq<char>,
    k: Seq<char>,
    n: Seq<char>,
) -> bool {
    m.contains_key(h) && m[h].contains_key(k) && m[h][k].contains_key(n)
}

/// Whether every entry held anywhere in a snapshot is set.
pub open spec fn snap_all_set(
    m: Map<Seq<char>, Map<Seq<char>, Map<Seq<char>, crate::value::EntryV>>>,
) -> bool {
    forall|h: Seq<char>, k: Seq<char>, n: Seq<char>|
        snap_contains(m, h, k, n) ==> (#[trigger] m[h][k][n]).is_set()
}

/// Inserting one value never removes an entry, adds the entry it was
/// given, and keeps every other entry's typed value.
pub proof fn lemma_snap_insert(
    m: Map<Seq<char>, Map<Seq<char>, Map<Seq<char>, crate::value::EntryV>>>,
    hive: Seq<char>,
    key: Seq<char>,
    name: Seq<char>,
    e: crate::value::EntryV,
)
    ensures
        snap_contains(snap_insert(m, hive, key, name, e), hive, key, name),
        forall|h: Seq<char>, k: Seq<char>, n: Seq<char>|
            snap_contains(m, h, k, n) ==> #[trigger] snap_contains(
                snap_insert(m, hive, key, name, e),
                h,
                k,
                n,
            ),
        forall|h: Seq<char>, k: Seq<char>, n: Seq<char>|
            snap_contains(m, h, k, n) ==> #[trigger] snap_insert(m, hive, key, name, e)[h][k][n]
                == m[h][k][n],
        forall|h: Seq<char>, k: Seq<char>, n: Seq<char>|
            snap_contains(snap_insert(m, hive, key, name, e), h, k, n) ==> (snap_contains(m, h, k, n)
                || (h == hive && k == key && n == name && #[trigger] snap_insert(
                m,
                hive,
                key,
                name,
                e,
            )[h][k][n] == e)),
{
}

/// Capturing values never removes an entry and keeps every held entry's
/// typed value.
pub proof fn lemma_capture_values_mono(
    m: Map<Seq<char>, Map<Seq<char>, Map<Seq<char>, crate::value::EntryV>>>,
    hive: Seq<char>,
    key: Seq<char>,
    vals: Seq<(String, NativeValue)>,
    n: int,
    h: Seq<char>,
    k: Seq<char>,
    nm: Seq<char>,
)
    requires
        snap_contains(m, h, k, nm),
    ensures
        snap_contains(capture_values(m, hive, key, vals, n), h, k, nm),
        capture_values(m, hive, key, vals, n)[h][k][nm] == m[h][k][nm],
    decreases n,
{
    if n > 0 {
        lemma_capture_values_mono(m, hive, key, vals, n - 1, h, k, nm);
        if entry_of_native(vals[n - 1].1@).is_set() {
            lemma_snap_insert(
                capture_values(m, hive, key, vals, n - 1),
                hive,
                key,
                vals[n - 1].0@,
                entry_of_native(vals[n - 1].1@),
            );
        }
    }
}

/// Capturing a subtree never removes an entry and keeps every held
/// entry's typed value.
pub proof fn lemma_capture_node_mono(
    m: Map<Seq<char>, Map<Seq<char>, Map<Seq<char>, crate::value::EntryV>>>,
    hive: Seq<char>,
    key: Seq<char>,
    node: RegNode,
    h: Seq<char>,
    k: Seq<char>,
    nm: Seq<char>,
)
    requires
        snap_contains(m, h, k, nm),
    ensures
        snap_contains(capture_node(m, hive, key, node), h, k, nm),
        capture_node(m, hive, key, node)[h][k][nm] == m[h][k][nm],
    decreases node, 1int,
{
    match node {
        RegNode::Inaccessible => {},
        RegNode::Key(d) => {
            lemma_capture_values_mono(m, hive, key, d.values@, d.values@.len() as int, h, k, nm);
            lemma_capture_children_mono(
                capture_values(m, hive, key, d.values@, d.values@.len() as int),
                hive,
                key,
                d.children@,
                d.children@.len() as int,
                h,
                k,
                nm,
            );
        },
    }
}

/// Capturing child subtrees never removes an entry and keeps every held
/// entry's typed value.
pub proof fn lemma_capture_children_mono(
    m: Map<Seq<char>, Map<Seq<char>, Map<Seq<char>, crate::value::EntryV>>>,
    hive: Seq<char>,
    key: Seq<char>,
    children: Seq<(String, RegNode)>,
    n: int,
    h: Seq<char>,
    k: Seq<char>,
    nm: Seq<char>,
)
    requires
        snap_contains(m, h, k, nm),
    ensures
        snap_contains(capture_children(m, hive, key, children, n), h, k, nm),
        capture_children(m, hive, key, children, n)[h][k][nm] == m[h][k][nm],
    decreases children, 0int, n,
{
    if 0 < n <= children.len() {
        lemma_capture_children_mono(m, hive, key, children, n - 1, h, k, nm);
        lemma_capture_node_mono(
            capture_children(m, hive, key, children, n - 1),
            hive,
            joined(key, children[n - 1].0@),
            children[n - 1].1,
            h,
            k,
            nm,
        );
    }
}

/// Unset exclusion, capture side: a value that does not decode to a set
/// entry is never inserted, so a capture starting from a snapshot that
/// holds only set entries ends with one that holds only set entries.
pub proof fn law_capture_only_set(
    m: Map<Seq<char>, Map<Seq<char>, Map<Seq<char>, crate::value::EntryV>>>,
    hive: Seq<char>,
    key: Seq<char>,
    node: RegNode,
)
    requires
        snap_all_set(m),
    ensures
        snap_all_set(capture_node(m, hive, key, node)),
    decreases node, 1int,
{
    match node {
        RegNode::Inaccessible => {},
        RegNode::Key(d) => {
            lemma_capture_values_only_set(m, hive, key, d.values@, d.values@.len() as int);
            lemma_capture_children_only_set(
                capture_values(m, hive, key, d.values@, d.values@.len() as int),
                hive,
                key,
                d.children@,
                d.children@.len() as int,
            );
        },
    }
}

pub proof fn lemma_capture_values_only_set(
    m: Map<Seq<char>, Map<Seq<char>, Map<Seq<char>, crate::value::EntryV>>>,
    hive: Seq<char>,
    key: Seq<char>,
    vals: Seq<(String, NativeValue)>,
    n: int,
)
    requires
        snap_all_set(m),
    ensures
        snap_all_set(capture_values(m, hive, key, vals, n)),
    decreases n,
{
    if n > 0 {
        lemma_capture_values_only_set(m, hive, key, vals, n - 1);
        let m1 = capture_values(m, hive, key, vals, n - 1);
        if entry_of_native(vals[n - 1].1@).is_set() {
            lemma_snap_insert(m1, hive, key, vals[n - 1].0@, entry_of_native(vals[n - 1].1@));
            assert forall|h: Seq<char>, k: Seq<char>, nm: Seq<char>|
                snap_contains(capture_values(m, hive, key, vals, n), h, k, nm) implies (
            #[trigger] capture_values(m, hive, key, vals, n)[h][k][nm]).is_set() by {
                if snap_contains(m1, h, k, nm) {
                    assert(m1[h][k][nm].is_set());
                }
            }
        }
    }
}

pub proof fn lemma_capture_children_only_set(
    m: Map<Seq<char>, Map<Seq<char>, Map<Seq<char>, crate::value::EntryV>>>,
    hive: Seq<char>,
    key: Seq<char>,
    children: Seq<(String, RegNode)>,
    n: int,
)
    requires
        snap_all_set(m),
    ensures
        snap_all_set(capture_children(m, hive, key, children, n)),
    decreases children, 0int, n,
{
    if 0 < n <= children.len() {
        lemma_capture_children_only_set(m, hive, key, children, n - 1);
        law_capture_only_set(
            capture_children(m, hive, key, children, n - 1),
            hive,
            joined(key, children[n - 1].0@),
            children[n - 1].1,
        );
    }
}

/// Capturing values touches no snapshot address but `[hive][key]`.
pub proof fn lemma_capture_values_untouched(
    m: Map<Seq<char>, Map<Seq<char>, Map<Seq<char>, crate::value::EntryV>>>,
    hive: Seq<char>,
    key: Seq<char>,
    vals: Seq<(String, NativeValue)>,
    n: int,
    h: Seq<char>,
    k: Seq<char>,
    nm: Seq<char>,
)
    requires
        h != hive || k != key,
    ensures
        snap_contains(capture_values(m, hive, key, vals, n), h, k, nm) <==> snap_contains(
            m,
            h,
            k,
            nm,
        ),
        snap_contains(m, h, k, nm) ==> capture_values(m, hive, key, vals, n)[h][k][nm]
            == m[h][k][nm],
    decreases n,
{
    if n > 0 {
        lemma_capture_values_untouched(m, hive, key, vals, n - 1, h, k, nm);
        let m1 = capture_values(m, hive, key, vals, n - 1);
        if entry_of_native(vals[n - 1].1@).is_set() {
            lemma_snap_insert(m1, hive, key, vals[n - 1].0@, entry_of_native(vals[n - 1].1@));
        }
    }
}

/// Capturing a subtree rooted at `key` touches no snapshot address under
/// another hive, nor one whose key path is shorter than `key`.
pub proof fn lemma_capture_node_untouched(
    m: Map<Seq<char>, Map<Seq<char>, Map<Seq<char>, crate::value::EntryV>>>,
    hive: Seq<char>,
    key: Seq<char>,
    node: RegNode,
    h: Seq<char>,
    k: Seq<char>,
    nm: Seq<char>,
)
    requires
        h != hive || k.len() < key.len(),
    ensures
        snap_contains(capture_node(m, hive, key, node), h, k, nm) <==> snap_contains(m, h, k, nm),
        snap_contains(m, h, k, nm) ==> capture_node(m, hive, key, node)[h][k][nm] == m[h][k][nm],
    decreases node, 1int,
{
    match node {
        RegNode::Inaccessible => {},
        RegNode::Key(d) => {
            lemma_capture_values_untouched(
                m,
                hive,
                key,
                d.values@,
                d.values@.len() as int,
                h,
                k,
                nm,
            );
            lemma_capture_children_untouched(
                capture_values(m, hive, key, d.values@, d.values@.len() as int),
                hive,
                key,
                d.children@,
                d.children@.len() as int,
                h,
                k,
                nm,
            );
        },
    }
}

/// Capturing child subtrees of the key at `key` touches no snapshot
/// address under another hive, nor one whose key path is no longer than
/// `key` — in particular never `[hive][key]` itself.
pub proof fn lemma_capture_children_untouched(
    m: Map<Seq<char>, Map<Seq<char>, Map<Seq<char>, crate::value::EntryV>>>,
    hive: Seq<char>,
    key: Seq<char>,
    children: Seq<(String, RegNode)>,
    n: int,
    h: Seq<char>,
    k: Seq<char>,
    nm: Seq<char>,
)
    requires
        h != hive || k.len() <= key.len(),
    ensures
        snap_contains(capture_children(m, hive, key, children, n), h, k, nm) <==> snap_contains(
            m,
            h,
            k,
            nm,
        ),
        snap_contains(m, h, k, nm) ==> capture_children(m, hive, key, children, n)[h][k][nm]
            == m[h][k][nm],
    decreases children, 0int, n,
{
    if 0 < n <= children.len() {
        lemma_capture_children_untouched(m, hive, key, children, n - 1, h, k, nm);
        lemma_capture_node_untouched(
            capture_children(m, hive, key, children, n - 1),
            hive,
            joined(key, children[n - 1].0@),
            children[n - 1].1,
            h,
            k,
            nm,
        );
    }
}

/// A name that none of the first `n` values carries stays absent.
pub proof fn lemma_capture_values_absent(
    m: Map<Seq<char>, Map<Seq<char>, Map<Seq<char>, crate::value::EntryV>>>,
    hive: Seq<char>,
    key: Seq<char>,
    vals: Seq<(String, NativeValue)>,
    n: int,
    nm: Seq<char>,
)
    requires
        !snap_contains(m, hive, key, nm),
        forall|t: int| 0 <= t < n ==> (#[trigger] vals[t]).0@ != nm,
    ensures
        !snap_contains(capture_values(m, hive, key, vals, n), hive, key, nm),
    decreases n,
{
    if n > 0 {
        lemma_capture_values_absent(m, hive, key, vals, n - 1, nm);
        let m1 = capture_values(m, hive, key, vals, n - 1);
        if entry_of_native(vals[n - 1].1@).is_set() {
            lemma_snap_insert(m1, hive, key, vals[n - 1].0@, entry_of_native(vals[n - 1].1@));
        }
    }
}

/// Capturing values whose names are distinct records each set value with
/// exactly its decoded typed value, when the snapshot did not bind the
/// name before.
pub proof fn lemma_capture_values_exact(
    m: Map<Seq<char>, Map<Seq<char>, Map<Seq<char>, crate::value::EntryV>>>,
    hive: Seq<char>,
    key: Seq<char>,
    vals: Seq<(String, NativeValue)>,
    n: int,
    j: int,
)
    requires
        crate::snapshot::assoc_wf(vals),
        0 <= j < n <= vals.len(),
        entry_of_native(vals[j].1@).is_set(),
        !snap_contains(m, hive, key, vals[j].0@),
    ensures
        snap_contains(capture_values(m, hive, key, vals, n), hive, key, vals[j].0@),
        capture_values(m, hive, key, vals, n)[hive][key][vals[j].0@] == entry_of_native(
            vals[j].1@,
        ),
    decreases n,
{
    let m1 = capture_values(m, hive, key, vals, n - 1);
    if j == n - 1 {
        lemma_capture_values_absent(m, hive, key, vals, n - 1, vals[j].0@);
        lemma_snap_insert(m1, hive, key, vals[n - 1].0@, entry_of_native(vals[n - 1].1@));
    } else {
        lemma_capture_values_exact(m, hive, key, vals, n - 1, j);
        if entry_of_native(vals[n - 1].1@).is_set() {
            lemma_snap_insert(m1, hive, key, vals[n - 1].0@, entry_of_native(vals[n - 1].1@));
            assert(vals[n - 1].0@ != vals[j].0@);
        }
    }
}

/// No character of the name is the canonical separator.
pub open spec fn sep_free(s: Seq<char>) -> bool {
    forall|i: int| 0 <= i < s.len() ==> s[i] != sep_char()
}

/// A subtree as a real store enumerates it: at each key the value names
/// are distinct, and the child key names are distinct and free of the
/// separator.
pub open spec fn node_wf(node: RegNode) -> bool
    decreases node,
{
    match node {
        RegNode::Inaccessible => true,
        RegNode::Key(d) => {
            &&& crate::snapshot::assoc_wf(d.values@)
            &&& crate::snapshot::assoc_wf(d.children@)
            &&& forall|i: int|
                0 <= i < d.children@.len() ==> sep_free((#[trigger] d.children@[i]).0@)
            &&& forall|i: int| 0 <= i < d.children@.len() ==> node_wf((#[trigger] d.children@[i]).1)
        },
    }
}

/// `k` reaches below `base`: it starts with `base` followed by the
/// separator.
pub open spec fn path_extends(k: Seq<char>, base: Seq<char>) -> bool {
    k.len() > base.len() && k.subrange(0, base.len() as int) == base && k[base.len() as int]
        == sep_char()
}

pub proof fn lemma_joined_extends(base: Seq<char>, c: Seq<char>)
    ensures
        path_extends(joined(base, c), base),
{
    assert(joined(base, c).subrange(0, base.len() as int) =~= base);
}

pub proof fn lemma_extends_trans(k: Seq<char>, mid: Seq<char>, base: Seq<char>)
    requires
        path_extends(k, mid),
        mid == base || path_extends(mid, base),
    ensures
        path_extends(k, base),
{
    if mid != base {
        assert(k.subrange(0, base.len() as int) =~= mid.subrange(0, base.len() as int));
        assert(k[base.len() as int] == k.subrange(0, mid.len() as int)[base.len() as int]);
    }
}

pub proof fn lemma_joined_path_extends(base: Seq<char>, rel: Seq<Seq<char>>)
    requires
        rel.len() > 0,
    ensures
        path_extends(joined_path(base, rel), base),
    decreases rel.len(),
{
    lemma_joined_extends(base, rel[0]);
    if rel.len() == 1 {
        assert(rel.drop_first().len() == 0);
        assert(joined_path(joined(base, rel[0]), rel.drop_first()) == joined(base, rel[0]));
    }
    if rel.len() > 1 {
        lemma_joined_path_extends(joined(base, rel[0]), rel.drop_first());
        lemma_extends_trans(
            joined_path(joined(base, rel[0]), rel.drop_first()),
            joined(base, rel[0]),
            base,
        );
    }
}

/// Two different separator-free child names of one key root disjoint
/// families of key paths: nothing below one is below the other.
pub proof fn lemma_sibling_paths_disjoint(
    key: Seq<char>,
    c1: Seq<char>,
    c2: Seq<char>,
    k1: Seq<char>,
    k2: Seq<char>,
)
    requires
        c1 != c2,
        sep_free(c1),
        sep_free(c2),
        k1 == joined(key, c1) || path_extends(k1, joined(key, c1)),
        k2 == joined(key, c2) || path_extends(k2, joined(key, c2)),
    ensures
        k1 != k2,
{
    let b1 = joined(key, c1);
    let b2 = joined(key, c2);
    if k1 == k2 {
        assert(forall|t: int| 0 <= t < b1.len() ==> b1[t] == k1[t]) by {
            if path_extends(k1, b1) {
                assert(forall|t: int|
                    0 <= t < b1.len() ==> b1[t] == #[trigger] k1.subrange(0, b1.len() as int)[t]);
            }
        }
        assert(forall|t: int| 0 <= t < b2.len() ==> b2[t] == k2[t]) by {
            if path_extends(k2, b2) {
                assert(forall|t: int|
                    0 <= t < b2.len() ==> b2[t] == #[trigger] k2.subrange(0, b2.len() as int)[t]);
            }
        }
        if c1.len() == c2.len() {
            assert forall|t: int| 0 <= t < c1.len() implies c1[t] == c2[t] by {
                assert(b1[key.len() + 1 + t] == c1[t]);
                assert(b2[key.len() + 1 + t] == c2[t]);
                assert(b1[key.len() + 1 + t] == k1[key.len() + 1 + t]);
                assert(b2[key.len() + 1 + t] == k2[key.len() + 1 + t]);
            }
            assert(c1 =~= c2);
        } else if c1.len() < c2.len() {
            assert(b2[b1.len() as int] == c2[c1.len() as int]);
            assert(b2[b1.len() as int] != sep_char());
            if k1 == b1 {
                assert(k2.len() >= b2.len() > b1.len() == k1.len());
            } else {
                assert(k1[b1.len() as int] == sep_char());
            }
        } else {
            assert(b1[b2.len() as int] == c1[c2.len() as int]);
            assert(b1[b2.len() as int] != sep_char());
            if k2 == b2 {
                assert(k1.len() >= b1.len() > b2.len() == k2.len());
            } else {
                assert(k2[b2.len() as int] == sep_char());
            }
        }
    }
}

/// Any snapshot entry that capturing a subtree adds stands under the
/// captured hive, at the captured key path or below it.
pub proof fn lemma_capture_node_writes(
    m: Map<Seq<char>, Map<Seq<char>, Map<Seq<char>, crate::value::EntryV>>>,
    hive: Seq<char>,
    key: Seq<char>,
    node: RegNode,
    h: Seq<char>,
    k: Seq<char>,
    nm: Seq<char>,
)
    requires
        snap_contains(capture_node(m, hive, key, node), h, k, nm),
        !snap_contains(m, h, k, nm),
    ensures
        h == hive,
        k == key || path_extends(k, key),
    decreases node, 1int,
{
    match node {
        RegNode::Inaccessible => {},
        RegNode::Key(d) => {
            let m1 = capture_values(m, hive, key, d.values@, d.values@.len() as int);
            if snap_contains(m1, h, k, nm) {
                if h != hive || k != key {
                    lemma_capture_values_untouched(
                        m,
                        hive,
                        key,
                        d.values@,
                        d.values@.len() as int,
                        h,
                        k,
                        nm,
                    );
                }
            } else {
                lemma_capture_children_writes(
                    m1,
                    hive,
                    key,
                    d.children@,
                    d.children@.len() as int,
                    h,
                    k,
                    nm,
                );
                let c = choose|c: int|
                    0 <= c < d.children@.len() && ((k == joined(
                        key,
                        (#[trigger] d.children@[c]).0@,
                    )) || path_extends(k, joined(key, d.children@[c].0@)));
                lemma_joined_extends(key, d.children@[c].0@);
                if k != joined(key, d.children@[c].0@) {
                    lemma_extends_trans(k, joined(key, d.children@[c].0@), key);
                }
            }
        },
    }
}

/// Any snapshot entry that capturing child subtrees adds stands under the
/// captured hive, at or below the path of one of those children.
pub proof fn lemma_capture_children_writes(
    m: Map<Seq<char>, Map<Seq<char>, Map<Seq<char>, crate::value::EntryV>>>,
    hive: Seq<char>,
    key: Seq<char>,
    children: Seq<(String, RegNode)>,
    n: int,
    h: Seq<char>,
    k: Seq<char>,
    nm: Seq<char>,
)
    requires
        snap_contains(capture_children(m, hive, key, children, n), h, k, nm),
        !snap_contains(m, h, k, nm),
    ensures
        h == hive,
        exists|c: int|
            0 <= c < n && ((k == joined(key, (#[trigger] children[c]).0@)) || path_extends(
                k,
                joined(key, children[c].0@),
            )),
    decreases children, 0int, n,
{
    if 0 < n <= children.len() {
        let m1 = capture_children(m, hive, key, children, n - 1);
        if snap_contains(m1, h, k, nm) {
            lemma_capture_children_writes(m, hive, key, children, n - 1, h, k, nm);
            let c = choose|c: int|
                0 <= c < n - 1 && ((k == joined(key, (#[trigger] children[c]).0@))
                    || path_extends(k, joined(key, children[c].0@)));
            assert(0 <= c < n && ((k == joined(key, (#[trigger] children[c]).0@))
                || path_extends(k, joined(key, children[c].0@))));
        } else {
            lemma_capture_node_writes(
                m1,
                hive,
                joined(key, children[n - 1].0@),
                children[n - 1].1,
                h,
                k,
                nm,
            );
            assert(0 <= n - 1 < n && ((k == joined(key, (#[trigger] children[n - 1]).0@))
                || path_extends(k, joined(key, children[n - 1].0@))));
        }
    }
}

/// Capturing child subtrees whose names all differ from `cname` never
/// creates an entry at or below the path of the child named `cname`.
pub proof fn lemma_capture_children_preserve_absent(
    m: Map<Seq<char>, Map<Seq<char>, Map<Seq<char>, crate::value::EntryV>>>,
    hive: Seq<char>,
    key: Seq<char>,
    children: Seq<(String, RegNode)>,
    n: int,
    cname: Seq<char>,
    k: Seq<char>,
    nm: Seq<char>,
)
    requires
        !snap_contains(m, hive, k, nm),
        sep_free(cname),
        forall|c: int|
            0 <= c < n ==> (#[trigger] children[c]).0@ != cname && sep_free(children[c].0@),
        k == joined(key, cname) || path_extends(k, joined(key, cname)),
    ensures
        !snap_contains(capture_children(m, hive, key, children, n), hive, k, nm),
    decreases n,
{
    if 0 < n <= children.len() {
        lemma_capture_children_preserve_absent(m, hive, key, children, n - 1, cname, k, nm);
        let m1 = capture_children(m, hive, key, children, n - 1);
        if snap_contains(capture_children(m, hive, key, children, n), hive, k, nm) {
            lemma_capture_node_writes(
                m1,
                hive,
                joined(key, children[n - 1].0@),
                children[n - 1].1,
                hive,
                k,
                nm,
            );
            lemma_sibling_paths_disjoint(key, children[n - 1].0@, cname, k, k);
        }
    }
}

/// Whether the subtree holds, under the chain of child-key names `rel`, a
/// readable key with a value named `name` that decodes to a set entry.
pub open spec fn node_reaches(node: RegNode, rel: Seq<Seq<char>>, name: Seq<char>) -> bool
    decreases node,
{
    match node {
        RegNode::Inaccessible => false,
        RegNode::Key(d) => {
            if rel.len() == 0 {
                exists|i: int|
                    0 <= i < d.values@.len() && (#[trigger] d.values@[i]).0@ == name
                        && entry_of_native(d.values@[i].1@).is_set()
            } else {
                exists|i: int|
                    0 <= i < d.children@.len() && (#[trigger] d.children@[i]).0@ == rel[0]
                        && node_reaches(d.children@[i].1, rel.drop_first(), name)
            }
        },
    }
}

/// The full key path of the key reached from `key` along the chain of
/// child-key names `rel`.
pub open spec fn joined_path(key: Seq<char>, rel: Seq<Seq<char>>) -> Seq<char>
    decreases rel.len(),
{
    if rel.len() == 0 {
        key
    } else {
        joined_path(joined(key, rel[0]), rel.drop_first())
    }
}

/// Capturing values records every value that decodes to a set entry.
pub proof fn lemma_capture_values_records(
    m: Map<Seq<char>, Map<Seq<char>, Map<Seq<char>, crate::value::EntryV>>>,
    hive: Seq<char>,
    key: Seq<char>,
    vals: Seq<(String, NativeValue)>,
    n: int,
    j: int,
)
    requires
        0 <= j < n,
        entry_of_native(vals[j].1@).is_set(),
    ensures
        snap_contains(capture_values(m, hive, key, vals, n), hive, key, vals[j].0@),
    decreases n,
{
    if j == n - 1 {
        lemma_snap_insert(
            capture_values(m, hive, key, vals, n - 1),
            hive,
            key,
            vals[n - 1].0@,
            entry_of_native(vals[n - 1].1@),
        );
    } else {
        lemma_capture_values_records(m, hive, key, vals, n - 1, j);
        lemma_capture_values_mono(
            capture_values(m, hive, key, vals, n - 1),
            hive,
            key,
            vals,
            n,
            hive,
            key,
            vals[j].0@,
        );
        let m1 = capture_values(m, hive, key, vals, n - 1);
        if entry_of_native(vals[n - 1].1@).is_set() {
            lemma_snap_insert(m1, hive, key, vals[n - 1].0@, entry_of_native(vals[n - 1].1@));
        }
    }
}

/// An entry present after capturing the first `i` child subtrees is still
/// present after capturing the first `n`.
pub proof fn lemma_capture_children_from(
    m: Map<Seq<char>, Map<Seq<char>, Map<Seq<char>, crate::value::EntryV>>>,
    hive: Seq<char>,
    key: Seq<char>,
    children: Seq<(String, RegNode)>,
    i: int,
    n: int,
    h: Seq<char>,
    k: Seq<char>,
    nm: Seq<char>,
)
    requires
        0 <= i < n <= children.len(),
        snap_contains(
            capture_node(
                capture_children(m, hive, key, children, i),
                hive,
                joined(key, children[i].0@),
                children[i].1,
            ),
            h,
            k,
            nm,
        ),
    ensures
        snap_contains(capture_children(m, hive, key, children, n), h, k, nm),
        capture_children(m, hive, key, children, n)[h][k][nm] == capture_node(
            capture_children(m, hive, key, children, i),
            hive,
            joined(key, children[i].0@),
            children[i].1,
        )[h][k][nm],
    decreases n,
{
    if n == i + 1 {
    } else {
        lemma_capture_children_from(m, hive, key, children, i, n - 1, h, k, nm);
        lemma_capture_node_mono(
            capture_children(m, hive, key, children, n - 1),
            hive,
            joined(key, children[n - 1].0@),
            children[n - 1].1,
            h,
            k,
            nm,
        );
    }
}

/// Partial-failure continuation: every readable key's set values are in
/// the snapshot after the capture, whether or not other branches of the
/// subtree failed — a denied sibling never costs the data of a readable
/// one.
pub proof fn law_partial_failure_continuation(
    m: Map<Seq<char>, Map<Seq<char>, Map<Seq<char>, crate::value::EntryV>>>,
    hive: Seq<char>,
    key: Seq<char>,
    node: RegNode,
    rel: Seq<Seq<char>>,
    name: Seq<char>,
)
    requires
        node_reaches(node, rel, name),
    ensures
        snap_contains(capture_node(m, hive, key, node), hive, joined_path(key, rel), name),
    decreases node,
{
    match node {
        RegNode::Inaccessible => {},
        RegNode::Key(d) => {
            let m1 = capture_values(m, hive, key, d.values@, d.values@.len() as int);
            if rel.len() == 0 {
                let i = choose|i: int|
                    0 <= i < d.values@.len() && (#[trigger] d.values@[i]).0@ == name
                        && entry_of_native(d.values@[i].1@).is_set();
                lemma_capture_values_records(
                    m,
                    hive,
                    key,
                    d.values@,
                    d.values@.len() as int,
                    i,
                );
                lemma_capture_children_mono(
                    m1,
                    hive,
                    key,
                    d.children@,
                    d.children@.len() as int,
                    hive,
                    key,
                    name,
                );
            } else {
                let i = choose|i: int|
                    0 <= i < d.children@.len() && (#[trigger] d.children@[i]).0@ == rel[0]
                        && node_reaches(d.children@[i].1, rel.drop_first(), name);
                law_partial_failure_continuation(
                    capture_children(m1, hive, key, d.children@, i),
                    hive,
                    joined(key, rel[0]),
                    d.children@[i].1,
                    rel.drop_first(),
                    name,
                );
                if i < d.children@.len() as int - 1 {
                    lemma_capture_children_from(
                        m1,
                        hive,
                        key,
                        d.children@,
                        i,
                        d.children@.len() as int,
                        hive,
                        joined_path(joined(key, rel[0]), rel.drop_first()),
                        name,
                    );
                }
            }
        },
    }
}

/// The typed value the subtree holds under the chain of child-key names
/// `rel` at value name `nm` (meaningful where `node_reaches` holds).
pub open spec fn reached_entry(
    node: RegNode,
    rel: Seq<Seq<char>>,
    nm: Seq<char>,
) -> crate::value::EntryV
    decreases node,
{
    match node {
        RegNode::Inaccessible => crate::value::EntryV::Unset,
        RegNode::Key(d) => {
            if rel.len() == 0 {
                entry_of_native(
                    d.values@[choose|i: int|
                        0 <= i < d.values@.len() && (#[trigger] d.values@[i]).0@ == nm
                            && entry_of_native(d.values@[i].1@).is_set()].1@,
                )
            } else {
                let i = choose|i: int|
                    0 <= i < d.children@.len() && (#[trigger] d.children@[i]).0@ == rel[0]
                        && node_reaches(d.children@[i].1, rel.drop_first(), nm);
                if 0 <= i < d.children@.len() {
                    reached_entry(d.children@[i].1, rel.drop_first(), nm)
                } else {
                    crate::value::EntryV::Unset
                }
            }
        },
    }
}

/// Exact capture: on a well-formed subtree, every reachable set value
/// stands in the captured snapshot at its joined key path with exactly
/// its decoded typed value — no other branch of the walk, readable or
/// denied, can disturb it.  Together with the replay round-trip laws this
/// closes the loop: what capture reads is what replay writes back.
pub proof fn law_capture_exact(
    m: Map<Seq<char>, Map<Seq<char>, Map<Seq<char>, crate::value::EntryV>>>,
    hive: Seq<char>,
    key: Seq<char>,
    node: RegNode,
    rel: Seq<Seq<char>>,
    nm: Seq<char>,
)
    requires
        node_wf(node),
        node_reaches(node, rel, nm),
        !snap_contains(m, hive, joined_path(key, rel), nm),
    ensures
        snap_contains(capture_node(m, hive, key, node), hive, joined_path(key, rel), nm),
        capture_node(m, hive, key, node)[hive][joined_path(key, rel)][nm] == reached_entry(
            node,
            rel,
            nm,
        ),
    decreases node,
{
    match node {
        RegNode::Inaccessible => {},
        RegNode::Key(d) => {
            let m1 = capture_values(m, hive, key, d.values@, d.values@.len() as int);
            if rel.len() == 0 {
                let i = choose|i: int|
                    0 <= i < d.values@.len() && (#[trigger] d.values@[i]).0@ == nm
                        && entry_of_native(d.values@[i].1@).is_set();
                lemma_capture_values_exact(m, hive, key, d.values@, d.values@.len() as int, i);
                lemma_capture_children_untouched(
                    m1,
                    hive,
                    key,
                    d.children@,
                    d.children@.len() as int,
                    hive,
                    key,
                    nm,
                );
            } else {
                let ci = choose|i: int|
                    0 <= i < d.children@.len() && (#[trigger] d.children@[i]).0@ == rel[0]
                        && node_reaches(d.children@[i].1, rel.drop_first(), nm);
                let target = joined_path(key, rel);
                let base = joined(key, rel[0]);
                assert(target == joined_path(base, rel.drop_first()));
                lemma_joined_extends(key, rel[0]);
                if rel.drop_first().len() > 0 {
                    lemma_joined_path_extends(base, rel.drop_first());
                    lemma_extends_trans(target, base, key);
                }
                // The key's own values write only at `key`, which the
                // target lies strictly below.
                assert(target != key);
                lemma_capture_values_untouched(
                    m,
                    hive,
                    key,
                    d.values@,
                    d.values@.len() as int,
                    hive,
                    target,
                    nm,
                );
                // Earlier siblings carry other names, so they never touch
                // the target address.
                lemma_capture_children_preserve_absent(
                    m1,
                    hive,
                    key,
                    d.children@,
                    ci,
                    rel[0],
                    target,
                    nm,
                );
                let mi = capture_children(m1, hive, key, d.children@, ci);
                law_capture_exact(mi, hive, base, d.children@[ci].1, rel.drop_first(), nm);
                // Later siblings preserve the entry and its value.
                if ci < d.children@.len() as int - 1 {
                    lemma_capture_children_from(
                        m1,
                        hive,
                        key,
                        d.children@,
                        ci,
                        d.children@.len() as int,
                        hive,
                        target,
                        nm,
                    );
                }
            }
        },
    }
}

/// Capture never removes an entry from the snapshot and never alters the
/// typed value of an entry it already holds.
pub proof fn law_capture_preserves(
    m: Map<Seq<char>, Map<Seq<char>, Map<Seq<char>, crate::value::EntryV>>>,
    hive: Seq<char>,
    key: Seq<char>,
    node: RegNode,
    h: Seq<char>,
    k: Seq<char>,
    n: Seq<char>,
)
    requires
        snap_contains(m, h, k, n),
    ensures
        snap_contains(capture_node(m, hive, key, node), h, k, n),
        capture_node(m, hive, key, node)[h][k][n] == m[h][k][n],
{
    lemma_capture_node_mono(m, hive, key, node, h, k, n);
}

} // verus!
