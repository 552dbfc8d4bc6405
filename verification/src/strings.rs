//! Character-level string helpers for the path handling of the walks:
//! equality, separator search and normalization, and path joining.

use vstd::prelude::*;
use vstd::string::StrSliceExecFns;
use vstd::string::StringExecFns;

verus! {

/// Relies on `String::push` from std: appends the given character to the
/// end of the string.
pub assume_specification[ String::push ](s: &mut String, c: char)
    ensures
        final(s)@ == old(s)@.push(c),
;

/// The canonical path separator of the store.
pub open spec fn sep_char() -> char {
    '\\'
}

/// Character-for-character string equality.
pub fn str_eq(a: &str, b: &str) -> (r: bool)
    ensures
        r == (a@ == b@),
{
    let alen = a.unicode_len();
    let blen = b.unicode_len();
    if alen != blen {
        return false;
    }
    let mut i: usize = 0;
    while i < alen
        invariant
            alen == a@.len(),
            alen == b@.len(),
            i <= alen,
            forall|j: int| 0 <= j < i ==> a@[j] == b@[j],
        decreases alen - i,
    {
        if a.get_char(i) != b.get_char(i) {
            return false;
        }
        i += 1;
    }
    proof {
        assert(a@ =~= b@);
    }
    true
}

/// A path with every alternate separator replaced by the canonical one.
pub open spec fn normalized(s: Seq<char>) -> Seq<char> {
    s.map(|i: int, c: char| if c == '/' { sep_char() } else { c })
}

/// Replaces the accepted alternate separator `/` with the canonical `\`.
pub fn normalize_separators(path: &str) -> (r: String)
    ensures
        r@ == normalized(path@),
{
    let n = path.unicode_len();
    let mut r = String::new();
    let mut i: usize = 0;
    while i < n
        invariant
            n == path@.len(),
            i <= n,
            r@.len() == i,
            forall|j: int| 0 <= j < i ==> r@[j] == normalized(path@)[j],
        decreases n - i,
    {
        let c = path.get_char(i);
        if c == '/' {
            r.push('\\');
        } else {
            r.push(c);
        }
        i += 1;
    }
    proof {
        assert(r@ =~= normalized(path@));
    }
    r
}

/// The index of the first canonical separator, if the string has one.
pub fn find_sep(s: &str) -> (r: Option<usize>)
    ensures
        match r {
            Some(i) => i < s@.len() && s@[i as int] == sep_char() && (forall|j: int|
                0 <= j < i ==> s@[j] != sep_char()),
            None => forall|j: int| 0 <= j < s@.len() ==> s@[j] != sep_char(),
        },
{
    let n = s.unicode_len();
    let mut i: usize = 0;
    while i < n
        invariant
            n == s@.len(),
            i <= n,
            forall|j: int| 0 <= j < i ==> s@[j] != sep_char(),
        decreases n - i,
    {
        if s.get_char(i) == '\\' {
            return Some(i);
        }
        i += 1;
    }
    None
}

/// Whether a path contains the canonical separator at all.
pub open spec fn has_sep(s: Seq<char>) -> bool {
    exists|i: int| 0 <= i < s.len() && s[i] == sep_char()
}

/// The index of the first canonical separator of a path that has one.
pub open spec fn first_sep_index(s: Seq<char>) -> int {
    choose|i: int|
        0 <= i < s.len() && s[i] == sep_char() && (forall|j: int|
            0 <= j < i ==> s[j] != sep_char())
}

/// The first separator index is the unique position that carries the
/// separator with none before it.
pub proof fn lemma_first_sep(s: Seq<char>, i: int)
    requires
        0 <= i < s.len(),
        s[i] == sep_char(),
        forall|j: int| 0 <= j < i ==> s[j] != sep_char(),
    ensures
        has_sep(s),
        first_sep_index(s) == i,
{
    assert(has_sep(s));
    let k = first_sep_index(s);
    if k < i {
        assert(s[k] != sep_char());
    } else if i < k {
        assert(s[i] != sep_char());
    }
}

/// How the top-level capture entry point reads a full path: separators are
/// normalized, then the path splits at the first separator into the hive
/// name and the remaining key path.  A path without any separator is
/// malformed and parses to `None`.
pub open spec fn parsed_path(path: Seq<char>) -> Option<(Seq<char>, Seq<char>)> {
    let np = normalized(path);
    if has_sep(np) {
        Some(
            (
                np.subrange(0, first_sep_index(np)),
                np.subrange(first_sep_index(np) + 1, np.len() as int),
            ),
        )
    } else {
        None
    }
}

/// Separator normalization: two spellings of a path with the same
/// normalized form parse to the same hive name and key path, so the
/// captures they start produce identical snapshots.
pub proof fn law_separator_normalization(p1: Seq<char>, p2: Seq<char>)
    requires
        normalized(p1) == normalized(p2),
    ensures
        parsed_path(p1) == parsed_path(p2),
{
}

/// A parent key path extended by the canonical separator and a child name.
pub open spec fn joined(key: Seq<char>, child: Seq<char>) -> Seq<char> {
    key + seq![sep_char()] + child
}

/// Builds the key path of a child key from its parent's path and its name.
pub fn join_key(key: &str, child: &str) -> (r: String)
    ensures
        r@ == joined(key@, child@),
{
    let mut r = key.to_owned();
    r.push('\\');
    r.append(child);
    proof {
        assert(r@ =~= joined(key@, child@));
    }
    r
}

} // verus!
