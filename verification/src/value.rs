//! The typed value model: the tagged union stored in a snapshot, the model
//! of a native store value, and the conversions between them.

use vstd::prelude::*;

verus! {

/// A native value as the store hands it to the capture walk: the declared
/// type tag together with the outcome of decoding its raw bytes into the
/// tag's payload type.  `None` inside a recognized tag means the raw bytes
/// failed to decode.  `Unsupported` stands for every other native type tag
/// (binary blobs, resource lists, ...), which the model deliberately drops.
#[derive(Debug, Clone, PartialEq, Eq)]
pub enum NativeValue {
    Sz(Option<String>),
    ExpandSz(Option<String>),
    MultiSz(Option<String>),
    Dword(Option<u32>),
    Qword(Option<u64>),
    Unsupported,
}

/// Mathematical model of a `NativeValue`.
pub enum NativeValueV {
    Sz(Option<Seq<char>>),
    ExpandSz(Option<Seq<char>>),
    MultiSz(Option<Seq<char>>),
    Dword(Option<u32>),
    Qword(Option<u64>),
    Unsupported,
}

impl View for NativeValue {
    type V = NativeValueV;

    open spec fn view(&self) -> NativeValueV {
        match self {
            NativeValue::Sz(d) => NativeValueV::Sz(opt_str_view(d)),
            NativeValue::ExpandSz(d) => NativeValueV::ExpandSz(opt_str_view(d)),
            NativeValue::MultiSz(d) => NativeValueV::MultiSz(opt_str_view(d)),
            NativeValue::Dword(d) => NativeValueV::Dword(*d),
            NativeValue::Qword(d) => NativeValueV::Qword(*d),
            NativeValue::Unsupported => NativeValueV::Unsupported,
        }
    }
}

pub open spec fn opt_str_view(d: &Option<String>) -> Option<Seq<char>> {
    match d {
        Some(s) => Some(s@),
        None => None,
    }
}

/// A native value as the replay walk writes it back: a type tag with the
/// payload it carries.  Unlike `NativeValue` there is no decode outcome and
/// no unsupported tag: only values that round-trip are ever written.
#[derive(Debug, Clone, PartialEq, Eq)]
pub enum RawValue {
    Sz(String),
    ExpandSz(String),
    MultiSz(String),
    Dword(u32),
    Qword(u64),
}

/// Mathematical model of a `RawValue`.
pub enum RawValueV {
    Sz(Seq<char>),
    ExpandSz(Seq<char>),
    MultiSz(Seq<char>),
    Dword(u32),
    Qword(u64),
}

impl View for RawValue {
    type V = RawValueV;

    open spec fn view(&self) -> RawValueV {
        match self {
            RawValue::Sz(s) => RawValueV::Sz(s@),
            RawValue::ExpandSz(s) => RawValueV::ExpandSz(s@),
            RawValue::MultiSz(s) => RawValueV::MultiSz(s@),
            RawValue::Dword(d) => RawValueV::Dword(*d),
            RawValue::Qword(q) => RawValueV::Qword(*q),
        }
    }
}

/// The typed value held by a snapshot entry: a tagged union over short
/// text, expandable text, multi-segment text, a 32-bit unsigned integer and
/// a 64-bit unsigned integer.  `Unset` carries no payload; an unset entry
/// is never persisted and never replayed.
#[derive(Debug, Clone, PartialEq, Eq)]
pub enum Entry {
    Unset,
    Sz(String),
    ExpandSz(String),
    MultiSz(String),
    Dword(u32),
    Qword(u64),
}

/// Mathematical model of an `Entry`.
pub enum EntryV {
    Unset,
    Sz(Seq<char>),
    ExpandSz(Seq<char>),
    MultiSz(Seq<char>),
    Dword(u32),
    Qword(u64),
}

impl View for Entry {
    type V = EntryV;

    open spec fn view(&self) -> EntryV {
        match self {
            Entry::Unset => EntryV::Unset,
            Entry::Sz(s) => EntryV::Sz(s@),
            Entry::ExpandSz(s) => EntryV::ExpandSz(s@),
            Entry::MultiSz(s) => EntryV::MultiSz(s@),
            Entry::Dword(d) => EntryV::Dword(*d),
            Entry::Qword(q) => EntryV::Qword(*q),
        }
    }
}

impl EntryV {
    /// An entry is set when exactly one payload variant is populated.
    pub open spec fn is_set(self) -> bool {
        !(self is Unset)
    }
}

impl Default for Entry {
    /// The default entry carries no payload.
    fn default() -> (r: Self)
        ensures
            r@ == EntryV::Unset,
    {
        Entry::Unset
    }
}

/// Decoding a recognized text tag falls back to the empty string when the
/// raw bytes failed to decode: lossy-but-present beats missing.
pub open spec fn decoded_text(d: Option<Seq<char>>) -> Seq<char> {
    match d {
        Some(s) => s,
        None => Seq::<char>::empty(),
    }
}

/// What a native value converts to: the entry variant matching the native
/// type tag, with a failed decode falling back to the empty string or zero,
/// and every unrecognized tag converting to `Unset`.
pub open spec fn entry_of_native(v: NativeValueV) -> EntryV {
    match v {
        NativeValueV::Sz(d) => EntryV::Sz(decoded_text(d)),
        NativeValueV::ExpandSz(d) => EntryV::ExpandSz(decoded_text(d)),
        NativeValueV::MultiSz(d) => EntryV::MultiSz(decoded_text(d)),
        NativeValueV::Dword(d) => EntryV::Dword(match d {
            Some(n) => n,
            None => 0,
        }),
        NativeValueV::Qword(d) => EntryV::Qword(match d {
            Some(n) => n,
            None => 0,
        }),
        NativeValueV::Unsupported => EntryV::Unset,
    }
}

/// What an entry converts back to for writing: `None` exactly for an unset
/// entry, which the replay walk must skip and count as a failure.
pub open spec fn raw_of_entry(e: EntryV) -> Option<RawValueV> {
    match e {
        EntryV::Unset => None,
        EntryV::Sz(s) => Some(RawValueV::Sz(s)),
        EntryV::ExpandSz(s) => Some(RawValueV::ExpandSz(s)),
        EntryV::MultiSz(s) => Some(RawValueV::MultiSz(s)),
        EntryV::Dword(d) => Some(RawValueV::Dword(d)),
        EntryV::Qword(q) => Some(RawValueV::Qword(q)),
    }
}

/// How a value written to the store reads back on the next enumeration:
/// the same tag, and raw bytes that decode to the payload just written.
pub open spec fn native_of_raw(r: RawValueV) -> NativeValueV {
    match r {
        RawValueV::Sz(s) => NativeValueV::Sz(Some(s)),
        RawValueV::ExpandSz(s) => NativeValueV::ExpandSz(Some(s)),
        RawValueV::MultiSz(s) => NativeValueV::MultiSz(Some(s)),
        RawValueV::Dword(d) => NativeValueV::Dword(Some(d)),
        RawValueV::Qword(q) => NativeValueV::Qword(Some(q)),
    }
}

pub open spec fn opt_raw_view(r: Option<RawValue>) -> Option<RawValueV> {
    match r {
        Some(v) => Some(v@),
        None => None,
    }
}

impl Entry {
    /// Whether any payload variant is populated.
    pub fn is_set(&self) -> (r: bool)
        ensures
            r == self@.is_set(),
    {
        !matches!(self, Entry::Unset)
    }

    /// Native-to-model conversion of the capture walk.
    pub fn from_native(v: &NativeValue) -> (e: Entry)
        ensures
            e@ == entry_of_native(v@),
    {
        match v {
            NativeValue::Sz(d) => Entry::Sz(match d {
                Some(s) => s.clone(),
                None => String::new(),
            }),
            NativeValue::ExpandSz(d) => Entry::ExpandSz(match d {
                Some(s) => s.clone(),
                None => String::new(),
            }),
            NativeValue::MultiSz(d) => Entry::MultiSz(match d {
                Some(s) => s.clone(),
                None => String::new(),
            }),
            NativeValue::Dword(d) => Entry::Dword(match d {
                Some(n) => *n,
                None => 0,
            }),
            NativeValue::Qword(d) => Entry::Qword(match d {
                Some(n) => *n,
                None => 0,
            }),
            NativeValue::Unsupported => Entry::Unset,
        }
    }

    /// Model-to-native conversion of the replay walk: `None` exactly when
    /// the entry is unset.
    pub fn to_raw(&self) -> (r: Option<RawValue>)
        ensures
            opt_raw_view(r) == raw_of_entry(self@),
            r is Some <==> self@.is_set(),
    {
        match self {
            Entry::Unset => None,
            Entry::Sz(s) => Some(RawValue::Sz(s.clone())),
            Entry::ExpandSz(s) => Some(RawValue::ExpandSz(s.clone())),
            Entry::MultiSz(s) => Some(RawValue::MultiSz(s.clone())),
            Entry::Dword(d) => Some(RawValue::Dword(*d)),
            Entry::Qword(q) => Some(RawValue::Qword(*q)),
        }
    }
}

impl RawValue {
    /// How this value reads back on a later enumeration of the store.
    pub fn into_native(self) -> (v: NativeValue)
        ensures
            v@ == native_of_raw(self@),
    {
        match self {
            RawValue::Sz(s) => NativeValue::Sz(Some(s)),
            RawValue::ExpandSz(s) => NativeValue::ExpandSz(Some(s)),
            RawValue::MultiSz(s) => NativeValue::MultiSz(Some(s)),
            RawValue::Dword(d) => NativeValue::Dword(Some(d)),
            RawValue::Qword(q) => NativeValue::Qword(Some(q)),
        }
    }
}

/// Type fidelity: a native value converts to the entry variant of its own
/// type tag and to no other, and exactly the unrecognized tag converts to
/// an unset entry.
pub proof fn law_type_fidelity(v: NativeValueV)
    ensures
        v is Sz <==> entry_of_native(v) is Sz,
        v is ExpandSz <==> entry_of_native(v) is ExpandSz,
        v is MultiSz <==> entry_of_native(v) is MultiSz,
        v is Dword <==> entry_of_native(v) is Dword,
        v is Qword <==> entry_of_native(v) is Qword,
        v is Unsupported <==> !entry_of_native(v).is_set(),
{
}

/// Value-level round trip: writing a set entry's native form back to the
/// store and decoding what reads back yields the entry unchanged.
pub proof fn law_value_round_trip(e: EntryV)
    requires
        e.is_set(),
    ensures
        raw_of_entry(e) is Some,
        entry_of_native(native_of_raw(raw_of_entry(e)->0)) == e,
{
}

} // verus!
