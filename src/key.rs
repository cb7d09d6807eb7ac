use vstd::prelude::*;

verus! {

/// The integer types that can serve as dictionary keys.
#[derive(Debug, Clone, Copy, PartialEq, Eq, Structural)]
pub enum KeyType {
    Int8,
    Int16,
    Int32,
    Int64,
    UInt8,
    UInt16,
    UInt32,
    UInt64,
}

/// An integer type that can serve as a dictionary key.
///
/// A key stands for a slot of the values pool; `slot_capacity` is the number
/// of slot indices (starting at 0) that the type can represent.
pub trait DictionaryKey: Sized + Copy {
    /// The integer value of the key.
    spec fn index(&self) -> int;

    /// How many slot indices, counting from 0, the type can represent.
    spec fn slot_capacity() -> nat;

    /// Exact conversion of a slot index into the key type.
    fn from_index(i: usize) -> (r: Option<Self>)
        ensures
            r is Some <==> (i as int) < Self::slot_capacity(),
            r matches Some(k) ==> k.index() == i as int,
    ;

    /// The key as a slot index; a key that no `usize` can hold (a negative
    /// one) maps past every slot.
    fn to_index(&self) -> (r: usize)
        ensures
            0 <= self.index() <= usize::MAX ==> r as int == self.index(),
            !(0 <= self.index() <= usize::MAX) ==> r == usize::MAX,
    ;

    /// The key of value zero.
    fn zero() -> (r: Self)
        ensures
            r.index() == 0,
    ;

    /// Which integer type this is.
    spec fn kind() -> KeyType;

    /// Which integer type this is.
    fn key_type() -> (r: KeyType)
        ensures
            r == Self::kind(),
    ;
}

impl DictionaryKey for u8 {
    open spec fn index(&self) -> int {
        *self as int
    }

    open spec fn slot_capacity() -> nat {
        0x100
    }

    fn from_index(i: usize) -> (r: Option<u8>) {
        if i < 0x100 {
            Some(i as u8)
        } else {
            None
        }
    }

    fn to_index(&self) -> (r: usize) {
        *self as usize
    }

    fn zero() -> (r: u8) {
        0
    }

    open spec fn kind() -> KeyType {
        KeyType::UInt8
    }

    fn key_type() -> (r: KeyType) {
        KeyType::UInt8
    }
}

impl DictionaryKey for u16 {
    open spec fn index(&self) -> int {
        *self as int
    }

    open spec fn slot_capacity() -> nat {
        0x1_0000
    }

    fn from_index(i: usize) -> (r: Option<u16>) {
        if i < 0x1_0000 {
            Some(i as u16)
        } else {
            None
        }
    }

    fn to_index(&self) -> (r: usize) {
        *self as usize
    }

    fn zero() -> (r: u16) {
        0
    }

    open spec fn kind() -> KeyType {
        KeyType::UInt16
    }

    fn key_type() -> (r: KeyType) {
        KeyType::UInt16
    }
}

impl DictionaryKey for u32 {
    open spec fn index(&self) -> int {
        *self as int
    }

    open spec fn slot_capacity() -> nat {
        0x1_0000_0000
    }

    fn from_index(i: usize) -> (r: Option<u32>) {
        if (i as u64) < 0x1_0000_0000 {
            Some(i as u32)
        } else {
            None
        }
    }

    fn to_index(&self) -> (r: usize) {
        if (*self as u64) <= usize::MAX as u64 {
            *self as usize
        } else {
            usize::MAX
        }
    }

    fn zero() -> (r: u32) {
        0
    }

    open spec fn kind() -> KeyType {
        KeyType::UInt32
    }

    fn key_type() -> (r: KeyType) {
        KeyType::UInt32
    }
}

impl DictionaryKey for u64 {
    open spec fn index(&self) -> int {
        *self as int
    }

    open spec fn slot_capacity() -> nat {
        0x1_0000_0000_0000_0000
    }

    fn from_index(i: usize) -> (r: Option<u64>) {
        Some(i as u64)
    }

    fn to_index(&self) -> (r: usize) {
        if *self <= usize::MAX as u64 {
            *self as usize
        } else {
            usize::MAX
        }
    }

    fn zero() -> (r: u64) {
        0
    }

    open spec fn kind() -> KeyType {
        KeyType::UInt64
    }

    fn key_type() -> (r: KeyType) {
        KeyType::UInt64
    }
}

impl DictionaryKey for i8 {
    open spec fn index(&self) -> int {
        *self as int
    }

    open spec fn slot_capacity() -> nat {
        0x80
    }

    fn from_index(i: usize) -> (r: Option<i8>) {
        if i < 0x80 {
            Some(i as i8)
        } else {
            None
        }
    }

    fn to_index(&self) -> (r: usize) {
        if *self < 0 {
            usize::MAX
        } else {
            *self as usize
        }
    }

    fn zero() -> (r: i8) {
        0
    }

    open spec fn kind() -> KeyType {
        KeyType::Int8
    }

    fn key_type() -> (r: KeyType) {
        KeyType::Int8
    }
}

impl DictionaryKey for i16 {
    open spec fn index(&self) -> int {
        *self as int
    }

    open spec fn slot_capacity() -> nat {
        0x8000
    }

    fn from_index(i: usize) -> (r: Option<i16>) {
        if i < 0x8000 {
            Some(i as i16)
        } else {
            None
        }
    }

    fn to_index(&self) -> (r: usize) {
        if *self < 0 {
            usize::MAX
        } else {
            *self as usize
        }
    }

    fn zero() -> (r: i16) {
        0
    }

    open spec fn kind() -> KeyType {
        KeyType::Int16
    }

    fn key_type() -> (r: KeyType) {
        KeyType::Int16
    }
}

impl DictionaryKey for i32 {
    open spec fn index(&self) -> int {
        *self as int
    }

    open spec fn slot_capacity() -> nat {
        0x8000_0000
    }

    fn from_index(i: usize) -> (r: Option<i32>) {
        if (i as u64) < 0x8000_0000 {
            Some(i as i32)
        } else {
            None
        }
    }

    fn to_index(&self) -> (r: usize) {
        if *self < 0 || *self as u64 > usize::MAX as u64 {
            usize::MAX
        } else {
            *self as usize
        }
    }

    fn zero() -> (r: i32) {
        0
    }

    open spec fn kind() -> KeyType {
        KeyType::Int32
    }

    fn key_type() -> (r: KeyType) {
        KeyType::Int32
    }
}

impl DictionaryKey for i64 {
    open spec fn index(&self) -> int {
        *self as int
    }

    open spec fn slot_capacity() -> nat {
        0x8000_0000_0000_0000
    }

    fn from_index(i: usize) -> (r: Option<i64>) {
        if (i as u64) < 0x8000_0000_0000_0000 {
            Some(i as i64)
        } else {
            None
        }
    }

    fn to_index(&self) -> (r: usize) {
        if *self < 0 || *self as u64 > usize::MAX as u64 {
            usize::MAX
        } else {
            *self as usize
        }
    }

    fn zero() -> (r: i64) {
        0
    }

    open spec fn kind() -> KeyType {
        KeyType::Int64
    }

    fn key_type() -> (r: KeyType) {
        KeyType::Int64
    }
}

/// The slot index that an optional key stands for.
pub open spec fn key_index<K: DictionaryKey>(k: Option<K>) -> Option<int> {
    match k {
        Some(x) => Some(x.index()),
        None => None,
    }
}


/// The slot indices that a run of optional keys stands for.
pub open spec fn key_view<K: DictionaryKey>(s: Seq<Option<K>>) -> Seq<Option<int>> {
    s.map_values(|k: Option<K>| key_index(k))
}

/// Pushing a key pushes its index.
pub proof fn lemma_key_view_push<K: DictionaryKey>(s: Seq<Option<K>>, k: Option<K>)
    ensures
        key_view(s.push(k)) == key_view(s).push(key_index(k)),
{
    assert(key_view(s.push(k)) =~= key_view(s).push(key_index(k)));
}

} // verus!
