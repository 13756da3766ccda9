//! Keys and key/value pairs.
use vstd::prelude::*;
use crate::hashing::{calculate_bytes_hash, calculate_hash, std_hash_bytes, std_hash_u64};

verus! {

/// The value stored under a key: an opaque byte string.
pub type ValueT = Vec<u8>;

/// What a key stands for: an inline fixed-width value or a byte string.
pub enum KeyView {
    Inline(u64),
    Pointed(Seq<u8>),
}

/// The hash of a key, as the index consumes it.
pub open spec fn hash_of_key(k: KeyView) -> u64 {
    match k {
        KeyView::Inline(x) => std_hash_u64(x),
        KeyView::Pointed(s) => std_hash_bytes(s),
    }
}

/// A key: either an inline value compared by equality, or (when
/// `is_pointer` is set) a length-prefixed byte string compared bytewise.
#[derive(Debug, Clone)]
pub struct Key {
    pub key: u64,
    pub is_pointer: bool,
    pub length: u32,
    pub pointed_key: Vec<u8>,
}

impl View for Key {
    type V = KeyView;

    open spec fn view(&self) -> KeyView {
        if self.is_pointer {
            KeyView::Pointed(self.pointed_key@)
        } else {
            KeyView::Inline(self.key)
        }
    }
}

/// Equality of two byte strings given with their lengths.
pub fn var_compare(key_1: &Vec<u8>, len1: u32, key_2: &Vec<u8>, len2: u32) -> (r: bool)
    ensures
        r == (len1 == len2 && key_1@ == key_2@),
{
    if len1 != len2 || key_1.len() != key_2.len() {
        return false;
    }
    let mut i: usize = 0;
    while i < key_1.len()
        invariant
            key_1@.len() == key_2@.len(),
            i <= key_1@.len(),
            forall|j: int| 0 <= j < i ==> key_1@[j] == key_2@[j],
        decreases key_1@.len() - i,
    {
        if key_1[i] != key_2[i] {
            return false;
        }
        i += 1;
    }
    assert(key_1@ =~= key_2@);
    true
}

impl Key {
    /// The well-formedness of a key: a byte-string key carries its length.
    pub open spec fn wf(&self) -> bool {
        self.is_pointer ==> self.length as int == self.pointed_key@.len()
    }

    /// An inline key.
    pub fn new(key: u64) -> (r: Key)
        ensures
            r@ == KeyView::Inline(key),
            r.wf(),
    {
        Key { key, is_pointer: false, length: 0, pointed_key: Vec::new() }
    }

    /// A byte-string key.
    pub fn new_pointed(bytes: Vec<u8>) -> (r: Key)
        requires
            bytes@.len() <= u32::MAX,
        ensures
            r@ == KeyView::Pointed(bytes@),
            r.wf(),
    {
        let length = bytes.len() as u32;
        Key { key: 0, is_pointer: true, length, pointed_key: bytes }
    }

    /// Whether `self` and `other` are the same key.
    pub fn same_key(&self, other: &Key) -> (r: bool)
        requires
            self.wf(),
            other.wf(),
        ensures
            r == (self@ == other@),
    {
        if self.is_pointer {
            other.is_pointer && var_compare(&self.pointed_key, self.length, &other.pointed_key, other.length)
        } else {
            !other.is_pointer && self.key == other.key
        }
    }

    /// A copy of this key.
    pub fn duplicate(&self) -> (r: Key)
        ensures
            r@ == self@,
            r.wf() == self.wf(),
    {
        Key {
            key: self.key,
            is_pointer: self.is_pointer,
            length: self.length,
            pointed_key: copy_bytes(&self.pointed_key),
        }
    }
}

/// A copy of a byte string.
pub fn copy_bytes(v: &Vec<u8>) -> (r: Vec<u8>)
    ensures
        r@ == v@,
{
    let r = v.clone();
    assert(r@ =~= v@);
    r
}

/// The hash of a key: the default hasher over its value or its bytes.
pub fn hash_key(k: &Key) -> (r: u64)
    ensures
        r == hash_of_key(k@),
{
    if k.is_pointer {
        calculate_bytes_hash(&k.pointed_key)
    } else {
        calculate_hash(&k.key)
    }
}

/// A stored key/value pair.
#[derive(Debug)]
pub struct Pair {
    pub key: Key,
    pub value: ValueT,
}

impl Pair {
    pub fn new(key: Key, value: ValueT) -> (r: Pair)
        ensures
            r.key == key,
            r.value == value,
    {
        Pair { key, value }
    }

    /// A copy of this pair.
    pub fn duplicate(&self) -> (r: Pair)
        ensures
            r.key@ == self.key@,
            r.key.wf() == self.key.wf(),
            r.value@ == self.value@,
    {
        Pair { key: self.key.duplicate(), value: copy_bytes(&self.value) }
    }
}

} // verus!
