//! Typed PDF values and indirect-object identifiers.

use vstd::prelude::*;

verus! {

/// Identifier of an indirect object: object number and generation.
/// Two objects with the same number and different generations are
/// distinct entities; only the generation named by the active
/// cross-reference entry is live.
#[derive(Clone, Copy, PartialEq, Eq, Structural, Debug, Hash)]
pub struct ObjectId {
    pub number: u32,
    pub generation: u16,
}

impl ObjectId {
    /// A single integer key that orders ids first by number, then by
    /// generation; used to key maps and to sort object inventories.
    pub open spec fn spec_key(self) -> int {
        self.number * 0x10000 + self.generation
    }

    pub fn key(self) -> (r: u64)
        ensures
            r == self.spec_key(),
    {
        (self.number as u64) * 0x10000 + (self.generation as u64)
    }
}

/// A typed PDF value: the tagged union over every primitive and
/// composite form the object grammar can produce.
///
/// A `Real` keeps its raw numeric lexeme: the analysis never computes
/// with reals, it only types, sizes and hashes them. A `Dict` is an
/// association list from name bytes to values; parsing keeps its keys
/// unique. A `Reference` is a weak link, validated only at graph
/// resolution time. A `Stream` pairs its dictionary with the raw
/// (still encoded) stream bytes.
#[derive(Debug)]
pub struct DictEntry {
    pub key: Vec<u8>,
    pub value: PdfValue,
}

#[derive(Debug)]
pub enum PdfValue {
    Null,
    Bool(bool),
    Integer(i64),
    Real(Vec<u8>),
    Text(Vec<u8>),
    Name(Vec<u8>),
    Array(Vec<PdfValue>),
    Dict(Vec<DictEntry>),
    Reference(u32, u16),
    Stream(Vec<DictEntry>, Vec<u8>),
}

/// The value a dictionary entry list associates with `key`, if any:
/// the first entry whose key matches.
pub open spec fn spec_dict_get(entries: Seq<DictEntry>, key: Seq<u8>) -> Option<
    PdfValue,
>
    decreases entries.len(),
{
    if entries.len() == 0 {
        None
    } else if entries[0].key@ == key {
        Some(entries[0].value)
    } else {
        spec_dict_get(entries.drop_first(), key)
    }
}

/// Byte-for-byte equality of two byte vectors.
pub fn bytes_eq(a: &[u8], b: &[u8]) -> (r: bool)
    ensures
        r == (a@ == b@),
{
    if a.len() != b.len() {
        assert(a@.len() != b@.len());
        return false;
    }
    let mut i: usize = 0;
    while i < a.len()
        invariant
            0 <= i <= a@.len(),
            a@.len() == b@.len(),
            forall|k: int| 0 <= k < i ==> a@[k] == b@[k],
        decreases a@.len() - i,
    {
        if a[i] != b[i] {
            return false;
        }
        i = i + 1;
    }
    proof {
        assert(a@ =~= b@);
    }
    true
}

/// Looks `key` up in a dictionary entry list, returning a reference to
/// the first matching entry's value.
pub fn dict_get<'a>(entries: &'a Vec<DictEntry>, key: &[u8]) -> (r: Option<
    &'a PdfValue,
>)
    ensures
        match r {
            Some(v) => spec_dict_get(entries@, key@) == Some(*v),
            None => spec_dict_get(entries@, key@) is None,
        },
{
    let mut i: usize = 0;
    proof {
        assert(entries@.skip(0) =~= entries@);
    }
    while i < entries.len()
        invariant
            0 <= i <= entries@.len(),
            spec_dict_get(entries@, key@) == spec_dict_get(entries@.skip(i as int), key@),
        decreases entries@.len() - i,
    {
        proof {
            assert(entries@.skip(i as int).drop_first() =~= entries@.skip(i + 1));
        }
        if bytes_eq(entries[i].key.as_slice(), key) {
            assert(entries@.skip(i as int)[0] == entries@[i as int]);
            return Some(&entries[i].value);
        }
        i = i + 1;
    }
    assert(entries@.skip(i as int).len() == 0);
    None
}

} // verus!
