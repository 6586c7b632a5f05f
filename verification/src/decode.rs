//! Stream decoder: applies a stream's declared filter chain.
//!
//! `ASCIIHexDecode` is implemented and verified here against its
//! spec; `FlateDecode` is carried out by an outside inflate routine
//! behind a trusted wrapper. A decode failure reports the failing
//! filter's position in the chain and never aborts the analysis.

use vstd::prelude::*;

use crate::lexer::{is_ws_byte, byte_is_ws, hex_val, spec_hex_val, spec_nibbles_to_bytes};

verus! {

/// Nibbles of an `ASCIIHexDecode` stream: hex digits with whitespace
/// ignored, ended by `>` or the end of the data; any other byte is a
/// decode error.
pub open spec fn sp_ahx_nibbles(s: Seq<u8>, pos: int) -> Option<Seq<u8>>
    decreases s.len() - pos,
    when 0 <= pos <= s.len()
{
    if pos >= s.len() {
        Some(Seq::empty())
    } else if s[pos] == 0x3e {
        Some(Seq::empty())
    } else if is_ws_byte(s[pos]) {
        sp_ahx_nibbles(s, pos + 1)
    } else {
        match spec_hex_val(s[pos]) {
            Some(v) => match sp_ahx_nibbles(s, pos + 1) {
                Some(rest) => Some(seq![v] + rest),
                None => None,
            },
            None => None,
        }
    }
}

/// The decoded content of an `ASCIIHexDecode` stream: its nibbles
/// paired into bytes, an odd final nibble padded with zero.
pub open spec fn spec_ascii_hex_decode(s: Seq<u8>) -> Option<Seq<u8>> {
    match sp_ahx_nibbles(s, 0) {
        Some(nibs) => Some(spec_nibbles_to_bytes(nibs)),
        None => None,
    }
}

pub proof fn lemma_ahx_nibble_range(s: Seq<u8>, pos: int)
    requires
        0 <= pos <= s.len(),
    ensures
        match sp_ahx_nibbles(s, pos) {
            Some(nibs) => forall|k: int| 0 <= k < nibs.len() ==> nibs[k] < 16,
            None => true,
        },
    decreases s.len() - pos,
{
    if pos >= s.len() {
    } else if s[pos] == 0x3e {
    } else {
        lemma_ahx_nibble_range(s, pos + 1);
    }
}

/// Collects the nibbles of `ASCIIHexDecode` data.
fn ahx_nibbles(s: &[u8]) -> (r: Option<Vec<u8>>)
    ensures
        match r {
            Some(v) => sp_ahx_nibbles(s@, 0) == Some(v@),
            None => sp_ahx_nibbles(s@, 0) is None,
        },
{
    let mut nibs: Vec<u8> = Vec::new();
    let mut i: usize = 0;
    proof {
        match sp_ahx_nibbles(s@, 0) {
            Some(ns) => {
                assert(Seq::<u8>::empty() + ns =~= ns);
            },
            None => {},
        }
    }
    loop
        invariant
            0 <= i <= s@.len(),
            match sp_ahx_nibbles(s@, i as int) {
                Some(rest) => sp_ahx_nibbles(s@, 0) == Some(nibs@ + rest),
                None => sp_ahx_nibbles(s@, 0) is None,
            },
        decreases s@.len() - i,
    {
        if i >= s.len() {
            proof {
                assert(nibs@ + Seq::<u8>::empty() =~= nibs@);
            }
            return Some(nibs);
        }
        let b = s[i];
        if b == 0x3e {
            proof {
                assert(nibs@ + Seq::<u8>::empty() =~= nibs@);
            }
            return Some(nibs);
        } else if byte_is_ws(b) {
            i = i + 1;
        } else {
            match hex_val(b) {
                Some(v) => {
                    let ghost old_nibs = nibs@;
                    nibs.push(v);
                    proof {
                        match sp_ahx_nibbles(s@, i + 1) {
                            Some(rest) => {
                                assert(old_nibs + (seq![v] + rest) =~= (old_nibs + seq![v])
                                    + rest);
                                assert(old_nibs + seq![v] =~= nibs@);
                            },
                            None => {},
                        }
                    }
                    i = i + 1;
                },
                None => {
                    return None;
                },
            }
        }
    }
}

/// Decodes `ASCIIHexDecode` data.
pub fn ascii_hex_decode(s: &[u8]) -> (r: Option<Vec<u8>>)
    ensures
        match r {
            Some(v) => spec_ascii_hex_decode(s@) == Some(v@),
            None => spec_ascii_hex_decode(s@) is None,
        },
{
    match ahx_nibbles(s) {
        Some(nibs) => {
            proof {
                lemma_ahx_nibble_range(s@, 0);
            }
            Some(crate::lexer::nibbles_to_bytes(&nibs))
        },
        None => None,
    }
}

/// What the outside zlib inflate routine returns for given input; a
/// pure function of the bytes alone.
pub uninterp spec fn zlib_inflate(s: Seq<u8>) -> Option<Seq<u8>>;

/// Relies on miniz_oxide::inflate::decompress_to_vec_zlib: inflates
/// a zlib stream, failing on malformed input; the result depends on
/// the input bytes alone.
#[verifier::external_body]
pub fn flate_decode(s: &[u8]) -> (r: Option<Vec<u8>>)
    ensures
        match r {
            Some(v) => zlib_inflate(s@) == Some(v@),
            None => zlib_inflate(s@) is None,
        },
{
    match miniz_oxide::inflate::decompress_to_vec_zlib(s) {
        Ok(v) => Some(v),
        Err(_) => None,
    }
}

/// `FlateDecode`
pub open spec fn name_flate() -> Seq<u8> {
    seq![0x46u8, 0x6cu8, 0x61u8, 0x74u8, 0x65u8, 0x44u8, 0x65u8, 0x63u8, 0x6fu8, 0x64u8, 0x65u8]
}

/// `ASCIIHexDecode`
pub open spec fn name_ascii_hex() -> Seq<u8> {
    seq![
        0x41u8,
        0x53u8,
        0x43u8,
        0x49u8,
        0x49u8,
        0x48u8,
        0x65u8,
        0x78u8,
        0x44u8,
        0x65u8,
        0x63u8,
        0x6fu8,
        0x64u8,
        0x65u8,
    ]
}

/// Applies one named filter.
pub open spec fn sp_apply_filter(data: Seq<u8>, name: Seq<u8>) -> Option<Seq<u8>> {
    if name == name_flate() {
        zlib_inflate(data)
    } else if name == name_ascii_hex() {
        spec_ascii_hex_decode(data)
    } else {
        None
    }
}

/// Applies a filter chain in order; `Err(i)` names the position of
/// the first filter that fails (or is unknown).
pub open spec fn sp_apply_chain(data: Seq<u8>, names: Seq<Seq<u8>>, i: int) -> Result<
    Seq<u8>,
    int,
>
    decreases names.len() - i,
    when 0 <= i <= names.len()
{
    if i >= names.len() {
        Ok(data)
    } else {
        match sp_apply_filter(data, names[i]) {
            Some(out) => sp_apply_chain(out, names, i + 1),
            None => Err(i),
        }
    }
}

/// Applies the declared filter chain to raw stream bytes. On `Err`
/// the caller records a decode anomaly with the failing position and
/// keeps the raw bytes; analysis of the document continues.
pub fn apply_filter_chain(data: Vec<u8>, names: &Vec<Vec<u8>>) -> (r: Result<Vec<u8>, usize>)
    ensures
        match r {
            Ok(out) => sp_apply_chain(data@, names.deep_view(), 0) == Ok::<Seq<u8>, int>(out@),
            Err(i) => sp_apply_chain(data@, names.deep_view(), 0) == Err::<Seq<u8>, int>(
                i as int,
            ) && i < names@.len(),
        },
{
    let fl: [u8; 11] = [0x46, 0x6c, 0x61, 0x74, 0x65, 0x44, 0x65, 0x63, 0x6f, 0x64, 0x65];
    let ah: [u8; 14] = [
        0x41,
        0x53,
        0x43,
        0x49,
        0x49,
        0x48,
        0x65,
        0x78,
        0x44,
        0x65,
        0x63,
        0x6f,
        0x64,
        0x65,
    ];
    proof {
        assert(fl@ =~= name_flate());
        assert(ah@ =~= name_ascii_hex());
    }
    let mut cur = data;
    let mut i: usize = 0;
    proof {
        assert(names.deep_view().len() == names@.len());
        assert(forall|k: int|
            0 <= k < names@.len() ==> names.deep_view()[k] == (#[trigger] names@[k])@);
    }
    while i < names.len()
        invariant
            0 <= i <= names@.len(),
            fl@ == name_flate(),
            ah@ == name_ascii_hex(),
            names.deep_view().len() == names@.len(),
            forall|k: int|
                0 <= k < names@.len() ==> names.deep_view()[k] == (#[trigger] names@[k])@,
            sp_apply_chain(cur@, names.deep_view(), i as int) == sp_apply_chain(
                data@,
                names.deep_view(),
                0,
            ),
        decreases names@.len() - i,
    {
        let name = &names[i];
        let is_fl = crate::value::bytes_eq(name.as_slice(), fl.as_slice());
        let is_ah = crate::value::bytes_eq(name.as_slice(), ah.as_slice());
        proof {
            assert(names.deep_view()[i as int] == name@);
        }
        let out = if is_fl {
            flate_decode(cur.as_slice())
        } else if is_ah {
            ascii_hex_decode(cur.as_slice())
        } else {
            None
        };
        match out {
            Some(next) => {
                proof {
                    assert(sp_apply_filter(cur@, names.deep_view()[i as int]) == Some(next@));
                }
                cur = next;
                i = i + 1;
            },
            None => {
                proof {
                    assert(sp_apply_filter(cur@, names.deep_view()[i as int]) is None);
                    assert(sp_apply_chain(cur@, names.deep_view(), i as int) == Err::<
                        Seq<u8>,
                        int,
                    >(i as int));
                }
                return Err(i);
            },
        }
    }
    Ok(cur)
}

} // verus!
