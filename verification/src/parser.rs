//! Object parser: turns the token stream into typed PDF values.
//!
//! The grammar is written down once, as recursive spec functions over
//! the byte sequence; the executable parser is proved to return
//! exactly the value and end position those functions describe. The
//! spec recursion guards every inner call with an explicit progress
//! check (`pos < e <= bytes.len()`), which both documents that every
//! token consumes input and makes termination evident.

use vstd::prelude::*;

use crate::lexer::{spec_next_token, next_token, lemma_next_token_bounds, Token, TokenS};
use crate::value::{DictEntry, ObjectId, PdfValue};

verus! {

broadcast use vstd::std_specs::vec::axiom_vec_index_decreases;

/// Spec-level image of a `PdfValue`: the same shape over `Seq` and
/// `int`.
pub enum ValueS {
    Null,
    Bool(bool),
    Int(int),
    Real(Seq<u8>),
    Text(Seq<u8>),
    Name(Seq<u8>),
    Array(Seq<ValueS>),
    Dict(Seq<(Seq<u8>, ValueS)>),
    Ref(int, int),
    Stream(Seq<(Seq<u8>, ValueS)>, Seq<u8>),
}

/// Deep view of one dictionary entry.
pub open spec fn view_entry(entry: DictEntry) -> (Seq<u8>, ValueS)
    decreases entry, 0int, 0int,
{
    (entry.key@, view_value(entry.value))
}

/// Deep view of a dictionary's entry list.
pub open spec fn view_entries(es: Vec<DictEntry>, i: int) -> Seq<(Seq<u8>, ValueS)>
    decreases es, 1int, es@.len() - i,
    when 0 <= i <= es@.len()
{
    if i >= es@.len() {
        Seq::empty()
    } else {
        seq![view_entry(es@[i])] + view_entries(es, i + 1)
    }
}

/// Deep view of an array's item list.
pub open spec fn view_items(items: Vec<PdfValue>, i: int) -> Seq<ValueS>
    decreases items, 1int, items@.len() - i,
    when 0 <= i <= items@.len()
{
    if i >= items@.len() {
        Seq::empty()
    } else {
        seq![view_value(items@[i])] + view_items(items, i + 1)
    }
}

/// Deep view of a parsed value: the same value over `Seq` and `int`.
pub open spec fn view_value(v: PdfValue) -> ValueS
    decreases v, 0int, 0int,
{
    match v {
        PdfValue::Null => ValueS::Null,
        PdfValue::Bool(b) => ValueS::Bool(b),
        PdfValue::Integer(n) => ValueS::Int(n as int),
        PdfValue::Real(r) => ValueS::Real(r@),
        PdfValue::Text(s) => ValueS::Text(s@),
        PdfValue::Name(n) => ValueS::Name(n@),
        PdfValue::Array(items) => ValueS::Array(view_items(items, 0)),
        PdfValue::Dict(es) => ValueS::Dict(view_entries(es, 0)),
        PdfValue::Reference(n, g) => ValueS::Ref(n as int, g as int),
        PdfValue::Stream(es, raw) => ValueS::Stream(view_entries(es, 0), raw@),
    }
}

pub open spec fn spec_keys_contain(es: Seq<(Seq<u8>, ValueS)>, k: Seq<u8>) -> bool {
    exists|i: int| 0 <= i < es.len() && es[i].0 == k
}

/// The keyword lexemes the object grammar recognises.
pub open spec fn kw_true() -> Seq<u8> {
    seq![0x74u8, 0x72u8, 0x75u8, 0x65u8]
}

pub open spec fn kw_false() -> Seq<u8> {
    seq![0x66u8, 0x61u8, 0x6cu8, 0x73u8, 0x65u8]
}

pub open spec fn kw_null() -> Seq<u8> {
    seq![0x6eu8, 0x75u8, 0x6cu8, 0x6cu8]
}

pub open spec fn kw_r() -> Seq<u8> {
    seq![0x52u8]
}

/// One PDF value starting at or after `pos`: the keyword values, a
/// number, a reference (`n g R` with `n` in object-number range and
/// `g` in generation range), a string, a name, an array or a
/// dictionary. `None` on a lexical error, an unexpected token, or a
/// reference whose numbers leave the id range.
pub open spec fn sp_value(bytes: Seq<u8>, pos: int) -> Option<(ValueS, int)>
    decreases bytes.len() - pos, 0int,
    when 0 <= pos <= bytes.len()
{
    match spec_next_token(bytes, pos) {
        None => None,
        Some((t, e)) => match t {
            TokenS::Word(w) => if w == kw_true() {
                Some((ValueS::Bool(true), e))
            } else if w == kw_false() {
                Some((ValueS::Bool(false), e))
            } else if w == kw_null() {
                Some((ValueS::Null, e))
            } else {
                None
            },
            TokenS::Int(n) => match spec_next_token(bytes, e) {
                Some((TokenS::Int(g), e2)) => match spec_next_token(bytes, e2) {
                    Some((TokenS::Word(r), e3)) => if r == kw_r() {
                        if 0 <= n <= u32::MAX && 0 <= g <= u16::MAX {
                            Some((ValueS::Ref(n, g), e3))
                        } else {
                            None
                        }
                    } else {
                        Some((ValueS::Int(n), e))
                    },
                    _ => Some((ValueS::Int(n), e)),
                },
                _ => Some((ValueS::Int(n), e)),
            },
            TokenS::Real(r) => Some((ValueS::Real(r), e)),
            TokenS::LitStr(s) => Some((ValueS::Text(s), e)),
            TokenS::HexStr(s) => Some((ValueS::Text(s), e)),
            TokenS::Name(nm) => Some((ValueS::Name(nm), e)),
            TokenS::ArrayOpen => if pos < e <= bytes.len() {
                match sp_items(bytes, e) {
                    Some((vs, e2)) => Some((ValueS::Array(vs), e2)),
                    None => None,
                }
            } else {
                None
            },
            TokenS::DictOpen => if pos < e <= bytes.len() {
                match sp_entries(bytes, e) {
                    Some((es, e2)) => Some((ValueS::Dict(es), e2)),
                    None => None,
                }
            } else {
                None
            },
            _ => None,
        },
    }
}

/// Array items up to and including the closing bracket.
pub open spec fn sp_items(bytes: Seq<u8>, pos: int) -> Option<(Seq<ValueS>, int)>
    decreases bytes.len() - pos, 2int,
    when 0 <= pos <= bytes.len()
{
    match spec_next_token(bytes, pos) {
        Some((TokenS::ArrayClose, e)) => Some((Seq::empty(), e)),
        _ => match sp_value(bytes, pos) {
            Some((v, e)) => if pos < e <= bytes.len() {
                match sp_items(bytes, e) {
                    Some((vs, e2)) => Some((seq![v] + vs, e2)),
                    None => None,
                }
            } else {
                None
            },
            None => None,
        },
    }
}

/// Dictionary entries up to and including the closing `>>`. Every
/// key is a name; on a repeated key the later entry wins, so the
/// resulting entry list always has pairwise distinct keys.
pub open spec fn sp_entries(bytes: Seq<u8>, pos: int) -> Option<(Seq<(Seq<u8>, ValueS)>, int)>
    decreases bytes.len() - pos, 2int,
    when 0 <= pos <= bytes.len()
{
    match spec_next_token(bytes, pos) {
        Some((TokenS::DictClose, e)) => Some((Seq::empty(), e)),
        Some((TokenS::Name(k), e)) => if pos < e <= bytes.len() {
            match sp_value(bytes, e) {
                Some((v, e2)) => if e < e2 <= bytes.len() {
                    match sp_entries(bytes, e2) {
                        Some((es, e3)) => if spec_keys_contain(es, k) {
                            Some((es, e3))
                        } else {
                            Some((seq![(k, v)] + es, e3))
                        },
                        None => None,
                    }
                } else {
                    None
                },
                None => None,
            }
        } else {
            None
        },
        _ => None,
    }
}

/// Every dictionary the grammar yields has pairwise distinct keys:
/// on a repeated key the later entry wins and the earlier one is
/// dropped, so the entry list is a map.
pub proof fn lemma_sp_entries_unique_keys(bytes: Seq<u8>, pos: int)
    requires
        0 <= pos <= bytes.len(),
    ensures
        match sp_entries(bytes, pos) {
            Some((es, e)) => forall|i: int, j: int|
                0 <= i < j < es.len() ==> (#[trigger] es[i]).0 != (#[trigger] es[j]).0,
            None => true,
        },
    decreases bytes.len() - pos, 3int,
{
    match spec_next_token(bytes, pos) {
        Some((TokenS::DictClose, e)) => {},
        Some((TokenS::Name(k), e)) => {
            if pos < e <= bytes.len() {
                match sp_value(bytes, e) {
                    Some((v, e2)) => {
                        if e < e2 <= bytes.len() {
                            lemma_sp_entries_unique_keys(bytes, e2);
                            match sp_entries(bytes, e2) {
                                Some((es, e3)) => {
                                    if !spec_keys_contain(es, k) {
                                        let full = seq![(k, v)] + es;
                                        assert(full.drop_first() =~= es);
                                        assert forall|i: int, j: int|
                                            0 <= i < j < full.len() implies (
                                        #[trigger] full[i]).0 != (#[trigger] full[j]).0 by {
                                            if i == 0 {
                                                assert(full[j] == es[j - 1]);
                                                assert(!spec_keys_contain(es, k));
                                                assert(es[j - 1].0 != k);
                                            } else {
                                                assert(full[i] == es[i - 1]);
                                                assert(full[j] == es[j - 1]);
                                            }
                                        }
                                    }
                                },
                                None => {},
                            }
                        }
                    },
                    None => {},
                }
            }
        },
        _ => {},
    }
}

/// Pointwise description of `view_items`.
pub proof fn lemma_view_items_index(items: Vec<PdfValue>, i: int)
    requires
        0 <= i <= items@.len(),
    ensures
        view_items(items, i).len() == items@.len() - i,
        forall|k: int|
            0 <= k < items@.len() - i ==> view_items(items, i)[k] == view_value(items@[i + k]),
    decreases items@.len() - i,
{
    if i < items@.len() {
        lemma_view_items_index(items, i + 1);
    }
}

/// Pointwise description of `view_entries`.
pub proof fn lemma_view_entries_index(es: Vec<DictEntry>, i: int)
    requires
        0 <= i <= es@.len(),
    ensures
        view_entries(es, i).len() == es@.len() - i,
        forall|k: int|
            0 <= k < es@.len() - i ==> view_entries(es, i)[k] == (
            es@[i + k].key@,
            view_value(es@[i + k].value),
            ),
    decreases es@.len() - i,
{
    if i < es@.len() {
        lemma_view_entries_index(es, i + 1);
        assert forall|k: int| 0 <= k < es@.len() - i implies view_entries(es, i)[k] == (
            es@[i + k].key@,
            view_value(es@[i + k].value),
        ) by {
            if k == 0 {
                assert(view_entries(es, i)[0] == view_entry(es@[i]));
            } else {
                assert(view_entries(es, i)[k] == view_entries(es, i + 1)[k - 1]);
            }
        }
    }
}

fn word_is(w: &Vec<u8>, k0: u8, k1: u8, k2: u8, k3: u8, len: usize) -> (r: bool)
    requires
        1 <= len <= 4,
    ensures
        r == (w@ == seq![k0, k1, k2, k3].take(len as int)),
{
    let ghost want = seq![k0, k1, k2, k3].take(len as int);
    if w.len() != len {
        return false;
    }
    let mut i: usize = 0;
    let ks: [u8; 4] = [k0, k1, k2, k3];
    while i < len
        invariant
            0 <= i <= len <= 4,
            w@.len() == len,
            ks@ == seq![k0, k1, k2, k3],
            want == seq![k0, k1, k2, k3].take(len as int),
            forall|j: int| 0 <= j < i ==> w@[j] == want[j],
        decreases len - i,
    {
        if w[i] != ks[i] {
            assert(w@[i as int] != want[i as int]);
            return false;
        }
        i = i + 1;
    }
    proof {
        assert(w@ =~= want);
    }
    true
}

fn word_is_true(w: &Vec<u8>) -> (r: bool)
    ensures
        r == (w@ == kw_true()),
{
    proof {
        assert(seq![0x74u8, 0x72u8, 0x75u8, 0x65u8].take(4) =~= kw_true());
    }
    word_is(w, 0x74, 0x72, 0x75, 0x65, 4)
}

fn word_is_null(w: &Vec<u8>) -> (r: bool)
    ensures
        r == (w@ == kw_null()),
{
    proof {
        assert(seq![0x6eu8, 0x75u8, 0x6cu8, 0x6cu8].take(4) =~= kw_null());
    }
    word_is(w, 0x6e, 0x75, 0x6c, 0x6c, 4)
}

fn word_is_r(w: &Vec<u8>) -> (r: bool)
    ensures
        r == (w@ == kw_r()),
{
    proof {
        assert(seq![0x52u8, 0u8, 0u8, 0u8].take(1) =~= kw_r());
    }
    word_is(w, 0x52, 0, 0, 0, 1)
}

fn word_is_false(w: &Vec<u8>) -> (r: bool)
    ensures
        r == (w@ == kw_false()),
{
    let ghost want = kw_false();
    if w.len() != 5 {
        return false;
    }
    if w[0] == 0x66 && w[1] == 0x61 && w[2] == 0x6c && w[3] == 0x73 && w[4] == 0x65 {
        proof {
            assert(w@ =~= kw_false());
        }
        true
    } else {
        false
    }
}

/// Whether an entry list already holds `key`.
fn entries_contain(es: &Vec<DictEntry>, key: &[u8]) -> (r: bool)
    ensures
        r == spec_keys_contain(view_entries(*es, 0), key@),
{
    proof {
        lemma_view_entries_index(*es, 0);
    }
    let mut i: usize = 0;
    while i < es.len()
        invariant
            0 <= i <= es@.len(),
            view_entries(*es, 0).len() == es@.len(),
            forall|k: int|
                0 <= k < es@.len() ==> view_entries(*es, 0)[k] == (
                es@[k].key@,
                view_value(es@[k].value),
                ),
            forall|k: int| 0 <= k < i ==> es@[k].key@ != key@,
        decreases es@.len() - i,
    {
        if crate::value::bytes_eq(es[i].key.as_slice(), key) {
            assert(view_entries(*es, 0)[i as int].0 == key@);
            return true;
        }
        i = i + 1;
    }
    assert(forall|k: int| 0 <= k < view_entries(*es, 0).len() ==> view_entries(*es, 0)[k].0
        != key@);
    false
}

/// Parses one PDF value starting at or after `pos`, returning the
/// value and the position just after it; `None` exactly where the
/// grammar spec rejects.
pub fn parse_value(bytes: &[u8], pos: usize) -> (r: Option<(PdfValue, usize)>)
    requires
        pos <= bytes@.len(),
        bytes@.len() < usize::MAX - 4,
    ensures
        match r {
            Some((v, e)) => sp_value(bytes@, pos as int) == Some((view_value(v), e as int)) && pos
                < e <= bytes@.len(),
            None => sp_value(bytes@, pos as int) is None,
        },
    decreases bytes@.len() - pos, 0int,
{
    let t0 = next_token(bytes, pos);
    match t0 {
        None => None,
        Some((t, e)) => match t {
            Token::Word(w) => {
                if word_is_true(&w) {
                    Some((PdfValue::Bool(true), e))
                } else if word_is_false(&w) {
                    Some((PdfValue::Bool(false), e))
                } else if word_is_null(&w) {
                    Some((PdfValue::Null, e))
                } else {
                    None
                }
            },
            Token::Int(n) => {
                match next_token(bytes, e) {
                    Some((Token::Int(g), e2)) => match next_token(bytes, e2) {
                        Some((Token::Word(r), e3)) => {
                            if word_is_r(&r) {
                                if n >= 0 && n <= 0xffff_ffffi64 && g >= 0 && g <= 0xffffi64 {
                                    Some((PdfValue::Reference(n as u32, g as u16), e3))
                                } else {
                                    None
                                }
                            } else {
                                Some((PdfValue::Integer(n), e))
                            }
                        },
                        _ => Some((PdfValue::Integer(n), e)),
                    },
                    _ => Some((PdfValue::Integer(n), e)),
                }
            },
            Token::Real(v) => Some((PdfValue::Real(v), e)),
            Token::LitStr(v) => Some((PdfValue::Text(v), e)),
            Token::HexStr(v) => Some((PdfValue::Text(v), e)),
            Token::Name(v) => Some((PdfValue::Name(v), e)),
            Token::ArrayOpen => {
                match parse_items(bytes, e) {
                    Some((items, e2)) => Some((PdfValue::Array(items), e2)),
                    None => None,
                }
            },
            Token::DictOpen => {
                match parse_entries(bytes, e) {
                    Some((es, e2)) => Some((PdfValue::Dict(es), e2)),
                    None => None,
                }
            },
            _ => None,
        },
    }
}

/// Parses array items up to and including the closing bracket.
pub fn parse_items(bytes: &[u8], pos: usize) -> (r: Option<(Vec<PdfValue>, usize)>)
    requires
        pos <= bytes@.len(),
        bytes@.len() < usize::MAX - 4,
    ensures
        match r {
            Some((items, e)) => sp_items(bytes@, pos as int) == Some(
                (view_items(items, 0), e as int),
            ) && pos < e <= bytes@.len(),
            None => sp_items(bytes@, pos as int) is None,
        },
    decreases bytes@.len() - pos, 2int,
{
    let peek = next_token(bytes, pos);
    match peek {
        Some((Token::ArrayClose, e)) => {
            let items: Vec<PdfValue> = Vec::new();
            proof {
                assert(view_items(items, 0) =~= Seq::<ValueS>::empty());
            }
            Some((items, e))
        },
        _ => {
            match parse_value(bytes, pos) {
                Some((v, e)) => {
                    match parse_items(bytes, e) {
                        Some((rest, e2)) => {
                            let ghost old_rest = rest;
                            let mut rest = rest;
                            rest.insert(0, v);
                            proof {
                                lemma_view_items_index(rest, 0);
                                lemma_view_items_index(old_rest, 0);
                                assert(view_items(rest, 0) =~= seq![view_value(v)] + view_items(
                                    old_rest,
                                    0,
                                ));
                            }
                            Some((rest, e2))
                        },
                        None => None,
                    }
                },
                None => None,
            }
        },
    }
}

/// Parses dictionary entries up to and including the closing `>>`.
pub fn parse_entries(bytes: &[u8], pos: usize) -> (r: Option<(Vec<DictEntry>, usize)>)
    requires
        pos <= bytes@.len(),
        bytes@.len() < usize::MAX - 4,
    ensures
        match r {
            Some((es, e)) => sp_entries(bytes@, pos as int) == Some(
                (view_entries(es, 0), e as int),
            ) && pos < e <= bytes@.len(),
            None => sp_entries(bytes@, pos as int) is None,
        },
    decreases bytes@.len() - pos, 2int,
{
    let peek = next_token(bytes, pos);
    match peek {
        Some((Token::DictClose, e)) => {
            let es: Vec<DictEntry> = Vec::new();
            proof {
                assert(view_entries(es, 0) =~= Seq::<(Seq<u8>, ValueS)>::empty());
            }
            Some((es, e))
        },
        Some((Token::Name(k), e)) => {
            match parse_value(bytes, e) {
                Some((v, e2)) => {
                    match parse_entries(bytes, e2) {
                        Some((rest, e3)) => {
                            if entries_contain(&rest, k.as_slice()) {
                                Some((rest, e3))
                            } else {
                                let ghost old_rest = rest;
                                let mut rest = rest;
                                rest.insert(0, DictEntry { key: k, value: v });
                                proof {
                                    lemma_view_entries_index(rest, 0);
                                    lemma_view_entries_index(old_rest, 0);
                                    assert(view_entries(rest, 0) =~= seq![
                                        (rest@[0].key@, view_value(rest@[0].value)),
                                    ] + view_entries(old_rest, 0));
                                }
                                Some((rest, e3))
                            }
                        },
                        None => None,
                    }
                },
                None => None,
            }
        },
        _ => None,
    }
}

pub open spec fn kw_obj() -> Seq<u8> {
    seq![0x6fu8, 0x62u8, 0x6au8]
}

pub open spec fn kw_endobj() -> Seq<u8> {
    seq![0x65u8, 0x6eu8, 0x64u8, 0x6fu8, 0x62u8, 0x6au8]
}

pub open spec fn kw_stream() -> Seq<u8> {
    seq![0x73u8, 0x74u8, 0x72u8, 0x65u8, 0x61u8, 0x6du8]
}

pub open spec fn kw_endstream() -> Seq<u8> {
    seq![0x65u8, 0x6eu8, 0x64u8, 0x73u8, 0x74u8, 0x72u8, 0x65u8, 0x61u8, 0x6du8]
}

/// Compares a word against a keyword given as a byte array.
pub fn word_eq<const N: usize>(w: &Vec<u8>, kw: &[u8; N]) -> (r: bool)
    ensures
        r == (w@ == kw@),
{
    crate::value::bytes_eq(w.as_slice(), kw.as_slice())
}

/// First position at or after `from` where the keyword bytes occur.
pub open spec fn spec_find_kw(bytes: Seq<u8>, from: int, kw: Seq<u8>) -> Option<int>
    decreases bytes.len() - from,
    when 0 <= from && kw.len() >= 1
{
    if from + kw.len() > bytes.len() {
        None
    } else if bytes.subrange(from, from + kw.len()) == kw {
        Some(from)
    } else {
        spec_find_kw(bytes, from + 1, kw)
    }
}

pub proof fn lemma_find_kw_bounds(bytes: Seq<u8>, from: int, kw: Seq<u8>)
    requires
        0 <= from,
        kw.len() >= 1,
    ensures
        match spec_find_kw(bytes, from, kw) {
            Some(f) => from <= f && f + kw.len() <= bytes.len() && bytes.subrange(
                f,
                f + kw.len(),
            ) == kw,
            None => true,
        },
    decreases bytes.len() - from,
{
    if from + kw.len() > bytes.len() {
    } else if bytes.subrange(from, from + kw.len()) == kw {
    } else {
        lemma_find_kw_bounds(bytes, from + 1, kw);
    }
}

/// Finds the first occurrence of `kw` at or after `from`.
pub fn find_kw(bytes: &[u8], from: usize, kw: &[u8]) -> (r: Option<usize>)
    requires
        kw@.len() >= 1,
    ensures
        match r {
            Some(f) => spec_find_kw(bytes@, from as int, kw@) == Some(f as int) && from <= f && f
                + kw@.len() <= bytes@.len(),
            None => spec_find_kw(bytes@, from as int, kw@) is None,
        },
{
    proof {
        lemma_find_kw_bounds(bytes@, from as int, kw@);
    }
    if bytes.len() < kw.len() {
        return None;
    }
    let mut i: usize = from;
    loop
        invariant
            from <= i,
            kw@.len() >= 1,
            kw@.len() <= bytes@.len(),
            spec_find_kw(bytes@, i as int, kw@) == spec_find_kw(bytes@, from as int, kw@),
        decreases bytes@.len() + kw@.len() - i,
    {
        if i > bytes.len() - kw.len() {
            return None;
        }
        let window = vstd::slice::slice_subrange(bytes, i, i + kw.len());
        if crate::value::bytes_eq(window, kw) {
            return Some(i);
        }
        i = i + 1;
    }
}

/// First data byte of a stream: the end-of-line marker after the
/// `stream` keyword is skipped (carriage return, line feed, or both).
pub open spec fn spec_stream_data_start(bytes: Seq<u8>, e: int) -> int {
    if e < bytes.len() && bytes[e] == 0x0d {
        if e + 1 < bytes.len() && bytes[e + 1] == 0x0a {
            e + 2
        } else {
            e + 1
        }
    } else if e < bytes.len() && bytes[e] == 0x0a {
        e + 1
    } else {
        e
    }
}

/// Strips one end-of-line marker just before `endstream`, so the raw
/// bytes end where the data ends.
pub open spec fn spec_trim_eol(bytes: Seq<u8>, ds: int, f: int) -> int {
    if f > ds && bytes[f - 1] == 0x0a {
        if f - 1 > ds && bytes[f - 2] == 0x0d {
            f - 2
        } else {
            f - 1
        }
    } else if f > ds && bytes[f - 1] == 0x0d {
        f - 1
    } else {
        f
    }
}

/// Looks `key` up in a spec-level entry list.
pub open spec fn sval_dict_get(es: Seq<(Seq<u8>, ValueS)>, key: Seq<u8>) -> Option<ValueS>
    decreases es.len(),
{
    if es.len() == 0 {
        None
    } else if es[0].0 == key {
        Some(es[0].1)
    } else {
        sval_dict_get(es.drop_first(), key)
    }
}

/// `/Length`
pub open spec fn key_length() -> Seq<u8> {
    seq![0x4cu8, 0x65u8, 0x6eu8, 0x67u8, 0x74u8, 0x68u8]
}

/// Whether the token at `c` is exactly the `endstream` keyword.
pub open spec fn sp_endstream_at(bytes: Seq<u8>, c: int) -> bool {
    match spec_next_token(bytes, c) {
        Some((TokenS::Word(w), e)) => w == kw_endstream(),
        _ => false,
    }
}

/// Outcome of fixing a stream's raw extent: the raw bytes' end, the
/// position parsing resumes at, and whether the declared `/Length`
/// disagreed with the `endstream`-bounded extent.
pub open spec fn sp_stream_extent(bytes: Seq<u8>, ds: int, declared: Option<ValueS>) -> Option<
    (int, int, bool),
> {
    let by_decl = match declared {
        Some(ValueS::Int(l)) => if 0 <= l && ds + l <= bytes.len() && sp_endstream_at(
            bytes,
            ds + l,
        ) {
            Some(ds + l)
        } else {
            None
        },
        _ => None,
    };
    match by_decl {
        Some(c) => Some((c, c, false)),
        None => match spec_find_kw(bytes, ds, kw_endstream()) {
            Some(f) => Some(
                (
                    spec_trim_eol(bytes, ds, f),
                    f,
                    declared matches Some(ValueS::Int(_)),
                ),
            ),
            None => None,
        },
    }
}

/// Computes a stream's raw extent from its declared `/Length`, with
/// the `endstream` scan as fallback; exactly the spec's outcome.
pub fn stream_extent(bytes: &[u8], ds: usize, declared: Option<i64>) -> (r: Option<
    (usize, usize, bool),
>)
    requires
        ds <= bytes@.len(),
        bytes@.len() < usize::MAX - 4,
    ensures
        match r {
            Some((end, resume, mismatch)) => sp_stream_extent(
                bytes@,
                ds as int,
                match declared {
                    Some(l) => Some(ValueS::Int(l as int)),
                    None => None,
                },
            ) == Some((end as int, resume as int, mismatch)) && ds <= end <= bytes@.len() && resume
                <= bytes@.len(),
            None => sp_stream_extent(
                bytes@,
                ds as int,
                match declared {
                    Some(l) => Some(ValueS::Int(l as int)),
                    None => None,
                },
            ) is None,
        },
{
    let kw: [u8; 9] = [0x65, 0x6e, 0x64, 0x73, 0x74, 0x72, 0x65, 0x61, 0x6d];
    proof {
        assert(kw@ =~= kw_endstream());
    }
    let mut by_decl: Option<usize> = None;
    match declared {
        Some(l) => {
            if l >= 0 && (l as u64) <= (bytes.len() - ds) as u64 {
                let c = ds + (l as usize);
                match next_token(bytes, c) {
                    Some((Token::Word(w), e)) => {
                        if word_eq(&w, &kw) {
                            by_decl = Some(c);
                        }
                    },
                    _ => {},
                }
            }
        },
        None => {},
    }
    match by_decl {
        Some(c) => Some((c, c, false)),
        None => {
            match find_kw(bytes, ds, kw.as_slice()) {
                Some(f) => {
                    // Trim the end-of-line marker before `endstream`.
                    let mut end = f;
                    if end > ds && bytes[end - 1] == 0x0a {
                        if end - 1 > ds && bytes[end - 2] == 0x0d {
                            end = end - 2;
                        } else {
                            end = end - 1;
                        }
                    } else if end > ds && bytes[end - 1] == 0x0d {
                        end = end - 1;
                    }
                    Some((end, f, declared.is_some()))
                },
                None => None,
            }
        },
    }
}

/// `n g obj` header: object number, generation, and the position
/// after the `obj` keyword.
pub open spec fn sp_obj_header(bytes: Seq<u8>, pos: int) -> Option<(int, int, int)> {
    match spec_next_token(bytes, pos) {
        Some((TokenS::Int(n), e)) => if 0 <= n <= u32::MAX && 0 <= e <= bytes.len() {
            match spec_next_token(bytes, e) {
                Some((TokenS::Int(g), e2)) => if 0 <= g <= u16::MAX && 0 <= e2 <= bytes.len() {
                    match spec_next_token(bytes, e2) {
                        Some((TokenS::Word(w), e3)) => if w == kw_obj() {
                            Some((n, g, e3))
                        } else {
                            None
                        },
                        _ => None,
                    }
                } else {
                    None
                },
                _ => None,
            }
        } else {
            None
        },
        _ => None,
    }
}

/// One indirect object at or after `pos`: `n g obj`, a value, then
/// either `endobj`, or (for a dictionary) `stream ... endstream
/// endobj` with the raw extent fixed by `sp_stream_extent`. Yields
/// the id, the value, whether the stream's declared length
/// mismatched, and the position after `endobj`.
pub open spec fn sp_indirect(bytes: Seq<u8>, pos: int) -> Option<(int, int, ValueS, bool, int)> {
    match sp_obj_header(bytes, pos) {
        Some((n, g, e)) => if pos < e <= bytes.len() {
            match sp_value(bytes, e) {
                Some((v, e2)) => if e < e2 <= bytes.len() {
                    match spec_next_token(bytes, e2) {
                        Some((TokenS::Word(w), e3)) => if w == kw_endobj() {
                            Some((n, g, v, false, e3))
                        } else if w == kw_stream() && 0 <= e3 <= bytes.len() {
                            match v {
                                ValueS::Dict(es) => {
                                    let ds = spec_stream_data_start(bytes, e3);
                                    match sp_stream_extent(
                                        bytes,
                                        ds,
                                        sval_dict_get(es, key_length()),
                                    ) {
                                        Some((end, resume, mm)) => if 0 <= resume
                                            <= bytes.len() {
                                            match spec_next_token(bytes, resume) {
                                                Some((TokenS::Word(w2), e4)) => if w2
                                                    == kw_endstream() && 0 <= e4 <= bytes.len() {
                                                    match spec_next_token(bytes, e4) {
                                                        Some((TokenS::Word(w3), e5)) => if w3
                                                            == kw_endobj() {
                                                            Some(
                                                                (
                                                                    n,
                                                                    g,
                                                                    ValueS::Stream(
                                                                        es,
                                                                        bytes.subrange(ds, end),
                                                                    ),
                                                                    mm,
                                                                    e5,
                                                                ),
                                                            )
                                                        } else {
                                                            None
                                                        },
                                                        _ => None,
                                                    }
                                                } else {
                                                    None
                                                },
                                                _ => None,
                                            }
                                        } else {
                                            None
                                        },
                                        None => None,
                                    }
                                },
                                _ => None,
                            }
                        } else {
                            None
                        },
                        _ => None,
                    }
                } else {
                    None
                },
                None => None,
            }
        } else {
            None
        },
        None => None,
    }
}

/// `sval_dict_get` on the view agrees with `spec_dict_get` on the
/// entry list itself.
pub proof fn lemma_dict_get_view(es: Vec<DictEntry>, i: int, key: Seq<u8>)
    requires
        0 <= i <= es@.len(),
    ensures
        sval_dict_get(view_entries(es, i), key) == match crate::value::spec_dict_get(
            es@.skip(i),
            key,
        ) {
            Some(v) => Some(view_value(v)),
            None => None::<ValueS>,
        },
    decreases es@.len() - i,
{
    if i < es@.len() {
        lemma_dict_get_view(es, i + 1, key);
        assert(es@.skip(i).drop_first() =~= es@.skip(i + 1));
        assert(es@.skip(i)[0] == es@[i]);
        assert((seq![view_entry(es@[i])] + view_entries(es, i + 1)).drop_first() =~= view_entries(
            es,
            i + 1,
        ));
    } else {
        assert(es@.skip(i).len() == 0);
        assert(view_entries(es, i).len() == 0);
    }
}

/// Parses one indirect object starting at or after `pos`. Returns
/// the object id, the parsed value (a `Stream` when a stream body
/// follows the dictionary), whether the stream's declared `/Length`
/// disagreed with the `endstream`-bounded extent, and the position
/// after `endobj`.
#[verifier::rlimit(60)]
pub fn parse_indirect(bytes: &[u8], pos: usize) -> (r: Option<(ObjectId, PdfValue, bool, usize)>)
    requires
        pos <= bytes@.len(),
        bytes@.len() < usize::MAX - 4,
    ensures
        match r {
            Some((oid, v, mm, end)) => sp_indirect(bytes@, pos as int) == Some(
                (oid.number as int, oid.generation as int, view_value(v), mm, end as int),
            ) && pos < end <= bytes@.len(),
            None => sp_indirect(bytes@, pos as int) is None,
        },
{
    let kw_obj_a: [u8; 3] = [0x6f, 0x62, 0x6a];
    let kw_endobj_a: [u8; 6] = [0x65, 0x6e, 0x64, 0x6f, 0x62, 0x6a];
    let kw_stream_a: [u8; 6] = [0x73, 0x74, 0x72, 0x65, 0x61, 0x6d];
    let kw_endstream_a: [u8; 9] = [0x65, 0x6e, 0x64, 0x73, 0x74, 0x72, 0x65, 0x61, 0x6d];
    proof {
        assert(kw_obj_a@ =~= kw_obj());
        assert(kw_endobj_a@ =~= kw_endobj());
        assert(kw_stream_a@ =~= kw_stream());
        assert(kw_endstream_a@ =~= kw_endstream());
    }
    // `n g obj`
    let (n, g, e) = match next_token(bytes, pos) {
        Some((Token::Int(n), e1)) => {
            if !(n >= 0 && n <= 0xffff_ffffi64) {
                return None;
            }
            match next_token(bytes, e1) {
                Some((Token::Int(g), e2)) => {
                    if !(g >= 0 && g <= 0xffffi64) {
                        return None;
                    }
                    match next_token(bytes, e2) {
                        Some((Token::Word(w), e3)) => {
                            if word_eq(&w, &kw_obj_a) {
                                (n as u32, g as u16, e3)
                            } else {
                                return None;
                            }
                        },
                        _ => {
                            return None;
                        },
                    }
                },
                _ => {
                    return None;
                },
            }
        },
        _ => {
            return None;
        },
    };
    let oid = ObjectId { number: n, generation: g };
    // The object's value.
    let (v, e2) = match parse_value(bytes, e) {
        Some(ve) => ve,
        None => {
            return None;
        },
    };
    // `endobj`, or a stream body.
    match next_token(bytes, e2) {
        Some((Token::Word(w), e3)) => {
            if word_eq(&w, &kw_endobj_a) {
                Some((oid, v, false, e3))
            } else if word_eq(&w, &kw_stream_a) {
                match v {
                    PdfValue::Dict(es) => {
                        // Skip the end-of-line marker after `stream`.
                        let mut ds = e3;
                        if ds < bytes.len() && bytes[ds] == 0x0d {
                            if ds + 1 < bytes.len() && bytes[ds + 1] == 0x0a {
                                ds = ds + 2;
                            } else {
                                ds = ds + 1;
                            }
                        } else if ds < bytes.len() && bytes[ds] == 0x0a {
                            ds = ds + 1;
                        }
                        let lk: [u8; 6] = [0x4c, 0x65, 0x6e, 0x67, 0x74, 0x68];
                        proof {
                            assert(lk@ =~= key_length());
                            lemma_dict_get_view(es, 0, key_length());
                            assert(es@.skip(0) =~= es@);
                        }
                        let declared: Option<i64> = match crate::value::dict_get(
                            &es,
                            lk.as_slice(),
                        ) {
                            Some(val) => match val {
                                PdfValue::Integer(l) => Some(*l),
                                _ => None,
                            },
                            _ => None,
                        };
                        proof {
                            // A non-integer declared length behaves as no
                            // declared length at all.
                            match sval_dict_get(view_entries(es, 0), key_length()) {
                                Some(dv) => {
                                    if !(dv is Int) {
                                        assert(sp_stream_extent(bytes@, ds as int, Some(dv))
                                            == sp_stream_extent(bytes@, ds as int, None));
                                    }
                                },
                                None => {},
                            }
                        }
                        match stream_extent(bytes, ds, declared) {
                            Some((end, resume, mm)) => {
                                match next_token(bytes, resume) {
                                    Some((Token::Word(w2), e4)) => {
                                        if !word_eq(&w2, &kw_endstream_a) {
                                            return None;
                                        }
                                        match next_token(bytes, e4) {
                                            Some((Token::Word(w3), e5)) => {
                                                if !word_eq(&w3, &kw_endobj_a) {
                                                    return None;
                                                }
                                                let raw = vstd::slice::slice_to_vec(
                                                    vstd::slice::slice_subrange(bytes, ds, end),
                                                );
                                                Some((oid, PdfValue::Stream(es, raw), mm, e5))
                                            },
                                            _ => None,
                                        }
                                    },
                                    _ => None,
                                }
                            },
                            None => None,
                        }
                    },
                    _ => None,
                }
            } else {
                None
            }
        },
        _ => None,
    }
}

} // verus!
