//! Cross-reference resolver: tables, trailers, the `/Prev` chain,
//! shadowing across incremental updates, and the brute-force object
//! scan used when the table is missing or corrupt.

use vstd::prelude::*;

use crate::lexer::{spec_next_token, next_token, Token, TokenS};
use crate::parser::{
    kw_obj, parse_entries, sp_entries, sp_obj_header, sval_dict_get, view_entries, word_eq,
    ValueS,
};
use crate::value::DictEntry;

verus! {

/// One cross-reference entry: object number, byte offset (or next
/// free object for a free entry), generation, and whether it is in
/// use.
#[derive(Clone, Copy, PartialEq, Eq, Structural, Debug)]
pub struct XrefEntry {
    pub num: u32,
    pub off: u64,
    pub gen: u16,
    pub in_use: bool,
}

/// Spec image of an entry, over `int`.
pub struct XrefEntryS {
    pub num: int,
    pub off: int,
    pub gen: int,
    pub in_use: bool,
}

impl DeepView for XrefEntry {
    type V = XrefEntryS;

    open spec fn deep_view(&self) -> XrefEntryS {
        XrefEntryS {
            num: self.num as int,
            off: self.off as int,
            gen: self.gen as int,
            in_use: self.in_use,
        }
    }
}

pub open spec fn kw_xref() -> Seq<u8> {
    seq![0x78u8, 0x72u8, 0x65u8, 0x66u8]
}

pub open spec fn kw_trailer() -> Seq<u8> {
    seq![0x74u8, 0x72u8, 0x61u8, 0x69u8, 0x6cu8, 0x65u8, 0x72u8]
}

pub open spec fn kw_startxref() -> Seq<u8> {
    seq![0x73u8, 0x74u8, 0x61u8, 0x72u8, 0x74u8, 0x78u8, 0x72u8, 0x65u8, 0x66u8]
}

pub open spec fn kw_n() -> Seq<u8> {
    seq![0x6eu8]
}

pub open spec fn kw_f() -> Seq<u8> {
    seq![0x66u8]
}

/// `/Prev`
pub open spec fn key_prev() -> Seq<u8> {
    seq![0x50u8, 0x72u8, 0x65u8, 0x76u8]
}

/// `count` entries of one subsection, numbering from `num`: each is
/// `offset generation (n|f)`. An object number past the id range, a
/// negative offset, or a generation out of range is an error.
pub open spec fn sp_xref_one(bytes: Seq<u8>, pos: int, num: int) -> Option<(XrefEntryS, int)> {
    match spec_next_token(bytes, pos) {
        Some((TokenS::Int(off), e)) => if 0 <= off && pos < e <= bytes.len() {
            match spec_next_token(bytes, e) {
                Some((TokenS::Int(gen), e2)) => if 0 <= gen <= u16::MAX && e < e2
                    <= bytes.len() {
                    match spec_next_token(bytes, e2) {
                        Some((TokenS::Word(w), e3)) => if (w == kw_n() || w == kw_f()) && e2
                            < e3 <= bytes.len() {
                            Some(
                                (
                                    XrefEntryS {
                                        num: num,
                                        off: off,
                                        gen: gen,
                                        in_use: w == kw_n(),
                                    },
                                    e3,
                                ),
                            )
                        } else {
                            None
                        },
                        _ => None,
                    }
                } else {
                    None
                },
                _ => None,
            }
        } else {
            None
        },
        _ => None,
    }
}

pub open spec fn sp_xref_entries(bytes: Seq<u8>, pos: int, num: int, count: int) -> Option<
    (Seq<XrefEntryS>, int),
>
    decreases bytes.len() - pos, 0int, count,
    when 0 <= pos <= bytes.len() && 0 <= count
{
    if count == 0 {
        Some((Seq::empty(), pos))
    } else if num > u32::MAX {
        None
    } else {
        match sp_xref_one(bytes, pos, num) {
            Some((en, e3)) => if pos < e3 <= bytes.len() {
                match sp_xref_entries(bytes, e3, num + 1, count - 1) {
                    Some((rest, e4)) => Some((seq![en] + rest, e4)),
                    None => None,
                }
            } else {
                None
            },
            None => None,
        }
    }
}

/// All subsections of one table: `start count` headers each followed
/// by their entries; ends (without consuming) at the first token
/// that is not an integer.
pub open spec fn sp_xref_subsections(bytes: Seq<u8>, pos: int) -> Option<(Seq<XrefEntryS>, int)>
    decreases bytes.len() - pos, 1int, 0int,
    when 0 <= pos <= bytes.len()
{
    match spec_next_token(bytes, pos) {
        Some((TokenS::Int(start), e)) => if 0 <= start <= u32::MAX && pos < e <= bytes.len() {
            match spec_next_token(bytes, e) {
                Some((TokenS::Int(count), e2)) => if 0 <= count && e < e2 <= bytes.len() {
                    match sp_xref_entries(bytes, e2, start, count) {
                        Some((es, e3)) => if pos < e3 <= bytes.len() {
                            match sp_xref_subsections(bytes, e3) {
                                Some((rest, e4)) => Some((es + rest, e4)),
                                None => None,
                            }
                        } else {
                            None
                        },
                        None => None,
                    }
                } else {
                    None
                },
                _ => None,
            }
        } else {
            None
        },
        _ => Some((Seq::empty(), pos)),
    }
}

/// One whole cross-reference section: the `xref` keyword, its
/// subsections, then `trailer` and the trailer dictionary. Yields
/// the entries, the trailer's entry list, and the position after the
/// trailer dictionary.
pub open spec fn sp_xref_section(bytes: Seq<u8>, pos: int) -> Option<
    (Seq<XrefEntryS>, Seq<(Seq<u8>, ValueS)>, int),
> {
    match spec_next_token(bytes, pos) {
        Some((TokenS::Word(w), e)) => if w == kw_xref() && 0 <= e <= bytes.len() {
            match sp_xref_subsections(bytes, e) {
                Some((es, e2)) => if 0 <= e2 <= bytes.len() {
                    match spec_next_token(bytes, e2) {
                        Some((TokenS::Word(w2), e3)) => if w2 == kw_trailer() && 0 <= e3
                            <= bytes.len() {
                            match spec_next_token(bytes, e3) {
                                Some((TokenS::DictOpen, e4)) => if 0 <= e4 <= bytes.len() {
                                    match sp_entries(bytes, e4) {
                                        Some((tes, e5)) => Some((es, tes, e5)),
                                        None => None,
                                    }
                                } else {
                                    None
                                },
                                _ => None,
                            }
                        } else {
                            None
                        },
                        _ => None,
                    }
                } else {
                    None
                },
                None => None,
            }
        } else {
            None
        },
        _ => None,
    }
}

/// Prepends entries to an entry-scan outcome.
pub open spec fn xent_prepend(
    p: Seq<XrefEntryS>,
    r: Option<(Seq<XrefEntryS>, int)>,
) -> Option<(Seq<XrefEntryS>, int)> {
    match r {
        Some((s, e)) => Some((p + s, e)),
        None => None,
    }
}

pub proof fn lemma_xent_prepend_assoc(
    a: Seq<XrefEntryS>,
    b: Seq<XrefEntryS>,
    r: Option<(Seq<XrefEntryS>, int)>,
)
    ensures
        xent_prepend(a, xent_prepend(b, r)) == xent_prepend(a + b, r),
{
    match r {
        Some((s, e)) => {
            assert(a + (b + s) =~= (a + b) + s);
        },
        None => {},
    }
}

/// Parses one `offset generation (n|f)` line.
fn parse_xref_one(bytes: &[u8], pos: usize, num: u32) -> (r: Option<(XrefEntry, usize)>)
    requires
        pos <= bytes@.len(),
        bytes@.len() < usize::MAX - 4,
    ensures
        match r {
            Some((en, e)) => sp_xref_one(bytes@, pos as int, num as int) == Some(
                (en.deep_view(), e as int),
            ) && pos < e <= bytes@.len(),
            None => sp_xref_one(bytes@, pos as int, num as int) is None,
        },
{
    let kw_n_a: [u8; 1] = [0x6e];
    let kw_f_a: [u8; 1] = [0x66];
    proof {
        assert(kw_n_a@ =~= kw_n());
        assert(kw_f_a@ =~= kw_f());
    }
    let (off, e) = match next_token(bytes, pos) {
        Some((Token::Int(off), e)) => {
            if off < 0 {
                return None;
            }
            (off, e)
        },
        _ => {
            return None;
        },
    };
    let (gen, e2) = match next_token(bytes, e) {
        Some((Token::Int(gen), e2)) => {
            if !(0 <= gen && gen <= 0xffffi64) {
                return None;
            }
            (gen, e2)
        },
        _ => {
            return None;
        },
    };
    match next_token(bytes, e2) {
        Some((Token::Word(w), e3)) => {
            if word_eq(&w, &kw_n_a) {
                Some((XrefEntry { num, off: off as u64, gen: gen as u16, in_use: true }, e3))
            } else if word_eq(&w, &kw_f_a) {
                Some((XrefEntry { num, off: off as u64, gen: gen as u16, in_use: false }, e3))
            } else {
                None
            }
        },
        _ => None,
    }
}

/// Parses the entries of one subsection.
fn parse_xref_entries(bytes: &[u8], pos: usize, num: u32, count: i64) -> (r: Option<
    (Vec<XrefEntry>, usize),
>)
    requires
        pos <= bytes@.len(),
        bytes@.len() < usize::MAX - 4,
        count >= 0,
    ensures
        match r {
            Some((es, e)) => sp_xref_entries(bytes@, pos as int, num as int, count as int)
                == Some((es.deep_view(), e as int)) && pos <= e <= bytes@.len(),
            None => sp_xref_entries(bytes@, pos as int, num as int, count as int) is None,
        },
{
    let mut acc: Vec<XrefEntry> = Vec::new();
    let mut i: usize = pos;
    let mut n: u64 = num as u64;
    let mut c: i64 = count;
    proof {
        match sp_xref_entries(bytes@, pos as int, num as int, count as int) {
            Some((s, e)) => {
                assert(Seq::<XrefEntryS>::empty() + s =~= s);
            },
            None => {},
        }
    }
    loop
        invariant
            pos <= i <= bytes@.len(),
            bytes@.len() < usize::MAX - 4,
            0 <= c,
            n <= u32::MAX as u64 + 1,
            xent_prepend(acc.deep_view(), sp_xref_entries(bytes@, i as int, n as int, c as int))
                == sp_xref_entries(bytes@, pos as int, num as int, count as int),
        decreases c,
    {
        if c == 0 {
            proof {
                assert(acc.deep_view() + Seq::<XrefEntryS>::empty() =~= acc.deep_view());
            }
            return Some((acc, i));
        }
        if n > u32::MAX as u64 {
            return None;
        }
        match parse_xref_one(bytes, i, n as u32) {
            Some((entry, e3)) => {
                let ghost old_acc = acc;
                acc.push(entry);
                proof {
                    lemma_xent_prepend_assoc(
                        old_acc.deep_view(),
                        seq![entry.deep_view()],
                        sp_xref_entries(bytes@, e3 as int, n + 1, c - 1),
                    );
                    assert(old_acc.deep_view() + seq![entry.deep_view()]
                        =~= old_acc.deep_view().push(entry.deep_view()));
                    assert(acc.deep_view() =~= old_acc.deep_view().push(entry.deep_view()));
                }
                i = e3;
                n = n + 1;
                c = c - 1;
            },
            None => {
                return None;
            },
        }
    }
}

/// Parses all subsections of a table. Recursion depth is the number
/// of subsections, which real tables keep small.
fn parse_xref_subsections(bytes: &[u8], pos: usize) -> (r: Option<(Vec<XrefEntry>, usize)>)
    requires
        pos <= bytes@.len(),
        bytes@.len() < usize::MAX - 4,
    ensures
        match r {
            Some((es, e)) => sp_xref_subsections(bytes@, pos as int) == Some(
                (es.deep_view(), e as int),
            ) && pos <= e <= bytes@.len(),
            None => sp_xref_subsections(bytes@, pos as int) is None,
        },
    decreases bytes@.len() - pos, 1int,
{
    match next_token(bytes, pos) {
        Some((Token::Int(start), e)) => {
            if !(0 <= start && start <= 0xffff_ffffi64) {
                return None;
            }
            match next_token(bytes, e) {
                Some((Token::Int(count), e2)) => {
                    if count < 0 {
                        return None;
                    }
                    match parse_xref_entries(bytes, e2, start as u32, count) {
                        Some((mut es, e3)) => {
                            if !(pos < e3) {
                                return None;
                            }
                            match parse_xref_subsections(bytes, e3) {
                                Some((mut rest, e4)) => {
                                    let ghost es0 = es;
                                    let ghost rest0 = rest;
                                    es.append(&mut rest);
                                    proof {
                                        assert(es.deep_view() =~= es0.deep_view()
                                            + rest0.deep_view());
                                    }
                                    Some((es, e4))
                                },
                                None => None,
                            }
                        },
                        None => None,
                    }
                },
                _ => None,
            }
        },
        _ => {
            let es: Vec<XrefEntry> = Vec::new();
            proof {
                assert(es.deep_view() =~= Seq::<XrefEntryS>::empty());
            }
            Some((es, pos))
        },
    }
}

/// Parses one whole cross-reference section (table form) at `pos`:
/// entries, trailer dictionary, and the position after the trailer.
pub fn parse_xref_section(bytes: &[u8], pos: usize) -> (r: Option<
    (Vec<XrefEntry>, Vec<DictEntry>, usize),
>)
    requires
        pos <= bytes@.len(),
        bytes@.len() < usize::MAX - 4,
    ensures
        match r {
            Some((es, tes, e)) => sp_xref_section(bytes@, pos as int) == Some(
                (es.deep_view(), view_entries(tes, 0), e as int),
            ) && pos < e <= bytes@.len(),
            None => sp_xref_section(bytes@, pos as int) is None,
        },
{
    let kw_xref_a: [u8; 4] = [0x78, 0x72, 0x65, 0x66];
    let kw_trailer_a: [u8; 7] = [0x74, 0x72, 0x61, 0x69, 0x6c, 0x65, 0x72];
    proof {
        assert(kw_xref_a@ =~= kw_xref());
        assert(kw_trailer_a@ =~= kw_trailer());
    }
    match next_token(bytes, pos) {
        Some((Token::Word(w), e)) => {
            if !word_eq(&w, &kw_xref_a) {
                return None;
            }
            match parse_xref_subsections(bytes, e) {
                Some((es, e2)) => {
                    match next_token(bytes, e2) {
                        Some((Token::Word(w2), e3)) => {
                            if !word_eq(&w2, &kw_trailer_a) {
                                return None;
                            }
                            match next_token(bytes, e3) {
                                Some((Token::DictOpen, e4)) => {
                                    match parse_entries(bytes, e4) {
                                        Some((tes, e5)) => Some((es, tes, e5)),
                                        None => None,
                                    }
                                },
                                _ => None,
                            }
                        },
                        _ => None,
                    }
                },
                None => None,
            }
        },
        _ => None,
    }
}

/// Last position where the keyword bytes occur.
pub open spec fn spec_rfind_kw(bytes: Seq<u8>, from: int, kw: Seq<u8>) -> Option<int>
    decreases from,
    when kw.len() >= 1
{
    if from < 0 {
        None
    } else if from + kw.len() <= bytes.len() && bytes.subrange(from, from + kw.len()) == kw {
        Some(from)
    } else if from == 0 {
        None
    } else {
        spec_rfind_kw(bytes, from - 1, kw)
    }
}

/// Finds the last occurrence of `kw`, searching backwards from the
/// end of the input.
pub fn rfind_kw(bytes: &[u8], kw: &[u8]) -> (r: Option<usize>)
    requires
        kw@.len() >= 1,
        bytes@.len() < usize::MAX - 4,
    ensures
        match r {
            Some(f) => spec_rfind_kw(bytes@, bytes@.len() as int - 1, kw@) == Some(f as int) && f
                + kw@.len() <= bytes@.len(),
            None => spec_rfind_kw(bytes@, bytes@.len() as int - 1, kw@) is None,
        },
{
    if bytes.len() == 0 {
        return None;
    }
    let mut i: usize = bytes.len() - 1;
    loop
        invariant
            0 <= i < bytes@.len(),
            bytes@.len() < usize::MAX - 4,
            kw@.len() >= 1,
            spec_rfind_kw(bytes@, i as int, kw@) == spec_rfind_kw(
                bytes@,
                bytes@.len() as int - 1,
                kw@,
            ),
        decreases i,
    {
        if kw.len() <= bytes.len() - i {
            let window = vstd::slice::slice_subrange(bytes, i, i + kw.len());
            if crate::value::bytes_eq(window, kw) {
                return Some(i);
            }
        }
        if i == 0 {
            return None;
        }
        i = i - 1;
    }
}

/// The cross-reference offset the file's final `startxref` declares.
pub open spec fn sp_startxref(bytes: Seq<u8>) -> Option<int> {
    match spec_rfind_kw(bytes, bytes.len() as int - 1, kw_startxref()) {
        Some(p) => match spec_next_token(bytes, p) {
            Some((TokenS::Word(w), e)) => if w == kw_startxref() && 0 <= e <= bytes.len() {
                match spec_next_token(bytes, e) {
                    Some((TokenS::Int(off), e2)) => if 0 <= off {
                        Some(off)
                    } else {
                        None
                    },
                    _ => None,
                }
            } else {
                None
            },
            _ => None,
        },
        None => None,
    }
}

/// Reads the declared cross-reference offset from the file's final
/// `startxref` line.
pub fn read_startxref(bytes: &[u8]) -> (r: Option<u64>)
    requires
        bytes@.len() < usize::MAX - 4,
    ensures
        match r {
            Some(off) => sp_startxref(bytes@) == Some(off as int),
            None => sp_startxref(bytes@) is None,
        },
{
    let kw_sx: [u8; 9] = [0x73, 0x74, 0x61, 0x72, 0x74, 0x78, 0x72, 0x65, 0x66];
    proof {
        assert(kw_sx@ =~= kw_startxref());
    }
    match rfind_kw(bytes, kw_sx.as_slice()) {
        Some(p) => {
            match next_token(bytes, p) {
                Some((Token::Word(w), e)) => {
                    if !word_eq(&w, &kw_sx) {
                        return None;
                    }
                    match next_token(bytes, e) {
                        Some((Token::Int(off), _e2)) => {
                            if off >= 0 {
                                Some(off as u64)
                            } else {
                                None
                            }
                        },
                        _ => None,
                    }
                },
                _ => None,
            }
        },
        None => None,
    }
}

/// One parsed cross-reference section, with the offset it was read
/// from and its trailer dictionary.
pub struct XrefSection {
    pub at: u64,
    pub entries: Vec<XrefEntry>,
    pub trailer: Vec<DictEntry>,
}

/// The `/Prev` offset a trailer declares, when it is a non-negative
/// integer.
pub open spec fn sp_prev_of(tes: Seq<(Seq<u8>, ValueS)>) -> Option<int> {
    match sval_dict_get(tes, key_prev()) {
        Some(ValueS::Int(p)) => if p >= 0 {
            Some(p)
        } else {
            None
        },
        _ => None,
    }
}

/// Section content at a position, without the end position.
#[verifier::opaque]
pub open spec fn sp_section_content(bytes: Seq<u8>, pos: int) -> Option<
    (Seq<XrefEntryS>, Seq<(Seq<u8>, ValueS)>),
> {
    match sp_xref_section(bytes, pos) {
        Some((es, tes, e)) => Some((es, tes)),
        None => None,
    }
}

/// The chain has a usable start: the final `startxref` names an
/// in-bounds offset at which a cross-reference section parses.
pub open spec fn sp_chain_starts(bytes: Seq<u8>) -> bool {
    &&& sp_startxref(bytes) matches Some(a)
    &&& sp_startxref(bytes)->Some_0 <= bytes.len()
    &&& sp_section_content(bytes, sp_startxref(bytes)->Some_0) is Some
}

/// The walked sections are exactly what the bytes declare: each one
/// parses at its recorded offset, the first is the one `startxref`
/// names, and consecutive sections are linked by `/Prev`.
pub open spec fn sections_linked(bytes: Seq<u8>, ss: Seq<XrefSection>) -> bool {
    &&& forall|k: int|
        0 <= k < ss.len() ==> (#[trigger] ss[k]).at <= bytes.len() && sp_section_content(
            bytes,
            ss[k].at as int,
        ) == Some((ss[k].entries.deep_view(), view_entries(ss[k].trailer, 0)))
    &&& (ss.len() > 0 ==> sp_startxref(bytes) == Some(ss[0].at as int))
    &&& forall|k: int|
        0 < k < ss.len() ==> sp_prev_of(view_entries((#[trigger] ss[k - 1]).trailer, 0)) == Some(
            ss[k].at as int,
        )
}

/// Reads the `/Prev` offset out of a parsed trailer.
fn read_prev(trailer: &Vec<DictEntry>) -> (r: Option<u64>)
    ensures
        match r {
            Some(p) => sp_prev_of(view_entries(*trailer, 0)) == Some(p as int),
            None => sp_prev_of(view_entries(*trailer, 0)) is None,
        },
{
    let pk: [u8; 4] = [0x50, 0x72, 0x65, 0x76];
    proof {
        assert(pk@ =~= key_prev());
        crate::parser::lemma_dict_get_view(*trailer, 0, key_prev());
        assert(trailer@.skip(0) =~= trailer@);
    }
    match crate::value::dict_get(trailer, pk.as_slice()) {
        Some(v) => match v {
            crate::value::PdfValue::Integer(p) => {
                if *p >= 0 {
                    Some(*p as u64)
                } else {
                    None
                }
            },
            _ => None,
        },
        None => None,
    }
}

/// Whether a vector holds the given value.
fn vec_contains_u64(v: &Vec<u64>, x: u64) -> (r: bool)
    ensures
        r == (exists|a: int| 0 <= a < v@.len() && v@[a] == x),
{
    let mut i: usize = 0;
    while i < v.len()
        invariant
            0 <= i <= v@.len(),
            forall|a: int| 0 <= a < i ==> v@[a] != x,
        decreases v@.len() - i,
    {
        if v[i] == x {
            assert(v@[i as int] == x);
            return true;
        }
        i = i + 1;
    }
    false
}

/// Tries to read an `n g obj` header at `pos`.
fn try_obj_header(bytes: &[u8], pos: usize) -> (r: Option<(u32, u16)>)
    requires
        pos <= bytes@.len(),
        bytes@.len() < usize::MAX - 4,
    ensures
        match r {
            Some((n, g)) => (sp_obj_header(bytes@, pos as int) matches Some((n2, g2, e)) && n2
                == n as int && g2 == g as int),
            None => sp_obj_header(bytes@, pos as int) is None,
        },
{
    let ko: [u8; 3] = [0x6f, 0x62, 0x6a];
    proof {
        assert(ko@ =~= kw_obj());
    }
    match next_token(bytes, pos) {
        Some((Token::Int(n), e1)) => {
            if !(n >= 0 && n <= 0xffff_ffffi64) {
                return None;
            }
            match next_token(bytes, e1) {
                Some((Token::Int(g), e2)) => {
                    if !(g >= 0 && g <= 0xffffi64) {
                        return None;
                    }
                    match next_token(bytes, e2) {
                        Some((Token::Word(w), _e3)) => {
                            if word_eq(&w, &ko) {
                                Some((n as u32, g as u16))
                            } else {
                                None
                            }
                        },
                        _ => None,
                    }
                },
                _ => None,
            }
        },
        _ => None,
    }
}

/// Walks the cross-reference chain from the final `startxref`
/// through each trailer's `/Prev`, newest section first. Stops on a
/// revisited offset (the second result is then true: a chain cycle,
/// itself an anomaly) or on an offset whose section does not parse.
/// Every returned section is exactly what the section grammar yields
/// at its offset, consecutive sections are linked by `/Prev`, a
/// usable chain start yields at least its first section, and absent
/// a cycle the walk stops only where the `/Prev` link is missing,
/// out of bounds, or does not parse.
pub fn walk_xref_chain(bytes: &[u8]) -> (r: (Vec<XrefSection>, bool))
    requires
        bytes@.len() < usize::MAX - 4,
    ensures
        sections_linked(bytes@, r.0@),
        r.0@.len() <= bytes@.len() + 1,
        sp_chain_starts(bytes@) ==> r.0@.len() > 0,
        !r.1 && 0 < r.0@.len() <= bytes@.len() ==> (match sp_prev_of(
            view_entries(r.0@[r.0@.len() - 1].trailer, 0),
        ) {
            None => true,
            Some(p) => p > bytes@.len() || sp_section_content(bytes@, p) is None,
        }),
{
    proof {
        reveal(sp_section_content);
    }
    let mut sections: Vec<XrefSection> = Vec::new();
    let mut seen: Vec<u64> = Vec::new();
    let mut fuel: usize = bytes.len() + 1;
    let mut next_at: Option<u64> = match read_startxref(bytes) {
        Some(off) => Some(off),
        None => None,
    };
    loop
        invariant
            bytes@.len() < usize::MAX - 4,
            forall|k: int|
                0 <= k < sections@.len() ==> (#[trigger] sections@[k]).at <= bytes@.len()
                    && sp_section_content(bytes@, sections@[k].at as int) == Some(
                    (sections@[k].entries.deep_view(), view_entries(sections@[k].trailer, 0)),
                ),
            sections@.len() > 0 ==> sp_startxref(bytes@) == Some(sections@[0].at as int),
            forall|k: int|
                0 < k < sections@.len() ==> sp_prev_of(
                    view_entries((#[trigger] sections@[k - 1]).trailer, 0),
                ) == Some(sections@[k].at as int),
            sections@.len() + fuel == bytes@.len() + 1,
            sections@.len() == 0 ==> seen@.len() == 0,
            match next_at {
                Some(a) => if sections@.len() == 0 {
                    sp_startxref(bytes@) == Some(a as int)
                } else {
                    sp_prev_of(view_entries(sections@[sections@.len() - 1].trailer, 0)) == Some(
                        a as int,
                    )
                },
                None => if sections@.len() == 0 {
                    sp_startxref(bytes@) is None
                } else {
                    sp_prev_of(view_entries(sections@[sections@.len() - 1].trailer, 0)) is None
                },
            },
        decreases fuel,
    {
        if fuel == 0 {
            proof {
                assert(sections@.len() == bytes@.len() + 1);
            }
            return (sections, false);
        }
        let at = match next_at {
            Some(a) => a,
            None => {
                return (sections, false);
            },
        };
        if at > bytes.len() as u64 {
            return (sections, false);
        }
        // A revisited offset means the `/Prev` chain loops.
        if vec_contains_u64(&seen, at) {
            return (sections, true);
        }
        fuel = fuel - 1;
        proof {
            reveal(sp_section_content);
        }
        seen.push(at);
        match parse_xref_section(bytes, at as usize) {
            Some((es, tes, _end)) => {
                let prev = read_prev(&tes);
                let sec = XrefSection { at, entries: es, trailer: tes };
                sections.push(sec);
                next_at = prev;
            },
            None => {
                return (sections, false);
            },
        }
    }
}

/// Entry views of each section, newest first.
pub open spec fn secviews(ss: Seq<XrefSection>) -> Seq<Seq<XrefEntryS>> {
    Seq::new(ss.len(), |i: int| ss[i].entries.deep_view())
}

/// First entry of one section for an object number.
pub open spec fn section_lookup(es: Seq<XrefEntryS>, n: int) -> Option<XrefEntryS>
    decreases es.len(),
{
    if es.len() == 0 {
        None
    } else if es[0].num == n {
        Some(es[0])
    } else {
        section_lookup(es.drop_first(), n)
    }
}

/// The authoritative entry for an object number: the first section
/// (newest first) that mentions it wins; later (older) sections are
/// shadowed.
pub open spec fn chain_lookup(ss: Seq<Seq<XrefEntryS>>, n: int) -> Option<XrefEntryS>
    decreases ss.len(),
{
    if ss.len() == 0 {
        None
    } else {
        match section_lookup(ss[0], n) {
            Some(e) => Some(e),
            None => chain_lookup(ss.drop_first(), n),
        }
    }
}

/// How many sections mention an object number.
pub open spec fn spec_containing_count(ss: Seq<Seq<XrefEntryS>>, n: int) -> int
    decreases ss.len(),
{
    if ss.len() == 0 {
        0
    } else {
        (if section_lookup(ss[0], n) is Some {
            1int
        } else {
            0int
        }) + spec_containing_count(ss.drop_first(), n)
    }
}

/// An object number is revision-shadowed when more than one section
/// of the chain mentions it: an incremental update has overridden an
/// earlier revision's entry.
pub open spec fn spec_shadowed(ss: Seq<Seq<XrefEntryS>>, n: int) -> bool {
    spec_containing_count(ss, n) >= 2
}

/// First entry of a section for `n`.
pub fn sec_lookup(es: &Vec<XrefEntry>, n: u32) -> (r: Option<XrefEntry>)
    ensures
        match r {
            Some(en) => section_lookup(es.deep_view(), n as int) == Some(en.deep_view()),
            None => section_lookup(es.deep_view(), n as int) is None,
        },
{
    let mut i: usize = 0;
    proof {
        assert(es.deep_view().skip(0) =~= es.deep_view());
    }
    while i < es.len()
        invariant
            0 <= i <= es@.len(),
            es.deep_view().len() == es@.len(),
            section_lookup(es.deep_view(), n as int) == section_lookup(
                es.deep_view().skip(i as int),
                n as int,
            ),
        decreases es@.len() - i,
    {
        proof {
            assert(es.deep_view().skip(i as int).drop_first() =~= es.deep_view().skip(i + 1));
            assert(es.deep_view().skip(i as int)[0] == es.deep_view()[i as int]);
        }
        if es[i].num == n {
            return Some(es[i]);
        }
        i = i + 1;
    }
    assert(es.deep_view().skip(i as int).len() == 0);
    None
}

/// The authoritative entry for `n` across the whole chain.
pub fn lookup_entry(sections: &Vec<XrefSection>, n: u32) -> (r: Option<XrefEntry>)
    ensures
        match r {
            Some(en) => chain_lookup(secviews(sections@), n as int) == Some(en.deep_view()),
            None => chain_lookup(secviews(sections@), n as int) is None,
        },
{
    let mut i: usize = 0;
    proof {
        assert(secviews(sections@).skip(0) =~= secviews(sections@));
    }
    while i < sections.len()
        invariant
            0 <= i <= sections@.len(),
            secviews(sections@).len() == sections@.len(),
            chain_lookup(secviews(sections@), n as int) == chain_lookup(
                secviews(sections@).skip(i as int),
                n as int,
            ),
        decreases sections@.len() - i,
    {
        proof {
            assert(secviews(sections@).skip(i as int).drop_first() =~= secviews(sections@).skip(
                i + 1,
            ));
            assert(secviews(sections@).skip(i as int)[0] == secviews(sections@)[i as int]);
        }
        match sec_lookup(&sections[i].entries, n) {
            Some(en) => {
                return Some(en);
            },
            None => {},
        }
        i = i + 1;
    }
    assert(secviews(sections@).skip(i as int).len() == 0);
    None
}

/// How many sections mention `n`.
pub fn count_containing(sections: &Vec<XrefSection>, n: u32) -> (r: u64)
    ensures
        r == spec_containing_count(secviews(sections@), n as int),
{
    let mut i: usize = 0;
    let mut c: u64 = 0;
    proof {
        assert(secviews(sections@).skip(0) =~= secviews(sections@));
    }
    while i < sections.len()
        invariant
            0 <= i <= sections@.len(),
            c <= i,
            secviews(sections@).len() == sections@.len(),
            c + spec_containing_count(secviews(sections@).skip(i as int), n as int)
                == spec_containing_count(secviews(sections@), n as int),
        decreases sections@.len() - i,
    {
        proof {
            assert(secviews(sections@).skip(i as int).drop_first() =~= secviews(sections@).skip(
                i + 1,
            ));
            assert(secviews(sections@).skip(i as int)[0] == secviews(sections@)[i as int]);
        }
        match sec_lookup(&sections[i].entries, n) {
            Some(_) => {
                c = c + 1;
            },
            None => {},
        }
        i = i + 1;
    }
    assert(secviews(sections@).skip(i as int).len() == 0);
    c
}

/// A successful section lookup yields a member of the section that
/// carries the looked-up number.
pub proof fn lemma_section_lookup_mem(es: Seq<XrefEntryS>, n: int)
    ensures
        section_lookup(es, n) matches Some(e) ==> exists|j: int|
            0 <= j < es.len() && es[j] == e && e.num == n,
    decreases es.len(),
{
    if es.len() > 0 && es[0].num != n {
        lemma_section_lookup_mem(es.drop_first(), n);
        if section_lookup(es, n) is Some {
            let e = section_lookup(es, n)->Some_0;
            let j0 = choose|j: int|
                0 <= j < es.drop_first().len() && es.drop_first()[j] == e && e.num == n;
            assert(es[j0 + 1] == e);
        }
    }
}

/// A section that mentions a number yields an entry for it.
pub proof fn lemma_mentioned_section_lookup(es: Seq<XrefEntryS>, n: int)
    requires
        exists|j: int| 0 <= j < es.len() && (#[trigger] es[j]).num == n,
    ensures
        section_lookup(es, n) is Some,
    decreases es.len(),
{
    if es[0].num != n {
        let j0 = choose|j: int| 0 <= j < es.len() && (#[trigger] es[j]).num == n;
        assert(es.drop_first()[j0 - 1].num == n);
        lemma_mentioned_section_lookup(es.drop_first(), n);
    }
}

/// A successful chain lookup carries the looked-up number.
pub proof fn lemma_chain_lookup_num(ss: Seq<Seq<XrefEntryS>>, n: int)
    ensures
        chain_lookup(ss, n) matches Some(e) ==> e.num == n,
    decreases ss.len(),
{
    if ss.len() > 0 {
        lemma_section_lookup_mem(ss[0], n);
        lemma_chain_lookup_num(ss.drop_first(), n);
    }
}

/// A chain that mentions a number yields an authoritative entry for
/// it.
pub proof fn lemma_mentioned_chain_lookup(ss: Seq<Seq<XrefEntryS>>, si: int, n: int)
    requires
        0 <= si < ss.len(),
        exists|j: int| 0 <= j < ss[si].len() && (#[trigger] ss[si][j]).num == n,
    ensures
        chain_lookup(ss, n) is Some,
    decreases ss.len(),
{
    if si == 0 {
        lemma_mentioned_section_lookup(ss[0], n);
    } else if section_lookup(ss[0], n) is None {
        assert(ss.drop_first()[si - 1] == ss[si]);
        lemma_mentioned_chain_lookup(ss.drop_first(), si - 1, n);
    }
}

/// A successful chain lookup yields a member of some section.
pub proof fn lemma_chain_lookup_mem(ss: Seq<Seq<XrefEntryS>>, n: int)
    ensures
        chain_lookup(ss, n) matches Some(e) ==> exists|si: int, j: int|
            0 <= si < ss.len() && 0 <= j < ss[si].len() && #[trigger] ss[si][j] == e,
    decreases ss.len(),
{
    if ss.len() > 0 {
        if section_lookup(ss[0], n) is Some {
            lemma_section_lookup_mem(ss[0], n);
            if chain_lookup(ss, n) is Some {
                let e = chain_lookup(ss, n)->Some_0;
                let j0 = choose|j: int| 0 <= j < ss[0].len() && ss[0][j] == e && e.num == n;
                assert(ss[0][j0] == e);
            }
        } else {
            lemma_chain_lookup_mem(ss.drop_first(), n);
            if chain_lookup(ss, n) is Some {
                let e = chain_lookup(ss, n)->Some_0;
                let (si0, j0): (int, int) = choose|si: int, j: int|
                    0 <= si < ss.drop_first().len() && 0 <= j < ss.drop_first()[si].len()
                        && #[trigger] ss.drop_first()[si][j] == e;
                assert(ss[si0 + 1][j0] == e);
            }
        }
    }
}

/// Whether a position starts `n g obj`: a digit on a token boundary
/// from which an object header parses.
pub open spec fn spec_obj_at(bytes: Seq<u8>, p: int) -> bool {
    &&& 0 <= p < bytes.len()
    &&& crate::lexer::is_digit_byte(bytes[p])
    &&& (p == 0 || !crate::lexer::is_regular_byte(bytes[p - 1]))
    &&& sp_obj_header(bytes, p) is Some
}

/// A reconstructed entry is sound: its offset starts an object
/// header whose numbers the entry carries.
pub open spec fn scan_entry_ok(bytes: Seq<u8>, en: XrefEntryS) -> bool {
    &&& spec_obj_at(bytes, en.off)
    &&& en.in_use
    &&& (sp_obj_header(bytes, en.off) matches Some((n, g, e)) && n == en.num && g == en.gen)
}

/// Brute-force reconstruction: scans the whole input for `n g obj`
/// headers and yields one in-use entry per header. This is the
/// fallback when the cross-reference table is missing or corrupt;
/// using it is itself recorded as an anomaly by the caller. The
/// result is sound (every entry points at a real header) and
/// complete (every header position is listed).
#[verifier::rlimit(100)]
pub fn scan_objects(bytes: &[u8]) -> (r: Vec<XrefEntry>)
    requires
        bytes@.len() < usize::MAX - 4,
    ensures
        forall|k: int| 0 <= k < r@.len() ==> scan_entry_ok(bytes@, (#[trigger] r@[k]).deep_view()),
        forall|p: int| 0 <= p < bytes@.len() && spec_obj_at(bytes@, p) ==> exists|k: int|
            0 <= k < r@.len() && (#[trigger] r@[k]).off == p,
{
    let mut out: Vec<XrefEntry> = Vec::new();
    let mut p: usize = 0;
    while p < bytes.len()
        invariant
            0 <= p <= bytes@.len(),
            bytes@.len() < usize::MAX - 4,
            forall|k: int|
                0 <= k < out@.len() ==> scan_entry_ok(bytes@, (#[trigger] out@[k]).deep_view()),
            forall|q: int| 0 <= q < p && spec_obj_at(bytes@, q) ==> exists|k: int|
                0 <= k < out@.len() && (#[trigger] out@[k]).off == q,
        decreases bytes@.len() - p,
    {
        let ghost out_before = out@;
        let b = bytes[p];
        let boundary = p == 0 || !crate::lexer::byte_is_regular(bytes[p - 1]);
        let mut pushed = false;
        if b >= 0x30 && b <= 0x39 && boundary {
            match try_obj_header(bytes, p) {
                Some((n, g)) => {
                    let en = XrefEntry { num: n, off: p as u64, gen: g, in_use: true };
                    proof {
                        assert(scan_entry_ok(bytes@, en.deep_view()));
                    }
                    out.push(en);
                    pushed = true;
                    proof {
                        assert(out@[out@.len() - 1].off == p);
                    }
                },
                None => {
                    proof {
                        assert(!spec_obj_at(bytes@, p as int));
                    }
                },
            }
        } else {
            proof {
                assert(!spec_obj_at(bytes@, p as int));
            }
        }
        proof {
            assert(forall|k: int|
                0 <= k < out_before.len() ==> out@[k] == out_before[k]);
            assert(spec_obj_at(bytes@, p as int) ==> exists|k: int|
                0 <= k < out@.len() && (#[trigger] out@[k]).off == p);
        }
        p = p + 1;
    }
    out
}

} // verus!
