//! The analyzer: document assembly from the cross-reference chain
//! (or the brute-force fallback), and the forensic classification
//! pass over the object graph.

use vstd::prelude::*;

use crate::parser::{
    parse_indirect, sp_indirect, sval_dict_get, view_entries, view_value, ValueS,
};
use crate::report::{make_anomaly, Anomaly, AnomalyKind};
use crate::value::{DictEntry, ObjectId, PdfValue};
use crate::xref::{
    chain_lookup, count_containing, lookup_entry, secviews, spec_shadowed, walk_xref_chain,
    XrefEntry, XrefSection,
};

verus! {

broadcast use vstd::std_specs::vec::axiom_vec_index_decreases;

/// The characters of an ASCII byte string.
pub open spec fn chars_of(s: Seq<u8>) -> Seq<char> {
    Seq::new(s.len(), |i: int| s[i] as char)
}

/// Relies on String::from_utf8_lossy: ASCII bytes come back as the
/// same characters, one per byte.
#[verifier::external_body]
pub fn ascii_string(b: &[u8]) -> (r: String)
    ensures
        (forall|i: int| 0 <= i < b@.len() ==> b@[i] < 128) ==> r@ == chars_of(b@),
{
    String::from_utf8_lossy(b).into_owned()
}

/// The ASCII-lossy projection of bytes to characters: each byte
/// below 128 is its own character, anything else becomes `?`. This
/// is the library's one text projection; it is total and exact, so
/// every string the analysis emits is pinned by it.
pub open spec fn ascii_chars(s: Seq<u8>) -> Seq<char> {
    Seq::new(
        s.len(),
        |i: int|
            if s[i] < 128 {
                s[i] as char
            } else {
                '?'
            },
    )
}

/// Projects bytes to text, byte for byte; non-ASCII bytes become
/// `?`.
pub fn lossy_string(b: &[u8]) -> (r: String)
    ensures
        r@ == ascii_chars(b@),
{
    let mut v: Vec<u8> = Vec::new();
    let mut i: usize = 0;
    while i < b.len()
        invariant
            0 <= i <= b@.len(),
            v@.len() == i,
            forall|q: int|
                0 <= q < i ==> #[trigger] v@[q] == (if b@[q] < 128 {
                    b@[q]
                } else {
                    0x3fu8
                }),
        decreases b@.len() - i,
    {
        let x = b[i];
        v.push(if x < 128 { x } else { 0x3f });
        i = i + 1;
    }
    let r = ascii_string(v.as_slice());
    proof {
        assert(forall|q: int| 0 <= q < v@.len() ==> v@[q] < 128);
        assert(r@ =~= ascii_chars(b@));
    }
    r
}

/// How severities are assigned; parsing never depends on it.
#[derive(Clone, Copy, PartialEq, Eq, Structural, Debug)]
pub enum SecurityLevel {
    Low,
    Medium,
    High,
    Paranoid,
}

#[derive(Clone, Copy, PartialEq, Eq, Structural, Debug)]
pub enum OutputFormat {
    Text,
    Json,
    Detailed,
}

/// Analysis configuration: depth bounds action-chain following for
/// script detection, the thread count budgets the classification
/// fan-out, and the security level only shifts anomaly severities.
#[derive(Clone, Debug)]
pub struct Config {
    pub analysis_depth: u8,
    pub security_level: SecurityLevel,
    pub output_format: OutputFormat,
    pub thread_count: usize,
    pub temp_dir: String,
}

impl Default for Config {
    /// Depth two, medium severity thresholds, text output, one
    /// worker per CPU. The scratch directory is left for the caller
    /// to fill in, since the library itself touches no environment.
    fn default() -> (r: Config)
        ensures
            r.analysis_depth == 2,
            r.security_level == SecurityLevel::Medium,
            r.output_format == OutputFormat::Text,
            r.thread_count >= 1,
            r.temp_dir@.len() == 0,
    {
        Config {
            analysis_depth: 2,
            security_level: SecurityLevel::Medium,
            output_format: OutputFormat::Text,
            thread_count: crate::utils::cpu_count(),
            temp_dir: String::new(),
        }
    }
}

/// Library-level error: document-scoped failures only.
#[derive(Clone, Debug)]
pub enum PdxError {
    Io(String),
    Pdf(String),
    Analysis(String),
    Security(String),
    Config(String),
    Processing(String),
}

/// One live object: its id, the byte span it was parsed from, its
/// value, and whether its stream length was mismatched.
pub struct LoadedObject {
    pub id: ObjectId,
    pub off: u64,
    pub end: u64,
    pub value: PdfValue,
    pub len_mismatch: bool,
}

/// A loaded object is sound: parsing at its offset yields exactly
/// its id, value and mismatch flag, and its span lies in the file.
#[verifier::opaque]
pub open spec fn object_sound(bytes: Seq<u8>, ob: LoadedObject) -> bool {
    &&& ob.off <= ob.end <= bytes.len()
    &&& sp_indirect(bytes, ob.off as int) == Some(
        (
            ob.id.number as int,
            ob.id.generation as int,
            view_value(ob.value),
            ob.len_mismatch,
            ob.end as int,
        ),
    )
}

/// The resolved, in-memory document: the effective revision's live
/// objects in id order, the newest trailer, and every anomaly the
/// earlier stages raised.
pub struct Document {
    pub bytes: Vec<u8>,
    pub version: Vec<u8>,
    pub objects: Vec<LoadedObject>,
    pub trailer: Vec<DictEntry>,
    pub sections: Vec<XrefSection>,
    pub reconstructed: bool,
    pub anomalies: Vec<Anomaly>,
}

/// The anomaly list records an anomaly of the given kind.
pub open spec fn has_anomaly(anoms: Seq<Anomaly>, kind: AnomalyKind) -> bool {
    exists|j: int| 0 <= j < anoms.len() && (#[trigger] anoms[j]).kind == kind
}

/// The anomaly list records a length mismatch for the given object.
pub open spec fn has_len_mismatch_anomaly(anoms: Seq<Anomaly>, num: u32, gen: u16) -> bool {
    exists|j: int|
        0 <= j < anoms.len() && (#[trigger] anoms[j]).kind == AnomalyKind::LengthMismatch(
            num,
            gen,
        )
}

/// Document well-formedness: every object is sound against the
/// bytes, ids are strictly ordered (hence unique), and every
/// stream-length mismatch is recorded in the anomaly list.
pub open spec fn document_wf(doc: Document) -> bool {
    &&& forall|k: int|
        0 <= k < doc.objects@.len() ==> object_sound(doc.bytes@, #[trigger] doc.objects@[k])
    &&& forall|a: int, b: int|
        0 <= a < b < doc.objects@.len() ==> doc.objects@[a].id.spec_key()
            < doc.objects@[b].id.spec_key()
    &&& forall|k: int|
        0 <= k < doc.objects@.len() && (#[trigger] doc.objects@[k]).len_mismatch
            ==> has_len_mismatch_anomaly(
            doc.anomalies@,
            doc.objects@[k].id.number,
            doc.objects@[k].id.generation,
        )
}

/// The version bytes a PDF header declares (`%PDF-` and the run of
/// regular bytes after it).
pub open spec fn spec_pdf_version(bytes: Seq<u8>) -> Option<Seq<u8>> {
    if bytes.len() >= 5 && bytes.subrange(0, 5) == seq![0x25u8, 0x50u8, 0x44u8, 0x46u8, 0x2du8] {
        Some(bytes.subrange(5, crate::lexer::spec_scan_regular(bytes, 5)))
    } else {
        None
    }
}

/// Reads the header's version bytes; `None` when the input does not
/// begin with `%PDF-`.
pub fn read_version(bytes: &[u8]) -> (r: Option<Vec<u8>>)
    requires
        bytes@.len() < usize::MAX - 4,
    ensures
        match r {
            Some(v) => spec_pdf_version(bytes@) == Some(v@),
            None => spec_pdf_version(bytes@) is None,
        },
{
    if bytes.len() >= 5 && bytes[0] == 0x25 && bytes[1] == 0x50 && bytes[2] == 0x44 && bytes[3]
        == 0x46 && bytes[4] == 0x2d {
        proof {
            assert(bytes@.subrange(0, 5) =~= seq![0x25u8, 0x50u8, 0x44u8, 0x46u8, 0x2du8]);
        }
        let end = crate::lexer::scan_regular(bytes, 5);
        Some(vstd::slice::slice_to_vec(vstd::slice::slice_subrange(bytes, 5, end)))
    } else {
        None
    }
}

/// Sorts id keys ascending. The result is sorted and holds exactly
/// the input's values (same members, same length); on distinct
/// inputs it is the sorted permutation.
fn sort_keys(input: &Vec<u64>) -> (r: Vec<u64>)
    ensures
        r@.len() == input@.len(),
        forall|a: int, b: int| 0 <= a < b < r@.len() ==> r@[a] <= r@[b],
        forall|x: u64| r@.contains(x) <==> input@.contains(x),
{
    let mut out: Vec<u64> = Vec::new();
    let mut i: usize = 0;
    proof {
        assert(input@.take(0) =~= Seq::<u64>::empty());
    }
    while i < input.len()
        invariant
            0 <= i <= input@.len(),
            out@.len() == i,
            forall|a: int, b: int| 0 <= a < b < out@.len() ==> out@[a] <= out@[b],
            forall|x: u64| out@.contains(x) <==> input@.take(i as int).contains(x),
        decreases input@.len() - i,
    {
        let x = input[i];
        // Find the first position whose value exceeds `x`.
        let mut p: usize = 0;
        while p < out.len() && out[p] <= x
            invariant
                0 <= p <= out@.len(),
                forall|j: int| 0 <= j < p ==> out@[j] <= x,
            decreases out@.len() - p,
        {
            p = p + 1;
        }
        let ghost old_out = out@;
        out.insert(p, x);
        proof {
            assert(out@ == old_out.insert(p as int, x));
            assert(input@.take(i + 1).drop_last() =~= input@.take(i as int));
            assert(input@.take(i + 1).last() == input@[i as int]);
            assert(out@.contains(x)) by {
                assert(out@[p as int] == x);
            }
            assert forall|y: u64| out@.contains(y) implies input@.take(i + 1).contains(y) by {
                let w = choose|w: int| 0 <= w < out@.len() && out@[w] == y;
                if w == p {
                    assert(input@.take(i + 1)[i as int] == x);
                } else if w < p {
                    assert(old_out[w] == y);
                    assert(old_out.contains(y));
                } else {
                    assert(old_out[w - 1] == y);
                    assert(old_out.contains(y));
                }
            }
            assert forall|y: u64| input@.take(i + 1).contains(y) implies out@.contains(y) by {
                if y == input@[i as int] {
                    assert(out@[p as int] == x);
                } else {
                    assert(input@.take(i as int).contains(y));
                    assert(old_out.contains(y));
                    let w = choose|w: int| 0 <= w < old_out.len() && old_out[w] == y;
                    if w < p {
                        assert(out@[w] == y);
                    } else {
                        assert(out@[w + 1] == y);
                    }
                }
            }
        }
        i = i + 1;
    }
    proof {
        assert(input@.take(i as int) =~= input@);
    }
    out
}

/// Decimal digits of a number, most significant first.
pub open spec fn spec_dec_of(n: int) -> Seq<u8>
    decreases n,
{
    if n <= 0 {
        Seq::empty()
    } else {
        spec_dec_of(n / 10) + seq![(0x30 + (n % 10)) as u8]
    }
}

pub open spec fn spec_dec_str(n: int) -> Seq<u8> {
    if n == 0 {
        seq![0x30u8]
    } else {
        spec_dec_of(n)
    }
}

pub proof fn lemma_dec_of_ascii(n: int)
    ensures
        forall|i: int|
            0 <= i < spec_dec_of(n).len() ==> 0x30 <= #[trigger] spec_dec_of(n)[i] <= 0x39,
    decreases n,
{
    if n > 0 {
        lemma_dec_of_ascii(n / 10);
        assert forall|i: int| 0 <= i < spec_dec_of(n).len() implies 0x30 <= #[trigger] spec_dec_of(
            n,
        )[i] <= 0x39 by {
            if i < spec_dec_of(n).len() - 1 {
                assert(spec_dec_of(n)[i] == spec_dec_of(n / 10)[i]);
            } else {
                assert(spec_dec_of(n)[i] == (0x30 + (n % 10)) as u8);
            }
        }
    }
}

/// The decimal digits of `n`.
pub fn dec_str(n: u64) -> (r: Vec<u8>)
    ensures
        r@ == spec_dec_str(n as int),
        forall|i: int| 0 <= i < r@.len() ==> 0x30 <= #[trigger] r@[i] <= 0x39,
{
    proof {
        lemma_dec_of_ascii(n as int);
    }
    if n == 0 {
        let mut out: Vec<u8> = Vec::new();
        out.push(0x30);
        proof {
            assert(out@ =~= seq![0x30u8]);
        }
        return out;
    }
    let mut rev: Vec<u8> = Vec::new();
    let mut m: u64 = n;
    while m > 0
        invariant
            spec_dec_of(n as int) == spec_dec_of(m as int) + rev@.reverse(),
        decreases m,
    {
        let d: u8 = (m % 10) as u8;
        let ghost old_rev = rev@;
        rev.push(0x30 + d);
        m = m / 10;
        proof {
            assert(rev@.reverse() =~= seq![(0x30 + (d as int)) as u8] + old_rev.reverse());
            assert(spec_dec_of(m as int) + (seq![(0x30 + (d as int)) as u8] + old_rev.reverse())
                =~= (spec_dec_of(m as int) + seq![(0x30 + (d as int)) as u8])
                + old_rev.reverse());
        }
    }
    proof {
        assert(spec_dec_of(0) + rev@.reverse() =~= rev@.reverse());
    }
    let mut out: Vec<u8> = Vec::new();
    let mut i: usize = rev.len();
    while i > 0
        invariant
            0 <= i <= rev@.len(),
            out@ =~= rev@.subrange(i as int, rev@.len() as int).reverse(),
        decreases i,
    {
        i = i - 1;
        let ghost old_out = out@;
        out.push(rev[i]);
        proof {
            assert(rev@.subrange(i as int, rev@.len() as int).reverse() =~= old_out.push(
                rev@[i as int],
            ));
        }
    }
    proof {
        assert(rev@.subrange(0, rev@.len() as int) =~= rev@);
    }
    out
}

/// `num generation` as digits with a space, identifying an object in
/// reports.
pub open spec fn spec_id_bytes(num: int, gen: int) -> Seq<u8> {
    spec_dec_str(num) + seq![0x20u8] + spec_dec_str(gen)
}

pub fn id_string(id: ObjectId) -> (r: String)
    ensures
        r@ == chars_of(spec_id_bytes(id.number as int, id.generation as int)),
{
    let mut b = dec_str(id.number as u64);
    b.push(0x20);
    let mut g = dec_str(id.generation as u64);
    let ghost bb = b@;
    b.append(&mut g);
    proof {
        assert(b@ =~= spec_id_bytes(id.number as int, id.generation as int));
        assert(forall|i: int| 0 <= i < b@.len() ==> b@[i] < 128);
    }
    ascii_string(b.as_slice())
}

/// Dictionary keys and name values the classifier reads.
pub open spec fn key_type() -> Seq<u8> {
    seq![0x54u8, 0x79u8, 0x70u8, 0x65u8]
}

pub open spec fn key_subtype() -> Seq<u8> {
    seq![0x53u8, 0x75u8, 0x62u8, 0x74u8, 0x79u8, 0x70u8, 0x65u8]
}

pub open spec fn key_s() -> Seq<u8> {
    seq![0x53u8]
}

pub open spec fn key_root() -> Seq<u8> {
    seq![0x52u8, 0x6fu8, 0x6fu8, 0x74u8]
}

pub open spec fn key_info() -> Seq<u8> {
    seq![0x49u8, 0x6eu8, 0x66u8, 0x6fu8]
}

pub open spec fn key_encrypt() -> Seq<u8> {
    seq![0x45u8, 0x6eu8, 0x63u8, 0x72u8, 0x79u8, 0x70u8, 0x74u8]
}

pub open spec fn key_open_action() -> Seq<u8> {
    seq![0x4fu8, 0x70u8, 0x65u8, 0x6eu8, 0x41u8, 0x63u8, 0x74u8, 0x69u8, 0x6fu8, 0x6eu8]
}

pub open spec fn name_javascript() -> Seq<u8> {
    seq![0x4au8, 0x61u8, 0x76u8, 0x61u8, 0x53u8, 0x63u8, 0x72u8, 0x69u8, 0x70u8, 0x74u8]
}

pub open spec fn name_page() -> Seq<u8> {
    seq![0x50u8, 0x61u8, 0x67u8, 0x65u8]
}

pub open spec fn name_image() -> Seq<u8> {
    seq![0x49u8, 0x6du8, 0x61u8, 0x67u8, 0x65u8]
}

pub open spec fn name_sig() -> Seq<u8> {
    seq![0x53u8, 0x69u8, 0x67u8]
}

pub open spec fn name_embedded_file() -> Seq<u8> {
    seq![
        0x45u8,
        0x6du8,
        0x62u8,
        0x65u8,
        0x64u8,
        0x64u8,
        0x65u8,
        0x64u8,
        0x46u8,
        0x69u8,
        0x6cu8,
        0x65u8,
    ]
}

pub open spec fn name_filespec() -> Seq<u8> {
    seq![0x46u8, 0x69u8, 0x6cu8, 0x65u8, 0x73u8, 0x70u8, 0x65u8, 0x63u8]
}

pub open spec fn key_width() -> Seq<u8> {
    seq![0x57u8, 0x69u8, 0x64u8, 0x74u8, 0x68u8]
}

pub open spec fn key_height() -> Seq<u8> {
    seq![0x48u8, 0x65u8, 0x69u8, 0x67u8, 0x68u8, 0x74u8]
}

pub open spec fn key_filter() -> Seq<u8> {
    seq![0x46u8, 0x69u8, 0x6cu8, 0x74u8, 0x65u8, 0x72u8]
}

/// The dictionary entries of a value, if it is a dictionary or a
/// stream.
pub open spec fn spec_dict_of(v: ValueS) -> Option<Seq<(Seq<u8>, ValueS)>> {
    match v {
        ValueS::Dict(es) => Some(es),
        ValueS::Stream(es, _) => Some(es),
        _ => None,
    }
}

/// A dictionary or stream whose `key` entry is the name `val`.
pub open spec fn has_name_entry(v: ValueS, key: Seq<u8>, val: Seq<u8>) -> bool {
    match spec_dict_of(v) {
        Some(es) => sval_dict_get(es, key) == Some(ValueS::Name(val)),
        None => false,
    }
}

/// A JavaScript action object: its `/S` entry names `JavaScript`.
pub open spec fn is_js_object(v: ValueS) -> bool {
    has_name_entry(v, key_s(), name_javascript())
}

/// An image: `/Subtype /Image`.
pub open spec fn is_image_object(v: ValueS) -> bool {
    has_name_entry(v, key_subtype(), name_image())
}

/// A page object: `/Type /Page`.
pub open spec fn is_page_object(v: ValueS) -> bool {
    has_name_entry(v, key_type(), name_page())
}

/// A signature dictionary: `/Type /Sig`.
pub open spec fn is_sig_object(v: ValueS) -> bool {
    has_name_entry(v, key_type(), name_sig())
}

/// An embedded file or file specification.
pub open spec fn is_embedded_file_object(v: ValueS) -> bool {
    has_name_entry(v, key_type(), name_embedded_file()) || has_name_entry(
        v,
        key_type(),
        name_filespec(),
    )
}

/// Tests whether an object's dictionary maps `key` to the name
/// `val`.
pub fn has_name_entry_exec(v: &PdfValue, key: &[u8], val: &[u8]) -> (r: bool)
    ensures
        r == has_name_entry(view_value(*v), key@, val@),
{
    let es: &Vec<DictEntry> = match v {
        PdfValue::Dict(es) => es,
        PdfValue::Stream(es, _) => es,
        _ => {
            return false;
        },
    };
    proof {
        crate::parser::lemma_dict_get_view(*es, 0, key@);
        assert(es@.skip(0) =~= es@);
    }
    match crate::value::dict_get(es, key) {
        Some(PdfValue::Name(nm)) => crate::value::bytes_eq(nm.as_slice(), val),
        _ => false,
    }
}

/// Per-object classification record.
#[derive(Debug)]
pub struct ObjectInfo {
    pub id: (u32, u16),
    pub kind_name: String,
    pub size: usize,
    pub hash: String,
}

/// One JavaScript-bearing object.
#[derive(Debug)]
pub struct JavaScriptInfo {
    pub location: String,
    pub size: usize,
    pub hash: String,
    pub suspicious: bool,
}

/// One inventoried image.
#[derive(Debug)]
pub struct ImageInfo {
    pub id: String,
    pub format: String,
    pub dimensions: (u32, u32),
    pub size: usize,
    pub hash: String,
}

/// One detected signature dictionary; cryptographic validation is
/// out of scope, so `valid` is never claimed.
#[derive(Debug)]
pub struct SignatureInfo {
    pub kind_name: String,
    pub issuer: String,
    pub valid: bool,
    pub timestamp: i64,
}

/// Declared encryption parameters; no key derivation is attempted.
#[derive(Debug)]
pub struct EncryptionInfo {
    pub method: String,
    pub strength: u16,
    pub encrypted_metadata: bool,
}

/// What the analysis cache remembers besides the full result.
#[derive(Debug)]
pub struct CachedData {
    pub hash: String,
    pub timestamp: i64,
    pub metadata: Vec<(String, String)>,
}

/// The aggregate output of one analysis run; immutable once built.
#[derive(Debug)]
pub struct PdfAnalysis {
    pub version: String,
    pub page_count: u32,
    pub metadata: Vec<(String, String)>,
    pub objects: Vec<ObjectInfo>,
    pub javascript: Vec<JavaScriptInfo>,
    pub images: Vec<ImageInfo>,
    pub signatures: Vec<SignatureInfo>,
    pub embedded_files: Vec<String>,
    pub encryption: Option<EncryptionInfo>,
    pub timestamp: i64,
    pub anomalies: Vec<Anomaly>,
    pub fingerprint: String,
}

/// An object number occurs in some section of the chain.
pub open spec fn num_in_sections(ss: Seq<XrefSection>, n: int) -> bool {
    exists|si: int, ej: int|
        0 <= si < ss.len() && 0 <= ej < ss[si].entries@.len() && (#[trigger] ss[si].entries@[ej].num)
            == n
}

/// Collects every object number the chain mentions, each once.
fn collect_nums(sections: &Vec<XrefSection>) -> (r: Vec<u64>)
    ensures
        forall|a: int, b: int| 0 <= a < b < r@.len() ==> r@[a] != r@[b],
        forall|x: u64| r@.contains(x) ==> num_in_sections(sections@, x as int),
        forall|n: int| num_in_sections(sections@, n) ==> r@.contains(n as u64),
{
    let mut out: Vec<u64> = Vec::new();
    let mut si: usize = 0;
    while si < sections.len()
        invariant
            0 <= si <= sections@.len(),
            forall|a: int, b: int| 0 <= a < b < out@.len() ==> out@[a] != out@[b],
            forall|x: u64| out@.contains(x) ==> num_in_sections(sections@, x as int),
            forall|s2: int, e2: int|
                0 <= s2 < si && 0 <= e2 < sections@[s2].entries@.len() ==> out@.contains(
                    ((#[trigger] sections@[s2].entries@[e2]).num) as u64,
                ),
        decreases sections@.len() - si,
    {
        let es = &sections[si].entries;
        let mut ej: usize = 0;
        while ej < es.len()
            invariant
                0 <= si < sections@.len(),
                0 <= ej <= es@.len(),
                es == &sections@[si as int].entries,
                forall|a: int, b: int| 0 <= a < b < out@.len() ==> out@[a] != out@[b],
                forall|x: u64| out@.contains(x) ==> num_in_sections(sections@, x as int),
                forall|s2: int, e2: int|
                    0 <= s2 < si && 0 <= e2 < sections@[s2].entries@.len() ==> out@.contains(
                        ((#[trigger] sections@[s2].entries@[e2]).num) as u64,
                    ),
                forall|e2: int|
                    0 <= e2 < ej ==> out@.contains(
                        ((#[trigger] sections@[si as int].entries@[e2]).num) as u64,
                    ),
            decreases es@.len() - ej,
        {
            let n = es[ej].num as u64;
            let mut present = false;
            let mut k: usize = 0;
            while k < out.len()
                invariant
                    0 <= k <= out@.len(),
                    present == exists|a: int| 0 <= a < k && out@[a] == n,
                decreases out@.len() - k,
            {
                if out[k] == n {
                    present = true;
                    proof {
                        assert(out@[k as int] == n);
                    }
                    k = out.len();
                } else {
                    k = k + 1;
                }
            }
            if !present {
                let ghost old_out = out@;
                out.push(n);
                proof {
                    assert(out@[out@.len() - 1] == n);
                    assert forall|x: u64| old_out.contains(x) implies out@.contains(x) by {
                        let w = choose|w: int| 0 <= w < old_out.len() && old_out[w] == x;
                        assert(out@[w] == x);
                    }
                    assert(num_in_sections(sections@, n as int)) by {
                        assert(sections@[si as int].entries@[ej as int].num == n);
                    }
                }
            } else {
                proof {
                    assert(out@.contains(n));
                }
            }
            proof {
                assert(out@.contains(n));
            }
            ej = ej + 1;
        }
        si = si + 1;
    }
    proof {
        assert forall|n: int| num_in_sections(sections@, n) implies out@.contains(n as u64) by {
            let (s2, e2): (int, int) = choose|s2: int, e2: int|
                0 <= s2 < sections@.len() && 0 <= e2 < sections@[s2].entries@.len() && (
                #[trigger] sections@[s2].entries@[e2].num) == n;
            assert(out@.contains((sections@[s2].entries@[e2].num) as u64));
        }
    }
    out
}

/// An authoritative entry that yields a live object: it is in use,
/// its offset is inside the file, and an indirect object carrying
/// the entry's own number parses there.
pub open spec fn entry_yields_object(bytes: Seq<u8>, en: crate::xref::XrefEntryS) -> bool {
    &&& en.in_use
    &&& 0 <= en.off < bytes.len()
    &&& (sp_indirect(bytes, en.off) matches Some((n, g, v, mm, end)) && n == en.num)
}

/// The object is backed by one of the authoritative entries: in
/// use, at exactly the object's offset, under the object's number.
pub open spec fn object_authorized(auth: Seq<XrefEntry>, ob: LoadedObject) -> bool {
    exists|j: int|
        0 <= j < auth.len() && ob.id.number == (#[trigger] auth[j]).num && auth[j].in_use
            && auth[j].off == ob.off
}

/// Loads every in-use authoritative entry's object, in ascending id
/// order, recording an anomaly for every entry that yields none.
/// Every loaded object is backed by an in-use entry at its own
/// offset (authority), and every entry that yields an object has
/// that object loaded (completeness).
#[verifier::rlimit(100)]
fn load_objects(bytes: &[u8], auth: &Vec<XrefEntry>, paranoid: bool) -> (r: (
    Vec<LoadedObject>,
    Vec<Anomaly>,
))
    requires
        bytes@.len() < usize::MAX - 8,
        forall|a: int, b: int| 0 <= a < b < auth@.len() ==> auth@[a].num != auth@[b].num,
    ensures
        forall|k: int| 0 <= k < r.0@.len() ==> object_sound(bytes@, #[trigger] r.0@[k]),
        forall|a: int, b: int|
            0 <= a < b < r.0@.len() ==> r.0@[a].id.spec_key() < r.0@[b].id.spec_key(),
        forall|k: int|
            0 <= k < r.0@.len() && (#[trigger] r.0@[k]).len_mismatch ==> has_len_mismatch_anomaly(
                r.1@,
                r.0@[k].id.number,
                r.0@[k].id.generation,
            ),
        forall|k: int| 0 <= k < r.0@.len() ==> object_authorized(auth@, #[trigger] r.0@[k]),
        forall|j: int|
            0 <= j < auth@.len() && entry_yields_object(bytes@, (#[trigger] auth@[j]).deep_view())
                ==> exists|k: int|
                0 <= k < r.0@.len() && (#[trigger] r.0@[k]).id.number == auth@[j].num
                    && r.0@[k].off == auth@[j].off,
{
    let mut nums: Vec<u64> = Vec::new();
    let mut i: usize = 0;
    while i < auth.len()
        invariant
            0 <= i <= auth@.len(),
            nums@.len() == i,
            forall|k: int| 0 <= k < i ==> nums@[k] == (#[trigger] auth@[k]).num as u64,
        decreases auth@.len() - i,
    {
        nums.push(auth[i].num as u64);
        i = i + 1;
    }
    let sorted = sort_keys(&nums);
    let mut objects: Vec<LoadedObject> = Vec::new();
    let mut anomalies: Vec<Anomaly> = Vec::new();
    let mut j: usize = 0;
    let mut prev: u64 = 0;
    let mut first = true;
    while j < sorted.len()
        invariant
            0 <= j <= sorted@.len(),
            bytes@.len() < usize::MAX - 8,
            nums@.len() == auth@.len(),
            forall|k: int| 0 <= k < auth@.len() ==> nums@[k] == (#[trigger] auth@[k]).num as u64,
            forall|a: int, b: int| 0 <= a < b < auth@.len() ==> auth@[a].num != auth@[b].num,
            forall|a: int, b: int| 0 <= a < b < sorted@.len() ==> sorted@[a] <= sorted@[b],
            forall|x: u64| sorted@.contains(x) <==> nums@.contains(x),
            forall|k: int| 0 <= k < objects@.len() ==> object_sound(bytes@, #[trigger] objects@[k]),
            forall|a: int, b: int|
                0 <= a < b < objects@.len() ==> objects@[a].id.spec_key()
                    < objects@[b].id.spec_key(),
            forall|k: int|
                0 <= k < objects@.len() ==> !first && (#[trigger] objects@[k]).id.number as int
                    <= prev,
            prev <= u32::MAX,
            !first ==> exists|w: int| 0 <= w < j && sorted@[w] == prev,
            forall|k: int|
                0 <= k < objects@.len() && (#[trigger] objects@[k]).len_mismatch
                    ==> has_len_mismatch_anomaly(
                    anomalies@,
                    objects@[k].id.number,
                    objects@[k].id.generation,
                ),
            forall|k: int|
                0 <= k < objects@.len() ==> object_authorized(auth@, #[trigger] objects@[k]),
            forall|jj: int|
                0 <= jj < auth@.len() && (exists|w: int|
                    0 <= w < j && sorted@[w] == (#[trigger] auth@[jj]).num as u64)
                    && entry_yields_object(bytes@, auth@[jj].deep_view()) ==> exists|k: int|
                    0 <= k < objects@.len() && (#[trigger] objects@[k]).id.number == auth@[jj].num
                        && objects@[k].off == auth@[jj].off,
        decreases sorted@.len() - j,
    {
        let ghost old_objs = objects@;
        let ghost old_anoms = anomalies@;
        let n64 = sorted[j];
        j = j + 1;
        // Ascending, strictly: a repeated key was processed when it
        // first appeared, which keeps the id order invariant evident.
        if n64 > 0xffff_ffffu64 || (!first && n64 <= prev) {
            proof {
                assert forall|jj: int|
                    0 <= jj < auth@.len() && (exists|w: int|
                        0 <= w < j && sorted@[w] == (#[trigger] auth@[jj]).num as u64)
                        && entry_yields_object(bytes@, auth@[jj].deep_view()) implies exists|
                    k: int,
                |
                    0 <= k < objects@.len() && (#[trigger] objects@[k]).id.number
                        == auth@[jj].num && objects@[k].off == auth@[jj].off by {
                    let w = choose|w: int|
                        0 <= w < j && sorted@[w] == auth@[jj].num as u64;
                    if w == j - 1 {
                        // The same key already stood earlier in the
                        // sorted run.
                        assert(auth@[jj].num as u64 <= 0xffff_ffffu64);
                        assert(!first && n64 <= prev);
                        let w0 = choose|w0: int| 0 <= w0 < j - 1 && sorted@[w0] == prev;
                        if n64 < prev {
                            assert(sorted@[w0] <= sorted@[j - 1]);
                            assert(false);
                        }
                        assert(sorted@[w0] == auth@[jj].num as u64);
                    }
                }
            }
            continue ;
        }
        let num = n64 as u32;
        let ghost dv = auth.deep_view();
        proof {
            assert(dv.len() == auth@.len());
            assert(forall|q: int|
                0 <= q < auth@.len() ==> dv[q] == (#[trigger] auth@[q]).deep_view());
        }
        match crate::xref::sec_lookup(auth, num) {
            Some(entry) => {
                proof {
                    crate::xref::lemma_section_lookup_mem(dv, num as int);
                    assert(entry.num == num);
                    assert forall|jj: int|
                        0 <= jj < auth@.len() && (#[trigger] auth@[jj]).num
                            == num implies auth@[jj].deep_view() == entry.deep_view() by {
                        let w = choose|w: int|
                            0 <= w < dv.len() && dv[w] == entry.deep_view()
                                && entry.deep_view().num == num as int;
                        assert(auth@[w].num == num);
                        if w < jj {
                            assert(auth@[w].num != auth@[jj].num);
                        } else if jj < w {
                            assert(auth@[jj].num != auth@[w].num);
                        }
                        assert(w == jj);
                    }
                }
                if entry.in_use {
                    if entry.off >= bytes.len() as u64 {
                        anomalies.push(make_anomaly(AnomalyKind::OffsetOutOfBounds(num), paranoid));
                        proof {
                            assert forall|jj: int|
                                0 <= jj < auth@.len() && (#[trigger] auth@[jj]).num == num
                                    && entry_yields_object(
                                    bytes@,
                                    auth@[jj].deep_view(),
                                ) implies exists|k: int|
                                0 <= k < objects@.len() && (#[trigger] objects@[k]).id.number
                                    == auth@[jj].num && objects@[k].off == auth@[jj].off by {
                                assert(auth@[jj].deep_view() == entry.deep_view());
                                assert(false);
                            }
                        }
                    } else {
                        match parse_indirect(bytes, entry.off as usize) {
                            Some((oid, value, mm, end)) => {
                                if oid.number != num {
                                    anomalies.push(
                                        make_anomaly(AnomalyKind::OffsetMismatch(num), paranoid),
                                    );
                                    proof {
                                        assert forall|jj: int|
                                            0 <= jj < auth@.len() && (#[trigger] auth@[jj]).num
                                                == num && entry_yields_object(
                                                bytes@,
                                                auth@[jj].deep_view(),
                                            ) implies exists|k: int|
                                            0 <= k < objects@.len() && (
                                            #[trigger] objects@[k]).id.number == auth@[jj].num
                                                && objects@[k].off == auth@[jj].off by {
                                            assert(auth@[jj].deep_view() == entry.deep_view());
                                            assert(false);
                                        }
                                    }
                                } else {
                                    if mm {
                                        anomalies.push(
                                            make_anomaly(
                                                AnomalyKind::LengthMismatch(
                                                    oid.number,
                                                    oid.generation,
                                                ),
                                                paranoid,
                                            ),
                                        );
                                        proof {
                                            assert(anomalies@[anomalies@.len() - 1].kind
                                                == AnomalyKind::LengthMismatch(
                                                oid.number,
                                                oid.generation,
                                            ));
                                        }
                                    }
                                    let ob = LoadedObject {
                                        id: oid,
                                        off: entry.off,
                                        end: end as u64,
                                        value,
                                        len_mismatch: mm,
                                    };
                                    proof {
                                        reveal(object_sound);
                                        assert(object_sound(bytes@, ob));
                                    }
                                    objects.push(ob);
                                    proof {
                                        assert(objects@[objects@.len() - 1] == ob);
                                        let w0 = choose|w: int|
                                            0 <= w < dv.len() && dv[w] == entry.deep_view()
                                                && entry.deep_view().num == num as int;
                                        assert(auth@[w0].num == num && auth@[w0].in_use
                                            && auth@[w0].off == entry.off);
                                        assert(object_authorized(auth@, ob));
                                        assert forall|jj: int|
                                            0 <= jj < auth@.len() && (#[trigger] auth@[jj]).num
                                                == num && entry_yields_object(
                                                bytes@,
                                                auth@[jj].deep_view(),
                                            ) implies exists|k: int|
                                            0 <= k < objects@.len() && (
                                            #[trigger] objects@[k]).id.number == auth@[jj].num
                                                && objects@[k].off == auth@[jj].off by {
                                            assert(auth@[jj].deep_view() == entry.deep_view());
                                            assert(auth@[jj].off == entry.off);
                                            assert(objects@[objects@.len() - 1].id.number
                                                == auth@[jj].num && objects@[objects@.len()
                                                - 1].off == auth@[jj].off);
                                        }
                                    }
                                }
                            },
                            None => {
                                anomalies.push(
                                    make_anomaly(AnomalyKind::MalformedObject(num), paranoid),
                                );
                                proof {
                                    assert forall|jj: int|
                                        0 <= jj < auth@.len() && (#[trigger] auth@[jj]).num == num
                                            && entry_yields_object(
                                            bytes@,
                                            auth@[jj].deep_view(),
                                        ) implies exists|k: int|
                                        0 <= k < objects@.len() && (
                                        #[trigger] objects@[k]).id.number == auth@[jj].num
                                            && objects@[k].off == auth@[jj].off by {
                                        assert(auth@[jj].deep_view() == entry.deep_view());
                                        assert(false);
                                    }
                                }
                            },
                        }
                    }
                } else {
                    proof {
                        assert forall|jj: int|
                            0 <= jj < auth@.len() && (#[trigger] auth@[jj]).num == num
                                && entry_yields_object(
                                bytes@,
                                auth@[jj].deep_view(),
                            ) implies exists|k: int|
                            0 <= k < objects@.len() && (#[trigger] objects@[k]).id.number
                                == auth@[jj].num && objects@[k].off == auth@[jj].off by {
                            assert(auth@[jj].deep_view() == entry.deep_view());
                            assert(false);
                        }
                    }
                }
            },
            None => {
                proof {
                    // Every key in `sorted` names some entry, so a
                    // missing lookup cannot happen for one.
                    assert(sorted@[j - 1] == n64);
                    assert(sorted@.contains(n64));
                    assert(nums@.contains(n64));
                    let q = choose|q: int| 0 <= q < nums@.len() && nums@[q] == n64;
                    assert(auth@[q].num as u64 == n64);
                    assert(dv[q].num == num as int);
                    crate::xref::lemma_mentioned_section_lookup(dv, num as int);
                    assert(false);
                }
            },
        }
        proof {
            assert forall|k: int|
                0 <= k < objects@.len() && (#[trigger] objects@[k]).len_mismatch
                implies has_len_mismatch_anomaly(
                anomalies@,
                objects@[k].id.number,
                objects@[k].id.generation,
            ) by {
                if k < old_objs.len() {
                    let j0 = choose|j: int|
                        0 <= j < old_anoms.len() && (#[trigger] old_anoms[j]).kind
                            == AnomalyKind::LengthMismatch(
                            old_objs[k].id.number,
                            old_objs[k].id.generation,
                        );
                    assert(anomalies@[j0] == old_anoms[j0]);
                }
            }
            assert forall|jj: int|
                0 <= jj < auth@.len() && (exists|w: int|
                    0 <= w < j && sorted@[w] == (#[trigger] auth@[jj]).num as u64)
                    && entry_yields_object(bytes@, auth@[jj].deep_view()) implies exists|k: int|
                0 <= k < objects@.len() && (#[trigger] objects@[k]).id.number == auth@[jj].num
                    && objects@[k].off == auth@[jj].off by {
                let w = choose|w: int| 0 <= w < j && sorted@[w] == auth@[jj].num as u64;
                if w == j - 1 {
                    assert(auth@[jj].num as u64 == n64);
                    assert(auth@[jj].num == num);
                } else {
                    let k0 = choose|k: int|
                        0 <= k < old_objs.len() && (#[trigger] old_objs[k]).id.number
                            == auth@[jj].num && old_objs[k].off == auth@[jj].off;
                    assert(objects@[k0] == old_objs[k0]);
                }
            }
        }
        prev = n64;
        first = false;
    }
    proof {
        assert forall|jj: int|
            0 <= jj < auth@.len() && entry_yields_object(
                bytes@,
                (#[trigger] auth@[jj]).deep_view(),
            ) implies exists|k: int|
            0 <= k < objects@.len() && (#[trigger] objects@[k]).id.number == auth@[jj].num
                && objects@[k].off == auth@[jj].off by {
            assert(nums@[jj] == auth@[jj].num as u64);
            assert(nums@.contains(auth@[jj].num as u64));
            assert(sorted@.contains(auth@[jj].num as u64));
        }
    }
    (objects, anomalies)
}

/// Resolves each collected number to the chain's authoritative
/// entry, one entry per number, in the numbers' order.
fn build_auth_entries(sections: &Vec<XrefSection>, nums: &Vec<u64>) -> (r: Vec<XrefEntry>)
    requires
        forall|x: u64| nums@.contains(x) ==> num_in_sections(sections@, x as int),
        forall|x: u64| nums@.contains(x) ==> x <= 0xffff_ffffu64,
    ensures
        r@.len() == nums@.len(),
        forall|k: int| 0 <= k < r@.len() ==> (#[trigger] r@[k]).num as u64 == nums@[k],
        forall|k: int|
            0 <= k < r@.len() ==> chain_lookup(
                secviews(sections@),
                (#[trigger] r@[k]).num as int,
            ) == Some(r@[k].deep_view()),
{
    let mut auth: Vec<XrefEntry> = Vec::new();
    let mut i: usize = 0;
    while i < nums.len()
        invariant
            0 <= i <= nums@.len(),
            forall|x: u64| nums@.contains(x) ==> num_in_sections(sections@, x as int),
            forall|x: u64| nums@.contains(x) ==> x <= 0xffff_ffffu64,
            auth@.len() == i,
            forall|k: int| 0 <= k < i ==> (#[trigger] auth@[k]).num as u64 == nums@[k],
            forall|k: int|
                0 <= k < auth@.len() ==> chain_lookup(
                    secviews(sections@),
                    (#[trigger] auth@[k]).num as int,
                ) == Some(auth@[k].deep_view()),
        decreases nums@.len() - i,
    {
        let n64 = nums[i];
        proof {
            assert(nums@.contains(n64)) by {
                assert(nums@[i as int] == n64);
            }
        }
        let num = n64 as u32;
        match lookup_entry(sections, num) {
            Some(entry) => {
                proof {
                    crate::xref::lemma_chain_lookup_num(secviews(sections@), num as int);
                    assert(entry.num == num);
                }
                auth.push(entry);
            },
            None => {
                proof {
                    // Every collected number is mentioned, so its
                    // lookup cannot miss.
                    let (s2, e2): (int, int) = choose|s2: int, e2: int|
                        0 <= s2 < sections@.len() && 0 <= e2 < sections@[s2].entries@.len() && (
                        #[trigger] sections@[s2].entries@[e2].num) == n64 as int;
                    assert(secviews(sections@)[s2] == sections@[s2].entries.deep_view());
                    assert(sections@[s2].entries.deep_view()[e2].num == n64 as int);
                    crate::xref::lemma_mentioned_chain_lookup(
                        secviews(sections@),
                        s2,
                        n64 as int,
                    );
                    assert(false);
                }
            },
        }
        i = i + 1;
    }
    auth
}

/// Emits one revision-shadowing anomaly for each collected number
/// that more than one section of the chain mentions.
fn shadow_anomalies(sections: &Vec<XrefSection>, nums: &Vec<u64>, paranoid: bool) -> (r: Vec<
    Anomaly,
>)
    requires
        forall|x: u64| nums@.contains(x) ==> x <= 0xffff_ffffu64,
    ensures
        forall|k: int|
            0 <= k < r@.len() ==> ((#[trigger] r@[k]).kind matches AnomalyKind::RevisionShadowed(
                n,
            ) && spec_shadowed(secviews(sections@), n as int)),
        forall|a: int|
            0 <= a < nums@.len() && spec_shadowed(secviews(sections@), nums@[a] as int)
                ==> has_anomaly(r@, AnomalyKind::RevisionShadowed(nums@[a] as u32)),
{
    let mut out: Vec<Anomaly> = Vec::new();
    let mut i: usize = 0;
    while i < nums.len()
        invariant
            0 <= i <= nums@.len(),
            forall|x: u64| nums@.contains(x) ==> x <= 0xffff_ffffu64,
            forall|k: int|
                0 <= k < out@.len() ==> ((#[trigger] out@[k]).kind matches
                    AnomalyKind::RevisionShadowed(n) && spec_shadowed(
                    secviews(sections@),
                    n as int,
                )),
            forall|a: int|
                0 <= a < i && spec_shadowed(secviews(sections@), nums@[a] as int) ==> has_anomaly(
                    out@,
                    AnomalyKind::RevisionShadowed(nums@[a] as u32),
                ),
        decreases nums@.len() - i,
    {
        let n64 = nums[i];
        let ghost old_out = out@;
        proof {
            assert(nums@.contains(n64)) by {
                assert(nums@[i as int] == n64);
            }
        }
        let num = n64 as u32;
        if count_containing(sections, num) >= 2 {
            out.push(make_anomaly(AnomalyKind::RevisionShadowed(num), paranoid));
            proof {
                assert(out@[out@.len() - 1].kind == AnomalyKind::RevisionShadowed(num));
            }
        }
        proof {
            assert forall|a: int|
                0 <= a < i + 1 && spec_shadowed(secviews(sections@), nums@[a] as int)
                implies has_anomaly(out@, AnomalyKind::RevisionShadowed(nums@[a] as u32)) by {
                if a < i {
                    let j0 = choose|j: int|
                        0 <= j < old_out.len() && (#[trigger] old_out[j]).kind
                            == AnomalyKind::RevisionShadowed(nums@[a] as u32);
                    assert(out@[j0] == old_out[j0]);
                }
            }
        }
        i = i + 1;
    }
    out
}

/// Builds the authoritative entry list from a parsed chain, and the
/// revision-shadowing anomalies. Every emitted entry is exactly the
/// chain's authoritative answer for its number, every mentioned
/// number is covered, and a shadowing anomaly is recorded for every
/// number that more than one section mentions.
fn build_auth_from_sections(sections: &Vec<XrefSection>, paranoid: bool) -> (r: (
    Vec<XrefEntry>,
    Vec<Anomaly>,
))
    ensures
        forall|k: int|
            0 <= k < r.1@.len() ==> ((#[trigger] r.1@[k]).kind matches
                AnomalyKind::RevisionShadowed(n) && spec_shadowed(secviews(sections@), n as int)),
        forall|k: int|
            0 <= k < r.0@.len() ==> chain_lookup(
                secviews(sections@),
                (#[trigger] r.0@[k]).num as int,
            ) == Some(r.0@[k].deep_view()),
        forall|a: int, b: int| 0 <= a < b < r.0@.len() ==> r.0@[a].num != r.0@[b].num,
        forall|n: int|
            num_in_sections(sections@, n) ==> exists|k: int|
                0 <= k < r.0@.len() && (#[trigger] r.0@[k]).num as int == n,
        forall|n: u32|
            num_in_sections(sections@, n as int) && spec_shadowed(secviews(sections@), n as int)
                ==> has_anomaly(r.1@, AnomalyKind::RevisionShadowed(n)),
{
    let nums = collect_nums(sections);
    proof {
        // Every mentioned number fits an entry's `u32` field.
        assert forall|x: u64| nums@.contains(x) implies x <= 0xffff_ffffu64 by {
            assert(num_in_sections(sections@, x as int));
        }
    }
    let auth = build_auth_entries(sections, &nums);
    let anomalies = shadow_anomalies(sections, &nums, paranoid);
    proof {
        assert forall|a: int, b: int| 0 <= a < b < auth@.len() implies auth@[a].num
            != auth@[b].num by {
            assert(auth@[a].num as u64 == nums@[a]);
            assert(auth@[b].num as u64 == nums@[b]);
            assert(nums@[a] != nums@[b]);
        }
        assert forall|n: int| num_in_sections(sections@, n) implies exists|k: int|
            0 <= k < auth@.len() && (#[trigger] auth@[k]).num as int == n by {
            assert(nums@.contains(n as u64));
            let a = choose|a: int| 0 <= a < nums@.len() && nums@[a] == n as u64;
            assert(auth@[a].num as u64 == nums@[a]);
            assert(0 <= n <= u32::MAX) by {
                let (s2, e2): (int, int) = choose|s2: int, e2: int|
                    0 <= s2 < sections@.len() && 0 <= e2 < sections@[s2].entries@.len() && (
                    #[trigger] sections@[s2].entries@[e2].num) == n;
            }
            assert(auth@[a].num as int == n);
        }
        assert forall|n: u32|
            num_in_sections(sections@, n as int) && spec_shadowed(
                secviews(sections@),
                n as int,
            ) implies has_anomaly(anomalies@, AnomalyKind::RevisionShadowed(n)) by {
            assert(nums@.contains(n as u64));
            let a = choose|a: int| 0 <= a < nums@.len() && nums@[a] == n as u64;
            assert(spec_shadowed(secviews(sections@), nums@[a] as int));
        }
    }
    (auth, anomalies)
}

/// Builds the authoritative entry list from a brute-force scan:
/// later occurrences of a number belong to later revisions and win.
fn build_auth_brute(bytes: &[u8]) -> (r: Vec<XrefEntry>)
    requires
        bytes@.len() < usize::MAX - 8,
    ensures
        forall|a: int, b: int| 0 <= a < b < r@.len() ==> r@[a].num != r@[b].num,
{
    let scanned = crate::xref::scan_objects(bytes);
    let mut auth: Vec<XrefEntry> = Vec::new();
    let mut i: usize = 0;
    while i < scanned.len()
        invariant
            0 <= i <= scanned@.len(),
            forall|a: int, b: int| 0 <= a < b < auth@.len() ==> auth@[a].num != auth@[b].num,
        decreases scanned@.len() - i,
    {
        let en = scanned[i];
        let mut j: usize = 0;
        let mut dup = false;
        while j < auth.len()
            invariant
                0 <= j <= auth@.len(),
                forall|a: int, b: int| 0 <= a < b < auth@.len() ==> auth@[a].num != auth@[b].num,
                !dup ==> forall|q: int| 0 <= q < j ==> auth@[q].num != en.num,
            decreases auth@.len() - j,
        {
            if auth[j].num == en.num {
                dup = true;
                let replaced = XrefEntry { num: en.num, off: en.off, gen: en.gen, in_use: true };
                let ghost old_a = auth@;
                auth.remove(j);
                auth.insert(j, replaced);
                proof {
                    assert(auth@ =~= old_a.update(j as int, replaced));
                    assert forall|a: int, b: int| 0 <= a < b < auth@.len() implies auth@[a].num
                        != auth@[b].num by {
                        assert(old_a[a].num != old_a[b].num);
                        assert(auth@[a].num == if a == j {
                            old_a[j as int].num
                        } else {
                            old_a[a].num
                        });
                        assert(auth@[b].num == if b == j {
                            old_a[j as int].num
                        } else {
                            old_a[b].num
                        });
                    }
                }
                j = auth.len();
            } else {
                j = j + 1;
            }
        }
        if !dup {
            auth.push(en);
        }
        i = i + 1;
    }
    auth
}

/// Resolves the cross-reference structure: the chain when it
/// parses, the brute-force scan otherwise. Yields the authoritative
/// entries, the newest trailer, the parsed sections for audit,
/// whether reconstruction was used, and the anomalies raised here.
fn resolve_entries(bytes: &[u8], paranoid: bool) -> (r: (
    Vec<XrefEntry>,
    Vec<DictEntry>,
    Vec<XrefSection>,
    bool,
    Vec<Anomaly>,
))
    requires
        bytes@.len() < usize::MAX - 8,
    ensures
        crate::xref::sections_linked(bytes@, r.2@),
        r.3 == (r.2@.len() == 0),
        crate::xref::sp_chain_starts(bytes@) ==> !r.3,
        r.3 ==> has_anomaly(r.4@, AnomalyKind::BruteForceRecovery),
        forall|a: int, b: int| 0 <= a < b < r.0@.len() ==> r.0@[a].num != r.0@[b].num,
        forall|k: int|
            0 <= k < r.0@.len() ==> chain_lookup(
                secviews(r.2@),
                (#[trigger] r.0@[k]).num as int,
            ) == Some(r.0@[k].deep_view()) || r.3,
        forall|n: int|
            num_in_sections(r.2@, n) ==> exists|k: int|
                0 <= k < r.0@.len() && (#[trigger] r.0@[k]).num as int == n,
        forall|n: u32|
            num_in_sections(r.2@, n as int) && spec_shadowed(secviews(r.2@), n as int)
                ==> has_anomaly(r.4@, AnomalyKind::RevisionShadowed(n)),
        r.2@.len() > 0 ==> view_entries(r.1, 0) == view_entries(r.2@[0].trailer, 0),
{
    let (sections, chain_cycle) = walk_xref_chain(bytes);
    let mut anomalies: Vec<Anomaly> = Vec::new();
    if chain_cycle {
        anomalies.push(make_anomaly(AnomalyKind::ChainCycle, paranoid));
    }
    let ghost pre_shadow = anomalies@;
    let mut trailer: Vec<DictEntry> = Vec::new();
    if sections.len() > 0 {
        let (auth, mut shadow_anoms) = build_auth_from_sections(&sections, paranoid);
        let ghost sa = shadow_anoms@;
        anomalies.append(&mut shadow_anoms);
        proof {
            assert forall|n: u32|
                num_in_sections(sections@, n as int) && spec_shadowed(
                    secviews(sections@),
                    n as int,
                ) implies has_anomaly(anomalies@, AnomalyKind::RevisionShadowed(n)) by {
                let j0 = choose|j: int|
                    0 <= j < sa.len() && (#[trigger] sa[j]).kind
                        == AnomalyKind::RevisionShadowed(n);
                assert(anomalies@[pre_shadow.len() + j0] == sa[j0]);
            }
        }
        // Fetch the newest trailer by re-reading the first section.
        proof {
            reveal(crate::xref::sp_section_content);
        }
        match crate::xref::parse_xref_section(bytes, sections[0].at as usize) {
            Some((_, tes, _)) => {
                trailer = tes;
            },
            None => {
                proof {
                    assert(false);
                }
            },
        }
        (auth, trailer, sections, false, anomalies)
    } else {
        // No usable cross-reference structure: reconstruct by
        // scanning, and say so.
        anomalies.push(make_anomaly(AnomalyKind::BruteForceRecovery, paranoid));
        proof {
            assert(anomalies@[anomalies@.len() - 1].kind == AnomalyKind::BruteForceRecovery);
        }
        let auth = build_auth_brute(bytes);
        match read_trailer_fallback(bytes) {
            Some(t) => {
                trailer = t;
            },
            None => {},
        }
        (auth, trailer, sections, true, anomalies)
    }
}

/// Every live object is backed by the chain's authoritative entry
/// for its number: the newest section that mentions the number holds
/// an in-use entry at exactly the object's offset. Later incremental
/// updates therefore shadow earlier revisions' objects.
pub open spec fn live_objects_authorized(doc: Document) -> bool {
    forall|k: int|
        0 <= k < doc.objects@.len() ==> (chain_lookup(
            secviews(doc.sections@),
            (#[trigger] doc.objects@[k]).id.number as int,
        ) matches Some(en) && en.in_use && en.off == doc.objects@[k].off as int)
}

/// Every authoritative entry at which an object with the entry's own
/// number parses contributes that object to the live set: nothing
/// the chain declares is dropped.
pub open spec fn live_objects_complete(doc: Document) -> bool {
    forall|n: u32|
        (#[trigger] chain_lookup(secviews(doc.sections@), n as int) matches Some(en)
            && entry_yields_object(doc.bytes@, en)) ==> exists|k: int|
            0 <= k < doc.objects@.len() && (#[trigger] doc.objects@[k]).id.number == n
                && doc.objects@[k].off as int == chain_lookup(
                secviews(doc.sections@),
                n as int,
            )->Some_0.off
}

/// Loads a document from raw bytes: header, cross-reference chain
/// (or brute-force reconstruction), live objects in id order,
/// revision shadowing, and every anomaly raised on the way. Fails
/// only on a document-scoped break: a missing `%PDF-` header, or no
/// object recoverable at all; a usable chain start always loads.
pub fn load_document(bytes: Vec<u8>, paranoid: bool) -> (r: Result<Document, PdxError>)
    requires
        bytes@.len() < usize::MAX - 8,
    ensures
        match r {
            Ok(doc) => {
                &&& doc.bytes@ == bytes@
                &&& document_wf(doc)
                &&& spec_pdf_version(bytes@) == Some(doc.version@)
                &&& crate::xref::sections_linked(doc.bytes@, doc.sections@)
                &&& doc.reconstructed == (doc.sections@.len() == 0)
                &&& (doc.reconstructed ==> has_anomaly(
                    doc.anomalies@,
                    AnomalyKind::BruteForceRecovery,
                ))
                &&& (!doc.reconstructed ==> live_objects_authorized(doc))
                &&& (!doc.reconstructed ==> live_objects_complete(doc))
                &&& (forall|n: u32|
                    num_in_sections(doc.sections@, n as int) && spec_shadowed(
                        secviews(doc.sections@),
                        n as int,
                    ) ==> has_anomaly(doc.anomalies@, AnomalyKind::RevisionShadowed(n)))
                &&& (doc.sections@.len() > 0 ==> view_entries(doc.trailer, 0) == view_entries(
                    doc.sections@[0].trailer,
                    0,
                ))
            },
            Err(_) => true,
        },
        spec_pdf_version(bytes@) is None ==> r is Err,
        spec_pdf_version(bytes@) is Some && crate::xref::sp_chain_starts(bytes@) ==> r is Ok,
        r is Err ==> spec_pdf_version(bytes@) is None || !crate::xref::sp_chain_starts(bytes@),
{
    let version = match read_version(bytes.as_slice()) {
        Some(v) => v,
        None => {
            return Err(PdxError::Pdf(ascii_string(&[0x6e, 0x6f, 0x74, 0x20, 0x61, 0x20, 0x50,
                0x44, 0x46])));
        },
    };
    let (auth, trailer, sections, reconstructed, mut anomalies) = resolve_entries(
        bytes.as_slice(),
        paranoid,
    );
    let (objects, mut load_anoms) = load_objects(bytes.as_slice(), &auth, paranoid);
    let ghost pre_anoms = anomalies@;
    let ghost la = load_anoms@;
    anomalies.append(&mut load_anoms);
    proof {
        assert forall|kk: AnomalyKind| has_anomaly(pre_anoms, kk) implies has_anomaly(
            anomalies@,
            kk,
        ) by {
            let j0 = choose|j: int| 0 <= j < pre_anoms.len() && (#[trigger] pre_anoms[j]).kind == kk;
            assert(anomalies@[j0] == pre_anoms[j0]);
        }
        assert forall|k: int|
            0 <= k < objects@.len() && (#[trigger] objects@[k]).len_mismatch
            implies has_len_mismatch_anomaly(
            anomalies@,
            objects@[k].id.number,
            objects@[k].id.generation,
        ) by {
            let j0 = choose|j: int|
                0 <= j < la.len() && (#[trigger] la[j]).kind == AnomalyKind::LengthMismatch(
                    objects@[k].id.number,
                    objects@[k].id.generation,
                );
            assert(anomalies@[pre_anoms.len() + j0] == la[j0]);
        }
    }
    if objects.len() == 0 && reconstructed {
        return Err(PdxError::Pdf(ascii_string(&[0x6e, 0x6f, 0x20, 0x6f, 0x62, 0x6a, 0x65, 0x63,
            0x74, 0x73])));
    }
    let doc = Document {
        bytes,
        version,
        objects,
        trailer,
        sections,
        reconstructed,
        anomalies,
    };
    proof {
        if !doc.reconstructed {
            assert forall|k: int| 0 <= k < doc.objects@.len() implies (chain_lookup(
                secviews(doc.sections@),
                (#[trigger] doc.objects@[k]).id.number as int,
            ) matches Some(en) && en.in_use && en.off == doc.objects@[k].off as int) by {
                assert(object_authorized(auth@, doc.objects@[k]));
                let j0 = choose|j: int|
                    0 <= j < auth@.len() && doc.objects@[k].id.number == (#[trigger] auth@[j]).num
                        && auth@[j].in_use && auth@[j].off == doc.objects@[k].off;
                assert(chain_lookup(secviews(doc.sections@), auth@[j0].num as int) == Some(
                    auth@[j0].deep_view(),
                ));
            }
            assert forall|n: u32|
                (#[trigger] chain_lookup(secviews(doc.sections@), n as int) matches Some(en)
                    && entry_yields_object(doc.bytes@, en)) implies exists|k: int|
                0 <= k < doc.objects@.len() && (#[trigger] doc.objects@[k]).id.number == n
                    && doc.objects@[k].off as int == chain_lookup(
                    secviews(doc.sections@),
                    n as int,
                )->Some_0.off by {
                let en = chain_lookup(secviews(doc.sections@), n as int)->Some_0;
                crate::xref::lemma_chain_lookup_num(secviews(doc.sections@), n as int);
                crate::xref::lemma_chain_lookup_mem(secviews(doc.sections@), n as int);
                let (si0, e0): (int, int) = choose|si: int, j: int|
                    0 <= si < secviews(doc.sections@).len() && 0 <= j
                        < secviews(doc.sections@)[si].len() && #[trigger] secviews(
                        doc.sections@,
                    )[si][j] == en;
                assert(secviews(doc.sections@)[si0] == doc.sections@[si0].entries.deep_view());
                assert(doc.sections@[si0].entries@[e0].deep_view() == en);
                assert(doc.sections@[si0].entries@[e0].num as int == n as int);
                assert(num_in_sections(doc.sections@, n as int));
                let j1 = choose|j: int|
                    0 <= j < auth@.len() && (#[trigger] auth@[j]).num as int == n as int;
                assert(chain_lookup(secviews(doc.sections@), auth@[j1].num as int) == Some(
                    auth@[j1].deep_view(),
                ));
                assert(auth@[j1].deep_view() == en);
                assert(entry_yields_object(doc.bytes@, auth@[j1].deep_view()));
                let k1 = choose|k: int|
                    0 <= k < objects@.len() && (#[trigger] objects@[k]).id.number == auth@[j1].num
                        && objects@[k].off == auth@[j1].off;
                assert(doc.objects@[k1].id.number == n && doc.objects@[k1].off as int == en.off);
            }
        }
    }
    Ok(doc)
}

/// Searches backwards for a `trailer` keyword and parses its
/// dictionary; the brute-force path's best effort at a trailer.
fn read_trailer_fallback(bytes: &[u8]) -> (r: Option<Vec<DictEntry>>)
    requires
        bytes@.len() < usize::MAX - 8,
{
    let kw: [u8; 7] = [0x74, 0x72, 0x61, 0x69, 0x6c, 0x65, 0x72];
    match crate::xref::rfind_kw(bytes, kw.as_slice()) {
        Some(p) => {
            match crate::lexer::next_token(bytes, p) {
                Some((crate::lexer::Token::Word(w), e)) => {
                    if !crate::parser::word_eq(&w, &kw) {
                        return None;
                    }
                    match crate::lexer::next_token(bytes, e) {
                        Some((crate::lexer::Token::DictOpen, e2)) => {
                            match crate::parser::parse_entries(bytes, e2) {
                                Some((tes, _)) => Some(tes),
                                None => None,
                            }
                        },
                        _ => None,
                    }
                },
                _ => None,
            }
        },
        None => None,
    }
}

/// How many objects from position `i` on satisfy `f`.
pub open spec fn spec_count_from(objs: Seq<LoadedObject>, i: int, f: spec_fn(ValueS) -> bool) -> int
    decreases objs.len() - i,
    when 0 <= i <= objs.len()
{
    if i >= objs.len() {
        0
    } else {
        (if f(view_value(objs[i].value)) {
            1int
        } else {
            0int
        }) + spec_count_from(objs, i + 1, f)
    }
}

pub open spec fn spec_count(objs: Seq<LoadedObject>, f: spec_fn(ValueS) -> bool) -> int {
    spec_count_from(objs, 0, f)
}

pub proof fn lemma_count_bounds(objs: Seq<LoadedObject>, i: int, f: spec_fn(ValueS) -> bool)
    requires
        0 <= i <= objs.len(),
    ensures
        0 <= spec_count_from(objs, i, f) <= objs.len() - i,
    decreases objs.len() - i,
{
    if i < objs.len() {
        lemma_count_bounds(objs, i + 1, f);
    }
}

/// The first live object with the given id, viewed.
pub open spec fn spec_obj_lookup(objs: Seq<LoadedObject>, n: int, g: int) -> Option<ValueS>
    decreases objs.len(),
{
    if objs.len() == 0 {
        None
    } else if objs[0].id.number == n && objs[0].id.generation == g {
        Some(view_value(objs[0].value))
    } else {
        spec_obj_lookup(objs.drop_first(), n, g)
    }
}

/// Looks a live object up by id.
pub fn lookup_object<'a>(objs: &'a Vec<LoadedObject>, n: u32, g: u16) -> (r: Option<
    &'a PdfValue,
>)
    ensures
        match r {
            Some(v) => spec_obj_lookup(objs@, n as int, g as int) == Some(view_value(*v)),
            None => spec_obj_lookup(objs@, n as int, g as int) is None,
        },
{
    let mut i: usize = 0;
    proof {
        assert(objs@.skip(0) =~= objs@);
    }
    while i < objs.len()
        invariant
            0 <= i <= objs@.len(),
            spec_obj_lookup(objs@, n as int, g as int) == spec_obj_lookup(
                objs@.skip(i as int),
                n as int,
                g as int,
            ),
        decreases objs@.len() - i,
    {
        proof {
            assert(objs@.skip(i as int).drop_first() =~= objs@.skip(i + 1));
            assert(objs@.skip(i as int)[0] == objs@[i as int]);
        }
        if objs[i].id.number == n && objs[i].id.generation == g {
            return Some(&objs[i].value);
        }
        i = i + 1;
    }
    assert(objs@.skip(i as int).len() == 0);
    None
}

/// The object id the catalog's `/OpenAction` references, if the
/// trailer's `/Root` leads to a catalog whose `/OpenAction` is a
/// reference in id range.
pub open spec fn spec_open_action(
    trailer: Seq<(Seq<u8>, ValueS)>,
    objs: Seq<LoadedObject>,
) -> Option<(int, int)> {
    match sval_dict_get(trailer, key_root()) {
        Some(ValueS::Ref(n, g)) => match spec_obj_lookup(objs, n, g) {
            Some(cat) => match spec_dict_of(cat) {
                Some(ces) => match sval_dict_get(ces, key_open_action()) {
                    Some(ValueS::Ref(a, b)) => if 0 <= a <= u32::MAX && 0 <= b <= u16::MAX {
                        Some((a, b))
                    } else {
                        None
                    },
                    _ => None,
                },
                None => None,
            },
            None => None,
        },
        _ => None,
    }
}

/// Finds the `/OpenAction` target of the document's catalog.
pub fn open_action_target(trailer: &Vec<DictEntry>, objs: &Vec<LoadedObject>) -> (r: Option<
    ObjectId,
>)
    ensures
        match r {
            Some(id) => spec_open_action(view_entries(*trailer, 0), objs@) == Some(
                (id.number as int, id.generation as int),
            ),
            None => spec_open_action(view_entries(*trailer, 0), objs@) is None,
        },
{
    let rk: [u8; 4] = [0x52, 0x6f, 0x6f, 0x74];
    let oak: [u8; 10] = [0x4f, 0x70, 0x65, 0x6e, 0x41, 0x63, 0x74, 0x69, 0x6f, 0x6e];
    proof {
        assert(rk@ =~= key_root());
        assert(oak@ =~= key_open_action());
        crate::parser::lemma_dict_get_view(*trailer, 0, key_root());
        assert(trailer@.skip(0) =~= trailer@);
    }
    let root = match crate::value::dict_get(trailer, rk.as_slice()) {
        Some(PdfValue::Reference(n, g)) => (*n, *g),
        _ => {
            return None;
        },
    };
    let cat = match lookup_object(objs, root.0, root.1) {
        Some(v) => v,
        None => {
            return None;
        },
    };
    let ces: &Vec<DictEntry> = match cat {
        PdfValue::Dict(es) => es,
        PdfValue::Stream(es, _) => es,
        _ => {
            return None;
        },
    };
    proof {
        crate::parser::lemma_dict_get_view(*ces, 0, key_open_action());
        assert(ces@.skip(0) =~= ces@);
    }
    match crate::value::dict_get(ces, oak.as_slice()) {
        Some(PdfValue::Reference(a, b)) => Some(ObjectId { number: *a, generation: *b }),
        _ => None,
    }
}

/// Concatenation of the per-object digests, in order.
pub open spec fn spec_hash_concat(bytes: Seq<u8>, objs: Seq<LoadedObject>, i: int) -> Seq<u8>
    decreases objs.len() - i,
    when 0 <= i <= objs.len()
{
    if i >= objs.len() {
        Seq::empty()
    } else {
        crate::utils::sha256_of(bytes.subrange(objs[i].off as int, objs[i].end as int))
            + spec_hash_concat(bytes, objs, i + 1)
    }
}

/// The whole-document fingerprint: the digest of all live objects'
/// digests in id order, encoded. It is a function of the live
/// objects' content bytes alone — file offsets and cross-reference
/// layout do not enter — so it is stable across re-analysis of the
/// same content and across rewrites that keep every object's bytes.
pub open spec fn spec_fingerprint(bytes: Seq<u8>, objs: Seq<LoadedObject>) -> Seq<char> {
    crate::utils::base64_of(crate::utils::sha256_of(spec_hash_concat(bytes, objs, 0)))
}

/// Computes the whole-document fingerprint.
pub fn document_fingerprint(doc: &Document) -> (r: String)
    requires
        document_wf(*doc),
    ensures
        r@ == spec_fingerprint(doc.bytes@, doc.objects@),
{
    let mut buf: Vec<u8> = Vec::new();
    let mut i: usize = 0;
    let blen = doc.bytes.len();
    proof {
        assert forall|k: int| 0 <= k < doc.objects@.len() implies (#[trigger] doc.objects@[k]).off
            <= doc.objects@[k].end <= doc.bytes@.len() by {
            assert(object_sound(doc.bytes@, doc.objects@[k]));
            reveal(object_sound);
        }
        assert(buf@ + spec_hash_concat(doc.bytes@, doc.objects@, 0) =~= spec_hash_concat(
            doc.bytes@,
            doc.objects@,
            0,
        ));
    }
    while i < doc.objects.len()
        invariant
            0 <= i <= doc.objects@.len(),
            doc.bytes@.len() == blen,
            forall|k: int| 0 <= k < doc.objects@.len() ==> (#[trigger] doc.objects@[k]).off
                <= doc.objects@[k].end <= doc.bytes@.len(),
            buf@ + spec_hash_concat(doc.bytes@, doc.objects@, i as int) == spec_hash_concat(
                doc.bytes@,
                doc.objects@,
                0,
            ),
        decreases doc.objects@.len() - i,
    {
        let ob = &doc.objects[i];
        proof {
            assert((#[trigger] doc.objects@[i as int]).off <= doc.objects@[i as int].end
                <= doc.bytes@.len());
        }
        let span = vstd::slice::slice_subrange(
            doc.bytes.as_slice(),
            ob.off as usize,
            ob.end as usize,
        );
        let mut digest = crate::utils::sha256(span);
        let ghost old_buf = buf@;
        let ghost dg = digest@;
        buf.append(&mut digest);
        proof {
            assert(spec_hash_concat(doc.bytes@, doc.objects@, i as int) == dg + spec_hash_concat(
                doc.bytes@,
                doc.objects@,
                i + 1,
            ));
            assert(old_buf + (dg + spec_hash_concat(doc.bytes@, doc.objects@, i + 1)) =~= (old_buf
                + dg) + spec_hash_concat(doc.bytes@, doc.objects@, i + 1));
        }
        i = i + 1;
    }
    proof {
        assert(buf@ + Seq::<u8>::empty() =~= buf@);
    }
    let digest = crate::utils::sha256(buf.as_slice());
    crate::utils::base64_encode(digest.as_slice())
}

/// Two documents whose live objects carry the same content bytes in
/// the same order have the same fingerprint, whatever their offsets
/// or cross-reference layout.
pub proof fn lemma_fingerprint_stable(
    b1: Seq<u8>,
    o1: Seq<LoadedObject>,
    b2: Seq<u8>,
    o2: Seq<LoadedObject>,
)
    requires
        o1.len() == o2.len(),
        forall|k: int|
            0 <= k < o1.len() ==> b1.subrange(
                (#[trigger] o1[k]).off as int,
                o1[k].end as int,
            ) == b2.subrange((#[trigger] o2[k]).off as int, o2[k].end as int),
    ensures
        spec_fingerprint(b1, o1) == spec_fingerprint(b2, o2),
{
    lemma_hash_concat_stable(b1, o1, b2, o2, 0);
}

proof fn lemma_hash_concat_stable(
    b1: Seq<u8>,
    o1: Seq<LoadedObject>,
    b2: Seq<u8>,
    o2: Seq<LoadedObject>,
    i: int,
)
    requires
        o1.len() == o2.len(),
        0 <= i <= o1.len(),
        forall|k: int|
            0 <= k < o1.len() ==> b1.subrange(
                (#[trigger] o1[k]).off as int,
                o1[k].end as int,
            ) == b2.subrange((#[trigger] o2[k]).off as int, o2[k].end as int),
    ensures
        spec_hash_concat(b1, o1, i) == spec_hash_concat(b2, o2, i),
    decreases o1.len() - i,
{
    if i < o1.len() {
        lemma_hash_concat_stable(b1, o1, b2, o2, i + 1);
    }
}

/// Builds the per-object classification records: id, type name,
/// serialized size, and the content hash over the object's raw
/// source bytes (for streams this covers the undecoded bytes, so the
/// hash is stable even when decode fails).
fn classify_objects(doc: &Document) -> (r: Vec<ObjectInfo>)
    requires
        document_wf(*doc),
    ensures
        r@.len() == doc.objects@.len(),
        forall|k: int|
            0 <= k < r@.len() ==> (#[trigger] r@[k]).id == (
            doc.objects@[k].id.number,
            doc.objects@[k].id.generation,
            ) && r@[k].size == doc.objects@[k].end - doc.objects@[k].off && r@[k].hash@
                == crate::utils::base64_of(
                crate::utils::sha256_of(
                    doc.bytes@.subrange(
                        doc.objects@[k].off as int,
                        doc.objects@[k].end as int,
                    ),
                ),
            ) && r@[k].kind_name@ == spec_type_name(view_value(doc.objects@[k].value)),
{
    let mut out: Vec<ObjectInfo> = Vec::new();
    let mut i: usize = 0;
    let blen = doc.bytes.len();
    proof {
        assert forall|k: int| 0 <= k < doc.objects@.len() implies (#[trigger] doc.objects@[k]).off
            <= doc.objects@[k].end <= doc.bytes@.len() by {
            assert(object_sound(doc.bytes@, doc.objects@[k]));
            reveal(object_sound);
        }
    }
    while i < doc.objects.len()
        invariant
            0 <= i <= doc.objects@.len(),
            doc.bytes@.len() == blen,
            forall|k: int| 0 <= k < doc.objects@.len() ==> (#[trigger] doc.objects@[k]).off
                <= doc.objects@[k].end <= doc.bytes@.len(),
            out@.len() == i,
            forall|k: int|
                0 <= k < out@.len() ==> (#[trigger] out@[k]).id == (
                doc.objects@[k].id.number,
                doc.objects@[k].id.generation,
                ) && out@[k].size == doc.objects@[k].end - doc.objects@[k].off && out@[k].hash@
                    == crate::utils::base64_of(
                    crate::utils::sha256_of(
                        doc.bytes@.subrange(
                            doc.objects@[k].off as int,
                            doc.objects@[k].end as int,
                        ),
                    ),
                ) && out@[k].kind_name@ == spec_type_name(view_value(doc.objects@[k].value)),
        decreases doc.objects@.len() - i,
    {
        let ob = &doc.objects[i];
        proof {
            assert((#[trigger] doc.objects@[i as int]).off <= doc.objects@[i as int].end
                <= doc.bytes@.len());
        }
        let span = vstd::slice::slice_subrange(
            doc.bytes.as_slice(),
            ob.off as usize,
            ob.end as usize,
        );
        let hash = crate::utils::calculate_hash(span);
        let kind_name = type_name_of(&ob.value);
        out.push(
            ObjectInfo {
                id: (ob.id.number, ob.id.generation),
                kind_name,
                size: (ob.end - ob.off) as usize,
                hash,
            },
        );
        i = i + 1;
    }
    out
}

/// The type name of a dictionary or stream: the declared `/Type`
/// name, else the declared `/Subtype` name, else `Unknown`.
pub open spec fn spec_dict_type_name(es: Seq<(Seq<u8>, ValueS)>) -> Seq<char> {
    match sval_dict_get(es, key_type()) {
        Some(ValueS::Name(nm)) => ascii_chars(nm),
        _ => match sval_dict_get(es, key_subtype()) {
            Some(ValueS::Name(nm)) => ascii_chars(nm),
            _ => ascii_chars(seq![0x55u8, 0x6eu8, 0x6bu8, 0x6eu8, 0x6fu8, 0x77u8, 0x6eu8]),
        },
    }
}

/// A readable name for a value's type: the PDF value class, or for
/// dictionaries and streams the declared `/Type` or `/Subtype` name
/// when one is present, else `Unknown`.
pub open spec fn spec_type_name(v: ValueS) -> Seq<char> {
    match v {
        ValueS::Null => ascii_chars(seq![0x4eu8, 0x75u8, 0x6cu8, 0x6cu8]),
        ValueS::Bool(_) => ascii_chars(
            seq![0x42u8, 0x6fu8, 0x6fu8, 0x6cu8, 0x65u8, 0x61u8, 0x6eu8],
        ),
        ValueS::Int(_) => ascii_chars(
            seq![0x49u8, 0x6eu8, 0x74u8, 0x65u8, 0x67u8, 0x65u8, 0x72u8],
        ),
        ValueS::Real(_) => ascii_chars(seq![0x52u8, 0x65u8, 0x61u8, 0x6cu8]),
        ValueS::Text(_) => ascii_chars(seq![0x53u8, 0x74u8, 0x72u8, 0x69u8, 0x6eu8, 0x67u8]),
        ValueS::Name(_) => ascii_chars(seq![0x4eu8, 0x61u8, 0x6du8, 0x65u8]),
        ValueS::Array(_) => ascii_chars(seq![0x41u8, 0x72u8, 0x72u8, 0x61u8, 0x79u8]),
        ValueS::Ref(_, _) => ascii_chars(
            seq![0x52u8, 0x65u8, 0x66u8, 0x65u8, 0x72u8, 0x65u8, 0x6eu8, 0x63u8, 0x65u8],
        ),
        ValueS::Dict(es) => spec_dict_type_name(es),
        ValueS::Stream(es, _) => spec_dict_type_name(es),
    }
}

/// Names a value's type, as `spec_type_name` states.
fn type_name_of(v: &PdfValue) -> (r: String)
    ensures
        r@ == spec_type_name(view_value(*v)),
{
    let tk: [u8; 4] = [0x54, 0x79, 0x70, 0x65];
    let stk: [u8; 7] = [0x53, 0x75, 0x62, 0x74, 0x79, 0x70, 0x65];
    proof {
        assert(tk@ =~= key_type());
        assert(stk@ =~= key_subtype());
    }
    match v {
        PdfValue::Null => lossy_string(&[0x4e, 0x75, 0x6c, 0x6c]),
        PdfValue::Bool(_) => lossy_string(&[0x42, 0x6f, 0x6f, 0x6c, 0x65, 0x61, 0x6e]),
        PdfValue::Integer(_) => lossy_string(&[0x49, 0x6e, 0x74, 0x65, 0x67, 0x65, 0x72]),
        PdfValue::Real(_) => lossy_string(&[0x52, 0x65, 0x61, 0x6c]),
        PdfValue::Text(_) => lossy_string(&[0x53, 0x74, 0x72, 0x69, 0x6e, 0x67]),
        PdfValue::Name(_) => lossy_string(&[0x4e, 0x61, 0x6d, 0x65]),
        PdfValue::Array(_) => lossy_string(&[0x41, 0x72, 0x72, 0x61, 0x79]),
        PdfValue::Reference(_, _) => lossy_string(
            &[0x52, 0x65, 0x66, 0x65, 0x72, 0x65, 0x6e, 0x63, 0x65],
        ),
        PdfValue::Dict(es) => dict_type_name(es, &tk, &stk),
        PdfValue::Stream(es, _) => dict_type_name(es, &tk, &stk),
    }
}

/// Reads a dictionary's `/Type` or `/Subtype` name.
fn dict_type_name(es: &Vec<DictEntry>, tk: &[u8; 4], stk: &[u8; 7]) -> (r: String)
    requires
        tk@ == key_type(),
        stk@ == key_subtype(),
    ensures
        r@ == spec_dict_type_name(view_entries(*es, 0)),
{
    proof {
        crate::parser::lemma_dict_get_view(*es, 0, key_type());
        crate::parser::lemma_dict_get_view(*es, 0, key_subtype());
        assert(es@.skip(0) =~= es@);
    }
    match crate::value::dict_get(es, tk.as_slice()) {
        Some(PdfValue::Name(nm)) => lossy_string(nm.as_slice()),
        _ => match crate::value::dict_get(es, stk.as_slice()) {
            Some(PdfValue::Name(nm)) => lossy_string(nm.as_slice()),
            _ => lossy_string(&[0x55, 0x6e, 0x6b, 0x6e, 0x6f, 0x77, 0x6e]),
        },
    }
}

/// The inventory entry records exactly this JavaScript object: its
/// id as the location, its span length, the hash of its raw bytes,
/// and the suspicious flag exactly when the open-action target
/// references it.
pub open spec fn js_entry_matches(
    bytes: Seq<u8>,
    ob: LoadedObject,
    tgt: Option<(int, int)>,
    e: JavaScriptInfo,
) -> bool {
    &&& is_js_object(view_value(ob.value))
    &&& e.location@ == chars_of(spec_id_bytes(ob.id.number as int, ob.id.generation as int))
    &&& e.size as int == ob.end - ob.off
    &&& e.hash@ == crate::utils::base64_of(
        crate::utils::sha256_of(bytes.subrange(ob.off as int, ob.end as int)),
    )
    &&& e.suspicious == (tgt == Some((ob.id.number as int, ob.id.generation as int)))
}

/// The view of an open-action target.
pub open spec fn target_view(target: Option<ObjectId>) -> Option<(int, int)> {
    match target {
        Some(t) => Some((t.number as int, t.generation as int)),
        None => None,
    }
}

/// Collects the JavaScript inventory: objects whose dictionary
/// declares a JavaScript action (`/S /JavaScript`); never a text
/// scan of content bytes. An entry is suspicious when the catalog's
/// `/OpenAction` references it: auto-executing script. Every entry
/// records exactly one JavaScript object, and every JavaScript
/// object has an entry.
fn find_javascript(doc: &Document, target: Option<ObjectId>) -> (r: Vec<JavaScriptInfo>)
    requires
        document_wf(*doc),
    ensures
        r@.len() == spec_count(doc.objects@, |v: ValueS| is_js_object(v)),
        forall|k: int|
            0 <= k < r@.len() ==> exists|j: int|
                0 <= j < doc.objects@.len() && js_entry_matches(
                    doc.bytes@,
                    doc.objects@[j],
                    target_view(target),
                    #[trigger] r@[k],
                ),
        forall|j: int|
            0 <= j < doc.objects@.len() && is_js_object(
                view_value((#[trigger] doc.objects@[j]).value),
            ) ==> exists|k: int|
                0 <= k < r@.len() && js_entry_matches(
                    doc.bytes@,
                    doc.objects@[j],
                    target_view(target),
                    r@[k],
                ),
{
    let mut out: Vec<JavaScriptInfo> = Vec::new();
    let mut i: usize = 0;
    let blen = doc.bytes.len();
    let ghost f = |v: ValueS| is_js_object(v);
    let sk: [u8; 1] = [0x53];
    let jsn: [u8; 10] = [0x4a, 0x61, 0x76, 0x61, 0x53, 0x63, 0x72, 0x69, 0x70, 0x74];
    proof {
        assert(sk@ =~= key_s());
        assert(jsn@ =~= name_javascript());
        assert forall|k: int| 0 <= k < doc.objects@.len() implies (#[trigger] doc.objects@[k]).off
            <= doc.objects@[k].end <= doc.bytes@.len() by {
            assert(object_sound(doc.bytes@, doc.objects@[k]));
            reveal(object_sound);
        }
        lemma_count_bounds(doc.objects@, 0, f);
    }
    while i < doc.objects.len()
        invariant
            0 <= i <= doc.objects@.len(),
            doc.bytes@.len() == blen,
            sk@ == key_s(),
            jsn@ == name_javascript(),
            f == (|v: ValueS| is_js_object(v)),
            forall|k: int| 0 <= k < doc.objects@.len() ==> (#[trigger] doc.objects@[k]).off
                <= doc.objects@[k].end <= doc.bytes@.len(),
            out@.len() + spec_count_from(doc.objects@, i as int, f) == spec_count_from(
                doc.objects@,
                0,
                f,
            ),
            forall|k: int|
                0 <= k < out@.len() ==> exists|j: int|
                    0 <= j < doc.objects@.len() && js_entry_matches(
                        doc.bytes@,
                        doc.objects@[j],
                        target_view(target),
                        #[trigger] out@[k],
                    ),
            forall|j: int|
                0 <= j < i && is_js_object(view_value((#[trigger] doc.objects@[j]).value))
                    ==> exists|k: int|
                    0 <= k < out@.len() && js_entry_matches(
                        doc.bytes@,
                        doc.objects@[j],
                        target_view(target),
                        out@[k],
                    ),
        decreases doc.objects@.len() - i,
    {
        let ob = &doc.objects[i];
        let ghost old_out = out@;
        proof {
            assert((#[trigger] doc.objects@[i as int]).off <= doc.objects@[i as int].end
                <= doc.bytes@.len());
            assert(spec_count_from(doc.objects@, i as int, f) == (if f(
                view_value(doc.objects@[i as int].value),
            ) {
                1int
            } else {
                0int
            }) + spec_count_from(doc.objects@, i + 1, f));
        }
        if has_name_entry_exec(&ob.value, sk.as_slice(), jsn.as_slice()) {
            let span = vstd::slice::slice_subrange(
                doc.bytes.as_slice(),
                ob.off as usize,
                ob.end as usize,
            );
            let hash = crate::utils::calculate_hash(span);
            let suspicious = match target {
                Some(t) => t.number == ob.id.number && t.generation == ob.id.generation,
                None => false,
            };
            let entry = JavaScriptInfo {
                location: id_string(ob.id),
                size: (ob.end - ob.off) as usize,
                hash,
                suspicious,
            };
            proof {
                assert(js_entry_matches(
                    doc.bytes@,
                    doc.objects@[i as int],
                    target_view(target),
                    entry,
                ));
            }
            out.push(entry);
            proof {
                assert(out@[out@.len() - 1] == entry);
                assert forall|k: int| 0 <= k < out@.len() implies exists|j: int|
                    0 <= j < doc.objects@.len() && js_entry_matches(
                        doc.bytes@,
                        doc.objects@[j],
                        target_view(target),
                        #[trigger] out@[k],
                    ) by {
                    if k < old_out.len() {
                        assert(out@[k] == old_out[k]);
                    } else {
                        assert(js_entry_matches(
                            doc.bytes@,
                            doc.objects@[i as int],
                            target_view(target),
                            out@[k],
                        ));
                    }
                }
                assert forall|j: int|
                    0 <= j < i + 1 && is_js_object(
                        view_value((#[trigger] doc.objects@[j]).value),
                    ) implies exists|k: int|
                    0 <= k < out@.len() && js_entry_matches(
                        doc.bytes@,
                        doc.objects@[j],
                        target_view(target),
                        out@[k],
                    ) by {
                    if j < i {
                        let k0 = choose|k: int|
                            0 <= k < old_out.len() && js_entry_matches(
                                doc.bytes@,
                                doc.objects@[j],
                                target_view(target),
                                old_out[k],
                            );
                        assert(out@[k0] == old_out[k0]);
                    } else {
                        assert(js_entry_matches(
                            doc.bytes@,
                            doc.objects@[j],
                            target_view(target),
                            out@[out@.len() - 1],
                        ));
                    }
                }
            }
        } else {
            proof {
                assert(!is_js_object(view_value(doc.objects@[i as int].value)));
            }
        }
        i = i + 1;
    }
    out
}

/// The image's declared `/Width`, when it is an integer in range;
/// zero otherwise.
pub open spec fn spec_img_width(v: ValueS) -> int {
    match spec_dict_of(v) {
        Some(es) => match sval_dict_get(es, key_width()) {
            Some(ValueS::Int(w)) => if 0 <= w <= 0xffff_ffff {
                w
            } else {
                0
            },
            _ => 0,
        },
        None => 0,
    }
}

/// The image's declared `/Height`, when it is an integer in range;
/// zero otherwise.
pub open spec fn spec_img_height(v: ValueS) -> int {
    match spec_dict_of(v) {
        Some(es) => match sval_dict_get(es, key_height()) {
            Some(ValueS::Int(h)) => if 0 <= h <= 0xffff_ffff {
                h
            } else {
                0
            },
            _ => 0,
        },
        None => 0,
    }
}

/// The image's declared `/Filter` name as its format; `Unknown`
/// when none is declared.
pub open spec fn spec_img_format(v: ValueS) -> Seq<char> {
    match spec_dict_of(v) {
        Some(es) => match sval_dict_get(es, key_filter()) {
            Some(ValueS::Name(nm)) => ascii_chars(nm),
            _ => ascii_chars(seq![0x55u8, 0x6eu8, 0x6bu8, 0x6eu8, 0x6fu8, 0x77u8, 0x6eu8]),
        },
        None => ascii_chars(seq![0x55u8, 0x6eu8, 0x6bu8, 0x6eu8, 0x6fu8, 0x77u8, 0x6eu8]),
    }
}

/// The inventory entry records exactly this image object: its id,
/// declared dimensions and format, span length, and the hash of its
/// raw bytes.
pub open spec fn img_entry_matches(bytes: Seq<u8>, ob: LoadedObject, e: ImageInfo) -> bool {
    &&& is_image_object(view_value(ob.value))
    &&& e.id@ == chars_of(spec_id_bytes(ob.id.number as int, ob.id.generation as int))
    &&& e.size as int == ob.end - ob.off
    &&& e.hash@ == crate::utils::base64_of(
        crate::utils::sha256_of(bytes.subrange(ob.off as int, ob.end as int)),
    )
    &&& e.dimensions.0 as int == spec_img_width(view_value(ob.value))
    &&& e.dimensions.1 as int == spec_img_height(view_value(ob.value))
    &&& e.format@ == spec_img_format(view_value(ob.value))
}

/// Collects the image inventory: objects whose `/Subtype` is
/// `/Image`, with declared dimensions, format and the raw content
/// hash. Every entry records exactly one image object, and every
/// image object has an entry.
fn extract_images(doc: &Document) -> (r: Vec<ImageInfo>)
    requires
        document_wf(*doc),
    ensures
        r@.len() == spec_count(doc.objects@, |v: ValueS| is_image_object(v)),
        forall|k: int|
            0 <= k < r@.len() ==> exists|j: int|
                0 <= j < doc.objects@.len() && img_entry_matches(
                    doc.bytes@,
                    doc.objects@[j],
                    #[trigger] r@[k],
                ),
        forall|j: int|
            0 <= j < doc.objects@.len() && is_image_object(
                view_value((#[trigger] doc.objects@[j]).value),
            ) ==> exists|k: int|
                0 <= k < r@.len() && img_entry_matches(doc.bytes@, doc.objects@[j], r@[k]),
{
    let mut out: Vec<ImageInfo> = Vec::new();
    let mut i: usize = 0;
    let blen = doc.bytes.len();
    let ghost f = |v: ValueS| is_image_object(v);
    let stk: [u8; 7] = [0x53, 0x75, 0x62, 0x74, 0x79, 0x70, 0x65];
    let imn: [u8; 5] = [0x49, 0x6d, 0x61, 0x67, 0x65];
    let wk: [u8; 5] = [0x57, 0x69, 0x64, 0x74, 0x68];
    let hk: [u8; 6] = [0x48, 0x65, 0x69, 0x67, 0x68, 0x74];
    let fk: [u8; 6] = [0x46, 0x69, 0x6c, 0x74, 0x65, 0x72];
    proof {
        assert(stk@ =~= key_subtype());
        assert(imn@ =~= name_image());
        assert(wk@ =~= key_width());
        assert(hk@ =~= key_height());
        assert(fk@ =~= key_filter());
        assert forall|k: int| 0 <= k < doc.objects@.len() implies (#[trigger] doc.objects@[k]).off
            <= doc.objects@[k].end <= doc.bytes@.len() by {
            assert(object_sound(doc.bytes@, doc.objects@[k]));
            reveal(object_sound);
        }
        lemma_count_bounds(doc.objects@, 0, f);
    }
    while i < doc.objects.len()
        invariant
            0 <= i <= doc.objects@.len(),
            doc.bytes@.len() == blen,
            stk@ == key_subtype(),
            imn@ == name_image(),
            wk@ == key_width(),
            hk@ == key_height(),
            fk@ == key_filter(),
            f == (|v: ValueS| is_image_object(v)),
            forall|k: int| 0 <= k < doc.objects@.len() ==> (#[trigger] doc.objects@[k]).off
                <= doc.objects@[k].end <= doc.bytes@.len(),
            out@.len() + spec_count_from(doc.objects@, i as int, f) == spec_count_from(
                doc.objects@,
                0,
                f,
            ),
            forall|k: int|
                0 <= k < out@.len() ==> exists|j: int|
                    0 <= j < doc.objects@.len() && img_entry_matches(
                        doc.bytes@,
                        doc.objects@[j],
                        #[trigger] out@[k],
                    ),
            forall|j: int|
                0 <= j < i && is_image_object(view_value((#[trigger] doc.objects@[j]).value))
                    ==> exists|k: int|
                    0 <= k < out@.len() && img_entry_matches(doc.bytes@, doc.objects@[j], out@[k]),
        decreases doc.objects@.len() - i,
    {
        let ob = &doc.objects[i];
        let ghost old_out = out@;
        proof {
            assert((#[trigger] doc.objects@[i as int]).off <= doc.objects@[i as int].end
                <= doc.bytes@.len());
            assert(spec_count_from(doc.objects@, i as int, f) == (if f(
                view_value(doc.objects@[i as int].value),
            ) {
                1int
            } else {
                0int
            }) + spec_count_from(doc.objects@, i + 1, f));
        }
        if has_name_entry_exec(&ob.value, stk.as_slice(), imn.as_slice()) {
            let span = vstd::slice::slice_subrange(
                doc.bytes.as_slice(),
                ob.off as usize,
                ob.end as usize,
            );
            let hash = crate::utils::calculate_hash(span);
            let es: Option<&Vec<DictEntry>> = match &ob.value {
                PdfValue::Dict(es) => Some(es),
                PdfValue::Stream(es, _) => Some(es),
                _ => None,
            };
            let mut width: u32 = 0;
            let mut height: u32 = 0;
            let mut format = lossy_string(&[0x55, 0x6e, 0x6b, 0x6e, 0x6f, 0x77, 0x6e]);
            match es {
                Some(es) => {
                    proof {
                        assert(spec_dict_of(view_value(doc.objects@[i as int].value)) == Some(
                            view_entries(*es, 0),
                        ));
                        crate::parser::lemma_dict_get_view(*es, 0, key_width());
                        crate::parser::lemma_dict_get_view(*es, 0, key_height());
                        crate::parser::lemma_dict_get_view(*es, 0, key_filter());
                        assert(es@.skip(0) =~= es@);
                    }
                    match crate::value::dict_get(es, wk.as_slice()) {
                        Some(PdfValue::Integer(w)) => {
                            if *w >= 0 && *w <= 0xffff_ffffi64 {
                                width = *w as u32;
                            }
                        },
                        _ => {},
                    }
                    match crate::value::dict_get(es, hk.as_slice()) {
                        Some(PdfValue::Integer(h)) => {
                            if *h >= 0 && *h <= 0xffff_ffffi64 {
                                height = *h as u32;
                            }
                        },
                        _ => {},
                    }
                    match crate::value::dict_get(es, fk.as_slice()) {
                        Some(PdfValue::Name(nm)) => {
                            format = lossy_string(nm.as_slice());
                        },
                        _ => {},
                    }
                },
                None => {
                    proof {
                        // An image object always carries a
                        // dictionary.
                        assert(false);
                    }
                },
            }
            let entry = ImageInfo {
                id: id_string(ob.id),
                format,
                dimensions: (width, height),
                size: (ob.end - ob.off) as usize,
                hash,
            };
            proof {
                assert(img_entry_matches(doc.bytes@, doc.objects@[i as int], entry));
            }
            out.push(entry);
            proof {
                assert(out@[out@.len() - 1] == entry);
                assert forall|k: int| 0 <= k < out@.len() implies exists|j: int|
                    0 <= j < doc.objects@.len() && img_entry_matches(
                        doc.bytes@,
                        doc.objects@[j],
                        #[trigger] out@[k],
                    ) by {
                    if k < old_out.len() {
                        assert(out@[k] == old_out[k]);
                    } else {
                        assert(img_entry_matches(doc.bytes@, doc.objects@[i as int], out@[k]));
                    }
                }
                assert forall|j: int|
                    0 <= j < i + 1 && is_image_object(
                        view_value((#[trigger] doc.objects@[j]).value),
                    ) implies exists|k: int|
                    0 <= k < out@.len() && img_entry_matches(
                        doc.bytes@,
                        doc.objects@[j],
                        out@[k],
                    ) by {
                    if j < i {
                        let k0 = choose|k: int|
                            0 <= k < old_out.len() && img_entry_matches(
                                doc.bytes@,
                                doc.objects@[j],
                                old_out[k],
                            );
                        assert(out@[k0] == old_out[k0]);
                    } else {
                        assert(img_entry_matches(
                            doc.bytes@,
                            doc.objects@[j],
                            out@[out@.len() - 1],
                        ));
                    }
                }
            }
        } else {
            proof {
                assert(!is_image_object(view_value(doc.objects@[i as int].value)));
            }
        }
        i = i + 1;
    }
    out
}

/// The page count: every live `/Type /Page` object is counted,
/// reachable or not. This is a deliberate policy: unreachable
/// objects are retained and flagged rather than dropped, so a page
/// hidden from the page tree still counts and still surfaces as an
/// unreachable-object anomaly.
fn count_pages(doc: &Document) -> (r: usize)
    ensures
        r == spec_count(doc.objects@, |v: ValueS| is_page_object(v)),
{
    let tk: [u8; 4] = [0x54, 0x79, 0x70, 0x65];
    let pn: [u8; 4] = [0x50, 0x61, 0x67, 0x65];
    let ghost f = |v: ValueS| is_page_object(v);
    proof {
        assert(tk@ =~= key_type());
        assert(pn@ =~= name_page());
        lemma_count_bounds(doc.objects@, 0, f);
    }
    let mut c: usize = 0;
    let mut i: usize = 0;
    while i < doc.objects.len()
        invariant
            0 <= i <= doc.objects@.len(),
            tk@ == key_type(),
            pn@ == name_page(),
            f == (|v: ValueS| is_page_object(v)),
            c <= i,
            c + spec_count_from(doc.objects@, i as int, f) == spec_count_from(doc.objects@, 0, f),
        decreases doc.objects@.len() - i,
    {
        proof {
            assert(spec_count_from(doc.objects@, i as int, f) == (if f(
                view_value(doc.objects@[i as int].value),
            ) {
                1int
            } else {
                0int
            }) + spec_count_from(doc.objects@, i + 1, f));
        }
        if has_name_entry_exec(&doc.objects[i].value, tk.as_slice(), pn.as_slice()) {
            c = c + 1;
        }
        i = i + 1;
    }
    c
}

/// Inventories embedded files: objects whose `/Type` declares
/// `EmbeddedFile` or `Filespec`, each listed by its object id.
fn extract_embedded(doc: &Document) -> (r: Vec<String>)
    ensures
        r@.len() == spec_count(doc.objects@, |v: ValueS| is_embedded_file_object(v)),
{
    let tk: [u8; 4] = [0x54, 0x79, 0x70, 0x65];
    let efn: [u8; 12] = [0x45, 0x6d, 0x62, 0x65, 0x64, 0x64, 0x65, 0x64, 0x46, 0x69, 0x6c, 0x65];
    let fsn: [u8; 8] = [0x46, 0x69, 0x6c, 0x65, 0x73, 0x70, 0x65, 0x63];
    let ghost f = |v: ValueS| is_embedded_file_object(v);
    proof {
        assert(tk@ =~= key_type());
        assert(efn@ =~= name_embedded_file());
        assert(fsn@ =~= name_filespec());
        lemma_count_bounds(doc.objects@, 0, f);
    }
    let mut out: Vec<String> = Vec::new();
    let mut i: usize = 0;
    while i < doc.objects.len()
        invariant
            0 <= i <= doc.objects@.len(),
            tk@ == key_type(),
            efn@ == name_embedded_file(),
            fsn@ == name_filespec(),
            f == (|v: ValueS| is_embedded_file_object(v)),
            out@.len() + spec_count_from(doc.objects@, i as int, f) == spec_count_from(
                doc.objects@,
                0,
                f,
            ),
        decreases doc.objects@.len() - i,
    {
        proof {
            assert(spec_count_from(doc.objects@, i as int, f) == (if f(
                view_value(doc.objects@[i as int].value),
            ) {
                1int
            } else {
                0int
            }) + spec_count_from(doc.objects@, i + 1, f));
        }
        let ob = &doc.objects[i];
        if has_name_entry_exec(&ob.value, tk.as_slice(), efn.as_slice()) || has_name_entry_exec(
            &ob.value,
            tk.as_slice(),
            fsn.as_slice(),
        ) {
            out.push(id_string(ob.id));
        }
        i = i + 1;
    }
    out
}

/// Detects signature dictionaries (`/Type /Sig`). Presence only:
/// cryptographic validation is out of scope, so no entry is ever
/// claimed valid.
fn verify_signatures(doc: &Document) -> (r: Vec<SignatureInfo>)
    ensures
        r@.len() == spec_count(doc.objects@, |v: ValueS| is_sig_object(v)),
        forall|k: int| 0 <= k < r@.len() ==> !(#[trigger] r@[k]).valid,
{
    let tk: [u8; 4] = [0x54, 0x79, 0x70, 0x65];
    let sn: [u8; 3] = [0x53, 0x69, 0x67];
    let ghost f = |v: ValueS| is_sig_object(v);
    proof {
        assert(tk@ =~= key_type());
        assert(sn@ =~= name_sig());
        lemma_count_bounds(doc.objects@, 0, f);
    }
    let mut out: Vec<SignatureInfo> = Vec::new();
    let mut i: usize = 0;
    while i < doc.objects.len()
        invariant
            0 <= i <= doc.objects@.len(),
            tk@ == key_type(),
            sn@ == name_sig(),
            f == (|v: ValueS| is_sig_object(v)),
            forall|k: int| 0 <= k < out@.len() ==> !(#[trigger] out@[k]).valid,
            out@.len() + spec_count_from(doc.objects@, i as int, f) == spec_count_from(
                doc.objects@,
                0,
                f,
            ),
        decreases doc.objects@.len() - i,
    {
        proof {
            assert(spec_count_from(doc.objects@, i as int, f) == (if f(
                view_value(doc.objects@[i as int].value),
            ) {
                1int
            } else {
                0int
            }) + spec_count_from(doc.objects@, i + 1, f));
        }
        if has_name_entry_exec(&doc.objects[i].value, tk.as_slice(), sn.as_slice()) {
            out.push(
                SignatureInfo {
                    kind_name: ascii_string(&[0x53, 0x69, 0x67]),
                    issuer: String::new(),
                    valid: false,
                    timestamp: 0,
                },
            );
        }
        i = i + 1;
    }
    out
}

pub open spec fn key_length() -> Seq<u8> {
    seq![0x4cu8, 0x65u8, 0x6eu8, 0x67u8, 0x74u8, 0x68u8]
}

pub open spec fn key_encrypt_metadata() -> Seq<u8> {
    seq![
        0x45u8,
        0x6eu8,
        0x63u8,
        0x72u8,
        0x79u8,
        0x70u8,
        0x74u8,
        0x4du8,
        0x65u8,
        0x74u8,
        0x61u8,
        0x64u8,
        0x61u8,
        0x74u8,
        0x61u8,
    ]
}

/// The default security handler's name.
pub open spec fn name_standard() -> Seq<u8> {
    seq![0x53u8, 0x74u8, 0x61u8, 0x6eu8, 0x64u8, 0x61u8, 0x72u8, 0x64u8]
}

/// The encryption dictionary's entries: the trailer's `/Encrypt`
/// value itself when it is a dictionary, or the live object it
/// references.
pub open spec fn spec_encrypt_dict(
    trailer: Seq<(Seq<u8>, ValueS)>,
    objs: Seq<LoadedObject>,
) -> Option<Seq<(Seq<u8>, ValueS)>> {
    match sval_dict_get(trailer, key_encrypt()) {
        Some(ValueS::Ref(n, g)) => match spec_obj_lookup(objs, n, g) {
            Some(ValueS::Dict(es)) => Some(es),
            _ => None,
        },
        Some(ValueS::Dict(es)) => Some(es),
        _ => None,
    }
}

/// The declared key length, clamped to the standard range; 40 when
/// absent or out of range.
pub open spec fn spec_enc_strength(ed: Option<Seq<(Seq<u8>, ValueS)>>) -> int {
    match ed {
        Some(es) => match sval_dict_get(es, key_length()) {
            Some(ValueS::Int(l)) => if 40 <= l <= 256 {
                l
            } else {
                40
            },
            _ => 40,
        },
        None => 40,
    }
}

/// The declared security handler's name; `Standard` (the format's
/// default handler) when no `/Filter` name is declared.
pub open spec fn spec_enc_method(ed: Option<Seq<(Seq<u8>, ValueS)>>) -> Seq<char> {
    match ed {
        Some(es) => match sval_dict_get(es, key_filter()) {
            Some(ValueS::Name(nm)) => ascii_chars(nm),
            _ => ascii_chars(name_standard()),
        },
        None => ascii_chars(name_standard()),
    }
}

/// The declared `/EncryptMetadata` flag; true (the format's
/// default) when absent.
pub open spec fn spec_enc_metadata_flag(ed: Option<Seq<(Seq<u8>, ValueS)>>) -> bool {
    match ed {
        Some(es) => match sval_dict_get(es, key_encrypt_metadata()) {
            Some(ValueS::Bool(b)) => b,
            _ => true,
        },
        None => true,
    }
}

/// Summarizes the declared encryption parameters. Present exactly
/// when the trailer carries `/Encrypt`; the method is the declared
/// `/Filter` handler name, the strength the declared `/Length`, and
/// the metadata flag the declared `/EncryptMetadata`, each with the
/// format's default when absent. No key derivation or decryption is
/// attempted.
fn analyze_encryption(doc: &Document) -> (r: Option<EncryptionInfo>)
    ensures
        r is Some <==> sval_dict_get(view_entries(doc.trailer, 0), key_encrypt()) is Some,
        match r {
            Some(e) => {
                &&& e.strength as int == spec_enc_strength(
                    spec_encrypt_dict(view_entries(doc.trailer, 0), doc.objects@),
                )
                &&& e.method@ == spec_enc_method(
                    spec_encrypt_dict(view_entries(doc.trailer, 0), doc.objects@),
                )
                &&& e.encrypted_metadata == spec_enc_metadata_flag(
                    spec_encrypt_dict(view_entries(doc.trailer, 0), doc.objects@),
                )
            },
            None => true,
        },
{
    let ek: [u8; 7] = [0x45, 0x6e, 0x63, 0x72, 0x79, 0x70, 0x74];
    let lk: [u8; 6] = [0x4c, 0x65, 0x6e, 0x67, 0x74, 0x68];
    let fk: [u8; 6] = [0x46, 0x69, 0x6c, 0x74, 0x65, 0x72];
    let emk: [u8; 15] = [0x45, 0x6e, 0x63, 0x72, 0x79, 0x70, 0x74, 0x4d, 0x65, 0x74, 0x61, 0x64,
        0x61, 0x74, 0x61];
    proof {
        assert(ek@ =~= key_encrypt());
        assert(lk@ =~= key_length());
        assert(fk@ =~= key_filter());
        assert(emk@ =~= key_encrypt_metadata());
        crate::parser::lemma_dict_get_view(doc.trailer, 0, key_encrypt());
        assert(doc.trailer@.skip(0) =~= doc.trailer@);
    }
    match crate::value::dict_get(&doc.trailer, ek.as_slice()) {
        Some(v) => {
            // Declared parameters, when the dictionary is inline or
            // resolvable; the format's defaults otherwise.
            let mut strength: u16 = 40;
            let mut method = lossy_string(&[0x53, 0x74, 0x61, 0x6e, 0x64, 0x61, 0x72, 0x64]);
            let mut encrypted_metadata = true;
            proof {
                assert(seq![0x53u8, 0x74u8, 0x61u8, 0x6eu8, 0x64u8, 0x61u8, 0x72u8, 0x64u8]
                    =~= name_standard());
            }
            let target: Option<&PdfValue> = match v {
                PdfValue::Reference(n, g) => lookup_object(&doc.objects, *n, *g),
                other => Some(other),
            };
            match target {
                Some(PdfValue::Dict(es)) => {
                    proof {
                        assert(spec_encrypt_dict(view_entries(doc.trailer, 0), doc.objects@)
                            == Some(view_entries(*es, 0)));
                        crate::parser::lemma_dict_get_view(*es, 0, key_length());
                        crate::parser::lemma_dict_get_view(*es, 0, key_filter());
                        crate::parser::lemma_dict_get_view(*es, 0, key_encrypt_metadata());
                        assert(es@.skip(0) =~= es@);
                    }
                    match crate::value::dict_get(es, lk.as_slice()) {
                        Some(PdfValue::Integer(l)) => {
                            if *l >= 40 && *l <= 256 {
                                strength = *l as u16;
                            }
                        },
                        _ => {},
                    }
                    match crate::value::dict_get(es, fk.as_slice()) {
                        Some(PdfValue::Name(nm)) => {
                            method = lossy_string(nm.as_slice());
                        },
                        _ => {},
                    }
                    match crate::value::dict_get(es, emk.as_slice()) {
                        Some(PdfValue::Bool(b)) => {
                            encrypted_metadata = *b;
                        },
                        _ => {},
                    }
                },
                _ => {
                    proof {
                        assert(spec_encrypt_dict(view_entries(doc.trailer, 0), doc.objects@)
                            is None);
                    }
                },
            }
            Some(EncryptionInfo { method, strength, encrypted_metadata })
        },
        None => None,
    }
}

/// The `/Info` dictionary's entries: the trailer's `/Info` value
/// itself when it is a dictionary, or the live object it references.
pub open spec fn spec_info_entries(
    trailer: Seq<(Seq<u8>, ValueS)>,
    objs: Seq<LoadedObject>,
) -> Option<Seq<(Seq<u8>, ValueS)>> {
    match sval_dict_get(trailer, key_info()) {
        Some(ValueS::Ref(n, g)) => match spec_obj_lookup(objs, n, g) {
            Some(ValueS::Dict(es)) => Some(es),
            _ => None,
        },
        Some(ValueS::Dict(es)) => Some(es),
        _ => None,
    }
}

/// The text-valued entries of a dictionary, in order, keys and
/// values projected to characters.
pub open spec fn spec_text_entries(es: Seq<(Seq<u8>, ValueS)>) -> Seq<(Seq<char>, Seq<char>)>
    decreases es.len(),
{
    if es.len() == 0 {
        Seq::empty()
    } else {
        (match es[0].1 {
            ValueS::Text(t) => seq![(ascii_chars(es[0].0), ascii_chars(t))],
            _ => Seq::empty(),
        }) + spec_text_entries(es.drop_first())
    }
}

/// The character view of a list of string pairs.
pub open spec fn string_pairs_view(v: Seq<(String, String)>) -> Seq<(Seq<char>, Seq<char>)> {
    Seq::new(v.len(), |i: int| (v[i].0@, v[i].1@))
}

/// What the metadata pass yields: the text-valued entries of the
/// resolved `/Info` dictionary, or nothing when there is none.
pub open spec fn spec_metadata(
    trailer: Seq<(Seq<u8>, ValueS)>,
    objs: Seq<LoadedObject>,
) -> Seq<(Seq<char>, Seq<char>)> {
    match spec_info_entries(trailer, objs) {
        Some(es) => spec_text_entries(es),
        None => Seq::empty(),
    }
}

/// Extracts document metadata: exactly the text-valued entries of
/// the trailer's `/Info` dictionary, keys and values as the entry
/// bytes' characters, in dictionary order.
fn extract_metadata(doc: &Document) -> (r: Vec<(String, String)>)
    ensures
        string_pairs_view(r@) == spec_metadata(view_entries(doc.trailer, 0), doc.objects@),
{
    let ik: [u8; 4] = [0x49, 0x6e, 0x66, 0x6f];
    proof {
        assert(ik@ =~= key_info());
        crate::parser::lemma_dict_get_view(doc.trailer, 0, key_info());
        assert(doc.trailer@.skip(0) =~= doc.trailer@);
    }
    let mut out: Vec<(String, String)> = Vec::new();
    let info: Option<&PdfValue> = match crate::value::dict_get(&doc.trailer, ik.as_slice()) {
        Some(PdfValue::Reference(n, g)) => lookup_object(&doc.objects, *n, *g),
        Some(other) => Some(other),
        None => None,
    };
    match info {
        Some(PdfValue::Dict(es)) => {
            proof {
                assert(spec_info_entries(view_entries(doc.trailer, 0), doc.objects@) == Some(
                    view_entries(*es, 0),
                ));
                assert(string_pairs_view(out@) + spec_text_entries(view_entries(*es, 0))
                    =~= spec_text_entries(view_entries(*es, 0)));
            }
            let mut i: usize = 0;
            while i < es.len()
                invariant
                    0 <= i <= es@.len(),
                    string_pairs_view(out@) + spec_text_entries(view_entries(*es, i as int))
                        == spec_text_entries(view_entries(*es, 0)),
                decreases es@.len() - i,
            {
                let ghost pre = string_pairs_view(out@);
                proof {
                    assert(view_entries(*es, i as int) == seq![
                        crate::parser::view_entry(es@[i as int]),
                    ] + view_entries(*es, i + 1));
                    assert((seq![crate::parser::view_entry(es@[i as int])] + view_entries(
                        *es,
                        i + 1,
                    )).drop_first() =~= view_entries(*es, i + 1));
                    assert((seq![crate::parser::view_entry(es@[i as int])] + view_entries(
                        *es,
                        i + 1,
                    ))[0] == crate::parser::view_entry(es@[i as int]));
                }
                match &es[i].value {
                    PdfValue::Text(t) => {
                        let key = lossy_string(es[i].key.as_slice());
                        let val = lossy_string(t.as_slice());
                        out.push((key, val));
                        proof {
                            assert(string_pairs_view(out@) =~= pre + seq![
                                (ascii_chars(es@[i as int].key@), ascii_chars(t@)),
                            ]);
                            assert((pre + seq![
                                (ascii_chars(es@[i as int].key@), ascii_chars(t@)),
                            ]) + spec_text_entries(view_entries(*es, i + 1)) =~= pre + (seq![
                                (ascii_chars(es@[i as int].key@), ascii_chars(t@)),
                            ] + spec_text_entries(view_entries(*es, i + 1))));
                        }
                    },
                    _ => {},
                }
                i = i + 1;
            }
            proof {
                assert(spec_text_entries(view_entries(*es, i as int))
                    =~= Seq::<(Seq<char>, Seq<char>)>::empty());
                assert(string_pairs_view(out@) + Seq::<(Seq<char>, Seq<char>)>::empty()
                    =~= string_pairs_view(out@));
            }
        },
        _ => {
            proof {
                assert(string_pairs_view(out@) =~= Seq::<(Seq<char>, Seq<char>)>::empty());
            }
        },
    }
    out
}

/// The object ids referenced directly by a value: the value itself
/// when it is a reference, or the immediate array items and
/// dictionary entry values that are references.
fn direct_ref_targets(v: &PdfValue) -> (r: Vec<ObjectId>) {
    let mut out: Vec<ObjectId> = Vec::new();
    match v {
        PdfValue::Reference(n, g) => {
            out.push(ObjectId { number: *n, generation: *g });
        },
        PdfValue::Array(items) => {
            let mut i: usize = 0;
            while i < items.len()
                invariant
                    0 <= i <= items@.len(),
                decreases items@.len() - i,
            {
                match &items[i] {
                    PdfValue::Reference(n, g) => {
                        out.push(ObjectId { number: *n, generation: *g });
                    },
                    _ => {},
                }
                i = i + 1;
            }
        },
        PdfValue::Dict(es) => {
            let mut i: usize = 0;
            while i < es.len()
                invariant
                    0 <= i <= es@.len(),
                decreases es@.len() - i,
            {
                match &es[i].value {
                    PdfValue::Reference(n, g) => {
                        out.push(ObjectId { number: *n, generation: *g });
                    },
                    _ => {},
                }
                i = i + 1;
            }
        },
        PdfValue::Stream(es, _) => {
            let mut i: usize = 0;
            while i < es.len()
                invariant
                    0 <= i <= es@.len(),
                decreases es@.len() - i,
            {
                match &es[i].value {
                    PdfValue::Reference(n, g) => {
                        out.push(ObjectId { number: *n, generation: *g });
                    },
                    _ => {},
                }
                i = i + 1;
            }
        },
        _ => {},
    }
    out
}

/// Whether `to` is reachable from `from`'s direct references,
/// following reference edges between live objects. Bounded search
/// with an explicit visited set, so it terminates on any graph,
/// cyclic or not; the fuel is sized by the live-object count, which
/// the distinct visited live objects can never exceed.
fn reaches(objs: &Vec<LoadedObject>, from: &PdfValue, to: ObjectId) -> (r: bool) {
    let mut visited: Vec<u64> = Vec::new();
    let mut queue: Vec<ObjectId> = direct_ref_targets(from);
    if objs.len() >= 0x1000_0000 {
        return false;
    }
    let mut fuel: u64 = objs.len() as u64 + 16;
    loop
        invariant
            true,
        decreases fuel, queue@.len(),
    {
        if queue.len() == 0 || fuel == 0 {
            return false;
        }
        let id = queue[queue.len() - 1];
        queue.remove(queue.len() - 1);
        if id.number == to.number && id.generation == to.generation {
            return true;
        }
        let key = id.key();
        let mut seen = false;
        let mut k: usize = 0;
        while k < visited.len()
            invariant
                0 <= k <= visited@.len(),
            decreases visited@.len() - k,
        {
            if visited[k] == key {
                seen = true;
                k = visited.len();
            } else {
                k = k + 1;
            }
        }
        if !seen {
            match lookup_object(objs, id.number, id.generation) {
                Some(v) => {
                    fuel = fuel - 1;
                    visited.push(key);
                    let mut ts = direct_ref_targets(v);
                    queue.append(&mut ts);
                },
                None => {},
            }
        }
    }
}

/// Detects reference cycles among the live objects and records one
/// `CyclicReference` anomaly per distinct cycle: the cycle's first
/// member in id order stands for it, and members of an already
/// reported cycle are not reported again. Resolution itself never
/// recurses unboundedly: every traversal here carries a visited set.
fn find_cycle_anomalies(doc: &Document, paranoid: bool) -> (r: Vec<Anomaly>)
    ensures
        r@.len() <= doc.objects@.len(),
        forall|k: int|
            0 <= k < r@.len() ==> (#[trigger] r@[k]).kind matches AnomalyKind::CyclicReference(_),
{
    let mut out: Vec<Anomaly> = Vec::new();
    let mut reps: Vec<ObjectId> = Vec::new();
    let mut i: usize = 0;
    while i < doc.objects.len()
        invariant
            0 <= i <= doc.objects@.len(),
            out@.len() == reps@.len(),
            out@.len() <= i,
            forall|k: int|
                0 <= k < out@.len() ==> (#[trigger] out@[k]).kind matches
                    AnomalyKind::CyclicReference(_),
        decreases doc.objects@.len() - i,
    {
        let ob = &doc.objects[i];
        if reaches(&doc.objects, &ob.value, ob.id) {
            // On a cycle; report it once, through its first member.
            let mut already = false;
            let mut k: usize = 0;
            while k < reps.len()
                invariant
                    0 <= k <= reps@.len(),
                decreases reps@.len() - k,
            {
                let rep = reps[k];
                match lookup_object(&doc.objects, rep.number, rep.generation) {
                    Some(rv) => {
                        if reaches(&doc.objects, rv, ob.id) && reaches(
                            &doc.objects,
                            &ob.value,
                            rep,
                        ) {
                            already = true;
                            k = reps.len();
                        } else {
                            k = k + 1;
                        }
                    },
                    None => {
                        k = k + 1;
                    },
                }
            }
            if !already {
                reps.push(ob.id);
                out.push(make_anomaly(AnomalyKind::CyclicReference(ob.id.number), paranoid));
            }
        }
        i = i + 1;
    }
    out
}

fn dup_strings(v: &Vec<String>) -> (r: Vec<String>)
    ensures
        r@ == v@,
{
    let mut out: Vec<String> = Vec::new();
    let mut i: usize = 0;
    while i < v.len()
        invariant
            0 <= i <= v@.len(),
            out@ =~= v@.take(i as int),
        decreases v@.len() - i,
    {
        out.push(v[i].clone());
        proof {
            assert(out@ =~= v@.take(i + 1));
        }
        i = i + 1;
    }
    proof {
        assert(v@.take(i as int) =~= v@);
    }
    out
}

fn dup_string_pairs(v: &Vec<(String, String)>) -> (r: Vec<(String, String)>)
    ensures
        r@ == v@,
{
    let mut out: Vec<(String, String)> = Vec::new();
    let mut i: usize = 0;
    while i < v.len()
        invariant
            0 <= i <= v@.len(),
            out@ =~= v@.take(i as int),
        decreases v@.len() - i,
    {
        out.push((v[i].0.clone(), v[i].1.clone()));
        proof {
            assert(out@ =~= v@.take(i + 1));
        }
        i = i + 1;
    }
    proof {
        assert(v@.take(i as int) =~= v@);
    }
    out
}

/// The auto-executing-script condition: the catalog's `/OpenAction`
/// references a live JavaScript action object; the value is that
/// object's number.
pub open spec fn spec_auto_exec(doc: Document) -> Option<int> {
    match spec_open_action(view_entries(doc.trailer, 0), doc.objects@) {
        Some((n, g)) => match spec_obj_lookup(doc.objects@, n, g) {
            Some(v) => if is_js_object(v) {
                Some(n)
            } else {
                None
            },
            None => None,
        },
        None => None,
    }
}

/// The position at which a stream's declared filter chain fails on
/// its raw bytes, if it fails; `None` for non-streams and clean
/// decodes.
pub open spec fn spec_decode_fail(v: ValueS) -> Option<int> {
    match v {
        ValueS::Stream(es, raw) => match crate::decode::sp_apply_chain(
            raw,
            spec_filter_list(es),
            0,
        ) {
            Ok(_) => None,
            Err(i) => Some(i),
        },
        _ => None,
    }
}

/// What the classification pass may add beyond the document's own
/// anomaly list, and only with its stated meaning: an auto-exec
/// entry only when the open action really leads to script, a decode
/// failure only for a live stream whose chain really fails there, an
/// unreachable flag only for a live object, and cycle reports.
pub open spec fn extra_anomaly_ok(doc: Document, an: Anomaly) -> bool {
    match an.kind {
        AnomalyKind::AutoExecScript(n) => spec_auto_exec(doc) == Some(n as int),
        AnomalyKind::UnreachableObject(n) => exists|k: int|
            0 <= k < doc.objects@.len() && (#[trigger] doc.objects@[k]).id.number == n,
        AnomalyKind::DecodeFailure(n, g, p) => exists|k: int|
            0 <= k < doc.objects@.len() && (#[trigger] doc.objects@[k]).id.number == n
                && doc.objects@[k].id.generation == g && spec_decode_fail(
                view_value(doc.objects@[k].value),
            ) == Some(p as int),
        AnomalyKind::CyclicReference(_) => true,
        _ => false,
    }
}

/// Builds the full analysis of a loaded document. Every clause of
/// `analysis_sound` is proved of the result: the fingerprint, the
/// version text, the metadata pairs, every per-object record, every
/// JavaScript entry (both ways), the inventory counts, the
/// encryption answer, and the anomaly list — the document's own
/// anomalies as a prefix, each addition constrained to its stated
/// meaning, the auto-exec anomaly present if and only if owed, and a
/// decode-failure anomaly present for every failing live stream.
pub open spec fn analysis_sound(a: PdfAnalysis, doc: Document) -> bool {
    &&& a.version@ == ascii_chars(doc.version@)
    &&& a.fingerprint@ == spec_fingerprint(doc.bytes@, doc.objects@)
    &&& string_pairs_view(a.metadata@) == spec_metadata(
        view_entries(doc.trailer, 0),
        doc.objects@,
    )
    &&& a.objects@.len() == doc.objects@.len()
    &&& forall|k: int|
        0 <= k < a.objects@.len() ==> (#[trigger] a.objects@[k]).id == (
        doc.objects@[k].id.number,
        doc.objects@[k].id.generation,
        ) && a.objects@[k].size as int == doc.objects@[k].end - doc.objects@[k].off
            && a.objects@[k].hash@ == crate::utils::base64_of(
            crate::utils::sha256_of(
                doc.bytes@.subrange(doc.objects@[k].off as int, doc.objects@[k].end as int),
            ),
        ) && a.objects@[k].kind_name@ == spec_type_name(view_value(doc.objects@[k].value))
    &&& a.javascript@.len() == spec_count(doc.objects@, |v: ValueS| is_js_object(v))
    &&& forall|k: int|
        0 <= k < a.javascript@.len() ==> exists|j: int|
            0 <= j < doc.objects@.len() && js_entry_matches(
                doc.bytes@,
                doc.objects@[j],
                spec_open_action(view_entries(doc.trailer, 0), doc.objects@),
                #[trigger] a.javascript@[k],
            )
    &&& forall|j: int|
        0 <= j < doc.objects@.len() && is_js_object(
            view_value((#[trigger] doc.objects@[j]).value),
        ) ==> exists|k: int|
            0 <= k < a.javascript@.len() && js_entry_matches(
                doc.bytes@,
                doc.objects@[j],
                spec_open_action(view_entries(doc.trailer, 0), doc.objects@),
                a.javascript@[k],
            )
    &&& a.images@.len() == spec_count(doc.objects@, |v: ValueS| is_image_object(v))
    &&& forall|k: int|
        0 <= k < a.images@.len() ==> exists|j: int|
            0 <= j < doc.objects@.len() && img_entry_matches(
                doc.bytes@,
                doc.objects@[j],
                #[trigger] a.images@[k],
            )
    &&& forall|j: int|
        0 <= j < doc.objects@.len() && is_image_object(
            view_value((#[trigger] doc.objects@[j]).value),
        ) ==> exists|k: int|
            0 <= k < a.images@.len() && img_entry_matches(
                doc.bytes@,
                doc.objects@[j],
                a.images@[k],
            )
    &&& a.signatures@.len() == spec_count(doc.objects@, |v: ValueS| is_sig_object(v))
    &&& a.embedded_files@.len() == spec_count(
        doc.objects@,
        |v: ValueS| is_embedded_file_object(v),
    )
    &&& (a.encryption is Some <==> sval_dict_get(view_entries(doc.trailer, 0), key_encrypt())
        is Some)
    &&& a.page_count as int == spec_count(doc.objects@, |v: ValueS| is_page_object(v)) % 0x1_0000_0000
    &&& a.anomalies@.len() >= doc.anomalies@.len()
    &&& a.anomalies@.take(doc.anomalies@.len() as int) == doc.anomalies@
    &&& forall|k: int|
        doc.anomalies@.len() <= k < a.anomalies@.len() ==> extra_anomaly_ok(
            doc,
            #[trigger] a.anomalies@[k],
        )
    &&& (spec_auto_exec(doc) matches Some(n) ==> has_anomaly(
        a.anomalies@,
        AnomalyKind::AutoExecScript(n as u32),
    ))
    &&& forall|j: int|
        0 <= j < doc.objects@.len() ==> ((#[trigger] spec_decode_fail(
            view_value(doc.objects@[j].value),
        )) matches Some(p) ==> has_anomaly(
            a.anomalies@,
            AnomalyKind::DecodeFailure(
                doc.objects@[j].id.number,
                doc.objects@[j].id.generation,
                p as usize,
            ),
        ))
}

/// Gathers the classification pass's individual guarantees into
/// `analysis_sound`; each premise is one of its clauses.
proof fn lemma_analysis_sound(a: PdfAnalysis, doc: Document)
    requires
        a.version@ == ascii_chars(doc.version@),
        a.fingerprint@ == spec_fingerprint(doc.bytes@, doc.objects@),
        string_pairs_view(a.metadata@) == spec_metadata(view_entries(doc.trailer, 0), doc.objects@),
        a.objects@.len() == doc.objects@.len(),
        forall|k: int|
            0 <= k < a.objects@.len() ==> (#[trigger] a.objects@[k]).id == (
            doc.objects@[k].id.number,
            doc.objects@[k].id.generation,
            ) && a.objects@[k].size as int == doc.objects@[k].end - doc.objects@[k].off
                && a.objects@[k].hash@ == crate::utils::base64_of(
                crate::utils::sha256_of(
                    doc.bytes@.subrange(doc.objects@[k].off as int, doc.objects@[k].end as int),
                ),
            ) && a.objects@[k].kind_name@ == spec_type_name(view_value(doc.objects@[k].value)),
        a.javascript@.len() == spec_count(doc.objects@, |v: ValueS| is_js_object(v)),
        forall|k: int|
            0 <= k < a.javascript@.len() ==> exists|j: int|
                0 <= j < doc.objects@.len() && js_entry_matches(
                    doc.bytes@,
                    doc.objects@[j],
                    spec_open_action(view_entries(doc.trailer, 0), doc.objects@),
                    #[trigger] a.javascript@[k],
                ),
        forall|j: int|
            0 <= j < doc.objects@.len() && is_js_object(
                view_value((#[trigger] doc.objects@[j]).value),
            ) ==> exists|k: int|
                0 <= k < a.javascript@.len() && js_entry_matches(
                    doc.bytes@,
                    doc.objects@[j],
                    spec_open_action(view_entries(doc.trailer, 0), doc.objects@),
                    a.javascript@[k],
                ),
        a.images@.len() == spec_count(doc.objects@, |v: ValueS| is_image_object(v)),
        forall|k: int|
            0 <= k < a.images@.len() ==> exists|j: int|
                0 <= j < doc.objects@.len() && img_entry_matches(
                    doc.bytes@,
                    doc.objects@[j],
                    #[trigger] a.images@[k],
                ),
        forall|j: int|
            0 <= j < doc.objects@.len() && is_image_object(
                view_value((#[trigger] doc.objects@[j]).value),
            ) ==> exists|k: int|
                0 <= k < a.images@.len() && img_entry_matches(
                    doc.bytes@,
                    doc.objects@[j],
                    a.images@[k],
                ),
        a.signatures@.len() == spec_count(doc.objects@, |v: ValueS| is_sig_object(v)),
        a.embedded_files@.len() == spec_count(doc.objects@, |v: ValueS| is_embedded_file_object(v)),
        a.encryption is Some <==> sval_dict_get(view_entries(doc.trailer, 0), key_encrypt())
            is Some,
        a.page_count as int == spec_count(doc.objects@, |v: ValueS| is_page_object(v))
            % 0x1_0000_0000,
        a.anomalies@.len() >= doc.anomalies@.len(),
        a.anomalies@.take(doc.anomalies@.len() as int) == doc.anomalies@,
        forall|k: int|
            doc.anomalies@.len() <= k < a.anomalies@.len() ==> extra_anomaly_ok(
                doc,
                #[trigger] a.anomalies@[k],
            ),
        spec_auto_exec(doc) matches Some(n) ==> has_anomaly(
            a.anomalies@,
            AnomalyKind::AutoExecScript(n as u32),
        ),
        forall|j: int|
            0 <= j < doc.objects@.len() ==> ((#[trigger] spec_decode_fail(
                view_value(doc.objects@[j].value),
            )) matches Some(p) ==> has_anomaly(
                a.anomalies@,
                AnomalyKind::DecodeFailure(
                    doc.objects@[j].id.number,
                    doc.objects@[j].id.generation,
                    p as usize,
                ),
            )),
    ensures
        analysis_sound(a, doc),
{
}

/// One classification pass over the document.
#[verifier::rlimit(100)]
pub fn compute_analysis(doc: &Document, paranoid: bool) -> (r: PdfAnalysis)
    requires
        document_wf(*doc),
    ensures
        analysis_sound(r, *doc),
{
    let fingerprint = document_fingerprint(doc);
    let target = open_action_target(&doc.trailer, &doc.objects);
    proof {
        assert(target_view(target) == spec_open_action(
            view_entries(doc.trailer, 0),
            doc.objects@,
        ));
    }
    let objects = classify_objects(doc);
    let javascript = find_javascript(doc, target);
    let images = extract_images(doc);
    let signatures = verify_signatures(doc);
    let embedded_files = extract_embedded(doc);
    let encryption = analyze_encryption(doc);
    let metadata = extract_metadata(doc);
    let pages = count_pages(doc);
    let ghost dlen = doc.anomalies@.len() as int;
    let mut anomalies: Vec<Anomaly> = Vec::new();
    let mut i: usize = 0;
    while i < doc.anomalies.len()
        invariant
            0 <= i <= doc.anomalies@.len(),
            anomalies@ =~= doc.anomalies@.take(i as int),
        decreases doc.anomalies@.len() - i,
    {
        anomalies.push(doc.anomalies[i]);
        proof {
            assert(anomalies@ =~= doc.anomalies@.take(i + 1));
        }
        i = i + 1;
    }
    proof {
        assert(doc.anomalies@.take(i as int) =~= doc.anomalies@);
        assert(anomalies@.take(dlen) =~= doc.anomalies@);
    }
    // Auto-executing script: the catalog's `/OpenAction` leads to a
    // JavaScript action object.
    match target {
        Some(t) => {
            match lookup_object(&doc.objects, t.number, t.generation) {
                Some(v) => {
                    let sk: [u8; 1] = [0x53];
                    let jsn: [u8; 10] = [0x4a, 0x61, 0x76, 0x61, 0x53, 0x63, 0x72, 0x69, 0x70,
                        0x74];
                    proof {
                        assert(sk@ =~= key_s());
                        assert(jsn@ =~= name_javascript());
                    }
                    if has_name_entry_exec(v, sk.as_slice(), jsn.as_slice()) {
                        let ghost old_anoms = anomalies@;
                        anomalies.push(
                            make_anomaly(AnomalyKind::AutoExecScript(t.number), paranoid),
                        );
                        proof {
                            assert(spec_auto_exec(*doc) == Some(t.number as int));
                            assert(anomalies@.take(dlen) =~= old_anoms.take(dlen));
                            assert(anomalies@[anomalies@.len() - 1].kind
                                == AnomalyKind::AutoExecScript(t.number));
                            assert(extra_anomaly_ok(*doc, anomalies@[anomalies@.len() - 1]));
                        }
                    } else {
                        proof {
                            assert(spec_auto_exec(*doc) is None);
                        }
                    }
                },
                None => {
                    proof {
                        assert(spec_auto_exec(*doc) is None);
                    }
                },
            }
        },
        None => {
            proof {
                assert(spec_auto_exec(*doc) is None);
            }
        },
    }
    // Unreachable objects: retained, but flagged as residue.
    let reach = reachable_ids(doc);
    let mut ui: usize = 0;
    while ui < doc.objects.len()
        invariant
            0 <= ui <= doc.objects@.len(),
            dlen == doc.anomalies@.len() as int,
            anomalies@.len() >= dlen,
            anomalies@.take(dlen) == doc.anomalies@,
            forall|k: int|
                dlen <= k < anomalies@.len() ==> extra_anomaly_ok(*doc, #[trigger] anomalies@[k]),
            spec_auto_exec(*doc) matches Some(n) ==> has_anomaly(
                anomalies@,
                AnomalyKind::AutoExecScript(n as u32),
            ),
        decreases doc.objects@.len() - ui,
    {
        let id = doc.objects[ui].id;
        let key = id.key();
        let mut found = false;
        let mut rk2: usize = 0;
        while rk2 < reach.len()
            invariant
                0 <= rk2 <= reach@.len(),
            decreases reach@.len() - rk2,
        {
            if reach[rk2] == key {
                found = true;
                rk2 = reach.len();
            } else {
                rk2 = rk2 + 1;
            }
        }
        if !found {
            let ghost old_anoms = anomalies@;
            anomalies.push(make_anomaly(AnomalyKind::UnreachableObject(id.number), paranoid));
            proof {
                assert(dlen <= old_anoms.len());
                assert(forall|q: int| 0 <= q < old_anoms.len() ==> anomalies@[q] == old_anoms[q]);
                assert(anomalies@.take(dlen) =~= old_anoms.take(dlen));
                assert((#[trigger] doc.objects@[ui as int]).id.number == id.number);
                assert(extra_anomaly_ok(*doc, anomalies@[anomalies@.len() - 1]));
                assert forall|k: int| dlen <= k < anomalies@.len() implies extra_anomaly_ok(
                    *doc,
                    #[trigger] anomalies@[k],
                ) by {
                    if k < old_anoms.len() {
                        assert(anomalies@[k] == old_anoms[k]);
                        assert(extra_anomaly_ok(*doc, old_anoms[k]));
                    }
                }
                assert forall|kk: AnomalyKind| has_anomaly(old_anoms, kk) implies has_anomaly(
                    anomalies@,
                    kk,
                ) by {
                    let j0 = choose|j: int|
                        0 <= j < old_anoms.len() && (#[trigger] old_anoms[j]).kind == kk;
                    assert(anomalies@[j0] == old_anoms[j0]);
                }
            }
        }
        ui = ui + 1;
    }
    // Per-stream decode outcomes: a failure becomes an anomaly with
    // the failing filter's position; the raw bytes stay available.
    let mut di: usize = 0;
    while di < doc.objects.len()
        invariant
            0 <= di <= doc.objects@.len(),
            dlen == doc.anomalies@.len() as int,
            anomalies@.len() >= dlen,
            anomalies@.take(dlen) == doc.anomalies@,
            forall|k: int|
                dlen <= k < anomalies@.len() ==> extra_anomaly_ok(*doc, #[trigger] anomalies@[k]),
            spec_auto_exec(*doc) matches Some(n) ==> has_anomaly(
                anomalies@,
                AnomalyKind::AutoExecScript(n as u32),
            ),
            forall|q: int|
                0 <= q < di ==> ((#[trigger] spec_decode_fail(
                    view_value(doc.objects@[q].value),
                )) matches Some(p) ==> has_anomaly(
                    anomalies@,
                    AnomalyKind::DecodeFailure(
                        doc.objects@[q].id.number,
                        doc.objects@[q].id.generation,
                        p as usize,
                    ),
                )),
        decreases doc.objects@.len() - di,
    {
        let ob = &doc.objects[di];
        match decode_stream(&ob.value) {
            Some(Err(p)) => {
                let ghost old_anoms = anomalies@;
                anomalies.push(
                    make_anomaly(
                        AnomalyKind::DecodeFailure(ob.id.number, ob.id.generation, p),
                        paranoid,
                    ),
                );
                proof {
                    assert(dlen <= old_anoms.len());
                    assert(forall|q: int|
                        0 <= q < old_anoms.len() ==> anomalies@[q] == old_anoms[q]);
                    assert(anomalies@.take(dlen) =~= old_anoms.take(dlen));
                    assert(spec_decode_fail(view_value(doc.objects@[di as int].value)) == Some(
                        p as int,
                    ));
                    assert(extra_anomaly_ok(*doc, anomalies@[anomalies@.len() - 1]));
                    assert forall|k: int| dlen <= k < anomalies@.len() implies extra_anomaly_ok(
                        *doc,
                        #[trigger] anomalies@[k],
                    ) by {
                        if k < old_anoms.len() {
                            assert(anomalies@[k] == old_anoms[k]);
                            assert(extra_anomaly_ok(*doc, old_anoms[k]));
                        }
                    }
                    assert forall|kk: AnomalyKind| has_anomaly(old_anoms, kk) implies has_anomaly(
                        anomalies@,
                        kk,
                    ) by {
                        let j0 = choose|j: int|
                            0 <= j < old_anoms.len() && (#[trigger] old_anoms[j]).kind == kk;
                        assert(anomalies@[j0] == old_anoms[j0]);
                    }
                    assert(anomalies@[anomalies@.len() - 1].kind == AnomalyKind::DecodeFailure(
                        doc.objects@[di as int].id.number,
                        doc.objects@[di as int].id.generation,
                        p,
                    ));
                }
            },
            _ => {
                proof {
                    assert(spec_decode_fail(view_value(doc.objects@[di as int].value)) is None);
                }
            },
        }
        di = di + 1;
    }
    let mut cycle_anoms = find_cycle_anomalies(doc, paranoid);
    let ghost pre_cycle = anomalies@;
    let ghost ca = cycle_anoms@;
    anomalies.append(&mut cycle_anoms);
    proof {
        assert(anomalies@.take(dlen) =~= doc.anomalies@);
        assert forall|k: int|
            dlen <= k < anomalies@.len() implies extra_anomaly_ok(
            *doc,
            #[trigger] anomalies@[k],
        ) by {
            if k < pre_cycle.len() {
                assert(anomalies@[k] == pre_cycle[k]);
            } else {
                assert(anomalies@[k] == ca[k - pre_cycle.len()]);
                assert(ca[k - pre_cycle.len()].kind matches AnomalyKind::CyclicReference(_));
            }
        }
        assert forall|kk: AnomalyKind| has_anomaly(pre_cycle, kk) implies has_anomaly(
            anomalies@,
            kk,
        ) by {
            let j0 = choose|j: int| 0 <= j < pre_cycle.len() && (#[trigger] pre_cycle[j]).kind == kk;
            assert(anomalies@[j0] == pre_cycle[j0]);
        }
    }
    let page_count: u32 = (pages as u64 % 0x1_0000_0000u64) as u32;
    let ghost imgs = images@;
    let res = PdfAnalysis {
        version: ascii_version(&doc.version),
        page_count,
        metadata,
        objects,
        javascript,
        images,
        signatures,
        embedded_files,
        encryption,
        timestamp: crate::utils::now_unix(),
        anomalies,
        fingerprint,
    };
    proof {
        assert(target_view(target) == spec_open_action(
            view_entries(doc.trailer, 0),
            doc.objects@,
        ));
        assert forall|k: int| 0 <= k < res.javascript@.len() implies exists|j: int|
            0 <= j < doc.objects@.len() && js_entry_matches(
                doc.bytes@,
                doc.objects@[j],
                spec_open_action(view_entries(doc.trailer, 0), doc.objects@),
                #[trigger] res.javascript@[k],
            ) by {
            let j0 = choose|j: int|
                0 <= j < doc.objects@.len() && js_entry_matches(
                    doc.bytes@,
                    doc.objects@[j],
                    target_view(target),
                    res.javascript@[k],
                );
            assert(js_entry_matches(
                doc.bytes@,
                doc.objects@[j0],
                spec_open_action(view_entries(doc.trailer, 0), doc.objects@),
                res.javascript@[k],
            ));
        }
        assert forall|j: int|
            0 <= j < doc.objects@.len() && is_js_object(
                view_value((#[trigger] doc.objects@[j]).value),
            ) implies exists|k: int|
            0 <= k < res.javascript@.len() && js_entry_matches(
                doc.bytes@,
                doc.objects@[j],
                spec_open_action(view_entries(doc.trailer, 0), doc.objects@),
                res.javascript@[k],
            ) by {
            let k0 = choose|k: int|
                0 <= k < res.javascript@.len() && js_entry_matches(
                    doc.bytes@,
                    doc.objects@[j],
                    target_view(target),
                    res.javascript@[k],
                );
            assert(js_entry_matches(
                doc.bytes@,
                doc.objects@[j],
                spec_open_action(view_entries(doc.trailer, 0), doc.objects@),
                res.javascript@[k0],
            ));
        }
        assert forall|j: int|
            0 <= j < doc.objects@.len() && is_image_object(
                view_value((#[trigger] doc.objects@[j]).value),
            ) implies exists|k: int|
            0 <= k < res.images@.len() && img_entry_matches(
                doc.bytes@,
                doc.objects@[j],
                res.images@[k],
            ) by {
            let k0 = choose|k: int|
                0 <= k < imgs.len() && img_entry_matches(doc.bytes@, doc.objects@[j], imgs[k]);
            assert(res.images@[k0] == imgs[k0]);
        }
        lemma_analysis_sound(res, *doc);
    }
    res
}

/// The header's version bytes as text.
fn ascii_version(v: &Vec<u8>) -> (r: String)
    ensures
        r@ == ascii_chars(v@),
{
    lossy_string(v.as_slice())
}

fn dup_object_infos(v: &Vec<ObjectInfo>) -> (r: Vec<ObjectInfo>)
    ensures
        r@ == v@,
{
    let mut out: Vec<ObjectInfo> = Vec::new();
    let mut i: usize = 0;
    while i < v.len()
        invariant
            0 <= i <= v@.len(),
            out@ =~= v@.take(i as int),
        decreases v@.len() - i,
    {
        let e = &v[i];
        out.push(
            ObjectInfo {
                id: e.id,
                kind_name: e.kind_name.clone(),
                size: e.size,
                hash: e.hash.clone(),
            },
        );
        proof {
            assert(out@ =~= v@.take(i + 1));
        }
        i = i + 1;
    }
    proof {
        assert(v@.take(i as int) =~= v@);
    }
    out
}

fn dup_js_infos(v: &Vec<JavaScriptInfo>) -> (r: Vec<JavaScriptInfo>)
    ensures
        r@ == v@,
{
    let mut out: Vec<JavaScriptInfo> = Vec::new();
    let mut i: usize = 0;
    while i < v.len()
        invariant
            0 <= i <= v@.len(),
            out@ =~= v@.take(i as int),
        decreases v@.len() - i,
    {
        let e = &v[i];
        out.push(
            JavaScriptInfo {
                location: e.location.clone(),
                size: e.size,
                hash: e.hash.clone(),
                suspicious: e.suspicious,
            },
        );
        proof {
            assert(out@ =~= v@.take(i + 1));
        }
        i = i + 1;
    }
    proof {
        assert(v@.take(i as int) =~= v@);
    }
    out
}

fn dup_image_infos(v: &Vec<ImageInfo>) -> (r: Vec<ImageInfo>)
    ensures
        r@ == v@,
{
    let mut out: Vec<ImageInfo> = Vec::new();
    let mut i: usize = 0;
    while i < v.len()
        invariant
            0 <= i <= v@.len(),
            out@ =~= v@.take(i as int),
        decreases v@.len() - i,
    {
        let e = &v[i];
        out.push(
            ImageInfo {
                id: e.id.clone(),
                format: e.format.clone(),
                dimensions: e.dimensions,
                size: e.size,
                hash: e.hash.clone(),
            },
        );
        proof {
            assert(out@ =~= v@.take(i + 1));
        }
        i = i + 1;
    }
    proof {
        assert(v@.take(i as int) =~= v@);
    }
    out
}

fn dup_sig_infos(v: &Vec<SignatureInfo>) -> (r: Vec<SignatureInfo>)
    ensures
        r@ == v@,
{
    let mut out: Vec<SignatureInfo> = Vec::new();
    let mut i: usize = 0;
    while i < v.len()
        invariant
            0 <= i <= v@.len(),
            out@ =~= v@.take(i as int),
        decreases v@.len() - i,
    {
        let e = &v[i];
        out.push(
            SignatureInfo {
                kind_name: e.kind_name.clone(),
                issuer: e.issuer.clone(),
                valid: e.valid,
                timestamp: e.timestamp,
            },
        );
        proof {
            assert(out@ =~= v@.take(i + 1));
        }
        i = i + 1;
    }
    proof {
        assert(v@.take(i as int) =~= v@);
    }
    out
}

fn dup_anomalies(v: &Vec<Anomaly>) -> (r: Vec<Anomaly>)
    ensures
        r@ == v@,
{
    let mut out: Vec<Anomaly> = Vec::new();
    let mut i: usize = 0;
    while i < v.len()
        invariant
            0 <= i <= v@.len(),
            out@ =~= v@.take(i as int),
        decreases v@.len() - i,
    {
        out.push(v[i]);
        proof {
            assert(out@ =~= v@.take(i + 1));
        }
        i = i + 1;
    }
    proof {
        assert(v@.take(i as int) =~= v@);
    }
    out
}

/// Two analyses carry the same content: every field agrees at the
/// view level.
pub open spec fn analysis_eq(x: PdfAnalysis, y: PdfAnalysis) -> bool {
    &&& x.version@ == y.version@
    &&& x.page_count == y.page_count
    &&& x.metadata@ == y.metadata@
    &&& x.objects@ == y.objects@
    &&& x.javascript@ == y.javascript@
    &&& x.images@ == y.images@
    &&& x.signatures@ == y.signatures@
    &&& x.embedded_files@ == y.embedded_files@
    &&& match (x.encryption, y.encryption) {
        (Some(e1), Some(e2)) => e1.method@ == e2.method@ && e1.strength == e2.strength
            && e1.encrypted_metadata == e2.encrypted_metadata,
        (None, None) => true,
        _ => false,
    }
    &&& x.timestamp == y.timestamp
    &&& x.anomalies@ == y.anomalies@
    &&& x.fingerprint@ == y.fingerprint@
}

/// A deep copy of an analysis, content-equal to the original.
pub fn dup_analysis(a: &PdfAnalysis) -> (r: PdfAnalysis)
    ensures
        analysis_eq(r, *a),
{
    let r = PdfAnalysis {
        version: a.version.clone(),
        page_count: a.page_count,
        metadata: dup_string_pairs(&a.metadata),
        objects: dup_object_infos(&a.objects),
        javascript: dup_js_infos(&a.javascript),
        images: dup_image_infos(&a.images),
        signatures: dup_sig_infos(&a.signatures),
        embedded_files: dup_strings(&a.embedded_files),
        encryption: match &a.encryption {
            Some(e) => Some(
                EncryptionInfo {
                    method: e.method.clone(),
                    strength: e.strength,
                    encrypted_metadata: e.encrypted_metadata,
                },
            ),
            None => None,
        },
        timestamp: a.timestamp,
        anomalies: dup_anomalies(&a.anomalies),
        fingerprint: a.fingerprint.clone(),
    };
    r
}

/// Appends every reference anywhere inside the value, at any depth.
fn collect_refs(v: &PdfValue, out: &mut Vec<ObjectId>)
    decreases *v, 0int, 0int,
{
    match v {
        PdfValue::Reference(n, g) => {
            out.push(ObjectId { number: *n, generation: *g });
        },
        PdfValue::Array(items) => {
            collect_refs_items(items, 0, out);
        },
        PdfValue::Dict(es) => {
            collect_refs_entries(es, 0, out);
        },
        PdfValue::Stream(es, _) => {
            collect_refs_entries(es, 0, out);
        },
        _ => {},
    }
}

fn collect_refs_items(items: &Vec<PdfValue>, i: usize, out: &mut Vec<ObjectId>)
    requires
        i <= items@.len(),
    decreases *items, 1int, items@.len() - i,
{
    if i < items.len() {
        collect_refs(&items[i], out);
        collect_refs_items(items, i + 1, out);
    }
}

fn collect_refs_entries(es: &Vec<DictEntry>, i: usize, out: &mut Vec<ObjectId>)
    requires
        i <= es@.len(),
    decreases *es, 1int, es@.len() - i,
{
    if i < es.len() {
        collect_refs(&es[i].value, out);
        collect_refs_entries(es, i + 1, out);
    }
}

/// The id keys reachable from the trailer's roots (`/Root`, `/Info`)
/// by following references through live objects. Breadth-first with
/// an explicit visited set; the fuel bound only cuts graphs with
/// more distinct nodes than live objects, which cannot occur.
fn reachable_ids(doc: &Document) -> (r: Vec<u64>) {
    let mut queue: Vec<ObjectId> = Vec::new();
    let rk: [u8; 4] = [0x52, 0x6f, 0x6f, 0x74];
    let ik: [u8; 4] = [0x49, 0x6e, 0x66, 0x6f];
    match crate::value::dict_get(&doc.trailer, rk.as_slice()) {
        Some(PdfValue::Reference(n, g)) => {
            queue.push(ObjectId { number: *n, generation: *g });
        },
        _ => {},
    }
    match crate::value::dict_get(&doc.trailer, ik.as_slice()) {
        Some(PdfValue::Reference(n, g)) => {
            queue.push(ObjectId { number: *n, generation: *g });
        },
        _ => {},
    }
    let mut visited: Vec<u64> = Vec::new();
    if doc.objects.len() >= 0x1000_0000 {
        return visited;
    }
    let mut fuel: u64 = doc.objects.len() as u64 + 16;
    loop
        invariant
            true,
        decreases fuel, queue@.len(),
    {
        if queue.len() == 0 || fuel == 0 {
            return visited;
        }
        let id = queue[queue.len() - 1];
        queue.remove(queue.len() - 1);
        let key = id.key();
        let mut seen = false;
        let mut k: usize = 0;
        while k < visited.len()
            invariant
                0 <= k <= visited@.len(),
            decreases visited@.len() - k,
        {
            if visited[k] == key {
                seen = true;
                k = visited.len();
            } else {
                k = k + 1;
            }
        }
        if !seen {
            match lookup_object(&doc.objects, id.number, id.generation) {
                Some(v) => {
                    fuel = fuel - 1;
                    visited.push(key);
                    collect_refs(v, &mut queue);
                },
                None => {},
            }
        }
    }
}

/// Names among array items, in order.
pub open spec fn spec_name_items(items: Seq<ValueS>) -> Seq<Seq<u8>>
    decreases items.len(),
{
    if items.len() == 0 {
        Seq::empty()
    } else {
        match items[0] {
            ValueS::Name(nm) => seq![nm] + spec_name_items(items.drop_first()),
            _ => spec_name_items(items.drop_first()),
        }
    }
}

/// The declared filter chain of a stream dictionary: one name, an
/// array's names in order, or none.
pub open spec fn spec_filter_list(es: Seq<(Seq<u8>, ValueS)>) -> Seq<Seq<u8>> {
    match sval_dict_get(es, key_filter()) {
        Some(ValueS::Name(nm)) => seq![nm],
        Some(ValueS::Array(items)) => spec_name_items(items),
        _ => Seq::empty(),
    }
}

/// Reads a stream dictionary's declared filter names.
fn filter_list(es: &Vec<DictEntry>) -> (r: Vec<Vec<u8>>)
    ensures
        r.deep_view() == spec_filter_list(view_entries(*es, 0)),
{
    let fk: [u8; 6] = [0x46, 0x69, 0x6c, 0x74, 0x65, 0x72];
    proof {
        assert(fk@ =~= key_filter());
        crate::parser::lemma_dict_get_view(*es, 0, key_filter());
        assert(es@.skip(0) =~= es@);
    }
    let mut out: Vec<Vec<u8>> = Vec::new();
    match crate::value::dict_get(es, fk.as_slice()) {
        Some(PdfValue::Name(nm)) => {
            out.push(vstd::slice::slice_to_vec(nm.as_slice()));
            proof {
                assert(out.deep_view() =~~= seq![nm@]);
            }
        },
        Some(PdfValue::Array(items)) => {
            let mut i: usize = 0;
            while i < items.len()
                invariant
                    0 <= i <= items@.len(),
                    out.deep_view() + spec_name_items(crate::parser::view_items(*items, i as int))
                        == spec_name_items(crate::parser::view_items(*items, 0)),
                decreases items@.len() - i,
            {
                proof {
                    assert(crate::parser::view_items(*items, i as int) == seq![
                        view_value(items@[i as int]),
                    ] + crate::parser::view_items(*items, i + 1));
                    assert((seq![view_value(items@[i as int])] + crate::parser::view_items(
                        *items,
                        i + 1,
                    )).drop_first() =~= crate::parser::view_items(*items, i + 1));
                }
                match &items[i] {
                    PdfValue::Name(nm) => {
                        let ghost old_dv = out.deep_view();
                        out.push(vstd::slice::slice_to_vec(nm.as_slice()));
                        proof {
                            assert(out.deep_view() =~~= old_dv.push(nm@));
                            assert(old_dv + (seq![nm@] + spec_name_items(
                                crate::parser::view_items(*items, i + 1),
                            )) =~~= old_dv.push(nm@) + spec_name_items(
                                crate::parser::view_items(*items, i + 1),
                            ));
                        }
                    },
                    _ => {},
                }
                i = i + 1;
            }
            proof {
                assert(spec_name_items(crate::parser::view_items(*items, i as int))
                    =~~= Seq::<Seq<u8>>::empty());
                assert(out.deep_view() + Seq::<Seq<u8>>::empty() =~~= out.deep_view());
            }
        },
        _ => {
            proof {
                assert(out.deep_view() =~~= Seq::<Seq<u8>>::empty());
            }
        },
    }
    out
}

/// Decodes a stream object's content by applying its declared
/// filter chain to the raw bytes; `Err` names the failing filter's
/// position. `None` for a value that is not a stream. A failure
/// never aborts analysis: the raw bytes stay available.
pub fn decode_stream(v: &PdfValue) -> (r: Option<Result<Vec<u8>, usize>>)
    ensures
        match r {
            Some(res) => view_value(*v) matches ValueS::Stream(es, raw) && (match res {
                Ok(out) => crate::decode::sp_apply_chain(raw, spec_filter_list(es), 0) == Ok::<
                    Seq<u8>,
                    int,
                >(out@),
                Err(i) => crate::decode::sp_apply_chain(raw, spec_filter_list(es), 0) == Err::<
                    Seq<u8>,
                    int,
                >(i as int),
            }),
            None => !(view_value(*v) is Stream),
        },
{
    match v {
        PdfValue::Stream(es, raw) => {
            let names = filter_list(es);
            let data = vstd::slice::slice_to_vec(raw.as_slice());
            Some(crate::decode::apply_filter_chain(data, &names))
        },
        _ => None,
    }
}

/// Folds an analysis into the compact report form.
pub fn build_result(path: String, a: &PdfAnalysis) -> (r: crate::report::AnalysisResult)
    ensures
        r.metadata.page_count == a.page_count,
        r.forensics.javascript_found == (a.javascript@.len() > 0),
        r.forensics.image_count as int == a.images@.len() as int % 0x1_0000_0000,
        r.forensics.embedded_files@ == a.embedded_files@,
        r.security.encrypted == (a.encryption is Some),
        !r.security.has_password,
        r.path@ == path@,
        r.timestamp == a.timestamp,
{
    let embedded_files = dup_strings(&a.embedded_files);
    let mut suspicious_patterns: Vec<String> = Vec::new();
    let mut i: usize = 0;
    while i < a.javascript.len()
        invariant
            0 <= i <= a.javascript@.len(),
        decreases a.javascript@.len() - i,
    {
        if a.javascript[i].suspicious {
            suspicious_patterns.push(a.javascript[i].location.clone());
        }
        i = i + 1;
    }
    crate::report::AnalysisResult {
        path,
        timestamp: a.timestamp,
        metadata: crate::report::Metadata {
            version: a.version.clone(),
            page_count: a.page_count,
            author: None,
            title: None,
            created: None,
            modified: None,
        },
        security: crate::report::SecurityInfo {
            encrypted: matches!(a.encryption, Some(_)),
            // Password verification is out of scope: no password is
            // ever checked, so none is ever claimed.
            has_password: false,
            permissions: Vec::new(),
        },
        forensics: crate::report::ForensicsData {
            javascript_found: a.javascript.len() > 0,
            image_count: (a.images.len() as u64 % 0x1_0000_0000u64) as u32,
            embedded_files,
            suspicious_patterns,
        },
    }
}

/// The analyzer: configuration, the loaded document, and the owned
/// analysis cache.
pub struct PdfAnalyzer {
    pub config: Config,
    pub document: Document,
    pub created: i64,
    pub cache: crate::cache::AnalysisCache,
}

impl PdfAnalyzer {
    /// A fresh analyzer with an empty document and an empty cache.
    pub fn new(config: Config) -> (r: PdfAnalyzer)
        ensures
            document_wf(r.document),
            r.document.objects@.len() == 0,
            r.config == config,
            r.cache.view_entries().len() == 0,
    {
        PdfAnalyzer {
            config,
            document: Document {
                bytes: Vec::new(),
                version: Vec::new(),
                objects: Vec::new(),
                trailer: Vec::new(),
                sections: Vec::new(),
                reconstructed: false,
                anomalies: Vec::new(),
            },
            created: crate::utils::now_unix(),
            cache: crate::cache::AnalysisCache::new(),
        }
    }

    /// Loads a document from bytes, with a fresh, empty cache.
    /// Fails exactly where `load_document` does: a missing header,
    /// or nothing recoverable; a usable chain start always loads.
    pub fn load(bytes: Vec<u8>, config: Config) -> (r: Result<PdfAnalyzer, PdxError>)
        requires
            bytes@.len() < usize::MAX - 8,
        ensures
            match r {
                Ok(a) => {
                    &&& a.document.bytes@ == bytes@
                    &&& document_wf(a.document)
                    &&& a.config == config
                    &&& a.cache.view_entries().len() == 0
                    &&& spec_pdf_version(bytes@) == Some(a.document.version@)
                    &&& crate::xref::sections_linked(a.document.bytes@, a.document.sections@)
                    &&& a.document.reconstructed == (a.document.sections@.len() == 0)
                    &&& (a.document.reconstructed ==> has_anomaly(
                        a.document.anomalies@,
                        AnomalyKind::BruteForceRecovery,
                    ))
                    &&& (!a.document.reconstructed ==> live_objects_authorized(a.document))
                    &&& (!a.document.reconstructed ==> live_objects_complete(a.document))
                    &&& (forall|n: u32|
                        num_in_sections(a.document.sections@, n as int) && spec_shadowed(
                            secviews(a.document.sections@),
                            n as int,
                        ) ==> has_anomaly(
                            a.document.anomalies@,
                            AnomalyKind::RevisionShadowed(n),
                        ))
                },
                Err(_) => true,
            },
            spec_pdf_version(bytes@) is None ==> r is Err,
            spec_pdf_version(bytes@) is Some && crate::xref::sp_chain_starts(bytes@) ==> r is Ok,
            r is Err ==> spec_pdf_version(bytes@) is None || !crate::xref::sp_chain_starts(
                bytes@,
            ),
    {
        let paranoid = matches!(config.security_level, SecurityLevel::Paranoid);
        match load_document(bytes, paranoid) {
            Ok(document) => Ok(
                PdfAnalyzer {
                    config,
                    document,
                    created: crate::utils::now_unix(),
                    cache: crate::cache::AnalysisCache::new(),
                },
            ),
            Err(e) => Err(e),
        }
    }

    /// Analyzes the loaded document. A result is always produced.
    /// The cache hands out at most one classification pass per
    /// fingerprint: a fresh pass is computed and stored when the
    /// cache has no slot for this document's fingerprint, a stored
    /// result is handed back equal instead of a second pass, and an
    /// in-flight slot (another caller's pass) is never overwritten.
    /// On a fresh cache — as `new` and `load` hand out — the result
    /// is therefore always a sound analysis of this document.
    pub fn analyze(&mut self) -> (r: Result<PdfAnalysis, PdxError>)
        requires
            document_wf(old(self).document),
        ensures
            r is Ok,
            final(self).document == old(self).document,
            final(self).config == old(self).config,
            match r {
                Ok(a) => ({
                    let fp = spec_fingerprint(
                        old(self).document.bytes@,
                        old(self).document.objects@,
                    );
                    match crate::cache::spec_cache_get(old(self).cache.view_entries(), fp) {
                        Some(crate::cache::CacheSlot::Ready(st)) => analysis_eq(a, st)
                            && final(self).cache.view_entries() == old(self).cache.view_entries(),
                        Some(crate::cache::CacheSlot::InFlight) => analysis_sound(
                            a,
                            old(self).document,
                        ) && final(self).cache.view_entries() == old(self).cache.view_entries(),
                        None => analysis_sound(a, old(self).document) && (
                        crate::cache::spec_cache_get(
                            final(self).cache.view_entries(),
                            fp,
                        ) matches Some(crate::cache::CacheSlot::Ready(st)) && analysis_eq(st, a))
                            && (forall|k2: Seq<char>|
                            k2 != fp ==> crate::cache::spec_cache_get(
                                final(self).cache.view_entries(),
                                k2,
                            ) == crate::cache::spec_cache_get(old(self).cache.view_entries(), k2)),
                    }
                }),
                Err(_) => false,
            },
    {
        let paranoid = matches!(self.config.security_level, SecurityLevel::Paranoid);
        let fp = document_fingerprint(&self.document);
        let decision = self.cache.begin(&fp);
        match decision {
            crate::cache::CacheDecision::Reuse => {
                let stored = self.cache.get_ready(&fp);
                match stored {
                    Some(a) => Ok(dup_analysis(a)),
                    None => {
                        // `Reuse` is only handed out for a stored
                        // entry.
                        proof {
                            assert(false);
                        }
                        Ok(compute_analysis(&self.document, paranoid))
                    },
                }
            },
            crate::cache::CacheDecision::Wait => {
                // Another caller's pass is in flight; in a
                // single-owner setting this cannot be our own, so
                // compute without storing.
                let fresh = compute_analysis(&self.document, paranoid);
                Ok(fresh)
            },
            crate::cache::CacheDecision::Compute => {
                let a = compute_analysis(&self.document, paranoid);
                let stored = dup_analysis(&a);
                self.cache.complete(&fp, stored);
                Ok(a)
            },
        }
    }
}

} // verus!
