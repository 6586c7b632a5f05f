//! Lexer: turns raw bytes into PDF primitive tokens.
//!
//! The byte classes, whitespace/comment skipping and every token scan
//! are specified by recursive spec functions over the byte sequence;
//! the executable scanner is proved to return exactly what the spec
//! functions describe.

use vstd::prelude::*;

verus! {

/// PDF whitespace bytes: NUL, tab, line feed, form feed, carriage
/// return and space.
pub open spec fn is_ws_byte(b: u8) -> bool {
    b == 0x00 || b == 0x09 || b == 0x0a || b == 0x0c || b == 0x0d || b == 0x20
}

/// PDF delimiter bytes: `( ) < > [ ] { } / %`.
pub open spec fn is_delim_byte(b: u8) -> bool {
    b == 0x28 || b == 0x29 || b == 0x3c || b == 0x3e || b == 0x5b || b == 0x5d || b == 0x7b
        || b == 0x7d || b == 0x2f || b == 0x25
}

/// Regular bytes: everything that is neither whitespace nor delimiter.
pub open spec fn is_regular_byte(b: u8) -> bool {
    !is_ws_byte(b) && !is_delim_byte(b)
}

pub fn byte_is_ws(b: u8) -> (r: bool)
    ensures
        r == is_ws_byte(b),
{
    b == 0x00 || b == 0x09 || b == 0x0a || b == 0x0c || b == 0x0d || b == 0x20
}

pub fn byte_is_delim(b: u8) -> (r: bool)
    ensures
        r == is_delim_byte(b),
{
    b == 0x28 || b == 0x29 || b == 0x3c || b == 0x3e || b == 0x5b || b == 0x5d || b == 0x7b
        || b == 0x7d || b == 0x2f || b == 0x25
}

pub fn byte_is_regular(b: u8) -> (r: bool)
    ensures
        r == is_regular_byte(b),
{
    !byte_is_ws(b) && !byte_is_delim(b)
}

/// Position of the first byte at or after `pos` that is neither
/// whitespace nor part of a `%` comment. A comment runs to the next
/// carriage return or line feed.
pub open spec fn spec_skip_ws_rec(bytes: Seq<u8>, pos: int, in_comment: bool) -> int
    decreases bytes.len() - pos, (if in_comment { 1int } else { 0int }),
    when 0 <= pos <= bytes.len()
{
    if pos >= bytes.len() {
        pos
    } else if in_comment {
        if bytes[pos] == 0x0a || bytes[pos] == 0x0d {
            spec_skip_ws_rec(bytes, pos, false)
        } else {
            spec_skip_ws_rec(bytes, pos + 1, true)
        }
    } else {
        if is_ws_byte(bytes[pos]) {
            spec_skip_ws_rec(bytes, pos + 1, false)
        } else if bytes[pos] == 0x25 {
            spec_skip_ws_rec(bytes, pos + 1, true)
        } else {
            pos
        }
    }
}

pub open spec fn spec_skip_ws(bytes: Seq<u8>, pos: int) -> int {
    spec_skip_ws_rec(bytes, pos, false)
}

/// Whitespace skipping never moves backwards nor past the end, and
/// stops on a byte that is neither whitespace nor `%`.
pub proof fn lemma_skip_ws_bounds(bytes: Seq<u8>, pos: int, in_comment: bool)
    requires
        0 <= pos <= bytes.len(),
    ensures
        pos <= spec_skip_ws_rec(bytes, pos, in_comment) <= bytes.len(),
        spec_skip_ws_rec(bytes, pos, in_comment) < bytes.len() ==> !is_ws_byte(
            bytes[spec_skip_ws_rec(bytes, pos, in_comment)],
        ) && bytes[spec_skip_ws_rec(bytes, pos, in_comment)] != 0x25,
    decreases bytes.len() - pos, (if in_comment { 1int } else { 0int }),
{
    if pos >= bytes.len() {
    } else if in_comment {
        if bytes[pos] == 0x0a || bytes[pos] == 0x0d {
            lemma_skip_ws_bounds(bytes, pos, false);
        } else {
            lemma_skip_ws_bounds(bytes, pos + 1, true);
        }
    } else {
        if is_ws_byte(bytes[pos]) {
            lemma_skip_ws_bounds(bytes, pos + 1, false);
        } else if bytes[pos] == 0x25 {
            lemma_skip_ws_bounds(bytes, pos + 1, true);
        }
    }
}

/// Advances past whitespace and comments.
pub fn skip_ws(bytes: &[u8], pos: usize) -> (r: usize)
    requires
        pos <= bytes@.len(),
    ensures
        r == spec_skip_ws(bytes@, pos as int),
        pos <= r <= bytes@.len(),
{
    proof {
        lemma_skip_ws_bounds(bytes@, pos as int, false);
    }
    let mut i: usize = pos;
    let mut in_comment: bool = false;
    loop
        invariant
            pos <= i <= bytes@.len(),
            spec_skip_ws_rec(bytes@, i as int, in_comment) == spec_skip_ws(bytes@, pos as int),
        decreases bytes@.len() - i, (if in_comment { 1int } else { 0int }),
    {
        if i >= bytes.len() {
            return i;
        }
        let b = bytes[i];
        if in_comment {
            if b == 0x0a || b == 0x0d {
                in_comment = false;
            } else {
                i = i + 1;
            }
        } else {
            if byte_is_ws(b) {
                i = i + 1;
            } else if b == 0x25 {
                in_comment = true;
                i = i + 1;
            } else {
                return i;
            }
        }
    }
}

/// End of the run of regular bytes that starts at `pos`.
pub open spec fn spec_scan_regular(bytes: Seq<u8>, pos: int) -> int
    decreases bytes.len() - pos,
    when 0 <= pos <= bytes.len()
{
    if pos < bytes.len() && is_regular_byte(bytes[pos]) {
        spec_scan_regular(bytes, pos + 1)
    } else {
        pos
    }
}

pub proof fn lemma_scan_regular_bounds(bytes: Seq<u8>, pos: int)
    requires
        0 <= pos <= bytes.len(),
    ensures
        pos <= spec_scan_regular(bytes, pos) <= bytes.len(),
    decreases bytes.len() - pos,
{
    if pos < bytes.len() && is_regular_byte(bytes[pos]) {
        lemma_scan_regular_bounds(bytes, pos + 1);
    }
}

/// Advances past the run of regular bytes starting at `pos`.
pub fn scan_regular(bytes: &[u8], pos: usize) -> (r: usize)
    requires
        pos <= bytes@.len(),
    ensures
        r == spec_scan_regular(bytes@, pos as int),
        pos <= r <= bytes@.len(),
{
    proof {
        lemma_scan_regular_bounds(bytes@, pos as int);
    }
    let mut i: usize = pos;
    while i < bytes.len() && byte_is_regular(bytes[i])
        invariant
            pos <= i <= bytes@.len(),
            spec_scan_regular(bytes@, i as int) == spec_scan_regular(bytes@, pos as int),
        decreases bytes@.len() - i,
    {
        i = i + 1;
    }
    i
}

/// Value of an ASCII hex digit, if the byte is one.
pub open spec fn spec_hex_val(b: u8) -> Option<u8> {
    if 0x30 <= b <= 0x39 {
        Some((b - 0x30) as u8)
    } else if 0x41 <= b <= 0x46 {
        Some((b - 0x41 + 10) as u8)
    } else if 0x61 <= b <= 0x66 {
        Some((b - 0x61 + 10) as u8)
    } else {
        None
    }
}

pub fn hex_val(b: u8) -> (r: Option<u8>)
    ensures
        r == spec_hex_val(b),
{
    if 0x30 <= b && b <= 0x39 {
        Some(b - 0x30)
    } else if 0x41 <= b && b <= 0x46 {
        Some(b - 0x41 + 10)
    } else if 0x61 <= b && b <= 0x66 {
        Some(b - 0x61 + 10)
    } else {
        None
    }
}

/// Prepends `p` to the scanned bytes of a scan outcome.
pub open spec fn opt_prepend(p: Seq<u8>, r: Option<(Seq<u8>, int)>) -> Option<(Seq<u8>, int)> {
    match r {
        Some((s, e)) => Some((p + s, e)),
        None => None,
    }
}

pub proof fn lemma_opt_prepend_assoc(a: Seq<u8>, b: Seq<u8>, r: Option<(Seq<u8>, int)>)
    ensures
        opt_prepend(a, opt_prepend(b, r)) == opt_prepend(a + b, r),
{
    match r {
        Some((s, e)) => {
            assert(a + (b + s) =~= (a + b) + s);
        },
        None => {},
    }
}

/// Bytes of a name token: the run of regular bytes after `/`, with
/// `#xx` hex escapes decoded. `None` on a `#` not followed by two hex
/// digits.
pub open spec fn spec_scan_name(bytes: Seq<u8>, pos: int) -> Option<(Seq<u8>, int)>
    decreases bytes.len() - pos,
    when 0 <= pos <= bytes.len()
{
    if pos >= bytes.len() || !is_regular_byte(bytes[pos]) {
        Some((Seq::empty(), pos))
    } else if bytes[pos] == 0x23 {
        if pos + 2 >= bytes.len() {
            None
        } else {
            match (spec_hex_val(bytes[pos + 1]), spec_hex_val(bytes[pos + 2])) {
                (Some(h), Some(l)) => opt_prepend(
                    seq![(h * 16 + l) as u8],
                    spec_scan_name(bytes, pos + 3),
                ),
                _ => None,
            }
        }
    } else {
        opt_prepend(seq![bytes[pos]], spec_scan_name(bytes, pos + 1))
    }
}

pub proof fn lemma_scan_name_bounds(bytes: Seq<u8>, pos: int)
    requires
        0 <= pos <= bytes.len(),
    ensures
        match spec_scan_name(bytes, pos) {
            Some((s, e)) => pos <= e <= bytes.len(),
            None => true,
        },
    decreases bytes.len() - pos,
{
    if pos >= bytes.len() || !is_regular_byte(bytes[pos]) {
    } else if bytes[pos] == 0x23 {
        if pos + 2 < bytes.len() {
            lemma_scan_name_bounds(bytes, pos + 3);
        }
    } else {
        lemma_scan_name_bounds(bytes, pos + 1);
    }
}

/// Scans the bytes of a name token starting at `pos` (just after the
/// leading `/`).
pub fn scan_name(bytes: &[u8], pos: usize) -> (r: Option<(Vec<u8>, usize)>)
    requires
        pos <= bytes@.len(),
    ensures
        match r {
            Some((v, e)) => spec_scan_name(bytes@, pos as int) == Some((v@, e as int)) && pos <= e
                <= bytes@.len(),
            None => spec_scan_name(bytes@, pos as int) is None,
        },
{
    let mut acc: Vec<u8> = Vec::new();
    let mut i: usize = pos;
    proof {
        match spec_scan_name(bytes@, pos as int) {
            Some((s, e)) => {
                assert(Seq::<u8>::empty() + s =~= s);
            },
            None => {},
        }
    }
    loop
        invariant
            pos <= i <= bytes@.len(),
            opt_prepend(acc@, spec_scan_name(bytes@, i as int)) == spec_scan_name(
                bytes@,
                pos as int,
            ),
        decreases bytes@.len() - i,
    {
        if i >= bytes.len() || !byte_is_regular(bytes[i]) {
            proof {
                assert(acc@ + Seq::<u8>::empty() =~= acc@);
            }
            return Some((acc, i));
        }
        let b = bytes[i];
        if b == 0x23 {
            if bytes.len() - i <= 2 {
                return None;
            }
            let h = hex_val(bytes[i + 1]);
            let l = hex_val(bytes[i + 2]);
            match (h, l) {
                (Some(hv), Some(lv)) => {
                    let decoded: u8 = hv * 16 + lv;
                    proof {
                        lemma_opt_prepend_assoc(
                            acc@,
                            seq![decoded],
                            spec_scan_name(bytes@, i + 3),
                        );
                        assert(acc@ + seq![decoded] =~= acc@.push(decoded));
                    }
                    acc.push(decoded);
                    i = i + 3;
                },
                _ => {
                    return None;
                },
            }
        } else {
            proof {
                lemma_opt_prepend_assoc(acc@, seq![b], spec_scan_name(bytes@, i + 1));
                assert(acc@ + seq![b] =~= acc@.push(b));
            }
            acc.push(b);
            i = i + 1;
        }
    }
}

/// Octal digit test.
pub open spec fn is_octal_byte(b: u8) -> bool {
    0x30 <= b <= 0x37
}

/// Content of a literal string, scanned from just after the opening
/// parenthesis, with `depth` unmatched parentheses open. Handles
/// nested parentheses, the named escapes, octal escapes (high-order
/// overflow ignored), and line continuations; any other escaped byte
/// stands for itself. `None` when the string is unterminated.
pub open spec fn spec_scan_lit(bytes: Seq<u8>, pos: int, depth: int) -> Option<(Seq<u8>, int)>
    decreases bytes.len() - pos,
    when 0 <= pos <= bytes.len()
{
    if pos >= bytes.len() {
        None
    } else {
        let b = bytes[pos];
        if b == 0x5c {
            if pos + 1 >= bytes.len() {
                None
            } else {
                let e = bytes[pos + 1];
                if e == 0x6e {
                    opt_prepend(seq![0x0au8], spec_scan_lit(bytes, pos + 2, depth))
                } else if e == 0x72 {
                    opt_prepend(seq![0x0du8], spec_scan_lit(bytes, pos + 2, depth))
                } else if e == 0x74 {
                    opt_prepend(seq![0x09u8], spec_scan_lit(bytes, pos + 2, depth))
                } else if e == 0x62 {
                    opt_prepend(seq![0x08u8], spec_scan_lit(bytes, pos + 2, depth))
                } else if e == 0x66 {
                    opt_prepend(seq![0x0cu8], spec_scan_lit(bytes, pos + 2, depth))
                } else if e == 0x0a {
                    spec_scan_lit(bytes, pos + 2, depth)
                } else if e == 0x0d {
                    if pos + 2 < bytes.len() && bytes[pos + 2] == 0x0a {
                        spec_scan_lit(bytes, pos + 3, depth)
                    } else {
                        spec_scan_lit(bytes, pos + 2, depth)
                    }
                } else if is_octal_byte(e) {
                    if pos + 2 < bytes.len() && is_octal_byte(bytes[pos + 2]) {
                        if pos + 3 < bytes.len() && is_octal_byte(bytes[pos + 3]) {
                            opt_prepend(
                                seq![
                                    (((e - 0x30) * 64 + (bytes[pos + 2] - 0x30) * 8 + (bytes[pos
                                        + 3] - 0x30)) % 256) as u8,
                                ],
                                spec_scan_lit(bytes, pos + 4, depth),
                            )
                        } else {
                            opt_prepend(
                                seq![((e - 0x30) * 8 + (bytes[pos + 2] - 0x30)) as u8],
                                spec_scan_lit(bytes, pos + 3, depth),
                            )
                        }
                    } else {
                        opt_prepend(seq![(e - 0x30) as u8], spec_scan_lit(bytes, pos + 2, depth))
                    }
                } else {
                    opt_prepend(seq![e], spec_scan_lit(bytes, pos + 2, depth))
                }
            }
        } else if b == 0x28 {
            opt_prepend(seq![0x28u8], spec_scan_lit(bytes, pos + 1, depth + 1))
        } else if b == 0x29 {
            if depth == 1 {
                Some((Seq::empty(), pos + 1))
            } else {
                opt_prepend(seq![0x29u8], spec_scan_lit(bytes, pos + 1, depth - 1))
            }
        } else {
            opt_prepend(seq![b], spec_scan_lit(bytes, pos + 1, depth))
        }
    }
}

pub proof fn lemma_scan_lit_bounds(bytes: Seq<u8>, pos: int, depth: int)
    requires
        0 <= pos <= bytes.len(),
    ensures
        match spec_scan_lit(bytes, pos, depth) {
            Some((s, e)) => pos < e <= bytes.len(),
            None => true,
        },
    decreases bytes.len() - pos,
{
    if pos >= bytes.len() {
    } else {
        let b = bytes[pos];
        if b == 0x5c {
            if pos + 1 < bytes.len() {
                let e = bytes[pos + 1];
                if e == 0x0d && pos + 2 < bytes.len() && bytes[pos + 2] == 0x0a {
                    lemma_scan_lit_bounds(bytes, pos + 3, depth);
                } else if is_octal_byte(e) && pos + 2 < bytes.len() && is_octal_byte(
                    bytes[pos + 2],
                ) {
                    if pos + 3 < bytes.len() && is_octal_byte(bytes[pos + 3]) {
                        lemma_scan_lit_bounds(bytes, pos + 4, depth);
                    } else {
                        lemma_scan_lit_bounds(bytes, pos + 3, depth);
                    }
                } else {
                    lemma_scan_lit_bounds(bytes, pos + 2, depth);
                }
            }
        } else if b == 0x28 {
            lemma_scan_lit_bounds(bytes, pos + 1, depth + 1);
        } else if b == 0x29 {
            if depth != 1 {
                lemma_scan_lit_bounds(bytes, pos + 1, depth - 1);
            }
        } else {
            lemma_scan_lit_bounds(bytes, pos + 1, depth);
        }
    }
}

/// Scans a literal string's content starting just after `(`.
pub fn scan_lit(bytes: &[u8], pos: usize) -> (r: Option<(Vec<u8>, usize)>)
    requires
        pos <= bytes@.len(),
        bytes@.len() < usize::MAX - 4,
    ensures
        match r {
            Some((v, e)) => spec_scan_lit(bytes@, pos as int, 1) == Some((v@, e as int)) && pos < e
                <= bytes@.len(),
            None => spec_scan_lit(bytes@, pos as int, 1) is None,
        },
{
    proof {
        lemma_scan_lit_bounds(bytes@, pos as int, 1);
    }
    let mut acc: Vec<u8> = Vec::new();
    let mut i: usize = pos;
    let mut depth: usize = 1;
    proof {
        match spec_scan_lit(bytes@, pos as int, 1) {
            Some((s, e)) => {
                assert(Seq::<u8>::empty() + s =~= s);
            },
            None => {},
        }
    }
    loop
        invariant
            pos <= i <= bytes@.len(),
            bytes@.len() < usize::MAX - 4,
            1 <= depth <= i - pos + 1,
            opt_prepend(acc@, spec_scan_lit(bytes@, i as int, depth as int)) == spec_scan_lit(
                bytes@,
                pos as int,
                1,
            ),
        decreases bytes@.len() - i,
    {
        if i >= bytes.len() {
            return None;
        }
        let b = bytes[i];
        if b == 0x5c {
            if i + 1 >= bytes.len() {
                return None;
            }
            let e = bytes[i + 1];
            let mut produced: Option<u8> = None;
            let mut next: usize = i + 2;
            if e == 0x6e {
                produced = Some(0x0a);
            } else if e == 0x72 {
                produced = Some(0x0d);
            } else if e == 0x74 {
                produced = Some(0x09);
            } else if e == 0x62 {
                produced = Some(0x08);
            } else if e == 0x66 {
                produced = Some(0x0c);
            } else if e == 0x0a {
                produced = None;
            } else if e == 0x0d {
                if i + 2 < bytes.len() && bytes[i + 2] == 0x0a {
                    next = i + 3;
                }
            } else if 0x30 <= e && e <= 0x37 {
                if i + 2 < bytes.len() && 0x30 <= bytes[i + 2] && bytes[i + 2] <= 0x37 {
                    if i + 3 < bytes.len() && 0x30 <= bytes[i + 3] && bytes[i + 3] <= 0x37 {
                        let v: u16 = (e - 0x30) as u16 * 64 + (bytes[i + 2] - 0x30) as u16 * 8 + (
                        bytes[i + 3] - 0x30) as u16;
                        produced = Some((v % 256) as u8);
                        next = i + 4;
                    } else {
                        produced = Some((e - 0x30) * 8 + (bytes[i + 2] - 0x30));
                        next = i + 3;
                    }
                } else {
                    produced = Some(e - 0x30);
                }
            } else {
                produced = Some(e);
            }
            match produced {
                Some(v) => {
                    proof {
                        lemma_opt_prepend_assoc(
                            acc@,
                            seq![v],
                            spec_scan_lit(bytes@, next as int, depth as int),
                        );
                        assert(acc@ + seq![v] =~= acc@.push(v));
                    }
                    acc.push(v);
                },
                None => {},
            }
            i = next;
        } else if b == 0x28 {
            proof {
                lemma_opt_prepend_assoc(
                    acc@,
                    seq![0x28u8],
                    spec_scan_lit(bytes@, i + 1, depth + 1),
                );
                assert(acc@ + seq![0x28u8] =~= acc@.push(0x28u8));
            }
            acc.push(0x28);
            i = i + 1;
            depth = depth + 1;
        } else if b == 0x29 {
            if depth == 1 {
                proof {
                    assert(acc@ + Seq::<u8>::empty() =~= acc@);
                }
                return Some((acc, i + 1));
            }
            proof {
                lemma_opt_prepend_assoc(
                    acc@,
                    seq![0x29u8],
                    spec_scan_lit(bytes@, i + 1, depth - 1),
                );
                assert(acc@ + seq![0x29u8] =~= acc@.push(0x29u8));
            }
            acc.push(0x29);
            i = i + 1;
            depth = depth - 1;
        } else {
            proof {
                lemma_opt_prepend_assoc(acc@, seq![b], spec_scan_lit(bytes@, i + 1, depth as int));
                assert(acc@ + seq![b] =~= acc@.push(b));
            }
            acc.push(b);
            i = i + 1;
        }
    }
}

/// Nibble values of a hex string, scanned from just after `<`.
/// Whitespace between digits is ignored; any other byte before the
/// closing `>` is a lexical error.
pub open spec fn spec_scan_hex_nibbles(bytes: Seq<u8>, pos: int) -> Option<(Seq<u8>, int)>
    decreases bytes.len() - pos,
    when 0 <= pos <= bytes.len()
{
    if pos >= bytes.len() {
        None
    } else if bytes[pos] == 0x3e {
        Some((Seq::empty(), pos + 1))
    } else if is_ws_byte(bytes[pos]) {
        spec_scan_hex_nibbles(bytes, pos + 1)
    } else {
        match spec_hex_val(bytes[pos]) {
            Some(v) => opt_prepend(seq![v], spec_scan_hex_nibbles(bytes, pos + 1)),
            None => None,
        }
    }
}

pub proof fn lemma_scan_hex_bounds(bytes: Seq<u8>, pos: int)
    requires
        0 <= pos <= bytes.len(),
    ensures
        match spec_scan_hex_nibbles(bytes, pos) {
            Some((s, e)) => pos < e <= bytes.len(),
            None => true,
        },
    decreases bytes.len() - pos,
{
    if pos >= bytes.len() {
    } else if bytes[pos] == 0x3e {
    } else {
        lemma_scan_hex_bounds(bytes, pos + 1);
    }
}

/// Pairs nibble values into bytes; an odd final nibble is padded with
/// a zero low nibble.
pub open spec fn spec_nibbles_to_bytes(s: Seq<u8>) -> Seq<u8>
    decreases s.len(),
{
    if s.len() == 0 {
        Seq::empty()
    } else if s.len() == 1 {
        seq![(s[0] * 16) as u8]
    } else {
        seq![(s[0] * 16 + s[1]) as u8] + spec_nibbles_to_bytes(s.skip(2))
    }
}

/// All nibble values a hex scan yields are below 16.
pub proof fn lemma_scan_hex_nibble_range(bytes: Seq<u8>, pos: int)
    requires
        0 <= pos <= bytes.len(),
    ensures
        match spec_scan_hex_nibbles(bytes, pos) {
            Some((s, e)) => forall|k: int| 0 <= k < s.len() ==> s[k] < 16,
            None => true,
        },
    decreases bytes.len() - pos,
{
    if pos >= bytes.len() {
    } else if bytes[pos] == 0x3e {
    } else {
        lemma_scan_hex_nibble_range(bytes, pos + 1);
    }
}

/// Scans the nibbles of a hex string starting just after `<`.
fn scan_hex_nibbles(bytes: &[u8], pos: usize) -> (r: Option<(Vec<u8>, usize)>)
    requires
        pos <= bytes@.len(),
    ensures
        match r {
            Some((v, e)) => spec_scan_hex_nibbles(bytes@, pos as int) == Some((v@, e as int))
                && pos < e <= bytes@.len(),
            None => spec_scan_hex_nibbles(bytes@, pos as int) is None,
        },
{
    proof {
        lemma_scan_hex_bounds(bytes@, pos as int);
    }
    let mut nibs: Vec<u8> = Vec::new();
    let mut i: usize = pos;
    proof {
        match spec_scan_hex_nibbles(bytes@, pos as int) {
            Some((s, e)) => {
                assert(Seq::<u8>::empty() + s =~= s);
            },
            None => {},
        }
    }
    loop
        invariant
            pos <= i <= bytes@.len(),
            opt_prepend(nibs@, spec_scan_hex_nibbles(bytes@, i as int)) == spec_scan_hex_nibbles(
                bytes@,
                pos as int,
            ),
        decreases bytes@.len() - i,
    {
        if i >= bytes.len() {
            return None;
        }
        let b = bytes[i];
        if b == 0x3e {
            proof {
                assert(nibs@ + Seq::<u8>::empty() =~= nibs@);
            }
            return Some((nibs, i + 1));
        } else if byte_is_ws(b) {
            i = i + 1;
        } else {
            match hex_val(b) {
                Some(v) => {
                    proof {
                        lemma_opt_prepend_assoc(
                            nibs@,
                            seq![v],
                            spec_scan_hex_nibbles(bytes@, i + 1),
                        );
                        assert(nibs@ + seq![v] =~= nibs@.push(v));
                    }
                    nibs.push(v);
                    i = i + 1;
                },
                None => {
                    return None;
                },
            }
        }
    }
}

/// Pairs nibble values into bytes, padding an odd final nibble.
pub(crate) fn nibbles_to_bytes(nibs: &Vec<u8>) -> (out: Vec<u8>)
    requires
        forall|k: int| 0 <= k < nibs@.len() ==> nibs@[k] < 16,
    ensures
        out@ == spec_nibbles_to_bytes(nibs@),
{
    let mut out: Vec<u8> = Vec::new();
    let mut j: usize = 0;
    proof {
        assert(nibs@.skip(0) =~= nibs@);
    }
    while j < nibs.len()
        invariant
            0 <= j <= nibs@.len(),
            forall|k: int| 0 <= k < nibs@.len() ==> nibs@[k] < 16,
            out@ + spec_nibbles_to_bytes(nibs@.skip(j as int)) == spec_nibbles_to_bytes(nibs@),
        decreases nibs@.len() - j,
    {
        let hi = nibs[j];
        if j + 1 < nibs.len() {
            let lo = nibs[j + 1];
            let v: u8 = hi * 16 + lo;
            proof {
                assert(nibs@.skip(j as int)[0] == nibs@[j as int]);
                assert(nibs@.skip(j as int)[1] == nibs@[j + 1]);
                assert(nibs@.skip(j as int).skip(2) =~= nibs@.skip(j + 2));
                assert(out@ + (seq![v] + spec_nibbles_to_bytes(nibs@.skip(j + 2))) =~= (out@
                    + seq![v]) + spec_nibbles_to_bytes(nibs@.skip(j + 2)));
                assert(out@ + seq![v] =~= out@.push(v));
            }
            out.push(v);
            j = j + 2;
        } else {
            let v: u8 = hi * 16;
            proof {
                assert(nibs@.skip(j as int)[0] == nibs@[j as int]);
                assert(nibs@.skip(j as int).len() == 1);
                assert(out@ + seq![v] =~= out@.push(v));
            }
            out.push(v);
            j = j + 1;
        }
    }
    proof {
        assert(nibs@.skip(j as int).len() == 0);
        assert(out@ + Seq::<u8>::empty() =~= out@);
    }
    out
}

/// Scans a hex string starting just after `<`, returning the decoded
/// bytes and the position after the closing `>`.
pub fn scan_hex_string(bytes: &[u8], pos: usize) -> (r: Option<(Vec<u8>, usize)>)
    requires
        pos <= bytes@.len(),
    ensures
        match r {
            Some((v, e)) => match spec_scan_hex_nibbles(bytes@, pos as int) {
                Some((s, se)) => v@ == spec_nibbles_to_bytes(s) && e == se && pos < e
                    <= bytes@.len(),
                None => false,
            },
            None => spec_scan_hex_nibbles(bytes@, pos as int) is None,
        },
{
    match scan_hex_nibbles(bytes, pos) {
        Some((nibs, end)) => {
            proof {
                lemma_scan_hex_nibble_range(bytes@, pos as int);
                assert(spec_scan_hex_nibbles(bytes@, pos as int) == Some((nibs@, end as int)));
                match spec_scan_hex_nibbles(bytes@, pos as int) {
                    Some((s, se)) => {
                        assert(s == nibs@);
                        assert(forall|k: int| 0 <= k < nibs@.len() ==> nibs@[k] < 16);
                    },
                    None => {},
                }
            }
            let out = nibbles_to_bytes(&nibs);
            Some((out, end))
        },
        None => None,
    }
}

pub open spec fn is_digit_byte(b: u8) -> bool {
    0x30 <= b <= 0x39
}

/// Value of a run of decimal digit bytes.
pub open spec fn spec_digits_value(s: Seq<u8>) -> int
    decreases s.len(),
{
    if s.len() == 0 {
        0
    } else {
        spec_digits_value(s.drop_last()) * 10 + (s.last() - 0x30)
    }
}

pub open spec fn all_digits(s: Seq<u8>) -> bool {
    forall|k: int| 0 <= k < s.len() ==> is_digit_byte(s[k])
}

pub open spec fn all_numeric_bytes(s: Seq<u8>) -> bool {
    forall|k: int| 0 <= k < s.len() ==> is_digit_byte(s[k]) || s[k] == 0x2e
}

pub open spec fn has_digit(s: Seq<u8>) -> bool {
    exists|k: int| 0 <= k < s.len() && is_digit_byte(s[k])
}

pub open spec fn spec_dot_count(s: Seq<u8>) -> int
    decreases s.len(),
{
    if s.len() == 0 {
        0
    } else {
        spec_dot_count(s.drop_last()) + if s.last() == 0x2e {
            1int
        } else {
            0int
        }
    }
}

/// The word without its leading sign byte, if it carries one.
pub open spec fn spec_word_body(w: Seq<u8>) -> Seq<u8> {
    if w.len() > 0 && (w[0] == 0x2b || w[0] == 0x2d) {
        w.drop_first()
    } else {
        w
    }
}

pub open spec fn word_is_neg(w: Seq<u8>) -> bool {
    w.len() > 0 && w[0] == 0x2d
}

pub open spec fn spec_pow10(n: nat) -> int
    decreases n,
{
    if n == 0 {
        1
    } else {
        10 * spec_pow10((n - 1) as nat)
    }
}

pub proof fn lemma_digits_value_bound(s: Seq<u8>)
    requires
        all_digits(s),
    ensures
        0 <= spec_digits_value(s) < spec_pow10(s.len()),
    decreases s.len(),
{
    if s.len() > 0 {
        assert(all_digits(s.drop_last()));
        lemma_digits_value_bound(s.drop_last());
    }
}

pub proof fn lemma_pow10_mono(a: nat, b: nat)
    requires
        a <= b,
    ensures
        spec_pow10(a) <= spec_pow10(b),
    decreases b,
{
    if a < b {
        lemma_pow10_mono(a, (b - 1) as nat);
        assert(spec_pow10((b - 1) as nat) >= 1) by {
            lemma_pow10_pos((b - 1) as nat);
        }
    }
}

pub proof fn lemma_pow10_pos(n: nat)
    ensures
        spec_pow10(n) >= 1,
    decreases n,
{
    if n > 0 {
        lemma_pow10_pos((n - 1) as nat);
    }
}

/// A lexical token and its spec-level image.
pub enum TokenS {
    Word(Seq<u8>),
    Int(int),
    Real(Seq<u8>),
    LitStr(Seq<u8>),
    HexStr(Seq<u8>),
    Name(Seq<u8>),
    ArrayOpen,
    ArrayClose,
    DictOpen,
    DictClose,
    BraceOpen,
    BraceClose,
}

/// A classified lexical unit. `Word` carries a bare keyword such as
/// `obj`, `R`, `true` or `stream`; `Real` keeps the raw numeric
/// lexeme.
#[derive(Debug)]
pub enum Token {
    Word(Vec<u8>),
    Int(i64),
    Real(Vec<u8>),
    LitStr(Vec<u8>),
    HexStr(Vec<u8>),
    Name(Vec<u8>),
    ArrayOpen,
    ArrayClose,
    DictOpen,
    DictClose,
    BraceOpen,
    BraceClose,
}

impl View for Token {
    type V = TokenS;

    open spec fn view(&self) -> TokenS {
        match self {
            Token::Word(v) => TokenS::Word(v@),
            Token::Int(n) => TokenS::Int(*n as int),
            Token::Real(v) => TokenS::Real(v@),
            Token::LitStr(v) => TokenS::LitStr(v@),
            Token::HexStr(v) => TokenS::HexStr(v@),
            Token::Name(v) => TokenS::Name(v@),
            Token::ArrayOpen => TokenS::ArrayOpen,
            Token::ArrayClose => TokenS::ArrayClose,
            Token::DictOpen => TokenS::DictOpen,
            Token::DictClose => TokenS::DictClose,
            Token::BraceOpen => TokenS::BraceOpen,
            Token::BraceClose => TokenS::BraceClose,
        }
    }
}

/// Classification of a bare word: an integer (at most 18 digits, so
/// it fits a machine integer; longer numerals are a lexical error), a
/// real, or a keyword.
pub open spec fn spec_classify_word(w: Seq<u8>) -> Option<TokenS> {
    let body = spec_word_body(w);
    if body.len() > 0 && all_digits(body) {
        if body.len() <= 18 {
            Some(
                TokenS::Int(
                    if word_is_neg(w) {
                        -spec_digits_value(body)
                    } else {
                        spec_digits_value(body)
                    },
                ),
            )
        } else {
            None
        }
    } else if all_numeric_bytes(body) && has_digit(body) && spec_dot_count(body) == 1 {
        Some(TokenS::Real(w))
    } else {
        Some(TokenS::Word(w))
    }
}

/// Classifies one word (a maximal run of regular bytes).
fn classify_word(w: &[u8]) -> (r: Option<Token>)
    ensures
        match r {
            Some(t) => spec_classify_word(w@) == Some(t@),
            None => spec_classify_word(w@) is None,
        },
{
    let start: usize = if w.len() > 0 && (w[0] == 0x2b || w[0] == 0x2d) {
        1
    } else {
        0
    };
    let neg = w.len() > 0 && w[0] == 0x2d;
    proof {
        assert(spec_word_body(w@) =~= w@.subrange(start as int, w@.len() as int));
    }
    let mut all_dig = true;
    let mut all_num = true;
    let mut saw_digit = false;
    let mut ndots: usize = 0;
    let mut i: usize = start;
    proof {
        assert(w@.subrange(start as int, start as int) =~= Seq::<u8>::empty());
    }
    while i < w.len()
        invariant
            start <= i <= w@.len(),
            start <= 1,
            all_dig == all_digits(w@.subrange(start as int, i as int)),
            all_num == all_numeric_bytes(w@.subrange(start as int, i as int)),
            saw_digit == has_digit(w@.subrange(start as int, i as int)),
            ndots == spec_dot_count(w@.subrange(start as int, i as int)),
            ndots <= i,
        decreases w@.len() - i,
    {
        let b = w[i];
        proof {
            assert(w@.subrange(start as int, i + 1).drop_last() =~= w@.subrange(
                start as int,
                i as int,
            ));
            assert(w@.subrange(start as int, i + 1).last() == w@[i as int]);
        }
        if b >= 0x30 && b <= 0x39 {
            saw_digit = true;
        } else {
            all_dig = false;
            if b == 0x2e {
                ndots = ndots + 1;
            } else {
                all_num = false;
            }
        }
        i = i + 1;
    }
    proof {
        assert(w@.subrange(start as int, w@.len() as int) == spec_word_body(w@));
    }
    let body_len = w.len() - start;
    if body_len > 0 && all_dig {
        if body_len <= 18 {
            // Accumulate the digit value; 18 digits fit comfortably.
            let mut acc: u64 = 0;
            let mut j: usize = start;
            proof {
                assert(w@.subrange(start as int, start as int) =~= Seq::<u8>::empty());
                reveal_with_fuel(spec_pow10, 20);
            }
            while j < w.len()
                invariant
                    start <= j <= w@.len(),
                    start <= 1,
                    w@.len() - start <= 18,
                    all_digits(w@.subrange(start as int, w@.len() as int)),
                    acc == spec_digits_value(w@.subrange(start as int, j as int)),
                    acc < spec_pow10((j - start) as nat),
                decreases w@.len() - j,
            {
                let b = w[j];
                proof {
                    assert(w@.subrange(start as int, j + 1).drop_last() =~= w@.subrange(
                        start as int,
                        j as int,
                    ));
                    assert(w@.subrange(start as int, j + 1).last() == w@[j as int]);
                    assert(w@.subrange(start as int, w@.len() as int)[j - start] == w@[j as int]);
                    assert(is_digit_byte(w@[j as int]));
                    reveal_with_fuel(spec_pow10, 20);
                    lemma_pow10_mono((j - start) as nat, 17);
                    assert(spec_pow10(17) == 100_000_000_000_000_000int);
                }
                acc = acc * 10 + ((b - 0x30) as u64);
                j = j + 1;
            }
            proof {
                reveal_with_fuel(spec_pow10, 20);
                lemma_pow10_mono((j - start) as nat, 18);
                assert(spec_pow10(18) == 1_000_000_000_000_000_000int);
            }
            if neg {
                Some(Token::Int(-(acc as i64)))
            } else {
                Some(Token::Int(acc as i64))
            }
        } else {
            None
        }
    } else if all_num && saw_digit && ndots == 1 {
        Some(Token::Real(vstd::slice::slice_to_vec(w)))
    } else {
        Some(Token::Word(vstd::slice::slice_to_vec(w)))
    }
}

/// The next token at or after `pos`, and the position just after it.
/// `None` on end of input or on a lexical error (an unterminated
/// string, a stray delimiter, a bad `#` or hex digit, an over-long
/// numeral).
pub open spec fn spec_next_token(bytes: Seq<u8>, pos: int) -> Option<(TokenS, int)> {
    let p = spec_skip_ws(bytes, pos);
    if p >= bytes.len() {
        None
    } else {
        let b = bytes[p];
        if b == 0x5b {
            Some((TokenS::ArrayOpen, p + 1))
        } else if b == 0x5d {
            Some((TokenS::ArrayClose, p + 1))
        } else if b == 0x7b {
            Some((TokenS::BraceOpen, p + 1))
        } else if b == 0x7d {
            Some((TokenS::BraceClose, p + 1))
        } else if b == 0x3c {
            if p + 1 < bytes.len() && bytes[p + 1] == 0x3c {
                Some((TokenS::DictOpen, p + 2))
            } else {
                match spec_scan_hex_nibbles(bytes, p + 1) {
                    Some((s, e)) => Some((TokenS::HexStr(spec_nibbles_to_bytes(s)), e)),
                    None => None,
                }
            }
        } else if b == 0x3e {
            if p + 1 < bytes.len() && bytes[p + 1] == 0x3e {
                Some((TokenS::DictClose, p + 2))
            } else {
                None
            }
        } else if b == 0x2f {
            match spec_scan_name(bytes, p + 1) {
                Some((s, e)) => Some((TokenS::Name(s), e)),
                None => None,
            }
        } else if b == 0x28 {
            match spec_scan_lit(bytes, p + 1, 1) {
                Some((s, e)) => Some((TokenS::LitStr(s), e)),
                None => None,
            }
        } else if b == 0x29 {
            None
        } else {
            let e = spec_scan_regular(bytes, p);
            match spec_classify_word(bytes.subrange(p, e)) {
                Some(t) => Some((t, e)),
                None => None,
            }
        }
    }
}

/// A token always lies after the whitespace run and consumes at
/// least one byte.
pub proof fn lemma_next_token_bounds(bytes: Seq<u8>, pos: int)
    requires
        0 <= pos <= bytes.len(),
    ensures
        match spec_next_token(bytes, pos) {
            Some((t, e)) => pos <= spec_skip_ws(bytes, pos) < e <= bytes.len(),
            None => true,
        },
{
    lemma_skip_ws_bounds(bytes, pos, false);
    let p = spec_skip_ws(bytes, pos);
    if p < bytes.len() {
        let b = bytes[p];
        if b == 0x5b || b == 0x5d || b == 0x7b || b == 0x7d {
        } else if b == 0x3c {
            if !(p + 1 < bytes.len() && bytes[p + 1] == 0x3c) {
                lemma_scan_hex_bounds(bytes, p + 1);
            }
        } else if b == 0x3e {
        } else if b == 0x2f {
            lemma_scan_name_bounds(bytes, p + 1);
        } else if b == 0x28 {
            lemma_scan_lit_bounds(bytes, p + 1, 1);
        } else if b == 0x29 {
        } else {
            lemma_scan_regular_bounds(bytes, p + 1);
            assert(is_regular_byte(b));
            assert(spec_scan_regular(bytes, p) == spec_scan_regular(bytes, p + 1));
        }
    }
}

/// Scans the next token starting at or after `pos`.
pub fn next_token(bytes: &[u8], pos: usize) -> (r: Option<(Token, usize)>)
    requires
        pos <= bytes@.len(),
        bytes@.len() < usize::MAX - 4,
    ensures
        match r {
            Some((t, e)) => spec_next_token(bytes@, pos as int) == Some((t@, e as int)) && pos < e
                <= bytes@.len(),
            None => spec_next_token(bytes@, pos as int) is None,
        },
{
    proof {
        lemma_next_token_bounds(bytes@, pos as int);
    }
    let p = skip_ws(bytes, pos);
    if p >= bytes.len() {
        return None;
    }
    let b = bytes[p];
    if b == 0x5b {
        Some((Token::ArrayOpen, p + 1))
    } else if b == 0x5d {
        Some((Token::ArrayClose, p + 1))
    } else if b == 0x7b {
        Some((Token::BraceOpen, p + 1))
    } else if b == 0x7d {
        Some((Token::BraceClose, p + 1))
    } else if b == 0x3c {
        if p + 1 < bytes.len() && bytes[p + 1] == 0x3c {
            Some((Token::DictOpen, p + 2))
        } else {
            match scan_hex_string(bytes, p + 1) {
                Some((v, e)) => Some((Token::HexStr(v), e)),
                None => None,
            }
        }
    } else if b == 0x3e {
        if p + 1 < bytes.len() && bytes[p + 1] == 0x3e {
            Some((Token::DictClose, p + 2))
        } else {
            None
        }
    } else if b == 0x2f {
        match scan_name(bytes, p + 1) {
            Some((v, e)) => Some((Token::Name(v), e)),
            None => None,
        }
    } else if b == 0x28 {
        match scan_lit(bytes, p + 1) {
            Some((v, e)) => Some((Token::LitStr(v), e)),
            None => None,
        }
    } else if b == 0x29 {
        None
    } else {
        let e = scan_regular(bytes, p);
        let w = vstd::slice::slice_subrange(bytes, p, e);
        match classify_word(w) {
            Some(t) => Some((t, e)),
            None => None,
        }
    }
}

} // verus!
