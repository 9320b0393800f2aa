//! The grammar of terminal output, read byte by byte.
//!
//! - Text: the longest run of bytes without ESC, decoded as UTF-8.
//! - CSI: ESC `[`, an optional private marker `?`, the parameter text
//!   (digits and `;`), intermediate bytes (0x20..=0x2F), a second optional
//!   `?`, and one final byte of any value, which is dropped. Parameters are
//!   `;`-separated; an empty one is 0, one too large for `i32` is
//!   `i32::MAX`, and no parameter text at all gives no parameter.
//! - OSC: ESC `]`, then everything up to the next BEL, cut at each `;`;
//!   arguments may be empty.
//! - Any other ESC: intermediate bytes, then a final byte in 0x30..=0x7E.
//!
//! A buffer that ends inside a sequence is `Incomplete`; a byte that the
//! grammar forbids, or one that breaks UTF-8 in text, is `InvalidChar`.

use crate::element::{byte_strings, views, AnsiElement, AnsiError, ElementView};
use vstd::prelude::*;
use vstd::slice::{slice_subrange, slice_to_vec};
use vstd::utf8::{decode_utf8, valid_utf8};

verus! {

/// The escape byte that starts every control sequence.
pub const ESC: u8 = 0x1B;

/// The bell byte that ends an operating system command.
pub const BEL: u8 = 0x07;

/// The separator of CSI parameters and of OSC arguments.
pub const SEMICOLON: u8 = 0x3B;

/// The private marker of a CSI sequence.
pub const QUESTION: u8 = 0x3F;

/// The second byte of a CSI introducer.
pub const CSI_OPEN: u8 = 0x5B;

/// The second byte of an OSC introducer.
pub const OSC_OPEN: u8 = 0x5D;

/// The kinds of byte run that the grammar reads greedily.
#[derive(Clone, Copy)]
pub enum ByteClass {
    /// Decimal digits and `;`: the parameter text of a CSI sequence.
    Param,
    /// The intermediate bytes 0x20..=0x2F.
    Intermediate,
    /// Anything but BEL: the body of an OSC sequence.
    NotBel,
    /// Anything but ESC: literal text.
    NotEsc,
}

impl ByteClass {
    pub open spec fn admits(self, b: u8) -> bool {
        match self {
            ByteClass::Param => (0x30 <= b && b <= 0x39) || b == SEMICOLON,
            ByteClass::Intermediate => 0x20 <= b && b <= 0x2F,
            ByteClass::NotBel => b != BEL,
            ByteClass::NotEsc => b != ESC,
        }
    }

    fn accepts(self, b: u8) -> (r: bool)
        ensures
            r == self.admits(b),
    {
        match self {
            ByteClass::Param => (0x30 <= b && b <= 0x39) || b == SEMICOLON,
            ByteClass::Intermediate => 0x20 <= b && b <= 0x2F,
            ByteClass::NotBel => b != BEL,
            ByteClass::NotEsc => b != ESC,
        }
    }
}

/// Where the longest run of `class` bytes that starts at `i` ends.
pub open spec fn run_end(s: Seq<u8>, i: int, class: ByteClass) -> int
    decreases s.len() - i,
{
    if 0 <= i < s.len() && class.admits(s[i]) {
        run_end(s, i + 1, class)
    } else {
        i
    }
}

proof fn lemma_run_end(s: Seq<u8>, i: int, class: ByteClass)
    requires
        0 <= i <= s.len(),
    ensures
        i <= run_end(s, i, class) <= s.len(),
        forall|k: int| i <= k < run_end(s, i, class) ==> class.admits(#[trigger] s[k]),
        run_end(s, i, class) < s.len() ==> !class.admits(s[run_end(s, i, class)]),
    decreases s.len() - i,
{
    if i < s.len() && class.admits(s[i]) {
        lemma_run_end(s, i + 1, class);
    }
}

fn scan(s: &[u8], i: usize, class: ByteClass) -> (j: usize)
    requires
        i <= s@.len(),
    ensures
        j == run_end(s@, i as int, class),
        i <= j <= s@.len(),
{
    proof {
        lemma_run_end(s@, i as int, class);
    }
    let mut j = i;
    while j < s.len() && class.accepts(s[j])
        invariant
            i <= j <= s@.len(),
            run_end(s@, i as int, class) == run_end(s@, j as int, class),
        decreases s@.len() - j,
    {
        j = j + 1;
    }
    j
}

/// `s` cut at every `sep`: the pieces, in order, without the separators.
pub open spec fn split(s: Seq<u8>, sep: u8) -> Seq<Seq<u8>>
    decreases s.len(),
{
    if s.len() == 0 {
        seq![seq![]]
    } else {
        let init = split(s.drop_last(), sep);
        if s.last() == sep {
            init.push(seq![])
        } else {
            init.update(init.len() - 1, init.last().push(s.last()))
        }
    }
}

proof fn lemma_split_nonempty(s: Seq<u8>, sep: u8)
    ensures
        split(s, sep).len() >= 1,
    decreases s.len(),
{
    if s.len() > 0 {
        lemma_split_nonempty(s.drop_last(), sep);
    }
}

/// The number that a string of decimal digits denotes.
pub open spec fn digits_value(d: Seq<u8>) -> int
    decreases d.len(),
{
    if d.len() == 0 {
        0
    } else {
        digits_value(d.drop_last()) * 10 + (d.last() - 0x30)
    }
}

/// A parameter's value: its digits read in decimal, at most `i32::MAX`;
/// an empty parameter is 0.
pub open spec fn param_value(d: Seq<u8>) -> i32 {
    if digits_value(d) > i32::MAX {
        i32::MAX
    } else {
        digits_value(d) as i32
    }
}

/// The values of the `;`-separated parameters in `p`; no text, no parameter.
pub open spec fn params_of(p: Seq<u8>) -> Seq<i32> {
    if p.len() == 0 {
        seq![]
    } else {
        split(p, SEMICOLON).map_values(|d: Seq<u8>| param_value(d))
    }
}


fn read_params(s: &[u8], a: usize, b: usize) -> (r: Vec<i32>)
    requires
        a <= b <= s@.len(),
        forall|k: int| a <= k < b ==> ByteClass::Param.admits(#[trigger] s@[k]),
    ensures
        r@ == params_of(s@.subrange(a as int, b as int)),
{
    let mut out: Vec<i32> = Vec::new();
    if a == b {
        return out;
    }
    let mut cur: i32 = 0;
    let mut k: usize = a;
    proof {
        assert(s@.subrange(a as int, a as int) =~= Seq::<u8>::empty());
    }
    while k < b
        invariant
            a <= k <= b <= s@.len(),
            forall|m: int| a <= m < b ==> ByteClass::Param.admits(#[trigger] s@[m]),
            0 <= cur,
            digits_value(split(s@.subrange(a as int, k as int), SEMICOLON).last()) >= 0,
            out@.push(cur) == split(s@.subrange(a as int, k as int), SEMICOLON).map_values(
                |d: Seq<u8>| param_value(d),
            ),
        decreases b - k,
    {
        let c = s[k];
        let ghost p = s@.subrange(a as int, k as int);
        let ghost p2 = s@.subrange(a as int, k + 1);
        proof {
            assert(p2.drop_last() =~= p);
            lemma_split_nonempty(p, SEMICOLON);
        }
        let ghost pieces = split(p, SEMICOLON);
        if c == SEMICOLON {
            out.push(cur);
            cur = 0;
            proof {
                assert(digits_value(Seq::<u8>::empty()) == 0);
                assert(split(p2, SEMICOLON).last() =~= Seq::<u8>::empty());
                assert(split(p2, SEMICOLON).map_values(|d: Seq<u8>| param_value(d)) =~= out@.push(
                    cur,
                ));
            }
        } else {
            let d: i32 = (c - 0x30) as i32;
            let ghost piece = pieces.last();
            let ghost before = out@.push(cur);
            proof {
                assert(piece.push(c).drop_last() =~= piece);
                assert(digits_value(piece.push(c)) == digits_value(piece) * 10 + d);
                let m = split(p, SEMICOLON).map_values(|d: Seq<u8>| param_value(d));
                assert(m[m.len() - 1] == param_value(piece));
                assert(out@.push(cur)[out@.len() as int] == cur);
                assert(cur == param_value(piece));
                assert(digits_value(piece) >= cur);
            }
            if cur > (i32::MAX - d) / 10 {
                proof {
                    assert(digits_value(piece) * 10 + d > i32::MAX) by (nonlinear_arith)
                        requires
                            cur > (i32::MAX - d) / 10,
                            0 <= d <= 9,
                            digits_value(piece) >= cur,
                    ;
                }
                cur = i32::MAX;
            } else {
                proof {
                    assert(digits_value(piece) == cur) by {
                        if digits_value(piece) > i32::MAX {
                            assert(cur == i32::MAX);
                        }
                    }
                    assert(cur * 10 + d <= i32::MAX) by (nonlinear_arith)
                        requires
                            cur <= (i32::MAX - d) / 10,
                            0 <= d <= 9,
                    ;
                }
                cur = cur * 10 + d;
            }
            proof {
                assert(cur == param_value(piece.push(c)));
                assert(p2.last() == c);
                assert(split(p2, SEMICOLON) == pieces.update(pieces.len() - 1, piece.push(c)));
                assert(split(p2, SEMICOLON).last() == piece.push(c));
                assert(digits_value(piece.push(c)) >= 0) by (nonlinear_arith)
                    requires
                        digits_value(piece.push(c)) == digits_value(piece) * 10 + d,
                        digits_value(piece) >= 0,
                        d >= 0,
                ;
                assert(split(p2, SEMICOLON).map_values(|d: Seq<u8>| param_value(d)) =~= before.update(
                    before.len() - 1,
                    cur,
                ));
                assert(before.update(before.len() - 1, cur) =~= out@.push(cur));
            }
        }
        k = k + 1;
    }
    out.push(cur);
    out
}

fn read_args(s: &[u8], a: usize, b: usize) -> (r: Vec<Vec<u8>>)
    requires
        a <= b <= s@.len(),
    ensures
        byte_strings(r@) == split(s@.subrange(a as int, b as int), SEMICOLON),
{
    let mut out: Vec<Vec<u8>> = Vec::new();
    let mut cur: Vec<u8> = Vec::new();
    let mut k: usize = a;
    proof {
        assert(s@.subrange(a as int, a as int) =~= Seq::<u8>::empty());
        assert(byte_strings(out@).push(cur@) =~= seq![Seq::<u8>::empty()]);
    }
    while k < b
        invariant
            a <= k <= b <= s@.len(),
            byte_strings(out@).push(cur@) == split(s@.subrange(a as int, k as int), SEMICOLON),
        decreases b - k,
    {
        let c = s[k];
        let ghost p = s@.subrange(a as int, k as int);
        let ghost p2 = s@.subrange(a as int, k + 1);
        proof {
            assert(p2.drop_last() =~= p);
            lemma_split_nonempty(p, SEMICOLON);
        }
        if c == SEMICOLON {
            out.push(cur);
            cur = Vec::new();
            proof {
                assert(byte_strings(out@).push(cur@) =~= split(p2, SEMICOLON));
            }
        } else {
            cur.push(c);
            proof {
                assert(byte_strings(out@).push(cur@) =~= split(p2, SEMICOLON));
            }
        }
        k = k + 1;
    }
    out.push(cur);
    proof {
        assert(byte_strings(out@) =~= split(s@.subrange(a as int, b as int), SEMICOLON));
    }
    out
}


/// `k` is the length of the longest prefix of `b` that is valid UTF-8.
pub open spec fn longest_valid_prefix(b: Seq<u8>, k: int) -> bool {
    &&& 0 <= k <= b.len()
    &&& valid_utf8(b.subrange(0, k))
    &&& forall|j: int| k < j <= b.len() ==> !valid_utf8(#[trigger] b.subrange(0, j))
}

/// Relies on `std::str::from_utf8`: it accepts exactly the valid UTF-8 byte
/// strings and decodes them; on a refusal, `Utf8Error::valid_up_to` is the
/// greatest index up to which the bytes are valid UTF-8.
#[verifier::external_body]
fn decode_text(b: &[u8]) -> (r: Result<String, usize>)
    ensures
        match r {
            Ok(text) => valid_utf8(b@) && text@ == decode_utf8(b@),
            Err(k) => !valid_utf8(b@) && longest_valid_prefix(b@, k as int),
        },
{
    match std::str::from_utf8(b) {
        Ok(text) => Ok(text.to_owned()),
        Err(e) => Err(e.valid_up_to()),
    }
}

/// Literal text at `i`: the longest run without ESC, decoded as UTF-8; where
/// it is not valid UTF-8, the error names the first byte that breaks it.
pub open spec fn text_at(s: Seq<u8>, i: int) -> Result<(int, ElementView), AnsiError> {
    let t = s.subrange(i, run_end(s, i, ByteClass::NotEsc));
    if valid_utf8(t) {
        Ok((run_end(s, i, ByteClass::NotEsc), ElementView::Text(decode_utf8(t))))
    } else {
        Err(AnsiError::InvalidChar(t[choose|k: int| longest_valid_prefix(t, k)]))
    }
}

/// A CSI sequence whose introducer ESC `[` stands at `i`: an optional `?`,
/// the parameter text, the intermediate bytes, another optional `?`, and
/// one final byte of any value, which ends the sequence and is dropped.
pub open spec fn csi_at(s: Seq<u8>, i: int) -> Result<(int, ElementView), AnsiError> {
    let n = s.len();
    let front = i + 2 < n && s[i + 2] == QUESTION;
    let a = if front { i + 3 } else { i + 2 };
    let b = run_end(s, a, ByteClass::Param);
    let c = run_end(s, b, ByteClass::Intermediate);
    let back = c < s.len() && s[c] == QUESTION;
    let d = if back { c + 1 } else { c };
    if d >= s.len() {
        Err(AnsiError::Incomplete)
    } else {
        Ok((d + 1, ElementView::Csi {
            params: params_of(s.subrange(a, b)),
            intermediates: s.subrange(b, c),
            ignore: front || back,
        }))
    }
}

/// An OSC sequence whose introducer ESC `]` stands at `i`: everything up to
/// the next BEL, cut at each `;`.
pub open spec fn osc_at(s: Seq<u8>, i: int) -> Result<(int, ElementView), AnsiError> {
    let k = run_end(s, i + 2, ByteClass::NotBel);
    if k >= s.len() {
        Err(AnsiError::Incomplete)
    } else {
        Ok((k + 1, ElementView::Osc(split(s.subrange(i + 2, k), SEMICOLON))))
    }
}

/// Any other escape sequence at `i`: intermediate bytes, then a final byte
/// in 0x30..=0x7E.
pub open spec fn esc_at(s: Seq<u8>, i: int) -> Result<(int, ElementView), AnsiError> {
    let k = run_end(s, i + 1, ByteClass::Intermediate);
    if k >= s.len() {
        Err(AnsiError::Incomplete)
    } else if 0x30 <= s[k] <= 0x7E {
        Ok((k + 1, ElementView::Esc(s.subrange(i + 1, k + 1))))
    } else {
        Err(AnsiError::InvalidChar(s[k]))
    }
}

/// The element that starts at `i`, with the position just after it.
pub open spec fn element_at(s: Seq<u8>, i: int) -> Result<(int, ElementView), AnsiError> {
    if s[i] != ESC {
        text_at(s, i)
    } else if i + 1 >= s.len() {
        Err(AnsiError::Incomplete)
    } else if s[i + 1] == CSI_OPEN {
        csi_at(s, i)
    } else if s[i + 1] == OSC_OPEN {
        osc_at(s, i)
    } else {
        esc_at(s, i)
    }
}

/// `head` before the elements of `r`, or the error of `r`.
pub open spec fn prepend(head: Seq<ElementView>, r: Result<Seq<ElementView>, AnsiError>) -> Result<
    Seq<ElementView>,
    AnsiError,
> {
    match r {
        Ok(rest) => Ok(head + rest),
        Err(e) => Err(e),
    }
}

/// The elements of `s` from `i` on, left to right, or the first error.
pub open spec fn parse_from(s: Seq<u8>, i: int) -> Result<Seq<ElementView>, AnsiError>
    decreases s.len() - i,
{
    if i < 0 || i >= s.len() {
        Ok(seq![])
    } else {
        match element_at(s, i) {
            Err(e) => Err(e),
            Ok((j, e)) => if i < j <= s.len() {
                prepend(seq![e], parse_from(s, j))
            } else {
                Err(AnsiError::Incomplete)
            },
        }
    }
}

/// The elements of a whole buffer, or the first error.
pub open spec fn parsed(s: Seq<u8>) -> Result<Seq<ElementView>, AnsiError> {
    parse_from(s, 0)
}

/// The error that the first two bytes of `s` give when they are not ESC
/// followed by `second`.
pub open spec fn introducer_error(s: Seq<u8>, second: u8) -> Option<AnsiError> {
    if s.len() == 0 {
        Some(AnsiError::Incomplete)
    } else if s[0] != ESC {
        Some(AnsiError::InvalidChar(s[0]))
    } else if s.len() == 1 {
        Some(AnsiError::Incomplete)
    } else if s[1] != second {
        Some(AnsiError::InvalidChar(s[1]))
    } else {
        None
    }
}

/// A CSI sequence at the start of `s`.
pub open spec fn csi_from(s: Seq<u8>) -> Result<(int, ElementView), AnsiError> {
    match introducer_error(s, CSI_OPEN) {
        Some(e) => Err(e),
        None => csi_at(s, 0),
    }
}

/// An OSC sequence at the start of `s`.
pub open spec fn osc_from(s: Seq<u8>) -> Result<(int, ElementView), AnsiError> {
    match introducer_error(s, OSC_OPEN) {
        Some(e) => Err(e),
        None => osc_at(s, 0),
    }
}

spec fn agrees(
    r: Result<(usize, AnsiElement), AnsiError>,
    m: Result<(int, ElementView), AnsiError>,
) -> bool {
    match (r, m) {
        (Ok((j, e)), Ok((k, v))) => j == k && e@ == v,
        (Err(x), Err(y)) => x == y,
        _ => false,
    }
}

/// `r` is what `m` describes: the same element, with the bytes of `s`
/// after it as the rest; or the same error.
pub open spec fn agrees_rest(
    r: Result<(&[u8], AnsiElement), AnsiError>,
    s: Seq<u8>,
    m: Result<(int, ElementView), AnsiError>,
) -> bool {
    match (r, m) {
        (Ok((rest, e)), Ok((k, v))) => e@ == v && rest@ == s.subrange(k, s.len() as int),
        (Err(x), Err(y)) => x == y,
        _ => false,
    }
}

fn text_element(s: &[u8], i: usize) -> (r: Result<(usize, AnsiElement), AnsiError>)
    requires
        i < s@.len(),
        s@[i as int] != ESC,
    ensures
        agrees(r, text_at(s@, i as int)),
        r matches Ok((j, _)) ==> i < j <= s@.len(),
{
    let j = scan(s, i, ByteClass::NotEsc);
    proof {
        lemma_run_end(s@, i as int, ByteClass::NotEsc);
    }
    let ghost t = s@.subrange(i as int, j as int);
    match decode_text(slice_subrange(s, i, j)) {
        Ok(text) => Ok((j, AnsiElement::Text(text))),
        Err(k) => {
            proof {
                if k as int == t.len() {
                    assert(t.subrange(0, t.len() as int) =~= t);
                }
                let k2 = choose|k2: int| longest_valid_prefix(t, k2);
                assert(longest_valid_prefix(t, k as int));
                if k2 < k {
                    assert(!valid_utf8(t.subrange(0, k as int)));
                }
                if k < k2 {
                    assert(!valid_utf8(t.subrange(0, k2)));
                }
            }
            Err(AnsiError::InvalidChar(s[i + k]))
        },
    }
}

fn csi_body(s: &[u8], i: usize) -> (r: Result<(usize, AnsiElement), AnsiError>)
    requires
        i + 1 < s@.len(),
    ensures
        agrees(r, csi_at(s@, i as int)),
        r matches Ok((j, _)) ==> i < j <= s@.len(),
{
    let n = s.len();
    let front = i + 2 < n && s[i + 2] == QUESTION;
    let a: usize = if front { i + 3 } else { i + 2 };
    let b = scan(s, a, ByteClass::Param);
    let c = scan(s, b, ByteClass::Intermediate);
    let back = c < s.len() && s[c] == QUESTION;
    let d: usize = if back { c + 1 } else { c };
    if d >= n {
        return Err(AnsiError::Incomplete);
    }
    proof {
        lemma_run_end(s@, a as int, ByteClass::Param);
    }
    let params = read_params(s, a, b);
    let intermediates = slice_to_vec(slice_subrange(s, b, c));
    Ok((d + 1, AnsiElement::Csi { params, intermediates, ignore: front || back }))
}

fn osc_body(s: &[u8], i: usize) -> (r: Result<(usize, AnsiElement), AnsiError>)
    requires
        i + 1 < s@.len(),
    ensures
        agrees(r, osc_at(s@, i as int)),
        r matches Ok((j, _)) ==> i < j <= s@.len(),
{
    let n = s.len();
    let k = scan(s, i + 2, ByteClass::NotBel);
    if k >= n {
        return Err(AnsiError::Incomplete);
    }
    let args = read_args(s, i + 2, k);
    Ok((k + 1, AnsiElement::Osc(args)))
}

fn esc_body(s: &[u8], i: usize) -> (r: Result<(usize, AnsiElement), AnsiError>)
    requires
        i + 1 < s@.len(),
    ensures
        agrees(r, esc_at(s@, i as int)),
        r matches Ok((j, _)) ==> i < j <= s@.len(),
{
    let n = s.len();
    let k = scan(s, i + 1, ByteClass::Intermediate);
    if k >= n {
        Err(AnsiError::Incomplete)
    } else if 0x30 <= s[k] && s[k] <= 0x7E {
        let bytes = slice_to_vec(slice_subrange(s, i + 1, k + 1));
        Ok((k + 1, AnsiElement::Esc(bytes)))
    } else {
        Err(AnsiError::InvalidChar(s[k]))
    }
}

fn next_element(s: &[u8], i: usize) -> (r: Result<(usize, AnsiElement), AnsiError>)
    requires
        i < s@.len(),
    ensures
        agrees(r, element_at(s@, i as int)),
        r matches Ok((j, _)) ==> i < j <= s@.len(),
{
    if s[i] != ESC {
        text_element(s, i)
    } else if i + 1 >= s.len() {
        Err(AnsiError::Incomplete)
    } else if s[i + 1] == CSI_OPEN {
        csi_body(s, i)
    } else if s[i + 1] == OSC_OPEN {
        osc_body(s, i)
    } else {
        esc_body(s, i)
    }
}

/// Parses a whole buffer into its elements, in input order.
pub fn parse_ansi(input: &[u8]) -> (r: Result<Vec<AnsiElement>, AnsiError>)
    ensures
        match r {
            Ok(v) => parsed(input@) == Ok::<Seq<ElementView>, AnsiError>(views(v@)),
            Err(e) => parsed(input@) == Err::<Seq<ElementView>, AnsiError>(e),
        },
{
    let mut out: Vec<AnsiElement> = Vec::new();
    let mut i: usize = 0;
    proof {
        assert(views(out@) + Seq::<ElementView>::empty() =~= Seq::<ElementView>::empty());
    }
    while i < input.len()
        invariant
            i <= input@.len(),
            match parse_from(input@, i as int) {
                Ok(rest) => parsed(input@) == Ok::<Seq<ElementView>, AnsiError>(views(out@) + rest),
                Err(e) => parsed(input@) == Err::<Seq<ElementView>, AnsiError>(e),
            },
        decreases input@.len() - i,
    {
        match next_element(input, i) {
            Err(e) => {
                return Err(e);
            },
            Ok((j, e)) => {
                let ghost v = e@;
                let ghost before = out@;
                out.push(e);
                proof {
                    assert(views(out@) =~= views(before) + seq![v]);
                    if let Ok(rest) = parse_from(input@, j as int) {
                        assert(views(before) + (seq![v] + rest) =~= views(out@) + rest);
                    }
                }
                i = j;
            },
        }
    }
    proof {
        assert(views(out@) + Seq::<ElementView>::empty() =~= views(out@));
    }
    Ok(out)
}

/// Parses one CSI sequence at the start of `input`; returns what follows it
/// and the element.
pub fn parse_csi(input: &[u8]) -> (r: Result<(&[u8], AnsiElement), AnsiError>)
    ensures
        agrees_rest(r, input@, csi_from(input@)),
{
    if input.len() == 0 {
        return Err(AnsiError::Incomplete);
    }
    if input[0] != ESC {
        return Err(AnsiError::InvalidChar(input[0]));
    }
    if input.len() == 1 {
        return Err(AnsiError::Incomplete);
    }
    if input[1] != CSI_OPEN {
        return Err(AnsiError::InvalidChar(input[1]));
    }
    match csi_body(input, 0) {
        Ok((n, e)) => Ok((slice_subrange(input, n, input.len()), e)),
        Err(x) => Err(x),
    }
}

/// Parses one OSC sequence at the start of `input`; returns what follows it
/// and the element.
pub fn parse_osc(input: &[u8]) -> (r: Result<(&[u8], AnsiElement), AnsiError>)
    ensures
        agrees_rest(r, input@, osc_from(input@)),
{
    if input.len() == 0 {
        return Err(AnsiError::Incomplete);
    }
    if input[0] != ESC {
        return Err(AnsiError::InvalidChar(input[0]));
    }
    if input.len() == 1 {
        return Err(AnsiError::Incomplete);
    }
    if input[1] != OSC_OPEN {
        return Err(AnsiError::InvalidChar(input[1]));
    }
    match osc_body(input, 0) {
        Ok((n, e)) => Ok((slice_subrange(input, n, input.len()), e)),
        Err(x) => Err(x),
    }
}

/// A buffer without an ESC byte parses to a single text element that holds
/// its characters.
pub proof fn lemma_text_only_input(s: Seq<u8>)
    requires
        s.len() > 0,
        valid_utf8(s),
        forall|k: int| 0 <= k < s.len() ==> s[k] != ESC,
    ensures
        parsed(s) == Ok::<Seq<ElementView>, AnsiError>(seq![ElementView::Text(decode_utf8(s))]),
{
    lemma_run_end(s, 0, ByteClass::NotEsc);
    let j = run_end(s, 0, ByteClass::NotEsc);
    assert(j == s.len());
    assert(s.subrange(0, j) =~= s);
    assert(parse_from(s, j) == Ok::<Seq<ElementView>, AnsiError>(seq![]));
    assert(seq![ElementView::Text(decode_utf8(s))] + Seq::<ElementView>::empty() =~= seq![
        ElementView::Text(decode_utf8(s)),
    ]);
}

} // verus!
