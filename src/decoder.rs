//! The encoded-word decoder: folding-whitespace collapse and RFC 2047
//! encoded-word expansion over one raw header value, in one forward scan.
use vstd::prelude::*;
use vstd::utf8::*;

use crate::backends::{charset_text, convert_charset, decode_imap_base64, imap_base64};

verus! {

pub const CR: u8 = 0x0d;
pub const LF: u8 = 0x0a;
pub const SP: u8 = 0x20;
pub const TAB: u8 = 0x09;
pub const EQ: u8 = 0x3d;
pub const QM: u8 = 0x3f;
pub const UNDERSCORE: u8 = 0x5f;

/// Why a header block or a header value could not be processed.
#[derive(Debug, Clone, Copy, PartialEq, Eq, Structural)]
pub enum Error {
    /// A header line has no colon, or the input ends before the blank line.
    MalformedHeaderBlock,
    /// A fold (CR LF and spaces or tabs) that ends the value.
    MalformedFold,
    /// The value ends inside an `=?...` construct, or a Base64 word lacks its `=`.
    UnterminatedEncodedWord,
    /// The encoding letter is neither Q/q nor B/b.
    UnsupportedEncoding,
    /// The charset label is not known to the charset converter.
    UnknownCharset,
    /// The payload of a B word is not valid Base64.
    InvalidBase64,
    /// An `=` escape in a Q word is not followed by two hex digits.
    InvalidQuotedPrintableEscape,
    /// The bytes are not UTF-8 where text is required.
    InvalidUtf8Input,
}

/// A decoded value: the input itself where nothing had to be rewritten,
/// else freshly built text.
#[derive(Debug)]
pub enum DecodedValue<'a> {
    Borrowed(&'a str),
    Owned(String),
}

impl<'a> View for DecodedValue<'a> {
    type V = Seq<char>;

    open spec fn view(&self) -> Seq<char> {
        match self {
            DecodedValue::Borrowed(s) => s@,
            DecodedValue::Owned(s) => s@,
        }
    }
}

impl<'a> DecodedValue<'a> {
    /// The decoded text.
    pub fn as_str(&self) -> (r: &str)
        ensures
            r@ == self@,
    {
        match self {
            DecodedValue::Borrowed(s) => s,
            DecodedValue::Owned(s) => s.as_str(),
        }
    }

    /// Whether the value is the input itself, with nothing allocated.
    pub fn is_borrowed(&self) -> (r: bool)
        ensures
            r == (self is Borrowed),
    {
        match self {
            DecodedValue::Borrowed(_) => true,
            DecodedValue::Owned(_) => false,
        }
    }
}

pub open spec fn is_fold_ws(b: u8) -> bool {
    b == SP || b == TAB
}

pub open spec fn is_hex_digit(b: u8) -> bool {
    (0x30 <= b <= 0x39) || (0x41 <= b <= 0x46) || (0x61 <= b <= 0x66)
}

pub open spec fn hex_value(b: u8) -> int {
    if b >= 0x61 {
        b - 0x61 + 10
    } else if b >= 0x41 {
        b - 0x41 + 10
    } else {
        b - 0x30
    }
}

/// Puts `p` in front of a successful result; an error stays as it is.
pub open spec fn prepend(p: Seq<u8>, r: Result<Seq<u8>, Error>) -> Result<Seq<u8>, Error> {
    match r {
        Ok(t) => Ok(p + t),
        Err(e) => Err(e),
    }
}

/// Whether a fold opens at `i`: CR LF, then a space or tab.
pub open spec fn opens_fold(s: Seq<u8>, i: int) -> bool {
    0 <= i && i + 2 < s.len() && s[i] == CR && s[i + 1] == LF && is_fold_ws(s[i + 2])
}

/// The output for `s[i..]` when scanning plain text at `i`.
pub open spec fn decode_from(s: Seq<u8>, i: int) -> Result<Seq<u8>, Error>
    decreases s.len() - i, 0int,
{
    if i < 0 || i >= s.len() {
        Ok(Seq::empty())
    } else if opens_fold(s, i) {
        fold_from(s, i + 2)
    } else if s[i] == EQ {
        after_eq(s, i + 1)
    } else {
        prepend(seq![s[i]], decode_from(s, i + 1))
    }
}

/// Inside the whitespace of a fold at `k`: the run collapses to one space,
/// and scanning goes on at the byte that ends it.
pub open spec fn fold_from(s: Seq<u8>, k: int) -> Result<Seq<u8>, Error>
    decreases s.len() - k, 1int,
{
    if k < 0 || k >= s.len() {
        Err(Error::MalformedFold)
    } else if is_fold_ws(s[k]) {
        fold_from(s, k + 1)
    } else {
        prepend(seq![SP], decode_from(s, k))
    }
}

/// Just after an `=` at `m - 1`: `=?` opens an encoded word; otherwise the
/// `=` is plain text and scanning goes on at `m`.
pub open spec fn after_eq(s: Seq<u8>, m: int) -> Result<Seq<u8>, Error>
    decreases s.len() - m, 1int,
{
    if m < 0 || m >= s.len() {
        Ok(seq![EQ])
    } else if s[m] == QM {
        if m + 1 >= s.len() {
            Err(Error::UnterminatedEncodedWord)
        } else {
            charset_from(s, m + 1, m + 2)
        }
    } else {
        prepend(seq![EQ], decode_from(s, m))
    }
}

/// The charset of a word runs from `j` (whose byte it always holds) to the
/// next `?`; the scan stands at `k`.
pub open spec fn charset_from(s: Seq<u8>, j: int, k: int) -> Result<Seq<u8>, Error>
    decreases s.len() - k, 0int,
{
    if k < 0 || k > s.len() || j < 0 || j >= k {
        Err(Error::UnterminatedEncodedWord)
    } else if k == s.len() {
        Err(Error::UnterminatedEncodedWord)
    } else if s[k] == QM {
        encoding_at(s, s.subrange(j, k), k + 1)
    } else {
        charset_from(s, j, k + 1)
    }
}

pub open spec fn is_q_letter(b: u8) -> bool {
    b == 0x51 || b == 0x71
}

pub open spec fn is_b_letter(b: u8) -> bool {
    b == 0x42 || b == 0x62
}

/// The encoding letter at `k`, then the `?` that opens the payload.
pub open spec fn encoding_at(s: Seq<u8>, cs: Seq<u8>, k: int) -> Result<Seq<u8>, Error>
    decreases s.len() - k, 0int,
{
    if k < 0 || k >= s.len() {
        Err(Error::UnterminatedEncodedWord)
    } else if !is_q_letter(s[k]) && !is_b_letter(s[k]) {
        Err(Error::UnsupportedEncoding)
    } else if k + 1 >= s.len() {
        Err(Error::UnterminatedEncodedWord)
    } else if s[k + 1] != QM {
        Err(Error::UnsupportedEncoding)
    } else if is_q_letter(s[k]) {
        q_from(s, cs, Seq::empty(), k + 2)
    } else {
        b_from(s, cs, k + 2, k + 2)
    }
}

/// A Q payload at `k`, with `acc` decoded so far: `_` is a space, `=XY` a
/// byte, and `?` closes the word where an `=` follows it.
pub open spec fn q_from(s: Seq<u8>, cs: Seq<u8>, acc: Seq<u8>, k: int) -> Result<Seq<u8>, Error>
    decreases s.len() - k, 0int,
{
    if k < 0 || k >= s.len() {
        Err(Error::UnterminatedEncodedWord)
    } else if s[k] == UNDERSCORE {
        q_from(s, cs, acc.push(SP), k + 1)
    } else if s[k] == QM {
        if k + 1 >= s.len() {
            Err(Error::UnterminatedEncodedWord)
        } else if s[k + 1] == EQ {
            match charset_text(cs, acc) {
                None => Err(Error::UnknownCharset),
                Some(t) => prepend(encode_utf8(t), decode_from(s, k + 2)),
            }
        } else if s[k + 1] == QM {
            q_from(s, cs, acc.push(QM), k + 1)
        } else {
            q_from(s, cs, acc.push(QM).push(s[k + 1]), k + 2)
        }
    } else if s[k] == EQ {
        if k + 2 >= s.len() {
            Err(Error::UnterminatedEncodedWord)
        } else if is_hex_digit(s[k + 1]) && is_hex_digit(s[k + 2]) {
            q_from(s, cs, acc.push((16 * hex_value(s[k + 1]) + hex_value(s[k + 2])) as u8), k + 3)
        } else {
            Err(Error::InvalidQuotedPrintableEscape)
        }
    } else {
        q_from(s, cs, acc.push(s[k]), k + 1)
    }
}

/// A B payload from `p`, scanned up to `k`: it ends at the next `?`, which an
/// `=` must follow.
pub open spec fn b_from(s: Seq<u8>, cs: Seq<u8>, p: int, k: int) -> Result<Seq<u8>, Error>
    decreases s.len() - k, 0int,
{
    if k < 0 || k >= s.len() || p < 0 || p > k {
        Err(Error::UnterminatedEncodedWord)
    } else if s[k] == QM {
        match imap_base64(s.subrange(p, k)) {
            None => Err(Error::InvalidBase64),
            Some(bin) => match charset_text(cs, bin) {
                None => Err(Error::UnknownCharset),
                Some(t) => if k + 1 < s.len() && s[k + 1] == EQ {
                    prepend(encode_utf8(t), decode_from(s, k + 2))
                } else {
                    Err(Error::UnterminatedEncodedWord)
                },
            },
        }
    } else {
        b_from(s, cs, p, k + 1)
    }
}

/// Whether decoding from `i` has to rewrite anything: a fold or an encoded word.
pub open spec fn rewrites(s: Seq<u8>, i: int) -> bool
    decreases s.len() - i,
{
    if i < 0 || i >= s.len() {
        false
    } else if opens_fold(s, i) {
        true
    } else if s[i] == EQ && i + 1 < s.len() && s[i + 1] == QM {
        true
    } else {
        rewrites(s, i + 1)
    }
}

/// The decoded text of a raw value, or the error that decoding meets.
pub open spec fn decoded(s: Seq<u8>) -> Result<Seq<char>, Error> {
    if !valid_utf8(s) {
        Err(Error::InvalidUtf8Input)
    } else {
        match decode_from(s, 0) {
            Err(e) => Err(e),
            Ok(out) => Ok(decode_utf8(out)),
        }
    }
}

/// What a call of `decode` came to, as text or error.
pub open spec fn outcome(r: Result<DecodedValue, Error>) -> Result<Seq<char>, Error> {
    match r {
        Ok(d) => Ok(d@),
        Err(e) => Err(e),
    }
}

/// What `decode` gives on a raw value `b`: the decoded text or the error, the
/// input itself (borrowed) exactly where nothing had to be rewritten.
pub open spec fn decode_result(r: Result<DecodedValue, Error>, b: Seq<u8>) -> bool {
    &&& outcome(r) == decoded(b)
    &&& r matches Ok(d) ==> ((d is Borrowed) <==> !rewrites(b, 0))
    &&& r matches Ok(DecodedValue::Borrowed(t)) ==> encode_utf8(t@) == b
}

/// Whether `r` is the input `b` itself, borrowed.
pub open spec fn borrows_input(r: Result<DecodedValue, Error>, b: Seq<u8>) -> bool {
    r matches Ok(DecodedValue::Borrowed(t)) && encode_utf8(t@) == b
}

/// The value of one hex digit, upper or lower case.
pub fn hex_to_val(b: u8) -> (r: u8)
    requires
        b >= 0x30,
    ensures
        is_hex_digit(b) ==> r as int == hex_value(b) && r < 16,
{
    if b > 96 {
        b - 87
    } else if b > 64 {
        b - 55
    } else {
        b - 48
    }
}

} // verus!

verus! {

/// Prepending in two steps is prepending the concatenation.
pub proof fn lemma_prepend_assoc(a: Seq<u8>, b: Seq<u8>, r: Result<Seq<u8>, Error>)
    ensures
        prepend(a, prepend(b, r)) == prepend(a + b, r),
{
    if let Ok(t) = r {
        assert(a + (b + t) =~= (a + b) + t);
    }
}

fn is_hex_byte(b: u8) -> (r: bool)
    ensures
        r == is_hex_digit(b),
{
    (0x30 <= b && b <= 0x39) || (0x41 <= b && b <= 0x46) || (0x61 <= b && b <= 0x66)
}

/// Appends `src[from..to]` to `out`.
fn append_range(out: &mut Vec<u8>, src: &[u8], from: usize, to: usize)
    requires
        from <= to <= src@.len(),
    ensures
        final(out)@ == old(out)@ + src@.subrange(from as int, to as int),
{
    let mut i = from;
    while i < to
        invariant
            from <= i <= to <= src@.len(),
            out@ == old(out)@ + src@.subrange(from as int, i as int),
        decreases to - i,
    {
        out.push(src[i]);
        assert(src@.subrange(from as int, i + 1) =~= src@.subrange(from as int, i as int).push(src@[i as int]));
        i = i + 1;
    }
}

/// Appends the UTF-8 bytes of `t` to `out`.
fn append_text(out: &mut Vec<u8>, t: &String)
    ensures
        final(out)@ == old(out)@ + encode_utf8(t@),
        valid_utf8(old(out)@) ==> valid_utf8(final(out)@),
{
    let b = t.as_str().as_bytes();
    append_range(out, b, 0, b.len());
    assert(b@.subrange(0, b@.len() as int) =~= b@);
    proof {
        encode_utf8_valid_utf8(t@);
        if valid_utf8(old(out)@) {
            valid_utf8_concat(old(out)@, encode_utf8(t@));
        }
    }
}

/// Decodes a Q payload starting at `p`, up to and including its closing `?=`,
/// and returns the position after it.
fn decode_q(bytes: &[u8], cs: &[u8], p: usize, out: &mut Vec<u8>) -> (r: Result<usize, Error>)
    requires
        p <= bytes@.len() <= usize::MAX / 8,
    ensures
        match r {
            Ok(e) => p < e <= bytes@.len() && bytes@[e - 1] == EQ && prepend(old(out)@, q_from(bytes@, cs@, Seq::empty(), p as int))
                == prepend(final(out)@, decode_from(bytes@, e as int)),
            Err(x) => q_from(bytes@, cs@, Seq::empty(), p as int) == Err::<Seq<u8>, Error>(x),
        },
        valid_utf8(old(out)@) ==> valid_utf8(final(out)@),
{
    let ghost s = bytes@;
    let n = bytes.len();
    let mut acc: Vec<u8> = Vec::new();
    let mut k = p;
    while k < n
        invariant
            p <= k <= n == s.len() <= usize::MAX / 8,
            s == bytes@,
            acc@.len() <= k - p,
            out@ == old(out)@,
            q_from(s, cs@, Seq::empty(), p as int) == q_from(s, cs@, acc@, k as int),
        decreases n - k,
    {
        let b = bytes[k];
        if b == UNDERSCORE {
            acc.push(SP);
            k = k + 1;
        } else if b == QM {
            if k + 1 >= n {
                return Err(Error::UnterminatedEncodedWord);
            }
            let c = bytes[k + 1];
            if c == EQ {
                let payload = acc.as_slice();
                match convert_charset(cs, payload) {
                    None => {
                        return Err(Error::UnknownCharset);
                    },
                    Some(t) => {
                        assert(payload@ == acc@);
                        assert(q_from(s, cs@, acc@, k as int) == prepend(encode_utf8(t@), decode_from(s, k + 2)));
                        append_text(out, &t);
                        proof {
                            lemma_prepend_assoc(old(out)@, encode_utf8(t@), decode_from(s, k + 2));
                        }
                        return Ok(k + 2);
                    },
                }
            } else if c == QM {
                acc.push(QM);
                k = k + 1;
            } else {
                acc.push(QM);
                acc.push(c);
                k = k + 2;
            }
        } else if b == EQ {
            if k + 2 >= n {
                return Err(Error::UnterminatedEncodedWord);
            }
            let x = bytes[k + 1];
            let y = bytes[k + 2];
            if is_hex_byte(x) && is_hex_byte(y) {
                let v = hex_to_val(x) * 16 + hex_to_val(y);
                acc.push(v);
                k = k + 3;
            } else {
                return Err(Error::InvalidQuotedPrintableEscape);
            }
        } else {
            acc.push(b);
            k = k + 1;
        }
    }
    Err(Error::UnterminatedEncodedWord)
}

/// Decodes a B payload starting at `p`, up to and including its closing `?=`,
/// and returns the position after it.
fn decode_b(bytes: &[u8], cs: &[u8], p: usize, out: &mut Vec<u8>) -> (r: Result<usize, Error>)
    requires
        p <= bytes@.len() <= usize::MAX / 8,
    ensures
        match r {
            Ok(e) => p < e <= bytes@.len() && bytes@[e - 1] == EQ && prepend(old(out)@, b_from(bytes@, cs@, p as int, p as int))
                == prepend(final(out)@, decode_from(bytes@, e as int)),
            Err(x) => b_from(bytes@, cs@, p as int, p as int) == Err::<Seq<u8>, Error>(x),
        },
        valid_utf8(old(out)@) ==> valid_utf8(final(out)@),
{
    let ghost s = bytes@;
    let n = bytes.len();
    let mut k = p;
    while k < n && bytes[k] != QM
        invariant
            p <= k <= n == s.len(),
            s == bytes@,
            b_from(s, cs@, p as int, p as int) == b_from(s, cs@, p as int, k as int),
        decreases n - k,
    {
        k = k + 1;
    }
    if k >= n {
        return Err(Error::UnterminatedEncodedWord);
    }
    let payload = &bytes[p..k];
    match decode_imap_base64(payload) {
        Err(_) => Err(Error::InvalidBase64),
        Ok(bin) => {
            assert((payload@.len() + 7) / 8 * 6 <= usize::MAX / 8) by (nonlinear_arith)
                requires
                    payload@.len() <= usize::MAX / 8,
            ;
            match convert_charset(cs, bin.as_slice()) {
                None => Err(Error::UnknownCharset),
                Some(t) => {
                    if k + 1 < n && bytes[k + 1] == EQ {
                        append_text(out, &t);
                        proof {
                            lemma_prepend_assoc(old(out)@, encode_utf8(t@), decode_from(s, k + 2));
                        }
                        Ok(k + 2)
                    } else {
                        Err(Error::UnterminatedEncodedWord)
                    }
                },
            }
        },
    }
}

/// Decodes an encoded word whose charset starts at `j`, just after its `=?`,
/// and returns the position after its closing `?=`.
fn decode_word(bytes: &[u8], j: usize, out: &mut Vec<u8>) -> (r: Result<usize, Error>)
    requires
        j < bytes@.len() <= usize::MAX / 8,
    ensures
        match r {
            Ok(e) => j < e <= bytes@.len() && bytes@[e - 1] == EQ && prepend(old(out)@, charset_from(bytes@, j as int, j + 1))
                == prepend(final(out)@, decode_from(bytes@, e as int)),
            Err(x) => charset_from(bytes@, j as int, j + 1) == Err::<Seq<u8>, Error>(x),
        },
        valid_utf8(old(out)@) ==> valid_utf8(final(out)@),
{
    let ghost s = bytes@;
    let n = bytes.len();
    let mut k = j + 1;
    while k < n && bytes[k] != QM
        invariant
            j < k <= n == s.len(),
            s == bytes@,
            charset_from(s, j as int, j + 1) == charset_from(s, j as int, k as int),
        decreases n - k,
    {
        k = k + 1;
    }
    if k >= n {
        return Err(Error::UnterminatedEncodedWord);
    }
    let cs = &bytes[j..k];
    assert(charset_from(s, j as int, k as int) == encoding_at(s, cs@, k + 1));
    let k = k + 1;
    if k >= n {
        return Err(Error::UnterminatedEncodedWord);
    }
    let letter = bytes[k];
    let is_q = letter == 0x51 || letter == 0x71;
    if !is_q && letter != 0x42 && letter != 0x62 {
        return Err(Error::UnsupportedEncoding);
    }
    if k + 1 >= n {
        return Err(Error::UnterminatedEncodedWord);
    }
    if bytes[k + 1] != QM {
        return Err(Error::UnsupportedEncoding);
    }
    if is_q {
        decode_q(bytes, cs, k + 2, out)
    } else {
        decode_b(bytes, cs, k + 2, out)
    }
}

} // verus!

verus! {

/// Text with no `=` and no fold from `i` on needs no rewriting.
pub proof fn lemma_plain_text_untouched(s: Seq<u8>, i: int)
    requires
        0 <= i,
        forall|j: int| i <= j < s.len() ==> s[j] != EQ && !opens_fold(s, j),
    ensures
        !rewrites(s, i),
    decreases s.len() - i,
{
    if i < s.len() {
        lemma_plain_text_untouched(s, i + 1);
    }
}

/// Bytes that are all ASCII are UTF-8.
pub proof fn lemma_ascii_is_utf8(s: Seq<u8>)
    requires
        forall|j: int| 0 <= j < s.len() ==> s[j] < 0x80,
    ensures
        valid_utf8(s),
{
    assert(s.subrange(0, 0) =~= Seq::<u8>::empty());
    assert(partial_valid_utf8(s, 0));
    partial_valid_utf8_extend_ascii_block(s, 0, s.len() as int);
    assert(s.subrange(0, s.len() as int) =~= s);
}

/// Decodes one raw header value: each fold (CR LF and a run of spaces and
/// tabs) becomes one space, and each encoded word `=?charset?Q|B?payload?=`
/// becomes its text. Where nothing is rewritten the result borrows the input.
/// The length bound leaves room for the buffers that the charset and Base64
/// converters size from their input.
pub fn decode(bytes: &[u8]) -> (r: Result<DecodedValue<'_>, Error>)
    requires
        bytes@.len() <= usize::MAX / 8,
    ensures
        decode_result(r, bytes@),
        valid_utf8(bytes@) && !rewrites(bytes@, 0) ==> r is Ok,
        valid_utf8(bytes@) && (forall|j: int| 0 <= j < bytes@.len() ==> bytes@[j] != EQ && !opens_fold(bytes@, j))
            ==> borrows_input(r, bytes@),
        (forall|j: int| 0 <= j < bytes@.len() ==> bytes@[j] < 0x80 && bytes@[j] != EQ && !opens_fold(bytes@, j))
            ==> borrows_input(r, bytes@),
{
    let ghost s = bytes@;
    proof {
        if forall|j: int| 0 <= j < s.len() ==> s[j] != EQ && !opens_fold(s, j) {
            lemma_plain_text_untouched(s, 0);
        }
        if forall|j: int| 0 <= j < s.len() ==> s[j] < 0x80 && s[j] != EQ && !opens_fold(s, j) {
            lemma_ascii_is_utf8(s);
            lemma_plain_text_untouched(s, 0);
        }
    }
    let text = match core::str::from_utf8(bytes) {
        Ok(t) => t,
        Err(_) => {
            return Err(Error::InvalidUtf8Input);
        },
    };
    let n = bytes.len();
    let mut out: Vec<u8> = Vec::new();
    proof {
        is_char_boundary_start_end_of_seq(s);
        lemma_ascii_is_utf8(seq![SP]);
    }
    // Start of the plain run not yet copied to `out`.
    let mut start: usize = 0;
    let mut i: usize = 0;
    while i < n
        invariant
            start <= i <= n == s.len() <= usize::MAX / 8,
            s == bytes@,
            valid_utf8(s),
            encode_utf8(text@) == s,
            decode_from(s, 0) == prepend(out@ + s.subrange(start as int, i as int), decode_from(s, i as int)),
            start == 0 ==> out@.len() == 0 && rewrites(s, 0) == rewrites(s, i as int),
            start > 0 ==> rewrites(s, 0),
            valid_utf8(out@),
            is_char_boundary(s, start as int),
        decreases n - i,
    {
        let b = bytes[i];
        if b == CR && i + 2 < n && bytes[i + 1] == LF && (bytes[i + 2] == SP || bytes[i + 2] == TAB) {
            assert(decode_from(s, i as int) == fold_from(s, i + 2));
            proof {
                is_char_boundary_iff_not_is_continuation_byte(s, i as int);
                lemma_valid_between(s, start as int, i as int);
                valid_utf8_concat(out@, s.subrange(start as int, i as int));
            }
            append_range(&mut out, bytes, start, i);
            let mut k = i + 2;
            while k < n && (bytes[k] == SP || bytes[k] == TAB)
                invariant
                    i + 2 <= k <= n == s.len(),
                    s == bytes@,
                    s[k - 1] < 0x80,
                    fold_from(s, i + 2) == fold_from(s, k as int),
                decreases n - k,
            {
                k = k + 1;
            }
            if k >= n {
                return Err(Error::MalformedFold);
            }
            let ghost before = out@;
            out.push(SP);
            proof {
                lemma_ascii_is_utf8(seq![SP]);
                valid_utf8_concat(before, seq![SP]);
                assert(before.push(SP) =~= before + seq![SP]);
                lemma_boundary_after_ascii(s, k as int);
                assert(fold_from(s, k as int) == prepend(seq![SP], decode_from(s, k as int)));
                lemma_prepend_assoc(before, seq![SP], decode_from(s, k as int));
                assert(before.push(SP) + s.subrange(k as int, k as int) =~= before + seq![SP]);
            }
            start = k;
            i = k;
        } else if b == EQ && i + 1 < n && bytes[i + 1] == QM {
            assert(decode_from(s, i as int) == after_eq(s, i + 1));
            if i + 2 >= n {
                return Err(Error::UnterminatedEncodedWord);
            }
            assert(after_eq(s, i + 1) == charset_from(s, i + 2, i + 3));
            proof {
                is_char_boundary_iff_not_is_continuation_byte(s, i as int);
                lemma_valid_between(s, start as int, i as int);
                valid_utf8_concat(out@, s.subrange(start as int, i as int));
            }
            append_range(&mut out, bytes, start, i);
            match decode_word(bytes, i + 2, &mut out) {
                Err(x) => {
                    return Err(x);
                },
                Ok(e) => {
                    assert(out@ + s.subrange(e as int, e as int) =~= out@);
                    proof {
                        lemma_boundary_after_ascii(s, e as int);
                    }
                    start = e;
                    i = e;
                },
            }
        } else {
            proof {
                if b == EQ {
                    assert(decode_from(s, i as int) == after_eq(s, i + 1));
                    if i + 1 >= n {
                        assert(seq![EQ] + Seq::<u8>::empty() =~= seq![EQ]);
                    }
                    assert(after_eq(s, i + 1) == prepend(seq![EQ], decode_from(s, i + 1)));
                }
                assert(decode_from(s, i as int) == prepend(seq![b], decode_from(s, i + 1)));
                let p = out@ + s.subrange(start as int, i as int);
                lemma_prepend_assoc(p, seq![b], decode_from(s, i + 1));
                assert(p + seq![b] =~= out@ + s.subrange(start as int, i + 1));
            }
            i = i + 1;
        }
    }
    assert(out@ + s.subrange(start as int, n as int) + Seq::<u8>::empty() =~= out@ + s.subrange(start as int, n as int));
    if start == 0 {
        assert(s.subrange(0, n as int) =~= s);
        proof {
            encode_utf8_decode_utf8(text@);
        }
        return Ok(DecodedValue::Borrowed(text));
    }
    proof {
        lemma_valid_between(s, start as int, n as int);
        valid_utf8_concat(out@, s.subrange(start as int, n as int));
    }
    append_range(&mut out, bytes, start, n);
    match String::from_utf8(out) {
        Ok(t) => {
            proof {
                encode_utf8_decode_utf8(t@);
            }
            Ok(DecodedValue::Owned(t))
        },
        Err(_) => Err(Error::InvalidUtf8Input),
    }
}

} // verus!

verus! {

/// In UTF-8, a position just after an ASCII byte is a character boundary.
proof fn lemma_boundary_after_ascii(s: Seq<u8>, k: int)
    requires
        valid_utf8(s),
        0 < k <= s.len(),
        s[k - 1] < 0x80,
    ensures
        is_char_boundary(s, k),
{
    is_char_boundary_start_end_of_seq(s);
    if k < s.len() {
        is_char_boundary_iff_not_is_continuation_byte(s, k - 1);
        let t = s.subrange(k - 1, s.len() as int);
        valid_utf8_split(s, k - 1);
        reveal_with_fuel(is_char_boundary, 2);
        assert(length_of_first_scalar(t) == 1);
        assert(is_char_boundary(pop_first_scalar(t), 0));
        assert(is_char_boundary(t, 1));
        is_char_boundary_iff_not_is_continuation_byte(t, 1);
        assert(t[1] == s[k]);
        is_char_boundary_iff_not_is_continuation_byte(s, k);
    }
}

/// The bytes between two character boundaries of UTF-8 are UTF-8.
proof fn lemma_valid_between(s: Seq<u8>, a: int, b: int)
    requires
        valid_utf8(s),
        0 <= a <= b <= s.len(),
        is_char_boundary(s, a),
        is_char_boundary(s, b),
    ensures
        valid_utf8(s.subrange(a, b)),
{
    valid_utf8_split(s, a);
    let t = s.subrange(a, s.len() as int);
    if b < s.len() {
        is_char_boundary_iff_not_is_continuation_byte(s, b);
        is_char_boundary_iff_not_is_continuation_byte(t, b - a);
        assert(t[b - a] == s[b]);
        valid_utf8_split(t, b - a);
        assert(t.subrange(0, b - a) =~= s.subrange(a, b));
    } else {
        assert(t =~= s.subrange(a, b));
    }
}

} // verus!
