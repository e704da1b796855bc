//! The header tokenizer and the read-only header map over its result.
use vstd::prelude::*;
use vstd::utf8::*;

use crate::decoder::{decode, decode_result, is_fold_ws, DecodedValue, Error, CR, LF, SP, TAB};
use crate::span_map::{
    key_index, lemma_key_index_bounds, map_entries, map_get, map_get_index, map_insert, map_is_empty, map_len, map_new,
    Span, SpanMap,
};

verus! {

pub const COLON: u8 = 0x3a;

/// A header line as found: its lowercased name and the span of its raw value.
pub type Line = (Seq<char>, Span);

/// A character in ASCII lower case; other characters stay as they are.
pub open spec fn ascii_lower_char(c: char) -> char {
    if 'A' <= c <= 'Z' {
        ((c as u32) + 32) as char
    } else {
        c
    }
}

pub open spec fn ascii_lower(s: Seq<char>) -> Seq<char> {
    Seq::new(s.len(), |i: int| ascii_lower_char(s[i]))
}

/// `str::to_ascii_lowercase`: ASCII letters 'A' to 'Z' become 'a' to 'z', every
/// other character stays.
pub assume_specification[ str::to_ascii_lowercase ](s: &str) -> (r: String)
    ensures
        r@ == ascii_lower(s@),
;

/// Puts a line in front of a successful result.
pub open spec fn prepend_line(l: Line, r: Result<(Seq<Line>, int), Error>) -> Result<(Seq<Line>, int), Error> {
    match r {
        Ok((ls, body)) => Ok((seq![l] + ls, body)),
        Err(e) => Err(e),
    }
}

/// The span of a value that starts at `v` and whose line break ends at `k - 1`:
/// up to the CR LF, without it.
pub open spec fn value_span(v: int, k: int) -> Span {
    (v as usize, (k - 2) as usize)
}

/// A header name runs from `i` to the first `:`; the scan stands at `k`.
/// The result is the lines from `i` on and the offset of the body.
pub open spec fn key_from(s: Seq<u8>, i: int, k: int) -> Result<(Seq<Line>, int), Error>
    decreases s.len() - k, 0int,
{
    if i < 0 || k < i || k >= s.len() {
        Err(Error::MalformedHeaderBlock)
    } else if s[k] == COLON {
        if valid_utf8(s.subrange(i, k)) {
            colon_from(s, ascii_lower(decode_utf8(s.subrange(i, k))), k + 1)
        } else {
            Err(Error::InvalidUtf8Input)
        }
    } else if s[k] == LF {
        Err(Error::MalformedHeaderBlock)
    } else {
        key_from(s, i, k + 1)
    }
}

/// After the colon: spaces and tabs are skipped; the next byte starts the value.
pub open spec fn colon_from(s: Seq<u8>, key: Seq<char>, k: int) -> Result<(Seq<Line>, int), Error>
    decreases s.len() - k, 0int,
{
    if k < 0 || k >= s.len() {
        Err(Error::MalformedHeaderBlock)
    } else if is_fold_ws(s[k]) {
        colon_from(s, key, k + 1)
    } else {
        value_from(s, key, k, k + 1)
    }
}

/// Inside a value that starts at `v`, up to the next line feed.
pub open spec fn value_from(s: Seq<u8>, key: Seq<char>, v: int, k: int) -> Result<(Seq<Line>, int), Error>
    decreases s.len() - k, 0int,
{
    if k < 0 || k >= s.len() {
        Err(Error::MalformedHeaderBlock)
    } else if s[k] == LF {
        lf_at(s, key, v, k + 1)
    } else {
        value_from(s, key, v, k + 1)
    }
}

/// Just after a line feed: a CR LF ends the block, a space or tab folds the
/// value onto this line, anything else starts the next header.
pub open spec fn lf_at(s: Seq<u8>, key: Seq<char>, v: int, k: int) -> Result<(Seq<Line>, int), Error>
    decreases s.len() - k, 1int,
{
    if k < 0 || k >= s.len() {
        Err(Error::MalformedHeaderBlock)
    } else if s[k] == CR {
        if k + 1 < s.len() && s[k + 1] == LF {
            Ok((seq![(key, value_span(v, k))], k + 2))
        } else {
            Err(Error::MalformedHeaderBlock)
        }
    } else if is_fold_ws(s[k]) {
        value_from(s, key, v, k + 1)
    } else {
        prepend_line((key, value_span(v, k)), key_from(s, k, k))
    }
}

/// The header lines of a message and the offset of its body.
pub open spec fn tokenize(s: Seq<u8>) -> Result<(Seq<Line>, int), Error> {
    key_from(s, 0, 0)
}

/// The entries after one more line: a known name takes the span last in its
/// list; a new name is added last with that one span.
pub open spec fn add_line(e: Seq<(Seq<char>, Seq<Span>)>, l: Line) -> Seq<(Seq<char>, Seq<Span>)> {
    let i = key_index(e, l.0);
    if i < e.len() {
        e.update(i, (l.0, e[i].1.push(l.1)))
    } else {
        e.push((l.0, seq![l.1]))
    }
}

/// The lines grouped by name, names in order of first appearance.
pub open spec fn group(lines: Seq<Line>) -> Seq<(Seq<char>, Seq<Span>)>
    decreases lines.len(),
{
    if lines.len() == 0 {
        Seq::empty()
    } else {
        add_line(group(lines.drop_last()), lines.last())
    }
}

/// The spans stored under `k`, or none.
pub open spec fn values_of(e: Seq<(Seq<char>, Seq<Span>)>, k: Seq<char>) -> Seq<Span> {
    if key_index(e, k) < e.len() {
        e[key_index(e, k)].1
    } else {
        Seq::empty()
    }
}

pub open spec fn span_bytes(s: Seq<u8>, sp: Span) -> Seq<u8> {
    s.subrange(sp.0 as int, sp.1 as int)
}

pub open spec fn spans_within(e: Seq<(Seq<char>, Seq<Span>)>, n: int) -> bool {
    forall|i: int, j: int|
        0 <= i < e.len() && 0 <= j < e[i].1.len() ==> #[trigger] e[i].1[j].0 <= e[i].1[j].1 <= n
}

/// The headers of a message: each lowercased name with the raw spans of its
/// values, names in order of first appearance.
pub struct Headers<'a> {
    bytes: &'a [u8],
    map: SpanMap,
    body_start: usize,
}

impl<'a> Headers<'a> {
    #[verifier::type_invariant]
    spec fn well_formed(self) -> bool {
        &&& self.bytes@.len() <= usize::MAX / 8
        &&& self.body_start <= self.bytes@.len()
        &&& spans_within(map_entries(self.map), self.bytes@.len() as int)
    }

    /// The entries: names and the spans of their values.
    pub closed spec fn entries(self) -> Seq<(Seq<char>, Seq<Span>)> {
        map_entries(self.map)
    }

    /// The message bytes that the spans point into.
    pub closed spec fn source(self) -> Seq<u8> {
        self.bytes@
    }

    /// The offset of the body: just after the blank line.
    pub closed spec fn body(self) -> int {
        self.body_start as int
    }
}

} // verus!

verus! {

/// Puts lines in front of a successful result.
pub open spec fn prepend_lines(ls: Seq<Line>, r: Result<(Seq<Line>, int), Error>) -> Result<(Seq<Line>, int), Error> {
    match r {
        Ok((x, body)) => Ok((ls + x, body)),
        Err(e) => Err(e),
    }
}

proof fn lemma_prepend_lines_step(ls: Seq<Line>, l: Line, r: Result<(Seq<Line>, int), Error>)
    ensures
        prepend_lines(ls, prepend_line(l, r)) == prepend_lines(ls.push(l), r),
{
    if let Ok((x, body)) = r {
        assert(ls + (seq![l] + x) =~= ls.push(l) + x);
    }
}

proof fn lemma_add_line_within(e: Seq<(Seq<char>, Seq<Span>)>, l: Line, n: int)
    requires
        spans_within(e, n),
        l.1.0 <= l.1.1 <= n,
    ensures
        spans_within(add_line(e, l), n),
{
    let f = add_line(e, l);
    let k = key_index(e, l.0);
    lemma_key_index_bounds(e, l.0, 0);
    assert forall|i: int, j: int| 0 <= i < f.len() && 0 <= j < f[i].1.len() implies #[trigger] f[i].1[j].0
        <= f[i].1[j].1 <= n by {
        if k < e.len() {
            if i == k {
                if j < e[i].1.len() {
                    assert(f[i].1[j] == e[i].1[j]);
                } else {
                    assert(f[i].1[j] == l.1);
                }
            } else {
                assert(f[i] == e[i]);
                assert(f[i].1[j] == e[i].1[j]);
            }
        } else if i < e.len() {
            assert(f[i] == e[i]);
            assert(f[i].1[j] == e[i].1[j]);
        } else {
            assert(f[i].1[j] == l.1);
        }
    }
}

/// Scans a value that starts at `v` to the end of its (possibly folded) line.
/// Returns the position after the line break and whether a blank line ends
/// the block there.
fn scan_value(bytes: &[u8], Ghost(key): Ghost<Seq<char>>, v: usize) -> (r: Result<(usize, bool), Error>)
    requires
        v < bytes@.len(),
    ensures
        match r {
            Ok((l, last)) => v + 2 <= l < bytes@.len() && if last {
                l + 1 < bytes@.len() && value_from(bytes@, key, v as int, v + 1) == Ok::<(Seq<Line>, int), Error>(
                    (seq![(key, value_span(v as int, l as int))], l + 2),
                )
            } else {
                value_from(bytes@, key, v as int, v + 1) == prepend_line(
                    (key, value_span(v as int, l as int)),
                    key_from(bytes@, l as int, l as int),
                )
            },
            Err(e) => value_from(bytes@, key, v as int, v + 1) == Err::<(Seq<Line>, int), Error>(e),
        },
{
    let ghost s = bytes@;
    let n = bytes.len();
    let mut m = v + 1;
    loop
        invariant
            v + 1 <= m <= n == s.len(),
            s == bytes@,
            value_from(s, key, v as int, v + 1) == value_from(s, key, v as int, m as int),
        decreases n - m,
    {
        let ghost m0 = m;
        while m < n && bytes[m] != LF
            invariant
                m0 <= m,
                v + 1 <= m <= n == s.len(),
                s == bytes@,
                value_from(s, key, v as int, v + 1) == value_from(s, key, v as int, m as int),
            decreases n - m,
        {
            m = m + 1;
        }
        if m >= n {
            return Err(Error::MalformedHeaderBlock);
        }
        let l = m + 1;
        assert(value_from(s, key, v as int, m as int) == lf_at(s, key, v as int, l as int));
        if l >= n {
            return Err(Error::MalformedHeaderBlock);
        }
        let b = bytes[l];
        if b == CR {
            if l + 1 < n && bytes[l + 1] == LF {
                return Ok((l, true));
            }
            return Err(Error::MalformedHeaderBlock);
        } else if b == SP || b == TAB {
            m = l + 1;
        } else {
            return Ok((l, false));
        }
    }
}

/// Adds a span last to the values of `key`, or a new entry where `key` is new.
fn add_value(map: &mut SpanMap, key: String, sp: Span)
    ensures
        map_entries(*final(map)) == add_line(map_entries(*old(map)), (key@, sp)),
{
    let ghost e = map_entries(*map);
    let mut vals: Vec<Span> = Vec::new();
    match map_get(map, key.as_str()) {
        Some(v) => {
            let mut j: usize = 0;
            while j < v.len()
                invariant
                    j <= v@.len(),
                    vals@ == v@.subrange(0, j as int),
                decreases v@.len() - j,
            {
                vals.push(v[j]);
                assert(v@.subrange(0, j + 1) =~= v@.subrange(0, j as int).push(v@[j as int]));
                j = j + 1;
            }
            assert(v@.subrange(0, v@.len() as int) =~= v@);
        },
        None => {},
    }
    vals.push(sp);
    map_insert(map, key, vals);
}

/// Whether `r` is the tokenizer's outcome on `s`.
pub open spec fn tokenized_as(r: Result<Headers, Error>, s: Seq<u8>) -> bool {
    match tokenize(s) {
        Ok((lines, body)) => r is Ok && r->Ok_0.entries() == group(lines) && r->Ok_0.body() == body
            && r->Ok_0.source() == s,
        Err(e) => r is Err && r->Err_0 == e,
    }
}

/// Whether `x` shows the entry `e` of a message `s`: its name and the bytes of
/// each of its values.
pub open spec fn shows_entry(x: (&str, Vec<&[u8]>), e: (Seq<char>, Seq<Span>), s: Seq<u8>) -> bool {
    &&& x.0@ == e.0
    &&& x.1@.len() == e.1.len()
    &&& forall|j: int| 0 <= j < e.1.len() ==> #[trigger] x.1@[j]@ == span_bytes(s, e.1[j])
}

impl<'a> Headers<'a> {
    /// Tokenizes a header block: header lines up to the blank line (CR LF CR
    /// LF), folded lines kept in their value, names lowercased. The length
    /// bound leaves room for the buffers that decoding a value sizes.
    pub fn new(bytes: &'a [u8]) -> (r: Result<Headers<'a>, Error>)
        requires
            bytes@.len() <= usize::MAX / 8,
        ensures
            tokenized_as(r, bytes@),
    {
        let ghost s = bytes@;
        let n = bytes.len();
        let mut map = map_new();
        let ghost mut lines: Seq<Line> = Seq::empty();
        let mut i: usize = 0;
        assert(lines + Seq::<Line>::empty() =~= lines);
        loop
            invariant
                i <= n == s.len() <= usize::MAX / 8,
                s == bytes@,
                tokenize(s) == prepend_lines(lines, key_from(s, i as int, i as int)),
                map_entries(map) == group(lines),
                spans_within(map_entries(map), n as int),
            decreases n - i,
        {
            let mut k = i;
            while k < n && bytes[k] != COLON && bytes[k] != LF
                invariant
                    i <= k <= n == s.len(),
                    s == bytes@,
                    key_from(s, i as int, i as int) == key_from(s, i as int, k as int),
                decreases n - k,
            {
                k = k + 1;
            }
            if k >= n || bytes[k] == LF {
                return Err(Error::MalformedHeaderBlock);
            }
            let name = match core::str::from_utf8(&bytes[i..k]) {
                Ok(t) => t,
                Err(_) => {
                    return Err(Error::InvalidUtf8Input);
                },
            };
            proof {
                encode_utf8_decode_utf8(name@);
            }
            let key = name.to_ascii_lowercase();
            let mut c = k + 1;
            while c < n && (bytes[c] == SP || bytes[c] == TAB)
                invariant
                    k + 1 <= c <= n == s.len(),
                    s == bytes@,
                    key_from(s, i as int, i as int) == colon_from(s, key@, c as int),
                decreases n - c,
            {
                c = c + 1;
            }
            if c >= n {
                return Err(Error::MalformedHeaderBlock);
            }
            assert(colon_from(s, key@, c as int) == value_from(s, key@, c as int, c + 1));
            match scan_value(bytes, Ghost(key@), c) {
                Err(e) => {
                    return Err(e);
                },
                Ok((l, last)) => {
                    let ghost line = (key@, value_span(c as int, l as int));
                    proof {
                        lemma_add_line_within(map_entries(map), line, n as int);
                        lemma_prepend_lines_step(lines, line, key_from(s, l as int, l as int));
                    }
                    add_value(&mut map, key, (c, l - 2));
                    proof {
                        assert(lines.push(line).drop_last() =~= lines);
                        lines = lines.push(line);
                    }
                    if last {
                        assert(lines.drop_last() + seq![line] =~= lines);
                        return Ok(Headers { bytes, map, body_start: l + 2 });
                    }
                    i = l;
                },
            }
        }
    }

    /// The number of distinct header names.
    pub fn len(&self) -> (r: usize)
        ensures
            r == self.entries().len(),
    {
        map_len(&self.map)
    }

    /// Whether there is no header.
    pub fn is_empty(&self) -> (r: bool)
        ensures
            r == (self.entries().len() == 0),
    {
        map_is_empty(&self.map)
    }

    /// The offset of the body in the message: just after the blank line.
    pub fn body_offset(&self) -> (r: usize)
        ensures
            r == self.body(),
    {
        self.body_start
    }

    /// The entries in order: each name with the raw bytes of its values,
    /// undecoded.
    pub fn iter(&self) -> (r: Vec<(&str, Vec<&[u8]>)>)
        ensures
            r@.len() == self.entries().len(),
            forall|i: int| 0 <= i < r@.len() ==> #[trigger] shows_entry(r@[i], self.entries()[i], self.source()),
    {
        proof {
            use_type_invariant(self);
        }
        let n = map_len(&self.map);
        let mut r: Vec<(&str, Vec<&[u8]>)> = Vec::new();
        let mut i: usize = 0;
        while i < n
            invariant
                i <= n == self.entries().len(),
                spans_within(self.entries(), self.bytes@.len() as int),
                r@.len() == i,
                forall|x: int| 0 <= x < i ==> #[trigger] shows_entry(r@[x], self.entries()[x], self.source()),
            decreases n - i,
        {
            let (name, spans) = match map_get_index(&self.map, i) {
                Some(p) => p,
                None => {
                    return r;
                },
            };
            let mut vals: Vec<&[u8]> = Vec::new();
            let mut j: usize = 0;
            while j < spans.len()
                invariant
                    j <= spans@.len(),
                    spans@ == self.entries()[i as int].1,
                    spans_within(self.entries(), self.bytes@.len() as int),
                    i < self.entries().len(),
                    vals@.len() == j,
                    forall|y: int| 0 <= y < j ==> #[trigger] vals@[y]@ == span_bytes(self.source(), spans@[y]),
                decreases spans@.len() - j,
            {
                let sp = spans[j];
                assert(spans@[j as int] == self.entries()[i as int].1[j as int]);
                vals.push(&self.bytes[sp.0..sp.1]);
                j = j + 1;
            }
            r.push((name.as_str(), vals));
            i = i + 1;
        }
        r
    }

    /// Decodes every value stored under `key`, compared in ASCII lower case,
    /// in their order. A name that is absent gives an empty list.
    pub fn get(&self, key: &str) -> (r: Vec<Result<DecodedValue<'a>, Error>>)
        ensures
            r@.len() == values_of(self.entries(), ascii_lower(key@)).len(),
            forall|i: int| 0 <= i < r@.len() ==> #[trigger] decode_result(
                r@[i],
                span_bytes(self.source(), values_of(self.entries(), ascii_lower(key@))[i]),
            ),
            key_index(self.entries(), ascii_lower(key@)) == self.entries().len() ==> r@.len() == 0,
    {
        proof {
            use_type_invariant(self);
        }
        let lower = key.to_ascii_lowercase();
        let mut r: Vec<Result<DecodedValue<'a>, Error>> = Vec::new();
        let spans = match map_get(&self.map, lower.as_str()) {
            Some(v) => v,
            None => {
                return r;
            },
        };
        let ghost e = self.entries();
        let ghost ki = key_index(e, lower@);
        proof {
            lemma_key_index_bounds(e, lower@, 0);
        }
        let mut j: usize = 0;
        while j < spans.len()
            invariant
                j <= spans@.len(),
                0 <= ki < e.len(),
                e == self.entries(),
                spans@ == e[ki].1,
                spans_within(e, self.bytes@.len() as int),
                self.bytes@.len() <= usize::MAX / 8,
                r@.len() == j,
                forall|y: int| 0 <= y < j ==> #[trigger] decode_result(r@[y], span_bytes(self.source(), spans@[y])),
            decreases spans@.len() - j,
        {
            let sp = spans[j];
            assert(spans@[j as int] == e[ki].1[j as int]);
            let d = decode(&self.bytes[sp.0..sp.1]);
            r.push(d);
            j = j + 1;
        }
        r
    }

    /// Decodes the first value stored under `key`, in the order of the
    /// message, if there is one.
    pub fn get_first(&self, key: &str) -> (r: Option<Result<DecodedValue<'a>, Error>>)
        ensures
            values_of(self.entries(), ascii_lower(key@)).len() == 0 ==> r is None,
            values_of(self.entries(), ascii_lower(key@)).len() > 0 ==> (r matches Some(x) && decode_result(x,
                span_bytes(self.source(), values_of(self.entries(), ascii_lower(key@))[0]),
            )),
    {
        proof {
            use_type_invariant(self);
        }
        let lower = key.to_ascii_lowercase();
        let spans = match map_get(&self.map, lower.as_str()) {
            Some(v) => v,
            None => {
                return None;
            },
        };
        if spans.len() == 0 {
            return None;
        }
        proof {
            lemma_key_index_bounds(self.entries(), lower@, 0);
        }
        let sp = spans[0];
        assert(spans@[0] == self.entries()[key_index(self.entries(), lower@)].1[0]);
        Some(decode(&self.bytes[sp.0..sp.1]))
    }
}

} // verus!
