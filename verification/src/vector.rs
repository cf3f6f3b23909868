use vstd::prelude::*;
use crate::calendar::{epoch_minutes, minute_number, weekday_mon0, weekday_number};

verus! {

/// Scale of the quantized features: a feature in `[-1, 1]` maps to
/// `[-QUANT_SCALE, QUANT_SCALE]`, the range of a signed 24-bit number.
pub const QUANT_SCALE: i64 = 8388607;

pub const QUOTE: u8 = 0x22;  // '"'
pub const COLON: u8 = 0x3a;  // ':'
pub const OPEN_BRACKET: u8 = 0x5b;  // '['
pub const CLOSE_BRACKET: u8 = 0x5d;  // ']'
pub const COMMA: u8 = 0x2c;  // ','
pub const LOWER_T: u8 = 0x74;  // 't'
pub const LOWER_N: u8 = 0x6e;  // 'n'

/// A range of byte positions `start..end` of the request body.
#[derive(Clone, Copy, PartialEq, Eq, Debug)]
pub struct Span {
    pub start: usize,
    pub end: usize,
}

/// The reading position ran past the end of the body where a value had to
/// be read.
#[derive(Clone, Copy, PartialEq, Eq, Debug)]
pub enum ParseError {
    OutOfBounds,
}

/// A cursor over a request body of the fixed fraud-score schema.
pub struct Parser<'a> {
    pub buf: &'a [u8],
    pub pos: usize,
}

/// The fields of a fraud-score request, as positions in the body. Numbers
/// are left as the span of their text.
#[derive(Clone, Copy, PartialEq, Eq, Debug)]
pub struct Parsed {
    pub amount: Span,
    pub installments: u32,
    pub requested_at: Span,
    pub avg_amount: Span,
    pub tx_count_24h: u32,
    pub known_lo: usize,
    pub known_hi: usize,
    pub merchant_id: Span,
    pub mcc: Span,
    pub merchant_avg: Span,
    pub is_online: bool,
    pub card_present: bool,
    pub km_from_home: Span,
    pub last_tx: Option<(Span, Span)>,
}

/// The span lies within a body of `len` bytes.
pub open spec fn span_within(s: Span, len: int) -> bool {
    s.start <= s.end <= len
}

/// Every span of the fields lies within a body of `len` bytes.
pub open spec fn spans_within(f: Parsed, len: int) -> bool {
    &&& span_within(f.amount, len)
    &&& span_within(f.requested_at, len)
    &&& span_within(f.avg_amount, len)
    &&& span_within(f.merchant_id, len)
    &&& span_within(f.mcc, len)
    &&& span_within(f.merchant_avg, len)
    &&& span_within(f.km_from_home, len)
    &&& f.known_lo <= f.known_hi
    &&& (f.last_tx matches Some((ts, km)) ==> span_within(ts, len) && span_within(km, len))
}

/// The first position at or after `p` that holds `b`, the end of the body if
/// there is none, and `p` itself if it is already past the end.
pub open spec fn find_byte(buf: Seq<u8>, p: int, b: u8) -> int
    decreases buf.len() - p,
{
    if p < 0 || p >= buf.len() {
        p
    } else if buf[p] == b {
        p
    } else {
        find_byte(buf, p + 1, b)
    }
}

/// Bytes that may occur in the text of a number.
pub open spec fn is_number_byte(c: u8) -> bool {
    (0x30 <= c <= 0x39) || c == 0x2e || c == 0x2d || c == 0x2b || c == 0x65 || c == 0x45
}

pub open spec fn is_digit(c: u8) -> bool {
    0x30 <= c <= 0x39
}

pub open spec fn is_lower(c: u8) -> bool {
    0x61 <= c <= 0x7a
}

/// The first position at or after `p` that does not hold a number byte.
pub open spec fn scan_number(buf: Seq<u8>, p: int) -> int
    decreases buf.len() - p,
{
    if p < 0 || p >= buf.len() || !is_number_byte(buf[p]) {
        p
    } else {
        scan_number(buf, p + 1)
    }
}

/// The first position at or after `p` that does not hold a decimal digit.
pub open spec fn scan_digits(buf: Seq<u8>, p: int) -> int
    decreases buf.len() - p,
{
    if p < 0 || p >= buf.len() || !is_digit(buf[p]) {
        p
    } else {
        scan_digits(buf, p + 1)
    }
}

/// The first position at or after `p` that does not hold a lower-case letter.
pub open spec fn scan_lower(buf: Seq<u8>, p: int) -> int
    decreases buf.len() - p,
{
    if p < 0 || p >= buf.len() || !is_lower(buf[p]) {
        p
    } else {
        scan_lower(buf, p + 1)
    }
}

/// The decimal value of the digits at positions `start..end`.
pub open spec fn decimal_between(buf: Seq<u8>, start: int, end: int) -> nat
    decreases end - start,
{
    if end <= start {
        0
    } else {
        decimal_between(buf, start, end - 1) * 10 + (buf[end - 1] - 0x30) as nat
    }
}

/// Position just after the next colon.
pub open spec fn after_colon_pos(buf: Seq<u8>, p: int) -> int {
    find_byte(buf, p, COLON) + 1
}

/// Position just after the quoted string whose opening quote is at `p`.
pub open spec fn skip_string_pos(buf: Seq<u8>, p: int) -> int {
    find_byte(buf, p + 1, QUOTE) + 1
}

/// Position just after the next quoted string.
pub open spec fn skip_quoted_pos(buf: Seq<u8>, p: int) -> int {
    skip_string_pos(buf, find_byte(buf, p, QUOTE))
}

/// Where the contents of the next quoted string start.
pub open spec fn string_start(buf: Seq<u8>, p: int) -> int {
    find_byte(buf, p, QUOTE) + 1
}

/// Where the contents of the next quoted string end.
pub open spec fn string_end(buf: Seq<u8>, p: int) -> int {
    find_byte(buf, string_start(buf, p), QUOTE)
}

pub open spec fn string_span(buf: Seq<u8>, p: int) -> Span {
    Span { start: string_start(buf, p) as usize, end: string_end(buf, p) as usize }
}

/// Where the number after the next colon starts and ends.
pub open spec fn number_span(buf: Seq<u8>, p: int) -> Span {
    let start = after_colon_pos(buf, p);
    Span { start: start as usize, end: scan_number(buf, start) as usize }
}

pub open spec fn u32_value(buf: Seq<u8>, p: int) -> u32 {
    let start = after_colon_pos(buf, p);
    (decimal_between(buf, start, scan_digits(buf, start)) % 0x1_0000_0000) as u32
}

pub open spec fn u32_end(buf: Seq<u8>, p: int) -> int {
    scan_digits(buf, after_colon_pos(buf, p))
}

pub open spec fn bool_end(buf: Seq<u8>, p: int) -> int {
    scan_lower(buf, after_colon_pos(buf, p))
}

/// The number after the next colon and the position after it, or `None` when
/// the number would start past the end of the body.
pub open spec fn number_step(buf: Seq<u8>, p: int) -> Option<(Span, int)> {
    if after_colon_pos(buf, p) <= buf.len() {
        Some((number_span(buf, p), number_span(buf, p).end as int))
    } else {
        None
    }
}

/// The quoted string after the next colon and the position after it, or
/// `None` when the string would start past the end of the body.
pub open spec fn string_step(buf: Seq<u8>, p: int) -> Option<(Span, int)> {
    let c = after_colon_pos(buf, p);
    if string_start(buf, c) <= buf.len() {
        Some((string_span(buf, c), string_end(buf, c) + 1))
    } else {
        None
    }
}

/// The boolean after the next colon and the position after it, or `None`
/// when the colon is the last byte or missing.
pub open spec fn bool_step(buf: Seq<u8>, p: int) -> Option<(bool, int)> {
    let c = after_colon_pos(buf, p);
    if c < buf.len() {
        Some((buf[c] == LOWER_T, scan_lower(buf, c)))
    } else {
        None
    }
}

/// The request fields read from the body starting at `p0`, in the fixed key
/// order of the schema (`id`, `transaction{amount, installments,
/// requested_at}`, `customer{avg_amount, tx_count_24h, known_merchants}`,
/// `merchant{id, mcc, avg_amount}`, `terminal{is_online, card_present,
/// km_from_home}`, `last_transaction`), skipping each key as a quoted string.
/// `None` when a value would have to be read past the end of the body.
pub open spec fn parse_spec(buf: Seq<u8>, p0: int) -> Option<Parsed> {
    let p = skip_quoted_pos(buf, skip_quoted_pos(buf, skip_quoted_pos(buf, skip_quoted_pos(buf, p0))));
    match number_step(buf, p) {
        None => None,
        Some((amount, p)) => {
            let p = skip_quoted_pos(buf, p);
            let installments = u32_value(buf, p);
            let p = skip_quoted_pos(buf, u32_end(buf, p));
            match string_step(buf, p) {
                None => None,
                Some((requested_at, p)) => {
                    let p = skip_quoted_pos(buf, skip_quoted_pos(buf, p));
                    match number_step(buf, p) {
                        None => None,
                        Some((avg_amount, p)) => {
                            let p = skip_quoted_pos(buf, p);
                            let tx_count_24h = u32_value(buf, p);
                            let p = skip_quoted_pos(buf, u32_end(buf, p));
                            let known_lo = find_byte(buf, p, OPEN_BRACKET) + 1;
                            let known_hi = find_byte(buf, known_lo, CLOSE_BRACKET);
                            let p = skip_quoted_pos(buf, skip_quoted_pos(buf, known_hi + 1));
                            match string_step(buf, p) {
                                None => None,
                                Some((merchant_id, p)) => {
                                    let p = skip_quoted_pos(buf, p);
                                    match string_step(buf, p) {
                                        None => None,
                                        Some((mcc, p)) => {
                                            let p = skip_quoted_pos(buf, p);
                                            match number_step(buf, p) {
                                                None => None,
                                                Some((merchant_avg, p)) => {
                                                    let p = skip_quoted_pos(buf, skip_quoted_pos(buf, p));
                                                    match bool_step(buf, p) {
                                                        None => None,
                                                        Some((is_online, p)) => {
                                                            let p = skip_quoted_pos(buf, p);
                                                            match bool_step(buf, p) {
                                                                None => None,
                                                                Some((card_present, p)) => {
                                                                    let p = skip_quoted_pos(buf, p);
                                                                    match number_step(buf, p) {
                                                                        None => None,
                                                                        Some((km_from_home, p)) => {
                                                                            let fields = Parsed {
                                                                                amount,
                                                                                installments,
                                                                                requested_at,
                                                                                avg_amount,
                                                                                tx_count_24h,
                                                                                known_lo: known_lo as usize,
                                                                                known_hi: known_hi as usize,
                                                                                merchant_id,
                                                                                mcc,
                                                                                merchant_avg,
                                                                                is_online,
                                                                                card_present,
                                                                                km_from_home,
                                                                                last_tx: None,
                                                                            };
                                                                            let p = after_colon_pos(buf, skip_quoted_pos(buf, p));
                                                                            if p < buf.len() && buf[p] == LOWER_N {
                                                                                Some(fields)
                                                                            } else {
                                                                                let p = skip_quoted_pos(buf, p);
                                                                                match string_step(buf, p) {
                                                                                    None => None,
                                                                                    Some((ts, p)) => {
                                                                                        let p = skip_quoted_pos(buf, p);
                                                                                        match number_step(buf, p) {
                                                                                            None => None,
                                                                                            Some((km, p)) => Some(Parsed { last_tx: Some((ts, km)), ..fields }),
                                                                                        }
                                                                                    }
                                                                                }
                                                                            }
                                                                        }
                                                                    }
                                                                }
                                                            }
                                                        }
                                                    }
                                                }
                                            }
                                        }
                                    }
                                }
                            }
                        }
                    }
                }
            }
        }
    }
}

proof fn lemma_find_bounds(buf: Seq<u8>, p: int, b: u8)
    requires
        0 <= p,
    ensures
        p <= find_byte(buf, p, b),
        find_byte(buf, p, b) <= if p <= buf.len() { buf.len() as int } else { p },
        find_byte(buf, p, b) < buf.len() ==> buf[find_byte(buf, p, b)] == b,
    decreases buf.len() - p,
{
    if p < buf.len() && buf[p] != b {
        lemma_find_bounds(buf, p + 1, b);
    }
}

proof fn lemma_scan_number_bounds(buf: Seq<u8>, p: int)
    requires
        0 <= p,
    ensures
        p <= scan_number(buf, p) <= if p <= buf.len() { buf.len() as int } else { p },
    decreases buf.len() - p,
{
    if p < buf.len() && is_number_byte(buf[p]) {
        lemma_scan_number_bounds(buf, p + 1);
    }
}

proof fn lemma_scan_digits_bounds(buf: Seq<u8>, p: int)
    requires
        0 <= p,
    ensures
        p <= scan_digits(buf, p) <= if p <= buf.len() { buf.len() as int } else { p },
    decreases buf.len() - p,
{
    if p < buf.len() && is_digit(buf[p]) {
        lemma_scan_digits_bounds(buf, p + 1);
    }
}

proof fn lemma_scan_lower_bounds(buf: Seq<u8>, p: int)
    requires
        0 <= p,
    ensures
        p <= scan_lower(buf, p) <= if p <= buf.len() { buf.len() as int } else { p },
    decreases buf.len() - p,
{
    if p < buf.len() && is_lower(buf[p]) {
        lemma_scan_lower_bounds(buf, p + 1);
    }
}

/// The end of the body, or the position itself if it is already past it.
pub open spec fn max_pos(buf: Seq<u8>, p: int) -> int {
    if p <= buf.len() {
        buf.len() as int
    } else {
        p
    }
}

/// The cursor can move a few bytes on without overflowing a position.
pub open spec fn cursor_ok(buf: Seq<u8>, pos: int) -> bool {
    &&& buf.len() <= isize::MAX
    &&& 0 <= pos < usize::MAX - 2
}

/// The cursor stands at most `slack` bytes past the end of the body.
pub open spec fn cursor_within(buf: Seq<u8>, pos: int, slack: int) -> bool {
    &&& buf.len() <= isize::MAX
    &&& 0 <= pos <= buf.len() + slack
}

impl<'a> Parser<'a> {
    /// A cursor at the start of `buf`.
    pub fn new(buf: &'a [u8]) -> (p: Self)
        ensures
            p.buf@ == buf@,
            p.pos == 0,
    {
        Parser { buf, pos: 0 }
    }

    /// Moves to the next byte `b` (or to the end of the body).
    pub fn skip_to(&mut self, b: u8)
        ensures
            final(self).buf@ == old(self).buf@,
            final(self).pos == find_byte(old(self).buf@, old(self).pos as int, b),
            final(self).pos <= max_pos(old(self).buf@, old(self).pos as int),
    {
        proof {
            lemma_find_bounds(self.buf@, self.pos as int, b);
        }
        let ghost p0 = self.pos as int;
        let len = self.buf.len();
        while self.pos < len && self.buf[self.pos] != b
            invariant
                self.buf@ == old(self).buf@,
                len == self.buf@.len(),
                p0 <= self.pos,
                find_byte(self.buf@, self.pos as int, b) == find_byte(self.buf@, p0, b),
                self.pos <= find_byte(self.buf@, p0, b),
            decreases len - self.pos,
        {
            self.pos += 1;
            proof {
                lemma_find_bounds(self.buf@, self.pos as int, b);
            }
        }
    }

    /// Moves past the quoted string whose opening quote is under the cursor.
    pub fn skip_string(&mut self)
        requires
            cursor_ok(old(self).buf@, old(self).pos as int),
        ensures
            final(self).buf@ == old(self).buf@,
            final(self).pos <= max_pos(old(self).buf@, old(self).pos as int) + 2,
            final(self).pos == skip_string_pos(old(self).buf@, old(self).pos as int),
    {
        self.pos += 1;
        let ghost q = self.pos as int;
        self.skip_to(QUOTE);
        proof {
            lemma_find_bounds(self.buf@, q, QUOTE);
        }
        self.pos += 1;
    }

    /// Moves just past the next colon.
    pub fn after_colon(&mut self)
        requires
            cursor_ok(old(self).buf@, old(self).pos as int),
        ensures
            final(self).buf@ == old(self).buf@,
            final(self).pos <= max_pos(old(self).buf@, old(self).pos as int) + 1,
            final(self).pos == after_colon_pos(old(self).buf@, old(self).pos as int),
    {
        self.skip_to(COLON);
        proof {
            lemma_find_bounds(self.buf@, old(self).pos as int, COLON);
        }
        self.pos += 1;
    }

    /// Moves past the next quoted string.
    pub fn skip_quoted(&mut self)
        requires
            cursor_ok(old(self).buf@, old(self).pos as int),
        ensures
            final(self).buf@ == old(self).buf@,
            final(self).pos <= max_pos(old(self).buf@, old(self).pos as int) + 2,
            final(self).pos == skip_quoted_pos(old(self).buf@, old(self).pos as int),
    {
        self.skip_to(QUOTE);
        proof {
            lemma_find_bounds(self.buf@, old(self).pos as int, QUOTE);
        }
        self.skip_string();
    }

    /// Reads the next quoted string, giving the span of its contents. Fails
    /// when the string would start past the end of the body.
    fn try_parse_string(&mut self) -> (r: std::result::Result<Span, ParseError>)
        requires
            cursor_within(old(self).buf@, old(self).pos as int, 0x2000),
        ensures
            final(self).buf@ == old(self).buf@,
            r matches Ok(sp) ==> span_within(sp, old(self).buf@.len() as int),
            r is Ok ==> final(self).pos <= old(self).buf@.len() + 1,
            string_start(old(self).buf@, old(self).pos as int) <= old(self).buf@.len() ==> (r
                == Ok::<Span, ParseError>(string_span(old(self).buf@, old(self).pos as int))
                && final(self).pos == string_end(old(self).buf@, old(self).pos as int) + 1),
            string_start(old(self).buf@, old(self).pos as int) > old(self).buf@.len() ==> r
                == Err::<Span, ParseError>(ParseError::OutOfBounds),
    {
        self.skip_to(QUOTE);
        proof {
            lemma_find_bounds(self.buf@, old(self).pos as int, QUOTE);
        }
        self.pos += 1;
        let start = self.pos;
        if start > self.buf.len() {
            return Err(ParseError::OutOfBounds);
        }
        self.skip_to(QUOTE);
        proof {
            lemma_find_bounds(self.buf@, start as int, QUOTE);
        }
        let end = self.pos;
        self.pos += 1;
        Ok(Span { start, end })
    }

    /// Reads the number after the next colon, giving the span of its text.
    /// Fails when the number would start past the end of the body.
    fn try_parse_number(&mut self) -> (r: std::result::Result<Span, ParseError>)
        requires
            cursor_within(old(self).buf@, old(self).pos as int, 0x2000),
        ensures
            final(self).buf@ == old(self).buf@,
            r matches Ok(sp) ==> span_within(sp, old(self).buf@.len() as int),
            r is Ok ==> final(self).pos <= old(self).buf@.len() + 1,
            after_colon_pos(old(self).buf@, old(self).pos as int) <= old(self).buf@.len() ==> (r
                == Ok::<Span, ParseError>(number_span(old(self).buf@, old(self).pos as int))
                && final(self).pos == number_span(old(self).buf@, old(self).pos as int).end),
            after_colon_pos(old(self).buf@, old(self).pos as int) > old(self).buf@.len() ==> r
                == Err::<Span, ParseError>(ParseError::OutOfBounds),
    {
        self.after_colon();
        let start = self.pos;
        let len = self.buf.len();
        if start > len {
            return Err(ParseError::OutOfBounds);
        }
        proof {
            lemma_scan_number_bounds(self.buf@, start as int);
        }
        while self.pos < len && is_number_char(self.buf[self.pos])
            invariant
                self.buf@ == old(self).buf@,
                len == self.buf@.len(),
                start <= self.pos <= len,
                scan_number(self.buf@, self.pos as int) == scan_number(self.buf@, start as int),
            decreases len - self.pos,
        {
            self.pos += 1;
        }
        Ok(Span { start, end: self.pos })
    }

    /// Reads the unsigned decimal number after the next colon. Digits beyond
    /// the range of `u32` wrap around.
    pub fn parse_u32(&mut self) -> (v: u32)
        requires
            cursor_ok(old(self).buf@, old(self).pos as int),
        ensures
            final(self).buf@ == old(self).buf@,
            final(self).pos <= max_pos(old(self).buf@, old(self).pos as int) + 1,
            v == u32_value(old(self).buf@, old(self).pos as int),
            final(self).pos == u32_end(old(self).buf@, old(self).pos as int),
    {
        self.after_colon();
        let start = self.pos;
        let len = self.buf.len();
        let mut v: u32 = 0;
        proof {
            lemma_scan_digits_bounds(self.buf@, start as int);
        }
        while self.pos < len && is_digit_char(self.buf[self.pos])
            invariant
                self.buf@ == old(self).buf@,
                len == self.buf@.len(),
                start <= self.pos,
                start <= len ==> self.pos <= len,
                start > len ==> self.pos == start,
                scan_digits(self.buf@, self.pos as int) == scan_digits(self.buf@, start as int),
                v == decimal_between(self.buf@, start as int, self.pos as int) % 0x1_0000_0000,
            decreases len - self.pos,
        {
            let d = (self.buf[self.pos] - 0x30) as u32;
            proof {
                lemma_decimal_step(
                    decimal_between(self.buf@, start as int, self.pos as int),
                    d as int,
                );
            }
            v = v.wrapping_mul(10).wrapping_add(d);
            self.pos += 1;
        }
        v
    }

    /// Reads the boolean after the next colon: true when it starts with `t`.
    /// Fails when there is no byte after the colon.
    fn try_parse_bool(&mut self) -> (r: std::result::Result<bool, ParseError>)
        requires
            cursor_within(old(self).buf@, old(self).pos as int, 0x2000),
        ensures
            final(self).buf@ == old(self).buf@,
            r is Ok ==> final(self).pos <= old(self).buf@.len() + 1,
            after_colon_pos(old(self).buf@, old(self).pos as int) < old(self).buf@.len() ==> (r
                == Ok::<bool, ParseError>(
                old(self).buf@[after_colon_pos(old(self).buf@, old(self).pos as int)] == LOWER_T,
            ) && final(self).pos == bool_end(old(self).buf@, old(self).pos as int)),
            after_colon_pos(old(self).buf@, old(self).pos as int) >= old(self).buf@.len() ==> r
                == Err::<bool, ParseError>(ParseError::OutOfBounds),
    {
        self.after_colon();
        let len = self.buf.len();
        if self.pos >= len {
            return Err(ParseError::OutOfBounds);
        }
        let r = self.buf[self.pos] == LOWER_T;
        let ghost start = self.pos;
        proof {
            lemma_scan_lower_bounds(self.buf@, start as int);
        }
        while self.pos < len && is_lower_char(self.buf[self.pos])
            invariant
                self.buf@ == old(self).buf@,
                len == self.buf@.len(),
                start <= self.pos <= len,
                scan_lower(self.buf@, self.pos as int) == scan_lower(self.buf@, start as int),
            decreases len - self.pos,
        {
            self.pos += 1;
        }
        Ok(r)
    }

    /// Reads the quoted string after the next colon. Fails when the string
    /// would start past the end of the body.
    fn try_parse_string_after_colon(&mut self) -> (r: std::result::Result<Span, ParseError>)
        requires
            cursor_within(old(self).buf@, old(self).pos as int, 0x1000),
        ensures
            final(self).buf@ == old(self).buf@,
            r matches Ok(sp) ==> span_within(sp, old(self).buf@.len() as int),
            r is Ok ==> final(self).pos <= old(self).buf@.len() + 1,
            ({
                let p = after_colon_pos(old(self).buf@, old(self).pos as int);
                &&& string_start(old(self).buf@, p) <= old(self).buf@.len() ==> (r == Ok::<
                    Span,
                    ParseError,
                >(string_span(old(self).buf@, p)) && final(self).pos == string_end(
                    old(self).buf@,
                    p,
                ) + 1)
                &&& string_start(old(self).buf@, p) > old(self).buf@.len() ==> r == Err::<
                    Span,
                    ParseError,
                >(ParseError::OutOfBounds)
            }),
    {
        self.after_colon();
        proof {
            lemma_find_bounds(self.buf@, old(self).pos as int, COLON);
        }
        self.try_parse_string()
    }

    /// Reads the next quoted string, giving the span of its contents. The
    /// opening quote must lie within the body.
    pub fn parse_string(&mut self) -> (sp: Span)
        requires
            cursor_ok(old(self).buf@, old(self).pos as int),
            string_start(old(self).buf@, old(self).pos as int) <= old(self).buf@.len(),
        ensures
            final(self).buf@ == old(self).buf@,
            sp == string_span(old(self).buf@, old(self).pos as int),
            span_within(sp, old(self).buf@.len() as int),
            final(self).pos == string_end(old(self).buf@, old(self).pos as int) + 1,
    {
        proof {
            lemma_find_bounds(self.buf@, self.pos as int, QUOTE);
        }
        match self.try_parse_string() {
            Ok(sp) => sp,
            Err(_) => Span { start: 0, end: 0 },
        }
    }

    /// Reads the number after the next colon, giving the span of its text.
    /// The number must start within the body.
    pub fn parse_number(&mut self) -> (sp: Span)
        requires
            cursor_ok(old(self).buf@, old(self).pos as int),
            after_colon_pos(old(self).buf@, old(self).pos as int) <= old(self).buf@.len(),
        ensures
            final(self).buf@ == old(self).buf@,
            sp == number_span(old(self).buf@, old(self).pos as int),
            span_within(sp, old(self).buf@.len() as int),
            final(self).pos == sp.end,
    {
        proof {
            lemma_find_bounds(self.buf@, self.pos as int, COLON);
        }
        match self.try_parse_number() {
            Ok(sp) => sp,
            Err(_) => Span { start: 0, end: 0 },
        }
    }

    /// Reads the boolean after the next colon: true when it starts with `t`.
    /// A byte must follow the colon.
    pub fn parse_bool(&mut self) -> (b: bool)
        requires
            cursor_ok(old(self).buf@, old(self).pos as int),
            after_colon_pos(old(self).buf@, old(self).pos as int) < old(self).buf@.len(),
        ensures
            final(self).buf@ == old(self).buf@,
            b == (old(self).buf@[after_colon_pos(old(self).buf@, old(self).pos as int)] == LOWER_T),
            final(self).pos == bool_end(old(self).buf@, old(self).pos as int),
    {
        proof {
            lemma_find_bounds(self.buf@, self.pos as int, COLON);
        }
        match self.try_parse_bool() {
            Ok(b) => b,
            Err(_) => false,
        }
    }

    /// Reads the quoted string after the next colon. Its opening quote must
    /// lie within the body.
    pub fn parse_string_after_colon(&mut self) -> (sp: Span)
        requires
            cursor_ok(old(self).buf@, old(self).pos as int),
            string_start(old(self).buf@, after_colon_pos(old(self).buf@, old(self).pos as int))
                <= old(self).buf@.len(),
        ensures
            final(self).buf@ == old(self).buf@,
            sp == string_span(old(self).buf@, after_colon_pos(old(self).buf@, old(self).pos as int)),
            span_within(sp, old(self).buf@.len() as int),
            final(self).pos == string_end(
                old(self).buf@,
                after_colon_pos(old(self).buf@, old(self).pos as int),
            ) + 1,
    {
        proof {
            lemma_find_bounds(self.buf@, self.pos as int, COLON);
            lemma_find_bounds(self.buf@, after_colon_pos(self.buf@, self.pos as int), QUOTE);
        }
        match self.try_parse_string_after_colon() {
            Ok(sp) => sp,
            Err(_) => Span { start: 0, end: 0 },
        }
    }
}

fn is_number_char(c: u8) -> (r: bool)
    ensures
        r == is_number_byte(c),
{
    (c >= 0x30 && c <= 0x39) || c == 0x2e || c == 0x2d || c == 0x2b || c == 0x65 || c == 0x45
}

fn is_digit_char(c: u8) -> (r: bool)
    ensures
        r == is_digit(c),
{
    c >= 0x30 && c <= 0x39
}

fn is_lower_char(c: u8) -> (r: bool)
    ensures
        r == is_lower(c),
{
    c >= 0x61 && c <= 0x7a
}

proof fn lemma_decimal_step(a: nat, d: int)
    requires
        0 <= d < 10,
    ensures
        ((((a % 0x1_0000_0000) * 10) % 0x1_0000_0000) + d) % 0x1_0000_0000 == (a * 10 + d) % 0x1_0000_0000,
{
    assert(((((a % 0x1_0000_0000) * 10) % 0x1_0000_0000) + d) % 0x1_0000_0000 == (a * 10 + d) % 0x1_0000_0000) by (nonlinear_arith)
        requires
            0 <= d < 10,
            a >= 0,
    ;
}

impl<'a> Parser<'a> {
    /// Reads every field of a fraud-score request from the cursor on. Fails
    /// when a value would have to be read past the end of the body.
    pub fn parse(&mut self) -> (r: std::result::Result<Parsed, ParseError>)
        requires
            old(self).buf@.len() <= isize::MAX,
            old(self).pos <= old(self).buf@.len(),
        ensures
            r == match parse_spec(old(self).buf@, old(self).pos as int) {
                Some(f) => Ok::<Parsed, ParseError>(f),
                None => Err::<Parsed, ParseError>(ParseError::OutOfBounds),
            },
    {
        self.skip_quoted();  // "id"
        self.skip_quoted();  // its value
        self.skip_quoted();  // "transaction"
        self.skip_quoted();  // "amount"
        let amount = match self.try_parse_number() {
            Ok(s) => s,
            Err(e) => return Err(e),
        };
        self.skip_quoted();  // "installments"
        let installments = self.parse_u32();
        self.skip_quoted();  // "requested_at"
        let requested_at = match self.try_parse_string_after_colon() {
            Ok(s) => s,
            Err(e) => return Err(e),
        };
        self.skip_quoted();  // "customer"
        self.skip_quoted();  // "avg_amount"
        let avg_amount = match self.try_parse_number() {
            Ok(s) => s,
            Err(e) => return Err(e),
        };
        self.skip_quoted();  // "tx_count_24h"
        let tx_count_24h = self.parse_u32();
        self.skip_quoted();  // "known_merchants"
        self.skip_to(OPEN_BRACKET);
        self.pos += 1;
        let known_lo = self.pos;
        self.skip_to(CLOSE_BRACKET);
        let known_hi = self.pos;
        self.pos += 1;
        self.skip_quoted();  // "merchant"
        self.skip_quoted();  // "id"
        let merchant_id = match self.try_parse_string_after_colon() {
            Ok(s) => s,
            Err(e) => return Err(e),
        };
        self.skip_quoted();  // "mcc"
        let mcc = match self.try_parse_string_after_colon() {
            Ok(s) => s,
            Err(e) => return Err(e),
        };
        self.skip_quoted();  // "avg_amount"
        let merchant_avg = match self.try_parse_number() {
            Ok(s) => s,
            Err(e) => return Err(e),
        };
        self.skip_quoted();  // "terminal"
        self.skip_quoted();  // "is_online"
        let is_online = match self.try_parse_bool() {
            Ok(b) => b,
            Err(e) => return Err(e),
        };
        self.skip_quoted();  // "card_present"
        let card_present = match self.try_parse_bool() {
            Ok(b) => b,
            Err(e) => return Err(e),
        };
        self.skip_quoted();  // "km_from_home"
        let km_from_home = match self.try_parse_number() {
            Ok(s) => s,
            Err(e) => return Err(e),
        };
        self.skip_quoted();  // "last_transaction"
        self.after_colon();
        let last_tx = if self.pos < self.buf.len() && self.buf[self.pos] == LOWER_N {
            None
        } else {
            self.skip_quoted();  // "timestamp"
            let ts = match self.try_parse_string_after_colon() {
                Ok(s) => s,
                Err(e) => return Err(e),
            };
            self.skip_quoted();  // "km_from_current"
            let km = match self.try_parse_number() {
                Ok(s) => s,
                Err(e) => return Err(e),
            };
            Some((ts, km))
        };
        Ok(
            Parsed {
                amount,
                installments,
                requested_at,
                avg_amount,
                tx_count_24h,
                known_lo,
                known_hi,
                merchant_id,
                mcc,
                merchant_avg,
                is_online,
                card_present,
                km_from_home,
                last_tx,
            },
        )
    }
}

/// Whether `needle` occurs at `start` in `buf`.
pub open spec fn occurs_at(buf: Seq<u8>, start: int, needle: Seq<u8>) -> bool {
    &&& 0 <= start
    &&& start + needle.len() <= buf.len()
    &&& buf.subrange(start, start + needle.len()) == needle
}

/// The id holds no quote, so it can only match a whole element.
pub open spec fn quote_free(id: Seq<u8>) -> bool {
    forall|k: int| 0 <= k < id.len() ==> #[trigger] id[k] != QUOTE
}

/// JSON whitespace: space, tab, line feed and carriage return.
pub open spec fn is_json_space(c: u8) -> bool {
    c == 0x20 || c == 0x09 || c == 0x0a || c == 0x0d
}

/// Where the run of whitespace that ends just before `i` starts, going back
/// no further than `lo`.
pub open spec fn space_before(buf: Seq<u8>, lo: int, i: int) -> int
    decreases i - lo,
{
    if i <= lo || !is_json_space(buf[i - 1]) {
        i
    } else {
        space_before(buf, lo, i - 1)
    }
}

/// Where the run of whitespace that starts at `e` ends, going no further
/// than `hi`.
pub open spec fn space_after(buf: Seq<u8>, e: int, hi: int) -> int
    decreases hi - e,
{
    if e >= hi || !is_json_space(buf[e]) {
        e
    } else {
        space_after(buf, e + 1, hi)
    }
}

/// The element of the array body `lo..hi` that starts at `i` is
/// `"merchant_id"`: only whitespace stands between it and `lo` or the comma
/// before it, and only whitespace between its closing quote and the comma
/// after it or the end of the body.
pub open spec fn element_at(buf: Seq<u8>, lo: int, hi: int, i: int, merchant_id: Seq<u8>) -> bool {
    let end = i + merchant_id.len() + 2;
    let s = space_before(buf, lo, i);
    let t = space_after(buf, end, hi);
    &&& lo <= i
    &&& end <= hi
    &&& (s == lo || buf[s - 1] == COMMA)
    &&& buf[i] == QUOTE
    &&& buf[end - 1] == QUOTE
    &&& (t == hi || buf[t] == COMMA)
    &&& occurs_at(buf, i + 1, merchant_id)
}

fn is_space_char(c: u8) -> (r: bool)
    ensures
        r == is_json_space(c),
{
    c == 0x20 || c == 0x09 || c == 0x0a || c == 0x0d
}

/// Steps back from `i` over whitespace, stopping at `lo`.
fn back_over_space(buf: &[u8], lo: usize, i: usize) -> (s: usize)
    requires
        lo <= i <= buf@.len(),
    ensures
        s == space_before(buf@, lo as int, i as int),
        lo <= s <= i,
{
    let mut s = i;
    while s > lo && is_space_char(buf[s - 1])
        invariant
            lo <= s <= i,
            i <= buf@.len(),
            space_before(buf@, lo as int, s as int) == space_before(buf@, lo as int, i as int),
        decreases s,
    {
        s = s - 1;
    }
    s
}

/// Steps forward from `e` over whitespace, stopping at `hi`.
fn forward_over_space(buf: &[u8], e: usize, hi: usize) -> (t: usize)
    requires
        e <= hi <= buf@.len(),
    ensures
        t == space_after(buf@, e as int, hi as int),
        e <= t <= hi,
{
    let mut t = e;
    while t < hi && is_space_char(buf[t])
        invariant
            e <= t <= hi,
            hi <= buf@.len(),
            space_after(buf@, t as int, hi as int) == space_after(buf@, e as int, hi as int),
        decreases hi - t,
    {
        t = t + 1;
    }
    t
}

/// Whether the array body `lo..hi` (the bytes between its brackets) has the
/// merchant id, in quotes, as one of its elements.
pub open spec fn quoted_in(buf: Seq<u8>, lo: int, hi: int, merchant_id: Seq<u8>) -> bool {
    quote_free(merchant_id) && exists|i: int| #[trigger] element_at(buf, lo, hi, i, merchant_id)
}

fn bytes_equal_at(buf: &[u8], start: usize, needle: &[u8]) -> (r: bool)
    requires
        start + needle@.len() <= buf@.len(),
    ensures
        r == occurs_at(buf@, start as int, needle@),
{
    let n = needle.len();
    let blen = buf.len();
    let mut k: usize = 0;
    while k < n
        invariant
            blen == buf@.len(),
            n == needle@.len(),
            start + n <= buf@.len(),
            k <= n,
            forall|j: int| 0 <= j < k ==> buf@[start + j] == needle@[j],
        decreases n - k,
    {
        if buf[start + k] != needle[k] {
            assert(buf@.subrange(start as int, start + n)[k as int] != needle@[k as int]);
            return false;
        }
        k = k + 1;
    }
    assert(buf@.subrange(start as int, start + n) =~= needle@);
    true
}

/// Whether the merchant id is one of the quoted elements of the array whose
/// body (the bytes between its brackets) is `lo..hi`.
pub fn known_contains(buf: &[u8], lo: usize, hi: usize, merchant_id: &[u8]) -> (r: bool)
    requires
        lo <= hi <= buf@.len(),
        hi + merchant_id@.len() + 2 <= usize::MAX,
    ensures
        r == quoted_in(buf@, lo as int, hi as int, merchant_id@),
{
    let m = merchant_id.len();
    let mut k: usize = 0;
    while k < m
        invariant
            m == merchant_id@.len(),
            k <= m,
            forall|j: int| 0 <= j < k ==> #[trigger] merchant_id@[j] != QUOTE,
        decreases m - k,
    {
        if merchant_id[k] == QUOTE {
            assert(!quote_free(merchant_id@));
            return false;
        }
        k = k + 1;
    }
    let needle_len = m + 2;
    let mut i = lo;
    while i + needle_len <= hi
        invariant
            needle_len == merchant_id@.len() + 2,
            lo <= i <= hi,
            hi <= buf@.len(),
            hi + merchant_id@.len() + 2 <= usize::MAX,
            quote_free(merchant_id@),
            forall|j: int| lo <= j < i ==> !#[trigger] element_at(buf@, lo as int, hi as int, j, merchant_id@),
        decreases hi - i,
    {
        let end = i + needle_len;
        let s = back_over_space(buf, lo, i);
        let t = forward_over_space(buf, end, hi);
        if (s == lo || buf[s - 1] == COMMA) && buf[i] == QUOTE && buf[end - 1] == QUOTE && (t == hi
            || buf[t] == COMMA) {
            if bytes_equal_at(buf, i + 1, merchant_id) {
                assert(element_at(buf@, lo as int, hi as int, i as int, merchant_id@));
                return true;
            }
        }
        i = i + 1;
    }
    assert forall|j: int| !#[trigger] element_at(buf@, lo as int, hi as int, j, merchant_id@) by {
        if lo <= j < i {
        }
    }
    false
}

/// The decimal digits at `a..a + n`, or `None` if one of them is not a digit.
pub open spec fn digits_value(s: Seq<u8>, a: int, n: int) -> Option<int> {
    if forall|k: int| a <= k < a + n ==> is_digit(#[trigger] s[k]) {
        Some(decimal_between(s, a, a + n) as int)
    } else {
        None
    }
}

/// A `YYYY-MM-DDTHH:MM:SSZ` timestamp: 20 bytes, `T` at 10, `Z` at 19, and
/// digits where the six fields stand (the separators are not looked at).
pub open spec fn iso_fields(s: Seq<u8>) -> Option<(i64, i64, i64, i64, i64, i64)> {
    if s.len() != 20 || s[10] != 0x54 || s[19] != 0x5a {
        None
    } else {
        match (
            digits_value(s, 0, 4),
            digits_value(s, 5, 2),
            digits_value(s, 8, 2),
            digits_value(s, 11, 2),
            digits_value(s, 14, 2),
            digits_value(s, 17, 2),
        ) {
            (Some(y), Some(mo), Some(d), Some(h), Some(mi), Some(sec)) => Some(
                (y as i64, mo as i64, d as i64, h as i64, mi as i64, sec as i64),
            ),
            _ => None,
        }
    }
}

proof fn lemma_decimal_bound(s: Seq<u8>, a: int, e: int)
    requires
        a <= e,
        forall|k: int| a <= k < e ==> is_digit(#[trigger] s[k]),
    ensures
        decimal_between(s, a, e) < pow10((e - a) as nat),
    decreases e - a,
{
    if e > a {
        lemma_decimal_bound(s, a, e - 1);
    }
}

pub open spec fn pow10(n: nat) -> nat
    decreases n,
{
    if n == 0 {
        1
    } else {
        10 * pow10((n - 1) as nat)
    }
}

fn digits_at(s: &[u8], a: usize, n: usize) -> (r: Option<i64>)
    requires
        a + n <= s@.len(),
        n <= 4,
    ensures
        r == (match digits_value(s@, a as int, n as int) {
            Some(v) => Some(v as i64),
            None => None::<i64>,
        }),
        r matches Some(v) ==> 0 <= v < 10000,
{
    let mut v: i64 = 0;
    let mut i: usize = 0;
    let slen = s.len();
    while i < n
        invariant
            slen == s@.len(),
            a + n <= s@.len(),
            n <= 4,
            i <= n,
            forall|k: int| a <= k < a + i ==> is_digit(#[trigger] s@[k]),
            v == decimal_between(s@, a as int, a + i),
            v < pow10(i as nat),
        decreases n - i,
    {
        let c = s[a + i];
        if !is_digit_char(c) {
            assert(!(forall|k: int| a <= k < a + n ==> is_digit(#[trigger] s@[k])));
            return None;
        }
        proof {
            lemma_decimal_bound(s@, a as int, a + i + 1);
            assert(pow10((i + 1) as nat) <= 10000) by {
                reveal_with_fuel(pow10, 5);
            }
        }
        v = v * 10 + (c - 0x30) as i64;
        i = i + 1;
    }
    proof {
        reveal_with_fuel(pow10, 5);
    }
    Some(v)
}

/// Reads a `YYYY-MM-DDTHH:MM:SSZ` timestamp into year, month, day, hour,
/// minute and second.
pub fn parse_iso_z(s: &[u8]) -> (r: Option<(i64, i64, i64, i64, i64, i64)>)
    ensures
        r == iso_fields(s@),
        r matches Some((y, mo, d, h, mi, sec)) ==> 0 <= y <= 9999 && 0 <= mo <= 99 && 0 <= d <= 99
            && 0 <= h <= 99 && 0 <= mi <= 99 && 0 <= sec <= 99,
{
    if s.len() != 20 || s[10] != 0x54 || s[19] != 0x5a {
        return None;
    }
    let y = match digits_at(s, 0, 4) {
        Some(v) => v,
        None => return None,
    };
    let mo = match digits_at(s, 5, 2) {
        Some(v) => v,
        None => return None,
    };
    let d = match digits_at(s, 8, 2) {
        Some(v) => v,
        None => return None,
    };
    let h = match digits_at(s, 11, 2) {
        Some(v) => v,
        None => return None,
    };
    let mi = match digits_at(s, 14, 2) {
        Some(v) => v,
        None => return None,
    };
    let sec = match digits_at(s, 17, 2) {
        Some(v) => v,
        None => return None,
    };
    proof {
        reveal_with_fuel(pow10, 3);
        lemma_decimal_bound(s@, 5, 7);
        lemma_decimal_bound(s@, 8, 10);
        lemma_decimal_bound(s@, 11, 13);
        lemma_decimal_bound(s@, 14, 16);
        lemma_decimal_bound(s@, 17, 19);
    }
    Some((y, mo, d, h, mi, sec))
}

/// The time features of a transaction: the hour and weekday of its
/// timestamp, and the minutes elapsed since the previous transaction, if
/// there was one.
#[derive(Clone, Copy, PartialEq, Eq, Debug)]
pub struct TimeFeatures {
    pub hour: i64,
    pub weekday: i64,
    pub minutes_since_last: Option<i64>,
}

/// Which timestamp could not be read.
#[derive(Clone, Copy, PartialEq, Eq, Debug)]
pub enum TimeError {
    /// `transaction.requested_at`.
    RequestedAt,
    /// `last_transaction.timestamp`.
    LastTxTimestamp,
}

/// The time features that the timestamps give: `requested_at` is read
/// first, then the previous transaction's timestamp.
pub open spec fn time_features_of(requested_at: Seq<u8>, last_ts: Option<Seq<u8>>) -> std::result::Result<
    TimeFeatures,
    TimeError,
> {
    match iso_fields(requested_at) {
        None => Err(TimeError::RequestedAt),
        Some((y, mo, d, h, mi, _)) => {
            let base = TimeFeatures {
                hour: h,
                weekday: weekday_number(y as int, mo as int, d as int) as i64,
                minutes_since_last: None,
            };
            match last_ts {
                None => Ok(base),
                Some(ts) => match iso_fields(ts) {
                    None => Err(TimeError::LastTxTimestamp),
                    Some((ly, lmo, ld, lh, lmi, _)) => Ok(
                        TimeFeatures {
                            minutes_since_last: Some(
                                (minute_number(y as int, mo as int, d as int, h as int, mi as int)
                                    - minute_number(ly as int, lmo as int, ld as int, lh as int, lmi as int)) as i64,
                            ),
                            ..base
                        },
                    ),
                },
            }
        },
    }
}

pub open spec fn opt_slice(o: Option<&[u8]>) -> Option<Seq<u8>> {
    match o {
        Some(s) => Some(s@),
        None => None,
    }
}

/// Reads the request timestamp and, when there is one, the previous
/// transaction's timestamp, and derives the time features from them.
pub fn time_features(requested_at: &[u8], last_ts: Option<&[u8]>) -> (r: std::result::Result<
    TimeFeatures,
    TimeError,
>)
    ensures
        r == time_features_of(requested_at@, opt_slice(last_ts)),
        r matches Ok(f) ==> f.hour == (requested_at@[11] - 0x30) * 10 + (requested_at@[12] - 0x30),
{
    proof {
        lemma_iso_hour(requested_at@);
    }
    let (y, mo, d, h, mi, _sec) = match parse_iso_z(requested_at) {
        Some(t) => t,
        None => return Err(TimeError::RequestedAt),
    };
    let req_min = epoch_minutes(y, mo, d, h, mi);
    let weekday = weekday_mon0(y, mo, d);
    let minutes_since_last = match last_ts {
        None => None,
        Some(ts) => {
            let (ly, lmo, ld, lh, lmi, _lsec) = match parse_iso_z(ts) {
                Some(t) => t,
                None => return Err(TimeError::LastTxTimestamp),
            };
            let last_min = epoch_minutes(ly, lmo, ld, lh, lmi);
            Some(req_min - last_min)
        },
    };
    Ok(TimeFeatures { hour: h, weekday, minutes_since_last })
}

} // verus!

verus! {

/// The hour feature is the hour written in `requested_at` (its bytes 11 and
/// 12), and the previous transaction's timestamp changes neither the hour
/// nor the weekday: whenever the features can be had with a previous
/// timestamp, they can be had without it, with the same hour and weekday.
pub proof fn lemma_time_features_hour(requested_at: Seq<u8>, last_ts: Option<Seq<u8>>)
    ensures
        time_features_of(requested_at, last_ts) matches Ok(f) ==> {
            &&& f.hour == (requested_at[11] - 0x30) * 10 + (requested_at[12] - 0x30)
            &&& time_features_of(requested_at, None) matches Ok(g)
            &&& g.hour == f.hour
            &&& g.weekday == f.weekday
        },
{
    lemma_iso_hour(requested_at);
}

proof fn lemma_decimal_same_bytes(s: Seq<u8>, t: Seq<u8>, a: int, e: int)
    requires
        forall|k: int| a <= k < e ==> s[k] == t[k],
    ensures
        decimal_between(s, a, e) == decimal_between(t, a, e),
    decreases e - a,
{
    if e > a {
        lemma_decimal_same_bytes(s, t, a, e - 1);
    }
}

proof fn lemma_iso_minute(s: Seq<u8>)
    ensures
        iso_fields(s) matches Some(t) ==> t.4 == (s[14] - 0x30) * 10 + (s[15] - 0x30),
{
    if iso_fields(s) is Some {
        assert(decimal_between(s, 14, 14) == 0);
        assert(decimal_between(s, 14, 15) == s[14] - 0x30);
        assert(decimal_between(s, 14, 16) == (s[14] - 0x30) * 10 + (s[15] - 0x30));
    }
}

/// Between two timestamps of the same date, the minutes since the previous
/// transaction are the difference of the times of day written in them:
/// `(hour - last hour) * 60 + (minute - last minute)`.
pub proof fn lemma_minutes_since_last_same_day(requested_at: Seq<u8>, last: Seq<u8>)
    requires
        requested_at.len() >= 10,
        last.len() >= 10,
        requested_at.subrange(0, 10) == last.subrange(0, 10),
    ensures
        time_features_of(requested_at, Some(last)) matches Ok(f) ==> f.minutes_since_last == Some(
            (((requested_at[11] - 0x30) * 10 + (requested_at[12] - 0x30) - ((last[11] - 0x30) * 10 + (
            last[12] - 0x30))) * 60 + (requested_at[14] - 0x30) * 10 + (requested_at[15] - 0x30) - ((last[14]
                - 0x30) * 10 + (last[15] - 0x30))) as i64,
        ),
{
    lemma_iso_hour(requested_at);
    lemma_iso_hour(last);
    lemma_iso_minute(requested_at);
    lemma_iso_minute(last);
    assert forall|k: int| 0 <= k < 10 implies requested_at[k] == last[k] by {
        assert(requested_at[k] == requested_at.subrange(0, 10)[k]);
        assert(last[k] == last.subrange(0, 10)[k]);
    }
    lemma_decimal_same_bytes(requested_at, last, 0, 4);
    lemma_decimal_same_bytes(requested_at, last, 5, 7);
    lemma_decimal_same_bytes(requested_at, last, 8, 10);
}

proof fn lemma_iso_hour(s: Seq<u8>)
    ensures
        iso_fields(s) matches Some(t) ==> t.3 == (s[11] - 0x30) * 10 + (s[12] - 0x30),
{
    if iso_fields(s) is Some {
        assert(decimal_between(s, 11, 11) == 0);
        assert(decimal_between(s, 11, 12) == s[11] - 0x30);
        assert(decimal_between(s, 11, 13) == (s[11] - 0x30) * 10 + (s[12] - 0x30));
    }
}

/// The bytes `0`..`9` in ASCII.
pub open spec fn ascii_digit(c: u8) -> bool {
    0x30 <= c && c <= 0x39
}

/// The decimal text of `n`, without leading zeros (`0` for zero).
pub open spec fn decimal_text(n: nat) -> Seq<u8>
    decreases n,
{
    if n < 10 {
        seq![(0x30 + n) as u8]
    } else {
        decimal_text(n / 10).push((0x30 + n % 10) as u8)
    }
}

proof fn lemma_decimal_text_digits(n: nat)
    ensures
        decimal_text(n).len() >= 1,
        forall|k: int| 0 <= k < decimal_text(n).len() ==> ascii_digit(#[trigger] decimal_text(n)[k]),
    decreases n,
{
    if n >= 10 {
        lemma_decimal_text_digits(n / 10);
    }
}

proof fn lemma_decimal_text_value(buf: Seq<u8>, a: int, n: nat)
    requires
        0 <= a,
        a + decimal_text(n).len() <= buf.len(),
        buf.subrange(a, a + decimal_text(n).len()) == decimal_text(n),
    ensures
        decimal_between(buf, a, a + decimal_text(n).len()) == n,
    decreases n,
{
    let t = decimal_text(n);
    let e = a + t.len();
    assert(buf[e - 1] == buf.subrange(a, e)[t.len() - 1]);
    if n < 10 {
        assert(decimal_between(buf, a, a) == 0);
    } else {
        let t1 = decimal_text(n / 10);
        assert(t == t1.push((0x30 + n % 10) as u8));
        assert(buf.subrange(a, a + t1.len()) =~= t1) by {
            assert forall|k: int| 0 <= k < t1.len() implies buf.subrange(a, a + t1.len())[k] == t1[k] by {
                assert(buf.subrange(a, e)[k] == t[k]);
            }
        }
        lemma_decimal_text_value(buf, a, n / 10);
    }
}

proof fn lemma_scan_digits_run(buf: Seq<u8>, p: int, e: int)
    requires
        0 <= p <= e <= buf.len(),
        forall|k: int| p <= k < e ==> ascii_digit(#[trigger] buf[k]),
        e == buf.len() || !ascii_digit(buf[e]),
    ensures
        scan_digits(buf, p) == e,
    decreases e - p,
{
    if p < e {
        lemma_scan_digits_run(buf, p + 1, e);
    }
}

/// Reading a `u32` takes every decimal digit `0` to `9` after the colon: on
/// `:` followed by the decimal text of any `n < 2^32` and then anything that
/// does not start with a digit, the value read is `n` and reading stops
/// right after the last digit.
pub proof fn lemma_u32_reads_decimal_text(n: nat, rest: Seq<u8>)
    requires
        n < 0x1_0000_0000,
        rest.len() == 0 || !ascii_digit(rest[0]),
    ensures
        ({
            let buf = seq![COLON] + decimal_text(n) + rest;
            &&& u32_value(buf, 0) == n
            &&& u32_end(buf, 0) == 1 + decimal_text(n).len()
        }),
{
    let t = decimal_text(n);
    let buf = seq![COLON] + t + rest;
    let e = 1 + t.len() as int;
    lemma_decimal_text_digits(n);
    assert(buf[0] == COLON);
    assert(find_byte(buf, 0, COLON) == 0);
    assert forall|k: int| 1 <= k < e implies ascii_digit(#[trigger] buf[k]) by {
        assert(buf[k] == t[k - 1]);
    }
    if rest.len() > 0 {
        assert(buf[e] == rest[0]);
    }
    lemma_scan_digits_run(buf, 1, e);
    assert(buf.subrange(1, e) =~= t);
    lemma_decimal_text_value(buf, 1, n);
}

/// `"id"`: the id between two quotes.
pub open spec fn quoted(id: Seq<u8>) -> Seq<u8> {
    seq![QUOTE] + id + seq![QUOTE]
}

/// The body of a JSON array of strings (the bytes between its brackets):
/// the quoted ids, separated by commas.
pub open spec fn array_body(ids: Seq<Seq<u8>>) -> Seq<u8>
    decreases ids.len(),
{
    if ids.len() == 0 {
        Seq::empty()
    } else if ids.len() == 1 {
        quoted(ids[0])
    } else {
        array_body(ids.drop_last()) + seq![COMMA] + quoted(ids.last())
    }
}

/// Where the opening quote of element `k` stands in `array_body(ids)`.
pub open spec fn element_start(ids: Seq<Seq<u8>>, k: int) -> int {
    if k == 0 {
        0
    } else {
        array_body(ids.take(k)).len() + 1int
    }
}

proof fn lemma_array_body_layout(ids: Seq<Seq<u8>>, k: int)
    requires
        0 <= k < ids.len(),
    ensures
        ({
            let b = array_body(ids);
            let i = element_start(ids, k);
            let e = i + ids[k].len() + 2;
            &&& 0 <= i
            &&& e <= b.len()
            &&& (i == 0 || b[i - 1] == COMMA)
            &&& b[i] == QUOTE
            &&& b[e - 1] == QUOTE
            &&& (e == b.len() || b[e] == COMMA)
            &&& b.subrange(i + 1, e - 1) == ids[k]
        }),
    decreases ids.len(),
{
    let n = ids.len();
    let b = array_body(ids);
    if n == 1 {
        assert(b.subrange(1, ids[0].len() + 1int) =~= ids[0]);
    } else {
        let p = array_body(ids.drop_last());
        assert(b == p + seq![COMMA] + quoted(ids.last()));
        if k < n - 1 {
            lemma_array_body_layout(ids.drop_last(), k);
            if k > 0 {
                assert(ids.drop_last().take(k) =~= ids.take(k));
            }
            let i = element_start(ids, k);
            let e = i + ids[k].len() + 2;
            assert(ids.drop_last()[k] == ids[k]);
            assert(b.subrange(i + 1, e - 1) =~= p.subrange(i + 1, e - 1));
            if e == p.len() {
                assert(b[e] == COMMA);
            }
        } else {
            assert(ids.take(n - 1) =~= ids.drop_last());
            let i = p.len() + 1int;
            let e = i + ids[k].len() + 2;
            assert(b.len() == e);
            assert(b.subrange(i + 1, e - 1) =~= ids[k]);
        }
    }
}

/// Every element is found: in the body of a JSON array of strings, each id
/// without a quote in it, first, last or between two commas, is known.
pub proof fn lemma_known_contains_every_element(ids: Seq<Seq<u8>>, k: int)
    requires
        0 <= k < ids.len(),
        quote_free(ids[k]),
    ensures
        quoted_in(array_body(ids), 0, array_body(ids).len() as int, ids[k]),
{
    lemma_array_body_layout(ids, k);
    let b = array_body(ids);
    let i = element_start(ids, k);
    let e = i + ids[k].len() + 2;
    if i > 0 {
        assert(!is_json_space(b[i - 1]));
    }
    assert(space_before(b, 0, i) == i);
    if e < b.len() {
        assert(!is_json_space(b[e]));
    }
    assert(space_after(b, e, b.len() as int) == e);
    assert(element_at(b, 0, b.len() as int, i, ids[k]));
}

} // verus!

verus! {

/// The id holds neither a quote nor a comma.
pub open spec fn plain_id(id: Seq<u8>) -> bool {
    forall|k: int| 0 <= k < id.len() ==> #[trigger] id[k] != QUOTE && id[k] != COMMA
}

proof fn lemma_space_before_prefix(b: Seq<u8>, p: Seq<u8>, lo: int, i: int)
    requires
        0 <= lo,
        i <= p.len() <= b.len(),
        forall|k: int| 0 <= k < p.len() ==> b[k] == p[k],
    ensures
        space_before(b, lo, i) == space_before(p, lo, i),
    decreases i - lo,
{
    if i > lo && i >= 1 {
        assert(b[i - 1] == p[i - 1]);
        lemma_space_before_prefix(b, p, lo, i - 1);
    }
}

proof fn lemma_space_after_prefix(b: Seq<u8>, p: Seq<u8>, e: int)
    requires
        0 <= e <= p.len() < b.len(),
        forall|k: int| 0 <= k < p.len() ==> b[k] == p[k],
        !is_json_space(b[p.len() as int]),
    ensures
        space_after(b, e, b.len() as int) == space_after(p, e, p.len() as int),
    decreases p.len() - e,
{
    if e < p.len() {
        assert(b[e] == p[e]);
        lemma_space_after_prefix(b, p, e + 1);
    }
}

proof fn lemma_space_before_bounds(b: Seq<u8>, i: int)
    requires
        0 <= i,
    ensures
        0 <= space_before(b, 0, i) <= i,
    decreases i,
{
    if i > 0 {
        lemma_space_before_bounds(b, i - 1);
    }
}

proof fn lemma_space_after_bounds(b: Seq<u8>, e: int, hi: int)
    requires
        e <= hi,
    ensures
        e <= space_after(b, e, hi) <= hi,
    decreases hi - e,
{
    if e < hi {
        lemma_space_after_bounds(b, e + 1, hi);
    }
}

proof fn lemma_space_before_stops(b: Seq<u8>, o: int, j: int)
    requires
        0 <= o < j <= b.len(),
        b[o] == QUOTE,
    ensures
        o + 1 <= space_before(b, 0, j) <= j,
    decreases j - o,
{
    if j - 1 > o {
        lemma_space_before_stops(b, o, j - 1);
    }
}

proof fn lemma_array_body_tail(ids: Seq<Seq<u8>>)
    requires
        ids.len() >= 1,
    ensures
        ({
            let b = array_body(ids);
            let last = ids.last();
            let o = b.len() - last.len() - 2;
            &&& 0 <= o
            &&& b[o] == QUOTE
            &&& b[b.len() - 1] == QUOTE
            &&& forall|k: int| o < k < b.len() - 1 ==> b[k] == last[k - o - 1]
        }),
{
}

/// Only elements are found: in the body of a JSON array whose ids hold no
/// quote and no comma, an id that `known_contains` finds is one of them.
pub proof fn lemma_known_contains_only_elements(ids: Seq<Seq<u8>>, id: Seq<u8>)
    requires
        forall|k: int| 0 <= k < ids.len() ==> plain_id(#[trigger] ids[k]),
        quoted_in(array_body(ids), 0, array_body(ids).len() as int, id),
    ensures
        exists|k: int| 0 <= k < ids.len() && ids[k] == id,
    decreases ids.len(),
{
    let b = array_body(ids);
    let len = b.len() as int;
    let i = choose|i: int| #[trigger] element_at(b, 0, len, i, id);
    let end = i + id.len() + 2;
    assert(element_at(b, 0, len, i, id));
    // No quote stands strictly between the two quotes of the match.
    assert forall|k: int| i < k < end - 1 implies b[k] != QUOTE by {
        assert(b.subrange(i + 1, end - 1)[k - i - 1] == id[k - i - 1]);
    }
    let n = ids.len();
    if n == 0 {
        assert(false);
    } else if n == 1 {
        let e0 = ids[0];
        assert(plain_id(e0));
        assert forall|k: int| 0 < k < len - 1 implies b[k] != QUOTE by {
            assert(b[k] == e0[k - 1]);
        }
        assert(i == 0);
        assert(end - 1 == len - 1);
        assert(id =~= e0) by {
            assert forall|k: int| 0 <= k < id.len() implies id[k] == e0[k] by {
                assert(b.subrange(i + 1, end - 1)[k] == id[k]);
                assert(b[k + 1] == e0[k]);
            }
        }
        assert(ids[0] == id);
    } else {
        let p = array_body(ids.drop_last());
        let pl = p.len() as int;
        let last = ids.last();
        assert(b == p + seq![COMMA] + quoted(last));
        assert(plain_id(last));
        assert forall|k: int| 0 <= k < pl implies b[k] == p[k] by {}
        assert(b[pl] == COMMA);
        assert(b[pl + 1] == QUOTE);
        assert(len == pl + last.len() + 3);
        assert forall|k: int| pl + 1 < k < len - 1 implies b[k] == last[k - pl - 2] by {}
        lemma_array_body_tail(ids.drop_last());
        let prev = ids.drop_last().last();
        assert(prev == ids[n - 2]);
        assert(plain_id(prev));
        let o = pl - prev.len() - 2;
        if end <= pl {
            lemma_space_before_prefix(b, p, 0, i);
            if end < pl {
                assert(b[end] == p[end]);
            }
            lemma_space_after_prefix(b, p, end);
            assert(p.subrange(i + 1, end - 1) =~= b.subrange(i + 1, end - 1));
            let sb = space_before(b, 0, i);
            let ta = space_after(b, end, len);
            assert(0 <= sb <= i) by {
                lemma_space_before_bounds(b, i);
            }
            assert(end <= ta <= pl) by {
                lemma_space_after_bounds(p, end, pl);
            }
            if sb > 0 {
                assert(p[sb - 1] == b[sb - 1]);
            }
            if ta < pl {
                assert(p[ta] == b[ta]);
            }
            assert(p[i] == b[i]);
            assert(p[end - 1] == b[end - 1]);
            assert(element_at(p, 0, pl, i, id));
            assert(forall|k: int| 0 <= k < ids.drop_last().len() ==> #[trigger] ids.drop_last()[k] == ids[k]);
            lemma_known_contains_only_elements(ids.drop_last(), id);
            let k = choose|k: int| 0 <= k < ids.drop_last().len() && ids.drop_last()[k] == id;
            assert(ids[k] == id);
        } else if i > pl {
            assert forall|k: int| pl + 1 < k < len - 1 implies b[k] != QUOTE by {
                assert(last[k - pl - 2] != QUOTE);
            }
            assert(i == pl + 1);
            assert(end - 1 == len - 1);
            assert(id =~= last) by {
                assert forall|k: int| 0 <= k < id.len() implies id[k] == last[k] by {
                    assert(b.subrange(i + 1, end - 1)[k] == id[k]);
                }
            }
            assert(ids[n - 1] == id);
        } else {
            // The match would run from the closing quote of the element
            // before the last one, over the comma: no element stands there.
            assert(b[pl - 1] == QUOTE);
            assert(i == pl - 1);
            assert(end - 1 == pl + 1);
            lemma_space_before_stops(b, o, i);
            let s = space_before(b, 0, i);
            if s - 1 > o {
                assert(b[s - 1] == prev[s - 1 - o - 1]);
            }
            assert(!(s == 0 || b[s - 1] == COMMA));
            assert(false);
        }
    }
}

} // verus!
