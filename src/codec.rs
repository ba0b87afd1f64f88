//! The wire format: frames of the key-value store's request/response
//! protocol, their canonical byte encoding, and an incremental decoder.
use vstd::prelude::*;

verus! {

pub const CR: u8 = 13;

pub const LF: u8 = 10;

/// The mathematical value of a frame.
pub enum Value {
    Simple(Seq<u8>),
    Error(Seq<u8>),
    Integer(int),
    Bulk(Seq<u8>),
    Array(Seq<Value>),
    Null,
    NullArray,
}

/// One protocol message.
pub enum Frame {
    SimpleString(Vec<u8>),
    Error(Vec<u8>),
    Integer(i64),
    BulkString(Vec<u8>),
    Array(Vec<Frame>),
    /// The null bulk string, written `$-1`.
    Null,
    /// The null array, written `*-1`.
    NullArray,
}

impl Frame {
    pub open spec fn view(&self) -> Value
        decreases self,
    {
        match self {
            Frame::SimpleString(s) => Value::Simple(s@),
            Frame::Error(s) => Value::Error(s@),
            Frame::Integer(i) => Value::Integer(*i as int),
            Frame::BulkString(s) => Value::Bulk(s@),
            Frame::Array(items) => Value::Array(
                Seq::new(items.len() as nat, |i: int| if 0 <= i < items.len() { items[i].view() } else { Value::Null }),
            ),
            Frame::Null => Value::Null,
            Frame::NullArray => Value::NullArray,
        }
    }
}

pub open spec fn min_i64() -> int {
    -0x8000_0000_0000_0000
}

pub open spec fn max_i64() -> int {
    0x7fff_ffff_ffff_ffff
}

/// Decimal digits of `n`, most significant first, without leading zeros.
pub open spec fn digits(n: nat) -> Seq<u8>
    decreases n,
{
    if n < 10 {
        seq![(48 + n) as u8]
    } else {
        digits(n / 10).push((48 + n % 10) as u8)
    }
}

/// The decimal text of an integer, with a leading `-` when negative.
pub open spec fn int_text(i: int) -> Seq<u8> {
    if i < 0 {
        seq![45u8] + digits((-i) as nat)
    } else {
        digits(i as nat)
    }
}

pub open spec fn crlf() -> Seq<u8> {
    seq![CR, LF]
}

/// A type byte, a line of text, and the line terminator.
pub open spec fn line(tag: u8, text: Seq<u8>) -> Seq<u8> {
    seq![tag] + text + crlf()
}

/// The canonical encoding of a frame value.
pub open spec fn encoding(v: Value) -> Seq<u8>
    decreases v, 1nat,
{
    match v {
        Value::Simple(s) => line(43u8, s),
        Value::Error(s) => line(45u8, s),
        Value::Integer(i) => line(58u8, int_text(i)),
        Value::Bulk(b) => line(36u8, int_text(b.len() as int)) + b + crlf(),
        Value::Array(items) => line(42u8, int_text(items.len() as int)) + encoding_all(items),
        Value::Null => line(36u8, int_text(-1)),
        Value::NullArray => line(42u8, int_text(-1)),
    }
}

/// The encodings of a sequence of values, one after another.
pub open spec fn encoding_all(items: Seq<Value>) -> Seq<u8>
    decreases items, 0nat,
{
    if items.len() == 0 {
        Seq::empty()
    } else {
        encoding(items[0]) + encoding_all(items.drop_first())
    }
}

pub open spec fn is_line_byte(c: u8) -> bool {
    c != CR && c != LF
}

/// A value that the wire format can carry: line texts hold no line
/// terminator and integers are 64-bit.
pub open spec fn valid(v: Value) -> bool
    decreases v,
{
    match v {
        Value::Simple(s) => forall|i: int| 0 <= i < s.len() ==> is_line_byte(#[trigger] s[i]),
        Value::Error(s) => forall|i: int| 0 <= i < s.len() ==> is_line_byte(#[trigger] s[i]),
        Value::Integer(i) => min_i64() <= i <= max_i64(),
        Value::Bulk(b) => b.len() <= max_i64(),
        Value::Array(items) => items.len() <= max_i64() && forall|i: int|
            0 <= i < items.len() ==> valid(#[trigger] items[i]),
        Value::Null => true,
        Value::NullArray => true,
    }
}

fn push_digits(out: &mut Vec<u8>, n: u64)
    ensures
        final(out)@ == old(out)@ + digits(n as nat),
    decreases n,
{
    if n >= 10 {
        push_digits(out, n / 10);
    }
    out.push((48 + n % 10) as u8);
    proof {
        if n < 10 {
            assert(old(out)@ + digits(n as nat) =~= old(out)@.push((48 + n % 10) as u8));
        } else {
            assert(old(out)@ + digits(n as nat) =~= old(out)@ + digits((n / 10) as nat) + seq![(48 + n % 10) as u8]);
        }
    }
}

fn push_int(out: &mut Vec<u8>, i: i64)
    ensures
        final(out)@ == old(out)@ + int_text(i as int),
{
    if i < 0 {
        out.push(45u8);
        let magnitude: u64 = ((-(i + 1)) as u64) + 1;
        push_digits(out, magnitude);
        assert(final(out)@ =~= old(out)@ + int_text(i as int));
    } else {
        push_digits(out, i as u64);
    }
}

fn push_bytes(out: &mut Vec<u8>, bytes: &Vec<u8>)
    ensures
        final(out)@ == old(out)@ + bytes@,
{
    let mut k: usize = 0;
    while k < bytes.len()
        invariant
            k <= bytes.len(),
            out@ == old(out)@ + bytes@.subrange(0, k as int),
        decreases bytes.len() - k,
    {
        out.push(bytes[k]);
        k += 1;
        assert(out@ =~= old(out)@ + bytes@.subrange(0, k as int));
    }
    assert(bytes@.subrange(0, k as int) =~= bytes@);
}

fn push_line_end(out: &mut Vec<u8>)
    ensures
        final(out)@ == old(out)@ + crlf(),
{
    out.push(CR);
    out.push(LF);
    assert(final(out)@ =~= old(out)@ + crlf());
}

fn push_header(out: &mut Vec<u8>, tag: u8, n: i64)
    ensures
        final(out)@ == old(out)@ + line(tag, int_text(n as int)),
{
    out.push(tag);
    push_int(out, n);
    push_line_end(out);
    assert(final(out)@ =~= old(out)@ + line(tag, int_text(n as int)));
}

fn push_count_header(out: &mut Vec<u8>, tag: u8, n: usize)
    ensures
        final(out)@ == old(out)@ + line(tag, int_text(n as int)),
{
    out.push(tag);
    push_digits(out, n as u64);
    push_line_end(out);
    assert(final(out)@ =~= old(out)@ + line(tag, int_text(n as int)));
}

proof fn lemma_encoding_all_push(items: Seq<Value>, v: Value)
    ensures
        encoding_all(items.push(v)) == encoding_all(items) + encoding(v),
    decreases items.len(),
{
    if items.len() == 0 {
        assert(items.push(v).drop_first() =~= Seq::<Value>::empty());
        assert(encoding_all(Seq::<Value>::empty()) =~= Seq::<u8>::empty());
        assert(encoding_all(items.push(v)) =~= encoding_all(items) + encoding(v));
    } else {
        lemma_encoding_all_push(items.drop_first(), v);
        assert(items.push(v).drop_first() =~= items.drop_first().push(v));
        assert(encoding_all(items.push(v)) =~= encoding_all(items) + encoding(v));
    }
}

/// Appends the canonical encoding of `frame` to `out`.
#[verifier::loop_isolation(false)]
pub fn encode_into(out: &mut Vec<u8>, frame: &Frame)
    ensures
        final(out)@ == old(out)@ + encoding(frame@),
    decreases frame,
{
    match frame {
        Frame::SimpleString(s) => {
            out.push(43u8);
            push_bytes(out, s);
            push_line_end(out);
            assert(final(out)@ =~= old(out)@ + encoding(frame@));
        },
        Frame::Error(s) => {
            out.push(45u8);
            push_bytes(out, s);
            push_line_end(out);
            assert(final(out)@ =~= old(out)@ + encoding(frame@));
        },
        Frame::Integer(i) => {
            push_header(out, 58u8, *i);
        },
        Frame::BulkString(b) => {
            let ghost start = out@;
            push_count_header(out, 36u8, b.len());
            push_bytes(out, b);
            push_line_end(out);
            assert(final(out)@ =~= start + encoding(frame@));
        },
        Frame::Array(items) => {
            let ghost start = out@;
            push_count_header(out, 42u8, items.len());
            let ghost mid = out@;
            let mut k: usize = 0;
            while k < items.len()
                invariant
                    k <= items.len(),
                    out@ == mid + encoding_all(frame@->Array_0.subrange(0, k as int)),
                decreases items.len() - k,
            {
                proof {
                    assert(frame@->Array_0.len() == items.len());
                    assert(frame@->Array_0[k as int] == items[k as int]@);
                    vstd::std_specs::vec::axiom_vec_index_decreases(*items, k as int);
                    assert(frame@->Array_0.subrange(0, k + 1) =~= frame@->Array_0.subrange(0, k as int).push(items[k as int]@));
                    lemma_encoding_all_push(frame@->Array_0.subrange(0, k as int), items[k as int]@);
                }
                encode_into(out, &items[k]);
                k += 1;
            }
            assert(frame@->Array_0.subrange(0, k as int) =~= frame@->Array_0);
            assert(final(out)@ =~= start + encoding(frame@));
        },
        Frame::Null => {
            push_header(out, 36u8, -1);
        },
        Frame::NullArray => {
            push_header(out, 42u8, -1);
        },
    }
}

fn digits_len(n: u64) -> (r: u64)
    ensures
        r == digits(n as nat).len(),
    decreases n,
{
    if n < 10 {
        1
    } else {
        let k = digits_len(n / 10);
        proof {
            lemma_digits_len_bound((n / 10) as nat);
        }
        k + 1
    }
}

proof fn lemma_digits_len_bound(n: nat)
    ensures
        digits(n).len() <= n + 1,
    decreases n,
{
    if n >= 10 {
        lemma_digits_len_bound(n / 10);
    }
}

fn header_len(count: usize) -> (r: Option<usize>)
    ensures
        r matches Some(n) ==> n == line(0u8, int_text(count as int)).len(),
        r is None ==> line(0u8, int_text(count as int)).len() > usize::MAX,
{
    digits_then(count as u64, 3)
}

/// The length of the digits of `n` followed by `extra` more bytes.
fn digits_then(n: u64, extra: usize) -> (r: Option<usize>)
    ensures
        r matches Some(x) ==> x == digits(n as nat).len() + extra,
        r is None ==> digits(n as nat).len() + extra > usize::MAX,
{
    let d = digits_len(n);
    if d > usize::MAX as u64 {
        None
    } else {
        add_len(Some(d as usize), extra)
    }
}

fn add_len(a: Option<usize>, b: usize) -> (r: Option<usize>)
    ensures
        r matches Some(n) ==> a matches Some(x) && n == x + b,
        r is None ==> a is None || a->Some_0 + b > usize::MAX,
{
    match a {
        Some(x) => if x > usize::MAX - b {
            None
        } else {
            Some(x + b)
        },
        None => None,
    }
}

/// The length of the canonical encoding of `frame`, or `None` when that
/// length does not fit in a `usize`.
#[verifier::loop_isolation(false)]
pub fn encode_len(frame: &Frame) -> (r: Option<usize>)
    ensures
        r matches Some(n) ==> n == encoding(frame@).len(),
        r is None ==> encoding(frame@).len() > usize::MAX,
    decreases frame,
{
    match frame {
        Frame::SimpleString(s) => add_len(Some(s.len()), 3),
        Frame::Error(s) => add_len(Some(s.len()), 3),
        Frame::Integer(i) => {
            if *i < 0 {
                let magnitude: u64 = ((-(*i + 1)) as u64) + 1;
                digits_then(magnitude, 4)
            } else {
                digits_then(*i as u64, 3)
            }
        },
        Frame::BulkString(b) => match header_len(b.len()) {
            Some(h) => add_len(add_len(Some(b.len()), h), 2),
            None => None,
        },
        Frame::Array(items) => {
            let ghost all = frame@->Array_0;
            let mut total: Option<usize> = header_len(items.len());
            let mut k: usize = 0;
            while k < items.len()
                invariant
                    k <= items.len(),
                    all.len() == items.len(),
                    total matches Some(n) ==> n == line(42u8, int_text(items.len() as int)).len()
                        + encoding_all(all.subrange(0, k as int)).len(),
                    total is None ==> line(42u8, int_text(items.len() as int)).len() + encoding_all(
                        all.subrange(0, k as int),
                    ).len() > usize::MAX,
                decreases items.len() - k,
            {
                proof {
                    assert(all[k as int] == items[k as int]@);
                    vstd::std_specs::vec::axiom_vec_index_decreases(*items, k as int);
                    assert(all.subrange(0, k + 1) =~= all.subrange(0, k as int).push(items[k as int]@));
                    lemma_encoding_all_push(all.subrange(0, k as int), items[k as int]@);
                }
                total = match encode_len(&items[k]) {
                    Some(n) => add_len(total, n),
                    None => None,
                };
                k += 1;
            }
            assert(all.subrange(0, k as int) =~= all);
            total
        },
        Frame::Null => Some(5),
        Frame::NullArray => Some(5),
    }
}

/// The canonical encoding of `frame`, written into a buffer allocated once
/// at its exact length.
pub fn encode(frame: &Frame) -> (r: Vec<u8>)
    ensures
        r@ == encoding(frame@),
        valid(frame@) ==> parse_frame(r@, 0) == Parse::Done(frame@, r@.len() as int),
{
    let mut out: Vec<u8> = match encode_len(frame) {
        Some(n) => Vec::with_capacity(n),
        None => Vec::new(),
    };
    encode_into(&mut out, frame);
    assert(out@ =~= encoding(frame@));
    proof {
        if valid(frame@) {
            decode_encode_round_trip(frame@, Seq::empty(), out@);
            assert(encoding(frame@) + Seq::<u8>::empty() =~= out@);
        }
    }
    out
}

/// The outcome of reading one item from position `pos` of a buffer.
pub enum Parse<T> {
    /// The item, and the position just past it.
    Done(T, int),
    /// The buffer ends before the item does.
    Partial,
    /// The bytes can start no item.
    Bad,
}

pub open spec fn is_digit(c: u8) -> bool {
    48 <= c <= 57
}

/// At least one digit, and no leading zero.
pub open spec fn canonical_digits(d: Seq<u8>) -> bool {
    &&& d.len() >= 1
    &&& forall|i: int| 0 <= i < d.len() ==> is_digit(#[trigger] d[i])
    &&& (d[0] != 48 || d.len() == 1)
}

pub open spec fn digits_value(d: Seq<u8>) -> int
    decreases d.len(),
{
    if d.len() == 0 {
        0
    } else {
        digits_value(d.drop_last()) * 10 + (d.last() - 48)
    }
}

/// The 64-bit integer whose canonical text is `t`, if any.
pub open spec fn parse_int(t: Seq<u8>) -> Option<int> {
    if t.len() >= 1 && t[0] == 45 {
        let d = t.drop_first();
        if canonical_digits(d) && d[0] != 48 && digits_value(d) <= -min_i64() {
            Some(-digits_value(d))
        } else {
            None
        }
    } else if canonical_digits(t) && digits_value(t) <= max_i64() {
        Some(digits_value(t))
    } else {
        None
    }
}

/// The first position at or after `from` that holds CR or LF, or the length.
pub open spec fn line_end(b: Seq<u8>, from: int) -> int
    decreases b.len() - from,
{
    if from < 0 || from >= b.len() {
        b.len() as int
    } else if !is_line_byte(b[from]) {
        from
    } else {
        line_end(b, from + 1)
    }
}

/// A line of text from `from` up to its terminator: the position where the
/// text ends, and the position past the terminator.
pub open spec fn parse_line(b: Seq<u8>, from: int) -> Parse<int> {
    let e = line_end(b, from);
    if e >= b.len() {
        Parse::Partial
    } else if b[e] != CR {
        Parse::Bad
    } else if e + 1 >= b.len() {
        Parse::Partial
    } else if b[e + 1] != LF {
        Parse::Bad
    } else {
        Parse::Done(e, e + 2)
    }
}

pub open spec fn is_tag(c: u8) -> bool {
    c == 43 || c == 45 || c == 58 || c == 36 || c == 42
}

/// Reads one frame starting at `pos`.
pub open spec fn parse_frame(b: Seq<u8>, pos: int) -> Parse<Value>
    decreases b.len() - pos, 0nat,
{
    if pos < 0 || pos >= b.len() {
        Parse::Partial
    } else if !is_tag(b[pos]) {
        Parse::Bad
    } else {
        match parse_line(b, pos + 1) {
            Parse::Partial => Parse::Partial,
            Parse::Bad => Parse::Bad,
            Parse::Done(e, next) => {
                let tag = b[pos];
                let text = b.subrange(pos + 1, e);
                if !(pos < next <= b.len()) {
                    Parse::Bad
                } else if tag == 43 {
                    Parse::Done(Value::Simple(text), next)
                } else if tag == 45 {
                    Parse::Done(Value::Error(text), next)
                } else {
                    match parse_int(text) {
                        None => Parse::Bad,
                        Some(n) => {
                            if tag == 58 {
                                Parse::Done(Value::Integer(n), next)
                            } else if n == -1 {
                                if tag == 36 {
                                    Parse::Done(Value::Null, next)
                                } else {
                                    Parse::Done(Value::NullArray, next)
                                }
                            } else if n < 0 {
                                Parse::Bad
                            } else if tag == 36 {
                                if next + n + 2 > b.len() {
                                    Parse::Partial
                                } else if b[next + n] != CR || b[next + n + 1] != LF {
                                    Parse::Bad
                                } else {
                                    Parse::Done(Value::Bulk(b.subrange(next, next + n)), next + n + 2)
                                }
                            } else {
                                match parse_items(b, next, n) {
                                    Parse::Done(items, end) => Parse::Done(Value::Array(items), end),
                                    Parse::Partial => Parse::Partial,
                                    Parse::Bad => Parse::Bad,
                                }
                            }
                        },
                    }
                }
            },
        }
    }
}

/// Reads `n` frames, one after another, starting at `pos`.
pub open spec fn parse_items(b: Seq<u8>, pos: int, n: int) -> Parse<Seq<Value>>
    decreases b.len() - pos, 1nat,
{
    if n <= 0 {
        Parse::Done(Seq::empty(), pos)
    } else {
        match parse_frame(b, pos) {
            Parse::Partial => Parse::Partial,
            Parse::Bad => Parse::Bad,
            Parse::Done(v, e) => {
                if !(pos < e <= b.len()) {
                    Parse::Bad
                } else {
                    match parse_items(b, e, n - 1) {
                        Parse::Done(vs, end) => Parse::Done(seq![v] + vs, end),
                        Parse::Partial => Parse::Partial,
                        Parse::Bad => Parse::Bad,
                    }
                }
            },
        }
    }
}

/// What the decoder found at the front of a buffer.
pub enum Decoded {
    /// A whole frame, and the number of bytes that it takes.
    Complete(Frame, usize),
    /// The buffer ends inside a frame: more bytes are needed.
    Incomplete,
    /// The buffer does not start with a well-formed frame.
    Invalid,
}

enum Scan<T> {
    Done(T, usize),
    Partial,
    Bad,
}

pub open spec fn views(fs: Seq<Frame>) -> Seq<Value> {
    Seq::new(fs.len(), |i: int| fs[i]@)
}

spec fn frame_scan(r: Scan<Frame>, p: Parse<Value>) -> bool {
    match r {
        Scan::Done(f, e) => p == Parse::Done(f@, e as int),
        Scan::Partial => p is Partial,
        Scan::Bad => p is Bad,
    }
}

/// The items read so far, in front of what the rest of the reading gives.
pub open spec fn prepend(acc: Seq<Value>, p: Parse<Seq<Value>>) -> Parse<Seq<Value>> {
    match p {
        Parse::Done(vs, e) => Parse::Done(acc + vs, e),
        Parse::Partial => Parse::Partial,
        Parse::Bad => Parse::Bad,
    }
}

fn scan_line(b: &[u8], from: usize) -> (r: Scan<usize>)
    requires
        from <= b.len(),
    ensures
        match r {
            Scan::Done(e, next) => parse_line(b@, from as int) == Parse::Done(e as int, next as int)
                && from <= e && next == e + 2 && next <= b.len(),
            Scan::Partial => parse_line(b@, from as int) is Partial,
            Scan::Bad => parse_line(b@, from as int) is Bad,
        },
{
    let mut i: usize = from;
    while i < b.len() && b[i] != CR && b[i] != LF
        invariant
            from <= i <= b.len(),
            line_end(b@, from as int) == line_end(b@, i as int),
        decreases b.len() - i,
    {
        i += 1;
    }
    if i >= b.len() {
        Scan::Partial
    } else if b[i] != CR {
        Scan::Bad
    } else if i + 1 >= b.len() {
        Scan::Partial
    } else if b[i + 1] != LF {
        Scan::Bad
    } else {
        Scan::Done(i, i + 2)
    }
}

proof fn lemma_value_nonneg(d: Seq<u8>)
    requires
        forall|i: int| 0 <= i < d.len() ==> is_digit(#[trigger] d[i]),
    ensures
        digits_value(d) >= 0,
    decreases d.len(),
{
    if d.len() > 0 {
        lemma_value_nonneg(d.drop_last());
    }
}

proof fn lemma_value_grows(d: Seq<u8>, m: int)
    requires
        0 <= m <= d.len(),
        forall|i: int| 0 <= i < d.len() ==> is_digit(#[trigger] d[i]),
    ensures
        digits_value(d) >= digits_value(d.subrange(0, m)),
    decreases d.len(),
{
    if m < d.len() {
        lemma_value_grows(d.drop_last(), m);
        lemma_value_nonneg(d.drop_last());
        assert(d.drop_last().subrange(0, m) =~= d.subrange(0, m));
    } else {
        assert(d.subrange(0, m) =~= d);
    }
}

#[verifier::loop_isolation(false)]
fn read_int(b: &[u8], start: usize, end: usize) -> (r: Option<i64>)
    requires
        start <= end <= b.len(),
    ensures
        match r {
            Some(x) => parse_int(b@.subrange(start as int, end as int)) == Some(x as int),
            None => parse_int(b@.subrange(start as int, end as int)) is None,
        },
{
    let ghost t = b@.subrange(start as int, end as int);
    let neg = start < end && b[start] == 45;
    let ds: usize = if neg { start + 1 } else { start };
    let ghost d = b@.subrange(ds as int, end as int);
    proof {
        if neg {
            assert(t.drop_first() =~= d);
        } else {
            assert(t =~= d);
            if t.len() >= 1 {
                assert(t[0] == b@[start as int]);
            }
        }
    }
    if ds >= end {
        return None;
    }
    if b[ds] == 48 && (end - ds != 1 || neg) {
        return None;
    }
    let limit: u64 = if neg { 0x8000_0000_0000_0000 } else { 0x7fff_ffff_ffff_ffff };
    let mut acc: u64 = 0;
    let mut k: usize = ds;
    while k < end
        invariant
            ds <= k <= end <= b.len(),
            d == b@.subrange(ds as int, end as int),
            acc == digits_value(d.subrange(0, k - ds)),
            acc <= limit,
            0x7fff_ffff_ffff_ffff <= limit <= 0x8000_0000_0000_0000,
            neg ==> limit == 0x8000_0000_0000_0000,
            !neg ==> limit == 0x7fff_ffff_ffff_ffff,
            forall|j: int| 0 <= j < k - ds ==> is_digit(#[trigger] d[j]),
        decreases end - k,
    {
        let c = b[k];
        if c < 48 || c > 57 {
            assert(!is_digit(d[k - ds]));
            return None;
        }
        let dv: u64 = (c - 48) as u64;
        assert(d.subrange(0, k - ds + 1).drop_last() =~= d.subrange(0, k - ds));
        if acc > (limit - dv) / 10 {
            proof {
                assert(acc * 10 + dv > limit) by (nonlinear_arith)
                    requires acc > (limit - dv) / 10, dv <= 9, dv <= limit;
                if forall|j: int| 0 <= j < d.len() ==> is_digit(#[trigger] d[j]) {
                    lemma_value_grows(d, k - ds + 1);
                }
            }
            return None;
        }
        assert(acc * 10 + dv <= limit) by (nonlinear_arith)
            requires acc <= (limit - dv) / 10, dv <= 9, dv <= limit;
        acc = acc * 10 + dv;
        k += 1;
    }
    assert(d.subrange(0, k - ds) =~= d);
    if neg {
        if acc == 0x8000_0000_0000_0000 {
            Some(-0x8000_0000_0000_0000i64)
        } else {
            Some(-(acc as i64))
        }
    } else {
        Some(acc as i64)
    }
}

fn copy_range(b: &[u8], from: usize, to: usize) -> (r: Vec<u8>)
    requires
        from <= to <= b.len(),
    ensures
        r@ == b@.subrange(from as int, to as int),
{
    let mut out: Vec<u8> = Vec::new();
    let mut k: usize = from;
    while k < to
        invariant
            from <= k <= to <= b.len(),
            out@ == b@.subrange(from as int, k as int),
        decreases to - k,
    {
        out.push(b[k]);
        k += 1;
        assert(out@ =~= b@.subrange(from as int, k as int));
    }
    out
}

proof fn lemma_array_view(items: Vec<Frame>)
    ensures
        Frame::Array(items)@ == Value::Array(views(items@)),
{
    assert(Frame::Array(items)@->Array_0 =~= views(items@));
}

#[verifier::loop_isolation(false)]
fn decode_frame(b: &[u8], pos: usize) -> (r: Scan<Frame>)
    requires
        pos <= b.len(),
    ensures
        frame_scan(r, parse_frame(b@, pos as int)),
        r is Done ==> pos < r->Done_1 <= b.len(),
    decreases b.len() - pos,
{
    if pos >= b.len() {
        return Scan::Partial;
    }
    let tag = b[pos];
    if !(tag == 43 || tag == 45 || tag == 58 || tag == 36 || tag == 42) {
        return Scan::Bad;
    }
    let (e, next) = match scan_line(b, pos + 1) {
        Scan::Done(e, next) => (e, next),
        Scan::Partial => {
            return Scan::Partial;
        },
        Scan::Bad => {
            return Scan::Bad;
        },
    };
    if tag == 43 {
        return Scan::Done(Frame::SimpleString(copy_range(b, pos + 1, e)), next);
    }
    if tag == 45 {
        return Scan::Done(Frame::Error(copy_range(b, pos + 1, e)), next);
    }
    let n = match read_int(b, pos + 1, e) {
        Some(n) => n,
        None => {
            return Scan::Bad;
        },
    };
    if tag == 58 {
        return Scan::Done(Frame::Integer(n), next);
    }
    if n == -1 {
        if tag == 36 {
            return Scan::Done(Frame::Null, next);
        } else {
            return Scan::Done(Frame::NullArray, next);
        }
    }
    if n < 0 {
        return Scan::Bad;
    }
    let count: u64 = n as u64;
    if tag == 36 {
        let room: u64 = (b.len() - next) as u64;
        if count > room || room - count < 2 {
            return Scan::Partial;
        }
        let stop: usize = next + count as usize;
        if b[stop] != CR || b[stop + 1] != LF {
            return Scan::Bad;
        }
        return Scan::Done(Frame::BulkString(copy_range(b, next, stop)), stop + 2);
    }
    let mut items: Vec<Frame> = Vec::new();
    let mut cur: usize = next;
    let mut k: u64 = 0;
    while k < count
        invariant
            pos < next <= cur <= b.len(),
            k <= count,
            parse_items(b@, next as int, count as int) == prepend(
                views(items@),
                parse_items(b@, cur as int, count - k),
            ),
        decreases b.len() - cur,
    {
        match decode_frame(b, cur) {
            Scan::Done(f, end) => {
                let ghost before = items@;
                items.push(f);
                proof {
                    assert(views(items@) =~= views(before) + seq![f@]);
                    assert(views(before) + (seq![f@] + Seq::<Value>::empty()) =~= views(items@) + Seq::<Value>::empty());
                    let rest = parse_items(b@, end as int, count - k - 1);
                    match rest {
                        Parse::Done(vs, z) => {
                            assert(views(before) + (seq![f@] + vs) =~= views(items@) + vs);
                        },
                        _ => {},
                    }
                }
                cur = end;
                k += 1;
            },
            Scan::Partial => {
                return Scan::Partial;
            },
            Scan::Bad => {
                return Scan::Bad;
            },
        }
    }
    proof {
        assert(views(items@) + Seq::<Value>::empty() =~= views(items@));
        lemma_array_view(items);
    }
    Scan::Done(Frame::Array(items), cur)
}

/// Reads one frame from the front of `buf`.
pub fn decode(buf: &[u8]) -> (r: Decoded)
    ensures
        match r {
            Decoded::Complete(f, n) => parse_frame(buf@, 0) == Parse::Done(f@, n as int),
            Decoded::Incomplete => parse_frame(buf@, 0) is Partial,
            Decoded::Invalid => parse_frame(buf@, 0) is Bad,
        },
        r matches Decoded::Complete(f, n) ==> valid(f@) && 0 < n <= buf.len() && encoding(f@)
            == buf@.subrange(0, n as int),
        forall|v: Value|
            valid(v) && #[trigger] encoding(v).len() <= buf.len() && buf@.subrange(
                0,
                encoding(v).len() as int,
            ) == encoding(v) ==> (r matches Decoded::Complete(f, n) && f@ == v && n == encoding(v).len()),
{
    let r = match decode_frame(buf, 0) {
        Scan::Done(f, n) => Decoded::Complete(f, n),
        Scan::Partial => Decoded::Incomplete,
        Scan::Bad => Decoded::Invalid,
    };
    proof {
        if parse_frame(buf@, 0) is Done {
            lemma_parse_sound(buf@, 0);
        }
        assert forall|v: Value|
            valid(v) && #[trigger] encoding(v).len() <= buf.len() && buf@.subrange(
                0,
                encoding(v).len() as int,
            ) == encoding(v) implies (r matches Decoded::Complete(f, n) && f@ == v && n
            == encoding(v).len()) by {
            lemma_parse_complete(buf@, 0, v);
        }
    }
    r
}

proof fn lemma_digits(n: nat)
    ensures
        canonical_digits(digits(n)),
        digits_value(digits(n)) == n,
        n > 0 ==> digits(n)[0] != 48,
    decreases n,
{
    if n < 10 {
        assert(digits(n).drop_last() =~= Seq::<u8>::empty());
        assert(digits_value(digits(n).drop_last()) == 0);
    } else {
        lemma_digits(n / 10);
        let d = digits(n);
        assert(d.drop_last() =~= digits(n / 10));
        assert(d.last() == (48 + n % 10) as u8);
        assert(n == (n / 10) * 10 + n % 10);
        assert(digits_value(d) == digits_value(digits(n / 10)) * 10 + (d.last() - 48));
        assert(d[0] == digits(n / 10)[0]);
        assert(forall|i: int| 0 <= i < d.len() - 1 ==> #[trigger] d[i] == digits(n / 10)[i]);
        assert(forall|i: int| 0 <= i < d.len() ==> is_digit(#[trigger] d[i]));
    }
}

proof fn lemma_canonical(d: Seq<u8>)
    requires
        canonical_digits(d),
    ensures
        digits(digits_value(d) as nat) == d,
        digits_value(d) >= 0,
        d[0] != 48 ==> digits_value(d) > 0,
    decreases d.len(),
{
    if d.len() == 1 {
        assert(d.drop_last() =~= Seq::<u8>::empty());
        assert(digits_value(d.drop_last()) == 0);
        assert(is_digit(d[0]));
        assert(d.last() == d[0]);
        assert(digits_value(d) == d[0] - 48);
        assert(digits(digits_value(d) as nat) =~= d);
    } else {
        let p = d.drop_last();
        assert(p[0] == d[0]);
        assert(forall|i: int| 0 <= i < p.len() ==> #[trigger] p[i] == d[i]);
        lemma_canonical(p);
        let v = digits_value(p);
        let c = d.last() - 48;
        assert(is_digit(d[d.len() - 1]));
        assert((v * 10 + c) / 10 == v && (v * 10 + c) % 10 == c) by (nonlinear_arith)
            requires 0 <= c < 10, v >= 0;
        assert(digits(digits_value(d) as nat) =~= p.push(d.last()));
        assert(p.push(d.last()) =~= d);
    }
}

proof fn lemma_int_text(i: int)
    requires
        min_i64() <= i <= max_i64(),
    ensures
        parse_int(int_text(i)) == Some(i),
        forall|j: int| 0 <= j < int_text(i).len() ==> is_line_byte(#[trigger] int_text(i)[j]),
        int_text(i).len() >= 1,
{
    if i < 0 {
        lemma_digits((-i) as nat);
        let t = int_text(i);
        assert(t.drop_first() =~= digits((-i) as nat));
        assert(forall|j: int| 1 <= j < t.len() ==> #[trigger] t[j] == digits((-i) as nat)[j - 1]);
        assert(forall|j: int| 1 <= j < t.len() ==> is_digit(#[trigger] t[j]));
    } else {
        lemma_digits(i as nat);
        let t = int_text(i);
        assert(forall|j: int| 0 <= j < t.len() ==> is_digit(#[trigger] t[j]));
    }
}

proof fn lemma_parse_int(t: Seq<u8>)
    requires
        parse_int(t) is Some,
    ensures
        int_text(parse_int(t)->Some_0) == t,
        min_i64() <= parse_int(t)->Some_0 <= max_i64(),
{
    if t.len() >= 1 && t[0] == 45 {
        let d = t.drop_first();
        lemma_canonical(d);
        assert(int_text(parse_int(t)->Some_0) =~= t);
    } else {
        lemma_canonical(t);
    }
}

proof fn lemma_line_end(b: Seq<u8>, from: int)
    requires
        0 <= from <= b.len(),
    ensures
        from <= line_end(b, from) <= b.len(),
        forall|j: int| from <= j < line_end(b, from) ==> is_line_byte(#[trigger] b[j]),
        line_end(b, from) < b.len() ==> !is_line_byte(b[line_end(b, from)]),
    decreases b.len() - from,
{
    if from < b.len() && is_line_byte(b[from]) {
        lemma_line_end(b, from + 1);
    }
}

proof fn lemma_line_end_at(b: Seq<u8>, from: int, stop: int)
    requires
        0 <= from <= stop < b.len(),
        forall|j: int| from <= j < stop ==> is_line_byte(#[trigger] b[j]),
        !is_line_byte(b[stop]),
    ensures
        line_end(b, from) == stop,
    decreases stop - from,
{
    if from < stop {
        lemma_line_end_at(b, from + 1, stop);
    }
}

proof fn lemma_slice_at(b: Seq<u8>, pos: int, x: Seq<u8>, y: Seq<u8>)
    requires
        0 <= pos,
        pos + x.len() + y.len() <= b.len(),
        b.subrange(pos, pos + x.len() + y.len()) == x + y,
    ensures
        b.subrange(pos, pos + x.len()) == x,
        b.subrange(pos + x.len(), pos + x.len() + y.len()) == y,
{
    assert forall|j: int| 0 <= j < x.len() implies #[trigger] b.subrange(pos, pos + x.len())[j] == x[j] by {
        assert(b[pos + j] == b.subrange(pos, pos + x.len() + y.len())[j]);
    }
    assert forall|j: int| 0 <= j < y.len() implies #[trigger] b.subrange(pos + x.len(), pos + x.len() + y.len())[j] == y[j] by {
        assert(b[pos + x.len() + j] == b.subrange(pos, pos + x.len() + y.len())[x.len() + j]);
    }
    assert(b.subrange(pos, pos + x.len()) =~= x);
    assert(b.subrange(pos + x.len(), pos + x.len() + y.len()) =~= y);
}

/// The line `tag text CR LF` at `pos`.
proof fn lemma_line_at(b: Seq<u8>, pos: int, tag: u8, t: Seq<u8>)
    requires
        0 <= pos,
        pos + t.len() + 3 <= b.len(),
        b.subrange(pos, pos + t.len() + 3) == line(tag, t),
        forall|j: int| 0 <= j < t.len() ==> is_line_byte(#[trigger] t[j]),
    ensures
        line_end(b, pos + 1) == pos + 1 + t.len(),
        b.subrange(pos + 1, pos + 1 + t.len()) == t,
        b[pos] == tag,
        b[pos + 1 + t.len()] == CR,
        b[pos + 2 + t.len()] == LF,
        parse_line(b, pos + 1) == Parse::<int>::Done(pos + 1 + t.len(), pos + 3 + t.len()),
{
    let l = line(tag, t);
    assert(forall|j: int| 0 <= j < l.len() ==> #[trigger] b.subrange(pos, pos + t.len() + 3)[j] == b[pos + j]);
    assert(b[pos] == l[0]);
    assert(b[pos + 1 + t.len()] == l[1 + t.len() as int]);
    assert(b[pos + 2 + t.len()] == l[2 + t.len() as int]);
    assert forall|j: int| pos + 1 <= j < pos + 1 + t.len() implies is_line_byte(#[trigger] b[j]) && b[j] == t[j - pos - 1] by {
        assert(b[j] == l[j - pos]);
        assert(l[j - pos] == t[j - pos - 1]);
    }
    lemma_line_end_at(b, pos + 1, pos + 1 + t.len());
    assert(b.subrange(pos + 1, pos + 1 + t.len()) =~= t);
}

proof fn lemma_encoding_len(v: Value)
    ensures
        encoding(v).len() >= 3,
{
    match v {
        Value::Bulk(x) => {
            assert(encoding(v).len() == line(36u8, int_text(x.len() as int)).len() + x.len() + 2);
        },
        Value::Array(items) => {
            assert(encoding(v).len() == line(42u8, int_text(items.len() as int)).len() + encoding_all(items).len());
        },
        _ => {},
    }
}

/// A frame that the parser reads is valid and is canonically encoded in the
/// bytes that it took.
proof fn lemma_parse_sound(b: Seq<u8>, pos: int)
    requires
        parse_frame(b, pos) is Done,
    ensures
        valid(parse_frame(b, pos)->Done_0),
        pos < parse_frame(b, pos)->Done_1 <= b.len(),
        line_end(b, pos + 1) + 2 <= parse_frame(b, pos)->Done_1,
        b.subrange(pos, parse_frame(b, pos)->Done_1) == encoding(parse_frame(b, pos)->Done_0),
    decreases b.len() - pos, 0nat,
{
    let tag = b[pos];
    lemma_line_end(b, pos + 1);
    let e = line_end(b, pos + 1);
    let next = e + 2;
    let text = b.subrange(pos + 1, e);
    let v = parse_frame(b, pos)->Done_0;
    let end = parse_frame(b, pos)->Done_1;
    assert(forall|j: int| 0 <= j < text.len() ==> #[trigger] text[j] == b[pos + 1 + j]);
    if tag == 43 || tag == 45 {
        assert(b.subrange(pos, end) =~= encoding(v));
    } else {
        lemma_parse_int(text);
        let n = parse_int(text)->Some_0;
        assert(int_text(n) == text);
        if tag == 58 || n == -1 {
            assert(b.subrange(pos, end) =~= encoding(v));
        } else if tag == 36 {
            assert(b.subrange(pos, end) =~= encoding(v));
        } else {
            lemma_items_sound(b, next, n);
            let items = parse_items(b, next, n)->Done_0;
            assert(b.subrange(pos, end) =~= b.subrange(pos, next) + b.subrange(next, end));
            assert(b.subrange(pos, next) =~= line(42u8, int_text(items.len() as int)));
        }
    }
}

proof fn lemma_items_sound(b: Seq<u8>, pos: int, n: int)
    requires
        0 <= pos <= b.len(),
        0 <= n,
        parse_items(b, pos, n) is Done,
    ensures
        parse_items(b, pos, n)->Done_0.len() == n,
        forall|i: int|
            0 <= i < n ==> valid(#[trigger] parse_items(b, pos, n)->Done_0[i]),
        pos <= parse_items(b, pos, n)->Done_1 <= b.len(),
        b.subrange(pos, parse_items(b, pos, n)->Done_1) == encoding_all(parse_items(b, pos, n)->Done_0),
    decreases b.len() - pos, 1nat,
{
    let vs = parse_items(b, pos, n)->Done_0;
    if n == 0 {
        assert(b.subrange(pos, pos) =~= encoding_all(vs));
    } else {
        lemma_parse_sound(b, pos);
        let e = parse_frame(b, pos)->Done_1;
        lemma_items_sound(b, e, n - 1);
        let end = parse_items(b, pos, n)->Done_1;
        let rest = parse_items(b, e, n - 1)->Done_0;
        assert(vs.drop_first() =~= rest);
        assert(b.subrange(pos, end) =~= b.subrange(pos, e) + b.subrange(e, end));
        assert(forall|i: int| 1 <= i < n ==> #[trigger] vs[i] == rest[i - 1]);
    }
}

/// The parser reads back every valid frame from its canonical encoding.
proof fn lemma_parse_complete(b: Seq<u8>, pos: int, v: Value)
    requires
        valid(v),
        0 <= pos,
        pos + encoding(v).len() <= b.len(),
        b.subrange(pos, pos + encoding(v).len()) == encoding(v),
    ensures
        parse_frame(b, pos) == Parse::Done(v, pos + encoding(v).len()),
    decreases v, 1nat,
{
    let enc = encoding(v);
    lemma_encoding_len(v);
    match v {
        Value::Simple(t) => {
            lemma_line_at(b, pos, 43u8, t);
            assert(enc.len() == t.len() + 3);
            assert(is_tag(b[pos]));
            assert(parse_line(b, pos + 1) == Parse::<int>::Done(pos + 1 + t.len(), pos + 3 + t.len()));
            assert(b.subrange(pos + 1, pos + 1 + t.len()) == t);
            assert(pos < pos + 3 + t.len() <= b.len());
            assert(parse_frame(b, pos) == Parse::Done(v, pos + 3 + t.len()));
        },
        Value::Error(t) => {
            lemma_line_at(b, pos, 45u8, t);
            assert(enc.len() == t.len() + 3);
            assert(is_tag(b[pos]));
            assert(parse_line(b, pos + 1) == Parse::<int>::Done(pos + 1 + t.len(), pos + 3 + t.len()));
            assert(b.subrange(pos + 1, pos + 1 + t.len()) == t);
            assert(pos < pos + 3 + t.len() <= b.len());
            assert(parse_frame(b, pos) == Parse::Done(v, pos + 3 + t.len()));
        },
        Value::Integer(i) => {
            lemma_text_line(b, pos, 58u8, i);
            assert(is_tag(b[pos]));
        },
        Value::Null => {
            lemma_text_line(b, pos, 36u8, -1);
            assert(is_tag(b[pos]));
        },
        Value::NullArray => {
            lemma_text_line(b, pos, 42u8, -1);
            assert(is_tag(b[pos]));
        },
        Value::Bulk(x) => {
            let head = line(36u8, int_text(x.len() as int));
            assert(enc =~= head + (x + crlf()));
            lemma_slice_at(b, pos, head, x + crlf());
            lemma_text_line(b, pos, 36u8, x.len() as int);
            assert(is_tag(b[pos]));
            let next = pos + 1 + int_text(x.len() as int).len() + 2;
            assert(b[next + x.len()] == b.subrange(next, next + x.len() + 2)[x.len() as int]);
            assert(b[next + x.len() + 1] == b.subrange(next, next + x.len() + 2)[x.len() as int + 1]);
            assert(b.subrange(next, next + x.len()) =~= b.subrange(next, next + x.len() + 2).subrange(0, x.len() as int));
            assert((x + crlf()).subrange(0, x.len() as int) =~= x);
        },
        Value::Array(items) => {
            lemma_slice_at(b, pos, line(42u8, int_text(items.len() as int)), encoding_all(items));
            lemma_text_line(b, pos, 42u8, items.len() as int);
            let next = pos + 1 + int_text(items.len() as int).len() + 2;
            let rest = encoding_all(items);
            assert(b.subrange(next, next + rest.len()) =~= rest);
            lemma_items_complete(b, next, items);
            assert(is_tag(b[pos]));
        },
    }
}

/// The header line of a frame whose text is a number.
proof fn lemma_text_line(b: Seq<u8>, pos: int, tag: u8, i: int)
    requires
        min_i64() <= i <= max_i64(),
        0 <= pos,
        pos + line(tag, int_text(i)).len() <= b.len(),
        b.subrange(pos, pos + line(tag, int_text(i)).len()) == line(tag, int_text(i)),
    ensures
        line_end(b, pos + 1) == pos + 1 + int_text(i).len(),
        b.subrange(pos + 1, pos + 1 + int_text(i).len()) == int_text(i),
        parse_int(int_text(i)) == Some(i),
        b[pos] == tag,
        b[pos + 1 + int_text(i).len()] == CR,
        b[pos + 2 + int_text(i).len()] == LF,
        parse_line(b, pos + 1) == Parse::<int>::Done(pos + 1 + int_text(i).len(), pos + 3 + int_text(i).len()),
        line(tag, int_text(i)).len() == int_text(i).len() + 3,
{
    lemma_int_text(i);
    lemma_line_at(b, pos, tag, int_text(i));
}

proof fn lemma_items_complete(b: Seq<u8>, pos: int, vs: Seq<Value>)
    requires
        forall|i: int| 0 <= i < vs.len() ==> valid(#[trigger] vs[i]),
        0 <= pos,
        pos + encoding_all(vs).len() <= b.len(),
        b.subrange(pos, pos + encoding_all(vs).len()) == encoding_all(vs),
    ensures
        parse_items(b, pos, vs.len() as int) == Parse::Done(vs, pos + encoding_all(vs).len()),
    decreases vs, 0nat,
{
    if vs.len() > 0 {
        let first = encoding(vs[0]);
        let rest = encoding_all(vs.drop_first());
        assert(encoding_all(vs) == first + rest);
        lemma_slice_at(b, pos, first, rest);
        lemma_parse_complete(b, pos, vs[0]);
        lemma_encoding_len(vs[0]);
        let e = pos + first.len();
        lemma_items_complete(b, e, vs.drop_first());
        assert(seq![vs[0]] + vs.drop_first() =~= vs);
        assert(parse_frame(b, pos) == Parse::Done(vs[0], e));
        assert(parse_items(b, e, vs.len() - 1) == Parse::Done(vs.drop_first(), e + rest.len()));
    } else {
        assert(vs =~= Seq::<Value>::empty());
    }
}

proof fn lemma_line_end_prefix(b: Seq<u8>, m: int, from: int)
    requires
        0 <= from <= m <= b.len(),
    ensures
        line_end(b.subrange(0, m), from) == if line_end(b, from) < m {
            line_end(b, from)
        } else {
            m
        },
    decreases m - from,
{
    lemma_line_end(b, from);
    if from < m {
        assert(b.subrange(0, m)[from] == b[from]);
        lemma_line_end_prefix(b, m, from + 1);
    }
}

/// What the parser makes of the first `m` bytes of `b`, from `pos`.
pub open spec fn prefix_agrees<T>(whole: Parse<T>, part: Parse<T>, m: int) -> bool {
    match whole {
        Parse::Done(v, e) => part == if e <= m {
            Parse::Done(v, e)
        } else {
            Parse::Partial
        },
        Parse::Partial => part is Partial,
        Parse::Bad => true,
    }
}

proof fn lemma_frame_prefix(b: Seq<u8>, m: int, pos: int)
    requires
        0 <= pos,
        0 <= m <= b.len(),
    ensures
        prefix_agrees(parse_frame(b, pos), parse_frame(b.subrange(0, m), pos), m),
    decreases b.len() - pos, 0nat,
{
    let p = b.subrange(0, m);
    if pos >= m {
        if parse_frame(b, pos) is Done {
            lemma_parse_sound(b, pos);
        }
    } else {
        assert(p[pos] == b[pos]);
        lemma_line_end(b, pos + 1);
        lemma_line_end_prefix(b, m, pos + 1);
        let le = line_end(b, pos + 1);
        if parse_frame(b, pos) is Done {
            lemma_parse_sound(b, pos);
        }
        if le < m {
            assert(p[le] == b[le]);
            if le + 1 < m {
                assert(p[le + 1] == b[le + 1]);
                let next = le + 2;
                assert(p.subrange(pos + 1, le) =~= b.subrange(pos + 1, le));
                let text = b.subrange(pos + 1, le);
                if parse_line(b, pos + 1) is Done && is_tag(b[pos]) && b[pos] != 43 && b[pos] != 45
                    && parse_int(text) is Some {
                    let n = parse_int(text)->Some_0;
                    if b[pos] == 36 && n >= 0 && next + n + 2 <= m {
                        assert(p[next + n] == b[next + n]);
                        assert(p[next + n + 1] == b[next + n + 1]);
                        assert(p.subrange(next, next + n) =~= b.subrange(next, next + n));
                    }
                    if b[pos] == 42 && n >= 0 {
                        lemma_items_prefix(b, m, next, n);
                    }
                }
            }
        }
    }
}

proof fn lemma_items_prefix(b: Seq<u8>, m: int, pos: int, n: int)
    requires
        0 <= pos <= m <= b.len(),
    ensures
        prefix_agrees(parse_items(b, pos, n), parse_items(b.subrange(0, m), pos, n), m),
    decreases b.len() - pos, 1nat,
{
    if n > 0 {
        lemma_frame_prefix(b, m, pos);
        if parse_frame(b, pos) is Done {
            let e = parse_frame(b, pos)->Done_1;
            lemma_parse_sound(b, pos);
            if parse_items(b, e, n - 1) is Done {
                lemma_items_sound(b, e, n - 1);
            }
            if e <= m {
                lemma_items_prefix(b, m, e, n - 1);
            }
        }
    }
}

/// Decoding needs no byte past the frame it reports, and reports no frame
/// before all of its bytes are there: a non-empty prefix of a buffer that
/// starts with a whole frame decodes to that same frame if the prefix still
/// holds all of it, and is incomplete otherwise; every non-empty prefix of an
/// incomplete buffer is incomplete too.
pub proof fn decode_prefix_consistent(b: Seq<u8>, m: int)
    requires
        0 < m <= b.len(),
    ensures
        prefix_agrees(parse_frame(b, 0), parse_frame(b.subrange(0, m), 0), m),
{
    lemma_frame_prefix(b, m, 0);
}

/// Each valid frame comes back from its canonical encoding, whatever follows
/// it; and each frame that decoding reports is valid, and is the canonical
/// encoding of the bytes that it took.
pub proof fn decode_encode_round_trip(v: Value, rest: Seq<u8>, b: Seq<u8>)
    requires
        valid(v),
    ensures
        parse_frame(encoding(v) + rest, 0) == Parse::Done(v, encoding(v).len() as int),
        parse_frame(b, 0) is Done ==> valid(parse_frame(b, 0)->Done_0) && encoding(parse_frame(b, 0)->Done_0)
            == b.subrange(0, parse_frame(b, 0)->Done_1),
{
    let whole = encoding(v) + rest;
    assert(whole.subrange(0, encoding(v).len() as int) =~= encoding(v));
    lemma_parse_complete(whole, 0, v);
    if parse_frame(b, 0) is Done {
        lemma_parse_sound(b, 0);
    }
}

} // verus!
