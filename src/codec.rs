use vstd::prelude::*;
use vstd::slice::{slice_subrange, slice_to_vec};

use crate::value::{Frame, Value};

verus! {

/// Why a buffer did not yield a value.
#[derive(Debug, PartialEq, Eq, Structural, Clone, Copy)]
pub enum FrameError {
    /// The buffer holds the start of a value but not all of it yet.
    Incomplete,
    /// The buffer cannot be the start of any valid value.
    Malformed,
}

/// `b[i - 1]` and `b[i]` are CR and LF.
pub open spec fn is_crlf(b: Seq<u8>, i: int) -> bool {
    1 <= i < b.len() && b[i - 1] == 13 && b[i] == 10
}

/// The first `j >= i` at which `is_crlf(b, j)` holds, if any.
pub open spec fn scan_crlf(b: Seq<u8>, i: int) -> Option<int>
    decreases b.len() - i,
{
    if i < 1 || i >= b.len() {
        None
    } else if is_crlf(b, i) {
        Some(i)
    } else {
        scan_crlf(b, i + 1)
    }
}

/// The index of the LF of the first CR LF pair in `b`.
pub open spec fn first_crlf(b: Seq<u8>) -> Option<int> {
    scan_crlf(b, 1)
}

pub open spec fn is_digit(c: u8) -> bool {
    48 <= c <= 57
}

pub open spec fn all_digits(s: Seq<u8>) -> bool {
    forall|i: int| 0 <= i < s.len() ==> is_digit(#[trigger] s[i])
}

/// The number that a string of ASCII digits writes in decimal.
pub open spec fn digits_value(s: Seq<u8>) -> nat
    decreases s.len(),
{
    if s.len() == 0 {
        0
    } else {
        digits_value(s.drop_last()) * 10 + (s.last() - 48) as nat
    }
}

/// `s` is a non-empty decimal numeral whose value fits in an `i64`.
pub open spec fn int_ok(s: Seq<u8>) -> bool {
    s.len() > 0 && all_digits(s) && digits_value(s) <= i64::MAX
}

/// Returns the slice before the first CR LF pair and the number of bytes up to
/// and including its LF, or `None` when `buffer` holds no such pair.
pub fn read_until_crlf(buffer: &[u8]) -> (r: Option<(&[u8], usize)>)
    ensures
        match first_crlf(buffer@) {
            None => r is None,
            Some(i) => r is Some && r->Some_0.0@ == buffer@.take(i - 1) && r->Some_0.1 == i + 1,
        },
{
    let mut i: usize = 1;
    while i < buffer.len()
        invariant
            1 <= i,
            first_crlf(buffer@) == scan_crlf(buffer@, i as int),
        decreases buffer.len() - i,
    {
        if buffer[i - 1] == 13u8 && buffer[i] == 10u8 {
            return Some((slice_subrange(buffer, 0, i - 1), i + 1));
        }
        i = i + 1;
    }
    None
}

proof fn lemma_digits_prefix(s: Seq<u8>, k: int)
    requires
        all_digits(s),
        0 <= k <= s.len(),
    ensures
        digits_value(s.take(k)) <= digits_value(s),
    decreases s.len(),
{
    if k < s.len() {
        assert(s.drop_last().take(k) =~= s.take(k));
        lemma_digits_prefix(s.drop_last(), k);
    } else {
        assert(s.take(k) =~= s);
    }
}

/// Reads a non-negative decimal integer made of ASCII digits alone.
pub fn parse_int(buffer: &[u8]) -> (r: Result<i64, FrameError>)
    ensures
        r is Ok <==> int_ok(buffer@),
        r is Ok ==> r->Ok_0 == digits_value(buffer@),
        r is Err ==> r->Err_0 == FrameError::Malformed,
{
    if buffer.len() == 0 {
        return Err(FrameError::Malformed);
    }
    let mut acc: i64 = 0;
    let mut i: usize = 0;
    while i < buffer.len()
        invariant
            i <= buffer.len(),
            all_digits(buffer@.take(i as int)),
            0 <= acc,
            acc == digits_value(buffer@.take(i as int)),
        decreases buffer.len() - i,
    {
        let c = buffer[i];
        assert(buffer@.take(i + 1).drop_last() =~= buffer@.take(i as int));
        if c < 48u8 || c > 57u8 {
            return Err(FrameError::Malformed);
        }
        let d = (c - 48u8) as i64;
        if acc > 922337203685477580i64 || (acc == 922337203685477580i64 && d > 7) {
            proof {
                if all_digits(buffer@) {
                    lemma_digits_prefix(buffer@, i + 1);
                }
            }
            return Err(FrameError::Malformed);
        }
        assert(acc * 10 + d <= i64::MAX) by (nonlinear_arith)
            requires
                0 <= d <= 9,
                0 <= acc <= 922337203685477580i64,
                acc == 922337203685477580i64 ==> d <= 7,
        ;
        acc = acc * 10 + d;
        i = i + 1;
        assert(all_digits(buffer@.take(i as int)));
    }
    assert(buffer@.take(i as int) =~= buffer@);
    Ok(acc)
}


/// Puts `fs`, which took `k` bytes, in front of what decoding the rest gave.
pub open spec fn prepend(
    fs: Seq<Frame>,
    k: nat,
    r: Result<(Seq<Frame>, nat), FrameError>,
) -> Result<(Seq<Frame>, nat), FrameError> {
    match r {
        Ok((gs, k2)) => Ok((fs + gs, k + k2)),
        Err(e) => Err(e),
    }
}

/// The array of the decoded items, after a header of `h` bytes.
pub open spec fn as_array(
    r: Result<(Seq<Frame>, nat), FrameError>,
    h: nat,
) -> Result<(Frame, nat), FrameError> {
    match r {
        Ok((items, k)) => Ok((Frame::Array(items), h + k)),
        Err(e) => Err(e),
    }
}

/// Decodes one value from the start of `b`: the value and how many bytes it
/// took, or why there is none.
pub open spec fn decode(b: Seq<u8>) -> Result<(Frame, nat), FrameError>
    decreases b.len(), 0nat
    via decode_decreases
{
    if b.len() == 0 {
        Err(FrameError::Incomplete)
    } else if b[0] != 43 && b[0] != 36 && b[0] != 42 {
        Err(FrameError::Malformed)
    } else {
        match first_crlf(b.drop_first()) {
            None => Err(FrameError::Incomplete),
            Some(i) => {
                let line = b.subrange(1, i);
                let h = (i + 2) as nat;
                if b[0] == 43 {
                    Ok((Frame::Simple(line), h))
                } else if !int_ok(line) {
                    Err(FrameError::Malformed)
                } else if b[0] == 36 {
                    let n = digits_value(line);
                    if b.len() < h + n + 2 {
                        Err(FrameError::Incomplete)
                    } else if b[(h + n) as int] != 13 || b[(h + n + 1) as int] != 10 {
                        Err(FrameError::Malformed)
                    } else {
                        Ok((Frame::Bulk(b.subrange(h as int, (h + n) as int)), h + n + 2))
                    }
                } else {
                    as_array(decode_items(b.skip(h as int), digits_value(line)), h)
                }
            },
        }
    }
}

/// Decodes `n` values one after another from the start of `b`.
pub open spec fn decode_items(b: Seq<u8>, n: nat) -> Result<(Seq<Frame>, nat), FrameError>
    decreases b.len(), n + 1,
{
    if n == 0 {
        Ok((Seq::empty(), 0))
    } else {
        match decode(b) {
            Err(e) => Err(e),
            Ok((f, k)) => if k > b.len() {
                Err(FrameError::Malformed)
            } else {
                prepend(seq![f], k, decode_items(b.skip(k as int), (n - 1) as nat))
            },
        }
    }
}

#[via_fn]
proof fn decode_decreases(b: Seq<u8>) {
    lemma_scan_within(b.drop_first(), 1);
}

proof fn lemma_scan_within(b: Seq<u8>, i: int)
    ensures
        scan_crlf(b, i) matches Some(j) ==> i <= j && is_crlf(b, j),
    decreases b.len() - i,
{
    if 1 <= i < b.len() && !is_crlf(b, i) {
        lemma_scan_within(b, i + 1);
    }
}

/// Reads the header line after the sigil: the line and the header's length.
fn read_header(buffer: &[u8]) -> (r: Option<(&[u8], usize)>)
    requires
        buffer@.len() >= 1,
    ensures
        match first_crlf(buffer@.drop_first()) {
            None => r is None,
            Some(i) => r is Some && r->Some_0.0@ == buffer@.subrange(1, i) && r->Some_0.1 == i + 2
                && 1 <= i && i + 2 <= buffer@.len(),
        },
{
    let tail = slice_subrange(buffer, 1, buffer.len());
    assert(tail@ =~= buffer@.drop_first());
    proof {
        lemma_scan_within(tail@, 1);
    }
    match read_until_crlf(tail) {
        None => None,
        Some((line, len)) => {
            assert(line@ =~= buffer@.subrange(1, len - 1));
            Some((line, len + 1))
        },
    }
}

/// Decodes a simple string from a buffer that starts with `+`.
fn parse_simple_string(buffer: &[u8]) -> (r: Result<(Value, usize), FrameError>)
    requires
        buffer@.len() >= 1,
        buffer@[0] == 43,
    ensures
        decoded_as(buffer@, r),
{
    match read_header(buffer) {
        None => Err(FrameError::Incomplete),
        Some((line, h)) => Ok((Value::SimpleString(slice_to_vec(line)), h)),
    }
}

/// Decodes a bulk string from a buffer that starts with `$`.
fn parse_bulk_string(buffer: &[u8]) -> (r: Result<(Value, usize), FrameError>)
    requires
        buffer@.len() >= 1,
        buffer@[0] == 36,
    ensures
        decoded_as(buffer@, r),
{
    match read_header(buffer) {
        None => Err(FrameError::Incomplete),
        Some((line, h)) => {
            let n = parse_int(line)?;
            let avail = buffer.len() - h;
            if avail < 2 || n as u64 > (avail - 2) as u64 {
                return Err(FrameError::Incomplete);
            }
            let n = n as usize;
            if buffer[h + n] != 13u8 || buffer[h + n + 1] != 10u8 {
                return Err(FrameError::Malformed);
            }
            let payload = slice_to_vec(slice_subrange(buffer, h, h + n));
            Ok((Value::BulkString(payload), h + n + 2))
        },
    }
}

proof fn lemma_prepend_push(fs: Seq<Frame>, p: nat, f: Frame, k: nat, r: Result<(Seq<Frame>, nat), FrameError>)
    ensures
        prepend(fs, p, prepend(seq![f], k, r)) == prepend(fs.push(f), p + k, r),
{
    if let Ok((gs, k2)) = r {
        assert(fs + (seq![f] + gs) =~= fs.push(f) + gs);
    }
}

/// Decodes an array from a buffer that starts with `*`.
fn parse_array(buffer: &[u8]) -> (r: Result<(Value, usize), FrameError>)
    requires
        buffer@.len() >= 1,
        buffer@[0] == 42,
    ensures
        decoded_as(buffer@, r),
    decreases buffer@.len(), 1nat,
{
    let (line, h) = match read_header(buffer) {
        None => {
            return Err(FrameError::Incomplete);
        },
        Some(x) => x,
    };
    let count = parse_int(line)?;
    let ghost b = buffer@;
    let ghost whole = decode_items(b.skip(h as int), count as nat);
    let mut items: Vec<Value> = Vec::new();
    let ghost mut frames: Seq<Frame> = Seq::empty();
    let mut pos: usize = h;
    let mut i: i64 = 0;
    assert(prepend(frames, 0, whole) =~= whole) by {
        if let Ok((gs, k)) = whole {
            assert(frames + gs =~= gs);
        }
    }
    assert(decode(b) == as_array(whole, h as nat));
    while i < count
        invariant
            b == buffer@,
            decode(b) == as_array(whole, h as nat),
            0 <= i <= count,
            h <= pos <= buffer@.len(),
            h >= 3,
            items@.len() == frames.len(),
            forall|j: int| 0 <= j < frames.len() ==> frames[j] == (#[trigger] items@[j])@,
            whole == decode_items(b.skip(h as int), count as nat),
            whole == prepend(frames, (pos - h) as nat, decode_items(b.skip(pos as int), (count - i) as nat)),
        decreases count - i,
    {
        let rest = slice_subrange(buffer, pos, buffer.len());
        assert(rest@ =~= b.skip(pos as int));
        let ghost m = (count - i) as nat;
        match parse_message(rest) {
            Err(e) => {
                return Err(e);
            },
            Ok((v, k)) => {
                proof {
                    assert(b.skip(pos as int).skip(k as int) =~= b.skip(pos + k));
                    lemma_prepend_push(frames, (pos - h) as nat, v@, k as nat, decode_items(b.skip(pos + k), (m - 1) as nat));
                    frames = frames.push(v@);
                }
                items.push(v);
                pos = pos + k;
                i = i + 1;
                assert((count - i) as nat == (m - 1) as nat);
            },
        }
    }
    let ghost fin = decode_items(b.skip(pos as int), 0);
    assert(prepend(frames, (pos - h) as nat, fin) == Ok::<(Seq<Frame>, nat), FrameError>((frames + Seq::empty(), (pos - h) as nat)));
    assert(frames + Seq::<Frame>::empty() =~= frames);
    let r = Value::Array(items);
    assert(r@->Array_0 =~= frames);
    Ok((r, pos))
}

/// `r` is what `decode` gives on `b`.
pub open spec fn decoded_as(b: Seq<u8>, r: Result<(Value, usize), FrameError>) -> bool {
    match r {
        Ok((v, n)) => decode(b) == Ok::<(Frame, nat), FrameError>((v@, n as nat)) && n <= b.len(),
        Err(e) => decode(b) == Err::<(Frame, nat), FrameError>(e),
    }
}

/// Decodes one value from the start of `buffer`, and says how many bytes it
/// took; a buffer that holds only the start of a value gives
/// `FrameError::Incomplete`.
pub fn parse_message(buffer: &[u8]) -> (r: Result<(Value, usize), FrameError>)
    ensures
        decoded_as(buffer@, r),
    decreases buffer@.len(), 2nat,
{
    if buffer.len() == 0 {
        return Err(FrameError::Incomplete);
    }
    let sigil = buffer[0];
    if sigil == 43u8 {
        parse_simple_string(buffer)
    } else if sigil == 36u8 {
        parse_bulk_string(buffer)
    } else if sigil == 42u8 {
        parse_array(buffer)
    } else {
        Err(FrameError::Malformed)
    }
}

} // verus!
