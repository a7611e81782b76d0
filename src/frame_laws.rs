use vstd::prelude::*;

use crate::codec::{
    all_digits, decode, decode_items, digits_value, first_crlf, int_ok, is_crlf, scan_crlf,
    FrameError,
};
use crate::value::{crlf, decimal, encode, encode_all, Frame};

verus! {

/// The decimal digits of `n` read back as `n`.
pub proof fn lemma_decimal(n: nat)
    ensures
        decimal(n).len() >= 1,
        all_digits(decimal(n)),
        digits_value(decimal(n)) == n,
    decreases n,
{
    if n >= 10 {
        lemma_decimal(n / 10);
        let d = decimal(n);
        assert(d.drop_last() =~= decimal(n / 10));
        assert(d.last() == (48 + n % 10) as u8);
        assert((n / 10) * 10 + n % 10 == n) by (nonlinear_arith);
        assert(digits_value(d) == digits_value(decimal(n / 10)) * 10 + (d.last() - 48) as nat);
        assert(all_digits(d)) by {
            assert forall|i: int| 0 <= i < d.len() implies #[trigger] crate::codec::is_digit(d[i]) by {
                if i < d.len() - 1 {
                    assert(d[i] == decimal(n / 10)[i]);
                }
            }
        }
    } else {
        assert(decimal(n).drop_last() =~= Seq::<u8>::empty());
        assert(digits_value(decimal(n)) == digits_value(decimal(n).drop_last()) * 10 + (decimal(n).last() - 48) as nat);
    }
}

/// In `t`, whose bytes before `m` are not CR, the first line ends at `m + 1`
/// when `t[m]`, `t[m + 1]` are CR LF, and no line ends while `t` is no longer
/// than `m + 1`.
proof fn lemma_scan_line(t: Seq<u8>, i: int, m: int)
    requires
        1 <= i,
        0 <= m,
        forall|j: int| 0 <= j < t.len() && j < m ==> t[j] != 13,
    ensures
        t.len() <= m + 1 ==> scan_crlf(t, i) is None,
        t.len() > m + 1 && t[m] == 13 && t[m + 1] == 10 && i <= m + 1 ==> scan_crlf(t, i) == Some(m + 1),
    decreases t.len() - i,
{
    if i < t.len() {
        if i < m + 1 {
            assert(!is_crlf(t, i));
        }
        lemma_scan_line(t, i + 1, m);
    }
}

/// A frame that may stand in a request: a bulk string whose length fits in
/// an `i64`, or a simple string without CR or LF.
pub open spec fn is_flat(f: Frame) -> bool {
    match f {
        Frame::Bulk(s) => s.len() <= i64::MAX,
        Frame::Simple(s) => forall|i: int| 0 <= i < s.len() ==> s[i] != 13 && s[i] != 10,
        _ => false,
    }
}

proof fn lemma_digits_no_cr(d: Seq<u8>)
    requires
        all_digits(d),
    ensures
        forall|j: int| 0 <= j < d.len() ==> d[j] != 13,
{
    assert forall|j: int| 0 <= j < d.len() implies d[j] != 13 by {
        assert(crate::codec::is_digit(d[j]));
    }
}

/// A flat frame followed by anything decodes as itself, taking its whole
/// encoding.
pub proof fn lemma_flat_decode(f: Frame, s: Seq<u8>)
    requires
        is_flat(f),
    ensures
        decode(encode(f) + s) == Ok::<(Frame, nat), FrameError>((f, encode(f).len())),
{
    let b = encode(f) + s;
    let t = b.drop_first();
    match f {
        Frame::Bulk(p) => {
            let d = decimal(p.len());
            lemma_decimal(p.len());
            lemma_digits_no_cr(d);
            let m = d.len() as int;
            assert(t =~= d + crlf() + p + crlf() + s);
            lemma_scan_line(t, 1, m);
            assert(first_crlf(t) == Some(m + 1));
            assert(b.subrange(1, m + 1) =~= d);
            assert(int_ok(d));
            let h = m + 3;
            assert(b.subrange(h, h + p.len()) =~= p);
            assert(b[h + p.len()] == 13);
            assert(b[h + p.len() + 1] == 10);
        },
        Frame::Simple(p) => {
            let m = p.len() as int;
            assert(t =~= p + crlf() + s);
            lemma_scan_line(t, 1, m);
            assert(b.subrange(1, m + 1) =~= p);
        },
        _ => {},
    }
}

/// Every proper prefix of the encoding of a flat frame is incomplete.
pub proof fn lemma_flat_prefix(f: Frame, k: int)
    requires
        is_flat(f),
        0 <= k < encode(f).len(),
    ensures
        decode(encode(f).take(k)) == Err::<(Frame, nat), FrameError>(FrameError::Incomplete),
{
    let e = encode(f);
    let b = e.take(k);
    if k > 0 {
        let t = b.drop_first();
        match f {
            Frame::Bulk(p) => {
                let d = decimal(p.len());
                lemma_decimal(p.len());
                lemma_digits_no_cr(d);
                let m = d.len() as int;
                assert(e =~= seq![36u8] + d + crlf() + p + crlf());
                assert forall|j: int| 0 <= j < t.len() && j < m implies t[j] != 13 by {
                    assert(t[j] == d[j]);
                }
                if k <= m + 2 {
                    lemma_scan_line(t, 1, m);
                } else {
                    assert(t[m] == 13);
                    assert(t[m + 1] == 10);
                    lemma_scan_line(t, 1, m);
                    assert(b.subrange(1, m + 1) =~= d);
                }
            },
            Frame::Simple(p) => {
                let m = p.len() as int;
                assert(e =~= seq![43u8] + p + crlf());
                assert forall|j: int| 0 <= j < t.len() && j < m implies t[j] != 13 by {
                    assert(t[j] == p[j]);
                }
                lemma_scan_line(t, 1, m);
            },
            _ => {},
        }
    }
}


/// Flat frames one after another, followed by anything, decode as themselves.
pub proof fn lemma_items_decode(items: Seq<Frame>, s: Seq<u8>)
    requires
        forall|i: int| 0 <= i < items.len() ==> is_flat(#[trigger] items[i]),
    ensures
        decode_items(encode_all(items) + s, items.len()) == Ok::<(Seq<Frame>, nat), FrameError>(
            (items, encode_all(items).len()),
        ),
    decreases items.len(),
{
    let b = encode_all(items) + s;
    if items.len() == 0 {
        assert(items =~= Seq::<Frame>::empty());
    } else {
        let e = items[0];
        let rest = items.drop_first();
        let ee = encode(e);
        assert(is_flat(e));
        assert(b =~= ee + (encode_all(rest) + s));
        lemma_flat_decode(e, encode_all(rest) + s);
        assert(b.skip(ee.len() as int) =~= encode_all(rest) + s);
        assert forall|i: int| 0 <= i < rest.len() implies is_flat(#[trigger] rest[i]) by {
            assert(rest[i] == items[i + 1]);
        }
        lemma_items_decode(rest, s);
        assert(seq![e] + rest =~= items);
    }
}

/// Every proper prefix of flat frames one after another is incomplete.
pub proof fn lemma_items_prefix(items: Seq<Frame>, k: int)
    requires
        forall|i: int| 0 <= i < items.len() ==> is_flat(#[trigger] items[i]),
        0 <= k < encode_all(items).len(),
    ensures
        decode_items(encode_all(items).take(k), items.len()) == Err::<(Seq<Frame>, nat), FrameError>(
            FrameError::Incomplete,
        ),
    decreases items.len(),
{
    if items.len() == 0 {
        assert(encode_all(items).len() == 0);
    } else {
        let e = items[0];
        let rest = items.drop_first();
        let ee = encode(e);
        let b = encode_all(items).take(k);
        assert(is_flat(e));
        if k < ee.len() {
            assert(b =~= ee.take(k));
            lemma_flat_prefix(e, k);
        } else {
            let r = encode_all(rest).take(k - ee.len());
            assert(b =~= ee + r);
            lemma_flat_decode(e, r);
            assert(b.skip(ee.len() as int) =~= r);
            assert forall|i: int| 0 <= i < rest.len() implies is_flat(#[trigger] rest[i]) by {
                assert(rest[i] == items[i + 1]);
            }
            lemma_items_prefix(rest, k - ee.len());
        }
    }
}

/// Encoding a bulk string, whatever bytes it holds, and decoding the result,
/// followed by anything, gives the same bulk string back and takes exactly the
/// encoded bytes.
pub proof fn law_bulk_round_trip(payload: Seq<u8>, rest: Seq<u8>)
    requires
        payload.len() <= i64::MAX,
    ensures
        decode(encode(Frame::Bulk(payload)) + rest) == Ok::<(Frame, nat), FrameError>(
            (Frame::Bulk(payload), encode(Frame::Bulk(payload)).len()),
        ),
{
    lemma_flat_decode(Frame::Bulk(payload), rest);
}

/// An array of bulk and simple strings, followed by anything, decodes as
/// itself, and takes its header and the encodings of its elements, no more.
pub proof fn law_array_decode(items: Seq<Frame>, rest: Seq<u8>)
    requires
        items.len() <= i64::MAX,
        forall|i: int| 0 <= i < items.len() ==> is_flat(#[trigger] items[i]),
    ensures
        decode(encode(Frame::Array(items)) + rest) == Ok::<(Frame, nat), FrameError>(
            (Frame::Array(items), encode(Frame::Array(items)).len()),
        ),
        encode(Frame::Array(items)).len() == decimal(items.len()).len() + 3 + encode_all(items).len(),
{
    let d = decimal(items.len());
    lemma_decimal(items.len());
    lemma_digits_no_cr(d);
    let m = d.len() as int;
    let b = encode(Frame::Array(items)) + rest;
    let t = b.drop_first();
    assert(t =~= d + crlf() + encode_all(items) + rest);
    lemma_scan_line(t, 1, m);
    assert(b.subrange(1, m + 1) =~= d);
    assert(b.skip(m + 3) =~= encode_all(items) + rest);
    lemma_items_decode(items, rest);
}

/// A short read of such an array is incomplete, and once the remaining bytes
/// are appended the buffer decodes as the whole encoding does.
pub proof fn law_array_short_read(items: Seq<Frame>, k: int)
    requires
        items.len() <= i64::MAX,
        forall|i: int| 0 <= i < items.len() ==> is_flat(#[trigger] items[i]),
        0 <= k < encode(Frame::Array(items)).len(),
    ensures
        decode(encode(Frame::Array(items)).take(k)) == Err::<(Frame, nat), FrameError>(FrameError::Incomplete),
        decode(encode(Frame::Array(items)).take(k) + encode(Frame::Array(items)).skip(k)) == decode(
            encode(Frame::Array(items)),
        ),
{
    let e = encode(Frame::Array(items));
    assert(e.take(k) + e.skip(k) =~= e);
    let d = decimal(items.len());
    lemma_decimal(items.len());
    lemma_digits_no_cr(d);
    let m = d.len() as int;
    let b = e.take(k);
    if k > 0 {
        let t = b.drop_first();
        assert(e =~= seq![42u8] + d + crlf() + encode_all(items));
        assert forall|j: int| 0 <= j < t.len() && j < m implies t[j] != 13 by {
            assert(t[j] == d[j]);
        }
        if k <= m + 2 {
            lemma_scan_line(t, 1, m);
        } else {
            assert(t[m] == 13);
            assert(t[m + 1] == 10);
            lemma_scan_line(t, 1, m);
            assert(b.subrange(1, m + 1) =~= d);
            assert(b.skip(m + 3) =~= encode_all(items).take(k - m - 3));
            lemma_items_prefix(items, k - m - 3);
        }
    }
}

} // verus!
