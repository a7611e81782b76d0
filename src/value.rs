use vstd::prelude::*;

verus! {

/// A protocol message.
///
/// String payloads are held as raw bytes: a bulk string is binary-safe and may
/// hold any byte, CR and LF included.
#[derive(Debug)]
pub enum Value {
    SimpleString(Vec<u8>),
    BulkString(Vec<u8>),
    Array(Vec<Value>),
    Null,
}

/// The mathematical model of a [`Value`].
pub enum Frame {
    Simple(Seq<u8>),
    Bulk(Seq<u8>),
    Array(Seq<Frame>),
    Null,
}

impl View for Value {
    type V = Frame;

    open spec fn view(&self) -> Frame
        decreases self,
    {
        match self {
            Value::SimpleString(s) => Frame::Simple(s@),
            Value::BulkString(s) => Frame::Bulk(s@),
            Value::Array(items) => Frame::Array(
                Seq::new(
                    items.len() as nat,
                    |i: int|
                        if 0 <= i < items.len() {
                            items[i].view()
                        } else {
                            Frame::Null
                        },
                ),
            ),
            Value::Null => Frame::Null,
        }
    }
}


pub open spec fn crlf() -> Seq<u8> {
    seq![13u8, 10u8]
}

/// The decimal digits of `n`, most significant first, without leading zeros.
pub open spec fn decimal(n: nat) -> Seq<u8>
    decreases n,
{
    if n < 10 {
        seq![(48 + n) as u8]
    } else {
        decimal(n / 10).push((48 + n % 10) as u8)
    }
}

/// The wire bytes of a frame.
pub open spec fn encode(f: Frame) -> Seq<u8>
    decreases f,
{
    match f {
        Frame::Simple(s) => seq![43u8] + s + crlf(),
        Frame::Bulk(s) => seq![36u8] + decimal(s.len()) + crlf() + s + crlf(),
        Frame::Array(items) => seq![42u8] + decimal(items.len()) + crlf() + encode_all(items),
        Frame::Null => seq![36u8, 45u8, 49u8] + crlf(),
    }
}

/// The wire bytes of a sequence of frames, one after another.
pub open spec fn encode_all(items: Seq<Frame>) -> Seq<u8>
    decreases items,
{
    if items.len() == 0 {
        Seq::empty()
    } else {
        encode(items[0]) + encode_all(items.drop_first())
    }
}


/// Appending one frame appends its encoding.
pub proof fn lemma_encode_all_push(items: Seq<Frame>, f: Frame)
    ensures
        encode_all(items.push(f)) == encode_all(items) + encode(f),
    decreases items.len(),
{
    if items.len() == 0 {
        assert(items.push(f).drop_first() =~= Seq::<Frame>::empty());
        assert(encode_all(Seq::<Frame>::empty()) == Seq::<u8>::empty());
        assert(items.push(f)[0] == f);
        assert(encode_all(items.push(f)) =~= encode_all(items) + encode(f));
    } else {
        assert(items.push(f).drop_first() =~= items.drop_first().push(f));
        lemma_encode_all_push(items.drop_first(), f);
        assert(encode_all(items.push(f)) =~= encode_all(items) + encode(f));
    }
}

/// Appends the decimal digits of `n` to `out`.
fn push_decimal(out: &mut Vec<u8>, n: usize)
    ensures
        final(out)@ == old(out)@ + decimal(n as nat),
    decreases n,
{
    if n >= 10 {
        push_decimal(out, n / 10);
    }
    out.push(48u8 + (n % 10) as u8);
    proof {
        assert(old(out)@ + decimal(n as nat) =~= final(out)@) by {
            if n >= 10 {
                assert(decimal(n as nat) == decimal((n / 10) as nat).push((48 + n % 10) as u8));
            }
        }
    }
}

fn push_crlf(out: &mut Vec<u8>)
    ensures
        final(out)@ == old(out)@ + crlf(),
{
    out.push(13u8);
    out.push(10u8);
    assert(final(out)@ =~= old(out)@ + crlf());
}

fn push_bytes(out: &mut Vec<u8>, bytes: &Vec<u8>)
    ensures
        final(out)@ == old(out)@ + bytes@,
{
    let mut i: usize = 0;
    while i < bytes.len()
        invariant
            i <= bytes.len(),
            out@ == old(out)@ + bytes@.take(i as int),
        decreases bytes.len() - i,
    {
        out.push(bytes[i]);
        i = i + 1;
        assert(out@ =~= old(out)@ + bytes@.take(i as int));
    }
    assert(bytes@.take(i as int) =~= bytes@);
}

impl Value {
    /// Appends the wire bytes of this value to `out`.
    pub fn encode_into(&self, out: &mut Vec<u8>)
        ensures
            final(out)@ == old(out)@ + encode(self@),
        decreases self,
    {
        match self {
            Value::SimpleString(s) => {
                out.push(43u8);
                push_bytes(out, s);
                push_crlf(out);
            },
            Value::BulkString(s) => {
                out.push(36u8);
                push_decimal(out, s.len());
                push_crlf(out);
                push_bytes(out, s);
                push_crlf(out);
            },
            Value::Array(items) => {
                out.push(42u8);
                push_decimal(out, items.len());
                push_crlf(out);
                let ghost start = out@;
                let ghost frames = self@->Array_0;
                let mut i: usize = 0;
                while i < items.len()
                    invariant
                        i <= items.len(),
                        self is Array,
                        *items == self->Array_0,
                        frames.len() == items.len(),
                        forall|j: int| 0 <= j < items.len() ==> frames[j] == items[j]@,
                        out@ == start + encode_all(frames.take(i as int)),
                    decreases items.len() - i,
                {
                    proof {
                        assert(decreases_to!(*items => items[i as int]));
                        assert(decreases_to!(*self => self->Array_0));
                    }
                    items[i].encode_into(out);
                    proof {
                        assert(frames.take(i + 1) =~= frames.take(i as int).push(frames[i as int]));
                        lemma_encode_all_push(frames.take(i as int), frames[i as int]);
                    }
                    i = i + 1;
                }
                assert(frames.take(i as int) =~= frames);
            },
            Value::Null => {
                out.push(36u8);
                out.push(45u8);
                out.push(49u8);
                push_crlf(out);
            },
        }
        proof {
            assert(final(out)@ =~= old(out)@ + encode(self@));
        }
    }

    /// The wire bytes of this value.
    pub fn to_string(self) -> (r: Vec<u8>)
        ensures
            r@ == encode(self@),
    {
        let mut out: Vec<u8> = Vec::new();
        self.encode_into(&mut out);
        assert(out@ =~= encode(self@));
        out
    }
}

} // verus!
