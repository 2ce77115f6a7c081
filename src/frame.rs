use vstd::prelude::*;
use vstd::utf8::encode_utf8;

verus! {

/// One value of the wire protocol.
#[derive(Debug, PartialEq, Eq)]
pub enum Frame {
    Simple(String),
    Error(String),
    Integer(u64),
    Bulk(Vec<u8>),
    Null,
    Array(Vec<Frame>),
}

/// The mathematical model of a [`Frame`]: text as characters, bulk payloads
/// as bytes, arrays as sequences of models.
pub enum FrameView {
    Simple(Seq<char>),
    Error(Seq<char>),
    Integer(u64),
    Bulk(Seq<u8>),
    Null,
    Array(Seq<FrameView>),
}

impl View for Frame {
    type V = FrameView;

    open spec fn view(&self) -> FrameView {
        frame_view(*self)
    }
}

/// The model of a frame.
pub open spec fn frame_view(f: Frame) -> FrameView
    decreases f,
{
    match f {
        Frame::Simple(s) => FrameView::Simple(s@),
        Frame::Error(s) => FrameView::Error(s@),
        Frame::Integer(n) => FrameView::Integer(n),
        Frame::Bulk(b) => FrameView::Bulk(b@),
        Frame::Null => FrameView::Null,
        Frame::Array(v) => FrameView::Array(views(v@)),
    }
}

/// Models of a sequence of frames.
pub open spec fn views(s: Seq<Frame>) -> Seq<FrameView>
    decreases s,
{
    if s.len() == 0 {
        Seq::empty()
    } else {
        views(s.drop_last()).push(frame_view(s.last()))
    }
}

/// Bytes of the wire format: the line terminator, the type tags, and the
/// digits that a null length uses.
pub const CR: u8 = 13;
pub const LF: u8 = 10;
pub const PLUS: u8 = 43;
pub const MINUS: u8 = 45;
pub const COLON: u8 = 58;
pub const DOLLAR: u8 = 36;
pub const STAR: u8 = 42;
pub const ZERO: u8 = 48;
pub const ONE: u8 = 49;

/// The line terminator.
pub open spec fn crlf() -> Seq<u8> {
    seq![CR, LF]
}

/// Decimal digits of `n`, most significant first, without leading zeros.
pub open spec fn decimal(n: nat) -> Seq<u8>
    decreases n,
{
    if n < 10 {
        seq![(n + 48) as u8]
    } else {
        decimal(n / 10).push(((n % 10) + 48) as u8)
    }
}

/// The wire bytes of a frame model.
pub open spec fn wire(f: FrameView) -> Seq<u8>
    decreases f,
{
    match f {
        FrameView::Simple(s) => seq![PLUS] + encode_utf8(s) + crlf(),
        FrameView::Error(s) => seq![MINUS] + encode_utf8(s) + crlf(),
        FrameView::Integer(n) => seq![COLON] + decimal(n as nat) + crlf(),
        FrameView::Bulk(b) => seq![DOLLAR] + decimal(b.len()) + crlf() + b + crlf(),
        FrameView::Null => seq![DOLLAR, MINUS, ONE] + crlf(),
        FrameView::Array(cs) => seq![STAR] + decimal(cs.len()) + crlf() + wire_all(cs),
    }
}

/// The wire bytes of frame models written back to back.
pub open spec fn wire_all(cs: Seq<FrameView>) -> Seq<u8>
    decreases cs,
{
    if cs.len() == 0 {
        Seq::empty()
    } else {
        wire_all(cs.drop_last()) + wire(cs.last())
    }
}

/// Appends the decimal digits of `n`.
fn push_decimal(out: &mut Vec<u8>, n: u64)
    ensures
        final(out)@ == old(out)@ + decimal(n as nat),
    decreases n,
{
    if n >= 10 {
        push_decimal(out, n / 10);
    }
    out.push((n % 10) as u8 + ZERO);
    assert(final(out)@ =~= old(out)@ + decimal(n as nat));
}

/// Appends bytes.
fn push_bytes(out: &mut Vec<u8>, b: &[u8])
    ensures
        final(out)@ == old(out)@ + b@,
{
    let mut i: usize = 0;
    while i < b.len()
        invariant
            i <= b@.len(),
            out@ == old(out)@ + b@.subrange(0, i as int),
        decreases b.len() - i,
    {
        out.push(b[i]);
        i = i + 1;
        assert(out@ =~= old(out)@ + b@.subrange(0, i as int));
    }
    assert(b@.subrange(0, i as int) =~= b@);
}

/// Appends a line terminator.
fn push_crlf(out: &mut Vec<u8>)
    ensures
        final(out)@ == old(out)@ + crlf(),
{
    out.push(CR);
    out.push(LF);
    assert(final(out)@ =~= old(out)@ + crlf());
}

/// Appends the wire bytes of `f`.
fn encode_into(f: &Frame, out: &mut Vec<u8>)
    ensures
        final(out)@ == old(out)@ + wire(f@),
    decreases f,
{
    let ghost start = out@;
    match f {
        Frame::Simple(s) => {
            out.push(PLUS);
            push_bytes(out, s.as_str().as_bytes());
            push_crlf(out);
            assert(out@ =~= start + wire(f@));
        },
        Frame::Error(s) => {
            out.push(MINUS);
            push_bytes(out, s.as_str().as_bytes());
            push_crlf(out);
            assert(out@ =~= start + wire(f@));
        },
        Frame::Integer(n) => {
            out.push(COLON);
            push_decimal(out, *n);
            push_crlf(out);
            assert(out@ =~= start + wire(f@));
        },
        Frame::Bulk(b) => {
            out.push(DOLLAR);
            push_decimal(out, b.len() as u64);
            push_crlf(out);
            push_bytes(out, b.as_slice());
            push_crlf(out);
            assert(out@ =~= start + wire(f@));
        },
        Frame::Null => {
            out.push(DOLLAR);
            out.push(MINUS);
            out.push(ONE);
            push_crlf(out);
            assert(out@ =~= start + wire(f@));
        },
        Frame::Array(v) => {
            out.push(STAR);
            push_decimal(out, v.len() as u64);
            push_crlf(out);
            let ghost header = out@;
            let mut j: usize = 0;
            assert(v@.subrange(0, 0) =~= Seq::<Frame>::empty());
            assert(header + wire_all(views(v@.subrange(0, 0))) =~= header);
            while j < v.len()
                invariant
                    *f == Frame::Array(*v),
                    j <= v@.len(),
                    out@ == header + wire_all(views(v@.subrange(0, j as int))),
                decreases v.len() - j,
            {
                let ghost before = out@;
                proof {
                    vstd::std_specs::vec::axiom_vec_index_decreases(*v, j as int);
                    assert(decreases_to!(*f => (*f)->Array_0));
                    assert(decreases_to!(*f => v[j as int]));
                }
                encode_into(&v[j], out);
                let ghost sub = v@.subrange(0, j as int + 1);
                assert(sub.drop_last() =~= v@.subrange(0, j as int));
                assert(views(sub).drop_last() =~= views(v@.subrange(0, j as int)));
                assert(out@ =~= header + wire_all(views(sub)));
                j = j + 1;
            }
            assert(v@.subrange(0, j as int) =~= v@);
            proof {
                lemma_views(v@);
            }
            assert(out@ =~= start + wire(f@));
        },
    }
}

/// The wire bytes of `frames` written back to back.
pub fn encode_all(frames: &Vec<Frame>) -> (r: Vec<u8>)
    ensures
        r@ == wire_all(views(frames@)),
{
    let mut out: Vec<u8> = Vec::new();
    let mut j: usize = 0;
    assert(frames@.subrange(0, 0) =~= Seq::<Frame>::empty());
    assert(out@ =~= wire_all(views(frames@.subrange(0, 0))));
    while j < frames.len()
        invariant
            j <= frames@.len(),
            out@ == wire_all(views(frames@.subrange(0, j as int))),
        decreases frames.len() - j,
    {
        encode_into(&frames[j], &mut out);
        let ghost sub = frames@.subrange(0, j as int + 1);
        assert(sub.drop_last() =~= frames@.subrange(0, j as int));
        assert(views(sub).drop_last() =~= views(frames@.subrange(0, j as int)));
        j = j + 1;
    }
    assert(frames@.subrange(0, j as int) =~= frames@);
    out
}

impl Frame {
    /// The wire bytes of this frame.
    pub fn encode(&self) -> (r: Vec<u8>)
        ensures
            r@ == wire(self@),
    {
        let mut out: Vec<u8> = Vec::new();
        encode_into(self, &mut out);
        assert(out@ =~= wire(self@));
        out
    }
}

} // verus!

verus! {

} // verus!

verus! {

/// Each model in `views(s)` is the model of the frame at the same index.
pub proof fn lemma_views(s: Seq<Frame>)
    ensures
        views(s).len() == s.len(),
        forall|i: int| 0 <= i < s.len() ==> #[trigger] views(s)[i] == s[i]@,
    decreases s.len(),
{
    if s.len() > 0 {
        lemma_views(s.drop_last());
    }
}

} // verus!
