use vstd::prelude::*;
use vstd::utf8::{encode_utf8, encode_utf8_decode_utf8, encode_utf8_valid_utf8};

use crate::decode::{
    all_digits, crlf_at, digits_value, frame_at, frames_from, has_line_terminator, is_digit, items_at,
    lemma_crlf_from_text, lemma_line_end, line_end, null_marker, number, MAX_DEPTH,
};
use crate::frame::{crlf, decimal, wire, wire_all, FrameView, CR, LF, ZERO};

verus! {

/// The decimal digits of `n` are digits, and read back as `n`.
pub proof fn lemma_decimal(n: nat)
    ensures
        decimal(n).len() > 0,
        all_digits(decimal(n)),
        digits_value(decimal(n)) == n,
    decreases n,
{
    if n >= 10 {
        lemma_decimal(n / 10);
        let s = decimal(n);
        assert(s.drop_last() =~= decimal(n / 10));
        assert(n == (n / 10) * 10 + n % 10);
        assert(s.last() == ((n % 10) + 48) as u8);
        assert(s.last() - ZERO == n % 10);
        assert(digits_value(s) == digits_value(decimal(n / 10)) * 10 + n % 10);
    } else {
        let s = decimal(n);
        assert(s.drop_last() =~= Seq::<u8>::empty());
        assert(digits_value(s.drop_last()) == 0);
        assert(s.last() - ZERO == n);
    }
}

/// The first line terminator at or after `from` is the one at `e` when none
/// stands between them.
pub proof fn lemma_line_end_at(b: Seq<u8>, from: int, e: int)
    requires
        0 <= from <= e,
        crlf_at(b, e),
        forall|j: int| from <= j < e ==> !crlf_at(b, j),
    ensures
        line_end(b, from) == Some(e),
{
    lemma_line_end(b, from);
}

/// Frames that decoding gives back from their own encoding: text without a
/// line terminator, lengths that fit in a `usize`, and arrays nested at most
/// `depth` levels.
pub open spec fn encodable(f: FrameView, depth: nat) -> bool
    decreases depth,
{
    match f {
        FrameView::Simple(s) => !has_line_terminator(s),
        FrameView::Error(s) => !has_line_terminator(s),
        FrameView::Integer(_) => true,
        FrameView::Bulk(b) => b.len() <= usize::MAX,
        FrameView::Null => true,
        FrameView::Array(cs) => cs.len() <= usize::MAX && depth > 0 && forall|i: int|
            0 <= i < cs.len() ==> encodable(#[trigger] cs[i], (depth - 1) as nat),
    }
}

/// The encoding of frames back to back starts with the first one.
pub proof fn lemma_wire_all_first(cs: Seq<FrameView>)
    requires
        cs.len() > 0,
    ensures
        wire_all(cs) == wire(cs[0]) + wire_all(cs.drop_first()),
    decreases cs.len(),
{
    if cs.len() == 1 {
        assert(cs.drop_last() =~= Seq::<FrameView>::empty());
        assert(cs.drop_first() =~= Seq::<FrameView>::empty());
        assert(wire(cs[0]) + Seq::<u8>::empty() =~= wire(cs[0]));
        assert(Seq::<u8>::empty() + wire(cs[0]) =~= wire(cs[0]));
    } else {
        let dl = cs.drop_last();
        lemma_wire_all_first(dl);
        assert(cs.drop_first().drop_last() =~= dl.drop_first());
        assert(cs.drop_first().last() == cs.last());
        assert(dl[0] == cs[0]);
        assert(wire_all(cs) =~= wire(cs[0]) + wire_all(cs.drop_first()));
    }
}

/// A header line: a tag, then `x`, which holds no line terminator, then a
/// line terminator.
proof fn lemma_header(b: Seq<u8>, pos: int, x: Seq<u8>)
    requires
        0 <= pos,
        pos + 1 + x.len() + 2 <= b.len(),
        b.subrange(pos + 1, pos + 1 + x.len()) == x,
        b[pos + 1 + x.len()] == CR,
        b[pos + 2 + x.len()] == LF,
        forall|j: int| !crlf_at(x, j),
    ensures
        line_end(b, pos + 1) == Some(pos + 1 + x.len()),
{
    let e = pos + 1 + x.len();
    assert forall|j: int| pos + 1 <= j < e implies !crlf_at(b, j) by {
        if crlf_at(b, j) {
            if j + 1 < e {
                assert(b[j] == x[j - pos - 1] && b[j + 1] == x[j - pos]);
                assert(crlf_at(x, j - pos - 1));
            }
        }
    }
    lemma_line_end_at(b, pos + 1, e);
}

/// Where an encoding `[tag] + x + rest` stands in a buffer, `x` and `rest`
/// stand right after the tag.
proof fn lemma_parts(b: Seq<u8>, pos: int, tag: u8, x: Seq<u8>, rest: Seq<u8>)
    requires
        0 <= pos,
        pos + 1 + x.len() + rest.len() <= b.len(),
        b.subrange(pos, pos + 1 + x.len() + rest.len()) == seq![tag] + x + rest,
    ensures
        b[pos] == tag,
        b.subrange(pos + 1, pos + 1 + x.len()) == x,
        b.subrange(pos + 1 + x.len(), pos + 1 + x.len() + rest.len()) == rest,
        forall|k: int| 0 <= k < rest.len() ==> b[pos + 1 + x.len() + k] == #[trigger] rest[k],
{
    let w = seq![tag] + x + rest;
    assert forall|k: int| 0 <= k < w.len() implies b[pos + k] == w[k] by {
        assert(b.subrange(pos, pos + w.len())[k] == b[pos + k]);
    }
    assert(b[pos] == w[0]);
    assert forall|k: int| 0 <= k < x.len() implies b[pos + 1 + k] == x[k] by {
        assert(w[1 + k] == x[k]);
    }
    assert(b.subrange(pos + 1, pos + 1 + x.len()) =~= x);
    assert forall|k: int| 0 <= k < rest.len() implies b[pos + 1 + x.len() + k] == rest[k] by {
        assert(w[1 + x.len() + k] == rest[k]);
    }
    assert(b.subrange(pos + 1 + x.len(), pos + 1 + x.len() + rest.len()) =~= rest);
}

/// Digits hold no line terminator.
proof fn lemma_digits_no_crlf(x: Seq<u8>)
    requires
        all_digits(x),
    ensures
        forall|j: int| !crlf_at(x, j),
{
    assert forall|j: int| !crlf_at(x, j) by {
        if crlf_at(x, j) {
            assert(is_digit(x[j]));
        }
    }
}

/// The encoding of text without a line terminator holds none either.
proof fn lemma_text_no_crlf(s: Seq<char>)
    requires
        !has_line_terminator(s),
    ensures
        forall|j: int| !crlf_at(encode_utf8(s), j),
{
    assert forall|j: int| !crlf_at(encode_utf8(s), j) by {
        if crlf_at(encode_utf8(s), j) {
            lemma_crlf_from_text(s, j);
        }
    }
}

/// Decoding the encoding of a frame, wherever it stands in a buffer, gives
/// the frame back and ends just past its encoding.
pub proof fn lemma_frame_round_trip(b: Seq<u8>, pos: int, f: FrameView, depth: nat)
    requires
        encodable(f, depth),
        0 <= pos,
        pos + wire(f).len() <= b.len(),
        b.subrange(pos, pos + wire(f).len()) == wire(f),
    ensures
        frame_at(b, pos, depth) == Ok::<(FrameView, int), crate::decode::Error>(
            (f, pos + wire(f).len()),
        ),
    decreases depth, 0nat, 0nat,
{
    let w = wire(f);
    assert forall|k: int| 0 <= k < w.len() implies b[pos + k] == w[k] by {
        assert(b.subrange(pos, pos + w.len())[k] == b[pos + k]);
    }
    assert(b[pos] == w[0]);
    match f {
        FrameView::Simple(s) => {
            let u = encode_utf8(s);
            lemma_text_no_crlf(s);
            lemma_parts(b, pos, w[0], u, crlf());
            lemma_header(b, pos, u);
            encode_utf8_valid_utf8(s);
            encode_utf8_decode_utf8(s);
        },
        FrameView::Error(s) => {
            let u = encode_utf8(s);
            lemma_text_no_crlf(s);
            lemma_parts(b, pos, w[0], u, crlf());
            lemma_header(b, pos, u);
            encode_utf8_valid_utf8(s);
            encode_utf8_decode_utf8(s);
        },
        FrameView::Integer(n) => {
            let x = decimal(n as nat);
            lemma_decimal(n as nat);
            lemma_digits_no_crlf(x);
            lemma_parts(b, pos, w[0], x, crlf());
            lemma_header(b, pos, x);
        },
        FrameView::Bulk(payload) => {
            let x = decimal(payload.len());
            lemma_decimal(payload.len());
            lemma_digits_no_crlf(x);
            let r = crlf() + payload + crlf();
            assert(w =~= seq![w[0]] + x + r);
            lemma_parts(b, pos, w[0], x, r);
            assert(r[0] == CR && r[1] == LF);
            lemma_header(b, pos, x);
            let next = pos + 1 + x.len() + 2;
            assert(x != null_marker()) by {
                assert(is_digit(x[0]));
            }
            assert forall|k: int| 0 <= k < payload.len() implies b[next + k] == payload[k] by {
                assert(r[2 + k] == payload[k]);
            }
            assert(b.subrange(next, next + payload.len()) =~= payload);
            assert(r[2 + payload.len() as int] == CR);
            assert(r[3 + payload.len() as int] == LF);
            assert(b[next + payload.len()] == CR);
            assert(b[next + payload.len() + 1] == LF);
        },
        FrameView::Null => {
            let x = null_marker();
            assert(w =~= seq![w[0]] + x + crlf());
            lemma_parts(b, pos, w[0], x, crlf());
            lemma_header(b, pos, x);
        },
        FrameView::Array(cs) => {
            let x = decimal(cs.len());
            lemma_decimal(cs.len());
            lemma_digits_no_crlf(x);
            let body = wire_all(cs);
            assert(w =~= seq![w[0]] + x + (crlf() + body));
            lemma_parts(b, pos, w[0], x, crlf() + body);
            assert((crlf() + body)[0] == CR && (crlf() + body)[1] == LF);
            lemma_header(b, pos, x);
            let next = pos + 1 + x.len() + 2;
            assert(x != null_marker()) by {
                assert(is_digit(x[0]));
            }
            assert forall|k: int| 0 <= k < body.len() implies b[next + k] == body[k] by {
                assert((crlf() + body)[2 + k] == body[k]);
            }
            assert(b.subrange(next, next + body.len()) =~= body);
            lemma_items_round_trip(b, next, cs, (depth - 1) as nat);
        },
    }
}

/// Decoding the encodings of frames written back to back gives the frames
/// back, in order, and ends just past the last encoding.
pub proof fn lemma_items_round_trip(b: Seq<u8>, pos: int, cs: Seq<FrameView>, depth: nat)
    requires
        forall|i: int| 0 <= i < cs.len() ==> encodable(#[trigger] cs[i], depth),
        0 <= pos,
        pos + wire_all(cs).len() <= b.len(),
        b.subrange(pos, pos + wire_all(cs).len()) == wire_all(cs),
    ensures
        items_at(b, pos, cs.len(), depth) == Ok::<(Seq<FrameView>, int), crate::decode::Error>(
            (cs, pos + wire_all(cs).len()),
        ),
    decreases depth, 1nat, cs.len(),
{
    if cs.len() == 0 {
        assert(cs =~= Seq::<FrameView>::empty());
    } else {
        lemma_wire_all_first(cs);
        let w0 = wire(cs[0]);
        let rest = cs.drop_first();
        let wr = wire_all(rest);
        assert(b.subrange(pos, pos + w0.len()) =~= w0) by {
            assert(b.subrange(pos, pos + w0.len()) =~= wire_all(cs).subrange(0, w0.len() as int));
        }
        lemma_frame_round_trip(b, pos, cs[0], depth);
        assert(b.subrange(pos + w0.len(), pos + w0.len() + wr.len()) =~= wr) by {
            assert(b.subrange(pos + w0.len(), pos + w0.len() + wr.len()) =~= wire_all(cs).subrange(
                w0.len() as int,
                wire_all(cs).len() as int,
            ));
        }
        lemma_items_round_trip(b, pos + w0.len(), rest, depth);
        assert(seq![cs[0]] + rest =~= cs);
    }
}

/// Decoding the encoding of a frame that nests arrays at most
/// [`MAX_DEPTH`] levels and holds no line terminator in its text gives the
/// frame back and consumes the whole encoding.
pub proof fn lemma_round_trip(f: FrameView)
    requires
        encodable(f, MAX_DEPTH as nat),
    ensures
        frame_at(wire(f), 0, MAX_DEPTH as nat) == Ok::<(FrameView, int), crate::decode::Error>(
            (f, wire(f).len() as int),
        ),
{
    assert(wire(f).subrange(0, wire(f).len() as int) =~= wire(f));
    lemma_frame_round_trip(wire(f), 0, f, MAX_DEPTH as nat);
}

/// Encoding a simple frame whose text holds no line terminator and decoding
/// the bytes gives the same frame back, and consumes all of them.
pub proof fn lemma_simple_round_trip(p: Seq<char>)
    requires
        !has_line_terminator(p),
    ensures
        frame_at(wire(FrameView::Simple(p)), 0, MAX_DEPTH as nat) == Ok::<
            (FrameView, int),
            crate::decode::Error,
        >((FrameView::Simple(p), wire(FrameView::Simple(p)).len() as int)),
        frames_from(wire(FrameView::Simple(p)), 0) == Ok::<Seq<FrameView>, crate::decode::Error>(
            seq![FrameView::Simple(p)],
        ),
{
    let f = FrameView::Simple(p);
    let b = wire(f);
    lemma_round_trip(f);
    assert(frames_from(b, b.len() as int) == Ok::<Seq<FrameView>, crate::decode::Error>(
        Seq::empty(),
    ));
    assert(seq![f] + Seq::<FrameView>::empty() =~= seq![f]);
}

/// Decoding a buffer that holds exactly the encodings of frames, back to
/// back, gives those frames back in order.
pub proof fn lemma_buffer_round_trip(b: Seq<u8>, pos: int, fs: Seq<FrameView>)
    requires
        forall|i: int| 0 <= i < fs.len() ==> encodable(#[trigger] fs[i], MAX_DEPTH as nat),
        0 <= pos <= b.len(),
        b.subrange(pos, b.len() as int) == wire_all(fs),
    ensures
        frames_from(b, pos) == Ok::<Seq<FrameView>, crate::decode::Error>(fs),
    decreases fs.len(),
{
    if fs.len() == 0 {
        assert(fs =~= Seq::<FrameView>::empty());
    } else {
        lemma_wire_all_first(fs);
        let w0 = wire(fs[0]);
        let rest = fs.drop_first();
        assert(w0.len() > 0);
        assert(b.subrange(pos, pos + w0.len()) =~= w0) by {
            assert(b.subrange(pos, pos + w0.len()) =~= wire_all(fs).subrange(0, w0.len() as int));
        }
        lemma_frame_round_trip(b, pos, fs[0], MAX_DEPTH as nat);
        assert(b.subrange(pos + w0.len(), b.len() as int) =~= wire_all(rest)) by {
            assert(b.subrange(pos + w0.len(), b.len() as int) =~= wire_all(fs).subrange(
                w0.len() as int,
                wire_all(fs).len() as int,
            ));
        }
        lemma_buffer_round_trip(b, pos + w0.len(), rest);
        assert(seq![fs[0]] + rest =~= fs);
    }
}

/// Decoding what [`encode_all`](crate::frame::encode_all) writes for
/// encodable frames gives the frames back.
pub proof fn lemma_encode_all_round_trip(fs: Seq<FrameView>)
    requires
        forall|i: int| 0 <= i < fs.len() ==> encodable(#[trigger] fs[i], MAX_DEPTH as nat),
    ensures
        frames_from(wire_all(fs), 0) == Ok::<Seq<FrameView>, crate::decode::Error>(fs),
{
    assert(wire_all(fs).subrange(0, wire_all(fs).len() as int) =~= wire_all(fs));
    lemma_buffer_round_trip(wire_all(fs), 0, fs);
}

} // verus!
