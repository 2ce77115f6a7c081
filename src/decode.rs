use vstd::prelude::*;
use vstd::utf8::{char_u32_cast, decode_utf8, encode_scalar, encode_utf8, valid_utf8};

use crate::frame::{views, Frame, FrameView, CR, LF, PLUS, MINUS, COLON, DOLLAR, STAR, ZERO, ONE};

verus! {

/// Nesting depth of arrays that the decoder accepts.
pub const MAX_DEPTH: usize = 64;

/// Why a buffer could not be decoded, with the byte offset where the
/// offending part starts.
#[derive(Debug, Clone, Copy, PartialEq, Eq, Structural)]
pub enum Error {
    /// The leading byte of a frame is not one of `+ - : $ *`.
    UnknownType { tag: u8, offset: usize },
    /// The input ends before the frame does.
    Truncated { offset: usize },
    /// The text of an integer frame is not a decimal number that fits in 64 bits.
    MalformedInteger { offset: usize },
    /// A length or count is neither `-1` nor a decimal number that fits in a `usize`.
    MalformedLength { offset: usize },
    /// The text of a simple or error frame is not UTF-8.
    InvalidText { offset: usize },
    /// A bulk payload is not followed by a line terminator.
    MissingTerminator { offset: usize },
    /// Arrays are nested deeper than [`MAX_DEPTH`].
    TooDeep { offset: usize },
}

/// Whether a line terminator starts at index `i`.
pub open spec fn crlf_at(b: Seq<u8>, i: int) -> bool {
    0 <= i && i + 1 < b.len() && b[i] == CR && b[i + 1] == LF
}

/// Index of the first line terminator at or after `from`.
pub open spec fn line_end(b: Seq<u8>, from: int) -> Option<int>
    decreases b.len() - from,
{
    if from < 0 || from + 1 >= b.len() {
        None
    } else if crlf_at(b, from) {
        Some(from)
    } else {
        line_end(b, from + 1)
    }
}

/// Whether a byte is an ASCII decimal digit.
pub open spec fn is_digit(c: u8) -> bool {
    ZERO <= c && c <= ZERO + 9
}

pub open spec fn all_digits(s: Seq<u8>) -> bool {
    forall|i: int| 0 <= i < s.len() ==> is_digit(#[trigger] s[i])
}

/// The value of a run of digits, most significant first.
pub open spec fn digits_value(s: Seq<u8>) -> nat
    decreases s.len(),
{
    if s.len() == 0 {
        0
    } else {
        digits_value(s.drop_last()) * 10 + (s.last() - ZERO) as nat
    }
}

/// The number that `s` writes in decimal, if it writes one.
pub open spec fn number(s: Seq<u8>) -> Option<nat> {
    if s.len() > 0 && all_digits(s) {
        Some(digits_value(s))
    } else {
        None
    }
}

/// The length or count that marks a null frame.
pub open spec fn null_marker() -> Seq<u8> {
    seq![MINUS, ONE]
}

/// Whether a byte is one of the five type tags.
pub open spec fn is_tag(c: u8) -> bool {
    c == PLUS || c == MINUS || c == COLON || c == DOLLAR || c == STAR
}

/// Decoding of one frame that starts at `pos`, with arrays allowed to nest
/// `depth` levels: the frame and the position just past it.
pub open spec fn frame_at(b: Seq<u8>, pos: int, depth: nat) -> Result<(FrameView, int), Error>
    decreases depth, 0nat, 0nat,
{
    if pos < 0 || pos >= b.len() {
        Err(Error::Truncated { offset: pos as usize })
    } else if !is_tag(b[pos]) {
        Err(Error::UnknownType { tag: b[pos], offset: pos as usize })
    } else {
        let tag = b[pos];
        let start = pos + 1;
        match line_end(b, start) {
            None => Err(Error::Truncated { offset: start as usize }),
            Some(e) => {
                let line = b.subrange(start, e);
                let next = e + 2;
                if tag == PLUS || tag == MINUS {
                    if !valid_utf8(line) {
                        Err(Error::InvalidText { offset: start as usize })
                    } else if tag == PLUS {
                        Ok((FrameView::Simple(decode_utf8(line)), next))
                    } else {
                        Ok((FrameView::Error(decode_utf8(line)), next))
                    }
                } else if tag == COLON {
                    match number(line) {
                        Some(n) => if n <= u64::MAX {
                            Ok((FrameView::Integer(n as u64), next))
                        } else {
                            Err(Error::MalformedInteger { offset: start as usize })
                        },
                        None => Err(Error::MalformedInteger { offset: start as usize }),
                    }
                } else if line == null_marker() {
                    Ok((FrameView::Null, next))
                } else {
                    match number(line) {
                        None => Err(Error::MalformedLength { offset: start as usize }),
                        Some(n) => if n > usize::MAX {
                            Err(Error::MalformedLength { offset: start as usize })
                        } else if tag == DOLLAR {
                            if next + n + 2 > b.len() {
                                Err(Error::Truncated { offset: next as usize })
                            } else if !crlf_at(b, next + n) {
                                Err(Error::MissingTerminator { offset: (next + n) as usize })
                            } else {
                                Ok((FrameView::Bulk(b.subrange(next, next + n)), next + n + 2))
                            }
                        } else if depth == 0 {
                            Err(Error::TooDeep { offset: pos as usize })
                        } else {
                            match items_at(b, next, n, (depth - 1) as nat) {
                                Ok((cs, q)) => Ok((FrameView::Array(cs), q)),
                                Err(err) => Err(err),
                            }
                        },
                    }
                }
            },
        }
    }
}

/// Decoding of `n` frames in sequence from `pos`.
pub open spec fn items_at(b: Seq<u8>, pos: int, n: nat, depth: nat) -> Result<
    (Seq<FrameView>, int),
    Error,
>
    decreases depth, 1nat, n,
{
    if n == 0 {
        Ok((Seq::empty(), pos))
    } else {
        match frame_at(b, pos, depth) {
            Err(err) => Err(err),
            Ok((f, p)) => match items_at(b, p, (n - 1) as nat, depth) {
                Err(err) => Err(err),
                Ok((fs, q)) => Ok((seq![f] + fs, q)),
            },
        }
    }
}

/// Decoding of top-level frames from `pos` until the buffer is consumed.
pub open spec fn frames_from(b: Seq<u8>, pos: int) -> Result<Seq<FrameView>, Error>
    decreases b.len() - pos,
{
    if pos < 0 || pos >= b.len() {
        Ok(Seq::empty())
    } else {
        match frame_at(b, pos, MAX_DEPTH as nat) {
            Err(err) => Err(err),
            Ok((f, p)) => {
                proof {
                    lemma_frame_advances(b, pos, MAX_DEPTH as nat);
                }
                match frames_from(b, p) {
                    Err(err) => Err(err),
                    Ok(fs) => Ok(seq![f] + fs),
                }
            },
        }
    }
}

/// The line terminator found is the first one at or after `from`.
pub proof fn lemma_line_end(b: Seq<u8>, from: int)
    requires
        0 <= from,
    ensures
        match line_end(b, from) {
            Some(e) => from <= e && crlf_at(b, e) && forall|j: int|
                from <= j < e ==> !crlf_at(b, j),
            None => forall|j: int| from <= j ==> !crlf_at(b, j),
        },
    decreases b.len() - from,
{
    if from + 1 < b.len() && !crlf_at(b, from) {
        lemma_line_end(b, from + 1);
    }
}

/// A decoded frame is never empty and never runs past the buffer.
pub proof fn lemma_frame_advances(b: Seq<u8>, pos: int, depth: nat)
    ensures
        frame_at(b, pos, depth) matches Ok((_, p)) ==> pos < p <= b.len(),
    decreases depth, 0nat, 0nat,
{
    if 0 <= pos < b.len() && is_tag(b[pos]) {
        lemma_line_end(b, pos + 1);
        if let Some(e) = line_end(b, pos + 1) {
            let line = b.subrange(pos + 1, e);
            if b[pos] == STAR && line != null_marker() && depth > 0 {
                if let Some(n) = number(line) {
                    lemma_items_advance(b, e + 2, n, (depth - 1) as nat);
                }
            }
        }
    }
}

/// Decoding frames in sequence never moves backwards or past the buffer.
pub proof fn lemma_items_advance(b: Seq<u8>, pos: int, n: nat, depth: nat)
    requires
        0 <= pos <= b.len(),
    ensures
        items_at(b, pos, n, depth) matches Ok((_, q)) ==> pos <= q <= b.len(),
    decreases depth, 1nat, n,
{
    if n > 0 {
        lemma_frame_advances(b, pos, depth);
        if let Ok((_, p)) = frame_at(b, pos, depth) {
            lemma_items_advance(b, p, (n - 1) as nat, depth);
        }
    }
}

/// Prefixes the frames of a successful decoding with `acc`.
pub open spec fn prepend(acc: Seq<FrameView>, r: Result<(Seq<FrameView>, int), Error>) -> Result<
    (Seq<FrameView>, int),
    Error,
> {
    match r {
        Ok((fs, q)) => Ok((acc + fs, q)),
        Err(err) => Err(err),
    }
}

/// The model of a decoding result.
pub open spec fn result_view(r: Result<(Frame, usize), Error>) -> Result<(FrameView, int), Error> {
    match r {
        Ok((f, p)) => Ok((f@, p as int)),
        Err(err) => Err(err),
    }
}

/// A prefix of a run of digits never writes a larger number than the whole.
pub proof fn lemma_value_prefix(s: Seq<u8>, k: int)
    requires
        all_digits(s),
        0 <= k <= s.len(),
    ensures
        digits_value(s.subrange(0, k)) <= digits_value(s),
    decreases s.len(),
{
    if k < s.len() {
        let t = s.drop_last();
        assert(t.subrange(0, k) =~= s.subrange(0, k));
        lemma_value_prefix(t, k);
    } else {
        assert(s.subrange(0, k) =~= s);
    }
}

/// Relies on `std::str::from_utf8`: it succeeds exactly on valid UTF-8, and
/// the text it gives back is what those bytes encode.
#[verifier::external_body]
fn text_from_utf8(b: &[u8]) -> (r: Option<String>)
    ensures
        r is Some <==> valid_utf8(b@),
        r matches Some(s) ==> s@ == decode_utf8(b@),
{
    std::str::from_utf8(b).ok().map(|s| s.to_string())
}

/// Finds the first line terminator at or after `from`.
fn find_line_end(b: &[u8], from: usize) -> (r: Option<usize>)
    ensures
        match r {
            Some(e) => line_end(b@, from as int) == Some(e as int),
            None => line_end(b@, from as int) is None,
        },
{
    let mut i = from;
    while i < b.len() && i + 1 < b.len()
        invariant
            from <= i,
            line_end(b@, from as int) == line_end(b@, i as int),
        decreases b.len() - i,
    {
        if b[i] == CR && b[i + 1] == LF {
            return Some(i);
        }
        i = i + 1;
    }
    None
}

/// Reads the decimal number written by `b[start..end]`, if it is one that
/// fits in a `u64`.
fn parse_number(b: &[u8], start: usize, end: usize) -> (r: Option<u64>)
    requires
        start <= end <= b@.len(),
    ensures
        match r {
            Some(v) => number(b@.subrange(start as int, end as int)) == Some(v as nat),
            None => match number(b@.subrange(start as int, end as int)) {
                Some(n) => n > u64::MAX,
                None => true,
            },
        },
{
    let ghost line = b@.subrange(start as int, end as int);
    if start == end {
        return None;
    }
    let mut acc: u64 = 0;
    let mut i = start;
    while i < end
        invariant
            start <= i <= end <= b@.len(),
            line == b@.subrange(start as int, end as int),
            all_digits(b@.subrange(start as int, i as int)),
            acc as nat == digits_value(b@.subrange(start as int, i as int)),
        decreases end - i,
    {
        let c = b[i];
        let ghost prefix = b@.subrange(start as int, i as int + 1);
        assert(prefix.drop_last() =~= b@.subrange(start as int, i as int));
        assert(prefix =~= line.subrange(0, i - start + 1));
        if c < ZERO || c > ZERO + 9 {
            assert(!is_digit(line[i - start]));
            return None;
        }
        let d = (c - ZERO) as u64;
        let step = match acc.checked_mul(10) {
            Some(m) => m.checked_add(d),
            None => None,
        };
        match step {
            None => {
                proof {
                    if all_digits(line) {
                        lemma_value_prefix(line, i - start + 1);
                    }
                }
                return None;
            },
            Some(v) => {
                acc = v;
            },
        }
        i = i + 1;
    }
    assert(line =~= b@.subrange(start as int, i as int));
    Some(acc)
}

/// Copies `b[start..end]`.
fn copy_bytes(b: &[u8], start: usize, end: usize) -> (r: Vec<u8>)
    requires
        start <= end <= b@.len(),
    ensures
        r@ == b@.subrange(start as int, end as int),
{
    let mut r: Vec<u8> = Vec::new();
    let mut i = start;
    while i < end
        invariant
            start <= i <= end <= b@.len(),
            r@ == b@.subrange(start as int, i as int),
        decreases end - i,
    {
        r.push(b[i]);
        i = i + 1;
    }
    r
}

/// Decodes the frame that starts at `pos`, with arrays allowed to nest
/// `depth` levels.
fn decode_frame(buf: &[u8], pos: usize, depth: usize) -> (r: Result<(Frame, usize), Error>)
    ensures
        result_view(r) == frame_at(buf@, pos as int, depth as nat),
        r matches Ok((_, p)) ==> pos < p <= buf@.len(),
    decreases depth,
{
    proof {
        lemma_frame_advances(buf@, pos as int, depth as nat);
    }
    if pos >= buf.len() {
        return Err(Error::Truncated { offset: pos });
    }
    let tag = buf[pos];
    if !(tag == PLUS || tag == MINUS || tag == COLON || tag == DOLLAR || tag == STAR) {
        return Err(Error::UnknownType { tag, offset: pos });
    }
    let start = pos + 1;
    let e = match find_line_end(buf, start) {
        None => {
            return Err(Error::Truncated { offset: start });
        },
        Some(e) => e,
    };
    proof {
        lemma_line_end(buf@, start as int);
    }
    let ghost line = buf@.subrange(start as int, e as int);
    let next = e + 2;
    if tag == PLUS || tag == MINUS {
        match text_from_utf8(&buf[start..e]) {
            None => Err(Error::InvalidText { offset: start }),
            Some(text) => if tag == PLUS {
                Ok((Frame::Simple(text), next))
            } else {
                Ok((Frame::Error(text), next))
            },
        }
    } else if tag == COLON {
        match parse_number(buf, start, e) {
            Some(n) => Ok((Frame::Integer(n), next)),
            None => Err(Error::MalformedInteger { offset: start }),
        }
    } else if e - start == 2 && buf[start] == MINUS && buf[start + 1] == ONE {
        assert(line =~= null_marker());
        Ok((Frame::Null, next))
    } else {
        assert(line != null_marker()) by {
            if line == null_marker() {
                assert(line.len() == 2 && line[0] == MINUS && line[1] == ONE);
            }
        }
        let count = match parse_number(buf, start, e) {
            None => {
                return Err(Error::MalformedLength { offset: start });
            },
            Some(n) => n,
        };
        if count > usize::MAX as u64 {
            return Err(Error::MalformedLength { offset: start });
        }
        let n = count as usize;
        if tag == DOLLAR {
            if n > buf.len() - next || buf.len() - next - n < 2 {
                Err(Error::Truncated { offset: next })
            } else if !(buf[next + n] == CR && buf[next + n + 1] == LF) {
                Err(Error::MissingTerminator { offset: next + n })
            } else {
                let payload = copy_bytes(buf, next, next + n);
                Ok((Frame::Bulk(payload), next + n + 2))
            }
        } else if depth == 0 {
            Err(Error::TooDeep { offset: pos })
        } else {
            let ghost d = (depth - 1) as nat;
            let mut items: Vec<Frame> = Vec::new();
            let mut p = next;
            let mut i: usize = 0;
            while i < n
                invariant
                    i <= n,
                    n == count,
                    next <= p <= buf@.len(),
                    depth > 0,
                    d == depth - 1,
                    frame_at(buf@, pos as int, depth as nat) == match items_at(buf@, next as int, n as nat, d) {
                        Ok((cs, q)) => Ok((FrameView::Array(cs), q)),
                        Err(err) => Err(err),
                    },
                    items_at(buf@, next as int, n as nat, d) == prepend(
                        views(items@),
                        items_at(buf@, p as int, (n - i) as nat, d),
                    ),
                decreases n - i,
            {
                let ghost rest = items_at(buf@, p as int, (n - i) as nat, d);
                match decode_frame(buf, p, depth - 1) {
                    Err(err) => {
                        assert(rest == Err::<(Seq<FrameView>, int), Error>(err));
                        return Err(err);
                    },
                    Ok((f, q)) => {
                        proof {
                            lemma_frame_advances(buf@, p as int, d);
                        }
                        let ghost old_items = items@;
                        items.push(f);
                        assert(items@.drop_last() =~= old_items);
                        assert(views(items@) == views(old_items).push(f@));
                        proof {
                            match items_at(buf@, q as int, (n - i - 1) as nat, d) {
                                Ok((fs, _)) => {
                                    assert(views(old_items) + (seq![f@] + fs) =~= views(items@) + fs);
                                },
                                Err(_) => {},
                            }
                        }
                        p = q;
                        i = i + 1;
                    },
                }
            }
            let ghost cs = views(items@);
            let ghost iv = items@;
            let arr = Frame::Array(items);
            assert(arr@ == FrameView::Array(cs));
            assert(prepend(cs, items_at(buf@, p as int, 0, d)) == Ok::<(Seq<FrameView>, int), Error>((cs + Seq::empty(), p as int)));
            assert(cs + Seq::<FrameView>::empty() =~= cs);
            Ok((arr, p))
        }
    }
}

/// Decodes one frame at the start of `buf` and hands back the bytes that
/// follow it.
pub fn parse_frame(buf: &[u8]) -> (r: Result<(&[u8], Frame), Error>)
    ensures
        match (r, frame_at(buf@, 0, MAX_DEPTH as nat)) {
            (Ok((rest, f)), Ok((fv, p))) => f@ == fv && rest@ == buf@.subrange(p, buf@.len() as int),
            (Err(e1), Err(e2)) => e1 == e2,
            _ => false,
        },
{
    match decode_frame(buf, 0, MAX_DEPTH) {
        Ok((f, p)) => Ok((&buf[p..buf.len()], f)),
        Err(err) => Err(err),
    }
}

/// Prefixes the frames of a successful top-level decoding with `acc`.
pub open spec fn prepend_top(acc: Seq<FrameView>, r: Result<Seq<FrameView>, Error>) -> Result<
    Seq<FrameView>,
    Error,
> {
    match r {
        Ok(fs) => Ok(acc + fs),
        Err(err) => Err(err),
    }
}

/// The frames decoded from one buffer, and what was left of it.
pub struct Parser<'a> {
    pub frames: Vec<Frame>,
    pub remains: &'a [u8],
}

impl<'a> Parser<'a> {
    /// Decodes top-level frames back to back until `buf` is consumed. A
    /// frame cut off by the end of `buf` is an error, not kept for later
    /// input, so `remains` is empty whenever this succeeds.
    pub fn new(buf: &'a [u8]) -> (r: Result<Parser<'a>, Error>)
        ensures
            match (r, frames_from(buf@, 0)) {
                (Ok(p), Ok(fs)) => views(p.frames@) == fs && p.remains@.len() == 0,
                (Err(e1), Err(e2)) => e1 == e2,
                _ => false,
            },
    {
        let mut frames: Vec<Frame> = Vec::new();
        let mut pos: usize = 0;
        assert(views(frames@) =~= Seq::<FrameView>::empty());
        while pos < buf.len()
            invariant
                pos <= buf@.len(),
                frames_from(buf@, 0) == prepend_top(views(frames@), frames_from(buf@, pos as int)),
            decreases buf.len() - pos,
        {
            match decode_frame(buf, pos, MAX_DEPTH) {
                Err(err) => {
                    return Err(err);
                },
                Ok((f, q)) => {
                    let ghost old_frames = frames@;
                    frames.push(f);
                    assert(frames@.drop_last() =~= old_frames);
                    proof {
                        match frames_from(buf@, q as int) {
                            Ok(fs) => {
                                assert(views(old_frames) + (seq![f@] + fs) =~= views(frames@) + fs);
                            },
                            Err(_) => {},
                        }
                    }
                    pos = q;
                },
            }
        }
        assert(views(frames@) + Seq::<FrameView>::empty() =~= views(frames@));
        Ok(Parser { frames, remains: &buf[pos..buf.len()] })
    }
}

/// Whether text holds a line terminator: a carriage return followed by a
/// line feed.
pub open spec fn has_line_terminator(p: Seq<char>) -> bool {
    exists|j: int| 0 <= j && j + 1 < p.len() && #[trigger] p[j] == '\r' && p[j + 1] == '\n'
}

/// Bytes with the high bit set stay at least 0x80.
proof fn lemma_high_bytes(x: u8)
    ensures
        (0x80u8 | x) >= 0x80u8,
        (0xC0u8 | x) >= 0x80u8,
        (0xE0u8 | x) >= 0x80u8,
        (0xF0u8 | x) >= 0x80u8,
{
    assert((0x80u8 | x) >= 0x80u8) by (bit_vector);
    assert((0xC0u8 | x) >= 0x80u8) by (bit_vector);
    assert((0xE0u8 | x) >= 0x80u8) by (bit_vector);
    assert((0xF0u8 | x) >= 0x80u8) by (bit_vector);
}

/// A character below 0x80 is encoded as its own code in one byte; every
/// byte of the encoding of any other character is at least 0x80.
proof fn lemma_scalar_bytes(c: u32)
    ensures
        encode_scalar(c).len() >= 1,
        c < 0x80 ==> encode_scalar(c) == seq![c as u8],
        c >= 0x80 ==> forall|k: int|
            0 <= k < encode_scalar(c).len() ==> #[trigger] encode_scalar(c)[k] >= 0x80,
{
    if c < 0x80 {
        assert(c <= 0x7F ==> ((c & 0x7F) as u8) == (c as u8)) by (bit_vector);
        assert(encode_scalar(c) =~= seq![c as u8]);
    } else {
        lemma_high_bytes(((c >> 6) & 0x1F) as u8);
        lemma_high_bytes(((c >> 12) & 0x0F) as u8);
        lemma_high_bytes(((c >> 18) & 0x7) as u8);
        lemma_high_bytes((c & 0x3F) as u8);
        lemma_high_bytes(((c >> 6) & 0x3F) as u8);
        lemma_high_bytes(((c >> 12) & 0x3F) as u8);
    }
}

/// A line terminator in the UTF-8 encoding of text comes from a line
/// terminator in the text.
pub proof fn lemma_crlf_from_text(p: Seq<char>, i: int)
    requires
        crlf_at(encode_utf8(p), i),
    ensures
        has_line_terminator(p),
    decreases p.len(),
{
    let enc = encode_utf8(p);
    let head = encode_scalar(p[0] as u32);
    let tail = p.drop_first();
    let rest = encode_utf8(tail);
    assert(enc == head + rest);
    lemma_scalar_bytes(p[0] as u32);
    if i >= head.len() {
        assert(crlf_at(rest, i - head.len()));
        lemma_crlf_from_text(tail, i - head.len());
        let j = choose|j: int|
            0 <= j && j + 1 < tail.len() && #[trigger] tail[j] == '\r' && tail[j + 1] == '\n';
        assert(p[j + 1] == '\r' && p[j + 2] == '\n');
    } else {
        assert(enc[i] == CR);
        assert((p[0] as u32) < 0x80);
        assert(i == 0);
        assert(rest.len() > 0);
        assert(tail.len() > 0);
        lemma_scalar_bytes(tail[0] as u32);
        let next = encode_scalar(tail[0] as u32);
        assert(rest == next + encode_utf8(tail.drop_first()));
        assert(rest[0] == LF);
        assert((tail[0] as u32) < 0x80);
        assert(p[0] as u32 == 13);
        assert(tail[0] as u32 == 10);
        char_u32_cast(p[0], 13);
        char_u32_cast('\r', 13);
        char_u32_cast(tail[0], 10);
        char_u32_cast('\n', 10);
        assert(p[0] == '\r');
        assert(p[1] == '\n');
    }
}

} // verus!
