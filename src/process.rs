use vstd::prelude::*;

use crate::decode::Parser;
use crate::frame::{views, Frame, FrameView};

verus! {

/// The ASCII uppercase of a character; every other character stays.
pub open spec fn upper_char(c: char) -> char {
    if 'a' <= c && c <= 'z' {
        ((c as u32) - 32) as char
    } else {
        c
    }
}

/// The ASCII uppercase of text.
pub open spec fn upper(s: Seq<char>) -> Seq<char> {
    s.map_values(|c: char| upper_char(c))
}

/// The command text, in uppercase.
pub open spec fn ping_text() -> Seq<char> {
    seq!['P', 'I', 'N', 'G']
}

/// The reply to a ping.
pub open spec fn pong() -> FrameView {
    FrameView::Simple(seq!['P', 'O', 'N', 'G'])
}

/// A simple frame whose text is `PING` in any letter case.
pub open spec fn is_ping(f: FrameView) -> bool {
    f matches FrameView::Simple(s) && upper(s) == ping_text()
}

/// One `PONG` for each child that is a ping, in order.
pub open spec fn pongs(cs: Seq<FrameView>) -> Seq<FrameView>
    decreases cs.len(),
{
    if cs.len() == 0 {
        Seq::empty()
    } else {
        pongs(cs.drop_last()) + if is_ping(cs.last()) {
            seq![pong()]
        } else {
            Seq::empty()
        }
    }
}

/// The replies to one top-level frame: only arrays are answered.
pub open spec fn reply_to(f: FrameView) -> Seq<FrameView> {
    match f {
        FrameView::Array(cs) => pongs(cs),
        _ => Seq::empty(),
    }
}

/// The replies to a sequence of top-level frames, in order.
pub open spec fn replies(fs: Seq<FrameView>) -> Seq<FrameView>
    decreases fs.len(),
{
    if fs.len() == 0 {
        Seq::empty()
    } else {
        replies(fs.drop_last()) + reply_to(fs.last())
    }
}

/// Relies on `str::to_ascii_uppercase`: ASCII lowercase letters become
/// uppercase and every other character stays as it is.
#[verifier::external_body]
fn ascii_upper(s: &str) -> (r: String)
    ensures
        r@ == upper(s@),
{
    s.to_ascii_uppercase()
}

/// Whether a frame is a ping.
fn frame_is_ping(f: &Frame) -> (r: bool)
    ensures
        r == is_ping(f@),
{
    match f {
        Frame::Simple(s) => {
            proof {
                reveal_strlit("PING");
            }
            let up = ascii_upper(s.as_str());
            let ping = "PING".to_owned();
            assert(ping@ =~= ping_text());
            up == ping
        },
        _ => false,
    }
}

/// The replies to a sequence of decoded top-level frames.
pub fn reply_frames(frames: &Vec<Frame>) -> (r: Vec<Frame>)
    ensures
        views(r@) == replies(views(frames@)),
{
    let mut r: Vec<Frame> = Vec::new();
    let mut i: usize = 0;
    assert(views(r@) =~= Seq::<FrameView>::empty());
    while i < frames.len()
        invariant
            i <= frames@.len(),
            views(r@) == replies(views(frames@.subrange(0, i as int))),
        decreases frames.len() - i,
    {
        let ghost before = views(r@);
        let ghost head = views(frames@.subrange(0, i as int));
        assert(frames@.subrange(0, i as int + 1).drop_last() =~= frames@.subrange(0, i as int));
        let ghost vs = views(frames@.subrange(0, i as int + 1));
        assert(vs.drop_last() =~= head);
        assert(vs.last() == frames@[i as int]@);
        assert(replies(vs) == before + reply_to(frames@[i as int]@));
        if let Frame::Array(children) = &frames[i] {
            let mut j: usize = 0;
            assert(before + Seq::<FrameView>::empty() =~= before);
            while j < children.len()
                invariant
                    i < frames@.len(),
                    frames@[i as int] == Frame::Array(*children),
                    j <= children@.len(),
                    before == replies(head),
                    views(r@) == before + pongs(views(children@.subrange(0, j as int))),
                decreases children.len() - j,
            {
                let ghost prev = views(r@);
                assert(children@.subrange(0, j as int + 1).drop_last() =~= children@.subrange(0, j as int));
                let ghost cs = views(children@.subrange(0, j as int + 1));
                assert(cs.drop_last() =~= views(children@.subrange(0, j as int)));
                assert(cs.last() == children@[j as int]@);
                let ghost r_before = r@;
                if frame_is_ping(&children[j]) {
                    r.push(Frame::Simple("PONG".to_owned()));
                    proof {
                        reveal_strlit("PONG");
                    }
                    assert(r@.drop_last() =~= r_before);
                    assert(r@.last()@ == pong()) by {
                        assert("PONG"@ =~= seq!['P', 'O', 'N', 'G']);
                    }
                    assert(views(r@) == prev.push(pong()));
                    assert(pongs(cs) == pongs(cs.drop_last()) + seq![pong()]);
                    assert(before + pongs(cs) =~= prev.push(pong()));
                } else {
                    assert(pongs(cs) == pongs(cs.drop_last()) + Seq::<FrameView>::empty());
                    assert(before + pongs(cs) =~= prev);
                }
                j = j + 1;
            }
            assert(children@.subrange(0, j as int) =~= children@);
        } else {
            assert(before + Seq::<FrameView>::empty() =~= before);
        }
        i = i + 1;
    }
    assert(frames@.subrange(0, i as int) =~= frames@);
    r
}

/// Answers the commands found in decoded frames.
pub trait Process: Sized {
    /// The replies that [`Process::process`] gives.
    spec fn replies_spec(&self) -> Seq<FrameView>;

    fn process(self) -> (r: Vec<Frame>)
        ensures
            views(r@) == self.replies_spec(),
    ;
}

impl<'a> Process for Parser<'a> {
    open spec fn replies_spec(&self) -> Seq<FrameView> {
        replies(views(self.frames@))
    }

    fn process(self) -> (r: Vec<Frame>) {
        reply_frames(&self.frames)
    }
}

/// The test that picks the children answered with `PONG`.
pub open spec fn ping_filter() -> spec_fn(FrameView) -> bool {
    |c: FrameView| is_ping(c)
}

/// The replies to an array are one `PONG` for each child that is a ping,
/// and nothing else, whatever other children stand between them.
pub proof fn lemma_array_replies(cs: Seq<FrameView>)
    ensures
        replies(seq![FrameView::Array(cs)]).len() == cs.filter(ping_filter()).len(),
        forall|i: int|
            0 <= i < replies(seq![FrameView::Array(cs)]).len() ==> #[trigger] replies(
                seq![FrameView::Array(cs)],
            )[i] == pong(),
{
    let one = seq![FrameView::Array(cs)];
    assert(one.drop_last() =~= Seq::<FrameView>::empty());
    assert(Seq::<FrameView>::empty() + pongs(cs) =~= pongs(cs));
    assert(one.last() == FrameView::Array(cs));
    assert(replies(one.drop_last()) == Seq::<FrameView>::empty());
    assert(replies(one) == pongs(cs));
    lemma_pongs(cs);
}

/// `pongs` holds one `PONG` for each ping child.
proof fn lemma_pongs(cs: Seq<FrameView>)
    ensures
        pongs(cs).len() == cs.filter(ping_filter()).len(),
        forall|i: int| 0 <= i < pongs(cs).len() ==> #[trigger] pongs(cs)[i] == pong(),
    decreases cs.len(),
{
    reveal(Seq::filter);
    if cs.len() > 0 {
        let f = ping_filter();
        let rest = cs.drop_last();
        lemma_pongs(rest);
        assert(f(cs.last()) == is_ping(cs.last()));
        assert(rest.push(cs.last()) =~= cs);
        rest.lemma_filter_push(cs.last(), f);
        if is_ping(cs.last()) {
            assert(cs.filter(f) == rest.filter(f).push(cs.last()));
            assert(pongs(cs) == pongs(rest) + seq![pong()]);
        } else {
            assert(cs.filter(f) == rest.filter(f));
            assert(pongs(cs) =~= pongs(rest));
        }
    }
}

} // verus!
