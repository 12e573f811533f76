//! Frames on the socket: an encoded message, escaped so that it holds no line
//! feed, then one line feed that ends it.
use vstd::prelude::*;

verus! {

/// Ends a frame.
pub const LF: u8 = 0x0a;

/// Starts a two-byte escape inside a frame.
pub const ESC: u8 = 0xdb;

/// Follows `ESC` where the payload held a line feed.
pub const ESC_LF: u8 = 0xdc;

/// Follows `ESC` where the payload held `ESC` itself.
pub const ESC_ESC: u8 = 0xdd;

/// Why the bytes of a frame could not be read back.
#[derive(Debug, Clone, Copy, PartialEq, Eq)]
pub enum FrameError {
    /// A line feed inside the frame's body.
    StrayNewline,
    /// An escape byte followed by neither of its two codes, or by nothing.
    BadEscape,
}

pub open spec fn escape_byte(b: u8) -> Seq<u8> {
    if b == LF {
        seq![ESC, ESC_LF]
    } else if b == ESC {
        seq![ESC, ESC_ESC]
    } else {
        seq![b]
    }
}

/// The body of the frame of `p`: each byte, escaped where it needs to be.
pub open spec fn escaped(p: Seq<u8>) -> Seq<u8>
    decreases p.len(),
{
    if p.len() == 0 {
        Seq::empty()
    } else {
        escape_byte(p[0]) + escaped(p.drop_first())
    }
}

/// The frame that carries the payload `p`.
pub open spec fn frame_of(p: Seq<u8>) -> Seq<u8> {
    escaped(p).push(LF)
}

/// Reads a frame's body back into its payload.
pub open spec fn unescape(b: Seq<u8>) -> Result<Seq<u8>, FrameError>
    decreases b.len(),
{
    if b.len() == 0 {
        Ok(Seq::empty())
    } else if b[0] == LF {
        Err(FrameError::StrayNewline)
    } else if b[0] == ESC {
        if b.len() >= 2 && (b[1] == ESC_LF || b[1] == ESC_ESC) {
            match unescape(b.subrange(2, b.len() as int)) {
                Ok(rest) => Ok(seq![if b[1] == ESC_LF { LF } else { ESC }] + rest),
                Err(e) => Err(e),
            }
        } else {
            Err(FrameError::BadEscape)
        }
    } else {
        match unescape(b.drop_first()) {
            Ok(rest) => Ok(seq![b[0]] + rest),
            Err(e) => Err(e),
        }
    }
}

/// The body of a received frame: its bytes without the line feed that ends it,
/// where there is one.
pub open spec fn frame_body(f: Seq<u8>) -> Seq<u8> {
    if f.len() > 0 && f.last() == LF {
        f.drop_last()
    } else {
        f
    }
}

/// What a received frame decodes to.
pub open spec fn unframe_spec(f: Seq<u8>) -> Result<Seq<u8>, FrameError> {
    unescape(frame_body(f))
}

proof fn lemma_escaped_append(a: Seq<u8>, b: Seq<u8>)
    ensures
        escaped(a + b) == escaped(a) + escaped(b),
    decreases a.len(),
{
    if a.len() == 0 {
        assert(a + b =~= b);
        assert(escaped(a) + escaped(b) =~= escaped(b));
    } else {
        assert((a + b).drop_first() =~= a.drop_first() + b);
        lemma_escaped_append(a.drop_first(), b);
        assert(escape_byte(a[0]) + (escaped(a.drop_first()) + escaped(b)) =~= (escape_byte(a[0])
            + escaped(a.drop_first())) + escaped(b));
    }
}

proof fn lemma_escaped_single(b: u8)
    ensures
        escaped(seq![b]) == escape_byte(b),
{
    assert(seq![b][0] == b);
    assert(seq![b].drop_first() =~= Seq::<u8>::empty());
    assert(escaped(Seq::<u8>::empty()) =~= Seq::<u8>::empty());
    assert(escape_byte(b) + Seq::<u8>::empty() =~= escape_byte(b));
}

/// The body of a frame holds no line feed.
pub proof fn lemma_escaped_has_no_newline(p: Seq<u8>)
    ensures
        !escaped(p).contains(LF),
    decreases p.len(),
{
    if p.len() > 0 {
        lemma_escaped_has_no_newline(p.drop_first());
        let e = escape_byte(p[0]);
        let r = escaped(p.drop_first());
        assert forall|i: int| 0 <= i < (e + r).len() implies (e + r)[i] != LF by {
            if i >= e.len() {
                assert((e + r)[i] == r[i - e.len()]);
            }
        }
    }
}

/// Reading a frame back gives the payload it was made from.
pub proof fn lemma_unescape_escaped(p: Seq<u8>)
    ensures
        unescape(escaped(p)) == Ok::<Seq<u8>, FrameError>(p),
    decreases p.len(),
{
    if p.len() > 0 {
        lemma_unescape_escaped(p.drop_first());
        let e = escape_byte(p[0]);
        let r = escaped(p.drop_first());
        let b = e + r;
        assert(escaped(p) == b);
        assert(b[0] == e[0]);
        if p[0] == LF || p[0] == ESC {
            assert(b[1] == e[1]);
            assert(b.subrange(2, b.len() as int) =~= r);
            assert(unescape(b.subrange(2, b.len() as int)) == Ok::<Seq<u8>, FrameError>(p.drop_first()));
            assert(unescape(b) == Ok::<Seq<u8>, FrameError>(seq![p[0]] + p.drop_first()));
        } else {
            assert(b.drop_first() =~= r);
            assert(unescape(b) == Ok::<Seq<u8>, FrameError>(seq![p[0]] + p.drop_first()));
        }
        assert(seq![p[0]] + p.drop_first() =~= p);
    } else {
        assert(p =~= Seq::<u8>::empty());
    }
}

/// Decoding a frame gives back the payload that was framed: the body holds no
/// line feed, so the first line feed on the stream ends the frame, and reading
/// the frame, with or without that line feed, yields the payload.
pub proof fn lemma_frame_round_trip(p: Seq<u8>)
    ensures
        !escaped(p).contains(LF),
        frame_of(p).last() == LF,
        unframe_spec(frame_of(p)) == Ok::<Seq<u8>, FrameError>(p),
        unframe_spec(escaped(p)) == Ok::<Seq<u8>, FrameError>(p),
{
    lemma_escaped_has_no_newline(p);
    lemma_unescape_escaped(p);
    assert(frame_of(p).drop_last() =~= escaped(p));
    if escaped(p).len() > 0 {
        assert(escaped(p).contains(escaped(p).last()));
    }
}

/// The frame that carries `payload`.
pub fn frame(payload: &[u8]) -> (r: Vec<u8>)
    ensures
        r@ == frame_of(payload@),
{
    let mut out: Vec<u8> = Vec::new();
    let mut i: usize = 0;
    while i < payload.len()
        invariant
            i <= payload@.len(),
            out@ == escaped(payload@.subrange(0, i as int)),
        decreases payload@.len() - i,
    {
        let b = payload[i];
        proof {
            lemma_escaped_append(payload@.subrange(0, i as int), seq![b]);
            lemma_escaped_single(b);
            assert(payload@.subrange(0, i + 1) =~= payload@.subrange(0, i as int) + seq![b]);
        }
        if b == LF {
            out.push(ESC);
            out.push(ESC_LF);
        } else if b == ESC {
            out.push(ESC);
            out.push(ESC_ESC);
        } else {
            out.push(b);
        }
        i = i + 1;
    }
    assert(payload@.subrange(0, i as int) =~= payload@);
    out.push(LF);
    out
}

/// The payload carried by one received frame; a line feed that ends it is
/// dropped first.
pub fn unframe(f: &[u8]) -> (r: Result<Vec<u8>, FrameError>)
    ensures
        match r {
            Ok(p) => unframe_spec(f@) == Ok::<Seq<u8>, FrameError>(p@),
            Err(e) => unframe_spec(f@) == Err::<Seq<u8>, FrameError>(e),
        },
{
    let n: usize = if f.len() > 0 && f[f.len() - 1] == LF {
        f.len() - 1
    } else {
        f.len()
    };
    let ghost body = frame_body(f@);
    assert(body =~= f@.subrange(0, n as int));
    let mut out: Vec<u8> = Vec::new();
    let mut i: usize = 0;
    assert(body.subrange(0, body.len() as int) =~= body);
    while i < n
        invariant
            i <= n,
            n <= f@.len(),
            body == frame_body(f@),
            body == f@.subrange(0, n as int),
            unescape(body) == (match unescape(body.subrange(i as int, n as int)) {
                Ok(rest) => Ok(out@ + rest),
                Err(e) => Err(e),
            }),
        decreases n - i,
    {
        let ghost tail = body.subrange(i as int, n as int);
        let b = f[i];
        assert(tail[0] == b);
        if b == LF {
            assert(unescape(tail) == Err::<Seq<u8>, FrameError>(FrameError::StrayNewline));
            return Err(FrameError::StrayNewline);
        } else if b == ESC {
            if i + 1 < n && (f[i + 1] == ESC_LF || f[i + 1] == ESC_ESC) {
                assert(tail[1] == f@[i + 1]);
                assert(tail.subrange(2, tail.len() as int) =~= body.subrange(i + 2, n as int));
                let c = if f[i + 1] == ESC_LF {
                    LF
                } else {
                    ESC
                };
                proof {
                    match unescape(body.subrange(i + 2, n as int)) {
                        Ok(rest) => {
                            assert(out@ + (seq![c] + rest) =~= out@.push(c) + rest);
                        },
                        Err(_) => {},
                    }
                }
                out.push(c);
                i = i + 2;
            } else {
                if i + 1 < n {
                    assert(tail[1] == f@[i + 1]);
                }
                assert(unescape(tail) == Err::<Seq<u8>, FrameError>(FrameError::BadEscape));
                return Err(FrameError::BadEscape);
            }
        } else {
            assert(tail.drop_first() =~= body.subrange(i + 1, n as int));
            proof {
                match unescape(body.subrange(i + 1, n as int)) {
                    Ok(rest) => {
                        assert(out@ + (seq![b] + rest) =~= out@.push(b) + rest);
                    },
                    Err(_) => {},
                }
            }
            out.push(b);
            i = i + 1;
        }
    }
    assert(body.subrange(i as int, n as int) =~= Seq::<u8>::empty());
    assert(out@ + Seq::<u8>::empty() =~= out@);
    Ok(out)
}

} // verus!
