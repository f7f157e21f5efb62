//! Folded-key encoding: rendering frames and whole traces into bytes.
//!
//! A trace's folded key is the concatenation of one rendering per frame,
//! taken in reverse of the stored order, so the key reads from the innermost
//! frame to the outermost. Each rendering is `"name (file[:line]);"`, where
//! the file is the frame's `short_filename` when present, else its
//! `filename`, and the line number appears only when the aggregator was
//! configured to show line numbers.

use vstd::prelude::*;
use vstd::utf8::encode_utf8;

use crate::trace::{Frame, StackTrace};

verus! {

/// The decimal digits of `n`, most significant first, as ASCII bytes.
pub open spec fn dec_bytes(n: nat) -> Seq<u8>
    decreases n,
{
    if n < 10 {
        seq![(48 + n) as u8]
    } else {
        dec_bytes(n / 10).push((48 + n % 10) as u8)
    }
}

/// The display filename of a frame: `short_filename` when present, else
/// `filename`.
pub open spec fn display_file(f: Frame) -> Seq<char> {
    match f.short_filename {
        Some(s) => s@,
        None => f.filename@,
    }
}

/// The UTF-8 bytes of one frame's rendering: `"name (file:line);"` with line
/// numbers shown, `"name (file);"` without.
pub open spec fn frame_bytes(f: Frame, show_linenumbers: bool) -> Seq<u8> {
    encode_utf8(f.name@) + seq![32u8, 40u8] + encode_utf8(display_file(f)) + (if show_linenumbers {
        seq![58u8] + dec_bytes(f.line as nat)
    } else {
        Seq::<u8>::empty()
    }) + seq![41u8, 59u8]
}

/// The folded key of a frame sequence: the frames' renderings concatenated in
/// reverse of the stored order, so the last (innermost) frame comes first.
pub open spec fn key_of(frames: Seq<Frame>, show_linenumbers: bool) -> Seq<u8>
    decreases frames.len(),
{
    if frames.len() == 0 {
        Seq::<u8>::empty()
    } else {
        frame_bytes(frames.last(), show_linenumbers) + key_of(
            frames.drop_last(),
            show_linenumbers,
        )
    }
}

/// Key encoding is deterministic: two traces with the same frame sequence
/// fold, under the same line-number setting, to byte-identical keys.
pub proof fn lemma_key_deterministic(t1: StackTrace, t2: StackTrace, show_linenumbers: bool)
    requires
        t1.frames@ == t2.frames@,
    ensures
        key_of(t1.frames@, show_linenumbers) == key_of(t2.frames@, show_linenumbers),
{
}

/// A non-empty frame sequence's key decomposes at both ends: it begins with
/// the rendering of the last stored (innermost) frame and ends with the
/// rendering of the first stored (outermost) frame.
pub proof fn lemma_key_reversal(frames: Seq<Frame>, show_linenumbers: bool)
    requires
        frames.len() > 0,
    ensures
        key_of(frames, show_linenumbers) == frame_bytes(frames.last(), show_linenumbers) + key_of(
            frames.drop_last(),
            show_linenumbers,
        ),
        key_of(frames, show_linenumbers) == key_of(frames.drop_first(), show_linenumbers)
            + frame_bytes(frames.first(), show_linenumbers),
    decreases frames.len(),
{
    if frames.len() == 1 {
        assert(frames.drop_first() =~= Seq::<Frame>::empty());
        assert(frames.drop_last() =~= Seq::<Frame>::empty());
        assert(frames.last() == frames.first());
        assert(frame_bytes(frames.last(), show_linenumbers) + Seq::<u8>::empty()
            =~= Seq::<u8>::empty() + frame_bytes(frames.first(), show_linenumbers));
    } else {
        lemma_key_reversal(frames.drop_last(), show_linenumbers);
        assert(frames.drop_first().last() == frames.last());
        assert(frames.drop_first().drop_last() =~= frames.drop_last().drop_first());
        assert(frames.drop_last().first() == frames.first());
        assert(frame_bytes(frames.last(), show_linenumbers) + (key_of(
            frames.drop_last().drop_first(),
            show_linenumbers,
        ) + frame_bytes(frames.first(), show_linenumbers)) =~= (frame_bytes(
            frames.last(),
            show_linenumbers,
        ) + key_of(frames.drop_last().drop_first(), show_linenumbers)) + frame_bytes(
            frames.first(),
            show_linenumbers,
        ));
    }
}

/// The rendering prefers `short_filename` and falls back to `filename`.
pub proof fn lemma_display_precedence(f: Frame)
    ensures
        f.short_filename is Some ==> display_file(f) == f.short_filename->Some_0@,
        f.short_filename is None ==> display_file(f) == f.filename@,
{
}

/// Renders `n` in decimal.
pub fn to_decimal(n: usize) -> (r: Vec<u8>)
    ensures
        r@ == dec_bytes(n as nat),
    decreases n,
{
    if n < 10 {
        let mut v: Vec<u8> = Vec::new();
        v.push(48 + n as u8);
        proof {
            assert(v@ =~= dec_bytes(n as nat));
        }
        v
    } else {
        let mut v = to_decimal(n / 10);
        v.push(48 + (n % 10) as u8);
        proof {
            assert(v@ =~= dec_bytes(n as nat));
        }
        v
    }
}

/// Appends the bytes of `s` to `buf`.
fn push_bytes(buf: &mut Vec<u8>, s: &[u8])
    ensures
        final(buf)@ == old(buf)@ + s@,
{
    let ghost buf0 = old(buf)@;
    let mut i: usize = 0;
    while i < s.len()
        invariant
            i <= s@.len(),
            buf@ == buf0 + s@.take(i as int),
        decreases s@.len() - i,
    {
        buf.push(s[i]);
        i += 1;
        proof {
            assert(buf@ =~= buf0 + s@.take(i as int));
        }
    }
    proof {
        assert(buf0 + s@.take(s@.len() as int) =~= buf0 + s@);
    }
}

/// Appends one frame's rendering to `buf`.
pub fn render_frame(f: &Frame, show_linenumbers: bool, buf: &mut Vec<u8>)
    ensures
        final(buf)@ == old(buf)@ + frame_bytes(*f, show_linenumbers),
{
    push_bytes(buf, f.name.as_str().as_bytes());
    buf.push(32);
    buf.push(40);
    match &f.short_filename {
        Some(s) => push_bytes(buf, s.as_str().as_bytes()),
        None => push_bytes(buf, f.filename.as_str().as_bytes()),
    }
    if show_linenumbers {
        buf.push(58);
        let mut digits = to_decimal(f.line as usize);
        buf.append(&mut digits);
    }
    buf.push(41);
    buf.push(59);
    proof {
        assert(buf@ =~= old(buf)@ + frame_bytes(*f, show_linenumbers));
    }
}

/// The folded key of one trace: its frames rendered from the innermost (last
/// stored) to the outermost (first stored).
pub fn fold_trace(trace: &StackTrace, show_linenumbers: bool) -> (key: Vec<u8>)
    ensures
        key@ == key_of(trace.frames@, show_linenumbers),
{
    let mut buf: Vec<u8> = Vec::new();
    let n = trace.frames.len();
    let mut i: usize = 0;
    proof {
        assert(trace.frames@.take(n as int) =~= trace.frames@);
        assert(buf@ + key_of(trace.frames@, show_linenumbers) =~= key_of(
            trace.frames@,
            show_linenumbers,
        ));
    }
    while i < n
        invariant
            i <= n,
            n == trace.frames@.len(),
            buf@ + key_of(trace.frames@.take((n - i) as int), show_linenumbers) == key_of(
                trace.frames@,
                show_linenumbers,
            ),
        decreases n - i,
    {
        let ghost frames = trace.frames@;
        let ghost k = (n - i) as int;
        render_frame(&trace.frames[n - 1 - i], show_linenumbers, &mut buf);
        proof {
            assert(frames.take(k).last() == frames[k - 1]);
            assert(frames.take(k).drop_last() =~= frames.take(k - 1));
            assert(key_of(frames.take(k), show_linenumbers) == frame_bytes(
                frames[k - 1],
                show_linenumbers,
            ) + key_of(frames.take(k - 1), show_linenumbers));
        }
        i += 1;
    }
    proof {
        assert(trace.frames@.take(0) =~= Seq::<Frame>::empty());
        assert(buf@ + Seq::<u8>::empty() =~= buf@);
    }
    buf
}

} // verus!
