//! Length-prefixed sync frames: a big-endian `u32` payload length, then the payload.
use vstd::prelude::*;

verus! {

/// Largest payload one frame may carry.
pub const MAX_FRAME_LEN: usize = 16777216;

/// Most operations one sync data message carries.
pub const MAX_SYNC_DATA_OPS_PER_MESSAGE: usize = 256;

/// Why a frame could not be written or read.
#[derive(Clone, Copy, Debug, PartialEq, Eq, Structural)]
pub enum FrameError {
    /// A payload, or a declared payload length, exceeds [`MAX_FRAME_LEN`].
    TooLong,
    /// The input ends inside a frame.
    Incomplete,
}

/// The four big-endian bytes of `n`.
pub open spec fn be32_bytes(n: u32) -> Seq<u8> {
    seq![(n >> 24u32) as u8, (n >> 16u32) as u8, (n >> 8u32) as u8, n as u8]
}

/// The number four big-endian bytes spell.
pub open spec fn be32_value(b0: u8, b1: u8, b2: u8, b3: u8) -> u32 {
    ((b0 as u32) << 24u32) | ((b1 as u32) << 16u32) | ((b2 as u32) << 8u32) | (b3 as u32)
}

proof fn lemma_be32_roundtrip(n: u32)
    ensures be32_value((n >> 24u32) as u8, (n >> 16u32) as u8, (n >> 8u32) as u8, n as u8) == n,
{
    assert(((((n >> 24u32) as u8) as u32) << 24u32) | ((((n >> 16u32) as u8) as u32) << 16u32)
        | ((((n >> 8u32) as u8) as u32) << 8u32) | ((n as u8) as u32) == n) by (bit_vector);
}

/// The frame that carries `payload`.
pub open spec fn spec_frame(payload: Seq<u8>) -> Seq<u8> {
    be32_bytes(payload.len() as u32) + payload
}

/// The payload length the first four bytes of `input` declare.
pub open spec fn declared_len(input: Seq<u8>) -> int {
    be32_value(input[0], input[1], input[2], input[3]) as int
}

/// What reading one frame from the front of `input` gives: `Ok(None)` while the
/// frame is incomplete, the payload and the bytes consumed once it is whole.
pub open spec fn spec_decode_frame(input: Seq<u8>) -> Result<Option<(Seq<u8>, int)>, FrameError> {
    if input.len() < 4 {
        Ok(None)
    } else if declared_len(input) > MAX_FRAME_LEN {
        Err(FrameError::TooLong)
    } else if input.len() < 4 + declared_len(input) {
        Ok(None)
    } else {
        Ok(Some((input.subrange(4, 4 + declared_len(input)), 4 + declared_len(input))))
    }
}

/// The concatenated frames of `payloads`, in order.
pub open spec fn spec_frames(payloads: Seq<Seq<u8>>) -> Seq<u8>
    decreases payloads.len(),
{
    if payloads.len() == 0 {
        Seq::empty()
    } else {
        spec_frame(payloads[0]) + spec_frames(payloads.drop_first())
    }
}

/// What reading `input` as a whole number of frames gives.
pub open spec fn spec_decode_frames(input: Seq<u8>) -> Result<Seq<Seq<u8>>, FrameError>
    decreases input.len(),
{
    if input.len() == 0 {
        Ok(Seq::empty())
    } else {
        match spec_decode_frame(input) {
            Err(e) => Err(e),
            Ok(None) => Err(FrameError::Incomplete),
            Ok(Some((payload, used))) => {
                if 4 <= used <= input.len() {
                    match spec_decode_frames(input.subrange(used, input.len() as int)) {
                        Err(e) => Err(e),
                        Ok(rest) => Ok(seq![payload] + rest),
                    }
                } else {
                    Err(FrameError::Incomplete)
                }
            },
        }
    }
}

/// Whether every payload fits one frame.
pub open spec fn all_fit(payloads: Seq<Seq<u8>>) -> bool {
    forall|i: int| 0 <= i < payloads.len() ==> #[trigger] payloads[i].len() <= MAX_FRAME_LEN
}

/// Frames `payload`; refuses a payload longer than [`MAX_FRAME_LEN`].
pub fn encode_frame(payload: &[u8]) -> (r: Result<Vec<u8>, FrameError>)
    ensures
        payload@.len() > MAX_FRAME_LEN ==> r == Err::<Vec<u8>, FrameError>(FrameError::TooLong),
        payload@.len() <= MAX_FRAME_LEN ==> (r matches Ok(v) && v@ == spec_frame(payload@)),
{
    if payload.len() > MAX_FRAME_LEN {
        return Err(FrameError::TooLong);
    }
    let len = payload.len() as u32;
    let mut frame: Vec<u8> = Vec::with_capacity(4 + payload.len());
    frame.push((len >> 24u32) as u8);
    frame.push((len >> 16u32) as u8);
    frame.push((len >> 8u32) as u8);
    frame.push(len as u8);
    let mut i: usize = 0;
    while i < payload.len()
        invariant
            i <= payload@.len(),
            payload@.len() <= MAX_FRAME_LEN,
            len == payload@.len(),
            frame@ == be32_bytes(len) + payload@.subrange(0, i as int),
        decreases payload@.len() - i,
    {
        frame.push(payload[i]);
        i += 1;
        assert(frame@ =~= be32_bytes(len) + payload@.subrange(0, i as int));
    }
    assert(payload@.subrange(0, payload@.len() as int) =~= payload@);
    Ok(frame)
}

/// Reads one frame from the front of `input`: `Ok(None)` while it is incomplete,
/// the payload and the bytes consumed once whole, an error for an oversized length.
pub fn decode_frame(input: &[u8]) -> (r: Result<Option<(Vec<u8>, usize)>, FrameError>)
    ensures
        match (r, spec_decode_frame(input@)) {
            (Err(e), Err(f)) => e == f,
            (Ok(None), Ok(None)) => true,
            (Ok(Some((p, n))), Ok(Some((q, m)))) => p@ == q && n == m,
            _ => false,
        },
{
    if input.len() < 4 {
        return Ok(None);
    }
    let len32: u32 = ((input[0] as u32) << 24u32) | ((input[1] as u32) << 16u32)
        | ((input[2] as u32) << 8u32) | (input[3] as u32);
    let len = len32 as usize;
    if len > MAX_FRAME_LEN {
        return Err(FrameError::TooLong);
    }
    let end = 4 + len;
    if input.len() < end {
        return Ok(None);
    }
    let mut payload: Vec<u8> = Vec::with_capacity(len);
    let mut i: usize = 4;
    while i < end
        invariant
            4 <= i <= end,
            end <= input@.len(),
            payload@ == input@.subrange(4, i as int),
        decreases end - i,
    {
        payload.push(input[i]);
        i += 1;
        assert(payload@ =~= input@.subrange(4, i as int));
    }
    Ok(Some((payload, end)))
}

/// Frames every payload, in order; refuses if any payload is too long.
pub fn encode_frames(payloads: &Vec<Vec<u8>>) -> (r: Result<Vec<u8>, FrameError>)
    ensures
        all_fit(payloads@.map_values(|p: Vec<u8>| p@)) ==> (r matches Ok(v)
            && v@ == spec_frames(payloads@.map_values(|p: Vec<u8>| p@))),
        !all_fit(payloads@.map_values(|p: Vec<u8>| p@)) ==> r == Err::<Vec<u8>, FrameError>(FrameError::TooLong),
{
    let ghost ps = payloads@.map_values(|p: Vec<u8>| p@);
    let mut out: Vec<u8> = Vec::new();
    let mut i: usize = 0;
    assert(ps.subrange(0, ps.len() as int) =~= ps);
    assert(out@ + spec_frames(ps) =~= spec_frames(ps));
    while i < payloads.len()
        invariant
            i <= payloads@.len(),
            ps == payloads@.map_values(|p: Vec<u8>| p@),
            forall|j: int| 0 <= j < i ==> #[trigger] ps[j].len() <= MAX_FRAME_LEN,
            spec_frames(ps) == out@ + spec_frames(ps.subrange(i as int, ps.len() as int)),
        decreases payloads@.len() - i,
    {
        let frame = encode_frame(payloads[i].as_slice());
        match frame {
            Err(e) => {
                assert(!all_fit(ps)) by { assert(ps[i as int].len() > MAX_FRAME_LEN); }
                return Err(e);
            },
            Ok(f) => {
                let ghost rest = ps.subrange(i as int, ps.len() as int);
                assert(rest.drop_first() =~= ps.subrange(i + 1, ps.len() as int));
                assert(rest[0] == ps[i as int]);
                let mut j: usize = 0;
                let ghost before = out@;
                while j < f.len()
                    invariant
                        j <= f@.len(),
                        out@ == before + f@.subrange(0, j as int),
                    decreases f@.len() - j,
                {
                    out.push(f[j]);
                    j += 1;
                    assert(out@ =~= before + f@.subrange(0, j as int));
                }
                assert(f@.subrange(0, f@.len() as int) =~= f@);
                assert(spec_frames(ps) =~= out@ + spec_frames(ps.subrange(i + 1, ps.len() as int)));
            },
        }
        i += 1;
    }
    assert(ps.subrange(i as int, ps.len() as int) =~= Seq::<Seq<u8>>::empty());
    assert(out@ =~= spec_frames(ps));
    Ok(out)
}

/// `decoded` with `prefix` read before it.
pub open spec fn after_prefix(prefix: Seq<Seq<u8>>, decoded: Result<Seq<Seq<u8>>, FrameError>) -> Result<Seq<Seq<u8>>, FrameError> {
    match decoded {
        Ok(s) => Ok(prefix + s),
        Err(e) => Err(e),
    }
}

/// Reads `input` as a whole number of frames; a trailing partial frame is an error.
pub fn decode_frames(input: &[u8]) -> (r: Result<Vec<Vec<u8>>, FrameError>)
    ensures
        match (r, spec_decode_frames(input@)) {
            (Ok(v), Ok(s)) => v@.map_values(|p: Vec<u8>| p@) == s,
            (Err(e), Err(f)) => e == f,
            _ => false,
        },
{
    let mut frames: Vec<Vec<u8>> = Vec::new();
    let mut pos: usize = 0;
    assert(input@.subrange(0, input@.len() as int) =~= input@);
    assert(Seq::<Seq<u8>>::empty() =~= frames@.map_values(|p: Vec<u8>| p@));
    proof {
        match spec_decode_frames(input@) {
            Ok(s) => { assert(Seq::<Seq<u8>>::empty() + s =~= s); },
            Err(_) => {},
        }
    }
    while pos < input.len()
        invariant
            pos <= input@.len(),
            spec_decode_frames(input@) == after_prefix(frames@.map_values(|p: Vec<u8>| p@),
                spec_decode_frames(input@.subrange(pos as int, input@.len() as int))),
        decreases input@.len() - pos,
    {
        let ghost rest = input@.subrange(pos as int, input@.len() as int);
        let slice = slice_from(input, pos);
        let decoded = decode_frame(slice);
        match decoded {
            Err(e) => {
                return Err(e);
            },
            Ok(None) => {
                return Err(FrameError::Incomplete);
            },
            Ok(Some((frame, consumed))) => {
                let ghost next = input@.subrange(pos + consumed, input@.len() as int);
                assert(rest.subrange(consumed as int, rest.len() as int) =~= next);
                let ghost before = frames@.map_values(|p: Vec<u8>| p@);
                let ghost fv = frame@;
                frames.push(frame);
                assert(frames@.map_values(|p: Vec<u8>| p@) =~= before.push(fv));
                proof {
                    match spec_decode_frames(next) {
                        Ok(s) => {
                            assert(before + (seq![fv] + s) =~= before.push(fv) + s);
                        },
                        Err(_) => {},
                    }
                }
                pos = pos + consumed;
            },
        }
    }
    proof {
        let rest = input@.subrange(pos as int, input@.len() as int);
        assert(rest.len() == 0);
        assert(frames@.map_values(|p: Vec<u8>| p@) + Seq::<Seq<u8>>::empty() =~= frames@.map_values(|p: Vec<u8>| p@));
    }
    Ok(frames)
}

/// The bytes of `input` from `pos` on.
fn slice_from(input: &[u8], pos: usize) -> (r: &[u8])
    requires pos <= input@.len(),
    ensures r@ == input@.subrange(pos as int, input@.len() as int),
{
    let (_, tail) = input.split_at(pos);
    tail
}

/// Reading a frame back gives its payload and its length.
pub proof fn lemma_frame_roundtrip(payload: Seq<u8>, rest: Seq<u8>)
    requires payload.len() <= MAX_FRAME_LEN,
    ensures
        spec_decode_frame(spec_frame(payload) + rest)
            == Ok::<Option<(Seq<u8>, int)>, FrameError>(Some((payload, 4 + payload.len() as int))),
{
    let n = payload.len() as u32;
    let input = spec_frame(payload) + rest;
    lemma_be32_roundtrip(n);
    assert(input[0] == (n >> 24u32) as u8);
    assert(input[1] == (n >> 16u32) as u8);
    assert(input[2] == (n >> 8u32) as u8);
    assert(input[3] == n as u8);
    assert(declared_len(input) == payload.len());
    assert(input.subrange(4, 4 + payload.len() as int) =~= payload);
}

proof fn lemma_decode_frames_step(input: Seq<u8>, p: Seq<u8>, used: int)
    requires
        input.len() > 0,
        spec_decode_frame(input) == Ok::<Option<(Seq<u8>, int)>, FrameError>(Some((p, used))),
        4 <= used <= input.len(),
    ensures
        spec_decode_frames(input) == after_prefix(seq![p], spec_decode_frames(input.subrange(used, input.len() as int))),
{
}

/// Reading the frames of payloads that each fit gives the payloads back.
#[verifier::rlimit(40)]
pub proof fn lemma_frames_roundtrip(payloads: Seq<Seq<u8>>)
    requires all_fit(payloads),
    ensures spec_decode_frames(spec_frames(payloads)) == Ok::<Seq<Seq<u8>>, FrameError>(payloads),
    decreases payloads.len(),
{
    if payloads.len() == 0 {
        assert(spec_frames(payloads) =~= Seq::<u8>::empty());
        assert(payloads =~= Seq::<Seq<u8>>::empty());
    } else {
        let p = payloads[0];
        let tail = payloads.drop_first();
        assert(all_fit(tail)) by {
            assert forall|i: int| 0 <= i < tail.len() implies #[trigger] tail[i].len() <= MAX_FRAME_LEN by {
                assert(tail[i] == payloads[i + 1]);
            }
        }
        let input = spec_frames(payloads);
        assert(input == spec_frame(p) + spec_frames(tail));
        assert(p.len() <= MAX_FRAME_LEN);
        lemma_frame_roundtrip(p, spec_frames(tail));
        let used = 4 + p.len() as int;
        assert(input.len() == used + spec_frames(tail).len());
        assert(input.subrange(used, input.len() as int) =~= spec_frames(tail));
        lemma_decode_frames_step(input, p, used);
        lemma_frames_roundtrip(tail);
        assert(seq![p] + tail =~= payloads);
    }
}

} // verus!
