//! Decompression routines.
//!
//! The decoder is specified as a state machine over the opcode alphabet:
//! [`decompressed`] maps the compressed input and the initial contents of the
//! output buffer to the exact outcome — the final buffer contents and written
//! length on success, or the precise error otherwise.  The executable
//! [`decompress`] is proved to return exactly that outcome.

use vstd::prelude::*;

use crate::Error;

verus! {

/// Maximum repeat count representable via zero marker bytes when extending
/// literal or match lengths.
pub const MAX255_COUNT: usize = usize::MAX / 255 - 2;

/// Opcode marker for mid-range matches.
pub const M3_MARKER: u8 = 0x20;

/// Opcode marker for far matches and the terminator instruction.
pub const M4_MARKER: u8 = 0x10;

/// Outcome of decoding: the final output buffer and the number of bytes
/// written, or the error.
#[verifier::ext_equal]
pub ghost enum DecOut {
    Done { dst: Seq<u8>, len: int },
    Fail { err: Error },
}

/// Number of consecutive zero bytes in `src` starting at `i`.
pub open spec fn s_zeros(src: Seq<u8>, i: int) -> int
    decreases src.len() - i,
{
    if 0 <= i < src.len() && src[i] == 0 {
        1 + s_zeros(src, i + 1)
    } else {
        0
    }
}

/// `dst` with `bytes` written at position `at`.
pub open spec fn s_splice(dst: Seq<u8>, at: int, bytes: Seq<u8>) -> Seq<u8>
    recommends
        0 <= at,
        at + bytes.len() <= dst.len(),
{
    dst.subrange(0, at) + bytes + dst.subrange(at + bytes.len(), dst.len() as int)
}

/// Forward byte-by-byte copy of `len` bytes from `from` to `to` inside `dst`;
/// when the ranges overlap, earlier copies feed later ones, extending runs.
pub open spec fn s_lb_copy(dst: Seq<u8>, from: int, to: int, len: int) -> Seq<u8>
    decreases len,
{
    if len <= 0 {
        dst
    } else {
        s_lb_copy(dst.update(to, dst[from]), from + 1, to + 1, len - 1)
    }
}

/// The copy phase following one match opcode: the lookback run of `lblen`
/// bytes from `lbcur`, then `nstate` literal bytes from the input.  Returns
/// the new `(dst, inp, outp)` or the error.
pub open spec fn s_run(
    src: Seq<u8>,
    dst: Seq<u8>,
    inp: int,
    outp: int,
    lbcur: int,
    lblen: int,
    nstate: int,
) -> Result<(Seq<u8>, int, int), Error> {
    if outp + lblen > dst.len() || lbcur + lblen > dst.len() {
        Err(Error::OutputOverrun)
    } else {
        let d1 = s_lb_copy(dst, lbcur, outp, lblen);
        let o1 = outp + lblen;
        if nstate == 0 {
            Ok((d1, inp, o1))
        } else if inp + nstate > src.len() {
            Err(Error::InputOverrun)
        } else if o1 + nstate > dst.len() {
            Err(Error::OutputOverrun)
        } else {
            Ok((s_splice(d1, o1, src.subrange(inp, inp + nstate)), inp + nstate, o1 + nstate))
        }
    }
}

/// The decoded form of one instruction, before its copies are carried out:
/// a match opcode, a long literal run, the terminator, or a malformed stream.
pub ghost enum DecStep {
    Op { inp2: int, lbcur: int, lblen: int, nstate: int },
    Lit { inp2: int, len: int },
    Term { inp2: int, lblen: int },
    Bad { err: Error },
}

/// Decode one instruction at `inp`: read the instruction byte (unless the
/// primed first byte `inst0` is still pending), classify it, and resolve its
/// length, lookback position and trailing state bits.
#[verifier::opaque]
pub open spec fn s_decode(src: Seq<u8>, inp: int, outp: int, state: int, inst0: u8) -> DecStep {
    let read = inp > 1 || state > 0;
    if read && inp >= src.len() {
        DecStep::Bad { err: Error::InputOverrun }
    } else {
        let inst: u8 = if read {
            src[inp]
        } else {
            inst0
        };
        let i1 = if read {
            inp + 1
        } else {
            inp
        };
        if inst >= 0x40 {
            // M2: one distance byte follows.
            if i1 >= src.len() {
                DecStep::Bad { err: Error::InputOverrun }
            } else {
                let dist = (src[i1] as int) * 8 + ((inst as int) / 4) % 8 + 1;
                if outp < dist {
                    DecStep::Bad { err: Error::LookbehindOverrun }
                } else {
                    DecStep::Op {
                        inp2: i1 + 1,
                        lbcur: outp - dist,
                        lblen: (inst as int) / 32 + 1,
                        nstate: (inst as int) % 4,
                    }
                }
            }
        } else if inst >= M3_MARKER {
            // M3: length in the opcode (possibly zero-run extended), then a
            // little-endian distance word.
            let l0 = (inst as int) % 32 + 2;
            let z = s_zeros(src, i1);
            if l0 == 2 && z > MAX255_COUNT {
                DecStep::Bad { err: Error::Error }
            } else if l0 == 2 && i1 + z >= src.len() {
                DecStep::Bad { err: Error::InputOverrun }
            } else {
                let lblen = if l0 == 2 {
                    2 + z * 255 + 31 + src[i1 + z]
                } else {
                    l0
                };
                let i2 = if l0 == 2 {
                    i1 + z + 1
                } else {
                    i1
                };
                if i2 + 2 > src.len() {
                    DecStep::Bad { err: Error::InputOverrun }
                } else {
                    let raw = src[i2] + 256 * (src[i2 + 1] as int);
                    let dist = raw / 4 + 1;
                    if outp < dist {
                        DecStep::Bad { err: Error::LookbehindOverrun }
                    } else {
                        DecStep::Op { inp2: i2 + 2, lbcur: outp - dist, lblen, nstate: raw % 4 }
                    }
                }
            }
        } else if inst >= M4_MARKER {
            // M4: far match, or the terminator when its distance field is 0.
            let l0 = (inst as int) % 8 + 2;
            let z = s_zeros(src, i1);
            if l0 == 2 && z > MAX255_COUNT {
                DecStep::Bad { err: Error::Error }
            } else if l0 == 2 && i1 + z >= src.len() {
                DecStep::Bad { err: Error::InputOverrun }
            } else {
                let lblen = if l0 == 2 {
                    2 + z * 255 + 7 + src[i1 + z]
                } else {
                    l0
                };
                let i2 = if l0 == 2 {
                    i1 + z + 1
                } else {
                    i1
                };
                if i2 + 2 > src.len() {
                    DecStep::Bad { err: Error::InputOverrun }
                } else {
                    let raw = src[i2] + 256 * (src[i2 + 1] as int);
                    let base = ((inst as int) / 8 % 2) * 0x4000 + raw / 4;
                    if base == 0 {
                        DecStep::Term { inp2: i2 + 2, lblen }
                    } else {
                        let dist = base + 16384;
                        if outp < dist {
                            DecStep::Bad { err: Error::LookbehindOverrun }
                        } else {
                            DecStep::Op { inp2: i2 + 2, lbcur: outp - dist, lblen, nstate: raw % 4 }
                        }
                    }
                }
            }
        } else if state == 0 {
            // Long literal run.
            let l0 = (inst as int) + 3;
            let z = s_zeros(src, i1);
            if l0 == 3 && z > MAX255_COUNT {
                DecStep::Bad { err: Error::Error }
            } else if l0 == 3 && i1 + z >= src.len() {
                DecStep::Bad { err: Error::InputOverrun }
            } else {
                let len = if l0 == 3 {
                    3 + z * 255 + 15 + src[i1 + z]
                } else {
                    l0
                };
                let i2 = if l0 == 3 {
                    i1 + z + 1
                } else {
                    i1
                };
                DecStep::Lit { inp2: i2, len }
            }
        } else if state != 4 {
            // M1, short: two bytes within 1 kB.
            if i1 >= src.len() {
                DecStep::Bad { err: Error::InputOverrun }
            } else {
                let dist = (inst as int) / 4 + (src[i1] as int) * 4 + 1;
                if outp < dist {
                    DecStep::Bad { err: Error::LookbehindOverrun }
                } else {
                    DecStep::Op { inp2: i1 + 1, lbcur: outp - dist, lblen: 2, nstate: (inst as int) % 4 }
                }
            }
        } else {
            // M1, long: three bytes within 2..3 kB.
            if i1 >= src.len() {
                DecStep::Bad { err: Error::InputOverrun }
            } else {
                let dist = (inst as int) / 4 + (src[i1] as int) * 4 + 2049;
                if outp < dist {
                    DecStep::Bad { err: Error::LookbehindOverrun }
                } else {
                    DecStep::Op { inp2: i1 + 1, lbcur: outp - dist, lblen: 3, nstate: (inst as int) % 4 }
                }
            }
        }
    }
}

/// The decoder loop: decode one instruction, carry out its copies, and
/// continue with the trailing state bits, until the terminator or an error.
/// `fuel` bounds the recursion and always suffices for the executable
/// decoder.
#[verifier::opaque]
pub open spec fn s_dec_loop(
    src: Seq<u8>,
    dst: Seq<u8>,
    inp: int,
    outp: int,
    state: int,
    inst0: u8,
    fuel: nat,
) -> DecOut
    decreases fuel,
{
    match s_decode(src, inp, outp, state, inst0) {
        DecStep::Bad { err } => DecOut::Fail { err },
        DecStep::Term { inp2, lblen } => {
            // The terminator's encoded length must be 3 and the input must
            // end exactly here.
            if lblen != 3 {
                DecOut::Fail { err: Error::Error }
            } else if inp2 == src.len() {
                DecOut::Done { dst, len: outp }
            } else if inp2 < src.len() {
                DecOut::Fail { err: Error::InputNotConsumed }
            } else {
                DecOut::Fail { err: Error::InputOverrun }
            }
        },
        DecStep::Lit { inp2, len } => {
            if inp2 + len > src.len() {
                DecOut::Fail { err: Error::InputOverrun }
            } else if outp + len > dst.len() {
                DecOut::Fail { err: Error::OutputOverrun }
            } else if fuel == 0 {
                DecOut::Fail { err: Error::Error }
            } else {
                s_dec_loop(
                    src,
                    s_splice(dst, outp, src.subrange(inp2, inp2 + len)),
                    inp2 + len,
                    outp + len,
                    4,
                    inst0,
                    (fuel - 1) as nat,
                )
            }
        },
        DecStep::Op { inp2, lbcur, lblen, nstate } => {
            match s_run(src, dst, inp2, outp, lbcur, lblen, nstate) {
                Ok(t) => {
                    if fuel == 0 {
                        DecOut::Fail { err: Error::Error }
                    } else {
                        s_dec_loop(src, t.0, t.1, t.2, nstate, inst0, (fuel - 1) as nat)
                    }
                },
                Err(e) => DecOut::Fail { err: e },
            }
        },
    }
}

/// Recursion budget that always outlasts the decoder loop.
pub open spec fn dec_fuel(src: Seq<u8>) -> nat {
    (src.len() + 2) as nat
}

/// The exact outcome of decoding `src` into a buffer whose initial contents
/// are `dst0`: the final buffer and written length on success, the precise
/// error otherwise.
pub open spec fn decompressed(src: Seq<u8>, dst0: Seq<u8>) -> DecOut {
    if src.len() < 3 {
        DecOut::Fail { err: Error::InputOverrun }
    } else {
        let inst = src[0];
        if inst >= 22 {
            let len = inst as int - 17;
            if 1 + len > src.len() {
                DecOut::Fail { err: Error::InputOverrun }
            } else if len > dst0.len() {
                DecOut::Fail { err: Error::OutputOverrun }
            } else {
                s_dec_loop(
                    src,
                    s_splice(dst0, 0, src.subrange(1, 1 + len)),
                    1 + len,
                    len,
                    4,
                    inst,
                    dec_fuel(src),
                )
            }
        } else if inst >= 18 {
            let ns = inst as int - 17;
            if 1 + ns > src.len() {
                DecOut::Fail { err: Error::InputOverrun }
            } else if ns > dst0.len() {
                DecOut::Fail { err: Error::OutputOverrun }
            } else {
                s_dec_loop(
                    src,
                    s_splice(dst0, 0, src.subrange(1, 1 + ns)),
                    1 + ns,
                    ns,
                    ns,
                    inst,
                    dec_fuel(src),
                )
            }
        } else {
            s_dec_loop(src, dst0, 1, 0, 0, inst, dec_fuel(src))
        }
    }
}

/// The executable form of one decoded instruction.
enum Step {
    Op { lbcur: usize, lblen: usize, nstate: usize },
    Lit { len: usize },
    Term { lblen: usize },
}

/// Read a single byte from `src`.
fn input_byte(src: &[u8], idx: &mut usize) -> (r: Result<u8, Error>)
    requires
        *old(idx) <= src@.len(),
    ensures
        match r {
            Ok(b) => {
                &&& *old(idx) < src@.len()
                &&& b == src@[*old(idx) as int]
                &&& *final(idx) == *old(idx) + 1
            },
            Err(e) => {
                &&& e == Error::InputOverrun
                &&& *old(idx) == src@.len()
                &&& *final(idx) == *old(idx)
            },
        },
{
    if *idx < src.len() {
        let b = src[*idx];
        *idx = *idx + 1;
        Ok(b)
    } else {
        Err(Error::InputOverrun)
    }
}

/// Read a little-endian 16-bit word starting at `pos`.
fn read_le16(src: &[u8], pos: &mut usize) -> (r: Result<u16, Error>)
    requires
        *old(pos) <= src@.len(),
    ensures
        match r {
            Ok(v) => {
                &&& *old(pos) + 2 <= src@.len()
                &&& v as int == src@[*old(pos) as int] + 256 * (src@[*old(pos) + 1] as int)
                &&& *final(pos) == *old(pos) + 2
            },
            Err(e) => {
                &&& e == Error::InputOverrun
                &&& *old(pos) + 2 > src@.len()
            },
        },
{
    if src.len() - *pos >= 2 {
        let b0 = src[*pos];
        let b1 = src[*pos + 1];
        *pos = *pos + 2;
        Ok((b0 as u16) + (b1 as u16) * 256)
    } else {
        Err(Error::InputOverrun)
    }
}

/// Copy `len` bytes from `src` to `dst`, advancing both cursors.
#[verifier::loop_isolation(false)]
fn copy_slice(
    src: &[u8],
    src_start: &mut usize,
    dst: &mut Vec<u8>,
    dst_start: &mut usize,
    len: usize,
) -> (r: Result<(), Error>)
    requires
        *old(src_start) <= src@.len(),
        *old(dst_start) <= old(dst)@.len(),
    ensures
        final(dst)@.len() == old(dst)@.len(),
        match r {
            Ok(()) => {
                if len == 0 {
                    &&& final(dst)@ == old(dst)@
                    &&& *final(src_start) == *old(src_start)
                    &&& *final(dst_start) == *old(dst_start)
                } else {
                    &&& *old(src_start) + len <= src@.len()
                    &&& *old(dst_start) + len <= old(dst)@.len()
                    &&& final(dst)@ == s_splice(
                        old(dst)@,
                        *old(dst_start) as int,
                        src@.subrange(*old(src_start) as int, *old(src_start) + len),
                    )
                    &&& *final(src_start) == *old(src_start) + len
                    &&& *final(dst_start) == *old(dst_start) + len
                }
            },
            Err(e) => {
                &&& len > 0
                &&& (if *old(src_start) + len > src@.len() {
                    e == Error::InputOverrun
                } else {
                    e == Error::OutputOverrun && *old(dst_start) + len > old(dst)@.len()
                })
            },
        },
{
    if len == 0 {
        return Ok(());
    }
    if len > src.len() - *src_start {
        return Err(Error::InputOverrun);
    }
    if len > dst.len() - *dst_start {
        return Err(Error::OutputOverrun);
    }
    let sp = *src_start;
    let dp = *dst_start;
    let mut i: usize = 0;
    while i < len
        invariant
            i <= len,
            dst@.len() == old(dst)@.len(),
            forall|j: int| dp <= j < dp + i ==> #[trigger] dst@[j] == src@[j - dp + sp],
            forall|j: int| 0 <= j < dp ==> dst@[j] == old(dst)@[j],
            forall|j: int| dp + i <= j < dst@.len() ==> dst@[j] == old(dst)@[j],
        decreases len - i,
    {
        let b = src[sp + i];
        dst.set(dp + i, b);
        i = i + 1;
    }
    *src_start = sp + len;
    *dst_start = dp + len;
    proof {
        assert(dst@ =~= s_splice(old(dst)@, dp as int, src@.subrange(sp as int, sp + len)));
    }
    Ok(())
}

/// Consume a run of zero marker bytes used for long length encodings.
#[verifier::loop_isolation(false)]
fn consume_zero_byte_length(src: &[u8], inp: &mut usize) -> (r: Result<usize, Error>)
    requires
        *old(inp) <= src@.len(),
    ensures
        match r {
            Ok(z) => {
                &&& z == s_zeros(src@, *old(inp) as int)
                &&& z <= MAX255_COUNT
                &&& *final(inp) == *old(inp) + z
                &&& *final(inp) <= src@.len()
            },
            Err(e) => {
                &&& e == Error::Error
                &&& s_zeros(src@, *old(inp) as int) > MAX255_COUNT
            },
        },
{
    let start = *inp;
    while *inp < src.len() && src[*inp] == 0
        invariant
            start <= *inp <= src@.len(),
            s_zeros(src@, start as int) == (*inp - start) + s_zeros(src@, *inp as int),
        decreases src@.len() - *inp,
    {
        *inp = *inp + 1;
    }
    let offset = *inp - start;
    if offset > MAX255_COUNT {
        Err(Error::Error)
    } else {
        Ok(offset)
    }
}

/// Carry out the copy phase of one match opcode: the (possibly overlapping)
/// lookback run, then the short literal follow run.
#[verifier::loop_isolation(false)]
fn run_copy(
    src: &[u8],
    inp: &mut usize,
    dst: &mut Vec<u8>,
    outp: &mut usize,
    lbcur: usize,
    lblen: usize,
    nstate: usize,
) -> (r: Result<(), Error>)
    requires
        *old(inp) <= src@.len(),
        *old(outp) <= old(dst)@.len(),
        lbcur <= *old(outp),
    ensures
        final(dst)@.len() == old(dst)@.len(),
        ({
            let t = s_run(
                src@,
                old(dst)@,
                *old(inp) as int,
                *old(outp) as int,
                lbcur as int,
                lblen as int,
                nstate as int,
            );
            match r {
                Ok(()) => {
                    &&& t == Ok::<(Seq<u8>, int, int), Error>(
                        (final(dst)@, *final(inp) as int, *final(outp) as int),
                    )
                    &&& *final(inp) <= src@.len()
                    &&& *final(outp) <= final(dst)@.len()
                    &&& *final(inp) >= *old(inp)
                },
                Err(e) => t == Err::<(Seq<u8>, int, int), Error>(e),
            }
        }),
{
    if lblen > dst.len() - *outp || lblen > dst.len() - lbcur {
        return Err(Error::OutputOverrun);
    }
    let ghost d0 = dst@;
    let op = *outp;
    let mut ci: usize = 0;
    while ci < lblen
        invariant
            ci <= lblen,
            dst@.len() == d0.len(),
            s_lb_copy(dst@, lbcur + ci, op + ci, lblen - ci) == s_lb_copy(
                d0,
                lbcur as int,
                op as int,
                lblen as int,
            ),
        decreases lblen - ci,
    {
        let b = dst[lbcur + ci];
        dst.set(op + ci, b);
        ci = ci + 1;
    }
    *outp = op + lblen;
    match copy_slice(src, inp, dst, outp, nstate) {
        Ok(()) => Ok(()),
        Err(e) => Err(e),
    }
}

/// Decode one instruction at the input cursor, mirroring [`s_decode`].
#[verifier::rlimit(100)]
fn decode_op(src: &[u8], inp: &mut usize, outp: usize, state: usize, inst0: u8) -> (r: Result<
    Step,
    Error,
>)
    requires
        1 <= *old(inp) <= src@.len(),
        state <= 4,
    ensures
        ({
            let d = s_decode(src@, *old(inp) as int, outp as int, state as int, inst0);
            match r {
                Ok(step) => match step {
                    Step::Op { lbcur, lblen, nstate } => {
                        &&& d == (DecStep::Op {
                            inp2: *final(inp) as int,
                            lbcur: lbcur as int,
                            lblen: lblen as int,
                            nstate: nstate as int,
                        })
                        &&& *old(inp) + 1 <= *final(inp) <= src@.len()
                        &&& lbcur <= outp
                        &&& nstate <= 3
                    },
                    Step::Lit { len } => {
                        &&& d == (DecStep::Lit { inp2: *final(inp) as int, len: len as int })
                        &&& *old(inp) <= *final(inp) <= src@.len()
                        &&& len >= 3
                    },
                    Step::Term { lblen } => {
                        &&& d == (DecStep::Term { inp2: *final(inp) as int, lblen: lblen as int })
                        &&& *old(inp) + 1 <= *final(inp) <= src@.len()
                    },
                },
                Err(e) => d == (DecStep::Bad { err: e }),
            }
        }),
{
    proof {
        reveal(crate::decompress::s_decode);
    }
    let inst: u8 = if *inp > 1 || state > 0 {
        match input_byte(src, inp) {
            Ok(b) => b,
            Err(e) => {
                return Err(e);
            },
        }
    } else {
        inst0
    };
    if inst >= 0x40 {
        // [M2] one distance byte follows.
        let next = match input_byte(src, inp) {
            Ok(b) => b,
            Err(e) => {
                return Err(e);
            },
        };
        let distance = (next as usize) * 8 + ((inst as usize) / 4) % 8 + 1;
        if outp < distance {
            return Err(Error::LookbehindOverrun);
        }
        Ok(
            Step::Op {
                lbcur: outp - distance,
                lblen: (inst as usize) / 32 + 1,
                nstate: (inst as usize) % 4,
            },
        )
    } else if inst >= M3_MARKER {
        // [M3] length in the opcode, then a little-endian distance word.
        let mut lblen = (inst as usize) % 32 + 2;
        if lblen == 2 {
            let z = match consume_zero_byte_length(src, inp) {
                Ok(z) => z,
                Err(e) => {
                    return Err(e);
                },
            };
            let tail = match input_byte(src, inp) {
                Ok(b) => b,
                Err(e) => {
                    return Err(e);
                },
            };
            lblen = 2 + z * 255 + 31 + (tail as usize);
        }
        let raw = match read_le16(src, inp) {
            Ok(v) => v,
            Err(e) => {
                return Err(e);
            },
        };
        let distance = (raw as usize) / 4 + 1;
        if outp < distance {
            return Err(Error::LookbehindOverrun);
        }
        Ok(Step::Op { lbcur: outp - distance, lblen, nstate: (raw as usize) % 4 })
    } else if inst >= M4_MARKER {
        // [M4] far match, or the terminator when its distance field is 0.
        let mut lblen = (inst as usize) % 8 + 2;
        if lblen == 2 {
            let z = match consume_zero_byte_length(src, inp) {
                Ok(z) => z,
                Err(e) => {
                    return Err(e);
                },
            };
            let tail = match input_byte(src, inp) {
                Ok(b) => b,
                Err(e) => {
                    return Err(e);
                },
            };
            lblen = 2 + z * 255 + 7 + (tail as usize);
        }
        let raw = match read_le16(src, inp) {
            Ok(v) => v,
            Err(e) => {
                return Err(e);
            },
        };
        let base_dist = ((inst as usize) / 8 % 2) * 0x4000 + (raw as usize) / 4;
        if base_dist == 0 {
            return Ok(Step::Term { lblen });
        }
        let distance = base_dist + 16384;
        if outp < distance {
            return Err(Error::LookbehindOverrun);
        }
        Ok(Step::Op { lbcur: outp - distance, lblen, nstate: (raw as usize) % 4 })
    } else if state == 0 {
        // [Literal] long literal run.
        let mut len = (inst as usize) + 3;
        if len == 3 {
            let z = match consume_zero_byte_length(src, inp) {
                Ok(z) => z,
                Err(e) => {
                    return Err(e);
                },
            };
            let tail = match input_byte(src, inp) {
                Ok(b) => b,
                Err(e) => {
                    return Err(e);
                },
            };
            len = 3 + z * 255 + 15 + (tail as usize);
        }
        Ok(Step::Lit { len })
    } else if state != 4 {
        // [M1, short] two bytes within 1 kB.
        let tail = match input_byte(src, inp) {
            Ok(b) => b,
            Err(e) => {
                return Err(e);
            },
        };
        let distance = (inst as usize) / 4 + (tail as usize) * 4 + 1;
        if outp < distance {
            return Err(Error::LookbehindOverrun);
        }
        Ok(Step::Op { lbcur: outp - distance, lblen: 2, nstate: (inst as usize) % 4 })
    } else {
        // [M1, long] three bytes within 2..3 kB.
        let tail = match input_byte(src, inp) {
            Ok(b) => b,
            Err(e) => {
                return Err(e);
            },
        };
        let distance = (inst as usize) / 4 + (tail as usize) * 4 + 2049;
        if outp < distance {
            return Err(Error::LookbehindOverrun);
        }
        Ok(Step::Op { lbcur: outp - distance, lblen: 3, nstate: (inst as usize) % 4 })
    }
}

/// Decompress `src` into `dst`.
///
/// `dst` must be large enough to hold the entire decompressed output; the
/// stream is not self-delimiting.  The outcome — final buffer contents and
/// written length, or the exact error — equals [`decompressed`]`(src@,
/// old(dst)@)`.
pub fn decompress(src: &[u8], dst: &mut Vec<u8>) -> (r: Result<usize, Error>)
    ensures
        final(dst)@.len() == old(dst)@.len(),
        match r {
            Ok(n) => n <= final(dst)@.len() && decompressed(src@, old(dst)@) == (DecOut::Done {
                dst: final(dst)@,
                len: n as int,
            }),
            Err(e) => decompressed(src@, old(dst)@) == (DecOut::Fail { err: e }),
        },
{
    if src.len() < 3 {
        return Err(Error::InputOverrun);
    }

    let mut inp: usize = 0;
    let mut outp: usize = 0;
    let mut state: usize = 0;

    let inst = match input_byte(src, &mut inp) {
        Ok(b) => b,
        Err(e) => {
            return Err(e);
        },
    };
    // The first byte primes the literal state: codes >= 22 copy a literal
    // block immediately; 18..=21 seed the literal countdown.
    if inst >= 22 {
        let len = (inst - 17) as usize;
        match copy_slice(src, &mut inp, dst, &mut outp, len) {
            Ok(()) => {},
            Err(e) => {
                return Err(e);
            },
        }
        state = 4;
    } else if inst >= 18 {
        let ns = (inst - 17) as usize;
        state = ns;
        match copy_slice(src, &mut inp, dst, &mut outp, ns) {
            Ok(()) => {},
            Err(e) => {
                return Err(e);
            },
        }
    }

    let ghost target = decompressed(src@, old(dst)@);
    let ghost mut fuel = dec_fuel(src@);
    proof {
        reveal(crate::decompress::s_dec_loop);
        assert(target == s_dec_loop(
            src@,
            dst@,
            inp as int,
            outp as int,
            state as int,
            inst,
            fuel,
        ));
    }

    loop
        invariant
            1 <= inp <= src@.len(),
            outp <= dst@.len(),
            state <= 4,
            dst@.len() == old(dst)@.len(),
            fuel >= src@.len() - inp + 1,
            target == decompressed(src@, old(dst)@),
            s_dec_loop(src@, dst@, inp as int, outp as int, state as int, inst, fuel) == target,
        decreases fuel,
    {
        let step = match decode_op(src, &mut inp, outp, state, inst) {
            Ok(step) => step,
            Err(e) => {
                proof {
                    reveal(crate::decompress::s_dec_loop);
                }
                return Err(e);
            },
        };
        match step {
            Step::Term { lblen } => {
                proof {
                    reveal(crate::decompress::s_dec_loop);
                }
                // Stream finished: the terminator's encoded length must be 3
                // and the input must end exactly here.
                if lblen != 3 {
                    return Err(Error::Error);
                }
                if inp == src.len() {
                    return Ok(outp);
                } else {
                    return Err(Error::InputNotConsumed);
                }
            },
            Step::Lit { len } => {
                match copy_slice(src, &mut inp, dst, &mut outp, len) {
                    Ok(()) => {},
                    Err(e) => {
                        proof {
                            reveal(crate::decompress::s_dec_loop);
                        }
                        return Err(e);
                    },
                }
                state = 4;
                proof {
                    reveal(crate::decompress::s_dec_loop);
                    fuel = (fuel - 1) as nat;
                }
            },
            Step::Op { lbcur, lblen, nstate } => {
                match run_copy(src, &mut inp, dst, &mut outp, lbcur, lblen, nstate) {
                    Ok(()) => {},
                    Err(e) => {
                        proof {
                            reveal(crate::decompress::s_dec_loop);
                        }
                        return Err(e);
                    },
                }
                state = nstate;
                proof {
                    reveal(crate::decompress::s_dec_loop);
                    fuel = (fuel - 1) as nat;
                }
            },
        }
    }
}

} // verus!
