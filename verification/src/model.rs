//! Mathematical model of the encoder.
//!
//! The encoder's behaviour is specified as a family of spec functions over
//! [`Enc`], a ghost snapshot of the whole compression state (ring buffer, the
//! two match tables and the sliding-window cursors).  The top-level function
//! [`compressed`] maps an input byte sequence to the exact byte stream the
//! encoder emits for it; the executable code in [`crate::compress`] is proved
//! to produce precisely this stream whenever the output buffer is large
//! enough, and to report an output overrun exactly when it is not.

use vstd::prelude::*;

verus! {

/// Number of 3-byte hash buckets.
pub const HASH_SIZE: usize = 0x4000;
/// Maximum back-reference distance the encoder uses.
pub const MAX_DIST: usize = 0xbfff;
/// Longest match the encoder will find.
pub const MAX_MATCH_LEN: usize = 0x800;
/// Ring size.
pub const BUF_SIZE: usize = MAX_DIST + MAX_MATCH_LEN;
/// Size of the "best offset per length" table.
pub const MAX_MATCH_TABLE: usize = 34;
/// Ring plus the mirrored tail that makes short reads wrap-free.
pub const BUF_GUARD: usize = BUF_SIZE + MAX_MATCH_LEN + 1;
/// Number of entries in the 2-byte direct table.
pub const MATCH2_SIZE: usize = 0x10000;

pub const M1_MAX_OFFSET: usize = 0x0400;
pub const M2_MAX_OFFSET: usize = 0x0800;
pub const M3_MAX_OFFSET: usize = 0x4000;
pub const M4_BASE_OFFSET: usize = 0x4000;
pub const M2_MIN_LEN: usize = 3;
pub const M2_MAX_LEN: usize = 8;
pub const M3_MAX_LEN: usize = 33;
pub const M4_MAX_LEN: usize = 9;

/// A ghost snapshot of the complete encoder state: the source, the ring
/// buffer with its mirrored tail, the two match tables, and the window
/// cursors.
#[verifier::ext_equal]
pub ghost struct Enc {
    pub src: Seq<u8>,
    pub buffer: Seq<u8>,
    pub h3_head: Seq<u16>,
    pub h3_size: Seq<u16>,
    pub h3_chain: Seq<u16>,
    pub h3_best: Seq<u16>,
    pub h2_head: Seq<u16>,
    pub inp: int,
    pub wind_sz: int,
    pub wind_b: int,
    pub wind_e: int,
    pub cycle1: int,
    pub bufp: int,
    pub buf_sz: int,
}

/// Shape and range constraints that every reachable encoder state satisfies.
pub open spec fn enc_wf(e: Enc) -> bool {
    &&& e.buffer.len() == BUF_GUARD
    &&& e.h3_head.len() == HASH_SIZE
    &&& e.h3_size.len() == HASH_SIZE
    &&& e.h3_chain.len() == BUF_SIZE
    &&& e.h3_best.len() == BUF_SIZE
    &&& e.h2_head.len() == MATCH2_SIZE
    &&& 0 <= e.inp <= e.src.len()
    &&& 0 <= e.wind_sz <= MAX_MATCH_LEN
    &&& 0 <= e.wind_b < BUF_SIZE
    &&& 0 <= e.wind_e < BUF_SIZE
    &&& 0 <= e.cycle1 <= MAX_DIST
    &&& 0 <= e.buf_sz
    &&& 0 <= e.bufp
    &&& e.wind_sz <= e.inp
    &&& (e.wind_sz == 0 ==> e.inp == e.src.len())
    &&& (forall|k: int|
        0 <= k < MATCH2_SIZE ==> (e.h2_head[k] == 0xffff || (e.h2_head[k] as int) < BUF_SIZE))
}

/// The low eight bits of a non-negative integer, as emitted into the stream.
pub open spec fn lo8(x: int) -> u8
    recommends
        x >= 0,
{
    (x % 256) as u8
}

/// Key of the 2-byte direct table for the pair at `pos`.
pub open spec fn key2_at(buffer: Seq<u8>, pos: int) -> int
    recommends
        0 <= pos,
        pos + 2 <= buffer.len(),
{
    ((buffer[pos] as u16) ^ ((buffer[pos + 1] as u16) << 8)) as int
}

/// Key of the 3-byte hashed table for the triple at `pos`.
pub open spec fn key3_at(buffer: Seq<u8>, pos: int) -> int
    recommends
        0 <= pos,
        pos + 3 <= buffer.len(),
{
    let a = buffer[pos] as u32;
    let b = buffer[pos + 1] as u32;
    let c = buffer[pos + 2] as u32;
    let mix = (((a << 5) ^ b) << 5) ^ c;
    let prod = (0x9f5f * (mix as int)) % 0x1_0000_0000;
    (prod / 32) % 0x4000
}

/// Increment of the per-bucket insertion counter (wraps at 2^16).
pub open spec fn wrap_inc(x: u16) -> u16 {
    if x == 0xffff {
        0u16
    } else {
        (x + 1) as u16
    }
}

/// Decrement of the per-bucket insertion counter (saturates at zero).
pub open spec fn sat_dec(x: u16) -> u16 {
    if x == 0 {
        0u16
    } else {
        (x - 1) as u16
    }
}

/// Head of the 3-byte chain for `key`: a bucket whose counter is zero is
/// empty, signalled by the sentinel `0xffff`.
pub open spec fn s_head3(e: Enc, key: int) -> int
    recommends
        0 <= key < HASH_SIZE,
{
    if e.h3_size[key] == 0 {
        0xffff
    } else {
        e.h3_head[key] as int
    }
}

/// Insert the current window position into the 3-byte chains; returns the new
/// state, the previous head and the bounded number of chain nodes to inspect.
pub open spec fn s_m3_advance(e: Enc) -> (Enc, int, int)
    recommends
        enc_wf(e),
{
    let key = key3_at(e.buffer, e.wind_b);
    let head = s_head3(e, key);
    let count0 = e.h3_size[key] as int;
    let count = if count0 > MAX_MATCH_LEN { MAX_MATCH_LEN as int } else { count0 };
    let e2 = Enc {
        h3_chain: e.h3_chain.update(e.wind_b, head as u16),
        h3_size: e.h3_size.update(key, wrap_inc(e.h3_size[key])),
        h3_head: e.h3_head.update(key, e.wind_b as u16),
        ..e
    };
    (e2, head, count)
}

/// Insert the current position into the 3-byte chains without searching, and
/// suppress any future search that hops through it.
pub open spec fn s_m3_skip_advance(e: Enc) -> Enc
    recommends
        enc_wf(e),
{
    let key = key3_at(e.buffer, e.wind_b);
    Enc {
        h3_chain: e.h3_chain.update(e.wind_b, s_head3(e, key) as u16),
        h3_head: e.h3_head.update(key, e.wind_b as u16),
        h3_best: e.h3_best.update(e.wind_b, (MAX_MATCH_LEN + 1) as u16),
        h3_size: e.h3_size.update(key, wrap_inc(e.h3_size[key])),
        ..e
    }
}

/// Remove the 3-byte entry at `pos` (decrements its bucket counter).
pub open spec fn s_m3_remove(e: Enc, pos: int) -> Enc
    recommends
        enc_wf(e),
        0 <= pos < BUF_SIZE,
{
    let key = key3_at(e.buffer, pos);
    Enc { h3_size: e.h3_size.update(key, sat_dec(e.h3_size[key])), ..e }
}

/// Overwrite the 2-byte table head for the pair at `pos`.
pub open spec fn s_m2_add(e: Enc, pos: int) -> Enc
    recommends
        enc_wf(e),
        0 <= pos < BUF_SIZE,
{
    Enc { h2_head: e.h2_head.update(key2_at(e.buffer, pos), pos as u16), ..e }
}

/// Clear the 2-byte table slot for `pos`, but only if it still points there.
pub open spec fn s_m2_remove(e: Enc, pos: int) -> Enc
    recommends
        enc_wf(e),
        0 <= pos < BUF_SIZE,
{
    let key = key2_at(e.buffer, pos);
    if e.h2_head[key] as int == pos {
        Enc { h2_head: e.h2_head.update(key, 0xffffu16), ..e }
    } else {
        e
    }
}

/// Remove stale entries before the sliding window overwrites them; during the
/// initial warm-up the countdown is consumed instead.
pub open spec fn s_reset(e: Enc) -> Enc
    recommends
        enc_wf(e),
{
    if e.cycle1 == 0 {
        s_m2_remove(s_m3_remove(e, e.wind_e), e.wind_e)
    } else {
        Enc { cycle1: e.cycle1 - 1, ..e }
    }
}

/// Advance the window by one byte: write the next source byte (or zero after
/// the end of the source) at the write head, mirror it into the guard tail,
/// and roll both cursors.
pub open spec fn s_get_byte(e: Enc) -> Enc
    recommends
        enc_wf(e),
{
    let exhausted = e.inp >= e.src.len();
    let val = if exhausted {
        0u8
    } else {
        e.src[e.inp]
    };
    let inp2 = if exhausted {
        e.inp
    } else {
        e.inp + 1
    };
    let wsz2 = if exhausted {
        if e.wind_sz > 0 {
            e.wind_sz - 1
        } else {
            0
        }
    } else {
        e.wind_sz
    };
    let b2 = e.buffer.update(e.wind_e, val);
    let b3 = if e.wind_e < MAX_MATCH_LEN {
        b2.update(BUF_SIZE + e.wind_e, val)
    } else {
        b2
    };
    Enc {
        buffer: b3,
        inp: inp2,
        wind_sz: wsz2,
        wind_e: (e.wind_e + 1) % (BUF_SIZE as int),
        wind_b: (e.wind_b + 1) % (BUF_SIZE as int),
        ..e
    }
}

/// Backwards distance from the current analysis position to `pos` in the ring.
pub open spec fn s_pos2off(wind_b: int, pos: int) -> int
    recommends
        0 <= wind_b < BUF_SIZE,
        0 <= pos < BUF_SIZE,
{
    if wind_b > pos {
        wind_b - pos
    } else {
        BUF_SIZE - (pos - wind_b)
    }
}

/// One step of the skip phase: evict, insert without searching, refresh the
/// 2-byte head, and pull in the next byte.
pub open spec fn s_skip_step(e: Enc) -> Enc
    recommends
        enc_wf(e),
{
    let e1 = s_reset(e);
    let e2 = s_m3_skip_advance(e1);
    let e3 = s_m2_add(e2, e2.wind_b);
    s_get_byte(e3)
}

/// `k` skip steps, fast-forwarding over bytes already covered by an emitted
/// match.
pub open spec fn s_skip_loop(e: Enc, k: int) -> Enc
    decreases k,
{
    if k <= 0 {
        e
    } else {
        s_skip_loop(s_skip_step(e), k - 1)
    }
}

/// Length of the common prefix of the window bytes at `rp` and the candidate
/// bytes at `mp`, reading at most `w` bytes.
pub open spec fn s_match_len(buffer: Seq<u8>, rp: int, mp: int, w: int) -> int
    decreases w,
{
    if w <= 0 {
        0
    } else if buffer[rp] != buffer[mp] {
        0
    } else {
        1 + s_match_len(buffer, rp + 1, mp + 1, w - 1)
    }
}

/// Walk of the 3-byte hash chain: inspect up to `k` candidate positions,
/// keeping the longest match and the first candidate seen for each length.
/// Returns the final `(lb_len, lb_pos, best_pos)`.
pub open spec fn s_walk(e: Enc, mp: int, k: int, lb_len: int, lb_pos: int, bp: Seq<usize>) -> (
    int,
    int,
    Seq<usize>,
)
    decreases k,
{
    if k <= 0 || mp >= BUF_SIZE {
        (lb_len, lb_pos, bp)
    } else {
        let m = s_match_len(e.buffer, e.wind_b, mp, e.wind_sz);
        if m >= 2 {
            let bp2 = if m < MAX_MATCH_TABLE && bp[m] == 0 {
                bp.update(m, (mp + 1) as usize)
            } else {
                bp
            };
            if m > lb_len {
                if m == e.wind_sz || m > e.h3_best[mp] as int {
                    (m, mp, bp2)
                } else {
                    s_walk(e, e.h3_chain[mp] as int, k - 1, m, mp, bp2)
                }
            } else {
                s_walk(e, e.h3_chain[mp] as int, k - 1, lb_len, lb_pos, bp2)
            }
        } else {
            s_walk(e, e.h3_chain[mp] as int, k - 1, lb_len, lb_pos, bp)
        }
    }
}

/// Seed from the 2-byte direct table: returns `(found, lb_pos, lb_len,
/// best_pos)`.
pub open spec fn s_search2(
    h2_head: Seq<u16>,
    buffer: Seq<u8>,
    wind_b: int,
    lb_pos: int,
    lb_len: int,
    bp: Seq<usize>,
) -> (bool, int, int, Seq<usize>) {
    let key = key2_at(buffer, wind_b);
    let pos = h2_head[key] as int;
    if pos == 0xffff {
        (false, lb_pos, lb_len, bp)
    } else {
        let bp2 = if bp[2] == 0 {
            bp.update(2, (pos + 1) as usize)
        } else {
            bp
        };
        if lb_len < 2 {
            (true, pos, 2, bp2)
        } else {
            (true, lb_pos, lb_len, bp2)
        }
    }
}

/// Rebuild of the "best offset per length" table from the candidate
/// positions recorded during the walk; entries below length 2 are untouched.
pub open spec fn s_best_off(wind_b: int, bp: Seq<usize>, old_bo: Seq<usize>) -> Seq<usize> {
    Seq::new(
        MAX_MATCH_TABLE as nat,
        |i: int|
            if i < 2 {
                old_bo[i]
            } else if bp[i] != 0 {
                s_pos2off(wind_b, bp[i] - 1) as usize
            } else {
                0usize
            },
    )
}

/// Common tail of one dictionary advance: evict, refresh the 2-byte head,
/// pull in a byte, and recompute the analysis cursor.
pub open spec fn s_advance_tail(e: Enc, term: bool) -> Enc
    recommends
        enc_wf(e),
{
    let e1 = s_reset(e);
    let e2 = s_m2_add(e1, e1.wind_b);
    let e3 = s_get_byte(e2);
    let buf_sz = if term {
        0
    } else {
        e3.wind_sz + 1
    };
    Enc { buf_sz, bufp: e3.inp - buf_sz, ..e3 }
}

/// One full dictionary advance.  When `skip` is set, `prev_len - 1` skip
/// steps re-synchronize the tables over the bytes of the match just emitted.
/// Returns the new state, the best offset, the best length and the refreshed
/// best-offset table.
#[verifier::opaque]
pub open spec fn s_advance(e: Enc, prev_len: int, bo: Seq<usize>, skip: bool) -> (
    Enc,
    int,
    int,
    Seq<usize>,
)
    recommends
        enc_wf(e),
{
    let e0 = if skip {
        s_skip_loop(
            e,
            if prev_len >= 1 {
                prev_len - 1
            } else {
                0
            },
        )
    } else {
        e
    };
    let adv = s_m3_advance(e0);
    let e1 = adv.0;
    let head = adv.1;
    let count = if head == 0xffff {
        0
    } else {
        adv.2
    };
    if e1.wind_sz <= 1 {
        // Window exhausted: no further matches are possible.
        let term = e1.wind_sz == 0;
        let e2 = Enc { h3_best: e1.h3_best.update(e1.wind_b, (MAX_MATCH_LEN + 1) as u16), ..e1 };
        let e3 = s_advance_tail(e2, term);
        (
            e3,
            0,
            if term {
                0
            } else {
                1
            },
            bo,
        )
    } else {
        let sr = s_search2(
            e1.h2_head,
            e1.buffer,
            e1.wind_b,
            0,
            1,
            Seq::new(MAX_MATCH_TABLE as nat, |i: int| 0usize),
        );
        let walked = if sr.0 && e1.wind_sz >= 3 {
            s_walk(e1, head, count, sr.2, sr.1, sr.3)
        } else {
            (sr.2, sr.1, sr.3)
        };
        let lb_len = walked.0;
        let lb_pos = walked.1;
        let lb_off = if lb_len > 1 {
            s_pos2off(e1.wind_b, lb_pos)
        } else {
            0
        };
        let e2 = Enc { h3_best: e1.h3_best.update(e1.wind_b, lb_len as u16), ..e1 };
        let bo2 = s_best_off(e2.wind_b, walked.2, bo);
        let e3 = s_advance_tail(e2, false);
        (e3, lb_off, lb_len, bo2)
    }
}

/// Zero-run encoding of a residual length: a unary prefix of `0x00` bytes
/// followed by one tail byte.
pub open spec fn s_zero_run(r: int) -> Seq<u8>
    recommends
        1 <= r,
    decreases r,
{
    if r > 255 {
        seq![0u8] + s_zero_run(r - 255)
    } else {
        seq![lo8(r)]
    }
}

/// Emission of a literal run: the length preamble (which may back-patch the
/// state bits of the previous opcode) followed by the literal bytes.
#[verifier::opaque]
pub open spec fn s_lit_run(out: Seq<u8>, src: Seq<u8>, lit_ptr: int, lit_len: int) -> Seq<u8>
    recommends
        0 <= lit_ptr,
        0 <= lit_len,
        lit_ptr + lit_len <= src.len(),
{
    let pre = if out.len() == 0 && lit_len <= 238 {
        out.push(lo8(17 + lit_len))
    } else if lit_len <= 3 {
        if out.len() >= 2 {
            out.update(out.len() - 2, out[out.len() - 2] | lo8(lit_len))
        } else {
            out
        }
    } else if lit_len <= 18 {
        out.push(lo8(lit_len - 3))
    } else {
        out.push(0u8) + s_zero_run(lit_len - 18)
    };
    if 0 <= lit_ptr && 0 <= lit_len && lit_ptr + lit_len <= src.len() {
        pre + src.subrange(lit_ptr, lit_ptr + lit_len)
    } else {
        pre
    }
}

/// Emission of one back-reference opcode.
#[verifier::opaque]
pub open spec fn s_match_op(out: Seq<u8>, len: int, off: int, last_lit: int) -> Seq<u8>
    recommends
        2 <= len <= MAX_MATCH_LEN,
        1 <= off <= BUF_SIZE,
        len == 2 ==> off <= M1_MAX_OFFSET,
{
    if len == 2 {
        let o = off - 1;
        out.push(lo8((o % 4) * 4)).push(lo8(o / 4))
    } else if len <= M2_MAX_LEN && off <= M2_MAX_OFFSET {
        let o = off - 1;
        out.push(lo8((len - 1) * 32 + (o % 8) * 4)).push(lo8(o / 8))
    } else if len == M2_MIN_LEN && off <= M1_MAX_OFFSET + M2_MAX_OFFSET && last_lit >= 4 {
        let o = off - 1 - M2_MAX_OFFSET;
        out.push(lo8((o % 4) * 4)).push(lo8(o / 4))
    } else if off <= M3_MAX_OFFSET {
        let o = off - 1;
        let first = if len <= M3_MAX_LEN {
            out.push(lo8(32 + len - 2))
        } else {
            out.push(32u8) + s_zero_run(len - M3_MAX_LEN)
        };
        first.push(lo8(o * 4)).push(lo8(o / 64))
    } else {
        let o = off - M4_BASE_OFFSET;
        let h = ((o / 0x4000) % 2) * 8;
        let first = if len <= M4_MAX_LEN {
            out.push(lo8(16 + h + len - 2))
        } else {
            out.push(lo8(16 + h)) + s_zero_run(len - M4_MAX_LEN)
        };
        first.push(lo8(o * 4)).push(lo8(o / 64))
    }
}

/// The heuristic that trades a long far match for a shorter closer one when
/// that makes the opcode cheaper.  Returns the adjusted `(len, off)`.
pub open spec fn s_find_better(bo: Seq<usize>, len: int, off: int) -> (int, int)
    recommends
        bo.len() == MAX_MATCH_TABLE,
{
    if len <= M2_MIN_LEN || off <= M2_MAX_OFFSET {
        (len, off)
    } else if off > M2_MAX_OFFSET && M2_MIN_LEN + 1 <= len <= M2_MAX_LEN + 1 && bo[len - 1] != 0
        && bo[len - 1] <= M2_MAX_OFFSET {
        (len - 1, bo[len - 1] as int)
    } else if off > M3_MAX_OFFSET && M4_MAX_LEN + 1 <= len <= M2_MAX_LEN + 2 && bo[len - 2] != 0
        && bo[len] <= M2_MAX_OFFSET {
        (len - 2, bo[len - 2] as int)
    } else if off > M3_MAX_OFFSET && M4_MAX_LEN + 1 <= len <= M3_MAX_LEN + 1 && bo[len - 1] != 0
        && bo[len - 2] <= M3_MAX_OFFSET {
        (len - 1, bo[len - 1] as int)
    } else {
        (len, off)
    }
}

/// Whether the encoder driver discards the candidate match and extends the
/// pending literal run instead.
pub open spec fn s_discard(lb_len: int, lb_off: int, lit_len: int, out_len: int) -> bool {
    ||| lb_len < 2
    ||| (lb_len == 2 && (lb_off > M1_MAX_OFFSET || lit_len == 0 || lit_len >= 4))
    ||| (lb_len == 2 && out_len == 0)
    ||| (out_len == 0 && lit_len == 0)
    ||| (lb_len == M2_MIN_LEN && lb_off > M1_MAX_OFFSET + M2_MAX_OFFSET && lit_len >= 4)
}

/// The encoder driver: while lookahead remains, either extend the pending
/// literal run or emit the literal preamble and the chosen match opcode; at
/// the end flush the trailing run and append the terminator.  `fuel` bounds
/// the recursion; [`s_fuel`] always suffices.
pub open spec fn s_enc_loop(
    e: Enc,
    lb_off: int,
    lb_len: int,
    bo: Seq<usize>,
    lit_ptr: int,
    lit_len: int,
    out: Seq<u8>,
    fuel: nat,
) -> Seq<u8>
    decreases fuel,
{
    if e.buf_sz <= 0 || fuel == 0 {
        let out1 = if out.len() == 0 && lit_len == 0 {
            out
        } else {
            s_lit_run(out, e.src, lit_ptr, lit_len)
        };
        out1 + seq![0x11u8, 0u8, 0u8]
    } else {
        let lp = if lit_len == 0 {
            e.bufp
        } else {
            lit_ptr
        };
        if s_discard(lb_len, lb_off, lit_len, out.len() as int) {
            let a = s_advance(e, 0, bo, false);
            s_enc_loop(a.0, a.1, a.2, a.3, lp, lit_len + 1, out, (fuel - 1) as nat)
        } else {
            let fb = s_find_better(bo, lb_len, lb_off);
            let out1 = s_lit_run(out, e.src, lp, lit_len);
            let out2 = s_match_op(out1, fb.0, fb.1, lit_len);
            let a = s_advance(e, fb.0, bo, true);
            s_enc_loop(a.0, a.1, a.2, a.3, lp, 0, out2, (fuel - 1) as nat)
        }
    }
}

/// Encoder state immediately after dictionary initialization: cleared tables,
/// the first window of source bytes in the ring, and the warm-up countdown
/// armed.
pub open spec fn s_init(src: Seq<u8>) -> Enc {
    let wsz: int = if src.len() < MAX_MATCH_LEN {
        src.len() as int
    } else {
        MAX_MATCH_LEN as int
    };
    Enc {
        src,
        buffer: Seq::new(
            BUF_GUARD as nat,
            |i: int|
                if 0 <= i < wsz {
                    src[i]
                } else {
                    0u8
                },
        ),
        h3_head: Seq::new(HASH_SIZE as nat, |i: int| 0u16),
        h3_size: Seq::new(HASH_SIZE as nat, |i: int| 0u16),
        h3_chain: Seq::new(BUF_SIZE as nat, |i: int| 0u16),
        h3_best: Seq::new(BUF_SIZE as nat, |i: int| 0u16),
        h2_head: Seq::new(MATCH2_SIZE as nat, |i: int| 0xffffu16),
        inp: wsz,
        wind_sz: wsz,
        wind_b: 0,
        wind_e: wsz,
        cycle1: MAX_DIST as int,
        bufp: 0,
        buf_sz: 0,
    }
}

/// Recursion budget that always outlasts the driver loop.
pub open spec fn s_fuel(src: Seq<u8>) -> nat {
    (src.len() + 2 * MAX_MATCH_LEN + 2) as nat
}

/// A byte pulled into the window never touches the cursor bookkeeping, never
/// grows the lookahead, and — unless both the source and the window are
/// exhausted — advances the consumed-minus-lookahead difference by one.
proof fn lemma_get_byte_fx(e: Enc)
    requires
        enc_wf(e),
    ensures
        enc_wf(s_get_byte(e)),
        s_get_byte(e).src == e.src,
        s_get_byte(e).bufp == e.bufp,
        s_get_byte(e).buf_sz == e.buf_sz,
        s_get_byte(e).inp >= e.inp,
        s_get_byte(e).wind_sz <= e.wind_sz,
        s_get_byte(e).wind_sz > 0 ==> s_get_byte(e).inp - s_get_byte(e).wind_sz == e.inp
            - e.wind_sz + 1,
        e.wind_sz > 0 ==> s_get_byte(e).inp - s_get_byte(e).wind_sz == e.inp - e.wind_sz + 1,
{
}

/// One skip step preserves well-formedness and the cursor bookkeeping, and
/// advances the consumed-minus-lookahead difference by one while lookahead
/// remains.
proof fn lemma_skip_step_fx(e: Enc)
    requires
        enc_wf(e),
    ensures
        enc_wf(s_skip_step(e)),
        s_skip_step(e).src == e.src,
        s_skip_step(e).bufp == e.bufp,
        s_skip_step(e).buf_sz == e.buf_sz,
        s_skip_step(e).inp >= e.inp,
        s_skip_step(e).wind_sz <= e.wind_sz,
        s_skip_step(e).wind_sz > 0 ==> s_skip_step(e).inp - s_skip_step(e).wind_sz == e.inp
            - e.wind_sz + 1,
{
    let e1 = s_reset(e);
    assert(enc_wf(e1));
    let e2 = s_m3_skip_advance(e1);
    assert(enc_wf(e2));
    let e3 = s_m2_add(e2, e2.wind_b);
    assert(enc_wf(e3));
    lemma_get_byte_fx(e3);
}

/// The whole skip phase: the difference grows by exactly the number of steps
/// as long as lookahead remains at the end.
proof fn lemma_skip_loop_fx(e: Enc, k: int)
    requires
        enc_wf(e),
        k >= 0,
    ensures
        enc_wf(s_skip_loop(e, k)),
        s_skip_loop(e, k).src == e.src,
        s_skip_loop(e, k).bufp == e.bufp,
        s_skip_loop(e, k).buf_sz == e.buf_sz,
        s_skip_loop(e, k).inp >= e.inp,
        s_skip_loop(e, k).wind_sz <= e.wind_sz,
        s_skip_loop(e, k).wind_sz > 0 ==> s_skip_loop(e, k).inp - s_skip_loop(e, k).wind_sz
            == e.inp - e.wind_sz + k,
    decreases k,
{
    if k > 0 {
        lemma_skip_step_fx(e);
        lemma_skip_loop_fx(s_skip_step(e), k - 1);
    }
}

/// A byte-by-byte comparison never reports more than the window it read.
proof fn lemma_match_len_le(buffer: Seq<u8>, rp: int, mp: int, w: int)
    ensures
        0 <= s_match_len(buffer, rp, mp, w) <= (if w >= 0 {
            w
        } else {
            0
        }),
    decreases w,
{
    if w > 0 && buffer[rp] == buffer[mp] {
        lemma_match_len_le(buffer, rp + 1, mp + 1, w - 1);
    }
}

/// The chain walk keeps the reported match within the window and the
/// candidate position within the ring.
proof fn lemma_walk_fx(e: Enc, mp: int, k: int, lb_len: int, lb_pos: int, bp: Seq<usize>)
    requires
        enc_wf(e),
        0 <= mp,
        1 <= lb_len <= e.wind_sz,
        0 <= lb_pos < BUF_SIZE,
    ensures
        1 <= s_walk(e, mp, k, lb_len, lb_pos, bp).0 <= e.wind_sz,
        0 <= s_walk(e, mp, k, lb_len, lb_pos, bp).1 < BUF_SIZE,
    decreases k,
{
    if !(k <= 0 || mp >= BUF_SIZE) {
        let m = s_match_len(e.buffer, e.wind_b, mp, e.wind_sz);
        lemma_match_len_le(e.buffer, e.wind_b, mp, e.wind_sz);
        if m >= 2 {
            let bp2 = if m < MAX_MATCH_TABLE && bp[m] == 0 {
                bp.update(m, (mp + 1) as usize)
            } else {
                bp
            };
            if m > lb_len {
                if !(m == e.wind_sz || m > e.h3_best[mp] as int) {
                    lemma_walk_fx(e, e.h3_chain[mp] as int, k - 1, m, mp, bp2);
                }
            } else {
                lemma_walk_fx(e, e.h3_chain[mp] as int, k - 1, lb_len, lb_pos, bp2);
            }
        } else {
            lemma_walk_fx(e, e.h3_chain[mp] as int, k - 1, lb_len, lb_pos, bp);
        }
    }
}

/// How one dictionary advance moves the cursors: the result is well formed,
/// its analysis cursor and lookahead agree (`bufp + buf_sz == inp`), the
/// reported match fits in the remaining lookahead, and the consumed position
/// advances by exactly the bytes accounted for — `prev_len` of them in skip
/// mode, one otherwise — or jumps to the end of the source when the stream
/// terminates.
proof fn lemma_advance_fx(e: Enc, prev_len: int, bo: Seq<usize>, skip: bool)
    requires
        enc_wf(e),
        skip ==> prev_len >= 1,
    ensures
        ({
            let a = s_advance(e, prev_len, bo, skip);
            &&& enc_wf(a.0)
            &&& a.0.src == e.src
            &&& a.0.bufp + a.0.buf_sz == a.0.inp
            &&& (a.0.buf_sz > 0 ==> a.0.buf_sz == a.0.wind_sz + 1)
            &&& a.2 <= a.0.buf_sz
            &&& (a.2 >= 2 ==> 1 <= a.1 <= BUF_SIZE)
            &&& (a.0.buf_sz == 0 ==> a.0.bufp == e.src.len())
            &&& ((e.bufp + e.buf_sz == e.inp && e.buf_sz == e.wind_sz + 1 && a.0.buf_sz > 0)
                ==> a.0.bufp == e.bufp + (if skip {
                prev_len
            } else {
                1
            }))
        }),
{
    reveal(crate::model::s_advance);
    let steps: int = if skip {
        if prev_len >= 1 {
            prev_len - 1
        } else {
            0
        }
    } else {
        0
    };
    let e0 = if skip {
        s_skip_loop(e, steps)
    } else {
        e
    };
    lemma_skip_loop_fx(e, steps);
    let adv = s_m3_advance(e0);
    let e1 = adv.0;
    assert(enc_wf(e1));
    if e1.wind_sz <= 1 {
        let term = e1.wind_sz == 0;
        let e2 = Enc { h3_best: e1.h3_best.update(e1.wind_b, (MAX_MATCH_LEN + 1) as u16), ..e1 };
        assert(enc_wf(e2));
        lemma_advance_tail_fx(e2, term);
    } else {
        let sr = s_search2(
            e1.h2_head,
            e1.buffer,
            e1.wind_b,
            0,
            1,
            Seq::new(MAX_MATCH_TABLE as nat, |i: int| 0usize),
        );
        if sr.0 && e1.wind_sz >= 3 {
            lemma_walk_fx(e1, adv.1, if adv.1 == 0xffff { 0int } else { adv.2 }, sr.2, sr.1, sr.3);
        }
        let walked = if sr.0 && e1.wind_sz >= 3 {
            s_walk(e1, adv.1, if adv.1 == 0xffff { 0int } else { adv.2 }, sr.2, sr.1, sr.3)
        } else {
            (sr.2, sr.1, sr.3)
        };
        let e2 = Enc { h3_best: e1.h3_best.update(e1.wind_b, walked.0 as u16), ..e1 };
        assert(enc_wf(e2));
        lemma_advance_tail_fx(e2, false);
    }
}

/// Cursor bookkeeping of the advance tail.
proof fn lemma_advance_tail_fx(e: Enc, term: bool)
    requires
        enc_wf(e),
        term == (e.wind_sz == 0),
    ensures
        ({
            let r = s_advance_tail(e, term);
            &&& enc_wf(r)
            &&& r.src == e.src
            &&& r.bufp + r.buf_sz == r.inp
            &&& (r.buf_sz > 0 ==> r.buf_sz == r.wind_sz + 1)
            &&& (r.buf_sz == 0 ==> r.bufp == e.src.len())
            &&& r.wind_sz <= e.wind_sz
            &&& (r.buf_sz > 0 ==> r.bufp == e.inp - e.wind_sz)
        }),
{
    let e1 = s_reset(e);
    assert(enc_wf(e1));
    let e2 = s_m2_add(e1, e1.wind_b);
    assert(enc_wf(e2));
    lemma_get_byte_fx(e2);
}

/// A zero-run encoding is never empty.
pub proof fn lemma_zero_run_len(r: int)
    ensures
        s_zero_run(r).len() >= 1,
    decreases r,
{
    if r > 255 {
        lemma_zero_run_len(r - 255);
    }
}

/// Emitting a literal run never shortens the stream.
pub proof fn lemma_lit_run_len(out: Seq<u8>, src: Seq<u8>, lit_ptr: int, lit_len: int)
    ensures
        s_lit_run(out, src, lit_ptr, lit_len).len() >= out.len(),
{
    reveal(crate::model::s_lit_run);
    if !(out.len() == 0 && lit_len <= 238) && !(lit_len <= 3) && !(lit_len <= 18) {
        lemma_zero_run_len(lit_len - 18);
    }
}

/// Emitting a match opcode appends at least the two distance bytes.
pub proof fn lemma_match_op_len(out: Seq<u8>, len: int, off: int, last_lit: int)
    ensures
        s_match_op(out, len, off, last_lit).len() >= out.len() + 2,
{
    reveal(crate::model::s_match_op);
    if len == 2 {
    } else if len <= M2_MAX_LEN && off <= M2_MAX_OFFSET {
    } else if len == M2_MIN_LEN && off <= M1_MAX_OFFSET + M2_MAX_OFFSET && last_lit >= 4 {
    } else if off <= M3_MAX_OFFSET {
        if !(len <= M3_MAX_LEN) {
            lemma_zero_run_len(len - M3_MAX_LEN);
        }
    } else {
        if !(len <= M4_MAX_LEN) {
            lemma_zero_run_len(len - M4_MAX_LEN);
        }
    }
}

/// Sixteenths are superadditive: splitting a quantity can only lose
/// remainders.
proof fn lemma_div16_super(a: int, b: int)
    requires
        a >= 0,
        b >= 0,
    ensures
        a / 16 + b / 16 <= (a + b) / 16,
{
    let s = a / 16 + b / 16;
    assert(16 * (a / 16) <= a) by (nonlinear_arith)
        requires
            a >= 0,
    ;
    assert(16 * (b / 16) <= b) by (nonlinear_arith)
        requires
            b >= 0,
    ;
    assert(16 * s <= a + b);
    assert(s <= (a + b) / 16) by (nonlinear_arith)
        requires
            16 * s <= a + b,
    ;
}

/// Division by sixteen is monotone.
proof fn lemma_div16_mono(a: int, b: int)
    requires
        0 <= a <= b,
    ensures
        a / 16 <= b / 16,
{
    assert(a / 16 <= b / 16) by (nonlinear_arith)
        requires
            0 <= a <= b,
    ;
}

/// Length of a zero-run encoding: one tail byte plus one marker per 255.
proof fn lemma_zero_run_len_bound(r: int)
    requires
        1 <= r,
    ensures
        s_zero_run(r).len() <= (r - 1) / 255 + 1,
    decreases r,
{
    if r > 255 {
        lemma_zero_run_len_bound(r - 255);
        assert((r - 256) / 255 + 1 <= (r - 1) / 255) by (nonlinear_arith)
            requires
                r > 255,
        ;
    }
}

/// The preamble of a literal run of `len` bytes costs at most `1 + len / 16`
/// output bytes, so the whole run costs at most `len + 1 + len / 16`.
proof fn lemma_lit_run_cost(out: Seq<u8>, src: Seq<u8>, lit_ptr: int, lit_len: int)
    requires
        0 <= lit_len,
    ensures
        s_lit_run(out, src, lit_ptr, lit_len).len() <= out.len() + lit_len + 1 + lit_len / 16,
        (out.len() > 0 && lit_len <= 3) ==> s_lit_run(out, src, lit_ptr, lit_len).len() <= out.len()
            + lit_len,
{
    reveal(crate::model::s_lit_run);
    if !(out.len() == 0 && lit_len <= 238) && lit_len > 18 {
        lemma_zero_run_len_bound(lit_len - 18);
        assert((lit_len - 19) / 255 + 1 <= lit_len / 16) by (nonlinear_arith)
            requires
                lit_len >= 19,
        ;
    }
}

/// Cost of one match opcode, by class: two bytes for the short classes,
/// three for a plain M3/M4, and for zero-run extended lengths strictly less
/// than the match length itself.
proof fn lemma_match_op_cost(out: Seq<u8>, len: int, off: int, last_lit: int)
    requires
        2 <= len,
        1 <= off,
    ensures
        len == 2 ==> s_match_op(out, len, off, last_lit).len() == out.len() + 2,
        len == 3 ==> s_match_op(out, len, off, last_lit).len() <= out.len() + 3,
        (len == 3 && (off <= M2_MAX_OFFSET || (off <= M1_MAX_OFFSET + M2_MAX_OFFSET && last_lit
            >= 4))) ==> s_match_op(out, len, off, last_lit).len() <= out.len() + 2,
        len >= 4 ==> s_match_op(out, len, off, last_lit).len() <= out.len() + len - 1,
{
    reveal(crate::model::s_match_op);
    if len > M3_MAX_LEN && off <= M3_MAX_OFFSET && !(len <= M2_MAX_LEN && off <= M2_MAX_OFFSET) {
        lemma_zero_run_len_bound(len - M3_MAX_LEN);
        assert((len - 34) / 255 <= len - 34) by (nonlinear_arith)
            requires
                len >= 34,
        ;
    }
    if len > M4_MAX_LEN && off > M3_MAX_OFFSET && !(len <= M2_MAX_LEN && off <= M2_MAX_OFFSET) {
        lemma_zero_run_len_bound(len - M4_MAX_LEN);
        assert((len - 10) / 255 <= len - 10) by (nonlinear_arith)
            requires
                len >= 10,
        ;
    }
}

/// The cheaper-opcode heuristic only ever shortens the match, keeps it at
/// least two long, keeps the offset positive, and when it settles on the
/// short lengths the cheap encodings apply.
proof fn lemma_find_better_fx(bo: Seq<usize>, len: int, off: int)
    requires
        2 <= len,
        1 <= off,
    ensures
        ({
            let fb = s_find_better(bo, len, off);
            &&& 2 <= fb.0 <= len
            &&& 1 <= fb.1
            &&& (fb.0 == 2 ==> fb.0 == len && fb.1 == off)
            &&& (fb.0 == 3 ==> (len == 3 && fb.1 == off) || fb.1 <= M2_MAX_OFFSET)
        }),
{
}

/// The driver only ever appends to the stream: whatever has been emitted is a
/// lower bound on the length of the final stream.
pub proof fn lemma_enc_loop_len(
    e: Enc,
    lb_off: int,
    lb_len: int,
    bo: Seq<usize>,
    lit_ptr: int,
    lit_len: int,
    out: Seq<u8>,
    fuel: nat,
)
    ensures
        s_enc_loop(e, lb_off, lb_len, bo, lit_ptr, lit_len, out, fuel).len() >= out.len(),
    decreases fuel,
{
    if e.buf_sz <= 0 || fuel == 0 {
        lemma_lit_run_len(out, e.src, lit_ptr, lit_len);
    } else {
        let lp = if lit_len == 0 {
            e.bufp
        } else {
            lit_ptr
        };
        if s_discard(lb_len, lb_off, lit_len, out.len() as int) {
            let a = s_advance(e, 0, bo, false);
            lemma_enc_loop_len(a.0, a.1, a.2, a.3, lp, lit_len + 1, out, (fuel - 1) as nat);
        } else {
            let fb = s_find_better(bo, lb_len, lb_off);
            let out1 = s_lit_run(out, e.src, lp, lit_len);
            let out2 = s_match_op(out1, fb.0, fb.1, lit_len);
            lemma_lit_run_len(out, e.src, lp, lit_len);
            lemma_match_op_len(out1, fb.0, fb.1, lit_len);
            let a = s_advance(e, fb.0, bo, true);
            lemma_enc_loop_len(a.0, a.1, a.2, a.3, lp, 0, out2, (fuel - 1) as nat);
        }
    }
}

/// The exact byte stream the encoder produces for `src`.
pub open spec fn compressed(src: Seq<u8>) -> Seq<u8> {
    let e0 = s_init(src);
    let a = s_advance(e0, 0, Seq::new(MAX_MATCH_TABLE as nat, |i: int| 0usize), false);
    s_enc_loop(a.0, a.1, a.2, a.3, e0.inp, 0, Seq::empty(), s_fuel(src))
}

/// Amortized size of the rest of the stream: with at most two bytes of
/// standing overhead over the consumed input and its sixteenth, every further
/// step pays for itself, and the flush and terminator fit in the remaining
/// constant headroom.
proof fn lemma_enc_loop_bound(
    e: Enc,
    lb_off: int,
    lb_len: int,
    bo: Seq<usize>,
    lit_ptr: int,
    lit_len: int,
    out: Seq<u8>,
    fuel: nat,
)
    requires
        enc_wf(e),
        e.bufp + e.buf_sz == e.inp,
        e.buf_sz > 0 ==> e.buf_sz == e.wind_sz + 1,
        0 <= lit_ptr,
        0 <= lit_len,
        (lit_len > 0 && e.buf_sz > 0) ==> lit_ptr + lit_len == e.bufp,
        (if lit_len == 0 {
            e.bufp
        } else {
            lit_ptr
        }) + lit_len <= e.src.len(),
        out.len() <= (if lit_len == 0 {
            e.bufp
        } else {
            lit_ptr
        }) + (if lit_len == 0 {
            e.bufp
        } else {
            lit_ptr
        }) / 16 + 2,
        lb_len >= 2 ==> 1 <= lb_off,
        lb_len <= e.buf_sz,
    ensures
        s_enc_loop(e, lb_off, lb_len, bo, lit_ptr, lit_len, out, fuel).len() <= e.src.len()
            + e.src.len() / 16 + 67,
    decreases fuel,
{
    let n = e.src.len() as int;
    let acc: int = if lit_len == 0 {
        e.bufp
    } else {
        lit_ptr
    };
    if e.buf_sz <= 0 || fuel == 0 {
        lemma_lit_run_cost(out, e.src, lit_ptr, lit_len);
        lemma_div16_super(acc, lit_len);
        lemma_div16_mono(acc + lit_len, n);
    } else {
        let lp = if lit_len == 0 {
            e.bufp
        } else {
            lit_ptr
        };
        if s_discard(lb_len, lb_off, lit_len, out.len() as int) {
            let a = s_advance(e, 0, bo, false);
            lemma_advance_fx(e, 0, bo, false);
            lemma_enc_loop_bound(a.0, a.1, a.2, a.3, lp, lit_len + 1, out, (fuel - 1) as nat);
        } else {
            let fb = s_find_better(bo, lb_len, lb_off);
            lemma_find_better_fx(bo, lb_len, lb_off);
            let out1 = s_lit_run(out, e.src, lp, lit_len);
            let out2 = s_match_op(out1, fb.0, fb.1, lit_len);
            lemma_lit_run_cost(out, e.src, lp, lit_len);
            lemma_match_op_cost(out1, fb.0, fb.1, lit_len);
            let a = s_advance(e, fb.0, bo, true);
            lemma_advance_fx(e, fb.0, bo, true);
            let cov = e.bufp + fb.0;
            assert(cov <= e.inp);
            // per-class cost of this emission
            if fb.0 >= 4 {
                assert(out2.len() <= out.len() + lit_len + lit_len / 16 + fb.0);
            } else if fb.0 == 3 {
                if lit_len >= 4 {
                    assert(out2.len() <= out1.len() + 2);
                    assert(out2.len() <= out.len() + lit_len + lit_len / 16 + fb.0);
                } else if out.len() > 0 {
                    assert(out1.len() <= out.len() + lit_len);
                    assert(out2.len() <= out.len() + lit_len + fb.0);
                } else {
                    assert(out2.len() <= lit_len + 1 + lit_len / 16 + fb.0);
                }
            } else {
                assert(out.len() > 0 && lit_len <= 3);
                assert(out1.len() <= out.len() + lit_len);
                assert(out2.len() <= out.len() + lit_len + fb.0);
            }
            lemma_div16_super(acc, lit_len);
            lemma_div16_mono(acc + lit_len, cov);
            lemma_div16_mono(lit_len, cov);
            assert(out2.len() <= cov + cov / 16 + 2);
            let acc2 = a.0.bufp;
            assert(acc2 >= cov);
            lemma_div16_mono(cov, acc2);
            lemma_enc_loop_bound(a.0, a.1, a.2, a.3, lp, 0, out2, (fuel - 1) as nat);
        }
    }
}

/// Law: the compressed stream never exceeds the worst-case size
/// `n + n/16 + 64 + 3` for an `n`-byte input, so a buffer of
/// that size always suffices.
pub proof fn lemma_compressed_worst_size(src: Seq<u8>)
    ensures
        compressed(src).len() <= src.len() + src.len() / 16 + 67,
{
    let e0 = s_init(src);
    assert(enc_wf(e0));
    let bo0 = Seq::new(MAX_MATCH_TABLE as nat, |i: int| 0usize);
    let a = s_advance(e0, 0, bo0, false);
    lemma_advance_fx(e0, 0, bo0, false);
    lemma_enc_loop_bound(a.0, a.1, a.2, a.3, e0.inp, 0, Seq::empty(), s_fuel(src));
}

proof fn lemma_enc_loop_terminated(
    e: Enc,
    lb_off: int,
    lb_len: int,
    bo: Seq<usize>,
    lit_ptr: int,
    lit_len: int,
    out: Seq<u8>,
    fuel: nat,
)
    ensures
        ({
            let r = s_enc_loop(e, lb_off, lb_len, bo, lit_ptr, lit_len, out, fuel);
            &&& r.len() >= 3
            &&& r[r.len() - 3] == 0x11u8
            &&& r[r.len() - 2] == 0u8
            &&& r[r.len() - 1] == 0u8
        }),
    decreases fuel,
{
    if e.buf_sz <= 0 || fuel == 0 {
    } else {
        let lp = if lit_len == 0 {
            e.bufp
        } else {
            lit_ptr
        };
        if s_discard(lb_len, lb_off, lit_len, out.len() as int) {
            let a = s_advance(e, 0, bo, false);
            lemma_enc_loop_terminated(a.0, a.1, a.2, a.3, lp, lit_len + 1, out, (fuel - 1) as nat);
        } else {
            let fb = s_find_better(bo, lb_len, lb_off);
            let out1 = s_lit_run(out, e.src, lp, lit_len);
            let out2 = s_match_op(out1, fb.0, fb.1, lit_len);
            let a = s_advance(e, fb.0, bo, true);
            lemma_enc_loop_terminated(a.0, a.1, a.2, a.3, lp, 0, out2, (fuel - 1) as nat);
        }
    }
}

/// Law: every compressed stream ends with the terminator bytes
/// `0x11 0x00 0x00` — an M4 instruction with distance field zero — and so is
/// at least three bytes long.
pub proof fn lemma_compressed_terminated(src: Seq<u8>)
    ensures
        compressed(src).len() >= 3,
        compressed(src)[compressed(src).len() - 3] == 0x11u8,
        compressed(src)[compressed(src).len() - 2] == 0u8,
        compressed(src)[compressed(src).len() - 1] == 0u8,
{
    let e0 = s_init(src);
    let a = s_advance(e0, 0, Seq::new(MAX_MATCH_TABLE as nat, |i: int| 0usize), false);
    lemma_enc_loop_terminated(a.0, a.1, a.2, a.3, e0.inp, 0, Seq::empty(), s_fuel(src));
}

} // verus!
