//! Compression routines.
//!
//! The executable encoder mirrors the model in [`crate::model`] step by step;
//! every state-changing operation carries a contract equating its effect with
//! the corresponding spec transformer, and the driver [`compress_no_alloc`]
//! is proved to emit exactly [`compressed`]`(src)` whenever the destination
//! buffer is large enough, and to fail with [`Error::OutputOverrun`] exactly
//! when it is not.

use vstd::prelude::*;

use crate::Error;
use crate::model::{
    Enc, enc_wf, key2_at, key3_at, wrap_inc, sat_dec, s_m3_advance, s_m3_skip_advance,
    s_m3_remove, s_m2_add, s_m2_remove, s_reset, s_get_byte, s_pos2off, s_skip_step, s_skip_loop,
    s_match_len, s_walk, s_search2, s_best_off, s_advance_tail, s_advance, s_zero_run, s_lit_run,
    s_match_op, s_find_better, s_discard, s_enc_loop, s_init, s_fuel, compressed, lo8,
    lemma_compressed_worst_size, lemma_zero_run_len, lemma_lit_run_len, lemma_match_op_len, lemma_enc_loop_len, HASH_SIZE,
    MAX_DIST, MAX_MATCH_LEN, BUF_SIZE, MAX_MATCH_TABLE, BUF_GUARD, MATCH2_SIZE, M1_MAX_OFFSET,
    M2_MAX_OFFSET, M3_MAX_OFFSET, M4_BASE_OFFSET, M2_MIN_LEN, M2_MAX_LEN, M3_MAX_LEN, M4_MAX_LEN,
};

verus! {

/// Hash chains tracking recent 3-byte sequences, keeping per-key chains and
/// remembering the best match length at each node.
struct Match3 {
    head: Vec<u16>,
    chain_sz: Vec<u16>,
    chain: Vec<u16>,
    best_len: Vec<u16>,
}

/// Direct lookup table for 2-byte prefixes used to seed matches quickly.
struct Match2 {
    head: Vec<u16>,
}

/// Dictionary storage: the ring buffer (with its mirrored tail) and the two
/// match tables.  It may be reused across compression calls; every call
/// re-initializes it in full, so the bytes produced never depend on what an
/// earlier call left behind.
pub struct Dict {
    match3: Match3,
    match2: Match2,
    buffer: Vec<u8>,
}

/// Sliding window cursors tracked while searching for matches.
struct State {
    inp: usize,
    wind_sz: usize,
    wind_b: usize,
    wind_e: usize,
    cycle1_countdown: usize,
    bufp: usize,
    buf_sz: usize,
}

impl Match3 {
    spec fn wf(&self) -> bool {
        &&& self.head@.len() == HASH_SIZE
        &&& self.chain_sz@.len() == HASH_SIZE
        &&& self.chain@.len() == BUF_SIZE
        &&& self.best_len@.len() == BUF_SIZE
    }

    /// The bit-mixing hash of the three bytes at `pos`.
    fn make_key(buffer: &Vec<u8>, pos: usize) -> (k: usize)
        requires
            buffer@.len() == BUF_GUARD,
            pos + 3 <= BUF_GUARD,
        ensures
            k == key3_at(buffer@, pos as int),
            k < HASH_SIZE,
    {
        let a = buffer[pos] as u32;
        let b = buffer[pos + 1] as u32;
        let c = buffer[pos + 2] as u32;
        let mix = (((a << 5u32) ^ b) << 5u32) ^ c;
        let prod = (0x9f5fu64 * (mix as u64)) % 0x1_0000_0000;
        ((prod / 32) % 0x4000) as usize
    }

    /// Head position of the chain for `key`; `0xffff` when the bucket is
    /// empty.
    fn get_head(&self, key: usize) -> (r: u16)
        requires
            self.wf(),
            key < HASH_SIZE,
        ensures
            r as int == (if self.chain_sz@[key as int] == 0 {
                0xffff as int
            } else {
                self.head@[key as int] as int
            }),
    {
        if self.chain_sz[key] == 0 {
            0xffff
        } else {
            self.head[key]
        }
    }

    /// Reset all chains to empty.
    fn init(&mut self)
        ensures
            final(self).wf(),
            final(self).head@ == Seq::new(HASH_SIZE as nat, |i: int| 0u16),
            final(self).chain_sz@ == Seq::new(HASH_SIZE as nat, |i: int| 0u16),
            final(self).chain@ == Seq::new(BUF_SIZE as nat, |i: int| 0u16),
            final(self).best_len@ == Seq::new(BUF_SIZE as nat, |i: int| 0u16),
    {
        self.head = vec![0u16; HASH_SIZE];
        self.chain_sz = vec![0u16; HASH_SIZE];
        self.chain = vec![0u16; BUF_SIZE];
        self.best_len = vec![0u16; BUF_SIZE];
        proof {
            assert(self.head@ =~= Seq::new(HASH_SIZE as nat, |i: int| 0u16));
            assert(self.chain_sz@ =~= Seq::new(HASH_SIZE as nat, |i: int| 0u16));
            assert(self.chain@ =~= Seq::new(BUF_SIZE as nat, |i: int| 0u16));
            assert(self.best_len@ =~= Seq::new(BUF_SIZE as nat, |i: int| 0u16));
        }
    }

    /// Decrement the bucket counter for the triple at `pos`.
    fn remove(&mut self, pos: usize, buffer: &Vec<u8>)
        requires
            old(self).wf(),
            buffer@.len() == BUF_GUARD,
            pos < BUF_SIZE,
        ensures
            final(self).wf(),
            final(self).head@ == old(self).head@,
            final(self).chain@ == old(self).chain@,
            final(self).best_len@ == old(self).best_len@,
            final(self).chain_sz@ == old(self).chain_sz@.update(
                key3_at(buffer@, pos as int),
                sat_dec(old(self).chain_sz@[key3_at(buffer@, pos as int)]),
            ),
    {
        let key = Self::make_key(buffer, pos);
        let sz = self.chain_sz[key];
        let dec = if sz == 0 {
            0
        } else {
            sz - 1
        };
        self.chain_sz.set(key, dec);
    }

    /// Insert the current position into the hash chains and return the head
    /// position alongside the bounded chain length to inspect.
    fn advance(&mut self, st: &State, buffer: &Vec<u8>) -> (r: (u16, usize))
        requires
            old(self).wf(),
            buffer@.len() == BUF_GUARD,
            st.wind_b < BUF_SIZE,
        ensures
            final(self).wf(),
            ({
                let key = key3_at(buffer@, st.wind_b as int);
                let hd: int = if old(self).chain_sz@[key] == 0 {
                    0xffff
                } else {
                    old(self).head@[key] as int
                };
                &&& final(self).chain@ == old(self).chain@.update(st.wind_b as int, hd as u16)
                &&& final(self).chain_sz@ == old(self).chain_sz@.update(
                    key,
                    wrap_inc(old(self).chain_sz@[key]),
                )
                &&& final(self).head@ == old(self).head@.update(key, st.wind_b as u16)
                &&& final(self).best_len@ == old(self).best_len@
                &&& r.0 as int == hd
                &&& r.1 as int == (if old(self).chain_sz@[key] as int > MAX_MATCH_LEN {
                    MAX_MATCH_LEN as int
                } else {
                    old(self).chain_sz@[key] as int
                })
            }),
    {
        let key = Self::make_key(buffer, st.wind_b);
        let head = self.get_head(key);
        self.chain.set(st.wind_b, head);
        let count = self.chain_sz[key];
        let bumped = if count == 0xffff {
            0
        } else {
            count + 1
        };
        self.chain_sz.set(key, bumped);
        self.head.set(key, st.wind_b as u16);
        let clamped = if count as usize > MAX_MATCH_LEN {
            MAX_MATCH_LEN
        } else {
            count as usize
        };
        (head, clamped)
    }

    /// Fast path for known matches: advance the hash chains without searching.
    fn skip_advance(&mut self, st: &State, buffer: &Vec<u8>)
        requires
            old(self).wf(),
            buffer@.len() == BUF_GUARD,
            st.wind_b < BUF_SIZE,
        ensures
            final(self).wf(),
            ({
                let key = key3_at(buffer@, st.wind_b as int);
                let hd: int = if old(self).chain_sz@[key] == 0 {
                    0xffff
                } else {
                    old(self).head@[key] as int
                };
                &&& final(self).chain@ == old(self).chain@.update(st.wind_b as int, hd as u16)
                &&& final(self).head@ == old(self).head@.update(key, st.wind_b as u16)
                &&& final(self).best_len@ == old(self).best_len@.update(
                    st.wind_b as int,
                    (MAX_MATCH_LEN + 1) as u16,
                )
                &&& final(self).chain_sz@ == old(self).chain_sz@.update(
                    key,
                    wrap_inc(old(self).chain_sz@[key]),
                )
            }),
    {
        let key = Self::make_key(buffer, st.wind_b);
        let head = self.get_head(key);
        self.chain.set(st.wind_b, head);
        self.head.set(key, st.wind_b as u16);
        self.best_len.set(st.wind_b, (MAX_MATCH_LEN + 1) as u16);
        let count = self.chain_sz[key];
        let bumped = if count == 0xffff {
            0
        } else {
            count + 1
        };
        self.chain_sz.set(key, bumped);
    }
}

impl Match2 {
    spec fn wf(&self) -> bool {
        self.head@.len() == MATCH2_SIZE
    }

    /// Direct-table key of the two bytes at `pos`.
    fn make_key(buffer: &Vec<u8>, pos: usize) -> (k: usize)
        requires
            buffer@.len() == BUF_GUARD,
            pos + 2 <= BUF_GUARD,
        ensures
            k == key2_at(buffer@, pos as int),
            k < MATCH2_SIZE,
    {
        ((buffer[pos] as u16) ^ ((buffer[pos + 1] as u16) << 8u16)) as usize
    }

    /// Reset the table to all-empty.
    fn init(&mut self)
        ensures
            final(self).wf(),
            final(self).head@ == Seq::new(MATCH2_SIZE as nat, |i: int| 0xffffu16),
    {
        self.head = vec![0xffffu16; MATCH2_SIZE];
        proof {
            assert(self.head@ =~= Seq::new(MATCH2_SIZE as nat, |i: int| 0xffffu16));
        }
    }

    /// Overwrite the head for the pair at `pos`.
    fn add(&mut self, pos: usize, buffer: &Vec<u8>)
        requires
            old(self).wf(),
            buffer@.len() == BUF_GUARD,
            pos < BUF_SIZE,
        ensures
            final(self).wf(),
            final(self).head@ == old(self).head@.update(key2_at(buffer@, pos as int), pos as u16),
    {
        let key = Self::make_key(buffer, pos);
        self.head.set(key, pos as u16);
    }

    /// Clear the slot for `pos`, preserving newer inserts that collided.
    fn remove(&mut self, pos: usize, buffer: &Vec<u8>)
        requires
            old(self).wf(),
            buffer@.len() == BUF_GUARD,
            pos < BUF_SIZE,
        ensures
            final(self).wf(),
            ({
                let key = key2_at(buffer@, pos as int);
                final(self).head@ == (if old(self).head@[key] as int == pos as int {
                    old(self).head@.update(key, 0xffffu16)
                } else {
                    old(self).head@
                })
            }),
    {
        let key = Self::make_key(buffer, pos);
        if self.head[key] as usize == pos {
            self.head.set(key, 0xffff);
        }
    }

    /// Try to find a 2-byte prefix match at the current window position.
    fn search(
        &self,
        st: &State,
        lb_pos: &mut usize,
        lb_len: &mut usize,
        best_pos: &mut Vec<usize>,
        buffer: &Vec<u8>,
    ) -> (found: bool)
        requires
            self.wf(),
            buffer@.len() == BUF_GUARD,
            st.wind_b < BUF_SIZE,
            old(best_pos)@.len() == MAX_MATCH_TABLE,
        ensures
            ({
                let r = s_search2(
                    self.head@,
                    buffer@,
                    st.wind_b as int,
                    *old(lb_pos) as int,
                    *old(lb_len) as int,
                    old(best_pos)@,
                );
                &&& found == r.0
                &&& *final(lb_pos) as int == r.1
                &&& *final(lb_len) as int == r.2
                &&& final(best_pos)@ == r.3
            }),
    {
        let key = Self::make_key(buffer, st.wind_b);
        let pos = self.head[key];
        if pos == 0xffff {
            return false;
        }
        if best_pos[2] == 0 {
            best_pos.set(2, pos as usize + 1);
        }
        if *lb_len < 2 {
            *lb_len = 2;
            *lb_pos = pos as usize;
        }
        true
    }
}

impl State {
    /// A fresh window with all cursors at zero.
    fn new() -> (st: State)
        ensures
            st.inp == 0,
            st.wind_sz == 0,
            st.wind_b == 0,
            st.wind_e == 0,
            st.cycle1_countdown == 0,
            st.bufp == 0,
            st.buf_sz == 0,
    {
        State { inp: 0, wind_sz: 0, wind_b: 0, wind_e: 0, cycle1_countdown: 0, bufp: 0, buf_sz: 0 }
    }

    /// Advance the window by one byte, copying from `src` and maintaining the
    /// duplicated tail used for wrap-around reads.
    fn get_byte(&mut self, src: &[u8], buffer: &mut Vec<u8>)
        requires
            old(buffer)@.len() == BUF_GUARD,
            old(self).wind_b < BUF_SIZE,
            old(self).wind_e < BUF_SIZE,
            old(self).inp <= src@.len(),
        ensures
            ({
                let exhausted = old(self).inp >= src@.len();
                let val: u8 = if exhausted {
                    0u8
                } else {
                    src@[old(self).inp as int]
                };
                &&& final(buffer)@ == (if old(self).wind_e < MAX_MATCH_LEN {
                    old(buffer)@.update(old(self).wind_e as int, val).update(
                        BUF_SIZE + old(self).wind_e,
                        val,
                    )
                } else {
                    old(buffer)@.update(old(self).wind_e as int, val)
                })
                &&& final(self).inp == (if exhausted {
                    old(self).inp as int
                } else {
                    old(self).inp + 1
                })
                &&& final(self).wind_sz == (if exhausted {
                    if old(self).wind_sz > 0 {
                        old(self).wind_sz - 1
                    } else {
                        0
                    }
                } else {
                    old(self).wind_sz as int
                })
                &&& final(self).wind_e == (old(self).wind_e + 1) % (BUF_SIZE as int)
                &&& final(self).wind_b == (old(self).wind_b + 1) % (BUF_SIZE as int)
                &&& final(self).cycle1_countdown == old(self).cycle1_countdown
                &&& final(self).bufp == old(self).bufp
                &&& final(self).buf_sz == old(self).buf_sz
            }),
    {
        let value: u8 = if self.inp >= src.len() {
            if self.wind_sz > 0 {
                self.wind_sz = self.wind_sz - 1;
            }
            0u8
        } else {
            let v = src[self.inp];
            self.inp = self.inp + 1;
            v
        };
        let idx = self.wind_e;
        buffer.set(idx, value);
        if idx < MAX_MATCH_LEN {
            buffer.set(BUF_SIZE + idx, value);
        }
        self.wind_e = (self.wind_e + 1) % BUF_SIZE;
        self.wind_b = (self.wind_b + 1) % BUF_SIZE;
    }

    /// The ghost snapshot of the full encoder state made of this window, a
    /// dictionary and the source.
    spec fn enc(self, d: Dict, src: Seq<u8>) -> Enc {
        Enc {
            src,
            buffer: d.buffer@,
            h3_head: d.match3.head@,
            h3_size: d.match3.chain_sz@,
            h3_chain: d.match3.chain@,
            h3_best: d.match3.best_len@,
            h2_head: d.match2.head@,
            inp: self.inp as int,
            wind_sz: self.wind_sz as int,
            wind_b: self.wind_b as int,
            wind_e: self.wind_e as int,
            cycle1: self.cycle1_countdown as int,
            bufp: self.bufp as int,
            buf_sz: self.buf_sz as int,
        }
    }

    /// Convert a buffer index into a backwards distance within the window.
    fn pos2off(&self, pos: usize) -> (off: usize)
        requires
            self.wind_b < BUF_SIZE,
            pos < BUF_SIZE,
        ensures
            off as int == s_pos2off(self.wind_b as int, pos as int),
            1 <= off <= BUF_SIZE,
    {
        if self.wind_b > pos {
            self.wind_b - pos
        } else {
            BUF_SIZE - (pos - self.wind_b)
        }
    }
}

impl Dict {
    /// Shape of the backing storage; established by the constructors and
    /// preserved by every compression call.
    pub closed spec fn wf(&self) -> bool {
        &&& self.match3.wf()
        &&& self.match2.wf()
        &&& self.buffer@.len() == BUF_GUARD
    }

    /// A fresh dictionary.
    pub fn new() -> (d: Dict)
        ensures
            d.wf(),
    {
        Self::new_const()
    }

    /// A fresh dictionary with zeroed storage.
    pub fn new_const() -> (d: Dict)
        ensures
            d.wf(),
    {
        Dict {
            match3: Match3 {
                head: vec![0u16; HASH_SIZE],
                chain_sz: vec![0u16; HASH_SIZE],
                chain: vec![0u16; BUF_SIZE],
                best_len: vec![0u16; BUF_SIZE],
            },
            match2: Match2 { head: vec![0u16; MATCH2_SIZE] },
            buffer: vec![0u8; BUF_GUARD],
        }
    }

    /// Initialize dictionary tables and preload the first window from `src`.
    fn init(&mut self, st: &mut State, src: &[u8])
        requires
            old(st).bufp == 0,
            old(st).buf_sz == 0,
        ensures
            final(self).wf(),
            final(st).enc(*final(self), src@) == s_init(src@),
            enc_wf(s_init(src@)),
    {
        let len = if src.len() < MAX_MATCH_LEN {
            src.len()
        } else {
            MAX_MATCH_LEN
        };
        self.buffer = vec![0u8; BUF_GUARD];
        let mut i: usize = 0;
        while i < len
            invariant
                i <= len,
                len <= src@.len(),
                len <= MAX_MATCH_LEN,
                self.buffer@.len() == BUF_GUARD,
                forall|j: int| 0 <= j < i ==> self.buffer@[j] == src@[j],
                forall|j: int| i <= j < BUF_GUARD ==> self.buffer@[j] == 0u8,
            decreases len - i,
        {
            self.buffer.set(i, src[i]);
            i = i + 1;
        }
        self.match3.init();
        self.match2.init();
        st.cycle1_countdown = MAX_DIST;
        st.wind_sz = len;
        st.wind_b = 0;
        st.wind_e = len;
        st.inp = len;
        proof {
            assert(st.enc(*self, src@) =~= s_init(src@));
        }
    }

    /// Remove stale entries before the sliding window overwrites them.
    fn reset_next_input_entry(&mut self, st: &mut State, src: &[u8])
        requires
            old(self).wf(),
            enc_wf(old(st).enc(*old(self), src@)),
        ensures
            final(self).wf(),
            final(st).enc(*final(self), src@) == s_reset(old(st).enc(*old(self), src@)),
            enc_wf(final(st).enc(*final(self), src@)),
    {
        let ghost e0 = old(st).enc(*old(self), src@);
        if st.cycle1_countdown == 0 {
            let pos = st.wind_e;
            self.match3.remove(pos, &self.buffer);
            let ghost e1 = st.enc(*self, src@);
            proof {
                assert(e1 =~= s_m3_remove(e0, pos as int));
            }
            self.match2.remove(pos, &self.buffer);
            proof {
                assert(st.enc(*self, src@) =~= s_m2_remove(e1, pos as int));
            }
        } else {
            st.cycle1_countdown = st.cycle1_countdown - 1;
            proof {
                assert(st.enc(*self, src@) =~= s_reset(e0));
            }
        }
    }

    /// Common tail of one dictionary advance: evict, refresh the 2-byte head,
    /// pull in a byte, and recompute the analysis cursor.
    fn advance_tail(&mut self, st: &mut State, src: &[u8], term: bool)
        requires
            old(self).wf(),
            enc_wf(old(st).enc(*old(self), src@)),
            term == (old(st).wind_sz == 0),
        ensures
            final(self).wf(),
            final(st).enc(*final(self), src@) == s_advance_tail(
                old(st).enc(*old(self), src@),
                term,
            ),
            enc_wf(final(st).enc(*final(self), src@)),
            final(st).inp >= old(st).inp,
            final(st).wind_sz <= old(st).wind_sz,
            src@.len() - final(st).inp + 2 * final(st).wind_sz <= src@.len() - old(st).inp + 2
                * old(st).wind_sz,
            !term ==> src@.len() - final(st).inp + 2 * final(st).wind_sz + 1 <= src@.len() - old(
                st,
            ).inp + 2 * old(st).wind_sz,
            final(st).bufp + final(st).buf_sz == final(st).inp,
            !term ==> final(st).buf_sz == final(st).wind_sz + 1,
            term ==> final(st).buf_sz == 0,
            (old(st).buf_sz == old(st).wind_sz + 1 && old(st).bufp + old(st).buf_sz == old(
                st,
            ).inp) ==> final(st).bufp == old(st).bufp + 1,
    {
        let ghost e0 = old(st).enc(*old(self), src@);
        self.reset_next_input_entry(st, src);
        let ghost e1 = st.enc(*self, src@);
        self.match2.add(st.wind_b, &self.buffer);
        let ghost e2 = st.enc(*self, src@);
        proof {
            assert(e2 =~= s_m2_add(e1, e1.wind_b));
        }
        st.get_byte(src, &mut self.buffer);
        let ghost e3 = st.enc(*self, src@);
        proof {
            assert(e3 =~= s_get_byte(e2));
        }
        if term {
            st.buf_sz = 0;
        } else {
            st.buf_sz = st.wind_sz + 1;
        }
        st.bufp = st.inp - st.buf_sz;
        proof {
            assert(st.enc(*self, src@) =~= s_advance_tail(e0, term));
        }
    }
}

/// Whether the bytes `j` positions past `rp` and `mp` agree.
spec fn bytes_eq(buffer: Seq<u8>, rp: int, mp: int, j: int) -> bool {
    buffer[rp + j] == buffer[mp + j]
}

/// The byte-comparison loop below computes exactly the common-prefix length
/// that [`s_match_len`] denotes.
proof fn lemma_match_len(buffer: Seq<u8>, rp: int, mp: int, w: int, m: int)
    requires
        0 <= m <= w,
        forall|j: int| 0 <= j < m ==> #[trigger] bytes_eq(buffer, rp, mp, j),
        m < w ==> !bytes_eq(buffer, rp, mp, m),
    ensures
        s_match_len(buffer, rp, mp, w) == m,
    decreases m,
{
    if m == 0 {
        if w > 0 {
            assert(buffer[rp] != buffer[mp]);
        }
    } else {
        assert(bytes_eq(buffer, rp, mp, 0));
        assert(buffer[rp] == buffer[mp]);
        assert forall|j: int| 0 <= j < m - 1 implies #[trigger] bytes_eq(
            buffer,
            rp + 1,
            mp + 1,
            j,
        ) by {
            assert(bytes_eq(buffer, rp, mp, j + 1));
        }
        if m - 1 < w - 1 {
            assert(bytes_eq(buffer, rp, mp, m) == bytes_eq(buffer, rp + 1, mp + 1, m - 1));
        }
        lemma_match_len(buffer, rp + 1, mp + 1, w - 1, m - 1);
    }
}

impl Dict {
    /// Advance the dictionary by one position, returning the best match
    /// offset and length.  When `skip` is true the bytes of the match just
    /// emitted are fast-forwarded first so the tables stay aligned with the
    /// encoded output.
    #[verifier::loop_isolation(false)]
    #[verifier::rlimit(60)]
    fn advance(
        &mut self,
        st: &mut State,
        src: &[u8],
        prev_len: usize,
        best_off: &mut Vec<usize>,
        skip: bool,
    ) -> (r: (usize, usize))
        requires
            old(self).wf(),
            enc_wf(old(st).enc(*old(self), src@)),
            old(best_off)@.len() == MAX_MATCH_TABLE,
            forall|j: int| 0 <= j < MAX_MATCH_TABLE ==> old(best_off)@[j] <= BUF_SIZE,
        ensures
            final(self).wf(),
            final(best_off)@.len() == MAX_MATCH_TABLE,
            forall|j: int| 0 <= j < MAX_MATCH_TABLE ==> final(best_off)@[j] <= BUF_SIZE,
            ({
                let a = s_advance(
                    old(st).enc(*old(self), src@),
                    prev_len as int,
                    old(best_off)@,
                    skip,
                );
                &&& final(st).enc(*final(self), src@) == a.0
                &&& r.0 as int == a.1
                &&& r.1 as int == a.2
                &&& final(best_off)@ == a.3
            }),
            enc_wf(final(st).enc(*final(self), src@)),
            final(st).inp >= old(st).inp,
            final(st).wind_sz <= old(st).wind_sz,
            src@.len() - final(st).inp + 2 * final(st).wind_sz <= src@.len() - old(st).inp + 2
                * old(st).wind_sz,
            final(st).buf_sz > 0 ==> src@.len() - final(st).inp + 2 * final(st).wind_sz + 1
                <= src@.len() - old(st).inp + 2 * old(st).wind_sz,
            final(st).buf_sz > 0 ==> final(st).buf_sz == final(st).wind_sz + 1,
            final(st).bufp + final(st).buf_sz == final(st).inp,
            (!skip && old(st).buf_sz == old(st).wind_sz + 1 && old(st).bufp + old(st).buf_sz == old(
                st,
            ).inp) ==> final(st).bufp == old(st).bufp + 1,
            r.1 <= MAX_MATCH_LEN,
            r.1 >= 2 ==> 1 <= r.0 <= BUF_SIZE,
    {
        proof {
            reveal(crate::model::s_advance);
        }
        let ghost e_in = old(st).enc(*old(self), src@);
        if skip {
            // Skip phase: advance through already-encoded match bytes while
            // keeping the dictionary in sync with the emitted output.
            let k = if prev_len > 0 {
                prev_len - 1
            } else {
                0
            };
            let mut i: usize = 0;
            while i < k
                invariant
                    i <= k,
                    self.wf(),
                    enc_wf(st.enc(*self, src@)),
                    s_skip_loop(st.enc(*self, src@), k - i) == s_skip_loop(e_in, k as int),
                    st.inp >= e_in.inp,
                    st.wind_sz <= e_in.wind_sz,
                    src@.len() - st.inp + 2 * st.wind_sz <= src@.len() - e_in.inp + 2
                        * e_in.wind_sz,
                    st.bufp == e_in.bufp,
                    st.buf_sz == e_in.buf_sz,
                decreases k - i,
            {
                let ghost e_a = st.enc(*self, src@);
                self.reset_next_input_entry(st, src);
                let ghost e_b = st.enc(*self, src@);
                self.match3.skip_advance(st, &self.buffer);
                let ghost e_c = st.enc(*self, src@);
                proof {
                    assert(e_c =~= s_m3_skip_advance(e_b));
                    assert(enc_wf(e_c));
                }
                self.match2.add(st.wind_b, &self.buffer);
                let ghost e_d = st.enc(*self, src@);
                proof {
                    assert(e_d =~= s_m2_add(e_c, e_c.wind_b));
                    assert(enc_wf(e_d));
                }
                st.get_byte(src, &mut self.buffer);
                proof {
                    assert(st.enc(*self, src@) =~= s_get_byte(e_d));
                    assert(st.enc(*self, src@) == s_skip_step(e_a));
                    assert(enc_wf(st.enc(*self, src@)));
                }
                i = i + 1;
            }
        }
        let ghost e_skip = st.enc(*self, src@);
        proof {
            assert(e_skip == (if skip {
                s_skip_loop(
                    e_in,
                    if prev_len as int >= 1 {
                        prev_len - 1
                    } else {
                        0
                    },
                )
            } else {
                e_in
            }));
        }

        let mh_mc = self.match3.advance(st, &self.buffer);
        let match_head: u16 = mh_mc.0;
        let match_count0: usize = mh_mc.1;
        let ghost adv3 = s_m3_advance(e_skip);
        let ghost e1 = adv3.0;
        proof {
            assert(st.enc(*self, src@) =~= e1);
            assert(enc_wf(e1));
        }
        let match_count = if match_head == 0xffff {
            0
        } else {
            match_count0
        };

        if st.wind_sz <= 1 {
            // Window exhausted: no further matches possible once we reach EOF.
            let should_terminate = st.wind_sz == 0;
            self.match3.best_len.set(st.wind_b, (MAX_MATCH_LEN + 1) as u16);
            let ghost e2 = st.enc(*self, src@);
            proof {
                assert(e2 =~= Enc {
                    h3_best: e1.h3_best.update(e1.wind_b, (MAX_MATCH_LEN + 1) as u16),
                    ..e1
                });
                assert(enc_wf(e2));
            }
            self.advance_tail(st, src, should_terminate);
            let lb_len: usize = if should_terminate {
                0
            } else {
                1
            };
            return (0, lb_len);
        }

        let mut lb_len: usize = 1;
        let mut lb_off: usize = 0;
        let mut lb_pos: usize = 0;
        let mut best_pos: Vec<usize> = vec![0usize; MAX_MATCH_TABLE];
        proof {
            assert(best_pos@ =~= Seq::new(MAX_MATCH_TABLE as nat, |i: int| 0usize));
        }
        let found = self.match2.search(st, &mut lb_pos, &mut lb_len, &mut best_pos, &self.buffer);
        let ghost sr = s_search2(
            e1.h2_head,
            e1.buffer,
            e1.wind_b,
            0,
            1,
            Seq::new(MAX_MATCH_TABLE as nat, |i: int| 0usize),
        );
        proof {
            assert(found == sr.0 && lb_pos as int == sr.1 && lb_len as int == sr.2 && best_pos@
                == sr.3);
        }
        let ghost w_target: (int, int, Seq<usize>) = if sr.0 && e1.wind_sz >= 3 {
            s_walk(
                e1,
                adv3.1,
                if adv3.1 == 0xffff {
                    0
                } else {
                    adv3.2
                },
                sr.2,
                sr.1,
                sr.3,
            )
        } else {
            (sr.2, sr.1, sr.3)
        };

        if found && st.wind_sz >= 3 {
            let mut match_pos: usize = match_head as usize;
            let mut it: usize = 0;
            #[verifier::loop_isolation(true)]
            while it < match_count
                invariant_except_break
                    s_walk(
                        e1,
                        match_pos as int,
                        match_count - it,
                        lb_len as int,
                        lb_pos as int,
                        best_pos@,
                    ) == w_target,
                invariant
                    it <= match_count,
                    1 <= lb_len <= st.wind_sz,
                    lb_pos < BUF_SIZE,
                    best_pos@.len() == MAX_MATCH_TABLE,
                    forall|j: int| 0 <= j < MAX_MATCH_TABLE ==> best_pos@[j] <= BUF_SIZE,
                    st.enc(*self, src@) == e1,
                    enc_wf(e1),
                    3 <= st.wind_sz,
                ensures
                    lb_len as int == w_target.0,
                    lb_pos as int == w_target.1,
                    best_pos@ == w_target.2,
                    1 <= lb_len <= st.wind_sz,
                    lb_pos < BUF_SIZE,
                    best_pos@.len() == MAX_MATCH_TABLE,
                    forall|j: int| 0 <= j < MAX_MATCH_TABLE ==> best_pos@[j] <= BUF_SIZE,
                    st.enc(*self, src@) == e1,
                decreases match_count - it,
            {
                if match_pos >= BUF_SIZE {
                    break ;
                }
                let window = st.wind_sz;
                let ref_pos = st.wind_b;
                let mut matched: usize = 0;
                while matched < window && self.buffer[ref_pos + matched] == self.buffer[match_pos
                    + matched]
                    invariant
                        matched <= window,
                        match_pos < BUF_SIZE,
                        forall|j: int|
                            0 <= j < matched ==> #[trigger] bytes_eq(
                                self.buffer@,
                                ref_pos as int,
                                match_pos as int,
                                j,
                            ),
                    decreases window - matched,
                {
                    proof {
                        assert(bytes_eq(
                            self.buffer@,
                            ref_pos as int,
                            match_pos as int,
                            matched as int,
                        ));
                    }
                    matched = matched + 1;
                }
                proof {
                    if matched < window {
                        assert(!bytes_eq(
                            self.buffer@,
                            ref_pos as int,
                            match_pos as int,
                            matched as int,
                        ));
                    }
                }
                proof {
                    lemma_match_len(
                        self.buffer@,
                        ref_pos as int,
                        match_pos as int,
                        window as int,
                        matched as int,
                    );
                }
                if matched >= 2 {
                    if matched < MAX_MATCH_TABLE && best_pos[matched] == 0 {
                        best_pos.set(matched, match_pos + 1);
                    }
                    if matched > lb_len {
                        lb_len = matched;
                        lb_pos = match_pos;
                        if lb_len == window || lb_len > self.match3.best_len[match_pos] as usize {
                            break ;
                        }
                    }
                }
                match_pos = self.match3.chain[match_pos] as usize;
                it = it + 1;
            }
        }

        if lb_len > 1 {
            lb_off = st.pos2off(lb_pos);
        }
        self.match3.best_len.set(st.wind_b, lb_len as u16);
        let ghost e2 = st.enc(*self, src@);
        proof {
            assert(e2 =~= Enc { h3_best: e1.h3_best.update(e1.wind_b, w_target.0 as u16), ..e1 });
            assert(enc_wf(e2));
        }

        let ghost bo_in = old(best_off)@;
        let ghost bo_spec = s_best_off(e2.wind_b, best_pos@, bo_in);
        let mut ii: usize = 2;
        while ii < MAX_MATCH_TABLE
            invariant
                2 <= ii <= MAX_MATCH_TABLE,
                best_off@.len() == MAX_MATCH_TABLE,
                forall|j: int| 0 <= j < 2 ==> best_off@[j] == bo_in[j],
                forall|j: int| ii <= j < MAX_MATCH_TABLE ==> best_off@[j] == bo_in[j],
                forall|j: int| 2 <= j < ii ==> best_off@[j] == bo_spec[j],
                forall|j: int| 0 <= j < MAX_MATCH_TABLE ==> best_off@[j] <= BUF_SIZE,
            decreases MAX_MATCH_TABLE - ii,
        {
            if best_pos[ii] != 0 {
                let o = st.pos2off(best_pos[ii] - 1);
                best_off.set(ii, o);
            } else {
                best_off.set(ii, 0);
            }
            ii = ii + 1;
        }
        proof {
            assert(best_off@ =~= bo_spec);
        }

        self.advance_tail(st, src, false);
        (lb_off, lb_len)
    }
}

/// Append one byte at the output cursor, failing when the buffer is full.
fn write_byte(dst: &mut Vec<u8>, out_pos: &mut usize, v: u8) -> (r: Result<(), Error>)
    requires
        *old(out_pos) <= old(dst)@.len(),
    ensures
        final(dst)@.len() == old(dst)@.len(),
        match r {
            Ok(()) => {
                &&& *old(out_pos) < old(dst)@.len()
                &&& *final(out_pos) == *old(out_pos) + 1
                &&& *final(out_pos) <= final(dst)@.len()
                &&& final(dst)@.subrange(0, *final(out_pos) as int) == old(dst)@.subrange(
                    0,
                    *old(out_pos) as int,
                ).push(v)
            },
            Err(e) => {
                &&& e == Error::OutputOverrun
                &&& *old(out_pos) == old(dst)@.len()
                &&& final(dst)@ == old(dst)@
                &&& *final(out_pos) == *old(out_pos)
            },
        },
{
    if *out_pos < dst.len() {
        let p = *out_pos;
        dst.set(p, v);
        *out_pos = p + 1;
        proof {
            assert(dst@.subrange(0, (p + 1) as int) =~= old(dst)@.subrange(0, p as int).push(v));
        }
        Ok(())
    } else {
        Err(Error::OutputOverrun)
    }
}

/// Emit the repeated zero-byte encoding used for long literal/match lengths.
#[verifier::loop_isolation(false)]
fn write_zero_byte_length(dst: &mut Vec<u8>, out_pos: &mut usize, len: usize) -> (r: Result<
    (),
    Error,
>)
    requires
        *old(out_pos) <= old(dst)@.len(),
        1 <= len,
    ensures
        final(dst)@.len() == old(dst)@.len(),
        match r {
            Ok(()) => {
                &&& *final(out_pos) <= final(dst)@.len()
                &&& *final(out_pos) == *old(out_pos) + s_zero_run(len as int).len()
                &&& final(dst)@.subrange(0, *final(out_pos) as int) == old(dst)@.subrange(
                    0,
                    *old(out_pos) as int,
                ) + s_zero_run(len as int)
            },
            Err(e) => {
                &&& e == Error::OutputOverrun
                &&& *old(out_pos) + s_zero_run(len as int).len() > final(dst)@.len()
            },
        },
{
    let ghost out0 = old(dst)@.subrange(0, *old(out_pos) as int);
    let mut l = len;
    while l > 255
        invariant
            1 <= l <= len,
            *out_pos <= dst@.len(),
            dst@.len() == old(dst)@.len(),
            *out_pos == dst@.subrange(0, *out_pos as int).len(),
            dst@.subrange(0, *out_pos as int) + s_zero_run(l as int) == out0 + s_zero_run(
                len as int,
            ),
        decreases l,
    {
        let ghost before = dst@.subrange(0, *out_pos as int);
        match write_byte(dst, out_pos, 0u8) {
            Ok(()) => {},
            Err(e) => {
                proof {
                    lemma_zero_run_len(l as int);
                }
                return Err(e);
            },
        }
        proof {
            assert(s_zero_run(l as int) == seq![0u8] + s_zero_run(l - 255));
            assert(dst@.subrange(0, *out_pos as int) + s_zero_run(l - 255) =~= before + s_zero_run(
                l as int,
            ));
        }
        l = l - 255;
    }
    let ghost before = dst@.subrange(0, *out_pos as int);
    match write_byte(dst, out_pos, l as u8) {
        Ok(()) => {
            proof {
                assert(s_zero_run(l as int) =~= seq![lo8(l as int)]);
                assert(dst@.subrange(0, *out_pos as int) =~= out0 + s_zero_run(len as int));
            }
            Ok(())
        },
        Err(e) => {
            proof {
                assert(s_zero_run(l as int).len() == 1);
            }
            Err(e)
        },
    }
}

/// Emit a literal run following the LZO opcode rules.  A run of at most three
/// bytes back-patches its length into the state bits of the previous opcode,
/// which the driver guarantees exists.
#[verifier::loop_isolation(false)]
fn encode_literal_run(
    dst: &mut Vec<u8>,
    out_pos: &mut usize,
    src: &[u8],
    lit_ptr: usize,
    lit_len: usize,
) -> (r: Result<(), Error>)
    requires
        *old(out_pos) <= old(dst)@.len(),
        lit_ptr + lit_len <= src@.len(),
        *old(out_pos) == 0 || *old(out_pos) >= 2,
        *old(out_pos) > 0 || lit_len > 0,
    ensures
        final(dst)@.len() == old(dst)@.len(),
        ({
            let out2 = s_lit_run(
                old(dst)@.subrange(0, *old(out_pos) as int),
                src@,
                lit_ptr as int,
                lit_len as int,
            );
            match r {
                Ok(()) => {
                    &&& *final(out_pos) <= final(dst)@.len()
                    &&& *final(out_pos) == out2.len()
                    &&& final(dst)@.subrange(0, *final(out_pos) as int) == out2
                },
                Err(e) => {
                    &&& e == Error::OutputOverrun
                    &&& out2.len() > final(dst)@.len()
                },
            }
        }),
{
    let ghost out0 = old(dst)@.subrange(0, *old(out_pos) as int);
    let ghost out2 = s_lit_run(out0, src@, lit_ptr as int, lit_len as int);
    let src_len = src.len();
    proof {
        reveal(crate::model::s_lit_run);
        assert(out0.len() == *old(out_pos));
        assert(src@.len() == src_len);
    }
    if *out_pos == 0 && lit_len <= 238 {
        match write_byte(dst, out_pos, (17 + lit_len) as u8) {
            Ok(()) => {},
            Err(e) => {
                return Err(e);
            },
        }
    } else if lit_len <= 3 {
        let idx = *out_pos - 2;
        let b = dst[idx];
        dst.set(idx, b | (lit_len as u8));
        proof {
            assert(dst@.subrange(0, *out_pos as int) =~= out0.update(
                out0.len() - 2,
                out0[out0.len() - 2] | lo8(lit_len as int),
            ));
        }
    } else if lit_len <= 18 {
        match write_byte(dst, out_pos, (lit_len - 3) as u8) {
            Ok(()) => {},
            Err(e) => {
                return Err(e);
            },
        }
    } else {
        match write_byte(dst, out_pos, 0u8) {
            Ok(()) => {},
            Err(e) => {
                proof {
                    lemma_zero_run_len(lit_len - 18);
                }
                return Err(e);
            },
        }
        match write_zero_byte_length(dst, out_pos, lit_len - 18) {
            Ok(()) => {},
            Err(e) => {
                return Err(e);
            },
        }
    }
    let ghost pre = dst@.subrange(0, *out_pos as int);
    proof {
        assert(out2 == pre + src@.subrange(lit_ptr as int, lit_ptr + lit_len));
        assert(*out_pos == pre.len());
    }
    let mut i: usize = 0;
    while i < lit_len
        invariant
            i <= lit_len,
            *out_pos <= dst@.len(),
            dst@.len() == old(dst)@.len(),
            *out_pos == pre.len() + i,
            dst@.subrange(0, *out_pos as int) == pre + src@.subrange(lit_ptr as int, lit_ptr + i),
        decreases lit_len - i,
    {
        match write_byte(dst, out_pos, src[lit_ptr + i]) {
            Ok(()) => {},
            Err(e) => {
                return Err(e);
            },
        }
        proof {
            assert(src@.subrange(lit_ptr as int, lit_ptr + (i + 1 as int)) =~= src@.subrange(
                lit_ptr as int,
                lit_ptr + i,
            ).push(src@[lit_ptr + i]));
            assert(dst@.subrange(0, *out_pos as int) =~= pre + src@.subrange(
                lit_ptr as int,
                lit_ptr + (i + 1 as int),
            ));
        }
        i = i + 1;
    }
    proof {
        assert(dst@.subrange(0, *out_pos as int) =~= out2);
    }
    Ok(())
}

/// Emit an M3 or M4 back-reference (the far opcode classes).
#[verifier::rlimit(100)]
fn encode_lookback_far(
    dst: &mut Vec<u8>,
    out_pos: &mut usize,
    lb_len: usize,
    lb_off: usize,
    last_lit_len: usize,
) -> (r: Result<(), Error>)
    requires
        *old(out_pos) <= old(dst)@.len(),
        2 <= lb_len <= MAX_MATCH_LEN,
        1 <= lb_off <= BUF_SIZE,
        lb_len != 2,
        !(lb_len <= M2_MAX_LEN && lb_off <= M2_MAX_OFFSET),
        !(lb_len == M2_MIN_LEN && lb_off <= M1_MAX_OFFSET + M2_MAX_OFFSET && last_lit_len >= 4),
    ensures
        final(dst)@.len() == old(dst)@.len(),
        ({
            let out2 = s_match_op(
                old(dst)@.subrange(0, *old(out_pos) as int),
                lb_len as int,
                lb_off as int,
                last_lit_len as int,
            );
            match r {
                Ok(()) => {
                    &&& *final(out_pos) <= final(dst)@.len()
                    &&& *final(out_pos) == out2.len()
                    &&& final(dst)@.subrange(0, *final(out_pos) as int) == out2
                },
                Err(e) => {
                    &&& e == Error::OutputOverrun
                    &&& out2.len() > final(dst)@.len()
                },
            }
        }),
{
    let ghost out0 = old(dst)@.subrange(0, *old(out_pos) as int);
    let ghost out2 = s_match_op(out0, lb_len as int, lb_off as int, last_lit_len as int);
    proof {
        assert(out0.len() == *old(out_pos));
    }
    if lb_off <= M3_MAX_OFFSET {
        let o = lb_off - 1;
        if lb_len <= M3_MAX_LEN {
            proof {
                reveal(crate::model::s_match_op);
                assert(out2 == out0.push(lo8(32 + lb_len - 2)).push(lo8(o as int * 4)).push(
                    lo8(o as int / 64),
                ));
            }
            match write_byte(dst, out_pos, (32 + (lb_len - 2)) as u8) {
                Ok(()) => {},
                Err(e) => {
                    return Err(e);
                },
            }
        } else {
            proof {
                reveal(crate::model::s_match_op);
                lemma_zero_run_len(lb_len - M3_MAX_LEN);
                assert(out2 == ((out0.push(32u8) + s_zero_run(lb_len - M3_MAX_LEN)).push(
                    lo8(o as int * 4),
                )).push(lo8(o as int / 64)));
            }
            match write_byte(dst, out_pos, 32u8) {
                Ok(()) => {},
                Err(e) => {
                    return Err(e);
                },
            }
            match write_zero_byte_length(dst, out_pos, lb_len - M3_MAX_LEN) {
                Ok(()) => {},
                Err(e) => {
                    return Err(e);
                },
            }
        }
        match write_byte(dst, out_pos, ((o * 4) % 256) as u8) {
            Ok(()) => {},
            Err(e) => {
                return Err(e);
            },
        }
        match write_byte(dst, out_pos, (o / 64) as u8) {
            Ok(()) => {},
            Err(e) => {
                return Err(e);
            },
        }
        proof {
            assert(dst@.subrange(0, *out_pos as int) == out2);
        }
    } else {
        let o = lb_off - M4_BASE_OFFSET;
        let h = ((o / 0x4000) % 2) * 8;
        if lb_len <= M4_MAX_LEN {
            proof {
                reveal(crate::model::s_match_op);
                assert(out2 == out0.push(lo8(16 + h + lb_len - 2)).push(lo8(o as int * 4)).push(
                    lo8(o as int / 64),
                ));
            }
            match write_byte(dst, out_pos, (16 + h + (lb_len - 2)) as u8) {
                Ok(()) => {},
                Err(e) => {
                    return Err(e);
                },
            }
        } else {
            proof {
                reveal(crate::model::s_match_op);
                lemma_zero_run_len(lb_len - M4_MAX_LEN);
                assert(out2 == ((out0.push(lo8(16 + h)) + s_zero_run(lb_len - M4_MAX_LEN)).push(
                    lo8(o as int * 4),
                )).push(lo8(o as int / 64)));
            }
            match write_byte(dst, out_pos, (16 + h) as u8) {
                Ok(()) => {},
                Err(e) => {
                    return Err(e);
                },
            }
            match write_zero_byte_length(dst, out_pos, lb_len - M4_MAX_LEN) {
                Ok(()) => {},
                Err(e) => {
                    return Err(e);
                },
            }
        }
        match write_byte(dst, out_pos, ((o * 4) % 256) as u8) {
            Ok(()) => {},
            Err(e) => {
                return Err(e);
            },
        }
        match write_byte(dst, out_pos, ((o / 64) % 256) as u8) {
            Ok(()) => {},
            Err(e) => {
                return Err(e);
            },
        }
        proof {
            assert(dst@.subrange(0, *out_pos as int) == out2);
        }
    }
    Ok(())
}

/// Emit a back-reference according to the LZO opcode encoding.
#[verifier::rlimit(100)]
fn encode_lookback_match(
    dst: &mut Vec<u8>,
    out_pos: &mut usize,
    lb_len: usize,
    lb_off: usize,
    last_lit_len: usize,
) -> (r: Result<(), Error>)
    requires
        *old(out_pos) <= old(dst)@.len(),
        2 <= lb_len <= MAX_MATCH_LEN,
        1 <= lb_off <= BUF_SIZE,
        lb_len == 2 ==> lb_off <= M1_MAX_OFFSET,
    ensures
        final(dst)@.len() == old(dst)@.len(),
        ({
            let out2 = s_match_op(
                old(dst)@.subrange(0, *old(out_pos) as int),
                lb_len as int,
                lb_off as int,
                last_lit_len as int,
            );
            match r {
                Ok(()) => {
                    &&& *final(out_pos) <= final(dst)@.len()
                    &&& *final(out_pos) == out2.len()
                    &&& final(dst)@.subrange(0, *final(out_pos) as int) == out2
                },
                Err(e) => {
                    &&& e == Error::OutputOverrun
                    &&& out2.len() > final(dst)@.len()
                },
            }
        }),
{
    let ghost out0 = old(dst)@.subrange(0, *old(out_pos) as int);
    let ghost out2 = s_match_op(out0, lb_len as int, lb_off as int, last_lit_len as int);
    proof {
        assert(out0.len() == *old(out_pos));
    }
    if lb_len == 2 {
        let o = lb_off - 1;
        proof {
            reveal(crate::model::s_match_op);
            assert(out2 == out0.push(lo8((o as int % 4) * 4)).push(lo8(o as int / 4)));
        }
        match write_byte(dst, out_pos, ((o % 4) * 4) as u8) {
            Ok(()) => {},
            Err(e) => {
                return Err(e);
            },
        }
        match write_byte(dst, out_pos, (o / 4) as u8) {
            Ok(()) => {},
            Err(e) => {
                return Err(e);
            },
        }
        proof {
            assert(dst@.subrange(0, *out_pos as int) == out2);
        }
    } else if lb_len <= M2_MAX_LEN && lb_off <= M2_MAX_OFFSET {
        let o = lb_off - 1;
        proof {
            reveal(crate::model::s_match_op);
            assert(out2 == out0.push(lo8((lb_len - 1) * 32 + (o as int % 8) * 4)).push(
                lo8(o as int / 8),
            ));
        }
        match write_byte(dst, out_pos, ((lb_len - 1) * 32 + (o % 8) * 4) as u8) {
            Ok(()) => {},
            Err(e) => {
                return Err(e);
            },
        }
        match write_byte(dst, out_pos, (o / 8) as u8) {
            Ok(()) => {},
            Err(e) => {
                return Err(e);
            },
        }
        proof {
            assert(dst@.subrange(0, *out_pos as int) == out2);
        }
    } else if lb_len == M2_MIN_LEN && lb_off <= M1_MAX_OFFSET + M2_MAX_OFFSET && last_lit_len
        >= 4 {
        let o = lb_off - 1 - M2_MAX_OFFSET;
        proof {
            reveal(crate::model::s_match_op);
            assert(out2 == out0.push(lo8((o as int % 4) * 4)).push(lo8(o as int / 4)));
        }
        match write_byte(dst, out_pos, ((o % 4) * 4) as u8) {
            Ok(()) => {},
            Err(e) => {
                return Err(e);
            },
        }
        match write_byte(dst, out_pos, (o / 4) as u8) {
            Ok(()) => {},
            Err(e) => {
                return Err(e);
            },
        }
        proof {
            assert(dst@.subrange(0, *out_pos as int) == out2);
        }
    } else {
        match encode_lookback_far(dst, out_pos, lb_len, lb_off, last_lit_len) {
            Ok(()) => {},
            Err(e) => {
                return Err(e);
            },
        }
    }
    Ok(())
}

/// Apply the heuristics that prefer cheaper opcodes when a shorter match can
/// be emitted at a closer distance.
fn find_better_match(best_off: &Vec<usize>, lb_len: &mut usize, lb_off: &mut usize)
    requires
        best_off@.len() == MAX_MATCH_TABLE,
    ensures
        ({
            let fb = s_find_better(best_off@, *old(lb_len) as int, *old(lb_off) as int);
            &&& *final(lb_len) as int == fb.0
            &&& *final(lb_off) as int == fb.1
        }),
{
    let len = *lb_len;
    let off = *lb_off;
    if len <= M2_MIN_LEN || off <= M2_MAX_OFFSET {
        return ;
    }
    if off > M2_MAX_OFFSET && len >= M2_MIN_LEN + 1 && len <= M2_MAX_LEN + 1 && best_off[len - 1]
        != 0 && best_off[len - 1] <= M2_MAX_OFFSET {
        *lb_len = len - 1;
        *lb_off = best_off[len - 1];
    } else if off > M3_MAX_OFFSET && len >= M4_MAX_LEN + 1 && len <= M2_MAX_LEN + 2 && best_off[len
        - 2] != 0 && best_off[len] <= M2_MAX_OFFSET {
        *lb_len = len - 2;
        *lb_off = best_off[len - 2];
    } else if off > M3_MAX_OFFSET && len >= M4_MAX_LEN + 1 && len <= M3_MAX_LEN + 1 && best_off[len
        - 1] != 0 && best_off[len - 2] <= M3_MAX_OFFSET {
        *lb_len = len - 1;
        *lb_off = best_off[len - 1];
    }
}

/// Core compression routine shared by the heap-allocating and buffer-reusing
/// entry points.  It emits exactly [`compressed`]`(src@)`: when `dst` can hold
/// that stream the result is `Ok` with its length and the stream stands at
/// the front of `dst`; when `dst` is even one byte too short the result is
/// `Err(Error::OutputOverrun)`.
#[verifier::rlimit(100)]
fn compress_impl(src: &[u8], dst: &mut Vec<u8>, storage: &mut Dict) -> (r: Result<usize, Error>)
    ensures
        final(dst)@.len() == old(dst)@.len(),
        final(storage).wf(),
        ({
            let out = compressed(src@);
            match r {
                Ok(k) => {
                    &&& out.len() <= final(dst)@.len()
                    &&& k == out.len()
                    &&& final(dst)@.subrange(0, k as int) == out
                },
                Err(e) => {
                    &&& e == Error::OutputOverrun
                    &&& out.len() > final(dst)@.len()
                },
            }
        }),
{
    let mut st = State::new();
    storage.init(&mut st, src);
    let ghost e0 = s_init(src@);
    proof {
        assert(st.enc(*storage, src@) == e0);
    }

    let mut out_pos: usize = 0;
    let mut lit_len: usize = 0;
    let mut best_off: Vec<usize> = vec![0usize; MAX_MATCH_TABLE];
    let ghost bo0 = Seq::new(MAX_MATCH_TABLE as nat, |i: int| 0usize);
    proof {
        assert(best_off@ =~= bo0);
    }

    let mut lit_ptr: usize = st.inp;
    let a0 = storage.advance(&mut st, src, 0, &mut best_off, false);
    let mut lb_off: usize = a0.0;
    let mut lb_len: usize = a0.1;

    let ghost target = compressed(src@);
    let ghost fuel0 = s_fuel(src@);
    let ghost mut fuel = fuel0;
    proof {
        let ap = s_advance(e0, 0, bo0, false);
        assert(target == s_enc_loop(
            ap.0,
            ap.1,
            ap.2,
            ap.3,
            e0.inp,
            0,
            Seq::<u8>::empty(),
            fuel0,
        ));
        assert(dst@.subrange(0, 0) =~= Seq::<u8>::empty());
    }

    while st.buf_sz > 0
        invariant
            storage.wf(),
            enc_wf(st.enc(*storage, src@)),
            dst@.len() == old(dst)@.len(),
            out_pos <= dst@.len(),
            out_pos == 0 || out_pos >= 2,
            best_off@.len() == MAX_MATCH_TABLE,
            forall|j: int| 0 <= j < MAX_MATCH_TABLE ==> best_off@[j] <= BUF_SIZE,
            lb_len <= MAX_MATCH_LEN,
            lb_len >= 2 ==> 1 <= lb_off <= BUF_SIZE,
            st.buf_sz > 0 ==> st.buf_sz == st.wind_sz + 1,
            st.bufp + st.buf_sz == st.inp,
            lit_len > 0 ==> lit_ptr + lit_len == st.bufp,
            lit_ptr + lit_len <= st.inp,
            fuel >= (src@.len() - st.inp) + 2 * st.wind_sz + st.buf_sz,
            target == compressed(src@),
            s_enc_loop(
                st.enc(*storage, src@),
                lb_off as int,
                lb_len as int,
                best_off@,
                lit_ptr as int,
                lit_len as int,
                dst@.subrange(0, out_pos as int),
                fuel,
            ) == target,
        decreases src@.len() - st.inp + 2 * st.wind_sz + st.buf_sz,
    {
        let ghost e_it = st.enc(*storage, src@);
        let ghost out_it = dst@.subrange(0, out_pos as int);
        let ghost bo_it = best_off@;
        let ghost lo0 = lb_off as int;
        let ghost ln0 = lb_len as int;
        let ghost ll0 = lit_len as int;
        let ghost lp_pre = lit_ptr as int;

        if lit_len == 0 {
            // Capture the starting point for the next literal run.
            lit_ptr = st.bufp;
        }
        proof {
            assert(lit_ptr as int == (if ll0 == 0 {
                e_it.bufp
            } else {
                lp_pre
            }));
            assert(out_it.len() == out_pos as int);
            assert(fuel > 0);
        }

        let drop_match = lb_len < 2 || (lb_len == 2 && (lb_off > M1_MAX_OFFSET || lit_len == 0
            || lit_len >= 4)) || (lb_len == 2 && out_pos == 0) || (out_pos == 0 && lit_len == 0)
            || (lb_len == M2_MIN_LEN && lb_off > M1_MAX_OFFSET + M2_MAX_OFFSET && lit_len >= 4);
        proof {
            assert(drop_match == s_discard(ln0, lo0, ll0, out_it.len() as int));
        }

        if drop_match {
            lit_len = lit_len + 1;
            let a = storage.advance(&mut st, src, 0, &mut best_off, false);
            lb_off = a.0;
            lb_len = a.1;
            proof {
                let ap = s_advance(e_it, 0, bo_it, false);
                assert(s_enc_loop(e_it, lo0, ln0, bo_it, lp_pre, ll0, out_it, fuel) == s_enc_loop(
                    ap.0,
                    ap.1,
                    ap.2,
                    ap.3,
                    lit_ptr as int,
                    ll0 + 1,
                    out_it,
                    (fuel - 1) as nat,
                ));
                fuel = (fuel - 1) as nat;
            }
        } else {
            find_better_match(&best_off, &mut lb_len, &mut lb_off);
            proof {
                let fb = s_find_better(bo_it, ln0, lo0);
                assert(lb_len as int == fb.0 && lb_off as int == fb.1);
                assert(2 <= lb_len <= MAX_MATCH_LEN);
                assert(1 <= lb_off <= BUF_SIZE);
                assert(lb_len == 2 ==> lb_off <= M1_MAX_OFFSET);
            }
            match encode_literal_run(dst, &mut out_pos, src, lit_ptr, lit_len) {
                Ok(()) => {},
                Err(e) => {
                    proof {
                        let fb = s_find_better(bo_it, ln0, lo0);
                        let out1 = s_lit_run(out_it, src@, lit_ptr as int, ll0);
                        let out2 = s_match_op(out1, fb.0, fb.1, ll0);
                        lemma_match_op_len(out1, fb.0, fb.1, ll0);
                        let ap = s_advance(e_it, fb.0, bo_it, true);
                        assert(target == s_enc_loop(
                            ap.0,
                            ap.1,
                            ap.2,
                            ap.3,
                            lit_ptr as int,
                            0,
                            out2,
                            (fuel - 1) as nat,
                        ));
                        lemma_enc_loop_len(
                            ap.0,
                            ap.1,
                            ap.2,
                            ap.3,
                            lit_ptr as int,
                            0,
                            out2,
                            (fuel - 1) as nat,
                        );
                        assert(target.len() > dst@.len());
                    }
                    return Err(e);
                },
            }
            match encode_lookback_match(dst, &mut out_pos, lb_len, lb_off, lit_len) {
                Ok(()) => {},
                Err(e) => {
                    proof {
                        let fb = s_find_better(bo_it, ln0, lo0);
                        let out1 = s_lit_run(out_it, src@, lit_ptr as int, ll0);
                        let out2 = s_match_op(out1, fb.0, fb.1, ll0);
                        let ap = s_advance(e_it, fb.0, bo_it, true);
                        assert(target == s_enc_loop(
                            ap.0,
                            ap.1,
                            ap.2,
                            ap.3,
                            lit_ptr as int,
                            0,
                            out2,
                            (fuel - 1) as nat,
                        ));
                        lemma_enc_loop_len(
                            ap.0,
                            ap.1,
                            ap.2,
                            ap.3,
                            lit_ptr as int,
                            0,
                            out2,
                            (fuel - 1) as nat,
                        );
                        assert(target.len() > dst@.len());
                    }
                    return Err(e);
                },
            }
            let prev_len = lb_len;
            lit_len = 0;
            // Advance over the matched bytes, updating the search structures.
            let a = storage.advance(&mut st, src, prev_len, &mut best_off, true);
            lb_off = a.0;
            lb_len = a.1;
            proof {
                let fb = s_find_better(bo_it, ln0, lo0);
                let out1 = s_lit_run(out_it, src@, lit_ptr as int, ll0);
                let out2 = s_match_op(out1, fb.0, fb.1, ll0);
                lemma_match_op_len(out1, fb.0, fb.1, ll0);
                let ap = s_advance(e_it, fb.0, bo_it, true);
                assert(s_enc_loop(e_it, lo0, ln0, bo_it, lp_pre, ll0, out_it, fuel) == s_enc_loop(
                    ap.0,
                    ap.1,
                    ap.2,
                    ap.3,
                    lit_ptr as int,
                    0,
                    out2,
                    (fuel - 1) as nat,
                ));
                assert(dst@.subrange(0, out_pos as int) == out2);
                fuel = (fuel - 1) as nat;
            }
        }
    }

    // Flush any trailing literal bytes; an entirely empty stream emits only
    // the terminator.
    let ghost e_end = st.enc(*storage, src@);
    let ghost out_end = dst@.subrange(0, out_pos as int);
    let ghost out_flushed = if out_end.len() == 0 && lit_len == 0 {
        out_end
    } else {
        s_lit_run(out_end, src@, lit_ptr as int, lit_len as int)
    };
    proof {
        assert(target == out_flushed + seq![0x11u8, 0u8, 0u8]);
    }
    if out_pos > 0 || lit_len > 0 {
        match encode_literal_run(dst, &mut out_pos, src, lit_ptr, lit_len) {
            Ok(()) => {},
            Err(e) => {
                return Err(e);
            },
        }
    }
    proof {
        assert(dst@.subrange(0, out_pos as int) == out_flushed);
    }

    // Emit terminating M4 instruction (distance 0, length 3).
    match write_byte(dst, &mut out_pos, 0x11u8) {
        Ok(()) => {},
        Err(e) => {
            return Err(e);
        },
    }
    match write_byte(dst, &mut out_pos, 0u8) {
        Ok(()) => {},
        Err(e) => {
            return Err(e);
        },
    }
    match write_byte(dst, &mut out_pos, 0u8) {
        Ok(()) => {},
        Err(e) => {
            return Err(e);
        },
    }
    proof {
        assert(dst@.subrange(0, out_pos as int) =~= out_flushed + seq![0x11u8, 0u8, 0u8]);
    }
    Ok(out_pos)
}

/// Worst-case size of the compressed stream for an input of `n` bytes.
pub open spec fn worst_size(n: int) -> int {
    n + n / 16 + 67
}

/// Worst-case compressed size according to the LZO format guarantees.
pub fn compress_worst_size(s: usize) -> (r: usize)
    requires
        s + s / 16 + 67 <= usize::MAX,
    ensures
        r == worst_size(s as int),
{
    s + s / 16 + 64 + 3
}

/// Compress without heap allocations, writing the output into `dst`.
///
/// The stream emitted for `src` is a function of `src` alone, namely
/// [`compressed`]`(src@)`; in particular it never depends on what an earlier
/// call left in `dict`.  Whenever `dst` is shorter than that stream — even by
/// a single byte — the call returns `Err(Error::OutputOverrun)`.
pub fn compress_no_alloc(src: &[u8], dst: &mut Vec<u8>, dict: &mut Dict) -> (r: Result<
    usize,
    Error,
>)
    ensures
        final(dst)@.len() == old(dst)@.len(),
        final(dict).wf(),
        ({
            let out = compressed(src@);
            match r {
                Ok(k) => {
                    &&& out.len() <= final(dst)@.len()
                    &&& k == out.len()
                    &&& final(dst)@.subrange(0, k as int) == out
                },
                Err(e) => {
                    &&& e == Error::OutputOverrun
                    &&& out.len() > final(dst)@.len()
                },
            }
        }),
{
    compress_impl(src, dst, dict)
}

/// Compress `src`, reusing the provided dictionary across calls.
///
/// The worst-case buffer always suffices ([`lemma_compressed_worst_size`]),
/// so the call always succeeds.
pub fn compress_with_dict(src: &[u8], dict: &mut Dict) -> (r: Result<Vec<u8>, Error>)
    requires
        src@.len() + src@.len() / 16 + 67 <= usize::MAX,
    ensures
        final(dict).wf(),
        r matches Ok(v) && v@ == compressed(src@),
{
    let capacity = compress_worst_size(src.len());
    let mut buf: Vec<u8> = vec![0u8; capacity];
    match compress_no_alloc(src, &mut buf, dict) {
        Ok(size) => {
            buf.truncate(size);
            proof {
                assert(buf@ =~= compressed(src@));
            }
            Ok(buf)
        },
        Err(e) => {
            proof {
                lemma_compressed_worst_size(src@);
            }
            Err(e)
        },
    }
}

/// Compress `src` into a freshly allocated byte vector using a temporary
/// dictionary.  Always succeeds: the allocated worst-case buffer can hold
/// any compressed stream.
pub fn compress(src: &[u8]) -> (r: Result<Vec<u8>, Error>)
    requires
        src@.len() + src@.len() / 16 + 67 <= usize::MAX,
    ensures
        r matches Ok(v) && v@ == compressed(src@),
{
    let mut dict = Dict::new();
    compress_with_dict(src, &mut dict)
}

} // verus!
