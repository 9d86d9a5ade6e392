//! Decoder for the Unix `compress` (`.Z`) format: a three-byte header, then
//! variable-width LZW codes packed little-endian.
use crate::bitstream::{code_at, le_value, lemma_code_at_append, lemma_code_at_shift, lemma_or_shifted, lemma_split, lemma_take_low, lemma_widen};
use vstd::arithmetic::power2::*;
use vstd::prelude::*;

verus! {

/// Marks a root entry, and "no previous code".
pub const NO_CODE: u32 = 0xffff_ffff;

/// The code that resets the dictionary in block mode.
pub const CLEAR_CODE: u32 = 256;

pub const MAGIC_0: u8 = 0x1f;

pub const MAGIC_1: u8 = 0x9d;

/// Width of the first code after the header and after each reset.
pub const INITIAL_BITS: u8 = 9;

/// Largest table a header can ask for (five bits of width).
pub const MAX_TABLE: usize = 0x8000_0000;

/// What is wrong with a stream that cannot be decoded.
#[derive(Debug, Clone, Copy, PartialEq, Eq, Structural)]
pub enum DecodeError {
    /// A code that is neither in the table nor the next one to be allocated.
    MalformedStream,
}

/// The bytes that `code` stands for: the prefix chain walked back to a root.
/// Out of range (and so `NO_CODE`) it stands for nothing.
pub open spec fn expansion(p: Seq<u32>, c: Seq<u8>, code: int) -> Seq<u8>
    decreases code,
{
    if 0 <= code < p.len() && code < c.len() {
        if p[code] != NO_CODE && (p[code] as int) < code {
            expansion(p, c, p[code] as int).push(c[code])
        } else {
            seq![c[code]]
        }
    } else {
        Seq::empty()
    }
}

/// Number of entries a fresh table starts with.
pub open spec fn seed_len(block_mode: bool) -> nat {
    if block_mode {
        257
    } else {
        256
    }
}

/// A dictionary table: roots for every byte, code 256 kept for CLEAR in
/// block mode, and every other entry extends an earlier one.
pub open spec fn table_wf(p: Seq<u32>, c: Seq<u8>, block_mode: bool) -> bool {
    &&& p.len() == c.len()
    &&& seed_len(block_mode) <= p.len() <= MAX_TABLE + 1
    &&& forall|i: int| 0 <= i < 256 ==> p[i] == NO_CODE && c[i] == i as u8
    &&& block_mode ==> p[256] == NO_CODE && c[256] == 0
    &&& forall|i: int| 256 <= i < p.len() ==> p[i] == NO_CODE || p[i] < i
}

pub open spec fn seed_prefixes(block_mode: bool) -> Seq<u32> {
    Seq::new(seed_len(block_mode), |i: int| NO_CODE)
}

pub open spec fn seed_chars(block_mode: bool) -> Seq<u8> {
    Seq::new(seed_len(block_mode), |i: int| if i < 256 { i as u8 } else { 0u8 })
}

/// Every entry is a root or extends an earlier entry.
pub open spec fn chain_wf(p: Seq<u32>, c: Seq<u8>) -> bool {
    &&& p.len() == c.len()
    &&& forall|i: int| 0 <= i < p.len() ==> p[i] == NO_CODE || p[i] < i
}

/// The bytes of a prefix link: nothing for a root's `NO_CODE`.
pub open spec fn link_expansion(p: Seq<u32>, c: Seq<u8>, link: u32) -> Seq<u8> {
    if link == NO_CODE {
        Seq::empty()
    } else {
        expansion(p, c, link as int)
    }
}

/// One step of the prefix chain.
pub proof fn lemma_expansion_unfold(p: Seq<u32>, c: Seq<u8>, code: int)
    requires
        chain_wf(p, c),
        0 <= code < p.len(),
    ensures
        expansion(p, c, code) == link_expansion(p, c, p[code]).push(c[code]),
        p[code] == NO_CODE || p[code] < code,
{
    if p[code] == NO_CODE {
        assert(expansion(p, c, code) =~= Seq::<u8>::empty().push(c[code]));
    }
}

/// An expansion is never longer than its code plus one.
pub proof fn lemma_expansion_len(p: Seq<u32>, c: Seq<u8>, code: int)
    requires
        0 <= code,
    ensures
        expansion(p, c, code).len() <= code + 1,
        0 <= code < p.len() && code < c.len() ==> expansion(p, c, code).len() >= 1,
    decreases code,
{
    if 0 <= code < p.len() && code < c.len() {
        if p[code] != NO_CODE && (p[code] as int) < code {
            lemma_expansion_len(p, c, p[code] as int);
        }
    }
}

/// Expands `code` into its bytes, root first.
fn expand_code(prefixes: &Vec<u32>, chars: &Vec<u8>, code: u32) -> (out: Vec<u8>)
    requires
        chain_wf(prefixes@, chars@),
        (code as int) < prefixes@.len(),
        code != NO_CODE,
    ensures
        out@ == expansion(prefixes@, chars@, code as int),
        1 <= out@.len() <= code + 1,
{
    let ghost p = prefixes@;
    let ghost c = chars@;
    let ghost full = expansion(p, c, code as int);
    let len = prefixes.len();
    proof {
        lemma_expansion_len(p, c, code as int);
    }
    let mut n: usize = 0;
    let mut curr: u32 = code;
    while curr != NO_CODE
        invariant
            chain_wf(p, c),
            p == prefixes@,
            c == chars@,
            curr == NO_CODE || (curr as int) < p.len(),
            n + link_expansion(p, c, curr).len() == full.len(),
            full.len() <= code + 1,
            (code as int) < p.len(),
            p.len() == len,
        decreases (if curr == NO_CODE { 0 } else { curr as int + 1 }),
    {
        proof {
            lemma_expansion_unfold(p, c, curr as int);
            lemma_expansion_len(p, c, curr as int);
        }
        n = n + 1;
        curr = prefixes[curr as usize];
    }
    let mut out: Vec<u8> = Vec::new();
    let mut i: usize = 0;
    while i < n
        invariant
            i <= n,
            out@.len() == i,
        decreases n - i,
    {
        out.push(0);
        i = i + 1;
    }
    let mut k: usize = n;
    curr = code;
    assert(link_expansion(p, c, code) == full);
    while curr != NO_CODE
        invariant
            chain_wf(p, c),
            p == prefixes@,
            c == chars@,
            curr == NO_CODE || (curr as int) < p.len(),
            out@.len() == n,
            n == full.len(),
            k <= n,
            k == link_expansion(p, c, curr).len(),
            link_expansion(p, c, curr) == full.subrange(0, k as int),
            out@.subrange(k as int, n as int) == full.subrange(k as int, n as int),
        decreases (if curr == NO_CODE { 0 } else { curr as int + 1 }),
    {
        proof {
            lemma_expansion_unfold(p, c, curr as int);
            let e = link_expansion(p, c, curr);
            assert(e[k - 1] == c[curr as int]);
            assert(link_expansion(p, c, p[curr as int]) =~= full.subrange(0, k - 1));
            assert(full[k - 1] == c[curr as int]);
        }
        let ghost before = out@;
        k = k - 1;
        out.set(k, chars[curr as usize]);
        curr = prefixes[curr as usize];
        assert forall|j: int| k <= j < n implies out@[j] == full[j] by {
            if j > k {
                assert(out@[j] == before[j]);
                assert(before[j] == before.subrange(k + 1, n as int)[j - k - 1]);
            }
        }
        assert(out@.subrange(k as int, n as int) =~= full.subrange(k as int, n as int));
    }
    assert(k == 0);
    assert(out@ =~= out@.subrange(0, n as int));
    assert(out@ =~= full);
    out
}

/// Codes taken from the low end of a bit accumulator that is refilled a byte
/// at a time from the input received so far.
struct BitReader {
    input: Vec<u8>,
    pos: usize,
    buffer: u64,
    bits: u8,
}

impl BitReader {
    /// Position in `input`, in bits, of the first bit not yet taken.
    closed spec fn bit_pos(&self) -> nat {
        (8 * self.pos - self.bits) as nat
    }

    closed spec fn wf(&self) -> bool {
        &&& self.pos <= self.input@.len()
        &&& self.bits < 8
        &&& 8 * self.pos >= self.bits
        &&& self.buffer < pow2(self.bits as nat)
        &&& self.buffer == code_at(self.input@, self.bit_pos(), self.bits as nat)
    }

    /// Takes the next `width`-bit code, or `None`, changing nothing, where
    /// fewer bits have arrived.
    fn read_code(&mut self, width: u8) -> (r: Option<u32>)
        requires
            old(self).wf(),
            1 <= width <= 31,
        ensures
            final(self).input == old(self).input,
            final(self).wf(),
            r.is_some() == (old(self).bit_pos() + width <= 8 * old(self).input@.len()),
            r is None ==> *final(self) == *old(self),
            r.is_some() ==> {
                &&& r.unwrap() as nat == code_at(old(self).input@, old(self).bit_pos(), width as nat)
                &&& final(self).bit_pos() == old(self).bit_pos() + width
            },
    {
        let ghost q = self.bit_pos();
        let avail = self.input.len() - self.pos;
        if avail < 4 && avail * 8 + (self.bits as usize) < width as usize {
            return None;
        }
        while self.bits < width
            invariant
                self.input == old(self).input,
                self.pos <= self.input@.len(),
                self.bits < width + 8,
                8 * self.pos >= self.bits,
                self.bit_pos() == q,
                q == old(self).bit_pos(),
                q + width <= 8 * self.input@.len(),
                self.input@.len() <= usize::MAX,
                self.buffer < pow2(self.bits as nat),
                self.buffer == code_at(self.input@, q, self.bits as nat),
                width <= 31,
            decreases self.input@.len() - self.pos,
        {
            assert(self.pos < self.input@.len());
            let byte = self.input[self.pos];
            proof {
                lemma_or_shifted(self.buffer, byte as u64, self.bits as u64);
                lemma_widen(self.input@, q, self.bits as nat);
                assert(q + self.bits == 8 * self.pos);
                assert((q + self.bits) / 8 == self.pos);
                let pb = pow2(self.bits as nat);
                assert(byte as nat * pb == pb * byte as nat) by (nonlinear_arith);
                assert(self.input@[self.pos as int] == byte);
            }
            self.buffer = self.buffer | ((byte as u64) << (self.bits as u64));
            self.bits = self.bits + 8;
            self.pos = self.pos + 1;
            assert(self.buffer == code_at(self.input@, q, self.bits as nat));
        }
        proof {
            lemma_take_low(self.buffer, width as u64);
            lemma_split(self.input@, q, width as nat, self.bits as nat);
            lemma_pow2_pos(width as nat);
            lemma_pow2_strictly_increases(width as nat, 32);
            lemma2_to64();
            vstd::arithmetic::div_mod::lemma_mod_bound(self.buffer as int, pow2(width as nat) as int);
        }
        let code = (self.buffer & ((1u64 << (width as u64)) - 1)) as u32;
        self.buffer = self.buffer >> (width as u64);
        self.bits = self.bits - width;
        proof {
            assert(self.buffer < pow2(self.bits as nat)) by {
                vstd::arithmetic::div_mod::lemma_mod_bound(
                    code_at(self.input@, (q + width) as nat, self.bits as nat) as int, pow2(self.bits as nat) as int);
            }
        }
        assert(code as nat == code_at(self.input@, q, width as nat));
        assert(self.bit_pos() == q + width);
        assert(self.buffer == code_at(self.input@, self.bit_pos(), self.bits as nat));
        Some(code)
    }

    /// Appends `more` to the input, first dropping the bytes already read
    /// but the one the accumulator's bits came from. Returns how many went.
    fn append(&mut self, more: &Vec<u8>) -> (dropped: usize)
        requires
            old(self).wf(),
        ensures
            final(self).wf(),
            dropped <= old(self).input@.len(),
            old(self).pos <= dropped + 1,
            final(self).input@ == old(self).input@.subrange(dropped as int, old(self).input@.len() as int) + more@,
            final(self).bit_pos() + 8 * dropped == old(self).bit_pos(),
    {
        let keep: usize = if self.pos > 0 { self.pos - 1 } else { 0 };
        let ghost old_in = self.input@;
        let mut v: Vec<u8> = Vec::new();
        let mut i: usize = keep;
        while i < self.input.len()
            invariant
                keep <= i <= self.input@.len(),
                self.input@ == old_in,
                v@ == old_in.subrange(keep as int, i as int),
            decreases self.input@.len() - i,
        {
            v.push(self.input[i]);
            i = i + 1;
            assert(v@ =~= old_in.subrange(keep as int, i as int));
        }
        let ghost mid = v@;
        let mut j: usize = 0;
        while j < more.len()
            invariant
                j <= more@.len(),
                v@ == mid + more@.subrange(0, j as int),
            decreases more@.len() - j,
        {
            v.push(more[j]);
            j = j + 1;
            assert(v@ =~= mid + more@.subrange(0, j as int));
        }
        assert(more@.subrange(0, more@.len() as int) =~= more@);
        proof {
            let head = old_in.subrange(0, keep as int);
            assert(old_in =~= head + mid);
            let p2 = (8 * (self.pos - keep) - self.bits) as nat;
            lemma_code_at_shift(head, mid, p2, self.bits as nat);
            assert(8 * keep + p2 == self.bit_pos());
            lemma_code_at_append(mid, more@, p2, self.bits as nat);
        }
        self.input = v;
        self.pos = self.pos - keep;
        keep
    }
}

/// The dictionary side of a decoder between two codes.
pub struct DictState {
    pub prefixes: Seq<u32>,
    pub chars: Seq<u8>,
    /// Width of the next code.
    pub bits: nat,
    /// The code decoded last; out of table range (as `NO_CODE`) when there is none.
    pub prev: u32,
    pub max_bits: nat,
    pub block_mode: bool,
}

/// What a stream decodes to: the bytes up to the end or up to the first
/// malformed code, and whether the end was reached without one.
pub struct Decoded {
    pub bytes: Seq<u8>,
    pub ok: bool,
}

pub open spec fn max_bits_of(flags: u8) -> nat {
    (flags & 0x1f) as nat
}

pub open spec fn block_mode_of(flags: u8) -> bool {
    flags & 0x80 != 0
}

/// The state right after a header with control byte `flags`.
pub open spec fn initial_state(flags: u8) -> DictState {
    DictState {
        prefixes: seed_prefixes(block_mode_of(flags)),
        chars: seed_chars(block_mode_of(flags)),
        bits: INITIAL_BITS as nat,
        prev: NO_CODE,
        max_bits: max_bits_of(flags),
        block_mode: block_mode_of(flags),
    }
}

/// The state after a CLEAR code: seeded table, initial width, no previous code.
pub open spec fn cleared(st: DictState) -> DictState {
    DictState {
        prefixes: st.prefixes.subrange(0, 257),
        chars: st.chars.subrange(0, 257),
        bits: INITIAL_BITS as nat,
        prev: NO_CODE,
        ..st
    }
}

/// The bytes a (non-CLEAR) code stands for: a table entry, or the next code
/// to be allocated, which repeats the previous expansion plus its first byte.
pub open spec fn code_output(st: DictState, code: nat) -> Option<Seq<u8>> {
    let len = st.prefixes.len();
    if code < len {
        Some(expansion(st.prefixes, st.chars, code as int))
    } else if code == len && (st.prev as int) < len {
        let e = expansion(st.prefixes, st.chars, st.prev as int);
        Some(e.push(e[0]))
    } else {
        None
    }
}

/// A code after a previous one adds an entry while the table has room.
pub open spec fn grows(st: DictState) -> bool {
    (st.prev as int) < st.prefixes.len() && st.prefixes.len() < pow2(st.max_bits)
}

/// The state after a code with expansion `out`: the new entry extends the
/// previous code by the first byte of `out`, and the width grows by one when
/// the table no longer fits it.
pub open spec fn after_code(st: DictState, code: nat, out: Seq<u8>) -> DictState {
    if grows(st) {
        let p2 = st.prefixes.push(st.prev);
        let bits2 = if p2.len() >= pow2(st.bits) && st.bits < st.max_bits {
            st.bits + 1
        } else {
            st.bits
        };
        DictState { prefixes: p2, chars: st.chars.push(out[0]), bits: bits2, prev: code as u32, ..st }
    } else {
        DictState { prev: code as u32, ..st }
    }
}

/// Decoding the codes of `s` from bit `pos` on, in state `st`.
pub open spec fn decode_from(s: Seq<u8>, pos: nat, st: DictState) -> Decoded
    decreases 8 * s.len() - pos,
{
    if st.bits == 0 || pos + st.bits > 8 * s.len() {
        Decoded { bytes: Seq::empty(), ok: true }
    } else {
        let code = code_at(s, pos, st.bits);
        if st.block_mode && code == CLEAR_CODE {
            decode_from(s, pos + st.bits, cleared(st))
        } else {
            match code_output(st, code) {
                None => Decoded { bytes: Seq::empty(), ok: false },
                Some(out) => {
                    let r = decode_from(s, pos + st.bits, after_code(st, code, out));
                    Decoded { bytes: out + r.bytes, ok: r.ok }
                },
            }
        }
    }
}

/// Largest code width a header may declare.
pub const MAX_BITS_LIMIT: u8 = 16;

/// Whether `s` starts with a usable header: the magic bytes, then a control
/// byte whose code width limit is between 9 and 16.
pub open spec fn has_header(s: Seq<u8>) -> bool {
    &&& s.len() >= 3
    &&& s[0] == MAGIC_0
    &&& s[1] == MAGIC_1
    &&& INITIAL_BITS <= max_bits_of(s[2]) <= MAX_BITS_LIMIT
}

/// What a whole `.Z` stream decodes to. Without a usable header it is empty.
pub open spec fn decode(s: Seq<u8>) -> Decoded {
    if has_header(s) {
        decode_from(s, 24, initial_state(s[2]))
    } else {
        Decoded { bytes: Seq::empty(), ok: true }
    }
}

/// `a` is where `b` starts.
pub open spec fn starts(b: Seq<u8>, a: Seq<u8>) -> bool {
    a.len() <= b.len() && b.subrange(0, a.len() as int) == a
}

/// The invariant of a live dictionary.
pub open spec fn state_wf(st: DictState) -> bool {
    &&& table_wf(st.prefixes, st.chars, st.block_mode)
    &&& st.max_bits <= 31
    &&& INITIAL_BITS <= st.bits <= 31
    &&& (st.bits <= st.max_bits || st.bits == INITIAL_BITS)
}

/// Once a code lies wholly within `s`, what follows in `s + t` decodes the
/// same way through that code, whatever `t` is.
proof fn lemma_unfold_any_suffix(s: Seq<u8>, pos: nat, st: DictState, t: Seq<u8>)
    requires
        st.bits > 0,
        pos + st.bits <= 8 * s.len(),
    ensures
        ({
            let code = code_at(s, pos, st.bits);
            decode_from(s + t, pos, st) == if st.block_mode && code == CLEAR_CODE {
                decode_from(s + t, pos + st.bits, cleared(st))
            } else {
                match code_output(st, code) {
                    None => Decoded { bytes: Seq::empty(), ok: false },
                    Some(out) => {
                        let r = decode_from(s + t, pos + st.bits, after_code(st, code, out));
                        Decoded { bytes: out + r.bytes, ok: r.ok }
                    },
                }
            }
        }),
{
    lemma_code_at_append(s, t, pos, st.bits);
}

/// A decoder of one `.Z` stream, fed its input in pieces and handing out the
/// decoded bytes in chunks.
pub struct ZDecoder {
    reader: BitReader,
    header_ok: bool,
    failed: bool,
    max_bits: u8,
    block_mode: bool,
    current_bits: u8,
    prefixes: Vec<u32>,
    chars: Vec<u8>,
    prefix: u32,
    output_buffer: Vec<u8>,
    output_pos: usize,
    /// Everything fed so far, header included.
    fed: Ghost<Seq<u8>>,
    /// Everything passed over so far: handed out, or dropped by a read that
    /// failed.
    emitted: Ghost<Seq<u8>>,
    /// How many bytes of `fed` the reader has let go of.
    base: Ghost<nat>,
}

impl ZDecoder {
    /// All input received, header included.
    pub closed spec fn fed(&self) -> Seq<u8> {
        self.fed@
    }

    /// All bytes passed over: handed out, or dropped by a read that failed.
    pub closed spec fn emitted(&self) -> Seq<u8> {
        self.emitted@
    }

    pub closed spec fn state(&self) -> DictState {
        DictState {
            prefixes: self.prefixes@,
            chars: self.chars@,
            bits: self.current_bits as nat,
            prev: self.prefix,
            max_bits: self.max_bits as nat,
            block_mode: self.block_mode,
        }
    }

    /// Input bytes the decoder keeps.
    pub closed spec fn held_input(&self) -> nat {
        self.reader.input@.len()
    }

    /// Input bytes kept and not yet read into the accumulator.
    pub closed spec fn unread_input(&self) -> nat {
        (self.reader.input@.len() - self.reader.pos) as nat
    }

    /// Whether the stream can still yield bytes: its header was right and no
    /// malformed code has come.
    pub closed spec fn is_live(&self) -> bool {
        self.header_ok && !self.failed
    }

    /// Bytes decoded but not handed out yet.
    closed spec fn pending(&self) -> Seq<u8> {
        self.output_buffer@.subrange(self.output_pos as int, self.output_buffer@.len() as int)
    }

    /// Bit position in `fed` of the next code.
    closed spec fn position(&self) -> nat {
        8 * self.base@ + self.reader.bit_pos()
    }

    /// What is still owed once `t` has followed the input so far.
    closed spec fn owed(&self, t: Seq<u8>) -> Decoded {
        if !self.header_ok {
            Decoded { bytes: Seq::empty(), ok: true }
        } else if self.failed {
            Decoded { bytes: Seq::empty(), ok: false }
        } else {
            let r = decode_from(self.fed@ + t, self.position(), self.state());
            Decoded { bytes: self.pending() + r.bytes, ok: r.ok }
        }
    }

    /// Handed out and owed together are what the input decodes to, however
    /// the input goes on.
    pub closed spec fn wf(&self) -> bool {
        &&& self.output_pos <= self.output_buffer@.len()
        &&& self.is_live() ==> {
            &&& self.reader.wf()
            &&& state_wf(self.state())
            &&& self.base@ + self.reader.input@.len() == self.fed@.len()
            &&& self.reader.input@ == self.fed@.subrange(self.base@ as int, self.fed@.len() as int)
        }
        &&& forall|t: Seq<u8>|
            #[trigger] decode(self.fed@ + t) == (Decoded {
                bytes: self.emitted@ + self.owed(t).bytes,
                ok: self.owed(t).ok,
            })
    }

    /// The invariant's instance for no further input.
    proof fn lemma_now(&self)
        requires
            self.wf(),
        ensures
            decode(self.fed@) == (Decoded {
                bytes: self.emitted@ + self.owed(Seq::empty()).bytes,
                ok: self.owed(Seq::empty()).ok,
            }),
            starts(decode(self.fed()).bytes, self.emitted()),
    {
        assert(self.fed@ + Seq::<u8>::empty() =~= self.fed@);
        assert(decode(self.fed@ + Seq::<u8>::empty()) == (Decoded {
            bytes: self.emitted@ + self.owed(Seq::empty()).bytes,
            ok: self.owed(Seq::empty()).ok,
        }));
        assert(decode(self.fed@).bytes.subrange(0, self.emitted@.len() as int) =~= self.emitted@);
    }

    /// Starts a stream from its three header bytes. Without a usable header
    /// the stream decodes to nothing, whatever follows.
    pub fn new(header: Vec<u8>) -> (d: Self)
        requires
            header@.len() == 3,
        ensures
            d.wf(),
            d.fed() == header@,
            d.emitted() == Seq::<u8>::empty(),
            d.is_live() == has_header(header@),
            d.held_input() == 0,
            starts(decode(d.fed()).bytes, d.emitted()),
    {
        let ghost fed = header@;
        let flags = header[2];
        let max_bits = flags & 0x1f;
        let ok = header[0] == MAGIC_0 && header[1] == MAGIC_1 && INITIAL_BITS <= max_bits
            && max_bits <= MAX_BITS_LIMIT;
        let block_mode = (flags & 0x80) != 0;
        let mut prefixes: Vec<u32> = Vec::new();
        let mut chars: Vec<u8> = Vec::new();
        let mut i: usize = 0;
        while i < 256
            invariant
                i <= 256,
                prefixes@.len() == i,
                chars@.len() == i,
                forall|j: int| 0 <= j < i ==> prefixes@[j] == NO_CODE && chars@[j] == j as u8,
            decreases 256 - i,
        {
            prefixes.push(NO_CODE);
            chars.push(i as u8);
            i = i + 1;
        }
        if block_mode {
            prefixes.push(NO_CODE);
            chars.push(0);
        }
        let ghost st = initial_state(flags);
        assert(prefixes@ =~= st.prefixes);
        assert(chars@ =~= st.chars);
        assert(max_bits <= 31) by (bit_vector)
            requires
                max_bits == flags & 0x1f,
        ;
        let d = ZDecoder {
            reader: BitReader { input: Vec::new(), pos: 0, buffer: 0, bits: 0 },
            header_ok: ok,
            failed: false,
            max_bits,
            block_mode,
            current_bits: INITIAL_BITS,
            prefixes,
            chars,
            prefix: NO_CODE,
            output_buffer: Vec::new(),
            output_pos: 0,
            fed: Ghost(fed),
            emitted: Ghost(Seq::empty()),
            base: Ghost(3),
        };
        proof {
            lemma2_to64();
            assert(d.state() == st);
            assert(d.pending() =~= Seq::<u8>::empty());
            assert(d.reader.input@ =~= fed.subrange(3, 3));
            assert forall|t: Seq<u8>|
                #[trigger] decode(fed + t) == (Decoded {
                    bytes: d.emitted@ + d.owed(t).bytes,
                    ok: d.owed(t).ok,
                }) by {
                let s = fed + t;
                assert(s[0] == fed[0] && s[1] == fed[1] && s[2] == fed[2]);
                assert(d.emitted@ + d.owed(t).bytes =~= d.owed(t).bytes);
                if ok {
                    assert(d.owed(t).bytes =~= decode(s).bytes);
                }
            }
            d.lemma_now();
            assert(decode(d.fed()).bytes.subrange(0, 0) =~= d.emitted());
        }
        d
    }

    /// Appends more of the stream.
    pub fn feed(&mut self, more: &Vec<u8>)
        requires
            old(self).wf(),
        ensures
            final(self).wf(),
            final(self).fed() == old(self).fed() + more@,
            final(self).emitted() == old(self).emitted(),
            final(self).is_live() == old(self).is_live(),
            old(self).is_live() ==> final(self).held_input() <= old(self).unread_input() + 1 + more@.len(),
            !old(self).is_live() ==> final(self).held_input() == old(self).held_input(),
            starts(decode(final(self).fed()).bytes, final(self).emitted()),
    {
        let ghost f0 = self.fed@;
        let ghost o0 = *self;
        if self.header_ok && !self.failed {
            let dropped = self.reader.append(more);
            self.base = Ghost(self.base@ + dropped as nat);
            proof {
                assert(self.reader.input@ =~= (f0 + more@).subrange(self.base@ as int, (f0 + more@).len() as int));
            }
        }
        self.fed = Ghost(f0 + more@);
        proof {
            assert forall|t: Seq<u8>|
                #[trigger] decode(self.fed@ + t) == (Decoded {
                    bytes: self.emitted@ + self.owed(t).bytes,
                    ok: self.owed(t).ok,
                }) by {
                assert(self.fed@ + t =~= f0 + (more@ + t));
                assert(o0.owed(more@ + t) == self.owed(t));
            }
            self.lemma_now();
            assert(decode(self.fed@).bytes.subrange(0, self.emitted@.len() as int) =~= self.emitted@);
        }
    }

    /// Resolves one code that is not CLEAR: its bytes become the pending
    /// output and the table learns the entry that the previous code implies.
    fn apply_code(&mut self, code: u32) -> (r: Result<(), DecodeError>)
        requires
            state_wf(old(self).state()),
            (code as nat) < pow2(old(self).current_bits as nat),
        ensures
            final(self).reader == old(self).reader,
            final(self).header_ok == old(self).header_ok,
            final(self).failed == old(self).failed,
            final(self).fed == old(self).fed,
            final(self).emitted == old(self).emitted,
            final(self).base == old(self).base,
            match code_output(old(self).state(), code as nat) {
                None => r is Err && final(self).state() == old(self).state(),
                Some(out) => {
                    &&& r is Ok
                    &&& state_wf(final(self).state())
                    &&& final(self).state() == after_code(old(self).state(), code as nat, out)
                    &&& final(self).pending() == out
                    &&& final(self).output_pos <= final(self).output_buffer@.len()
                },
            },
    {
        let ghost st = self.state();
        let len = self.prefixes.len();
        let out: Vec<u8>;
        if (code as usize) < len {
            out = expand_code(&self.prefixes, &self.chars, code);
        } else if (code as usize) == len && (self.prefix as usize) < len {
            let mut e = expand_code(&self.prefixes, &self.chars, self.prefix);
            let first = e[0];
            e.push(first);
            out = e;
        } else {
            return Err(DecodeError::MalformedStream);
        }
        assert(code_output(st, code as nat) == Some(out@));
        proof {
            lemma_take_low(0, self.max_bits as u64);
            lemma_pow2_pos(self.max_bits as nat);
            if self.max_bits < 31 {
                lemma_pow2_strictly_increases(self.max_bits as nat, 31);
            }
            lemma2_to64();
            lemma_take_low(0, self.current_bits as u64);
        }
        if (self.prefix as usize) < len && (len as u64) < (1u64 << (self.max_bits as u64)) {
            self.prefixes.push(self.prefix);
            self.chars.push(out[0]);
            if (self.prefixes.len() as u64) >= (1u64 << (self.current_bits as u64))
                && self.current_bits < self.max_bits {
                self.current_bits = self.current_bits + 1;
            }
        }
        self.prefix = code;
        self.output_buffer = out;
        self.output_pos = 0;
        assert(self.pending() =~= out@);
        assert(self.state() == after_code(st, code as nat, out@));
        Ok(())
    }

    /// Hands out up to `max` decoded bytes. A short chunk means that all the
    /// input received so far decodes to is out. A malformed code fails the
    /// read that reaches it, and the bytes that read decoded before it are
    /// dropped; every later read fails too.
    pub fn read(&mut self, max: usize) -> (r: Result<Vec<u8>, DecodeError>)
        requires
            old(self).wf(),
        ensures
            final(self).wf(),
            final(self).fed() == old(self).fed(),
            final(self).held_input() == old(self).held_input(),
            r matches Ok(chunk) && chunk@.len() < max && final(self).is_live() ==> final(self).unread_input() <= 3,
            starts(decode(final(self).fed()).bytes, final(self).emitted()),
            r is Err <==> (max > 0 && !decode(old(self).fed()).ok && decode(old(self).fed()).bytes.len()
                < old(self).emitted().len() + max),
            r is Err ==> final(self).emitted() == decode(old(self).fed()).bytes,
            r matches Ok(chunk) ==> {
                &&& chunk@.len() <= max
                &&& final(self).emitted() == old(self).emitted() + chunk@
                &&& chunk@.len() < max ==> final(self).emitted() == decode(old(self).fed()).bytes
                    && decode(old(self).fed()).ok
            },
    {
        let ghost fed = self.fed@;
        proof {
            assert(fed + Seq::<u8>::empty() =~= fed);
        }
        let mut chunk: Vec<u8> = Vec::new();
        proof {
            self.lemma_now();
            assert(decode(fed).bytes.subrange(0, self.emitted@.len() as int) =~= self.emitted@);
            assert(self.emitted@ + chunk@ =~= self.emitted@);
        }
        if !self.header_ok {
            return Ok(chunk);
        }
        if self.failed {
            if max == 0 {
                return Ok(chunk);
            }
            return Err(DecodeError::MalformedStream);
        }
        while chunk.len() < max
            invariant
                self.wf(),
                self.is_live(),
                self.fed@ == fed,
                fed == old(self).fed(),
                self.emitted@ == old(self).emitted() + chunk@,
                chunk@.len() <= max,
                self.reader.input == old(self).reader.input,
            ensures
                self.reader.input == old(self).reader.input,
                chunk@.len() < max ==> self.reader.input@.len() - self.reader.pos <= 3,
                self.wf(),
                self.fed@ == fed,
                self.emitted@ == old(self).emitted() + chunk@,
                chunk@.len() <= max,
                chunk@.len() < max ==> self.owed(Seq::empty()) == (Decoded {
                    bytes: Seq::empty(),
                    ok: true,
                }),
            decreases max - chunk@.len(), 8 * fed.len() - self.position(),
        {
            if self.output_pos < self.output_buffer.len() {
                let ghost o0 = *self;
                let ghost chunk0 = chunk@;
                let ghost out = self.output_buffer@;
                let ghost p0 = self.output_pos;
                let mut op = self.output_pos;
                while chunk.len() < max && op < self.output_buffer.len()
                    invariant
                        chunk@.len() <= max,
                        p0 <= op <= out.len(),
                        self.output_buffer@ == out,
                        chunk@ == chunk0 + out.subrange(p0 as int, op as int),
                    decreases out.len() - op,
                {
                    chunk.push(self.output_buffer[op]);
                    op = op + 1;
                    assert(chunk@ =~= chunk0 + out.subrange(p0 as int, op as int));
                }
                self.output_pos = op;
                self.emitted = Ghost(old(self).emitted() + chunk@);
                proof {
                    assert forall|t: Seq<u8>|
                        #[trigger] decode(self.fed@ + t) == (Decoded {
                            bytes: self.emitted@ + self.owed(t).bytes,
                            ok: self.owed(t).ok,
                        }) by {
                        assert(o0.pending() =~= out.subrange(p0 as int, op as int) + self.pending());
                        assert(self.emitted@ + self.owed(t).bytes =~= o0.emitted@ + o0.owed(t).bytes);
                    }
                }
                continue;
            }
            let ghost o0 = *self;
            let ghost st = self.state();
            let ghost q = self.reader.bit_pos();
            let ghost pos = self.position();
            proof {
                assert(self.pending() =~= Seq::<u8>::empty());
                let head = fed.subrange(0, self.base@ as int);
                assert(fed =~= head + self.reader.input@);
            }
            let code_opt = self.reader.read_code(self.current_bits);
            match code_opt {
                None => {
                    proof {
                        assert(self.owed(Seq::empty()).bytes =~= Seq::<u8>::empty());
                    }
                    break;
                },
                Some(code) => {
                    proof {
                        let head = fed.subrange(0, self.base@ as int);
                        lemma_code_at_shift(head, o0.reader.input@, q, st.bits);
                        lemma_take_low(0, self.current_bits as u64);
                        lemma_pow2_pos(self.current_bits as nat);
                        vstd::arithmetic::div_mod::lemma_mod_bound(
                            (le_value(o0.reader.input@) / pow2(q)) as int,
                            pow2(self.current_bits as nat) as int,
                        );
                        assert(code as nat == code_at(fed, pos, st.bits));
                        assert(self.position() == pos + st.bits);
                    }
                    if self.block_mode && code == CLEAR_CODE {
                        self.prefixes.truncate(257);
                        self.chars.truncate(257);
                        self.current_bits = INITIAL_BITS;
                        self.prefix = NO_CODE;
                        proof {
                            assert(self.state() == cleared(st));
                            assert(self.pending() =~= Seq::<u8>::empty());
                            assert forall|t: Seq<u8>|
                                #[trigger] decode(self.fed@ + t) == (Decoded {
                                    bytes: self.emitted@ + self.owed(t).bytes,
                                    ok: self.owed(t).ok,
                                }) by {
                                lemma_unfold_any_suffix(fed, pos, st, t);
                                assert(o0.owed(t).bytes =~= self.owed(t).bytes);
                            }
                        }
                    } else {
                        match self.apply_code(code) {
                            Ok(()) => {
                                proof {
                                    assert forall|t: Seq<u8>|
                                        #[trigger] decode(self.fed@ + t) == (Decoded {
                                            bytes: self.emitted@ + self.owed(t).bytes,
                                            ok: self.owed(t).ok,
                                        }) by {
                                        lemma_unfold_any_suffix(fed, pos, st, t);
                                        assert(o0.owed(t).bytes =~= self.owed(t).bytes);
                                    }
                                }
                            },
                            Err(e) => {
                                self.failed = true;
                                self.output_buffer = Vec::new();
                                self.output_pos = 0;
                                proof {
                                    assert forall|t: Seq<u8>|
                                        #[trigger] decode(self.fed@ + t) == (Decoded {
                                            bytes: self.emitted@ + self.owed(t).bytes,
                                            ok: self.owed(t).ok,
                                        }) by {
                                        lemma_unfold_any_suffix(fed, pos, st, t);
                                        assert(self.emitted@ + self.owed(t).bytes =~= o0.emitted@ + o0.owed(t).bytes);
                                    }
                                }
                                proof {
                                    self.lemma_now();
                                    o0.lemma_now();
                                    assert(self.owed(Seq::empty()).bytes =~= Seq::<u8>::empty());
                                    assert(self.emitted@ + Seq::<u8>::empty() =~= self.emitted@);
                                }
                                proof {
                                    self.lemma_now();
                                }
                                return Err(e);
                            },
                        }
                    }
                },
            }
        }
        proof {
            self.lemma_now();
            old(self).lemma_now();
        }
        Ok(chunk)
    }
}

/// A stream without a usable header (magic bytes, width limit 9 to 16)
/// decodes to no bytes and no failure.
pub proof fn lemma_header_rejection(s: Seq<u8>)
    requires
        !has_header(s),
    ensures
        decode(s).bytes.len() == 0,
        decode(s).ok,
{
}

/// A CLEAR code brings the width back to nine bits and the table back to its
/// 257 seeded entries, after which no code above the seed resolves.
pub proof fn lemma_clear_resets(st: DictState)
    requires
        state_wf(st),
        st.block_mode,
    ensures
        cleared(st).bits == 9,
        cleared(st).prefixes == seed_prefixes(true),
        cleared(st).chars == seed_chars(true),
        cleared(st).prefixes.len() == 257,
        forall|code: nat| code >= 257 ==> code_output(cleared(st), code) is None,
{
    assert(cleared(st).prefixes =~= seed_prefixes(true));
    assert(cleared(st).chars =~= seed_chars(true));
}

/// Each code widens the next one by at most one bit, exactly when the table
/// has just outgrown the current width, and never past the header's maximum.
pub proof fn lemma_width_growth(st: DictState, code: nat)
    requires
        state_wf(st),
        code_output(st, code) is Some,
    ensures
        ({
            let st2 = after_code(st, code, code_output(st, code).unwrap());
            &&& st2.bits == st.bits || st2.bits == st.bits + 1
            &&& (st2.bits == st.bits + 1) == (grows(st) && st.prefixes.len() + 1 >= pow2(st.bits)
                && st.bits < st.max_bits)
            &&& st2.bits <= st.max_bits || st2.bits == INITIAL_BITS
            &&& state_wf(st2)
        }),
{
    let out = code_output(st, code).unwrap();
    lemma_expansion_len(st.prefixes, st.chars, code as int);
    if (st.prev as int) < st.prefixes.len() {
        lemma_expansion_len(st.prefixes, st.chars, st.prev as int);
    }
    if grows(st) {
        lemma_pow2_pos(st.max_bits);
        if st.max_bits < 31 {
            lemma_pow2_strictly_increases(st.max_bits, 31);
        }
        lemma2_to64();
    }
}

/// Adding entries to a table leaves the expansion of every earlier code as it was.
pub proof fn lemma_expansion_stable(p: Seq<u32>, c: Seq<u8>, p2: Seq<u32>, c2: Seq<u8>, code: int)
    requires
        p.len() == c.len(),
        p.len() <= p2.len(),
        p.len() <= c2.len(),
        p2.subrange(0, p.len() as int) == p,
        c2.subrange(0, c.len() as int) == c,
        0 <= code < p.len(),
    ensures
        expansion(p2, c2, code) == expansion(p, c, code),
    decreases code,
{
    assert(p2[code] == p[code]);
    assert(c2[code] == c[code]);
    if p[code] != NO_CODE && (p[code] as int) < code {
        lemma_expansion_stable(p, c, p2, c2, p[code] as int);
    }
}

/// The entry a code adds stands for the previous code's bytes followed by the
/// first byte of this code's bytes. For the next code to be allocated (the
/// "KwKwK" case) this is the previous expansion with its own first byte
/// repeated, and the new entry decodes to exactly what was emitted.
pub proof fn lemma_new_entry(st: DictState, code: nat)
    requires
        state_wf(st),
        code_output(st, code) is Some,
        grows(st),
    ensures
        ({
            let out = code_output(st, code).unwrap();
            let e = expansion(st.prefixes, st.chars, st.prev as int);
            let st2 = after_code(st, code, out);
            &&& expansion(st2.prefixes, st2.chars, st.prefixes.len() as int) == e.push(out[0])
            &&& code == st.prefixes.len() ==> out == e.push(e[0])
            &&& code == st.prefixes.len() ==> expansion(st2.prefixes, st2.chars, code as int) == out
        }),
{
    let out = code_output(st, code).unwrap();
    let st2 = after_code(st, code, out);
    let len = st.prefixes.len() as int;
    lemma_expansion_len(st.prefixes, st.chars, st.prev as int);
    lemma_expansion_len(st.prefixes, st.chars, code as int);
    assert(st2.prefixes.subrange(0, len) =~= st.prefixes);
    assert(st2.chars.subrange(0, len) =~= st.chars);
    lemma_expansion_stable(st.prefixes, st.chars, st2.prefixes, st2.chars, st.prev as int);
    assert(st2.prefixes[len] == st.prev);
}

/// Decodes a whole `.Z` stream held in memory.
pub fn decode_all(input: Vec<u8>) -> (r: Result<Vec<u8>, DecodeError>)
    ensures
        r is Ok <==> decode(input@).ok,
        r matches Ok(v) ==> v@ == decode(input@).bytes,
{
    if input.len() < 3 {
        return Ok(Vec::new());
    }
    let mut head: Vec<u8> = Vec::new();
    let mut rest: Vec<u8> = Vec::new();
    let mut i: usize = 0;
    while i < input.len()
        invariant
            i <= input@.len(),
            head@ == input@.subrange(0, if i < 3 { i as int } else { 3 }),
            i < 3 ==> rest@.len() == 0,
            i >= 3 ==> rest@ == input@.subrange(3, i as int),
            input@.len() >= 3,
        decreases input@.len() - i,
    {
        if i < 3 {
            head.push(input[i]);
        } else {
            rest.push(input[i]);
        }
        i = i + 1;
        assert(head@ =~= input@.subrange(0, if i < 3 { i as int } else { 3 }));
        assert(i >= 3 ==> rest@ =~= input@.subrange(3, i as int));
    }
    assert(input@ =~= head@ + rest@);
    let mut d = ZDecoder::new(head);
    d.feed(&rest);
    let mut all: Vec<u8> = Vec::new();
    loop
        invariant
            d.wf(),
            d.fed() == input@,
            d.emitted() == all@,
        decreases decode(input@).bytes.len() - all@.len(),
    {
        proof {
            assert(d.fed() + Seq::<u8>::empty() =~= d.fed());
        }
        let ghost before = all@;
        match d.read(4096) {
            Err(e) => {
                return Err(e);
            },
            Ok(chunk) => {
                let mut i: usize = 0;
                while i < chunk.len()
                    invariant
                        i <= chunk@.len(),
                        all@ == before + chunk@.subrange(0, i as int),
                    decreases chunk@.len() - i,
                {
                    all.push(chunk[i]);
                    i = i + 1;
                    assert(all@ =~= before + chunk@.subrange(0, i as int));
                }
                assert(chunk@.subrange(0, chunk@.len() as int) =~= chunk@);
                if chunk.len() < 4096 {
                    return Ok(all);
                }
            },
        }
    }
}

} // verus!
