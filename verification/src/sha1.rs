//! Incremental SHA-1 digest engine.
//!
//! The mathematical model is given by spec functions: `compress` advances a
//! five-word state by one 64-byte block, `padded` appends the `0x80` marker,
//! zero fill and big-endian bit length to a message, and `digest_hex` is the
//! 40-character lowercase hexadecimal digest of an arbitrary byte sequence.
//! The executable engine buffers bytes into blocks and is proved to render
//! exactly `digest_hex` of everything absorbed.

use vstd::prelude::*;
use vstd::string::StrSliceExecFns;
use vstd::string::StringExecFns;

verus! {

/// Longest message the engine accepts, in bytes: the padding encodes the
/// message length in bits as a 64-bit integer, so `len * 8` must fit in `u64`.
pub const MAX_MESSAGE_LEN: u64 = 0x1fff_ffff_ffff_ffff;

/// Left rotation of a 32-bit word by `n` bits.
pub open spec fn rotl(x: u32, n: u32) -> u32
    recommends
        0 < n < 32,
{
    (x << n) | (x >> ((32 - n) as u32))
}

/// The SHA-1 round function for round `t`: choice, parity, majority, parity.
pub open spec fn sha1_f(t: int, b: u32, c: u32, d: u32) -> u32
    recommends
        0 <= t < 80,
{
    if t < 20 {
        (b & c) | ((!b) & d)
    } else if t < 40 {
        b ^ c ^ d
    } else if t < 60 {
        (b & c) | (b & d) | (c & d)
    } else {
        b ^ c ^ d
    }
}

/// The SHA-1 round constant for round `t`.
pub open spec fn sha1_k(t: int) -> u32
    recommends
        0 <= t < 80,
{
    if t < 20 {
        0x5a827999u32
    } else if t < 40 {
        0x6ed9eba1u32
    } else if t < 60 {
        0x8f1bbcdcu32
    } else {
        0xca62c1d6u32
    }
}

/// A 32-bit word read from four bytes in big-endian order.
pub open spec fn word_be(b0: u8, b1: u8, b2: u8, b3: u8) -> u32 {
    ((b0 as u32) << 24u32) | ((b1 as u32) << 16u32) | ((b2 as u32) << 8u32) | (b3 as u32)
}

/// The sixteen big-endian words of one 64-byte block.
pub open spec fn block_words(block: Seq<u8>) -> Seq<u32>
    recommends
        block.len() == 64,
{
    Seq::new(16, |i: int| word_be(block[4 * i], block[4 * i + 1], block[4 * i + 2], block[4 * i + 3]))
}

/// Word `t` of the 80-word message schedule expanded from one block.
pub open spec fn schedule(block: Seq<u8>, t: int) -> u32
    recommends
        block.len() == 64,
        0 <= t < 80,
    decreases t,
{
    if t < 16 {
        block_words(block)[t]
    } else {
        rotl(
            schedule(block, t - 3) ^ schedule(block, t - 8) ^ schedule(block, t - 14) ^ schedule(
                block,
                t - 16,
            ),
            1,
        )
    }
}

/// The five working variables after `t` rounds over one block, starting from
/// state `h`.
pub open spec fn rounds(block: Seq<u8>, h: Seq<u32>, t: int) -> (u32, u32, u32, u32, u32)
    recommends
        block.len() == 64,
        h.len() == 5,
        0 <= t <= 80,
    decreases t,
{
    if t <= 0 {
        (h[0], h[1], h[2], h[3], h[4])
    } else {
        let (a, b, c, d, e) = rounds(block, h, t - 1);
        let temp = rotl(a, 5).wrapping_add(sha1_f(t - 1, b, c, d)).wrapping_add(e).wrapping_add(
            sha1_k(t - 1),
        ).wrapping_add(schedule(block, t - 1));
        (temp, a, rotl(b, 30), c, d)
    }
}

/// The compression transform: one 64-byte block advances the five-word state.
pub open spec fn compress(h: Seq<u32>, block: Seq<u8>) -> Seq<u32>
    recommends
        h.len() == 5,
        block.len() == 64,
{
    let (a, b, c, d, e) = rounds(block, h, 80);
    seq![
        h[0].wrapping_add(a),
        h[1].wrapping_add(b),
        h[2].wrapping_add(c),
        h[3].wrapping_add(d),
        h[4].wrapping_add(e),
    ]
}

/// The fixed SHA-1 initialization constants.
pub open spec fn init_state() -> Seq<u32> {
    seq![0x67452301u32, 0xefcdab89u32, 0x98badcfeu32, 0x10325476u32, 0xc3d2e1f0u32]
}

/// The state after compressing every 64-byte block of `msg` in order,
/// starting from `h`.
pub open spec fn chain(h: Seq<u32>, msg: Seq<u8>) -> Seq<u32>
    recommends
        msg.len() % 64 == 0,
    decreases msg.len(),
{
    if msg.len() < 64 {
        h
    } else {
        chain(compress(h, msg.take(64)), msg.skip(64))
    }
}

/// How many zero bytes padding inserts between the `0x80` marker and the
/// eight-byte length field, so the padded length is a multiple of 64.
pub open spec fn zero_pad_len(len: nat) -> int {
    (119 - (len % 64)) % 64
}

/// The eight bytes of a 64-bit integer in big-endian order.
pub open spec fn be64(x: u64) -> Seq<u8> {
    Seq::new(8, |i: int| ((x >> ((56 - 8 * i) as u64)) & 0xff) as u8)
}

/// A message followed by its SHA-1 padding: `0x80`, zero fill, and the
/// message length in bits as a big-endian 64-bit integer.
pub open spec fn padded(msg: Seq<u8>) -> Seq<u8>
    recommends
        msg.len() <= MAX_MESSAGE_LEN,
{
    msg + seq![0x80u8] + Seq::new(zero_pad_len(msg.len()) as nat, |i: int| 0u8) + be64(
        (msg.len() * 8) as u64,
    )
}

/// The five state words of the SHA-1 digest of `msg`.
pub open spec fn digest_words(msg: Seq<u8>) -> Seq<u32>
    recommends
        msg.len() <= MAX_MESSAGE_LEN,
{
    chain(init_state(), padded(msg))
}

/// The lowercase hexadecimal digit with value `n`.
pub open spec fn hex_digit(n: u32) -> char
    recommends
        n < 16,
{
    if n < 10 {
        ((48 + n) as u8) as char
    } else {
        ((87 + n) as u8) as char
    }
}

/// The eight lowercase hexadecimal digits of one 32-bit word, most
/// significant digit first.
pub open spec fn word_hex(w: u32) -> Seq<char> {
    Seq::new(8, |i: int| hex_digit((w >> ((28 - 4 * i) as u32)) & 0xf))
}

/// The full 40-character lowercase hexadecimal SHA-1 digest of `msg`.
pub open spec fn digest_hex(msg: Seq<u8>) -> Seq<char>
    recommends
        msg.len() <= MAX_MESSAGE_LEN,
{
    let ws = digest_words(msg);
    word_hex(ws[0]) + word_hex(ws[1]) + word_hex(ws[2]) + word_hex(ws[3]) + word_hex(ws[4])
}

/// Appending one whole block to a block-aligned message chains one more
/// application of the compression transform.
proof fn lemma_chain_snoc(h: Seq<u32>, m: Seq<u8>, b: Seq<u8>)
    requires
        m.len() % 64 == 0,
        b.len() == 64,
    ensures
        chain(h, m + b) == compress(chain(h, m), b),
    decreases m.len(),
{
    if m.len() == 0 {
        assert((m + b).take(64) =~= b);
        assert((m + b).skip(64) =~= Seq::<u8>::empty());
        assert(chain(h, m + b) == chain(compress(h, b), Seq::<u8>::empty()));
        assert(chain(compress(h, b), Seq::<u8>::empty()) == compress(h, b));
    } else {
        assert(m.len() >= 64);
        assert((m + b).take(64) =~= m.take(64));
        assert((m + b).skip(64) =~= m.skip(64) + b);
        assert(m.skip(64).len() % 64 == 0);
        assert(chain(h, m + b) == chain(compress(h, m.take(64)), m.skip(64) + b));
        assert(chain(h, m) == chain(compress(h, m.take(64)), m.skip(64)));
        lemma_chain_snoc(compress(h, m.take(64)), m.skip(64), b);
    }
}

/// Whether `c` is a lowercase hexadecimal digit, `0`-`9` or `a`-`f`.
pub open spec fn is_hex_digit_char(c: char) -> bool {
    (48 <= c as u32 && c as u32 <= 57) || (97 <= c as u32 && c as u32 <= 102)
}

/// Every digit `hex_digit` renders is a lowercase hexadecimal character.
proof fn lemma_hex_digit_char(n: u32)
    requires
        n < 16,
    ensures
        is_hex_digit_char(hex_digit(n)),
{
}

/// A digest is always 40 characters long, all lowercase hexadecimal.
pub proof fn lemma_digest_shape(msg: Seq<u8>)
    ensures
        digest_hex(msg).len() == 40,
        forall|j: int| 0 <= j < 40 ==> is_hex_digit_char(#[trigger] digest_hex(msg)[j]),
{
    let ws = digest_words(msg);
    assert forall|j: int| 0 <= j < 40 implies is_hex_digit_char(#[trigger] digest_hex(msg)[j]) by {
        let w = ws[j / 8];
        let i = j % 8;
        assert(digest_hex(msg)[j] == word_hex(w)[i]);
        let s = (28 - 4 * i) as u32;
        assert(((w >> s) & 0xf) < 16) by (bit_vector);
        lemma_hex_digit_char((w >> s) & 0xf);
    }
}

/// Streaming transparency: `update` ensures that the engine's absorbed bytes
/// are the concatenation of everything passed to it, and `finalize` digests
/// the absorbed bytes alone. Hence absorbing a message in one call and
/// absorbing any partition of it into consecutive pieces yield one and the
/// same digest.
pub proof fn lemma_streaming_equivalence(pieces: Seq<Seq<u8>>, whole: Seq<u8>)
    requires
        pieces.flatten() == whole,
    ensures
        digest_hex(pieces.flatten()) == digest_hex(whole),
{
}

/// The one-character string holding the lowercase hexadecimal digit with
/// value `n`.
fn hex_char_str(n: u32) -> (r: &'static str)
    requires
        n < 16,
    ensures
        r@ =~= seq![hex_digit(n)],
{
    let table = "0123456789abcdef";
    proof {
        reveal_strlit("0123456789abcdef");
        assert(table.is_ascii());
        assert(table@.subrange(n as int, n as int + 1) =~= seq![hex_digit(n)]);
    }
    table.substring_ascii(n as usize, n as usize + 1)
}

/// Appends the eight lowercase hexadecimal digits of `w` to `out`, most
/// significant digit first.
fn push_word_hex(out: &mut String, w: u32)
    ensures
        final(out)@ == old(out)@ + word_hex(w),
{
    let mut i: usize = 0;
    while i < 8
        invariant
            i <= 8,
            out@ == old(out)@ + word_hex(w).take(i as int),
        decreases 8 - i,
    {
        let shift: u32 = 28 - 4 * (i as u32);
        let nib = (w >> shift) & 0xf;
        proof {
            assert((w >> shift) & 0xf < 16) by (bit_vector);
            assert(nib == (w >> ((28 - 4 * (i as int)) as u32)) & 0xf);
        }
        out.append(hex_char_str(nib));
        proof {
            assert(out@ =~= old(out)@ + word_hex(w).take(i + 1));
        }
        i += 1;
    }
    proof {
        assert(word_hex(w).take(8) =~= word_hex(w));
    }
}

/// Renders five state words as a 40-character lowercase hexadecimal string.
fn render_digest(h: &Vec<u32>) -> (r: String)
    requires
        h@.len() == 5,
    ensures
        r@ == word_hex(h@[0]) + word_hex(h@[1]) + word_hex(h@[2]) + word_hex(h@[3]) + word_hex(
            h@[4],
        ),
{
    let mut out = String::new();
    push_word_hex(&mut out, h[0]);
    push_word_hex(&mut out, h[1]);
    push_word_hex(&mut out, h[2]);
    push_word_hex(&mut out, h[3]);
    push_word_hex(&mut out, h[4]);
    proof {
        assert(out@ =~= Seq::<char>::empty() + word_hex(h@[0]) + word_hex(h@[1]) + word_hex(h@[2])
            + word_hex(h@[3]) + word_hex(h@[4]));
        assert(Seq::<char>::empty() + word_hex(h@[0]) =~= word_hex(h@[0]));
    }
    out
}

/// Reported when an already finalized engine is asked to absorb more input
/// or to produce a second digest.
#[derive(Clone, Copy, Debug, PartialEq, Eq, Structural)]
pub enum Sha1Error {
    AlreadyFinalized,
}

/// An in-progress or completed SHA-1 computation.
///
/// `h` holds the five state words reflecting every complete block absorbed so
/// far; `block` buffers the trailing partial block; `len` counts the bytes
/// absorbed. A finalized engine accepts no further input.
pub struct Sha1 {
    h: Vec<u32>,
    len: u64,
    block: Vec<u8>,
    block_len: usize,
    finalized: bool,
    absorbed: Ghost<Seq<u8>>,
}

impl Sha1 {
    /// The bytes absorbed so far, the sequence this engine will digest.
    pub closed spec fn bytes(self) -> Seq<u8> {
        self.absorbed@
    }

    /// Whether the engine has produced its digest and is now closed.
    pub closed spec fn is_finalized(self) -> bool {
        self.finalized
    }

    /// Internal well-formedness: the buffer holds exactly the bytes past the
    /// last block boundary, and the state words reflect every complete block.
    pub closed spec fn inv(self) -> bool {
        &&& self.h@.len() == 5
        &&& self.block@.len() == 64
        &&& (!self.finalized ==> {
            &&& self.len <= MAX_MESSAGE_LEN
            &&& self.len == self.absorbed@.len()
            &&& self.block_len < 64
            &&& self.block_len as int == (self.len as int) % 64
            &&& self.block@.subrange(0, self.block_len as int) == self.absorbed@.skip(
                self.absorbed@.len() - self.block_len,
            )
            &&& self.h@ == chain(
                init_state(),
                self.absorbed@.take(self.absorbed@.len() - self.block_len),
            )
        })
    }

    /// A fresh engine in the initial state, with nothing absorbed.
    pub fn new() -> (r: Sha1)
        ensures
            r.inv(),
            !r.is_finalized(),
            r.bytes() == Seq::<u8>::empty(),
    {
        let mut h: Vec<u32> = Vec::new();
        h.push(0x67452301);
        h.push(0xefcdab89);
        h.push(0x98badcfe);
        h.push(0x10325476);
        h.push(0xc3d2e1f0);
        let mut block: Vec<u8> = Vec::new();
        let mut i: usize = 0;
        while i < 64
            invariant
                block@.len() == i,
                i <= 64,
            decreases 64 - i,
        {
            block.push(0);
            i += 1;
        }
        let r = Sha1 {
            h,
            len: 0,
            block,
            block_len: 0,
            finalized: false,
            absorbed: Ghost(Seq::empty()),
        };
        proof {
            assert(r.h@ =~= init_state());
            assert(r.block@.subrange(0, 0) =~= r.absorbed@.skip(0));
            assert(r.absorbed@.take(0) =~= Seq::<u8>::empty());
        }
        r
    }

    /// Left rotation of a 32-bit word by `n` bits.
    fn rotate(x: u32, n: u32) -> (r: u32)
        requires
            0 < n < 32,
        ensures
            r == rotl(x, n),
    {
        (x << n) | (x >> (32 - n))
    }

    /// Appends `data` to the engine. Bytes are buffered into 64-byte blocks;
    /// each block is compressed into the state words the moment it fills.
    /// Absorbing in several calls is the same as absorbing the concatenation
    /// in one call. A finalized engine rejects the call and is left unchanged.
    pub fn update(&mut self, data: &[u8]) -> (r: Result<(), Sha1Error>)
        requires
            old(self).inv(),
            old(self).bytes().len() + data@.len() <= MAX_MESSAGE_LEN,
        ensures
            final(self).inv(),
            final(self).is_finalized() == old(self).is_finalized(),
            old(self).is_finalized() ==> r == Err::<(), Sha1Error>(Sha1Error::AlreadyFinalized)
                && *final(self) == *old(self),
            !old(self).is_finalized() ==> r == Ok::<(), Sha1Error>(()) && final(self).bytes()
                == old(self).bytes() + data@,
    {
        if self.finalized {
            return Err(Sha1Error::AlreadyFinalized);
        }
        let ghost bytes0 = self.absorbed@;
        let mut i: usize = 0;
        while i < data.len()
            invariant
                self.inv(),
                !self.finalized,
                i <= data@.len(),
                self.absorbed@ == bytes0 + data@.take(i as int),
                bytes0.len() + data@.len() <= MAX_MESSAGE_LEN,
            decreases data@.len() - i,
        {
            let byte = data[i];
            let ghost pre = self.absorbed@;
            let ghost ob = self.block@;
            let ghost obl = self.block_len as int;
            self.block.set(self.block_len, byte);
            self.block_len = self.block_len + 1;
            self.len = self.len + 1;
            proof {
                self.absorbed@ = pre.push(byte);
                assert(self.absorbed@ =~= bytes0 + data@.take(i + 1));
                assert forall|j: int| 0 <= j < obl implies ob[j] == pre[pre.len() - obl + j] by {
                    assert(ob.subrange(0, obl)[j] == ob[j]);
                    assert(pre.skip(pre.len() - obl)[j] == pre[pre.len() - obl + j]);
                }
                assert(self.block@.subrange(0, obl + 1) =~= self.absorbed@.skip(
                    self.absorbed@.len() - (obl + 1),
                ));
                assert(self.absorbed@.take(self.absorbed@.len() - (obl + 1)) =~= pre.take(
                    pre.len() - obl,
                ));
            }
            if self.block_len == 64 {
                let ghost whole = self.absorbed@;
                proof {
                    assert(self.block@.subrange(0, 64) =~= self.block@);
                    assert(self.block@ == whole.skip(whole.len() - 64));
                }
                self.process_block();
                self.block_len = 0;
                proof {
                    assert((whole.len() - 64) % 64 == 0);
                    lemma_chain_snoc(
                        init_state(),
                        whole.take(whole.len() - 64),
                        whole.skip(whole.len() - 64),
                    );
                    assert(whole.take(whole.len() - 64) + whole.skip(whole.len() - 64) =~= whole);
                    assert(whole.take(whole.len() as int) =~= whole);
                    assert(self.block@.subrange(0, 0) =~= whole.skip(whole.len() as int));
                }
            }
            i += 1;
        }
        proof {
            assert(bytes0 + data@.take(data@.len() as int) =~= bytes0 + data@);
        }
        Ok(())
    }

    /// Zero-fills the buffered block from its current occupancy up to byte
    /// offset `upto`.
    fn fill_zeros(&mut self, upto: usize)
        requires
            old(self).block@.len() == 64,
            old(self).block_len <= upto <= 64,
        ensures
            final(self).block@.len() == 64,
            final(self).block_len == upto,
            forall|j: int|
                0 <= j < 64 ==> final(self).block@[j] == (if old(self).block_len <= j < upto {
                    0u8
                } else {
                    old(self).block@[j]
                }),
            final(self).h == old(self).h,
            final(self).len == old(self).len,
            final(self).finalized == old(self).finalized,
            final(self).absorbed == old(self).absorbed,
    {
        while self.block_len < upto
            invariant
                old(self).block_len <= self.block_len <= upto <= 64,
                self.block@.len() == 64,
                forall|j: int|
                    0 <= j < 64 ==> self.block@[j] == (if old(self).block_len <= j
                        < self.block_len {
                        0u8
                    } else {
                        old(self).block@[j]
                    }),
                self.h == old(self).h,
                self.len == old(self).len,
                self.finalized == old(self).finalized,
                self.absorbed == old(self).absorbed,
            decreases upto - self.block_len,
        {
            self.block.set(self.block_len, 0);
            self.block_len = self.block_len + 1;
        }
    }

    /// Writes the message bit length into bytes 56 to 63 of the buffered
    /// block, as a big-endian 64-bit integer.
    fn write_length(&mut self, bit_len: u64)
        requires
            old(self).block@.len() == 64,
        ensures
            final(self).block@.len() == 64,
            forall|j: int| 0 <= j < 56 ==> final(self).block@[j] == old(self).block@[j],
            forall|j: int| 56 <= j < 64 ==> final(self).block@[j] == be64(bit_len)[j - 56],
            final(self).block_len == old(self).block_len,
            final(self).h == old(self).h,
            final(self).len == old(self).len,
            final(self).finalized == old(self).finalized,
            final(self).absorbed == old(self).absorbed,
    {
        let mut i: usize = 0;
        while i < 8
            invariant
                i <= 8,
                self.block@.len() == 64,
                forall|j: int| 0 <= j < 56 ==> self.block@[j] == old(self).block@[j],
                forall|j: int| 56 + i <= j < 64 ==> self.block@[j] == old(self).block@[j],
                forall|j: int| 56 <= j < 56 + i ==> self.block@[j] == be64(bit_len)[j - 56],
                self.block_len == old(self).block_len,
                self.h == old(self).h,
                self.len == old(self).len,
                self.finalized == old(self).finalized,
                self.absorbed == old(self).absorbed,
            decreases 8 - i,
        {
            let byte = ((bit_len >> (56 - 8 * (i as u64))) & 0xff) as u8;
            proof {
                assert(byte == be64(bit_len)[i as int]);
            }
            self.block.set(56 + i, byte);
            i += 1;
        }
    }

    /// Consumes the engine's single use: appends the SHA-1 padding and the
    /// bit-length field, compresses the closing block or blocks, and renders
    /// the digest as a 40-character lowercase hexadecimal string. Every later
    /// call on the engine, including a second `finalize`, reports an error.
    pub fn finalize(&mut self) -> (r: Result<String, Sha1Error>)
        requires
            old(self).inv(),
        ensures
            final(self).inv(),
            final(self).is_finalized(),
            final(self).bytes() == old(self).bytes(),
            old(self).is_finalized() ==> r == Err::<String, Sha1Error>(Sha1Error::AlreadyFinalized),
            !old(self).is_finalized() ==> match r {
                Ok(d) => {
                    &&& d@ == digest_hex(old(self).bytes())
                    &&& d@.len() == 40
                    &&& forall|j: int| 0 <= j < 40 ==> is_hex_digit_char(#[trigger] d@[j])
                },
                Err(_) => false,
            },
    {
        if self.finalized {
            return Err(Sha1Error::AlreadyFinalized);
        }
        let ghost msg = self.absorbed@;
        let ghost n = msg.len() as int;
        let ghost r0 = self.block_len as int;
        let ghost pad = padded(msg);
        let bit_len: u64 = self.len * 8;
        proof {
            assert forall|j: int| 0 <= j < r0 implies old(self).block@[j] == msg[n - r0 + j] by {
                assert(old(self).block@.subrange(0, r0)[j] == old(self).block@[j]);
                assert(msg.skip(n - r0)[j] == msg[n - r0 + j]);
            }
            assert(bit_len == (msg.len() * 8) as u64);
            assert((n - r0) % 64 == 0);
        }
        self.block.set(self.block_len, 0x80);
        self.block_len = self.block_len + 1;
        if self.block_len > 56 {
            self.fill_zeros(64);
            let ghost b1 = self.block@;
            proof {
                assert(zero_pad_len(msg.len()) == 119 - r0);
                assert(pad.len() == n - r0 + 128);
                assert(b1 =~= pad.subrange(n - r0, n - r0 + 64));
                assert(pad.take(n - r0) =~= msg.take(n - r0));
                lemma_chain_snoc(init_state(), pad.take(n - r0), pad.subrange(n - r0, n - r0 + 64));
                assert(pad.take(n - r0) + pad.subrange(n - r0, n - r0 + 64) =~= pad.take(
                    n - r0 + 64,
                ));
            }
            self.process_block();
            self.block_len = 0;
            proof {
                assert(self.h@ == chain(init_state(), pad.take(n - r0 + 64)));
            }
            self.fill_zeros(56);
            self.write_length(bit_len);
            proof {
                assert(self.block@ =~= pad.skip(n - r0 + 64));
                lemma_chain_snoc(init_state(), pad.take(n - r0 + 64), pad.skip(n - r0 + 64));
                assert(pad.take(n - r0 + 64) + pad.skip(n - r0 + 64) =~= pad);
            }
            self.process_block();
        } else {
            self.fill_zeros(56);
            self.write_length(bit_len);
            proof {
                assert(zero_pad_len(msg.len()) == 55 - r0);
                assert(pad.len() == n - r0 + 64);
                assert(self.block@ =~= pad.skip(n - r0));
                assert(pad.take(n - r0) =~= msg.take(n - r0));
                lemma_chain_snoc(init_state(), pad.take(n - r0), pad.skip(n - r0));
                assert(pad.take(n - r0) + pad.skip(n - r0) =~= pad);
                assert(pad.skip(n - r0).len() == 64);
            }
            self.process_block();
        }
        proof {
            assert(self.h@ == digest_words(msg));
        }
        let digest = render_digest(&self.h);
        self.finalized = true;
        proof {
            lemma_digest_shape(msg);
            assert(digest@ =~= digest_hex(msg));
        }
        Ok(digest)
    }

    /// Consumes the buffered block: one application of the compression
    /// transform to the state words.
    fn process_block(&mut self)
        requires
            old(self).h@.len() == 5,
            old(self).block@.len() == 64,
        ensures
            final(self).h@ == compress(old(self).h@, old(self).block@),
            final(self).block == old(self).block,
            final(self).len == old(self).len,
            final(self).block_len == old(self).block_len,
            final(self).finalized == old(self).finalized,
            final(self).absorbed == old(self).absorbed,
    {
        let ghost b = self.block@;
        let ghost h0 = self.h@;
        let mut w: Vec<u32> = Vec::new();
        let mut i: usize = 0;
        while i < 16
            invariant
                self == old(self),
                b == self.block@,
                b.len() == 64,
                i <= 16,
                w@.len() == i,
                forall|j: int| 0 <= j < i ==> w@[j] == block_words(b)[j],
            decreases 16 - i,
        {
            let word = ((self.block[4 * i] as u32) << 24u32) | ((self.block[4 * i + 1] as u32)
                << 16u32) | ((self.block[4 * i + 2] as u32) << 8u32) | (self.block[4 * i
                + 3] as u32);
            w.push(word);
            i += 1;
        }
        assert(forall|j: int| 0 <= j < 16 ==> w@[j] == schedule(b, j));
        let mut i: usize = 16;
        while i < 80
            invariant
                16 <= i <= 80,
                w@.len() == i,
                forall|j: int| 0 <= j < i ==> w@[j] == schedule(b, j),
            decreases 80 - i,
        {
            let word = Self::rotate(w[i - 3] ^ w[i - 8] ^ w[i - 14] ^ w[i - 16], 1);
            proof {
                assert(schedule(b, i as int) == rotl(
                    schedule(b, i - 3) ^ schedule(b, i - 8) ^ schedule(b, i - 14) ^ schedule(
                        b,
                        i - 16,
                    ),
                    1,
                ));
            }
            w.push(word);
            i += 1;
        }
        let mut a = self.h[0];
        let mut bv = self.h[1];
        let mut c = self.h[2];
        let mut d = self.h[3];
        let mut e = self.h[4];
        let mut t: usize = 0;
        while t < 80
            invariant
                self == old(self),
                b == self.block@,
                h0 == self.h@,
                b.len() == 64,
                h0.len() == 5,
                t <= 80,
                w@.len() == 80,
                forall|j: int| 0 <= j < 80 ==> w@[j] == schedule(b, j),
                rounds(b, h0, t as int) == (a, bv, c, d, e),
            decreases 80 - t,
        {
            let f: u32;
            let k: u32;
            if t < 20 {
                f = (bv & c) | ((!bv) & d);
                k = 0x5a827999;
            } else if t < 40 {
                f = bv ^ c ^ d;
                k = 0x6ed9eba1;
            } else if t < 60 {
                f = (bv & c) | (bv & d) | (c & d);
                k = 0x8f1bbcdc;
            } else {
                f = bv ^ c ^ d;
                k = 0xca62c1d6;
            }
            let temp = Self::rotate(a, 5).wrapping_add(f).wrapping_add(e).wrapping_add(
                k,
            ).wrapping_add(w[t]);
            e = d;
            d = c;
            c = Self::rotate(bv, 30);
            bv = a;
            a = temp;
            t += 1;
        }
        let s0 = self.h[0].wrapping_add(a);
        let s1 = self.h[1].wrapping_add(bv);
        let s2 = self.h[2].wrapping_add(c);
        let s3 = self.h[3].wrapping_add(d);
        let s4 = self.h[4].wrapping_add(e);
        self.h.set(0, s0);
        self.h.set(1, s1);
        self.h.set(2, s2);
        self.h.set(3, s3);
        self.h.set(4, s4);
        proof {
            assert(self.h@ =~= compress(h0, b));
        }
    }
}

} // verus!
