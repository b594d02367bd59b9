//! Byte-exact snapshots of planar buffers.
//!
//! A buffer is given by the bit patterns of its samples. Its hash is compared
//! with the one that a manifest holds.

use crate::dsp::memory::rows;
use crate::text::{digit_value, spelled};
use vstd::arithmetic::power::pow;
use vstd::prelude::*;
use vstd::string::{StrSliceExecFns, StringExecFns};

verus! {

// ---------------------------------------------------------------------------
// Hashing
// ---------------------------------------------------------------------------

/// Offset basis of the 128-bit hash.
pub const FNV128_OFFSET: u128 = 0x6c62_272e_07bb_0142_62b8_2175_6295_c58d;

/// Prime of the 128-bit hash.
pub const FNV128_PRIME: u128 = 0x0000_0000_0100_0000_0000_0000_0000_013b;

/// The hash after one more byte.
pub open spec fn hash_step(state: u128, byte: u8) -> u128 {
    (state ^ (byte as u128)).wrapping_mul(FNV128_PRIME)
}

/// The hash after more bytes.
pub open spec fn hash_after(state: u128, bytes: Seq<u8>) -> u128
    decreases bytes.len(),
{
    if bytes.len() == 0 {
        state
    } else {
        hash_step(hash_after(state, bytes.drop_last()), bytes.last())
    }
}

/// How bytes are divided into writes does not show in the hash.
pub proof fn writes_join(state: u128, a: Seq<u8>, b: Seq<u8>)
    ensures
        hash_after(hash_after(state, a), b) == hash_after(state, a + b),
    decreases b.len(),
{
    if b.len() == 0 {
        assert(a + b =~= a);
    } else {
        writes_join(state, a, b.drop_last());
        assert((a + b).drop_last() =~= a + b.drop_last());
    }
}

/// A streaming 128-bit FNV-1a hasher for snapshot regression detection.
#[derive(Debug)]
pub struct Fnv1a128 {
    pub state: u128,
}

impl Fnv1a128 {
    pub fn new() -> (r: Self)
        ensures
            r.state == FNV128_OFFSET,
    {
        Self { state: FNV128_OFFSET }
    }

    /// Hash some bytes.
    pub fn write(&mut self, bytes: &[u8])
        ensures
            final(self).state == hash_after(old(self).state, bytes@),
    {
        let mut i: usize = 0;
        while i < bytes.len()
            invariant
                0 <= i <= bytes@.len(),
                self.state == hash_after(old(self).state, bytes@.take(i as int)),
            decreases bytes@.len() - i,
        {
            let b: u8 = bytes[i];
            self.state = (self.state ^ (b as u128)).wrapping_mul(FNV128_PRIME);
            proof {
                assert(bytes@.take(i + 1).drop_last() =~= bytes@.take(i as int));
            }
            i += 1;
        }
        assert(bytes@.take(i as int) =~= bytes@);
    }

    /// The hash as 32 lowercase hexadecimal digits.
    pub fn finish_hex(&self) -> (r: String)
        ensures
            r@ == hex_text(self.state as nat, 32),
    {
        let mut r = String::from_str("");
        proof {
            reveal_strlit("");
        }
        push_hex(&mut r, self.state, 32);
        assert(r@ =~= hex_text(self.state as nat, 32));
        r
    }
}

/// The character of a hexadecimal digit.
pub open spec fn hex_digit(d: int) -> char {
    "0123456789abcdef"@[d]
}

/// The last `width` hexadecimal digits of `n`.
pub open spec fn hex_text(n: nat, width: nat) -> Seq<char>
    decreases width,
{
    if width == 0 {
        Seq::empty()
    } else {
        hex_text(n / 16, (width - 1) as nat).push(hex_digit((n % 16) as int))
    }
}

fn push_hex(text: &mut String, n: u128, width: usize)
    ensures
        final(text)@ == old(text)@ + hex_text(n as nat, width as nat),
    decreases width,
{
    if width > 0 {
        push_hex(text, n / 16, width - 1);
        let d: usize = (n % 16) as usize;
        proof {
            reveal_strlit("0123456789abcdef");
        }
        let digits = "0123456789abcdef";
        let s = digits.substring_char(d, d + 1);
        assert(s@ =~= seq![hex_digit(d as int)]);
        text.append(s);
    }
    assert(text@ =~= old(text)@ + hex_text(n as nat, width as nat));
}

// ---------------------------------------------------------------------------
// Layout
// ---------------------------------------------------------------------------

/// The bytes of `n`, least significant first.
pub open spec fn le_bytes(n: u32) -> Seq<u8> {
    seq![
        (n % 256) as u8,
        (n / 256 % 256) as u8,
        (n / 65536 % 256) as u8,
        (n / 16777216) as u8,
    ]
}

fn write_u32(h: &mut Fnv1a128, n: u32)
    ensures
        final(h).state == hash_after(old(h).state, le_bytes(n)),
{
    let bytes: [u8; 4] = [
        (n % 256) as u8,
        (n / 256 % 256) as u8,
        (n / 65536 % 256) as u8,
        (n / 16777216) as u8,
    ];
    assert(bytes@ =~= le_bytes(n));
    h.write(&bytes);
}

/// The tag of the byte layout, `f32-le-planar-v1` and a zero byte.
pub open spec fn layout_tag() -> Seq<u8> {
    seq![
        0x66u8, 0x33, 0x32, 0x2d, 0x6c, 0x65, 0x2d, 0x70, 0x6c, 0x61, 0x6e, 0x61, 0x72, 0x2d, 0x76,
        0x31, 0,
    ]
}

/// The bytes of the first `n` bit patterns of a channel.
pub open spec fn plane_bytes(plane: Seq<u32>, n: nat) -> Seq<u8>
    decreases n,
{
    if n == 0 {
        Seq::empty()
    } else {
        plane_bytes(plane, (n - 1) as nat) + le_bytes(plane[n - 1])
    }
}

/// The bytes of the first `n` channels, one after the other.
pub open spec fn planar_bytes(out: Seq<Seq<u32>>, n: nat) -> Seq<u8>
    decreases n,
{
    if n == 0 {
        Seq::empty()
    } else {
        planar_bytes(out, (n - 1) as nat) + plane_bytes(out[n - 1], out[n - 1].len())
    }
}

/// The number of frames that the header of a snapshot gives.
pub open spec fn header_frames(out: Seq<Seq<u32>>) -> nat {
    if out.len() == 0 {
        0
    } else {
        out[0].len()
    }
}

/// The bytes that a snapshot hashes: a tagged header with the channel and frame
/// counts, then every bit pattern channel by channel.
pub open spec fn snapshot_bytes(out: Seq<Seq<u32>>) -> Seq<u8> {
    layout_tag() + le_bytes(out.len() as u32) + le_bytes(header_frames(out) as u32) + planar_bytes(
        out,
        out.len(),
    )
}

/// The hash of a planar buffer as 32 hexadecimal digits, without a tag.
pub fn snapshot_hex(out: &[Vec<u32>]) -> (r: String)
    ensures
        r@ == hex_text(hash_after(FNV128_OFFSET, snapshot_bytes(rows(out@))) as nat, 32),
{
    let channels: u32 = out.len() as u32;
    let frames: u32 = if out.len() > 0 {
        out[0].len() as u32
    } else {
        0
    };
    let mut h = Fnv1a128::new();
    let tag: [u8; 17] = [
        0x66, 0x33, 0x32, 0x2d, 0x6c, 0x65, 0x2d, 0x70, 0x6c, 0x61, 0x6e, 0x61, 0x72, 0x2d, 0x76,
        0x31, 0,
    ];
    assert(tag@ =~= layout_tag());
    h.write(&tag);
    write_u32(&mut h, channels);
    write_u32(&mut h, frames);
    let ghost planes = rows(out@);
    let ghost header = layout_tag() + le_bytes(channels) + le_bytes(frames);
    proof {
        writes_join(FNV128_OFFSET, layout_tag(), le_bytes(channels));
        writes_join(FNV128_OFFSET, layout_tag() + le_bytes(channels), le_bytes(frames));
        assert(header + planar_bytes(planes, 0) =~= header);
    }
    let mut ch: usize = 0;
    while ch < out.len()
        invariant
            0 <= ch <= out@.len(),
            planes == rows(out@),
            h.state == hash_after(FNV128_OFFSET, header + planar_bytes(planes, ch as nat)),
        decreases out@.len() - ch,
    {
        let plane = &out[ch];
        let ghost before = header + planar_bytes(planes, ch as nat);
        assert(before + plane_bytes(plane@, 0) =~= before);
        let mut i: usize = 0;
        while i < plane.len()
            invariant
                0 <= i <= plane@.len(),
                h.state == hash_after(FNV128_OFFSET, before + plane_bytes(plane@, i as nat)),
            decreases plane@.len() - i,
        {
            write_u32(&mut h, plane[i]);
            proof {
                writes_join(
                    FNV128_OFFSET,
                    before + plane_bytes(plane@, i as nat),
                    le_bytes(plane@[i as int]),
                );
                assert(before + plane_bytes(plane@, i as nat) + le_bytes(plane@[i as int])
                    =~= before + plane_bytes(plane@, (i + 1) as nat));
            }
            i += 1;
        }
        assert(planes[ch as int] == plane@);
        assert(before + plane_bytes(plane@, plane@.len()) =~= header + planar_bytes(
            planes,
            (ch + 1) as nat,
        ));
        ch += 1;
    }
    assert(header + planar_bytes(planes, planes.len()) =~= snapshot_bytes(planes));
    h.finish_hex()
}

/// Compare two planar buffers by bit pattern.
///
/// This tells the two zeros apart, and every pattern of what is not a number.
pub fn bits_eq(a: &[Vec<u32>], b: &[Vec<u32>]) -> (r: bool)
    ensures
        r == (rows(a@) == rows(b@)),
{
    if a.len() != b.len() {
        assert(rows(a@).len() != rows(b@).len());
        return false;
    }
    let mut ch: usize = 0;
    while ch < a.len()
        invariant
            0 <= ch <= a@.len(),
            a@.len() == b@.len(),
            forall|k: int| 0 <= k < ch ==> (#[trigger] a@[k])@ == b@[k]@,
        decreases a@.len() - ch,
    {
        let x = &a[ch];
        let y = &b[ch];
        if x.len() != y.len() {
            assert(rows(a@)[ch as int] != rows(b@)[ch as int]);
            return false;
        }
        let mut i: usize = 0;
        while i < x.len()
            invariant
                0 <= i <= x@.len(),
                ch < a@.len(),
                a@.len() == b@.len(),
                x@ == a@[ch as int]@,
                y@ == b@[ch as int]@,
                x@.len() == y@.len(),
                forall|k: int| 0 <= k < i ==> #[trigger] x@[k] == y@[k],
            decreases x@.len() - i,
        {
            if x[i] != y[i] {
                assert(rows(a@)[ch as int][i as int] != rows(b@)[ch as int][i as int]);
                return false;
            }
            i += 1;
        }
        assert(x@ =~= y@);
        ch += 1;
    }
    assert(rows(a@) =~= rows(b@));
    true
}

// ---------------------------------------------------------------------------
// What a snapshot tells
// ---------------------------------------------------------------------------

proof fn lemma_hex_spells(n: nat, width: nat)
    requires
        n < pow(16, width),
    ensures
        hex_text(n, width).len() == width,
        spelled(hex_text(n, width), 16) == n,
    decreases width,
{
    reveal(pow);
    if width > 0 {
        let head = hex_text(n / 16, (width - 1) as nat);
        lemma_hex_spells(n / 16, (width - 1) as nat);
        assert(hex_text(n, width).drop_last() =~= head);
        reveal_strlit("0123456789abcdef");
        assert(digit_value(hex_digit((n % 16) as int)) == n % 16);
    }
}

/// The digits of a hash spell it: 32 of them, the most significant first.
pub proof fn digits_spell_the_hash(state: u128)
    ensures
        hex_text(state as nat, 32).len() == 32,
        spelled(hex_text(state as nat, 32), 16) == state,
{
    reveal_with_fuel(pow, 33);
    assert(pow(16, 32) == 0x1_0000_0000_0000_0000_0000_0000_0000_0000);
    lemma_hex_spells(state as nat, 32);
}

/// The number that four bytes from `at` on make, the least significant first.
pub open spec fn word(bytes: Seq<u8>, at: int) -> int {
    bytes[at] + 256 * bytes[at + 1] + 65536 * bytes[at + 2] + 16777216 * bytes[at + 3]
}

proof fn lemma_word(n: u32, bytes: Seq<u8>, at: int)
    requires
        0 <= at <= at + 4 <= bytes.len(),
        bytes.subrange(at, at + 4) == le_bytes(n),
    ensures
        word(bytes, at) == n,
{
    let part = bytes.subrange(at, at + 4);
    assert(part[0] == bytes[at] && part[1] == bytes[at + 1] && part[2] == bytes[at + 2] && part[3]
        == bytes[at + 3]);
}

proof fn lemma_plane_bytes(plane: Seq<u32>, n: nat, i: int)
    requires
        n <= plane.len(),
    ensures
        plane_bytes(plane, n).len() == 4 * n,
        0 <= i < n ==> plane_bytes(plane, n).subrange(4 * i, 4 * i + 4) == le_bytes(plane[i]),
    decreases n,
{
    if n > 0 {
        let head = plane_bytes(plane, (n - 1) as nat);
        lemma_plane_bytes(plane, (n - 1) as nat, i);
        let all = plane_bytes(plane, n);
        if i == n - 1 {
            assert(all.subrange(4 * i, 4 * i + 4) =~= le_bytes(plane[i]));
        } else if 0 <= i < n - 1 {
            assert(all.subrange(4 * i, 4 * i + 4) =~= head.subrange(4 * i, 4 * i + 4));
        }
    }
}

proof fn lemma_planar_bytes(out: Seq<Seq<u32>>, frames: nat, n: nat, ch: int, i: int)
    requires
        n <= out.len(),
        forall|k: int| 0 <= k < out.len() ==> (#[trigger] out[k]).len() == frames,
    ensures
        planar_bytes(out, n).len() == 4 * (n * frames),
        0 <= ch < n && 0 <= i < frames ==> {
            let at = 4 * (ch * frames + i);
            0 <= at <= at + 4 <= planar_bytes(out, n).len() && planar_bytes(out, n).subrange(
                at,
                at + 4,
            ) == le_bytes(out[ch][i])
        },
    decreases n,
{
    if n > 0 {
        let k = n - 1;
        let head = planar_bytes(out, k as nat);
        let tail = plane_bytes(out[k], frames);
        let all = planar_bytes(out, n);
        lemma_planar_bytes(out, frames, k as nat, ch, i);
        lemma_plane_bytes(out[k], frames, i);
        assert(n * frames == k * frames + frames) by (nonlinear_arith)
            requires
                n == k + 1,
        ;
        if 0 <= ch < n && 0 <= i < frames {
            let at = 4 * (ch * frames + i);
            if ch == k {
                assert(all.subrange(at, at + 4) =~= tail.subrange(4 * i, 4 * i + 4));
            } else {
                assert(all.subrange(at, at + 4) =~= head.subrange(at, at + 4));
            }
        }
    } else {
        assert(0 * frames == 0);
    }
}

/// The bytes of a snapshot hold the channel count, the frame count and then every sample of
/// the first channel, of the second and so on, four bytes each, so that buffers that differ
/// give bytes that differ.
pub proof fn layout_holds_every_sample(out: Seq<Seq<u32>>, frames: nat, ch: int, i: int)
    requires
        0 < out.len() <= u32::MAX,
        frames <= u32::MAX,
        forall|k: int| 0 <= k < out.len() ==> (#[trigger] out[k]).len() == frames,
        0 <= ch < out.len(),
        0 <= i < frames,
    ensures
        snapshot_bytes(out).len() == 25 + 4 * (out.len() * frames),
        word(snapshot_bytes(out), 17) == out.len(),
        word(snapshot_bytes(out), 21) == frames,
        word(snapshot_bytes(out), 25 + 4 * (ch * frames + i)) == out[ch][i],
{
    let bytes = snapshot_bytes(out);
    let body = planar_bytes(out, out.len());
    let at = 4 * (ch * frames + i);
    lemma_planar_bytes(out, frames, out.len(), ch, i);
    assert(out[0].len() == frames);
    assert(bytes.subrange(17, 21) =~= le_bytes(out.len() as u32));
    assert(bytes.subrange(21, 25) =~= le_bytes(frames as u32));
    assert(bytes.subrange(25 + at, 25 + at + 4) =~= body.subrange(at, at + 4));
    lemma_word(out.len() as u32, bytes, 17);
    lemma_word(frames as u32, bytes, 21);
    lemma_word(out[ch][i], bytes, 25 + at);
}

} // verus!
