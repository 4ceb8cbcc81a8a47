//! The binary segment format and the segment writer's rotation state machine.
//!
//! A segment file holds a fixed 16-byte header (4 magic bytes and three
//! little-endian version fields) followed by framed records. Each frame is a
//! 4-byte little-endian length prefix, the record's bytes, and a 4-byte
//! reserved trailer that is written as zero and never interpreted on read.
//!
//! The writer counts records and rotates to a freshly named segment once the
//! count passes [`RECORD_COUNT_LIMIT`]; the record that crosses the threshold
//! is still written to the old segment. Segment files are named by the clock
//! second of their creation, so two rotations within one second compute the
//! same path and the daemon's exclusive create of the file fails rather than
//! overwrite.

use vstd::prelude::*;
use crate::bytes::push_all;

verus! {

/// Number of records that triggers rotation: an append that brings the count
/// past this limit closes the segment after the record is written.
pub const RECORD_COUNT_LIMIT: usize = 8192;

/// The little-endian bytes of a 32-bit value, least significant first.
pub open spec fn spec_u32_le(x: u32) -> Seq<u8> {
    seq![
        (x & 0xff) as u8,
        ((x >> 8) & 0xff) as u8,
        ((x >> 16) & 0xff) as u8,
        ((x >> 24) & 0xff) as u8,
    ]
}

/// The 32-bit value read from four little-endian bytes.
pub open spec fn spec_u32_of_le(s: Seq<u8>) -> u32
    recommends
        s.len() == 4,
{
    (s[0] as u32) | ((s[1] as u32) << 8) | ((s[2] as u32) << 16) | ((s[3] as u32) << 24)
}

/// Reading back the four little-endian bytes of `x` yields `x`.
pub proof fn lemma_u32_le_inverse(x: u32)
    ensures
        spec_u32_of_le(spec_u32_le(x)) == x,
{
    assert(x & 0xff < 256 && (x >> 8) & 0xff < 256 && (x >> 16) & 0xff < 256 && (x >> 24) & 0xff
        < 256) by (bit_vector);
    assert((x & 0xff) | (((x >> 8) & 0xff) << 8) | (((x >> 16) & 0xff) << 16) | (((x >> 24)
        & 0xff) << 24) == x) by (bit_vector);
}

/// Encodes `i` as four little-endian bytes, as every length field and version
/// field of the segment format is laid out.
pub fn encode_u32(i: u32) -> (r: [u8; 4])
    ensures
        r@ == spec_u32_le(i),
{
    let r = [
        (i >> 0) as u8,
        (i >> 8) as u8,
        (i >> 16) as u8,
        (i >> 24) as u8,
    ];
    proof {
        assert((i >> 0) as u8 == (i & 0xff) as u8) by (bit_vector);
        assert((i >> 8) as u8 == ((i >> 8) & 0xff) as u8) by (bit_vector);
        assert((i >> 16) as u8 == ((i >> 16) & 0xff) as u8) by (bit_vector);
        assert((i >> 24) as u8 == ((i >> 24) & 0xff) as u8) by (bit_vector);
        assert(r@ =~= spec_u32_le(i));
    }
    r
}

/// Decodes a 4-byte little-endian length or version field.
pub fn decode_u32(b: &[u8]) -> (r: u32)
    requires
        b@.len() == 4,
    ensures
        r == spec_u32_of_le(b@),
{
    (b[0] as u32) | ((b[1] as u32) << 8) | ((b[2] as u32) << 16) | ((b[3] as u32) << 24)
}

/// The fixed 16-byte segment header: the magic bytes, then major, minor and
/// patch version fields (0, 0 and 1) in the same little-endian byte order as
/// the record length fields.
pub open spec fn spec_header() -> Seq<u8> {
    seq![0x90u8, 0x00u8, 0xd1u8, 0x09u8] + spec_u32_le(0) + spec_u32_le(0) + spec_u32_le(1)
}

/// Builds the 16-byte header written at the start of every fresh segment.
pub fn file_header() -> (r: Vec<u8>)
    ensures
        r@ == spec_header(),
        r@.len() == 16,
{
    let mut r: Vec<u8> = Vec::new();
    r.push(0x90);
    r.push(0x00);
    r.push(0xd1);
    r.push(0x09);
    let zero = encode_u32(0);
    push_all(&mut r, zero.as_slice());
    push_all(&mut r, zero.as_slice());
    let one = encode_u32(1);
    push_all(&mut r, one.as_slice());
    proof {
        assert(r@ =~= spec_header());
    }
    r
}

/// The frame that append writes for one record: a little-endian length
/// prefix, the record's bytes, and the reserved zero trailer.
pub open spec fn spec_frame(r: Seq<u8>) -> Seq<u8> {
    spec_u32_le(r.len() as u32) + r + spec_u32_le(0)
}

/// The bytes of a whole sequence of frames, in record order.
pub open spec fn spec_frames(rs: Seq<Seq<u8>>) -> Seq<u8>
    decreases rs.len(),
{
    if rs.len() == 0 {
        Seq::empty()
    } else {
        spec_frame(rs.first()) + spec_frames(rs.drop_first())
    }
}

/// The bytes of a whole segment file holding exactly the records `rs`.
pub open spec fn spec_segment(rs: Seq<Seq<u8>>) -> Seq<u8> {
    spec_header() + spec_frames(rs)
}

/// The records read back from a sequence of frames, consuming a length
/// prefix, that many payload bytes and a 4-byte trailer at a time. The
/// trailer bytes are reserved: they are skipped, never interpreted. `None`
/// means the bytes are not a whole number of frames.
pub open spec fn spec_parse_frames(s: Seq<u8>) -> Option<Seq<Seq<u8>>>
    decreases s.len(),
{
    if s.len() == 0 {
        Some(Seq::empty())
    } else if s.len() < 8 {
        None
    } else {
        let n = spec_u32_of_le(s.take(4)) as int;
        if s.len() < 8 + n {
            None
        } else {
            match spec_parse_frames(s.skip(8 + n)) {
                Some(rest) => Some(seq![s.subrange(4, 4 + n)] + rest),
                None => None,
            }
        }
    }
}

/// The records read back from a whole segment file: the 16-byte header is
/// checked, then the frames follow.
pub open spec fn spec_parse_segment(s: Seq<u8>) -> Option<Seq<Seq<u8>>> {
    if s.len() >= 16 && s.take(16) == spec_header() {
        spec_parse_frames(s.skip(16))
    } else {
        None
    }
}

/// Frames one record for appending: the 4-byte little-endian length prefix,
/// the record bytes, and the 4-byte reserved trailer, written as zero.
pub fn frame_record(record: &[u8]) -> (r: Vec<u8>)
    requires
        record@.len() <= u32::MAX,
    ensures
        r@ == spec_frame(record@),
{
    let mut r: Vec<u8> = Vec::new();
    let len = encode_u32(record.len() as u32);
    push_all(&mut r, len.as_slice());
    push_all(&mut r, record);
    let trailer = encode_u32(0);
    push_all(&mut r, trailer.as_slice());
    proof {
        assert(record@.len() as u32 == record@.len());
        assert(r@ =~= spec_frame(record@));
    }
    r
}

/// Reading a sequence of frames back yields exactly the records that were
/// framed, in order and byte for byte.
pub proof fn lemma_frames_round_trip(rs: Seq<Seq<u8>>)
    requires
        forall|i: int| 0 <= i < rs.len() ==> #[trigger] rs[i].len() <= u32::MAX,
    ensures
        spec_parse_frames(spec_frames(rs)) == Some(rs),
    decreases rs.len(),
{
    if rs.len() == 0 {
        assert(spec_parse_frames(spec_frames(rs)) == Some(Seq::<Seq<u8>>::empty()));
        assert(Seq::<Seq<u8>>::empty() =~= rs);
    } else {
        let first = rs.first();
        let s = spec_frames(rs);
        let n = first.len() as int;
        lemma_u32_le_inverse(first.len() as u32);
        assert(s =~= spec_frame(first) + spec_frames(rs.drop_first()));
        assert(s.len() == 8 + n + spec_frames(rs.drop_first()).len());
        assert(s.take(4) =~= spec_u32_le(first.len() as u32));
        assert(spec_u32_of_le(s.take(4)) as int == n);
        assert(s.subrange(4, 4 + n) =~= first);
        assert(s.skip(8 + n) =~= spec_frames(rs.drop_first()));
        lemma_frames_round_trip(rs.drop_first());
        assert(seq![first] + rs.drop_first() =~= rs);
    }
}

/// Reads every record out of one whole segment, consuming a length prefix,
/// the payload and the 4-byte trailer per frame. The trailer bytes are
/// skipped without being interpreted. Returns `None` when the header is wrong
/// or the bytes are not a whole number of frames.
pub fn read_records(seg: &[u8]) -> (r: Option<Vec<Vec<u8>>>)
    ensures
        match r {
            Some(recs) => spec_parse_segment(seg@) == Some(recs@.map_values(|v: Vec<u8>| v@)),
            None => spec_parse_segment(seg@) is None,
        },
{
    if seg.len() < 16 {
        return None;
    }
    let header = file_header();
    let lead = vstd::slice::slice_subrange(seg, 0, 16);
    if !crate::bytes::bytes_equal(lead, header.as_slice()) {
        assert(seg@.take(16) =~= lead@);
        return None;
    }
    assert(seg@.take(16) =~= spec_header());
    let mut recs: Vec<Vec<u8>> = Vec::new();
    let mut pos: usize = 16;
    while pos < seg.len()
        invariant
            16 <= pos <= seg@.len(),
            match spec_parse_frames(seg@.skip(pos as int)) {
                Some(rest) => spec_parse_frames(seg@.skip(16))
                    == Some(recs@.map_values(|v: Vec<u8>| v@) + rest),
                None => spec_parse_frames(seg@.skip(16)) is None,
            },
        decreases seg@.len() - pos,
    {
        let ghost s = seg@.skip(pos as int);
        let remaining = seg.len() - pos;
        if remaining < 8 {
            return None;
        }
        let len_bytes = vstd::slice::slice_subrange(seg, pos, pos + 4);
        assert(len_bytes@ =~= s.take(4));
        let n = decode_u32(len_bytes) as usize;
        if remaining - 8 < n {
            return None;
        }
        let payload = crate::bytes::copy_range(seg, pos + 4, pos + 4 + n);
        assert(payload@ =~= s.subrange(4, 4 + n as int));
        let ghost before = recs@.map_values(|v: Vec<u8>| v@);
        recs.push(payload);
        proof {
            assert(recs@.map_values(|v: Vec<u8>| v@) =~= before.push(s.subrange(4, 4 + n as int)));
            assert(seg@.skip(pos + 8 + n) =~= s.skip(8 + n as int));
            match spec_parse_frames(s.skip(8 + n as int)) {
                Some(rest) => {
                    assert(spec_parse_frames(s) == Some(seq![s.subrange(4, 4 + n as int)] + rest));
                    assert(before.push(s.subrange(4, 4 + n as int)) + rest
                        =~= before + (seq![s.subrange(4, 4 + n as int)] + rest));
                }
                None => {
                    assert(spec_parse_frames(s) is None);
                }
            }
        }
        pos = pos + 8 + n;
    }
    proof {
        assert(seg@.skip(pos as int) =~= Seq::<u8>::empty());
        assert(recs@.map_values(|v: Vec<u8>| v@) + Seq::<Seq<u8>>::empty()
            =~= recs@.map_values(|v: Vec<u8>| v@));
    }
    Some(recs)
}

/// Reading a whole segment built from the records `rs` yields exactly `rs`.
pub proof fn lemma_segment_round_trip(rs: Seq<Seq<u8>>)
    requires
        forall|i: int| 0 <= i < rs.len() ==> #[trigger] rs[i].len() <= u32::MAX,
    ensures
        spec_parse_segment(spec_segment(rs)) == Some(rs),
{
    let s = spec_segment(rs);
    assert(s.take(16) =~= spec_header());
    assert(s.skip(16) =~= spec_frames(rs));
    lemma_frames_round_trip(rs);
}

/// The decimal digits of `n`, most significant first, with no sign and no
/// leading zero (`0` itself is the single digit `0`). Segment files are named
/// by their creation time written this way.
pub open spec fn spec_decimal(n: u64) -> Seq<u8>
    decreases n,
{
    if n < 10 {
        seq![(48 + n) as u8]
    } else {
        spec_decimal(n / 10) + seq![(48 + n % 10) as u8]
    }
}

fn push_decimal(n: u64, out: &mut Vec<u8>)
    ensures
        final(out)@ == old(out)@ + spec_decimal(n),
    decreases n,
{
    if n >= 10 {
        push_decimal(n / 10, out);
    }
    out.push(48 + (n % 10) as u8);
    proof {
        if n < 10 {
            assert(old(out)@ + spec_decimal(n) =~= old(out)@.push((48 + n) as u8));
        } else {
            assert(old(out)@ + spec_decimal(n)
                =~= (old(out)@ + spec_decimal(n / 10)).push((48 + n % 10) as u8));
        }
    }
}

/// Writes `n` in decimal, as segment files are named.
pub fn u64_to_decimal(n: u64) -> (r: Vec<u8>)
    ensures
        r@ == spec_decimal(n),
{
    let mut r: Vec<u8> = Vec::new();
    push_decimal(n, &mut r);
    proof {
        assert(Seq::<u8>::empty() + spec_decimal(n) =~= spec_decimal(n));
    }
    r
}

/// The path of the segment created for channel `log` under root `store` at
/// clock second `secs`: `store/log/secs`. The path depends on nothing but
/// these three values, so two segments opened for one channel within the same
/// clock second collide on the same name, and the daemon's exclusive create
/// fails rather than overwrite the first.
pub open spec fn spec_segment_path(store: Seq<u8>, log: Seq<u8>, secs: u64) -> Seq<u8> {
    store + seq![47u8] + log + seq![47u8] + spec_decimal(secs)
}

/// Computes the path of a new segment file.
pub fn segment_path(store: &[u8], log: &[u8], secs: u64) -> (r: Vec<u8>)
    ensures
        r@ == spec_segment_path(store@, log@, secs),
{
    let mut r: Vec<u8> = Vec::new();
    push_all(&mut r, store);
    r.push(47);
    push_all(&mut r, log);
    r.push(47);
    push_decimal(secs, &mut r);
    proof {
        assert(r@ =~= spec_segment_path(store@, log@, secs));
    }
    r
}

proof fn lemma_decimal_shape(n: u64)
    ensures
        spec_decimal(n).len() >= 1,
        n >= 10 ==> spec_decimal(n).len() >= 2,
        spec_decimal(n).last() == (48 + n % 10) as u8,
        n >= 10 ==> spec_decimal(n).drop_last() == spec_decimal(n / 10),
    decreases n,
{
    if n >= 10 {
        lemma_decimal_shape(n / 10);
        assert((spec_decimal(n / 10) + seq![(48 + n % 10) as u8]).drop_last()
            =~= spec_decimal(n / 10));
    }
}

proof fn lemma_decimal_injective(a: u64, b: u64)
    requires
        spec_decimal(a) == spec_decimal(b),
    ensures
        a == b,
    decreases a + b,
{
    lemma_decimal_shape(a);
    lemma_decimal_shape(b);
    assert(a % 10 == b % 10);
    if a < 10 && b < 10 {
        assert(a == a % 10 && b == b % 10);
    } else if a >= 10 && b >= 10 {
        lemma_decimal_injective(a / 10, b / 10);
        vstd::arithmetic::div_mod::lemma_fundamental_div_mod(a as int, 10);
        vstd::arithmetic::div_mod::lemma_fundamental_div_mod(b as int, 10);
    } else {
        // one has a single digit, the other at least two: the sequences
        // cannot be equal, so this case is vacuous
        assert(false);
    }
}

/// Segment name collision law: two segments of one channel are created under
/// the same path exactly when they are opened within the same clock second.
/// The daemon creates segment files with exclusive-create semantics, so the
/// second open of a colliding name fails with a creation error instead of
/// truncating or overwriting the first segment.
pub proof fn lemma_segment_name_collision(store: Seq<u8>, log: Seq<u8>, s1: u64, s2: u64)
    ensures
        (spec_segment_path(store, log, s1) == spec_segment_path(store, log, s2)) <==> s1 == s2,
{
    if spec_segment_path(store, log, s1) == spec_segment_path(store, log, s2) {
        let p1 = spec_segment_path(store, log, s1);
        let p2 = spec_segment_path(store, log, s2);
        let head = store.len() + 1 + log.len() + 1;
        assert(p1.len() == head + spec_decimal(s1).len());
        assert(p2.len() == head + spec_decimal(s2).len());
        assert(spec_decimal(s1).len() == spec_decimal(s2).len());
        assert(spec_decimal(s1) =~= p1.skip(head as int));
        assert(spec_decimal(s2) =~= p2.skip(head as int));
        lemma_decimal_injective(s1, s2);
    }
}

/// The record count after one more append: it grows by one, except that the
/// append that passes [`RECORD_COUNT_LIMIT`] rotates and resets it to zero.
pub open spec fn spec_next_count(c: nat) -> nat {
    if c + 1 > RECORD_COUNT_LIMIT {
        0
    } else {
        c + 1
    }
}

/// The record count after `n` appends to a fresh writer.
pub open spec fn spec_count_after(n: nat) -> nat
    decreases n,
{
    if n == 0 {
        0
    } else {
        spec_next_count(spec_count_after((n - 1) as nat))
    }
}

/// Whether the `n`-th append (counting from 1) to a fresh writer rotates.
pub open spec fn spec_rotates_on(n: nat) -> bool
    recommends
        n >= 1,
{
    spec_count_after((n - 1) as nat) + 1 > RECORD_COUNT_LIMIT
}

/// The record counter of a fresh writer is periodic: after `n` appends it
/// reads `n` modulo `RECORD_COUNT_LIMIT + 1`, so every segment of a long run
/// fills with exactly `RECORD_COUNT_LIMIT + 1` records before rotation.
pub proof fn lemma_count_after_periodic(n: nat)
    ensures
        spec_count_after(n) == n % ((RECORD_COUNT_LIMIT + 1) as nat),
    decreases n,
{
    let m = (RECORD_COUNT_LIMIT + 1) as int;
    if n == 0 {
        vstd::arithmetic::div_mod::lemma_small_mod(0, m as nat);
    } else {
        lemma_count_after_periodic((n - 1) as nat);
        vstd::arithmetic::div_mod::lemma_mod_division_less_than_divisor((n - 1) as int, m);
        vstd::arithmetic::div_mod::lemma_fundamental_div_mod((n - 1) as int, m);
        let q = (n - 1) as int / m;
        let r = (n - 1) as int % m;
        if r == m - 1 {
            assert((q + 1) * m == q * m + m) by (nonlinear_arith);
            assert(m * q == q * m) by (nonlinear_arith);
            vstd::arithmetic::div_mod::lemma_fundamental_div_mod_converse_mod(
                n as int,
                m,
                q + 1,
                0,
            );
        } else {
            vstd::arithmetic::div_mod::lemma_fundamental_div_mod_converse_mod(
                n as int,
                m,
                q,
                r + 1,
            );
        }
    }
}

/// Rotation strikes exactly every `RECORD_COUNT_LIMIT + 1` appends: the
/// `n`-th append to a fresh writer rotates iff `n` is a multiple of
/// `RECORD_COUNT_LIMIT + 1`.
pub proof fn lemma_rotation_period(n: nat)
    requires
        n >= 1,
    ensures
        spec_rotates_on(n) <==> n % ((RECORD_COUNT_LIMIT + 1) as nat) == 0,
{
    let m = (RECORD_COUNT_LIMIT + 1) as int;
    lemma_count_after_periodic((n - 1) as nat);
    vstd::arithmetic::div_mod::lemma_mod_division_less_than_divisor((n - 1) as int, m);
    vstd::arithmetic::div_mod::lemma_fundamental_div_mod((n - 1) as int, m);
    let q = (n - 1) as int / m;
    let r = (n - 1) as int % m;
    if r == m - 1 {
        assert((q + 1) * m == q * m + m) by (nonlinear_arith);
        assert(m * q == q * m) by (nonlinear_arith);
        vstd::arithmetic::div_mod::lemma_fundamental_div_mod_converse_mod(n as int, m, q + 1, 0);
    } else {
        vstd::arithmetic::div_mod::lemma_fundamental_div_mod_converse_mod(n as int, m, q, r + 1);
    }
}

/// Rotation boundary law: with rotation threshold `T = RECORD_COUNT_LIMIT`,
/// none of the first `T` appends to a fresh writer rotates, and the append of
/// record `T + 1` does. Since [`Appender::append`] hands out the record's
/// frame together with the rotation flag, and rotation only opens the next
/// segment after that frame, all `T + 1` records land in the first segment
/// and the following append writes to the second.
pub proof fn lemma_rotation_boundary(i: nat)
    requires
        1 <= i <= RECORD_COUNT_LIMIT + 1,
    ensures
        spec_rotates_on(i) <==> i == RECORD_COUNT_LIMIT + 1,
{
    let m = (RECORD_COUNT_LIMIT + 1) as nat;
    lemma_rotation_period(i);
    if i <= RECORD_COUNT_LIMIT {
        vstd::arithmetic::div_mod::lemma_small_mod(i, m);
    } else {
        vstd::arithmetic::div_mod::lemma_mod_self_0(m as int);
    }
}

/// The per-channel segment writer's bookkeeping: where segments live and how
/// many records the current segment holds. The open file itself is owned by
/// the daemon, which performs exactly the writes this type hands out.
pub struct Appender {
    /// The storage root.
    pub store: Vec<u8>,
    /// The channel name; segments live in `store/log/`.
    pub log: Vec<u8>,
    /// Records appended to the current segment so far.
    pub record_count: usize,
}

impl Appender {
    /// The record count never passes the rotation limit between appends.
    pub open spec fn wf(self) -> bool {
        self.record_count <= RECORD_COUNT_LIMIT
    }

    /// A writer for a fresh segment of channel `log` under `store`. The
    /// daemon opens the file named by [`Appender::open_segment`] with
    /// exclusive-create semantics and writes the returned header before the
    /// first append.
    pub fn open_for_append(store: Vec<u8>, log: Vec<u8>) -> (r: Appender)
        ensures
            r.store == store,
            r.log == log,
            r.record_count == 0,
            r.wf(),
    {
        Appender { store, log, record_count: 0 }
    }

    /// What opening a segment at clock second `secs` writes: the path of the
    /// new file, and the 16-byte header that starts it.
    pub fn open_segment(&self, secs: u64) -> (r: (Vec<u8>, Vec<u8>))
        ensures
            r.0@ == spec_segment_path(self.store@, self.log@, secs),
            r.1@ == spec_header(),
    {
        (segment_path(self.store.as_slice(), self.log.as_slice(), secs), file_header())
    }

    /// One append: hands back the frame to write to the *current* segment,
    /// and whether to rotate afterwards. On rotation the count resets and the
    /// daemon opens the next segment via [`Appender::open_segment`]; the
    /// record that crossed the threshold is never split across segments,
    /// because its frame belongs to the old file.
    pub fn append(&mut self, record: &[u8]) -> (r: (Vec<u8>, bool))
        requires
            old(self).wf(),
            record@.len() <= u32::MAX,
        ensures
            final(self).wf(),
            final(self).store == old(self).store,
            final(self).log == old(self).log,
            r.0@ == spec_frame(record@),
            r.1 == (old(self).record_count + 1 > RECORD_COUNT_LIMIT),
            final(self).record_count as nat
                == spec_next_count(old(self).record_count as nat),
    {
        let frame = frame_record(record);
        self.record_count = self.record_count + 1;
        let rotate = self.record_count > RECORD_COUNT_LIMIT;
        if rotate {
            self.record_count = 0;
        }
        (frame, rotate)
    }
}

} // verus!
