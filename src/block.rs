//! The Matroska `Block` payload: track vint, timecode and flags byte.
use vstd::prelude::*;
use ebml_iterable::tags::TagData;
use crate::error::WebmError;
use crate::tag::{binary_tag, tag_binary_bytes};
use crate::vint::{
    lemma_minimal_vint_len, lemma_vint_canonical, lemma_vint_round_trip, minimal_vint_len,
    minimal_vint_length, read_vint, be_bytes, vint_at_start, vint_bound, vint_encoding, vint_len, write_vint,
    MAX_VINT_VALUE,
};

verus! {

/// How the frames in a block's payload are packed.
#[derive(Clone, Copy, Debug, PartialEq, Eq, Structural)]
pub enum BlockLacing {
    Xiph,
    EBML,
    FixedSize,
}

/// The lacing named by the two-bit code of the flags byte (bits 1 and 2).
pub open spec fn lacing_from_code(code: u8) -> Option<BlockLacing> {
    if code == 1 {
        Some(BlockLacing::Xiph)
    } else if code == 2 {
        Some(BlockLacing::FixedSize)
    } else if code == 3 {
        Some(BlockLacing::EBML)
    } else {
        None
    }
}

/// The two-bit code of a lacing.
pub open spec fn lacing_code(lacing: Option<BlockLacing>) -> u8 {
    match lacing {
        None => 0,
        Some(BlockLacing::Xiph) => 1,
        Some(BlockLacing::FixedSize) => 2,
        Some(BlockLacing::EBML) => 3,
    }
}

/// Bit 3 of the flags byte.
pub open spec fn flags_invisible(flags: u8) -> bool {
    flags & 0x08 == 0x08
}

/// Bits 1 and 2 of the flags byte.
pub open spec fn flags_lacing(flags: u8) -> Option<BlockLacing> {
    lacing_from_code((flags >> 1u8) & 0x03)
}

/// Bits 4 to 6 of the flags byte, which the format leaves unassigned.
pub open spec fn flags_reserved(flags: u8) -> u8 {
    flags & 0x70
}

/// The flags byte that a block writes: bit 3 for visibility, bits 1 and 2 for
/// lacing, bits 4 to 6 as kept in `reserved`, bits 0 and 7 clear.
pub open spec fn block_flags(invisible: bool, lacing: Option<BlockLacing>, reserved: u8) -> u8 {
    (reserved & 0x70) | (((if invisible { 8int } else { 0int }) + 2 * lacing_code(lacing)) as u8)
}

/// The signed timecode that two big-endian bytes spell.
pub open spec fn timecode_from(hi: u8, lo: u8) -> i16 {
    (hi as int * 256 + lo as int) as u16 as i16
}

/// The high byte of a timecode, big-endian.
pub open spec fn timecode_high(value: i16) -> u8 {
    ((value as u16) / 256) as u8
}

/// The low byte of a timecode, big-endian.
pub open spec fn timecode_low(value: i16) -> u8 {
    ((value as u16) % 256) as u8
}

/// A `Block` as a mathematical value.
pub struct BlockView {
    pub payload: Seq<u8>,
    pub track: u64,
    pub value: i16,
    pub invisible: bool,
    pub lacing: Option<BlockLacing>,
    pub track_vint_length: Option<usize>,
    pub reserved_flags: u8,
}

/// A typed interpretation of the Matroska "Block" element content.
pub struct Block {
    /// The bytes after the flags byte, passed through untouched.
    pub payload: Vec<u8>,
    /// The track number.
    pub track: u64,
    /// The timecode relative to the enclosing cluster.
    pub value: i16,
    pub invisible: bool,
    pub lacing: Option<BlockLacing>,
    /// The byte length of the track number's vint where it is longer than the
    /// shortest one that holds the track number; `None` for the shortest.
    pub track_vint_length: Option<usize>,
    /// Bits 4 to 6 of the flags byte, which the format leaves unassigned, kept
    /// so that a decoded block encodes to the bytes it came from; zero for a
    /// new block. Other bits of it are not written.
    pub reserved_flags: u8,
}

impl View for Block {
    type V = BlockView;

    open spec fn view(&self) -> BlockView {
        BlockView {
            payload: self.payload@,
            track: self.track,
            value: self.value,
            invisible: self.invisible,
            lacing: self.lacing,
            track_vint_length: self.track_vint_length,
            reserved_flags: self.reserved_flags,
        }
    }
}

/// The byte length of the track number's vint in the encoding of `b`.
pub open spec fn track_vint_len(b: BlockView) -> nat {
    match b.track_vint_length {
        Some(l) => l as nat,
        None => minimal_vint_len(b.track as nat),
    }
}

/// A block that can be written: the vint writer takes its track number, and a
/// recorded vint length is longer than the shortest and at most eight bytes.
pub open spec fn block_encodable(b: BlockView) -> bool {
    &&& b.track <= MAX_VINT_VALUE
    &&& (b.track_vint_length matches Some(l) ==> minimal_vint_len(b.track as nat) < l <= 8)
}

/// The bytes of a block: track vint, timecode, flags byte, payload.
pub open spec fn block_bytes(b: BlockView) -> Seq<u8> {
    vint_encoding(b.track as nat, track_vint_len(b)) + seq![
        timecode_high(b.value),
        timecode_low(b.value),
        block_flags(b.invisible, b.lacing, b.reserved_flags),
    ] + b.payload
}

/// What encoding a block gives.
pub open spec fn encode_block(b: BlockView) -> Result<Seq<u8>, WebmError> {
    if block_encodable(b) {
        Ok(block_bytes(b))
    } else {
        Err(WebmError::VintWriteError)
    }
}

/// What decoding the bytes `d` as a block gives.
pub open spec fn decode_block(d: Seq<u8>) -> Result<BlockView, WebmError> {
    match vint_at_start(d) {
        Ok(Some((track, l))) => {
            if d.len() < l + 3 {
                Err(WebmError::TruncatedBlock)
            } else {
                let flags = d[l + 2];
                Ok(
                    BlockView {
                        payload: d.subrange(l + 3, d.len() as int),
                        track,
                        value: timecode_from(d[l as int], d[l + 1]),
                        invisible: flags_invisible(flags),
                        lacing: flags_lacing(flags),
                        track_vint_length: if l as nat == minimal_vint_len(track as nat) {
                            None
                        } else {
                            Some(l)
                        },
                        reserved_flags: flags_reserved(flags),
                    },
                )
            }
        },
        _ => Err(WebmError::VintReadError),
    }
}

/// A decode result seen through the view of `Block`.
pub open spec fn block_result_view(r: Result<Block, WebmError>) -> Result<BlockView, WebmError> {
    match r {
        Ok(b) => Ok(b@),
        Err(e) => Err(e),
    }
}

/// An encode result seen through the view of `Vec`.
pub open spec fn bytes_result_view(r: Result<Vec<u8>, WebmError>) -> Result<Seq<u8>, WebmError> {
    match r {
        Ok(v) => Ok(v@),
        Err(e) => Err(e),
    }
}

/// The timecode bytes of a value spell that value again.
pub proof fn lemma_timecode_round_trip(value: i16)
    ensures
        timecode_from(timecode_high(value), timecode_low(value)) == value,
{
    let u = value as u16;
    assert((u as i16) == value) by (bit_vector)
        requires
            u == value as u16,
    ;
    assert((u / 256) as u8 as int * 256 + (u % 256) as u8 as int == u as int);
}

/// The bytes of a timecode are the bytes it was read from.
pub proof fn lemma_timecode_bytes(hi: u8, lo: u8)
    ensures
        timecode_high(timecode_from(hi, lo)) == hi,
        timecode_low(timecode_from(hi, lo)) == lo,
{
    let u = (hi as int * 256 + lo as int) as u16;
    assert(u == hi as int * 256 + lo as int);
    assert(((u as i16) as u16) == u) by (bit_vector);
}

proof fn lemma_flag_fields(code: u8, inv: u8, r: u8)
    by (bit_vector)
    requires
        code < 4,
        inv == 0 || inv == 8,
    ensures
        ((((r & 0x70) | (code * 2 + inv) as u8) >> 1u8) & 0x03) == code,
        ((((r & 0x70) | (code * 2 + inv) as u8) & 0x08) == 0x08) == (inv == 8),
        ((r & 0x70) | (code * 2 + inv) as u8) & 0x81 == 0,
        ((r & 0x70) | (code * 2 + inv) as u8) & 0x70 == r & 0x70,
{
}

proof fn lemma_flag_parts(f: u8)
    by (bit_vector)
    requires
        f & 0x81 == 0,
    ensures
        f == ((f & 0x70) & 0x70) | ((((f >> 1u8) & 0x03) * 2 + (f & 0x08)) as u8),
        f & 0x08 == 0 || f & 0x08 == 8,
        (f >> 1u8) & 0x03 < 4,
{
}

/// Every two-bit code names one lacing (or none) and every lacing has one
/// code: the mapping is total and one to one, in both directions.
pub proof fn lemma_lacing_codes()
    ensures
        forall|c: u8| c < 4 ==> lacing_code(#[trigger] lacing_from_code(c)) == c,
        forall|l: Option<BlockLacing>| lacing_from_code(#[trigger] lacing_code(l)) == l,
        forall|l: Option<BlockLacing>| #[trigger] lacing_code(l) < 4,
{
}

/// The flags byte a block writes reads back as the same visibility, lacing
/// and unassigned bits, and has bits 0 and 7 clear.
pub proof fn lemma_block_flags(invisible: bool, lacing: Option<BlockLacing>, reserved: u8)
    ensures
        flags_invisible(block_flags(invisible, lacing, reserved)) == invisible,
        flags_lacing(block_flags(invisible, lacing, reserved)) == lacing,
        flags_reserved(block_flags(invisible, lacing, reserved)) == reserved & 0x70,
        block_flags(invisible, lacing, reserved) & 0x81 == 0,
{
    lemma_lacing_codes();
    let inv: u8 = if invisible { 8 } else { 0 };
    lemma_flag_fields(lacing_code(lacing), inv, reserved);
}

/// A flags byte with bits 0 and 7 clear is the one a block writes for what it
/// reads as.
pub proof fn lemma_block_flags_read_back(f: u8)
    requires
        f & 0x81 == 0,
    ensures
        block_flags(flags_invisible(f), flags_lacing(f), flags_reserved(f)) == f,
{
    lemma_flag_parts(f);
    lemma_lacing_codes();
}

/// Decoding the bytes of an encodable block whose kept flag bits lie within
/// bits 4 to 6 gives that block back, in every field.
pub proof fn lemma_block_round_trip(v: BlockView)
    requires
        block_encodable(v),
        v.reserved_flags & 0x8F == 0,
    ensures
        decode_block(block_bytes(v)) == Ok::<BlockView, WebmError>(v),
{
    let l = track_vint_len(v) as int;
    lemma_minimal_vint_len(v.track as nat);
    if let Some(k) = v.track_vint_length {
        assert(vint_bound(minimal_vint_len(v.track as nat)) <= vint_bound(k as nat));
    }
    let hi = timecode_high(v.value);
    let lo = timecode_low(v.value);
    let f = block_flags(v.invisible, v.lacing, v.reserved_flags);
    let rest = seq![hi, lo, f] + v.payload;
    let d = block_bytes(v);
    lemma_vint_round_trip(v.track as nat, l as nat, rest);
    assert(d =~= vint_encoding(v.track as nat, l as nat) + rest);
    assert(d[l] == hi);
    assert(d[l + 1] == lo);
    assert(d[l + 2] == f);
    lemma_timecode_round_trip(v.value);
    lemma_block_flags(v.invisible, v.lacing, v.reserved_flags);
    let r = v.reserved_flags;
    assert(r & 0x70 == r) by (bit_vector)
        requires
            r & 0x8F == 0,
    ;
    assert(d.subrange(l + 3, d.len() as int) =~= v.payload);
    let r = decode_block(d)->Ok_0;
    assert(r.track_vint_length == v.track_vint_length);
    assert(r =~= v);
}

/// The position of the flags byte in block bytes `d`: after the track vint and
/// the two timecode bytes.
pub open spec fn flags_position(d: Seq<u8>) -> int {
    vint_len(d[0]) + 2int
}

/// Encoding a decoded block gives back the bytes it was decoded from, with
/// bits 0 and 7 of the flags byte, which a block does not read, cleared.
pub proof fn lemma_decoded_block_bytes(d: Seq<u8>)
    requires
        decode_block(d) is Ok,
        decode_block(d)->Ok_0.track <= MAX_VINT_VALUE,
    ensures
        0 <= flags_position(d) < d.len(),
        encode_block(decode_block(d)->Ok_0) == Ok::<Seq<u8>, WebmError>(
            d.update(flags_position(d), d[flags_position(d)] & 0x7E),
        ),
{
    let v = decode_block(d)->Ok_0;
    lemma_vint_canonical(d);
    let l = vint_len(d[0]) as int;
    lemma_minimal_vint_len(v.track as nat);
    assert(track_vint_len(v) == l);
    assert(block_encodable(v));
    lemma_timecode_bytes(d[l], d[l + 1]);
    let f = d[l + 2];
    let g = f & 0x7E;
    assert(g & 0x81 == 0 && g & 0x70 == f & 0x70) by (bit_vector)
        requires
            g == f & 0x7E,
    ;
    assert(((g >> 1u8) & 0x03) == ((f >> 1u8) & 0x03) && (g & 0x08 == 0x08) == (f & 0x08 == 0x08))
        by (bit_vector)
        requires
            g == f & 0x7E,
    ;
    lemma_block_flags_read_back(g);
    assert(block_bytes(v) =~= d.update(l + 2, g));
}

/// Bytes that decode as a block, whose flags byte has bits 0 and 7 clear, and
/// whose track number the vint writer takes, are exactly what encoding the
/// decoded block gives.
pub proof fn lemma_block_bytes_round_trip(d: Seq<u8>)
    requires
        decode_block(d) is Ok,
        d[flags_position(d)] & 0x81 == 0,
        decode_block(d)->Ok_0.track <= MAX_VINT_VALUE,
    ensures
        encode_block(decode_block(d)->Ok_0) == Ok::<Seq<u8>, WebmError>(d),
{
    lemma_decoded_block_bytes(d);
    let f = d[flags_position(d)];
    assert(f & 0x7E == f) by (bit_vector)
        requires
            f & 0x81 == 0,
    ;
    assert(d.update(flags_position(d), f & 0x7E) =~= d);
}

/// Bytes too short to hold a track vint, two timecode bytes and a flags byte
/// never decode.
pub proof fn lemma_truncated_block(d: Seq<u8>)
    requires
        d.len() == 0 || d.len() < vint_len(d[0]) + 3,
    ensures
        decode_block(d) is Err,
{
}

/// Track number 127 with the shortest vint is written on the single byte
/// 0xFF, and reads back as the same block, still with the shortest vint.
pub proof fn lemma_track_127_single_byte(v: BlockView)
    requires
        v.track == 127,
        v.track_vint_length is None,
        v.reserved_flags & 0x8F == 0,
    ensures
        encode_block(v) is Ok,
        encode_block(v)->Ok_0.len() == 4 + v.payload.len(),
        encode_block(v)->Ok_0[0] == 0xFF,
        decode_block(encode_block(v)->Ok_0) == Ok::<BlockView, WebmError>(v),
{
    assert(minimal_vint_len(127) == 1);
    let e = vint_encoding(127, 1);
    assert(be_bytes(255, 1) =~= seq![255u8]) by {
        reveal_with_fuel(be_bytes, 2);
    }
    assert(e == seq![255u8]);
    lemma_block_round_trip(v);
}

/// Copies `data[start..]` into a new vector.
pub(crate) fn copy_tail(data: &[u8], start: usize) -> (r: Vec<u8>)
    requires
        start <= data@.len(),
    ensures
        r@ == data@.subrange(start as int, data@.len() as int),
{
    let mut out: Vec<u8> = Vec::new();
    let mut i: usize = start;
    while i < data.len()
        invariant
            start <= i <= data@.len(),
            out@ == data@.subrange(start as int, i as int),
        decreases data@.len() - i,
    {
        out.push(data[i]);
        i = i + 1;
        assert(out@ =~= data@.subrange(start as int, i as int));
    }
    out
}

impl Block {
    /// The byte length of the track number's vint when this block is encoded.
    pub fn encoded_track_vint_length(&self) -> (r: usize)
        ensures
            r as nat == track_vint_len(self@),
    {
        match self.track_vint_length {
            Some(l) => l,
            None => minimal_vint_length(self.track),
        }
    }

    /// Decodes a block from the binary content of its element.
    pub fn decode(data: &[u8]) -> (r: Result<Block, WebmError>)
        ensures
            block_result_view(r) == decode_block(data@),
    {
        let (track, track_size) = match read_vint(data) {
            Ok(Some(found)) => found,
            _ => return Err(WebmError::VintReadError),
        };
        if data.len() - track_size < 3 {
            return Err(WebmError::TruncatedBlock);
        }
        let hi = data[track_size];
        let lo = data[track_size + 1];
        let flags = data[track_size + 2];
        let code: u16 = (hi as u16) * 256 + (lo as u16);
        let lacing = match (flags >> 1u8) & 0x03 {
            1 => Some(BlockLacing::Xiph),
            2 => Some(BlockLacing::FixedSize),
            3 => Some(BlockLacing::EBML),
            _ => None,
        };
        let track_vint_length = if track_size == minimal_vint_length(track) {
            None
        } else {
            Some(track_size)
        };
        Ok(
            Block {
                payload: copy_tail(data, track_size + 3),
                track,
                value: #[verifier::truncate] (code as i16),
                invisible: flags & 0x08 == 0x08,
                lacing,
                track_vint_length,
                reserved_flags: flags & 0x70,
            },
        )
    }

    /// Encodes this block as the binary content of its element.
    pub fn encode(&self) -> (r: Result<Vec<u8>, WebmError>)
        ensures
            bytes_result_view(r) == encode_block(self@),
    {
        let len = self.encoded_track_vint_length();
        if self.track > MAX_VINT_VALUE {
            return Err(WebmError::VintWriteError);
        }
        if let Some(l) = self.track_vint_length {
            if l <= minimal_vint_length(self.track) || l > 8 {
                return Err(WebmError::VintWriteError);
            }
        }
        proof {
            lemma_minimal_vint_len(self.track as nat);
        }
        let mut out = match write_vint(self.track, len) {
            Ok(bytes) => bytes,
            Err(_) => return Err(WebmError::VintWriteError),
        };
        let code: u16 = #[verifier::truncate] (self.value as u16);
        out.push((code / 256) as u8);
        out.push((code % 256) as u8);
        let visibility: u8 = if self.invisible { 8 } else { 0 };
        let lacing: u8 = match self.lacing {
            None => 0u8,
            Some(BlockLacing::Xiph) => 2u8,
            Some(BlockLacing::FixedSize) => 4u8,
            Some(BlockLacing::EBML) => 6u8,
        };
        out.push((self.reserved_flags & 0x70) | (visibility + lacing));
        let mut i: usize = 0;
        let ghost head = out@;
        while i < self.payload.len()
            invariant
                i <= self.payload@.len(),
                out@ == head + self.payload@.subrange(0, i as int),
            decreases self.payload@.len() - i,
        {
            out.push(self.payload[i]);
            i = i + 1;
            assert(out@ =~= head + self.payload@.subrange(0, i as int));
        }
        assert(out@ =~= block_bytes(self@));
        Ok(out)
    }

    /// Decodes a block from element content, which must be binary.
    pub fn try_from_tag_data(value: TagData) -> (r: Result<Block, WebmError>)
        ensures
            match tag_binary_bytes(value) {
                Some(d) => block_result_view(r) == decode_block(d),
                None => r == Err::<Block, WebmError>(WebmError::TypeMismatch),
            },
    {
        match value.binary() {
            Some(data) => {
                Block::decode(data.as_slice())
            },
            None => Err(WebmError::TypeMismatch),
        }
    }

    /// Encodes this block as binary element content.
    pub fn into_tag_data(self) -> (r: Result<TagData, WebmError>)
        ensures
            r is Err <==> encode_block(self@) is Err,
            r matches Ok(t) ==> tag_binary_bytes(t) == Some(encode_block(self@)->Ok_0),
    {
        match self.encode() {
            Ok(data) => Ok(binary_tag(data)),
            Err(e) => Err(e),
        }
    }
}

} // verus!
