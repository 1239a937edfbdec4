//! The Matroska `SimpleBlock` payload: a block whose flags byte also carries
//! the keyframe and discardable bits.
use vstd::prelude::*;
use ebml_iterable::tags::TagData;
use crate::block::{
    block_bytes, block_encodable, bytes_result_view, decode_block, encode_block,
    flags_position, lemma_block_flags, lemma_block_round_trip, track_vint_len, Block, BlockView,
};
use crate::error::WebmError;
use crate::tag::{binary_tag, tag_binary_bytes};
use crate::vint::{lemma_minimal_vint_len, lemma_vint_canonical, lemma_vint_round_trip, vint_bound};

verus! {

/// A `SimpleBlock` as a mathematical value.
pub struct SimpleBlockView {
    pub block: BlockView,
    pub discardable: bool,
    pub keyframe: bool,
}

/// A typed interpretation of the Matroska "SimpleBlock" element content.
pub struct SimpleBlock {
    pub block: Block,
    /// Bit 0 of the flags byte: the frame may be dropped without breaking
    /// the decoding of later frames.
    pub discardable: bool,
    /// Bit 7 of the flags byte: the frame decodes on its own.
    pub keyframe: bool,
}

impl View for SimpleBlock {
    type V = SimpleBlockView;

    open spec fn view(&self) -> SimpleBlockView {
        SimpleBlockView { block: self.block@, discardable: self.discardable, keyframe: self.keyframe }
    }
}

/// Bit 7 of a flags byte.
pub open spec fn flags_keyframe(flags: u8) -> bool {
    flags & 0x80 == 0x80
}

/// Bit 0 of a flags byte.
pub open spec fn flags_discardable(flags: u8) -> bool {
    flags & 0x01 == 0x01
}

/// The bits that a simple block adds to the flags byte of its block.
pub open spec fn simple_flag_bits(discardable: bool, keyframe: bool) -> u8 {
    (if discardable { 0x01u8 } else { 0u8 }) | (if keyframe { 0x80u8 } else { 0u8 })
}

/// What decoding the bytes `d` as a simple block gives.
pub open spec fn decode_simple_block(d: Seq<u8>) -> Result<SimpleBlockView, WebmError> {
    match decode_block(d) {
        Ok(b) => {
            let flags = d[flags_position(d)];
            Ok(
                SimpleBlockView {
                    block: b,
                    discardable: flags_discardable(flags),
                    keyframe: flags_keyframe(flags),
                },
            )
        },
        Err(e) => Err(e),
    }
}

/// What encoding a simple block gives: the bytes of its block with the
/// keyframe and discardable bits set in the flags byte.
pub open spec fn encode_simple_block(v: SimpleBlockView) -> Result<Seq<u8>, WebmError> {
    match encode_block(v.block) {
        Ok(bytes) => {
            let pos = track_vint_len(v.block) + 2int;
            Ok(bytes.update(pos, bytes[pos] | simple_flag_bits(v.discardable, v.keyframe)))
        },
        Err(e) => Err(e),
    }
}

/// A decode result seen through the view of `SimpleBlock`.
pub open spec fn simple_result_view(r: Result<SimpleBlock, WebmError>) -> Result<
    SimpleBlockView,
    WebmError,
> {
    match r {
        Ok(b) => Ok(b@),
        Err(e) => Err(e),
    }
}

/// The encoded bytes of a block hold its track vint, then the timecode, then
/// the flags byte.
proof fn lemma_block_bytes_layout(v: BlockView)
    requires
        block_encodable(v),
    ensures
        block_bytes(v).len() == track_vint_len(v) + 3 + v.payload.len(),
        block_bytes(v)[track_vint_len(v) + 2int] & 0x81 == 0,
{
    lemma_minimal_vint_len(v.track as nat);
    if let Some(k) = v.track_vint_length {
        assert(vint_bound(crate::vint::minimal_vint_len(v.track as nat)) <= vint_bound(k as nat));
    }
    lemma_vint_round_trip(v.track as nat, track_vint_len(v), Seq::empty());
    lemma_block_flags(v.invisible, v.lacing, v.reserved_flags);
    let f = crate::block::block_flags(v.invisible, v.lacing, v.reserved_flags);
    assert(block_bytes(v)[track_vint_len(v) + 2int] == f);
}

proof fn lemma_simple_flag_bits(discardable: bool, keyframe: bool)
    ensures
        simple_flag_bits(discardable, keyframe) & 0x7E == 0,
        flags_discardable(simple_flag_bits(discardable, keyframe)) == discardable,
        flags_keyframe(simple_flag_bits(discardable, keyframe)) == keyframe,
{
    let s = simple_flag_bits(discardable, keyframe);
    assert((0u8 | 0u8) == 0 && (1u8 | 0u8) == 1 && (0u8 | 0x80u8) == 0x80 && (1u8 | 0x80u8) == 0x81)
        by (bit_vector);
    assert(0u8 & 0x7E == 0 && 0u8 & 0x01 == 0 && 0u8 & 0x80 == 0) by (bit_vector);
    assert(1u8 & 0x7E == 0 && 1u8 & 0x01 == 1 && 1u8 & 0x80 == 0) by (bit_vector);
    assert(0x80u8 & 0x7E == 0 && 0x80u8 & 0x01 == 0 && 0x80u8 & 0x80 == 0x80) by (bit_vector);
    assert(0x81u8 & 0x7E == 0 && 0x81u8 & 0x01 == 1 && 0x81u8 & 0x80 == 0x80) by (bit_vector);
}

proof fn lemma_added_bits(f: u8, s: u8)
    by (bit_vector)
    requires
        f & 0x81 == 0,
        s & 0x7E == 0,
    ensures
        ((f | s) >> 1u8) & 0x03 == (f >> 1u8) & 0x03,
        (f | s) & 0x08 == f & 0x08,
        (f | s) & 0x80 == s & 0x80,
        (f | s) & 0x01 == s & 0x01,
        (f | s) & 0x70 == f & 0x70,
{
}

/// Decoding the bytes of a simple block whose block is encodable, with kept
/// flag bits within bits 4 to 6, gives that simple block back, in every field.
pub proof fn lemma_simple_block_round_trip(v: SimpleBlockView)
    requires
        block_encodable(v.block),
        v.block.reserved_flags & 0x8F == 0,
    ensures
        encode_simple_block(v) is Ok,
        decode_simple_block(encode_simple_block(v)->Ok_0) == Ok::<SimpleBlockView, WebmError>(v),
{
    let b = v.block;
    let bytes = block_bytes(b);
    let l = track_vint_len(b) as int;
    let pos = l + 2;
    lemma_block_bytes_layout(b);
    lemma_block_round_trip(b);
    let f = bytes[pos];
    let s = simple_flag_bits(v.discardable, v.keyframe);
    let e = bytes.update(pos, f | s);
    lemma_simple_flag_bits(v.discardable, v.keyframe);
    lemma_added_bits(f, s);
    lemma_minimal_vint_len(b.track as nat);
    if let Some(k) = b.track_vint_length {
        assert(vint_bound(crate::vint::minimal_vint_len(b.track as nat)) <= vint_bound(k as nat));
    }
    let enc = crate::vint::vint_encoding(b.track as nat, l as nat);
    lemma_vint_round_trip(b.track as nat, l as nat, bytes.subrange(l, bytes.len() as int));
    lemma_vint_round_trip(b.track as nat, l as nat, e.subrange(l, e.len() as int));
    assert(bytes =~= enc + bytes.subrange(l, bytes.len() as int));
    assert(e =~= enc + e.subrange(l, e.len() as int));
    assert(e.subrange(l + 3, e.len() as int) =~= bytes.subrange(l + 3, bytes.len() as int));
    assert(decode_block(e) == decode_block(bytes));
}

/// Bytes that decode as a simple block, and whose track number the vint
/// writer takes, are exactly what encoding the decoded simple block gives.
pub proof fn lemma_simple_block_bytes_round_trip(d: Seq<u8>)
    requires
        decode_simple_block(d) is Ok,
        decode_simple_block(d)->Ok_0.block.track <= crate::vint::MAX_VINT_VALUE,
    ensures
        encode_simple_block(decode_simple_block(d)->Ok_0) == Ok::<Seq<u8>, WebmError>(d),
{
    let v = decode_simple_block(d)->Ok_0;
    crate::block::lemma_decoded_block_bytes(d);
    lemma_vint_canonical(d);
    lemma_minimal_vint_len(v.block.track as nat);
    let pos = flags_position(d);
    assert(track_vint_len(v.block) + 2 == pos);
    let f = d[pos];
    let s = simple_flag_bits(v.discardable, v.keyframe);
    lemma_simple_flag_bits(v.discardable, v.keyframe);
    assert(s & 0x81 == s) by (bit_vector)
        requires
            s & 0x7E == 0,
    ;
    assert((f & 0x7E) | s == f) by (bit_vector)
        requires
            s & 0x7E == 0,
            (s & 0x01 == 0x01) == (f & 0x01 == 0x01),
            (s & 0x80 == 0x80) == (f & 0x80 == 0x80),
    ;
    assert(d.update(pos, f & 0x7E).update(pos, (f & 0x7E) | s) =~= d);
}

/// Toggling `discardable` changes the encoding in bit 0 of the flags byte and
/// nowhere else.
pub proof fn lemma_discardable_isolated(v: SimpleBlockView)
    requires
        block_encodable(v.block),
    ensures
        ({
            let w = SimpleBlockView { discardable: !v.discardable, ..v };
            let a = encode_simple_block(v)->Ok_0;
            let b = encode_simple_block(w)->Ok_0;
            let pos = track_vint_len(v.block) + 2int;
            &&& encode_simple_block(v) is Ok
            &&& encode_simple_block(w) is Ok
            &&& a.len() == b.len()
            &&& 0 <= pos < a.len()
            &&& forall|i: int| 0 <= i < a.len() && i != pos ==> a[i] == b[i]
            &&& a[pos] ^ b[pos] == 0x01
        }),
{
    lemma_block_bytes_layout(v.block);
    let f = block_bytes(v.block)[track_vint_len(v.block) + 2int];
    let k: u8 = if v.keyframe { 0x80 } else { 0 };
    assert((f | (0u8 | k)) ^ (f | (1u8 | k)) == 0x01 && (f | (1u8 | k)) ^ (f | (0u8 | k)) == 0x01)
        by (bit_vector)
        requires
            f & 0x81 == 0,
            k == 0 || k == 0x80,
    ;
}

/// Toggling `keyframe` changes the encoding in bit 7 of the flags byte and
/// nowhere else.
pub proof fn lemma_keyframe_isolated(v: SimpleBlockView)
    requires
        block_encodable(v.block),
    ensures
        ({
            let w = SimpleBlockView { keyframe: !v.keyframe, ..v };
            let a = encode_simple_block(v)->Ok_0;
            let b = encode_simple_block(w)->Ok_0;
            let pos = track_vint_len(v.block) + 2int;
            &&& encode_simple_block(v) is Ok
            &&& encode_simple_block(w) is Ok
            &&& a.len() == b.len()
            &&& 0 <= pos < a.len()
            &&& forall|i: int| 0 <= i < a.len() && i != pos ==> a[i] == b[i]
            &&& a[pos] ^ b[pos] == 0x80
        }),
{
    lemma_block_bytes_layout(v.block);
    let f = block_bytes(v.block)[track_vint_len(v.block) + 2int];
    let d: u8 = if v.discardable { 1 } else { 0 };
    assert((f | (d | 0u8)) ^ (f | (d | 0x80u8)) == 0x80 && (f | (d | 0x80u8)) ^ (f | (d | 0u8)) == 0x80)
        by (bit_vector)
        requires
            f & 0x81 == 0,
            d == 0 || d == 1,
    ;
}

/// Whatever its flags byte holds, bytes that decode as a block decode as a
/// simple block, with the lacing that bits 1 and 2 name.
pub proof fn lemma_any_flags_decode(d: Seq<u8>, flags: u8)
    requires
        decode_block(d) is Ok,
    ensures
        decode_simple_block(d.update(flags_position(d), flags)) is Ok,
        decode_simple_block(d.update(flags_position(d), flags))->Ok_0.block.lacing
            == crate::block::lacing_from_code((flags >> 1u8) & 0x03),
{
    lemma_vint_canonical(d);
    let l = crate::vint::vint_len(d[0]) as int;
    let e = d.update(l + 2, flags);
    assert(e.subrange(0, l) =~= d.subrange(0, l));
}

/// Bytes too short to hold a track vint, two timecode bytes and a flags byte
/// never decode as a simple block.
pub proof fn lemma_truncated_simple_block(d: Seq<u8>)
    requires
        d.len() == 0 || d.len() < crate::vint::vint_len(d[0]) + 3,
    ensures
        decode_simple_block(d) is Err,
{
    crate::block::lemma_truncated_block(d);
}

impl SimpleBlock {
    /// Decodes a simple block from the binary content of its element.
    pub fn decode(data: &[u8]) -> (r: Result<SimpleBlock, WebmError>)
        ensures
            simple_result_view(r) == decode_simple_block(data@),
    {
        let block = match Block::decode(data) {
            Ok(b) => b,
            Err(e) => return Err(e),
        };
        proof {
            lemma_vint_canonical(data@);
        }
        let position = block.encoded_track_vint_length() + 2;
        let flags = data[position];
        Ok(
            SimpleBlock {
                block,
                discardable: flags & 0x01 == 0x01,
                keyframe: flags & 0x80 == 0x80,
            },
        )
    }

    /// Encodes this simple block as the binary content of its element.
    pub fn encode(&self) -> (r: Result<Vec<u8>, WebmError>)
        ensures
            bytes_result_view(r) == encode_simple_block(self@),
    {
        let mut data = match self.block.encode() {
            Ok(bytes) => bytes,
            Err(e) => return Err(e),
        };
        proof {
            lemma_block_bytes_layout(self.block@);
        }
        let position = self.block.encoded_track_vint_length() + 2;
        let added: u8 = (if self.discardable { 0x01u8 } else { 0u8 }) | (if self.keyframe { 0x80u8 } else { 0u8 });
        let flags = data[position] | added;
        data.set(position, flags);
        Ok(data)
    }

    /// Decodes a simple block from element content, which must be binary.
    pub fn try_from_tag_data(value: TagData) -> (r: Result<SimpleBlock, WebmError>)
        ensures
            match tag_binary_bytes(value) {
                Some(d) => simple_result_view(r) == decode_simple_block(d),
                None => r == Err::<SimpleBlock, WebmError>(WebmError::TypeMismatch),
            },
    {
        match value.binary() {
            Some(data) => {
                SimpleBlock::decode(data.as_slice())
            },
            None => Err(WebmError::TypeMismatch),
        }
    }

    /// Encodes this simple block as binary element content.
    pub fn into_tag_data(self) -> (r: Result<TagData, WebmError>)
        ensures
            r is Err <==> encode_simple_block(self@) is Err,
            r matches Ok(t) ==> tag_binary_bytes(t) == Some(encode_simple_block(self@)->Ok_0),
    {
        match self.encode() {
            Ok(data) => Ok(binary_tag(data)),
            Err(e) => Err(e),
        }
    }
}


} // verus!
