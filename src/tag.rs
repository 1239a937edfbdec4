//! The element content type of `ebml_iterable`, which the codecs take and give.
use vstd::prelude::*;
use ebml_iterable::tags::TagData;

verus! {

#[verifier::external_type_specification]
#[verifier::external_body]
pub struct ExTagData(TagData);

/// The bytes of a `Binary` tag; `None` for a tag of any other kind.
pub uninterp spec fn tag_binary_bytes(tag: TagData) -> Option<Seq<u8>>;

/// Relies on `TagData::binary` of `ebml_iterable`: it hands out the bytes of a
/// `Binary` tag and `None` for any other kind.
pub assume_specification[ TagData::binary ](tag: TagData) -> (r: Option<Vec<u8>>)
    ensures
        match r {
            Some(v) => tag_binary_bytes(tag) == Some(v@),
            None => tag_binary_bytes(tag) is None,
        },
;

/// Relies on the `TagData::Binary` variant of `ebml_iterable`: it wraps bytes
/// as binary element content.
#[verifier::external_body]
pub(crate) fn binary_tag(data: Vec<u8>) -> (r: TagData)
    ensures
        tag_binary_bytes(r) == Some(data@),
{
    TagData::Binary(data)
}

} // verus!
