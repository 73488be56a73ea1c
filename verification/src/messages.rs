use vstd::prelude::*;
use crate::cache_change::SequenceNumber;

verus! {

/// The two-byte tag at the head of a serialized payload that names the
/// encoding of the user data (RTPS/CDR representation identifier).
#[derive(Clone, Copy, Debug, PartialEq, Eq, Structural)]
pub enum RepresentationIdentifier {
    CdrBe,
    CdrLe,
    PlCdrBe,
    PlCdrLe,
}

impl RepresentationIdentifier {
    /// The identifier that a big-endian pair of wire bytes stands for,
    /// or `None` when the pair names no known encoding.
    pub open spec fn spec_from_bytes(b0: u8, b1: u8) -> Option<RepresentationIdentifier> {
        if b0 == 0u8 && b1 == 0u8 {
            Some(RepresentationIdentifier::CdrBe)
        } else if b0 == 0u8 && b1 == 1u8 {
            Some(RepresentationIdentifier::CdrLe)
        } else if b0 == 0u8 && b1 == 2u8 {
            Some(RepresentationIdentifier::PlCdrBe)
        } else if b0 == 0u8 && b1 == 3u8 {
            Some(RepresentationIdentifier::PlCdrLe)
        } else {
            None
        }
    }

    pub fn from_bytes(b0: u8, b1: u8) -> (r: Option<RepresentationIdentifier>)
        ensures
            r == Self::spec_from_bytes(b0, b1),
    {
        if b0 == 0u8 && b1 == 0u8 {
            Some(RepresentationIdentifier::CdrBe)
        } else if b0 == 0u8 && b1 == 1u8 {
            Some(RepresentationIdentifier::CdrLe)
        } else if b0 == 0u8 && b1 == 2u8 {
            Some(RepresentationIdentifier::PlCdrBe)
        } else if b0 == 0u8 && b1 == 3u8 {
            Some(RepresentationIdentifier::PlCdrLe)
        } else {
            None
        }
    }

    /// The wire bytes of this identifier; the inverse of `from_bytes`.
    pub fn to_bytes(&self) -> (r: (u8, u8))
        ensures
            Self::spec_from_bytes(r.0, r.1) == Some(*self),
    {
        match self {
            RepresentationIdentifier::CdrBe => (0u8, 0u8),
            RepresentationIdentifier::CdrLe => (0u8, 1u8),
            RepresentationIdentifier::PlCdrBe => (0u8, 2u8),
            RepresentationIdentifier::PlCdrLe => (0u8, 3u8),
        }
    }
}

/// Copies a byte vector; spelled out so that the copy's contents are
/// known exactly.
pub fn copy_bytes(v: &Vec<u8>) -> (r: Vec<u8>)
    ensures
        r@ == v@,
{
    let mut r: Vec<u8> = Vec::new();
    let mut i: usize = 0;
    while i < v.len()
        invariant
            i <= v.len(),
            r@ == v@.take(i as int),
        decreases v.len() - i,
    {
        r.push(v[i]);
        proof {
            assert(r@ =~= v@.take(i + 1));
        }
        i += 1;
    }
    proof {
        assert(r@ =~= v@);
    }
    r
}

/// An opaque serialized user datum: a recognised encoding tag, the two
/// reserved option bytes, and the user-serialized value.
#[derive(Debug)]
pub struct SerializedPayload {
    pub representation_identifier: RepresentationIdentifier,
    pub representation_options: (u8, u8),
    pub value: Vec<u8>,
}

/// The mathematical value of a [`SerializedPayload`].
pub struct SerializedPayloadView {
    pub representation_identifier: RepresentationIdentifier,
    pub representation_options: (u8, u8),
    pub value: Seq<u8>,
}

impl View for SerializedPayload {
    type V = SerializedPayloadView;

    open spec fn view(&self) -> SerializedPayloadView {
        SerializedPayloadView {
            representation_identifier: self.representation_identifier,
            representation_options: self.representation_options,
            value: self.value@,
        }
    }
}

impl Clone for SerializedPayload {
    fn clone(&self) -> (r: Self)
        ensures
            r@ == self@,
    {
        SerializedPayload {
            representation_identifier: self.representation_identifier,
            representation_options: self.representation_options,
            value: copy_bytes(&self.value),
        }
    }
}

impl SerializedPayload {
    pub fn new(representation_identifier: RepresentationIdentifier, value: Vec<u8>) -> (r:
        SerializedPayload)
        ensures
            r.representation_identifier == representation_identifier,
            r.representation_options == (0u8, 0u8),
            r.value == value,
    {
        SerializedPayload { representation_identifier, representation_options: (0u8, 0u8), value }
    }
}

/// The flags of a DATA_FRAG submessage. The assembly core reads only
/// `key`, which marks a key-only (dispose) sample.
#[derive(Clone, Copy, Debug)]
pub struct DataFragFlags {
    pub endianness: bool,
    pub inline_qos: bool,
    pub key: bool,
    pub non_standard_payload: bool,
}

/// One DATA_FRAG submessage as the wire parser delivers it: a consecutive
/// run of fragments of the sample numbered `writer_sn`.
///
/// `serialized_payload` holds the raw wire bytes of those fragments; when
/// `fragment_starting_num == 1` its first four bytes are the serialized
/// payload prefix (representation identifier and options).
pub struct DataFrag {
    pub writer_sn: SequenceNumber,
    pub data_size: u32,
    pub fragment_size: u16,
    pub fragment_starting_num: u32,
    pub fragments_in_submessage: u16,
    pub serialized_payload: Vec<u8>,
}

} // verus!
