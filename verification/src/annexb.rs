//! NAL units in a byte stream.

use crate::h264_parameter_sets::nal_unit;
use vstd::prelude::*;

verus! {

/// The type of slices of a picture that refers to no other.
pub const NALU_TYPE_IDR: u8 = 5;

/// The short start code stands at this place.
pub open spec fn short_code_at(data: Seq<u8>, at: int) -> bool {
    0 <= at && at + 3 <= data.len() && data[at] == 0 && data[at + 1] == 0 && data[at + 2] == 1
}

/// The long start code stands at this place.
pub open spec fn long_code_at(data: Seq<u8>, at: int) -> bool {
    &&& 0 <= at && at + 4 <= data.len()
    &&& data[at] == 0 && data[at + 1] == 0 && data[at + 2] == 0 && data[at + 3] == 1
}

/// The first short start code stands at this place.
pub open spec fn first_code_at(data: Seq<u8>, at: int) -> bool {
    &&& short_code_at(data, at)
    &&& forall|i: int| 0 <= i < at ==> !(#[trigger] short_code_at(data, i))
}

/// Something follows the first start code.
pub open spec fn starts_nalu(data: Seq<u8>) -> bool {
    exists|at: int| #[trigger] first_code_at(data, at) && data.len() > at + 3
}

/// Whether there is a NAL unit in the data: something follows the first start code.
pub fn has_nalu(data: &[u8]) -> (r: bool)
    ensures
        r == starts_nalu(data@),
{
    let len: usize = data.len();
    let mut at: usize = 0;
    while at < len && len - at >= 3
        invariant
            at <= len == data@.len(),
            forall|i: int| 0 <= i < at ==> !(#[trigger] short_code_at(data@, i)),
        decreases len - at,
    {
        if data[at] == 0 && data[at + 1] == 0 && data[at + 2] == 1 {
            assert(short_code_at(data@, at as int));
            assert(first_code_at(data@, at as int));
            let r = len - at > 3;
            assert forall|other: int| #[trigger] first_code_at(data@, other) implies other == at by {
                if other < at {
                    assert(!short_code_at(data@, other));
                }
            }
            return r;
        }
        assert(!short_code_at(data@, at as int));
        at = at + 1;
    }
    assert forall|other: int| !(#[trigger] first_code_at(data@, other)) by {
        if first_code_at(data@, other) {
            assert(short_code_at(data@, other));
        }
    }
    false
}

/// The types of the NAL units from a place on. A start code of which nothing follows ends the list.
pub open spec fn nalu_types_from(data: Seq<u8>, at: int) -> Seq<u8>
    decreases data.len() - at,
{
    if at < 0 || at + 4 > data.len() {
        Seq::empty()
    } else if short_code_at(data, at) {
        seq![data[at + 3] & 0x1f] + nalu_types_from(data, at + 4)
    } else if long_code_at(data, at) {
        if at + 4 < data.len() {
            seq![data[at + 4] & 0x1f] + nalu_types_from(data, at + 5)
        } else {
            Seq::empty()
        }
    } else {
        nalu_types_from(data, at + 1)
    }
}

/// The types of the NAL units, in order.
pub open spec fn nalu_types(data: Seq<u8>) -> Seq<u8> {
    nalu_types_from(data, 0)
}

/// The types of the NAL units, in order.
pub fn annexb_nalu_types(data: &[u8]) -> (r: Vec<u8>)
    ensures
        r@ == nalu_types(data@),
{
    let len: usize = data.len();
    let mut types: Vec<u8> = Vec::new();
    let mut at: usize = 0;
    assert(nalu_types(data@) =~= types@ + nalu_types_from(data@, 0));
    while at < len && len - at >= 4
        invariant
            at <= len == data@.len(),
            nalu_types(data@) == types@ + nalu_types_from(data@, at as int),
        decreases len - at,
    {
        if data[at] == 0 && data[at + 1] == 0 && data[at + 2] == 1 {
            types.push(data[at + 3] & 0x1f);
            assert(nalu_types(data@) =~= types@ + nalu_types_from(data@, at + 4));
            at = at + 4;
        } else if data[at] == 0 && data[at + 1] == 0 && data[at + 2] == 0 && data[at + 3] == 1 {
            if len - at == 4 {
                assert(types@ =~= nalu_types(data@));
                return types;
            }
            types.push(data[at + 4] & 0x1f);
            assert(nalu_types(data@) =~= types@ + nalu_types_from(data@, at + 5));
            at = at + 5;
        } else {
            at = at + 1;
        }
    }
    assert(types@ =~= nalu_types(data@));
    types
}

/// Whether the data holds a slice of a picture that refers to no other.
pub fn contains_idr(data: &[u8]) -> (r: bool)
    ensures
        r == nalu_types(data@).contains(NALU_TYPE_IDR),
{
    let types = annexb_nalu_types(data);
    let mut i: usize = 0;
    while i < types.len()
        invariant
            i <= types@.len(),
            types@ == nalu_types(data@),
            forall|k: int| 0 <= k < i ==> #[trigger] types@[k] != NALU_TYPE_IDR,
        decreases types@.len() - i,
    {
        if types[i] == NALU_TYPE_IDR {
            assert(types@[i as int] == NALU_TYPE_IDR);
            return true;
        }
        i = i + 1;
    }
    false
}

/// A NAL unit that was written with its start code is found again, under the type in its header.
pub proof fn lemma_written_unit_is_found(header: u8, rbsp: Seq<u8>, rest: Seq<u8>)
    ensures
        nalu_types(nal_unit(header, rbsp) + rest).len() > 0,
        nalu_types(nal_unit(header, rbsp) + rest)[0] == header & 0x1f,
{
    let data = nal_unit(header, rbsp) + rest;
    assert(data[0] == 0 && data[1] == 0 && data[2] == 0 && data[3] == 1 && data[4] == header);
    assert(long_code_at(data, 0));
    assert(!short_code_at(data, 0));
}

/// The bytes 0, 0, 1 stand at this place, and something follows them.
pub open spec fn header_follows(data: Seq<u8>, at: int) -> bool {
    0 <= at && at + 3 < data.len() && data[at] == 0 && data[at + 1] == 0 && data[at + 2] == 1
}

/// The low five bits of each byte that follows the bytes 0, 0, 1, from a place on.
pub open spec fn header_types(data: Seq<u8>, at: int) -> Seq<u8>
    decreases data.len() - at,
{
    if at < 0 || at >= data.len() {
        Seq::empty()
    } else if header_follows(data, at) {
        seq![data[at + 3] % 32] + header_types(data, at + 1)
    } else {
        header_types(data, at + 1)
    }
}

/// The types of the NAL units are the low five bits of the bytes that follow a start code, short or
/// long: each of them, once, in order. Headers are never zero.
pub proof fn lemma_types_follow_start_codes(data: Seq<u8>)
    requires
        forall|at: int| #[trigger] header_follows(data, at) ==> data[at + 3] != 0,
    ensures
        nalu_types(data) == header_types(data, 0),
{
    lemma_types_from(data, 0);
}

proof fn lemma_types_from(data: Seq<u8>, at: int)
    requires
        forall|at: int| #[trigger] header_follows(data, at) ==> data[at + 3] != 0,
        0 <= at,
    ensures
        nalu_types_from(data, at) == header_types(data, at),
    decreases data.len() - at,
{
    if at + 4 > data.len() {
        lemma_nothing_follows(data, at);
    } else if short_code_at(data, at) {
        assert(header_follows(data, at));
        let header = data[at + 3];
        assert(header & 0x1f == header % 32) by (bit_vector);
        lemma_types_from(data, at + 4);
        lemma_no_header_inside(data, at);
    } else if long_code_at(data, at) {
        assert(!header_follows(data, at));
        if at + 4 < data.len() {
            assert(header_follows(data, at + 1));
            let header = data[at + 4];
            assert(header & 0x1f == header % 32) by (bit_vector);
            lemma_types_from(data, at + 5);
            lemma_no_header_inside(data, at + 1);
            assert(header_types(data, at) == header_types(data, at + 1));
        } else {
            lemma_nothing_follows(data, at + 1);
        }
    } else {
        lemma_types_from(data, at + 1);
    }
}

proof fn lemma_nothing_follows(data: Seq<u8>, at: int)
    requires
        0 <= at,
        at + 4 > data.len(),
    ensures
        header_types(data, at) == Seq::<u8>::empty(),
    decreases data.len() - at,
{
    if at < data.len() {
        lemma_nothing_follows(data, at + 1);
    }
}

/// No start code begins inside another one, nor in a header that is not zero.
proof fn lemma_no_header_inside(data: Seq<u8>, at: int)
    requires
        header_follows(data, at),
        data[at + 3] != 0,
    ensures
        header_types(data, at) == seq![data[at + 3] % 32] + header_types(data, at + 4),
{
    assert(!header_follows(data, at + 1));
    assert(!header_follows(data, at + 2));
    assert(!header_follows(data, at + 3));
    assert(header_types(data, at + 3) == header_types(data, at + 4));
    assert(header_types(data, at + 2) == header_types(data, at + 3));
    assert(header_types(data, at + 1) == header_types(data, at + 2));
}

/// There is a NAL unit exactly where something follows the bytes 0, 0, 1.
pub proof fn lemma_unit_needs_a_header(data: Seq<u8>)
    ensures
        starts_nalu(data) <==> exists|at: int| #[trigger] header_follows(data, at),
{
    if starts_nalu(data) {
        let at = choose|at: int| #[trigger] first_code_at(data, at) && data.len() > at + 3;
        assert(header_follows(data, at));
    }
    if exists|at: int| #[trigger] header_follows(data, at) {
        let at = choose|at: int| #[trigger] header_follows(data, at);
        lemma_first_code_exists(data, at);
    }
}

proof fn lemma_first_code_exists(data: Seq<u8>, at: int)
    requires
        header_follows(data, at),
    ensures
        starts_nalu(data),
    decreases at,
{
    if exists|i: int| 0 <= i < at && #[trigger] short_code_at(data, i) {
        let i = choose|i: int| 0 <= i < at && #[trigger] short_code_at(data, i);
        assert(header_follows(data, i));
        lemma_first_code_exists(data, i);
    } else {
        assert(short_code_at(data, at));
        assert(first_code_at(data, at));
    }
}

/// A slice of a picture that refers to no other has type 5.
pub proof fn lemma_slice_that_refers_to_no_other_is_found(header: u8, rbsp: Seq<u8>, rest: Seq<u8>)
    requires
        header % 32 == 5,
    ensures
        nalu_types(nal_unit(header, rbsp) + rest).contains(NALU_TYPE_IDR),
{
    lemma_written_unit_is_found(header, rbsp, rest);
    assert(header & 0x1f == header % 32) by (bit_vector);
    assert(nalu_types(nal_unit(header, rbsp) + rest)[0] == NALU_TYPE_IDR);
}

} // verus!
