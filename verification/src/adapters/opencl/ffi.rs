//! The codes the OpenCL C API answers with, and what they mean to a contributor.

#![allow(non_camel_case_types)]

use vstd::prelude::*;

use crate::text::{signed_decimal, signed_decimal_spec};

verus! {

pub type cl_int = i32;

pub const CL_SUCCESS: cl_int = 0;
pub const CL_MEM_OBJECT_ALLOCATION_FAILURE: cl_int = -4;
pub const CL_OUT_OF_RESOURCES: cl_int = -5;
pub const CL_OUT_OF_HOST_MEMORY: cl_int = -6;
pub const CL_BUILD_PROGRAM_FAILURE: cl_int = -11;
pub const CL_INVALID_BUFFER_SIZE: cl_int = -61;

/// The words for a code this adapter can actually provoke, if it is one of them.
pub open spec fn known_code(code: int) -> Option<Seq<char>> {
    if code == 0 {
        Some("success"@)
    } else if code == -1 {
        Some("device not found"@)
    } else if code == -2 {
        Some("device not available"@)
    } else if code == -3 {
        Some("compiler not available"@)
    } else if code == -4 {
        Some("the device could not allocate a buffer this large"@)
    } else if code == -5 {
        Some("out of device resources"@)
    } else if code == -6 {
        Some("out of host memory"@)
    } else if code == -11 {
        Some("the driver refused to build the kernel"@)
    } else if code == -30 {
        Some("invalid value"@)
    } else if code == -34 {
        Some("invalid context"@)
    } else if code == -38 {
        Some("invalid memory object"@)
    } else if code == -45 {
        Some("invalid program executable"@)
    } else if code == -46 {
        Some("invalid kernel name"@)
    } else if code == -48 {
        Some("invalid kernel"@)
    } else if code == -49 {
        Some("invalid kernel argument index"@)
    } else if code == -50 {
        Some("invalid kernel argument"@)
    } else if code == -52 {
        Some("not enough kernel arguments were set"@)
    } else if code == -54 {
        Some("invalid work group size"@)
    } else if code == -55 {
        Some("invalid work item size"@)
    } else if code == -61 {
        Some("buffer larger than the device's maximum allocation"@)
    } else {
        None
    }
}

/// A human-readable form of a code: its words and its number, or the number alone.
pub open spec fn described(code: int) -> Seq<char> {
    match known_code(code) {
        Some(words) => words + " (OpenCL error "@ + signed_decimal_spec(code) + ")"@,
        None => "OpenCL error "@ + signed_decimal_spec(code),
    }
}

/// Whatever a code is, its description says `OpenCL error` and the code's own number, so a
/// report can always be looked up; a positive code, which no call returns, is never dressed in
/// words.
pub proof fn law_a_description_carries_its_code(code: int)
    ensures
        exists|words: Seq<char>, tail: Seq<char>|
            (tail == Seq::<char>::empty() || tail == ")"@) && #[trigger] described(code) == words
                + "OpenCL error "@ + signed_decimal_spec(code) + tail,
        code > 0 ==> described(code) == "OpenCL error "@ + signed_decimal_spec(code),
{
    match known_code(code) {
        Some(words) => {
            let w = words + " ("@;
            assert(described(code) == w + "OpenCL error "@ + signed_decimal_spec(code) + ")"@) by {
                reveal_strlit(" (OpenCL error ");
                reveal_strlit(" (");
                reveal_strlit("OpenCL error ");
                assert(" (OpenCL error "@ =~= " ("@ + "OpenCL error "@);
            }
        },
        None => {
            assert(described(code) == Seq::<char>::empty() + "OpenCL error "@ + signed_decimal_spec(
                code,
            ) + Seq::<char>::empty());
        },
    }
}

/// A human-readable form of the codes this adapter can actually provoke.
///
/// Not the full table. The ones named here are the ones a contributor will hit -- a batch too
/// big for the device, a driver that will not build the kernel -- and a bare number in a bug
/// report is a round trip that a word avoids.
pub fn describe(code: cl_int) -> (out: String)
    ensures
        out@ == described(code as int),
{
    let known: &str = if code == CL_SUCCESS {
        "success"
    } else if code == -1 {
        "device not found"
    } else if code == -2 {
        "device not available"
    } else if code == -3 {
        "compiler not available"
    } else if code == CL_MEM_OBJECT_ALLOCATION_FAILURE {
        "the device could not allocate a buffer this large"
    } else if code == CL_OUT_OF_RESOURCES {
        "out of device resources"
    } else if code == CL_OUT_OF_HOST_MEMORY {
        "out of host memory"
    } else if code == CL_BUILD_PROGRAM_FAILURE {
        "the driver refused to build the kernel"
    } else if code == -30 {
        "invalid value"
    } else if code == -34 {
        "invalid context"
    } else if code == -38 {
        "invalid memory object"
    } else if code == -45 {
        "invalid program executable"
    } else if code == -46 {
        "invalid kernel name"
    } else if code == -48 {
        "invalid kernel"
    } else if code == -49 {
        "invalid kernel argument index"
    } else if code == -50 {
        "invalid kernel argument"
    } else if code == -52 {
        "not enough kernel arguments were set"
    } else if code == -54 {
        "invalid work group size"
    } else if code == -55 {
        "invalid work item size"
    } else if code == CL_INVALID_BUFFER_SIZE {
        "buffer larger than the device's maximum allocation"
    } else {
        let mut out = String::new();
        out.append("OpenCL error ");
        out.append(signed_decimal(code).as_str());
        return out;
    };
    let mut out = String::new();
    out.append(known);
    out.append(" (OpenCL error ");
    out.append(signed_decimal(code).as_str());
    out.append(")");
    out
}

} // verus!
