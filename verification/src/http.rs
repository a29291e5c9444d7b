//! The one content-negotiation rule of the static file server: MPEG-TS
//! segments must go out as a generic byte stream, because the transport
//! type some systems guess for `.ts` files breaks browser playback.

use vstd::prelude::*;

verus! {

/// The content type to rewrite: `video/vnd.dlna.mpeg-tts`, as bytes.
pub open spec fn dlna_mpeg_tts() -> Seq<u8> {
    seq![
        0x76u8, 0x69u8, 0x64u8, 0x65u8, 0x6fu8, 0x2fu8, 0x76u8, 0x6eu8, 0x64u8, 0x2eu8, 0x64u8,
        0x6cu8, 0x6eu8, 0x61u8, 0x2eu8, 0x6du8, 0x70u8, 0x65u8, 0x67u8, 0x2du8, 0x74u8, 0x74u8,
        0x73u8,
    ]
}

/// The replacement: `application/octet-stream`, as bytes.
pub open spec fn octet_stream() -> Seq<u8> {
    seq![
        0x61u8, 0x70u8, 0x70u8, 0x6cu8, 0x69u8, 0x63u8, 0x61u8, 0x74u8, 0x69u8, 0x6fu8, 0x6eu8,
        0x2fu8, 0x6fu8, 0x63u8, 0x74u8, 0x65u8, 0x74u8, 0x2du8, 0x73u8, 0x74u8, 0x72u8, 0x65u8,
        0x61u8, 0x6du8,
    ]
}

/// The header override for one response: `Some(application/octet-stream)`
/// exactly when the stored content type is `video/vnd.dlna.mpeg-tts`,
/// nothing otherwise.
pub fn fix_content_type(content_type: &Vec<u8>) -> (r: Option<Vec<u8>>)
    ensures
        content_type@ == dlna_mpeg_tts() ==> (r matches Some(v) && v@ == octet_stream()),
        content_type@ != dlna_mpeg_tts() ==> r is None,
{
    let expected: Vec<u8> = vec![
        0x76u8, 0x69, 0x64, 0x65, 0x6f, 0x2f, 0x76, 0x6e, 0x64, 0x2e, 0x64, 0x6c, 0x6e, 0x61,
        0x2e, 0x6d, 0x70, 0x65, 0x67, 0x2d, 0x74, 0x74, 0x73,
    ];
    proof {
        assert(expected@ =~= dlna_mpeg_tts());
    }
    if crate::accumulator::bytes_eq(content_type, &expected) {
        let replacement: Vec<u8> = vec![
            0x61u8, 0x70, 0x70, 0x6c, 0x69, 0x63, 0x61, 0x74, 0x69, 0x6f, 0x6e, 0x2f, 0x6f, 0x63,
            0x74, 0x65, 0x74, 0x2d, 0x73, 0x74, 0x72, 0x65, 0x61, 0x6d,
        ];
        proof {
            assert(replacement@ =~= octet_stream());
        }
        Some(replacement)
    } else {
        None
    }
}

} // verus!
