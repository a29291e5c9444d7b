use raycoord::codec::{
    decode_request, decode_response, encode_request, encode_response, read_u32_be, write_u32_be,
    write_u32_le, write_varint,
};
use raycoord::protocol::{Ray, Request, Response, Scene, Sphere, TraceResult, Vec3};

fn sample_results() -> Vec<TraceResult> {
    vec![
        TraceResult { hit: true, color: None },
        TraceResult { hit: false, color: None },
        TraceResult {
            hit: true,
            color: Some(Vec3 { x: 0x3F800000, y: 0, z: 0x40000000 }),
        },
    ]
}

#[test]
fn request_reserve_round_trip() {
    let req = Request::ReserveRays;
    let bytes = encode_request(&req);
    assert_eq!(bytes, vec![0u8]);
    assert_eq!(decode_request(&bytes), Some(Request::ReserveRays));
}

#[test]
fn request_submit_round_trip() {
    let req = Request::SubmitResults(sample_results());
    let bytes = encode_request(&req);
    let back = decode_request(&bytes).expect("decodes");
    assert_eq!(back, req);
}

#[test]
fn request_set_name_round_trip() {
    let req = Request::SetName(b"alice".to_vec());
    let bytes = encode_request(&req);
    // variant 2, length 5, then the name bytes.
    assert_eq!(bytes, vec![2u8, 5, b'a', b'l', b'i', b'c', b'e']);
    assert_eq!(decode_request(&bytes), Some(req));
}

#[test]
fn response_round_trips() {
    let rays = vec![
        Ray {
            origin: Vec3 { x: 0, y: 0, z: 0xC3AF0000 },
            direction: Vec3 { x: 1, y: 2, z: 3 },
        };
        2
    ];
    let scene = Scene {
        frame: 7,
        spheres: vec![Sphere { center: Vec3 { x: 9, y: 8, z: 7 }, radius: 0x41200000 }],
    };
    let resp = Response::ReserveRays(rays, scene);
    let bytes = encode_response(&resp);
    assert_eq!(decode_response(&bytes), Some(resp));

    assert_eq!(
        decode_response(&encode_response(&Response::SubmitResults)),
        Some(Response::SubmitResults)
    );
    assert_eq!(decode_response(&encode_response(&Response::SetName)), Some(Response::SetName));
}

#[test]
fn decode_rejects_malformed_frames() {
    // Unknown variant.
    assert_eq!(decode_request(&vec![9u8]), None);
    // Empty frame.
    assert_eq!(decode_request(&Vec::new()), None);
    // A flag byte other than 0 or 1 inside a result.
    assert_eq!(decode_request(&vec![1u8, 1, 2, 0]), None);
    // Trailing bytes after a complete message.
    assert_eq!(decode_request(&vec![0u8, 0]), None);
    // Truncated submission: claims one result, carries none.
    assert_eq!(decode_request(&vec![1u8, 1]), None);
    // Name length that overruns the frame.
    assert_eq!(decode_request(&vec![2u8, 9, b'x']), None);
}

#[test]
fn varint_matches_postcard() {
    for n in [0u64, 1, 127, 128, 300, 16383, 16384, 0xFFFF_FFFF, u64::MAX] {
        let mut ours = Vec::new();
        write_varint(&mut ours, n);
        let theirs = postcard::to_allocvec(&n).expect("postcard encodes u64");
        assert_eq!(ours, theirs, "varint encoding of {n}");
    }
}

#[test]
fn f32_bits_match_postcard() {
    for f in [0.0f32, 1.0, -350.0, 0.25, 123.456] {
        let mut ours = Vec::new();
        write_u32_le(&mut ours, f.to_bits());
        let theirs = postcard::to_allocvec(&f).expect("postcard encodes f32");
        assert_eq!(ours, theirs, "encoding of {f}");
    }
}

#[test]
fn bool_and_string_match_postcard() {
    assert_eq!(postcard::to_allocvec(&true).unwrap(), vec![1u8]);
    assert_eq!(postcard::to_allocvec(&false).unwrap(), vec![0u8]);
    let s = String::from("alice");
    let theirs = postcard::to_allocvec(&s).unwrap();
    assert_eq!(theirs, vec![5u8, b'a', b'l', b'i', b'c', b'e']);
    // Our SetName payload lays the name out the same way.
    let ours = encode_request(&Request::SetName(b"alice".to_vec()));
    assert_eq!(&ours[1..], &theirs[..]);
}

#[test]
fn u32_big_endian_round_trip() {
    for n in [0u32, 1, 0x1234, 0xDEAD_BEEF, u32::MAX] {
        let bytes = write_u32_be(n);
        assert_eq!(bytes.len(), 4);
        assert_eq!(read_u32_be(&bytes), n);
    }
    assert_eq!(write_u32_be(0x0102_0304), vec![1u8, 2, 3, 4]);
}
