use raycoord::playlist::PlaylistState;

fn rewrite(state: &mut PlaylistState, input: &str) -> String {
    let out = state.rewrite_playlist(&input.as_bytes().to_vec());
    String::from_utf8(out).expect("playlists are ASCII")
}

#[test]
fn first_flush_anchors_at_the_epoch() {
    let mut st = PlaylistState::new();
    let input = "#EXTM3U\n#EXT-X-MEDIA-SEQUENCE:0\n#EXTINF:3.000,\nsegment00000.ts\n";
    let out = rewrite(&mut st, input);
    assert_eq!(
        out,
        "#EXTM3U\n#EXT-X-MEDIA-SEQUENCE:0\n#EXT-X-PROGRAM-DATE-TIME:1970-01-01T00:00:00.000Z\n\n#EXTINF:3.000,\nsegment00000.ts\n"
    );
    assert_eq!(st.last_sequence_no, 0);
    assert_eq!(st.total_elapsed_ms, 0);
    assert_eq!(st.next_duration_ms, 3000);
}

#[test]
fn sequence_advance_accumulates_the_head_duration() {
    let mut st = PlaylistState::new();
    rewrite(&mut st, "#EXT-X-MEDIA-SEQUENCE:0\n#EXTINF:2.990,\na.ts\n");
    let out = rewrite(&mut st, "#EXT-X-MEDIA-SEQUENCE:1\n#EXTINF:3.010,\nb.ts\n");
    // The head segment's 2.990 s joined the elapsed total.
    assert!(
        out.contains("#EXT-X-PROGRAM-DATE-TIME:1970-01-01T00:00:02.990Z\n"),
        "got: {out}"
    );
    assert_eq!(st.last_sequence_no, 1);
    assert_eq!(st.total_elapsed_ms, 2990);
    assert_eq!(st.next_duration_ms, 3010);
}

#[test]
fn unchanged_sequence_does_not_accumulate() {
    let mut st = PlaylistState::new();
    rewrite(&mut st, "#EXT-X-MEDIA-SEQUENCE:4\n#EXTINF:3.000,\na.ts\n");
    let out = rewrite(&mut st, "#EXT-X-MEDIA-SEQUENCE:4\n#EXTINF:3.000,\na.ts\nb.ts\n");
    // The same sequence number means the head segment has not left the
    // playlist, so no time is added; the anchor stays at the epoch.
    assert!(out.contains("1970-01-01T00:00:00.000Z"), "got: {out}");
    assert_eq!(st.total_elapsed_ms, 0);
    assert_eq!(st.next_duration_ms, 3000);
}

#[test]
fn only_the_first_extinf_gets_the_anchor() {
    let mut st = PlaylistState::new();
    let out = rewrite(
        &mut st,
        "#EXT-X-MEDIA-SEQUENCE:0\n#EXTINF:1.000,\na.ts\n#EXTINF:2.000,\nb.ts\n",
    );
    let anchors = out.matches("#EXT-X-PROGRAM-DATE-TIME:").count();
    assert_eq!(anchors, 1);
    // Only the first duration was consumed into the state.
    assert_eq!(st.next_duration_ms, 1000);
}

#[test]
fn lines_without_headers_pass_through() {
    let mut st = PlaylistState::new();
    let out = rewrite(&mut st, "#EXTM3U\nplain.ts\n");
    assert_eq!(out, "#EXTM3U\nplain.ts\n");
}

#[test]
fn malformed_headers_are_passed_through_unparsed() {
    let mut st = PlaylistState::new();
    // A duration without the trailing comma and a non-numeric sequence
    // number are ordinary lines; no anchor is injected.
    let out = rewrite(&mut st, "#EXT-X-MEDIA-SEQUENCE:abc\n#EXTINF:3.000\nx.ts\n");
    assert_eq!(out, "#EXT-X-MEDIA-SEQUENCE:abc\n#EXTINF:3.000\nx.ts\n");
    assert_eq!(st.next_duration_ms, 0);
}

#[test]
fn fractional_digits_scale_to_milliseconds() {
    let mut st = PlaylistState::new();
    rewrite(&mut st, "#EXT-X-MEDIA-SEQUENCE:0\n#EXTINF:2.5,\na.ts\n");
    assert_eq!(st.next_duration_ms, 2500);
    let mut st2 = PlaylistState::new();
    rewrite(&mut st2, "#EXT-X-MEDIA-SEQUENCE:0\n#EXTINF:7,\na.ts\n");
    assert_eq!(st2.next_duration_ms, 7000);
    let mut st3 = PlaylistState::new();
    rewrite(&mut st3, "#EXT-X-MEDIA-SEQUENCE:0\n#EXTINF:0.12345,\na.ts\n");
    assert_eq!(st3.next_duration_ms, 123);
}
