use shenava_asr_server::diarize::DiarizeSegment;
use shenava_asr_server::transcript::{
    assemble, check_window, chunk_bounds, decoded, hotbeam_words, join_chunks, join_results,
    segment_bounds,
    Decoded, TooLong,
};

fn piece(text: &str, greedy: &str, used_hotbeam: bool) -> Decoded {
    Decoded { text: text.into(), greedy: greedy.into(), used_hotbeam }
}

#[test]
fn long_audio_is_cut_every_ten_seconds() {
    assert_eq!(chunk_bounds(0, 16_000), vec![]);
    assert_eq!(chunk_bounds(1, 16_000), vec![(0, 1)]);
    assert_eq!(chunk_bounds(160_000, 16_000), vec![(0, 160_000)]);
    assert_eq!(
        chunk_bounds(400_001, 16_000),
        vec![(0, 160_000), (160_000, 320_000), (320_000, 400_001)]
    );
    let signal: Vec<u8> = vec![0; 105];
    let sizes: Vec<usize> = chunk_bounds(signal.len(), 1).iter().map(|&(a, b)| b - a).collect();
    let expected: Vec<usize> = signal.chunks(10).map(|c| c.len()).collect();
    assert_eq!(sizes, expected);
}

#[test]
fn the_window_holds_2005_frames() {
    assert_eq!(check_window(2005), Ok(()));
    assert_eq!(check_window(2006), Err(TooLong));
}

#[test]
fn the_hotwords_of_the_server_come_first() {
    let words = |list: &[&str]| -> Vec<String> { list.iter().map(|s| s.to_string()).collect() };
    assert_eq!(
        hotbeam_words(&words(&["a"]), &words(&["b", "a"])),
        Some(words(&["a", "b", "a"]))
    );
    assert_eq!(hotbeam_words(&words(&[]), &words(&["b"])), Some(words(&["b"])));
    assert_eq!(hotbeam_words(&words(&[]), &words(&[])), None);
}

#[test]
fn without_hotwords_the_transcript_is_the_greedy_one() {
    let out = decoded("g".into(), None);
    assert_eq!((out.text.as_str(), out.greedy.as_str(), out.used_hotbeam), ("g", "g", false));
    let out = decoded("g".into(), Some("h".into()));
    assert_eq!((out.text.as_str(), out.greedy.as_str(), out.used_hotbeam), ("h", "g", true));
    let out = join_chunks(&vec![piece("a", "a", false), piece("b", "b", false)]);
    assert_eq!(out.text, out.greedy);
}

#[test]
fn chunks_are_joined_with_spaces() {
    let out = join_chunks(&vec![piece("a", "x", false), piece("", "", true), piece("c", "z", false)]);
    assert_eq!((out.text.as_str(), out.greedy.as_str(), out.used_hotbeam), ("a  c", "x  z", true));
    let out = join_chunks(&Vec::new());
    assert_eq!((out.text.as_str(), out.greedy.as_str(), out.used_hotbeam), ("", "", false));
}

#[test]
fn spans_are_cut_out_of_the_signal() {
    assert_eq!(segment_bounds(10, 20, 16_000, 1_000_000), Some((160, 320)));
    assert_eq!(segment_bounds(10, 20, 44_100, 1_000_000), Some((441, 882)));
    assert_eq!(segment_bounds(10, 20, 16_000, 200), Some((160, 200)));
    assert_eq!(segment_bounds(10, 20, 16_000, 160), None);
    assert_eq!(segment_bounds(20, 10, 16_000, 1000), None);
    assert_eq!(segment_bounds(0, u64::MAX, u32::MAX, 5), Some((0, 5)));
    assert_eq!(segment_bounds(0, 1, 1, 5), None);
}

#[test]
fn speakers_get_a_line_where_they_say_something() {
    let span = |start_ms, speaker_id, speaker: &str| DiarizeSegment {
        start_ms,
        end_ms: start_ms + 10,
        speaker_id,
        speaker: speaker.into(),
    };
    let segments = vec![span(0, 1, "speaker_1"), span(5, 0, "speaker_0"), span(9, 1, "speaker_1")];
    let parts = vec![piece("a b", "a", true), piece("", "x", true), piece("c", "", true)];
    let out = assemble(&segments, &parts);
    assert_eq!(out.text, "speaker_1: a b\nspeaker_1: c");
    assert_eq!(out.greedy, "speaker_1: a\nspeaker_0: x");
    assert_eq!(out.segments.len(), 3);
    let silent = &out.segments[1];
    assert_eq!((silent.start_ms, silent.end_ms, silent.speaker_id), (5, 15, 0));
    assert_eq!(
        (silent.speaker.as_str(), silent.text.as_str(), silent.greedy.as_str()),
        ("speaker_0", "", "x")
    );
}

#[test]
fn cutting_off_the_first_chunk_leaves_the_rest() {
    for samples in [11, 20, 21, 35, 40] {
        let all = chunk_bounds(samples, 1);
        let rest = chunk_bounds(samples - 10, 1);
        assert_eq!(all[0], (0, 10));
        let shifted: Vec<(usize, usize)> = rest.iter().map(|&(a, b)| (a + 10, b + 10)).collect();
        assert_eq!(all[1..], shifted[..]);
    }
}

#[test]
fn chunks_are_joined_or_the_first_failure_is_told() {
    let parts = |list: &[&str]| -> Vec<Result<Decoded, &'static str>> {
        list.iter().map(|s| Ok(piece(s, s, *s == "b"))).collect()
    };
    let text = |r: Result<Decoded, (usize, &'static str)>| r.map(|d| (d.text, d.greedy, d.used_hotbeam));
    let told = |s: &str, used| Ok((s.to_string(), s.to_string(), used));
    assert_eq!(text(join_results(parts(&[]))), told("", false));
    assert_eq!(text(join_results(parts(&["a"]))), told("a", false));
    assert_eq!(text(join_results(parts(&["b", "c"]))), told("b c", true));
    assert_eq!(text(join_results(parts(&["a", "b", "c"]))), told("a b c", true));
    let mut results = parts(&["a", "b"]);
    results.push(Err("first"));
    results.push(Err("second"));
    assert_eq!(text(join_results(results)), Err((2, "first")));
}
