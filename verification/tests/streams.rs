use shenava_asr_server::streaming::{
    copy_window, Session, StreamError, CACHE_D_MODEL, CACHE_LAYERS, CACHE_LEFT_FRAMES,
    CACHE_TIME_WIDTH, FEATURE_BINS, FEATURE_CHUNK_FRAMES,
};

/// Features whose value tells bin and frame.
fn features(frames: usize) -> Vec<Vec<u32>> {
    (0..FEATURE_BINS)
        .map(|m| (0..frames).map(|f| (m * 100_000 + f + 1) as u32).collect())
        .collect()
}

#[test]
fn features_are_fed_in_overlapping_chunks() {
    let frames = 300;
    let feat = features(frames);
    let mut session = Session::new(FEATURE_BINS, frames, frames, 0).unwrap();
    let mut starts = Vec::new();
    let mut sizes = Vec::new();
    let mut seen = vec![0; frames];
    while let Some(valid) = session.next_chunk() {
        let input = session.chunk_input(&feat, 0);
        assert_eq!(input.len(), FEATURE_BINS * FEATURE_CHUNK_FRAMES);
        for m in 0..FEATURE_BINS {
            for f in 0..FEATURE_CHUNK_FRAMES {
                let expected = if f < valid { feat[m][session.start + f] } else { 0 };
                assert_eq!(input[m * FEATURE_CHUNK_FRAMES + f], expected);
            }
        }
        for f in 0..valid {
            seen[session.start + f] += 1;
        }
        starts.push(session.start);
        sizes.push(valid);
        session.absorb(Vec::new(), Vec::new(), Vec::new(), 0);
    }
    assert_eq!(starts, vec![0, 112, 224]);
    assert_eq!(sizes, vec![121, 121, 76]);
    assert!(seen.iter().all(|&n| n > 0));
    assert_eq!(seen.iter().filter(|&&n| n == 2).count(), 18);
}

#[test]
fn caches_are_carried_and_scores_collected() {
    let mut session = Session::new(FEATURE_BINS, 500, 150, 0u32).unwrap();
    assert_eq!(session.channel, vec![0; CACHE_LAYERS * CACHE_LEFT_FRAMES * CACHE_D_MODEL]);
    assert_eq!(session.time, vec![0; CACHE_LAYERS * CACHE_D_MODEL * CACHE_TIME_WIDTH]);
    assert_eq!(session.channel_len, 0);
    session.absorb(vec![vec![1], vec![2]], vec![5], vec![6], 7);
    assert_eq!((session.channel.clone(), session.time.clone()), (vec![5], vec![6]));
    assert_eq!(session.channel_len, 7);
    assert_eq!(session.next_chunk(), Some(38));
    session.absorb(vec![vec![3]], vec![8], vec![9], 10);
    assert_eq!(session.next_chunk(), None);
    assert_eq!(session.rows, vec![vec![1], vec![2], vec![3]]);
    assert_eq!(session.channel, vec![8]);
}

#[test]
fn features_have_to_fit() {
    assert_eq!(Session::new(79, 10, 10, 0u8).err(), Some(StreamError::Bins));
    assert_eq!(Session::new(80, 10, 0, 0u8).err(), Some(StreamError::Frames));
    assert_eq!(Session::new(80, 10, 11, 0u8).err(), Some(StreamError::Frames));
    assert!(Session::new(80, 10, 10, 0u8).is_ok());
}

#[test]
fn the_last_chunk_may_repeat_what_was_fed() {
    let mut session = Session::new(80, 113, 113, 0u8).unwrap();
    assert_eq!(session.next_chunk(), Some(113));
    session.absorb(Vec::new(), Vec::new(), Vec::new(), 0);
    assert_eq!((session.start, session.next_chunk()), (112, Some(1)));
}

#[test]
fn windows_are_filled_up() {
    let feat = vec![vec![1, 2, 3], vec![4, 5, 6]];
    assert_eq!(copy_window(&feat, 2, 1, 2, 3, 0), vec![2, 3, 0, 5, 6, 0]);
    assert_eq!(copy_window(&feat, 1, 1, 2, 3, 0), vec![2, 3, 0]);
    assert_eq!(copy_window(&feat, 2, 0, 0, 2, 9), vec![9, 9, 9, 9]);
}
