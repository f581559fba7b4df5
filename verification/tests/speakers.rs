use shenava_asr_server::nemotron::{
    check_embedding_len, chunk_input, centered_frame, is_recent, padded, plan_chunk,
    predictions_to_segments, silence_embedding, ChunkPlan, GraphError, Segment, Session,
    SidecarError, SpeakerScores, State, CHUNK_INPUT_FRAMES, CHUNK_LEN, EMB_DIM, FIFO_LEN, N_FFT,
    N_MELS, RIGHT_CONTEXT, SPEAKERS, SPKCACHE_LEN, STACK,
};

type Row = [f32; SPEAKERS];

fn bits(rows: &[Row]) -> Vec<[u32; SPEAKERS]> {
    rows.iter().map(|row| row.map(f32::to_bits)).collect()
}

fn rows(patterns: &[[u32; SPEAKERS]]) -> Vec<Row> {
    patterns.iter().map(|row| row.map(f32::from_bits)).collect()
}

#[test]
fn segments_are_audio_ordered_and_keep_overlap() {
    let mut p = vec![[0.0; SPEAKERS]; 4];
    p[0][1] = 1.0;
    p[1][0] = 1.0;
    p[1][1] = 1.0;
    let got = predictions_to_segments(&bits(&p));
    assert_eq!(got[0].start_ms, 0);
    assert_eq!(got[0].speaker_id, 1);
    assert_eq!(got[1].start_ms, 10);
    assert_eq!(got[1].speaker_id, 0);
}

#[test]
fn spans_are_the_longest_stretches_of_activity() {
    let mut p = vec![[0.0; SPEAKERS]; 6];
    for (frame, value) in [(0, 0.5), (1, 0.9), (2, 0.499_999_97), (4, 0.6), (5, f32::NAN)] {
        p[frame][3] = value;
    }
    p[5][7] = 1.0;
    let span = |start_ms, end_ms, speaker_id| Segment { start_ms, end_ms, speaker_id };
    assert_eq!(
        predictions_to_segments(&bits(&p)),
        vec![span(0, 20, 3), span(40, 50, 3), span(50, 60, 7)]
    );
    assert_eq!(predictions_to_segments(&Vec::new()), Vec::new());
    let all = vec![[1.0; SPEAKERS]; 2];
    let got = predictions_to_segments(&bits(&all));
    assert_eq!(got.len(), SPEAKERS);
    for (s, segment) in got.iter().enumerate() {
        assert_eq!(*segment, span(0, 20, s as u32));
    }
}

#[test]
fn chunks_look_ahead_as_far_as_there_are_frames() {
    let core = CHUNK_LEN * STACK;
    let right = RIGHT_CONTEXT * STACK;
    assert_eq!(
        plan_chunk(0, 10),
        ChunkPlan { start: 0, core_end: 10, raw_len: 10, core_emb_len: 2 }
    );
    assert_eq!(
        plan_chunk(0, 10_000),
        ChunkPlan { start: 0, core_end: core, raw_len: core + right, core_emb_len: CHUNK_LEN }
    );
    assert_eq!(
        plan_chunk(0, core + 3),
        ChunkPlan { start: 0, core_end: core, raw_len: core + 3, core_emb_len: CHUNK_LEN }
    );
    assert_eq!(
        plan_chunk(core, core + 3),
        ChunkPlan { start: core, core_end: core + 3, raw_len: 3, core_emb_len: 1 }
    );
    assert_eq!(core + right, CHUNK_INPUT_FRAMES);
}

#[test]
fn chunk_features_are_filled_up() {
    let frames: Vec<f32> = (0..5 * N_MELS).map(|x| x as f32).collect();
    let input = chunk_input(&frames, 2, 3, 0.0);
    assert_eq!(input.len(), CHUNK_INPUT_FRAMES * N_MELS);
    assert_eq!(input[..3 * N_MELS], frames[2 * N_MELS..]);
    assert!(input[3 * N_MELS..].iter().all(|&x| x == 0.0));
    assert_eq!(padded(&vec![1, 2], 4, 9), vec![1, 2, 9, 9]);
}

#[test]
fn frames_are_centred_on_the_signal() {
    let signal: Vec<i32> = (1..=400).collect();
    let frame = centered_frame(&signal, 0, 0);
    assert_eq!(frame.len(), N_FFT);
    assert!(frame[..256].iter().all(|&x| x == 0));
    assert_eq!(frame[256], 1);
    assert_eq!(frame[511], 256);
    let frame = centered_frame(&signal, 2, 0);
    assert_eq!(frame[0], 320 - 256 + 1);
    assert_eq!(frame[335], 400);
    assert_eq!(frame[336], 0);
}

#[test]
fn announced_embeddings_have_to_be_there() {
    assert_eq!(check_embedding_len(Some(2), 2 * EMB_DIM), Ok(()));
    assert_eq!(
        check_embedding_len(Some(3), 3 * EMB_DIM - 1),
        Err(GraphError::EmbeddingLength)
    );
    assert_eq!(check_embedding_len(Some(i64::MAX), 8), Err(GraphError::EmbeddingLength));
    assert_eq!(check_embedding_len(Some(-4), 0), Ok(()));
    assert_eq!(check_embedding_len(None, 0), Ok(()));
}

#[test]
fn the_silence_embedding_is_little_endian() {
    let numbers: Vec<f32> = (0..EMB_DIM).map(|i| i as f32 * -1.25).collect();
    let bytes: Vec<u8> = numbers.iter().flat_map(|x| x.to_le_bytes()).collect();
    let got = silence_embedding(Some(&bytes)).unwrap();
    let got: Vec<f32> = got.into_iter().map(f32::from_bits).collect();
    assert_eq!(got, numbers);
    assert_eq!(silence_embedding(None).unwrap(), vec![0; EMB_DIM]);
    assert_eq!(
        silence_embedding(Some(&vec![1, 2, 3])),
        Err(SidecarError::Size(3))
    );
}

/// Embeddings of `n` frames, each of its number throughout.
fn embeddings(from: usize, n: usize) -> Vec<f32> {
    (from..from + n).flat_map(|t| vec![t as f32; EMB_DIM]).collect()
}

fn numbers(embeddings: &[f32]) -> Vec<usize> {
    embeddings.chunks(EMB_DIM).map(|e| e[0] as usize).collect()
}

#[test]
fn frames_move_from_the_queue_to_the_cache() {
    let preds = |n: usize| -> Vec<[u32; SPEAKERS]> { (0..n).map(|t| [t as u32; SPEAKERS]).collect() };
    let mut state: State<f32> = State::new();
    assert!(!state.update(&embeddings(0, 30), &preds(30), 30));
    assert_eq!((state.cache_len, state.fifo_len), (0, 30));
    assert!(!state.update(&embeddings(30, 10), &preds(40), 10));
    assert_eq!((state.cache_len, state.fifo_len), (0, FIFO_LEN));
    // All of the 50 leave, because so many would at least.
    assert!(!state.update(&embeddings(40, 10), &preds(50), 10));
    assert_eq!((state.cache_len, state.fifo_len), (50, 0));
    assert_eq!(numbers(&state.cache), (0..50).collect::<Vec<_>>());
    assert_eq!(state.cache_preds, preds(50));
    // 340 arrive, 300 leave, 40 stay.
    assert!(state.update(&embeddings(50, 340), &preds(50 + 340), 340));
    assert_eq!((state.cache_len, state.fifo_len), (350, 40));
    assert_eq!(numbers(&state.cache), (0..350).collect::<Vec<_>>());
    assert_eq!(numbers(&state.fifo), (350..390).collect::<Vec<_>>());
    assert_eq!(state.fifo_preds[0], [350; SPEAKERS]);
    assert!(!state.compressed);
    // The queue's probabilities come afresh with every chunk.
    let fresh: Vec<[u32; SPEAKERS]> = vec![[7; SPEAKERS]; 350 + 40];
    assert!(state.update(&Vec::new(), &fresh, 0));
    assert_eq!(state.fifo_preds, vec![[7; SPEAKERS]; 40]);
}

/// The score of a frame for one speaker.
fn base_score(row: &Row, s: usize, t: usize) -> f32 {
    let all: f32 = row.iter().fold(0.0, |sum, p| sum + p.clamp(0.25, 0.75).ln());
    row[s].clamp(0.25, 0.75).ln() - (1.0 - row[s]).clamp(0.25, 0.75).ln() + all - 0.5f32.ln()
        + if is_recent(t) { 0.05 } else { 0.0 }
}

fn score_table(preds: &[Row]) -> Vec<SpeakerScores> {
    (0..SPEAKERS)
        .map(|s| {
            let base: Vec<f32> = (0..preds.len()).map(|t| base_score(&preds[t], s, t)).collect();
            let raise = |list: &[f32], scale: f32| -> Vec<f32> {
                list.iter().map(|x| x - scale * 0.5f32.ln()).collect()
            };
            let pattern = |list: &[f32]| -> Vec<u32> { list.iter().map(|x| x.to_bits()).collect() };
            let strong = raise(&base, 2.0);
            SpeakerScores {
                weak: pattern(&raise(&base, 1.0)),
                both: pattern(&raise(&strong, 1.0)),
                strong: pattern(&strong),
                base: pattern(&base),
            }
        })
        .collect()
}

fn boost_by_floats(scores: &mut [f32], k: usize, scale: f32) {
    let mut order: Vec<usize> = (0..scores.len()).collect();
    order.sort_by(|&a, &b| scores[b].total_cmp(&scores[a]));
    for i in order.into_iter().take(k) {
        scores[i] -= scale * 0.5f32.ln();
    }
}

/// The frames that a cache is compressed to, computed with numbers.
fn kept_by_floats(preds: &[Row]) -> Vec<usize> {
    let n = preds.len();
    let mut candidates: Vec<(f32, usize, usize)> = Vec::new();
    for s in 0..SPEAKERS {
        let mut scores: Vec<f32> = (0..n)
            .map(|t| {
                if preds[t][s] > 0.5 {
                    base_score(&preds[t], s, t)
                } else {
                    f32::NEG_INFINITY
                }
            })
            .collect();
        if scores.iter().filter(|&&x| x > 0.0).count() >= 16 {
            for x in scores.iter_mut() {
                if *x <= 0.0 {
                    *x = f32::NEG_INFINITY;
                }
            }
        }
        boost_by_floats(&mut scores, 24, 2.0);
        boost_by_floats(&mut scores, 48, 1.0);
        candidates.extend(scores.into_iter().enumerate().map(|(t, x)| (x, s, t)));
        candidates.push((f32::INFINITY, s, n));
    }
    candidates.sort_by(|a, b| b.0.total_cmp(&a.0));
    candidates.truncate(SPKCACHE_LEN);
    candidates.sort_by_key(|&(_, s, t)| (s, t));
    candidates.into_iter().map(|(_, _, t)| t).collect()
}

fn cache_of(preds: &[Row]) -> State<f32> {
    let mut state: State<f32> = State::new();
    state.cache = embeddings(0, preds.len());
    state.cache_preds = bits(preds);
    state.cache_len = preds.len();
    state
}

#[test]
fn compression_keeps_what_the_scores_rank_highest() {
    let mut seed: u64 = 99;
    let mut random = move || {
        seed = seed.wrapping_mul(6364136223846793005).wrapping_add(1442695040888963407);
        (seed >> 40) as f32 / (1u64 << 24) as f32
    };
    for round in 0..12 {
        let n = 265 + 40 * round;
        let preds: Vec<Row> = (0..n)
            .map(|_| {
                let mut row = [0.0; SPEAKERS];
                for p in row.iter_mut() {
                    let x = random();
                    // Many equal scores among them.
                    *p = if round % 2 == 0 { (x * 8.0).floor() / 8.0 } else { x };
                }
                if round % 3 == 0 {
                    for p in row.iter_mut().skip(1) {
                        *p *= 0.2;
                    }
                }
                row
            })
            .collect();
        let silence = vec![-1.0f32; EMB_DIM];
        let mut state = cache_of(&preds);
        state.compress(&silence, &score_table(&preds));
        let expected = kept_by_floats(&preds);
        assert_eq!(state.cache_len, SPKCACHE_LEN);
        assert!(state.compressed);
        for (k, &t) in expected.iter().enumerate() {
            let embedding = &state.cache[k * EMB_DIM..(k + 1) * EMB_DIM];
            if t == n {
                assert_eq!(embedding, &silence[..]);
                assert_eq!(state.cache_preds[k], [0; SPEAKERS]);
            } else {
                assert!(embedding.iter().all(|&x| x == t as f32));
                assert_eq!(rows(&state.cache_preds[k..k + 1])[0], preds[t]);
            }
        }
        // One block per speaker, in order of time, and silence at its end.
        let mut blocks: Vec<&[usize]> = expected.split(|&t| t == n).collect();
        assert_eq!(blocks.pop(), Some(&[][..]));
        assert_eq!(blocks.len(), SPEAKERS);
        assert!(blocks.iter().all(|block| block.windows(2).all(|w| w[0] < w[1])));
    }
}

#[test]
fn a_recording_is_fed_chunk_by_chunk() {
    let total = 2 * CHUNK_LEN * STACK + 20;
    let mut session: Session<f32> = Session::new();
    let silence = vec![0.0f32; EMB_DIM];
    let mut steps = 0;
    let mut fed = 0;
    while let Some(plan) = session.next_chunk(total) {
        let base = session.state.cache_len + session.state.fifo_len;
        let states = base + plan.raw_len.div_ceil(STACK);
        let state_preds: Vec<Row> = vec![[0.75; SPEAKERS]; states];
        let mut highres: Vec<Row> = vec![[0.0; SPEAKERS]; states * STACK];
        // Speaker `steps` talks throughout the step.
        for row in highres[base * STACK..].iter_mut() {
            row[steps] = 1.0;
        }
        let embeddings = embeddings(fed, plan.raw_len.div_ceil(STACK));
        if session.absorb(plan, &bits(&state_preds), &bits(&highres), &embeddings) {
            let table = score_table(&rows(&session.state.cache_preds));
            session.state.compress(&silence, &table);
        }
        assert!(session.state.cache_len <= SPKCACHE_LEN);
        assert!(session.state.fifo_len <= FIFO_LEN);
        fed += plan.core_emb_len;
        steps += 1;
    }
    assert_eq!(steps, 3);
    assert_eq!(session.start, total);
    assert_eq!(session.preds.len(), 2 * CHUNK_LEN * STACK + 24);
    let core_ms = (CHUNK_LEN * STACK * 10) as u64;
    let got = session.finish();
    assert_eq!(got.len(), 3);
    assert_eq!(got[0], Segment { start_ms: 0, end_ms: core_ms, speaker_id: 0 });
    assert_eq!(got[1], Segment { start_ms: core_ms, end_ms: 2 * core_ms, speaker_id: 1 });
    assert_eq!(got[2], Segment { start_ms: 2 * core_ms, end_ms: 2 * core_ms + 240, speaker_id: 2 });
    assert!(session.next_chunk(total).is_none());
}
