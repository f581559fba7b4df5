use shenava_asr_server::model::{
    choose_runner, find_coreml_feature, input_length, is_compiled, read_batch_scores, read_scores,
    score_rows, validate_coreml_contract, AnswerError, Backend, Build, ContractError, Feature,
    LoadError, Runner, VOCAB_SIZE,
};

const FULL: Build = Build { tract_runtime: true, cpu_only: true, coreml: true };

const BARE: Build = Build { tract_runtime: false, cpu_only: false, coreml: false };

#[test]
fn backends_get_the_runner_that_is_built_in() {
    let tract = Build { tract_runtime: true, ..BARE };
    let gpu = Backend::GpuOrCpu;
    assert_eq!(choose_runner(gpu, tract), Ok(Runner::Tract(gpu)));
    assert_eq!(choose_runner(gpu, BARE), Err(LoadError::NeedsTract));
    assert_eq!(choose_runner(Backend::Cpu, FULL), Ok(Runner::DirectCpu));
    assert_eq!(choose_runner(Backend::Cpu, tract), Ok(Runner::Tract(Backend::Cpu)));
    assert_eq!(choose_runner(Backend::Cpu, BARE), Err(LoadError::NeedsCpu));
    assert_eq!(choose_runner(Backend::CoreMl, FULL), Ok(Runner::CoreMl));
    assert_eq!(choose_runner(Backend::CoreMl, tract), Err(LoadError::NeedsCoreMl));
}

#[test]
fn runners_and_errors_have_names() {
    assert_eq!(Backend::GpuOrCpu.tract_runtime_name(), Some("gpu-or-cpu"));
    assert_eq!(Backend::Cpu.tract_runtime_name(), Some("cpu"));
    assert_eq!(Backend::CoreMl.tract_runtime_name(), None);
    assert_eq!(Runner::Tract(Backend::GpuOrCpu).name(), "gpu-or-cpu");
    assert_eq!(Runner::Tract(Backend::Cpu).name(), "cpu");
    assert_eq!(Runner::DirectCpu.name(), "cpu");
    assert_eq!(Runner::CoreMl.name(), "coreml");
    assert_eq!(
        LoadError::NeedsTract.message(),
        "gpu-or-cpu requires the `tract-runtime` Cargo feature"
    );
    assert_eq!(
        LoadError::NeedsCpu.message(),
        "CPU inference requires `tract-runtime` or `cpu-only`"
    );
    assert_eq!(
        LoadError::NeedsCoreMl.message(),
        "CoreML requires an Apple target and a build made with `--features coreml`"
    );
}

fn flat(rows: usize) -> Vec<u32> {
    (0..(rows * VOCAB_SIZE) as u32).collect()
}

#[test]
fn scores_are_cut_to_the_valid_frames() {
    let shape = vec![1, 3, VOCAB_SIZE];
    let count = |announced| read_scores(&flat(3), &shape, announced).unwrap().len();
    assert_eq!(count(None), 3);
    assert_eq!(count(Some(2)), 2);
    assert_eq!(count(Some(9)), 3);
    assert_eq!(count(Some(0)), 0);
    assert_eq!(count(Some(-1)), 3);
    let rows = read_scores(&flat(3), &shape, Some(2)).unwrap();
    assert_eq!(rows[1], flat(2)[VOCAB_SIZE..]);
    assert_eq!(
        read_scores(&flat(1), &vec![1, VOCAB_SIZE], None),
        Err(AnswerError::Rank(2))
    );
    assert_eq!(
        read_scores(&flat(1), &vec![1, 3, 7], None),
        Err(AnswerError::Vocabulary(7))
    );
    assert_eq!(score_rows(&flat(2), 1), vec![flat(1)]);
}

#[test]
fn batches_of_one_are_cut_to_the_valid_frames() {
    let shape = vec![1, 3, VOCAB_SIZE];
    let count = |announced| read_batch_scores(&flat(3), &shape, announced).unwrap().len();
    assert_eq!(count(None), 3);
    assert_eq!(count(Some(2)), 2);
    assert_eq!(count(Some(9)), 3);
    assert_eq!(count(Some(-1)), 0);
    assert_eq!(
        read_batch_scores(&flat(6), &vec![2, 3, VOCAB_SIZE], None),
        Err(AnswerError::Batch(2))
    );
    assert_eq!(
        read_batch_scores(&flat(1), &vec![1, 3, 7], None),
        Err(AnswerError::Vocabulary(7))
    );
    assert_eq!(read_batch_scores(&flat(1), &vec![], None), Err(AnswerError::Rank(0)));
}

#[test]
fn no_more_frames_are_announced_than_fit() {
    assert_eq!(input_length(7), 7);
    assert_eq!(input_length(2005), 2005);
    assert_eq!(input_length(9999), 2005);
}

fn feature(name: &str, shape: Option<&[usize]>) -> Feature {
    Feature { name: name.into(), shape: shape.map(|s| s.to_vec()) }
}

#[test]
fn core_ml_models_are_checked_in_order() {
    let signal = || feature("processed_signal", Some(&[1, 80, 2005]));
    let length = || feature("processed_signal_length", Some(&[1]));
    let logits = || feature("logits", Some(&[1, 252, 1025]));
    let lengths = || feature("encoded_lengths", None);
    let check = |i: Vec<Feature>, o: Vec<Feature>| validate_coreml_contract(&i, &o);
    assert_eq!(check(vec![signal(), length()], vec![lengths(), logits()]), Ok(()));
    assert_eq!(check(vec![length()], vec![]), Err(ContractError::NoSignal));
    assert_eq!(
        check(vec![feature("processed_signal", Some(&[1, 80, 2004])), signal()], vec![]),
        Err(ContractError::SignalShape)
    );
    assert_eq!(
        check(vec![feature("processed_signal", None)], vec![]),
        Err(ContractError::SignalShape)
    );
    assert_eq!(check(vec![signal()], vec![logits()]), Err(ContractError::NoSignalLength));
    assert_eq!(check(vec![signal(), length()], vec![lengths()]), Err(ContractError::NoLogits));
    assert_eq!(
        check(vec![signal(), length()], vec![feature("logits", Some(&[2, 252, 1025]))]),
        Err(ContractError::LogitsShape)
    );
    assert_eq!(
        check(vec![signal(), length()], vec![logits()]),
        Err(ContractError::NoEncodedLengths)
    );
    assert_eq!(find_coreml_feature(&vec![length(), signal()], "processed_signal"), Some(1));
    assert_eq!(find_coreml_feature(&vec![length()], "logits"), None);
}

#[test]
fn compiled_models_have_their_own_extension() {
    assert!(is_compiled(Some("mlmodelc")));
    assert!(!is_compiled(Some("mlpackage")));
    assert!(!is_compiled(None));
}
