//! The acoustic model: which runtime runs it, and how its answer is read.
//!
//! Whatever runs it, the offline model takes `[1, 80, 2005]` features and
//! gives scores of the shape `[1, T, 1025]`.

use vstd::prelude::*;
use vstd::string::*;

use crate::text::{chars_of, spells};

verus! {

/// How many feature bins a frame has.
pub const INPUT_BINS: usize = 80;

/// How many feature frames the offline model takes.
pub const INPUT_FRAMES: usize = 2005;

/// How many classes a frame is scored for.
pub const VOCAB_SIZE: usize = 1025;

// ---------------------------------------------------------------------------
// Runtimes
// ---------------------------------------------------------------------------

/// The runtime that is asked for.
#[derive(Debug, Clone, Copy, PartialEq, Eq, Structural)]
pub enum Backend {
    /// A graphics processor where there is one, and else the CPU.
    GpuOrCpu,
    /// The CPU.
    Cpu,
    /// Apple's Core ML.
    CoreMl,
}

impl Backend {
    /// What the tract library calls the runtime.
    pub open spec fn runtime_name(self) -> Option<Seq<char>> {
        match self {
            Backend::GpuOrCpu => Some("gpu-or-cpu"@),
            Backend::Cpu => Some("cpu"@),
            Backend::CoreMl => None,
        }
    }

    /// What the tract library calls the runtime. Core ML is none of its
    /// runtimes.
    pub fn tract_runtime_name(self) -> (name: Option<&'static str>)
        ensures
            match self.runtime_name() {
                Some(expected) => name matches Some(n) && n@ == expected,
                None => name is None,
            },
            self is GpuOrCpu ==> (name matches Some(n) && n@ == "gpu-or-cpu"@),
            self is Cpu ==> (name matches Some(n) && n@ == "cpu"@),
            self is CoreMl ==> name is None,
    {
        match self {
            Backend::GpuOrCpu => Some("gpu-or-cpu"),
            Backend::Cpu => Some("cpu"),
            Backend::CoreMl => None,
        }
    }
}

/// What the program was built with.
#[derive(Debug, Clone, Copy, PartialEq, Eq, Structural)]
pub struct Build {
    /// The tract library with its choice of runtimes.
    pub tract_runtime: bool,
    /// The tract library for the CPU alone.
    pub cpu_only: bool,
    /// Core ML.
    pub coreml: bool,
}

/// What runs the offline model.
#[derive(Debug, Clone, Copy, PartialEq, Eq, Structural)]
pub enum Runner {
    /// Tract, with the runtime for this backend.
    Tract(Backend),
    /// Tract on the CPU, without a choice of runtimes.
    DirectCpu,
    /// Core ML.
    CoreMl,
}

/// Why nothing runs the offline model.
#[derive(Debug, Clone, Copy, PartialEq, Eq, Structural)]
pub enum LoadError {
    NeedsTract,
    NeedsCpu,
    NeedsCoreMl,
}

/// What runs the offline model.
pub open spec fn runner_of(backend: Backend, build: Build) -> Result<Runner, LoadError> {
    match backend {
        Backend::GpuOrCpu => if build.tract_runtime {
            Ok(Runner::Tract(Backend::GpuOrCpu))
        } else {
            Err(LoadError::NeedsTract)
        },
        Backend::Cpu => if build.cpu_only {
            Ok(Runner::DirectCpu)
        } else if build.tract_runtime {
            Ok(Runner::Tract(Backend::Cpu))
        } else {
            Err(LoadError::NeedsCpu)
        },
        Backend::CoreMl => if build.coreml {
            Ok(Runner::CoreMl)
        } else {
            Err(LoadError::NeedsCoreMl)
        },
    }
}

/// What runs the offline model on a backend, of what the program was built
/// with.
pub fn choose_runner(backend: Backend, build: Build) -> (r: Result<Runner, LoadError>)
    ensures
        r == runner_of(backend, build),
        backend is GpuOrCpu ==> r == (if build.tract_runtime {
            Ok::<Runner, LoadError>(Runner::Tract(Backend::GpuOrCpu))
        } else {
            Err::<Runner, LoadError>(LoadError::NeedsTract)
        }),
        backend is Cpu && build.cpu_only ==> r == Ok::<Runner, LoadError>(Runner::DirectCpu),
        backend is Cpu && !build.cpu_only ==> r == (if build.tract_runtime {
            Ok::<Runner, LoadError>(Runner::Tract(Backend::Cpu))
        } else {
            Err::<Runner, LoadError>(LoadError::NeedsCpu)
        }),
        backend is CoreMl ==> r == (if build.coreml {
            Ok::<Runner, LoadError>(Runner::CoreMl)
        } else {
            Err::<Runner, LoadError>(LoadError::NeedsCoreMl)
        }),
{
    match backend {
        Backend::GpuOrCpu => if build.tract_runtime {
            Ok(Runner::Tract(Backend::GpuOrCpu))
        } else {
            Err(LoadError::NeedsTract)
        },
        Backend::Cpu => if build.cpu_only {
            Ok(Runner::DirectCpu)
        } else if build.tract_runtime {
            Ok(Runner::Tract(Backend::Cpu))
        } else {
            Err(LoadError::NeedsCpu)
        },
        Backend::CoreMl => if build.coreml {
            Ok(Runner::CoreMl)
        } else {
            Err(LoadError::NeedsCoreMl)
        },
    }
}

impl LoadError {
    /// What the user is told.
    pub fn message(&self) -> (text: &'static str)
        ensures
            text@ == (match self {
                LoadError::NeedsTract => "gpu-or-cpu requires the `tract-runtime` Cargo feature"@,
                LoadError::NeedsCpu => "CPU inference requires `tract-runtime` or `cpu-only`"@,
                LoadError::NeedsCoreMl =>
                    "CoreML requires an Apple target and a build made with `--features coreml`"@,
            }),
    {
        match self {
            LoadError::NeedsTract => "gpu-or-cpu requires the `tract-runtime` Cargo feature",
            LoadError::NeedsCpu => "CPU inference requires `tract-runtime` or `cpu-only`",
            LoadError::NeedsCoreMl =>
                "CoreML requires an Apple target and a build made with `--features coreml`",
        }
    }
}

impl Runner {
    /// What responses call the backend.
    pub open spec fn title(self) -> Seq<char> {
        match self {
            Runner::Tract(Backend::GpuOrCpu) => "gpu-or-cpu"@,
            Runner::Tract(Backend::Cpu) => "cpu"@,
            Runner::DirectCpu => "cpu"@,
            Runner::CoreMl | Runner::Tract(Backend::CoreMl) => "coreml"@,
        }
    }

    /// What responses call the backend.
    pub fn name(&self) -> (text: &'static str)
        ensures
            text@ == self.title(),
            self matches Runner::Tract(backend) && backend is GpuOrCpu ==> text@ == "gpu-or-cpu"@,
            self matches Runner::Tract(backend) && backend is Cpu ==> text@ == "cpu"@,
            self is DirectCpu ==> text@ == "cpu"@,
            self is CoreMl ==> text@ == "coreml"@,
    {
        match self {
            Runner::Tract(Backend::GpuOrCpu) => "gpu-or-cpu",
            Runner::Tract(Backend::Cpu) => "cpu",
            Runner::DirectCpu => "cpu",
            Runner::CoreMl => "coreml",
            Runner::Tract(Backend::CoreMl) => "coreml",
        }
    }
}

/// Asking for the CPU gets the CPU, whatever the program was built with.
pub proof fn cpu_requests_run_on_the_cpu(build: Build)
    ensures
        runner_of(Backend::Cpu, build) is Ok <==> build.cpu_only || build.tract_runtime,
        runner_of(Backend::Cpu, build) matches Ok(runner) ==> runner.title() == "cpu"@,
{
}

/// Tract is never asked for a runtime that it does not have.
pub proof fn tract_runners_have_a_runtime(backend: Backend, build: Build)
    ensures
        runner_of(backend, build) matches Ok(Runner::Tract(runtime)) ==> runtime.runtime_name()
            is Some,
{
}

// ---------------------------------------------------------------------------
// Answers
// ---------------------------------------------------------------------------

/// Why a model's answer cannot be used.
#[derive(Debug, Clone, Copy, PartialEq, Eq, Structural)]
pub enum AnswerError {
    /// The scores have this many dimensions.
    Rank(usize),
    /// The first dimension of the scores is this one.
    Batch(usize),
    /// A frame has this many scores.
    Vocabulary(usize),
}

/// How many frames are announced as valid to the offline model.
pub fn input_length(frames: usize) -> (n: usize)
    ensures
        n == if frames < INPUT_FRAMES {
            frames
        } else {
            INPUT_FRAMES
        },
        frames <= 2005 ==> n == frames,
        frames > 2005 ==> n == 2005,
{
    if frames < INPUT_FRAMES {
        frames
    } else {
        INPUT_FRAMES
    }
}

/// How many of `given` frames are valid where the model announces so many. All
/// are, where it announces none, more than there are or a negative number.
pub open spec fn valid_or_all(announced: Option<i64>, given: usize) -> usize {
    match announced {
        Some(n) => if 0 <= n < given {
            n as usize
        } else {
            given
        },
        None => given,
    }
}

/// How many of `given` frames are valid where the model announces so many. None
/// are, where it announces a negative number; all are, where it announces more
/// than there are or nothing.
pub open spec fn valid_or_none(announced: Option<i64>, given: usize) -> usize {
    match announced {
        Some(n) => if n < 0 {
            0
        } else if n < given {
            n as usize
        } else {
            given
        },
        None => given,
    }
}

/// The first `rows` frames of scores that stand one behind the other.
pub fn score_rows<T: Copy>(flat: &Vec<T>, rows: usize) -> (out: Vec<Vec<T>>)
    requires
        rows * VOCAB_SIZE <= flat@.len(),
    ensures
        out@.len() == rows,
        forall|t: int|
            0 <= t < rows ==> (#[trigger] out@[t])@ == flat@.subrange(
                t * VOCAB_SIZE,
                (t + 1) * VOCAB_SIZE,
            ),
{
    let mut out: Vec<Vec<T>> = Vec::new();
    let mut t: usize = 0;
    assert(flat@.len() == flat.len());
    while t < rows
        invariant
            rows * VOCAB_SIZE <= flat.len(),
            t <= rows,
            out@.len() == t,
            forall|u: int|
                0 <= u < t ==> (#[trigger] out@[u])@ == flat@.subrange(
                    u * VOCAB_SIZE,
                    (u + 1) * VOCAB_SIZE,
                ),
        decreases rows - t,
    {
        let mut row: Vec<T> = Vec::new();
        let mut v: usize = 0;
        while v < VOCAB_SIZE
            invariant
                rows * VOCAB_SIZE <= flat.len(),
                t < rows,
                v <= VOCAB_SIZE,
                row@ == flat@.subrange(t * VOCAB_SIZE, t * VOCAB_SIZE + v),
            decreases VOCAB_SIZE - v,
        {
            row.push(flat[t * VOCAB_SIZE + v]);
            v += 1;
        }
        out.push(row);
        t += 1;
    }
    out
}

/// The scores of the offline model on tract: of all the frames that it gives,
/// those that are valid. `shape` is the shape of what it gives.
pub fn read_scores<T: Copy>(flat: &Vec<T>, shape: &Vec<usize>, announced: Option<i64>) -> (r: Result<
    Vec<Vec<T>>,
    AnswerError,
>)
    requires
        shape@.len() == 3 && shape@[2] == VOCAB_SIZE ==> shape@[1] * VOCAB_SIZE <= flat@.len(),
    ensures
        if shape@.len() != 3 {
            r matches Err(e) && e == AnswerError::Rank(shape.len())
        } else if shape@[2] != VOCAB_SIZE {
            r matches Err(e) && e == AnswerError::Vocabulary(shape@[2])
        } else {
            &&& r matches Ok(rows)
            &&& rows@.len() == valid_or_all(announced, shape@[1])
            &&& forall|t: int|
                0 <= t < rows@.len() ==> (#[trigger] rows@[t])@ == flat@.subrange(
                    t * VOCAB_SIZE,
                    (t + 1) * VOCAB_SIZE,
                )
        },
{
    if shape.len() != 3 {
        return Err(AnswerError::Rank(shape.len()));
    }
    if shape[2] != VOCAB_SIZE {
        return Err(AnswerError::Vocabulary(shape[2]));
    }
    let given: usize = shape[1];
    let valid: usize = match announced {
        Some(n) => if n >= 0 && (n as u64) < given as u64 {
            n as usize
        } else {
            given
        },
        None => given,
    };
    Ok(score_rows(flat, valid))
}

/// The scores of a model that announces how many frames are valid: Core ML, and
/// the streaming model. `shape` is the shape of what it gives.
pub fn read_batch_scores<T: Copy>(flat: &Vec<T>, shape: &Vec<usize>, announced: Option<i64>) -> (r: Result<
    Vec<Vec<T>>,
    AnswerError,
>)
    requires
        shape@.len() == 3 && shape@[2] == VOCAB_SIZE ==> shape@[1] * VOCAB_SIZE <= flat@.len(),
    ensures
        if shape@.len() != 3 {
            r matches Err(e) && e == AnswerError::Rank(shape.len())
        } else if shape@[0] != 1 {
            r matches Err(e) && e == AnswerError::Batch(shape@[0])
        } else if shape@[2] != VOCAB_SIZE {
            r matches Err(e) && e == AnswerError::Vocabulary(shape@[2])
        } else {
            &&& r matches Ok(rows)
            &&& rows@.len() == valid_or_none(announced, shape@[1])
            &&& forall|t: int|
                0 <= t < rows@.len() ==> (#[trigger] rows@[t])@ == flat@.subrange(
                    t * VOCAB_SIZE,
                    (t + 1) * VOCAB_SIZE,
                )
        },
{
    if shape.len() != 3 {
        return Err(AnswerError::Rank(shape.len()));
    }
    if shape[0] != 1 {
        return Err(AnswerError::Batch(shape[0]));
    }
    if shape[2] != VOCAB_SIZE {
        return Err(AnswerError::Vocabulary(shape[2]));
    }
    let given: usize = shape[1];
    let valid: usize = match announced {
        Some(n) => if n < 0 {
            0
        } else if (n as u64) < given as u64 {
            n as usize
        } else {
            given
        },
        None => given,
    };
    Ok(score_rows(flat, valid))
}

// ---------------------------------------------------------------------------
// Core ML
// ---------------------------------------------------------------------------

/// An input or an output of a Core ML model.
pub struct Feature {
    pub name: String,
    pub shape: Option<Vec<usize>>,
}

/// Why a Core ML model cannot be used.
#[derive(Debug, Clone, Copy, PartialEq, Eq, Structural)]
pub enum ContractError {
    NoSignal,
    SignalShape,
    NoSignalLength,
    NoLogits,
    LogitsShape,
    NoEncodedLengths,
}

/// Feature `i` is the first that has the name.
pub open spec fn is_first_named(features: Seq<Feature>, name: Seq<char>, i: int) -> bool {
    &&& 0 <= i < features.len()
    &&& features[i].name@ == name
    &&& forall|j: int| 0 <= j < i ==> (#[trigger] features[j]).name@ != name
}

/// Some feature has the name.
pub open spec fn has_named(features: Seq<Feature>, name: Seq<char>) -> bool {
    exists|i: int| 0 <= i < features.len() && (#[trigger] features[i]).name@ == name
}

/// The position of the first feature that has the name.
pub fn find_coreml_feature(features: &Vec<Feature>, name: &str) -> (at: Option<usize>)
    ensures
        match at {
            Some(i) => is_first_named(features@, name@, i as int),
            None => !has_named(features@, name@),
        },
{
    let mut i: usize = 0;
    while i < features.len()
        invariant
            i <= features.len(),
            forall|j: int| 0 <= j < i ==> (#[trigger] features@[j]).name@ != name@,
        decreases features.len() - i,
    {
        if spells(&chars_of(features[i].name.as_str()), name) {
            return Some(i);
        }
        i += 1;
    }
    None
}

/// The shape of the features that the offline model takes.
pub open spec fn is_signal_shape(shape: Option<Vec<usize>>) -> bool {
    match shape {
        Some(dims) => dims@.len() == 3 && dims@[0] == 1 && dims@[1] == INPUT_BINS && dims@[2]
            == INPUT_FRAMES,
        None => false,
    }
}

/// A shape of the scores that the offline model gives.
pub open spec fn is_logits_shape(shape: Option<Vec<usize>>) -> bool {
    match shape {
        Some(dims) => dims@.len() == 3 && dims@[0] == 1 && dims@[2] == VOCAB_SIZE,
        None => false,
    }
}

/// What is wrong with a model of these inputs and outputs, where something is.
pub open spec fn contract_error(inputs: Seq<Feature>, outputs: Seq<Feature>) -> Option<ContractError> {
    let signal = choose|i: int| is_first_named(inputs, "processed_signal"@, i);
    let logits = choose|i: int| is_first_named(outputs, "logits"@, i);
    if !has_named(inputs, "processed_signal"@) {
        Some(ContractError::NoSignal)
    } else if !is_signal_shape(inputs[signal].shape) {
        Some(ContractError::SignalShape)
    } else if !has_named(inputs, "processed_signal_length"@) {
        Some(ContractError::NoSignalLength)
    } else if !has_named(outputs, "logits"@) {
        Some(ContractError::NoLogits)
    } else if !is_logits_shape(outputs[logits].shape) {
        Some(ContractError::LogitsShape)
    } else if !has_named(outputs, "encoded_lengths"@) {
        Some(ContractError::NoEncodedLengths)
    } else {
        None
    }
}

/// Checks that a Core ML model takes the features and gives the scores that it
/// is to.
pub fn validate_coreml_contract(inputs: &Vec<Feature>, outputs: &Vec<Feature>) -> (r: Result<
    (),
    ContractError,
>)
    ensures
        match contract_error(inputs@, outputs@) {
            Some(reason) => r matches Err(e) && e == reason,
            None => r is Ok,
        },
{
    let ghost signal_at = choose|i: int| is_first_named(inputs@, "processed_signal"@, i);
    let ghost logits_at = choose|i: int| is_first_named(outputs@, "logits"@, i);
    let signal: usize = match find_coreml_feature(inputs, "processed_signal") {
        Some(i) => i,
        None => return Err(ContractError::NoSignal),
    };
    proof {
        first_named_is_unique(inputs@, "processed_signal"@, signal as int, signal_at);
    }
    let fits: bool = match &inputs[signal].shape {
        Some(dims) => dims.len() == 3 && dims[0] == 1 && dims[1] == INPUT_BINS && dims[2]
            == INPUT_FRAMES,
        None => false,
    };
    if !fits {
        return Err(ContractError::SignalShape);
    }
    match find_coreml_feature(inputs, "processed_signal_length") {
        Some(_) => {},
        None => return Err(ContractError::NoSignalLength),
    }
    let logits: usize = match find_coreml_feature(outputs, "logits") {
        Some(i) => i,
        None => return Err(ContractError::NoLogits),
    };
    proof {
        first_named_is_unique(outputs@, "logits"@, logits as int, logits_at);
    }
    let fits: bool = match &outputs[logits].shape {
        Some(dims) => dims.len() == 3 && dims[0] == 1 && dims[2] == VOCAB_SIZE,
        None => false,
    };
    if !fits {
        return Err(ContractError::LogitsShape);
    }
    match find_coreml_feature(outputs, "encoded_lengths") {
        Some(_) => Ok(()),
        None => Err(ContractError::NoEncodedLengths),
    }
}

proof fn first_named_is_unique(features: Seq<Feature>, name: Seq<char>, a: int, b: int)
    requires
        is_first_named(features, name, a),
        b == (choose|i: int| is_first_named(features, name, i)),
    ensures
        a == b,
        has_named(features, name),
{
    assert(is_first_named(features, name, b));
    if a < b {
        assert(features[a].name@ != name);
    } else if b < a {
        assert(features[b].name@ != name);
    }
}

/// Whether a Core ML model is compiled already: its path ends in `.mlmodelc`.
pub fn is_compiled(extension: Option<&str>) -> (b: bool)
    ensures
        b == (match extension {
            Some(e) => e@ == "mlmodelc"@,
            None => false,
        }),
{
    match extension {
        Some(e) => spells(&chars_of(e), "mlmodelc"),
        None => false,
    }
}

/// The shapes that the offline model takes and gives.
pub proof fn offline_model_has_its_shape()
    ensures
        INPUT_BINS == 80,
        INPUT_FRAMES == 2005,
        VOCAB_SIZE == 1025,
{
}

/// As many frames are valid as are announced, where there are so many. Of a
/// negative number one reading takes all frames and the other none.
pub proof fn announced_frames_are_valid(announced: i64, given: usize)
    ensures
        0 <= announced <= given ==> valid_or_all(Some(announced), given) == announced && valid_or_none(
            Some(announced),
            given,
        ) == announced,
        announced > given ==> valid_or_all(Some(announced), given) == given && valid_or_none(
            Some(announced),
            given,
        ) == given,
        announced < 0 ==> valid_or_all(Some(announced), given) == given && valid_or_none(
            Some(announced),
            given,
        ) == 0,
        valid_or_all(None, given) == given,
        valid_or_none(None, given) == given,
{
}

/// The first feature of a name is the one that has no other of that name before
/// it, and there is one where any feature has the name.
pub proof fn first_feature_is_found(features: Seq<Feature>, name: Seq<char>, i: int)
    requires
        0 <= i < features.len(),
    ensures
        is_first_named(features, name, i) <==> features[i].name@ == name && forall|j: int|
            0 <= j < i ==> (#[trigger] features[j]).name@ != name,
        features[i].name@ == name ==> has_named(features, name),
        (forall|j: int| 0 <= j < features.len() ==> (#[trigger] features[j]).name@ != name)
            ==> !has_named(features, name),
{
}

/// A Core ML model is accepted exactly where it has the four features by name,
/// takes `[1, 80, 2005]` features and gives `[1, T, 1025]` scores.
pub proof fn accepted_models_have_their_features(
    inputs: Seq<Feature>,
    outputs: Seq<Feature>,
    signal: int,
    logits: int,
)
    requires
        is_first_named(inputs, "processed_signal"@, signal),
        is_first_named(outputs, "logits"@, logits),
    ensures
        contract_error(inputs, outputs) is None <==> {
            &&& inputs[signal].shape matches Some(takes)
            &&& takes@.len() == 3 && takes@[0] == 1 && takes@[1] == 80 && takes@[2] == 2005
            &&& outputs[logits].shape matches Some(gives)
            &&& gives@.len() == 3 && gives@[0] == 1 && gives@[2] == 1025
            &&& exists|i: int|
                0 <= i < inputs.len() && (#[trigger] inputs[i]).name@ == "processed_signal_length"@
            &&& exists|i: int|
                0 <= i < outputs.len() && (#[trigger] outputs[i]).name@ == "encoded_lengths"@
        },
{
    first_named_is_unique(
        inputs,
        "processed_signal"@,
        signal,
        choose|i: int| is_first_named(inputs, "processed_signal"@, i),
    );
    first_named_is_unique(
        outputs,
        "logits"@,
        logits,
        choose|i: int| is_first_named(outputs, "logits"@, i),
    );
}

/// A Core ML model without its features or without its scores is refused for
/// that.
pub proof fn models_without_features_are_refused(inputs: Seq<Feature>, outputs: Seq<Feature>)
    ensures
        (forall|i: int| 0 <= i < inputs.len() ==> (#[trigger] inputs[i]).name@ != "processed_signal"@)
            ==> contract_error(inputs, outputs) == Some(ContractError::NoSignal),
        (forall|i: int| 0 <= i < outputs.len() ==> (#[trigger] outputs[i]).name@ != "logits"@)
            ==> contract_error(inputs, outputs) is Some,
{
}

} // verus!
