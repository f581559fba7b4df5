//! WAV audio, as the `hound` crate reads it.

use vstd::arithmetic::power2::pow2;
use vstd::prelude::*;

verus! {

/// Why bytes are no WAV audio.
#[verifier::external_type_specification]
#[verifier::external_body]
pub struct ExternalError(hound::Error);

/// How WAV audio is stored.
#[derive(Debug, Clone, Copy, PartialEq, Eq, Structural)]
pub struct WavHeader {
    pub channels: u16,
    pub sample_rate: u32,
    pub bits_per_sample: u16,
    /// The samples are floating-point numbers.
    pub float: bool,
}

/// How `hound` reads that WAV audio is stored, or `None` where it refuses the
/// bytes.
pub uninterp spec fn wav_header(bytes: Seq<u8>) -> Option<WavHeader>;

/// The samples that `hound` reads of integer WAV audio, the channels of each
/// frame one behind the other, or `None` where it refuses the bytes or one of
/// the samples.
pub uninterp spec fn wav_samples(bytes: Seq<u8>) -> Option<Seq<i32>>;

/// `hound::WavReader::new` and `spec`: reads the header of WAV audio. Audio
/// without channels or with samples of no bits is refused.
#[verifier::external_body]
pub(crate) fn read_header(bytes: &[u8]) -> (r: Result<WavHeader, hound::Error>)
    ensures
        match r {
            Ok(header) => {
                &&& wav_header(bytes@) == Some(header)
                &&& header.channels > 0
                &&& header.bits_per_sample > 0
            },
            Err(_) => wav_header(bytes@) is None,
        },
{
    let spec = hound::WavReader::new(bytes)?.spec();
    Ok(WavHeader {
        channels: spec.channels,
        sample_rate: spec.sample_rate,
        bits_per_sample: spec.bits_per_sample,
        float: match spec.sample_format {
            hound::SampleFormat::Float => true,
            hound::SampleFormat::Int => false,
        },
    })
}

/// `hound::WavReader::into_samples` for `i32`: reads the samples of integer WAV
/// audio. There are as many for each channel.
#[verifier::external_body]
pub(crate) fn read_samples(bytes: &[u8]) -> (r: Result<Vec<i32>, hound::Error>)
    ensures
        match r {
            Ok(samples) => {
                &&& wav_samples(bytes@) == Some(samples@)
                &&& wav_header(bytes@) matches Some(header)
                &&& samples@.len() % (header.channels as nat) == 0
            },
            Err(_) => wav_samples(bytes@) is None,
        },
{
    hound::WavReader::new(bytes)?.into_samples::<i32>().collect()
}

/// The samples of WAV audio.
pub enum Samples {
    /// Integers of so many bits.
    Integers(u16, Vec<i32>),
    /// Floating-point numbers, which are read elsewhere.
    Floats,
}

/// WAV audio.
pub struct Wav {
    pub sample_rate: u32,
    pub channels: u16,
    pub samples: Samples,
}

/// Why WAV audio cannot be used.
#[derive(Debug)]
pub enum WavError {
    /// The bytes are no WAV audio.
    Format(hound::Error),
    /// Its samples have so many bits.
    UnsupportedBits(u16),
    /// It has no samples per second.
    ZeroRate,
}

/// Samples that can be used: integers of 8 to 32 bits, or floating-point
/// numbers of 32 bits.
pub open spec fn is_supported(header: WavHeader) -> bool {
    if header.float {
        header.bits_per_sample == 32
    } else {
        8 <= header.bits_per_sample <= 32
    }
}

/// Checks that audio can be used that is stored as `header` says: its samples
/// are of a kind that can be read, and it has a sample rate.
pub fn check_header(header: WavHeader) -> (r: Result<(), WavError>)
    ensures
        if !is_supported(header) {
            r matches Err(WavError::UnsupportedBits(bits)) && bits == header.bits_per_sample
        } else if header.sample_rate == 0 {
            r matches Err(WavError::ZeroRate)
        } else {
            r is Ok
        },
        r is Ok <==> header.sample_rate > 0 && (if header.float {
            header.bits_per_sample == 32
        } else {
            8 <= header.bits_per_sample <= 32
        }),
{
    let supported: bool = if header.float {
        header.bits_per_sample == 32
    } else {
        8 <= header.bits_per_sample && header.bits_per_sample <= 32
    };
    if !supported {
        Err(WavError::UnsupportedBits(header.bits_per_sample))
    } else if header.sample_rate == 0 {
        Err(WavError::ZeroRate)
    } else {
        Ok(())
    }
}

/// Reads WAV audio: integers of 8 to 32 bits, with the channels of each frame
/// one behind the other, or the fact that it has floating-point samples.
pub fn read_wav_bytes(bytes: &[u8]) -> (r: Result<Wav, WavError>)
    ensures
        match wav_header(bytes@) {
            None => r matches Err(WavError::Format(_)),
            Some(header) => if !is_supported(header) {
                r matches Err(WavError::UnsupportedBits(bits)) && bits == header.bits_per_sample
            } else if header.sample_rate == 0 {
                r matches Err(WavError::ZeroRate)
            } else if header.float {
                &&& r matches Ok(wav)
                &&& wav.sample_rate == header.sample_rate
                &&& wav.channels == header.channels
                &&& wav.channels > 0
                &&& wav.samples is Floats
            } else {
                match wav_samples(bytes@) {
                    None => r matches Err(WavError::Format(_)),
                    Some(values) => {
                        &&& r matches Ok(wav)
                        &&& wav.sample_rate == header.sample_rate
                        &&& wav.channels == header.channels
                        &&& wav.channels > 0
                        &&& wav.samples matches Samples::Integers(bits, list)
                        &&& bits == header.bits_per_sample
                        &&& list@ == values
                        &&& list@.len() % (wav.channels as nat) == 0
                    },
                }
            },
        },
        wav_header(bytes@) matches Some(header) ==> {
            let readable = if header.float {
                header.bits_per_sample == 32
            } else {
                8 <= header.bits_per_sample <= 32 && wav_samples(bytes@) is Some
            };
            r is Ok <==> readable && header.sample_rate > 0
        },
{
    let header = match read_header(bytes) {
        Ok(header) => header,
        Err(error) => return Err(WavError::Format(error)),
    };
    match check_header(header) {
        Ok(_) => {},
        Err(error) => return Err(error),
    }
    let samples = if header.float {
        Samples::Floats
    } else {
        match read_samples(bytes) {
            Ok(values) => Samples::Integers(header.bits_per_sample, values),
            Err(error) => return Err(WavError::Format(error)),
        }
    };
    Ok(Wav { sample_rate: header.sample_rate, channels: header.channels, samples })
}

/// By what integer samples of so many bits are divided to lie between -1 and 1.
pub fn full_scale(bits: u16) -> (scale: u32)
    requires
        1 <= bits <= 32,
    ensures
        scale == pow2((bits - 1) as nat),
{
    let mut scale: u32 = 1;
    let mut i: u16 = 1;
    proof {
        vstd::arithmetic::power2::lemma2_to64();
    }
    while i < bits
        invariant
            1 <= i <= bits <= 32,
            scale == pow2((i - 1) as nat),
            pow2(31) == 0x8000_0000,
        decreases bits - i,
    {
        proof {
            vstd::arithmetic::power2::lemma_pow2_unfold(i as nat);
            if i < 31 {
                vstd::arithmetic::power2::lemma_pow2_strictly_increases(i as nat, 31);
            }
        }
        scale = scale * 2;
        i += 1;
    }
    scale
}

} // verus!
