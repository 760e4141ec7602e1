//! The WAV file in which a filter is delivered.

use crate::digest::{lemma_samples_bytes_length, samples_bytes, single_bytes};
use crate::provenance::wav_header;
use vstd::prelude::*;

verus! {

/// The highest rate that a file can hold: the bytes of one second are counted in 32 bits.
pub const HIGHEST_RATE: u32 = 0x3fff_ffff;

/// The most samples that a file can hold: its size is counted in 32 bits.
pub const MOST_SAMPLES: usize = 0x3fff_fff0;

/// The number of words before the samples.
pub const HEADER_WORDS: usize = 17;

/// The words of a mono file of singles, low byte first: the `RIFF` header with the size of what
/// follows it, the `fmt ` chunk of an extensible format with 32-bit floating-point samples, and
/// the `data` chunk with the samples.
pub open spec fn wav_words(rate: u32, samples: Seq<u32>) -> Seq<u32> {
    seq![
        0x4646_4952u32,
        (60 + 4 * samples.len()) as u32,
        0x4556_4157u32,
        0x2074_6d66u32,
        40u32,
        0x0001_fffeu32,
        rate,
        (4 * rate) as u32,
        0x0020_0004u32,
        0x0020_0016u32,
        1u32,
        3u32,
        0x0010_0000u32,
        0xaa00_0080u32,
        0x719b_3800u32,
        0x6174_6164u32,
        (4 * samples.len()) as u32,
    ] + samples
}

/// The bytes of a mono file of singles.
pub open spec fn wav_file(rate: u32, samples: Seq<u32>) -> Seq<u8> {
    samples_bytes(wav_words(rate, samples))
}

/// The word that four bytes make, low byte first.
pub open spec fn word(bytes: Seq<u8>) -> u32 {
    (bytes[0] + 0x100 * bytes[1] + 0x1_0000 * bytes[2] + 0x100_0000 * bytes[3]) as u32
}

/// The words that bytes make, four by four.
pub open spec fn words(bytes: Seq<u8>) -> Seq<u32>
    decreases bytes.len(),
{
    if bytes.len() < 4 {
        Seq::empty()
    } else {
        let n = bytes.len() - 4;
        words(bytes.take(n)).push(word(bytes.skip(n)))
    }
}

/// The samples that are read from the `data` chunk of a file.
pub open spec fn wav_samples(file: Seq<u8>) -> Seq<u32> {
    words(file).skip(HEADER_WORDS as int)
}

/// Writes a mono file of singles into memory: `hound::WavWriter::new`, `write_sample` for each
/// sample, and `finalize`. A sample is handed over as the integer with the bits of the single:
/// with 32 bits per sample the writer puts out either as the same four bytes, low byte first.
/// Claimed is that this succeeds, what the file then holds, and that `hound::WavReader` finds one
/// channel in it. The writer refuses only other depths, a number of samples that is no multiple
/// of the channels, and what the place that it writes to refuses; that place is memory here.
#[verifier::external_body]
pub(crate) fn write_mono(samples: &[u32], rate: u32) -> (r: Result<Vec<u8>, String>)
    requires
        0 < rate <= HIGHEST_RATE,
        samples@.len() <= MOST_SAMPLES,
    ensures
        r is Ok,
        r matches Ok(bytes) ==> {
            &&& bytes@ == wav_file(rate, samples@)
            &&& wav_header(bytes@) == Ok::<u16, Seq<char>>(1)
        },
{
    let spec = hound::WavSpec {
        channels: 1,
        sample_rate: rate,
        bits_per_sample: 32,
        sample_format: hound::SampleFormat::Float,
    };
    let mut bytes = std::io::Cursor::new(Vec::new());
    let mut writer =
        hound::WavWriter::new(&mut bytes, spec).map_err(|error| error.to_string())?;
    for sample in samples {
        writer.write_sample(*sample as i32).map_err(|error| error.to_string())?;
    }
    writer.finalize().map_err(|error| error.to_string())?;
    Ok(bytes.into_inner())
}

proof fn lemma_words_are_read_back(list: Seq<u32>)
    ensures
        words(samples_bytes(list)) == list,
    decreases list.len(),
{
    lemma_samples_bytes_length(list);
    if list.len() > 0 {
        let bytes = samples_bytes(list);
        let n = bytes.len() - 4;
        let x = list.last();
        lemma_samples_bytes_length(list.drop_last());
        lemma_words_are_read_back(list.drop_last());
        assert(bytes.take(n) =~= samples_bytes(list.drop_last()));
        assert(bytes.skip(n) =~= single_bytes(x));
        assert(word(single_bytes(x)) == x);
        assert(words(bytes) =~= list);
    } else {
        assert(words(samples_bytes(list)) =~= list);
    }
}

/// What is written is read back: the samples of a file are the ones that it was made from, bit
/// by bit.
pub proof fn law_written_samples_are_read_back(rate: u32, samples: Seq<u32>)
    ensures
        wav_samples(wav_file(rate, samples)) == samples,
{
    lemma_words_are_read_back(wav_words(rate, samples));
    assert(wav_words(rate, samples).skip(HEADER_WORDS as int) =~= samples);
}

} // verus!
