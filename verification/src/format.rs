//! Stream formats: what a mix format header says, and whether the engine
//! can move its samples.

use vstd::prelude::*;
use vstd::string::*;

use crate::types::Error;

verus! {

/// How one sample is stored.
#[derive(Debug, Clone, Copy, PartialEq, Eq, Structural)]
pub enum SampleFormat {
    F32,
    I16,
    I32,
}

/// A stream format the engine can convert: interleaved frames of
/// `channels` samples, `frame_bytes` bytes each, `rate` frames a second.
#[derive(Debug, Clone, Copy, PartialEq, Eq, Structural)]
pub struct Format {
    pub rate: u32,
    pub channels: usize,
    pub sample: SampleFormat,
    pub frame_bytes: usize,
}

/// The fields of a `WAVEFORMATEX` header, and the sub-format GUID (as a
/// big-endian `u128`) of a `WAVEFORMATEXTENSIBLE`, which is read only when
/// the tag says the header is extensible.
#[derive(Debug, Clone, Copy, PartialEq, Eq, Structural)]
pub struct WaveFormat {
    pub format_tag: u16,
    pub channels: u16,
    pub samples_per_sec: u32,
    pub block_align: u16,
    pub bits_per_sample: u16,
    pub sub_format: u128,
}

pub const WAVE_FORMAT_PCM: u32 = 1;
pub const WAVE_FORMAT_IEEE_FLOAT: u32 = 3;
pub const WAVE_FORMAT_EXTENSIBLE: u32 = 0xFFFE;
/// `KSDATAFORMAT_SUBTYPE_PCM`, {00000001-0000-0010-8000-00aa00389b71}.
pub const SUBTYPE_PCM: u128 = 0x00000001_0000_0010_8000_00aa00389b71;
/// `KSDATAFORMAT_SUBTYPE_IEEE_FLOAT`, {00000003-0000-0010-8000-00aa00389b71}.
pub const SUBTYPE_IEEE_FLOAT: u128 = 0x00000003_0000_0010_8000_00aa00389b71;

/// The character of the decimal digit `d`.
pub open spec fn digit_char(d: int) -> char {
    (d + ('0' as int)) as char
}

/// The decimal numeral of `n`, without leading zeros.
pub open spec fn decimal_text(n: nat) -> Seq<char>
    decreases n,
{
    if n < 10 {
        seq![digit_char(n as int)]
    } else {
        decimal_text(n / 10).push(digit_char((n % 10) as int))
    }
}

fn digit_str(d: u64) -> (s: &'static str)
    requires
        d < 10,
    ensures
        s@ == seq![digit_char(d as int)],
{
    proof {
        reveal_strlit("0");
        reveal_strlit("1");
        reveal_strlit("2");
        reveal_strlit("3");
        reveal_strlit("4");
        reveal_strlit("5");
        reveal_strlit("6");
        reveal_strlit("7");
        reveal_strlit("8");
        reveal_strlit("9");
    }
    let s = if d == 0 {
        "0"
    } else if d == 1 {
        "1"
    } else if d == 2 {
        "2"
    } else if d == 3 {
        "3"
    } else if d == 4 {
        "4"
    } else if d == 5 {
        "5"
    } else if d == 6 {
        "6"
    } else if d == 7 {
        "7"
    } else if d == 8 {
        "8"
    } else {
        "9"
    };
    assert(s@ =~= seq![digit_char(d as int)]);
    s
}

/// Writes `n` in decimal.
pub fn decimal(n: u64) -> (s: String)
    ensures
        s@ == decimal_text(n as nat),
    decreases n,
{
    if n < 10 {
        String::from_str(digit_str(n))
    } else {
        let mut s = decimal(n / 10);
        s.append(digit_str(n % 10));
        s
    }
}

/// The sample format that a header names, if the engine knows it.
pub open spec fn sample_format_of(w: WaveFormat) -> Option<SampleFormat> {
    let tag = w.format_tag as u32;
    let bits = w.bits_per_sample;
    if tag == WAVE_FORMAT_EXTENSIBLE {
        if w.sub_format == SUBTYPE_IEEE_FLOAT && bits == 32 {
            Some(SampleFormat::F32)
        } else if w.sub_format == SUBTYPE_PCM && bits == 16 {
            Some(SampleFormat::I16)
        } else if w.sub_format == SUBTYPE_PCM && bits == 32 {
            Some(SampleFormat::I32)
        } else {
            None
        }
    } else {
        if tag == WAVE_FORMAT_IEEE_FLOAT && bits == 32 {
            Some(SampleFormat::F32)
        } else if tag == WAVE_FORMAT_PCM && bits == 16 {
            Some(SampleFormat::I16)
        } else if tag == WAVE_FORMAT_PCM && bits == 32 {
            Some(SampleFormat::I32)
        } else {
            None
        }
    }
}

/// Whether frames are packed: a frame is exactly one sample per channel,
/// so that copying `channels * sample size` bytes never overruns a frame.
pub open spec fn packed_layout(w: WaveFormat) -> bool {
    w.channels != 0 && w.samples_per_sec != 0 && w.block_align as int == w.channels as int * (
    w.bits_per_sample as int / 8)
}

/// What reading a header gives: the format, or the text of the
/// `Error::Format` that rejects it.
pub open spec fn format_of(w: WaveFormat) -> std::result::Result<Format, Seq<char>> {
    let bits = decimal_text(w.bits_per_sample as nat);
    match sample_format_of(w) {
        None => if w.format_tag as u32 == WAVE_FORMAT_EXTENSIBLE {
            Err("extensible subformat, "@ + bits + " bits"@)
        } else {
            Err("tag "@ + decimal_text(w.format_tag as nat) + ", "@ + bits + " bits"@)
        },
        Some(sample) => if packed_layout(w) {
            Ok(
                Format {
                    rate: w.samples_per_sec,
                    channels: w.channels as usize,
                    sample,
                    frame_bytes: w.block_align as usize,
                },
            )
        } else {
            Err(
                "unsupported frame layout: "@ + decimal_text(w.channels as nat) + " ch, "@ + bits
                    + " bits, "@ + decimal_text(w.block_align as nat) + " bytes"@,
            )
        },
    }
}

/// Reads a mix format header into the format the engine converts from or
/// to; a sample type it cannot convert, or padded frames, are errors.
pub fn parse_waveformat(w: &WaveFormat) -> (r: std::result::Result<Format, Error>)
    ensures
        match r {
            Ok(f) => format_of(*w) == Ok::<Format, Seq<char>>(f),
            Err(e) => e matches Error::Format(what) && format_of(*w) == Err::<Format, Seq<char>>(
                what@,
            ),
        },
{
    let tag = w.format_tag as u32;
    let bits = w.bits_per_sample;
    let channels = w.channels as usize;
    let rate = w.samples_per_sec;
    let frame_bytes = w.block_align as usize;
    let sample = if tag == WAVE_FORMAT_EXTENSIBLE {
        let sub = w.sub_format;
        if sub == SUBTYPE_IEEE_FLOAT && bits == 32 {
            SampleFormat::F32
        } else if sub == SUBTYPE_PCM && bits == 16 {
            SampleFormat::I16
        } else if sub == SUBTYPE_PCM && bits == 32 {
            SampleFormat::I32
        } else {
            let mut what = String::from_str("extensible subformat, ");
            let b = decimal(bits as u64);
            what.append(b.as_str());
            what.append(" bits");
            return Err(Error::Format(what));
        }
    } else {
        if tag == WAVE_FORMAT_IEEE_FLOAT && bits == 32 {
            SampleFormat::F32
        } else if tag == WAVE_FORMAT_PCM && bits == 16 {
            SampleFormat::I16
        } else if tag == WAVE_FORMAT_PCM && bits == 32 {
            SampleFormat::I32
        } else {
            let mut what = String::from_str("tag ");
            let t = decimal(tag as u64);
            what.append(t.as_str());
            what.append(", ");
            let b = decimal(bits as u64);
            what.append(b.as_str());
            what.append(" bits");
            return Err(Error::Format(what));
        }
    };
    let per_sample = bits as usize / 8;
    assert(channels * per_sample <= 65535 * 8191) by (nonlinear_arith)
        requires
            channels <= 65535,
            per_sample <= 8191,
    ;
    if channels == 0 || rate == 0 || frame_bytes != channels * (bits as usize / 8) {
        let mut what = String::from_str("unsupported frame layout: ");
        let c = decimal(channels as u64);
        what.append(c.as_str());
        what.append(" ch, ");
        let b = decimal(bits as u64);
        what.append(b.as_str());
        what.append(" bits, ");
        let f = decimal(frame_bytes as u64);
        what.append(f.as_str());
        what.append(" bytes");
        return Err(Error::Format(what));
    }
    Ok(Format { rate, channels, sample, frame_bytes })
}

/// How many bytes one sample of each format takes.
pub open spec fn sample_bytes(sample: SampleFormat) -> int {
    match sample {
        SampleFormat::F32 => 4,
        SampleFormat::I16 => 2,
        SampleFormat::I32 => 4,
    }
}

/// Whether a header declares IEEE floating-point samples, by its tag or by
/// its extensible sub-format.
pub open spec fn declares_float(w: WaveFormat) -> bool {
    if w.format_tag as u32 == WAVE_FORMAT_EXTENSIBLE {
        w.sub_format == SUBTYPE_IEEE_FLOAT
    } else {
        w.format_tag as u32 == WAVE_FORMAT_IEEE_FLOAT
    }
}

/// Whether a header declares integer PCM samples, by its tag or by its
/// extensible sub-format.
pub open spec fn declares_pcm(w: WaveFormat) -> bool {
    if w.format_tag as u32 == WAVE_FORMAT_EXTENSIBLE {
        w.sub_format == SUBTYPE_PCM
    } else {
        w.format_tag as u32 == WAVE_FORMAT_PCM
    }
}

/// An accepted header is read faithfully: the rate, channel count and frame
/// size are the header's own; the sample type has exactly the declared bit
/// depth; it is floating point exactly when the header says IEEE float and
/// integer exactly when it says PCM; and a frame is one sample per channel.
pub proof fn lemma_accepted_format_matches_header(w: WaveFormat)
    ensures
        format_of(w) matches Ok(f) ==> {
            &&& f.rate == w.samples_per_sec
            &&& f.channels == w.channels
            &&& f.frame_bytes == w.block_align
            &&& 8 * sample_bytes(f.sample) == w.bits_per_sample
            &&& f.frame_bytes == f.channels * sample_bytes(f.sample)
            &&& (f.sample == SampleFormat::F32 <==> declares_float(w))
            &&& (f.sample != SampleFormat::F32 <==> declares_pcm(w))
            &&& f.channels > 0 && f.rate > 0
        },
{
}

/// Every header that declares 16- or 32-bit PCM, or 32-bit IEEE float, with
/// packed frames of at least one channel at a nonzero rate is accepted, as
/// the sample type of that depth.
pub proof fn lemma_supported_headers_accepted(w: WaveFormat)
    requires
        (declares_pcm(w) && (w.bits_per_sample == 16 || w.bits_per_sample == 32)) || (declares_float(
            w,
        ) && w.bits_per_sample == 32),
        w.channels > 0,
        w.samples_per_sec > 0,
        w.block_align as int == w.channels as int * (w.bits_per_sample as int / 8),
    ensures
        format_of(w) matches Ok(f) && 8 * sample_bytes(f.sample) == w.bits_per_sample && (f.sample
            == SampleFormat::F32 <==> declares_float(w)) && f.frame_bytes == w.block_align,
{
    assert(SUBTYPE_PCM != SUBTYPE_IEEE_FLOAT);
}

} // verus!
