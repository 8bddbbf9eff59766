use vstd::prelude::*;
use crate::text::{decimal, decimal_string, digit_char, str_eq, to_string};

verus! {

/// Sample rate, in hertz, that decoded audio is produced at and that an empty
/// sound gets when none is given.
pub const DEFAULT_BITRATE: u32 = 48000;

/// Interleaved 16-bit stereo PCM together with its sample rate.
#[derive(Debug)]
pub struct Sound {
    pub data: Vec<i16>,
    pub bitrate: u32,
}

/// `x` clamped into the range of `i16`: the value of a saturating addition.
pub open spec fn clamp_i16(x: int) -> i16 {
    if x > i16::MAX {
        i16::MAX
    } else if x < i16::MIN {
        i16::MIN
    } else {
        x as i16
    }
}

/// `s` extended with silence up to length `n` (unchanged when it is long enough).
pub open spec fn padded(s: Seq<i16>, n: int) -> Seq<i16> {
    if s.len() >= n {
        s
    } else {
        s + Seq::new((n - s.len()) as nat, |i: int| 0i16)
    }
}

/// Element-wise saturating sum of two sample runs, as long as the shorter one.
pub open spec fn mixed(a: Seq<i16>, b: Seq<i16>) -> Seq<i16> {
    let n = if a.len() <= b.len() { a.len() } else { b.len() };
    Seq::new(n, |i: int| clamp_i16(a[i] + b[i]))
}

/// `s` with the range `start..end` replaced by `mid`.
pub open spec fn spliced(s: Seq<i16>, start: int, end: int, mid: Seq<i16>) -> Seq<i16> {
    s.subrange(0, start) + mid + s.subrange(end, s.len() as int)
}

/// `other` repeated over and over, cut to `n` samples; nothing when `other` is empty.
pub open spec fn cycled(other: Seq<i16>, n: int) -> Seq<i16> {
    if other.len() == 0 {
        Seq::empty()
    } else {
        Seq::new(n as nat, |i: int| other[i % (other.len() as int)])
    }
}

/// Mixing `other` into `base` from sample index `start` on.
pub open spec fn overlay_at_spec(base: Seq<i16>, other: Seq<i16>, start: int) -> Seq<i16> {
    let end = start + other.len();
    let p = padded(base, end);
    spliced(p, start, end, mixed(other, p.subrange(start, end)))
}

/// Mixing `other`, looped, into `base` over the sample range `start..end`.
pub open spec fn overlay_loop_spec(base: Seq<i16>, other: Seq<i16>, start: int, end: int) -> Seq<i16> {
    let p = padded(base, end);
    spliced(p, start, end, mixed(cycled(other, end - start), p.subrange(start, end)))
}

/// The end index actually used by `overlay_until`: `end`, cut down so that the
/// range is no longer than `other`.
pub open spec fn until_end(other: Seq<i16>, start: int, end: int) -> int {
    if end - start > other.len() {
        start + other.len()
    } else {
        end
    }
}

/// Mixing `other` into `base` over `start..e` where `e` is `until_end`; the
/// range is replaced by the mix of its first `e - start - 1` samples, so the
/// sound loses one sample there.
pub open spec fn overlay_until_spec(base: Seq<i16>, other: Seq<i16>, start: int, end: int) -> Seq<i16> {
    let e = until_end(other, start, end);
    let p = padded(base, e);
    spliced(p, start, e, mixed(other, p.subrange(start, e - 1)))
}

/// The sample at index `j` of `s`, silence past its end.
pub open spec fn sample_at(s: Seq<i16>, j: int) -> i16 {
    if 0 <= j < s.len() {
        s[j]
    } else {
        0i16
    }
}

/// Little-endian signed 16-bit value of two bytes.
pub open spec fn le_i16(lo: u8, hi: u8) -> i16 {
    if hi < 128 {
        (lo + 256 * hi) as i16
    } else {
        (lo + 256 * hi - 65536) as i16
    }
}

/// Decoding of raw `s16le` bytes into samples; a trailing odd byte is dropped.
pub open spec fn s16le_samples(bytes: Seq<u8>) -> Seq<i16> {
    Seq::new(bytes.len() / 2, |i: int| le_i16(bytes[2 * i], bytes[2 * i + 1]))
}

/// The unsigned 16-bit pattern of a sample.
pub open spec fn u16_pattern(x: i16) -> int {
    if x < 0 {
        x + 65536
    } else {
        x as int
    }
}

/// Encoding of samples as raw `s16le` bytes.
pub open spec fn s16le_bytes(samples: Seq<i16>) -> Seq<u8> {
    Seq::new(
        2 * samples.len(),
        |k: int|
            if k % 2 == 0 {
                (u16_pattern(samples[k / 2]) % 256) as u8
            } else {
                (u16_pattern(samples[k / 2]) / 256) as u8
            },
    )
}

/// Saturating addition of two samples.
pub fn mix_sample(a: i16, b: i16) -> (r: i16)
    ensures
        r == clamp_i16(a + b),
{
    let s: i32 = a as i32 + b as i32;
    if s > 32767 {
        32767
    } else if s < -32768 {
        -32768
    } else {
        s as i16
    }
}

fn sample_or_silence(s: &Vec<i16>, j: usize) -> (r: i16)
    ensures
        r == sample_at(s@, j as int),
{
    if j < s.len() {
        s[j]
    } else {
        0
    }
}

proof fn lemma_padded_index(s: Seq<i16>, n: int, j: int)
    requires
        0 <= j < padded(s, n).len(),
    ensures
        padded(s, n)[j] == sample_at(s, j),
        padded(s, n).len() == if s.len() >= n { s.len() as int } else { n },
{
}

/// Builds `spliced(padded(base, end), start, end, mid)` where `mid[i]` is the
/// saturating sum of `src[f(i)]` and the padded base at `start + i`, for `i < count`;
/// `f(i)` is `i`, or `i % src.len()` when `cyclic`.
fn splice_mix(base: &Vec<i16>, start: usize, end: usize, src: &Vec<i16>, count: usize, cyclic: bool) -> (r: Vec<i16>)
    requires
        start <= end,
        start + count <= end || count == 0,
        cyclic ==> src.len() > 0,
        !cyclic ==> count <= src.len(),
    ensures
        r@ == spliced(
            padded(base@, end as int),
            start as int,
            end as int,
            Seq::new(
                count as nat,
                |i: int|
                    clamp_i16(
                        (if cyclic { src@[i % (src.len() as int)] } else { src@[i] }) + sample_at(
                            base@,
                            start + i,
                        ),
                    ),
            ),
        ),
{
    let ghost p = padded(base@, end as int);
    let ghost mid = Seq::new(
        count as nat,
        |i: int|
            clamp_i16(
                (if cyclic { src@[i % (src.len() as int)] } else { src@[i] }) + sample_at(base@, start + i),
            ),
    );
    let plen: usize = if base.len() >= end {
        base.len()
    } else {
        end
    };
    assert(p.len() == plen) by {
        if base@.len() < end {
        }
    }
    let mut r: Vec<i16> = Vec::new();
    let mut j: usize = 0;
    while j < start
        invariant
            j <= start,
            start <= end <= plen,
            p.len() == plen,
            p == padded(base@, end as int),
            r@ == p.subrange(0, j as int),
        decreases start - j,
    {
        proof {
            lemma_padded_index(base@, end as int, j as int);
        }
        let x = sample_or_silence(base, j);
        r.push(x);
        j = j + 1;
        assert(r@ =~= p.subrange(0, j as int));
    }
    let mut i: usize = 0;
    while i < count
        invariant
            i <= count,
            start + count <= end || count == 0,
            cyclic ==> src.len() > 0,
            !cyclic ==> count <= src.len(),
            r@ == p.subrange(0, start as int) + mid.subrange(0, i as int),
            mid == Seq::new(
                count as nat,
                |i: int|
                    clamp_i16(
                        (if cyclic { src@[i % (src.len() as int)] } else { src@[i] }) + sample_at(
                            base@,
                            start + i,
                        ),
                    ),
            ),
        decreases count - i,
    {
        let a = if cyclic {
            src[i % src.len()]
        } else {
            src[i]
        };
        let b = sample_or_silence(base, start + i);
        let m = mix_sample(a, b);
        r.push(m);
        i = i + 1;
        assert(r@ =~= p.subrange(0, start as int) + mid.subrange(0, i as int));
    }
    assert(mid.subrange(0, count as int) =~= mid);
    let mut k: usize = end;
    while k < plen
        invariant
            end <= k <= plen,
            p.len() == plen,
            p == padded(base@, end as int),
            r@ == p.subrange(0, start as int) + mid + p.subrange(end as int, k as int),
        decreases plen - k,
    {
        proof {
            lemma_padded_index(base@, end as int, k as int);
        }
        let x = sample_or_silence(base, k);
        r.push(x);
        k = k + 1;
        assert(r@ =~= p.subrange(0, start as int) + mid + p.subrange(end as int, k as int));
    }
    r
}

impl Sound {
    /// A silent sound of no samples at `bitrate`, 48 kHz when none is given.
    pub fn empty(bitrate: Option<u32>) -> (s: Sound)
        ensures
            s.data@ == Seq::<i16>::empty(),
            s.bitrate == match bitrate {
                Some(b) => b,
                None => DEFAULT_BITRATE,
            },
    {
        let b = match bitrate {
            Some(b) => b,
            None => DEFAULT_BITRATE,
        };
        Sound { data: Vec::new(), bitrate: b }
    }

    /// Mixes `other` into this sound from stereo frame `frame` on (sample
    /// index `2 * frame`), extending this sound with silence where it is too
    /// short. Samples are added with saturation.
    pub fn overlay_at(self, other: &Sound, frame: usize) -> (r: Sound)
        requires
            2 * frame + other.data.len() <= usize::MAX,
        ensures
            r.bitrate == self.bitrate,
            r.data@ == overlay_at_spec(self.data@, other.data@, 2 * frame),
    {
        let start = frame * 2;
        let end = start + other.data.len();
        let data = splice_mix(&self.data, start, end, &other.data, other.data.len(), false);
        proof {
            let p = padded(self.data@, end as int);
            assert(mixed(other.data@, p.subrange(start as int, end as int)) =~= Seq::new(
                other.data.len() as nat,
                |i: int| clamp_i16(other.data@[i] + sample_at(self.data@, start + i)),
            )) by {
                assert forall|i: int| 0 <= i < other.data.len() implies p.subrange(
                    start as int,
                    end as int,
                )[i] == sample_at(self.data@, start + i) by {
                    lemma_padded_index(self.data@, end as int, start + i);
                }
            }
        }
        Sound { data, bitrate: self.bitrate }
    }

    /// Mixes `other`, repeated end to end, into this sound over the stereo
    /// frames `start_frame..end_frame` (samples `2 * start_frame..2 * end_frame`),
    /// extending this sound with silence where it is too short. An empty
    /// `other` removes that range instead.
    pub fn overlay_loop(self, other: &Sound, start_frame: usize, end_frame: usize) -> (r: Sound)
        requires
            start_frame <= end_frame,
            2 * end_frame <= usize::MAX,
        ensures
            r.bitrate == self.bitrate,
            r.data@ == overlay_loop_spec(self.data@, other.data@, 2 * start_frame, 2 * end_frame),
    {
        let start = start_frame * 2;
        let end = end_frame * 2;
        let cyclic = other.data.len() > 0;
        let count = if cyclic {
            end - start
        } else {
            0
        };
        let data = splice_mix(&self.data, start, end, &other.data, count, cyclic);
        proof {
            let p = padded(self.data@, end as int);
            let c = cycled(other.data@, end - start);
            assert(mixed(c, p.subrange(start as int, end as int)) =~= Seq::new(
                count as nat,
                |i: int|
                    clamp_i16(
                        (if cyclic { other.data@[i % (other.data.len() as int)] } else { other.data@[i] })
                            + sample_at(self.data@, start + i),
                    ),
            )) by {
                assert forall|i: int| 0 <= i < end - start implies p.subrange(
                    start as int,
                    end as int,
                )[i] == sample_at(self.data@, start + i) by {
                    lemma_padded_index(self.data@, end as int, start + i);
                }
            }
        }
        Sound { data, bitrate: self.bitrate }
    }

    /// Mixes `other` into this sound from stereo frame `start_frame` up to
    /// `end_frame`, the range cut down to the length of `other`. The range
    /// `2 * start_frame..e` (with `e` as in `until_end`) is replaced by the mix
    /// of its first `e - 2 * start_frame - 1` samples, so one sample is dropped
    /// at its end; this sound is extended with silence up to `e` first.
    pub fn overlay_until(self, other: &Sound, start_frame: usize, end_frame: usize) -> (r: Sound)
        requires
            start_frame < end_frame,
            2 * end_frame <= usize::MAX,
            other.data.len() > 0,
        ensures
            r.bitrate == self.bitrate,
            r.data@ == overlay_until_spec(self.data@, other.data@, 2 * start_frame, 2 * end_frame),
    {
        let start = start_frame * 2;
        let mut end = end_frame * 2;
        if end - start > other.data.len() {
            end = start + other.data.len();
        }
        let count = end - 1 - start;
        let data = splice_mix(&self.data, start, end, &other.data, count, false);
        proof {
            let p = padded(self.data@, end as int);
            assert(mixed(other.data@, p.subrange(start as int, end - 1)) =~= Seq::new(
                count as nat,
                |i: int| clamp_i16(other.data@[i] + sample_at(self.data@, start + i)),
            )) by {
                assert forall|i: int| 0 <= i < count implies #[trigger] p.subrange(start as int, end - 1)[i]
                    == sample_at(self.data@, start + i) by {
                    lemma_padded_index(self.data@, end as int, start + i);
                }
            }
        }
        Sound { data, bitrate: self.bitrate }
    }

    /// Decodes raw little-endian signed 16-bit stereo PCM at 48 kHz, the form
    /// that the decoder hands back; a trailing odd byte is dropped.
    pub fn from_s16le(bytes: &[u8]) -> (s: Sound)
        ensures
            s.bitrate == DEFAULT_BITRATE,
            s.data@ == s16le_samples(bytes@),
    {
        let len = bytes.len();
        let n = len / 2;
        let mut data: Vec<i16> = Vec::new();
        let mut i: usize = 0;
        while i < n
            invariant
                n == bytes@.len() / 2,
                len == bytes@.len(),
                i <= n,
                data@ == s16le_samples(bytes@).subrange(0, i as int),
            decreases n - i,
        {
            assert(2 * i + 1 < bytes@.len());
            let lo = bytes[2 * i];
            let hi = bytes[2 * i + 1];
            let v: i32 = lo as i32 + 256 * hi as i32;
            let x: i16 = if hi < 128 {
                v as i16
            } else {
                (v - 65536) as i16
            };
            data.push(x);
            i = i + 1;
            assert(data@ =~= s16le_samples(bytes@).subrange(0, i as int));
        }
        assert(data@ =~= s16le_samples(bytes@));
        Sound { data, bitrate: DEFAULT_BITRATE }
    }

    /// Encodes the samples as raw little-endian signed 16-bit PCM, the form
    /// that the encoder reads.
    pub fn to_s16le(&self) -> (bytes: Vec<u8>)
        requires
            2 * self.data.len() <= usize::MAX,
        ensures
            bytes@ == s16le_bytes(self.data@),
    {
        let mut bytes: Vec<u8> = Vec::new();
        let mut i: usize = 0;
        while i < self.data.len()
            invariant
                i <= self.data.len(),
                2 * self.data.len() <= usize::MAX,
                bytes@ == s16le_bytes(self.data@).subrange(0, 2 * i),
            decreases self.data.len() - i,
        {
            let x = self.data[i];
            let u: u32 = if x < 0 {
                (x as i32 + 65536) as u32
            } else {
                x as u32
            };
            bytes.push((u % 256) as u8);
            bytes.push((u / 256) as u8);
            i = i + 1;
            assert(bytes@ =~= s16le_bytes(self.data@).subrange(0, 2 * i));
        }
        assert(bytes@ =~= s16le_bytes(self.data@));
        bytes
    }
}

/// Encoding samples as `s16le` bytes and decoding them again gives back the
/// same samples.
pub proof fn lemma_s16le_round_trip(samples: Seq<i16>)
    ensures
        s16le_samples(s16le_bytes(samples)) == samples,
{
    let b = s16le_bytes(samples);
    assert forall|i: int| 0 <= i < samples.len() implies #[trigger] s16le_samples(b)[i] == samples[i] by {
        assert((2 * i) % 2 == 0);
        assert((2 * i + 1) % 2 == 1);
        assert((2 * i) / 2 == i);
        assert((2 * i + 1) / 2 == i);
    }
    assert(s16le_samples(b) =~= samples);
}

/// Decoding an even number of bytes as samples and encoding them again gives
/// back the same bytes.
pub proof fn lemma_s16le_bytes_round_trip(bytes: Seq<u8>)
    requires
        bytes.len() % 2 == 0,
    ensures
        s16le_bytes(s16le_samples(bytes)) == bytes,
{
    let s = s16le_samples(bytes);
    assert forall|k: int| 0 <= k < bytes.len() implies #[trigger] s16le_bytes(s)[k] == bytes[k] by {
        let i = k / 2;
        assert(0 <= i < s.len());
        if k % 2 == 0 {
            assert(k == 2 * i);
        } else {
            assert(k == 2 * i + 1);
        }
    }
    assert(s16le_bytes(s) =~= bytes);
}

/// Abstract value of a table from archetype names to candidate clip names.
pub open spec fn table_view(t: Seq<(&'static str, Vec<&'static str>)>) -> Seq<(Seq<char>, Seq<Seq<char>>)> {
    t.map_values(|e: (&'static str, Vec<&'static str>)| (e.0@, e.1@.map_values(|c: &'static str| c@)))
}

/// For each archetype of a single note, the clips that may sound it, the
/// preferred (canonical) one first.
pub open spec fn sound_table() -> Seq<(Seq<char>, Seq<Seq<char>>)> {
    seq![
        ("NormalTapNote"@, seq!["#PERFECT"@]),
        ("CriticalTapNote"@, seq!["Sekai Critical Tap"@]),
        ("NormalFlickNote"@, seq!["#PERFECT_ALTERNATIVE"@]),
        ("CriticalFlickNote"@, seq!["Sekai Critical Flick"@]),
        ("NormalSlideStartNote"@, seq!["#PERFECT"@]),
        ("NormalHeadTapNote"@, seq!["#PERFECT"@]),
        ("CriticalSlideStartNote"@, seq!["#PERFECT"@]),
        ("CriticalHeadTapNote"@, seq!["#PERFECT"@]),
        ("NormalSlideEndNote"@, seq!["#PERFECT"@]),
        ("NormalTailReleaseNote"@, seq!["#PERFECT"@]),
        ("CriticalSlideEndNote"@, seq!["#PERFECT"@]),
        ("CriticalTailReleaseNote"@, seq!["#PERFECT"@]),
        ("NormalSlideEndFlickNote"@, seq!["#PERFECT_ALTERNATIVE"@]),
        ("NormalTailFlickNote"@, seq!["#PERFECT_ALTERNATIVE"@]),
        ("CriticalSlideEndFlickNote"@, seq!["Sekai Critical Flick"@]),
        ("CriticalTailFlickNote"@, seq!["Sekai Critical Flick"@]),
        ("NormalTickNote"@, seq!["Sekai Tick"@]),
        ("CriticalTickNote"@, seq!["Sekai Critical Tick"@]),
        ("NormalAttachedSlideTickNote"@, seq!["Sekai Tick"@]),
        ("CriticalAttachedSlideTickNote"@, seq!["Sekai Critical Tick"@]),
        ("NormalTraceNote"@, seq!["Sekai Trace"@, "Sekai Normal Trace"@]),
        ("CriticalTraceNote"@, seq!["Sekai Critical Trace"@]),
        ("NormalTraceFlickNote"@, seq!["#PERFECT_ALTERNATIVE"@]),
        ("NormalTailTraceFlickNote"@, seq!["#PERFECT_ALTERNATIVE"@]),
        ("CriticalTraceFlickNote"@, seq!["Sekai Critical Flick"@]),
        ("CriticalTailTraceFlickNote"@, seq!["Sekai Critical Flick"@]),
        ("NonDirectionalTraceFlickNote"@, seq!["#PERFECT_ALTERNATIVE"@]),
        ("NormalTraceSlideStartNote"@, seq!["Sekai Trace"@, "Sekai Normal Trace"@]),
        ("NormalHeadTraceNote"@, seq!["Sekai Trace"@, "Sekai Normal Trace"@]),
        ("CriticalTraceSlideStartNote"@, seq!["Sekai Critical Trace"@]),
        ("CriticalHeadTraceNote"@, seq!["Sekai Critical Trace"@]),
        ("NormalTraceSlideEndNote"@, seq!["Sekai Trace"@, "Sekai Normal Trace"@]),
        ("NormalTailTraceNote"@, seq!["Sekai Trace"@, "Sekai Normal Trace"@]),
        ("CriticalTraceSlideEndNote"@, seq!["Sekai Critical Trace"@]),
        ("CriticalTailTraceNote"@, seq!["Sekai Critical Trace"@])
    ]
}

/// For each archetype of a hold connector, the clips that may sound it, the
/// preferred (canonical) one first.
pub open spec fn loop_sound_table() -> Seq<(Seq<char>, Seq<Seq<char>>)> {
    seq![
        ("NormalSlideConnector"@, seq!["#HOLD"@]),
        ("NormalConnector"@, seq!["#HOLD"@]),
        ("CriticalSlideConnector"@, seq!["Sekai Critical Hold"@]),
        ("CriticalConnector"@, seq!["Sekai Critical Hold"@])
    ]
}

/// The candidates listed for `key` by the first row of `t` with that key.
pub open spec fn lookup_clip(t: Seq<(Seq<char>, Seq<Seq<char>>)>, key: Seq<char>) -> Option<Seq<Seq<char>>>
    decreases t.len(),
{
    if t.len() == 0 {
        None
    } else if t[0].0 == key {
        Some(t[0].1)
    } else {
        lookup_clip(t.drop_first(), key)
    }
}

/// The candidates of the first row of `t` whose canonical clip is `name`.
pub open spec fn lookup_canonical(t: Seq<(Seq<char>, Seq<Seq<char>>)>, name: Seq<char>) -> Option<Seq<Seq<char>>>
    decreases t.len(),
{
    if t.len() == 0 {
        None
    } else if t[0].1.len() > 0 && t[0].1[0] == name {
        Some(t[0].1)
    } else {
        lookup_canonical(t.drop_first(), name)
    }
}

/// The clips to try, in order, for the canonical clip `name`: its candidate
/// list from either table, or `name` alone when no row has it as canonical clip.
pub open spec fn canonical_candidates(name: Seq<char>) -> Seq<Seq<char>> {
    match lookup_canonical(sound_table() + loop_sound_table(), name) {
        Some(c) => c,
        None => seq![name],
    }
}

/// The table of single-note archetypes and their candidate clips.
pub fn sound_map() -> (t: Vec<(&'static str, Vec<&'static str>)>)
    ensures
        table_view(t@) == sound_table(),
{
    let t = vec![
        ("NormalTapNote", vec!["#PERFECT"]),
        ("CriticalTapNote", vec!["Sekai Critical Tap"]),
        ("NormalFlickNote", vec!["#PERFECT_ALTERNATIVE"]),
        ("CriticalFlickNote", vec!["Sekai Critical Flick"]),
        ("NormalSlideStartNote", vec!["#PERFECT"]),
        ("NormalHeadTapNote", vec!["#PERFECT"]),
        ("CriticalSlideStartNote", vec!["#PERFECT"]),
        ("CriticalHeadTapNote", vec!["#PERFECT"]),
        ("NormalSlideEndNote", vec!["#PERFECT"]),
        ("NormalTailReleaseNote", vec!["#PERFECT"]),
        ("CriticalSlideEndNote", vec!["#PERFECT"]),
        ("CriticalTailReleaseNote", vec!["#PERFECT"]),
        ("NormalSlideEndFlickNote", vec!["#PERFECT_ALTERNATIVE"]),
        ("NormalTailFlickNote", vec!["#PERFECT_ALTERNATIVE"]),
        ("CriticalSlideEndFlickNote", vec!["Sekai Critical Flick"]),
        ("CriticalTailFlickNote", vec!["Sekai Critical Flick"]),
        ("NormalTickNote", vec!["Sekai Tick"]),
        ("CriticalTickNote", vec!["Sekai Critical Tick"]),
        ("NormalAttachedSlideTickNote", vec!["Sekai Tick"]),
        ("CriticalAttachedSlideTickNote", vec!["Sekai Critical Tick"]),
        ("NormalTraceNote", vec!["Sekai Trace", "Sekai Normal Trace"]),
        ("CriticalTraceNote", vec!["Sekai Critical Trace"]),
        ("NormalTraceFlickNote", vec!["#PERFECT_ALTERNATIVE"]),
        ("NormalTailTraceFlickNote", vec!["#PERFECT_ALTERNATIVE"]),
        ("CriticalTraceFlickNote", vec!["Sekai Critical Flick"]),
        ("CriticalTailTraceFlickNote", vec!["Sekai Critical Flick"]),
        ("NonDirectionalTraceFlickNote", vec!["#PERFECT_ALTERNATIVE"]),
        ("NormalTraceSlideStartNote", vec!["Sekai Trace", "Sekai Normal Trace"]),
        ("NormalHeadTraceNote", vec!["Sekai Trace", "Sekai Normal Trace"]),
        ("CriticalTraceSlideStartNote", vec!["Sekai Critical Trace"]),
        ("CriticalHeadTraceNote", vec!["Sekai Critical Trace"]),
        ("NormalTraceSlideEndNote", vec!["Sekai Trace", "Sekai Normal Trace"]),
        ("NormalTailTraceNote", vec!["Sekai Trace", "Sekai Normal Trace"]),
        ("CriticalTraceSlideEndNote", vec!["Sekai Critical Trace"]),
        ("CriticalTailTraceNote", vec!["Sekai Critical Trace"])
    ];
    assert(table_view(t@) =~~= sound_table());
    t
}

/// The table of hold-connector archetypes and their candidate clips.
pub fn loop_sound_map() -> (t: Vec<(&'static str, Vec<&'static str>)>)
    ensures
        table_view(t@) == loop_sound_table(),
{
    let t = vec![
        ("NormalSlideConnector", vec!["#HOLD"]),
        ("NormalConnector", vec!["#HOLD"]),
        ("CriticalSlideConnector", vec!["Sekai Critical Hold"]),
        ("CriticalConnector", vec!["Sekai Critical Hold"])
    ];
    assert(table_view(t@) =~~= loop_sound_table());
    t
}

/// Every archetype of either table has at least one candidate clip.
pub proof fn lemma_tables_have_candidates()
    ensures
        forall|i: int| 0 <= i < sound_table().len() ==> (#[trigger] sound_table()[i]).1.len() > 0,
        forall|i: int| 0 <= i < loop_sound_table().len() ==> (#[trigger] loop_sound_table()[i]).1.len() > 0,
{
}

proof fn lemma_lookup_clip_nonempty(t: Seq<(Seq<char>, Seq<Seq<char>>)>, key: Seq<char>)
    requires
        forall|i: int| 0 <= i < t.len() ==> (#[trigger] t[i]).1.len() > 0,
    ensures
        lookup_clip(t, key) matches Some(c) ==> c.len() > 0,
    decreases t.len(),
{
    if t.len() > 0 && t[0].0 != key {
        assert forall|i: int| 0 <= i < t.drop_first().len() implies (#[trigger] t.drop_first()[i]).1.len() > 0 by {
            assert(t.drop_first()[i] == t[i + 1]);
        }
        lemma_lookup_clip_nonempty(t.drop_first(), key);
    }
}

/// A looked-up candidate list of either table is never empty.
pub proof fn lemma_lookup_nonempty(key: Seq<char>)
    ensures
        lookup_clip(sound_table(), key) matches Some(c) ==> c.len() > 0,
        lookup_clip(loop_sound_table(), key) matches Some(c) ==> c.len() > 0,
{
    lemma_tables_have_candidates();
    lemma_lookup_clip_nonempty(sound_table(), key);
    lemma_lookup_clip_nonempty(loop_sound_table(), key);
}

fn copy_strs(v: &Vec<&'static str>) -> (r: Vec<&'static str>)
    ensures
        r@ == v@,
{
    let mut r: Vec<&'static str> = Vec::new();
    let mut i: usize = 0;
    while i < v.len()
        invariant
            i <= v.len(),
            r@ == v@.subrange(0, i as int),
        decreases v.len() - i,
    {
        r.push(v[i]);
        i = i + 1;
        assert(r@ =~= v@.subrange(0, i as int));
    }
    assert(v@.subrange(0, v.len() as int) =~= v@);
    r
}

/// The candidate clips that the first row of `table` with archetype `key` lists.
pub fn lookup_candidates(table: &Vec<(&'static str, Vec<&'static str>)>, key: &str) -> (r: Option<Vec<&'static str>>)
    ensures
        match r {
            Some(c) => lookup_clip(table_view(table@), key@) == Some(c@.map_values(|s: &'static str| s@)),
            None => lookup_clip(table_view(table@), key@) is None,
        },
{
    let ghost tv = table_view(table@);
    let mut i: usize = 0;
    assert(tv.subrange(0, tv.len() as int) =~= tv);
    while i < table.len()
        invariant
            i <= table.len(),
            tv == table_view(table@),
            tv.len() == table.len(),
            lookup_clip(tv, key@) == lookup_clip(tv.subrange(i as int, tv.len() as int), key@),
        decreases table.len() - i,
    {
        let row = &table[i];
        assert(tv[i as int] == (row.0@, row.1@.map_values(|c: &'static str| c@)));
        if str_eq(row.0, key) {
            assert(tv.subrange(i as int, tv.len() as int)[0] == tv[i as int]);
            return Some(copy_strs(&row.1));
        }
        assert(tv.subrange(i as int, tv.len() as int).drop_first() =~= tv.subrange(i + 1, tv.len() as int));
        i = i + 1;
    }
    None
}

/// The candidate clips of the first row, over both tables, whose canonical
/// clip is `name`; `name` alone when there is none.
pub fn canonical_candidate_list(name: &str) -> (r: Vec<&str>)
    ensures
        r@.map_values(|s: &str| s@) == canonical_candidates(name@),
{
    let mut table = sound_map();
    let mut rest = loop_sound_map();
    let ghost t1 = table@;
    table.append(&mut rest);
    let ghost tv = table_view(table@);
    assert(tv =~= sound_table() + loop_sound_table());
    let mut i: usize = 0;
    assert(tv.subrange(0, tv.len() as int) =~= tv);
    while i < table.len()
        invariant
            i <= table.len(),
            tv == table_view(table@),
            tv.len() == table.len(),
            tv == sound_table() + loop_sound_table(),
            lookup_canonical(tv, name@) == lookup_canonical(tv.subrange(i as int, tv.len() as int), name@),
        decreases table.len() - i,
    {
        let row = &table[i];
        assert(tv[i as int] == (row.0@, row.1@.map_values(|c: &'static str| c@)));
        if row.1.len() > 0 && str_eq(row.1[0], name) {
            assert(tv.subrange(i as int, tv.len() as int)[0] == tv[i as int]);
            let c = copy_strs(&row.1);
            return c;
        }
        assert(tv.subrange(i as int, tv.len() as int).drop_first() =~= tv.subrange(i + 1, tv.len() as int));
        i = i + 1;
    }
    let r = vec![name];
    assert(r@.map_values(|s: &str| s@) =~= seq![name@]);
    r
}

fn copy_samples(v: &Vec<i16>) -> (r: Vec<i16>)
    ensures
        r@ == v@,
{
    let mut r: Vec<i16> = Vec::new();
    let mut i: usize = 0;
    while i < v.len()
        invariant
            i <= v.len(),
            r@ == v@.subrange(0, i as int),
        decreases v.len() - i,
    {
        r.push(v[i]);
        i = i + 1;
        assert(r@ =~= v@.subrange(0, i as int));
    }
    assert(v@.subrange(0, v.len() as int) =~= v@);
    r
}

impl Clone for Sound {
    fn clone(&self) -> (r: Self)
        ensures
            r.data@ == self.data@,
            r.bitrate == self.bitrate,
    {
        Sound { data: copy_samples(&self.data), bitrate: self.bitrate }
    }
}

/// The decoded clips of an effect package, each under its clip name; no name
/// occurs twice.
#[derive(Debug)]
pub struct Effect {
    pub(crate) audio: Vec<(String, Sound)>,
}

/// The sound stored under `name` in a list of named sounds (the first one).
pub open spec fn named_sound(entries: Seq<(String, Sound)>, name: Seq<char>) -> Option<Sound>
    decreases entries.len(),
{
    if entries.len() == 0 {
        None
    } else if entries[0].0@ == name {
        Some(entries[0].1)
    } else {
        named_sound(entries.drop_first(), name)
    }
}

/// The data and rate of two sounds agree.
pub open spec fn same_sound(a: Sound, b: Sound) -> bool {
    a.data@ == b.data@ && a.bitrate == b.bitrate
}

/// No clip name occurs twice.
pub open spec fn distinct_names(entries: Seq<(String, Sound)>) -> bool {
    forall|i: int, j: int| 0 <= i < j < entries.len() ==> (#[trigger] entries[i]).0@ != (#[trigger] entries[j]).0@
}

impl Clone for Effect {
    fn clone(&self) -> (r: Self)
        ensures
            r@.len() == self@.len(),
            forall|i: int|
                0 <= i < self@.len() ==> (#[trigger] r@[i]).0@ == self@[i].0@ && same_sound(r@[i].1, self@[i].1),
    {
        proof {
            use_type_invariant(self);
        }
        let mut audio: Vec<(String, Sound)> = Vec::new();
        let mut i: usize = 0;
        while i < self.audio.len()
            invariant
                i <= self.audio.len(),
                distinct_names(self.audio@),
                audio@.len() == i,
                forall|k: int|
                    0 <= k < i ==> (#[trigger] audio@[k]).0@ == self.audio@[k].0@ && same_sound(
                        audio@[k].1,
                        self.audio@[k].1,
                    ),
            decreases self.audio.len() - i,
        {
            audio.push((self.audio[i].0.clone(), self.audio[i].1.clone()));
            i = i + 1;
        }
        assert forall|p: int, q: int| 0 <= p < q < audio@.len() implies (#[trigger] audio@[p]).0@ != (
        #[trigger] audio@[q]).0@ by {
            assert(self.audio@[p].0@ != self.audio@[q].0@);
        }
        Effect { audio }
    }
}

impl View for Effect {
    type V = Seq<(String, Sound)>;

    /// The clips of the package, each under its name.
    closed spec fn view(&self) -> Seq<(String, Sound)> {
        self.audio@
    }
}

impl Effect {
    /// An effect package without clips.
    pub fn empty() -> (e: Effect)
        ensures
            e@.len() == 0,
    {
        Effect { audio: Vec::new() }
    }

    /// The names of the clips are pairwise distinct; every package keeps this.
    #[verifier::type_invariant]
    pub closed spec fn wf(self) -> bool {
        distinct_names(self@)
    }

    /// The number of clips.
    pub fn len(&self) -> (r: usize)
        ensures
            r == self@.len(),
    {
        self.audio.len()
    }

    /// Stores `sound` under `name`, replacing a clip of that name.
    pub fn insert(&mut self, name: String, sound: Sound)
        ensures
            distinct_names(final(self)@),
            match named_sound(final(self)@, name@) {
                Some(s) => same_sound(s, sound),
                None => false,
            },
            forall|other: Seq<char>| other != name@ ==> named_sound(final(self)@, other) == named_sound(
                old(self)@,
                other,
            ),
    {
        proof {
            use_type_invariant(&*self);
        }
        let mut audio: Vec<(String, Sound)> = Vec::new();
        std::mem::swap(&mut audio, &mut self.audio);
        let ghost a = audio@;
        let mut i: usize = 0;
        while i < audio.len()
            invariant
                i <= audio.len(),
                a == audio@,
                a == old(self)@,
                distinct_names(a),
                forall|k: int| 0 <= k < i ==> (#[trigger] a[k]).0@ != name@,
            decreases audio.len() - i,
        {
            if audio[i].0 == name {
                let old_entry = audio.remove(i);
                audio.insert(i, (old_entry.0, sound));
                proof {
                    let b = audio@;
                    assert(b == a.update(i as int, (a[i as int].0, sound)));
                    assert(a[i as int].0@ == name@);
                    lemma_named_sound_update(a, i as int, sound);
                    assert forall|other: Seq<char>| other != name@ implies named_sound(b, other) == named_sound(
                        a,
                        other,
                    ) by {
                        assert(named_sound(a.update(i as int, (a[i as int].0, sound)), other) == named_sound(a, other));
                    }
                    assert forall|p: int, q: int| 0 <= p < q < b.len() implies (#[trigger] b[p]).0@ != (#[trigger] b[q]).0@ by {
                        assert(b[p].0 == a[p].0 && b[q].0 == a[q].0);
                    }
                }
                self.audio = audio;
                return;
            }
            i = i + 1;
        }
        audio.push((name, sound));
        proof {
            let b = audio@;
            lemma_named_sound_push(a, b.last().0, sound);
            assert(b =~= a.push((b.last().0, sound)));
            assert forall|p: int, q: int| 0 <= p < q < b.len() implies (#[trigger] b[p]).0@ != (#[trigger] b[q]).0@ by {
                if q == b.len() - 1 {
                    assert(b[p] == a[p]);
                } else {
                    assert(b[p] == a[p] && b[q] == a[q]);
                }
            }
        }
        self.audio = audio;
    }

    /// The clip stored under `name`.
    pub fn get(&self, name: &str) -> (r: Option<&Sound>)
        ensures
            match r {
                Some(s) => named_sound(self@, name@) == Some(*s),
                None => named_sound(self@, name@) is None,
            },
    {
        let ghost a = self@;
        let mut i: usize = 0;
        assert(a.subrange(0, a.len() as int) =~= a);
        while i < self.audio.len()
            invariant
                i <= self.audio.len(),
                a == self@,
                named_sound(a, name@) == named_sound(a.subrange(i as int, a.len() as int), name@),
            decreases self.audio.len() - i,
        {
            if str_eq(self.audio[i].0.as_str(), name) {
                assert(a.subrange(i as int, a.len() as int)[0] == a[i as int]);
                return Some(&self.audio[i].1);
            }
            assert(a.subrange(i as int, a.len() as int).drop_first() =~= a.subrange(i + 1, a.len() as int));
            i = i + 1;
        }
        None
    }
}

/// The sound of the last clip of `clips` named `name`.
pub open spec fn last_named(clips: Seq<(String, Sound)>, name: Seq<char>) -> Option<Sound>
    decreases clips.len(),
{
    if clips.len() == 0 {
        None
    } else if clips.last().0@ == name {
        Some(clips.last().1)
    } else {
        last_named(clips.drop_last(), name)
    }
}

/// Both absent, or both present with the same data and rate.
pub open spec fn same_clip(a: Option<Sound>, b: Option<Sound>) -> bool {
    match (a, b) {
        (Some(x), Some(y)) => same_sound(x, y),
        (None, None) => true,
        _ => false,
    }
}

impl Effect {
    /// The effect package of decoded clips: each name of `clips` stored once,
    /// with the sound of the last clip of that name, and no other name.
    pub fn from_clips(clips: Vec<(String, Sound)>) -> (e: Effect)
        ensures
            distinct_names(e@),
            forall|name: Seq<char>| #[trigger] same_clip(named_sound(e@, name), last_named(clips@, name)),
    {
        let mut e = Effect::empty();
        let mut i: usize = 0;
        while i < clips.len()
            invariant
                i <= clips.len(),
                forall|name: Seq<char>|
                    #[trigger] same_clip(named_sound(e@, name), last_named(clips@.subrange(0, i as int), name)),
            decreases clips.len() - i,
        {
            let name = clips[i].0.clone();
            let sound = clips[i].1.clone();
            let ghost before = e@;
            e.insert(name, sound);
            proof {
                let p = clips@.subrange(0, i + 1);
                assert(p.drop_last() =~= clips@.subrange(0, i as int));
                assert(p.last() == clips@[i as int]);
                assert forall|n: Seq<char>| #[trigger] same_clip(named_sound(e@, n), last_named(p, n)) by {
                    if n != clips@[i as int].0@ {
                        assert(named_sound(e@, n) == named_sound(before, n));
                        assert(same_clip(named_sound(before, n), last_named(clips@.subrange(0, i as int), n)));
                    }
                }
            }
            i = i + 1;
        }
        assert(clips@.subrange(0, clips@.len() as int) =~= clips@);
        proof {
            use_type_invariant(&e);
        }
        e
    }
}

proof fn lemma_named_sound_update(a: Seq<(String, Sound)>, i: int, sound: Sound)
    requires
        0 <= i < a.len(),
        distinct_names(a),
    ensures
        named_sound(a.update(i, (a[i].0, sound)), a[i].0@) == Some(sound),
        forall|other: Seq<char>| other != a[i].0@ ==> named_sound(a.update(i, (a[i].0, sound)), other) == named_sound(
            a,
            other,
        ),
    decreases a.len(),
{
    let b = a.update(i, (a[i].0, sound));
    if i == 0 {
        assert(b.drop_first() =~= a.drop_first());
        assert forall|other: Seq<char>| other != a[i].0@ implies named_sound(b, other) == named_sound(a, other) by {
            assert(b[0].0@ == a[0].0@);
        }
    } else {
        assert(b.drop_first() =~= a.drop_first().update(i - 1, (a[i].0, sound)));
        assert(distinct_names(a.drop_first())) by {
            assert forall|p: int, q: int| 0 <= p < q < a.drop_first().len() implies (#[trigger] a.drop_first()[p]).0@
                != (#[trigger] a.drop_first()[q]).0@ by {
                assert(a.drop_first()[p] == a[p + 1] && a.drop_first()[q] == a[q + 1]);
            }
        }
        lemma_named_sound_update(a.drop_first(), i - 1, sound);
        assert(a[0].0@ != a[i].0@);
        assert(a.drop_first()[i - 1] == a[i]);
        assert forall|other: Seq<char>| other != a[i].0@ implies named_sound(b, other) == named_sound(a, other) by {
            assert(b[0] == a[0]);
            if other != a[0].0@ {
                assert(named_sound(a.drop_first().update(i - 1, (a[i].0, sound)), other) == named_sound(
                    a.drop_first(),
                    other,
                ));
            }
        }
    }
}

proof fn lemma_named_sound_push(a: Seq<(String, Sound)>, name: String, sound: Sound)
    requires
        forall|k: int| 0 <= k < a.len() ==> (#[trigger] a[k]).0@ != name@,
    ensures
        named_sound(a.push((name, sound)), name@) == Some(sound),
        forall|other: Seq<char>| other != name@ ==> named_sound(a.push((name, sound)), other) == named_sound(a, other),
    decreases a.len(),
{
    let b = a.push((name, sound));
    if a.len() > 0 {
        assert(b.drop_first() =~= a.drop_first().push((name, sound)));
        assert forall|k: int| 0 <= k < a.drop_first().len() implies (#[trigger] a.drop_first()[k]).0@ != name@ by {
            assert(a.drop_first()[k] == a[k + 1]);
        }
        lemma_named_sound_push(a.drop_first(), name, sound);
        assert(a[0].0@ != name@);
        assert forall|other: Seq<char>| other != name@ implies named_sound(b, other) == named_sound(a, other) by {
            assert(b[0] == a[0]);
            if other != a[0].0@ {
                assert(named_sound(a.drop_first().push((name, sound)), other) == named_sound(a.drop_first(), other));
            }
        }
    } else {
        assert(b.drop_first() =~= Seq::<(String, Sound)>::empty());
        assert forall|other: Seq<char>| other != name@ implies named_sound(b, other) == named_sound(a, other) by {
            assert(named_sound(b.drop_first(), other) is None);
        }
    }
}

/// The first of `candidates` that `effect` holds a clip for.
pub open spec fn first_present(entries: Seq<(String, Sound)>, candidates: Seq<Seq<char>>) -> Option<Sound>
    decreases candidates.len(),
{
    if candidates.len() == 0 {
        None
    } else {
        match named_sound(entries, candidates[0]) {
            Some(s) => Some(s),
            None => first_present(entries, candidates.drop_first()),
        }
    }
}

/// Finds the clip that sounds the canonical clip `canonical_name` in `effect`:
/// the first of its candidates that the package holds, copied.
pub fn resolve_sound(effect: &Effect, canonical_name: &str) -> (r: Option<Sound>)
    ensures
        match r {
            Some(s) => match first_present(effect@, canonical_candidates(canonical_name@)) {
                Some(t) => same_sound(s, t),
                None => false,
            },
            None => first_present(effect@, canonical_candidates(canonical_name@)) is None,
        },
{
    let list = canonical_candidate_list(canonical_name);
    let ghost cs = list@.map_values(|s: &str| s@);
    let mut i: usize = 0;
    assert(cs.subrange(0, cs.len() as int) =~= cs);
    while i < list.len()
        invariant
            i <= list.len(),
            cs == list@.map_values(|s: &str| s@),
            cs == canonical_candidates(canonical_name@),
            first_present(effect@, cs) == first_present(effect@, cs.subrange(i as int, cs.len() as int)),
        decreases list.len() - i,
    {
        let name = list[i];
        let ghost rest = cs.subrange(i as int, cs.len() as int);
        assert(rest[0] == name@);
        match effect.get(name) {
            Some(sound) => {
                return Some(sound.clone());
            },
            None => {},
        }
        assert(rest.drop_first() =~= cs.subrange(i + 1, cs.len() as int));
        i = i + 1;
    }
    None
}

/// The first of `candidates` that `entries` holds a clip of.
pub open spec fn first_present_name(entries: Seq<(String, Sound)>, candidates: Seq<Seq<char>>) -> Option<Seq<char>>
    decreases candidates.len(),
{
    if candidates.len() == 0 {
        None
    } else {
        match named_sound(entries, candidates[0]) {
            Some(_) => Some(candidates[0]),
            None => first_present_name(entries, candidates.drop_first()),
        }
    }
}

proof fn lemma_first_present_name(entries: Seq<(String, Sound)>, candidates: Seq<Seq<char>>)
    ensures
        match first_present_name(entries, candidates) {
            Some(n) => first_present(entries, candidates) == named_sound(entries, n) && named_sound(entries, n) is Some,
            None => first_present(entries, candidates) is None,
        },
    decreases candidates.len(),
{
    if candidates.len() > 0 {
        lemma_first_present_name(entries, candidates.drop_first());
    }
}

/// The name of the clip that `resolve_sound` finds for `canonical_name`: the
/// first of its candidates that the package holds. It differs from
/// `canonical_name` when a substitute is used.
pub fn resolved_clip_name(effect: &Effect, canonical_name: &str) -> (r: Option<String>)
    ensures
        match r {
            Some(n) => {
                &&& first_present_name(effect@, canonical_candidates(canonical_name@)) == Some(n@)
                &&& first_present(effect@, canonical_candidates(canonical_name@)) == named_sound(
                    effect@,
                    n@,
                )
                &&& named_sound(effect@, n@) is Some
            },
            None => {
                &&& first_present_name(effect@, canonical_candidates(canonical_name@)) is None
                &&& first_present(effect@, canonical_candidates(canonical_name@)) is None
            },
        },
{
    let list = canonical_candidate_list(canonical_name);
    let ghost cs = list@.map_values(|s: &str| s@);
    proof {
        lemma_first_present_name(effect@, cs);
    }
    let mut i: usize = 0;
    assert(cs.subrange(0, cs.len() as int) =~= cs);
    while i < list.len()
        invariant
            i <= list.len(),
            cs == list@.map_values(|s: &str| s@),
            cs == canonical_candidates(canonical_name@),
            first_present_name(effect@, cs) == first_present_name(
                effect@,
                cs.subrange(i as int, cs.len() as int),
            ),
        decreases list.len() - i,
    {
        let name = list[i];
        let ghost rest = cs.subrange(i as int, cs.len() as int);
        assert(rest[0] == name@);
        match effect.get(name) {
            Some(_) => {
                assert(named_sound(effect@, rest[0]) is Some);
                assert(first_present_name(effect@, rest) == Some(name@));
                proof {
                    lemma_first_present_name(effect@, cs);
                }
                return Some(to_string(name));
            },
            None => {},
        }
        assert(rest.drop_first() =~= cs.subrange(i + 1, cs.len() as int));
        i = i + 1;
    }
    None
}

/// The decoder's command-line arguments: read any format from standard input
/// (with `extra` options after the input), write 2-channel `s16le` at 48 kHz
/// to standard output.
pub open spec fn decoder_args_spec(extra: Seq<Seq<char>>) -> Seq<Seq<char>> {
    seq!["-i"@, "-"@] + extra + seq!["-ac"@, "2"@, "-f"@, "s16le"@, "-ar"@, "48k"@, "-"@]
}

/// The encoder's command-line arguments: overwrite, read 2-channel `s16le` at
/// `bitrate` Hz from standard input, encode at 480 kbit/s into `path`.
pub open spec fn encoder_args_spec(bitrate: u32, path: Seq<char>) -> Seq<Seq<char>> {
    seq![
        "-y"@, "-f"@, "s16le"@, "-c:a"@, "pcm_s16le"@, "-ar"@, decimal(bitrate as nat), "-ac"@, "2"@, "-i"@, "-"@,
        "-b:a"@, "480k"@, "-maxrate"@, "480k"@, "-bufsize"@, "480k"@, "-minrate"@, "480k"@, path
    ]
}

/// The encoder reads its input as raw 16-bit little-endian stereo at the
/// sound's rate: `-f s16le`, `-ar <rate>` and `-ac 2` all stand before the
/// input `-i -`, which occurs once; the output file comes last.
pub proof fn lemma_encoder_input_options(bitrate: u32, path: Seq<char>)
    ensures
        ({
            let a = encoder_args_spec(bitrate, path);
            &&& a.len() == 20
            &&& a[0] == seq!['-', 'y']
            &&& a[1] == seq!['-', 'f'] && a[2] == seq!['s', '1', '6', 'l', 'e']
            &&& a[5] == seq!['-', 'a', 'r'] && a[6] == decimal(bitrate as nat)
            &&& a[7] == seq!['-', 'a', 'c'] && a[8] == seq!['2']
            &&& a[9] == seq!['-', 'i'] && a[10] == seq!['-']
            &&& a[19] == path
            &&& forall|j: int| 0 <= j < 19 && #[trigger] a[j] == seq!['-', 'i'] ==> j == 9
            &&& forall|j: int| 0 <= j < 19 && #[trigger] a[j] == seq!['-', 'a', 'c'] ==> j < 9
        }),
{
    reveal_strlit("-y");
    reveal_strlit("-f");
    reveal_strlit("s16le");
    reveal_strlit("-c:a");
    reveal_strlit("pcm_s16le");
    reveal_strlit("-ar");
    reveal_strlit("-ac");
    reveal_strlit("2");
    reveal_strlit("-i");
    reveal_strlit("-");
    reveal_strlit("-b:a");
    reveal_strlit("480k");
    reveal_strlit("-maxrate");
    reveal_strlit("-bufsize");
    reveal_strlit("-minrate");
    let a = encoder_args_spec(bitrate, path);
    assert("-y"@ =~= seq!['-', 'y']);
    assert("-f"@ =~= seq!['-', 'f']);
    assert("s16le"@ =~= seq!['s', '1', '6', 'l', 'e']);
    assert("-ar"@ =~= seq!['-', 'a', 'r']);
    assert("-ac"@ =~= seq!['-', 'a', 'c']);
    assert("2"@ =~= seq!['2']);
    assert("-i"@ =~= seq!['-', 'i']);
    assert("-"@ =~= seq!['-']);
    assert("-c:a"@.len() == 4 && "pcm_s16le"@.len() == 9 && "-b:a"@.len() == 4 && "480k"@.len() == 4);
    assert("-maxrate"@.len() == 8 && "-bufsize"@.len() == 8 && "-minrate"@.len() == 8);
    assert("-ar"@[2] != "-i"@[1] && "-ar"@[2] != "-ac"@[2]);
    assert forall|j: int| 0 <= j < 19 && #[trigger] a[j] == seq!['-', 'i'] implies j == 9 by {
        if j == 6 {
            lemma_decimal_not_option(bitrate as nat);
        }
    }
    assert forall|j: int| 0 <= j < 19 && #[trigger] a[j] == seq!['-', 'a', 'c'] implies j < 9 by {
        if j == 6 {
            lemma_decimal_not_option(bitrate as nat);
        }
    }
}

proof fn lemma_decimal_not_option(n: nat)
    ensures
        decimal(n).len() >= 1,
        decimal(n)[0] != '-',
    decreases n,
{
    if n >= 10 {
        lemma_decimal_not_option(n / 10);
        assert(decimal(n)[0] == decimal(n / 10)[0]);
    } else {
        assert(decimal(n)[0] == digit_char(n as int));
        assert(digit_char(n as int) as int == 48 + n);
        assert('-' as int == 45);
    }
}

/// The decoder reads its input from standard input first (`-i -`, then the
/// extra options), and only then sets the output's format: 2 channels of
/// `s16le` at 48 kHz, written to standard output last.
pub proof fn lemma_decoder_output_options(extra: Seq<Seq<char>>)
    ensures
        ({
            let a = decoder_args_spec(extra);
            let n = extra.len() as int;
            &&& a.len() == n + 9
            &&& a[0] == seq!['-', 'i'] && a[1] == seq!['-']
            &&& a.subrange(2, n + 2) == extra
            &&& a[n + 2] == seq!['-', 'a', 'c'] && a[n + 3] == seq!['2']
            &&& a[n + 4] == seq!['-', 'f'] && a[n + 5] == seq!['s', '1', '6', 'l', 'e']
            &&& a[n + 6] == seq!['-', 'a', 'r'] && a[n + 7] == seq!['4', '8', 'k']
            &&& a[n + 8] == seq!['-']
        }),
{
    reveal_strlit("-i");
    reveal_strlit("-");
    reveal_strlit("-ac");
    reveal_strlit("2");
    reveal_strlit("-f");
    reveal_strlit("s16le");
    reveal_strlit("-ar");
    reveal_strlit("48k");
    let a = decoder_args_spec(extra);
    let n = extra.len() as int;
    assert("-i"@ =~= seq!['-', 'i']);
    assert("-"@ =~= seq!['-']);
    assert("-ac"@ =~= seq!['-', 'a', 'c']);
    assert("2"@ =~= seq!['2']);
    assert("-f"@ =~= seq!['-', 'f']);
    assert("s16le"@ =~= seq!['s', '1', '6', 'l', 'e']);
    assert("-ar"@ =~= seq!['-', 'a', 'r']);
    assert("48k"@ =~= seq!['4', '8', 'k']);
    assert(a.subrange(2, n + 2) =~= extra);
}

/// Abstract value of a list of strings.
pub open spec fn strings_view(v: Seq<String>) -> Seq<Seq<char>> {
    v.map_values(|s: String| s@)
}

fn push_string(out: &mut Vec<String>, x: String)
    ensures
        strings_view(final(out)@) == strings_view(old(out)@).push(x@),
{
    let ghost start = out@;
    out.push(x);
    assert(strings_view(out@) =~= strings_view(start).push(x@)) by {
        assert forall|k: int| 0 <= k < out@.len() implies #[trigger] strings_view(out@)[k] == strings_view(start).push(
            x@,
        )[k] by {
            if k < start.len() {
                assert(out@[k] == start[k]);
            }
        }
    }
}

fn push_all(out: &mut Vec<String>, items: &Vec<&str>)
    ensures
        strings_view(final(out)@) == strings_view(old(out)@) + items@.map_values(|s: &str| s@),
{
    let mut i: usize = 0;
    let ghost start = out@;
    while i < items.len()
        invariant
            i <= items.len(),
            strings_view(out@) == strings_view(start) + items@.subrange(0, i as int).map_values(|s: &str| s@),
        decreases items.len() - i,
    {
        push_string(out, to_string(items[i]));
        i = i + 1;
        assert(items@.subrange(0, i as int).map_values(|s: &str| s@) =~= items@.subrange(0, i - 1).map_values(
            |s: &str| s@,
        ).push(items@[i - 1]@));
        assert(strings_view(out@) =~= strings_view(start) + items@.subrange(0, i as int).map_values(|s: &str| s@));
    }
    assert(items@.subrange(0, items.len() as int) =~= items@);
}

impl Sound {
    /// The arguments that decode audio into the samples `from_s16le` reads.
    pub fn decoder_args(extra: &[String]) -> (r: Vec<String>)
        ensures
            strings_view(r@) == decoder_args_spec(strings_view(extra@)),
    {
        let mut r: Vec<String> = Vec::new();
        let head: Vec<&str> = vec!["-i", "-"];
        push_all(&mut r, &head);
        let mut i: usize = 0;
        let ghost start = r@;
        while i < extra.len()
            invariant
                i <= extra.len(),
                strings_view(r@) == strings_view(start) + strings_view(extra@.subrange(0, i as int)),
            decreases extra.len() - i,
        {
            push_string(&mut r, extra[i].clone());
            i = i + 1;
            assert(strings_view(extra@.subrange(0, i as int)) =~= strings_view(extra@.subrange(0, i - 1)).push(
                extra@[i - 1]@,
            ));
            assert(strings_view(r@) =~= strings_view(start) + strings_view(extra@.subrange(0, i as int)));
        }
        assert(extra@.subrange(0, extra.len() as int) =~= extra@);
        let tail: Vec<&str> = vec!["-ac", "2", "-f", "s16le", "-ar", "48k", "-"];
        push_all(&mut r, &tail);
        assert(strings_view(r@) =~= decoder_args_spec(strings_view(extra@)));
        r
    }

    /// The arguments that encode this sound's samples, as `to_s16le` writes
    /// them, into the file `path`.
    pub fn encoder_args(&self, path: &str) -> (r: Vec<String>)
        ensures
            strings_view(r@) == encoder_args_spec(self.bitrate, path@),
    {
        let mut r: Vec<String> = Vec::new();
        let head: Vec<&str> = vec!["-y", "-f", "s16le", "-c:a", "pcm_s16le", "-ar"];
        push_all(&mut r, &head);
        push_string(&mut r, decimal_string(self.bitrate as usize));
        let tail: Vec<&str> = vec![
            "-ac", "2", "-i", "-", "-b:a", "480k", "-maxrate", "480k", "-bufsize", "480k", "-minrate", "480k",
        ];
        push_all(&mut r, &tail);
        push_string(&mut r, to_string(path));
        assert(strings_view(r@) =~= encoder_args_spec(self.bitrate, path@));
        r
    }
}

/// Mixing two sounds from their start gives the same samples whichever is
/// mixed into the other.
pub proof fn lemma_overlay_at_start_commutes(a: Seq<i16>, b: Seq<i16>)
    ensures
        overlay_at_spec(a, b, 0) == overlay_at_spec(b, a, 0),
{
    let x = overlay_at_spec(a, b, 0);
    let y = overlay_at_spec(b, a, 0);
    assert forall|i: int| 0 <= i < x.len() implies x[i] == y[i] by {
        lemma_padded_index(a, b.len() as int, i);
        lemma_padded_index(b, a.len() as int, i);
    }
    assert(x =~= y);
}

/// Mixing a sound into silence from the start gives that sound's samples.
pub proof fn lemma_overlay_into_empty(other: Seq<i16>)
    ensures
        overlay_at_spec(Seq::empty(), other, 0) == other,
{
    let x = overlay_at_spec(Seq::empty(), other, 0);
    assert forall|i: int| 0 <= i < other.len() implies x[i] == other[i] by {
        lemma_padded_index(Seq::empty(), other.len() as int, i);
    }
    assert(x =~= other);
}

/// A candidate list is a single clip other than the normal trace clip, or the
/// normal trace clip followed by its older name.
pub open spec fn candidate_shape(c: Seq<Seq<char>>) -> bool {
    ||| c.len() == 1 && c[0] != "Sekai Trace"@
    ||| c == seq!["Sekai Trace"@, "Sekai Normal Trace"@]
}

proof fn lemma_table_shapes()
    ensures
        forall|i: int|
            0 <= i < (sound_table() + loop_sound_table()).len() ==> candidate_shape(
                #[trigger] (sound_table() + loop_sound_table())[i].1,
            ),
{
    let t = sound_table() + loop_sound_table();
    assert(t.len() == 39);
    assert forall|i: int| 0 <= i < t.len() implies candidate_shape(#[trigger] t[i].1) by {
        lemma_table_row_shape(i);
    }
}

proof fn lemma_table_row_shape(i: int)
    requires
        0 <= i < 39,
    ensures
        candidate_shape((sound_table() + loop_sound_table())[i].1),
{
    reveal_strlit("Sekai Trace");
    reveal_strlit("#PERFECT");
    reveal_strlit("Sekai Critical Tap");
    reveal_strlit("#PERFECT_ALTERNATIVE");
    reveal_strlit("Sekai Critical Flick");
    reveal_strlit("Sekai Tick");
    reveal_strlit("Sekai Critical Tick");
    reveal_strlit("Sekai Critical Trace");
    reveal_strlit("#HOLD");
    reveal_strlit("Sekai Critical Hold");
    assert("Sekai Trace"@.len() == 11 && "#PERFECT"@.len() == 8 && "Sekai Critical Tap"@.len() == 18 && "#PERFECT_ALTERNATIVE"@.len() == 20 && "Sekai Critical Flick"@.len() == 20 && "Sekai Tick"@.len() == 10 && "Sekai Critical Tick"@.len() == 19 && "Sekai Critical Trace"@.len() == 20 && "#HOLD"@.len() == 5 && "Sekai Critical Hold"@.len() == 19);
    let a = sound_table();
    let b = loop_sound_table();
    assert(a.len() == 35 && b.len() == 4);
    if i < 35 {
        assert((a + b)[i] == a[i]);
    } else {
        assert((a + b)[i] == b[i - 35]);
    }
}

proof fn lemma_lookup_canonical_row(t: Seq<(Seq<char>, Seq<Seq<char>>)>, i: int)
    requires
        0 <= i < t.len(),
        forall|j: int| 0 <= j < t.len() ==> candidate_shape(#[trigger] t[j].1),
    ensures
        lookup_canonical(t, t[i].1[0]) == Some(t[i].1),
    decreases t.len(),
{
    let name = t[i].1[0];
    assert(candidate_shape(t[0].1));
    assert(candidate_shape(t[i].1));
    if t[0].1[0] == name {
        if t[0].1.len() == 1 && t[i].1.len() == 1 {
            assert(t[0].1 =~= t[i].1);
        }
    } else {
        let u = t.drop_first();
        assert forall|j: int| 0 <= j < u.len() implies candidate_shape(#[trigger] u[j].1) by {
            assert(u[j] == t[j + 1]);
        }
        assert(u[i - 1] == t[i]);
        lemma_lookup_canonical_row(u, i - 1);
    }
}

/// The first candidate of a list holds a sound whenever some candidate does.
proof fn lemma_first_present_some(entries: Seq<(String, Sound)>, cs: Seq<Seq<char>>, k: int)
    requires
        0 <= k < cs.len(),
        named_sound(entries, cs[k]) is Some,
    ensures
        first_present(entries, cs) is Some,
    decreases k,
{
    if k > 0 && named_sound(entries, cs[0]) is None {
        assert(cs.drop_first()[k - 1] == cs[k]);
        lemma_first_present_some(entries, cs.drop_first(), k - 1);
    }
}

/// Every archetype of either table finds its whole candidate list again from
/// its first clip, so a package that holds any of those candidates gives the
/// archetype a sound.
pub proof fn lemma_tables_resolve(entries: Seq<(String, Sound)>)
    ensures
        forall|i: int|
            0 <= i < sound_table().len() ==> canonical_candidates((#[trigger] sound_table()[i]).1[0])
                == sound_table()[i].1,
        forall|i: int|
            0 <= i < loop_sound_table().len() ==> canonical_candidates(
                (#[trigger] loop_sound_table()[i]).1[0],
            ) == loop_sound_table()[i].1,
        forall|i: int, k: int|
            0 <= i < sound_table().len() && 0 <= k < sound_table()[i].1.len() && named_sound(
                entries,
                #[trigger] sound_table()[i].1[k],
            ) is Some ==> first_present(entries, canonical_candidates(sound_table()[i].1[0])) is Some,
        forall|i: int, k: int|
            0 <= i < loop_sound_table().len() && 0 <= k < loop_sound_table()[i].1.len() && named_sound(
                entries,
                #[trigger] loop_sound_table()[i].1[k],
            ) is Some ==> first_present(entries, canonical_candidates(loop_sound_table()[i].1[0])) is Some,
{
    let t = sound_table() + loop_sound_table();
    let n = sound_table().len() as int;
    lemma_table_shapes();
    assert forall|i: int| 0 <= i < n implies canonical_candidates((#[trigger] sound_table()[i]).1[0])
        == sound_table()[i].1 by {
        assert(t[i] == sound_table()[i]);
        lemma_lookup_canonical_row(t, i);
    }
    assert forall|i: int| 0 <= i < loop_sound_table().len() implies canonical_candidates(
        (#[trigger] loop_sound_table()[i]).1[0],
    ) == loop_sound_table()[i].1 by {
        assert(t[n + i] == loop_sound_table()[i]);
        lemma_lookup_canonical_row(t, n + i);
    }
    assert forall|i: int, k: int|
        0 <= i < n && 0 <= k < sound_table()[i].1.len() && named_sound(
            entries,
            #[trigger] sound_table()[i].1[k],
        ) is Some implies first_present(entries, canonical_candidates(sound_table()[i].1[0])) is Some by {
        assert(canonical_candidates(sound_table()[i].1[0]) == sound_table()[i].1);
        lemma_first_present_some(entries, sound_table()[i].1, k);
    }
    assert forall|i: int, k: int|
        0 <= i < loop_sound_table().len() && 0 <= k < loop_sound_table()[i].1.len() && named_sound(
            entries,
            #[trigger] loop_sound_table()[i].1[k],
        ) is Some implies first_present(entries, canonical_candidates(loop_sound_table()[i].1[0])) is Some by {
        assert(canonical_candidates(loop_sound_table()[i].1[0]) == loop_sound_table()[i].1);
        lemma_first_present_some(entries, loop_sound_table()[i].1, k);
    }
}

proof fn lemma_padded_sample(s: Seq<i16>, n: int, i: int)
    requires
        0 <= i < padded(s, n).len(),
    ensures
        padded(s, n)[i] == sample_at(s, i),
        padded(s, n).len() == if s.len() >= n { s.len() as int } else { n },
{
}

/// Mixing `other` in at sample `start` gives a sound as long as the longer of
/// the base and the end of `other`, where each sample inside `other`'s range
/// is the saturating sum of the base's sample (silence past its end) and
/// `other`'s, and each sample outside it is the base's.
pub proof fn lemma_overlay_at_samples(base: Seq<i16>, other: Seq<i16>, start: int)
    requires
        start >= 0,
    ensures
        ({
            let r = overlay_at_spec(base, other, start);
            let end = start + other.len();
            &&& r.len() == if base.len() >= end { base.len() as int } else { end }
            &&& forall|i: int|
                0 <= i < r.len() ==> #[trigger] r[i] == if start <= i < end {
                    clamp_i16(sample_at(base, i) + other[i - start])
                } else {
                    sample_at(base, i)
                }
        }),
{
    let end = start + other.len();
    let p = padded(base, end);
    let m = mixed(other, p.subrange(start, end));
    let r = overlay_at_spec(base, other, start);
    assert(p.len() >= end);
    assert(m.len() == other.len());
    assert forall|i: int| 0 <= i < r.len() implies #[trigger] r[i] == if start <= i < end {
        clamp_i16(sample_at(base, i) + other[i - start])
    } else {
        sample_at(base, i)
    } by {
        lemma_padded_sample(base, end, i);
        if i < start {
            assert(r[i] == p[i]);
        } else if i < end {
            assert(r[i] == m[i - start]);
            assert(p.subrange(start, end)[i - start] == p[i]);
        } else {
            assert(r[i] == p[i]);
        }
    }
}

/// Mixing `other` in, looped, over the samples `start..end` gives a sound as
/// long as the longer of the base and `end`, where each sample inside the
/// range is the saturating sum of the base's sample (silence past its end)
/// and `other`'s sample at the offset into the range modulo `other`'s length,
/// and each sample outside it is the base's.
pub proof fn lemma_overlay_loop_samples(base: Seq<i16>, other: Seq<i16>, start: int, end: int)
    requires
        0 <= start <= end,
        other.len() > 0,
    ensures
        ({
            let r = overlay_loop_spec(base, other, start, end);
            &&& r.len() == if base.len() >= end { base.len() as int } else { end }
            &&& forall|i: int|
                0 <= i < r.len() ==> #[trigger] r[i] == if start <= i < end {
                    clamp_i16(sample_at(base, i) + other[(i - start) % (other.len() as int)])
                } else {
                    sample_at(base, i)
                }
        }),
{
    let p = padded(base, end);
    let c = cycled(other, end - start);
    let m = mixed(c, p.subrange(start, end));
    let r = overlay_loop_spec(base, other, start, end);
    assert(p.len() >= end);
    assert(m.len() == end - start);
    assert forall|i: int| 0 <= i < r.len() implies #[trigger] r[i] == if start <= i < end {
        clamp_i16(sample_at(base, i) + other[(i - start) % (other.len() as int)])
    } else {
        sample_at(base, i)
    } by {
        lemma_padded_sample(base, end, i);
        if i < start {
            assert(r[i] == p[i]);
        } else if i < end {
            assert(r[i] == m[i - start]);
            assert(p.subrange(start, end)[i - start] == p[i]);
            assert(c[i - start] == other[(i - start) % (other.len() as int)]);
        } else {
            assert(r[i] == p[i]);
        }
    }
}

/// Mixing `other` in over `start..e`, with `e` the end cut down to `other`'s
/// length, gives a sound one sample shorter than the longer of the base and
/// `e`: the base's samples before `start`, the saturating sums over
/// `start..e - 1`, then the base's samples from `e` on (the sample at
/// `e - 1` is dropped).
pub proof fn lemma_overlay_until_samples(base: Seq<i16>, other: Seq<i16>, start: int, end: int)
    requires
        0 <= start < end,
        other.len() > 0,
    ensures
        ({
            let r = overlay_until_spec(base, other, start, end);
            let e = until_end(other, start, end);
            &&& r.len() == (if base.len() >= e { base.len() as int } else { e }) - 1
            &&& forall|i: int|
                0 <= i < r.len() ==> #[trigger] r[i] == if i < start {
                    sample_at(base, i)
                } else if i < e - 1 {
                    clamp_i16(sample_at(base, i) + other[i - start])
                } else {
                    sample_at(base, i + 1)
                }
        }),
{
    let e = until_end(other, start, end);
    let p = padded(base, e);
    let m = mixed(other, p.subrange(start, e - 1));
    let r = overlay_until_spec(base, other, start, end);
    assert(start < e <= start + other.len());
    assert(p.len() >= e);
    assert(m.len() == e - 1 - start);
    assert forall|i: int| 0 <= i < r.len() implies #[trigger] r[i] == if i < start {
        sample_at(base, i)
    } else if i < e - 1 {
        clamp_i16(sample_at(base, i) + other[i - start])
    } else {
        sample_at(base, i + 1)
    } by {
        if i < start {
            lemma_padded_sample(base, e, i);
            assert(r[i] == p[i]);
        } else if i < e - 1 {
            lemma_padded_sample(base, e, i);
            assert(r[i] == m[i - start]);
            assert(p.subrange(start, e - 1)[i - start] == p[i]);
        } else {
            lemma_padded_sample(base, e, i + 1);
            assert(r[i] == p[i + 1]);
        }
    }
}

} // verus!
