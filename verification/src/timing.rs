//! The timing of a Morse message as sound: tones and silences, in samples.
use vstd::prelude::*;
use crate::text::{is_ascii_ws, ascii_ws, chars_of};
use crate::decode::{MorseGap, run_gap};

verus! {

/// A stretch of the rendered sound: a tone or a silence, so many samples long.
#[derive(Debug, Clone, Copy, PartialEq, Eq, Structural)]
pub struct Segment {
    pub tone: bool,
    pub samples: u64,
}

/// The timing of a message: the samples in one Morse unit, the samples over
/// which each tone fades in and out, and the segments in order.
#[derive(Debug, Clone)]
pub struct SynthesisPlan {
    pub unit_samples: u64,
    pub fade_samples: u64,
    pub segments: Vec<Segment>,
}

/// Silence, in units, for a gap between letters (3), words (7) or paragraphs (14).
pub open spec fn gap_units(g: MorseGap) -> nat {
    match g {
        MorseGap::Letter => 3,
        MorseGap::Word => 7,
        MorseGap::Paragraph => 14,
    }
}

/// The end of the whitespace run of `s` that starts at `j`.
pub open spec fn run_end(s: Seq<char>, j: int) -> int
    decreases s.len() - j,
{
    if 0 <= j < s.len() && is_ascii_ws(s[j]) {
        run_end(s, j + 1)
    } else {
        j
    }
}

pub open spec fn is_dot_or_dash(c: char) -> bool {
    c == '.' || c == '-'
}

/// The tones and silences, in units, of the Morse in `s` from position `i`:
/// a dot sounds for one unit and a dash for three; after a dot or a dash
/// comes one unit of silence before the next signal of the letter, three,
/// seven or fourteen units for a letter, word or paragraph gap of
/// whitespace, and seven units for `/`. Other characters make no sound.
pub open spec fn plan_from(s: Seq<char>, i: int) -> Seq<(bool, nat)>
    decreases s.len() - i, 1int,
{
    if i < 0 || i >= s.len() {
        Seq::empty()
    } else if is_dot_or_dash(s[i]) {
        let tone = seq![(true, if s[i] == '.' { 1nat } else { 3nat })];
        if i + 1 < s.len() && is_dot_or_dash(s[i + 1]) {
            tone + seq![(false, 1nat)] + plan_from(s, i + 1)
        } else if i + 1 < s.len() && is_ascii_ws(s[i + 1]) {
            plan_after_run(s, i)
        } else if i + 1 < s.len() && s[i + 1] == '/' {
            tone + seq![(false, 7nat)] + plan_from(s, i + 2)
        } else {
            tone + plan_from(s, i + 1)
        }
    } else {
        plan_from(s, i + 1)
    }
}

/// The plan from the signal at `i`, which a whitespace run follows.
pub open spec fn plan_after_run(s: Seq<char>, i: int) -> Seq<(bool, nat)>
    decreases s.len() - i, 0int,
{
    if 0 <= i && i + 1 < s.len() {
        let e = run_end(s, i + 1);
        let tone = seq![(true, if s[i] == '.' { 1nat } else { 3nat })];
        if i + 1 < e <= s.len() {
            tone + seq![(false, gap_units(run_gap(s.subrange(i + 1, e))))] + plan_from(s, e)
        } else {
            Seq::empty()
        }
    } else {
        Seq::empty()
    }
}

/// The samples in one unit: the sample rate times the unit in milliseconds,
/// over 1000, and at least one.
pub open spec fn unit_samples_spec(sample_rate: u32, unit_ms: u32) -> nat {
    let n = (sample_rate as nat * unit_ms as nat) / 1000;
    if n >= 1 {
        n
    } else {
        1
    }
}

/// The fade: five milliseconds of samples, but at most half a unit.
pub open spec fn fade_samples_spec(sample_rate: u32, unit_samples: nat) -> nat {
    let five_ms = sample_rate as nat / 200;
    let half_unit = unit_samples / 2;
    if five_ms <= half_unit {
        five_ms
    } else {
        half_unit
    }
}

/// `segments` sounds out the plan `p` with `unit` samples to a unit.
pub open spec fn sounds_out(segments: Seq<Segment>, p: Seq<(bool, nat)>, unit: nat) -> bool {
    &&& segments.len() == p.len()
    &&& forall|k: int|
        0 <= k < p.len() ==> (#[trigger] segments[k]).tone == p[k].0 && segments[k].samples == p[k].1
            * unit
}

proof fn lemma_sounds_out_push(segments: Seq<Segment>, p: Seq<(bool, nat)>, unit: nat, seg: Segment, q: (bool, nat))
    requires
        sounds_out(segments, p, unit),
        seg.tone == q.0,
        seg.samples == q.1 * unit,
    ensures
        sounds_out(segments.push(seg), p.push(q), unit),
{
    let s2 = segments.push(seg);
    let p2 = p.push(q);
    assert forall|k: int| 0 <= k < p2.len() implies (#[trigger] s2[k]).tone == p2[k].0
        && s2[k].samples == p2[k].1 * unit by {
        if k < p.len() {
            assert(s2[k] == segments[k]);
            assert(p2[k] == p[k]);
        }
    }
}

/// Lays out the sound of the Morse in `morse`: its tones and silences in
/// samples, at `sample_rate` samples a second and `unit_ms` milliseconds to a unit.
pub fn synthesis_plan(morse: &str, unit_ms: u32, sample_rate: u32) -> (r: SynthesisPlan)
    ensures
        r.unit_samples == unit_samples_spec(sample_rate, unit_ms),
        r.fade_samples == fade_samples_spec(sample_rate, r.unit_samples as nat),
        sounds_out(r.segments@, plan_from(morse@, 0), r.unit_samples as nat),
{
    assert(sample_rate as nat * unit_ms as nat <= 0xffff_ffffnat * 0xffff_ffffnat) by (nonlinear_arith)
        requires
            sample_rate <= 0xffff_ffff,
            unit_ms <= 0xffff_ffff,
    ;
    let product: u64 = sample_rate as u64 * unit_ms as u64;
    let per_unit = product / 1000;
    let unit_samples: u64 = if per_unit >= 1 { per_unit } else { 1 };
    assert(unit_samples <= 18446744073709552) by (nonlinear_arith)
        requires
            product == sample_rate as u64 * unit_ms as u64,
            per_unit == product / 1000,
            unit_samples == if per_unit >= 1 { per_unit } else { 1 },
            sample_rate <= 4294967295,
            unit_ms <= 4294967295,
    ;
    let five_ms: u64 = sample_rate as u64 / 200;
    let half_unit: u64 = unit_samples / 2;
    let fade_samples: u64 = if five_ms <= half_unit { five_ms } else { half_unit };
    let symbols = chars_of(morse);
    let ghost s = symbols@;
    let ghost unit = unit_samples as nat;
    let mut segments: Vec<Segment> = Vec::new();
    let ghost mut done: Seq<(bool, nat)> = Seq::empty();
    let mut index: usize = 0;
    assert(done + plan_from(s, 0) =~= plan_from(s, 0));
    while index < symbols.len()
        invariant
            s == symbols@,
            s == morse@,
            unit == unit_samples as nat,
            unit_samples <= 18446744073709552,
            index <= s.len(),
            plan_from(s, 0) == done + plan_from(s, index as int),
            sounds_out(segments@, done, unit),
        decreases symbols.len() - index,
    {
        let symbol = symbols[index];
        if symbol == '.' || symbol == '-' {
            let tone_units: u64 = if symbol == '.' { 1 } else { 3 };
            let ghost tone = seq![(true, tone_units as nat)];
            let tone_segment = Segment { tone: true, samples: tone_units * unit_samples };
            proof {
                lemma_sounds_out_push(segments@, done, unit, tone_segment, (true, tone_units as nat));
            }
            segments.push(tone_segment);
            proof {
                done = done.push((true, tone_units as nat));
            }
            if index + 1 < symbols.len() {
                let next = symbols[index + 1];
                if next == '.' || next == '-' {
                    let silence = Segment { tone: false, samples: unit_samples };
                    proof {
                        lemma_sounds_out_push(segments@, done, unit, silence, (false, 1nat));
                        assert(plan_from(s, index as int) == tone + seq![(false, 1nat)] + plan_from(s, index + 1));
                        assert(done.push((false, 1nat)) + plan_from(s, index + 1) =~= done.drop_last() + plan_from(s, index as int));
                        done = done.push((false, 1nat));
                    }
                    segments.push(silence);
                    index += 1;
                    continue;
                } else if ascii_ws(next) {
                    let gap_start = index + 1;
                    let mut gap_end = gap_start;
                    while gap_end < symbols.len() && ascii_ws(symbols[gap_end])
                        invariant
                            s == symbols@,
                            gap_start <= gap_end <= s.len(),
                            run_end(s, gap_end as int) == run_end(s, gap_start as int),
                            forall|j: int| gap_start <= j < gap_end ==> is_ascii_ws(#[trigger] s[j]),
                        decreases symbols.len() - gap_end,
                    {
                        gap_end += 1;
                    }
                    assert(gap_end > gap_start);
                    let silence_units: u64 = if gap_end - gap_start == 1 && symbols[gap_start] == ' ' {
                        3
                    } else if gap_end - gap_start == 2 && symbols[gap_start] == ' ' && symbols[gap_start + 1] == ' ' {
                        7
                    } else {
                        14
                    };
                    let ghost g = run_gap(s.subrange(gap_start as int, gap_end as int));
                    assert(run_end(s, gap_end as int) == gap_end as int);
                    assert(plan_after_run(s, index as int) == tone + seq![(false, gap_units(g))] + plan_from(s, gap_end as int));
                    assert(silence_units == gap_units(g));
                    let silence = Segment { tone: false, samples: silence_units * unit_samples };
                    proof {
                        lemma_sounds_out_push(segments@, done, unit, silence, (false, gap_units(g)));
                        assert(plan_from(s, index as int) == tone + seq![(false, gap_units(g))] + plan_from(s, gap_end as int));
                        assert(done.push((false, gap_units(g))) + plan_from(s, gap_end as int) =~= done.drop_last() + plan_from(s, index as int));
                        done = done.push((false, gap_units(g)));
                    }
                    segments.push(silence);
                    index = gap_end;
                    continue;
                } else if next == '/' {
                    let silence = Segment { tone: false, samples: 7 * unit_samples };
                    proof {
                        lemma_sounds_out_push(segments@, done, unit, silence, (false, 7nat));
                        assert(plan_from(s, index as int) == tone + seq![(false, 7nat)] + plan_from(s, index + 2));
                        assert(done.push((false, 7nat)) + plan_from(s, index + 2) =~= done.drop_last() + plan_from(s, index as int));
                        done = done.push((false, 7nat));
                    }
                    segments.push(silence);
                    index += 2;
                    continue;
                }
            }
            proof {
                assert(plan_from(s, index as int) == tone + plan_from(s, index + 1));
                assert(done + plan_from(s, index + 1) =~= done.drop_last() + plan_from(s, index as int));
            }
        }
        index += 1;
    }
    assert(plan_from(s, index as int) == Seq::<(bool, nat)>::empty());
    assert(done + plan_from(s, index as int) =~= done);
    SynthesisPlan { unit_samples, fade_samples, segments }
}

/// The length of the sound, in samples.
pub open spec fn total_samples_spec(segments: Seq<Segment>) -> nat
    decreases segments.len(),
{
    if segments.len() == 0 {
        0
    } else {
        total_samples_spec(segments.drop_last()) + segments.last().samples as nat
    }
}

impl SynthesisPlan {
    /// The number of samples that the rendered sound holds.
    pub fn total_samples(&self) -> (r: u128)
        ensures
            r == total_samples_spec(self.segments@),
    {
        let mut total: u128 = 0;
        for i in 0..self.segments.len()
            invariant
                total == total_samples_spec(self.segments@.take(i as int)),
                total <= i * 0x1_0000_0000_0000_0000,
        {
            assert(self.segments@.take(i + 1).drop_last() == self.segments@.take(i as int));
            total = total + self.segments[i].samples as u128;
        }
        assert(self.segments@.take(self.segments.len() as int) == self.segments@);
        total
    }
}

} // verus!
