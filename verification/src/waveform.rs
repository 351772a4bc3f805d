//! The timbres a tone can be rendered in.
use vstd::prelude::*;
use crate::text::{ascii_lower, to_ascii_lower, chars_of, message};
use crate::table::same_chars;

verus! {

/// The shape of the tone's wave.
#[derive(Debug, Clone, Copy, PartialEq, Eq, Structural)]
pub enum Waveform {
    Sine,
    Square,
    Triangle,
    Sawtooth,
    Piano,
}

/// `s` with its ASCII upper-case letters in lower case.
pub open spec fn lowercase(s: Seq<char>) -> Seq<char> {
    s.map_values(|c: char| ascii_lower(c))
}

pub open spec fn unsupported_timbre_error(s: Seq<char>) -> Seq<char> {
    "unsupported timbre '"@ + s + "'; use sine, square, triangle, sawtooth, or piano"@
}

/// The timbre that a name stands for, in any case: `sine` or `sin`,
/// `square`, `triangle` or `tri`, `saw` or `sawtooth`, `piano`.
pub open spec fn waveform_spec(s: Seq<char>) -> Result<Waveform, Seq<char>> {
    let l = lowercase(s);
    if l == "sine"@ || l == "sin"@ {
        Ok(Waveform::Sine)
    } else if l == "square"@ {
        Ok(Waveform::Square)
    } else if l == "triangle"@ || l == "tri"@ {
        Ok(Waveform::Triangle)
    } else if l == "saw"@ || l == "sawtooth"@ {
        Ok(Waveform::Sawtooth)
    } else if l == "piano"@ {
        Ok(Waveform::Piano)
    } else {
        Err(unsupported_timbre_error(s))
    }
}

fn is_name(lower: &Vec<char>, name: &str) -> (r: bool)
    ensures
        r == (lower@ == name@),
{
    let v = chars_of(name);
    same_chars(lower, &v)
}

impl Waveform {
    /// Reads a timbre name.
    pub fn parse(value: &str) -> (r: Result<Self, String>)
        ensures
            match waveform_spec(value@) {
                Ok(w) => r == Ok::<Waveform, String>(w),
                Err(e) => r matches Err(m) && m@ == e,
            },
    {
        let characters = chars_of(value);
        let mut lower: Vec<char> = Vec::new();
        for i in 0..characters.len()
            invariant
                characters@ == value@,
                lower@ == lowercase(characters@.take(i as int)),
        {
            lower.push(to_ascii_lower(characters[i]));
            assert(lower@ =~= lowercase(characters@.take(i + 1)));
        }
        assert(characters@.take(characters.len() as int) == characters@);
        if is_name(&lower, "sine") || is_name(&lower, "sin") {
            Ok(Waveform::Sine)
        } else if is_name(&lower, "square") {
            Ok(Waveform::Square)
        } else if is_name(&lower, "triangle") || is_name(&lower, "tri") {
            Ok(Waveform::Triangle)
        } else if is_name(&lower, "saw") || is_name(&lower, "sawtooth") {
            Ok(Waveform::Sawtooth)
        } else if is_name(&lower, "piano") {
            Ok(Waveform::Piano)
        } else {
            Err(message("unsupported timbre '", &characters, "'; use sine, square, triangle, sawtooth, or piano"))
        }
    }
}

} // verus!
