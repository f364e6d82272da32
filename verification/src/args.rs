//! The settings of a run, with what stands in for those left out.

use vstd::prelude::*;
use vstd::string::StringSliceAdditionalSpecFns;

verus! {

/// The width of the image where none is asked for.
pub const DEFAULT_WIDTH: usize = 800;

/// The antialiasing factor where none is asked for.
pub const DEFAULT_ANTIALIAS: usize = 1;

/// The byte is a decimal digit.
pub open spec fn is_digit(byte: u8) -> bool {
    0x30 <= byte <= 0x39
}

/// The number that a row of decimal digits stands for.
pub open spec fn digits_value(digits: Seq<u8>) -> nat
    decreases digits.len(),
{
    if digits.len() == 0 {
        0
    } else {
        digits_value(digits.drop_last()) * 10 + (digits.last() - 0x30) as nat
    }
}

/// What is left of a number's text without the `+` that may stand in
/// front of it.
pub open spec fn without_sign(bytes: Seq<u8>) -> Seq<u8> {
    if bytes.len() > 0 && bytes[0] == 0x2b {
        bytes.subrange(1, bytes.len() as int)
    } else {
        bytes
    }
}

/// The number that a text stands for: at least one decimal digit and
/// nothing else but a `+` in front, with a value that fits in a
/// `usize`. Any other text stands for no number.
pub open spec fn parsed_number(bytes: Seq<u8>) -> Option<usize> {
    let digits = without_sign(bytes);
    if digits.len() > 0 && (forall|i: int| 0 <= i < digits.len() ==> is_digit(#[trigger] digits[i]))
        && digits_value(digits) <= usize::MAX {
        Some(digits_value(digits) as usize)
    } else {
        None
    }
}

/// More digits never stand for a smaller number.
proof fn lemma_digits_value_grows(digits: Seq<u8>, shorter: int)
    requires
        0 <= shorter <= digits.len(),
        forall|i: int| 0 <= i < digits.len() ==> is_digit(#[trigger] digits[i]),
    ensures
        digits_value(digits.subrange(0, shorter)) <= digits_value(digits),
    decreases digits.len() - shorter,
{
    if shorter < digits.len() {
        let longer = digits.subrange(0, shorter + 1);
        assert(longer.drop_last() == digits.subrange(0, shorter));
        assert(is_digit(digits[shorter]));
        lemma_digits_value_grows(digits, shorter + 1);
    } else {
        assert(digits.subrange(0, shorter) == digits);
    }
}

/// The number that `text` stands for, if it stands for one.
pub fn parse_number(text: &str) -> (number: Option<usize>)
    ensures
        number == parsed_number(text.spec_bytes()),
{
    let bytes = text.as_bytes();
    let start: usize = if bytes.len() > 0 && bytes[0] == 0x2b {
        1
    } else {
        0
    };
    let ghost digits = without_sign(bytes@);
    assert(digits == bytes@.subrange(start as int, bytes@.len() as int));
    if start == bytes.len() {
        return None;
    }
    let mut value: usize = 0;
    let mut next: usize = start;
    while next < bytes.len()
        invariant
            start <= next <= bytes@.len(),
            bytes@ == text.spec_bytes(),
            digits == without_sign(bytes@),
            digits == bytes@.subrange(start as int, bytes@.len() as int),
            forall|i: int| 0 <= i < next - start ==> is_digit(#[trigger] digits[i]),
            value == digits_value(digits.subrange(0, next - start)),
        decreases bytes@.len() - next,
    {
        let byte = bytes[next];
        assert(digits[next - start] == byte);
        if byte < 0x30 || byte > 0x39 {
            return None;
        }
        let ghost longer = digits.subrange(0, next - start + 1);
        assert(longer.drop_last() == digits.subrange(0, next - start));
        assert(longer.last() == byte);
        let grown = match value.checked_mul(10) {
            Some(tenfold) => tenfold.checked_add((byte - 0x30) as usize),
            None => None,
        };
        match grown {
            Some(sum) => {
                value = sum;
            },
            None => {
                proof {
                    if forall|i: int| 0 <= i < digits.len() ==> is_digit(#[trigger] digits[i]) {
                        lemma_digits_value_grows(digits, next - start + 1);
                    }
                }
                return None;
            },
        }
        next = next + 1;
    }
    assert(digits.subrange(0, next - start) == digits);
    Some(value)
}

/// The settings of a run. The render is `antialias_factor` times the
/// output along both axes.
pub struct CommandLineArguments {
    pub filename: String,
    pub output_width: usize,
    pub output_height: usize,
    pub antialias_factor: usize,
    pub render_width: usize,
    pub render_height: usize,
}

/// What counts for a setting: its value where one is given, else
/// `fallback`.
pub open spec fn setting(value: Option<usize>, fallback: usize) -> usize {
    match value {
        Some(given) => given,
        None => fallback,
    }
}

/// The output width for the given settings.
pub open spec fn output_width_of(width: Option<usize>) -> usize {
    setting(width, DEFAULT_WIDTH)
}

/// The output height for the given settings: where none is given, the
/// image is square.
pub open spec fn output_height_of(width: Option<usize>, height: Option<usize>) -> usize {
    setting(height, output_width_of(width))
}

/// Both sides of the render fit in a `usize`.
pub open spec fn render_fits(antialias: Option<usize>, width: Option<usize>, height: Option<usize>) -> bool {
    &&& output_width_of(width) * setting(antialias, DEFAULT_ANTIALIAS) <= usize::MAX
    &&& output_height_of(width, height) * setting(antialias, DEFAULT_ANTIALIAS) <= usize::MAX
}

/// A render at `factor` times the output size shrinks by `factor`
/// back to the output size exactly.
pub proof fn lemma_render_shrinks_to_output(output: nat, factor: nat)
    requires
        factor > 0,
    ensures
        (output * factor) / factor == output,
{
    assert((output * factor) / factor == output) by (nonlinear_arith)
        requires
            factor > 0,
    ;
}

/// The value of a setting given as text: none where the setting is left
/// out or its text stands for no number.
pub open spec fn given_number(text: Option<&str>) -> Option<usize> {
    match text {
        Some(text) => parsed_number(text.spec_bytes()),
        None => None,
    }
}

impl CommandLineArguments {
    /// The settings of a run from the words given on the command line.
    /// A setting that is left out, or whose text is no number, gets
    /// what stands in for it, as `resolve` says.
    pub fn from_values(
        output: Option<&str>,
        antialias: Option<&str>,
        width: Option<&str>,
        height: Option<&str>,
    ) -> (resolved: Option<Self>)
        ensures
            resolved is Some <==> render_fits(
                given_number(antialias),
                given_number(width),
                given_number(height),
            ),
            match resolved {
                Some(args) => {
                    &&& args.filename@ == match output {
                        Some(name) => name@,
                        None => "out.png"@,
                    }
                    &&& args.antialias_factor == setting(given_number(antialias), DEFAULT_ANTIALIAS)
                    &&& args.output_width == output_width_of(given_number(width))
                    &&& args.output_height == output_height_of(
                        given_number(width),
                        given_number(height),
                    )
                    &&& args.render_width == args.output_width * args.antialias_factor
                    &&& args.render_height == args.output_height * args.antialias_factor
                },
                None => true,
            },
    {
        let filename = match output {
            Some(name) => Some(name.to_owned()),
            None => None,
        };
        let antialias = match antialias {
            Some(text) => parse_number(text),
            None => None,
        };
        let width = match width {
            Some(text) => parse_number(text),
            None => None,
        };
        let height = match height {
            Some(text) => parse_number(text),
            None => None,
        };
        CommandLineArguments::resolve(filename, antialias, width, height)
    }

    /// The settings of a run from what was given on the command line.
    /// Left out, the file is `out.png`, the factor 1, the width 800, and
    /// the height the width. `None` comes back exactly where a side of
    /// the render does not fit in a `usize`.
    pub fn resolve(
        output: Option<String>,
        antialias: Option<usize>,
        width: Option<usize>,
        height: Option<usize>,
    ) -> (resolved: Option<Self>)
        ensures
            resolved is Some <==> render_fits(antialias, width, height),
            match resolved {
                Some(args) => {
                    &&& args.filename@ == match output {
                        Some(name) => name@,
                        None => "out.png"@,
                    }
                    &&& args.antialias_factor == setting(antialias, DEFAULT_ANTIALIAS)
                    &&& args.output_width == output_width_of(width)
                    &&& args.output_height == output_height_of(width, height)
                    &&& args.render_width == args.output_width * args.antialias_factor
                    &&& args.render_height == args.output_height * args.antialias_factor
                },
                None => true,
            },
    {
        let filename = match output {
            Some(name) => name,
            None => "out.png".to_owned(),
        };
        let antialias_factor = match antialias {
            Some(given) => given,
            None => DEFAULT_ANTIALIAS,
        };
        let output_width = match width {
            Some(given) => given,
            None => DEFAULT_WIDTH,
        };
        let output_height = match height {
            Some(given) => given,
            None => output_width,
        };
        match output_width.checked_mul(antialias_factor) {
            Some(render_width) => match output_height.checked_mul(antialias_factor) {
                Some(render_height) => Some(
                    CommandLineArguments {
                        filename,
                        output_width,
                        output_height,
                        antialias_factor,
                        render_width,
                        render_height,
                    },
                ),
                None => None,
            },
            None => None,
        }
    }
}

} // verus!
