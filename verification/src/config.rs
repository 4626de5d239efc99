//! The configuration of a run: common settings, processing chains and
//! rejection rules as they are written on a command line.

use crate::fraction::{
    all_digits, decimal_value, digits_value, is_decimal, lemma_position_of, parse_decimal,
    position_of, read_digits, Fraction,
};
use crate::rejection::Rejection;
use vstd::prelude::*;
use vstd::slice::slice_subrange;
use vstd::string::*;

verus! {

/// The working color space of a run.
#[derive(Debug, Copy, Clone, PartialEq, Eq, Structural)]
pub enum Colorspace {
    Srgb,
    Linear,
    Quadratic,
    Sqrt,
}

/// Settings shared by every stage of a run.
#[derive(Debug, Copy, Clone, PartialEq, Eq, Structural)]
pub struct CommonArgs {
    /// Color space that frames are worked on in.
    pub colorspace: Colorspace,
    /// Most frames to take.
    pub num_files: usize,
    /// Frames to pass over at the start.
    pub skip_files: usize,
}

impl Default for CommonArgs {
    fn default() -> (args: CommonArgs)
        ensures
            args == (CommonArgs { colorspace: Colorspace::Srgb, num_files: 100, skip_files: 0 }),
    {
        CommonArgs { colorspace: Colorspace::Srgb, num_files: 100, skip_files: 0 }
    }
}

/// One step of a processing chain, with its parameter.
#[derive(Debug, Copy, Clone, PartialEq, Eq, Structural)]
pub enum Processing {
    Average,
    Maxscale,
    MaxscaleFixed(Fraction),
    Sqrt,
    Asinh,
    Sharpen,
    /// Sobel edge detection behind a blur of the given strength.
    Sobel(i32),
    /// Gaussian blur with the given sigma.
    Blur(Fraction),
    /// Median over the pixels within the given radius.
    Median(u32),
    /// Blackens every pixel below the threshold.
    BGone(Fraction),
    /// Black below the threshold, white from it on.
    BlackWhite(Fraction),
    /// Descriptor-based feature detection with the given threshold.
    Akaze(Fraction),
    /// Detection of the single bright region with the given threshold.
    SingleObjectDetection(Fraction),
    /// Brightness-weighted centroid with the given threshold.
    AverageBrightnessAlignment(Fraction),
}

/// Why a step or a rule could not be read.
#[derive(Debug, Copy, Clone, PartialEq, Eq, Structural)]
pub enum ParseError {
    /// The name is that of no processing step.
    UnknownProcessing,
    /// The name is that of no rejection rule.
    UnknownRejection,
    /// The step takes no value and one was given.
    NoValueAllowed,
    /// The value is not a number that the step or rule can take.
    InvalidNumber,
}

impl ParseError {
    /// What to tell the user.
    pub open spec fn text(&self) -> Seq<char> {
        match self {
            ParseError::UnknownProcessing =>
                "unknown processing, allowed values are `average`, `maxscale`, `sqrt`, \
                 `asinh`, `sharpen`, `akaze=0.0008`, `sobel=0`, `blur=1.0`, `median=2`, \
                 `bgone=0.2`, `bw=0.2`, `sod=0.2`, `aba=0.2`"@,
            ParseError::UnknownRejection =>
                "unknown rejection, allowed values are `averagesod=0.01`, \
                 `averageaba=0.01`, `regressionakaze=0.001`, `regressionsod=0.001`, \
                 `regressionaba=0.001`, `widthheight=0.02`"@,
            ParseError::NoValueAllowed => "no value allowed"@,
            ParseError::InvalidNumber => "invalid number"@,
        }
    }

    /// What to tell the user: for an unknown name, the names that are
    /// allowed.
    pub fn message(&self) -> (text: String)
        ensures
            text@ == self.text(),
    {
        match self {
            ParseError::UnknownProcessing => String::from_str(
                "unknown processing, allowed values are `average`, `maxscale`, `sqrt`, \
                 `asinh`, `sharpen`, `akaze=0.0008`, `sobel=0`, `blur=1.0`, `median=2`, \
                 `bgone=0.2`, `bw=0.2`, `sod=0.2`, `aba=0.2`",
            ),
            ParseError::UnknownRejection => String::from_str(
                "unknown rejection, allowed values are `averagesod=0.01`, \
                 `averageaba=0.01`, `regressionakaze=0.001`, `regressionsod=0.001`, \
                 `regressionaba=0.001`, `widthheight=0.02`",
            ),
            ParseError::NoValueAllowed => String::from_str("no value allowed"),
            ParseError::InvalidNumber => String::from_str("invalid number"),
        }
    }
}

/// The name of a step or rule: what stands before the first `=`.
pub open spec fn name_part(text: Seq<u8>) -> Seq<u8> {
    text.subrange(0, position_of(text, 61))
}

/// The value of a step or rule: what stands between the first `=` and the
/// second, or the end; none where there is no `=`.
pub open spec fn value_part(text: Seq<u8>) -> Option<Seq<u8>> {
    let first = position_of(text, 61);
    if first >= text.len() {
        None
    } else {
        let rest = text.subrange(first + 1, text.len() as int);
        Some(rest.subrange(0, position_of(rest, 61)))
    }
}

/// The fraction that a step or rule gets: the one written, or `default`
/// where none is written.
pub open spec fn fraction_or(value: Option<Seq<u8>>, default: Fraction) -> Result<
    Fraction,
    ParseError,
> {
    match value {
        None => Ok(default),
        Some(text) => if is_decimal(text) {
            Ok(decimal_value(text))
        } else {
            Err(ParseError::InvalidNumber)
        },
    }
}

/// Whether `text` is a whole number that fits 32 bits without a sign.
pub open spec fn is_unsigned(text: Seq<u8>) -> bool {
    text.len() >= 1 && all_digits(text) && digits_value(text) <= u32::MAX
}

/// Whether `text` is a whole number, with or without a minus sign, that fits
/// 32 bits with a sign.
pub open spec fn is_signed(text: Seq<u8>) -> bool {
    if text.len() >= 1 && text[0] == 45 {
        let digits = text.subrange(1, text.len() as int);
        digits.len() >= 1 && all_digits(digits) && digits_value(digits) <= 0x8000_0000
    } else {
        text.len() >= 1 && all_digits(text) && digits_value(text) <= i32::MAX
    }
}

/// The number that `text` spells.
pub open spec fn signed_value(text: Seq<u8>) -> int {
    if text.len() >= 1 && text[0] == 45 {
        -(digits_value(text.subrange(1, text.len() as int)) as int)
    } else {
        digits_value(text) as int
    }
}

/// The rule that `text` spells: a name, and optionally `=` and a threshold.
pub open spec fn rejection_of(text: Seq<u8>) -> Result<Rejection, ParseError> {
    let name = name_part(text);
    let value = value_part(text);
    let hundredth = Fraction { negative: false, numerator: 1, denominator: 100 };
    let thousandth = Fraction { negative: false, numerator: 1, denominator: 1000 };
    let fiftieth = Fraction { negative: false, numerator: 2, denominator: 100 };
    if name == "averagesod".spec_bytes() {
        match fraction_or(value, hundredth) {
            Ok(t) => Ok(Rejection::AverageSod(t)),
            Err(e) => Err(e),
        }
    } else if name == "averageaba".spec_bytes() {
        match fraction_or(value, hundredth) {
            Ok(t) => Ok(Rejection::AverageAba(t)),
            Err(e) => Err(e),
        }
    } else if name == "regressionakaze".spec_bytes() {
        match fraction_or(value, thousandth) {
            Ok(t) => Ok(Rejection::RegressionAkaze(t)),
            Err(e) => Err(e),
        }
    } else if name == "regressionsod".spec_bytes() {
        match fraction_or(value, thousandth) {
            Ok(t) => Ok(Rejection::RegressionSod(t)),
            Err(e) => Err(e),
        }
    } else if name == "regressionaba".spec_bytes() {
        match fraction_or(value, thousandth) {
            Ok(t) => Ok(Rejection::RegressionAba(t)),
            Err(e) => Err(e),
        }
    } else if name == "widthheight".spec_bytes() {
        match fraction_or(value, fiftieth) {
            Ok(t) => Ok(Rejection::WidthHeight(t)),
            Err(e) => Err(e),
        }
    } else {
        Err(ParseError::UnknownRejection)
    }
}

/// Whether two texts are the same.
fn same(a: &[u8], b: &[u8]) -> (equal: bool)
    ensures
        equal == (a@ == b@),
{
    if a.len() != b.len() {
        return false;
    }
    let mut i: usize = 0;
    while i < a.len()
        invariant
            i <= a.len(),
            a.len() == b.len(),
            forall|j: int| 0 <= j < i ==> a[j] == b[j],
        decreases a.len() - i,
    {
        if a[i] != b[i] {
            return false;
        }
        i += 1;
    }
    assert(a@ =~= b@);
    true
}

/// Position of the first `=` in `text`, or its length.
fn find_equals(text: &[u8]) -> (at: usize)
    ensures
        at == position_of(text@, 61),
        at <= text.len(),
{
    let mut at: usize = 0;
    while at < text.len() && text[at] != 61
        invariant
            at <= text.len(),
            forall|j: int| 0 <= j < at ==> text[j] != 61,
        decreases text.len() - at,
    {
        at += 1;
    }
    proof {
        lemma_position_of(text@, 61, at as int);
    }
    at
}

/// Splits a step or rule into its name and its value.
fn split<'a>(text: &'a [u8]) -> (parts: (&'a [u8], Option<&'a [u8]>))
    ensures
        parts.0@ == name_part(text@),
        match parts.1 {
            Some(value) => value_part(text@) == Some(value@),
            None => value_part(text@).is_none(),
        },
{
    let first = find_equals(text);
    let name = slice_subrange(text, 0, first);
    if first >= text.len() {
        (name, None)
    } else {
        let rest = slice_subrange(text, first + 1, text.len());
        let second = find_equals(rest);
        (name, Some(slice_subrange(rest, 0, second)))
    }
}

/// Reads the fraction of a step or rule.
fn read_fraction(value: Option<&[u8]>, default: Fraction) -> (read: Result<Fraction, ParseError>)
    ensures
        read == fraction_or(
            match value {
                Some(text) => Some(text@),
                None => None,
            },
            default,
        ),
{
    match value {
        None => Ok(default),
        Some(text) => match parse_decimal(text) {
            Some(fraction) => Ok(fraction),
            None => Err(ParseError::InvalidNumber),
        },
    }
}

/// Reads a rejection rule such as `averagesod=0.01`. The names are
/// `averagesod`, `averageaba`, `regressionakaze`, `regressionsod`,
/// `regressionaba` and `widthheight`; a rule without a value gets the
/// threshold 0.01, 0.001 or 0.02 that is usual for it.
pub fn parse_rejection(p: &str) -> (parsed: Result<Rejection, ParseError>)
    ensures
        parsed == rejection_of(p.spec_bytes()),
{
    let (name, value) = split(p.as_bytes());
    let ghost spelled: Option<Seq<u8>> = match value {
        Some(text) => Some(text@),
        None => None,
    };
    assert(spelled == value_part(p.spec_bytes()));
    let hundredth = Fraction { negative: false, numerator: 1, denominator: 100 };
    let thousandth = Fraction { negative: false, numerator: 1, denominator: 1000 };
    let fiftieth = Fraction { negative: false, numerator: 2, denominator: 100 };
    if same(name, "averagesod".as_bytes()) {
        match read_fraction(value, hundredth) {
            Ok(t) => Ok(Rejection::AverageSod(t)),
            Err(e) => Err(e),
        }
    } else if same(name, "averageaba".as_bytes()) {
        match read_fraction(value, hundredth) {
            Ok(t) => Ok(Rejection::AverageAba(t)),
            Err(e) => Err(e),
        }
    } else if same(name, "regressionakaze".as_bytes()) {
        match read_fraction(value, thousandth) {
            Ok(t) => Ok(Rejection::RegressionAkaze(t)),
            Err(e) => Err(e),
        }
    } else if same(name, "regressionsod".as_bytes()) {
        match read_fraction(value, thousandth) {
            Ok(t) => Ok(Rejection::RegressionSod(t)),
            Err(e) => Err(e),
        }
    } else if same(name, "regressionaba".as_bytes()) {
        match read_fraction(value, thousandth) {
            Ok(t) => Ok(Rejection::RegressionAba(t)),
            Err(e) => Err(e),
        }
    } else if same(name, "widthheight".as_bytes()) {
        match read_fraction(value, fiftieth) {
            Ok(t) => Ok(Rejection::WidthHeight(t)),
            Err(e) => Err(e),
        }
    } else {
        Err(ParseError::UnknownRejection)
    }
}

/// The step that `text` spells: a name, and optionally `=` and a parameter.
pub open spec fn processing_of(text: Seq<u8>) -> Result<Processing, ParseError> {
    let name = name_part(text);
    let value = value_part(text);
    let fifth = Fraction { negative: false, numerator: 2, denominator: 10 };
    if name == "average".spec_bytes() {
        bare(Processing::Average, value)
    } else if name == "maxscale".spec_bytes() {
        bare(Processing::Maxscale, value)
    } else if name == "sqrt".spec_bytes() {
        bare(Processing::Sqrt, value)
    } else if name == "asinh".spec_bytes() {
        bare(Processing::Asinh, value)
    } else if name == "sharpen".spec_bytes() {
        bare(Processing::Sharpen, value)
    } else if name == "akaze".spec_bytes() {
        match fraction_or(value, Fraction { negative: false, numerator: 8, denominator: 10000 }) {
            Ok(t) => Ok(Processing::Akaze(t)),
            Err(e) => Err(e),
        }
    } else if name == "sobel".spec_bytes() {
        match value {
            None => Ok(Processing::Sobel(0)),
            Some(number) => if is_signed(number) {
                Ok(Processing::Sobel(signed_value(number) as i32))
            } else {
                Err(ParseError::InvalidNumber)
            },
        }
    } else if name == "blur".spec_bytes() {
        match fraction_or(value, Fraction { negative: false, numerator: 1, denominator: 1 }) {
            Ok(t) => Ok(Processing::Blur(t)),
            Err(e) => Err(e),
        }
    } else if name == "median".spec_bytes() {
        match value {
            None => Ok(Processing::Median(2)),
            Some(number) => if is_unsigned(number) {
                Ok(Processing::Median(digits_value(number) as u32))
            } else {
                Err(ParseError::InvalidNumber)
            },
        }
    } else if name == "bgone".spec_bytes() {
        match fraction_or(value, fifth) {
            Ok(t) => Ok(Processing::BGone(t)),
            Err(e) => Err(e),
        }
    } else if name == "bw".spec_bytes() {
        match fraction_or(value, fifth) {
            Ok(t) => Ok(Processing::BlackWhite(t)),
            Err(e) => Err(e),
        }
    } else if name == "sod".spec_bytes() {
        match fraction_or(value, fifth) {
            Ok(t) => Ok(Processing::SingleObjectDetection(t)),
            Err(e) => Err(e),
        }
    } else if name == "aba".spec_bytes() {
        match fraction_or(value, fifth) {
            Ok(t) => Ok(Processing::AverageBrightnessAlignment(t)),
            Err(e) => Err(e),
        }
    } else {
        Err(ParseError::UnknownProcessing)
    }
}

/// A step that takes no value.
pub open spec fn bare(step: Processing, value: Option<Seq<u8>>) -> Result<Processing, ParseError> {
    if value.is_none() {
        Ok(step)
    } else {
        Err(ParseError::NoValueAllowed)
    }
}

fn no_value(step: Processing, value: Option<&[u8]>) -> (read: Result<Processing, ParseError>)
    ensures
        read == bare(
            step,
            match value {
                Some(text) => Some(text@),
                None => None,
            },
        ),
{
    if value.is_none() {
        Ok(step)
    } else {
        Err(ParseError::NoValueAllowed)
    }
}

/// Reads a whole number without a sign.
pub fn parse_unsigned(text: &[u8]) -> (parsed: Option<u32>)
    ensures
        parsed.is_some() == is_unsigned(text@),
        parsed.is_some() ==> parsed.unwrap() == digits_value(text@),
{
    if text.len() == 0 {
        return None;
    }
    proof {
        assert(text@.subrange(0, text.len() as int) =~= text@);
        assert(Seq::<u8>::empty() + text@ =~= text@);
        assert(all_digits(Seq::<u8>::empty()));
        assert(text@ + Seq::<u8>::empty() =~= text@);
    }
    match read_digits(text, 0, text.len(), 0, Ghost(Seq::empty())) {
        Some(value) => Some(value as u32),
        None => None,
    }
}

/// Reads a whole number with or without a minus sign.
pub fn parse_signed(text: &[u8]) -> (parsed: Option<i32>)
    ensures
        parsed.is_some() == is_signed(text@),
        parsed.is_some() ==> parsed.unwrap() == signed_value(text@),
{
    if text.len() == 0 {
        return None;
    }
    if text[0] == 45 {
        let digits = slice_subrange(text, 1, text.len());
        if digits.len() == 0 {
            return None;
        }
        proof {
            assert(digits@.subrange(0, digits.len() as int) =~= digits@);
            assert(Seq::<u8>::empty() + digits@ =~= digits@);
            assert(all_digits(Seq::<u8>::empty()));
            assert(digits@ + Seq::<u8>::empty() =~= digits@);
        }
        match read_digits(digits, 0, digits.len(), 0, Ghost(Seq::empty())) {
            Some(value) => if value <= 0x8000_0000 {
                Some((-(value as i64)) as i32)
            } else {
                None
            },
            None => None,
        }
    } else {
        proof {
            assert(text@.subrange(0, text.len() as int) =~= text@);
            assert(Seq::<u8>::empty() + text@ =~= text@);
            assert(all_digits(Seq::<u8>::empty()));
            assert(text@ + Seq::<u8>::empty() =~= text@);
        }
        match read_digits(text, 0, text.len(), 0, Ghost(Seq::empty())) {
            Some(value) => if value <= 0x7fff_ffff {
                Some(value as i32)
            } else {
                None
            },
            None => None,
        }
    }
}

/// Reads a processing step such as `blur=20` or `maxscale`. The names are
/// `average`, `maxscale`, `sqrt`, `asinh` and `sharpen`, which take no value,
/// and `akaze`, `sobel`, `blur`, `median`, `bgone`, `bw`, `sod` and `aba`,
/// which take one and have a usual one where none is given.
pub fn parse_postprocessing(p: &str) -> (parsed: Result<Processing, ParseError>)
    ensures
        parsed == processing_of(p.spec_bytes()),
{
    let (name, value) = split(p.as_bytes());
    let ghost spelled: Option<Seq<u8>> = match value {
        Some(text) => Some(text@),
        None => None,
    };
    assert(spelled == value_part(p.spec_bytes()));
    let fifth = Fraction { negative: false, numerator: 2, denominator: 10 };
    if same(name, "average".as_bytes()) {
        no_value(Processing::Average, value)
    } else if same(name, "maxscale".as_bytes()) {
        no_value(Processing::Maxscale, value)
    } else if same(name, "sqrt".as_bytes()) {
        no_value(Processing::Sqrt, value)
    } else if same(name, "asinh".as_bytes()) {
        no_value(Processing::Asinh, value)
    } else if same(name, "sharpen".as_bytes()) {
        no_value(Processing::Sharpen, value)
    } else if same(name, "akaze".as_bytes()) {
        match read_fraction(value, Fraction { negative: false, numerator: 8, denominator: 10000 }) {
            Ok(t) => Ok(Processing::Akaze(t)),
            Err(e) => Err(e),
        }
    } else if same(name, "sobel".as_bytes()) {
        match value {
            None => Ok(Processing::Sobel(0)),
            Some(number) => match parse_signed(number) {
                Some(blur) => Ok(Processing::Sobel(blur)),
                None => Err(ParseError::InvalidNumber),
            },
        }
    } else if same(name, "blur".as_bytes()) {
        match read_fraction(value, Fraction { negative: false, numerator: 1, denominator: 1 }) {
            Ok(t) => Ok(Processing::Blur(t)),
            Err(e) => Err(e),
        }
    } else if same(name, "median".as_bytes()) {
        match value {
            None => Ok(Processing::Median(2)),
            Some(number) => match parse_unsigned(number) {
                Some(radius) => Ok(Processing::Median(radius)),
                None => Err(ParseError::InvalidNumber),
            },
        }
    } else if same(name, "bgone".as_bytes()) {
        match read_fraction(value, fifth) {
            Ok(t) => Ok(Processing::BGone(t)),
            Err(e) => Err(e),
        }
    } else if same(name, "bw".as_bytes()) {
        match read_fraction(value, fifth) {
            Ok(t) => Ok(Processing::BlackWhite(t)),
            Err(e) => Err(e),
        }
    } else if same(name, "sod".as_bytes()) {
        match read_fraction(value, fifth) {
            Ok(t) => Ok(Processing::SingleObjectDetection(t)),
            Err(e) => Err(e),
        }
    } else if same(name, "aba".as_bytes()) {
        match read_fraction(value, fifth) {
            Ok(t) => Ok(Processing::AverageBrightnessAlignment(t)),
            Err(e) => Err(e),
        }
    } else {
        Err(ParseError::UnknownProcessing)
    }
}

/// The registration strategy that a processing chain ends in, with its
/// threshold.
#[derive(Debug, Copy, Clone, PartialEq, Eq, Structural)]
pub enum Detector {
    /// Descriptor-based registration.
    Akaze(Fraction),
    /// Bounding box of the single bright region.
    SingleObjectDetection(Fraction),
    /// Brightness-weighted centroid.
    AverageBrightnessAlignment(Fraction),
}

/// A chain for registration ends in a step that is no detector.
#[derive(Debug, Copy, Clone, PartialEq, Eq, Structural)]
pub struct InvalidTerminal;

/// What the last step of `chain` selects: nothing for an empty chain, the
/// detector that the chain ends in, or an error where it ends in another
/// step.
pub open spec fn terminal_of(chain: Seq<Processing>) -> Result<Option<Detector>, InvalidTerminal> {
    if chain.len() == 0 {
        Ok(None)
    } else {
        match chain.last() {
            Processing::Akaze(t) => Ok(Some(Detector::Akaze(t))),
            Processing::SingleObjectDetection(t) => Ok(Some(Detector::SingleObjectDetection(t))),
            Processing::AverageBrightnessAlignment(t) => Ok(
                Some(Detector::AverageBrightnessAlignment(t)),
            ),
            _ => Err(InvalidTerminal),
        }
    }
}

/// Resolves the registration strategy of a processing chain, once for a run:
/// the chain's last step names it, and the steps before it prepare the
/// frames. An empty chain registers nothing; a chain that ends in a step
/// that is no detector is a configuration error.
pub fn terminal_detector(chain: &[Processing]) -> (selected: Result<
    Option<Detector>,
    InvalidTerminal,
>)
    ensures
        selected == terminal_of(chain@),
{
    if chain.len() == 0 {
        return Ok(None);
    }
    match chain[chain.len() - 1] {
        Processing::Akaze(t) => Ok(Some(Detector::Akaze(t))),
        Processing::SingleObjectDetection(t) => Ok(Some(Detector::SingleObjectDetection(t))),
        Processing::AverageBrightnessAlignment(t) => Ok(
            Some(Detector::AverageBrightnessAlignment(t)),
        ),
        _ => Err(InvalidTerminal),
    }
}

} // verus!
