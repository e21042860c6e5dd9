//! The typed form of a conversion specification, and the parser that builds it.

use vstd::prelude::*;
use crate::ascii::{
    DIGIT_NINE, DIGIT_ZERO, DOT, HASH, LOWER_D, LOWER_H, LOWER_I, LOWER_J, LOWER_L, LOWER_S, LOWER_T,
    LOWER_Z, MINUS, PLUS, QUOTE, SPACE, UPPER_I, UPPER_L, UPPER_Z,
};
use crate::visit::{ConversionSpecification, SpecText};

verus! {

/// Why a field width or a precision is no number.
#[derive(Debug, Clone, Copy, PartialEq, Eq)]
pub enum NumeralError {
    /// There is nothing to read.
    Empty,
    /// A byte is no decimal digit.
    InvalidDigit,
    /// The number does not fit the machine word.
    PosOverflow,
}

/// What can be wrong with a conversion specification.
///
/// The tokenizer never produces some of these: they come from specifications
/// that were put together by hand.
#[derive(Debug, Clone, Copy, PartialEq, Eq)]
pub enum ParseError {
    MissingSpecifier,
    UnknownSpecifier,
    UnknownFlag(u8),
    DuplicateFlag(u8),
    /// The precision is invalid: `None` where it does not begin with a dot or
    /// is not UTF-8, and else the reason why its digits are no number.
    InvalidPrec(Option<NumeralError>),
    /// The field width is invalid: `None` where it is not UTF-8, and else the
    /// reason why it is no number.
    InvalidWidth(Option<NumeralError>),
    UnknownLenModifier,
    Unsupported,
}

impl ParseError {
    /// The text that `description` returns.
    pub open spec fn description_text(self) -> Seq<char> {
        match self {
            ParseError::MissingSpecifier => "conversion specifier missing"@,
            ParseError::UnknownSpecifier => "unknown conversion specifier"@,
            ParseError::UnknownFlag(_) => "conversion specifier contains unknown flag"@,
            ParseError::DuplicateFlag(_) => "conversion specifier contains duplicated flag"@,
            ParseError::InvalidPrec(_) => "conversion specifier contains invalid precision"@,
            ParseError::InvalidWidth(_) => "conversion specifier contains invalid width"@,
            ParseError::UnknownLenModifier => "conversion specifier contains unknown length modifier"@,
            ParseError::Unsupported => "this feature is not supported"@,
        }
    }

    pub fn description(&self) -> (text: &'static str)
        ensures
            text@ == self.description_text(),
    {
        match self {
            ParseError::MissingSpecifier => "conversion specifier missing",
            ParseError::UnknownSpecifier => "unknown conversion specifier",
            ParseError::UnknownFlag(_) => "conversion specifier contains unknown flag",
            ParseError::DuplicateFlag(_) => "conversion specifier contains duplicated flag",
            ParseError::InvalidPrec(_) => "conversion specifier contains invalid precision",
            ParseError::InvalidWidth(_) => "conversion specifier contains invalid width",
            ParseError::UnknownLenModifier => "conversion specifier contains unknown length modifier",
            ParseError::Unsupported => "this feature is not supported",
        }
    }
}

/// Conversion specifier.
#[derive(Debug, Clone, Copy, PartialEq, Eq)]
pub enum ConvKind {
    SignDecInt,
    String,
}

impl ConvKind {
    /// The kind that a specifier field stands for: `d` and `i` are the signed
    /// decimal integer, `s` is the byte string, and nothing else is known.
    pub open spec fn of(b: Seq<u8>) -> Option<ConvKind> {
        if b =~= seq![LOWER_D] || b =~= seq![LOWER_I] {
            Some(ConvKind::SignDecInt)
        } else if b =~= seq![LOWER_S] {
            Some(ConvKind::String)
        } else {
            None
        }
    }

    pub fn from_bytes(b: &[u8]) -> (kind: Option<ConvKind>)
        ensures
            kind == Self::of(b@),
    {
        if b.len() != 1 {
            None
        } else if b[0] == LOWER_D || b[0] == LOWER_I {
            Some(ConvKind::SignDecInt)
        } else if b[0] == LOWER_S {
            Some(ConvKind::String)
        } else {
            None
        }
    }
}

/// Length modifier.
#[derive(Debug, Clone, Copy, PartialEq, Eq)]
pub enum LenModifier {
    /// No modifier at all.
    Absent,
    /// Corresponds to `l`.
    Long,
    /// Corresponds to `ll`.
    Longer,
    /// Corresponds to `j`.
    Longest,
    /// Corresponds to `h`.
    Short,
    /// Corresponds to `hh`.
    Shorter,
    /// Corresponds to `L`.
    LongDouble,
    /// Corresponds to `z` and `Z`.
    Size,
    /// Corresponds to `t`.
    PtrDiff,
}

impl LenModifier {
    /// The modifier that a length field stands for.
    pub open spec fn of(b: Seq<u8>) -> Result<LenModifier, ParseError> {
        if b =~= seq![LOWER_L] {
            Ok(LenModifier::Long)
        } else if b =~= seq![LOWER_L, LOWER_L] {
            Ok(LenModifier::Longer)
        } else if b =~= seq![LOWER_J] {
            Ok(LenModifier::Longest)
        } else if b =~= seq![LOWER_H] {
            Ok(LenModifier::Short)
        } else if b =~= seq![LOWER_H, LOWER_H] {
            Ok(LenModifier::Shorter)
        } else if b =~= seq![UPPER_L] {
            Ok(LenModifier::LongDouble)
        } else if b =~= seq![LOWER_Z] || b =~= seq![UPPER_Z] {
            Ok(LenModifier::Size)
        } else if b =~= seq![LOWER_T] {
            Ok(LenModifier::PtrDiff)
        } else if b.len() == 0 {
            Ok(LenModifier::Absent)
        } else {
            Err(ParseError::UnknownLenModifier)
        }
    }

    pub fn from_bytes(b: &[u8]) -> (modifier: Result<LenModifier, ParseError>)
        ensures
            modifier == Self::of(b@),
    {
        let n: usize = b.len();
        if n == 0 {
            Ok(LenModifier::Absent)
        } else if n == 1 {
            let c: u8 = b[0];
            if c == LOWER_L {
                Ok(LenModifier::Long)
            } else if c == LOWER_J {
                Ok(LenModifier::Longest)
            } else if c == LOWER_H {
                Ok(LenModifier::Short)
            } else if c == UPPER_L {
                Ok(LenModifier::LongDouble)
            } else if c == LOWER_Z || c == UPPER_Z {
                Ok(LenModifier::Size)
            } else if c == LOWER_T {
                Ok(LenModifier::PtrDiff)
            } else {
                Err(ParseError::UnknownLenModifier)
            }
        } else if n == 2 && b[0] == LOWER_L && b[1] == LOWER_L {
            Ok(LenModifier::Longer)
        } else if n == 2 && b[0] == LOWER_H && b[1] == LOWER_H {
            Ok(LenModifier::Shorter)
        } else {
            Err(ParseError::UnknownLenModifier)
        }
    }
}

/// Conversion flags.
#[derive(Debug, Clone, Copy, PartialEq, Eq)]
pub struct ConvFlags {
    /// Alternate representation. Corresponds to `#`.
    pub alt: bool,
    /// Zero-padding. Corresponds to `0`.
    pub pad_zero: bool,
    /// Adjust to left. Corresponds to `-`.
    pub adj_left: bool,
    /// Produce whitespace before positive integer. Corresponds to ` `.
    pub pos_space: bool,
    /// Always put sign before integer. Corresponds to `+`.
    pub force_sign: bool,
    /// Group thousands using comma. Corresponds to `'`.
    pub comma_groups: bool,
    /// Use locale-alternative output digits. Corresponds to `I`.
    pub alt_digits: bool,
}

/// Whether `c` is one of the seven flag characters.
pub open spec fn is_flag_byte(c: u8) -> bool {
    c == HASH || c == DIGIT_ZERO || c == MINUS || c == SPACE || c == PLUS || c == QUOTE || c == UPPER_I
}

/// Whether `c` stands among the first `n` bytes of `b`.
pub open spec fn occurs(b: Seq<u8>, n: int, c: u8) -> bool {
    exists|j: int| 0 <= j < n && j < b.len() && b[j] == c
}

/// Whether the byte at `i` cannot be taken as a flag: it is none, or it
/// repeats an earlier one.
pub open spec fn flag_fault(b: Seq<u8>, i: int) -> bool {
    !is_flag_byte(b[i]) || occurs(b, i, b[i])
}

/// The first position from `i` on at which a flags field is at fault.
pub open spec fn first_flag_fault(b: Seq<u8>, i: int) -> Option<int>
    decreases b.len() - i,
{
    if i < 0 || i >= b.len() {
        None
    } else if flag_fault(b, i) {
        Some(i)
    } else {
        first_flag_fault(b, i + 1)
    }
}

impl Default for ConvFlags {
    fn default() -> (flags: ConvFlags)
        ensures
            flags == ConvFlags::of_set(Seq::<u8>::empty(), 0),
    {
        ConvFlags {
            alt: false,
            pad_zero: false,
            adj_left: false,
            pos_space: false,
            force_sign: false,
            comma_groups: false,
            alt_digits: false,
        }
    }
}

impl ConvFlags {
    /// The flags that are set by the first `n` bytes of `b`.
    pub open spec fn of_set(b: Seq<u8>, n: int) -> ConvFlags {
        ConvFlags {
            alt: occurs(b, n, HASH),
            pad_zero: occurs(b, n, DIGIT_ZERO),
            adj_left: occurs(b, n, MINUS),
            pos_space: occurs(b, n, SPACE),
            force_sign: occurs(b, n, PLUS),
            comma_groups: occurs(b, n, QUOTE),
            alt_digits: occurs(b, n, UPPER_I),
        }
    }

    /// The flags that a flags field stands for. The first byte at fault decides
    /// the error: a byte that is no flag is unknown, a flag that stood before
    /// is a duplicate.
    pub open spec fn of(b: Seq<u8>) -> Result<ConvFlags, ParseError> {
        match first_flag_fault(b, 0) {
            Some(k) => if is_flag_byte(b[k]) {
                Err(ParseError::DuplicateFlag(b[k]))
            } else {
                Err(ParseError::UnknownFlag(b[k]))
            },
            None => Ok(Self::of_set(b, b.len() as int)),
        }
    }

    pub fn from_bytes(b: &[u8]) -> (flags: Result<ConvFlags, ParseError>)
        ensures
            flags == Self::of(b@),
    {
        let mut flags = ConvFlags::default();
        let n: usize = b.len();
        let mut i: usize = 0;
        while i < n
            invariant
                n == b.len(),
                i <= n,
                first_flag_fault(b@, 0) == first_flag_fault(b@, i as int),
                flags == Self::of_set(b@, i as int),
            decreases n - i,
        {
            let ch: u8 = b[i];
            let seen: bool = if ch == HASH {
                flags.alt
            } else if ch == DIGIT_ZERO {
                flags.pad_zero
            } else if ch == MINUS {
                flags.adj_left
            } else if ch == SPACE {
                flags.pos_space
            } else if ch == PLUS {
                flags.force_sign
            } else if ch == QUOTE {
                flags.comma_groups
            } else if ch == UPPER_I {
                flags.alt_digits
            } else {
                return Err(ParseError::UnknownFlag(ch));
            };
            if seen {
                return Err(ParseError::DuplicateFlag(ch));
            }
            proof {
                lemma_occurs_step(b@, i as int, HASH);
                lemma_occurs_step(b@, i as int, DIGIT_ZERO);
                lemma_occurs_step(b@, i as int, MINUS);
                lemma_occurs_step(b@, i as int, SPACE);
                lemma_occurs_step(b@, i as int, PLUS);
                lemma_occurs_step(b@, i as int, QUOTE);
                lemma_occurs_step(b@, i as int, UPPER_I);
            }
            if ch == HASH {
                flags.alt = true;
            } else if ch == DIGIT_ZERO {
                flags.pad_zero = true;
            } else if ch == MINUS {
                flags.adj_left = true;
            } else if ch == SPACE {
                flags.pos_space = true;
            } else if ch == PLUS {
                flags.force_sign = true;
            } else if ch == QUOTE {
                flags.comma_groups = true;
            } else {
                flags.alt_digits = true;
            }
            i += 1;
        }
        Ok(flags)
    }

    /// Whether every flag that is set is one that the engine implements:
    /// neither grouping of thousands nor alternative digits.
    pub fn is_supported(&self) -> (yes: bool)
        ensures
            yes == (!self.alt_digits && !self.comma_groups),
    {
        !self.alt_digits && !self.comma_groups
    }
}

/// One more byte is looked at: it occurs among the first `n + 1` exactly if it
/// occurs among the first `n` or is the byte at `n`.
pub proof fn lemma_occurs_step(b: Seq<u8>, n: int, c: u8)
    requires
        0 <= n < b.len(),
    ensures
        occurs(b, n + 1, c) <==> (occurs(b, n, c) || b[n] == c),
{
    if occurs(b, n + 1, c) {
        let j = choose|j: int| 0 <= j < n + 1 && j < b.len() && b[j] == c;
        if j < n {
            assert(occurs(b, n, c));
        }
    }
    if occurs(b, n, c) {
        let j = choose|j: int| 0 <= j < n && j < b.len() && b[j] == c;
        assert(0 <= j < n + 1 && j < b.len() && b[j] == c);
    }
    if b[n] == c {
        assert(0 <= n < n + 1 && n < b.len() && b[n] == c);
    }
}

/// A flags field is taken exactly if no byte of it is at fault.
pub proof fn lemma_flags_taken(b: Seq<u8>)
    ensures
        ConvFlags::of(b) is Ok <==> (forall|i: int| 0 <= i < b.len() ==> !flag_fault(b, i)),
{
    lemma_first_fault(b, 0);
}

/// What `first_flag_fault` finds is at fault and nothing from `i` up to it is;
/// it finds nothing only where nothing from `i` on is at fault.
pub proof fn lemma_first_fault(b: Seq<u8>, i: int)
    requires
        0 <= i,
    ensures
        match first_flag_fault(b, i) {
            Some(k) => i <= k < b.len() && flag_fault(b, k) && forall|j: int|
                i <= j < k ==> !flag_fault(b, j),
            None => forall|j: int| i <= j < b.len() ==> !flag_fault(b, j),
        },
    decreases b.len() - i,
{
    if i < b.len() && !flag_fault(b, i) {
        lemma_first_fault(b, i + 1);
    }
}

/// Whether `c` is a decimal digit.
pub open spec fn is_digit(c: u8) -> bool {
    DIGIT_ZERO <= c <= DIGIT_NINE
}

/// Whether `s` holds decimal digits only.
pub open spec fn all_digits(s: Seq<u8>) -> bool {
    forall|i: int| 0 <= i < s.len() ==> is_digit(#[trigger] s[i])
}

/// The number that the decimal digits `s` write.
pub open spec fn digits_value(s: Seq<u8>) -> nat
    decreases s.len(),
{
    if s.len() == 0 {
        0
    } else {
        digits_value(s.drop_last()) * 10 + (s.last() - DIGIT_ZERO) as nat
    }
}

/// A numeral without the plus sign that may stand in front of it.
pub open spec fn unsigned_part(b: Seq<u8>) -> Seq<u8> {
    if b.len() > 0 && b[0] == PLUS {
        b.subrange(1, b.len() as int)
    } else {
        b
    }
}

/// The number that a numeral stands for: at least one decimal digit, after
/// one plus sign at most, with a value that fits the machine word.
pub open spec fn numeral(b: Seq<u8>) -> Result<usize, NumeralError> {
    let d = unsigned_part(b);
    if b.len() == 0 {
        Err(NumeralError::Empty)
    } else if d.len() == 0 || !all_digits(d) {
        Err(NumeralError::InvalidDigit)
    } else if digits_value(d) > usize::MAX {
        Err(NumeralError::PosOverflow)
    } else {
        Ok(digits_value(d) as usize)
    }
}

/// The digits that stand first write no more than all the digits do.
pub proof fn lemma_prefix_value(s: Seq<u8>, k: int)
    requires
        0 <= k <= s.len(),
    ensures
        digits_value(s.subrange(0, k)) <= digits_value(s),
    decreases s.len() - k,
{
    if k == s.len() {
        assert(s.subrange(0, k) == s);
    } else {
        lemma_prefix_value(s.drop_last(), k);
        assert(s.drop_last().subrange(0, k) == s.subrange(0, k));
    }
}

/// Reads a numeral.
pub fn parse_number(b: &[u8]) -> (number: Result<usize, NumeralError>)
    ensures
        number == numeral(b@),
{
    let n: usize = b.len();
    if n == 0 {
        return Err(NumeralError::Empty);
    }
    let start: usize = if b[0] == PLUS { 1 } else { 0 };
    if start == n {
        return Err(NumeralError::InvalidDigit);
    }
    let ghost d = unsigned_part(b@);
    assert(d == b@.subrange(start as int, n as int));
    let mut i: usize = start;
    while i < n
        invariant
            n == b.len(),
            start <= i <= n,
            d == unsigned_part(b@),
            d == b@.subrange(start as int, n as int),
            forall|j: int| 0 <= j < i - start ==> is_digit(#[trigger] d[j]),
        decreases n - i,
    {
        if b[i] < DIGIT_ZERO || b[i] > DIGIT_NINE {
            assert(d[i - start] == b[i as int]);
            assert(!all_digits(d));
            return Err(NumeralError::InvalidDigit);
        }
        i += 1;
    }
    assert(all_digits(d));
    let mut acc: usize = 0;
    i = start;
    while i < n
        invariant
            n == b.len(),
            start <= i <= n,
            d == unsigned_part(b@),
            d == b@.subrange(start as int, n as int),
            all_digits(d),
            acc == digits_value(d.subrange(0, i - start)),
        decreases n - i,
    {
        assert(is_digit(d[i - start]));
        let digit: usize = (b[i] - DIGIT_ZERO) as usize;
        proof {
            assert(d.subrange(0, i + 1 - start).drop_last() == d.subrange(0, i - start));
            assert(d.subrange(0, i + 1 - start).last() == b[i as int]);
            lemma_prefix_value(d, i + 1 - start);
            assert(digits_value(d.subrange(0, i + 1 - start)) == acc * 10 + digit);
        }
        if acc > (usize::MAX - digit) / 10 {
            return Err(NumeralError::PosOverflow);
        }
        acc = acc * 10 + digit;
        i += 1;
    }
    assert(d.subrange(0, n - start) == d);
    Ok(acc)
}

/// The parsed form of a conversion specification.
#[derive(Debug, Clone, Copy, PartialEq, Eq)]
pub struct ParsedConversionSpecification {
    pub conv_kind: ConvKind,
    pub flags: ConvFlags,
    pub len_modifier: LenModifier,
    pub min_width: usize,
    pub prec: Option<usize>,
}

/// `core::str::from_utf8`, asked only whether it succeeds. The contract
/// claims that it does exactly on the byte strings that are well-formed
/// UTF-8; nothing here proves it.
#[verifier::external_body]
fn is_utf8(b: &[u8]) -> (yes: bool)
    ensures
        yes == vstd::utf8::valid_utf8(b@),
{
    core::str::from_utf8(b).is_ok()
}

/// The least width that a field-width field asks for: none where it is
/// empty. A field that is no text at all is invalid without a reason.
pub open spec fn width_of(b: Seq<u8>) -> Result<usize, ParseError> {
    if b.len() == 0 {
        Ok(0)
    } else if !vstd::utf8::valid_utf8(b) {
        Err(ParseError::InvalidWidth(None))
    } else {
        match numeral(b) {
            Ok(w) => Ok(w),
            Err(e) => Err(ParseError::InvalidWidth(Some(e))),
        }
    }
}

/// The precision that a precision field asks for: unspecified where the field
/// is empty, zero where it is a dot alone. A field that does not begin with a
/// dot, or that holds no text at all behind it, is invalid without a reason.
pub open spec fn precision_of(b: Seq<u8>) -> Result<Option<usize>, ParseError> {
    if b.len() == 0 {
        Ok(None)
    } else if b[0] != DOT {
        Err(ParseError::InvalidPrec(None))
    } else if b.len() == 1 {
        Ok(Some(0))
    } else if !vstd::utf8::valid_utf8(b.subrange(1, b.len() as int)) {
        Err(ParseError::InvalidPrec(None))
    } else {
        match numeral(b.subrange(1, b.len() as int)) {
            Ok(p) => Ok(Some(p)),
            Err(e) => Err(ParseError::InvalidPrec(Some(e))),
        }
    }
}

impl ParsedConversionSpecification {
    /// What a specification parses to. The fields are judged in this order:
    /// specifier, flags, length modifier, field width, precision; the first
    /// one that is wrong gives the error.
    pub open spec fn parsed(t: SpecText) -> Result<ParsedConversionSpecification, ParseError> {
        match ConvKind::of(t.specifier) {
            None => if t.specifier.len() == 0 {
                Err(ParseError::MissingSpecifier)
            } else {
                Err(ParseError::UnknownSpecifier)
            },
            Some(conv_kind) => match ConvFlags::of(t.flags) {
                Err(e) => Err(e),
                Ok(flags) => match LenModifier::of(t.length) {
                    Err(e) => Err(e),
                    Ok(len_modifier) => match width_of(t.field_width) {
                        Err(e) => Err(e),
                        Ok(min_width) => match precision_of(t.precision) {
                            Err(e) => Err(e),
                            Ok(prec) => Ok(
                                ParsedConversionSpecification {
                                    conv_kind,
                                    flags,
                                    len_modifier,
                                    min_width,
                                    prec,
                                },
                            ),
                        },
                    },
                },
            },
        }
    }

    pub fn try_parse(spec: ConversionSpecification) -> (parsed: Result<
        ParsedConversionSpecification,
        ParseError,
    >)
        ensures
            parsed == Self::parsed(spec@),
    {
        let conv_kind = match ConvKind::from_bytes(spec.specifier) {
            Some(kind) => kind,
            None => {
                if spec.specifier.len() == 0 {
                    return Err(ParseError::MissingSpecifier);
                } else {
                    return Err(ParseError::UnknownSpecifier);
                }
            },
        };
        let flags = match ConvFlags::from_bytes(spec.flags) {
            Ok(flags) => flags,
            Err(e) => {
                return Err(e);
            },
        };
        let len_modifier = match LenModifier::from_bytes(spec.length) {
            Ok(modifier) => modifier,
            Err(e) => {
                return Err(e);
            },
        };
        let min_width: usize = if spec.field_width.len() == 0 {
            0
        } else if !is_utf8(spec.field_width) {
            return Err(ParseError::InvalidWidth(None));
        } else {
            match parse_number(spec.field_width) {
                Ok(w) => w,
                Err(e) => {
                    return Err(ParseError::InvalidWidth(Some(e)));
                },
            }
        };
        let prec: Option<usize> = if spec.precision.len() == 0 {
            None
        } else if spec.precision[0] != DOT {
            return Err(ParseError::InvalidPrec(None));
        } else if spec.precision.len() == 1 {
            Some(0)
        } else {
            let digits = vstd::slice::slice_subrange(spec.precision, 1, spec.precision.len());
            if !is_utf8(digits) {
                return Err(ParseError::InvalidPrec(None));
            }
            match parse_number(digits) {
                Ok(p) => Some(p),
                Err(e) => {
                    return Err(ParseError::InvalidPrec(Some(e)));
                },
            }
        };
        Ok(ParsedConversionSpecification { conv_kind, flags, len_modifier, min_width, prec })
    }

    /// Whether the engine implements every flag that the specification sets.
    pub fn is_supported(&self) -> (yes: bool)
        ensures
            yes == (!self.flags.alt_digits && !self.flags.comma_groups),
    {
        self.flags.is_supported()
    }
}

} // verus!
