//! The tokenizer: splits a template into literal runs, escaped percent signs
//! and conversion specifications. See `man 3 printf` for the grammar.

use vstd::prelude::*;
use vstd::slice::slice_subrange;
use crate::ascii::{
    DIGIT_NINE, DIGIT_ZERO, DOT, HASH, LOWER_A, LOWER_C, LOWER_D, LOWER_E, LOWER_F, LOWER_G,
    LOWER_H, LOWER_I, LOWER_J, LOWER_L, LOWER_M, LOWER_N, LOWER_O, LOWER_P, LOWER_Q, LOWER_S,
    LOWER_T, LOWER_U, LOWER_X, LOWER_Z, MINUS, PERCENT, PLUS, QUOTE, SPACE, UPPER_A, UPPER_C,
    UPPER_E, UPPER_F, UPPER_G, UPPER_I, UPPER_L, UPPER_S, UPPER_X, UPPER_Z,
};
use crate::high::{is_digit, is_flag_byte};
use crate::visit::{
    delivered, lemma_delivered_push, ConversionSpecification, Event, FormatStringVisitor, SpecText,
};

verus! {

/// Whether `c` is a conversion specifier of printf: one of
/// `d i o u x X e E f F g G a A c s C S p n m`.
pub open spec fn is_specifier_byte(c: u8) -> bool {
    c == LOWER_D || c == LOWER_I || c == LOWER_O || c == LOWER_U || c == LOWER_X || c == UPPER_X
        || c == LOWER_E || c == UPPER_E || c == LOWER_F || c == UPPER_F || c == LOWER_G || c
        == UPPER_G || c == LOWER_A || c == UPPER_A || c == LOWER_C || c == LOWER_S || c == UPPER_C
        || c == UPPER_S || c == LOWER_P || c == LOWER_N || c == LOWER_M
}

/// Whether `c` may stand in a length modifier: one of `h l q L j z Z t`.
pub open spec fn is_length_byte(c: u8) -> bool {
    c == LOWER_H || c == LOWER_L || c == LOWER_Q || c == UPPER_L || c == LOWER_J || c == LOWER_Z
        || c == UPPER_Z || c == LOWER_T
}

pub fn is_flag(c: u8) -> (yes: bool)
    ensures
        yes == is_flag_byte(c),
{
    c == HASH || c == DIGIT_ZERO || c == PLUS || c == MINUS || c == SPACE || c == QUOTE || c
        == UPPER_I
}

pub fn is_conversion_specifier(c: u8) -> (yes: bool)
    ensures
        yes == is_specifier_byte(c),
{
    c == LOWER_D || c == LOWER_I || c == LOWER_O || c == LOWER_U || c == LOWER_X || c == UPPER_X
        || c == LOWER_E || c == UPPER_E || c == LOWER_F || c == UPPER_F || c == LOWER_G || c
        == UPPER_G || c == LOWER_A || c == UPPER_A || c == LOWER_C || c == LOWER_S || c == UPPER_C
        || c == UPPER_S || c == LOWER_P || c == LOWER_N || c == LOWER_M
}

pub fn is_length_modifier(c: u8) -> (yes: bool)
    ensures
        yes == is_length_byte(c),
{
    c == LOWER_H || c == LOWER_L || c == LOWER_Q || c == UPPER_L || c == LOWER_J || c == LOWER_Z
        || c == UPPER_Z || c == LOWER_T
}

/// The kinds of run that the tokenizer walks over: literal text, and the five
/// fields of a conversion specification.
#[derive(Debug, Clone, Copy, PartialEq, Eq)]
pub enum ByteClass {
    Literal,
    Flags,
    Width,
    Precision,
    Length,
    Specifier,
}

impl ByteClass {
    /// Whether a run of this kind may hold the byte `c`.
    pub open spec fn holds(self, c: u8) -> bool {
        match self {
            ByteClass::Literal => c != PERCENT,
            ByteClass::Flags => is_flag_byte(c),
            ByteClass::Width => is_digit(c),
            ByteClass::Precision => c == DOT || is_digit(c),
            ByteClass::Length => is_length_byte(c),
            ByteClass::Specifier => is_specifier_byte(c),
        }
    }

    pub fn admits(self, c: u8) -> (yes: bool)
        ensures
            yes == self.holds(c),
    {
        match self {
            ByteClass::Literal => c != PERCENT,
            ByteClass::Flags => is_flag(c),
            ByteClass::Width => DIGIT_ZERO <= c && c <= DIGIT_NINE,
            ByteClass::Precision => c == DOT || (DIGIT_ZERO <= c && c <= DIGIT_NINE),
            ByteClass::Length => is_length_modifier(c),
            ByteClass::Specifier => is_conversion_specifier(c),
        }
    }
}

/// Where the run of `class` that begins at `i` ends: the first position from
/// `i` on that holds a byte of another kind, or the end of `s`.
pub open spec fn run_end(s: Seq<u8>, i: int, class: ByteClass) -> int
    decreases s.len() - i,
{
    if 0 <= i < s.len() && class.holds(s[i]) {
        run_end(s, i + 1, class)
    } else {
        i
    }
}

/// A run ends at or after its beginning and within the text, holds bytes of
/// its kind only, and cannot be longer.
pub proof fn lemma_run_end(s: Seq<u8>, i: int, class: ByteClass)
    requires
        0 <= i <= s.len(),
    ensures
        i <= run_end(s, i, class) <= s.len(),
        forall|j: int| i <= j < run_end(s, i, class) ==> class.holds(#[trigger] s[j]),
        run_end(s, i, class) < s.len() ==> !class.holds(s[run_end(s, i, class)]),
    decreases s.len() - i,
{
    if i < s.len() && class.holds(s[i]) {
        lemma_run_end(s, i + 1, class);
    }
}

/// Walks over the run of `class` that begins at `i`.
pub fn skip_run(s: &[u8], i: usize, class: ByteClass) -> (end: usize)
    requires
        i <= s.len(),
    ensures
        end == run_end(s@, i as int, class),
        i <= end <= s.len(),
{
    let n: usize = s.len();
    let mut j: usize = i;
    while j < n && class.admits(s[j])
        invariant
            n == s.len(),
            i <= j <= n,
            run_end(s@, i as int, class) == run_end(s@, j as int, class),
        decreases n - j,
    {
        j += 1;
    }
    j
}

/// The positions at which the fields of a conversion specification begin,
/// and where the specification ends.
#[derive(Debug, Clone, Copy, PartialEq, Eq)]
pub struct RawSpec {
    pub flags: usize,
    pub field_width: usize,
    pub precision: usize,
    pub length: usize,
    /// Conversion specifier.
    pub conv_spec: usize,
    pub end: usize,
}

impl RawSpec {
    /// Whether these are the positions of the specification that begins at
    /// `i`: each field is the longest run of its kind that begins where the
    /// field before it ends.
    pub open spec fn marks(self, s: Seq<u8>, i: int) -> bool {
        &&& self.flags == i
        &&& self.field_width == run_end(s, self.flags as int, ByteClass::Flags)
        &&& self.precision == run_end(s, self.field_width as int, ByteClass::Width)
        &&& self.length == run_end(s, self.precision as int, ByteClass::Precision)
        &&& self.conv_spec == run_end(s, self.length as int, ByteClass::Length)
        &&& self.end == run_end(s, self.conv_spec as int, ByteClass::Specifier)
    }
}

/// Where the conversion specification that begins at `i` ends.
pub open spec fn spec_end(s: Seq<u8>, i: int) -> int {
    let w = run_end(s, i, ByteClass::Flags);
    let p = run_end(s, w, ByteClass::Width);
    let l = run_end(s, p, ByteClass::Precision);
    let c = run_end(s, l, ByteClass::Length);
    run_end(s, c, ByteClass::Specifier)
}

/// The five fields of the conversion specification that begins at `i`.
pub open spec fn spec_text_at(s: Seq<u8>, i: int) -> SpecText {
    let w = run_end(s, i, ByteClass::Flags);
    let p = run_end(s, w, ByteClass::Width);
    let l = run_end(s, p, ByteClass::Precision);
    let c = run_end(s, l, ByteClass::Length);
    let e = run_end(s, c, ByteClass::Specifier);
    SpecText {
        flags: s.subrange(i, w),
        field_width: s.subrange(w, p),
        precision: s.subrange(p, l),
        length: s.subrange(l, c),
        specifier: s.subrange(c, e),
    }
}

/// A specification ends at or after its beginning and within the text, and
/// its five fields together are the text between the two.
pub proof fn lemma_spec_text(s: Seq<u8>, i: int)
    requires
        0 <= i <= s.len(),
    ensures
        i <= spec_end(s, i) <= s.len(),
        spec_text_at(s, i).text() == s.subrange(i, spec_end(s, i)),
{
    let w = run_end(s, i, ByteClass::Flags);
    lemma_run_end(s, i, ByteClass::Flags);
    let p = run_end(s, w, ByteClass::Width);
    lemma_run_end(s, w, ByteClass::Width);
    let l = run_end(s, p, ByteClass::Precision);
    lemma_run_end(s, p, ByteClass::Precision);
    let c = run_end(s, l, ByteClass::Length);
    lemma_run_end(s, l, ByteClass::Length);
    lemma_run_end(s, c, ByteClass::Specifier);
    assert(spec_text_at(s, i).text() =~= s.subrange(i, spec_end(s, i)));
}

/// Finds the five fields of the conversion specification that begins at `i`,
/// in one pass over it.
pub fn scan_specification(s: &[u8], i: usize) -> (raw: RawSpec)
    requires
        i <= s.len(),
    ensures
        raw.marks(s@, i as int),
        i <= raw.field_width <= raw.precision <= raw.length <= raw.conv_spec <= raw.end <= s.len(),
        raw.end == spec_end(s@, i as int),
{
    let field_width = skip_run(s, i, ByteClass::Flags);
    let precision = skip_run(s, field_width, ByteClass::Width);
    let length = skip_run(s, precision, ByteClass::Precision);
    let conv_spec = skip_run(s, length, ByteClass::Length);
    let end = skip_run(s, conv_spec, ByteClass::Specifier);
    RawSpec { flags: i, field_width, precision, length, conv_spec, end }
}

/// One event of a template, as the tokenizer hands it out.
pub enum Token<'a> {
    /// A literal run.
    Bytes(&'a [u8]),
    /// An escaped percent sign.
    Percent,
    /// A conversion specification.
    Spec(ConversionSpecification<'a>),
}

impl<'a> View for Token<'a> {
    type V = Event;

    open spec fn view(&self) -> Event {
        match self {
            Token::Bytes(b) => Event::Bytes(b@),
            Token::Percent => Event::Percent,
            Token::Spec(spec) => Event::Spec(spec@),
        }
    }
}

/// The event that begins at position `i` of the template `s`.
///
/// The longest run without a percent sign is one literal event. Two percent
/// signs are an escaped percent sign. A percent sign before any other byte
/// opens a conversion specification. A percent sign that ends the template
/// is no event.
pub open spec fn token_at(s: Seq<u8>, i: int) -> Option<Event> {
    if s[i] != PERCENT {
        Some(Event::Bytes(s.subrange(i, run_end(s, i, ByteClass::Literal))))
    } else if i + 1 >= s.len() {
        None
    } else if s[i + 1] == PERCENT {
        Some(Event::Percent)
    } else {
        Some(Event::Spec(spec_text_at(s, i + 1)))
    }
}

/// Where the event that begins at position `i` ends. What follows a
/// conversion specification is read afresh from there.
pub open spec fn token_end(s: Seq<u8>, i: int) -> int {
    if s[i] != PERCENT {
        run_end(s, i, ByteClass::Literal)
    } else if i + 1 >= s.len() {
        i + 1
    } else if s[i + 1] == PERCENT {
        i + 2
    } else {
        spec_end(s, i + 1)
    }
}

/// An event is not empty and ends within the template.
pub proof fn lemma_token_end(s: Seq<u8>, i: int)
    requires
        0 <= i < s.len(),
    ensures
        i < token_end(s, i) <= s.len(),
{
    if s[i] != PERCENT {
        lemma_run_end(s, i + 1, ByteClass::Literal);
    } else if i + 1 < s.len() && s[i + 1] != PERCENT {
        lemma_spec_text(s, i + 1);
    }
}

/// The events that the template `s` holds from position `i` on.
pub open spec fn events_from(s: Seq<u8>, i: int) -> Seq<Event>
    decreases s.len() - i,
    via events_from_decreases
{
    if i < 0 || i >= s.len() {
        Seq::empty()
    } else {
        match token_at(s, i) {
            Some(ev) => seq![ev] + events_from(s, token_end(s, i)),
            None => events_from(s, token_end(s, i)),
        }
    }
}

#[via_fn]
proof fn events_from_decreases(s: Seq<u8>, i: int) {
    if 0 <= i < s.len() {
        lemma_token_end(s, i);
    }
}

/// The events that the template `s` holds.
pub open spec fn events(s: Seq<u8>) -> Seq<Event> {
    events_from(s, 0)
}

/// Reads the event that begins at position `i`, and says where it ends.
pub fn next_token<'a>(s: &'a [u8], i: usize) -> (r: (Option<Token<'a>>, usize))
    requires
        i < s.len(),
    ensures
        match r.0 {
            Some(token) => token_at(s@, i as int) == Some(token@),
            None => token_at(s@, i as int) is None,
        },
        r.1 == token_end(s@, i as int),
        i < r.1 <= s.len(),
{
    proof {
        lemma_token_end(s@, i as int);
    }
    if s[i] != PERCENT {
        let j = skip_run(s, i, ByteClass::Literal);
        (Some(Token::Bytes(slice_subrange(s, i, j))), j)
    } else if i + 1 == s.len() {
        // a percent sign with nothing behind it
        (None, i + 1)
    } else if s[i + 1] == PERCENT {
        (Some(Token::Percent), i + 2)
    } else {
        let raw = scan_specification(s, i + 1);
        let spec = ConversionSpecification {
            flags: slice_subrange(s, raw.flags, raw.field_width),
            field_width: slice_subrange(s, raw.field_width, raw.precision),
            precision: slice_subrange(s, raw.precision, raw.length),
            length: slice_subrange(s, raw.length, raw.conv_spec),
            specifier: slice_subrange(s, raw.conv_spec, raw.end),
        };
        assert(spec@ == spec_text_at(s@, i + 1));
        (Some(Token::Spec(spec)), raw.end)
    }
}

/// Walks over the template `s` once and hands each of its events to `vis`,
/// in the order in which they stand.
pub fn do_visit<V: FormatStringVisitor>(s: &[u8], vis: &mut V)
    ensures
        delivered(*old(vis), events(s@), *final(vis)),
{
    let n: usize = s.len();
    // index of the next byte to look at
    let mut i: usize = 0;
    let ghost done: Seq<Event> = Seq::empty();
    while i < n
        invariant
            n == s.len(),
            i <= n,
            delivered(*old(vis), done, *vis),
            events(s@) == done + events_from(s@, i as int),
        decreases n - i,
    {
        let ghost before = *vis;
        let ghost rest = events_from(s@, i as int);
        let (token, end) = next_token(s, i);
        match token {
            Some(token) => {
                let ghost ev = token@;
                match token {
                    Token::Bytes(b) => vis.visit_bytes(b),
                    Token::Percent => vis.visit_escaped_percent(),
                    Token::Spec(spec) => vis.visit_specification(spec),
                }
                proof {
                    lemma_delivered_push(*old(vis), done, before, ev, *vis);
                    assert(done + rest == done.push(ev) + events_from(s@, end as int));
                    done = done.push(ev);
                }
            },
            None => {},
        }
        i = end;
    }
    assert(done + events_from(s@, i as int) == done);
}

} // verus!
