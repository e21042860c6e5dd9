//! The formatting engine: renders the events of a template into a sink.

use vstd::prelude::*;
use vstd::slice::slice_subrange;
use crate::ascii::{DIGIT_ZERO, MINUS, PERCENT, SPACE};
use crate::high::{ConvKind, LenModifier, ParseError, ParsedConversionSpecification};
use crate::parser::{events, events_from, next_token, Token};
use crate::visit::{delivered, ConversionSpecification, Event, FormatStringVisitor, SpecText};
use crate::{refusal, taken, BinSink, Value};

verus! {

#[derive(Debug)]
pub enum FormatToError<E> {
    /// The sink returned an error.
    Sink(E),
    /// A conversion specification did not parse.
    Spec(ParseError),
    /// Too many arguments.
    ///
    /// All processing was done: a caller may ignore this error to get the
    /// behaviour of printf. The engine itself never returns it.
    ExcessArgs,
    /// Not enough arguments.
    NotEnoughArguments,
    /// The template uses a feature that is not implemented.
    Unsupported,
    /// Type mismatch.
    BadType,
    /// A combination of flags and conversion for which printf defines nothing.
    Invalid,
    /// The value is out of the numeric limits of the conversion.
    NumOverflow,
}

impl<E> FormatToError<E> {
    /// The text that `description` returns.
    pub open spec fn description_text(self) -> Seq<char> {
        match self {
            FormatToError::Sink(_) => "sink error"@,
            FormatToError::Spec(_) => "invalid conversion specifier"@,
            FormatToError::ExcessArgs => "format string did not use all given args"@,
            FormatToError::NotEnoughArguments => "format string requested arguments that were not provided"@,
            FormatToError::Unsupported => "this feature is not implemented yet"@,
            FormatToError::BadType => "argument type not compatible with conversion specifier"@,
            FormatToError::Invalid => "invalid format string"@,
            FormatToError::NumOverflow => "numeric overflow"@,
        }
    }

    pub fn description(&self) -> (text: &'static str)
        ensures
            text@ == self.description_text(),
    {
        match self {
            FormatToError::Sink(_) => "sink error",
            FormatToError::Spec(_) => "invalid conversion specifier",
            FormatToError::ExcessArgs => "format string did not use all given args",
            FormatToError::NotEnoughArguments => "format string requested arguments that were not provided",
            FormatToError::Unsupported => "this feature is not implemented yet",
            FormatToError::BadType => "argument type not compatible with conversion specifier",
            FormatToError::Invalid => "invalid format string",
            FormatToError::NumOverflow => "numeric overflow",
        }
    }
}

/// The decimal digits of `n`, the most significant first, without leading
/// zeros.
pub open spec fn nat_digits(n: nat) -> Seq<u8>
    decreases n,
{
    if n < 10 {
        seq![(DIGIT_ZERO + n) as u8]
    } else {
        nat_digits(n / 10).push((DIGIT_ZERO + n % 10) as u8)
    }
}

/// The shortest decimal text of `x`: a minus sign where it is negative, then
/// its digits.
pub open spec fn decimal_text(x: int) -> Seq<u8> {
    if x < 0 {
        seq![MINUS] + nat_digits((-x) as nat)
    } else {
        nat_digits(x as nat)
    }
}

/// `itoa::Buffer`: the scratch space into which itoa writes a number. Nothing
/// is known of what it holds.
#[verifier::external_type_specification]
#[verifier::external_body]
pub struct ExBuffer(itoa::Buffer);

/// `itoa::Buffer::new`. Nothing is claimed of the buffer.
#[verifier::external_body]
fn new_buffer() -> itoa::Buffer {
    itoa::Buffer::new()
}

/// `itoa::Buffer::format`, for an `i128`, with the text taken as bytes. The
/// contract claims that what itoa writes is the shortest decimal text of the
/// number; nothing here proves it.
#[verifier::external_body]
fn render_decimal<'a>(buf: &'a mut itoa::Buffer, x: i128) -> (text: &'a [u8])
    ensures
        text@ == decimal_text(x as int),
{
    buf.format(x).as_bytes()
}

/// `data` in a field of at least `spec.min_width` bytes: the padding is
/// zeros where the zero flag is set and spaces where it is not, and stands
/// before the data unless the field is adjusted to the left.
pub open spec fn padded(data: Seq<u8>, spec: ParsedConversionSpecification) -> Seq<u8> {
    let missing: nat = if data.len() < spec.min_width {
        (spec.min_width - data.len()) as nat
    } else {
        0
    };
    let fill = Seq::new(
        missing,
        |i: int|
            if spec.flags.pad_zero {
                DIGIT_ZERO
            } else {
                SPACE
            },
    );
    if spec.flags.adj_left {
        data + fill
    } else {
        fill + data
    }
}

/// The least and the greatest integer that a length modifier admits. The
/// modifiers `L` and `t` are not implemented for integers.
pub open spec fn int_bounds(m: LenModifier) -> Option<(int, int)> {
    match m {
        LenModifier::Shorter => Some((i8::MIN as int, i8::MAX as int)),
        LenModifier::Short => Some((i16::MIN as int, i16::MAX as int)),
        LenModifier::Absent => Some((i32::MIN as int, i32::MAX as int)),
        LenModifier::Long | LenModifier::Longer => Some((i64::MIN as int, i64::MAX as int)),
        LenModifier::Longest => Some((i128::MIN as int, i128::MAX as int)),
        LenModifier::Size => Some((isize::MIN as int, isize::MAX as int)),
        LenModifier::LongDouble | LenModifier::PtrDiff => None,
    }
}

/// What a conversion makes of an integer.
pub open spec fn int_output<E>(x: i128, spec: ParsedConversionSpecification) -> Result<
    Seq<u8>,
    FormatToError<E>,
> {
    match spec.conv_kind {
        ConvKind::String => Err(FormatToError::BadType),
        ConvKind::SignDecInt => match int_bounds(spec.len_modifier) {
            None => Err(FormatToError::Unsupported),
            Some((low, up)) => if x < low || up < x {
                Err(FormatToError::NumOverflow)
            } else {
                Ok(padded(decimal_text(x as int), spec))
            },
        },
    }
}

/// The part of a byte string that a conversion emits: all of it, or as many
/// bytes as the precision allows.
pub open spec fn truncated(b: Seq<u8>, prec: Option<usize>) -> Seq<u8> {
    match prec {
        Some(p) => if p < b.len() {
            b.subrange(0, p as int)
        } else {
            b
        },
        None => b,
    }
}

/// What a conversion makes of a byte string.
pub open spec fn bytes_output<E>(b: Seq<u8>, spec: ParsedConversionSpecification) -> Result<
    Seq<u8>,
    FormatToError<E>,
> {
    match spec.conv_kind {
        ConvKind::SignDecInt => Err(FormatToError::BadType),
        ConvKind::String => if spec.flags.alt || spec.flags.pad_zero || spec.flags.comma_groups
            || spec.flags.alt_digits {
            Err(FormatToError::Invalid)
        } else {
            Ok(padded(truncated(b, spec.prec), spec))
        },
    }
}

/// What a conversion makes of a value.
pub open spec fn value_output<E>(v: Value, spec: ParsedConversionSpecification) -> Result<
    Seq<u8>,
    FormatToError<E>,
> {
    match v {
        Value::Int(x) => int_output(x, spec),
        Value::String(b) => bytes_output(b@, spec),
    }
}

/// How far a formatting pass has come: the bytes written, the position of
/// the next argument, and the error, once there is one.
pub ghost struct Progress<E> {
    pub out: Seq<u8>,
    pub next_arg: usize,
    pub error: Option<FormatToError<E>>,
}

/// A pass after a conversion has come to `outcome`: its text is written, or
/// its error is the error of the pass.
pub open spec fn settled<E>(st: Progress<E>, outcome: Result<Seq<u8>, FormatToError<E>>) -> Progress<E> {
    match outcome {
        Ok(text) => Progress { out: st.out + text, ..st },
        Err(e) => Progress { error: Some(e), ..st },
    }
}

/// What a parsed conversion does to a pass: it takes the next argument, if
/// there is one, and renders it.
pub open spec fn take_arg<E>(
    st: Progress<E>,
    spec: ParsedConversionSpecification,
    args: Seq<Value>,
) -> Progress<E> {
    if st.next_arg >= args.len() {
        Progress { error: Some(FormatToError::NotEnoughArguments), ..st }
    } else {
        settled(
            Progress { next_arg: (st.next_arg + 1) as usize, ..st },
            value_output::<E>(args[st.next_arg as int], spec),
        )
    }
}

/// What one conversion specification does to a pass that has not failed.
pub open spec fn convert<E>(st: Progress<E>, t: SpecText, args: Seq<Value>) -> Progress<E> {
    match ParsedConversionSpecification::parsed(t) {
        Err(e) => Progress { error: Some(FormatToError::Spec(e)), ..st },
        Ok(spec) => if spec.flags.alt_digits || spec.flags.comma_groups {
            Progress { error: Some(FormatToError::Unsupported), ..st }
        } else {
            take_arg(st, spec, args)
        },
    }
}

/// What one event does to a pass. Once the pass has failed nothing changes
/// any more: no byte is written and no argument is taken.
pub open spec fn advance<E>(st: Progress<E>, ev: Event, args: Seq<Value>) -> Progress<E> {
    if st.error is Some {
        st
    } else {
        match ev {
            Event::Bytes(b) => Progress { out: st.out + b, ..st },
            Event::Percent => Progress { out: st.out + seq![PERCENT], ..st },
            Event::Spec(t) => convert(st, t, args),
        }
    }
}

/// What a run of events does to a pass.
pub open spec fn run<E>(st: Progress<E>, evs: Seq<Event>, args: Seq<Value>) -> Progress<E>
    decreases evs.len(),
{
    if evs.len() == 0 {
        st
    } else {
        advance(run(st, evs.drop_last(), args), evs.last(), args)
    }
}

/// Whether the event at `k` is one at which the sink may fail: the events
/// before it leave the pass without an error, and the event itself raises
/// none, so that it hands bytes to the sink.
pub open spec fn puts_at<E>(st: Progress<E>, evs: Seq<Event>, args: Seq<Value>, k: int) -> bool {
    &&& 0 <= k < evs.len()
    &&& run(st, evs.subrange(0, k), args).error is None
    &&& advance(run(st, evs.subrange(0, k), args), evs[k], args).error is None
}

/// What the pass has written when the event at `k` is done.
pub open spec fn text_at<E>(st: Progress<E>, evs: Seq<Event>, args: Seq<Value>, k: int) -> Seq<u8> {
    advance(run(st, evs.subrange(0, k), args), evs[k], args).out
}

/// The events of a template never put the error of a sink into a pass.
pub proof fn lemma_run_no_sink_error<E>(st: Progress<E>, evs: Seq<Event>, args: Seq<Value>)
    requires
        !(st.error matches Some(FormatToError::Sink(_))),
    ensures
        !(run(st, evs, args).error matches Some(FormatToError::Sink(_))),
    decreases evs.len(),
{
    if evs.len() > 0 {
        lemma_run_no_sink_error(st, evs.drop_last(), args);
    }
}

/// What formatting `template` with `args` comes to, in a sink that never
/// fails and holds `before` already.
pub open spec fn rendering<E>(before: Seq<u8>, template: Seq<u8>, args: Seq<Value>) -> Progress<E> {
    run(Progress { out: before, next_arg: 0, error: None }, events(template), args)
}

/// The engine itself: a sink, the arguments, the position of the next
/// argument, and the error, once there is one.
pub struct Formatter<'a, H: BinSink> {
    pub sink: &'a mut H,
    pub args: &'a [Value<'a>],
    pub error: Option<FormatToError<H::Err>>,
    pub next_arg: usize,
}

impl<'a, H: BinSink> Formatter<'a, H> {
    /// How far the pass has come.
    pub open spec fn progress(self) -> Progress<H::Err> {
        Progress { out: taken(*self.sink), next_arg: self.next_arg, error: self.error }
    }

    /// Whether `next` may be a later state of the same pass: the arguments
    /// are the same, and a sink that never fails is still one.
    pub open spec fn same_run(self, next: Self) -> bool {
        &&& next.args@ == self.args@
        &&& self.sink.never_fails() ==> next.sink.never_fails()
    }

    /// Whether the sink has failed at the event `k` of `evs` on the way from
    /// this state to `next`: the events before it went through, the event
    /// itself hands bytes to the sink, and the position of the next argument
    /// is where that event leaves it.
    pub open spec fn failed_at(self, evs: Seq<Event>, k: int, next: Self) -> bool {
        &&& puts_at(self.progress(), evs, self.args@, k)
        &&& next.next_arg == advance(
            run(self.progress(), evs.subrange(0, k), self.args@),
            evs[k],
            self.args@,
        ).next_arg
        &&& self.sink_failed(next, text_at(self.progress(), evs, self.args@, k))
    }

    /// Whether `next` is what this state becomes by the events `evs`. A pass
    /// that has failed stays as it is. One that has not goes where the events
    /// take it, unless the sink fails; and the sink fails only at an event
    /// that hands bytes to it, after events that went through.
    pub open spec fn follows(self, evs: Seq<Event>, next: Self) -> bool {
        if self.error is Some {
            self.stays(next)
        } else {
            &&& self.same_run(next)
            &&& self.reached(next, run(self.progress(), evs, self.args@)) || exists|k: int|
                #[trigger] self.failed_at(evs, k, next)
        }
    }

    /// Whether the sink has failed on the way from this state to `next`,
    /// where `text` is what the sink was to hold in `next`: the error is the
    /// one that a put returned and the sink is as that put left it; a sink
    /// that keeps account held the beginning of `text`, with what it held
    /// in this state still there, and was given what comes next in `text`.
    pub open spec fn sink_failed(self, next: Self, text: Seq<u8>) -> bool {
        &&& !self.sink.never_fails()
        &&& exists|mid: H, data: Seq<u8>, e: H::Err|
            next.error == Some(FormatToError::Sink(e)) && #[trigger] refusal(
                *self.sink,
                *next.sink,
                mid,
                data,
                e,
                text,
            )
    }

    /// Whether `last` is how the events `evs` have ended a pass that began
    /// in this state. Either the sink has failed: then it was given bytes at
    /// an event that writes, after events that went through, the error is
    /// the one that the put returned, and the sink is as that put left it.
    /// Or the pass has come where its events take it.
    pub open spec fn ended(self, evs: Seq<Event>, last: Self) -> bool {
        &&& self.same_run(last)
        &&& match last.error {
            Some(FormatToError::Sink(e)) => {
                &&& !self.sink.never_fails()
                &&& exists|k: int, mid: H, data: Seq<u8>|
                    puts_at(self.progress(), evs, self.args@, k) && #[trigger] refusal(
                        *self.sink,
                        *last.sink,
                        mid,
                        data,
                        e,
                        text_at(self.progress(), evs, self.args@, k),
                    )
            },
            _ => self.reached(last, run(self.progress(), evs, self.args@)),
        }
    }

    /// Whether `next` is this state untouched: a pass that has failed stays
    /// as it is.
    pub open spec fn stays(self, next: Self) -> bool {
        &&& next.args@ == self.args@
        &&& *next.sink == *self.sink
        &&& next.error == self.error
        &&& next.next_arg == self.next_arg
    }

    /// Whether the pass has come to `target` in `next`: the position of the
    /// next argument and the error are those of `target`, a sink that kept
    /// account in this state holds the text of `target`, and a bounded sink
    /// had room for what was added and has that much less now.
    pub open spec fn reached(self, next: Self, target: Progress<H::Err>) -> bool {
        &&& next.next_arg == target.next_arg
        &&& next.error == target.error
        &&& self.sink.written() is Some ==> next.sink.written() == Some(target.out)
        &&& self.sink.room() matches Some(n) ==> target.out.len() - taken(*self.sink).len() <= n
            && next.sink.room() == Some((n - (target.out.len() - taken(*self.sink).len())) as nat)
    }

    /// Whether `next` is what this state becomes on the way to `target`.
    /// The position of the next argument is that of `target` in any case.
    /// The pass has come to `target`, or the sink has failed; and the sink
    /// can have failed only where `target` brings no error of its own, for
    /// an error of the engine is raised before any byte is handed on.
    pub open spec fn moved(self, next: Self, target: Progress<H::Err>) -> bool {
        &&& self.same_run(next)
        &&& next.next_arg == target.next_arg
        &&& self.reached(next, target) || (target.error == self.error && self.sink_failed(next, target.out))
    }

    pub fn had_error(&self) -> (yes: bool)
        ensures
            yes == self.error is Some,
    {
        self.error.is_some()
    }

    /// Hands `b` to the sink, and keeps the sink's error if it fails.
    #[must_use]
    pub fn call_handler(&mut self, b: &[u8]) -> (ok: bool)
        ensures
            old(self).same_run(*final(self)),
            *final(final(self).sink) == *final(old(self).sink),
            final(self).next_arg == old(self).next_arg,
            ok ==> old(self).reached(*final(self), settled(old(self).progress(), Ok(b@))),
            !ok ==> old(self).sink_failed(*final(self), taken(*old(self).sink) + b@),
    {
        match self.sink.put(b) {
            Ok(()) => true,
            Err(e) => {
                self.error = Some(FormatToError::Sink(e));
                proof {
                    lemma_prefix_of_sum(taken(*old(self).sink), Seq::empty());
                    lemma_prefix_of_sum(taken(*old(self).sink) + b@, Seq::empty());
                    assert(taken(*old(self).sink) + Seq::<u8>::empty() == taken(*old(self).sink));
                    assert(taken(*old(self).sink) + b@ + Seq::<u8>::empty() == taken(
                        *old(self).sink,
                    ) + b@);
                    assert(refusal(
                        *old(self).sink,
                        *self.sink,
                        *old(self).sink,
                        b@,
                        e,
                        taken(*old(self).sink) + b@,
                    ));
                }
                false
            },
        }
    }

    /// Writes the byte `c` to the sink `cnt` times, one at a time, and stops
    /// at the first failure.
    #[must_use]
    pub fn write_padding(&mut self, c: u8, cnt: usize) -> (ok: bool)
        ensures
            old(self).same_run(*final(self)),
            *final(final(self).sink) == *final(old(self).sink),
            final(self).next_arg == old(self).next_arg,
            ok ==> old(self).reached(
                *final(self),
                settled(old(self).progress(), Ok(Seq::new(cnt as nat, |i: int| c))),
            ),
            !ok ==> old(self).sink_failed(
                *final(self),
                taken(*old(self).sink) + Seq::new(cnt as nat, |i: int| c),
            ),
    {
        let sl: [u8; 1] = [c];
        let mut k: usize = 0;
        while k < cnt
            invariant
                k <= cnt,
                sl@ == seq![c],
                old(self).same_run(*self),
                *final(self.sink) == *final(old(self).sink),
                old(self).reached(
                    *self,
                    settled(old(self).progress(), Ok(Seq::new(k as nat, |i: int| c))),
                ),
            decreases cnt - k,
        {
            let ghost here = *self;
            if !self.call_handler(sl.as_slice()) {
                proof {
                    let w = taken(*old(self).sink);
                    lemma_prefix_of_sum(w, Seq::new(k as nat, |i: int| c));
                    lemma_prefix_of_sum(
                        w + Seq::new((k + 1) as nat, |i: int| c),
                        Seq::new((cnt - k - 1) as nat, |i: int| c),
                    );
                    assert(w + Seq::new((k + 1) as nat, |i: int| c) + Seq::new(
                        (cnt - k - 1) as nat,
                        |i: int| c,
                    ) =~= w + Seq::new(cnt as nat, |i: int| c));
                    assert(w + Seq::new(k as nat, |i: int| c) + seq![c] =~= w + Seq::new(
                        (k + 1) as nat,
                        |i: int| c,
                    ));
                    lemma_failed_later(
                        *old(self),
                        here,
                        *self,
                        taken(*here.sink) + seq![c],
                        w + Seq::new(cnt as nat, |i: int| c),
                    );
                }
                return false;
            }
            assert(taken(*old(self).sink) + Seq::new(k as nat, |i: int| c) + seq![c] =~= taken(
                *old(self).sink,
            ) + Seq::new((k + 1) as nat, |i: int| c));
            k += 1;
        }
        true
    }

    /// Writes `data` with the padding that `spec` asks for.
    pub fn write_data(&mut self, data: &[u8], spec: ParsedConversionSpecification)
        ensures
            *final(final(self).sink) == *final(old(self).sink),
            old(self).moved(
                *final(self),
                settled(old(self).progress(), Ok(padded(data@, spec))),
            ),
    {
        let padding_size: usize = if data.len() < spec.min_width {
            spec.min_width - data.len()
        } else {
            0
        };
        let pad_char: u8 = if spec.flags.pad_zero { DIGIT_ZERO } else { SPACE };
        let ghost fill = Seq::new(padding_size as nat, |i: int| pad_char);
        assert(fill =~= Seq::new(
            padding_size as nat,
            |i: int|
                if spec.flags.pad_zero {
                    DIGIT_ZERO
                } else {
                    SPACE
                },
        ));

        if !spec.flags.adj_left {
            if !self.write_padding(pad_char, padding_size) {
                proof {
                    let w = taken(*old(self).sink);
                    lemma_prefix_of_sum(w, Seq::empty());
                    assert(w + Seq::<u8>::empty() == w);
                    lemma_prefix_of_sum(w + fill, data@);
                    assert(w + fill + data@ =~= w + padded(data@, spec));
                    lemma_failed_later(
                        *old(self),
                        *old(self),
                        *self,
                        w + fill,
                        w + padded(data@, spec),
                    );
                }
                return ;
            }
        }
        let ghost padded_left = *self;
        if !self.call_handler(data) {
            proof {
                let w = taken(*old(self).sink);
                lemma_prefix_of_sum(w, fill);
                lemma_prefix_of_sum(w, Seq::empty());
                assert(w + Seq::<u8>::empty() == w);
                if spec.flags.adj_left {
                    lemma_prefix_of_sum(w + data@, fill);
                    assert(w + data@ + fill == w + padded(data@, spec));
                } else {
                    lemma_prefix_of_sum(w + fill + data@, Seq::empty());
                    assert(w + fill + data@ + Seq::<u8>::empty() =~= w + padded(data@, spec));
                }
                lemma_failed_later(
                    *old(self),
                    padded_left,
                    *self,
                    taken(*padded_left.sink) + data@,
                    w + padded(data@, spec),
                );
            }
            return ;
        }
        let ghost written = *self;
        if spec.flags.adj_left {
            if !self.write_padding(pad_char, padding_size) {
                proof {
                    let w = taken(*old(self).sink);
                    lemma_prefix_of_sum(w, data@);
                    lemma_prefix_of_sum(w + data@ + fill, Seq::empty());
                    assert(w + data@ + fill + Seq::<u8>::empty() =~= w + padded(data@, spec));
                    lemma_failed_later(
                        *old(self),
                        written,
                        *self,
                        taken(*written.sink) + fill,
                        w + padded(data@, spec),
                    );
                }
                return ;
            }
        }
        assert(old(self).sink.written() is Some ==> self.sink.written().unwrap() =~= taken(
            *old(self).sink,
        ) + padded(data@, spec));
    }

    /// Renders the integer `x`.
    pub fn format_int(&mut self, x: i128, spec: ParsedConversionSpecification)
        ensures
            *final(final(self).sink) == *final(old(self).sink),
            old(self).moved(
                *final(self),
                settled(old(self).progress(), int_output::<H::Err>(x, spec)),
            ),
    {
        match spec.conv_kind {
            ConvKind::String => {
                self.error = Some(FormatToError::BadType);
            },
            ConvKind::SignDecInt => {
                // check limits
                let (low_bound, up_bound): (i128, i128) = match spec.len_modifier {
                    LenModifier::Shorter => (i8::MIN as i128, i8::MAX as i128),
                    LenModifier::Short => (i16::MIN as i128, i16::MAX as i128),
                    LenModifier::Absent => (i32::MIN as i128, i32::MAX as i128),
                    LenModifier::Long | LenModifier::Longer => (i64::MIN as i128, i64::MAX as i128),
                    LenModifier::Longest => (i128::MIN, i128::MAX),
                    LenModifier::Size => (isize::MIN as i128, isize::MAX as i128),
                    _ => {
                        self.error = Some(FormatToError::Unsupported);
                        return ;
                    },
                };
                if x < low_bound || up_bound < x {
                    self.error = Some(FormatToError::NumOverflow);
                    return ;
                }
                let mut buf = new_buffer();
                let data = render_decimal(&mut buf, x);
                self.write_data(data, spec);
            },
        }
    }

    /// Renders the byte string `b`.
    pub fn format_bytes(&mut self, b: &[u8], spec: ParsedConversionSpecification)
        ensures
            *final(final(self).sink) == *final(old(self).sink),
            old(self).moved(
                *final(self),
                settled(old(self).progress(), bytes_output::<H::Err>(b@, spec)),
            ),
    {
        match spec.conv_kind {
            ConvKind::SignDecInt => {
                self.error = Some(FormatToError::BadType);
            },
            ConvKind::String => {
                if spec.flags.alt || spec.flags.pad_zero || spec.flags.comma_groups
                    || spec.flags.alt_digits {
                    self.error = Some(FormatToError::Invalid);
                    return ;
                }
                let len: usize = match spec.prec {
                    Some(p) => if p < b.len() {
                        p
                    } else {
                        b.len()
                    },
                    None => b.len(),
                };
                let write_part = slice_subrange(b, 0, len);
                assert(write_part@ =~= truncated(b@, spec.prec));
                self.write_data(write_part, spec);
            },
        }
    }

    /// Takes the next argument and renders it as `spec` says.
    pub fn format(&mut self, spec: ParsedConversionSpecification)
        ensures
            *final(final(self).sink) == *final(old(self).sink),
            old(self).moved(*final(self), take_arg(old(self).progress(), spec, old(self).args@)),
    {
        if self.next_arg >= self.args.len() {
            self.error = Some(FormatToError::NotEnoughArguments);
            return ;
        }
        let arg = self.args[self.next_arg];
        self.next_arg += 1;
        match arg {
            Value::Int(x) => self.format_int(x, spec),
            Value::String(bytes) => self.format_bytes(bytes, spec),
        }
    }
}

impl<'a, H: BinSink> Formatter<'a, H> {
    /// Takes one event of the template.
    pub fn accept(&mut self, token: Token)
        ensures
            *final(final(self).sink) == *final(old(self).sink),
            Self::handled(*old(self), token@, *final(self)),
    {
        if self.had_error() {
            return ;
        }
        match token {
            Token::Bytes(b) => {
                let _ = self.call_handler(b);
            },
            Token::Percent => {
                let percent: [u8; 1] = [PERCENT];
                assert(percent@ =~= seq![PERCENT]);
                let _ = self.call_handler(percent.as_slice());
            },
            Token::Spec(spec) => {
                let hi_spec = match ParsedConversionSpecification::try_parse(spec) {
                    Ok(x) => x,
                    Err(e) => {
                        self.error = Some(FormatToError::Spec(e));
                        return ;
                    },
                };
                if !hi_spec.is_supported() {
                    self.error = Some(FormatToError::Unsupported);
                    return ;
                }
                self.format(hi_spec);
            },
        }
    }

    /// Drives the tokenizer once over `template` and takes each event.
    ///
    /// The pass reads the tokens itself and does not go through `visit`: a
    /// visitor's account of itself cannot say that the sink it holds at the
    /// end is the borrow it was given, and it is of that borrow that
    /// `format_to` has to speak. `lemma_pass` shows that a formatter which
    /// is driven by `visit` ends in the same way.
    pub fn pass(&mut self, template: &[u8])
        ensures
            *final(final(self).sink) == *final(old(self).sink),
            old(self).follows(events(template@), *final(self)),
    {
        let n: usize = template.len();
        let mut i: usize = 0;
        let ghost done: Seq<Event> = Seq::empty();
        while i < n
            invariant
                n == template.len(),
                i <= n,
                *final(self.sink) == *final(old(self).sink),
                old(self).follows(done, *self),
                events(template@) == done + events_from(template@, i as int),
            decreases n - i,
        {
            let ghost before = *self;
            let ghost rest = events_from(template@, i as int);
            let (token, end) = next_token(template, i);
            match token {
                Some(token) => {
                    let ghost ev = token@;
                    self.accept(token);
                    proof {
                        lemma_follows_push(*old(self), done, before, ev, *self);
                        assert(done + rest == done.push(ev) + events_from(template@, end as int));
                        done = done.push(ev);
                    }
                },
                None => {},
            }
            i = end;
        }
        assert(done + events_from(template@, i as int) == done);
    }
}

impl<'a, H: BinSink> FormatStringVisitor for Formatter<'a, H> {
    /// A pass that has failed stays as it is. One that has not goes where the
    /// event takes it, unless the sink fails.
    open spec fn handled(self, ev: Event, next: Self) -> bool {
        if self.error is Some {
            self.stays(next)
        } else {
            self.moved(next, advance(self.progress(), ev, self.args@))
        }
    }

    fn visit_bytes(&mut self, b: &[u8]) {
        self.accept(Token::Bytes(b));
    }

    fn visit_escaped_percent(&mut self) {
        self.accept(Token::Percent);
    }

    fn visit_specification(&mut self, spec: ConversionSpecification) {
        self.accept(Token::Spec(spec));
    }

    fn visit_eof(&mut self) {
    }
}

/// A text begins with its first part.
pub proof fn lemma_prefix_of_sum(a: Seq<u8>, b: Seq<u8>)
    ensures
        a.is_prefix_of(a + b),
{
    assert((a + b).subrange(0, a.len() as int) =~= a);
}

/// A sink that fails later in the same work, on a part `sub` of its text,
/// has failed in that work: what it held at the beginning was still there,
/// and what it held and was given is a beginning of the whole `text`.
pub proof fn lemma_failed_later<'a, H: BinSink>(
    first: Formatter<'a, H>,
    here: Formatter<'a, H>,
    next: Formatter<'a, H>,
    sub: Seq<u8>,
    text: Seq<u8>,
)
    requires
        here.sink_failed(next, sub),
        first.sink.never_fails() ==> here.sink.never_fails(),
        first.sink.written() matches Some(w) ==> here.sink.written() matches Some(m)
            && w.is_prefix_of(m) && sub.is_prefix_of(text),
    ensures
        first.sink_failed(next, text),
{
    let (mid, data, e) = choose|mid: H, data: Seq<u8>, e: H::Err|
        next.error == Some(FormatToError::Sink(e)) && #[trigger] refusal(
            *here.sink,
            *next.sink,
            mid,
            data,
            e,
            sub,
        );
    if first.sink.written() is Some {
        let w = first.sink.written().unwrap();
        let m = here.sink.written().unwrap();
        let last = mid.written().unwrap();
        assert(w =~= last.subrange(0, w.len() as int)) by {
            assert(m == last.subrange(0, m.len() as int));
            assert(w == m.subrange(0, w.len() as int));
        }
        let given = last + data;
        assert(given =~= text.subrange(0, given.len() as int)) by {
            assert(given == sub.subrange(0, given.len() as int));
            assert(sub == text.subrange(0, sub.len() as int));
        }
    }
    assert(refusal(*first.sink, *next.sink, mid, data, e, text));
}

/// What a pass has written begins with what stood there before.
pub proof fn lemma_run_extends<E>(st: Progress<E>, evs: Seq<Event>, args: Seq<Value>)
    ensures
        st.out.is_prefix_of(run(st, evs, args).out),
    decreases evs.len(),
{
    if evs.len() == 0 {
        lemma_prefix_of_sum(st.out, Seq::empty());
        assert(st.out + Seq::<u8>::empty() == st.out);
    } else {
        lemma_run_extends(st, evs.drop_last(), args);
        let before = run(st, evs.drop_last(), args);
        let after = advance(before, evs.last(), args);
        assert(before.out.is_prefix_of(after.out)) by {
            assert(after.out =~= before.out + after.out.subrange(
                before.out.len() as int,
                after.out.len() as int,
            ));
            lemma_prefix_of_sum(
                before.out,
                after.out.subrange(before.out.len() as int, after.out.len() as int),
            );
        }
        assert(st.out =~= after.out.subrange(0, st.out.len() as int)) by {
            assert(before.out == after.out.subrange(0, before.out.len() as int));
            assert(st.out == before.out.subrange(0, st.out.len() as int));
        }
    }
}

/// How a pass that began without an error has ended. Either the sink has
/// failed: then it was given bytes at an event that writes, after events
/// that went through, the error is the one that the put returned, and the
/// sink is as that put left it. Or the pass has come where its events take
/// it.
pub proof fn lemma_outcome<'a, H: BinSink>(
    first: Formatter<'a, H>,
    evs: Seq<Event>,
    last: Formatter<'a, H>,
)
    requires
        first.error is None,
        first.follows(evs, last),
    ensures
        first.ended(evs, last),
{
    lemma_run_no_sink_error(first.progress(), evs, first.args@);
    let target = run(first.progress(), evs, first.args@);
    if first.reached(last, target) {
        assert(!(last.error matches Some(FormatToError::Sink(_))));
        assert(first.ended(evs, last));
    } else {
        let k = choose|k: int| #[trigger] first.failed_at(evs, k, last);
        assert(first.failed_at(evs, k, last));
        assert(puts_at(first.progress(), evs, first.args@, k));
        let text = text_at(first.progress(), evs, first.args@, k);
        assert(first.sink_failed(last, text));
        let (mid, data, e) = choose|mid: H, data: Seq<u8>, e: H::Err|
            last.error == Some(FormatToError::Sink(e)) && #[trigger] refusal(
                *first.sink,
                *last.sink,
                mid,
                data,
                e,
                text,
            );
        let e0 = last.error->0->Sink_0;
        assert(e0 == e);
        assert(refusal(*first.sink, *last.sink, mid, data, e0, text));
        assert(exists|k: int, mid: H, data: Seq<u8>|
            puts_at(first.progress(), evs, first.args@, k) && #[trigger] refusal(
                *first.sink,
                *last.sink,
                mid,
                data,
                e0,
                text_at(first.progress(), evs, first.args@, k),
            ));
        assert(first.same_run(last));
        assert(!first.sink.never_fails());
        assert(first.ended(evs, last));
    }
}

/// One more event extends what a pass follows.
pub proof fn lemma_follows_push<'a, H: BinSink>(
    first: Formatter<'a, H>,
    evs: Seq<Event>,
    mid: Formatter<'a, H>,
    ev: Event,
    last: Formatter<'a, H>,
)
    requires
        first.follows(evs, mid),
        Formatter::handled(mid, ev, last),
    ensures
        first.follows(evs.push(ev), last),
{
    let all = evs.push(ev);
    assert(all.drop_last() == evs);
    assert(all.last() == ev);
    if first.error is None {
        let before = run(first.progress(), evs, first.args@);
        if first.reached(mid, before) {
            if mid.error is None && !mid.reached(last, advance(mid.progress(), ev, mid.args@)) {
                assert(all.subrange(0, evs.len() as int) == evs);
                lemma_run_extends(first.progress(), evs, first.args@);
                let sub = advance(mid.progress(), ev, mid.args@).out;
                let text = text_at(first.progress(), all, first.args@, evs.len() as int);
                if first.sink.written() is Some {
                    assert(mid.progress() == before);
                    assert(sub == text);
                    lemma_prefix_of_sum(sub, Seq::empty());
                    assert(sub + Seq::<u8>::empty() == sub);
                }
                lemma_failed_later(first, mid, last, sub, text);
                assert(first.failed_at(all, evs.len() as int, last));
            }
        } else {
            let k = choose|k: int| #[trigger] first.failed_at(evs, k, mid);
            assert(all.subrange(0, k) == evs.subrange(0, k));
            assert(first.failed_at(all, k, last));
        }
    }
}

/// A formatter that is handed the events of a template, by whatever
/// tokenizer, follows them.
pub proof fn lemma_pass<'a, H: BinSink>(
    first: Formatter<'a, H>,
    evs: Seq<Event>,
    last: Formatter<'a, H>,
)
    requires
        delivered(first, evs, last),
    ensures
        first.follows(evs, last),
    decreases evs.len(),
{
    if evs.len() > 0 {
        let mid = choose|mid: Formatter<'a, H>|
            delivered(first, evs.drop_last(), mid) && #[trigger] Formatter::handled(
                mid,
                evs.last(),
                last,
            );
        lemma_pass(first, evs.drop_last(), mid);
        lemma_follows_push(first, evs.drop_last(), mid, evs.last(), last);
        assert(evs.drop_last().push(evs.last()) == evs);
    }
}

} // verus!
