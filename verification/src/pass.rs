//! What holds of every formatting pass, proved from the definitions of the
//! tokenizer and of the engine.

use vstd::prelude::*;
use crate::ascii::{MINUS, PERCENT, SPACE};
use crate::format::{
    advance, bytes_output, decimal_text, nat_digits, padded, rendering, run, truncated,
    value_output, FormatToError, Progress,
};
use crate::high::{all_digits, digits_value, is_digit, ConvKind, ParsedConversionSpecification};
use crate::parser::{
    events, events_from, lemma_run_end, lemma_spec_text, lemma_token_end, run_end, token_at,
    token_end, ByteClass,
};
use crate::visit::{Event, SpecText};
use crate::Value;

verus! {

/// A run of one event is that event.
pub proof fn lemma_run_one<E>(st: Progress<E>, ev: Event, args: Seq<Value>)
    ensures
        run(st, seq![ev], args) == advance(st, ev, args),
{
    assert(seq![ev].drop_last() == Seq::<Event>::empty());
    assert(run(st, seq![ev].drop_last(), args) == st);
}

/// A template without a percent sign is rendered as it stands, whatever the
/// arguments are, and takes none of them.
pub proof fn lemma_plain_template<E>(before: Seq<u8>, template: Seq<u8>, args: Seq<Value>)
    requires
        forall|i: int| 0 <= i < template.len() ==> template[i] != PERCENT,
    ensures
        rendering::<E>(before, template, args) == (Progress::<E> {
            out: before + template,
            next_arg: 0,
            error: None,
        }),
{
    let start = Progress::<E> { out: before, next_arg: 0, error: None };
    if template.len() == 0 {
        assert(before + template == before);
    } else {
        lemma_run_end(template, 0, ByteClass::Literal);
        let end = run_end(template, 0, ByteClass::Literal);
        assert(end == template.len());
        assert(template.subrange(0, end) == template);
        assert(events_from(template, end) == Seq::<Event>::empty());
        assert(events(template) == seq![Event::Bytes(template)]);
        lemma_run_one(start, Event::Bytes(template), args);
    }
}

/// `n` percent signs.
pub open spec fn percents(n: nat) -> Seq<u8> {
    Seq::new(n, |i: int| PERCENT)
}

/// Where the tokenizer stands before two percent signs, it reads an escaped
/// percent sign and goes on behind the two, whatever stands around them; and
/// a pass that has not failed writes one percent sign for it.
pub proof fn lemma_escaped_percent_at<E>(
    st: Progress<E>,
    template: Seq<u8>,
    i: int,
    args: Seq<Value>,
)
    requires
        0 <= i,
        i + 1 < template.len(),
        template[i] == PERCENT,
        template[i + 1] == PERCENT,
        st.error is None,
    ensures
        events_from(template, i) == seq![Event::Percent] + events_from(template, i + 2),
        advance(st, Event::Percent, args) == (Progress { out: st.out + seq![PERCENT], ..st }),
{
}

/// From an even position on, a template of percent signs alone holds one
/// escaped percent sign for each pair of them.
proof fn lemma_percent_events(n: nat, k: nat)
    requires
        k <= n,
    ensures
        events_from(percents(2 * n), 2 * k as int) == Seq::new((n - k) as nat, |i: int| Event::Percent),
    decreases n - k,
{
    let s = percents(2 * n);
    if k < n {
        lemma_percent_events(n, k + 1);
        assert(token_at(s, 2 * k as int) == Some(Event::Percent));
        assert(token_end(s, 2 * k as int) == 2 * (k + 1));
        assert(seq![Event::Percent] + Seq::new((n - (k + 1)) as nat, |i: int| Event::Percent)
            =~= Seq::new((n - k) as nat, |i: int| Event::Percent));
    } else {
        assert(events_from(s, 2 * k as int) =~= Seq::new(0nat, |i: int| Event::Percent));
    }
}

/// Escaped percent signs alone render as that many percent signs.
proof fn lemma_run_percents<E>(st: Progress<E>, m: nat, args: Seq<Value>)
    requires
        st.error is None,
    ensures
        run(st, Seq::new(m, |i: int| Event::Percent), args) == (Progress {
            out: st.out + percents(m),
            ..st
        }),
    decreases m,
{
    let evs = Seq::new(m, |i: int| Event::Percent);
    if m == 0 {
        assert(st.out + percents(0) == st.out);
    } else {
        lemma_run_percents(st, (m - 1) as nat, args);
        assert(evs.drop_last() == Seq::new((m - 1) as nat, |i: int| Event::Percent));
        assert(st.out + percents((m - 1) as nat) + seq![PERCENT] == st.out + percents(m));
    }
}

/// `n` pairs of percent signs render as `n` percent signs, whatever the
/// arguments are, and take none of them.
pub proof fn lemma_escaped_percents<E>(before: Seq<u8>, n: nat, args: Seq<Value>)
    ensures
        rendering::<E>(before, percents(2 * n), args) == (Progress::<E> {
            out: before + percents(n),
            next_arg: 0,
            error: None,
        }),
{
    lemma_percent_events(n, 0);
    lemma_run_percents(Progress::<E> { out: before, next_arg: 0, error: None }, n, args);
}

/// The number that a decimal text writes: its digits, taken as negative
/// after a minus sign.
pub open spec fn decimal_value(s: Seq<u8>) -> int {
    if s.len() > 0 && s[0] == MINUS {
        -(digits_value(s.subrange(1, s.len() as int)) as int)
    } else {
        digits_value(s) as int
    }
}

/// The digits of a number are digits, at least one of them, and they write
/// that number.
pub proof fn lemma_nat_digits(n: nat)
    ensures
        nat_digits(n).len() >= 1,
        all_digits(nat_digits(n)),
        digits_value(nat_digits(n)) == n,
    decreases n,
{
    if n < 10 {
        assert(nat_digits(n).drop_last() == Seq::<u8>::empty());
        assert(digits_value(nat_digits(n).drop_last()) == 0);
    } else {
        lemma_nat_digits(n / 10);
        assert(nat_digits(n).drop_last() == nat_digits(n / 10));
    }
}

/// Reading the decimal text of a number gives the number back.
pub proof fn lemma_decimal_round_trip(x: int)
    ensures
        decimal_value(decimal_text(x)) == x,
{
    if x < 0 {
        lemma_nat_digits((-x) as nat);
        assert(decimal_text(x).subrange(1, decimal_text(x).len() as int) == nat_digits(
            (-x) as nat,
        ));
    } else {
        lemma_nat_digits(x as nat);
        assert(is_digit(nat_digits(x as nat)[0]));
    }
}

/// A padded field is never shorter than the least width nor than its data.
/// Where the data are shorter than the least width, the field has exactly
/// that width; where they are not, the field is the data. The data stand
/// last in the field, or first where it is adjusted to the left.
pub proof fn lemma_padded(data: Seq<u8>, spec: ParsedConversionSpecification)
    ensures
        padded(data, spec).len() >= spec.min_width,
        padded(data, spec).len() >= data.len(),
        data.len() < spec.min_width ==> padded(data, spec).len() == spec.min_width,
        data.len() >= spec.min_width ==> padded(data, spec) == data,
        spec.flags.adj_left ==> padded(data, spec).subrange(0, data.len() as int) == data,
        !spec.flags.adj_left ==> padded(data, spec).subrange(
            padded(data, spec).len() - data.len(),
            padded(data, spec).len() as int,
        ) == data,
{
    if data.len() >= spec.min_width {
        assert(padded(data, spec) =~= data);
    }
    assert(spec.flags.adj_left ==> padded(data, spec).subrange(0, data.len() as int) =~= data);
    assert(!spec.flags.adj_left ==> padded(data, spec).subrange(
        padded(data, spec).len() - data.len(),
        padded(data, spec).len() as int,
    ) =~= data);
}

/// What a conversion writes is never shorter than the least width that it
/// asks for.
pub proof fn lemma_field_width<E>(v: Value, spec: ParsedConversionSpecification)
    ensures
        value_output::<E>(v, spec) matches Ok(text) ==> text.len() >= spec.min_width,
{
    match v {
        Value::Int(x) => {
            lemma_padded(decimal_text(x as int), spec);
        },
        Value::String(b) => {
            lemma_padded(truncated(b@, spec.prec), spec);
        },
    }
}

/// The field with its adjustment to the left switched to `left`.
pub open spec fn adjusted(spec: ParsedConversionSpecification, left: bool) -> ParsedConversionSpecification {
    ParsedConversionSpecification {
        flags: crate::high::ConvFlags { adj_left: left, ..spec.flags },
        ..spec
    }
}

/// To adjust a field to the left moves its padding from before the data to
/// after them, and changes neither the padding nor the data. In the field of
/// a byte string the padding is spaces.
pub proof fn lemma_left_adjust<E>(b: Seq<u8>, spec: ParsedConversionSpecification)
    ensures
        exists|fill: Seq<u8>|
            padded(b, adjusted(spec, false)) == fill + b && padded(b, adjusted(spec, true)) == b
                + fill && (bytes_output::<E>(b, spec) is Ok ==> fill == Seq::new(
                fill.len(),
                |i: int| SPACE,
            )),
{
    let right = padded(b, adjusted(spec, false));
    let fill = right.subrange(0, right.len() - b.len());
    assert(right =~= fill + b);
    assert(padded(b, adjusted(spec, true)) =~= b + fill);
    if bytes_output::<E>(b, spec) is Ok {
        assert(fill =~= Seq::new(fill.len(), |i: int| SPACE));
    }
}

/// A byte string is cut to its precision, where it has one and is longer,
/// and the zero flag is never applied to it: a conversion that asks for it
/// is invalid.
pub proof fn lemma_string_precision<E>(b: Seq<u8>, spec: ParsedConversionSpecification)
    requires
        spec.conv_kind == ConvKind::String,
    ensures
        match spec.prec {
            Some(p) => truncated(b, spec.prec) == b.subrange(
                0,
                if p < b.len() {
                    p as int
                } else {
                    b.len() as int
                },
            ),
            None => truncated(b, spec.prec) == b,
        },
        spec.flags.pad_zero ==> bytes_output::<E>(b, spec) == Err::<Seq<u8>, FormatToError<E>>(
            FormatToError::Invalid,
        ),
        bytes_output::<E>(b, spec) matches Ok(text) ==> text == padded(truncated(b, spec.prec), spec),
{
    assert(b.subrange(0, b.len() as int) == b);
}

/// The number of conversion specifications among the events `evs`.
pub open spec fn conversions(evs: Seq<Event>) -> nat
    decreases evs.len(),
{
    if evs.len() == 0 {
        0
    } else {
        conversions(evs.drop_last()) + if evs.last() is Spec {
            1nat
        } else {
            0nat
        }
    }
}

/// A conversion that is well formed and implemented, and that finds no
/// argument left, fails for want of arguments: nothing is written, and
/// nothing is read behind the end of the argument list.
pub proof fn lemma_starved<E>(st: Progress<E>, t: SpecText, args: Seq<Value>)
    requires
        st.error is None,
        st.next_arg >= args.len(),
        ParsedConversionSpecification::parsed(t) matches Ok(spec) && !spec.flags.alt_digits
            && !spec.flags.comma_groups,
    ensures
        advance(st, Event::Spec(t), args) == (Progress {
            error: Some(FormatToError::NotEnoughArguments),
            ..st
        }),
{
}

/// A pass that has not failed has taken one argument for each conversion
/// specification, and no more than there are.
pub proof fn lemma_arguments_taken<E>(st: Progress<E>, evs: Seq<Event>, args: Seq<Value>)
    requires
        st.next_arg <= args.len() <= usize::MAX,
        run(st, evs, args).error is None,
    ensures
        st.error is None,
        run(st, evs, args).next_arg == st.next_arg + conversions(evs),
        st.next_arg + conversions(evs) <= args.len(),
    decreases evs.len(),
{
    if evs.len() > 0 {
        lemma_arguments_taken(st, evs.drop_last(), args);
    }
}

/// Whether no event of `evs` fails but for want of an argument: each event
/// that is reached without an error leaves the pass without one, or with
/// `NotEnoughArguments`.
pub open spec fn fails_only_for_arguments<E>(
    st: Progress<E>,
    evs: Seq<Event>,
    args: Seq<Value>,
) -> bool {
    forall|k: int|
        0 <= k < evs.len() && run(st, evs.subrange(0, k), args).error is None ==> {
            let after = advance(run(st, evs.subrange(0, k), args), #[trigger] evs[k], args);
            after.error is None || after.error == Some(FormatToError::<E>::NotEnoughArguments)
        }
}

/// A pass in which nothing fails but for want of an argument ends without
/// an error or with `NotEnoughArguments`.
proof fn lemma_only_starved<E>(st: Progress<E>, evs: Seq<Event>, args: Seq<Value>)
    requires
        st.error is None,
        fails_only_for_arguments(st, evs, args),
    ensures
        run(st, evs, args).error is None || run(st, evs, args).error == Some(
            FormatToError::<E>::NotEnoughArguments,
        ),
    decreases evs.len(),
{
    if evs.len() > 0 {
        let front = evs.drop_last();
        let k = evs.len() - 1;
        assert(front == evs.subrange(0, k));
        assert forall|j: int|
            0 <= j < front.len() && run(st, front.subrange(0, j), args).error is None implies {
            let after = advance(run(st, front.subrange(0, j), args), #[trigger] front[j], args);
            after.error is None || after.error == Some(FormatToError::<E>::NotEnoughArguments)
        } by {
            assert(front.subrange(0, j) == evs.subrange(0, j));
            assert(front[j] == evs[j]);
        }
        lemma_only_starved(st, front, args);
        assert(evs.last() == evs[k]);
    }
}

/// A template that holds more conversion specifications than there are
/// arguments, and in which nothing else goes wrong, yields
/// `NotEnoughArguments`.
pub proof fn lemma_not_enough_arguments<E>(before: Seq<u8>, template: Seq<u8>, args: Seq<Value>)
    requires
        args.len() <= usize::MAX,
        conversions(events(template)) > args.len(),
        fails_only_for_arguments(
            Progress::<E> { out: before, next_arg: 0, error: None },
            events(template),
            args,
        ),
    ensures
        rendering::<E>(before, template, args).error == Some(
            FormatToError::<E>::NotEnoughArguments,
        ),
{
    lemma_too_few_arguments::<E>(before, template, args);
    lemma_only_starved(Progress::<E> { out: before, next_arg: 0, error: None }, events(template), args);
}

/// A template that holds more conversion specifications than there are
/// arguments never succeeds.
pub proof fn lemma_too_few_arguments<E>(before: Seq<u8>, template: Seq<u8>, args: Seq<Value>)
    requires
        args.len() <= usize::MAX,
        conversions(events(template)) > args.len(),
    ensures
        rendering::<E>(before, template, args).error is Some,
{
    let start = Progress::<E> { out: before, next_arg: 0, error: None };
    if run(start, events(template), args).error is None {
        lemma_arguments_taken(start, events(template), args);
    }
}

/// A literal event is a longest run without a percent sign: it is not
/// empty, holds no percent sign, and ends at a percent sign or with the
/// template.
pub proof fn lemma_literal_run(template: Seq<u8>, i: int)
    requires
        0 <= i < template.len(),
        template[i] != PERCENT,
    ensures
        token_at(template, i) == Some(Event::Bytes(template.subrange(i, token_end(template, i)))),
        i < token_end(template, i) <= template.len(),
        forall|j: int| i <= j < token_end(template, i) ==> template[j] != PERCENT,
        token_end(template, i) < template.len() ==> template[token_end(template, i)] == PERCENT,
{
    lemma_run_end(template, i, ByteClass::Literal);
    lemma_token_end(template, i);
}

/// The text of the template that an event was read from.
pub open spec fn source_of(ev: Event) -> Seq<u8> {
    match ev {
        Event::Bytes(b) => b,
        Event::Percent => seq![PERCENT, PERCENT],
        Event::Spec(t) => seq![PERCENT] + t.text(),
    }
}

/// The text of the template that the events `evs` were read from.
pub open spec fn source(evs: Seq<Event>) -> Seq<u8>
    decreases evs.len(),
{
    if evs.len() == 0 {
        Seq::empty()
    } else {
        source_of(evs[0]) + source(evs.drop_first())
    }
}

/// The events of a template lie side by side and cover it: every byte
/// belongs to one event and to one only, but for a percent sign that ends
/// the template.
pub proof fn lemma_events_cover(template: Seq<u8>, i: int)
    requires
        0 <= i <= template.len(),
    ensures
        source(events_from(template, i)) == template.subrange(i, template.len() as int) || source(
            events_from(template, i),
        ) + seq![PERCENT] == template.subrange(i, template.len() as int),
    decreases template.len() - i,
{
    let n = template.len() as int;
    if i < n {
        lemma_token_end(template, i);
        let end = token_end(template, i);
        lemma_events_cover(template, end);
        let rest = events_from(template, end);
        match token_at(template, i) {
            Some(ev) => {
                let evs = seq![ev] + rest;
                assert(evs.drop_first() == rest);
                assert(evs[0] == ev);
                if template[i] != PERCENT {
                } else if template[i + 1] == PERCENT {
                    assert(source_of(ev) == template.subrange(i, end));
                } else {
                    lemma_spec_text(template, i + 1);
                    assert(seq![PERCENT] + template.subrange(i + 1, end) == template.subrange(
                        i,
                        end,
                    ));
                }
                assert(source_of(ev) == template.subrange(i, end));
                assert(template.subrange(i, end) + template.subrange(end, n) == template.subrange(
                    i,
                    n,
                ));
                if source(rest) == template.subrange(end, n) {
                } else {
                    assert(source_of(ev) + (source(rest) + seq![PERCENT]) == source_of(ev)
                        + source(rest) + seq![PERCENT]);
                }
            },
            None => {
                assert(end == n);
                assert(source(rest) == Seq::<u8>::empty());
                assert(Seq::<u8>::empty() + seq![PERCENT] == template.subrange(i, n));
            },
        }
    } else {
        assert(template.subrange(i, n) == Seq::<u8>::empty());
    }
}

} // verus!
