//! Runtime formatting of printf-style templates over raw bytes.
//!
//! A template is split into literal runs, escaped percent signs and
//! conversion specifications; each specification takes the next value of the
//! argument list and renders it into a sink. A malformed template is an
//! error value, never a panic.

use vstd::prelude::*;
use crate::format::{puts_at, rendering, text_at, FormatToError, Formatter, Progress};

pub mod ascii;
pub mod format;
pub mod high;
pub mod parser;
pub mod pass;
pub mod visit;

verus! {

/// A value that a conversion renders.
#[derive(Debug, Clone, Copy)]
pub enum Value<'a> {
    Int(i128),
    String(&'a [u8]),
}

/// An ordered receiver of bytes.
///
/// `written` is the receiver's own account of what it has taken so far,
/// `room` of how much more it can take, `never_fails` its own word that it
/// takes everything, and `refused` its own account of a `put` that fails. A
/// sink that says nothing of these promises nothing.
pub trait BinSink {
    type Err;

    /// The bytes that the sink has taken, in the order in which they came,
    /// where the sink keeps account of them.
    open spec fn written(&self) -> Option<Seq<u8>> {
        None
    }

    /// Whether the sink takes whatever it is given, now and from now on.
    open spec fn never_fails(&self) -> bool {
        false
    }

    /// How many more bytes the sink can take, where it is bounded.
    open spec fn room(&self) -> Option<nat> {
        None
    }

    /// Whether the sink, given `data`, may fail with the error `e` and be
    /// `next` afterwards.
    open spec fn refused(&self, data: Seq<u8>, e: Self::Err, next: &Self) -> bool {
        true
    }

    /// Takes the next chunk of data.
    fn put(&mut self, data: &[u8]) -> (r: Result<(), Self::Err>)
        ensures
            r is Ok ==> (old(self).written() matches Some(w) ==> (*final(self)).written() == Some(
                w + data@,
            )),
            r is Ok ==> (old(self).room() matches Some(n) ==> data@.len() <= n
                && (*final(self)).room() == Some((n - data@.len()) as nat)),
            r matches Err(e) ==> old(self).refused(data@, e, &*final(self)),
            old(self).never_fails() ==> r is Ok && (*final(self)).never_fails(),
    ;
}

/// Whether `after` is how a put that failed with `e` has left a sink that
/// was `before` when the work began, where `text` is what the sink was to
/// hold at the end of the work. The put was made on `mid` and nothing was
/// handed on after it. Where the sink keeps account, `mid` still held what
/// `before` held, what it held was the beginning of `text`, and `data` was
/// what comes next in `text`.
pub open spec fn refusal<H: BinSink>(
    before: H,
    after: H,
    mid: H,
    data: Seq<u8>,
    e: H::Err,
    text: Seq<u8>,
) -> bool {
    &&& mid.refused(data, e, &after)
    &&& before.written() matches Some(w) ==> mid.written() matches Some(m) && w.is_prefix_of(m)
        && (m + data).is_prefix_of(text)
}

/// What a sink has taken by its own account: nothing where it keeps none.
pub open spec fn taken<H: BinSink>(sink: H) -> Seq<u8> {
    match sink.written() {
        Some(w) => w,
        None => Seq::empty(),
    }
}

/// A mutable reference to a sink is a sink: it hands everything on.
impl<'a, H: BinSink> BinSink for &'a mut H {
    type Err = <H as BinSink>::Err;

    open spec fn written(&self) -> Option<Seq<u8>> {
        (**self).written()
    }

    open spec fn never_fails(&self) -> bool {
        (**self).never_fails()
    }

    open spec fn room(&self) -> Option<nat> {
        (**self).room()
    }

    open spec fn refused(&self, data: Seq<u8>, e: Self::Err, next: &Self) -> bool {
        (**self).refused(data, e, &**next)
    }

    fn put(&mut self, data: &[u8]) -> (r: Result<(), Self::Err>) {
        (**self).put(data)
    }
}

/// A sink that appends to a `Vec`. It never fails.
pub struct VecSink(pub Vec<u8>);

impl BinSink for VecSink {
    type Err = core::convert::Infallible;

    open spec fn written(&self) -> Option<Seq<u8>> {
        Some(self.0@)
    }

    open spec fn never_fails(&self) -> bool {
        true
    }

    open spec fn refused(&self, data: Seq<u8>, e: Self::Err, next: &Self) -> bool {
        false
    }

    fn put(&mut self, data: &[u8]) -> (r: Result<(), Self::Err>) {
        self.0.extend_from_slice(data);
        assert(self.0@ =~= old(self).0@ + data@);
        Ok(())
    }
}

/// Formats `template` with the given `args`, writing to the given `sink`.
///
/// Unless the sink fails, the outcome is that of `rendering`. A sink that
/// keeps account of what it takes holds what it held before and then the
/// text rendered: all of it on success, and what came before the error
/// otherwise. The sink's error is returned only where the sink was given
/// bytes: at an event that writes, after events that went through. It is
/// the error of the put that failed, and the sink is as that put left it;
/// a sink that keeps account held, when it failed, the beginning of the
/// text up to that event, and was given what comes next in it.
pub fn format_to<H: BinSink>(template: &[u8], args: &[Value], sink: &mut H) -> (r: Result<
    (),
    FormatToError<H::Err>,
>)
    ensures
        match r {
            Ok(()) => rendering::<H::Err>(taken(*old(sink)), template@, args@).error is None,
            Err(FormatToError::Sink(e)) => {
                &&& !old(sink).never_fails()
                &&& exists|k: int, mid: H, data: Seq<u8>|
                    puts_at(
                        Progress::<H::Err> { out: taken(*old(sink)), next_arg: 0, error: None },
                        crate::parser::events(template@),
                        args@,
                        k,
                    ) && #[trigger] refusal(
                        *old(sink),
                        *final(sink),
                        mid,
                        data,
                        e,
                        text_at(
                            Progress::<H::Err> { out: taken(*old(sink)), next_arg: 0, error: None },
                            crate::parser::events(template@),
                            args@,
                            k,
                        ),
                    )
            },
            Err(e) => rendering::<H::Err>(taken(*old(sink)), template@, args@).error == Some(e),
        },
        !(r matches Err(FormatToError::Sink(_))) && old(sink).written() is Some ==> (*final(sink)).written()
            == Some(rendering::<H::Err>(taken(*old(sink)), template@, args@).out),
        !(r matches Err(FormatToError::Sink(_))) ==> (old(sink).room() matches Some(n) ==> rendering::<
            H::Err,
        >(taken(*old(sink)), template@, args@).out.len() - taken(*old(sink)).len() <= n
            && (*final(sink)).room() == Some(
            (n - (rendering::<H::Err>(taken(*old(sink)), template@, args@).out.len() - taken(
                *old(sink),
            ).len())) as nat,
        )),
        old(sink).never_fails() ==> (*final(sink)).never_fails(),
{
    let mut fmt = Formatter { sink, args, error: None, next_arg: 0 };
    let ghost first = fmt;
    fmt.pass(template);
    proof {
        crate::format::lemma_outcome(first, crate::parser::events(template@), fmt);
    }
    match fmt.error {
        Some(err) => Err(err),
        None => Ok(()),
    }
}

/// The error that `format` returns: what went wrong, and the text that was
/// rendered before it did.
#[derive(Debug)]
pub struct FormatFnError(FormatToError<core::convert::Infallible>, Vec<u8>);

impl FormatFnError {
    /// What went wrong.
    pub closed spec fn failure(&self) -> FormatToError<core::convert::Infallible> {
        self.0
    }

    /// The buffer as it was when the error occurred.
    pub closed spec fn buffer(&self) -> Vec<u8> {
        self.1
    }

    /// Returns a reference to the underlying error.
    pub fn error(&self) -> (e: &FormatToError<core::convert::Infallible>)
        ensures
            *e == self.failure(),
    {
        &self.0
    }

    /// Returns the underlying error.
    pub fn into_error(self) -> (e: FormatToError<core::convert::Infallible>)
        ensures
            e == self.failure(),
    {
        self.0
    }

    /// Returns a reference to the buffer that was built when the error occurred.
    pub fn buf(&self) -> (b: &[u8])
        ensures
            b@ == self.buffer()@,
    {
        self.1.as_slice()
    }

    /// Returns a mutable reference to the buffer that was built when the
    /// error occurred. With `std::mem::take` on it a caller gets both the
    /// buffer and, by `into_error`, the error.
    pub fn buf_mut(&mut self) -> (b: &mut Vec<u8>)
        ensures
            *b == old(self).buffer(),
            final(self).buffer() == *final(b),
            final(self).failure() == old(self).failure(),
    {
        &mut self.1
    }

    /// Returns the buffer that was built when the error occurred.
    pub fn into_buf(self) -> (b: Vec<u8>)
        ensures
            b == self.buffer(),
    {
        self.1
    }
}

/// Formats `template` with the given `args` into a new buffer.
///
/// The outcome is that of `rendering` from an empty buffer: the whole text
/// on success, and otherwise the error together with the text that came
/// before it.
pub fn format(template: &[u8], args: &[Value]) -> (r: Result<Vec<u8>, FormatFnError>)
    ensures
        match r {
            Ok(buf) => {
                &&& rendering::<core::convert::Infallible>(Seq::empty(), template@, args@).error
                    is None
                &&& buf@ == rendering::<core::convert::Infallible>(
                    Seq::empty(),
                    template@,
                    args@,
                ).out
            },
            Err(e) => {
                &&& rendering::<core::convert::Infallible>(Seq::empty(), template@, args@).error
                    == Some(e.failure())
                &&& e.buffer()@ == rendering::<core::convert::Infallible>(
                    Seq::empty(),
                    template@,
                    args@,
                ).out
            },
        },
{
    let mut buf = VecSink(Vec::new());
    match format_to(template, args, &mut buf) {
        Ok(()) => Ok(buf.0),
        Err(e) => Err(FormatFnError(e, buf.0)),
    }
}


/// The error of a `SliceSink`: the slice has no room for the data.
#[derive(Debug)]
pub struct SliceTooSmall;

/// A sink that fills a slice from its beginning. It fails only when the
/// data are longer than what is left of the slice.
pub struct SliceSink<'a>(pub &'a mut [u8]);

impl<'a> BinSink for SliceSink<'a> {
    type Err = SliceTooSmall;

    /// What is left of the slice.
    open spec fn room(&self) -> Option<nat> {
        Some(self.0@.len())
    }

    /// The slice has no room for the data, and is left as it was.
    open spec fn refused(&self, data: Seq<u8>, e: Self::Err, next: &Self) -> bool {
        data.len() > self.0@.len() && next.0@ == self.0@
    }

    fn put(&mut self, data: &[u8]) -> (r: Result<(), Self::Err>)
        ensures
            r is Ok <==> data.len() <= old(self).0.len(),
            r is Ok ==> final(self).0@ == old(self).0@.subrange(
                data.len() as int,
                old(self).0.len() as int,
            ),
            r is Ok ==> (*final(old(self).0))@ == data@ + (*final(final(self).0))@,
            r is Err ==> *final(self) == *old(self),
    {
        if self.0.len() < data.len() {
            return Err(SliceTooSmall);
        }
        let mut whole: &mut [u8] = &mut [];
        core::mem::swap(&mut self.0, &mut whole);
        let (a, b) = whole.split_at_mut(data.len());
        let n: usize = data.len();
        let mut i: usize = 0;
        while i < n
            invariant
                n == data.len(),
                a@.len() == n,
                i <= n,
                a@.subrange(0, i as int) == data@.subrange(0, i as int),
            decreases n - i,
        {
            a[i] = data[i];
            i += 1;
        }
        assert(a@.subrange(0, n as int) == a@);
        assert(data@.subrange(0, n as int) == data@);
        self.0 = b;
        Ok(())
    }
}

} // verus!
