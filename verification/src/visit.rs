//! The visitor protocol: what a template is split into, and who may receive it.

use vstd::prelude::*;

verus! {

/// All parts of one conversion specification, as they stand in the template.
///
/// The five slices are taken from the template in this order. They do not
/// overlap, each one begins where the one before it ends, and each may be empty.
pub struct ConversionSpecification<'a> {
    pub flags: &'a [u8],
    pub field_width: &'a [u8],
    pub precision: &'a [u8],
    pub length: &'a [u8],
    pub specifier: &'a [u8],
}

/// The bytes of the five fields of a conversion specification.
pub ghost struct SpecText {
    pub flags: Seq<u8>,
    pub field_width: Seq<u8>,
    pub precision: Seq<u8>,
    pub length: Seq<u8>,
    pub specifier: Seq<u8>,
}

impl SpecText {
    /// The five fields put together again: the text of the specification.
    pub open spec fn text(self) -> Seq<u8> {
        self.flags + self.field_width + self.precision + self.length + self.specifier
    }
}

impl<'a> View for ConversionSpecification<'a> {
    type V = SpecText;

    open spec fn view(&self) -> SpecText {
        SpecText {
            flags: self.flags@,
            field_width: self.field_width@,
            precision: self.precision@,
            length: self.length@,
            specifier: self.specifier@,
        }
    }
}

/// One thing that a template holds: a literal run, an escaped percent sign
/// or a conversion specification.
pub ghost enum Event {
    Bytes(Seq<u8>),
    Percent,
    Spec(SpecText),
}

/// A receiver of the events of a template.
///
/// `handled` is the receiver's own account of what an event does to it; each
/// of the three event operations promises that account and nothing more.
pub trait FormatStringVisitor: Sized {
    /// Whether `next` is a state in which this receiver may be after it got
    /// `ev`. A receiver that says nothing here promises nothing.
    open spec fn handled(self, ev: Event, next: Self) -> bool {
        true
    }

    /// A chunk of the template that is to be taken as it is.
    fn visit_bytes(&mut self, b: &[u8])
        ensures
            Self::handled(*old(self), Event::Bytes(b@), *final(self)),
    ;

    /// An escaped percent sign (`%%`).
    fn visit_escaped_percent(&mut self)
        ensures
            Self::handled(*old(self), Event::Percent, *final(self)),
    ;

    /// A conversion specification.
    fn visit_specification(&mut self, spec: ConversionSpecification)
        ensures
            Self::handled(*old(self), Event::Spec(spec@), *final(self)),
    ;

    /// The end of the template. The tokenizer itself never calls it.
    fn visit_eof(&mut self) {
    }
}

/// A mutable reference to a receiver is a receiver: it hands everything on.
impl<T: FormatStringVisitor> FormatStringVisitor for &mut T {
    open spec fn handled(self, ev: Event, next: Self) -> bool {
        T::handled(*self, ev, *next)
    }

    fn visit_bytes(&mut self, b: &[u8]) {
        (**self).visit_bytes(b);
    }

    fn visit_escaped_percent(&mut self) {
        (**self).visit_escaped_percent();
    }

    fn visit_specification(&mut self, spec: ConversionSpecification) {
        (**self).visit_specification(spec);
    }

    fn visit_eof(&mut self) {
        (**self).visit_eof();
    }
}

/// Whether a receiver that starts as `first` may be `last` after it got the
/// events `evs` one after the other.
pub open spec fn delivered<V: FormatStringVisitor>(first: V, evs: Seq<Event>, last: V) -> bool
    decreases evs.len(),
{
    if evs.len() == 0 {
        first == last
    } else {
        exists|mid: V|
            delivered(first, evs.drop_last(), mid) && #[trigger] V::handled(mid, evs.last(), last)
    }
}

/// Delivering one more event extends a delivery.
pub proof fn lemma_delivered_push<V: FormatStringVisitor>(
    first: V,
    evs: Seq<Event>,
    mid: V,
    ev: Event,
    last: V,
)
    requires
        delivered(first, evs, mid),
        V::handled(mid, ev, last),
    ensures
        delivered(first, evs.push(ev), last),
{
    assert(evs.push(ev).drop_last() == evs);
    assert(evs.push(ev).last() == ev);
}

/// Walks over the template `s` once and hands each of its events to `vis`,
/// in the order in which they stand.
pub fn visit<V: FormatStringVisitor>(s: &[u8], vis: &mut V)
    ensures
        delivered(*old(vis), crate::parser::events(s@), *final(vis)),
{
    crate::parser::do_visit(s, vis);
}

} // verus!
