//! Literal and placeholder segments produced by a scan, the mathematical
//! model they are read through, and the scanning policy and error types.

use vstd::prelude::*;

use crate::catalog::Wrapper;
use crate::catalog::prefix_of;
use crate::catalog::suffix_of;

verus! {

/// A recognized placeholder: the wrapper style that delimited it and the
/// exact text strictly between the matched prefix and suffix, untrimmed.
#[derive(PartialEq, Debug)]
pub struct Item<'a> {
    pub wrapper: Wrapper,
    pub text: &'a str,
}

impl<'a> Item<'a> {
    /// Builds a placeholder from a wrapper style and its interior text.
    pub fn new(wrapper: Wrapper, text: &'a str) -> (r: Item<'a>)
        ensures
            r.wrapper == wrapper,
            r.text == text,
    {
        Item { wrapper, text }
    }
}

/// One segment of a scanned input: either a literal text run or a
/// placeholder. A scan yields a sequence of these that partitions the input.
#[derive(PartialEq, Debug)]
pub enum Element<'a> {
    Text(&'a str),
    Wrapped(Item<'a>),
}

/// The model of an `Element`: the same alternatives, over character
/// sequences instead of string slices.
pub enum ElemModel {
    Text(Seq<char>),
    Wrapped(Wrapper, Seq<char>),
}

impl<'a> View for Element<'a> {
    type V = ElemModel;

    open spec fn view(&self) -> ElemModel {
        match self {
            Element::Text(t) => ElemModel::Text(t@),
            Element::Wrapped(item) => ElemModel::Wrapped(item.wrapper, item.text@),
        }
    }
}

/// The models of a sequence of elements, in order.
pub open spec fn views_of<'a>(es: Seq<Element<'a>>) -> Seq<ElemModel> {
    es.map_values(|e: Element<'a>| e@)
}

/// The characters that one element stands for in the input: a literal run
/// verbatim, a placeholder as prefix, interior text, suffix.
pub open spec fn elem_chars(e: ElemModel) -> Seq<char> {
    match e {
        ElemModel::Text(t) => t,
        ElemModel::Wrapped(w, t) => prefix_of(w) + t + suffix_of(w),
    }
}

/// The concatenation of the characters that a sequence of elements stands
/// for: the reconstruction of the scanned input.
pub open spec fn reconstruction(es: Seq<ElemModel>) -> Seq<char>
    decreases es.len(),
{
    if es.len() == 0 {
        Seq::empty()
    } else {
        elem_chars(es[0]) + reconstruction(es.drop_first())
    }
}

/// Appending an element appends its model.
pub proof fn lemma_views_of_push<'a>(es: Seq<Element<'a>>, e: Element<'a>)
    ensures
        views_of(es.push(e)) == views_of(es) + seq![e@],
{
    assert(views_of(es.push(e)) =~= views_of(es) + seq![e@]);
}

/// Reconstruction distributes over concatenation of element sequences.
pub proof fn lemma_reconstruction_concat(a: Seq<ElemModel>, b: Seq<ElemModel>)
    ensures
        reconstruction(a + b) == reconstruction(a) + reconstruction(b),
    decreases a.len(),
{
    if a.len() == 0 {
        assert(a + b =~= b);
        assert(reconstruction(a) + reconstruction(b) =~= reconstruction(b));
    } else {
        lemma_reconstruction_concat(a.drop_first(), b);
        assert((a + b).drop_first() =~= a.drop_first() + b);
        assert(elem_chars(a[0]) + (reconstruction(a.drop_first()) + reconstruction(b))
            =~= (elem_chars(a[0]) + reconstruction(a.drop_first())) + reconstruction(b));
    }
}

/// A single element reconstructs to exactly its own characters.
pub proof fn lemma_reconstruction_one(e: ElemModel)
    ensures
        reconstruction(seq![e]) == elem_chars(e),
{
    let one = seq![e];
    assert(one.drop_first() =~= Seq::<ElemModel>::empty());
    assert(reconstruction(Seq::<ElemModel>::empty()) == Seq::<char>::empty());
    assert(reconstruction(one) == elem_chars(e) + Seq::<char>::empty());
    assert(elem_chars(e) + Seq::<char>::empty() =~= elem_chars(e));
}

/// How the scanner treats a wrapper whose prefix was matched but whose
/// suffix never arrives: reclassify the region as literal text (`Lenient`,
/// the default) or fail (`Strict`).
#[derive(PartialEq, Debug, Clone, Copy)]
pub enum Policy {
    Lenient,
    Strict,
}

/// The one scanning error, raised only under the strict policy: a wrapper
/// whose prefix was matched at `offset` (an index into the input's
/// character sequence) but whose suffix is absent from the rest of the input.
#[derive(PartialEq, Debug)]
pub struct UnterminatedWrapper {
    pub wrapper: Wrapper,
    pub offset: usize,
}

} // verus!
