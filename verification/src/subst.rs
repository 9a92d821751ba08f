//! The substitution pipeline: each placeholder is offered to a
//! caller-supplied resolver, in scan order; a resolved placeholder is
//! replaced by the resolver's text, an unresolved one is reconstructed
//! verbatim with its original delimiters, and literal runs pass unchanged.

use vstd::prelude::*;
use vstd::string::StringExecFns;

use crate::catalog::Wrapper;
use crate::elements::Element;
use crate::elements::ElemModel;
use crate::elements::Item;
use crate::elements::Policy;
use crate::elements::UnterminatedWrapper;
use crate::elements::elem_chars;
use crate::elements::lemma_reconstruction_concat;
use crate::elements::lemma_reconstruction_one;
use crate::elements::reconstruction;
use crate::elements::views_of;
use crate::scan::lemma_scan_round_trip;
use crate::scan::parse;
use crate::scan::scan;
use crate::scan::scan_elems;
use crate::scan::scan_issue;

verus! {

/// The characters of one replacement choice, where there is one.
pub open spec fn choice_chars(c: Option<String>) -> Option<Seq<char>> {
    match c {
        Some(x) => Some(x@),
        None => None,
    }
}

/// The characters of a sequence of replacement choices, in order.
pub open spec fn choices_of(rs: Seq<Option<String>>) -> Seq<Option<Seq<char>>> {
    rs.map_values(|o: Option<String>| choice_chars(o))
}

/// What one element renders to, given the replacement chosen for it: a
/// resolved placeholder becomes the replacement text, everything else its
/// own characters.
pub open spec fn rendered_one(e: ElemModel, c: Option<Seq<char>>) -> Seq<char> {
    match e {
        ElemModel::Wrapped(w, t) => match c {
            Some(r) => r,
            None => elem_chars(e),
        },
        ElemModel::Text(t) => t,
    }
}

/// What a sequence of elements renders to, element by element, given one
/// replacement choice per element.
pub open spec fn rendered(es: Seq<ElemModel>, cs: Seq<Option<Seq<char>>>) -> Seq<char>
    recommends
        cs.len() == es.len(),
    decreases es.len(),
{
    if es.len() == 0 {
        Seq::empty()
    } else {
        rendered_one(es[0], cs[0]) + rendered(es.drop_first(), cs.drop_first())
    }
}

/// Whether `c` is a replacement that `mapper` could have produced for the
/// element `e`: a literal run is never offered to the resolver, and a
/// placeholder's replacement (or refusal) must be an answer the resolver
/// can give for that wrapper and interior text.
pub open spec fn mapper_choice_at<'e, M: Fn(&Item<'e>) -> Option<String>>(
    mapper: M,
    e: ElemModel,
    c: Option<Seq<char>>,
) -> bool {
    match e {
        ElemModel::Text(t) => c is None,
        ElemModel::Wrapped(w, t) => match c {
            Some(r) => exists|it: Item<'e>, rs: String|
                it.wrapper == w && it.text@ == t && rs@ == r && call_ensures(
                    mapper,
                    (&it,),
                    Some(rs),
                ),
            None => exists|it: Item<'e>|
                it.wrapper == w && it.text@ == t && call_ensures(
                    mapper,
                    (&it,),
                    None::<String>,
                ),
        },
    }
}

/// Whether `cs` is, position by position, a set of replacement choices
/// that `mapper` could have produced for the elements `es`.
pub open spec fn mapper_choices<'e, M: Fn(&Item<'e>) -> Option<String>>(
    mapper: M,
    es: Seq<ElemModel>,
    cs: Seq<Option<Seq<char>>>,
) -> bool {
    &&& cs.len() == es.len()
    &&& forall|k: int| 0 <= k < es.len() ==> mapper_choice_at(mapper, es[k], cs[k])
}

/// Whether `m` can answer the placeholder `(w, t)` with the replacement
/// text `r`.
pub open spec fn can_resolve<'e, M: Fn(&Item<'e>) -> Option<String>>(
    m: M,
    w: Wrapper,
    t: Seq<char>,
    r: Seq<char>,
) -> bool {
    exists|it: Item<'e>, rs: String|
        it.wrapper == w && it.text@ == t && rs@ == r && call_ensures(m, (&it,), Some(rs))
}

/// Whether `m` can decline the placeholder `(w, t)`.
pub open spec fn can_decline<'e, M: Fn(&Item<'e>) -> Option<String>>(
    m: M,
    w: Wrapper,
    t: Seq<char>,
) -> bool {
    exists|it: Item<'e>| it.wrapper == w && it.text@ == t && call_ensures(m, (&it,), None::<String>)
}

/// Whether `r` is a replacement that the resolver chain could have
/// produced for the placeholder `(w, t)`: some resolver can answer with
/// `r` while every resolver before it can decline.
pub open spec fn chain_resolves<'e, M: Fn(&Item<'e>) -> Option<String>>(
    resolvers: Seq<M>,
    w: Wrapper,
    t: Seq<char>,
    r: Seq<char>,
) -> bool {
    exists|k: int|
        0 <= k < resolvers.len() && (forall|j: int| 0 <= j < k ==> can_decline(resolvers[j], w, t))
            && can_resolve(resolvers[k], w, t, r)
}

/// Whether `c` is a replacement that the resolver chain could have
/// produced for the element `e`: a literal run is never offered, a
/// placeholder is resolved by the first willing resolver, and it stays
/// unresolved only where every resolver can decline it.
pub open spec fn chain_choice_at<'e, M: Fn(&Item<'e>) -> Option<String>>(
    resolvers: Seq<M>,
    e: ElemModel,
    c: Option<Seq<char>>,
) -> bool {
    match e {
        ElemModel::Text(t) => c is None,
        ElemModel::Wrapped(w, t) => match c {
            Some(r) => chain_resolves(resolvers, w, t, r),
            None => forall|k: int| 0 <= k < resolvers.len() ==> can_decline(resolvers[k], w, t),
        },
    }
}

/// Whether `cs` is, position by position, a set of replacement choices
/// that the resolver chain could have produced for the elements `es`.
pub open spec fn chain_choices<'e, M: Fn(&Item<'e>) -> Option<String>>(
    resolvers: Seq<M>,
    es: Seq<ElemModel>,
    cs: Seq<Option<Seq<char>>>,
) -> bool {
    &&& cs.len() == es.len()
    &&& forall|k: int| 0 <= k < es.len() ==> chain_choice_at(resolvers, es[k], cs[k])
}

/// Rendering with no replacements at all is reconstruction.
pub proof fn lemma_rendered_unresolved(es: Seq<ElemModel>, cs: Seq<Option<Seq<char>>>)
    requires
        cs.len() == es.len(),
        forall|k: int| 0 <= k < cs.len() ==> cs[k] is None,
    ensures
        rendered(es, cs) == reconstruction(es),
    decreases es.len(),
{
    if es.len() > 0 {
        lemma_rendered_unresolved(es.drop_first(), cs.drop_first());
    }
}

/// No-op substitution: where no placeholder resolves, the substituted
/// output is the reconstruction of the scan, which is the original input
/// itself.
pub proof fn lemma_noop_substitution(s: Seq<char>, cs: Seq<Option<Seq<char>>>)
    requires
        cs.len() == scan_elems(s).len(),
        forall|k: int| 0 <= k < cs.len() ==> cs[k] is None,
    ensures
        rendered(scan_elems(s), cs) == s,
{
    lemma_rendered_unresolved(scan_elems(s), cs);
    lemma_scan_round_trip(s);
}

/// Rendering one more element appends what that element renders to.
proof fn lemma_rendered_snoc(
    es: Seq<ElemModel>,
    cs: Seq<Option<Seq<char>>>,
    e: ElemModel,
    c: Option<Seq<char>>,
)
    requires
        cs.len() == es.len(),
    ensures
        rendered(es.push(e), cs.push(c)) == rendered(es, cs) + rendered_one(e, c),
    decreases es.len(),
{
    if es.len() == 0 {
        assert(es.push(e)[0] == e);
        assert(cs.push(c)[0] == c);
        assert(es.push(e).drop_first() =~= es);
        assert(cs.push(c).drop_first() =~= cs);
        assert(rendered_one(e, c) + Seq::<char>::empty() =~= rendered_one(e, c));
        assert(Seq::<char>::empty() + rendered_one(e, c) =~= rendered_one(e, c));
    } else {
        lemma_rendered_snoc(es.drop_first(), cs.drop_first(), e, c);
        assert(es.push(e).drop_first() =~= es.drop_first().push(e));
        assert(cs.push(c).drop_first() =~= cs.drop_first().push(c));
        assert(rendered_one(es[0], cs[0]) + (rendered(es.drop_first(), cs.drop_first())
            + rendered_one(e, c)) =~= (rendered_one(es[0], cs[0]) + rendered(
            es.drop_first(),
            cs.drop_first(),
        )) + rendered_one(e, c));
    }
}

/// Builds the output string for a scanned element sequence and one
/// replacement choice per element: literal runs verbatim, replaced
/// placeholders as their replacement, unreplaced ones as prefix, interior
/// text and suffix.
pub fn render_elements<'a>(elems: &Vec<Element<'a>>, repl: &Vec<Option<String>>) -> (out: String)
    requires
        repl@.len() == elems@.len(),
    ensures
        out@ == rendered(views_of(elems@), choices_of(repl@)),
{
    let mut out = String::new();
    let mut idx: usize = 0;
    proof {
        assert(views_of(elems@.subrange(0, 0)) =~= Seq::<ElemModel>::empty());
        assert(choices_of(repl@.subrange(0, 0)) =~= Seq::<Option<Seq<char>>>::empty());
    }
    while idx < elems.len()
        invariant
            repl@.len() == elems@.len(),
            idx <= elems@.len(),
            out@ == rendered(
                views_of(elems@.subrange(0, idx as int)),
                choices_of(repl@.subrange(0, idx as int)),
            ),
        decreases elems@.len() - idx,
    {
        let ghost pe = views_of(elems@.subrange(0, idx as int));
        let ghost pc = choices_of(repl@.subrange(0, idx as int));
        let ghost ev = elems@[idx as int]@;
        let ghost cv = choice_chars(repl@[idx as int]);
        match &elems[idx] {
            Element::Text(tr) => {
                out.append(tr);
            },
            Element::Wrapped(item) => {
                match &repl[idx] {
                    Some(r) => {
                        out.append(r.as_str());
                    },
                    None => {
                        out.append(item.wrapper.get_prefix());
                        out.append(item.text);
                        out.append(item.wrapper.get_suffix());
                        proof {
                            assert(out@ =~= rendered(pe, pc) + rendered_one(ev, cv));
                        }
                    },
                }
            },
        }
        proof {
            lemma_rendered_snoc(pe, pc, ev, cv);
            assert(views_of(elems@.subrange(0, idx + 1)) =~= pe.push(ev));
            assert(choices_of(repl@.subrange(0, idx + 1)) =~= pc.push(cv));
        }
        idx += 1;
    }
    proof {
        assert(elems@.subrange(0, elems@.len() as int) =~= elems@);
        assert(repl@.subrange(0, repl@.len() as int) =~= repl@);
    }
    out
}

/// Offers each placeholder, in scan order, to the resolver, and records
/// its answer; literal runs are never offered and get no replacement. The
/// resolver is invoked exactly once per placeholder.
fn apply_mapper<'e, M: Fn(&Item<'e>) -> Option<String>>(
    elems: &Vec<Element<'e>>,
    mapper: M,
) -> (repl: Vec<Option<String>>)
    requires
        forall|it: &Item<'e>| call_requires(mapper, (it,)),
    ensures
        mapper_choices(mapper, views_of(elems@), choices_of(repl@)),
{
    let mut repl: Vec<Option<String>> = Vec::new();
    let mut idx: usize = 0;
    while idx < elems.len()
        invariant
            forall|it: &Item<'e>| call_requires(mapper, (it,)),
            repl@.len() == idx,
            idx <= elems@.len(),
            forall|k: int|
                0 <= k < idx ==> mapper_choice_at(
                    mapper,
                    elems@[k]@,
                    choice_chars(repl@[k]),
                ),
        decreases elems@.len() - idx,
    {
        match &elems[idx] {
            Element::Text(_) => {
                repl.push(None);
            },
            Element::Wrapped(item) => {
                let r = mapper(item);
                let ghost rv = r;
                proof {
                    match rv {
                        Some(rs) => {
                            assert(mapper_choice_at(mapper, elems@[idx as int]@, choice_chars(rv)))
                                by {
                                assert(call_ensures(mapper, (&*item,), Some(rs)));
                            }
                        },
                        None => {
                            assert(mapper_choice_at(mapper, elems@[idx as int]@, choice_chars(rv)))
                                by {
                                assert(call_ensures(mapper, (&*item,), None::<String>));
                            }
                        },
                    }
                }
                repl.push(r);
            },
        }
        idx += 1;
    }
    assert(views_of(elems@).len() == choices_of(repl@).len());
    repl
}

/// Offers one placeholder to each resolver in registration order and
/// returns the first answer, or `None` where every resolver declines.
fn resolve_through_chain<'e, M: Fn(&Item<'e>) -> Option<String>>(
    resolvers: &Vec<M>,
    item: &Item<'e>,
) -> (r: Option<String>)
    requires
        forall|it: &Item<'e>, k: int|
            0 <= k < resolvers@.len() ==> call_requires(resolvers@[k], (it,)),
    ensures
        match r {
            Some(rs) => chain_resolves(resolvers@, item.wrapper, item.text@, rs@),
            None => forall|k: int|
                0 <= k < resolvers@.len() ==> can_decline(
                    resolvers@[k],
                    item.wrapper,
                    item.text@,
                ),
        },
{
    let mut k: usize = 0;
    while k < resolvers.len()
        invariant
            forall|it: &Item<'e>, j: int|
                0 <= j < resolvers@.len() ==> call_requires(resolvers@[j], (it,)),
            k <= resolvers@.len(),
            forall|j: int|
                0 <= j < k ==> can_decline(resolvers@[j], item.wrapper, item.text@),
        decreases resolvers@.len() - k,
    {
        let r = (resolvers[k])(item);
        match r {
            Some(rs) => {
                proof {
                    assert(call_ensures(resolvers@[k as int], (&*item,), Some(rs)));
                    assert(can_resolve(resolvers@[k as int], item.wrapper, item.text@, rs@));
                }
                return Some(rs);
            },
            None => {
                proof {
                    assert(call_ensures(resolvers@[k as int], (&*item,), None::<String>));
                }
            },
        }
        k += 1;
    }
    None
}

/// Offers each placeholder, in scan order, to the resolver chain, and
/// records the outcome; literal runs are never offered.
fn apply_chain<'e, M: Fn(&Item<'e>) -> Option<String>>(
    elems: &Vec<Element<'e>>,
    resolvers: &Vec<M>,
) -> (repl: Vec<Option<String>>)
    requires
        forall|it: &Item<'e>, k: int|
            0 <= k < resolvers@.len() ==> call_requires(resolvers@[k], (it,)),
    ensures
        chain_choices(resolvers@, views_of(elems@), choices_of(repl@)),
{
    let mut repl: Vec<Option<String>> = Vec::new();
    let mut idx: usize = 0;
    while idx < elems.len()
        invariant
            forall|it: &Item<'e>, k: int|
                0 <= k < resolvers@.len() ==> call_requires(resolvers@[k], (it,)),
            repl@.len() == idx,
            idx <= elems@.len(),
            forall|k: int|
                0 <= k < idx ==> chain_choice_at(
                    resolvers@,
                    elems@[k]@,
                    choice_chars(repl@[k]),
                ),
        decreases elems@.len() - idx,
    {
        match &elems[idx] {
            Element::Text(_) => {
                repl.push(None);
            },
            Element::Wrapped(item) => {
                let r = resolve_through_chain(resolvers, item);
                let ghost rv = r;
                proof {
                    assert(chain_choice_at(resolvers@, elems@[idx as int]@, choice_chars(rv)));
                }
                repl.push(r);
            },
        }
        idx += 1;
    }
    assert(views_of(elems@).len() == choices_of(repl@).len());
    repl
}

/// Substitutes into `s` under the lenient policy through an ordered
/// resolver chain: each placeholder goes to the first resolver in
/// registration order that returns a replacement, and is reconstructed
/// verbatim where every resolver declines. Always succeeds.
pub fn substitute_chain<'e, M: Fn(&Item<'e>) -> Option<String>>(
    s: &'e str,
    resolvers: &Vec<M>,
) -> (out: String)
    requires
        forall|it: &Item<'e>, k: int|
            0 <= k < resolvers@.len() ==> call_requires(resolvers@[k], (it,)),
    ensures
        exists|cs: Seq<Option<Seq<char>>>|
            chain_choices(resolvers@, scan_elems(s@), cs) && out@ == rendered(scan_elems(s@), cs),
{
    let elems = match scan(s, Policy::Lenient) {
        Ok(v) => v,
        Err(_) => {
            proof {
                assert(false);
            }
            Vec::new()
        },
    };
    let repl = apply_chain(&elems, resolvers);
    let out = render_elements(&elems, &repl);
    proof {
        assert(chain_choices(resolvers@, scan_elems(s@), choices_of(repl@)) && out@ == rendered(
            scan_elems(s@),
            choices_of(repl@),
        ));
    }
    out
}

/// Idempotence of no-op substitution: with an empty resolver chain no
/// placeholder can resolve, and the substituted output is the original
/// input itself.
pub proof fn lemma_empty_chain_substitution<'e, M: Fn(&Item<'e>) -> Option<String>>(
    s: Seq<char>,
    resolvers: Seq<M>,
    cs: Seq<Option<Seq<char>>>,
)
    requires
        resolvers.len() == 0,
        chain_choices(resolvers, scan_elems(s), cs),
    ensures
        rendered(scan_elems(s), cs) == s,
{
    assert forall|k: int| 0 <= k < cs.len() implies cs[k] is None by {
        assert(chain_choice_at(resolvers, scan_elems(s)[k], cs[k]));
    }
    lemma_noop_substitution(s, cs);
}

/// Substitutes into `s` under the strict policy: scans it, resolves each
/// placeholder through `mapper`, and joins the rendered segments. Fails
/// exactly where the strict scan fails, with the same error.
pub fn parse_with<'e, M: Fn(&Item<'e>) -> Option<String>>(s: &'e str, mapper: M) -> (r: Result<
    String,
    UnterminatedWrapper,
>)
    requires
        forall|it: &Item<'e>| call_requires(mapper, (it,)),
    ensures
        r is Ok <==> scan_issue(s@) is None,
        r matches Ok(out) ==> exists|cs: Seq<Option<Seq<char>>>|
            mapper_choices(mapper, scan_elems(s@), cs) && out@ == rendered(scan_elems(s@), cs),
        r matches Err(e) ==> (scan_issue(s@) matches Some(wo) && e.wrapper == wo.0 && e.offset
            as int == wo.1),
{
    match parse(s) {
        Ok(elems) => {
            let repl = apply_mapper(&elems, mapper);
            let out = render_elements(&elems, &repl);
            proof {
                assert(mapper_choices(mapper, scan_elems(s@), choices_of(repl@)) && out@
                    == rendered(scan_elems(s@), choices_of(repl@)));
            }
            Ok(out)
        },
        Err(e) => Err(e),
    }
}

/// Substitutes into `s` under the lenient policy: always succeeds, an
/// unterminated wrapper at the end of the input passing through as
/// literal text.
pub fn substitute<'e, M: Fn(&Item<'e>) -> Option<String>>(s: &'e str, mapper: M) -> (out: String)
    requires
        forall|it: &Item<'e>| call_requires(mapper, (it,)),
    ensures
        exists|cs: Seq<Option<Seq<char>>>|
            mapper_choices(mapper, scan_elems(s@), cs) && out@ == rendered(scan_elems(s@), cs),
{
    let elems = match scan(s, Policy::Lenient) {
        Ok(v) => v,
        Err(_) => {
            proof {
                assert(false);
            }
            Vec::new()
        },
    };
    let repl = apply_mapper(&elems, mapper);
    let out = render_elements(&elems, &repl);
    proof {
        assert(mapper_choices(mapper, scan_elems(s@), choices_of(repl@)) && out@ == rendered(
            scan_elems(s@),
            choices_of(repl@),
        ));
    }
    out
}

/// Joins a scanned element sequence back into a string: literal runs
/// verbatim, placeholders as prefix, interior text and suffix. With the
/// elements of a lenient scan this reproduces the scanned input exactly.
pub fn reconstruct<'a>(elems: &Vec<Element<'a>>) -> (out: String)
    ensures
        out@ == reconstruction(views_of(elems@)),
{
    let mut out = String::new();
    let mut idx: usize = 0;
    proof {
        assert(views_of(elems@.subrange(0, 0)) =~= Seq::<ElemModel>::empty());
    }
    while idx < elems.len()
        invariant
            idx <= elems@.len(),
            out@ == reconstruction(views_of(elems@.subrange(0, idx as int))),
        decreases elems@.len() - idx,
    {
        let ghost pe = views_of(elems@.subrange(0, idx as int));
        let ghost ev = elems@[idx as int]@;
        match &elems[idx] {
            Element::Text(tr) => {
                out.append(tr);
            },
            Element::Wrapped(item) => {
                out.append(item.wrapper.get_prefix());
                out.append(item.text);
                out.append(item.wrapper.get_suffix());
                proof {
                    assert(out@ =~= reconstruction(pe) + elem_chars(ev));
                }
            },
        }
        proof {
            lemma_reconstruction_concat(pe, seq![ev]);
            lemma_reconstruction_one(ev);
            assert(pe + seq![ev] =~= views_of(elems@.subrange(0, idx + 1)));
        }
        idx += 1;
    }
    proof {
        assert(elems@.subrange(0, elems@.len() as int) =~= elems@);
    }
    out
}

} // verus!
