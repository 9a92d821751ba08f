//! The delimiter catalog: the closed set of wrapper styles, each with its
//! prefix and suffix, in the priority order used to resolve ambiguity.

use vstd::prelude::*;

verus! {

/// A recognized wrapper style. The declaration order is the priority order
/// for matching: the multi-character prefixes that begin with `{` must be
/// tried before the bare `{` of `Curly`, since `{` is a prefix of each.
#[derive(PartialEq, Debug)]
pub enum Wrapper {
    /// `{{` ... `}}`
    DoubleCurly,
    /// `{%` ... `%}`
    CurlyPercent,
    /// `{#` ... `#}`
    CurlyHash,
    /// `${` ... `}`
    DollarCurly,
    /// `{` ... `}`
    Curly,
}

/// The characters of a wrapper's opening delimiter.
pub open spec fn prefix_of(w: Wrapper) -> Seq<char> {
    match w {
        Wrapper::DoubleCurly => seq!['{', '{'],
        Wrapper::CurlyPercent => seq!['{', '%'],
        Wrapper::CurlyHash => seq!['{', '#'],
        Wrapper::DollarCurly => seq!['$', '{'],
        Wrapper::Curly => seq!['{'],
    }
}

/// The characters of a wrapper's closing delimiter.
pub open spec fn suffix_of(w: Wrapper) -> Seq<char> {
    match w {
        Wrapper::DoubleCurly => seq!['}', '}'],
        Wrapper::CurlyPercent => seq!['%', '}'],
        Wrapper::CurlyHash => seq!['#', '}'],
        Wrapper::DollarCurly => seq!['}'],
        Wrapper::Curly => seq!['}'],
    }
}

impl Wrapper {
    /// The opening delimiter of this wrapper style.
    pub fn get_prefix(&self) -> (r: &'static str)
        ensures
            r@ == prefix_of(*self),
    {
        match self {
            Wrapper::DoubleCurly => {
                let r = "{{";
                proof {
                    reveal_strlit("{{");
                    assert(r@ =~= prefix_of(Wrapper::DoubleCurly));
                }
                r
            },
            Wrapper::CurlyPercent => {
                let r = "{%";
                proof {
                    reveal_strlit("{%");
                    assert(r@ =~= prefix_of(Wrapper::CurlyPercent));
                }
                r
            },
            Wrapper::CurlyHash => {
                let r = "{#";
                proof {
                    reveal_strlit("{#");
                    assert(r@ =~= prefix_of(Wrapper::CurlyHash));
                }
                r
            },
            Wrapper::DollarCurly => {
                let r = "${";
                proof {
                    reveal_strlit("${");
                    assert(r@ =~= prefix_of(Wrapper::DollarCurly));
                }
                r
            },
            Wrapper::Curly => {
                let r = "{";
                proof {
                    reveal_strlit("{");
                    assert(r@ =~= prefix_of(Wrapper::Curly));
                }
                r
            },
        }
    }

    /// The closing delimiter of this wrapper style.
    pub fn get_suffix(&self) -> (r: &'static str)
        ensures
            r@ == suffix_of(*self),
    {
        match self {
            Wrapper::DoubleCurly => {
                let r = "}}";
                proof {
                    reveal_strlit("}}");
                    assert(r@ =~= suffix_of(Wrapper::DoubleCurly));
                }
                r
            },
            Wrapper::CurlyPercent => {
                let r = "%}";
                proof {
                    reveal_strlit("%}");
                    assert(r@ =~= suffix_of(Wrapper::CurlyPercent));
                }
                r
            },
            Wrapper::CurlyHash => {
                let r = "#}";
                proof {
                    reveal_strlit("#}");
                    assert(r@ =~= suffix_of(Wrapper::CurlyHash));
                }
                r
            },
            Wrapper::DollarCurly => {
                let r = "}";
                proof {
                    reveal_strlit("}");
                    assert(r@ =~= suffix_of(Wrapper::DollarCurly));
                }
                r
            },
            Wrapper::Curly => {
                let r = "}";
                proof {
                    reveal_strlit("}");
                    assert(r@ =~= suffix_of(Wrapper::Curly));
                }
                r
            },
        }
    }
}

} // verus!
