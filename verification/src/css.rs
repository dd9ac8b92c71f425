//! The stylesheet model: rules, selectors, declarations and values, as an
//! upstream CSS parser hands them over, together with selector specificity.

use vstd::prelude::*;

verus! {

/// An RGBA color; one of the value variants carried opaquely through the
/// cascade.
#[derive(Clone, Copy, PartialEq, Eq, Structural, Debug)]
pub struct Color {
    pub r: u8,
    pub g: u8,
    pub b: u8,
    pub a: u8,
}

/// A declaration's value. The cascade inspects only `Keyword`; every other
/// variant is carried through untouched.
#[derive(Debug)]
pub enum Value {
    Keyword(String),
    ColorValue(Color),
}

/// The mathematical form of a `Value`.
#[verifier::ext_equal]
pub ghost enum ValueV {
    Keyword(Seq<char>),
    ColorValue(Color),
}

impl View for Value {
    type V = ValueV;

    open spec fn view(&self) -> ValueV {
        match self {
            Value::Keyword(s) => ValueV::Keyword(s@),
            Value::ColorValue(c) => ValueV::ColorValue(*c),
        }
    }
}

impl Value {
    /// An equal copy of the value.
    pub fn duplicate(&self) -> (r: Value)
        ensures
            r@ == self@,
    {
        match self {
            Value::Keyword(s) => Value::Keyword(s.clone()),
            Value::ColorValue(c) => Value::ColorValue(*c),
        }
    }
}

/// A simple selector: optional tag-name and id constraints and a set of
/// class constraints, all of which must hold of a matched element.
#[derive(Debug)]
pub struct SimpleSelector {
    pub tag_name: Option<String>,
    pub id: Option<String>,
    pub class: Vec<String>,
}

/// The mathematical form of a `SimpleSelector`.
#[verifier::ext_equal]
pub ghost struct SimpleSelectorV {
    pub tag_name: Option<Seq<char>>,
    pub id: Option<Seq<char>>,
    pub class: Seq<Seq<char>>,
}

impl View for SimpleSelector {
    type V = SimpleSelectorV;

    open spec fn view(&self) -> SimpleSelectorV {
        SimpleSelectorV {
            tag_name: match self.tag_name {
                Option::Some(ref s) => Option::Some(s@),
                Option::None => Option::None,
            },
            id: match self.id {
                Option::Some(ref s) => Option::Some(s@),
                Option::None => Option::None,
            },
            class: self.class@.map_values(|s: String| s@),
        }
    }
}

/// A selector; the simple selector is the only supported variant.
#[derive(Debug)]
pub enum Selector {
    Simple(SimpleSelector),
}

/// The mathematical form of a `Selector`.
#[verifier::ext_equal]
pub ghost enum SelectorV {
    Simple(SimpleSelectorV),
}

impl View for Selector {
    type V = SelectorV;

    open spec fn view(&self) -> SelectorV {
        match self {
            Selector::Simple(s) => SelectorV::Simple(s@),
        }
    }
}

/// A selector's specificity: id, class and tag counts, compared
/// lexicographically; higher is more specific.
pub type Specificity = (usize, usize, usize);

/// The specificity of a selector: one point in the first place for an id
/// constraint, the number of class constraints in the second, one point in
/// the third for a tag constraint.
pub open spec fn specificity_of(s: SelectorV) -> Specificity {
    match s {
        SelectorV::Simple(ss) => (
            if ss.id is Some {
                1usize
            } else {
                0usize
            },
            ss.class.len() as usize,
            if ss.tag_name is Some {
                1usize
            } else {
                0usize
            },
        ),
    }
}

/// Strict lexicographic order on specificities.
pub open spec fn spec_lt(a: Specificity, b: Specificity) -> bool {
    a.0 < b.0 || (a.0 == b.0 && (a.1 < b.1 || (a.1 == b.1 && a.2 < b.2)))
}

impl Selector {
    /// The selector's specificity.
    pub fn specificity(&self) -> (r: Specificity)
        ensures
            r == specificity_of(self@),
    {
        match self {
            Selector::Simple(ss) => (
                if ss.id.is_some() {
                    1
                } else {
                    0
                },
                ss.class.len(),
                if ss.tag_name.is_some() {
                    1
                } else {
                    0
                },
            ),
        }
    }
}

/// Compares two specificities in the order of `spec_lt`.
pub fn specificity_lt(a: &Specificity, b: &Specificity) -> (r: bool)
    ensures
        r == spec_lt(*a, *b),
{
    a.0 < b.0 || (a.0 == b.0 && (a.1 < b.1 || (a.1 == b.1 && a.2 < b.2)))
}

/// A property declaration: a name and the value set for it.
#[derive(Debug)]
pub struct Declaration {
    pub name: String,
    pub value: Value,
}

/// The mathematical form of a `Declaration`.
#[verifier::ext_equal]
pub ghost struct DeclarationV {
    pub name: Seq<char>,
    pub value: ValueV,
}

impl View for Declaration {
    type V = DeclarationV;

    open spec fn view(&self) -> DeclarationV {
        DeclarationV { name: self.name@, value: self.value@ }
    }
}

/// A rule: alternative selectors and the declarations they set.
#[derive(Debug)]
pub struct Rule {
    pub selectors: Vec<Selector>,
    pub declarations: Vec<Declaration>,
}

/// The mathematical form of a `Rule`.
#[verifier::ext_equal]
pub ghost struct RuleV {
    pub selectors: Seq<SelectorV>,
    pub declarations: Seq<DeclarationV>,
}

impl View for Rule {
    type V = RuleV;

    open spec fn view(&self) -> RuleV {
        RuleV {
            selectors: self.selectors@.map_values(|s: Selector| s@),
            declarations: self.declarations@.map_values(|d: Declaration| d@),
        }
    }
}

/// A stylesheet: rules in declaration order, which the cascade's tie-break
/// depends on.
#[derive(Debug)]
pub struct StyleSheet {
    pub rules: Vec<Rule>,
}

impl View for StyleSheet {
    type V = Seq<RuleV>;

    open spec fn view(&self) -> Seq<RuleV> {
        self.rules@.map_values(|r: Rule| r@)
    }
}

} // verus!
