//! The directive tree and its mathematical model.

use vstd::prelude::*;

verus! {

/// One argument of a directive.
#[derive(Debug, Clone)]
pub enum DirectiveValue {
    /// Quoted or bare text; the quotes are not kept.
    String(String),
    /// A reference token beginning with `$`.
    Variable(String),
    /// A pattern token beginning with `~`.
    Regex(String),
}

/// The model of a `DirectiveValue`.
pub enum ValueView {
    Str(Seq<char>),
    Var(Seq<char>),
    Re(Seq<char>),
}

/// One statement (`Simple`, ended by `;`) or block (`Block`, with a body
/// between braces) of a configuration.
#[derive(Debug)]
pub enum Directive {
    Simple { name: String, values: Vec<DirectiveValue> },
    Block { name: String, values: Vec<DirectiveValue>, children: Vec<Directive> },
}

/// The model of a `Directive`.
pub enum DirectiveView {
    Simple { name: Seq<char>, values: Seq<ValueView> },
    Block { name: Seq<char>, values: Seq<ValueView>, children: Seq<DirectiveView> },
}

/// A parsed configuration: its top-level directives, and the file it came
/// from when it was read from one.
#[derive(Debug)]
pub struct NginxConfig {
    pub directives: Vec<Directive>,
    pub source_path: Option<String>,
}

impl ValueView {
    /// The text of a value, whatever its kind.
    pub open spec fn text(self) -> Seq<char> {
        match self {
            ValueView::Str(s) => s,
            ValueView::Var(s) => s,
            ValueView::Re(s) => s,
        }
    }
}

impl DirectiveView {
    pub open spec fn name(self) -> Seq<char> {
        match self {
            DirectiveView::Simple { name, .. } => name,
            DirectiveView::Block { name, .. } => name,
        }
    }

    pub open spec fn values(self) -> Seq<ValueView> {
        match self {
            DirectiveView::Simple { values, .. } => values,
            DirectiveView::Block { values, .. } => values,
        }
    }

    /// The body of a block; a simple directive has none.
    pub open spec fn children(self) -> Option<Seq<DirectiveView>> {
        match self {
            DirectiveView::Simple { .. } => None,
            DirectiveView::Block { children, .. } => Some(children),
        }
    }
}

impl View for DirectiveValue {
    type V = ValueView;

    open spec fn view(&self) -> ValueView {
        match self {
            DirectiveValue::String(s) => ValueView::Str(s@),
            DirectiveValue::Variable(s) => ValueView::Var(s@),
            DirectiveValue::Regex(s) => ValueView::Re(s@),
        }
    }
}

pub open spec fn values_view(vs: Seq<DirectiveValue>) -> Seq<ValueView> {
    vs.map_values(|v: DirectiveValue| v@)
}

pub open spec fn directive_view(d: Directive) -> DirectiveView
    decreases d,
{
    match d {
        Directive::Simple { name, values } => DirectiveView::Simple {
            name: name@,
            values: values_view(values@),
        },
        Directive::Block { name, values, children } => DirectiveView::Block {
            name: name@,
            values: values_view(values@),
            children: directives_view(children@),
        },
    }
}

pub open spec fn directives_view(ds: Seq<Directive>) -> Seq<DirectiveView>
    decreases ds,
{
    if ds.len() == 0 {
        seq![]
    } else {
        directives_view(ds.subrange(0, ds.len() - 1)).push(directive_view(ds[ds.len() - 1]))
    }
}

impl View for Directive {
    type V = DirectiveView;

    open spec fn view(&self) -> DirectiveView {
        directive_view(*self)
    }
}

/// The model of a list of directives lines up with the list, item by item.
pub proof fn lemma_directives_view(ds: Seq<Directive>)
    ensures
        directives_view(ds).len() == ds.len(),
        forall|k: int| 0 <= k < ds.len() ==> #[trigger] directives_view(ds)[k] == ds[k]@,
    decreases ds.len(),
{
    if ds.len() > 0 {
        lemma_directives_view(ds.subrange(0, ds.len() - 1));
    }
}

/// Appending a directive appends its model.
pub proof fn lemma_directives_view_push(ds: Seq<Directive>, d: Directive)
    ensures
        directives_view(ds.push(d)) == directives_view(ds).push(d@),
{
    assert(ds.push(d).subrange(0, ds.len() as int) =~= ds);
}

impl DirectiveValue {
    /// The text of the value, whatever its kind.
    pub fn as_str(&self) -> (r: &str)
        ensures
            r@ == self@.text(),
    {
        match self {
            DirectiveValue::String(s) => s.as_str(),
            DirectiveValue::Variable(s) => s.as_str(),
            DirectiveValue::Regex(s) => s.as_str(),
        }
    }
}

impl Directive {
    pub fn name(&self) -> (r: &str)
        ensures
            r@ == self@.name(),
    {
        match self {
            Directive::Simple { name, .. } => name.as_str(),
            Directive::Block { name, .. } => name.as_str(),
        }
    }

    pub fn values(&self) -> (r: &[DirectiveValue])
        ensures
            values_view(r@) == self@.values(),
    {
        match self {
            Directive::Simple { values, .. } => values.as_slice(),
            Directive::Block { values, .. } => values.as_slice(),
        }
    }

    /// The body of a block, and `None` for a simple directive.
    pub fn children(&self) -> (r: Option<&[Directive]>)
        ensures
            r is None <==> self is Simple,
            r is None <==> self@.children() is None,
            r matches Some(c) ==> Some(directives_view(c@)) == self@.children(),
    {
        match self {
            Directive::Simple { .. } => None,
            Directive::Block { children, .. } => Some(children.as_slice()),
        }
    }
}

} // verus!
