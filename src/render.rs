//! Rendering a directive tree as canonical text: four spaces of indent per
//! level of nesting, one directive per line, a line break between a block's
//! body and its closing brace, and a value quoted only when it is plain text
//! holding a space.

use vstd::prelude::*;
use crate::ast::{directives_view, lemma_directives_view, Directive, DirectiveValue, DirectiveView, NginxConfig, ValueView};
use crate::lexer::chars_of;

verus! {

/// The written form of a value.
pub open spec fn render_value(v: ValueView) -> Seq<char> {
    match v {
        ValueView::Str(s) => if s.contains(' ') {
            seq!['"'] + s + seq!['"']
        } else {
            s
        },
        ValueView::Var(s) => s,
        ValueView::Re(s) => s,
    }
}

/// Each value preceded by a space.
pub open spec fn render_values(vs: Seq<ValueView>) -> Seq<char>
    decreases vs.len(),
{
    if vs.len() == 0 {
        seq![]
    } else {
        render_values(vs.drop_last()) + seq![' '] + render_value(vs.last())
    }
}

pub open spec fn one_indent() -> Seq<char> {
    seq![' ', ' ', ' ', ' ']
}

/// The text of a directive whose lines start with `pad`.
pub open spec fn render_directive(d: DirectiveView, pad: Seq<char>) -> Seq<char>
    decreases d,
{
    match d {
        DirectiveView::Simple { name, values } => pad + name + render_values(values) + seq![
            ';',
            '\n',
        ],
        DirectiveView::Block { name, values, children } => pad + name + render_values(values)
            + seq![' ', '{', '\n'] + render_list(children, pad + one_indent()) + seq!['\n'] + pad
            + seq!['}', '\n'],
    }
}

/// The texts of the directives, one after the other.
pub open spec fn render_list(ds: Seq<DirectiveView>, pad: Seq<char>) -> Seq<char>
    decreases ds,
{
    if ds.len() == 0 {
        seq![]
    } else {
        render_list(ds.subrange(0, ds.len() - 1), pad) + render_directive(ds[ds.len() - 1], pad)
    }
}

/// The text of a whole configuration.
pub open spec fn render_config(ds: Seq<DirectiveView>) -> Seq<char> {
    render_list(ds, seq![])
}

fn contains_space(s: &str) -> (r: bool)
    ensures
        r == s@.contains(' '),
{
    let cs = chars_of(s);
    let mut k: usize = 0;
    while k < cs.len()
        invariant
            k <= cs.len(),
            cs@ == s@,
            forall|j: int| 0 <= j < k ==> cs@[j] != ' ',
        decreases cs.len() - k,
    {
        if cs[k] == ' ' {
            return true;
        }
        k = k + 1;
    }
    false
}

fn push_value(out: &mut String, v: &DirectiveValue)
    ensures
        final(out)@ == old(out)@ + seq![' '] + render_value(v@),
{
    proof {
        reveal_strlit(" ");
        reveal_strlit("\"");
    }
    out.append(" ");
    match v {
        DirectiveValue::String(s) => {
            if contains_space(s.as_str()) {
                out.append("\"");
                out.append(s.as_str());
                out.append("\"");
            } else {
                out.append(s.as_str());
            }
        },
        DirectiveValue::Variable(s) => out.append(s.as_str()),
        DirectiveValue::Regex(s) => out.append(s.as_str()),
    }
}

fn push_values(out: &mut String, vs: &Vec<DirectiveValue>)
    ensures
        final(out)@ == old(out)@ + render_values(crate::ast::values_view(vs@)),
{
    let ghost start = out@;
    let ghost vv = crate::ast::values_view(vs@);
    let mut k: usize = 0;
    while k < vs.len()
        invariant
            k <= vs.len(),
            vv == crate::ast::values_view(vs@),
            out@ == start + render_values(vv.subrange(0, k as int)),
        decreases vs.len() - k,
    {
        push_value(out, &vs[k]);
        proof {
            let next = vv.subrange(0, k + 1);
            assert(next.drop_last() =~= vv.subrange(0, k as int));
        }
        k = k + 1;
    }
    proof {
        assert(vv.subrange(0, vs.len() as int) =~= vv);
    }
}

/// The text of `directive`, each of its lines starting with `pad`.
pub fn directive_to_string(directive: &Directive, pad: &str) -> (r: String)
    ensures
        r@ == render_directive(directive@, pad@),
    decreases directive,
{
    proof {
        reveal_strlit(";\n");
        reveal_strlit(" {\n");
        reveal_strlit("}\n");
        reveal_strlit("    ");
        reveal_strlit("\n");
    }
    let mut result = String::from_str(pad);
    match directive {
        Directive::Simple { name, values } => {
            result.append(name.as_str());
            push_values(&mut result, values);
            result.append(";\n");
            result
        },
        Directive::Block { name, values, children } => {
            result.append(name.as_str());
            push_values(&mut result, values);
            result.append(" {\n");
            let inner = String::from_str(pad).concat("    ");
            let ghost head = result@;
            let ghost cv = directives_view(children@);
            proof {
                lemma_directives_view(children@);
                assert forall|j: int| 0 <= j < children.len() implies decreases_to!(*directive => #[trigger] children@[j]) by {
                    assert(decreases_to!(*directive => *children));
                    assert(decreases_to!(*children => children@));
                    assert(decreases_to!(children@ => children@[j]));
                }
            }
            let mut k: usize = 0;
            while k < children.len()
                invariant
                    k <= children.len(),
                    cv == directives_view(children@),
                    cv.len() == children.len(),
                    forall|j: int| 0 <= j < children.len() ==> #[trigger] cv[j] == children@[j]@,
                    inner@ == pad@ + one_indent(),
                    forall|j: int| 0 <= j < children.len() ==> decreases_to!(*directive => #[trigger] children@[j]),
                    result@ == head + render_list(cv.subrange(0, k as int), inner@),
                decreases children.len() - k,
            {
                let child = directive_to_string(&children[k], inner.as_str());
                result.append(child.as_str());
                proof {
                    let next = cv.subrange(0, k + 1);
                    assert(next.subrange(0, k as int) =~= cv.subrange(0, k as int));
                }
                k = k + 1;
            }
            proof {
                assert(cv.subrange(0, children.len() as int) =~= cv);
            }
            result.append("\n");
            result.append(pad);
            result.append("}\n");
            result
        },
    }
}

impl NginxConfig {
    /// The canonical text of the configuration.
    pub fn to_string(&self) -> (r: String)
        ensures
            r@ == render_config(directives_view(self.directives@)),
    {
        let ghost dv = directives_view(self.directives@);
        proof {
            lemma_directives_view(self.directives@);
        }
        let mut output = String::new();
        let mut k: usize = 0;
        while k < self.directives.len()
            invariant
                k <= self.directives.len(),
                dv == directives_view(self.directives@),
                dv.len() == self.directives.len(),
                forall|j: int| 0 <= j < self.directives.len() ==> #[trigger] dv[j] == self.directives@[j]@,
                output@ == render_list(dv.subrange(0, k as int), seq![]),
            decreases self.directives.len() - k,
        {
            proof {
                reveal_strlit("");
            }
            let text = directive_to_string(&self.directives[k], "");
            output.append(text.as_str());
            proof {
                let next = dv.subrange(0, k + 1);
                assert(next.subrange(0, k as int) =~= dv.subrange(0, k as int));
                assert(""@ =~= Seq::<char>::empty());
            }
            k = k + 1;
        }
        proof {
            assert(dv.subrange(0, self.directives.len() as int) =~= dv);
        }
        output
    }
}

} // verus!
