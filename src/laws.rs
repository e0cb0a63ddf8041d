//! What holds of the parser, the renderer and the search together.

use vstd::prelude::*;
use crate::ast::{DirectiveView, ValueView};
use crate::grammar::{
    fits_at, fits_slot, is_parse_of, layout, layout_list, lemma_fit_list_unique, lemma_fits_split,
    lemma_layout_block, lemma_layout_starts_with_name, value_of, value_slots, Slot,
};
use crate::lexer::{
    cons, is_blank, is_word_char, lemma_lex_blank, lemma_lex_blanks, lemma_lex_punct,
    lemma_lex_quoted, lemma_lex_word, lemma_prefixed_push, lemma_word_end_bounds,
    lemma_find_from_bounds, find_from, word_end, is_quote, lex, lex_from, prefixed, Lexeme,
};
use crate::query::{find_at, find_in};
use crate::render::{one_indent, render_config, render_directive, render_list, render_value, render_values};

verus! {

/// A string value holding a space is written between double quotes, one
/// without a space is written bare, and variables and regexes are always
/// written bare, whatever they hold.
pub proof fn lemma_quoting(v: ValueView)
    ensures
        v is Str && v.text().contains(' ') ==> render_value(v) == seq!['"'] + v.text() + seq![
            '"',
        ],
        v is Str && !v.text().contains(' ') ==> render_value(v) == v.text(),
        !(v is Str) ==> render_value(v) == v.text(),
{
}

/// Once a block matches, the search does not look inside it: a block of the
/// same name nested in it is not reported.
pub proof fn lemma_matched_block_not_searched(
    name: Seq<char>,
    values: Seq<ValueView>,
    children: Seq<DirectiveView>,
)
    ensures
        find_in(seq![DirectiveView::Block { name, values, children }], name) == seq![
            DirectiveView::Block { name, values, children },
        ],
{
    let b = DirectiveView::Block { name, values, children };
    let s = seq![b];
    assert(s.subrange(0, 0) =~= Seq::<DirectiveView>::empty());
    assert(find_at(b, name) == seq![b]);
    assert(find_in(Seq::<DirectiveView>::empty(), name) + seq![b] =~= seq![b]);
}

proof fn lemma_find_in_concat(x: Seq<DirectiveView>, y: Seq<DirectiveView>, name: Seq<char>)
    ensures
        find_in(x + y, name) == find_in(x, name) + find_in(y, name),
    decreases y.len(),
{
    if y.len() == 0 {
        assert(x + y =~= x);
        assert(find_in(x, name) + find_in(y, name) =~= find_in(x, name));
    } else {
        let y0 = y.subrange(0, y.len() - 1);
        lemma_find_in_concat(x, y0, name);
        assert((x + y).subrange(0, (x + y).len() - 1) =~= x + y0);
        assert((x + y)[(x + y).len() - 1] == y[y.len() - 1]);
        assert(find_in(x, name) + find_in(y0, name) + find_at(y[y.len() - 1], name) =~= find_in(
            x,
            name,
        ) + (find_in(y0, name) + find_at(y[y.len() - 1], name)));
    }
}

/// Wherever a block named `name` stands in a list, the search reports it
/// and nothing from inside it: what it finds is what it finds before the
/// block, the block, and what it finds after.
pub proof fn lemma_matched_block_not_searched_in(ds: Seq<DirectiveView>, k: int, name: Seq<char>)
    requires
        0 <= k < ds.len(),
        ds[k] is Block,
        ds[k].name() == name,
    ensures
        find_in(ds, name) == find_in(ds.subrange(0, k), name) + seq![ds[k]] + find_in(
            ds.subrange(k + 1, ds.len() as int),
            name,
        ),
{
    let front = ds.subrange(0, k);
    let back = ds.subrange(k + 1, ds.len() as int);
    assert(ds =~= front + seq![ds[k]] + back);
    lemma_find_in_concat(front + seq![ds[k]], back, name);
    lemma_find_in_concat(front, seq![ds[k]], name);
    assert(seq![ds[k]].subrange(0, 0) =~= Seq::<DirectiveView>::empty());
    assert(find_at(ds[k], name) == seq![ds[k]]);
    assert(find_in(Seq::<DirectiveView>::empty(), name) + seq![ds[k]] =~= seq![ds[k]]);
}

/// A nonempty run of word characters.
pub open spec fn is_word(w: Seq<char>) -> bool {
    w.len() > 0 && forall|k: int| 0 <= k < w.len() ==> is_word_char(#[trigger] w[k])
}

/// The written form of the value reads back as one value: a quoted string
/// holds no double quote, and a bare one is a word.
pub open spec fn renders_whole(v: ValueView) -> bool {
    match v {
        ValueView::Str(s) => if s.contains(' ') {
            !s.contains('"')
        } else {
            is_word(s)
        },
        ValueView::Var(s) => is_word(s),
        ValueView::Re(s) => is_word(s),
    }
}

/// Every value in the tree renders whole.
pub open spec fn tree_renders_whole(d: DirectiveView) -> bool
    decreases d,
{
    &&& forall|k: int| 0 <= k < d.values().len() ==> renders_whole(#[trigger] d.values()[k])
    &&& match d {
        DirectiveView::Simple { .. } => true,
        DirectiveView::Block { children, .. } => list_renders_whole(children),
    }
}

pub open spec fn list_renders_whole(ds: Seq<DirectiveView>) -> bool
    decreases ds,
{
    ds.len() > 0 ==> list_renders_whole(ds.subrange(0, ds.len() - 1)) && tree_renders_whole(
        ds[ds.len() - 1],
    )
}

/// Every name in the tree is a word.
pub open spec fn names_are_words(d: DirectiveView) -> bool
    decreases d,
{
    &&& is_word(d.name())
    &&& match d {
        DirectiveView::Simple { .. } => true,
        DirectiveView::Block { children, .. } => list_names_are_words(children),
    }
}

pub open spec fn list_names_are_words(ds: Seq<DirectiveView>) -> bool
    decreases ds,
{
    ds.len() > 0 ==> list_names_are_words(ds.subrange(0, ds.len() - 1)) && names_are_words(
        ds[ds.len() - 1],
    )
}

pub open spec fn texts(vs: Seq<ValueView>) -> Seq<Seq<char>> {
    vs.map_values(|v: ValueView| v.text())
}

/// Two trees with the same names, value texts and nesting.
pub open spec fn same_shape(a: DirectiveView, b: DirectiveView) -> bool
    decreases a,
{
    &&& a.name() == b.name()
    &&& texts(a.values()) == texts(b.values())
    &&& match a {
        DirectiveView::Simple { .. } => b is Simple,
        DirectiveView::Block { children, .. } => match b {
            DirectiveView::Block { children: other, .. } => same_shape_list(children, other),
            DirectiveView::Simple { .. } => false,
        },
    }
}

pub open spec fn same_shape_list(a: Seq<DirectiveView>, b: Seq<DirectiveView>) -> bool
    decreases a,
{
    &&& a.len() == b.len()
    &&& a.len() > 0 ==> same_shape_list(a.subrange(0, a.len() - 1), b.subrange(0, b.len() - 1))
        && same_shape(a[a.len() - 1], b[b.len() - 1])
}

/// The lexeme that the written form of a value reads as.
pub open spec fn written_value(v: ValueView) -> Lexeme {
    match v {
        ValueView::Str(s) => if s.contains(' ') {
            Lexeme::Quoted(s)
        } else {
            Lexeme::Word(s)
        },
        ValueView::Var(s) => Lexeme::Word(s),
        ValueView::Re(s) => Lexeme::Word(s),
    }
}

pub open spec fn written_values(vs: Seq<ValueView>) -> Seq<Lexeme> {
    vs.map_values(|v: ValueView| written_value(v))
}

/// The lexemes that the rendered text of a directive reads as.
pub open spec fn written(d: DirectiveView) -> Seq<Lexeme>
    decreases d,
{
    match d {
        DirectiveView::Simple { name, values } => seq![Lexeme::Word(name)] + written_values(values)
            + seq![Lexeme::Semi],
        DirectiveView::Block { name, values, children } => seq![Lexeme::Word(name)]
            + written_values(values) + seq![Lexeme::Open] + written_list(children) + seq![
            Lexeme::Close,
        ],
    }
}

pub open spec fn written_list(ds: Seq<DirectiveView>) -> Seq<Lexeme>
    decreases ds,
{
    if ds.len() == 0 {
        seq![]
    } else {
        written_list(ds.subrange(0, ds.len() - 1)) + written(ds[ds.len() - 1])
    }
}

/// The value that the written form of `v` reads back as.
pub open spec fn reread_value(v: ValueView) -> ValueView {
    value_of(written_value(v))->0
}

pub open spec fn reread_values(vs: Seq<ValueView>) -> Seq<ValueView> {
    vs.map_values(|v: ValueView| reread_value(v))
}

/// The tree that the rendered text of `d` reads back as.
pub open spec fn reread(d: DirectiveView) -> DirectiveView
    decreases d,
{
    match d {
        DirectiveView::Simple { name, values } => DirectiveView::Simple {
            name,
            values: reread_values(values),
        },
        DirectiveView::Block { name, values, children } => DirectiveView::Block {
            name,
            values: reread_values(values),
            children: reread_list(children),
        },
    }
}

pub open spec fn reread_list(ds: Seq<DirectiveView>) -> Seq<DirectiveView>
    decreases ds,
{
    if ds.len() == 0 {
        seq![]
    } else {
        reread_list(ds.subrange(0, ds.len() - 1)).push(reread(ds[ds.len() - 1]))
    }
}

proof fn lemma_prefixed_assoc(p: Seq<Lexeme>, q: Seq<Lexeme>, x: Option<Seq<Lexeme>>)
    ensures
        prefixed(p, prefixed(q, x)) == prefixed(p + q, x),
{
    if let Some(r) = x {
        assert(p + (q + r) =~= p + q + r);
    }
}

proof fn lemma_prefixed_empty(x: Option<Seq<Lexeme>>)
    ensures
        prefixed(Seq::<Lexeme>::empty(), x) == x,
{
    if let Some(r) = x {
        assert(Seq::<Lexeme>::empty() + r =~= r);
    }
}

proof fn lemma_render_values_start(vs: Seq<ValueView>)
    requires
        vs.len() > 0,
    ensures
        render_values(vs).len() > 0,
        render_values(vs)[0] == ' ',
    decreases vs.len(),
{
    let init = vs.drop_last();
    let r = render_values(init) + seq![' '] + render_value(vs.last());
    assert(render_values(vs) == r);
    if init.len() > 0 {
        lemma_render_values_start(init);
        assert(r[0] == render_values(init)[0]);
    } else {
        assert(r[0] == ' ');
    }
}

/// The rendered values, followed by text that cannot continue a word, read
/// as the written values.
proof fn lemma_lex_values(vs: Seq<ValueView>, rest: Seq<char>)
    requires
        forall|k: int| 0 <= k < vs.len() ==> renders_whole(#[trigger] vs[k]),
        rest.len() > 0,
        !is_word_char(rest[0]),
    ensures
        lex(render_values(vs) + rest) == prefixed(written_values(vs), lex(rest)),
    decreases vs.len(),
{
    if vs.len() == 0 {
        assert(render_values(vs) + rest =~= rest);
        assert(written_values(vs) =~= Seq::<Lexeme>::empty());
        lemma_prefixed_empty(lex(rest));
    } else {
        let init = vs.drop_last();
        let last = vs.last();
        assert(renders_whole(vs[vs.len() - 1]));
        let tail = render_value(last) + rest;
        let rest2 = seq![' '] + tail;
        assert forall|k: int| 0 <= k < init.len() implies renders_whole(#[trigger] init[k]) by {
            assert(init[k] == vs[k]);
        }
        lemma_lex_values(init, rest2);
        assert(render_values(vs) + rest =~= render_values(init) + rest2);
        lemma_lex_blank(' ', tail);
        match last {
            ValueView::Str(s) => {
                if s.contains(' ') {
                    assert(tail =~= seq!['"'] + s + seq!['"'] + rest);
                    lemma_lex_quoted(s, rest);
                } else {
                    lemma_lex_word(s, rest);
                }
            },
            ValueView::Var(s) => {
                lemma_lex_word(s, rest);
            },
            ValueView::Re(s) => {
                lemma_lex_word(s, rest);
            },
        }
        assert(lex(tail) == cons(written_value(last), lex(rest)));
        lemma_prefixed_push(written_values(init), written_value(last), lex(rest));
        assert(written_values(init).push(written_value(last)) =~= written_values(vs));
    }
}

proof fn lemma_blank_pad(pad: Seq<char>)
    requires
        forall|k: int| 0 <= k < pad.len() ==> is_blank(#[trigger] pad[k]),
    ensures
        forall|k: int| 0 <= k < (pad + one_indent()).len() ==> is_blank(#[trigger] (pad + one_indent())[k]),
{
    assert forall|k: int| 0 <= k < (pad + one_indent()).len() implies is_blank(#[trigger] (pad + one_indent())[k]) by {
        if k >= pad.len() {
            assert((pad + one_indent())[k] == one_indent()[k - pad.len()]);
        }
    }
}

/// The indent, name and values of a directive, followed by text that cannot
/// continue a word, read as the name and the written values.
proof fn lemma_lex_head(d: DirectiveView, pad: Seq<char>, after: Seq<char>)
    requires
        forall|k: int| 0 <= k < pad.len() ==> is_blank(#[trigger] pad[k]),
        forall|k: int| 0 <= k < d.values().len() ==> renders_whole(#[trigger] d.values()[k]),
        is_word(d.name()),
        after.len() > 0,
        !is_word_char(after[0]),
    ensures
        lex(pad + d.name() + render_values(d.values()) + after) == prefixed(
            seq![Lexeme::Word(d.name())] + written_values(d.values()),
            lex(after),
        ),
{
    let name = d.name();
    let vs = d.values();
    let rv = render_values(vs);
    assert(pad + name + rv + after =~= pad + (name + (rv + after)));
    lemma_lex_blanks(pad, name + (rv + after));
    if vs.len() > 0 {
        lemma_render_values_start(vs);
        assert((rv + after)[0] == rv[0]);
    } else {
        assert((rv + after)[0] == after[0]);
    }
    lemma_lex_word(name, rv + after);
    lemma_lex_values(vs, after);
    lemma_prefixed_assoc(seq![Lexeme::Word(name)], written_values(vs), lex(after));
}

/// The rendered text of a directive reads as its written lexemes.
proof fn lemma_lex_directive(d: DirectiveView, pad: Seq<char>, rest: Seq<char>)
    requires
        forall|k: int| 0 <= k < pad.len() ==> is_blank(#[trigger] pad[k]),
        tree_renders_whole(d),
        names_are_words(d),
    ensures
        lex(render_directive(d, pad) + rest) == prefixed(written(d), lex(rest)),
    decreases d, 1int,
{
    let name = d.name();
    let vs = d.values();
    let rv = render_values(vs);
    let wv = written_values(vs);
    let hd = seq![Lexeme::Word(name)] + wv;
    match d {
        DirectiveView::Simple { .. } => {
            let after = seq![';', '\n'] + rest;
            assert(render_directive(d, pad) + rest =~= pad + name + rv + after);
            lemma_lex_head(d, pad, after);
            assert(after =~= seq![';'] + (seq!['\n'] + rest));
            lemma_lex_punct(';', seq!['\n'] + rest);
            lemma_lex_blank('\n', rest);
            lemma_prefixed_push(hd, Lexeme::Semi, lex(rest));
            assert(hd.push(Lexeme::Semi) =~= written(d));
        },
        DirectiveView::Block { children, .. } => {
            let inner = pad + one_indent();
            let close = seq!['\n'] + (pad + (seq!['}', '\n'] + rest));
            let body = render_list(children, inner) + close;
            let after = seq![' '] + (seq!['{'] + (seq!['\n'] + body));
            assert(render_directive(d, pad) + rest =~= pad + name + rv + after);
            lemma_lex_head(d, pad, after);
            lemma_lex_open(body);
            lemma_lex_body(d, pad, rest);
            let wc = written_list(children);
            lemma_prefixed_assoc(seq![Lexeme::Open], wc + seq![Lexeme::Close], lex(rest));
            lemma_prefixed_assoc(hd, seq![Lexeme::Open] + (wc + seq![Lexeme::Close]), lex(rest));
            assert(hd + (seq![Lexeme::Open] + (wc + seq![Lexeme::Close])) =~= written(d));
        },
    }
}

proof fn lemma_lex_open(body: Seq<char>)
    ensures
        lex(seq![' '] + (seq!['{'] + (seq!['\n'] + body))) == cons(Lexeme::Open, lex(body)),
{
    lemma_lex_blank(' ', seq!['{'] + (seq!['\n'] + body));
    lemma_lex_punct('{', seq!['\n'] + body);
    lemma_lex_blank('\n', body);
}

/// The body of a block and its closing line read as the children's lexemes
/// and `}`.
proof fn lemma_lex_body(d: DirectiveView, pad: Seq<char>, rest: Seq<char>)
    requires
        d is Block,
        forall|k: int| 0 <= k < pad.len() ==> is_blank(#[trigger] pad[k]),
        list_renders_whole(d->children),
        list_names_are_words(d->children),
    ensures
        lex(render_list(d->children, pad + one_indent()) + (seq!['\n'] + (pad + (seq!['}', '\n']
            + rest))))
            == prefixed(written_list(d->children) + seq![Lexeme::Close], lex(rest)),
    decreases d, 0int,
{
    let children = d->children;
    let close = seq!['\n'] + (pad + (seq!['}', '\n'] + rest));
    lemma_blank_pad(pad);
    lemma_lex_list(children, pad + one_indent(), close);
    lemma_lex_blank('\n', pad + (seq!['}', '\n'] + rest));
    lemma_lex_blanks(pad, seq!['}', '\n'] + rest);
    assert(seq!['}', '\n'] + rest =~= seq!['}'] + (seq!['\n'] + rest));
    lemma_lex_punct('}', seq!['\n'] + rest);
    lemma_lex_blank('\n', rest);
    lemma_prefixed_assoc(written_list(children), seq![Lexeme::Close], lex(rest));
}

/// The rendered text of a list of directives reads as their written lexemes.
proof fn lemma_lex_list(ds: Seq<DirectiveView>, pad: Seq<char>, rest: Seq<char>)
    requires
        forall|k: int| 0 <= k < pad.len() ==> is_blank(#[trigger] pad[k]),
        list_renders_whole(ds),
        list_names_are_words(ds),
    ensures
        lex(render_list(ds, pad) + rest) == prefixed(written_list(ds), lex(rest)),
    decreases ds, 2int,
{
    if ds.len() == 0 {
        assert(render_list(ds, pad) + rest =~= rest);
        lemma_prefixed_empty(lex(rest));
    } else {
        let init = ds.subrange(0, ds.len() - 1);
        let last = ds[ds.len() - 1];
        lemma_lex_directive(last, pad, rest);
        lemma_lex_list(init, pad, render_directive(last, pad) + rest);
        assert(render_list(ds, pad) + rest =~= render_list(init, pad) + (render_directive(last, pad)
            + rest));
        lemma_prefixed_assoc(written_list(init), written(last), lex(rest));
    }
}

proof fn lemma_reread_list(ds: Seq<DirectiveView>)
    ensures
        reread_list(ds).len() == ds.len(),
        forall|k: int| 0 <= k < ds.len() ==> #[trigger] reread_list(ds)[k] == reread(ds[k]),
    decreases ds.len(),
{
    if ds.len() > 0 {
        lemma_reread_list(ds.subrange(0, ds.len() - 1));
    }
}

/// Lexemes `t` fill all of `l`.
pub open spec fn fills(t: Seq<Lexeme>, l: Seq<Slot>) -> bool {
    fits_at(t, 0, l) && t.len() == l.len()
}

proof fn lemma_fills_concat(t1: Seq<Lexeme>, l1: Seq<Slot>, t2: Seq<Lexeme>, l2: Seq<Slot>)
    requires
        fills(t1, l1),
        fills(t2, l2),
    ensures
        fills(t1 + t2, l1 + l2),
{
    let t = t1 + t2;
    assert forall|k: int| 0 <= k < l1.len() implies fits_slot(t[0 + k], #[trigger] l1[k]) by {
        assert(t[k] == t1[k]);
        assert(fits_slot(t1[0 + k], l1[k]));
    }
    assert forall|k: int| 0 <= k < l2.len() implies fits_slot(t[l1.len() + k], #[trigger] l2[k]) by {
        assert(t[l1.len() + k] == t2[k]);
        assert(fits_slot(t2[0 + k], l2[k]));
    }
    lemma_fits_split(t, 0, l1, l2);
}

proof fn lemma_values_fill(vs: Seq<ValueView>)
    ensures
        fills(written_values(vs), value_slots(reread_values(vs))),
{
    let t = written_values(vs);
    let l = value_slots(reread_values(vs));
    assert forall|k: int| 0 <= k < l.len() implies fits_slot(t[0 + k], #[trigger] l[k]) by {
        assert(t[k] == written_value(vs[k]));
        assert(l[k] == Slot::Value(reread_value(vs[k])));
    }
}

/// The written lexemes of a directive fill the layout of the tree they read
/// back as.
proof fn lemma_written_fills(d: DirectiveView)
    ensures
        fills(written(d), layout(reread(d))),
    decreases d,
{
    let name = d.name();
    let vs = d.values();
    lemma_values_fill(vs);
    assert(fills(seq![Lexeme::Word(name)], seq![Slot::Name(name)]));
    lemma_fills_concat(
        seq![Lexeme::Word(name)],
        seq![Slot::Name(name)],
        written_values(vs),
        value_slots(reread_values(vs)),
    );
    let th = seq![Lexeme::Word(name)] + written_values(vs);
    let lh = seq![Slot::Name(name)] + value_slots(reread_values(vs));
    match d {
        DirectiveView::Simple { .. } => {
            assert(fills(seq![Lexeme::Semi], seq![Slot::Semi]));
            lemma_fills_concat(th, lh, seq![Lexeme::Semi], seq![Slot::Semi]);
        },
        DirectiveView::Block { children, .. } => {
            assert(fills(seq![Lexeme::Open], seq![Slot::Open]));
            assert(fills(seq![Lexeme::Close], seq![Slot::Close]));
            lemma_written_list_fills(children);
            lemma_fills_concat(th, lh, seq![Lexeme::Open], seq![Slot::Open]);
            lemma_fills_concat(
                th + seq![Lexeme::Open],
                lh + seq![Slot::Open],
                written_list(children),
                layout_list(reread_list(children)),
            );
            lemma_fills_concat(
                th + seq![Lexeme::Open] + written_list(children),
                lh + seq![Slot::Open] + layout_list(reread_list(children)),
                seq![Lexeme::Close],
                seq![Slot::Close],
            );
        },
    }
}

proof fn lemma_written_list_fills(ds: Seq<DirectiveView>)
    ensures
        fills(written_list(ds), layout_list(reread_list(ds))),
    decreases ds,
{
    if ds.len() == 0 {
        assert(fills(Seq::<Lexeme>::empty(), Seq::<Slot>::empty()));
    } else {
        let init = ds.subrange(0, ds.len() - 1);
        let last = ds[ds.len() - 1];
        lemma_written_list_fills(init);
        lemma_written_fills(last);
        lemma_reread_list(ds);
        lemma_reread_list(init);
        let r = reread_list(ds);
        assert(r.subrange(0, r.len() - 1) =~= reread_list(init));
        lemma_fills_concat(written_list(init), layout_list(reread_list(init)), written(last), layout(reread(last)));
    }
}

proof fn lemma_reread_value_text(v: ValueView)
    ensures
        reread_value(v).text() == v.text(),
{
}

/// Reading back keeps names, value texts and nesting.
proof fn lemma_reread_shape(d: DirectiveView)
    ensures
        same_shape(reread(d), d),
    decreases d,
{
    let vs = d.values();
    assert(texts(reread_values(vs)) =~= texts(vs)) by {
        assert forall|k: int| 0 <= k < vs.len() implies #[trigger] texts(reread_values(vs))[k] == texts(vs)[k] by {
            lemma_reread_value_text(vs[k]);
        }
    }
    if let DirectiveView::Block { children, .. } = d {
        lemma_reread_list_shape(children);
    }
}

proof fn lemma_reread_list_shape(ds: Seq<DirectiveView>)
    ensures
        same_shape_list(reread_list(ds), ds),
    decreases ds,
{
    lemma_reread_list(ds);
    if ds.len() > 0 {
        let init = ds.subrange(0, ds.len() - 1);
        let r = reread_list(ds);
        lemma_reread_list_shape(init);
        lemma_reread_shape(ds[ds.len() - 1]);
        assert(r.subrange(0, r.len() - 1) =~= reread_list(init));
    }
}

/// Every word that the lexer gives is a word.
pub proof fn lemma_lexed_words(s: Seq<char>, i: int)
    requires
        0 <= i <= s.len(),
        lex_from(s, i) is Some,
    ensures
        forall|k: int|
            0 <= k < lex_from(s, i)->0.len() ==> (#[trigger] lex_from(s, i)->0[k] matches Lexeme::Word(w) ==> is_word(w)),
    decreases s.len() - i,
{
    if i < s.len() {
        let c = s[i];
        if is_blank(c) || c == ';' || c == '{' || c == '}' {
            lemma_lexed_words(s, i + 1);
        } else if c == '#' {
            lemma_find_from_bounds(s, i + 1, '\n');
            lemma_lexed_words(s, find_from(s, i + 1, '\n'));
        } else if is_quote(c) {
            lemma_find_from_bounds(s, i + 1, c);
            lemma_lexed_words(s, find_from(s, i + 1, c) + 1);
        } else {
            lemma_word_end_bounds(s, i);
            lemma_word_end_bounds(s, i + 1);
            let e = word_end(s, i);
            lemma_lexed_words(s, e);
            let w = s.subrange(i, e);
            assert forall|k: int| 0 <= k < w.len() implies is_word_char(#[trigger] w[k]) by {
                assert(w[k] == s[i + k]);
            }
        }
    }
}

/// The names of a tree that fits lexemes whose words are words.
proof fn lemma_fitted_names(ls: Seq<Lexeme>, i: int, d: DirectiveView)
    requires
        fits_at(ls, i, layout(d)),
        forall|k: int| 0 <= k < ls.len() ==> (#[trigger] ls[k] matches Lexeme::Word(w) ==> is_word(w)),
    ensures
        names_are_words(d),
    decreases d,
{
    lemma_layout_starts_with_name(d);
    assert(fits_slot(ls[i + 0], layout(d)[0]));
    if let DirectiveView::Block { name, values, children } = d {
        lemma_layout_block(d);
        let head = seq![Slot::Name(name)] + value_slots(values) + seq![Slot::Open];
        lemma_fits_split(ls, i, head + layout_list(children), seq![Slot::Close]);
        lemma_fits_split(ls, i, head, layout_list(children));
        lemma_fitted_list_names(ls, i + head.len(), children);
    }
}

pub proof fn lemma_fitted_list_names(ls: Seq<Lexeme>, i: int, ds: Seq<DirectiveView>)
    requires
        fits_at(ls, i, layout_list(ds)),
        forall|k: int| 0 <= k < ls.len() ==> (#[trigger] ls[k] matches Lexeme::Word(w) ==> is_word(w)),
    ensures
        list_names_are_words(ds),
    decreases ds,
{
    if ds.len() > 0 {
        let init = ds.subrange(0, ds.len() - 1);
        lemma_fits_split(ls, i, layout_list(init), layout(ds[ds.len() - 1]));
        lemma_fitted_list_names(ls, i, init);
        lemma_fitted_names(ls, i + layout_list(init).len(), ds[ds.len() - 1]);
    }
}

/// Rendering a parsed configuration and parsing the text again gives a tree
/// of the same shape: the same number of top-level directives and, all the
/// way down, the same names, value texts and nesting. This holds whenever
/// each value's written form reads back as one value. It does not for a
/// string value that holds a space and a double quote, nor for one without a
/// space that is not a word: empty, or holding a quote, `;`, `{`, `}`, `#` or
/// a blank other than a space (`foo "a;b";` renders as `foo a;b;`).
pub proof fn lemma_round_trip(text: Seq<char>, ds: Seq<DirectiveView>)
    requires
        lex(text) is Some,
        is_parse_of(lex(text)->0, ds),
        list_renders_whole(ds),
    ensures
        lex(render_config(ds)) is Some,
        exists|again: Seq<DirectiveView>| is_parse_of(lex(render_config(ds))->0, again),
        forall|again: Seq<DirectiveView>|
            #[trigger] is_parse_of(lex(render_config(ds))->0, again) ==> same_shape_list(again, ds),
{
    let ls = lex(text)->0;
    lemma_lexed_words(text, 0);
    lemma_fitted_list_names(ls, 0, ds);
    lemma_lex_list(ds, seq![], seq![]);
    assert(render_list(ds, seq![]) + seq![] =~= render_config(ds));
    let t = written_list(ds);
    assert(t + Seq::<Lexeme>::empty() =~= t);
    assert(lex(render_config(ds)) == Some(t));
    lemma_written_list_fills(ds);
    assert(is_parse_of(t, reread_list(ds)));
    assert(is_parse_of(lex(render_config(ds))->0, reread_list(ds)));
    lemma_reread_list_shape(ds);
    assert forall|again: Seq<DirectiveView>| #[trigger] is_parse_of(t, again) implies same_shape_list(
        again,
        ds,
    ) by {
        lemma_fit_list_unique(t, 0, again, reread_list(ds), false);
    }
}

/// How many times `l` stands in `ls`.
pub open spec fn count_lexeme(ls: Seq<Lexeme>, l: Lexeme) -> nat
    decreases ls.len(),
{
    if ls.len() == 0 {
        0
    } else {
        count_lexeme(ls.drop_last(), l) + if ls.last() == l {
            1nat
        } else {
            0nat
        }
    }
}

/// How many times `s` stands in `slots`.
pub open spec fn count_slot(slots: Seq<Slot>, s: Slot) -> nat
    decreases slots.len(),
{
    if slots.len() == 0 {
        0
    } else {
        count_slot(slots.drop_last(), s) + if slots.last() == s {
            1nat
        } else {
            0nat
        }
    }
}

proof fn lemma_count_slot_concat(a: Seq<Slot>, b: Seq<Slot>, s: Slot)
    ensures
        count_slot(a + b, s) == count_slot(a, s) + count_slot(b, s),
    decreases b.len(),
{
    if b.len() == 0 {
        assert(a + b =~= a);
    } else {
        lemma_count_slot_concat(a, b.drop_last(), s);
        assert((a + b).drop_last() =~= a + b.drop_last());
    }
}

proof fn lemma_value_slots_no_braces(vs: Seq<ValueView>)
    ensures
        count_slot(value_slots(vs), Slot::Open) == 0,
        count_slot(value_slots(vs), Slot::Close) == 0,
    decreases vs.len(),
{
    if vs.len() > 0 {
        lemma_value_slots_no_braces(vs.drop_last());
        assert(value_slots(vs).drop_last() =~= value_slots(vs.drop_last()));
    }
}

proof fn lemma_count_slot_single(x: Slot, s: Slot)
    ensures
        count_slot(seq![x], s) == if x == s {
            1nat
        } else {
            0nat
        },
{
    assert(seq![x].drop_last() =~= Seq::<Slot>::empty());
    assert(count_slot(Seq::<Slot>::empty(), s) == 0);
}

/// A directive opens as many blocks as it closes.
proof fn lemma_layout_balanced(d: DirectiveView)
    ensures
        count_slot(layout(d), Slot::Open) == count_slot(layout(d), Slot::Close),
    decreases d,
{
    let head = seq![Slot::Name(d.name())] + value_slots(d.values());
    lemma_value_slots_no_braces(d.values());
    lemma_count_slot_single(Slot::Name(d.name()), Slot::Open);
    lemma_count_slot_single(Slot::Name(d.name()), Slot::Close);
    lemma_count_slot_concat(seq![Slot::Name(d.name())], value_slots(d.values()), Slot::Open);
    lemma_count_slot_concat(seq![Slot::Name(d.name())], value_slots(d.values()), Slot::Close);
    match d {
        DirectiveView::Simple { .. } => {
            lemma_count_slot_concat(head, seq![Slot::Semi], Slot::Open);
            lemma_count_slot_concat(head, seq![Slot::Semi], Slot::Close);
            lemma_count_slot_single(Slot::Semi, Slot::Open);
            lemma_count_slot_single(Slot::Semi, Slot::Close);
            assert(layout(d) == head + seq![Slot::Semi]);
        },
        DirectiveView::Block { children, .. } => {
            let ch = layout_list(children);
            lemma_layout_list_balanced(children);
            lemma_count_slot_single(Slot::Open, Slot::Open);
            lemma_count_slot_single(Slot::Open, Slot::Close);
            lemma_count_slot_single(Slot::Close, Slot::Open);
            lemma_count_slot_single(Slot::Close, Slot::Close);
            assert(layout(d) == head + seq![Slot::Open] + ch + seq![Slot::Close]);
            lemma_count_slot_concat(head, seq![Slot::Open], Slot::Open);
            lemma_count_slot_concat(head, seq![Slot::Open], Slot::Close);
            lemma_count_slot_concat(head + seq![Slot::Open], ch, Slot::Open);
            lemma_count_slot_concat(head + seq![Slot::Open], ch, Slot::Close);
            lemma_count_slot_concat(head + seq![Slot::Open] + ch, seq![Slot::Close], Slot::Open);
            lemma_count_slot_concat(head + seq![Slot::Open] + ch, seq![Slot::Close], Slot::Close);
        },
    }
}

proof fn lemma_layout_list_balanced(ds: Seq<DirectiveView>)
    ensures
        count_slot(layout_list(ds), Slot::Open) == count_slot(layout_list(ds), Slot::Close),
    decreases ds,
{
    if ds.len() > 0 {
        let init = ds.subrange(0, ds.len() - 1);
        lemma_layout_list_balanced(init);
        lemma_layout_balanced(ds[ds.len() - 1]);
        lemma_count_slot_concat(layout_list(init), layout(ds[ds.len() - 1]), Slot::Open);
        lemma_count_slot_concat(layout_list(init), layout(ds[ds.len() - 1]), Slot::Close);
    }
}

/// Lexemes that fill slots hold `{` and `}` where the slots do.
proof fn lemma_fill_counts(ls: Seq<Lexeme>, slots: Seq<Slot>)
    requires
        fills(ls, slots),
    ensures
        count_lexeme(ls, Lexeme::Open) == count_slot(slots, Slot::Open),
        count_lexeme(ls, Lexeme::Close) == count_slot(slots, Slot::Close),
    decreases ls.len(),
{
    if ls.len() > 0 {
        let n = ls.len() - 1;
        assert(fills(ls.drop_last(), slots.drop_last())) by {
            assert forall|k: int| 0 <= k < slots.drop_last().len() implies fits_slot(
                ls.drop_last()[0 + k],
                #[trigger] slots.drop_last()[k],
            ) by {
                assert(fits_slot(ls[0 + k], slots[k]));
            }
        }
        lemma_fill_counts(ls.drop_last(), slots.drop_last());
        assert(fits_slot(ls[0 + n], slots[n]));
    }
}

/// Text whose lexemes hold a different number of `{` and `}` (a block left
/// open, say) is no configuration: no tree is a parse of it, so `parse_str`
/// fails on it.
pub proof fn lemma_unbalanced_braces(text: Seq<char>)
    requires
        lex(text) is Some,
        count_lexeme(lex(text)->0, Lexeme::Open) != count_lexeme(lex(text)->0, Lexeme::Close),
    ensures
        forall|ds: Seq<DirectiveView>| !#[trigger] is_parse_of(lex(text)->0, ds),
{
    assert forall|ds: Seq<DirectiveView>| !#[trigger] is_parse_of(lex(text)->0, ds) by {
        if is_parse_of(lex(text)->0, ds) {
            lemma_fill_counts(lex(text)->0, layout_list(ds));
            lemma_layout_list_balanced(ds);
        }
    }
}

} // verus!
