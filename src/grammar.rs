//! The syntactic level: which sequences of lexemes a directive tree stands for.
//!
//! A simple directive is a word (its name), its values and `;`. A block is a
//! word, its values, `{`, its children and `}`. A value is a word or a quoted
//! string. `layout` gives the slots that a tree occupies; a list of lexemes is
//! a parse of a tree when each lexeme fits its slot.

use vstd::prelude::*;
use crate::ast::{DirectiveView, ValueView};
use crate::lexer::Lexeme;

verus! {

/// One position in the written form of a tree.
pub enum Slot {
    Name(Seq<char>),
    Value(ValueView),
    Semi,
    Open,
    Close,
}

/// The kind of value that a bare word is: a variable when it starts with
/// `$`, a regex when it starts with `~`, and plain text otherwise.
pub open spec fn classify(w: Seq<char>) -> ValueView {
    if w.len() > 0 && w[0] == '$' {
        ValueView::Var(w)
    } else if w.len() > 0 && w[0] == '~' {
        ValueView::Re(w)
    } else {
        ValueView::Str(w)
    }
}

/// The value that a lexeme stands for, if it can stand for one.
pub open spec fn value_of(l: Lexeme) -> Option<ValueView> {
    match l {
        Lexeme::Word(w) => Some(classify(w)),
        Lexeme::Quoted(q) => Some(ValueView::Str(q)),
        _ => None,
    }
}

pub open spec fn fits_slot(l: Lexeme, s: Slot) -> bool {
    match s {
        Slot::Name(n) => l == Lexeme::Word(n),
        Slot::Value(v) => value_of(l) == Some(v),
        Slot::Semi => l == Lexeme::Semi,
        Slot::Open => l == Lexeme::Open,
        Slot::Close => l == Lexeme::Close,
    }
}

pub open spec fn value_slots(vs: Seq<ValueView>) -> Seq<Slot> {
    vs.map_values(|v: ValueView| Slot::Value(v))
}

pub open spec fn layout(d: DirectiveView) -> Seq<Slot>
    decreases d,
{
    match d {
        DirectiveView::Simple { name, values } => seq![Slot::Name(name)] + value_slots(values)
            + seq![Slot::Semi],
        DirectiveView::Block { name, values, children } => seq![Slot::Name(name)] + value_slots(
            values,
        ) + seq![Slot::Open] + layout_list(children) + seq![Slot::Close],
    }
}

pub open spec fn layout_list(ds: Seq<DirectiveView>) -> Seq<Slot>
    decreases ds,
{
    if ds.len() == 0 {
        seq![]
    } else {
        layout_list(ds.subrange(0, ds.len() - 1)) + layout(ds[ds.len() - 1])
    }
}

/// The lexemes of `ls` from index `i` on fill `slots`.
pub open spec fn fits_at(ls: Seq<Lexeme>, i: int, slots: Seq<Slot>) -> bool {
    &&& 0 <= i
    &&& i + slots.len() <= ls.len()
    &&& forall|k: int| 0 <= k < slots.len() ==> fits_slot(ls[i + k], #[trigger] slots[k])
}

/// What may follow a list of directives at `m`: the end of the lexemes at
/// the top level, and `}` inside a block.
pub open spec fn end_ok(ls: Seq<Lexeme>, m: int, nested: bool) -> bool {
    if nested {
        0 <= m < ls.len() && ls[m] == Lexeme::Close
    } else {
        m == ls.len()
    }
}

/// `ds` is a parse of the whole of `ls`.
pub open spec fn is_parse_of(ls: Seq<Lexeme>, ds: Seq<DirectiveView>) -> bool {
    fits_at(ls, 0, layout_list(ds)) && layout_list(ds).len() == ls.len()
}

pub proof fn lemma_fits_split(ls: Seq<Lexeme>, i: int, a: Seq<Slot>, b: Seq<Slot>)
    ensures
        fits_at(ls, i, a + b) == (fits_at(ls, i, a) && fits_at(ls, i + a.len(), b)),
{
    if fits_at(ls, i, a + b) {
        assert forall|k: int| 0 <= k < a.len() implies fits_slot(ls[i + k], #[trigger] a[k]) by {
            assert((a + b)[k] == a[k]);
        }
        assert forall|k: int| 0 <= k < b.len() implies fits_slot(
            ls[i + a.len() + k],
            #[trigger] b[k],
        ) by {
            assert((a + b)[a.len() + k] == b[k]);
            assert(i + (a.len() + k) == i + a.len() + k);
        }
    }
    if fits_at(ls, i, a) && fits_at(ls, i + a.len(), b) {
        assert forall|k: int| 0 <= k < (a + b).len() implies fits_slot(
            ls[i + k],
            #[trigger] (a + b)[k],
        ) by {
            if k < a.len() {
                assert((a + b)[k] == a[k]);
            } else {
                let k2 = k - a.len();
                assert((a + b)[k] == b[k2]);
                assert(fits_slot(ls[i + a.len() + k2], b[k2]));
                assert(i + a.len() + k2 == i + k);
            }
        }
    }
}

pub proof fn lemma_layout_list_concat(x: Seq<DirectiveView>, y: Seq<DirectiveView>)
    ensures
        layout_list(x + y) == layout_list(x) + layout_list(y),
    decreases y.len(),
{
    if y.len() == 0 {
        assert(x + y =~= x);
        assert(layout_list(x) + layout_list(y) =~= layout_list(x));
    } else {
        let y0 = y.subrange(0, y.len() - 1);
        lemma_layout_list_concat(x, y0);
        assert((x + y).subrange(0, (x + y).len() - 1) =~= x + y0);
        assert((x + y)[(x + y).len() - 1] == y[y.len() - 1]);
        assert(layout_list(x) + layout_list(y0) + layout(y[y.len() - 1]) =~= layout_list(x) + (
        layout_list(y0) + layout(y[y.len() - 1])));
    }
}

/// A list of directives is the first one followed by the rest.
pub proof fn lemma_layout_list_first(ds: Seq<DirectiveView>)
    requires
        ds.len() > 0,
    ensures
        layout_list(ds) == layout(ds[0]) + layout_list(ds.subrange(1, ds.len() as int)),
{
    let first = ds.subrange(0, 1);
    let rest = ds.subrange(1, ds.len() as int);
    lemma_layout_list_concat(first, rest);
    assert(first + rest =~= ds);
    assert(first.subrange(0, 0) =~= Seq::<DirectiveView>::empty());
    assert(layout_list(Seq::<DirectiveView>::empty()) + layout(ds[0]) =~= layout(ds[0]));
}

/// Every directive starts with its name.
pub proof fn lemma_layout_starts_with_name(d: DirectiveView)
    ensures
        layout(d).len() >= 2,
        layout(d)[0] == Slot::Name(d.name()),
{
}

/// The first value slots of a directive, and the slot after them.
pub proof fn lemma_layout_head(d: DirectiveView)
    ensures
        layout(d).len() >= d.values().len() + 2,
        forall|k: int|
            0 <= k < d.values().len() ==> #[trigger] layout(d)[1 + k] == Slot::Value(
                d.values()[k],
            ),
        layout(d)[1 + d.values().len() as int] == (if d is Simple {
            Slot::Semi
        } else {
            Slot::Open
        }),
        d is Simple ==> layout(d).len() == d.values().len() + 2,
{
}

/// A block's layout: head, `{`, children, `}`.
pub proof fn lemma_layout_block(d: DirectiveView)
    requires
        d is Block,
    ensures
        layout(d) == seq![Slot::Name(d.name())] + value_slots(d.values()) + seq![Slot::Open]
            + layout_list(d.children()->0) + seq![Slot::Close],
{
}

/// At most one directive fits the lexemes from a given index.
pub proof fn lemma_fit_unique(ls: Seq<Lexeme>, i: int, d1: DirectiveView, d2: DirectiveView)
    requires
        fits_at(ls, i, layout(d1)),
        fits_at(ls, i, layout(d2)),
    ensures
        d1 == d2,
    decreases d1,
{
    lemma_layout_head(d1);
    lemma_layout_head(d2);
    assert(fits_slot(ls[i + 0], layout(d1)[0]));
    assert(fits_slot(ls[i + 0], layout(d2)[0]));
    let v1 = d1.values();
    let v2 = d2.values();
    let at1 = 1 + v1.len() as int;
    let at2 = 1 + v2.len() as int;
    assert(fits_slot(ls[i + at1], layout(d1)[at1]));
    assert(fits_slot(ls[i + at2], layout(d2)[at2]));
    if v1.len() < v2.len() {
        assert(layout(d2)[1 + v1.len() as int] == Slot::Value(v2[v1.len() as int]));
        assert(fits_slot(ls[i + at1], layout(d2)[at1]));
        assert(false);
    }
    if v2.len() < v1.len() {
        assert(layout(d1)[1 + v2.len() as int] == Slot::Value(v1[v2.len() as int]));
        assert(fits_slot(ls[i + at2], layout(d1)[at2]));
        assert(false);
    }
    assert forall|k: int| 0 <= k < v1.len() implies v1[k] == v2[k] by {
        assert(layout(d1)[1 + k] == Slot::Value(v1[k]));
        assert(layout(d2)[1 + k] == Slot::Value(v2[k]));
        assert(fits_slot(ls[i + (1 + k)], layout(d1)[1 + k]));
        assert(fits_slot(ls[i + (1 + k)], layout(d2)[1 + k]));
    }
    assert(v1 =~= v2);
    if d1 is Block {
        assert(d2 is Block);
        lemma_layout_block(d1);
        lemma_layout_block(d2);
        let head = seq![Slot::Name(d1.name())] + value_slots(v1);
        let c1 = d1.children()->0;
        let c2 = d2.children()->0;
        lemma_fits_split(ls, i, head + seq![Slot::Open] + layout_list(c1), seq![Slot::Close]);
        lemma_fits_split(ls, i, head + seq![Slot::Open], layout_list(c1));
        lemma_fits_split(ls, i, head + seq![Slot::Open] + layout_list(c2), seq![Slot::Close]);
        lemma_fits_split(ls, i, head + seq![Slot::Open], layout_list(c2));
        let j = i + head.len() + 1;
        assert(fits_slot(ls[j + layout_list(c1).len() + 0], seq![Slot::Close][0]));
        assert(fits_slot(ls[j + layout_list(c2).len() + 0], seq![Slot::Close][0]));
        lemma_fit_list_unique(ls, j, c1, c2, true);
    }
}

/// At most one list of directives fits the lexemes from a given index up to
/// what may follow it.
pub proof fn lemma_fit_list_unique(
    ls: Seq<Lexeme>,
    i: int,
    a: Seq<DirectiveView>,
    b: Seq<DirectiveView>,
    nested: bool,
)
    requires
        fits_at(ls, i, layout_list(a)),
        end_ok(ls, i + layout_list(a).len(), nested),
        fits_at(ls, i, layout_list(b)),
        end_ok(ls, i + layout_list(b).len(), nested),
    ensures
        a == b,
    decreases a,
{
    if a.len() > 0 {
        lemma_layout_list_first(a);
        lemma_layout_starts_with_name(a[0]);
        lemma_fits_split(ls, i, layout(a[0]), layout_list(a.subrange(1, a.len() as int)));
        assert(fits_slot(ls[i + 0], layout(a[0])[0]));
    }
    if b.len() > 0 {
        lemma_layout_list_first(b);
        lemma_layout_starts_with_name(b[0]);
        lemma_fits_split(ls, i, layout(b[0]), layout_list(b.subrange(1, b.len() as int)));
        assert(fits_slot(ls[i + 0], layout(b[0])[0]));
    }
    if a.len() == 0 && b.len() == 0 {
        assert(a =~= b);
    } else if a.len() > 0 && b.len() > 0 {
        lemma_fit_unique(ls, i, a[0], b[0]);
        let ra = a.subrange(1, a.len() as int);
        let rb = b.subrange(1, b.len() as int);
        let j = i + layout(a[0]).len();
        assert(decreases_to!(a => ra));
        lemma_fit_list_unique(ls, j, ra, rb, nested);
        assert(a =~= seq![a[0]] + ra);
        assert(b =~= seq![b[0]] + rb);
    }
}

/// Where reading a list of lexemes stands: how many blocks are open, and
/// whether a directive has begun (its name read, its `;` or `{` not yet).
pub struct ReadState {
    pub depth: nat,
    pub in_directive: bool,
}

/// Reading one more lexeme, or `None` where it cannot come next: a
/// directive starts with a word, goes on with words and quoted strings, and
/// ends with `;` or `{`; a `}` closes an open block between directives.
pub open spec fn step(st: ReadState, l: Lexeme) -> Option<ReadState> {
    if st.in_directive {
        match l {
            Lexeme::Word(_) => Some(st),
            Lexeme::Quoted(_) => Some(st),
            Lexeme::Semi => Some(ReadState { depth: st.depth, in_directive: false }),
            Lexeme::Open => Some(ReadState { depth: st.depth + 1, in_directive: false }),
            Lexeme::Close => None,
        }
    } else {
        match l {
            Lexeme::Word(_) => Some(ReadState { depth: st.depth, in_directive: true }),
            Lexeme::Close => if st.depth > 0 {
                Some(ReadState { depth: (st.depth - 1) as nat, in_directive: false })
            } else {
                None
            },
            _ => None,
        }
    }
}

/// The state after reading the first `k` lexemes, or `None` where one of
/// them could not come next.
pub open spec fn read_state(ls: Seq<Lexeme>, k: int) -> Option<ReadState>
    decreases k,
{
    if k <= 0 {
        Some(ReadState { depth: 0, in_directive: false })
    } else {
        match read_state(ls, k - 1) {
            Some(st) => step(st, ls[k - 1]),
            None => None,
        }
    }
}

/// The index, from `k` on, of the first lexeme that cannot come next, or
/// the number of lexemes when every one can.
pub open spec fn stop_from(ls: Seq<Lexeme>, k: int) -> int
    decreases ls.len() - k,
{
    if k >= ls.len() {
        ls.len() as int
    } else if read_state(ls, k + 1) is None {
        k
    } else {
        stop_from(ls, k + 1)
    }
}

/// Reading stops at `e`: the first `e` lexemes read, and the next one (if
/// any) cannot.
pub open spec fn stops_at(ls: Seq<Lexeme>, e: int) -> bool {
    &&& 0 <= e <= ls.len()
    &&& read_state(ls, e) is Some
    &&& e < ls.len() ==> read_state(ls, e + 1) is None
}

/// Where reading the lexemes stops.
pub open spec fn stop_index(ls: Seq<Lexeme>) -> int {
    stop_from(ls, 0)
}

proof fn lemma_read_state_stuck(ls: Seq<Lexeme>, a: int, b: int)
    requires
        0 <= a <= b,
        read_state(ls, a) is None,
    ensures
        read_state(ls, b) is None,
    decreases b - a,
{
    if a < b {
        lemma_read_state_stuck(ls, a, b - 1);
    }
}

/// Reading stops at `e` when the first `e` lexemes read and the next one
/// (if any) cannot.
pub proof fn lemma_stop_index(ls: Seq<Lexeme>, e: int)
    requires
        stops_at(ls, e),
    ensures
        stop_index(ls) == e,
{
    lemma_stop_from(ls, 0, e);
}

proof fn lemma_stop_from(ls: Seq<Lexeme>, k: int, e: int)
    requires
        0 <= k <= e <= ls.len(),
        read_state(ls, e) is Some,
        e < ls.len() ==> read_state(ls, e + 1) is None,
    ensures
        stop_from(ls, k) == e,
    decreases e - k,
{
    if k < e {
        if read_state(ls, k + 1) is None {
            lemma_read_state_stuck(ls, k + 1, e);
        }
        lemma_stop_from(ls, k + 1, e);
    }
}

} // verus!
