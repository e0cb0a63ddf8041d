//! Reading lexemes into a directive tree, and `NginxConfig::parse_str`.

use vstd::prelude::*;
use crate::ast::{
    directives_view, lemma_directives_view_push, values_view, Directive, DirectiveValue,
    DirectiveView, NginxConfig,
};
use crate::error::{column_at, line_at, parse_error_at, NginxParserError};
use crate::grammar::{
    lemma_stop_index, read_state, stop_index, stops_at, ReadState, end_ok, fits_at, fits_slot, is_parse_of, layout, layout_list, lemma_fits_split,
    lemma_layout_block, lemma_layout_head, lemma_layout_list_concat, lemma_layout_list_first,
    lemma_layout_starts_with_name, value_of, value_slots, Slot,
};
use crate::laws::{lemma_fitted_list_names, lemma_lexed_words, list_names_are_words};
use crate::lexer::{chars_of, lex, lex_fail_from, lexeme_starts, offsets, lexemes, tokenize, Lexeme, Token, TokenKind};

verus! {

fn is_value_token(t: &Token) -> (r: bool)
    ensures
        r == (value_of(t@) is Some),
{
    match &t.kind {
        TokenKind::Word(_) => true,
        TokenKind::Quoted(_) => true,
        _ => false,
    }
}

/// The value that a word or quoted token stands for.
fn value_token(t: &Token) -> (r: DirectiveValue)
    requires
        value_of(t@) is Some,
    ensures
        value_of(t@) == Some(r@),
{
    match &t.kind {
        TokenKind::Word(w) => {
            let s = w.as_str();
            if s.unicode_len() > 0 && s.get_char(0) == '$' {
                DirectiveValue::Variable(w.clone())
            } else if s.unicode_len() > 0 && s.get_char(0) == '~' {
                DirectiveValue::Regex(w.clone())
            } else {
                DirectiveValue::String(w.clone())
            }
        },
        TokenKind::Quoted(q) => DirectiveValue::String(q.clone()),
        _ => {
            proof {
                assert(false);
            }
            DirectiveValue::String(String::new())
        },
    }
}

proof fn lemma_value_slots(vs: Seq<DirectiveValue>)
    ensures
        value_slots(values_view(vs)).len() == vs.len(),
        forall|k: int|
            0 <= k < vs.len() ==> #[trigger] value_slots(values_view(vs))[k] == Slot::Value(
                vs[k]@,
            ),
{
}

/// Reads the directive that starts at token `i`. On success it returns the
/// directive and the index of the token after it. It fails, with the index
/// of the token where it stopped, exactly where no directive fits there.
fn parse_directive(ts: &Vec<Token>, i: usize, Ghost(depth): Ghost<nat>) -> (r: Result<(Directive, usize), usize>)
    requires
        i < ts.len(),
        lexemes(ts@)[i as int] != Lexeme::Close,
        read_state(lexemes(ts@), i as int) == Some(ReadState { depth, in_directive: false }),
    ensures
        match r {
            Ok((d, j)) => fits_at(lexemes(ts@), i as int, layout(d@)) && j == i + layout(d@).len()
                && read_state(lexemes(ts@), j as int) == Some(ReadState { depth, in_directive: false }),
            Err(e) => stops_at(lexemes(ts@), e as int),
        },
        forall|dv: DirectiveView|
            #[trigger] fits_at(lexemes(ts@), i as int, layout(dv)) ==> r is Ok && r->Ok_0.0@
                == dv,
    decreases ts.len() - i, 1int,
{
    let ghost ls = lexemes(ts@);
    let n = ts.len();
    let name = match &ts[i].kind {
        TokenKind::Word(w) => w.clone(),
        _ => {
            proof {
                assert forall|dv: DirectiveView| #[trigger]
                    fits_at(ls, i as int, layout(dv)) implies false by {
                    lemma_layout_starts_with_name(dv);
                    assert(fits_slot(ls[i as int + 0], layout(dv)[0]));
                }
            }
            return Err(i);
        },
    };
    proof {
        assert forall|dv: DirectiveView| #[trigger]
            fits_at(ls, i as int, layout(dv)) implies dv.name() == name@ by {
            lemma_layout_starts_with_name(dv);
            assert(fits_slot(ls[i as int + 0], layout(dv)[0]));
        }
    }
    let mut values: Vec<DirectiveValue> = Vec::new();
    let mut j = i + 1;
    while j < n && is_value_token(&ts[j])
        invariant
            n == ts.len(),
            ls == lexemes(ts@),
            read_state(ls, j as int) == Some(ReadState { depth, in_directive: true }),
            i < n,
            j <= n,
            j == i + 1 + values.len(),
            forall|k: int| 0 <= k < values.len() ==> value_of(ls[i + 1 + k]) == Some(#[trigger] values@[k]@),
            forall|dv: DirectiveView| #[trigger]
                fits_at(ls, i as int, layout(dv)) ==> dv.name() == name@
                    && values.len() <= dv.values().len()
                    && forall|k: int| 0 <= k < values.len() ==> dv.values()[k] == #[trigger] values@[k]@,
        decreases n - j,
    {
        let v = value_token(&ts[j]);
        proof {
            assert forall|dv: DirectiveView| #[trigger]
                fits_at(ls, i as int, layout(dv)) implies values.len() < dv.values().len()
                    && dv.values()[values.len() as int] == v@ by {
                lemma_layout_head(dv);
                let p = 1 + values.len();
                assert(fits_slot(ls[i + p], layout(dv)[p]));
                if values.len() == dv.values().len() {
                    assert(false);
                } else {
                    assert(layout(dv)[1 + values.len() as int] == Slot::Value(dv.values()[values.len() as int]));
                }
            }
        }
        values.push(v);
        j = j + 1;
    }
    proof {
        assert forall|dv: DirectiveView| #[trigger]
            fits_at(ls, i as int, layout(dv)) implies dv.values() == values_view(values@) && j < n
                && ls[j as int] == (if dv is Simple { Lexeme::Semi } else { Lexeme::Open }) by {
            lemma_layout_head(dv);
            if values.len() < dv.values().len() {
                let p = 1 + values.len();
                assert(layout(dv)[1 + values.len() as int] == Slot::Value(dv.values()[values.len() as int]));
                assert(fits_slot(ls[i + p], layout(dv)[p]));
                assert(false);
            }
            assert(dv.values() =~= values_view(values@));
            let p = 1 + values.len();
            assert(fits_slot(ls[i + p], layout(dv)[p]));
        }
        lemma_value_slots(values@);
    }
    if j >= n {
        return Err(n);
    }
    let ghost head = seq![Slot::Name(name@)] + value_slots(values_view(values@));
    proof {
        assert forall|k: int| 0 <= k < head.len() implies fits_slot(ls[i + k], #[trigger] head[k]) by {
            if k > 0 {
                assert(head[k] == Slot::Value(values@[k - 1]@));
                assert(value_of(ls[i + 1 + (k - 1)]) == Some(values@[k - 1]@));
                assert(i + 1 + (k - 1) == i + k);
            }
        }
        assert(fits_at(ls, i as int, head));
    }
    match &ts[j].kind {
        TokenKind::Semi => {
            let d = Directive::Simple { name, values };
            proof {
                lemma_fits_split(ls, i as int, head, seq![Slot::Semi]);
                assert(fits_slot(ls[j as int], seq![Slot::Semi][0]));
                assert(layout(d@) == head + seq![Slot::Semi]);
            }
            Ok((d, j + 1))
        },
        TokenKind::Open => {
            let res = parse_items(ts, j + 1, true, Ghost(depth + 1));
            proof {
                assert forall|dv: DirectiveView| #[trigger]
                    fits_at(ls, i as int, layout(dv)) implies dv is Block
                        && res is Ok && directives_view(res->Ok_0.0@) == dv.children()->0 by {
                    if dv is Simple {
                        assert(false);
                    }
                    lemma_layout_block(dv);
                    let hd = seq![Slot::Name(dv.name())] + value_slots(dv.values());
                    let ch = layout_list(dv.children()->0);
                    assert(hd == head);
                    lemma_fits_split(ls, i as int, head + seq![Slot::Open] + ch, seq![Slot::Close]);
                    lemma_fits_split(ls, i as int, head + seq![Slot::Open], ch);
                    lemma_fits_split(ls, i as int, head, seq![Slot::Open]);
                    let m = i + head.len() + 1 + ch.len();
                    assert(fits_slot(ls[m + 0], seq![Slot::Close][0]));
                    assert(end_ok(ls, j + 1 + ch.len(), true));
                }
            }
            match res {
                Err(e) => Err(e),
                Ok((children, m)) => {
                    let ghost ch = layout_list(directives_view(children@));
                    let d = Directive::Block { name, values, children };
                    proof {
                        assert(layout(d@) == head + seq![Slot::Open] + ch + seq![Slot::Close]);
                        assert(fits_slot(ls[j as int + 0], seq![Slot::Open][0]));
                        lemma_fits_split(ls, i as int, head, seq![Slot::Open]);
                        lemma_fits_split(ls, i as int, head + seq![Slot::Open], ch);
                        assert(fits_slot(ls[m as int + 0], seq![Slot::Close][0]));
                        lemma_fits_split(ls, i as int, head + seq![Slot::Open] + ch, seq![Slot::Close]);
                    }
                    Ok((d, m + 1))
                },
            }
        },
        _ => {
            proof {
                assert(value_of(ls[j as int]) is None);
            }
            Err(j)
        },
    }
}

/// Reads directives from token `i` up to the end of the tokens (at the top
/// level) or up to a `}` (inside a block, `nested`). On success it returns
/// them and the index where it stopped. It fails exactly where no list of
/// directives fits there.
fn parse_items(ts: &Vec<Token>, i: usize, nested: bool, Ghost(depth): Ghost<nat>) -> (r: Result<(Vec<Directive>, usize), usize>)
    requires
        i <= ts.len(),
        nested == (depth > 0),
        read_state(lexemes(ts@), i as int) == Some(ReadState { depth, in_directive: false }),
    ensures
        match r {
            Ok((ds, j)) => fits_at(lexemes(ts@), i as int, layout_list(directives_view(ds@)))
                && j == i + layout_list(directives_view(ds@)).len()
                && end_ok(lexemes(ts@), j as int, nested)
                && read_state(lexemes(ts@), j as int) == Some(ReadState { depth, in_directive: false }),
            Err(e) => stops_at(lexemes(ts@), e as int),
        },
        forall|dvs: Seq<DirectiveView>|
            #[trigger] fits_at(lexemes(ts@), i as int, layout_list(dvs)) && end_ok(
                lexemes(ts@),
                i + layout_list(dvs).len(),
                nested,
            ) ==> r is Ok && directives_view(r->Ok_0.0@) == dvs,
    decreases ts.len() - i, 2int,
{
    let ghost ls = lexemes(ts@);
    let n = ts.len();
    let mut ds: Vec<Directive> = Vec::new();
    let mut p = i;
    proof {
        assert(fits_at(ls, i as int, layout_list(directives_view(ds@))));
    }
    loop
        invariant
            n == ts.len(),
            ls == lexemes(ts@),
            nested == (depth > 0),
            read_state(ls, p as int) == Some(ReadState { depth, in_directive: false }),
            i <= p <= n,
            fits_at(ls, i as int, layout_list(directives_view(ds@))),
            p == i + layout_list(directives_view(ds@)).len(),
            forall|dvs: Seq<DirectiveView>|
                #[trigger] fits_at(ls, i as int, layout_list(dvs)) && end_ok(
                    ls,
                    i + layout_list(dvs).len(),
                    nested,
                ) ==> ds.len() <= dvs.len() && dvs.subrange(0, ds.len() as int) == directives_view(ds@),
        decreases n - p,
    {
        let ghost acc = directives_view(ds@);
        proof {
            crate::ast::lemma_directives_view(ds@);
        }
        // What a list of directives that fits from `i` holds at `p`.
        assert forall|dvs: Seq<DirectiveView>|
            #[trigger] fits_at(ls, i as int, layout_list(dvs)) && end_ok(
                ls,
                i + layout_list(dvs).len(),
                nested,
            ) implies (dvs.len() == ds.len() && dvs == acc && end_ok(ls, p as int, nested)) || (
            dvs.len() > ds.len() && fits_at(ls, p as int, layout(dvs[ds.len() as int]))) by {
            let a = ds.len() as int;
            let front = dvs.subrange(0, a);
            let back = dvs.subrange(a, dvs.len() as int);
            assert(front + back =~= dvs);
            lemma_layout_list_concat(front, back);
            lemma_fits_split(ls, i as int, layout_list(front), layout_list(back));
            if dvs.len() == a {
                assert(dvs =~= acc);
            } else {
                lemma_layout_list_first(back);
                assert(back[0] == dvs[a]);
                lemma_fits_split(ls, p as int, layout(back[0]), layout_list(back.subrange(1, back.len() as int)));
            }
        }
        if p == n {
            if nested {
                proof {
                    assert forall|dvs: Seq<DirectiveView>|
                        #[trigger] fits_at(ls, i as int, layout_list(dvs)) && end_ok(
                            ls,
                            i + layout_list(dvs).len(),
                            nested,
                        ) implies false by {
                        if dvs.len() > ds.len() {
                            lemma_layout_starts_with_name(dvs[ds.len() as int]);
                        }
                    }
                }
                return Err(n);
            } else {
                proof {
                    assert forall|dvs: Seq<DirectiveView>|
                        #[trigger] fits_at(ls, i as int, layout_list(dvs)) && end_ok(
                            ls,
                            i + layout_list(dvs).len(),
                            nested,
                        ) implies directives_view(ds@) == dvs by {
                        if dvs.len() > ds.len() {
                            lemma_layout_starts_with_name(dvs[ds.len() as int]);
                        }
                    }
                }
                return Ok((ds, p));
            }
        }
        let is_close = match &ts[p].kind {
            TokenKind::Close => true,
            _ => false,
        };
        if is_close {
            proof {
                assert forall|dvs: Seq<DirectiveView>|
                    #[trigger] fits_at(ls, i as int, layout_list(dvs)) && end_ok(
                        ls,
                        i + layout_list(dvs).len(),
                        nested,
                    ) implies dvs.len() == ds.len() && nested by {
                    if dvs.len() > ds.len() {
                        let d = dvs[ds.len() as int];
                        lemma_layout_starts_with_name(d);
                        assert(fits_slot(ls[p + 0], layout(d)[0]));
                    }
                }
            }
            if nested {
                return Ok((ds, p));
            } else {
                return Err(p);
            }
        }
        proof {
            assert forall|dvs: Seq<DirectiveView>|
                #[trigger] fits_at(ls, i as int, layout_list(dvs)) && end_ok(
                    ls,
                    i + layout_list(dvs).len(),
                    nested,
                ) implies dvs.len() > ds.len() by {
            }
        }
        match parse_directive(ts, p, Ghost(depth)) {
            Err(e) => {
                return Err(e);
            },
            Ok((d, q)) => {
                proof {
                    lemma_directives_view_push(ds@, d);
                    let acc2 = acc.push(d@);
                    assert(acc2.subrange(0, acc.len() as int) =~= acc);
                    assert(layout_list(acc2) == layout_list(acc) + layout(d@));
                    lemma_fits_split(ls, i as int, layout_list(acc), layout(d@));
                    assert forall|dvs: Seq<DirectiveView>|
                        #[trigger] fits_at(ls, i as int, layout_list(dvs)) && end_ok(
                            ls,
                            i + layout_list(dvs).len(),
                            nested,
                        ) implies ds.len() + 1 <= dvs.len() && dvs.subrange(0, ds.len() + 1) == acc2 by {
                        assert(dvs.subrange(0, ds.len() as int) == acc);
                        assert(dvs.subrange(0, ds.len() + 1) =~= acc2);
                    }
                }
                ds.push(d);
                p = q;
            },
        }
    }
}

/// Where reading text whose lexemes are all closed stops: the start of the
/// first lexeme that cannot come next, or the end of the text when every
/// lexeme can but the configuration is left unfinished.
pub open spec fn stop_offset(s: Seq<char>) -> int {
    let ls = lex(s)->0;
    if stop_index(ls) < ls.len() {
        lexeme_starts(s)[stop_index(ls)]
    } else {
        s.len() as int
    }
}

impl NginxConfig {
    /// Parses configuration text. Succeeds exactly when the text splits into
    /// lexemes and those lexemes are the written form of a list of
    /// directives, and then returns that list. Otherwise the error gives the
    /// position where reading stopped.
    pub fn parse_str(content: &str) -> (r: Result<NginxConfig, NginxParserError>)
        requires
            content@.len() < usize::MAX,
        ensures
            r matches Ok(c) ==> c.source_path is None && lex(content@) is Some && is_parse_of(
                lex(content@)->0,
                directives_view(c.directives@),
            ) && list_names_are_words(directives_view(c.directives@)),
            r is Err ==> lex(content@) is None || forall|ds: Seq<DirectiveView>|
                !#[trigger] is_parse_of(lex(content@)->0, ds),
            r matches Err(e) ==> (lex(content@) is None ==> (e matches NginxParserError::ParseError {
                offset,
                ..
            } && offset == lex_fail_from(content@, 0))),
            r matches Err(e) ==> (lex(content@) is Some ==> (e matches NginxParserError::ParseError {
                offset,
                ..
            } && offset == stop_offset(content@))),
            r matches Err(e) ==> match e {
                NginxParserError::ParseError { offset, line, column } => offset <= content@.len()
                    && line == line_at(content@, offset as int) && column == column_at(
                    content@,
                    offset as int,
                ),
                _ => false,
            },
    {
        let chars = chars_of(content);
        match tokenize(content) {
            Err(off) => Err(parse_error_at(&chars, off)),
            Ok(ts) => {
                let ghost ls = lexemes(ts@);
                proof {
                    assert forall|ds: Seq<DirectiveView>| #[trigger] is_parse_of(ls, ds) implies
                        fits_at(ls, 0, layout_list(ds)) && end_ok(ls, 0 + layout_list(ds).len() as int, false) by {
                    }
                }
                proof {
                    lemma_lexed_words(content@, 0);
                }
                match parse_items(&ts, 0, false, Ghost(0)) {
                    Ok((directives, j)) => {
                        proof {
                            assert(end_ok(ls, j as int, false));
                            lemma_fitted_list_names(ls, 0, directives_view(directives@));
                        }
                        Ok(NginxConfig { directives, source_path: None })
                    },
                    Err(e) => {
                        proof {
                            lemma_stop_index(ls, e as int);
                            assert(offsets(ts@).len() == ts.len());
                            if e < ts.len() {
                                assert(offsets(ts@)[e as int] == ts@[e as int].offset);
                            }
                        }
                        let off = if e < ts.len() {
                            ts[e].offset
                        } else {
                            chars.len()
                        };
                        Err(parse_error_at(&chars, off))
                    },
                }
            },
        }
    }
}

} // verus!
