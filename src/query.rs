//! Searching a tree for blocks by name.
//!
//! The search goes depth first, in order. A block whose name matches is
//! reported and its body is not searched; the body of any other block is.

use vstd::prelude::*;
use crate::ast::{directives_view, lemma_directives_view, Directive, DirectiveView, NginxConfig};

verus! {

/// The blocks named `name` in `ds`, outermost first, in order.
pub open spec fn find_in(ds: Seq<DirectiveView>, name: Seq<char>) -> Seq<DirectiveView>
    decreases ds,
{
    if ds.len() == 0 {
        seq![]
    } else {
        find_in(ds.subrange(0, ds.len() - 1), name) + find_at(ds[ds.len() - 1], name)
    }
}

/// The blocks named `name` in `d`: `d` itself when it is such a block, and
/// otherwise those in its body.
pub open spec fn find_at(d: DirectiveView, name: Seq<char>) -> Seq<DirectiveView>
    decreases d,
{
    match d {
        DirectiveView::Simple { .. } => seq![],
        DirectiveView::Block { name: n, children, .. } => if n == name {
            seq![d]
        } else {
            find_in(children, name)
        },
    }
}

pub open spec fn refs_view(rs: Seq<&Directive>) -> Seq<DirectiveView> {
    rs.map_values(|d: &Directive| d@)
}

proof fn lemma_refs_view_push(rs: Seq<&Directive>, d: &Directive)
    ensures
        refs_view(rs.push(d)) == refs_view(rs).push(d@),
{
    assert(refs_view(rs.push(d)) =~= refs_view(rs).push(d@));
}

/// Appends to `result` the blocks named `name` in `directives`.
fn find_blocks_recursive<'a>(directives: &'a [Directive], name: &String, result: &mut Vec<&'a Directive>)
    ensures
        refs_view(final(result)@) == refs_view(old(result)@) + find_in(directives_view(directives@), name@),
    decreases directives@,
{
    let ghost start = refs_view(result@);
    let ghost dv = directives_view(directives@);
    proof {
        lemma_directives_view(directives@);
    }
    let mut k: usize = 0;
    while k < directives.len()
        invariant
            k <= directives.len(),
            dv == directives_view(directives@),
            dv.len() == directives.len(),
            forall|j: int| 0 <= j < directives.len() ==> #[trigger] dv[j] == directives@[j]@,
            refs_view(result@) == start + find_in(dv.subrange(0, k as int), name@),
        decreases directives.len() - k,
    {
        let d = &directives[k];
        let ghost before = refs_view(result@);
        match d {
            Directive::Block { name: block_name, children, .. } => {
                if block_name.eq(name) {
                    result.push(d);
                    proof {
                        lemma_refs_view_push(result@.drop_last(), d);
                        assert(result@.drop_last().push(d) == result@);
                        assert(find_at(d@, name@) == seq![d@]);
                    }
                } else {
                    proof {
                        assert(decreases_to!(directives@ => directives@[k as int]));
                        assert(decreases_to!(directives@[k as int] => *children));
                        assert(decreases_to!(*children => children@));
                    }
                    let body = children.as_slice();
                    find_blocks_recursive(body, name, result);
                }
            },
            Directive::Simple { .. } => {},
        }
        proof {
            let next = dv.subrange(0, k + 1);
            assert(next.subrange(0, k as int) =~= dv.subrange(0, k as int));
            assert(refs_view(result@) == before + find_at(dv[k as int], name@));
        }
        k = k + 1;
    }
    proof {
        assert(dv.subrange(0, directives.len() as int) =~= dv);
    }
}

impl NginxConfig {
    /// Every block named `name`, outermost first and in order; the body of
    /// a block that matches is not searched.
    pub fn find_blocks(&self, name: &str) -> (r: Vec<&Directive>)
        ensures
            refs_view(r@) == find_in(directives_view(self.directives@), name@),
    {
        let mut result: Vec<&Directive> = Vec::new();
        let key = String::from_str(name);
        find_blocks_recursive(self.directives.as_slice(), &key, &mut result);
        proof {
            assert(refs_view(Seq::<&Directive>::empty()) + find_in(directives_view(self.directives@), name@)
                =~= find_in(directives_view(self.directives@), name@));
        }
        result
    }

    /// The blocks named `server`.
    pub fn find_server_blocks(&self) -> (r: Vec<&Directive>)
        ensures
            refs_view(r@) == find_in(directives_view(self.directives@), "server"@),
    {
        self.find_blocks("server")
    }

    /// The first block named `http`, if there is one.
    pub fn find_http_block(&self) -> (r: Option<&Directive>)
        ensures
            find_in(directives_view(self.directives@), "http"@).len() == 0 ==> r is None,
            find_in(directives_view(self.directives@), "http"@).len() > 0 ==> (r matches Some(d)
                && d@ == find_in(directives_view(self.directives@), "http"@)[0]),
    {
        let blocks = self.find_blocks("http");
        if blocks.len() == 0 {
            None
        } else {
            proof {
                assert(refs_view(blocks@)[0] == blocks@[0]@);
            }
            Some(blocks[0])
        }
    }

    /// The blocks named `upstream`.
    pub fn find_upstream_blocks(&self) -> (r: Vec<&Directive>)
        ensures
            refs_view(r@) == find_in(directives_view(self.directives@), "upstream"@),
    {
        self.find_blocks("upstream")
    }
}

} // verus!
