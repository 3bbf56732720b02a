//! Pretty-printing of the semantic tree.
//!
//! Renders a subtree back to outline text: a node's content on its own
//! line, indented four spaces per nesting level, bindings as `@name:`
//! prefixes, and a block as its optional binding line followed by its
//! header and children.  The exact output is pinned by the `render`
//! specification; printing builds a string, and the caller decides where it
//! goes.

use vstd::prelude::*;

use vstd::string::StringExecFns;

use crate::node::{children_of, Content, Context, Node, NodeId};

verus! {

/// Four spaces per indentation level.
pub open spec fn indent4(level: int) -> Seq<char>
    decreases level,
{
    if level <= 0 {
        Seq::empty()
    } else {
        indent4(level - 1) + "    "@
    }
}

/// Two spaces per indentation level, as block binding lines use.
pub open spec fn indent2(level: int) -> Seq<char>
    decreases level,
{
    if level <= 0 {
        Seq::empty()
    } else {
        indent2(level - 1) + "  "@
    }
}

/// The text a binding prefix renders to.
pub open spec fn render_binding(binding: Option<String>) -> Seq<char> {
    match binding {
        Some(b) => "@"@ + b@ + ":"@,
        None => Seq::empty(),
    }
}

/// The text a content line renders to.
pub open spec fn render_content(content: Option<Content>) -> Seq<char> {
    match content {
        Some(Content::Content(c)) => c@ + "\n"@,
        Some(Content::Ref(c)) => c@ + "\n"@,
        None => Seq::empty(),
    }
}

/// The text the subtree at `i` renders to at the given indentation level.
pub open spec fn render(arena: Seq<Node>, i: int, level: int) -> Seq<char>
    decreases i, 1int, 0int,
{
    if 0 <= i < arena.len() {
        match arena[i] {
            Node::Document { children } => render_list(arena, children@, 0, level, i),
            Node::Node { binding, content, children } => indent4(level) + render_binding(binding)
                + render_content(content) + render_list(arena, children@, 0, level + 1, i),
            Node::Block { binding, header, children } => (match binding {
                Some(b) => indent2(level) + b@ + ":"@ + "\n"@,
                None => Seq::empty(),
            }) + (if (header as int) < i {
                render(arena, header as int, level)
            } else {
                Seq::empty()
            }) + render_list(arena, children@, 0, level + 1, i),
        }
    } else {
        Seq::empty()
    }
}

/// The children `cs[j..]`, all below the bound `b`, rendered in order.
pub open spec fn render_list(arena: Seq<Node>, cs: Seq<usize>, j: int, level: int, b: int) -> Seq<
    char,
>
    decreases b, 0int, cs.len() - j,
{
    if j < 0 || j >= cs.len() {
        Seq::empty()
    } else if (cs[j] as int) < b {
        render(arena, cs[j] as int, level) + render_list(arena, cs, j + 1, level, b)
    } else {
        Seq::empty()
    }
}

/// A growing print buffer with its current indentation level.
pub struct PrintContext {
    pub level: usize,
    pub out: String,
    pub needs_indent: bool,
}

/// Appends four spaces per indentation level.
pub fn write_indent(out: &mut String, indent_level: usize)
    ensures
        final(out)@ == old(out)@ + indent4(indent_level as int),
{
    let mut k: usize = 0;
    while k < indent_level
        invariant
            k <= indent_level,
            out@ == old(out)@ + indent4(k as int),
        decreases indent_level - k,
    {
        out.append("    ");
        k = k + 1;
    }
}

impl PrintContext {
    /// An empty buffer at the outermost level.
    pub fn new() -> (r: PrintContext)
        ensures
            r.level == 0,
            r.out@ == Seq::<char>::empty(),
            r.needs_indent == false,
    {
        PrintContext { level: 0, out: String::new(), needs_indent: false }
    }

    /// Renders the subtree at `node` into the buffer at the current level.
    #[verifier::rlimit(100)]
    pub fn pretty_print(&mut self, node: NodeId, ctx: &Context)
        requires
            ctx.wf(),
            node < ctx.arena@.len(),
            old(self).level + node <= usize::MAX,
        ensures
            final(self).out@ == old(self).out@ + render(
                ctx.arena@,
                node as int,
                old(self).level as int,
            ),
            final(self).level == old(self).level,
            final(self).needs_indent == old(self).needs_indent,
        decreases node, 1int, 0int,
    {
        proof {
            ctx.lemma_refs_down(node as int);
            let n = ctx.arena@[node as int];
            assert forall|x: int| 0 <= x < children_of(n).len() implies (#[trigger] children_of(n)[
                x
            ] as int) < node by {
                match n {
                    Node::Block { .. } => {
                        assert(crate::node::refs_of(n)[x + 1] == children_of(n)[x]);
                    },
                    _ => {
                        assert(crate::node::refs_of(n)[x] == children_of(n)[x]);
                    },
                }
            }
        }
        let is_block_header: Option<NodeId> = match &ctx.arena[node] {
            Node::Block { header, .. } => Some(*header),
            _ => None,
        };
        match &ctx.arena[node] {
            Node::Document { .. } => {},
            Node::Node { binding, content, .. } => {
                write_indent(&mut self.out, self.level);
                match binding {
                    Some(binding) => {
                        self.out.append("@");
                        self.out.append(binding.as_str());
                        self.out.append(":");
                    },
                    None => {},
                }
                match content {
                    Some(Content::Content(content)) => {
                        self.out.append(content.as_str());
                        self.out.append("\n");
                    },
                    Some(Content::Ref(content)) => {
                        self.out.append(content.as_str());
                        self.out.append("\n");
                    },
                    None => {},
                }
            },
            Node::Block { binding, .. } => {
                match binding {
                    Some(binding) => {
                        let mut k: usize = 0;
                        while k < self.level
                            invariant
                                k <= self.level,
                                self.out@ == old(self).out@ + indent2(k as int),
                                self.level == old(self).level,
                                self.needs_indent == old(self).needs_indent,
                            decreases self.level - k,
                        {
                            self.out.append("  ");
                            k = k + 1;
                        }
                        self.out.append(binding.as_str());
                        self.out.append(":");
                        self.out.append("\n");
                    },
                    None => {},
                }
            },
        }
        match is_block_header {
            Some(header) => {
                proof {
                    assert(crate::node::refs_of(ctx.arena@[node as int])[0] == header);
                }
                self.print_child(header, ctx);
            },
            None => {},
        }
        let is_document = match &ctx.arena[node] {
            Node::Document { .. } => true,
            _ => false,
        };
        let child_level = if is_document {
            self.level
        } else if self.level < usize::MAX {
            self.level + 1
        } else {
            self.level
        };
        let ghost mid = self.out@;
        let cs = ctx.arena[node].children();
        let n_children = cs.len();
        let ghost cseq = children_of(ctx.arena@[node as int]);
        let saved_level = self.level;
        self.level = child_level;
        let mut j: usize = 0;
        while j < n_children
            invariant
                j <= n_children,
                n_children == cseq.len(),
                cseq == children_of(ctx.arena@[node as int]),
                cs@ == cseq,
                ctx.wf(),
                node < ctx.arena@.len(),
                forall|x: int| 0 <= x < cseq.len() ==> (#[trigger] cseq[x] as int) < node,
                self.level == child_level,
                child_level <= saved_level + 1,
                saved_level + node <= usize::MAX,
                self.needs_indent == old(self).needs_indent,
                self.out@ == mid + render_upto(
                    ctx.arena@,
                    cseq,
                    j as int,
                    child_level as int,
                    node as int,
                ),
            decreases n_children - j,
        {
            let c = cs[j];
            self.print_child(c, ctx);
            proof {
                lemma_render_upto_step(ctx.arena@, cseq, j as int, child_level as int, node as int);
            }
            j = j + 1;
        }
        self.level = saved_level;
        proof {
            lemma_render_upto_full(
                ctx.arena@,
                cseq,
                n_children as int,
                child_level as int,
                node as int,
            );
            let a = ctx.arena@;
            let lvl = old(self).level as int;
            let kids = render_list(a, cseq, 0, child_level as int, node as int);
            assert(self.out@ == mid + kids);
            match a[node as int] {
                Node::Document { children } => {
                    assert(mid == old(self).out@);
                    assert(child_level as int == lvl);
                    assert(self.out@ =~= old(self).out@ + render(a, node as int, lvl));
                },
                Node::Node { binding, content, children } => {
                    assert(children@ == cseq);
                    if cseq.len() > 0 {
                        assert((cseq[0] as int) < node);
                        assert(child_level as int == lvl + 1);
                    }
                    assert(mid =~= old(self).out@ + indent4(lvl) + render_binding(binding)
                        + render_content(content));
                    assert(kids =~= render_list(a, children@, 0, lvl + 1, node as int));
                    assert(self.out@ =~= old(self).out@ + render(a, node as int, lvl));
                },
                Node::Block { binding, header, children } => {
                    assert(children@ == cseq);
                    if cseq.len() > 0 {
                        assert((cseq[0] as int) < node);
                        assert(child_level as int == lvl + 1);
                    }
                    assert((header as int) < node as int);
                    assert(mid =~= old(self).out@ + (match binding {
                        Some(b) => indent2(lvl) + b@ + ":"@ + "
"@,
                        None => Seq::<char>::empty(),
                    }) + render(a, header as int, lvl));
                    assert(kids =~= render_list(a, children@, 0, lvl + 1, node as int));
                    assert(self.out@ =~= old(self).out@ + render(a, node as int, lvl));
                },
            }
        }
    }

    /// Recursion helper with the same contract, giving the nested call a
    /// smaller measure.
    fn print_child(&mut self, node: NodeId, ctx: &Context)
        requires
            ctx.wf(),
            node < ctx.arena@.len(),
            old(self).level + node <= usize::MAX,
        ensures
            final(self).out@ == old(self).out@ + render(
                ctx.arena@,
                node as int,
                old(self).level as int,
            ),
            final(self).level == old(self).level,
            final(self).needs_indent == old(self).needs_indent,
        decreases node, 2int, 0int,
    {
        self.pretty_print(node, ctx);
    }

    /// The subtree at `node`, rendered from an empty buffer at the
    /// outermost level.
    pub fn fmt(node: NodeId, context: &Context) -> (r: String)
        requires
            context.wf(),
            node < context.arena@.len(),
        ensures
            r@ == render(context.arena@, node as int, 0),
    {
        let mut pc = PrintContext::new();
        pc.pretty_print(node, context);
        proof {
            assert(pc.out@ =~= render(context.arena@, node as int, 0));
        }
        pc.out
    }
}

/// The first `j` children rendered, accumulated from the front.
pub open spec fn render_upto(arena: Seq<Node>, cs: Seq<usize>, j: int, level: int, b: int) -> Seq<
    char,
>
    decreases j,
{
    if j <= 0 {
        Seq::empty()
    } else {
        render_upto(arena, cs, j - 1, level, b) + (if 0 <= j - 1 < cs.len() && (cs[j - 1] as int)
            < b {
            render(arena, cs[j - 1] as int, level)
        } else {
            Seq::empty()
        })
    }
}

proof fn lemma_render_upto_step(arena: Seq<Node>, cs: Seq<usize>, j: int, level: int, b: int)
    requires
        0 <= j < cs.len(),
        (cs[j] as int) < b,
    ensures
        render_upto(arena, cs, j + 1, level, b) == render_upto(arena, cs, j, level, b) + render(
            arena,
            cs[j] as int,
            level,
        ),
{
}

/// Once every child is below the bound, the running concatenation equals
/// the child-list rendering.
proof fn lemma_render_upto_full(arena: Seq<Node>, cs: Seq<usize>, j: int, level: int, b: int)
    requires
        0 <= j <= cs.len(),
        forall|x: int| 0 <= x < cs.len() ==> (#[trigger] cs[x] as int) < b,
    ensures
        j == cs.len() ==> render_upto(arena, cs, j, level, b) == render_list(
            arena,
            cs,
            0,
            level,
            b,
        ),
    decreases j,
{
    lemma_render_prefix(arena, cs, j, level, b);
}

/// The front-accumulated prefix plus the remaining suffix is the whole
/// child-list rendering.
proof fn lemma_render_prefix(arena: Seq<Node>, cs: Seq<usize>, j: int, level: int, b: int)
    requires
        0 <= j <= cs.len(),
        forall|x: int| 0 <= x < cs.len() ==> (#[trigger] cs[x] as int) < b,
    ensures
        render_list(arena, cs, 0, level, b) == render_upto(arena, cs, j, level, b) + render_list(
            arena,
            cs,
            j,
            level,
            b,
        ),
    decreases j,
{
    if j == 0 {
        assert(render_upto(arena, cs, 0, level, b) + render_list(arena, cs, 0, level, b)
            =~= render_list(arena, cs, 0, level, b));
    } else {
        lemma_render_prefix(arena, cs, j - 1, level, b);
        assert(render_list(arena, cs, j - 1, level, b) == render(arena, cs[j - 1] as int, level)
            + render_list(arena, cs, j, level, b));
        assert(render_upto(arena, cs, j, level, b) + render_list(arena, cs, j, level, b)
            =~= render_upto(arena, cs, j - 1, level, b) + (render(arena, cs[j - 1] as int, level)
            + render_list(arena, cs, j, level, b)));
    }
}

/// What one concrete syntax node prints before its children: bindings and
/// block markers indented, content and references as lines, with the flag
/// saying whether the next content line still needs its indent.
pub open spec fn cst_token(tree: crate::syntax::SyntaxTree, i: int, level: int, flag: bool) -> (
    Seq<char>,
    bool,
) {
    let text = tree.node(i).text@;
    match tree.node(i).kind {
        crate::syntax::SyntaxKind::Binding => (indent4(level) + text, false),
        crate::syntax::SyntaxKind::Content => ((if flag {
            indent4(level)
        } else {
            Seq::empty()
        }) + text + "\n"@, true),
        crate::syntax::SyntaxKind::Ref => ((if flag {
            indent4(level)
        } else {
            Seq::empty()
        }) + text + "\n"@, true),
        crate::syntax::SyntaxKind::BlockHeader => (indent4(level) + "# "@, flag),
        _ => (Seq::empty(), flag),
    }
}

/// The text a concrete syntax subtree prints, walking every node: the
/// node's own token, then its children in order, one level deeper inside a
/// child-list node; the flag threads through the walk.
pub open spec fn cst_render(tree: crate::syntax::SyntaxTree, i: int, level: int, flag: bool) -> (
    Seq<char>,
    bool,
)
    decreases tree.n_nodes() - i, 1int, 0int,
{
    let tok = cst_token(tree, i, level, flag);
    let child_level = if tree.node(i).kind == crate::syntax::SyntaxKind::Children {
        level + 1
    } else {
        level
    };
    let kids = cst_render_upto(
        tree,
        i,
        tree.node(i).children@.len() as int,
        child_level,
        tok.1,
    );
    (tok.0 + kids.0, kids.1)
}

/// The first `j` children of `i` rendered in order, threading the flag.
pub open spec fn cst_render_upto(
    tree: crate::syntax::SyntaxTree,
    i: int,
    j: int,
    level: int,
    flag: bool,
) -> (Seq<char>, bool)
    decreases tree.n_nodes() - i, 0int, j,
{
    if j <= 0 || j > tree.node(i).children@.len() {
        (Seq::empty(), flag)
    } else {
        let pre = cst_render_upto(tree, i, j - 1, level, flag);
        let c = tree.node(i).children@[j - 1] as int;
        if i < c < tree.n_nodes() {
            let this = cst_render(tree, c, level, pre.1);
            (pre.0 + this.0, this.1)
        } else {
            pre
        }
    }
}

/// Prints a concrete syntax tree back as outline text, from its root at
/// the given indentation level, exactly as `cst_render` states it.
pub fn pretty_print(tree: &crate::syntax::SyntaxTree, level: usize) -> (r: String)
    requires
        tree.wf(),
        level + tree.size(0) <= usize::MAX,
    ensures
        r@ == cst_render(*tree, 0, level as int, false).0,
{
    let mut out = String::new();
    let _ = cst_print_at(tree, 0, level, false, &mut out);
    proof {
        assert(out@ =~= Seq::<char>::empty() + cst_render(*tree, 0, level as int, false).0);
    }
    out
}

/// Appends one subtree's text, handing back the threaded flag.
fn cst_print_at(
    tree: &crate::syntax::SyntaxTree,
    i: usize,
    level: usize,
    flag: bool,
    out: &mut String,
) -> (r: bool)
    requires
        tree.wf(),
        tree.is_node(i as int),
        level + tree.size(i as int) <= usize::MAX,
    ensures
        final(out)@ == old(out)@ + cst_render(*tree, i as int, level as int, flag).0,
        r == cst_render(*tree, i as int, level as int, flag).1,
    decreases tree.n_nodes() - i,
{
    proof {
        tree.lemma_node_wf(i as int);
    }
    let k = tree.kind(i);
    let mut f = flag;
    match k {
        crate::syntax::SyntaxKind::Binding => {
            write_indent(out, level);
            out.append(tree.text(i).as_str());
            f = false;
        },
        crate::syntax::SyntaxKind::Content => {
            if f {
                write_indent(out, level);
            }
            out.append(tree.text(i).as_str());
            out.append("\n");
            f = true;
        },
        crate::syntax::SyntaxKind::Ref => {
            if f {
                write_indent(out, level);
            }
            out.append(tree.text(i).as_str());
            out.append("\n");
            f = true;
        },
        crate::syntax::SyntaxKind::BlockHeader => {
            write_indent(out, level);
            out.append("# ");
        },
        _ => {},
    }
    let child_level = if k == crate::syntax::SyntaxKind::Children {
        level + 1
    } else {
        level
    };
    let ghost mid = out@;
    let n = tree.child_count(i);
    let mut j: usize = 0;
    while j < n
        invariant
            j <= n,
            n == tree.node(i as int).children@.len(),
            tree.wf(),
            tree.is_node(i as int),
            level + tree.size(i as int) <= usize::MAX,
            child_level as int == (if tree.node(i as int).kind
                == crate::syntax::SyntaxKind::Children {
                level as int + 1
            } else {
                level as int
            }),
            out@ == mid + cst_render_upto(
                *tree,
                i as int,
                j as int,
                child_level as int,
                cst_token(*tree, i as int, level as int, flag).1,
            ).0,
            f == cst_render_upto(
                *tree,
                i as int,
                j as int,
                child_level as int,
                cst_token(*tree, i as int, level as int, flag).1,
            ).1,
        decreases n - j,
    {
        let c = tree.child(i, j);
        proof {
            tree.lemma_node_wf(i as int);
            tree.lemma_child_in_subtree(i as int, j as int);
            tree.lemma_node_wf(c as int);
        }
        f = cst_print_at(tree, c, child_level, f, out);
        j = j + 1;
    }
    f
}

} // verus!
