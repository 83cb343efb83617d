//! The directive-tree builder: consumes the token stream and assembles
//! a tree of directive nodes, tracking open blocks with an explicit
//! stack.
//!
//! The whole construction is pinned down at the spec level: `step` is
//! the builder's state machine on one token, `build_from` folds it over
//! a token sequence, and `spec_build` runs it from the empty state.
//! `Directive::parse` is proved to realise exactly that fold over
//! `spec_tokens` of its input.

use vstd::prelude::*;

use crate::token_stream::{Lexeme, Token, TokenStream, spec_tokens};

verus! {

/// The mathematical value of a directive node: its name, its arguments
/// in source order, and its children in source order.
#[verifier::ext_equal]
pub struct DirTree {
    pub name: Seq<char>,
    pub args: Seq<Seq<char>>,
    pub children: Seq<DirTree>,
}

/// One directive node: a name, the argument words that followed it, and
/// the directives nested inside its block, each exclusively owned by
/// its parent.
#[derive(PartialEq, Eq, Debug)]
pub struct Directive<'a> {
    pub name: &'a str,
    pub args: Vec<&'a str>,
    pub directives: Vec<Directive<'a>>,
}

/// The views of a sequence of words.
pub open spec fn words(v: Seq<&str>) -> Seq<Seq<char>> {
    Seq::new(v.len(), |i: int| v[i]@)
}

impl<'a> Directive<'a> {
    /// The mathematical tree this node stands for.
    pub open spec fn tree(self) -> DirTree
        decreases self,
    {
        DirTree {
            name: self.name@,
            args: words(self.args@),
            children: Seq::new(
                self.directives@.len(),
                |i: int|
                    if 0 <= i < self.directives@.len() {
                        self.directives@[i].tree()
                    } else {
                        DirTree { name: Seq::empty(), args: Seq::empty(), children: Seq::empty() }
                    },
            ),
        }
    }
}

/// The views of a sequence of directive nodes.
pub open spec fn forest(v: Seq<Directive>) -> Seq<DirTree> {
    Seq::new(v.len(), |i: int| v[i].tree())
}

/// The builder's state: the argument words accumulated since the last
/// terminator, the stack of open blocks (outermost first), and the
/// finished top-level nodes in source order.
#[verifier::ext_equal]
pub struct BuildState {
    pub args: Seq<Seq<char>>,
    pub blocks: Seq<DirTree>,
    pub out: Seq<DirTree>,
}

/// The state the builder starts from: nothing pending, no open block,
/// nothing finalized.
pub open spec fn init_state() -> BuildState {
    BuildState { args: Seq::empty(), blocks: Seq::empty(), out: Seq::empty() }
}

/// Attaches a finalized node as the last child of the innermost open
/// block, or as the next finished top-level node when no block is open.
pub open spec fn attach(st: BuildState, d: DirTree) -> BuildState {
    if st.blocks.len() > 0 {
        let k = st.blocks.len() - 1;
        let b = st.blocks[k];
        BuildState {
            args: st.args,
            blocks: st.blocks.update(
                k,
                DirTree { name: b.name, args: b.args, children: b.children.push(d) },
            ),
            out: st.out,
        }
    } else {
        BuildState { args: st.args, blocks: st.blocks, out: st.out.push(d) }
    }
}

/// A node made of the accumulated words: the first word is the name,
/// the rest are the arguments.
pub open spec fn node_of(args: Seq<Seq<char>>, children: Seq<DirTree>) -> DirTree {
    DirTree { name: args[0], args: args.subrange(1, args.len() as int), children }
}

/// The builder's transition on one token. `None` is the one fatal
/// outcome: a `}` with no open block. Every other malformed shape is
/// absorbed: an empty accumulator at `;` or `{` and stray words before
/// `}` or a line end are discarded and parsing goes on.
pub open spec fn step(st: BuildState, t: Lexeme) -> Option<BuildState> {
    match t {
        Lexeme::Val(w) => Some(
            BuildState { args: st.args.push(w), blocks: st.blocks, out: st.out },
        ),
        Lexeme::DirectiveEntire => Some(
            if st.args.len() > 0 {
                attach(
                    BuildState { args: Seq::empty(), blocks: st.blocks, out: st.out },
                    node_of(st.args, Seq::empty()),
                )
            } else {
                st
            },
        ),
        Lexeme::DirectiveBlockStart => Some(
            if st.args.len() > 0 {
                BuildState {
                    args: Seq::empty(),
                    blocks: st.blocks.push(node_of(st.args, Seq::empty())),
                    out: st.out,
                }
            } else {
                st
            },
        ),
        Lexeme::DirectiveBlockEnd => if st.blocks.len() > 0 {
            let k = st.blocks.len() - 1;
            Some(
                attach(
                    BuildState { args: Seq::empty(), blocks: st.blocks.subrange(0, k), out: st.out },
                    st.blocks[k],
                ),
            )
        } else {
            None
        },
        Lexeme::LineEnd => Some(
            BuildState { args: Seq::empty(), blocks: st.blocks, out: st.out },
        ),
        Lexeme::EOF => Some(st),
    }
}

/// How a full run of the builder ends: `Finished` with the top-level
/// nodes when every token was consumed, `Unbalanced` with whatever was
/// finalized before a `}` arrived with no open block.
pub enum BuildOutcome {
    Finished(Seq<DirTree>),
    Unbalanced(Seq<DirTree>),
}

/// Folds the builder over a token sequence from a given state. Open
/// blocks and pending words left at the end are dropped, never
/// finalized.
pub open spec fn build_from(st: BuildState, toks: Seq<Lexeme>) -> BuildOutcome
    decreases toks.len(),
{
    if toks.len() == 0 {
        BuildOutcome::Finished(st.out)
    } else {
        match step(st, toks[0]) {
            Some(st2) => build_from(st2, toks.subrange(1, toks.len() as int)),
            None => BuildOutcome::Unbalanced(st.out),
        }
    }
}

/// The tree that a token sequence builds, starting from nothing.
pub open spec fn spec_build(toks: Seq<Lexeme>) -> BuildOutcome {
    build_from(init_state(), toks)
}

/// The finished top-level nodes of an outcome, however the run ended.
pub open spec fn outcome_roots(o: BuildOutcome) -> Seq<DirTree> {
    match o {
        BuildOutcome::Finished(roots) => roots,
        BuildOutcome::Unbalanced(roots) => roots,
    }
}

/// Pushing a word onto a sequence of words pushes its view.
pub proof fn lemma_words_push(v: Seq<&str>, s: &str)
    ensures
        words(v.push(s)) == words(v).push(s@),
{
    assert(words(v.push(s)) =~= words(v).push(s@));
}

/// Removing the first word removes the first view.
pub proof fn lemma_words_remove_first(v: Seq<&str>)
    requires
        v.len() > 0,
    ensures
        words(v.remove(0)) == words(v).subrange(1, words(v).len() as int),
{
    assert(words(v.remove(0)) =~= words(v).subrange(1, words(v).len() as int));
}

/// Pushing a node onto a forest pushes its tree.
pub proof fn lemma_forest_push<'a>(v: Seq<Directive<'a>>, d: Directive<'a>)
    ensures
        forest(v.push(d)) == forest(v).push(d.tree()),
{
    assert(forest(v.push(d)) =~= forest(v).push(d.tree()));
}

/// Attaches a finalized node as the last child of the innermost open
/// block, or to the finished top-level nodes when no block is open;
/// the exec counterpart of `attach`.
fn attach_node<'a>(blocks: &mut Vec<Directive<'a>>, out: &mut Vec<Directive<'a>>, d: Directive<'a>)
    ensures
        ({
            let st = BuildState {
                args: Seq::empty(),
                blocks: forest(old(blocks)@),
                out: forest(old(out)@),
            };
            attach(st, d.tree()) == (BuildState {
                args: Seq::empty(),
                blocks: forest(final(blocks)@),
                out: forest(final(out)@),
            })
        }),
{
    let ghost d_tree = d.tree();
    let ghost blocks0 = blocks@;
    match blocks.pop() {
        Some(parent) => {
            let mut parent = parent;
            parent.directives.push(d);
            proof {
                let b = forest(blocks0)[blocks0.len() - 1];
                assert(parent.tree().children =~= b.children.push(d_tree));
                assert(parent.tree() =~= DirTree {
                    name: b.name,
                    args: b.args,
                    children: b.children.push(d_tree),
                });
            }
            blocks.push(parent);
            proof {
                let k = blocks0.len() - 1;
                let b = forest(blocks0)[k];
                assert(forest(blocks@) =~= forest(blocks0).update(
                    k,
                    DirTree { name: b.name, args: b.args, children: b.children.push(d_tree) },
                ));
            }
        },
        None => {
            out.push(d);
            proof {
                lemma_forest_push(old(out)@, d);
            }
        },
    }
}

/// Token sequences made only of words and `;` terminators, where every
/// terminator is preceded by at least one word since the last one.
/// `pending` is the number of words accumulated so far.
pub open spec fn simple_directives(toks: Seq<Lexeme>, pending: nat) -> bool
    decreases toks.len(),
{
    if toks.len() == 0 {
        true
    } else {
        match toks[0] {
            Lexeme::Val(w) => simple_directives(toks.subrange(1, toks.len() as int), pending + 1),
            Lexeme::DirectiveEntire => pending > 0 && simple_directives(
                toks.subrange(1, toks.len() as int),
                0,
            ),
            _ => false,
        }
    }
}

/// How many `;` terminators a token sequence holds.
pub open spec fn count_terminators(toks: Seq<Lexeme>) -> nat
    decreases toks.len(),
{
    if toks.len() == 0 {
        0
    } else {
        (if toks[0] is DirectiveEntire {
            1nat
        } else {
            0nat
        }) + count_terminators(toks.subrange(1, toks.len() as int))
    }
}

/// The nodes that a run of single-line directives denotes, one per
/// `;`, in source order; `acc` is the words accumulated so far.
pub open spec fn simple_forest(toks: Seq<Lexeme>, acc: Seq<Seq<char>>) -> Seq<DirTree>
    decreases toks.len(),
{
    if toks.len() == 0 {
        Seq::empty()
    } else {
        let rest = toks.subrange(1, toks.len() as int);
        match toks[0] {
            Lexeme::Val(w) => simple_forest(rest, acc.push(w)),
            Lexeme::DirectiveEntire => seq![node_of(acc, Seq::empty())] + simple_forest(
                rest,
                Seq::empty(),
            ),
            _ => Seq::empty(),
        }
    }
}

proof fn lemma_simple_directives_from(st: BuildState, toks: Seq<Lexeme>)
    requires
        simple_directives(toks, st.args.len()),
        st.blocks.len() == 0,
    ensures
        build_from(st, toks) == BuildOutcome::Finished(st.out + simple_forest(toks, st.args)),
        simple_forest(toks, st.args).len() == count_terminators(toks),
    decreases toks.len(),
{
    if toks.len() == 0 {
        assert(st.out + simple_forest(toks, st.args) =~= st.out);
    } else {
        let rest = toks.subrange(1, toks.len() as int);
        match toks[0] {
            Lexeme::Val(w) => {
                let st2 = BuildState { args: st.args.push(w), blocks: st.blocks, out: st.out };
                lemma_simple_directives_from(st2, rest);
            },
            Lexeme::DirectiveEntire => {
                let node = node_of(st.args, Seq::empty());
                let st2 = attach(
                    BuildState { args: Seq::empty(), blocks: st.blocks, out: st.out },
                    node,
                );
                lemma_simple_directives_from(st2, rest);
                assert(st.out.push(node) + simple_forest(rest, Seq::empty()) =~= st.out + (seq![
                    node,
                ] + simple_forest(rest, Seq::empty())));
            },
            _ => {},
        }
    }
}

/// For any well-formed input made only of single-line directives, the
/// build finishes and the root gains exactly one child per
/// `;`-terminated statement, in source order: the children are
/// precisely the nodes the statements denote.
pub proof fn lemma_single_line_directive_count(toks: Seq<Lexeme>)
    requires
        simple_directives(toks, 0),
    ensures
        spec_build(toks) == BuildOutcome::Finished(simple_forest(toks, Seq::empty())),
        outcome_roots(spec_build(toks)).len() == count_terminators(toks),
{
    lemma_simple_directives_from(init_state(), toks);
    assert(Seq::<DirTree>::empty() + simple_forest(toks, Seq::empty()) =~= simple_forest(
        toks,
        Seq::empty(),
    ));
}

/// One `Val` token per word.
pub open spec fn val_tokens(ws: Seq<Seq<char>>) -> Seq<Lexeme> {
    ws.map_values(|w: Seq<char>| Lexeme::Val(w))
}

/// The words that introduce a directive: its name, then its arguments.
pub open spec fn header_tokens(t: DirTree) -> Seq<Lexeme> {
    seq![Lexeme::Val(t.name)] + val_tokens(t.args)
}

/// The canonical token sequence of one directive: `name args... ;` for
/// a childless node, `name args... { children } ` for a block.
pub open spec fn toks_of_tree(t: DirTree) -> Seq<Lexeme>
    decreases t,
{
    if t.children.len() == 0 {
        header_tokens(t) + seq![Lexeme::DirectiveEntire]
    } else {
        header_tokens(t) + seq![Lexeme::DirectiveBlockStart] + toks_of_forest(t.children)
            + seq![Lexeme::DirectiveBlockEnd]
    }
}

/// The canonical token sequence of a forest, in order.
pub open spec fn toks_of_forest(f: Seq<DirTree>) -> Seq<Lexeme>
    decreases f,
{
    if f.len() == 0 {
        Seq::empty()
    } else {
        toks_of_tree(f[0]) + toks_of_forest(f.subrange(1, f.len() as int))
    }
}

/// Attaches each node of `f` in order.
pub open spec fn attach_all(st: BuildState, f: Seq<DirTree>) -> BuildState
    decreases f.len(),
{
    if f.len() == 0 {
        st
    } else {
        attach_all(attach(st, f[0]), f.subrange(1, f.len() as int))
    }
}

proof fn lemma_build_vals(st: BuildState, ws: Seq<Seq<char>>, rest: Seq<Lexeme>)
    ensures
        build_from(st, val_tokens(ws) + rest) == build_from(
            BuildState { args: st.args + ws, blocks: st.blocks, out: st.out },
            rest,
        ),
    decreases ws.len(),
{
    if ws.len() == 0 {
        assert(val_tokens(ws) + rest =~= rest);
        assert(st.args + ws =~= st.args);
        assert(BuildState { args: st.args + ws, blocks: st.blocks, out: st.out } =~= st);
    } else {
        let toks = val_tokens(ws) + rest;
        let tail = ws.subrange(1, ws.len() as int);
        assert(toks[0] == Lexeme::Val(ws[0]));
        let st2 = BuildState { args: st.args.push(ws[0]), blocks: st.blocks, out: st.out };
        assert(toks.subrange(1, toks.len() as int) =~= val_tokens(tail) + rest);
        lemma_build_vals(st2, tail, rest);
        assert(st2.args + tail =~= st.args + ws);
        assert(BuildState { args: st2.args + tail, blocks: st.blocks, out: st.out } =~= BuildState {
            args: st.args + ws,
            blocks: st.blocks,
            out: st.out,
        });
    }
}

proof fn lemma_attach_all_root(st: BuildState, f: Seq<DirTree>)
    requires
        st.blocks.len() == 0,
    ensures
        attach_all(st, f) == (BuildState { args: st.args, blocks: st.blocks, out: st.out + f }),
    decreases f.len(),
{
    if f.len() == 0 {
        assert(st.out + f =~= st.out);
        assert(BuildState { args: st.args, blocks: st.blocks, out: st.out + f } =~= st);
    } else {
        let st2 = attach(st, f[0]);
        lemma_attach_all_root(st2, f.subrange(1, f.len() as int));
        assert(st.out.push(f[0]) + f.subrange(1, f.len() as int) =~= st.out + f);
        assert(attach_all(st, f) =~= BuildState {
            args: st.args,
            blocks: st.blocks,
            out: st.out + f,
        });
    }
}

proof fn lemma_attach_all_block(st: BuildState, f: Seq<DirTree>)
    requires
        st.blocks.len() > 0,
    ensures
        ({
            let k = st.blocks.len() - 1;
            let b = st.blocks[k];
            attach_all(st, f) == (BuildState {
                args: st.args,
                blocks: st.blocks.update(
                    k,
                    DirTree { name: b.name, args: b.args, children: b.children + f },
                ),
                out: st.out,
            })
        }),
    decreases f.len(),
{
    let k = st.blocks.len() - 1;
    let b = st.blocks[k];
    if f.len() == 0 {
        assert(b.children + f =~= b.children);
        assert(DirTree { name: b.name, args: b.args, children: b.children + f } =~= b);
        assert(st.blocks.update(k, b) =~= st.blocks);
        assert(attach_all(st, f) =~= BuildState {
            args: st.args,
            blocks: st.blocks.update(
                k,
                DirTree { name: b.name, args: b.args, children: b.children + f },
            ),
            out: st.out,
        });
    } else {
        let st2 = attach(st, f[0]);
        lemma_attach_all_block(st2, f.subrange(1, f.len() as int));
        let b2 = DirTree { name: b.name, args: b.args, children: b.children.push(f[0]) };
        assert(st2.blocks[k] == b2);
        assert(b2.children + f.subrange(1, f.len() as int) =~= b.children + f);
        assert(st2.blocks.update(
            k,
            DirTree { name: b.name, args: b.args, children: b.children + f },
        ) =~= st.blocks.update(
            k,
            DirTree { name: b.name, args: b.args, children: b.children + f },
        ));
        assert(attach_all(st, f) =~= BuildState {
            args: st.args,
            blocks: st.blocks.update(
                k,
                DirTree { name: b.name, args: b.args, children: b.children + f },
            ),
            out: st.out,
        });
    }
}

proof fn lemma_build_append_tree(st: BuildState, t: DirTree, rest: Seq<Lexeme>)
    requires
        st.args.len() == 0,
    ensures
        build_from(st, toks_of_tree(t) + rest) == build_from(attach(st, t), rest),
    decreases t,
{
    let header = seq![t.name] + t.args;
    if t.children.len() == 0 {
        let after = seq![Lexeme::DirectiveEntire] + rest;
        assert(val_tokens(header) =~= header_tokens(t));
        assert(toks_of_tree(t) + rest =~= val_tokens(header) + after);
        lemma_build_vals(st, header, after);
        let stv = BuildState { args: st.args + header, blocks: st.blocks, out: st.out };
        assert(stv.args =~= header);
        assert(after[0] == Lexeme::DirectiveEntire);
        assert(stv.args.len() > 0);
        let node = node_of(stv.args, Seq::<DirTree>::empty());
        assert(stv.args == header);
        assert(header[0] == t.name);
        assert(node.args =~= t.args);
        assert(node.children =~= t.children);
        assert(node =~~= t);
        assert(after.subrange(1, after.len() as int) =~= rest);
        assert(BuildState { args: Seq::empty(), blocks: stv.blocks, out: stv.out } =~= st);
    } else {
        let body = toks_of_forest(t.children);
        let after = seq![Lexeme::DirectiveBlockStart] + (body + (seq![
            Lexeme::DirectiveBlockEnd,
        ] + rest));
        assert(val_tokens(header) =~= header_tokens(t));
        assert(toks_of_tree(t) + rest =~= val_tokens(header) + after);
        lemma_build_vals(st, header, after);
        let stv = BuildState { args: st.args + header, blocks: st.blocks, out: st.out };
        assert(stv.args =~= header);
        assert(after[0] == Lexeme::DirectiveBlockStart);
        assert(stv.args.len() > 0);
        let b0 = node_of(stv.args, Seq::<DirTree>::empty());
        assert(b0.name == t.name);
        assert(b0.args =~= t.args);
        let st2 = BuildState {
            args: Seq::empty(),
            blocks: stv.blocks.push(b0),
            out: stv.out,
        };
        assert(after.subrange(1, after.len() as int) =~= body + (seq![
            Lexeme::DirectiveBlockEnd,
        ] + rest));
        lemma_build_append_forest(st2, t.children, seq![Lexeme::DirectiveBlockEnd] + rest);
        lemma_attach_all_block(st2, t.children);
        let k = st2.blocks.len() - 1;
        let st4 = attach_all(st2, t.children);
        assert(b0.children + t.children =~= t.children);
        assert(DirTree { name: b0.name, args: b0.args, children: b0.children + t.children } =~= t);
        assert(st4.blocks =~= st.blocks.push(t));
        let closing = seq![Lexeme::DirectiveBlockEnd] + rest;
        assert(closing[0] == Lexeme::DirectiveBlockEnd);
        assert(st4.blocks.len() > 0);
        let m = st4.blocks.len() - 1;
        assert(st4.blocks.subrange(0, m) =~= st.blocks);
        assert(st4.blocks[m] == t);
        assert(closing.subrange(1, closing.len() as int) =~= rest);
        assert(BuildState { args: Seq::empty(), blocks: st.blocks, out: st4.out } =~= st);
    }
}

proof fn lemma_build_append_forest(st: BuildState, f: Seq<DirTree>, rest: Seq<Lexeme>)
    requires
        st.args.len() == 0,
    ensures
        build_from(st, toks_of_forest(f) + rest) == build_from(attach_all(st, f), rest),
    decreases f,
{
    if f.len() == 0 {
        assert(toks_of_forest(f) + rest =~= rest);
    } else {
        let tail = f.subrange(1, f.len() as int);
        assert(toks_of_forest(f) + rest =~= toks_of_tree(f[0]) + (toks_of_forest(tail) + rest));
        lemma_build_append_tree(st, f[0], toks_of_forest(tail) + rest);
        lemma_build_append_forest(attach(st, f[0]), tail, rest);
    }
}

/// Structure round-trips: building the canonical token sequence of any
/// forest finishes and yields exactly that forest, so every block
/// node's name, arguments and children match the words that introduced
/// it in the source.
pub proof fn lemma_structure_round_trip(f: Seq<DirTree>)
    ensures
        spec_build(toks_of_forest(f)) == BuildOutcome::Finished(f),
{
    lemma_build_append_forest(init_state(), f, Seq::empty());
    assert(toks_of_forest(f) + Seq::<Lexeme>::empty() =~= toks_of_forest(f));
    lemma_attach_all_root(init_state(), f);
    assert(Seq::<DirTree>::empty() + f =~= f);
}

/// The larger of two depths.
pub open spec fn deeper(a: nat, b: nat) -> nat {
    if a >= b {
        a
    } else {
        b
    }
}

/// How many block levels a tree nests: zero for a childless node, one
/// more than its children's forest for a block.
pub open spec fn tree_depth(t: DirTree) -> nat
    decreases t,
{
    if t.children.len() == 0 {
        0
    } else {
        1 + forest_depth(t.children)
    }
}

/// The deepest nesting among the trees of a forest.
pub open spec fn forest_depth(f: Seq<DirTree>) -> nat
    decreases f,
{
    if f.len() == 0 {
        0
    } else {
        deeper(tree_depth(f[0]), forest_depth(f.subrange(1, f.len() as int)))
    }
}

/// The deepest brace nesting a token sequence reaches, starting from
/// depth `d`: `{` goes one level down, `}` one level up.
pub open spec fn peak_nesting(toks: Seq<Lexeme>, d: int) -> int
    decreases toks.len(),
{
    if toks.len() == 0 {
        d
    } else {
        let d2 = match toks[0] {
            Lexeme::DirectiveBlockStart => d + 1,
            Lexeme::DirectiveBlockEnd => d - 1,
            _ => d,
        };
        let rest_peak = peak_nesting(toks.subrange(1, toks.len() as int), d2);
        if d >= rest_peak {
            d
        } else {
            rest_peak
        }
    }
}

proof fn lemma_peak_ge(toks: Seq<Lexeme>, d: int)
    ensures
        peak_nesting(toks, d) >= d,
    decreases toks.len(),
{
    if toks.len() > 0 {
        let d2 = match toks[0] {
            Lexeme::DirectiveBlockStart => d + 1,
            Lexeme::DirectiveBlockEnd => d - 1,
            _ => d,
        };
        lemma_peak_ge(toks.subrange(1, toks.len() as int), d2);
    }
}

proof fn lemma_peak_vals(ws: Seq<Seq<char>>, rest: Seq<Lexeme>, d: int)
    ensures
        peak_nesting(val_tokens(ws) + rest, d) == peak_nesting(rest, d),
    decreases ws.len(),
{
    lemma_peak_ge(rest, d);
    if ws.len() == 0 {
        assert(val_tokens(ws) + rest =~= rest);
    } else {
        let toks = val_tokens(ws) + rest;
        let tail = ws.subrange(1, ws.len() as int);
        assert(toks[0] == Lexeme::Val(ws[0]));
        assert(toks.subrange(1, toks.len() as int) =~= val_tokens(tail) + rest);
        lemma_peak_vals(tail, rest, d);
    }
}

proof fn lemma_peak_tree(t: DirTree, rest: Seq<Lexeme>, d: int)
    ensures
        peak_nesting(toks_of_tree(t) + rest, d) == (if d + tree_depth(t) >= peak_nesting(rest, d) {
            d + tree_depth(t)
        } else {
            peak_nesting(rest, d)
        }),
    decreases t,
{
    let header = seq![t.name] + t.args;
    lemma_peak_ge(rest, d);
    if t.children.len() == 0 {
        let after = seq![Lexeme::DirectiveEntire] + rest;
        assert(val_tokens(header) =~= header_tokens(t));
        assert(toks_of_tree(t) + rest =~= val_tokens(header) + after);
        lemma_peak_vals(header, after, d);
        assert(after[0] == Lexeme::DirectiveEntire);
        assert(after.subrange(1, after.len() as int) =~= rest);
    } else {
        let body = toks_of_forest(t.children);
        let closing = seq![Lexeme::DirectiveBlockEnd] + rest;
        let after = seq![Lexeme::DirectiveBlockStart] + (body + closing);
        assert(val_tokens(header) =~= header_tokens(t));
        assert(toks_of_tree(t) + rest =~= val_tokens(header) + after);
        lemma_peak_vals(header, after, d);
        assert(after[0] == Lexeme::DirectiveBlockStart);
        assert(after.subrange(1, after.len() as int) =~= body + closing);
        lemma_peak_forest(t.children, closing, d + 1);
        assert(closing[0] == Lexeme::DirectiveBlockEnd);
        assert(closing.subrange(1, closing.len() as int) =~= rest);
    }
}

proof fn lemma_peak_forest(f: Seq<DirTree>, rest: Seq<Lexeme>, d: int)
    ensures
        peak_nesting(toks_of_forest(f) + rest, d) == (if d + forest_depth(f) >= peak_nesting(
            rest,
            d,
        ) {
            d + forest_depth(f)
        } else {
            peak_nesting(rest, d)
        }),
    decreases f,
{
    lemma_peak_ge(rest, d);
    if f.len() == 0 {
        assert(toks_of_forest(f) + rest =~= rest);
    } else {
        let tail = f.subrange(1, f.len() as int);
        assert(toks_of_forest(f) + rest =~= toks_of_tree(f[0]) + (toks_of_forest(tail) + rest));
        lemma_peak_tree(f[0], toks_of_forest(tail) + rest, d);
        lemma_peak_forest(tail, rest, d);
    }
}

/// Depth round-trips: the canonical token sequence of a forest reaches
/// a brace nesting depth equal to the forest's tree depth, so for
/// well-formed nested blocks tree depth equals source brace nesting
/// depth.
pub proof fn lemma_depth_matches_nesting(f: Seq<DirTree>)
    ensures
        peak_nesting(toks_of_forest(f), 0) == forest_depth(f),
{
    lemma_peak_forest(f, Seq::empty(), 0);
    assert(toks_of_forest(f) + Seq::<Lexeme>::empty() =~= toks_of_forest(f));
}

/// The one unrecoverable parse failure: a `}` with no matching open
/// block.
#[derive(Clone, Copy, PartialEq, Eq, Debug)]
pub enum ParseError {
    UnbalancedBlock,
}

impl<'a> Directive<'a> {
    /// A fresh node with the given name and no arguments or children.
    pub fn new(name: &'a str) -> (d: Directive<'a>)
        ensures
            d.tree() == (DirTree { name: name@, args: Seq::<Seq<char>>::empty(), children: Seq::<
                DirTree,
            >::empty() }),
    {
        let d = Directive { name, args: Vec::new(), directives: Vec::new() };
        proof {
            assert(d.args@ == Seq::<&str>::empty());
            assert(d.tree().name == name@);
            assert(d.tree().args =~= Seq::<Seq<char>>::empty());
            assert(d.tree().children =~= Seq::<DirTree>::empty());
            assert(d.tree() =~~= DirTree {
                name: name@,
                args: Seq::<Seq<char>>::empty(),
                children: Seq::<DirTree>::empty(),
            });
        }
        d
    }

    /// Parses `buf` and appends every top-level directive it finalizes
    /// to this node's children, in source order. Returns `Ok` exactly
    /// when the builder consumes the whole token sequence, and the
    /// unbalanced-block error exactly when a `}` arrives with no open
    /// block; in both cases the children appended are the finished
    /// nodes of `spec_build`.
    pub fn parse(&mut self, buf: &'a str) -> (r: Result<(), ParseError>)
        ensures
            final(self).tree().name == old(self).tree().name,
            final(self).tree().args == old(self).tree().args,
            ({
                let outcome = spec_build(spec_tokens(buf@, 0));
                let added = final(self).tree().children == old(self).tree().children
                    + outcome_roots(outcome);
                match outcome {
                    BuildOutcome::Finished(roots) => r == Ok::<(), ParseError>(()) && added,
                    BuildOutcome::Unbalanced(roots) => r == Err::<(), ParseError>(
                        ParseError::UnbalancedBlock,
                    ) && added,
                }
            }),
    {
        let ghost all = spec_tokens(buf@, 0);
        let mut stream = TokenStream::new(buf);
        let mut blocks: Vec<Directive<'a>> = Vec::new();
        let mut args: Vec<&'a str> = Vec::new();
        let mut out: Vec<Directive<'a>> = Vec::new();
        let mut failed = false;
        let mut done = false;
        proof {
            assert(words(args@) =~= Seq::<Seq<char>>::empty());
            assert(forest(blocks@) =~= Seq::<DirTree>::empty());
            assert(forest(out@) =~= Seq::<DirTree>::empty());
        }
        while !done
            invariant
                stream.wf(),
                stream.text() == buf@,
                all == spec_tokens(buf@, 0),
                !done ==> !failed,
                !done ==> spec_build(all) == build_from(
                    BuildState { args: words(args@), blocks: forest(blocks@), out: forest(out@) },
                    spec_tokens(buf@, stream.cursor()),
                ),
                done && !failed ==> spec_build(all) == BuildOutcome::Finished(forest(out@)),
                done && failed ==> spec_build(all) == BuildOutcome::Unbalanced(forest(out@)),
            decreases buf@.len() - stream.cursor() + (if done {
                0int
            } else {
                1int
            }),
        {
            let ghost cursor0 = stream.cursor();
            let ghost rem = spec_tokens(buf@, cursor0);
            let ghost st0 = BuildState {
                args: words(args@),
                blocks: forest(blocks@),
                out: forest(out@),
            };
            proof {
                crate::token_stream::lemma_wf_cursor(stream);
            }
            let t = stream.next_token();
            proof {
                crate::token_stream::lemma_scan_bounds(buf@, cursor0, None, false);
                if !(t@ is EOF) {
                    assert(rem == seq![t@] + spec_tokens(buf@, stream.cursor()));
                    assert(rem[0] == t@);
                    assert(rem.subrange(1, rem.len() as int) =~= spec_tokens(
                        buf@,
                        stream.cursor(),
                    ));
                }
            }
            match t {
                Token::Val(v) => {
                    let ghost a0 = args@;
                    args.push(v);
                    proof {
                        lemma_words_push(a0, v);
                        assert(words(args@) == st0.args.push(v@));
                    }
                },
                Token::DirectiveEntire => {
                    if args.len() > 0 {
                        let ghost a0 = args@;
                        let mut rest = args;
                        args = Vec::new();
                        let name = rest.remove(0);
                        let d = Directive { name, args: rest, directives: Vec::new() };
                        proof {
                            lemma_words_remove_first(a0);
                            assert(words(args@) =~= Seq::<Seq<char>>::empty());
                            assert(d.tree().children =~= Seq::<DirTree>::empty());
                            assert(d.tree() =~= node_of(st0.args, Seq::<DirTree>::empty()));
                        }
                        attach_node(&mut blocks, &mut out, d);
                    }
                },
                Token::DirectiveBlockStart => {
                    if args.len() > 0 {
                        let ghost a0 = args@;
                        let ghost b0 = blocks@;
                        let mut rest = args;
                        args = Vec::new();
                        let name = rest.remove(0);
                        let d = Directive { name, args: rest, directives: Vec::new() };
                        proof {
                            lemma_words_remove_first(a0);
                            assert(words(args@) =~= Seq::<Seq<char>>::empty());
                            assert(d.tree().children =~= Seq::<DirTree>::empty());
                            assert(d.tree() =~= node_of(st0.args, Seq::<DirTree>::empty()));
                            lemma_forest_push(b0, d);
                        }
                        blocks.push(d);
                    }
                },
                Token::DirectiveBlockEnd => {
                    if args.len() > 0 {
                        args.clear();
                    }
                    proof {
                        assert(words(args@) =~= Seq::<Seq<char>>::empty());
                    }
                    match blocks.pop() {
                        Some(d) => {
                            proof {
                                assert(forest(blocks@) =~= st0.blocks.subrange(
                                    0,
                                    st0.blocks.len() - 1,
                                ));
                                assert(d.tree() == st0.blocks[st0.blocks.len() - 1]);
                            }
                            attach_node(&mut blocks, &mut out, d);
                        },
                        None => {
                            failed = true;
                            done = true;
                        },
                    }
                },
                Token::LineEnd => {
                    if args.len() > 0 {
                        args.clear();
                    }
                    proof {
                        assert(words(args@) =~= Seq::<Seq<char>>::empty());
                    }
                },
                Token::EOF => {
                    done = true;
                },
            }
        }
        let ghost roots = forest(out@);
        while out.len() > 0
            invariant
                forest(self.directives@) + forest(out@) == forest(old(self).directives@) + roots,
                self.name@ == old(self).name@,
                self.args@ == old(self).args@,
            decreases out@.len(),
        {
            let ghost dd0 = self.directives@;
            let ghost o0 = out@;
            let d = out.remove(0);
            self.directives.push(d);
            proof {
                lemma_forest_push(dd0, d);
                assert(forest(out@) =~= forest(o0).subrange(1, forest(o0).len() as int));
                assert(forest(self.directives@) + forest(out@) =~= forest(dd0) + forest(o0));
            }
        }
        proof {
            assert(old(self).tree().children =~= forest(old(self).directives@));
            assert(self.tree().children =~= forest(self.directives@));
            assert(forest(out@) =~= Seq::<DirTree>::empty());
            assert(self.tree().children =~= old(self).tree().children + roots);
            assert(self.tree().args =~= old(self).tree().args);
        }
        if failed {
            Err(ParseError::UnbalancedBlock)
        } else {
            Ok(())
        }
    }
}

} // verus!
