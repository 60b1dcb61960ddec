//! Syntax tree to bytecode.

use vstd::prelude::*;
use super::ast::{all_chars, clone_class, same_class, text_of, text_tree, Cond, Node};
use super::encoding::Encoding;
use super::exec::classes::lemma_same_class_spec;
use super::exec::plain::{char_at_spec, char_step, chars_step, first_end, plain_inst, plain_program};
use super::meaning::{
    alt_chain, alt_code, alt_from, chars_code, chars_then, code_means, fe_k, holds_code,
    lemma_alt_chain_extend, lemma_alt_chain_last, lemma_concat_last, lemma_concat_step,
    lemma_lit_step_chars, lemma_node_end_same_rest, node_end, plain_node, plain_nodes,
    plain_range, program_means, seq_code, seq_upto, accept,
};
use super::opcode::{inst_forward, CondTest, Inst, Program};
use super::parse::ParseResult;
use super::syntax::Options;
use super::unicode::UserProperty;

verus! {

/// The characters an instruction matches one after another, when it is a
/// character or a literal.
pub open spec fn lit_inst_text(i: Inst) -> Option<Seq<u32>> {
    match i {
        Inst::Char(c) => Some(seq![c]),
        Inst::Literal(w) => Some(w@),
        _ => None,
    }
}

/// Compile a parsed pattern: its code, then `Match`.
pub fn compile(parsed: &ParseResult) -> (p: Program)
    ensures
        p.insts@.len() >= 1,
        p.insts@.last() matches Inst::Match,
        p.insts@.len() < 65536 ==> p.forward(),
        text_tree(parsed.root) ==> p.insts@.len() <= 2,
        text_tree(parsed.root) && text_of(parsed.root).len() > 0 ==> p.insts@.len() == 2
            && p.insts@[1] is Match && lit_inst_text(p.insts@[0]) == Some(text_of(parsed.root)),
        p.capture_count == parsed.capture_count,
        p.has_named == parsed.has_named,
        p.history_groups@.len() == parsed.capture_count,
        p.lead is None,
        p.ascii_literal is None,
        p.req_lit is None,
        !p.anchored_bol,
        plain_node(parsed.root) && p.insts@.len() < 65536 ==> plain_program(p.insts@)
            && program_means(p.insts@, parsed.root),
{
    let mut insts: Vec<Inst> = Vec::new();
    emit(&parsed.root, &mut insts);
    let ghost code = insts@;
    push_plain(&mut insts, Inst::Match);
    proof {
        lemma_emitted_chain(Seq::empty(), code, insts@);
        let e = code.len() as int;
        let all = insts@;
        if plain_node(parsed.root) && all.len() < 65536 {
            assert forall|k: int| 0 <= k < all.len() implies #[trigger] plain_inst(all[k]) by {
                if k < e {
                    assert(all[k] == code[k]);
                }
            }
            assert(holds_code(all, code, 0, e)) by {
                assert forall|k: int| 0 <= k < e implies all[k] == #[trigger] code[k] by {}
            }
            assert forall|enc: Encoding, hay: Seq<u8>, end: int, opt: Options, props: Seq<UserProperty>, pos: int|
                #[trigger] first_end(all, enc, hay, end, opt, props, 0, pos, None) == node_end(
                    parsed.root,
                    enc,
                    hay,
                    end,
                    opt,
                    props,
                    pos,
                    accept(),
                ) by {
                let k = fe_k(all, enc, hay, end, opt, props, e);
                assert forall|q: int| #[trigger] k(q) == accept()(q) by {
                    assert(all[e] is Match);
                }
                lemma_node_end_same_rest(parsed.root, enc, hay, end, opt, props, pos, k, accept());
            }
        }
    }
    let mut history_groups: Vec<bool> = Vec::new();
    let mut i: usize = 0;
    while i < parsed.capture_count
        invariant
            i <= parsed.capture_count,
            history_groups@.len() == i,
        decreases parsed.capture_count - i,
    {
        history_groups.push(false);
        i = i + 1;
    }
    collect_history(&parsed.root, &mut history_groups);
    Program {
        insts,
        capture_count: parsed.capture_count,
        names: parsed.names.clone(),
        has_named: parsed.has_named,
        history_groups,
        lead: None,
        repeat_shapes: Vec::new(),
        ascii_literal: None,
        group_spans: Vec::new(),
        class_plans: Vec::new(),
        literal_bytes: Vec::new(),
        req_lit: None,
        anchored_bol: false,
    }
}

/// Group `k` records its capture history somewhere in `n` (`(?@...)`),
/// conditions' own tests aside.
pub open spec fn records_history(n: Node, k: int) -> bool
    decreases n, 0int,
{
    match n {
        Node::Capture { index, inner, history, .. } => (history && index == k) || records_history(
            *inner,
            k,
        ),
        Node::Concat(v) => records_history_seq(v, 0, k),
        Node::Alt(v) => records_history_seq(v, 0, k),
        Node::Repeat { inner, .. } => records_history(*inner, k),
        Node::Group(inner) => records_history(*inner, k),
        Node::Look { inner, .. } => records_history(*inner, k),
        Node::Atomic(inner) => records_history(*inner, k),
        Node::Options { inner, .. } => records_history(*inner, k),
        Node::Absent { stopper, expr, .. } => records_history(*stopper, k) || match expr {
            Some(e) => records_history(*e, k),
            None => false,
        },
        Node::Conditional { then_n, else_n, .. } => records_history(*then_n, k) || match else_n {
            Some(e) => records_history(*e, k),
            None => false,
        },
        _ => false,
    }
}

/// Some tree of `v` from `i` on records group `k`'s history.
pub open spec fn records_history_seq(v: Vec<Node>, i: int, k: int) -> bool
    decreases v, v@.len() - i,
{
    if i < 0 || i >= v@.len() {
        false
    } else {
        records_history(v@[i], k) || records_history_seq(v, i + 1, k)
    }
}

/// Mark the groups that record capture history (`(?@...)`).
fn collect_history(node: &Node, hist: &mut Vec<bool>)
    ensures
        final(hist)@.len() == old(hist)@.len(),
        forall|k: int|
            0 <= k < old(hist)@.len() ==> #[trigger] final(hist)@[k] == (old(hist)@[k]
                || records_history(*node, k)),
    decreases node,
{
    match node {
        Node::Capture { index, inner, history, .. } => {
            if *history && *index < hist.len() {
                hist.set(*index, true);
            }
            collect_history(inner, hist);
        },
        Node::Concat(v) => collect_history_seq(v, hist),
        Node::Alt(v) => collect_history_seq(v, hist),
        Node::Repeat { inner, .. } => collect_history(inner, hist),
        Node::Group(inner) => collect_history(inner, hist),
        Node::Look { inner, .. } => collect_history(inner, hist),
        Node::Atomic(inner) => collect_history(inner, hist),
        Node::Options { inner, .. } => collect_history(inner, hist),
        Node::Absent { stopper, expr, .. } => {
            collect_history(stopper, hist);
            match expr {
                Some(e) => collect_history(e, hist),
                None => {},
            }
        },
        Node::Conditional { then_n, else_n, .. } => {
            collect_history(then_n, hist);
            match else_n {
                Some(e) => collect_history(e, hist),
                None => {},
            }
        },
        _ => {},
    }
}

fn collect_history_seq(v: &Vec<Node>, hist: &mut Vec<bool>)
    ensures
        final(hist)@.len() == old(hist)@.len(),
        forall|k: int|
            0 <= k < old(hist)@.len() ==> #[trigger] final(hist)@[k] == (old(hist)@[k]
                || records_history_seq(*v, 0, k)),
    decreases v,
{
    let mut i: usize = 0;
    while i < v.len()
        invariant
            i <= v@.len(),
            hist@.len() == old(hist)@.len(),
            forall|k: int|
                0 <= k < old(hist)@.len() ==> (#[trigger] hist@[k] || records_history_seq(
                    *v,
                    i as int,
                    k,
                )) == (old(hist)@[k] || records_history_seq(*v, 0, k)),
        decreases v@.len() - i,
    {
        proof {
            assert(decreases_to!(v => v@[i as int]));
        }
        let ghost h0 = hist@;
        collect_history(&v[i], hist);
        proof {
            assert forall|k: int| 0 <= k < old(hist)@.len() implies (#[trigger] hist@[k]
                || records_history_seq(*v, i + 1, k)) == (old(hist)@[k] || records_history_seq(
                *v,
                0,
                k,
            )) by {
                assert(hist@[k] == (h0[k] || records_history(v@[i as int], k)));
                assert(records_history_seq(*v, i as int, k) == (records_history(v@[i as int], k)
                    || records_history_seq(*v, i + 1, k)));
            }
        }
        i = i + 1;
    }
}

/// Emit the pending run of characters: one `Char`, or a `Literal`.
fn flush_chars(buf: &mut Vec<u32>, out: &mut Vec<Inst>)
    ensures
        final(buf)@.len() == 0,
        emitted(old(out)@, final(out)@),
        old(buf)@.len() == 0 ==> final(out)@ == old(out)@,
        final(out)@.len() <= old(out)@.len() + 1,
        old(buf)@.len() >= 1 ==> final(out)@.len() == old(out)@.len() + 1 && lit_inst_text(
            final(out)@[old(out)@.len() as int],
        ) == Some(old(buf)@),
        plain_range(final(out)@, old(out)@.len() as int, final(out)@.len() as int),
        forall|insts: Seq<Inst>|
            #[trigger] holds_code(
                insts,
                final(out)@,
                old(out)@.len() as int,
                final(out)@.len() as int,
            ) ==> chars_code(insts, old(out)@.len() as int, final(out)@.len() as int, old(buf)@),
{
    let ghost cs = buf@;
    let ghost s = out@.len() as int;
    if buf.len() == 1 {
        let c = buf[0];
        push_plain(out, Inst::Char(c));
        proof {
            assert forall|insts: Seq<Inst>|
                #[trigger] holds_code(insts, out@, s, s + 1) implies chars_code(insts, s, s + 1, cs) by {
                assert(insts[s] == out@[s]);
                assert forall|enc: Encoding, hay: Seq<u8>, end: int, opt: Options, props: Seq<
                    UserProperty,
                >, pos: int| #[trigger]
                    first_end(insts, enc, hay, end, opt, props, s, pos, None) == chars_then(
                        cs,
                        enc,
                        hay,
                        end,
                        opt,
                        pos,
                        fe_k(insts, enc, hay, end, opt, props, s + 1),
                    ) by {
                    match char_step(enc, hay, end, opt, pos, c) {
                        Some(p) => {
                            assert(chars_step(enc, hay, end, opt, p, cs, 1) == Some(p));
                        },
                        None => {},
                    }
                }
            }
        }
    } else if buf.len() > 1 {
        let mut lit: Vec<u32> = Vec::new();
        std::mem::swap(buf, &mut lit);
        push_plain(out, Inst::Literal(lit));
        proof {
            assert forall|insts: Seq<Inst>|
                #[trigger] holds_code(insts, out@, s, s + 1) implies chars_code(insts, s, s + 1, cs) by {
                assert(insts[s] == out@[s]);
                assert forall|enc: Encoding, hay: Seq<u8>, end: int, opt: Options, props: Seq<
                    UserProperty,
                >, pos: int| #[trigger]
                    first_end(insts, enc, hay, end, opt, props, s, pos, None) == chars_then(
                        cs,
                        enc,
                        hay,
                        end,
                        opt,
                        pos,
                        fe_k(insts, enc, hay, end, opt, props, s + 1),
                    ) by {
                    lemma_lit_step_chars(enc, hay, end, opt, pos, cs);
                }
            }
        }
    } else {
        proof {
            assert forall|insts: Seq<Inst>|
                #[trigger] holds_code(insts, out@, s, s) implies chars_code(insts, s, s, cs) by {
                assert forall|enc: Encoding, hay: Seq<u8>, end: int, opt: Options, props: Seq<
                    UserProperty,
                >, pos: int| #[trigger]
                    first_end(insts, enc, hay, end, opt, props, s, pos, None) == chars_then(
                        cs,
                        enc,
                        hay,
                        end,
                        opt,
                        pos,
                        fe_k(insts, enc, hay, end, opt, props, s),
                    ) by {
                    assert(chars_step(enc, hay, end, opt, pos, cs, 0) == Some(pos));
                }
            }
        }
    }
    buf.clear();
}

/// `longer` keeps every instruction of `shorter` in place.
pub open spec fn extends(longer: Seq<Inst>, shorter: Seq<Inst>) -> bool {
    &&& longer.len() >= shorter.len()
    &&& forall|k: int| 0 <= k < shorter.len() ==> #[trigger] longer[k] == shorter[k]
}

/// The current end of the code as a jump target.
fn here(out: &Vec<Inst>) -> (r: u16)
    ensures
        out@.len() < 65536 ==> r == out@.len(),
{
    #[verifier::truncate] (out.len() as u16)
}

/// Every instruction in `lo..hi` continues forward, inside `n`.
pub open spec fn forward_range(out: Seq<Inst>, lo: int, hi: int, n: int) -> bool {
    forall|p: int| lo <= p < hi ==> #[trigger] inst_forward(out[p], p, n)
}

/// What appending code to `before` promises: the old code stays, and the
/// new code continues forward, while targets fit in 16 bits.
pub open spec fn emitted(before: Seq<Inst>, after: Seq<Inst>) -> bool {
    &&& extends(after, before)
    &&& (after.len() < 65536 ==> forward_range(
        after,
        before.len() as int,
        after.len() as int,
        after.len() as int,
    ))
}

/// Forward within `n` is forward within any larger `m`.
proof fn lemma_forward_grows(out: Seq<Inst>, lo: int, hi: int, n: int, m: int)
    requires
        forward_range(out, lo, hi, n),
        n <= m,
    ensures
        forward_range(out, lo, hi, m),
{
    assert forall|p: int| lo <= p < hi implies #[trigger] inst_forward(out[p], p, m) by {
        assert(inst_forward(out[p], p, n));
    }
}

/// Code appended after `mid` keeps what held of `mid`'s own appended code.
proof fn lemma_emitted_chain(a: Seq<Inst>, b: Seq<Inst>, c: Seq<Inst>)
    requires
        emitted(a, b),
        emitted(b, c),
    ensures
        emitted(a, c),
{
    if c.len() < 65536 {
        lemma_forward_grows(b, a.len() as int, b.len() as int, b.len() as int, c.len() as int);
        assert forall|p: int| a.len() <= p < c.len() implies #[trigger] inst_forward(
            c[p],
            p,
            c.len() as int,
        ) by {
            if p < b.len() {
                assert(c[p] == b[p]);
                assert(inst_forward(b[p], p, c.len() as int));
            }
        }
    }
}

/// Append one instruction that does not jump.
fn push_plain(out: &mut Vec<Inst>, i: Inst)
    requires
        !(i is Split || i is Jump || i is Repeat || i is Look || i is Atomic || i is Absent
            || i is Cond),
    ensures
        emitted(old(out)@, final(out)@),
        final(out)@ == old(out)@.push(i),
        final(out)@.len() == old(out)@.len() + 1,
{
    out.push(i);
}

/// `i` is the one instruction that `n` compiles to.
spec fn single_inst(n: Node, i: Inst) -> bool {
    match n {
        Node::Char(c) => i == Inst::Char(c),
        Node::Literal(v) => i matches Inst::Literal(w) && w@ == v@,
        Node::Any { newline } => i == Inst::Any { newline },
        Node::SuperAny => i == Inst::SuperAny,
        Node::Anchor(a) => i == Inst::Assert(a),
        Node::Class(cc) => i matches Inst::Class { class } && same_class(cc, class),
        _ => false,
    }
}

/// One instruction means the node it was compiled from.
proof fn lemma_single(insts: Seq<Inst>, s: int, n: Node)
    requires
        0 <= s < insts.len(),
        single_inst(n, insts[s]),
    ensures
        code_means(insts, s, s + 1, n),
{
    assert forall|enc: Encoding, hay: Seq<u8>, end: int, opt: Options, props: Seq<UserProperty>, pos: int|
        #[trigger] first_end(insts, enc, hay, end, opt, props, s, pos, None) == node_end(
            n,
            enc,
            hay,
            end,
            opt,
            props,
            pos,
            fe_k(insts, enc, hay, end, opt, props, s + 1),
        ) by {
        match n {
            Node::Class(cc) => {
                let c2 = insts[s]->class;
                match char_at_spec(enc, hay, pos, end) {
                    Some((cp, _)) => lemma_same_class_spec(cc, c2, cp, enc, opt, props),
                    None => {},
                }
            },
            _ => {},
        }
    }
}

/// Code that passes over `s` and `m` unchanged around the code of `inner`
/// means `inner`.
proof fn lemma_around(insts: Seq<Inst>, s: int, m: int, inner: Node, n: Node)
    requires
        0 <= s < m < insts.len(),
        insts[s] is Save,
        insts[m] is Save,
        code_means(insts, s + 1, m, inner),
        forall|enc: Encoding, hay: Seq<u8>, end: int, opt: Options, props: Seq<UserProperty>, pos: int, k: spec_fn(int) -> Option<int>|
            #[trigger] node_end(n, enc, hay, end, opt, props, pos, k) == node_end(inner, enc, hay, end, opt, props, pos, k),
    ensures
        code_means(insts, s, m + 1, n),
{
    assert forall|enc: Encoding, hay: Seq<u8>, end: int, opt: Options, props: Seq<UserProperty>, pos: int|
        #[trigger] first_end(insts, enc, hay, end, opt, props, s, pos, None) == node_end(
            n,
            enc,
            hay,
            end,
            opt,
            props,
            pos,
            fe_k(insts, enc, hay, end, opt, props, m + 1),
        ) by {
        let k1 = fe_k(insts, enc, hay, end, opt, props, m);
        let k2 = fe_k(insts, enc, hay, end, opt, props, m + 1);
        assert(first_end(insts, enc, hay, end, opt, props, s + 1, pos, None) == node_end(
            inner,
            enc,
            hay,
            end,
            opt,
            props,
            pos,
            k1,
        ));
        assert forall|p: int| #[trigger] k1(p) == k2(p) by {
            assert(first_end(insts, enc, hay, end, opt, props, m, p, None) == first_end(
                insts,
                enc,
                hay,
                end,
                opt,
                props,
                m + 1,
                p,
                None,
            ));
        }
        lemma_node_end_same_rest(inner, enc, hay, end, opt, props, pos, k1, k2);
        assert(node_end(n, enc, hay, end, opt, props, pos, k2) == node_end(inner, enc, hay, end, opt, props, pos, k2));
    }
}

/// Code that adds nothing means what the code after it does.
proof fn lemma_same_code(insts: Seq<Inst>, s: int, e: int, inner: Node, n: Node)
    requires
        code_means(insts, s, e, inner),
        forall|enc: Encoding, hay: Seq<u8>, end: int, opt: Options, props: Seq<UserProperty>, pos: int, k: spec_fn(int) -> Option<int>|
            #[trigger] node_end(n, enc, hay, end, opt, props, pos, k) == node_end(inner, enc, hay, end, opt, props, pos, k),
    ensures
        code_means(insts, s, e, n),
{
    assert forall|enc: Encoding, hay: Seq<u8>, end: int, opt: Options, props: Seq<UserProperty>, pos: int|
        #[trigger] first_end(insts, enc, hay, end, opt, props, s, pos, None) == node_end(
            n,
            enc,
            hay,
            end,
            opt,
            props,
            pos,
            fe_k(insts, enc, hay, end, opt, props, e),
        ) by {
        assert(node_end(n, enc, hay, end, opt, props, pos, fe_k(insts, enc, hay, end, opt, props, e)) == node_end(inner, enc, hay, end, opt, props, pos, fe_k(insts, enc, hay, end, opt, props, e)));
    }
}

/// Append the code for `node`: for a tree of the plain fragment, code that
/// matches what the tree means and then goes on after it.
fn emit(node: &Node, out: &mut Vec<Inst>)
    ensures
        emitted(old(out)@, final(out)@),
        plain_node(*node) ==> plain_range(final(out)@, old(out)@.len() as int, final(out)@.len() as int),
        plain_node(*node) ==> forall|insts: Seq<Inst>|
            #[trigger] holds_code(
                insts,
                final(out)@,
                old(out)@.len() as int,
                final(out)@.len() as int,
            ) ==> code_means(insts, old(out)@.len() as int, final(out)@.len() as int, *node),
        text_tree(*node) ==> final(out)@.len() <= old(out)@.len() + 1,
        text_tree(*node) && text_of(*node).len() > 0 ==> final(out)@.len() == old(out)@.len() + 1
            && lit_inst_text(final(out)@[old(out)@.len() as int]) == Some(text_of(*node)),
        ({
            let s = old(out)@.len() as int;
            let e = final(out)@.len() as int;
            e < 65536 ==> (*node matches Node::Repeat { min, max, greedy, possessive, .. } ==> s + 2
                <= e && final(out)@[s] == (Inst::Repeat {
                body: (s + 1) as u16,
                after: e as u16,
                min,
                max,
                greedy,
                possessive,
            }) && final(out)@[e - 1] == Inst::Jump(e as u16))
        }),
    decreases node, 2int,
{
    let ghost s = out@.len() as int;
    match node {
        Node::Empty => {
            proof {
                assert forall|insts: Seq<Inst>| #[trigger] holds_code(insts, out@, s, s) implies code_means(
                    insts,
                    s,
                    s,
                    *node,
                ) by {
                    assert forall|enc: Encoding, hay: Seq<u8>, end: int, opt: Options, props: Seq<UserProperty>, pos: int|
                        #[trigger] first_end(insts, enc, hay, end, opt, props, s, pos, None) == node_end(
                            *node,
                            enc,
                            hay,
                            end,
                            opt,
                            props,
                            pos,
                            fe_k(insts, enc, hay, end, opt, props, s),
                        ) by {}
                }
            }
        },
        Node::Char(c) => {
            push_plain(out, Inst::Char(*c));
            proof {
                lemma_pushed_single(*node, out@, s);
            }
        },
        Node::Literal(v) => {
            let w = v.clone();
            proof {
                assert(w@ =~= v@);
            }
            push_plain(out, Inst::Literal(w));
            proof {
                lemma_pushed_single(*node, out@, s);
            }
        },
        Node::Any { newline } => {
            push_plain(out, Inst::Any { newline: *newline });
            proof {
                lemma_pushed_single(*node, out@, s);
            }
        },
        Node::SuperAny => {
            push_plain(out, Inst::SuperAny);
            proof {
                lemma_pushed_single(*node, out@, s);
            }
        },
        Node::Class(cc) => {
            push_plain(out, Inst::Class { class: clone_class(cc) });
            proof {
                lemma_pushed_single(*node, out@, s);
            }
        },
        Node::Concat(v) => emit_concat(v, out),
        Node::Alt(v) => emit_alt(v, out),
        Node::Repeat { .. } => emit_loop(node, out),
        Node::Capture { index, inner, .. } => {
            let ghost o0 = out@;
            let slot: u16 = (#[verifier::truncate] (*index as u16)).wrapping_mul(2);
            push_plain(out, Inst::Save(slot));
            let ghost o1 = out@;
            emit(inner, out);
            let ghost o2 = out@;
            push_plain(out, Inst::Save(slot.wrapping_add(1)));
            proof {
                lemma_emitted_chain(o0, o1, o2);
                lemma_emitted_chain(o0, o2, out@);
                if plain_node(*node) {
                    let m = o2.len() as int;
                    assert(o2[s] == o1[s]);
                    assert forall|k: int| s <= k < out@.len() implies #[trigger] plain_inst(out@[k]) by {
                        if s < k < m {
                            assert(out@[k] == o2[k]);
                        }
                    }
                    assert forall|insts: Seq<Inst>| #[trigger] holds_code(insts, out@, s, m + 1) implies code_means(
                        insts,
                        s,
                        m + 1,
                        *node,
                    ) by {
                        assert(holds_code(insts, o2, s + 1, m)) by {
                            assert forall|k: int| s + 1 <= k < m implies insts[k] == #[trigger] o2[k] by {
                                assert(out@[k] == o2[k]);
                            }
                        }
                        assert(insts[s] == out@[s]);
                        assert(insts[m] == out@[m]);
                        lemma_around(insts, s, m, **inner, *node);
                    }
                }
            }
        },
        Node::Group(inner) => {
            emit(inner, out);
            proof {
                if plain_node(*node) {
                    assert forall|insts: Seq<Inst>| #[trigger] holds_code(insts, out@, s, out@.len() as int) implies code_means(
                        insts,
                        s,
                        out@.len() as int,
                        *node,
                    ) by {
                        lemma_same_code(insts, s, out@.len() as int, **inner, *node);
                    }
                }
            }
        },
        Node::Options { set, clear, inner } => {
            let ghost o0 = out@;
            push_plain(out, Inst::PushOptions(*set, *clear));
            let ghost o1 = out@;
            emit(inner, out);
            let ghost o2 = out@;
            push_plain(out, Inst::PopOptions);
            proof {
                lemma_emitted_chain(o0, o1, o2);
                lemma_emitted_chain(o0, o2, out@);
            }
        },
        Node::Anchor(a) => {
            push_plain(out, Inst::Assert(*a));
            proof {
                lemma_pushed_single(*node, out@, s);
            }
        },
        Node::Backref(b) => push_plain(out, Inst::Backref(b.clone())),
        Node::Look { .. } => emit_loop(node, out),
        Node::Atomic(..) => emit_loop(node, out),
        Node::Call(t) => push_plain(out, Inst::Call(t.clone())),
        Node::Absent { .. } => emit_absent(node, out),
        Node::Conditional { .. } => emit_cond(node, out),
        Node::Keep => push_plain(out, Inst::Keep),
        Node::GeneralNewline => push_plain(out, Inst::GeneralNewline),
        Node::TextSegment => push_plain(out, Inst::TextSegment),
        Node::Callout { named, name, args, tag, body, dir } => push_plain(
            out,
            Inst::Callout {
                named: *named,
                name: name.clone(),
                args: args.clone(),
                tag: tag.clone(),
                body: body.clone(),
                dir: *dir,
            },
        ),
    }
}

/// The one instruction just pushed for `n` at `s` means `n`.
proof fn lemma_pushed_single(n: Node, out: Seq<Inst>, s: int)
    requires
        out.len() == s + 1,
        s >= 0,
        single_inst(n, out[s]),
        plain_node(n) ==> plain_inst(out[s]),
    ensures
        plain_node(n) ==> plain_range(out, s, s + 1),
        forall|insts: Seq<Inst>| #[trigger] holds_code(insts, out, s, s + 1) ==> code_means(
            insts,
            s,
            s + 1,
            n,
        ),
{
    assert forall|insts: Seq<Inst>| #[trigger] holds_code(insts, out, s, s + 1) implies code_means(
        insts,
        s,
        s + 1,
        n,
    ) by {
        assert(insts[s] == out[s]);
        lemma_single(insts, s, n);
    }
}

/// A repetition, look-around or atomic group: a header instruction naming
/// its body, the body, and a jump to what follows.
fn emit_loop(node: &Node, out: &mut Vec<Inst>)
    ensures
        emitted(old(out)@, final(out)@),
        ({
            let s = old(out)@.len() as int;
            let e = final(out)@.len() as int;
            e < 65536 ==> match *node {
                Node::Repeat { min, max, greedy, possessive, .. } => s + 2 <= e && final(out)@[s]
                    == (Inst::Repeat {
                    body: (s + 1) as u16,
                    after: e as u16,
                    min,
                    max,
                    greedy,
                    possessive,
                }) && final(out)@[e - 1] == Inst::Jump(e as u16),
                Node::Look { behind, negative, .. } => s + 2 <= e && final(out)@[s] == (Inst::Look {
                    body: (s + 1) as u16,
                    after: e as u16,
                    behind,
                    negative,
                }) && final(out)@[e - 1] == Inst::Jump(e as u16),
                Node::Atomic(_) => s + 2 <= e && final(out)@[s] == (Inst::Atomic {
                    body: (s + 1) as u16,
                    after: e as u16,
                }) && final(out)@[e - 1] == Inst::Jump(e as u16),
                _ => final(out)@ == old(out)@,
            }
        }),
    decreases node, 1int,
{
    let ghost o0 = out@;
    let inner: &Node = match node {
        Node::Repeat { inner, .. } => inner,
        Node::Look { inner, .. } => inner,
        Node::Atomic(inner) => inner,
        _ => return,
    };
    let rec = out.len();
    out.push(Inst::Nop);
    let body = here(out);
    let ghost o1 = out@;
    emit(inner, out);
    let ghost o2 = out@;
    let jpos = out.len();
    out.push(Inst::Jump(0));
    let after_real = here(out);
    let head = match node {
        Node::Repeat { min, max, greedy, possessive, .. } => Inst::Repeat {
            body,
            after: after_real,
            min: *min,
            max: *max,
            greedy: *greedy,
            possessive: *possessive,
        },
        Node::Look { behind, negative, .. } => Inst::Look {
            body,
            after: after_real,
            behind: *behind,
            negative: *negative,
        },
        _ => Inst::Atomic { body, after: after_real },
    };
    out.set(rec, head);
    out.set(jpos, Inst::Jump(after_real));
    proof {
        let n = out@.len();
        assert forall|k: int| 0 <= k < o0.len() implies #[trigger] out@[k] == o0[k] by {
            assert(o1[k] == o0[k]);
            assert(o2[k] == o1[k]);
        }
        if n < 65536 {
            assert forall|p: int| o0.len() <= p < n implies #[trigger] inst_forward(
                out@[p],
                p,
                n as int,
            ) by {
                if p != rec && p != jpos {
                    assert(out@[p] == o2[p]);
                    assert(inst_forward(o2[p], p, o2.len() as int));
                }
            }
        }
    }
}

/// An absent group: its header, the stopper, and the expression if any.
fn emit_absent(node: &Node, out: &mut Vec<Inst>)
    ensures
        emitted(old(out)@, final(out)@),
        ({
            let s = old(out)@.len() as int;
            let e = final(out)@.len() as int;
            e < 65536 ==> match *node {
                Node::Absent { expr, kind, .. } => s + 1 <= e && (final(out)@[s] matches Inst::Absent {
                    stopper: st,
                    expr: ex,
                    after: af,
                    kind: k,
                } && st == s + 1 && af == e && k == kind && (ex is Some <==> expr is Some)),
                _ => final(out)@ == old(out)@,
            }
        }),
    decreases node, 1int,
{
    let ghost o0 = out@;
    match node {
        Node::Absent { stopper, expr, kind } => {
            let rec = out.len();
            out.push(Inst::Nop);
            let st = here(out);
            let ghost o1 = out@;
            emit(stopper, out);
            let ghost o2 = out@;
            proof {
                lemma_emitted_chain(o1, o2, o2);
            }
            let exp = match expr {
                Some(e) => {
                    let p = here(out);
                    emit(e, out);
                    Some(p)
                },
                None => None,
            };
            let ghost o3 = out@;
            let after = here(out);
            out.set(rec, Inst::Absent { stopper: st, expr: exp, after, kind: *kind });
            proof {
                lemma_emitted_chain(o1, o2, o3);
                let n = out@.len();
                assert forall|k: int| 0 <= k < o0.len() implies #[trigger] out@[k] == o0[k] by {
                    assert(o1[k] == o0[k]);
                    assert(o3[k] == o1[k]);
                }
                if n < 65536 {
                    assert forall|p: int| o0.len() <= p < n implies #[trigger] inst_forward(
                        out@[p],
                        p,
                        n as int,
                    ) by {
                        if p != rec {
                            assert(out@[p] == o3[p]);
                            assert(inst_forward(o3[p], p, o3.len() as int));
                        }
                    }
                }
            }
        },
        _ => {},
    }
}

/// A conditional group: the test (a compiled look-ahead, jumped over),
/// its header, the then-branch with a jump past the else-branch, and the
/// else-branch if any.
fn emit_cond(node: &Node, out: &mut Vec<Inst>)
    ensures
        emitted(old(out)@, final(out)@),
        ({
            let s = old(out)@.len() as int;
            let e = final(out)@.len() as int;
            e < 65536 ==> match *node {
                Node::Conditional { else_n, .. } => exists|rec: int|
                    s <= rec < e && (#[trigger] final(out)@[rec] matches Inst::Cond {
                        then_pc,
                        else_pc,
                        after,
                        ..
                    } && then_pc == rec + 1 && after == e && (else_pc is Some <==> else_n is Some)),
                _ => final(out)@ == old(out)@,
            }
        }),
    decreases node, 1int,
{
    let ghost o0 = out@;
    match node {
        Node::Conditional { cond, then_n, else_n } => {
            let test = match cond {
                Cond::Expr(e) => {
                    let skip_at = out.len();
                    out.push(Inst::Jump(0));
                    let body = here(out);
                    let ghost t1 = out@;
                    emit(e, out);
                    let ghost t2 = out@;
                    let after_c = here(out);
                    out.set(skip_at, Inst::Jump(after_c));
                    proof {
                        let n = out@.len();
                        assert forall|k: int| 0 <= k < o0.len() implies #[trigger] out@[k]
                            == o0[k] by {
                            assert(t1[k] == o0[k]);
                            assert(t2[k] == t1[k]);
                        }
                        if n < 65536 {
                            assert forall|p: int| o0.len() <= p < n implies #[trigger] inst_forward(
                                out@[p],
                                p,
                                n as int,
                            ) by {
                                if p != skip_at {
                                    assert(out@[p] == t2[p]);
                                    assert(inst_forward(t2[p], p, t2.len() as int));
                                }
                            }
                        }
                        assert(emitted(o0, out@));
                    }
                    CondTest::Look { body, after: after_c }
                },
                Cond::Group(n) => CondTest::Group(*n),
                Cond::Name(s) => CondTest::Name(s.clone()),
                Cond::ValidRef(b) => CondTest::ValidRef(b.clone()),
                Cond::Look { body, after } => CondTest::Look { body: *body, after: *after },
            };
            let ghost oc = out@;
            let rec = out.len();
            out.push(Inst::Nop);
            let then_pc = here(out);
            let ghost o1 = out@;
            emit(then_n, out);
            let ghost o2 = out@;
            let jpos = out.len();
            out.push(Inst::Jump(0));
            let ghost o3 = out@;
            let else_pc = match else_n {
                Some(e) => {
                    let p = here(out);
                    emit(e, out);
                    Some(p)
                },
                None => None,
            };
            let ghost o4 = out@;
            proof {
                assert(emitted(o0, oc));
                assert(emitted(o3, o4));
            }
            let after = here(out);
            out.set(jpos, Inst::Jump(after));
            out.set(rec, Inst::Cond { cond: test, then_pc, else_pc, after });
            proof {
                let n = out@.len();
                if n < 65536 {
                    assert(out@[rec as int] matches Inst::Cond { then_pc, else_pc, after, .. }
                        && then_pc == rec + 1 && after == n && (else_pc is Some <==> else_n is Some));
                }
                assert(extends(o4, o3));
                assert forall|k: int| 0 <= k < o0.len() implies #[trigger] out@[k] == o0[k] by {
                    assert(oc[k] == o0[k]);
                    assert(o1[k] == oc[k]);
                    assert(o2[k] == o1[k]);
                    assert(o3[k] == o2[k]);
                    assert(o4[k] == o3[k]);
                }
                if n < 65536 {
                    assert forall|p: int| o0.len() <= p < n implies #[trigger] inst_forward(
                        out@[p],
                        p,
                        n as int,
                    ) by {
                        if p < rec {
                            assert(out@[p] == oc[p]);
                            assert(inst_forward(oc[p], p, oc.len() as int));
                        } else if rec < p < jpos {
                            assert(out@[p] == o2[p]);
                            assert(inst_forward(o2[p], p, o2.len() as int));
                        } else if jpos < p {
                            assert(out@[p] == o4[p]);
                            assert(inst_forward(o4[p], p, o4.len() as int));
                        }
                    }
                }
            }
        },
        _ => {},
    }
}

/// Position `p` is one of `hs[from..]`.
spec fn is_hole(hs: Seq<usize>, from: int, p: int) -> bool {
    exists|j: int| from <= j < hs.len() && hs[j] == p
}

/// A sequence: runs of plain characters become one `Literal`.
fn emit_concat(v: &Vec<Node>, out: &mut Vec<Inst>)
    ensures
        emitted(old(out)@, final(out)@),
        plain_nodes(*v, 0) ==> plain_range(final(out)@, old(out)@.len() as int, final(out)@.len() as int),
        plain_nodes(*v, 0) ==> forall|insts: Seq<Inst>|
            #[trigger] holds_code(
                insts,
                final(out)@,
                old(out)@.len() as int,
                final(out)@.len() as int,
            ) ==> code_means(
                insts,
                old(out)@.len() as int,
                final(out)@.len() as int,
                Node::Concat(*v),
            ),
        all_chars(v@) ==> final(out)@.len() <= old(out)@.len() + 1,
        all_chars(v@) && v@.len() >= 1 ==> final(out)@.len() == old(out)@.len() + 1 && lit_inst_text(
            final(out)@[old(out)@.len() as int],
        ) == Some(Seq::new(v@.len(), |k: int| v@[k]->Char_0)),
    decreases v, 0int,
{
    let ghost s = out@.len() as int;
    let ghost plain = plain_nodes(*v, 0);
    let mut buf: Vec<u32> = Vec::new();
    let mut i: usize = 0;
    let ghost mut j: int = 0;
    proof {
        assert forall|insts: Seq<Inst>| #[trigger] holds_code(insts, out@, s, s) implies seq_code(
            insts,
            s,
            s,
            *v,
            0,
        ) by {
            assert forall|enc: Encoding, hay: Seq<u8>, end: int, opt: Options, props: Seq<UserProperty>, pos: int|
                #[trigger] first_end(insts, enc, hay, end, opt, props, s, pos, None) == seq_upto(
                    *v,
                    0,
                    0,
                    enc,
                    hay,
                    end,
                    opt,
                    props,
                    pos,
                    fe_k(insts, enc, hay, end, opt, props, s),
                ) by {}
        }
    }
    while i < v.len()
        invariant
            i <= v@.len(),
            0 <= j <= i,
            buf@.len() == i - j,
            forall|t: int| 0 <= t < buf@.len() ==> v@[j + t] == Node::Char(#[trigger] buf@[t]),
            emitted(old(out)@, out@),
            s == old(out)@.len(),
            plain == plain_nodes(*v, 0),
            all_chars(v@) ==> out@.len() == s && j == 0,
            plain ==> plain_range(out@, s, out@.len() as int),
            plain ==> forall|insts: Seq<Inst>|
                #[trigger] holds_code(insts, out@, s, out@.len() as int) ==> seq_code(
                    insts,
                    s,
                    out@.len() as int,
                    *v,
                    j,
                ),
        decreases v@.len() - i,
    {
        proof {
            assert(decreases_to!(v => v@[i as int]));
        }
        match &v[i] {
            Node::Char(c) => {
                buf.push(*c);
                proof {
                    assert forall|t: int| 0 <= t < buf@.len() implies v@[j + t] == Node::Char(
                        #[trigger] buf@[t],
                    ) by {
                        if t == buf@.len() - 1 {
                            assert(j + t == i);
                        }
                    }
                }
            },
            n => {
                let ghost o1 = out@;
                let ghost cs = buf@;
                let ghost m0 = out@.len() as int;
                flush_chars(&mut buf, out);
                let ghost o2 = out@;
                let ghost m1 = out@.len() as int;
                emit(n, out);
                proof {
                    lemma_emitted_chain(old(out)@, o1, o2);
                    lemma_emitted_chain(old(out)@, o2, out@);
                    let m2 = out@.len() as int;
                    if plain {
                        lemma_plain_nodes(*v, 0, i as int);
                        assert forall|k: int| s <= k < m2 implies #[trigger] plain_inst(out@[k]) by {
                            if k < m0 {
                                assert(out@[k] == o1[k]);
                            } else if k < m1 {
                                assert(out@[k] == o2[k]);
                            }
                        }
                        assert forall|insts: Seq<Inst>| #[trigger] holds_code(insts, out@, s, m2) implies seq_code(
                            insts,
                            s,
                            m2,
                            *v,
                            i + 1,
                        ) by {
                            assert(holds_code(insts, o1, s, m0)) by {
                                assert forall|k: int| s <= k < m0 implies insts[k] == #[trigger] o1[k] by {
                                    assert(out@[k] == o1[k]);
                                }
                            }
                            assert(holds_code(insts, o2, m0, m1)) by {
                                assert forall|k: int| m0 <= k < m1 implies insts[k] == #[trigger] o2[k] by {
                                    assert(out@[k] == o2[k]);
                                }
                            }
                            assert(*n == v@[i as int]);
                            assert(holds_code(insts, out@, m1, m2));
                            lemma_concat_step(insts, s, m0, m1, m2, *v, j, i as int, cs);
                        }
                    }
                    j = i + 1;
                }
            },
        }
        i = i + 1;
    }
    let ghost o1 = out@;
    let ghost cs = buf@;
    let ghost m0 = out@.len() as int;
    proof {
        if all_chars(v@) {
            assert(buf@ =~= Seq::new(v@.len(), |k: int| v@[k]->Char_0)) by {
                assert forall|t: int| 0 <= t < buf@.len() implies buf@[t] == v@[t]->Char_0 by {
                    assert(v@[0 + t] == Node::Char(buf@[t]));
                }
            }
        }
    }
    flush_chars(&mut buf, out);
    proof {
        lemma_emitted_chain(old(out)@, o1, out@);
        let m1 = out@.len() as int;
        if plain {
            assert forall|k: int| s <= k < m1 implies #[trigger] plain_inst(out@[k]) by {
                if k < m0 {
                    assert(out@[k] == o1[k]);
                }
            }
            assert forall|insts: Seq<Inst>| #[trigger] holds_code(insts, out@, s, m1) implies code_means(
                insts,
                s,
                m1,
                Node::Concat(*v),
            ) by {
                assert(holds_code(insts, o1, s, m0)) by {
                    assert forall|k: int| s <= k < m0 implies insts[k] == #[trigger] o1[k] by {
                        assert(out@[k] == o1[k]);
                    }
                }
                assert(holds_code(insts, out@, m0, m1));
                lemma_concat_last(insts, s, m0, m1, *v, j, cs);
            }
        }
    }
}

/// Each tree of `v` from `a` on is of the plain fragment.
proof fn lemma_plain_nodes(v: Vec<Node>, a: int, i: int)
    requires
        plain_nodes(v, a),
        0 <= a <= i < v@.len(),
    ensures
        plain_node(v@[i]),
    decreases i - a,
{
    if a < i {
        lemma_plain_nodes(v, a + 1, i);
    }
}

/// `insts` holds `out`'s code from `s` on, except that each of `holes`
/// jumps to `e`, at or past the end of `out`.
spec fn alt_holds(insts: Seq<Inst>, out: Seq<Inst>, s: int, holes: Seq<usize>, e: int) -> bool {
    &&& 0 <= s <= out.len() <= e <= insts.len() < 65536
    &&& forall|k: int|
        s <= k < out.len() ==> if is_hole(holes, 0, k) {
            #[trigger] insts[k] == Inst::Jump(e as u16)
        } else {
            insts[k] == out[k]
        }
}

/// The branches of an alternation, one after another, mean the
/// alternation.
proof fn lemma_alt_done(insts: Seq<Inst>, s: int, l: int, e: int, v: Vec<Node>)
    requires
        v@.len() >= 1,
        alt_code(insts, s, l, e, v, v@.len() - 1),
        code_means(insts, l, e, v@[v@.len() - 1]),
    ensures
        code_means(insts, s, e, Node::Alt(v)),
{
    let last = v@.len() - 1;
    assert forall|enc: Encoding, hay: Seq<u8>, end: int, opt: Options, props: Seq<UserProperty>, pos: int|
        #[trigger] first_end(insts, enc, hay, end, opt, props, s, pos, None) == node_end(
            Node::Alt(v),
            enc,
            hay,
            end,
            opt,
            props,
            pos,
            fe_k(insts, enc, hay, end, opt, props, e),
        ) by {
        let k = fe_k(insts, enc, hay, end, opt, props, e);
        assert(first_end(insts, enc, hay, end, opt, props, l, pos, None) == node_end(
            v@[last],
            enc,
            hay,
            end,
            opt,
            props,
            pos,
            k,
        ));
        lemma_alt_chain_last(v, 0, enc, hay, end, opt, props, pos, k);
    }
}

/// One more branch: a `Split` to its code, which jumps to `e` after it,
/// or on to `l2`.
proof fn lemma_alt_branch(
    insts: Seq<Inst>,
    s: int,
    sp: int,
    c: int,
    e: int,
    v: Vec<Node>,
    i: int,
)
    requires
        0 <= i < v@.len(),
        0 <= sp < c < e <= insts.len(),
        insts[sp] == Inst::Split((sp + 1) as u16, (c + 1) as u16),
        c + 1 < 65536,
        insts[c] == Inst::Jump(e as u16),
        e < 65536,
        alt_code(insts, s, sp, e, v, i),
        code_means(insts, sp + 1, c, v@[i]),
    ensures
        alt_code(insts, s, c + 1, e, v, i + 1),
{
    assert forall|enc: Encoding, hay: Seq<u8>, end: int, opt: Options, props: Seq<UserProperty>, pos: int|
        #[trigger] first_end(insts, enc, hay, end, opt, props, s, pos, None) == alt_chain(
            v,
            0,
            i + 1,
            enc,
            hay,
            end,
            opt,
            props,
            pos,
            fe_k(insts, enc, hay, end, opt, props, e),
            first_end(insts, enc, hay, end, opt, props, c + 1, pos, None),
        ) by {
        let k = fe_k(insts, enc, hay, end, opt, props, e);
        let kc = fe_k(insts, enc, hay, end, opt, props, c);
        let fall = first_end(insts, enc, hay, end, opt, props, c + 1, pos, None);
        assert forall|p: int| #[trigger] kc(p) == k(p) by {
            assert(first_end(insts, enc, hay, end, opt, props, c, p, None) == first_end(
                insts,
                enc,
                hay,
                end,
                opt,
                props,
                e,
                p,
                None,
            ));
        }
        assert(first_end(insts, enc, hay, end, opt, props, sp + 1, pos, None) == node_end(
            v@[i],
            enc,
            hay,
            end,
            opt,
            props,
            pos,
            kc,
        ));
        lemma_node_end_same_rest(v@[i], enc, hay, end, opt, props, pos, kc, k);
        assert(first_end(insts, enc, hay, end, opt, props, sp, pos, None) == match node_end(
            v@[i],
            enc,
            hay,
            end,
            opt,
            props,
            pos,
            k,
        ) {
            Some(x) => Some(x),
            None => fall,
        });
        lemma_alt_chain_extend(v, 0, i, enc, hay, end, opt, props, pos, k, fall);
    }
}

/// Alternatives: `Split` to each but the last, each ending in a jump past
/// the whole.
fn emit_alt(v: &Vec<Node>, out: &mut Vec<Inst>)
    ensures
        emitted(old(out)@, final(out)@),
        v@.len() > 0 && plain_nodes(*v, 0) ==> plain_range(
            final(out)@,
            old(out)@.len() as int,
            final(out)@.len() as int,
        ),
        v@.len() > 0 && plain_nodes(*v, 0) ==> forall|insts: Seq<Inst>|
            #[trigger] holds_code(
                insts,
                final(out)@,
                old(out)@.len() as int,
                final(out)@.len() as int,
            ) ==> code_means(
                insts,
                old(out)@.len() as int,
                final(out)@.len() as int,
                Node::Alt(*v),
            ),
    decreases v, 0int,
{
    if v.len() == 0 {
        return;
    }
    let ghost plain = plain_nodes(*v, 0);
    let ghost o0 = out@;
    let ghost s = o0.len() as int;
    if v.len() == 1 {
        proof {
            assert(decreases_to!(v => v@[0]));
        }
        emit(&v[0], out);
        proof {
            if plain {
                lemma_plain_nodes(*v, 0, 0);
                assert forall|insts: Seq<Inst>| #[trigger] holds_code(insts, out@, s, out@.len() as int) implies code_means(
                    insts,
                    s,
                    out@.len() as int,
                    Node::Alt(*v),
                ) by {
                    assert forall|enc: Encoding, hay: Seq<u8>, end: int, opt: Options, props: Seq<UserProperty>, pos: int, k: spec_fn(int) -> Option<int>|
                        #[trigger] node_end(Node::Alt(*v), enc, hay, end, opt, props, pos, k) == node_end(v@[0], enc, hay, end, opt, props, pos, k) by {
                        assert(v@.len() == 1);
                        assert(alt_from(*v, 1, enc, hay, end, opt, props, pos, k) is None);
                        assert(node_end(Node::Alt(*v), enc, hay, end, opt, props, pos, k) == alt_from(*v, 0, enc, hay, end, opt, props, pos, k));
                    }
                    lemma_same_code(insts, s, out@.len() as int, v@[0], Node::Alt(*v));
                }
            }
        }
        return;
    }
    let mut holes: Vec<usize> = Vec::new();
    let last = v.len() - 1;
    let mut i: usize = 0;
    proof {
        assert forall|insts: Seq<Inst>, e: int| #[trigger] alt_holds(insts, out@, s, holes@, e) implies alt_code(
            insts,
            s,
            out@.len() as int,
            e,
            *v,
            0,
        ) by {}
    }
    while i < last
        invariant
            i <= last,
            last == v@.len() - 1,
            s == o0.len(),
            o0 == old(out)@,
            plain == plain_nodes(*v, 0),
            extends(out@, o0),
            forall|k: int| 0 <= k < holes@.len() ==> o0.len() <= #[trigger] holes@[k] < out@.len(),
            forall|a: int, b: int| 0 <= a < b < holes@.len() ==> holes@[a] < holes@[b],
            out@.len() < 65536 ==> forall|p: int|
                o0.len() <= p < out@.len() ==> is_hole(holes@, 0, p) || #[trigger] inst_forward(
                    out@[p],
                    p,
                    out@.len() as int,
                ),
            plain ==> plain_range(out@, s, out@.len() as int),
            plain ==> forall|insts: Seq<Inst>, e: int|
                #[trigger] alt_holds(insts, out@, s, holes@, e) ==> alt_code(
                    insts,
                    s,
                    out@.len() as int,
                    e,
                    *v,
                    i as int,
                ),
        decreases last - i,
    {
        proof {
            assert(decreases_to!(v => v@[i as int]));
        }
        let ghost h0 = holes@;
        let ghost a = out@;
        let split_at = out.len();
        out.push(Inst::Split(0, 0));
        let l1 = here(out);
        let ghost b = out@;
        emit(&v[i], out);
        let ghost c = out@;
        holes.push(out.len());
        out.push(Inst::Jump(0));
        let l2 = here(out);
        out.set(split_at, Inst::Split(l1, l2));
        proof {
            let n = out@.len();
            let cl = c.len() as int;
            assert forall|k: int| 0 <= k < o0.len() implies #[trigger] out@[k] == o0[k] by {
                assert(a[k] == o0[k]);
                assert(b[k] == a[k]);
                assert(c[k] == b[k]);
            }
            assert forall|k: int| 0 <= k < h0.len() implies holes@[k] == #[trigger] h0[k] by {}
            if n < 65536 {
                assert forall|p: int| o0.len() <= p < n implies is_hole(holes@, 0, p)
                    || #[trigger] inst_forward(out@[p], p, n as int) by {
                    if p < split_at {
                        assert(out@[p] == a[p]);
                        if is_hole(h0, 0, p) {
                            let j = choose|j: int| 0 <= j < h0.len() && h0[j] == p;
                            assert(holes@[j] == p);
                        } else {
                            assert(inst_forward(a[p], p, a.len() as int));
                        }
                    } else if split_at < p < c.len() {
                        assert(out@[p] == c[p]);
                        assert(inst_forward(c[p], p, c.len() as int));
                    } else if p == c.len() {
                        assert(holes@[holes@.len() - 1] == p);
                    }
                }
            }
            if plain {
                lemma_plain_nodes(*v, 0, i as int);
                assert forall|k: int| s <= k < n implies #[trigger] plain_inst(out@[k]) by {
                    if k < split_at {
                        assert(out@[k] == a[k]);
                    } else if split_at < k < cl {
                        assert(out@[k] == c[k]);
                    }
                }
                assert forall|insts: Seq<Inst>, e: int| #[trigger] alt_holds(insts, out@, s, holes@, e) implies alt_code(
                    insts,
                    s,
                    n as int,
                    e,
                    *v,
                    i + 1,
                ) by {
                    assert(alt_holds(insts, a, s, h0, e)) by {
                        assert forall|k: int| s <= k < a.len() implies if is_hole(h0, 0, k) {
                            #[trigger] insts[k] == Inst::Jump(e as u16)
                        } else {
                            insts[k] == a[k]
                        } by {
                            assert(out@[k] == a[k]);
                            if is_hole(h0, 0, k) {
                                let j = choose|j: int| 0 <= j < h0.len() && h0[j] == k;
                                assert(holes@[j] == k);
                                assert(is_hole(holes@, 0, k));
                            } else {
                                if is_hole(holes@, 0, k) {
                                    let j = choose|j: int| 0 <= j < holes@.len() && holes@[j] == k;
                                    if j < h0.len() {
                                        assert(h0[j] == k);
                                    }
                                }
                            }
                        }
                    }
                    assert(holds_code(insts, c, split_at + 1, cl)) by {
                        assert forall|k: int| split_at + 1 <= k < cl implies insts[k] == #[trigger] c[k] by {
                            assert(out@[k] == c[k]);
                            if is_hole(holes@, 0, k) {
                                let j = choose|j: int| 0 <= j < holes@.len() && holes@[j] == k;
                                if j < h0.len() {
                                    assert(h0[j] == k);
                                }
                            }
                        }
                    }
                    assert(is_hole(holes@, 0, cl)) by {
                        assert(holes@[holes@.len() - 1] == cl);
                    }
                    assert(insts[cl] == Inst::Jump(e as u16));
                    assert(!is_hole(holes@, 0, split_at as int)) by {
                        if is_hole(holes@, 0, split_at as int) {
                            let j = choose|j: int| 0 <= j < holes@.len() && holes@[j] == split_at;
                            if j < h0.len() {
                                assert(h0[j] == split_at);
                            }
                        }
                    }
                    assert(insts[split_at as int] == out@[split_at as int]);
                    lemma_alt_branch(insts, s, split_at as int, cl, e, *v, i as int);
                }
            }
        }
        i = i + 1;
    }
    let ghost om = out@;
    let ghost lpos = out@.len() as int;
    proof {
        assert(decreases_to!(v => v@[last as int]));
    }
    emit(&v[last], out);
    let ghost ol = out@;
    let end = here(out);
    let n = out.len();
    proof {
        lemma_emitted_chain(om, om, ol);
        assert forall|k: int| 0 <= k < o0.len() implies #[trigger] ol[k] == o0[k] by {
            assert(om[k] == o0[k]);
        }
        if n < 65536 {
            assert forall|p: int| o0.len() <= p < n implies is_hole(holes@, 0, p)
                || #[trigger] inst_forward(ol[p], p, n as int) by {
                if p < lpos {
                    assert(ol[p] == om[p]);
                    if !is_hole(holes@, 0, p) {
                        assert(inst_forward(om[p], p, lpos));
                    }
                } else {
                    assert(inst_forward(ol[p], p, n as int));
                }
            }
        }
    }
    let mut k: usize = 0;
    while k < holes.len()
        invariant
            k <= holes@.len(),
            n == out@.len(),
            n == ol.len(),
            extends(out@, o0),
            o0 == old(out)@,
            n < 65536 ==> end == n,
            forall|j: int| 0 <= j < holes@.len() ==> o0.len() <= #[trigger] holes@[j] < lpos,
            forall|a: int, b: int| 0 <= a < b < holes@.len() ==> holes@[a] < holes@[b],
            lpos <= n,
            n < 65536 ==> forall|p: int|
                o0.len() <= p < n ==> is_hole(holes@, k as int, p) || #[trigger] inst_forward(
                    out@[p],
                    p,
                    n as int,
                ),
            forall|p: int|
                0 <= p < n ==> if is_hole(holes@, 0, p) && !is_hole(holes@, k as int, p) {
                    #[trigger] out@[p] == Inst::Jump(end)
                } else {
                    out@[p] == ol[p]
                },
        decreases holes@.len() - k,
    {
        let ghost a = out@;
        let h = holes[k];
        out.set(h, Inst::Jump(end));
        proof {
            if n < 65536 {
                assert forall|p: int| o0.len() <= p < n implies is_hole(holes@, k + 1, p)
                    || #[trigger] inst_forward(out@[p], p, n as int) by {
                    if p != h {
                        assert(out@[p] == a[p]);
                        if is_hole(holes@, k as int, p) {
                            let j = choose|j: int| k <= j < holes@.len() && holes@[j] == p;
                            assert(j != k);
                        }
                    }
                }
            }
            assert forall|p: int| 0 <= p < n implies if is_hole(holes@, 0, p) && !is_hole(
                holes@,
                k + 1,
                p,
            ) {
                #[trigger] out@[p] == Inst::Jump(end)
            } else {
                out@[p] == ol[p]
            } by {
                if p != h {
                    assert(out@[p] == a[p]);
                    if is_hole(holes@, k as int, p) && !is_hole(holes@, k + 1, p) {
                        let j = choose|j: int| k <= j < holes@.len() && holes@[j] == p;
                        assert(j == k);
                    }
                    if is_hole(holes@, k + 1, p) {
                        let j = choose|j: int| k + 1 <= j < holes@.len() && holes@[j] == p;
                        assert(is_hole(holes@, k as int, p));
                    }
                } else {
                    assert(is_hole(holes@, 0, p)) by {
                        assert(holes@[k as int] == p);
                    }
                    if is_hole(holes@, k + 1, p) {
                        let j = choose|j: int| k + 1 <= j < holes@.len() && holes@[j] == p;
                        assert(holes@[k as int] < holes@[j]);
                    }
                }
            }
        }
        k = k + 1;
    }
    proof {
        if plain {
            lemma_plain_nodes(*v, 0, last as int);
            assert forall|p: int| s <= p < n implies #[trigger] plain_inst(out@[p]) by {
                if is_hole(holes@, 0, p) && !is_hole(holes@, holes@.len() as int, p) {
                } else {
                    assert(out@[p] == ol[p]);
                    if p < lpos {
                        assert(ol[p] == om[p]);
                    }
                }
            }
            assert forall|insts: Seq<Inst>| #[trigger] holds_code(insts, out@, s, n as int) implies code_means(
                insts,
                s,
                n as int,
                Node::Alt(*v),
            ) by {
                assert(alt_holds(insts, om, s, holes@, n as int)) by {
                    assert forall|p: int| s <= p < om.len() implies if is_hole(holes@, 0, p) {
                        #[trigger] insts[p] == Inst::Jump(n as u16)
                    } else {
                        insts[p] == om[p]
                    } by {
                        assert(insts[p] == out@[p]);
                        assert(ol[p] == om[p]);
                        assert(!is_hole(holes@, holes@.len() as int, p));
                    }
                }
                assert(holds_code(insts, ol, lpos, n as int)) by {
                    assert forall|p: int| lpos <= p < n implies insts[p] == #[trigger] ol[p] by {
                        assert(insts[p] == out@[p]);
                        if is_hole(holes@, 0, p) {
                            let j = choose|j: int| 0 <= j < holes@.len() && holes@[j] == p;
                        }
                    }
                }
                lemma_alt_done(insts, s, lpos, n as int, *v);
            }
        }
    }
}

} // verus!
