//! What a syntax tree of the plain fragment matches, and the facts that tie
//! it to the meaning of the code it compiles to.
//!
//! A tree is read in continuation style: `node_end(n, .., pos, k)` is where
//! the first match ends when `n` is matched at `pos` and the rest of the
//! pattern, `k`, goes on from where `n` stopped. Alternatives are tried in
//! order, and each way through a node is handed on to `k` before the next
//! one is tried, as a backtracking matcher does.

use vstd::prelude::*;
use super::ast::Node;
use super::encoding::Encoding;
use super::exec::plain::{
    any_step, anchor_spec, ascii_lit, char_at_spec, char_step, chars_step, class_step,
    compares_bytes, first_end, lemma_first_byte, lit_step, plain_inst,
};
use super::opcode::Inst;
use super::syntax::Options;
use super::unicode::UserProperty;

verus! {

/// The trees of the plain fragment: characters, literals, any-character,
/// classes, anchors other than `\G`, sequences, alternations with at least
/// one branch, and groups (capturing or not) around such trees.
pub open spec fn plain_node(n: Node) -> bool
    decreases n, 0int,
{
    match n {
        Node::Empty | Node::Char(_) | Node::Literal(_) | Node::Any { .. } | Node::SuperAny
        | Node::Class(_) => true,
        Node::Anchor(a) => !(a is G),
        Node::Concat(v) => plain_nodes(v, 0),
        Node::Alt(v) => v@.len() > 0 && plain_nodes(v, 0),
        Node::Capture { inner, .. } => plain_node(*inner),
        Node::Group(inner) => plain_node(*inner),
        _ => false,
    }
}

/// Every tree of `v` from `i` on is of the plain fragment.
pub open spec fn plain_nodes(v: Vec<Node>, i: int) -> bool
    decreases v, v@.len() - i,
{
    if i < 0 || i >= v@.len() {
        true
    } else {
        plain_node(v@[i]) && plain_nodes(v, i + 1)
    }
}

/// Where the first match of `n` at `pos`, followed by `k`, ends.
pub open spec fn node_end(
    n: Node,
    enc: Encoding,
    hay: Seq<u8>,
    end: int,
    opt: Options,
    props: Seq<UserProperty>,
    pos: int,
    k: spec_fn(int) -> Option<int>,
) -> Option<int>
    decreases n, 0int, 0int,
{
    match n {
        Node::Empty => k(pos),
        Node::Char(c) => match char_step(enc, hay, end, opt, pos, c) {
            Some(p) => k(p),
            None => None,
        },
        Node::Literal(v) => match lit_step(enc, hay, end, opt, pos, v@) {
            Some(p) => k(p),
            None => None,
        },
        Node::Any { newline } => match any_step(enc, hay, end, pos, newline, false) {
            Some(p) => k(p),
            None => None,
        },
        Node::SuperAny => match any_step(enc, hay, end, pos, true, true) {
            Some(p) => k(p),
            None => None,
        },
        Node::Class(cc) => match class_step(enc, hay, end, opt, props, pos, cc) {
            Some(p) => k(p),
            None => None,
        },
        Node::Anchor(a) => if anchor_spec(a, enc, hay, end, opt, pos) {
            k(pos)
        } else {
            None
        },
        Node::Concat(v) => seq_upto(v, 0, v@.len() as int, enc, hay, end, opt, props, pos, k),
        Node::Alt(v) => alt_from(v, 0, enc, hay, end, opt, props, pos, k),
        Node::Capture { inner, .. } => node_end(*inner, enc, hay, end, opt, props, pos, k),
        Node::Group(inner) => node_end(*inner, enc, hay, end, opt, props, pos, k),
        _ => None,
    }
}

/// `v[i..j]` one after another, then `k`.
pub open spec fn seq_upto(
    v: Vec<Node>,
    i: int,
    j: int,
    enc: Encoding,
    hay: Seq<u8>,
    end: int,
    opt: Options,
    props: Seq<UserProperty>,
    pos: int,
    k: spec_fn(int) -> Option<int>,
) -> Option<int>
    decreases v, j - i, 1int,
{
    if i < 0 || i >= j || j > v@.len() {
        k(pos)
    } else {
        node_end(v@[i], enc, hay, end, opt, props, pos, seq_k(v, i + 1, j, enc, hay, end, opt, props, k))
    }
}

/// `v[i..j]` then `k`, as the rest of a pattern.
pub open spec fn seq_k(
    v: Vec<Node>,
    i: int,
    j: int,
    enc: Encoding,
    hay: Seq<u8>,
    end: int,
    opt: Options,
    props: Seq<UserProperty>,
    k: spec_fn(int) -> Option<int>,
) -> spec_fn(int) -> Option<int>
    decreases v, j - i, 2int,
{
    |p: int| seq_upto(v, i, j, enc, hay, end, opt, props, p, k)
}

/// The branches `v[i..]` in order, each followed by `k`: the first that
/// leads to a match decides.
pub open spec fn alt_from(
    v: Vec<Node>,
    i: int,
    enc: Encoding,
    hay: Seq<u8>,
    end: int,
    opt: Options,
    props: Seq<UserProperty>,
    pos: int,
    k: spec_fn(int) -> Option<int>,
) -> Option<int>
    decreases v, v@.len() - i, 1int,
{
    if i < 0 || i >= v@.len() {
        None
    } else {
        match node_end(v@[i], enc, hay, end, opt, props, pos, k) {
            Some(e) => Some(e),
            None => alt_from(v, i + 1, enc, hay, end, opt, props, pos, k),
        }
    }
}

/// The branches `v[i..j]` in order, each followed by `k`, and `fall` when
/// none of them leads to a match.
pub open spec fn alt_chain(
    v: Vec<Node>,
    i: int,
    j: int,
    enc: Encoding,
    hay: Seq<u8>,
    end: int,
    opt: Options,
    props: Seq<UserProperty>,
    pos: int,
    k: spec_fn(int) -> Option<int>,
    fall: Option<int>,
) -> Option<int>
    decreases j - i,
{
    if i < 0 || i >= j || j > v@.len() {
        fall
    } else {
        match node_end(v@[i], enc, hay, end, opt, props, pos, k) {
            Some(e) => Some(e),
            None => alt_chain(v, i + 1, j, enc, hay, end, opt, props, pos, k, fall),
        }
    }
}

/// The characters `cs`, one after another, then `k`.
pub open spec fn chars_then(
    cs: Seq<u32>,
    enc: Encoding,
    hay: Seq<u8>,
    end: int,
    opt: Options,
    pos: int,
    k: spec_fn(int) -> Option<int>,
) -> Option<int> {
    match chars_step(enc, hay, end, opt, pos, cs, 0) {
        Some(p) => k(p),
        None => None,
    }
}

/// The rest of a match, when it is the code of `insts` from `pc`.
pub open spec fn fe_k(
    insts: Seq<Inst>,
    enc: Encoding,
    hay: Seq<u8>,
    end: int,
    opt: Options,
    props: Seq<UserProperty>,
    pc: int,
) -> spec_fn(int) -> Option<int> {
    |p: int| first_end(insts, enc, hay, end, opt, props, pc, p, None)
}

/// From `s`, the code of `insts` matches `n` and then goes on at `e`.
pub open spec fn code_means(insts: Seq<Inst>, s: int, e: int, n: Node) -> bool {
    forall|enc: Encoding, hay: Seq<u8>, end: int, opt: Options, props: Seq<UserProperty>, pos: int|
        #[trigger] first_end(insts, enc, hay, end, opt, props, s, pos, None) == node_end(
            n,
            enc,
            hay,
            end,
            opt,
            props,
            pos,
            fe_k(insts, enc, hay, end, opt, props, e),
        )
}

/// A match with `n` goes on the same way after `n` when the rest of the
/// pattern does.
pub proof fn lemma_node_end_same_rest(
    n: Node,
    enc: Encoding,
    hay: Seq<u8>,
    end: int,
    opt: Options,
    props: Seq<UserProperty>,
    pos: int,
    k1: spec_fn(int) -> Option<int>,
    k2: spec_fn(int) -> Option<int>,
)
    requires
        forall|p: int| #[trigger] k1(p) == k2(p),
    ensures
        node_end(n, enc, hay, end, opt, props, pos, k1) == node_end(
            n,
            enc,
            hay,
            end,
            opt,
            props,
            pos,
            k2,
        ),
{
    assert(k1 =~= k2);
}

/// Running `v[i..m]` and then `v[m..j]` is running `v[i..j]`.
pub proof fn lemma_seq_split(
    v: Vec<Node>,
    i: int,
    m: int,
    j: int,
    enc: Encoding,
    hay: Seq<u8>,
    end: int,
    opt: Options,
    props: Seq<UserProperty>,
    pos: int,
    k: spec_fn(int) -> Option<int>,
)
    requires
        0 <= i <= m <= j <= v@.len(),
    ensures
        seq_upto(v, i, j, enc, hay, end, opt, props, pos, k) == seq_upto(
            v,
            i,
            m,
            enc,
            hay,
            end,
            opt,
            props,
            pos,
            seq_k(v, m, j, enc, hay, end, opt, props, k),
        ),
    decreases m - i,
{
    if i < m {
        let k1 = seq_k(v, i + 1, j, enc, hay, end, opt, props, k);
        let k2 = seq_k(v, i + 1, m, enc, hay, end, opt, props, seq_k(v, m, j, enc, hay, end, opt, props, k));
        assert forall|p: int| #[trigger] k1(p) == k2(p) by {
            lemma_seq_split(v, i + 1, m, j, enc, hay, end, opt, props, p, k);
        }
        lemma_node_end_same_rest(v@[i], enc, hay, end, opt, props, pos, k1, k2);
    }
}

/// Running the one node `v[i]`.
pub proof fn lemma_seq_one(
    v: Vec<Node>,
    i: int,
    enc: Encoding,
    hay: Seq<u8>,
    end: int,
    opt: Options,
    props: Seq<UserProperty>,
    pos: int,
    k: spec_fn(int) -> Option<int>,
)
    requires
        0 <= i < v@.len(),
    ensures
        seq_upto(v, i, i + 1, enc, hay, end, opt, props, pos, k) == node_end(
            v@[i],
            enc,
            hay,
            end,
            opt,
            props,
            pos,
            k,
        ),
{
    let k1 = seq_k(v, i + 1, i + 1, enc, hay, end, opt, props, k);
    assert forall|p: int| #[trigger] k1(p) == k(p) by {}
    lemma_node_end_same_rest(v@[i], enc, hay, end, opt, props, pos, k1, k);
}

/// A run of character nodes means its characters one after another.
pub proof fn lemma_seq_chars(
    v: Vec<Node>,
    i: int,
    j: int,
    cs: Seq<u32>,
    enc: Encoding,
    hay: Seq<u8>,
    end: int,
    opt: Options,
    props: Seq<UserProperty>,
    pos: int,
    k: spec_fn(int) -> Option<int>,
)
    requires
        0 <= i <= j <= v@.len(),
        cs.len() == j - i,
        forall|t: int| 0 <= t < cs.len() ==> v@[i + t] == Node::Char(#[trigger] cs[t]),
    ensures
        seq_upto(v, i, j, enc, hay, end, opt, props, pos, k) == chars_then(
            cs,
            enc,
            hay,
            end,
            opt,
            pos,
            k,
        ),
    decreases j - i,
{
    if i < j {
        let rest = cs.subrange(1, cs.len() as int);
        assert forall|t: int| 0 <= t < rest.len() implies v@[i + 1 + t] == Node::Char(
            #[trigger] rest[t],
        ) by {
            assert(v@[i + (t + 1)] == Node::Char(cs[t + 1]));
        }
        assert(v@[i + 0] == Node::Char(cs[0]));
        match char_step(enc, hay, end, opt, pos, cs[0]) {
            Some(p) => {
                lemma_seq_chars(v, i + 1, j, rest, enc, hay, end, opt, props, p, k);
                lemma_chars_step_shift(enc, hay, end, opt, p, cs, 1);
            },
            None => {},
        }
    } else {
        assert(chars_step(enc, hay, end, opt, pos, cs, 0) == Some(pos));
    }
}

/// Stepping over `cs[1..]` from the start is stepping over `cs` from its
/// second character.
proof fn lemma_chars_step_shift(
    enc: Encoding,
    hay: Seq<u8>,
    end: int,
    opt: Options,
    pos: int,
    cs: Seq<u32>,
    k: int,
)
    requires
        1 <= k <= cs.len(),
    ensures
        chars_step(enc, hay, end, opt, pos, cs, k) == chars_step(
            enc,
            hay,
            end,
            opt,
            pos,
            cs.subrange(1, cs.len() as int),
            k - 1,
        ),
    decreases cs.len() - k,
{
    let rest = cs.subrange(1, cs.len() as int);
    if k < cs.len() {
        assert(rest[k - 1] == cs[k]);
        match char_step(enc, hay, end, opt, pos, cs[k]) {
            Some(p) => lemma_chars_step_shift(enc, hay, end, opt, p, cs, k + 1),
            None => {},
        }
    }
}

/// In an encoding whose characters can be one byte long, an ASCII byte is
/// the whole character it starts.
pub proof fn lemma_ascii_byte_char(enc: Encoding, hay: Seq<u8>, q: int, end: int)
    requires
        enc.min_len_spec() == 1,
        0 <= q < end <= hay.len(),
        hay[q] < 0x80,
    ensures
        char_at_spec(enc, hay, q, end) == Some((hay[q] as u32, 1nat)),
{
    let rest = hay.subrange(q, end);
    assert(rest[0] == hay[q]);
}

/// An all-ASCII literal compared byte for byte steps over the same text as
/// its characters read one by one, from the `k`-th on.
proof fn lemma_bytes_step(
    enc: Encoding,
    hay: Seq<u8>,
    end: int,
    opt: Options,
    pos: int,
    v: Seq<u32>,
    k: int,
)
    requires
        compares_bytes(enc, opt, v),
        0 <= k <= v.len(),
    ensures
        chars_step(enc, hay, end, opt, pos + k, v, k) == if k == v.len() || (0 <= pos + k
            && pos + v.len() <= end && end <= hay.len() && forall|t: int|
            k <= t < v.len() ==> hay[pos + t] as u32 == #[trigger] v[t]) {
            Some(pos + v.len())
        } else {
            None
        },
    decreases v.len() - k,
{
    if k < v.len() {
        let q = pos + k;
        lemma_bytes_step(enc, hay, end, opt, pos, v, k + 1);
        assert(v[k] <= 0x7F) by {
            assert(ascii_lit(v) is Some);
        }
        if 0 <= q < end && end <= hay.len() && hay[q] as u32 == v[k] {
            lemma_ascii_byte_char(enc, hay, q, end);
            assert(char_step(enc, hay, end, opt, q, v[k]) == Some(q + 1));
            assert(pos + (k + 1) == q + 1);
        } else {
            if char_at_spec(enc, hay, q, end) is Some {
                lemma_first_byte(enc, hay, q, end);
            }
            assert(char_step(enc, hay, end, opt, q, v[k]) is None);
        }
    }
}

/// A literal of at least one character steps over the text its characters
/// do, one by one.
pub proof fn lemma_lit_step_chars(
    enc: Encoding,
    hay: Seq<u8>,
    end: int,
    opt: Options,
    pos: int,
    v: Seq<u32>,
)
    requires
        v.len() >= 1,
    ensures
        lit_step(enc, hay, end, opt, pos, v) == chars_step(enc, hay, end, opt, pos, v, 0),
{
    if compares_bytes(enc, opt, v) {
        lemma_bytes_step(enc, hay, end, opt, pos, v, 0);
        let b = ascii_lit(v)->0;
        if 0 <= pos && pos + b.len() <= end && end <= hay.len() {
            let sub = hay.subrange(pos, pos + b.len());
            if sub == b {
                assert forall|t: int| 0 <= t < v.len() implies hay[pos + t] as u32 == #[trigger] v[t] by {
                    assert(sub[t] == b[t]);
                }
            } else {
                if forall|t: int| 0 <= t < v.len() ==> hay[pos + t] as u32 == #[trigger] v[t] {
                    assert(sub =~= b) by {
                        assert forall|t: int| 0 <= t < b.len() implies sub[t] == b[t] by {
                            assert(hay[pos + t] as u32 == v[t]);
                            assert(v[t] <= 0x7F);
                        }
                    }
                }
            }
        }
    }
}

/// Two branches' chains: the last branch is what the chain of the others
/// falls back to.
pub proof fn lemma_alt_chain_last(
    v: Vec<Node>,
    i: int,
    enc: Encoding,
    hay: Seq<u8>,
    end: int,
    opt: Options,
    props: Seq<UserProperty>,
    pos: int,
    k: spec_fn(int) -> Option<int>,
)
    requires
        v@.len() >= 1,
        0 <= i <= v@.len() - 1,
    ensures
        alt_chain(
            v,
            i,
            v@.len() - 1,
            enc,
            hay,
            end,
            opt,
            props,
            pos,
            k,
            node_end(v@[v@.len() - 1], enc, hay, end, opt, props, pos, k),
        ) == alt_from(v, i, enc, hay, end, opt, props, pos, k),
    decreases v@.len() - i,
{
    if i < v@.len() - 1 {
        lemma_alt_chain_last(v, i + 1, enc, hay, end, opt, props, pos, k);
    } else {
        assert(alt_from(v, i + 1, enc, hay, end, opt, props, pos, k) is None);
    }
}

/// `insts` holds `out`'s code from `s` to `e`, within the reach of 16-bit
/// jump targets.
pub open spec fn holds_code(insts: Seq<Inst>, out: Seq<Inst>, s: int, e: int) -> bool {
    &&& 0 <= s <= e <= out.len()
    &&& e <= insts.len() < 65536
    &&& forall|k: int| s <= k < e ==> insts[k] == #[trigger] out[k]
}

/// The instructions of `out` from `s` to `e` are of the plain fragment.
pub open spec fn plain_range(out: Seq<Inst>, s: int, e: int) -> bool {
    forall|k: int| s <= k < e ==> #[trigger] plain_inst(out[k])
}

/// From `s`, the code of `insts` steps over the characters `cs` and goes on
/// at `e`.
pub open spec fn chars_code(insts: Seq<Inst>, s: int, e: int, cs: Seq<u32>) -> bool {
    forall|enc: Encoding, hay: Seq<u8>, end: int, opt: Options, props: Seq<UserProperty>, pos: int|
        #[trigger] first_end(insts, enc, hay, end, opt, props, s, pos, None) == chars_then(
            cs,
            enc,
            hay,
            end,
            opt,
            pos,
            fe_k(insts, enc, hay, end, opt, props, e),
        )
}

/// From `s`, the code of `insts` runs `v[..j]` and goes on at `e`.
pub open spec fn seq_code(insts: Seq<Inst>, s: int, e: int, v: Vec<Node>, j: int) -> bool {
    forall|enc: Encoding, hay: Seq<u8>, end: int, opt: Options, props: Seq<UserProperty>, pos: int|
        #[trigger] first_end(insts, enc, hay, end, opt, props, s, pos, None) == seq_upto(
            v,
            0,
            j,
            enc,
            hay,
            end,
            opt,
            props,
            pos,
            fe_k(insts, enc, hay, end, opt, props, e),
        )
}

/// From `s`, the code of `insts` tries the branches `v[..i]`, each going on
/// at `target` after it, and else goes on as the code at `cur` does.
pub open spec fn alt_code(insts: Seq<Inst>, s: int, cur: int, target: int, v: Vec<Node>, i: int) -> bool {
    forall|enc: Encoding, hay: Seq<u8>, end: int, opt: Options, props: Seq<UserProperty>, pos: int|
        #[trigger] first_end(insts, enc, hay, end, opt, props, s, pos, None) == alt_chain(
            v,
            0,
            i,
            enc,
            hay,
            end,
            opt,
            props,
            pos,
            fe_k(insts, enc, hay, end, opt, props, target),
            first_end(insts, enc, hay, end, opt, props, cur, pos, None),
        )
}

/// The code of a sequence grows by a run of characters and one more node.
pub proof fn lemma_concat_step(
    insts: Seq<Inst>,
    s: int,
    m0: int,
    m1: int,
    m2: int,
    v: Vec<Node>,
    j: int,
    i: int,
    cs: Seq<u32>,
)
    requires
        0 <= j <= i < v@.len(),
        cs.len() == i - j,
        forall|t: int| 0 <= t < cs.len() ==> v@[j + t] == Node::Char(#[trigger] cs[t]),
        seq_code(insts, s, m0, v, j),
        chars_code(insts, m0, m1, cs),
        code_means(insts, m1, m2, v@[i]),
    ensures
        seq_code(insts, s, m2, v, i + 1),
{
    assert forall|enc: Encoding, hay: Seq<u8>, end: int, opt: Options, props: Seq<UserProperty>, pos: int|
        #[trigger] first_end(insts, enc, hay, end, opt, props, s, pos, None) == seq_upto(
            v,
            0,
            i + 1,
            enc,
            hay,
            end,
            opt,
            props,
            pos,
            fe_k(insts, enc, hay, end, opt, props, m2),
        ) by {
        let k2 = fe_k(insts, enc, hay, end, opt, props, m2);
        let k1 = fe_k(insts, enc, hay, end, opt, props, m1);
        let k0 = fe_k(insts, enc, hay, end, opt, props, m0);
        let after_i = seq_k(v, i, i + 1, enc, hay, end, opt, props, k2);
        let after_j = seq_k(v, j, i + 1, enc, hay, end, opt, props, k2);
        assert forall|q: int| #[trigger] k1(q) == after_i(q) by {
            assert(first_end(insts, enc, hay, end, opt, props, m1, q, None) == node_end(
                v@[i],
                enc,
                hay,
                end,
                opt,
                props,
                q,
                k2,
            ));
            lemma_seq_one(v, i, enc, hay, end, opt, props, q, k2);
        }
        assert forall|p: int| #[trigger] k0(p) == after_j(p) by {
            assert(first_end(insts, enc, hay, end, opt, props, m0, p, None) == chars_then(
                cs,
                enc,
                hay,
                end,
                opt,
                p,
                k1,
            ));
            lemma_chars_then_same_rest(cs, enc, hay, end, opt, p, k1, after_i);
            lemma_seq_chars(v, j, i, cs, enc, hay, end, opt, props, p, after_i);
            lemma_seq_split(v, j, i, i + 1, enc, hay, end, opt, props, p, k2);
        }
        lemma_seq_same_rest(v, 0, j, enc, hay, end, opt, props, pos, k0, after_j);
        lemma_seq_split(v, 0, j, i + 1, enc, hay, end, opt, props, pos, k2);
    }
}

/// The code of a sequence ends with a run of characters.
pub proof fn lemma_concat_last(
    insts: Seq<Inst>,
    s: int,
    m0: int,
    m1: int,
    v: Vec<Node>,
    j: int,
    cs: Seq<u32>,
)
    requires
        0 <= j <= v@.len(),
        cs.len() == v@.len() - j,
        forall|t: int| 0 <= t < cs.len() ==> v@[j + t] == Node::Char(#[trigger] cs[t]),
        seq_code(insts, s, m0, v, j),
        chars_code(insts, m0, m1, cs),
    ensures
        seq_code(insts, s, m1, v, v@.len() as int),
{
    let n = v@.len() as int;
    assert forall|enc: Encoding, hay: Seq<u8>, end: int, opt: Options, props: Seq<UserProperty>, pos: int|
        #[trigger] first_end(insts, enc, hay, end, opt, props, s, pos, None) == seq_upto(
            v,
            0,
            n,
            enc,
            hay,
            end,
            opt,
            props,
            pos,
            fe_k(insts, enc, hay, end, opt, props, m1),
        ) by {
        let k1 = fe_k(insts, enc, hay, end, opt, props, m1);
        let k0 = fe_k(insts, enc, hay, end, opt, props, m0);
        let after_j = seq_k(v, j, n, enc, hay, end, opt, props, k1);
        assert forall|p: int| #[trigger] k0(p) == after_j(p) by {
            assert(first_end(insts, enc, hay, end, opt, props, m0, p, None) == chars_then(
                cs,
                enc,
                hay,
                end,
                opt,
                p,
                k1,
            ));
            lemma_seq_chars(v, j, n, cs, enc, hay, end, opt, props, p, k1);
        }
        lemma_seq_same_rest(v, 0, j, enc, hay, end, opt, props, pos, k0, after_j);
        lemma_seq_split(v, 0, j, n, enc, hay, end, opt, props, pos, k1);
    }
}

/// Characters followed by the same rest step the same way.
pub proof fn lemma_chars_then_same_rest(
    cs: Seq<u32>,
    enc: Encoding,
    hay: Seq<u8>,
    end: int,
    opt: Options,
    pos: int,
    k1: spec_fn(int) -> Option<int>,
    k2: spec_fn(int) -> Option<int>,
)
    requires
        forall|p: int| #[trigger] k1(p) == k2(p),
    ensures
        chars_then(cs, enc, hay, end, opt, pos, k1) == chars_then(cs, enc, hay, end, opt, pos, k2),
{
    assert(k1 =~= k2);
}

/// A sequence followed by the same rest runs the same way.
pub proof fn lemma_seq_same_rest(
    v: Vec<Node>,
    i: int,
    j: int,
    enc: Encoding,
    hay: Seq<u8>,
    end: int,
    opt: Options,
    props: Seq<UserProperty>,
    pos: int,
    k1: spec_fn(int) -> Option<int>,
    k2: spec_fn(int) -> Option<int>,
)
    requires
        forall|p: int| #[trigger] k1(p) == k2(p),
    ensures
        seq_upto(v, i, j, enc, hay, end, opt, props, pos, k1) == seq_upto(
            v,
            i,
            j,
            enc,
            hay,
            end,
            opt,
            props,
            pos,
            k2,
        ),
{
    assert(k1 =~= k2);
}

/// One more branch in the chain: what it falls back to is tried after it.
pub proof fn lemma_alt_chain_extend(
    v: Vec<Node>,
    j: int,
    i: int,
    enc: Encoding,
    hay: Seq<u8>,
    end: int,
    opt: Options,
    props: Seq<UserProperty>,
    pos: int,
    k: spec_fn(int) -> Option<int>,
    fall: Option<int>,
)
    requires
        0 <= j <= i < v@.len(),
    ensures
        alt_chain(
            v,
            j,
            i,
            enc,
            hay,
            end,
            opt,
            props,
            pos,
            k,
            match node_end(v@[i], enc, hay, end, opt, props, pos, k) {
                Some(e) => Some(e),
                None => fall,
            },
        ) == alt_chain(v, j, i + 1, enc, hay, end, opt, props, pos, k, fall),
    decreases i - j,
{
    if j < i {
        lemma_alt_chain_extend(v, j + 1, i, enc, hay, end, opt, props, pos, k, fall);
    } else {
        assert(alt_chain(v, i + 1, i + 1, enc, hay, end, opt, props, pos, k, fall) == fall);
    }
}

/// The rest of a pattern that accepts wherever it is reached.
pub open spec fn accept() -> spec_fn(int) -> Option<int> {
    |p: int| Some(p)
}

/// From its start, `insts` finds what the tree `root` means, a match ending
/// where `root` ends.
pub open spec fn program_means(insts: Seq<Inst>, root: Node) -> bool {
    forall|enc: Encoding, hay: Seq<u8>, end: int, opt: Options, props: Seq<UserProperty>, pos: int|
        #[trigger] first_end(insts, enc, hay, end, opt, props, 0, pos, None) == node_end(
            root,
            enc,
            hay,
            end,
            opt,
            props,
            pos,
            accept(),
        )
}

} // verus!
