//! Regex syntax tree.

use vstd::prelude::*;
use super::callout::CalloutDir;
use super::syntax::Options;

verus! {

#[derive(Debug)]
pub enum Node {
    Empty,
    Char(u32),
    Literal(Vec<u32>),
    Any { newline: bool },
    /// `\O` true anychar.
    SuperAny,
    Class(CharClass),
    Concat(Vec<Node>),
    Alt(Vec<Node>),
    Repeat { inner: Box<Node>, min: u32, max: Option<u32>, greedy: bool, possessive: bool },
    Capture { index: usize, name: Option<String>, inner: Box<Node>, history: bool },
    Group(Box<Node>),
    Anchor(Anchor),
    Backref(Backref),
    Look { behind: bool, negative: bool, inner: Box<Node> },
    Atomic(Box<Node>),
    Call(CallTarget),
    Absent { stopper: Box<Node>, expr: Option<Box<Node>>, kind: AbsentKind },
    Conditional { cond: Cond, then_n: Box<Node>, else_n: Option<Box<Node>> },
    Keep,
    /// `\R` general newline.
    GeneralNewline,
    /// `\X` text segment.
    TextSegment,
    Callout {
        named: bool,
        name: String,
        args: String,
        tag: Option<String>,
        body: String,
        dir: CalloutDir,
    },
    /// Inline option change applying to `inner`.
    Options { set: Options, clear: Options, inner: Box<Node> },
}

#[derive(Clone, Copy, Debug, PartialEq, Eq, Structural)]
pub enum AbsentKind {
    Repeater,
    Expression,
    Stopper,
    Clear,
}

#[derive(Debug)]
pub enum Cond {
    Group(usize),
    Name(String),
    Expr(Box<Node>),
    ValidRef(Backref),
    /// Compiled look-ahead used as a conditional test (does not consume).
    Look { body: u16, after: u16 },
}

#[derive(Clone, Debug)]
pub enum CallTarget {
    Number(i32),
    Name(String),
    Whole,
}

#[derive(Clone, Debug)]
pub enum Backref {
    Number(i32),
    Name(String),
    Rel { back: bool, n: i32 },
}

#[derive(Clone, Copy, Debug, PartialEq, Eq, Structural)]
pub enum Anchor {
    Bol,
    Eol,
    Bos,
    Eos,
    EosNl,
    WordBound,
    NotWordBound,
    WordBegin,
    WordEnd,
    G,
    TextSegBound,
    NotTextSegBound,
}

#[derive(Debug)]
pub struct CharClass {
    pub negate: bool,
    pub items: Vec<ClassItem>,
}

#[derive(Debug)]
pub enum ClassItem {
    Char(u32),
    Range(u32, u32),
    Posix { name: String, neg: bool },
    Prop { name: String, neg: bool },
    Word { neg: bool },
    Digit { neg: bool },
    Space { neg: bool },
    Xdigit { neg: bool },
    Nested(CharClass),
    Intersect(Vec<ClassItem>),
}

/// `b` is a copy of `a`: the same negation and items.
pub open spec fn same_class(a: CharClass, b: CharClass) -> bool
    decreases a, 0int,
{
    &&& a.negate == b.negate
    &&& a.items@.len() == b.items@.len()
    &&& same_items(a.items@, b.items@, a.items@.len() as int)
}

/// The first `n` items of `w` are copies of those of `v`.
pub open spec fn same_items(v: Seq<ClassItem>, w: Seq<ClassItem>, n: int) -> bool
    decreases v, n,
{
    if n <= 0 || n > v.len() {
        true
    } else {
        proof {
            assert(decreases_to!(v => v[n - 1]));
        }
        same_items(v, w, n - 1) && same_item(v[n - 1], w[n - 1])
    }
}

/// `b` is a copy of `a`: the same kind, with the same parts.
pub open spec fn same_item(a: ClassItem, b: ClassItem) -> bool
    decreases a, 0int,
{
    match a {
        ClassItem::Char(c) => b == ClassItem::Char(c),
        ClassItem::Range(x, y) => b == ClassItem::Range(x, y),
        ClassItem::Posix { name, neg } => b matches ClassItem::Posix { name: n2, neg: g2 } && n2@
            == name@ && g2 == neg,
        ClassItem::Prop { name, neg } => b matches ClassItem::Prop { name: n2, neg: g2 } && n2@
            == name@ && g2 == neg,
        ClassItem::Word { neg } => b == ClassItem::Word { neg },
        ClassItem::Digit { neg } => b == ClassItem::Digit { neg },
        ClassItem::Space { neg } => b == ClassItem::Space { neg },
        ClassItem::Xdigit { neg } => b == ClassItem::Xdigit { neg },
        ClassItem::Nested(cc) => b matches ClassItem::Nested(c2) && same_class(cc, c2),
        ClassItem::Intersect(v) => b matches ClassItem::Intersect(w) && v@.len() == w@.len()
            && same_items(v@, w@, v@.len() as int),
    }
}

/// Copies of the first `n` items stay copies when more follow.
proof fn lemma_same_items_push(v: Seq<ClassItem>, w: Seq<ClassItem>, x: ClassItem, n: int)
    requires
        0 <= n <= w.len(),
        same_items(v, w, n),
    ensures
        same_items(v, w.push(x), n),
    decreases n,
{
    if n > 0 && n <= v.len() {
        lemma_same_items_push(v, w, x, n - 1);
        assert(w.push(x)[n - 1] == w[n - 1]);
    }
}

/// A copy of `c`.
pub(crate) fn clone_class(c: &CharClass) -> (r: CharClass)
    ensures
        same_class(*c, r),
    decreases c,
{
    CharClass { negate: c.negate, items: clone_items(&c.items) }
}

/// A copy of `v`.
pub(crate) fn clone_items(v: &Vec<ClassItem>) -> (r: Vec<ClassItem>)
    ensures
        r@.len() == v@.len(),
        same_items(v@, r@, v@.len() as int),
    decreases v,
{
    let mut out: Vec<ClassItem> = Vec::new();
    let mut i: usize = 0;
    while i < v.len()
        invariant
            i <= v@.len(),
            out@.len() == i,
            same_items(v@, out@, i as int),
        decreases v@.len() - i,
    {
        proof {
            assert(decreases_to!(v => v@[i as int]));
        }
        let item = clone_item(&v[i]);
        proof {
            lemma_same_items_push(v@, out@, item, i as int);
        }
        out.push(item);
        i = i + 1;
    }
    out
}

/// A copy of `item`.
pub(crate) fn clone_item(item: &ClassItem) -> (r: ClassItem)
    ensures
        same_item(*item, r),
    decreases item,
{
    match item {
        ClassItem::Char(c) => ClassItem::Char(*c),
        ClassItem::Range(a, b) => ClassItem::Range(*a, *b),
        ClassItem::Posix { name, neg } => ClassItem::Posix { name: name.clone(), neg: *neg },
        ClassItem::Prop { name, neg } => ClassItem::Prop { name: name.clone(), neg: *neg },
        ClassItem::Word { neg } => ClassItem::Word { neg: *neg },
        ClassItem::Digit { neg } => ClassItem::Digit { neg: *neg },
        ClassItem::Space { neg } => ClassItem::Space { neg: *neg },
        ClassItem::Xdigit { neg } => ClassItem::Xdigit { neg: *neg },
        ClassItem::Nested(cc) => ClassItem::Nested(clone_class(cc)),
        ClassItem::Intersect(v) => ClassItem::Intersect(clone_items(v)),
    }
}

impl Clone for CharClass {
    fn clone(&self) -> Self {
        clone_class(self)
    }
}

impl Clone for ClassItem {
    fn clone(&self) -> Self {
        clone_item(self)
    }
}

impl CharClass {
    /// A class with no items, not negated.
    pub fn empty() -> (r: CharClass)
        ensures
            !r.negate,
            r.items@.len() == 0,
    {
        CharClass { negate: false, items: Vec::new() }
    }
}

/// The sequence of `v`: nothing, the one node, or a concatenation.
pub fn concat(v: Vec<Node>) -> (r: Node)
    ensures
        r == (if v@.len() == 0 {
            Node::Empty
        } else if v@.len() == 1 {
            v@[0]
        } else {
            Node::Concat(v)
        }),
{
    let mut v = v;
    if v.len() == 0 {
        Node::Empty
    } else if v.len() == 1 {
        v.pop().unwrap()
    } else {
        Node::Concat(v)
    }
}

/// The alternation of `v`: nothing, the one node, or an alternation.
pub fn alt(v: Vec<Node>) -> (r: Node)
    ensures
        r == (if v@.len() == 0 {
            Node::Empty
        } else if v@.len() == 1 {
            v@[0]
        } else {
            Node::Alt(v)
        }),
{
    let mut v = v;
    if v.len() == 0 {
        Node::Empty
    } else if v.len() == 1 {
        v.pop().unwrap()
    } else {
        Node::Alt(v)
    }
}

/// Every tree of `v` is a single character.
pub open spec fn all_chars(v: Seq<Node>) -> bool {
    forall|k: int| 0 <= k < v.len() ==> #[trigger] v[k] is Char
}

/// A tree of plain text: nothing, one character, or characters in a row.
pub open spec fn text_tree(n: Node) -> bool {
    match n {
        Node::Empty => true,
        Node::Char(_) => true,
        Node::Concat(v) => v@.len() >= 2 && all_chars(v@),
        _ => false,
    }
}

/// The characters a tree of plain text stands for.
pub open spec fn text_of(n: Node) -> Seq<u32> {
    match n {
        Node::Char(c) => seq![c],
        Node::Concat(v) => Seq::new(v@.len(), |k: int| v@[k]->Char_0),
        _ => Seq::empty(),
    }
}

} // verus!
