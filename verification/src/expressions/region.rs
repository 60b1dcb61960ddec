//! Capture slots (Oniguruma OnigRegion). Offsets are haystack byte offsets.

use vstd::prelude::*;
use core::ops::Range;
use crate::text::str_eq;

verus! {

/// One match: whole-match range plus numbered (and optional named) groups.
#[derive(Debug)]
pub struct Region {
    /// Group 0 is the whole match. Unset groups are `None`.
    pub captures: Vec<Option<Range<usize>>>,
    /// Parallel names: `names[i]` is `Some` for a named group number `i`.
    /// Empty when the pattern has no named groups at all.
    pub names: Vec<Option<String>>,
    /// Capture-history tree when `(?@...)` ran.
    pub history: Option<CaptureTree>,
}

/// One node in the capture-history tree (`OnigCaptureTreeNode`).
#[derive(Debug)]
pub struct CaptureTree {
    pub group: usize,
    pub range: Range<usize>,
    pub children: Vec<CaptureTree>,
}

/// Group `i`'s span as a pair, when set.
pub open spec fn slot(captures: Seq<Option<Range<usize>>>, i: int) -> Option<(usize, usize)> {
    if 0 <= i < captures.len() {
        match captures[i] {
            Some(r) => Some((r.start, r.end)),
            None => None,
        }
    } else {
        None
    }
}

/// A reported walk entry `(group, range, depth)` is the preorder entry
/// `(group, start, end, depth)`.
pub open spec fn entry_is(t: (usize, Range<usize>, usize), q: (usize, usize, usize, nat)) -> bool {
    t.0 == q.0 && t.1.start == q.1 && t.1.end == q.2 && t.2 == q.3
}

impl CaptureTree {
    /// Every child's span lies within its parent's, all the way down.
    pub open spec fn nested(&self) -> bool
        decreases self,
    {
        forall|i: int|
            0 <= i < self.children@.len() ==> {
                &&& self.range.start <= (#[trigger] self.children@[i]).range.start
                &&& self.children@[i].range.end <= self.range.end
                &&& self.children@[i].nested()
            }
    }

    /// Depth-first, parent before children: `(group, start, end, depth)` of
    /// every node under this one, this one at `depth`.
    pub open spec fn preorder(&self, depth: nat) -> Seq<(usize, usize, usize, nat)>
        decreases self,
    {
        seq![(self.group, self.range.start, self.range.end, depth)] + self.children_preorder(
            0,
            depth + 1,
        )
    }

    pub open spec fn children_preorder(&self, from: int, depth: nat) -> Seq<(usize, usize, usize, nat)>
        decreases self, self.children@.len() - from,
    {
        if from < 0 || from >= self.children@.len() {
            Seq::empty()
        } else {
            self.children@[from].preorder(depth) + self.children_preorder(from + 1, depth)
        }
    }

    /// The walk `traverse` reports: `(group, range, depth)` per node, depth
    /// first, parent before children, the root at depth 0.
    pub fn traverse(&self) -> (r: Vec<(usize, Range<usize>, usize)>)
        requires
            self.height() < usize::MAX,
        ensures
            r@.len() == self.preorder(0).len(),
            forall|k: int| 0 <= k < r@.len() ==> entry_is(#[trigger] r@[k], self.preorder(0)[k]),
    {
        let mut out = Vec::new();
        self.walk(0, &mut out);
        proof {
            assert forall|k: int| 0 <= k < out@.len() implies entry_is(
                #[trigger] out@[k],
                self.preorder(0)[k],
            ) by {
                assert(out@[0 + k] == out@[k]);
            }
        }
        out
    }

    /// How many nodes the tree has, this one included.
    pub open spec fn size(&self) -> nat
        decreases self,
    {
        1 + self.children_size(0)
    }

    pub open spec fn children_size(&self, from: int) -> nat
        decreases self, self.children@.len() - from,
    {
        if from < 0 || from >= self.children@.len() {
            0
        } else {
            self.children@[from].size() + self.children_size(from + 1)
        }
    }

    /// Some node of the tree records span `a..b` of group `g`.
    pub open spec fn holds(&self, g: usize, a: usize, b: usize) -> bool
        decreases self,
    {
        (self.group == g && self.range.start == a && self.range.end == b) || self.children_hold(
            0,
            g,
            a,
            b,
        )
    }

    pub open spec fn children_hold(&self, from: int, g: usize, a: usize, b: usize) -> bool
        decreases self, self.children@.len() - from,
    {
        if from < 0 || from >= self.children@.len() {
            false
        } else {
            self.children@[from].holds(g, a, b) || self.children_hold(from + 1, g, a, b)
        }
    }

    /// Two trees whose children differ only at `i`, where the second's child
    /// has one node more: the children from `from` on count one node more
    /// when they include `i`.
    pub(crate) proof fn lemma_children_size_update(&self, other: &CaptureTree, from: int, i: int)
        requires
            0 <= from,
            self.children@.len() == other.children@.len(),
            0 <= i < self.children@.len(),
            forall|j: int|
                0 <= j < self.children@.len() && j != i ==> other.children@[j] == self.children@[j],
            other.children@[i].size() == self.children@[i].size() + 1,
        ensures
            from <= i ==> other.children_size(from) == self.children_size(from) + 1,
            from > i ==> other.children_size(from) == self.children_size(from),
        decreases self.children@.len() - from,
    {
        if from < self.children@.len() {
            self.lemma_children_size_update(other, from + 1, i);
        }
    }

    /// A second tree whose children are the first's and one more, `x`: the
    /// children from `from` on count `x`'s nodes more.
    pub(crate) proof fn lemma_children_size_push(&self, other: &CaptureTree, from: int, x: CaptureTree)
        requires
            0 <= from <= self.children@.len(),
            other.children@ == self.children@.push(x),
        ensures
            other.children_size(from) == self.children_size(from) + x.size(),
        decreases self.children@.len() - from,
    {
        if from < self.children@.len() {
            self.lemma_children_size_push(other, from + 1, x);
        } else {
            assert(other.children@[from] == x);
            assert(other.children_size(from + 1) == 0);
        }
    }

    /// A span that child `j` holds is held by the children from `from` on.
    pub(crate) proof fn lemma_children_hold(&self, from: int, j: int, g: usize, a: usize, b: usize)
        requires
            0 <= from <= j < self.children@.len(),
            self.children@[j].holds(g, a, b),
        ensures
            self.children_hold(from, g, a, b),
        decreases j - from,
    {
        if from < j {
            self.lemma_children_hold(from + 1, j, g, a, b);
        }
    }

    /// Longest root-to-leaf path, in nodes.
    pub open spec fn height(&self) -> nat
        decreases self,
    {
        1 + self.children_height(0)
    }

    pub open spec fn children_height(&self, from: int) -> nat
        decreases self, self.children@.len() - from,
    {
        if from < 0 || from >= self.children@.len() {
            0
        } else {
            let h = self.children@[from].height();
            let rest = self.children_height(from + 1);
            if h > rest { h } else { rest }
        }
    }

    proof fn lemma_child_height(&self, i: int)
        requires
            0 <= i < self.children@.len(),
        ensures
            self.children@[i].height() < self.height(),
        decreases self.children@.len() - i,
    {
        self.lemma_children_height_ge(0, i);
    }

    proof fn lemma_children_height_ge(&self, from: int, i: int)
        requires
            0 <= from <= i < self.children@.len(),
        ensures
            self.children@[i].height() <= self.children_height(from),
        decreases i - from,
    {
        if from < i {
            self.lemma_children_height_ge(from + 1, i);
        }
    }

    /// The preorders of the first `upto` children, one after another.
    pub open spec fn children_prefix(&self, upto: int, depth: nat) -> Seq<(usize, usize, usize, nat)>
        decreases upto,
    {
        if upto <= 0 || upto > self.children@.len() {
            Seq::empty()
        } else {
            self.children_prefix(upto - 1, depth) + self.children@[upto - 1].preorder(depth)
        }
    }

    proof fn lemma_children_split(&self, i: int, depth: nat)
        requires
            0 <= i <= self.children@.len(),
        ensures
            self.children_prefix(i, depth) + self.children_preorder(i, depth)
                == self.children_preorder(0, depth),
        decreases i,
    {
        if i > 0 {
            self.lemma_children_split(i - 1, depth);
            assert(self.children_preorder(i - 1, depth) == self.children@[i - 1].preorder(depth)
                + self.children_preorder(i, depth));
            assert(self.children_prefix(i, depth) == self.children_prefix(i - 1, depth)
                + self.children@[i - 1].preorder(depth));
            assert(self.children_prefix(i - 1, depth) + self.children_preorder(i - 1, depth)
                == self.children_prefix(i, depth) + self.children_preorder(i, depth));
        } else {
            assert(self.children_prefix(0, depth) =~= Seq::empty());
            assert(self.children_prefix(0, depth) + self.children_preorder(0, depth)
                =~= self.children_preorder(0, depth));
        }
    }

    /// Append this tree's preorder to `out`, this node at `depth`.
    fn walk(&self, depth: usize, out: &mut Vec<(usize, Range<usize>, usize)>)
        requires
            depth + self.height() <= usize::MAX,
        ensures
            final(out)@.len() == old(out)@.len() + self.preorder(depth as nat).len(),
            forall|k: int| 0 <= k < old(out)@.len() ==> #[trigger] final(out)@[k] == old(out)@[k],
            forall|k: int|
                0 <= k < self.preorder(depth as nat).len() ==> entry_is(
                    #[trigger] final(out)@[old(out)@.len() + k],
                    self.preorder(depth as nat)[k],
                ),
        decreases self,
    {
        let ghost base = out@;
        out.push((self.group, self.range.start..self.range.end, depth));
        let mut i: usize = 0;
        while i < self.children.len()
            invariant
                i <= self.children@.len(),
                depth + self.height() <= usize::MAX,
                out@.len() == base.len() + 1 + self.children_prefix(i as int, (depth + 1) as nat).len(),
                forall|k: int| 0 <= k < base.len() ==> #[trigger] out@[k] == base[k],
                entry_is(out@[base.len() as int], (self.group, self.range.start, self.range.end, depth as nat)),
                forall|k: int|
                    0 <= k < self.children_prefix(i as int, (depth + 1) as nat).len() ==> entry_is(
                        #[trigger] out@[base.len() + 1 + k],
                        self.children_prefix(i as int, (depth + 1) as nat)[k],
                    ),
            decreases self.children@.len() - i,
        {
            proof {
                self.lemma_child_height(i as int);
                assert(decreases_to!(self => self.children@[i as int]));
            }
            let ghost before = out@;
            let ghost pre = self.children_prefix(i as int, (depth + 1) as nat);
            self.children[i].walk(depth + 1, out);
            proof {
                let child = self.children@[i as int].preorder((depth + 1) as nat);
                let next = self.children_prefix(i + 1, (depth + 1) as nat);
                assert(next == pre + child);
                assert forall|k: int| 0 <= k < next.len() implies entry_is(
                    #[trigger] out@[base.len() + 1 + k],
                    next[k],
                ) by {
                    if k < pre.len() {
                        assert(out@[base.len() + 1 + k] == before[base.len() + 1 + k]);
                    } else {
                        assert(out@[before.len() + (k - pre.len())] == out@[base.len() + 1 + k]);
                    }
                }
                assert(out@[base.len() as int] == before[base.len() as int]);
            }
            i = i + 1;
        }
        proof {
            let d1 = (depth + 1) as nat;
            self.lemma_children_split(i as int, d1);
            assert(self.children_preorder(i as int, d1) =~= Seq::empty());
            assert(self.children_prefix(i as int, d1) =~= self.children_preorder(0, d1));
            let own = self.preorder(depth as nat);
            assert forall|k: int| 0 <= k < own.len() implies entry_is(
                #[trigger] out@[base.len() + k],
                own[k],
            ) by {
                if k > 0 {
                    assert(own[k] == self.children_prefix(i as int, d1)[k - 1]);
                    assert(out@[base.len() + 1 + (k - 1)] == out@[base.len() + k]);
                }
            }
        }
    }
}

impl Region {
    /// Every set group lies within `0..len` with its start at or before its
    /// end, `names` is empty or parallel to `captures`, and the capture
    /// history, when there is one, nests.
    pub open spec fn wf(&self, len: nat) -> bool {
        &&& self.captures@.len() >= 1
        &&& forall|i: int|
            0 <= i < self.captures@.len() ==> (#[trigger] self.captures@[i] matches Some(r) ==> r.start
                <= r.end <= len)
        &&& (self.names@.len() == 0 || self.names@.len() == self.captures@.len())
        &&& (self.history matches Some(t) ==> t.nested())
    }

    /// An empty region of `n` unset groups, with a parallel `names` vector
    /// only when `named`.
    pub fn with_names(n: usize, named: bool) -> (r: Region)
        ensures
            r.captures@.len() == n,
            forall|i: int| 0 <= i < n ==> #[trigger] r.captures@[i] is None,
            r.names@.len() == (if named { n } else { 0 }),
            forall|i: int| 0 <= i < r.names@.len() ==> #[trigger] r.names@[i] is None,
            r.history is None,
    {
        let mut captures: Vec<Option<Range<usize>>> = Vec::new();
        let mut names: Vec<Option<String>> = Vec::new();
        let mut i: usize = 0;
        while i < n
            invariant
                i <= n,
                captures@.len() == i,
                names@.len() == (if named { i } else { 0 }),
                forall|j: int| 0 <= j < i ==> #[trigger] captures@[j] is None,
                forall|j: int| 0 <= j < names@.len() ==> #[trigger] names@[j] is None,
            decreases n - i,
        {
            captures.push(None);
            if named {
                names.push(None);
            }
            i = i + 1;
        }
        Region { captures, names, history: None }
    }

    /// Whole-match span (group 0), or `0..0` when unset.
    pub open spec fn span(&self) -> (usize, usize) {
        match slot(self.captures@, 0) {
            Some(p) => p,
            None => (0, 0),
        }
    }

    /// Whole-match byte range (group 0).
    pub fn range(&self) -> (r: Range<usize>)
        ensures
            (r.start, r.end) == self.span(),
    {
        if self.captures.len() == 0 {
            return 0..0;
        }
        match &self.captures[0] {
            Some(c) => c.start..c.end,
            None => 0..0,
        }
    }

    /// Numbered group, 0 = whole match.
    pub fn get(&self, i: usize) -> (r: Option<Range<usize>>)
        ensures
            r matches Some(g) ==> slot(self.captures@, i as int) == Some((g.start, g.end)),
            r is None ==> slot(self.captures@, i as int) is None,
    {
        if i >= self.captures.len() {
            return None;
        }
        match &self.captures[i] {
            Some(c) => Some(c.start..c.end),
            None => None,
        }
    }

    /// First group with this name.
    pub fn name(&self, name: &str) -> (r: Option<Range<usize>>)
        ensures
            (forall|i: int|
                0 <= i < self.names@.len() ==> !(#[trigger] self.names@[i] matches Some(n) && n@
                    == name@)) ==> r is None,
            forall|i: int|
                0 <= i < self.names@.len() && (#[trigger] self.names@[i] matches Some(n) && n@
                    == name@) && (forall|j: int|
                    0 <= j < i ==> !(#[trigger] self.names@[j] matches Some(m) && m@ == name@))
                    ==> (match r {
                    Some(g) => slot(self.captures@, i) == Some((g.start, g.end)),
                    None => slot(self.captures@, i) is None,
                }),
    {
        let mut i: usize = 0;
        while i < self.names.len()
            invariant
                i <= self.names@.len(),
                forall|j: int|
                    0 <= j < i ==> !(#[trigger] self.names@[j] matches Some(m) && m@ == name@),
            decreases self.names@.len() - i,
        {
            match &self.names[i] {
                Some(n) => {
                    if str_eq(n.as_str(), name) {
                        return self.get(i);
                    }
                },
                None => {},
            }
            i = i + 1;
        }
        None
    }

    /// The whole match is empty.
    pub fn is_empty_match(&self) -> (r: bool)
        ensures
            r == (self.span().0 == self.span().1),
    {
        let r = self.range();
        r.start == r.end
    }

    /// Walk the capture-history tree, when there is one: `(group, range,
    /// depth)` per node, parent before children.
    pub fn traverse_history(&self) -> (r: Vec<(usize, Range<usize>, usize)>)
        requires
            self.history matches Some(t) ==> t.height() < usize::MAX,
        ensures
            match self.history {
                Some(t) => r@.len() == t.preorder(0).len() && forall|k: int|
                    0 <= k < r@.len() ==> entry_is(#[trigger] r@[k], t.preorder(0)[k]),
                None => r@.len() == 0,
            },
    {
        match &self.history {
            Some(t) => t.traverse(),
            None => Vec::new(),
        }
    }
}

} // verus!
