//! Bytecode (Oniguruma-shaped opcodes, Rust enum) and the facts about a
//! program that the search precomputes.

use vstd::prelude::*;
use super::ast::{AbsentKind, Anchor, Backref, CallTarget, CharClass};
use super::callout::CalloutDir;
use super::syntax::Options;

verus! {

/// The test of a conditional group, as compiled.
#[derive(Clone, Debug)]
pub enum CondTest {
    Group(usize),
    Name(String),
    ValidRef(Backref),
    /// Compiled look-ahead used as the test (does not consume).
    Look { body: u16, after: u16 },
}

#[derive(Clone, Debug)]
pub enum Inst {
    Nop,
    Char(u32),
    Literal(Vec<u32>),
    Any { newline: bool },
    SuperAny,
    Class { class: CharClass },
    Split(u16, u16),
    Jump(u16),
    Save(u16),
    Match,
    Fail,
    Assert(Anchor),
    Repeat { body: u16, after: u16, min: u32, max: Option<u32>, greedy: bool, possessive: bool },
    Look { body: u16, after: u16, behind: bool, negative: bool },
    Atomic { body: u16, after: u16 },
    Backref(Backref),
    Call(CallTarget),
    Keep,
    Absent { stopper: u16, expr: Option<u16>, after: u16, kind: AbsentKind },
    Cond { cond: CondTest, then_pc: u16, else_pc: Option<u16>, after: u16 },
    GeneralNewline,
    TextSegment,
    Callout {
        named: bool,
        name: String,
        args: String,
        tag: Option<String>,
        body: String,
        dir: CalloutDir,
    },
    PushOptions(Options, Options),
    PopOptions,
}

/// Every place the instruction at `pc` can continue from lies strictly after
/// `pc` and within the program (`n` meaning "past the end"); a repetition's
/// body starts right after it.
pub open spec fn inst_forward(inst: Inst, pc: int, n: int) -> bool {
    match inst {
        Inst::Split(a, b) => pc < a <= n && pc < b <= n,
        Inst::Jump(j) => pc < j <= n,
        Inst::Repeat { body, after, .. } => body == pc + 1 && pc < body <= n && pc < after <= n,
        Inst::Look { body, after, .. } => pc < body <= n && pc < after <= n,
        Inst::Atomic { body, after } => pc < body <= n && pc < after <= n,
        Inst::Absent { stopper, expr, after, .. } => pc < stopper <= n && pc < after <= n && (
        match expr {
            Some(e) => pc < e <= n,
            None => true,
        }),
        Inst::Cond { then_pc, else_pc, after, .. } => pc < then_pc <= n && pc < after <= n && (
        match else_pc {
            Some(e) => pc < e <= n,
            None => true,
        }),
        _ => true,
    }
}

/// A possible first-byte set: bit `b` of the 256-bit set is byte `b`.
#[derive(Clone, Copy, Debug, PartialEq, Eq)]
pub struct Lead {
    /// Bit `b` set means a match may begin with byte `b`.
    pub set: [u64; 4],
    /// `Some(b)` when the set holds exactly one byte.
    pub single: Option<u8>,
}

/// Bit `b` of a 256-bit set held in four words.
pub open spec fn bit_of(set: [u64; 4], b: u8) -> bool {
    set[(b >> 6u8) as int] & (1u64 << ((b & 63u8) as u64)) != 0
}

/// How many of the bytes `0..k` the set holds.
pub open spec fn members_below(set: [u64; 4], k: int) -> nat
    decreases k,
{
    if k <= 0 {
        0
    } else {
        members_below(set, k - 1) + (if bit_of(set, (k - 1) as u8) { 1nat } else { 0nat })
    }
}

proof fn lemma_word_bit(w: u64, b: u8, c: u8)
    ensures
        ((w | (1u64 << ((b & 63u8) as u64))) & (1u64 << ((c & 63u8) as u64)) != 0) == ((w & (1u64
            << ((c & 63u8) as u64)) != 0) || (b & 63u8) == (c & 63u8)),
{
    assert(((w | (1u64 << ((b & 63u8) as u64))) & (1u64 << ((c & 63u8) as u64)) != 0) == ((w & (1u64
        << ((c & 63u8) as u64)) != 0) || (b & 63u8) == (c & 63u8))) by (bit_vector);
}

proof fn lemma_same_byte(b: u8, c: u8)
    ensures
        ((b >> 6u8) == (c >> 6u8) && (b & 63u8) == (c & 63u8)) == (b == c),
        b >> 6u8 < 4,
        (b & 63u8) < 64,
{
    assert((b & 63u8) < 64) by (bit_vector);
    assert(((b >> 6u8) == (c >> 6u8) && (b & 63u8) == (c & 63u8)) == (b == c)) by (bit_vector);
    assert(b >> 6u8 < 4) by (bit_vector);
}

impl Lead {
    /// The bytes in the set.
    pub open spec fn has(&self, b: u8) -> bool {
        bit_of(self.set, b)
    }

    pub fn contains(&self, b: u8) -> (r: bool)
        ensures
            r == self.has(b),
    {
        proof {
            lemma_same_byte(b, b);
        }
        self.set[(b >> 6u8) as usize] & (1u64 << ((b & 63u8) as u64)) != 0
    }

    /// Add byte `b`; every other byte keeps its membership.
    pub fn insert(&mut self, b: u8)
        ensures
            final(self).single == old(self).single,
            forall|c: u8| #[trigger] final(self).has(c) == (old(self).has(c) || c == b),
    {
        proof {
            lemma_same_byte(b, b);
        }
        let k = (b >> 6u8) as usize;
        let w = self.set[k];
        self.set[k] = w | (1u64 << ((b & 63u8) as u64));
        proof {
            assert forall|c: u8| #[trigger] self.has(c) == (old(self).has(c) || c == b) by {
                lemma_same_byte(b, c);
                lemma_same_byte(c, c);
                if (c >> 6u8) as int == k as int {
                    lemma_word_bit(w, b, c);
                } else {
                    assert(self.set[(c >> 6u8) as int] == old(self).set[(c >> 6u8) as int]);
                }
            }
        }
    }

    /// The empty set.
    pub fn empty() -> (r: Lead)
        ensures
            r.single is None,
            forall|c: u8| !(#[trigger] r.has(c)),
    {
        let r = Lead { set: [0u64; 4], single: None };
        proof {
            assert forall|c: u8| !(#[trigger] r.has(c)) by {
                lemma_same_byte(c, c);
                assert(0u64 & (1u64 << ((c & 63u8) as u64)) == 0) by (bit_vector);
            }
        }
        r
    }

    /// Mark every non-ASCII byte possible (conservative for Unicode classes).
    pub fn insert_non_ascii(&mut self)
        ensures
            final(self).single == old(self).single,
            forall|c: u8| #[trigger] final(self).has(c) == (old(self).has(c) || c >= 0x80),
    {
        self.set[2] = 0xFFFF_FFFF_FFFF_FFFFu64;
        self.set[3] = 0xFFFF_FFFF_FFFF_FFFFu64;
        proof {
            assert forall|c: u8| #[trigger] self.has(c) == (old(self).has(c) || c >= 0x80) by {
                lemma_same_byte(c, c);
                assert((c >> 6u8 >= 2) == (c >= 0x80)) by (bit_vector);
                assert(0xFFFF_FFFF_FFFF_FFFFu64 & (1u64 << ((c & 63u8) as u64)) != 0)
                    by (bit_vector);
            }
        }
    }

    /// How many bytes the set holds.
    pub fn count(&self) -> (r: u32)
        ensures
            r == members_below(self.set, 256),
    {
        let mut n: u32 = 0;
        let mut b: u32 = 0;
        while b < 256
            invariant
                b <= 256,
                n == members_below(self.set, b as int),
                n <= b,
            decreases 256 - b,
        {
            if self.contains(b as u8) {
                n = n + 1;
            }
            b = b + 1;
        }
        n
    }

    /// Fill `single` and reject sets so dense (or empty) that they filter
    /// nothing: `None` for no byte or all 256, else the same set, with
    /// `single` naming the byte when it is the only one.
    pub fn finish(self) -> (r: Option<Lead>)
        ensures
            r is None <==> (members_below(self.set, 256) == 0 || members_below(self.set, 256)
                >= 256),
            r matches Some(l) ==> l.set == self.set && (members_below(self.set, 256) == 1 <==> l.single
                is Some) && (l.single matches Some(b) ==> self.has(b)),
    {
        let mut me = self;
        let n = me.count();
        if n == 0 || n >= 256 {
            return None;
        }
        if n == 1 {
            let mut b: u32 = 0;
            while b < 256
                invariant
                    b <= 256,
                    me == self,
                    members_below(self.set, b as int) == 0,
                    members_below(self.set, 256) == 1,
                decreases 256 - b,
            {
                if me.contains(b as u8) {
                    me.single = Some(b as u8);
                    return Some(me);
                }
                b = b + 1;
            }
            proof {
                assert(false);
            }
        } else {
            me.single = None;
        }
        Some(me)
    }
}

/// What a repetition body looks like, decided once at compile time.
#[derive(Clone, Copy, Debug, PartialEq, Eq, Structural)]
pub enum SimpleBody {
    /// Not a single-instruction body.
    Complex,
    /// Exactly one `Char`.
    Char(u32),
    /// Exactly one `Class`, at this pc.
    Class(u16),
}

/// A character class lowered to a 128-bit ASCII membership bitmap.
#[derive(Clone, Copy, Debug, PartialEq, Eq)]
pub struct ClassPlan {
    /// Bit `cp` set means codepoint `cp` (< 128) is a member.
    pub ascii: [u64; 2],
    /// The options this bitmap was built under. The VM only trusts the plan
    /// when the options in force match.
    pub options: Options,
}

/// Bit `cp` of a 128-bit map.
pub open spec fn plan_bit(ascii: [u64; 2], cp: u32) -> bool {
    ascii[(cp >> 6u32) as int] & (1u64 << ((cp & 63u32) as u64)) != 0
}

impl ClassPlan {
    pub fn hit(&self, cp: u32) -> (r: bool)
        requires
            cp < 128,
        ensures
            r == plan_bit(self.ascii, cp),
    {
        assert(cp < 128 ==> cp >> 6u32 < 2) by (bit_vector);
        assert((cp & 63u32) < 64) by (bit_vector);
        self.ascii[(cp >> 6u32) as usize] & (1u64 << ((cp & 63u32) as u64)) != 0
    }
}

/// Facts about one repetition that never change at match time.
#[derive(Clone, Copy, Debug)]
pub struct RepeatShape {
    pub writes_caps: bool,
    pub simple: SimpleBody,
    /// The next consuming instruction after this repetition is a character the
    /// body's class cannot match: only the maximal run can succeed.
    pub follow_disjoint: bool,
    /// First byte of the character required right after the repetition.
    pub follow_byte: Option<u8>,
    /// Compare `follow_byte` case-insensitively.
    pub follow_icase: bool,
}

pub fn default_shape() -> (r: RepeatShape)
    ensures
        r.writes_caps,
        r.simple == SimpleBody::Complex,
        !r.follow_disjoint,
        r.follow_byte is None,
        !r.follow_icase,
{
    RepeatShape {
        writes_caps: true,
        simple: SimpleBody::Complex,
        follow_disjoint: false,
        follow_byte: None,
        follow_icase: false,
    }
}

#[derive(Clone, Debug)]
pub struct Program {
    pub insts: Vec<Inst>,
    pub capture_count: usize,
    pub names: Vec<Option<String>>,
    pub has_named: bool,
    pub history_groups: Vec<bool>,
    /// First-byte prefilter, or `None` when no useful set exists.
    pub lead: Option<Lead>,
    /// Per-repetition shape, indexed by the repeat's body pc.
    pub repeat_shapes: Vec<RepeatShape>,
    /// Pre-rendered ASCII literal when the whole program is one.
    pub ascii_literal: Option<Vec<u8>>,
    /// Group number -> (open Save pc, close Save pc), for `\g<>` calls.
    pub group_spans: Vec<Option<(u16, u16)>>,
    /// ASCII membership bitmap per `Class` instruction, indexed by pc.
    pub class_plans: Vec<Option<ClassPlan>>,
    /// Pre-rendered bytes per all-ASCII `Literal` instruction, indexed by pc.
    pub literal_bytes: Vec<Option<Vec<u8>>>,
    /// A byte sequence every match must contain, used to skip start positions.
    pub req_lit: Option<super::optimize::ReqLit>,
    /// Every match must begin at a line start (`^` in multi-line mode).
    pub anchored_bol: bool,
}

impl Program {
    /// Every instruction continues strictly forward, inside the program.
    pub open spec fn forward(&self) -> bool {
        forall|pc: int| 0 <= pc < self.insts@.len() ==> #[trigger] inst_forward(
            self.insts@[pc],
            pc,
            self.insts@.len() as int,
        )
    }
}

} // verus!
