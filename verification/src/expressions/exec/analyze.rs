//! Facts about a program that never change at match time, computed once
//! after compiling: repetition shapes, group spans, class bitmaps, the
//! literal fast path, the first-byte prefilter and the required literal.

use vstd::prelude::*;
use super::classes::{class_hit_in, class_spec, item_spec, items_spec};
use super::plain::{
    anchor_spec, ascii_lit, byte_may_start, char_at_spec, char_matches, char_step, class_step, compares_bytes,
    first_end, lemma_first_byte, lit_bytes_agree, lit_bytes_at, lit_step, plain_inst, plain_program,
};
use super::super::ast::{Anchor, CharClass, ClassItem};
use super::super::encoding::Encoding;
use super::super::opcode::{
    default_shape, plan_bit, ClassPlan, Inst, Lead, Program, RepeatShape, SimpleBody,
};
use super::super::optimize::{from_program, req_covers, required_literal};
use super::{follow_byte_ok, follow_disjoint_ok, rep_syntactic, shapes_ok, unique_body};
use super::super::syntax::Options;
use super::super::unicode::UserProperty;

verus! {

/// The bytes of a program that is one ASCII literal (or one ASCII
/// character) followed by `Match`.
pub open spec fn ascii_literal_spec(insts: Seq<Inst>) -> Option<Seq<u8>> {
    if insts.len() == 2 && insts[1] is Match {
        match insts[0] {
            Inst::Literal(v) => if v@.len() > 0 && forall|k: int| 0 <= k < v@.len() ==> v@[k]
                <= 0x7F {
                Some(Seq::new(v@.len(), |k: int| v@[k] as u8))
            } else {
                None
            },
            Inst::Char(c) => if c <= 0x7F {
                Some(seq![c as u8])
            } else {
                None
            },
            _ => None,
        }
    } else {
        None
    }
}

/// The literal bytes of the program, when it is a single ASCII literal.
pub fn ascii_literal_program(prog: &Program) -> (r: Option<Vec<u8>>)
    ensures
        r matches Some(v) ==> ascii_literal_spec(prog.insts@) == Some(v@),
        r is None ==> ascii_literal_spec(prog.insts@) is None,
{
    if prog.insts.len() != 2 {
        return None;
    }
    match &prog.insts[1] {
        Inst::Match => {},
        _ => return None,
    }
    match &prog.insts[0] {
        Inst::Literal(v) => {
            // An empty literal matches everywhere; the general search finds it.
            if v.len() == 0 {
                return None;
            }
            let mut out: Vec<u8> = Vec::new();
            let mut i: usize = 0;
            while i < v.len()
                invariant
                    i <= v@.len(),
                    out@.len() == i,
                    forall|k: int| 0 <= k < i ==> #[trigger] v@[k] <= 0x7F,
                    forall|k: int| 0 <= k < i ==> #[trigger] out@[k] == v@[k] as u8,
                    prog.insts@.len() == 2,
                    prog.insts@[1] is Match,
                    prog.insts@[0] matches Inst::Literal(w) && w@ == v@,
                decreases v@.len() - i,
            {
                if v[i] > 0x7F {
                    proof {
                        assert(!(v@[i as int] <= 0x7F));
                        assert(!(forall|k: int| 0 <= k < v@.len() ==> #[trigger] v@[k] <= 0x7F));
                    }
                    return None;
                }
                let b = v[i] as u8;
                out.push(b);
                proof {
                    assert(out@[i as int] == v@[i as int] as u8);
                }
                i = i + 1;
            }
            proof {
                assert(out@ =~= Seq::new(v@.len(), |k: int| v@[k] as u8));
                assert(forall|k: int| 0 <= k < v@.len() ==> v@[k] <= 0x7F);
            }
            Some(out)
        },
        Inst::Char(c) => {
            if *c <= 0x7F {
                let mut out: Vec<u8> = Vec::new();
                out.push(*c as u8);
                proof {
                    assert(out@ =~= seq![*c as u8]);
                }
                Some(out)
            } else {
                None
            }
        },
        _ => None,
    }
}

/// The class is positive and made of ASCII characters, ASCII-ending ranges
/// and nested classes of the same kind.
pub open spec fn ascii_only_class(cc: CharClass) -> bool
    decreases cc,
{
    !cc.negate && forall|k: int|
        0 <= k < cc.items@.len() ==> match #[trigger] cc.items@[k] {
            ClassItem::Char(c) => c < 0x80,
            ClassItem::Range(_, b) => b < 0x80,
            ClassItem::Nested(inner) => {
                proof {
                    assert(decreases_to!(cc => cc.items));
                    assert(decreases_to!(cc.items => cc.items@[k]));
                }
                ascii_only_class(inner)
            },
            _ => false,
        }
}

/// Without `IGNORECASE` an ASCII-only class holds no code point at or above
/// U+0080.
proof fn lemma_ascii_only_class(
    cc: CharClass,
    cp: u32,
    enc: Encoding,
    opt: Options,
    props: Seq<UserProperty>,
)
    requires
        ascii_only_class(cc),
        cp >= 0x80,
        !opt.has(Options::ignorecase_spec()),
    ensures
        !class_spec(cc, cp, enc, opt, props),
    decreases cc, cc.items@.len() + 1,
{
    lemma_ascii_only_items(cc, cc.items@.len() as int, cp, enc, opt, props);
}

proof fn lemma_ascii_only_items(
    cc: CharClass,
    n: int,
    cp: u32,
    enc: Encoding,
    opt: Options,
    props: Seq<UserProperty>,
)
    requires
        ascii_only_class(cc),
        n <= cc.items@.len(),
        cp >= 0x80,
        !opt.has(Options::ignorecase_spec()),
    ensures
        !items_spec(cc.items@, n, cp, enc, opt, props),
    decreases cc, if n < 0 { 0 } else { n },
{
    if n > 0 {
        lemma_ascii_only_items(cc, n - 1, cp, enc, opt, props);
        let item = cc.items@[n - 1];
        assert(match item {
            ClassItem::Char(c) => c < 0x80,
            ClassItem::Range(_, b) => b < 0x80,
            ClassItem::Nested(inner) => ascii_only_class(inner),
            _ => false,
        });
        match item {
            ClassItem::Nested(inner) => {
                assert(decreases_to!(cc => cc.items));
                assert(decreases_to!(cc.items => cc.items@[n - 1]));
                lemma_ascii_only_class(inner, cp, enc, opt, props);
            },
            _ => {},
        }
        assert(!item_spec(item, cp, enc, opt, props));
        assert(items_spec(cc.items@, n, cp, enc, opt, props) == (items_spec(
            cc.items@,
            n - 1,
            cp,
            enc,
            opt,
            props,
        ) || item_spec(item, cp, enc, opt, props)));
    }
}

/// Can this class match any code point at or above U+0080? Conservative:
/// `true` when that cannot be ruled out cheaply.
fn class_may_be_non_ascii(cc: &CharClass) -> (r: bool)
    ensures
        r == !ascii_only_class(*cc),
    decreases cc,
{
    if cc.negate {
        return true;
    }
    let mut i: usize = 0;
    while i < cc.items.len()
        invariant
            i <= cc.items@.len(),
            !cc.negate,
            forall|k: int|
                0 <= k < i ==> match #[trigger] cc.items@[k] {
                    ClassItem::Char(c) => c < 0x80,
                    ClassItem::Range(_, b) => b < 0x80,
                    ClassItem::Nested(inner) => ascii_only_class(inner),
                    _ => false,
                },
        decreases cc.items@.len() - i,
    {
        proof {
            assert(decreases_to!(cc => cc.items));
            assert(decreases_to!(cc.items => cc.items@[i as int]));
        }
        let hit = match &cc.items[i] {
            ClassItem::Char(c) => *c >= 0x80,
            ClassItem::Range(_, b) => *b >= 0x80,
            ClassItem::Nested(inner) => class_may_be_non_ascii(inner),
            _ => true,
        };
        if hit {
            return true;
        }
        i = i + 1;
    }
    false
}

/// Add the byte(s) a single code point could start with.
fn insert_char_lead(lead: &mut Lead, c: u32, enc: Encoding, options: Options)
    ensures
        forall|b: u8| old(lead).has(b) ==> #[trigger] final(lead).has(b),
        enc.min_len_spec() == 1 ==> forall|cp: u32, b: u8|
            #![trigger char_matches(c, cp, options), byte_may_start(b, cp)]
            char_matches(c, cp, options) && byte_may_start(b, cp) ==> final(lead).has(b),
{
    let icase = options.contains(Options::ignorecase());
    if c > 0x7F || enc.min_len() != 1 {
        lead.insert_non_ascii();
        if icase || enc.min_len() != 1 {
            let mut b: u8 = 0;
            while b < 0x80
                invariant
                    b <= 0x80,
                    forall|x: u8| old(lead).has(x) ==> #[trigger] lead.has(x),
                    forall|x: u8| x >= 0x80 ==> #[trigger] lead.has(x),
                    forall|x: u8| x < b ==> #[trigger] lead.has(x),
                decreases 0x80 - b,
            {
                lead.insert(b);
                b = b + 1;
            }
        }
        return;
    }
    let b = c as u8;
    lead.insert(b);
    if icase {
        let lower = if 65 <= b && b <= 90 { b + 32 } else { b };
        let upper = if 97 <= b && b <= 122 { b - 32 } else { b };
        lead.insert(lower);
        lead.insert(upper);
        // A non-ASCII character can case-fold onto an ASCII one.
        if !options.contains(Options::ignorecase_is_ascii()) {
            lead.insert_non_ascii();
        }
    }
}

/// Every match of a plain program from `pc` starts inside the haystack, at
/// a byte `lead` holds.
pub open spec fn lead_covers(
    lead: Lead,
    insts: Seq<Inst>,
    enc: Encoding,
    opt: Options,
    props: Seq<UserProperty>,
    pc: int,
) -> bool {
    forall|hay: Seq<u8>, s: int|
        #[trigger] first_end(insts, enc, hay, hay.len() as int, opt, props, pc, s, None) is Some
            ==> 0 <= s < hay.len() && lead.has(hay[s])
}

/// Walk the program from `pc`, adding every byte a match could start with.
///
/// Returns `false` the moment it cannot bound the set; the caller then ships
/// no prefilter at all. It never under-approximates: for a plain program in
/// an encoding whose characters can be one byte long, every match from `pc`
/// starts at a byte the set holds.
fn lead_walk(
    prog: &Program,
    start_pc: usize,
    enc: Encoding,
    start_options: Options,
    user_props: &Vec<UserProperty>,
    lead: &mut Lead,
    fuel: &mut u32,
    depth: u32,
) -> (r: bool)
    ensures
        *final(fuel) <= *old(fuel),
        forall|b: u8| old(lead).has(b) ==> #[trigger] final(lead).has(b),
        r && plain_program(prog.insts@) && enc.min_len_spec() == 1 ==> lead_covers(
            *final(lead),
            prog.insts@,
            enc,
            start_options,
            user_props@,
            start_pc as int,
        ),
        depth <= 24 && *old(fuel) > 0 && start_pc < prog.insts@.len() && (prog.insts@[start_pc as int] is Char
            || (prog.insts@[start_pc as int] matches Inst::Literal(v) && v@.len() > 0)) ==> r,
    decreases *old(fuel),
{
    if depth > 24 {
        return false;
    }
    let ghost starts_read = *fuel > 0 && start_pc < prog.insts@.len() && (
    prog.insts@[start_pc as int] is Char || (prog.insts@[start_pc as int] matches Inst::Literal(v)
        && v@.len() > 0));
    let ghost pc0 = start_pc as int;
    let ghost opt0 = start_options;
    let ghost insts = prog.insts@;
    let ghost plain = plain_program(prog.insts@) && enc.min_len_spec() == 1;
    let ghost props = user_props@;
    let mut pc = start_pc;
    let mut options = start_options;
    loop
        invariant
            *fuel <= *old(fuel),
            depth <= 24,
            pc0 == start_pc as int,
            opt0 == start_options,
            insts == prog.insts@,
            plain == (plain_program(prog.insts@) && enc.min_len_spec() == 1),
            props == user_props@,
            forall|b: u8| old(lead).has(b) ==> #[trigger] lead.has(b),
            starts_read ==> pc == start_pc && *fuel == *old(fuel),
            starts_read == (*old(fuel) > 0 && start_pc < prog.insts@.len() && (
            prog.insts@[start_pc as int] is Char || (prog.insts@[start_pc as int] matches Inst::Literal(v)
                && v@.len() > 0))),
            plain ==> options == opt0,
            plain ==> forall|hay: Seq<u8>, s: int|
                #[trigger] first_end(insts, enc, hay, hay.len() as int, opt0, props, pc0, s, None)
                    is Some ==> first_end(
                    insts,
                    enc,
                    hay,
                    hay.len() as int,
                    opt0,
                    props,
                    pc as int,
                    s,
                    None,
                ) is Some,
        decreases *fuel,
    {
        if *fuel == 0 {
            return false;
        }
        *fuel = *fuel - 1;
        if pc >= prog.insts.len() {
            return false;
        }
        proof {
            if plain {
                assert(plain_inst(insts[pc as int]));
            }
        }
        match &prog.insts[pc] {
            // Zero-width: the first byte comes from further on.
            Inst::Nop | Inst::Save(_) | Inst::Keep | Inst::Assert(_) | Inst::Callout { .. }
            | Inst::PopOptions => {
                proof {
                    if plain {
                        assert forall|hay: Seq<u8>, s: int|
                            first_end(insts, enc, hay, hay.len() as int, opt0, props, pc as int, s, None)
                                is Some implies #[trigger] first_end(
                            insts,
                            enc,
                            hay,
                            hay.len() as int,
                            opt0,
                            props,
                            pc + 1,
                            s,
                            None,
                        ) is Some by {}
                    }
                }
                pc = pc + 1;
            },
            Inst::PushOptions(set, clear) => {
                options = options.union(*set).difference(*clear);
                pc = pc + 1;
            },
            // A path that cannot match contributes no bytes.
            Inst::Fail => {
                proof {
                    if plain {
                        assert forall|hay: Seq<u8>, s: int|
                            #[trigger] first_end(insts, enc, hay, hay.len() as int, opt0, props, pc0, s, None)
                                is Some implies 0 <= s < hay.len() && lead.has(hay[s]) by {
                            assert(first_end(
                                insts,
                                enc,
                                hay,
                                hay.len() as int,
                                opt0,
                                props,
                                pc as int,
                                s,
                                None,
                            ) is Some);
                        }
                    }
                }
                return true;
            },
            // The empty string matches here, so any byte can start a match.
            Inst::Match => return false,
            Inst::Char(c) => {
                insert_char_lead(lead, *c, enc, options);
                proof {
                    if plain {
                        assert forall|hay: Seq<u8>, s: int|
                            #[trigger] first_end(insts, enc, hay, hay.len() as int, opt0, props, pc0, s, None)
                                is Some implies 0 <= s < hay.len() && lead.has(hay[s]) by {
                            let end = hay.len() as int;
                            assert(first_end(insts, enc, hay, end, opt0, props, pc as int, s, None)
                                is Some);
                            lemma_first_byte(enc, hay, s, end);
                            let (cp, _n) = char_at_spec(enc, hay, s, end)->0;
                            assert(char_matches(*c, cp, options));
                            assert(byte_may_start(hay[s], cp));
                        }
                    }
                }
                return true;
            },
            Inst::Literal(v) => {
                if v.len() > 0 {
                    insert_char_lead(lead, v[0], enc, options);
                    proof {
                        if plain {
                            assert forall|hay: Seq<u8>, s: int|
                                #[trigger] first_end(insts, enc, hay, hay.len() as int, opt0, props, pc0, s, None)
                                    is Some implies 0 <= s < hay.len() && lead.has(hay[s]) by {
                                let end = hay.len() as int;
                                assert(first_end(insts, enc, hay, end, opt0, props, pc as int, s, None)
                                    is Some);
                                assert(lit_step(enc, hay, end, opt0, s, v@) is Some);
                                if compares_bytes(enc, opt0, v@) {
                                    let bytes = ascii_lit(v@)->0;
                                    assert(hay.subrange(s, s + bytes.len()) == bytes);
                                    assert(hay[s] == hay.subrange(s, s + bytes.len())[0]);
                                    assert(char_matches(v@[0], v@[0], options));
                                    assert(byte_may_start(hay[s], v@[0]));
                                } else {
                                    assert(char_step(enc, hay, end, opt0, s, v@[0]) is Some);
                                    lemma_first_byte(enc, hay, s, end);
                                    let (cp, _n) = char_at_spec(enc, hay, s, end)->0;
                                    assert(char_matches(v@[0], cp, options));
                                    assert(byte_may_start(hay[s], cp));
                                }
                            }
                        }
                    }
                    return true;
                }
                proof {
                    if plain {
                        assert forall|hay: Seq<u8>, s: int|
                            first_end(insts, enc, hay, hay.len() as int, opt0, props, pc as int, s, None)
                                is Some implies #[trigger] first_end(
                            insts,
                            enc,
                            hay,
                            hay.len() as int,
                            opt0,
                            props,
                            pc + 1,
                            s,
                            None,
                        ) is Some by {
                            let end = hay.len() as int;
                            if compares_bytes(enc, opt0, v@) {
                                assert(hay.subrange(s, s) =~= ascii_lit(v@)->0);
                            }
                        }
                    }
                }
                pc = pc + 1;
            },
            Inst::Class { class } => {
                // Exact over ASCII: probe the matcher the VM will run, under
                // the options in force here.
                let ghost before = *lead;
                let mut cp: u32 = 0;
                while cp < 0x80
                    invariant
                        cp <= 0x80,
                        forall|b: u8| before.has(b) ==> #[trigger] lead.has(b),
                        forall|x: u32|
                            x < cp && class_spec(*class, x, enc, options, user_props@) ==> #[trigger] lead.has(
                                x as u8,
                            ),
                    decreases 0x80 - cp,
                {
                    if class_hit_in(class, cp, enc, options, user_props) {
                        lead.insert(cp as u8);
                    }
                    cp = cp + 1;
                }
                // Under IGNORECASE a non-ASCII character can fold onto an
                // ASCII member.
                let wide = class_may_be_non_ascii(class) || enc.min_len() != 1 || options.contains(
                    Options::ignorecase(),
                );
                if wide {
                    lead.insert_non_ascii();
                }
                proof {
                    if plain {
                        assert forall|hay: Seq<u8>, s: int|
                            #[trigger] first_end(insts, enc, hay, hay.len() as int, opt0, props, pc0, s, None)
                                is Some implies 0 <= s < hay.len() && lead.has(hay[s]) by {
                            let end = hay.len() as int;
                            assert(first_end(insts, enc, hay, end, opt0, props, pc as int, s, None)
                                is Some);
                            assert(class_step(enc, hay, end, opt0, props, s, *class) is Some);
                            lemma_first_byte(enc, hay, s, end);
                            let (cp, _n) = char_at_spec(enc, hay, s, end)->0;
                            assert(class_spec(*class, cp, enc, options, user_props@));
                            if cp >= 0x80 && !wide {
                                lemma_ascii_only_class(*class, cp, enc, options, user_props@);
                            }
                            if cp < 0x80 {
                                assert(hay[s] == cp as u8);
                            }
                        }
                    }
                }
                return true;
            },
            Inst::Any { .. } | Inst::SuperAny | Inst::GeneralNewline | Inst::TextSegment => {
                return false;
            },
            Inst::Jump(j) => {
                let j = *j as usize;
                if j <= pc {
                    return false;
                }
                pc = j;
            },
            Inst::Split(a, b) => {
                let a = *a as usize;
                let b = *b as usize;
                let ghost at = pc as int;
                if !lead_walk(prog, a, enc, options, user_props, lead, fuel, depth + 1) {
                    return false;
                }
                let ghost mid = *lead;
                let rb = lead_walk(prog, b, enc, options, user_props, lead, fuel, depth + 1);
                proof {
                    if rb && plain {
                        assert forall|hay: Seq<u8>, s: int|
                            #[trigger] first_end(insts, enc, hay, hay.len() as int, opt0, props, pc0, s, None)
                                is Some implies 0 <= s < hay.len() && lead.has(hay[s]) by {
                            let end = hay.len() as int;
                            assert(first_end(insts, enc, hay, end, opt0, props, at, s, None) is Some);
                            if first_end(insts, enc, hay, end, opt0, props, a as int, s, None) is Some {
                                assert(mid.has(hay[s]));
                            } else {
                                assert(first_end(insts, enc, hay, end, opt0, props, b as int, s, None)
                                    is Some);
                            }
                        }
                    }
                }
                return rb;
            },
            Inst::Repeat { body, after, min, .. } => {
                if !lead_walk(prog, *body as usize, enc, options, user_props, lead, fuel, depth + 1) {
                    return false;
                }
                if *min >= 1 {
                    return true;
                }
                // It may match zero times, so what follows can start too.
                pc = *after as usize;
            },
            // Look-around consumes nothing.
            Inst::Look { after, .. } => pc = *after as usize,
            // An atomic body may match empty, so union it with what follows.
            Inst::Atomic { body, after } => {
                if !lead_walk(prog, *body as usize, enc, options, user_props, lead, fuel, depth + 1) {
                    return false;
                }
                pc = *after as usize;
            },
            // Backrefs, calls, conditionals and absent spans could start with
            // almost anything.
            _ => return false,
        }
    }
}

/// The first-byte prefilter for `prog`, or `None` when none is useful.
pub fn compute_lead(
    prog: &Program,
    enc: Encoding,
    options: Options,
    user_props: &Vec<UserProperty>,
) -> (r: Option<Lead>)
    ensures
        enc.min_len_spec() != 1 ==> r is None,
        plain_program(prog.insts@) ==> (r matches Some(l) ==> lead_covers(
            l,
            prog.insts@,
            enc,
            options,
            user_props@,
            0,
        )),
{
    // A sub-byte-aligned encoding cannot be byte-scanned at all.
    if enc.min_len() != 1 {
        return None;
    }
    let mut lead = Lead::empty();
    let mut fuel: u32 = 4096;
    if !lead_walk(prog, 0, enc, options, user_props, &mut lead, &mut fuel, 0) {
        return None;
    }
    lead.finish()
}

/// Every match of a plain program starts where `^` holds.
pub open spec fn bol_required(insts: Seq<Inst>) -> bool {
    forall|enc: Encoding, hay: Seq<u8>, end: int, opt: Options, props: Seq<UserProperty>, s: int|
        #[trigger] first_end(insts, enc, hay, end, opt, props, 0, s, None) is Some ==> anchor_spec(
            Anchor::Bol,
            enc,
            hay,
            end,
            opt,
            s,
        )
}

/// Instructions that a walk down the spine of a program steps over: they
/// neither read nor branch.
pub open spec fn spine_skip(i: Inst) -> bool {
    match i {
        Inst::Nop | Inst::Save(_) | Inst::Keep | Inst::PushOptions(_, _) | Inst::PopOptions => true,
        _ => false,
    }
}

/// Instruction `k` is a `Bol` assert and only spine steps come before it.
pub open spec fn bol_at_spine(insts: Seq<Inst>, k: int) -> bool {
    &&& 0 <= k < insts.len()
    &&& insts[k] matches Inst::Assert(Anchor::Bol)
    &&& forall|j: int| 0 <= j < k ==> #[trigger] spine_skip(insts[j])
}

proof fn lemma_no_bol_spine(insts: Seq<Inst>, pc: int)
    requires
        0 <= pc,
        forall|j: int| 0 <= j < pc ==> #[trigger] spine_skip(insts[j]),
        pc >= insts.len() || pc >= 64 || !(spine_skip(insts[pc]) || insts[pc] matches Inst::Assert(
            Anchor::Bol,
        )),
    ensures
        !exists|k: int| 0 <= k < 64 && #[trigger] bol_at_spine(insts, k),
{
    assert forall|k: int| 0 <= k < 64 implies !bol_at_spine(insts, k) by {
        if bol_at_spine(insts, k) {
            if k < pc {
                assert(spine_skip(insts[k]));
            } else if k > pc {
                assert(spine_skip(insts[pc]));
            }
        }
    }
}

/// Does every match have to start at a line beginning? True when a `Bol`
/// assert precedes any consuming instruction on the spine.
fn starts_with_bol(prog: &Program) -> (r: bool)
    ensures
        r && plain_program(prog.insts@) ==> bol_required(prog.insts@),
        r == exists|k: int| 0 <= k < 64 && #[trigger] bol_at_spine(prog.insts@, k),
{
    let ghost insts = prog.insts@;
    let ghost plain = plain_program(prog.insts@);
    let mut pc: usize = 0;
    let mut fuel: u32 = 64;
    while fuel > 0
        invariant
            insts == prog.insts@,
            pc + fuel == 64,
            forall|j: int| 0 <= j < pc ==> #[trigger] spine_skip(insts[j]),
            plain == plain_program(prog.insts@),
            plain ==> forall|
                enc: Encoding,
                hay: Seq<u8>,
                end: int,
                opt: Options,
                props: Seq<UserProperty>,
                s: int,
            |
                #[trigger] first_end(insts, enc, hay, end, opt, props, 0, s, None) is Some
                    ==> first_end(insts, enc, hay, end, opt, props, pc as int, s, None) is Some,
        decreases fuel,
    {
        fuel = fuel - 1;
        if pc >= prog.insts.len() {
            proof {
                lemma_no_bol_spine(insts, pc as int);
            }
            return false;
        }
        proof {
            if plain {
                assert(plain_inst(insts[pc as int]));
            }
        }
        match &prog.insts[pc] {
            Inst::Assert(Anchor::Bol) => {
                proof {
                    assert(bol_at_spine(insts, pc as int));
                }
                return true;
            },
            Inst::Nop | Inst::Save(_) | Inst::Keep | Inst::PushOptions(_, _) | Inst::PopOptions => {
                proof {
                    if plain {
                        assert forall|
                            enc: Encoding,
                            hay: Seq<u8>,
                            end: int,
                            opt: Options,
                            props: Seq<UserProperty>,
                            s: int,
                        |
                            first_end(insts, enc, hay, end, opt, props, pc as int, s, None) is Some
                                implies #[trigger] first_end(
                            insts,
                            enc,
                            hay,
                            end,
                            opt,
                            props,
                            pc + 1,
                            s,
                            None,
                        ) is Some by {}
                    }
                }
                pc = pc + 1
            },
            _ => {
                proof {
                    lemma_no_bol_spine(insts, pc as int);
                }
                return false;
            },
        }
    }
    proof {
        lemma_no_bol_spine(insts, pc as int);
    }
    false
}

/// From `a`, the code reaches `b` over instructions that read nothing and
/// do not branch: `Nop`, `Save`, `Keep` and forward jumps.
pub open spec fn passes_to(insts: Seq<Inst>, a: int, b: int) -> bool
    decreases b - a,
{
    if a == b {
        true
    } else if a < 0 || a > b || a >= insts.len() {
        false
    } else {
        match insts[a] {
            Inst::Nop | Inst::Save(_) | Inst::Keep => passes_to(insts, a + 1, b),
            Inst::Jump(j) => a < j as int && j as int <= b && passes_to(insts, j as int, b),
            _ => false,
        }
    }
}

/// One more silent step after reaching `b`.
proof fn lemma_passes_step(insts: Seq<Inst>, a: int, b: int, c: int)
    requires
        passes_to(insts, a, b),
        0 <= b < c,
        b < insts.len(),
        match insts[b] {
            Inst::Nop | Inst::Save(_) | Inst::Keep => c == b + 1,
            Inst::Jump(j) => c == j as int,
            _ => false,
        },
    ensures
        passes_to(insts, a, c),
    decreases b - a,
{
    if a < b {
        match insts[a] {
            Inst::Nop | Inst::Save(_) | Inst::Keep => lemma_passes_step(insts, a + 1, b, c),
            Inst::Jump(j) => lemma_passes_step(insts, j as int, b, c),
            _ => {},
        }
    } else {
        assert(passes_to(insts, c, c));
    }
}

/// The instruction at `pc` reads the ASCII character `b` first.
pub open spec fn reads_first(inst: Inst, b: u32) -> bool {
    b < 0x80 && match inst {
        Inst::Char(c) => c == b,
        Inst::Literal(v) => v@.len() > 0 && v@[0] == b,
        _ => false,
    }
}

/// The class bitmap at `pc`, if any.
fn plan_of(prog: &Program, pc: usize) -> (r: Option<ClassPlan>)
    ensures
        r == (if pc < prog.class_plans@.len() {
            prog.class_plans@[pc as int]
        } else {
            None
        }),
{
    if pc < prog.class_plans.len() {
        prog.class_plans[pc]
    } else {
        None
    }
}

/// First byte of the character required immediately after the repetition.
fn follow_byte_of(prog: &Program, class_pc: usize, after: usize) -> (r: Option<(u8, bool)>)
    ensures
        r matches Some((b, ic)) ==> exists|pc: int|
            passes_to(prog.insts@, after as int, pc) && 0 <= pc < prog.insts@.len()
                && #[trigger] reads_first(prog.insts@[pc], b as u32),
        r matches Some((b, ic)) ==> ic == (match (if class_pc
            < prog.class_plans@.len() {
            prog.class_plans@[class_pc as int]
        } else {
            None
        }) {
            Some(p) => p.options.has(Options::ignorecase_spec()),
            None => false,
        }),
{
    let icase = match plan_of(prog, class_pc) {
        Some(p) => p.options.contains(Options::ignorecase()),
        None => false,
    };
    let mut pc = after;
    let mut fuel: u32 = 32;
    while fuel > 0
        invariant
            passes_to(prog.insts@, after as int, pc as int),
            icase == (match (if class_pc < prog.class_plans@.len() {
                prog.class_plans@[class_pc as int]
            } else {
                None
            }) {
                Some(p) => p.options.has(Options::ignorecase_spec()),
                None => false,
            }),
        decreases fuel,
    {
        fuel = fuel - 1;
        if pc >= prog.insts.len() {
            return None;
        }
        match &prog.insts[pc] {
            Inst::Nop | Inst::Save(_) | Inst::Keep => {
                proof {
                    lemma_passes_step(prog.insts@, after as int, pc as int, pc + 1);
                }
                pc = pc + 1;
            },
            Inst::Jump(j) => {
                let j = *j as usize;
                if j <= pc {
                    return None;
                }
                proof {
                    lemma_passes_step(prog.insts@, after as int, pc as int, j as int);
                }
                pc = j;
            },
            Inst::Char(c) => {
                let res = if *c < 0x80 {
                    Some((*c as u8, icase))
                } else {
                    None
                };
                proof {
                    if let Some((b, _)) = res {
                        assert(reads_first(prog.insts@[pc as int], b as u32));
                    }
                }
                return res;
            },
            Inst::Literal(v) => {
                let res = if v.len() > 0 && v[0] < 0x80 {
                    Some((v[0] as u8, icase))
                } else {
                    None
                };
                proof {
                    if let Some((b, _)) = res {
                        assert(reads_first(prog.insts@[pc as int], b as u32));
                    }
                }
                return res;
            },
            _ => return None,
        }
    }
    None
}

/// Is the next consuming instruction after `after` a character the class at
/// `class_pc` provably cannot match?
fn follow_is_disjoint(prog: &Program, class_pc: usize, after: usize) -> (r: bool)
    ensures
        r ==> (class_pc < prog.class_plans@.len() && (prog.class_plans@[class_pc as int] matches Some(
            p,
        ) && !p.options.has(Options::ignorecase_spec()) && exists|pc: int, c: u32|
            passes_to(prog.insts@, after as int, pc) && 0 <= pc < prog.insts@.len()
                && #[trigger] reads_first(prog.insts@[pc], c) && !plan_bit(p.ascii, c))),
{
    let plan = match plan_of(prog, class_pc) {
        Some(p) => p,
        None => return false,
    };
    // Case folding would widen what the follow character can be.
    if plan.options.contains(Options::ignorecase()) {
        return false;
    }
    let mut pc = after;
    let mut fuel: u32 = 32;
    while fuel > 0
        invariant
            passes_to(prog.insts@, after as int, pc as int),
            class_pc < prog.class_plans@.len() && prog.class_plans@[class_pc as int] == Some(plan),
            !plan.options.has(Options::ignorecase_spec()),
        decreases fuel,
    {
        fuel = fuel - 1;
        if pc >= prog.insts.len() {
            return false;
        }
        match &prog.insts[pc] {
            Inst::Nop | Inst::Save(_) | Inst::Keep => {
                proof {
                    lemma_passes_step(prog.insts@, after as int, pc as int, pc + 1);
                }
                pc = pc + 1;
            },
            Inst::Jump(j) => {
                let j = *j as usize;
                if j <= pc {
                    return false;
                }
                proof {
                    lemma_passes_step(prog.insts@, after as int, pc as int, j as int);
                }
                pc = j;
            },
            Inst::Char(c) => {
                let r = *c < 0x80 && !plan.hit(*c);
                proof {
                    if r {
                        assert(reads_first(prog.insts@[pc as int], *c));
                    }
                }
                return r;
            },
            Inst::Literal(v) => {
                let r = v.len() > 0 && v[0] < 0x80 && !plan.hit(v[0]);
                proof {
                    if r {
                        assert(reads_first(prog.insts@[pc as int], v@[0]));
                    }
                }
                return r;
            },
            _ => return false,
        }
    }
    false
}

/// Can the body `[body, after)` write a capture slot?
fn prog_body_writes_captures(prog: &Program, body: usize, after: usize) -> (r: bool)
    ensures
        r == exists|pc: int|
            body <= pc < after && pc < prog.insts@.len() && #[trigger] writes_slot(
                prog.insts@[pc],
            ),
{
    let mut pc = body;
    while pc < after && pc < prog.insts.len()
        invariant
            body <= pc,
            forall|q: int| body <= q < pc ==> !#[trigger] writes_slot(prog.insts@[q]),
        decreases prog.insts@.len() - pc,
    {
        proof {
            assert(writes_slot(prog.insts@[pc as int]) == (prog.insts@[pc as int] is Save
                || prog.insts@[pc as int] is Call || prog.insts@[pc as int] is Backref
                || prog.insts@[pc as int] is Cond || prog.insts@[pc as int] is Absent));
        }
        match &prog.insts[pc] {
            Inst::Save(_) | Inst::Call(_) | Inst::Backref(_) | Inst::Cond { .. }
            | Inst::Absent { .. } => return true,
            _ => {},
        }
        pc = pc + 1;
    }
    false
}

/// An instruction that can write a capture slot.
pub open spec fn writes_slot(inst: Inst) -> bool {
    inst is Save || inst is Call || inst is Backref || inst is Cond || inst is Absent
}

/// After the instruction at `body`, the code goes straight on to `after`:
/// by a jump there, or by being right before it.
pub open spec fn ends_at(insts: Seq<Inst>, body: int, after: int) -> bool {
    if body + 1 < insts.len() {
        match insts[body + 1] {
            Inst::Jump(j) => j as int == after,
            _ => body + 1 == after,
        }
    } else {
        body + 1 == after
    }
}

/// A one-instruction body: a `Char` or a `Class`, followed by the jump (or
/// nothing) back to `after`.
fn simple_body(prog: &Program, body: usize, after: usize) -> (r: SimpleBody)
    ensures
        match r {
            SimpleBody::Char(c) => body < prog.insts@.len() && ends_at(
                prog.insts@,
                body as int,
                after as int,
            ) && prog.insts@[body as int] == Inst::Char(c),
            SimpleBody::Class(pc) => body < prog.insts@.len() && ends_at(
                prog.insts@,
                body as int,
                after as int,
            ) && prog.insts@[body as int] is Class && pc == #[verifier::truncate] (body as u16),
            SimpleBody::Complex => !(body < prog.insts@.len() && ends_at(
                prog.insts@,
                body as int,
                after as int,
            ) && (prog.insts@[body as int] is Char || prog.insts@[body as int] is Class)),
        },
{
    let n = prog.insts.len();
    let tail_ok = if body < usize::MAX && body + 1 < n {
        let t = match &prog.insts[body + 1] {
            Inst::Jump(j) => *j as usize == after,
            _ => body + 1 == after,
        };
        proof {
            assert(t == ends_at(prog.insts@, body as int, after as int));
        }
        t
    } else {
        body < usize::MAX && body + 1 == after
    };
    proof {
        if body < n {
            assert(body < usize::MAX);
            assert(tail_ok == ends_at(prog.insts@, body as int, after as int));
        }
    }
    if !tail_ok || body >= prog.insts.len() {
        return SimpleBody::Complex;
    }
    match &prog.insts[body] {
        Inst::Char(c) => SimpleBody::Char(*c),
        Inst::Class { .. } => SimpleBody::Class(#[verifier::truncate] (body as u16)),
        _ => SimpleBody::Complex,
    }
}

/// `[open Save, close Save]` instruction span of group `idx`.
fn group_pc_span_of(prog: &Program, idx: usize) -> (r: Option<(usize, usize)>)
    ensures
        r matches Some((a, b)) ==> a < b < prog.insts@.len() && (prog.insts@[a as int] matches Inst::Save(
            s,
        ) && s % 2 == 0 && s / 2 == idx) && (prog.insts@[b as int] matches Inst::Save(t) && t % 2
            == 1 && t / 2 == idx),
{
    let mut start_pc: Option<usize> = None;
    let mut depth: i32 = 0;
    let mut i: usize = 0;
    while i < prog.insts.len()
        invariant
            i <= prog.insts@.len(),
            start_pc matches Some(st) ==> st < i && (prog.insts@[st as int] matches Inst::Save(s)
                && s % 2 == 0 && s / 2 == idx),
        decreases prog.insts@.len() - i,
    {
        match &prog.insts[i] {
            Inst::Save(s) => {
                let s = *s as usize;
                if s % 2 == 0 && s / 2 == idx {
                    if depth == 0 {
                        start_pc = Some(i);
                    }
                    depth = if depth < i32::MAX { depth + 1 } else { depth };
                }
                if s % 2 == 1 && s / 2 == idx {
                    depth = if depth > i32::MIN { depth - 1 } else { depth };
                    if depth == 0 {
                        match start_pc {
                            Some(st) => return Some((st, i)),
                            None => {},
                        }
                    }
                }
            },
            _ => {},
        }
        i = i + 1;
    }
    None
}

/// A plan matches the instruction it stands beside: only a `Class` has one,
/// and its bitmap holds exactly the ASCII members of that class under the
/// options recorded in the plan.
pub open spec fn plan_agrees(
    inst: Inst,
    plan: Option<ClassPlan>,
    enc: Encoding,
    user_props: Seq<UserProperty>,
) -> bool {
    match plan {
        Some(p) => match inst {
            Inst::Class { class } => forall|cp: u32|
                cp < 128 ==> #[trigger] plan_bit(p.ascii, cp) == class_spec(
                    class,
                    cp,
                    enc,
                    p.options,
                    user_props,
                ),
            _ => false,
        },
        None => !(inst is Class),
    }
}

/// One plan per instruction, each agreeing with its instruction.
pub open spec fn plans_agree(
    insts: Seq<Inst>,
    plans: Seq<Option<ClassPlan>>,
    enc: Encoding,
    user_props: Seq<UserProperty>,
) -> bool {
    &&& plans.len() == insts.len()
    &&& forall|pc: int|
        0 <= pc < plans.len() ==> #[trigger] plan_agrees(insts[pc], plans[pc], enc, user_props)
}

/// Bit `k` of `w`.
spec fn word_bit(w: u64, k: u32) -> bool {
    w & (1u64 << (k as u64)) != 0
}

/// Setting bit `k` sets it and leaves every other bit.
proof fn lemma_set_bit(w: u64, k: u32, j: u32)
    requires
        k < 64,
        j < 64,
    ensures
        word_bit(w | (1u64 << (k as u64)), j) == (word_bit(w, j) || j == k),
{
    assert((w | (1u64 << (k as u64))) & (1u64 << (j as u64)) != 0 == ((w & (1u64 << (j as u64))
        != 0) || j == k)) by (bit_vector)
        requires
            k < 64,
            j < 64,
    ;
}

/// Bit `cp` of the two-word map is bit `cp % 64` of word `cp / 64`.
proof fn lemma_plan_bit(ascii: [u64; 2], cp: u32)
    requires
        cp < 128,
    ensures
        plan_bit(ascii, cp) == (if cp < 64 {
            word_bit(ascii[0], cp)
        } else {
            word_bit(ascii[1], (cp - 64) as u32)
        }),
{
    assert(cp < 64 ==> (cp >> 6u32) == 0 && (cp & 63u32) == cp) by (bit_vector);
    assert(64 <= cp < 128 ==> (cp >> 6u32) == 1 && (cp & 63u32) == cp - 64) by (bit_vector);
}

/// The ASCII bitmap of `class` under `options`: bit `cp` is set exactly
/// when the class holds `cp`.
fn class_bitmap(
    class: &CharClass,
    enc: Encoding,
    options: Options,
    user_props: &Vec<UserProperty>,
) -> (r: [u64; 2])
    ensures
        forall|cp: u32|
            cp < 128 ==> #[trigger] plan_bit(r, cp) == class_spec(*class, cp, enc, options, user_props@),
{
    let mut lo: u64 = 0;
    let mut hi: u64 = 0;
    let mut cp: u32 = 0;
    proof {
        assert forall|j: u32| j < 64 implies !word_bit(0u64, j) by {
            assert(0u64 & (1u64 << (j as u64)) == 0) by (bit_vector);
        }
    }
    while cp < 0x80
        invariant
            cp <= 0x80,
            forall|c: u32| c < 64 ==> #[trigger] word_bit(lo, c) == (c < cp && class_spec(
                *class,
                c,
                enc,
                options,
                user_props@,
            )),
            forall|c: u32| c < 64 ==> #[trigger] word_bit(hi, c) == (c + 64 < cp && class_spec(
                *class,
                (c + 64) as u32,
                enc,
                options,
                user_props@,
            )),
        decreases 0x80 - cp,
    {
        let ghost old_lo = lo;
        let ghost old_hi = hi;
        let hit = class_hit_in(class, cp, enc, options, user_props);
        if hit {
            if cp < 64 {
                lo = lo | (1u64 << (cp as u64));
            } else {
                hi = hi | (1u64 << ((cp - 64) as u64));
            }
        }
        proof {
            assert forall|c: u32| c < 64 implies #[trigger] word_bit(lo, c) == (c < cp + 1
                && class_spec(*class, c, enc, options, user_props@)) by {
                assert(word_bit(old_lo, c) == (c < cp && class_spec(
                    *class,
                    c,
                    enc,
                    options,
                    user_props@,
                )));
                if hit && cp < 64 {
                    lemma_set_bit(old_lo, cp, c);
                }
            }
            assert forall|c: u32| c < 64 implies #[trigger] word_bit(hi, c) == (c + 64 < cp + 1
                && class_spec(*class, (c + 64) as u32, enc, options, user_props@)) by {
                assert(word_bit(old_hi, c) == (c + 64 < cp && class_spec(
                    *class,
                    (c + 64) as u32,
                    enc,
                    options,
                    user_props@,
                )));
                if hit && cp >= 64 {
                    lemma_set_bit(old_hi, (cp - 64) as u32, c);
                }
            }
        }
        cp = cp + 1;
    }
    let r = [lo, hi];
    proof {
        assert forall|c: u32| c < 128 implies #[trigger] plan_bit(r, c) == class_spec(
            *class,
            c,
            enc,
            options,
            user_props@,
        ) by {
            lemma_plan_bit(r, c);
            if c >= 64 {
                assert(word_bit(hi, (c - 64) as u32) == class_spec(
                    *class,
                    ((c - 64) as u32 + 64) as u32,
                    enc,
                    options,
                    user_props@,
                ));
                assert(((c - 64) as u32 + 64) as u32 == c);
            }
        }
    }
    r
}

/// Precompute everything about the program that never changes at match
/// time. The code itself, and with it every jump, stays as it is.
/// A shape that says nothing of what follows its repetition.
pub open spec fn no_follow(sh: RepeatShape) -> bool {
    !sh.follow_disjoint && sh.follow_byte is None
}

/// What a repetition's shape says of a one-instruction body holds of the
/// body from `b` to `a`.
pub open spec fn shape_simple_ok(insts: Seq<Inst>, sh: RepeatShape, b: int, a: int) -> bool {
    match sh.simple {
        SimpleBody::Char(c) => 0 <= b < insts.len() && insts[b] == Inst::Char(c) && ends_at(
            insts,
            b,
            a,
        ),
        SimpleBody::Class(cpc) => 0 <= b < insts.len() && insts[b] is Class && ends_at(insts, b, a)
            && cpc as int == b,
        SimpleBody::Complex => true,
    }
}

/// What a shape says of what follows its repetition holds.
pub open spec fn follow_ok(prog: &Program, sh: RepeatShape, body: int, after: int) -> bool {
    &&& sh.follow_disjoint ==> follow_disjoint_ok(prog, body, after)
    &&& !sh.follow_disjoint && sh.follow_byte is Some ==> follow_byte_ok(
        prog,
        body,
        after,
        sh.follow_byte->0,
        sh.follow_icase,
    )
}

pub fn analyze(prog: &mut Program, enc: Encoding, options: Options, user_props: &Vec<UserProperty>)
    ensures
        final(prog).insts == old(prog).insts,
        final(prog).capture_count == old(prog).capture_count,
        final(prog).names == old(prog).names,
        final(prog).has_named == old(prog).has_named,
        final(prog).history_groups == old(prog).history_groups,
        final(prog).lead == old(prog).lead,
        match final(prog).ascii_literal {
            Some(v) => ascii_literal_spec(old(prog).insts@) == Some(v@),
            None => ascii_literal_spec(old(prog).insts@) is None,
        },
        final(prog).req_lit matches Some(l) ==> l.wf() && from_program(&*final(prog), l),
        final(prog).anchored_bol && plain_program(old(prog).insts@) ==> bol_required(
            old(prog).insts@,
        ),
        plain_program(old(prog).insts@) ==> (final(prog).req_lit matches Some(l) ==> req_covers(
            l,
            old(prog).insts@,
            options,
        ) && l.run_class is None),
        rep_syntactic(old(prog).insts@) ==> (final(prog).req_lit matches Some(l) ==> req_covers(
            l,
            old(prog).insts@,
            options,
        )),
        plans_agree(old(prog).insts@, final(prog).class_plans@, enc, user_props@),
        lit_bytes_agree(old(prog).insts@, final(prog).literal_bytes@, enc),
        shapes_ok(&*final(prog)),
{
    let n = prog.insts.len();
    let mut shapes: Vec<RepeatShape> = Vec::new();
    let mut i: usize = 0;
    while i < n
        invariant
            i <= n,
            shapes@.len() == i,
            forall|b: int| 0 <= b < i ==> no_follow(#[trigger] shapes@[b]),
        decreases n - i,
    {
        shapes.push(default_shape());
        i = i + 1;
    }
    let mut pc: usize = 0;
    while pc < n
        invariant
            n == prog.insts@.len(),
            shapes@.len() == n,
            forall|b: int| 0 <= b < n ==> no_follow(#[trigger] shapes@[b]),
            forall|q: int|
                0 <= q < pc && #[trigger] prog.insts@[q] is Repeat && unique_body(prog.insts@, q)
                    && (prog.insts@[q]->Repeat_body as int) < n ==> shape_simple_ok(
                    prog.insts@,
                    shapes@[prog.insts@[q]->Repeat_body as int],
                    prog.insts@[q]->Repeat_body as int,
                    prog.insts@[q]->Repeat_after as int,
                ),
        decreases n - pc,
    {
        match &prog.insts[pc] {
            Inst::Repeat { body, after, .. } => {
                let body = *body as usize;
                let after = *after as usize;
                if body < n {
                    shapes.set(
                        body,
                        RepeatShape {
                            writes_caps: prog_body_writes_captures(prog, body, after),
                            simple: simple_body(prog, body, after),
                            follow_disjoint: false,
                            follow_byte: None,
                            follow_icase: false,
                        },
                    );
                }
            },
            _ => {},
        }
        pc = pc + 1;
    }
    prog.repeat_shapes = shapes;
    prog.ascii_literal = ascii_literal_program(prog);
    let groups = prog.capture_count;
    let mut spans: Vec<Option<(u16, u16)>> = Vec::new();
    let mut g: usize = 0;
    while g < groups
        invariant
            g <= groups,
        decreases groups - g,
    {
        let span = if g == 0 {
            None
        } else {
            match group_pc_span_of(prog, g) {
                Some((a, b)) => Some(
                    (#[verifier::truncate] (a as u16), #[verifier::truncate] (b as u16)),
                ),
                None => None,
            }
        };
        spans.push(span);
        g = g + 1;
    }
    prog.group_spans = spans;
    // Lower every class to an ASCII bitmap under the options live where the
    // VM reaches it, tracking inline option changes.
    let mut plans: Vec<Option<ClassPlan>> = Vec::new();
    let mut cur = options;
    let mut stack: Vec<Options> = Vec::new();
    let mut pc: usize = 0;
    while pc < n
        invariant
            n == prog.insts@.len(),
            plans@.len() == pc,
            pc <= n,
            forall|k: int|
                0 <= k < pc ==> #[trigger] plan_agrees(prog.insts@[k], plans@[k], enc, user_props@),
        decreases n - pc,
    {
        let plan = match &prog.insts[pc] {
            Inst::PushOptions(set, clear) => {
                stack.push(cur);
                cur = cur.union(*set).difference(*clear);
                None
            },
            Inst::PopOptions => {
                match stack.pop() {
                    Some(o) => cur = o,
                    None => {},
                }
                None
            },
            Inst::Class { class } => Some(
                ClassPlan { ascii: class_bitmap(class, enc, cur, user_props), options: cur },
            ),
            _ => None,
        };
        proof {
            assert(plan_agrees(prog.insts@[pc as int], plan, enc, user_props@));
        }
        let ghost before = plans@;
        plans.push(plan);
        proof {
            assert forall|k: int| 0 <= k < pc + 1 implies #[trigger] plan_agrees(
                prog.insts@[k],
                plans@[k],
                enc,
                user_props@,
            ) by {
                if k < pc {
                    assert(plans@[k] == before[k]);
                }
            }
        }
        pc = pc + 1;
    }
    prog.class_plans = plans;
    let mut lits: Vec<Option<Vec<u8>>> = Vec::new();
    let single = enc.min_len() == 1;
    let mut pc: usize = 0;
    while pc < n
        invariant
            n == prog.insts@.len(),
            pc <= n,
            lits@.len() == pc,
            single == (enc.min_len_spec() == 1),
            forall|k: int| 0 <= k < pc ==> #[trigger] lit_bytes_at(prog.insts@[k], lits@[k], enc),
        decreases n - pc,
    {
        let lit = if single {
            match &prog.insts[pc] {
                Inst::Literal(v) => {
                    let mut out: Vec<u8> = Vec::new();
                    let mut ok = true;
                    let mut k: usize = 0;
                    while k < v.len()
                        invariant_except_break
                            ok,
                        invariant
                            k <= v@.len(),
                            out@.len() == k,
                            forall|j: int| 0 <= j < k ==> #[trigger] v@[j] <= 0x7F,
                            forall|j: int| 0 <= j < k ==> #[trigger] out@[j] == v@[j] as u8,
                        ensures
                            ok ==> k == v@.len(),
                            !ok ==> k < v@.len() && v@[k as int] > 0x7F,
                        decreases v@.len() - k,
                    {
                        if v[k] > 0x7F {
                            ok = false;
                            break;
                        }
                        let ghost before_out = out@;
                        out.push(v[k] as u8);
                        proof {
                            assert forall|j: int| 0 <= j < k + 1 implies #[trigger] out@[j]
                                == v@[j] as u8 by {
                                if j < k {
                                    assert(out@[j] == before_out[j]);
                                }
                            }
                        }
                        k = k + 1;
                    }
                    proof {
                        if ok {
                            assert(out@ =~= Seq::new(v@.len(), |j: int| v@[j] as u8));
                        }
                    }
                    if ok {
                        Some(out)
                    } else {
                        None
                    }
                },
                _ => None,
            }
        } else {
            None
        };
        proof {
            assert(lit_bytes_at(prog.insts@[pc as int], lit, enc));
        }
        let ghost before = lits@;
        lits.push(lit);
        proof {
            assert forall|k: int| 0 <= k < pc + 1 implies #[trigger] lit_bytes_at(
                prog.insts@[k],
                lits@[k],
                enc,
            ) by {
                if k < pc {
                    assert(lits@[k] == before[k]);
                }
            }
        }
        pc = pc + 1;
    }
    prog.literal_bytes = lits;
    // Needs the class plans, so it runs after them.
    let mut shapes: Vec<RepeatShape> = Vec::new();
    std::mem::swap(&mut shapes, &mut prog.repeat_shapes);
    let ghost p2 = *prog;
    let mut pc: usize = 0;
    while pc < n
        invariant
            n == prog.insts@.len(),
            pc <= n,
            *prog == p2,
            shapes@.len() == n,
            forall|q: int|
                0 <= q < n && #[trigger] prog.insts@[q] is Repeat && unique_body(prog.insts@, q)
                    && (prog.insts@[q]->Repeat_body as int) < n ==> shape_simple_ok(
                    prog.insts@,
                    shapes@[prog.insts@[q]->Repeat_body as int],
                    prog.insts@[q]->Repeat_body as int,
                    prog.insts@[q]->Repeat_after as int,
                ) && (q >= pc ==> no_follow(shapes@[prog.insts@[q]->Repeat_body as int])) && (q
                    < pc ==> follow_ok(
                    &*prog,
                    shapes@[prog.insts@[q]->Repeat_body as int],
                    prog.insts@[q]->Repeat_body as int,
                    prog.insts@[q]->Repeat_after as int,
                )),
        decreases n - pc,
    {
        match &prog.insts[pc] {
            Inst::Repeat { body, after, .. } => {
                let body = *body as usize;
                let after = *after as usize;
                if body < shapes.len() {
                    let mut sh = shapes[body];
                    match sh.simple {
                        SimpleBody::Class(cpc) => {
                            sh.follow_disjoint = follow_is_disjoint(prog, cpc as usize, after);
                            match follow_byte_of(prog, cpc as usize, after) {
                                Some((b, icase)) => {
                                    sh.follow_byte = Some(b);
                                    sh.follow_icase = icase;
                                },
                                None => {},
                            }
                            shapes.set(body, sh);
                        },
                        _ => {},
                    }
                }
            },
            _ => {},
        }
        pc = pc + 1;
    }
    prog.repeat_shapes = shapes;
    prog.req_lit = required_literal(prog, enc.min_len() == 1, options);
    prog.anchored_bol = starts_with_bol(prog);
}

} // verus!
