//! Multi-pattern set (one encoding).

use vstd::prelude::*;
use super::error::{Error, ErrorKind};
use super::param::MatchParam;
use super::region::Region;
use super::syntax::Options;
use super::Regex;
use super::exec::vm::run_error;
use super::exec::MAX_RUN_DEPTH;

verus! {

/// Set of compiled regexes sharing an encoding. `FIND_LONGEST` is refused.
pub struct RegSet {
    regs: Vec<Regex>,
}

impl RegSet {
    /// The member regexes, in order.
    pub closed spec fn view_regs(&self) -> Seq<Regex> {
        self.regs@
    }

    /// Every member is a plain pattern of fewer instructions than the run
    /// nesting limit: searched without retry limits, each gives an answer.
    pub open spec fn all_run_freely(&self) -> bool {
        forall|i: int|
            0 <= i < self.view_regs().len() ==> (#[trigger] self.view_regs()[i]).plain()
                && self.view_regs()[i].program_spec().insts@.len() < MAX_RUN_DEPTH
    }

    /// Every member is a compiled regex.
    pub open spec fn wf(&self) -> bool {
        forall|i: int| 0 <= i < self.view_regs().len() ==> (#[trigger] self.view_regs()[i]).wf()
    }

    /// A set of `regs`; refused when two encodings differ or one member
    /// asks for the longest match.
    pub fn new(regs: Vec<Regex>) -> (r: Result<RegSet, Error>)
        ensures
            r is Ok <==> (forall|i: int|
                0 <= i < regs@.len() ==> (#[trigger] regs@[i]).enc_spec() == regs@[0].enc_spec()
                    && !regs@[i].options_spec().has(Options::find_longest_spec())),
            r matches Ok(s) ==> s.view_regs() == regs@,
            r matches Err(e) ==> e.kind == ErrorKind::InvalidArgument,
    {
        if regs.len() > 0 {
            let enc = regs[0].encoding();
            let mut i: usize = 0;
            while i < regs.len()
                invariant
                    i <= regs@.len(),
                    regs@.len() > 0,
                    enc == regs@[0].enc_spec(),
                    forall|j: int|
                        0 <= j < i ==> (#[trigger] regs@[j]).enc_spec() == enc
                            && !regs@[j].options_spec().has(Options::find_longest_spec()),
                decreases regs@.len() - i,
            {
                if regs[i].encoding() != enc {
                    return Err(Error::kind_msg(ErrorKind::InvalidArgument, "regset encodings differ"));
                }
                if regs[i].options().contains(Options::find_longest()) {
                    return Err(
                        Error::kind_msg(
                            ErrorKind::InvalidArgument,
                            "FIND_LONGEST not allowed in regset",
                        ),
                    );
                }
                i = i + 1;
            }
        }
        Ok(RegSet { regs })
    }

    /// Add `re`; refused when its encoding differs from the first member's
    /// or it asks for the longest match, the set then left as it was.
    pub fn add(&mut self, re: Regex) -> (r: Result<(), Error>)
        ensures
            r is Ok <==> ((old(self).view_regs().len() == 0 || old(self).view_regs()[0].enc_spec()
                == re.enc_spec()) && !re.options_spec().has(Options::find_longest_spec())),
            r is Ok ==> final(self).view_regs() == old(self).view_regs().push(re),
            r is Err ==> final(self).view_regs() == old(self).view_regs() && r->Err_0.kind
                == ErrorKind::InvalidArgument,
    {
        if self.regs.len() > 0 {
            if self.regs[0].encoding() != re.encoding() {
                return Err(Error::kind_msg(ErrorKind::InvalidArgument, "regset encodings differ"));
            }
        }
        if re.options().contains(Options::find_longest()) {
            return Err(
                Error::kind_msg(ErrorKind::InvalidArgument, "FIND_LONGEST not allowed in regset"),
            );
        }
        self.regs.push(re);
        Ok(())
    }

    pub fn len(&self) -> (r: usize)
        ensures
            r == self.view_regs().len(),
    {
        self.regs.len()
    }

    pub fn get(&self, i: usize) -> (r: Option<&Regex>)
        ensures
            r matches Some(re) ==> i < self.view_regs().len() && *re == self.view_regs()[i as int],
            r is None <==> i >= self.view_regs().len(),
    {
        if i < self.regs.len() {
            Some(&self.regs[i])
        } else {
            None
        }
    }

    /// Search with every member; the leftmost match wins, and the lower
    /// index among those starting at the same place.
    pub fn search(&self, hay: &[u8], param: &mut MatchParam) -> (r: Result<
        Option<(usize, Region)>,
        Error,
    >)
        requires
            self.wf(),
        ensures
            r matches Err(e) ==> run_error(e.kind),
            r matches Ok(Some((i, reg))) ==> i < self.view_regs().len() && reg.wf(hay@.len())
                && reg.captures@.len() == self.view_regs()[i as int].capture_count_spec() && (
                (self.view_regs()[i as int].plain() || self.view_regs()[i as int].rep_plain())
                    ==> self.view_regs()[i as int].first_match_end(
                    hay@,
                    reg.span().0 as int,
                ) == Some(reg.span().1 as int)),
            self.all_report_leftmost() && hay@.len() < u32::MAX ==> match r {
                Ok(Some((i, reg))) => forall|j: int|
                    0 <= j < self.view_regs().len() ==> (#[trigger] self.view_regs()[j]).no_match_in(
                        hay@,
                        0,
                        if j < i {
                            reg.span().0 + 1
                        } else {
                            reg.span().0 as int
                        },
                    ),
                Ok(None) => forall|j: int|
                    0 <= j < self.view_regs().len() ==> (#[trigger] self.view_regs()[j]).no_match_in(
                        hay@,
                        0,
                        hay@.len() as int + 1,
                    ),
                Err(_) => true,
            },
            self.all_run_freely() && old(param).retry_limit_in_match == 0
                && old(param).retry_limit_in_search == 0 ==> r is Ok,
    {
        let ghost law = self.all_report_leftmost() && hay@.len() < u32::MAX;
        let mut hits: Vec<Option<Region>> = Vec::new();
        let mut i: usize = 0;
        while i < self.regs.len()
            invariant
                i <= self.regs@.len(),
                hits@.len() == i,
                self.wf(),
                forall|k: int|
                    0 <= k < i ==> (#[trigger] hits@[k] matches Some(reg) ==> reg.wf(hay@.len())
                        && reg.captures@.len() == self.view_regs()[k].capture_count_spec() && (
                        (self.view_regs()[k].plain() || self.view_regs()[k].rep_plain())
                            ==> self.view_regs()[k].first_match_end(
                            hay@,
                            reg.span().0 as int,
                        ) == Some(reg.span().1 as int))),
                law == (self.all_report_leftmost() && hay@.len() < u32::MAX),
                param.retry_limit_in_match == old(param).retry_limit_in_match,
                param.retry_limit_in_search == old(param).retry_limit_in_search,
                law ==> forall|k: int|
                    0 <= k < i ==> match #[trigger] hits@[k] {
                        Some(reg) => self.view_regs()[k].no_match_in(hay@, 0, reg.span().0 as int),
                        None => self.view_regs()[k].no_match_in(hay@, 0, hay@.len() as int + 1),
                    },
            decreases self.regs@.len() - i,
        {
            let re = &self.regs[i];
            proof {
                assert(self.view_regs()[i as int].wf());
            }
            let hit = re.search_param(hay, param)?;
            proof {
                if law {
                    assert(self.view_regs()[i as int].reports_leftmost());
                }
            }
            hits.push(hit);
            i = i + 1;
        }
        let ghost all = hits@;
        let r = leftmost(hits);
        proof {
            if law {
                match &r {
                    Some((i, reg)) => {
                        let i = *i;
                        assert forall|j: int| 0 <= j < self.view_regs().len() implies (
                        #[trigger] self.view_regs()[j]).no_match_in(
                            hay@,
                            0,
                            if j < i {
                                reg.span().0 + 1
                            } else {
                                reg.span().0 as int
                            },
                        ) by {
                            assert(reg.wf(hay@.len()));
                            match all[j] {
                                Some(o) => {},
                                None => {},
                            }
                        }
                    },
                    None => {
                        assert forall|j: int| 0 <= j < self.view_regs().len() implies (
                        #[trigger] self.view_regs()[j]).no_match_in(hay@, 0, hay@.len() as int + 1)
                            by {
                            assert(all[j] is None);
                        }
                    },
                }
            }
        }
        Ok(r)
    }

    /// Every member reports its leftmost match.
    pub open spec fn all_report_leftmost(&self) -> bool {
        forall|j: int|
            0 <= j < self.view_regs().len() ==> (#[trigger] self.view_regs()[j]).reports_leftmost()
    }
}

/// `hits[i]` is the leftmost of the hits: it starts no later than any
/// other, and strictly earlier than every hit at a lower index.
pub open spec fn is_leftmost(hits: Seq<Option<Region>>, i: int) -> bool {
    &&& 0 <= i < hits.len()
    &&& hits[i] is Some
    &&& forall|j: int|
        0 <= j < hits.len() ==> (#[trigger] hits[j] matches Some(o) ==> hits[i]->0.span().0
            <= o.span().0 && (j < i ==> hits[i]->0.span().0 < o.span().0))
}

/// The leftmost of the members' hits with its index, or `None` when no
/// member matched.
pub fn leftmost(hits: Vec<Option<Region>>) -> (r: Option<(usize, Region)>)
    ensures
        r is None <==> forall|j: int| 0 <= j < hits@.len() ==> (#[trigger] hits@[j]) is None,
        r matches Some((i, reg)) ==> is_leftmost(hits@, i as int) && hits@[i as int] == Some(reg),
{
    let mut best: Option<(usize, usize)> = None;
    let mut i: usize = 0;
    while i < hits.len()
        invariant
            i <= hits@.len(),
            best is None <==> forall|j: int| 0 <= j < i ==> (#[trigger] hits@[j]) is None,
            best matches Some((b, st)) ==> b < i && hits@[b as int] is Some && st
                == hits@[b as int]->0.span().0 && forall|j: int|
                0 <= j < i ==> (#[trigger] hits@[j] matches Some(o) ==> st <= o.span().0 && (j
                    < b ==> st < o.span().0)),
        decreases hits@.len() - i,
    {
        match &hits[i] {
            Some(reg) => {
                let start = reg.range().start;
                let better = match best {
                    None => true,
                    Some((_, st)) => start < st,
                };
                if better {
                    best = Some((i, start));
                }
            },
            None => {},
        }
        i = i + 1;
    }
    match best {
        None => None,
        Some((b, _)) => {
            let mut hits = hits;
            match hits.remove(b) {
                Some(reg) => Some((b, reg)),
                None => None,
            }
        },
    }
}

} // verus!
