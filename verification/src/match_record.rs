//! The parse tree that a successful match hands back.
use crate::bnf_rules_compiler::RuleId;
use vstd::prelude::*;

verus! {

/// One node of a parse tree: the rule that matched, the half-open range of
/// token indices it covers, and one child for every rule it called, in the
/// order of the calls.
#[derive(Debug)]
pub struct MatchRecord {
    pub rule: RuleId,
    pub start: usize,
    pub end: usize,
    pub children: Vec<MatchRecord>,
}

/// Mathematical model of a [`MatchRecord`].
pub struct Record {
    pub rule: RuleId,
    pub start: nat,
    pub end: nat,
    pub children: Seq<Record>,
}

impl View for MatchRecord {
    type V = Record;

    open spec fn view(&self) -> Record
        decreases self,
    {
        Record {
            rule: self.rule,
            start: self.start as nat,
            end: self.end as nat,
            children: records(self.children@),
        }
    }
}

/// The models of a sequence of match records, element by element.
pub open spec fn records(s: Seq<MatchRecord>) -> Seq<Record>
    decreases s,
{
    if s.len() == 0 {
        Seq::empty()
    } else {
        records(s.drop_last()).push(s.last()@)
    }
}

/// `records` keeps the length and maps every element to its model.
pub proof fn lemma_records(s: Seq<MatchRecord>)
    ensures
        records(s).len() == s.len(),
        forall|i: int| 0 <= i < s.len() ==> (#[trigger] records(s)[i]) == s[i]@,
    decreases s.len(),
{
    if s.len() > 0 {
        lemma_records(s.drop_last());
        assert(records(s) == records(s.drop_last()).push(s.last()@));
    } else {
        assert(records(s) == Seq::<Record>::empty());
    }
}

/// The children of `r` lie inside `r`, one after the other without overlap,
/// and the same holds below each of them.
pub open spec fn well_nested(r: Record) -> bool
    decreases r,
{
    &&& r.start <= r.end
    &&& chained(r.children, r.start, r.end)
}

/// The records of `s` follow one another inside `[from, to]` and each is
/// well nested.
pub open spec fn chained(s: Seq<Record>, from: nat, to: nat) -> bool
    decreases s,
{
    if s.len() == 0 {
        from <= to
    } else {
        &&& from <= s[0].start
        &&& well_nested(s[0])
        &&& chained(s.subrange(1, s.len() as int), s[0].end, to)
    }
}

impl MatchRecord {
    /// A record for `rule` over `[start, end)` with the given children.
    pub fn new(rule: RuleId, start: usize, end: usize, children: Vec<MatchRecord>) -> (r: Self)
        ensures
            r@ == (Record {
                rule,
                start: start as nat,
                end: end as nat,
                children: records(children@),
            }),
    {
        MatchRecord { rule, start, end, children }
    }
}

/// Puts `first` in front of `rest`.
pub fn prepend(first: MatchRecord, rest: Vec<MatchRecord>) -> (r: Vec<MatchRecord>)
    ensures
        records(r@) == seq![first@] + records(rest@),
{
    let mut rest = rest;
    let ghost before = rest@;
    rest.insert(0, first);
    proof {
        lemma_records(before);
        lemma_records(rest@);
        assert(records(rest@) =~= seq![first@] + records(before));
    }
    rest
}

} // verus!
