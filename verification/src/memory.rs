use vstd::prelude::*;

use vstd::string::StringExecFns;
use crate::laws::tags_hold_ids;
use crate::operator::{
    deletes, rule_id_of, service_id_of, Backend, DeleteFilter, DeleteFilterView, Error, Rule,
    RuleView,
};
use crate::set::views;
use crate::text::{contains_text, occurs_at, push_char};

verus! {

/// A backend that keeps its rules in memory, each with the text `rule_id service_id`; what it
/// holds is what is in place.
pub struct MemoryBackend {
    pub rules: Vec<Rule>,
}

/// The text that a `MemoryBackend` keeps with a rule: its rule id, a space, its service id.
pub open spec fn memory_tag(r: RuleView) -> Seq<char> {
    rule_id_of(r) + seq![' '] + service_id_of(r.service)
}

impl MemoryBackend {
    /// A backend with no rules.
    pub fn new() -> (r: MemoryBackend)
        ensures
            r.rules@.len() == 0,
    {
        MemoryBackend { rules: Vec::new() }
    }
}

impl Backend for MemoryBackend {
    open spec fn obeys_backend_laws() -> bool {
        true
    }

    open spec fn held(&self) -> Seq<RuleView> {
        views(self.rules@)
    }

    open spec fn installed(&self) -> Seq<RuleView> {
        views(self.rules@)
    }

    open spec fn tag(r: RuleView) -> Seq<char> {
        memory_tag(r)
    }

    open spec fn apply_answer(&self, rules: Seq<RuleView>) -> Result<(), Error> {
        Ok(())
    }

    open spec fn delete_answer(&self, filter: DeleteFilterView) -> Result<(), Error> {
        Ok(())
    }

    fn read_state(&mut self) {
    }

    fn apply_rules(&mut self, rules: Vec<Rule>) -> (r: Result<(), Error>) {
        let ghost start = self.rules@;
        let mut rules = rules;
        let ghost added = rules@;
        self.rules.append(&mut rules);
        assert(views(self.rules@) =~= views(start) + views(added));
        Ok(())
    }

    fn delete_rules(&mut self, filter: &DeleteFilter) -> (r: Result<(), Error>) {
        let ghost start = views(self.rules@);
        let ghost keep = |x: RuleView| !deletes(filter@, memory_tag(x));
        let mut rest: Vec<Rule> = Vec::new();
        std::mem::swap(&mut rest, &mut self.rules);
        let mut kept: Vec<Rule> = Vec::new();
        let n = rest.len();
        while rest.len() > 0
            invariant
                n == start.len(),
                rest.len() <= n,
                views(rest@) == start.skip(n - rest.len()),
                keep == (|x: RuleView| !deletes(filter@, memory_tag(x))),
                views(kept@) == start.take(n - rest.len()).filter(keep),
            decreases rest.len(),
        {
            let ghost before_rest = rest@;
            let ghost before_kept = views(kept@);
            let ghost done = n - rest.len();
            let x = rest.remove(0);
            proof {
                assert(views(rest@) =~= start.skip(done + 1)) by {
                    assert(rest@ =~= before_rest.subrange(1, before_rest.len() as int));
                    assert(views(rest@) =~= views(before_rest).subrange(
                        1,
                        before_rest.len() as int,
                    ));
                    assert(start.skip(done).subrange(1, before_rest.len() as int) =~= start.skip(
                        done + 1,
                    ));
                }
                assert(x@ == start[done]) by {
                    assert(x == before_rest[0]);
                    assert(views(before_rest)[0] == start.skip(done)[0]);
                }
                reveal(Seq::filter);
                assert(start.take(done + 1).drop_last() =~= start.take(done));
            }
            let mut text = x.rule_id();
            push_char(&mut text, ' ');
            let sid = x.service_id();
            text.append(sid.as_str());
            assert(text@ =~= memory_tag(x@));
            if !filter.matches(text.as_str()) {
                kept.push(x);
                assert(views(kept@) =~= before_kept.push(start[done]));
            }
        }
        assert(start.take(n as int) =~= start);
        self.rules = kept;
        assert(keep =~= (|x: RuleView| !deletes(filter@, Self::tag(x))));
        Ok(())
    }
}

/// The text a `MemoryBackend` keeps with each rule holds the rule's id and its service's id.
pub proof fn lemma_memory_tags_hold_ids()
    ensures
        tags_hold_ids(|x: RuleView| MemoryBackend::tag(x)),
{
    let tag = |x: RuleView| MemoryBackend::tag(x);
    assert forall|r: RuleView| #![trigger tag(r)]
        contains_text(tag(r), rule_id_of(r)) && contains_text(tag(r), service_id_of(r.service)) by {
        let t = memory_tag(r);
        let a = rule_id_of(r);
        let b = service_id_of(r.service);
        assert(t.subrange(0, a.len() as int) =~= a);
        assert(occurs_at(t, a, 0));
        let k: int = a.len() as int + 1;
        assert(t.subrange(k, k + b.len()) =~= b);
        assert(occurs_at(t, b, k));
    }
}

} // verus!
