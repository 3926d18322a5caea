//! The subprocess-driven packet filter. It keeps the owned chain's intended
//! state as plain data — the same state the contracts speak of — and fires
//! the corresponding filter commands through a runner the caller supplies.
//! A failing command rolls the intended state back and reports the failure;
//! the physical chain is rebuilt from scratch on start, which is the
//! recovery model when the two drift apart.

use vstd::prelude::*;
use crate::ip::IpAddress;
use crate::iptables::{is_rule_exists, Iptables, RuleMode};
use crate::record::{ProxyRecord, ProxyRecordSet};
use crate::router::{
    install_routes, lemma_map_of_rules_dom, map_of_rules, remove_routes, MockRule, Router,
    RouterError,
};

verus! {

/// Relies on the runner the application supplies: it hands one argument
/// vector to the filter binary (the v6 one when asked) and answers with
/// what the filter printed on failure. Nothing is assumed of the outcome.
#[verifier::external_body]
fn run_filter_cmd<F: FnMut(&Vec<String>, bool) -> Result<(), String>>(
    runner: &mut F,
    cmd: &Vec<String>,
    v6: bool,
) -> (r: Result<(), String>)
{
    runner(cmd, v6)
}

/// The filter driver: the verified mirror of the owned chain, the command
/// plans, and the subprocess runner.
pub struct SubprocessRouter<F: FnMut(&Vec<String>, bool) -> Result<(), String>> {
    pub plan: Iptables,
    pub runner: F,
    pub rules: Vec<MockRule>,
}

impl<F: FnMut(&Vec<String>, bool) -> Result<(), String>> SubprocessRouter<F> {
    pub fn new(plan: Iptables, runner: F) -> (r: SubprocessRouter<F>)
        ensures
            r.routes() == Map::<u32, IpAddress>::empty(),
    {
        SubprocessRouter { plan, runner, rules: Vec::new() }
    }

    fn mirror_contains(&self, mapped: u32) -> (r: bool)
        ensures
            r == self.routes().dom().contains(mapped),
    {
        let mut i: usize = 0;
        let ghost s = self.rules@;
        while i < self.rules.len()
            invariant
                i <= s.len(),
                self.rules@ == s,
                forall|k: int| 0 <= k < i ==> #[trigger] s[k].mapped != mapped,
            decreases s.len() - i,
        {
            if self.rules[i].mapped == mapped {
                proof {
                    lemma_map_of_rules_dom(s, mapped);
                }
                return true;
            }
            i = i + 1;
        }
        proof {
            lemma_map_of_rules_dom(s, mapped);
        }
        false
    }

    fn mirror_snapshot(&self) -> (r: Vec<MockRule>)
        ensures
            r@ == self.rules@,
    {
        let mut out: Vec<MockRule> = Vec::new();
        let mut i: usize = 0;
        while i < self.rules.len()
            invariant
                i <= self.rules@.len(),
                out@ == self.rules@.subrange(0, i as int),
            decreases self.rules@.len() - i,
        {
            out.push(self.rules[i]);
            proof {
                assert(out@ =~= self.rules@.subrange(0, i + 1 as int));
            }
            i = i + 1;
        }
        proof {
            assert(out@ =~= self.rules@);
        }
        out
    }

    fn mirror_drop(&mut self, mapped: u32)
        ensures
            final(self).routes() == old(self).routes().remove(mapped),
            final(self).plan == old(self).plan,
    {
        let ghost s = self.rules@;
        let mut kept: Vec<MockRule> = Vec::new();
        let mut i: usize = 0;
        while i < self.rules.len()
            invariant
                i <= s.len(),
                self.rules@ == s,
                self.plan == old(self).plan,
                kept@ == s.subrange(0, i as int).filter(|r: MockRule| r.mapped != mapped),
            decreases s.len() - i,
        {
            let ghost prefix = s.subrange(0, i as int);
            let ghost prefix1 = s.subrange(0, i as int + 1);
            proof {
                assert(prefix1.drop_last() =~= prefix);
                reveal(Seq::filter);
            }
            let rule = self.rules[i];
            if rule.mapped != mapped {
                kept.push(rule);
                proof {
                    assert(kept@ =~= prefix1.filter(|r: MockRule| r.mapped != mapped));
                }
            } else {
                proof {
                    assert(kept@ =~= prefix1.filter(|r: MockRule| r.mapped != mapped));
                }
            }
            i = i + 1;
        }
        proof {
            assert(s.subrange(0, s.len() as int) =~= s);
            crate::router::lemma_map_of_rules_drop_key(s, mapped);
        }
        self.rules = kept;
    }

    /// Fires the delete commands for every routable record of `records`
    /// whose soft-delete instant passed (or all of them, when `only_due` is
    /// off), dropping each from the mirror; the first failing command stops
    /// the walk with failure and the caller restores the mirror.
    fn fire_removals(&mut self, records: &Vec<ProxyRecord>, comment: &String, only_due: bool,
        now: u64) -> (r: Result<(), RouterError>)
        ensures
            final(self).plan == old(self).plan,
            r is Ok && !only_due ==> final(self).routes()
                == remove_routes(old(self).routes(), records@),
            r is Ok && only_due ==> final(self).routes() == remove_routes(old(self).routes(),
                records@.filter(|x: ProxyRecord| x.spec_is_past_due(now))),
    {
        let ghost m0 = self.routes();
        let mut i: usize = 0;
        proof {
            assert(records@.subrange(0, 0) =~= Seq::<ProxyRecord>::empty());
            assert(records@.subrange(0, 0).filter(|x: ProxyRecord| x.spec_is_past_due(now))
                =~= Seq::<ProxyRecord>::empty());
        }
        while i < records.len()
            invariant
                i <= records@.len(),
                self.plan == old(self).plan,
                !only_due ==> self.routes()
                    == remove_routes(m0, records@.subrange(0, i as int)),
                only_due ==> self.routes() == remove_routes(m0,
                    records@.subrange(0, i as int).filter(
                        |x: ProxyRecord| x.spec_is_past_due(now))),
            decreases records@.len() - i,
        {
            let ghost prefix = records@.subrange(0, i as int);
            let ghost prefix1 = records@.subrange(0, i as int + 1);
            proof {
                assert(prefix1.drop_last() =~= prefix);
                assert(prefix1.last() == records@[i as int]);
                reveal(Seq::filter);
            }
            let rec = &records[i];
            let skip = if only_due {
                !rec.is_past_due(now)
            } else {
                false
            };
            if !skip && rec.is_routable() {
                match (rec.original_addr, rec.mapped_addr) {
                    (Some(IpAddress::V4(_)), Some(IpAddress::V4(mapped))) => {
                        let cmd = self.plan.gen_route_rule(rec, comment.as_str(), RuleMode::Del);
                        match run_filter_cmd(&mut self.runner, &cmd, false) {
                            Ok(_) => {},
                            Err(e) => {
                                // a rule that was already gone is no failure
                                if !crate::iptables::stderr_means_missing_rule(e.as_str()) {
                                    return Err(RouterError { message: e });
                                }
                            },
                        }
                        self.mirror_drop(mapped);
                    },
                    (_, Some(IpAddress::V4(mapped))) => {
                        // no v4 command can address this rule; drop the mirror entry
                        self.mirror_drop(mapped);
                    },
                    _ => {},
                }
            }
            proof {
                if only_due {
                    let f0 = prefix.filter(|x: ProxyRecord| x.spec_is_past_due(now));
                    let f1 = prefix1.filter(|x: ProxyRecord| x.spec_is_past_due(now));
                    if records@[i as int].spec_is_past_due(now) {
                        assert(f1 =~= f0.push(records@[i as int]));
                        assert(f1.drop_last() =~= f0);
                        assert(f1.last() == records@[i as int]);
                        assert(remove_routes(m0, f1) == (if crate::router::rule_worthy(
                            records@[i as int]) {
                            remove_routes(m0, f0).remove(crate::router::rule_key(
                                records@[i as int]))
                        } else {
                            remove_routes(m0, f0)
                        }));
                    } else {
                        assert(f1 =~= f0);
                    }
                }
            }
            i = i + 1;
        }
        proof {
            assert(records@.subrange(0, records@.len() as int) =~= records@);
        }
        Ok(())
    }
}

impl<F: FnMut(&Vec<String>, bool) -> Result<(), String>> Router for SubprocessRouter<F> {
    open spec fn routes(&self) -> Map<u32, IpAddress> {
        map_of_rules(self.rules@)
    }

    /// Flush the owned chain, create it if missing, and gate the vpn subnet
    /// into it, tolerating what is already in place.
    fn init(&mut self) -> (r: Result<(), RouterError>) {
        let flush_cmd = self.plan.cleanup_args();
        if let Err(e) = run_filter_cmd(&mut self.runner, &flush_cmd, false) {
            if !crate::iptables::stderr_means_no_chain(e.as_str()) {
                return Err(RouterError { message: e });
            }
        }
        let create_cmd = self.plan.create_chain_args();
        if let Err(e) = run_filter_cmd(&mut self.runner, &create_cmd, false) {
            if !crate::iptables::stderr_means_chain_exists(e.as_str()) {
                return Err(RouterError { message: e });
            }
        }
        let check_cmd = self.plan.jump_rule_args(true);
        let checked = run_filter_cmd(&mut self.runner, &check_cmd, false);
        if !is_rule_exists(&checked) {
            let add_cmd = self.plan.jump_rule_args(false);
            if let Err(e) = run_filter_cmd(&mut self.runner, &add_cmd, false) {
                return Err(RouterError { message: e });
            }
        }
        self.rules = Vec::new();
        Ok(())
    }

    /// One check-then-add per live routable record missing from the chain.
    /// A failing add rolls the intended state back.
    fn install(&mut self, record_set: &ProxyRecordSet) -> (r: Result<(), RouterError>) {
        let snapshot = self.mirror_snapshot();
        let comment = Iptables::generate_comment(record_set);
        let records = record_set.records();
        let ghost m0 = self.routes();
        let mut i: usize = 0;
        proof {
            assert(records@.subrange(0, 0) =~= Seq::<ProxyRecord>::empty());
        }
        while i < records.len()
            invariant
                i <= records@.len(),
                self.plan == old(self).plan,
                snapshot@ == old(self).rules@,
                self.routes() == install_routes(m0, records@.subrange(0, i as int)),
                m0 == map_of_rules(old(self).rules@),
            decreases records@.len() - i,
        {
            let ghost prefix = records@.subrange(0, i as int);
            let ghost prefix1 = records@.subrange(0, i as int + 1);
            proof {
                assert(prefix1.drop_last() =~= prefix);
                assert(prefix1.last() == records@[i as int]);
            }
            let rec = &records[i];
            if rec.is_routable() && rec.is_live() {
                match rec.mapped_addr {
                    Some(IpAddress::V4(mapped)) => {
                        if !self.mirror_contains(mapped) {
                            let fired = match rec.original_addr {
                                Some(IpAddress::V4(_)) => {
                                    let check = self.plan.gen_route_rule(rec, comment.as_str(),
                                        RuleMode::Check);
                                    let checked = run_filter_cmd(&mut self.runner, &check, false);
                                    if is_rule_exists(&checked) {
                                        Ok(())
                                    } else {
                                        let add = self.plan.gen_route_rule(rec, comment.as_str(),
                                            RuleMode::Add);
                                        run_filter_cmd(&mut self.runner, &add, false)
                                    }
                                },
                                // no v4 command can express this rule; only
                                // the intended state tracks it
                                _ => Ok(()),
                            };
                            match fired {
                                Err(e) => {
                                    self.rules = snapshot;
                                    return Err(RouterError { message: e });
                                },
                                Ok(_) => {
                                    match rec.original_addr {
                                        Some(orig) => {
                                            let ghost before = self.rules@;
                                            self.rules.push(MockRule {
                                                mapped,
                                                original: orig,
                                            });
                                            proof {
                                                assert(self.rules@.drop_last() =~= before);
                                            }
                                        },
                                        None => {},
                                    }
                                },
                            }
                        }
                    },
                    _ => {},
                }
            }
            i = i + 1;
        }
        proof {
            assert(records@.subrange(0, records@.len() as int) =~= records@);
        }
        Ok(())
    }

    fn remove(&mut self, record_set: &ProxyRecordSet) -> (r: Result<(), RouterError>) {
        let snapshot = self.mirror_snapshot();
        let comment = Iptables::generate_comment(record_set);
        match self.fire_removals(record_set.records(), &comment, false, 0) {
            Ok(_) => Ok(()),
            Err(e) => {
                self.rules = snapshot;
                Err(e)
            },
        }
    }

    fn remove_old_records(&mut self, record_set: &mut ProxyRecordSet, now: u64)
        -> (r: Result<Vec<ProxyRecord>, RouterError>) {
        let snapshot = self.mirror_snapshot();
        let comment = Iptables::generate_comment(record_set);
        match self.fire_removals(record_set.records(), &comment, true, now) {
            Ok(_) => Ok(record_set.extract_past_due(now)),
            Err(e) => {
                self.rules = snapshot;
                Err(e)
            },
        }
    }

    fn flush(&mut self) -> (r: Result<(), RouterError>) {
        let cmd = self.plan.cleanup_args();
        if let Err(e) = run_filter_cmd(&mut self.runner, &cmd, false) {
            if !crate::iptables::stderr_means_no_chain(e.as_str()) {
                return Err(RouterError { message: e });
            }
        }
        self.rules = Vec::new();
        Ok(())
    }
}

} // verus!
