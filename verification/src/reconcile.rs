//! The reconciler: translates one command against the registry into the
//! ordered, externally effected steps that make the OS account store and
//! the daemon's routing configuration match the registry's declared
//! intent.
//!
//! The reconciler owns every decision; the front end only executes the
//! planned steps in order, aborting or deferring on failure exactly as
//! each step prescribes.

use vstd::prelude::*;
use crate::Error;
use crate::parser::{descriptor_ok, descriptor_tokens, parse_proxy_string};
use crate::registry::{
    contains_user, registry_text, registry_wf, spec_insert, spec_remove, ProxyRecord, RecordModel,
    Registry, RegistryModel,
};

verus! {

/// A command against the registry, one per invocation.
pub enum Command {
    Add { descriptor: String },
    Remove { proxy_user: String },
    List,
    Install,
}

/// What the executor does when a step fails: abort the invocation, or
/// report the failure at the end and carry on with the remaining steps.
pub enum FailurePolicy {
    Abort,
    Report,
}

/// One externally effected step.
pub enum Action {
    /// Provision the restricted system account.
    CreateAccount { username: String },
    /// Delete the system account.
    RemoveAccount { username: String },
    /// Upsert the user's routing block in the daemon configuration and
    /// reload the daemon.
    ApplyRouting {
        proxy_user: String,
        target_user: String,
        target_host: String,
        identity_key_path: String,
    },
    /// Delete the user's routing block and reload the daemon.
    RetractRouting { proxy_user: String },
    /// Atomically replace the registry file with this document.
    SaveRegistry { text: String },
}

/// A step together with its failure policy.
pub struct PlannedStep {
    pub action: Action,
    pub on_failure: FailurePolicy,
}

/// The three steps of an Add: create the account, upsert the routing
/// block, persist the grown registry — each aborting on failure, so a
/// failed account creation leaves no orphaned routing block and a failed
/// daemon step leaves the registry file untouched.
pub open spec fn add_plan_ok(
    steps: Seq<PlannedStep>,
    m: RegistryModel,
    u: Seq<char>,
    tu: Seq<char>,
    h: Seq<char>,
) -> bool {
    &&& steps.len() == 3
    &&& (steps[0].action matches Action::CreateAccount { username } && username@ == u)
    &&& steps[0].on_failure is Abort
    &&& (steps[1].action matches Action::ApplyRouting {
        proxy_user,
        target_user,
        target_host,
        identity_key_path,
    } && proxy_user@ == u && target_user@ == tu && target_host@ == h && identity_key_path@
        == m.identity_key_path)
    &&& steps[1].on_failure is Abort
    &&& (steps[2].action matches Action::SaveRegistry { text } && text@ == registry_text(m))
    &&& steps[2].on_failure is Abort
}

/// The three steps of a Remove of a present user: delete the account and
/// retract the block (failures reported, not blocking), then persist the
/// shrunk registry.
pub open spec fn remove_plan_ok(steps: Seq<PlannedStep>, m: RegistryModel, u: Seq<char>) -> bool {
    &&& steps.len() == 3
    &&& (steps[0].action matches Action::RemoveAccount { username } && username@ == u)
    &&& steps[0].on_failure is Report
    &&& (steps[1].action matches Action::RetractRouting { proxy_user } && proxy_user@ == u)
    &&& steps[1].on_failure is Report
    &&& (steps[2].action matches Action::SaveRegistry { text } && text@ == registry_text(m))
    &&& steps[2].on_failure is Abort
}

/// The pair of steps Install plans for entry `k`: re-create the account
/// and re-upsert the routing block, exactly as Add would.
pub open spec fn install_pair_ok(steps: Seq<PlannedStep>, m: RegistryModel, k: int) -> bool {
    &&& (steps[2 * k].action matches Action::CreateAccount { username } && username@
        == m.entries[k].proxy_user)
    &&& steps[2 * k].on_failure is Abort
    &&& (steps[2 * k + 1].action matches Action::ApplyRouting {
        proxy_user,
        target_user,
        target_host,
        identity_key_path,
    } && proxy_user@ == m.entries[k].proxy_user && target_user@ == m.entries[k].target_user
        && target_host@ == m.entries[k].target_host && identity_key_path@ == m.identity_key_path)
    &&& steps[2 * k + 1].on_failure is Abort
}

/// Plans one command: mutates the in-memory registry to its declared next
/// state and returns the ordered external steps that realize it.  Nothing
/// is persisted by planning itself; the registry file changes only when
/// the executor reaches a SaveRegistry step.
pub fn plan(cmd: &Command, reg: &mut Registry) -> (r: Result<Vec<PlannedStep>, Error>)
    requires
        registry_wf(old(reg)@),
    ensures
        registry_wf(final(reg)@),
        final(reg)@.identity_key_path == old(reg)@.identity_key_path,
        match cmd {
            Command::Add { descriptor } => {
                let toks = descriptor_tokens(descriptor@);
                if descriptor_ok(descriptor@) {
                    &&& r is Ok
                    &&& final(reg)@.entries == spec_insert(
                        old(reg)@.entries,
                        RecordModel {
                            proxy_user: toks[0],
                            target_user: toks[1],
                            target_host: toks[2],
                            port: 22,
                        },
                    )
                    &&& add_plan_ok(r->Ok_0@, final(reg)@, toks[0], toks[1], toks[2])
                } else {
                    &&& (r matches Err(Error::MalformedDescriptor(b)) && b@ == descriptor@)
                    &&& final(reg)@ == old(reg)@
                }
            },
            Command::Remove { proxy_user } => {
                if contains_user(old(reg)@.entries, proxy_user@) {
                    &&& r is Ok
                    &&& final(reg)@.entries == spec_remove(old(reg)@.entries, proxy_user@)
                    &&& remove_plan_ok(r->Ok_0@, final(reg)@, proxy_user@)
                } else {
                    &&& r is Ok
                    &&& r->Ok_0@.len() == 0
                    &&& final(reg)@ == old(reg)@
                }
            },
            Command::List => {
                &&& r is Ok
                &&& r->Ok_0@.len() == 0
                &&& final(reg)@ == old(reg)@
            },
            Command::Install => {
                &&& r is Ok
                &&& final(reg)@ == old(reg)@
                &&& r->Ok_0@.len() == 2 * old(reg)@.entries.len()
                &&& forall|k: int|
                    0 <= k < old(reg)@.entries.len() ==> #[trigger] install_pair_ok(
                        r->Ok_0@,
                        old(reg)@,
                        k,
                    )
            },
        },
{
    match cmd {
        Command::Add { descriptor } => {
            let (u, tu, h) = match parse_proxy_string(descriptor.as_str()) {
                Ok(t) => t,
                Err(e) => {
                    return Err(e);
                },
            };
            let rec = ProxyRecord {
                proxy_user: u.clone(),
                target_user: tu.clone(),
                target_host: h.clone(),
                port: 22,
            };
            reg.insert(rec);
            let text = reg.to_text();
            let ikp = reg.identity_key_path().clone();
            let user_again = u.clone();
            let mut steps: Vec<PlannedStep> = Vec::new();
            steps.push(
                PlannedStep {
                    action: Action::CreateAccount { username: u },
                    on_failure: FailurePolicy::Abort,
                },
            );
            steps.push(
                PlannedStep {
                    action: Action::ApplyRouting {
                        proxy_user: user_again,
                        target_user: tu,
                        target_host: h,
                        identity_key_path: ikp,
                    },
                    on_failure: FailurePolicy::Abort,
                },
            );
            steps.push(
                PlannedStep { action: Action::SaveRegistry { text }, on_failure: FailurePolicy::Abort },
            );
            Ok(steps)
        },
        Command::Remove { proxy_user } => {
            if !reg.has_user(proxy_user.as_str()) {
                return Ok(Vec::new());
            }
            reg.remove_user(proxy_user.as_str());
            let text = reg.to_text();
            let mut steps: Vec<PlannedStep> = Vec::new();
            steps.push(
                PlannedStep {
                    action: Action::RemoveAccount { username: proxy_user.clone() },
                    on_failure: FailurePolicy::Report,
                },
            );
            steps.push(
                PlannedStep {
                    action: Action::RetractRouting { proxy_user: proxy_user.clone() },
                    on_failure: FailurePolicy::Report,
                },
            );
            steps.push(
                PlannedStep { action: Action::SaveRegistry { text }, on_failure: FailurePolicy::Abort },
            );
            Ok(steps)
        },
        Command::List => Ok(Vec::new()),
        Command::Install => {
            let mut steps: Vec<PlannedStep> = Vec::new();
            let n = reg.entry_count();
            let mut i: usize = 0;
            while i < n
                invariant
                    i <= n,
                    n == reg@.entries.len(),
                    reg@ == old(reg)@,
                    registry_wf(reg@),
                    steps@.len() == 2 * i,
                    forall|k: int| 0 <= k < i ==> #[trigger] install_pair_ok(steps@, reg@, k),
                decreases n - i,
            {
                let rec = reg.entry_at(i).clone_record();
                let ikp = reg.identity_key_path().clone();
                let user_again = rec.proxy_user.clone();
                let ghost prev = steps@;
                steps.push(
                    PlannedStep {
                        action: Action::CreateAccount { username: user_again },
                        on_failure: FailurePolicy::Abort,
                    },
                );
                steps.push(
                    PlannedStep {
                        action: Action::ApplyRouting {
                            proxy_user: rec.proxy_user,
                            target_user: rec.target_user,
                            target_host: rec.target_host,
                            identity_key_path: ikp,
                        },
                        on_failure: FailurePolicy::Abort,
                    },
                );
                proof {
                    assert(forall|j: int| 0 <= j < prev.len() ==> steps@[j] == prev[j]);
                    assert(install_pair_ok(steps@, reg@, i as int));
                    assert forall|k: int| 0 <= k < i + 1 implies #[trigger] install_pair_ok(
                        steps@,
                        reg@,
                        k,
                    ) by {
                        if k < i {
                            assert(install_pair_ok(prev, reg@, k));
                            assert(steps@[2 * k] == prev[2 * k]);
                            assert(steps@[2 * k + 1] == prev[2 * k + 1]);
                        }
                    }
                }
                i += 1;
            }
            Ok(steps)
        },
    }
}

/// Exit-status classification at the account-provisioning boundary.  The
/// account-creation command reports "name already in use" with status 9;
/// an Add or Install finding the account already present succeeds as a
/// no-op, which is what makes both safely re-runnable.
pub fn account_create_ok(exit_status: i32) -> (b: bool)
    ensures
        b == (exit_status == 0 || exit_status == 9),
{
    exit_status == 0 || exit_status == 9
}

/// The set of OS accounts after provisioning every user in the list.
pub open spec fn accounts_after(accs: Set<Seq<char>>, users: Seq<Seq<char>>) -> Set<Seq<char>>
    decreases users.len(),
{
    if users.len() == 0 {
        accs
    } else {
        accounts_after(accs.insert(users[0]), users.skip(1))
    }
}

/// Provisioning adds exactly the listed users to the account set.
pub proof fn lemma_accounts_after_union(accs: Set<Seq<char>>, users: Seq<Seq<char>>)
    ensures
        accounts_after(accs, users) == accs.union(users.to_set()),
    decreases users.len(),
{
    if users.len() == 0 {
        assert(accs.union(users.to_set()) =~= accs);
    } else {
        lemma_accounts_after_union(accs.insert(users[0]), users.skip(1));
        assert(accs.insert(users[0]).union(users.skip(1).to_set()) =~= accs.union(
            users.to_set(),
        )) by {
            assert forall|x: Seq<char>| users.to_set().contains(x) implies users[0] == x
                || users.skip(1).to_set().contains(x) by {
                let k = choose|k: int| 0 <= k < users.len() && users[k] == x;
                if k > 0 {
                    assert(users.skip(1)[k - 1] == x);
                }
            }
            assert forall|x: Seq<char>| users.skip(1).to_set().contains(x) implies
                users.to_set().contains(x) by {
                let k = choose|k: int| 0 <= k < users.skip(1).len() && users.skip(1)[k] == x;
                assert(users[k + 1] == x);
            }
            assert(users.to_set().contains(users[0]));
        }
    }
}

/// Re-running Install changes no account: provisioning the same users a
/// second time yields the same account set.
pub proof fn lemma_provision_idempotent(accs: Set<Seq<char>>, users: Seq<Seq<char>>)
    ensures
        accounts_after(accounts_after(accs, users), users) == accounts_after(accs, users),
{
    lemma_accounts_after_union(accs, users);
    lemma_accounts_after_union(accs.union(users.to_set()), users);
    assert(accs.union(users.to_set()).union(users.to_set()) =~= accs.union(users.to_set()));
}

} // verus!
