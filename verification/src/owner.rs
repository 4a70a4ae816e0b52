//! The owner registry: the dense, non-zero indices under which accounts
//! appear in pixel records.

use crate::region::{is_owner_id, OWNER_ID_LIMIT};
use crate::store::{pipeline_view, Command, CommandView, Store};
use crate::valkey::{owner_field, owner_name, ACCOUNT_TO_ID, ID_TO_ACCOUNT};
use vstd::prelude::*;
use vstd::string::*;

verus! {

/// How the owner index of an account was found.
#[derive(Debug, PartialEq, Eq)]
pub enum OwnerResolution {
    /// The registry already held the account.
    Known { owner_id: u32 },
    /// The account is new: its index, and the writes that record it.
    Assigned { owner_id: u32, commands: Vec<Command> },
    /// The account is new and no index below 2^24 is left for it.
    Exhausted,
}

/// The writes that record a new account under an index, in both
/// directions.
pub open spec fn assignment_pipeline(account: Seq<char>, owner_id: u32) -> Seq<CommandView> {
    seq![
        CommandView::HSet { key: ACCOUNT_TO_ID@, field: account, value: owner_name(owner_id) },
        CommandView::HSet { key: ID_TO_ACCOUNT@, field: owner_name(owner_id), value: account },
    ]
}

/// Resolve an account to its owner index. `existing` is what the registry
/// holds for the account; `registry_len` is the number of accounts in the
/// registry and is consulted only for a new account, which gets the next
/// index: indices start at 1, since 0 marks an undrawn pixel, and are never
/// reused.
pub fn resolve_owner_id(account_id: &str, existing: Option<u32>, registry_len: u32) -> (r:
    OwnerResolution)
    ensures
        match existing {
            Some(id) => r == (OwnerResolution::Known { owner_id: id }),
            None => if registry_len + 1 < OWNER_ID_LIMIT {
                &&& r matches OwnerResolution::Assigned { owner_id, commands }
                &&& owner_id == registry_len + 1
                &&& is_owner_id(owner_id)
                &&& pipeline_view(commands@) == assignment_pipeline(account_id@, owner_id)
            } else {
                r == OwnerResolution::Exhausted
            },
        },
{
    match existing {
        Some(id) => OwnerResolution::Known { owner_id: id },
        None => {
            if registry_len >= OWNER_ID_LIMIT - 1 {
                return OwnerResolution::Exhausted;
            }
            let owner_id = registry_len + 1;
            let mut commands: Vec<Command> = Vec::new();
            commands.push(
                Command::HSet {
                    key: String::from_str(ACCOUNT_TO_ID),
                    field: String::from_str(account_id),
                    value: owner_field(owner_id),
                },
            );
            commands.push(
                Command::HSet {
                    key: String::from_str(ID_TO_ACCOUNT),
                    field: owner_field(owner_id),
                    value: String::from_str(account_id),
                },
            );
            proof {
                assert(pipeline_view(commands@) =~= assignment_pipeline(account_id@, owner_id));
            }
            OwnerResolution::Assigned { owner_id, commands }
        },
    }
}

/// Whether a registry is dense: it holds finitely many accounts, each under
/// the name of an index between 1 and the number of accounts, and no two
/// accounts under the same name.
pub open spec fn is_dense(registry: Map<Seq<char>, Seq<char>>) -> bool {
    &&& registry.dom().finite()
    &&& forall|account: Seq<char>| #[trigger]
        registry.contains_key(account) ==> exists|id: u32|
            1 <= id <= registry.dom().len() && registry[account] == #[trigger] owner_name(id)
    &&& forall|a: Seq<char>, b: Seq<char>|
        registry.contains_key(a) && registry.contains_key(b) && a != b ==> #[trigger] registry[a]
            != #[trigger] registry[b]
}

/// Assigning the next index to a new account keeps the registry dense: the
/// new index is not zero and collides with none that was assigned before.
pub proof fn lemma_assignment_keeps_dense(registry: Map<Seq<char>, Seq<char>>, account: Seq<char>)
    requires
        is_dense(registry),
        !registry.contains_key(account),
        registry.dom().len() + 1 < OWNER_ID_LIMIT,
    ensures
        is_dense(registry.insert(account, owner_name((registry.dom().len() + 1) as u32))),
        forall|other: Seq<char>| #[trigger]
            registry.contains_key(other) ==> registry[other] != owner_name(
                (registry.dom().len() + 1) as u32,
            ),
        is_owner_id((registry.dom().len() + 1) as u32),
{
    let n = registry.dom().len();
    let id = (n + 1) as u32;
    let after = registry.insert(account, owner_name(id));
    assert(after.dom() =~= registry.dom().insert(account));
    assert(after.dom().len() == n + 1);
    assert forall|other: Seq<char>| #[trigger] registry.contains_key(other) implies registry[other]
        != owner_name(id) by {
        let k = choose|k: u32| 1 <= k <= n && registry[other] == #[trigger] owner_name(k);
        if owner_name(k) == owner_name(id) {
            crate::valkey::lemma_owner_name_injective(k, id);
        }
    }
    assert forall|a: Seq<char>| #[trigger] after.contains_key(a) implies exists|k: u32|
        1 <= k <= after.dom().len() && after[a] == #[trigger] owner_name(k) by {
        if a == account {
            assert(after[a] == owner_name(id));
        } else {
            assert(registry.contains_key(a));
            let k = choose|k: u32| 1 <= k <= n && registry[a] == #[trigger] owner_name(k);
            assert(after[a] == owner_name(k));
        }
    }
    assert forall|a: Seq<char>, b: Seq<char>|
        after.contains_key(a) && after.contains_key(b) && a != b implies #[trigger] after[a]
        != #[trigger] after[b] by {
        if a == account {
            assert(registry.contains_key(b));
        } else if b == account {
            assert(registry.contains_key(a));
        } else {
            assert(registry.contains_key(a) && registry.contains_key(b));
            assert(registry[a] != registry[b]);
        }
    }
}

/// The registry that the store holds, from account to index name.
pub open spec fn registry_of(s: Store) -> Map<Seq<char>, Seq<char>> {
    s.hash(ACCOUNT_TO_ID@)
}

/// The writes of an assignment record the account under its index name.
pub proof fn lemma_assignment_recorded(s: Store, account: Seq<char>, owner_id: u32)
    ensures
        registry_of(s.run(assignment_pipeline(account, owner_id))) == registry_of(s).insert(
            account,
            owner_name(owner_id),
        ),
{
    reveal_strlit("account_to_id");
    reveal_strlit("id_to_account");
    assert(ACCOUNT_TO_ID@[0] == 'a');
    assert(ID_TO_ACCOUNT@[0] == 'i');
    let first = CommandView::HSet {
        key: ACCOUNT_TO_ID@,
        field: account,
        value: owner_name(owner_id),
    };
    let second = CommandView::HSet {
        key: ID_TO_ACCOUNT@,
        field: owner_name(owner_id),
        value: account,
    };
    assert(assignment_pipeline(account, owner_id) =~= seq![first] + seq![second]);
    crate::store::lemma_run_concat(s, seq![first], seq![second]);
    crate::store::lemma_run_one(s, first);
    crate::store::lemma_run_one(s.apply(first), second);
}

/// The writes of an assignment touch the two registry hashes and nothing
/// else: no blob, no timestamp, no statistic, no set and no queue changes.
pub proof fn lemma_assignment_touches_registry_only(s: Store, account: Seq<char>, owner_id: u32)
    ensures
        s.run(assignment_pipeline(account, owner_id)).blobs == s.blobs,
        s.run(assignment_pipeline(account, owner_id)).texts == s.texts,
        s.run(assignment_pipeline(account, owner_id)).sorted == s.sorted,
        s.run(assignment_pipeline(account, owner_id)).counters == s.counters,
        s.run(assignment_pipeline(account, owner_id)).sets == s.sets,
        s.run(assignment_pipeline(account, owner_id)).lists == s.lists,
        forall|key: Seq<char>|
            key != ACCOUNT_TO_ID@ && key != ID_TO_ACCOUNT@ ==> #[trigger] s.run(
                assignment_pipeline(account, owner_id),
            ).hash(key) == s.hash(key),
{
    let first = CommandView::HSet {
        key: ACCOUNT_TO_ID@,
        field: account,
        value: owner_name(owner_id),
    };
    let second = CommandView::HSet {
        key: ID_TO_ACCOUNT@,
        field: owner_name(owner_id),
        value: account,
    };
    assert(assignment_pipeline(account, owner_id) =~= seq![first] + seq![second]);
    crate::store::lemma_run_concat(s, seq![first], seq![second]);
    crate::store::lemma_run_one(s, first);
    crate::store::lemma_run_one(s.apply(first), second);
}

} // verus!
