//! Final balance snapshots: each balance rounded once, to four fractional
//! digits, with the total taken before rounding.

use crate::amount::Amount;
use crate::ledger::{replay_account, Account, LedgerError, Transaction};
use crate::process::{events_of, first_failure, has_client, is_report, lemma_events_of_wf, process};
use crate::rounding::{round_dp, rounded};
use vstd::prelude::*;

verus! {

/// The number of fractional digits in a snapshot.
pub const SNAPSHOT_DIGITS: u32 = 4;

/// What is reported of one client.
#[derive(Clone, Copy, Debug, PartialEq, Eq, Structural)]
pub struct Snapshot {
    pub client: u16,
    pub available: Amount,
    pub held: Amount,
    pub total: Amount,
    pub locked: bool,
}

/// The snapshot of `a`, or `None` when its total is out of range.
pub open spec fn snapshot_of(a: Account) -> Option<Snapshot> {
    match a.available.spec_add(a.held) {
        None => None,
        Some(t) => Some(
            Snapshot {
                client: a.client,
                available: rounded(a.available, SNAPSHOT_DIGITS),
                held: rounded(a.held, SNAPSHOT_DIGITS),
                total: rounded(t, SNAPSHOT_DIGITS),
                locked: a.locked,
            },
        ),
    }
}

impl Account {
    /// The rounded snapshot of this account, or `None` when its total is out
    /// of range.
    pub fn to_snapshot(&self) -> (r: Option<Snapshot>)
        requires
            self.wf(),
        ensures
            r == snapshot_of(*self),
    {
        let total = match self.total() {
            Some(t) => t,
            None => {
                return None;
            },
        };
        Some(
            Snapshot {
                client: self.client,
                available: round_dp(self.available, SNAPSHOT_DIGITS),
                held: round_dp(self.held, SNAPSHOT_DIGITS),
                total: round_dp(total, SNAPSHOT_DIGITS),
                locked: self.locked,
            },
        )
    }
}

/// `snapshots` is the report of `s`: one snapshot per client of `s`, in
/// strictly ascending client order, each taken of that client's replayed
/// account.
pub open spec fn is_snapshot_report(s: Seq<Transaction>, snapshots: Seq<Snapshot>) -> bool {
    &&& forall|i: int, j: int|
        0 <= i < j < snapshots.len() ==> (#[trigger] snapshots[i]).client < (#[trigger] snapshots[j]).client
    &&& forall|c: u16|
        #![trigger has_client(s, c)]
        has_client(s, c) <==> exists|i: int| 0 <= i < snapshots.len() && (#[trigger] snapshots[i]).client == c
    &&& forall|i: int|
        0 <= i < snapshots.len() ==> (match replay_account(
            (#[trigger] snapshots[i]).client,
            events_of(s, snapshots[i].client),
        ) {
            Ok(a) => snapshot_of(a) == Some(snapshots[i]),
            Err(_) => false,
        })
}

/// Whether the replay of client `c` in `s` fails, or ends with an account
/// whose total is out of range.
pub open spec fn client_fails(s: Seq<Transaction>, c: u16) -> bool {
    match replay_account(c, events_of(s, c)) {
        Ok(a) => has_client(s, c) && snapshot_of(a) is None,
        Err(_) => true,
    }
}

/// Replays all transactions and returns one rounded snapshot per client, in
/// ascending client order.
pub fn report(transactions: &Vec<Transaction>) -> (r: Result<Vec<Snapshot>, LedgerError>)
    requires
        forall|i: int| 0 <= i < transactions@.len() ==> (#[trigger] transactions@[i]).wf(),
    ensures
        r is Ok <==> forall|c: u16| !#[trigger] client_fails(transactions@, c),
        r matches Err(e) ==> (exists|k: int|
            0 <= k < transactions@.len() && #[trigger] first_failure(transactions@, k, e)) || ((
        forall|c: u16| #[trigger] replay_account(c, events_of(transactions@, c)) is Ok)
            && exists|c: u16| #[trigger]
            client_fails(transactions@, c) && e == (LedgerError::TotalOverflow { client: c })),
        r matches Ok(snapshots) ==> is_snapshot_report(transactions@, snapshots@),
{
    let ghost s = transactions@;
    let accounts = match process(transactions) {
        Ok(a) => a,
        Err(e) => {
            proof {
                let c = choose|c: u16| #[trigger]
                    replay_account(c, events_of(s, c)) == Err::<Account, LedgerError>(e);
                assert(client_fails(s, c));
            }
            return Err(e);
        },
    };
    proof {
        assert forall|i: int| 0 <= i < accounts@.len() implies (#[trigger] accounts@[i]).wf() by {
            lemma_events_of_wf(s, accounts@[i].client);
            crate::ledger::lemma_replay_wf(
                crate::ledger::initial(accounts@[i].client),
                events_of(s, accounts@[i].client),
            );
        }
    }
    let mut snapshots: Vec<Snapshot> = Vec::new();
    let mut i: usize = 0;
    while i < accounts.len()
        invariant
            i <= accounts@.len(),
            s == transactions@,
            forall|c: u16| #[trigger] replay_account(c, events_of(s, c)) is Ok,
            is_report(s, accounts@),
            forall|j: int| 0 <= j < accounts@.len() ==> (#[trigger] accounts@[j]).wf(),
            snapshots@.len() == i,
            forall|j: int| 0 <= j < i ==> snapshot_of(accounts@[j]) == Some(#[trigger] snapshots@[j]),
        decreases accounts@.len() - i,
    {
        match accounts[i].to_snapshot() {
            Some(snap) => snapshots.push(snap),
            None => {
                proof {
                    let c = accounts@[i as int].client;
                    assert(accounts@[i as int].client == c);
                    assert(has_client(s, c));
                    assert(replay_account(c, events_of(s, c)) == Ok::<Account, LedgerError>(
                        accounts@[i as int],
                    ));
                    assert(client_fails(s, c));
                }
                return Err(LedgerError::TotalOverflow { client: accounts[i].client });
            },
        }
        i = i + 1;
    }
    proof {
        assert forall|c: u16| !#[trigger] client_fails(s, c) by {
            if has_client(s, c) {
                let i = choose|i: int| 0 <= i < accounts@.len() && (#[trigger] accounts@[i]).client == c;
                assert(snapshot_of(accounts@[i]) == Some(snapshots@[i]));
            }
        }
        assert forall|c: u16|
            #![trigger has_client(s, c)]
            has_client(s, c) <==> exists|i: int| 0 <= i < snapshots@.len() && (#[trigger] snapshots@[i]).client == c by {
            if has_client(s, c) {
                let i = choose|i: int| 0 <= i < accounts@.len() && (#[trigger] accounts@[i]).client == c;
                assert(snapshots@[i].client == c);
            }
            if exists|i: int| 0 <= i < snapshots@.len() && (#[trigger] snapshots@[i]).client == c {
                let i = choose|i: int| 0 <= i < snapshots@.len() && (#[trigger] snapshots@[i]).client == c;
                assert(accounts@[i].client == c);
            }
        }
        assert forall|i: int, j: int|
            0 <= i < j < snapshots@.len() implies (#[trigger] snapshots@[i]).client < (#[trigger] snapshots@[j]).client by {
            assert(accounts@[i].client < accounts@[j].client);
        }
        assert forall|i: int| 0 <= i < snapshots@.len() implies (match replay_account(
            (#[trigger] snapshots@[i]).client,
            events_of(s, snapshots@[i].client),
        ) {
            Ok(a) => snapshot_of(a) == Some(snapshots@[i]),
            Err(_) => false,
        }) by {
            assert(snapshot_of(accounts@[i]) == Some(snapshots@[i]));
        }
    }
    Ok(snapshots)
}

} // verus!
