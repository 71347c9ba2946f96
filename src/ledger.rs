//! The per-client account state machine: deposits, withdrawals and the
//! dispute lifecycle (dispute, then resolve or chargeback).

use crate::amount::Amount;
use std::collections::HashMap;
use vstd::prelude::*;

verus! {

broadcast use vstd::std_specs::hash::group_hash_axioms;

#[derive(Clone, Copy, Debug, PartialEq, Eq, Structural)]
pub enum TransactionKind {
    Deposit,
    Withdrawal,
    Dispute,
    Resolve,
    Chargeback,
}

/// One ledger event. `amount` is carried by deposits and withdrawals; the
/// dispute family refers to an earlier deposit by its `tx`.
#[derive(Clone, Copy, Debug, PartialEq, Eq, Structural)]
pub struct Transaction {
    pub kind: TransactionKind,
    pub client: u16,
    pub tx: u32,
    pub amount: Option<Amount>,
}

impl Transaction {
    pub open spec fn wf(self) -> bool {
        self.amount matches Some(a) ==> a.wf()
    }
}

/// The balances of one client.
#[derive(Clone, Copy, Debug, PartialEq, Eq, Structural)]
pub struct Account {
    pub client: u16,
    pub available: Amount,
    pub held: Amount,
    pub locked: bool,
}

impl Account {
    pub open spec fn wf(self) -> bool {
        self.available.wf() && self.held.wf()
    }

    /// `available + held`, in units of `10^-28`.
    pub open spec fn total_units(self) -> int {
        self.available.units() + self.held.units()
    }

    /// A fresh account: nothing available, nothing held, not locked.
    pub fn new(client: u16) -> (r: Account)
        ensures
            r == initial(client).account,
            r.wf(),
    {
        Account { client, available: Amount::zero(), held: Amount::zero(), locked: false }
    }

    /// `available + held`, or `None` when it is out of range.
    pub fn total(&self) -> (r: Option<Amount>)
        requires
            self.wf(),
        ensures
            r == self.available.spec_add(self.held),
            r matches Some(t) ==> t.wf() && t.units() == self.total_units(),
    {
        self.available.checked_add(self.held)
    }
}

/// Why a replay stopped. Both abort the whole run.
#[derive(Clone, Copy, Debug, PartialEq, Eq, Structural)]
pub enum LedgerError {
    /// A deposit or withdrawal without an amount.
    MissingAmount { tx: u32 },
    /// A balance would leave the range of an amount.
    Overflow { tx: u32 },
    /// An account's total, `available + held`, is out of the range of an amount.
    TotalOverflow { client: u16 },
}

/// The mathematical state of a ledger: the account, the amounts of the
/// deposits seen so far by transaction id, and the open disputes with the
/// amounts they hold.
pub struct LedgerModel {
    pub account: Account,
    pub deposits: Map<u32, Amount>,
    pub disputes: Map<u32, Amount>,
}

impl LedgerModel {
    pub open spec fn wf(self) -> bool {
        &&& self.account.wf()
        &&& forall|k: u32| #[trigger] self.deposits.contains_key(k) ==> self.deposits[k].wf()
        &&& forall|k: u32| #[trigger]
            self.disputes.contains_key(k) ==> self.disputes[k].wf() && self.deposits.contains_key(
                k,
            )
    }
}

pub open spec fn initial(client: u16) -> LedgerModel {
    LedgerModel {
        account: Account {
            client,
            available: Amount { mantissa: 0, scale: 0 },
            held: Amount { mantissa: 0, scale: 0 },
            locked: false,
        },
        deposits: Map::empty(),
        disputes: Map::empty(),
    }
}

pub open spec fn with_balances(
    m: LedgerModel,
    available: Amount,
    held: Amount,
    locked: bool,
    disputes: Map<u32, Amount>,
) -> LedgerModel {
    LedgerModel {
        account: Account { client: m.account.client, available, held, locked },
        deposits: m.deposits,
        disputes,
    }
}

/// One transition of the ledger. Policy-ignored events give back the state
/// unchanged; a missing amount or an out-of-range balance is an error.
pub open spec fn step(m: LedgerModel, t: Transaction) -> Result<LedgerModel, LedgerError> {
    let acc = m.account;
    match t.kind {
        TransactionKind::Deposit => match t.amount {
            None => Err(LedgerError::MissingAmount { tx: t.tx }),
            Some(a) => match acc.available.spec_add(a) {
                None => Err(LedgerError::Overflow { tx: t.tx }),
                Some(v) => Ok(
                    LedgerModel {
                        account: Account { available: v, ..acc },
                        deposits: m.deposits.insert(t.tx, a),
                        disputes: m.disputes,
                    },
                ),
            },
        },
        TransactionKind::Withdrawal => match t.amount {
            None => Err(LedgerError::MissingAmount { tx: t.tx }),
            Some(a) => if acc.available.units() >= a.units() {
                match acc.available.spec_sub(a) {
                    None => Err(LedgerError::Overflow { tx: t.tx }),
                    Some(v) => Ok(with_balances(m, v, acc.held, acc.locked, m.disputes)),
                }
            } else {
                Ok(m)
            },
        },
        TransactionKind::Dispute => if m.deposits.contains_key(t.tx) && !m.disputes.contains_key(
            t.tx,
        ) {
            let a = m.deposits[t.tx];
            match (acc.available.spec_sub(a), acc.held.spec_add(a)) {
                (Some(v), Some(h)) => Ok(
                    with_balances(m, v, h, acc.locked, m.disputes.insert(t.tx, a)),
                ),
                _ => Err(LedgerError::Overflow { tx: t.tx }),
            }
        } else {
            Ok(m)
        },
        TransactionKind::Resolve => if m.disputes.contains_key(t.tx) {
            let a = m.disputes[t.tx];
            match (acc.available.spec_add(a), acc.held.spec_sub(a)) {
                (Some(v), Some(h)) => Ok(with_balances(m, v, h, acc.locked, m.disputes.remove(t.tx))),
                _ => Err(LedgerError::Overflow { tx: t.tx }),
            }
        } else {
            Ok(m)
        },
        TransactionKind::Chargeback => if m.disputes.contains_key(t.tx) {
            let a = m.disputes[t.tx];
            match acc.held.spec_sub(a) {
                Some(h) => Ok(with_balances(m, acc.available, h, true, m.disputes.remove(t.tx))),
                None => Err(LedgerError::Overflow { tx: t.tx }),
            }
        } else {
            Ok(m)
        },
    }
}

/// Applies `s` in order from `m`, stopping at the first error.
pub open spec fn replay_from(m: LedgerModel, s: Seq<Transaction>) -> Result<LedgerModel, LedgerError>
    decreases s.len(),
{
    if s.len() == 0 {
        Ok(m)
    } else {
        match replay_from(m, s.drop_last()) {
            Ok(p) => step(p, s.last()),
            Err(e) => Err(e),
        }
    }
}

/// The account that replaying `s` for `client` ends with.
pub open spec fn replay_account(client: u16, s: Seq<Transaction>) -> Result<Account, LedgerError> {
    match replay_from(initial(client), s) {
        Ok(m) => Ok(m.account),
        Err(e) => Err(e),
    }
}

pub proof fn lemma_step_wf(m: LedgerModel, t: Transaction)
    requires
        m.wf(),
        t.wf(),
    ensures
        step(m, t) matches Ok(n) ==> n.wf() && n.account.client == m.account.client,
{
    crate::amount::lemma_add_exact(m.account.available, m.account.available);
    if let Some(a) = t.amount {
        crate::amount::lemma_add_exact(m.account.available, a);
    }
    if m.deposits.contains_key(t.tx) {
        let a = m.deposits[t.tx];
        crate::amount::lemma_add_exact(m.account.available, a);
        crate::amount::lemma_add_exact(m.account.held, a);
    }
    if m.disputes.contains_key(t.tx) {
        let a = m.disputes[t.tx];
        crate::amount::lemma_add_exact(m.account.available, a);
        crate::amount::lemma_add_exact(m.account.held, a);
    }
}

pub proof fn lemma_replay_wf(m: LedgerModel, s: Seq<Transaction>)
    requires
        m.wf(),
        forall|i: int| 0 <= i < s.len() ==> (#[trigger] s[i]).wf(),
    ensures
        replay_from(m, s) matches Ok(n) ==> n.wf() && n.account.client == m.account.client,
    decreases s.len(),
{
    if s.len() > 0 {
        lemma_replay_wf(m, s.drop_last());
        if let Ok(p) = replay_from(m, s.drop_last()) {
            lemma_step_wf(p, s.last());
        }
    }
}

/// A ledger for one client: its account and the indexes of deposits and open
/// disputes by transaction id.
pub struct Ledger {
    pub account: Account,
    pub deposits: HashMap<u32, Amount>,
    pub disputes: HashMap<u32, Amount>,
}

impl View for Ledger {
    type V = LedgerModel;

    open spec fn view(&self) -> LedgerModel {
        LedgerModel { account: self.account, deposits: self.deposits@, disputes: self.disputes@ }
    }
}

impl Ledger {
    pub fn new(client: u16) -> (r: Ledger)
        ensures
            r@ == initial(client),
            r@.wf(),
    {
        let r = Ledger {
            account: Account::new(client),
            deposits: HashMap::new(),
            disputes: HashMap::new(),
        };
        assert(r@.deposits =~= Map::empty());
        assert(r@.disputes =~= Map::empty());
        r
    }

    /// Applies one transaction. On an error the ledger is left as it was.
    pub fn apply(&mut self, t: &Transaction) -> (r: Result<(), LedgerError>)
        requires
            old(self)@.wf(),
            t.wf(),
        ensures
            final(self)@.wf(),
            match step(old(self)@, *t) {
                Ok(m) => r is Ok && final(self)@ == m,
                Err(e) => r == Err::<(), LedgerError>(e) && final(self)@ == old(self)@,
            },
    {
        proof {
            lemma_step_wf(self@, *t);
        }
        match t.kind {
            TransactionKind::Deposit => {
                let a = match t.amount {
                    Some(a) => a,
                    None => {
                        return Err(LedgerError::MissingAmount { tx: t.tx });
                    },
                };
                let v = match self.account.available.checked_add(a) {
                    Some(v) => v,
                    None => {
                        return Err(LedgerError::Overflow { tx: t.tx });
                    },
                };
                self.account.available = v;
                self.deposits.insert(t.tx, a);
                Ok(())
            },
            TransactionKind::Withdrawal => {
                let a = match t.amount {
                    Some(a) => a,
                    None => {
                        return Err(LedgerError::MissingAmount { tx: t.tx });
                    },
                };
                if !self.account.available.is_at_least(a) {
                    return Ok(());
                }
                let v = match self.account.available.checked_sub(a) {
                    Some(v) => v,
                    None => {
                        return Err(LedgerError::Overflow { tx: t.tx });
                    },
                };
                self.account.available = v;
                Ok(())
            },
            TransactionKind::Dispute => {
                if self.disputes.contains_key(&t.tx) {
                    return Ok(());
                }
                let a = match self.deposits.get(&t.tx) {
                    Some(a) => *a,
                    None => {
                        return Ok(());
                    },
                };
                let v = self.account.available.checked_sub(a);
                let h = self.account.held.checked_add(a);
                match (v, h) {
                    (Some(v), Some(h)) => {
                        self.account.available = v;
                        self.account.held = h;
                        self.disputes.insert(t.tx, a);
                        Ok(())
                    },
                    _ => Err(LedgerError::Overflow { tx: t.tx }),
                }
            },
            TransactionKind::Resolve => {
                let a = match self.disputes.get(&t.tx) {
                    Some(a) => *a,
                    None => {
                        return Ok(());
                    },
                };
                let v = self.account.available.checked_add(a);
                let h = self.account.held.checked_sub(a);
                match (v, h) {
                    (Some(v), Some(h)) => {
                        self.account.available = v;
                        self.account.held = h;
                        self.disputes.remove(&t.tx);
                        Ok(())
                    },
                    _ => Err(LedgerError::Overflow { tx: t.tx }),
                }
            },
            TransactionKind::Chargeback => {
                let a = match self.disputes.get(&t.tx) {
                    Some(a) => *a,
                    None => {
                        return Ok(());
                    },
                };
                match self.account.held.checked_sub(a) {
                    Some(h) => {
                        self.account.held = h;
                        self.account.locked = true;
                        self.disputes.remove(&t.tx);
                        Ok(())
                    },
                    None => Err(LedgerError::Overflow { tx: t.tx }),
                }
            },
        }
    }

    pub fn account(&self) -> (r: Account)
        ensures
            r == self@.account,
    {
        self.account
    }
}

/// Replays the transactions of one client in order and returns the final
/// account, or the first error.
pub fn replay(client: u16, transactions: &Vec<Transaction>) -> (r: Result<Account, LedgerError>)
    requires
        forall|i: int| 0 <= i < transactions@.len() ==> (#[trigger] transactions@[i]).wf(),
    ensures
        r == replay_account(client, transactions@),
{
    let mut ledger = Ledger::new(client);
    let n = transactions.len();
    let mut i: usize = 0;
    while i < n
        invariant
            n == transactions@.len(),
            i <= n,
            forall|j: int| 0 <= j < transactions@.len() ==> (#[trigger] transactions@[j]).wf(),
            ledger@.wf(),
            replay_from(initial(client), transactions@.take(i as int)) == Ok::<
                LedgerModel,
                LedgerError,
            >(ledger@),
        decreases n - i,
    {
        assert(transactions@.take(i + 1).drop_last() =~= transactions@.take(i as int));
        match ledger.apply(&transactions[i]) {
            Ok(()) => {},
            Err(e) => {
                proof {
                    lemma_replay_err_persists(initial(client), transactions@, i as int + 1);
                }
                return Err(e);
            },
        }
        i = i + 1;
    }
    assert(transactions@.take(n as int) =~= transactions@);
    Ok(ledger.account())
}

/// Once a prefix of `s` fails, so does every longer prefix, with the same
/// error.
pub proof fn lemma_replay_err_persists(m: LedgerModel, s: Seq<Transaction>, k: int)
    requires
        0 <= k <= s.len(),
        replay_from(m, s.take(k)) is Err,
    ensures
        replay_from(m, s) == replay_from(m, s.take(k)),
    decreases s.len() - k,
{
    if k < s.len() {
        assert(s.take(k + 1).drop_last() =~= s.take(k));
        lemma_replay_err_persists(m, s, k + 1);
    } else {
        assert(s.take(k) =~= s);
    }
}

/// The amount that `t` moves in or out of the account's total when applied
/// in state `m`: a deposit's amount, a covered withdrawal's amount, or the
/// amount an open dispute held before its chargeback; zero otherwise.
pub open spec fn applied_amount(m: LedgerModel, t: Transaction) -> int {
    match t.kind {
        TransactionKind::Deposit => match t.amount {
            Some(a) => a.units(),
            None => 0,
        },
        TransactionKind::Withdrawal => match t.amount {
            Some(a) => if m.account.available.units() >= a.units() {
                a.units()
            } else {
                0
            },
            None => 0,
        },
        TransactionKind::Chargeback => if m.disputes.contains_key(t.tx) {
            m.disputes[t.tx].units()
        } else {
            0
        },
        _ => 0,
    }
}

/// The sum of `applied_amount` over the transactions of kind `kind` in `s`,
/// each taken in the state that replaying the ones before it gives.
pub open spec fn applied_total(m: LedgerModel, s: Seq<Transaction>, kind: TransactionKind) -> int
    decreases s.len(),
{
    if s.len() == 0 {
        0
    } else {
        let prev = applied_total(m, s.drop_last(), kind);
        match replay_from(m, s.drop_last()) {
            Ok(p) => if s.last().kind == kind {
                prev + applied_amount(p, s.last())
            } else {
                prev
            },
            Err(_) => prev,
        }
    }
}

/// Deposits, less withdrawals, less chargebacks, all as applied.
pub open spec fn net_applied(m: LedgerModel, s: Seq<Transaction>) -> int {
    applied_total(m, s, TransactionKind::Deposit) - applied_total(m, s, TransactionKind::Withdrawal)
        - applied_total(m, s, TransactionKind::Chargeback)
}

proof fn lemma_step_moves_total(m: LedgerModel, t: Transaction)
    requires
        m.wf(),
        t.wf(),
    ensures
        step(m, t) matches Ok(n) ==> n.account.total_units() == m.account.total_units() + (if t.kind
            == TransactionKind::Deposit {
            applied_amount(m, t)
        } else {
            -applied_amount(m, t)
        }),
{
    if let Some(a) = t.amount {
        lemma_moves_exact(m.account, a);
    }
    if m.deposits.contains_key(t.tx) {
        lemma_moves_exact(m.account, m.deposits[t.tx]);
    }
    if m.disputes.contains_key(t.tx) {
        lemma_moves_exact(m.account, m.disputes[t.tx]);
    }
}

proof fn lemma_moves_exact(acc: Account, a: Amount)
    requires
        acc.wf(),
        a.wf(),
    ensures
        acc.available.spec_add(a) matches Some(r) ==> r.wf() && r.units()
            == acc.available.units() + a.units(),
        acc.available.spec_sub(a) matches Some(r) ==> r.wf() && r.units()
            == acc.available.units() - a.units(),
        acc.held.spec_add(a) matches Some(r) ==> r.wf() && r.units() == acc.held.units()
            + a.units(),
        acc.held.spec_sub(a) matches Some(r) ==> r.wf() && r.units() == acc.held.units()
            - a.units(),
{
    crate::amount::lemma_add_exact(acc.available, a);
    crate::amount::lemma_sub_exact(acc.available, a);
    crate::amount::lemma_add_exact(acc.held, a);
    crate::amount::lemma_sub_exact(acc.held, a);
}

/// Conservation of funds: after a replay, the account's total is its total
/// before, plus the deposits, less the withdrawals and less the chargebacks
/// that were applied.
pub proof fn total_is_net_of_applied(m: LedgerModel, s: Seq<Transaction>)
    requires
        m.wf(),
        forall|i: int| 0 <= i < s.len() ==> (#[trigger] s[i]).wf(),
    ensures
        replay_from(m, s) matches Ok(n) ==> n.account.total_units() == m.account.total_units()
            + net_applied(m, s),
    decreases s.len(),
{
    if s.len() > 0 {
        let q = s.drop_last();
        total_is_net_of_applied(m, q);
        lemma_replay_wf(m, q);
        if let Ok(p) = replay_from(m, q) {
            lemma_step_moves_total(p, s.last());
        }
    }
}

/// A withdrawal takes its amount from `available` only when `available`
/// covers it, and otherwise changes nothing; so it never takes `available`
/// below zero.
pub proof fn withdrawal_never_overdraws(m: LedgerModel, t: Transaction)
    requires
        m.wf(),
        t.wf(),
        t.kind == TransactionKind::Withdrawal,
        t.amount is Some,
    ensures
        step(m, t) matches Ok(n) ==> {
            let a = t.amount->Some_0;
            &&& m.account.available.units() >= a.units() ==> n.account.available.units()
                == m.account.available.units() - a.units() && n.account.held == m.account.held
            &&& m.account.available.units() < a.units() ==> n == m
            &&& n.account.available.units() < m.account.available.units()
                ==> n.account.available.units() >= 0
        },
{
    lemma_moves_exact(m.account, t.amount->Some_0);
}

/// A dispute, resolve or chargeback that names a transaction id with no
/// deposit behind it leaves the ledger exactly as it was.
pub proof fn unknown_reference_changes_nothing(m: LedgerModel, t: Transaction)
    requires
        m.wf(),
        t.kind == TransactionKind::Dispute || t.kind == TransactionKind::Resolve || t.kind
            == TransactionKind::Chargeback,
        !m.deposits.contains_key(t.tx),
    ensures
        step(m, t) == Ok::<LedgerModel, LedgerError>(m),
{
}

/// A transaction under dispute cannot be disputed again: a dispute applied
/// right after another on the same id changes nothing.
pub proof fn dispute_is_not_doubled(m: LedgerModel, t: Transaction)
    requires
        m.wf(),
        t.kind == TransactionKind::Dispute,
        step(m, t) is Ok,
    ensures
        step(step(m, t)->Ok_0, t) == step(m, t),
{
}

/// Once an account is locked it stays locked for the rest of the replay.
pub proof fn lock_is_permanent(m: LedgerModel, s: Seq<Transaction>)
    requires
        m.account.locked,
    ensures
        replay_from(m, s) matches Ok(n) ==> n.account.locked,
    decreases s.len(),
{
    if s.len() > 0 {
        lock_is_permanent(m, s.drop_last());
    }
}

} // verus!
