//! Processing a whole input: transactions are partitioned by client, each
//! client's subsequence is replayed in arrival order, and the final accounts
//! come out in ascending client order.

use crate::ledger::{
    net_applied, total_is_net_of_applied,
    initial, lemma_step_wf, replay_account, step, replay_from, Account, Ledger, LedgerError, LedgerModel, Transaction,
};
use vstd::prelude::*;

verus! {

/// The transactions of `s` that belong to `client`, in their order in `s`.
pub open spec fn events_of(s: Seq<Transaction>, client: u16) -> Seq<Transaction>
    decreases s.len(),
{
    if s.len() == 0 {
        Seq::empty()
    } else {
        let p = events_of(s.drop_last(), client);
        if s.last().client == client {
            p.push(s.last())
        } else {
            p
        }
    }
}

pub open spec fn has_client(s: Seq<Transaction>, client: u16) -> bool {
    exists|j: int| 0 <= j < s.len() && (#[trigger] s[j]).client == client
}

/// `accounts` is the outcome of `s`: one account per client that occurs in
/// `s`, in strictly ascending client order, each the replay of that client's
/// own transactions.
pub open spec fn is_report(s: Seq<Transaction>, accounts: Seq<Account>) -> bool {
    &&& forall|i: int, j: int|
        0 <= i < j < accounts.len() ==> (#[trigger] accounts[i]).client < (#[trigger] accounts[j]).client
    &&& forall|c: u16|
        #![trigger has_client(s, c)]
        has_client(s, c) <==> exists|i: int| 0 <= i < accounts.len() && (#[trigger] accounts[i]).client == c
    &&& forall|i: int|
        0 <= i < accounts.len() ==> replay_account(
            (#[trigger] accounts[i]).client,
            events_of(s, accounts[i].client),
        ) == Ok::<Account, LedgerError>(accounts[i])
}

proof fn lemma_events_of_push(s: Seq<Transaction>, t: Transaction, c: u16)
    ensures
        events_of(s.push(t), c) == (if t.client == c {
            events_of(s, c).push(t)
        } else {
            events_of(s, c)
        }),
        has_client(s.push(t), c) == (has_client(s, c) || t.client == c),
{
    assert(s.push(t).drop_last() =~= s);
    if has_client(s.push(t), c) && t.client != c {
        let j = choose|j: int| 0 <= j < s.len() + 1 && (#[trigger] s.push(t)[j]).client == c;
        assert(s[j] == s.push(t)[j]);
    }
    if has_client(s, c) {
        let j = choose|j: int| 0 <= j < s.len() && (#[trigger] s[j]).client == c;
        assert(s.push(t)[j] == s[j]);
    }
    assert(s.push(t)[s.len() as int] == t);
}

proof fn lemma_has_client_events(s: Seq<Transaction>, c: u16)
    ensures
        has_client(s, c) <==> events_of(s, c).len() > 0,
    decreases s.len(),
{
    if s.len() > 0 {
        let q = s.drop_last();
        lemma_has_client_events(q, c);
        assert(q.push(s.last()) =~= s);
        lemma_events_of_push(q, s.last(), c);
    }
}

/// Once the replay of a client's transactions in a prefix of `s` fails, the
/// replay of all of that client's transactions fails with the same error.
proof fn lemma_client_err_persists(m: LedgerModel, s: Seq<Transaction>, k: int, c: u16)
    requires
        0 <= k <= s.len(),
        replay_from(m, events_of(s.take(k), c)) is Err,
    ensures
        replay_from(m, events_of(s, c)) == replay_from(m, events_of(s.take(k), c)),
    decreases s.len() - k,
{
    if k < s.len() {
        assert(s.take(k + 1) =~= s.take(k).push(s[k]));
        lemma_events_of_push(s.take(k), s[k], c);
        let p = events_of(s.take(k), c);
        assert(p.push(s[k]).drop_last() =~= p);
        lemma_client_err_persists(m, s, k + 1, c);
    } else {
        assert(s.take(k) =~= s);
    }
}

pub open spec fn models(v: Seq<Ledger>) -> Seq<LedgerModel> {
    v.map_values(|l: Ledger| l@)
}

pub open spec fn holds_client(ms: Seq<LedgerModel>, c: u16) -> bool {
    exists|i: int| 0 <= i < ms.len() && (#[trigger] ms[i]).account.client == c
}

/// `ms` holds, in strictly ascending client order, the state that replaying
/// each client's transactions in `s` gives; a client without a ledger has no
/// transaction in `s`.
pub open spec fn tracks(ms: Seq<LedgerModel>, s: Seq<Transaction>) -> bool {
    &&& forall|i: int, j: int|
        0 <= i < j < ms.len() ==> (#[trigger] ms[i]).account.client < (#[trigger] ms[j]).account.client
    &&& forall|i: int|
        0 <= i < ms.len() ==> (#[trigger] ms[i]).wf() && replay_from(
            initial(ms[i].account.client),
            events_of(s, ms[i].account.client),
        ) == Ok::<LedgerModel, LedgerError>(ms[i])
    &&& forall|c: u16| #[trigger] holds_client(ms, c) || !has_client(s, c)
}

/// Every ledger in `ms`, but perhaps the one at `skip`, belongs to a client
/// that occurs in `s`.
pub open spec fn seen_except(ms: Seq<LedgerModel>, s: Seq<Transaction>, skip: int) -> bool {
    forall|i: int| 0 <= i < ms.len() && i != skip ==> has_client(s, (#[trigger] ms[i]).account.client)
}

proof fn lemma_seen_insert(ms: Seq<LedgerModel>, s: Seq<Transaction>, pos: int, m: LedgerModel)
    requires
        seen_except(ms, s, -1),
        0 <= pos <= ms.len(),
    ensures
        seen_except(ms.insert(pos, m), s, pos),
{
    let ns = ms.insert(pos, m);
    assert forall|i: int| 0 <= i < ns.len() && i != pos implies has_client(s, (#[trigger] ns[i]).account.client) by {
        if i < pos {
            assert(ns[i] == ms[i]);
        } else {
            assert(ns[i] == ms[i - 1]);
        }
    }
}

proof fn lemma_sorted_insert(ms: Seq<LedgerModel>, pos: int, c: u16)
    requires
        forall|i: int, j: int|
            0 <= i < j < ms.len() ==> (#[trigger] ms[i]).account.client < (#[trigger] ms[j]).account.client,
        0 <= pos <= ms.len(),
        forall|i: int| 0 <= i < pos ==> (#[trigger] ms[i]).account.client < c,
        pos < ms.len() ==> ms[pos].account.client > c,
    ensures
        forall|i: int, j: int|
            0 <= i < j < ms.len() + 1 ==> (#[trigger] ms.insert(pos, initial(c))[i]).account.client
                < (#[trigger] ms.insert(pos, initial(c))[j]).account.client,
{
    let ns = ms.insert(pos, initial(c));
    assert forall|i: int, j: int|
        0 <= i < j < ns.len() implies (#[trigger] ns[i]).account.client < (#[trigger] ns[j]).account.client by {
        if i < pos && j > pos {
            assert(ns[j] == ms[j - 1]);
        }
        if i > pos {
            assert(ns[i] == ms[i - 1]);
            assert(ns[j] == ms[j - 1]);
        }
        if i == pos && j > pos {
            assert(ns[j] == ms[j - 1]);
            if j - 1 > pos {
                assert(ms[pos].account.client < ms[j - 1].account.client);
            }
        }
    }
}

proof fn lemma_tracks_insert(ms: Seq<LedgerModel>, s: Seq<Transaction>, pos: int, c: u16)
    requires
        tracks(ms, s),
        0 <= pos <= ms.len(),
        forall|i: int| 0 <= i < pos ==> (#[trigger] ms[i]).account.client < c,
        pos < ms.len() ==> ms[pos].account.client > c,
    ensures
        tracks(ms.insert(pos, initial(c)), s),
        ms.insert(pos, initial(c))[pos] == initial(c),
{
    let ns = ms.insert(pos, initial(c));
    assert(!has_client(s, c)) by {
        if has_client(s, c) {
            assert(holds_client(ms, c));
            let i = choose|i: int| 0 <= i < ms.len() && (#[trigger] ms[i]).account.client == c;
            if i >= pos {
                if i > pos {
                    assert(ms[pos].account.client < ms[i].account.client);
                }
            }
        }
    }
    lemma_has_client_events(s, c);
    assert(events_of(s, c) =~= Seq::<Transaction>::empty());
    lemma_sorted_insert(ms, pos, c);
    assert forall|i: int| 0 <= i < ns.len() implies (#[trigger] ns[i]).wf() && replay_from(
        initial(ns[i].account.client),
        events_of(s, ns[i].account.client),
    ) == Ok::<LedgerModel, LedgerError>(ns[i]) by {
        if i < pos {
            assert(ns[i] == ms[i]);
        } else if i > pos {
            assert(ns[i] == ms[i - 1]);
        } else {
            assert(initial(c).deposits =~= Map::empty());
        }
    }
    assert forall|d: u16| #[trigger] holds_client(ns, d) || !has_client(s, d) by {
        if holds_client(ms, d) {
            let i = choose|i: int| 0 <= i < ms.len() && (#[trigger] ms[i]).account.client == d;
            if i < pos {
                assert(ns[i] == ms[i]);
            } else {
                assert(ns[i + 1] == ms[i]);
            }
        }
    }
}

proof fn lemma_tracks_apply(ms: Seq<LedgerModel>, s: Seq<Transaction>, pos: int, t: Transaction, n: LedgerModel)
    requires
        tracks(ms, s),
        seen_except(ms, s, pos),
        0 <= pos < ms.len(),
        ms[pos].account.client == t.client,
        step(ms[pos], t) == Ok::<LedgerModel, LedgerError>(n),
        n.wf(),
        n.account.client == t.client,
    ensures
        tracks(ms.update(pos, n), s.push(t)),
        seen_except(ms.update(pos, n), s.push(t), -1),
{
    let ns = ms.update(pos, n);
    let c = t.client;
    assert forall|i: int| 0 <= i < ns.len() implies has_client(s.push(t), (#[trigger] ns[i]).account.client) by {
        lemma_events_of_push(s, t, ns[i].account.client);
    }
    let p = events_of(s, c);
    assert(p.push(t).drop_last() =~= p);
    assert forall|i: int, j: int|
        0 <= i < j < ns.len() implies (#[trigger] ns[i]).account.client < (#[trigger] ns[j]).account.client by {
        assert(ms[i].account.client < ms[j].account.client);
    }
    assert forall|i: int| 0 <= i < ns.len() implies (#[trigger] ns[i]).wf() && replay_from(
        initial(ns[i].account.client),
        events_of(s.push(t), ns[i].account.client),
    ) == Ok::<LedgerModel, LedgerError>(ns[i]) by {
        lemma_events_of_push(s, t, ns[i].account.client);
        if i != pos {
            assert(ms[i].account.client != c) by {
                if i < pos {
                    assert(ms[i].account.client < ms[pos].account.client);
                } else {
                    assert(ms[pos].account.client < ms[i].account.client);
                }
            }
        }
    }
    assert forall|d: u16| #[trigger] holds_client(ns, d) || !has_client(s.push(t), d) by {
        lemma_events_of_push(s, t, d);
        if holds_client(ms, d) {
            let i = choose|i: int| 0 <= i < ms.len() && (#[trigger] ms[i]).account.client == d;
            assert(ns[i].account.client == d);
        }
        if d == c {
            assert(ns[pos].account.client == d);
        }
    }
}

/// The transaction at `k` is the first in `s` whose client's replay fails,
/// and it fails with `e`.
pub open spec fn first_failure(s: Seq<Transaction>, k: int, e: LedgerError) -> bool {
    &&& forall|c: u16| #[trigger] replay_account(c, events_of(s.take(k), c)) is Ok
    &&& replay_account(s[k].client, events_of(s.take(k + 1), s[k].client)) == Err::<
        Account,
        LedgerError,
    >(e)
}

/// The first position in `ledgers` whose client is not below `client`, and
/// whether the ledger there is that client's.
fn find_client(ledgers: &Vec<Ledger>, client: u16) -> (r: (usize, bool))
    ensures
        r.0 <= ledgers@.len(),
        forall|i: int| 0 <= i < r.0 ==> (#[trigger] models(ledgers@)[i]).account.client < client,
        r.0 < ledgers@.len() ==> models(ledgers@)[r.0 as int].account.client >= client,
        r.1 <==> (r.0 < ledgers@.len() && models(ledgers@)[r.0 as int].account.client == client),
{
    let mut i: usize = 0;
    while i < ledgers.len()
        invariant
            i <= ledgers@.len(),
            forall|j: int| 0 <= j < i ==> (#[trigger] models(ledgers@)[j]).account.client < client,
        decreases ledgers@.len() - i,
    {
        let c = ledgers[i].account.client;
        if c >= client {
            return (i, c == client);
        }
        i = i + 1;
    }
    (i, false)
}

/// Replays every client's transactions, in arrival order within each client,
/// and returns the final accounts in ascending client order; or the first
/// error met, which is the error of that client's replay.
pub fn process(transactions: &Vec<Transaction>) -> (r: Result<Vec<Account>, LedgerError>)
    requires
        forall|i: int| 0 <= i < transactions@.len() ==> (#[trigger] transactions@[i]).wf(),
    ensures
        r is Ok <==> forall|c: u16| #[trigger]
            replay_account(c, events_of(transactions@, c)) is Ok,
        r matches Err(e) ==> exists|c: u16| #[trigger]
            replay_account(c, events_of(transactions@, c)) == Err::<Account, LedgerError>(e),
        r matches Err(e) ==> exists|k: int|
            0 <= k < transactions@.len() && #[trigger] first_failure(transactions@, k, e),
        r matches Ok(accounts) ==> is_report(transactions@, accounts@),
{
    let ghost s = transactions@;
    let mut ledgers: Vec<Ledger> = Vec::new();
    let n = transactions.len();
    let mut k: usize = 0;
    assert(models(ledgers@) =~= Seq::<LedgerModel>::empty());
    assert forall|c: u16| #[trigger] holds_client(models(ledgers@), c) || !has_client(s.take(0), c) by {
    }
    while k < n
        invariant
            n == s.len(),
            s == transactions@,
            k <= n,
            forall|i: int| 0 <= i < s.len() ==> (#[trigger] s[i]).wf(),
            tracks(models(ledgers@), s.take(k as int)),
            seen_except(models(ledgers@), s.take(k as int), -1),
        decreases n - k,
    {
        let t = transactions[k];
        let c = t.client;
        let ghost sk = s.take(k as int);
        assert(s.take(k + 1) =~= sk.push(t));
        let (pos, found) = find_client(&ledgers, c);
        if !found {
            let ghost before = ledgers@;
            proof {
                lemma_tracks_insert(models(ledgers@), sk, pos as int, c);
                lemma_seen_insert(models(ledgers@), sk, pos as int, initial(c));
            }
            ledgers.insert(pos, Ledger::new(c));
            assert(models(ledgers@) =~= models(before).insert(pos as int, initial(c)));
        }
        let ghost mid = ledgers@;
        assert(models(mid)[pos as int] == mid[pos as int]@);
        assert(seen_except(models(mid), sk, pos as int));
        let mut ledger = ledgers.remove(pos);
        match ledger.apply(&t) {
            Ok(()) => {},
            Err(e) => {
                proof {
                    let p = events_of(sk, c);
                    assert(p.push(t).drop_last() =~= p);
                    lemma_events_of_push(sk, t, c);
                    lemma_client_err_persists(initial(c), s, k as int + 1, c);
                    assert(!(replay_account(c, events_of(transactions@, c)) is Ok));
                    assert forall|d: u16| #[trigger] replay_account(d, events_of(sk, d)) is Ok by {
                        if holds_client(models(mid), d) {
                            let i = choose|i: int|
                                0 <= i < models(mid).len() && (#[trigger] models(mid)[i]).account.client == d;
                        } else {
                            lemma_has_client_events(sk, d);
                            assert(events_of(sk, d) =~= Seq::<Transaction>::empty());
                        }
                    }
                    assert(s.take(k as int + 1) == sk.push(t));
                    assert(first_failure(s, k as int, e));
                }
                return Err(e);
            },
        }
        proof {
            lemma_step_wf(mid[pos as int]@, t);
            lemma_tracks_apply(models(mid), sk, pos as int, t, ledger@);
        }
        ledgers.insert(pos, ledger);
        assert(models(ledgers@) =~= models(mid).update(pos as int, ledger@));
        k = k + 1;
    }
    assert(s.take(n as int) =~= s);
    let ghost ms = models(ledgers@);
    assert(seen_except(ms, s, -1));
    let mut accounts: Vec<Account> = Vec::new();
    let mut i: usize = 0;
    while i < ledgers.len()
        invariant
            i <= ledgers@.len(),
            ms == models(ledgers@),
            accounts@.len() == i,
            forall|j: int| 0 <= j < i ==> accounts@[j] == (#[trigger] ms[j]).account,
        decreases ledgers@.len() - i,
    {
        accounts.push(ledgers[i].account());
        i = i + 1;
    }
    proof {
        assert forall|c: u16| #[trigger] replay_account(c, events_of(s, c)) is Ok by {
            if has_client(s, c) {
                assert(holds_client(ms, c));
                let i = choose|i: int| 0 <= i < ms.len() && (#[trigger] ms[i]).account.client == c;
            } else {
                lemma_has_client_events(s, c);
                assert(events_of(s, c) =~= Seq::<Transaction>::empty());
            }
        }
        assert forall|c: u16|
            #![trigger has_client(s, c)]
            has_client(s, c) <==> exists|i: int| 0 <= i < accounts@.len() && (#[trigger] accounts@[i]).client == c by {
            if has_client(s, c) {
                assert(holds_client(ms, c));
                let i = choose|i: int| 0 <= i < ms.len() && (#[trigger] ms[i]).account.client == c;
                assert(accounts@[i].client == c);
            }
            if exists|i: int| 0 <= i < accounts@.len() && (#[trigger] accounts@[i]).client == c {
                let i = choose|i: int| 0 <= i < accounts@.len() && (#[trigger] accounts@[i]).client == c;
                assert(ms[i].account.client == c);
                lemma_has_client_events(s, c);
            }
        }
        assert forall|i: int, j: int|
            0 <= i < j < accounts@.len() implies (#[trigger] accounts@[i]).client < (#[trigger] accounts@[j]).client by {
            assert(ms[i].account.client < ms[j].account.client);
        }
        assert forall|i: int| 0 <= i < accounts@.len() implies replay_account(
            (#[trigger] accounts@[i]).client,
            events_of(s, accounts@[i].client),
        ) == Ok::<Account, LedgerError>(accounts@[i]) by {
            assert(ms[i].wf());
        }
    }
    Ok(accounts)
}

/// The sum of the totals of `accounts`, in units of `10^-28`.
pub open spec fn sum_of_totals(accounts: Seq<Account>) -> int
    decreases accounts.len(),
{
    if accounts.len() == 0 {
        0
    } else {
        sum_of_totals(accounts.drop_last()) + accounts.last().total_units()
    }
}

/// Over the clients of `accounts`, the sum of each client's applied deposits
/// less its applied withdrawals and chargebacks in `s`.
pub open spec fn sum_of_net_applied(s: Seq<Transaction>, accounts: Seq<Account>) -> int
    decreases accounts.len(),
{
    if accounts.len() == 0 {
        0
    } else {
        sum_of_net_applied(s, accounts.drop_last()) + net_applied(
            initial(accounts.last().client),
            events_of(s, accounts.last().client),
        )
    }
}

pub proof fn lemma_events_of_wf(s: Seq<Transaction>, c: u16)
    requires
        forall|i: int| 0 <= i < s.len() ==> (#[trigger] s[i]).wf(),
    ensures
        forall|i: int| 0 <= i < events_of(s, c).len() ==> (#[trigger] events_of(s, c)[i]).wf(),
    decreases s.len(),
{
    if s.len() > 0 {
        lemma_events_of_wf(s.drop_last(), c);
        let p = events_of(s.drop_last(), c);
        assert forall|i: int| 0 <= i < events_of(s, c).len() implies (#[trigger] events_of(s, c)[i]).wf() by {
            if s.last().client == c && i == p.len() {
                assert(s[s.len() - 1] == s.last());
            }
        }
    }
}

proof fn lemma_sum_conserved(s: Seq<Transaction>, accounts: Seq<Account>)
    requires
        forall|i: int| 0 <= i < s.len() ==> (#[trigger] s[i]).wf(),
        forall|i: int|
            0 <= i < accounts.len() ==> replay_account(
                (#[trigger] accounts[i]).client,
                events_of(s, accounts[i].client),
            ) == Ok::<Account, LedgerError>(accounts[i]),
    ensures
        sum_of_totals(accounts) == sum_of_net_applied(s, accounts),
    decreases accounts.len(),
{
    if accounts.len() > 0 {
        let q = accounts.drop_last();
        assert forall|i: int| 0 <= i < q.len() implies replay_account(
            (#[trigger] q[i]).client,
            events_of(s, q[i].client),
        ) == Ok::<Account, LedgerError>(q[i]) by {
            assert(q[i] == accounts[i]);
        }
        lemma_sum_conserved(s, q);
        let a = accounts.last();
        assert(accounts[accounts.len() - 1] == a);
        lemma_events_of_wf(s, a.client);
        total_is_net_of_applied(initial(a.client), events_of(s, a.client));
        let z = initial(a.client).account.available;
        assert(z.mantissa * crate::amount::pow10((crate::amount::MAX_SCALE - z.scale) as nat) == 0)
            by (nonlinear_arith)
            requires
                z.mantissa == 0,
        ;
        assert(initial(a.client).account.total_units() == 0);
    }
}

/// Conservation of funds over a whole input: the totals of all reported
/// accounts add up to the deposits, less the withdrawals and less the
/// chargebacks, that were applied across all clients.
pub proof fn funds_are_conserved(s: Seq<Transaction>, accounts: Seq<Account>)
    requires
        forall|i: int| 0 <= i < s.len() ==> (#[trigger] s[i]).wf(),
        is_report(s, accounts),
    ensures
        sum_of_totals(accounts) == sum_of_net_applied(s, accounts),
{
    lemma_sum_conserved(s, accounts);
}

pub open spec fn lists_client(a: Seq<Account>, c: u16) -> bool {
    exists|i: int| 0 <= i < a.len() && (#[trigger] a[i]).client == c
}

proof fn lemma_sorted_same_clients(a: Seq<Account>, b: Seq<Account>)
    requires
        forall|i: int, j: int| 0 <= i < j < a.len() ==> (#[trigger] a[i]).client < (#[trigger] a[j]).client,
        forall|i: int, j: int| 0 <= i < j < b.len() ==> (#[trigger] b[i]).client < (#[trigger] b[j]).client,
        forall|c: u16|
            #![trigger lists_client(a, c)]
            #![trigger lists_client(b, c)]
            lists_client(a, c) <==> lists_client(b, c),
    ensures
        a.len() == b.len(),
        forall|i: int| 0 <= i < a.len() ==> (#[trigger] a[i]).client == b[i].client,
    decreases a.len(),
{
    if a.len() == 0 {
        if b.len() > 0 {
            assert(lists_client(b, b[0].client));
        }
    } else {
        if b.len() == 0 {
            assert(lists_client(a, a[0].client));
        } else {
            assert(lists_client(a, a[0].client));
            assert(lists_client(b, b[0].client));
            let j = choose|j: int| 0 <= j < b.len() && (#[trigger] b[j]).client == a[0].client;
            let i = choose|i: int| 0 <= i < a.len() && (#[trigger] a[i]).client == b[0].client;
            if j > 0 {
                assert(b[0].client < b[j].client);
            }
            if i > 0 {
                assert(a[0].client < a[i].client);
            }
            assert(a[0].client == b[0].client);
            let ta = a.subrange(1, a.len() as int);
            let tb = b.subrange(1, b.len() as int);
            assert forall|c: u16|
                #![trigger lists_client(ta, c)]
                #![trigger lists_client(tb, c)]
                lists_client(ta, c) <==> lists_client(tb, c) by {
                if lists_client(ta, c) {
                    let i = choose|i: int| 0 <= i < ta.len() && (#[trigger] ta[i]).client == c;
                    assert(a[i + 1].client == c);
                    assert(a[0].client < a[i + 1].client);
                    assert(lists_client(a, c));
                    let j = choose|j: int| 0 <= j < b.len() && (#[trigger] b[j]).client == c;
                    assert(j != 0);
                    assert(tb[j - 1].client == c);
                }
                if lists_client(tb, c) {
                    let j = choose|j: int| 0 <= j < tb.len() && (#[trigger] tb[j]).client == c;
                    assert(b[j + 1].client == c);
                    assert(b[0].client < b[j + 1].client);
                    assert(lists_client(b, c));
                    let i = choose|i: int| 0 <= i < a.len() && (#[trigger] a[i]).client == c;
                    assert(i != 0);
                    assert(ta[i - 1].client == c);
                }
            }
            assert forall|i: int, j: int| 0 <= i < j < ta.len() implies (#[trigger] ta[i]).client < (#[trigger] ta[j]).client by {
                assert(a[i + 1].client < a[j + 1].client);
            }
            assert forall|i: int, j: int| 0 <= i < j < tb.len() implies (#[trigger] tb[i]).client < (#[trigger] tb[j]).client by {
                assert(b[i + 1].client < b[j + 1].client);
            }
            lemma_sorted_same_clients(ta, tb);
            assert forall|i: int| 0 <= i < a.len() implies (#[trigger] a[i]).client == b[i].client by {
                if i > 0 {
                    assert(ta[i - 1] == a[i]);
                    assert(tb[i - 1] == b[i]);
                }
            }
        }
    }
}

/// Clients are independent: two inputs that give every client the same
/// transactions in the same order have the same report, however the clients
/// are interleaved.
pub proof fn interleaving_is_irrelevant(
    s1: Seq<Transaction>,
    s2: Seq<Transaction>,
    a1: Seq<Account>,
    a2: Seq<Account>,
)
    requires
        forall|c: u16| #[trigger] events_of(s1, c) == events_of(s2, c),
        is_report(s1, a1),
        is_report(s2, a2),
    ensures
        a1 == a2,
{
    assert forall|c: u16|
        #![trigger lists_client(a1, c)]
        #![trigger lists_client(a2, c)]
        lists_client(a1, c) <==> lists_client(a2, c) by {
        lemma_has_client_events(s1, c);
        lemma_has_client_events(s2, c);
        assert(events_of(s1, c) == events_of(s2, c));
        assert(has_client(s1, c) == has_client(s2, c));
    }
    lemma_sorted_same_clients(a1, a2);
    assert forall|i: int| 0 <= i < a1.len() implies (#[trigger] a1[i]) == a2[i] by {
        assert(events_of(s1, a1[i].client) == events_of(s2, a1[i].client));
    }
    assert(a1 =~= a2);
}

} // verus!
