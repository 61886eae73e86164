use vstd::prelude::*;

use crate::account::{
    apply_model, balanced, fresh_model, lemma_apply_model_balanced, Account, AccountModel, Error,
};
use crate::amount::{
    amount_str, csv_safe, dec_digits, lemma_amount_str_safe, lemma_dec_digits_safe, render_amount,
    render_u16, Amount,
};
use crate::csvio::{csv_line, join_fields};
use crate::transaction::Transaction;

verus! {

/// How the ledger routes one transaction: the target account is looked up,
/// or created fresh on first reference, the account state machine runs, and
/// the directory keeps the account's next state.
pub open spec fn ledger_apply(m: Map<u16, AccountModel>, t: Transaction) -> (
    Map<u16, AccountModel>,
    Result<(), Error>,
) {
    let before = if m.contains_key(t.client) {
        m[t.client]
    } else {
        fresh_model(t.client)
    };
    let stepped = apply_model(before, t);
    (m.insert(t.client, stepped.0), stepped.1)
}

/// The directory state after a whole sequence of transactions, in order.
pub open spec fn process_all(m: Map<u16, AccountModel>, txs: Seq<Transaction>) -> Map<
    u16,
    AccountModel,
>
    decreases txs.len(),
{
    if txs.len() == 0 {
        m
    } else {
        ledger_apply(process_all(m, txs.drop_last()), txs.last()).0
    }
}

/// The rejected transactions of a sequence: each position paired with the
/// error the state machine returned for it.
pub open spec fn process_failures(m: Map<u16, AccountModel>, txs: Seq<Transaction>) -> Seq<
    (usize, Error),
>
    decreases txs.len(),
{
    if txs.len() == 0 {
        Seq::empty()
    } else {
        let prefix = process_failures(m, txs.drop_last());
        let state = process_all(m, txs.drop_last());
        match ledger_apply(state, txs.last()).1 {
            Ok(_) => prefix,
            Err(e) => prefix.push(((txs.len() - 1) as usize, e)),
        }
    }
}

/// One exported account: the balances and the lock flag at the end of a run.
#[derive(Clone, Copy, Debug, PartialEq, Eq, Structural)]
pub struct Snapshot {
    pub client: u16,
    pub available: Amount,
    pub held: Amount,
    pub total: Amount,
    pub locked: bool,
}

/// The balance invariant holds of every account, at every point of a
/// batch: when every account of a directory has its total equal to its
/// available plus its held funds, the same is true after any sequence of
/// transactions, successful or rejected.
pub proof fn lemma_ledger_balanced(m: Map<u16, AccountModel>, txs: Seq<Transaction>)
    requires
        forall|id: u16| m.contains_key(id) ==> balanced(#[trigger] m[id]),
    ensures
        forall|id: u16|
            process_all(m, txs).contains_key(id) ==> balanced(#[trigger] process_all(m, txs)[id]),
    decreases txs.len(),
{
    if txs.len() > 0 {
        lemma_ledger_balanced(m, txs.drop_last());
        let prev = process_all(m, txs.drop_last());
        let t = txs.last();
        let before = if prev.contains_key(t.client) {
            prev[t.client]
        } else {
            fresh_model(t.client)
        };
        lemma_apply_model_balanced(before, t);
    }
}

/// Whether a snapshot sequence is exactly the directory's contents: one
/// snapshot per account, fields taken from it, in ascending client order.
pub open spec fn snapshots_match(ss: Seq<Snapshot>, m: Map<u16, AccountModel>) -> bool {
    &&& forall|i: int|
        0 <= i < ss.len() ==> m.contains_key((#[trigger] ss[i]).client) && ss[i].available@
            == m[ss[i].client].available && ss[i].held@ == m[ss[i].client].held && ss[i].total@
            == m[ss[i].client].total && ss[i].locked == m[ss[i].client].locked
    &&& forall|i: int, j: int| 0 <= i < j < ss.len() ==> ss[i].client < ss[j].client
    &&& forall|id: u16|
        m.contains_key(id) ==> exists|i: int| 0 <= i < ss.len() && ss[i].client == id
}

/// Only one snapshot sequence matches a given directory, so a contract
/// that asks for a matching sequence pins it completely.
pub proof fn lemma_snapshots_match_unique(
    s1: Seq<Snapshot>,
    s2: Seq<Snapshot>,
    m: Map<u16, AccountModel>,
)
    requires
        snapshots_match(s1, m),
        snapshots_match(s2, m),
    ensures
        s1 == s2,
    decreases s1.len(),
{
    if s1.len() == 0 {
        if s2.len() > 0 {
            assert(m.contains_key(s2[0].client));
            assert(exists|i: int| 0 <= i < s1.len() && s1[i].client == s2[0].client);
            assert(false);
        }
        assert(s1 =~= s2);
    } else {
        if s2.len() == 0 {
            assert(m.contains_key(s1[0].client));
            assert(exists|i: int| 0 <= i < s2.len() && s2[i].client == s1[0].client);
            assert(false);
        }
        let c1 = s1[0].client;
        let c2 = s2[0].client;
        // the head of each is the least client id, so the heads agree
        if c1 != c2 {
            assert(m.contains_key(c1));
            let j = choose|j: int| 0 <= j < s2.len() && s2[j].client == c1;
            assert(s2[j].client == c1);
            assert(j > 0 ==> c2 < c1);
            assert(m.contains_key(c2));
            let i = choose|i: int| 0 <= i < s1.len() && s1[i].client == c2;
            assert(s1[i].client == c2);
            assert(i > 0 ==> c1 < c2);
            assert(false);
        }
        crate::amount::lemma_amount_eq(s1[0].available, s2[0].available);
        crate::amount::lemma_amount_eq(s1[0].held, s2[0].held);
        crate::amount::lemma_amount_eq(s1[0].total, s2[0].total);
        assert(s1[0] == s2[0]);
        let t1 = s1.drop_first();
        let t2 = s2.drop_first();
        let m2 = m.remove(c1);
        assert forall|i: int| 0 <= i < t1.len() implies m2.contains_key(
            (#[trigger] t1[i]).client,
        ) && t1[i].available@ == m2[t1[i].client].available && t1[i].held@ == m2[t1[i].client].held
            && t1[i].total@ == m2[t1[i].client].total && t1[i].locked == m2[t1[i].client].locked by {
            assert(t1[i] == s1[i + 1]);
            assert(c1 < s1[i + 1].client);
        }
        assert forall|id: u16| m2.contains_key(id) implies exists|i: int|
            0 <= i < t1.len() && t1[i].client == id by {
            let i = choose|i: int| 0 <= i < s1.len() && s1[i].client == id;
            assert(i > 0);
            assert(t1[i - 1].client == id);
        }
        assert(snapshots_match(t1, m2));
        assert forall|i: int| 0 <= i < t2.len() implies m2.contains_key(
            (#[trigger] t2[i]).client,
        ) && t2[i].available@ == m2[t2[i].client].available && t2[i].held@ == m2[t2[i].client].held
            && t2[i].total@ == m2[t2[i].client].total && t2[i].locked == m2[t2[i].client].locked by {
            assert(t2[i] == s2[i + 1]);
            assert(c2 < s2[i + 1].client);
        }
        assert forall|id: u16| m2.contains_key(id) implies exists|i: int|
            0 <= i < t2.len() && t2[i].client == id by {
            let i = choose|i: int| 0 <= i < s2.len() && s2[i].client == id;
            assert(i > 0);
            assert(t2[i - 1].client == id);
        }
        assert(snapshots_match(t2, m2));
        lemma_snapshots_match_unique(t1, t2, m2);
        assert(t1.len() == t2.len());
        assert(s1.len() == t1.len() + 1);
        assert(s2.len() == t2.len() + 1);
        assert(s1.len() == s2.len());
        assert forall|i: int| 0 <= i < s1.len() implies s1[i] == s2[i] by {
            if i > 0 {
                assert(s1[i] == t1[i - 1]);
                assert(s2[i] == t2[i - 1]);
            }
        }
        assert(s1 =~= s2);
    }
}

/// Client ids strictly ascend along the directory's backing sequence.
pub open spec fn clients_sorted(s: Seq<Account>) -> bool {
    forall|i: int, j: int| 0 <= i < j < s.len() ==> s[i]@.client < s[j]@.client
}

/// The mapping a backing sequence of accounts represents.
pub open spec fn seq_map(s: Seq<Account>) -> Map<u16, AccountModel> {
    Map::new(
        |id: u16| exists|i: int| 0 <= i < s.len() && s[i]@.client == id,
        |id: u16| s[choose|i: int| 0 <= i < s.len() && s[i]@.client == id]@,
    )
}

/// With strictly ascending clients, position `i` answers for its client id.
proof fn lemma_seq_map_index(s: Seq<Account>, i: int)
    requires
        clients_sorted(s),
        0 <= i < s.len(),
    ensures
        seq_map(s).contains_key(s[i]@.client),
        seq_map(s)[s[i]@.client] == s[i]@,
{
    let id = s[i]@.client;
    assert(0 <= i < s.len() && s[i]@.client == id);
    let j = choose|k: int| 0 <= k < s.len() && s[k]@.client == id;
    if i < j {
        assert(s[i]@.client < s[j]@.client);
    } else if j < i {
        assert(s[j]@.client < s[i]@.client);
    }
}

/// Replacing the account at position `i` by one with the same client id
/// inserts its model under that id.
proof fn lemma_seq_map_update(s: Seq<Account>, a: Account, i: int)
    requires
        clients_sorted(s),
        0 <= i < s.len(),
        a@.client == s[i]@.client,
    ensures
        clients_sorted(s.update(i, a)),
        seq_map(s.update(i, a)) == seq_map(s).insert(a@.client, a@),
{
    let s2 = s.update(i, a);
    assert(forall|k: int| 0 <= k < s.len() ==> s2[k]@.client == s[k]@.client);
    assert(clients_sorted(s2));
    assert forall|id: u16|
        seq_map(s2).dom().contains(id) <==> seq_map(s).insert(a@.client, a@).dom().contains(
            id,
        ) by {
        if exists|k: int| 0 <= k < s2.len() && s2[k]@.client == id {
            let k = choose|k: int| 0 <= k < s2.len() && s2[k]@.client == id;
            assert(s[k]@.client == id);
        }
        if exists|k: int| 0 <= k < s.len() && s[k]@.client == id {
            let k = choose|k: int| 0 <= k < s.len() && s[k]@.client == id;
            assert(s2[k]@.client == id);
        }
    }
    assert forall|id: u16| seq_map(s2).dom().contains(id) implies seq_map(s2)[id] == seq_map(
        s,
    ).insert(a@.client, a@)[id] by {
        if id == a@.client {
            lemma_seq_map_index(s2, i);
        } else {
            let k = choose|k: int| 0 <= k < s.len() && s[k]@.client == id;
            assert(s[k]@.client == id);
            assert(k != i);
            lemma_seq_map_index(s, k);
            lemma_seq_map_index(s2, k);
        }
    }
    assert(seq_map(s2) =~= seq_map(s).insert(a@.client, a@));
}

/// Inserting an account at its ordered position, with a client id the
/// directory does not hold yet, inserts its model under that id.
proof fn lemma_seq_map_insert(s: Seq<Account>, a: Account, i: int)
    requires
        clients_sorted(s),
        0 <= i <= s.len(),
        forall|k: int| 0 <= k < i ==> s[k]@.client < a@.client,
        forall|k: int| i <= k < s.len() ==> s[k]@.client > a@.client,
    ensures
        clients_sorted(s.insert(i, a)),
        seq_map(s.insert(i, a)) == seq_map(s).insert(a@.client, a@),
{
    let s2 = s.insert(i, a);
    assert(forall|k: int| 0 <= k < i ==> s2[k] == s[k]);
    assert(forall|k: int| i < k < s2.len() ==> s2[k] == s[k - 1]);
    assert(s2[i] == a);
    assert(clients_sorted(s2));
    assert forall|id: u16|
        seq_map(s2).dom().contains(id) <==> seq_map(s).insert(a@.client, a@).dom().contains(
            id,
        ) by {
        if exists|k: int| 0 <= k < s2.len() && s2[k]@.client == id {
            let k = choose|k: int| 0 <= k < s2.len() && s2[k]@.client == id;
            if k != i {
                let orig = if k < i {
                    k
                } else {
                    k - 1
                };
                assert(s[orig]@.client == id);
            }
        }
        if exists|k: int| 0 <= k < s.len() && s[k]@.client == id {
            let k = choose|k: int| 0 <= k < s.len() && s[k]@.client == id;
            let moved = if k < i {
                k
            } else {
                k + 1
            };
            assert(s2[moved]@.client == id);
        }
    }
    assert forall|id: u16| seq_map(s2).dom().contains(id) implies seq_map(s2)[id] == seq_map(
        s,
    ).insert(a@.client, a@)[id] by {
        if id == a@.client {
            lemma_seq_map_index(s2, i);
        } else {
            let k = choose|k: int| 0 <= k < s.len() && s[k]@.client == id;
            assert(s[k]@.client == id);
            let moved = if k < i {
                k
            } else {
                k + 1
            };
            assert(s2[moved]@ == s[k]@);
            lemma_seq_map_index(s, k);
            lemma_seq_map_index(s2, moved);
        }
    }
    assert(seq_map(s2) =~= seq_map(s).insert(a@.client, a@));
}

/// The directory of client accounts, keyed by client id. Accounts are
/// created lazily, on the first transaction that references their id, and
/// are kept in ascending client-id order.
#[derive(Debug)]
pub struct AccountsDb {
    accounts: Vec<Account>,
}

impl View for AccountsDb {
    type V = Map<u16, AccountModel>;

    closed spec fn view(&self) -> Map<u16, AccountModel> {
        seq_map(self.accounts@)
    }
}

impl AccountsDb {
    /// Well-formedness: clients strictly ascend and every account is
    /// well-formed.
    pub closed spec fn inv(self) -> bool {
        &&& clients_sorted(self.accounts@)
        &&& forall|i: int| 0 <= i < self.accounts@.len() ==> (#[trigger] self.accounts@[i]).inv()
    }

    /// An empty directory.
    pub fn new() -> (r: AccountsDb)
        ensures
            r.inv(),
            r@ == Map::<u16, AccountModel>::empty(),
    {
        let r = AccountsDb { accounts: Vec::new() };
        proof {
            assert(r@ =~= Map::<u16, AccountModel>::empty());
        }
        r
    }

    /// Where the given client stands in the backing sequence: its position,
    /// or the position where it belongs.
    fn find_slot(&self, client: u16) -> (r: Result<usize, usize>)
        requires
            self.inv(),
        ensures
            match r {
                Ok(i) => i < self.accounts@.len() && self.accounts@[i as int]@.client == client,
                Err(i) => i <= self.accounts@.len() && (forall|k: int|
                    0 <= k < i ==> self.accounts@[k]@.client < client) && (forall|k: int|
                    i <= k < self.accounts@.len() ==> self.accounts@[k]@.client > client),
            },
    {
        let mut j: usize = 0;
        while j < self.accounts.len()
            invariant
                self.inv(),
                j <= self.accounts@.len(),
                forall|k: int| 0 <= k < j ==> self.accounts@[k]@.client < client,
            decreases self.accounts@.len() - j,
        {
            let c = self.accounts[j].client_id();
            if c == client {
                return Ok(j);
            }
            if c > client {
                return Err(j);
            }
            j += 1;
        }
        Err(j)
    }

    /// Route one transaction to its account, creating the account on first
    /// reference, exactly as `ledger_apply` describes.
    pub fn execute(&mut self, t: Transaction) -> (r: Result<(), Error>)
        requires
            old(self).inv(),
        ensures
            final(self).inv(),
            final(self)@ == ledger_apply(old(self)@, t).0,
            r == ledger_apply(old(self)@, t).1,
    {
        let ghost s1 = self.accounts@;
        match self.find_slot(t.client) {
            Ok(i) => {
                proof {
                    lemma_seq_map_index(s1, i as int);
                }
                let mut acct = self.accounts.remove(i);
                let r = acct.execute_transaction(t);
                self.accounts.insert(i, acct);
                proof {
                    assert(self.accounts@ =~= s1.update(i as int, acct));
                    lemma_seq_map_update(s1, acct, i as int);
                }
                r
            },
            Err(i) => {
                let mut acct = Account::new(t.client);
                let r = acct.execute_transaction(t);
                self.accounts.insert(i, acct);
                proof {
                    assert(forall|k: int|
                        0 <= k < s1.len() ==> #[trigger] s1[k]@.client != t.client);
                    assert(!seq_map(s1).dom().contains(t.client));
                    lemma_seq_map_insert(s1, acct, i as int);
                }
                r
            },
        }
    }

    /// Apply a whole batch in order. A rejected transaction is reported in
    /// the result, paired with its position, and never stops the batch.
    pub fn process_transactions(&mut self, txs: &Vec<Transaction>) -> (failures: Vec<
        (usize, Error),
    >)
        requires
            old(self).inv(),
        ensures
            final(self).inv(),
            final(self)@ == process_all(old(self)@, txs@),
            failures@ == process_failures(old(self)@, txs@),
    {
        let mut failures: Vec<(usize, Error)> = Vec::new();
        let mut i: usize = 0;
        while i < txs.len()
            invariant
                self.inv(),
                i <= txs@.len(),
                self@ == process_all(old(self)@, txs@.take(i as int)),
                failures@ == process_failures(old(self)@, txs@.take(i as int)),
            decreases txs@.len() - i,
        {
            let r = self.execute(txs[i]);
            if let Err(e) = r {
                failures.push((i, e));
            }
            i += 1;
            proof {
                assert(txs@.take(i as int).drop_last() =~= txs@.take(i - 1));
                assert(txs@.take(i as int).last() == txs@[i - 1]);
            }
        }
        proof {
            assert(txs@.take(txs@.len() as int) =~= txs@);
        }
        failures
    }

    /// Export every account ever referenced, exactly once, in ascending
    /// client-id order, with its balances and lock flag.
    pub fn export(&self) -> (r: Vec<Snapshot>)
        requires
            self.inv(),
        ensures
            snapshots_match(r@, self@),
    {
        let mut r: Vec<Snapshot> = Vec::new();
        let mut j: usize = 0;
        while j < self.accounts.len()
            invariant
                self.inv(),
                j <= self.accounts@.len(),
                r@.len() == j,
                forall|k: int| 0 <= k < j ==> (#[trigger] r@[k]).client == self.accounts@[k]@.client
                    && r@[k].available@ == self.accounts@[k]@.available && r@[k].held@
                    == self.accounts@[k]@.held && r@[k].total@ == self.accounts@[k]@.total && r@[
                    k
                ].locked == self.accounts@[k]@.locked,
            decreases self.accounts@.len() - j,
        {
            let a = &self.accounts[j];
            r.push(
                Snapshot {
                    client: a.client_id(),
                    available: a.available(),
                    held: a.held(),
                    total: a.total(),
                    locked: a.locked(),
                },
            );
            j += 1;
        }
        proof {
            assert forall|i: int| 0 <= i < r@.len() implies self@.contains_key(
                (#[trigger] r@[i]).client,
            ) && r@[i].available@ == self@[r@[i].client].available && r@[i].held@ == self@[
                r@[i].client
            ].held && r@[i].total@ == self@[r@[i].client].total && r@[i].locked == self@[
                r@[i].client
            ].locked by {
                lemma_seq_map_index(self.accounts@, i);
            }
            assert forall|id: u16| self@.contains_key(id) implies exists|i: int|
                0 <= i < r@.len() && r@[i].client == id by {
                let k = choose|k: int|
                    0 <= k < self.accounts@.len() && self.accounts@[k]@.client == id;
                assert(0 <= k < r@.len() && r@[k].client == id);
            }
        }
        r
    }
}

/// The column names of the exported table.
pub open spec fn header_fields() -> Seq<Seq<char>> {
    seq!["client"@, "available"@, "held"@, "total"@, "locked"@]
}

/// The fields of one exported record.
pub open spec fn snapshot_fields(s: Snapshot) -> Seq<Seq<char>> {
    seq![
        dec_digits(s.client as nat),
        amount_str(s.available@),
        amount_str(s.held@),
        amount_str(s.total@),
        if s.locked {
            "true"@
        } else {
            "false"@
        },
    ]
}

/// The text of one exported record.
pub open spec fn snapshot_line(s: Snapshot) -> Seq<char> {
    join_fields(snapshot_fields(s))
}

/// The text of the exported records, in order.
pub open spec fn snapshot_lines(ss: Seq<Snapshot>) -> Seq<char>
    decreases ss.len(),
{
    if ss.len() == 0 {
        Seq::empty()
    } else {
        snapshot_lines(ss.drop_last()) + snapshot_line(ss.last())
    }
}

/// The whole exported table: a header line and one line per snapshot, or
/// nothing at all when there is no account.
pub open spec fn render_output_spec(ss: Seq<Snapshot>) -> Seq<char> {
    if ss.len() == 0 {
        Seq::empty()
    } else {
        join_fields(header_fields()) + snapshot_lines(ss)
    }
}

/// Write the exported table, exactly as `render_output_spec` describes.
#[verifier::loop_isolation(false)]
pub fn render_output(snaps: &Vec<Snapshot>) -> (r: String)
    ensures
        r@ == render_output_spec(snaps@),
{
    let mut out = String::new();
    if snaps.len() == 0 {
        proof {
            assert(out@ =~= render_output_spec(snaps@));
        }
        return out;
    }
    let mut header: Vec<String> = Vec::new();
    header.push(String::from_str("client"));
    header.push(String::from_str("available"));
    header.push(String::from_str("held"));
    header.push(String::from_str("total"));
    header.push(String::from_str("locked"));
    proof {
        reveal_strlit("client");
        reveal_strlit("available");
        reveal_strlit("held");
        reveal_strlit("total");
        reveal_strlit("locked");
        assert(header.deep_view() =~= header_fields());
        assert forall|i: int|
            0 <= i < header@.len() implies csv_safe((#[trigger] header@[i])@) && header@[i]@.len()
            > 0 by {
            assert(csv_safe("client"@));
            assert(csv_safe("available"@));
            assert(csv_safe("held"@));
            assert(csv_safe("total"@));
            assert(csv_safe("locked"@));
        }
    }
    out.append(csv_line(&header).as_str());
    let mut k: usize = 0;
    while k < snaps.len()
        invariant
            k <= snaps@.len(),
            snaps@.len() > 0,
            out@ == join_fields(header_fields()) + snapshot_lines(snaps@.take(k as int)),
        decreases snaps@.len() - k,
    {
        let s = snaps[k];
        let mut fields: Vec<String> = Vec::new();
        fields.push(render_u16(s.client));
        fields.push(render_amount(s.available));
        fields.push(render_amount(s.held));
        fields.push(render_amount(s.total));
        fields.push(String::from_str(if s.locked {
            "true"
        } else {
            "false"
        }));
        proof {
            reveal_strlit("true");
            reveal_strlit("false");
            assert(fields.deep_view() =~= snapshot_fields(s));
            lemma_dec_digits_safe(s.client as nat);
            lemma_amount_str_safe(s.available@);
            lemma_amount_str_safe(s.held@);
            lemma_amount_str_safe(s.total@);
            assert(csv_safe("true"@));
            assert(csv_safe("false"@));
            assert(forall|i: int|
                0 <= i < fields@.len() ==> csv_safe((#[trigger] fields@[i])@) && fields@[i]@.len()
                    > 0);
        }
        out.append(csv_line(&fields).as_str());
        k += 1;
        proof {
            assert(snaps@.take(k as int).drop_last() =~= snaps@.take(k - 1));
            assert(snaps@.take(k as int).last() == snaps@[k - 1]);
        }
    }
    proof {
        assert(snaps@.take(snaps@.len() as int) =~= snaps@);
    }
    out
}

} // verus!
