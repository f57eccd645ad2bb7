//! The table of transactions: which client address runs which transaction,
//! and the state of each transaction.
use vstd::prelude::*;
use crate::text::string_view_fn;
use std::collections::HashMap;
use crate::text::same_text;
use crate::transactions::transactions::{TransactionItems, TransactionStatus};

verus! {

broadcast use vstd::std_specs::hash::group_hash_axioms;

/// The transactions known to the server: each one's record by its number,
/// and for each client address (written as text) the number of its current
/// transaction.
#[derive(Debug)]
pub struct Transaction {
    pub items: HashMap<u32, TransactionItems>,
    pub ip_txd: Vec<(String, u32)>,
}

/// The model of what is kept about a transaction.
pub struct TxnView {
    pub status: TransactionStatus,
    pub last_txd: u32,
    pub modified_keys: Seq<u32>,
    pub visible_max: u32,
}

impl View for TransactionItems {
    type V = TxnView;

    open spec fn view(&self) -> TxnView {
        TxnView {
            status: self.status,
            last_txd: self.last_txd,
            modified_keys: self.modified_keys@,
            visible_max: self.visible_max,
        }
    }
}

/// The model of the table: the transaction records by number and the
/// address table, in the order addresses first appeared.
pub struct TableView {
    pub items: Map<u32, TxnView>,
    pub ip: Seq<(Seq<char>, u32)>,
}

pub open spec fn txn_view_fn() -> spec_fn(TransactionItems) -> TxnView {
    |t: TransactionItems| t@
}

pub open spec fn addr_view_fn() -> spec_fn((String, u32)) -> (Seq<char>, u32) {
    |p: (String, u32)| (p.0@, p.1)
}

impl View for Transaction {
    type V = TableView;

    open spec fn view(&self) -> TableView {
        TableView {
            items: self.items@.map_values(txn_view_fn()),
            ip: self.ip_txd@.map_values(addr_view_fn()),
        }
    }
}

/// The position of the first entry of `addr` in the address table, from
/// position `i` on.
pub open spec fn find_addr_from(ip: Seq<(Seq<char>, u32)>, addr: Seq<char>, i: int) -> Option<int>
    decreases ip.len() - i,
{
    if i < 0 || i >= ip.len() {
        None
    } else if ip[i].0 == addr {
        Some(i)
    } else {
        find_addr_from(ip, addr, i + 1)
    }
}

pub open spec fn find_addr(ip: Seq<(Seq<char>, u32)>, addr: Seq<char>) -> Option<int> {
    find_addr_from(ip, addr, 0)
}

/// The current transaction of a client address.
pub open spec fn spec_txd_of(t: TableView, addr: Seq<char>) -> Option<u32> {
    match find_addr(t.ip, addr) {
        Some(i) => Some(t.ip[i].1),
        None => None,
    }
}

pub proof fn lemma_find_addr_from(ip: Seq<(Seq<char>, u32)>, addr: Seq<char>, i: int)
    requires
        0 <= i,
    ensures
        match find_addr_from(ip, addr, i) {
            Some(k) => i <= k < ip.len() && ip[k].0 == addr && forall|j: int|
                i <= j < k ==> ip[j].0 != addr,
            None => forall|j: int| i <= j < ip.len() ==> ip[j].0 != addr,
        },
    decreases ip.len() - i,
{
    if i < ip.len() {
        lemma_find_addr_from(ip, addr, i + 1);
    }
}

/// A fresh, active transaction record that follows `last_txd`.
pub open spec fn fresh_txn(last_txd: u32) -> TxnView {
    TxnView {
        status: TransactionStatus::Active,
        last_txd,
        modified_keys: Seq::empty(),
        visible_max: 0,
    }
}

/// What a `begin` did.
#[derive(Debug, Clone, Copy, PartialEq, Eq, Structural)]
pub enum BeginOutcome {
    /// A new transaction was started, with this number.
    Started(u32),
    /// The address's transaction is still active: nothing changed.
    StillActive,
    /// The address's transaction has no record: the counter moved on and
    /// nothing else changed.
    NoRecord,
    /// The counter of transaction numbers is exhausted: nothing changed.
    Exhausted,
}

/// What a commit or an abort did.
#[derive(Debug, PartialEq, Eq)]
pub enum EndOutcome {
    /// The transaction was ended; these are the keys it wrote.
    Ended(Vec<u32>),
    /// The address's transaction is not active.
    NotActive,
    /// The address's transaction has no record.
    NoRecord,
    /// The address has no transaction.
    NoTransaction,
}

/// The table and the counter after a `begin` from `addr`, and its outcome.
/// The counter moves to the next number; an address seen for the first
/// time gets a new transaction with that number; an address whose
/// transaction has ended gets a new one that follows it, and the ended
/// record is dropped; an address whose transaction is still active keeps it
/// and the counter moves back.
pub open spec fn spec_begin(t: TableView, addr: Seq<char>, count: u32) -> (TableView, u32, BeginOutcome) {
    if count == u32::MAX {
        (t, count, BeginOutcome::Exhausted)
    } else {
        let c = (count + 1) as u32;
        match find_addr(t.ip, addr) {
            Some(i) => {
                let x = t.ip[i].1;
                if t.items.contains_key(x) {
                    if t.items[x].status == TransactionStatus::Committed || t.items[x].status
                        == TransactionStatus::Aborted {
                        (
                            TableView {
                                items: t.items.insert(c, fresh_txn(x)).remove(x),
                                ip: t.ip.update(i, (addr, c)),
                            },
                            c,
                            BeginOutcome::Started(c),
                        )
                    } else {
                        (t, count, BeginOutcome::StillActive)
                    }
                } else {
                    (t, c, BeginOutcome::NoRecord)
                }
            },
            None => (
                TableView { items: t.items.insert(c, fresh_txn(0)), ip: t.ip.push((addr, c)) },
                c,
                BeginOutcome::Started(c),
            ),
        }
    }
}

/// The view of an ending: which outcome, and the keys written where it ended.
pub open spec fn end_view(o: EndOutcome) -> (int, Seq<u32>) {
    match o {
        EndOutcome::Ended(keys) => (0, keys@),
        EndOutcome::NotActive => (1, Seq::empty()),
        EndOutcome::NoRecord => (2, Seq::empty()),
        EndOutcome::NoTransaction => (3, Seq::empty()),
    }
}

/// The table after a commit (or an abort) from `addr`, and its outcome:
/// the address's active transaction takes the new status and its written
/// keys are handed back; anything else changes nothing.
pub open spec fn spec_end(t: TableView, addr: Seq<char>, commit: bool) -> (TableView, (int, Seq<u32>)) {
    match spec_txd_of(t, addr) {
        None => (t, (3, Seq::empty())),
        Some(x) => if !t.items.contains_key(x) {
            (t, (2, Seq::empty()))
        } else if t.items[x].status != TransactionStatus::Active {
            (t, (1, Seq::empty()))
        } else {
            let st = if commit {
                TransactionStatus::Committed
            } else {
                TransactionStatus::Aborted
            };
            (
                TableView { items: t.items.insert(x, TxnView { status: st, ..t.items[x] }), ip: t.ip },
                (0, t.items[x].modified_keys),
            )
        },
    }
}

/// The transactions of the given addresses that are active.
pub open spec fn active_of(t: TableView, addrs: Seq<Seq<char>>) -> Set<u32> {
    Set::new(
        |x: u32|
            exists|a: int|
                0 <= a < addrs.len() && spec_txd_of(t, #[trigger] addrs[a]) == Some(x)
                    && t.items.contains_key(x) && t.items[x].status == TransactionStatus::Active,
    )
}

impl Transaction {
    /// An empty table.
    pub fn new() -> (r: Transaction)
        ensures
            r@.items == Map::<u32, TxnView>::empty(),
            r@.ip == Seq::<(Seq<char>, u32)>::empty(),
    {
        let r = Transaction { items: HashMap::new(), ip_txd: Vec::new() };
        assert(r@.items =~= Map::<u32, TxnView>::empty());
        assert(r@.ip =~= Seq::<(Seq<char>, u32)>::empty());
        r
    }

    fn position_of(&self, addr: &str) -> (r: Option<usize>)
        ensures
            match r {
                Some(i) => find_addr(self@.ip, addr@) == Some(i as int) && i < self.ip_txd@.len(),
                None => find_addr(self@.ip, addr@) is None,
            },
    {
        let mut i: usize = 0;
        while i < self.ip_txd.len()
            invariant
                i <= self.ip_txd@.len(),
                self@.ip == self.ip_txd@.map_values(addr_view_fn()),
                find_addr_from(self@.ip, addr@, i as int) == find_addr(self@.ip, addr@),
            decreases self.ip_txd@.len() - i,
        {
            if same_text(self.ip_txd[i].0.as_str(), addr) {
                return Some(i);
            }
            i += 1;
        }
        None
    }

    /// The current transaction of a client address.
    pub fn txd_of(&self, addr: &str) -> (r: Option<u32>)
        ensures
            r == spec_txd_of(self@, addr@),
    {
        match self.position_of(addr) {
            Some(i) => Some(self.ip_txd[i].1),
            None => None,
        }
    }

    /// Starts a transaction for `addr` (see `spec_begin`).
    pub fn begin(&mut self, addr: &str, txd_count: &mut u32) -> (r: BeginOutcome)
        ensures
            (final(self)@, *final(txd_count), r) == spec_begin(old(self)@, addr@, *old(txd_count)),
    {
        if *txd_count == u32::MAX {
            return BeginOutcome::Exhausted;
        }
        let c = *txd_count + 1;
        match self.position_of(addr) {
            Some(i) => {
                let x = self.ip_txd[i].1;
                let st = match self.items.get(&x) {
                    Some(item) => Some(item.status),
                    None => None,
                };
                match st {
                    Some(status) => {
                        if status == TransactionStatus::Committed || status
                            == TransactionStatus::Aborted {
                            let fresh = TransactionItems {
                                status: TransactionStatus::Active,
                                last_txd: x,
                                modified_keys: Vec::new(),
                                visible_max: 0,
                            };
                            assert(fresh@ == fresh_txn(x));
                            self.items.insert(c, fresh);
                            self.items.remove(&x);
                            let mut name = String::new();
                            crate::text::push_text(&mut name, addr);
                            proof {
                                assert(name@ =~= addr@);
                            }
                            self.ip_txd.set(i, (name, c));
                            *txd_count = c;
                            assert(self@.ip =~= old(self)@.ip.update(i as int, (addr@, c)));
                            assert(self@.items =~= old(self)@.items.insert(c, fresh_txn(x)).remove(x));
                            BeginOutcome::Started(c)
                        } else {
                            BeginOutcome::StillActive
                        }
                    },
                    None => {
                        *txd_count = c;
                        BeginOutcome::NoRecord
                    },
                }
            },
            None => {
                let fresh = TransactionItems {
                    status: TransactionStatus::Active,
                    last_txd: 0,
                    modified_keys: Vec::new(),
                    visible_max: 0,
                };
                assert(fresh@ == fresh_txn(0));
                self.items.insert(c, fresh);
                let mut name = String::new();
                crate::text::push_text(&mut name, addr);
                proof {
                    assert(name@ =~= addr@);
                }
                self.ip_txd.push((name, c));
                *txd_count = c;
                assert(self@.ip =~= old(self)@.ip.push((addr@, c)));
                assert(self@.items =~= old(self)@.items.insert(c, fresh_txn(0)));
                BeginOutcome::Started(c)
            },
        }
    }

    /// Commits (`commit`) or aborts the transaction of `addr` (see
    /// `spec_end`).
    pub fn end_transaction(&mut self, addr: &str, commit: bool) -> (r: EndOutcome)
        ensures
            (final(self)@, end_view(r)) == spec_end(old(self)@, addr@, commit),
    {
        let x = match self.txd_of(addr) {
            Some(x) => x,
            None => return EndOutcome::NoTransaction,
        };
        match self.items.remove(&x) {
            None => {
                assert(self@.items =~= old(self)@.items);
                EndOutcome::NoRecord
            },
            Some(item) => {
                if item.status != TransactionStatus::Active {
                    self.items.insert(x, item);
                    assert(self@.items =~= old(self)@.items);
                    return EndOutcome::NotActive;
                }
                let keys = crate::transactions::manager::copy_keys(&item.modified_keys);
                let TransactionItems { status: _, last_txd, modified_keys, visible_max } = item;
                let status = if commit {
                    TransactionStatus::Committed
                } else {
                    TransactionStatus::Aborted
                };
                let ended = TransactionItems { status, last_txd, modified_keys, visible_max };
                self.items.insert(x, ended);
                assert(self@.items =~= old(self)@.items.insert(
                    x,
                    TxnView { status, ..old(self)@.items[x] },
                ));
                EndOutcome::Ended(keys)
            },
        }
    }

    /// Records that transaction `txd` wrote `key`, if the transaction has a
    /// record.
    pub fn note_modified_key(&mut self, txd: u32, key: u32)
        ensures
            final(self)@.ip == old(self)@.ip,
            final(self)@.items == if old(self)@.items.contains_key(txd) {
                old(self)@.items.insert(
                    txd,
                    TxnView {
                        modified_keys: old(self)@.items[txd].modified_keys.push(key),
                        ..old(self)@.items[txd]
                    },
                )
            } else {
                old(self)@.items
            },
    {
        match self.items.remove(&txd) {
            None => {
                assert(self@.items =~= old(self)@.items);
            },
            Some(item) => {
                let mut item = item;
                item.modified_keys.push(key);
                self.items.insert(txd, item);
                assert(self@.items =~= old(self)@.items.insert(
                    txd,
                    TxnView {
                        modified_keys: old(self)@.items[txd].modified_keys.push(key),
                        ..old(self)@.items[txd]
                    },
                ));
            },
        }
    }
}

/// A copy of a list of keys.
pub fn copy_keys(v: &Vec<u32>) -> (r: Vec<u32>)
    ensures
        r@ == v@,
{
    let mut r: Vec<u32> = Vec::new();
    let mut i: usize = 0;
    while i < v.len()
        invariant
            i <= v@.len(),
            r@ == v@.take(i as int),
        decreases v@.len() - i,
    {
        r.push(v[i]);
        assert(v@.take(i + 1) =~= v@.take(i as int).push(v@[i as int]));
        i += 1;
    }
    assert(v@.take(i as int) =~= v@);
    r
}

/// The oldest (smallest) active transaction among those of the given
/// addresses, if any.
pub fn get_oldest_active_txd(current_transactions: &Transaction, all_addr: &Vec<String>) -> (r: Option<
    u32,
>)
    ensures
        match r {
            Some(m) => active_of(current_transactions@, all_addr@.map_values(string_view_fn())).contains(
                m,
            ) && forall|x: u32|
                active_of(current_transactions@, all_addr@.map_values(string_view_fn())).contains(x)
                    ==> m <= x,
            None => active_of(current_transactions@, all_addr@.map_values(string_view_fn()))
                =~= Set::<u32>::empty(),
        },
{
    let ghost addrs = all_addr@.map_values(string_view_fn());
    let ghost t = current_transactions@;
    let mut best: Option<u32> = None;
    let mut i: usize = 0;
    while i < all_addr.len()
        invariant
            i <= all_addr@.len(),
            addrs == all_addr@.map_values(string_view_fn()),
            t == current_transactions@,
            match best {
                Some(m) => active_of(t, addrs.take(i as int)).contains(m) && forall|x: u32|
                    active_of(t, addrs.take(i as int)).contains(x) ==> m <= x,
                None => forall|x: u32| !active_of(t, addrs.take(i as int)).contains(x),
            },
        decreases all_addr@.len() - i,
    {
        let ghost before = best;
        let found = current_transactions.txd_of(all_addr[i].as_str());
        let ghost now = addrs.take(i + 1);
        assert(now[i as int] == all_addr@[i as int]@);
        let mut is_active = false;
        if let Some(x) = found {
            match current_transactions.items.get(&x) {
                Some(item) => {
                    is_active = item.status == TransactionStatus::Active;
                },
                None => {},
            }
        }
        assert forall|x: u32| #[trigger] active_of(t, now).contains(x) <==> (active_of(
            t,
            addrs.take(i as int),
        ).contains(x) || (is_active && found == Some(x))) by {
            if active_of(t, now).contains(x) {
                let a = choose|a: int|
                    0 <= a < now.len() && spec_txd_of(t, #[trigger] now[a]) == Some(x)
                        && t.items.contains_key(x) && t.items[x].status == TransactionStatus::Active;
                if a < i {
                    assert(addrs.take(i as int)[a] == now[a]);
                }
            }
            if active_of(t, addrs.take(i as int)).contains(x) {
                let a = choose|a: int|
                    0 <= a < i && spec_txd_of(t, #[trigger] addrs.take(i as int)[a]) == Some(x)
                        && t.items.contains_key(x) && t.items[x].status == TransactionStatus::Active;
                assert(now[a] == addrs.take(i as int)[a]);
            }
            if is_active && found == Some(x) {
                assert(spec_txd_of(t, now[i as int]) == Some(x));
            }
        }
        if is_active {
            let x = found.unwrap();
            match best {
                Some(m) => {
                    if x < m {
                        best = Some(x);
                    }
                },
                None => {
                    best = Some(x);
                },
            }
        }
        i += 1;
    }
    assert(addrs.take(i as int) =~= addrs);
    best
}

/// Every transaction the address table names was handed out by the
/// counter.
pub open spec fn numbers_handed_out(t: TableView, count: u32) -> bool {
    forall|i: int| 0 <= i < t.ip.len() ==> (#[trigger] t.ip[i]).1 <= count
}

/// A `begin` keeps every number in the address table handed out.
pub proof fn law_begin_keeps_numbers_handed_out(t: TableView, addr: Seq<char>, count: u32)
    requires
        numbers_handed_out(t, count),
    ensures
        numbers_handed_out(spec_begin(t, addr, count).0, spec_begin(t, addr, count).1),
{
    lemma_find_addr_from(t.ip, addr, 0);
    let (t1, c1, _) = spec_begin(t, addr, count);
    assert forall|i: int| 0 <= i < t1.ip.len() implies (#[trigger] t1.ip[i]).1 <= c1 by {
        if i < t.ip.len() && t1.ip[i] == t.ip[i] {
            assert(t.ip[i].1 <= count);
        }
    }
}

/// No address appears twice in the address table.
pub open spec fn addresses_distinct(ip: Seq<(Seq<char>, u32)>) -> bool {
    forall|i: int, j: int| 0 <= i < j < ip.len() ==> (#[trigger] ip[i]).0 != (#[trigger] ip[j]).0
}

/// A `begin` keeps every address at most once in the table.
pub proof fn law_begin_keeps_addresses_distinct(t: TableView, addr: Seq<char>, count: u32)
    requires
        addresses_distinct(t.ip),
    ensures
        addresses_distinct(spec_begin(t, addr, count).0.ip),
{
    lemma_find_addr_from(t.ip, addr, 0);
    let ip2 = spec_begin(t, addr, count).0.ip;
    assert forall|i: int, j: int| 0 <= i < j < ip2.len() implies (#[trigger] ip2[i]).0 != (#[trigger] ip2[j]).0 by {
        if find_addr(t.ip, addr) is None && count != u32::MAX {
            if j == t.ip.len() {
                assert(ip2[j].0 == addr);
                assert(ip2[i] == t.ip[i]);
            } else {
                assert(ip2[i] == t.ip[i] && ip2[j] == t.ip[j]);
            }
        }
    }
}

/// After a `begin` that starts a transaction, the address runs that
/// transaction, which is active and has written nothing; a commit from the
/// address then ends it as committed, handing back no keys.
pub proof fn law_begin_then_commit(t: TableView, addr: Seq<char>, count: u32)
    requires
        numbers_handed_out(t, count),
        spec_begin(t, addr, count).2 is Started,
    ensures
        ({
            let (t1, _, out) = spec_begin(t, addr, count);
            let c = out->Started_0;
            &&& spec_txd_of(t1, addr) == Some(c)
            &&& t1.items.contains_key(c)
            &&& t1.items[c].status == TransactionStatus::Active
            &&& t1.items[c].modified_keys.len() == 0
            &&& spec_end(t1, addr, true).1 == (0int, Seq::<u32>::empty())
            &&& spec_end(t1, addr, true).0.items[c].status == TransactionStatus::Committed
        }),
{
    lemma_find_addr_from(t.ip, addr, 0);
    let (t1, _, out) = spec_begin(t, addr, count);
    let c = out->Started_0;
    lemma_find_addr_from(t1.ip, addr, 0);
    match find_addr(t.ip, addr) {
        Some(i) => {
            let x = t.ip[i].1;
            assert(t1.ip[i] == (addr, c));
            if find_addr(t1.ip, addr) != Some(i) {
                let k = find_addr(t1.ip, addr)->0;
                assert(k < i ==> t1.ip[k] == t.ip[k]);
            }
            assert(x <= count);
        },
        None => {
            let n = t.ip.len() as int;
            assert(t1.ip[n] == (addr, c));
            if find_addr(t1.ip, addr) != Some(n) {
                let k = find_addr(t1.ip, addr)->0;
                assert(t1.ip[k] == t.ip[k]);
            }
        },
    }
}

} // verus!
