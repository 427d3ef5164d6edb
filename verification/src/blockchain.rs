//! A ledger as relations: blocks `(block_id, prev_hash, hash)` and
//! transactions `(tx_id, from, to, amount, block_id)`. Balances are the sums
//! of the distinct movements `(tx_id, from, -amount)` and
//! `(tx_id, to, amount)` per account.
use vstd::prelude::*;
use crate::graph::{contains_key, push_unique, views, Key};

verus! {

broadcast use vstd::seq_lib::group_seq_properties;

/// A block of the chain.
#[derive(Clone, Debug, PartialEq, Eq)]
pub struct Block {
    pub block_id: i64,
    pub prev_hash: String,
    pub hash: String,
}

/// A transfer of `amount` from one account to another.
#[derive(Clone, Debug, PartialEq, Eq)]
pub struct Transaction {
    pub tx_id: String,
    pub from: String,
    pub to: String,
    pub amount: i64,
    pub block_id: i64,
}

/// The balance of one account.
#[derive(Clone, Debug, PartialEq, Eq)]
pub struct Balance {
    pub account: String,
    pub balance: i64,
}

impl View for Block {
    type V = (i64, Seq<char>, Seq<char>);

    open spec fn view(&self) -> Self::V {
        (self.block_id, self.prev_hash@, self.hash@)
    }
}

/// Blocks and transactions.
pub struct Blockchain {
    pub blocks: Vec<Block>,
    pub transactions: Vec<Transaction>,
}

/// A movement of money: transaction, account, signed amount.
pub type Movement = (Seq<char>, Seq<char>, int);

/// Negation that saturates at `i64::MAX`.
pub open spec fn saturating_neg(a: i64) -> int {
    if a == i64::MIN {
        i64::MAX as int
    } else {
        -a
    }
}

/// The debits of the transactions, in order.
pub open spec fn debits(txs: Seq<Transaction>) -> Seq<Movement> {
    txs.map_values(|t: Transaction| (t.tx_id@, t.from@, saturating_neg(t.amount)))
}

/// The credits of the transactions, in order.
pub open spec fn credits(txs: Seq<Transaction>) -> Seq<Movement> {
    txs.map_values(|t: Transaction| (t.tx_id@, t.to@, t.amount as int))
}

/// All movements: the debits, then the credits.
pub open spec fn movements(txs: Seq<Transaction>) -> Seq<Movement> {
    debits(txs) + credits(txs)
}

/// The sum of the distinct movements of account `acc`.
pub open spec fn account_sum(s: Seq<Movement>, acc: Seq<char>) -> int
    decreases s.len(),
{
    if s.len() == 0 {
        0
    } else {
        let rest = s.drop_last();
        let e = s.last();
        account_sum(rest, acc) + if e.1 == acc && !rest.contains(e) {
            e.2
        } else {
            0
        }
    }
}

/// `acc` sends or receives in some transaction.
pub open spec fn is_account(txs: Seq<Transaction>, acc: Seq<char>) -> bool {
    exists|i: int| 0 <= i < txs.len() && (#[trigger] txs[i].from@ == acc || txs[i].to@ == acc)
}

/// Every account's balance fits in `i64`.
pub open spec fn balances_fit(txs: Seq<Transaction>) -> bool {
    forall|acc: Seq<char>|
        #[trigger] is_account(txs, acc) ==> i64::MIN <= account_sum(movements(txs), acc) <= i64::MAX
}

/// `out` lists account `acc`.
pub open spec fn lists_account(out: Seq<Balance>, acc: Seq<char>) -> bool {
    exists|k: int| 0 <= k < out.len() && #[trigger] out[k].account@ == acc
}

/// The movements as integers.
pub open spec fn movement_views(v: Seq<(String, String, i128)>) -> Seq<Movement> {
    v.map_values(|e: (String, String, i128)| (e.0@, e.1@, e.2 as int))
}

/// Block `c` follows block `p` by id.
pub open spec fn follows(c: Block, p: Block) -> bool {
    c.block_id == if p.block_id == i64::MAX {
        i64::MAX as int
    } else {
        p.block_id + 1
    }
}

/// The number of pairs `(c, p)` with `c` among the first `k` blocks that
/// follows `p`.
pub open spec fn link_count(bs: Seq<Block>, k: int) -> nat
    decreases k,
{
    if k <= 0 {
        0
    } else {
        link_count(bs, k - 1) + links_to(bs, bs[k - 1], bs.len() as int)
    }
}

/// The number of the first `k` blocks that `c` follows.
pub open spec fn links_to(bs: Seq<Block>, c: Block, k: int) -> nat
    decreases k,
{
    if k <= 0 {
        0
    } else {
        links_to(bs, c, k - 1) + if follows(c, bs[k - 1]) {
            1nat
        } else {
            0nat
        }
    }
}

/// Some block follows another whose hash is not its `prev_hash`.
pub open spec fn broken_link(bs: Seq<Block>) -> bool {
    exists|i: int, j: int|
        #![trigger bs[i], bs[j]]
        0 <= i < bs.len() && 0 <= j < bs.len() && follows(bs[i], bs[j]) && bs[i].prev_hash@ != bs[j].hash@
}

/// Some account other than "Mint" has a negative balance.
pub open spec fn overdrawn(txs: Seq<Transaction>) -> bool {
    exists|acc: Seq<char>|
        #[trigger] is_account(txs, acc) && acc != "Mint"@ && account_sum(movements(txs), acc) < 0
}

/// The sum of the distinct movements of account `acc`.
fn sum_for(moves: &Vec<(String, String, i128)>, acc: &String) -> (n: i128)
    requires
        forall|k: int|
            0 <= k < moves@.len() ==> -0x8000_0000_0000_0000 <= (#[trigger] moves@[k]).2
                <= 0x8000_0000_0000_0000,
    ensures
        n == account_sum(movement_views(moves@), acc@),
{
    let ghost mv = movement_views(moves@);
    let mut total: i128 = 0;
    let mut k: usize = 0;
    let len = moves.len();
    while k < len
        invariant
            mv == movement_views(moves@),
            len == moves@.len(),
            k <= len,
            forall|x: int|
                0 <= x < moves@.len() ==> -0x8000_0000_0000_0000 <= (#[trigger] moves@[x]).2
                    <= 0x8000_0000_0000_0000,
            total == account_sum(mv.take(k as int), acc@),
            -(k as int) * 0x8000_0000_0000_0000 <= total <= (k as int) * 0x8000_0000_0000_0000,
        decreases len - k,
    {
        let ghost pre = mv.take(k as int);
        assert(mv.take(k + 1).drop_last() == pre);
        assert(mv.take(k + 1).last() == mv[k as int]);
        let e = &moves[k];
        if e.1 == *acc {
            let mut seen = false;
            let mut m: usize = 0;
            while m < k
                invariant
                    mv == movement_views(moves@),
                    pre == mv.take(k as int),
                    k < moves@.len(),
                    m <= k,
                    e == moves@[k as int],
                    seen == exists|x: int| 0 <= x < m && #[trigger] pre[x] == mv[k as int],
                decreases k - m,
            {
                if moves[m].0 == e.0 && moves[m].1 == e.1 && moves[m].2 == e.2 {
                    assert(pre[m as int] == mv[k as int]);
                    seen = true;
                } else {
                    assert(pre[m as int] != mv[k as int]);
                }
                proof {
                    if !seen {
                        assert forall|x: int| 0 <= x < m + 1 implies #[trigger] pre[x] != mv[k as int] by {}
                    }
                }
                m = m + 1;
            }
            assert(seen == pre.contains(mv[k as int]));
            if !seen {
                total = total + e.2;
            }
        }
        k = k + 1;
    }
    assert(mv.take(len as int) == mv);
    total
}

impl Blockchain {
    /// A chain over the given relations.
    pub fn new(blocks: Vec<Block>, transactions: Vec<Transaction>) -> (bc: Self)
        ensures
            bc.blocks == blocks,
            bc.transactions == transactions,
    {
        Blockchain { blocks, transactions }
    }

    /// The movements of all transactions: debits, then credits.
    fn collect_movements(&self) -> (moves: Vec<(String, String, i128)>)
        ensures
            movement_views(moves@) == movements(self.transactions@),
            forall|k: int|
                0 <= k < moves@.len() ==> -0x8000_0000_0000_0000 <= (#[trigger] moves@[k]).2
                    <= 0x8000_0000_0000_0000,
    {
        let ghost txs = self.transactions@;
        let mut moves: Vec<(String, String, i128)> = Vec::new();
        let mut i: usize = 0;
        while i < self.transactions.len()
            invariant
                txs == self.transactions@,
                i <= txs.len(),
                movement_views(moves@) == debits(txs.take(i as int)),
                forall|k: int|
                    0 <= k < moves@.len() ==> -0x8000_0000_0000_0000 <= (#[trigger] moves@[k]).2
                        <= 0x8000_0000_0000_0000,
            decreases txs.len() - i,
        {
            let t = &self.transactions[i];
            let d: i128 = if t.amount == i64::MIN {
                i64::MAX as i128
            } else {
                -(t.amount as i128)
            };
            let ghost before = moves@;
            moves.push((t.tx_id.clone(), t.from.clone(), d));
            assert(txs.take(i + 1) == txs.take(i as int).push(txs[i as int]));
            assert(movement_views(moves@) =~= movement_views(before).push((t.tx_id@, t.from@, saturating_neg(t.amount))));
            assert(debits(txs.take(i + 1)) =~= debits(txs.take(i as int)).push((t.tx_id@, t.from@, saturating_neg(t.amount))));
            i = i + 1;
        }
        assert(txs.take(txs.len() as int) == txs);
        let ghost dn = moves@.len();
        let mut i: usize = 0;
        while i < self.transactions.len()
            invariant
                txs == self.transactions@,
                i <= txs.len(),
                movement_views(moves@) == debits(txs) + credits(txs.take(i as int)),
                forall|k: int|
                    0 <= k < moves@.len() ==> -0x8000_0000_0000_0000 <= (#[trigger] moves@[k]).2
                        <= 0x8000_0000_0000_0000,
            decreases txs.len() - i,
        {
            let t = &self.transactions[i];
            let ghost before = moves@;
            moves.push((t.tx_id.clone(), t.to.clone(), t.amount as i128));
            assert(txs.take(i + 1) == txs.take(i as int).push(txs[i as int]));
            assert(movement_views(moves@) =~= movement_views(before).push((t.tx_id@, t.to@, t.amount as int)));
            assert(credits(txs.take(i + 1)) =~= credits(txs.take(i as int)).push((t.tx_id@, t.to@, t.amount as int)));
            i = i + 1;
        }
        assert(txs.take(txs.len() as int) == txs);
        moves
    }
}

/// Every movement belongs to an account of the transactions, and every
/// account has a movement.
proof fn lemma_movement_accounts(txs: Seq<Transaction>, acc: Seq<char>)
    ensures
        is_account(txs, acc) <==> exists|k: int| 0 <= k < movements(txs).len() && #[trigger] movements(txs)[k].1 == acc,
{
    let m = movements(txs);
    let n = txs.len();
    assert(m.len() == 2 * n);
    if is_account(txs, acc) {
        let i = choose|i: int| 0 <= i < txs.len() && (#[trigger] txs[i].from@ == acc || txs[i].to@ == acc);
        if txs[i].from@ == acc {
            assert(m[i].1 == acc);
        } else {
            assert(m[n + i].1 == acc);
        }
    }
    if exists|k: int| 0 <= k < m.len() && #[trigger] m[k].1 == acc {
        let k = choose|k: int| 0 <= k < m.len() && #[trigger] m[k].1 == acc;
        if k < n {
            assert(txs[k].from@ == acc);
        } else {
            assert(txs[k - n].to@ == acc);
            assert(txs[k - n].from@ == txs[k - n].from@);
        }
        assert(is_account(txs, acc));
    }
}

/// Some of the first `k` movements belongs to `acc`.
pub open spec fn moved_before(mv: Seq<Movement>, k: int, acc: Seq<char>) -> bool {
    exists|x: int| 0 <= x < k && #[trigger] mv[x].1 == acc
}

impl Blockchain {
    /// The balance of every account, each account once.
    pub fn compute_balances(&self) -> (out: Vec<Balance>)
        requires
            balances_fit(self.transactions@),
        ensures
            forall|k: int|
                0 <= k < out@.len() ==> is_account(self.transactions@, (#[trigger] out@[k]).account@)
                    && out@[k].balance == account_sum(movements(self.transactions@), out@[k].account@),
            forall|acc: Seq<char>| #[trigger] is_account(self.transactions@, acc) ==> lists_account(out@, acc),
            forall|a: int, b: int|
                0 <= a < b < out@.len() ==> (#[trigger] out@[a]).account@ != (#[trigger] out@[b]).account@,
    {
        let ghost txs = self.transactions@;
        let moves = self.collect_movements();
        let ghost mv = movement_views(moves@);
        let mut accounts: Vec<String> = Vec::new();
        let mut k: usize = 0;
        while k < moves.len()
            invariant
                mv == movement_views(moves@),
                k <= moves@.len(),
                views(accounts@).no_duplicates(),
                forall|a: Seq<char>| #[trigger] views(accounts@).contains(a) <==> moved_before(mv, k as int, a),
            decreases moves@.len() - k,
        {
            push_unique(&mut accounts, moves[k].1.clone());
            proof {
                assert(mv[k as int].1 == moves@[k as int].1@);
                assert forall|a: Seq<char>| #[trigger] views(accounts@).contains(a) <==> moved_before(mv, k + 1, a) by {
                    if moved_before(mv, k + 1, a) && !moved_before(mv, k as int, a) {
                        let x = choose|x: int| 0 <= x < k + 1 && #[trigger] mv[x].1 == a;
                        assert(x == k);
                    }
                    if moved_before(mv, k as int, a) {
                        let x = choose|x: int| 0 <= x < k && #[trigger] mv[x].1 == a;
                        assert(moved_before(mv, k + 1, a));
                    }
                }
            }
            k = k + 1;
        }
        proof {
            assert forall|a: Seq<char>| #[trigger] views(accounts@).contains(a) <==> is_account(txs, a) by {
                lemma_movement_accounts(txs, a);
                if moved_before(mv, mv.len() as int, a) {
                    let x = choose|x: int| 0 <= x < mv.len() && #[trigger] mv[x].1 == a;
                    assert(movements(txs)[x].1 == a);
                }
                if is_account(txs, a) {
                    let x = choose|x: int| 0 <= x < movements(txs).len() && #[trigger] movements(txs)[x].1 == a;
                    assert(mv[x].1 == a);
                }
            }
        }
        let mut out: Vec<Balance> = Vec::new();
        let mut j: usize = 0;
        while j < accounts.len()
            invariant
                txs == self.transactions@,
                mv == movement_views(moves@),
                mv == movements(txs),
                balances_fit(txs),
                forall|x: int|
                    0 <= x < moves@.len() ==> -0x8000_0000_0000_0000 <= (#[trigger] moves@[x]).2
                        <= 0x8000_0000_0000_0000,
                views(accounts@).no_duplicates(),
                forall|a: Seq<char>| #[trigger] views(accounts@).contains(a) <==> is_account(txs, a),
                j <= accounts@.len(),
                out@.len() == j,
                forall|x: int| 0 <= x < j ==> (#[trigger] out@[x]).account@ == accounts@[x]@,
                forall|x: int| 0 <= x < j ==> (#[trigger] out@[x]).balance == account_sum(mv, accounts@[x]@),
            decreases accounts@.len() - j,
        {
            let a = &accounts[j];
            assert(views(accounts@)[j as int] == a@);
            assert(views(accounts@).contains(a@));
            assert(is_account(txs, a@));
            let total = sum_for(&moves, a);
            out.push(Balance { account: a.clone(), balance: total as i64 });
            j = j + 1;
        }
        proof {
            assert forall|k: int|
                0 <= k < out@.len() implies is_account(txs, (#[trigger] out@[k]).account@) && out@[k].balance
                    == account_sum(movements(txs), out@[k].account@) by {
                assert(views(accounts@)[k] == accounts@[k]@);
                assert(views(accounts@).contains(accounts@[k]@));
            }
            assert forall|acc: Seq<char>| #[trigger] is_account(txs, acc) implies lists_account(out@, acc) by {
                assert(views(accounts@).contains(acc));
                let x = choose|x: int| 0 <= x < views(accounts@).len() && views(accounts@)[x] == acc;
                assert(out@[x].account@ == acc);
            }
            assert forall|a: int, b: int| 0 <= a < b < out@.len() implies (#[trigger] out@[a]).account@
                != (#[trigger] out@[b]).account@ by {
                assert(views(accounts@)[a] != views(accounts@)[b]);
            }
        }
        out
    }
}

proof fn lemma_links_to_mono(bs: Seq<Block>, c: Block, a: int, b: int)
    requires
        a <= b,
    ensures
        links_to(bs, c, a) <= links_to(bs, c, b),
    decreases b - a,
{
    if a < b {
        lemma_links_to_mono(bs, c, a, b - 1);
    }
}

proof fn lemma_link_count_mono(bs: Seq<Block>, a: int, b: int)
    requires
        a <= b,
    ensures
        link_count(bs, a) <= link_count(bs, b),
    decreases b - a,
{
    if a < b {
        lemma_link_count_mono(bs, a, b - 1);
    }
}

/// Whether block `c` follows block `p` by id.
fn block_follows(c: &Block, p: &Block) -> (b: bool)
    ensures
        b == follows(*c, *p),
{
    let next: i64 = if p.block_id == i64::MAX {
        i64::MAX
    } else {
        p.block_id + 1
    };
    c.block_id == next
}

impl Blockchain {
    /// Whether the number of `(block, predecessor)` pairs is `expected`.
    fn link_count_is(&self, expected: usize) -> (b: bool)
        ensures
            b == (link_count(self.blocks@, self.blocks@.len() as int) == expected),
    {
        let ghost bs = self.blocks@;
        let n = self.blocks.len();
        let mut count: usize = 0;
        let mut i: usize = 0;
        while i < n
            invariant
                bs == self.blocks@,
                n == bs.len(),
                i <= n,
                count == link_count(bs, i as int),
                count <= expected,
            decreases n - i,
        {
            let c = &self.blocks[i];
            let ghost base = count;
            let mut j: usize = 0;
            while j < n
                invariant
                    bs == self.blocks@,
                    n == bs.len(),
                    i < n,
                    j <= n,
                    *c == bs[i as int],
                    base == link_count(bs, i as int),
                    count == base + links_to(bs, *c, j as int),
                    count <= expected,
                decreases n - j,
            {
                if block_follows(c, &self.blocks[j]) {
                    if count == expected {
                        proof {
                            lemma_links_to_mono(bs, *c, j + 1, n as int);
                            lemma_link_count_mono(bs, i + 1, n as int);
                        }
                        return false;
                    }
                    count = count + 1;
                }
                j = j + 1;
            }
            i = i + 1;
        }
        count == expected
    }

    /// Whether some block follows another whose hash is not its `prev_hash`.
    fn has_broken_link(&self) -> (b: bool)
        ensures
            b == broken_link(self.blocks@),
    {
        let ghost bs = self.blocks@;
        let n = self.blocks.len();
        let mut i: usize = 0;
        while i < n
            invariant
                bs == self.blocks@,
                n == bs.len(),
                i <= n,
                forall|x: int, y: int|
                    #![trigger bs[x], bs[y]]
                    0 <= x < i && 0 <= y < n ==> !(follows(bs[x], bs[y]) && bs[x].prev_hash@ != bs[y].hash@),
            decreases n - i,
        {
            let mut j: usize = 0;
            while j < n
                invariant
                    bs == self.blocks@,
                    n == bs.len(),
                    i < n,
                    j <= n,
                    forall|x: int, y: int|
                        #![trigger bs[x], bs[y]]
                        0 <= x < i && 0 <= y < n ==> !(follows(bs[x], bs[y]) && bs[x].prev_hash@ != bs[y].hash@),
                    forall|y: int|
                        0 <= y < j ==> !(follows(bs[i as int], #[trigger] bs[y]) && bs[i as int].prev_hash@ != bs[y].hash@),
                decreases n - j,
            {
                let c = &self.blocks[i];
                let p = &self.blocks[j];
                if block_follows(c, p) && c.prev_hash != p.hash {
                    assert(follows(bs[i as int], bs[j as int]) && bs[i as int].prev_hash@ != bs[j as int].hash@);
                    return true;
                }
                j = j + 1;
            }
            i = i + 1;
        }
        false
    }

    /// Whether the chain is valid: no account but "Mint" is overdrawn, the
    /// number of (block, predecessor by id) pairs is one less than the
    /// number of blocks (zero for none), and every block's `prev_hash` is
    /// the hash of each block it follows.
    pub fn is_valid(&self) -> (ok: bool)
        requires
            balances_fit(self.transactions@),
        ensures
            ok == (!overdrawn(self.transactions@) && link_count(self.blocks@, self.blocks@.len() as int) == (
            if self.blocks@.len() == 0 {
                0
            } else {
                self.blocks@.len() - 1
            }) && !broken_link(self.blocks@)),
    {
        let ghost txs = self.transactions@;
        let balances = self.compute_balances();
        let mint = "Mint".to_owned();
        let mut k: usize = 0;
        while k < balances.len()
            invariant
                txs == self.transactions@,
                mint@ == "Mint"@,
                k <= balances@.len(),
                forall|x: int|
                    0 <= x < balances@.len() ==> is_account(txs, (#[trigger] balances@[x]).account@)
                        && balances@[x].balance == account_sum(movements(txs), balances@[x].account@),
                forall|acc: Seq<char>| #[trigger] is_account(txs, acc) ==> lists_account(balances@, acc),
                forall|x: int| 0 <= x < k ==> !((#[trigger] balances@[x]).account@ != "Mint"@ && balances@[x].balance < 0),
            decreases balances@.len() - k,
        {
            let b = &balances[k];
            if b.account != mint && b.balance < 0 {
                assert(is_account(txs, b.account@) && b.account@ != "Mint"@ && account_sum(movements(txs), b.account@) < 0);
                return false;
            }
            k = k + 1;
        }
        proof {
            if overdrawn(txs) {
                let acc = choose|acc: Seq<char>| #[trigger] is_account(txs, acc) && acc != "Mint"@ && account_sum(movements(txs), acc) < 0;
                assert(lists_account(balances@, acc));
                let x = choose|x: int| 0 <= x < balances@.len() && #[trigger] balances@[x].account@ == acc;
                assert(!(balances@[x].account@ != "Mint"@ && balances@[x].balance < 0));
            }
        }
        let n = self.blocks.len();
        let expected: usize = if n == 0 {
            0
        } else {
            n - 1
        };
        if !self.link_count_is(expected) {
            return false;
        }
        !self.has_broken_link()
    }
}

/// The total of the amounts sent to `acc`.
pub open spec fn received(txs: Seq<Transaction>, acc: Seq<char>) -> int
    decreases txs.len(),
{
    if txs.len() == 0 {
        0
    } else {
        received(txs.drop_last(), acc) + if txs.last().to@ == acc { txs.last().amount as int } else { 0 }
    }
}

/// The total of the amounts sent from `acc`.
pub open spec fn sent(txs: Seq<Transaction>, acc: Seq<char>) -> int
    decreases txs.len(),
{
    if txs.len() == 0 {
        0
    } else {
        sent(txs.drop_last(), acc) + if txs.last().from@ == acc { txs.last().amount as int } else { 0 }
    }
}

/// The plain sum of the movements of `acc`.
pub open spec fn plain_sum(s: Seq<Movement>, acc: Seq<char>) -> int
    decreases s.len(),
{
    if s.len() == 0 {
        0
    } else {
        plain_sum(s.drop_last(), acc) + if s.last().1 == acc { s.last().2 } else { 0 }
    }
}

/// No two transactions share an identifier.
pub open spec fn ids_unique(txs: Seq<Transaction>) -> bool {
    forall|a: int, b: int| 0 <= a < txs.len() && 0 <= b < txs.len() && a != b ==> (#[trigger] txs[a]).tx_id@ != (#[trigger] txs[b]).tx_id@
}

proof fn lemma_account_sum_plain(s: Seq<Movement>, acc: Seq<char>)
    requires
        forall|i: int, j: int| 0 <= i < j < s.len() && s[i] == s[j] ==> (#[trigger] s[j]).2 == 0 && #[trigger] s[i].2 == 0,
    ensures
        account_sum(s, acc) == plain_sum(s, acc),
    decreases s.len(),
{
    if s.len() > 0 {
        let rest = s.drop_last();
        lemma_account_sum_plain(rest, acc);
        if rest.contains(s.last()) {
            let i = choose|i: int| 0 <= i < rest.len() && rest[i] == s.last();
            assert(s[i] == s[s.len() - 1]);
        }
    }
}

proof fn lemma_plain_add(a: Seq<Movement>, b: Seq<Movement>, acc: Seq<char>)
    ensures
        plain_sum(a + b, acc) == plain_sum(a, acc) + plain_sum(b, acc),
    decreases b.len(),
{
    if b.len() > 0 {
        lemma_plain_add(a, b.drop_last(), acc);
        assert((a + b).drop_last() =~= a + b.drop_last());
    } else {
        assert(a + b =~= a);
    }
}

proof fn lemma_plain_credits_debits(txs: Seq<Transaction>, acc: Seq<char>)
    requires
        forall|i: int| 0 <= i < txs.len() ==> (#[trigger] txs[i]).amount != i64::MIN,
    ensures
        plain_sum(credits(txs), acc) == received(txs, acc),
        plain_sum(debits(txs), acc) == -sent(txs, acc),
    decreases txs.len(),
{
    if txs.len() > 0 {
        let pre = txs.drop_last();
        assert(credits(txs).drop_last() =~= credits(pre));
        assert(debits(txs).drop_last() =~= debits(pre));
        assert(txs.last() == txs[txs.len() - 1]);
        lemma_plain_credits_debits(pre, acc);
    }
}

/// Balances are what the transactions say: with unique transaction
/// identifiers (and no amount of `i64::MIN`), the balance of an account is
/// what was sent to it less what it sent, so a chain is overdrawn exactly
/// when some account other than "Mint" received less than it sent.
pub proof fn law_balance_is_received_less_sent(txs: Seq<Transaction>)
    requires
        ids_unique(txs),
        forall|i: int| 0 <= i < txs.len() ==> (#[trigger] txs[i]).amount != i64::MIN,
    ensures
        forall|acc: Seq<char>| #[trigger] account_sum(movements(txs), acc) == received(txs, acc) - sent(txs, acc),
        overdrawn(txs) <==> exists|acc: Seq<char>| #[trigger] is_account(txs, acc) && acc != "Mint"@ && received(txs, acc) < sent(txs, acc),
{
    let m = movements(txs);
    let n = txs.len() as int;
    assert forall|i: int, j: int| 0 <= i < j < m.len() && m[i] == m[j] implies (#[trigger] m[j]).2 == 0 && #[trigger] m[i].2 == 0 by {
        if j < n {
            assert(m[i] == debits(txs)[i] && m[j] == debits(txs)[j]);
            assert(txs[i].tx_id@ == txs[j].tx_id@);
        } else if i >= n {
            assert(m[i] == credits(txs)[i - n] && m[j] == credits(txs)[j - n]);
            assert(txs[i - n].tx_id@ == txs[j - n].tx_id@);
        } else {
            assert(m[i] == debits(txs)[i] && m[j] == credits(txs)[j - n]);
            assert(txs[i].tx_id@ == txs[j - n].tx_id@);
            assert(i == j - n);
        }
    }
    assert forall|acc: Seq<char>| #[trigger] account_sum(movements(txs), acc) == received(txs, acc) - sent(txs, acc) by {
        lemma_account_sum_plain(m, acc);
        lemma_plain_add(debits(txs), credits(txs), acc);
        lemma_plain_credits_debits(txs, acc);
    }
}

} // verus!
