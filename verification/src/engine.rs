//! The ledger: routes each operation record to the account it names,
//! creating accounts lazily, and produces the final status snapshot.

use vstd::prelude::*;
use std::collections::HashMap;
use crate::account::{
    Account, AccountStatus, AccountView, StatusView, account_wf, app_acct, empty_account,
    status_of,
};
use crate::io::{
    InputLine, InputLineType, LineView, blank, dec_digits, line_valid, parse_line,
    parse_line_spec, render_amount, render_units, split_bytes,
};
use crate::ClientId;

verus! {

broadcast use vstd::std_specs::hash::group_hash_axioms;

/// Abstract state of the ledger: the account each tracked client owns, and
/// the order in which clients were first seen (the snapshot order).
#[verifier::ext_equal]
pub ghost struct EngineView {
    pub accounts: Map<ClientId, AccountView>,
    pub order: Seq<ClientId>,
}

/// The state of a ledger that has processed nothing.
pub open spec fn empty_engine() -> EngineView {
    EngineView { accounts: Map::empty(), order: Seq::empty() }
}

/// Well-formedness of the ledger: the snapshot order lists exactly the
/// tracked clients, once each, and every tracked account is well formed.
pub open spec fn engine_wf(e: EngineView) -> bool {
    &&& e.order.no_duplicates()
    &&& forall|i: int| 0 <= i < e.order.len() ==> e.accounts.contains_key(#[trigger] e.order[i])
    &&& forall|c: ClientId| #[trigger] e.accounts.contains_key(c) ==> e.order.contains(c)
    &&& forall|c: ClientId| #[trigger] e.accounts.contains_key(c) ==> account_wf(e.accounts[c])
}

/// Effect of one operation record on the whole ledger: records of invalid
/// shape touch nothing; an account is created lazily only for a deposit to
/// an unknown client; every other record to an unknown client is discarded;
/// otherwise the record is applied to the one account it names.
pub open spec fn step(e: EngineView, l: LineView) -> EngineView {
    if !line_valid(l) {
        e
    } else if e.accounts.contains_key(l.client) {
        EngineView {
            accounts: e.accounts.insert(l.client, app_acct(e.accounts[l.client], l)),
            order: e.order,
        }
    } else if l.kind is Deposit {
        EngineView {
            accounts: e.accounts.insert(l.client, app_acct(empty_account(), l)),
            order: e.order.push(l.client),
        }
    } else {
        e
    }
}

/// Effect of a whole stream of operation records, applied strictly in
/// order.
pub open spec fn replay(e: EngineView, ops: Seq<LineView>) -> EngineView
    decreases ops.len(),
{
    if ops.len() == 0 {
        e
    } else {
        replay(step(e, ops[0]), ops.skip(1))
    }
}

/// Replaying one leading record and then the rest is replaying the whole
/// stream.
proof fn lemma_replay_cons(e: EngineView, op: LineView, rest: Seq<LineView>)
    ensures
        replay(e, seq![op] + rest) == replay(step(e, op), rest),
{
    let ops = seq![op] + rest;
    assert(ops[0] == op);
    assert(ops.skip(1) =~= rest);
}

/// The operation records held by the lines `ls`: blank lines are skipped,
/// the first line with content is the header row, and each later line with
/// content contributes a record exactly when it parses.
pub open spec fn ops_of(ls: Seq<Seq<u8>>, header_seen: bool) -> Seq<LineView>
    decreases ls.len(),
{
    if ls.len() == 0 {
        Seq::empty()
    } else if blank(ls[0]) {
        ops_of(ls.skip(1), header_seen)
    } else if !header_seen {
        ops_of(ls.skip(1), true)
    } else {
        match parse_line_spec(ls[0]) {
            Some(op) => seq![op] + ops_of(ls.skip(1), true),
            None => ops_of(ls.skip(1), true),
        }
    }
}

/// The operation records held by a whole textual input: its lines after the
/// header row, in input order, wherever they parse.
pub open spec fn ops_of_input(s: Seq<u8>) -> Seq<LineView> {
    ops_of(split_bytes(s, '\n' as u8), false)
}

/// The snapshot of ledger state `e`: one status row per tracked client, in
/// first-seen order.
pub open spec fn snapshot_of(e: EngineView) -> Seq<StatusView> {
    e.order.map_values(|c: ClientId| status_of(e.accounts[c], c))
}

proof fn lemma_step_wf_same_order(pre: EngineView, l: LineView, post: EngineView)
    requires
        engine_wf(pre),
        pre.accounts.contains_key(l.client),
        post == (EngineView {
            accounts: pre.accounts.insert(l.client, app_acct(pre.accounts[l.client], l)),
            order: pre.order,
        }),
    ensures
        engine_wf(post),
{
    assert forall|i: int| 0 <= i < post.order.len() implies post.accounts.contains_key(
        #[trigger] post.order[i],
    ) by {
        assert(pre.accounts.contains_key(pre.order[i]));
    }
    assert forall|c: ClientId| #[trigger] post.accounts.contains_key(c) implies post.order.contains(
        c,
    ) by {
        assert(pre.accounts.contains_key(c));
    }
    assert forall|c: ClientId| #[trigger] post.accounts.contains_key(c) implies account_wf(
        post.accounts[c],
    ) by {
        if c == l.client {
            crate::account::lemma_app_acct_wf(pre.accounts[l.client], l);
        } else {
            assert(pre.accounts.contains_key(c));
        }
    }
}

proof fn lemma_step_wf_new_client(pre: EngineView, l: LineView, post: EngineView)
    requires
        engine_wf(pre),
        !pre.accounts.contains_key(l.client),
        post == (EngineView {
            accounts: pre.accounts.insert(l.client, app_acct(empty_account(), l)),
            order: pre.order.push(l.client),
        }),
    ensures
        engine_wf(post),
{
    assert(!pre.order.contains(l.client)) by {
        if pre.order.contains(l.client) {
            let i = choose|i: int| 0 <= i < pre.order.len() && pre.order[i] == l.client;
            assert(pre.accounts.contains_key(pre.order[i]));
        }
    }
    assert(post.order.no_duplicates()) by {
        assert forall|i: int, j: int|
            0 <= i < post.order.len() && 0 <= j < post.order.len() && i != j implies post.order[i]
            != post.order[j] by {
            if i < pre.order.len() && j < pre.order.len() {
                assert(pre.order[i] != pre.order[j]);
            } else if i < pre.order.len() {
                assert(!pre.order.contains(l.client));
                assert(pre.order[i] != l.client);
            } else if j < pre.order.len() {
                assert(pre.order[j] != l.client);
            }
        }
    }
    assert forall|i: int| 0 <= i < post.order.len() implies post.accounts.contains_key(
        #[trigger] post.order[i],
    ) by {
        if i < pre.order.len() {
            assert(pre.accounts.contains_key(pre.order[i]));
        }
    }
    assert forall|c: ClientId| #[trigger] post.accounts.contains_key(c) implies post.order.contains(
        c,
    ) by {
        if c == l.client {
            assert(post.order[pre.order.len() as int] == l.client);
        } else {
            assert(pre.accounts.contains_key(c));
            let i = choose|i: int| 0 <= i < pre.order.len() && pre.order[i] == c;
            assert(post.order[i] == c);
        }
    }
    assert forall|c: ClientId| #[trigger] post.accounts.contains_key(c) implies account_wf(
        post.accounts[c],
    ) by {
        if c == l.client {
            crate::account::lemma_app_acct_wf(empty_account(), l);
        } else {
            assert(pre.accounts.contains_key(c));
        }
    }
}

/// The ledger. It exclusively owns every account; data flows one way, from
/// operation records to account mutations to the final snapshot.
pub struct Engine {
    accounts: HashMap<ClientId, Account>,
    order: Vec<ClientId>,
}

impl View for Engine {
    type V = EngineView;

    closed spec fn view(&self) -> EngineView {
        EngineView {
            accounts: self.accounts@.map_values(|a: Account| a@),
            order: self.order@,
        }
    }
}

impl Default for Engine {
    /// A ledger that has processed nothing and tracks no account.
    fn default() -> (r: Self)
        ensures
            r@ == empty_engine(),
            engine_wf(r@),
    {
        let r = Engine { accounts: HashMap::new(), order: Vec::new() };
        proof {
            assert(r@.accounts =~= empty_engine().accounts);
            assert(r@ =~= empty_engine());
        }
        r
    }
}

impl Engine {
    /// Route one operation record: discard it if its shape is invalid or if
    /// it addresses an unknown client and is not a deposit; otherwise apply
    /// it to the account it names. No other account is touched.
    pub fn process_transaction(&mut self, input_line: InputLine)
        requires
            engine_wf(old(self)@),
        ensures
            final(self)@ == step(old(self)@, input_line@),
            engine_wf(final(self)@),
    {
        if !input_line.valid() {
            return ;
        }
        let ghost pre = old(self)@;
        match self.accounts.remove(&input_line.client) {
            Some(mut account) => {
                proof {
                    assert(pre.accounts.contains_key(input_line@.client));
                    assert(account@ == pre.accounts[input_line@.client]);
                    assert(account_wf(account@));
                }
                account.process(input_line);
                self.accounts.insert(input_line.client, account);
                proof {
                    assert(self@.accounts =~= step(pre, input_line@).accounts);
                    assert(self@ =~= step(pre, input_line@));
                    lemma_step_wf_same_order(pre, input_line@, self@);
                }
            },
            None => {
                proof {
                    assert(!pre.accounts.contains_key(input_line@.client));
                }
                if input_line.kind == InputLineType::Deposit {
                    let mut account = Account::default();
                    account.process(input_line);
                    self.accounts.insert(input_line.client, account);
                    self.order.push(input_line.client);
                    proof {
                        assert(self@.accounts =~= step(pre, input_line@).accounts);
                        assert(self@.order =~= pre.order.push(input_line@.client));
                        assert(self@ =~= step(pre, input_line@));
                        lemma_step_wf_new_client(pre, input_line@, self@);
                    }
                } else {
                    proof {
                        assert(self@.accounts =~= step(pre, input_line@).accounts);
                        assert(self@ =~= step(pre, input_line@));
                    }
                }
            },
        }
    }

    /// The final snapshot: one status row per client that ever had an
    /// account created, in first-seen order.
    pub fn snapshot(&self) -> (r: Vec<AccountStatus>)
        requires
            engine_wf(self@),
        ensures
            r@.map_values(|s: AccountStatus| s@) == snapshot_of(self@),
    {
        let mut r: Vec<AccountStatus> = Vec::new();
        let ghost all = snapshot_of(self@);
        let mut i: usize = 0;
        while i < self.order.len()
            invariant
                engine_wf(self@),
                0 <= i <= self.order.len(),
                all == snapshot_of(self@),
                r@.len() == i,
                forall|j: int| 0 <= j < i ==> (#[trigger] r@[j])@ == all[j],
            decreases self.order.len() - i,
        {
            let client = self.order[i];
            assert(self@.accounts.contains_key(client));
            match self.accounts.get(&client) {
                Some(account) => {
                    r.push(account.get_status(client));
                },
                None => {
                    proof {
                        assert(false);
                    }
                },
            }
            i = i + 1;
        }
        proof {
            assert(r@.map_values(|s: AccountStatus| s@) =~= all);
        }
        r
    }

    /// Process a whole textual input, strictly in line order: skip blank
    /// lines, skip the header row, drop malformed rows, and route every
    /// record that parses.
    pub fn process_from_csv(&mut self, input: &[u8])
        requires
            engine_wf(old(self)@),
        ensures
            final(self)@ == replay(old(self)@, ops_of_input(input@)),
            engine_wf(final(self)@),
    {
        let lines = crate::io::split(input, '\n' as u8);
        let ghost lss = lines@.map_values(|v: Vec<u8>| v@);
        let ghost pre = self@;
        let mut header_seen = false;
        let mut i: usize = 0;
        proof {
            assert(lss.skip(0) =~= lss);
        }
        while i < lines.len()
            invariant
                engine_wf(self@),
                0 <= i <= lines@.len(),
                lss == lines@.map_values(|v: Vec<u8>| v@),
                replay(pre, ops_of(lss, false)) == replay(
                    self@,
                    ops_of(lss.skip(i as int), header_seen),
                ),
            decreases lines@.len() - i,
        {
            proof {
                assert(lss.skip(i as int)[0] == lss[i as int]);
                assert(lss.skip(i as int).skip(1) =~= lss.skip(i as int + 1));
            }
            let line: &Vec<u8> = &lines[i];
            let t = crate::io::trim_bytes(line.as_slice());
            if t.len() == 0 {
            } else if !header_seen {
                header_seen = true;
            } else {
                match parse_line(line.as_slice()) {
                    Some(op) => {
                        proof {
                            assert(ops_of(lss.skip(i as int), true) == seq![op@] + ops_of(
                                lss.skip(i as int + 1),
                                true,
                            ));
                            lemma_replay_cons(self@, op@, ops_of(lss.skip(i as int + 1), true));
                        }
                        self.process_transaction(op);
                    },
                    None => {},
                }
            }
            i = i + 1;
        }
        proof {
            assert(lss.skip(i as int).len() == 0);
            assert(ops_of(lss.skip(i as int), header_seen) =~= Seq::<LineView>::empty());
            assert(lss == split_bytes(input@, '\n' as u8));
        }
    }

    /// Serialize the final snapshot: the header row, then one row per
    /// client, in first-seen order.
    pub fn write_status_to_csv(&self) -> (out: Vec<u8>)
        requires
            engine_wf(self@),
        ensures
            out@ == render_output(snapshot_of(self@)),
    {
        let statuses = self.snapshot();
        let ghost svs = statuses@.map_values(|s: AccountStatus| s@);
        let mut out: Vec<u8> = vec![
            'c' as u8,
            'l' as u8,
            'i' as u8,
            'e' as u8,
            'n' as u8,
            't' as u8,
            ',' as u8,
            'a' as u8,
            'v' as u8,
            'a' as u8,
            'i' as u8,
            'l' as u8,
            'a' as u8,
            'b' as u8,
            'l' as u8,
            'e' as u8,
            ',' as u8,
            'h' as u8,
            'e' as u8,
            'l' as u8,
            'd' as u8,
            ',' as u8,
            't' as u8,
            'o' as u8,
            't' as u8,
            'a' as u8,
            'l' as u8,
            ',' as u8,
            'l' as u8,
            'o' as u8,
            'c' as u8,
            'k' as u8,
            'e' as u8,
            'd' as u8,
            '\n' as u8,
        ];
        proof {
            assert(out@ =~= header_row());
            assert(svs.take(0) =~= Seq::<StatusView>::empty());
            assert(out@ =~= header_row() + render_rows(svs.take(0)));
        }
        let mut i: usize = 0;
        while i < statuses.len()
            invariant
                0 <= i <= statuses@.len(),
                svs == statuses@.map_values(|s: AccountStatus| s@),
                out@ == header_row() + render_rows(svs.take(i as int)),
            decreases statuses@.len() - i,
        {
            render_status(&statuses[i], &mut out);
            proof {
                assert(svs.take(i as int + 1) =~= svs.take(i as int).push(svs[i as int]));
                lemma_render_rows_push(svs.take(i as int), svs[i as int]);
                assert(out@ =~= header_row() + render_rows(svs.take(i as int + 1)));
            }
            i = i + 1;
        }
        proof {
            assert(svs.take(i as int) =~= svs);
        }
        out
    }
}

/// The output header row.
pub open spec fn header_row() -> Seq<u8> {
    seq![
        'c' as u8,
        'l' as u8,
        'i' as u8,
        'e' as u8,
        'n' as u8,
        't' as u8,
        ',' as u8,
        'a' as u8,
        'v' as u8,
        'a' as u8,
        'i' as u8,
        'l' as u8,
        'a' as u8,
        'b' as u8,
        'l' as u8,
        'e' as u8,
        ',' as u8,
        'h' as u8,
        'e' as u8,
        'l' as u8,
        'd' as u8,
        ',' as u8,
        't' as u8,
        'o' as u8,
        't' as u8,
        'a' as u8,
        'l' as u8,
        ',' as u8,
        'l' as u8,
        'o' as u8,
        'c' as u8,
        'k' as u8,
        'e' as u8,
        'd' as u8,
        '\n' as u8,
    ]
}

/// `true` or `false`, spelled out.
pub open spec fn render_bool(b: bool) -> Seq<u8> {
    if b {
        seq!['t' as u8, 'r' as u8, 'u' as u8, 'e' as u8]
    } else {
        seq!['f' as u8, 'a' as u8, 'l' as u8, 's' as u8, 'e' as u8]
    }
}

/// One output row: client id, the three balances, and the lock flag,
/// comma-separated and newline-terminated.
#[verifier::opaque]
pub open spec fn render_status_row(s: StatusView) -> Seq<u8> {
    dec_digits(s.client as int) + seq![',' as u8] + render_units(s.available) + seq![',' as u8]
        + render_units(s.held) + seq![',' as u8] + render_units(s.total) + seq![',' as u8]
        + render_bool(s.locked) + seq!['\n' as u8]
}

/// The output rows for the snapshot `ss`, in order.
pub open spec fn render_rows(ss: Seq<StatusView>) -> Seq<u8>
    decreases ss.len(),
{
    if ss.len() == 0 {
        Seq::empty()
    } else {
        render_status_row(ss[0]) + render_rows(ss.skip(1))
    }
}

/// The whole serialized output: header row, then the snapshot rows.
pub open spec fn render_output(ss: Seq<StatusView>) -> Seq<u8> {
    header_row() + render_rows(ss)
}

#[verifier::rlimit(100)]
proof fn lemma_render_rows_push(ss: Seq<StatusView>, x: StatusView)
    ensures
        render_rows(ss.push(x)) == render_rows(ss) + render_status_row(x),
    decreases ss.len(),
{
    if ss.len() == 0 {
        assert(ss.push(x)[0] == x);
        assert(ss.push(x).skip(1) =~= Seq::<StatusView>::empty());
        assert(render_rows(ss.push(x).skip(1)) == Seq::<u8>::empty());
        assert(render_rows(ss.push(x)) == render_status_row(x) + Seq::<u8>::empty());
        assert(render_status_row(x) + Seq::<u8>::empty() =~= render_status_row(x));
        assert(render_rows(ss) == Seq::<u8>::empty());
        assert(Seq::<u8>::empty() + render_status_row(x) =~= render_status_row(x));
        assert(render_rows(ss.push(x)) =~= render_rows(ss) + render_status_row(x));
    } else {
        assert(ss.push(x)[0] == ss[0]);
        assert(ss.push(x).skip(1) =~= ss.skip(1).push(x));
        lemma_render_rows_push(ss.skip(1), x);
        assert(render_rows(ss.push(x)) =~= render_rows(ss) + render_status_row(x));
    }
}

/// Append one serialized status row to `out`.
#[verifier::rlimit(50)]
fn render_status(s: &AccountStatus, out: &mut Vec<u8>)
    ensures
        final(out)@ == old(out)@ + render_status_row(s@),
{
    crate::io::push_digits(s.client as u64, out);
    out.push(',' as u8);
    render_amount(s.available, out);
    out.push(',' as u8);
    render_amount(s.held, out);
    out.push(',' as u8);
    render_amount(s.total, out);
    out.push(',' as u8);
    if s.locked {
        out.push('t' as u8);
        out.push('r' as u8);
        out.push('u' as u8);
        out.push('e' as u8);
    } else {
        out.push('f' as u8);
        out.push('a' as u8);
        out.push('l' as u8);
        out.push('s' as u8);
        out.push('e' as u8);
    }
    out.push('\n' as u8);
    proof {
        reveal(render_status_row);
        assert(out@ =~= old(out)@ + render_status_row(s@));
    }
}

} // verus!
