//! Typed operation records and the tabular text format they travel in.
//!
//! The input format is a header row followed by one record per line, with
//! the fields `type, client, tx, amount`; fields are separated by commas and
//! surrounding whitespace is ignored. The output format is one status row
//! per client under the header `client,available,held,total,locked`.

use vstd::prelude::*;
use crate::amount::Amount;
use crate::{ClientId, TransactionId};

verus! {

/// The possible kinds of operation record.
#[derive(Clone, Copy, PartialEq, Eq, Structural, Debug)]
pub enum InputLineType {
    Deposit,
    Withdrawal,
    Dispute,
    Resolve,
    Chargeback,
}

/// Abstract value of an operation record; amounts are plain integers in
/// ten-thousandths of a currency unit.
pub ghost struct LineView {
    pub kind: InputLineType,
    pub client: ClientId,
    pub id: TransactionId,
    pub amount: Option<int>,
}

/// A strongly typed operation record: one line of input.
#[derive(Clone, Copy, Debug)]
pub struct InputLine {
    pub kind: InputLineType,
    pub client: ClientId,
    pub id: TransactionId,
    pub amount: Option<Amount>,
}

/// Shape invariant of an operation record: deposits and withdrawals carry an
/// amount, disputes, resolves and chargebacks must not.
pub open spec fn line_valid(l: LineView) -> bool {
    match l.kind {
        InputLineType::Deposit => l.amount is Some,
        InputLineType::Withdrawal => l.amount is Some,
        InputLineType::Dispute => l.amount is None,
        InputLineType::Resolve => l.amount is None,
        InputLineType::Chargeback => l.amount is None,
    }
}

impl View for InputLine {
    type V = LineView;

    open spec fn view(&self) -> LineView {
        LineView {
            kind: self.kind,
            client: self.client,
            id: self.id,
            amount: match self.amount {
                Some(a) => Some(a@),
                None => None,
            },
        }
    }
}

/// Whether `b` is whitespace that is ignored around fields and lines.
pub open spec fn is_space(b: u8) -> bool {
    b == ' ' as u8 || b == '\t' as u8 || b == '\r' as u8
}

/// `split_rest(s, sep, cur)` is the list of `sep`-separated chunks of
/// `cur + s`: the chunk under construction `cur` is closed at each separator
/// and at the end of the input.
pub open spec fn split_rest(s: Seq<u8>, sep: u8, cur: Seq<u8>) -> Seq<Seq<u8>>
    decreases s.len(),
{
    if s.len() == 0 {
        seq![cur]
    } else if s[0] == sep {
        seq![cur] + split_rest(s.skip(1), sep, Seq::empty())
    } else {
        split_rest(s.skip(1), sep, cur.push(s[0]))
    }
}

/// The chunks of `s` separated by `sep`. Splitting the empty input gives one
/// empty chunk.
pub open spec fn split_bytes(s: Seq<u8>, sep: u8) -> Seq<Seq<u8>> {
    split_rest(s, sep, Seq::empty())
}

/// `s` without leading ignored whitespace.
pub open spec fn trim_left(s: Seq<u8>) -> Seq<u8>
    decreases s.len(),
{
    if s.len() > 0 && is_space(s[0]) {
        trim_left(s.skip(1))
    } else {
        s
    }
}

/// `s` without trailing ignored whitespace.
pub open spec fn trim_right(s: Seq<u8>) -> Seq<u8>
    decreases s.len(),
{
    if s.len() > 0 && is_space(s.last()) {
        trim_right(s.drop_last())
    } else {
        s
    }
}

/// `s` without leading or trailing ignored whitespace.
pub open spec fn trim(s: Seq<u8>) -> Seq<u8> {
    trim_right(trim_left(s))
}

fn is_space_byte(b: u8) -> (r: bool)
    ensures
        r == is_space(b),
{
    b == ' ' as u8 || b == '\t' as u8 || b == '\r' as u8
}

/// Split `s` into its `sep`-separated chunks.
pub(crate) fn split(s: &[u8], sep: u8) -> (r: Vec<Vec<u8>>)
    ensures
        r@.map_values(|v: Vec<u8>| v@) == split_bytes(s@, sep),
{
    let mut out: Vec<Vec<u8>> = Vec::new();
    let mut cur: Vec<u8> = Vec::new();
    let mut i: usize = 0;
    proof {
        assert(s@.skip(0) =~= s@);
        assert(out@.map_values(|v: Vec<u8>| v@) + split_rest(s@, sep, cur@) =~= split_bytes(
            s@,
            sep,
        ));
    }
    while i < s.len()
        invariant
            0 <= i <= s@.len(),
            cur@.len() <= i,
            out@.map_values(|v: Vec<u8>| v@) + split_rest(s@.skip(i as int), sep, cur@)
                == split_bytes(s@, sep),
        decreases s@.len() - i,
    {
        proof {
            assert(s@.skip(i as int).len() > 0);
            assert(s@.skip(i as int)[0] == s@[i as int]);
            assert(s@.skip(i as int).skip(1) =~= s@.skip(i as int + 1));
        }
        let b = s[i];
        if b == sep {
            let ghost old_out = out@;
            let ghost old_cur = cur@;
            out.push(cur);
            cur = Vec::new();
            proof {
                assert(out@.map_values(|v: Vec<u8>| v@) =~= old_out.map_values(
                    |v: Vec<u8>| v@,
                ).push(old_cur));
                assert(out@.map_values(|v: Vec<u8>| v@) + split_rest(
                    s@.skip(i as int + 1),
                    sep,
                    cur@,
                ) =~= old_out.map_values(|v: Vec<u8>| v@) + split_rest(
                    s@.skip(i as int),
                    sep,
                    old_cur,
                ));
            }
        } else {
            cur.push(b);
        }
        i = i + 1;
    }
    proof {
        assert(s@.skip(i as int).len() == 0);
        assert(split_rest(s@.skip(i as int), sep, cur@) =~= seq![cur@]);
    }
    let ghost old_out = out@;
    let ghost old_cur = cur@;
    out.push(cur);
    proof {
        assert(out@.map_values(|v: Vec<u8>| v@) =~= old_out.map_values(|v: Vec<u8>| v@).push(
            old_cur,
        ));
        assert(out@.map_values(|v: Vec<u8>| v@) =~= split_bytes(s@, sep));
    }
    out
}

/// Copy of `s` without leading or trailing ignored whitespace.
pub(crate) fn trim_bytes(s: &[u8]) -> (r: Vec<u8>)
    ensures
        r@ == trim(s@),
{
    let mut start: usize = 0;
    proof {
        assert(s@.skip(0) =~= s@);
    }
    while start < s.len() && is_space_byte(s[start])
        invariant
            0 <= start <= s@.len(),
            trim_left(s@) == trim_left(s@.skip(start as int)),
        decreases s@.len() - start,
    {
        proof {
            assert(s@.skip(start as int)[0] == s@[start as int]);
            assert(s@.skip(start as int).skip(1) =~= s@.skip(start as int + 1));
        }
        start = start + 1;
    }
    proof {
        assert(s@.skip(start as int) =~= trim_left(s@));
    }
    let mut end: usize = s.len();
    while end > start && is_space_byte(s[end - 1])
        invariant
            start <= end <= s@.len(),
            trim_left(s@) == s@.skip(start as int),
            trim_right(s@.skip(start as int)) == trim_right(
                s@.subrange(start as int, end as int),
            ),
        decreases end,
    {
        proof {
            let t = s@.subrange(start as int, end as int);
            assert(t.last() == s@[end - 1]);
            assert(t.drop_last() =~= s@.subrange(start as int, end as int - 1));
        }
        end = end - 1;
    }
    proof {
        let t = s@.subrange(start as int, end as int);
        assert(trim_right(t) =~= t);
    }
    let mut r: Vec<u8> = Vec::new();
    let mut i: usize = start;
    while i < end
        invariant
            start <= i <= end <= s@.len(),
            r@ =~= s@.subrange(start as int, i as int),
        decreases end - i,
    {
        r.push(s[i]);
        proof {
            assert(r@ =~= s@.subrange(start as int, i as int + 1));
        }
        i = i + 1;
    }
    proof {
        assert(s@.subrange(start as int, start as int) =~= Seq::<u8>::empty());
        assert(r@ =~= trim(s@));
    }
    r
}

/// Whether `b` is a decimal digit.
pub open spec fn is_digit(b: u8) -> bool {
    '0' as u8 <= b <= '9' as u8
}

/// Whether `s` is a run of decimal digits acceptable as one numeric field:
/// nonempty and at most fourteen digits long.
pub open spec fn digits_ok(s: Seq<u8>) -> bool {
    &&& 1 <= s.len() <= 14
    &&& forall|i: int| 0 <= i < s.len() ==> is_digit(#[trigger] s[i])
}

/// The value of the digit run `s` read in base ten.
pub open spec fn dec_val(s: Seq<u8>) -> int
    decreases s.len(),
{
    if s.len() == 0 {
        0
    } else {
        dec_val(s.drop_last()) * 10 + (s.last() - ('0' as u8))
    }
}

/// Ten to the `n`.
pub open spec fn pow10(n: nat) -> int
    decreases n,
{
    if n == 0 {
        1
    } else {
        10 * pow10((n - 1) as nat)
    }
}

/// The value of a digit run is below ten to its length.
proof fn lemma_dec_val_bound(s: Seq<u8>)
    requires
        forall|i: int| 0 <= i < s.len() ==> is_digit(#[trigger] s[i]),
    ensures
        0 <= dec_val(s) < pow10(s.len()),
    decreases s.len(),
{
    if s.len() > 0 {
        lemma_dec_val_bound(s.drop_last());
    }
}

proof fn lemma_pow10_14()
    ensures
        pow10(14) == 100000000000000,
        pow10(0) == 1,
        pow10(1) == 10,
        pow10(2) == 100,
        pow10(3) == 1000,
        pow10(4) == 10000,
{
    assert(pow10(0) == 1);
    assert(pow10(1) == 10);
    assert(pow10(2) == 100);
    assert(pow10(3) == 1000);
    assert(pow10(4) == 10000);
    assert(pow10(5) == 100000);
    assert(pow10(6) == 1000000);
    assert(pow10(7) == 10000000);
    assert(pow10(8) == 100000000);
    assert(pow10(9) == 1000000000);
    assert(pow10(10) == 10000000000);
    assert(pow10(11) == 100000000000);
    assert(pow10(12) == 1000000000000);
    assert(pow10(13) == 10000000000000);
    assert(pow10(14) == 100000000000000);
}

/// Read a numeric field: at most fourteen digits, returned as its value.
fn parse_digits(s: &[u8]) -> (r: Option<u64>)
    ensures
        match r {
            Some(v) => digits_ok(s@) && v as int == dec_val(s@) && v < 100000000000000,
            None => !digits_ok(s@),
        },
{
    if s.len() == 0 || s.len() > 14 {
        return None;
    }
    let mut acc: u64 = 0;
    let mut i: usize = 0;
    proof {
        assert(s@.take(0) =~= Seq::<u8>::empty());
        lemma_pow10_14();
    }
    while i < s.len()
        invariant
            0 <= i <= s@.len() <= 14,
            forall|j: int| 0 <= j < i ==> is_digit(#[trigger] s@[j]),
            acc as int == dec_val(s@.take(i as int)),
            pow10(14) == 100000000000000,
        decreases s@.len() - i,
    {
        let b = s[i];
        if b < '0' as u8 || b > '9' as u8 {
            return None;
        }
        proof {
            assert(s@.take(i as int + 1).drop_last() =~= s@.take(i as int));
            assert(s@.take(i as int + 1).last() == s@[i as int]);
            lemma_dec_val_bound(s@.take(i as int));
            assert(pow10(i as nat) <= pow10(14)) by {
                lemma_pow10_increases(i as nat, 14);
            }
        }
        acc = acc * 10 + ((b - '0' as u8) as u64);
        i = i + 1;
    }
    proof {
        assert(s@.take(i as int) =~= s@);
        lemma_dec_val_bound(s@);
        lemma_pow10_increases(s@.len(), 14);
    }
    Some(acc)
}

/// Powers of ten do not decrease.
proof fn lemma_pow10_increases(m: nat, n: nat)
    requires
        m <= n,
    ensures
        pow10(m) <= pow10(n),
    decreases n,
{
    if m < n {
        lemma_pow10_increases(m, (n - 1) as nat);
        assert(pow10((n - 1) as nat) >= 1) by {
            lemma_pow10_pos((n - 1) as nat);
        }
    }
}

/// Powers of ten are positive.
proof fn lemma_pow10_pos(n: nat)
    ensures
        pow10(n) >= 1,
    decreases n,
{
    if n > 0 {
        lemma_pow10_pos((n - 1) as nat);
    }
}

/// The client field: a digit run whose value fits the client id type.
pub open spec fn parse_client_spec(s: Seq<u8>) -> Option<ClientId> {
    if digits_ok(s) && dec_val(s) <= u16::MAX {
        Some(dec_val(s) as u16)
    } else {
        None
    }
}

/// The transaction field: a digit run whose value fits the transaction id
/// type.
pub open spec fn parse_tx_spec(s: Seq<u8>) -> Option<TransactionId> {
    if digits_ok(s) && dec_val(s) <= u32::MAX {
        Some(dec_val(s) as u32)
    } else {
        None
    }
}

fn parse_client(s: &[u8]) -> (r: Option<ClientId>)
    ensures
        r == parse_client_spec(s@),
{
    match parse_digits(s) {
        Some(v) => {
            if v <= u16::MAX as u64 {
                Some(v as u16)
            } else {
                None
            }
        },
        None => None,
    }
}

fn parse_tx(s: &[u8]) -> (r: Option<TransactionId>)
    ensures
        r == parse_tx_spec(s@),
{
    match parse_digits(s) {
        Some(v) => {
            if v <= u32::MAX as u64 {
                Some(v as u32)
            } else {
                None
            }
        },
        None => None,
    }
}

/// The amount field: an optional minus sign, one to fourteen integer
/// digits, and optionally a point followed by one to four fractional
/// digits. Its value is the signed count of ten-thousandths it denotes.
pub open spec fn parse_amount_spec(s: Seq<u8>) -> Option<int> {
    let neg = s.len() > 0 && s[0] == '-' as u8;
    let body = if neg {
        s.skip(1)
    } else {
        s
    };
    let parts = split_bytes(body, '.' as u8);
    if parts.len() == 1 && digits_ok(parts[0]) {
        Some(signed(neg, dec_val(parts[0]) * 10000))
    } else if parts.len() == 2 && digits_ok(parts[0]) && digits_ok(parts[1]) && parts[1].len()
        <= 4 {
        Some(
            signed(
                neg,
                dec_val(parts[0]) * 10000 + dec_val(parts[1]) * pow10((4 - parts[1].len()) as nat),
            ),
        )
    } else {
        None
    }
}

/// `v` negated when `neg` holds.
pub open spec fn signed(neg: bool, v: int) -> int {
    if neg {
        -v
    } else {
        v
    }
}

fn parse_amount(s: &[u8]) -> (r: Option<Amount>)
    ensures
        match r {
            Some(a) => parse_amount_spec(s@) == Some(a@),
            None => parse_amount_spec(s@) is None,
        },
{
    let neg = s.len() > 0 && s[0] == '-' as u8;
    let body: &[u8] = if neg {
        vstd::slice::slice_subrange(s, 1, s.len())
    } else {
        s
    };
    proof {
        if neg {
            assert(body@ =~= s@.skip(1));
        }
    }
    let parts = split(body, '.' as u8);
    if parts.len() == 1 {
        match parse_digits(parts[0].as_slice()) {
            Some(whole) => {
                proof {
                    lemma_pow10_14();
                }
                let units_u: u64 = whole * 10000;
                Some(to_signed_amount(neg, units_u))
            },
            None => None,
        }
    } else if parts.len() == 2 {
        match (parse_digits(parts[0].as_slice()), parse_digits(parts[1].as_slice())) {
            (Some(whole), Some(frac)) => {
                let frac_len = parts[1].len();
                if frac_len <= 4 {
                    proof {
                        lemma_pow10_14();
                        lemma_dec_val_bound(parts@[1]@);
                        lemma_pow10_increases(parts@[1]@.len(), 4);
                    }
                    let mult: u64 = if frac_len == 1 {
                        1000
                    } else if frac_len == 2 {
                        100
                    } else if frac_len == 3 {
                        10
                    } else {
                        1
                    };
                    proof {
                        lemma_pow10_14();
                        let flen = parts@[1]@.len();
                        let fval = frac as int;
                        let m = mult as int;
                        let fcap = pow10(flen);
                        assert(m == pow10((4 - flen) as nat));
                        lemma_pow10_mul(flen, (4 - flen) as nat);
                        assert(fcap * m == 10000);
                        assert(fval * m <= 9999) by (nonlinear_arith)
                            requires
                                fval < fcap,
                                m >= 1,
                                fval >= 0,
                                fcap * m == 10000,
                        ;
                        assert(fval * m >= 0) by (nonlinear_arith)
                            requires
                                fval >= 0,
                                m >= 0,
                        ;
                    }
                    let units_u: u64 = whole * 10000 + frac * mult;
                    Some(to_signed_amount(neg, units_u))
                } else {
                    None
                }
            },
            _ => None,
        }
    } else {
        None
    }
}

/// Ten to the `m` times ten to the `n` is ten to the `m + n`.
proof fn lemma_pow10_mul(m: nat, n: nat)
    ensures
        pow10(m) * pow10(n) == pow10(m + n),
    decreases m,
{
    if m == 0 {
    } else {
        lemma_pow10_mul((m - 1) as nat, n);
        assert(pow10(m) * pow10(n) == 10 * (pow10((m - 1) as nat) * pow10(n)))
            by (nonlinear_arith)
            requires
                pow10(m) == 10 * pow10((m - 1) as nat),
        ;
    }
}

/// Wrap nonnegative units `v`, negated when `neg` holds, as an amount.
fn to_signed_amount(neg: bool, v: u64) -> (r: Amount)
    requires
        v < 0x7fffffffffffffff,
    ensures
        r@ == signed(neg, v as int),
{
    if neg {
        Amount::from_units(-(v as i64))
    } else {
        Amount::from_units(v as i64)
    }
}

/// The operation kind tokens, exactly lowercase.
pub open spec fn kind_of_token(s: Seq<u8>) -> Option<InputLineType> {
    if s == tok_deposit() {
        Some(InputLineType::Deposit)
    } else if s == tok_withdrawal() {
        Some(InputLineType::Withdrawal)
    } else if s == tok_dispute() {
        Some(InputLineType::Dispute)
    } else if s == tok_resolve() {
        Some(InputLineType::Resolve)
    } else if s == tok_chargeback() {
        Some(InputLineType::Chargeback)
    } else {
        None
    }
}

pub open spec fn tok_deposit() -> Seq<u8> {
    seq!['d' as u8, 'e' as u8, 'p' as u8, 'o' as u8, 's' as u8, 'i' as u8, 't' as u8]
}

pub open spec fn tok_withdrawal() -> Seq<u8> {
    seq![
        'w' as u8,
        'i' as u8,
        't' as u8,
        'h' as u8,
        'd' as u8,
        'r' as u8,
        'a' as u8,
        'w' as u8,
        'a' as u8,
        'l' as u8,
    ]
}

pub open spec fn tok_dispute() -> Seq<u8> {
    seq!['d' as u8, 'i' as u8, 's' as u8, 'p' as u8, 'u' as u8, 't' as u8, 'e' as u8]
}

pub open spec fn tok_resolve() -> Seq<u8> {
    seq!['r' as u8, 'e' as u8, 's' as u8, 'o' as u8, 'l' as u8, 'v' as u8, 'e' as u8]
}

pub open spec fn tok_chargeback() -> Seq<u8> {
    seq![
        'c' as u8,
        'h' as u8,
        'a' as u8,
        'r' as u8,
        'g' as u8,
        'e' as u8,
        'b' as u8,
        'a' as u8,
        'c' as u8,
        'k' as u8,
    ]
}

/// Whether slice `a` holds exactly the bytes of `b`.
fn bytes_eq(a: &[u8], b: &Vec<u8>) -> (r: bool)
    ensures
        r == (a@ == b@),
{
    if a.len() != b.len() {
        proof {
            assert(a@ != b@);
        }
        return false;
    }
    let mut i: usize = 0;
    while i < a.len()
        invariant
            0 <= i <= a@.len(),
            a@.len() == b@.len(),
            forall|j: int| 0 <= j < i ==> a@[j] == b@[j],
        decreases a@.len() - i,
    {
        if a[i] != b[i] {
            return false;
        }
        i = i + 1;
    }
    proof {
        assert(a@ =~= b@);
    }
    true
}

fn parse_kind(s: &[u8]) -> (r: Option<InputLineType>)
    ensures
        r == kind_of_token(s@),
{
    let deposit: Vec<u8> = vec![
        'd' as u8,
        'e' as u8,
        'p' as u8,
        'o' as u8,
        's' as u8,
        'i' as u8,
        't' as u8,
    ];
    let withdrawal: Vec<u8> = vec![
        'w' as u8,
        'i' as u8,
        't' as u8,
        'h' as u8,
        'd' as u8,
        'r' as u8,
        'a' as u8,
        'w' as u8,
        'a' as u8,
        'l' as u8,
    ];
    let dispute: Vec<u8> = vec![
        'd' as u8,
        'i' as u8,
        's' as u8,
        'p' as u8,
        'u' as u8,
        't' as u8,
        'e' as u8,
    ];
    let resolve: Vec<u8> = vec![
        'r' as u8,
        'e' as u8,
        's' as u8,
        'o' as u8,
        'l' as u8,
        'v' as u8,
        'e' as u8,
    ];
    let chargeback: Vec<u8> = vec![
        'c' as u8,
        'h' as u8,
        'a' as u8,
        'r' as u8,
        'g' as u8,
        'e' as u8,
        'b' as u8,
        'a' as u8,
        'c' as u8,
        'k' as u8,
    ];
    if bytes_eq(s, &deposit) {
        Some(InputLineType::Deposit)
    } else if bytes_eq(s, &withdrawal) {
        Some(InputLineType::Withdrawal)
    } else if bytes_eq(s, &dispute) {
        Some(InputLineType::Dispute)
    } else if bytes_eq(s, &resolve) {
        Some(InputLineType::Resolve)
    } else if bytes_eq(s, &chargeback) {
        Some(InputLineType::Chargeback)
    } else {
        None
    }
}

/// One line of input, parsed: four comma-separated fields, each trimmed,
/// holding the kind token, the client id, the transaction id, and the
/// optional amount. A line of any other shape is no record.
pub open spec fn parse_line_spec(line: Seq<u8>) -> Option<LineView> {
    let fields = split_bytes(line, ',' as u8);
    if fields.len() == 4 {
        match (
            kind_of_token(trim(fields[0])),
            parse_client_spec(trim(fields[1])),
            parse_tx_spec(trim(fields[2])),
        ) {
            (Some(kind), Some(client), Some(id)) => {
                let af = trim(fields[3]);
                if af.len() == 0 {
                    Some(LineView { kind, client, id, amount: None })
                } else {
                    match parse_amount_spec(af) {
                        Some(units) => Some(LineView { kind, client, id, amount: Some(units) }),
                        None => None,
                    }
                }
            },
            _ => None,
        }
    } else {
        None
    }
}

/// Parse one line of input into a typed operation record, if it has the
/// right shape.
pub fn parse_line(line: &[u8]) -> (r: Option<InputLine>)
    ensures
        match r {
            Some(l) => parse_line_spec(line@) == Some(l@),
            None => parse_line_spec(line@) is None,
        },
{
    let fields = split(line, ',' as u8);
    if fields.len() != 4 {
        return None;
    }
    let kf = trim_bytes(fields[0].as_slice());
    let cf = trim_bytes(fields[1].as_slice());
    let tf = trim_bytes(fields[2].as_slice());
    let af = trim_bytes(fields[3].as_slice());
    match (parse_kind(kf.as_slice()), parse_client(cf.as_slice()), parse_tx(tf.as_slice())) {
        (Some(kind), Some(client), Some(id)) => {
            if af.len() == 0 {
                Some(InputLine { kind, client, id, amount: None })
            } else {
                match parse_amount(af.as_slice()) {
                    Some(a) => Some(InputLine { kind, client, id, amount: Some(a) }),
                    None => None,
                }
            }
        },
        _ => None,
    }
}

/// Whether a line holds nothing but ignored whitespace.
pub open spec fn blank(line: Seq<u8>) -> bool {
    trim(line).len() == 0
}

/// The base-ten digits of nonnegative `n`, most significant first.
pub open spec fn dec_digits(n: int) -> Seq<u8>
    decreases n,
{
    if n < 10 {
        seq![(n + '0' as u8) as u8]
    } else {
        dec_digits(n / 10).push((n % 10 + '0' as u8) as u8)
    }
}

/// `s` without its trailing zero digits.
pub open spec fn strip_zeros(s: Seq<u8>) -> Seq<u8>
    decreases s.len(),
{
    if s.len() > 0 && s.last() == '0' as u8 {
        strip_zeros(s.drop_last())
    } else {
        s
    }
}

/// The fractional part `f` (in ten-thousandths, `0 < f < 10000`) rendered
/// as up to four digits, trailing zeros omitted.
pub open spec fn frac_digits(f: int) -> Seq<u8> {
    strip_zeros(
        seq![
            (f / 1000 % 10 + '0' as u8) as u8,
            (f / 100 % 10 + '0' as u8) as u8,
            (f / 10 % 10 + '0' as u8) as u8,
            (f % 10 + '0' as u8) as u8,
        ],
    )
}

/// The amount of `u` ten-thousandths rendered as a decimal number: optional
/// minus sign, whole part, and the fractional part only when it is nonzero,
/// with no trailing zeros. Rendering never loses a digit, so parsing the
/// result recovers exactly `u`.
pub open spec fn render_units(u: int) -> Seq<u8> {
    let sign: Seq<u8> = if u < 0 {
        seq!['-' as u8]
    } else {
        Seq::empty()
    };
    let a = if u < 0 {
        -u
    } else {
        u
    };
    let whole = a / 10000;
    let frac = a % 10000;
    if frac == 0 {
        sign + dec_digits(whole)
    } else {
        sign + dec_digits(whole) + seq!['.' as u8] + frac_digits(frac)
    }
}

/// The digits of `n` are digits, at least one, and read back as `n`.
proof fn lemma_dec_digits_val(n: int)
    requires
        n >= 0,
    ensures
        dec_digits(n).len() >= 1,
        forall|i: int| 0 <= i < dec_digits(n).len() ==> is_digit(#[trigger] dec_digits(n)[i]),
        dec_val(dec_digits(n)) == n,
    decreases n,
{
    if n < 10 {
        assert(((n + '0' as u8) as u8) == n + 48);
        assert(dec_digits(n) =~= seq![(n + '0' as u8) as u8]);
        assert(dec_digits(n).drop_last() =~= Seq::<u8>::empty());
        assert(dec_val(dec_digits(n)) == dec_val(Seq::<u8>::empty()) * 10 + (n + 48 - 48));
    } else {
        lemma_dec_digits_val(n / 10);
        assert(((n % 10 + '0' as u8) as u8) == n % 10 + 48);
        assert(dec_digits(n).drop_last() =~= dec_digits(n / 10));
        assert(dec_digits(n).last() == (n % 10 + '0' as u8) as u8);
        assert(dec_val(dec_digits(n)) == dec_val(dec_digits(n / 10)) * 10 + (n % 10));
    }
}

/// `n` below ten to the `k` has at most `k` digits.
proof fn lemma_dec_digits_len(n: int, k: nat)
    requires
        0 <= n < pow10(k),
        k >= 1,
    ensures
        dec_digits(n).len() <= k,
    decreases k,
{
    if n < 10 {
    } else {
        assert(k >= 2) by {
            if k == 1 {
                assert(pow10(1) == 10 * pow10(0));
                assert(pow10(0) == 1);
            }
        }
        assert(pow10(k) == 10 * pow10((k - 1) as nat));
        lemma_dec_digits_len(n / 10, (k - 1) as nat);
    }
}

/// Stripping trailing zero digits divides the value by the power of ten
/// that was removed; nothing else changes.
proof fn lemma_strip_zeros_val(s: Seq<u8>)
    requires
        forall|i: int| 0 <= i < s.len() ==> is_digit(#[trigger] s[i]),
    ensures
        strip_zeros(s).len() <= s.len(),
        forall|i: int|
            0 <= i < strip_zeros(s).len() ==> is_digit(#[trigger] strip_zeros(s)[i]),
        dec_val(s) == dec_val(strip_zeros(s)) * pow10((s.len() - strip_zeros(s).len()) as nat),
    decreases s.len(),
{
    if s.len() > 0 && s.last() == '0' as u8 {
        lemma_strip_zeros_val(s.drop_last());
        let t = strip_zeros(s);
        let d = s.drop_last();
        let removed = (d.len() - t.len()) as nat;
        assert(dec_val(s) == dec_val(d) * 10);
        assert(dec_val(d) == dec_val(t) * pow10(removed));
        assert(pow10(removed + 1) == 10 * pow10(removed));
        assert(dec_val(t) * pow10(removed + 1) == dec_val(t) * pow10(removed) * 10)
            by (nonlinear_arith)
            requires
                pow10(removed + 1) == 10 * pow10(removed),
        ;
    } else {
        assert(pow10(0) == 1);
    }
}

/// Splitting a chunk free of the separator closes one chunk.
proof fn lemma_split_no_sep(s: Seq<u8>, sep: u8, cur: Seq<u8>)
    requires
        forall|i: int| 0 <= i < s.len() ==> s[i] != sep,
    ensures
        split_rest(s, sep, cur) == seq![cur + s],
    decreases s.len(),
{
    if s.len() == 0 {
        assert(cur + s =~= cur);
        assert(split_rest(s, sep, cur) =~= seq![cur + s]);
    } else {
        lemma_split_no_sep(s.skip(1), sep, cur.push(s[0]));
        assert(cur.push(s[0]) + s.skip(1) =~= cur + s);
        assert(split_rest(s, sep, cur) =~= seq![cur + s]);
    }
}

/// Splitting around exactly one separator yields the two surrounding
/// chunks.
proof fn lemma_split_one_sep(a: Seq<u8>, b: Seq<u8>, sep: u8, cur: Seq<u8>)
    requires
        forall|i: int| 0 <= i < a.len() ==> a[i] != sep,
        forall|i: int| 0 <= i < b.len() ==> b[i] != sep,
    ensures
        split_rest(a + seq![sep] + b, sep, cur) == seq![cur + a, b],
    decreases a.len(),
{
    let s = a + seq![sep] + b;
    if a.len() == 0 {
        assert(s[0] == sep);
        assert(s.skip(1) =~= b);
        lemma_split_no_sep(b, sep, Seq::empty());
        assert(Seq::<u8>::empty() + b =~= b);
        assert(cur + a =~= cur);
        assert(split_rest(s, sep, cur) =~= seq![cur + a, b]);
    } else {
        assert(s[0] == a[0]);
        assert(s.skip(1) =~= a.skip(1) + seq![sep] + b);
        lemma_split_one_sep(a.skip(1), b, sep, cur.push(a[0]));
        assert(cur.push(a[0]) + a.skip(1) =~= cur + a);
        assert(split_rest(s, sep, cur) =~= seq![cur + a, b]);
    }
}

/// The up-to-four fractional digits of `f` are digits, read back as `f`
/// once rescaled, and there is at least one of them.
proof fn lemma_frac_digits(f: int)
    requires
        0 < f < 10000,
    ensures
        1 <= frac_digits(f).len() <= 4,
        forall|i: int|
            0 <= i < frac_digits(f).len() ==> is_digit(#[trigger] frac_digits(f)[i]),
        dec_val(frac_digits(f)) * pow10((4 - frac_digits(f).len()) as nat) == f,
{
    let p = seq![
        (f / 1000 % 10 + '0' as u8) as u8,
        (f / 100 % 10 + '0' as u8) as u8,
        (f / 10 % 10 + '0' as u8) as u8,
        (f % 10 + '0' as u8) as u8,
    ];
    assert(forall|i: int| 0 <= i < p.len() ==> is_digit(#[trigger] p[i]));
    assert((f / 1000 % 10 + '0' as u8) as u8 == f / 1000 % 10 + 48);
    assert((f / 100 % 10 + '0' as u8) as u8 == f / 100 % 10 + 48);
    assert((f / 10 % 10 + '0' as u8) as u8 == f / 10 % 10 + 48);
    assert((f % 10 + '0' as u8) as u8 == f % 10 + 48);
    let p1 = seq![p[0]];
    let p2 = seq![p[0], p[1]];
    let p3 = seq![p[0], p[1], p[2]];
    assert(p1.drop_last() =~= Seq::<u8>::empty());
    assert(dec_val(Seq::<u8>::empty()) == 0);
    assert(p1.last() == p[0]);
    assert(dec_val(p1) == f / 1000 % 10);
    assert(p2.drop_last() =~= p1);
    assert(dec_val(p2) == dec_val(p1) * 10 + f / 100 % 10);
    assert(p3.drop_last() =~= p2);
    assert(dec_val(p3) == dec_val(p2) * 10 + f / 10 % 10);
    assert(p.drop_last() =~= p3);
    assert(dec_val(p) == dec_val(p3) * 10 + f % 10);
    assert(dec_val(p) == ((f / 1000 % 10 * 10 + f / 100 % 10) * 10 + f / 10 % 10) * 10 + f % 10);
    assert(((f / 1000 % 10 * 10 + f / 100 % 10) * 10 + f / 10 % 10) * 10 + f % 10 == f)
        by (nonlinear_arith)
        requires
            0 < f < 10000,
    ;
    lemma_strip_zeros_val(p);
    let t = strip_zeros(p);
    assert(t == frac_digits(f));
    if t.len() == 0 {
        assert(pow10((p.len() - t.len()) as nat) == pow10(4));
        lemma_pow10_14();
        assert(dec_val(p) == 0);
    }
    assert((4 - t.len()) as nat == (p.len() - t.len()) as nat);
}

/// Round trip: rendering any representable amount and parsing the rendered
/// text recovers exactly the same value, so no fractional digit is ever
/// lost between a run's output and a later reading of it.
pub proof fn lemma_render_parse_round_trip(u: int)
    requires
        -1000000000000000000 < u < 1000000000000000000,
    ensures
        parse_amount_spec(render_units(u)) == Some(u),
{
    lemma_pow10_14();
    let neg = u < 0;
    let a = if u < 0 {
        -u
    } else {
        u
    };
    let whole = a / 10000;
    let frac = a % 10000;
    assert(a == whole * 10000 + frac);
    assert(whole < 100000000000000);
    lemma_dec_digits_val(whole);
    lemma_dec_digits_len(whole, 14);
    let dd = dec_digits(whole);
    assert(forall|i: int| 0 <= i < dd.len() ==> #[trigger] dd[i] != '.' as u8);
    assert(forall|i: int| 0 <= i < dd.len() ==> #[trigger] dd[i] != '-' as u8);
    let rendered = render_units(u);
    if frac == 0 {
        let body = if neg {
            rendered.skip(1)
        } else {
            rendered
        };
        if neg {
            assert(rendered =~= seq!['-' as u8] + dd);
            assert(rendered[0] == '-' as u8);
            assert(body =~= dd);
        } else {
            assert(rendered =~= dd);
            assert(rendered[0] != '-' as u8);
        }
        lemma_split_no_sep(dd, '.' as u8, Seq::empty());
        assert(Seq::<u8>::empty() + dd =~= dd);
        assert(split_bytes(body, '.' as u8) == seq![dd]);
        assert(digits_ok(dd));
        assert(dec_val(dd) * 10000 == a);
        assert(signed(neg, a) == u);
    } else {
        lemma_frac_digits(frac);
        let fd = frac_digits(frac);
        assert(forall|i: int| 0 <= i < fd.len() ==> #[trigger] fd[i] != '.' as u8);
        let body = if neg {
            rendered.skip(1)
        } else {
            rendered
        };
        if neg {
            assert(rendered =~= seq!['-' as u8] + (dd + seq!['.' as u8] + fd));
            assert(rendered[0] == '-' as u8);
            assert(body =~= dd + seq!['.' as u8] + fd);
        } else {
            assert(rendered =~= dd + seq!['.' as u8] + fd);
            assert(rendered[0] == dd[0]);
            assert(rendered[0] != '-' as u8);
            assert(body =~= dd + seq!['.' as u8] + fd);
        }
        lemma_split_one_sep(dd, fd, '.' as u8, Seq::empty());
        assert(Seq::<u8>::empty() + dd =~= dd);
        assert(split_bytes(body, '.' as u8) == seq![dd, fd]);
        assert(digits_ok(dd));
        assert(digits_ok(fd));
        assert(dec_val(dd) * 10000 + dec_val(fd) * pow10((4 - fd.len()) as nat) == a);
        assert(signed(neg, a) == u);
    }
}

/// Append the base-ten digits of `n` to `out`.
pub(crate) fn push_digits(n: u64, out: &mut Vec<u8>)
    ensures
        final(out)@ == old(out)@ + dec_digits(n as int),
    decreases n,
{
    if n < 10 {
        out.push((n as u8) + '0' as u8);
        proof {
            assert(out@ =~= old(out)@ + dec_digits(n as int));
        }
    } else {
        push_digits(n / 10, out);
        out.push(((n % 10) as u8) + '0' as u8);
        proof {
            assert(out@ =~= old(out)@ + dec_digits(n as int));
        }
    }
}

/// Render an amount as a decimal number.
pub(crate) fn render_amount(a: Amount, out: &mut Vec<u8>)
    ensures
        final(out)@ == old(out)@ + render_units(a@),
{
    let u = a.units();
    let mag: u64 = if u < 0 {
        (-(u as i128)) as u64
    } else {
        u as u64
    };
    if u < 0 {
        out.push('-' as u8);
    }
    let whole: u64 = mag / 10000;
    let frac: u64 = mag % 10000;
    push_digits(whole, out);
    if frac != 0 {
        out.push('.' as u8);
        let mut fv: Vec<u8> = Vec::new();
        fv.push((frac / 1000 % 10) as u8 + '0' as u8);
        fv.push((frac / 100 % 10) as u8 + '0' as u8);
        fv.push((frac / 10 % 10) as u8 + '0' as u8);
        fv.push((frac % 10) as u8 + '0' as u8);
        let ghost whole_fv = fv@;
        proof {
            assert(whole_fv =~= seq![
                (frac as int / 1000 % 10 + '0' as u8) as u8,
                (frac as int / 100 % 10 + '0' as u8) as u8,
                (frac as int / 10 % 10 + '0' as u8) as u8,
                (frac as int % 10 + '0' as u8) as u8,
            ]);
        }
        while fv.len() > 0 && fv[fv.len() - 1] == '0' as u8
            invariant
                strip_zeros(whole_fv) == strip_zeros(fv@),
            decreases fv@.len(),
        {
            fv.pop();
        }
        proof {
            assert(strip_zeros(fv@) =~= fv@);
            assert(fv@ == frac_digits(frac as int));
        }
        let mut j: usize = 0;
        let ghost mid = out@;
        while j < fv.len()
            invariant
                0 <= j <= fv@.len(),
                out@ == mid + fv@.take(j as int),
            decreases fv@.len() - j,
        {
            out.push(fv[j]);
            proof {
                assert(out@ =~= mid + fv@.take(j as int + 1));
            }
            j = j + 1;
        }
        proof {
            assert(fv@.take(fv@.len() as int) =~= fv@);
            assert(out@ =~= old(out)@ + render_units(a@));
        }
    } else {
        proof {
            assert(out@ =~= old(out)@ + render_units(a@));
        }
    }
}

impl InputLine {
    /// Whether the record satisfies the shape invariant: an amount is
    /// present exactly when the kind is deposit or withdrawal.
    pub fn valid(&self) -> (r: bool)
        ensures
            r == line_valid(self@),
    {
        match self.kind {
            InputLineType::Deposit => self.amount.is_some(),
            InputLineType::Withdrawal => self.amount.is_some(),
            InputLineType::Dispute => self.amount.is_none(),
            InputLineType::Resolve => self.amount.is_none(),
            InputLineType::Chargeback => self.amount.is_none(),
        }
    }
}

} // verus!
