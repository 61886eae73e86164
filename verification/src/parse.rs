use vstd::prelude::*;

use crate::amount::{
    all_digits, digits_val, digits_value_capped, parse_amount, parse_amount_spec, Amount,
};
use crate::transaction::{Transaction, TransactionType};

verus! {

/// Whether two characters agree up to ASCII case, `b` being the lower-case
/// side.
pub open spec fn eq_lower(a: char, b: char) -> bool {
    a == b || (97 <= b as int <= 122 && a as int + 32 == b as int)
}

/// Whether `s` spells `tag` up to ASCII case, `tag` written in lower case.
pub open spec fn matches_tag(s: Seq<char>, tag: Seq<char>) -> bool {
    s.len() == tag.len() && forall|i: int| 0 <= i < s.len() ==> eq_lower(#[trigger] s[i], tag[i])
}

/// The transaction kind a type tag denotes, compared without regard to
/// ASCII case.
pub open spec fn kind_of_tag(s: Seq<char>) -> Option<TransactionType> {
    if matches_tag(s, "deposit"@) {
        Some(TransactionType::Deposit)
    } else if matches_tag(s, "withdrawal"@) {
        Some(TransactionType::Withdrawal)
    } else if matches_tag(s, "dispute"@) {
        Some(TransactionType::Dispute)
    } else if matches_tag(s, "resolve"@) {
        Some(TransactionType::Resolve)
    } else if matches_tag(s, "chargeback"@) {
        Some(TransactionType::Chargeback)
    } else {
        None
    }
}

/// Whether `s` spells `tag` up to ASCII case.
fn tag_matches(s: &str, tag: &str) -> (r: bool)
    ensures
        r == matches_tag(s@, tag@),
{
    let n = s.unicode_len();
    if n != tag.unicode_len() {
        return false;
    }
    let mut k: usize = 0;
    while k < n
        invariant
            k <= n,
            n == s@.len(),
            n == tag@.len(),
            forall|i: int| 0 <= i < k ==> eq_lower(#[trigger] s@[i], tag@[i]),
        decreases n - k,
    {
        let a = s.get_char(k);
        let b = tag.get_char(k);
        let av = a as u32;
        let bv = b as u32;
        if !(av == bv || (97 <= bv && bv <= 122 && av + 32 == bv)) {
            proof {
                assert(!eq_lower(s@[k as int], tag@[k as int]));
            }
            return false;
        }
        k += 1;
    }
    true
}

/// Parse a type tag into its transaction kind.
pub fn parse_kind(s: &str) -> (r: Option<TransactionType>)
    ensures
        r == kind_of_tag(s@),
{
    if tag_matches(s, "deposit") {
        Some(TransactionType::Deposit)
    } else if tag_matches(s, "withdrawal") {
        Some(TransactionType::Withdrawal)
    } else if tag_matches(s, "dispute") {
        Some(TransactionType::Dispute)
    } else if tag_matches(s, "resolve") {
        Some(TransactionType::Resolve)
    } else if tag_matches(s, "chargeback") {
        Some(TransactionType::Chargeback)
    } else {
        None
    }
}

/// The number an unsigned decimal field denotes, when it is nonempty, all
/// digits, and within `max`.
pub open spec fn parse_uint_spec(s: Seq<char>, max: int) -> Option<int> {
    if s.len() > 0 && all_digits(s) && digits_val(s) <= max {
        Some(digits_val(s))
    } else {
        None
    }
}

/// Parse a client id field.
pub fn parse_u16(s: &str) -> (r: Option<u16>)
    ensures
        r is Some <==> parse_uint_spec(s@, u16::MAX as int) is Some,
        r is Some ==> r.unwrap() as int == parse_uint_spec(s@, u16::MAX as int).unwrap(),
{
    let n = s.unicode_len();
    if n == 0 {
        return None;
    }
    proof {
        assert(s@.subrange(0, n as int) =~= s@);
    }
    match digits_value_capped(s, 0, n, 65535) {
        Some(v) => Some(v as u16),
        None => None,
    }
}

/// Parse a transaction id field.
pub fn parse_u32(s: &str) -> (r: Option<u32>)
    ensures
        r is Some <==> parse_uint_spec(s@, u32::MAX as int) is Some,
        r is Some ==> r.unwrap() as int == parse_uint_spec(s@, u32::MAX as int).unwrap(),
{
    let n = s.unicode_len();
    if n == 0 {
        return None;
    }
    proof {
        assert(s@.subrange(0, n as int) =~= s@);
    }
    match digits_value_capped(s, 0, n, 4294967295) {
        Some(v) => Some(v as u32),
        None => None,
    }
}

/// Whether two strings are equal.
fn str_eq(a: &str, b: &str) -> (r: bool)
    ensures
        r == (a@ == b@),
{
    let n = a.unicode_len();
    if n != b.unicode_len() {
        proof {
            assert(a@ != b@);
        }
        return false;
    }
    let mut k: usize = 0;
    while k < n
        invariant
            k <= n,
            n == a@.len(),
            n == b@.len(),
            forall|i: int| 0 <= i < k ==> a@[i] == b@[i],
        decreases n - k,
    {
        if a.get_char(k) != b.get_char(k) {
            proof {
                assert(a@[k as int] != b@[k as int]);
            }
            return false;
        }
        k += 1;
    }
    proof {
        assert(a@ =~= b@);
    }
    true
}

/// The first position where the header row holds the given column name, or
/// the row's length when it holds none.
pub open spec fn first_col(hs: Seq<Seq<char>>, name: Seq<char>) -> int
    decreases hs.len(),
{
    if hs.len() == 0 {
        0
    } else if hs[0] == name {
        0
    } else {
        1 + first_col(hs.drop_first(), name)
    }
}

/// `first_col` lies in range, nothing before it matches, and when it lies
/// strictly inside the row it points at the name.
pub proof fn lemma_first_col(hs: Seq<Seq<char>>, name: Seq<char>)
    ensures
        0 <= first_col(hs, name) <= hs.len(),
        forall|j: int| 0 <= j < first_col(hs, name) ==> hs[j] != name,
        first_col(hs, name) < hs.len() ==> hs[first_col(hs, name)] == name,
    decreases hs.len(),
{
    if hs.len() > 0 && hs[0] != name {
        lemma_first_col(hs.drop_first(), name);
        assert forall|j: int| 0 <= j < first_col(hs, name) implies hs[j] != name by {
            if j > 0 {
                assert(hs.drop_first()[j - 1] != name);
            }
        }
    }
}

/// Find the first column with the given header name.
#[verifier::loop_isolation(false)]
fn find_col(headers: &Vec<String>, name: &str) -> (r: Option<usize>)
    ensures
        match r {
            Some(i) => i as int == first_col(headers.deep_view(), name@) && i < headers@.len(),
            None => first_col(headers.deep_view(), name@) == headers@.len(),
        },
{
    let ghost hs = headers.deep_view();
    proof {
        lemma_first_col(hs, name@);
        assert(hs.len() == headers@.len());
        assert(forall|j: int| 0 <= j < hs.len() ==> hs[j] == #[trigger] headers@[j]@);
    }
    let mut k: usize = 0;
    while k < headers.len()
        invariant
            k <= headers@.len(),
            hs == headers.deep_view(),
            hs.len() == headers@.len(),
            forall|j: int| 0 <= j < hs.len() ==> hs[j] == #[trigger] headers@[j]@,
            forall|j: int| 0 <= j < k ==> hs[j] != name@,
        decreases headers@.len() - k,
    {
        if str_eq(headers[k].as_str(), name) {
            proof {
                let f = first_col(hs, name@);
                if f < k {
                    assert(hs[f] == name@);
                    assert(false);
                }
                if f > k {
                    assert(hs[k as int] != name@);
                    assert(false);
                }
            }
            return Some(k);
        }
        k += 1;
    }
    proof {
        let f = first_col(hs, name@);
        if f < hs.len() {
            assert(hs[f] == name@);
            assert(false);
        }
    }
    None
}

/// The transaction a data row denotes under the given column positions, or
/// nothing when the row is malformed. A missing, short or empty amount
/// column means a transaction without an amount; a present amount that does
/// not parse makes the row malformed.
pub open spec fn parse_row_spec(row: Seq<Seq<char>>, ti: int, ci: int, xi: int, ai: int) -> Option<
    Transaction,
> {
    if 0 <= ti < row.len() && 0 <= ci < row.len() && 0 <= xi < row.len() {
        match (kind_of_tag(row[ti]), parse_uint_spec(row[ci], u16::MAX as int), parse_uint_spec(
            row[xi],
            u32::MAX as int,
        )) {
            (Some(kind), Some(client), Some(tx)) => {
                if 0 <= ai < row.len() && row[ai].len() > 0 {
                    match parse_amount_spec(row[ai]) {
                        Some(v) => Some(
                            Transaction {
                                kind,
                                client: client as u16,
                                tx: tx as u32,
                                amount: Some(crate::amount::spec_amount(v)),
                                disputed: false,
                            },
                        ),
                        None => None,
                    }
                } else {
                    Some(
                        Transaction {
                            kind,
                            client: client as u16,
                            tx: tx as u32,
                            amount: None,
                            disputed: false,
                        },
                    )
                }
            },
            _ => None,
        }
    } else {
        None
    }
}

/// Parse one data row under the given column positions (`ai < 0` means the
/// table has no amount column).
pub fn parse_row(row: &Vec<String>, ti: usize, ci: usize, xi: usize, ai: Option<usize>) -> (r:
    Option<Transaction>)
    ensures
        r == parse_row_spec(
            row.deep_view(),
            ti as int,
            ci as int,
            xi as int,
            match ai {
                Some(a) => a as int,
                None => -1,
            },
        ),
{
    let ghost rv = row.deep_view();
    proof {
        assert(rv.len() == row@.len());
        assert(forall|j: int| 0 <= j < rv.len() ==> rv[j] == #[trigger] row@[j]@);
    }
    if !(ti < row.len() && ci < row.len() && xi < row.len()) {
        return None;
    }
    let kind = match parse_kind(row[ti].as_str()) {
        Some(k) => k,
        None => { return None; },
    };
    let client = match parse_u16(row[ci].as_str()) {
        Some(c) => c,
        None => { return None; },
    };
    let tx = match parse_u32(row[xi].as_str()) {
        Some(t) => t,
        None => { return None; },
    };
    let mut amount: Option<Amount> = None;
    let mut malformed = false;
    if let Some(a) = ai {
        if a < row.len() {
            let f = row[a].as_str();
            if f.unicode_len() > 0 {
                match parse_amount(f) {
                    Some(v) => {
                        amount = Some(v);
                        proof {
                            crate::amount::lemma_spec_amount(parse_amount_spec(rv[a as int]).unwrap(), v);
                        }
                    },
                    None => {
                        malformed = true;
                    },
                }
            }
        }
    }
    if malformed {
        return None;
    }
    Some(Transaction { kind, client, tx, amount, disputed: false })
}

/// The transactions the data rows denote under the given column positions;
/// rows that do not parse are skipped.
pub open spec fn parse_data_rows(
    rows: Seq<Seq<Seq<char>>>,
    ti: int,
    ci: int,
    xi: int,
    ai: int,
) -> Seq<Transaction>
    decreases rows.len(),
{
    if rows.len() == 0 {
        Seq::empty()
    } else {
        let rest = parse_data_rows(rows.drop_last(), ti, ci, xi, ai);
        match parse_row_spec(rows.last(), ti, ci, xi, ai) {
            Some(t) => rest.push(t),
            None => rest,
        }
    }
}

/// The transactions a whole record table denotes: the first row names the
/// columns, the rest are data rows, and rows that do not parse are skipped.
/// A table without the three required columns denotes nothing.
pub open spec fn parse_rows_spec(rows: Seq<Seq<Seq<char>>>) -> Seq<Transaction> {
    if rows.len() == 0 {
        Seq::empty()
    } else {
        let hs = rows[0];
        let ti = first_col(hs, "type"@);
        let ci = first_col(hs, "client"@);
        let xi = first_col(hs, "tx"@);
        let ai = first_col(hs, "amount"@);
        if ti < hs.len() && ci < hs.len() && xi < hs.len() {
            parse_data_rows(
                rows.drop_first(),
                ti,
                ci,
                xi,
                if ai < hs.len() {
                    ai
                } else {
                    -1
                },
            )
        } else {
            Seq::empty()
        }
    }
}

/// The positions, among the table's records, of the data rows the given
/// column positions cannot parse (the header row has position zero).
pub open spec fn skipped_data_rows(
    rows: Seq<Seq<Seq<char>>>,
    ti: int,
    ci: int,
    xi: int,
    ai: int,
) -> Seq<usize>
    decreases rows.len(),
{
    if rows.len() == 0 {
        Seq::empty()
    } else {
        let rest = skipped_data_rows(rows.drop_last(), ti, ci, xi, ai);
        match parse_row_spec(rows.last(), ti, ci, xi, ai) {
            Some(_) => rest,
            None => rest.push(rows.len() as usize),
        }
    }
}

/// The positions of the records a table drops: its malformed data rows, or
/// every data row when the header lacks a required column. The header row
/// has position zero, so a position is an index into the table's records.
pub open spec fn skipped_rows_spec(rows: Seq<Seq<Seq<char>>>) -> Seq<usize> {
    if rows.len() == 0 {
        Seq::empty()
    } else {
        let hs = rows[0];
        let ti = first_col(hs, "type"@);
        let ci = first_col(hs, "client"@);
        let xi = first_col(hs, "tx"@);
        let ai = first_col(hs, "amount"@);
        if ti < hs.len() && ci < hs.len() && xi < hs.len() {
            skipped_data_rows(
                rows.drop_first(),
                ti,
                ci,
                xi,
                if ai < hs.len() {
                    ai
                } else {
                    -1
                },
            )
        } else {
            Seq::new((rows.len() - 1) as nat, |i: int| (i + 1) as usize)
        }
    }
}

/// The positions of the records a table drops, exactly as
/// `skipped_rows_spec` describes.
#[verifier::loop_isolation(false)]
pub fn skipped_rows(rows: &Vec<Vec<String>>) -> (r: Vec<usize>)
    ensures
        r@ == skipped_rows_spec(rows.deep_view()),
{
    let ghost rv = rows.deep_view();
    proof {
        assert(rv.len() == rows@.len());
        assert(forall|j: int| 0 <= j < rv.len() ==> rv[j] == #[trigger] rows@[j].deep_view());
    }
    let mut out: Vec<usize> = Vec::new();
    if rows.len() == 0 {
        proof {
            assert(out@ =~= skipped_rows_spec(rv));
        }
        return out;
    }
    let headers = &rows[0];
    let ti = find_col(headers, "type");
    let ci = find_col(headers, "client");
    let xi = find_col(headers, "tx");
    let ai = find_col(headers, "amount");
    let ghost aii: int = match ai {
        Some(a) => a as int,
        None => -1,
    };
    match (ti, ci, xi) {
        (Some(t), Some(c), Some(x)) => {
            let mut k: usize = 1;
            while k < rows.len()
                invariant
                    1 <= k <= rows@.len(),
                    out@ == skipped_data_rows(
                        rv.subrange(1, k as int),
                        t as int,
                        c as int,
                        x as int,
                        aii,
                    ),
                decreases rows@.len() - k,
            {
                if parse_row(&rows[k], t, c, x, ai).is_none() {
                    out.push(k);
                }
                k += 1;
                proof {
                    let sub = rv.subrange(1, k as int);
                    assert(sub.drop_last() =~= rv.subrange(1, k - 1));
                    assert(sub.last() == rv[k - 1]);
                    assert(sub.len() == k - 1);
                }
            }
            proof {
                assert(rv.subrange(1, rv.len() as int) =~= rv.drop_first());
            }
        },
        _ => {
            // a required column is missing: every data row is dropped
            let mut k: usize = 1;
            while k < rows.len()
                invariant
                    1 <= k <= rows@.len(),
                    out@.len() == k - 1,
                    forall|i: int| 0 <= i < out@.len() ==> #[trigger] out@[i] == (i + 1) as usize,
                decreases rows@.len() - k,
            {
                out.push(k);
                k += 1;
            }
            proof {
                assert(out@ =~= Seq::new((rv.len() - 1) as nat, |i: int| (i + 1) as usize));
            }
        },
    }
    out
}

/// Parse a whole record table into its transactions.
#[verifier::loop_isolation(false)]
pub fn parse_rows(rows: &Vec<Vec<String>>) -> (r: Vec<Transaction>)
    ensures
        r@ == parse_rows_spec(rows.deep_view()),
{
    let ghost rv = rows.deep_view();
    proof {
        assert(rv.len() == rows@.len());
        assert(forall|j: int| 0 <= j < rv.len() ==> rv[j] == #[trigger] rows@[j].deep_view());
    }
    if rows.len() == 0 {
        return Vec::new();
    }
    let headers = &rows[0];
    let ti = match find_col(headers, "type") {
        Some(i) => i,
        None => { return Vec::new(); },
    };
    let ci = match find_col(headers, "client") {
        Some(i) => i,
        None => { return Vec::new(); },
    };
    let xi = match find_col(headers, "tx") {
        Some(i) => i,
        None => { return Vec::new(); },
    };
    let ai = find_col(headers, "amount");
    let ghost aii: int = match ai {
        Some(a) => a as int,
        None => -1,
    };
    let mut out: Vec<Transaction> = Vec::new();
    let mut k: usize = 1;
    while k < rows.len()
        invariant
            1 <= k <= rows@.len(),
            rv == rows.deep_view(),
            rv.len() == rows@.len(),
            forall|j: int| 0 <= j < rv.len() ==> rv[j] == #[trigger] rows@[j].deep_view(),
            out@ == parse_data_rows(
                rv.subrange(1, k as int),
                ti as int,
                ci as int,
                xi as int,
                aii,
            ),
        decreases rows@.len() - k,
    {
        match parse_row(&rows[k], ti, ci, xi, ai) {
            Some(t) => out.push(t),
            None => {},
        }
        k += 1;
        proof {
            let sub = rv.subrange(1, k as int);
            assert(sub.drop_last() =~= rv.subrange(1, k - 1));
            assert(sub.last() == rv[k - 1]);
        }
    }
    proof {
        assert(rv.subrange(1, rv.len() as int) =~= rv.drop_first());
    }
    out
}

} // verus!
