//! Horizon payments: the records the ingest worker reads, the request URL it polls, and the
//! decisions it takes on each reply.
//!
//! The worker polls an account's `/payments` endpoint (with `join=transactions` so the memo comes
//! along) from a saved paging-token cursor, oldest first, so the cursor advances monotonically.
//! The HTTP exchange itself is I/O and lives outside this crate; this module builds the request
//! and classifies what came back.

use vstd::prelude::*;

use crate::text::{all_digits, decimal, digit_char, digits_value, lemma_decimal};

verus! {

/// Errors talking to Horizon.
#[derive(Debug, Clone, Copy, PartialEq, Eq, Structural)]
pub enum HorizonError {
    /// The request could not be sent, or Horizon answered with a non-success status.
    Request,
    /// Horizon answered, but the body was not the expected payments page.
    Decode,
}

/// One payment record from Horizon (the fields octo needs).
#[derive(Debug, Clone)]
pub struct PaymentRecord {
    /// The operation TOID — globally unique; used as the idempotent dedup key.
    pub id: String,
    /// Cursor token for resuming after this record.
    pub paging_token: String,
    /// `"payment"` or `"create_account"` etc. Only `payment` (and createAccount) is credited.
    pub kind: String,
    pub transaction_hash: Option<String>,
    pub transaction_successful: bool,
    pub from: Option<String>,
    /// Destination base account (`G...`).
    pub to: Option<String>,
    /// Present when the payment was sent to a muxed (`M...`) address.
    pub to_muxed: Option<String>,
    /// The muxed id (customer id) when `to_muxed` is set. Horizon returns it as a string.
    pub to_muxed_id: Option<String>,
    pub asset_type: Option<String>,
    pub asset_code: Option<String>,
    pub asset_issuer: Option<String>,
    /// Decimal amount string, e.g. "10.0000000".
    pub amount: Option<String>,
    /// createAccount uses `starting_balance` instead of `amount`.
    pub starting_balance: Option<String>,
    /// Joined parent transaction (for memo + ledger).
    pub transaction: Option<TransactionRecord>,
}

/// The joined transaction fields in use.
#[derive(Debug, Clone)]
pub struct TransactionRecord {
    pub memo_type: Option<String>,
    pub memo: Option<String>,
    pub ledger: Option<i64>,
}

/// `s` without its trailing `'/'` characters, as `str::trim_end_matches('/')` gives it.
pub open spec fn trim_trailing_slashes(s: Seq<char>) -> Seq<char>
    decreases s.len(),
{
    if s.len() > 0 && s.last() == '/' {
        trim_trailing_slashes(s.drop_last())
    } else {
        s
    }
}

/// The payments URL for `account` under the Horizon root `base`: oldest first, at most `limit`
/// records, joined with their transactions, and after `cursor` when one is given.
pub open spec fn payments_url_of(
    base: Seq<char>,
    account: Seq<char>,
    cursor: Option<Seq<char>>,
    limit: nat,
) -> Seq<char> {
    let url = trim_trailing_slashes(base) + "/accounts/"@ + account + "/payments?order=asc&limit="@
        + decimal(limit) + "&join=transactions"@;
    match cursor {
        Some(c) => url + "&cursor="@ + c,
        None => url,
    }
}

/// Appends `c` with `String::push`, which std documents as appending the character to the end
/// of the string. The contract claims exactly that.
#[verifier::external_body]
fn push_char(s: &mut String, c: char)
    ensures
        final(s)@ == old(s)@.push(c),
{
    s.push(c);
}

/// Appends `n` in decimal to `s`.
fn push_decimal(s: &mut String, n: u32)
    ensures
        final(s)@ == old(s)@ + decimal(n as nat),
    decreases n,
{
    if n >= 10 {
        push_decimal(s, n / 10);
    }
    let d = (n % 10) as u8;
    push_char(s, (48u8 + d) as char);
    proof {
        if n < 10 {
            assert(old(s)@ + decimal(n as nat) =~= old(s)@.push(digit_char(n as nat)));
        } else {
            assert(old(s)@ + decimal(n as nat) =~= (old(s)@ + decimal((n / 10) as nat)).push(
                digit_char((n % 10) as nat),
            ));
        }
    }
}

/// Build the URL that fetches up to `limit` payments for `account_g`, oldest first
/// (`order=asc`), joined with their transactions, starting after `cursor` when given.
pub fn payments_url(base_url: &str, account_g: &str, cursor: Option<&str>, limit: u32) -> (url:
    String)
    ensures
        url@ == payments_url_of(
            base_url@,
            account_g@,
            match cursor {
                Some(c) => Some(c@),
                None => None,
            },
            limit as nat,
        ),
{
    let base = crate::text::chars_of(base_url);
    let mut end = base.len();
    assert(base@.take(end as int) =~= base@);
    while end > 0 && base[end - 1] == '/'
        invariant
            end <= base.len(),
            trim_trailing_slashes(base@) == trim_trailing_slashes(base@.take(end as int)),
        decreases end,
    {
        assert(base@.take(end as int).drop_last() =~= base@.take(end - 1));
        end = end - 1;
    }
    assert(trim_trailing_slashes(base@) == base@.take(end as int));
    let mut url = String::new();
    let mut i: usize = 0;
    while i < end
        invariant
            i <= end <= base.len(),
            url@ == base@.take(i as int),
        decreases end - i,
    {
        push_char(&mut url, base[i]);
        assert(base@.take(i + 1) =~= base@.take(i as int).push(base@[i as int]));
        i = i + 1;
    }
    url.append("/accounts/");
    url.append(account_g);
    url.append("/payments?order=asc&limit=");
    push_decimal(&mut url, limit);
    url.append("&join=transactions");
    if let Some(c) = cursor {
        url.append("&cursor=");
        url.append(c);
    }
    url
}

/// What a reply with HTTP status `status` (or `None` when the request could not be sent)
/// leads to.
pub open spec fn response_outcome(status: Option<u16>) -> Result<(), HorizonError> {
    match status {
        Some(code) => if 200 <= code <= 299 {
            Ok(())
        } else {
            Err(HorizonError::Request)
        },
        None => Err(HorizonError::Request),
    }
}

/// Classify the reply to a payments request: `status` is the HTTP status of the reply, or
/// `None` when the request could not be sent. Only a 2xx status lets the body be read.
pub fn check_response(status: Option<u16>) -> (r: Result<(), HorizonError>)
    ensures
        r == response_outcome(status),
{
    match status {
        Some(code) => if 200 <= code && code <= 299 {
            Ok(())
        } else {
            Err(HorizonError::Request)
        },
        None => Err(HorizonError::Request),
    }
}

/// What a successful reply whose body held `records` (or `None` when it was not a payments
/// page) leads to.
pub open spec fn page_outcome(records: Option<Vec<PaymentRecord>>) -> Result<
    Vec<PaymentRecord>,
    HorizonError,
> {
    match records {
        Some(list) => Ok(list),
        None => Err(HorizonError::Decode),
    }
}

/// Classify the body of a successful reply: `records` is the list of payment records it held,
/// or `None` when it was not a payments page.
pub fn check_page(records: Option<Vec<PaymentRecord>>) -> (r: Result<
    Vec<PaymentRecord>,
    HorizonError,
>)
    ensures
        r == page_outcome(records),
{
    match records {
        Some(list) => Ok(list),
        None => Err(HorizonError::Decode),
    }
}

/// A reply is read exactly when it arrived with a status of the success class (2xx); every
/// other reply, and a request that could not be sent, is a request error, never a decode
/// error.
pub proof fn lemma_only_success_statuses_are_read(status: Option<u16>)
    ensures
        response_outcome(status) is Ok <==> (status matches Some(code) && code / 100 == 2),
        response_outcome(status) matches Err(e) ==> e == HorizonError::Request,
{
}

/// A decoded page hands back its records untouched, in Horizon's order; an undecodable body
/// is a decode error, never a request error.
pub proof fn lemma_page_records_untouched(records: Option<Vec<PaymentRecord>>)
    ensures
        records matches Some(list) ==> page_outcome(records) == Ok::<Vec<PaymentRecord>, HorizonError>(list),
        records is None ==> page_outcome(records) == Err::<Vec<PaymentRecord>, HorizonError>(HorizonError::Decode),
{
}

/// Trailing `'/'` characters on the Horizon root do not change the URL.
pub proof fn lemma_trailing_slash_ignored(
    base: Seq<char>,
    account: Seq<char>,
    cursor: Option<Seq<char>>,
    limit: nat,
)
    ensures
        payments_url_of(base.push('/'), account, cursor, limit) == payments_url_of(
            base,
            account,
            cursor,
            limit,
        ),
{
    assert(base.push('/').drop_last() =~= base);
}

/// A run of `k` `'/'` characters.
pub open spec fn slashes(k: nat) -> Seq<char> {
    Seq::new(k, |_i: int| '/')
}

/// Any number of trailing `'/'` characters on the Horizon root leaves the URL unchanged.
pub proof fn lemma_trailing_slashes_ignored(
    base: Seq<char>,
    k: nat,
    account: Seq<char>,
    cursor: Option<Seq<char>>,
    limit: nat,
)
    ensures
        payments_url_of(base + slashes(k), account, cursor, limit) == payments_url_of(
            base,
            account,
            cursor,
            limit,
        ),
    decreases k,
{
    if k == 0 {
        assert(base + slashes(0) =~= base);
    } else {
        let k1 = (k - 1) as nat;
        assert(base + slashes(k) =~= (base + slashes(k1)).push('/'));
        lemma_trailing_slash_ignored(base + slashes(k1), account, cursor, limit);
        lemma_trailing_slashes_ignored(base, k1, account, cursor, limit);
    }
}

/// The request URL keeps the Horizon root whole, path included (only trailing `'/'`
/// characters are dropped): it is the root, then `/accounts/`, the account, the payments path
/// asking for the oldest records first, the limit in decimal, the transaction join, and the
/// cursor when one is given.
pub proof fn lemma_payments_url_keeps_base(
    base: Seq<char>,
    account: Seq<char>,
    cursor: Option<Seq<char>>,
    limit: nat,
)
    requires
        base.len() == 0 || base.last() != '/',
    ensures
        (base + "/accounts/"@ + account).is_prefix_of(
            payments_url_of(base, account, cursor, limit),
        ),
        payments_url_of(base, account, cursor, limit) == base + "/accounts/"@ + account
            + "/payments?order=asc&limit="@ + decimal(limit) + "&join=transactions"@ + match cursor {
            Some(c) => "&cursor="@ + c,
            None => Seq::empty(),
        },
        all_digits(decimal(limit)),
        digits_value(decimal(limit)) == limit,
        limit > 0 ==> decimal(limit)[0] != '0',
{
    lemma_decimal(limit);
    assert(trim_trailing_slashes(base) == base);
    let head = base + "/accounts/"@ + account;
    let url = payments_url_of(base, account, cursor, limit);
    let tail = "/payments?order=asc&limit="@ + decimal(limit) + "&join=transactions"@ + match cursor {
        Some(c) => "&cursor="@ + c,
        None => Seq::empty(),
    };
    match cursor {
        Some(c) => {
            assert(url =~= head + tail);
        },
        None => {
            assert(url =~= head + tail);
        },
    }
    assert(url.subrange(0, head.len() as int) =~= head);
}

} // verus!
