//! Which connections are let in, and which of the transactions that come over them.

use crate::net::Ip;
use crate::tpu::error::{LimitReason, TpuError};
use crate::tpu::forwarder::{single_tx_borsh_size, tx_bytes_of};
use crate::tpu::protocol::{received, TpuMessage};
use crate::tpu::rate_limiter::{
    checked, left_to, limited, rolled, whole_seconds, with_ip, IpState, RateLimiter,
};
use crate::tpu::tx_validator::{
    batch_flaw_of, batch_judged, finish_validate, flaw_of, good_batches_are_taken_in, validate_batch,
    validate_structure,
};
use crate::ledger::{SignedTransactionBatch, Transaction};
use vstd::prelude::*;

verus! {

/// What becomes of an incoming connection.
pub enum Admission {
    Accepted,
    /// The address is at a limit.
    OverLimit(TpuError),
    /// The server handles as many connections as it can.
    ServerFull,
}

/// What becomes of a message: the transactions that are let in, and whether the connection
/// is closed because its address is over a limit.
pub struct Screened {
    pub accepted: Vec<Transaction>,
    pub close: bool,
}

/// How many tokens an address can still get at a moment.
pub open spec fn tokens_left(l: RateLimiter, ip: Ip, now: u64) -> int {
    match with_ip(l.states(), ip, now) {
        None => 0,
        Some(rows) => {
            let own = l.ip_limit() - rolled(rows[ip], now).tx_count;
            let all = l.global_limit() - l.window().used_at(now);
            if own <= all {
                own
            } else {
                all
            }
        },
    }
}

/// The smaller number.
pub open spec fn at_most(n: nat, limit: int) -> nat {
    if n <= limit {
        n
    } else if limit > 0 {
        limit as nat
    } else {
        0
    }
}

/// `k` single tokens were granted to the address at `now`.
pub open spec fn granted(was: RateLimiter, is: RateLimiter, ip: Ip, k: nat, now: u64) -> bool {
    match with_ip(was.states(), ip, now) {
        None => k == 0 && is.states() == was.states() && is.window() == was.window(),
        Some(rows) => {
            let s = rolled(rows[ip], now);
            &&& is.states() == rows.insert(ip, IpState { tx_count: (s.tx_count + k) as u64, ..s })
            &&& is.window().origin() == was.window().origin()
            &&& is.window().used_at(now) == was.window().used_at(now) + k
            &&& k == 0 ==> is.window() == was.window()
        },
    }
}

/// What was found of each transaction that was looked at, each with its own size.
pub open spec fn verdicts_of<V: Fn(&Transaction) -> Result<(), String>>(
    verify: V,
    txs: Seq<Transaction>,
    ok: Seq<bool>,
) -> bool {
    forall|i: int|
        0 <= i < ok.len() ==> if #[trigger] ok[i] {
            flaw_of(txs[i], tx_bytes_of(txs[i])) is None && verify.ensures((&txs[i],), Ok(()))
        } else {
            flaw_of(txs[i], tx_bytes_of(txs[i])) is Some || exists|why: String| #[trigger]
                verify.ensures((&txs[i],), Err(why))
        }
}

/// The transactions that were found good, in order.
pub open spec fn good_ones(txs: Seq<Transaction>, ok: Seq<bool>) -> Seq<Transaction>
    decreases ok.len(),
{
    if ok.len() == 0 {
        Seq::empty()
    } else {
        let before = good_ones(txs, ok.drop_last());
        if ok.last() {
            before.push(txs[ok.len() - 1])
        } else {
            before
        }
    }
}

proof fn lemma_one_more(
    was: RateLimiter,
    mid: RateLimiter,
    is: RateLimiter,
    ip: Ip,
    k: nat,
    now: u64,
    r: Result<(), TpuError>,
)
    requires
        was.well_formed(),
        mid.well_formed(),
        mid.same_limits(&was),
        k > 0 || mid == was,
        k > 0 ==> granted(was, mid, ip, k, now),
        k <= tokens_left(was, ip, now) || k == 0,
        checked(&mid, &is, ip, 1, now, r),
    ensures
        r is Ok ==> granted(was, is, ip, k + 1, now) && k + 1 <= tokens_left(was, ip, now),
        r is Err ==> granted(was, is, ip, k, now) && k + 1 > tokens_left(was, ip, now),
{
    if k > 0 {
        let rows = with_ip(was.states(), ip, now)->0;
        let s = rolled(rows[ip], now);
        let t = IpState { tx_count: (s.tx_count + k) as u64, ..s };
        assert(mid.states()[ip] == t);
        assert(with_ip(mid.states(), ip, now) == Some(mid.states()));
        assert(whole_seconds(s.window_start, now) < 1);
        assert(rolled(t, now) == t);
        assert(s.tx_count + k <= was.ip_limit());
        assert(mid.states().insert(ip, t) =~= mid.states());
        let u = IpState { tx_count: (s.tx_count + k + 1) as u64, ..s };
        assert(mid.states().insert(ip, u) =~= rows.insert(ip, u));
    }
}

/// What becomes of an incoming connection, and of the counts.
pub open spec fn admitted<P: FnOnce() -> bool>(
    was: RateLimiter,
    is: RateLimiter,
    ip: Ip,
    now: u64,
    take_permit: P,
    r: Admission,
) -> bool {
    match with_ip(was.states(), ip, now) {
        None => {
            &&& r matches Admission::OverLimit(e) && limited(LimitReason::AtCapacity) == Err::<
                (),
                TpuError,
            >(e)
            &&& is.states() == was.states()
        },
        Some(rows) => if rows[ip].connection_count >= was.connection_limit() {
            &&& r matches Admission::OverLimit(e) && limited(LimitReason::Connections(ip)) == Err::<
                (),
                TpuError,
            >(e)
            &&& is.states() == rows
        } else {
            exists|permit: bool| #[trigger]
                take_permit.ensures((), permit) && if permit {
                    &&& r is Accepted
                    &&& is.states() == rows.insert(
                        ip,
                        IpState {
                            connection_count: (rows[ip].connection_count + 1) as u64,
                            ..rows[ip]
                        },
                    )
                } else {
                    r is ServerFull && is.states() == rows
                }
        },
    }
}

/// Decides on an incoming connection: its address must be within its limits, and then
/// `take_permit` says whether the server can take one more.
pub fn admit_connection<P: FnOnce() -> bool>(
    limiter: &mut RateLimiter,
    ip: Ip,
    now: u64,
    take_permit: P,
) -> (r: Admission)
    requires
        old(limiter).well_formed(),
        take_permit.requires(()),
    ensures
        final(limiter).well_formed(),
        final(limiter).same_limits(old(limiter)),
        final(limiter).window() == old(limiter).window(),
        admitted(*old(limiter), *final(limiter), ip, now, take_permit, r),
{
    match limiter.try_add_connection(ip, now) {
        Err(e) => Admission::OverLimit(e),
        Ok(()) => {
            if take_permit() {
                Admission::Accepted
            } else {
                limiter.remove_connection(ip);
                proof {
                    let rows = with_ip(old(limiter).states(), ip, now)->0;
                    assert(limiter.states() =~= rows);
                }
                Admission::ServerFull
            }
        },
    }
}

/// What becomes of a signed batch: it is refused if it is not valid, which the two checks
/// have a say in, and else what `to_transactions` makes of it is let in, if there are tokens
/// for all its entries.
pub open spec fn batch_screened<
    F: FnOnce(&SignedTransactionBatch) -> bool,
    G: FnOnce(&SignedTransactionBatch) -> bool,
    T: FnOnce(&SignedTransactionBatch) -> Vec<Transaction>,
>(
    was: RateLimiter,
    is: RateLimiter,
    ip: Ip,
    batch: SignedTransactionBatch,
    size: nat,
    now: u64,
    verify_signature: F,
    verify_all: G,
    to_transactions: T,
    r: Screened,
) -> bool {
    exists|signature_ok: bool, proofs_ok: bool, valid: Result<(), TpuError>| #[trigger]
        batch_judged(batch, size, signature_ok, proofs_ok, valid) && (batch_flaw_of(
            batch,
            size,
        ) is None ==> verify_signature.ensures((&batch,), signature_ok) && (signature_ok
            ==> verify_all.ensures((&batch,), proofs_ok))) && if valid is Err {
            &&& r.accepted@.len() == 0
            &&& !r.close
            &&& is == was
        } else {
            let n = batch.entries@.len();
            let ok = n <= tokens_left(was, ip, now);
            &&& r.close == !ok
            &&& if ok {
                to_transactions.ensures((&batch,), r.accepted)
            } else {
                r.accepted@.len() == 0
            }
            &&& checked(
                &was,
                &is,
                ip,
                n,
                now,
                if ok {
                    Ok(())
                } else {
                    refusal(was, ip, n, now)
                },
            )
        }
}

/// What becomes of transactions that came in one message: each takes a token as long as
/// there are any, and those that are valid are let in.
pub open spec fn transactions_screened<V: Fn(&Transaction) -> Result<(), String>>(
    was: RateLimiter,
    is: RateLimiter,
    ip: Ip,
    txs: Seq<Transaction>,
    now: u64,
    verify: V,
    r: Screened,
) -> bool {
    let n = txs.len();
    let left = tokens_left(was, ip, now);
    let k = at_most(n, left);
    &&& r.close == (n > left && n > 0)
    &&& n > 0 ==> granted(was, is, ip, k, now)
    &&& n == 0 ==> is == was
    &&& exists|ok: Seq<bool>|
        ok.len() == k && #[trigger] verdicts_of(verify, txs, ok) && r.accepted@ == good_ones(
            txs,
            ok,
        )
}

/// What becomes of a message.
pub open spec fn message_screened<
    F: FnOnce(&SignedTransactionBatch) -> bool,
    G: FnOnce(&SignedTransactionBatch) -> bool,
    T: FnOnce(&SignedTransactionBatch) -> Vec<Transaction>,
    V: Fn(&Transaction) -> Result<(), String>,
>(
    was: RateLimiter,
    is: RateLimiter,
    ip: Ip,
    msg: TpuMessage,
    size: nat,
    now: u64,
    verify_signature: F,
    verify_all: G,
    to_transactions: T,
    verify: V,
    r: Screened,
) -> bool {
    match msg {
        TpuMessage::SignedBatch(batch) => batch_screened(
            was,
            is,
            ip,
            *batch,
            size,
            now,
            verify_signature,
            verify_all,
            to_transactions,
            r,
        ),
        TpuMessage::Transaction(tx) => transactions_screened(
            was,
            is,
            ip,
            seq![*tx],
            now,
            verify,
            r,
        ),
        TpuMessage::TransactionBatch(txs) => transactions_screened(
            was,
            is,
            ip,
            txs@,
            now,
            verify,
            r,
        ),
    }
}

/// Reads what came in on a stream and screens it: the transactions that are let in, and
/// whether the connection is closed. What is no message is an error, and takes no tokens.
pub fn screen_stream<
    F: FnOnce(&SignedTransactionBatch) -> bool,
    G: FnOnce(&SignedTransactionBatch) -> bool,
    T: FnOnce(&SignedTransactionBatch) -> Vec<Transaction>,
    V: Fn(&Transaction) -> Result<(), String>,
>(
    limiter: &mut RateLimiter,
    ip: Ip,
    data: &[u8],
    now: u64,
    verify_signature: F,
    verify_all: G,
    to_transactions: T,
    verify: V,
) -> (r: Result<Screened, TpuError>)
    requires
        old(limiter).well_formed(),
        forall|batch: &SignedTransactionBatch| #[trigger] verify_signature.requires((batch,)),
        forall|batch: &SignedTransactionBatch| #[trigger] verify_all.requires((batch,)),
        forall|batch: &SignedTransactionBatch| #[trigger] to_transactions.requires((batch,)),
        forall|tx: &Transaction| #[trigger] verify.requires((tx,)),
    ensures
        final(limiter).well_formed(),
        final(limiter).same_limits(old(limiter)),
        exists|read: Result<(TpuMessage, usize), TpuError>| #[trigger]
            received(data@, read) && match read {
                Ok((msg, size)) => r matches Ok(screened) && message_screened(
                    *old(limiter),
                    *final(limiter),
                    ip,
                    msg,
                    size as nat,
                    now,
                    verify_signature,
                    verify_all,
                    to_transactions,
                    verify,
                    screened,
                ),
                Err(e) => r == Err::<Screened, TpuError>(e) && *final(limiter) == *old(limiter),
            },
{
    let read = TpuMessage::deserialize_from_bytes(data);
    assert(received(data@, read));
    match read {
        Err(e) => Err(e),
        Ok((TpuMessage::SignedBatch(batch), size)) => Ok(
            screen_batch(
                limiter,
                ip,
                batch,
                size,
                now,
                verify_signature,
                verify_all,
                to_transactions,
            ),
        ),
        Ok((msg, _)) => Ok(
            screen_transactions(
                limiter,
                ip,
                msg.into_transactions(to_transactions),
                now,
                verify,
            ),
        ),
    }
}

/// Screens a signed batch: it is let in whole, as the transactions that `to_transactions`
/// makes of it, or not at all.
pub fn screen_batch<
    F: FnOnce(&SignedTransactionBatch) -> bool,
    G: FnOnce(&SignedTransactionBatch) -> bool,
    T: FnOnce(&SignedTransactionBatch) -> Vec<Transaction>,
>(
    limiter: &mut RateLimiter,
    ip: Ip,
    batch: Box<SignedTransactionBatch>,
    decompressed_len: usize,
    now: u64,
    verify_signature: F,
    verify_all: G,
    to_transactions: T,
) -> (r: Screened)
    requires
        old(limiter).well_formed(),
        verify_signature.requires((&*batch,)),
        verify_all.requires((&*batch,)),
        to_transactions.requires((&*batch,)),
    ensures
        final(limiter).well_formed(),
        final(limiter).same_limits(old(limiter)),
        batch_screened(
            *old(limiter),
            *final(limiter),
            ip,
            *batch,
            decompressed_len as nat,
            now,
            verify_signature,
            verify_all,
            to_transactions,
            r,
        ),
{
    let valid = validate_batch(&batch, decompressed_len, verify_signature, verify_all);
    if valid.is_err() {
        return Screened { accepted: Vec::new(), close: false };
    }
    let n: u64 = batch.entries.len() as u64;
    match limiter.check_rate_limit_n(ip, n, now) {
        Err(_) => Screened { accepted: Vec::new(), close: true },
        Ok(()) => Screened { accepted: to_transactions(&*batch), close: false },
    }
}

/// The error with which `n` tokens are refused.
pub open spec fn refusal(l: RateLimiter, ip: Ip, n: nat, now: u64) -> Result<(), TpuError> {
    match with_ip(l.states(), ip, now) {
        None => limited(LimitReason::AtCapacity),
        Some(rows) => if rolled(rows[ip], now).tx_count + n > l.ip_limit() {
            limited(LimitReason::PerIp(ip))
        } else {
            limited(LimitReason::Global)
        },
    }
}

/// Screens transactions that came in one message. Each takes a token; when there are none
/// left, the rest is dropped and the connection closed. A transaction that is not valid, by
/// its own size among other things, is dropped.
pub fn screen_transactions<V: Fn(&Transaction) -> Result<(), String>>(
    limiter: &mut RateLimiter,
    ip: Ip,
    txs: Vec<Transaction>,
    now: u64,
    verify: V,
) -> (r: Screened)
    requires
        old(limiter).well_formed(),
        forall|tx: &Transaction| #[trigger] verify.requires((tx,)),
    ensures
        final(limiter).well_formed(),
        final(limiter).same_limits(old(limiter)),
        transactions_screened(
            *old(limiter),
            *final(limiter),
            ip,
            txs@,
            now,
            verify,
            r,
        ),
{
    let ghost all = txs@;
    let ghost start = *limiter;
    let ghost mut ok: Seq<bool> = Seq::empty();
    let mut accepted: Vec<Transaction> = Vec::new();
    let mut close = false;
    for tx in it: txs
        invariant
            it.seq() == all,
            all == txs@,
            start == *old(limiter),
            start.well_formed(),
            limiter.well_formed(),
            limiter.same_limits(&start),
            forall|t: &Transaction| #[trigger] verify.requires((t,)),
            !close ==> {
                &&& ok.len() == it.index()
                &&& it.index() == 0 ==> *limiter == start
                &&& it.index() > 0 ==> granted(start, *limiter, ip, it.index() as nat, now)
                &&& it.index() <= tokens_left(start, ip, now) || it.index() == 0
            },
            close ==> {
                &&& ok.len() < all.len()
                &&& granted(start, *limiter, ip, ok.len(), now)
                &&& ok.len() <= tokens_left(start, ip, now) || ok.len() == 0
                &&& ok.len() + 1 > tokens_left(start, ip, now)
            },
            verdicts_of(verify, all, ok),
            accepted@ == good_ones(all, ok),
    {
        if !close {
            let ghost k = it.index() as nat;
            let ghost mid = *limiter;
            let r = limiter.check_rate_limit(ip, now);
            proof {
                lemma_one_more(start, mid, *limiter, ip, k, now, r);
            }
            match r {
                Err(_) => {
                    close = true;
                },
                Ok(()) => {
                    assert(tx == all[k as int]);
                    let mut good = false;
                    match validate_structure(&tx, single_tx_borsh_size(&tx)) {
                        Err(_) => {},
                        Ok(()) => {
                            let said = verify(&tx);
                            let ghost heard = said;
                            good = finish_validate(said).is_ok();
                            proof {
                                assert(verify.ensures((&all[k as int],), heard));
                                match heard {
                                    Ok(u) => {
                                        assert(u == ());
                                        assert(verify.ensures((&all[k as int],), Ok(())));
                                    },
                                    Err(why) => {
                                        assert(verify.ensures((&all[k as int],), Err(why)));
                                    },
                                }
                            }
                        },
                    }
                    let ghost was = ok;
                    proof {
                        ok = ok.push(good);
                        assert(ok.drop_last() =~= was);
                        assert forall|i: int| 0 <= i < ok.len() implies if #[trigger] ok[i] {
                            flaw_of(
                                all[i],
                                tx_bytes_of(all[i]),
                            ) is None && verify.ensures((&all[i],), Ok(()))
                        } else {
                            flaw_of(
                                all[i],
                                tx_bytes_of(all[i]),
                            ) is Some || exists|why: String| #[trigger]
                                verify.ensures((&all[i],), Err(why))
                        } by {
                            if i < k {
                                assert(was[i] == ok[i]);
                                assert(if was[i] {
                                    flaw_of(all[i], tx_bytes_of(all[i])) is None && verify.ensures(
                                        (&all[i],),
                                        Ok(()),
                                    )
                                } else {
                                    flaw_of(
                                        all[i],
                                        tx_bytes_of(all[i]),
                                    ) is Some || exists|why: String| #[trigger]
                                        verify.ensures((&all[i],), Err(why))
                                });
                            }
                        }
                    }
                    if good {
                        accepted.push(tx);
                    }
                },
            }
        }
    }
    Screened { accepted, close }
}

/// A connection is accepted exactly if its address has fewer than its limit and the server gives
/// a permit, which is only asked for then. An accepted connection is counted, a refused one
/// leaves a known address as it was, and no other address is touched.
pub proof fn connections_need_room_and_a_permit<P: FnOnce() -> bool>(
    was: RateLimiter,
    is: RateLimiter,
    ip: Ip,
    now: u64,
    take_permit: P,
    r: Admission,
)
    requires
        was.well_formed(),
        admitted(was, is, ip, now, take_permit, r),
    ensures
        was.states().contains_key(ip) ==> {
            let count = was.states()[ip].connection_count;
            &&& count >= was.connection_limit() <==> r is OverLimit
            &&& r is Accepted ==> take_permit.ensures((), true)
            &&& r is ServerFull ==> take_permit.ensures((), false)
            &&& is.states()[ip].connection_count == count + if r is Accepted {
                1int
            } else {
                0int
            }
            &&& is.states()[ip].tx_count == was.states()[ip].tx_count
            &&& is.states()[ip].window_start == was.states()[ip].window_start
        },
        !was.states().contains_key(ip) ==> {
            &&& was.states().dom().len() == 100_000 ==> r is OverLimit && is.states()
                == was.states()
            &&& was.states().dom().len() < 100_000 ==> is.states().contains_key(ip)
                && is.states()[ip].connection_count == if r is Accepted {
                1int
            } else {
                0int
            }
            &&& was.states().dom().len() < 100_000 && was.connection_limit() > 0 ==> !(
            r is OverLimit)
        },
        forall|other: Ip|
            other != ip && #[trigger] was.states().contains_key(other) ==> is.states().contains_key(
                other,
            ) && is.states()[other] == was.states()[other],
{
}

/// What an address can still get is what its own limit leaves it and what the limit for all
/// leaves everyone, whichever is less; nothing, if it is not known and there is no room for it.
pub proof fn tokens_are_bounded_by_both_limits(l: RateLimiter, ip: Ip, now: u64)
    requires
        l.well_formed(),
        0 <= now - l.window().origin() < 0x1_0000_0000 * 1_000_000_000,
    ensures
        !l.states().contains_key(ip) && l.states().dom().len() == 100_000 ==> tokens_left(
            l,
            ip,
            now,
        ) == 0,
        l.states().contains_key(ip) || l.states().dom().len() < 100_000 ==> {
            let own = left_to(l.states(), ip, l.ip_limit(), now);
            let all = l.global_limit() - if l.window().epoch() == (now - l.window().origin())
                / 1_000_000_000 {
                l.window().count() as int
            } else {
                0int
            };
            tokens_left(l, ip, now) == if own <= all {
                own
            } else {
                all
            }
        },
{
    let seconds = (now - l.window().origin()) / 1_000_000_000;
    assert(0 <= seconds < 0x1_0000_0000);
    assert(l.window().epoch_at(now) == seconds as u32);
}

/// `list` are the transactions at the places `at` among the first `k`: those that are well
/// formed, short enough by their own bytes and whose signatures are good, in order. Each of the
/// others among the first `k` is not.
pub open spec fn picks_good<V: Fn(&Transaction) -> Result<(), String>>(
    verify: V,
    txs: Seq<Transaction>,
    k: int,
    at: Seq<int>,
    list: Seq<Transaction>,
) -> bool {
    &&& at.len() == list.len()
    &&& forall|i: int, j: int| 0 <= i < j < at.len() ==> (#[trigger] at[i]) < (#[trigger] at[j])
    &&& forall|i: int|
        0 <= i < at.len() ==> {
            let tx = txs[#[trigger] at[i]];
            &&& 0 <= at[i] < k
            &&& list[i] == tx
            &&& flaw_of(tx, tx_bytes_of(tx)) is None
            &&& verify.ensures((&tx,), Ok(()))
        }
    &&& forall|p: int|
        0 <= p < k && !#[trigger] at.contains(p) ==> flaw_of(txs[p], tx_bytes_of(txs[p])) is Some
            || exists|why: String| verify.ensures((&txs[p],), Err(why))
}

/// The places of the good ones.
proof fn lemma_good_places(txs: Seq<Transaction>, ok: Seq<bool>) -> (at: Seq<int>)
    ensures
        at.len() == good_ones(txs, ok).len(),
        forall|i: int, j: int| 0 <= i < j < at.len() ==> (#[trigger] at[i]) < (#[trigger] at[j]),
        forall|i: int|
            0 <= i < at.len() ==> {
                &&& 0 <= #[trigger] at[i] < ok.len()
                &&& ok[at[i]]
                &&& good_ones(txs, ok)[i] == txs[at[i]]
            },
        forall|p: int| 0 <= p < ok.len() && #[trigger] ok[p] ==> at.contains(p),
    decreases ok.len(),
{
    if ok.len() == 0 {
        Seq::empty()
    } else {
        let front = ok.drop_last();
        let n = front.len() as int;
        let before = lemma_good_places(txs, front);
        let at = if ok.last() {
            before.push(n)
        } else {
            before
        };
        assert forall|i: int, j: int| 0 <= i < j < at.len() implies (#[trigger] at[i])
            < (#[trigger] at[j]) by {
            if j < before.len() {
                assert(before[i] < before[j]);
            } else {
                assert(before[i] < n);
            }
        }
        assert forall|i: int| 0 <= i < at.len() implies {
            &&& 0 <= #[trigger] at[i] < ok.len()
            &&& ok[at[i]]
            &&& good_ones(txs, ok)[i] == txs[at[i]]
        } by {
            if i < before.len() {
                assert(at[i] == before[i]);
                assert(front[before[i]] == ok[before[i]]);
            }
        }
        assert forall|p: int| 0 <= p < ok.len() && #[trigger] ok[p] implies at.contains(p) by {
            if p == n {
                assert(at[before.len() as int] == p);
            } else {
                assert(front[p] == ok[p]);
                let i = choose|i: int| 0 <= i < before.len() && before[i] == p;
                assert(at[i] == p);
            }
        }
        at
    }
}

proof fn lemma_good_ones<V: Fn(&Transaction) -> Result<(), String>>(
    verify: V,
    txs: Seq<Transaction>,
    ok: Seq<bool>,
) -> (at: Seq<int>)
    requires
        verdicts_of(verify, txs, ok),
        ok.len() <= txs.len(),
    ensures
        picks_good(verify, txs, ok.len() as int, at, good_ones(txs, ok)),
{
    let at = lemma_good_places(txs, ok);
    assert forall|i: int| 0 <= i < at.len() implies {
        let tx = txs[#[trigger] at[i]];
        flaw_of(tx, tx_bytes_of(tx)) is None && verify.ensures((&tx,), Ok(()))
    } by {
        assert(ok[at[i]]);
    }
    assert forall|p: int| 0 <= p < ok.len() && !#[trigger] at.contains(p) implies flaw_of(
        txs[p],
        tx_bytes_of(txs[p]),
    ) is Some || exists|why: String| verify.ensures((&txs[p],), Err(why)) by {
        assert(!ok[p]);
    }
    at
}

/// What comes of the transactions of a message. As many are looked at as there are tokens for,
/// from the first on, and of these the good ones are let in, in order; the connection is closed
/// exactly if there were too few tokens. One token is taken for each that was looked at.
pub proof fn good_transactions_are_let_in<V: Fn(&Transaction) -> Result<(), String>>(
    was: RateLimiter,
    is: RateLimiter,
    ip: Ip,
    txs: Seq<Transaction>,
    now: u64,
    verify: V,
    r: Screened,
    looked_at: int,
)
    requires
        was.well_formed(),
        is.same_limits(&was),
        transactions_screened(was, is, ip, txs, now, verify, r),
        looked_at == if txs.len() <= tokens_left(was, ip, now) {
            txs.len() as int
        } else {
            tokens_left(was, ip, now)
        },
    ensures
        0 <= looked_at,
        r.close <==> looked_at < txs.len(),
        exists|at: Seq<int>| #[trigger] picks_good(verify, txs, looked_at, at, r.accepted@),
        looked_at > 0 ==> {
            &&& left_to(is.states(), ip, is.ip_limit(), now) == left_to(
                was.states(),
                ip,
                was.ip_limit(),
                now,
            ) - looked_at
            &&& is.window().used_at(now) == was.window().used_at(now) + looked_at
        },
        looked_at == 0 ==> is.window() == was.window(),
{
    let k = at_most(txs.len(), tokens_left(was, ip, now));
    assert(0 <= tokens_left(was, ip, now));
    assert(k == looked_at);
    let ok = choose|ok: Seq<bool>|
        ok.len() == k && #[trigger] verdicts_of(verify, txs, ok) && r.accepted@ == good_ones(
            txs,
            ok,
        );
    let at = lemma_good_ones(verify, txs, ok);
    assert(picks_good(verify, txs, looked_at, at, r.accepted@));
}

/// A signed batch is let in whole or not at all. One that is refused for what it is costs its
/// address nothing and keeps the connection open. A good one is let in, for one token an entry,
/// if there are tokens for all of it; if not, nothing is let in and the connection is closed.
pub proof fn batches_are_let_in_whole<
    F: FnOnce(&SignedTransactionBatch) -> bool,
    G: FnOnce(&SignedTransactionBatch) -> bool,
    T: FnOnce(&SignedTransactionBatch) -> Vec<Transaction>,
>(
    was: RateLimiter,
    is: RateLimiter,
    ip: Ip,
    batch: SignedTransactionBatch,
    size: nat,
    now: u64,
    verify_signature: F,
    verify_all: G,
    to_transactions: T,
    r: Screened,
)
    requires
        was.well_formed(),
        is.same_limits(&was),
        batch_screened(
            was,
            is,
            ip,
            batch,
            size,
            now,
            verify_signature,
            verify_all,
            to_transactions,
            r,
        ),
    ensures
        r.accepted@.len() == 0 || to_transactions.ensures((&batch,), r.accepted),
        r.close ==> r.accepted@.len() == 0 && batch.entries@.len() > tokens_left(was, ip, now),
        batch.entries@.len() == 0 || batch.entries@.len() > 64 || size > 4_194_304 ||
            !verify_signature.ensures((&batch,), true) || !verify_all.ensures((&batch,), true)
            ==> r.accepted@.len() == 0 && !r.close && is == was,
        batch_flaw_of(batch, size) is None && !verify_signature.ensures((&batch,), false)
            && !verify_all.ensures((&batch,), false) ==> {
            let n = batch.entries@.len();
            &&& r.close <==> n > tokens_left(was, ip, now)
            &&& !r.close ==> {
                &&& to_transactions.ensures((&batch,), r.accepted)
                &&& left_to(is.states(), ip, is.ip_limit(), now) == left_to(
                    was.states(),
                    ip,
                    was.ip_limit(),
                    now,
                ) - n
                &&& is.window().used_at(now) == was.window().used_at(now) + n
            }
            &&& r.close ==> is.window() == was.window()
        },
{
    let (signature_ok, proofs_ok, valid) = choose|
        signature_ok: bool,
        proofs_ok: bool,
        valid: Result<(), TpuError>,
    |
        #[trigger] batch_judged(batch, size, signature_ok, proofs_ok, valid) && (batch_flaw_of(
            batch,
            size,
        ) is None ==> verify_signature.ensures((&batch,), signature_ok) && (signature_ok
            ==> verify_all.ensures((&batch,), proofs_ok))) && if valid is Err {
            &&& r.accepted@.len() == 0
            &&& !r.close
            &&& is == was
        } else {
            let n = batch.entries@.len();
            let ok = n <= tokens_left(was, ip, now);
            &&& r.close == !ok
            &&& if ok {
                to_transactions.ensures((&batch,), r.accepted)
            } else {
                r.accepted@.len() == 0
            }
            &&& checked(
                &was,
                &is,
                ip,
                n,
                now,
                if ok {
                    Ok(())
                } else {
                    refusal(was, ip, n, now)
                },
            )
        };
    good_batches_are_taken_in(batch, size, signature_ok, proofs_ok, valid);
}

} // verus!
