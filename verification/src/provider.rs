//! The rate-provider interface as the core sees it: classified outcomes of
//! a provider call and the verified application of its responses to the
//! store. The HTTP transport and response parsing live outside the core and
//! hand plain values in.

use vstd::prelude::*;

use crate::store::{pairs_contain, pairs_view, upsert_post, ApiError, Store};
use crate::text::canon_seq;

verus! {

/// Outcome classes of a provider call.
#[derive(Clone, Copy, Debug, PartialEq, Eq, Structural)]
#[allow(non_camel_case_types)]
pub enum Status {
    OK,
    INVALID,
    LIMIT,
    ERROR,
}

/// A parsed rates response of the provider: the authoritative base code,
/// the provider's next-update timestamp and the quoted
/// `(target code, rate text)` mapping.
pub struct RatesResponse {
    pub base_code: String,
    pub time_next_update_unix: u64,
    pub conversion_rates: Vec<(String, String)>,
}

/// Classify the provider's error-type text into a `Status`.
pub fn classify_error(error_type: &String) -> (r: Status)
    ensures
        r == (if error_type@ == "invalid-key"@ {
            Status::INVALID
        } else if error_type@ == "quota-reached"@ {
            Status::LIMIT
        } else {
            Status::ERROR
        }),
{
    let invalid: String = "invalid-key".to_owned();
    let quota: String = "quota-reached".to_owned();
    if *error_type == invalid {
        Status::INVALID
    } else if *error_type == quota {
        Status::LIMIT
    } else {
        Status::ERROR
    }
}

/// Map a failed provider status to the error surfaced to callers.
pub fn refresh_error(status: Status) -> (r: ApiError)
    ensures
        r == (match status {
            Status::INVALID => ApiError::InvalidCredential,
            Status::LIMIT => ApiError::QuotaExceeded,
            _ => ApiError::Other,
        }),
{
    match status {
        Status::INVALID => ApiError::InvalidCredential,
        Status::LIMIT => ApiError::QuotaExceeded,
        _ => ApiError::Other,
    }
}

/// What one provider fetch produced, as handed in from the transport.
pub enum FetchOutcome {
    /// A parsed, successful response.
    Rates(RatesResponse),
    /// A classified or transport failure.
    Failed(Status),
}

/// Apply the outcome of a rates fetch: on success the whole table for the
/// response's base code advances as one unit; on failure the store is
/// untouched and the failure surfaces as a typed error.
pub fn apply_fetch(store: &mut Store, outcome: &FetchOutcome) -> (r: Result<(), ApiError>)
    requires
        old(store).wf(),
        outcome matches FetchOutcome::Rates(resp) ==> forall|p1: int, p2: int|
            0 <= p1 < p2 < resp.conversion_rates@.len() ==> canon_seq(
                resp.conversion_rates@[p1].0@,
            ) != canon_seq(resp.conversion_rates@[p2].0@),
    ensures
        final(store).wf(),
        outcome matches FetchOutcome::Rates(resp) ==> r == Result::<(), ApiError>::Ok(())
            && upsert_post(
            *old(store),
            *final(store),
            resp.time_next_update_unix,
            resp.base_code@,
            pairs_view(resp.conversion_rates@),
        ),
        outcome matches FetchOutcome::Failed(s) ==> *final(store) == *old(store) && r
            == Result::<(), ApiError>::Err(
            match s {
                Status::INVALID => ApiError::InvalidCredential,
                Status::LIMIT => ApiError::QuotaExceeded,
                _ => ApiError::Other,
            },
        ),
{
    match outcome {
        FetchOutcome::Rates(resp) => {
            store.add_rates(
                resp.time_next_update_unix,
                &resp.base_code,
                &resp.conversion_rates,
            );
            Ok(())
        },
        FetchOutcome::Failed(s) => Err(refresh_error(*s)),
    }
}

/// Record the provider's supported-currency list: each code is inserted if
/// absent (stale from the start) and existing rows are left untouched. The
/// list must not repeat a code.
pub fn apply_currencies(store: &mut Store, codes: &Vec<(String, String)>)
    requires
        old(store).wf(),
        forall|p1: int, p2: int|
            0 <= p1 < p2 < codes@.len() ==> canon_seq(codes@[p1].0@) != canon_seq(codes@[p2].0@),
    ensures
        final(store).wf(),
        forall|p: int|
            0 <= p < codes@.len() ==> final(store).spec_has_code(
                canon_seq(#[trigger] codes@[p].0@),
            ),
        forall|p: int|
            0 <= p < codes@.len() && !old(store).spec_has_code(canon_seq(#[trigger] codes@[p].0@))
                ==> final(store).spec_next_update(canon_seq(codes@[p].0@)) == 0 && final(store).spec_name(canon_seq(codes@[p].0@)) == codes@[p].1@,
        forall|c: Seq<char>|
            !pairs_contain(pairs_view(codes@), c) ==> (#[trigger] final(store).spec_has_code(c))
                == old(store).spec_has_code(c),
        forall|c: Seq<char>|
            old(store).spec_has_code(c) ==> (#[trigger] final(store).spec_name(c)) == old(store).spec_name(c) && final(store).spec_next_update(c) == old(store).spec_next_update(c),
        final(store).spec_rates() == old(store).spec_rates(),
        final(store).spec_key() == old(store).spec_key(),
{
    let n = codes.len();
    let mut p: usize = 0;
    while p < n
        invariant
            p <= n,
            n == codes@.len(),
            store.wf(),
            forall|p1: int, p2: int|
                0 <= p1 < p2 < codes@.len() ==> canon_seq(codes@[p1].0@) != canon_seq(
                    codes@[p2].0@,
                ),
            forall|q: int|
                0 <= q < p ==> store.spec_has_code(canon_seq(#[trigger] codes@[q].0@)),
            forall|q: int|
                0 <= q < p && !old(store).spec_has_code(canon_seq(#[trigger] codes@[q].0@)) ==>
                    store.spec_next_update(canon_seq(codes@[q].0@)) == 0 && store.spec_name(
                    canon_seq(codes@[q].0@),
                ) == codes@[q].1@,
            forall|c: Seq<char>|
                !pairs_contain(pairs_view(codes@).take(p as int), c) ==> (
                #[trigger] store.spec_has_code(c)) == old(store).spec_has_code(c),
            forall|c: Seq<char>|
                old(store).spec_has_code(c) ==> (#[trigger] store.spec_name(c)) == old(store).spec_name(c) && store.spec_next_update(c) == old(store).spec_next_update(c),
            store.spec_rates() == old(store).spec_rates(),
            store.spec_key() == old(store).spec_key(),
        decreases n - p,
    {
        let ghost pre = *store;
        let ghost kv = canon_seq(codes@[p as int].0@);
        store.add_code(&codes[p].0, &codes[p].1);
        proof {
            let pv = pairs_view(codes@);
            assert forall|q: int| 0 <= q < p + 1 implies store.spec_has_code(
                canon_seq(#[trigger] codes@[q].0@),
            ) by {
                if q < p {
                    if canon_seq(codes@[q].0@) != kv {
                        assert(store.spec_has_code(canon_seq(codes@[q].0@)) == pre.spec_has_code(
                            canon_seq(codes@[q].0@),
                        ));
                    }
                }
            }
            assert forall|q: int|
                0 <= q < p + 1 && !old(store).spec_has_code(
                    canon_seq(#[trigger] codes@[q].0@),
                ) implies store.spec_next_update(canon_seq(codes@[q].0@)) == 0 && store.spec_name(
                canon_seq(codes@[q].0@),
            ) == codes@[q].1@ by {
                let c = canon_seq(codes@[q].0@);
                if q < p {
                    assert(canon_seq(codes@[q].0@) != canon_seq(codes@[p as int].0@));
                    assert(c != kv);
                    assert(pre.spec_has_code(c));
                    assert(pre.spec_next_update(c) == 0 && pre.spec_name(c) == codes@[q].1@);
                    assert(store.spec_name(c) == pre.spec_name(c) && store.spec_next_update(c)
                        == pre.spec_next_update(c));
                } else {
                    if pre.spec_has_code(c) {
                        assert(!pairs_contain(pv.take(p as int), c)) by {
                            if pairs_contain(pv.take(p as int), c) {
                                let q2 = choose|q2: int|
                                    0 <= q2 < p && canon_seq(
                                        #[trigger] pv.take(p as int)[q2].0,
                                    ) == c;
                                assert(canon_seq(codes@[q2].0@) == c);
                            }
                        }
                        assert(pre.spec_has_code(c) == old(store).spec_has_code(c));
                        assert(false);
                    }
                }
            }
            assert forall|c: Seq<char>|
                !pairs_contain(pv.take(p + 1), c) implies (#[trigger] store.spec_has_code(c))
                == old(store).spec_has_code(c) by {
                assert(c != kv) by {
                    if c == kv {
                        assert(canon_seq(pv.take(p + 1)[p as int].0) == c);
                        assert(pairs_contain(pv.take(p + 1), c));
                    }
                }
                assert(!pairs_contain(pv.take(p as int), c)) by {
                    if pairs_contain(pv.take(p as int), c) {
                        let q = choose|q: int|
                            0 <= q < p && canon_seq(#[trigger] pv.take(p as int)[q].0) == c;
                        assert(canon_seq(pv.take(p + 1)[q].0) == c);
                        assert(pairs_contain(pv.take(p + 1), c));
                    }
                }
            }
            assert forall|c: Seq<char>| old(store).spec_has_code(c) implies (
            #[trigger] store.spec_name(c)) == old(store).spec_name(c) && store.spec_next_update(c)
                == old(store).spec_next_update(c) by {
                assert(pre.spec_has_code(c)) by {
                    if pairs_contain(pv.take(p as int), c) {
                        let q = choose|q: int|
                            0 <= q < p && canon_seq(#[trigger] pv.take(p as int)[q].0) == c;
                        assert(canon_seq(codes@[q].0@) == c);
                        assert(pre.spec_has_code(canon_seq(codes@[q].0@)));
                    } else {
                        assert(pre.spec_has_code(c) == old(store).spec_has_code(c));
                    }
                }
                assert(pre.spec_name(c) == old(store).spec_name(c) && pre.spec_next_update(c)
                    == old(store).spec_next_update(c));
                if c != kv {
                    assert(store.spec_name(c) == pre.spec_name(c) && store.spec_next_update(c)
                        == pre.spec_next_update(c));
                } else {
                    assert(store.spec_currencies() == pre.spec_currencies());
                }
            }
        }
        p = p + 1;
    }
    proof {
        assert(pairs_view(codes@).take(n as int) =~= pairs_view(codes@));
    }
}

/// After a credential was stored and the provider answered a currency
/// fetch: keep the credential only on success; any failure resets it to
/// empty and reports that the setup did not take.
pub fn settle_key_setup(store: &mut Store, status: Status) -> (ok: bool)
    requires
        old(store).wf(),
    ensures
        final(store).wf(),
        ok == (status == Status::OK),
        status == Status::OK ==> *final(store) == *old(store),
        status != Status::OK ==> final(store).spec_key() =~= Seq::<char>::empty() && final(store).spec_currencies() == old(store).spec_currencies() && final(store).spec_rates() == old(store).spec_rates(),
{
    match status {
        Status::OK => true,
        _ => {
            store.set_api_key(String::new());
            false
        },
    }
}

} // verus!
