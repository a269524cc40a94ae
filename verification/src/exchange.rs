//! The conversion engine and the staleness policy: amount validation,
//! code checks, the refresh decision, exact-decimal multiplication with
//! half-away-from-zero rounding, and currency-convention formatting.

use vstd::prelude::*;

use crate::decimal::{
    dec_body, dec_text, dec_to_text, mant_of, mul_dec, neg_of, parse_dec, parse_ok, round_dec,
    round_mant, scale_of, MANT_CAP,
};
use crate::money::{format_money, iso_exponent, iso_exponent_of, money_text};
use crate::store::{ApiError, Store};
use crate::text::{canon, canon_seq};

verus! {

/// Largest minor-unit exponent the engine rounds to.
pub const EXP_CAP: u32 = 18;

/// A finished conversion: the input and output amounts rendered in their
/// currencies' conventions, and the rate text exactly as stored.
pub struct ConversionResult {
    pub from: String,
    pub to: String,
    pub rate: String,
}

/// The canonical text of the parsed amount.
pub open spec fn spec_amount_text(amount: Seq<char>) -> Seq<char> {
    dec_text(neg_of(amount), mant_of(dec_body(amount)), scale_of(dec_body(amount)))
}

/// The canonical text of `amount * rate`, rounded half away from zero to
/// `e` decimal places.
pub open spec fn spec_converted_text(amount: Seq<char>, rate: Seq<char>, e: nat) -> Seq<char> {
    dec_text(
        neg_of(amount) != neg_of(rate),
        round_mant(
            mant_of(dec_body(amount)) * mant_of(dec_body(rate)),
            scale_of(dec_body(amount)) + scale_of(dec_body(rate)),
            e,
        ),
        e,
    )
}

/// The rounded mantissa of `amount * rate` still fits the machine word.
pub open spec fn spec_round_fits(amount: Seq<char>, rate: Seq<char>, e: nat) -> bool {
    round_mant(
        mant_of(dec_body(amount)) * mant_of(dec_body(rate)),
        scale_of(dec_body(amount)) + scale_of(dec_body(rate)),
        e,
    ) <= u128::MAX
}

/// Exactly when `convert_value` succeeds.
pub open spec fn convert_ok(store: Store, cf: Seq<char>, ct: Seq<char>, av: Seq<char>) -> bool {
    &&& parse_ok(av)
    &&& store.spec_has_code(cf)
    &&& store.spec_has_code(ct)
    &&& if cf == ct {
        money_text(cf, spec_amount_text(av)) is Some
    } else {
        &&& store.spec_has_rate(cf, ct)
        &&& parse_ok(store.spec_rate(cf, ct))
        &&& money_text(cf, spec_amount_text(av)) is Some
        &&& (iso_exponent_of(ct) matches Some(e) && e <= EXP_CAP && spec_round_fits(
            av,
            store.spec_rate(cf, ct),
            e as nat,
        ) && money_text(ct, spec_converted_text(av, store.spec_rate(cf, ct), e as nat)) is Some)
    }
}

/// Is a provider refresh due for this base code at clock reading `now`?
/// Fresh (`next_update > now`) means no provider call is needed; stale
/// (including never fetched, `next_update == 0`) means one is due. The
/// caller performs the fetch and hands the outcome to `apply_fetch`.
pub fn update_rate(store: &Store, code: &String, now: u64) -> (r: Result<bool, ApiError>)
    requires
        store.wf(),
    ensures
        r.is_ok() == store.spec_has_code(canon_seq(code@)),
        r matches Ok(b) ==> b == (store.spec_next_update(canon_seq(code@)) <= now),
        store.spec_has_code(canon_seq(code@)) && store.spec_next_update(canon_seq(code@)) > now
            ==> r == Result::<bool, ApiError>::Ok(false),
        r is Err ==> r == Result::<bool, ApiError>::Err(ApiError::NotFound),
{
    match store.get_next_update(code) {
        Ok(nu) => Ok(nu <= now),
        Err(e) => Err(e),
    }
}

/// The refresh decision of a conversion request: validation first (a
/// malformed amount is rejected before any store read), then code checks,
/// then "fetch iff the pair is missing or the base is stale".
pub fn convert_refresh_due(
    store: &Store,
    code_from: &String,
    code_to: &String,
    value: &String,
    now: u64,
) -> (r: Result<bool, ApiError>)
    requires
        store.wf(),
    ensures
        !parse_ok(value@) ==> r == Result::<bool, ApiError>::Err(ApiError::Validation),
        r.is_ok() == (parse_ok(value@) && store.spec_has_code(canon_seq(code_from@))
            && store.spec_has_code(canon_seq(code_to@))),
        parse_ok(value@) && !(store.spec_has_code(canon_seq(code_from@))
            && store.spec_has_code(canon_seq(code_to@))) ==> r == Result::<bool, ApiError>::Err(
            ApiError::NotFound,
        ),
        r matches Ok(b) ==> b == (!store.spec_has_rate(
            canon_seq(code_from@),
            canon_seq(code_to@),
        ) || store.spec_next_update(canon_seq(code_from@)) <= now),
{
    if parse_dec(value.as_str()).is_none() {
        return Err(ApiError::Validation);
    }
    if !store.check_code(code_from) || !store.check_code(code_to) {
        return Err(ApiError::NotFound);
    }
    let have_pair = store.check_exchange(code_from, code_to);
    match store.get_next_update(code_from) {
        Ok(nu) => Ok(!have_pair || nu <= now),
        Err(e) => Err(e),
    }
}

/// Look up the cached rate for a pair: both codes must be known and the
/// pair present; the text comes back exactly as stored.
pub fn get_rate(store: &Store, code_from: &String, code_to: &String) -> (r: Result<
    String,
    ApiError,
>)
    requires
        store.wf(),
    ensures
        r.is_ok() == (store.spec_has_code(canon_seq(code_from@)) && store.spec_has_code(
            canon_seq(code_to@),
        ) && store.spec_has_rate(canon_seq(code_from@), canon_seq(code_to@))),
        r matches Ok(v) ==> v@ == store.spec_rate(canon_seq(code_from@), canon_seq(code_to@)),
        r is Err ==> r == Result::<String, ApiError>::Err(ApiError::NotFound),
{
    if !store.check_code(code_from) || !store.check_code(code_to) {
        return Err(ApiError::NotFound);
    }
    store.get_rate(code_from, code_to)
}

/// Convert `value` from one currency to another against the cached rate.
///
/// The amount is validated before any store read; both codes must be known;
/// an identity conversion returns the input amount unchanged (rate text
/// "1") without a rate lookup; otherwise the exact product is rounded half
/// away from zero to the target currency's minor units and both amounts are
/// rendered in their currencies' conventions. The `rate` field is the
/// stored text, never reformatted.
pub fn convert_value(
    store: &Store,
    code_from: &String,
    code_to: &String,
    value: &String,
) -> (r: Result<ConversionResult, ApiError>)
    requires
        store.wf(),
    ensures
        r.is_ok() == convert_ok(*store, canon_seq(code_from@), canon_seq(code_to@), value@),
        !parse_ok(value@) ==> r == Result::<ConversionResult, ApiError>::Err(ApiError::Validation),
        parse_ok(value@) && !(store.spec_has_code(canon_seq(code_from@)) && store.spec_has_code(
            canon_seq(code_to@),
        )) ==> r == Result::<ConversionResult, ApiError>::Err(ApiError::NotFound),
        parse_ok(value@) && store.spec_has_code(canon_seq(code_from@)) && store.spec_has_code(
            canon_seq(code_to@),
        ) && canon_seq(code_from@) != canon_seq(code_to@) && !store.spec_has_rate(
            canon_seq(code_from@),
            canon_seq(code_to@),
        ) ==> r == Result::<ConversionResult, ApiError>::Err(ApiError::NotFound),
        r matches Ok(c) ==> Some(c.from@) == money_text(
            canon_seq(code_from@),
            spec_amount_text(value@),
        ),
        r matches Ok(c) ==> (canon_seq(code_from@) == canon_seq(code_to@) ==> c.to@ == c.from@
            && c.rate@ == "1"@),
        r matches Ok(c) ==> (canon_seq(code_from@) != canon_seq(code_to@) ==> c.rate@
            == store.spec_rate(canon_seq(code_from@), canon_seq(code_to@)) && (iso_exponent_of(
            canon_seq(code_to@),
        ) matches Some(e) && Some(c.to@) == money_text(
            canon_seq(code_to@),
            spec_converted_text(
                value@,
                store.spec_rate(canon_seq(code_from@), canon_seq(code_to@)),
                e as nat,
            ),
        ))),
{
    let d = match parse_dec(value.as_str()) {
        None => {
            return Err(ApiError::Validation);
        },
        Some(d) => d,
    };
    if !store.check_code(code_from) || !store.check_code(code_to) {
        return Err(ApiError::NotFound);
    }
    let f = canon(code_from);
    let t = canon(code_to);
    let amount_text = dec_to_text(&d);
    proof {
        assert(amount_text@ == spec_amount_text(value@));
    }
    let fmt_from = match format_money(f.as_str(), amount_text.as_str()) {
        None => {
            return Err(ApiError::NotFound);
        },
        Some(x) => x,
    };
    if f == t {
        let one: String = "1".to_owned();
        let echo = fmt_from.clone();
        return Ok(ConversionResult { from: fmt_from, to: echo, rate: one });
    }
    let rate_text = match store.get_rate(code_from, code_to) {
        Err(_) => {
            return Err(ApiError::NotFound);
        },
        Ok(x) => x,
    };
    let rd = match parse_dec(rate_text.as_str()) {
        None => {
            return Err(ApiError::Other);
        },
        Some(x) => x,
    };
    let e = match iso_exponent(t.as_str()) {
        None => {
            return Err(ApiError::NotFound);
        },
        Some(e) => e,
    };
    if e > EXP_CAP {
        return Err(ApiError::Other);
    }
    proof {
        assert(d.mant * rd.mant <= u128::MAX) by (nonlinear_arith)
            requires
                d.mant < MANT_CAP,
                rd.mant < MANT_CAP,
                MANT_CAP == 10_000_000_000_000_000_000u128,
        ;
        assert(d.scale + rd.scale <= u32::MAX);
    }
    let prod = match mul_dec(&d, &rd) {
        None => {
            proof {
                assert(false);
            }
            return Err(ApiError::Other);
        },
        Some(p) => p,
    };
    let rounded = match round_dec(&prod, e) {
        None => {
            return Err(ApiError::Other);
        },
        Some(x) => x,
    };
    let out_text = dec_to_text(&rounded);
    proof {
        assert(out_text@ == spec_converted_text(
            value@,
            store.spec_rate(canon_seq(code_from@), canon_seq(code_to@)),
            e as nat,
        ));
    }
    let fmt_to = match format_money(t.as_str(), out_text.as_str()) {
        None => {
            return Err(ApiError::NotFound);
        },
        Some(x) => x,
    };
    Ok(ConversionResult { from: fmt_from, to: fmt_to, rate: rate_text })
}

} // verus!
