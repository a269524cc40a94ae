//! Laws that tie the store's operations together, stated over the
//! operations' post-relations and proved once for every store and input.

use vstd::prelude::*;

use crate::store::{add_code_post, upsert_post, Store};
use crate::text::canon_seq;

verus! {

/// A code put in by `add_code` is found afterwards (`check_code` returns
/// exactly `spec_has_code`), and a code that was new starts with
/// `next_update == 0`: stale at every clock reading.
pub proof fn lemma_added_code_stale(
    pre: Store,
    post: Store,
    code: Seq<char>,
    name: Seq<char>,
    now: u64,
)
    requires
        add_code_post(pre, post, code, name),
    ensures
        post.spec_has_code(canon_seq(code)),
        !pre.spec_has_code(canon_seq(code)) ==> post.spec_next_update(canon_seq(code)) == 0
            && post.spec_next_update(canon_seq(code)) <= now,
{
}

/// Round-trip: the rate text handed to `add_rates` for a pair is exactly
/// what the store holds for that pair afterwards — and `get_rate` returns
/// the held text character for character.
pub proof fn lemma_rate_round_trip(
    pre: Store,
    post: Store,
    next_update: u64,
    code_from: Seq<char>,
    pairs: Seq<(Seq<char>, Seq<char>)>,
    p: int,
)
    requires
        upsert_post(pre, post, next_update, code_from, pairs),
        0 <= p < pairs.len(),
    ensures
        post.spec_has_rate(canon_seq(code_from), canon_seq(pairs[p].0)),
        post.spec_rate(canon_seq(code_from), canon_seq(pairs[p].0)) == pairs[p].1,
{
}

/// A successful refresh never moves the base currency's `next_update`
/// backwards — given that the provider's timestamp is at least the stored
/// one — and leaves a rate row for every pair of the response.
pub proof fn lemma_refresh_advances(
    pre: Store,
    post: Store,
    next_update: u64,
    code_from: Seq<char>,
    pairs: Seq<(Seq<char>, Seq<char>)>,
)
    requires
        upsert_post(pre, post, next_update, code_from, pairs),
        pre.spec_has_code(canon_seq(code_from)),
        next_update >= pre.spec_next_update(canon_seq(code_from)),
    ensures
        post.spec_next_update(canon_seq(code_from)) >= pre.spec_next_update(canon_seq(code_from)),
        forall|p: int|
            0 <= p < pairs.len() ==> post.spec_has_rate(
                canon_seq(code_from),
                canon_seq(#[trigger] pairs[p].0),
            ),
{
}

} // verus!
