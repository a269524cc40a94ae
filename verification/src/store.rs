//! The persistent-store model: currencies, exchange rates and the provider
//! credential, keyed by canonical uppercase codes.
//!
//! Currencies are kept strictly sorted by code and rate rows strictly sorted
//! by `(from, to)`, so listings come out ordered and keys are unique. Every
//! operation states exactly how the three tables change.

use vstd::prelude::*;

use crate::text::{canon, canon_seq, lemma_seq_lt_trans, lemma_seq_lt_trichotomy, seq_lt, str_lt};

verus! {

/// The error taxonomy of the library's caller-facing operations.
#[derive(Clone, Copy, Debug, PartialEq, Eq, Structural)]
pub enum ApiError {
    /// Unknown currency code or missing rate pair.
    NotFound,
    /// The conversion amount is not decimal text.
    Validation,
    /// The provider rejected the credential.
    InvalidCredential,
    /// The provider rate-limited the credential.
    QuotaExceeded,
    /// Transport failure or an unexpected provider response.
    Other,
}

struct Currency {
    code: String,
    name: String,
    next_update: u64,
}

struct RateRow {
    from: String,
    to: String,
    rate: String,
}

/// In-memory image of the persistent store: the `currencies`, the
/// `exchange_rates` and the `config` tables.
pub struct Store {
    currencies: Vec<Currency>,
    rates: Vec<RateRow>,
    api_key: String,
}

impl Store {
    /// The currency table: `(code, display name, next_update)`, in storage order.
    pub closed spec fn spec_currencies(self) -> Seq<(Seq<char>, Seq<char>, u64)> {
        Seq::new(
            self.currencies@.len(),
            |i: int|
                (
                    self.currencies@[i].code@,
                    self.currencies@[i].name@,
                    self.currencies@[i].next_update,
                ),
        )
    }

    /// The rate table: `(from, to, rate text)`, in storage order.
    pub closed spec fn spec_rates(self) -> Seq<(Seq<char>, Seq<char>, Seq<char>)> {
        Seq::new(
            self.rates@.len(),
            |i: int| (self.rates@[i].from@, self.rates@[i].to@, self.rates@[i].rate@),
        )
    }

    /// The stored provider credential.
    pub closed spec fn spec_key(self) -> Seq<char> {
        self.api_key@
    }

    /// Rate rows are ordered strictly by `(from, to)`.
    pub open spec fn rate_lt(a: (Seq<char>, Seq<char>, Seq<char>), b: (Seq<char>, Seq<char>, Seq<char>)) -> bool {
        seq_lt(a.0, b.0) || (a.0 == b.0 && seq_lt(a.1, b.1))
    }

    /// Well-formed: both tables strictly sorted, which makes keys unique.
    pub open spec fn wf(self) -> bool {
        &&& forall|i: int, j: int|
            0 <= i < j < self.spec_currencies().len() ==> seq_lt(
                self.spec_currencies()[i].0,
                self.spec_currencies()[j].0,
            )
        &&& forall|i: int, j: int|
            0 <= i < j < self.spec_rates().len() ==> Self::rate_lt(
                self.spec_rates()[i],
                self.spec_rates()[j],
            )
    }

    pub open spec fn spec_has_code(self, c: Seq<char>) -> bool {
        exists|i: int| 0 <= i < self.spec_currencies().len() && self.spec_currencies()[i].0 == c
    }

    pub open spec fn spec_cur_idx(self, c: Seq<char>) -> int {
        choose|i: int| 0 <= i < self.spec_currencies().len() && self.spec_currencies()[i].0 == c
    }

    /// The display name stored for code `c` (meaningful when `spec_has_code`).
    pub open spec fn spec_name(self, c: Seq<char>) -> Seq<char> {
        self.spec_currencies()[self.spec_cur_idx(c)].1
    }

    /// The `next_update` timestamp stored for code `c` (meaningful when `spec_has_code`).
    pub open spec fn spec_next_update(self, c: Seq<char>) -> u64 {
        self.spec_currencies()[self.spec_cur_idx(c)].2
    }

    pub open spec fn spec_has_rate(self, f: Seq<char>, t: Seq<char>) -> bool {
        exists|i: int|
            0 <= i < self.spec_rates().len() && self.spec_rates()[i].0 == f
                && self.spec_rates()[i].1 == t
    }

    pub open spec fn spec_rate_idx(self, f: Seq<char>, t: Seq<char>) -> int {
        choose|i: int|
            0 <= i < self.spec_rates().len() && self.spec_rates()[i].0 == f
                && self.spec_rates()[i].1 == t
    }

    /// The rate text stored for `(f, t)` (meaningful when `spec_has_rate`).
    pub open spec fn spec_rate(self, f: Seq<char>, t: Seq<char>) -> Seq<char> {
        self.spec_rates()[self.spec_rate_idx(f, t)].2
    }

    /// Distinct rows hold distinct currency codes.
    pub proof fn lemma_codes_distinct(self)
        requires
            self.wf(),
        ensures
            forall|i: int, j: int|
                0 <= i < self.spec_currencies().len() && 0 <= j < self.spec_currencies().len() && i
                    != j ==> self.spec_currencies()[i].0 != self.spec_currencies()[j].0,
    {
        assert forall|i: int, j: int|
            0 <= i < self.spec_currencies().len() && 0 <= j < self.spec_currencies().len() && i
                != j implies self.spec_currencies()[i].0 != self.spec_currencies()[j].0 by {
            if i < j {
                lemma_seq_lt_trichotomy(self.spec_currencies()[i].0, self.spec_currencies()[j].0);
            } else {
                lemma_seq_lt_trichotomy(self.spec_currencies()[j].0, self.spec_currencies()[i].0);
            }
        }
    }

    /// Distinct rate rows hold distinct `(from, to)` keys.
    pub proof fn lemma_rate_keys_distinct(self)
        requires
            self.wf(),
        ensures
            forall|i: int, j: int|
                0 <= i < self.spec_rates().len() && 0 <= j < self.spec_rates().len() && i != j
                    ==> !(self.spec_rates()[i].0 == self.spec_rates()[j].0
                    && self.spec_rates()[i].1 == self.spec_rates()[j].1),
    {
        assert forall|i: int, j: int|
            0 <= i < self.spec_rates().len() && 0 <= j < self.spec_rates().len() && i
                != j implies !(self.spec_rates()[i].0 == self.spec_rates()[j].0
                && self.spec_rates()[i].1 == self.spec_rates()[j].1) by {
            let a = self.spec_rates()[i];
            let b = self.spec_rates()[j];
            if i < j {
                assert(Self::rate_lt(a, b));
            } else {
                assert(Self::rate_lt(b, a));
            }
            lemma_seq_lt_trichotomy(a.0, b.0);
            lemma_seq_lt_trichotomy(a.1, b.1);
        }
    }

    /// Create a fresh, empty store: no currencies, no rates, empty credential.
    /// This is the schema-initialization step of the persistent store.
    pub fn create_cache() -> (s: Store)
        ensures
            s.wf(),
            s.spec_currencies() =~= Seq::<(Seq<char>, Seq<char>, u64)>::empty(),
            s.spec_rates() =~= Seq::<(Seq<char>, Seq<char>, Seq<char>)>::empty(),
            s.spec_key() =~= Seq::<char>::empty(),
    {
        Store { currencies: Vec::new(), rates: Vec::new(), api_key: String::new() }
    }

    /// Read the stored provider credential; the empty string means "unset".
    pub fn get_api_key(&self) -> (r: String)
        ensures
            r@ == self.spec_key(),
    {
        self.api_key.clone()
    }

    /// Replace the stored provider credential; the tables are untouched.
    pub fn set_api_key(&mut self, key: String)
        requires
            old(self).wf(),
        ensures
            final(self).wf(),
            final(self).spec_key() == key@,
            final(self).spec_currencies() == old(self).spec_currencies(),
            final(self).spec_rates() == old(self).spec_rates(),
    {
        self.api_key = key;
        proof {
            assert(final(self).spec_currencies() =~= old(self).spec_currencies());
            assert(final(self).spec_rates() =~= old(self).spec_rates());
        }
    }

    /// Is the canonicalized code present in the currency table?
    pub fn check_code(&self, code: &String) -> (r: bool)
        requires
            self.wf(),
        ensures
            r == self.spec_has_code(canon_seq(code@)),
    {
        let k = canon(code);
        let mut i: usize = 0;
        let n = self.currencies.len();
        while i < n
            invariant
                i <= n,
                n == self.currencies@.len(),
                k@ == canon_seq(code@),
                forall|j: int| 0 <= j < i ==> self.spec_currencies()[j].0 != k@,
            decreases n - i,
        {
            if self.currencies[i].code == k {
                proof {
                    assert(self.spec_currencies()[i as int].0 == k@);
                }
                return true;
            }
            i = i + 1;
        }
        false
    }

    /// The stored `next_update` for the canonicalized code, or `NotFound`.
    pub fn get_next_update(&self, code: &String) -> (r: Result<u64, ApiError>)
        requires
            self.wf(),
        ensures
            r.is_ok() == self.spec_has_code(canon_seq(code@)),
            r matches Ok(v) ==> v == self.spec_next_update(canon_seq(code@)),
            r is Err ==> r == Result::<u64, ApiError>::Err(ApiError::NotFound),
    {
        let k = canon(code);
        let mut i: usize = 0;
        let n = self.currencies.len();
        while i < n
            invariant
                i <= n,
                n == self.currencies@.len(),
                self.wf(),
                k@ == canon_seq(code@),
                forall|j: int| 0 <= j < i ==> self.spec_currencies()[j].0 != k@,
            decreases n - i,
        {
            if self.currencies[i].code == k {
                proof {
                    assert(self.spec_currencies()[i as int].0 == k@);
                    self.lemma_codes_distinct();
                    assert(self.spec_cur_idx(k@) == i as int);
                }
                return Ok(self.currencies[i].next_update);
            }
            i = i + 1;
        }
        Err(ApiError::NotFound)
    }

    /// Is a rate stored for the canonicalized pair?
    pub fn check_exchange(&self, code_from: &String, code_to: &String) -> (r: bool)
        requires
            self.wf(),
        ensures
            r == self.spec_has_rate(canon_seq(code_from@), canon_seq(code_to@)),
    {
        let f = canon(code_from);
        let t = canon(code_to);
        let mut i: usize = 0;
        let n = self.rates.len();
        while i < n
            invariant
                i <= n,
                n == self.rates@.len(),
                f@ == canon_seq(code_from@),
                t@ == canon_seq(code_to@),
                forall|j: int|
                    0 <= j < i ==> !(self.spec_rates()[j].0 == f@ && self.spec_rates()[j].1 == t@),
            decreases n - i,
        {
            if self.rates[i].from == f && self.rates[i].to == t {
                proof {
                    assert(self.spec_rates()[i as int].0 == f@ && self.spec_rates()[i as int].1
                        == t@);
                }
                return true;
            }
            i = i + 1;
        }
        false
    }

    /// The stored rate text for the canonicalized pair, exactly as it was
    /// handed to `add_rates`, or `NotFound`.
    pub fn get_rate(&self, code_from: &String, code_to: &String) -> (r: Result<String, ApiError>)
        requires
            self.wf(),
        ensures
            r.is_ok() == self.spec_has_rate(canon_seq(code_from@), canon_seq(code_to@)),
            r matches Ok(v) ==> v@ == self.spec_rate(canon_seq(code_from@), canon_seq(code_to@)),
            r is Err ==> r == Result::<String, ApiError>::Err(ApiError::NotFound),
    {
        let f = canon(code_from);
        let t = canon(code_to);
        let mut i: usize = 0;
        let n = self.rates.len();
        while i < n
            invariant
                i <= n,
                n == self.rates@.len(),
                self.wf(),
                f@ == canon_seq(code_from@),
                t@ == canon_seq(code_to@),
                forall|j: int|
                    0 <= j < i ==> !(self.spec_rates()[j].0 == f@ && self.spec_rates()[j].1 == t@),
            decreases n - i,
        {
            if self.rates[i].from == f && self.rates[i].to == t {
                proof {
                    assert(self.spec_rates()[i as int].0 == f@ && self.spec_rates()[i as int].1
                        == t@);
                    self.lemma_rate_keys_distinct();
                    assert(self.spec_rate_idx(f@, t@) == i as int);
                }
                return Ok(self.rates[i].rate.clone());
            }
            i = i + 1;
        }
        Err(ApiError::NotFound)
    }
}

} // verus!

verus! {

/// How `add_code` changes the store: insert-if-absent of the canonicalized
/// code; an existing row keeps its recorded `next_update`; a new row starts
/// stale (`next_update == 0`); rates and credential are untouched.
pub open spec fn add_code_post(pre: Store, post: Store, code: Seq<char>, name: Seq<char>) -> bool {
    let k = canon_seq(code);
    &&& post.spec_has_code(k)
    &&& (pre.spec_has_code(k) ==> post.spec_currencies() == pre.spec_currencies())
    &&& (!pre.spec_has_code(k) ==> post.spec_name(k) == name && post.spec_next_update(k) == 0)
    &&& (forall|c: Seq<char>| c != k ==> #[trigger] post.spec_has_code(c) == pre.spec_has_code(c))
    &&& (forall|c: Seq<char>|
        c != k && pre.spec_has_code(c) ==> (#[trigger] post.spec_name(c)) == pre.spec_name(c)
            && post.spec_next_update(c) == pre.spec_next_update(c))
    &&& post.spec_rates() == pre.spec_rates()
    &&& post.spec_key() == pre.spec_key()
}

impl Store {
    /// Idempotent insert-if-absent of a currency. A new row starts with
    /// `next_update == 0`, i.e. stale at every clock reading; an existing row
    /// is left exactly as it was.
    pub fn add_code(&mut self, code: &String, name: &String)
        requires
            old(self).wf(),
        ensures
            final(self).wf(),
            add_code_post(*old(self), *final(self), code@, name@),
    {
        let k = canon(code);
        let ghost kv = k@;
        let n = self.currencies.len();
        let mut i: usize = 0;
        while i < n && str_lt(self.currencies[i].code.as_str(), k.as_str())
            invariant
                i <= n,
                n == self.currencies@.len(),
                self == old(self),
                self.wf(),
                kv == k@,
                kv == canon_seq(code@),
                forall|j: int| 0 <= j < i ==> seq_lt(#[trigger] self.spec_currencies()[j].0, kv),
            decreases n - i,
        {
            i = i + 1;
        }
        if i < n && self.currencies[i].code == k {
            proof {
                assert(self.spec_currencies()[i as int].0 == kv);
                assert(self.spec_has_code(kv));
            }
            return ;
        }
        proof {
            assert(!self.spec_has_code(kv)) by {
                if self.spec_has_code(kv) {
                    let j = choose|j: int|
                        0 <= j < self.spec_currencies().len() && self.spec_currencies()[j].0 == kv;
                    if j < i {
                        lemma_seq_lt_trichotomy(self.spec_currencies()[j].0, kv);
                    } else {
                        assert(i < n);
                        assert(self.spec_currencies()[i as int].0 != kv);
                        assert(!seq_lt(self.spec_currencies()[i as int].0, kv));
                        lemma_seq_lt_trichotomy(self.spec_currencies()[i as int].0, kv);
                        assert(seq_lt(kv, self.spec_currencies()[i as int].0));
                        if j > i {
                            assert(seq_lt(
                                self.spec_currencies()[i as int].0,
                                self.spec_currencies()[j].0,
                            ));
                            lemma_seq_lt_trans(
                                kv,
                                self.spec_currencies()[i as int].0,
                                self.spec_currencies()[j].0,
                            );
                        }
                        lemma_seq_lt_trichotomy(kv, self.spec_currencies()[j].0);
                    }
                }
            }
        }
        let ghost pre = *self;
        let row = Currency { code: k, name: name.clone(), next_update: 0 };
        self.currencies.insert(i, row);
        proof {
            let pc = pre.spec_currencies();
            let fc = self.spec_currencies();
            pre.currencies@.insert_ensures(i as int, row);
            assert(fc.len() == pc.len() + 1);
            assert forall|j: int| 0 <= j < i implies fc[j] == pc[j] by {
                assert(self.currencies@[j] == pre.currencies@[j]);
            }
            assert(fc[i as int] == (kv, name@, 0u64)) by {
                assert(self.currencies@[i as int] == row);
            }
            assert forall|j: int| i <= j < pc.len() implies fc[j + 1] == pc[j] by {
                assert(self.currencies@[j + 1] == pre.currencies@[j]);
            }
            if i < n {
                assert(pc[i as int].0 != kv);
                assert(!seq_lt(pc[i as int].0, kv));
                lemma_seq_lt_trichotomy(pc[i as int].0, kv);
                assert(seq_lt(kv, pc[i as int].0));
            }
            assert forall|a: int, b: int| 0 <= a < b < fc.len() implies seq_lt(
                fc[a].0,
                fc[b].0,
            ) by {
                if b < i {
                } else if b == i {
                    assert(fc[a] == pc[a]);
                    assert(seq_lt(pc[a].0, kv));
                } else {
                    // b > i
                    assert(fc[b] == pc[b - 1]);
                    if a < i {
                        if b - 1 == a {
                            assert(false);
                        } else {
                            assert(seq_lt(pc[a].0, pc[b - 1].0));
                        }
                    } else if a == i {
                        if b - 1 == i {
                            assert(seq_lt(kv, pc[i as int].0));
                        } else {
                            assert(seq_lt(pc[i as int].0, pc[b - 1].0));
                            lemma_seq_lt_trans(kv, pc[i as int].0, pc[b - 1].0);
                        }
                    } else {
                        assert(fc[a] == pc[a - 1]);
                        assert(seq_lt(pc[a - 1].0, pc[b - 1].0));
                    }
                }
            }
            assert(self.wf()) by {
                assert(self.spec_rates() =~= pre.spec_rates());
            }
            self.lemma_codes_distinct();
            pre.lemma_codes_distinct();
            // the new row is found, with its fresh fields
            assert(self.spec_has_code(kv)) by {
                assert(fc[i as int].0 == kv);
            }
            assert(self.spec_cur_idx(kv) == i as int) by {
                let j = self.spec_cur_idx(kv);
                assert(fc[j].0 == kv);
            }
            assert(self.spec_name(kv) == name@ && self.spec_next_update(kv) == 0);
            // every other code is exactly where it was, up to the shift
            assert forall|c: Seq<char>| c != kv implies (#[trigger] self.spec_has_code(c))
                == pre.spec_has_code(c) by {
                if self.spec_has_code(c) {
                    let j = choose|j: int| 0 <= j < fc.len() && fc[j].0 == c;
                    if j < i {
                        assert(pc[j].0 == c);
                        assert(pre.spec_has_code(c));
                    } else if j == i {
                        assert(false);
                    } else {
                        assert(pc[j - 1].0 == c);
                        assert(pre.spec_has_code(c));
                    }
                }
                if pre.spec_has_code(c) {
                    let j = choose|j: int| 0 <= j < pc.len() && pc[j].0 == c;
                    if j < i {
                        assert(fc[j].0 == c);
                    } else {
                        assert(fc[j + 1].0 == c);
                    }
                    assert(self.spec_has_code(c));
                }
            }
            assert forall|c: Seq<char>| c != kv && pre.spec_has_code(c) implies (
            #[trigger] self.spec_name(c)) == pre.spec_name(c) && self.spec_next_update(c)
                == pre.spec_next_update(c) by {
                let j = pre.spec_cur_idx(c);
                assert(pc[j].0 == c);
                let j2: int = if j < i {
                    j
                } else {
                    j + 1
                };
                assert(fc[j2].0 == c && fc[j2].1 == pc[j].1 && fc[j2].2 == pc[j].2);
                assert(self.spec_cur_idx(c) == j2) by {
                    let j3 = self.spec_cur_idx(c);
                    assert(fc[j3].0 == c);
                }
            }
            assert(self.spec_key() == pre.spec_key());
        }
    }
}

} // verus!

verus! {

impl Store {
    proof fn lemma_rate_lt_trans(
        a: (Seq<char>, Seq<char>, Seq<char>),
        b: (Seq<char>, Seq<char>, Seq<char>),
        c: (Seq<char>, Seq<char>, Seq<char>),
    )
        requires
            Self::rate_lt(a, b),
            Self::rate_lt(b, c),
        ensures
            Self::rate_lt(a, c),
    {
        if seq_lt(a.0, b.0) && seq_lt(b.0, c.0) {
            lemma_seq_lt_trans(a.0, b.0, c.0);
        } else if a.0 == b.0 && b.0 == c.0 {
            lemma_seq_lt_trans(a.1, b.1, c.1);
        }
    }

    /// Insert or replace the single rate row `(f, t) -> rate`; every other
    /// row, the currencies and the credential are untouched.
    fn set_rate(&mut self, f: &String, t: &String, rate: &String)
        requires
            old(self).wf(),
        ensures
            final(self).wf(),
            final(self).spec_has_rate(f@, t@),
            final(self).spec_rate(f@, t@) == rate@,
            forall|a: Seq<char>, b: Seq<char>|
                !(a == f@ && b == t@) ==> (#[trigger] final(self).spec_has_rate(a, b)) == old(
                    self,
                ).spec_has_rate(a, b),
            forall|a: Seq<char>, b: Seq<char>|
                !(a == f@ && b == t@) && old(self).spec_has_rate(a, b) ==> (
                #[trigger] final(self).spec_rate(a, b)) == old(self).spec_rate(a, b),
            final(self).spec_currencies() == old(self).spec_currencies(),
            final(self).spec_key() == old(self).spec_key(),
    {
        let ghost key = (f@, t@, rate@);
        let n = self.rates.len();
        let mut i: usize = 0;
        while i < n && (str_lt(self.rates[i].from.as_str(), f.as_str()) || (self.rates[i].from == *f
            && str_lt(self.rates[i].to.as_str(), t.as_str())))
            invariant
                i <= n,
                n == self.rates@.len(),
                self == old(self),
                self.wf(),
                forall|j: int|
                    0 <= j < i ==> Self::rate_lt(#[trigger] self.spec_rates()[j], (f@, t@, rate@)),
            decreases n - i,
        {
            i = i + 1;
        }
        let ghost pre = *self;
        let ghost pc = pre.spec_rates();
        if i < n && self.rates[i].from == *f && self.rates[i].to == *t {
            // replace the stored text for this key
            let row = self.rates.remove(i);
            let new_row = RateRow { from: row.from, to: row.to, rate: rate.clone() };
            self.rates.insert(i, new_row);
            proof {
                let fc = self.spec_rates();
                pre.rates@.remove_ensures(i as int);
                pre.rates@.remove(i as int).insert_ensures(i as int, new_row);
                assert(fc.len() == pc.len());
                assert forall|j: int| 0 <= j < fc.len() && j != i implies fc[j] == pc[j] by {
                    if j < i {
                        assert(self.rates@[j] == pre.rates@[j]);
                    } else {
                        assert(self.rates@[j] == pre.rates@.remove(i as int)[j - 1]);
                        assert(pre.rates@.remove(i as int)[j - 1] == pre.rates@[j]);
                    }
                }
                assert(self.rates@[i as int] == new_row);
                assert(fc[i as int] == (f@, t@, rate@)) by {
                    assert(pc[i as int].0 == f@ && pc[i as int].1 == t@);
                }
                assert forall|a: int, b: int| 0 <= a < b < fc.len() implies Self::rate_lt(
                    fc[a],
                    fc[b],
                ) by {
                    assert(Self::rate_lt(pc[a], pc[b]));
                    assert(fc[a].0 == pc[a].0 && fc[a].1 == pc[a].1);
                    assert(fc[b].0 == pc[b].0 && fc[b].1 == pc[b].1);
                }
                assert(self.wf()) by {
                    assert(self.spec_currencies() =~= pre.spec_currencies());
                }
                self.lemma_rate_keys_distinct();
                pre.lemma_rate_keys_distinct();
                assert(self.spec_has_rate(f@, t@)) by {
                    assert(fc[i as int].0 == f@ && fc[i as int].1 == t@);
                }
                assert(self.spec_rate_idx(f@, t@) == i as int) by {
                    let j = self.spec_rate_idx(f@, t@);
                    assert(fc[j].0 == f@ && fc[j].1 == t@);
                }
                assert forall|a: Seq<char>, b: Seq<char>| !(a == f@ && b == t@) implies (
                #[trigger] self.spec_has_rate(a, b)) == pre.spec_has_rate(a, b) by {
                    if self.spec_has_rate(a, b) {
                        let j = choose|j: int| 0 <= j < fc.len() && fc[j].0 == a && fc[j].1 == b;
                        assert(pc[j].0 == a && pc[j].1 == b);
                        assert(pre.spec_has_rate(a, b));
                    }
                    if pre.spec_has_rate(a, b) {
                        let j = choose|j: int| 0 <= j < pc.len() && pc[j].0 == a && pc[j].1 == b;
                        assert(fc[j].0 == a && fc[j].1 == b);
                        assert(self.spec_has_rate(a, b));
                    }
                }
                assert forall|a: Seq<char>, b: Seq<char>|
                    !(a == f@ && b == t@) && pre.spec_has_rate(a, b) implies (
                #[trigger] self.spec_rate(a, b)) == pre.spec_rate(a, b) by {
                    let j = pre.spec_rate_idx(a, b);
                    assert(pc[j].0 == a && pc[j].1 == b);
                    assert(j != i);
                    assert(fc[j] == pc[j]);
                    assert(self.spec_rate_idx(a, b) == j) by {
                        let j3 = self.spec_rate_idx(a, b);
                        assert(fc[j3].0 == a && fc[j3].1 == b);
                    }
                }
                assert(self.spec_currencies() =~= pre.spec_currencies());
            }
            return ;
        }
        proof {
            if i < n {
                let cur = pc[i as int];
                assert(!Self::rate_lt(cur, key));
                assert(!(cur.0 == f@ && cur.1 == t@));
                lemma_seq_lt_trichotomy(cur.0, f@);
                lemma_seq_lt_trichotomy(cur.1, t@);
                assert(Self::rate_lt(key, cur));
            }
            assert(!self.spec_has_rate(f@, t@)) by {
                if self.spec_has_rate(f@, t@) {
                    let j = choose|j: int| 0 <= j < pc.len() && pc[j].0 == f@ && pc[j].1 == t@;
                    if j < i {
                        assert(Self::rate_lt(pc[j], key));
                        lemma_seq_lt_trichotomy(pc[j].0, f@);
                        lemma_seq_lt_trichotomy(pc[j].1, t@);
                    } else {
                        assert(i < n);
                        if j > i {
                            assert(Self::rate_lt(pc[i as int], pc[j]));
                            Self::lemma_rate_lt_trans(key, pc[i as int], pc[j]);
                        }
                        lemma_seq_lt_trichotomy(f@, pc[j].0);
                        lemma_seq_lt_trichotomy(t@, pc[j].1);
                    }
                }
            }
        }
        let new_row = RateRow { from: f.clone(), to: t.clone(), rate: rate.clone() };
        self.rates.insert(i, new_row);
        proof {
            let fc = self.spec_rates();
            pre.rates@.insert_ensures(i as int, new_row);
            assert(fc.len() == pc.len() + 1);
            assert forall|j: int| 0 <= j < i implies fc[j] == pc[j] by {
                assert(self.rates@[j] == pre.rates@[j]);
            }
            assert(fc[i as int] == (f@, t@, rate@)) by {
                assert(self.rates@[i as int] == new_row);
            }
            assert forall|j: int| i <= j < pc.len() implies fc[j + 1] == pc[j] by {
                assert(self.rates@[j + 1] == pre.rates@[j]);
            }
            assert forall|a: int, b: int| 0 <= a < b < fc.len() implies Self::rate_lt(
                fc[a],
                fc[b],
            ) by {
                if b < i {
                } else if b == i {
                    assert(fc[a] == pc[a]);
                    assert(Self::rate_lt(pc[a], key));
                } else {
                    assert(fc[b] == pc[b - 1]);
                    if a < i {
                        assert(Self::rate_lt(pc[a], pc[b - 1]));
                    } else if a == i {
                        if b - 1 == i {
                            assert(Self::rate_lt(key, pc[i as int]));
                        } else {
                            assert(Self::rate_lt(pc[i as int], pc[b - 1]));
                            Self::lemma_rate_lt_trans(key, pc[i as int], pc[b - 1]);
                        }
                    } else {
                        assert(fc[a] == pc[a - 1]);
                        assert(Self::rate_lt(pc[a - 1], pc[b - 1]));
                    }
                }
            }
            assert(self.wf()) by {
                assert(self.spec_currencies() =~= pre.spec_currencies());
            }
            self.lemma_rate_keys_distinct();
            pre.lemma_rate_keys_distinct();
            assert(self.spec_has_rate(f@, t@)) by {
                assert(fc[i as int].0 == f@ && fc[i as int].1 == t@);
            }
            assert(self.spec_rate_idx(f@, t@) == i as int) by {
                let j = self.spec_rate_idx(f@, t@);
                assert(fc[j].0 == f@ && fc[j].1 == t@);
            }
            assert forall|a: Seq<char>, b: Seq<char>| !(a == f@ && b == t@) implies (
            #[trigger] self.spec_has_rate(a, b)) == pre.spec_has_rate(a, b) by {
                if self.spec_has_rate(a, b) {
                    let j = choose|j: int| 0 <= j < fc.len() && fc[j].0 == a && fc[j].1 == b;
                    if j < i {
                        assert(pc[j].0 == a && pc[j].1 == b);
                        assert(pre.spec_has_rate(a, b));
                    } else if j == i {
                        assert(false);
                    } else {
                        assert(pc[j - 1].0 == a && pc[j - 1].1 == b);
                        assert(pre.spec_has_rate(a, b));
                    }
                }
                if pre.spec_has_rate(a, b) {
                    let j = choose|j: int| 0 <= j < pc.len() && pc[j].0 == a && pc[j].1 == b;
                    if j < i {
                        assert(fc[j].0 == a && fc[j].1 == b);
                    } else {
                        assert(fc[j + 1].0 == a && fc[j + 1].1 == b);
                    }
                    assert(self.spec_has_rate(a, b));
                }
            }
            assert forall|a: Seq<char>, b: Seq<char>|
                !(a == f@ && b == t@) && pre.spec_has_rate(a, b) implies (
            #[trigger] self.spec_rate(a, b)) == pre.spec_rate(a, b) by {
                let j = pre.spec_rate_idx(a, b);
                assert(pc[j].0 == a && pc[j].1 == b);
                let j2: int = if j < i {
                    j
                } else {
                    j + 1
                };
                assert(fc[j2] == pc[j]);
                assert(self.spec_rate_idx(a, b) == j2) by {
                    let j3 = self.spec_rate_idx(a, b);
                    assert(fc[j3].0 == a && fc[j3].1 == b);
                }
            }
            assert(self.spec_currencies() =~= pre.spec_currencies());
        }
    }
}

} // verus!

verus! {

/// Does some pair in `pairs` canonicalize to target code `b`?
pub open spec fn pairs_contain(pairs: Seq<(Seq<char>, Seq<char>)>, b: Seq<char>) -> bool {
    exists|p: int| 0 <= p < pairs.len() && canon_seq(#[trigger] pairs[p].0) == b
}

/// The view of an exec list of `(code_to, rate_text)` pairs.
pub open spec fn pairs_view(v: Seq<(String, String)>) -> Seq<(Seq<char>, Seq<char>)> {
    Seq::new(v.len(), |i: int| (v[i].0@, v[i].1@))
}

/// How `add_rates` changes the store: every pair of the batch is written
/// under the canonicalized base code, every other rate row is untouched, and
/// the base currency's `next_update` is set (when the base code is known).
pub open spec fn upsert_post(
    pre: Store,
    post: Store,
    next_update: u64,
    code_from: Seq<char>,
    pairs: Seq<(Seq<char>, Seq<char>)>,
) -> bool {
    let f = canon_seq(code_from);
    &&& (forall|p: int|
        0 <= p < pairs.len() ==> post.spec_has_rate(f, canon_seq(#[trigger] pairs[p].0))
            && post.spec_rate(f, canon_seq(pairs[p].0)) == pairs[p].1)
    &&& (forall|a: Seq<char>, b: Seq<char>|
        !(a == f && pairs_contain(pairs, b)) ==> (#[trigger] post.spec_has_rate(a, b))
            == pre.spec_has_rate(a, b))
    &&& (forall|a: Seq<char>, b: Seq<char>|
        !(a == f && pairs_contain(pairs, b)) && pre.spec_has_rate(a, b) ==> (
        #[trigger] post.spec_rate(a, b)) == pre.spec_rate(a, b))
    &&& (forall|c: Seq<char>| (#[trigger] post.spec_has_code(c)) == pre.spec_has_code(c))
    &&& (pre.spec_has_code(f) ==> post.spec_next_update(f) == next_update && post.spec_name(f)
        == pre.spec_name(f))
    &&& (forall|c: Seq<char>|
        c != f && pre.spec_has_code(c) ==> (#[trigger] post.spec_name(c)) == pre.spec_name(c)
            && post.spec_next_update(c) == pre.spec_next_update(c))
    &&& (!pre.spec_has_code(f) ==> post.spec_currencies() == pre.spec_currencies())
    &&& post.spec_key() == pre.spec_key()
}

impl Store {
    /// Set the `next_update` of the row for code `f` (exact key, already
    /// canonical); a no-op when the code is unknown.
    fn set_next_update(&mut self, f: &String, next_update: u64)
        requires
            old(self).wf(),
        ensures
            final(self).wf(),
            forall|c: Seq<char>| (#[trigger] final(self).spec_has_code(c)) == old(
                self,
            ).spec_has_code(c),
            old(self).spec_has_code(f@) ==> final(self).spec_next_update(f@) == next_update
                && final(self).spec_name(f@) == old(self).spec_name(f@),
            forall|c: Seq<char>|
                c != f@ && old(self).spec_has_code(c) ==> (#[trigger] final(self).spec_name(c))
                    == old(self).spec_name(c) && final(self).spec_next_update(c) == old(
                    self,
                ).spec_next_update(c),
            !old(self).spec_has_code(f@) ==> final(self).spec_currencies() == old(
                self,
            ).spec_currencies(),
            final(self).spec_rates() == old(self).spec_rates(),
            final(self).spec_key() == old(self).spec_key(),
    {
        let n = self.currencies.len();
        let mut i: usize = 0;
        while i < n
            invariant
                i <= n,
                n == self.currencies@.len(),
                self == old(self),
                self.wf(),
                forall|j: int| 0 <= j < i ==> self.spec_currencies()[j].0 != f@,
            decreases n - i,
        {
            if self.currencies[i].code == *f {
                proof {
                    assert(self.spec_currencies()[i as int].0 == f@);
                }
                let ghost pre = *self;
                let ghost pc = pre.spec_currencies();
                let row = self.currencies.remove(i);
                let new_row = Currency { code: row.code, name: row.name, next_update };
                self.currencies.insert(i, new_row);
                proof {
                    let fc = self.spec_currencies();
                    pre.currencies@.remove_ensures(i as int);
                    pre.currencies@.remove(i as int).insert_ensures(i as int, new_row);
                    assert(fc.len() == pc.len());
                    assert forall|j: int| 0 <= j < fc.len() && j != i implies fc[j] == pc[j] by {
                        if j < i {
                            assert(self.currencies@[j] == pre.currencies@[j]);
                        } else {
                            assert(self.currencies@[j] == pre.currencies@.remove(i as int)[j - 1]);
                            assert(pre.currencies@.remove(i as int)[j - 1] == pre.currencies@[j]);
                        }
                    }
                    assert(self.currencies@[i as int] == new_row);
                    assert(fc[i as int].0 == pc[i as int].0 && fc[i as int].1 == pc[i as int].1
                        && fc[i as int].2 == next_update);
                    assert forall|a: int, b: int| 0 <= a < b < fc.len() implies seq_lt(
                        fc[a].0,
                        fc[b].0,
                    ) by {
                        assert(seq_lt(pc[a].0, pc[b].0));
                        assert(fc[a].0 == pc[a].0 && fc[b].0 == pc[b].0);
                    }
                    assert(self.wf()) by {
                        assert(self.spec_rates() =~= pre.spec_rates());
                    }
                    self.lemma_codes_distinct();
                    pre.lemma_codes_distinct();
                    assert forall|c: Seq<char>| (#[trigger] self.spec_has_code(c))
                        == pre.spec_has_code(c) by {
                        if self.spec_has_code(c) {
                            let j = choose|j: int| 0 <= j < fc.len() && fc[j].0 == c;
                            assert(pc[j].0 == c);
                        }
                        if pre.spec_has_code(c) {
                            let j = choose|j: int| 0 <= j < pc.len() && pc[j].0 == c;
                            assert(fc[j].0 == c);
                        }
                    }
                    assert(self.spec_cur_idx(f@) == i as int) by {
                        let j = self.spec_cur_idx(f@);
                        assert(fc[j].0 == f@);
                    }
                    assert(pre.spec_cur_idx(f@) == i as int) by {
                        let j = pre.spec_cur_idx(f@);
                        assert(pc[j].0 == f@);
                    }
                    assert(self.spec_next_update(f@) == next_update && self.spec_name(f@)
                        == pre.spec_name(f@));
                    assert forall|c: Seq<char>| c != f@ && pre.spec_has_code(c) implies (
                    #[trigger] self.spec_name(c)) == pre.spec_name(c) && self.spec_next_update(c)
                        == pre.spec_next_update(c) by {
                        let j = pre.spec_cur_idx(c);
                        assert(pc[j].0 == c);
                        assert(j != i);
                        assert(fc[j] == pc[j]);
                        assert(self.spec_cur_idx(c) == j) by {
                            let j3 = self.spec_cur_idx(c);
                            assert(fc[j3].0 == c);
                        }
                    }
                    assert(self.spec_rates() =~= pre.spec_rates());
                }
                return ;
            }
            i = i + 1;
        }
        proof {
            assert(!self.spec_has_code(f@));
        }
    }

    /// Replace, as one unit, every rate row of the batch under the
    /// canonicalized base code and advance that base currency's
    /// `next_update`: the full-table-replace of a refresh. Rows for target
    /// codes outside the batch, other base codes, and the credential are
    /// untouched. The batch must not repeat a target code (the provider's
    /// mapping is keyed by code).
    pub fn add_rates(&mut self, next_update: u64, code_from: &String, rates: &Vec<(String, String)>)
        requires
            old(self).wf(),
            forall|p1: int, p2: int|
                0 <= p1 < p2 < rates@.len() ==> canon_seq(rates@[p1].0@) != canon_seq(
                    rates@[p2].0@,
                ),
        ensures
            final(self).wf(),
            upsert_post(
                *old(self),
                *final(self),
                next_update,
                code_from@,
                pairs_view(rates@),
            ),
    {
        let f = canon(code_from);
        let ghost fv = f@;
        let ghost pairs = pairs_view(rates@);
        let n = rates.len();
        let mut p: usize = 0;
        while p < n
            invariant
                p <= n,
                n == rates@.len(),
                self.wf(),
                fv == canon_seq(code_from@),
                f@ == fv,
                pairs == pairs_view(rates@),
                forall|p1: int, p2: int|
                    0 <= p1 < p2 < rates@.len() ==> canon_seq(rates@[p1].0@) != canon_seq(
                        rates@[p2].0@,
                    ),
                forall|q: int|
                    0 <= q < p ==> self.spec_has_rate(fv, canon_seq(#[trigger] pairs[q].0))
                        && self.spec_rate(fv, canon_seq(pairs[q].0)) == pairs[q].1,
                forall|a: Seq<char>, b: Seq<char>|
                    !(a == fv && pairs_contain(pairs.take(p as int), b)) ==> (
                    #[trigger] self.spec_has_rate(a, b)) == old(self).spec_has_rate(a, b),
                forall|a: Seq<char>, b: Seq<char>|
                    !(a == fv && pairs_contain(pairs.take(p as int), b)) && old(
                        self,
                    ).spec_has_rate(a, b) ==> (#[trigger] self.spec_rate(a, b)) == old(
                        self,
                    ).spec_rate(a, b),
                self.spec_currencies() == old(self).spec_currencies(),
                self.spec_key() == old(self).spec_key(),
            decreases n - p,
        {
            let t = canon(&rates[p].0);
            let ghost tv = t@;
            proof {
                assert(tv == canon_seq(pairs[p as int].0));
            }
            self.set_rate(&f, &t, &rates[p].1);
            proof {
                assert forall|q: int| 0 <= q < p + 1 implies self.spec_has_rate(
                    fv,
                    canon_seq(#[trigger] pairs[q].0),
                ) && self.spec_rate(fv, canon_seq(pairs[q].0)) == pairs[q].1 by {
                    if q < p {
                        assert(canon_seq(pairs[q].0) != tv);
                        assert(!(fv == fv && canon_seq(pairs[q].0) == tv));
                    }
                }
                assert forall|a: Seq<char>, b: Seq<char>|
                    !(a == fv && pairs_contain(pairs.take(p + 1), b)) implies (
                #[trigger] self.spec_has_rate(a, b)) == old(self).spec_has_rate(a, b) by {
                    assert(!(a == fv && b == tv)) by {
                        if a == fv && b == tv {
                            assert(canon_seq(pairs.take(p + 1)[p as int].0) == b);
                            assert(pairs_contain(pairs.take(p + 1), b));
                        }
                    }
                    assert(!(a == fv && pairs_contain(pairs.take(p as int), b))) by {
                        if pairs_contain(pairs.take(p as int), b) {
                            let q = choose|q: int|
                                0 <= q < p && canon_seq(#[trigger] pairs.take(p as int)[q].0) == b;
                            assert(canon_seq(pairs.take(p + 1)[q].0) == b);
                            assert(pairs_contain(pairs.take(p + 1), b));
                        }
                    }
                }
                assert forall|a: Seq<char>, b: Seq<char>|
                    !(a == fv && pairs_contain(pairs.take(p + 1), b)) && old(self).spec_has_rate(
                        a,
                        b,
                    ) implies (#[trigger] self.spec_rate(a, b)) == old(self).spec_rate(a, b) by {
                    assert(!(a == fv && b == tv)) by {
                        if a == fv && b == tv {
                            assert(canon_seq(pairs.take(p + 1)[p as int].0) == b);
                            assert(pairs_contain(pairs.take(p + 1), b));
                        }
                    }
                    assert(!(a == fv && pairs_contain(pairs.take(p as int), b))) by {
                        if pairs_contain(pairs.take(p as int), b) {
                            let q = choose|q: int|
                                0 <= q < p && canon_seq(#[trigger] pairs.take(p as int)[q].0) == b;
                            assert(canon_seq(pairs.take(p + 1)[q].0) == b);
                            assert(pairs_contain(pairs.take(p + 1), b));
                        }
                    }
                }
            }
            p = p + 1;
        }
        proof {
            assert(pairs.take(n as int) =~= pairs);
        }
        let ghost mid = *self;
        self.set_next_update(&f, next_update);
        proof {
            let pre = *old(self);
            let post = *self;
            assert(post.spec_rates() == mid.spec_rates());
            assert forall|q: int| 0 <= q < pairs.len() implies post.spec_has_rate(
                fv,
                canon_seq(#[trigger] pairs[q].0),
            ) && post.spec_rate(fv, canon_seq(pairs[q].0)) == pairs[q].1 by {
                assert(mid.spec_has_rate(fv, canon_seq(pairs[q].0)));
                assert(mid.spec_rate(fv, canon_seq(pairs[q].0)) == pairs[q].1);
            }
            assert forall|a: Seq<char>, b: Seq<char>|
                !(a == fv && pairs_contain(pairs, b)) implies (#[trigger] post.spec_has_rate(a, b))
                == pre.spec_has_rate(a, b) by {
                assert(mid.spec_has_rate(a, b) == pre.spec_has_rate(a, b));
            }
            assert forall|a: Seq<char>, b: Seq<char>|
                !(a == fv && pairs_contain(pairs, b)) && pre.spec_has_rate(a, b) implies (
            #[trigger] post.spec_rate(a, b)) == pre.spec_rate(a, b) by {
                assert(mid.spec_rate(a, b) == pre.spec_rate(a, b));
            }
            assert(mid.spec_currencies() == pre.spec_currencies());
            assert forall|c: Seq<char>| (#[trigger] post.spec_has_code(c)) == pre.spec_has_code(
                c,
            ) by {
                assert(post.spec_has_code(c) == mid.spec_has_code(c));
            }
            assert(pre.spec_has_code(fv) ==> post.spec_next_update(fv) == next_update
                && post.spec_name(fv) == pre.spec_name(fv)) by {
                if pre.spec_has_code(fv) {
                    assert(mid.spec_has_code(fv));
                    assert(mid.spec_next_update(fv) == pre.spec_next_update(fv));
                    assert(mid.spec_name(fv) == pre.spec_name(fv));
                }
            }
            assert forall|c: Seq<char>| c != fv && pre.spec_has_code(c) implies (
            #[trigger] post.spec_name(c)) == pre.spec_name(c) && post.spec_next_update(c)
                == pre.spec_next_update(c) by {
                assert(mid.spec_has_code(c));
            }
            assert(!pre.spec_has_code(fv) ==> post.spec_currencies() == pre.spec_currencies());
            assert(post.spec_key() == pre.spec_key());
        }
    }
}

} // verus!

verus! {

impl Store {
    /// Every currency as `(code, display name)`, ordered by code, ascending.
    pub fn list_currencies(&self) -> (r: Vec<(String, String)>)
        requires
            self.wf(),
        ensures
            r@.len() == self.spec_currencies().len(),
            forall|i: int|
                0 <= i < r@.len() ==> (#[trigger] r@[i]).0@ == self.spec_currencies()[i].0
                    && r@[i].1@ == self.spec_currencies()[i].1,
            forall|i: int, j: int| 0 <= i < j < r@.len() ==> seq_lt(r@[i].0@, r@[j].0@),
    {
        let mut out: Vec<(String, String)> = Vec::new();
        let n = self.currencies.len();
        let mut i: usize = 0;
        while i < n
            invariant
                i <= n,
                n == self.currencies@.len(),
                self.wf(),
                out@.len() == i,
                forall|j: int|
                    0 <= j < i ==> (#[trigger] out@[j]).0@ == self.spec_currencies()[j].0
                        && out@[j].1@ == self.spec_currencies()[j].1,
            decreases n - i,
        {
            let code = self.currencies[i].code.clone();
            let name = self.currencies[i].name.clone();
            out.push((code, name));
            i = i + 1;
        }
        out
    }

    /// Every rate row under the canonicalized base code, as
    /// `(code_to, rate text)`, ordered by target code, ascending; empty when
    /// the base was never refreshed.
    pub fn list_rates(&self, code_from: &String) -> (r: Vec<(String, String)>)
        requires
            self.wf(),
        ensures
            forall|i: int|
                0 <= i < r@.len() ==> self.spec_has_rate(
                    canon_seq(code_from@),
                    (#[trigger] r@[i]).0@,
                ) && r@[i].1@ == self.spec_rate(canon_seq(code_from@), r@[i].0@),
            forall|t: Seq<char>|
                #[trigger] self.spec_has_rate(canon_seq(code_from@), t) ==> exists|i: int|
                    0 <= i < r@.len() && (#[trigger] r@[i]).0@ == t,
            forall|i: int, j: int| 0 <= i < j < r@.len() ==> seq_lt(r@[i].0@, r@[j].0@),
    {
        let f = canon(code_from);
        let ghost fv = f@;
        let mut out: Vec<(String, String)> = Vec::new();
        let ghost idxs: Seq<int> = Seq::empty();
        let n = self.rates.len();
        let mut k: usize = 0;
        while k < n
            invariant
                k <= n,
                n == self.rates@.len(),
                self.wf(),
                fv == canon_seq(code_from@),
                f@ == fv,
                idxs.len() == out@.len(),
                forall|x: int|
                    0 <= x < idxs.len() ==> 0 <= #[trigger] idxs[x] < k && self.spec_rates()[idxs[x]].0
                        == fv && out@[x].0@ == self.spec_rates()[idxs[x]].1 && out@[x].1@
                        == self.spec_rates()[idxs[x]].2,
                forall|x: int, y: int| 0 <= x < y < idxs.len() ==> idxs[x] < idxs[y],
                forall|j: int|
                    0 <= j < k && (#[trigger] self.spec_rates()[j]).0 == fv ==> exists|x: int|
                        0 <= x < idxs.len() && idxs[x] == j,
            decreases n - k,
        {
            if self.rates[k].from == f {
                proof {
                    assert(self.spec_rates()[k as int].0 == fv);
                }
                let to = self.rates[k].to.clone();
                let rate = self.rates[k].rate.clone();
                out.push((to, rate));
                proof {
                    let idxs0 = idxs;
                    idxs = idxs.push(k as int);
                    assert(idxs[idxs.len() - 1] == k as int);
                    assert forall|j: int|
                        0 <= j < k + 1 && (#[trigger] self.spec_rates()[j]).0 == fv implies exists|
                        x: int,
                    | 0 <= x < idxs.len() && idxs[x] == j by {
                        if j == k {
                            assert(idxs[idxs.len() - 1] == j);
                        } else {
                            let x = choose|x: int| 0 <= x < idxs0.len() && #[trigger] idxs0[x] == j;
                            assert(idxs[x] == j);
                        }
                    }
                }
            } else {
                proof {
                    assert(self.spec_rates()[k as int].0 != fv);
                }
            }
            k = k + 1;
        }
        proof {
            self.lemma_rate_keys_distinct();
            assert forall|i: int| 0 <= i < out@.len() implies self.spec_has_rate(
                fv,
                (#[trigger] out@[i]).0@,
            ) && out@[i].1@ == self.spec_rate(fv, out@[i].0@) by {
                let j = idxs[i];
                assert(self.spec_rates()[j].0 == fv && self.spec_rates()[j].1 == out@[i].0@);
                assert(self.spec_has_rate(fv, out@[i].0@));
                assert(self.spec_rate_idx(fv, out@[i].0@) == j) by {
                    let j3 = self.spec_rate_idx(fv, out@[i].0@);
                    assert(self.spec_rates()[j3].0 == fv && self.spec_rates()[j3].1 == out@[i].0@);
                }
            }
            assert forall|i: int, j: int| 0 <= i < j < out@.len() implies seq_lt(
                out@[i].0@,
                out@[j].0@,
            ) by {
                assert(idxs[i] < idxs[j]);
                assert(Self::rate_lt(self.spec_rates()[idxs[i]], self.spec_rates()[idxs[j]]));
                lemma_seq_lt_trichotomy(self.spec_rates()[idxs[i]].0, self.spec_rates()[idxs[j]].0);
            }
        }
        out
    }
}

} // verus!
