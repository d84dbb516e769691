//! The secret-store adapter and the secret-manager facade: create, read,
//! list and delete secrets held under one fixed application namespace in the
//! platform credential store. The store itself is reached through a small
//! set of trusted declarations over `keyring_core`; everything around the
//! calls — key validation, error mapping, attribute probing and the label
//! sort — is verified.

use vstd::prelude::*;
use vstd::seq_lib::group_to_multiset_ensures;

use crate::text::{lemma_lex_le_total, lemma_lex_le_trans, lex_le, str_eq, str_le};
use crate::validate::{is_valid_env_var_name, valid_env_var_name};

verus! {

broadcast use group_to_multiset_ensures;

/// A typed failure of a secret-store operation.
#[derive(Debug, Clone, Copy, PartialEq, Eq, Structural)]
pub enum StoreError {
    /// The platform backend could not be reached or refused the operation.
    Unavailable,
    /// The OS denied programmatic access to the credential store.
    AccessDenied,
    /// No entry exists under the requested label.
    NotFound,
    /// The store returned an entry the adapter cannot interpret.
    MalformedEntry,
    /// The key name fails the naming rule; the store was never touched.
    InvalidKeyFormat,
}

/// Declares keyring_core::Entry — a handle on one credential in the default
/// store — so that it can stand in signatures; its contents stay opaque.
#[verifier::external_type_specification]
#[verifier::external_body]
pub struct ExEntry(keyring_core::Entry);

/// Declares keyring_core::Error, the store's own failure type; verified code
/// never looks inside it, it is mapped to `StoreError` at the boundary.
#[verifier::external_type_specification]
#[verifier::external_body]
pub struct ExKeyringError(keyring_core::Error);

/// Relies on keyring_core::Entry::new: builds an entry handle for this
/// service and user against the default store; whether it succeeds depends on
/// the store alone.
pub assume_specification [ keyring_core::Entry::new ](service: &str, user: &str) -> Result<
    keyring_core::Entry,
    keyring_core::Error,
>;

/// Relies on keyring_core::Entry::set_password: creates or overwrites the
/// credential's secret in the platform store.
pub assume_specification [ keyring_core::Entry::set_password ](
    entry: &keyring_core::Entry,
    password: &str,
) -> Result<(), keyring_core::Error>;

/// Relies on keyring_core::Entry::get_password: retrieves the secret, or
/// fails with NoEntry when no matching credential exists.
pub assume_specification [ keyring_core::Entry::get_password ](
    entry: &keyring_core::Entry,
) -> Result<String, keyring_core::Error>;

/// Relies on keyring_core::Entry::delete_credential: deletes the matching
/// credential, or fails with NoEntry when none exists, so a second delete of
/// the same label fails.
pub assume_specification [ keyring_core::Entry::delete_credential ](
    entry: &keyring_core::Entry,
) -> Result<(), keyring_core::Error>;

/// Relies on keyring_core::Error's variants: NoEntry marks a missing
/// credential, NoStorageAccess a store the OS refused to open, and
/// BadEncoding, BadDataFormat, BadStoreFormat and Ambiguous an entry or store
/// the adapter cannot interpret; every other failure reports the store as
/// unavailable. Key validation never reaches the store, so no store failure
/// maps to InvalidKeyFormat.
#[verifier::external_body]
fn store_error_of(e: keyring_core::Error) -> (r: StoreError)
    ensures
        r != StoreError::InvalidKeyFormat,
{
    match e {
        keyring_core::Error::NoEntry => StoreError::NotFound,
        keyring_core::Error::NoStorageAccess(_) => StoreError::AccessDenied,
        keyring_core::Error::BadEncoding(_) => StoreError::MalformedEntry,
        keyring_core::Error::BadDataFormat(_, _) => StoreError::MalformedEntry,
        keyring_core::Error::BadStoreFormat(_) => StoreError::MalformedEntry,
        keyring_core::Error::Ambiguous(_) => StoreError::MalformedEntry,
        _ => StoreError::Unavailable,
    }
}

/// Relies on keyring_core::Entry::search with a `service` specification: the
/// entries stored under that service tag in the default store.
#[verifier::external_body]
fn search_entries(service: &str) -> (r: Result<Vec<keyring_core::Entry>, keyring_core::Error>) {
    keyring_core::Entry::search(&std::collections::HashMap::from([("service", service)]))
}

/// Relies on keyring_core::Entry::get_attributes: the store-specific
/// attributes of the entry's credential, handed out as a list of pairs.
#[verifier::external_body]
fn entry_attributes(entry: &keyring_core::Entry) -> (r: Result<
    Vec<(String, String)>,
    keyring_core::Error,
>) {
    entry.get_attributes().map(|attrs| attrs.into_iter().collect())
}

/// The fixed namespace scoping every secret this application stores.
fn service_tag() -> &'static str {
    "envgg"
}

/// Adds or overwrites the secret stored under `key`. The key is validated
/// against the naming rule before the store is ever touched: exactly the
/// invalid names fail with `InvalidKeyFormat`, and nothing is written for
/// them; for a valid name the outcome is the store's.
pub fn add_secret_to_keyring(key: &str, value: &str) -> (r: Result<(), StoreError>)
    ensures
        (r == Err::<(), StoreError>(StoreError::InvalidKeyFormat)) <==> !valid_env_var_name(key@),
{
    if !is_valid_env_var_name(key) {
        return Err(StoreError::InvalidKeyFormat);
    }
    let entry = match keyring_core::Entry::new(service_tag(), key) {
        Ok(entry) => entry,
        Err(e) => {
            return Err(store_error_of(e));
        },
    };
    match entry.set_password(value) {
        Ok(u) => Ok(u),
        Err(e) => Err(store_error_of(e)),
    }
}

/// Deletes the secret stored under `key`; the store reports NotFound when no
/// entry exists, so deleting the same label twice fails the second time.
pub fn delete_secret_from_keyring(key: &str) -> (r: Result<(), StoreError>)
    ensures
        !(r matches Err(StoreError::InvalidKeyFormat)),
{
    let entry = match keyring_core::Entry::new(service_tag(), key) {
        Ok(entry) => entry,
        Err(e) => {
            return Err(store_error_of(e));
        },
    };
    match entry.delete_credential() {
        Ok(u) => Ok(u),
        Err(e) => Err(store_error_of(e)),
    }
}

/// Retrieves the secret stored under `target`; the store reports NotFound
/// when no entry exists under that label.
pub fn get_secret_from_keyring(target: &str) -> (r: Result<String, StoreError>)
    ensures
        !(r matches Err(StoreError::InvalidKeyFormat)),
{
    let entry = match keyring_core::Entry::new(service_tag(), target) {
        Ok(entry) => entry,
        Err(e) => {
            return Err(store_error_of(e));
        },
    };
    match entry.get_password() {
        Ok(password) => Ok(password),
        Err(e) => Err(store_error_of(e)),
    }
}

/// First index at or after `i` of an attribute named `name`, or the length of
/// `attrs` if there is none.
pub open spec fn attr_index_from(
    attrs: Seq<(Seq<char>, Seq<char>)>,
    name: Seq<char>,
    i: int,
) -> int
    decreases attrs.len() - i
        when 0 <= i <= attrs.len()
{
    if i == attrs.len() {
        i
    } else if attrs[i].0 == name {
        i
    } else {
        attr_index_from(attrs, name, i + 1)
    }
}

/// The value of the first attribute named `name`, if any.
pub open spec fn attr_lookup(attrs: Seq<(Seq<char>, Seq<char>)>, name: Seq<char>) -> Option<
    Seq<char>,
> {
    let i = attr_index_from(attrs, name, 0);
    if i < attrs.len() {
        Some(attrs[i].1)
    } else {
        None
    }
}

/// The label of a store entry, read from its attributes: the `username`
/// attribute if present, else the `account` attribute — different platform
/// backends store the identifying attribute under different names — and
/// nothing when neither is present.
pub open spec fn label_of_attributes(attrs: Seq<(Seq<char>, Seq<char>)>) -> Option<Seq<char>> {
    match attr_lookup(attrs, "username"@) {
        Some(v) => Some(v),
        None => attr_lookup(attrs, "account"@),
    }
}

fn attr_get(attrs: &Vec<(String, String)>, name: &str) -> (r: Option<String>)
    ensures
        r.deep_view() == attr_lookup(attrs.deep_view(), name@),
{
    let ghost gattrs = attrs.deep_view();
    let mut i: usize = 0;
    while i < attrs.len() && !str_eq(attrs[i].0.as_str(), name)
        invariant
            0 <= i <= attrs@.len(),
            gattrs == attrs.deep_view(),
            gattrs.len() == attrs@.len(),
            attr_index_from(gattrs, name@, 0) == attr_index_from(gattrs, name@, i as int),
        decreases attrs@.len() - i,
    {
        i = i + 1;
    }
    assert(attr_index_from(gattrs, name@, 0) == i as int);
    if i < attrs.len() {
        Some(attrs[i].1.clone())
    } else {
        None
    }
}

/// Probes an entry's attributes for its label, under `username` first and
/// `account` second.
pub fn label_from_attributes(attrs: &Vec<(String, String)>) -> (r: Option<String>)
    ensures
        r.deep_view() == label_of_attributes(attrs.deep_view()),
{
    match attr_get(attrs, "username") {
        Some(v) => Some(v),
        None => attr_get(attrs, "account"),
    }
}

/// Labels in non-descending code-point order.
pub open spec fn sorted_lex(s: Seq<Seq<char>>) -> bool {
    forall|i: int, j: int| 0 <= i <= j < s.len() ==> lex_le(s[i], s[j])
}

/// Sorts labels by literal value — code-point order, the order `str`'s own
/// comparison gives — keeping exactly the same labels.
pub fn sort_labels(labels: &Vec<String>) -> (r: Vec<String>)
    ensures
        sorted_lex(r.deep_view()),
        r.deep_view().to_multiset() == labels.deep_view().to_multiset(),
{
    let ghost glabels = labels.deep_view();
    let mut out: Vec<String> = Vec::new();
    proof {
        assert(out.deep_view() =~= Seq::<Seq<char>>::empty());
        assert(glabels.take(0) =~= Seq::<Seq<char>>::empty());
        assert(out.deep_view().to_multiset() =~= glabels.take(0).to_multiset());
    }
    let mut i: usize = 0;
    while i < labels.len()
        invariant
            0 <= i <= labels@.len(),
            glabels == labels.deep_view(),
            glabels.len() == labels@.len(),
            sorted_lex(out.deep_view()),
            out.deep_view().to_multiset() == glabels.take(i as int).to_multiset(),
        decreases labels@.len() - i,
    {
        let ghost old_out = out.deep_view();
        let x = labels[i].clone();
        let mut j: usize = 0;
        while j < out.len() && str_le(out[j].as_str(), x.as_str())
            invariant
                0 <= j <= out@.len(),
                old_out == out.deep_view(),
                old_out.len() == out@.len(),
                x@ == glabels[i as int],
                0 <= i < glabels.len(),
                forall|t: int| 0 <= t < j ==> lex_le(#[trigger] old_out[t], x@),
            decreases out@.len() - j,
        {
            j = j + 1;
        }
        proof {
            if (j as int) < old_out.len() {
                lemma_lex_le_total(old_out[j as int], x@);
            }
            assert(forall|t: int| j <= t < old_out.len() ==> lex_le(
                x@,
                #[trigger] old_out[t],
            )) by {
                if exists|t: int| j <= t < old_out.len() && !lex_le(x@, #[trigger] old_out[t]) {
                    let t = choose|t: int|
                        j <= t < old_out.len() && !lex_le(x@, #[trigger] old_out[t]);
                    lemma_lex_le_total(old_out[t], x@);
                    if (j as int) < t {
                        lemma_lex_le_trans(x@, old_out[j as int], old_out[t]);
                    }
                }
            }
        }
        out.insert(j, x);
        proof {
            assert(out.deep_view() =~= old_out.insert(j as int, glabels[i as int]));
            vstd::seq_lib::to_multiset_insert(old_out, j as int, glabels[i as int]);
            assert(glabels.take(i as int + 1) =~= glabels.take(i as int).push(
                glabels[i as int],
            ));
            assert(sorted_lex(out.deep_view())) by {
                assert(forall|t: int|
                    0 <= t < j ==> out.deep_view()[t] == #[trigger] old_out[t]);
                assert(out.deep_view()[j as int] == glabels[i as int]);
                assert(forall|t: int|
                    j < t < out.deep_view().len() ==> out.deep_view()[t] == #[trigger] old_out[t
                        - 1]);
                assert(forall|s: int, t: int|
                    0 <= s <= t < out.deep_view().len() ==> lex_le(
                        #[trigger] out.deep_view()[s],
                        #[trigger] out.deep_view()[t],
                    )) by {
                    assert forall|s: int, t: int|
                        0 <= s <= t < out.deep_view().len() implies lex_le(
                        out.deep_view()[s],
                        out.deep_view()[t],
                    ) by {
                        let a = out.deep_view()[s];
                        let b = out.deep_view()[t];
                        if s == t {
                            lemma_lex_le_total(a, a);
                        } else if s < j && t < j {
                        } else if s == j && t == j {
                            lemma_lex_le_total(a, a);
                        } else if s < j && t == j {
                        } else if s == j && t > j {
                        } else if s < j && t > j {
                            lemma_lex_le_trans(a, x@, b);
                        }
                    }
                }
            }
        }
        i = i + 1;
    }
    proof {
        assert(glabels.take(glabels.len() as int) =~= glabels);
    }
    out
}

/// First index at or after `i` whose attribute fetch failed, or the length
/// of `outcomes` if every fetch succeeded.
pub open spec fn first_fetch_failure_from(
    outcomes: Seq<Result<Seq<(Seq<char>, Seq<char>)>, StoreError>>,
    i: int,
) -> int
    decreases outcomes.len() - i
        when 0 <= i <= outcomes.len()
{
    if i == outcomes.len() {
        i
    } else if outcomes[i] is Err {
        i
    } else {
        first_fetch_failure_from(outcomes, i + 1)
    }
}

/// First index at or after `i` and below `n` whose fetched attributes name no
/// label, or `n` if every fetched entry before `n` is labeled.
pub open spec fn first_unlabeled_from(
    outcomes: Seq<Result<Seq<(Seq<char>, Seq<char>)>, StoreError>>,
    n: int,
    i: int,
) -> int
    decreases n - i
        when 0 <= i <= n <= outcomes.len()
{
    if i == n {
        i
    } else if outcomes[i] is Ok && label_of_attributes(outcomes[i]->Ok_0) is None {
        i
    } else {
        first_unlabeled_from(outcomes, n, i + 1)
    }
}

/// The labels probed from the fetched, labeled attribute lists, in order.
pub open spec fn probed_labels(
    outcomes: Seq<Result<Seq<(Seq<char>, Seq<char>)>, StoreError>>,
) -> Seq<Seq<char>>
    decreases outcomes.len(),
{
    if outcomes.len() == 0 {
        Seq::empty()
    } else {
        let rest = probed_labels(outcomes.drop_last());
        match outcomes.last() {
            Ok(attrs) => match label_of_attributes(attrs) {
                Some(label) => rest.push(label),
                None => rest,
            },
            Err(_) => rest,
        }
    }
}

/// What the label listing owes, given the store's per-entry answers, walked
/// in order: the first failed attribute fetch decides the error; a fetched
/// entry naming no label before that fails the listing with `MalformedEntry`;
/// and when every entry was fetched and labeled, the result is exactly the
/// probed labels, sorted.
pub open spec fn listing_result(
    outcomes: Seq<Result<Seq<(Seq<char>, Seq<char>)>, StoreError>>,
    r: Result<Seq<Seq<char>>, StoreError>,
) -> bool {
    let f = first_fetch_failure_from(outcomes, 0);
    let u = first_unlabeled_from(outcomes, f, 0);
    if u < f {
        r == Err::<Seq<Seq<char>>, StoreError>(StoreError::MalformedEntry)
    } else if f < outcomes.len() {
        r == Err::<Seq<Seq<char>>, StoreError>(outcomes[f]->Err_0)
    } else {
        &&& r is Ok
        &&& sorted_lex(r->Ok_0)
        &&& r->Ok_0.to_multiset() == probed_labels(outcomes).to_multiset()
    }
}

/// The labels a listing outcome carries, as character sequences.
pub open spec fn listing_view(r: Result<Vec<String>, StoreError>) -> Result<
    Seq<Seq<char>>,
    StoreError,
> {
    match r {
        Ok(labels) => Ok(labels.deep_view()),
        Err(e) => Err(e),
    }
}

proof fn lemma_fetch_failure_stops(
    outcomes: Seq<Result<Seq<(Seq<char>, Seq<char>)>, StoreError>>,
    i: int,
    stop: int,
)
    requires
        0 <= i <= stop <= outcomes.len(),
        forall|t: int| i <= t < stop ==> (#[trigger] outcomes[t]) is Ok,
        stop == outcomes.len() || outcomes[stop] is Err,
    ensures
        first_fetch_failure_from(outcomes, i) == stop,
    decreases stop - i,
{
    if i < stop {
        lemma_fetch_failure_stops(outcomes, i + 1, stop);
    }
}

proof fn lemma_unlabeled_stops(
    outcomes: Seq<Result<Seq<(Seq<char>, Seq<char>)>, StoreError>>,
    n: int,
    i: int,
    stop: int,
)
    requires
        0 <= i <= stop <= n <= outcomes.len(),
        forall|t: int|
            i <= t < stop ==> !((#[trigger] outcomes[t]) is Ok && label_of_attributes(
                outcomes[t]->Ok_0,
            ) is None),
        stop == n || (outcomes[stop] is Ok && label_of_attributes(outcomes[stop]->Ok_0) is None),
    ensures
        first_unlabeled_from(outcomes, n, i) == stop,
    decreases stop - i,
{
    if i < stop {
        lemma_unlabeled_stops(outcomes, n, i + 1, stop);
    }
}

/// Lists the labels of every secret stored under the application namespace,
/// sorted by literal value for deterministic presentation. The result is the
/// listing the store's answers dictate: the mapped store error of the first
/// failed search or attribute fetch, `MalformedEntry` as soon as a fetched
/// entry names no label under `username` or `account`, and otherwise exactly
/// the probed labels, sorted.
pub fn list_secrets() -> (r: Result<Vec<String>, StoreError>)
    ensures
        !(r matches Err(StoreError::InvalidKeyFormat)),
        exists|outcomes: Seq<Result<Seq<(Seq<char>, Seq<char>)>, StoreError>>|
            listing_result(outcomes, listing_view(r)),
{
    let entries = match search_entries(service_tag()) {
        Ok(entries) => entries,
        Err(e) => {
            let err = store_error_of(e);
            proof {
                let outcomes = seq![Err::<Seq<(Seq<char>, Seq<char>)>, StoreError>(err)];
                lemma_fetch_failure_stops(outcomes, 0, 0);
                lemma_unlabeled_stops(outcomes, 0, 0, 0);
                assert(listing_result(outcomes, listing_view(Err(err))));
            }
            return Err(err);
        },
    };
    let mut labels: Vec<String> = Vec::new();
    let ghost mut outcomes: Seq<Result<Seq<(Seq<char>, Seq<char>)>, StoreError>> = Seq::empty();
    proof {
        assert(labels.deep_view() =~= probed_labels(outcomes));
    }
    let mut i: usize = 0;
    while i < entries.len()
        invariant
            0 <= i <= entries@.len(),
            outcomes.len() == i,
            forall|t: int|
                0 <= t < i ==> (#[trigger] outcomes[t]) is Ok && label_of_attributes(
                    outcomes[t]->Ok_0,
                ) is Some,
            labels.deep_view() == probed_labels(outcomes),
        decreases entries@.len() - i,
    {
        let ghost old_outcomes = outcomes;
        let ghost old_labels = labels.deep_view();
        let attrs = match entry_attributes(&entries[i]) {
            Ok(attrs) => attrs,
            Err(e) => {
                let err = store_error_of(e);
                proof {
                    outcomes = outcomes.push(Err(err));
                    assert(forall|t: int|
                        0 <= t < i ==> #[trigger] outcomes[t] == old_outcomes[t]);
                    lemma_fetch_failure_stops(outcomes, 0, i as int);
                    lemma_unlabeled_stops(outcomes, i as int, 0, i as int);
                    assert(listing_result(outcomes, listing_view(Err(err))));
                }
                return Err(err);
            },
        };
        match label_from_attributes(&attrs) {
            Some(label) => {
                proof {
                    outcomes = outcomes.push(Ok(attrs.deep_view()));
                    assert(forall|t: int|
                        0 <= t < i ==> #[trigger] outcomes[t] == old_outcomes[t]);
                    assert(outcomes.drop_last() =~= old_outcomes);
                    assert(label_of_attributes(attrs.deep_view()) == Some(label@));
                }
                labels.push(label);
                proof {
                    assert(labels.deep_view() =~= probed_labels(outcomes));
                }
            },
            None => {
                proof {
                    outcomes = outcomes.push(Ok(attrs.deep_view()));
                    assert(forall|t: int|
                        0 <= t < i ==> #[trigger] outcomes[t] == old_outcomes[t]);
                    lemma_fetch_failure_stops(outcomes, 0, i as int + 1);
                    lemma_unlabeled_stops(outcomes, i as int + 1, 0, i as int);
                    assert(listing_result(
                        outcomes,
                        listing_view(Err(StoreError::MalformedEntry)),
                    ));
                }
                return Err(StoreError::MalformedEntry);
            },
        }
        i = i + 1;
    }
    let sorted = sort_labels(&labels);
    proof {
        lemma_fetch_failure_stops(outcomes, 0, outcomes.len() as int);
        lemma_unlabeled_stops(outcomes, outcomes.len() as int, 0, outcomes.len() as int);
        assert(listing_result(outcomes, listing_view(Ok(sorted))));
    }
    Ok(sorted)
}

} // verus!
