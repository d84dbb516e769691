//! The resolution pipeline: an ordered sequence of directives, together with
//! the outcome of one secret-store lookup per alias or lookup directive,
//! becomes a final key/value environment. A failed lookup never aborts the
//! whole resolution: the key is dropped and a warning recorded. Duplicate
//! keys are merged last-one-wins in source line order, whatever order the
//! lookups completed in.

use vstd::prelude::*;
use vstd::pervasive::VecAdditionalExecFns;

use crate::classify::{classify, classify_lines, EnvLine, LineShape};
use crate::store::get_secret_from_keyring;

verus! {

/// One recoverable resolution failure: the exported key that was dropped and
/// the secret-store name whose lookup missed.
#[derive(Debug, Clone, PartialEq, Eq)]
pub struct Warning {
    pub key: String,
    pub keyring_key: String,
}

impl View for Warning {
    type V = (Seq<char>, Seq<char>);

    open spec fn view(&self) -> (Seq<char>, Seq<char>) {
        (self.key@, self.keyring_key@)
    }
}

impl DeepView for Warning {
    type V = (Seq<char>, Seq<char>);

    open spec fn deep_view(&self) -> (Seq<char>, Seq<char>) {
        self.view()
    }
}

/// The directives, as their mathematical shapes.
pub open spec fn views_of(ds: Seq<EnvLine>) -> Seq<LineShape> {
    ds.map_values(|d: EnvLine| d@)
}

/// Whether a directive requires one secret-store lookup.
pub open spec fn needs_lookup(d: LineShape) -> bool {
    d is Alias || d is Lookup
}

/// The store name a directive looks up: the alias target, or the key itself
/// for a bare lookup line.
pub open spec fn lookup_name(d: LineShape) -> Seq<char> {
    match d {
        LineShape::Alias { keyring_key, .. } => keyring_key,
        LineShape::Lookup { key } => key,
        _ => Seq::empty(),
    }
}

/// The key a directive exports; a comment exports none.
pub open spec fn directive_key(d: LineShape) -> Seq<char> {
    match d {
        LineShape::Comment => Seq::empty(),
        LineShape::Alias { key, .. } => key,
        LineShape::Direct { key, .. } => key,
        LineShape::Lookup { key } => key,
    }
}

/// The value a resolving directive contributes: its literal value for a
/// direct assignment, the looked-up value otherwise.
pub open spec fn contributed_value(d: LineShape, l: Option<Seq<char>>) -> Seq<char> {
    match d {
        LineShape::Direct { value, .. } => value,
        _ => l->0,
    }
}

/// A lookup-outcome sequence fits the directives when it has one slot per
/// directive and only alias/lookup directives carry an outcome.
pub open spec fn lookups_consistent(ds: Seq<LineShape>, ls: Seq<Option<Seq<char>>>) -> bool {
    &&& ls.len() == ds.len()
    &&& forall|i: int| 0 <= i < ds.len() && !needs_lookup(ds[i]) ==> ls[i] is None
}

/// The key/value pairs the first `i` directives contribute, in line order:
/// a direct assignment contributes its literal value, an alias or lookup
/// contributes its resolved value when the lookup succeeded and nothing when
/// it missed, and a comment contributes nothing.
pub open spec fn pairs_upto(
    ds: Seq<LineShape>,
    ls: Seq<Option<Seq<char>>>,
    i: int,
) -> Seq<(Seq<char>, Seq<char>)>
    decreases i
        when 0 <= i <= ds.len() && ls.len() == ds.len()
{
    if i <= 0 {
        Seq::empty()
    } else {
        let rest = pairs_upto(ds, ls, i - 1);
        match ds[i - 1] {
            LineShape::Comment => rest,
            LineShape::Direct { key, value } => rest.push((key, value)),
            LineShape::Alias { key, .. } => match ls[i - 1] {
                Some(v) => rest.push((key, v)),
                None => rest,
            },
            LineShape::Lookup { key } => match ls[i - 1] {
                Some(v) => rest.push((key, v)),
                None => rest,
            },
        }
    }
}

/// All pairs the directives contribute, in line order.
pub open spec fn surviving_pairs(ds: Seq<LineShape>, ls: Seq<Option<Seq<char>>>) -> Seq<
    (Seq<char>, Seq<char>),
> {
    pairs_upto(ds, ls, ds.len() as int)
}

/// The warnings the first `i` directives produce: one per alias or lookup
/// directive whose store lookup missed, carrying the dropped key and the
/// store name attempted.
pub open spec fn warnings_upto(
    ds: Seq<LineShape>,
    ls: Seq<Option<Seq<char>>>,
    i: int,
) -> Seq<(Seq<char>, Seq<char>)>
    decreases i
        when 0 <= i <= ds.len() && ls.len() == ds.len()
{
    if i <= 0 {
        Seq::empty()
    } else {
        let rest = warnings_upto(ds, ls, i - 1);
        match ds[i - 1] {
            LineShape::Alias { key, keyring_key } => match ls[i - 1] {
                Some(_) => rest,
                None => rest.push((key, keyring_key)),
            },
            LineShape::Lookup { key } => match ls[i - 1] {
                Some(_) => rest,
                None => rest.push((key, key)),
            },
            _ => rest,
        }
    }
}

/// All warnings the directives produce, in line order.
pub open spec fn lookup_warnings(ds: Seq<LineShape>, ls: Seq<Option<Seq<char>>>) -> Seq<
    (Seq<char>, Seq<char>),
> {
    warnings_upto(ds, ls, ds.len() as int)
}

/// Index of the last pair carrying key `k`, or -1 if no pair does.
pub open spec fn last_key_index(env: Seq<(Seq<char>, Seq<char>)>, k: Seq<char>) -> int
    decreases env.len(),
{
    if env.len() == 0 {
        -1
    } else if env.last().0 == k {
        env.len() - 1
    } else {
        last_key_index(env.drop_last(), k)
    }
}

pub open spec fn has_key(env: Seq<(Seq<char>, Seq<char>)>, k: Seq<char>) -> bool {
    last_key_index(env, k) >= 0
}

/// No two pairs share a key.
pub open spec fn unique_keys(env: Seq<(Seq<char>, Seq<char>)>) -> bool {
    forall|i: int, j: int| 0 <= i < j < env.len() ==> env[i].0 != env[j].0
}

/// Inserting a pair into an environment: overwrite the entry that already
/// carries the key, in place, or append the pair at the end.
pub open spec fn upsert(env: Seq<(Seq<char>, Seq<char>)>, p: (Seq<char>, Seq<char>)) -> Seq<
    (Seq<char>, Seq<char>),
> {
    if has_key(env, p.0) {
        env.update(last_key_index(env, p.0), p)
    } else {
        env.push(p)
    }
}

/// The environment after merging the first `i` pairs, in order.
pub open spec fn merge_upto(pairs: Seq<(Seq<char>, Seq<char>)>, i: int) -> Seq<
    (Seq<char>, Seq<char>),
>
    decreases i
        when 0 <= i <= pairs.len()
{
    if i <= 0 {
        Seq::empty()
    } else {
        upsert(merge_upto(pairs, i - 1), pairs[i - 1])
    }
}

/// The resolved environment: all pairs merged in line order, so a later pair
/// silently shadows an earlier one with the same key.
pub open spec fn merge_env(pairs: Seq<(Seq<char>, Seq<char>)>) -> Seq<(Seq<char>, Seq<char>)> {
    merge_upto(pairs, pairs.len() as int)
}

/// The key/value mapping a pair sequence denotes, with a later pair
/// overriding an earlier one.
pub open spec fn env_map(pairs: Seq<(Seq<char>, Seq<char>)>) -> Map<Seq<char>, Seq<char>>
    decreases pairs.len(),
{
    if pairs.len() == 0 {
        Map::empty()
    } else {
        env_map(pairs.drop_last()).insert(pairs.last().0, pairs.last().1)
    }
}

pub proof fn lemma_last_key_index_bounds(env: Seq<(Seq<char>, Seq<char>)>, k: Seq<char>)
    ensures
        -1 <= last_key_index(env, k) < env.len(),
        last_key_index(env, k) >= 0 ==> env[last_key_index(env, k)].0 == k,
        has_key(env, k) <==> exists|i: int| 0 <= i < env.len() && env[i].0 == k,
    decreases env.len(),
{
    if env.len() > 0 {
        if env.last().0 == k {
            assert(env[env.len() - 1].0 == k);
        } else {
            lemma_last_key_index_bounds(env.drop_last(), k);
            assert(forall|i: int|
                0 <= i < env.len() - 1 ==> env[i] == #[trigger] env.drop_last()[i]);
            if exists|i: int| 0 <= i < env.len() && (#[trigger] env[i]).0 == k {
                let i = choose|i: int| 0 <= i < env.len() && (#[trigger] env[i]).0 == k;
                assert(env.drop_last()[i] == env[i]);
            }
        }
    }
}

/// With unique keys, any pair holding `k` stands at `last_key_index`.
proof fn lemma_unique_key_index(env: Seq<(Seq<char>, Seq<char>)>, k: Seq<char>, i: int)
    requires
        unique_keys(env),
        0 <= i < env.len(),
        env[i].0 == k,
    ensures
        last_key_index(env, k) == i,
    decreases env.len(),
{
    if env.last().0 == k {
        assert(i == env.len() - 1);
    } else {
        assert(env.drop_last()[i] == env[i]);
        assert(unique_keys(env.drop_last())) by {
            assert(forall|s: int, t: int|
                0 <= s < t < env.len() - 1 ==> #[trigger] env.drop_last()[s] == env[s]
                    && #[trigger] env.drop_last()[t] == env[t]);
        }
        lemma_unique_key_index(env.drop_last(), k, i);
    }
}

/// How `env_map` answers lookups: a key is present exactly when some pair
/// carries it, and its value is that of the last such pair.
pub proof fn lemma_env_map_lookup(env: Seq<(Seq<char>, Seq<char>)>, k: Seq<char>)
    ensures
        env_map(env).dom().contains(k) <==> has_key(env, k),
        has_key(env, k) ==> env_map(env)[k] == env[last_key_index(env, k)].1,
    decreases env.len(),
{
    if env.len() > 0 {
        lemma_env_map_lookup(env.drop_last(), k);
        lemma_last_key_index_bounds(env.drop_last(), k);
        assert(forall|i: int|
            0 <= i < env.len() - 1 ==> #[trigger] env.drop_last()[i] == env[i]);
    }
}

/// Upserting into a unique-keyed environment keeps the keys unique and
/// changes the denoted mapping exactly as a map insert does.
proof fn lemma_upsert(env: Seq<(Seq<char>, Seq<char>)>, p: (Seq<char>, Seq<char>))
    requires
        unique_keys(env),
    ensures
        unique_keys(upsert(env, p)),
        env_map(upsert(env, p)) =~= env_map(env).insert(p.0, p.1),
        upsert(env, p).len() == if has_key(env, p.0) {
            env.len() as int
        } else {
            env.len() + 1 as int
        },
    decreases env.len(),
{
    lemma_last_key_index_bounds(env, p.0);
    if !has_key(env, p.0) {
        assert(env_map(env.push(p)) =~= env_map(env).insert(p.0, p.1)) by {
            assert(env.push(p).drop_last() =~= env);
        }
        assert(forall|i: int| 0 <= i < env.len() ==> (#[trigger] env[i]).0 != p.0);
        assert(forall|i: int| 0 <= i < env.len() ==> #[trigger] env.push(p)[i] == env[i]);
        assert(env.push(p)[env.len() as int] == p);
    } else {
        let ix = last_key_index(env, p.0);
        let env2 = env.update(ix, p);
        if ix == env.len() - 1 {
            assert(env2.drop_last() =~= env.drop_last());
            assert(env2.last() == p);
            assert(env_map(env2) =~= env_map(env).insert(p.0, p.1));
            assert(unique_keys(env2)) by {
                assert(forall|i: int| 0 <= i < env.len() - 1 ==> #[trigger] env2[i] == env[i]);
            }
        } else {
            assert(env.last().0 != p.0) by {
                lemma_unique_key_index(env, p.0, ix);
            }
            assert(unique_keys(env.drop_last())) by {
                assert(forall|s: int, t: int|
                    0 <= s < t < env.len() - 1 ==> #[trigger] env.drop_last()[s] == env[s]
                        && #[trigger] env.drop_last()[t] == env[t]);
            }
            assert(last_key_index(env.drop_last(), p.0) == ix);
            assert(has_key(env.drop_last(), p.0)) by {
                lemma_last_key_index_bounds(env.drop_last(), p.0);
            }
            lemma_upsert(env.drop_last(), p);
            assert(env2.drop_last() =~= env.drop_last().update(ix, p));
            assert(env2.last() == env.last());
            assert(env_map(env2) == env_map(env.drop_last().update(ix, p)).insert(
                env.last().0,
                env.last().1,
            ));
            assert(env_map(env2) =~= env_map(env).insert(p.0, p.1));
            assert(unique_keys(env2)) by {
                assert(forall|i: int|
                    0 <= i < env.len() ==> (#[trigger] env2[i].0) == if i == ix {
                        p.0
                    } else {
                        env[i].0
                    });
            }
        }
    }
}

/// Merging keeps keys unique and denotes exactly the last-wins mapping of
/// the pairs merged so far.
proof fn lemma_merge_upto(pairs: Seq<(Seq<char>, Seq<char>)>, i: int)
    requires
        0 <= i <= pairs.len(),
    ensures
        unique_keys(merge_upto(pairs, i)),
        env_map(merge_upto(pairs, i)) =~= env_map(pairs.take(i)),
        merge_upto(pairs, i).len() <= i,
    decreases i,
{
    if i == 0 {
        assert(pairs.take(0) =~= Seq::<(Seq<char>, Seq<char>)>::empty());
    } else {
        lemma_merge_upto(pairs, i - 1);
        let m = merge_upto(pairs, i - 1);
        let p = pairs[i - 1];
        lemma_upsert(m, p);
        assert(pairs.take(i).drop_last() =~= pairs.take(i - 1));
        assert(pairs.take(i).last() == p);
        assert(env_map(pairs.take(i)) == env_map(pairs.take(i - 1)).insert(p.0, p.1));
    }
}

/// The law of the merge: the resolved environment has unique keys and denotes
/// the last-wins mapping of the contributed pairs, taken in line order.
pub proof fn lemma_merge_last_wins(pairs: Seq<(Seq<char>, Seq<char>)>)
    ensures
        unique_keys(merge_env(pairs)),
        env_map(merge_env(pairs)) =~= env_map(pairs),
        merge_env(pairs).len() <= pairs.len(),
{
    lemma_merge_upto(pairs, pairs.len() as int);
    assert(pairs.take(pairs.len() as int) =~= pairs);
}

/// Merges key/value pairs into an environment, in order: a pair whose key is
/// already present overwrites that entry in place, any other pair is
/// appended. So for a duplicate key the last pair wins.
pub fn merge_pairs(pairs: &Vec<(String, String)>) -> (r: Vec<(String, String)>)
    ensures
        r.deep_view() == merge_env(pairs.deep_view()),
        unique_keys(r.deep_view()),
{
    let ghost gpairs = pairs.deep_view();
    let mut merged: Vec<(String, String)> = Vec::new();
    proof {
        assert(merged.deep_view() =~= merge_upto(gpairs, 0));
    }
    let mut i: usize = 0;
    while i < pairs.len()
        invariant
            0 <= i <= pairs@.len(),
            gpairs == pairs.deep_view(),
            gpairs.len() == pairs@.len(),
            merged.deep_view() == merge_upto(gpairs, i as int),
            unique_keys(merged.deep_view()),
        decreases pairs@.len() - i,
    {
        let ghost old_merged = merged.deep_view();
        let ghost p = gpairs[i as int];
        let mut j: usize = 0;
        while j < merged.len() && !(merged[j].0 == pairs[i].0)
            invariant
                0 <= j <= merged@.len(),
                gpairs == pairs.deep_view(),
                gpairs.len() == pairs@.len(),
                0 <= i < pairs@.len(),
                p == gpairs[i as int],
                old_merged == merged.deep_view(),
                forall|t: int| 0 <= t < j ==> (#[trigger] old_merged[t]).0 != p.0,
            decreases merged@.len() - j,
        {
            j = j + 1;
        }
        proof {
            lemma_last_key_index_bounds(old_merged, p.0);
        }
        if j < merged.len() {
            proof {
                lemma_unique_key_index(old_merged, p.0, j as int);
                lemma_upsert(old_merged, p);
            }
            merged.set(j, (pairs[i].0.clone(), pairs[i].1.clone()));
            proof {
                assert(merged.deep_view() =~= old_merged.update(j as int, p));
            }
        } else {
            proof {
                lemma_upsert(old_merged, p);
            }
            merged.push((pairs[i].0.clone(), pairs[i].1.clone()));
            proof {
                assert(merged.deep_view() =~= old_merged.push(p));
            }
        }
        i = i + 1;
    }
    merged
}

/// Turns classified directives and their lookup outcomes into the resolved
/// environment and the warnings, merging in line order. A directive whose
/// lookup missed contributes no pair and one warning.
pub fn merge_directives(directives: &Vec<EnvLine>, lookups: &Vec<Option<String>>) -> (r: (
    Vec<(String, String)>,
    Vec<Warning>,
))
    requires
        directives@.len() == lookups@.len(),
    ensures
        r.0.deep_view() == merge_env(surviving_pairs(views_of(directives@), lookups.deep_view())),
        unique_keys(r.0.deep_view()),
        r.1.deep_view() == lookup_warnings(views_of(directives@), lookups.deep_view()),
{
    let ghost ds = views_of(directives@);
    let ghost ls = lookups.deep_view();
    let mut pairs: Vec<(String, String)> = Vec::new();
    let mut warnings: Vec<Warning> = Vec::new();
    proof {
        assert(pairs.deep_view() =~= pairs_upto(ds, ls, 0));
        assert(warnings.deep_view() =~= warnings_upto(ds, ls, 0));
    }
    let mut i: usize = 0;
    while i < directives.len()
        invariant
            0 <= i <= directives@.len(),
            directives@.len() == lookups@.len(),
            ds == views_of(directives@),
            ls == lookups.deep_view(),
            ds.len() == directives@.len(),
            ls.len() == lookups@.len(),
            pairs.deep_view() == pairs_upto(ds, ls, i as int),
            warnings.deep_view() == warnings_upto(ds, ls, i as int),
        decreases directives@.len() - i,
    {
        let ghost old_pairs = pairs.deep_view();
        let ghost old_warnings = warnings.deep_view();
        proof {
            assert(ds[i as int] == directives@[i as int]@);
            assert(ls[i as int] == lookups@[i as int].deep_view());
        }
        match &directives[i] {
            EnvLine::Comment => {},
            EnvLine::Direct { key, value } => {
                pairs.push((key.clone(), value.clone()));
            },
            EnvLine::Alias { key, keyring_key } => {
                match &lookups[i] {
                    Some(v) => {
                        pairs.push((key.clone(), v.clone()));
                    },
                    None => {
                        warnings.push(
                            Warning { key: key.clone(), keyring_key: keyring_key.clone() },
                        );
                    },
                }
            },
            EnvLine::Lookup { key } => {
                match &lookups[i] {
                    Some(v) => {
                        pairs.push((key.clone(), v.clone()));
                    },
                    None => {
                        warnings.push(Warning { key: key.clone(), keyring_key: key.clone() });
                    },
                }
            },
        }
        proof {
            assert(pairs.deep_view() =~= pairs_upto(ds, ls, i as int + 1));
            assert(warnings.deep_view() =~= warnings_upto(ds, ls, i as int + 1));
        }
        i = i + 1;
    }
    let merged = merge_pairs(&pairs);
    (merged, warnings)
}

proof fn lemma_warnings_upto_contains(
    ds: Seq<LineShape>,
    ls: Seq<Option<Seq<char>>>,
    i: int,
    n: int,
)
    requires
        ls.len() == ds.len(),
        0 <= i < n <= ds.len(),
        needs_lookup(ds[i]),
        ls[i] is None,
    ensures
        warnings_upto(ds, ls, n).contains((directive_key(ds[i]), lookup_name(ds[i]))),
    decreases n,
{
    let p = (directive_key(ds[i]), lookup_name(ds[i]));
    if n == i + 1 {
        let rest = warnings_upto(ds, ls, i);
        assert(warnings_upto(ds, ls, n) == rest.push(p));
        assert(rest.push(p)[rest.len() as int] == p);
    } else {
        lemma_warnings_upto_contains(ds, ls, i, n - 1);
        let rest = warnings_upto(ds, ls, n - 1);
        let k = choose|k: int| 0 <= k < rest.len() && rest[k] == p;
        assert(forall|q: (Seq<char>, Seq<char>)| rest.push(q)[k] == rest[k]);
    }
}

/// Partial failure stays per key: a directive whose store lookup missed puts
/// one warning in the list, naming the dropped key and the store name
/// attempted; the resolution of the other directives is unaffected.
pub proof fn lemma_missed_lookup_warns(ds: Seq<LineShape>, ls: Seq<Option<Seq<char>>>, i: int)
    requires
        ls.len() == ds.len(),
        0 <= i < ds.len(),
        needs_lookup(ds[i]),
        ls[i] is None,
    ensures
        lookup_warnings(ds, ls).contains((directive_key(ds[i]), lookup_name(ds[i]))),
{
    lemma_warnings_upto_contains(ds, ls, i, ds.len() as int);
}

proof fn lemma_pairs_upto_contains(ds: Seq<LineShape>, ls: Seq<Option<Seq<char>>>, i: int, n: int)
    requires
        ls.len() == ds.len(),
        0 <= i < n <= ds.len(),
        ds[i] is Direct || (needs_lookup(ds[i]) && ls[i] is Some),
    ensures
        pairs_upto(ds, ls, n).contains((directive_key(ds[i]), contributed_value(ds[i], ls[i]))),
    decreases n,
{
    let p = (directive_key(ds[i]), contributed_value(ds[i], ls[i]));
    if n == i + 1 {
        let rest = pairs_upto(ds, ls, i);
        assert(pairs_upto(ds, ls, n) == rest.push(p));
        assert(rest.push(p)[rest.len() as int] == p);
    } else {
        lemma_pairs_upto_contains(ds, ls, i, n - 1);
        let rest = pairs_upto(ds, ls, n - 1);
        let k = choose|k: int| 0 <= k < rest.len() && rest[k] == p;
        assert(forall|q: (Seq<char>, Seq<char>)| rest.push(q)[k] == rest[k]);
    }
}

/// Every directive that resolves contributes its pair: a direct assignment
/// always, an alias or lookup when its store lookup succeeded.
pub proof fn lemma_resolved_directive_contributes(
    ds: Seq<LineShape>,
    ls: Seq<Option<Seq<char>>>,
    i: int,
)
    requires
        ls.len() == ds.len(),
        0 <= i < ds.len(),
        ds[i] is Direct || (needs_lookup(ds[i]) && ls[i] is Some),
    ensures
        surviving_pairs(ds, ls).contains(
            (directive_key(ds[i]), contributed_value(ds[i], ls[i])),
        ),
{
    lemma_pairs_upto_contains(ds, ls, i, ds.len() as int);
}

/// The partial-failure policy on the smallest file that shows it: one alias
/// whose store lookup missed beside one direct assignment. The resolved
/// environment holds exactly the direct pair — the alias key, being distinct,
/// is absent — and exactly one warning names the dropped key and the store
/// name attempted; resolution itself reports no failure. (With equal keys the
/// direct pair still stands alone in the environment, but the missed key is
/// then the direct key and not absent.)
pub proof fn lemma_partial_failure(k1: Seq<char>, t: Seq<char>, k2: Seq<char>, v2: Seq<char>)
    requires
        k1 != k2,
    ensures
        ({
            let ds = seq![
                LineShape::Alias { key: k1, keyring_key: t },
                LineShape::Direct { key: k2, value: v2 },
            ];
            let ls = seq![None::<Seq<char>>, None::<Seq<char>>];
            &&& merge_env(surviving_pairs(ds, ls)) =~= seq![(k2, v2)]
            &&& !has_key(merge_env(surviving_pairs(ds, ls)), k1)
            &&& lookup_warnings(ds, ls) =~= seq![(k1, t)]
        }),
{
    let ds = seq![
        LineShape::Alias { key: k1, keyring_key: t },
        LineShape::Direct { key: k2, value: v2 },
    ];
    let ls = seq![None::<Seq<char>>, None::<Seq<char>>];
    assert(pairs_upto(ds, ls, 0) =~= Seq::<(Seq<char>, Seq<char>)>::empty());
    assert(pairs_upto(ds, ls, 1) =~= Seq::<(Seq<char>, Seq<char>)>::empty());
    assert(surviving_pairs(ds, ls) =~= seq![(k2, v2)]);
    assert(merge_upto(surviving_pairs(ds, ls), 0) =~= Seq::<(Seq<char>, Seq<char>)>::empty());
    assert(merge_env(surviving_pairs(ds, ls)) =~= seq![(k2, v2)]);
    assert(last_key_index(Seq::<(Seq<char>, Seq<char>)>::empty(), k1) == -1);
    assert(seq![(k2, v2)].drop_last() =~= Seq::<(Seq<char>, Seq<char>)>::empty());
    assert(last_key_index(seq![(k2, v2)], k1) == -1);
    assert(!has_key(merge_env(surviving_pairs(ds, ls)), k1));
    assert(warnings_upto(ds, ls, 0) =~= Seq::<(Seq<char>, Seq<char>)>::empty());
    assert(warnings_upto(ds, ls, 1) =~= seq![(k1, t)]);
    assert(lookup_warnings(ds, ls) =~= seq![(k1, t)]);
}

/// Performs the one store lookup each alias or lookup directive asks for,
/// keeping the outcomes in line order: slot `i` holds the value resolved for
/// directive `i`, and nothing for a comment, a direct assignment or a failed
/// lookup.
pub fn lookup_directives(directives: &Vec<EnvLine>) -> (r: Vec<Option<String>>)
    ensures
        r@.len() == directives@.len(),
        lookups_consistent(views_of(directives@), r.deep_view()),
{
    let mut out: Vec<Option<String>> = Vec::new();
    let mut i: usize = 0;
    while i < directives.len()
        invariant
            0 <= i <= directives@.len(),
            out@.len() == i,
            forall|t: int|
                0 <= t < i && !needs_lookup(#[trigger] views_of(directives@)[t])
                    ==> out.deep_view()[t] is None,
        decreases directives@.len() - i,
    {
        let ghost old_out = out.deep_view();
        match &directives[i] {
            EnvLine::Alias { keyring_key, .. } => {
                match get_secret_from_keyring(keyring_key.as_str()) {
                    Ok(v) => out.push(Some(v)),
                    Err(_) => out.push(None),
                }
            },
            EnvLine::Lookup { key } => {
                match get_secret_from_keyring(key.as_str()) {
                    Ok(v) => out.push(Some(v)),
                    Err(_) => out.push(None),
                }
            },
            _ => out.push(None),
        }
        proof {
            assert(forall|t: int| 0 <= t < i ==> out.deep_view()[t] == old_out[t]);
            assert(views_of(directives@)[i as int] == directives@[i as int]@);
        }
        i = i + 1;
    }
    out
}

/// The resolution pipeline after the file has been read and classified: one
/// store lookup per alias or lookup directive, then the last-wins merge in
/// line order. Whatever the store returned, the result is the deterministic
/// merge of the directives' contributions under those outcomes, with one
/// warning for each directive whose lookup missed.
pub fn resolve_directives(directives: &Vec<EnvLine>) -> (r: (Vec<(String, String)>, Vec<Warning>))
    ensures
        unique_keys(r.0.deep_view()),
        exists|ls: Seq<Option<Seq<char>>>|
            {
                &&& lookups_consistent(views_of(directives@), ls)
                &&& r.0.deep_view() == merge_env(surviving_pairs(views_of(directives@), ls))
                &&& r.1.deep_view() == lookup_warnings(views_of(directives@), ls)
            },
{
    let lookups = lookup_directives(directives);
    let r = merge_directives(directives, &lookups);
    proof {
        let ls = lookups.deep_view();
        assert({
            &&& lookups_consistent(views_of(directives@), ls)
            &&& r.0.deep_view() == merge_env(surviving_pairs(views_of(directives@), ls))
            &&& r.1.deep_view() == lookup_warnings(views_of(directives@), ls)
        });
    }
    r
}

/// Every line of a file, classified.
pub open spec fn classified(lines: Seq<Seq<char>>) -> Seq<LineShape> {
    lines.map_values(|l: Seq<char>| classify(l))
}

/// The whole pipeline after the file read: classify every line, resolve each
/// alias and lookup against the store, and merge last-wins in line order.
pub fn resolve_env_lines(lines: &Vec<String>) -> (r: (Vec<(String, String)>, Vec<Warning>))
    ensures
        unique_keys(r.0.deep_view()),
        exists|ls: Seq<Option<Seq<char>>>|
            {
                &&& lookups_consistent(classified(lines.deep_view()), ls)
                &&& r.0.deep_view() == merge_env(surviving_pairs(classified(lines.deep_view()), ls))
                &&& r.1.deep_view() == lookup_warnings(classified(lines.deep_view()), ls)
            },
{
    let directives = classify_lines(lines);
    proof {
        assert(views_of(directives@) =~= classified(lines.deep_view()));
    }
    resolve_directives(&directives)
}

/// Last write wins: if pair `i` carries key `k` and no later pair does, the
/// final mapping sends `k` to pair `i`'s value, whatever stood before.
pub proof fn lemma_last_write_wins(pairs: Seq<(Seq<char>, Seq<char>)>, i: int)
    requires
        0 <= i < pairs.len(),
        forall|j: int| i < j < pairs.len() ==> pairs[j].0 != pairs[i].0,
    ensures
        env_map(pairs).dom().contains(pairs[i].0),
        env_map(pairs)[pairs[i].0] == pairs[i].1,
    decreases pairs.len(),
{
    if i == pairs.len() - 1 {
    } else {
        assert(forall|j: int|
            0 <= j < pairs.len() - 1 ==> #[trigger] pairs.drop_last()[j] == pairs[j]);
        lemma_last_write_wins(pairs.drop_last(), i);
    }
}

} // verus!

