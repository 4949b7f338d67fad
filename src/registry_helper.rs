//! A snapshot of the environment variable store and the `%NAME%` resolver over it.
use vstd::prelude::*;
use vstd::set_lib::set_int_range;
use crate::variable::{
    is_name_char, token_free, token_free_from, lemma_names_match_symmetric, lemma_names_match_transitive, names_match, name_run_end, same_name, token_at, token_end, token_name};

verus! {

/// Why a variable could not be read or a value could not be produced.
#[derive(Debug, Clone, Copy, PartialEq, Eq, Structural)]
pub enum EnvError {
    /// The requested variable, JDK or launcher does not exist.
    NotFound,
    /// A chain of references runs into itself and never bottoms out.
    CyclicReference,
    /// The filesystem or the persistent store failed.
    IoFailure,
    /// The "locate java" probe failed or produced unreadable output.
    ProbeFailure,
}

/// The value stored under the first entry whose name matches `name` up to ASCII case.
pub open spec fn lookup(entries: Seq<(Seq<char>, Seq<char>)>, name: Seq<char>) -> Option<Seq<char>>
    decreases entries.len(),
{
    if entries.len() == 0 {
        None
    } else if names_match(entries[0].0, name) {
        Some(entries[0].1)
    } else {
        lookup(entries.drop_first(), name)
    }
}

/// The raw value of `name`: its stored value, or the name itself where the store has none.
pub open spec fn raw_value(entries: Seq<(Seq<char>, Seq<char>)>, name: Seq<char>) -> Seq<char> {
    match lookup(entries, name) {
        Some(v) => v,
        None => name,
    }
}

/// Prepends `a` to a result that may be missing.
pub open spec fn prepend(a: Seq<char>, r: Option<Seq<char>>) -> Option<Seq<char>> {
    match r {
        Some(t) => Some(a + t),
        None => None,
    }
}

/// The value of `name` with every reference expanded, following chains at most `depth` deep.
pub open spec fn resolved(entries: Seq<(Seq<char>, Seq<char>)>, name: Seq<char>, depth: nat) -> Option<
    Seq<char>,
>
    decreases depth, 0nat, 0nat,
{
    if depth == 0 {
        None
    } else {
        expand_from(entries, raw_value(entries, name), 0, (depth - 1) as nat)
    }
}

/// How deep resolution follows references in a store: deep enough for any chain that does
/// not run into itself, since such a chain passes each stored name at most once and ends at
/// a name that stands for itself.
pub open spec fn resolve_depth(entries: Seq<(Seq<char>, Seq<char>)>) -> nat {
    entries.len() + 2
}

/// `s` from index `i` on, each reference token replaced by the resolved value of its name.
pub open spec fn expand_from(
    entries: Seq<(Seq<char>, Seq<char>)>,
    s: Seq<char>,
    i: int,
    depth: nat,
) -> Option<Seq<char>>
    decreases depth, 1nat, (if i < s.len() { s.len() - i } else { 0 }) as nat,
{
    if i < 0 || i >= s.len() {
        Some(Seq::empty())
    } else if token_at(s, i) {
        match resolved(entries, token_name(s, i), depth) {
            Some(v) => prepend(v, expand_from(entries, s, name_run_end(s, i + 1) + 1, depth)),
            None => None,
        }
    } else {
        prepend(seq![s[i]], expand_from(entries, s, i + 1, depth))
    }
}

proof fn lemma_lookup_update(
    s: Seq<(Seq<char>, Seq<char>)>,
    k: int,
    v: Seq<char>,
    n: Seq<char>,
)
    requires
        0 <= k < s.len(),
    ensures
        !names_match(s[k].0, n) ==> lookup(s.update(k, (s[k].0, v)), n) == lookup(s, n),
        names_match(s[k].0, n) && (forall|j: int| 0 <= j < k ==> !names_match(#[trigger] s[j].0, n))
            ==> lookup(s.update(k, (s[k].0, v)), n) == Some(v),
    decreases s.len(),
{
    let t = s.update(k, (s[k].0, v));
    if k == 0 {
        assert(t.drop_first() =~= s.drop_first());
    } else {
        assert(t[0] == s[0]);
        assert(t.drop_first() =~= s.drop_first().update(k - 1, (s[k].0, v)));
        lemma_lookup_update(s.drop_first(), k - 1, v, n);
        if names_match(s[k].0, n) && (forall|j: int| 0 <= j < k ==> !names_match(#[trigger] s[j].0, n)) {
            assert(!names_match(s[0].0, n));
            assert forall|j: int| 0 <= j < k - 1 implies !names_match(#[trigger] s.drop_first()[j].0, n) by {
                assert(!names_match(s[j + 1].0, n));
            }
        }
    }
}

proof fn lemma_lookup_push(s: Seq<(Seq<char>, Seq<char>)>, e: (Seq<char>, Seq<char>), n: Seq<char>)
    ensures
        lookup(s.push(e), n) == (match lookup(s, n) {
            Some(v) => Some(v),
            None => if names_match(e.0, n) {
                Some(e.1)
            } else {
                None
            },
        }),
    decreases s.len(),
{
    if s.len() > 0 {
        assert(s.push(e)[0] == s[0]);
        assert(s.push(e).drop_first() =~= s.drop_first().push(e));
        lemma_lookup_push(s.drop_first(), e, n);
    } else {
        assert(s.push(e)[0] == e);
        assert(s.push(e).drop_first() =~= Seq::<(Seq<char>, Seq<char>)>::empty());
        assert(lookup(Seq::<(Seq<char>, Seq<char>)>::empty(), n) is None);
    }
}

proof fn lemma_lookup_found_matches(s: Seq<(Seq<char>, Seq<char>)>, n: Seq<char>)
    requires
        lookup(s, n) is Some,
    ensures
        exists|j: int| 0 <= j < s.len() && names_match(s[j].0, n),
    decreases s.len(),
{
    if !names_match(s[0].0, n) {
        lemma_lookup_found_matches(s.drop_first(), n);
        let j = choose|j: int| 0 <= j < s.drop_first().len() && names_match(s.drop_first()[j].0, n);
        assert(names_match(s[j + 1].0, n));
    }
}

proof fn lemma_lookup_none_no_match(s: Seq<(Seq<char>, Seq<char>)>, n: Seq<char>, j: int)
    requires
        lookup(s, n) is None,
        0 <= j < s.len(),
    ensures
        !names_match(s[j].0, n),
    decreases s.len(),
{
    if j > 0 {
        lemma_lookup_none_no_match(s.drop_first(), n, j - 1);
    }
}

proof fn lemma_expand_token_free(entries: Seq<(Seq<char>, Seq<char>)>, s: Seq<char>, i: int, depth: nat)
    requires
        0 <= i <= s.len(),
        token_free_from(s, i),
    ensures
        expand_from(entries, s, i, depth) == Some(s.subrange(i, s.len() as int)),
    decreases s.len() - i,
{
    if i < s.len() {
        lemma_expand_token_free(entries, s, i + 1, depth);
        assert(seq![s[i]] + s.subrange(i + 1, s.len() as int) =~= s.subrange(i, s.len() as int));
    } else {
        assert(s.subrange(i, s.len() as int) =~= Seq::<char>::empty());
    }
}

proof fn lemma_run_end_exact(s: Seq<char>, k: int, e: int)
    requires
        0 <= k <= e <= s.len(),
        forall|j: int| k <= j < e ==> is_name_char(#[trigger] s[j]),
        e == s.len() || !is_name_char(s[e]),
    ensures
        name_run_end(s, k) == e,
    decreases e - k,
{
    if k < e {
        lemma_run_end_exact(s, k + 1, e);
    }
}

/// A value without references resolves to itself: resolving a name whose raw value (its
/// stored value, or the name itself where none is stored) holds no `%NAME%` token gives that
/// raw value unchanged.
pub proof fn lemma_resolve_token_free(entries: Seq<(Seq<char>, Seq<char>)>, name: Seq<char>)
    requires
        token_free(raw_value(entries, name)),
    ensures
        value_of(entries, name, true) == Ok::<Seq<char>, EnvError>(raw_value(entries, name)),
{
    let raw = raw_value(entries, name);
    lemma_expand_token_free(entries, raw, 0, (resolve_depth(entries) - 1) as nat);
    assert(raw.subrange(0, raw.len() as int) =~= raw);
}

/// A reference to a variable the store lacks stands for the variable's own name: where
/// `name` holds exactly `%missing%` and `missing` is not stored, resolving `name` gives
/// `missing`.
pub proof fn lemma_missing_reference_falls_back(
    entries: Seq<(Seq<char>, Seq<char>)>,
    name: Seq<char>,
    missing: Seq<char>,
)
    requires
        missing.len() > 0,
        forall|j: int| 0 <= j < missing.len() ==> is_name_char(#[trigger] missing[j]),
        lookup(entries, name) == Some(seq!['%'] + missing + seq!['%']),
        lookup(entries, missing) is None,
    ensures
        value_of(entries, name, true) == Ok::<Seq<char>, EnvError>(missing),
{
    let s = seq!['%'] + missing + seq!['%'];
    let e: int = missing.len() as int + 1;
    assert forall|j: int| 1 <= j < e implies is_name_char(#[trigger] s[j]) by {
        assert(s[j] == missing[j - 1]);
    }
    lemma_run_end_exact(s, 1, e);
    assert(token_at(s, 0));
    assert(token_name(s, 0) =~= missing);
    let d = (resolve_depth(entries) - 1) as nat;
    assert forall|k: int| 0 <= k < missing.len() implies !token_at(missing, k) by {
        assert(is_name_char(missing[k]));
    }
    lemma_expand_token_free(entries, missing, 0, (d - 1) as nat);
    assert(missing.subrange(0, missing.len() as int) =~= missing);
    assert(resolved(entries, missing, d) == Some(missing));
    assert(expand_from(entries, s, e + 1, d) == Some(Seq::<char>::empty()));
    assert(missing + Seq::<char>::empty() =~= missing);
}

/// A result found at some depth stays the same at every greater depth.
pub proof fn lemma_resolved_monotone(
    entries: Seq<(Seq<char>, Seq<char>)>,
    name: Seq<char>,
    d1: nat,
    d2: nat,
)
    requires
        d1 <= d2,
        resolved(entries, name, d1) is Some,
    ensures
        resolved(entries, name, d2) == resolved(entries, name, d1),
    decreases d1, 0nat, 0nat,
{
    lemma_expand_monotone(entries, raw_value(entries, name), 0, (d1 - 1) as nat, (d2 - 1) as nat);
}

proof fn lemma_expand_monotone(
    entries: Seq<(Seq<char>, Seq<char>)>,
    s: Seq<char>,
    i: int,
    d1: nat,
    d2: nat,
)
    requires
        d1 <= d2,
        expand_from(entries, s, i, d1) is Some,
    ensures
        expand_from(entries, s, i, d2) == expand_from(entries, s, i, d1),
    decreases d1, 1nat, (if i < s.len() { s.len() - i } else { 0 }) as nat,
{
    if 0 <= i < s.len() {
        if token_at(s, i) {
            lemma_resolved_monotone(entries, token_name(s, i), d1, d2);
            lemma_expand_monotone(entries, s, name_run_end(s, i + 1) + 1, d1, d2);
        } else {
            lemma_expand_monotone(entries, s, i + 1, d1, d2);
        }
    }
}

/// `n` can stand inside a reference: one or more name characters.
pub open spec fn is_reference_name(n: Seq<char>) -> bool {
    n.len() > 0 && forall|j: int| 0 <= j < n.len() ==> is_name_char(#[trigger] n[j])
}

/// The stored value `%n%`.
pub open spec fn reference_to(n: Seq<char>) -> Seq<char> {
    seq!['%'] + n + seq!['%']
}

proof fn lemma_reference_expands(
    entries: Seq<(Seq<char>, Seq<char>)>,
    n: Seq<char>,
    d: nat,
    v: Seq<char>,
)
    requires
        is_reference_name(n),
        resolved(entries, n, d) == Some(v),
    ensures
        expand_from(entries, reference_to(n), 0, d) == Some(v),
{
    let s = reference_to(n);
    let e: int = n.len() as int + 1;
    assert forall|j: int| 1 <= j < e implies is_name_char(#[trigger] s[j]) by {
        assert(s[j] == n[j - 1]);
    }
    lemma_run_end_exact(s, 1, e);
    assert(token_at(s, 0));
    assert(token_name(s, 0) =~= n);
    assert(expand_from(entries, s, e + 1, d) == Some(Seq::<char>::empty()));
    assert(v + Seq::<char>::empty() =~= v);
}

proof fn lemma_chain_suffix_resolves(
    entries: Seq<(Seq<char>, Seq<char>)>,
    names: Seq<Seq<char>>,
    i: int,
    d: nat,
)
    requires
        names.len() >= 2,
        0 <= i < names.len(),
        d >= names.len() - i,
        forall|k: int| 1 <= k < names.len() ==> is_reference_name(#[trigger] names[k]),
        forall|k: int|
            0 <= k < names.len() - 1 ==> lookup(entries, #[trigger] names[k]) == Some(
                reference_to(names[k + 1]),
            ),
        lookup(entries, names.last()) is None,
    ensures
        resolved(entries, names[i], d) == Some(names.last()),
    decreases names.len() - i,
{
    if i == names.len() - 1 {
        let n = names.last();
        assert(is_reference_name(names[i]));
        assert forall|k: int| 0 <= k < n.len() implies !token_at(n, k) by {
            assert(is_name_char(n[k]));
        }
        lemma_expand_token_free(entries, n, 0, (d - 1) as nat);
        assert(n.subrange(0, n.len() as int) =~= n);
    } else {
        lemma_chain_suffix_resolves(entries, names, i + 1, (d - 1) as nat);
        assert(is_reference_name(names[i + 1]));
        lemma_reference_expands(entries, names[i + 1], (d - 1) as nat, names.last());
    }
}

/// The entry that a stored name is read from.
spec fn entry_index(entries: Seq<(Seq<char>, Seq<char>)>, n: Seq<char>) -> int {
    choose|j: int| 0 <= j < entries.len() && names_match(entries[j].0, n)
}

proof fn lemma_distinct_stored_names_fit(entries: Seq<(Seq<char>, Seq<char>)>, names: Seq<Seq<char>>, m: int)
    requires
        0 <= m <= names.len(),
        forall|k: int| 0 <= k < m ==> lookup(entries, #[trigger] names[k]) is Some,
        forall|a: int, b: int|
            0 <= a < b < m ==> !names_match(#[trigger] names[a], #[trigger] names[b]),
    ensures
        m <= entries.len(),
{
    let f = |k: int| entry_index(entries, names[k]);
    let x = set_int_range(0, m);
    let y = x.map(f);
    vstd::set_lib::lemma_int_range(0, m);
    vstd::set_lib::lemma_int_range(0, entries.len() as int);
    assert forall|k: int| 0 <= k < m implies 0 <= #[trigger] f(k) < entries.len() && names_match(
        entries[f(k)].0,
        names[k],
    ) by {
        lemma_lookup_found_matches(entries, names[k]);
    }
    assert(vstd::relations::injective_on(f, x)) by {
        assert forall|a: int, b: int| x.contains(a) && x.contains(b) && #[trigger] f(a) == #[trigger] f(
            b,
        ) implies a == b by {
            if a != b {
                let j = f(a);
                lemma_names_match_symmetric(entries[j].0, names[a]);
                lemma_names_match_transitive(names[a], entries[j].0, names[b]);
                lemma_names_match_symmetric(names[a], names[b]);
                if a < b {
                    assert(!names_match(names[a], names[b]));
                } else {
                    assert(!names_match(names[b], names[a]));
                }
            }
        }
    }
    vstd::set_lib::lemma_map_size(x, y, f);
    assert(y.subset_of(set_int_range(0, entries.len() as int)));
    vstd::set_lib::lemma_len_subset(y, set_int_range(0, entries.len() as int));
}

/// A chain of references that never comes back to a name resolves fully, however long it is:
/// where each of `names[0]`, `names[1]`, ... holds exactly `%next%` for the name after it, no
/// two of those stored names are the same up to case, and the last name is not stored,
/// resolving `names[0]` gives the last name.
pub proof fn lemma_reference_chain_resolves(entries: Seq<(Seq<char>, Seq<char>)>, names: Seq<Seq<char>>)
    requires
        names.len() >= 2,
        forall|k: int| 1 <= k < names.len() ==> is_reference_name(#[trigger] names[k]),
        forall|k: int|
            0 <= k < names.len() - 1 ==> lookup(entries, #[trigger] names[k]) == Some(
                reference_to(names[k + 1]),
            ),
        lookup(entries, names.last()) is None,
        forall|a: int, b: int|
            0 <= a < b < names.len() - 1 ==> !names_match(#[trigger] names[a], #[trigger] names[b]),
    ensures
        value_of(entries, names[0], true) == Ok::<Seq<char>, EnvError>(names.last()),
{
    lemma_distinct_stored_names_fit(entries, names, names.len() - 1);
    lemma_chain_suffix_resolves(entries, names, 0, resolve_depth(entries));
}

pub open spec fn opt_view(o: Option<String>) -> Option<Seq<char>> {
    match o {
        Some(s) => Some(s@),
        None => None,
    }
}

/// What reading `name` gives: the stored value, or with `recursive` the resolved one.
pub open spec fn value_of(entries: Seq<(Seq<char>, Seq<char>)>, name: Seq<char>, recursive: bool) -> Result<
    Seq<char>,
    EnvError,
> {
    if recursive {
        match resolved(entries, name, resolve_depth(entries)) {
            Some(v) => Ok(v),
            None => Err(EnvError::CyclicReference),
        }
    } else {
        match lookup(entries, name) {
            Some(v) => Ok(v),
            None => Err(EnvError::NotFound),
        }
    }
}

pub open spec fn result_view(r: Result<String, EnvError>) -> Result<Seq<char>, EnvError> {
    match r {
        Ok(s) => Ok(s@),
        Err(e) => Err(e),
    }
}

/// One memoised resolution: the result for `name` at a given remaining depth.
struct CacheEntry {
    name: String,
    depth: u128,
    value: Option<String>,
}

/// The state of one recursive read: each name's raw value as fetched from the store (once per
/// name), and the resolutions made so far.
struct Resolution {
    fetched: Vec<(String, String)>,
    results: Vec<CacheEntry>,
}

/// Read access to the machine's environment variables, held as a snapshot of name/value pairs.
pub struct RegistryHelper {
    entries: Vec<(String, String)>,
}

impl View for RegistryHelper {
    type V = Seq<(Seq<char>, Seq<char>)>;

    closed spec fn view(&self) -> Seq<(Seq<char>, Seq<char>)> {
        self.entries@.map_values(|e: (String, String)| (e.0@, e.1@))
    }
}

spec fn resolution_sound(entries: Seq<(Seq<char>, Seq<char>)>, r: Resolution) -> bool {
    &&& forall|k: int|
        0 <= k < r.fetched@.len() ==> (#[trigger] r.fetched@[k]).1@ == raw_value(
            entries,
            r.fetched@[k].0@,
        )
    &&& forall|k: int|
        0 <= k < r.results@.len() ==> opt_view(#[trigger] r.results@[k].value) == resolved(
            entries,
            r.results@[k].name@,
            r.results@[k].depth as nat,
        )
}

impl RegistryHelper {
    /// A store holding the given (name, value) pairs.
    pub fn wrap(entries: Vec<(String, String)>) -> (r: RegistryHelper)
        ensures
            r@ == entries@.map_values(|e: (String, String)| (e.0@, e.1@)),
    {
        RegistryHelper { entries }
    }

    fn find(&self, name: &str) -> (r: Option<usize>)
        ensures
            match r {
                Some(k) => k < self@.len() && lookup(self@, name@) == Some(self@[k as int].1)
                    && names_match(self@[k as int].0, name@) && forall|j: int|
                    0 <= j < k ==> !names_match(#[trigger] self@[j].0, name@),
                None => lookup(self@, name@) is None,
            },
    {
        let mut k: usize = 0;
        assert(self@.subrange(0, self@.len() as int) =~= self@);
        while k < self.entries.len()
            invariant
                k <= self@.len(),
                self@.len() == self.entries@.len(),
                lookup(self@, name@) == lookup(self@.subrange(k as int, self@.len() as int), name@),
                forall|j: int| 0 <= j < k ==> !names_match(#[trigger] self@[j].0, name@),
            decreases self.entries.len() - k,
        {
            let ghost rest = self@.subrange(k as int, self@.len() as int);
            assert(rest.drop_first() =~= self@.subrange(k + 1, self@.len() as int));
            if same_name(self.entries[k].0.as_str(), name) {
                return Some(k);
            }
            k += 1;
        }
        None
    }

    fn raw(&self, name: &str) -> (r: String)
        ensures
            r@ == raw_value(self@, name@),
    {
        match self.find(name) {
            Some(k) => self.entries[k].1.clone(),
            None => String::from_str(name),
        }
    }

    /// The raw value of `name`, read from the store only the first time this resolution asks.
    fn fetch(&self, name: &String, res: &mut Resolution) -> (r: String)
        requires
            resolution_sound(self@, *old(res)),
        ensures
            resolution_sound(self@, *final(res)),
            r@ == raw_value(self@, name@),
    {
        let mut k: usize = 0;
        while k < res.fetched.len()
            invariant
                resolution_sound(self@, *res),
                k <= res.fetched@.len(),
            decreases res.fetched.len() - k,
        {
            if res.fetched[k].0 == *name {
                assert(res.fetched@[k as int].1@ == raw_value(self@, name@));
                return res.fetched[k].1.clone();
            }
            k += 1;
        }
        let raw = self.raw(name.as_str());
        res.fetched.push((name.clone(), raw.clone()));
        proof {
            assert forall|k: int| 0 <= k < res.fetched@.len() implies (#[trigger] res.fetched@[k]).1@
                == raw_value(self@, res.fetched@[k].0@) by {
                if k < res.fetched@.len() - 1 {
                    assert(res.fetched@[k] == old(res).fetched@[k]);
                }
            }
        }
        raw
    }

    fn resolve_name(&self, name: &String, depth: u128, res: &mut Resolution) -> (r: Option<String>)
        requires
            resolution_sound(self@, *old(res)),
        ensures
            resolution_sound(self@, *final(res)),
            opt_view(r) == resolved(self@, name@, depth as nat),
        decreases depth, 0nat,
    {
        if depth == 0 {
            return None;
        }
        let mut k: usize = 0;
        while k < res.results.len()
            invariant
                resolution_sound(self@, *res),
                k <= res.results@.len(),
            decreases res.results.len() - k,
        {
            let entry = &res.results[k];
            if entry.name == *name {
                match &entry.value {
                    Some(v) => {
                        if entry.depth <= depth {
                            proof {
                                lemma_resolved_monotone(self@, name@, entry.depth as nat, depth as nat);
                            }
                            return Some(v.clone());
                        }
                    },
                    None => {
                        if entry.depth >= depth {
                            proof {
                                if resolved(self@, name@, depth as nat) is Some {
                                    lemma_resolved_monotone(
                                        self@,
                                        name@,
                                        depth as nat,
                                        entry.depth as nat,
                                    );
                                }
                            }
                            return None;
                        }
                    },
                }
            }
            k += 1;
        }
        let raw = self.fetch(name, res);
        let r = self.expand_value(raw.as_str(), depth - 1, res);
        let stored = match &r {
            Some(v) => Some(v.clone()),
            None => None,
        };
        res.results.push(CacheEntry { name: name.clone(), depth, value: stored });
        proof {
            assert forall|k: int| 0 <= k < res.results@.len() implies opt_view(
                #[trigger] res.results@[k].value,
            ) == resolved(self@, res.results@[k].name@, res.results@[k].depth as nat) by {}
        }
        r
    }

    fn expand_value(&self, s: &str, depth: u128, res: &mut Resolution) -> (r: Option<String>)
        requires
            resolution_sound(self@, *old(res)),
        ensures
            resolution_sound(self@, *final(res)),
            opt_view(r) == expand_from(self@, s@, 0, depth as nat),
        decreases depth, 1nat,
    {
        let n = s.unicode_len();
        let mut out = String::new();
        let mut i: usize = 0;
        while i < n
            invariant
                n == s@.len(),
                i <= n,
                resolution_sound(self@, *res),
                expand_from(self@, s@, 0, depth as nat) == prepend(
                    out@,
                    expand_from(self@, s@, i as int, depth as nat),
                ),
            decreases n - i,
        {
            match token_end(s, i) {
                Some(e) => {
                    let name = String::from_str(s.substring_char(i + 1, e));
                    match self.resolve_name(&name, depth, res) {
                        Some(v) => {
                            let ghost before = out@;
                            out.append(v.as_str());
                            proof {
                                let rest = expand_from(self@, s@, e + 1, depth as nat);
                                match rest {
                                    Some(t) => {
                                        assert(before + (v@ + t) =~= (before + v@) + t);
                                    },
                                    None => {},
                                }
                            }
                            i = e + 1;
                        },
                        None => {
                            return None;
                        },
                    }
                },
                None => {
                    let ghost before = out@;
                    let piece = s.substring_char(i, i + 1);
                    out.append(piece);
                    proof {
                        assert(piece@ =~= seq![s@[i as int]]);
                        let rest = expand_from(self@, s@, i + 1, depth as nat);
                        match rest {
                            Some(t) => {
                                assert(before + (piece@ + t) =~= (before + piece@) + t);
                            },
                            None => {},
                        }
                    }
                    i += 1;
                },
            }
        }
        assert(out@ + Seq::<char>::empty() =~= out@);
        Some(out)
    }

    /// Stores `value` under `name`: an entry whose name matches up to ASCII case keeps its
    /// name and takes the value; otherwise a new entry is added.
    pub fn set_value(&mut self, name: &str, value: &str)
        ensures
            forall|n: Seq<char>|
                #![trigger lookup(final(self)@, n)]
                lookup(final(self)@, n) == if names_match(name@, n) {
                    Some(value@)
                } else {
                    lookup(old(self)@, n)
                },
    {
        let ghost before = self@;
        match self.find(name) {
            Some(k) => {
                let stored = self.entries[k].0.clone();
                self.entries.set(k, (stored, String::from_str(value)));
                proof {
                    assert(self@ =~= before.update(k as int, (before[k as int].0, value@)));
                    assert forall|n: Seq<char>| #[trigger]
                        lookup(self@, n) == if names_match(name@, n) {
                            Some(value@)
                        } else {
                            lookup(before, n)
                        } by {
                        lemma_lookup_update(before, k as int, value@, n);
                        if names_match(name@, n) {
                            lemma_names_match_symmetric(before[k as int].0, name@);
                            lemma_names_match_transitive(before[k as int].0, name@, n);
                            assert forall|j: int| 0 <= j < k implies !names_match(
                                #[trigger] before[j].0,
                                n,
                            ) by {
                                if names_match(before[j].0, n) {
                                    lemma_names_match_symmetric(name@, n);
                                    lemma_names_match_transitive(before[j].0, n, name@);
                                }
                            }
                        } else {
                            if names_match(before[k as int].0, n) {
                                lemma_names_match_symmetric(before[k as int].0, name@);
                                lemma_names_match_transitive(name@, before[k as int].0, n);
                            }
                        }
                    }
                }
            },
            None => {
                self.entries.push((String::from_str(name), String::from_str(value)));
                proof {
                    assert(self@ =~= before.push((name@, value@)));
                    assert forall|n: Seq<char>| #[trigger]
                        lookup(self@, n) == if names_match(name@, n) {
                            Some(value@)
                        } else {
                            lookup(before, n)
                        } by {
                        lemma_lookup_push(before, (name@, value@), n);
                        if names_match(name@, n) && lookup(before, n) is Some {
                            lemma_lookup_found_matches(before, n);
                            let j = choose|j: int| 0 <= j < before.len() && names_match(before[j].0, n);
                            lemma_names_match_symmetric(name@, n);
                            lemma_names_match_transitive(before[j].0, n, name@);
                            lemma_lookup_none_no_match(before, name@, j);
                        }
                    }
                }
            },
        }
    }

    /// The value of `name`. Without `recursive` the stored value is returned as it is, and a
    /// name the store lacks is `NotFound`. With `recursive` every `%NAME%` reference is
    /// expanded (a name the store lacks stands for itself), and references are followed up to
    /// `resolve_depth` levels (past the store's size); a chain that runs into itself is a
    /// `CyclicReference`. Each name is fetched from the store at most once per read.
    pub fn get_value(&self, name: &str, recursive: bool) -> (r: Result<String, EnvError>)
        ensures
            result_view(r) == value_of(self@, name@, recursive),
    {
        if !recursive {
            match self.find(name) {
                Some(k) => Ok(self.entries[k].1.clone()),
                None => Err(EnvError::NotFound),
            }
        } else {
            let mut res = Resolution { fetched: Vec::new(), results: Vec::new() };
            let key = String::from_str(name);
            let depth = self.entries.len() as u128 + 2;
            match self.resolve_name(&key, depth, &mut res) {
                Some(v) => Ok(v),
                None => Err(EnvError::CyclicReference),
            }
        }
    }
}

} // verus!
