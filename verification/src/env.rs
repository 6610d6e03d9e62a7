//! Environment variables of a build: an ordered table of `KEY=VALUE` pairs in
//! which no key occurs twice, seen as a map from key to value.

use vstd::prelude::*;

verus! {

/// The text of each string of a sequence.
pub open spec fn strings_view(v: Seq<String>) -> Seq<Seq<char>> {
    v.map_values(|s: String| s@)
}

/// The text of each pair of strings of a sequence.
pub open spec fn pairs_view(v: Seq<(String, String)>) -> Seq<(Seq<char>, Seq<char>)> {
    v.map_values(|e: (String, String)| (e.0@, e.1@))
}

/// No key occurs twice among `es`.
pub open spec fn keys_unique(es: Seq<(Seq<char>, Seq<char>)>) -> bool {
    forall|i: int, j: int| 0 <= i < es.len() && 0 <= j < es.len() && i != j ==> es[i].0 != es[j].0
}

/// `es` holds an entry with key `k`.
pub open spec fn has_key(es: Seq<(Seq<char>, Seq<char>)>, k: Seq<char>) -> bool {
    exists|i: int| 0 <= i < es.len() && (#[trigger] es[i]).0 == k
}

/// The position of an entry with key `k` in `es` (meaningful where [`has_key`] holds).
pub open spec fn key_index(es: Seq<(Seq<char>, Seq<char>)>, k: Seq<char>) -> int {
    choose|i: int| 0 <= i < es.len() && (#[trigger] es[i]).0 == k
}

/// The map from key to value that the entries `es` describe.
pub open spec fn entries_map(es: Seq<(Seq<char>, Seq<char>)>) -> Map<Seq<char>, Seq<char>> {
    Map::new(|k: Seq<char>| has_key(es, k), |k: Seq<char>| es[key_index(es, k)].1)
}

/// The entries after setting `k` to `v`: an entry with key `k` keeps its place and
/// takes the new value; otherwise the pair is appended.
pub open spec fn insert_entry(es: Seq<(Seq<char>, Seq<char>)>, k: Seq<char>, v: Seq<char>) -> Seq<
    (Seq<char>, Seq<char>),
> {
    if has_key(es, k) {
        es.update(key_index(es, k), (k, v))
    } else {
        es.push((k, v))
    }
}

/// The entries of `base` after setting, in order, each pair of `over`.
pub open spec fn merge_entries(
    base: Seq<(Seq<char>, Seq<char>)>,
    over: Seq<(Seq<char>, Seq<char>)>,
) -> Seq<(Seq<char>, Seq<char>)>
    decreases over.len(),
{
    if over.len() == 0 {
        base
    } else {
        let rest = merge_entries(base, over.drop_last());
        insert_entry(rest, over.last().0, over.last().1)
    }
}

/// The container arguments that pass the entries `es`: `-e` and `KEY=VALUE` for each, in order.
pub open spec fn env_args(es: Seq<(Seq<char>, Seq<char>)>) -> Seq<Seq<char>>
    decreases es.len(),
{
    if es.len() == 0 {
        Seq::empty()
    } else {
        env_args(es.drop_last()) + seq!["-e"@, es.last().0 + "="@ + es.last().1]
    }
}

/// With unique keys, the entry found for a key is the only one with that key.
proof fn lemma_key_index(es: Seq<(Seq<char>, Seq<char>)>, k: Seq<char>, i: int)
    requires
        keys_unique(es),
        0 <= i < es.len(),
        es[i].0 == k,
    ensures
        has_key(es, k),
        key_index(es, k) == i,
        entries_map(es).contains_key(k),
        entries_map(es)[k] == es[i].1,
{
    assert(has_key(es, k));
}

/// Setting a key keeps the keys unique and sets that key in the map.
proof fn lemma_insert_entry(es: Seq<(Seq<char>, Seq<char>)>, k: Seq<char>, v: Seq<char>)
    requires
        keys_unique(es),
    ensures
        keys_unique(insert_entry(es, k, v)),
        entries_map(insert_entry(es, k, v)) == entries_map(es).insert(k, v),
{
    let es2 = insert_entry(es, k, v);
    if has_key(es, k) {
        let i = key_index(es, k);
        assert(keys_unique(es2));
        assert forall|k2: Seq<char>| #[trigger] has_key(es2, k2) == has_key(es, k2) by {
            if has_key(es, k2) {
                let j = key_index(es, k2);
                assert(es2[j].0 == k2);
            }
            if has_key(es2, k2) {
                let j = key_index(es2, k2);
                assert(es[j].0 == k2);
            }
        }
        assert forall|k2: Seq<char>| #[trigger] entries_map(es2).contains_key(k2) implies entries_map(
            es2,
        )[k2] == entries_map(es).insert(k, v)[k2] by {
            let j = key_index(es2, k2);
            lemma_key_index(es2, k2, j);
            if k2 != k {
                lemma_key_index(es, k2, j);
            }
        }
        assert(entries_map(es2) =~= entries_map(es).insert(k, v));
    } else {
        assert(keys_unique(es2));
        assert forall|k2: Seq<char>| #[trigger] has_key(es2, k2) == (has_key(es, k2) || k2 == k) by {
            if has_key(es, k2) {
                let j = key_index(es, k2);
                assert(es2[j].0 == k2);
            }
            if k2 == k {
                assert(es2[es.len() as int].0 == k);
            }
        }
        assert forall|k2: Seq<char>| #[trigger] entries_map(es2).contains_key(k2) implies entries_map(
            es2,
        )[k2] == entries_map(es).insert(k, v)[k2] by {
            let j = key_index(es2, k2);
            lemma_key_index(es2, k2, j);
            if k2 != k {
                lemma_key_index(es, k2, j);
            }
        }
        assert(entries_map(es2) =~= entries_map(es).insert(k, v));
    }
}

/// Merged entries keep unique keys and describe the first map overridden by the second.
pub proof fn lemma_merge_entries(base: Seq<(Seq<char>, Seq<char>)>, over: Seq<(Seq<char>, Seq<char>)>)
    requires
        keys_unique(base),
        keys_unique(over),
    ensures
        keys_unique(merge_entries(base, over)),
        entries_map(merge_entries(base, over)) == entries_map(base).union_prefer_right(
            entries_map(over),
        ),
    decreases over.len(),
{
    if over.len() == 0 {
        assert(entries_map(over) =~= Map::empty());
        assert(entries_map(base).union_prefer_right(entries_map(over)) =~= entries_map(base));
    } else {
        let init = over.drop_last();
        let (k, v) = over.last();
        lemma_merge_entries(base, init);
        lemma_insert_entry(merge_entries(base, init), k, v);
        assert(!has_key(init, k)) by {
            if has_key(init, k) {
                let j = key_index(init, k);
                assert(over[j].0 == over[over.len() - 1].0);
            }
        }
        lemma_insert_entry(init, k, v);
        assert(insert_entry(init, k, v) =~= over);
        assert(entries_map(base).union_prefer_right(entries_map(over)) =~= entries_map(
            base,
        ).union_prefer_right(entries_map(init)).insert(k, v));
    }
}

/// The container arguments of the entries `es` are, for each entry in order, `-e`
/// followed by `KEY=VALUE`, and nothing else.
pub proof fn lemma_env_args(es: Seq<(Seq<char>, Seq<char>)>)
    ensures
        env_args(es).len() == 2 * es.len(),
        forall|i: int| 0 <= i < es.len() ==> #[trigger] env_args(es)[2 * i] == "-e"@,
        forall|i: int| 0 <= i < es.len() ==> env_args(es)[2 * i + 1] == (#[trigger] es[i]).0 + "="@ + es[i].1,
    decreases es.len(),
{
    if es.len() > 0 {
        let init = es.drop_last();
        lemma_env_args(init);
        let a = env_args(init);
        let b = seq!["-e"@, es.last().0 + "="@ + es.last().1];
        assert(env_args(es) == a + b);
        assert forall|i: int| 0 <= i < es.len() implies #[trigger] env_args(es)[2 * i] == "-e"@ && env_args(es)[2
            * i + 1] == es[i].0 + "="@ + es[i].1 by {
            if i < init.len() {
                assert(init[i] == es[i]);
                assert((a + b)[2 * i] == a[2 * i]);
                assert((a + b)[2 * i + 1] == a[2 * i + 1]);
            } else {
                assert(es[i] == es.last());
                assert((a + b)[2 * i] == b[0]);
                assert((a + b)[2 * i + 1] == b[1]);
            }
        }
        assert forall|i: int| 0 <= i < es.len() implies env_args(es)[2 * i + 1] == (#[trigger] es[i]).0 + "="@
            + es[i].1 by {
            assert(env_args(es)[2 * i] == "-e"@);
        }
    }
}

/// Environment variables: pairs of key and value, each key at most once, in the
/// order in which the keys were first set.
pub struct EnvVars {
    entries: Vec<(String, String)>,
}

impl View for EnvVars {
    type V = Map<Seq<char>, Seq<char>>;

    /// The map from each key to its value.
    closed spec fn view(&self) -> Map<Seq<char>, Seq<char>> {
        entries_map(self.entries_view())
    }
}

impl EnvVars {
    /// The entries as text, in their order.
    pub closed spec fn entries_view(&self) -> Seq<(Seq<char>, Seq<char>)> {
        pairs_view(self.entries@)
    }

    #[verifier::type_invariant]
    closed spec fn inv(&self) -> bool {
        keys_unique(self.entries_view())
    }

    /// No variable.
    pub fn new() -> (res: Self)
        ensures
            res.entries_view() == Seq::<(Seq<char>, Seq<char>)>::empty(),
            res@ == Map::<Seq<char>, Seq<char>>::empty(),
    {
        let res = EnvVars { entries: Vec::new() };
        assert(res.entries_view() =~= Seq::<(Seq<char>, Seq<char>)>::empty());
        assert(res@ =~= Map::<Seq<char>, Seq<char>>::empty());
        res
    }

    /// The number of variables.
    pub fn len(&self) -> (res: usize)
        ensures
            res == self.entries_view().len(),
    {
        self.entries.len()
    }

    /// Whether there is no variable.
    pub fn is_empty(&self) -> (res: bool)
        ensures
            res == (self.entries_view().len() == 0),
    {
        self.entries.len() == 0
    }

    /// The position of the entry with key `key`, if any.
    fn find(&self, key: &String) -> (res: Option<usize>)
        ensures
            match res {
                Some(i) => i < self.entries_view().len() && self.entries_view()[i as int].0 == key@,
                None => !has_key(self.entries_view(), key@),
            },
    {
        let n = self.entries.len();
        let mut i: usize = 0;
        while i < n
            invariant
                n == self.entries@.len(),
                i <= n,
                forall|j: int| 0 <= j < i ==> (#[trigger] self.entries_view()[j]).0 != key@,
            decreases n - i,
        {
            if self.entries[i].0 == *key {
                return Some(i);
            }
            i = i + 1;
        }
        proof {
            if has_key(self.entries_view(), key@) {
                let j = key_index(self.entries_view(), key@);
                assert(self.entries_view()[j].0 == key@);
            }
        }
        None
    }

    /// The value of `key`, if it is set.
    pub fn get(&self, key: &String) -> (res: Option<String>)
        ensures
            match res {
                Some(v) => self@.contains_key(key@) && v@ == self@[key@],
                None => !self@.contains_key(key@),
            },
    {
        proof {
            use_type_invariant(self);
        }
        match self.find(key) {
            Some(i) => {
                proof {
                    lemma_key_index(self.entries_view(), key@, i as int);
                }
                Some(self.entries[i].1.clone())
            },
            None => None,
        }
    }

    /// Sets `key` to `value`, as a map's insert does; returns the value it replaced.
    pub fn insert(&mut self, key: String, value: String) -> (res: Option<String>)
        ensures
            final(self).entries_view() == insert_entry(old(self).entries_view(), key@, value@),
            final(self)@ == old(self)@.insert(key@, value@),
            match res {
                Some(v) => old(self)@.contains_key(key@) && v@ == old(self)@[key@],
                None => !old(self)@.contains_key(key@),
            },
    {
        proof {
            use_type_invariant(&*self);
            lemma_insert_entry(self.entries_view(), key@, value@);
        }
        let ghost old_view = self.entries_view();
        let found = self.find(&key);
        match found {
            Some(i) => {
                proof {
                    lemma_key_index(old_view, key@, i as int);
                }
                let mut entries: Vec<(String, String)> = Vec::new();
                std::mem::swap(&mut entries, &mut self.entries);
                let prev = entries[i].1.clone();
                entries.set(i, (key, value));
                proof {
                    assert(pairs_view(entries@) =~= insert_entry(
                        old_view,
                        key@,
                        value@,
                    ));
                }
                self.entries = entries;
                Some(prev)
            },
            None => {
                let mut entries: Vec<(String, String)> = Vec::new();
                std::mem::swap(&mut entries, &mut self.entries);
                entries.push((key, value));
                proof {
                    assert(pairs_view(entries@) =~= insert_entry(
                        old_view,
                        key@,
                        value@,
                    ));
                }
                self.entries = entries;
                None
            },
        }
    }

    /// A copy with the same entries.
    pub fn duplicate(&self) -> (res: Self)
        ensures
            res.entries_view() == self.entries_view(),
            res@ == self@,
    {
        proof {
            use_type_invariant(self);
        }
        let mut entries: Vec<(String, String)> = Vec::new();
        let n = self.entries.len();
        let mut i: usize = 0;
        while i < n
            invariant
                n == self.entries@.len(),
                i <= n,
                entries@.len() == i,
                pairs_view(entries@) =~= self.entries_view().take(
                    i as int,
                ),
            decreases n - i,
        {
            let k = self.entries[i].0.clone();
            let v = self.entries[i].1.clone();
            let ghost before = entries@;
            proof {
                assert((k@, v@) == self.entries_view()[i as int]);
            }
            entries.push((k, v));
            proof {
                assert(entries@ == before.push((k, v)));
                assert forall|j: int| 0 <= j < i + 1 implies #[trigger] pairs_view(entries@)[j]
                    == self.entries_view().take(i + 1)[j] by {
                    if j < i {
                        assert(entries@[j] == before[j]);
                        assert(pairs_view(before)[j] == self.entries_view().take(i as int)[j]);
                    }
                }
                assert(pairs_view(entries@) =~= self.entries_view().take(i + 1));
            }
            i = i + 1;
        }
        assert(self.entries_view().take(n as int) =~= self.entries_view());
        EnvVars { entries }
    }

    /// The pairs of key and value, in their order.
    pub fn to_pairs(&self) -> (res: Vec<(String, String)>)
        ensures
            pairs_view(res@) == self.entries_view(),
    {
        let copy = self.duplicate();
        copy.entries
    }
}

/// Both maps together, a key of `local` overriding the same key of `global`: the entries of
/// `global` in their order (with overridden values), then the keys that only `local` has.
pub fn merge_envs(local: &EnvVars, global: &EnvVars) -> (res: EnvVars)
    ensures
        res.entries_view() == merge_entries(global.entries_view(), local.entries_view()),
        res@ == global@.union_prefer_right(local@),
{
    proof {
        use_type_invariant(global);
        use_type_invariant(local);
        lemma_merge_entries(global.entries_view(), local.entries_view());
    }
    let mut envs = global.duplicate();
    let n = local.entries.len();
    let mut i: usize = 0;
    while i < n
        invariant
            n == local.entries@.len(),
            i <= n,
            envs.entries_view() == merge_entries(global.entries_view(), local.entries_view().take(i as int)),
        decreases n - i,
    {
        proof {
            assert(local.entries_view().take(i + 1).drop_last() =~= local.entries_view().take(i as int));
        }
        let k = local.entries[i].0.clone();
        let v = local.entries[i].1.clone();
        envs.insert(k, v);
        i = i + 1;
    }
    assert(local.entries_view().take(n as int) =~= local.entries_view());
    envs
}

/// The container arguments that pass `envs`: `-e` then `KEY=VALUE`, for each entry in order.
pub fn into_args(envs: EnvVars) -> (res: Vec<String>)
    ensures
        strings_view(res@) == env_args(envs.entries_view()),
{
    let mut res: Vec<String> = Vec::new();
    let n = envs.entries.len();
    let mut i: usize = 0;
    while i < n
        invariant
            n == envs.entries@.len(),
            i <= n,
            strings_view(res@) == env_args(envs.entries_view().take(i as int)),
        decreases n - i,
    {
        let flag = String::from_str("-e");
        let pair = envs.entries[i].0.clone().concat("=").concat(envs.entries[i].1.as_str());
        res.push(flag);
        res.push(pair);
        proof {
            assert(envs.entries_view().take(i + 1).drop_last() =~= envs.entries_view().take(i as int));
            assert(strings_view(res@) =~= env_args(envs.entries_view().take(i + 1)));
        }
        i = i + 1;
    }
    assert(envs.entries_view().take(n as int) =~= envs.entries_view());
    res
}

} // verus!
