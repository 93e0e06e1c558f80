//! Discovery of the fencers named in decoded pairs, the completeness check, and
//! the assembly of a group of results.

use itertools::Itertools;
use vstd::prelude::*;

use crate::decode::{
    chars_eq, data_into_hashmap, decode, lemma_pairs_map_dom, lemma_pairs_map_last, pair_views, pairs_map,
    Error, FieldMap,
};
use crate::text::{chars_of, lemma_split_len, split, split_chars, string_of, views};

verus! {

/// The fencer that a key belongs to: the text before its first `_`.
/// `None` where the key has no `_`, or nothing before it.
pub open spec fn name_of(key: Seq<char>) -> Option<Seq<char>> {
    let parts = split(key, '_');
    if parts.len() >= 2 && parts[0].len() > 0 {
        Some(parts[0])
    } else {
        None
    }
}

pub open spec fn wins_suffix() -> Seq<char> {
    seq!['_', 'w', 'i', 'n', 's']
}

pub open spec fn given_suffix() -> Seq<char> {
    seq!['_', 'g', 'i', 'v', 'e', 'n']
}

pub open spec fn taken_suffix() -> Seq<char> {
    seq!['_', 't', 'a', 'k', 'e', 'n']
}

/// Every key of `m` names a fencer.
pub open spec fn keys_named(m: Map<Seq<char>, u8>) -> bool {
    forall|k: Seq<char>| #[trigger] m.contains_key(k) ==> name_of(k) is Some
}

/// The fencers that the keys of `m` name.
pub open spec fn names(m: Map<Seq<char>, u8>) -> Set<Seq<char>> {
    Set::new(|n: Seq<char>| exists|k: Seq<char>| #[trigger] m.contains_key(k) && name_of(k) == Some(n))
}

/// `m` holds all three fields of fencer `n`.
pub open spec fn complete(m: Map<Seq<char>, u8>, n: Seq<char>) -> bool {
    &&& m.contains_key(n + wins_suffix())
    &&& m.contains_key(n + given_suffix())
    &&& m.contains_key(n + taken_suffix())
}

/// Wins, points given and points taken of fencer `n` in `m`.
pub open spec fn record_of(m: Map<Seq<char>, u8>, n: Seq<char>) -> (u8, u8, u8) {
    (m[n + wins_suffix()], m[n + given_suffix()], m[n + taken_suffix()])
}

/// The group that the pairs `m` describe: each fencer named, with its record.
pub open spec fn group_of(m: Map<Seq<char>, u8>) -> Map<Seq<char>, (u8, u8, u8)> {
    Map::new(|n: Seq<char>| names(m).contains(n), |n: Seq<char>| record_of(m, n))
}

/// The group that body `s` describes, or `None` where it is malformed or incomplete.
pub open spec fn group_spec(s: Seq<char>) -> Option<Map<Seq<char>, (u8, u8, u8)>> {
    match decode(s) {
        None => None,
        Some(p) => {
            let m = pairs_map(p);
            if keys_named(m) && (forall|n: Seq<char>| #[trigger]
                names(m).contains(n) ==> complete(m, n)) {
                Some(group_of(m))
            } else {
                None
            }
        },
    }
}

/// A group built from a body has one record for each fencer that the body
/// names and for no one else, and that record holds the values of the
/// fencer's three keys, all present.
pub proof fn lemma_group_complete(s: Seq<char>)
    requires
        group_spec(s) is Some,
    ensures
        ({
            let m = pairs_map(decode(s)->Some_0);
            let g = group_spec(s)->Some_0;
            &&& g.dom() == names(m)
            &&& forall|n: Seq<char>| #[trigger]
                g.contains_key(n) ==> complete(m, n) && g[n] == record_of(m, n)
        }),
{
    let m = pairs_map(decode(s)->Some_0);
    assert(group_spec(s)->Some_0.dom() =~= names(m));
}

/// The first occurrence of each distinct element of `s`, in order.
pub open spec fn first_occurrences(s: Seq<Seq<char>>) -> Seq<Seq<char>>
    decreases s.len(),
{
    if s.len() == 0 {
        s
    } else {
        let p = first_occurrences(s.drop_last());
        if p.contains(s.last()) {
            p
        } else {
            p.push(s.last())
        }
    }
}

pub proof fn lemma_first_occurrences(s: Seq<Seq<char>>)
    ensures
        first_occurrences(s).no_duplicates(),
        forall|x: Seq<char>| #[trigger] first_occurrences(s).contains(x) <==> s.contains(x),
    decreases s.len(),
{
    if s.len() > 0 {
        let q = s.drop_last();
        lemma_first_occurrences(q);
        let p = first_occurrences(q);
        assert forall|x: Seq<char>| #[trigger] first_occurrences(s).contains(x) <==> s.contains(
            x,
        ) by {
            if q.contains(x) {
                let j = choose|j: int| 0 <= j < q.len() && q[j] == x;
                assert(s[j] == x);
            }
            if s.contains(x) {
                let j = choose|j: int| 0 <= j < s.len() && s[j] == x;
                if j < q.len() {
                    assert(q[j] == x);
                }
            }
            if !p.contains(s.last()) {
                assert(p.push(s.last())[p.len() as int] == s.last());
                if p.contains(x) {
                    let j = choose|j: int| 0 <= j < p.len() && p[j] == x;
                    assert(p.push(s.last())[j] == x);
                }
                if p.push(s.last()).contains(x) {
                    let j = choose|j: int| 0 <= j < p.len() + 1 && p.push(s.last())[j] == x;
                    if j < p.len() {
                        assert(p[j] == x);
                    }
                }
            }
        }
    }
}

/// Relies on itertools' `Itertools::unique`: it keeps the first of the equal
/// items and yields them in the order in which they come.
#[verifier::external_body]
fn unique_names(names: Vec<Vec<char>>) -> (r: Vec<Vec<char>>)
    ensures
        views(r@) == first_occurrences(views(names@)),
{
    names.into_iter().unique().collect()
}

/// The fencer of each pair's key, in the order of the pairs.
pub open spec fn key_names(p: Seq<(Seq<char>, u8)>) -> Seq<Seq<char>> {
    p.map_values(|e: (Seq<char>, u8)| name_of(e.0)->Some_0)
}

/// The fencers that the keys of `map` name, each once, in the order in which
/// they first come. Fails where a key names none.
pub fn fencer_names(map: &FieldMap) -> (r: Result<Vec<Vec<char>>, Error>)
    ensures
        r is Ok <==> keys_named(map@),
        r is Ok ==> views(r->Ok_0@) == first_occurrences(key_names(pair_views(map.pairs@))),
        r is Ok ==> views(r->Ok_0@).no_duplicates() && views(r->Ok_0@).to_set() == names(map@),
        r is Err ==> r->Err_0 == Error::InvalidInput,
{
    let ghost pv = pair_views(map.pairs@);
    let ghost ks = pv.map_values(|e: (Seq<char>, u8)| e.0);
    proof {
        lemma_pairs_map_dom(pv);
    }
    let mut all: Vec<Vec<char>> = Vec::new();
    let mut i: usize = 0;
    while i < map.pairs.len()
        invariant
            i <= map.pairs@.len(),
            pv == pair_views(map.pairs@),
            ks == pv.map_values(|e: (Seq<char>, u8)| e.0),
            map@.dom() == ks.to_set(),
            all@.len() == i,
            forall|j: int| 0 <= j < i ==> name_of(#[trigger] ks[j]) == Some(all@[j]@),
        decreases map.pairs.len() - i,
    {
        assert(ks[i as int] == map.pairs@[i as int].0@);
        let mut parts = split_chars(&map.pairs[i].0, '_');
        assert(views(parts@) == split(ks[i as int], '_'));
        proof {
            lemma_split_len(ks[i as int], '_');
        }
        if parts.len() < 2 || parts[0].len() == 0 {
            proof {
                assert(views(parts@)[0] == parts@[0]@);
                assert(ks.to_set().contains(ks[i as int]));
                assert(map@.contains_key(ks[i as int]));
            }
            return Err(Error::InvalidInput);
        }
        assert(views(parts@)[0] == parts@[0]@);
        let name = parts.remove(0);
        all.push(name);
        i += 1;
    }
    assert(keys_named(map@)) by {
        assert forall|k: Seq<char>| #[trigger] map@.contains_key(k) implies name_of(k) is Some by {
            assert(ks.to_set().contains(k));
            let j = choose|j: int| 0 <= j < ks.len() && ks[j] == k;
        }
    }
    let ghost av = views(all@);
    assert forall|j: int| 0 <= j < av.len() implies av[j] == key_names(pv)[j] by {
        assert(ks[j] == pv[j].0);
        assert(name_of(ks[j]) == Some(all@[j]@));
    }
    assert(av =~= key_names(pv));
    let unique = unique_names(all);
    proof {
        lemma_first_occurrences(av);
        let uv = views(unique@);
        assert forall|n: Seq<char>| #[trigger] uv.to_set().contains(n) <==> names(map@).contains(n) by {
            if uv.contains(n) {
                assert(av.contains(n));
                let j = choose|j: int| 0 <= j < av.len() && av[j] == n;
                assert(ks.to_set().contains(ks[j]));
                assert(map@.contains_key(ks[j]) && name_of(ks[j]) == Some(n));
            }
            if names(map@).contains(n) {
                let k = choose|k: Seq<char>| #[trigger] map@.contains_key(k) && name_of(k) == Some(n);
                assert(ks.to_set().contains(k));
                let j = choose|j: int| 0 <= j < ks.len() && ks[j] == k;
                assert(av[j] == n);
                assert(av.contains(n));
            }
        }
        assert(uv.to_set() =~= names(map@));
    }
    Ok(unique)
}

/// The concatenation of `a` and `b`.
pub fn concat_chars(a: &[char], b: &[char]) -> (r: Vec<char>)
    ensures
        r@ == a@ + b@,
{
    let mut r: Vec<char> = Vec::new();
    let mut i: usize = 0;
    while i < a.len()
        invariant
            i <= a@.len(),
            r@ == a@.take(i as int),
        decreases a.len() - i,
    {
        r.push(a[i]);
        i += 1;
        assert(r@ =~= a@.take(i as int));
    }
    let mut j: usize = 0;
    while j < b.len()
        invariant
            j <= b@.len(),
            r@ == a@ + b@.take(j as int),
        decreases b.len() - j,
    {
        r.push(b[j]);
        j += 1;
        assert(r@ =~= a@ + b@.take(j as int));
    }
    assert(a@ + b@.take(j as int) =~= a@ + b@);
    r
}

/// Checks that `map` holds the key made of each fencer followed by each suffix.
pub fn check_all_entries(map: &FieldMap, fancers: &[Vec<char>], exts: &[Vec<char>]) -> (r: Result<
    (),
    Error,
>)
    ensures
        r is Ok <==> (forall|i: int, j: int|
            0 <= i < fancers@.len() && 0 <= j < exts@.len() ==> map@.contains_key(
                #[trigger] fancers@[i]@ + #[trigger] exts@[j]@,
            )),
        r is Err ==> r->Err_0 == Error::InvalidInput,
{
    let mut i: usize = 0;
    while i < fancers.len()
        invariant
            i <= fancers@.len(),
            forall|a: int, b: int|
                0 <= a < i && 0 <= b < exts@.len() ==> map@.contains_key(
                    #[trigger] fancers@[a]@ + #[trigger] exts@[b]@,
                ),
        decreases fancers.len() - i,
    {
        let mut j: usize = 0;
        while j < exts.len()
            invariant
                i < fancers@.len(),
                j <= exts@.len(),
                forall|a: int, b: int|
                    0 <= a < i && 0 <= b < exts@.len() ==> map@.contains_key(
                        #[trigger] fancers@[a]@ + #[trigger] exts@[b]@,
                    ),
                forall|b: int|
                    0 <= b < j ==> map@.contains_key(fancers@[i as int]@ + #[trigger] exts@[b]@),
            decreases exts.len() - j,
        {
            let key = concat_chars(&fancers[i], &exts[j]);
            if !map.contains_key(&key) {
                return Err(Error::InvalidInput);
            }
            j += 1;
        }
        i += 1;
    }
    Ok(())
}

/// The result of one fencer in a group.
#[derive(Debug)]
pub struct GroupFencerResult {
    pub name: String,
    pub wins: u8,
    pub given: u8,
    pub taken: u8,
}

impl GroupFencerResult {
    /// The name and the record (wins, points given, points taken).
    pub open spec fn entry(self) -> (Seq<char>, (u8, u8, u8)) {
        (self.name@, (self.wins, self.given, self.taken))
    }

    /// The result of fencer `name`, read from the three keys of `map` that belong to it.
    pub fn from_hashmap(name: &[char], map: &FieldMap) -> (r: GroupFencerResult)
        requires
            complete(map@, name@),
        ensures
            r.entry() == (name@, record_of(map@, name@)),
    {
        let w = concat_chars(name, &wins_chars());
        let g = concat_chars(name, &given_chars());
        let t = concat_chars(name, &taken_chars());
        let wins = map.get(&w).unwrap();
        let given = map.get(&g).unwrap();
        let taken = map.get(&t).unwrap();
        GroupFencerResult { name: string_of(name), wins, given, taken }
    }
}

fn wins_chars() -> (r: Vec<char>)
    ensures
        r@ == wins_suffix(),
{
    let r = vec!['_', 'w', 'i', 'n', 's'];
    assert(r@ =~= wins_suffix());
    r
}

fn given_chars() -> (r: Vec<char>)
    ensures
        r@ == given_suffix(),
{
    let r = vec!['_', 'g', 'i', 'v', 'e', 'n'];
    assert(r@ =~= given_suffix());
    r
}

fn taken_chars() -> (r: Vec<char>)
    ensures
        r@ == taken_suffix(),
{
    let r = vec!['_', 't', 'a', 'k', 'e', 'n'];
    assert(r@ =~= taken_suffix());
    r
}

pub proof fn lemma_group_of_names(m: Map<Seq<char>, u8>, ns: Seq<Seq<char>>)
    ensures
        pairs_map(ns.map_values(|n: Seq<char>| (n, record_of(m, n)))) == Map::new(
            |n: Seq<char>| ns.contains(n),
            |n: Seq<char>| record_of(m, n),
        ),
    decreases ns.len(),
{
    let es = ns.map_values(|n: Seq<char>| (n, record_of(m, n)));
    if ns.len() > 0 {
        let q = ns.drop_last();
        lemma_group_of_names(m, q);
        assert(es.drop_last() =~= q.map_values(|n: Seq<char>| (n, record_of(m, n))));
        assert forall|n: Seq<char>| #[trigger] ns.contains(n) <==> q.contains(n) || n == ns.last() by {
            if ns.contains(n) {
                let j = choose|j: int| 0 <= j < ns.len() && ns[j] == n;
                if j < q.len() {
                    assert(q[j] == n);
                }
            }
            if q.contains(n) {
                let j = choose|j: int| 0 <= j < q.len() && q[j] == n;
                assert(ns[j] == n);
            }
            assert(ns[ns.len() - 1] == ns.last());
        }
    }
    assert(pairs_map(es) =~= Map::new(
        |n: Seq<char>| ns.contains(n),
        |n: Seq<char>| record_of(m, n),
    ));
}

/// The results of a group of fencers, one per fencer.
#[derive(Debug)]
pub struct Group {
    pub results: Vec<GroupFencerResult>,
}

impl View for Group {
    type V = Map<Seq<char>, (u8, u8, u8)>;

    /// Each fencer's name mapped to its record; of two results of one name, the later.
    open spec fn view(&self) -> Map<Seq<char>, (u8, u8, u8)> {
        pairs_map(self.entries())
    }
}

/// The size ceiling of a body, in bytes.
pub const DEFAULT_LIMIT: usize = 1024;

impl Group {
    pub open spec fn entries(&self) -> Seq<(Seq<char>, (u8, u8, u8))> {
        self.results@.map_values(|r: GroupFencerResult| r.entry())
    }

    /// No two results share a name.
    pub open spec fn wf(&self) -> bool {
        self.entries().map_values(|e: (Seq<char>, (u8, u8, u8))| e.0).no_duplicates()
    }

    /// Builds the group that body `data` describes. A body longer than `limit`
    /// bytes is too large; one that is malformed, or that names a fencer without
    /// all three of its fields, is invalid. An empty body is an empty group. A
    /// key with nothing before its first `_` (`_wins`) names no fencer, and so
    /// makes the body invalid.
    pub fn from_data(data: &str, limit: usize) -> (r: Result<Group, Error>)
        ensures
            data.len() > limit ==> r == Err::<Group, Error>(Error::TooLarge),
            data.len() <= limit ==> match group_spec(data@) {
                Some(g) => r is Ok && r->Ok_0@ == g && r->Ok_0.wf(),
                None => r == Err::<Group, Error>(Error::InvalidInput),
            },
    {
        if data.len() > limit {
            return Err(Error::TooLarge);
        }
        let map = match data_into_hashmap(data) {
            Ok(m) => m,
            Err(e) => return Err(e),
        };
        let ghost m = map@;
        let fancers = match fencer_names(&map) {
            Ok(f) => f,
            Err(e) => return Err(e),
        };
        let ghost ns = views(fancers@);
        let exts = vec![wins_chars(), taken_chars(), given_chars()];
        assert(exts@[0]@ == wins_suffix() && exts@[1]@ == taken_suffix() && exts@[2]@
            == given_suffix());
        if check_all_entries(&map, &fancers, &exts).is_err() {
            proof {
                let (i, j) = choose|i: int, j: int|
                    0 <= i < fancers@.len() && 0 <= j < exts@.len() && !m.contains_key(
                        #[trigger] fancers@[i]@ + #[trigger] exts@[j]@,
                    );
                assert(ns[i] == fancers@[i]@);
                assert(ns.to_set().contains(ns[i]));
                assert(!complete(m, ns[i]));
            }
            return Err(Error::InvalidInput);
        }
        assert forall|n: Seq<char>| #[trigger] names(m).contains(n) implies complete(m, n) by {
            assert(ns.to_set().contains(n));
            let i = choose|i: int| 0 <= i < ns.len() && ns[i] == n;
            assert(fancers@[i]@ == n);
            assert(m.contains_key(fancers@[i]@ + exts@[0]@));
            assert(m.contains_key(fancers@[i]@ + exts@[1]@));
            assert(m.contains_key(fancers@[i]@ + exts@[2]@));
        }
        let mut results: Vec<GroupFencerResult> = Vec::new();
        let mut i: usize = 0;
        while i < fancers.len()
            invariant
                i <= fancers@.len(),
                m == map@,
                ns == views(fancers@),
                forall|n: Seq<char>| #[trigger] names(m).contains(n) ==> complete(m, n),
                ns.to_set() == names(m),
                results@.map_values(|r: GroupFencerResult| r.entry()) == ns.take(
                    i as int,
                ).map_values(|n: Seq<char>| (n, record_of(m, n))),
            decreases fancers.len() - i,
        {
            assert(ns.to_set().contains(ns[i as int]));
            assert(ns[i as int] == fancers@[i as int]@);
            let res = GroupFencerResult::from_hashmap(&fancers[i], &map);
            let ghost before = results@;
            results.push(res);
            assert(results@.map_values(|r: GroupFencerResult| r.entry()) =~= before.map_values(
                |r: GroupFencerResult| r.entry(),
            ).push(res.entry()));
            i += 1;
            assert(ns.take(i as int).map_values(|n: Seq<char>| (n, record_of(m, n))) =~= ns.take(
                i - 1,
            ).map_values(|n: Seq<char>| (n, record_of(m, n))).push(res.entry()));
        }
        let group = Group { results };
        proof {
            assert(ns.take(i as int) =~= ns);
            lemma_group_of_names(m, ns);
            assert forall|n: Seq<char>| #[trigger] ns.contains(n) <==> names(m).contains(n) by {
                assert(ns.to_set().contains(n) == ns.contains(n));
            }
            assert(group@ =~= group_of(m));
            assert(group.entries().map_values(|e: (Seq<char>, (u8, u8, u8))| e.0) =~= ns);
        }
        Ok(group)
    }

    /// The result of fencer `name`.
    pub fn get(&self, name: &str) -> (r: Option<&GroupFencerResult>)
        ensures
            r is Some <==> self@.contains_key(name@),
            r is Some ==> r->Some_0.entry() == (name@, self@[name@]),
    {
        let key = chars_of(name);
        let ghost es = self.entries();
        let mut i: usize = self.results.len();
        while i > 0
            invariant
                i <= self.results@.len(),
                es == self.entries(),
                key@ == name@,
                forall|j: int| i <= j < es.len() ==> es[j].0 != name@,
            decreases i,
        {
            i -= 1;
            let here = chars_of(self.results[i].name.as_str());
            if chars_eq(&here, &key) {
                proof {
                    lemma_pairs_map_last(es, name@, i as int);
                }
                return Some(&self.results[i]);
            }
        }
        proof {
            lemma_pairs_map_dom(es);
            let ks = es.map_values(|e: (Seq<char>, (u8, u8, u8))| e.0);
            if ks.contains(name@) {
                let j = choose|j: int| 0 <= j < ks.len() && ks[j] == name@;
                assert(es[j].0 == name@);
            }
        }
        None
    }

    /// The number of results.
    pub fn len(&self) -> (r: usize)
        ensures
            r == self.results@.len(),
    {
        self.results.len()
    }
}

} // verus!
