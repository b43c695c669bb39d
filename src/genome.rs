//! Grouping the paths of a graph into genomes by a prefix of their names.
use vstd::prelude::*;
use crate::graph::NGfa;
use crate::record::{NPath, NPathView};
use crate::tables::{genome_map_contents, key_groups_contents, GenomeMap, KeyGroups};

verus! {

/// How path names are turned into genome keys.
#[derive(Debug, Clone)]
pub enum GroupMode {
    /// Every path is a genome of its own, keyed by its whole name.
    NoMerge,
    /// The key is the part of the name before the first occurrence of the
    /// delimiter, or the whole name where it does not occur.
    SplitOn(String),
}

/// `d` occurs in `s` at position `i`.
pub open spec fn occurs_at(s: Seq<char>, d: Seq<char>, i: int) -> bool {
    0 <= i && i + d.len() <= s.len() && s.subrange(i, i + d.len()) == d
}

/// `i` is the first position at which `d` occurs in `s`.
pub open spec fn first_occurrence(s: Seq<char>, d: Seq<char>, i: int) -> bool {
    occurs_at(s, d, i) && forall|j: int| 0 <= j < i ==> !occurs_at(s, d, j)
}

/// The text of `s` before the first occurrence of `d`, or all of `s`.
pub open spec fn first_token(s: Seq<char>, d: Seq<char>) -> Seq<char> {
    if exists|i: int| first_occurrence(s, d, i) {
        s.subrange(0, choose|i: int| first_occurrence(s, d, i))
    } else {
        s
    }
}

pub open spec fn key_of(name: Seq<char>, mode: GroupMode) -> Seq<char> {
    match mode {
        GroupMode::NoMerge => name,
        GroupMode::SplitOn(d) => first_token(name, d@),
    }
}

/// `a` and `b` agree before position `i`, where `a` ends first or has the
/// smaller character.
pub open spec fn differs_below(a: Seq<char>, b: Seq<char>, i: int) -> bool {
    &&& 0 <= i <= a.len()
    &&& i <= b.len()
    &&& a.subrange(0, i) == b.subrange(0, i)
    &&& ((i == a.len() && i < b.len()) || (i < a.len() && i < b.len() && (a[i] as u32) < (b[i] as u32)))
}

/// Lexicographic order of character sequences.
pub open spec fn str_lt(a: Seq<char>, b: Seq<char>) -> bool {
    exists|i: int| differs_below(a, b, i)
}

pub open spec fn str_le(a: Seq<char>, b: Seq<char>) -> bool {
    a == b || str_lt(a, b)
}

pub open spec fn string_views(v: Seq<String>) -> Seq<Seq<char>> {
    v.map_values(|s: String| s@)
}

/// Relies on `str::split`: its first piece is the text before the first
/// occurrence of the delimiter, or the whole text.
#[verifier::external_body]
fn split_first(name: &str, del: &str) -> (r: String)
    ensures
        r@ == first_token(name@, del@),
{
    name.split(del).next().unwrap_or(name).to_string()
}

/// Relies on `slice::sort` over `String`, which orders by bytes, and for
/// UTF-8 that is the order of the characters: the same strings, ascending.
#[verifier::external_body]
fn sort_strings(v: &mut Vec<String>)
    ensures
        final(v)@.len() == old(v)@.len(),
        string_views(final(v)@).to_set() == string_views(old(v)@).to_set(),
        string_views(old(v)@).no_duplicates() ==> string_views(final(v)@).no_duplicates(),
        forall|i: int, j: int| 0 <= i < j < final(v)@.len() ==> str_le(#[trigger] final(v)@[i]@, #[trigger] final(v)@[j]@),
{
    v.sort()
}

/// The genome key of a path name.
pub fn genome_key(name: &String, mode: &GroupMode) -> (r: String)
    ensures
        r@ == key_of(name@, *mode),
{
    match mode {
        GroupMode::NoMerge => name.clone(),
        GroupMode::SplitOn(d) => split_first(name.as_str(), d.as_str()),
    }
}

/// The genome key of each path, in path order.
pub open spec fn path_keys(paths: Seq<NPathView>, mode: GroupMode) -> Seq<Seq<char>> {
    paths.map_values(|p: NPathView| key_of(p.name, mode))
}

/// The positions whose key is `k`, ascending.
pub open spec fn members_with_key(keys: Seq<Seq<char>>, k: Seq<char>) -> Seq<usize>
    decreases keys.len(),
{
    if keys.len() == 0 {
        Seq::empty()
    } else {
        let prev = members_with_key(keys.drop_last(), k);
        if keys.last() == k {
            prev.push((keys.len() - 1) as usize)
        } else {
            prev
        }
    }
}

/// The keys, each once, in order of first occurrence.
pub open spec fn distinct_keys(keys: Seq<Seq<char>>) -> Seq<Seq<char>>
    decreases keys.len(),
{
    if keys.len() == 0 {
        Seq::empty()
    } else {
        let d = distinct_keys(keys.drop_last());
        if d.contains(keys.last()) {
            d
        } else {
            d.push(keys.last())
        }
    }
}

/// Each path name mapped to its genome key.
pub open spec fn genome_names(paths: Seq<NPathView>, mode: GroupMode) -> Map<Seq<char>, Seq<char>>
    decreases paths.len(),
{
    if paths.len() == 0 {
        Map::empty()
    } else {
        genome_names(paths.drop_last(), mode).insert(paths.last().name, key_of(paths.last().name, mode))
    }
}

/// `gs` is the grouping of positions by `keys`: one cluster per distinct
/// key, in ascending key order, each holding the positions of its key in
/// ascending order.
#[verifier::opaque]
pub open spec fn is_grouping(gs: Seq<(Seq<char>, Seq<usize>)>, keys: Seq<Seq<char>>) -> bool {
    &&& gs.len() == distinct_keys(keys).len()
    &&& forall|a: int, b: int| 0 <= a < b < gs.len() ==> str_lt(#[trigger] gs[a].0, #[trigger] gs[b].0)
    &&& forall|a: int| 0 <= a < gs.len() ==> (#[trigger] gs[a]).1 == members_with_key(keys, gs[a].0) && keys.contains(gs[a].0)
    &&& forall|i: int| 0 <= i < keys.len() ==> exists|a: int| 0 <= a < gs.len() && (#[trigger] gs[a]).0 == #[trigger] keys[i]
}

/// The positions of a key are positions of that key, ascending, and all of them.
pub proof fn lemma_members_with_key(keys: Seq<Seq<char>>, k: Seq<char>)
    requires
        keys.len() <= usize::MAX,
    ensures
        forall|p: int| 0 <= p < members_with_key(keys, k).len() ==> (#[trigger] members_with_key(keys, k)[p]) < keys.len()
            && keys[members_with_key(keys, k)[p] as int] == k,
        forall|p: int, q: int| 0 <= p < q < members_with_key(keys, k).len()
            ==> #[trigger] members_with_key(keys, k)[p] < #[trigger] members_with_key(keys, k)[q],
        forall|i: int| 0 <= i < keys.len() && #[trigger] keys[i] == k
            ==> exists|p: int| 0 <= p < members_with_key(keys, k).len() && #[trigger] members_with_key(keys, k)[p] == i,
    decreases keys.len(),
{
    if keys.len() > 0 {
        let pre = keys.drop_last();
        lemma_members_with_key(pre, k);
        let m = members_with_key(keys, k);
        let mp = members_with_key(pre, k);
        assert forall|i: int| 0 <= i < keys.len() && #[trigger] keys[i] == k
            implies exists|p: int| 0 <= p < m.len() && #[trigger] m[p] == i by {
            if i < keys.len() - 1 {
                assert(pre[i] == k);
                let p = choose|p: int| 0 <= p < mp.len() && #[trigger] mp[p] == i;
                assert(m[p] == i);
            } else {
                assert(keys.last() == k);
                assert(m == mp.push((keys.len() - 1) as usize));
                assert(m[mp.len() as int] == i);
            }
        }
    }
}

/// The keys of the distinct-key list are the keys; without repeats it is the list itself.
pub proof fn lemma_distinct_keys(keys: Seq<Seq<char>>)
    ensures
        forall|k: Seq<char>| #[trigger] distinct_keys(keys).contains(k) <==> keys.contains(k),
        keys.no_duplicates() ==> distinct_keys(keys) == keys,
    decreases keys.len(),
{
    if keys.len() > 0 {
        let pre = keys.drop_last();
        lemma_distinct_keys(pre);
        let d = distinct_keys(pre);
        assert(distinct_keys(keys) == (if d.contains(keys.last()) {
            d
        } else {
            d.push(keys.last())
        }));
        assert forall|k: Seq<char>| #[trigger] distinct_keys(keys).contains(k) <==> keys.contains(k) by {
            let dk = distinct_keys(keys);
            if keys.contains(k) {
                let w = choose|w: int| 0 <= w < keys.len() && #[trigger] keys[w] == k;
                if w < keys.len() - 1 {
                    assert(pre[w] == k);
                    assert(d.contains(k));
                    let v = choose|v: int| 0 <= v < d.len() && #[trigger] d[v] == k;
                    assert(dk[v] == k);
                } else if d.contains(k) {
                    let v = choose|v: int| 0 <= v < d.len() && #[trigger] d[v] == k;
                    assert(dk[v] == k);
                } else {
                    assert(dk[d.len() as int] == k);
                }
            }
            if dk.contains(k) {
                let v = choose|v: int| 0 <= v < dk.len() && #[trigger] dk[v] == k;
                if v < d.len() {
                    assert(d[v] == k);
                    assert(d.contains(k));
                    assert(pre.contains(k));
                    let w = choose|w: int| 0 <= w < pre.len() && #[trigger] pre[w] == k;
                    assert(keys[w] == k);
                } else {
                    assert(keys[keys.len() - 1] == k);
                }
            }
        }
        if keys.no_duplicates() {
            assert(pre.no_duplicates());
            if pre.contains(keys.last()) {
                let w = choose|w: int| 0 <= w < pre.len() && #[trigger] pre[w] == keys.last();
                assert(keys[w] == keys[keys.len() - 1]);
            }
            assert(distinct_keys(keys) =~= keys);
        }
    }
}

/// Position `i` is a member of some cluster.
pub open spec fn in_some_cluster(gs: Seq<(Seq<char>, Seq<usize>)>, i: int) -> bool {
    exists|a: int, p: int| 0 <= a < gs.len() && 0 <= p < gs[a].1.len() && #[trigger] gs[a].1[p] == i
}

/// Every position lies in exactly one cluster, exactly once, and every
/// member of a cluster is a position.
pub proof fn lemma_grouping_partitions(gs: Seq<(Seq<char>, Seq<usize>)>, keys: Seq<Seq<char>>)
    requires
        is_grouping(gs, keys),
        keys.len() <= usize::MAX,
    ensures
        forall|i: int| 0 <= i < keys.len() ==> #[trigger] in_some_cluster(gs, i),
        forall|a: int, p: int| 0 <= a < gs.len() && 0 <= p < gs[a].1.len() ==> #[trigger] gs[a].1[p] < keys.len(),
        forall|a1: int, p1: int, a2: int, p2: int|
            0 <= a1 < gs.len() && 0 <= p1 < gs[a1].1.len() && 0 <= a2 < gs.len() && 0 <= p2 < gs[a2].1.len()
                && #[trigger] gs[a1].1[p1] == #[trigger] gs[a2].1[p2] ==> a1 == a2 && p1 == p2,
{
    assert forall|i: int| 0 <= i < keys.len() implies #[trigger] in_some_cluster(gs, i) by {
        lemma_position_covered(gs, keys, i);
    }
    assert forall|a: int, p: int| 0 <= a < gs.len() && 0 <= p < gs[a].1.len() implies #[trigger] gs[a].1[p] < keys.len() by {
        lemma_member_in_range(gs, keys, a, p);
    }
    assert forall|a1: int, p1: int, a2: int, p2: int|
        0 <= a1 < gs.len() && 0 <= p1 < gs[a1].1.len() && 0 <= a2 < gs.len() && 0 <= p2 < gs[a2].1.len()
            && #[trigger] gs[a1].1[p1] == #[trigger] gs[a2].1[p2] implies a1 == a2 && p1 == p2 by {
        lemma_member_unique(gs, keys, a1, p1, a2, p2);
    }
}

proof fn lemma_position_covered(gs: Seq<(Seq<char>, Seq<usize>)>, keys: Seq<Seq<char>>, i: int)
    requires
        is_grouping(gs, keys),
        keys.len() <= usize::MAX,
        0 <= i < keys.len(),
    ensures
        in_some_cluster(gs, i),
{
    reveal(is_grouping);
    let a = choose|a: int| 0 <= a < gs.len() && (#[trigger] gs[a]).0 == #[trigger] keys[i];
    lemma_members_with_key(keys, gs[a].0);
    let m = members_with_key(keys, gs[a].0);
    assert(gs[a].1 == m);
    let p = choose|p: int| 0 <= p < m.len() && #[trigger] m[p] == i;
    assert(gs[a].1[p] == i);
}

proof fn lemma_member_in_range(gs: Seq<(Seq<char>, Seq<usize>)>, keys: Seq<Seq<char>>, a: int, p: int)
    requires
        is_grouping(gs, keys),
        keys.len() <= usize::MAX,
        0 <= a < gs.len() && 0 <= p < gs[a].1.len(),
    ensures
        gs[a].1[p] < keys.len(),
{
    reveal(is_grouping);
    lemma_members_with_key(keys, gs[a].0);
    assert(gs[a].1 == members_with_key(keys, gs[a].0));
}

proof fn lemma_member_unique(gs: Seq<(Seq<char>, Seq<usize>)>, keys: Seq<Seq<char>>, a1: int, p1: int, a2: int, p2: int)
    requires
        is_grouping(gs, keys),
        keys.len() <= usize::MAX,
        0 <= a1 < gs.len() && 0 <= p1 < gs[a1].1.len() && 0 <= a2 < gs.len() && 0 <= p2 < gs[a2].1.len(),
        gs[a1].1[p1] == gs[a2].1[p2],
    ensures
        a1 == a2 && p1 == p2,
{
    reveal(is_grouping);
    lemma_members_with_key(keys, gs[a1].0);
    lemma_members_with_key(keys, gs[a2].0);
    assert(gs[a1].1 == members_with_key(keys, gs[a1].0));
    assert(gs[a2].1 == members_with_key(keys, gs[a2].0));
    let i = gs[a1].1[p1] as int;
    assert(keys[i] == gs[a1].0);
    assert(keys[i] == gs[a2].0);
    if a1 < a2 {
        assert(str_lt(gs[a1].0, gs[a2].0));
        let w = choose|w: int| differs_below(gs[a1].0, gs[a2].0, w);
        assert(false);
    } else if a2 < a1 {
        assert(str_lt(gs[a2].0, gs[a1].0));
        let w = choose|w: int| differs_below(gs[a2].0, gs[a1].0, w);
        assert(false);
    }
    if p1 < p2 {
        assert(gs[a1].1[p1] < gs[a1].1[p2]);
    } else if p2 < p1 {
        assert(gs[a1].1[p2] < gs[a1].1[p1]);
    }
}

/// The mapping holds an entry for each path name, and only for those, and
/// sends each name to the genome key of its path.
pub proof fn lemma_genome_names_cover(paths: Seq<NPathView>, mode: GroupMode)
    ensures
        forall|i: int| 0 <= i < paths.len() ==> genome_names(paths, mode).contains_key(#[trigger] paths[i].name)
            && genome_names(paths, mode)[paths[i].name] == key_of(paths[i].name, mode),
        forall|n: Seq<char>| #[trigger] genome_names(paths, mode).contains_key(n) ==> exists|i: int| 0 <= i < paths.len() && #[trigger] paths[i].name == n,
    decreases paths.len(),
{
    if paths.len() > 0 {
        let pre = paths.drop_last();
        lemma_genome_names_cover(pre, mode);
        assert forall|i: int| 0 <= i < paths.len() implies genome_names(paths, mode).contains_key(#[trigger] paths[i].name)
            && genome_names(paths, mode)[paths[i].name] == key_of(paths[i].name, mode) by {
            if i < paths.len() - 1 {
                assert(pre[i] == paths[i]);
            }
        }
        assert forall|n: Seq<char>| #[trigger] genome_names(paths, mode).contains_key(n) implies exists|i: int| 0 <= i < paths.len() && #[trigger] paths[i].name == n by {
            if n != paths.last().name {
                assert(genome_names(pre, mode).contains_key(n));
                let i = choose|i: int| 0 <= i < pre.len() && #[trigger] pre[i].name == n;
                assert(pre[i] == paths[i]);
                assert(paths[i].name == n);
            } else {
                assert(paths[paths.len() - 1].name == n);
            }
        }
    }
}

/// Without merging, and with distinct path names, there are as many
/// clusters as paths, each holding one path keyed by that path's name, and
/// the mapping sends each name to itself.
pub proof fn lemma_no_merge_singletons(paths: Seq<NPathView>, gs: Seq<(Seq<char>, Seq<usize>)>)
    requires
        is_grouping(gs, path_keys(paths, GroupMode::NoMerge)),
        paths.len() <= usize::MAX,
        forall|i: int, j: int| 0 <= i < j < paths.len() ==> #[trigger] paths[i].name != #[trigger] paths[j].name,
    ensures
        gs.len() == paths.len(),
        forall|a: int| 0 <= a < gs.len() ==> (#[trigger] gs[a]).1.len() == 1 && gs[a].1[0] < paths.len()
            && paths[gs[a].1[0] as int].name == gs[a].0,
        forall|i: int| 0 <= i < paths.len() ==> genome_names(paths, GroupMode::NoMerge)[#[trigger] paths[i].name] == paths[i].name,
{
    reveal(is_grouping);
    let keys = path_keys(paths, GroupMode::NoMerge);
    assert forall|i: int| 0 <= i < keys.len() implies #[trigger] keys[i] == paths[i].name by {}
    assert(keys.no_duplicates()) by {
        assert forall|i: int, j: int| 0 <= i < keys.len() && 0 <= j < keys.len() && i != j implies keys[i] != keys[j] by {
            if i < j {
                assert(paths[i].name != paths[j].name);
            } else {
                assert(paths[j].name != paths[i].name);
            }
        }
    }
    lemma_distinct_keys(keys);
    assert forall|a: int| 0 <= a < gs.len() implies (#[trigger] gs[a]).1.len() == 1 && gs[a].1[0] < paths.len()
        && paths[gs[a].1[0] as int].name == gs[a].0 by {
        let k = gs[a].0;
        lemma_members_with_key(keys, k);
        let m = members_with_key(keys, k);
        assert(gs[a].1 == m);
        let i = choose|i: int| 0 <= i < keys.len() && #[trigger] keys[i] == k;
        let p = choose|p: int| 0 <= p < m.len() && #[trigger] m[p] == i;
        assert forall|q: int| 0 <= q < m.len() implies #[trigger] m[q] == i by {
            assert(keys[m[q] as int] == k);
        }
        if m.len() > 1 {
            assert(m[0] < m[1]);
        }
    }
    lemma_genome_names_cover(paths, GroupMode::NoMerge);
}

/// The genomes of a graph: clusters of path positions by key, and the key
/// of each path name.
pub struct GraphWrapper {
    pub genomes: Vec<(String, Vec<usize>)>,
    pub path2genome: GenomeMap,
}

pub open spec fn genome_views(g: Seq<(String, Vec<usize>)>) -> Seq<(Seq<char>, Seq<usize>)> {
    g.map_values(|e: (String, Vec<usize>)| (e.0@, e.1@))
}

impl GraphWrapper {
    pub open spec fn clusters(&self) -> Seq<(Seq<char>, Seq<usize>)> {
        genome_views(self.genomes@)
    }

    pub open spec fn names(&self) -> Map<Seq<char>, Seq<char>> {
        genome_map_contents(self.path2genome)
    }

    /// No genomes.
    pub fn new() -> (r: Self)
        ensures
            r.clusters().len() == 0,
            r.names().dom() == Set::<Seq<char>>::empty(),
    {
        GraphWrapper { genomes: Vec::new(), path2genome: GenomeMap::new() }
    }

    /// Replaces the genomes by the grouping of the graph's paths under `mode`.
    pub fn from_ngfa(&mut self, graph: &NGfa, mode: &GroupMode)
        ensures
            is_grouping(final(self).clusters(), path_keys(graph.path_views(), *mode)),
            final(self).names() == genome_names(graph.path_views(), *mode),
    {
        let ghost pv = graph.path_views();
        let ghost keys = path_keys(pv, *mode);
        let mut h = KeyGroups::new();
        let mut all: Vec<String> = Vec::new();
        let mut names = GenomeMap::new();
        let mut i: usize = 0;
        proof {
            assert(keys.subrange(0, 0) =~= Seq::<Seq<char>>::empty());
            assert(pv.subrange(0, 0) =~= Seq::<NPathView>::empty());
            assert(string_views(all@) =~= Seq::<Seq<char>>::empty());
            assert(genome_map_contents(names) =~= Map::empty());
        }
        while i < graph.paths.len()
            invariant
                0 <= i <= graph.paths.len(),
                pv == graph.path_views(),
                keys == path_keys(pv, *mode),
                string_views(all@) == distinct_keys(keys.subrange(0, i as int)),
                string_views(all@).no_duplicates(),
                forall|k: Seq<char>| #[trigger] key_groups_contents(h).contains_key(k) <==> string_views(all@).contains(k),
                forall|k: Seq<char>| #[trigger] key_groups_contents(h).contains_key(k) <==> keys.subrange(0, i as int).contains(k),
                forall|k: Seq<char>| #[trigger] key_groups_contents(h).contains_key(k) ==> key_groups_contents(h)[k] == members_with_key(keys.subrange(0, i as int), k),
                forall|k: Seq<char>| !key_groups_contents(h).contains_key(k) ==> #[trigger] members_with_key(keys.subrange(0, i as int), k) == Seq::<usize>::empty(),
                genome_map_contents(names) == genome_names(pv.subrange(0, i as int), *mode),
            decreases graph.paths.len() - i,
        {
            let name = &graph.paths[i].name;
            let key = genome_key(name, mode);
            let ghost kv = key@;
            let ghost pre = keys.subrange(0, i as int);
            let ghost next = keys.subrange(0, i as int + 1);
            proof {
                assert(pv[i as int] == graph.paths@[i as int]@);
                assert(keys[i as int] == kv);
                assert(next.drop_last() =~= pre);
                assert(next =~= pre.push(kv));
                assert(pv.subrange(0, i as int + 1).drop_last() =~= pv.subrange(0, i as int));
            }
            let ghost old_h = key_groups_contents(h);
            let ghost old_all = string_views(all@);
            if !h.contains_key(&key) {
                all.push(key.clone());
                proof {
                    assert(string_views(all@) =~= old_all.push(kv));
                }
            }
            h.append(key.clone(), i);
            names.insert(name.clone(), key);
            proof {
                assert forall|k: Seq<char>| #[trigger] members_with_key(next, k) == (if k == kv {
                    members_with_key(pre, k).push(i)
                } else {
                    members_with_key(pre, k)
                }) by {
                    assert(next.last() == kv);
                    assert(next.len() - 1 == i);
                }
                assert forall|k: Seq<char>| #[trigger] key_groups_contents(h).contains_key(k) <==> next.contains(k) by {
                    if pre.contains(k) {
                        let w = choose|w: int| 0 <= w < pre.len() && #[trigger] pre[w] == k;
                        assert(next[w] == k);
                    }
                    if next.contains(k) && k != kv {
                        let w = choose|w: int| 0 <= w < next.len() && #[trigger] next[w] == k;
                        assert(pre[w] == k);
                    }
                    if k == kv {
                        assert(next[i as int] == k);
                    }
                }
                assert forall|k: Seq<char>| #[trigger] key_groups_contents(h).contains_key(k) <==> string_views(all@).contains(k) by {
                    if k == kv && !old_h.contains_key(k) {
                        assert(string_views(all@)[old_all.len() as int] == k);
                    }
                    if string_views(all@).contains(k) && !old_all.contains(k) {
                        let w = choose|w: int| 0 <= w < string_views(all@).len() && #[trigger] string_views(all@)[w] == k;
                        assert(w == old_all.len());
                    }
                    if old_all.contains(k) {
                        let w = choose|w: int| 0 <= w < old_all.len() && #[trigger] old_all[w] == k;
                        assert(string_views(all@)[w] == k);
                    }
                }
            }
            i += 1;
        }
        proof {
            assert(keys.subrange(0, keys.len() as int) =~= keys);
            assert(pv.subrange(0, pv.len() as int) =~= pv);
        }
        let ghost unsorted = string_views(all@);
        sort_strings(&mut all);
        let mut genomes: Vec<(String, Vec<usize>)> = Vec::new();
        let mut j: usize = 0;
        while j < all.len()
            invariant
                0 <= j <= all.len(),
                all@.len() == unsorted.len(),
                unsorted == distinct_keys(keys),
                string_views(all@).to_set() == unsorted.to_set(),
                string_views(all@).no_duplicates(),
                forall|a: int, b: int| 0 <= a < b < all@.len() ==> str_le(#[trigger] all@[a]@, #[trigger] all@[b]@),
                forall|k: Seq<char>| #[trigger] key_groups_contents(h).contains_key(k) <==> unsorted.contains(k),
                forall|k: Seq<char>| #[trigger] key_groups_contents(h).contains_key(k) <==> keys.contains(k),
                forall|k: Seq<char>| #[trigger] key_groups_contents(h).contains_key(k) ==> key_groups_contents(h)[k] == members_with_key(keys, k),
                genomes@.len() == j,
                forall|a: int| 0 <= a < j ==> #[trigger] genome_views(genomes@)[a] == (all@[a]@, members_with_key(keys, all@[a]@)),
            decreases all.len() - j,
        {
            proof {
                assert(string_views(all@).to_set().contains(all@[j as int]@)) by {
                    assert(string_views(all@)[j as int] == all@[j as int]@);
                }
            }
            match h.members(&all[j]) {
                Some(m) => {
                    let ghost old_g = genome_views(genomes@);
                    genomes.push((all[j].clone(), m));
                    proof {
                        assert(genome_views(genomes@) =~= old_g.push((all@[j as int]@, members_with_key(keys, all@[j as int]@))));
                    }
                },
                None => {
                    proof {
                        assert(false);
                    }
                },
            }
            j += 1;
        }
        proof {
            reveal(is_grouping);
            let gs = genome_views(genomes@);
            assert forall|a: int, b: int| 0 <= a < b < gs.len() implies str_lt(#[trigger] gs[a].0, #[trigger] gs[b].0) by {
                assert(gs[a].0 == all@[a]@ && gs[b].0 == all@[b]@);
                assert(str_le(all@[a]@, all@[b]@));
                assert(string_views(all@)[a] != string_views(all@)[b]);
            }
            assert forall|a: int| 0 <= a < gs.len() implies (#[trigger] gs[a]).1 == members_with_key(keys, gs[a].0) && keys.contains(gs[a].0) by {
                assert(string_views(all@)[a] == all@[a]@);
                assert(string_views(all@).to_set().contains(all@[a]@));
                assert(key_groups_contents(h).contains_key(all@[a]@));
            }
            assert forall|x: int| 0 <= x < keys.len() implies exists|a: int| 0 <= a < gs.len() && (#[trigger] gs[a]).0 == #[trigger] keys[x] by {
                assert(keys.contains(keys[x]));
                assert(key_groups_contents(h).contains_key(keys[x]));
                assert(unsorted.to_set().contains(keys[x]));
                assert(string_views(all@).contains(keys[x]));
                let a = choose|a: int| 0 <= a < string_views(all@).len() && #[trigger] string_views(all@)[a] == keys[x];
                assert(gs[a].0 == keys[x]);
            }
        }
        self.genomes = genomes;
        self.path2genome = names;
    }

    /// The genome key of the named path, if the grouping holds that name.
    pub fn genome_of(&self, name: &str) -> (r: Option<String>)
        ensures
            match r {
                Some(k) => self.names().contains_key(name@) && k@ == self.names()[name@],
                None => !self.names().contains_key(name@),
            },
    {
        self.path2genome.get(name)
    }

    /// The number of path names in the grouping.
    pub fn mapped_names(&self) -> (r: usize)
        ensures
            r == self.names().len(),
    {
        self.path2genome.len()
    }
}

} // verus!
