//! The hash tables of the graph and of the genome grouping, and the
//! compaction of vectors.
//!
//! Each `hashbrown::HashMap` sits in a private field of a struct of its own:
//! the map's allocator parameter is bounded by a trait that hashbrown keeps
//! private, so the map type itself cannot be named in a declaration here.
//! A spec function names each table's entries, and every method states its
//! effect over those entries.
use vstd::prelude::*;
use crate::record::NNode;

verus! {

/// Relies on `Vec::shrink_to_fit`: the elements are unchanged.
#[verifier::external_body]
pub(crate) fn shrink_vec<T>(v: &mut Vec<T>)
    ensures
        final(v)@ == old(v)@,
{
    v.shrink_to_fit()
}

/// The nodes of a graph by id, held in a `hashbrown::HashMap`.
#[verifier::external_body]
pub struct NodeTable {
    map: hashbrown::HashMap<u32, NNode>,
}

/// The entries of a node table.
pub uninterp spec fn node_table_contents(t: NodeTable) -> Map<u32, NNode>;

impl NodeTable {
    /// Relies on `hashbrown::HashMap::new`: the map starts empty.
    #[verifier::external_body]
    pub(crate) fn new() -> (r: Self)
        ensures
            node_table_contents(r).dom() =~= Set::empty(),
    {
        NodeTable { map: hashbrown::HashMap::new() }
    }

    /// Relies on `hashbrown::HashMap::insert`: the key now maps to the node,
    /// any earlier entry for it replaced, the other entries unchanged.
    #[verifier::external_body]
    pub(crate) fn insert(&mut self, k: u32, v: NNode)
        ensures
            node_table_contents(*final(self)) == node_table_contents(*old(self)).insert(k, v),
    {
        self.map.insert(k, v);
    }

    /// Relies on `hashbrown::HashMap::contains_key`.
    #[verifier::external_body]
    pub(crate) fn contains_key(&self, k: u32) -> (r: bool)
        ensures
            r == node_table_contents(*self).contains_key(k),
    {
        self.map.contains_key(&k)
    }

    /// Relies on `hashbrown::HashMap::get`: the entry of the key, if any.
    #[verifier::external_body]
    pub(crate) fn get(&self, k: u32) -> (r: Option<&NNode>)
        ensures
            match r {
                Some(n) => node_table_contents(*self).contains_key(k) && *n == node_table_contents(*self)[k],
                None => !node_table_contents(*self).contains_key(k),
            },
    {
        self.map.get(&k)
    }

    /// Relies on `hashbrown::HashMap::len`: the number of entries.
    #[verifier::external_body]
    pub(crate) fn len(&self) -> (r: usize)
        ensures
            r == node_table_contents(*self).len(),
    {
        self.map.len()
    }

    /// Relies on `hashbrown::HashMap::keys`: every key once, in no fixed order.
    #[verifier::external_body]
    pub(crate) fn keys(&self) -> (r: Vec<u32>)
        ensures
            r@.to_set() == node_table_contents(*self).dom(),
            r@.no_duplicates(),
    {
        self.map.keys().copied().collect()
    }

    /// Relies on `hashbrown::HashMap::shrink_to_fit`: the entries are unchanged.
    #[verifier::external_body]
    pub(crate) fn shrink_to_fit(&mut self)
        ensures
            node_table_contents(*final(self)) == node_table_contents(*old(self)),
    {
        self.map.shrink_to_fit()
    }
}

/// The index of a path by its name, held in a `hashbrown::HashMap`.
#[verifier::external_body]
pub struct PathIndex {
    map: hashbrown::HashMap<String, usize>,
}

/// The entries of a path index, by the characters of the name.
pub uninterp spec fn path_index_contents(t: PathIndex) -> Map<Seq<char>, usize>;

impl PathIndex {
    /// Relies on `hashbrown::HashMap::new`: the map starts empty.
    #[verifier::external_body]
    pub(crate) fn new() -> (r: Self)
        ensures
            path_index_contents(r).dom() =~= Set::empty(),
    {
        PathIndex { map: hashbrown::HashMap::new() }
    }

    /// Relies on `hashbrown::HashMap::insert`: the name now maps to the
    /// index, the other entries unchanged.
    #[verifier::external_body]
    pub(crate) fn insert(&mut self, k: String, v: usize)
        ensures
            path_index_contents(*final(self)) == path_index_contents(*old(self)).insert(k@, v),
    {
        self.map.insert(k, v);
    }

    /// Relies on `hashbrown::HashMap::get`: the entry of the name, if any.
    #[verifier::external_body]
    pub(crate) fn get(&self, k: &str) -> (r: Option<usize>)
        ensures
            match r {
                Some(i) => path_index_contents(*self).contains_key(k@) && i == path_index_contents(*self)[k@],
                None => !path_index_contents(*self).contains_key(k@),
            },
    {
        self.map.get(k).copied()
    }
}

/// Path positions grouped by genome key, held in a `hashbrown::HashMap`.
#[verifier::external_body]
pub struct KeyGroups {
    map: hashbrown::HashMap<String, Vec<usize>>,
}

/// The entries of a key grouping, by the characters of the key.
pub uninterp spec fn key_groups_contents(t: KeyGroups) -> Map<Seq<char>, Seq<usize>>;

impl KeyGroups {
    /// Relies on `hashbrown::HashMap::new`: the map starts empty.
    #[verifier::external_body]
    pub(crate) fn new() -> (r: Self)
        ensures
            key_groups_contents(r).dom() =~= Set::empty(),
    {
        KeyGroups { map: hashbrown::HashMap::new() }
    }

    /// Relies on `hashbrown::HashMap::contains_key`.
    #[verifier::external_body]
    pub(crate) fn contains_key(&self, k: &String) -> (r: bool)
        ensures
            r == key_groups_contents(*self).contains_key(k@),
    {
        self.map.contains_key(k)
    }

    /// Relies on `hashbrown::HashMap::entry` and `Entry::or_default`: the
    /// position is appended to the key's list, which starts empty; the other
    /// entries are unchanged.
    #[verifier::external_body]
    pub(crate) fn append(&mut self, k: String, i: usize)
        ensures
            key_groups_contents(*final(self)) == key_groups_contents(*old(self)).insert(
                k@,
                if key_groups_contents(*old(self)).contains_key(k@) {
                    key_groups_contents(*old(self))[k@].push(i)
                } else {
                    seq![i]
                },
            ),
    {
        self.map.entry(k).or_default().push(i)
    }

    /// Relies on `hashbrown::HashMap::get`: a copy of the key's list, if any.
    #[verifier::external_body]
    pub(crate) fn members(&self, k: &String) -> (r: Option<Vec<usize>>)
        ensures
            match r {
                Some(v) => key_groups_contents(*self).contains_key(k@) && v@ == key_groups_contents(*self)[k@],
                None => !key_groups_contents(*self).contains_key(k@),
            },
    {
        self.map.get(k).cloned()
    }
}

/// The genome key of each path name, held in a `hashbrown::HashMap`.
#[verifier::external_body]
pub struct GenomeMap {
    map: hashbrown::HashMap<String, String>,
}

/// The entries of a genome map, by the characters of name and key.
pub uninterp spec fn genome_map_contents(t: GenomeMap) -> Map<Seq<char>, Seq<char>>;

impl GenomeMap {
    /// Relies on `hashbrown::HashMap::new`: the map starts empty.
    #[verifier::external_body]
    pub(crate) fn new() -> (r: Self)
        ensures
            genome_map_contents(r).dom() =~= Set::empty(),
    {
        GenomeMap { map: hashbrown::HashMap::new() }
    }

    /// Relies on `hashbrown::HashMap::insert`: the name now maps to the key,
    /// the other entries unchanged.
    #[verifier::external_body]
    pub(crate) fn insert(&mut self, k: String, v: String)
        ensures
            genome_map_contents(*final(self)) == genome_map_contents(*old(self)).insert(k@, v@),
    {
        self.map.insert(k, v);
    }

    /// Relies on `hashbrown::HashMap::get`: a copy of the name's key, if any.
    #[verifier::external_body]
    pub(crate) fn get(&self, k: &str) -> (r: Option<String>)
        ensures
            match r {
                Some(v) => genome_map_contents(*self).contains_key(k@) && v@ == genome_map_contents(*self)[k@],
                None => !genome_map_contents(*self).contains_key(k@),
            },
    {
        self.map.get(k).cloned()
    }

    /// Relies on `hashbrown::HashMap::len`: the number of entries.
    #[verifier::external_body]
    pub(crate) fn len(&self) -> (r: usize)
        ensures
            r == genome_map_contents(*self).len(),
    {
        self.map.len()
    }
}

} // verus!
