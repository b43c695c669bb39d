//! The graph container and its ingestion from lines of text.
use vstd::prelude::*;
use crate::text::parse_u32_spec;
use crate::record::{
    convert_edge, convert_node, convert_path, edge_convertible, parse_id, path_error, parse_line, parse_line_spec,
    LineError, NEdge, NNode, NNodeView, NPath, NPathView, Record, RecordView, TextEdge,
    TextNode, TextPath,
};
use crate::text::chars_of;
use crate::tables::{node_table_contents, path_index_contents, shrink_vec, NodeTable, PathIndex};

verus! {

/// Why ingestion failed.
#[derive(Debug, Clone, Copy, PartialEq, Eq, Structural)]
pub enum GfaError {
    /// The input file does not exist.
    NotFound,
    /// Reading the input failed.
    IoFailure,
    /// Line `line` (counted from 1) could not be decoded. Where records
    /// are handed over instead of lines, `line` counts them from 1: the
    /// segments first, then the links, then the paths.
    MalformedRecord { line: usize, reason: LineError },
}

/// A graph whose node ids are integers: nodes by id, links and paths in
/// input order, and the index of each path by its name.
pub struct NGfa {
    pub nodes: NodeTable,
    pub paths: Vec<NPath>,
    pub edges: Vec<NEdge>,
    pub path2id: PathIndex,
}

/// What a graph holds, and the ids whose segment replaced an earlier one.
pub struct GraphModel {
    pub nodes: Map<u32, NNodeView>,
    pub edges: Seq<NEdge>,
    pub paths: Seq<NPathView>,
    pub duplicates: Seq<u32>,
}

pub open spec fn empty_model() -> GraphModel {
    GraphModel { nodes: Map::empty(), edges: Seq::empty(), paths: Seq::empty(), duplicates: Seq::empty() }
}

/// The graph after one more record: a segment replaces any node of its id.
pub open spec fn apply_record(g: GraphModel, r: RecordView) -> GraphModel {
    match r {
        RecordView::Segment(n) => GraphModel {
            nodes: g.nodes.insert(n.id, n),
            duplicates: if g.nodes.contains_key(n.id) { g.duplicates.push(n.id) } else { g.duplicates },
            ..g
        },
        RecordView::Link(e) => GraphModel { edges: g.edges.push(e), ..g },
        RecordView::Path(p) => GraphModel { paths: g.paths.push(p), ..g },
        RecordView::Ignored => g,
    }
}

/// The graph that the lines describe, or the first line that cannot be
/// decoded (counted from 1) and why.
pub open spec fn ingest_spec(lines: Seq<Seq<char>>, keep_seq: bool) -> Result<GraphModel, (int, LineError)>
    decreases lines.len(),
{
    if lines.len() == 0 {
        Ok(empty_model())
    } else {
        match ingest_spec(lines.drop_last(), keep_seq) {
            Err(e) => Err(e),
            Ok(g) => match parse_line_spec(lines.last(), keep_seq) {
                Err(e) => Err((lines.len() as int, e)),
                Ok(r) => Ok(apply_record(g, r)),
            },
        }
    }
}

/// Each path name mapped to the position of the last path of that name.
pub open spec fn name_index(paths: Seq<NPathView>) -> Map<Seq<char>, usize>
    decreases paths.len(),
{
    if paths.len() == 0 {
        Map::empty()
    } else {
        name_index(paths.drop_last()).insert(paths.last().name, (paths.len() - 1) as usize)
    }
}

/// The nodes that text-keyed segments convert to, entered in order, or
/// `None` where an id does not convert.
pub open spec fn converted_nodes(ns: Seq<TextNode>) -> Option<Map<u32, NNodeView>>
    decreases ns.len(),
{
    if ns.len() == 0 {
        Some(Map::empty())
    } else {
        match (converted_nodes(ns.drop_last()), convert_node(ns.last())) {
            (Some(m), Some(n)) => Some(m.insert(n.id, n)),
            _ => None,
        }
    }
}

/// Why record `k` (counted from 0: segments, then links, then paths) of
/// those handed over with text ids does not convert, if it does not.
pub open spec fn record_error(ns: Seq<TextNode>, es: Seq<TextEdge>, ps: Seq<TextPath>, k: int) -> Option<LineError> {
    if k < ns.len() {
        if convert_node(ns[k]) is None { Some(LineError::BadNumber) } else { None }
    } else if k < ns.len() + es.len() {
        if edge_convertible(es[k - ns.len()]) { None } else { Some(LineError::BadNumber) }
    } else {
        path_error(ps[k - ns.len() - es.len()])
    }
}

pub open spec fn line_views(lines: Seq<String>) -> Seq<Seq<char>> {
    lines.map_values(|l: String| l@)
}

pub open spec fn cleared(n: NNodeView) -> NNodeView {
    NNodeView { seq: Seq::empty(), ..n }
}

proof fn lemma_ingest_error_stays(lines: Seq<Seq<char>>, keep_seq: bool, k: int, m: int)
    requires
        0 <= k <= m <= lines.len(),
        ingest_spec(lines.subrange(0, k), keep_seq) is Err,
    ensures
        ingest_spec(lines.subrange(0, m), keep_seq) == ingest_spec(lines.subrange(0, k), keep_seq),
    decreases m - k,
{
    if m > k {
        lemma_ingest_error_stays(lines, keep_seq, k, m - 1);
        assert(lines.subrange(0, m).drop_last() =~= lines.subrange(0, m - 1));
    }
}

/// Ingestion in progress: lines are fed one at a time, and the graph is
/// handed out only once the caller has fed them all.
pub struct GraphBuilder {
    graph: NGfa,
    duplicates: Vec<u32>,
    lines_read: usize,
    keep_seq: bool,
    seen: Ghost<Seq<Seq<char>>>,
}

impl GraphBuilder {
    /// The lines fed so far.
    pub closed spec fn lines(&self) -> Seq<Seq<char>> {
        self.seen@
    }

    pub closed spec fn keeps_seq(&self) -> bool {
        self.keep_seq
    }

    /// The lines fed so far decode, and the graph being built is the one
    /// they describe.
    pub closed spec fn wf(&self) -> bool {
        &&& ingest_spec(self.seen@, self.keep_seq) is Ok
        &&& self.graph.models(ingest_spec(self.seen@, self.keep_seq)->Ok_0)
        &&& self.duplicates@ == ingest_spec(self.seen@, self.keep_seq)->Ok_0.duplicates
        &&& self.graph.steps_parallel()
        &&& self.lines_read == self.seen@.len()
    }

    /// Starts an ingestion; with `keep_seq` false segment sequences are
    /// not stored, only their lengths.
    pub fn new(keep_seq: bool) -> (r: Self)
        ensures
            r.wf(),
            r.lines() == Seq::<Seq<char>>::empty(),
            r.keeps_seq() == keep_seq,
    {
        GraphBuilder { graph: NGfa::new(), duplicates: Vec::new(), lines_read: 0, keep_seq, seen: Ghost(Seq::empty()) }
    }

    /// Feeds the next line. It fails when the line cannot be decoded, with
    /// the line's number counted from 1; the builder is then spent.
    pub fn push_line(&mut self, line: &str) -> (r: Result<(), GfaError>)
        requires
            old(self).wf(),
            old(self).lines().len() < usize::MAX,
        ensures
            final(self).keeps_seq() == old(self).keeps_seq(),
            match ingest_spec(old(self).lines().push(line@), old(self).keeps_seq()) {
                Ok(_) => r is Ok && final(self).wf() && final(self).lines() == old(self).lines().push(line@),
                Err((ln, e)) => r == Err::<(), GfaError>(GfaError::MalformedRecord { line: ln as usize, reason: e }),
            },
    {
        let ghost pre = self.seen@;
        let ghost next = pre.push(line@);
        proof {
            assert(next.drop_last() =~= pre);
        }
        let keep_seq = self.keep_seq;
        match parse_line(line, keep_seq) {
            Err(e) => {
                return Err(GfaError::MalformedRecord { line: self.lines_read + 1, reason: e });
            },
            Ok(Record::Segment(n)) => {
                let id = n.id;
                if self.graph.nodes.contains_key(id) {
                    self.duplicates.push(id);
                }
                let ghost nv = n@;
                let ghost old_nodes = node_table_contents(self.graph.nodes);
                self.graph.nodes.insert(id, n);
                proof {
                    assert(self.graph.node_view() =~= old_nodes.map_values(|n: NNode| n@).insert(id, nv));
                }
            },
            Ok(Record::Link(e)) => {
                self.graph.edges.push(e);
            },
            Ok(Record::Path(p)) => {
                let ghost pv = p@;
                let ghost old_paths = self.graph.paths@;
                let idx = self.graph.paths.len();
                self.graph.path2id.insert(p.name.clone(), idx);
                self.graph.paths.push(p);
                proof {
                    assert(self.graph.path_views() =~= old_paths.map_values(|p: NPath| p@).push(pv));
                    assert(self.graph.path_views().drop_last() =~= old_paths.map_values(|p: NPath| p@));
                    assert forall|j: int| 0 <= j < self.graph.paths@.len() implies (#[trigger] self.graph.paths@[j]).dir@.len() == self.graph.paths@[j].nodes@.len() by {
                        if j < old_paths.len() {
                            assert(self.graph.paths@[j] == old_paths[j]);
                        }
                    }
                }
            },
            Ok(Record::Ignored) => {},
        }
        self.lines_read = self.lines_read + 1;
        self.seen = Ghost(next);
        Ok(())
    }

    /// Ends the ingestion: the graph that the lines describe, compacted, and
    /// the ids of the segments that replaced an earlier segment of the same
    /// id, one entry per such line.
    pub fn finish(self) -> (r: (NGfa, Vec<u32>))
        requires
            self.wf(),
        ensures
            r.0.models(ingest_spec(self.lines(), self.keeps_seq())->Ok_0),
            r.0.steps_parallel(),
            r.1@ == ingest_spec(self.lines(), self.keeps_seq())->Ok_0.duplicates,
    {
        let mut g = self.graph;
        let mut dups = self.duplicates;
        g.nodes.shrink_to_fit();
        shrink_vec(&mut g.edges);
        shrink_vec(&mut g.paths);
        shrink_vec(&mut dups);
        (g, dups)
    }
}

/// The segment that a line holds, if it holds one.
pub open spec fn segment_of(line: Seq<char>, keep_seq: bool) -> Option<NNodeView> {
    match parse_line_spec(line, keep_seq) {
        Ok(RecordView::Segment(n)) => Some(n),
        _ => None,
    }
}

/// The last segment of the given id among the lines.
pub open spec fn last_segment(lines: Seq<Seq<char>>, keep_seq: bool, id: u32) -> Option<NNodeView>
    decreases lines.len(),
{
    if lines.len() == 0 {
        None
    } else {
        match segment_of(lines.last(), keep_seq) {
            Some(n) => if n.id == id {
                Some(n)
            } else {
                last_segment(lines.drop_last(), keep_seq, id)
            },
            None => last_segment(lines.drop_last(), keep_seq, id),
        }
    }
}

/// The ids that occur in a segment line.
pub open spec fn segment_ids(lines: Seq<Seq<char>>, keep_seq: bool) -> Set<u32> {
    Set::new(|id: u32| last_segment(lines, keep_seq, id) is Some)
}

/// Every path read from lines has as many orientations as node ids.
pub proof fn lemma_ingested_paths_parallel(lines: Seq<Seq<char>>, keep_seq: bool)
    requires
        ingest_spec(lines, keep_seq) is Ok,
    ensures
        forall|i: int| 0 <= i < ingest_spec(lines, keep_seq)->Ok_0.paths.len()
            ==> (#[trigger] ingest_spec(lines, keep_seq)->Ok_0.paths[i]).dir.len() == ingest_spec(lines, keep_seq)->Ok_0.paths[i].nodes.len(),
    decreases lines.len(),
{
    if lines.len() > 0 {
        lemma_ingested_paths_parallel(lines.drop_last(), keep_seq);
    }
}

/// After ingestion there is one node for each distinct segment id, and it
/// is the last segment line of that id that gives its length and sequence.
pub proof fn lemma_nodes_from_last_segments(lines: Seq<Seq<char>>, keep_seq: bool)
    requires
        ingest_spec(lines, keep_seq) is Ok,
    ensures
        forall|id: u32| #[trigger] ingest_spec(lines, keep_seq)->Ok_0.nodes.contains_key(id) <==> last_segment(lines, keep_seq, id) is Some,
        forall|id: u32| #[trigger] ingest_spec(lines, keep_seq)->Ok_0.nodes.contains_key(id)
            ==> last_segment(lines, keep_seq, id) == Some(ingest_spec(lines, keep_seq)->Ok_0.nodes[id]),
        ingest_spec(lines, keep_seq)->Ok_0.nodes.dom() == segment_ids(lines, keep_seq),
        ingest_spec(lines, keep_seq)->Ok_0.nodes.len() == segment_ids(lines, keep_seq).len(),
    decreases lines.len(),
{
    if lines.len() > 0 {
        lemma_nodes_from_last_segments(lines.drop_last(), keep_seq);
    }
    assert(ingest_spec(lines, keep_seq)->Ok_0.nodes.dom() =~= segment_ids(lines, keep_seq));
}

impl NGfa {
    pub open spec fn node_view(&self) -> Map<u32, NNodeView> {
        node_table_contents(self.nodes).map_values(|n: NNode| n@)
    }

    pub open spec fn path_views(&self) -> Seq<NPathView> {
        self.paths@.map_values(|p: NPath| p@)
    }

    pub open spec fn name_view(&self) -> Map<Seq<char>, usize> {
        path_index_contents(self.path2id)
    }

    /// The graph holds exactly what `g` describes.
    pub open spec fn models(&self, g: GraphModel) -> bool {
        &&& self.node_view() == g.nodes
        &&& self.edges@ == g.edges
        &&& self.path_views() == g.paths
        &&& self.name_view() == name_index(g.paths)
    }

    /// Every path has as many orientations as node ids.
    pub open spec fn steps_parallel(&self) -> bool {
        forall|i: int| 0 <= i < self.paths@.len() ==> (#[trigger] self.paths@[i]).dir@.len() == self.paths@[i].nodes@.len()
    }

    /// An empty graph.
    pub fn new() -> (r: Self)
        ensures
            r.models(empty_model()),
    {
        let r = NGfa { nodes: NodeTable::new(), paths: Vec::new(), edges: Vec::new(), path2id: PathIndex::new() };
        proof {
            assert(r.node_view() =~= Map::empty());
            assert(r.path_views() =~= Seq::empty());
            assert(r.name_view() =~= Map::empty());
        }
        r
    }

    /// Replaces the graph by the one that `lines` describe. On success it
    /// returns the ids of the segments that replaced an earlier segment of
    /// the same id, one entry per such line; on failure the graph is left
    /// as it was.
    pub fn from_lines(&mut self, lines: &Vec<String>, keep_seq: bool) -> (r: Result<Vec<u32>, GfaError>)
        ensures
            match ingest_spec(line_views(lines@), keep_seq) {
                Ok(g) => r matches Ok(d) && d@ == g.duplicates && final(self).models(g) && final(self).steps_parallel(),
                Err((ln, e)) => r == Err::<Vec<u32>, GfaError>(GfaError::MalformedRecord { line: ln as usize, reason: e })
                    && *final(self) == *old(self),
            },
    {
        let ghost lv = line_views(lines@);
        let mut b = GraphBuilder::new(keep_seq);
        let mut i: usize = 0;
        proof {
            assert(lv.subrange(0, 0) =~= Seq::<Seq<char>>::empty());
        }
        while i < lines.len()
            invariant
                0 <= i <= lines.len(),
                lv == line_views(lines@),
                b.wf(),
                b.lines() == lv.subrange(0, i as int),
                b.keeps_seq() == keep_seq,
                *self == *old(self),
            decreases lines.len() - i,
        {
            proof {
                assert(lv.subrange(0, i as int).push(lines@[i as int]@) =~= lv.subrange(0, i as int + 1));
            }
            match b.push_line(lines[i].as_str()) {
                Err(e) => {
                    proof {
                        lemma_ingest_error_stays(lv, keep_seq, i + 1, lv.len() as int);
                        assert(lv.subrange(0, lv.len() as int) =~= lv);
                    }
                    return Err(e);
                },
                Ok(()) => {},
            }
            i += 1;
        }
        proof {
            assert(lv.subrange(0, lv.len() as int) =~= lv);
        }
        let (g, dups) = b.finish();
        *self = g;
        Ok(dups)
    }

    /// Clears the sequence of every node; ids and lengths stay, and so do
    /// the links and paths.
    pub fn remove_seq(&mut self)
        ensures
            final(self).node_view().dom() == old(self).node_view().dom(),
            forall|k: u32| #[trigger] old(self).node_view().contains_key(k) ==> final(self).node_view()[k] == cleared(old(self).node_view()[k]),
            final(self).edges@ == old(self).edges@,
            final(self).paths@ == old(self).paths@,
            final(self).name_view() == old(self).name_view(),
    {
        let keys = self.nodes.keys();
        let ghost before = self.node_view();
        let mut j: usize = 0;
        while j < keys.len()
            invariant
                0 <= j <= keys.len(),
                keys@.to_set() == before.dom(),
                self.node_view().dom() == before.dom(),
                forall|k: u32| #[trigger] before.contains_key(k) ==> self.node_view()[k] == (if keys@.subrange(0, j as int).contains(k) {
                    cleared(before[k])
                } else {
                    before[k]
                }),
                self.edges@ == old(self).edges@,
                self.paths@ == old(self).paths@,
                self.name_view() == old(self).name_view(),
            decreases keys.len() - j,
        {
            let k = keys[j];
            proof {
                assert(keys@.to_set().contains(k));
                assert(keys@.subrange(0, j as int + 1) =~= keys@.subrange(0, j as int).push(k));
            }
            let ghost old_nodes = node_table_contents(self.nodes);
            match self.nodes.get(k) {
                Some(n) => {
                    let cleared_node = NNode { id: n.id, len: n.len, seq: String::new() };
                    let ghost cv = cleared_node@;
                    self.nodes.insert(k, cleared_node);
                    proof {
                        assert(self.node_view() =~= old_nodes.map_values(|n: NNode| n@).insert(k, cv));
                        assert forall|k2: u32| #[trigger] before.contains_key(k2) implies self.node_view()[k2] == (if keys@.subrange(0, j as int + 1).contains(k2) {
                            cleared(before[k2])
                        } else {
                            before[k2]
                        }) by {
                            if k2 != k {
                                if keys@.subrange(0, j as int + 1).contains(k2) {
                                    let w = choose|w: int| 0 <= w < j + 1 && #[trigger] keys@.subrange(0, j as int + 1)[w] == k2;
                                    assert(keys@.subrange(0, j as int)[w] == k2);
                                }
                            } else {
                                assert(keys@.subrange(0, j as int + 1)[j as int] == k);
                            }
                        }
                    }
                },
                None => {
                    proof {
                        assert(node_table_contents(self.nodes).contains_key(k));
                    }
                },
            }
            j += 1;
        }
        proof {
            assert(keys@.subrange(0, keys@.len() as int) =~= keys@);
            assert forall|k: u32| #[trigger] before.contains_key(k) implies keys@.contains(k) by {
                assert(keys@.to_set().contains(k));
            }
            assert(self.node_view().dom() =~= before.dom());
        }
    }

    /// Replaces the graph by records whose ids are still text, converting
    /// every id. It fails on the first record that does not convert, with
    /// that record's position counted from 1 (segments, then links, then
    /// paths), and then leaves the graph as it was.
    pub fn from_graph(&mut self, nodes: &Vec<TextNode>, edges: &Vec<TextEdge>, paths: &Vec<TextPath>) -> (r: Result<(), GfaError>)
        requires
            nodes@.len() + edges@.len() + paths@.len() <= usize::MAX,
        ensures
            r is Ok <==> forall|k: int| 0 <= k < nodes@.len() + edges@.len() + paths@.len()
                ==> #[trigger] record_error(nodes@, edges@, paths@, k) is None,
            r is Ok ==> final(self).node_view() == converted_nodes(nodes@)->Some_0
                && final(self).edges@ == edges@.map_values(|e: TextEdge| convert_edge(e))
                && final(self).path_views() == paths@.map_values(|p: TextPath| convert_path(p))
                && final(self).name_view() == name_index(final(self).path_views()),
            r matches Err(GfaError::MalformedRecord { line, reason }) ==> 1 <= line <= nodes@.len() + edges@.len() + paths@.len()
                && record_error(nodes@, edges@, paths@, line - 1) == Some(reason)
                && forall|j: int| 0 <= j < line - 1 ==> #[trigger] record_error(nodes@, edges@, paths@, j) is None,
            r is Err ==> r->Err_0 is MalformedRecord && *final(self) == *old(self),
    {
        let ghost ns = nodes@;
        let ghost es = edges@;
        let ghost ps = paths@;
        let mut g = NGfa::new();
        let mut i: usize = 0;
        while i < nodes.len()
            invariant
                0 <= i <= nodes.len(),
                ns == nodes@ && es == edges@ && ps == paths@,
                converted_nodes(nodes@.subrange(0, i as int)) == Some(g.node_view()),
                forall|j: int| 0 <= j < i ==> #[trigger] record_error(ns, es, ps, j) is None,
                g.edges@.len() == 0,
                g.path_views() == Seq::<NPathView>::empty(),
                g.name_view() == name_index(Seq::<NPathView>::empty()),
            decreases nodes.len() - i,
        {
            let n = &nodes[i];
            let ghost next = nodes@.subrange(0, i as int + 1);
            proof {
                assert(next.drop_last() =~= nodes@.subrange(0, i as int));
            }
            match parse_id(&n.id) {
                None => {
                    proof {
                        assert(record_error(ns, es, ps, i as int) == Some(LineError::BadNumber));
                    }
                    return Err(GfaError::MalformedRecord { line: i + 1, reason: LineError::BadNumber });
                },
                Some(id) => {
                    let len = chars_of(n.seq.as_str()).len();
                    let node = NNode { id, len, seq: n.seq.clone() };
                    let ghost nv = node@;
                    let ghost old_nodes = node_table_contents(g.nodes);
                    g.nodes.insert(id, node);
                    proof {
                        assert(g.node_view() =~= old_nodes.map_values(|n: NNode| n@).insert(id, nv));
                    }
                },
            }
            i += 1;
        }
        proof {
            assert(nodes@.subrange(0, nodes@.len() as int) =~= nodes@);
        }
        let ghost node_map = g.node_view();
        let mut i: usize = 0;
        while i < edges.len()
            invariant
                0 <= i <= edges.len(),
                ns == nodes@ && es == edges@ && ps == paths@,
                nodes@.len() + edges@.len() + paths@.len() <= usize::MAX,
                g.node_view() == node_map,
                converted_nodes(ns) == Some(node_map),
                forall|j: int| 0 <= j < ns.len() + i ==> #[trigger] record_error(ns, es, ps, j) is None,
                g.edges@ == edges@.subrange(0, i as int).map_values(|e: TextEdge| convert_edge(e)),
                g.path_views() == Seq::<NPathView>::empty(),
                g.name_view() == name_index(Seq::<NPathView>::empty()),
            decreases edges.len() - i,
        {
            let e = &edges[i];
            match (parse_id(&e.from), parse_id(&e.to)) {
                (Some(from), Some(to)) => {
                    g.edges.push(NEdge { from, from_dir: e.from_dir, to, to_dir: e.to_dir });
                    proof {
                        assert(record_error(ns, es, ps, ns.len() + i) is None);
                        assert(edges@.subrange(0, i as int + 1) =~= edges@.subrange(0, i as int).push(edges@[i as int]));
                        assert(g.edges@ =~= edges@.subrange(0, i as int + 1).map_values(|e: TextEdge| convert_edge(e)));
                    }
                },
                _ => {
                    proof {
                        assert(record_error(ns, es, ps, ns.len() + i) == Some(LineError::BadNumber));
                    }
                    return Err(GfaError::MalformedRecord { line: nodes.len() + i + 1, reason: LineError::BadNumber });
                },
            }
            i += 1;
        }
        proof {
            assert(edges@.subrange(0, edges@.len() as int) =~= edges@);
        }
        let mut i: usize = 0;
        while i < paths.len()
            invariant
                0 <= i <= paths.len(),
                ns == nodes@ && es == edges@ && ps == paths@,
                nodes@.len() + edges@.len() + paths@.len() <= usize::MAX,
                g.node_view() == node_map,
                converted_nodes(ns) == Some(node_map),
                g.edges@ == edges@.map_values(|e: TextEdge| convert_edge(e)),
                forall|j: int| 0 <= j < ns.len() + es.len() + i ==> #[trigger] record_error(ns, es, ps, j) is None,
                g.path_views() == paths@.subrange(0, i as int).map_values(|p: TextPath| convert_path(p)),
                g.name_view() == name_index(g.path_views()),
            decreases paths.len() - i,
        {
            let p = &paths[i];
            let ghost k = ns.len() + es.len() + i;
            proof {
                assert(k - ns.len() - es.len() == i);
            }
            if p.dir.len() != p.nodes.len() {
                proof {
                    assert(record_error(ns, es, ps, k) == Some(LineError::UnevenSteps));
                }
                return Err(GfaError::MalformedRecord { line: nodes.len() + edges.len() + i + 1, reason: LineError::UnevenSteps });
            }
            let mut dir: Vec<bool> = Vec::new();
            let mut ids: Vec<u32> = Vec::new();
            let mut m: usize = 0;
            while m < p.nodes.len()
                invariant
                    0 <= m <= p.nodes.len(),
                    p.dir@.len() == p.nodes@.len(),
                    i < paths.len(),
                    p == paths@[i as int],
                    ns == nodes@ && es == edges@ && ps == paths@,
                    nodes@.len() + edges@.len() + paths@.len() <= usize::MAX,
                    k == ns.len() + es.len() + i,
                    forall|j: int| 0 <= j < k ==> #[trigger] record_error(ns, es, ps, j) is None,
                    forall|j: int| 0 <= j < m ==> parse_u32_spec((#[trigger] p.nodes@[j])@) is Some,
                    dir@ == p.dir@.subrange(0, m as int),
                    ids@ == p.nodes@.subrange(0, m as int).map_values(|s: String| crate::record::id_of(s)),
                decreases p.nodes.len() - m,
            {
                match parse_id(&p.nodes[m]) {
                    None => {
                        proof {
                            assert(parse_u32_spec(p.nodes@[m as int]@) is None);
                            assert(record_error(ns, es, ps, k) == Some(LineError::BadNumber));
                        }
                        return Err(GfaError::MalformedRecord { line: nodes.len() + edges.len() + i + 1, reason: LineError::BadNumber });
                    },
                    Some(id) => {
                        dir.push(p.dir[m]);
                        ids.push(id);
                        proof {
                            assert(dir@ =~= p.dir@.subrange(0, m as int + 1));
                            assert(p.nodes@.subrange(0, m as int + 1) =~= p.nodes@.subrange(0, m as int).push(p.nodes@[m as int]));
                            assert(ids@ =~= p.nodes@.subrange(0, m as int + 1).map_values(|s: String| crate::record::id_of(s)));
                        }
                    },
                }
                m += 1;
            }
            proof {
                assert(dir@ =~= p.dir@);
                assert(p.nodes@.subrange(0, p.nodes@.len() as int) =~= p.nodes@);
                assert(record_error(ns, es, ps, k) is None);
            }
            shrink_vec(&mut dir);
            shrink_vec(&mut ids);
            let np = NPath { name: p.name.clone(), dir, nodes: ids };
            let ghost pv = np@;
            let ghost old_views = g.path_views();
            let idx = g.paths.len();
            g.path2id.insert(p.name.clone(), idx);
            g.paths.push(np);
            proof {
                assert(g.path_views() =~= old_views.push(pv));
                assert(g.path_views().drop_last() =~= old_views);
                assert(paths@.subrange(0, i as int + 1) =~= paths@.subrange(0, i as int).push(paths@[i as int]));
                assert(g.path_views() =~= paths@.subrange(0, i as int + 1).map_values(|p: TextPath| convert_path(p)));
            }
            i += 1;
        }
        proof {
            assert(paths@.subrange(0, paths@.len() as int) =~= paths@);
        }
        g.nodes.shrink_to_fit();
        shrink_vec(&mut g.edges);
        shrink_vec(&mut g.paths);
        *self = g;
        Ok(())
    }

    /// The node of the given id, if any.
    pub fn node(&self, id: u32) -> (r: Option<&NNode>)
        ensures
            match r {
                Some(n) => self.node_view().contains_key(id) && n@ == self.node_view()[id],
                None => !self.node_view().contains_key(id),
            },
    {
        self.nodes.get(id)
    }

    /// The number of nodes.
    pub fn node_count(&self) -> (r: usize)
        ensures
            r == self.node_view().len(),
    {
        let r = self.nodes.len();
        proof {
            assert(self.node_view().dom() =~= node_table_contents(self.nodes).dom());
        }
        r
    }

    /// The position of the last path of the given name, if any.
    pub fn path_index(&self, name: &str) -> (r: Option<usize>)
        ensures
            match r {
                Some(i) => self.name_view().contains_key(name@) && i == self.name_view()[name@],
                None => !self.name_view().contains_key(name@),
            },
    {
        self.path2id.get(name)
    }
}

} // verus!
