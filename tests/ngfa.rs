use ngfa::{
    parse_line, GfaError, GraphBuilder, GraphWrapper, GroupMode, LineError, NEdge, NGfa, Record, TextEdge, TextNode, TextPath,
};

fn lines(v: &[&str]) -> Vec<String> {
    v.iter().map(|s| s.to_string()).collect()
}

fn example() -> Vec<String> {
    lines(&[
        "S\t1\tACGT",
        "S\t2\tGGTT",
        "L\t1\t+\t2\t+",
        "P\tsample1_chrA\t1+,2+",
        "P\tsample1_chrB\t2-,1+",
    ])
}

#[test]
fn general_test() {
    let mut ngfa = NGfa::new();
    let dups = ngfa.from_lines(&example(), true).unwrap();
    assert!(dups.is_empty());
    let mut gwrapper = GraphWrapper::new();
    assert_eq!(ngfa.edges.len(), 1);
    gwrapper.from_ngfa(&ngfa, &GroupMode::SplitOn("_".to_string()));
    assert_eq!(gwrapper.genomes.len(), 1);
    gwrapper.from_ngfa(&ngfa, &GroupMode::NoMerge);
    assert_eq!(gwrapper.genomes.len(), 2);
    assert_eq!(gwrapper.mapped_names(), 2);

    let mut ngfa = NGfa::new();
    ngfa.from_lines(&example(), false).unwrap();
    ngfa.remove_seq();
    assert_eq!(ngfa.node(1).unwrap().seq, "");
    let mut ngfa = NGfa::new();
    ngfa.from_lines(&example(), true).unwrap();
    assert_eq!(ngfa.node(1).unwrap().seq, "ACGT");
}

#[test]
fn end_to_end_example() {
    let mut g = NGfa::new();
    g.from_lines(&example(), true).unwrap();
    assert_eq!(g.node_count(), 2);
    let n1 = g.node(1).unwrap();
    assert_eq!((n1.id, n1.len, n1.seq.as_str()), (1, 4, "ACGT"));
    let n2 = g.node(2).unwrap();
    assert_eq!((n2.id, n2.len, n2.seq.as_str()), (2, 4, "GGTT"));
    assert_eq!(g.edges, vec![NEdge { from: 1, from_dir: true, to: 2, to_dir: true }]);
    assert_eq!(g.paths.len(), 2);
    assert_eq!(g.paths[0].name, "sample1_chrA");
    assert_eq!(g.paths[0].nodes, vec![1, 2]);
    assert_eq!(g.paths[0].dir, vec![true, true]);
    assert_eq!(g.paths[1].nodes, vec![2, 1]);
    assert_eq!(g.paths[1].dir, vec![false, true]);
    assert_eq!(g.path_index("sample1_chrB"), Some(1));
    assert_eq!(g.path_index("nope"), None);

    let mut w = GraphWrapper::new();
    w.from_ngfa(&g, &GroupMode::SplitOn("_".to_string()));
    assert_eq!(w.genomes.len(), 1);
    assert_eq!(w.genomes[0].0, "sample1");
    assert_eq!(w.genomes[0].1, vec![0, 1]);
    assert_eq!(w.genome_of("sample1_chrA"), Some("sample1".to_string()));
    assert_eq!(w.genome_of("sample1_chrB"), Some("sample1".to_string()));
}

#[test]
fn duplicate_segment_id_last_wins() {
    let mut g = NGfa::new();
    let dups = g.from_lines(&lines(&["S\t1\tAAAA", "S\t1\tGGG"]), true).unwrap();
    assert_eq!(dups, vec![1]);
    assert_eq!(g.node_count(), 1);
    let n = g.node(1).unwrap();
    assert_eq!((n.id, n.len, n.seq.as_str()), (1, 3, "GGG"));
}

#[test]
fn node_count_is_distinct_ids() {
    let mut g = NGfa::new();
    let dups = g
        .from_lines(&lines(&["S\t3\tA", "S\t4\tCC", "S\t3\tTTT", "S\t5\t", "S\t4\tG"]), true)
        .unwrap();
    assert_eq!(dups, vec![3, 4]);
    assert_eq!(g.node_count(), 3);
    assert_eq!(g.node(3).unwrap().len, 3);
    assert_eq!(g.node(4).unwrap().seq, "G");
    assert_eq!(g.node(5).unwrap().len, 0);
    assert!(g.node(6).is_none());
}

#[test]
fn sequence_free_mode_keeps_lengths() {
    let mut g = NGfa::new();
    g.from_lines(&lines(&["S\t7\tACGTACGT"]), false).unwrap();
    let n = g.node(7).unwrap();
    assert_eq!(n.len, 8);
    assert_eq!(n.seq, "");
}

#[test]
fn length_counts_characters() {
    let mut g = NGfa::new();
    g.from_lines(&lines(&["S\t1\tAé"]), true).unwrap();
    assert_eq!(g.node(1).unwrap().len, 2);
    assert_eq!(g.node(1).unwrap().seq, "Aé");
}

#[test]
fn remove_seq_clears_sequences() {
    let mut g = NGfa::new();
    g.from_lines(&example(), true).unwrap();
    g.remove_seq();
    for id in [1u32, 2] {
        let n = g.node(id).unwrap();
        assert_eq!(n.seq, "");
        assert_eq!(n.len, 4);
        assert_eq!(n.id, id);
    }
    assert_eq!(g.edges.len(), 1);
    assert_eq!(g.paths.len(), 2);
}

#[test]
fn path_steps_are_parallel() {
    let mut g = NGfa::new();
    g.from_lines(&lines(&["P\tp\t10+,20-,30+", "P\tq\t+4-"]), true).unwrap();
    for p in &g.paths {
        assert_eq!(p.dir.len(), p.nodes.len());
    }
    assert_eq!(g.paths[0].nodes, vec![10, 20, 30]);
    assert_eq!(g.paths[0].dir, vec![true, false, true]);
    assert_eq!(g.paths[1].nodes, vec![4]);
    assert_eq!(g.paths[1].dir, vec![false]);
}

#[test]
fn bad_segment_id_fails_with_line() {
    let mut g = NGfa::new();
    g.from_lines(&lines(&["S\t1\tA"]), true).unwrap();
    let r = g.from_lines(&lines(&["S\t2\tA", "H\tVN:Z:1.0", "S\tx1\tAC"]), true);
    assert_eq!(r, Err(GfaError::MalformedRecord { line: 3, reason: LineError::BadNumber }));
    assert_eq!(g.node_count(), 1);
    assert!(g.node(1).is_some());
    assert!(g.node(2).is_none());
}

#[test]
fn missing_field_fails() {
    let mut g = NGfa::new();
    let r = g.from_lines(&lines(&["L\t1\t+\t2"]), true);
    assert_eq!(r, Err(GfaError::MalformedRecord { line: 1, reason: LineError::MissingField }));
    let r = g.from_lines(&lines(&["S\t1"]), true);
    assert_eq!(r, Err(GfaError::MalformedRecord { line: 1, reason: LineError::MissingField }));
    let r = g.from_lines(&lines(&["P\tname"]), true);
    assert_eq!(r, Err(GfaError::MalformedRecord { line: 1, reason: LineError::MissingField }));
}

#[test]
fn id_out_of_range_fails() {
    assert!(matches!(parse_line("S\t4294967295\tA", true), Ok(Record::Segment(n)) if n.id == 4294967295));
    assert_eq!(parse_line("S\t4294967296\tA", true).err(), Some(LineError::BadNumber));
    assert_eq!(parse_line("S\t\tA", true).err(), Some(LineError::BadNumber));
    assert_eq!(parse_line("S\t-1\tA", true).err(), Some(LineError::BadNumber));
    assert!(matches!(parse_line("S\t+12\tA", true), Ok(Record::Segment(n)) if n.id == 12));
}

#[test]
fn bad_step_fails() {
    assert_eq!(parse_line("P\tp\t1+,,2+", true).err(), Some(LineError::BadNumber));
    assert_eq!(parse_line("P\tp\t", true).err(), Some(LineError::BadNumber));
    assert_eq!(parse_line("P\tp\t+", true).err(), Some(LineError::BadNumber));
    assert_eq!(parse_line("P\tp\ta+", true).err(), Some(LineError::BadNumber));
}

#[test]
fn link_orientations() {
    match parse_line("L\t5\t-\t6\t+", true) {
        Ok(Record::Link(e)) => assert_eq!(e, NEdge { from: 5, from_dir: false, to: 6, to_dir: true }),
        _ => panic!("expected a link"),
    }
    match parse_line("L\t5\tx\t6\t++", true) {
        Ok(Record::Link(e)) => assert_eq!(e, NEdge { from: 5, from_dir: false, to: 6, to_dir: false }),
        _ => panic!("expected a link"),
    }
    assert_eq!(parse_line("L\t5\t+\tz\t+", true).err(), Some(LineError::BadNumber));
}

#[test]
fn other_lines_are_ignored() {
    assert!(matches!(parse_line("", true), Ok(Record::Ignored)));
    assert!(matches!(parse_line("H\tVN:Z:1.0", true), Ok(Record::Ignored)));
    assert!(matches!(parse_line("#comment", true), Ok(Record::Ignored)));
    let mut g = NGfa::new();
    g.from_lines(&lines(&["H\tx", "", "W\tfoo"]), true).unwrap();
    assert_eq!(g.node_count(), 0);
    assert!(g.edges.is_empty() && g.paths.is_empty());
}

#[test]
fn reingestion_replaces_contents() {
    let mut g = NGfa::new();
    g.from_lines(&example(), true).unwrap();
    g.from_lines(&lines(&["S\t9\tA"]), true).unwrap();
    assert_eq!(g.node_count(), 1);
    assert!(g.node(1).is_none());
    assert!(g.edges.is_empty());
    assert!(g.paths.is_empty());
    assert_eq!(g.path_index("sample1_chrA"), None);
}

fn graph_of_paths(names: &[&str]) -> NGfa {
    let v: Vec<String> = names.iter().map(|n| format!("P\t{}\t1+", n)).collect();
    let mut g = NGfa::new();
    g.from_lines(&v, true).unwrap();
    g
}

#[test]
fn grouping_sorted_by_key() {
    let g = graph_of_paths(&["b#1", "a#2", "b#3", "c", "a#4"]);
    let mut w = GraphWrapper::new();
    w.from_ngfa(&g, &GroupMode::SplitOn("#".to_string()));
    let keys: Vec<&str> = w.genomes.iter().map(|(k, _)| k.as_str()).collect();
    assert_eq!(keys, vec!["a", "b", "c"]);
    assert_eq!(w.genomes[0].1, vec![1, 4]);
    assert_eq!(w.genomes[1].1, vec![0, 2]);
    assert_eq!(w.genomes[2].1, vec![3]);
    assert_eq!(w.genome_of("c"), Some("c".to_string()));
    assert_eq!(w.genome_of("a#4"), Some("a".to_string()));
}

#[test]
fn grouping_partitions_paths() {
    let g = graph_of_paths(&["x.1.a", "y.2", "x.3", "z", "y.9.9"]);
    let mut w = GraphWrapper::new();
    w.from_ngfa(&g, &GroupMode::SplitOn(".".to_string()));
    let mut all: Vec<usize> = w.genomes.iter().flat_map(|(_, m)| m.iter().copied()).collect();
    all.sort();
    assert_eq!(all, vec![0, 1, 2, 3, 4]);
    assert_eq!(w.mapped_names(), 5);
}

#[test]
fn multi_char_delimiter() {
    let g = graph_of_paths(&["HG002::chr1", "HG002:chr2", "HG003::chr1::x"]);
    let mut w = GraphWrapper::new();
    w.from_ngfa(&g, &GroupMode::SplitOn("::".to_string()));
    assert_eq!(w.genome_of("HG002::chr1"), Some("HG002".to_string()));
    assert_eq!(w.genome_of("HG002:chr2"), Some("HG002:chr2".to_string()));
    assert_eq!(w.genome_of("HG003::chr1::x"), Some("HG003".to_string()));
    assert_eq!(w.genomes.len(), 3);
}

#[test]
fn no_merge_keeps_every_path() {
    let g = graph_of_paths(&["s_2", "s_1", "t_1"]);
    let mut w = GraphWrapper::new();
    w.from_ngfa(&g, &GroupMode::NoMerge);
    assert_eq!(w.genomes.len(), 3);
    assert_eq!(w.genomes[0], ("s_1".to_string(), vec![1]));
    assert_eq!(w.genomes[1], ("s_2".to_string(), vec![0]));
    assert_eq!(w.genomes[2], ("t_1".to_string(), vec![2]));
    for n in ["s_2", "s_1", "t_1"] {
        assert_eq!(w.genome_of(n), Some(n.to_string()));
    }
}

#[test]
fn regrouping_replaces_clusters() {
    let g = graph_of_paths(&["a_1", "a_2"]);
    let mut w = GraphWrapper::new();
    w.from_ngfa(&g, &GroupMode::NoMerge);
    assert_eq!(w.genomes.len(), 2);
    w.from_ngfa(&g, &GroupMode::SplitOn("_".to_string()));
    assert_eq!(w.genomes.len(), 1);
    assert_eq!(w.genome_of("a_1"), Some("a".to_string()));
    let empty = NGfa::new();
    w.from_ngfa(&empty, &GroupMode::NoMerge);
    assert!(w.genomes.is_empty());
    assert_eq!(w.mapped_names(), 0);
}

fn text_node(id: &str, seq: &str) -> TextNode {
    TextNode { id: id.to_string(), seq: seq.to_string() }
}

#[test]
fn from_graph_converts_text_ids() {
    let nodes = vec![text_node("1", "ACGT"), text_node("2", "GG")];
    let edges = vec![TextEdge { from: "1".to_string(), from_dir: true, to: "2".to_string(), to_dir: false }];
    let paths = vec![TextPath {
        name: "p1".to_string(),
        dir: vec![true, false],
        nodes: vec!["1".to_string(), "2".to_string()],
    }];
    let mut g = NGfa::new();
    assert_eq!(g.from_graph(&nodes, &edges, &paths), Ok(()));
    assert_eq!(g.node_count(), 2);
    assert_eq!(g.node(2).unwrap().seq, "GG");
    assert_eq!(g.node(2).unwrap().len, 2);
    assert_eq!(g.edges, vec![NEdge { from: 1, from_dir: true, to: 2, to_dir: false }]);
    assert_eq!(g.paths[0].nodes, vec![1, 2]);
    assert_eq!(g.paths[0].dir, vec![true, false]);
    assert_eq!(g.path_index("p1"), Some(0));
}

#[test]
fn from_graph_rejects_bad_ids() {
    let mut g = NGfa::new();
    g.from_lines(&example(), true).unwrap();
    let r = g.from_graph(&vec![text_node("1", "A"), text_node("a", "A")], &vec![], &vec![]);
    assert_eq!(r, Err(GfaError::MalformedRecord { line: 2, reason: LineError::BadNumber }));
    assert_eq!(g.node_count(), 2);
    let bad_edge = vec![TextEdge { from: "1".to_string(), from_dir: true, to: "x".to_string(), to_dir: true }];
    assert_eq!(
        g.from_graph(&vec![text_node("1", "A")], &bad_edge, &vec![]),
        Err(GfaError::MalformedRecord { line: 2, reason: LineError::BadNumber })
    );
    let bad_path = vec![TextPath { name: "p".to_string(), dir: vec![true], nodes: vec![] }];
    assert_eq!(
        g.from_graph(&vec![], &vec![], &bad_path),
        Err(GfaError::MalformedRecord { line: 1, reason: LineError::UnevenSteps })
    );
    let good_edge = vec![TextEdge { from: "1".to_string(), from_dir: true, to: "2".to_string(), to_dir: true }];
    let bad_step = vec![
        TextPath { name: "p".to_string(), dir: vec![true], nodes: vec!["1".to_string()] },
        TextPath { name: "q".to_string(), dir: vec![true], nodes: vec!["9z".to_string()] },
    ];
    assert_eq!(
        g.from_graph(&vec![text_node("1", "A")], &good_edge, &bad_step),
        Err(GfaError::MalformedRecord { line: 4, reason: LineError::BadNumber })
    );
    assert_eq!(g.paths.len(), 2);
    assert_eq!(g.node(1).unwrap().seq, "ACGT");
}

#[test]
fn from_graph_length_counts_characters() {
    let mut g = NGfa::new();
    g.from_graph(&vec![text_node("3", "Aé")], &vec![], &vec![]).unwrap();
    assert_eq!(g.node(3).unwrap().len, 2);
}

#[test]
fn builder_streams_lines() {
    let mut b = GraphBuilder::new(true);
    for l in example() {
        b.push_line(&l).unwrap();
    }
    b.push_line("S\t1\tTT").unwrap();
    let (g, dups) = b.finish();
    assert_eq!(dups, vec![1]);
    assert_eq!(g.node_count(), 2);
    assert_eq!(g.node(1).unwrap().seq, "TT");
    assert_eq!(g.edges.len(), 1);
    assert_eq!(g.paths.len(), 2);
}

#[test]
fn builder_reports_line_number() {
    let mut b = GraphBuilder::new(false);
    b.push_line("S\t1\tA").unwrap();
    b.push_line("H\tVN:Z:1.0").unwrap();
    let r = b.push_line("L\t1\t+\tx\t+");
    assert_eq!(r, Err(GfaError::MalformedRecord { line: 3, reason: LineError::BadNumber }));
}
