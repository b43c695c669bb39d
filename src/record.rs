//! The three record kinds of the line format and the parser of one line.
use vstd::prelude::*;
use crate::text::{
    chars_of, chars_views, lemma_split_on_nonempty, parse_u32_range, parse_u32_spec, split_chars,
    split_on, string_of,
};
use crate::tables::shrink_vec;

verus! {

/// A segment: integer id, sequence length in characters, and the sequence
/// itself (empty when sequences are not kept).
#[derive(Debug, Clone)]
pub struct NNode {
    pub id: u32,
    pub len: usize,
    pub seq: String,
}

pub struct NNodeView {
    pub id: u32,
    pub len: usize,
    pub seq: Seq<char>,
}

impl View for NNode {
    type V = NNodeView;

    open spec fn view(&self) -> NNodeView {
        NNodeView { id: self.id, len: self.len, seq: self.seq@ }
    }
}

/// A link between two segments; `true` is the forward strand.
#[derive(Debug, Clone, Copy, PartialEq, Eq, Structural)]
pub struct NEdge {
    pub from: u32,
    pub from_dir: bool,
    pub to: u32,
    pub to_dir: bool,
}

/// A path: its name and its steps, held as parallel orientations and node ids.
#[derive(Debug, Clone)]
pub struct NPath {
    pub name: String,
    pub dir: Vec<bool>,
    pub nodes: Vec<u32>,
}

pub struct NPathView {
    pub name: Seq<char>,
    pub dir: Seq<bool>,
    pub nodes: Seq<u32>,
}

impl View for NPath {
    type V = NPathView;

    open spec fn view(&self) -> NPathView {
        NPathView { name: self.name@, dir: self.dir@, nodes: self.nodes@ }
    }
}

/// A segment whose id is still text, as a text-keyed reader hands it over.
/// Its length is that of its sequence, in characters, as for a segment line.
pub struct TextNode {
    pub id: String,
    pub seq: String,
}

/// A link whose endpoint ids are still text.
pub struct TextEdge {
    pub from: String,
    pub from_dir: bool,
    pub to: String,
    pub to_dir: bool,
}

/// A path whose node ids are still text.
pub struct TextPath {
    pub name: String,
    pub dir: Vec<bool>,
    pub nodes: Vec<String>,
}

pub open spec fn id_of(s: String) -> u32 {
    match parse_u32_spec(s@) {
        Some(n) => n,
        None => 0,
    }
}

pub open spec fn convert_node(n: TextNode) -> Option<NNodeView> {
    match parse_u32_spec(n.id@) {
        Some(id) => Some(NNodeView { id, len: n.seq@.len() as usize, seq: n.seq@ }),
        None => None,
    }
}

pub open spec fn edge_convertible(e: TextEdge) -> bool {
    parse_u32_spec(e.from@) is Some && parse_u32_spec(e.to@) is Some
}

pub open spec fn convert_edge(e: TextEdge) -> NEdge {
    NEdge { from: id_of(e.from), from_dir: e.from_dir, to: id_of(e.to), to_dir: e.to_dir }
}

/// Why a path does not convert: its orientations and node ids differ in
/// number, or a node id is not an unsigned 32-bit integer.
pub open spec fn path_error(p: TextPath) -> Option<LineError> {
    if p.dir@.len() != p.nodes@.len() {
        Some(LineError::UnevenSteps)
    } else if exists|i: int| 0 <= i < p.nodes@.len() && parse_u32_spec((#[trigger] p.nodes@[i])@) is None {
        Some(LineError::BadNumber)
    } else {
        None
    }
}

pub open spec fn convert_path(p: TextPath) -> NPathView {
    NPathView { name: p.name@, dir: p.dir@, nodes: p.nodes@.map_values(|s: String| id_of(s)) }
}

/// Why a line could not be read.
#[derive(Debug, Clone, Copy, PartialEq, Eq, Structural)]
pub enum LineError {
    /// The record has fewer fields than its kind needs.
    MissingField,
    /// An identifier or a step is not an unsigned 32-bit integer.
    BadNumber,
    /// A path handed over as records has unequal numbers of orientations
    /// and node ids.
    UnevenSteps,
}

/// One decoded line.
#[derive(Debug, Clone)]
pub enum Record {
    Segment(NNode),
    Link(NEdge),
    Path(NPath),
    /// A line of another kind, or an empty one.
    Ignored,
}

pub enum RecordView {
    Segment(NNodeView),
    Link(NEdge),
    Path(NPathView),
    Ignored,
}

impl View for Record {
    type V = RecordView;

    open spec fn view(&self) -> RecordView {
        match self {
            Record::Segment(n) => RecordView::Segment(n@),
            Record::Link(e) => RecordView::Link(*e),
            Record::Path(p) => RecordView::Path(p@),
            Record::Ignored => RecordView::Ignored,
        }
    }
}

/// An orientation field: `+` is forward, anything else reverse.
pub open spec fn orientation(f: Seq<char>) -> bool {
    f == seq!['+']
}

/// A step token is a node id followed by one orientation character.
pub open spec fn step_ok(t: Seq<char>) -> bool {
    t.len() > 0 && parse_u32_spec(t.drop_last()) is Some
}

pub open spec fn step_dir(t: Seq<char>) -> bool {
    t.last() == '+'
}

pub open spec fn step_node(t: Seq<char>) -> u32 {
    match parse_u32_spec(t.drop_last()) {
        Some(n) => n,
        None => 0,
    }
}

/// The path named `name` whose steps are written in `steps`, if every step
/// token is well formed.
pub open spec fn parse_path_spec(name: Seq<char>, steps: Seq<char>) -> Option<NPathView> {
    let toks = split_on(steps, ',');
    if forall|i: int| 0 <= i < toks.len() ==> step_ok(#[trigger] toks[i]) {
        Some(
            NPathView {
                name,
                dir: toks.map_values(|t: Seq<char>| step_dir(t)),
                nodes: toks.map_values(|t: Seq<char>| step_node(t)),
            },
        )
    } else {
        None
    }
}

pub open spec fn parse_segment_spec(f: Seq<Seq<char>>, keep_seq: bool) -> Result<RecordView, LineError> {
    if f.len() < 3 {
        Err(LineError::MissingField)
    } else {
        match parse_u32_spec(f[1]) {
            Some(id) => Ok(
                RecordView::Segment(
                    NNodeView {
                        id,
                        len: f[2].len() as usize,
                        seq: if keep_seq { f[2] } else { Seq::empty() },
                    },
                ),
            ),
            None => Err(LineError::BadNumber),
        }
    }
}

pub open spec fn parse_link_spec(f: Seq<Seq<char>>) -> Result<RecordView, LineError> {
    if f.len() < 5 {
        Err(LineError::MissingField)
    } else {
        match (parse_u32_spec(f[1]), parse_u32_spec(f[3])) {
            (Some(from), Some(to)) => Ok(
                RecordView::Link(
                    NEdge { from, from_dir: orientation(f[2]), to, to_dir: orientation(f[4]) },
                ),
            ),
            _ => Err(LineError::BadNumber),
        }
    }
}

pub open spec fn parse_path_line_spec(f: Seq<Seq<char>>) -> Result<RecordView, LineError> {
    if f.len() < 3 {
        Err(LineError::MissingField)
    } else {
        match parse_path_spec(f[1], f[2]) {
            Some(p) => Ok(RecordView::Path(p)),
            None => Err(LineError::BadNumber),
        }
    }
}

/// What one line decodes to. The fields are separated by tabs; the first
/// of them is the tag, and a line whose tag is not `S`, `L` or `P` is
/// ignored.
pub open spec fn parse_line_spec(line: Seq<char>, keep_seq: bool) -> Result<RecordView, LineError> {
    let f = split_on(line, '\t');
    if f[0] == seq!['S'] {
        parse_segment_spec(f, keep_seq)
    } else if f[0] == seq!['L'] {
        parse_link_spec(f)
    } else if f[0] == seq!['P'] {
        parse_path_line_spec(f)
    } else {
        Ok(RecordView::Ignored)
    }
}

/// Reads a text node id.
pub fn parse_id(s: &String) -> (r: Option<u32>)
    ensures
        r == parse_u32_spec(s@),
{
    let cs = chars_of(s.as_str());
    proof {
        assert(cs@.subrange(0, cs@.len() as int) =~= cs@);
    }
    parse_u32_range(&cs, 0, cs.len())
}

/// Whether a tag field is exactly the one character `c`.
pub fn tag_is(f: &Vec<char>, c: char) -> (r: bool)
    ensures
        r == (f@ == seq![c]),
{
    if f.len() == 1 && f[0] == c {
        assert(f@ =~= seq![c]);
        true
    } else {
        false
    }
}

/// Whether an orientation field reads forward.
pub fn parse_orientation(f: &Vec<char>) -> (r: bool)
    ensures
        r == orientation(f@),
{
    if f.len() == 1 && f[0] == '+' {
        assert(f@ =~= seq!['+']);
        true
    } else {
        false
    }
}

/// Decodes the comma-separated steps of a path line.
pub fn parse_path(name: String, steps: &Vec<char>) -> (r: Option<NPath>)
    ensures
        match r {
            Some(p) => parse_path_spec(name@, steps@) == Some(p@),
            None => parse_path_spec(name@, steps@) is None,
        },
{
    let toks = split_chars(steps, ',');
    let ghost tv = chars_views(toks@);
    let mut dir: Vec<bool> = Vec::new();
    let mut nodes: Vec<u32> = Vec::new();
    let mut i: usize = 0;
    while i < toks.len()
        invariant
            0 <= i <= toks.len(),
            tv == chars_views(toks@),
            tv == split_on(steps@, ','),
            forall|j: int| 0 <= j < i ==> step_ok(#[trigger] tv[j]),
            dir@ == tv.subrange(0, i as int).map_values(|t: Seq<char>| step_dir(t)),
            nodes@ == tv.subrange(0, i as int).map_values(|t: Seq<char>| step_node(t)),
        decreases toks.len() - i,
    {
        let t = &toks[i];
        proof {
            assert(tv[i as int] == t@);
        }
        if t.len() == 0 {
            return None;
        }
        let n = parse_u32_range(t, 0, t.len() - 1);
        proof {
            assert(t@.subrange(0, t@.len() - 1) =~= t@.drop_last());
        }
        match n {
            None => {
                return None;
            },
            Some(id) => {
                let d = t[t.len() - 1] == '+';
                dir.push(d);
                nodes.push(id);
                proof {
                    assert(tv.subrange(0, i as int + 1) =~= tv.subrange(0, i as int).push(tv[i as int]));
                    assert(dir@ =~= tv.subrange(0, i as int + 1).map_values(|t: Seq<char>| step_dir(t)));
                    assert(nodes@ =~= tv.subrange(0, i as int + 1).map_values(|t: Seq<char>| step_node(t)));
                }
            },
        }
        i += 1;
    }
    proof {
        assert(tv.subrange(0, tv.len() as int) =~= tv);
    }
    shrink_vec(&mut dir);
    shrink_vec(&mut nodes);
    Some(NPath { name, dir, nodes })
}

/// Decodes one line of the graph format. With `keep_seq` false a segment's
/// sequence is not stored, only its length.
pub fn parse_line(line: &str, keep_seq: bool) -> (r: Result<Record, LineError>)
    ensures
        match r {
            Ok(rec) => parse_line_spec(line@, keep_seq) == Ok::<RecordView, LineError>(rec@),
            Err(e) => parse_line_spec(line@, keep_seq) == Err::<RecordView, LineError>(e),
        },
{
    let cs = chars_of(line);
    let fields = split_chars(&cs, '\t');
    let ghost f = chars_views(fields@);
    proof {
        lemma_split_on_nonempty(cs@, '\t');
        assert(f[0] == fields@[0]@);
    }
    let is_segment = tag_is(&fields[0], 'S');
    let is_link = tag_is(&fields[0], 'L');
    let is_path = tag_is(&fields[0], 'P');
    if !is_segment && !is_link && !is_path {
        return Ok(Record::Ignored);
    }
    if is_segment {
        if fields.len() < 3 {
            return Err(LineError::MissingField);
        }
        proof {
            assert(f[1] == fields@[1]@ && f[2] == fields@[2]@);
            assert(fields@[1]@.subrange(0, fields@[1]@.len() as int) =~= fields@[1]@);
        }
        match parse_u32_range(&fields[1], 0, fields[1].len()) {
            None => Err(LineError::BadNumber),
            Some(id) => {
                let seq = if keep_seq {
                    string_of(&fields[2])
                } else {
                    String::new()
                };
                Ok(Record::Segment(NNode { id, len: fields[2].len(), seq }))
            },
        }
    } else if is_link {
        if fields.len() < 5 {
            return Err(LineError::MissingField);
        }
        proof {
            assert(f[1] == fields@[1]@ && f[2] == fields@[2]@ && f[3] == fields@[3]@ && f[4] == fields@[4]@);
            assert(fields@[1]@.subrange(0, fields@[1]@.len() as int) =~= fields@[1]@);
            assert(fields@[3]@.subrange(0, fields@[3]@.len() as int) =~= fields@[3]@);
        }
        let from = parse_u32_range(&fields[1], 0, fields[1].len());
        let to = parse_u32_range(&fields[3], 0, fields[3].len());
        match (from, to) {
            (Some(from), Some(to)) => {
                let from_dir = parse_orientation(&fields[2]);
                let to_dir = parse_orientation(&fields[4]);
                Ok(Record::Link(NEdge { from, from_dir, to, to_dir }))
            },
            _ => Err(LineError::BadNumber),
        }
    } else {
        if fields.len() < 3 {
            return Err(LineError::MissingField);
        }
        proof {
            assert(f[1] == fields@[1]@ && f[2] == fields@[2]@);
        }
        let name = string_of(&fields[1]);
        match parse_path(name, &fields[2]) {
            Some(p) => Ok(Record::Path(p)),
            None => Err(LineError::BadNumber),
        }
    }
}

} // verus!
