//! Construction of graphs and the line-oriented text persistence format.
//!
//! The format is header-free.  Lines are comment-stripped (text after `//`
//! is discarded) and blank lines are ignored.  Declaration lines read
//! `key: value`: `number_of_vertices` (required, exactly once), `directed`
//! (optional, defaulting to directed), and the mode switches `edges:` and
//! `nodes:`.  After `edges:`, a line of two whitespace-separated numbers is
//! an edge in input order; after `nodes:`, a line is one node token.  The
//! whole grammar is written out below as specification functions, and the
//! reader is proved to follow them exactly.  Serialization emits the fixed
//! comment header, the two declarations, the `edges:` mode switch, and then
//! for each source index in ascending order its successor entries in
//! insertion order — all of them for a directed graph, only those with
//! `dest > source` for an undirected one, so that no edge is listed twice.
//! What the writer emits, the reader accepts: a serialized graph reads
//! back.

use crate::errors::GraphError;
use crate::graph::Graph;
use crate::graph::add_edge_spec;
use crate::graph::add_undirected_spec;
use crate::graph::distinct_seq;
use crate::graph::empty_adjacency;
use crate::node_value::NodeDisplay;
use crate::node_value::NodeKey;
use crate::node_value::NodeParse;
use crate::numtext::all_dec_digits;
use crate::numtext::dec_of;
use crate::numtext::dec_value;
use crate::textlines::is_key_char;
use crate::textlines::is_space;
use crate::textlines::is_value_char;
use crate::textlines::line_split;
use crate::textlines::split_at_colon;
use crate::textlines::split_at_space;
use crate::textlines::strip_comment;
use crate::textlines::trim;
use crate::textlines::trim_end;
use crate::textlines::trim_start;
use crate::textlines::lemma_line_split_shrinks;
use vstd::prelude::*;
use vstd::string::StrSliceExecFns;
use vstd::string::StringExecFns;

verus! {

/// What the line reader has gathered so far.
pub struct ParserState {
    pub vertices: Option<usize>,
    pub directed: Option<bool>,
    pub edges_mode: bool,
    pub nodes_mode: bool,
    pub edges: Seq<(usize, usize)>,
    pub tokens: Seq<Seq<char>>,
}

/// The reader before any line: nothing declared, no mode switched on.
pub open spec fn initial_parser_state() -> ParserState {
    ParserState {
        vertices: None,
        directed: None,
        edges_mode: false,
        nodes_mode: false,
        edges: Seq::<(usize, usize)>::empty(),
        tokens: Seq::<Seq<char>>::empty(),
    }
}

/// The `edges` keyword.
pub open spec fn key_edges() -> Seq<char> {
    seq!['e', 'd', 'g', 'e', 's']
}

/// The `nodes` keyword.
pub open spec fn key_nodes() -> Seq<char> {
    seq!['n', 'o', 'd', 'e', 's']
}

/// The `directed` keyword.
pub open spec fn key_directed() -> Seq<char> {
    seq!['d', 'i', 'r', 'e', 'c', 't', 'e', 'd']
}

/// The `number_of_vertices` keyword.
pub open spec fn key_number_of_vertices() -> Seq<char> {
    seq![
        'n',
        'u',
        'm',
        'b',
        'e',
        'r',
        '_',
        'o',
        'f',
        '_',
        'v',
        'e',
        'r',
        't',
        'i',
        'c',
        'e',
        's',
    ]
}

/// The boolean value `true`.
pub open spec fn text_true() -> Seq<char> {
    seq!['t', 'r', 'u', 'e']
}

/// The boolean value `false`.
pub open spec fn text_false() -> Seq<char> {
    seq!['f', 'a', 'l', 's', 'e']
}

/// A non-empty run of key characters.
pub open spec fn all_key_chars(s: Seq<char>) -> bool {
    s.len() > 0 && forall|i: int| 0 <= i < s.len() ==> is_key_char(#[trigger] s[i])
}

/// A possibly empty run of value characters.
pub open spec fn all_value_chars(s: Seq<char>) -> bool {
    forall|i: int| 0 <= i < s.len() ==> is_value_char(#[trigger] s[i])
}

/// No blank anywhere.
pub open spec fn no_spaces(s: Seq<char>) -> bool {
    forall|i: int| 0 <= i < s.len() ==> !is_space(#[trigger] s[i])
}

/// One `key: value` declaration, applied to the reader state.
pub open spec fn parse_keyword_line(st: ParserState, k: Seq<char>, v: Seq<char>) -> Result<
    ParserState,
    GraphError,
> {
    if !(all_key_chars(k) && all_value_chars(v)) {
        Err(GraphError::MalformedFileLine)
    } else if k == key_edges() {
        if v.len() == 0 {
            Ok(
                ParserState {
                    vertices: st.vertices,
                    directed: st.directed,
                    edges_mode: true,
                    nodes_mode: st.nodes_mode,
                    edges: st.edges,
                    tokens: st.tokens,
                },
            )
        } else {
            Err(GraphError::MalformedFileLine)
        }
    } else if k == key_nodes() {
        if v.len() == 0 {
            Ok(
                ParserState {
                    vertices: st.vertices,
                    directed: st.directed,
                    edges_mode: st.edges_mode,
                    nodes_mode: true,
                    edges: st.edges,
                    tokens: st.tokens,
                },
            )
        } else {
            Err(GraphError::MalformedFileLine)
        }
    } else if k == key_number_of_vertices() {
        if st.vertices is Some {
            Err(GraphError::DuplicateFieldDeclaration)
        } else if all_dec_digits(v) && dec_value(v) <= usize::MAX {
            Ok(
                ParserState {
                    vertices: Some(dec_value(v) as usize),
                    directed: st.directed,
                    edges_mode: st.edges_mode,
                    nodes_mode: st.nodes_mode,
                    edges: st.edges,
                    tokens: st.tokens,
                },
            )
        } else {
            Err(GraphError::MalformedFileLine)
        }
    } else if k == key_directed() {
        if st.directed is Some {
            Err(GraphError::DuplicateFieldDeclaration)
        } else if v == text_true() || v == text_false() {
            Ok(
                ParserState {
                    vertices: st.vertices,
                    directed: Some(v == text_true()),
                    edges_mode: st.edges_mode,
                    nodes_mode: st.nodes_mode,
                    edges: st.edges,
                    tokens: st.tokens,
                },
            )
        } else {
            Err(GraphError::MalformedFileLine)
        }
    } else {
        Err(GraphError::MalformedFileLine)
    }
}

/// One edge line: two whitespace-separated numbers.
pub open spec fn parse_edge_line(st: ParserState, l: Seq<char>) -> Result<
    ParserState,
    GraphError,
> {
    match split_at_space(l) {
        None => Err(GraphError::MalformedFileLine),
        Some(ab) => {
            let a = ab.0;
            let b = trim_start(ab.1);
            if all_dec_digits(a) && all_dec_digits(b) && no_spaces(b) && dec_value(a) <= usize::MAX
                && dec_value(b) <= usize::MAX {
                Ok(
                    ParserState {
                        vertices: st.vertices,
                        directed: st.directed,
                        edges_mode: st.edges_mode,
                        nodes_mode: st.nodes_mode,
                        edges: st.edges.push(
                            ((dec_value(a) as usize), (dec_value(b) as usize)),
                        ),
                        tokens: st.tokens,
                    },
                )
            } else {
                Err(GraphError::MalformedFileLine)
            }
        },
    }
}

/// One raw line applied to the reader state: comment stripped and trimmed;
/// blank lines skipped; a line with a `:` read as a declaration; otherwise a
/// node token in nodes mode, an edge pair in edges mode, an error else.
pub open spec fn parse_line(st: ParserState, raw: Seq<char>) -> Result<ParserState, GraphError> {
    let l = trim(strip_comment(raw));
    if l.len() == 0 {
        Ok(st)
    } else {
        match split_at_colon(l) {
            Some(kv) => parse_keyword_line(st, trim_end(kv.0), trim_start(kv.1)),
            None => {
                if st.nodes_mode && no_spaces(l) {
                    Ok(
                        ParserState {
                            vertices: st.vertices,
                            directed: st.directed,
                            edges_mode: st.edges_mode,
                            nodes_mode: st.nodes_mode,
                            edges: st.edges,
                            tokens: st.tokens.push(l),
                        },
                    )
                } else if st.edges_mode {
                    parse_edge_line(st, l)
                } else {
                    Err(GraphError::MalformedFileLine)
                }
            },
        }
    }
}

/// The whole text, line by line, stopping at the first refused line.
pub open spec fn parse_text(s: Seq<char>, st: ParserState) -> Result<ParserState, GraphError>
    decreases s.len(),
    via parse_text_decreases
{
    if s.len() == 0 {
        Ok(st)
    } else {
        let lr = line_split(s);
        match parse_line(st, lr.0) {
            Err(e) => Err(e),
            Ok(st2) => parse_text(lr.1, st2),
        }
    }
}

#[via_fn]
proof fn parse_text_decreases(s: Seq<char>, st: ParserState) {
    if s.len() > 0 {
        lemma_line_split_shrinks(s);
    }
}

/// The whole text from the initial state; `number_of_vertices` must have
/// been declared.
pub open spec fn parse_graph_text(s: Seq<char>) -> Result<ParserState, GraphError> {
    match parse_text(s, initial_parser_state()) {
        Err(e) => Err(e),
        Ok(st) => if st.vertices is Some {
            Ok(st)
        } else {
            Err(GraphError::MissingRequiredField)
        },
    }
}

/// The declared vertex count of a finished reader state.
pub open spec fn vertices_of(st: ParserState) -> usize {
    match st.vertices {
        Some(n) => n,
        None => 0,
    }
}

/// The declared directedness, directed by default.
pub open spec fn directed_of(st: ParserState) -> bool {
    match st.directed {
        Some(d) => d,
        None => true,
    }
}

/// Inserting the listed edges, in input order, each by the directed or the
/// undirected insertion; refused when an endpoint is no valid index.
pub open spec fn fold_edges(
    adj: Seq<Seq<usize>>,
    edges: Seq<(usize, usize)>,
    directed: bool,
) -> Result<Seq<Seq<usize>>, GraphError>
    decreases edges.len(),
{
    if edges.len() == 0 {
        Ok(adj)
    } else {
        let e = edges[0];
        if (e.0 as int) < adj.len() && (e.1 as int) < adj.len() {
            let adj2 = if directed {
                add_edge_spec(adj, e.0 as int, e.1)
            } else {
                add_undirected_spec(adj, e.0, e.1)
            };
            fold_edges(adj2, edges.drop_first(), directed)
        } else {
            Err(GraphError::IndexOutOfRange)
        }
    }
}

/// What reading a whole graph file comes to: the vertex count, the
/// directedness, and the adjacency state after all listed edges.
pub open spec fn graph_from_text(s: Seq<char>) -> Result<
    (usize, bool, Seq<Seq<usize>>),
    GraphError,
> {
    match parse_graph_text(s) {
        Err(e) => Err(e),
        Ok(st) => {
            let n = vertices_of(st);
            let dir = directed_of(st);
            match fold_edges(empty_adjacency(n as nat), st.edges, dir) {
                Err(e) => Err(e),
                Ok(adj) => Ok((n, dir, adj)),
            }
        },
    }
}

/// The fixed comment header of a serialized graph.
pub open spec fn comment_header() -> Seq<char> {
    seq!['/', '/', ' ', 'G', 'r', 'a', 'p', 'h', '\n']
}

/// One serialized edge line: source, a blank, destination, a newline.
pub open spec fn edge_line_text(s: nat, d: nat) -> Seq<char> {
    dec_of(s) + seq![' '] + dec_of(d) + seq!['\n']
}

/// The serialized lines of one successor row from cursor `k` on: every
/// entry for a directed graph, only those beyond the source for an
/// undirected one.
pub open spec fn row_lines(row: Seq<usize>, source: usize, directed: bool, k: int) -> Seq<char>
    decreases row.len() - k,
{
    if !(0 <= k < row.len()) {
        Seq::<char>::empty()
    } else {
        (if directed || row[k] > source {
            edge_line_text(source as nat, row[k] as nat)
        } else {
            Seq::<char>::empty()
        }) + row_lines(row, source, directed, k + 1)
    }
}

/// The serialized edge lines of all sources from index `i` upward.
pub open spec fn all_edge_lines(adj: Seq<Seq<usize>>, directed: bool, i: int) -> Seq<char>
    decreases adj.len() - i,
{
    if !(0 <= i < adj.len()) {
        Seq::<char>::empty()
    } else {
        row_lines(adj[i], i as usize, directed, 0) + all_edge_lines(adj, directed, i + 1)
    }
}

/// The full serialized text of a graph's structure.
pub open spec fn serialization_text(n: nat, directed: bool, adj: Seq<Seq<usize>>) -> Seq<char> {
    comment_header() + key_number_of_vertices() + seq![':', ' '] + dec_of(n) + seq!['\n']
        + key_directed() + seq![':', ' '] + (if directed {
        text_true()
    } else {
        text_false()
    }) + seq!['\n'] + key_edges() + seq![':', '\n'] + all_edge_lines(adj, directed, 0)
}

/// The serialized node tokens from index `i` upward, one per line.
pub open spec fn nodes_section<T: NodeDisplay>(nodes: Seq<T>, i: int) -> Seq<char>
    decreases nodes.len() - i,
{
    if !(0 <= i < nodes.len()) {
        Seq::<char>::empty()
    } else {
        nodes[i].display_spec() + seq!['\n'] + nodes_section(nodes, i + 1)
    }
}

/// The full serialized text of a named-node graph: the structure, then the
/// `nodes:` section with the node values in index order.
pub open spec fn serialization_with_nodes_text<T: NodeDisplay>(
    n: nat,
    directed: bool,
    adj: Seq<Seq<usize>>,
    nodes: Seq<T>,
) -> Seq<char> {
    serialization_text(n, directed, adj) + key_nodes() + seq![':', '\n'] + nodes_section(nodes, 0)
}

/// Whether `c` may stand in a declaration key.
fn key_char(c: char) -> (b: bool)
    ensures
        b == is_key_char(c),
{
    ('a' <= c && c <= 'z') || c == '_'
}

/// Whether `c` may stand in a declaration value.
fn value_char(c: char) -> (b: bool)
    ensures
        b == is_value_char(c),
{
    ('a' <= c && c <= 'z') || ('A' <= c && c <= 'Z') || ('0' <= c && c <= '9')
}

/// Whether `[lo, hi)` is a non-empty run of key characters.
fn range_all_key_chars(chars: &Vec<char>, lo: usize, hi: usize) -> (b: bool)
    requires
        lo <= hi <= chars@.len(),
    ensures
        b == all_key_chars(chars@.subrange(lo as int, hi as int)),
{
    let ghost sub = chars@.subrange(lo as int, hi as int);
    if lo == hi {
        return false;
    }
    let mut i = lo;
    while i < hi
        invariant
            lo <= i <= hi,
            hi <= chars@.len(),
            sub == chars@.subrange(lo as int, hi as int),
            forall|j: int| lo <= j < i ==> is_key_char(#[trigger] chars@[j]),
        decreases hi - i,
    {
        if !key_char(chars[i]) {
            proof {
                assert(sub[i - lo] == chars@[i as int]);
            }
            return false;
        }
        i = i + 1;
    }
    proof {
        assert(forall|j: int| 0 <= j < sub.len() ==> is_key_char(#[trigger] sub[j]));
    }
    true
}

/// Whether `[lo, hi)` holds only value characters.
fn range_all_value_chars(chars: &Vec<char>, lo: usize, hi: usize) -> (b: bool)
    requires
        lo <= hi <= chars@.len(),
    ensures
        b == all_value_chars(chars@.subrange(lo as int, hi as int)),
{
    let ghost sub = chars@.subrange(lo as int, hi as int);
    let mut i = lo;
    while i < hi
        invariant
            lo <= i <= hi,
            hi <= chars@.len(),
            sub == chars@.subrange(lo as int, hi as int),
            forall|j: int| lo <= j < i ==> is_value_char(#[trigger] chars@[j]),
        decreases hi - i,
    {
        if !value_char(chars[i]) {
            proof {
                assert(sub[i - lo] == chars@[i as int]);
            }
            return false;
        }
        i = i + 1;
    }
    proof {
        assert(forall|j: int| 0 <= j < sub.len() ==> is_value_char(#[trigger] sub[j]));
    }
    true
}

/// Whether `[lo, hi)` spells exactly `pat`.
fn range_matches(chars: &Vec<char>, lo: usize, hi: usize, pat: &str) -> (b: bool)
    requires
        lo <= hi <= chars@.len(),
    ensures
        b == (chars@.subrange(lo as int, hi as int) == pat@),
{
    let ghost sub = chars@.subrange(lo as int, hi as int);
    let m = pat.unicode_len();
    if hi - lo != m {
        proof {
            assert(sub.len() != pat@.len());
        }
        return false;
    }
    let mut i: usize = 0;
    while i < m
        invariant
            0 <= i <= m,
            m == pat@.len(),
            lo <= hi <= chars@.len(),
            hi - lo == m,
            sub == chars@.subrange(lo as int, hi as int),
            forall|j: int| 0 <= j < i ==> chars@[lo + j] == pat@[j],
        decreases m - i,
    {
        let c = chars[lo + i];
        let p = pat.get_char(i);
        if c != p {
            proof {
                assert(sub[i as int] == chars@[lo + i]);
            }
            return false;
        }
        i = i + 1;
    }
    proof {
        assert(sub =~= pat@);
    }
    true
}

/// Reads `[lo, hi)` as a number; `None` when it is empty, holds a non-digit
/// or does not fit in `usize`.
fn parse_range_decimal(chars: &Vec<char>, lo: usize, hi: usize) -> (r: Option<usize>)
    requires
        lo <= hi <= chars@.len(),
    ensures
        r == ({
            let sub = chars@.subrange(lo as int, hi as int);
            if all_dec_digits(sub) && dec_value(sub) <= usize::MAX {
                Some(dec_value(sub) as usize)
            } else {
                None::<usize>
            }
        }),
{
    let ghost sub = chars@.subrange(lo as int, hi as int);
    if lo == hi {
        return None;
    }
    let mut value: usize = 0;
    let mut i = lo;
    while i < hi
        invariant
            lo <= i <= hi,
            hi <= chars@.len(),
            lo < hi,
            sub == chars@.subrange(lo as int, hi as int),
            forall|j: int| 0 <= j < i - lo ==> crate::numtext::is_dec_digit(#[trigger] sub[j]),
            value == dec_value(sub.take(i - lo)),
            value <= usize::MAX,
        decreases hi - i,
    {
        let c = chars[i];
        proof {
            assert(sub[i - lo] == chars@[i as int]);
        }
        if !('0' <= c && c <= '9') {
            proof {
                assert(!all_dec_digits(sub));
            }
            return None;
        }
        let d: usize = (c as u32 as usize) - ('0' as u32 as usize);
        proof {
            assert(d == crate::numtext::dec_digit_value(c) && d <= 9);
            assert(sub.take(i - lo + 1).drop_last() =~= sub.take(i - lo));
            assert(sub.take(i - lo + 1).last() == sub[i - lo]);
        }
        if value > (usize::MAX - d) / 10 {
            proof {
                crate::numtext::lemma_dec_value_monotone(sub, i - lo);
                assert(value * 10 + d > usize::MAX) by (nonlinear_arith)
                    requires
                        value > (usize::MAX - d) / 10,
                        d <= 9,
                ;
                assert(dec_value(sub.take(i - lo + 1)) == value * 10 + d);
                assert(dec_value(sub) > usize::MAX);
            }
            return None;
        }
        proof {
            assert(value * 10 + d <= usize::MAX) by (nonlinear_arith)
                requires
                    value <= (usize::MAX - d) / 10,
                    d <= 9,
            ;
        }
        value = value * 10 + d;
        i = i + 1;
    }
    proof {
        assert(sub.take(hi - lo) =~= sub);
        assert(all_dec_digits(sub));
    }
    Some(value)
}

/// The keyword and boolean spellings written as character sequences above
/// are exactly the string literals the reader and writer use.
proof fn lemma_key_literals()
    ensures
        "edges"@ == key_edges(),
        "nodes"@ == key_nodes(),
        "directed"@ == key_directed(),
        "number_of_vertices"@ == key_number_of_vertices(),
        "true"@ == text_true(),
        "false"@ == text_false(),
{
    reveal_strlit("edges");
    reveal_strlit("nodes");
    reveal_strlit("directed");
    reveal_strlit("number_of_vertices");
    reveal_strlit("true");
    reveal_strlit("false");
    assert("edges"@ =~= key_edges());
    assert("nodes"@ =~= key_nodes());
    assert("directed"@ =~= key_directed());
    assert("number_of_vertices"@ =~= key_number_of_vertices());
    assert("true"@ =~= text_true());
    assert("false"@ =~= text_false());
}

/// The node values a token list denotes, if every token parses.
pub open spec fn parse_tokens<T: NodeParse>(tokens: Seq<Seq<char>>) -> Option<Seq<T>>
    decreases tokens.len(),
{
    if tokens.len() == 0 {
        Some(Seq::<T>::empty())
    } else {
        match parse_tokens::<T>(tokens.drop_last()) {
            None => None,
            Some(vals) => match T::parse_spec(tokens.last()) {
                None => None,
                Some(v) => Some(vals.push(v)),
            },
        }
    }
}

/// What the executable reader has gathered, mirroring `ParserState` with the
/// node tokens kept as strings.
struct ParsedFile {
    vertices: usize,
    directed: bool,
    edges: Vec<(usize, usize)>,
    tokens: Vec<String>,
}

/// The executable reader's working state.
struct ReaderVars {
    vertices: Option<usize>,
    directed: Option<bool>,
    edges_mode: bool,
    nodes_mode: bool,
    edges: Vec<(usize, usize)>,
    tokens: Vec<String>,
}

impl ReaderVars {
    /// The reader state these variables stand for.
    spec fn model(&self) -> ParserState {
        ParserState {
            vertices: self.vertices,
            directed: self.directed,
            edges_mode: self.edges_mode,
            nodes_mode: self.nodes_mode,
            edges: self.edges@,
            tokens: self.tokens@.map_values(|t: String| t@),
        }
    }
}

/// Applies one `key: value` declaration, the `:` standing at `col`.
fn apply_keyword_line(
    vars: &mut ReaderVars,
    chars: &Vec<char>,
    lo: usize,
    col: usize,
    hi: usize,
) -> (r: Result<(), GraphError>)
    requires
        lo <= col < hi <= chars@.len(),
        !is_space(chars@[lo as int]),
    ensures
        ({
            let l = chars@.subrange(lo as int, hi as int);
            let k = trim_end(l.take(col - lo));
            let v = trim_start(l.subrange(col - lo + 1, l.len() as int));
            match parse_keyword_line(old(vars).model(), k, v) {
                Ok(st2) => r == Ok::<(), GraphError>(()) && final(vars).model() == st2,
                Err(e) => r == Err::<(), GraphError>(e),
            }
        }),
{
    let ghost l = chars@.subrange(lo as int, hi as int);
    let ktr = crate::textlines::trim_range(chars, lo, col);
    let klo = ktr.0;
    let khi = ktr.1;
    let ghost k0 = chars@.subrange(lo as int, col as int);
    let ghost k = chars@.subrange(klo as int, khi as int);
    proof {
        assert(l.take(col - lo) =~= k0);
        assert(trim(k0) == k);
        if col > lo {
            assert(k0[0] == chars@[lo as int]);
        }
        lemma_trim_end_of_trim(k0);
        assert(trim_end(k0) == k);
        lemma_key_literals();
    }
    let vlo = crate::textlines::find_nonspace(chars, col + 1, hi);
    let ghost v = chars@.subrange(vlo as int, hi as int);
    proof {
        let v0 = chars@.subrange(col + 1, hi as int);
        assert(l.subrange(col - lo + 1, l.len() as int) =~= v0);
        assert(forall|i: int| 0 <= i < vlo - (col + 1) ==> is_space(#[trigger] v0[i]));
        if vlo < hi {
            assert(!is_space(v0[vlo - (col + 1)]));
        }
        crate::textlines::lemma_trim_start_at(v0, vlo - (col + 1));
        assert(v0.subrange(vlo - (col + 1), v0.len() as int) =~= v);
    }
    let key_ok = range_all_key_chars(chars, klo, khi);
    let val_ok = range_all_value_chars(chars, vlo, hi);
    if !key_ok || !val_ok {
        return Err(GraphError::MalformedFileLine);
    }
    if range_matches(chars, klo, khi, "edges") {
        if vlo == hi {
            proof {
                assert(v =~= Seq::<char>::empty());
            }
            vars.edges_mode = true;
            Ok(())
        } else {
            Err(GraphError::MalformedFileLine)
        }
    } else if range_matches(chars, klo, khi, "nodes") {
        if vlo == hi {
            proof {
                assert(v =~= Seq::<char>::empty());
            }
            vars.nodes_mode = true;
            Ok(())
        } else {
            Err(GraphError::MalformedFileLine)
        }
    } else if range_matches(chars, klo, khi, "number_of_vertices") {
        if vars.vertices.is_some() {
            return Err(GraphError::DuplicateFieldDeclaration);
        }
        match parse_range_decimal(chars, vlo, hi) {
            Some(val) => {
                vars.vertices = Some(val);
                Ok(())
            },
            None => Err(GraphError::MalformedFileLine),
        }
    } else if range_matches(chars, klo, khi, "directed") {
        if vars.directed.is_some() {
            return Err(GraphError::DuplicateFieldDeclaration);
        }
        if range_matches(chars, vlo, hi, "true") {
            vars.directed = Some(true);
            Ok(())
        } else if range_matches(chars, vlo, hi, "false") {
            vars.directed = Some(false);
            Ok(())
        } else {
            Err(GraphError::MalformedFileLine)
        }
    } else {
        Err(GraphError::MalformedFileLine)
    }
}

/// For a piece that does not begin with a blank, trimming only the end is
/// the same as trimming both sides.
proof fn lemma_trim_end_of_trim(k0: Seq<char>)
    ensures
        (k0.len() == 0 || !is_space(k0[0])) ==> trim_end(k0) == trim(k0),
{
    if k0.len() == 0 || !is_space(k0[0]) {
        assert(trim_start(k0) == k0);
    }
}

/// Applies one edge line, the first blank standing at `sp`.
fn apply_edge_line(
    vars: &mut ReaderVars,
    chars: &Vec<char>,
    lo: usize,
    sp: usize,
    hi: usize,
) -> (r: Result<(), GraphError>)
    requires
        lo <= sp < hi <= chars@.len(),
        is_space(chars@[sp as int]),
        forall|i: int| lo <= i < sp ==> !is_space(#[trigger] chars@[i]),
        old(vars).edges_mode,
    ensures
        ({
            let l = chars@.subrange(lo as int, hi as int);
            match parse_edge_line(old(vars).model(), l) {
                Ok(st2) => r == Ok::<(), GraphError>(()) && final(vars).model() == st2,
                Err(e) => r == Err::<(), GraphError>(e),
            }
        }),
{
    let ghost l = chars@.subrange(lo as int, hi as int);
    proof {
        assert(l[sp - lo] == chars@[sp as int]);
        assert(forall|i: int| 0 <= i < sp - lo ==> !is_space(#[trigger] l[i]));
        crate::textlines::lemma_split_at_space_at(l, sp - lo);
    }
    let ghost a = chars@.subrange(lo as int, sp as int);
    let blo = crate::textlines::find_nonspace(chars, sp + 1, hi);
    let ghost b = chars@.subrange(blo as int, hi as int);
    proof {
        assert(l.take(sp - lo) =~= a);
        let b0 = chars@.subrange(sp + 1, hi as int);
        assert(l.subrange(sp - lo + 1, l.len() as int) =~= b0);
        assert(forall|i: int| 0 <= i < blo - (sp + 1) ==> is_space(#[trigger] b0[i]));
        if blo < hi {
            assert(!is_space(b0[blo - (sp + 1)]));
        }
        crate::textlines::lemma_trim_start_at(b0, blo - (sp + 1));
        assert(b0.subrange(blo - (sp + 1), b0.len() as int) =~= b);
    }
    let av = parse_range_decimal(chars, lo, sp);
    let bv = parse_range_decimal(chars, blo, hi);
    match (av, bv) {
        (Some(x), Some(y)) => {
            proof {
                assert(no_spaces(b)) by {
                    assert(forall|i: int|
                        0 <= i < b.len() ==> crate::numtext::is_dec_digit(#[trigger] b[i]));
                };
                assert(all_dec_digits(a) && all_dec_digits(b));
            }
            vars.edges.push((x, y));
            Ok(())
        },
        _ => Err(GraphError::MalformedFileLine),
    }
}

/// Applies one raw line `[pos, e)` of the text to the reader.
fn apply_line(vars: &mut ReaderVars, chars: &Vec<char>, text: &str, pos: usize, e: usize) -> (r:
    Result<(), GraphError>)
    requires
        chars@ == text@,
        pos <= e <= chars@.len(),
    ensures
        ({
            let raw = text@.subrange(pos as int, e as int);
            match parse_line(old(vars).model(), raw) {
                Ok(st2) => r == Ok::<(), GraphError>(()) && final(vars).model() == st2,
                Err(er) => r == Err::<(), GraphError>(er),
            }
        }),
{
    let ghost st0 = vars.model();
    let ghost raw = text@.subrange(pos as int, e as int);
    let c = crate::textlines::find_comment(chars, pos, e);
    proof {
        if c < e {
            assert(raw[c - pos] == '/' && raw[c - pos + 1] == '/');
            crate::textlines::lemma_strip_comment_at(raw, c - pos);
            assert(raw.take(c - pos) =~= text@.subrange(pos as int, c as int));
        } else {
            crate::textlines::lemma_strip_comment_none(raw);
        }
        assert(strip_comment(raw) == text@.subrange(pos as int, c as int));
    }
    let tr = crate::textlines::trim_range(chars, pos, c);
    let lo = tr.0;
    let hi = tr.1;
    let ghost l = text@.subrange(lo as int, hi as int);
    proof {
        assert(trim(strip_comment(raw)) == l);
        crate::textlines::lemma_trim_bounds(strip_comment(raw));
    }
    if lo == hi {
        proof {
            assert(parse_line(old(vars).model(), raw) == Ok::<ParserState, GraphError>(
                old(vars).model(),
            ));
        }
        return Ok(());
    }
    let col = crate::textlines::find_colon(chars, lo, hi);
    proof {
        assert(l[0] == chars@[lo as int]);
        assert(!is_space(chars@[lo as int]));
    }
    if col < hi {
        proof {
            crate::textlines::lemma_split_at_colon_at(l, col - lo);
        }
        let r = apply_keyword_line(vars, chars, lo, col, hi);
        proof {
            let l2 = chars@.subrange(lo as int, hi as int);
            assert(l2 == l);
            let k = trim_end(l2.take(col - lo));
            let v = trim_start(l2.subrange(col - lo + 1, l2.len() as int));
            assert(parse_line(st0, raw) == parse_keyword_line(st0, k, v));
            if r is Ok {
                assert(parse_line(st0, raw) == Ok::<ParserState, GraphError>(vars.model()));
            }
        }
        r
    } else {
        proof {
            crate::textlines::lemma_split_at_colon_none(l);
        }
        let sp = crate::textlines::find_space(chars, lo, hi);
        proof {
            if sp < hi {
                assert(l[sp - lo] == chars@[sp as int]);
                assert(!no_spaces(l));
            } else {
                assert(forall|i: int| 0 <= i < l.len() ==> !is_space(#[trigger] l[i]));
            }
        }
        if vars.nodes_mode && sp == hi {
            let tok = text.substring_char(lo, hi).to_owned();
            let ghost toks_before = vars.tokens@.map_values(|t: String| t@);
            vars.tokens.push(tok);
            proof {
                assert(vars.tokens@.map_values(|t: String| t@) =~= toks_before.push(l));
                assert(parse_line(st0, raw) == Ok::<ParserState, GraphError>(vars.model()));
            }
            Ok(())
        } else if vars.edges_mode {
            if sp == hi {
                proof {
                    crate::textlines::lemma_split_at_space_none(l);
                }
                return Err(GraphError::MalformedFileLine);
            }
            let r = apply_edge_line(vars, chars, lo, sp, hi);
            proof {
                let l2 = chars@.subrange(lo as int, hi as int);
                assert(l2 == l);
                assert(parse_line(st0, raw) == parse_edge_line(st0, l2));
                if r is Ok {
                    assert(parse_line(st0, raw) == Ok::<ParserState, GraphError>(vars.model()));
                }
            }
            r
        } else {
            Err(GraphError::MalformedFileLine)
        }
    }
}

/// Reads a whole graph file, returning exactly what `parse_graph_text` says
/// it holds, or the error it says.
fn parse_file_text(text: &str) -> (r: Result<ParsedFile, GraphError>)
    ensures
        match parse_graph_text(text@) {
            Ok(st) => match r {
                Ok(pf) => {
                    &&& pf.vertices == vertices_of(st)
                    &&& pf.directed == directed_of(st)
                    &&& pf.edges@ == st.edges
                    &&& pf.tokens@.map_values(|t: String| t@) == st.tokens
                },
                Err(_) => false,
            },
            Err(e) => r == Err::<ParsedFile, GraphError>(e),
        },
{
    let chars = crate::textlines::chars_of(text);
    let n = chars.len();
    let mut vars = ReaderVars {
        vertices: None,
        directed: None,
        edges_mode: false,
        nodes_mode: false,
        edges: Vec::new(),
        tokens: Vec::new(),
    };
    let mut pos: usize = 0;
    proof {
        assert(vars.tokens@.map_values(|t: String| t@) =~= Seq::<Seq<char>>::empty());
        assert(vars.model() == initial_parser_state());
        assert(text@.subrange(0, n as int) =~= text@);
    }
    while pos < n
        invariant
            chars@ == text@,
            n == chars@.len(),
            0 <= pos <= n,
            parse_text(text@, initial_parser_state()) == parse_text(
                text@.subrange(pos as int, n as int),
                vars.model(),
            ),
        decreases n - pos,
    {
        let ghost rem = text@.subrange(pos as int, n as int);
        let ghost st_cur = vars.model();
        let e = crate::textlines::find_line_end(&chars, pos);
        let ghost raw = text@.subrange(pos as int, e as int);
        proof {
            assert(forall|i: int| 0 <= i < e - pos ==> rem[i] != '\n');
            crate::textlines::lemma_line_split_at(rem, e - pos);
            assert(rem.take(e - pos) =~= raw);
            if e < n {
                assert(rem.subrange(e - pos + 1, rem.len() as int) =~= text@.subrange(
                    e + 1,
                    n as int,
                ));
            }
        }
        match apply_line(&mut vars, &chars, text, pos, e) {
            Ok(u) => {
                pos = if e < n {
                    e + 1
                } else {
                    n
                };
                proof {
                    if e == n {
                        assert(text@.subrange(pos as int, n as int) =~= Seq::<char>::empty());
                        assert(line_split(rem).1 =~= Seq::<char>::empty());
                    }
                    assert(parse_text(rem, st_cur) == parse_text(
                        text@.subrange(pos as int, n as int),
                        vars.model(),
                    ));
                }
            },
            Err(er) => {
                proof {
                    lemma_parse_fails(text@, rem, st_cur, raw, er);
                }
                return Err(er);
            },
        }
    }
    proof {
        assert(text@.subrange(pos as int, n as int) =~= Seq::<char>::empty());
    }
    let nv = match vars.vertices {
        Some(x) => x,
        None => {
            return Err(GraphError::MissingRequiredField);
        },
    };
    let dir = match vars.directed {
        Some(d) => d,
        None => true,
    };
    Ok(ParsedFile { vertices: nv, directed: dir, edges: vars.edges, tokens: vars.tokens })
}

/// A graph with the given nodes, the given directedness and no edges.
/// Construction is refused, with `DuplicateNode`, exactly when two node
/// values compare equal.
pub fn unconnected<T: NodeKey>(nodes: Vec<T>, directed: bool) -> (r: Result<Graph<T>, GraphError>)
    ensures
        match r {
            Ok(g) => {
                &&& distinct_seq(nodes@)
                &&& g.wf()
                &&& g.node_seq() == nodes@
                &&& g.adj_seq() == empty_adjacency(nodes@.len())
                &&& g.spec_directed() == directed
            },
            Err(e) => e == GraphError::DuplicateNode && !distinct_seq(nodes@),
        },
{
    Graph::construct_unconnected(nodes, directed)
}

/// Inserts the listed edges in input order, each by the directed or the
/// undirected insertion; stops at the first edge with an endpoint out of
/// range, exactly as `fold_edges` says.
fn apply_edges<T>(g: &mut Graph<T>, edges: &Vec<(usize, usize)>, directed: bool) -> (r: Result<
    (),
    GraphError,
>)
    requires
        old(g).wf(),
    ensures
        final(g).wf(),
        final(g).node_seq() == old(g).node_seq(),
        final(g).spec_directed() == old(g).spec_directed(),
        match fold_edges(old(g).adj_seq(), edges@, directed) {
            Ok(adj) => r == Ok::<(), GraphError>(()) && final(g).adj_seq() == adj,
            Err(e) => r == Err::<(), GraphError>(e),
        },
{
    let m = edges.len();
    let mut i: usize = 0;
    proof {
        assert(edges@.subrange(0, m as int) =~= edges@);
    }
    while i < m
        invariant
            g.wf(),
            m == edges@.len(),
            0 <= i <= m,
            g.node_seq() == old(g).node_seq(),
            g.spec_directed() == old(g).spec_directed(),
            fold_edges(old(g).adj_seq(), edges@, directed) == fold_edges(
                g.adj_seq(),
                edges@.subrange(i as int, m as int),
                directed,
            ),
        decreases m - i,
    {
        let e = edges[i];
        let ghost rest = edges@.subrange(i as int, m as int);
        proof {
            assert(rest[0] == edges@[i as int]);
            assert(rest.drop_first() =~= edges@.subrange(i + 1, m as int));
        }
        if directed {
            match g.add_directed_edge(e.0, e.1) {
                Ok(u) => {},
                Err(er) => {
                    return Err(er);
                },
            }
        } else {
            match g.add_undirected_edge(e.0, e.1) {
                Ok(u) => {},
                Err(er) => {
                    return Err(er);
                },
            }
        }
        i = i + 1;
    }
    proof {
        assert(edges@.subrange(m as int, m as int) =~= Seq::<(usize, usize)>::empty());
    }
    Ok(())
}

/// Builds a graph from the contents of a graph file whose nodes are the
/// indices themselves: `number_of_vertices` unconnected nodes, then every
/// listed edge, inserted directed or undirected as the file declares.
/// Returns exactly what `graph_from_text` says, or the error it says.
pub fn from_file(text: &str) -> (r: Result<Graph<usize>, GraphError>)
    ensures
        match graph_from_text(text@) {
            Ok(t) => match r {
                Ok(g) => {
                    &&& g.wf()
                    &&& g.node_seq() == Seq::new(t.0 as nat, |i: int| i as usize)
                    &&& g.spec_directed() == t.1
                    &&& g.adj_seq() == t.2
                },
                Err(_) => false,
            },
            Err(e) => r == Err::<Graph<usize>, GraphError>(e),
        },
{
    let pf = match parse_file_text(text) {
        Ok(pf) => pf,
        Err(e) => {
            return Err(e);
        },
    };
    let n = pf.vertices;
    let mut nodes: Vec<usize> = Vec::new();
    let mut i: usize = 0;
    while i < n
        invariant
            0 <= i <= n,
            nodes@.len() == i,
            forall|j: int| 0 <= j < i ==> (#[trigger] nodes@[j] as int) == j,
        decreases n - i,
    {
        nodes.push(i);
        i = i + 1;
    }
    proof {
        assert(nodes@ =~= Seq::new(n as nat, |j: int| j as usize));
        assert(distinct_seq(nodes@));
    }
    let mut g = match Graph::<usize>::construct_unconnected(nodes, pf.directed) {
        Ok(g) => g,
        Err(e) => {
            proof {
                assert(false);
            }
            return Err(e);
        },
    };
    match apply_edges(&mut g, &pf.edges, pf.directed) {
        Ok(u) => Ok(g),
        Err(e) => Err(e),
    }
}

/// Whenever a token list parses as a whole, each of its tokens parses.
proof fn lemma_parse_tokens_prefix<T: NodeParse>(tokens: Seq<Seq<char>>, i: int)
    requires
        0 <= i < tokens.len(),
    ensures
        parse_tokens::<T>(tokens) is Some ==> (parse_tokens::<T>(tokens.take(i)) is Some
            && T::parse_spec(tokens[i]) is Some),
    decreases tokens.len(),
{
    if parse_tokens::<T>(tokens) is Some {
        assert(tokens.drop_last() == tokens.take(tokens.len() - 1));
        if i == tokens.len() - 1 {
        } else {
            lemma_parse_tokens_prefix::<T>(tokens.drop_last(), i);
            assert(tokens.drop_last().take(i) =~= tokens.take(i));
            assert(tokens.drop_last()[i] == tokens[i]);
        }
    }
}

/// Builds a graph from the contents of a graph file with a `nodes:`
/// section: the token count must equal the declared vertex count, every
/// token must parse as a node value, the values must be pairwise distinct,
/// and then every listed edge is inserted as in `from_file`.
pub fn from_file_with_nodes<T: NodeKey + NodeParse>(text: &str) -> (r: Result<
    Graph<T>,
    GraphError,
>)
    ensures
        match parse_graph_text(text@) {
            Err(e) => r == Err::<Graph<T>, GraphError>(e),
            Ok(st) => {
                if st.tokens.len() != vertices_of(st) {
                    r == Err::<Graph<T>, GraphError>(GraphError::MalformedFileLine)
                } else {
                    match parse_tokens::<T>(st.tokens) {
                        None => r == Err::<Graph<T>, GraphError>(GraphError::MalformedFileLine),
                        Some(vals) => {
                            if !distinct_seq(vals) {
                                r == Err::<Graph<T>, GraphError>(GraphError::DuplicateNode)
                            } else {
                                match fold_edges(
                                    empty_adjacency(vals.len()),
                                    st.edges,
                                    directed_of(st),
                                ) {
                                    Ok(adj) => match r {
                                        Ok(g) => {
                                            &&& g.wf()
                                            &&& g.node_seq() == vals
                                            &&& g.spec_directed() == directed_of(st)
                                            &&& g.adj_seq() == adj
                                        },
                                        Err(_) => false,
                                    },
                                    Err(e) => r == Err::<Graph<T>, GraphError>(e),
                                }
                            }
                        },
                    }
                }
            },
        },
{
    let pf = match parse_file_text(text) {
        Ok(pf) => pf,
        Err(e) => {
            return Err(e);
        },
    };
    let ghost toks = pf.tokens@.map_values(|t: String| t@);
    if pf.tokens.len() != pf.vertices {
        return Err(GraphError::MalformedFileLine);
    }
    let m = pf.tokens.len();
    let mut vals: Vec<T> = Vec::new();
    let mut i: usize = 0;
    while i < m
        invariant
            0 <= i <= m,
            m == toks.len(),
            toks == pf.tokens@.map_values(|t: String| t@),
            m == pf.tokens@.len(),
            parse_tokens::<T>(toks.take(i as int)) == Some(vals@),
            match parse_graph_text(text@) {
                Ok(st) => st.tokens == toks && vertices_of(st) == m,
                Err(_) => false,
            },
        decreases m - i,
    {
        let v = match T::parse_token(pf.tokens[i].as_str()) {
            Some(v) => v,
            None => {
                proof {
                    assert(T::parse_spec(toks[i as int]) is None);
                    lemma_parse_tokens_prefix::<T>(toks, i as int);
                    assert(parse_tokens::<T>(toks) is None);
                }
                return Err(GraphError::MalformedFileLine);
            },
        };
        proof {
            assert(toks.take(i + 1).drop_last() =~= toks.take(i as int));
            assert(toks.take(i + 1).last() == toks[i as int]);
        }
        vals.push(v);
        i = i + 1;
    }
    proof {
        assert(toks.take(m as int) =~= toks);
    }
    let mut g = match Graph::<T>::construct_unconnected(vals, pf.directed) {
        Ok(g) => g,
        Err(e) => {
            return Err(e);
        },
    };
    match apply_edges(&mut g, &pf.edges, pf.directed) {
        Ok(u) => Ok(g),
        Err(e) => Err(e),
    }
}

/// Serializes a graph's structure: the fixed comment header, the two
/// declarations, and the edge lines — every successor entry for a directed
/// graph, only entries with `dest > source` for an undirected one — source
/// indices ascending, entries in insertion order within a source.
pub fn make_serialization_string<T>(graph: &Graph<T>) -> (s: String)
    requires
        graph.wf(),
    ensures
        s@ == serialization_text(graph.vertex_count(), graph.spec_directed(), graph.adj_seq()),
{
    let ghost adj = graph.adj_seq();
    let ghost dir = graph.spec_directed();
    let n = graph.number_of_vertices();
    let mut out = String::new();
    out.append("// Graph\n");
    proof {
        reveal_strlit("// Graph\n");
        assert(out@ =~= comment_header());
    }
    out.append("number_of_vertices");
    out.append(": ");
    let nv_text = crate::numtext::to_decimal(n);
    out.append(nv_text.as_str());
    out.append("\n");
    out.append("directed");
    out.append(": ");
    if graph.is_directed() {
        out.append("true");
    } else {
        out.append("false");
    }
    out.append("\n");
    out.append("edges");
    out.append(":\n");
    proof {
        lemma_key_literals();
        reveal_strlit(": ");
        reveal_strlit("\n");
        reveal_strlit(":\n");
        assert(": "@ =~= seq![':', ' ']);
        assert("\n"@ =~= seq!['\n']);
        assert(":\n"@ =~= seq![':', '\n']);
    }
    let ghost base = comment_header() + key_number_of_vertices() + seq![':', ' '] + dec_of(
        n as nat,
    ) + seq!['\n'] + key_directed() + seq![':', ' '] + (if dir {
        text_true()
    } else {
        text_false()
    }) + seq!['\n'] + key_edges() + seq![':', '\n'];
    proof {
        assert(out@ =~= base);
    }
    let ghost full_lines = all_edge_lines(adj, dir, 0);
    let mut src: usize = 0;
    let ghost mut done: Seq<char> = Seq::empty();
    proof {
        assert(base + done =~= out@);
    }
    while src < n
        invariant
            graph.wf(),
            adj == graph.adj_seq(),
            dir == graph.spec_directed(),
            n == graph.vertex_count(),
            0 <= src <= n,
            out@ == base + done,
            full_lines == done + all_edge_lines(adj, dir, src as int),
        decreases n - src,
    {
        let row = graph.adjacency_of(src);
        let row_len = row.len();
        let ghost rowseq = adj[src as int];
        let ghost row_full = row_lines(rowseq, src, dir, 0);
        let mut k: usize = 0;
        let ghost mut rdone: Seq<char> = Seq::empty();
        while k < row_len
            invariant
                graph.wf(),
                adj == graph.adj_seq(),
                dir == graph.spec_directed(),
                n == graph.vertex_count(),
                src < n,
                row@ == rowseq,
                rowseq == adj[src as int],
                row_len == rowseq.len(),
                0 <= k <= row_len,
                out@ == base + done + rdone,
                row_full == rdone + row_lines(rowseq, src, dir, k as int),
                row_full == row_lines(rowseq, src, dir, 0),
            decreases row_len - k,
        {
            let d = row[k];
            if graph.is_directed() || d > src {
                let src_text = crate::numtext::to_decimal(src);
                out.append(src_text.as_str());
                out.append(" ");
                let d_text = crate::numtext::to_decimal(d);
                out.append(d_text.as_str());
                out.append("\n");
                proof {
                    reveal_strlit(" ");
                    reveal_strlit("\n");
                    assert(" "@ =~= seq![' ']);
                    assert("\n"@ =~= seq!['\n']);
                    let piece = edge_line_text(src as nat, d as nat);
                    assert(out@ =~= base + done + (rdone + piece));
                    assert((rdone + piece) + row_lines(rowseq, src, dir, k + 1) =~= rdone + (piece
                        + row_lines(rowseq, src, dir, k + 1)));
                    rdone = rdone + piece;
                }
            } else {
                proof {
                    assert(row_lines(rowseq, src, dir, k as int) == Seq::<char>::empty()
                        + row_lines(rowseq, src, dir, k + 1));
                    assert(Seq::<char>::empty() + row_lines(rowseq, src, dir, k + 1) =~= row_lines(
                        rowseq,
                        src,
                        dir,
                        k + 1,
                    ));
                }
            }
            k = k + 1;
        }
        proof {
            assert(row_lines(rowseq, src, dir, row_len as int) =~= Seq::<char>::empty());
            assert(row_full =~= rdone);
            assert(all_edge_lines(adj, dir, src as int) == row_full + all_edge_lines(
                adj,
                dir,
                src as int + 1,
            ));
            assert((done + row_full) + all_edge_lines(adj, dir, src as int + 1) =~= done + (
            row_full + all_edge_lines(adj, dir, src as int + 1)));
            assert(base + done + rdone =~= base + (done + row_full));
            done = done + row_full;
        }
        src = src + 1;
    }
    proof {
        assert(all_edge_lines(adj, dir, n as int) =~= Seq::<char>::empty());
        assert(full_lines =~= done);
        assert(out@ =~= serialization_text(graph.vertex_count(), dir, adj));
    }
    out
}

/// Serializes a named-node graph: the structure as in
/// `make_serialization_string`, then the `nodes:` section with one node
/// token per line, in index order.
pub fn make_serialization_string_with_nodes<T: NodeDisplay>(graph: &Graph<T>) -> (s: String)
    requires
        graph.wf(),
    ensures
        s@ == serialization_with_nodes_text(
            graph.vertex_count(),
            graph.spec_directed(),
            graph.adj_seq(),
            graph.node_seq(),
        ),
{
    let ghost nodes = graph.node_seq();
    let mut out = make_serialization_string(graph);
    out.append("nodes");
    out.append(":\n");
    proof {
        lemma_key_literals();
        reveal_strlit(":\n");
        assert(":\n"@ =~= seq![':', '\n']);
    }
    let ghost base = serialization_text(
        graph.vertex_count(),
        graph.spec_directed(),
        graph.adj_seq(),
    ) + key_nodes() + seq![':', '\n'];
    proof {
        assert(out@ =~= base);
    }
    let ghost section = nodes_section(nodes, 0);
    let n = graph.number_of_vertices();
    let mut i: usize = 0;
    let ghost mut done: Seq<char> = Seq::empty();
    proof {
        assert(base + done =~= out@);
    }
    while i < n
        invariant
            graph.wf(),
            nodes == graph.node_seq(),
            n == graph.vertex_count(),
            0 <= i <= n,
            out@ == base + done,
            section == done + nodes_section(nodes, i as int),
            section == nodes_section(nodes, 0),
        decreases n - i,
    {
        let value = graph.node_at(i);
        let tok = value.to_token();
        out.append(tok.as_str());
        out.append("\n");
        proof {
            reveal_strlit("\n");
            assert("\n"@ =~= seq!['\n']);
            let piece = nodes[i as int].display_spec() + seq!['\n'];
            assert(out@ =~= base + (done + piece));
            assert(nodes_section(nodes, i as int) == piece + nodes_section(nodes, i + 1));
            assert((done + piece) + nodes_section(nodes, i + 1) =~= done + (piece + nodes_section(
                nodes,
                i + 1,
            )));
            done = done + piece;
        }
        i = i + 1;
    }
    proof {
        assert(nodes_section(nodes, n as int) =~= Seq::<char>::empty());
        assert(section =~= done);
        assert(out@ =~= serialization_with_nodes_text(
            graph.vertex_count(),
            graph.spec_directed(),
            graph.adj_seq(),
            nodes,
        ));
    }
    out
}

/// A refused line refuses the whole text with the same error.
proof fn lemma_parse_fails(
    whole: Seq<char>,
    rem: Seq<char>,
    st: ParserState,
    raw: Seq<char>,
    e: GraphError,
)
    requires
        rem.len() > 0,
        line_split(rem).0 == raw,
        parse_line(st, raw) == Err::<ParserState, GraphError>(e),
        parse_text(whole, initial_parser_state()) == parse_text(rem, st),
    ensures
        parse_graph_text(whole) == Err::<ParserState, GraphError>(e),
{
}

} // verus!
