//! Reading a graph from its text form, one line at a time.
use crate::graph::{adj_of, is_valid_graph, lemma_with_edge_valid, with_edge, Edge};
use std::collections::HashMap;
use vstd::prelude::*;

verus! {

broadcast use vstd::std_specs::hash::group_hash_axioms;

/// An ASCII decimal digit.
pub open spec fn is_digit(b: u8) -> bool {
    48 <= b <= 57
}

/// ASCII white space: space, tab, line feed, vertical tab, form feed, return.
pub open spec fn is_space(b: u8) -> bool {
    b == 32 || (9 <= b <= 13)
}

/// The number that a string of decimal digits writes.
pub open spec fn digits_value(s: Seq<u8>) -> int
    decreases s.len(),
{
    if s.len() == 0 {
        0
    } else {
        digits_value(s.drop_last()) * 10 + (s.last() - 48)
    }
}

/// The digits of an unsigned number: the text without one leading `+`.
pub open spec fn unsigned_digits(s: Seq<u8>) -> Seq<u8> {
    if s.len() > 0 && s[0] == 43 {
        s.drop_first()
    } else {
        s
    }
}

/// The `usize` that a text writes in decimal: an optional `+` and at least one
/// digit, nothing else, of a value that fits.
pub open spec fn usize_of(s: Seq<u8>) -> Option<usize> {
    let d = unsigned_digits(s);
    if d.len() > 0 && (forall|i: int| 0 <= i < d.len() ==> is_digit(#[trigger] d[i]))
        && digits_value(d) <= usize::MAX {
        Some(digits_value(d) as usize)
    } else {
        None
    }
}

proof fn lemma_digits_value_prefix(s: Seq<u8>, k: int)
    requires
        0 <= k <= s.len(),
        forall|i: int| 0 <= i < s.len() ==> is_digit(#[trigger] s[i]),
    ensures
        0 <= digits_value(s.take(k)) <= digits_value(s),
    decreases s.len(),
{
    if s.len() > 0 {
        let p = s.drop_last();
        if k == s.len() {
            assert(s.take(k) =~= s);
            lemma_digits_value_prefix(p, k - 1);
        } else {
            lemma_digits_value_prefix(p, k);
            assert(p.take(k) =~= s.take(k));
        }
        lemma_digits_value_prefix(p, p.len() as int);
        assert(p.take(p.len() as int) =~= p);
    } else {
        assert(s.take(k) =~= s);
    }
}

/// Reads an unsigned decimal number, as `usize`'s `from_str` does.
pub fn parse_usize(s: &Vec<u8>) -> (r: Option<usize>)
    ensures
        r == usize_of(s@),
{
    let ghost d = unsigned_digits(s@);
    let start: usize = if s.len() > 0 && s[0] == 43 {
        1
    } else {
        0
    };
    proof {
        assert(d =~= s@.subrange(start as int, s@.len() as int));
    }
    if start == s.len() {
        return None;
    }
    let mut value: usize = 0;
    let mut i: usize = start;
    while i < s.len()
        invariant
            start <= i <= s.len(),
            start < s.len(),
            d == unsigned_digits(s@),
            d =~= s@.subrange(start as int, s@.len() as int),
            forall|m: int| 0 <= m < i - start ==> is_digit(#[trigger] d[m]),
            value == digits_value(d.take(i - start)),
        decreases s.len() - i,
    {
        let b = s[i];
        proof {
            assert(d[i - start] == b);
            assert(d.take(i - start + 1).drop_last() =~= d.take(i - start));
        }
        if b < 48 || b > 57 {
            proof {
                assert(!is_digit(d[i - start]));
            }
            return None;
        }
        let digit: usize = (b - 48) as usize;
        proof {
            assert(d.take(i - start + 1).last() == b);
            assert(digits_value(d.take(i - start + 1)) == value * 10 + digit);
        }
        match value.checked_mul(10) {
            None => {
                proof {
                    lemma_overflow_none(d, i - start + 1);
                }
                return None;
            },
            Some(v10) => match v10.checked_add(digit) {
                None => {
                    proof {
                        lemma_overflow_none(d, i - start + 1);
                    }
                    return None;
                },
                Some(v) => {
                    value = v;
                },
            },
        }
        i += 1;
    }
    proof {
        assert(d.take(d.len() as int) =~= d);
    }
    Some(value)
}

/// A prefix of digits that already writes too large a number leaves none to
/// read.
proof fn lemma_overflow_none(d: Seq<u8>, k: int)
    requires
        0 < k <= d.len(),
        forall|m: int| 0 <= m < k ==> is_digit(#[trigger] d[m]),
        digits_value(d.take(k)) > usize::MAX,
    ensures
        !(d.len() > 0 && (forall|i: int| 0 <= i < d.len() ==> is_digit(#[trigger] d[i]))
            && digits_value(d) <= usize::MAX),
{
    if forall|i: int| 0 <= i < d.len() ==> is_digit(#[trigger] d[i]) {
        lemma_digits_value_prefix(d, k);
    }
}

/// The words of a text read up to its end: those already closed by white
/// space, and the one still being read.
pub open spec fn scan_words(s: Seq<u8>) -> (Seq<Seq<u8>>, Seq<u8>)
    decreases s.len(),
{
    if s.len() == 0 {
        (Seq::empty(), Seq::empty())
    } else {
        let (ws, cur) = scan_words(s.drop_last());
        if is_space(s.last()) {
            if cur.len() > 0 {
                (ws.push(cur), Seq::empty())
            } else {
                (ws, cur)
            }
        } else {
            (ws, cur.push(s.last()))
        }
    }
}

/// The maximal runs of non-space bytes of a text, in order.
pub open spec fn words(s: Seq<u8>) -> Seq<Seq<u8>> {
    let (ws, cur) = scan_words(s);
    if cur.len() > 0 {
        ws.push(cur)
    } else {
        ws
    }
}

/// The views of a sequence of byte vectors.
pub open spec fn texts_of(v: Seq<Vec<u8>>) -> Seq<Seq<u8>> {
    v.map_values(|l: Vec<u8>| l@)
}

/// Splits a text at ASCII white space, as `split_whitespace` does.
pub fn split_words(s: &Vec<u8>) -> (r: Vec<Vec<u8>>)
    ensures
        texts_of(r@) == words(s@),
{
    let mut ws: Vec<Vec<u8>> = Vec::new();
    let mut cur: Vec<u8> = Vec::new();
    let mut i: usize = 0;
    while i < s.len()
        invariant
            i <= s.len(),
            (texts_of(ws@), cur@) == scan_words(s@.take(i as int)),
        decreases s.len() - i,
    {
        let b = s[i];
        proof {
            assert(s@.take(i + 1).drop_last() =~= s@.take(i as int));
            assert(s@.take(i + 1).last() == b);
        }
        if b == 32 || (9 <= b && b <= 13) {
            if cur.len() > 0 {
                let ghost old_ws = ws@;
                ws.push(cur);
                cur = Vec::new();
                proof {
                    assert(texts_of(ws@) =~= texts_of(old_ws).push(scan_words(s@.take(i as int)).1));
                    assert(cur@ =~= Seq::<u8>::empty());
                }
            }
        } else {
            cur.push(b);
        }
        i += 1;
    }
    proof {
        assert(s@.take(s.len() as int) =~= s@);
    }
    if cur.len() > 0 {
        let ghost old_ws = ws@;
        ws.push(cur);
        proof {
            assert(texts_of(ws@) =~= texts_of(old_ws).push(scan_words(s@).1));
        }
    }
    ws
}

/// An edge line: exactly three words, each an unsigned number.
pub open spec fn edge_of(s: Seq<u8>) -> Option<(usize, usize, usize)> {
    let w = words(s);
    if w.len() == 3 && usize_of(w[0]) is Some && usize_of(w[1]) is Some && usize_of(w[2]) is Some {
        Some((usize_of(w[0])->0, usize_of(w[1])->0, usize_of(w[2])->0))
    } else {
        None
    }
}

/// Reads an edge line `u v w`.
pub fn parse_edge(s: &Vec<u8>) -> (r: Option<(usize, usize, usize)>)
    ensures
        r == edge_of(s@),
{
    let w = split_words(s);
    if w.len() != 3 {
        return None;
    }
    proof {
        assert(w@[0]@ == words(s@)[0]);
        assert(w@[1]@ == words(s@)[1]);
        assert(w@[2]@ == words(s@)[2]);
    }
    match (parse_usize(&w[0]), parse_usize(&w[1]), parse_usize(&w[2])) {
        (Some(u), Some(v), Some(c)) => Some((u, v, c)),
        _ => None,
    }
}

/// Adds an undirected edge `u - v` of cost `cost` when both ends have entries;
/// leaves the map as it is otherwise.
pub fn insert_edge(adjacencies: &mut HashMap<usize, Vec<Edge>>, u: usize, v: usize, cost: usize) -> (r: bool)
    ensures
        r == (old(adjacencies)@.contains_key(u) && old(adjacencies)@.contains_key(v)),
        r ==> adj_of(final(adjacencies)@) == with_edge(adj_of(old(adjacencies)@), u, v, cost),
        !r ==> final(adjacencies)@ == old(adjacencies)@,
{
    if !adjacencies.contains_key(&u) || !adjacencies.contains_key(&v) {
        return false;
    }
    let ghost g = adj_of(adjacencies@);
    let mut to_u = match adjacencies.remove(&u) {
        Some(l) => l,
        None => Vec::new(),
    };
    to_u.push(Edge { id: v, cost: cost });
    adjacencies.insert(u, to_u);
    let ghost g1 = g.insert(u, g[u].push(Edge { id: v, cost: cost }));
    proof {
        assert(adj_of(adjacencies@) =~= g1);
    }
    let mut to_v = match adjacencies.remove(&v) {
        Some(l) => l,
        None => Vec::new(),
    };
    to_v.push(Edge { id: u, cost: cost });
    adjacencies.insert(v, to_v);
    proof {
        assert(adj_of(adjacencies@) =~= with_edge(g, u, v, cost));
    }
    true
}

/// Why a text is not a graph; each variant but the first names the index of the
/// line at fault.
#[derive(Clone, Copy, Debug, PartialEq, Eq)]
pub enum LoadError {
    /// The first line is not a vertex count.
    VertexCount,
    /// A vertex line is not a vertex identifier.
    VertexId(usize),
    /// The line after the vertices is not an edge count.
    EdgeCount(usize),
    /// An edge line is not three numbers.
    EdgeLine(usize),
    /// An edge names a vertex that was not declared.
    UnknownVertex(usize),
}

impl LoadError {
    /// A token that is not the number it should be; the other case is an
    /// undeclared vertex.
    pub fn is_parse_error(&self) -> (r: bool)
        ensures
            r == !(self is UnknownVertex),
    {
        !matches!(self, LoadError::UnknownVertex(_))
    }
}

/// What line `i` does to the graph read from the lines before it: the first
/// line gives the vertex count `n`, the next `n` lines each declare a vertex
/// with no arcs, the next gives an edge count that is read and not used, and
/// every line after that adds an edge between two declared vertices.
pub open spec fn load_step(lines: Seq<Seq<u8>>, i: int, g: Map<usize, Seq<Edge>>) -> Result<
    Map<usize, Seq<Edge>>,
    LoadError,
> {
    if i == 0 {
        if usize_of(lines[0]) is Some {
            Ok(g)
        } else {
            Err(LoadError::VertexCount)
        }
    } else {
        let n = (usize_of(lines[0])->0) as int;
        if i <= n {
            match usize_of(lines[i]) {
                Some(id) => Ok(g.insert(id, Seq::empty())),
                None => Err(LoadError::VertexId(i as usize)),
            }
        } else if i == n + 1 {
            if usize_of(lines[i]) is Some {
                Ok(g)
            } else {
                Err(LoadError::EdgeCount(i as usize))
            }
        } else {
            match edge_of(lines[i]) {
                None => Err(LoadError::EdgeLine(i as usize)),
                Some((u, v, w)) => if g.contains_key(u) && g.contains_key(v) {
                    Ok(with_edge(g, u, v, w))
                } else {
                    Err(LoadError::UnknownVertex(i as usize))
                },
            }
        }
    }
}

/// The graph read from the first `n` lines, or the first error among them.
pub open spec fn load_prefix(lines: Seq<Seq<u8>>, n: int) -> Result<Map<usize, Seq<Edge>>, LoadError>
    decreases n,
{
    if n <= 0 {
        Ok(Map::empty())
    } else {
        match load_prefix(lines, n - 1) {
            Ok(g) => load_step(lines, n - 1, g),
            Err(e) => Err(e),
        }
    }
}

/// The graph that a whole text describes, or the first error in it.
pub open spec fn graph_of_lines(lines: Seq<Seq<u8>>) -> Result<Map<usize, Seq<Edge>>, LoadError> {
    load_prefix(lines, lines.len() as int)
}

proof fn lemma_error_stays(lines: Seq<Seq<u8>>, k: int, n: int, e: LoadError)
    requires
        0 <= k <= n,
        load_prefix(lines, k) == Err::<Map<usize, Seq<Edge>>, LoadError>(e),
    ensures
        load_prefix(lines, n) == Err::<Map<usize, Seq<Edge>>, LoadError>(e),
    decreases n - k,
{
    if k < n {
        lemma_error_stays(lines, k + 1, n, e);
    }
}

/// Reads a graph from the lines of its text form.
pub fn load_graph(lines: &Vec<Vec<u8>>) -> (r: Result<HashMap<usize, Vec<Edge>>, LoadError>)
    ensures
        match r {
            Ok(m) => graph_of_lines(texts_of(lines@)) == Ok::<Map<usize, Seq<Edge>>, LoadError>(
                adj_of(m@),
            ) && is_valid_graph(adj_of(m@)),
            Err(e) => graph_of_lines(texts_of(lines@)) == Err::<Map<usize, Seq<Edge>>, LoadError>(e),
        },
{
    let ghost texts = texts_of(lines@);
    let mut adjacencies: HashMap<usize, Vec<Edge>> = HashMap::new();
    let mut vertices: usize = 0;
    let mut i: usize = 0;
    proof {
        assert(adj_of(adjacencies@) =~= Map::empty());
    }
    while i < lines.len()
        invariant
            i <= lines.len(),
            texts == texts_of(lines@),
            load_prefix(texts, i as int) == Ok::<Map<usize, Seq<Edge>>, LoadError>(adj_of(adjacencies@)),
            i > 0 ==> usize_of(texts[0]) == Some(vertices),
            is_valid_graph(adj_of(adjacencies@)),
            (i == 0 || i <= vertices + 1) ==> forall|k: usize|
                #[trigger] adjacencies@.contains_key(k) ==> adjacencies@[k]@.len() == 0,
        decreases lines.len() - i,
    {
        let line = &lines[i];
        let ghost g = adj_of(adjacencies@);
        proof {
            assert(texts[i as int] == line@);
            assert(load_prefix(texts, i + 1) == load_step(texts, i as int, g));
        }
        if i == 0 {
            match parse_usize(line) {
                Some(n) => {
                    vertices = n;
                },
                None => {
                    proof {
                        lemma_error_stays(texts, 1, texts.len() as int, LoadError::VertexCount);
                    }
                    return Err(LoadError::VertexCount);
                },
            }
        } else if i <= vertices {
            match parse_usize(line) {
                Some(id) => {
                    adjacencies.insert(id, Vec::new());
                    proof {
                        assert(adj_of(adjacencies@) =~= g.insert(id, Seq::empty()));
                    }
                },
                None => {
                    proof {
                        lemma_error_stays(texts, i + 1, texts.len() as int, LoadError::VertexId(i));
                    }
                    return Err(LoadError::VertexId(i));
                },
            }
        } else if i == vertices + 1 {
            if parse_usize(line).is_none() {
                proof {
                    lemma_error_stays(texts, i + 1, texts.len() as int, LoadError::EdgeCount(i));
                }
                return Err(LoadError::EdgeCount(i));
            }
        } else {
            match parse_edge(line) {
                None => {
                    proof {
                        lemma_error_stays(texts, i + 1, texts.len() as int, LoadError::EdgeLine(i));
                    }
                    return Err(LoadError::EdgeLine(i));
                },
                Some((u, v, w)) => {
                    if !insert_edge(&mut adjacencies, u, v, w) {
                        proof {
                            lemma_error_stays(texts, i + 1, texts.len() as int, LoadError::UnknownVertex(i));
                        }
                        return Err(LoadError::UnknownVertex(i));
                    }
                    proof {
                        lemma_with_edge_valid(g, u, v, w);
                    }
                },
            }
        }
        i += 1;
    }
    Ok(adjacencies)
}

} // verus!
