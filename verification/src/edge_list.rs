//! The edge list as text: one edge on each line, two tokens set apart by
//! white space. The first token names the destination of the edge and the
//! second its source.

use crate::graph::{has_node, lemma_with_edge, well_formed, GraphStore, NodeView};
use crate::name_set::names;
use crate::passes::{edge_views, with_edges};
use vstd::prelude::*;

verus! {

/// A line that does not hold two tokens.
#[derive(Clone, Copy, Debug, PartialEq, Eq, Structural)]
pub struct ParseError {
    /// The place of the line in the text, counted from 0.
    pub line: usize,
    /// The number of tokens on it.
    pub tokens: usize,
}

/// `String::push` of std puts one character at the end of the string. Not
/// proved.
pub assume_specification[ String::push ](s: &mut String, ch: char)
    ensures
        final(s)@ == old(s)@.push(ch),
;

/// White space: the characters that Unicode gives the property White_Space.
pub open spec fn is_space(c: char) -> bool {
    let n = c as u32;
    ||| 0x09 <= n <= 0x0d
    ||| n == 0x20
    ||| n == 0x85
    ||| n == 0xa0
    ||| n == 0x1680
    ||| 0x2000 <= n <= 0x200a
    ||| n == 0x2028
    ||| n == 0x2029
    ||| n == 0x202f
    ||| n == 0x205f
    ||| n == 0x3000
}

/// The lines of a text. A line feed ends a line; what follows the last line
/// feed is a line if it is not empty.
pub open spec fn lines_of(text: Seq<char>) -> Seq<Seq<char>>
    decreases text.len(),
{
    if text.len() == 0 {
        Seq::empty()
    } else {
        let before = text.drop_last();
        let c = text.last();
        let fresh = before.len() == 0 || before.last() == '\n';
        if c == '\n' {
            if fresh {
                lines_of(before).push(Seq::empty())
            } else {
                lines_of(before)
            }
        } else {
            if fresh {
                lines_of(before).push(seq![c])
            } else {
                lines_of(before).drop_last().push(lines_of(before).last().push(c))
            }
        }
    }
}

/// The tokens of a line: its longest runs of characters that are not white
/// space.
pub open spec fn tokens_of(line: Seq<char>) -> Seq<Seq<char>>
    decreases line.len(),
{
    if line.len() == 0 {
        Seq::empty()
    } else {
        let before = line.drop_last();
        let c = line.last();
        if is_space(c) {
            tokens_of(before)
        } else if before.len() == 0 || is_space(before.last()) {
            tokens_of(before).push(seq![c])
        } else {
            tokens_of(before).drop_last().push(tokens_of(before).last().push(c))
        }
    }
}

/// The edges that lines of two tokens each stand for, source first: the
/// source is the second token of a line.
pub open spec fn edges_of(lines: Seq<Seq<char>>) -> Seq<(Seq<char>, Seq<char>)> {
    Seq::new(lines.len(), |i: int| (tokens_of(lines[i])[1], tokens_of(lines[i])[0]))
}

/// The nodes that `edges` name.
pub open spec fn endpoints(edges: Seq<(Seq<char>, Seq<char>)>) -> Set<Seq<char>> {
    Set::new(
        |x: Seq<char>|
            exists|k: int|
                0 <= k < edges.len() && ((#[trigger] edges[k]).0 == x || edges[k].1 == x),
    )
}

/// The characters that a vector of lines holds.
pub open spec fn line_views(lines: Seq<Vec<char>>) -> Seq<Seq<char>> {
    Seq::new(lines.len(), |i: int| lines[i]@)
}

/// No line holds a line feed.
pub proof fn lemma_lines_hold_no_line_feed(text: Seq<char>)
    ensures
        forall|i: int, j: int|
            0 <= i < lines_of(text).len() && 0 <= j < lines_of(text)[i].len() ==> (
            #[trigger] lines_of(text)[i][j]) != '\n',
        text.len() > 0 && text.last() != '\n' ==> lines_of(text).len() > 0,
    decreases text.len(),
{
    if text.len() > 0 {
        let before = text.drop_last();
        lemma_lines_hold_no_line_feed(before);
        if before.len() > 0 && before.last() != '\n' {
            assert(lines_of(before).len() > 0);
        }
    }
}

/// Every token has a character, and none of its characters is white space.
pub proof fn lemma_tokens_hold_no_space(line: Seq<char>)
    ensures
        forall|i: int|
            0 <= i < tokens_of(line).len() ==> (#[trigger] tokens_of(line)[i]).len() > 0,
        forall|i: int, j: int|
            0 <= i < tokens_of(line).len() && 0 <= j < tokens_of(line)[i].len() ==> !is_space(
                #[trigger] tokens_of(line)[i][j],
            ),
        line.len() > 0 && !is_space(line.last()) ==> tokens_of(line).len() > 0,
    decreases line.len(),
{
    if line.len() > 0 {
        let before = line.drop_last();
        let c = line.last();
        lemma_tokens_hold_no_space(before);
        let old_tokens = tokens_of(before);
        let new_tokens = tokens_of(line);
        if is_space(c) {
        } else if before.len() == 0 || is_space(before.last()) {
            assert forall|i: int| 0 <= i < new_tokens.len() implies (#[trigger] new_tokens[i]).len()
                > 0 && (forall|j: int| 0 <= j < new_tokens[i].len() ==> !is_space(
                #[trigger] new_tokens[i][j],
            )) by {
                if i < old_tokens.len() {
                    assert(new_tokens[i] == old_tokens[i]);
                }
            }
        } else {
            let last = old_tokens.len() - 1;
            assert(last >= 0);
            assert forall|i: int| 0 <= i < new_tokens.len() implies (#[trigger] new_tokens[i]).len()
                > 0 && (forall|j: int| 0 <= j < new_tokens[i].len() ==> !is_space(
                #[trigger] new_tokens[i][j],
            )) by {
                if i < last {
                    assert(new_tokens[i] == old_tokens[i]);
                } else {
                    assert(new_tokens[i] == old_tokens[last].push(c));
                    assert forall|j: int| 0 <= j < new_tokens[i].len() implies !is_space(
                        #[trigger] new_tokens[i][j],
                    ) by {
                        if j < old_tokens[last].len() {
                            assert(new_tokens[i][j] == old_tokens[last][j]);
                        }
                    }
                }
            }
        }
    }
}

/// A store with nothing but `edges` in it has one entry for each node that
/// the edges name.
pub proof fn lemma_endpoints_counted(edges: Seq<(Seq<char>, Seq<char>)>, default_rank: u64)
    ensures
        endpoints(edges).finite(),
        with_edges(Seq::<NodeView>::empty(), edges, default_rank).len() == endpoints(edges).len(),
{
    let nodes = with_edges(Seq::<NodeView>::empty(), edges, default_rank);
    lemma_store_holds_endpoints(edges, default_rank);
    let ids = Seq::new(nodes.len(), |i: int| nodes[i].id);
    assert(ids.no_duplicates()) by {
        assert forall|i: int, j: int| 0 <= i < ids.len() && 0 <= j < ids.len() && i
            != j implies ids[i] != ids[j] by {
            if i < j {
                assert(nodes[i].id != nodes[j].id);
            } else {
                assert(nodes[j].id != nodes[i].id);
            }
        }
    }
    ids.unique_seq_to_set();
    assert(ids.to_set() =~= endpoints(edges)) by {
        assert forall|x: Seq<char>| ids.to_set().contains(x) <==> endpoints(edges).contains(
            x,
        ) by {
            if ids.to_set().contains(x) {
                let i = choose|i: int| 0 <= i < ids.len() && ids[i] == x;
                assert(nodes[i].id == x);
                assert(has_node(nodes, x));
            }
            if endpoints(edges).contains(x) {
                assert(has_node(nodes, x));
                let i = choose|i: int| 0 <= i < nodes.len() && (#[trigger] nodes[i]).id == x;
                assert(ids[i] == x);
            }
        }
    }
}

proof fn lemma_store_holds_endpoints(edges: Seq<(Seq<char>, Seq<char>)>, default_rank: u64)
    ensures
        well_formed(with_edges(Seq::<NodeView>::empty(), edges, default_rank)),
        forall|x: Seq<char>|
            has_node(with_edges(Seq::<NodeView>::empty(), edges, default_rank), x)
                <==> endpoints(edges).contains(x),
    decreases edges.len(),
{
    let empty = Seq::<NodeView>::empty();
    if edges.len() > 0 {
        let rest = edges.drop_last();
        lemma_store_holds_endpoints(rest, default_rank);
        let mid = with_edges(empty, rest, default_rank);
        lemma_with_edge(mid, edges.last().0, edges.last().1, default_rank);
        let after = with_edges(empty, edges, default_rank);
        assert forall|x: Seq<char>| has_node(after, x) <==> endpoints(edges).contains(x) by {
            if has_node(after, x) {
                if has_node(mid, x) {
                    assert(endpoints(rest).contains(x));
                    let k = choose|k: int|
                        0 <= k < rest.len() && ((#[trigger] rest[k]).0 == x || rest[k].1 == x);
                    assert(edges[k] == rest[k]);
                } else {
                    assert(edges[edges.len() - 1] == edges.last());
                }
            }
            if endpoints(edges).contains(x) {
                let k = choose|k: int|
                    0 <= k < edges.len() && ((#[trigger] edges[k]).0 == x || edges[k].1 == x);
                if k < rest.len() {
                    assert(rest[k] == edges[k]);
                    assert(endpoints(rest).contains(x));
                    assert(has_node(mid, x));
                } else {
                    assert(edges[k] == edges.last());
                }
            }
        }
    }
}

/// Whether `c` is white space.
pub fn is_whitespace(c: char) -> (b: bool)
    ensures
        b == is_space(c),
{
    let n = c as u32;
    (0x09 <= n && n <= 0x0d) || n == 0x20 || n == 0x85 || n == 0xa0 || n == 0x1680 || (0x2000
        <= n && n <= 0x200a) || n == 0x2028 || n == 0x2029 || n == 0x202f || n == 0x205f || n
        == 0x3000
}

/// The characters of `text`.
pub fn chars_of(text: &str) -> (v: Vec<char>)
    ensures
        v@ == text@,
{
    let mut v: Vec<char> = Vec::new();
    for c in it: text.chars()
        invariant
            it.seq() == text@,
            v@ == text@.take(it.index() as int),
    {
        v.push(c);
        assert(text@.take(it.index() as int + 1) =~= text@.take(it.index() as int).push(c));
    }
    assert(text@.take(text@.len() as int) =~= text@);
    v
}

/// The lines of `text`.
pub fn split_lines(text: &Vec<char>) -> (lines: Vec<Vec<char>>)
    ensures
        line_views(lines@) == lines_of(text@),
{
    let mut lines: Vec<Vec<char>> = Vec::new();
    let mut current: Vec<char> = Vec::new();
    let mut open = false;
    let mut i: usize = 0;
    assert(text@.take(0) =~= Seq::<char>::empty());
    assert(line_views(lines@) =~= Seq::<Seq<char>>::empty());
    while i < text.len()
        invariant
            i <= text.len(),
            open <==> i > 0 && text@[i - 1] != '\n',
            !open ==> current@.len() == 0,
            lines_of(text@.take(i as int)) == if open {
                line_views(lines@).push(current@)
            } else {
                line_views(lines@)
            },
        decreases text.len() - i,
    {
        let c = text[i];
        let ghost done = line_views(lines@);
        let ghost line = current@;
        proof {
            assert(text@.take(i as int + 1).drop_last() =~= text@.take(i as int));
            assert(text@.take(i as int + 1).last() == c);
            if i > 0 {
                assert(text@.take(i as int).last() == text@[i - 1]);
            }
        }
        if c == '\n' {
            lines.push(current);
            current = Vec::new();
            proof {
                assert(line_views(lines@) =~= done.push(line));
                if !open {
                    assert(line =~= Seq::<char>::empty());
                }
            }
            open = false;
        } else {
            current.push(c);
            proof {
                assert(done.push(line).drop_last() =~= done);
                assert(done.push(line).last() == line);
                assert(current@ == line.push(c));
                if !open {
                    assert(current@ =~= seq![c]);
                }
            }
            open = true;
        }
        i += 1;
    }
    assert(text@.take(text.len() as int) =~= text@);
    if open {
        let ghost done = line_views(lines@);
        let ghost line = current@;
        lines.push(current);
        assert(line_views(lines@) =~= done.push(line));
    }
    lines
}

/// The tokens of `line`.
pub fn split_tokens(line: &Vec<char>) -> (tokens: Vec<String>)
    ensures
        names(tokens@) == tokens_of(line@),
{
    let mut tokens: Vec<String> = Vec::new();
    let mut current = String::new();
    let mut open = false;
    let mut i: usize = 0;
    assert(line@.take(0) =~= Seq::<char>::empty());
    assert(names(tokens@) =~= Seq::<Seq<char>>::empty());
    while i < line.len()
        invariant
            i <= line.len(),
            open <==> i > 0 && !is_space(line@[i - 1]),
            !open ==> current@.len() == 0,
            tokens_of(line@.take(i as int)) == if open {
                names(tokens@).push(current@)
            } else {
                names(tokens@)
            },
        decreases line.len() - i,
    {
        let c = line[i];
        let ghost done = names(tokens@);
        let ghost token = current@;
        proof {
            assert(line@.take(i as int + 1).drop_last() =~= line@.take(i as int));
            assert(line@.take(i as int + 1).last() == c);
            if i > 0 {
                assert(line@.take(i as int).last() == line@[i - 1]);
            }
        }
        if is_whitespace(c) {
            if open {
                tokens.push(current);
                current = String::new();
                open = false;
                proof {
                    assert(names(tokens@) =~= done.push(token));
                }
            }
        } else {
            current.push(c);
            proof {
                assert(done.push(token).drop_last() =~= done);
                assert(done.push(token).last() == token);
                assert(current@ == token.push(c));
                if !open {
                    assert(current@ =~= seq![c]);
                }
            }
            open = true;
        }
        i += 1;
    }
    assert(line@.take(line.len() as int) =~= line@);
    if open {
        let ghost done = names(tokens@);
        let ghost token = current@;
        tokens.push(current);
        assert(names(tokens@) =~= done.push(token));
    }
    tokens
}

/// The number of nodes that `edges` name.
pub fn count_nodes(edges: &Vec<(String, String)>) -> (n: usize)
    ensures
        n == endpoints(edge_views(edges@)).len(),
{
    let mut seen = GraphStore::new(0);
    crate::passes::apply_edges(&mut seen, edges);
    proof {
        lemma_endpoints_counted(edge_views(edges@), 0);
    }
    seen.len()
}

/// Reads an edge list. Every line must hold two tokens: the destination of
/// an edge, then its source. The edges come back in the order of the lines,
/// source first, with the number of nodes that they name. The first line
/// with another number of tokens is an error, and no edge is given then.
pub fn parse_edge_list(text: &str) -> (r: Result<(Vec<(String, String)>, usize), ParseError>)
    ensures
        match r {
            Ok((edges, node_count)) => {
                &&& forall|i: int|
                    0 <= i < lines_of(text@).len() ==> tokens_of(
                        #[trigger] lines_of(text@)[i],
                    ).len() == 2
                &&& edge_views(edges@) == edges_of(lines_of(text@))
                &&& node_count == endpoints(edge_views(edges@)).len()
            },
            Err(e) => {
                &&& e.line < lines_of(text@).len()
                &&& e.tokens == tokens_of(lines_of(text@)[e.line as int]).len()
                &&& e.tokens != 2
                &&& forall|i: int|
                    0 <= i < e.line ==> tokens_of(#[trigger] lines_of(text@)[i]).len() == 2
            },
        },
{
    let chars = chars_of(text);
    let lines = split_lines(&chars);
    let ghost all = lines_of(text@);
    let mut edges: Vec<(String, String)> = Vec::new();
    let mut i: usize = 0;
    assert(edge_views(edges@) =~= edges_of(all.take(0)));
    while i < lines.len()
        invariant
            i <= lines.len(),
            all == line_views(lines@),
            all == lines_of(text@),
            forall|k: int| 0 <= k < i ==> tokens_of(#[trigger] all[k]).len() == 2,
            edge_views(edges@) == edges_of(all.take(i as int)),
        decreases lines.len() - i,
    {
        let mut tokens = split_tokens(&lines[i]);
        let ghost found = names(tokens@);
        assert(found == tokens_of(all[i as int]));
        if tokens.len() != 2 {
            return Err(ParseError { line: i, tokens: tokens.len() });
        }
        let src = tokens.pop().unwrap();
        let dst = tokens.pop().unwrap();
        let ghost so_far = edge_views(edges@);
        proof {
            assert(src@ == found[1]);
            assert(dst@ == found[0]);
        }
        edges.push((src, dst));
        proof {
            assert(edge_views(edges@) =~= so_far.push((found[1], found[0])));
            assert(edges_of(all.take(i as int + 1)) =~= edges_of(all.take(i as int)).push(
                (found[1], found[0]),
            ));
        }
        i += 1;
    }
    assert(all.take(lines.len() as int) =~= all);
    let node_count = count_nodes(&edges);
    Ok((edges, node_count))
}

} // verus!
