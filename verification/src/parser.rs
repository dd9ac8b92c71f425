//! The HTML parser: a recursive-descent reader of tag-bracketed text into
//! the document model. Malformed input is reported as an error value, never
//! a crash; a fragment with several top-level nodes is wrapped in an
//! implicit `html` root.

use vstd::prelude::*;

use crate::dom::{
    AttrMap, ElementData, ElementDataV, Node, NodeType, NodeTypeV, NodeV, lemma_nodes_view,
    nodes_view, sorted_insert,
};
use crate::strings::{chars_eq, chars_of, is_space, space_char, string_of, sub_chars};

verus! {

broadcast use vstd::std_specs::vec::group_vec_axioms;

/// Why parsing failed.
#[derive(Clone, Copy, PartialEq, Eq, Structural, Debug)]
pub enum ParseError {
    /// An attribute name is not followed by `=`.
    ExpectedEquals,
    /// An attribute value does not open with a quote.
    ExpectedQuote,
    /// An attribute value's closing quote is missing.
    UnterminatedValue,
    /// A tag ends, or the input runs out, before `>`.
    UnclosedTag,
    /// The input runs out before an element's closing tag.
    MissingClosingTag,
    /// A closing tag names a different element than its opening tag.
    MismatchedClosingTag,
}

/// A tag or attribute name character: an ASCII letter or digit.
pub open spec fn is_name_char(c: char) -> bool {
    ('a' <= c && c <= 'z') || ('A' <= c && c <= 'Z') || ('0' <= c && c <= '9')
}

/// Executable form of `is_name_char`.
pub fn name_char(c: char) -> (r: bool)
    ensures
        r == is_name_char(c),
{
    ('a' <= c && c <= 'z') || ('A' <= c && c <= 'Z') || ('0' <= c && c <= '9')
}

/// The first position at or after `pos` that does not hold whitespace.
pub open spec fn sp_skip_ws(s: Seq<char>, pos: int) -> int
    decreases s.len() - pos,
{
    if 0 <= pos < s.len() && is_space(s[pos]) {
        sp_skip_ws(s, pos + 1)
    } else {
        pos
    }
}

/// `sp_skip_ws` moves forward and never past the end.
pub proof fn lemma_skip_ws_bounds(s: Seq<char>, pos: int)
    ensures
        sp_skip_ws(s, pos) >= pos,
        pos <= s.len() ==> sp_skip_ws(s, pos) <= s.len(),
    decreases s.len() - pos,
{
    if 0 <= pos < s.len() && is_space(s[pos]) {
        lemma_skip_ws_bounds(s, pos + 1);
    }
}

/// The first position at or after `pos` that does not hold a name character.
pub open spec fn sp_name_end(s: Seq<char>, pos: int) -> int
    decreases s.len() - pos,
{
    if 0 <= pos < s.len() && is_name_char(s[pos]) {
        sp_name_end(s, pos + 1)
    } else {
        pos
    }
}

/// `sp_name_end` moves forward and never past the end.
pub proof fn lemma_name_end_bounds(s: Seq<char>, pos: int)
    ensures
        sp_name_end(s, pos) >= pos,
        pos <= s.len() ==> sp_name_end(s, pos) <= s.len(),
    decreases s.len() - pos,
{
    if 0 <= pos < s.len() && is_name_char(s[pos]) {
        lemma_name_end_bounds(s, pos + 1);
    }
}

/// The first position at or after `pos` holding `stop`, or the end.
pub open spec fn sp_scan_until(s: Seq<char>, pos: int, stop: char) -> int
    decreases s.len() - pos,
{
    if 0 <= pos < s.len() && s[pos] != stop {
        sp_scan_until(s, pos + 1, stop)
    } else {
        pos
    }
}

/// `sp_scan_until` moves forward and never past the end.
pub proof fn lemma_scan_until_bounds(s: Seq<char>, pos: int, stop: char)
    ensures
        sp_scan_until(s, pos, stop) >= pos,
        pos <= s.len() ==> sp_scan_until(s, pos, stop) <= s.len(),
    decreases s.len() - pos,
{
    if 0 <= pos < s.len() && s[pos] != stop {
        lemma_scan_until_bounds(s, pos + 1, stop);
    }
}

/// Reads `name="value"` pairs up to the closing `>`: each pair folded into
/// the attribute map, later bindings of a name replacing earlier ones.
/// Stops, without consuming it, at `>`.
pub open spec fn sp_parse_attributes(
    s: Seq<char>,
    pos: int,
    attrs: Seq<(Seq<char>, Seq<char>)>,
) -> Result<(Seq<(Seq<char>, Seq<char>)>, int), ParseError>
    decreases s.len() - pos,
    via sp_parse_attributes_dec
{
    let p1 = sp_skip_ws(s, pos);
    if p1 >= s.len() {
        Result::Err(ParseError::UnclosedTag)
    } else if s[p1] == '>' {
        Result::Ok((attrs, p1))
    } else {
        let name_end = sp_name_end(s, p1);
        let name = s.subrange(p1, name_end);
        if name_end >= s.len() || s[name_end] != '=' {
            Result::Err(ParseError::ExpectedEquals)
        } else {
            let q = name_end + 1;
            if q >= s.len() || !(s[q] == '"' || s[q] == '\'') {
                Result::Err(ParseError::ExpectedQuote)
            } else {
                let vend = sp_scan_until(s, q + 1, s[q]);
                if vend >= s.len() {
                    Result::Err(ParseError::UnterminatedValue)
                } else {
                    let value = s.subrange(q + 1, vend);
                    sp_parse_attributes(s, vend + 1, sorted_insert(attrs, name, value))
                }
            }
        }
    }
}

#[via_fn]
proof fn sp_parse_attributes_dec(s: Seq<char>, pos: int, attrs: Seq<(Seq<char>, Seq<char>)>) {
    lemma_skip_ws_bounds(s, pos);
    let p1 = sp_skip_ws(s, pos);
    lemma_name_end_bounds(s, p1);
    let name_end = sp_name_end(s, p1);
    lemma_scan_until_bounds(s, name_end + 2, if name_end + 1 < s.len() {
        s[name_end + 1]
    } else {
        ' '
    });
}

/// Positions only move forward through the attribute reader, and success
/// stops in bounds at `>`.
pub proof fn lemma_parse_attributes_bounds(
    s: Seq<char>,
    pos: int,
    attrs: Seq<(Seq<char>, Seq<char>)>,
)
    ensures
        match sp_parse_attributes(s, pos, attrs) {
            Result::Ok((_, p)) => p >= pos && p < s.len() && s[p] == '>',
            Result::Err(_) => true,
        },
    decreases s.len() - pos,
{
    lemma_skip_ws_bounds(s, pos);
    let p1 = sp_skip_ws(s, pos);
    if p1 >= s.len() {
    } else if s[p1] == '>' {
    } else {
        lemma_name_end_bounds(s, p1);
        let name_end = sp_name_end(s, p1);
        if name_end >= s.len() || s[name_end] != '=' {
        } else {
            let q = name_end + 1;
            if q >= s.len() || !(s[q] == '"' || s[q] == '\'') {
            } else {
                lemma_scan_until_bounds(s, q + 1, s[q]);
                let vend = sp_scan_until(s, q + 1, s[q]);
                if vend >= s.len() {
                } else {
                    let name = s.subrange(p1, name_end);
                    let value = s.subrange(q + 1, vend);
                    lemma_parse_attributes_bounds(s, vend + 1, sorted_insert(attrs, name, value));
                }
            }
        }
    }
}

/// Reads one text node: everything up to the next `<` or the end.
pub open spec fn sp_parse_text(s: Seq<char>, pos: int) -> (NodeV, int) {
    let end = sp_scan_until(s, pos, '<');
    (NodeV { node_type: NodeTypeV::Text(s.subrange(pos, end)), children: Seq::empty() }, end)
}

/// Reads one node: an element at `<`, text otherwise.
pub open spec fn sp_parse_node(s: Seq<char>, pos: int) -> Result<(NodeV, int), ParseError>
    decreases s.len() - pos, 1int,
{
    if 0 <= pos < s.len() && s[pos] == '<' {
        sp_parse_element(s, pos)
    } else {
        Result::Ok(sp_parse_text(s, pos))
    }
}

/// Reads one element: `<`, tag name, attributes, `>`, child nodes, and the
/// matching closing tag.
pub open spec fn sp_parse_element(s: Seq<char>, pos: int) -> Result<(NodeV, int), ParseError>
    decreases s.len() - pos, 0int,
    via sp_parse_element_dec
{
    let name_end = sp_name_end(s, pos + 1);
    let tag = s.subrange(pos + 1, name_end);
    match sp_parse_attributes(s, name_end, Seq::empty()) {
        Result::Err(e) => Result::Err(e),
        Result::Ok((attrs, p2)) => match sp_parse_nodes(s, p2 + 1) {
            Result::Err(e) => Result::Err(e),
            Result::Ok((children, p3)) => {
                if p3 >= s.len() {
                    Result::Err(ParseError::MissingClosingTag)
                } else {
                    let q = p3 + 2;
                    let cl_end = sp_name_end(s, q);
                    if s.subrange(q, cl_end) != tag {
                        Result::Err(ParseError::MismatchedClosingTag)
                    } else if cl_end >= s.len() || s[cl_end] != '>' {
                        Result::Err(ParseError::UnclosedTag)
                    } else {
                        Result::Ok(
                            (
                                NodeV {
                                    node_type: NodeTypeV::Element(
                                        ElementDataV { tag_name: tag, attributes: attrs },
                                    ),
                                    children,
                                },
                                cl_end + 1,
                            ),
                        )
                    }
                }
            },
        },
    }
}

#[via_fn]
proof fn sp_parse_element_dec(s: Seq<char>, pos: int) {
    lemma_name_end_bounds(s, pos + 1);
    let name_end = sp_name_end(s, pos + 1);
    lemma_parse_attributes_bounds(s, name_end, Seq::empty());
}

/// Reads sibling nodes, skipping whitespace between them, until the end or
/// a closing tag. The position a node hands back is clamped forward to give
/// the recursion its measure; a parsed node in fact always moves strictly
/// forward and stays in bounds, so the clamp never fires
/// (`lemma_parse_node_bounds`).
pub open spec fn sp_parse_nodes(s: Seq<char>, pos: int) -> Result<(Seq<NodeV>, int), ParseError>
    decreases s.len() - pos, 2int,
    via sp_parse_nodes_dec
{
    let p1 = sp_skip_ws(s, pos);
    if p1 >= s.len() || (p1 + 1 < s.len() && s[p1] == '<' && s[p1 + 1] == '/') {
        Result::Ok((Seq::empty(), p1))
    } else {
        match sp_parse_node(s, p1) {
            Result::Err(e) => Result::Err(e),
            Result::Ok((node, p2)) => {
                let p2c = if p1 + 1 <= p2 && p2 <= s.len() {
                    p2
                } else {
                    p1 + 1
                };
                match sp_parse_nodes(s, p2c) {
                    Result::Err(e) => Result::Err(e),
                    Result::Ok((nodes, p3)) => Result::Ok((seq![node] + nodes, p3)),
                }
            },
        }
    }
}

#[via_fn]
proof fn sp_parse_nodes_dec(s: Seq<char>, pos: int) {
    lemma_skip_ws_bounds(s, pos);
}

/// A parsed node always moves the position strictly forward; parsed node
/// lists stop in bounds, at the end or at a closing tag.
pub proof fn lemma_parse_node_bounds(s: Seq<char>, pos: int)
    ensures
        match sp_parse_node(s, pos) {
            Result::Ok((_, p)) => (0 <= pos < s.len() ==> p > pos) && p >= pos && (pos <= s.len()
                ==> p <= s.len()),
            Result::Err(_) => true,
        },
    decreases s.len() - pos, 1int,
{
    if 0 <= pos < s.len() && s[pos] == '<' {
        lemma_parse_element_bounds(s, pos);
    } else {
        lemma_scan_until_bounds(s, pos, '<');
        if 0 <= pos < s.len() {
            assert(s[pos] != '<');
            assert(sp_scan_until(s, pos, '<') == sp_scan_until(s, pos + 1, '<'));
            lemma_scan_until_bounds(s, pos + 1, '<');
        }
        if pos > s.len() {
            assert(sp_scan_until(s, pos, '<') == pos);
        }
    }
}

/// A parsed element moves the position strictly forward and stays in
/// bounds.
pub proof fn lemma_parse_element_bounds(s: Seq<char>, pos: int)
    requires
        0 <= pos < s.len(),
    ensures
        match sp_parse_element(s, pos) {
            Result::Ok((_, p)) => p > pos && p <= s.len(),
            Result::Err(_) => true,
        },
    decreases s.len() - pos, 0int,
{
    lemma_name_end_bounds(s, pos + 1);
    let name_end = sp_name_end(s, pos + 1);
    lemma_parse_attributes_bounds(s, name_end, Seq::empty());
    match sp_parse_attributes(s, name_end, Seq::empty()) {
        Result::Err(_) => {},
        Result::Ok((attrs, p2)) => {
            lemma_parse_nodes_bounds(s, p2 + 1);
            match sp_parse_nodes(s, p2 + 1) {
                Result::Err(_) => {},
                Result::Ok((children, p3)) => {
                    if p3 >= s.len() {
                    } else {
                        lemma_name_end_bounds(s, p3 + 2);
                    }
                },
            }
        },
    }
}

/// A parsed node list moves the position forward, stays in bounds, and
/// stops at the end or at `</`.
pub proof fn lemma_parse_nodes_bounds(s: Seq<char>, pos: int)
    ensures
        match sp_parse_nodes(s, pos) {
            Result::Ok((_, p)) => p >= pos && (p >= s.len() || (p + 1 < s.len() && s[p] == '<'
                && s[p + 1] == '/')) && (pos <= s.len() ==> p <= s.len()),
            Result::Err(_) => true,
        },
    decreases s.len() - pos, 2int,
{
    lemma_skip_ws_bounds(s, pos);
    let p1 = sp_skip_ws(s, pos);
    if p1 >= s.len() || (p1 + 1 < s.len() && s[p1] == '<' && s[p1 + 1] == '/') {
    } else {
        lemma_parse_node_bounds(s, p1);
        match sp_parse_node(s, p1) {
            Result::Err(_) => {},
            Result::Ok((node, p2)) => {
                let p2c = if p1 + 1 <= p2 && p2 <= s.len() {
                    p2
                } else {
                    p1 + 1
                };
                lemma_parse_nodes_bounds(s, p2c);
            },
        }
    }
}

/// Reads a whole document: its top-level nodes, returned as the one root
/// where there is exactly one, else wrapped in an implicit `html` element.
pub open spec fn sp_parse(s: Seq<char>) -> Result<NodeV, ParseError> {
    match sp_parse_nodes(s, 0) {
        Result::Err(e) => Result::Err(e),
        Result::Ok((nodes, _)) => {
            if nodes.len() == 1 {
                Result::Ok(nodes[0])
            } else {
                Result::Ok(
                    NodeV {
                        node_type: NodeTypeV::Element(
                            ElementDataV { tag_name: "html"@, attributes: Seq::empty() },
                        ),
                        children: nodes,
                    },
                )
            }
        },
    }
}


// ---------------------------------------------------------------------------
// The executable parser
// ---------------------------------------------------------------------------

/// Skips whitespace.
fn skip_ws(input: &Vec<char>, pos: usize) -> (r: usize)
    requires
        pos <= input@.len(),
    ensures
        r as int == sp_skip_ws(input@, pos as int),
        pos <= r <= input@.len(),
{
    let mut i: usize = pos;
    while i < input.len() && space_char(input[i])
        invariant
            pos <= i <= input@.len(),
            sp_skip_ws(input@, pos as int) == sp_skip_ws(input@, i as int),
        decreases input@.len() - i,
    {
        i = i + 1;
    }
    i
}

/// Scans past a run of name characters.
fn scan_name(input: &Vec<char>, pos: usize) -> (r: usize)
    requires
        pos <= input@.len(),
    ensures
        r as int == sp_name_end(input@, pos as int),
        pos <= r <= input@.len(),
{
    let mut i: usize = pos;
    while i < input.len() && name_char(input[i])
        invariant
            pos <= i <= input@.len(),
            sp_name_end(input@, pos as int) == sp_name_end(input@, i as int),
        decreases input@.len() - i,
    {
        i = i + 1;
    }
    i
}

/// Scans up to the next `stop` character, or the end.
fn scan_until(input: &Vec<char>, pos: usize, stop: char) -> (r: usize)
    requires
        pos <= input@.len(),
    ensures
        r as int == sp_scan_until(input@, pos as int, stop),
        pos <= r <= input@.len(),
{
    let mut i: usize = pos;
    while i < input.len() && input[i] != stop
        invariant
            pos <= i <= input@.len(),
            sp_scan_until(input@, pos as int, stop) == sp_scan_until(input@, i as int, stop),
        decreases input@.len() - i,
    {
        i = i + 1;
    }
    i
}

/// Reads `name="value"` pairs up to, but not past, the closing `>`.
fn parse_attributes(input: &Vec<char>, pos: usize) -> (r: Result<(AttrMap, usize), ParseError>)
    requires
        pos <= input@.len(),
    ensures
        match r {
            Result::Ok(ok) => ok.0.wf() && sp_parse_attributes(input@, pos as int, Seq::empty())
                == Result::<(Seq<(Seq<char>, Seq<char>)>, int), ParseError>::Ok(
                (ok.0@, ok.1 as int),
            ) && ok.1 < input@.len() && input@[ok.1 as int] == '>' && pos <= ok.1,
            Result::Err(e) => sp_parse_attributes(input@, pos as int, Seq::empty())
                == Result::<(Seq<(Seq<char>, Seq<char>)>, int), ParseError>::Err(e),
        },
{
    let mut attrs = AttrMap::new();
    let mut cur: usize = pos;
    proof {
        assert(attrs@ =~= Seq::<(Seq<char>, Seq<char>)>::empty());
    }
    loop
        invariant
            pos <= cur <= input@.len(),
            attrs.wf(),
            sp_parse_attributes(input@, pos as int, Seq::empty()) == sp_parse_attributes(
                input@,
                cur as int,
                attrs@,
            ),
        decreases input@.len() - cur,
    {
        let p1 = skip_ws(input, cur);
        if p1 >= input.len() {
            return Result::Err(ParseError::UnclosedTag);
        }
        if input[p1] == '>' {
            return Result::Ok((attrs, p1));
        }
        let ne = scan_name(input, p1);
        if ne >= input.len() || input[ne] != '=' {
            return Result::Err(ParseError::ExpectedEquals);
        }
        let q = ne + 1;
        let open_ok = if q >= input.len() {
            false
        } else {
            input[q] == '"' || input[q] == '\''
        };
        if !open_ok {
            return Result::Err(ParseError::ExpectedQuote);
        }
        let quote = input[q];
        let vend = scan_until(input, q + 1, quote);
        if vend >= input.len() {
            return Result::Err(ParseError::UnterminatedValue);
        }
        let name_chars = sub_chars(input, p1, ne);
        let value_chars = sub_chars(input, q + 1, vend);
        let name = string_of(&name_chars);
        let value = string_of(&value_chars);
        let ghost before = attrs@;
        attrs.insert(name, value);
        proof {
            assert(sp_parse_attributes(input@, cur as int, before) == sp_parse_attributes(
                input@,
                vend + 1,
                attrs@,
            ));
        }
        cur = vend + 1;
    }
}

/// Reads one text node.
fn parse_text(input: &Vec<char>, pos: usize) -> (r: (Node, usize))
    requires
        pos <= input@.len(),
    ensures
        r.0@ == sp_parse_text(input@, pos as int).0,
        r.1 as int == sp_parse_text(input@, pos as int).1,
        pos <= r.1 <= input@.len(),
{
    let end = scan_until(input, pos, '<');
    let data = string_of(&sub_chars(input, pos, end));
    (crate::dom::text(data), end)
}

/// Reads one node: an element at `<`, text otherwise.
fn parse_node(input: &Vec<char>, pos: usize) -> (r: Result<(Node, usize), ParseError>)
    requires
        pos < input@.len(),
    ensures
        match r {
            Result::Ok(ok) => sp_parse_node(input@, pos as int) == Result::<
                (NodeV, int),
                ParseError,
            >::Ok((ok.0@, ok.1 as int)) && pos < ok.1 <= input@.len(),
            Result::Err(e) => sp_parse_node(input@, pos as int) == Result::<
                (NodeV, int),
                ParseError,
            >::Err(e),
        },
    decreases input@.len() - pos, 1int,
{
    if input[pos] == '<' {
        parse_element(input, pos)
    } else {
        let (node, p) = parse_text(input, pos);
        proof {
            assert(sp_scan_until(input@, pos as int, '<') == sp_scan_until(
                input@,
                pos + 1,
                '<',
            ));
            lemma_scan_until_bounds(input@, pos + 1, '<');
        }
        Result::Ok((node, p))
    }
}

/// Reads one element, its contents and its closing tag.
fn parse_element(input: &Vec<char>, pos: usize) -> (r: Result<(Node, usize), ParseError>)
    requires
        pos < input@.len(),
        input@[pos as int] == '<',
    ensures
        match r {
            Result::Ok(ok) => sp_parse_element(input@, pos as int) == Result::<
                (NodeV, int),
                ParseError,
            >::Ok((ok.0@, ok.1 as int)) && pos < ok.1 <= input@.len(),
            Result::Err(e) => sp_parse_element(input@, pos as int) == Result::<
                (NodeV, int),
                ParseError,
            >::Err(e),
        },
    decreases input@.len() - pos, 0int,
{
    let total = input.len();
    let ne = scan_name(input, pos + 1);
    let tag_chars = sub_chars(input, pos + 1, ne);
    let (attrs, p2) = match parse_attributes(input, ne) {
        Result::Ok(ok) => ok,
        Result::Err(e) => {
            return Result::Err(e);
        },
    };
    let (children, p3) = match parse_nodes(input, p2 + 1) {
        Result::Ok(ok) => ok,
        Result::Err(e) => {
            return Result::Err(e);
        },
    };
    if p3 >= total {
        return Result::Err(ParseError::MissingClosingTag);
    }
    proof {
        lemma_parse_nodes_bounds(input@, p2 + 1);
        assert(p3 + 1 < input@.len());
    }
    let q = p3 + 2;
    let cl_end = scan_name(input, q);
    let cl_chars = sub_chars(input, q, cl_end);
    if !chars_eq(&cl_chars, &tag_chars) {
        return Result::Err(ParseError::MismatchedClosingTag);
    }
    if cl_end >= total {
        return Result::Err(ParseError::UnclosedTag);
    }
    if input[cl_end] != '>' {
        return Result::Err(ParseError::UnclosedTag);
    }
    let tag_name = string_of(&tag_chars);
    let node = Node {
        node_type: NodeType::Element(ElementData { tag_name, attributes: attrs }),
        children,
    };
    proof {
        assert(node@ =~= (NodeV {
            node_type: NodeTypeV::Element(
                ElementDataV {
                    tag_name: input@.subrange(pos + 1, ne as int),
                    attributes: node.node_type->Element_0.attributes@,
                },
            ),
            children: nodes_view(node.children@),
        }));
    }
    Result::Ok((node, cl_end + 1))
}

/// Reads sibling nodes until the end of input or a closing tag.
fn parse_nodes(input: &Vec<char>, pos: usize) -> (r: Result<(Vec<Node>, usize), ParseError>)
    requires
        pos <= input@.len(),
    ensures
        match r {
            Result::Ok(ok) => sp_parse_nodes(input@, pos as int) == Result::<
                (Seq<NodeV>, int),
                ParseError,
            >::Ok((nodes_view(ok.0@), ok.1 as int)) && pos <= ok.1 <= input@.len(),
            Result::Err(e) => sp_parse_nodes(input@, pos as int) == Result::<
                (Seq<NodeV>, int),
                ParseError,
            >::Err(e),
        },
    decreases input@.len() - pos, 2int,
{
    let mut nodes: Vec<Node> = Vec::new();
    let mut cur: usize = pos;
    proof {
        assert(nodes_view(nodes@) =~= Seq::<NodeV>::empty());
    }
    loop
        invariant
            pos <= cur <= input@.len(),
            (match sp_parse_nodes(input@, cur as int) {
                Result::Ok(sok) => sp_parse_nodes(input@, pos as int) == Result::<
                    (Seq<NodeV>, int),
                    ParseError,
                >::Ok((nodes_view(nodes@) + sok.0, sok.1)),
                Result::Err(se) => sp_parse_nodes(input@, pos as int) == Result::<
                    (Seq<NodeV>, int),
                    ParseError,
                >::Err(se),
            }),
        decreases input@.len() - cur,
    {
        let p1 = skip_ws(input, cur);
        let stop = if p1 >= input.len() {
            true
        } else if p1 + 1 < input.len() {
            input[p1] == '<' && input[p1 + 1] == '/'
        } else {
            false
        };
        if stop {
            proof {
                assert(sp_parse_nodes(input@, cur as int) == Result::<
                    (Seq<NodeV>, int),
                    ParseError,
                >::Ok((Seq::<NodeV>::empty(), p1 as int)));
                assert(nodes_view(nodes@) + Seq::<NodeV>::empty() =~= nodes_view(nodes@));
            }
            return Result::Ok((nodes, p1));
        }
        let (node, p2) = match parse_node(input, p1) {
            Result::Ok(ok) => ok,
            Result::Err(e) => {
                return Result::Err(e);
            },
        };
        let ghost before = nodes@;
        let ghost nv = node@;
        nodes.push(node);
        proof {
            lemma_nodes_view(nodes@);
            lemma_nodes_view(before);
            assert(nodes@.drop_last() =~= before);
            assert(nodes_view(nodes@) =~= nodes_view(before).push(nv));
            assert(nodes_view(before).push(nv) =~= nodes_view(before) + seq![nv]);
            match sp_parse_nodes(input@, p2 as int) {
                Result::Ok(sok) => {
                    assert(sp_parse_nodes(input@, cur as int) == Result::<
                        (Seq<NodeV>, int),
                        ParseError,
                    >::Ok((seq![nv] + sok.0, sok.1)));
                    assert(nodes_view(before) + (seq![nv] + sok.0) =~= nodes_view(nodes@) + sok.0);
                },
                Result::Err(se) => {
                    assert(sp_parse_nodes(input@, cur as int) == Result::<
                        (Seq<NodeV>, int),
                        ParseError,
                    >::Err(se));
                },
            }
        }
        cur = p2;
    }
}

/// The HTML reader.
pub struct Parser {}

impl Parser {
    /// Parses a document: the one top-level node where there is exactly
    /// one, else the top-level nodes wrapped in an implicit `html` element.
    /// Malformed input yields the error that `sp_parse` gives it.
    pub fn parse(source: String) -> (r: Result<Node, ParseError>)
        ensures
            match r {
                Result::Ok(node) => sp_parse(source@) == Result::<NodeV, ParseError>::Ok(node@),
                Result::Err(e) => sp_parse(source@) == Result::<NodeV, ParseError>::Err(e),
            },
    {
        let input = chars_of(source.as_str());
        match parse_nodes(&input, 0) {
            Result::Err(e) => Result::Err(e),
            Result::Ok((mut nodes, _)) => {
                let ghost all = nodes@;
                if nodes.len() == 1 {
                    let node = nodes.remove(0);
                    proof {
                        lemma_nodes_view(all);
                        assert(node == all[0]);
                        assert(node@ == nodes_view(all)[0]);
                    }
                    Result::Ok(node)
                } else {
                    let root = crate::dom::elem("html".to_owned(), AttrMap::new(), nodes);
                    proof {
                        lemma_nodes_view(all);
                        assert(root@ =~= (NodeV {
                            node_type: NodeTypeV::Element(
                                ElementDataV {
                                    tag_name: "html"@,
                                    attributes: Seq::empty(),
                                },
                            ),
                            children: nodes_view(all),
                        }));
                    }
                    Result::Ok(root)
                }
            },
        }
    }
}

} // verus!
