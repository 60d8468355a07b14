use vstd::prelude::*;

use crate::dom::{self, element_node, lemma_nodes_view, lemma_nodes_view_push, nodes_view, text_node, AttrMap, Node, SNode};
use crate::parser::{
    concat, debug_char, debug_char_text, lemma_consumed, lemma_take_while_end,
    lemma_take_while_end_ge, msg_end_of_input, msg_expected, serr, starts_with_at, take_while_end,
    whitespace, Parser, ParserResult, SErr, SRes,
};
use crate::string_map::StringMap;

verus! {

// ---------------------------------------------------------------------------
// The grammar, as functions from a text and a char index to the value read
// there and the index after it.
// ---------------------------------------------------------------------------

pub open spec fn is_name_char(c: char) -> bool {
    ('a' <= c && c <= 'z') || ('A' <= c && c <= 'Z') || ('0' <= c && c <= '9')
}

pub open spec fn name_char() -> spec_fn(char) -> bool {
    |c: char| is_name_char(c)
}

pub open spec fn not_lt() -> spec_fn(char) -> bool {
    |c: char| c != '<'
}

pub open spec fn not_char(q: char) -> spec_fn(char) -> bool {
    |c: char| c != q
}

pub open spec fn ws_end(s: Seq<char>, i: nat) -> nat {
    take_while_end(s, i, whitespace())
}

pub open spec fn msg_name() -> Seq<char> {
    "Expected tag or attribute name"@
}

pub open spec fn msg_opening_quote(c: char) -> Seq<char> {
    "Expected opening quote, got "@ + debug_char_text(c)
}

pub open spec fn msg_closing_quote(q: char, c: char) -> Seq<char> {
    "Expected closing "@ + debug_char_text(q) + ", got "@ + debug_char_text(c)
}

pub open spec fn msg_attributes_end() -> Seq<char> {
    "Unexpected end of input while parsing attributes"@
}

pub open spec fn spec_expect(s: Seq<char>, i: nat, t: Seq<char>) -> SRes<()> {
    if starts_with_at(s, i as int, t) {
        Ok(((), i + t.len()))
    } else {
        Err(serr(msg_expected(t), i))
    }
}

pub open spec fn spec_parse_name(s: Seq<char>, i: nat) -> SRes<Seq<char>> {
    let j = take_while_end(s, i, name_char());
    if j == i {
        Err(serr(msg_name(), j))
    } else {
        Ok((s.subrange(i as int, j as int), j))
    }
}

/// A tag or attribute name is a maximal non-empty run of ASCII letters and
/// digits: reading a name at `i` succeeds exactly where such a char stands
/// there, and then gives all of the run and stops at the first char after
/// it that is not one.
pub proof fn lemma_name_is_alphanumeric_run(s: Seq<char>, i: nat)
    requires
        i <= s.len(),
    ensures
        match spec_parse_name(s, i) {
            Ok((name, j)) => {
                &&& i < j <= s.len()
                &&& name == s.subrange(i as int, j as int)
                &&& forall|k: int|
                    i <= k < j ==> ('a' <= #[trigger] s[k] <= 'z' || 'A' <= s[k] <= 'Z' || '0' <= s[k]
                        <= '9')
                &&& j < s.len() ==> !('a' <= s[j as int] <= 'z' || 'A' <= s[j as int] <= 'Z' || '0'
                    <= s[j as int] <= '9')
            },
            Err(e) => e.at == i && e.message == msg_name() && (i == s.len() || !('a' <= s[i as int]
                <= 'z' || 'A' <= s[i as int] <= 'Z' || '0' <= s[i as int] <= '9')),
        },
{
    lemma_take_while_end(s, i, name_char());
    let j = take_while_end(s, i, name_char());
    assert forall|k: int| i <= k < j implies ('a' <= #[trigger] s[k] <= 'z' || 'A' <= s[k] <= 'Z'
        || '0' <= s[k] <= '9') by {
        assert(name_char()(s[k]));
    }
    if j < s.len() {
        assert(!name_char()(s[j as int]));
    }
}

pub open spec fn spec_parse_text(s: Seq<char>, i: nat) -> SRes<SNode> {
    let j = take_while_end(s, i, not_lt());
    Ok((text_node(s.subrange(i as int, j as int)), j))
}

pub open spec fn spec_parse_attr_value(s: Seq<char>, i: nat) -> SRes<Seq<char>> {
    if i >= s.len() {
        Err(serr(msg_end_of_input(), i))
    } else {
        let q = s[i as int];
        if q != '"' && q != '\'' {
            Err(serr(msg_opening_quote(q), i + 1))
        } else {
            let j = take_while_end(s, i + 1, not_char(q));
            if j >= s.len() {
                Err(serr(msg_end_of_input(), j))
            } else if s[j as int] != q {
                Err(serr(msg_closing_quote(q, s[j as int]), j + 1))
            } else {
                Ok((s.subrange(i + 1 as int, j as int), j + 1))
            }
        }
    }
}

pub open spec fn spec_parse_attr(s: Seq<char>, i: nat) -> SRes<(Seq<char>, Seq<char>)> {
    match spec_parse_name(s, i) {
        Err(e) => Err(e),
        Ok((name, j)) => match spec_expect(s, j, "="@) {
            Err(e) => Err(e),
            Ok((_, k)) => match spec_parse_attr_value(s, k) {
                Err(e) => Err(e),
                Ok((value, m)) => Ok(((name, value), m)),
            },
        },
    }
}

pub proof fn lemma_parse_attr_advances(s: Seq<char>, i: nat)
    requires
        i <= s.len(),
    ensures
        spec_parse_attr(s, i) matches Ok((_, j)) ==> i < j <= s.len(),
{
    lemma_take_while_end(s, i, name_char());
    let j = take_while_end(s, i, name_char());
    if let Ok((_, k)) = spec_expect(s, j, "="@) {
        if k < s.len() {
            lemma_take_while_end(s, k + 1, not_char(s[k as int]));
        }
    }
}

/// The attributes from index `i` to the closing `>`, added to `acc`.
pub open spec fn spec_parse_attributes(
    s: Seq<char>,
    i: nat,
    acc: Map<Seq<char>, Seq<char>>,
) -> SRes<Map<Seq<char>, Seq<char>>>
    decreases s.len() - i,
{
    let k = ws_end(s, i);
    if k >= s.len() {
        Err(serr(msg_attributes_end(), k))
    } else if s[k as int] == '>' {
        Ok((acc, k))
    } else {
        match spec_parse_attr(s, k) {
            Err(e) => Err(e),
            Ok(((name, value), j)) => {
                proof {
                    lemma_take_while_end_ge(s, i, whitespace());
                    lemma_parse_attr_advances(s, k);
                }
                spec_parse_attributes(s, j, acc.insert(name, value))
            },
        }
    }
}

/// The sibling nodes from index `i` up to the end of the text or a closing
/// tag.
pub open spec fn spec_parse_nodes(s: Seq<char>, i: nat) -> SRes<Seq<SNode>>
    decreases s.len() - i, 2nat,
{
    let k = ws_end(s, i);
    if k >= s.len() || starts_with_at(s, k as int, "</"@) {
        Ok((Seq::empty(), k))
    } else {
        proof {
            lemma_take_while_end_ge(s, i, whitespace());
        }
        match spec_parse_node(s, k) {
            Err(e) => Err(e),
            Ok((n, j)) => if k < j <= s.len() {
                match spec_parse_nodes(s, j) {
                    Err(e) => Err(e),
                    Ok((rest, m)) => Ok((seq![n] + rest, m)),
                }
            } else {
                Ok((seq![n], j))
            },
        }
    }
}

pub open spec fn spec_parse_node(s: Seq<char>, i: nat) -> SRes<SNode>
    decreases s.len() - i, 1nat,
{
    if i > s.len() {
        Err(serr(msg_end_of_input(), i))
    } else if starts_with_at(s, i as int, "<"@) {
        spec_parse_element(s, i)
    } else {
        spec_parse_text(s, i)
    }
}

pub open spec fn spec_parse_element(s: Seq<char>, i: nat) -> SRes<SNode>
    decreases s.len() - i, 0nat,
{
    match spec_expect(s, i, "<"@) {
        Err(e) => Err(e),
        Ok((_, a)) => match spec_parse_name(s, a) {
            Err(e) => Err(e),
            Ok((tag, b)) => match spec_parse_attributes(s, b, Map::empty()) {
                Err(e) => Err(e),
                Ok((attrs, c)) => match spec_expect(s, c, ">"@) {
                    Err(e) => Err(e),
                    Ok((_, d)) => if i < d <= s.len() {
                        match spec_parse_nodes(s, d) {
                            Err(e) => Err(e),
                            Ok((children, e0)) => match spec_expect(s, e0, "</"@) {
                                Err(e) => Err(e),
                                Ok((_, f)) => match spec_expect(s, f, tag) {
                                    Err(e) => Err(e),
                                    Ok((_, g)) => match spec_expect(s, g, ">"@) {
                                        Err(e) => Err(e),
                                        Ok((_, h)) => Ok((element_node(tag, attrs, children), h)),
                                    },
                                },
                            },
                        }
                    } else {
                        Err(serr(msg_end_of_input(), d))
                    },
                },
            },
        },
    }
}

/// The document that a source text parses to: its one top-level node, or
/// an `html` element that holds all of them.
pub open spec fn spec_parse_document(s: Seq<char>) -> Result<SNode, SErr> {
    match spec_parse_nodes(s, 0) {
        Err(e) => Err(e),
        Ok((nodes, _)) => if nodes.len() == 1 {
            Ok(nodes[0])
        } else {
            Ok(element_node("html"@, Map::empty(), nodes))
        },
    }
}

// ---------------------------------------------------------------------------
// Facts about the grammar
// ---------------------------------------------------------------------------

pub proof fn lemma_parse_attributes_bounds(
    s: Seq<char>,
    i: nat,
    acc: Map<Seq<char>, Seq<char>>,
)
    requires
        i <= s.len(),
    ensures
        spec_parse_attributes(s, i, acc) matches Ok((_, j)) ==> i <= j < s.len() && s[j as int]
            == '>',
    decreases s.len() - i,
{
    lemma_take_while_end(s, i, whitespace());
    let k = ws_end(s, i);
    if k < s.len() && s[k as int] != '>' {
        lemma_parse_attr_advances(s, k);
        if let Ok(((name, value), j)) = spec_parse_attr(s, k) {
            lemma_parse_attributes_bounds(s, j, acc.insert(name, value));
        }
    }
}

/// A node read from index `i` ends after `i`, within the text.
pub proof fn lemma_parse_node_advances(s: Seq<char>, i: nat)
    requires
        i < s.len(),
        !starts_with_at(s, i as int, "</"@),
    ensures
        spec_parse_node(s, i) matches Ok((_, j)) ==> i < j <= s.len(),
    decreases s.len() - i, 1nat,
{
    reveal_strlit("<");
    reveal_strlit("</");
    if starts_with_at(s, i as int, "<"@) {
        let a = i + 1;
        lemma_take_while_end(s, a, name_char());
        if let Ok((tag, b)) = spec_parse_name(s, a) {
            lemma_parse_attributes_bounds(s, b, Map::empty());
            if let Ok((attrs, c)) = spec_parse_attributes(s, b, Map::empty()) {
                if let Ok((_, d)) = spec_expect(s, c, ">"@) {
                    if i < d <= s.len() {
                        lemma_parse_nodes_bounds(s, d);
                    }
                }
            }
        }
    } else {
        lemma_take_while_end(s, i, not_lt());
        if s[i as int] == '<' {
            assert(s.subrange(i as int, i + 1 as int) =~= "<"@);
        }
    }
}

pub proof fn lemma_parse_nodes_bounds(s: Seq<char>, i: nat)
    requires
        i <= s.len(),
    ensures
        spec_parse_nodes(s, i) matches Ok((_, j)) ==> i <= j <= s.len(),
    decreases s.len() - i, 2nat,
{
    lemma_take_while_end(s, i, whitespace());
    let k = ws_end(s, i);
    if !(k >= s.len() || starts_with_at(s, k as int, "</"@)) {
        lemma_parse_node_advances(s, k);
        if let Ok((n, j)) = spec_parse_node(s, k) {
            if k < j <= s.len() {
                lemma_parse_nodes_bounds(s, j);
            }
        }
    }
}

// ---------------------------------------------------------------------------
// The parser
// ---------------------------------------------------------------------------

pub struct HtmlParser {
    parser: Parser,
}

fn is_name_char_exec(c: char) -> (r: bool)
    ensures
        r == is_name_char(c),
{
    ('a' <= c && c <= 'z') || ('A' <= c && c <= 'Z') || ('0' <= c && c <= '9')
}

fn not_lt_exec(c: char) -> (r: bool)
    ensures
        r == (c != '<'),
{
    c != '<'
}

impl HtmlParser {
    /// Parses a document: its one top-level node, or an `html` element that
    /// holds all of them. Text after the last closing tag at the top level
    /// is not read.
    pub fn parse(source: String) -> (r: ParserResult<Node>)
        ensures
            match (r, spec_parse_document(source@)) {
                (Ok(n), Ok(sn)) => n@ == sn,
                (Err(e), Err(se)) => e.models(source@, se),
                _ => false,
            },
    {
        let mut html = HtmlParser { parser: Parser::new(source) };
        let mut nodes = html.parse_nodes()?;
        proof {
            broadcast use lemma_nodes_view;

        }
        if nodes.len() == 1 {
            let ghost v = nodes@;
            let n = nodes.remove(0);
            assert(n == v[0]);
            return Ok(n);
        }
        Ok(dom::elem(String::from_str("html"), StringMap::new(), nodes))
    }

    fn parse_name(&mut self) -> (r: ParserResult<String>)
        requires
            old(self).parser.wf(),
        ensures
            ({
                let p = old(self).parser;
                match (r, spec_parse_name(p.text(), p.cursor())) {
                    (Ok(v), Ok((sv, j))) => v@ == sv && p.moved_to(&final(self).parser, j),
                    (Err(e), Err(se)) => p.raises(e, se),
                    _ => false,
                }
            }),
    {
        let ghost s = self.parser.text();
        let ghost i = self.parser.cursor();
        let r = self.parser.consume_while(is_name_char_exec);
        let name = match r {
            Ok(v) => v,
            Err(e) => return Err(e),
        };
        proof {
            lemma_consumed(is_name_char_exec, name_char(), s, i, self.parser.cursor());
        }
        if name.as_str().is_empty() {
            return Err(self.parser.err(String::from_str("Expected tag or attribute name")));
        }
        Ok(name)
    }

    fn parse_text(&mut self) -> (r: ParserResult<Node>)
        requires
            old(self).parser.wf(),
        ensures
            ({
                let p = old(self).parser;
                match (r, spec_parse_text(p.text(), p.cursor())) {
                    (Ok(v), Ok((sv, j))) => v@ == sv && p.moved_to(&final(self).parser, j),
                    _ => false,
                }
            }),
    {
        let ghost s = self.parser.text();
        let ghost i = self.parser.cursor();
        let r = self.parser.consume_while(not_lt_exec);
        let t = match r {
            Ok(v) => v,
            Err(e) => return Err(e),
        };
        proof {
            lemma_consumed(not_lt_exec, not_lt(), s, i, self.parser.cursor());
        }
        Ok(dom::text(t))
    }

    fn expect(&mut self, t: &str) -> (r: ParserResult<()>)
        requires
            old(self).parser.wf(),
        ensures
            ({
                let p = old(self).parser;
                match (r, spec_expect(p.text(), p.cursor(), t@)) {
                    (Ok(_), Ok((_, j))) => p.moved_to(&final(self).parser, j),
                    (Err(e), Err(se)) => p.raises(e, se),
                    _ => false,
                }
            }),
    {
        self.parser.expect(t)
    }

    fn parse_attr_value(&mut self) -> (r: ParserResult<String>)
        requires
            old(self).parser.wf(),
        ensures
            ({
                let p = old(self).parser;
                match (r, spec_parse_attr_value(p.text(), p.cursor())) {
                    (Ok(v), Ok((sv, j))) => v@ == sv && p.moved_to(&final(self).parser, j),
                    (Err(e), Err(se)) => p.raises(e, se),
                    _ => false,
                }
            }),
    {
        let ghost s = self.parser.text();
        let open_quote = self.parser.consume()?;
        if open_quote != '"' && open_quote != '\'' {
            let m = concat("Expected opening quote, got ", debug_char(open_quote).as_str());
            return Err(self.parser.err(m));
        }
        let ghost i1 = self.parser.cursor();
        let pred = move |c: char| -> (b: bool)
            ensures
                b == (c != open_quote),
            { c != open_quote };
        let value = match self.parser.consume_while(pred) {
            Ok(v) => v,
            Err(e) => return Err(e),
        };
        proof {
            lemma_consumed(pred, not_char(open_quote), s, i1, self.parser.cursor());
        }
        let close_quote = self.parser.consume()?;
        if close_quote != open_quote {
            let m = concat("Expected closing ", debug_char(open_quote).as_str());
            let m = concat(m.as_str(), ", got ");
            let m = concat(m.as_str(), debug_char(close_quote).as_str());
            return Err(self.parser.err(m));
        }
        Ok(value)
    }

    fn parse_attr(&mut self) -> (r: ParserResult<(String, String)>)
        requires
            old(self).parser.wf(),
        ensures
            ({
                let p = old(self).parser;
                match (r, spec_parse_attr(p.text(), p.cursor())) {
                    (Ok(v), Ok((sv, j))) => v.0@ == sv.0 && v.1@ == sv.1 && p.moved_to(
                        &final(self).parser,
                        j,
                    ),
                    (Err(e), Err(se)) => p.raises(e, se),
                    _ => false,
                }
            }),
    {
        let name = self.parse_name()?;
        self.expect("=")?;
        let value = self.parse_attr_value()?;
        Ok((name, value))
    }

    fn parse_attributes(&mut self) -> (r: ParserResult<AttrMap>)
        requires
            old(self).parser.wf(),
        ensures
            ({
                let p = old(self).parser;
                match (r, spec_parse_attributes(p.text(), p.cursor(), Map::empty())) {
                    (Ok(v), Ok((sv, j))) => v@ == sv && p.moved_to(&final(self).parser, j),
                    (Err(e), Err(se)) => p.raises(e, se),
                    _ => false,
                }
            }),
    {
        let ghost s = self.parser.text();
        let ghost start = self.parser.cursor();
        let mut attributes: AttrMap = StringMap::new();
        proof {
            self.parser.lemma_wf();
        }
        loop
            invariant
                self.parser.wf(),
                self.parser.text() == s,
                old(self).parser.moved_to(&self.parser, self.parser.cursor()),
                start <= self.parser.cursor() <= s.len(),
                s == old(self).parser.text(),
                start == old(self).parser.cursor(),
                spec_parse_attributes(s, start, Map::empty()) == spec_parse_attributes(
                    s,
                    self.parser.cursor(),
                    attributes@,
                ),
            ensures
                self.parser.wf(),
                old(self).parser.moved_to(&self.parser, self.parser.cursor()),
                spec_parse_attributes(s, start, Map::empty()) == Ok::<
                    (Map<Seq<char>, Seq<char>>, nat),
                    SErr,
                >((attributes@, self.parser.cursor())),
            decreases s.len() - self.parser.cursor(),
        {
            let ghost i = self.parser.cursor();
            let ghost before = self.parser;
            let _ = self.parser.consume_whitespace();
            proof {
                lemma_take_while_end(s, i, whitespace());
            }
            if self.parser.eof() {
                let e = self.parser.err(
                    String::from_str("Unexpected end of input while parsing attributes"),
                );
                return Err(e);
            }
            if self.parser.next()? == '>' {
                break;
            }
            let ghost k = self.parser.cursor();
            let (name, value) = self.parse_attr()?;
            proof {
                lemma_parse_attr_advances(s, k);
            }
            attributes.insert(name, value);
        }
        Ok(attributes)
    }

    fn parse_nodes(&mut self) -> (r: ParserResult<Vec<Node>>)
        requires
            old(self).parser.wf(),
        ensures
            ({
                let p = old(self).parser;
                match (r, spec_parse_nodes(p.text(), p.cursor())) {
                    (Ok(v), Ok((sv, j))) => nodes_view(v@) == sv && p.moved_to(
                        &final(self).parser,
                        j,
                    ),
                    (Err(e), Err(se)) => p.raises(e, se),
                    _ => false,
                }
            }),
        decreases old(self).parser.text().len() - old(self).parser.cursor(), 2nat,
    {
        let ghost s = self.parser.text();
        let ghost start = self.parser.cursor();
        let mut nodes: Vec<Node> = Vec::new();
        proof {
            self.parser.lemma_wf();
        }
        loop
            invariant
                self.parser.wf(),
                self.parser.text() == s,
                s == old(self).parser.text(),
                start == old(self).parser.cursor(),
                old(self).parser.moved_to(&self.parser, self.parser.cursor()),
                start <= self.parser.cursor() <= s.len(),
                spec_parse_nodes(s, start) == prepend(
                    nodes_view(nodes@),
                    spec_parse_nodes(s, self.parser.cursor()),
                ),
            ensures
                self.parser.wf(),
                old(self).parser.moved_to(&self.parser, self.parser.cursor()),
                spec_parse_nodes(s, start) == Ok::<(Seq<SNode>, nat), SErr>(
                    (nodes_view(nodes@), self.parser.cursor()),
                ),
            decreases s.len() - self.parser.cursor(),
        {
            let ghost i = self.parser.cursor();
            let ghost before = self.parser;
            let _ = self.parser.consume_whitespace();
            proof {
                lemma_take_while_end(s, i, whitespace());
            }
            if self.parser.eof() || self.parser.starts_with("</") {
                proof {
                    assert(nodes_view(nodes@) + Seq::<SNode>::empty() =~= nodes_view(nodes@));
                }
                break;
            }
            let ghost k = self.parser.cursor();
            let node = self.parse_node()?;
            proof {
                lemma_parse_node_advances(s, k);
                lemma_nodes_view_push(nodes@, node);
                let j = self.parser.cursor();
                match spec_parse_nodes(s, j) {
                    Ok((rest, m)) => {
                        assert(nodes_view(nodes@) + (seq![node@] + rest) =~= nodes_view(
                            nodes@,
                        ).push(node@) + rest);
                    },
                    Err(_) => {},
                }
            }
            nodes.push(node);
        }
        Ok(nodes)
    }

    fn parse_node(&mut self) -> (r: ParserResult<Node>)
        requires
            old(self).parser.wf(),
        ensures
            ({
                let p = old(self).parser;
                match (r, spec_parse_node(p.text(), p.cursor())) {
                    (Ok(v), Ok((sv, j))) => v@ == sv && p.moved_to(&final(self).parser, j),
                    (Err(e), Err(se)) => p.raises(e, se),
                    _ => false,
                }
            }),
        decreases old(self).parser.text().len() - old(self).parser.cursor(), 1nat,
    {
        proof {
            self.parser.lemma_wf();
        }
        if self.parser.starts_with("<") {
            return self.parse_element();
        }
        self.parse_text()
    }

    fn parse_element(&mut self) -> (r: ParserResult<Node>)
        requires
            old(self).parser.wf(),
        ensures
            ({
                let p = old(self).parser;
                match (r, spec_parse_element(p.text(), p.cursor())) {
                    (Ok(v), Ok((sv, j))) => v@ == sv && p.moved_to(&final(self).parser, j),
                    (Err(e), Err(se)) => p.raises(e, se),
                    _ => false,
                }
            }),
        decreases old(self).parser.text().len() - old(self).parser.cursor(), 0nat,
    {
        let ghost s = self.parser.text();
        let ghost i = self.parser.cursor();
        proof {
            reveal_strlit("<");
            reveal_strlit(">");
        }
        self.expect("<")?;
        let ghost a = self.parser.cursor();
        let tag_name = self.parse_name()?;
        proof {
            lemma_take_while_end_ge(s, a, name_char());
            self.parser.lemma_wf();
        }
        let ghost b = self.parser.cursor();
        let attrs = self.parse_attributes()?;
        proof {
            lemma_parse_attributes_bounds(s, b, Map::empty());
        }
        self.expect(">")?;
        proof {
            self.parser.lemma_wf();
        }
        let children = self.parse_nodes()?;
        self.expect("</")?;
        self.expect(tag_name.as_str())?;
        self.expect(">")?;
        Ok(dom::elem(tag_name, attrs, children))
    }
}

/// `pre` put before the nodes of `r`, if `r` succeeded.
pub open spec fn prepend(pre: Seq<SNode>, r: SRes<Seq<SNode>>) -> SRes<Seq<SNode>> {
    match r {
        Err(e) => Err(e),
        Ok((rest, m)) => Ok((pre + rest, m)),
    }
}

} // verus!
