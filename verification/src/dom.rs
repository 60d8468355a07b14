use vstd::prelude::*;

use crate::parser::{push_char, str_eq};
use crate::string_map::StringMap;

verus! {

#[derive(Debug)]
pub struct Node {
    pub children: Vec<Node>,
    pub node_type: NodeType,
}

#[derive(Debug)]
pub enum NodeType {
    Text(String),
    Element(ElementData),
}

#[derive(Debug)]
pub struct ElementData {
    pub tag_name: String,
    pub attrs: AttrMap,
}

pub type AttrMap = StringMap<String>;

// ---------------------------------------------------------------------------
// The model of a DOM tree
// ---------------------------------------------------------------------------

pub struct SElement {
    pub tag_name: Seq<char>,
    pub attrs: Map<Seq<char>, Seq<char>>,
}

pub enum SNodeType {
    Text(Seq<char>),
    Element(SElement),
}

pub struct SNode {
    pub children: Seq<SNode>,
    pub node_type: SNodeType,
}

pub open spec fn element_view(e: ElementData) -> SElement {
    SElement { tag_name: e.tag_name@, attrs: e.attrs@ }
}

pub open spec fn node_view(n: Node) -> SNode
    decreases n,
{
    SNode {
        children: nodes_view(n.children@),
        node_type: match n.node_type {
            NodeType::Text(s) => SNodeType::Text(s@),
            NodeType::Element(e) => SNodeType::Element(element_view(e)),
        },
    }
}

pub open spec fn nodes_view(s: Seq<Node>) -> Seq<SNode>
    decreases s,
{
    if s.len() == 0 {
        Seq::empty()
    } else {
        nodes_view(s.subrange(0, s.len() - 1)).push(node_view(s[s.len() - 1]))
    }
}

impl View for Node {
    type V = SNode;

    open spec fn view(&self) -> SNode {
        node_view(*self)
    }
}

impl View for ElementData {
    type V = SElement;

    open spec fn view(&self) -> SElement {
        element_view(*self)
    }
}

pub broadcast proof fn lemma_nodes_view(s: Seq<Node>)
    ensures
        #[trigger] nodes_view(s).len() == s.len(),
        forall|i: int| 0 <= i < s.len() ==> #[trigger] nodes_view(s)[i] == node_view(s[i]),
    decreases s.len(),
{
    if s.len() > 0 {
        lemma_nodes_view(s.subrange(0, s.len() - 1));
        assert forall|i: int| 0 <= i < s.len() implies #[trigger] nodes_view(s)[i] == node_view(
            s[i],
        ) by {
            if i < s.len() - 1 {
                assert(s.subrange(0, s.len() - 1)[i] == s[i]);
            }
        }
    }
}

pub proof fn lemma_nodes_view_push(s: Seq<Node>, n: Node)
    ensures
        nodes_view(s.push(n)) == nodes_view(s).push(node_view(n)),
{
    assert(s.push(n).subrange(0, s.len() as int) =~= s);
}

pub open spec fn text_node(data: Seq<char>) -> SNode {
    SNode { children: Seq::empty(), node_type: SNodeType::Text(data) }
}

pub open spec fn element_node(
    tag_name: Seq<char>,
    attrs: Map<Seq<char>, Seq<char>>,
    children: Seq<SNode>,
) -> SNode {
    SNode { children, node_type: SNodeType::Element(SElement { tag_name, attrs }) }
}

pub fn text(data: String) -> (n: Node)
    ensures
        n@ == text_node(data@),
{
    let n = Node { children: Vec::new(), node_type: NodeType::Text(data) };
    assert(n.children@ =~= Seq::<Node>::empty());
    n
}

pub fn elem(tag_name: String, attrs: AttrMap, children: Vec<Node>) -> (n: Node)
    ensures
        n@ == element_node(tag_name@, attrs@, nodes_view(children@)),
{
    Node { children, node_type: NodeType::Element(ElementData { tag_name, attrs }) }
}

// ---------------------------------------------------------------------------
// Splitting on a separator
// ---------------------------------------------------------------------------

/// The pieces of `s` between occurrences of `sep`, as `str::split` gives
/// them: one more piece than there are separators, empty pieces included.
pub open spec fn split_on(s: Seq<char>, sep: char) -> Seq<Seq<char>>
    decreases s.len(),
{
    if s.len() == 0 {
        seq![Seq::empty()]
    } else {
        let pre = split_on(s.drop_last(), sep);
        if s.last() == sep {
            pre.push(Seq::empty())
        } else {
            pre.update(pre.len() - 1, pre.last().push(s.last()))
        }
    }
}

pub proof fn lemma_split_on_nonempty(s: Seq<char>, sep: char)
    ensures
        split_on(s, sep).len() >= 1,
    decreases s.len(),
{
    if s.len() > 0 {
        lemma_split_on_nonempty(s.drop_last(), sep);
    }
}

/// The class names of an element with the attributes `attrs`: the pieces of
/// its `class` attribute split on `' '`.
pub open spec fn class_set(attrs: Map<Seq<char>, Seq<char>>) -> Set<Seq<char>> {
    if attrs.contains_key("class"@) {
        split_on(attrs["class"@], ' ').to_set()
    } else {
        Set::empty()
    }
}

pub open spec fn seq_views(v: Seq<String>) -> Seq<Seq<char>> {
    v.map_values(|x: String| x@)
}

/// Whether one of `v` holds the chars of `s`.
pub fn contains_str(v: &Vec<String>, s: &str) -> (r: bool)
    ensures
        r == seq_views(v@).contains(s@),
{
    let mut i: usize = 0;
    while i < v.len()
        invariant
            i <= v@.len(),
            forall|k: int| 0 <= k < i ==> v@[k]@ != s@,
        decreases v@.len() - i,
    {
        if str_eq(v[i].as_str(), s) {
            assert(seq_views(v@)[i as int] == s@);
            return true;
        }
        i = i + 1;
    }
    assert forall|k: int| 0 <= k < seq_views(v@).len() implies seq_views(v@)[k] != s@ by {
        assert(seq_views(v@)[k] == v@[k]@);
    }
    false
}

/// Appends `s` to `v` unless one of `v` already holds the same chars.
fn push_distinct(v: &mut Vec<String>, s: String)
    requires
        seq_views(old(v)@).no_duplicates(),
    ensures
        seq_views(final(v)@).no_duplicates(),
        seq_views(final(v)@).to_set() == seq_views(old(v)@).to_set().insert(s@),
{
    let ghost old_views = seq_views(v@);
    if !contains_str(v, s.as_str()) {
        let ghost sv = s@;
        v.push(s);
        assert(seq_views(v@) =~= old_views.push(sv));
        proof {
            broadcast use vstd::seq_lib::group_seq_properties;
        }
        assert(seq_views(v@).to_set() =~= old_views.to_set().insert(sv));
    } else {
        assert(old_views.to_set().contains(s@));
        assert(old_views.to_set().insert(s@) =~= old_views.to_set());
    }
}

impl ElementData {
    pub fn id(&self) -> (r: Option<&String>)
        ensures
            match r {
                Some(v) => self.attrs@.contains_key("id"@) && v@ == self.attrs@["id"@],
                None => !self.attrs@.contains_key("id"@),
            },
    {
        self.attrs.get("id")
    }

    /// The class names of the element, each once.
    pub fn classes(&self) -> (r: Vec<String>)
        ensures
            seq_views(r@).no_duplicates(),
            seq_views(r@).to_set() == class_set(self.attrs@),
    {
        match self.attrs.get("class") {
            Some(classlist) => split_distinct(classlist.as_str(), ' '),
            None => {
                let r: Vec<String> = Vec::new();
                assert(seq_views(r@).to_set() =~= Set::<Seq<char>>::empty());
                r
            },
        }
    }
}

/// The distinct pieces of `s` split on `sep`.
pub fn split_distinct(s: &str, sep: char) -> (r: Vec<String>)
    ensures
        seq_views(r@).no_duplicates(),
        seq_views(r@).to_set() == split_on(s@, sep).to_set(),
{
    let chars = crate::parser::chars_of(s);
    let mut done: Vec<String> = Vec::new();
    let mut cur = String::new();
    let mut i: usize = 0;
    proof {
        assert(chars@.take(0) =~= Seq::<char>::empty());
        assert(seq_views(done@).to_set() =~= Set::<Seq<char>>::empty());
    }
    while i < chars.len()
        invariant
            i <= chars@.len(),
            chars@ == s@,
            seq_views(done@).no_duplicates(),
            ({
                let pieces = split_on(chars@.take(i as int), sep);
                &&& pieces.len() >= 1
                &&& cur@ == pieces.last()
                &&& seq_views(done@).to_set() == pieces.drop_last().to_set()
            }),
        decreases chars@.len() - i,
    {
        let c = chars[i];
        let ghost pieces = split_on(chars@.take(i as int), sep);
        proof {
            assert(chars@.take(i + 1).drop_last() =~= chars@.take(i as int));
            broadcast use vstd::seq_lib::group_seq_properties;
        }
        if c == sep {
            let mut finished = String::new();
            std::mem::swap(&mut finished, &mut cur);
            push_distinct(&mut done, finished);
            proof {
                let np = split_on(chars@.take(i + 1), sep);
                assert(np == pieces.push(Seq::empty()));
                assert(np.drop_last() =~= pieces);
                assert(pieces =~= pieces.drop_last().push(pieces.last()));
                assert(pieces.to_set() =~= pieces.drop_last().to_set().insert(pieces.last()));
            }
        } else {
            push_char(&mut cur, c);
            proof {
                let np = split_on(chars@.take(i + 1), sep);
                assert(np == pieces.update(pieces.len() - 1, pieces.last().push(c)));
                assert(np.drop_last() =~= pieces.drop_last());
            }
        }
        i = i + 1;
    }
    let ghost pieces = split_on(chars@, sep);
    proof {
        assert(chars@.take(chars@.len() as int) =~= chars@);
        broadcast use vstd::seq_lib::group_seq_properties;
        assert(pieces =~= pieces.drop_last().push(pieces.last()));
        assert(pieces.to_set() =~= pieces.drop_last().to_set().insert(pieces.last()));
    }
    push_distinct(&mut done, cur);
    done
}

} // verus!
