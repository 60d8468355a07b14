use vstd::prelude::*;

use crate::css::{
    selector_rank, selectors_view, Declaration, Rule, SDeclaration, SRule, SSelector, SValue,
    Selector, SimpleSelector, Stylesheet, Value, declarations_view, rules_view,
};
use crate::dom::{
    class_set, contains_str, lemma_nodes_view, node_view, nodes_view, seq_views, ElementData,
    Node, NodeType, SElement, SNode, SNodeType,
};
use crate::order::{
    lemma_sort_map, pair_key, rank, rank_le, sort_by_key, sort_by_specificity, Rank, Specificity,
};
use crate::layout::Display;
use crate::parser::str_eq;
use crate::string_map::StringMap;

verus! {

pub type PropertyMap = StringMap<Value>;

/// A node of the DOM with the property values that the style sheet gives
/// it.
pub struct StyledNode<'a> {
    pub node: &'a Node,
    pub specified_values: PropertyMap,
    pub children: Vec<StyledNode<'a>>,
}

pub type MatchedRule<'a> = (Specificity, &'a Rule);

// ---------------------------------------------------------------------------
// The model
// ---------------------------------------------------------------------------

pub type SProps = Map<Seq<char>, SValue>;

pub struct SStyled {
    pub node: SNode,
    pub values: SProps,
    pub children: Seq<SStyled>,
}

pub open spec fn styled_view(n: StyledNode) -> SStyled
    decreases n,
{
    SStyled {
        node: node_view(*n.node),
        values: n.specified_values@,
        children: styled_views(n.children@),
    }
}

pub open spec fn styled_views(s: Seq<StyledNode>) -> Seq<SStyled>
    decreases s,
{
    if s.len() == 0 {
        Seq::empty()
    } else {
        styled_views(s.subrange(0, s.len() - 1)).push(styled_view(s[s.len() - 1]))
    }
}

impl<'a> View for StyledNode<'a> {
    type V = SStyled;

    open spec fn view(&self) -> SStyled {
        styled_view(*self)
    }
}

pub proof fn lemma_styled_views(s: Seq<StyledNode>)
    ensures
        styled_views(s).len() == s.len(),
        forall|i: int| 0 <= i < s.len() ==> #[trigger] styled_views(s)[i] == styled_view(s[i]),
    decreases s.len(),
{
    if s.len() > 0 {
        lemma_styled_views(s.subrange(0, s.len() - 1));
        assert forall|i: int| 0 <= i < s.len() implies #[trigger] styled_views(s)[i]
            == styled_view(s[i]) by {
            if i < s.len() - 1 {
                assert(s.subrange(0, s.len() - 1)[i] == s[i]);
            }
        }
    }
}

/// Whether a simple selector matches an element: its tag name, its id and
/// each of its classes, where it names them, are the element's.
pub open spec fn spec_matches(e: SElement, sel: SSelector) -> bool {
    &&& (sel.tag_name matches Some(t) ==> t == e.tag_name)
    &&& (sel.id matches Some(id) ==> e.attrs.contains_key("id"@) && e.attrs["id"@] == id)
    &&& forall|k: int| 0 <= k < sel.class.len() ==> class_set(e.attrs).contains(#[trigger] sel.class[k])
}

/// The first of `sels` that matches `e`.
pub open spec fn first_match(e: SElement, sels: Seq<SSelector>) -> Option<SSelector>
    decreases sels.len(),
{
    if sels.len() == 0 {
        None
    } else if spec_matches(e, sels[0]) {
        Some(sels[0])
    } else {
        first_match(e, sels.drop_first())
    }
}

/// A rule that matches `e`, with the specificity of its first selector that
/// matches.
pub open spec fn spec_match_rule(e: SElement, r: SRule) -> Option<(Rank, SRule)> {
    match first_match(e, r.selectors) {
        Some(sel) => Some((selector_rank(sel), r)),
        None => None,
    }
}

/// The rules of `rules` that match `e`, in the order of the style sheet.
pub open spec fn spec_matching_rules(e: SElement, rules: Seq<SRule>) -> Seq<(Rank, SRule)>
    decreases rules.len(),
{
    if rules.len() == 0 {
        Seq::empty()
    } else {
        let pre = spec_matching_rules(e, rules.drop_last());
        match spec_match_rule(e, rules.last()) {
            Some(m) => pre.push(m),
            None => pre,
        }
    }
}

pub open spec fn matched_key() -> spec_fn((Rank, SRule)) -> Rank {
    |m: (Rank, SRule)| m.0
}

/// `props` with the declarations `decls` set, in order.
pub open spec fn apply_declarations(props: SProps, decls: Seq<SDeclaration>) -> SProps
    decreases decls.len(),
{
    if decls.len() == 0 {
        props
    } else {
        apply_declarations(props, decls.drop_last()).insert(decls.last().name, decls.last().value)
    }
}

/// `props` with the declarations of each rule of `rules` set, in order.
pub open spec fn apply_rules(props: SProps, rules: Seq<(Rank, SRule)>) -> SProps
    decreases rules.len(),
{
    if rules.len() == 0 {
        props
    } else {
        apply_declarations(apply_rules(props, rules.drop_last()), rules.last().1.declarations)
    }
}

/// The property values of an element: the declarations of the rules that
/// match it, the rules taken from least to most specific and, among rules of
/// equal specificity, in the order of the style sheet; a later declaration
/// overrides an earlier one.
pub open spec fn spec_specified_values(e: SElement, rules: Seq<SRule>) -> SProps {
    apply_rules(Map::empty(), sort_by_key(spec_matching_rules(e, rules), matched_key()))
}

/// The property values of a node: none for a text node.
pub open spec fn node_values(n: SNode, rules: Seq<SRule>) -> SProps {
    match n.node_type {
        SNodeType::Element(e) => spec_specified_values(e, rules),
        SNodeType::Text(_) => Map::empty(),
    }
}

/// The styled tree of a DOM tree: each node with its property values.
pub open spec fn spec_style_tree(n: SNode, rules: Seq<SRule>) -> SStyled
    decreases n,
{
    SStyled { node: n, values: node_values(n, rules), children: spec_style_children(n.children, rules) }
}

pub open spec fn spec_style_children(s: Seq<SNode>, rules: Seq<SRule>) -> Seq<SStyled>
    decreases s,
{
    if s.len() == 0 {
        Seq::empty()
    } else {
        spec_style_children(s.subrange(0, s.len() - 1), rules).push(
            spec_style_tree(s[s.len() - 1], rules),
        )
    }
}

pub proof fn lemma_style_children(s: Seq<SNode>, rules: Seq<SRule>)
    ensures
        spec_style_children(s, rules).len() == s.len(),
        forall|i: int|
            0 <= i < s.len() ==> #[trigger] spec_style_children(s, rules)[i] == spec_style_tree(
                s[i],
                rules,
            ),
    decreases s.len(),
{
    if s.len() > 0 {
        lemma_style_children(s.subrange(0, s.len() - 1), rules);
        assert forall|i: int| 0 <= i < s.len() implies #[trigger] spec_style_children(s, rules)[i]
            == spec_style_tree(s[i], rules) by {
            if i < s.len() - 1 {
                assert(s.subrange(0, s.len() - 1)[i] == s[i]);
            }
        }
    }
}

/// The value of the property `name`, if it has one.
pub open spec fn spec_value(props: SProps, name: Seq<char>) -> Option<SValue> {
    if props.contains_key(name) {
        Some(props[name])
    } else {
        None
    }
}

/// How a node is displayed: `block` and `none` as the `display` keyword
/// says, `inline` otherwise.
pub open spec fn spec_display(props: SProps) -> Display {
    match spec_value(props, "display"@) {
        Some(SValue::Keyword(s)) => if s == "block"@ {
            Display::Block
        } else if s == "none"@ {
            Display::Hidden
        } else {
            Display::Inline
        },
        _ => Display::Inline,
    }
}

// ---------------------------------------------------------------------------
// The cascade
// ---------------------------------------------------------------------------

/// The value of the last declaration of `name` in `decls`, if any.
pub open spec fn last_declared(decls: Seq<SDeclaration>, name: Seq<char>) -> Option<SValue>
    decreases decls.len(),
{
    if decls.len() == 0 {
        None
    } else if decls.last().name == name {
        Some(decls.last().value)
    } else {
        last_declared(decls.drop_last(), name)
    }
}

proof fn lemma_apply_declarations(props: SProps, decls: Seq<SDeclaration>, name: Seq<char>)
    ensures
        match last_declared(decls, name) {
            Some(v) => apply_declarations(props, decls).contains_key(name) && apply_declarations(
                props,
                decls,
            )[name] == v,
            None => spec_value(apply_declarations(props, decls), name) == spec_value(props, name),
        },
    decreases decls.len(),
{
    if decls.len() > 0 {
        lemma_apply_declarations(props, decls.drop_last(), name);
    }
}

proof fn lemma_apply_rules_last(
    props: SProps,
    rs: Seq<(Rank, SRule)>,
    name: Seq<char>,
    q: int,
    v: SValue,
)
    requires
        0 <= q < rs.len(),
        last_declared(rs[q].1.declarations, name) == Some(v),
        forall|j: int|
            q < j < rs.len() ==> #[trigger] last_declared(rs[j].1.declarations, name) is None
                || last_declared(rs[j].1.declarations, name) == Some(v),
    ensures
        apply_rules(props, rs).contains_key(name),
        apply_rules(props, rs)[name] == v,
    decreases rs.len(),
{
    let last = rs.last();
    let before = apply_rules(props, rs.drop_last());
    lemma_apply_declarations(before, last.1.declarations, name);
    if q < rs.len() - 1 && last_declared(last.1.declarations, name) is None {
        let d = rs.drop_last();
        assert forall|j: int| q < j < d.len() implies #[trigger] last_declared(
            d[j].1.declarations,
            name,
        ) is None || last_declared(d[j].1.declarations, name) == Some(v) by {
            assert(d[j] == rs[j]);
        }
        assert(d[q] == rs[q]);
        lemma_apply_rules_last(props, d, name, q, v);
    } else if q < rs.len() - 1 {
        assert(last_declared(rs[rs.len() - 1].1.declarations, name) == Some(v));
    }
}

/// The cascade: where a rule that matches an element declares a property,
/// and every other matching rule that declares it is less specific, the
/// element takes the value of that rule's last declaration of it.
pub proof fn lemma_more_specific_rule_wins(
    e: SElement,
    rules: Seq<SRule>,
    name: Seq<char>,
    k: int,
    v: SValue,
)
    requires
        0 <= k < spec_matching_rules(e, rules).len(),
        last_declared(spec_matching_rules(e, rules)[k].1.declarations, name) == Some(v),
        forall|j: int|
            0 <= j < spec_matching_rules(e, rules).len() && j != k && (last_declared(
                #[trigger] spec_matching_rules(e, rules)[j].1.declarations,
                name,
            ) is Some) ==> !rank_le(
                spec_matching_rules(e, rules)[k].0,
                spec_matching_rules(e, rules)[j].0,
            ),
    ensures
        spec_specified_values(e, rules).contains_key(name),
        spec_specified_values(e, rules)[name] == v,
{
    broadcast use vstd::seq_lib::group_seq_properties;

    let m = spec_matching_rules(e, rules);
    let key = matched_key();
    let sorted = sort_by_key(m, key);
    crate::order::lemma_sort_multiset(m, key);
    crate::order::lemma_sort_sorted(m, key);
    let top = m[k];
    assert(m.contains(top));
    assert(m.to_multiset().count(top) > 0);
    assert(sorted.to_multiset().count(top) > 0);
    assert(sorted.contains(top));
    let q = choose|q: int| 0 <= q < sorted.len() && sorted[q] == top;
    assert forall|j: int| q < j < sorted.len() implies #[trigger] last_declared(
        sorted[j].1.declarations,
        name,
    ) is None || last_declared(sorted[j].1.declarations, name) == Some(v) by {
        let y = sorted[j];
        if y != top && last_declared(y.1.declarations, name) is Some {
            assert(sorted.to_multiset().count(y) > 0);
            assert(m.to_multiset().count(y) > 0);
            assert(m.contains(y));
            let i = choose|i: int| 0 <= i < m.len() && m[i] == y;
            assert(i != k);
            assert(!rank_le(top.0, y.0));
            assert(rank_le(key(sorted[q]), key(sorted[j])));
        }
    }
    lemma_apply_rules_last(Map::empty(), sorted, name, q, v);
}

/// The cascade by tuple order: where a rule that matches an element
/// declares a property, and every other matching rule that declares it has
/// a specificity smaller as a tuple (fewer ids; or as many ids and fewer
/// classes; or as many of both and fewer tag names), the element takes the
/// value of that rule's last declaration of it.
pub proof fn lemma_greater_specificity_wins(
    e: SElement,
    rules: Seq<SRule>,
    name: Seq<char>,
    k: int,
    v: SValue,
)
    requires
        0 <= k < spec_matching_rules(e, rules).len(),
        last_declared(spec_matching_rules(e, rules)[k].1.declarations, name) == Some(v),
        forall|j: int|
            0 <= j < spec_matching_rules(e, rules).len() && j != k && (last_declared(
                #[trigger] spec_matching_rules(e, rules)[j].1.declarations,
                name,
            ) is Some) ==> ({
                let a = spec_matching_rules(e, rules)[j].0;
                let b = spec_matching_rules(e, rules)[k].0;
                a.0 < b.0 || (a.0 == b.0 && a.1 < b.1) || (a.0 == b.0 && a.1 == b.1 && a.2 < b.2)
            }),
    ensures
        spec_specified_values(e, rules).contains_key(name),
        spec_specified_values(e, rules)[name] == v,
{
    let m = spec_matching_rules(e, rules);
    assert forall|j: int|
        0 <= j < m.len() && j != k && (last_declared(#[trigger] m[j].1.declarations, name) is Some)
            implies !rank_le(m[k].0, m[j].0) by {
        crate::order::lemma_rank_le_is_tuple_order(m[j].0, m[k].0);
    }
    lemma_more_specific_rule_wins(e, rules, name, k, v);
}

proof fn lemma_matching_rules_lack(e: SElement, rules: Seq<SRule>, name: Seq<char>)
    requires
        forall|i: int|
            0 <= i < rules.len() && #[trigger] first_match(e, rules[i].selectors) is Some
                ==> last_declared(rules[i].declarations, name) is None,
    ensures
        forall|k: int|
            0 <= k < spec_matching_rules(e, rules).len() ==> last_declared(
                #[trigger] spec_matching_rules(e, rules)[k].1.declarations,
                name,
            ) is None,
    decreases rules.len(),
{
    if rules.len() > 0 {
        let d = rules.drop_last();
        assert forall|i: int|
            0 <= i < d.len() && #[trigger] first_match(e, d[i].selectors) is Some implies last_declared(
            d[i].declarations,
            name,
        ) is None by {
            assert(d[i] == rules[i]);
        }
        lemma_matching_rules_lack(e, d, name);
        assert(first_match(e, rules[rules.len() - 1].selectors) == first_match(
            e,
            rules.last().selectors,
        ));
    }
}

proof fn lemma_apply_rules_absent(props: SProps, rs: Seq<(Rank, SRule)>, name: Seq<char>)
    requires
        !props.contains_key(name),
        forall|k: int| 0 <= k < rs.len() ==> last_declared(#[trigger] rs[k].1.declarations, name) is None,
    ensures
        !apply_rules(props, rs).contains_key(name),
    decreases rs.len(),
{
    if rs.len() > 0 {
        let d = rs.drop_last();
        assert forall|k: int| 0 <= k < d.len() implies last_declared(
            #[trigger] d[k].1.declarations,
            name,
        ) is None by {
            assert(d[k] == rs[k]);
        }
        lemma_apply_rules_absent(props, d, name);
        assert(last_declared(rs[rs.len() - 1].1.declarations, name) is None);
        lemma_apply_declarations(apply_rules(props, d), rs.last().1.declarations, name);
    }
}

/// An element takes a value for a property only from a rule that matches
/// it and declares that property: where no such rule is, the property has
/// no value.
pub proof fn lemma_undeclared_property_has_no_value(e: SElement, rules: Seq<SRule>, name: Seq<char>)
    requires
        forall|i: int|
            0 <= i < rules.len() && #[trigger] first_match(e, rules[i].selectors) is Some
                ==> last_declared(rules[i].declarations, name) is None,
    ensures
        !spec_specified_values(e, rules).contains_key(name),
{
    broadcast use vstd::seq_lib::group_seq_properties;

    let m = spec_matching_rules(e, rules);
    let key = matched_key();
    let sorted = sort_by_key(m, key);
    lemma_matching_rules_lack(e, rules, name);
    crate::order::lemma_sort_multiset(m, key);
    assert forall|k: int| 0 <= k < sorted.len() implies last_declared(
        #[trigger] sorted[k].1.declarations,
        name,
    ) is None by {
        let y = sorted[k];
        assert(sorted.contains(y));
        assert(sorted.to_multiset().count(y) > 0);
        assert(m.to_multiset().count(y) > 0);
        assert(m.contains(y));
        let i = choose|i: int| 0 <= i < m.len() && m[i] == y;
        assert(last_declared(m[i].1.declarations, name) is None);
    }
    lemma_apply_rules_absent(Map::empty(), sorted, name);
}

/// An element that no rule matches has no property values.
pub proof fn lemma_unmatched_element_has_no_values(e: SElement, rules: Seq<SRule>)
    requires
        forall|i: int| 0 <= i < rules.len() ==> #[trigger] first_match(e, rules[i].selectors) is None,
    ensures
        spec_specified_values(e, rules) == Map::<Seq<char>, SValue>::empty(),
{
    assert forall|name: Seq<char>| !#[trigger] spec_specified_values(e, rules).contains_key(name) by {
        lemma_undeclared_property_has_no_value(e, rules, name);
    }
    assert(spec_specified_values(e, rules) =~= Map::<Seq<char>, SValue>::empty());
}

/// A selector matches an element only if every one of its classes is a
/// class of the element, and its tag name and id, where it names them, are
/// the element's.
pub proof fn lemma_match_needs_every_class(e: SElement, sel: SSelector)
    requires
        spec_matches(e, sel),
    ensures
        sel.class.to_set().subset_of(class_set(e.attrs)),
        sel.tag_name matches Some(t) ==> t == e.tag_name,
        sel.id matches Some(id) ==> e.attrs.contains_key("id"@) && e.attrs["id"@] == id,
{
    assert forall|c: Seq<char>| sel.class.to_set().contains(c) implies class_set(e.attrs).contains(
        c,
    ) by {
        let k = choose|k: int| 0 <= k < sel.class.len() && sel.class[k] == c;
        assert(class_set(e.attrs).contains(sel.class[k]));
    }
}

/// A selector matches every element that has its tag name and id, where it
/// names them, and each of its classes.
pub proof fn lemma_match_when_all_present(e: SElement, sel: SSelector)
    requires
        sel.class.to_set().subset_of(class_set(e.attrs)),
        sel.tag_name matches Some(t) ==> t == e.tag_name,
        sel.id matches Some(id) ==> e.attrs.contains_key("id"@) && e.attrs["id"@] == id,
    ensures
        spec_matches(e, sel),
{
    assert forall|k: int| 0 <= k < sel.class.len() implies class_set(e.attrs).contains(
        #[trigger] sel.class[k],
    ) by {
        assert(sel.class.to_set().contains(sel.class[k]));
    }
}

/// Adding a class to a selector narrows what it matches: whatever matches
/// the longer selector matches the shorter one, and has the added class.
pub proof fn lemma_more_classes_match_less(e: SElement, sel: SSelector, c: Seq<char>)
    requires
        spec_matches(e, SSelector { class: sel.class.push(c), ..sel }),
    ensures
        spec_matches(e, sel),
        class_set(e.attrs).contains(c),
{
    let longer = SSelector { class: sel.class.push(c), ..sel };
    lemma_match_needs_every_class(e, longer);
    assert(longer.class.to_set().contains(c)) by {
        assert(longer.class[sel.class.len() as int] == c);
    }
    assert forall|k: int| 0 <= k < sel.class.len() implies class_set(e.attrs).contains(
        #[trigger] sel.class[k],
    ) by {
        assert(longer.class[k] == sel.class[k]);
        assert(longer.class.to_set().contains(sel.class[k]));
    }
}

/// A selector that names no tag, id or class matches every element.
pub proof fn lemma_universal_selector_matches(e: SElement)
    ensures
        spec_matches(e, SSelector { tag_name: None, id: None, class: Seq::empty() }),
{
}

/// The styled tree has the shape of the DOM tree: each styled node holds
/// its DOM node and one styled child for each of its children, in order,
/// and a text node has no property values.
pub proof fn lemma_style_tree_shape(n: SNode, rules: Seq<SRule>)
    ensures
        spec_style_tree(n, rules).node == n,
        spec_style_tree(n, rules).children.len() == n.children.len(),
        forall|i: int|
            0 <= i < n.children.len() ==> (#[trigger] spec_style_tree(n, rules).children[i]).node
                == n.children[i],
        n.node_type is Text ==> spec_style_tree(n, rules).values == Map::<Seq<char>, SValue>::empty(),
{
    lemma_style_children(n.children, rules);
}

// ---------------------------------------------------------------------------
// Exec
// ---------------------------------------------------------------------------

pub fn style_tree<'a>(root: &'a Node, stylesheet: &'a Stylesheet) -> (r: StyledNode<'a>)
    ensures
        r@ == spec_style_tree(root@, stylesheet@),
        r.node == root,
    decreases root,
{
    let specified_values = match &root.node_type {
        NodeType::Element(elem) => specified_values(elem, stylesheet),
        NodeType::Text(_) => StringMap::new(),
    };
    let mut children: Vec<StyledNode<'a>> = Vec::new();
    let mut i: usize = 0;
    proof {
        lemma_nodes_view(root.children@);
    }
    while i < root.children.len()
        invariant
            i <= root.children@.len(),
            children@.len() == i,
            forall|k: int|
                0 <= k < i ==> (#[trigger] children@[k])@ == spec_style_tree(
                    node_view(root.children@[k]),
                    stylesheet@,
                ),
        decreases root.children@.len() - i,
    {
        let child = style_tree(&root.children[i], stylesheet);
        children.push(child);
        i = i + 1;
    }
    let r = StyledNode { node: root, specified_values, children };
    proof {
        lemma_styled_views(r.children@);
        lemma_style_children(root@.children, stylesheet@);
        assert(styled_views(r.children@) =~= spec_style_children(root@.children, stylesheet@));
    }
    r
}

pub fn specified_values(elem: &ElementData, stylesheet: &Stylesheet) -> (r: PropertyMap)
    ensures
        r@ == spec_specified_values(elem@, stylesheet@),
{
    let mut values: PropertyMap = StringMap::new();
    let rules = matching_rules(elem, stylesheet);
    let ghost unsorted = rules@;
    let rules = sort_by_specificity(rules);
    proof {
        let f = |m: MatchedRule| (rank(m.0), m.1@);
        lemma_sort_map(unsorted, f, pair_key(), matched_key());
        assert(unsorted.map_values(f) =~= matched_view(unsorted));
        assert(rules@.map_values(f) =~= matched_view(rules@));
    }
    let mut i: usize = 0;
    while i < rules.len()
        invariant
            i <= rules@.len(),
            values@ == apply_rules(Map::empty(), matched_view(rules@).take(i as int)),
        decreases rules@.len() - i,
    {
        let rule = rules[i].1;
        let mut j: usize = 0;
        let ghost before = values@;
        while j < rule.declarations.len()
            invariant
                j <= rule.declarations@.len(),
                values@ == apply_declarations(
                    before,
                    declarations_view(rule.declarations@).take(j as int),
                ),
            decreases rule.declarations@.len() - j,
        {
            let declaration = &rule.declarations[j];
            values.insert(declaration.name.clone(), declaration.value.clone());
            proof {
                let dv = declarations_view(rule.declarations@);
                assert(dv.take(j + 1).drop_last() =~= dv.take(j as int));
                assert(dv.take(j + 1).last() == declaration@);
            }
            j = j + 1;
        }
        proof {
            let mv = matched_view(rules@);
            assert(mv.take(i + 1).drop_last() =~= mv.take(i as int));
            assert(declarations_view(rule.declarations@).take(j as int) =~= declarations_view(
                rule.declarations@,
            ));
        }
        i = i + 1;
    }
    proof {
        assert(matched_view(rules@).take(i as int) =~= matched_view(rules@));
    }
    values
}

pub open spec fn matched_view(v: Seq<MatchedRule>) -> Seq<(Rank, SRule)> {
    v.map_values(|m: MatchedRule| (rank(m.0), m.1@))
}

pub fn matching_rules<'a>(elem: &ElementData, stylesheet: &'a Stylesheet) -> (r: Vec<MatchedRule<'a>>)
    ensures
        matched_view(r@) == spec_matching_rules(elem@, stylesheet@),
{
    let mut r: Vec<MatchedRule<'a>> = Vec::new();
    let mut i: usize = 0;
    while i < stylesheet.rules.len()
        invariant
            i <= stylesheet.rules@.len(),
            matched_view(r@) == spec_matching_rules(
                elem@,
                rules_view(stylesheet.rules@).take(i as int),
            ),
        decreases stylesheet.rules@.len() - i,
    {
        let ghost old_r = r@;
        match match_rule(elem, &stylesheet.rules[i]) {
            Some(m) => {
                r.push(m);
                assert(matched_view(r@) =~= matched_view(old_r).push((rank(m.0), m.1@)));
            },
            None => {},
        }
        proof {
            let rv = rules_view(stylesheet.rules@);
            assert(rv.take(i + 1).drop_last() =~= rv.take(i as int));
        }
        i = i + 1;
    }
    proof {
        assert(rules_view(stylesheet.rules@).take(i as int) =~= rules_view(stylesheet.rules@));
    }
    r
}

pub fn match_rule<'a>(elem: &ElementData, rule: &'a Rule) -> (r: Option<MatchedRule<'a>>)
    ensures
        match (r, spec_match_rule(elem@, rule@)) {
            (Some(m), Some(sm)) => rank(m.0) == sm.0 && m.1 == rule,
            (None, None) => true,
            _ => false,
        },
{
    let mut i: usize = 0;
    let ghost sels = selectors_view(rule.selectors@);
    assert(sels.skip(0) =~= sels);
    while i < rule.selectors.len()
        invariant
            i <= rule.selectors@.len(),
            sels == selectors_view(rule.selectors@),
            first_match(elem@, sels) == first_match(elem@, sels.skip(i as int)),
        decreases rule.selectors@.len() - i,
    {
        let selector = &rule.selectors[i];
        proof {
            assert(sels.skip(i as int)[0] == selector@);
            assert(sels.skip(i as int).drop_first() =~= sels.skip(i + 1));
        }
        if matches(elem, selector) {
            return Some((selector.specificity(), rule));
        }
        i = i + 1;
    }
    proof {
        assert(sels.skip(i as int) =~= Seq::<SSelector>::empty());
    }
    None
}

pub fn matches(elem: &ElementData, selector: &Selector) -> (r: bool)
    ensures
        r == spec_matches(elem@, selector@),
{
    match selector {
        Selector::Simple(s) => match_simple_selector(elem, s),
    }
}

pub fn match_simple_selector(elem: &ElementData, selector: &SimpleSelector) -> (r: bool)
    ensures
        r == spec_matches(elem@, selector@),
{
    match &selector.tag_name {
        Some(name) => {
            if !str_eq(name.as_str(), elem.tag_name.as_str()) {
                return false;
            }
        },
        None => {},
    }
    match &selector.id {
        Some(id) => {
            match elem.id() {
                Some(eid) => {
                    if !str_eq(id.as_str(), eid.as_str()) {
                        return false;
                    }
                },
                None => {
                    return false;
                },
            }
        },
        None => {},
    }
    let classes = elem.classes();
    let mut k: usize = 0;
    while k < selector.class.len()
        invariant
            k <= selector.class@.len(),
            seq_views(classes@).to_set() == class_set(elem.attrs@),
            forall|m: int|
                0 <= m < k ==> class_set(elem.attrs@).contains(#[trigger] selector.class@[m]@),
        decreases selector.class@.len() - k,
    {
        if !contains_str(&classes, selector.class[k].as_str()) {
            proof {
                broadcast use vstd::seq_lib::group_seq_properties;

                assert(!seq_views(classes@).contains(selector.class@[k as int]@));
                assert(seq_views(selector.class@)[k as int] == selector.class@[k as int]@);
                assert(!class_set(elem.attrs@).contains(seq_views(selector.class@)[k as int]));
                assert(selector@.class == seq_views(selector.class@));
                assert(elem@.attrs == elem.attrs@);
                assert(!spec_matches(elem@, selector@));
            }
            return false;
        }
        k = k + 1;
    }
    proof {
        assert forall|m: int| 0 <= m < seq_views(selector.class@).len() implies class_set(
            elem.attrs@,
        ).contains(#[trigger] seq_views(selector.class@)[m]) by {
            assert(seq_views(selector.class@)[m] == selector.class@[m]@);
        }
    }
    true
}

impl<'a> StyledNode<'a> {
    /// The value of the property `name`, if it has one.
    pub fn value(&self, name: &str) -> (r: Option<Value>)
        ensures
            match (r, spec_value(self.specified_values@, name@)) {
                (Some(v), Some(sv)) => v@ == sv,
                (None, None) => true,
                _ => false,
            },
    {
        match self.specified_values.get(name) {
            Some(v) => Some(v.clone()),
            None => None,
        }
    }

    /// How the node is displayed.
    pub fn display(&self) -> (r: Display)
        ensures
            r == spec_display(self.specified_values@),
    {
        match self.value("display") {
            Some(Value::Keyword(s)) => {
                if str_eq(s.as_str(), "block") {
                    Display::Block
                } else if str_eq(s.as_str(), "none") {
                    Display::Hidden
                } else {
                    Display::Inline
                }
            },
            _ => Display::Inline,
        }
    }
}

} // verus!
