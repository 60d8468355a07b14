use vstd::prelude::*;

use crate::css::{Color, SValue, Value};
use crate::dom::{NodeType, SNode, SNodeType};
use crate::layout::{BoxType, LayoutBox, SBoxType};
use crate::parser::{debug_str, debug_text, is_whitespace, push_char, spec_is_whitespace};
use crate::style::{spec_value, SProps, StyledNode};

verus! {

// ---------------------------------------------------------------------------
// One-line descriptions of the nodes and boxes of a rendered page
// ---------------------------------------------------------------------------

/// The lower-case hexadecimal digit of `d`, for `0 <= d < 16`.
pub open spec fn hex_digit_char(d: int) -> char {
    if d < 10 {
        (d + 48) as char
    } else {
        (d + 87) as char
    }
}

/// The two lower-case hexadecimal digits of `b`, as `{:02x}` writes them.
pub open spec fn hex_byte(b: u8) -> Seq<char> {
    seq![hex_digit_char((b / 16) as int), hex_digit_char((b % 16) as int)]
}

/// `#rrggbb`: a color without its alpha channel.
pub open spec fn color_hex(c: Color) -> Seq<char> {
    "#"@ + hex_byte(c.r) + hex_byte(c.g) + hex_byte(c.b)
}

/// The hex form of the property `name` where its value is a color.
pub open spec fn spec_color_property(props: SProps, name: Seq<char>) -> Option<Seq<char>> {
    match spec_value(props, name) {
        Some(SValue::ColorValue(c)) => Some(color_hex(c)),
        _ => None,
    }
}

/// ` name=#rrggbb` where the property holds a color, nothing otherwise.
pub open spec fn summary_item(name: Seq<char>, props: SProps) -> Seq<char> {
    match spec_color_property(props, name) {
        Some(h) => " "@ + name + "="@ + h,
        None => Seq::empty(),
    }
}

/// The colors of a styled node: its background and border color, each
/// preceded by a space, where they are colors.
pub open spec fn spec_style_summary(props: SProps) -> Seq<char> {
    summary_item("background"@, props) + summary_item("border-color"@, props)
}

/// The words of `s`: its maximal runs of non-whitespace chars, in order, as
/// `str::split_whitespace` gives them.
pub open spec fn words(s: Seq<char>) -> Seq<Seq<char>>
    decreases s.len(),
{
    if s.len() == 0 {
        Seq::empty()
    } else {
        let pre = words(s.drop_last());
        let c = s.last();
        if spec_is_whitespace(c) {
            pre
        } else if s.len() > 1 && !spec_is_whitespace(s[s.len() - 2]) {
            pre.update(pre.len() - 1, pre.last().push(c))
        } else {
            pre.push(seq![c])
        }
    }
}

/// Each of `ws` preceded by a dot, all run together.
pub open spec fn dotted(ws: Seq<Seq<char>>) -> Seq<char>
    decreases ws.len(),
{
    if ws.len() == 0 {
        Seq::empty()
    } else {
        dotted(ws.drop_last()) + "."@ + ws.last()
    }
}

/// `#id` where the element has an `id` attribute.
pub open spec fn id_part(attrs: Map<Seq<char>, Seq<char>>) -> Seq<char> {
    if attrs.contains_key("id"@) {
        "#"@ + attrs["id"@]
    } else {
        Seq::empty()
    }
}

/// `.a.b` for an element whose `class` attribute holds the words `a b`.
pub open spec fn class_part(attrs: Map<Seq<char>, Seq<char>>) -> Seq<char> {
    if attrs.contains_key("class"@) {
        dotted(words(attrs["class"@]))
    } else {
        Seq::empty()
    }
}

/// `<tag#id.class...>` for an element, `text(..)` with the quoted text for a
/// text node.
pub open spec fn spec_node_name(n: SNode) -> Seq<char> {
    match n.node_type {
        SNodeType::Element(e) => "<"@ + e.tag_name + id_part(e.attrs) + class_part(e.attrs) + ">"@,
        SNodeType::Text(t) => "text("@ + debug_text(t) + ")"@,
    }
}

/// The description of a layout box: its kind, then the node and colors of
/// the styled node it stands for.
pub open spec fn spec_box_name(t: SBoxType) -> Seq<char> {
    match t {
        SBoxType::BlockNode(n) => "block "@ + spec_node_name(n.node) + spec_style_summary(n.values),
        SBoxType::InlineNode(n) => "inline "@ + spec_node_name(n.node) + spec_style_summary(
            n.values,
        ),
        SBoxType::AnonymousBlock => "anonymous block"@,
    }
}

proof fn lemma_words_nonempty(s: Seq<char>)
    requires
        s.len() > 0,
        !spec_is_whitespace(s.last()),
    ensures
        words(s).len() > 0,
    decreases s.len(),
{
    if s.len() > 1 && !spec_is_whitespace(s[s.len() - 2]) {
        lemma_words_nonempty(s.drop_last());
    }
}

fn hex_digit(d: u8) -> (c: char)
    requires
        d < 16,
    ensures
        c == hex_digit_char(d as int),
{
    if d < 10 {
        (d + 48) as char
    } else {
        (d + 87) as char
    }
}

fn push_hex_byte(s: &mut String, b: u8)
    ensures
        final(s)@ == old(s)@ + hex_byte(b),
{
    push_char(s, hex_digit(b / 16));
    push_char(s, hex_digit(b % 16));
    assert(final(s)@ =~= old(s)@ + hex_byte(b));
}

/// The hex form of the property `name` of `style_node` where its value is a
/// color.
pub fn color_property(style_node: &StyledNode, name: &str) -> (r: Option<String>)
    ensures
        match (r, spec_color_property(style_node.specified_values@, name@)) {
            (Some(s), Some(h)) => s@ == h,
            (None, None) => true,
            _ => false,
        },
{
    match style_node.value(name) {
        Some(Value::ColorValue(color)) => {
            let mut s = String::from_str("#");
            push_hex_byte(&mut s, color.r);
            push_hex_byte(&mut s, color.g);
            push_hex_byte(&mut s, color.b);
            Some(s)
        },
        _ => None,
    }
}

fn push_summary_item(out: &mut String, style_node: &StyledNode, name: &str)
    ensures
        final(out)@ == old(out)@ + summary_item(name@, style_node.specified_values@),
{
    match color_property(style_node, name) {
        Some(h) => {
            out.append(" ");
            out.append(name);
            out.append("=");
            out.append(h.as_str());
            assert(final(out)@ =~= old(out)@ + (" "@ + name@ + "="@ + h@));
        },
        None => {
            assert(final(out)@ =~= old(out)@ + Seq::<char>::empty());
        },
    }
}

/// The background and border colors of `style_node`, each as
/// ` name=#rrggbb`, where they are colors.
pub fn style_summary(style_node: &StyledNode) -> (r: String)
    ensures
        r@ == spec_style_summary(style_node.specified_values@),
{
    let mut out = String::new();
    push_summary_item(&mut out, style_node, "background");
    push_summary_item(&mut out, style_node, "border-color");
    assert(out@ =~= spec_style_summary(style_node.specified_values@));
    out
}

/// Each word of `s` preceded by a dot, all run together.
pub fn dotted_words(s: &str) -> (r: String)
    ensures
        r@ == dotted(words(s@)),
{
    let chars = crate::parser::chars_of(s);
    let mut out = String::new();
    let mut prev_ws = true;
    let mut i: usize = 0;
    assert(chars@.take(0) =~= Seq::<char>::empty());
    while i < chars.len()
        invariant
            i <= chars@.len(),
            chars@ == s@,
            out@ == dotted(words(chars@.take(i as int))),
            prev_ws == (i == 0 || spec_is_whitespace(chars@[i - 1])),
        decreases chars@.len() - i,
    {
        let c = chars[i];
        let ghost pre = chars@.take(i as int);
        let ghost now = chars@.take(i + 1);
        assert(now.drop_last() =~= pre);
        assert(now.last() == c);
        if is_whitespace(c) {
            prev_ws = true;
        } else if prev_ws {
            let ghost before = out@;
            out.append(".");
            push_char(&mut out, c);
            proof {
                assert(words(now) == words(pre).push(seq![c]));
                assert(words(now).drop_last() =~= words(pre));
                assert(out@ =~= before + "."@ + seq![c]);
            }
            prev_ws = false;
        } else {
            let ghost before = out@;
            push_char(&mut out, c);
            proof {
                assert(now[now.len() - 2] == chars@[i - 1]);
                lemma_words_nonempty(pre);
                let wp = words(pre);
                let wn = wp.update(wp.len() - 1, wp.last().push(c));
                assert(words(now) == wn);
                assert(wn.drop_last() =~= wp.drop_last());
                assert(out@ =~= dotted(wp.drop_last()) + "."@ + wn.last());
            }
        }
        i = i + 1;
    }
    assert(chars@.take(chars@.len() as int) =~= chars@);
    out
}

/// `<tag#id.class...>` for an element, `text(..)` with the quoted text for a
/// text node.
pub fn node_name(style_node: &StyledNode) -> (r: String)
    ensures
        r@ == spec_node_name(style_node@.node),
{
    match &style_node.node.node_type {
        NodeType::Element(element) => {
            let mut out = String::from_str("<");
            out.append(element.tag_name.as_str());
            let ghost a = out@;
            match element.id() {
                Some(id) => {
                    out.append("#");
                    out.append(id.as_str());
                    assert(out@ =~= a + id_part(element.attrs@));
                },
                None => {
                    assert(out@ =~= a + id_part(element.attrs@));
                },
            }
            let ghost b = out@;
            match element.attrs.get("class") {
                Some(class) => {
                    let d = dotted_words(class.as_str());
                    out.append(d.as_str());
                },
                None => {},
            }
            assert(out@ =~= b + class_part(element.attrs@));
            out.append(">");
            out
        },
        NodeType::Text(text) => {
            let mut out = String::from_str("text(");
            let d = debug_str(text.as_str());
            out.append(d.as_str());
            out.append(")");
            out
        },
    }
}

/// The description of a layout box: its kind, then the node and colors of
/// the styled node it stands for.
pub fn box_name(layout_box: &LayoutBox) -> (r: String)
    ensures
        r@ == spec_box_name(layout_box@.box_type),
{
    match &layout_box.box_type {
        BoxType::BlockNode(style_node) => {
            let mut out = String::from_str("block ");
            out.append(node_name(style_node).as_str());
            out.append(style_summary(style_node).as_str());
            out
        },
        BoxType::InlineNode(style_node) => {
            let mut out = String::from_str("inline ");
            out.append(node_name(style_node).as_str());
            out.append(style_summary(style_node).as_str());
            out
        },
        BoxType::AnonymousBlock => String::from_str("anonymous block"),
    }
}

} // verus!
