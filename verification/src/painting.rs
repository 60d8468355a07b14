use vstd::prelude::*;

use crate::css::{Color, SValue, Value};
use crate::layout::{box_view, boxes_view, lemma_boxes_view_len, BoxType, LayoutBox, SBox, SBoxType};
use crate::style::{spec_value, SStyled};

verus! {

/// A grid of pixels, row by row: the pixel at column `x` and row `y` is
/// `pixels[x + y * width]`.
pub struct Canvas {
    pub pixels: Vec<Color>,
    pub width: usize,
    pub height: usize,
}

pub open spec fn white() -> Color {
    Color { r: 255, g: 255, b: 255, a: 255 }
}

/// Whether the pixel at index `i` of a grid `width` wide lies in the columns
/// `x0..x1` and the rows `y0..y1`.
pub open spec fn in_rect(i: int, width: int, x0: int, y0: int, x1: int, y1: int) -> bool {
    &&& x0 <= i % width < x1
    &&& y0 <= i / width < y1
}

proof fn lemma_index(x: int, y: int, w: int, h: int)
    requires
        0 <= x < w,
        0 <= y < h,
    ensures
        0 <= x + y * w < w * h,
        (x + y * w) % w == x,
        (x + y * w) / w == y,
{
    assert(0 <= x + y * w < w * h) by (nonlinear_arith)
        requires
            0 <= x < w,
            0 <= y < h,
    ;
    vstd::arithmetic::div_mod::lemma_fundamental_div_mod_converse(x + y * w, w, y, x);
}

proof fn lemma_split_index(i: int, w: int)
    requires
        0 <= i,
        0 < w,
    ensures
        i == i % w + (i / w) * w,
        0 <= i % w < w,
        0 <= i / w,
{
    vstd::arithmetic::div_mod::lemma_fundamental_div_mod(i, w);
    assert(w * (i / w) == (i / w) * w) by (nonlinear_arith);
    vstd::arithmetic::div_mod::lemma_div_pos_is_pos(i, w);
}

impl Canvas {
    /// A white canvas of `width` by `height` pixels.
    pub fn new(width: usize, height: usize) -> (c: Canvas)
        requires
            width * height <= usize::MAX,
        ensures
            c.width == width,
            c.height == height,
            c.pixels@ == Seq::new((width * height) as nat, |i: int| white()),
    {
        let fill = Color { r: 255, g: 255, b: 255, a: 255 };
        let n = width * height;
        let mut pixels: Vec<Color> = Vec::new();
        while pixels.len() < n
            invariant
                pixels@.len() <= n,
                forall|i: int| 0 <= i < pixels@.len() ==> pixels@[i] == fill,
            decreases n - pixels@.len(),
        {
            pixels.push(fill);
        }
        let c = Canvas { pixels, width, height };
        assert(c.pixels@ =~= Seq::new((width * height) as nat, |i: int| white()));
        c
    }

    /// Paints the pixels in the columns `x0..x1` and the rows `y0..y1`
    /// with `color`.
    pub fn paint_rect(&mut self, color: Color, x0: usize, y0: usize, x1: usize, y1: usize)
        requires
            old(self).pixels@.len() == old(self).width * old(self).height,
            x1 <= old(self).width,
            y1 <= old(self).height,
        ensures
            final(self).width == old(self).width,
            final(self).height == old(self).height,
            final(self).pixels@.len() == old(self).pixels@.len(),
            forall|i: int|
                0 <= i < old(self).pixels@.len() ==> #[trigger] final(self).pixels@[i] == if in_rect(
                    i,
                    old(self).width as int,
                    x0 as int,
                    y0 as int,
                    x1 as int,
                    y1 as int,
                ) {
                    color
                } else {
                    old(self).pixels@[i]
                },
    {
        let ghost orig = self.pixels@;
        let w = self.width;
        let h = self.height;
        let mut y = y0;
        let _n = self.pixels.len();
        while y < y1
            invariant
                w * h <= usize::MAX,
                y0 >= y1 ==> y == y0,
                self.width == w,
                self.height == h,
                self.pixels@.len() == orig.len(),
                orig.len() == w * h,
                x1 <= w,
                y1 <= h,
                y0 <= y,
                y0 >= y1 || y <= y1,
                forall|i: int|
                    0 <= i < orig.len() ==> #[trigger] self.pixels@[i] == if in_rect(
                        i,
                        w as int,
                        x0 as int,
                        y0 as int,
                        x1 as int,
                        y as int,
                    ) {
                        color
                    } else {
                        orig[i]
                    },
            decreases y1 - y,
        {
            let mut x = x0;
            proof {
                assert(y * w + w <= w * h) by (nonlinear_arith)
                    requires
                        y < h,
                ;
            }
            let row = y * w;
            while x < x1
                invariant
                    self.width == w,
                    self.height == h,
                    self.pixels@.len() == orig.len(),
                    orig.len() == w * h,
                    x1 <= w,
                    y < y1 <= h,
                    y0 <= y,
                    row == y * w,
                    row + w <= w * h,
                    w * h <= usize::MAX,
                    x0 <= x,
                    x0 >= x1 || x <= x1,
                    x0 >= x1 ==> x == x0,
                    forall|i: int|
                        0 <= i < orig.len() ==> #[trigger] self.pixels@[i] == if (in_rect(
                            i,
                            w as int,
                            x0 as int,
                            y0 as int,
                            x1 as int,
                            y as int,
                        ) || (i / (w as int) == y && x0 <= i % (w as int) < x)) {
                            color
                        } else {
                            orig[i]
                        },
                decreases x1 - x,
            {
                let ghost before = self.pixels@;
                proof {
                    lemma_index(x as int, y as int, w as int, h as int);
                }
                self.pixels.set(row + x, color);
                proof {
                    let k = row + x;
                    assert forall|i: int| 0 <= i < orig.len() implies #[trigger] self.pixels@[i]
                        == if (in_rect(i, w as int, x0 as int, y0 as int, x1 as int, y as int) || (
                    i / (w as int) == y && x0 <= i % (w as int) < x + 1)) {
                        color
                    } else {
                        orig[i]
                    } by {
                        if i != k {
                            lemma_split_index(i, w as int);
                            assert(before[i] == self.pixels@[i]);
                        }
                    }
                }
                x = x + 1;
            }
            proof {
                assert forall|i: int| 0 <= i < orig.len() implies #[trigger] self.pixels@[i] == if in_rect(
                    i,
                    w as int,
                    x0 as int,
                    y0 as int,
                    x1 as int,
                    y + 1,
                ) {
                    color
                } else {
                    orig[i]
                } by {
                    if w > 0 {
                        lemma_split_index(i, w as int);
                    }
                }
            }
            y = y + 1;
        }
        proof {
            assert forall|i: int| 0 <= i < orig.len() implies #[trigger] self.pixels@[i] == if in_rect(
                i,
                w as int,
                x0 as int,
                y0 as int,
                x1 as int,
                y1 as int,
            ) {
                color
            } else {
                orig[i]
            } by {
                if w > 0 {
                    lemma_split_index(i, w as int);
                }
            }
        }
    }
}

/// The color that the property `name` of a box's node gives it, if it is a
/// color; an anonymous block has none.
pub open spec fn spec_get_color(b: SBox, name: Seq<char>) -> Option<Color> {
    match b.box_type {
        SBoxType::BlockNode(n) | SBoxType::InlineNode(n) => match spec_value(n.values, name) {
            Some(SValue::ColorValue(c)) => Some(c),
            _ => None,
        },
        SBoxType::AnonymousBlock => None,
    }
}

pub fn get_color(layout_box: &LayoutBox, name: &str) -> (r: Option<Color>)
    ensures
        r == spec_get_color(layout_box@, name@),
{
    match layout_box.box_type {
        BoxType::BlockNode(style) | BoxType::InlineNode(style) => match style.value(name) {
            Some(Value::ColorValue(color)) => Some(color),
            _ => None,
        },
        BoxType::AnonymousBlock => None,
    }
}

// ---------------------------------------------------------------------------
// The display list
// ---------------------------------------------------------------------------

/// The part of a box that a display command fills.
#[derive(Clone, Copy, PartialEq, Eq, Structural, Debug)]
pub enum Part {
    Background,
    LeftBorder,
    RightBorder,
    TopBorder,
    BottomBorder,
}

/// Fill `part` of the box at `box_index` in the pre-order of the layout
/// tree with `color`. Where that part lies depends on the geometry of the
/// box, which is computed apart from the tree.
#[derive(Clone, Copy, PartialEq, Eq, Structural, Debug)]
pub struct DisplayCommand {
    pub box_index: usize,
    pub part: Part,
    pub color: Color,
}

pub open spec fn command(i: int, part: Part, color: Color) -> DisplayCommand {
    DisplayCommand { box_index: i as usize, part, color }
}

/// The background of the box at index `i`, where it has a background color.
pub open spec fn background_commands(b: SBox, i: int) -> Seq<DisplayCommand> {
    match spec_get_color(b, "background"@) {
        Some(c) => seq![command(i, Part::Background, c)],
        None => Seq::empty(),
    }
}

/// The four borders of the box at index `i`, left, right, top and bottom,
/// where it has a border color.
pub open spec fn border_commands(b: SBox, i: int) -> Seq<DisplayCommand> {
    match spec_get_color(b, "border-color"@) {
        Some(c) => seq![
            command(i, Part::LeftBorder, c),
            command(i, Part::RightBorder, c),
            command(i, Part::TopBorder, c),
            command(i, Part::BottomBorder, c),
        ],
        None => Seq::empty(),
    }
}

/// The number of boxes in the tree rooted at `b`.
pub open spec fn box_count(b: SBox) -> nat
    decreases b,
{
    1 + boxes_count(b.children)
}

/// The number of boxes in the trees rooted at `cs`.
pub open spec fn boxes_count(cs: Seq<SBox>) -> nat
    decreases cs,
{
    if cs.len() == 0 {
        0
    } else {
        boxes_count(cs.subrange(0, cs.len() - 1)) + box_count(cs[cs.len() - 1])
    }
}

/// What the tree rooted at `b` paints, its root having the index `i`: each
/// box its background, then its borders, then its children in order; a box
/// is painted before the boxes inside it, which paint over it.
pub open spec fn spec_display_list(b: SBox, i: int) -> Seq<DisplayCommand>
    decreases b,
{
    background_commands(b, i) + border_commands(b, i) + children_display_list(b.children, i + 1)
}

/// What the trees rooted at `cs` paint, one after the other, the first root
/// having the index `i`.
pub open spec fn children_display_list(cs: Seq<SBox>, i: int) -> Seq<DisplayCommand>
    decreases cs,
{
    if cs.len() == 0 {
        Seq::empty()
    } else {
        let pre = cs.subrange(0, cs.len() - 1);
        children_display_list(pre, i) + spec_display_list(cs[cs.len() - 1], i + boxes_count(pre))
    }
}

/// A box of a styled node, block or inline, paints the colors of that
/// node: its display list opens with its background where the node's
/// `background` is a color, and holds its four borders where the node's
/// `border-color` is a color.
pub proof fn lemma_styled_box_paints_its_colors(b: SBox, i: int, n: SStyled)
    requires
        b.box_type == SBoxType::BlockNode(n) || b.box_type == SBoxType::InlineNode(n),
    ensures
        spec_value(n.values, "background"@) matches Some(SValue::ColorValue(c)) ==> spec_display_list(
            b,
            i,
        )[0] == command(i, Part::Background, c),
        spec_value(n.values, "border-color"@) matches Some(SValue::ColorValue(c)) ==> {
            &&& spec_display_list(b, i).contains(command(i, Part::LeftBorder, c))
            &&& spec_display_list(b, i).contains(command(i, Part::RightBorder, c))
            &&& spec_display_list(b, i).contains(command(i, Part::TopBorder, c))
            &&& spec_display_list(b, i).contains(command(i, Part::BottomBorder, c))
        },
{
    let bg = background_commands(b, i);
    let bd = border_commands(b, i);
    let list = spec_display_list(b, i);
    assert(list == bg + bd + children_display_list(b.children, i + 1));
    if let Some(SValue::ColorValue(c)) = spec_value(n.values, "border-color"@) {
        assert(bd.len() == 4);
        assert(list[bg.len() as int] == bd[0]);
        assert(list[bg.len() + 1int] == bd[1]);
        assert(list[bg.len() + 2int] == bd[2]);
        assert(list[bg.len() + 3int] == bd[3]);
    }
}

/// An anonymous block paints nothing of its own: what its tree paints is
/// what the boxes inside it paint.
pub proof fn lemma_anonymous_block_paints_nothing_itself(b: SBox, i: int)
    requires
        b.box_type is AnonymousBlock,
    ensures
        spec_display_list(b, i) == children_display_list(b.children, i + 1),
{
    assert(spec_display_list(b, i) =~= children_display_list(b.children, i + 1));
}

/// Whether the box indices of `list` never decrease and lie in `lo..hi`.
pub open spec fn in_box_order(list: Seq<DisplayCommand>, lo: int, hi: int) -> bool {
    &&& forall|p: int| 0 <= p < list.len() ==> lo <= #[trigger] list[p].box_index < hi
    &&& forall|p: int, q: int|
        0 <= p <= q < list.len() ==> (#[trigger] list[p]).box_index <= (#[trigger] list[q]).box_index
}

proof fn lemma_in_box_order_concat(x: Seq<DisplayCommand>, y: Seq<DisplayCommand>, lo: int, mid: int, hi: int)
    requires
        lo <= mid <= hi,
        in_box_order(x, lo, mid),
        in_box_order(y, mid, hi),
    ensures
        in_box_order(x + y, lo, hi),
{
    let z = x + y;
    assert forall|p: int| 0 <= p < z.len() implies lo <= #[trigger] z[p].box_index < hi by {
        if p >= x.len() {
            assert(z[p] == y[p - x.len()]);
        }
    }
    assert forall|p: int, q: int| 0 <= p <= q < z.len() implies (#[trigger] z[p]).box_index <= (
    #[trigger] z[q]).box_index by {
        if q < x.len() {
        } else if p >= x.len() {
            assert(z[p] == y[p - x.len()]);
            assert(z[q] == y[q - x.len()]);
        } else {
            assert(z[q] == y[q - x.len()]);
        }
    }
}

proof fn lemma_own_commands_order(b: SBox, i: int)
    requires
        0 <= i <= usize::MAX,
    ensures
        in_box_order(background_commands(b, i) + border_commands(b, i), i, i + 1),
{
    let own = background_commands(b, i) + border_commands(b, i);
    assert forall|p: int| 0 <= p < own.len() implies (#[trigger] own[p]).box_index == i by {
        if p >= background_commands(b, i).len() {
            assert(own[p] == border_commands(b, i)[p - background_commands(b, i).len()]);
        }
    }
}

/// Painter's order: the display list of the tree rooted at `b`, its root
/// having the index `i`, names the boxes of the tree alone, in pre-order:
/// the commands of a box come before those of the boxes inside it and of
/// the boxes after it.
pub proof fn lemma_display_list_in_pre_order(b: SBox, i: int)
    requires
        0 <= i,
        i + box_count(b) <= usize::MAX,
    ensures
        in_box_order(spec_display_list(b, i), i, i + box_count(b)),
    decreases b,
{
    lemma_own_commands_order(b, i);
    lemma_children_display_list_order(b.children, i + 1);
    lemma_in_box_order_concat(
        background_commands(b, i) + border_commands(b, i),
        children_display_list(b.children, i + 1),
        i,
        i + 1,
        i + box_count(b),
    );
}

proof fn lemma_children_display_list_order(cs: Seq<SBox>, i: int)
    requires
        0 <= i,
        i + boxes_count(cs) <= usize::MAX,
    ensures
        in_box_order(children_display_list(cs, i), i, i + boxes_count(cs)),
    decreases cs,
{
    if cs.len() > 0 {
        let pre = cs.subrange(0, cs.len() - 1);
        lemma_children_display_list_order(pre, i);
        lemma_display_list_in_pre_order(cs[cs.len() - 1], i + boxes_count(pre));
        lemma_in_box_order_concat(
            children_display_list(pre, i),
            spec_display_list(cs[cs.len() - 1], i + boxes_count(pre)),
            i,
            i + boxes_count(pre),
            i + boxes_count(cs),
        );
    }
}

proof fn lemma_boxes_count_prefix(cs: Seq<SBox>, k: int)
    requires
        0 <= k <= cs.len(),
    ensures
        boxes_count(cs.take(k)) <= boxes_count(cs),
    decreases cs.len(),
{
    if k < cs.len() {
        let pre = cs.subrange(0, cs.len() - 1);
        lemma_boxes_count_prefix(pre, k);
        assert(pre.take(k) =~= cs.take(k));
    } else {
        assert(cs.take(k) =~= cs);
    }
}

proof fn lemma_boxes_view_index(s: Seq<LayoutBox>, k: int)
    requires
        0 <= k < s.len(),
    ensures
        boxes_view(s).len() == s.len(),
        boxes_view(s)[k] == box_view(s[k]),
    decreases s.len(),
{
    lemma_boxes_view_len(s);
    if k < s.len() - 1 {
        lemma_boxes_view_index(s.subrange(0, s.len() - 1), k);
    }
}

fn render_background(list: &mut Vec<DisplayCommand>, layout_box: &LayoutBox, index: usize)
    ensures
        final(list)@ == old(list)@ + background_commands(layout_box@, index as int),
{
    match get_color(layout_box, "background") {
        Some(color) => {
            list.push(DisplayCommand { box_index: index, part: Part::Background, color });
        },
        None => {},
    }
    assert(final(list)@ =~= old(list)@ + background_commands(layout_box@, index as int));
}

fn render_borders(list: &mut Vec<DisplayCommand>, layout_box: &LayoutBox, index: usize)
    ensures
        final(list)@ == old(list)@ + border_commands(layout_box@, index as int),
{
    match get_color(layout_box, "border-color") {
        Some(color) => {
            list.push(DisplayCommand { box_index: index, part: Part::LeftBorder, color });
            list.push(DisplayCommand { box_index: index, part: Part::RightBorder, color });
            list.push(DisplayCommand { box_index: index, part: Part::TopBorder, color });
            list.push(DisplayCommand { box_index: index, part: Part::BottomBorder, color });
        },
        None => {},
    }
    assert(final(list)@ =~= old(list)@ + border_commands(layout_box@, index as int));
}

fn render_layout_box(list: &mut Vec<DisplayCommand>, layout_box: &LayoutBox, index: usize) -> (next: usize)
    requires
        index + box_count(layout_box@) <= usize::MAX,
    ensures
        final(list)@ == old(list)@ + spec_display_list(layout_box@, index as int),
        next == index + box_count(layout_box@),
    decreases layout_box,
{
    let ghost start = list@;
    render_background(list, layout_box, index);
    render_borders(list, layout_box, index);
    let ghost own = list@;
    let ghost cs = layout_box@.children;
    let mut next = index + 1;
    let mut k: usize = 0;
    proof {
        lemma_boxes_view_len(layout_box.children@);
        assert(cs.take(0) =~= Seq::<SBox>::empty());
        assert(list@ =~= own + children_display_list(cs.take(0), index + 1));
    }
    while k < layout_box.children.len()
        invariant
            k <= layout_box.children@.len(),
            cs == layout_box@.children,
            cs == boxes_view(layout_box.children@),
            cs.len() == layout_box.children@.len(),
            index + box_count(layout_box@) <= usize::MAX,
            box_count(layout_box@) == 1 + boxes_count(cs),
            list@ == own + children_display_list(cs.take(k as int), index + 1),
            next == index + 1 + boxes_count(cs.take(k as int)),
        decreases layout_box.children@.len() - k,
    {
        let child = &layout_box.children[k];
        proof {
            lemma_boxes_view_index(layout_box.children@, k as int);
            let now = cs.take(k + 1);
            assert(now.subrange(0, k as int) =~= cs.take(k as int));
            assert(now[k as int] == child@);
            lemma_boxes_count_prefix(cs, k + 1);
        }
        let ghost before = list@;
        next = render_layout_box(list, child, next);
        proof {
            assert(list@ =~= own + children_display_list(cs.take(k + 1), index + 1));
        }
        k = k + 1;
    }
    proof {
        assert(cs.take(k as int) =~= cs);
        assert(list@ =~= start + spec_display_list(layout_box@, index as int));
    }
    next
}

/// What the layout tree rooted at `layout_root` paints, in order, the boxes
/// numbered in pre-order from 0.
pub fn build_display_list(layout_root: &LayoutBox) -> (list: Vec<DisplayCommand>)
    requires
        box_count(layout_root@) <= usize::MAX,
    ensures
        list@ == spec_display_list(layout_root@, 0),
{
    let mut list: Vec<DisplayCommand> = Vec::new();
    render_layout_box(&mut list, layout_root, 0);
    assert(list@ =~= spec_display_list(layout_root@, 0));
    list
}

// ---------------------------------------------------------------------------
// Painting
// ---------------------------------------------------------------------------

/// The pixels in the columns `x0..x1` and the rows `y0..y1`, to be filled
/// with `color`.
#[derive(Clone, Copy, Debug)]
pub struct Fill {
    pub color: Color,
    pub x0: usize,
    pub y0: usize,
    pub x1: usize,
    pub y1: usize,
}

/// Whether `f` covers the pixel at index `i` of a grid `width` wide.
pub open spec fn covers(f: Fill, i: int, width: int) -> bool {
    in_rect(i, width, f.x0 as int, f.y0 as int, f.x1 as int, f.y1 as int)
}

/// The color of the pixel at index `i` once `fills` are painted in order on
/// a grid whose pixels are `base`: that of the last fill that covers it.
pub open spec fn pixel_after(fills: Seq<Fill>, i: int, width: int, base: Color) -> Color
    decreases fills.len(),
{
    if fills.len() == 0 {
        base
    } else if covers(fills.last(), i, width) {
        fills.last().color
    } else {
        pixel_after(fills.drop_last(), i, width, base)
    }
}

/// A white canvas of `width` by `height` pixels with `fills` painted on it
/// in order, each over those before it.
pub fn paint(width: usize, height: usize, fills: &Vec<Fill>) -> (c: Canvas)
    requires
        width * height <= usize::MAX,
        forall|k: int| 0 <= k < fills@.len() ==> #[trigger] fills@[k].x1 <= width && fills@[k].y1 <= height,
    ensures
        c.width == width,
        c.height == height,
        c.pixels@.len() == width * height,
        forall|i: int| 0 <= i < width * height ==> #[trigger] c.pixels@[i] == pixel_after(fills@, i, width as int, white()),
{
    let mut canvas = Canvas::new(width, height);
    let mut k: usize = 0;
    while k < fills.len()
        invariant
            k <= fills@.len(),
            width * height <= usize::MAX,
            forall|j: int| 0 <= j < fills@.len() ==> #[trigger] fills@[j].x1 <= width && fills@[j].y1 <= height,
            canvas.width == width,
            canvas.height == height,
            canvas.pixels@.len() == width * height,
            forall|i: int| 0 <= i < width * height ==> #[trigger] canvas.pixels@[i] == pixel_after(fills@.take(k as int), i, width as int, white()),
        decreases fills@.len() - k,
    {
        let f = fills[k];
        assert(fills@[k as int].x1 <= width && fills@[k as int].y1 <= height);
        canvas.paint_rect(f.color, f.x0, f.y0, f.x1, f.y1);
        proof {
            let now = fills@.take(k + 1);
            assert(now.drop_last() =~= fills@.take(k as int));
            assert(now.last() == f);
        }
        k = k + 1;
    }
    assert(fills@.take(k as int) =~= fills@);
    canvas
}

} // verus!
