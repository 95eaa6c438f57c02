//! Geometric layout and rendering: mapping depth levels and in-level
//! positions to pixel coordinates and producing the vector-graphics
//! document, specified down to the exact characters.

use vstd::prelude::*;

use crate::graph::{Graph, Node, SortOrder};
use crate::text::{append_i32, append_str, dec_of};

verus! {

/// The geometric and typographic configuration of a rendering.
#[derive(Clone, Debug)]
pub struct Style {
    pub top_level_margin: i32,
    pub box_width: i32,
    pub width_between_boxes: i32,
    pub box_height: i32,
    pub height_between_boxes: i32,
    pub margin_width: i32,
    pub margin_height: i32,
    pub text_font_size_normal: i32,
    pub text_font_size_larger: i32,
}

impl Style {
    /// All dimensions are non-negative and small enough that the coordinate
    /// arithmetic of a rendering stays within `i32`.
    pub open spec fn wf(self) -> bool {
        &&& 0 <= self.top_level_margin <= 10000
        &&& 0 <= self.box_width <= 10000
        &&& 0 <= self.width_between_boxes <= 10000
        &&& 0 <= self.box_height <= 10000
        &&& 0 <= self.height_between_boxes <= 10000
        &&& 0 <= self.margin_width <= 10000
        &&& 0 <= self.margin_height <= 10000
        &&& 0 <= self.text_font_size_normal <= 10000
        &&& 0 <= self.text_font_size_larger <= 10000
    }

    /// The horizontal room one depth level occupies.
    pub open spec fn spec_width_per_level(self) -> int {
        self.box_width + self.width_between_boxes
    }

    /// The vertical room one in-level position occupies.
    pub open spec fn spec_height_per_level(self) -> int {
        self.box_height + self.height_between_boxes
    }

    pub fn width_per_level(&self) -> (r: i32)
        requires
            self.wf(),
        ensures
            r == self.spec_width_per_level(),
    {
        self.box_width + self.width_between_boxes
    }

    pub fn height_per_level(&self) -> (r: i32)
        requires
            self.wf(),
        ensures
            r == self.spec_height_per_level(),
    {
        self.box_height + self.height_between_boxes
    }
}

impl Default for Style {
    /// The built-in default configuration.
    fn default() -> (r: Style)
        ensures
            r.top_level_margin == 5,
            r.box_width == 160,
            r.width_between_boxes == 50,
            r.box_height == 40,
            r.height_between_boxes == 40,
            r.margin_width == 10,
            r.margin_height == 10,
            r.text_font_size_normal == 10,
            r.text_font_size_larger == 12,
            r.wf(),
    {
        Style {
            top_level_margin: 5,
            box_width: 160,
            width_between_boxes: 50,
            box_height: 40,
            height_between_boxes: 40,
            margin_width: 10,
            margin_height: 10,
            text_font_size_normal: 10,
            text_font_size_larger: 12,
        }
    }
}

/// The largest value in `s`, or zero when `s` is empty.
pub open spec fn seq_usize_max(s: Seq<usize>) -> int
    decreases s.len(),
{
    if s.len() == 0 {
        0
    } else {
        let m = seq_usize_max(s.drop_last());
        if s.last() as int > m {
            s.last() as int
        } else {
            m
        }
    }
}

/// The canvas width: one column per depth level, plus margins.
pub open spec fn spec_canvas_width(style: Style, level_count: int) -> int {
    style.spec_width_per_level() * level_count + 2 * style.margin_width
}

/// The canvas height: one row per node of the busiest level, plus margins.
pub open spec fn spec_canvas_height(style: Style, max_in_level: int) -> int {
    style.spec_height_per_level() * max_in_level + 2 * style.margin_height
}

/// The horizontal center of a box: level zero sits in the rightmost column
/// and deeper levels move left.
pub open spec fn spec_x(style: Style, lc: int, lvl: int) -> int {
    (lc - lvl - 1) * style.spec_width_per_level() + style.margin_height
        + style.spec_width_per_level() / 2
}

/// The vertical center of a box: stacked by in-level index, with sparser
/// levels pushed down to center them.
pub open spec fn spec_y(style: Style, idx: int, maxc: int, nil: int) -> int {
    idx * style.spec_height_per_level() + style.margin_height + style.spec_height_per_level() / 2
        + style.spec_height_per_level() / 2 * (maxc - nil)
}

/// One text element, centered at (`x`, `y`).
pub open spec fn spec_text_el(font: int, x: int, y: int, body: Seq<char>) -> Seq<char> {
    "<text font-size=\""@ + dec_of(font) + "\" font-family=\"monospace\" x=\""@ + dec_of(x)
        + "\" y=\""@ + dec_of(y) + "\" dominant-baseline=\"middle\" text-anchor=\"middle\">"@ + body
        + "</text>\n"@
}

/// One node box: the rectangle, the optional operation label above center,
/// and the display name below it.
pub open spec fn spec_box(node: Node, style: Style, xc: int, yc: int) -> Seq<char> {
    let rect = "<rect x=\""@ + dec_of(xc - style.box_width / 2) + "\" y=\""@ + dec_of(
        yc - style.box_height / 2,
    ) + "\" height=\""@ + dec_of(style.box_height as int) + "\" width=\""@ + dec_of(
        style.box_width as int,
    ) + "\" fill=\"none\" stroke=\"black\" rx=\"2\" stroke-widht=\"2\"/>\n"@;
    let off = style.box_height as int / 4;
    let op_part = match node.op {
        Some(op) => spec_text_el(style.text_font_size_larger as int, xc, yc - off, op@),
        None => Seq::empty(),
    };
    rect + op_part + spec_text_el(style.text_font_size_normal as int, xc, yc + off, node.name@)
}

/// One curved connection, from the given start point to the given end
/// point, with control points pushed out by `cpe`.
pub open spec fn spec_curve(x_from: int, y_from: int, x_to: int, y_to: int, cpe: int) -> Seq<char> {
    "<path d=\"M "@ + dec_of(x_from) + " "@ + dec_of(y_from) + " C "@ + dec_of(x_from + cpe) + " "@
        + dec_of(y_from) + ", "@ + dec_of(x_to - cpe) + " "@ + dec_of(y_to) + ", "@ + dec_of(x_to)
        + " "@ + dec_of(y_to)
        + "\" stroke=\"black\" stroke-width=\"2\" marker-end=\"url(#arrowhead)\" fill=\"none\"/>\n"@
}

/// The curve of the `ci`-th connection into the node at position `j`.
pub open spec fn spec_conn(
    g: Graph,
    so: SortOrder,
    style: Style,
    lc: int,
    maxc: int,
    j: int,
    ci: int,
) -> Seq<char> {
    let node = so.order_indices@[j] as int;
    let lvl = so.depths@[j] as int;
    let x = spec_x(style, lc, lvl);
    let y = spec_y(style, so.index_at_depth@[j] as int, maxc, so.nodes_in_level@[lvl] as int);
    let from = g.to_connections@[node]@[ci].from_index as int;
    let fj = so.position_of(from);
    let flvl = so.depths@[fj] as int;
    let ni = g.to_connections@[node]@.len() as int;
    let x_from = spec_x(style, lc, flvl) + style.box_width / 2;
    let y_from = spec_y(style, so.index_at_depth@[fj] as int, maxc, so.nodes_in_level@[flvl] as int);
    let y_to = y + style.box_height / 2 - (style.box_height as int / (ni + 1)) * (ni - ci);
    let x_to = x - style.box_width / 2 - 10;
    let cpe = style.width_between_boxes / 4 + (flvl - lvl - 1) * style.width_between_boxes;
    spec_curve(x_from, y_from, x_to, y_to, cpe)
}

/// The curves of the first `k` connections into the node at position `j`.
pub open spec fn spec_conns_upto(
    g: Graph,
    so: SortOrder,
    style: Style,
    lc: int,
    maxc: int,
    j: int,
    k: int,
) -> Seq<char>
    decreases k,
{
    if k <= 0 {
        Seq::empty()
    } else {
        spec_conns_upto(g, so, style, lc, maxc, j, k - 1) + spec_conn(g, so, style, lc, maxc, j, k - 1)
    }
}

/// The box of the node at position `j` followed by its incoming curves.
pub open spec fn spec_node_block(g: Graph, so: SortOrder, style: Style, lc: int, maxc: int, j: int) -> Seq<
    char,
> {
    let node = so.order_indices@[j] as int;
    let lvl = so.depths@[j] as int;
    let x = spec_x(style, lc, lvl);
    let y = spec_y(style, so.index_at_depth@[j] as int, maxc, so.nodes_in_level@[lvl] as int);
    spec_box(g.nodes@[node], style, x, y) + spec_conns_upto(
        g,
        so,
        style,
        lc,
        maxc,
        j,
        g.to_connections@[node]@.len() as int,
    )
}

/// The blocks of the first `j` positions of the render order.
pub open spec fn spec_blocks_upto(g: Graph, so: SortOrder, style: Style, lc: int, maxc: int, j: int) -> Seq<
    char,
>
    decreases j,
{
    if j <= 0 {
        Seq::empty()
    } else {
        spec_blocks_upto(g, so, style, lc, maxc, j - 1) + spec_node_block(g, so, style, lc, maxc, j - 1)
    }
}

/// The document header naming the canvas size.
pub open spec fn spec_header(h: int, w: int) -> Seq<char> {
    "<svg height=\""@ + dec_of(h) + "\" width=\""@ + dec_of(w)
        + "\" xmlns=\"http://www.w3.org/2000/svg\">\n"@
}

/// The arrowhead marker definitions.
pub open spec fn spec_defs() -> Seq<char> {
    "<defs>\n    <marker\n        id=\"arrowhead\"\n        markerWidth=\"6\"\n        markerHeight=\"6\"\n        refX=\"0\"\n        refY=\"3\"\n        orient=\"auto\"\n    >\n        <polygon points=\"0 0, 6 3, 0 6\" />\n    </marker>\n</defs>\n"@
}

/// The background frame.
pub open spec fn spec_frame(style: Style, h: int, w: int) -> Seq<char> {
    "<rect x=\""@ + dec_of(style.top_level_margin as int) + "\" y=\""@ + dec_of(
        style.top_level_margin as int,
    ) + "\" height=\""@ + dec_of(h - style.top_level_margin) + "\" width=\""@ + dec_of(
        w - style.top_level_margin,
    ) + "\" fill=\"white\" stroke=\"black\" rx=\"2\" stroke-width=\"2\"/>\n"@
}

/// The whole document, as a function of the graph, the sort order and the
/// style alone.
pub open spec fn spec_svg(g: Graph, so: SortOrder, style: Style) -> Seq<char> {
    let lc = so.nodes_in_level@.len() as int;
    let maxc = seq_usize_max(so.nodes_in_level@);
    let h = spec_canvas_height(style, maxc);
    let w = spec_canvas_width(style, lc);
    spec_header(h, w) + spec_defs() + spec_frame(style, h, w) + spec_blocks_upto(
        g,
        so,
        style,
        lc,
        maxc,
        so.order_indices@.len() as int,
    ) + "</svg>\n"@
}

/// Rendering is a pure function of its inputs: the same graph, sort order
/// and style always give byte-identical output.
pub proof fn lemma_render_deterministic(
    g: Graph,
    so: SortOrder,
    style: Style,
    r1: Seq<char>,
    r2: Seq<char>,
)
    requires
        r1 == spec_svg(g, so, style),
        r2 == spec_svg(g, so, style),
    ensures
        r1 == r2,
{
}

/// The canvas width grows by exactly one column's width for each further
/// depth level, the style held fixed.
pub proof fn lemma_canvas_width_linear(style: Style, lc: int)
    ensures
        spec_canvas_width(style, lc + 1) - spec_canvas_width(style, lc)
            == style.spec_width_per_level(),
{
    assert(style.spec_width_per_level() * (lc + 1) == style.spec_width_per_level() * lc
        + style.spec_width_per_level()) by (nonlinear_arith);
}

/// The canvas height grows by exactly one row's height for each further
/// node in the busiest level, the style held fixed.
pub proof fn lemma_canvas_height_linear(style: Style, maxc: int)
    ensures
        spec_canvas_height(style, maxc + 1) - spec_canvas_height(style, maxc)
            == style.spec_height_per_level(),
{
    assert(style.spec_height_per_level() * (maxc + 1) == style.spec_height_per_level() * maxc
        + style.spec_height_per_level()) by (nonlinear_arith);
}

/// Halves a non-negative dimension.
fn half(x: i32) -> (r: i32)
    requires
        0 <= x,
    ensures
        r == x as int / 2,
{
    ((x as usize) / 2) as i32
}

/// Quarters a non-negative dimension.
fn quarter(x: i32) -> (r: i32)
    requires
        0 <= x,
    ensures
        r == x as int / 4,
{
    ((x as usize) / 4) as i32
}

/// Appends one text element.
#[verifier::rlimit(100)]
#[verifier::spinoff_prover]
fn push_text_el(out: &mut String, font: i32, x: i32, y: i32, body: &str)
    ensures
        final(out)@ == old(out)@ + spec_text_el(font as int, x as int, y as int, body@),
{
    append_str(out, "<text font-size=\"");
    append_i32(out, font);
    append_str(out, "\" font-family=\"monospace\" x=\"");
    append_i32(out, x);
    append_str(out, "\" y=\"");
    append_i32(out, y);
    append_str(out, "\" dominant-baseline=\"middle\" text-anchor=\"middle\">");
    append_str(out, body);
    append_str(out, "</text>\n");
    proof {
        assert(final(out)@ =~= old(out)@ + spec_text_el(font as int, x as int, y as int, body@));
    }
}

/// Draws one node as a rectangle with its labels, centered at the given
/// point.
#[verifier::rlimit(100)]
#[verifier::spinoff_prover]
fn draw_box(result: &mut String, node: &Node, style: &Style, x_center: i32, y_center: i32)
    requires
        style.wf(),
        -1000000000 <= x_center <= 1000000000,
        -1000000000 <= y_center <= 1000000000,
    ensures
        final(result)@ == old(result)@ + spec_box(*node, *style, x_center as int, y_center as int),
{
    let text_vertical_offset = quarter(style.box_height);
    append_str(result, "<rect x=\"");
    append_i32(result, x_center - half(style.box_width));
    append_str(result, "\" y=\"");
    append_i32(result, y_center - half(style.box_height));
    append_str(result, "\" height=\"");
    append_i32(result, style.box_height);
    append_str(result, "\" width=\"");
    append_i32(result, style.box_width);
    append_str(result, "\" fill=\"none\" stroke=\"black\" rx=\"2\" stroke-widht=\"2\"/>\n");
    if let Some(op_name) = &node.op {
        push_text_el(
            result,
            style.text_font_size_larger,
            x_center,
            y_center - text_vertical_offset,
            op_name.as_str(),
        );
    }
    push_text_el(
        result,
        style.text_font_size_normal,
        x_center,
        y_center + text_vertical_offset,
        node.name.as_str(),
    );
    proof {
        assert(final(result)@ =~= old(result)@ + spec_box(
            *node,
            *style,
            x_center as int,
            y_center as int,
        ));
    }
}

/// Draws one connection curve.
#[verifier::rlimit(100)]
#[verifier::spinoff_prover]
fn draw_curve(result: &mut String, x_from: i32, y_from: i32, x_to: i32, y_to: i32, cpe: i32)
    requires
        -1000000000 <= x_from <= 1000000000,
        -1000000000 <= y_from <= 1000000000,
        -1000000000 <= x_to <= 1000000000,
        -1000000000 <= y_to <= 1000000000,
        -1000000000 <= cpe <= 1000000000,
    ensures
        final(result)@ == old(result)@ + spec_curve(
            x_from as int,
            y_from as int,
            x_to as int,
            y_to as int,
            cpe as int,
        ),
{
    append_str(result, "<path d=\"M ");
    append_i32(result, x_from);
    append_str(result, " ");
    append_i32(result, y_from);
    append_str(result, " C ");
    append_i32(result, x_from + cpe);
    append_str(result, " ");
    append_i32(result, y_from);
    append_str(result, ", ");
    append_i32(result, x_to - cpe);
    append_str(result, " ");
    append_i32(result, y_to);
    append_str(result, ", ");
    append_i32(result, x_to);
    append_str(result, " ");
    append_i32(result, y_to);
    append_str(
        result,
        "\" stroke=\"black\" stroke-width=\"2\" marker-end=\"url(#arrowhead)\" fill=\"none\"/>\n",
    );
    proof {
        assert(final(result)@ =~= old(result)@ + spec_curve(
            x_from as int,
            y_from as int,
            x_to as int,
            y_to as int,
            cpe as int,
        ));
    }
}

proof fn lemma_mul_bounds(a: int, b: int, ab: int, bb: int)
    requires
        0 <= a <= ab,
        0 <= b <= bb,
    ensures
        0 <= a * b <= ab * bb,
{
    assert(0 <= a * b <= ab * bb) by (nonlinear_arith)
        requires
            0 <= a <= ab,
            0 <= b <= bb,
    ;
}

/// Divides a non-negative dimension by a positive count.
fn div_nonneg(x: i32, d: usize) -> (r: i32)
    requires
        0 <= x,
        d >= 1,
    ensures
        r == x as int / d as int,
{
    ((x as usize) / d) as i32
}

/// Finds the position of node `v` in the render order.
fn position_in(order: &Vec<usize>, v: usize) -> (r: usize)
    requires
        exists|j: int| 0 <= j < order@.len() && #[trigger] order@[j] == v,
    ensures
        (r as int) < order@.len(),
        order@[r as int] == v,
{
    let mut j: usize = 0;
    loop
        invariant
            j <= order@.len(),
            exists|j2: int| 0 <= j2 < order@.len() && #[trigger] order@[j2] == v,
            forall|j2: int| 0 <= j2 < j ==> order@[j2] != v,
        decreases order@.len() - j,
    {
        if j == order.len() {
            proof {
                let j2 = choose|j2: int| 0 <= j2 < order@.len() && #[trigger] order@[j2] == v;
                assert(false);
            }
        } else {
            if order[j] == v {
                return j;
            }
            j = j + 1;
        }
    }
}

/// Renders the graph as a vector-graphics document: the canvas, the
/// background frame, one box per node and one curved arrow per connection,
/// exactly the characters of `spec_svg`.
#[verifier::rlimit(100)]
#[verifier::spinoff_prover]
pub fn to_svg(g: &Graph, sort_order: &SortOrder, style: &Style) -> (r: String)
    requires
        g.wf(),
        sort_order.valid_for(*g),
        style.wf(),
        g.node_count() <= 10000,
        forall|v: int|
            0 <= v < g.node_count() ==> (#[trigger] g.to_connections@[v])@.len() <= 10000,
    ensures
        r@ == spec_svg(*g, *sort_order, *style),
{
    let ghost gg = *g;
    let ghost so = *sort_order;
    let ghost st = *style;
    let ghost lc_g = so.nodes_in_level@.len() as int;
    let ghost maxc_g = seq_usize_max(so.nodes_in_level@);
    proof {
        crate::graph::lemma_valid_for_bounds(gg, so);
    }
    let n: usize = g.node_size();
    let level_count_us: usize = sort_order.nodes_in_level.len();
    let mut maxc: usize = 0;
    let mut i: usize = 0;
    while i < level_count_us
        invariant
            gg == *g,
            so == *sort_order,
            st == *style,
            level_count_us == so.nodes_in_level@.len(),
            i <= level_count_us,
            maxc as int == seq_usize_max(so.nodes_in_level@.subrange(0, i as int)),
            maxc <= 10000,
            forall|d: int| 0 <= d < i ==> (#[trigger] so.nodes_in_level@[d]) <= maxc,
            gg.wf(),
            so.valid_for(gg),
            gg.node_count() <= 10000,
            forall|d: int|
                0 <= d < so.nodes_in_level@.len() ==> 0 <= (#[trigger] so.nodes_in_level@[d])
                    <= gg.node_count(),
        decreases level_count_us - i,
    {
        let ghost pre = so.nodes_in_level@.subrange(0, i as int);
        if sort_order.nodes_in_level[i] > maxc {
            maxc = sort_order.nodes_in_level[i];
        }
        proof {
            let cur = so.nodes_in_level@.subrange(0, i as int + 1);
            assert(cur.drop_last() =~= pre);
            assert(cur.last() == so.nodes_in_level@[i as int]);
        }
        i = i + 1;
    }
    proof {
        assert(so.nodes_in_level@.subrange(0, level_count_us as int) =~= so.nodes_in_level@);
        assert(maxc as int == maxc_g);
    }
    let level_count: i32 = level_count_us as i32;
    let wpl: i32 = style.width_per_level();
    let hpl: i32 = style.height_per_level();
    proof {
        lemma_mul_bounds(wpl as int, level_count as int, 20000, 10000);
        lemma_mul_bounds(hpl as int, maxc as int, 20000, 10000);
    }
    let width: i32 = wpl * level_count + 2 * style.margin_width;
    let height: i32 = hpl * maxc as i32 + 2 * style.margin_height;
    let ghost w_g = spec_canvas_width(st, lc_g);
    let ghost h_g = spec_canvas_height(st, maxc_g);
    proof {
        assert(width as int == w_g);
        assert(height as int == h_g);
    }
    let mut result = String::new();
    append_str(&mut result, "<svg height=\"");
    append_i32(&mut result, height);
    append_str(&mut result, "\" width=\"");
    append_i32(&mut result, width);
    append_str(&mut result, "\" xmlns=\"http://www.w3.org/2000/svg\">\n");
    append_str(
        &mut result,
        "<defs>\n    <marker\n        id=\"arrowhead\"\n        markerWidth=\"6\"\n        markerHeight=\"6\"\n        refX=\"0\"\n        refY=\"3\"\n        orient=\"auto\"\n    >\n        <polygon points=\"0 0, 6 3, 0 6\" />\n    </marker>\n</defs>\n",
    );
    append_str(&mut result, "<rect x=\"");
    append_i32(&mut result, style.top_level_margin);
    append_str(&mut result, "\" y=\"");
    append_i32(&mut result, style.top_level_margin);
    append_str(&mut result, "\" height=\"");
    append_i32(&mut result, height - style.top_level_margin);
    append_str(&mut result, "\" width=\"");
    append_i32(&mut result, width - style.top_level_margin);
    append_str(&mut result, "\" fill=\"white\" stroke=\"black\" rx=\"2\" stroke-width=\"2\"/>\n");
    let ghost head = spec_header(h_g, w_g) + spec_defs() + spec_frame(st, h_g, w_g);
    proof {
        assert(result@ =~= head);
    }
    let mut j: usize = 0;
    while j < n
        invariant
            gg == *g,
            so == *sort_order,
            st == *style,
            gg.wf(),
            so.valid_for(gg),
            st.wf(),
            gg.node_count() <= 10000,
            forall|v: int|
                0 <= v < gg.node_count() ==> (#[trigger] gg.to_connections@[v])@.len() <= 10000,
            n == gg.nodes@.len(),
            j <= n,
            level_count_us == so.nodes_in_level@.len(),
            level_count == level_count_us as i32,
            level_count as int == lc_g,
            1 <= level_count_us <= 10000,
            maxc as int == maxc_g,
            maxc <= 10000,
            forall|d: int| 0 <= d < level_count_us ==> (#[trigger] so.nodes_in_level@[d]) <= maxc,
            wpl == st.spec_width_per_level(),
            hpl == st.spec_height_per_level(),
            result@ == head + spec_blocks_upto(gg, so, st, lc_g, maxc_g, j as int),
        decreases n - j,
    {
        let ghost blocks_pre = spec_blocks_upto(gg, so, st, lc_g, maxc_g, j as int);
        let node_index: usize = sort_order.order_indices[j];
        let lvl: usize = sort_order.depths[j];
        let idx: usize = sort_order.index_at_depth[j];
        proof {
            crate::graph::lemma_valid_for_bounds(gg, so);
            assert(0 <= (lvl as int) < level_count_us);
            assert(idx <= j as int);
            lemma_mul_bounds(level_count as int - lvl as int - 1, wpl as int, 10000, 20000);
            lemma_mul_bounds(idx as int, hpl as int, 10000, 20000);
            lemma_mul_bounds(
                hpl as int / 2,
                maxc as int - so.nodes_in_level@[lvl as int] as int,
                10000,
                10000,
            );
        }
        let x: i32 = (level_count - lvl as i32 - 1) * wpl + style.margin_height + half(wpl);
        let y: i32 = idx as i32 * hpl + style.margin_height + half(hpl) + half(hpl) * (maxc as i32
            - sort_order.nodes_in_level[lvl] as i32);
        proof {
            assert(x as int == spec_x(st, lc_g, lvl as int));
            assert(y as int == spec_y(
                st,
                idx as int,
                maxc_g,
                so.nodes_in_level@[lvl as int] as int,
            ));
        }
        draw_box(&mut result, g.node(node_index), style, x, y);
        let ghost boxed = blocks_pre + spec_box(
            gg.nodes@[node_index as int],
            st,
            x as int,
            y as int,
        );
        let num_inputs: usize = g.to_connections()[node_index].len();
        let mut ci: usize = 0;
        while ci < num_inputs
            invariant
                gg == *g,
                so == *sort_order,
                st == *style,
                gg.wf(),
                so.valid_for(gg),
                st.wf(),
                gg.node_count() <= 10000,
                n == gg.nodes@.len(),
                j < n,
                node_index == so.order_indices@[j as int],
                (node_index as int) < n,
                lvl == so.depths@[j as int],
                (lvl as int) < level_count_us,
                idx == so.index_at_depth@[j as int],
                idx <= j,
                level_count_us == so.nodes_in_level@.len(),
                level_count == level_count_us as i32,
                level_count as int == lc_g,
                1 <= level_count_us <= 10000,
                maxc as int == maxc_g,
                maxc <= 10000,
                forall|d: int| 0 <= d < level_count_us ==> (#[trigger] so.nodes_in_level@[d]) <= maxc,
                wpl == st.spec_width_per_level(),
                hpl == st.spec_height_per_level(),
                num_inputs == gg.to_connections@[node_index as int]@.len(),
                num_inputs <= 10000,
                ci <= num_inputs,
                x as int == spec_x(st, lc_g, lvl as int),
                y as int == spec_y(st, idx as int, maxc_g, so.nodes_in_level@[lvl as int] as int),
                0 <= x <= 400000000,
                0 <= y <= 400000000,
                result@ == head + blocks_pre + spec_box(
                    gg.nodes@[node_index as int],
                    st,
                    x as int,
                    y as int,
                ) + spec_conns_upto(gg, so, st, lc_g, maxc_g, j as int, ci as int),
            decreases num_inputs - ci,
        {
            let from_index: usize = g.to_connections()[node_index][ci].from_index;
            proof {
                assert(gg.to_connections@[node_index as int]@[ci as int].from_index == from_index);
                assert(0 <= (from_index as int) < n);
                assert(so.has_position(from_index as int));
            }
            let fj: usize = position_in(&sort_order.order_indices, from_index);
            proof {
                let pj = so.position_of(from_index as int);
                assert(so.order_indices@[pj] == from_index);
                if pj != fj as int {
                    assert(so.order_indices@[pj] != so.order_indices@[fj as int]);
                }
                assert(pj == fj as int);
                crate::graph::lemma_valid_for_bounds(gg, so);
                assert(gg.has_edge(
                    so.order_indices@[fj as int] as int,
                    so.order_indices@[j as int] as int,
                ));
                crate::graph::lemma_edge_levels(gg, so, j as int, fj as int);
            }
            let flvl: usize = sort_order.depths[fj];
            let fidx: usize = sort_order.index_at_depth[fj];
            proof {
                assert((flvl as int) < level_count_us);
                assert(fidx <= fj as int);
                lemma_mul_bounds(level_count as int - flvl as int - 1, wpl as int, 10000, 20000);
                lemma_mul_bounds(fidx as int, hpl as int, 10000, 20000);
                lemma_mul_bounds(
                    hpl as int / 2,
                    maxc as int - so.nodes_in_level@[flvl as int] as int,
                    10000,
                    10000,
                );
                lemma_mul_bounds(
                    st.box_height as int / (num_inputs as int + 1),
                    num_inputs as int - ci as int,
                    10000,
                    10000,
                );
                lemma_mul_bounds(
                    flvl as int - lvl as int - 1,
                    st.width_between_boxes as int,
                    10000,
                    10000,
                );
            }
            let x_from: i32 = (level_count - flvl as i32 - 1) * wpl + style.margin_height + half(wpl)
                + half(style.box_width);
            let y_from: i32 = fidx as i32 * hpl + style.margin_height + half(hpl) + half(hpl) * (
            maxc as i32 - sort_order.nodes_in_level[flvl] as i32);
            let y_to: i32 = y + half(style.box_height) - div_nonneg(style.box_height, num_inputs + 1)
                * (num_inputs as i32 - ci as i32);
            let x_to: i32 = x - half(style.box_width) - 10;
            let cpe: i32 = quarter(style.width_between_boxes) + (flvl as i32 - lvl as i32 - 1)
                * style.width_between_boxes;
            proof {
                assert(spec_conn(gg, so, st, lc_g, maxc_g, j as int, ci as int) == spec_curve(
                    x_from as int,
                    y_from as int,
                    x_to as int,
                    y_to as int,
                    cpe as int,
                ));
            }
            draw_curve(&mut result, x_from, y_from, x_to, y_to, cpe);
            ci = ci + 1;
        }
        proof {
            assert(spec_blocks_upto(gg, so, st, lc_g, maxc_g, j as int + 1) == blocks_pre
                + spec_node_block(gg, so, st, lc_g, maxc_g, j as int));
            assert(result@ =~= head + spec_blocks_upto(gg, so, st, lc_g, maxc_g, j as int + 1));
        }
        j = j + 1;
    }
    append_str(&mut result, "</svg>\n");
    proof {
        assert(result@ =~= spec_svg(gg, so, st));
    }
    result
}

} // verus!
