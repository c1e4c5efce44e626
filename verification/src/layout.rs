use vstd::prelude::*;
use crate::aggregate::{ArrivalGroupView, Board, DirectionColumn};
use crate::countdown::{countdown_string, spec_countdown, times_of};
use crate::records::BoardConfig;

verus! {

/// Canvas size and placement rules of the board, in pixels.
pub const CANVAS_WIDTH: i64 = 1024;

pub const CANVAS_HEIGHT: i64 = 758;

pub const COLUMN_SPLIT: i64 = 512;

pub const HEADER_HEIGHT: i64 = 30;

pub const HEADER_TEXT_Y: i64 = 23;

pub const FIRST_ROW_Y: i64 = 60;

pub const ROW_HEIGHT: i64 = 40;

pub const BADGE_X_INSET: i64 = 20;

pub const BADGE_PADDING: i64 = 8;

pub const BADGE_RADIUS: i64 = 24;

pub const DESTINATION_GAP: i64 = 15;

pub const COUNTDOWN_INSET: i64 = 20;

pub const DIVIDER_INSET: i64 = 10;

pub const DIVIDER_DROP: i64 = 10;

/// How a text run is anchored at its point.
#[derive(Debug, Clone, Copy, PartialEq, Eq)]
pub enum TextAlign {
    Start,
    Middle,
    End,
}

/// The gray level a primitive is painted with.
#[derive(Debug, Clone, Copy, PartialEq, Eq)]
pub enum Tone {
    White,
    Gray,
    Black,
}

/// One drawing instruction for the rasterizer, with absolute coordinates.
#[derive(Debug)]
pub enum DrawOp {
    FillRect { left: i64, top: i64, right: i64, bottom: i64, tone: Tone },
    FillRoundRect { left: i64, top: i64, right: i64, bottom: i64, radius: i64, tone: Tone },
    DrawLine { x1: i64, y1: i64, x2: i64, y2: i64, tone: Tone },
    DrawText { text: String, x: i64, y: i64, align: TextAlign, tone: Tone },
}

/// Mathematical image of a `DrawOp`.
pub enum DrawOpView {
    FillRect { left: int, top: int, right: int, bottom: int, tone: Tone },
    FillRoundRect { left: int, top: int, right: int, bottom: int, radius: int, tone: Tone },
    DrawLine { x1: int, y1: int, x2: int, y2: int, tone: Tone },
    DrawText { text: Seq<char>, x: int, y: int, align: TextAlign, tone: Tone },
}

impl View for DrawOp {
    type V = DrawOpView;

    open spec fn view(&self) -> DrawOpView {
        match self {
            DrawOp::FillRect { left, top, right, bottom, tone } => DrawOpView::FillRect {
                left: *left as int,
                top: *top as int,
                right: *right as int,
                bottom: *bottom as int,
                tone: *tone,
            },
            DrawOp::FillRoundRect { left, top, right, bottom, radius, tone } => (
            DrawOpView::FillRoundRect {
                left: *left as int,
                top: *top as int,
                right: *right as int,
                bottom: *bottom as int,
                radius: *radius as int,
                tone: *tone,
            }),
            DrawOp::DrawLine { x1, y1, x2, y2, tone } => DrawOpView::DrawLine {
                x1: *x1 as int,
                y1: *y1 as int,
                x2: *x2 as int,
                y2: *y2 as int,
                tone: *tone,
            },
            DrawOp::DrawText { text, x, y, align, tone } => DrawOpView::DrawText {
                text: text@,
                x: *x as int,
                y: *y as int,
                align: *align,
                tone: *tone,
            },
        }
    }
}

impl DeepView for DrawOp {
    type V = DrawOpView;

    open spec fn deep_view(&self) -> DrawOpView {
        self.view()
    }
}

/// The vertical position of a row's baseline.
pub open spec fn spec_row_y(i: int) -> int {
    FIRST_ROW_Y as int + ROW_HEIGHT as int * i
}

/// The five instructions of one row: the line badge, the line and
/// destination texts, the right-aligned countdown, and the underline. The
/// badge wraps the measured line text (width `width`, ascent `ascent`) with
/// symmetric padding; the destination starts right of the badge.
pub open spec fn spec_row_ops(
    g: ArrivalGroupView,
    width: u64,
    ascent: u64,
    y: int,
    x1: int,
    x2: int,
    now: i64,
) -> Seq<DrawOpView> {
    seq![
        DrawOpView::FillRoundRect {
            left: x1 + BADGE_X_INSET as int - BADGE_PADDING as int,
            top: y - ascent as int - BADGE_PADDING as int,
            right: x1 + BADGE_X_INSET as int + width as int + BADGE_PADDING as int,
            bottom: y + BADGE_PADDING as int,
            radius: BADGE_RADIUS as int,
            tone: Tone::Gray,
        },
        DrawOpView::DrawText {
            text: g.line,
            x: x1 + BADGE_X_INSET as int,
            y: y,
            align: TextAlign::Start,
            tone: Tone::Black,
        },
        DrawOpView::DrawText {
            text: g.destination,
            x: x1 + BADGE_X_INSET as int + width as int + BADGE_PADDING as int
                + DESTINATION_GAP as int,
            y: y,
            align: TextAlign::Start,
            tone: Tone::Black,
        },
        DrawOpView::DrawText {
            text: spec_countdown(times_of(g.arrivals), now),
            x: x2 - COUNTDOWN_INSET as int,
            y: y,
            align: TextAlign::End,
            tone: Tone::Black,
        },
        DrawOpView::DrawLine {
            x1: x1 + DIVIDER_INSET as int,
            y1: y + DIVIDER_DROP as int,
            x2: x2 - DIVIDER_INSET as int,
            y2: y + DIVIDER_DROP as int,
            tone: Tone::Black,
        },
    ]
}

/// The instructions of one column: its rows stacked top to bottom, row `i`
/// at `FIRST_ROW_Y + i * ROW_HEIGHT`, between the column edges `x1` and `x2`.
pub open spec fn spec_column_ops(
    gs: Seq<ArrivalGroupView>,
    widths: Seq<u64>,
    ascent: u64,
    x1: int,
    x2: int,
    now: i64,
) -> Seq<DrawOpView>
    recommends
        widths.len() == gs.len(),
    decreases gs.len(),
{
    if gs.len() == 0 {
        Seq::empty()
    } else {
        spec_column_ops(gs.drop_last(), widths.drop_last(), ascent, x1, x2, now) + spec_row_ops(
            gs.last(),
            widths[gs.len() - 1],
            ascent,
            spec_row_y(gs.len() - 1),
            x1,
            x2,
            now,
        )
    }
}

/// The whole board: a white canvas, the header band with the two centered
/// column titles and its underline, the inbound rows on the left half, the
/// full-height divider at the midpoint, and the outbound rows on the right.
pub open spec fn spec_board_ops(
    inbound: Seq<ArrivalGroupView>,
    outbound: Seq<ArrivalGroupView>,
    in_widths: Seq<u64>,
    out_widths: Seq<u64>,
    ascent: u64,
    in_label: Seq<char>,
    out_label: Seq<char>,
    now: i64,
) -> Seq<DrawOpView> {
    seq![
        DrawOpView::FillRect {
            left: 0,
            top: 0,
            right: CANVAS_WIDTH as int,
            bottom: CANVAS_HEIGHT as int,
            tone: Tone::White,
        },
        DrawOpView::FillRect {
            left: 0,
            top: 0,
            right: CANVAS_WIDTH as int,
            bottom: HEADER_HEIGHT as int,
            tone: Tone::Gray,
        },
        DrawOpView::DrawText {
            text: in_label,
            x: COLUMN_SPLIT as int / 2,
            y: HEADER_TEXT_Y as int,
            align: TextAlign::Middle,
            tone: Tone::Black,
        },
        DrawOpView::DrawText {
            text: out_label,
            x: COLUMN_SPLIT as int + COLUMN_SPLIT as int / 2,
            y: HEADER_TEXT_Y as int,
            align: TextAlign::Middle,
            tone: Tone::Black,
        },
        DrawOpView::DrawLine {
            x1: 0,
            y1: HEADER_HEIGHT as int,
            x2: CANVAS_WIDTH as int,
            y2: HEADER_HEIGHT as int,
            tone: Tone::Black,
        },
    ] + spec_column_ops(inbound, in_widths, ascent, 0, COLUMN_SPLIT as int, now) + seq![
        DrawOpView::DrawLine {
            x1: COLUMN_SPLIT as int,
            y1: 0,
            x2: COLUMN_SPLIT as int,
            y2: CANVAS_HEIGHT as int,
            tone: Tone::Black,
        },
    ] + spec_column_ops(outbound, out_widths, ascent, COLUMN_SPLIT as int, CANVAS_WIDTH as int, now)
}

/// Appends one column's row instructions. The measured badge-text widths and
/// the font ascent come from the drawing backend as plain pixel counts.
fn layout_column(
    ops: &mut Vec<DrawOp>,
    col: &DirectionColumn,
    widths: &Vec<u64>,
    ascent: u64,
    x1: i64,
    x2: i64,
    now: i64,
)
    requires
        widths.len() == col.groups.len(),
        col.groups.len() <= 1000000,
        forall|i: int| 0 <= i < widths.len() ==> #[trigger] widths[i] <= 1000000,
        ascent <= 1000000,
        0 <= x1 <= 10000,
        0 <= x2 <= 10000,
    ensures
        final(ops).deep_view() == old(ops).deep_view() + spec_column_ops(
            col@,
            widths@,
            ascent,
            x1 as int,
            x2 as int,
            now,
        ),
{
    let ghost base = ops.deep_view();
    let ghost gs = col@;
    let mut i: usize = 0;
    proof {
        assert(gs.take(0) =~= Seq::<ArrivalGroupView>::empty());
        assert(widths@.take(0) =~= Seq::<u64>::empty());
        assert(ops.deep_view() =~= base + spec_column_ops(
            gs.take(0),
            widths@.take(0),
            ascent,
            x1 as int,
            x2 as int,
            now,
        ));
    }
    while i < col.groups.len()
        invariant
            i <= col.groups.len(),
            gs == col@,
            base == old(ops).deep_view(),
            gs.len() == col.groups.len(),
            widths.len() == col.groups.len(),
            forall|t: int| 0 <= t < widths.len() ==> #[trigger] widths[t] <= 1000000,
            col.groups.len() <= 1000000,
            ascent <= 1000000,
            0 <= x1 <= 10000,
            0 <= x2 <= 10000,
            ops.deep_view() == base + spec_column_ops(
                gs.take(i as int),
                widths@.take(i as int),
                ascent,
                x1 as int,
                x2 as int,
                now,
            ),
        decreases col.groups.len() - i,
    {
        let ghost prefix = spec_column_ops(
            gs.take(i as int),
            widths@.take(i as int),
            ascent,
            x1 as int,
            x2 as int,
            now,
        );
        proof {
            assert(gs.take(i + 1 as int).drop_last() =~= gs.take(i as int));
            assert(widths@.take(i + 1 as int).drop_last() =~= widths@.take(i as int));
            assert(gs.take(i + 1 as int).last() == gs[i as int]);
            assert(widths@.take(i + 1 as int)[i as int] == widths@[i as int]);
            assert(gs[i as int] == col.groups@[i as int]@);
        }
        let g = &col.groups[i];
        let w = widths[i] as i64;
        let asc = ascent as i64;
        let y: i64 = FIRST_ROW_Y + ROW_HEIGHT * (i as i64);
        let badge_left = x1 + BADGE_X_INSET - BADGE_PADDING;
        let badge_top = y - asc - BADGE_PADDING;
        let badge_right = x1 + BADGE_X_INSET + w + BADGE_PADDING;
        ops.push(
            DrawOp::FillRoundRect {
                left: badge_left,
                top: badge_top,
                right: badge_right,
                bottom: y + BADGE_PADDING,
                radius: BADGE_RADIUS,
                tone: Tone::Gray,
            },
        );
        ops.push(
            DrawOp::DrawText {
                text: g.line.clone(),
                x: x1 + BADGE_X_INSET,
                y,
                align: TextAlign::Start,
                tone: Tone::Black,
            },
        );
        ops.push(
            DrawOp::DrawText {
                text: g.destination.clone(),
                x: badge_right + DESTINATION_GAP,
                y,
                align: TextAlign::Start,
                tone: Tone::Black,
            },
        );
        let countdown = countdown_string(&g.arrivals, now);
        ops.push(
            DrawOp::DrawText {
                text: countdown,
                x: x2 - COUNTDOWN_INSET,
                y,
                align: TextAlign::End,
                tone: Tone::Black,
            },
        );
        ops.push(
            DrawOp::DrawLine {
                x1: x1 + DIVIDER_INSET,
                y1: y + DIVIDER_DROP,
                x2: x2 - DIVIDER_INSET,
                y2: y + DIVIDER_DROP,
                tone: Tone::Black,
            },
        );
        proof {
            assert(ops.deep_view() =~= base + prefix + spec_row_ops(
                gs[i as int],
                widths@[i as int],
                ascent,
                spec_row_y(i as int),
                x1 as int,
                x2 as int,
                now,
            ));
            assert(spec_column_ops(
                gs.take(i + 1 as int),
                widths@.take(i + 1 as int),
                ascent,
                x1 as int,
                x2 as int,
                now,
            ) == prefix + spec_row_ops(
                gs[i as int],
                widths@[i as int],
                ascent,
                spec_row_y(i as int),
                x1 as int,
                x2 as int,
                now,
            ));
            assert(ops.deep_view() =~= base + spec_column_ops(
                gs.take(i + 1 as int),
                widths@.take(i + 1 as int),
                ascent,
                x1 as int,
                x2 as int,
                now,
            ));
        }
        i += 1;
    }
    proof {
        assert(gs.take(gs.len() as int) =~= gs);
        assert(widths@.take(widths@.len() as int) =~= widths@);
    }
}

/// Lays the whole board out as drawing instructions. `in_widths` and
/// `out_widths` hold each row's measured line-badge text width and `ascent`
/// the font ascent, both in pixels, as measured by the drawing backend;
/// `now` is the injected reference instant in seconds since the Unix epoch.
pub fn layout_board(
    board: &Board,
    in_widths: &Vec<u64>,
    out_widths: &Vec<u64>,
    ascent: u64,
    config: &BoardConfig,
    now: i64,
) -> (ops: Vec<DrawOp>)
    requires
        in_widths.len() == board.inbound.groups.len(),
        out_widths.len() == board.outbound.groups.len(),
        board.inbound.groups.len() <= 1000000,
        board.outbound.groups.len() <= 1000000,
        forall|i: int| 0 <= i < in_widths.len() ==> #[trigger] in_widths[i] <= 1000000,
        forall|i: int| 0 <= i < out_widths.len() ==> #[trigger] out_widths[i] <= 1000000,
        ascent <= 1000000,
    ensures
        ops.deep_view() == spec_board_ops(
            board.inbound@,
            board.outbound@,
            in_widths@,
            out_widths@,
            ascent,
            config@.inbound_label,
            config@.outbound_label,
            now,
        ),
{
    let mut ops: Vec<DrawOp> = Vec::new();
    ops.push(
        DrawOp::FillRect {
            left: 0,
            top: 0,
            right: CANVAS_WIDTH,
            bottom: CANVAS_HEIGHT,
            tone: Tone::White,
        },
    );
    ops.push(
        DrawOp::FillRect {
            left: 0,
            top: 0,
            right: CANVAS_WIDTH,
            bottom: HEADER_HEIGHT,
            tone: Tone::Gray,
        },
    );
    ops.push(
        DrawOp::DrawText {
            text: config.inbound_label.clone(),
            x: COLUMN_SPLIT / 2,
            y: HEADER_TEXT_Y,
            align: TextAlign::Middle,
            tone: Tone::Black,
        },
    );
    ops.push(
        DrawOp::DrawText {
            text: config.outbound_label.clone(),
            x: COLUMN_SPLIT + COLUMN_SPLIT / 2,
            y: HEADER_TEXT_Y,
            align: TextAlign::Middle,
            tone: Tone::Black,
        },
    );
    ops.push(
        DrawOp::DrawLine {
            x1: 0,
            y1: HEADER_HEIGHT,
            x2: CANVAS_WIDTH,
            y2: HEADER_HEIGHT,
            tone: Tone::Black,
        },
    );
    let ghost header = ops.deep_view();
    proof {
        assert(header =~= seq![
            DrawOpView::FillRect {
                left: 0,
                top: 0,
                right: CANVAS_WIDTH as int,
                bottom: CANVAS_HEIGHT as int,
                tone: Tone::White,
            },
            DrawOpView::FillRect {
                left: 0,
                top: 0,
                right: CANVAS_WIDTH as int,
                bottom: HEADER_HEIGHT as int,
                tone: Tone::Gray,
            },
            DrawOpView::DrawText {
                text: config@.inbound_label,
                x: COLUMN_SPLIT as int / 2,
                y: HEADER_TEXT_Y as int,
                align: TextAlign::Middle,
                tone: Tone::Black,
            },
            DrawOpView::DrawText {
                text: config@.outbound_label,
                x: COLUMN_SPLIT as int + COLUMN_SPLIT as int / 2,
                y: HEADER_TEXT_Y as int,
                align: TextAlign::Middle,
                tone: Tone::Black,
            },
            DrawOpView::DrawLine {
                x1: 0,
                y1: HEADER_HEIGHT as int,
                x2: CANVAS_WIDTH as int,
                y2: HEADER_HEIGHT as int,
                tone: Tone::Black,
            },
        ]);
    }
    layout_column(&mut ops, &board.inbound, in_widths, ascent, 0, COLUMN_SPLIT, now);
    let ghost with_inbound = ops.deep_view();
    ops.push(
        DrawOp::DrawLine {
            x1: COLUMN_SPLIT,
            y1: 0,
            x2: COLUMN_SPLIT,
            y2: CANVAS_HEIGHT,
            tone: Tone::Black,
        },
    );
    let ghost with_divider = ops.deep_view();
    proof {
        assert(with_divider =~= with_inbound + seq![
            DrawOpView::DrawLine {
                x1: COLUMN_SPLIT as int,
                y1: 0,
                x2: COLUMN_SPLIT as int,
                y2: CANVAS_HEIGHT as int,
                tone: Tone::Black,
            },
        ]);
    }
    layout_column(&mut ops, &board.outbound, out_widths, ascent, COLUMN_SPLIT, CANVAS_WIDTH, now);
    proof {
        assert(ops.deep_view() =~= spec_board_ops(
            board.inbound@,
            board.outbound@,
            in_widths@,
            out_widths@,
            ascent,
            config@.inbound_label,
            config@.outbound_label,
            now,
        ));
    }
    ops
}

} // verus!
