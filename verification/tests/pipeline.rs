use arrival_board::aggregate::{build_board, build_column};
use arrival_board::countdown::countdown_string;
use arrival_board::layout::{layout_board, DrawOp, TextAlign, Tone};
use arrival_board::records::{normalize_records, ArrivalRecord, BoardConfig};

use chrono::{DateTime, Utc};

fn cfg() -> BoardConfig {
    BoardConfig {
        watched_stops: vec![
            "15419".to_string(),
            "16996".to_string(),
            "15692".to_string(),
            "15696".to_string(),
        ],
        inbound_code: "IB".to_string(),
        outbound_code: "OB".to_string(),
        inbound_label: "Muni Inbound".to_string(),
        outbound_label: "Muni Outbound".to_string(),
    }
}

fn rec(stop: &str, line: &str, dir: &str, dest: &str, t: Option<&str>) -> ArrivalRecord {
    ArrivalRecord {
        stop_id: stop.to_string(),
        line: Some(line.to_string()),
        direction: Some(dir.to_string()),
        destination: Some(dest.to_string()),
        expected_arrival: t.map(|x| x.to_string()),
    }
}

fn epoch(s: &str) -> i64 {
    s.parse::<DateTime<Utc>>().unwrap().timestamp()
}

#[test]
fn unwatched_stop_is_excluded() {
    let records = vec![rec("99999", "N", "IB", "Caltrain", None)];
    let out = normalize_records(&records, &cfg());
    assert_eq!(out.len(), 0);
    let col = build_column(&out, &"IB".to_string());
    assert_eq!(col.groups.len(), 0);
}

#[test]
fn watched_stop_is_kept() {
    let records = vec![rec("15419", "N", "IB", "Caltrain", None)];
    let out = normalize_records(&records, &cfg());
    assert_eq!(out.len(), 1);
    assert_eq!(out[0].line, "N");
}

#[test]
fn missing_field_is_dropped() {
    let mut r = rec("15419", "N", "IB", "Caltrain", None);
    r.destination = None;
    let out = normalize_records(&vec![r], &cfg());
    assert_eq!(out.len(), 0);
}

#[test]
fn rows_sorted_by_line_then_destination() {
    let records = vec![
        rec("15419", "N", "IB", "Caltrain", None),
        rec("15419", "J", "IB", "Downtown", None),
    ];
    let out = normalize_records(&records, &cfg());
    let col = build_column(&out, &"IB".to_string());
    assert_eq!(col.groups.len(), 2);
    assert_eq!(col.groups[0].line, "J");
    assert_eq!(col.groups[1].line, "N");
}

#[test]
fn row_order_ignores_input_order() {
    let forward = vec![
        rec("15419", "N", "IB", "Caltrain", None),
        rec("15419", "J", "IB", "Downtown", None),
    ];
    let backward = vec![
        rec("15419", "J", "IB", "Downtown", None),
        rec("15419", "N", "IB", "Caltrain", None),
    ];
    let c1 = build_column(&normalize_records(&forward, &cfg()), &"IB".to_string());
    let c2 = build_column(&normalize_records(&backward, &cfg()), &"IB".to_string());
    let keys1: Vec<(String, String)> =
        c1.groups.iter().map(|g| (g.line.clone(), g.destination.clone())).collect();
    let keys2: Vec<(String, String)> =
        c2.groups.iter().map(|g| (g.line.clone(), g.destination.clone())).collect();
    assert_eq!(keys1, keys2);
    assert_eq!(keys1, vec![
        ("J".to_string(), "Downtown".to_string()),
        ("N".to_string(), "Caltrain".to_string()),
    ]);
}

#[test]
fn countdown_two_future_arrivals() {
    let now = epoch("2026-01-01T00:00:00Z");
    let records = vec![
        rec("15419", "N", "IB", "Caltrain", Some("2026-01-01T00:02:00Z")),
        rec("15419", "N", "IB", "Caltrain", Some("2026-01-01T00:09:30Z")),
    ];
    let board = build_board(&normalize_records(&records, &cfg()), &cfg());
    assert_eq!(board.inbound.groups.len(), 1);
    let s = countdown_string(&board.inbound.groups[0].arrivals, now);
    assert_eq!(s, "2, 9 min");
}

#[test]
fn countdown_skips_expired_arrival() {
    let now = epoch("2026-01-01T00:00:00Z");
    let records = vec![
        rec("15419", "N", "IB", "Caltrain", Some("2025-12-31T23:59:00Z")),
        rec("15419", "N", "IB", "Caltrain", Some("2026-01-01T00:05:00Z")),
    ];
    let board = build_board(&normalize_records(&records, &cfg()), &cfg());
    let s = countdown_string(&board.inbound.groups[0].arrivals, now);
    assert_eq!(s, "5 min");
}

#[test]
fn countdown_missing_timestamp_gives_placeholder() {
    let now = epoch("2026-01-01T00:00:00Z");
    let records = vec![rec("15419", "N", "IB", "Caltrain", None)];
    let board = build_board(&normalize_records(&records, &cfg()), &cfg());
    let s = countdown_string(&board.inbound.groups[0].arrivals, now);
    assert_eq!(s, "no upcoming arrivals");
}

#[test]
fn countdown_unparseable_timestamp_gives_placeholder() {
    let now = epoch("2026-01-01T00:00:00Z");
    let records = vec![rec("15419", "N", "IB", "Caltrain", Some("not a timestamp"))];
    let board = build_board(&normalize_records(&records, &cfg()), &cfg());
    let s = countdown_string(&board.inbound.groups[0].arrivals, now);
    assert_eq!(s, "no upcoming arrivals");
}

#[test]
fn countdown_caps_at_three_entries() {
    let now = epoch("2026-01-01T00:00:00Z");
    let records = vec![
        rec("15419", "N", "IB", "Caltrain", Some("2026-01-01T00:01:00Z")),
        rec("15419", "N", "IB", "Caltrain", Some("2026-01-01T00:03:00Z")),
        rec("15419", "N", "IB", "Caltrain", Some("2026-01-01T00:07:00Z")),
        rec("15419", "N", "IB", "Caltrain", Some("2026-01-01T00:12:00Z")),
    ];
    let board = build_board(&normalize_records(&records, &cfg()), &cfg());
    let s = countdown_string(&board.inbound.groups[0].arrivals, now);
    assert_eq!(s, "1, 3, 7 min");
}

#[test]
fn countdown_arrival_at_now_is_not_future() {
    let now = epoch("2026-01-01T00:00:00Z");
    let records = vec![rec("15419", "N", "IB", "Caltrain", Some("2026-01-01T00:00:00Z"))];
    let board = build_board(&normalize_records(&records, &cfg()), &cfg());
    let s = countdown_string(&board.inbound.groups[0].arrivals, now);
    assert_eq!(s, "no upcoming arrivals");
}

fn sample_board_ops(records: &Vec<ArrivalRecord>, now: i64) -> Vec<DrawOp> {
    let config = cfg();
    let board = build_board(&normalize_records(records, &config), &config);
    let in_widths: Vec<u64> = board.inbound.groups.iter().map(|_| 30).collect();
    let out_widths: Vec<u64> = board.outbound.groups.iter().map(|_| 30).collect();
    layout_board(&board, &in_widths, &out_widths, 20, &config, now)
}

#[test]
fn layout_is_deterministic() {
    let now = epoch("2026-01-01T00:00:00Z");
    let records = vec![
        rec("15419", "N", "IB", "Caltrain", Some("2026-01-01T00:02:00Z")),
        rec("16996", "J", "OB", "Balboa Park", Some("2026-01-01T00:04:00Z")),
        rec("15419", "N", "IB", "Caltrain", None),
    ];
    let first = sample_board_ops(&records, now);
    let second = sample_board_ops(&records, now);
    assert_eq!(format!("{:?}", first), format!("{:?}", second));
}

#[test]
fn layout_header_and_row_geometry() {
    let now = epoch("2026-01-01T00:00:00Z");
    let records = vec![rec("15419", "N", "IB", "Caltrain", Some("2026-01-01T00:02:00Z"))];
    let ops = sample_board_ops(&records, now);
    // canvas clear, header band, two titles, header underline,
    // five row instructions, then the column divider
    assert_eq!(ops.len(), 11);
    assert!(matches!(
        &ops[0],
        DrawOp::FillRect { left: 0, top: 0, right: 1024, bottom: 758, tone: Tone::White }
    ));
    assert!(matches!(
        &ops[1],
        DrawOp::FillRect { left: 0, top: 0, right: 1024, bottom: 30, tone: Tone::Gray }
    ));
    match &ops[2] {
        DrawOp::DrawText { text, x, y, align, .. } => {
            assert_eq!(text, "Muni Inbound");
            assert_eq!((*x, *y), (256, 23));
            assert!(matches!(align, TextAlign::Middle));
        }
        other => panic!("unexpected op: {other:?}"),
    }
    // badge: x1 = 0, width 30, ascent 20, first row baseline y = 60
    assert!(matches!(
        &ops[5],
        DrawOp::FillRoundRect {
            left: 12,
            top: 32,
            right: 58,
            bottom: 68,
            radius: 24,
            tone: Tone::Gray
        }
    ));
    match &ops[6] {
        DrawOp::DrawText { text, x, y, .. } => {
            assert_eq!(text, "N");
            assert_eq!((*x, *y), (20, 60));
        }
        other => panic!("unexpected op: {other:?}"),
    }
    match &ops[7] {
        DrawOp::DrawText { text, x, .. } => {
            assert_eq!(text, "Caltrain");
            assert_eq!(*x, 73);
        }
        other => panic!("unexpected op: {other:?}"),
    }
    match &ops[8] {
        DrawOp::DrawText { text, x, align, .. } => {
            assert_eq!(text, "2 min");
            assert_eq!(*x, 492);
            assert!(matches!(align, TextAlign::End));
        }
        other => panic!("unexpected op: {other:?}"),
    }
    assert!(matches!(
        &ops[9],
        DrawOp::DrawLine { x1: 10, y1: 70, x2: 502, y2: 70, tone: Tone::Black }
    ));
    assert!(matches!(
        &ops[10],
        DrawOp::DrawLine { x1: 512, y1: 0, x2: 512, y2: 758, tone: Tone::Black }
    ));
}

#[test]
fn empty_direction_renders_empty_column() {
    let now = epoch("2026-01-01T00:00:00Z");
    let records = vec![rec("15419", "N", "IB", "Caltrain", None)];
    let ops = sample_board_ops(&records, now);
    // header (5 ops) + one inbound row (5 ops) + divider; no outbound rows
    assert_eq!(ops.len(), 11);
}

#[test]
fn unconfigured_direction_is_ignored() {
    let records = vec![rec("15419", "N", "XX", "Caltrain", None)];
    let config = cfg();
    let board = build_board(&normalize_records(&records, &config), &config);
    assert_eq!(board.inbound.groups.len(), 0);
    assert_eq!(board.outbound.groups.len(), 0);
}

#[test]
fn missing_timestamp_sorts_after_known_times() {
    let records = vec![
        rec("15419", "N", "IB", "Caltrain", None),
        rec("15419", "N", "IB", "Caltrain", Some("2026-01-01T00:09:00Z")),
        rec("15419", "N", "IB", "Caltrain", Some("2026-01-01T00:02:00Z")),
    ];
    let board = build_board(&normalize_records(&records, &cfg()), &cfg());
    let arrivals = &board.inbound.groups[0].arrivals;
    assert_eq!(arrivals.len(), 3);
    assert_eq!(arrivals[0].expected_arrival.as_deref(), Some("2026-01-01T00:02:00Z"));
    assert_eq!(arrivals[1].expected_arrival.as_deref(), Some("2026-01-01T00:09:00Z"));
    assert_eq!(arrivals[2].expected_arrival, None);
}
