use token_visualizer::layout::{centered, history_rows, history_scroll, segment_bounds, Area, HistoryRow};
use token_visualizer::lines::Marker;

fn markers(afters: &[usize]) -> Vec<Marker> {
    afters.iter().map(|&a| Marker { after: a, label: String::new() }).collect()
}

#[test]
fn segment_bounds_sorted_without_repeats() {
    assert_eq!(segment_bounds(&markers(&[3, 1, 3, 9]), 5), vec![0, 1, 3, 5]);
    assert_eq!(segment_bounds(&markers(&[0, 5]), 5), vec![0, 5]);
    assert_eq!(segment_bounds(&markers(&[]), 4), vec![0, 4]);
    assert_eq!(segment_bounds(&markers(&[2]), 0), vec![0]);
}

#[test]
fn history_rows_weave_markers() {
    let ms = vec![
        Marker { after: 1, label: "b".into() },
        Marker { after: 0, label: "a".into() },
        Marker { after: 2, label: String::new() },
    ];
    assert_eq!(
        history_rows(&ms, 2),
        vec![
            HistoryRow::Marker(1),
            HistoryRow::Turn(0),
            HistoryRow::Detail(0),
            HistoryRow::Marker(0),
            HistoryRow::Turn(1),
            HistoryRow::Detail(1),
            HistoryRow::Marker(2),
        ]
    );
    assert_eq!(history_rows(&Vec::new(), 0), vec![HistoryRow::Placeholder]);
    assert_eq!(history_rows(&markers(&[0]), 0), vec![HistoryRow::Marker(0)]);
}

#[test]
fn history_scroll_offsets() {
    // Ten rows in a box of six (four inside the border).
    assert_eq!(history_scroll(10, 6, 0), (6, 6));
    assert_eq!(history_scroll(10, 6, 2), (6, 4));
    assert_eq!(history_scroll(10, 6, 9), (6, 0));
    assert_eq!(history_scroll(3, 10, 1), (0, 0));
    assert_eq!(history_scroll(3, 1, 0), (3, 3));
}

#[test]
fn centred_boxes() {
    let area = Area { x: 10, y: 5, width: 100, height: 40 };
    assert_eq!(centered(area, 60, 4), Area { x: 30, y: 23, width: 60, height: 4 });
    assert_eq!(centered(area, 200, 50), Area { x: 10, y: 5, width: 100, height: 40 });
    assert_eq!(centered(area, 61, 5), Area { x: 29, y: 22, width: 61, height: 5 });
}

