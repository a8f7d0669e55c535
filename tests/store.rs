use gtk_reporter::{compare_dates, DateRows, ReporterError, Row, State, Status};

fn store_on(date: &str) -> State {
    State::with_date(date.to_string())
}

fn texts(rows: &[Row]) -> Vec<String> {
    rows.iter().map(|r| r.text.clone()).collect()
}

fn ids(rows: &[Row]) -> Vec<u32> {
    rows.iter().map(|r| r.id).collect()
}

#[test]
fn add_returns_increasing_ids() {
    let mut s = store_on("2024-03-01");
    let mut last = 0;
    for n in 0..5 {
        let id = s.add_row(format!("task {}", n)).unwrap();
        assert!(id > last);
        assert_eq!(id, last + 1);
        last = id;
    }
    assert_eq!(s.max_id, 5);
    assert_eq!(ids(&s.get_rows_for_date("2024-03-01")), vec![1, 2, 3, 4, 5]);
}

#[test]
fn ids_stay_unique_after_delete() {
    let mut s = store_on("2024-03-01");
    let a = s.add_row("a".to_string()).unwrap();
    s.delete_row("2024-03-01".to_string(), a).unwrap();
    let b = s.add_row("b".to_string()).unwrap();
    assert!(b > a);
}

#[test]
fn new_task_is_working() {
    let mut s = store_on("2024-03-01");
    let id = s.add_row("x".to_string()).unwrap();
    let row = s.get_row("2024-03-01", id).unwrap();
    assert_eq!(row.status, Status::Working);
    assert_eq!(row.text, "x");
}

#[test]
fn missing_date_fails_everywhere() {
    let mut s = store_on("2024-03-01");
    s.add_row("a".to_string()).unwrap();
    let before = s.generate_report("2024-03-01");
    let d = "2000-01-01".to_string();
    assert!(matches!(s.edit_row(d.clone(), 1, "z".to_string()), Err(ReporterError::DateNotFound)));
    assert!(matches!(s.update_row_status(d.clone(), 1, Status::Ready), Err(ReporterError::DateNotFound)));
    assert!(matches!(s.delete_row(d.clone(), 1), Err(ReporterError::DateNotFound)));
    assert!(matches!(s.move_row(d.clone(), 1, "2024-03-02".to_string()), Err(ReporterError::DateNotFound)));
    assert_eq!(s.generate_report("2024-03-01"), before);
    assert_eq!(s.get_all_dates(), vec!["2024-03-01".to_string()]);
    assert_eq!(s.max_id, 1);
}

#[test]
fn missing_row_fails_everywhere() {
    let mut s = store_on("2024-03-01");
    s.add_row("a".to_string()).unwrap();
    let before = s.generate_report("2024-03-01");
    let d = "2024-03-01".to_string();
    assert!(matches!(s.edit_row(d.clone(), 9, "z".to_string()), Err(ReporterError::RowNotFound)));
    assert!(matches!(s.update_row_status(d.clone(), 9, Status::Ready), Err(ReporterError::RowNotFound)));
    assert!(matches!(s.delete_row(d.clone(), 9), Err(ReporterError::RowNotFound)));
    assert!(matches!(s.move_row(d.clone(), 9, "2024-03-02".to_string()), Err(ReporterError::RowNotFound)));
    assert_eq!(s.generate_report("2024-03-01"), before);
    assert_eq!(s.get_all_dates(), vec!["2024-03-01".to_string()]);
}

#[test]
fn edit_and_status_change_in_place() {
    let mut s = store_on("2024-03-01");
    s.add_row("a".to_string()).unwrap();
    let b = s.add_row("b".to_string()).unwrap();
    s.edit_row("2024-03-01".to_string(), b, "bee".to_string()).unwrap();
    s.update_row_status("2024-03-01".to_string(), b, Status::Testing).unwrap();
    let rows = s.get_rows_for_date("2024-03-01");
    assert_eq!(texts(&rows), vec!["a".to_string(), "bee".to_string()]);
    assert_eq!(rows[1].status, Status::Testing);
    assert_eq!(rows[0].status, Status::Working);
}

#[test]
fn delete_last_task_removes_date() {
    let mut s = store_on("2024-03-01");
    let id = s.add_row("only".to_string()).unwrap();
    s.delete_row("2024-03-01".to_string(), id).unwrap();
    assert!(s.get_all_dates().is_empty());
    assert!(s.get_rows_for_date("2024-03-01").is_empty());
}

#[test]
fn delete_keeps_other_tasks() {
    let mut s = store_on("2024-03-01");
    s.add_row("a".to_string()).unwrap();
    let b = s.add_row("b".to_string()).unwrap();
    s.add_row("c".to_string()).unwrap();
    s.delete_row("2024-03-01".to_string(), b).unwrap();
    assert_eq!(texts(&s.get_rows_for_date("2024-03-01")), vec!["a".to_string(), "c".to_string()]);
    assert_eq!(s.get_all_dates(), vec!["2024-03-01".to_string()]);
}

#[test]
fn move_relocates_task_unchanged() {
    let mut s = store_on("2024-03-01");
    s.add_row("a".to_string()).unwrap();
    let b = s.add_row("b".to_string()).unwrap();
    s.update_row_status("2024-03-01".to_string(), b, Status::Ready).unwrap();
    s.move_row("2024-03-01".to_string(), b, "2024-02-10".to_string()).unwrap();
    assert!(s.get_row("2024-03-01", b).is_none());
    let moved = s.get_row("2024-02-10", b).unwrap();
    assert_eq!(moved.text, "b");
    assert_eq!(moved.status, Status::Ready);
    assert_eq!(s.get_all_dates(), vec!["2024-03-01".to_string(), "2024-02-10".to_string()]);
}

#[test]
fn move_to_same_date_goes_to_end() {
    let mut s = store_on("2024-03-01");
    let a = s.add_row("a".to_string()).unwrap();
    s.add_row("b".to_string()).unwrap();
    s.move_row("2024-03-01".to_string(), a, "2024-03-01".to_string()).unwrap();
    assert_eq!(texts(&s.get_rows_for_date("2024-03-01")), vec!["b".to_string(), "a".to_string()]);
}

#[test]
fn move_scenario_between_dates() {
    let mut s = store_on("2024-05-01");
    let id = s.add_row("task A".to_string()).unwrap();
    assert_eq!(id, 1);
    s.move_row("2024-05-01".to_string(), 1, "2024-05-02".to_string()).unwrap();
    assert!(s.get_rows_for_date("2024-05-01").is_empty());
    assert!(!s.get_all_dates().contains(&"2024-05-01".to_string()));
    let rows = s.get_rows_for_date("2024-05-02");
    assert_eq!(rows.len(), 1);
    assert_eq!(rows[0].id, 1);
    assert_eq!(rows[0].text, "task A");
}

#[test]
fn all_dates_latest_first() {
    let mut s = store_on("2024-01-15");
    for d in ["2024-01-15", "2023-12-31", "2024-02-01", "2024-01-02", "2025-06-30"] {
        s.cur_date = d.to_string();
        s.add_row(format!("on {}", d)).unwrap();
    }
    assert_eq!(
        s.get_all_dates(),
        vec![
            "2025-06-30".to_string(),
            "2024-02-01".to_string(),
            "2024-01-15".to_string(),
            "2024-01-02".to_string(),
            "2023-12-31".to_string(),
        ]
    );
}

#[test]
fn report_groups_by_status() {
    let mut s = store_on("2024-04-04");
    let a = s.add_row("fix bug".to_string()).unwrap();
    let b = s.add_row("write docs".to_string()).unwrap();
    s.update_row_status("2024-04-04".to_string(), a, Status::Working).unwrap();
    s.update_row_status("2024-04-04".to_string(), b, Status::Ready).unwrap();
    assert_eq!(
        s.generate_report("2024-04-04"),
        "Отчет 2024-04-04\n\n=== В работе ===\n• fix bug\n\n=== Готово ===\n• write docs\n\n"
    );
}

#[test]
fn report_orders_sections_by_status() {
    let mut s = store_on("2024-04-04");
    let a = s.add_row("t1".to_string()).unwrap();
    let b = s.add_row("o1".to_string()).unwrap();
    s.add_row("w1".to_string()).unwrap();
    let d = s.add_row("o2".to_string()).unwrap();
    s.update_row_status("2024-04-04".to_string(), a, Status::Testing).unwrap();
    s.update_row_status("2024-04-04".to_string(), b, Status::Open).unwrap();
    s.update_row_status("2024-04-04".to_string(), d, Status::Open).unwrap();
    assert_eq!(
        s.generate_report("2024-04-04"),
        "Отчет 2024-04-04\n\n=== Открыто ===\n• o1\n• o2\n\n=== В работе ===\n• w1\n\n=== Передал в тестирование ===\n• t1\n\n"
    );
}

#[test]
fn report_without_tasks() {
    let s = store_on("2024-04-04");
    assert_eq!(s.generate_report("2024-04-05"), "Отчет 2024-04-05\n\nНет задач за эту дату.");
}

#[test]
fn status_labels_and_order() {
    assert_eq!(Status::Open.to_str(), "Открыто");
    assert_eq!(Status::Working.to_str(), "В работе");
    assert_eq!(Status::Testing.to_str(), "Передал в тестирование");
    assert_eq!(Status::Ready.to_str(), "Готово");
    assert_eq!(Status::Ready.to_string(), "Готово".to_string());
    assert_eq!(Status::all(), [Status::Open, Status::Working, Status::Testing, Status::Ready]);
}

#[test]
fn row_new_is_working() {
    let r = Row::new(7, "t".to_string());
    assert_eq!(r.id, 7);
    assert_eq!(r.text, "t");
    assert_eq!(r.status, Status::Working);
}

#[test]
fn compare_dates_is_lexicographic() {
    assert!(compare_dates("2024-01-02", "2024-01-10") < 0);
    assert!(compare_dates("2024-02-01", "2024-01-31") > 0);
    assert_eq!(compare_dates("2024-02-01", "2024-02-01"), 0);
    assert!(compare_dates("2024", "2024-01") < 0);
}

#[test]
fn new_store_is_empty_with_today() {
    let s = State::new();
    assert_eq!(s.max_id, 0);
    assert!(s.get_all_dates().is_empty());
    let d: Vec<char> = s.cur_date.chars().collect();
    assert_eq!(d.len(), 10);
    assert_eq!(d[4], '-');
    assert_eq!(d[7], '-');
}

#[test]
fn parts_round_trip() {
    let mut s = store_on("2024-01-01");
    s.add_row("a".to_string()).unwrap();
    s.add_row("b".to_string()).unwrap();
    s.move_row("2024-01-01".to_string(), 2, "2024-01-03".to_string()).unwrap();
    s.update_row_status("2024-01-03".to_string(), 2, Status::Testing).unwrap();
    let parts = s.to_parts();
    let t = State::from_parts(s.max_id, parts, "2030-01-01".to_string()).unwrap();
    assert_eq!(t.max_id, s.max_id);
    assert_eq!(t.cur_date, "2030-01-01");
    assert_eq!(t.get_all_dates(), s.get_all_dates());
    for d in s.get_all_dates() {
        let a = s.get_rows_for_date(&d);
        let b = t.get_rows_for_date(&d);
        assert_eq!(ids(&a), ids(&b));
        assert_eq!(texts(&a), texts(&b));
        assert_eq!(a.iter().map(|r| r.status).collect::<Vec<_>>(), b.iter().map(|r| r.status).collect::<Vec<_>>());
    }
}

fn entry(date: &str, rows: Vec<Row>) -> DateRows {
    DateRows { date: date.to_string(), rows }
}

#[test]
fn from_parts_rejects_bad_data() {
    let dup_id = vec![
        entry("2024-01-01", vec![Row::new(1, "a".to_string())]),
        entry("2024-01-02", vec![Row::new(1, "b".to_string())]),
    ];
    assert!(State::from_parts(5, dup_id, "x".to_string()).is_none());
    let too_big = vec![entry("2024-01-01", vec![Row::new(6, "a".to_string())])];
    assert!(State::from_parts(5, too_big, "x".to_string()).is_none());
    let dup_date = vec![
        entry("2024-01-01", vec![Row::new(1, "a".to_string())]),
        entry("2024-01-01", vec![Row::new(2, "b".to_string())]),
    ];
    assert!(State::from_parts(5, dup_date, "x".to_string()).is_none());
}

#[test]
fn from_parts_sorts_and_drops_empty_dates() {
    let es = vec![
        entry("2024-01-01", vec![Row::new(1, "a".to_string())]),
        entry("2024-03-01", vec![]),
        entry("2024-02-01", vec![Row::new(3, "c".to_string()), Row::new(2, "b".to_string())]),
    ];
    let s = State::from_parts(3, es, "2024-02-01".to_string()).unwrap();
    assert_eq!(s.get_all_dates(), vec!["2024-02-01".to_string(), "2024-01-01".to_string()]);
    assert_eq!(ids(&s.get_rows_for_date("2024-02-01")), vec![3, 2]);
    let mut s = s;
    assert_eq!(s.add_row("d".to_string()).unwrap(), 4);
}
