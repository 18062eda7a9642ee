use apollo::ui::{FileChooser, FileChooserState, FileOpened, FileOpenedState, LogFileWdiget, PathListWidget};
use std::collections::HashMap;

#[test]
fn path_list_builders_set_one_field() {
    let paths = vec!["a", "b", "c"];
    let w = PathListWidget::new(&paths).start(1).highlighted(2).annotated(vec!["b"]);
    assert_eq!(w.start, 1);
    assert_eq!(w.highlighted, 2);
    assert_eq!(w.annotated, vec!["b"]);
    assert_eq!(w.lines.len(), 3);
}

#[test]
fn log_file_builders_set_one_field() {
    let lines = vec!["x".to_string(), "y".to_string()];
    let marks = vec![1usize];
    let w = LogFileWdiget::new(&lines, Some(&marks)).start(1).line_start(4).highlighted(1);
    assert_eq!(w.start, 1);
    assert_eq!(w.line_start, 4);
    assert_eq!(w.highlighted, 1);
    assert_eq!(w.annotated, Some(&marks));
}

#[test]
fn chooser_builders_set_one_field() {
    let paths = vec!["a", "b"];
    let s = FileChooserState::new(&paths, HashMap::new()).start(3).highlighted(5);
    assert_eq!((s.start, s.highlighted), (3, 5));
    let c = FileChooser::new(&paths).highlighted(1).start(2);
    assert_eq!((c.start, c.highlighted), (2, 1));
}

#[test]
fn opened_views_start_at_the_top() {
    let o = FileOpenedState::new("p".to_string(), vec!["l".to_string()], HashMap::new());
    assert_eq!((o.start, o.line_start, o.highlighted), (0, 0, 0));
    assert_eq!(o.log_path, "p");
    let f = FileOpened::new("q".to_string(), vec![], HashMap::new());
    assert_eq!((f.start, f.line_start, f.highlighted), (0, 0, 0));
    assert!(f.lines.is_empty());
}
