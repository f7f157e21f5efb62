use flamegraph::encode::fold_trace;
use flamegraph::{Flamegraph, Frame, StackTrace};

fn frame(name: &str, filename: &str, short: Option<&str>, line: u32) -> Frame {
    Frame {
        name: name.to_string(),
        filename: filename.to_string(),
        short_filename: short.map(|s| s.to_string()),
        line,
    }
}

fn trace(frames: Vec<Frame>, owns_gil: bool) -> StackTrace {
    StackTrace { frames, owns_gil }
}

fn lines_of(bytes: &[u8]) -> Vec<String> {
    let text = String::from_utf8(bytes.to_vec()).unwrap();
    text.lines().map(|l| l.to_string()).collect()
}

#[test]
fn key_encoding_is_deterministic() {
    let t1 = trace(vec![frame("foo", "a.rb", None, 3), frame("bar", "b.rb", Some("b"), 9)], false);
    let t2 = trace(vec![frame("foo", "a.rb", None, 3), frame("bar", "b.rb", Some("b"), 9)], true);
    assert_eq!(fold_trace(&t1, true), fold_trace(&t2, true));
    assert_eq!(fold_trace(&t1, false), fold_trace(&t2, false));
}

#[test]
fn key_reverses_frame_order() {
    let t = trace(
        vec![
            frame("a", "f.rb", None, 1),
            frame("b", "f.rb", None, 2),
            frame("c", "f.rb", None, 3),
        ],
        false,
    );
    let key = fold_trace(&t, true);
    assert_eq!(key, b"c (f.rb:3);b (f.rb:2);a (f.rb:1);".to_vec());
    assert!(key.starts_with(b"c (f.rb:3);"));
    assert!(key.ends_with(b"a (f.rb:1);"));
}

#[test]
fn short_filename_takes_precedence() {
    let with_short = trace(vec![frame("foo", "/long/path/s.rb", Some("s.rb"), 4)], false);
    let key = fold_trace(&with_short, true);
    assert_eq!(key, b"foo (s.rb:4);".to_vec());

    let without_short = trace(vec![frame("foo", "/long/path/s.rb", None, 4)], false);
    let key = fold_trace(&without_short, true);
    assert_eq!(key, b"foo (/long/path/s.rb:4);".to_vec());
}

#[test]
fn line_number_toggle() {
    let t = trace(vec![frame("foo", "bar.rb", None, 10)], false);
    assert_eq!(fold_trace(&t, true), b"foo (bar.rb:10);".to_vec());
    assert_eq!(fold_trace(&t, false), b"foo (bar.rb);".to_vec());
}

#[test]
fn line_zero_renders() {
    let t = trace(vec![frame("f", "g.rb", None, 0)], false);
    assert_eq!(fold_trace(&t, true), b"f (g.rb:0);".to_vec());
}

#[test]
fn counting_correctness() {
    // Five traces folding to one key, two of them holding the lock.
    let mut fg = Flamegraph::new(true);
    let mut batch = Vec::new();
    for i in 0..5 {
        batch.push(trace(vec![frame("work", "w.rb", None, 7)], i < 2));
    }
    fg.increment(&batch);
    let key = fold_trace(&batch[0], true);
    assert_eq!(fg.all_counts.get(&key), Some(5));
    assert_eq!(fg.gil_counts.get(&key), Some(2));
}

#[test]
fn key_absent_from_gil_table_without_lock() {
    let mut fg = Flamegraph::new(true);
    let batch = vec![trace(vec![frame("idle", "i.rb", None, 1)], false)];
    fg.increment(&batch);
    let key = fold_trace(&batch[0], true);
    assert_eq!(fg.all_counts.get(&key), Some(1));
    assert_eq!(fg.gil_counts.get(&key), None);
    assert_eq!(fg.gil_counts.len(), 0);
}

#[test]
fn batch_split_is_additive() {
    let make_batch = || {
        vec![
            trace(vec![frame("a", "x.rb", None, 1)], true),
            trace(vec![frame("b", "x.rb", None, 2)], false),
            trace(vec![frame("a", "x.rb", None, 1)], false),
            trace(vec![frame("c", "y.rb", Some("y"), 3)], true),
        ]
    };
    let mut whole = Flamegraph::new(true);
    whole.increment(&make_batch());

    let mut split = Flamegraph::new(true);
    let batch = make_batch();
    split.increment(&batch[..2]);
    split.increment(&batch[2..]);

    assert_eq!(whole.all_counts.len(), split.all_counts.len());
    assert_eq!(whole.gil_counts.len(), split.gil_counts.len());
    for t in &make_batch() {
        let key = fold_trace(t, true);
        assert_eq!(whole.all_counts.get(&key), split.all_counts.get(&key));
        assert_eq!(whole.gil_counts.get(&key), split.gil_counts.get(&key));
    }
}

#[test]
fn serialization_lists_every_key_once() {
    let mut fg = Flamegraph::new(false);
    let batch = vec![
        trace(vec![frame("a", "x.rb", None, 1)], true),
        trace(vec![frame("b", "x.rb", None, 2)], true),
        trace(vec![frame("a", "x.rb", None, 1)], false),
    ];
    fg.increment(&batch);

    let mut all = lines_of(&fg.all_lines());
    all.sort();
    assert_eq!(all, vec!["a (x.rb); 2".to_string(), "b (x.rb); 1".to_string()]);

    let mut gil = lines_of(&fg.gil_lines());
    gil.sort();
    assert_eq!(gil, vec!["a (x.rb); 1".to_string(), "b (x.rb); 1".to_string()]);
}

#[test]
fn empty_tables_serialize_to_empty_output() {
    let fg = Flamegraph::new(true);
    assert_eq!(fg.all_lines(), Vec::<u8>::new());
    assert_eq!(fg.gil_lines(), Vec::<u8>::new());
}

#[test]
fn empty_batch_changes_nothing() {
    let mut fg = Flamegraph::new(true);
    fg.increment(&[]);
    assert_eq!(fg.all_counts.len(), 0);
    assert_eq!(fg.gil_counts.len(), 0);
}

#[test]
fn trace_without_frames_counts_under_empty_key() {
    let mut fg = Flamegraph::new(true);
    fg.increment(&[trace(vec![], true)]);
    let key: Vec<u8> = Vec::new();
    assert_eq!(fg.all_counts.get(&key), Some(1));
    assert_eq!(fg.gil_counts.get(&key), Some(1));
    assert_eq!(lines_of(&fg.all_lines()), vec![" 1".to_string()]);
}

#[test]
fn multi_digit_counts_serialize_in_decimal() {
    let mut fg = Flamegraph::new(true);
    let mut batch = Vec::new();
    for _ in 0..12 {
        batch.push(trace(vec![frame("hot", "h.rb", None, 42)], false));
    }
    fg.increment(&batch);
    assert_eq!(lines_of(&fg.all_lines()), vec!["hot (h.rb:42); 12".to_string()]);
}

#[test]
fn end_to_end_two_traces() {
    let frames = || vec![frame("main", "a.rb", None, 1), frame("foo", "a.rb", None, 5)];
    let trace1 = trace(frames(), false);
    let trace2 = trace(frames(), true);
    let mut fg = Flamegraph::new(true);
    fg.increment(&[trace1, trace2]);

    let key = b"foo (a.rb:5);main (a.rb:1);".to_vec();
    assert_eq!(fg.all_counts.len(), 1);
    assert_eq!(fg.all_counts.get(&key), Some(2));
    assert_eq!(fg.gil_counts.len(), 1);
    assert_eq!(fg.gil_counts.get(&key), Some(1));
    assert_eq!(
        String::from_utf8(fg.all_lines()).unwrap(),
        "foo (a.rb:5);main (a.rb:1); 2\n",
    );
    assert_eq!(
        String::from_utf8(fg.gil_lines()).unwrap(),
        "foo (a.rb:5);main (a.rb:1); 1\n",
    );
}

#[test]
fn unicode_frame_names_fold_to_utf8_bytes() {
    let t = trace(vec![frame("häufig", "ü.rb", None, 2)], false);
    let key = fold_trace(&t, false);
    assert_eq!(key, "häufig (ü.rb);".as_bytes().to_vec());
}
