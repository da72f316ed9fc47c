use concurrent_pqueue::LineFramer;

fn feed(framer: &mut LineFramer, bytes: &[u8]) -> Vec<Vec<u8>> {
    let mut lines = Vec::new();
    for byte in bytes {
        if let Some(line) = framer.push(*byte) {
            lines.push(line);
        }
    }
    lines
}

#[test]
fn a_line_ends_with_cr_lf() {
    let mut framer = LineFramer::new();
    assert_eq!(feed(&mut framer, b"PEEK\r\n"), vec![b"PEEK".to_vec()]);
    assert_eq!(feed(&mut framer, b"NEXT\r\nSCORE a\r\n"), vec![b"NEXT".to_vec(), b"SCORE a".to_vec()]);
}

#[test]
fn a_lone_line_feed_ends_no_line() {
    let mut framer = LineFramer::new();
    assert_eq!(feed(&mut framer, b"PE\nEK"), Vec::<Vec<u8>>::new());
    assert_eq!(feed(&mut framer, b"\r\n"), vec![b"PE\nEK".to_vec()]);
}

#[test]
fn a_lone_carriage_return_is_kept() {
    let mut framer = LineFramer::new();
    assert_eq!(feed(&mut framer, b"a\rb\r\r\n"), vec![b"a\rb\r".to_vec()]);
}

#[test]
fn an_empty_line_is_a_line() {
    let mut framer = LineFramer::new();
    assert_eq!(feed(&mut framer, b"\r\n\r\n"), vec![Vec::<u8>::new(), Vec::<u8>::new()]);
}

#[test]
fn a_line_feed_first_is_kept() {
    let mut framer = LineFramer::new();
    assert_eq!(framer.push(b'\n'), None);
    assert_eq!(framer.push(b'\r'), None);
    assert_eq!(framer.push(b'\n'), Some(b"\n".to_vec()));
}
