use emailclient::thread::parse_thread_response;

#[test]
fn test_parse_thread_linear_threads() {
    let response = "* THREAD (1 2 3)(4)(5)\r\nA001 OK\r\n";
    let threads = parse_thread_response(response);
    assert_eq!(threads, vec![vec![1, 2, 3], vec![4], vec![5]]);
}

#[test]
fn test_parse_thread_nested() {
    // (5 (6)(7 8)) → all four UIDs in one thread
    let response = "* THREAD (1)(2 3)(4)(5 (6)(7 8))\r\nA002 OK\r\n";
    let threads = parse_thread_response(response);
    assert_eq!(threads.len(), 4);
    assert_eq!(threads[0], vec![1]);
    assert_eq!(threads[1], vec![2, 3]);
    assert_eq!(threads[2], vec![4]);
    // 5, then two children (6) and (7 8) — flattened to [5,6,7,8]
    assert!(threads[3].contains(&5));
    assert!(threads[3].contains(&6));
    assert!(threads[3].contains(&7));
    assert!(threads[3].contains(&8));
}

#[test]
fn test_parse_thread_empty_response() {
    let threads = parse_thread_response("A003 OK THREAD completed\r\n");
    assert!(threads.is_empty());
}

#[test]
fn test_parse_thread_no_thread_line() {
    let threads = parse_thread_response("* OK [CAPABILITY IMAP4rev1]\r\n");
    assert!(threads.is_empty());
}

#[test]
fn children_are_flattened_depth_first() {
    let threads = parse_thread_response("* THREAD (1 (2 (3)(4))(5))(6)");
    assert_eq!(threads, vec![vec![1, 2, 3, 4, 5], vec![6]]);
}

#[test]
fn broken_thread_data_is_taken_as_far_as_it_goes() {
    // A number that is no UID, a group without one, a `)` too many, and a
    // group that is never closed.
    let threads = parse_thread_response("* THREAD (4294967296 7)()(8))(9 x10)(11");
    assert_eq!(threads, vec![vec![7], vec![8], vec![9, 10]]);
}

#[test]
fn threads_are_found_among_the_lines_of_a_response() {
    let written = vec![vec![1u32, 2, 3, 4], vec![5]];
    let line = "* THREAD (1 2 (3)(4))(5)";
    assert_eq!(parse_thread_response(line), written);
    for text in [
        format!("{line}\n"),
        format!("{line}\r\nA3 OK done\r\n"),
        format!("* 4 EXISTS\r\n* OK still here\r\n{line}\r\n* THREAD (9)\r\nA3 OK\r\n"),
    ] {
        assert_eq!(parse_thread_response(&text), written);
    }
}
