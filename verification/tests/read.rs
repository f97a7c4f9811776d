//! Pages of files.
use dwim::read::{page, plural, request, show, start, Opened, Request, BYTES, LINE, PAGE};
use serde_json::Value;

/// The page of a file that holds `data`, as the tool shows it.
fn read(path: &str, data: &[u8], start: Option<u64>) -> String {
    let mut arguments = serde_json::Map::new();
    arguments.insert("path".to_string(), Value::from(path));
    if let Some(start) = start {
        arguments.insert("start".to_string(), Value::from(start));
    }
    run(&Value::Object(arguments), Opened::Read(data.to_vec()))
}

/// What comes of a call of the tool, where that is what became of the file.
fn run(arguments: &Value, file: Opened) -> String {
    match request(arguments) {
        Request::Refused(text) => text,
        Request::Read { path, start } => show(&path, start, &file),
    }
}

fn object(members: &[(&str, Value)]) -> Value {
    Value::Object(members.iter().map(|(k, v)| (k.to_string(), v.clone())).collect())
}

#[test]
fn shows_text_as_it_is_and_replaces_what_is_none() {
    let shown = read("f", "gr\u{fc}n \u{1f642}\r\n".as_bytes(), None);
    assert!(shown.starts_with("1\tgr\u{fc}n \u{1f642}\n["), "{shown}");
    let shown = read("f", b"a\xffb\n", None);
    assert!(shown.starts_with("1\ta\u{fffd}b\n["), "{shown}");
}

#[test]
fn pages_through_a_file() {
    let text: String = (1..=450).map(|i| format!("line {i}\n")).collect();
    let path = "/tmp/long.txt";
    let read = |start: Option<u64>| read(path, text.as_bytes(), start);
    let first = read(None);
    assert!(first.starts_with("1\tline 1\n2\tline 2\n"), "{first}");
    assert!(first.contains("\n200\tline 200\n"), "{first}");
    assert!(!first.contains("line 201\n"));
    assert!(
        first.ends_with(&format!(
            "[lines 1–200 of 450 in {path}; next: read {path} from line 201]"
        )),
        "{first}"
    );
    assert_eq!(first.lines().count(), PAGE + 1);

    let second = read(Some(201));
    assert!(second.starts_with("201\tline 201\n"), "{second}");
    assert!(
        second.ends_with(&format!(
            "[lines 201–400 of 450 in {path}; next: read {path} from line 401]"
        )),
        "{second}"
    );

    let last = read(Some(401));
    assert!(last.starts_with("401\tline 401\n"));
    assert!(last.contains("\n450\tline 450\n"));
    assert!(
        last.ends_with(&format!("[lines 401–450 of 450 in {path}; end of file]")),
        "{last}"
    );

    // Following the cursor covers the file exactly once.
    let mut seen = Vec::new();
    for page in [&first, &second, &last] {
        seen.extend(
            page.lines()
                .filter(|line| !line.starts_with('['))
                .map(|line| line.split('\t').next().unwrap().parse::<u64>().unwrap()),
        );
    }
    assert_eq!(seen, (1..=450).collect::<Vec<_>>());

    assert_eq!(read(Some(451)), format!("[{path} has 450 lines; nothing from line 451]"));
    assert_eq!(
        read(Some(0)).lines().next().unwrap(),
        "1\tline 1",
        "a start below 1 means the first line"
    );
}

#[test]
fn reads_the_edges() {
    let empty = "empty.txt";
    assert_eq!(read(empty, b"", None), format!("[{empty} is empty]"));
    let one = "one.txt";
    assert_eq!(
        read(one, b"just this", None),
        format!("1\tjust this\n[lines 1–1 of 1 in {one}; end of file]")
    );
    let crlf = "crlf.txt";
    assert_eq!(
        read(crlf, b"a\r\nb\r\n", None),
        format!("1\ta\n2\tb\n[lines 1–2 of 2 in {crlf}; end of file]")
    );
    let bytes = "bytes.bin";
    assert_eq!(
        read(bytes, &[b"x\xc3\xa4\n".as_slice(), &[0xff, 0xfe, b'y']].concat(), None),
        format!("1\tx\u{e4}\n2\t\u{FFFD}\u{FFFD}y\n[lines 1–2 of 2 in {bytes}; end of file]")
    );
}

#[test]
fn cuts_long_lines_between_characters() {
    let long = "ä".repeat(400);
    let path = "wide.txt";
    let page = read(path, format!("short\n{long}\n").as_bytes(), None);
    let second = page.lines().nth(1).unwrap();
    assert!(second.starts_with("2\t"));
    assert!(second.ends_with('…'));
    assert!(!second.contains('\u{FFFD}'));
    assert!(second.len() <= "2\t".len() + LINE + '…'.len_utf8());
    assert!(
        page.ends_with(&format!(
            "[lines 1–2 of 2 in {path}; end of file; 1 line longer than {LINE} bytes cut]"
        )),
        "{page}"
    );
}

#[test]
fn ends_a_page_of_long_lines_early() {
    // 100 lines of 299 bytes: three pages by bytes, half of one by lines.
    let text: String = (1..=100).map(|i| format!("{i:<299}\n")).collect();
    let path = "wide.txt";
    let mut start = 1;
    let mut seen = Vec::new();
    while start <= 100 {
        let page = read(path, text.as_bytes(), Some(start));
        let body: usize = page
            .lines()
            .filter(|line| !line.starts_with('['))
            .map(|line| line.len() + 1)
            .sum();
        assert!(body <= BYTES, "{body} bytes of lines");
        let shown: Vec<u64> = page
            .lines()
            .filter(|line| !line.starts_with('['))
            .map(|line| line.split('\t').next().unwrap().parse().unwrap())
            .collect();
        assert!(!shown.is_empty());
        let end = *shown.last().unwrap();
        if end < 100 {
            assert!(
                page.ends_with(&format!(
                    "[lines {start}–{end} of 100 in {path}; next: read {path} from line {}]",
                    end + 1
                )),
                "{page}"
            );
        } else {
            assert!(
                page.ends_with(&format!("[lines {start}–100 of 100 in {path}; end of file]")),
                "{page}"
            );
        }
        seen.extend(shown);
        start = end + 1;
    }
    assert_eq!(seen, (1..=100).collect::<Vec<_>>());
    assert!(seen.len() > 1);
}

#[test]
fn refuses_what_it_cannot_read() {
    let path = |p: &str| object(&[("path", Value::from(p))]);
    let closed = Opened::Closed("No such file or directory (os error 2)".to_string());
    assert!(run(&path("/nonexistent/file"), closed)
        .starts_with("error: cannot read /nonexistent/file: "));
    assert!(run(&path("/"), Opened::Directory).starts_with("error: / is a directory"));
    let from = |s: Value| object(&[("path", Value::from("Cargo.toml")), ("start", s)]);
    let file = || Opened::Read(b"[package]\nname = \"x\"\n".to_vec());
    assert_eq!(run(&from(Value::from("abc")), file()), "error: 'start' is a line number");
    assert!(run(&from(Value::from("1")), file()).starts_with("1\t[package]"));
    assert_eq!(run(&object(&[]), file()), "error: read needs a 'path' string");
    assert_eq!(
        run(&path("a"), Opened::Broken("Input/output error".to_string())),
        "error: reading a: Input/output error"
    );
}

#[test]
fn takes_line_numbers_in_either_form() {
    let from = |s: Value| start(&object(&[("start", s)]));
    assert_eq!(from(Value::from(7)), Some(7));
    assert_eq!(from(Value::from(" 7\n")), Some(7));
    assert_eq!(from(Value::from("+7")), Some(7));
    assert_eq!(from(Value::from("-7")), None);
    assert_eq!(from(Value::from(-7)), None);
    assert_eq!(from(Value::from("18446744073709551615")), Some(u64::MAX));
    assert_eq!(from(Value::from("18446744073709551616")), None);
    assert_eq!(from(Value::from("")), None);
    assert_eq!(from(Value::Null), None);
    assert_eq!(start(&object(&[])), None);
}

#[test]
fn counts_in_words() {
    assert_eq!(plural(1, "line"), "line");
    assert_eq!(plural(0, "line"), "lines");
    assert_eq!(plural(2, "line"), "lines");
    // A line of a single page that has been cut, and more than one.
    let wide = "x".repeat(LINE + 1);
    let text = format!("{wide}\n{wide}");
    let shown = page(text.as_bytes(), "w", 1);
    assert!(shown.ends_with("; 2 lines longer than 300 bytes cut]"), "{shown}");
    assert!(page(b"a", "w", 5).ends_with("[w has 1 line; nothing from line 5]"));
}
