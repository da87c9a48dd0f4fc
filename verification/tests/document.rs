use massif_parser::cursor::lines_before;
use massif_parser::error::{Construct, ErrorKind, ParseError};
use massif_parser::header::Header;
use massif_parser::snapshot::{Snapshot, TreeKind};
use massif_parser::{parse, Output};

const HEAD: &str = "desc: (none)\ncmd: foo\ntime_unit: i\n";
const SEP: &str = "#-----------\n";

fn block(index: u32, time: u64, heap: u32, extra: u32, stacks: u32, tree: &str) -> String {
    format!(
        "{SEP}snapshot={index}\n{SEP}time={time}\nmem_heap_B={heap}\nmem_heap_extra_B={extra}\nmem_stacks_B={stacks}\nheap_tree={tree}\n"
    )
}

fn record(num: u32, time: u64, heap: u32, extra: u32, stacks: u32, tree: TreeKind) -> Snapshot {
    Snapshot {
        num,
        time,
        mem_heap: heap,
        mem_heap_extra: extra,
        mem_stacks: stacks,
        heap_tree: tree,
    }
}

fn fault(kind: ErrorKind, expected: Construct, offset: usize) -> Result<Output, ParseError> {
    Err(ParseError { kind, expected, offset })
}

#[test]
fn one_snapshot_document_gives_its_header_and_record() {
    let text = format!("{HEAD}{}", block(0, 1000, 2048, 0, 512, "empty"));
    let output = parse(text.as_bytes()).unwrap();
    assert_eq!(output.header.description(), None);
    assert_eq!(output.header.command(), b"foo");
    assert_eq!(output.header.time_unit(), b"i");
    assert_eq!(output.snapshots.len(), 1);
    assert_eq!(output.snapshots[0].num, 0);
    assert_eq!(output.snapshots[0].time, 1000);
    assert_eq!(output.snapshots[0].mem_heap, 2048);
    assert_eq!(output.snapshots[0].mem_heap_extra, 0);
    assert_eq!(output.snapshots[0].mem_stacks, 512);
    assert_eq!(output.snapshots[0].heap_tree, TreeKind::Empty);
}

#[test]
fn description_is_present_unless_it_is_the_none_token() {
    let with = parse(b"desc: my profile run\ncmd: foo\ntime_unit: i\n").unwrap();
    assert_eq!(with.header.description(), Some(&b"my profile run"[..]));
    let without = parse(b"desc: (none)\ncmd: foo\ntime_unit: i\n").unwrap();
    assert_eq!(without.header.description(), None);
}

#[test]
fn description_near_the_none_token_is_kept_as_text() {
    let padded = parse(b"desc: (none) \ncmd: foo\ntime_unit: i\n").unwrap();
    assert_eq!(padded.header.description(), Some(&b"(none) "[..]));
    let upper = parse(b"desc: (None)\ncmd: foo\ntime_unit: i\n").unwrap();
    assert_eq!(upper.header.description(), Some(&b"(None)"[..]));
    let empty = parse(b"desc: \ncmd: foo\ntime_unit: i\n").unwrap();
    assert_eq!(empty.header.description(), Some(&b""[..]));
}

#[test]
fn header_values_are_kept_untrimmed() {
    let output = parse(b"desc:  two  spaces \ncmd: ./a.out --flag=1  \ntime_unit:  ms\n").unwrap();
    assert_eq!(output.header.description(), Some(&b" two  spaces "[..]));
    assert_eq!(output.header.command(), b"./a.out --flag=1  ");
    assert_eq!(output.header.time_unit(), b" ms");
}

#[test]
fn snapshots_keep_the_order_of_the_text() {
    let text = format!(
        "{HEAD}{}{}{}",
        block(0, 10, 1, 2, 3, "empty"),
        block(1, 20, 4, 5, 6, "empty"),
        block(2, 30, 7, 8, 9, "peak")
    );
    let output = parse(text.as_bytes()).unwrap();
    assert_eq!(
        output.snapshots,
        vec![
            record(0, 10, 1, 2, 3, TreeKind::Empty),
            record(1, 20, 4, 5, 6, TreeKind::Empty),
            record(2, 30, 7, 8, 9, TreeKind::Peak),
        ]
    );
}

#[test]
fn snapshots_are_not_sorted_by_index_or_time() {
    let text = format!(
        "{HEAD}{}{}{}",
        block(2, 30, 0, 0, 0, "empty"),
        block(0, 50, 0, 0, 0, "empty"),
        block(1, 10, 0, 0, 0, "empty")
    );
    let output = parse(text.as_bytes()).unwrap();
    let indices: Vec<u32> = output.snapshots.iter().map(|s| s.num).collect();
    let times: Vec<u64> = output.snapshots.iter().map(|s| s.time).collect();
    assert_eq!(indices, vec![2, 0, 1]);
    assert_eq!(times, vec![30, 50, 10]);
}

#[test]
fn tree_detail_is_skipped() {
    let detail = "n2: 2048 (heap allocation functions) malloc/new/new[], --alloc-fns, etc.\n n1: 1024 0x10915B: main (in /tmp/a.out)\n n0: 1024 in 3 places, all below massif's threshold (1.00%)\n";
    let text = format!(
        "{HEAD}{}{detail}{}",
        block(0, 1000, 2048, 8, 0, "detailed"),
        block(1, 2000, 4096, 16, 0, "empty")
    );
    let output = parse(text.as_bytes()).unwrap();
    assert_eq!(
        output.snapshots,
        vec![
            record(0, 1000, 2048, 8, 0, TreeKind::Detailed),
            record(1, 2000, 4096, 16, 0, TreeKind::Empty),
        ]
    );
    let plain = format!(
        "{HEAD}{}{}",
        block(0, 1000, 2048, 8, 0, "detailed"),
        block(1, 2000, 4096, 16, 0, "empty")
    );
    assert_eq!(parse(plain.as_bytes()).unwrap(), output);
}

#[test]
fn tree_detail_may_run_to_the_end_of_the_text() {
    let text = format!("{HEAD}{}n0: 12 in 1 place\n no newline at the end", block(7, 1, 2, 3, 4, "peak"));
    let output = parse(text.as_bytes()).unwrap();
    assert_eq!(output.snapshots, vec![record(7, 1, 2, 3, 4, TreeKind::Peak)]);
}

#[test]
fn detail_is_skipped_behind_an_empty_tree_too() {
    let text = format!(
        "{HEAD}{}stray line\n{}",
        block(0, 1, 2, 3, 4, "empty"),
        block(1, 5, 6, 7, 8, "empty")
    );
    let output = parse(text.as_bytes()).unwrap();
    assert_eq!(output.snapshots.len(), 2);
    assert_eq!(output.snapshots[1], record(1, 5, 6, 7, 8, TreeKind::Empty));
}

#[test]
fn detail_ends_at_a_separator_inside_a_line() {
    let text = format!(
        "{HEAD}{}n0: tail{}",
        block(0, 1, 2, 3, 4, "detailed"),
        block(1, 5, 6, 7, 8, "empty")
    );
    let output = parse(text.as_bytes()).unwrap();
    assert_eq!(output.snapshots.len(), 2);
    assert_eq!(output.snapshots[1].num, 1);
}

#[test]
fn missing_second_delimiter_is_malformed_input() {
    let open = format!("{SEP}snapshot=0\n");
    let text = format!(
        "{HEAD}{open}time=1000\nmem_heap_B=2048\nmem_heap_extra_B=0\nmem_stacks_B=512\nheap_tree=empty\n"
    );
    assert_eq!(
        parse(text.as_bytes()),
        fault(ErrorKind::MalformedInput, Construct::Delimiter, HEAD.len() + open.len())
    );
}

#[test]
fn unknown_tree_kind_is_an_unrecognized_enum() {
    let open = format!(
        "{SEP}snapshot=0\n{SEP}time=1\nmem_heap_B=2\nmem_heap_extra_B=3\nmem_stacks_B=4\n"
    );
    let text = format!("{HEAD}{open}heap_tree=weird\n");
    assert_eq!(
        parse(text.as_bytes()),
        fault(ErrorKind::UnrecognizedEnum, Construct::TreeKind, HEAD.len() + open.len())
    );
}

#[test]
fn tree_kind_tags_are_exact() {
    for tag in ["Empty", "empty ", " peak", "", "detail", "peaks"] {
        let open = format!(
            "{SEP}snapshot=0\n{SEP}time=1\nmem_heap_B=2\nmem_heap_extra_B=3\nmem_stacks_B=4\n"
        );
        let text = format!("{HEAD}{open}heap_tree={tag}\n");
        assert_eq!(
            parse(text.as_bytes()),
            fault(ErrorKind::UnrecognizedEnum, Construct::TreeKind, HEAD.len() + open.len()),
            "tag {tag:?}"
        );
    }
}

#[test]
fn header_alone_is_a_document_without_snapshots() {
    let output = parse(HEAD.as_bytes()).unwrap();
    assert_eq!(output.header.description(), None);
    assert_eq!(output.header.command(), b"foo");
    assert_eq!(output.header.time_unit(), b"i");
    assert!(output.snapshots.is_empty());
}

#[test]
fn parsing_twice_gives_equal_models() {
    let text = format!(
        "desc: run\ncmd: ./a.out\ntime_unit: ms\n{}n1: x\n{}",
        block(0, 1, 2, 3, 4, "detailed"),
        block(1, 5, 6, 7, 8, "peak")
    );
    let first = parse(text.as_bytes());
    let second = parse(text.as_bytes());
    assert!(first.is_ok());
    assert_eq!(first, second);
    let broken = format!("{text}{SEP}snapshot=x\n");
    assert!(parse(broken.as_bytes()).is_err());
    assert_eq!(parse(broken.as_bytes()), parse(broken.as_bytes()));
}

#[test]
fn text_behind_the_header_that_opens_no_block_is_trailing_data() {
    let text = format!("{HEAD}garbage\n");
    assert_eq!(
        parse(text.as_bytes()),
        fault(ErrorKind::TrailingData, Construct::Delimiter, HEAD.len())
    );
    let blank = format!("{HEAD}\n");
    assert_eq!(
        parse(blank.as_bytes()),
        fault(ErrorKind::TrailingData, Construct::Delimiter, HEAD.len())
    );
}

#[test]
fn separator_with_more_on_its_line_opens_no_block() {
    let text = format!("{HEAD}#------------\nsnapshot=0\n");
    assert_eq!(
        parse(text.as_bytes()),
        fault(ErrorKind::TrailingData, Construct::Delimiter, HEAD.len())
    );
    let unterminated = format!("{HEAD}#-----------");
    assert_eq!(
        parse(unterminated.as_bytes()),
        fault(ErrorKind::TrailingData, Construct::Delimiter, HEAD.len())
    );
}

#[test]
fn each_header_line_is_required_in_its_place() {
    assert_eq!(parse(b""), fault(ErrorKind::MalformedInput, Construct::Description, 0));
    assert_eq!(
        parse(b"cmd: foo\ndesc: x\ntime_unit: i\n"),
        fault(ErrorKind::MalformedInput, Construct::Description, 0)
    );
    assert_eq!(
        parse(b"desc: x\ntime_unit: i\ncmd: foo\n"),
        fault(ErrorKind::MalformedInput, Construct::Command, 8)
    );
    assert_eq!(
        parse(b"desc: x\ncmd: foo\n"),
        fault(ErrorKind::MalformedInput, Construct::TimeUnit, 17)
    );
    assert_eq!(
        parse(b"desc: x\ncmd: foo\ntime_unit: i"),
        fault(ErrorKind::MalformedInput, Construct::TimeUnit, 17)
    );
    assert_eq!(
        parse(b"desc:x\ncmd: foo\ntime_unit: i\n"),
        fault(ErrorKind::MalformedInput, Construct::Description, 0)
    );
}

#[test]
fn each_block_line_is_required_in_its_place() {
    let lines = [
        ("snapshot=0\n", Construct::SnapshotIndex),
        (SEP, Construct::Delimiter),
        ("time=1\n", Construct::Time),
        ("mem_heap_B=2\n", Construct::HeapBytes),
        ("mem_heap_extra_B=3\n", Construct::HeapExtraBytes),
        ("mem_stacks_B=4\n", Construct::StackBytes),
        ("heap_tree=empty\n", Construct::TreeKind),
    ];
    for missing in 0..lines.len() {
        let mut text = format!("{HEAD}{SEP}");
        let mut offset = text.len();
        for (i, (line, _)) in lines.iter().enumerate() {
            if i == missing {
                offset = text.len();
            } else {
                text.push_str(line);
            }
        }
        if missing == lines.len() - 1 {
            offset = text.len();
        }
        assert_eq!(
            parse(text.as_bytes()),
            fault(ErrorKind::MalformedInput, lines[missing].1, offset),
            "without {:?}",
            lines[missing].0
        );
    }
}

#[test]
fn numbers_that_do_not_parse_are_malformed_input() {
    let cases = [
        ("snapshot=abc\n", "", Construct::SnapshotIndex),
        ("snapshot=4294967296\n", "", Construct::SnapshotIndex),
        ("snapshot=-1\n", "", Construct::SnapshotIndex),
        ("snapshot=\n", "", Construct::SnapshotIndex),
        ("snapshot= 1\n", "", Construct::SnapshotIndex),
    ];
    for (line, _, what) in cases {
        let text = format!("{HEAD}{SEP}{line}{SEP}");
        assert_eq!(
            parse(text.as_bytes()),
            fault(ErrorKind::MalformedInput, what, HEAD.len() + SEP.len()),
            "line {line:?}"
        );
    }
    let open = format!("{SEP}snapshot=0\n{SEP}");
    let text = format!("{HEAD}{open}time=18446744073709551616\n");
    assert_eq!(
        parse(text.as_bytes()),
        fault(ErrorKind::MalformedInput, Construct::Time, HEAD.len() + open.len())
    );
    let text = format!("{HEAD}{open}time=1\nmem_heap_B=1.5\n");
    assert_eq!(
        parse(text.as_bytes()),
        fault(ErrorKind::MalformedInput, Construct::HeapBytes, HEAD.len() + open.len() + 7)
    );
}

#[test]
fn numbers_take_the_full_range_of_their_type() {
    let text = format!(
        "{HEAD}{}",
        block(u32::MAX, u64::MAX, u32::MAX, u32::MAX, u32::MAX, "peak")
    );
    let output = parse(text.as_bytes()).unwrap();
    assert_eq!(
        output.snapshots,
        vec![record(u32::MAX, u64::MAX, u32::MAX, u32::MAX, u32::MAX, TreeKind::Peak)]
    );
}

#[test]
fn fault_in_a_later_block_fails_the_whole_document() {
    let good = block(0, 1, 2, 3, 4, "empty");
    let text = format!("{HEAD}{good}{SEP}snapshot=1\n{SEP}time=soon\n");
    assert_eq!(
        parse(text.as_bytes()),
        fault(
            ErrorKind::MalformedInput,
            Construct::Time,
            HEAD.len() + good.len() + 2 * SEP.len() + "snapshot=1\n".len()
        )
    );
}

#[test]
fn carriage_return_line_feed_ends_a_line() {
    let text = "desc: d\r\ncmd: c\r\ntime_unit: ms\r\n#-----------\r\nsnapshot=3\r\n#-----------\r\ntime=9\r\nmem_heap_B=8\r\nmem_heap_extra_B=7\r\nmem_stacks_B=6\r\nheap_tree=peak\r\n";
    let output = parse(text.as_bytes()).unwrap();
    assert_eq!(output.header.description(), Some(&b"d"[..]));
    assert_eq!(output.header.command(), b"c");
    assert_eq!(output.header.time_unit(), b"ms");
    assert_eq!(output.snapshots, vec![record(3, 9, 8, 7, 6, TreeKind::Peak)]);
}

#[test]
fn lone_carriage_return_ends_no_line() {
    assert_eq!(
        parse(b"desc: a\rb\ncmd: c\ntime_unit: i\n"),
        fault(ErrorKind::MalformedInput, Construct::Description, 0)
    );
}

#[test]
fn default_models_are_empty() {
    let header = Header::default();
    assert_eq!(header.description(), None);
    assert_eq!(header.command(), b"");
    assert_eq!(header.time_unit(), b"");
    let output = Output::default();
    assert_eq!(output.header, header);
    assert!(output.snapshots.is_empty());
}

#[test]
fn fault_offset_leads_to_its_line() {
    let detail = "n1: a\n n0: b\n";
    let text = format!(
        "{HEAD}{}{detail}{SEP}snapshot=1\n{SEP}time=1\nmem_heap_B=many\n",
        block(0, 1, 2, 3, 4, "detailed")
    );
    let error = parse(text.as_bytes()).unwrap_err();
    assert_eq!(error.kind, ErrorKind::MalformedInput);
    assert_eq!(error.expected, Construct::HeapBytes);
    assert_eq!(&text[error.offset..], "mem_heap_B=many\n");
    assert_eq!(lines_before(text.as_bytes(), error.offset), 3 + 8 + 2 + 4);
}

#[test]
fn canonical_document_reads_back_as_its_model() {
    let records = vec![
        record(0, 0, 0, 0, 0, TreeKind::Empty),
        record(7, 1_000_000, 4096, 64, 128, TreeKind::Detailed),
        record(3, 18_446_744_073_709_551_615, 4_294_967_295, 1, 10, TreeKind::Peak),
        record(1000, 99, 100, 101, 102, TreeKind::Empty),
    ];
    for description in [None, Some("a run"), Some(""), Some("(none) "), Some("desc: x")] {
        for count in 0..=records.len() {
            let mut text = format!(
                "desc: {}\ncmd: ./prog --flag\ntime_unit: B\n",
                description.unwrap_or("(none)")
            );
            for r in &records[..count] {
                let tree = match r.heap_tree {
                    TreeKind::Empty => "empty",
                    TreeKind::Detailed => "detailed",
                    TreeKind::Peak => "peak",
                };
                text.push_str(&block(r.num, r.time, r.mem_heap, r.mem_heap_extra, r.mem_stacks, tree));
            }
            let output = parse(text.as_bytes()).unwrap();
            assert_eq!(output.header.description(), description.map(str::as_bytes));
            assert_eq!(output.header.command(), b"./prog --flag");
            assert_eq!(output.header.time_unit(), b"B");
            assert_eq!(output.snapshots, records[..count]);
        }
    }
}

#[test]
fn header_texts_keep_their_bytes() {
    let output = parse("desc: Größe 测试\ncmd: ./prög\t--x\u{0}y\ntime_unit: µs\n".as_bytes()).unwrap();
    assert_eq!(output.header.description(), Some("Größe 测试".as_bytes()));
    assert_eq!(output.header.command(), "./prög\t--x\u{0}y".as_bytes());
    assert_eq!(output.header.time_unit(), "µs".as_bytes());
    let raw = parse(b"desc: \xff\xfe\ncmd: \x80\ntime_unit: \xc3\n").unwrap();
    assert_eq!(raw.header.description(), Some(&b"\xff\xfe"[..]));
    assert_eq!(raw.header.command(), b"\x80");
    assert_eq!(raw.header.time_unit(), b"\xc3");
}

#[test]
fn separator_inside_the_detail_ends_the_detail() {
    let first = block(0, 1, 2, 3, 4, "detailed");
    let text = format!("{HEAD}{first} n0: x#-----------y\n{}", block(1, 5, 6, 7, 8, "empty"));
    assert_eq!(
        parse(text.as_bytes()),
        fault(
            ErrorKind::TrailingData,
            Construct::Delimiter,
            HEAD.len() + first.len() + " n0: x".len()
        )
    );
}
