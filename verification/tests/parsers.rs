use srp::cli::{ElementFilter, ElementFilterOp, ElementSort, Verbosity, CLI};
use srp::element::Format;
use srp::output_writer::{OutputTarget, OutputWriter};
use srp::timefmt::convert_time;

fn st(x: &str) -> String {
    x.into()
}

#[test]
fn test_cli_parse_url() {
    assert_eq!(
        CLI::parse_url(st("https://reddit.com/r/asd")),
        Some((
            st("https://reddit.com/r/asd.json"),
            st("https://reddit.com/r/asd/")
        ))
    );
    assert_eq!(
        CLI::parse_url(st("https://reddit.com/r/asd/?foo&bar:443")),
        Some((
            st("https://reddit.com/r/asd.json"),
            st("https://reddit.com/r/asd/")
        ))
    );
    assert_eq!(
        CLI::parse_url(st("https://reddit.com/r/asd:443")),
        Some((
            st("https://reddit.com/r/asd.json"),
            st("https://reddit.com/r/asd/")
        ))
    );
    assert_eq!(
        CLI::parse_url(st("https://reddit.com/r/:443")),
        Some((st("https://reddit.com/r.json"), st("https://reddit.com/r/")))
    );
    assert_eq!(
        CLI::parse_url(st("https://reddit.com/r/\n\n\n ")),
        Some((st("https://reddit.com/r.json"), st("https://reddit.com/r/")))
    );
    assert_eq!(
        CLI::parse_url(st("\nhttps://reddit.com/r/\n\n\n ")),
        Some((st("https://reddit.com/r.json"), st("https://reddit.com/r/")))
    );
    assert_eq!(
        CLI::parse_url(st("\nhttps://reddit.com/r//foo\n")),
        Some((
            st("https://reddit.com/r//foo.json"),
            st("https://reddit.com/r//foo/")
        ))
    );
}

#[test]
fn parse_url_rejects_foreign_addresses() {
    assert_eq!(CLI::parse_url(st("https://example.com/x")), None);
    assert_eq!(CLI::parse_url(st("")), None);
}

#[test]
fn test_cli_parse_sort_style() {
    assert_eq!(CLI::parse_sort_style("default"), ElementSort::Default);
    assert_eq!(CLI::parse_sort_style("rand"), ElementSort::Rand);
    assert_eq!(CLI::parse_sort_style("random"), ElementSort::Rand);
    assert_eq!(CLI::parse_sort_style("upvotes"), ElementSort::Upvotes(false));
    assert_eq!(CLI::parse_sort_style("ups"), ElementSort::Upvotes(false));
    assert_eq!(
        CLI::parse_sort_style("upvotes-asc"),
        ElementSort::Upvotes(true)
    );
    assert_eq!(CLI::parse_sort_style("ups-asc"), ElementSort::Upvotes(true));
    assert_eq!(
        CLI::parse_sort_style("comments"),
        ElementSort::Comments(false)
    );
    assert_eq!(
        CLI::parse_sort_style("comments-asc"),
        ElementSort::Comments(true)
    );
    assert_eq!(CLI::parse_sort_style("new"), ElementSort::Date(false));
    assert_eq!(CLI::parse_sort_style("old"), ElementSort::Date(true));
    assert_eq!(
        CLI::parse_sort_style("edited"),
        ElementSort::EditedDate(false)
    );
    assert_eq!(
        CLI::parse_sort_style("edited-asc"),
        ElementSort::EditedDate(true)
    );
    assert_eq!(CLI::parse_sort_style("DefaulT"), ElementSort::Default);
    assert_eq!(
        CLI::parse_sort_style("Edited "),
        ElementSort::EditedDate(false)
    );
    assert_eq!(
        CLI::parse_sort_style("     eDiTeD"),
        ElementSort::EditedDate(false)
    );
    assert_eq!(
        CLI::parse_sort_style("eDiTeD-asC"),
        ElementSort::EditedDate(true)
    );
    assert_eq!(CLI::parse_sort_style("Edi   ted   "), ElementSort::Default);
    assert_eq!(CLI::parse_sort_style("asd"), ElementSort::Default);
    assert_eq!(CLI::parse_sort_style("     "), ElementSort::Default);
    assert_eq!(CLI::parse_sort_style("\n"), ElementSort::Default);
    assert_eq!(CLI::parse_sort_style(""), ElementSort::Default);
}

#[test]
fn test_cli_parse_format() {
    assert_eq!(
        CLI::parse_format("default"),
        Some((Format::Default, st("output.txt")))
    );
    assert_eq!(
        CLI::parse_format("d"),
        Some((Format::Default, st("output.txt")))
    );
    assert_eq!(
        CLI::parse_format("html"),
        Some((Format::HTML, st("output.html")))
    );
    assert_eq!(
        CLI::parse_format("h"),
        Some((Format::HTML, st("output.html")))
    );
    assert_eq!(
        CLI::parse_format("json"),
        Some((Format::JSON, st("output.json")))
    );
    assert_eq!(
        CLI::parse_format("j"),
        Some((Format::JSON, st("output.json")))
    );
    assert_eq!(
        CLI::parse_format("J"),
        Some((Format::JSON, st("output.json")))
    );
    assert_eq!(
        CLI::parse_format("HtMl"),
        Some((Format::HTML, st("output.html")))
    );
    assert_eq!(CLI::parse_format("plain"), None);
}

#[test]
fn test_cli_parse_filter_style() {
    assert_eq!(
        CLI::parse_filter_style(&st("edited"), Some(&st("true")), None).unwrap(),
        (0, ElementFilter::Edited(true))
    );
    assert_eq!(
        CLI::parse_filter_style(&st("edited"), Some(&st("false")), None).unwrap(),
        (0, ElementFilter::Edited(false))
    );
    assert_eq!(
        CLI::parse_filter_style(&st("author"), Some(&st("==")), Some(&st("test"))).unwrap(),
        (0, ElementFilter::Author(ElementFilterOp::EqString(st("test"))))
    );
    assert_eq!(
        CLI::parse_filter_style(&st("author"), Some(&st("!=")), Some(&st("test"))).unwrap(),
        (
            0,
            ElementFilter::Author(ElementFilterOp::NotEqString(st("test")))
        )
    );
    assert_eq!(
        CLI::parse_filter_style(&st("comments"), Some(&st("==")), Some(&st("123"))).unwrap(),
        (2, ElementFilter::Comments(ElementFilterOp::Eq(123)))
    );
    assert_eq!(
        CLI::parse_filter_style(&st("comments"), Some(&st("!=")), Some(&st("123"))).unwrap(),
        (2, ElementFilter::Comments(ElementFilterOp::NotEq(123)))
    );
    assert_eq!(
        CLI::parse_filter_style(&st("comments"), Some(&st(">")), Some(&st("123"))).unwrap(),
        (2, ElementFilter::Comments(ElementFilterOp::Grater(123)))
    );
    assert_eq!(
        CLI::parse_filter_style(&st("comments"), Some(&st("<")), Some(&st("123"))).unwrap(),
        (2, ElementFilter::Comments(ElementFilterOp::Less(123)))
    );
    assert_eq!(
        CLI::parse_filter_style(&st("comments"), Some(&st(">=")), Some(&st("123"))).unwrap(),
        (2, ElementFilter::Comments(ElementFilterOp::GraterEq(123)))
    );
    assert_eq!(
        CLI::parse_filter_style(&st("comments"), Some(&st("<=")), Some(&st("123"))).unwrap(),
        (2, ElementFilter::Comments(ElementFilterOp::LessEq(123)))
    );
    assert_eq!(
        CLI::parse_filter_style(&st("ups"), Some(&st("==")), Some(&st("123"))).unwrap(),
        (2, ElementFilter::Upvotes(ElementFilterOp::Eq(123)))
    );
    assert_eq!(
        CLI::parse_filter_style(&st("upvotes"), Some(&st("!=")), Some(&st("123"))).unwrap(),
        (2, ElementFilter::Upvotes(ElementFilterOp::NotEq(123)))
    );
    assert_eq!(
        CLI::parse_filter_style(&st("ups"), Some(&st(">")), Some(&st("123"))).unwrap(),
        (2, ElementFilter::Upvotes(ElementFilterOp::Grater(123)))
    );
    assert_eq!(
        CLI::parse_filter_style(&st("upvotes"), Some(&st("<")), Some(&st("123"))).unwrap(),
        (2, ElementFilter::Upvotes(ElementFilterOp::Less(123)))
    );
    assert_eq!(
        CLI::parse_filter_style(&st("ups"), Some(&st(">=")), Some(&st("123"))).unwrap(),
        (2, ElementFilter::Upvotes(ElementFilterOp::GraterEq(123)))
    );
    assert_eq!(
        CLI::parse_filter_style(&st("upvotes"), Some(&st("<=")), Some(&st("123"))).unwrap(),
        (2, ElementFilter::Upvotes(ElementFilterOp::LessEq(123)))
    );
    assert_eq!(
        CLI::parse_filter_style(&st("UpVoteS    "), Some(&st("<=")), Some(&st("123"))).unwrap(),
        (2, ElementFilter::Upvotes(ElementFilterOp::LessEq(123)))
    );
    assert_eq!(
        CLI::parse_filter_style(&st(" \n\n\n\n\t\rEdItEd\n\n\n\n\n\t\r"), Some(&st("true")), None)
            .unwrap(),
        (0, ElementFilter::Edited(true))
    );
    assert_eq!(
        CLI::parse_filter_style(&st("EDITED"), Some(&st("TruE")), None).unwrap(),
        (0, ElementFilter::Edited(true))
    );
    assert_eq!(
        CLI::parse_filter_style(&st("EDITED"), Some(&st("FAlSe")), None).unwrap(),
        (0, ElementFilter::Edited(false))
    );
    assert_eq!(
        CLI::parse_filter_style(&st("asd"), None, None).unwrap(),
        (0, ElementFilter::Default)
    );
    assert_eq!(
        CLI::parse_filter_style(&st("E dited"), None, None).unwrap(),
        (0, ElementFilter::Default)
    );
    assert_eq!(
        CLI::parse_filter_style(&st("ups"), Some(&st(">")), None),
        Err(st("Failed to get filter style value"))
    );
    assert_eq!(
        CLI::parse_filter_style(&st("ups"), None, Some(&st("3"))),
        Err(st("Failed to get filter style operator"))
    );
    assert_eq!(
        CLI::parse_filter_style(&st("edited"), None, None),
        Err(st("Failed to get filter style operator"))
    );
    // A number that does not parse falls back to no filtering.
    assert_eq!(
        CLI::parse_filter_style(&st("ups"), Some(&st(">")), Some(&st("many"))).unwrap(),
        (2, ElementFilter::Default)
    );
}

#[test]
fn test_utils_convert_time() {
    assert_eq!(convert_time(-10000), st("<0.00s"));
    assert_eq!(convert_time(0), st("<0.00s"));
    assert_eq!(convert_time(99), st("0.99s"));
    assert_eq!(convert_time(100), st("1.00s"));
    assert_eq!(convert_time(1000), st("10.00s"));
    assert_eq!(convert_time(7113), st("1min 11.13s"));
    assert_eq!(convert_time(10011), st("1min 40.11s"));
    assert_eq!(convert_time(367100), st("1h 1min 11.00s"));
    assert_eq!(convert_time(3671000), st("10h 11min 50.00s"));
    assert_eq!(convert_time(100000000), st("277h 46min 40.00s"));
    assert_eq!(convert_time(100000079), st("277h 46min 40.79s"));
}

fn quiet_cli(verbosity: Verbosity) -> CLI {
    CLI {
        url: st("https://reddit.com/r/asd.json"),
        base_url: st("https://reddit.com/r/asd/"),
        save_to_file: false,
        save_path: st("output.txt"),
        max_comments: usize::MAX,
        sort_style: ElementSort::Default,
        filter: ElementFilter::Default,
        save_tmp_files: false,
        verbosity,
        req_more_elements: true,
        delete_tmp: false,
    }
}

#[test]
fn info_lines_follow_verbosity() {
    let high = quiet_cli(Verbosity::High);
    let moderate = quiet_cli(Verbosity::Moderate);
    let low = quiet_cli(Verbosity::Low);
    assert_eq!(high.print_info(st("a")), Some(st("a")));
    assert_eq!(moderate.print_info(st("a")), None);
    assert_eq!(low.print_info(st("a")), None);
    assert_eq!(high.print_infom(st("b")), Some(st("b")));
    assert_eq!(moderate.print_infom(st("b")), Some(st("b")));
    assert_eq!(low.print_infom(st("b")), None);
    assert_eq!(CLI::print_infol(st("c")), st("c"));
}

#[test]
fn output_writer_hands_back_content() {
    let mut ow = OutputWriter::new();
    ow.content += "hello";
    let ow = ow.set_output(OutputTarget::File(st("out.txt")));
    let (target, content) = ow.write();
    assert_eq!(content, st("hello"));
    match target {
        OutputTarget::File(p) => assert_eq!(p, st("out.txt")),
        OutputTarget::Stdout => panic!("wrong sink"),
    }
}
