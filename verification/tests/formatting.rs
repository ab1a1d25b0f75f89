use velari::format::format_source;

#[test]
fn formatter_indents_nested_blocks() {
    let source = "begin\nprint 1\nif true then\nprint 2\nend\nend\n";
    assert_eq!(
        format_source(source),
        "begin\n    print 1\n    if true then\n        print 2\n    end\nend\n"
    );
}

#[test]
fn formatter_reports_unformatted_source() {
    let source = "begin\nprint 1\nend\n";
    assert_ne!(format_source(source), source);
    assert_eq!(format_source(source), "begin\n    print 1\nend\n");
}

#[test]
fn formatter_keeps_formatted_source() {
    let source = "begin\n    print 1\n    if true then\n        print 2\n    end\nend\n";
    assert_eq!(format_source(source), source);
}

#[test]
fn formatter_otherwise_closes_and_opens() {
    let source = "begin\nif x then\nprint 1\notherwise\nprint 2\nend\nend";
    assert_eq!(
        format_source(source),
        "begin\n    if x then\n        print 1\n    otherwise\n        print 2\n    end\nend\n"
    );
}

#[test]
fn formatter_collapses_blank_lines_and_trims() {
    let source = "\n\n  begin  \n\n\n   print 1\t\n\n end\n\n";
    assert_eq!(format_source(source), "begin\n\n    print 1\n\nend\n\n");
}

#[test]
fn formatter_never_indents_below_zero() {
    assert_eq!(format_source("end\nend\nprint 1"), "end\nend\nprint 1\n");
}

#[test]
fn formatter_blank_input_gives_one_newline() {
    assert_eq!(format_source(""), "\n");
    assert_eq!(format_source("  \n\t\n"), "\n");
}

#[test]
fn formatter_handles_carriage_returns() {
    assert_eq!(format_source("begin\r\nprint 1\r\nend\r\n"), "begin\n    print 1\nend\n");
}

#[test]
fn formatter_first_word_decides_indentation() {
    assert_eq!(
        format_source("begin\nrepeat 3 times\nprint endless\nend\nfunction f()\nreturn 1\nend\nend"),
        "begin\n    repeat 3 times\n        print endless\n    end\n    function f()\n        return 1\n    end\nend\n"
    );
}

#[test]
fn formatting_twice_changes_nothing() {
    let inputs = [
        "begin\nprint 1\nif true then\nprint 2\nend\nend\n",
        "\n\n  begin  \n\n\n   print 1\t\n\n end\n\n",
        "end\n otherwise\n\n\nrepeat\n",
        "",
        "   \n",
        "begin\r\n\r\nprint 1\r\nend",
    ];
    for input in inputs {
        let once = format_source(input);
        assert_eq!(format_source(&once), once);
    }
}
