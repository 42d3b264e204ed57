use novum::ledger::{
    all_whitespace, is_complete, parse_ledger, render_ledger, select_next, Record, Selection,
};
use novum::text::chars_of;

fn record(name: &str, status: &str) -> Record {
    Record { name: name.to_string(), status: status.to_string() }
}

fn names(list: &[&str]) -> Vec<String> {
    list.iter().map(|name| name.to_string()).collect()
}

#[test]
fn render_ledger_writes_one_line_for_each_module() {
    assert_eq!(render_ledger(&names(&["m1", "m2", "m3"])), "m1 0\nm2 0\nm3 0\n");
    assert_eq!(render_ledger(&names(&["1_intro"])), "1_intro 0\n");
    assert_eq!(render_ledger(&Vec::new()), "");
}

#[test]
fn ledger_round_trip() {
    let text = render_ledger(&names(&["m1", "m2", "m3"]));
    assert_eq!(parse_ledger(&text), vec![record("m1", "0"), record("m2", "0"), record("m3", "0")]);
}

#[test]
fn ledger_round_trip_keeps_the_order_given() {
    let modules = names(&["10_y", "2_x", "b", "a", "1_z"]);
    let read = parse_ledger(&render_ledger(&modules));
    assert_eq!(read.len(), 5);
    for (i, module) in modules.iter().enumerate() {
        assert_eq!(read[i].name, *module);
        assert_eq!(read[i].status, "0");
        assert!(read[i].is_incomplete());
    }
}

#[test]
fn a_name_with_white_space_does_not_read_back() {
    let text = render_ledger(&names(&["my module", "ok"]));
    assert_eq!(text, "my module 0\nok 0\n");
    assert_eq!(parse_ledger(&text), vec![record("ok", "0")]);
}

#[test]
fn parse_ledger_passes_over_lines_that_are_not_records() {
    let text = "a 1\n\nonly\nthree words here\n  b   0  \n# a note\nc 1 extra\nd\t1";
    assert_eq!(parse_ledger(text), vec![record("a", "1"), record("b", "0"), record("d", "1")]);
}

#[test]
fn parse_ledger_takes_any_status_word() {
    assert_eq!(parse_ledger("a x\nb 00\n"), vec![record("a", "x"), record("b", "00")]);
    assert!(!record("a", "x").is_incomplete());
    assert!(!record("b", "00").is_incomplete());
    assert!(!record("b", "1").is_incomplete());
    assert!(record("b", "0").is_incomplete());
}

#[test]
fn parse_ledger_reads_lines_that_end_in_carriage_return() {
    assert_eq!(parse_ledger("a 1\r\nb 0\r\n"), vec![record("a", "1"), record("b", "0")]);
}

#[test]
fn parse_ledger_of_nothing() {
    assert_eq!(parse_ledger(""), Vec::<Record>::new());
    assert_eq!(parse_ledger("\n\n\n"), Vec::<Record>::new());
    assert_eq!(parse_ledger("   \n\t"), Vec::<Record>::new());
}

#[test]
fn parse_ledger_agrees_with_the_standard_library() {
    let samples = [
        "a 1\nb 0\nc 0",
        "a 1\r\nb 0\r\n\r\n",
        "x\u{A0}0\ny 1 z\n\n q\t0 ",
        "1_intro 0\n",
        "\n\n",
        "a 0\n\u{3000}\nb 1",
    ];
    for sample in samples {
        let mut expected = Vec::new();
        for line in sample.lines() {
            let parts: Vec<&str> = line.split_whitespace().collect();
            if parts.len() == 2 {
                expected.push(record(parts[0], parts[1]));
            }
        }
        assert_eq!(parse_ledger(sample), expected, "{:?}", sample);
    }
}

#[test]
fn is_complete_is_false_with_any_record_still_to_do() {
    assert!(!is_complete("a 0"));
    assert!(!is_complete("a 1\nb 1\nc 0\n"));
    assert!(!is_complete("a 0\nb 1\n"));
    assert!(!is_complete("junk\n\na 0\n"));
}

#[test]
fn is_complete_is_true_when_every_record_is_done() {
    assert!(is_complete("a 1\n"));
    assert!(is_complete("a 1\nb 1\nc 1"));
    assert!(is_complete("a 1\nnot a record 0\n"));
    assert!(is_complete("a done\n"));
}

#[test]
fn empty_ledger_is_complete_but_has_no_modules() {
    assert!(is_complete(""));
    assert_eq!(select_next(""), Selection::NoModules);
    assert!(is_complete(" \n\t\n"));
    assert_eq!(select_next(" \n\t\n"), Selection::NoModules);
}

#[test]
fn select_next_takes_the_first_incomplete_in_file_order() {
    assert_eq!(select_next("a 1\nb 0\nc 0"), Selection::Module("b".to_string()));
    assert_eq!(select_next("z 0\na 0\n"), Selection::Module("z".to_string()));
    assert_eq!(select_next("10_y 1\n2_x 0\n1_z 0\n"), Selection::Module("2_x".to_string()));
}

#[test]
fn select_next_all_complete_is_not_no_modules() {
    assert_eq!(select_next("a 1\nb 1\n"), Selection::AllComplete);
    assert_eq!(select_next("1_intro 1"), Selection::AllComplete);
    assert_ne!(select_next("a 1\nb 1\n"), select_next(""));
}

#[test]
fn select_next_of_content_without_records() {
    assert_eq!(select_next("no record here at all"), Selection::AllComplete);
    assert_eq!(select_next("a 0 extra\n"), Selection::AllComplete);
}

#[test]
fn select_next_twice_gives_the_same_answer() {
    for ledger in ["", "a 1\nb 0\nc 0", "a 1\nb 1", "   ", "x\ny 0"] {
        let first = select_next(ledger);
        let second = select_next(ledger);
        assert_eq!(first, second);
    }
}

#[test]
fn select_next_sees_a_rewritten_ledger() {
    assert_eq!(select_next("a 0\nb 0\n"), Selection::Module("a".to_string()));
    assert_eq!(select_next("a 1\nb 0\n"), Selection::Module("b".to_string()));
    assert_eq!(select_next("a 1\nb 1\n"), Selection::AllComplete);
}

#[test]
fn completeness_and_selection_agree() {
    for ledger in ["", "a 0", "a 1", "a 1\nb 0", "junk", " \n ", "a 1\r\nb 1\r\n"] {
        let selected = matches!(select_next(ledger), Selection::Module(_));
        assert_eq!(is_complete(ledger), !selected, "{:?}", ledger);
    }
}

#[test]
fn all_whitespace_of_texts() {
    assert!(all_whitespace(&chars_of("")));
    assert!(all_whitespace(&chars_of(" \t\r\n\u{3000}")));
    assert!(!all_whitespace(&chars_of("  .  ")));
    for sample in ["", " ", "a", " a ", "\n\n", "\u{A0}\u{85}"] {
        assert_eq!(all_whitespace(&chars_of(sample)), sample.trim().is_empty());
    }
}
