use colcut::cut::cut_text;
use colcut::options::{parse_options, resolve_options, CLIOption, InvalidFieldSpec};
use colcut::table::TableError;

fn args(v: &[&str]) -> Vec<String> {
    v.iter().map(|s| s.to_string()).collect()
}

#[test]
fn end_to_end_tab_scenario() {
    let out = cut_text("f0\tf1\tf2\n1\t2\t3\n4\t5\t6".to_string(), &"\t".to_string(), &vec![2]);
    assert_eq!(out, Ok("f1\n2\n5".to_string()));
}

#[test]
fn custom_delimiter_scenario() {
    let out = cut_text("a,b,c\n1,2,3".to_string(), &",".to_string(), &vec![1, 3]);
    assert_eq!(out, Ok("a,c\n1,3".to_string()));
}

#[test]
fn cut_reports_errors() {
    assert_eq!(cut_text(String::new(), &",".to_string(), &vec![1]), Err(TableError::EmptyInput));
    assert_eq!(
        cut_text("a,b".to_string(), &",".to_string(), &vec![3]),
        Err(TableError::IndexOutOfRange { index: 2, width: 2 })
    );
    assert_eq!(
        cut_text("a,b\n1".to_string(), &",".to_string(), &vec![2]),
        Err(TableError::RowWidth { row: 0, index: 1 })
    );
}

#[test]
fn options_read_fields_delimiter_and_file() {
    let opts = parse_options(&args(&["-f1,3", "-d;", "data.tsv", "-x"])).unwrap();
    assert_eq!(
        opts,
        vec![
            CLIOption::Fields(vec![1, 3]),
            CLIOption::Delimiter(";".to_string()),
            CLIOption::File("data.tsv".to_string()),
        ]
    );
}

#[test]
fn options_space_separated_field_list() {
    let opts = parse_options(&args(&["-f2 1 +4"])).unwrap();
    assert_eq!(opts, vec![CLIOption::Fields(vec![2, 1, 4])]);
}

#[test]
fn options_comma_wins_over_space() {
    let r = parse_options(&args(&["-f1, 2"]));
    assert_eq!(r, Err(InvalidFieldSpec { token: " 2".to_string() }));
}

#[test]
fn options_reject_bad_field_tokens() {
    assert_eq!(
        parse_options(&args(&["-f1,x,y"])),
        Err(InvalidFieldSpec { token: "x".to_string() })
    );
    assert_eq!(parse_options(&args(&["-f0"])), Err(InvalidFieldSpec { token: "0".to_string() }));
    assert_eq!(
        parse_options(&args(&["-f4294967296"])),
        Err(InvalidFieldSpec { token: "4294967296".to_string() })
    );
    assert_eq!(parse_options(&args(&["-f"])), Err(InvalidFieldSpec { token: String::new() }));
    assert_eq!(parse_options(&args(&["-f-1"])), Err(InvalidFieldSpec { token: "-1".to_string() }));
}

#[test]
fn options_largest_field_number() {
    let opts = parse_options(&args(&["-f4294967295"])).unwrap();
    assert_eq!(opts, vec![CLIOption::Fields(vec![4294967295])]);
}

#[test]
fn resolve_defaults() {
    let c = resolve_options(&vec![]);
    assert_eq!(c.file, None);
    assert!(c.fields.is_empty());
    assert_eq!(c.delimiter, "\t");
}

#[test]
fn resolve_last_option_wins() {
    let opts = vec![
        CLIOption::Fields(vec![1]),
        CLIOption::File("a".to_string()),
        CLIOption::Delimiter(",".to_string()),
        CLIOption::Fields(vec![3, 2]),
        CLIOption::File("b".to_string()),
    ];
    let c = resolve_options(&opts);
    assert_eq!(c.file, Some("b".to_string()));
    assert_eq!(c.fields, vec![3, 2]);
    assert_eq!(c.delimiter, ",");
}
