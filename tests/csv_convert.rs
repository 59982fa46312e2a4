use rcli::convert_csv;
use rcli::parse_format;
use rcli::parse_table;
use rcli::render;
use rcli::ConvertError;
use rcli::CsvOpts;
use rcli::OutputFormat;

fn chars(s: &str) -> Vec<char> {
    s.chars().collect()
}

fn text(v: &[char]) -> String {
    v.iter().collect()
}

fn texts(v: &[Vec<char>]) -> Vec<String> {
    v.iter().map(|c| text(c)).collect()
}

#[test]
fn people_to_json() {
    let out = convert_csv(&chars("name,age\nAlice,30\nBob,25\n"), ',', true, OutputFormat::Json)
        .unwrap();
    let expected = "[\n  {\n    \"name\": \"Alice\",\n    \"age\": \"30\"\n  },\n  {\n    \"name\": \"Bob\",\n    \"age\": \"25\"\n  }\n]";
    assert_eq!(text(&out), expected);
}

#[test]
fn people_to_yaml() {
    let out = convert_csv(&chars("name,age\nAlice,30\nBob,25\n"), ',', true, OutputFormat::Yaml)
        .unwrap();
    let expected = "- \"name\": \"Alice\"\n  \"age\": \"30\"\n- \"name\": \"Bob\"\n  \"age\": \"25\"\n";
    assert_eq!(text(&out), expected);
}

#[test]
fn header_names_ignore_data_rows() {
    let a = parse_table(&chars("id;label\n1;x\n2;y\n"), ';', true).unwrap();
    let b = parse_table(&chars("id;label\nfoo;bar\n"), ';', true).unwrap();
    assert_eq!(texts(&a.fields), vec!["id", "label"]);
    assert_eq!(texts(&b.fields), vec!["id", "label"]);
}

#[test]
fn record_count_and_shape() {
    let s = chars("a,b,c\n1,2,3\n4,5,6\n7,8,9");
    let with = parse_table(&s, ',', true).unwrap();
    assert_eq!(with.records.len(), 3);
    let without = parse_table(&s, ',', false).unwrap();
    assert_eq!(without.records.len(), 4);
    assert_eq!(texts(&without.fields), vec!["0", "1", "2"]);
    for r in with.records.iter().chain(without.records.iter()) {
        assert_eq!(r.len(), 3);
    }
    assert_eq!(texts(&without.records[0]), vec!["a", "b", "c"]);
    assert_eq!(texts(&with.records[2]), vec!["7", "8", "9"]);
}

#[test]
fn many_positional_names() {
    let row: Vec<String> = (0..12).map(|i| format!("v{i}")).collect();
    let t = parse_table(&chars(&row.join(",")), ',', false).unwrap();
    assert_eq!(texts(&t.fields)[10], "10");
    assert_eq!(texts(&t.fields)[11], "11");
}

#[test]
fn empty_input_gives_no_records() {
    let t = parse_table(&chars(""), ',', true).unwrap();
    assert!(t.fields.is_empty() && t.records.is_empty());
    assert_eq!(text(&render(&t, OutputFormat::Json)), "[]");
    assert_eq!(text(&render(&t, OutputFormat::Yaml)), "[]\n");
    let h = parse_table(&chars("x,y\n"), ',', true).unwrap();
    assert_eq!(texts(&h.fields), vec!["x", "y"]);
    assert!(h.records.is_empty());
}

#[test]
fn blank_lines_are_skipped_and_cells_kept_literally() {
    let t = parse_table(&chars("k, v\n\n a ,\n"), ',', true).unwrap();
    assert_eq!(texts(&t.fields), vec!["k", " v"]);
    assert_eq!(t.records.len(), 1);
    assert_eq!(texts(&t.records[0]), vec![" a ", ""]);
}

#[test]
fn row_shape_error() {
    let r = parse_table(&chars("a,b\n1,2\n3\n4,5,6\n"), ',', true);
    assert_eq!(r.err(), Some(ConvertError::RowShape { row: 2, expected: 2, found: 1 }));
    let r = convert_csv(&chars("a,b\n1,2,3\n"), ',', false, OutputFormat::Json);
    assert_eq!(r, Err(ConvertError::RowShape { row: 1, expected: 2, found: 3 }));
}

#[test]
fn strings_are_escaped() {
    let out = convert_csv(&chars("q\n\"x\\y\"\ta\u{1}\n"), ',', true, OutputFormat::Json).unwrap();
    let expected = "[\n  {\n    \"q\": \"\\\"x\\\\y\\\"\\ta\\u0001\"\n  }\n]";
    assert_eq!(text(&out), expected);
}

#[test]
fn multibyte_delimiter_character() {
    let t = parse_table(&chars("é§ü\n1§2\n"), '§', true).unwrap();
    assert_eq!(texts(&t.fields), vec!["é", "ü"]);
    assert_eq!(texts(&t.records[0]), vec!["1", "2"]);
}

#[test]
fn output_format_tokens() {
    assert_eq!(parse_format("json"), Ok(OutputFormat::Json));
    assert_eq!(parse_format("yaml"), Ok(OutputFormat::Yaml));
    assert_eq!(parse_format("toml"), Err(ConvertError::InvalidFormat));
    assert_eq!(OutputFormat::Json.as_str(), "json");
    assert_eq!(OutputFormat::Yaml.as_str(), "yaml");
}

#[test]
fn csv_opts_output_path_and_convert() {
    let mut o = CsvOpts {
        input: "in.csv".to_string(),
        output: None,
        format: OutputFormat::Yaml,
        delimiter: '|',
        header: false,
    };
    assert_eq!(o.output_path(), "output.yaml");
    o.format = OutputFormat::Json;
    assert_eq!(o.output_path(), "output.json");
    o.output = Some("dir/out.txt".to_string());
    assert_eq!(o.output_path(), "dir/out.txt");
    let out = o.convert(&chars("x|y\n")).unwrap();
    assert_eq!(text(&out), "[\n  {\n    \"0\": \"x\",\n    \"1\": \"y\"\n  }\n]");
}
