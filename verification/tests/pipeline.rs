//! Loading, expansion and rendering on concrete tables, with the edge cases
//! the design calls out: empty tables, missing directives, malformed globs,
//! comment and quoted sample cells, and zero normalization.

use csv2sfz::annotation::parse_annotation;
use csv2sfz::errors::TableError;
use csv2sfz::expand::{expand_sample_csv, expand_sheet, trim_comment_prefix, trim_pair};
use csv2sfz::expr::apply_expr;
use csv2sfz::sfz::render_sfz;
use csv2sfz::table::parse_sample_csv;

#[test]
fn annotation_forms() {
    assert_eq!(parse_annotation("@raw"), Some(vec!["raw".to_string()]));
    assert_eq!(
        parse_annotation("@sample(path)"),
        Some(vec!["sample".to_string(), "path".to_string()])
    );
    assert_eq!(
        parse_annotation("@x( a , ,b )"),
        Some(vec!["x".to_string(), "a".to_string(), "b".to_string()])
    );
    assert_eq!(parse_annotation("@a()"), Some(vec!["a".to_string()]));
    assert_eq!(parse_annotation("@a(x"), None);
    assert_eq!(parse_annotation("key"), None);
    assert_eq!(parse_annotation("@"), None);
    assert_eq!(parse_annotation("@1a"), None);
}

#[test]
fn comment_and_quote_forms() {
    assert_eq!(trim_comment_prefix("// hello"), Some("hello".to_string()));
    assert_eq!(trim_comment_prefix("////x"), Some("x".to_string()));
    assert_eq!(trim_comment_prefix("/x"), None);
    assert_eq!(trim_pair("\"abc\""), Some("abc"));
    assert_eq!(trim_pair("abc"), None);
    assert_eq!(trim_pair("\""), None);
}

#[test]
fn template_zero_is_normalized() {
    let vars: Vec<(String, String)> = Vec::new();
    let mut cell = "${(0-1)*0}".to_string();
    apply_expr(&mut cell, Some(&vars));
    assert_eq!(cell, "0");
}

#[test]
fn template_without_context_is_untouched() {
    let mut cell = "x=${1+1}".to_string();
    apply_expr(&mut cell, None);
    assert_eq!(cell, "x=${1+1}");
}

#[test]
fn malformed_template_becomes_empty() {
    let vars: Vec<(String, String)> = Vec::new();
    let mut cell = "a${not a var}b${}c".to_string();
    apply_expr(&mut cell, Some(&vars));
    assert_eq!(cell, "ab${}c");
}

#[test]
fn unparsed_variable_value_is_not_bound() {
    let vars = vec![("x".to_string(), "abc".to_string())];
    let mut cell = "${x+1}".to_string();
    apply_expr(&mut cell, Some(&vars));
    assert_eq!(cell, "");
}

#[test]
fn error_messages_name_the_failure() {
    assert_eq!(TableError::MissingDirectiveRow.message(), "missing directive row");
    assert_eq!(TableError::MissingHeader.message(), "missing @header directive");
    assert_eq!(TableError::MalformedGlob.message(), "malformed glob pattern");
}

#[test]
fn template_number_rendering() {
    let vars: Vec<(String, String)> = Vec::new();
    let cases = [
        ("${10^20}", "100000000000000000000"),
        ("${0-2.5}", "-2.5"),
        ("${1/0}", ""),
        ("${2^0.5}", "1.414"),
        ("${1000000}", "1000000"),
        ("${0.00002}", "0.00002"),
    ];
    for (input, expected) in cases {
        let mut cell = input.to_string();
        apply_expr(&mut cell, Some(&vars));
        assert_eq!(cell, expected, "for {input}");
    }
}

#[test]
fn parse_empty_input_is_missing_directive_row() {
    let data: Vec<u8> = Vec::new();
    assert_eq!(parse_sample_csv(&data).err(), Some(TableError::MissingDirectiveRow));
}

#[test]
fn parse_without_header_directive_fails() {
    let data = b"key,@sample(sample)\n1,./a.wav\n".to_vec();
    assert_eq!(parse_sample_csv(&data).err(), Some(TableError::MissingHeader));
}

#[test]
fn malformed_glob_fails_expansion() {
    let data = b"key,@sample(sample),@header\n1,./a[.wav,\n".to_vec();
    let mut table = parse_sample_csv(&data).unwrap();
    let paths = vec!["./a.wav".to_string()];
    let vars: Vec<(String, Vec<(String, String)>)> = Vec::new();
    assert_eq!(
        expand_sample_csv(&mut table, &paths, &vars),
        Err(TableError::MalformedGlob)
    );
}

#[test]
fn empty_sample_cell_passes_sheet_through() {
    let data = b"key,@sample(sample),@header\n60,,\n61,,\n".to_vec();
    let mut table = parse_sample_csv(&data).unwrap();
    let paths = vec!["./a.wav".to_string()];
    let vars: Vec<(String, Vec<(String, String)>)> = Vec::new();
    expand_sample_csv(&mut table, &paths, &vars).unwrap();
    assert_eq!(table.rows.len(), 2);
    assert_eq!(table.rows[0][0], "60");
    assert_eq!(table.rows[1][0], "61");
}

#[test]
fn glob_policy_matches_all_samples() {
    // One templated row over five samples gives five independent rows.
    let rows = vec![vec!["${k}".to_string(), "./path/to/*.wav".to_string()]];
    let paths: Vec<String> = (1..=5).map(|i| format!("./path/to/sample{i}.wav")).collect();
    let vars: Vec<(String, Vec<(String, String)>)> = paths
        .iter()
        .enumerate()
        .map(|(i, p)| (p.clone(), vec![("k".to_string(), (i + 1).to_string())]))
        .collect();
    let sample_idx = 1;
    let out = expand_sheet(&rows, &paths, &vars, Some(&sample_idx)).unwrap();
    assert_eq!(out.len(), 5);
    for (i, p) in paths.iter().enumerate() {
        assert!(out.contains(&vec![(i + 1).to_string(), p.clone()]));
    }
}

#[test]
fn sat_and_vsat_clamp_the_absolute_value() {
    let vars: Vec<(String, String)> = Vec::new();
    let cases = [
        ("${sat(-2)}", "1"),
        ("${sat(-0.25)}", "0.25"),
        ("${sat(0.5)}", "0.5"),
        ("${vsat(-200)}", "127"),
        ("${vsat(-60)}", "60"),
        ("${vsat(60)}", "60"),
    ];
    for (input, expected) in cases {
        let mut cell = input.to_string();
        apply_expr(&mut cell, Some(&vars));
        assert_eq!(cell, expected, "for {input}");
    }
}

#[test]
fn oversized_glob_fails_expansion() {
    let rows = vec![vec!["x".to_string(), "*".repeat(5000)]];
    let paths = vec!["./a.wav".to_string()];
    let vars: Vec<(String, Vec<(String, String)>)> = Vec::new();
    let sample_idx = 1;
    assert_eq!(
        expand_sheet(&rows, &paths, &vars, Some(&sample_idx)),
        Err(TableError::MalformedGlob)
    );
}

#[test]
fn comment_form_without_quotes_recovers_the_pattern() {
    // The comment wrapper alone is stripped to recover the glob; the
    // matched path is asserted but not re-emitted.
    let rows = vec![vec!["${k}".to_string(), "// ./s/*.wav".to_string()]];
    let paths = vec!["./s/one.wav".to_string()];
    let vars = vec![("./s/one.wav".to_string(), vec![("k".to_string(), "7".to_string())])];
    let sample_idx = 1;
    let out = expand_sheet(&rows, &paths, &vars, Some(&sample_idx)).unwrap();
    assert_eq!(out, vec![vec!["7".to_string(), "".to_string()]]);
}

#[test]
fn comment_form_clears_the_path_cell() {
    // The first row's sample cell is a commented, quoted glob: the matched
    // path is asserted but not re-emitted.
    let rows = vec![vec!["${k}".to_string(), "//\"./s/*.wav\"".to_string()]];
    let paths = vec!["./s/one.wav".to_string()];
    let vars = vec![("./s/one.wav".to_string(), vec![("k".to_string(), "7".to_string())])];
    let sample_idx = 1;
    let out = expand_sheet(&rows, &paths, &vars, Some(&sample_idx)).unwrap();
    assert_eq!(out, vec![vec!["7".to_string(), "".to_string()]]);
}

#[test]
fn quoted_form_requotes_the_path_cell() {
    let rows = vec![vec!["${k}".to_string(), "\"./s/*.wav\"".to_string()]];
    let paths = vec!["./s/one.wav".to_string()];
    let vars = vec![("./s/one.wav".to_string(), vec![("k".to_string(), "7".to_string())])];
    let sample_idx = 1;
    let out = expand_sheet(&rows, &paths, &vars, Some(&sample_idx)).unwrap();
    assert_eq!(out, vec![vec!["7".to_string(), "\"./s/one.wav\"".to_string()]]);
}

#[test]
fn end_to_end_render() {
    let data = b"@raw,key,@sample(sample),@header\n<region>,${k},./s/*.wav,\n".to_vec();
    let mut table = parse_sample_csv(&data).unwrap();
    let paths = vec!["./s/a_k60.wav".to_string()];
    let vars = vec![(
        "./s/a_k60.wav".to_string(),
        csv2sfz::samplename::parse_sample_name("a_k60"),
    )];
    expand_sample_csv(&mut table, &paths, &vars).unwrap();
    let text = render_sfz(&table);
    assert_eq!(text, "<region> key=60 sample=./s/a_k60.wav \n");
}

#[test]
fn merge_override_keeps_base_where_override_is_empty() {
    let rows = vec![
        vec!["${k}".to_string(), "./s/*.wav".to_string(), "base".to_string()],
        vec!["9".to_string(), "./s/one.wav".to_string(), "".to_string()],
    ];
    let paths = vec!["./s/one.wav".to_string(), "./s/two.wav".to_string()];
    let vars: Vec<(String, Vec<(String, String)>)> = paths
        .iter()
        .map(|p| (p.clone(), vec![("k".to_string(), "1".to_string())]))
        .collect();
    let sample_idx = 1;
    let out = expand_sheet(&rows, &paths, &vars, Some(&sample_idx)).unwrap();
    assert_eq!(out.len(), 2);
    // The override row replaced the key but its empty third cell kept "base".
    assert!(out.contains(&vec!["9".to_string(), "./s/one.wav".to_string(), "base".to_string()]));
    assert!(out.contains(&vec!["1".to_string(), "./s/two.wav".to_string(), "base".to_string()]));
}

#[test]
fn raw_column_key_is_synthetic_and_positional() {
    let opcodes = vec!["@raw".to_string(), "x".to_string(), "@raw".to_string()];
    let index = csv2sfz::annotation::create_indices(&opcodes);
    assert_eq!(index.opcode_get("_raw_0"), Some(0));
    assert_eq!(index.opcode_get("_raw_2"), Some(2));
    assert_eq!(index.opcode_get("x"), Some(1));
    assert_eq!(index.opcode_len(), 3);
}
