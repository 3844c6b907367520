//! The expansion pipeline's behavior on concrete tables, cells and names.

use csv2sfz::annotation::create_indices;
use csv2sfz::expand::expand_sample_csv;
use csv2sfz::expr::apply_expr;
use csv2sfz::samplename::{parse_sample_name, var_value};
use csv2sfz::table::{creat_header_ranges, SampleCSV};
use csv2sfz::annotation::{OutputColumn, TableIndex};
use std::collections::HashSet;

#[test]
fn test_sample_name_paser() {
    let name = "$0m@_(#)*_kEy60_.str99_pi3.14_zdot0._dotz.0_ddd1.2.3";
    let result = parse_sample_name(name);

    assert_eq!(var_value(&result, "kEy"), Some("60".to_string()));
    assert_eq!(var_value(&result, ".str"), None);
    assert_eq!(var_value(&result, "str"), None);
    assert_eq!(var_value(&result, "pi"), Some("3.14".to_string()));
    assert_eq!(var_value(&result, "zdot"), Some("0.".to_string()));
    assert_eq!(var_value(&result, "dotz"), None);
    assert_eq!(var_value(&result, "dotz."), None);
    assert_eq!(var_value(&result, "ddd"), None);
}

#[test]
fn test_create_indices() {
    let opcodes = vec!["@raw".to_string(), "@sample(path)".to_string()];
    let index = create_indices(&opcodes);

    assert_eq!(index.opcode_len(), 2);
    assert_eq!(index.anno_len(), 2);
    assert_eq!(index.opcode_get("_raw_0"), Some(0));
    assert_eq!(index.opcode_get("path"), Some(1));
    assert_eq!(index.anno_get("raw"), Some(0));
    assert_eq!(index.anno_get("sample"), Some(1));
}

#[test]
fn test_creat_header_ranges() {
    let rows: Vec<Vec<String>> = vec![
        vec!["".to_string(), "b".to_string()],
        vec!["".to_string(), "d".to_string()],
        vec!["c".to_string(), "d".to_string()],
    ];
    let mut header_ranges = Vec::new();
    let header_idx = 0;
    creat_header_ranges(&rows, &mut header_ranges, &header_idx);

    assert_eq!(header_ranges, vec![(0, 2), (2, 3)]);
}

#[test]
fn test_glob() {
    let glob = globset::Glob::new("").unwrap();
    let matcher = glob.compile_matcher();

    assert!(!matcher.is_match("test"));
    assert!(matcher.is_match(""));
}

#[test]
fn test_mexprp() {
    let mut cells: Vec<String> = [
        "${2^2}",
        "${sqrt(49)}",
        "${nrt(4, 2)}",
        "${abs(-4)}",
        "${round(sin(3.14))}",
        "${round(cos(pi))}",
        "${tan(0)}",
        "${asin(0)}",
        "${acos(1)}",
        "${atan(0)}",
        "${atan2(0,0)}",
        "${floor(0.5)}",
        "${ceil(1.5)}",
        "${round(3.14155, 3)}",
        "${log(1, 2)}",
        "${sat(2)}",
        "${vsat(200)}",
        "${round(nl(0.5, -2), 2)}",
        "${max(0.5, -2)}",
    ]
    .iter()
    .map(|s| s.to_string())
    .collect();
    let answers: Vec<String> = [
        "4", "7", "", "4", "0", "-1", "0", "0", "0", "0", "", "0", "2", "3.142", "0", "1",
        "127", "0.67", "0.5",
    ]
    .iter()
    .map(|s| s.to_string())
    .collect();
    let row_vars = vec![("l".to_string(), "3".to_string()), ("v".to_string(), "2".to_string())];

    for (cell, answer) in cells.iter_mut().zip(answers.iter()) {
        apply_expr(cell, Some(&row_vars));
        assert_eq!(cell, answer);
    }
}

#[test]
fn test_apply_expr() {
    let mut cell = "This is ${v/l*127}.".to_string();
    let row_vars = vec![("l".to_string(), "3".to_string()), ("v".to_string(), "2".to_string())];

    apply_expr(&mut cell, Some(&row_vars));

    assert_eq!(cell, format!("This is {:.2}.", 2. / 3. * 127.));
}

#[test]
fn test_expand_sample_csv() {
    let mut sample_csv = SampleCSV {
        index: TableIndex {
            columns: vec![
                OutputColumn { key: "key".to_string(), idx: 0, raw: false },
                OutputColumn { key: "sample".to_string(), idx: 1, raw: false },
                OutputColumn { key: "_header".to_string(), idx: 3, raw: false },
            ],
            raw: None,
            sample: Some(1),
            header: Some(3),
        },
        rows: vec![
            vec!["${k}".to_string(), "./path/to/*.wav".to_string(), "<regionA>".to_string()],
            vec!["-1".to_string(), "./path/to/sample1.wav".to_string(), "".to_string()],
            vec![
                "${k+v}".to_string(),
                "./path/to/*{1,3,5}.wav".to_string(),
                "<regionB>".to_string(),
            ],
        ],
        header_ranges: vec![(0, 2), (2, 3)],
    };

    let sample_paths = (1..=5)
        .map(|i| format!("./path/to/sample{i}.wav"))
        .collect::<Vec<_>>();

    let rows_vars: Vec<(String, Vec<(String, String)>)> = (1..=5)
        .map(|i| {
            (
                format!("./path/to/sample{i}.wav"),
                vec![
                    ("k".to_string(), i.to_string()),
                    ("v".to_string(), "100".to_string()),
                ],
            )
        })
        .collect();

    expand_sample_csv(&mut sample_csv, &sample_paths, &rows_vars).unwrap();

    assert_eq!(sample_csv.rows.len(), 8);

    let expected_rows = [
        ["-1", "./path/to/sample1.wav", "<regionA>"],
        ["2", "./path/to/sample2.wav", "<regionA>"],
        ["3", "./path/to/sample3.wav", "<regionA>"],
        ["4", "./path/to/sample4.wav", "<regionA>"],
        ["5", "./path/to/sample5.wav", "<regionA>"],
        ["101", "./path/to/sample1.wav", "<regionB>"],
        ["103", "./path/to/sample3.wav", "<regionB>"],
        ["105", "./path/to/sample5.wav", "<regionB>"],
    ]
    .map(|arr| arr.map(|s| s.to_string()).to_vec())
    .into_iter()
    .collect::<HashSet<_>>();

    let actual_rows = sample_csv.rows.into_iter().collect::<HashSet<_>>();

    assert_eq!(actual_rows, expected_rows);
}
