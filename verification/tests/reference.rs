//! Reading the codec tables from reference sources and archives.

use std::io::{Cursor, Write};

use tetra_acelp::reference::{
    array, coef, eval_token, find_bytes, generate, parse_i64, parse_list, read_tables,
    strip_comments, tables_from_archive, trim_range, EntryError, NamedTable, ReferenceError,
    TextError, TokenError,
};

fn tok(s: &str) -> Result<i16, TokenError> {
    eval_token(s.as_bytes(), 0, s.len())
}

#[test]
fn comments_are_removed() {
    assert_eq!(strip_comments(b"a/* x */b"), b"ab".to_vec());
    assert_eq!(strip_comments(b"a // rest\nb"), b"a \nb".to_vec());
    assert_eq!(strip_comments(b"a /* unterminated"), b"a ".to_vec());
    assert_eq!(strip_comments(b"a // end"), b"a ".to_vec());
    assert_eq!(strip_comments(b"/**/x/*/y*/z"), b"xz".to_vec());
    assert_eq!(strip_comments(b"a/"), b"a/".to_vec());
    // A byte that is not ASCII becomes the character with its code.
    assert_eq!(strip_comments(&[b'a', 0xe9, b'b']), "a\u{e9}b".as_bytes().to_vec());
}

#[test]
fn elements_are_products_modulo_2_16() {
    assert_eq!(tok("-49").unwrap(), -49);
    assert_eq!(tok(" 16231 * 2 ").unwrap(), 32462);
    assert_eq!(tok("16384 * 2").unwrap(), -32768);
    assert_eq!(tok("65535").unwrap(), -1);
    assert_eq!(tok("+7 * * 3").unwrap(), 21);
    assert_eq!(tok("-32768").unwrap(), -32768);
    assert_eq!(tok("9223372036854775807").unwrap(), -1);
    assert_eq!(tok("-9223372036854775808").unwrap(), 0);
    assert!(matches!(tok("9223372036854775808"), Err(TokenError::BadNumber(t)) if t == b"9223372036854775808"));
    assert!(matches!(tok("12a"), Err(TokenError::BadNumber(t)) if t == b"12a"));
    assert!(matches!(tok(" - "), Err(TokenError::BadNumber(t)) if t == b"-"));
    assert!(matches!(tok("2 * x * y"), Err(TokenError::BadNumber(t)) if t == b"x"));
    assert!(matches!(tok(" * "), Err(TokenError::EmptyToken(t)) if t == b" * "));
}

#[test]
fn numbers_and_trimming() {
    let b = b"  -12 \t";
    assert_eq!(trim_range(b, 0, b.len()), (2, 5));
    assert_eq!(parse_i64(b, 2, 5), Some(-12));
    assert_eq!(parse_i64(b"+", 0, 1), None);
    assert_eq!(parse_i64(b"", 0, 0), None);
    assert_eq!(parse_i64(b"007", 0, 3), Some(7));
    let ws = "\u{3000}x\u{a0}".as_bytes();
    assert_eq!(trim_range(ws, 0, ws.len()), (3, 4));
    assert_eq!(find_bytes(b"abcabc", b"ca", 0), Some(2));
    assert_eq!(find_bytes(b"abcabc", b"ab", 1), Some(3));
    assert_eq!(find_bytes(b"abc", b"", 2), Some(2));
    assert_eq!(find_bytes(b"abc", b"x", 0), None);
}

#[test]
fn lists_skip_blank_elements() {
    let b = b"1, 2,\n -3 , ,";
    assert_eq!(parse_list(b, 0, b.len()).unwrap(), vec![1, 2, -3]);
    let b = b"1, q, 2";
    assert!(matches!(parse_list(b, 0, b.len()), Err(TokenError::BadNumber(t)) if t == b"q"));
}

#[test]
fn arrays_and_coefficients() {
    let src = b"/* header */\nWord16 lag_h[3] = { 1, /* two */ 2, 3 };\nWord16 lag_l[2]={4,5};";
    assert_eq!(array(src, b"lag_h", 3).unwrap(), vec![1, 2, 3]);
    assert_eq!(array(src, b"lag_l", 2).unwrap(), vec![4, 5]);
    assert!(matches!(array(src, b"lag_l", 3), Err(TextError::WrongValueCount { expected: 3, found: 2, .. })));
    assert!(matches!(array(src, b"grid", 3), Err(TextError::ArrayNotFound(n)) if n == b"grid"));
    assert!(matches!(array(b"x[1] = 1;", b"x", 1), Err(TextError::MissingOpenBrace)));
    assert!(matches!(array(b"x[1] = { 1;", b"x", 1), Err(TextError::MissingCloseBrace)));
    let sub = b"static void Inter8_M1_3(void) {\n  static Word16 coef[2] = { 10, -20 };\n}";
    assert_eq!(coef(sub, b"Inter8_M1_3", 2).unwrap(), vec![10, -20]);
    assert!(matches!(coef(sub, b"Inter8_1_3", 2), Err(TextError::FunctionNotFound(_))));
    assert!(matches!(coef(b"void f() {}", b"f", 2), Err(TextError::CoefNotFound(_))));
}

fn c_array(name: &str, vals: &[i16]) -> String {
    let body: Vec<String> = vals.iter().map(|v| v.to_string()).collect();
    format!("Word16 {name}[{}] = {{\n  {}\n}};\n", vals.len(), body.join(", "))
}

fn c_coef(func: &str, vals: &[i16]) -> String {
    let body: Vec<String> = vals.iter().map(|v| v.to_string()).collect();
    format!("void {func}(void)\n{{\n  static Word16 coef[{}] = {{ {} }};\n}}\n", vals.len(), body.join(", "))
}

fn seq(n: usize, k: i32) -> Vec<i16> {
    (0..n).map(|i| ((i as i32 * k) % 30000 - 15000) as i16).collect()
}

fn sources() -> Vec<String> {
    vec![
        format!("/* CLSP */\n{}{}{}", c_array("dico1_clsp", &seq(768, 7)), c_array("dico2_clsp", &seq(1536, 11)), c_array("dico3_clsp", &seq(2048, 13))),
        c_array("t_qua_ener", &seq(128, 3)),
        c_array("window", &seq(256, 101)),
        format!("{}// lag windows\n{}", c_array("lag_h", &seq(10, 1001)), c_array("lag_l", &seq(10, 77))),
        c_array("grid", &seq(61, 500)),
        c_array("tab_log2", &seq(33, 999)),
        format!(
            "{}{}{}{}",
            c_coef("Inter8_M1_3", &seq(8, 3)),
            c_coef("Inter8_1_3", &seq(8, 5)),
            c_coef("Inter32_M1_3", &seq(32, 9)),
            c_coef("Inter32_1_3", &seq(32, 17))
        ),
    ]
}

#[test]
fn all_tables_from_sources() {
    let srcs: Vec<Vec<u8>> = sources().into_iter().map(|s| s.into_bytes()).collect();
    let t = read_tables(&srcs).expect("tables");
    assert_eq!(t.window.to_vec(), seq(256, 101));
    assert_eq!(t.lag_l.to_vec(), seq(10, 77));
    assert_eq!(t.dico3_clsp.to_vec(), seq(2048, 13));
    assert_eq!(t.tab_log2.to_vec(), seq(33, 999));
    assert_eq!(t.inter32_1_3.to_vec(), seq(32, 17));
    let mut bad = srcs.clone();
    bad[4] = b"grid[2] = {1,2};".to_vec();
    assert!(matches!(read_tables(&bad), Err(TextError::WrongValueCount { expected: 61, found: 2, .. })));
}

fn archive(entries: &[(&str, &str)]) -> Vec<u8> {
    let mut w = zip::ZipWriter::new(Cursor::new(Vec::new()));
    for (name, text) in entries {
        w.start_file(*name, zip::write::SimpleFileOptions::default()).unwrap();
        w.write_all(text.as_bytes()).unwrap();
    }
    w.finish().unwrap().into_inner()
}

#[test]
fn tables_from_a_reference_archive() {
    let s = sources();
    let names = [
        "en_300395/C-CODE/clsp_334.tab",
        "en_300395/C-CODE/ENER_QUA.TAB",
        "en_300395/C-CODE/Window.tab",
        "en_300395/C-CODE/LAG_WIND.TAB",
        "en_300395/C-CODE/GRID.TAB",
        "en_300395/C-CODE/LOG2.TAB",
        "en_300395/C-CODE/SUB_SC_D.C",
    ];
    let mut entries: Vec<(&str, &str)> = vec![("README.TXT", "nothing here")];
    for (n, t) in names.iter().zip(s.iter()) {
        entries.push((n, t.as_str()));
    }
    let bytes = archive(&entries);
    let t = tables_from_archive(bytes).expect("tables");
    assert_eq!(t.grid.to_vec(), seq(61, 500));
    assert_eq!(t.dico1_clsp.to_vec(), seq(768, 7));
    assert_eq!(t.t_qua_ener.to_vec(), seq(128, 3));

    // A missing source is reported by its suffix.
    let short = archive(&entries[..5]);
    match tables_from_archive(short) {
        Err(ReferenceError::Entry(EntryError::NotFound(sx))) => assert_eq!(sx, b"GRID.TAB"),
        other => panic!("unexpected {other:?}"),
    }
    assert!(matches!(tables_from_archive(b"not a zip".to_vec()), Err(ReferenceError::Archive(_))));
}

#[test]
fn module_text_lists_twelve_values_per_row() {
    let tables = vec![
        NamedTable { name: b"A".to_vec(), doc: b"First.".to_vec(), values: vec![1, -2] },
        NamedTable { name: b"B".to_vec(), doc: b"Second.".to_vec(), values: (0..13i16).map(|v| v * 100 - 1).collect() },
    ];
    let text = String::from_utf8(generate(&tables)).unwrap();
    let header = "//! Numeric data tables from the ETSI TETRA codec (EN 300 395-2).\n//!\n//! Read from the ETSI reference archive: the codebooks and windows are\n//! reproduced from the normative ETSI reference, which you obtain from ETSI.\n\n";
    let expected = format!(
        "{header}/// First.\npub const A: [i16; 2] = [\n    1, -2, \n];\n\n/// Second.\npub const B: [i16; 13] = [\n    -1, 99, 199, 299, 399, 499, 599, 699, 799, 899, 999, 1099, \n    1199, \n];\n\n"
    );
    assert_eq!(text, expected);
    assert_eq!(String::from_utf8(generate(&vec![])).unwrap(), header);
    let extreme = vec![NamedTable { name: b"E".to_vec(), doc: b"".to_vec(), values: vec![i16::MIN, i16::MAX, 0] }];
    assert!(String::from_utf8(generate(&extreme)).unwrap().contains("    -32768, 32767, 0, \n"));
}

#[test]
fn the_first_matching_entry_is_read() {
    let s = sources();
    let names = [
        "C-CODE/clsp_334.tab",
        "C-CODE/ENER_QUA.TAB",
        "C-CODE/Window.tab",
        "C-CODE/LAG_WIND.TAB",
        "C-CODE/GRID.TAB",
        "C-CODE/LOG2.TAB",
        "C-CODE/SUB_SC_D.C",
    ];
    let mut entries: Vec<(&str, &str)> = Vec::new();
    for (n, t) in names.iter().zip(s.iter()) {
        entries.push((n, t.as_str()));
    }
    // A later entry with the same suffix is never read.
    let mut later = entries.clone();
    later.push(("copy/grid.tab", "grid[2] = {1,2};"));
    let t = tables_from_archive(archive(&later)).expect("tables");
    assert_eq!(t.grid.to_vec(), seq(61, 500));
    // An earlier one is, and its text decides.
    let mut earlier = vec![("copy/grid.tab", "grid[2] = {1,2};")];
    earlier.extend(entries.iter().cloned());
    assert!(matches!(tables_from_archive(archive(&earlier)), Err(ReferenceError::Text(_))));
}
