use fractal_wizard::file_io::clean_json;

#[test]
fn removes_trailing_commas() {
    assert_eq!(clean_json("[1, 2, 3,]"), "[1, 2, 3]");
    assert_eq!(clean_json("{\"a\": 1,\n}"), "{\"a\": 1\n}");
    assert_eq!(clean_json("{\"p\": [[0, 1], [2, 3],\t\r\n ],}"), "{\"p\": [[0, 1], [2, 3]\t\r\n ]}");
}

#[test]
fn keeps_commas_inside_strings_and_between_items() {
    assert_eq!(clean_json("[\",]\", 1]"), "[\",]\", 1]");
    assert_eq!(clean_json("[\"a\\\",]\",]"), "[\"a\\\",]\"]");
    assert_eq!(clean_json("[1,,]"), "[1,]");
}

#[test]
fn valid_json_is_unchanged() {
    let text = "{\"type\": \"Polygon\", \"points\": [[0.0, 1.5], [2, 3]]}";
    assert_eq!(clean_json(text), text);
    assert_eq!(clean_json(""), "");
}

#[test]
fn comma_at_end_of_text_is_kept() {
    assert_eq!(clean_json("[1],"), "[1],");
    assert_eq!(clean_json("[1],  "), "[1],  ");
}

#[test]
fn non_ascii_bytes_are_read_one_by_one() {
    let out = clean_json("[\"é\",]");
    let chars: Vec<char> = out.chars().collect();
    assert_eq!(chars, vec!['[', '"', '\u{c3}', '\u{a9}', '"', ']']);
}
