use exif_csv::report::{header, render_csv, to_csv, OUTPUT_FILE};

fn row(items: &[&str]) -> Vec<String> {
    items.iter().map(|s| s.to_string()).collect()
}

fn text(document: Vec<u8>) -> String {
    String::from_utf8(document).unwrap()
}

/// One field as a CSV writer has to write it.
fn expected_field(field: &str) -> String {
    if field.contains(|c| c == ',' || c == '"' || c == '\r' || c == '\n') {
        format!("\"{}\"", field.replace('"', "\"\""))
    } else {
        field.to_string()
    }
}

/// One record as a CSV writer has to write it.
fn expected_record(fields: &[String]) -> String {
    let joined = fields.iter().map(|f| expected_field(f)).collect::<Vec<String>>().join(",");
    if joined.is_empty() {
        "\"\"\n".to_string()
    } else {
        format!("{joined}\n")
    }
}

#[test]
fn output_file_has_its_fixed_name() {
    assert_eq!(OUTPUT_FILE, "exif_output.csv");
}

#[test]
fn header_field_marks_the_time() {
    assert_eq!(
        header("2024-05-06T07:08:09.123456789+02:00"),
        "# csv_created_at: 2024-05-06T07:08:09.123456789+02:00"
    );
    assert_eq!(header(""), "# csv_created_at: ");
}

#[test]
fn document_without_rows_is_the_header_record() {
    assert_eq!(text(render_csv("T", &Vec::new())), "# csv_created_at: T\n");
}

#[test]
fn example_directory_gives_the_expected_document() {
    let rows = vec![
        row(&["a.jpg", "image/jpeg", "0"]),
        row(&["b.JPEG", "image/jpeg", "2", "Make: Canon", "Model: EOS"]),
    ];
    assert_eq!(
        text(render_csv("2024-01-02T03:04:05+00:00", &rows)),
        "# csv_created_at: 2024-01-02T03:04:05+00:00\n\
         a.jpg,image/jpeg,0\n\
         b.JPEG,image/jpeg,2,Make: Canon,Model: EOS\n"
    );
}

#[test]
fn rows_of_different_lengths_are_neither_padded_nor_cut() {
    let rows = vec![row(&["1"]), row(&["1", "2", "3", "4", "5", "6"]), row(&["1", "2"]), row(&[])];
    assert_eq!(text(render_csv("T", &rows)), "# csv_created_at: T\n1\n1,2,3,4,5,6\n1,2\n\"\"\n");
}

#[test]
fn rows_are_written_in_the_order_given() {
    let rows = vec![row(&["z"]), row(&["a"]), row(&["m"]), row(&["a"])];
    assert_eq!(text(render_csv("T", &rows)), "# csv_created_at: T\nz\na\nm\na\n");
}

#[test]
fn fields_with_special_characters_are_quoted() {
    let rows = vec![
        row(&["a,b", "plain"]),
        row(&["say \"hi\"", "x"]),
        row(&["line\nbreak", "x"]),
        row(&["carriage\rreturn", "x"]),
        row(&["\"", ",", "\n", "\r"]),
        row(&[" spaced ", "#hash", "semi;colon", "tab\t"]),
    ];
    assert_eq!(
        text(render_csv("T", &rows)),
        "# csv_created_at: T\n\
         \"a,b\",plain\n\
         \"say \"\"hi\"\"\",x\n\
         \"line\nbreak\",x\n\
         \"carriage\rreturn\",x\n\
         \"\"\"\",\",\",\"\n\",\"\r\"\n \
         spaced ,#hash,semi;colon,tab\t\n"
    );
}

#[test]
fn timestamp_with_special_characters_is_quoted_too() {
    assert_eq!(text(render_csv("a,b", &Vec::new())), "\"# csv_created_at: a,b\"\n");
    assert_eq!(text(render_csv("\"", &Vec::new())), "\"# csv_created_at: \"\"\"\n");
}

#[test]
fn empty_fields_are_written_as_nothing_unless_alone() {
    let rows = vec![row(&[""]), row(&["", ""]), row(&["", "", ""]), row(&["a", "", "b"]), row(&[])];
    assert_eq!(text(render_csv("T", &rows)), "# csv_created_at: T\n\"\"\n,\n,,\na,,b\n\"\"\n");
}

#[test]
fn text_beyond_ascii_is_written_as_utf8() {
    let rows = vec![row(&["\u{00e9}t\u{00e9}.jpg", "\u{4e2d}\u{6587}, \u{1f600}"])];
    assert_eq!(
        text(render_csv("T", &rows)),
        "# csv_created_at: T\n\u{00e9}t\u{00e9}.jpg,\"\u{4e2d}\u{6587}, \u{1f600}\"\n"
    );
}

#[test]
fn long_fields_pass_the_buffer_of_the_writer() {
    let mut long_plain = String::new();
    let mut long_quoted = String::new();
    for i in 0..30000 {
        long_plain.push(char::from(b'a' + (i % 26) as u8));
        long_quoted.push(if i % 7 == 0 { '"' } else if i % 11 == 0 { ',' } else { 'x' });
    }
    let rows = vec![
        vec![long_plain.clone(), long_quoted.clone(), "end".to_string()],
        vec![long_quoted.clone()],
        vec!["\"".repeat(8192), "\"".repeat(8191), "\"".repeat(4096)],
    ];
    let mut expected = String::from("# csv_created_at: T\n");
    for r in &rows {
        expected.push_str(&expected_record(r));
    }
    assert_eq!(text(render_csv("T", &rows)), expected);
}

#[test]
fn every_small_record_is_written_as_stated() {
    let alphabet = ['a', ',', '"', '\n', '\r', ' ', '#'];
    let mut fields: Vec<String> = vec![String::new()];
    for a in alphabet {
        fields.push(a.to_string());
        for b in alphabet {
            fields.push(format!("{a}{b}"));
            for c in ['a', '"', ','] {
                fields.push(format!("{a}{b}{c}"));
            }
        }
    }
    let mut rows: Vec<Vec<String>> = vec![Vec::new()];
    for f in &fields {
        rows.push(vec![f.clone()]);
    }
    for (i, f) in fields.iter().enumerate() {
        for g in fields.iter().skip(i % 5).step_by(5) {
            rows.push(vec![f.clone(), g.clone()]);
            rows.push(vec![g.clone(), String::new(), f.clone()]);
        }
    }
    let mut expected = String::from("# csv_created_at: T\n");
    for r in &rows {
        expected.push_str(&expected_record(r));
    }
    assert_eq!(text(render_csv("T", &rows)), expected);
    for r in rows.iter().take(400) {
        let alone = vec![r.clone()];
        assert_eq!(
            text(render_csv("T", &alone)),
            format!("# csv_created_at: T\n{}", expected_record(r))
        );
    }
}

#[test]
fn document_is_marked_with_the_local_time() {
    let rows = vec![row(&["a.jpg", "image/jpeg", "0"])];
    let document = text(to_csv(&rows));
    let (first, rest) = document.split_once('\n').unwrap();
    assert_eq!(rest, "a.jpg,image/jpeg,0\n");
    let timestamp = first.strip_prefix("# csv_created_at: ").unwrap();
    assert!(timestamp.len() >= 25);
    let bytes = timestamp.as_bytes();
    assert!(bytes[..4].iter().all(|b| b.is_ascii_digit()));
    assert_eq!(bytes[4], b'-');
    assert_eq!(bytes[7], b'-');
    assert_eq!(bytes[10], b'T');
    assert_eq!(bytes[13], b':');
    assert_eq!(bytes[16], b':');
    let zone = &timestamp[timestamp.len() - 6..];
    assert!(zone.starts_with('+') || zone.starts_with('-'));
    assert_eq!(zone.as_bytes()[3], b':');
}

#[test]
fn two_documents_of_the_same_rows_differ_in_the_header_only() {
    let rows = vec![
        row(&["a.jpg", "image/jpeg", "0"]),
        row(&["b.JPEG", "image/jpeg", "2", "Make: Canon", "Model: EOS"]),
    ];
    let first = text(to_csv(&rows));
    let second = text(to_csv(&rows));
    let (first_header, first_rows) = first.split_once('\n').unwrap();
    let (second_header, second_rows) = second.split_once('\n').unwrap();
    assert!(first_header.starts_with("# csv_created_at: "));
    assert!(second_header.starts_with("# csv_created_at: "));
    assert_eq!(first_rows, second_rows);
    assert_eq!(first_rows, "a.jpg,image/jpeg,0\nb.JPEG,image/jpeg,2,Make: Canon,Model: EOS\n");
    let early = text(render_csv("2001-01-01T00:00:00+00:00", &rows));
    let late = text(render_csv("2031-12-31T23:59:59+00:00", &rows));
    assert_eq!(early.split_once('\n').unwrap().1, late.split_once('\n').unwrap().1);
}
