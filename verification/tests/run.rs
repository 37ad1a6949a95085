use exif_csv::discovery::{discover, DirEntry};
use exif_csv::exif::{build_row, extract_exif, ExifData, ExifEntry};
use exif_csv::report::render_csv;
use exif_csv::run::{collect_outcomes, PAUSE_SECONDS};

fn strings(items: &[&str]) -> Vec<String> {
    items.iter().map(|s| s.to_string()).collect()
}

/// A JPEG whose EXIF segment holds the given ASCII tags.
fn jpeg_with_ascii_tags(tags: &[(u16, &str)]) -> Vec<u8> {
    let mut tiff: Vec<u8> = vec![b'I', b'I', 42, 0, 8, 0, 0, 0];
    tiff.extend_from_slice(&(tags.len() as u16).to_le_bytes());
    let mut data_at = 8 + 2 + 12 * tags.len() + 4;
    let mut data_area: Vec<u8> = Vec::new();
    for (tag, text) in tags {
        let mut value = text.as_bytes().to_vec();
        value.push(0);
        tiff.extend_from_slice(&tag.to_le_bytes());
        tiff.extend_from_slice(&2u16.to_le_bytes());
        tiff.extend_from_slice(&(value.len() as u32).to_le_bytes());
        if value.len() <= 4 {
            value.resize(4, 0);
            tiff.extend_from_slice(&value);
        } else {
            tiff.extend_from_slice(&(data_at as u32).to_le_bytes());
            data_at += value.len();
            data_area.extend_from_slice(&value);
        }
    }
    tiff.extend_from_slice(&[0, 0, 0, 0]);
    tiff.extend_from_slice(&data_area);
    let mut jpeg: Vec<u8> = vec![0xff, 0xd8, 0xff, 0xe1];
    jpeg.extend_from_slice(&((2 + 6 + tiff.len()) as u16).to_be_bytes());
    jpeg.extend_from_slice(b"Exif\0\0");
    jpeg.extend_from_slice(&tiff);
    jpeg.extend_from_slice(&[0xff, 0xd9]);
    jpeg
}

/// Runs discovery, extraction and reporting on a directory that is given by
/// the names of its files and what each of them holds.
fn run_on(files: &[(&str, Vec<u8>)], timestamp: &str) -> (String, Vec<String>) {
    let listing: Vec<DirEntry> =
        files.iter().map(|(name, _)| DirEntry { path: name.to_string(), is_file: true }).collect();
    let candidates = discover(&listing);
    let outcomes = candidates
        .iter()
        .map(|path| {
            let (_, contents) = files.iter().find(|(name, _)| name == path).unwrap();
            extract_exif(path, contents)
        })
        .collect();
    let run = collect_outcomes(outcomes);
    (String::from_utf8(render_csv(timestamp, &run.rows)).unwrap(), run.failures)
}

#[test]
fn example_directory_from_metadata_to_document() {
    let plain = ExifData { mime: "image/jpeg".to_string(), entries: Vec::new() };
    let tagged = ExifData {
        mime: "image/jpeg".to_string(),
        entries: vec![
            ExifEntry { tag: "Make".to_string(), value: "Canon".to_string() },
            ExifEntry { tag: "Model".to_string(), value: "EOS".to_string() },
        ],
    };
    let listing = vec![
        DirEntry { path: "b.JPEG".to_string(), is_file: true },
        DirEntry { path: "a.jpg".to_string(), is_file: true },
    ];
    let outcomes = discover(&listing)
        .iter()
        .map(|path| Ok(build_row(path, if path == "a.jpg" { &plain } else { &tagged })))
        .collect();
    let run = collect_outcomes(outcomes);
    assert!(run.failures.is_empty());
    assert_eq!(
        String::from_utf8(render_csv("2024-01-02T03:04:05+00:00", &run.rows)).unwrap(),
        "# csv_created_at: 2024-01-02T03:04:05+00:00\n\
         a.jpg,image/jpeg,0\n\
         b.JPEG,image/jpeg,2,Make: Canon,Model: EOS\n"
    );
}

#[test]
fn pause_lasts_thirty_seconds() {
    assert_eq!(PAUSE_SECONDS, 30);
}

#[test]
fn outcomes_are_parted_in_their_order() {
    let outcomes = vec![
        Ok(strings(&["a", "m", "0"])),
        Err("first failure".to_string()),
        Ok(strings(&["b", "m", "1", "t: v"])),
        Err("second failure".to_string()),
        Ok(strings(&["c", "m", "0"])),
    ];
    let run = collect_outcomes(outcomes);
    assert_eq!(
        run.rows,
        vec![strings(&["a", "m", "0"]), strings(&["b", "m", "1", "t: v"]), strings(&["c", "m", "0"])]
    );
    assert_eq!(run.failures, strings(&["first failure", "second failure"]));
}

#[test]
fn no_outcomes_leave_nothing() {
    let run = collect_outcomes(Vec::new());
    assert!(run.rows.is_empty());
    assert!(run.failures.is_empty());
}

#[test]
fn only_failures_leave_no_row() {
    let run = collect_outcomes(vec![Err("x".to_string()), Err("y".to_string())]);
    assert!(run.rows.is_empty());
    assert_eq!(run.failures, strings(&["x", "y"]));
}

#[test]
fn corrupt_file_among_valid_files_is_skipped_and_reported() {
    let files = vec![
        ("./one.jpg", jpeg_with_ascii_tags(&[(0x010f, "Canon")])),
        ("./broken.jpg", b"this is not a picture".to_vec()),
        ("./two.jpeg", jpeg_with_ascii_tags(&[])),
        ("./three.JPG", jpeg_with_ascii_tags(&[(0x0110, "EOS"), (0x010f, "Canon")])),
    ];
    let (document, failures) = run_on(&files, "T");
    assert_eq!(
        document,
        "# csv_created_at: T\n\
         ./one.jpg,image/jpeg,1,Manufacturer: Canon\n\
         ./three.JPG,image/jpeg,2,Model: EOS,Manufacturer: Canon\n\
         ./two.jpeg,image/jpeg,0\n"
    );
    assert_eq!(document.lines().count(), 4);
    assert_eq!(failures, strings(&["Failed to parse EXIF in ./broken.jpg: File type unknown"]));
}

#[test]
fn rows_follow_the_ascending_order_of_the_paths() {
    let names = ["m.jpg", "Z.jpeg", "a.jpg", "b.JPEG", "a.jpeg", "0.jpg", "skip.png"];
    let files: Vec<(&str, Vec<u8>)> =
        names.iter().map(|name| (*name, jpeg_with_ascii_tags(&[(0x0131, name)]))).collect();
    let (document, failures) = run_on(&files, "T");
    assert!(failures.is_empty());
    let first_fields: Vec<&str> =
        document.lines().skip(1).map(|line| line.split(',').next().unwrap()).collect();
    assert_eq!(first_fields, vec!["0.jpg", "Z.jpeg", "a.jpeg", "a.jpg", "b.JPEG", "m.jpg"]);
    let mut sorted = first_fields.clone();
    sorted.sort();
    assert_eq!(first_fields, sorted);
}

#[test]
fn run_is_the_same_when_the_listing_is_turned_round() {
    let mut files = vec![
        ("b.JPEG", jpeg_with_ascii_tags(&[(0x010f, "Canon"), (0x0110, "EOS")])),
        ("a.jpg", jpeg_with_ascii_tags(&[])),
        ("c.JpG", jpeg_with_ascii_tags(&[(0x0110, "EOS")])),
        ("bad.jpg", Vec::new()),
    ];
    let forward = run_on(&files, "T");
    files.reverse();
    let backward = run_on(&files, "T");
    assert_eq!(forward, backward);
    assert_eq!(
        forward.0,
        "# csv_created_at: T\n\
         a.jpg,image/jpeg,0\n\
         b.JPEG,image/jpeg,2,Manufacturer: Canon,Model: EOS\n\
         c.JpG,image/jpeg,1,Model: EOS\n"
    );
    assert_eq!(forward.1, strings(&["Failed to parse EXIF in bad.jpg: File type unknown"]));
}

#[test]
fn run_twice_differs_in_the_header_only() {
    let files = vec![
        ("a.jpg", jpeg_with_ascii_tags(&[])),
        ("b.JPEG", jpeg_with_ascii_tags(&[(0x010f, "Canon"), (0x0110, "EOS")])),
    ];
    let (first, _) = run_on(&files, "2024-01-01T00:00:00+00:00");
    let (second, _) = run_on(&files, "2024-01-01T00:00:31+00:00");
    assert_ne!(first, second);
    assert_eq!(first.split_once('\n').unwrap().1, second.split_once('\n').unwrap().1);
}
