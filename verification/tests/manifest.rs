use acoustic_drone::esc50::select_esc50;
use acoustic_drone::manifest::{chars_of, parse_manifest, ManifestError};

fn pairs(text: &str) -> (Vec<(String, u8)>, Option<ManifestError>) {
    let p = parse_manifest(text);
    (p.entries.into_iter().map(|e| (e.id, e.label)).collect(), p.error)
}

#[test]
fn manifest_with_header() {
    let (entries, err) = pairs("path,label\nclips/a.wav,1\nclips/b.wav,0\n");
    assert_eq!(entries, vec![("clips/a.wav".to_string(), 1), ("clips/b.wav".to_string(), 0)]);
    assert_eq!(err, None);
}

#[test]
fn header_in_any_case_only_on_first_line() {
    let (entries, err) = pairs("PATH,LABEL\r\nx.wav,1\r\n");
    assert_eq!(entries, vec![("x.wav".to_string(), 1)]);
    assert_eq!(err, None);
    let (_, err) = pairs("a.wav,1\npath,label\n");
    assert_eq!(err, Some(ManifestError::BadLabel { line: 2 }));
}

#[test]
fn blank_lines_and_spaces_are_ignored() {
    let (entries, err) = pairs("\n  \n  a b.wav , 1 \n\t\nc.wav,+0");
    assert_eq!(entries, vec![("a b.wav".to_string(), 1), ("c.wav".to_string(), 0)]);
    assert_eq!(err, None);
}

#[test]
fn last_comma_separates_the_label() {
    let (entries, _) = pairs("dir,with,commas/x.wav,1\n");
    assert_eq!(entries, vec![("dir,with,commas/x.wav".to_string(), 1)]);
}

#[test]
fn missing_comma_stops_reading() {
    let (entries, err) = pairs("a.wav,1\nno comma here\nb.wav,0\n");
    assert_eq!(entries, vec![("a.wav".to_string(), 1)]);
    assert_eq!(err, Some(ManifestError::MissingComma { line: 2 }));
}

#[test]
fn bad_labels_are_refused() {
    assert_eq!(pairs("a.wav,256").1, Some(ManifestError::BadLabel { line: 1 }));
    assert_eq!(pairs("a.wav,-1").1, Some(ManifestError::BadLabel { line: 1 }));
    assert_eq!(pairs("a.wav,").1, Some(ManifestError::BadLabel { line: 1 }));
    assert_eq!(pairs("a.wav,+").1, Some(ManifestError::BadLabel { line: 1 }));
    assert_eq!(pairs("a.wav,1x").1, Some(ManifestError::BadLabel { line: 1 }));
    assert_eq!(pairs("a.wav,255").0, vec![("a.wav".to_string(), 255)]);
    assert_eq!(pairs("a.wav,007").0, vec![("a.wav".to_string(), 7)]);
}

#[test]
fn empty_manifest() {
    let (entries, err) = pairs("");
    assert!(entries.is_empty());
    assert_eq!(err, None);
}

#[test]
fn chars_of_text() {
    assert_eq!(chars_of("aé,"), vec!['a', 'é', ',']);
}

const META: &str = "filename,fold,target,category,esc10,src_file,take\n\
1-200-B-0.wav,1,0,dog,True,200,B\n\
1-100-A-0.wav,1,0,dog,True,100,A\n\
2-300-A-0.wav,2,47,airplane,False,300,A\n\
1-050-A-0.wav,1,47,airplane,False,50,A\n\
3-999-A-0.wav,3,10,rain,True,999,A\n\
3-001-A-0.wav,3,10, rain ,True,1,A\n\
short,line\n\
1-400-A-0.wav,1,0,dog,True,400,A\n";

fn chosen(per_class: usize) -> Vec<(String, String)> {
    let wanted = vec!["dog".to_string(), "airplane".to_string(), "rain".to_string()];
    select_esc50(META, &wanted, per_class)
        .into_iter()
        .map(|c| (c.category, c.filename))
        .collect()
}

fn row(c: &str, f: &str) -> (String, String) {
    (c.to_string(), f.to_string())
}

#[test]
fn esc50_all_rows_sorted_by_category_then_file() {
    assert_eq!(
        chosen(0),
        vec![
            row("airplane", "1-050-A-0.wav"),
            row("airplane", "2-300-A-0.wav"),
            row("dog", "1-100-A-0.wav"),
            row("dog", "1-200-B-0.wav"),
            row("dog", "1-400-A-0.wav"),
            row("rain", "3-001-A-0.wav"),
            row("rain", "3-999-A-0.wav"),
        ]
    );
}

#[test]
fn esc50_per_class_cap() {
    assert_eq!(
        chosen(1),
        vec![
            row("airplane", "1-050-A-0.wav"),
            row("dog", "1-100-A-0.wav"),
            row("rain", "3-001-A-0.wav"),
        ]
    );
    assert_eq!(chosen(2).len(), 6);
}

#[test]
fn esc50_unwanted_classes_and_header_skipped() {
    let wanted = vec!["category".to_string(), "cat".to_string()];
    assert!(select_esc50(META, &wanted, 0).is_empty());
    assert!(select_esc50("", &wanted, 0).is_empty());
}

#[test]
fn esc50_row_order_does_not_matter() {
    let reordered = "filename,fold,target,category\n\
b.wav,1,0,dog\n\
a.wav,1,0,dog\n";
    let original = "filename,fold,target,category\n\
a.wav,1,0,dog\n\
b.wav,1,0,dog\n";
    let wanted = vec!["dog".to_string()];
    let x: Vec<String> = select_esc50(reordered, &wanted, 0).into_iter().map(|c| c.filename).collect();
    let y: Vec<String> = select_esc50(original, &wanted, 0).into_iter().map(|c| c.filename).collect();
    assert_eq!(x, y);
    assert_eq!(x, vec!["a.wav", "b.wav"]);
}
