use novum::discovery::{discover, file_stem, DirectoryEntry};
use std::path::Path;

fn entry(file_name: &str, is_file: bool) -> DirectoryEntry {
    DirectoryEntry {
        file_name: file_name.to_string(),
        path: format!("./course/{}", file_name),
        is_file,
    }
}

#[test]
fn file_stem_drops_the_extension() {
    assert_eq!(file_stem("1_intro.bin"), "1_intro");
    assert_eq!(file_stem("2_lecture"), "2_lecture");
    assert_eq!(file_stem("archive.tar.gz"), "archive.tar");
    assert_eq!(file_stem("trailing."), "trailing");
}

#[test]
fn file_stem_keeps_a_name_with_its_only_dot_in_front() {
    assert_eq!(file_stem(".hidden"), ".hidden");
    assert_eq!(file_stem(".hidden.sh"), ".hidden");
    assert_eq!(file_stem("."), ".");
    assert_eq!(file_stem(""), "");
}

#[test]
fn file_stem_agrees_with_the_standard_library() {
    let samples = [
        "a", "a.b", "a.b.c", ".a", ".a.b", "a.", "a..", "a..b", "..a", "...", "1_intro.bin",
        "no_extension", "über.exe", "x.y.z.w", " .txt", "a b.c d",
    ];
    for sample in samples {
        let expected = Path::new(sample).file_stem().and_then(|stem| stem.to_str()).unwrap();
        assert_eq!(file_stem(sample), expected, "{:?}", sample);
    }
}

#[test]
fn discover_gives_one_module_for_each_regular_file() {
    let entries = vec![
        entry("2_x.bin", true),
        entry("assets", false),
        entry("10_y", true),
        entry("notes.d", false),
        entry("1_z.sh", true),
    ];
    let (names, paths) = discover(&entries);
    assert_eq!(names.len(), 3);
    assert_eq!(names, vec!["2_x".to_string(), "10_y".to_string(), "1_z".to_string()]);
    assert_eq!(
        paths,
        vec![
            "./course/2_x.bin".to_string(),
            "./course/10_y".to_string(),
            "./course/1_z.sh".to_string()
        ]
    );
}

#[test]
fn discover_counts_the_regular_files() {
    for k in 0..6usize {
        let mut entries = Vec::new();
        for i in 0..k {
            entries.push(entry(&format!("dir_{}", i), false));
            entries.push(entry(&format!("{}_module.bin", i), true));
        }
        let (names, paths) = discover(&entries);
        assert_eq!(names.len(), k);
        assert_eq!(paths.len(), k);
        for i in 0..k {
            assert_eq!(names[i], format!("{}_module", i));
            assert_eq!(paths[i], format!("./course/{}_module.bin", i));
        }
    }
}

#[test]
fn discover_in_an_empty_directory() {
    let (names, paths) = discover(&Vec::new());
    assert!(names.is_empty());
    assert!(paths.is_empty());
    let (names, paths) = discover(&vec![entry("only_a_directory", false)]);
    assert!(names.is_empty());
    assert!(paths.is_empty());
}
