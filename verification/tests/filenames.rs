use archive::names::{after_attempt, decimal_text, unique_filename, Step};

#[test]
fn first_attempt_is_the_name_itself() {
    assert_eq!(unique_filename("picture.png", 0), Some("picture.png".to_string()));
    assert_eq!(unique_filename("README", 0), Some("README".to_string()));
}

#[test]
fn later_attempts_are_numbered_before_the_extension() {
    assert_eq!(unique_filename("picture.png", 1), Some("picture (1).png".to_string()));
    assert_eq!(unique_filename("picture.png", 2), Some("picture (2).png".to_string()));
    assert_eq!(unique_filename("picture.png", 10), Some("picture (10).png".to_string()));
    assert_eq!(unique_filename("picture.png", 65535), Some("picture (65535).png".to_string()));
}

#[test]
fn only_the_last_extension_is_split_off() {
    assert_eq!(unique_filename("archive.tar.gz", 3), Some("archive.tar (3).gz".to_string()));
}

#[test]
fn names_without_an_extension() {
    assert_eq!(unique_filename("README", 1), Some("README (1)".to_string()));
    assert_eq!(unique_filename(".bashrc", 1), Some(".bashrc (1)".to_string()));
    assert_eq!(unique_filename("trailing.", 1), Some("trailing (1).".to_string()));
    assert_eq!(unique_filename("...", 1), Some(".. (1).".to_string()));
}

#[test]
fn names_in_other_scripts() {
    assert_eq!(
        unique_filename("\u{56fe}\u{7247}.\u{56fe}", 7),
        Some("\u{56fe}\u{7247} (7).\u{56fe}".to_string())
    );
}

#[test]
fn what_is_not_a_file_name_has_no_candidates() {
    assert_eq!(unique_filename("", 0), None);
    assert_eq!(unique_filename("", 1), None);
    assert_eq!(unique_filename(".", 0), None);
    assert_eq!(unique_filename("..", 5), None);
}

#[test]
fn candidates_agree_with_path() {
    for name in ["a.b", "a", ".a", "a.", "a.b.c", "..a", "a..b", " .x"] {
        let path = std::path::Path::new(name);
        let stem = path.file_stem().unwrap().to_str().unwrap();
        let extension = path.extension().map(|e| format!(".{}", e.to_str().unwrap())).unwrap_or_default();
        assert_eq!(unique_filename(name, 4), Some(format!("{} ({}){}", stem, 4, extension)));
    }
}

#[test]
fn numbers_in_decimal() {
    assert_eq!(decimal_text(0), "0");
    assert_eq!(decimal_text(7), "7");
    assert_eq!(decimal_text(10), "10");
    assert_eq!(decimal_text(909), "909");
    assert_eq!(decimal_text(1234567890), "1234567890");
    assert_eq!(decimal_text(u32::MAX), "4294967295");
}

#[test]
fn free_candidate_is_used() {
    assert_eq!(after_attempt("a.txt", 0, false), Some(Step::Use("a.txt".to_string())));
    assert_eq!(after_attempt("a.txt", 3, false), Some(Step::Use("a (3).txt".to_string())));
    assert_eq!(after_attempt("a.txt", 65535, false), Some(Step::Use("a (65535).txt".to_string())));
}

#[test]
fn taken_candidate_leads_to_the_next_attempt() {
    assert_eq!(after_attempt("a.txt", 0, true), Some(Step::Try(1)));
    assert_eq!(after_attempt("a.txt", 41, true), Some(Step::Try(42)));
    assert_eq!(after_attempt("a.txt", 65534, true), Some(Step::Try(65535)));
}

#[test]
fn numbers_run_out_after_the_last_attempt() {
    assert_eq!(after_attempt("a.txt", 65535, true), Some(Step::Exhausted));
}

#[test]
fn no_step_for_what_is_not_a_file_name() {
    assert_eq!(after_attempt("", 0, false), None);
    assert_eq!(after_attempt("..", 0, true), None);
    assert_eq!(after_attempt(".", 7, true), None);
}

#[test]
fn search_takes_the_first_free_candidate() {
    let taken = ["a.txt", "a (1).txt", "a (2).txt", "a (4).txt"];
    let mut number = 0;
    let mut probes = 0;
    let name = loop {
        let candidate = unique_filename("a.txt", number).unwrap();
        probes += 1;
        match after_attempt("a.txt", number, taken.contains(&candidate.as_str())).unwrap() {
            Step::Use(name) => break name,
            Step::Try(next) => number = next,
            Step::Exhausted => unreachable!(),
        }
    };
    assert_eq!(name, "a (3).txt");
    assert_eq!(probes, 4);
}
