use sha1_cracker::scan::scan_step;
use sha1_cracker::scan::scan_wordlist;
use sha1_cracker::scan::trim_bytes;
use sha1_cracker::scan::validate_target;
use sha1_cracker::scan::ScanError;
use sha1_cracker::scan::ScanOutcome;

const PASSWORD_DIGEST: &str = "5baa61e4c9b93f3f0682250b6cf8331b7ee68fd8";

fn wordlist(words: &[&str]) -> Vec<Vec<u8>> {
    words.iter().map(|w| w.as_bytes().to_vec()).collect()
}

#[test]
fn trim_strips_surrounding_whitespace() {
    assert_eq!(trim_bytes(b"  password\r\n"), b"password".to_vec());
    assert_eq!(trim_bytes(b"password"), b"password".to_vec());
    assert_eq!(trim_bytes(b"\t\n \r"), Vec::<u8>::new());
    assert_eq!(trim_bytes(b""), Vec::<u8>::new());
    assert_eq!(trim_bytes(b" in the middle kept "), b"in the middle kept".to_vec());
}

#[test]
fn validate_target_accepts_lowercase_hex() {
    assert!(validate_target(&PASSWORD_DIGEST.to_string()));
}

#[test]
fn validate_target_rejects_malformed() {
    assert!(!validate_target(&"".to_string()));
    assert!(!validate_target(&"abc123".to_string()));
    // 39 and 41 characters.
    assert!(!validate_target(&PASSWORD_DIGEST[1..].to_string()));
    assert!(!validate_target(&format!("{}0", PASSWORD_DIGEST)));
    // Uppercase and non-hex characters.
    assert!(!validate_target(&PASSWORD_DIGEST.to_uppercase()));
    assert!(!validate_target(&"5baa61e4c9b93f3f0682250b6cf8331b7ee68fdg".to_string()));
}

#[test]
fn scan_step_finds_match() {
    let line = b" password\n".to_vec();
    let found = scan_step(&line, &PASSWORD_DIGEST.to_string());
    assert_eq!(found, Some(b"password".to_vec()));
}

#[test]
fn scan_step_rejects_non_match() {
    let line = b"letmein".to_vec();
    assert_eq!(scan_step(&line, &PASSWORD_DIGEST.to_string()), None);
}

#[test]
fn scan_reports_first_match_with_position() {
    let lines = wordlist(&["letmein", "password", "qwerty"]);
    let outcome = scan_wordlist(&lines, &PASSWORD_DIGEST.to_string()).unwrap();
    assert_eq!(
        outcome,
        ScanOutcome::Found { candidate: b"password".to_vec(), attempts: 2 }
    );
}

#[test]
fn scan_stops_at_first_of_equal_matches() {
    let lines = wordlist(&["nope", "password", "password"]);
    let outcome = scan_wordlist(&lines, &PASSWORD_DIGEST.to_string()).unwrap();
    assert_eq!(
        outcome,
        ScanOutcome::Found { candidate: b"password".to_vec(), attempts: 2 }
    );
}

#[test]
fn scan_trims_candidates_before_hashing() {
    let lines = wordlist(&["  password  "]);
    let outcome = scan_wordlist(&lines, &PASSWORD_DIGEST.to_string()).unwrap();
    assert_eq!(
        outcome,
        ScanOutcome::Found { candidate: b"password".to_vec(), attempts: 1 }
    );
}

#[test]
fn scan_exhaustion_counts_all_lines() {
    let lines = wordlist(&["letmein", "qwerty", "dragon", "monkey"]);
    let outcome = scan_wordlist(&lines, &PASSWORD_DIGEST.to_string()).unwrap();
    assert_eq!(outcome, ScanOutcome::NotFound { attempts: 4 });
}

#[test]
fn scan_empty_wordlist_reports_not_found() {
    let lines: Vec<Vec<u8>> = Vec::new();
    let outcome = scan_wordlist(&lines, &PASSWORD_DIGEST.to_string()).unwrap();
    assert_eq!(outcome, ScanOutcome::NotFound { attempts: 0 });
}

#[test]
fn scan_rejects_malformed_target_before_scanning() {
    let lines = wordlist(&["password"]);
    assert_eq!(
        scan_wordlist(&lines, &"nothex".to_string()),
        Err(ScanError::InvalidTarget)
    );
    assert_eq!(
        scan_wordlist(&lines, &PASSWORD_DIGEST.to_uppercase()),
        Err(ScanError::InvalidTarget)
    );
}
