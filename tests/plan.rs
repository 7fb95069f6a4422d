use azsync::blob::{blob_name, repeated_names, BlobNameError, PathPart};
use azsync::options::{answer, log_level, lookup_var, url_source, Answer, LogLevel, UrlSource};
use azsync::plan::{blob_modified, new_file_modified, report_line, secret_name, var_choice, var_name, TimeError};
use azsync::{Choice, DotenvFile, SkipReason, SyncMode, Timestamp};

const SEC: i128 = 1_000_000_000;

fn ts(secs: i128) -> Timestamp {
    Timestamp { unix_nanos: secs * SEC }
}

#[test]
fn equal_values_are_unchanged() {
    let a = "x".to_string();
    let b = "x".to_string();
    let c = var_choice(SyncMode::PushAlways, Some(&a), Some(ts(100)), Some(&b), Some(ts(0)));
    assert_eq!(c, Choice::Skip(SkipReason::Unchanged));
}

#[test]
fn differing_values_follow_the_table() {
    let a = "x".to_string();
    let b = "y".to_string();
    assert_eq!(var_choice(SyncMode::Sync, Some(&a), Some(ts(1000)), Some(&b), Some(ts(0))), Choice::Push(ts(1000)));
    assert_eq!(var_choice(SyncMode::Sync, None, Some(ts(1000)), Some(&b), Some(ts(0))), Choice::Pull(ts(0)));
    assert_eq!(var_choice(SyncMode::Sync, Some(&a), Some(ts(1000)), None, None), Choice::Push(ts(1000)));
    assert_eq!(var_choice(SyncMode::Sync, None, Some(ts(1000)), None, None), Choice::Skip(SkipReason::NotFound));
}

#[test]
fn file_time_is_the_latest() {
    assert_eq!(new_file_modified(None, &[]), None);
    assert_eq!(new_file_modified(Some(ts(5)), &[]), Some(ts(5)));
    assert_eq!(new_file_modified(Some(ts(5)), &[ts(3), ts(9), ts(7)]), Some(ts(9)));
    assert_eq!(new_file_modified(Some(ts(50)), &[ts(3), ts(9)]), Some(ts(50)));
    assert_eq!(new_file_modified(None, &[ts(3), ts(2)]), Some(ts(3)));
}

#[test]
fn report_lines() {
    assert_eq!(report_line(Choice::Push(ts(0)), "A_B"), "<- PUSH: A_B");
    assert_eq!(report_line(Choice::Pull(ts(0)), "A_B"), "-> PULL: A_B");
    assert_eq!(report_line(Choice::Skip(SkipReason::PullDisabled), "C"), "   SKIP: C (pull disabled)");
}

#[test]
fn secret_names_swap_separators() {
    assert_eq!(secret_name("MY_SECRET_1"), "MY-SECRET-1");
    assert_eq!(var_name("MY-SECRET-1"), "MY_SECRET_1");
}

#[test]
fn blob_times() {
    assert_eq!(blob_modified(Some("1970-01-01T00:01:00Z"), None), Ok(ts(60)));
    assert_eq!(blob_modified(Some("2024-01-01T00:00:00Z"), Some(ts(1))), Ok(ts(1_704_067_200)));
    assert_eq!(blob_modified(Some("yesterday"), Some(ts(1))), Err(TimeError::Unparseable));
    assert_eq!(blob_modified(None, Some(ts(7))), Ok(ts(7)));
    assert_eq!(blob_modified(None, None), Err(TimeError::Missing));
}

#[test]
fn blob_name_templates() {
    let n = Some("data.json");
    let s = Some("data");
    let e = Some("json");
    assert_eq!(blob_name("#name#", n, s, e), Ok("data.json".to_string()));
    assert_eq!(blob_name("backup/#stem#-v1.#ext#", n, s, e), Ok("backup/data-v1.json".to_string()));
    assert_eq!(blob_name("plain", n, s, e), Ok("plain".to_string()));
    assert_eq!(blob_name("#name", n, s, e), Err(BlobNameError::Malformed));
    assert_eq!(blob_name("#size#", n, s, e), Err(BlobNameError::InvalidPlaceholder("size".to_string())));
    assert_eq!(blob_name("#ext#", Some("Makefile"), Some("Makefile"), None), Err(BlobNameError::MissingPart(PathPart::Ext)));
}

#[test]
fn repeated_blob_names() {
    let names: Vec<String> = ["a", "b", "a", "c", "a", "b"].iter().map(|s| s.to_string()).collect();
    assert_eq!(repeated_names(&names), vec!["a".to_string(), "b".to_string()]);
    let unique: Vec<String> = ["a", "b"].iter().map(|s| s.to_string()).collect();
    assert!(repeated_names(&unique).is_empty());
}

#[test]
fn confirmation_answers() {
    assert_eq!(answer("yes\n"), Answer::Yes);
    assert_eq!(answer("y \r\n"), Answer::Yes);
    assert_eq!(answer("no\n"), Answer::No);
    assert_eq!(answer("n"), Answer::No);
    assert_eq!(answer("maybe\n"), Answer::Unclear);
    assert_eq!(answer(" yes\n"), Answer::Unclear);
}

#[test]
fn url_sources() {
    assert_eq!(url_source("https"), UrlSource::Direct);
    assert_eq!(url_source("http"), UrlSource::Direct);
    assert_eq!(url_source("env"), UrlSource::Variable);
    assert_eq!(url_source("ftp"), UrlSource::Unsupported);
}

#[test]
fn dotenv_file_comes_before_process_environment() {
    let doc = DotenvFile::parse("URL=from-file\n").unwrap();
    let name = "URL".to_string();
    assert_eq!(lookup_var(&name, Some(&doc), Some("from-env".to_string())), Some("from-file".to_string()));
    let other = "OTHER".to_string();
    assert_eq!(lookup_var(&other, Some(&doc), Some("from-env".to_string())), Some("from-env".to_string()));
    assert_eq!(lookup_var(&other, None, None), None);
}

#[test]
fn log_levels() {
    assert_eq!(log_level(0), LogLevel::Info);
    assert_eq!(log_level(1), LogLevel::Info);
    assert_eq!(log_level(2), LogLevel::Debug);
    assert_eq!(log_level(3), LogLevel::Trace);
}
