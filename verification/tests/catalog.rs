use gravity_sync::adlists::{parse_catalog, AdList};
use gravity_sync::SyncError;

fn entry(c: &str, t: &str, r: &str, d: &str, u: &str) -> AdList {
    AdList {
        category: c.to_string(),
        tick_type: t.to_string(),
        source_repo: r.to_string(),
        description: d.to_string(),
        source_url: u.to_string(),
    }
}

#[test]
fn get_comment_format() {
    let a = entry("Malware", "tick", "r1", "List A", "http://x/a.txt");
    assert_eq!(a.get_comment(), "[tick][Malware] List A");
}

#[test]
fn get_comment_empty_fields() {
    let a = entry("", "", "", "", "");
    assert_eq!(a.get_comment(), "[][] ");
}

#[test]
fn parse_quoted_row() {
    let text = "\"Malware\",\"tick\",\"r1\",\"List A\",\"http://x/a.txt\"\n";
    let v = parse_catalog(text).unwrap();
    assert_eq!(v.len(), 1);
    assert_eq!(v[0].category, "Malware");
    assert_eq!(v[0].tick_type, "tick");
    assert_eq!(v[0].source_repo, "r1");
    assert_eq!(v[0].description, "List A");
    assert_eq!(v[0].source_url, "http://x/a.txt");
}

#[test]
fn parse_unquoted_rows_keep_order() {
    let v = parse_catalog("a,b,c,d,e\nf,g,h,i,j\n").unwrap();
    assert_eq!(v.len(), 2);
    assert_eq!(v[0].category, "a");
    assert_eq!(v[1].category, "f");
    assert_eq!(v[1].source_url, "j");
}

#[test]
fn parse_escaped_quote() {
    let v = parse_catalog("\"a\"\"b\",x,y,z,w\n").unwrap();
    assert_eq!(v.len(), 1);
    assert_eq!(v[0].category, "a\"b");
}

#[test]
fn parse_comma_inside_quotes() {
    let v = parse_catalog("\"a,b\",c,d,e,f\n").unwrap();
    assert_eq!(v.len(), 1);
    assert_eq!(v[0].category, "a,b");
    assert_eq!(v[0].tick_type, "c");
}

#[test]
fn parse_crlf_and_blank_lines() {
    let v = parse_catalog("a,b,c,d,e\r\n\r\nf,g,h,i,j").unwrap();
    assert_eq!(v.len(), 2);
    assert_eq!(v[1].category, "f");
}

#[test]
fn parse_missing_trailing_newline() {
    let v = parse_catalog("a,b,c,d,e").unwrap();
    assert_eq!(v.len(), 1);
    assert_eq!(v[0].source_url, "e");
}

#[test]
fn parse_empty_text() {
    let v = parse_catalog("").unwrap();
    assert_eq!(v.len(), 0);
}

#[test]
fn parse_empty_fields() {
    let v = parse_catalog(",,,,\n").unwrap();
    assert_eq!(v.len(), 1);
    assert_eq!(v[0].category, "");
    assert_eq!(v[0].source_url, "");
}

#[test]
fn parse_error_unterminated_quote() {
    assert_eq!(parse_catalog("\"abc").unwrap_err(), SyncError::ParseError);
}

#[test]
fn parse_error_stray_text_after_quote() {
    assert_eq!(parse_catalog("\"a\"b,c,d,e,f\n").unwrap_err(), SyncError::ParseError);
}

#[test]
fn parse_error_wrong_field_count() {
    assert_eq!(parse_catalog("a,b,c\n").unwrap_err(), SyncError::ParseError);
    assert_eq!(parse_catalog("a,b,c,d,e,f\n").unwrap_err(), SyncError::ParseError);
}
