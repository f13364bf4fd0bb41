use pdf_pipeline::names::{
    bytes_eq, extension_is, html_extension, join_path, merged_output_name, pdf_extension,
    pdf_name_for,
};

fn b(s: &str) -> Vec<u8> {
    s.as_bytes().to_vec()
}

#[test]
fn extension_is_html_on_plain_name() {
    assert!(extension_is(&b("report.html"), &b("html")));
    assert!(!extension_is(&b("report.html"), &b("pdf")));
}

#[test]
fn extension_takes_the_last_dot() {
    assert!(extension_is(&b("a.b.html"), &b("html")));
    assert!(!extension_is(&b("a.html.txt"), &b("html")));
}

#[test]
fn leading_dot_is_no_extension() {
    assert!(!extension_is(&b(".html"), &b("html")));
    assert!(extension_is(&b(".a.html"), &b("html")));
}

#[test]
fn trailing_dot_gives_empty_extension() {
    assert!(extension_is(&b("name."), &b("")));
    assert!(!extension_is(&b("name."), &b("html")));
}

#[test]
fn no_dot_means_no_extension() {
    assert!(!extension_is(&b("README"), &b("")));
    assert!(!extension_is(&b("README"), &b("html")));
}

#[test]
fn pdf_name_replaces_extension() {
    assert_eq!(pdf_name_for(&b("report.html")), b("report.pdf"));
    assert_eq!(pdf_name_for(&b("a.b.html")), b("a.b.pdf"));
}

#[test]
fn pdf_name_appends_when_no_extension() {
    assert_eq!(pdf_name_for(&b("README")), b("README.pdf"));
    assert_eq!(pdf_name_for(&b(".html")), b(".html.pdf"));
}

#[test]
fn fixed_names_have_their_bytes() {
    assert_eq!(html_extension(), b("html"));
    assert_eq!(pdf_extension(), b("pdf"));
    assert_eq!(merged_output_name(), b("merged_output.pdf"));
}

#[test]
fn bytes_eq_compares_contents() {
    assert!(bytes_eq(&b("a.pdf"), &b("a.pdf")));
    assert!(!bytes_eq(&b("a.pdf"), &b("b.pdf")));
    assert!(!bytes_eq(&b("a.pdf"), &b("a.pdf2")));
}

#[test]
fn join_path_inserts_one_slash() {
    assert_eq!(join_path(&b("docs"), &b("a.html")), b("docs/a.html"));
    assert_eq!(join_path(&b(""), &b("a.html")), b("/a.html"));
}
