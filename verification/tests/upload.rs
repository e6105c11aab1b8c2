use resume_matcher::upload::{
    has_suffix, plan_upload, DocumentKind, DEFAULT_FILE_NAME, PDF_SUFFIX, UPLOAD_DIRECTORY,
};

#[test]
fn a_pdf_is_known_by_its_ending() {
    let plan = plan_upload(Some("resume.pdf"));
    assert_eq!(plan.file_name, "resume.pdf");
    assert_eq!(plan.path, "/tmp/resume.pdf");
    assert_eq!(plan.kind, DocumentKind::Pdf);
}

#[test]
fn anything_else_is_plain_text() {
    for name in ["resume.txt", "resume", "resume.pdf.txt", "pdf", "resume.PDF", "resume.pdf "] {
        let plan = plan_upload(Some(name));
        assert_eq!(plan.file_name, name);
        assert_eq!(plan.path, format!("/tmp/{}", name));
        assert_eq!(plan.kind, DocumentKind::PlainText);
    }
}

#[test]
fn an_upload_without_a_name_gets_the_default() {
    let plan = plan_upload(None);
    assert_eq!(plan.file_name, "upload");
    assert_eq!(plan.path, "/tmp/upload");
    assert_eq!(plan.kind, DocumentKind::PlainText);
}

#[test]
fn the_ending_alone_is_a_pdf_name() {
    assert_eq!(plan_upload(Some(".pdf")).kind, DocumentKind::Pdf);
    assert_eq!(plan_upload(Some("")).kind, DocumentKind::PlainText);
    assert_eq!(plan_upload(Some("")).path, "/tmp/");
}

#[test]
fn names_beyond_ascii_are_measured_in_characters() {
    let plan = plan_upload(Some("履歴書.pdf"));
    assert_eq!(plan.kind, DocumentKind::Pdf);
    assert_eq!(plan.path, "/tmp/履歴書.pdf");
    assert_eq!(plan_upload(Some("résumé.pdf")).kind, DocumentKind::Pdf);
    assert_eq!(plan_upload(Some("pdf.履歴書")).kind, DocumentKind::PlainText);
}

#[test]
fn has_suffix_agrees_with_ends_with() {
    let texts = ["", "a", "ab", ".pdf", "x.pdf", "x.pdf.", "日本語", "本語", "語"];
    for text in texts.iter() {
        for suffix in texts.iter() {
            assert_eq!(has_suffix(text, suffix), text.ends_with(suffix));
        }
    }
}

#[test]
fn the_constants_are_as_documented() {
    assert_eq!(DEFAULT_FILE_NAME, "upload");
    assert_eq!(UPLOAD_DIRECTORY, "/tmp/");
    assert_eq!(PDF_SUFFIX, ".pdf");
}
