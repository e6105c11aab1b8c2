//! What is decided about an uploaded document before anything is done with
//! it: the name it goes by, where it is kept, and how it becomes text.

use crate::lexical::{lex_order, Order};
use vstd::prelude::*;
use vstd::string::{StrSliceExecFns, StringExecFns};

verus! {

/// The name given to an upload that came without one.
pub const DEFAULT_FILE_NAME: &'static str = "upload";

/// The directory in which uploads are kept, with the separator behind it.
pub const UPLOAD_DIRECTORY: &'static str = "/tmp/";

/// The ending by which a PDF document is known.
pub const PDF_SUFFIX: &'static str = ".pdf";

/// How the bytes of a document become text.
#[derive(Clone, Copy, Debug, PartialEq, Eq, Structural)]
pub enum DocumentKind {
    /// A PDF: its text has to be taken out by a converter.
    Pdf,
    /// Anything else: the bytes are the text.
    PlainText,
}

/// What to do with an upload.
#[derive(Clone, Debug)]
pub struct UploadPlan {
    /// The name the document goes by.
    pub file_name: String,
    /// The path under which its bytes are kept.
    pub path: String,
    /// How its text is obtained.
    pub kind: DocumentKind,
}

/// `text` ends with `suffix`.
pub open spec fn ends_with(text: Seq<char>, suffix: Seq<char>) -> bool {
    suffix.len() <= text.len() && text.skip(text.len() - suffix.len()) == suffix
}

/// The name an upload goes by: its own, or the default where it has none.
pub open spec fn name_of(given: Option<Seq<char>>) -> Seq<char> {
    match given {
        Some(name) => name,
        None => DEFAULT_FILE_NAME@,
    }
}

/// The kind of the document with this name.
pub open spec fn kind_of(file_name: Seq<char>) -> DocumentKind {
    if ends_with(file_name, PDF_SUFFIX@) {
        DocumentKind::Pdf
    } else {
        DocumentKind::PlainText
    }
}

/// Whether `text` ends with `suffix`.
pub fn has_suffix(text: &str, suffix: &str) -> (r: bool)
    ensures
        r == ends_with(text@, suffix@),
{
    let length = text.unicode_len();
    let wanted = suffix.unicode_len();
    if wanted > length {
        return false;
    }
    let end = text.substring_char(length - wanted, length);
    assert(text@.skip(length - wanted) =~= text@.subrange(length - wanted, length as int));
    match lex_order(end, suffix) {
        Order::Same => true,
        _ => false,
    }
}

/// Plans what to do with an upload that came under `file_name`.
pub fn plan_upload(file_name: Option<&str>) -> (plan: UploadPlan)
    ensures
        plan.file_name@ == name_of(
            match file_name {
                Some(name) => Some(name@),
                None => None,
            },
        ),
        plan.path@ == UPLOAD_DIRECTORY@ + plan.file_name@,
        plan.kind == kind_of(plan.file_name@),
{
    let name = match file_name {
        Some(name) => name,
        None => DEFAULT_FILE_NAME,
    };
    let kind = if has_suffix(name, PDF_SUFFIX) {
        DocumentKind::Pdf
    } else {
        DocumentKind::PlainText
    };
    UploadPlan {
        file_name: String::from_str(name),
        path: String::from_str(UPLOAD_DIRECTORY).concat(name),
        kind,
    }
}

} // verus!
