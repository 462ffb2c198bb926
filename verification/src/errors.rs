//! The errors of reading and writing books.
use vstd::prelude::*;
use crate::text::{push_str, starts_with};

verus! {

/// The I/O error type of the standard library.
#[verifier::external_type_specification]
#[verifier::external_body]
pub struct ExIoError(std::io::Error);

/// The error type of the `roxmltree` crate.
#[verifier::external_type_specification]
#[verifier::external_body]
pub struct ExXmlError(roxmltree::Error);

/// Everything that can go wrong when reading or writing a book.
#[derive(Debug)]
pub enum EpubError {
    Zip(zip::result::ZipError),
    Xml(roxmltree::Error),
    InvalidMimetype(String),
    MissingContainer,
    MissingRootfile,
    MissingOpf(String),
    InvalidOpf(String),
    ItemNotFound(String),
    Io(std::io::Error),
    WriteError(String),
    MissingIdentifier,
    MissingTitle,
    MissingLanguage,
    EmptySpine,
}

/// The message of a ZIP error: its `Display` text (`ToString::to_string`).
#[verifier::external_body]
fn zip_error_text(e: &zip::result::ZipError) -> String {
    e.to_string()
}

/// The message of an XML error: its `Display` text (`ToString::to_string`).
#[verifier::external_body]
pub(crate) fn xml_error_text(e: &roxmltree::Error) -> String {
    e.to_string()
}

/// The message of an I/O error: its `Display` text (`ToString::to_string`).
#[verifier::external_body]
fn io_error_text(e: &std::io::Error) -> String {
    e.to_string()
}

/// The message of an error that carries no error of another crate.
pub open spec fn plain_message(e: EpubError) -> Option<Seq<char>> {
    match e {
        EpubError::InvalidMimetype(m) => Some("Invalid mimetype: "@ + m@),
        EpubError::MissingContainer => Some("Missing META-INF/container.xml"@),
        EpubError::MissingRootfile => Some("No rootfile found in container.xml"@),
        EpubError::MissingOpf(p) => Some("OPF file not found in archive: "@ + p@),
        EpubError::InvalidOpf(m) => Some("Invalid OPF: "@ + m@),
        EpubError::ItemNotFound(id) => Some("Item not found: "@ + id@),
        EpubError::WriteError(m) => Some("Write error: "@ + m@),
        EpubError::MissingIdentifier => Some("Book must have an identifier set"@),
        EpubError::MissingTitle => Some("Book must have a title set"@),
        EpubError::MissingLanguage => Some("Book must have a language set"@),
        EpubError::EmptySpine => Some("Book must have at least one spine entry"@),
        _ => None,
    }
}

impl EpubError {
    /// The human-readable message of the error. An error of another crate
    /// is described after a prefix naming its kind.
    pub fn message(&self) -> (res: String)
        ensures
            plain_message(*self) matches Some(m) ==> res@ == m,
            self is Zip ==> starts_with(res@, "ZIP error: "@),
            self is Xml ==> starts_with(res@, "XML parsing error: "@),
            self is Io ==> starts_with(res@, "IO error: "@),
    {
        let (prefix, rest): (&str, String) = match self {
            EpubError::Zip(e) => ("ZIP error: ", zip_error_text(e)),
            EpubError::Xml(e) => ("XML parsing error: ", xml_error_text(e)),
            EpubError::InvalidMimetype(m) => ("Invalid mimetype: ", m.as_str().to_owned()),
            EpubError::MissingContainer => ("Missing META-INF/container.xml", String::new()),
            EpubError::MissingRootfile => ("No rootfile found in container.xml", String::new()),
            EpubError::MissingOpf(p) => ("OPF file not found in archive: ", p.as_str().to_owned()),
            EpubError::InvalidOpf(m) => ("Invalid OPF: ", m.as_str().to_owned()),
            EpubError::ItemNotFound(id) => ("Item not found: ", id.as_str().to_owned()),
            EpubError::Io(e) => ("IO error: ", io_error_text(e)),
            EpubError::WriteError(m) => ("Write error: ", m.as_str().to_owned()),
            EpubError::MissingIdentifier => ("Book must have an identifier set", String::new()),
            EpubError::MissingTitle => ("Book must have a title set", String::new()),
            EpubError::MissingLanguage => ("Book must have a language set", String::new()),
            EpubError::EmptySpine => ("Book must have at least one spine entry", String::new()),
        };
        let mut s = prefix.to_owned();
        push_str(&mut s, rest.as_str());
        proof {
            assert(s@.subrange(0, prefix@.len() as int) =~= prefix@);
        }
        s
    }
}

} // verus!
