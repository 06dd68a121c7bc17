use vstd::prelude::*;
use vstd::string::StringExecFns;

verus! {

/// Why a path query failed.
#[derive(Debug, Clone, Copy, PartialEq, Eq, Structural)]
pub enum Error {
    /// No lexical rule matched at the cursor.
    Token,
    /// The steps break a structural rule of the path language.
    XPath,
    /// A namespace lookup met a node without a prefix.
    NoNamespace,
    /// A closing bracket met no open bracket.
    XPathOpenBracket,
}

impl Error {
    /// The text shown for this error.
    pub open spec fn message_text(self) -> Seq<char> {
        match self {
            Error::Token => "Invalid Token"@,
            Error::XPath => "Incorrect path"@,
            Error::NoNamespace => "No Namespace"@,
            Error::XPathOpenBracket => "No matching open bracket"@,
        }
    }

    pub fn message(&self) -> (text: String)
        ensures
            text@ == self.message_text(),
    {
        match self {
            Error::Token => String::from_str("Invalid Token"),
            Error::XPath => String::from_str("Incorrect path"),
            Error::NoNamespace => String::from_str("No Namespace"),
            Error::XPathOpenBracket => String::from_str("No matching open bracket"),
        }
    }
}

/// Why a lookup by tag names failed.
#[derive(Debug, PartialEq, Eq)]
pub enum XmlErrors {
    /// No element lies at the end of the given tag names.
    ElementNotFound { t: String },
    /// The element's text is not a value of the wanted type.
    ValueFromStr { t: String },
    /// The events of a document end, or close another element, while the element `t` is open.
    UnclosedElement { t: String },
}

impl XmlErrors {
    /// The text shown for this error.
    pub open spec fn message_text(self) -> Seq<char> {
        match self {
            XmlErrors::ElementNotFound { t } => "Element '"@ + t@ + "' not found"@,
            XmlErrors::ValueFromStr { t } => "Value '"@ + t@ + "' cannot be parsed"@,
            XmlErrors::UnclosedElement { t } => "Element '"@ + t@ + "' is not closed"@,
        }
    }

    pub fn message(&self) -> (text: String)
        ensures
            text@ == self.message_text(),
    {
        match self {
            XmlErrors::ElementNotFound { t } => {
                String::from_str("Element '").concat(t.as_str()).concat("' not found")
            },
            XmlErrors::ValueFromStr { t } => {
                String::from_str("Value '").concat(t.as_str()).concat("' cannot be parsed")
            },
            XmlErrors::UnclosedElement { t } => {
                String::from_str("Element '").concat(t.as_str()).concat("' is not closed")
            },
        }
    }
}

} // verus!
