use crate::element::{Element, ElementBuilder, Node};
use vstd::prelude::*;
use vstd::string::StringExecFns;

verus! {

/// The version that a document declares.
#[derive(Debug, Clone, Copy, PartialEq, Eq, Structural)]
pub enum XmlVersion {
    /// Version 1.0.
    Version10,
    /// Version 1.1.
    Version11,
}

/// A document: its root element, if it has one, and what its declaration says.
pub struct ElementTree {
    /// The root element.
    pub root: Option<Element>,
    /// The declared version.
    pub version: XmlVersion,
    /// The declared encoding.
    pub encoding: String,
}

impl ElementTree {
    /// The node of the root, if the document has a root.
    pub open spec fn root_node(self) -> Option<Node> {
        match self.root {
            Some(root) => Some(root@),
            None => None,
        }
    }

    /// A document without a root, of version 1.0 in UTF-8.
    pub fn new() -> (tree: ElementTree)
        ensures
            tree.root is None,
            tree.version == XmlVersion::Version10,
            tree.encoding@ == "UTF-8"@,
    {
        ElementTree { root: None, version: XmlVersion::Version10, encoding: String::from_str("UTF-8") }
    }

    /// A document of version 1.0 in UTF-8 whose root is the element that `root` has built.
    pub fn new_with_root(root: ElementBuilder) -> (tree: ElementTree)
        ensures
            tree.root_node() == Some(root@),
            tree.version == XmlVersion::Version10,
            tree.encoding@ == "UTF-8"@,
    {
        ElementTree {
            root: Some(root.element()),
            version: XmlVersion::Version10,
            encoding: String::from_str("UTF-8"),
        }
    }

    /// Whether the document has no root.
    pub fn check_blank_tree(&self) -> (blank: bool)
        ensures
            blank == (self.root is None),
    {
        self.root.is_none()
    }

    /// A copy of the root, if the document has a root.
    pub fn get_root(&self) -> (root: Option<Element>)
        ensures
            match root {
                Some(copy) => self.root_node() == Some(copy@),
                None => self.root is None,
            },
    {
        match &self.root {
            Some(root) => Some(root.clone()),
            None => None,
        }
    }
}

impl Default for ElementTree {
    /// A document without a root, of version 1.0 in UTF-8.
    fn default() -> (tree: ElementTree)
        ensures
            tree.root is None,
            tree.version == XmlVersion::Version10,
            tree.encoding@ == "UTF-8"@,
    {
        ElementTree::new()
    }
}

} // verus!
