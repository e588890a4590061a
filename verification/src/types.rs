//! Types exchanged with the external tree-construction algorithm.
//!
//! The insertion-mode state machine itself is outside this library; these
//! types describe the protocol it drives: its states, the tokens it consumes,
//! the result of one processing step, and where a node is to be inserted.

use vstd::prelude::*;

use crate::node::Attribute;
use crate::sink::Handle;

verus! {

/// The states of the HTML5 tree-construction state machine.
#[derive(PartialEq, Eq, Structural, Clone, Copy, Debug)]
pub enum InsertionMode {
    Initial,
    BeforeHtml,
    BeforeHead,
    InHead,
    InHeadNoscript,
    AfterHead,
    InBody,
    Text,
    InTable,
    InTableText,
    InCaption,
    InColumnGroup,
    InTableBody,
    InRow,
    InCell,
    InSelect,
    InSelectInTable,
    InTemplate,
    AfterBody,
    InFrameset,
    AfterFrameset,
    AfterAfterBody,
    AfterAfterFrameset,
}

/// Whether a character run has been split around whitespace yet.
#[derive(PartialEq, Eq, Structural, Clone, Copy, Debug)]
pub enum SplitStatus {
    NotSplit,
    Whitespace,
    NotWhitespace,
}

/// A start or end tag as handed to the tree-construction step.
pub struct Tag {
    /// `true` for an end tag, `false` for a start tag.
    pub is_end: bool,
    pub name: String,
    pub self_closing: bool,
    pub attrs: Vec<Attribute>,
}

/// A token as presented to the tree-construction step.
pub enum Token {
    TagToken(Tag),
    CommentToken(String),
    CharacterTokens(SplitStatus, String),
    NullCharacterToken,
    EOFToken,
}

/// What one step of the external algorithm asks its caller to do next.
pub enum ProcessResult {
    Done,
    DoneAckSelfClosing,
    SplitWhitespace(String),
    Reprocess(InsertionMode, Token),
}

/// An entry on the external algorithm's list of active formatting elements.
pub enum FormatEntry {
    Element(Handle, Tag),
    Marker,
}

/// Where a node is to be inserted.
pub enum InsertionPoint {
    /// Append under this parent.
    Append(Handle),
    /// Insert before this sibling.
    BeforeSibling(Handle),
}

} // verus!
