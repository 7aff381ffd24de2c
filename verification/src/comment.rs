//! The comment state of a document under scan: which lines are live and
//! which stand inside a comment.
//!
//! There are two kinds of comment. A block comment runs from a line `////`
//! to the next such line. A section comment starts at a line `[comment]`; it
//! ends at the next blank line, or, where a line `--` opens a fenced block in
//! it, at the line `--` that closes the block. The two kinds are tracked
//! independently, and a line is suppressed while either is active.

use crate::text::same_text;
use vstd::prelude::*;

verus! {

/// The line that opens and closes a block comment: `////`.
pub open spec fn block_marker() -> Seq<char> {
    "////"@
}

/// The line that starts a section comment: `[comment]`.
pub open spec fn section_marker() -> Seq<char> {
    "[comment]"@
}

/// The line that opens and closes the fenced block of a section comment:
/// `--`.
pub open spec fn fence_marker() -> Seq<char> {
    "--"@
}

/// Where a scan stands with respect to comments.
#[derive(Clone, Copy, Debug, PartialEq, Eq, Structural)]
pub struct CommentState {
    /// Inside a block comment.
    pub block: bool,
    /// Inside a section comment.
    pub section: bool,
    /// Inside the fenced block of a section comment.
    pub section_block: bool,
}

impl CommentState {
    /// The state at the start of a document: outside any comment.
    pub open spec fn start() -> CommentState {
        CommentState { block: false, section: false, section_block: false }
    }

    /// A fenced block is only ever open inside a section comment.
    pub open spec fn is_well_formed(self) -> bool {
        self.section_block ==> self.section
    }

    /// Whether a line is suppressed in this state.
    pub open spec fn in_comment(self) -> bool {
        self.block || self.section
    }

    /// Whether the trimmed line `line` is read as a comment marker in this
    /// state, that is, whether it opens or closes a comment region.
    pub open spec fn is_marker(self, line: Seq<char>) -> bool {
        ||| line == block_marker()
        ||| line == section_marker()
        ||| self.section && line == fence_marker()
        ||| self.section && !self.section_block && line.len() == 0
    }

    /// The state after the trimmed line `line`.
    pub open spec fn after(self, line: Seq<char>) -> CommentState {
        if line == block_marker() {
            CommentState {
                block: !self.block,
                section: self.section,
                section_block: self.section_block,
            }
        } else if line == section_marker() {
            CommentState { block: self.block, section: true, section_block: self.section_block }
        } else if self.section && line == fence_marker() {
            if !self.section_block {
                CommentState { block: self.block, section: true, section_block: true }
            } else {
                CommentState { block: self.block, section: false, section_block: false }
            }
        } else if self.section && !self.section_block && line.len() == 0 {
            CommentState { block: self.block, section: false, section_block: false }
        } else {
            self
        }
    }

    /// Whether the trimmed line `line`, met in this state, is live: it is
    /// no comment marker, and no comment is active once it has been taken
    /// into account.
    pub open spec fn is_live(self, line: Seq<char>) -> bool {
        !self.is_marker(line) && !self.after(line).in_comment()
    }

    /// The state at the start of a document.
    pub fn new() -> (s: CommentState)
        ensures
            s == CommentState::start(),
            s.is_well_formed(),
    {
        CommentState { block: false, section: false, section_block: false }
    }

    /// Takes one trimmed line into account: returns the state after it, and
    /// whether the line is live.
    pub fn classify(&self, line: &str) -> (r: (CommentState, bool))
        ensures
            r.0 == self.after(line@),
            r.1 == self.is_live(line@),
            self.is_well_formed() ==> r.0.is_well_formed(),
    {
        let mut next = *self;
        let mut marker = true;
        if same_text(line, "////") {
            next.block = !next.block;
        } else if same_text(line, "[comment]") {
            next.section = true;
        } else if next.section && same_text(line, "--") {
            if !next.section_block {
                next.section_block = true;
            } else {
                next.section_block = false;
                next.section = false;
            }
        } else if next.section && !next.section_block && line.is_empty() {
            next.section = false;
        } else {
            marker = false;
        }
        let live = !marker && !(next.block || next.section);
        (next, live)
    }
}

/// Being well formed is kept by every line.
pub proof fn lemma_after_keeps_well_formed(s: CommentState, line: Seq<char>)
    requires
        s.is_well_formed(),
    ensures
        s.after(line).is_well_formed(),
{
}

/// Block and section comments do not disturb each other: a line changes
/// the block flag only where it is the block marker, and then it changes
/// nothing else.
pub proof fn lemma_comment_kinds_independent(s: CommentState, line: Seq<char>)
    ensures
        s.after(line).block == (if line == block_marker() {
            !s.block
        } else {
            s.block
        }),
        line == block_marker() ==> s.after(line).section == s.section && s.after(
            line,
        ).section_block == s.section_block,
{
}

/// Inside a block comment nothing is live but what leaves it, and that is
/// the marker itself: while the block flag is set, no line is live.
pub proof fn lemma_block_comment_suppresses(s: CommentState, line: Seq<char>)
    requires
        s.block,
    ensures
        !s.is_live(line),
{
}

/// Outside any comment, every line that is no marker is live and leaves the
/// state as it was.
pub proof fn lemma_plain_line_is_live(s: CommentState, line: Seq<char>)
    requires
        !s.in_comment(),
        line != block_marker(),
        line != section_marker(),
    ensures
        s.is_live(line),
        s.after(line) == s,
{
}

} // verus!
