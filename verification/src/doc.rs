//! Scanning one document: its revision date, its images directory, and its
//! content as it will stand in the assembled calendar.
//!
//! A document is scanned line by line. Each line is trimmed and classified
//! as live or as part of a comment. Only live lines are searched for
//! directives; every line, live or not, goes into the content. A document
//! that pulls in another file is left out of the calendar altogether.

use crate::comment::CommentState;
use crate::date::{date_error_text, is_date_token, token_date, try_parse_date_with_prefix, Date};
use crate::error::{error_with_file_and_line, with_file_and_line, Error};
use crate::path::{
    is_relative,
    is_relative_path,
    join,
    joined,
    lemma_joined_holds,
    lemma_parent_dir,
    parent,
    parent_dir,
};
use crate::text::{
    bom,
    forward_slashed,
    is_whitespace,
    lemma_forward_slashed,
    lemma_trimmed_is_the_core,
    starts_with,
    strip_bom,
    strip_prefix,
    to_forward_slashes,
    trim,
    trimmed,
    without_bom,
};
use vstd::prelude::*;

verus! {

/// A scanned document.
#[derive(Clone, Debug)]
pub struct Doc {
    /// The path of the file, which names the document.
    pub path: String,
    /// The first revision date found in a live line, if any.
    pub revdate: Option<Date>,
    /// The images directory that the first live line to set one sets, as
    /// written there, if any.
    pub imagesdir: Option<String>,
    /// The lines of the file, each ended by a line feed, with the byte-order
    /// mark dropped and relative images directories rewritten.
    pub content: String,
}

/// What a `Doc` holds, as plain values.
pub struct DocView {
    pub path: Seq<char>,
    pub revdate: Option<Date>,
    pub imagesdir: Option<Seq<char>>,
    pub content: Seq<char>,
}

impl DocView {
    /// Whether the document sets an images directory.
    pub open spec fn has_imagesdir(self) -> bool {
        self.imagesdir is Some
    }
}

impl View for Doc {
    type V = DocView;

    open spec fn view(&self) -> DocView {
        DocView {
            path: self.path@,
            revdate: self.revdate,
            imagesdir: match self.imagesdir {
                Some(dir) => Some(dir@),
                None => None,
            },
            content: self.content@,
        }
    }
}

impl Doc {
    /// Whether the document sets an images directory.
    pub fn has_imagesdir(&self) -> (r: bool)
        ensures
            r == self@.has_imagesdir(),
    {
        self.imagesdir.is_some()
    }
}

/// The directive that pulls in another file: `include::`.
pub open spec fn include_directive() -> Seq<char> {
    "include::"@
}

/// The directive that sets the revision date: `:revdate: `.
pub open spec fn revdate_directive() -> Seq<char> {
    ":revdate: "@
}

/// The directive that sets the images directory: `:imagesdir: `.
pub open spec fn imagesdir_directive() -> Seq<char> {
    ":imagesdir: "@
}

/// What follows `directive` in `line`, where `line` begins with it.
pub open spec fn directive_value(directive: Seq<char>, line: Seq<char>) -> Option<Seq<char>> {
    if directive.is_prefix_of(line) {
        Some(line.skip(directive.len() as int))
    } else {
        None
    }
}

/// The line that sets the images directory of the document at `path` to
/// `dir`, a directory relative to that document, so that it is found from
/// where the calendar stands.
pub open spec fn rewritten_imagesdir(path: Seq<char>, dir: Seq<char>) -> Seq<char> {
    imagesdir_directive() + forward_slashed(joined(parent_dir(path), dir)) + "\n"@
}

/// What the line `raw` of the document at `path` adds to its content: the
/// line without a byte-order mark at its start, a line feed, and, where the
/// line is live and sets a relative images directory, the line that
/// rewrites it.
pub open spec fn line_content(path: Seq<char>, raw: Seq<char>, live: bool) -> Seq<char> {
    let plain = without_bom(raw) + "\n"@;
    match directive_value(imagesdir_directive(), trimmed(raw)) {
        Some(dir) if live && is_relative(dir) => plain + rewritten_imagesdir(path, dir),
        _ => plain,
    }
}

/// A scan in progress.
pub struct Scan {
    pub comments: CommentState,
    pub doc: DocView,
}

/// What a line does to a scan.
pub enum LineOutcome {
    /// The scan goes on, in this state.
    Next(Scan),
    /// The document pulls in another file and is to be left out.
    Skip,
    /// The line sets a revision date that is no date; it holds the token.
    BadDate(Seq<char>),
}

impl Scan {
    /// The scan of the document at `path`, before its first line.
    pub open spec fn start(path: Seq<char>) -> Scan {
        Scan {
            comments: CommentState::start(),
            doc: DocView { path, revdate: None, imagesdir: None, content: Seq::empty() },
        }
    }

    /// What the line `raw` does to this scan.
    pub open spec fn line(self, raw: Seq<char>) -> LineOutcome {
        let line = trimmed(raw);
        let live = self.comments.is_live(line);
        let date = directive_value(revdate_directive(), line);
        let dir = directive_value(imagesdir_directive(), line);
        if live && include_directive().is_prefix_of(line) {
            LineOutcome::Skip
        } else if live && self.doc.revdate is None && date is Some && !is_date_token(date->0) {
            LineOutcome::BadDate(date->0)
        } else {
            LineOutcome::Next(
                Scan {
                    comments: self.comments.after(line),
                    doc: DocView {
                        path: self.doc.path,
                        revdate: if live && self.doc.revdate is None && date is Some {
                            Some(token_date(date->0))
                        } else {
                            self.doc.revdate
                        },
                        imagesdir: if live && self.doc.imagesdir is None {
                            dir
                        } else {
                            self.doc.imagesdir
                        },
                        content: self.doc.content + line_content(self.doc.path, raw, live),
                    },
                },
            )
        }
    }

    /// What the reads `lines[from..]` make of this scan: the first read
    /// that failed, the first line that ends the scan, or else the document
    /// as it stands after the last line. A failure is tagged with the path
    /// and the number of its line.
    pub open spec fn run(self, lines: Seq<Result<Seq<char>, Seq<char>>>, from: int) -> Result<
        Option<DocView>,
        Seq<char>,
    >
        decreases lines.len() - from,
    {
        if from < 0 || from >= lines.len() {
            Ok(Some(self.doc))
        } else {
            match lines[from] {
                Err(cause) => Err(with_file_and_line(self.doc.path, from as nat, cause)),
                Ok(raw) => match self.line(raw) {
                    LineOutcome::Skip => Ok(None),
                    LineOutcome::BadDate(token) => Err(
                        with_file_and_line(self.doc.path, from as nat, date_error_text(token)),
                    ),
                    LineOutcome::Next(next) => next.run(lines, from + 1),
                },
            }
        }
    }
}

/// The document that the reads `lines` of the file at `path` make, `None`
/// where it is to be left out, or the message of the failure.
pub open spec fn extracted(path: Seq<char>, lines: Seq<Result<Seq<char>, Seq<char>>>) -> Result<
    Option<DocView>,
    Seq<char>,
> {
    Scan::start(path).run(lines, 0)
}

/// The scanner of one document: the comment state and the document so far.
#[derive(Debug)]
pub struct Scanner {
    pub comments: CommentState,
    pub doc: Doc,
}

impl View for Scanner {
    type V = Scan;

    open spec fn view(&self) -> Scan {
        Scan { comments: self.comments, doc: self.doc@ }
    }
}

/// What a line did to a scanner.
#[derive(Debug)]
pub enum Step {
    /// The scan goes on with this scanner.
    Next(Scanner),
    /// The document pulls in another file and is to be left out.
    Skip,
    /// The line sets a revision date that is no date.
    BadDate(Error),
}

impl Scanner {
    /// A scanner for the document at `path`, before its first line.
    pub fn new(path: &str) -> (s: Scanner)
        ensures
            s@ == Scan::start(path@),
    {
        Scanner {
            comments: CommentState::new(),
            doc: Doc {
                path: String::from_str(path),
                revdate: None,
                imagesdir: None,
                content: String::new(),
            },
        }
    }

    /// Scans the line `raw`, given as it was read, without its line end.
    pub fn feed(self, raw: &str) -> (r: Step)
        ensures
            match r {
                Step::Next(next) => self@.line(raw@) == LineOutcome::Next(next@),
                Step::Skip => self@.line(raw@) == LineOutcome::Skip,
                Step::BadDate(e) => self@.line(raw@) is BadDate && e@ == date_error_text(
                    self@.line(raw@)->BadDate_0,
                ),
            },
    {
        let mut this = self;
        let line = trim(raw);
        let (comments, live) = this.comments.classify(line);
        let mut imagesdir: Option<&str> = None;
        if live {
            if starts_with(line, "include::") {
                return Step::Skip;
            }
            if this.doc.revdate.is_none() {
                match try_parse_date_with_prefix(line, ":revdate: ") {
                    Err(e) => {
                        return Step::BadDate(e);
                    },
                    Ok(Some(date)) => {
                        this.doc.revdate = Some(date);
                    },
                    Ok(None) => {},
                }
            }
            imagesdir = strip_prefix(line, ":imagesdir: ");
        }
        this.comments = comments;
        this.doc.content.append(strip_bom(raw));
        this.doc.content.append("\n");
        if let Some(dir) = imagesdir {
            if this.doc.imagesdir.is_none() {
                this.doc.imagesdir = Some(String::from_str(dir));
            }
            if is_relative_path(dir) {
                let target = join(parent(this.doc.path.as_str()), dir);
                let shown = to_forward_slashes(target.as_str());
                this.doc.content.append(":imagesdir: ");
                this.doc.content.append(shown.as_str());
                this.doc.content.append("\n");
            }
        }
        proof {
            assert(this.doc.content@ =~= self.doc.content@ + line_content(
                self.doc.path@,
                raw@,
                live,
            ));
        }
        Step::Next(this)
    }

    /// The document as it stands.
    pub fn finish(self) -> (d: Doc)
        ensures
            d@ == self@.doc,
    {
        self.doc
    }
}

/// The reads of a file's lines, over plain values.
pub open spec fn reads_view(lines: Seq<Result<String, Error>>) -> Seq<
    Result<Seq<char>, Seq<char>>,
> {
    lines.map_values(
        |read: Result<String, Error>|
            match read {
                Ok(line) => Ok(line@),
                Err(cause) => Err(cause@),
            },
    )
}

/// What came of a file, over plain values.
pub open spec fn extract_view(r: Result<Option<Doc>, Error>) -> Result<
    Option<DocView>,
    Seq<char>,
> {
    match r {
        Ok(Some(doc)) => Ok(Some(doc@)),
        Ok(None) => Ok(None),
        Err(e) => Err(e@),
    }
}

/// Scans the file at `path`, given the reads of its lines in order: each
/// the line as read, without its line end, or the failure to read it.
///
/// The lines are taken in order until one ends the scan: a read that
/// failed or a live line with a revision date that is no date are errors,
/// tagged with `path` and the number of the line; a live line that pulls in
/// another file leaves the document out, which gives `None`. Else the
/// result is the document that all the lines make.
pub fn get_doc(path: &str, lines: &Vec<Result<String, Error>>) -> (r: Result<Option<Doc>, Error>)
    ensures
        extract_view(r) == extracted(path@, reads_view(lines@)),
{
    let ghost reads = reads_view(lines@);
    let mut scanner = Scanner::new(path);
    let mut i: usize = 0;
    while i < lines.len()
        invariant
            i <= lines.len(),
            reads == reads_view(lines@),
            scanner@.doc.path == path@,
            scanner@.run(reads, i as int) == extracted(path@, reads),
        decreases lines.len() - i,
    {
        match &lines[i] {
            Err(cause) => {
                let cause = Error { text: cause.text.clone() };
                return Err(error_with_file_and_line(path, i, cause));
            },
            Ok(raw) => {
                match scanner.feed(raw.as_str()) {
                    Step::Skip => {
                        return Ok(None);
                    },
                    Step::BadDate(e) => {
                        return Err(error_with_file_and_line(path, i, e));
                    },
                    Step::Next(next) => {
                        scanner = next;
                    },
                }
            },
        }
        i += 1;
    }
    Ok(Some(scanner.finish()))
}

/// A comment marker holds no directive: no line that opens or closes a
/// comment pulls in a file, sets a revision date or sets an images
/// directory. So it makes no difference to a scan that such a line is
/// never live.
pub proof fn lemma_markers_hold_no_directive(state: CommentState, line: Seq<char>)
    requires
        state.is_marker(line),
    ensures
        !include_directive().is_prefix_of(line),
        directive_value(revdate_directive(), line) is None,
        directive_value(imagesdir_directive(), line) is None,
{
    reveal_strlit("////");
    reveal_strlit("[comment]");
    reveal_strlit("--");
    reveal_strlit("include::");
    reveal_strlit(":revdate: ");
    reveal_strlit(":imagesdir: ");
    if line.len() > 0 {
        assert(line[0] == '/' || line[0] == '[' || line[0] == '-');
        assert(include_directive()[0] == 'i');
        assert(revdate_directive()[0] == ':');
        assert(imagesdir_directive()[0] == ':');
        assert(include_directive().is_prefix_of(line) ==> line.subrange(
            0,
            include_directive().len() as int,
        )[0] == 'i');
        assert(revdate_directive().is_prefix_of(line) ==> line.subrange(
            0,
            revdate_directive().len() as int,
        )[0] == ':');
        assert(imagesdir_directive().is_prefix_of(line) ==> line.subrange(
            0,
            imagesdir_directive().len() as int,
        )[0] == ':');
    }
}

/// What stands inside a comment is hidden: a line met while a block
/// comment or a section comment is active goes into the content as it is,
/// and neither ends the scan nor changes the revision date or the images
/// directory, whatever it holds.
pub proof fn lemma_comments_hide_directives(scan: Scan, raw: Seq<char>)
    requires
        scan.comments.in_comment(),
    ensures
        !scan.comments.is_live(trimmed(raw)),
        scan.line(raw) == LineOutcome::Next(
            Scan {
                comments: scan.comments.after(trimmed(raw)),
                doc: DocView {
                    path: scan.doc.path,
                    revdate: scan.doc.revdate,
                    imagesdir: scan.doc.imagesdir,
                    content: scan.doc.content + (without_bom(raw) + "\n"@),
                },
            },
        ),
{
}

/// A live line that pulls in another file ends the scan, whatever was
/// found before it.
pub proof fn lemma_live_include_skips(scan: Scan, raw: Seq<char>)
    requires
        scan.comments.is_live(trimmed(raw)),
        include_directive().is_prefix_of(trimmed(raw)),
    ensures
        scan.line(raw) == LineOutcome::Skip,
{
}

/// The first revision date stays: once a scan has a revision date, no line
/// changes it, and no line is rejected for its date.
pub proof fn lemma_first_revdate_stays(scan: Scan, raw: Seq<char>)
    requires
        scan.doc.revdate is Some,
    ensures
        !(scan.line(raw) is BadDate),
        scan.line(raw) matches LineOutcome::Next(next) ==> next.doc.revdate == scan.doc.revdate,
{
}

/// A scan only adds to the content: the document that comes of a scan has
/// the path the scan started with, and its content begins with the content
/// the scan had.
pub proof fn lemma_scan_only_appends(
    scan: Scan,
    lines: Seq<Result<Seq<char>, Seq<char>>>,
    from: int,
    doc: DocView,
)
    requires
        scan.run(lines, from) == Ok::<Option<DocView>, Seq<char>>(Some(doc)),
    ensures
        doc.path == scan.doc.path,
        scan.doc.content.is_prefix_of(doc.content),
    decreases lines.len() - from,
{
    if from < 0 || from >= lines.len() {
    } else {
        let raw = lines[from]->Ok_0;
        let next = scan.line(raw)->Next_0;
        lemma_scan_only_appends(next, lines, from + 1, doc);
        let live = scan.comments.is_live(trimmed(raw));
        let added = line_content(scan.doc.path, raw, live);
        assert(next.doc.content == scan.doc.content + added);
        assert(scan.doc.content =~= doc.content.subrange(0, scan.doc.content.len() as int)) by {
            assert(next.doc.content.is_prefix_of(doc.content));
            assert forall|i: int| 0 <= i < scan.doc.content.len() implies scan.doc.content[i]
                == doc.content[i] by {
                assert(next.doc.content[i] == scan.doc.content[i]);
                assert(doc.content.subrange(0, next.doc.content.len() as int)[i] == doc.content[i]);
            }
        }
    }
}

/// The byte-order mark at the start of a file does not reach the document:
/// the content begins with the first line without the mark, and a line
/// feed.
pub proof fn lemma_first_line_loses_its_mark(
    path: Seq<char>,
    lines: Seq<Result<Seq<char>, Seq<char>>>,
    doc: DocView,
)
    requires
        extracted(path, lines) == Ok::<Option<DocView>, Seq<char>>(Some(doc)),
        lines.len() > 0,
    ensures
        lines[0] is Ok,
        (without_bom(lines[0]->Ok_0) + "\n"@).is_prefix_of(doc.content),
{
    let start = Scan::start(path);
    let raw = lines[0]->Ok_0;
    let next = start.line(raw)->Next_0;
    lemma_scan_only_appends(next, lines, 1, doc);
    let plain = without_bom(raw) + "\n"@;
    let live = start.comments.is_live(trimmed(raw));
    assert(plain.is_prefix_of(line_content(path, raw, live))) by {
        assert(plain =~= line_content(path, raw, live).subrange(0, plain.len() as int));
    }
    assert(next.doc.content =~= line_content(path, raw, live));
    assert(plain =~= doc.content.subrange(0, plain.len() as int)) by {
        assert forall|i: int| 0 <= i < plain.len() implies plain[i] == doc.content[i] by {
            assert(next.doc.content[i] == plain[i]);
            assert(doc.content.subrange(0, next.doc.content.len() as int)[i] == doc.content[i]);
        }
    }
}

/// A line brings no byte-order mark into the content: where neither the
/// path nor the line, its start aside, holds a mark, what the line adds
/// holds none.
pub proof fn lemma_line_adds_no_mark(path: Seq<char>, raw: Seq<char>, live: bool)
    requires
        !path.contains(bom()),
        !without_bom(raw).contains(bom()),
    ensures
        !line_content(path, raw, live).contains(bom()),
{
    reveal_strlit("\n");
    reveal_strlit(":imagesdir: ");
    let plain = without_bom(raw) + "\n"@;
    if plain.contains(bom()) {
        let i = choose|i: int| 0 <= i < plain.len() && plain[i] == bom();
        assert(without_bom(raw)[i] == bom());
    }
    let line = trimmed(raw);
    let found = directive_value(imagesdir_directive(), line);
    if found is Some && live && is_relative(found->0) {
        let dir = found->0;
        let cut = lemma_trimmed_is_the_core(raw);
        assert(line[0] == imagesdir_directive()[0]) by {
            assert(line.subrange(0, imagesdir_directive().len() as int)[0] == line[0]);
        }
        assert(line[0] == raw[cut.0]);
        assert(raw[0] != bom()) by {
            if raw[0] == bom() {
                assert(!is_whitespace(raw[0]));
                assert(cut.0 == 0);
            }
        }
        assert(without_bom(raw) == raw);
        let target = joined(parent_dir(path), dir);
        lemma_parent_dir(path);
        lemma_joined_holds(parent_dir(path), dir);
        lemma_forward_slashed(target);
        assert(!dir.contains(bom())) by {
            if dir.contains(bom()) {
                let i = choose|i: int| 0 <= i < dir.len() && dir[i] == bom();
                assert(raw[cut.0 + imagesdir_directive().len() + i] == bom());
            }
        }
        assert(!target.contains(bom()));
        assert(!forward_slashed(target).contains(bom()));
        let added = rewritten_imagesdir(path, dir);
        if added.contains(bom()) {
            let i = choose|i: int| 0 <= i < added.len() && added[i] == bom();
            let head = imagesdir_directive().len() as int;
            if i < head {
                assert(imagesdir_directive()[i] != bom());
            } else if i < head + forward_slashed(target).len() {
                assert(forward_slashed(target)[i - head] == bom());
            }
        }
        let whole = plain + added;
        if whole.contains(bom()) {
            let i = choose|i: int| 0 <= i < whole.len() && whole[i] == bom();
            if i < plain.len() {
                assert(plain[i] == bom());
            } else {
                assert(added[i - plain.len()] == bom());
            }
        }
    }
}

/// A scan brings no byte-order mark into the content: where neither the
/// path, nor the content so far, nor any line to come, its start aside,
/// holds a mark, the content of the document holds none.
pub proof fn lemma_scan_adds_no_mark(
    scan: Scan,
    lines: Seq<Result<Seq<char>, Seq<char>>>,
    from: int,
    doc: DocView,
)
    requires
        0 <= from,
        scan.run(lines, from) == Ok::<Option<DocView>, Seq<char>>(Some(doc)),
        !scan.doc.path.contains(bom()),
        !scan.doc.content.contains(bom()),
        forall|i: int|
            from <= i < lines.len() ==> ((#[trigger] lines[i]) matches Ok(raw) ==> !without_bom(
                raw,
            ).contains(bom())),
    ensures
        !doc.content.contains(bom()),
    decreases lines.len() - from,
{
    if from < lines.len() {
        let raw = lines[from]->Ok_0;
        let next = scan.line(raw)->Next_0;
        let live = scan.comments.is_live(trimmed(raw));
        let added = line_content(scan.doc.path, raw, live);
        lemma_line_adds_no_mark(scan.doc.path, raw, live);
        if next.doc.content.contains(bom()) {
            let i = choose|i: int| 0 <= i < next.doc.content.len() && next.doc.content[i] == bom();
            if i < scan.doc.content.len() {
                assert(scan.doc.content[i] == bom());
            } else {
                assert(added[i - scan.doc.content.len()] == bom());
            }
        }
        lemma_scan_adds_no_mark(next, lines, from + 1, doc);
    }
}

/// The byte-order mark is dropped and nowhere brought in: where the path
/// holds no mark, and no line holds one but at its start, the content of
/// the document holds none.
pub proof fn lemma_content_holds_no_mark(
    path: Seq<char>,
    lines: Seq<Result<Seq<char>, Seq<char>>>,
    doc: DocView,
)
    requires
        extracted(path, lines) == Ok::<Option<DocView>, Seq<char>>(Some(doc)),
        !path.contains(bom()),
        forall|i: int|
            0 <= i < lines.len() ==> ((#[trigger] lines[i]) matches Ok(raw) ==> !without_bom(
                raw,
            ).contains(bom())),
    ensures
        !doc.content.contains(bom()),
{
    lemma_scan_adds_no_mark(Scan::start(path), lines, 0, doc);
}

/// Scanning is repeatable: two scans of the same reads of the same file
/// come to the same end, and where that is a document, to the same path,
/// revision date and content, character for character.
pub proof fn lemma_scanning_is_repeatable(
    path: Seq<char>,
    lines: Seq<Result<String, Error>>,
    first: Result<Option<Doc>, Error>,
    second: Result<Option<Doc>, Error>,
)
    requires
        extract_view(first) == extracted(path, reads_view(lines)),
        extract_view(second) == extracted(path, reads_view(lines)),
    ensures
        extract_view(first) == extract_view(second),
        first matches Ok(Some(a)) ==> (second matches Ok(Some(b)) && a.path@ == b.path@
            && a.revdate == b.revdate && a.content@ == b.content@),
{
}

} // verus!
