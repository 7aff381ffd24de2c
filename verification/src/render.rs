//! The text of the calendar.

use crate::doc::{imagesdir_directive, Doc, DocView};
use crate::path::{parent, parent_dir};
use crate::text::{forward_slashed, to_forward_slashes};
use vstd::prelude::*;

verus! {

/// What opens the calendar's body: headings are moved one level down.
pub open spec fn level_down() -> Seq<char> {
    "\n\n:leveloffset: +1\n\n"@
}

/// What closes the calendar's body: headings are moved back up.
pub open spec fn level_up() -> Seq<char> {
    "\n\n:leveloffset: -1\n\n"@
}

/// The line that sets the images directory of a document that sets none:
/// the directory of the document itself, with forward slashes.
pub open spec fn default_imagesdir(path: Seq<char>) -> Seq<char> {
    imagesdir_directive() + forward_slashed(parent_dir(path)) + "\n"@
}

/// A document as it stands in the calendar: the line that sets its images
/// directory, unless it sets one itself, then its content and a blank
/// line.
pub open spec fn section(doc: DocView) -> Seq<char> {
    if doc.has_imagesdir() {
        doc.content + "\n\n"@
    } else {
        default_imagesdir(doc.path) + doc.content + "\n\n"@
    }
}

/// The documents as they stand in the calendar, one after the other.
pub open spec fn sections(docs: Seq<Doc>) -> Seq<char>
    decreases docs.len(),
{
    if docs.len() == 0 {
        Seq::empty()
    } else {
        sections(docs.drop_last()) + section(docs.last()@)
    }
}

/// The calendar: the header, the documents between the two level marks,
/// and the footer.
pub open spec fn rendered(header: Seq<char>, footer: Seq<char>, docs: Seq<Doc>) -> Seq<char> {
    header + level_down() + sections(docs) + level_up() + footer
}

/// Renders the calendar of `docs`, in the order given.
pub fn generate(header: &str, footer: &str, docs: &Vec<Doc>) -> (out: String)
    ensures
        out@ == rendered(header@, footer@, docs@),
{
    let mut out = String::from_str(header);
    out.append("\n\n:leveloffset: +1\n\n");
    let mut i: usize = 0;
    assert(docs@.take(0) =~= Seq::<Doc>::empty());
    while i < docs.len()
        invariant
            i <= docs.len(),
            out@ == header@ + level_down() + sections(docs@.take(i as int)),
        decreases docs.len() - i,
    {
        let doc = &docs[i];
        let ghost before = out@;
        if !doc.has_imagesdir() {
            let dir = to_forward_slashes(parent(doc.path.as_str()));
            out.append(":imagesdir: ");
            out.append(dir.as_str());
            out.append("\n");
        }
        out.append(doc.content.as_str());
        out.append("\n\n");
        proof {
            assert(docs@.take(i + 1).drop_last() =~= docs@.take(i as int));
            assert(docs@.take(i + 1).last() == docs@[i as int]);
            assert(out@ =~= before + section(doc@));
            assert(out@ =~= header@ + level_down() + sections(docs@.take(i + 1)));
        }
        i += 1;
    }
    assert(docs@.take(i as int) =~= docs@);
    out.append("\n\n:leveloffset: -1\n\n");
    out.append(footer);
    assert(out@ =~= rendered(header@, footer@, docs@));
    out
}

/// Documents are rendered one after the other: what two sequences of
/// documents come to, joined, is what the joined sequence comes to.
pub proof fn lemma_sections_add(a: Seq<Doc>, b: Seq<Doc>)
    ensures
        sections(a + b) == sections(a) + sections(b),
    decreases b.len(),
{
    if b.len() == 0 {
        assert(a + b =~= a);
        assert(sections(a) + sections(b) =~= sections(a));
    } else {
        lemma_sections_add(a, b.drop_last());
        assert((a + b).drop_last() =~= a + b.drop_last());
        assert((a + b).last() == b.last());
        assert(sections(a + b) =~= sections(a) + sections(b));
    }
}

/// Each document stands in the calendar behind the documents before it and
/// ahead of those after it: the calendar is the header, the level mark,
/// what comes before the document at `i`, that document, what comes after
/// it, the closing level mark and the footer.
pub proof fn lemma_rendered_in_order(header: Seq<char>, footer: Seq<char>, docs: Seq<Doc>, i: int)
    requires
        0 <= i < docs.len(),
    ensures
        rendered(header, footer, docs) == header + level_down() + sections(docs.take(i)) + section(
            docs[i]@,
        ) + sections(docs.skip(i + 1)) + level_up() + footer,
{
    let one = docs.subrange(i, i + 1);
    assert(docs =~= docs.take(i) + one + docs.skip(i + 1));
    lemma_sections_add(docs.take(i) + one, docs.skip(i + 1));
    lemma_sections_add(docs.take(i), one);
    assert(one.drop_last() =~= Seq::<Doc>::empty());
    assert(sections(one) =~= section(docs[i]@)) by {
        assert(sections(one.drop_last()) =~= Seq::<char>::empty());
        assert(one.last() == docs[i]);
    }
}

} // verus!
