//! The standalone, downloadable drawing: the provenance that traces a picture to the revision it
//! shows, the caption it wears, the document it is framed in, and the name it downloads as.
//!
//! Nothing time-dependent is written, so the same revision exports byte-identically every time:
//! the commit id is the traceability anchor, and a timestamp would break byte-identity.

use vstd::prelude::*;
use crate::diagram::{view_token, DiagramView};
use crate::escape::{comment_safe, comment_safe_from, safe_segment, segment_safe, xml_escape, xml_escaped};
use crate::text::append_text;

verus! {

/// The renderer's name, written into every export so an artefact says which code drew it.
pub const RENDERER_NAME: &'static str = "mw-diagram-svg";

/// The renderer's version: the version of the code that composes the drawing.
pub const RENDERER_VERSION: &'static str = "0.1.0";

/// The identity of a drawing: the revision it came from and which view of it.
pub struct DiagramSource {
    pub project: String,
    pub commit_hash: String,
    /// The branch the view is scoped to (a commit may be reached by more than one branch).
    pub branch: String,
    pub view: DiagramView,
}

/// The canonical provenance line, the one a reader can quote or search for.
pub open spec fn provenance_text(s: DiagramSource) -> Seq<char> {
    "project="@ + s.project@ + " commit="@ + s.commit_hash@ + " branch="@ + s.branch@ + " diagram="@
        + view_token(s.view) + " renderer="@ + RENDERER_NAME@ + "/"@ + RENDERER_VERSION@
}

pub fn provenance_line(source: &DiagramSource) -> (r: String)
    ensures
        r@ == provenance_text(*source),
{
    let mut s = String::from_str("project=");
    append_text(&mut s, source.project.as_str());
    append_text(&mut s, " commit=");
    append_text(&mut s, source.commit_hash.as_str());
    append_text(&mut s, " branch=");
    append_text(&mut s, source.branch.as_str());
    append_text(&mut s, " diagram=");
    append_text(&mut s, source.view.as_str());
    append_text(&mut s, " renderer=");
    append_text(&mut s, RENDERER_NAME);
    append_text(&mut s, "/");
    append_text(&mut s, RENDERER_VERSION);
    s
}

/// The visible caption drawn beneath the drawing: project, full revision, view and renderer.
pub open spec fn caption_text(s: DiagramSource) -> Seq<char> {
    s.project@ + " · commit "@ + s.commit_hash@ + " · "@ + crate::diagram::view_label(s.view) + " · "@
        + RENDERER_NAME@ + "/"@ + RENDERER_VERSION@
}

pub fn caption(source: &DiagramSource) -> (r: String)
    ensures
        r@ == caption_text(*source),
{
    let mut s = String::from_str(source.project.as_str());
    append_text(&mut s, " · commit ");
    append_text(&mut s, source.commit_hash.as_str());
    append_text(&mut s, " · ");
    append_text(&mut s, source.view.label());
    append_text(&mut s, " · ");
    append_text(&mut s, RENDERER_NAME);
    append_text(&mut s, "/");
    append_text(&mut s, RENDERER_VERSION);
    s
}

/// The markup placed right after the drawing's start tag: the provenance as a metadata element,
/// every value escaped, then the stylesheet the export inlines (a downloaded drawing has no
/// stylesheet of its own, so it carries every rule it needs).
pub open spec fn preface_text(s: DiagramSource, style: Seq<char>) -> Seq<char> {
    "<metadata><mw:provenance xmlns:mw=\"https://modelwrite.org/ns/provenance\" project=\""@ + xml_escaped(s.project@)
        + "\" commit=\""@ + xml_escaped(s.commit_hash@) + "\" branch=\""@ + xml_escaped(s.branch@) + "\" diagram=\""@
        + view_token(s.view) + "\" renderer=\""@ + RENDERER_NAME@ + "\" rendererVersion=\""@ + RENDERER_VERSION@
        + "\"/></metadata><style>"@ + style + "</style>"@
}

pub fn provenance_preface(source: &DiagramSource, style: &str) -> (r: String)
    ensures
        r@ == preface_text(*source, style@),
{
    let mut s = String::from_str("<metadata><mw:provenance xmlns:mw=\"https://modelwrite.org/ns/provenance\" project=\"");
    let project = xml_escape(source.project.as_str());
    append_text(&mut s, project.as_str());
    append_text(&mut s, "\" commit=\"");
    let commit = xml_escape(source.commit_hash.as_str());
    append_text(&mut s, commit.as_str());
    append_text(&mut s, "\" branch=\"");
    let branch = xml_escape(source.branch.as_str());
    append_text(&mut s, branch.as_str());
    append_text(&mut s, "\" diagram=\"");
    append_text(&mut s, source.view.as_str());
    append_text(&mut s, "\" renderer=\"");
    append_text(&mut s, RENDERER_NAME);
    append_text(&mut s, "\" rendererVersion=\"");
    append_text(&mut s, RENDERER_VERSION);
    append_text(&mut s, "\"/></metadata><style>");
    append_text(&mut s, style);
    append_text(&mut s, "</style>");
    s
}

/// A standalone XML document: the declaration and the provenance comment, then the drawing.
/// This is the byte sequence a caller downloads.
pub open spec fn document_text(s: DiagramSource, inline: Seq<char>) -> Seq<char> {
    "<?xml version=\"1.0\" encoding=\"UTF-8\"?>\n<!-- modelwrite-provenance: "@ + comment_safe_from(
        provenance_text(s),
        '\0',
    ) + " -->\n"@ + inline + "\n"@
}

pub fn standalone_document(source: &DiagramSource, inline: &str) -> (r: String)
    ensures
        r@ == document_text(*source, inline@),
{
    let mut s = String::from_str("<?xml version=\"1.0\" encoding=\"UTF-8\"?>\n<!-- modelwrite-provenance: ");
    let line = provenance_line(source);
    let safe = comment_safe(line.as_str());
    append_text(&mut s, safe.as_str());
    append_text(&mut s, " -->\n");
    append_text(&mut s, inline);
    append_text(&mut s, "\n");
    s
}

/// The name an export downloads as: the project made file-name safe, the full commit, the view.
pub open spec fn export_name(project: Seq<char>, commit_hash: Seq<char>, view: DiagramView) -> Seq<char> {
    "modelwrite-"@ + project.map_values(|c: char| if segment_safe(c) { c } else { '_' }) + "-"@ + commit_hash
        + "-"@ + view_token(view) + ".svg"@
}

pub fn export_file_name(project: &str, commit_hash: &str, view: DiagramView) -> (r: String)
    ensures
        r@ == export_name(project@, commit_hash@, view),
{
    let mut s = String::from_str("modelwrite-");
    let safe = safe_segment(project);
    append_text(&mut s, safe.as_str());
    append_text(&mut s, "-");
    append_text(&mut s, commit_hash);
    append_text(&mut s, "-");
    append_text(&mut s, view.as_str());
    append_text(&mut s, ".svg");
    s
}

} // verus!
