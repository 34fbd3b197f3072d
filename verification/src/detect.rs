//! Detection: what a dropped file is, and therefore which reader takes it.
//!
//! The format is decided from the BYTES first and the file name only as a tie-break. The head
//! is examined as bytes: every marker looked for is ASCII, so finding it in the bytes is the
//! same as finding it in their text.

use vstd::prelude::*;
use vstd::string::StringSliceAdditionalSpecFns;
use crate::text::{ascii_lowercase, chars_end_with, chars_equal, ends_with, lowercase_chars, string_of, text};

verus! {

/// Whether `needle` occurs in `hay` as a contiguous run.
pub open spec fn seq_contains(hay: Seq<u8>, needle: Seq<u8>) -> bool {
    exists|i: int| 0 <= i && i + needle.len() <= hay.len() && #[trigger] hay.subrange(i, i + needle.len()) == needle
}

/// Whether `needle` occurs in `hay`.
pub fn contains_bytes(hay: &[u8], needle: &[u8]) -> (r: bool)
    ensures
        r == seq_contains(hay@, needle@),
{
    if needle.len() > hay.len() {
        return false;
    }
    if needle.len() == 0 {
        proof {
            assert(hay@.subrange(0int, 0int + needle@.len()) =~= needle@);
        }
        return true;
    }
    let last = hay.len() - needle.len();
    let mut i: usize = 0;
    while i <= last
        invariant
            last == hay@.len() - needle@.len(),
            hay@.len() == hay.len(),
            needle@.len() >= 1,
            i <= last + 1,
            forall|j: int| 0 <= j < i ==> #[trigger] hay@.subrange(j, j + needle@.len()) != needle@,
        decreases last + 1 - i,
    {
        let mut k: usize = 0;
        let mut same = true;
        while k < needle.len() && same
            invariant
                i <= last,
                last == hay@.len() - needle@.len(),
                hay@.len() == hay.len(),
                k <= needle@.len(),
                same ==> forall|m: int| 0 <= m < k ==> hay@[i + m] == needle@[m],
                !same ==> hay@.subrange(i as int, i + needle@.len()) != needle@,
            decreases needle@.len() - k + (if same { 1int } else { 0int }),
        {
            if hay[i + k] != needle[k] {
                same = false;
                proof {
                    assert(hay@.subrange(i as int, i + needle@.len())[k as int] != needle@[k as int]);
                }
            } else {
                k = k + 1;
            }
        }
        if same {
            proof {
                assert(hay@.subrange(i as int, i + needle@.len()) =~= needle@);
            }
            return true;
        }
        i = i + 1;
    }
    proof {
        assert forall|j: int| 0 <= j && j + needle@.len() <= hay@.len() implies #[trigger] hay@.subrange(j, j + needle@.len()) != needle@ by {}
    }
    false
}


/// The format a dropped artifact was detected as, decided from the BYTES first and the file
/// name only as a tie-break. The label is what the result page says in words.
#[derive(Debug, Clone, PartialEq, Eq)]
pub enum Format {
    /// A SysML v1 / UML XMI export: MagicDraw, Cameo, any XMI 2.x writer.
    Xmi,
    /// A Cameo/MagicDraw `.mdzip` container, which is a zip holding the XMI export.
    Cameo,
    /// SysML v2 textual notation.
    SysmlV2,
    /// Nothing this platform reads, with what was seen instead.
    Unknown(String),
}

/// What a detected format is, with the text of an `Unknown` reason.
pub enum FormatView {
    Xmi,
    Cameo,
    SysmlV2,
    Unknown(Seq<char>),
}

impl View for Format {
    type V = FormatView;

    open spec fn view(&self) -> FormatView {
        match self {
            Format::Xmi => FormatView::Xmi,
            Format::Cameo => FormatView::Cameo,
            Format::SysmlV2 => FormatView::SysmlV2,
            Format::Unknown(reason) => FormatView::Unknown(reason@),
        }
    }
}

/// The plain-language name of each format.
pub open spec fn format_label(f: FormatView) -> Seq<char> {
    match f {
        FormatView::Xmi => "a SysML v1 XMI export (the form MagicDraw, Cameo and most UML/SysML tools write)"@,
        FormatView::Cameo => "a Cameo/MagicDraw .mdzip container"@,
        FormatView::SysmlV2 => "SysML v2 textual notation"@,
        FormatView::Unknown(_) => "not a format this server reads"@,
    }
}

impl Format {
    /// The plain-language name of the detected format, for the summary.
    pub fn label(&self) -> (r: &'static str)
        ensures
            r@ == format_label(self@),
    {
        match self {
            Format::Xmi => "a SysML v1 XMI export (the form MagicDraw, Cameo and most UML/SysML tools write)",
            Format::Cameo => "a Cameo/MagicDraw .mdzip container",
            Format::SysmlV2 => "SysML v2 textual notation",
            Format::Unknown(_) => "not a format this server reads",
        }
    }

    /// The binding selector `id@version` the registry resolves for this format, given the
    /// identities of the XMI and SysML v2 bindings, or none when the format is not one this
    /// platform reads.
    pub fn binding(&self, xmi_id: &str, xmi_version: &str, sysml_id: &str, sysml_version: &str) -> (r: Option<String>)
        ensures
            match self@ {
                FormatView::Xmi | FormatView::Cameo => r matches Some(b) && b@ == xmi_id@ + "@"@ + xmi_version@,
                FormatView::SysmlV2 => r matches Some(b) && b@ == sysml_id@ + "@"@ + sysml_version@,
                FormatView::Unknown(_) => r is None,
            },
    {
        match self {
            Format::Xmi | Format::Cameo => {
                let mut b = String::from_str(xmi_id);
                crate::text::append_text(&mut b, "@");
                crate::text::append_text(&mut b, xmi_version);
                Some(b)
            },
            Format::SysmlV2 => {
                let mut b = String::from_str(sysml_id);
                crate::text::append_text(&mut b, "@");
                crate::text::append_text(&mut b, sysml_version);
                Some(b)
            },
            Format::Unknown(_) => None,
        }
    }
}

/// The zip local-file-header signature every container starts with: `PK\x03\x04`.
pub open spec fn zip_signature() -> Seq<u8> {
    seq![0x50u8, 0x4bu8, 0x03u8, 0x04u8]
}

/// Whether the artifact starts with the zip signature.
pub open spec fn spec_is_zip(head: Seq<u8>) -> bool {
    head.len() >= 4 && head.subrange(0, 4) == zip_signature()
}

/// The zip local-file-header signature every container starts with.
pub fn is_zip(head: &[u8]) -> (r: bool)
    ensures
        r == spec_is_zip(head@),
{
    let r = head.len() >= 4 && head[0] == 0x50 && head[1] == 0x4b && head[2] == 0x03 && head[3]
        == 0x04;
    proof {
        if head@.len() >= 4 {
            assert(r == (head@.subrange(0, 4) =~= zip_signature()));
        }
    }
    r
}

/// Whether the head of an artifact carries the markers of an XMI document.
pub open spec fn spec_looks_like_xmi(head: Seq<u8>) -> bool {
    ||| seq_contains(head, "<xmi:XMI".spec_bytes())
    ||| seq_contains(head, "xmlns:uml=".spec_bytes())
    ||| seq_contains(head, "http://www.omg.org/spec/XMI".spec_bytes())
}

/// Whether the head of an artifact carries the markers of an XMI document. Checked on the
/// bytes, not the extension: a MagicDraw export renamed to .xml is still an XMI export, and a
/// .xmi file that is not XMI must not be claimed as one.
pub fn looks_like_xmi(head: &[u8]) -> (r: bool)
    ensures
        r == spec_looks_like_xmi(head@),
{
    contains_bytes(head, "<xmi:XMI".as_bytes()) || contains_bytes(head, "xmlns:uml=".as_bytes())
        || contains_bytes(head, "http://www.omg.org/spec/XMI".as_bytes())
}

/// The declaration words of SysML v2 textual notation.
pub open spec fn sysml_keyword_found(head: Seq<u8>) -> bool {
    ||| seq_contains(head, "package ".spec_bytes())
    ||| seq_contains(head, "part def ".spec_bytes())
    ||| seq_contains(head, "attribute def ".spec_bytes())
    ||| seq_contains(head, "item def ".spec_bytes())
    ||| seq_contains(head, "action def ".spec_bytes())
    ||| seq_contains(head, "port def ".spec_bytes())
    ||| seq_contains(head, "requirement def ".spec_bytes())
    ||| seq_contains(head, "requirement ".spec_bytes())
}

/// Whether the head of an artifact, or failing that its name, says SysML v2 textual notation.
pub open spec fn spec_looks_like_sysmlv2(head: Seq<u8>, file_name: Seq<char>) -> bool {
    sysml_keyword_found(head) || ends_with(ascii_lowercase(file_name), ".sysml"@)
}

/// Whether the head of an artifact carries the markers of SysML v2 textual notation. The
/// keywords are the notation's own declaration words; a .sysml name alone is enough to try the
/// reader, which refuses a file it cannot read rather than guessing.
pub fn looks_like_sysmlv2(head: &[u8], file_name: &str) -> (r: bool)
    ensures
        r == spec_looks_like_sysmlv2(head@, file_name@),
{
    if contains_bytes(head, "package ".as_bytes()) || contains_bytes(head, "part def ".as_bytes())
        || contains_bytes(head, "attribute def ".as_bytes()) || contains_bytes(
        head,
        "item def ".as_bytes(),
    ) || contains_bytes(head, "action def ".as_bytes()) || contains_bytes(
        head,
        "port def ".as_bytes(),
    ) || contains_bytes(head, "requirement def ".as_bytes()) || contains_bytes(
        head,
        "requirement ".as_bytes(),
    ) {
        return true;
    }
    let lower = lowercase_chars(file_name);
    chars_end_with(&lower, ".sysml")
}

/// The position of the last `c` in `s`.
pub open spec fn last_index_of(s: Seq<char>, c: char) -> Option<int>
    decreases s.len(),
{
    if s.len() == 0 {
        None
    } else if s.last() == c {
        Some(s.len() - 1)
    } else {
        last_index_of(s.drop_last(), c)
    }
}

/// The lower-cased extension of a file name: what follows its last dot, or nothing.
pub open spec fn extension(file_name: Seq<char>) -> Seq<char> {
    let lower = ascii_lowercase(file_name);
    match last_index_of(lower, '.') {
        Some(i) => lower.subrange(i + 1, lower.len() as int),
        None => Seq::empty(),
    }
}

/// The format of a dropped artifact from its head bytes and its file name.
pub open spec fn spec_detect(head: Seq<u8>, file_name: Seq<char>) -> FormatView {
    if spec_is_zip(head) {
        FormatView::Cameo
    } else if spec_looks_like_xmi(head) {
        FormatView::Xmi
    } else if spec_looks_like_sysmlv2(head, file_name) {
        FormatView::SysmlV2
    } else {
        let ext = extension(file_name);
        if ext == "xmi"@ || ext == "uml"@ {
            FormatView::Unknown("the file name says XMI but the bytes do not carry an XMI document"@)
        } else if ext == "mdzip"@ {
            FormatView::Unknown("the file name says .mdzip but the bytes are not a zip container"@)
        } else if ext.len() == 0 {
            FormatView::Unknown("the file has no name and no recognised content"@)
        } else {
            FormatView::Unknown("the ."@ + ext + " file is not a format this server reads"@)
        }
    }
}

/// The position of the last `c` in `v`.
fn last_position(v: &Vec<char>, c: char) -> (r: Option<usize>)
    ensures
        r matches Some(i) ==> last_index_of(v@, c) == Some(i as int) && i < v@.len(),
        r is None ==> last_index_of(v@, c) is None,
{
    let mut i = v.len();
    proof {
        assert(v@.take(i as int) =~= v@);
    }
    while i > 0
        invariant
            i <= v@.len(),
            last_index_of(v@, c) == last_index_of(v@.take(i as int), c),
        decreases i,
    {
        proof {
            assert(v@.take(i as int).drop_last() =~= v@.take(i - 1));
        }
        if v[i - 1] == c {
            return Some(i - 1);
        }
        i = i - 1;
    }
    None
}

/// Detect the format of a dropped artifact from its head bytes and its file name. The order
/// matters: a zip is a container (never XMI text), XMI markers beat the SysML v2 keywords a
/// .sysml-named but XMI-bodied file would otherwise trip, and anything unrecognised is reported
/// as such rather than guessed at.
pub fn detect(head: &[u8], file_name: &str) -> (r: Format)
    ensures
        r@ == spec_detect(head@, file_name@),
{
    if is_zip(head) {
        return Format::Cameo;
    }
    if looks_like_xmi(head) {
        return Format::Xmi;
    }
    if looks_like_sysmlv2(head, file_name) {
        return Format::SysmlV2;
    }
    let lower = lowercase_chars(file_name);
    let ext = match last_position(&lower, '.') {
        Some(i) => {
            let mut tail: Vec<char> = Vec::new();
            assert(i < lower.len());
            let mut j = i + 1;
            while j < lower.len()
                invariant
                    i < j <= lower@.len(),
                    tail@ == lower@.subrange(i + 1, j as int),
                decreases lower@.len() - j,
            {
                tail.push(lower[j]);
                proof {
                    assert(lower@.subrange(i + 1, j + 1) =~= lower@.subrange(i + 1, j as int).push(lower@[j as int]));
                }
                j = j + 1;
            }
            tail
        },
        None => Vec::new(),
    };
    proof {
        assert(ext@ =~= extension(file_name@));
    }
    if chars_equal(&ext, "xmi") || chars_equal(&ext, "uml") {
        Format::Unknown(text("the file name says XMI but the bytes do not carry an XMI document"))
    } else if chars_equal(&ext, "mdzip") {
        Format::Unknown(text("the file name says .mdzip but the bytes are not a zip container"))
    } else if ext.len() == 0 {
        Format::Unknown(text("the file has no name and no recognised content"))
    } else {
        let mut reason = text("the .");
        reason.append(string_of(&ext, 0, ext.len()).as_str());
        reason.append(" file is not a format this server reads");
        proof {
            assert(ext@.subrange(0, ext@.len() as int) =~= ext@);
        }
        Format::Unknown(reason)
    }
}

/// XMI markers win: a head that is not a zip container and carries `<xmi:XMI`, `xmlns:uml=`
/// or `http://www.omg.org/spec/XMI` is an XMI export, whatever SysML v2 keywords it also holds
/// and whatever its name says.
pub proof fn lemma_xmi_markers_win(head: Seq<u8>, file_name: Seq<char>)
    requires
        !(head.len() >= 4 && head[0] == 0x50u8 && head[1] == 0x4bu8 && head[2] == 0x03u8 && head[3] == 0x04u8),
        seq_contains(head, "<xmi:XMI".spec_bytes()) || seq_contains(head, "xmlns:uml=".spec_bytes()) || seq_contains(
            head,
            "http://www.omg.org/spec/XMI".spec_bytes(),
        ),
    ensures
        spec_detect(head, file_name) == FormatView::Xmi,
{
    if spec_is_zip(head) {
        assert(head.subrange(0, 4)[0] == head[0]);
        assert(head.subrange(0, 4)[1] == head[1]);
        assert(head.subrange(0, 4)[2] == head[2]);
        assert(head.subrange(0, 4)[3] == head[3]);
    }
}

/// A zip container is a Cameo container, whatever its bytes hold after the signature and
/// whatever its name says.
pub proof fn lemma_zip_is_cameo(head: Seq<u8>, file_name: Seq<char>)
    requires
        head.len() >= 4 && head[0] == 0x50u8 && head[1] == 0x4bu8 && head[2] == 0x03u8 && head[3] == 0x04u8,
    ensures
        spec_detect(head, file_name) == FormatView::Cameo,
{
    assert(head.subrange(0, 4) =~= zip_signature());
}

/// A head without any XMI marker that holds a SysML v2 declaration keyword is SysML v2, when
/// it is not a zip container.
pub proof fn lemma_sysml_keywords_without_xmi(head: Seq<u8>, file_name: Seq<char>)
    requires
        !spec_is_zip(head),
        !seq_contains(head, "<xmi:XMI".spec_bytes()),
        !seq_contains(head, "xmlns:uml=".spec_bytes()),
        !seq_contains(head, "http://www.omg.org/spec/XMI".spec_bytes()),
        seq_contains(head, "package ".spec_bytes()) || seq_contains(head, "part def ".spec_bytes())
            || seq_contains(head, "requirement ".spec_bytes()),
    ensures
        spec_detect(head, file_name) == FormatView::SysmlV2,
{
}

} // verus!
