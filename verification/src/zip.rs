//! The Cameo container: a zip archive holding the XMI export.
//!
//! The central directory is the authority on what the container holds: the local headers can
//! lie about sizes when the writer used a data descriptor, the central directory cannot.
//! Entry names are matched on their bytes; the suffixes looked for are ASCII, so this is the
//! same decision as matching them on the name's text.

use vstd::prelude::*;
use crate::inflate::{inflate, spec_inflate, InflateError};
use crate::text::{decimal, decimal_string, text};

verus! {

/// The text of a byte string, with each invalid UTF-8 sequence replaced by U+FFFD, as
/// `String::from_utf8_lossy` decodes it.
pub uninterp spec fn utf8_lossy(bytes: Seq<u8>) -> Seq<char>;

/// `String::from_utf8_lossy`: the text of an entry name. The contract claims only that the
/// result is a function of the bytes (`utf8_lossy`); the replacement rules themselves are
/// std's and are not restated here.
#[verifier::external_body]
fn lossy_text(bytes: &[u8]) -> (s: String)
    ensures
        s@ == utf8_lossy(bytes@),
{
    String::from_utf8_lossy(bytes).into_owned()
}

/// A little-endian 16-bit value at `at`.
pub open spec fn le16(b: Seq<u8>, at: int) -> int {
    b[at] as int + 256 * (b[at + 1] as int)
}

/// A little-endian 32-bit value at `at`.
pub open spec fn le32(b: Seq<u8>, at: int) -> int {
    le16(b, at) + 65536 * le16(b, at + 2)
}

pub fn read_u16(bytes: &[u8], at: usize) -> (r: Option<u16>)
    ensures
        r == (if at + 2 <= bytes@.len() {
            Some(le16(bytes@, at as int) as u16)
        } else {
            None
        }),
        r matches Some(v) ==> v == le16(bytes@, at as int),
{
    if at < bytes.len() && bytes.len() - at >= 2 {
        Some(bytes[at] as u16 + (bytes[at + 1] as u16) * 256)
    } else {
        None
    }
}

pub fn read_u32(bytes: &[u8], at: usize) -> (r: Option<u32>)
    ensures
        r == (if at + 4 <= bytes@.len() {
            Some(le32(bytes@, at as int) as u32)
        } else {
            None
        }),
        r matches Some(v) ==> v == le32(bytes@, at as int),
{
    if at < bytes.len() && bytes.len() - at >= 4 {
        let low = bytes[at] as u32 + (bytes[at + 1] as u32) * 256;
        let high = bytes[at + 2] as u32 + (bytes[at + 3] as u32) * 256;
        Some(low + high * 65536)
    } else {
        None
    }
}

/// The End Of Central Directory signature.
pub const EOCD_SIGNATURE: u32 = 0x0605_4b50;

/// The central directory file header signature.
pub const CENTRAL_SIGNATURE: u32 = 0x0201_4b50;

/// An End Of Central Directory record at `at` whose comment runs exactly to the end.
pub open spec fn is_eocd(b: Seq<u8>, at: int) -> bool {
    &&& 0 <= at
    &&& at + 22 <= b.len()
    &&& le32(b, at) == EOCD_SIGNATURE
    &&& at + 22 + le16(b, at + 20) == b.len()
}

/// Where the backward search for the record starts: at most 22 bytes plus a 64 KiB comment
/// from the end.
pub open spec fn eocd_window_start(len: int) -> int {
    if len >= 22 + 65535 {
        len - (22 + 65535)
    } else {
        0
    }
}

pub open spec fn eocd_window_end(len: int) -> int {
    if len >= 3 {
        len - 3
    } else {
        0
    }
}

/// The last record position below `at` and not below `lo`.
pub open spec fn eocd_scan(b: Seq<u8>, at: int, lo: int) -> Option<int>
    decreases at - lo,
{
    if at <= lo {
        None
    } else if is_eocd(b, at - 1) {
        Some(at - 1)
    } else {
        eocd_scan(b, at - 1, lo)
    }
}

/// The End Of Central Directory record, found by scanning back from the end of the container.
pub open spec fn spec_eocd(b: Seq<u8>) -> Option<int> {
    eocd_scan(b, eocd_window_end(b.len() as int), eocd_window_start(b.len() as int))
}

/// Find the End Of Central Directory record by scanning back from the end of the container.
/// The record is at most 22 bytes plus a 64 KiB comment, so the search is bounded.
pub fn end_of_central_directory(bytes: &[u8]) -> (r: Option<usize>)
    requires
        bytes@.len() <= isize::MAX,
    ensures
        r matches Some(at) ==> spec_eocd(bytes@) == Some(at as int),
        r is None ==> spec_eocd(bytes@) is None,
{
    let len = bytes.len();
    let start = len.saturating_sub(22 + 65_535);
    let mut at = len.saturating_sub(3);
    while at > start
        invariant
            len == bytes@.len(),
            len <= isize::MAX,
            start == eocd_window_start(len as int),
            start <= at <= eocd_window_end(len as int),
            spec_eocd(bytes@) == eocd_scan(bytes@, at as int, start as int),
        decreases at,
    {
        at = at - 1;
        let found = match read_u32(bytes, at) {
            Some(signature) => signature == EOCD_SIGNATURE && match read_u16(bytes, at + 20) {
                Some(comment) => at + 22 + comment as usize == len,
                None => false,
            },
            None => false,
        };
        if found {
            return Some(at);
        }
    }
    None
}


/// What the central directory says of one entry.
pub struct EntryModel {
    pub name: Seq<u8>,
    pub method: int,
    pub compressed: int,
    pub uncompressed: int,
    pub data_offset: int,
}

pub open spec fn container_truncated() -> Seq<char> {
    "the container is truncated"@
}

/// The central directory entries from `cursor`, `remaining` of them, appended to `acc`; or the
/// sentence that says why the directory cannot be read.
pub open spec fn central_entries(b: Seq<u8>, cursor: int, remaining: nat, acc: Seq<EntryModel>) -> Result<
    Seq<EntryModel>,
    Seq<char>,
>
    decreases remaining,
{
    if remaining == 0 {
        Ok(acc)
    } else if !(cursor + 4 <= b.len() && le32(b, cursor) == CENTRAL_SIGNATURE) {
        Err("the container's central directory is malformed"@)
    } else if cursor + 12 > b.len() {
        Err(container_truncated())
    } else if cursor + 46 > b.len() {
        Err("truncated"@)
    } else {
        let name_len = le16(b, cursor + 28);
        let extra_len = le16(b, cursor + 30);
        let comment_len = le16(b, cursor + 32);
        let local = le32(b, cursor + 42);
        if cursor + 46 + name_len > b.len() {
            Err(container_truncated())
        } else if local + 30 > b.len() {
            Err("truncated"@)
        } else {
            let entry = EntryModel {
                name: b.subrange(cursor + 46, cursor + 46 + name_len),
                method: le16(b, cursor + 10),
                compressed: le32(b, cursor + 20),
                uncompressed: le32(b, cursor + 24),
                data_offset: local + 30 + le16(b, local + 26) + le16(b, local + 28),
            };
            central_entries(
                b,
                cursor + 46 + name_len + extra_len + comment_len,
                (remaining - 1) as nat,
                acc.push(entry),
            )
        }
    }
}

/// The entries a zip container's central directory lists, in order.
pub open spec fn spec_zip_entries(b: Seq<u8>) -> Result<Seq<EntryModel>, Seq<char>> {
    match spec_eocd(b) {
        None => Err("the .mdzip container has no end-of-central-directory record"@),
        Some(eocd) => central_entries(b, le32(b, eocd + 16), le16(b, eocd + 10) as nat, Seq::empty()),
    }
}

/// One entry located in a zip container, with where its bytes are and how they are stored.
pub struct ZipEntry {
    name: Vec<u8>,
    method: u16,
    compressed_size: usize,
    uncompressed_size: usize,
    data_offset: usize,
}

impl ZipEntry {
    pub closed spec fn model(&self) -> EntryModel {
        EntryModel {
            name: self.name@,
            method: self.method as int,
            compressed: self.compressed_size as int,
            uncompressed: self.uncompressed_size as int,
            data_offset: self.data_offset as int,
        }
    }
}

proof fn lemma_eocd_found(b: Seq<u8>, at: int, lo: int)
    ensures
        eocd_scan(b, at, lo) matches Some(e) ==> is_eocd(b, e),
    decreases at - lo,
{
    if at > lo && !is_eocd(b, at - 1) {
        lemma_eocd_found(b, at - 1, lo);
    }
}

/// Read a zip container's central directory.
pub fn zip_entries(bytes: &[u8]) -> (r: Result<Vec<ZipEntry>, String>)
    requires
        bytes@.len() <= isize::MAX,
    ensures
        match spec_zip_entries(bytes@) {
            Ok(es) => r matches Ok(v) && v@.len() == es.len() && forall|i: int|
                0 <= i < es.len() ==> #[trigger] v@[i].model() == es[i],
            Err(m) => r matches Err(s) && s@ == m,
        },
{
    let eocd = match end_of_central_directory(bytes) {
        Some(at) => at,
        None => {
            return Err(text("the .mdzip container has no end-of-central-directory record"));
        },
    };
    proof {
        lemma_eocd_found(bytes@, eocd_window_end(bytes@.len() as int), eocd_window_start(bytes@.len() as int));
    }
    let count = match read_u16(bytes, eocd + 10) {
        Some(c) => c as usize,
        None => {
            return Err(text("the container is truncated"));
        },
    };
    let mut cursor = match read_u32(bytes, eocd + 16) {
        Some(c) => c as usize,
        None => {
            return Err(text("the container is truncated"));
        },
    };
    let mut entries: Vec<ZipEntry> = Vec::new();
    let ghost goal = spec_zip_entries(bytes@);
    proof {
        assert(Seq::new(entries@.len(), |i: int| entries@[i].model()) =~= Seq::<EntryModel>::empty());
    }
    let mut done: usize = 0;
    while done < count
        invariant
            bytes@.len() <= isize::MAX,
            done <= count,
            goal == spec_zip_entries(bytes@),
            goal == central_entries(
                bytes@,
                cursor as int,
                (count - done) as nat,
                Seq::new(entries@.len(), |i: int| entries@[i].model()),
            ),
        decreases count - done,
    {
        let ghost acc = Seq::new(entries@.len(), |i: int| entries@[i].model());
        match read_u32(bytes, cursor) {
            Some(signature) if signature == CENTRAL_SIGNATURE => {},
            _ => {
                return Err(text("the container's central directory is malformed"));
            },
        }
        let method = match read_u16(bytes, cursor + 10) {
            Some(m) => m,
            None => {
                return Err(text("the container is truncated"));
            },
        };
        if bytes.len() - cursor < 46 {
            return Err(text("truncated"));
        }
        let compressed_size = match read_u32(bytes, cursor + 20) {
            Some(v) => v as usize,
            None => {
                return Err(text("truncated"));
            },
        };
        let uncompressed_size = match read_u32(bytes, cursor + 24) {
            Some(v) => v as usize,
            None => {
                return Err(text("truncated"));
            },
        };
        let name_len = match read_u16(bytes, cursor + 28) {
            Some(v) => v as usize,
            None => {
                return Err(text("truncated"));
            },
        };
        let extra_len = match read_u16(bytes, cursor + 30) {
            Some(v) => v as usize,
            None => {
                return Err(text("truncated"));
            },
        };
        let comment_len = match read_u16(bytes, cursor + 32) {
            Some(v) => v as usize,
            None => {
                return Err(text("truncated"));
            },
        };
        let local = match read_u32(bytes, cursor + 42) {
            Some(v) => v as usize,
            None => {
                return Err(text("truncated"));
            },
        };
        if bytes.len() - (cursor + 46) < name_len {
            return Err(text("the container is truncated"));
        }
        let name = vstd::slice::slice_to_vec(
            vstd::slice::slice_subrange(bytes, cursor + 46, cursor + 46 + name_len),
        );
        // The local header carries its own name and extra lengths, which are what sit between
        // the header and the entry's bytes.
        if local > bytes.len() {
            return Err(text("truncated"));
        }
        let local_name_len = match read_u16(bytes, local + 26) {
            Some(v) => v as usize,
            None => {
                return Err(text("truncated"));
            },
        };
        let local_extra_len = match read_u16(bytes, local + 28) {
            Some(v) => v as usize,
            None => {
                return Err(text("truncated"));
            },
        };
        let data_offset = local + 30 + local_name_len + local_extra_len;
        let entry = ZipEntry { name, method, compressed_size, uncompressed_size, data_offset };
        entries.push(entry);
        proof {
            assert(Seq::new(entries@.len(), |i: int| entries@[i].model()) =~= acc.push(entry.model()));
        }
        cursor = cursor + 46 + name_len + extra_len + comment_len;
        done = done + 1;
    }
    proof {
        assert(Seq::new(entries@.len(), |i: int| entries@[i].model()).len() == entries@.len());
    }
    Ok(entries)
}


/// ASCII lower-casing of one byte, as `to_ascii_lowercase` does it.
pub open spec fn ascii_lower(c: u8) -> u8 {
    if 65 <= c && c <= 90 {
        (c + 32) as u8
    } else {
        c
    }
}

/// Whether `name`, lower-cased, ends with `suffix`.
pub open spec fn ends_with_lower(name: Seq<u8>, suffix: Seq<u8>) -> bool {
    &&& suffix.len() <= name.len()
    &&& forall|i: int| 0 <= i < suffix.len() ==> ascii_lower(#[trigger] name[name.len() - suffix.len() + i]) == suffix[i]
}

/// An entry named like a model export: `.xmi` or `.uml`, in any case.
pub open spec fn is_model_name(name: Seq<u8>) -> bool {
    ends_with_lower(name, seq![46u8, 120u8, 109u8, 105u8]) || ends_with_lower(name, seq![46u8, 117u8, 109u8, 108u8])
}

/// The first entry from `i` on named like a model export.
pub open spec fn first_model_entry(es: Seq<EntryModel>, i: int) -> Option<int>
    decreases es.len() - i,
{
    if i < 0 || i >= es.len() {
        None
    } else if is_model_name(es[i].name) {
        Some(i)
    } else {
        first_model_entry(es, i + 1)
    }
}

/// The entry the model is read from: the first one named like an XMI export (`.xmi`, or the
/// `.uml` name the same XMI serialisation also goes by). A container without one has no model
/// to read and is refused.
pub open spec fn chosen_entry(es: Seq<EntryModel>) -> Option<int> {
    first_model_entry(es, 0)
}

/// The XMI export a Cameo .mdzip container holds, or the sentence that says why it cannot be
/// had.
pub open spec fn spec_extract_cameo(c: Seq<u8>) -> Result<Seq<u8>, Seq<char>> {
    match spec_zip_entries(c) {
        Err(m) => Err(m),
        Ok(es) => match chosen_entry(es) {
            None => Err("the .mdzip container holds no model entry"@),
            Some(i) => {
                let e = es[i];
                let end = e.data_offset + e.compressed;
                let name = utf8_lossy(e.name);
                if end > usize::MAX {
                    Err("the .mdzip container is malformed"@)
                } else if end > c.len() {
                    Err("the .mdzip container is truncated"@)
                } else {
                    let stored = c.subrange(e.data_offset, end);
                    if e.method == 0 {
                        if stored.len() != e.uncompressed {
                            Err("the .mdzip entry "@ + name + " is damaged: it declares "@ + decimal(
                                e.uncompressed as nat,
                            ) + " bytes and stores "@ + decimal(stored.len()))
                        } else {
                            Ok(stored)
                        }
                    } else if e.method == 8 {
                        match spec_inflate(stored, e.uncompressed) {
                            Ok(o) => Ok(o),
                            Err(d) => Err("the .mdzip entry "@ + name + " could not be unpacked: "@
                                + d.text()),
                        }
                    } else {
                        Err("the .mdzip entry "@ + name + " uses compression method "@ + decimal(
                            e.method as nat,
                        ) + ", which this build cannot unpack"@)
                    }
                }
            },
        },
    }
}

fn ascii_lower_byte(c: u8) -> (r: u8)
    ensures
        r == ascii_lower(c),
{
    if 65 <= c && c <= 90 {
        c + 32
    } else {
        c
    }
}

fn ends_with_lower_exec(name: &Vec<u8>, suffix: &[u8; 4]) -> (r: bool)
    ensures
        r == ends_with_lower(name@, suffix@),
{
    if name.len() < 4 {
        return false;
    }
    let base = name.len() - 4;
    let mut i: usize = 0;
    while i < 4
        invariant
            i <= 4,
            base == name@.len() - 4,
            forall|j: int| 0 <= j < i ==> ascii_lower(#[trigger] name@[name@.len() - suffix@.len() + j]) == suffix@[j],
        decreases 4 - i,
    {
        assert(base + i < name.len());
        if ascii_lower_byte(name[base + i]) != suffix[i] {
            return false;
        }
        i = i + 1;
    }
    true
}

/// Pull the XMI export out of a Cameo .mdzip container. A container that holds no XMI entry, or
/// holds one this build cannot unpack, is refused with a sentence naming what was found rather
/// than a generic error: the person is told what to do next.
pub fn extract_cameo(container: &[u8]) -> (r: Result<Vec<u8>, String>)
    requires
        container@.len() <= isize::MAX,
    ensures
        match spec_extract_cameo(container@) {
            Ok(v) => r matches Ok(x) && x@ == v,
            Err(m) => r matches Err(s) && s@ == m,
        },
{
    let entries = match zip_entries(container) {
        Ok(entries) => entries,
        Err(e) => {
            return Err(e);
        },
    };
    let ghost es = Seq::new(entries@.len(), |i: int| entries@[i].model());
    proof {
        assert(spec_zip_entries(container@) is Ok);
        let es2 = spec_zip_entries(container@)->Ok_0;
        assert(es =~= es2);
    }
    let xmi_suffix: [u8; 4] = [46, 120, 109, 105];
    let uml_suffix: [u8; 4] = [46, 117, 109, 108];
    proof {
        assert(xmi_suffix@ =~= seq![46u8, 120u8, 109u8, 105u8]);
        assert(uml_suffix@ =~= seq![46u8, 117u8, 109u8, 108u8]);
    }
    let mut chosen: Option<usize> = None;
    let mut i: usize = 0;
    while i < entries.len() && chosen.is_none()
        invariant
            i <= entries@.len(),
            es.len() == entries@.len(),
            forall|k: int| 0 <= k < es.len() ==> es[k] == #[trigger] entries@[k].model(),
            xmi_suffix@ == seq![46u8, 120u8, 109u8, 105u8],
            uml_suffix@ == seq![46u8, 117u8, 109u8, 108u8],
            chosen is None ==> first_model_entry(es, 0) == first_model_entry(es, i as int),
            chosen matches Some(k) ==> first_model_entry(es, 0) == Some(k as int) && k < es.len(),
        decreases entries@.len() - i,
    {
        let name = &entries[i].name;
        assert(es[i as int] == entries@[i as int].model());
        if ends_with_lower_exec(name, &xmi_suffix) || ends_with_lower_exec(name, &uml_suffix) {
            chosen = Some(i);
        }
        i = i + 1;
    }
    let index = match chosen {
        Some(index) => index,
        None => {
            return Err(text("the .mdzip container holds no model entry"));
        },
    };
    let xmi = &entries[index];
    let end = match xmi.data_offset.checked_add(xmi.compressed_size) {
        Some(end) => end,
        None => {
            return Err(text("the .mdzip container is malformed"));
        },
    };
    if end > container.len() {
        return Err(text("the .mdzip container is truncated"));
    }
    let stored = vstd::slice::slice_subrange(container, xmi.data_offset, end);
    if xmi.method == 0 {
        if stored.len() != xmi.uncompressed_size {
            let mut message = text("the .mdzip entry ");
            message.append(lossy_text(xmi.name.as_slice()).as_str());
            message.append(" is damaged: it declares ");
            message.append(decimal_string(xmi.uncompressed_size as u64).as_str());
            message.append(" bytes and stores ");
            message.append(decimal_string(stored.len() as u64).as_str());
            return Err(message);
        }
        Ok(vstd::slice::slice_to_vec(stored))
    } else if xmi.method == 8 {
        // Method 8 is DEFLATE, which is what a real Cameo container uses.
        match inflate(stored, xmi.uncompressed_size) {
            Ok(out) => Ok(out),
            Err(detail) => {
                let mut message = text("the .mdzip entry ");
                message.append(lossy_text(xmi.name.as_slice()).as_str());
                message.append(" could not be unpacked: ");
                message.append(detail.message().as_str());
                Err(message)
            },
        }
    } else {
        let mut message = text("the .mdzip entry ");
        message.append(lossy_text(xmi.name.as_slice()).as_str());
        message.append(" uses compression method ");
        message.append(decimal_string(xmi.method as u64).as_str());
        message.append(", which this build cannot unpack");
        Err(message)
    }
}

/// Where the `k`-th record of a central directory that starts at `cursor` sits: each record is
/// 46 bytes followed by its name, its extra field and its comment, whose lengths it gives at
/// offsets 28, 30 and 32.
pub open spec fn record_at(b: Seq<u8>, cursor: int, k: nat) -> int
    decreases k,
{
    if k == 0 {
        cursor
    } else {
        record_at(b, cursor + 46 + le16(b, cursor + 28) + le16(b, cursor + 30) + le16(b, cursor + 32), (k - 1) as nat)
    }
}

/// Whether `e` is what the central record at `r` says of its entry: its name, and where its
/// bytes start, which is after the entry's local header (30 bytes at the offset the record
/// gives at 42) and the name and extra field whose lengths that local header gives at 26
/// and 28.
pub open spec fn entry_of_record(b: Seq<u8>, r: int, e: EntryModel) -> bool {
    let local = le32(b, r + 42);
    &&& e.name == b.subrange(r + 46, r + 46 + le16(b, r + 28))
    &&& e.data_offset == local + 30 + le16(b, local + 26) + le16(b, local + 28)
}

proof fn lemma_central_entries(b: Seq<u8>, cursor: int, remaining: nat, acc: Seq<EntryModel>)
    ensures
        central_entries(b, cursor, remaining, acc) matches Ok(es) ==> es.len() == acc.len() + remaining
            && (forall|i: int| 0 <= i < acc.len() ==> #[trigger] es[i] == acc[i])
            && (forall|k: int| 0 <= k < remaining ==> entry_of_record(b, record_at(b, cursor, k as nat), #[trigger] es[acc.len() + k])),
    decreases remaining,
{
    if remaining > 0 && cursor + 4 <= b.len() && le32(b, cursor) == CENTRAL_SIGNATURE && cursor + 46 <= b.len() {
        let name_len = le16(b, cursor + 28);
        let extra_len = le16(b, cursor + 30);
        let comment_len = le16(b, cursor + 32);
        let local = le32(b, cursor + 42);
        if cursor + 46 + name_len <= b.len() && local + 30 <= b.len() {
            let entry = EntryModel {
                name: b.subrange(cursor + 46, cursor + 46 + name_len),
                method: le16(b, cursor + 10),
                compressed: le32(b, cursor + 20),
                uncompressed: le32(b, cursor + 24),
                data_offset: local + 30 + le16(b, local + 26) + le16(b, local + 28),
            };
            let next = cursor + 46 + name_len + extra_len + comment_len;
            lemma_central_entries(b, next, (remaining - 1) as nat, acc.push(entry));
            if let Ok(es) = central_entries(b, cursor, remaining, acc) {
                assert(es[acc.len() as int] == acc.push(entry)[acc.len() as int]);
                assert forall|k: int| 0 <= k < remaining implies entry_of_record(b, record_at(b, cursor, k as nat), #[trigger] es[acc.len() + k]) by {
                    if k == 0 {
                        assert(record_at(b, cursor, 0) == cursor);
                    } else {
                        assert(record_at(b, cursor, k as nat) == record_at(b, next, (k - 1) as nat));
                        assert(acc.len() + k == acc.push(entry).len() + (k - 1));
                    }
                }
                assert forall|i: int| 0 <= i < acc.len() implies #[trigger] es[i] == acc[i] by {
                    assert(es[i] == acc.push(entry)[i]);
                }
            }
        }
    }
}

/// Every entry the central directory lists starts its bytes right after its own local header:
/// 30 bytes at the offset its central record gives, then the name and extra field whose
/// lengths that local header gives, whatever lengths the central record gives for its own
/// copies of them. Its name is the one its central record carries.
pub proof fn lemma_entries_start_after_local_header(b: Seq<u8>)
    ensures
        spec_zip_entries(b) matches Ok(es) ==> forall|k: int|
            0 <= k < es.len() ==> entry_of_record(b, record_at(b, le32(b, spec_eocd(b)->0 + 16), k as nat), #[trigger] es[k]),
{
    if let Some(eocd) = spec_eocd(b) {
        lemma_central_entries(b, le32(b, eocd + 16), le16(b, eocd + 10) as nat, Seq::empty());
        if let Ok(es) = spec_zip_entries(b) {
            assert forall|k: int| 0 <= k < es.len() implies entry_of_record(b, record_at(b, le32(b, eocd + 16), k as nat), #[trigger] es[k]) by {
                assert(es[0 + k] == es[k]);
            }
        }
    }
}

} // verus!
