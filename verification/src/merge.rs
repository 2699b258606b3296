//! The configuration-merge driver: locate the module-descriptor entry of an
//! archive, pull the allow-listed attribute children out of the descriptor
//! document, and insert the derived module summary into the player-profile
//! document along a fixed, idempotently created path.

use vstd::prelude::*;
use vstd::utf8::valid_utf8;
use crate::bytes::{ends_with, le16, le32, seq_ends_with};
use crate::codec::{lz4_block_of, lz4_block_valid, spec_method_of, CodecError, Method};
use crate::doc::{
    append_element, child_has_tag, child_matches, elem_of, find_match, find_or_create_child,
    find_or_create_container, find_tag, first_where, lemma_first_where_at,
    lemma_first_where_some, Child, Node,
};
use crate::lspk;
use crate::lspk::{
    entry_in_bounds, spec_stored_bytes, ExtractError, FileEntry, FormatError,
};

verus! {

/// One step of the fixed path into the module-descriptor document, named so
/// a missing step can be reported.
#[derive(PartialEq, Eq, Structural, Clone, Copy, Debug)]
pub enum PathStep {
    SaveRoot,
    ConfigRegion,
    RootNode,
    ChildrenContainer,
    ModuleInfoNode,
}

#[derive(PartialEq, Eq, Structural, Clone, Copy, Debug)]
pub enum SchemaError {
    /// The descriptor document lacks the named step of its expected shape.
    PathNotFound(PathStep),
}

/// Any failure of locating and extracting the descriptor payload.
#[derive(PartialEq, Eq, Structural, Clone, Copy, Debug)]
pub enum ActivateError {
    Format(FormatError),
    Codec(CodecError),
    /// No entry of the archive carries the descriptor name suffix.
    DescriptorMissing,
}

/// The fixed byte suffix (`/meta.lsx`) that names the module-descriptor
/// entry inside an archive.
pub open spec fn descriptor_suffix() -> Seq<u8> {
    seq![47u8, 109u8, 101u8, 116u8, 97u8, 46u8, 108u8, 115u8, 120u8]
}

fn descriptor_suffix_bytes() -> (r: Vec<u8>)
    ensures
        r@ == descriptor_suffix(),
{
    let mut v: Vec<u8> = Vec::new();
    v.push(47);
    v.push(109);
    v.push(101);
    v.push(116);
    v.push(97);
    v.push(46);
    v.push(108);
    v.push(115);
    v.push(120);
    proof {
        assert(v@ =~= descriptor_suffix());
    }
    v
}

/// True when the entry's name carries the fixed descriptor suffix.
pub open spec fn entry_is_descriptor(e: FileEntry) -> bool {
    seq_ends_with(e.name@, descriptor_suffix())
}

/// Relies on core::str::from_utf8: it accepts exactly the valid UTF-8 byte
/// sequences, the validity predicate that vstd's UTF-8 model defines.
#[verifier::external_body]
fn utf8_check(v: &[u8]) -> (r: bool)
    ensures
        r == valid_utf8(v@),
{
    core::str::from_utf8(v).is_ok()
}

/// The lowercase hexadecimal text of the 128-bit digest of `bytes`: a
/// function of the bytes alone, used as a stable package-identity
/// fingerprint.
pub uninterp spec fn md5_hex_of(bytes: Seq<u8>) -> Seq<char>;

/// Relies on md5::compute, whose digest depends on the input bytes alone,
/// and on its lowercase-hex formatting: two hex digits for each of the 16
/// digest bytes, 32 characters in all.
#[verifier::external_body]
fn md5_hex(bytes: &[u8]) -> (r: String)
    ensures
        r@ == md5_hex_of(bytes@),
        r@.len() == 32,
{
    format!("{:x}", md5::compute(bytes))
}

// ---------------------------------------------------------------------------
// Descriptor lookup and payload extraction
// ---------------------------------------------------------------------------

/// True when entry `i` is the first descriptor entry and every name up to
/// and including it is valid UTF-8.
pub open spec fn first_descriptor_at(entries: Seq<FileEntry>, i: int) -> bool {
    &&& 0 <= i < entries.len()
    &&& entry_is_descriptor(entries[i])
    &&& forall|j: int| 0 <= j < i ==> !entry_is_descriptor(#[trigger] entries[j])
    &&& forall|j: int| 0 <= j <= i ==> valid_utf8((#[trigger] entries[j]).name@)
}

/// What the scan owes once an entry is the first descriptor: every way the
/// entry can be — out of bounds, each compression method, text or not —
/// forces one result of the scan.
pub open spec fn scan_outcome_for(e: FileEntry, a: Seq<u8>, r: Result<Vec<u8>, ActivateError>) -> bool {
    let stored = spec_stored_bytes(e, a);
    let block = lz4_block_of(stored);
    let m = spec_method_of(e.flags);
    &&& (!entry_in_bounds(e, a) ==> r == Err::<Vec<u8>, ActivateError>(
        ActivateError::Format(FormatError::Truncated),
    ))
    &&& (entry_in_bounds(e, a) ==> {
        &&& ((m == Method::Zlib || m == Method::Unrecognized) ==> r == Err::<
            Vec<u8>,
            ActivateError,
        >(ActivateError::Codec(CodecError::UnsupportedMethod)))
        &&& (m == Method::Stored ==> if valid_utf8(stored) {
            (r matches Ok(v) && v@ == stored)
        } else {
            r == Err::<Vec<u8>, ActivateError>(ActivateError::Format(FormatError::InvalidPayload))
        })
        &&& (m == Method::Lz4 ==> if !(lz4_block_valid(stored) && block.len()
            == e.uncompressed_size) {
            r == Err::<Vec<u8>, ActivateError>(ActivateError::Codec(
                CodecError::DecompressionFailed,
            ))
        } else if valid_utf8(block) {
            (r matches Ok(v) && v@ == block)
        } else {
            r == Err::<Vec<u8>, ActivateError>(ActivateError::Format(FormatError::InvalidPayload))
        })
    })
}

/// Scan `entries` in on-disk order for the first whose name ends with the
/// descriptor suffix, and extract its payload from `archive`.
///
/// Every name up to the match must be valid UTF-8; the match's payload must
/// be in bounds, decodable, and valid UTF-8 text.
pub fn extract_named_payload(archive: &[u8], entries: &Vec<FileEntry>) -> (r: Result<
    Vec<u8>,
    ActivateError,
>)
    ensures
        r matches Ok(v) ==> exists|i: int|
            {
                &&& #[trigger] first_descriptor_at(entries@, i)
                &&& entry_in_bounds(entries@[i], archive@)
                &&& valid_utf8(v@)
                &&& (spec_method_of(entries@[i].flags) == Method::Stored ==> v@
                    == spec_stored_bytes(entries@[i], archive@))
                &&& (spec_method_of(entries@[i].flags) == Method::Lz4 ==> v@ == lz4_block_of(
                    spec_stored_bytes(entries@[i], archive@),
                ) && v@.len() == entries@[i].uncompressed_size)
                &&& (spec_method_of(entries@[i].flags) == Method::Stored || spec_method_of(
                    entries@[i].flags,
                ) == Method::Lz4)
            },
        r == Err::<Vec<u8>, ActivateError>(ActivateError::DescriptorMissing) <==> {
            &&& forall|j: int| 0 <= j < entries@.len() ==> !entry_is_descriptor(#[trigger] entries@[j])
            &&& forall|j: int|
                0 <= j < entries@.len() ==> valid_utf8((#[trigger] entries@[j]).name@)
        },
        r == Err::<Vec<u8>, ActivateError>(ActivateError::Format(FormatError::InvalidName)) <==> exists|j: int|
            {
                &&& 0 <= j < entries@.len()
                &&& !valid_utf8((#[trigger] entries@[j]).name@)
                &&& forall|k: int| 0 <= k < j ==> valid_utf8((#[trigger] entries@[k]).name@)
                &&& forall|k: int| 0 <= k < j ==> !entry_is_descriptor(#[trigger] entries@[k])
            },
        r == Err::<Vec<u8>, ActivateError>(ActivateError::Format(FormatError::Truncated)) ==> exists|i: int|
            #[trigger] first_descriptor_at(entries@, i) && !entry_in_bounds(
                entries@[i],
                archive@,
            ),
        r == Err::<Vec<u8>, ActivateError>(ActivateError::Codec(CodecError::UnsupportedMethod))
            ==> exists|i: int|
            #[trigger] first_descriptor_at(entries@, i) && entry_in_bounds(entries@[i], archive@)
                && (spec_method_of(entries@[i].flags) == Method::Zlib || spec_method_of(
                entries@[i].flags,
            ) == Method::Unrecognized),
        r == Err::<Vec<u8>, ActivateError>(ActivateError::Codec(CodecError::DecompressionFailed))
            ==> exists|i: int|
            #[trigger] first_descriptor_at(entries@, i) && entry_in_bounds(entries@[i], archive@)
                && spec_method_of(entries@[i].flags) == Method::Lz4,
        r == Err::<Vec<u8>, ActivateError>(ActivateError::Format(FormatError::InvalidPayload))
            ==> exists|i: int|
            #[trigger] first_descriptor_at(entries@, i) && entry_in_bounds(entries@[i], archive@)
                && (spec_method_of(entries@[i].flags) == Method::Stored ==> !valid_utf8(
                spec_stored_bytes(entries@[i], archive@),
            )),
        forall|i: int|
            #[trigger] first_descriptor_at(entries@, i) ==> scan_outcome_for(
                entries@[i],
                archive@,
                r,
            ),
{
    let suffix = descriptor_suffix_bytes();
    let n = entries.len();
    let mut idx: usize = 0;
    while idx < n
        invariant
            n == entries@.len(),
            idx <= n,
            suffix@ == descriptor_suffix(),
            forall|k: int| 0 <= k < idx ==> !entry_is_descriptor(#[trigger] entries@[k]),
            forall|k: int| 0 <= k < idx ==> valid_utf8((#[trigger] entries@[k]).name@),
        decreases n - idx,
    {
        let e = &entries[idx];
        if !utf8_check(e.name.as_slice()) {
            proof {
                assert forall|i: int| !first_descriptor_at(entries@, i) by {
                    if first_descriptor_at(entries@, i) {
                        if i < idx as int {
                            assert(entry_is_descriptor(entries@[i]));
                        } else {
                            assert(valid_utf8(entries@[idx as int].name@));
                        }
                    }
                }
            }
            return Err(ActivateError::Format(FormatError::InvalidName));
        }
        if ends_with(e.name.as_slice(), suffix.as_slice()) {
            proof {
                assert(first_descriptor_at(entries@, idx as int));
                assert forall|i: int|
                    first_descriptor_at(entries@, i) implies i == idx as int by {
                    if i < idx as int {
                        assert(entry_is_descriptor(entries@[i]));
                    } else if i > idx as int {
                        assert(!entry_is_descriptor(entries@[idx as int]));
                    }
                }
            }
            let payload = match lspk::extract(archive, e) {
                Ok(v) => v,
                Err(ExtractError::Format(f)) => {
                    return Err(ActivateError::Format(f));
                },
                Err(ExtractError::Codec(c)) => {
                    return Err(ActivateError::Codec(c));
                },
            };
            if !utf8_check(payload.as_slice()) {
                return Err(ActivateError::Format(FormatError::InvalidPayload));
            }
            return Ok(payload);
        }
        idx += 1;
    }
    proof {
        assert forall|i: int| !first_descriptor_at(entries@, i) by {
            if 0 <= i < entries@.len() {
                assert(!entry_is_descriptor(entries@[i]));
            }
        }
    }
    Err(ActivateError::DescriptorMissing)
}

/// The name bytes of record `i` of a decompressed file-table buffer.
pub open spec fn rec_name(buf: Seq<u8>, i: int) -> Seq<u8> {
    lspk::trimmed(
        buf.subrange(i * lspk::ENTRY_SIZE, i * lspk::ENTRY_SIZE + lspk::NAME_SIZE),
    )
}

/// The absolute payload offset of record `i`, from its split halves.
pub open spec fn rec_offset(buf: Seq<u8>, i: int) -> nat {
    le16(buf, i * lspk::ENTRY_SIZE + 260) * 0x100000000 + le32(buf, i * lspk::ENTRY_SIZE + 256)
}

/// The stored size of record `i`.
pub open spec fn rec_size(buf: Seq<u8>, i: int) -> nat {
    le32(buf, i * lspk::ENTRY_SIZE + 264)
}

/// The flags byte of record `i`.
pub open spec fn rec_flags(buf: Seq<u8>, i: int) -> u8 {
    buf[i * lspk::ENTRY_SIZE + 263]
}

/// True when record `i`'s name carries the descriptor suffix.
pub open spec fn rec_is_descriptor(buf: Seq<u8>, i: int) -> bool {
    seq_ends_with(rec_name(buf, i), descriptor_suffix())
}

/// True when record `i` of the archive's decompressed table is a stored,
/// in-bounds first descriptor, every name up to it is valid UTF-8, and its
/// stored bytes are valid UTF-8 text: an archive on which no outside codec
/// has a say past the table, so the front half owes success.
pub open spec fn stored_descriptor_rec(a: Seq<u8>, i: int) -> bool {
    let buf = lspk::spec_entries_buf(a);
    &&& 0 <= i < lspk::spec_entry_count(a)
    &&& rec_is_descriptor(buf, i)
    &&& forall|j: int| 0 <= j < i ==> !#[trigger] rec_is_descriptor(buf, j)
    &&& forall|j: int| 0 <= j <= i ==> valid_utf8(#[trigger] rec_name(buf, j))
    &&& spec_method_of(rec_flags(buf, i)) == Method::Stored
    &&& rec_offset(buf, i) + rec_size(buf, i) <= a.len()
    &&& valid_utf8(
        a.subrange(rec_offset(buf, i) as int, (rec_offset(buf, i) + rec_size(buf, i)) as int),
    )
}

/// Parse `archive` and extract the payload of its first descriptor entry:
/// the front half of the activation flow, from raw archive bytes to the
/// descriptor document's text bytes.
pub fn descriptor_payload(archive: &[u8]) -> (r: Result<Vec<u8>, ActivateError>)
    ensures
        !lspk::has_magic(archive@) ==> r == Err::<Vec<u8>, ActivateError>(
            ActivateError::Format(FormatError::BadMagic),
        ),
        lspk::has_magic(archive@) && archive@.len() >= 8 && lspk::spec_version(archive@)
            != lspk::SUPPORTED_VERSION ==> r == Err::<Vec<u8>, ActivateError>(
            ActivateError::Format(FormatError::UnsupportedVersion),
        ),
        r matches Ok(v) ==> lspk::header_ok(archive@) && lspk::table_ok(archive@) && valid_utf8(
            v@,
        ),
        lspk::header_ok(archive@) && lspk::table_ok(archive@) && lz4_block_valid(
            lspk::spec_table_blob(archive@),
        ) && lspk::spec_entries_buf(archive@).len() == lspk::spec_entry_count(archive@)
            * lspk::ENTRY_SIZE && (exists|i: int| #[trigger] stored_descriptor_rec(archive@, i))
            ==> r is Ok,
{
    let (_, entries) = match lspk::parse(archive) {
        Ok(p) => p,
        Err(e) => {
            return Err(ActivateError::Format(e));
        },
    };
    let r = extract_named_payload(archive, &entries);
    proof {
        let a = archive@;
        let buf = lspk::spec_entries_buf(a);
        if exists|i: int| stored_descriptor_rec(a, i) {
            let i = choose|i: int| stored_descriptor_rec(a, i);
            assert(lspk::entry_decodes(entries@[i], buf, i));
            assert(entries@[i].name@ == rec_name(buf, i));
            assert forall|j: int| 0 <= j < i implies !entry_is_descriptor(
                #[trigger] entries@[j],
            ) by {
                assert(lspk::entry_decodes(entries@[j], buf, j));
                assert(!rec_is_descriptor(buf, j));
            }
            assert forall|j: int| 0 <= j <= i implies valid_utf8(
                (#[trigger] entries@[j]).name@,
            ) by {
                assert(lspk::entry_decodes(entries@[j], buf, j));
                assert(valid_utf8(rec_name(buf, j)));
            }
            assert(first_descriptor_at(entries@, i));
            assert(lspk::spec_entry_offset(entries@[i]) == rec_offset(buf, i));
            assert(entries@[i].size_on_disk as nat == rec_size(buf, i));
            assert(entry_in_bounds(entries@[i], a));
            assert(spec_stored_bytes(entries@[i], a) == a.subrange(
                rec_offset(buf, i) as int,
                (rec_offset(buf, i) + rec_size(buf, i)) as int,
            ));
            assert(spec_method_of(entries@[i].flags) == Method::Stored);
            assert(scan_outcome_for(entries@[i], a, r));
        }
    }
    r
}

// ---------------------------------------------------------------------------
// Descriptor document navigation
// ---------------------------------------------------------------------------

/// The module-descriptor node reached by the fixed path through a parsed
/// descriptor document, or the first missing step: the save root (the
/// document itself when its tag is `save`, else its first `save` child),
/// then `region[id=Config]`, `node[id=root]`, its `children` container, and
/// `node[id=ModuleInfo]`.
pub open spec fn spec_config_path(doc: Node) -> Result<Node, PathStep> {
    let save_opt = if doc.name@ == "save"@ {
        Option::Some(doc)
    } else {
        match find_tag(doc.children@, "save"@) {
            Option::Some(i) => Option::Some(elem_of(doc.children@[i])),
            Option::None => Option::None,
        }
    };
    match save_opt {
        Option::None => Err(PathStep::SaveRoot),
        Option::Some(save) => match find_match(save.children@, "region"@, "id"@, "Config"@) {
            Option::None => Err(PathStep::ConfigRegion),
            Option::Some(i) => {
                let region = elem_of(save.children@[i]);
                match find_match(region.children@, "node"@, "id"@, "root"@) {
                    Option::None => Err(PathStep::RootNode),
                    Option::Some(j) => {
                        let root = elem_of(region.children@[j]);
                        match find_tag(root.children@, "children"@) {
                            Option::None => Err(PathStep::ChildrenContainer),
                            Option::Some(k) => {
                                let cont = elem_of(root.children@[k]);
                                match find_match(cont.children@, "node"@, "id"@, "ModuleInfo"@) {
                                    Option::None => Err(PathStep::ModuleInfoNode),
                                    Option::Some(l) => Ok(elem_of(cont.children@[l])),
                                }
                            },
                        }
                    },
                }
            },
        },
    }
}

/// Walk the fixed path of [`spec_config_path`] through the descriptor
/// document and hand back the module-descriptor node, or name the first
/// missing step.
pub fn extract_mod_config(doc: Node) -> (r: Result<Node, SchemaError>)
    ensures
        r matches Ok(m) ==> spec_config_path(doc) == Ok::<Node, PathStep>(m),
        r matches Err(e) ==> (e matches SchemaError::PathNotFound(step) && spec_config_path(doc)
            == Err::<Node, PathStep>(step)),
{
    let save_tag: String = "save".to_owned();
    let save: Node = if doc.name == save_tag {
        doc
    } else {
        match crate::doc::find_child_by_tag(&doc, &save_tag) {
            Some(i) => {
                proof {
                    lemma_first_where_some(
                        doc.children@,
                        |c: Child| child_has_tag(c, "save"@),
                        i as int,
                    );
                }
                let mut doc = doc;
                match doc.children.remove(i) {
                    Child::Element(n) => n,
                    _ => unreached(),
                }
            },
            None => {
                return Err(SchemaError::PathNotFound(PathStep::SaveRoot));
            },
        }
    };
    let region_tag: String = "region".to_owned();
    let node_tag: String = "node".to_owned();
    let children_tag: String = "children".to_owned();
    let id_key: String = "id".to_owned();
    let config_val: String = "Config".to_owned();
    let root_val: String = "root".to_owned();
    let module_info_val: String = "ModuleInfo".to_owned();

    let region: Node = match crate::doc::find_child(&save, &region_tag, &id_key, &config_val) {
        Some(i) => {
            proof {
                lemma_first_where_some(
                    save.children@,
                    |c: Child| child_matches(c, "region"@, "id"@, "Config"@),
                    i as int,
                );
            }
            let mut save = save;
            match save.children.remove(i) {
                Child::Element(n) => n,
                _ => unreached(),
            }
        },
        None => {
            return Err(SchemaError::PathNotFound(PathStep::ConfigRegion));
        },
    };
    let root: Node = match crate::doc::find_child(&region, &node_tag, &id_key, &root_val) {
        Some(i) => {
            proof {
                lemma_first_where_some(
                    region.children@,
                    |c: Child| child_matches(c, "node"@, "id"@, "root"@),
                    i as int,
                );
            }
            let mut region = region;
            match region.children.remove(i) {
                Child::Element(n) => n,
                _ => unreached(),
            }
        },
        None => {
            return Err(SchemaError::PathNotFound(PathStep::RootNode));
        },
    };
    let cont: Node = match crate::doc::find_child_by_tag(&root, &children_tag) {
        Some(i) => {
            proof {
                lemma_first_where_some(
                    root.children@,
                    |c: Child| child_has_tag(c, "children"@),
                    i as int,
                );
            }
            let mut root = root;
            match root.children.remove(i) {
                Child::Element(n) => n,
                _ => unreached(),
            }
        },
        None => {
            return Err(SchemaError::PathNotFound(PathStep::ChildrenContainer));
        },
    };
    match crate::doc::find_child(&cont, &node_tag, &id_key, &module_info_val) {
        Some(i) => {
            proof {
                lemma_first_where_some(
                    cont.children@,
                    |c: Child| child_matches(c, "node"@, "id"@, "ModuleInfo"@),
                    i as int,
                );
            }
            let mut cont = cont;
            match cont.children.remove(i) {
                Child::Element(n) => Ok(n),
                _ => unreached(),
            }
        },
        None => Err(SchemaError::PathNotFound(PathStep::ModuleInfoNode)),
    }
}

// ---------------------------------------------------------------------------
// Building the module summary node
// ---------------------------------------------------------------------------

/// The value of the first `id` attribute of `n`, if any.
pub open spec fn spec_id_value(n: Node) -> Option<Seq<char>> {
    match first_where(n.attributes@, |a: (String, String)| a.0@ == "id"@) {
        Option::Some(i) => Option::Some(n.attributes@[i].1@),
        Option::None => Option::None,
    }
}

/// The fixed allow-list of descriptor fields that are copied into the
/// module summary.
pub open spec fn allowed_id(v: Seq<char>) -> bool {
    ||| v == "Folder"@
    ||| v == "Name"@
    ||| v == "UUID"@
    ||| v == "Version"@
    ||| v == "Version64"@
}

/// True when `c` is an `attribute` element whose identifying `id` value is
/// on the allow-list.
pub open spec fn is_allowed_child(c: Child) -> bool {
    &&& c matches Child::Element(n)
    &&& n.name@ == "attribute"@
    &&& (spec_id_value(elem_of(c)) matches Option::Some(v) && allowed_id(v))
}

/// The allow-listed `attribute` children of a child list, in order.
pub open spec fn allowed_filter(s: Seq<Child>) -> Seq<Child> {
    s.filter(|c: Child| is_allowed_child(c))
}

proof fn lemma_allowed_filter_push(s: Seq<Child>, x: Child)
    ensures
        allowed_filter(s.push(x)) == if is_allowed_child(x) {
            allowed_filter(s).push(x)
        } else {
            allowed_filter(s)
        },
{
    reveal(Seq::filter);
    assert(s.push(x).drop_last() =~= s);
    assert(s.push(x).last() == x);
}

fn node_allowed(n: &Node) -> (r: bool)
    ensures
        r == (n.name@ == "attribute"@ && (spec_id_value(*n) matches Option::Some(v) && allowed_id(
            v,
        ))),
{
    let attribute_tag: String = "attribute".to_owned();
    let id_key: String = "id".to_owned();
    if !crate::doc::string_eq(&n.name, &attribute_tag) {
        return false;
    }
    let folder_val: String = "Folder".to_owned();
    let name_val: String = "Name".to_owned();
    let uuid_val: String = "UUID".to_owned();
    let version_val: String = "Version".to_owned();
    let version64_val: String = "Version64".to_owned();
    let m = n.attributes.len();
    let mut i: usize = 0;
    while i < m
        invariant
            m == n.attributes@.len(),
            i <= m,
            n.name@ == "attribute"@,
            id_key@ == "id"@,
            folder_val@ == "Folder"@,
            name_val@ == "Name"@,
            uuid_val@ == "UUID"@,
            version_val@ == "Version"@,
            version64_val@ == "Version64"@,
            forall|k: int| 0 <= k < i ==> (#[trigger] n.attributes@[k]).0@ != "id"@,
        decreases m - i,
    {
        if crate::doc::string_eq(&n.attributes[i].0, &id_key) {
            proof {
                lemma_first_where_at(n.attributes@, |a: (String, String)| a.0@ == "id"@, i as int);
            }
            let v = &n.attributes[i].1;
            return crate::doc::string_eq(v, &folder_val) || crate::doc::string_eq(v, &name_val)
                || crate::doc::string_eq(v, &uuid_val) || crate::doc::string_eq(v, &version_val)
                || crate::doc::string_eq(v, &version64_val);
        }
        i += 1;
    }
    proof {
        lemma_first_where_at(n.attributes@, |a: (String, String)| a.0@ == "id"@, m as int);
    }
    false
}

fn child_allowed(c: &Child) -> (r: bool)
    ensures
        r == is_allowed_child(*c),
{
    match c {
        Child::Element(n) => node_allowed(n),
        _ => false,
    }
}

/// True when `c` is the appended digest leaf: an `attribute` element with
/// `id = MD5`, `type = LSString`, and the digest text as its `value`.
pub open spec fn md5_attr_child(c: Child, digest: Seq<char>) -> bool {
    &&& c matches Child::Element(n)
    &&& n.name@ == "attribute"@
    &&& n.children@.len() == 0
    &&& n.attributes@.len() == 3
    &&& n.attributes@[0].0@ == "id"@ && n.attributes@[0].1@ == "MD5"@
    &&& n.attributes@[1].0@ == "type"@ && n.attributes@[1].1@ == "LSString"@
    &&& n.attributes@[2].0@ == "value"@ && n.attributes@[2].1@ == digest
}

/// Build the module summary node from the module-descriptor node: a `node`
/// element identified as `ModuleShortDesc`, holding exactly the descriptor's
/// allow-listed attribute children in their original order, followed by one
/// new attribute leaf with the whole-archive digest.
pub fn build_module_node(config: Node, archive: &[u8]) -> (r: Node)
    ensures
        r.name@ == "node"@,
        r.attributes@.len() == 1,
        r.attributes@[0].0@ == "id"@,
        r.attributes@[0].1@ == "ModuleShortDesc"@,
        r.children@.len() == allowed_filter(config.children@).len() + 1,
        r.children@.drop_last() == allowed_filter(config.children@),
        md5_attr_child(r.children@.last(), md5_hex_of(archive@)),
{
    let ghost orig = config.children@;
    let mut rest = config.children;
    let mut picked: Vec<Child> = Vec::new();
    let ghost mut done: Seq<Child> = Seq::empty();
    proof {
        assert(orig =~= done + rest@);
        assert(picked@ =~= allowed_filter(done));
    }
    while rest.len() > 0
        invariant
            orig == done + rest@,
            picked@ == allowed_filter(done),
        decreases rest@.len(),
    {
        let ghost done0 = done;
        let c = rest.remove(0);
        let ghost gc = c;
        if child_allowed(&c) {
            picked.push(c);
        }
        proof {
            done = done0.push(gc);
            lemma_allowed_filter_push(done0, gc);
            assert(orig =~= done + rest@);
        }
    }
    proof {
        assert(done =~= orig);
    }
    let digest = md5_hex(archive);
    let mut md5_attrs: Vec<(String, String)> = Vec::new();
    md5_attrs.push(("id".to_owned(), "MD5".to_owned()));
    md5_attrs.push(("type".to_owned(), "LSString".to_owned()));
    md5_attrs.push(("value".to_owned(), digest));
    let md5_node = Node {
        name: "attribute".to_owned(),
        attributes: md5_attrs,
        children: Vec::new(),
    };
    let mut picked = picked;
    picked.push(Child::Element(md5_node));
    proof {
        assert(picked@.drop_last() =~= allowed_filter(orig));
    }
    let mut attrs: Vec<(String, String)> = Vec::new();
    attrs.push(("id".to_owned(), "ModuleShortDesc".to_owned()));
    Node { name: "node".to_owned(), attributes: attrs, children: picked }
}

// ---------------------------------------------------------------------------
// Inserting the module summary into the profile document
// ---------------------------------------------------------------------------

/// The module list of an optionally found container: its children, or empty
/// when the container does not exist yet.
pub open spec fn mods_list_of(o: Option<Node>) -> Seq<Child> {
    match o {
        Option::Some(c) => c.children@,
        Option::None => Seq::empty(),
    }
}

/// The `children` container inside the `Mods` node.
pub open spec fn path_in_mods(mods: Node) -> Option<Node> {
    match find_tag(mods.children@, "children"@) {
        Option::Some(k) => Option::Some(elem_of(mods.children@[k])),
        Option::None => Option::None,
    }
}

/// The path from the `children` container of the root node: through
/// `node[id=Mods]` to its `children` container.
pub open spec fn path_in_container(cont: Node) -> Option<Node> {
    match find_match(cont.children@, "node"@, "id"@, "Mods"@) {
        Option::Some(k) => path_in_mods(elem_of(cont.children@[k])),
        Option::None => Option::None,
    }
}

/// The path from `node[id=root]`: through its `children` container.
pub open spec fn path_in_root(root: Node) -> Option<Node> {
    match find_tag(root.children@, "children"@) {
        Option::Some(k) => path_in_container(elem_of(root.children@[k])),
        Option::None => Option::None,
    }
}

/// The path from `region[id=ModuleSettings]`: through `node[id=root]`.
pub open spec fn path_in_region(region: Node) -> Option<Node> {
    match find_match(region.children@, "node"@, "id"@, "root"@) {
        Option::Some(k) => path_in_root(elem_of(region.children@[k])),
        Option::None => Option::None,
    }
}

/// The innermost `children` container that activation records are appended
/// to, reached from the profile root by first matches along the fixed path
/// `region[id=ModuleSettings] / node[id=root] / children / node[id=Mods] /
/// children`, or nothing if some step is missing.
pub open spec fn spec_mods_path(profile: Node) -> Option<Node> {
    match find_match(profile.children@, "region"@, "id"@, "ModuleSettings"@) {
        Option::Some(k) => path_in_region(elem_of(profile.children@[k])),
        Option::None => Option::None,
    }
}

/// True when `post` is `pre` with only the element at `k` replaced by
/// another element, every other child unchanged in place.
pub open spec fn children_updated_at(pre: Seq<Child>, post: Seq<Child>, k: int) -> bool {
    &&& 0 <= k < pre.len()
    &&& post.len() == pre.len()
    &&& forall|j: int| 0 <= j < pre.len() && j != k ==> post[j] == #[trigger] pre[j]
    &&& pre[k] is Element
    &&& post[k] is Element
}

/// True when `post` is `pre` with one element appended at the end, every
/// existing child unchanged in place.
pub open spec fn children_appended(pre: Seq<Child>, post: Seq<Child>) -> bool {
    &&& post.len() == pre.len() + 1
    &&& forall|j: int| 0 <= j < pre.len() ==> post[j] == #[trigger] pre[j]
    &&& post[pre.len() as int] is Element
}

/// Shape of a `children` container created from nothing: no attributes,
/// holding exactly the new module element.
pub open spec fn created_mods_container(e: Node, module: Node) -> bool {
    &&& e.name@ == "children"@
    &&& e.attributes@.len() == 0
    &&& e.children@.len() == 1
    &&& e.children@[0] == Child::Element(module)
}

/// Shape of a `node[id=Mods]` created from nothing: exactly its identifying
/// attribute, and one created container inside.
pub open spec fn created_mods_node(e: Node, module: Node) -> bool {
    &&& e.name@ == "node"@
    &&& e.attributes@.len() == 1
    &&& e.attributes@[0].0@ == "id"@
    &&& e.attributes@[0].1@ == "Mods"@
    &&& e.children@.len() == 1
    &&& (e.children@[0] matches Child::Element(c) && created_mods_container(c, module))
}

/// Shape of the root's `children` container created from nothing.
pub open spec fn created_root_container(e: Node, module: Node) -> bool {
    &&& e.name@ == "children"@
    &&& e.attributes@.len() == 0
    &&& e.children@.len() == 1
    &&& (e.children@[0] matches Child::Element(c) && created_mods_node(c, module))
}

/// Shape of a `node[id=root]` created from nothing.
pub open spec fn created_root_node(e: Node, module: Node) -> bool {
    &&& e.name@ == "node"@
    &&& e.attributes@.len() == 1
    &&& e.attributes@[0].0@ == "id"@
    &&& e.attributes@[0].1@ == "root"@
    &&& e.children@.len() == 1
    &&& (e.children@[0] matches Child::Element(c) && created_root_container(c, module))
}

/// Shape of a `region[id=ModuleSettings]` created from nothing.
pub open spec fn created_region(e: Node, module: Node) -> bool {
    &&& e.name@ == "region"@
    &&& e.attributes@.len() == 1
    &&& e.attributes@[0].0@ == "id"@
    &&& e.attributes@[0].1@ == "ModuleSettings"@
    &&& e.children@.len() == 1
    &&& (e.children@[0] matches Child::Element(c) && created_root_node(c, module))
}

/// Frame of the step into a `node[id=Mods]`: only its first `children`
/// container changes (gaining the module last), or a created container is
/// appended as its new last child; everything else keeps its place.
pub open spec fn mods_step(pre: Node, post: Node, module: Node) -> bool {
    &&& post.name == pre.name
    &&& post.attributes == pre.attributes
    &&& match find_tag(pre.children@, "children"@) {
        Option::Some(k) => {
            &&& children_updated_at(pre.children@, post.children@, k)
            &&& elem_of(post.children@[k]).name == elem_of(pre.children@[k]).name
            &&& elem_of(post.children@[k]).attributes == elem_of(pre.children@[k]).attributes
            &&& elem_of(post.children@[k]).children@ == elem_of(
                pre.children@[k],
            ).children@.push(Child::Element(module))
        },
        Option::None => {
            &&& children_appended(pre.children@, post.children@)
            &&& created_mods_container(
                elem_of(post.children@[pre.children@.len() as int]),
                module,
            )
        },
    }
}

/// Frame of the step into the root's `children` container: only the first
/// `node[id=Mods]` changes, by [`mods_step`], or a created `Mods` node is
/// appended last.
pub open spec fn container_step(pre: Node, post: Node, module: Node) -> bool {
    &&& post.name == pre.name
    &&& post.attributes == pre.attributes
    &&& match find_match(pre.children@, "node"@, "id"@, "Mods"@) {
        Option::Some(k) => {
            &&& children_updated_at(pre.children@, post.children@, k)
            &&& mods_step(elem_of(pre.children@[k]), elem_of(post.children@[k]), module)
        },
        Option::None => {
            &&& children_appended(pre.children@, post.children@)
            &&& created_mods_node(elem_of(post.children@[pre.children@.len() as int]), module)
        },
    }
}

/// Frame of the step into a `node[id=root]`.
pub open spec fn root_step(pre: Node, post: Node, module: Node) -> bool {
    &&& post.name == pre.name
    &&& post.attributes == pre.attributes
    &&& match find_tag(pre.children@, "children"@) {
        Option::Some(k) => {
            &&& children_updated_at(pre.children@, post.children@, k)
            &&& container_step(elem_of(pre.children@[k]), elem_of(post.children@[k]), module)
        },
        Option::None => {
            &&& children_appended(pre.children@, post.children@)
            &&& created_root_container(
                elem_of(post.children@[pre.children@.len() as int]),
                module,
            )
        },
    }
}

/// Frame of the step into a `region[id=ModuleSettings]`.
pub open spec fn region_step(pre: Node, post: Node, module: Node) -> bool {
    &&& post.name == pre.name
    &&& post.attributes == pre.attributes
    &&& match find_match(pre.children@, "node"@, "id"@, "root"@) {
        Option::Some(k) => {
            &&& children_updated_at(pre.children@, post.children@, k)
            &&& root_step(elem_of(pre.children@[k]), elem_of(post.children@[k]), module)
        },
        Option::None => {
            &&& children_appended(pre.children@, post.children@)
            &&& created_root_node(elem_of(post.children@[pre.children@.len() as int]), module)
        },
    }
}

/// Full frame of one activation: every node of the profile keeps its tag,
/// attributes and position; the only mutation is one chain of first-match
/// steps down the fixed path, each level either updating its one matching
/// child by the next step or appending a freshly created node — with
/// exactly its identifying attribute — as the last child.
pub open spec fn insert_frame(pre: Node, post: Node, module: Node) -> bool {
    &&& post.name == pre.name
    &&& post.attributes == pre.attributes
    &&& match find_match(pre.children@, "region"@, "id"@, "ModuleSettings"@) {
        Option::Some(k) => {
            &&& children_updated_at(pre.children@, post.children@, k)
            &&& region_step(elem_of(pre.children@[k]), elem_of(post.children@[k]), module)
        },
        Option::None => {
            &&& children_appended(pre.children@, post.children@)
            &&& created_region(elem_of(post.children@[pre.children@.len() as int]), module)
        },
    }
}

proof fn lemma_remove_insert<T>(s: Seq<T>, i: int, x: T)
    requires
        0 <= i < s.len(),
    ensures
        s.remove(i).insert(i, x) == s.update(i, x),
{
    assert(s.remove(i).insert(i, x) =~= s.update(i, x));
}

fn insert_in_mods(mods: &mut Node, module: Node)
    ensures
        final(mods).name == old(mods).name,
        final(mods).attributes == old(mods).attributes,
        path_in_mods(*final(mods)) is Some,
        mods_list_of(path_in_mods(*final(mods))) == mods_list_of(path_in_mods(*old(mods))).push(
            Child::Element(module),
        ),
        mods_step(*old(mods), *final(mods), module),
{
    let ghost gm = module;
    let ghost pre = *mods;
    let children_tag: String = "children".to_owned();
    let k = find_or_create_container(mods, &children_tag);
    let ghost m1 = *mods;
    proof {
        lemma_first_where_some(m1.children@, |c: Child| child_has_tag(c, "children"@), k as int);
    }
    let c = mods.children.remove(k);
    let ghost gcont0 = elem_of(m1.children@[k as int]);
    let mut cont = match c {
        Child::Element(n) => n,
        _ => unreached(),
    };
    append_element(&mut cont, module);
    let ghost gcont = cont;
    mods.children.insert(k, Child::Element(cont));
    proof {
        lemma_remove_insert(m1.children@, k as int, Child::Element(gcont));
        assert(mods.children@ == m1.children@.update(k as int, Child::Element(gcont)));
        assert(child_has_tag(Child::Element(gcont), "children"@));
        assert forall|j: int| 0 <= j < k implies !child_has_tag(
            #[trigger] mods.children@[j],
            "children"@,
        ) by {
            assert(mods.children@[j] == m1.children@[j]);
        }
        lemma_first_where_at(mods.children@, |c: Child| child_has_tag(c, "children"@), k as int);
        assert(path_in_mods(*mods) == Option::Some(gcont));
        assert(gcont.children@ == gcont0.children@.push(Child::Element(gm)));
        if find_tag(pre.children@, "children"@) is Some {
            assert(m1 == pre);
            assert(path_in_mods(pre) == Option::Some(gcont0));
            assert(children_updated_at(pre.children@, mods.children@, k as int));
        } else {
            assert(gcont0.children@ =~= Seq::<Child>::empty());
            assert(path_in_mods(pre) is None);
            assert(mods.children@ =~= pre.children@.push(Child::Element(gcont)));
            assert(children_appended(pre.children@, mods.children@));
            assert(created_mods_container(gcont, gm));
        }
        assert(mods_step(pre, *mods, gm));
    }
}

fn insert_in_container(cont: &mut Node, module: Node)
    ensures
        final(cont).name == old(cont).name,
        final(cont).attributes == old(cont).attributes,
        path_in_container(*final(cont)) is Some,
        mods_list_of(path_in_container(*final(cont))) == mods_list_of(
            path_in_container(*old(cont)),
        ).push(Child::Element(module)),
        container_step(*old(cont), *final(cont), module),
{
    let ghost gm = module;
    let ghost pre = *cont;
    let node_tag: String = "node".to_owned();
    let id_key: String = "id".to_owned();
    let mods_val: String = "Mods".to_owned();
    let k = find_or_create_child(cont, &node_tag, &id_key, &mods_val);
    let ghost m1 = *cont;
    proof {
        lemma_first_where_some(
            m1.children@,
            |c: Child| child_matches(c, "node"@, "id"@, "Mods"@),
            k as int,
        );
    }
    let c = cont.children.remove(k);
    let ghost ginner0 = elem_of(m1.children@[k as int]);
    let mut inner = match c {
        Child::Element(n) => n,
        _ => unreached(),
    };
    insert_in_mods(&mut inner, module);
    let ghost ginner = inner;
    cont.children.insert(k, Child::Element(inner));
    proof {
        lemma_remove_insert(m1.children@, k as int, Child::Element(ginner));
        assert(cont.children@ == m1.children@.update(k as int, Child::Element(ginner)));
        assert(child_matches(Child::Element(ginner), "node"@, "id"@, "Mods"@));
        assert forall|j: int| 0 <= j < k implies !child_matches(
            #[trigger] cont.children@[j],
            "node"@,
            "id"@,
            "Mods"@,
        ) by {
            assert(cont.children@[j] == m1.children@[j]);
        }
        lemma_first_where_at(
            cont.children@,
            |c: Child| child_matches(c, "node"@, "id"@, "Mods"@),
            k as int,
        );
        assert(path_in_container(*cont) == path_in_mods(ginner));
        if find_match(pre.children@, "node"@, "id"@, "Mods"@) is Some {
            assert(m1 == pre);
            assert(path_in_container(pre) == path_in_mods(ginner0));
            assert(children_updated_at(pre.children@, cont.children@, k as int));
        } else {
            assert(ginner0.children@ =~= Seq::<Child>::empty());
            assert(path_in_mods(ginner0) is None);
            assert(path_in_container(pre) is None);
            assert(cont.children@ =~= pre.children@.push(Child::Element(ginner)));
            assert(children_appended(pre.children@, cont.children@));
            assert(find_tag(ginner0.children@, "children"@) is None);
            assert(created_mods_container(elem_of(ginner.children@[0]), gm));
            assert(created_mods_node(ginner, gm));
        }
        assert(container_step(pre, *cont, gm));
    }
}

fn insert_in_root(root: &mut Node, module: Node)
    ensures
        final(root).name == old(root).name,
        final(root).attributes == old(root).attributes,
        path_in_root(*final(root)) is Some,
        mods_list_of(path_in_root(*final(root))) == mods_list_of(path_in_root(*old(root))).push(
            Child::Element(module),
        ),
        root_step(*old(root), *final(root), module),
{
    let ghost gm = module;
    let ghost pre = *root;
    let children_tag: String = "children".to_owned();
    let k = find_or_create_container(root, &children_tag);
    let ghost m1 = *root;
    proof {
        lemma_first_where_some(m1.children@, |c: Child| child_has_tag(c, "children"@), k as int);
    }
    let c = root.children.remove(k);
    let ghost ginner0 = elem_of(m1.children@[k as int]);
    let mut inner = match c {
        Child::Element(n) => n,
        _ => unreached(),
    };
    insert_in_container(&mut inner, module);
    let ghost ginner = inner;
    root.children.insert(k, Child::Element(inner));
    proof {
        lemma_remove_insert(m1.children@, k as int, Child::Element(ginner));
        assert(root.children@ == m1.children@.update(k as int, Child::Element(ginner)));
        assert(child_has_tag(Child::Element(ginner), "children"@));
        assert forall|j: int| 0 <= j < k implies !child_has_tag(
            #[trigger] root.children@[j],
            "children"@,
        ) by {
            assert(root.children@[j] == m1.children@[j]);
        }
        lemma_first_where_at(root.children@, |c: Child| child_has_tag(c, "children"@), k as int);
        assert(path_in_root(*root) == path_in_container(ginner));
        if find_tag(pre.children@, "children"@) is Some {
            assert(m1 == pre);
            assert(path_in_root(pre) == path_in_container(ginner0));
            assert(children_updated_at(pre.children@, root.children@, k as int));
        } else {
            assert(ginner0.children@ =~= Seq::<Child>::empty());
            assert(find_match(ginner0.children@, "node"@, "id"@, "Mods"@) is None);
            assert(path_in_container(ginner0) is None);
            assert(path_in_root(pre) is None);
            assert(root.children@ =~= pre.children@.push(Child::Element(ginner)));
            assert(children_appended(pre.children@, root.children@));
            assert(created_mods_node(elem_of(ginner.children@[0]), gm));
            assert(created_root_container(ginner, gm));
        }
        assert(root_step(pre, *root, gm));
    }
}

fn insert_in_region(region: &mut Node, module: Node)
    ensures
        final(region).name == old(region).name,
        final(region).attributes == old(region).attributes,
        path_in_region(*final(region)) is Some,
        mods_list_of(path_in_region(*final(region))) == mods_list_of(
            path_in_region(*old(region)),
        ).push(Child::Element(module)),
        region_step(*old(region), *final(region), module),
{
    let ghost gm = module;
    let ghost pre = *region;
    let node_tag: String = "node".to_owned();
    let id_key: String = "id".to_owned();
    let root_val: String = "root".to_owned();
    let k = find_or_create_child(region, &node_tag, &id_key, &root_val);
    let ghost m1 = *region;
    proof {
        lemma_first_where_some(
            m1.children@,
            |c: Child| child_matches(c, "node"@, "id"@, "root"@),
            k as int,
        );
    }
    let c = region.children.remove(k);
    let ghost ginner0 = elem_of(m1.children@[k as int]);
    let mut inner = match c {
        Child::Element(n) => n,
        _ => unreached(),
    };
    insert_in_root(&mut inner, module);
    let ghost ginner = inner;
    region.children.insert(k, Child::Element(inner));
    proof {
        lemma_remove_insert(m1.children@, k as int, Child::Element(ginner));
        assert(region.children@ == m1.children@.update(k as int, Child::Element(ginner)));
        assert(child_matches(Child::Element(ginner), "node"@, "id"@, "root"@));
        assert forall|j: int| 0 <= j < k implies !child_matches(
            #[trigger] region.children@[j],
            "node"@,
            "id"@,
            "root"@,
        ) by {
            assert(region.children@[j] == m1.children@[j]);
        }
        lemma_first_where_at(
            region.children@,
            |c: Child| child_matches(c, "node"@, "id"@, "root"@),
            k as int,
        );
        assert(path_in_region(*region) == path_in_root(ginner));
        if find_match(pre.children@, "node"@, "id"@, "root"@) is Some {
            assert(m1 == pre);
            assert(path_in_region(pre) == path_in_root(ginner0));
            assert(children_updated_at(pre.children@, region.children@, k as int));
        } else {
            assert(ginner0.children@ =~= Seq::<Child>::empty());
            assert(find_tag(ginner0.children@, "children"@) is None);
            assert(path_in_root(ginner0) is None);
            assert(path_in_region(pre) is None);
            assert(region.children@ =~= pre.children@.push(Child::Element(ginner)));
            assert(children_appended(pre.children@, region.children@));
            assert(created_root_container(elem_of(ginner.children@[0]), gm));
            assert(created_root_node(ginner, gm));
        }
        assert(region_step(pre, *region, gm));
    }
}

/// What one activation does to the profile document: the fixed path down to
/// the inner `children` container exists afterwards, and that container
/// holds exactly what it held before (nothing, if it did not exist) plus the
/// new module element appended last.
pub open spec fn insert_post(pre: Node, post: Node, module: Node) -> bool {
    &&& post.name == pre.name
    &&& post.attributes == pre.attributes
    &&& spec_mods_path(post) is Some
    &&& mods_list_of(spec_mods_path(post)) == mods_list_of(spec_mods_path(pre)).push(
        Child::Element(module),
    )
}

/// Append the module summary to the profile document's activation list,
/// creating each step of the fixed path `region[id=ModuleSettings] /
/// node[id=root] / children / node[id=Mods] / children` idempotently on the
/// way down and appending `module` as the container's new last child.
pub fn insert_module(profile: &mut Node, module: Node)
    ensures
        insert_post(*old(profile), *final(profile), module),
        insert_frame(*old(profile), *final(profile), module),
{
    let ghost gm = module;
    let ghost pre = *profile;
    let region_tag: String = "region".to_owned();
    let id_key: String = "id".to_owned();
    let settings_val: String = "ModuleSettings".to_owned();
    let k = find_or_create_child(profile, &region_tag, &id_key, &settings_val);
    let ghost m1 = *profile;
    proof {
        lemma_first_where_some(
            m1.children@,
            |c: Child| child_matches(c, "region"@, "id"@, "ModuleSettings"@),
            k as int,
        );
    }
    let c = profile.children.remove(k);
    let ghost ginner0 = elem_of(m1.children@[k as int]);
    let mut inner = match c {
        Child::Element(n) => n,
        _ => unreached(),
    };
    insert_in_region(&mut inner, module);
    let ghost ginner = inner;
    profile.children.insert(k, Child::Element(inner));
    proof {
        lemma_remove_insert(m1.children@, k as int, Child::Element(ginner));
        assert(profile.children@ == m1.children@.update(k as int, Child::Element(ginner)));
        assert(child_matches(Child::Element(ginner), "region"@, "id"@, "ModuleSettings"@));
        assert forall|j: int| 0 <= j < k implies !child_matches(
            #[trigger] profile.children@[j],
            "region"@,
            "id"@,
            "ModuleSettings"@,
        ) by {
            assert(profile.children@[j] == m1.children@[j]);
        }
        lemma_first_where_at(
            profile.children@,
            |c: Child| child_matches(c, "region"@, "id"@, "ModuleSettings"@),
            k as int,
        );
        assert(spec_mods_path(*profile) == path_in_region(ginner));
        if find_match(pre.children@, "region"@, "id"@, "ModuleSettings"@) is Some {
            assert(m1 == pre);
            assert(spec_mods_path(pre) == path_in_region(ginner0));
            assert(children_updated_at(pre.children@, profile.children@, k as int));
        } else {
            assert(ginner0.children@ =~= Seq::<Child>::empty());
            assert(find_match(ginner0.children@, "node"@, "id"@, "root"@) is None);
            assert(path_in_root(ginner0) is None);
            assert(path_in_region(ginner0) is None);
            assert(spec_mods_path(pre) is None);
            assert(profile.children@ =~= pre.children@.push(Child::Element(ginner)));
            assert(children_appended(pre.children@, profile.children@));
            assert(created_root_node(elem_of(ginner.children@[0]), gm));
            assert(created_region(ginner, gm));
        }
        assert(insert_frame(pre, *profile, gm));
    }
}

/// Running the activation twice appends two sibling module elements, in
/// order, never deduplicating: the second run's list is the first run's list
/// with one more element at the end.
pub proof fn lemma_repeat_activation(p0: Node, p1: Node, p2: Node, m1: Node, m2: Node)
    requires
        insert_post(p0, p1, m1),
        insert_post(p1, p2, m2),
    ensures
        spec_mods_path(p2) is Some,
        mods_list_of(spec_mods_path(p2)) == mods_list_of(spec_mods_path(p0)).push(
            Child::Element(m1),
        ).push(Child::Element(m2)),
        mods_list_of(spec_mods_path(p2)).len() == mods_list_of(spec_mods_path(p0)).len() + 2,
{
}

} // verus!
