use vstd::prelude::*;

use crate::wheels::{spec_parse_metadata, ExtractError, Metadata, SpecMetadata, Wheel};

verus! {

/// The entry names a wheel archive lists, in the order of its central
/// directory; `None` when the bytes do not open as a zip archive.
/// This is a pure function of the bytes: the zip reader parses them with no
/// other input.
pub uninterp spec fn zip_names_of(b: Seq<u8>) -> Option<Seq<Seq<char>>>;

/// The decompressed contents of the named entry of a wheel archive; `None`
/// when the bytes do not open, the entry is absent, or its data does not
/// decompress. A pure function of the bytes and the name.
pub uninterp spec fn zip_entry_of(b: Seq<u8>, name: Seq<char>) -> Option<Seq<u8>>;

/// Relies on zip::ZipArchive::new and ZipArchive::file_names: `new` parses
/// the central directory of the byte buffer, and `file_names` hands back the
/// listed entry names in central-directory order.
#[verifier::external_body]
fn zip_list_names(data: &Vec<u8>) -> (r: Option<Vec<String>>)
    ensures
        r is Some <==> zip_names_of(data@) is Some,
        r is Some ==> r.unwrap().deep_view() == zip_names_of(data@).unwrap(),
{
    match zip::ZipArchive::new(std::io::Cursor::new(data.as_slice())) {
        Ok(archive) => Some(archive.file_names().map(|n| n.to_string()).collect()),
        Err(_) => None,
    }
}

/// Relies on zip::ZipArchive::new, ZipArchive::by_name and
/// std::io::Read::read_to_end: looks the named entry up in the archive the
/// bytes describe and decompresses its contents.
#[verifier::external_body]
fn zip_read_entry(data: &Vec<u8>, name: &String) -> (r: Option<Vec<u8>>)
    ensures
        r is Some <==> zip_entry_of(data@, name@) is Some,
        r is Some ==> r.unwrap()@ == zip_entry_of(data@, name@).unwrap(),
{
    let mut archive = zip::ZipArchive::new(std::io::Cursor::new(data.as_slice())).ok()?;
    let mut entry = archive.by_name(name).ok()?;
    let mut buf = Vec::new();
    std::io::Read::read_to_end(&mut entry, &mut buf).ok()?;
    Some(buf)
}

/// The marker every descriptor-directory entry name contains.
pub open spec fn marker() -> Seq<char> {
    seq!['.', 'd', 'i', 's', 't', '-', 'i', 'n', 'f', 'o']
}

/// The fixed file-name suffix of the descriptor entry itself.
pub open spec fn meta_suffix() -> Seq<char> {
    seq!['/', 'M', 'E', 'T', 'A', 'D', 'A', 'T', 'A']
}

pub open spec fn contains_sub(s: Seq<char>, p: Seq<char>) -> bool {
    exists|j: int| 0 <= j && j + p.len() <= s.len() && #[trigger] s.subrange(j, j + p.len() as int)
        == p
}

/// An entry name that holds the whole descriptor directory marker and ends
/// with the descriptor file name.
pub open spec fn is_descriptor_name(n: Seq<char>) -> bool {
    contains_sub(n, marker()) && n.len() >= meta_suffix().len() && n.skip(
        n.len() - meta_suffix().len(),
    ) == meta_suffix()
}

/// The first listed entry that is a descriptor entry.
pub open spec fn descriptor_index(names: Seq<Seq<char>>) -> Option<int>
    decreases names.len(),
{
    if names.len() == 0 {
        None
    } else if is_descriptor_name(names[0]) {
        Some(0int)
    } else {
        match descriptor_index(names.drop_first()) {
            None => None,
            Some(j) => Some(j + 1),
        }
    }
}

pub proof fn lemma_descriptor_index_none(names: Seq<Seq<char>>)
    requires
        forall|j: int| 0 <= j < names.len() ==> !is_descriptor_name(names[j]),
    ensures
        descriptor_index(names) is None,
    decreases names.len(),
{
    if names.len() > 0 {
        lemma_descriptor_index_none(names.drop_first());
    }
}

pub proof fn lemma_descriptor_index_first(names: Seq<Seq<char>>, i: int)
    requires
        0 <= i < names.len(),
        is_descriptor_name(names[i]),
        forall|j: int| 0 <= j < i ==> !is_descriptor_name(names[j]),
    ensures
        descriptor_index(names) == Some(i),
    decreases names.len(),
{
    if i > 0 {
        lemma_descriptor_index_first(names.drop_first(), i - 1);
    }
}

fn marker_at(s: &str, i: usize) -> (b: bool)
    requires
        i + 10 <= s@.len(),
        s@.len() <= usize::MAX as int,
    ensures
        b == (s@.subrange(i as int, i as int + 10) == marker()),
{
    let b = s.get_char(i) == '.' && s.get_char(i + 1) == 'd' && s.get_char(i + 2) == 'i'
        && s.get_char(i + 3) == 's' && s.get_char(i + 4) == 't' && s.get_char(i + 5) == '-'
        && s.get_char(i + 6) == 'i' && s.get_char(i + 7) == 'n' && s.get_char(i + 8) == 'f'
        && s.get_char(i + 9) == 'o';
    proof {
        let sub = s@.subrange(i as int, i as int + 10);
        if b {
            assert(sub =~= marker());
        } else {
            assert(sub != marker()) by {
                if sub == marker() {
                    assert(s@[i as int] == sub[0] && s@[i as int + 1] == sub[1] && s@[i as int + 2]
                        == sub[2] && s@[i as int + 3] == sub[3] && s@[i as int + 4] == sub[4] && s@[
                        i as int + 5
                    ] == sub[5] && s@[i as int + 6] == sub[6] && s@[i as int + 7] == sub[7] && s@[
                        i as int + 8
                    ] == sub[8] && s@[i as int + 9] == sub[9]);
                }
            }
        }
    }
    b
}

fn contains_marker(s: &str) -> (b: bool)
    ensures
        b == contains_sub(s@, marker()),
{
    let len = s.unicode_len();
    if len < 10 {
        return false;
    }
    let mut i: usize = 0;
    while i <= len - 10
        invariant
            len == s@.len(),
            10 <= len,
            i <= len - 9,
            forall|j: int| 0 <= j < i ==> #[trigger] s@.subrange(j, j + 10) != marker(),
        decreases len - i,
    {
        if marker_at(s, i) {
            proof {
                assert(marker().len() == 10);
                assert(0 <= i as int && i as int + marker().len() <= s@.len()
                    && s@.subrange(i as int, i as int + marker().len() as int) == marker());
            }
            return true;
        }
        i = i + 1;
    }
    proof {
        assert(marker().len() == 10);
        assert(!contains_sub(s@, marker())) by {
            if contains_sub(s@, marker()) {
                let j = choose|j: int|
                    0 <= j && j + marker().len() <= s@.len() && #[trigger] s@.subrange(
                        j,
                        j + marker().len() as int,
                    ) == marker();
                assert(s@.subrange(j, j + 10) == marker());
            }
        }
    }
    false
}

fn ends_with_meta(s: &str) -> (b: bool)
    ensures
        b == (s@.len() >= 9 && s@.skip(s@.len() - 9) == meta_suffix()),
{
    let len = s.unicode_len();
    if len < 9 {
        return false;
    }
    let i = len - 9;
    let b = s.get_char(i) == '/' && s.get_char(i + 1) == 'M' && s.get_char(i + 2) == 'E'
        && s.get_char(i + 3) == 'T' && s.get_char(i + 4) == 'A' && s.get_char(i + 5) == 'D'
        && s.get_char(i + 6) == 'A' && s.get_char(i + 7) == 'T' && s.get_char(i + 8) == 'A';
    proof {
        let sub = s@.skip(s@.len() - 9);
        if b {
            assert(sub =~= meta_suffix());
        } else {
            assert(sub != meta_suffix()) by {
                if sub == meta_suffix() {
                    assert(s@[i as int] == sub[0] && s@[i as int + 1] == sub[1] && s@[i as int + 2]
                        == sub[2] && s@[i as int + 3] == sub[3] && s@[i as int + 4] == sub[4] && s@[
                        i as int + 5
                    ] == sub[5] && s@[i as int + 6] == sub[6] && s@[i as int + 7] == sub[7] && s@[
                        i as int + 8
                    ] == sub[8]);
                }
            }
        }
    }
    b
}

fn is_descriptor(s: &str) -> (b: bool)
    ensures
        b == is_descriptor_name(s@),
{
    contains_marker(s) && ends_with_meta(s)
}

/// The first listed entry name that is a descriptor entry, by linear search.
fn find_descriptor(names: &Vec<String>) -> (r: Option<usize>)
    ensures
        (match (r, descriptor_index(names.deep_view())) {
            (Some(i), Some(si)) => i as int == si && i < names@.len(),
            (None, None) => true,
            _ => false,
        }),
{
    let ghost ns = names.deep_view();
    let mut i: usize = 0;
    while i < names.len()
        invariant
            ns == names.deep_view(),
            ns.len() == names@.len(),
            i <= names@.len(),
            forall|j: int| 0 <= j < i ==> !is_descriptor_name(ns[j]),
        decreases names@.len() - i,
    {
        if is_descriptor(names[i].as_str()) {
            proof {
                lemma_descriptor_index_first(ns, i as int);
            }
            return Some(i);
        }
        i = i + 1;
    }
    proof {
        lemma_descriptor_index_none(ns);
    }
    None
}

/// The result `parse_wheel` owes for archive bytes `b`: the identity the
/// first descriptor entry declares, or the first failure met on the way
/// there.
pub open spec fn spec_parse_wheel(b: Seq<u8>) -> Result<SpecMetadata, ExtractError> {
    match zip_names_of(b) {
        None => Err(ExtractError::MalformedArchive),
        Some(ns) => match descriptor_index(ns) {
            None => Err(ExtractError::MissingDescriptor),
            Some(i) => match zip_entry_of(b, ns[i]) {
                None => Err(ExtractError::MalformedArchive),
                Some(d) => {
                    if !vstd::utf8::valid_utf8(d) {
                        Err(ExtractError::MalformedArchive)
                    } else {
                        spec_parse_metadata(vstd::utf8::decode_utf8(d))
                    }
                },
            },
        },
    }
}

/// Extracts the declared package identity from the bytes of one wheel
/// archive: the first descriptor entry's text, parsed for its `Name: ` and
/// `Version: ` lines.
pub fn parse_wheel(data: &Vec<u8>) -> (r: Result<Wheel, ExtractError>)
    ensures
        (match (r, spec_parse_wheel(data@)) {
            (Ok(w), Ok(sm)) => w@ == sm,
            (Err(e), Err(se)) => e == se,
            _ => false,
        }),
{
    let names = match zip_list_names(data) {
        None => {
            return Err(ExtractError::MalformedArchive);
        },
        Some(ns) => ns,
    };
    let idx = match find_descriptor(&names) {
        None => {
            return Err(ExtractError::MissingDescriptor);
        },
        Some(i) => i,
    };
    proof {
        assert(names.deep_view()[idx as int] == names@[idx as int]@);
    }
    let bytes = match zip_read_entry(data, &names[idx]) {
        None => {
            return Err(ExtractError::MalformedArchive);
        },
        Some(b) => b,
    };
    let text = match crate::text::utf8_to_string(bytes) {
        None => {
            return Err(ExtractError::MalformedArchive);
        },
        Some(t) => t,
    };
    match crate::wheels::parse_metadata(text.as_str()) {
        Ok(meta) => Ok(Wheel { meta }),
        Err(e) => Err(e),
    }
}

} // verus!
