use vstd::prelude::*;

use crate::text::{lemma_line_break_at, lemma_line_break_bounds, line_break, push_char};

verus! {

/// Why a wheel archive yields no index entry.
#[derive(Debug, Clone, Copy, PartialEq, Eq, Structural)]
pub enum ExtractError {
    /// No internal entry names the metadata descriptor.
    MissingDescriptor,
    /// The descriptor has no `Name: ` line.
    MissingName,
    /// The descriptor has no `Version: ` line.
    MissingVersion,
    /// The archive or the descriptor entry cannot be read at all.
    MalformedArchive,
}

/// The identity a wheel archive declares for itself.
#[derive(Debug)]
pub struct Metadata {
    pub name: String,
    pub version: String,
}

/// The mathematical content of a `Metadata` value.
pub ghost struct SpecMetadata {
    pub name: Seq<char>,
    pub version: Seq<char>,
}

impl View for Metadata {
    type V = SpecMetadata;

    open spec fn view(&self) -> SpecMetadata {
        SpecMetadata { name: self.name@, version: self.version@ }
    }
}

/// A parsed wheel archive.
#[derive(Debug)]
pub struct Wheel {
    pub meta: Metadata,
}

impl View for Wheel {
    type V = SpecMetadata;

    open spec fn view(&self) -> SpecMetadata {
        self.meta@
    }
}

/// One canonical character of a normalized package name: ASCII lowercase
/// letters and digits stand for themselves, ASCII uppercase letters are
/// lowered, and every other character becomes an underscore.
pub open spec fn normalize_char(c: char) -> char {
    if 'a' <= c && c <= 'z' {
        c
    } else if '0' <= c && c <= '9' {
        c
    } else if 'A' <= c && c <= 'Z' {
        (((c as u32) + 32) as u8) as char
    } else {
        '_'
    }
}

/// The canonical index key derived from a raw package name.
pub open spec fn normalize_spec(s: Seq<char>) -> Seq<char> {
    s.map_values(|c: char| normalize_char(c))
}

/// Normalization maps every character to a character that normalization
/// leaves alone, so applying it twice changes nothing.
pub proof fn lemma_normalize_idempotent(s: Seq<char>)
    ensures
        normalize_spec(normalize_spec(s)) == normalize_spec(s),
{
    assert forall|i: int| 0 <= i < s.len() implies normalize_char(
        normalize_char(s[i]),
    ) == normalize_char(s[i]) by {
        let c = s[i];
        if 'A' <= c && c <= 'Z' {
            assert(normalize_char(c) == (((c as u32) + 32) as u8) as char);
        }
    }
    assert(normalize_spec(normalize_spec(s)) =~= normalize_spec(s));
}

/// The line prefix that declares a package's name.
pub open spec fn name_prefix() -> Seq<char> {
    seq!['N', 'a', 'm', 'e', ':', ' ']
}

/// The line prefix that declares a package's version.
pub open spec fn version_prefix() -> Seq<char> {
    seq!['V', 'e', 'r', 's', 'i', 'o', 'n', ':', ' ']
}

pub open spec fn has_prefix(l: Seq<char>, p: Seq<char>) -> bool {
    l.len() >= p.len() && l.take(p.len() as int) == p
}

/// A line as the descriptor format reads it: without its trailing carriage
/// return, if any.
pub open spec fn strip_cr(l: Seq<char>) -> Seq<char> {
    if l.len() > 0 && l.last() == '\r' {
        l.drop_last()
    } else {
        l
    }
}

/// The first `Name: ` and `Version: ` values among the lines of `s`, scanned
/// line by line; the earliest occurrence of each prefix wins.
pub open spec fn spec_fields(s: Seq<char>) -> (Option<Seq<char>>, Option<Seq<char>>)
    decreases s.len(),
{
    if s.len() == 0 {
        (None, None)
    } else {
        let k = line_break(s);
        let line = strip_cr(s.take(k));
        let rest = if k == s.len() {
            Seq::<char>::empty()
        } else {
            proof {
                lemma_line_break_bounds(s);
            }
            s.skip(k + 1)
        };
        let r = spec_fields(rest);
        (
            if has_prefix(line, name_prefix()) {
                Some(line.skip(name_prefix().len() as int))
            } else {
                r.0
            },
            if has_prefix(line, version_prefix()) {
                Some(line.skip(version_prefix().len() as int))
            } else {
                r.1
            },
        )
    }
}

fn has_name_prefix(l: &str) -> (b: bool)
    ensures
        b == has_prefix(l@, name_prefix()),
{
    if l.unicode_len() < 6 {
        return false;
    }
    let b = l.get_char(0) == 'N' && l.get_char(1) == 'a' && l.get_char(2) == 'm' && l.get_char(3)
        == 'e' && l.get_char(4) == ':' && l.get_char(5) == ' ';
    proof {
        if b {
            assert(l@.take(6) =~= name_prefix());
        } else {
            assert(l@.take(6) != name_prefix()) by {
                if l@.take(6) == name_prefix() {
                    assert(l@[0] == 'N' && l@[1] == 'a' && l@[2] == 'm' && l@[3] == 'e' && l@[4]
                        == ':' && l@[5] == ' ');
                }
            }
        }
    }
    b
}

fn has_version_prefix(l: &str) -> (b: bool)
    ensures
        b == has_prefix(l@, version_prefix()),
{
    if l.unicode_len() < 9 {
        return false;
    }
    let b = l.get_char(0) == 'V' && l.get_char(1) == 'e' && l.get_char(2) == 'r' && l.get_char(3)
        == 's' && l.get_char(4) == 'i' && l.get_char(5) == 'o' && l.get_char(6) == 'n'
        && l.get_char(7) == ':' && l.get_char(8) == ' ';
    proof {
        if b {
            assert(l@.take(9) =~= version_prefix());
        } else {
            assert(l@.take(9) != version_prefix()) by {
                if l@.take(9) == version_prefix() {
                    assert(l@[0] == 'V' && l@[1] == 'e' && l@[2] == 'r' && l@[3] == 's' && l@[4]
                        == 'i' && l@[5] == 'o' && l@[6] == 'n' && l@[7] == ':' && l@[8] == ' ');
                }
            }
        }
    }
    b
}

/// Scans the descriptor text line by line for the first `Name: ` and the
/// first `Version: ` values.
fn parse_fields(s: &str) -> (r: (Option<String>, Option<String>))
    ensures
        r.0.deep_view() == spec_fields(s@).0,
        r.1.deep_view() == spec_fields(s@).1,
    decreases s@.len(),
{
    let len = s.unicode_len();
    if len == 0 {
        return (None, None);
    }
    let mut k: usize = 0;
    while k < len && s.get_char(k) != '\n'
        invariant
            len == s@.len(),
            k <= len,
            forall|j: int| 0 <= j < k ==> s@[j] != '\n',
        decreases len - k,
    {
        k = k + 1;
    }
    proof {
        lemma_line_break_at(s@, k as int);
    }
    let line_end = if k > 0 && s.get_char(k - 1) == '\r' {
        k - 1
    } else {
        k
    };
    let line = s.substring_char(0, line_end);
    proof {
        if k > 0 {
            assert(s@.take(k as int).len() == k);
            assert(s@.take(k as int).last() == s@[k as int - 1]);
        }
        assert(line@ =~= strip_cr(s@.take(k as int)));
    }
    let rest_start = if k == len {
        len
    } else {
        k + 1
    };
    let rest = s.substring_char(rest_start, len);
    proof {
        if k == len {
            assert(rest@ =~= Seq::<char>::empty());
        } else {
            assert(rest@ =~= s@.skip(k as int + 1));
        }
    }
    let (rn, rv) = parse_fields(rest);
    let line_len = line.unicode_len();
    let n: Option<String> = if has_name_prefix(line) {
        Some(String::from_str(line.substring_char(6, line_len)))
    } else {
        rn
    };
    let v: Option<String> = if has_version_prefix(line) {
        Some(String::from_str(line.substring_char(9, line_len)))
    } else {
        rv
    };
    proof {
        assert(name_prefix().len() == 6);
        assert(version_prefix().len() == 9);
    }
    (n, v)
}

/// The result `parse_metadata` owes for descriptor text `s`: the first
/// declared name and version, or the first missing field, name checked first.
pub open spec fn spec_parse_metadata(s: Seq<char>) -> Result<SpecMetadata, ExtractError> {
    let f = spec_fields(s);
    if f.0 is None {
        Err(ExtractError::MissingName)
    } else if f.1 is None {
        Err(ExtractError::MissingVersion)
    } else {
        Ok(SpecMetadata { name: f.0.unwrap(), version: f.1.unwrap() })
    }
}

/// Parses a descriptor entry's text into the package identity it declares.
pub fn parse_metadata(s: &str) -> (r: Result<Metadata, ExtractError>)
    ensures
        (match (r, spec_parse_metadata(s@)) {
            (Ok(m), Ok(sm)) => m@ == sm,
            (Err(e), Err(se)) => e == se,
            _ => false,
        }),
{
    let (n, v) = parse_fields(s);
    match n {
        None => Err(ExtractError::MissingName),
        Some(name) => match v {
            None => Err(ExtractError::MissingVersion),
            Some(version) => Ok(Metadata { name, version }),
        },
    }
}

impl Metadata {
    /// The canonical index key for this package's declared name.
    pub fn normalized_name(&self) -> (r: String)
        ensures
            r@ == normalize_spec(self.name@),
    {
        let n = self.name.as_str();
        let len = n.unicode_len();
        let mut out = String::new();
        let mut i: usize = 0;
        while i < len
            invariant
                len == n@.len(),
                n@ == self.name@,
                i <= len,
                out@ =~= normalize_spec(n@).take(i as int),
            decreases len - i,
        {
            let c = n.get_char(i);
            let u = c as u32;
            let nc: char = if 97 <= u && u <= 122 {
                c
            } else if 48 <= u && u <= 57 {
                c
            } else if 65 <= u && u <= 90 {
                ((u + 32) as u8) as char
            } else {
                '_'
            };
            assert(nc == normalize_char(n@[i as int]));
            push_char(&mut out, nc);
            i = i + 1;
            assert(out@ =~= normalize_spec(n@).take(i as int));
        }
        assert(normalize_spec(n@).take(len as int) =~= normalize_spec(n@));
        out
    }
}

} // verus!
