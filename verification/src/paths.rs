use vstd::prelude::*;

use crate::text::{after_last, lemma_after_last_at, lemma_after_last_no_occurrence};

verus! {

/// The file-name component of a path: everything after the last `/`.
pub open spec fn spec_file_name(p: Seq<char>) -> Seq<char> {
    after_last(p, '/')
}

/// The extension the archive scanner accepts.
pub open spec fn wheel_ext() -> Seq<char> {
    seq!['w', 'h', 'l']
}

/// A path the scanner keeps: its file name has an extension, and that
/// extension is exactly `whl`. A leading dot alone starts no extension.
pub open spec fn spec_is_wheel(p: Seq<char>) -> bool {
    let f = spec_file_name(p);
    (exists|i: int| 1 <= i < f.len() && f[i] == '.') && after_last(f, '.') == wheel_ext()
}

/// The file-name component of `path`, as `std::path::Path::file_name` reads
/// a plain file path.
pub fn file_name(path: &String) -> (r: String)
    ensures
        r@ == spec_file_name(path@),
{
    let s = path.as_str();
    let len = s.unicode_len();
    let mut last: Option<usize> = None;
    let mut i: usize = 0;
    while i < len
        invariant
            len == s@.len(),
            s@ == path@,
            i <= len,
            (match last {
                Some(k) => k < i && s@[k as int] == '/' && forall|j: int|
                    k < j < i ==> s@[j] != '/',
                None => forall|j: int| 0 <= j < i ==> s@[j] != '/',
            }),
        decreases len - i,
    {
        if s.get_char(i) == '/' {
            last = Some(i);
        }
        i = i + 1;
    }
    match last {
        Some(k) => {
            proof {
                lemma_after_last_at(s@, '/', k as int);
            }
            String::from_str(s.substring_char(k + 1, len))
        },
        None => {
            proof {
                lemma_after_last_no_occurrence(s@, '/');
            }
            String::from_str(s)
        },
    }
}

/// Whether the scanner keeps this path as a wheel archive candidate.
pub fn is_wheel_path(path: &String) -> (b: bool)
    ensures
        b == spec_is_wheel(path@),
{
    let fname = file_name(path);
    let f = fname.as_str();
    let len = f.unicode_len();
    let mut last: Option<usize> = None;
    let mut i: usize = 0;
    while i < len
        invariant
            len == f@.len(),
            f@ == fname@,
            i <= len,
            (match last {
                Some(k) => k < i && f@[k as int] == '.' && forall|j: int|
                    k < j < i ==> f@[j] != '.',
                None => forall|j: int| 0 <= j < i ==> f@[j] != '.',
            }),
        decreases len - i,
    {
        if f.get_char(i) == '.' {
            last = Some(i);
        }
        i = i + 1;
    }
    match last {
        None => {
            proof {
                assert(!spec_is_wheel(path@));
            }
            false
        },
        Some(k) => {
            if k == 0 {
                proof {
                    assert(forall|i: int| 1 <= i < f@.len() ==> f@[i] != '.');
                }
                false
            } else {
                proof {
                    lemma_after_last_at(f@, '.', k as int);
                    assert(after_last(f@, '.') == f@.skip(k as int + 1));
                }
                let b = len - k == 4 && f.get_char(k + 1) == 'w' && f.get_char(k + 2) == 'h'
                    && f.get_char(k + 3) == 'l';
                proof {
                    let suf = f@.skip(k as int + 1);
                    if b {
                        assert(suf =~= wheel_ext());
                        assert(1 <= k < f@.len() && f@[k as int] == '.');
                    } else {
                        assert(suf != wheel_ext()) by {
                            if suf == wheel_ext() {
                                assert(suf.len() == 3);
                                assert(f@[k as int + 1] == suf[0] && f@[k as int + 2] == suf[1]
                                    && f@[k as int + 3] == suf[2]);
                            }
                        }
                    }
                }
                b
            }
        },
    }
}

} // verus!
