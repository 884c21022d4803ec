//! Recognizing solution files: which file names carry a numeric problem
//! identifier, and which extensions are collected at all.
//!
//! A name qualifies when it is `<digits>.<ext>` for an extension in the
//! fixed set `cpp`, `c`, `py` (lowercase, exact): the stem must be
//! non-empty and consist solely of ASCII decimal digits. Leading zeros
//! are read as ordinary base-10 notation. Walking the directory tree is
//! left to the binary; it hands each file name to [`make_entry`].

use vstd::prelude::*;

use crate::digits::digit_val;
use crate::digits::is_digit;
use crate::types::FileEntry;

verus! {

/// Whether `s` ends with `suffix`.
pub open spec fn ends_with(s: Seq<char>, suffix: Seq<char>) -> bool {
    s.len() >= suffix.len() && s.subrange(s.len() - suffix.len(), s.len() as int) == suffix
}

pub open spec fn suffix_cpp() -> Seq<char> {
    seq!['.', 'c', 'p', 'p']
}

pub open spec fn suffix_c() -> Seq<char> {
    seq!['.', 'c']
}

pub open spec fn suffix_py() -> Seq<char> {
    seq!['.', 'p', 'y']
}

/// The file name without the given extension length.
pub open spec fn stem_of(f: Seq<char>, ext_len: int) -> Seq<char> {
    f.subrange(0, f.len() - ext_len)
}

/// Whether every character is an ASCII decimal digit.
pub open spec fn all_digits(s: Seq<char>) -> bool {
    forall|i: int| 0 <= i < s.len() ==> is_digit(#[trigger] s[i])
}

/// The base-10 value of a digit string.
pub open spec fn digits_value(s: Seq<char>) -> int
    decreases s.len(),
{
    if s.len() == 0 {
        0
    } else {
        10 * digits_value(s.drop_last()) + digit_val(s.last())
    }
}

/// Whether `f` is `<digits>.<ext>` for the given suffix: the suffix
/// matches and the stem before it is non-empty, all digits.
pub open spec fn numeric_with(f: Seq<char>, suffix: Seq<char>) -> bool {
    &&& ends_with(f, suffix)
    &&& stem_of(f, suffix.len() as int).len() > 0
    &&& all_digits(stem_of(f, suffix.len() as int))
}

/// The identifier a digit string denotes, when it fits a `u32`.
pub open spec fn parse_opt(s: Seq<char>) -> Option<u32> {
    if digits_value(s) <= u32::MAX {
        Some(digits_value(s) as u32)
    } else {
        None
    }
}

/// The identifier encoded in a file name, if any: the numeric stem of
/// a recognized extension, provided it fits a `u32`.
pub open spec fn extract_spec(f: Seq<char>) -> Option<u32> {
    if numeric_with(f, suffix_cpp()) {
        parse_opt(stem_of(f, suffix_cpp().len() as int))
    } else if numeric_with(f, suffix_c()) {
        parse_opt(stem_of(f, suffix_c().len() as int))
    } else if numeric_with(f, suffix_py()) {
        parse_opt(stem_of(f, suffix_py().len() as int))
    } else {
        None
    }
}

/// Whether the file name carries one of the collected extensions, with
/// a non-empty part before the dot.
pub open spec fn has_allowed_extension(f: Seq<char>) -> bool {
    ||| (ends_with(f, suffix_cpp()) && f.len() > 4)
    ||| (ends_with(f, suffix_c()) && f.len() > 2)
    ||| (ends_with(f, suffix_py()) && f.len() > 3)
}

/// Whether `s` ends with `suffix`, checked character by character.
fn str_ends_with(s: &str, suffix: &str) -> (b: bool)
    ensures
        b == ends_with(s@, suffix@),
{
    let n = s.unicode_len();
    let m = suffix.unicode_len();
    if n < m {
        return false;
    }
    let mut i: usize = 0;
    while i < m
        invariant
            m <= n,
            n == s@.len(),
            m == suffix@.len(),
            i <= m,
            forall|j: int| 0 <= j < i ==> s@[n - m + j] == suffix@[j],
        decreases m - i,
    {
        if s.get_char(n - m + i) != suffix.get_char(i) {
            proof {
                assert(s@[n - m + i as int] != suffix@[i as int]);
                assert(s@.subrange(n - m, n as int)[i as int] == s@[n - m + i as int]);
            }
            return false;
        }
        i = i + 1;
    }
    proof {
        assert(s@.subrange(n - m, n as int) =~= suffix@);
    }
    true
}

/// Reads the stem before an extension of `ext_len` characters: `Some`
/// exactly when the stem is non-empty, all digits, and fits a `u32`.
fn parse_numeric_stem(f: &str, ext_len: usize) -> (r: Option<u32>)
    requires
        ext_len <= f@.len(),
    ensures
        r == (if stem_of(f@, ext_len as int).len() > 0 && all_digits(stem_of(f@, ext_len as int)) {
            parse_opt(stem_of(f@, ext_len as int))
        } else {
            None::<u32>
        }),
{
    let n = f.unicode_len();
    let stem_len = n - ext_len;
    let ghost stem = stem_of(f@, ext_len as int);
    proof {
        assert(stem.len() == stem_len);
    }
    if stem_len == 0 {
        return None;
    }
    let mut val: u64 = 0;
    let mut over = false;
    let mut i: usize = 0;
    while i < stem_len
        invariant
            n == f@.len(),
            ext_len <= n,
            stem_len == n - ext_len,
            stem == stem_of(f@, ext_len as int),
            stem.len() == stem_len,
            i <= stem_len,
            all_digits(stem.take(i as int)),
            !over ==> val == digits_value(stem.take(i as int)) && val <= u32::MAX,
            over ==> digits_value(stem.take(i as int)) > u32::MAX,
        decreases stem_len - i,
    {
        let c = f.get_char(i);
        proof {
            assert(stem[i as int] == f@[i as int]);
        }
        if c < '0' || c > '9' {
            proof {
                assert(!is_digit(stem[i as int]));
            }
            return None;
        }
        let d = (c as u32) - ('0' as u32);
        proof {
            assert(stem.take(i + 1).drop_last() =~= stem.take(i as int));
            assert(stem.take(i + 1).last() == stem[i as int]);
            assert(digits_value(stem.take(i + 1)) == 10 * digits_value(stem.take(i as int))
                + digit_val(stem[i as int]));
            assert(digit_val(stem[i as int]) == d);
            lemma_digits_value_nonneg(stem.take(i as int));
        }
        if !over {
            let next = 10 * val + (d as u64);
            if next > (u32::MAX as u64) {
                over = true;
            } else {
                val = next;
            }
            proof {
                if next > (u32::MAX as u64) {
                    assert(digits_value(stem.take(i + 1)) > u32::MAX);
                }
            }
        } else {
            proof {
                assert(digits_value(stem.take(i as int)) > u32::MAX);
                assert(digits_value(stem.take(i + 1)) >= 10 * digits_value(stem.take(i as int)));
            }
        }
        i = i + 1;
    }
    proof {
        assert(stem.take(stem_len as int) =~= stem);
    }
    if over {
        None
    } else {
        Some(val as u32)
    }
}

/// A non-negative value for every digit string.
proof fn lemma_digits_value_nonneg(s: Seq<char>)
    requires
        all_digits(s),
    ensures
        digits_value(s) >= 0,
    decreases s.len(),
{
    if s.len() > 0 {
        assert(is_digit(s[s.len() - 1]));
        assert(forall|i: int|
            0 <= i < s.drop_last().len() ==> is_digit(#[trigger] s.drop_last()[i]));
        lemma_digits_value_nonneg(s.drop_last());
    }
}

/// The problem identifier encoded in a file name, if any: `1010.cpp`
/// yields 1010, `0001.cpp` yields 1, and anything that is not a pure
/// numeric stem with a recognized extension yields nothing.
pub fn extract_problem_number(filename: &str) -> (r: Option<u32>)
    ensures
        r == extract_spec(filename@),
{
    proof {
        reveal_strlit(".cpp");
        reveal_strlit(".c");
        reveal_strlit(".py");
        assert(".cpp"@ =~= suffix_cpp());
        assert(".c"@ =~= suffix_c());
        assert(".py"@ =~= suffix_py());
    }
    let f = filename;
    if str_ends_with(f, ".cpp") {
        proof {
            assert(f@.len() >= 4);
            assert(f@.subrange(f@.len() - 4, f@.len() as int)[3] == 'p');
            assert(f@[f@.len() - 1] == 'p');
            assert(!ends_with(f@, suffix_c())) by {
                if ends_with(f@, suffix_c()) {
                    assert(f@.subrange(f@.len() - 2, f@.len() as int)[1] == 'c');
                    assert(f@[f@.len() - 1] == 'c');
                }
            }
            assert(!ends_with(f@, suffix_py())) by {
                if ends_with(f@, suffix_py()) {
                    assert(f@.subrange(f@.len() - 3, f@.len() as int)[2] == 'y');
                    assert(f@[f@.len() - 1] == 'y');
                }
            }
        }
        parse_numeric_stem(f, 4)
    } else if str_ends_with(f, ".c") {
        proof {
            assert(f@.len() >= 2);
            assert(f@.subrange(f@.len() - 2, f@.len() as int)[1] == 'c');
            assert(f@[f@.len() - 1] == 'c');
            assert(!ends_with(f@, suffix_py())) by {
                if ends_with(f@, suffix_py()) {
                    assert(f@.subrange(f@.len() - 3, f@.len() as int)[2] == 'y');
                    assert(f@[f@.len() - 1] == 'y');
                }
            }
        }
        parse_numeric_stem(f, 2)
    } else if str_ends_with(f, ".py") {
        parse_numeric_stem(f, 3)
    } else {
        None
    }
}

/// Classifies one scanned file: `Some` exactly when the name carries a
/// collected extension, with the identifier its name encodes, if any.
/// The directory walk in the binary calls this on every regular file.
pub fn make_entry(relative_path: String, filename: String) -> (r: Option<FileEntry>)
    ensures
        match r {
            Some(e) => {
                &&& has_allowed_extension(filename@)
                &&& e.current_path == relative_path
                &&& e.filename == filename
                &&& e.problem_number == extract_spec(filename@)
            },
            None => !has_allowed_extension(filename@),
        },
{
    proof {
        reveal_strlit(".cpp");
        reveal_strlit(".c");
        reveal_strlit(".py");
        assert(".cpp"@ =~= suffix_cpp());
        assert(".c"@ =~= suffix_c());
        assert(".py"@ =~= suffix_py());
    }
    let n = filename.as_str().unicode_len();
    let allowed = (str_ends_with(filename.as_str(), ".cpp") && n > 4) || (str_ends_with(
        filename.as_str(),
        ".c",
    ) && n > 2) || (str_ends_with(filename.as_str(), ".py") && n > 3);
    if allowed {
        let problem_number = extract_problem_number(filename.as_str());
        Some(FileEntry { current_path: relative_path, problem_number, filename })
    } else {
        None
    }
}

} // verus!
