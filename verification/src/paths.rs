//! Normalization of archived entry names onto relative output paths.
//!
//! An archive entry's name is mapped onto a path relative to the output
//! root: degenerate names (empty, `"."`, or the bare payload-root marker)
//! are skipped, a leading `"<root>/"` prefix is stripped, and — hardening
//! beyond plain prefix stripping — remainders that would escape the
//! output root (absolute paths, or paths with a `..` segment) are skipped
//! as well.

use vstd::prelude::*;

verus! {

/// There is a `..` path segment beginning at index `i` of `s`.
pub open spec fn dotdot_at(s: Seq<char>, i: int) -> bool {
    &&& 0 <= i
    &&& i + 2 <= s.len()
    &&& (i == 0 || s[i - 1] == '/')
    &&& s[i] == '.'
    &&& s[i + 1] == '.'
    &&& (i + 2 == s.len() || s[i + 2] == '/')
}

/// Some `..` segment occurs in `s`.
pub open spec fn has_dotdot(s: Seq<char>) -> bool {
    exists|i: int| dotdot_at(s, i)
}

/// A relative path that cannot escape the output root: not absolute and
/// free of `..` segments. The empty path (the output root itself) is safe.
pub open spec fn spec_safe_path(s: Seq<char>) -> bool {
    s.len() == 0 || (s[0] != '/' && !has_dotdot(s))
}

/// What `normalize` returns: `None` when the entry is to be skipped,
/// `Some(p)` with the relative output path otherwise.
pub open spec fn spec_normalize(raw: Seq<char>, root: Seq<char>) -> Option<Seq<char>> {
    if raw.len() == 0 || raw == seq!['.'] || raw == root {
        None
    } else {
        let stripped = if raw.len() > root.len() && raw.subrange(0, root.len() as int) == root
            && raw[root.len() as int] == '/' {
            raw.subrange(root.len() as int + 1, raw.len() as int)
        } else {
            raw
        };
        if spec_safe_path(stripped) {
            Some(stripped)
        } else {
            None
        }
    }
}

/// Character-for-character string equality.
pub fn str_eq(a: &str, b: &str) -> (r: bool)
    ensures
        r == (a@ == b@),
{
    let alen = a.unicode_len();
    let blen = b.unicode_len();
    if alen != blen {
        return false;
    }
    let mut i: usize = 0;
    while i < alen
        invariant
            i <= alen,
            alen == a@.len(),
            alen == b@.len(),
            forall|j: int| 0 <= j < i ==> a@[j] == b@[j],
        decreases alen - i,
    {
        if a.get_char(i) != b.get_char(i) {
            return false;
        }
        i = i + 1;
    }
    proof {
        assert(a@ =~= b@);
    }
    true
}

/// Whether `s` is a safe relative path in the sense of `spec_safe_path`.
pub fn is_safe_path(s: &str) -> (r: bool)
    ensures
        r == spec_safe_path(s@),
{
    let len = s.unicode_len();
    if len == 0 {
        return true;
    }
    if s.get_char(0) == '/' {
        return false;
    }
    let mut i: usize = 0;
    while i < len
        invariant
            i <= len,
            len == s@.len(),
            forall|j: int| j < i ==> !dotdot_at(s@, j),
        decreases len - i,
    {
        let seg_start = i == 0 || s.get_char(i - 1) == '/';
        if seg_start && len - i >= 2 && s.get_char(i) == '.' && s.get_char(i + 1) == '.'
            && (len - i == 2 || s.get_char(i + 2) == '/') {
            assert(dotdot_at(s@, i as int));
            return false;
        }
        proof {
            assert(!dotdot_at(s@, i as int));
        }
        i = i + 1;
    }
    proof {
        assert(forall|j: int| dotdot_at(s@, j) ==> 0 <= j && j < len);
        assert(!has_dotdot(s@));
    }
    true
}

/// Map an archived entry name onto a relative output path.
///
/// Returns `None` (skip the entry) when the name is empty, is `"."`, equals
/// the payload-root marker `root`, or when the remainder after stripping a
/// leading `"<root>/"` prefix is absolute or contains a `..` segment;
/// otherwise returns the (possibly prefix-stripped) name.
pub fn normalize(raw: &str, root: &str) -> (r: Option<String>)
    ensures
        match r {
            None => spec_normalize(raw@, root@) is None,
            Some(p) => spec_normalize(raw@, root@) == Some(p@),
        },
{
    let rawlen = raw.unicode_len();
    if rawlen == 0 {
        return None;
    }
    if rawlen == 1 && raw.get_char(0) == '.' {
        proof {
            assert(raw@ =~= seq!['.']);
        }
        return None;
    }
    proof {
        assert(raw@ != seq!['.']);
    }
    if str_eq(raw, root) {
        return None;
    }
    let rootlen = root.unicode_len();
    let stripped: &str = if rawlen > rootlen && str_eq(raw.substring_char(0, rootlen), root)
        && raw.get_char(rootlen) == '/' {
        raw.substring_char(rootlen + 1, rawlen)
    } else {
        raw
    };
    if is_safe_path(stripped) {
        Some(stripped.to_owned())
    } else {
        None
    }
}

} // verus!
