//! How names are read: separators, bare tails, language families.

use vstd::prelude::*;

use crate::text::{begins_with, chars_of, find_part, has_part, occurs_at, same_text, stands_at};

verus! {

/// The canonical separator of name segments.
pub open spec fn sep() -> Seq<char> {
    seq![':', ':']
}

/// The language family of a language: C and C++ share one, JavaScript and
/// TypeScript share one, every other language is its own.
pub open spec fn family(language: Seq<char>) -> Seq<char> {
    if language == "c"@ || language == "cpp"@ {
        "c-cpp"@
    } else if language == "javascript"@ || language == "typescript"@ {
        "typescript"@
    } else {
        language
    }
}

/// The language family of a language.
pub fn language_family(language: &str) -> (r: &str)
    ensures
        r@ == family(language@),
{
    if same_text(language, "c") || same_text(language, "cpp") {
        "c-cpp"
    } else if same_text(language, "javascript") || same_text(language, "typescript") {
        "typescript"
    } else {
        language
    }
}

/// `raw` with every `.` and `/` replaced by `::`.
pub open spec fn normalized(raw: Seq<char>) -> Seq<char>
    decreases raw.len(),
{
    if raw.len() == 0 {
        raw
    } else if raw.last() == '.' || raw.last() == '/' {
        normalized(raw.drop_last()) + sep()
    } else {
        normalized(raw.drop_last()).push(raw.last())
    }
}

/// `raw` with every `.` and `/` replaced by `::`.
pub fn normalize_separators(raw: &str) -> (r: String)
    ensures
        r@ == normalized(raw@),
{
    let v = chars_of(raw);
    let mut r = String::new();
    let mut i: usize = 0;
    while i < v.len()
        invariant
            i <= v.len(),
            r@ == normalized(v@.take(i as int)),
        decreases v.len() - i,
    {
        assert(v@.take(i + 1).drop_last() =~= v@.take(i as int));
        let c: char = v[i];
        if c == '.' || c == '/' {
            let ghost before = r@;
            r.push(':');
            r.push(':');
            assert(r@ =~= before + sep());
        } else {
            r.push(c);
        }
        i = i + 1;
    }
    assert(v@.take(v.len() as int) =~= raw@);
    r
}

/// The place of the last `::` in `s`, which has one.
pub open spec fn last_sep(s: Seq<char>) -> int {
    choose|i: int|
        #[trigger] occurs_at(s, sep(), i) && forall|j: int| i < j ==> !#[trigger] occurs_at(s, sep(), j)
}

/// The last segment of a normalized name.
pub open spec fn bare(name: Seq<char>) -> Seq<char> {
    if has_part(name, sep()) {
        name.skip(last_sep(name) + 2)
    } else {
        name
    }
}

pub(crate) fn sep_chars() -> (v: Vec<char>)
    ensures
        v@ == sep(),
{
    let mut v: Vec<char> = Vec::new();
    v.push(':');
    v.push(':');
    assert(v@ =~= sep());
    v
}

/// The last segment of a normalized name.
pub fn bare_name(normalized: &str) -> (r: &str)
    ensures
        r@ == bare(normalized@),
{
    let v = chars_of(normalized);
    let colons = sep_chars();
    let n: usize = v.len();
    let mut i: usize = n;
    loop
        invariant
            i <= n,
            n == v.len(),
            v@ == normalized@,
            colons@ == sep(),
            forall|j: int| i < j ==> !#[trigger] occurs_at(v@, sep(), j),
        decreases i,
    {
        if stands_at(&v, &colons, i) {
            proof {
                let l = last_sep(v@);
                assert(occurs_at(v@, sep(), i as int));
                assert(occurs_at(v@, sep(), l));
                if l < i {
                    assert(!occurs_at(v@, sep(), i as int));
                }
                assert(l == i);
                assert(v@.subrange(i + 2, n as int) =~= v@.skip(i + 2));
            }
            return normalized.substring_char(i + 2, n);
        }
        if i == 0 {
            proof {
                assert(!has_part(v@, sep())) by {
                    if has_part(v@, sep()) {
                        let k = choose|k: int| #[trigger] occurs_at(v@, sep(), k);
                        assert(0 <= k);
                    }
                }
            }
            return normalized;
        }
        i = i - 1;
    }
}

/// Is the name of more than one segment?
pub fn is_qualified_name(name: &str) -> (r: bool)
    ensures
        r == has_part(name@, sep()),
{
    let v = chars_of(name);
    let colons = sep_chars();
    match find_part(&v, &colons) {
        Some(_) => true,
        None => false,
    }
}

/// A name without the leading run of `crate::`, `self::` and `super::`.
pub open spec fn module_relative(name: Seq<char>) -> Seq<char>
    decreases name.len(),
{
    if begins_with(name, "crate::"@) && "crate::"@.len() == 7 {
        module_relative(name.skip(7))
    } else if begins_with(name, "self::"@) && "self::"@.len() == 6 {
        module_relative(name.skip(6))
    } else if begins_with(name, "super::"@) && "super::"@.len() == 7 {
        module_relative(name.skip(7))
    } else {
        name
    }
}

/// A name without the leading run of Rust module keywords.
pub fn strip_rust_module_prefix(normalized: &str) -> (r: &str)
    ensures
        r@ == module_relative(normalized@),
{
    proof {
        reveal_strlit("crate::");
        reveal_strlit("self::");
        reveal_strlit("super::");
    }
    let v = chars_of(normalized);
    let krate = chars_of("crate::");
    let itself = chars_of("self::");
    let parent = chars_of("super::");
    let n: usize = v.len();
    let mut at: usize = 0;
    assert(v@.skip(0) =~= v@);
    loop
        invariant
            at <= n,
            n == v.len(),
            v@ == normalized@,
            krate@ == "crate::"@,
            itself@ == "self::"@,
            parent@ == "super::"@,
            krate@.len() == 7,
            itself@.len() == 6,
            parent@.len() == 7,
            module_relative(v@.skip(at as int)) == module_relative(v@),
        decreases n - at,
    {
        proof {
            let rest = v@.skip(at as int);
            assert forall|part: Seq<char>| #[trigger] occurs_at(v@, part, at as int) == begins_with(rest, part) by {
                if at + part.len() <= n {
                    assert(v@.subrange(at as int, at + part.len()) =~= rest.subrange(0, part.len() as int));
                }
            }
        }
        if stands_at(&v, &krate, at) {
            assert(v@.skip(at as int).skip(7) =~= v@.skip(at + 7));
            at = at + 7;
        } else if stands_at(&v, &itself, at) {
            assert(v@.skip(at as int).skip(6) =~= v@.skip(at + 6));
            at = at + 6;
        } else if stands_at(&v, &parent, at) {
            assert(v@.skip(at as int).skip(7) =~= v@.skip(at + 7));
            at = at + 7;
        } else {
            assert(v@.subrange(at as int, n as int) =~= v@.skip(at as int));
            return normalized.substring_char(at, n);
        }
    }
}

} // verus!
