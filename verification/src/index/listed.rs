//! Which files of a project are indexed.

use vstd::prelude::*;

use crate::index::discovery::{
    components, extension, is_foreign_dir, is_kept, is_wanted, lets_through, parts_kept,
};
use crate::index::extractors::typescript_found::lemma_last;
use crate::index::named::{file_name, is_extension, is_part, path_of};
use crate::index::parser::{grammar_of, language_of};
use crate::index::syntax::Grammar;
use crate::lines::lemma_split_joined;
use crate::text::{begins_with, lowered};

verus! {

// ---- paths ----------------------------------------------------------------------------------

/// A directory: a part of a path, other than the single dot.
pub open spec fn is_directory(p: Seq<char>) -> bool {
    is_part(p) && p != "."@
}

proof fn lemma_parts_kept(parts: Seq<Seq<char>>)
    requires
        forall|i: int| 0 <= i < parts.len() ==> is_directory(#[trigger] parts[i]),
    ensures
        parts_kept(parts) == parts,
    decreases parts.len(),
{
    if parts.len() > 0 {
        let rest = parts.drop_last();
        assert forall|i: int| 0 <= i < rest.len() implies is_directory(#[trigger] rest[i]) by {
            assert(rest[i] == parts[i]);
        }
        lemma_parts_kept(rest);
        assert(is_directory(parts[parts.len() - 1]));
        assert(rest.push(parts.last()) =~= parts);
    } else {
        assert(parts_kept(parts) =~= parts);
    }
}

proof fn lemma_components(dirs: Seq<Seq<char>>, name: Seq<char>, ext: Seq<char>)
    requires
        forall|i: int| 0 <= i < dirs.len() ==> is_directory(#[trigger] dirs[i]),
        is_part(name),
        is_extension(ext),
    ensures
        components(path_of(dirs, name, ext)) == dirs.push(file_name(name, ext)),
        extension(file_name(name, ext)) == ext,
{
    let file = file_name(name, ext);
    let parts = dirs.push(file);
    reveal_strlit(".");
    assert("."@.len() == 1);
    assert forall|i: int| 0 <= i < file.len() implies #[trigger] file[i] != '/' && file[i] != '\\' by {
        if i < name.len() {
            assert(file[i] == name[i]);
        } else if i > name.len() {
            assert(file[i] == ext[i - name.len() - 1]);
        }
    }
    assert forall|i: int| 0 <= i < parts.len() implies is_directory(#[trigger] parts[i]) by {
        if i < dirs.len() {
            assert(parts[i] == dirs[i]);
        } else {
            assert(parts[i] == file);
            assert(file.len() >= 2);
        }
    }
    assert forall|i: int| 0 <= i < parts.len() implies !(#[trigger] parts[i]).contains('/') by {
        assert(is_directory(parts[i]));
    }
    lemma_split_joined(parts, '/');
    lemma_parts_kept(parts);
    lemma_last(name, '.', ext);
    assert(file.skip(name.len() + 1int) =~= ext);
}

/// A directory that holds no sources of the project: hidden, or of packages,
/// build results or caches.
pub open spec fn is_apart(name: Seq<char>) -> bool {
    ||| name.len() > 0 && name[0] == '.'
    ||| name == "node_modules"@
    ||| name == "target"@
    ||| name == "build"@
    ||| name == "dist"@
    ||| name == "vendor"@
    ||| name == "__pycache__"@
}

proof fn lemma_apart(name: Seq<char>)
    ensures
        is_foreign_dir(name) <==> is_apart(name),
{
    reveal_strlit(".");
    assert("."@ =~= seq!['.']);
    if name.len() > 0 {
        assert(name.subrange(0, 1) =~= seq![name[0]]);
        if begins_with(name, "."@) {
            assert(name.subrange(0, 1)[0] == '.');
        }
    }
}

/// A listed file is kept exactly if none of its directories is apart from the
/// project, and its language is wanted.
pub proof fn a_file_is_kept_for_its_place_and_language(
    dirs: Seq<Seq<char>>,
    name: Seq<char>,
    ext: Seq<char>,
    languages: Option<Seq<Seq<char>>>,
)
    requires
        forall|i: int| 0 <= i < dirs.len() ==> is_directory(#[trigger] dirs[i]),
        is_part(name),
        is_extension(ext),
    ensures
        is_kept(path_of(dirs, name, ext), languages) <==> {
            &&& forall|i: int| 0 <= i < dirs.len() ==> !is_apart(#[trigger] dirs[i])
            &&& is_wanted(ext, languages)
        },
{
    let parts = dirs.push(file_name(name, ext));
    lemma_components(dirs, name, ext);
    assert forall|i: int| 0 <= i < dirs.len() implies parts[i] == #[trigger] dirs[i] && (is_foreign_dir(dirs[i])
        <==> is_apart(dirs[i])) by {
        lemma_apart(dirs[i]);
    }
    if is_kept(path_of(dirs, name, ext), languages) {
        assert forall|i: int| 0 <= i < dirs.len() implies !is_apart(#[trigger] dirs[i]) by {
            assert(!is_foreign_dir(parts[i]));
        }
    }
    if (forall|i: int| 0 <= i < dirs.len() ==> !is_apart(#[trigger] dirs[i])) && is_wanted(ext, languages) {
        assert forall|i: int| 0 <= i < parts.len() - 1 implies !is_foreign_dir(#[trigger] parts[i]) by {
            assert(parts[i] == dirs[i]);
        }
    }
}

// ---- languages ------------------------------------------------------------------------------

/// Without a filter every language is wanted; with one, those that it names, in
/// any case of their letters, and no others.
pub proof fn a_filter_names_what_is_wanted(filter: Seq<Seq<char>>, language: Seq<char>, i: int)
    ensures
        lets_through(None, language),
        0 <= i < filter.len() && is_same_word(filter[i], language) ==> lets_through(Some(filter), language),
        (forall|k: int| 0 <= k < filter.len() ==> !is_same_word(#[trigger] filter[k], language)) ==> !lets_through(
            Some(filter),
            language,
        ),
{
    assert forall|k: int| 0 <= k < filter.len() implies (is_same_word(#[trigger] filter[k], language) <==> lowered(
        filter[k],
    ) == lowered(language)) by {
        lemma_same_word(filter[k], language);
    }
    if 0 <= i < filter.len() && is_same_word(filter[i], language) {
        assert(lowered(filter[i]) == lowered(language));
    }
}

/// Two letters, whatever their case.
pub open spec fn is_same_letter(a: char, b: char) -> bool {
    ||| a == b
    ||| 'A' <= a <= 'Z' && b as int == a as int + 32
    ||| 'A' <= b <= 'Z' && a as int == b as int + 32
}

/// Two words, whatever the case of their letters.
pub open spec fn is_same_word(a: Seq<char>, b: Seq<char>) -> bool {
    a.len() == b.len() && forall|i: int| 0 <= i < a.len() ==> is_same_letter(#[trigger] a[i], b[i])
}

proof fn lemma_same_word(a: Seq<char>, b: Seq<char>)
    ensures
        is_same_word(a, b) <==> lowered(a) == lowered(b),
{
    let x = lowered(a);
    let y = lowered(b);
    if is_same_word(a, b) {
        assert forall|i: int| 0 <= i < a.len() implies x[i] == y[i] by {
            assert(is_same_letter(a[i], b[i]));
        }
        assert(x =~= y);
    }
    if x == y {
        assert(a.len() == x.len() && b.len() == y.len());
        assert forall|i: int| 0 <= i < a.len() implies is_same_letter(#[trigger] a[i], b[i]) by {
            assert(x[i] == y[i]);
            assert(x[i] == crate::text::lower_char(a[i]));
            assert(y[i] == crate::text::lower_char(b[i]));
        }
    }
}

proof fn lemma_extensions()
    ensures
        "rs"@.len() == 2 && "rs"@[0] == 'r' && "rs"@[1] == 's',
        "ts"@.len() == 2 && "ts"@[0] == 't' && "ts"@[1] == 's',
        "tsx"@.len() == 3 && "tsx"@[0] == 't' && "tsx"@[1] == 's',
        "js"@.len() == 2 && "js"@[0] == 'j' && "js"@[1] == 's',
        "jsx"@.len() == 3 && "jsx"@[0] == 'j' && "jsx"@[1] == 's',
        "mjs"@.len() == 3 && "mjs"@[0] == 'm',
        "cjs"@.len() == 3 && "cjs"@[0] == 'c' && "cjs"@[1] == 'j',
        "py"@.len() == 2 && "py"@[0] == 'p' && "py"@[1] == 'y',
        "pyi"@.len() == 3 && "pyi"@[0] == 'p',
        "go"@.len() == 2 && "go"@[0] == 'g',
        "java"@.len() == 4,
        "c"@.len() == 1 && "c"@[0] == 'c',
        "h"@.len() == 1 && "h"@[0] == 'h',
        "cc"@.len() == 2 && "cc"@[0] == 'c',
        "cpp"@.len() == 3 && "cpp"@[0] == 'c' && "cpp"@[1] == 'p',
        "cxx"@.len() == 3 && "cxx"@[0] == 'c' && "cxx"@[1] == 'x',
        "hpp"@.len() == 3 && "hpp"@[0] == 'h' && "hpp"@[1] == 'p',
        "hxx"@.len() == 3 && "hxx"@[0] == 'h' && "hxx"@[1] == 'x',
        "hh"@.len() == 2 && "hh"@[0] == 'h',
{
    reveal_strlit("rs");
    reveal_strlit("ts");
    reveal_strlit("tsx");
    reveal_strlit("js");
    reveal_strlit("jsx");
    reveal_strlit("mjs");
    reveal_strlit("cjs");
    reveal_strlit("py");
    reveal_strlit("pyi");
    reveal_strlit("go");
    reveal_strlit("java");
    reveal_strlit("c");
    reveal_strlit("h");
    reveal_strlit("cc");
    reveal_strlit("cpp");
    reveal_strlit("cxx");
    reveal_strlit("hpp");
    reveal_strlit("hxx");
    reveal_strlit("hh");
}

proof fn lemma_languages()
    ensures
        "rust"@.len() == 4 && "rust"@[0] == 'r',
        "typescript"@.len() == 10 && "typescript"@[0] == 't',
        "javascript"@.len() == 10 && "javascript"@[0] == 'j',
        "python"@.len() == 6,
        "go"@.len() == 2,
        "java"@.len() == 4 && "java"@[0] == 'j',
        "c"@.len() == 1,
        "cpp"@.len() == 3,
{
    reveal_strlit("rust");
    reveal_strlit("typescript");
    reveal_strlit("javascript");
    reveal_strlit("python");
    reveal_strlit("go");
    reveal_strlit("java");
    reveal_strlit("c");
    reveal_strlit("cpp");
}

/// The extension of a file tells its language, and the grammar that it is read
/// with is one of the language; elements between angle brackets have one of their
/// own in both dialects. No other extension has a language.
pub proof fn an_extension_tells_the_language(ext: Seq<char>)
    ensures
        language_of(ext) == Some("rust"@) <==> ext == "rs"@,
        language_of(ext) == Some("typescript"@) <==> ext == "ts"@ || ext == "tsx"@,
        language_of(ext) == Some("javascript"@) <==> ext == "js"@ || ext == "jsx"@ || ext == "mjs"@ || ext == "cjs"@,
        language_of(ext) == Some("python"@) <==> ext == "py"@ || ext == "pyi"@,
        language_of(ext) == Some("go"@) <==> ext == "go"@,
        language_of(ext) == Some("java"@) <==> ext == "java"@,
        language_of(ext) == Some("c"@) <==> ext == "c"@ || ext == "h"@,
        language_of(ext) == Some("cpp"@) <==> ext == "cc"@ || ext == "cpp"@ || ext == "cxx"@ || ext == "hpp"@ || ext
            == "hxx"@ || ext == "hh"@,
        language_of(ext) matches Some(l) ==> {
            &&& l == "rust"@ <==> grammar_of(ext) == Grammar::Rust
            &&& l == "python"@ <==> grammar_of(ext) == Grammar::Python
            &&& l == "go"@ <==> grammar_of(ext) == Grammar::Go
            &&& l == "java"@ <==> grammar_of(ext) == Grammar::Java
            &&& l == "c"@ <==> grammar_of(ext) == Grammar::C
            &&& l == "cpp"@ <==> grammar_of(ext) == Grammar::Cpp
            &&& ext == "tsx"@ || ext == "jsx"@ <==> grammar_of(ext) == Grammar::Tsx
        },
{
    lemma_extensions();
    lemma_languages();
}

} // verus!
