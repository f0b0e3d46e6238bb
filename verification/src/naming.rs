//! Naming rules of the report: the type tag of a path, the display name of a
//! scanned root, and the fixed ignore set of conventionally noisy directories.

use vstd::prelude::*;
use crate::strutil::{
    after_last, chars_of, lower_seq, str_eq, str_eq_ignore_case, string_of, suffix_after_last,
    upper_chars, upper_seq,
};

verus! {

/// The extension of a file name: the characters after its last dot, unless
/// the only dot opens the name (a hidden file) or there is no dot at all.
pub open spec fn ext_of(name: Seq<char>) -> Seq<char> {
    let e = after_last(name, '.');
    if e.len() == name.len() {
        Seq::empty()
    } else if name.len() - e.len() - 1 == 0 {
        Seq::empty()
    } else {
        e
    }
}

/// The classification tag of an extension: a fixed finite table, a sentinel
/// for an empty extension, and the ASCII-uppercased extension as fallback.
pub open spec fn type_tag(e: Seq<char>) -> Seq<char> {
    if e == "rs"@ {
        "RUST"@
    } else if e == "py"@ {
        "PYTHON"@
    } else if e == "js"@ {
        "JAVASCRIPT"@
    } else if e == "ts"@ {
        "TYPESCRIPT"@
    } else if e == "cpp"@ {
        "C++"@
    } else if e == "c"@ {
        "C"@
    } else if e == "cs"@ {
        "C#"@
    } else if e == "java"@ {
        "JAVA"@
    } else if e == "rb"@ {
        "RUBY"@
    } else if e == "php"@ {
        "PHP"@
    } else if e == "html"@ {
        "HTML"@
    } else if e == "css"@ {
        "CSS"@
    } else if e == "sh"@ {
        "SHELL"@
    } else if e == "go"@ {
        "GO"@
    } else if e == "zig"@ {
        "ZIG"@
    } else if e == "json"@ {
        "JSON"@
    } else if e == "xml"@ {
        "XML"@
    } else if e == "toml"@ {
        "CARGO"@
    } else if e == "yaml"@ {
        "YAML"@
    } else if e == "exe"@ {
        "APPLICATION"@
    } else if e == "pem"@ {
        "KEY"@
    } else if e == "dll"@ {
        "DLL"@
    } else if e == "md"@ {
        "MARKDOWN"@
    } else if e == "mp3"@ {
        "MP3 AUDIO"@
    } else if e == "m4a"@ {
        "M4A AUDIO"@
    } else if e == "mp4"@ {
        "MP4 VIDEO"@
    } else if e == "mkv"@ {
        "MKV VIDEO"@
    } else if e == "jpg"@ {
        "JPEG IMAGE"@
    } else if e == "png"@ {
        "PNG IMAGE"@
    } else if e == "pdf"@ {
        "PDF"@
    } else if e == "txt"@ {
        "TEXT"@
    } else if e.len() == 0 {
        "DOT FILE"@
    } else {
        upper_seq(e)
    }
}

/// The type tag of a path: the tag of the extension of its final component.
pub open spec fn spec_file_type(path: Seq<char>) -> Seq<char> {
    type_tag(ext_of(after_last(path, '/')))
}

/// The classification tag shown in the `Type` column for the file at `path`.
pub fn get_file_type(path: &str) -> (r: String)
    ensures
        r@ == spec_file_type(path@),
{
    let v = chars_of(path);
    let name = suffix_after_last(&v, '/');
    let e = suffix_after_last(&name, '.');
    proof {
        crate::strutil::lemma_after_last_len(name@, '.');
    }
    let ext: Vec<char> = if e.len() == name.len() {
        Vec::new()
    } else if name.len() - e.len() - 1 == 0 {
        Vec::new()
    } else {
        e
    };
    proof {
        assert(ext@ =~= ext_of(after_last(path@, '/')));
    }
    let es = string_of(&ext);
    let s = es.as_str();
    if str_eq(s, "rs") {
        String::from_str("RUST")
    } else if str_eq(s, "py") {
        String::from_str("PYTHON")
    } else if str_eq(s, "js") {
        String::from_str("JAVASCRIPT")
    } else if str_eq(s, "ts") {
        String::from_str("TYPESCRIPT")
    } else if str_eq(s, "cpp") {
        String::from_str("C++")
    } else if str_eq(s, "c") {
        String::from_str("C")
    } else if str_eq(s, "cs") {
        String::from_str("C#")
    } else if str_eq(s, "java") {
        String::from_str("JAVA")
    } else if str_eq(s, "rb") {
        String::from_str("RUBY")
    } else if str_eq(s, "php") {
        String::from_str("PHP")
    } else if str_eq(s, "html") {
        String::from_str("HTML")
    } else if str_eq(s, "css") {
        String::from_str("CSS")
    } else if str_eq(s, "sh") {
        String::from_str("SHELL")
    } else if str_eq(s, "go") {
        String::from_str("GO")
    } else if str_eq(s, "zig") {
        String::from_str("ZIG")
    } else if str_eq(s, "json") {
        String::from_str("JSON")
    } else if str_eq(s, "xml") {
        String::from_str("XML")
    } else if str_eq(s, "toml") {
        String::from_str("CARGO")
    } else if str_eq(s, "yaml") {
        String::from_str("YAML")
    } else if str_eq(s, "exe") {
        String::from_str("APPLICATION")
    } else if str_eq(s, "pem") {
        String::from_str("KEY")
    } else if str_eq(s, "dll") {
        String::from_str("DLL")
    } else if str_eq(s, "md") {
        String::from_str("MARKDOWN")
    } else if str_eq(s, "mp3") {
        String::from_str("MP3 AUDIO")
    } else if str_eq(s, "m4a") {
        String::from_str("M4A AUDIO")
    } else if str_eq(s, "mp4") {
        String::from_str("MP4 VIDEO")
    } else if str_eq(s, "mkv") {
        String::from_str("MKV VIDEO")
    } else if str_eq(s, "jpg") {
        String::from_str("JPEG IMAGE")
    } else if str_eq(s, "png") {
        String::from_str("PNG IMAGE")
    } else if str_eq(s, "pdf") {
        String::from_str("PDF")
    } else if str_eq(s, "txt") {
        String::from_str("TEXT")
    } else if ext.len() == 0 {
        String::from_str("DOT FILE")
    } else {
        string_of(&upper_chars(&ext))
    }
}

/// The display name of a scanned root: the last real component of the path.
/// Trailing separators and bare current-directory components are skipped;
/// an empty path or one that ends in a parent-directory component has no
/// usable name.
pub open spec fn root_name_of(s: Seq<char>) -> Seq<char>
    decreases s.len(),
{
    if s.len() == 0 {
        "UNKNOWN"@
    } else if s.last() == '/' {
        root_name_of(s.drop_last())
    } else {
        let name = after_last(s, '/');
        if name == ".."@ {
            "UNKNOWN"@
        } else if name == "."@ {
            root_name_of(s.drop_last())
        } else {
            name
        }
    }
}

fn root_name_chars(v: Vec<char>) -> (r: Vec<char>)
    ensures
        r@ == root_name_of(v@),
    decreases v@.len(),
{
    if v.len() == 0 {
        chars_of("UNKNOWN")
    } else if v[v.len() - 1] == '/' {
        let mut w = v;
        w.pop();
        root_name_chars(w)
    } else {
        let name = suffix_after_last(&v, '/');
        let ns = string_of(&name);
        if str_eq(ns.as_str(), "..") {
            chars_of("UNKNOWN")
        } else if str_eq(ns.as_str(), ".") {
            let mut w = v;
            w.pop();
            root_name_chars(w)
        } else {
            name
        }
    }
}

/// The name under which the scanned root is reported: its last path
/// component, or `"UNKNOWN"` where the path has none.
pub fn format_root_name(path: &str) -> (r: String)
    ensures
        r@ == root_name_of(path@),
{
    let v = chars_of(path);
    let r = root_name_chars(v);
    string_of(&r)
}

/// Whether `name` is in the fixed ignore set of conventionally noisy
/// directory names, compared without regard to ASCII case.
pub open spec fn spec_is_ignored(name: Seq<char>) -> bool {
    ||| lower_seq(name) == lower_seq(".git"@)
    ||| lower_seq(name) == lower_seq("node_modules"@)
    ||| lower_seq(name) == lower_seq("target"@)
    ||| lower_seq(name) == lower_seq("dist"@)
    ||| lower_seq(name) == lower_seq("build"@)
    ||| lower_seq(name) == lower_seq(".idea"@)
    ||| lower_seq(name) == lower_seq(".vscode"@)
}

/// Whether the smart-ignore filter drops a child of this name.
pub fn is_ignored_name(name: &str) -> (r: bool)
    ensures
        r == spec_is_ignored(name@),
{
    str_eq_ignore_case(name, ".git") || str_eq_ignore_case(name, "node_modules")
        || str_eq_ignore_case(name, "target") || str_eq_ignore_case(name, "dist")
        || str_eq_ignore_case(name, "build") || str_eq_ignore_case(name, ".idea")
        || str_eq_ignore_case(name, ".vscode")
}

} // verus!
