//! Path inspection through std's `Path`, on paths held as text.
use vstd::prelude::*;

verus! {

/// Whether `c` separates path components on some platform: `/` on every
/// platform, `\` on Windows.
pub open spec fn is_separator(c: char) -> bool {
    c == '/' || c == '\\'
}

/// The position of the last separator in `p`, or -1.
pub open spec fn last_separator(p: Seq<char>) -> int
    decreases p.len(),
{
    if p.len() == 0 {
        -1
    } else if is_separator(p.last()) {
        p.len() - 1
    } else {
        last_separator(p.drop_last())
    }
}

/// The text after the last separator of `p`: the file name, where `p` has
/// one.
pub open spec fn name_part(p: Seq<char>) -> Seq<char> {
    p.subrange(last_separator(p) + 1, p.len() as int)
}

/// The position of the last `.` in `p`, or -1.
pub open spec fn last_dot(p: Seq<char>) -> int
    decreases p.len(),
{
    if p.len() == 0 {
        -1
    } else if p.last() == '.' {
        p.len() - 1
    } else {
        last_dot(p.drop_last())
    }
}

/// Whether the extension of `p` is the same on every platform: `p` does
/// not start with two separators (the Windows network and verbatim
/// prefixes), and its name part is non-empty, is neither `.` nor `..`, and
/// holds no `:` (a Windows drive prefix). Then the name part is the last
/// component. Where the name part has no `.` after its first character,
/// the separator before it must be `/` or missing, since on Unix a `\` is
/// part of the file name.
pub open spec fn extension_known(p: Seq<char>) -> bool {
    let n = name_part(p);
    &&& !(p.len() >= 2 && is_separator(p[0]) && is_separator(p[1]))
    &&& n.len() > 0
    &&& n != seq!['.']
    &&& n != seq!['.', '.']
    &&& forall|i: int| 0 <= i < n.len() ==> #[trigger] n[i] != ':'
    &&& (last_dot(n) > 0 || last_separator(p) < 0 || p[last_separator(p)] == '/')
}

/// The extension of `p` where [`extension_known`] holds: what follows the
/// last `.` of its name part, unless that `.` comes first or is missing.
pub open spec fn known_extension(p: Seq<char>) -> Option<Seq<char>> {
    let n = name_part(p);
    if last_dot(n) > 0 { Some(n.subrange(last_dot(n) + 1, n.len() as int)) } else { None }
}

/// The extension of the path `path`, when it has one that is valid UTF-8.
/// Calls `Path::extension`, which takes the file name (the last component,
/// `None` for `..`) and returns what follows its last `.`, except where the
/// name has no `.` or its only `.` comes first. The contract states this
/// where every platform splits the path alike ([`extension_known`]); for
/// other paths (Windows network and verbatim prefixes, drive-relative names,
/// trailing separators or `.`) what it returns is left unsaid.
#[verifier::external_body]
pub(crate) fn path_extension(path: &str) -> (r: Option<String>)
    ensures
        extension_known(path@) ==> (r is Some <==> known_extension(path@) is Some),
        extension_known(path@) && r is Some ==> known_extension(path@) == Some(r.unwrap()@),
{
    std::path::Path::new(path).extension().and_then(|e| e.to_str()).map(|e| e.to_owned())
}


/// Whether `p` may be absolute on some platform: it starts with a
/// separator (a root on Unix; a root or a network or verbatim prefix on
/// Windows) or with an ASCII letter and `:` (a Windows drive prefix).
pub open spec fn may_be_absolute(p: Seq<char>) -> bool {
    ||| p.len() > 0 && is_separator(p[0])
    ||| p.len() >= 2 && p[1] == ':' && (('a' <= p[0] && p[0] <= 'z') || ('A' <= p[0] && p[0] <= 'Z'))
}

/// Whether the path `path` is absolute. Calls `Path::is_absolute`, which
/// needs a root on Unix and a prefix and a root on Windows. Which paths are
/// absolute differs between platforms; the contract claims only what holds
/// on all: a path that starts with neither a separator nor a drive letter
/// and `:` has no root on Unix and no prefix on Windows, so it is not
/// absolute.
#[verifier::external_body]
pub(crate) fn path_is_absolute(path: &str) -> (r: bool)
    ensures
        r ==> may_be_absolute(path@),
{
    std::path::Path::new(path).is_absolute()
}

} // verus!
