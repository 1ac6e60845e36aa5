use vstd::prelude::*;
use vstd::string::*;
use crate::error::JuliaupError;

verus! {

/// First entry of a separated path list: the characters before the first
/// separator.
pub open spec fn spec_first_entry(s: Seq<char>, sep: char) -> Seq<char> {
    if (exists|i: int| 0 <= i < s.len() && s[i] == sep) {
        s.subrange(0, first_sep_at(s, sep))
    } else {
        s
    }
}

/// Position of the first separator (meaningful only when one exists).
pub open spec fn first_sep_at(s: Seq<char>, sep: char) -> int {
    choose|i: int|
        0 <= i < s.len() && s[i] == sep && (forall|j: int| 0 <= j < i ==> s[j] != sep)
}

fn char_at(s: &str, i: usize) -> (c: char)
    requires
        i < s@.len(),
    ensures
        c == s@[i as int],
{
    s.get_char(i)
}

/// Splits off the first entry of a separator-delimited list.
pub fn first_entry(s: &str, sep: char) -> (r: String)
    ensures
        r@ == spec_first_entry(s@, sep),
{
    let len = s.unicode_len();
    let mut i: usize = 0;
    while i < len
        invariant
            len == s@.len(),
            i <= len,
            forall|j: int| 0 <= j < i ==> s@[j] != sep,
        decreases len - i,
    {
        let c = char_at(s, i);
        if c == sep {
            let head = s.substring_char(0, i);
            proof {
                assert(s@[i as int] == sep);
                let w = first_sep_at(s@, sep);
                assert(s@[w] == sep && (forall|j: int| 0 <= j < w ==> s@[j] != sep));
                if w < i {
                    assert(s@[w] != sep);
                }
                if i < w {
                    assert(s@[i as int] != sep);
                }
                assert(w == i);
            }
            return head.to_owned();
        }
        i = i + 1;
    }
    proof {
        if exists|j: int| 0 <= j < s@.len() && s@[j] == sep {
            let j = choose|j: int| 0 <= j < s@.len() && s@[j] == sep;
            assert(s@[j] != sep);
        }
    }
    s.to_owned()
}

/// A Unix path is absolute when it starts with the path separator.
pub open spec fn spec_is_absolute_unix(p: Seq<char>) -> bool {
    p.len() > 0 && p[0] == '/'
}

pub open spec fn is_ascii_alpha(c: char) -> bool {
    (65 <= (c as u32) <= 90) || (97 <= (c as u32) <= 122)
}

/// A Windows path is absolute when a drive letter, a colon and a separator
/// lead it, or when it is a UNC path starting with two backslashes.
pub open spec fn spec_is_absolute_windows(p: Seq<char>) -> bool {
    (p.len() >= 3 && is_ascii_alpha(p[0]) && p[1] == ':' && (p[2] == '/' || p[2] == '\\')) || (
    p.len() >= 2 && p[0] == '\\' && p[1] == '\\')
}

/// Platform-aware absoluteness: the platform's own rule decides.
pub open spec fn spec_is_absolute(p: Seq<char>, windows: bool) -> bool {
    if windows {
        spec_is_absolute_windows(p)
    } else {
        spec_is_absolute_unix(p)
    }
}

pub fn is_absolute_path(p: &str, windows: bool) -> (r: bool)
    ensures
        r == spec_is_absolute(p@, windows),
{
    let len = s_len(p);
    if !windows {
        if len == 0 {
            return false;
        }
        return char_at(p, 0) == '/';
    }
    let drive = if len >= 3 {
        let c0 = char_at(p, 0);
        let c1 = char_at(p, 1);
        let c2 = char_at(p, 2);
        let alpha = (65 <= c0 as u32 && c0 as u32 <= 90) || (97 <= c0 as u32 && c0 as u32 <= 122);
        alpha && c1 == ':' && (c2 == '/' || c2 == '\\')
    } else {
        false
    };
    let unc = if len >= 2 {
        char_at(p, 0) == '\\' && char_at(p, 1) == '\\'
    } else {
        false
    };
    drive || unc
}

fn s_len(s: &str) -> (l: usize)
    ensures
        l == s@.len(),
{
    s.unicode_len()
}

/// Derives the home directory. A depot-path override wins: its first
/// (colon- or semicolon-separated) entry must be an absolute path, else the
/// override is a fatal configuration error. Without an override, the
/// `.julia/juliaup` directory under the user's home is used, which must
/// also be absolute. With neither source, no home can be derived.
pub fn get_juliaup_home_path(
    depot_override: Option<&String>,
    home_dir: Option<&String>,
    windows: bool,
) -> (r: Result<String, JuliaupError>)
    ensures
        match r {
            Ok(p) => match depot_override {
                Some(d) => {
                    &&& spec_is_absolute(
                        spec_first_entry(d@, if windows { ';' } else { ':' }),
                        windows,
                    )
                    &&& p@ == spec_first_entry(d@, if windows { ';' } else { ':' })
                },
                None => match home_dir {
                    Some(h) => {
                        &&& p@ == h@ + "/.julia/juliaup"@
                        &&& spec_is_absolute(p@, windows)
                    },
                    None => false,
                },
            },
            Err(JuliaupError::InvalidDepotPath { path }) => match depot_override {
                Some(d) => {
                    &&& !spec_is_absolute(
                        spec_first_entry(d@, if windows { ';' } else { ':' }),
                        windows,
                    )
                    &&& path@ == spec_first_entry(d@, if windows { ';' } else { ':' })
                },
                None => match home_dir {
                    Some(h) => !spec_is_absolute(h@ + "/.julia/juliaup"@, windows),
                    None => false,
                },
            },
            Err(JuliaupError::MissingHomeDirectory) => depot_override is None && home_dir is None,
            Err(_) => false,
        },
{
    let sep: char = if windows {
        ';'
    } else {
        ':'
    };
    match depot_override {
        Some(d) => {
            let entry = first_entry(d.as_str(), sep);
            if is_absolute_path(entry.as_str(), windows) {
                Ok(entry)
            } else {
                Err(JuliaupError::InvalidDepotPath { path: entry })
            }
        },
        None => match home_dir {
            Some(h) => {
                let mut p = h.clone();
                p.append("/.julia/juliaup");
                if is_absolute_path(p.as_str(), windows) {
                    Ok(p)
                } else {
                    Err(JuliaupError::InvalidDepotPath { path: p })
                }
            },
            None => Err(JuliaupError::MissingHomeDirectory),
        },
    }
}

/// Path of the configuration file inside the home directory.
pub fn get_juliaupconfig_path(home: &String) -> (r: String)
    ensures
        r@ == home@ + "/juliaup.json"@,
{
    let mut p = home.clone();
    p.append("/juliaup.json");
    p
}

/// Maps the host machine's architecture name to the tag the version
/// database uses; an unknown architecture is a fatal error.
pub fn get_arch(host_arch: &str) -> (r: Result<String, JuliaupError>)
    ensures
        match r {
            Ok(a) => (host_arch@ == "x86"@ && a@ == "x86"@) || (host_arch@ == "x86_64"@ && a@
                == "x64"@) || (host_arch@ == "aarch64"@ && a@ == "aarch64"@),
            Err(JuliaupError::UnknownArch { arch }) => {
                &&& host_arch@ != "x86"@
                &&& host_arch@ != "x86_64"@
                &&& host_arch@ != "aarch64"@
                &&& arch@ == host_arch@
            },
            Err(_) => false,
        },
{
    if str_eq(host_arch, "x86") {
        Ok(String::from_str("x86"))
    } else if str_eq(host_arch, "x86_64") {
        Ok(String::from_str("x64"))
    } else if str_eq(host_arch, "aarch64") {
        Ok(String::from_str("aarch64"))
    } else {
        Err(JuliaupError::UnknownArch { arch: host_arch.to_owned() })
    }
}

/// Decides string equality character by character.
pub fn str_eq(a: &str, b: &str) -> (r: bool)
    ensures
        r == (a@ == b@),
{
    let a_len = a.unicode_len();
    let b_len = b.unicode_len();
    if a_len != b_len {
        return false;
    }
    for i in 0..a_len
        invariant
            a_len == a@.len(),
            b_len == b@.len(),
            a_len == b_len,
            forall|j: int| 0 <= j < i ==> a@[j] == b@[j],
    {
        let ca = char_at(a, i);
        let cb = char_at(b, i);
        if ca != cb {
            return false;
        }
    }
    proof {
        assert(a@ =~= b@);
    }
    true
}

/// One component of an archive entry's path, as the extraction filter
/// classifies it.
pub enum PathPart {
    /// A plain file or directory name.
    Plain { name: String },
    /// A reference to the parent directory.
    Parent,
    /// An absolute root.
    Root,
    /// A reference to the current directory.
    Here,
    /// A drive or share prefix.
    Prefix { text: String },
}

/// Every component from `from` on is a plain name.
pub open spec fn spec_all_plain_from(parts: Seq<PathPart>, from: int) -> bool {
    forall|i: int| from <= i < parts.len() ==> (#[trigger] parts[i]) is Plain
}

/// Decides whether an archive entry is clean: after dropping the skipped
/// leading components, every remaining component is a plain name. An entry
/// that is not clean is skipped entirely by the caller and never written.
pub fn entry_path_is_clean(parts: &Vec<PathPart>, levels_to_skip: usize) -> (r: bool)
    ensures
        r == (levels_to_skip <= parts@.len() && spec_all_plain_from(
            parts@,
            levels_to_skip as int,
        )),
{
    let n = parts.len();
    if levels_to_skip > n {
        return false;
    }
    let mut i: usize = levels_to_skip;
    while i < n
        invariant
            n == parts@.len(),
            levels_to_skip <= i <= n,
            forall|j: int| levels_to_skip <= j < i ==> (#[trigger] parts@[j]) is Plain,
        decreases n - i,
    {
        match &parts[i] {
            PathPart::Plain { .. } => {},
            _ => {
                return false;
            },
        }
        i = i + 1;
    }
    true
}

/// The plain names of a component list, in order, with everything else
/// gone.
pub open spec fn spec_plain_names(parts: Seq<PathPart>) -> Seq<Seq<char>>
    decreases parts.len(),
{
    if parts.len() == 0 {
        Seq::empty()
    } else {
        let rest = spec_plain_names(parts.drop_first());
        match parts[0] {
            PathPart::Plain { name } => seq![name@] + rest,
            _ => rest,
        }
    }
}

/// Sanitizes one archive entry path: drops the first `levels_to_skip`
/// components (the archive's own wrapper folder) and keeps only the plain
/// name components of the rest, so that no parent-directory reference, no
/// absolute root and no prefix survives. Joining the result under the
/// extraction target therefore cannot leave the target directory.
pub fn sanitize_entry_path(parts: &Vec<PathPart>, levels_to_skip: usize) -> (r: Vec<String>)
    ensures
        levels_to_skip <= parts@.len() ==> r@.map_values(|s: String| s@) == spec_plain_names(
            parts@.skip(levels_to_skip as int),
        ),
        levels_to_skip > parts@.len() ==> r@.len() == 0,
{
    let mut r: Vec<String> = Vec::new();
    let n = parts.len();
    if levels_to_skip > n {
        return r;
    }
    let mut i: usize = levels_to_skip;
    while i < n
        invariant
            n == parts@.len(),
            levels_to_skip <= i <= n,
            r@.map_values(|s: String| s@) + spec_plain_names(parts@.skip(i as int))
                == spec_plain_names(parts@.skip(levels_to_skip as int)),
        decreases n - i,
    {
        let ghost pre = r@;
        match &parts[i] {
            PathPart::Plain { name } => {
                r.push(name.clone());
            },
            _ => {},
        }
        proof {
            assert(parts@.skip(i as int).drop_first() =~= parts@.skip(i as int + 1));
            assert(parts@.skip(i as int)[0] == parts@[i as int]);
            match parts@[i as int] {
                PathPart::Plain { name } => {
                    assert(r@.map_values(|s: String| s@) =~= pre.map_values(|s: String| s@)
                        + seq![name@]);
                    assert(r@.map_values(|s: String| s@) + spec_plain_names(
                        parts@.skip(i as int + 1),
                    ) =~= spec_plain_names(parts@.skip(levels_to_skip as int)));
                },
                _ => {
                    assert(r@.map_values(|s: String| s@) + spec_plain_names(
                        parts@.skip(i as int + 1),
                    ) =~= spec_plain_names(parts@.skip(levels_to_skip as int)));
                },
            }
        }
        i = i + 1;
    }
    proof {
        assert(parts@.skip(n as int).len() == 0);
        assert(spec_plain_names(parts@.skip(n as int)) =~= Seq::<Seq<char>>::empty());
        assert(r@.map_values(|s: String| s@) =~= spec_plain_names(
            parts@.skip(levels_to_skip as int),
        ));
    }
    r
}

/// Resolving a relative path of plain names under a base directory only
/// appends: the base's components always stay a prefix of the result, so
/// extraction through `sanitize_entry_path` can never write outside the
/// target directory.
pub proof fn lemma_sanitized_path_stays_inside(
    base: Seq<Seq<char>>,
    parts: Seq<PathPart>,
    skip: int,
)
    ensures
        (base + spec_plain_names(parts.skip(skip))).take(base.len() as int) == base,
        (base + spec_plain_names(parts.skip(skip))).len() >= base.len(),
{
    assert((base + spec_plain_names(parts.skip(skip))).take(base.len() as int) =~= base);
}

} // verus!
