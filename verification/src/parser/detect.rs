//! Format detection for config files (extension + content fallback).

use vstd::prelude::*;

use crate::text::{chars_of, leading_white_len, lowercase_of, str_eq, string_from_chars, to_lowercase, trim_start};
use crate::editbuf::char_range;

verus! {

/// The detected config file format.
#[derive(Debug, Clone, Copy, PartialEq, Eq, Structural)]
pub enum Format {
    /// TOML format.
    Toml,
    /// JSON format.
    Json,
    /// YAML format.
    Yaml,
}

/// The format that a (lowercased) extension names, if any.
pub open spec fn format_of_extension(lower: Seq<char>) -> Option<Format> {
    if lower == "toml"@ {
        Some(Format::Toml)
    } else if lower == "json"@ {
        Some(Format::Json)
    } else if lower == "yaml"@ || lower == "yml"@ {
        Some(Format::Yaml)
    } else {
        None
    }
}

/// Content-based detection: JSON when the first non-white-space character
/// is `{` or `[`, YAML otherwise.
pub open spec fn format_of_content(content: Seq<char>) -> Format {
    let t = trim_start(content);
    if t.len() > 0 && (t[0] == '{' || t[0] == '[') {
        Format::Json
    } else {
        Format::Yaml
    }
}

/// The format of a file with the given extension (if it has one) and content.
pub open spec fn detect_spec(extension: Option<Seq<char>>, content: Seq<char>) -> Format {
    match extension {
        Some(e) => match format_of_extension(lowercase_of(e)) {
            Some(f) => f,
            None => format_of_content(content),
        },
        None => format_of_content(content),
    }
}


/// Where the last `/`-separated segment of `p` starts.
pub open spec fn seg_start(p: Seq<char>) -> int
    decreases p.len(),
{
    if p.len() == 0 {
        0
    } else if p.last() == '/' {
        p.len() as int
    } else {
        seg_start(p.drop_last())
    }
}

/// Where the file name of path `p` lies (its last component that is a
/// name: trailing `/` and `.` components are skipped; none when the path
/// ends in `..`, is a root, or is empty).
pub open spec fn name_range(p: Seq<char>) -> Option<(int, int)>
    decreases p.len(),
{
    if p.len() == 0 {
        None
    } else if p.last() == '/' {
        name_range(p.drop_last())
    } else {
        let st = seg_start(p);
        let seg = p.subrange(st, p.len() as int);
        if seg == "."@ {
            if st <= 0 || st >= p.len() {
                None
            } else {
                name_range(p.take(st))
            }
        } else if seg == ".."@ {
            None
        } else {
            Some((st, p.len() as int))
        }
    }
}

/// The position of the last `.` in `n`, if any.
pub open spec fn last_dot(n: Seq<char>) -> Option<int>
    decreases n.len(),
{
    if n.len() == 0 {
        None
    } else if n.last() == '.' {
        Some(n.len() - 1)
    } else {
        last_dot(n.drop_last())
    }
}

/// The extension of path `p` (what `std::path::Path::extension` gives for
/// it): the text after the last `.` of the file name, unless the name has
/// no `.` or its only `.` comes first.
pub open spec fn extension_of(p: Seq<char>) -> Option<Seq<char>> {
    match name_range(p) {
        None => None,
        Some((a, b)) => match last_dot(p.subrange(a, b)) {
            None => None,
            Some(d) => if d == 0 {
                None
            } else {
                Some(p.subrange(a + d + 1, b))
            },
        },
    }
}

proof fn lemma_seg_start(p: Seq<char>)
    ensures
        0 <= seg_start(p) <= p.len(),
        forall|i: int| seg_start(p) <= i < p.len() ==> p[i] != '/',
        seg_start(p) > 0 ==> p[seg_start(p) - 1] == '/',
    decreases p.len(),
{
    if p.len() > 0 && p.last() != '/' {
        lemma_seg_start(p.drop_last());
        assert forall|i: int| seg_start(p) <= i < p.len() implies p[i] != '/' by {
            if i < p.len() - 1 {
                assert(p.drop_last()[i] == p[i]);
            }
        }
    }
}

proof fn lemma_name_range(p: Seq<char>)
    ensures
        name_range(p) matches Some((a, b)) ==> 0 <= a < b <= p.len(),
    decreases p.len(),
{
    if p.len() > 0 {
        if p.last() == '/' {
            lemma_name_range(p.drop_last());
        } else {
            lemma_seg_start(p);
            let st = seg_start(p);
            if p.subrange(st, p.len() as int) == "."@ && 0 < st < p.len() {
                lemma_name_range(p.take(st));
            }
        }
    }
}

proof fn lemma_last_dot(n: Seq<char>)
    ensures
        last_dot(n) matches Some(d) ==> 0 <= d < n.len() && n[d] == '.',
    decreases n.len(),
{
    if n.len() > 0 && n.last() != '.' {
        lemma_last_dot(n.drop_last());
    }
}

fn seg_start_exec(cs: &Vec<char>, n: usize) -> (r: usize)
    requires
        n <= cs@.len(),
    ensures
        r == seg_start(cs@.take(n as int)),
    decreases n,
{
    if n == 0 {
        0
    } else if cs[n - 1] == '/' {
        n
    } else {
        proof {
            assert(cs@.take(n as int).drop_last() =~= cs@.take(n - 1));
        }
        seg_start_exec(cs, n - 1)
    }
}

fn name_range_exec(cs: &Vec<char>, n: usize) -> (r: Option<(usize, usize)>)
    requires
        n <= cs@.len(),
    ensures
        match r {
            Some((a, b)) => name_range(cs@.take(n as int)) == Some((a as int, b as int)),
            None => name_range(cs@.take(n as int)) is None,
        },
    decreases n,
{
    let ghost p = cs@.take(n as int);
    if n == 0 {
        return None;
    }
    if cs[n - 1] == '/' {
        proof {
            assert(p.drop_last() =~= cs@.take(n - 1));
        }
        return name_range_exec(cs, n - 1);
    }
    let st = seg_start_exec(cs, n);
    proof {
        lemma_seg_start(p);
    }
    let seg = char_range(cs, st, n);
    proof {
        assert(seg@ =~= p.subrange(st as int, n as int));
    }
    let seg_s = string_from_chars(seg.as_slice());
    if str_eq(seg_s.as_str(), ".") {
        if st == 0 || st >= n {
            return None;
        }
        proof {
            assert(p.take(st as int) =~= cs@.take(st as int));
        }
        return name_range_exec(cs, st);
    }
    if str_eq(seg_s.as_str(), "..") {
        return None;
    }
    Some((st, n))
}

/// The extension of a file path (see [`extension_of`]).
pub fn file_extension(path: &str) -> (r: Option<String>)
    ensures
        match extension_of(path@) {
            Some(e) => r matches Some(x) && x@ == e,
            None => r is None,
        },
{
    let cs = chars_of(path);
    proof {
        assert(cs@.take(cs@.len() as int) =~= path@);
    }
    let (a, b) = match name_range_exec(&cs, cs.len()) {
        Some(ab) => ab,
        None => return None,
    };
    assert(name_range(path@) == Some((a as int, b as int)));
    proof {
        lemma_name_range(path@);
    }
    let ghost name = path@.subrange(a as int, b as int);
    proof {
        assert(name.take(b - a) =~= name);
    }
    let mut i: usize = b;
    while i > a
        invariant
            a <= i <= b <= cs@.len(),
            cs@ == path@,
            name_range(path@) == Some((a as int, b as int)),
            name == path@.subrange(a as int, b as int),
            last_dot(name) == last_dot(name.take(i - a)),
        decreases i,
    {
        proof {
            let t = name.take(i - a);
            assert(t.drop_last() =~= name.take(i - a - 1));
            assert(t.last() == cs@[i - 1]);
        }
        if cs[i - 1] == '.' {
            proof {
                let t = name.take(i - a);
                assert(t.last() == '.');
                assert(last_dot(t) == Some(i - a - 1));
            }
            let d = i - 1 - a;
            if d == 0 {
                return None;
            }
            let ext = char_range(&cs, i, b);
            proof {
                assert(ext@ =~= path@.subrange(a + d + 1, b as int));
            }
            return Some(string_from_chars(ext.as_slice()));
        }
        i = i - 1;
    }
    proof {
        assert(name.take(0) =~= Seq::<char>::empty());
    }
    None
}

/// The format that a lowercased extension names, if any (see
/// [`format_of_extension`]).
pub fn format_for_extension(lower: &str) -> (r: Option<Format>)
    ensures
        r == format_of_extension(lower@),
{
    if str_eq(lower, "toml") {
        Some(Format::Toml)
    } else if str_eq(lower, "json") {
        Some(Format::Json)
    } else if str_eq(lower, "yaml") || str_eq(lower, "yml") {
        Some(Format::Yaml)
    } else {
        None
    }
}

impl Format {
    /// Detect the format from a file path and its content.
    ///
    /// The path's extension decides first, case-insensitively; if it is
    /// missing or unrecognised, the content decides.
    pub fn detect(path: &str, content: &str) -> (r: Self)
        ensures
            r == detect_spec(extension_of(path@), content@),
    {
        if let Some(ext) = file_extension(path) {
            let lower = to_lowercase(ext.as_str());
            if let Some(f) = format_for_extension(lower.as_str()) {
                return f;
            }
        }
        Self::detect_from_content(content)
    }

    /// Detect the format from the content alone.
    pub fn detect_from_content(content: &str) -> (r: Self)
        ensures
            r == format_of_content(content@),
    {
        let cs = chars_of(content);
        let start = leading_white_len(&cs);
        proof {
            let t = trim_start(content@);
            assert(t.len() == cs@.len() - start);
            assert(t.len() > 0 ==> t[0] == cs@[start as int]);
        }
        if start < cs.len() && (cs[start] == '{' || cs[start] == '[') {
            Format::Json
        } else {
            Format::Yaml
        }
    }
}

} // verus!
