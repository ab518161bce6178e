//! Reading file names: the last path segment and the file extension.
use vstd::prelude::*;

verus! {

/// The index of the last `c` among the first `end` characters of `s`, or -1.
pub open spec fn last_before(s: Seq<char>, c: char, end: int) -> int
    decreases end,
{
    if end <= 0 {
        -1
    } else if s[end - 1] == c {
        end - 1
    } else {
        last_before(s, c, end - 1)
    }
}

pub proof fn lemma_last_before_bounds(s: Seq<char>, c: char, end: int)
    requires
        0 <= end <= s.len(),
    ensures
        -1 <= last_before(s, c, end) < end,
        last_before(s, c, end) >= 0 ==> s[last_before(s, c, end)] == c,
        forall|j: int| last_before(s, c, end) < j < end ==> s[j] != c,
    decreases end,
{
    if end > 0 && s[end - 1] != c {
        lemma_last_before_bounds(s, c, end - 1);
    }
}

/// The end of the last meaningful part among the first `end` characters of
/// `p`: trailing `/` characters and trailing `.` parts are passed over.
pub open spec fn trimmed_end(p: Seq<char>, end: int) -> int
    decreases end,
{
    if end <= 0 {
        0
    } else if p[end - 1] == '/' {
        trimmed_end(p, end - 1)
    } else if p[end - 1] == '.' && (end == 1 || p[end - 2] == '/') {
        trimmed_end(p, end - 1)
    } else {
        end
    }
}

/// The file name of a path: its last part, once trailing `/` characters and
/// `.` parts are passed over. A path that ends in `..`, or has no such part,
/// names no file.
pub open spec fn file_name_of(p: Seq<char>) -> Option<Seq<char>> {
    let e = trimmed_end(p, p.len() as int);
    let part = p.subrange(last_before(p, '/', e) + 1, e);
    if e == 0 || part == seq!['.', '.'] {
        None
    } else {
        Some(part)
    }
}

/// The extension of a file name: the text after its last dot, or the last two
/// dot-separated segments when the last one is `gz` and the one before it is
/// not empty. A name without a dot, or ending in a dot, has none.
pub open spec fn extension_of_name(b: Seq<char>) -> Option<Seq<char>> {
    let d = last_before(b, '.', b.len() as int);
    if d < 0 || d == b.len() - 1 {
        None
    } else {
        let last = b.subrange(d + 1, b.len() as int);
        let e = last_before(b, '.', d);
        if last == seq!['g', 'z'] && 0 <= e < d - 1 {
            Some(b.subrange(e + 1, b.len() as int))
        } else {
            Some(last)
        }
    }
}

/// The extension of the file that a path names.
pub open spec fn extension_of(p: Seq<char>) -> Option<Seq<char>> {
    match file_name_of(p) {
        Some(b) => extension_of_name(b),
        None => None,
    }
}

/// The index of the last `c` among the first `end` characters of `s`.
pub fn find_last(s: &str, c: char, end: usize) -> (r: Option<usize>)
    requires
        end <= s@.len(),
    ensures
        match r {
            Some(k) => k == last_before(s@, c, end as int),
            None => last_before(s@, c, end as int) == -1,
        },
{
    let mut i: usize = end;
    while i > 0
        invariant
            i <= end <= s@.len(),
            last_before(s@, c, end as int) == last_before(s@, c, i as int),
        decreases i,
    {
        if s.get_char(i - 1) == c {
            return Some(i - 1);
        }
        i = i - 1;
    }
    None
}

/// The end of the last meaningful part among the first `end` characters.
fn trim_end(path: &str, end: usize) -> (r: usize)
    requires
        end <= path@.len(),
    ensures
        r == trimmed_end(path@, end as int),
        r <= end,
    decreases end,
{
    if end == 0 {
        0
    } else if path.get_char(end - 1) == '/' {
        trim_end(path, end - 1)
    } else if path.get_char(end - 1) == '.' && (end == 1 || path.get_char(end - 2) == '/') {
        trim_end(path, end - 1)
    } else {
        end
    }
}

/// The file name of a path: its last part, passing over trailing `/`
/// characters and `.` parts; none for a path that ends in `..`.
pub fn file_name(path: &str) -> (r: Option<&str>)
    ensures
        match r {
            Some(b) => file_name_of(path@) == Some(b@),
            None => file_name_of(path@) is None,
        },
{
    let len = path.unicode_len();
    let e = trim_end(path, len);
    if e == 0 {
        return None;
    }
    proof {
        lemma_last_before_bounds(path@, '/', e as int);
    }
    let start: usize = match find_last(path, '/', e) {
        Some(k) => k + 1,
        None => 0,
    };
    let part = path.substring_char(start, e);
    let is_parent = e - start == 2 && path.get_char(start) == '.' && path.get_char(start + 1)
        == '.';
    assert(part@ == path@.subrange(start as int, e as int));
    assert(part@.len() == e - start);
    assert(is_parent == (part@ == seq!['.', '.'])) by {
        if is_parent {
            assert(part@[0] == '.' && part@[1] == '.');
            assert(part@ =~= seq!['.', '.']);
        }
        if part@ == seq!['.', '.'] {
            assert(part@[0] == '.' && part@[1] == '.');
            assert(path@[start as int] == '.' && path@[start + 1] == '.');
        }
    }
    if is_parent {
        None
    } else {
        Some(part)
    }
}

/// The extension of a file name, with a trailing `.gz` kept together with
/// the segment before it (`reads.fastq.gz` gives `fastq.gz`).
pub fn name_extension(name: &str) -> (r: Option<String>)
    ensures
        match r {
            Some(e) => extension_of_name(name@) == Some(e@),
            None => extension_of_name(name@) is None,
        },
{
    let len = name.unicode_len();
    proof {
        lemma_last_before_bounds(name@, '.', len as int);
    }
    match find_last(name, '.', len) {
        None => None,
        Some(d) => {
            if d + 1 == len {
                return None;
            }
            proof {
                lemma_last_before_bounds(name@, '.', d as int);
            }
            let is_gz = len - d == 3 && name.get_char(d + 1) == 'g' && name.get_char(d + 2) == 'z';
            let ghost last = name@.subrange(d + 1, len as int);
            assert(last.len() == len - d - 1);
            assert(is_gz == (last == seq!['g', 'z'])) by {
                if is_gz {
                    assert(last[0] == 'g' && last[1] == 'z');
                    assert(last =~= seq!['g', 'z']);
                }
                if last == seq!['g', 'z'] {
                    assert(last[0] == 'g' && last[1] == 'z');
                    assert(name@[d + 1] == 'g' && name@[d + 2] == 'z');
                }
            }
            if is_gz {
                match find_last(name, '.', d) {
                    Some(e) => {
                        if e + 1 < d {
                            return Some(String::from_str(name.substring_char(e + 1, len)));
                        }
                    },
                    None => {},
                }
            }
            Some(String::from_str(name.substring_char(d + 1, len)))
        },
    }
}

/// The extension of the file that `path` names, if its name has one.
pub fn get_extension(path: &str) -> (r: Option<String>)
    ensures
        match r {
            Some(e) => extension_of(path@) == Some(e@),
            None => extension_of(path@) is None,
        },
{
    match file_name(path) {
        Some(b) => name_extension(b),
        None => None,
    }
}

} // verus!
