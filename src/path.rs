//! Lexical path handling: normalization, the resolution of import targets, and
//! file extensions. Nothing here looks at a file system.
use vstd::prelude::*;

use crate::text::{has_prefix, join_strings, join_with, split_on, starts_with, views};

verus! {

pub open spec fn dot() -> Seq<char> {
    seq!['.']
}

pub open spec fn dot_dot() -> Seq<char> {
    seq!['.', '.']
}

/// The segments kept after one more segment of a path: `..` drops the last
/// kept one, `.` and empty segments are skipped, any other is kept.
pub open spec fn norm_step(kept: Seq<Seq<char>>, seg: Seq<char>) -> Seq<Seq<char>> {
    if seg == dot_dot() {
        if kept.len() > 0 {
            kept.drop_last()
        } else {
            kept
        }
    } else if seg == dot() || seg.len() == 0 {
        kept
    } else {
        kept.push(seg)
    }
}

/// The segments that remain of `segs` once `.` and `..` are resolved.
pub open spec fn normalize_segments(segs: Seq<Seq<char>>) -> Seq<Seq<char>>
    decreases segs.len(),
{
    if segs.len() == 0 {
        Seq::empty()
    } else {
        norm_step(normalize_segments(segs.drop_last()), segs.last())
    }
}

/// `p` with `.` and `..` segments resolved and empty segments dropped; a
/// leading `/` is kept, and `..` never climbs above the start of the path.
pub open spec fn normalized(p: Seq<char>) -> Seq<char> {
    let body = join_with(normalize_segments(split_on(p, '/')), '/');
    if p.len() > 0 && p[0] == '/' {
        seq!['/'] + body
    } else {
        body
    }
}

fn apply_segment(kept: &mut Vec<String>, seg: &str)
    ensures
        views(final(kept)@) == norm_step(views(old(kept)@), seg@),
{
    let len = seg.unicode_len();
    let is_dot_dot = len == 2 && seg.get_char(0) == '.' && seg.get_char(1) == '.';
    let is_dot = len == 1 && seg.get_char(0) == '.';
    proof {
        if seg@ == dot_dot() {
            assert(is_dot_dot);
        }
        if is_dot_dot {
            assert(seg@ =~= dot_dot());
        }
        if is_dot {
            assert(seg@ =~= dot());
        }
        if seg@ == dot() {
            assert(is_dot);
        }
    }
    if is_dot_dot {
        if kept.len() > 0 {
            kept.pop();
            assert(views(kept@) =~= views(old(kept)@).drop_last());
        }
    } else if !is_dot && len > 0 {
        kept.push(String::from_str(seg));
        assert(views(kept@) =~= views(old(kept)@).push(seg@));
    }
}

/// Resolves `.` and `..` segments of `path` without looking at the file
/// system.
pub fn normalize_path(path: &str) -> (r: String)
    ensures
        r@ == normalized(path@),
{
    let n = path.unicode_len();
    let mut kept: Vec<String> = Vec::new();
    let mut start: usize = 0;
    let mut i: usize = 0;
    let ghost mut closed: Seq<Seq<char>> = Seq::empty();
    assert(path@.subrange(0, 0) =~= Seq::<char>::empty());
    assert(split_on(Seq::<char>::empty(), '/') =~= closed.push(path@.subrange(0, 0)));
    while i < n
        invariant
            n == path@.len(),
            start <= i <= n,
            split_on(path@.subrange(0, i as int), '/') == closed.push(
                path@.subrange(start as int, i as int),
            ),
            views(kept@) == normalize_segments(closed),
        decreases n - i,
    {
        let c = path.get_char(i);
        proof {
            let t = path@.subrange(0, i + 1);
            assert(t.drop_last() =~= path@.subrange(0, i as int));
            assert(t.last() == c);
        }
        if c == '/' {
            let seg = path.substring_char(start, i);
            apply_segment(&mut kept, seg);
            proof {
                let old_closed = closed;
                closed = closed.push(seg@);
                assert(closed.drop_last() =~= old_closed);
                assert(path@.subrange(i + 1, i + 1) =~= Seq::<char>::empty());
            }
            start = i + 1;
        } else {
            proof {
                assert(path@.subrange(start as int, i + 1) =~= path@.subrange(
                    start as int,
                    i as int,
                ).push(c));
            }
        }
        i = i + 1;
    }
    let seg = path.substring_char(start, n);
    apply_segment(&mut kept, seg);
    proof {
        assert(path@.subrange(0, n as int) =~= path@);
        assert(closed.push(seg@).drop_last() =~= closed);
    }
    proof {
        reveal_strlit("/");
    }
    let body = join_strings(&kept, "/");
    if n > 0 && path.get_char(0) == '/' {
        let mut out = String::from_str("/");
        out.append(body.as_str());
        out
    } else {
        body
    }
}

/// An import target written relative to the importing file's directory: its
/// first segment is `.` or `..`.
pub open spec fn is_relative_import(target: Seq<char>) -> bool {
    target == dot() || target == dot_dot() || has_prefix(target, seq!['.', '/'])
        || has_prefix(target, seq!['.', '.', '/'])
}

/// The file that `importer`'s directive names by `target`: a relative target
/// is read from the directory that holds `importer`, any other from the root
/// of the tree; either way the result is normalized.
pub open spec fn resolve_import(importer: Seq<char>, target: Seq<char>) -> Seq<char> {
    if is_relative_import(target) {
        normalized(importer + seq!['/', '.', '.', '/'] + target)
    } else {
        normalized(target)
    }
}

/// The file that `importer`'s directive names by `target`.
pub fn resolve_import_path(importer: &str, target: &str) -> (r: String)
    ensures
        r@ == resolve_import(importer@, target@),
{
    let len = target.unicode_len();
    proof {
        reveal_strlit(".");
        reveal_strlit("..");
        reveal_strlit("./");
        reveal_strlit("../");
    }
    let relative = (len == 1 && target.get_char(0) == '.') || (len == 2 && target.get_char(0)
        == '.' && target.get_char(1) == '.') || starts_with(target, "./") || starts_with(
        target,
        "../",
    );
    proof {
        if len == 1 && target@[0] == '.' {
            assert(target@ =~= dot());
        }
        if len == 2 && target@[0] == '.' && target@[1] == '.' {
            assert(target@ =~= dot_dot());
        }
        assert("./"@ =~= seq!['.', '/']);
        assert("../"@ =~= seq!['.', '.', '/']);
    }
    if relative {
        let mut joined = String::from_str(importer);
        joined.append("/../");
        joined.append(target);
        proof {
            reveal_strlit("/../");
            assert("/../"@ =~= seq!['/', '.', '.', '/']);
        }
        normalize_path(joined.as_str())
    } else {
        normalize_path(target)
    }
}


/// The last segment that names something: neither empty nor `.`.
pub open spec fn last_named(segs: Seq<Seq<char>>) -> Option<Seq<char>>
    decreases segs.len(),
{
    if segs.len() == 0 {
        None
    } else if segs.last().len() > 0 && segs.last() != dot() {
        Some(segs.last())
    } else {
        last_named(segs.drop_last())
    }
}

/// The final component of a path, unless that is `..`.
pub open spec fn file_name(p: Seq<char>) -> Option<Seq<char>> {
    match last_named(split_on(p, '/')) {
        Some(f) => if f == dot_dot() {
            None
        } else {
            Some(f)
        },
        None => None,
    }
}

/// The path's file name has the extension `sql`: it ends in `.sql` after at
/// least one character.
pub open spec fn is_sql_file(p: Seq<char>) -> bool {
    match file_name(p) {
        Some(f) => f.len() > 4 && f.subrange(f.len() - 4, f.len() as int) == seq![
            '.',
            's',
            'q',
            'l',
        ],
        None => false,
    }
}

fn named(seg: &str) -> (r: bool)
    ensures
        r == (seg@.len() > 0 && seg@ != dot()),
{
    let len = seg.unicode_len();
    if len == 1 && seg.get_char(0) == '.' {
        assert(seg@ =~= dot());
        return false;
    }
    len > 0
}

/// Whether the file name of `path` has the extension `sql`.
pub fn has_sql_extension(path: &str) -> (r: bool)
    ensures
        r == is_sql_file(path@),
{
    let n = path.unicode_len();
    let mut last: Option<&str> = None;
    let mut start: usize = 0;
    let mut i: usize = 0;
    let ghost mut closed: Seq<Seq<char>> = Seq::empty();
    assert(path@.subrange(0, 0) =~= Seq::<char>::empty());
    assert(split_on(Seq::<char>::empty(), '/') =~= closed.push(path@.subrange(0, 0)));
    while i < n
        invariant
            n == path@.len(),
            start <= i <= n,
            split_on(path@.subrange(0, i as int), '/') == closed.push(
                path@.subrange(start as int, i as int),
            ),
            match last {
                Some(l) => last_named(closed) == Some(l@),
                None => last_named(closed) is None,
            },
        decreases n - i,
    {
        let c = path.get_char(i);
        proof {
            let t = path@.subrange(0, i + 1);
            assert(t.drop_last() =~= path@.subrange(0, i as int));
            assert(t.last() == c);
        }
        if c == '/' {
            let seg = path.substring_char(start, i);
            if named(seg) {
                last = Some(seg);
            }
            proof {
                let old_closed = closed;
                closed = closed.push(seg@);
                assert(closed.drop_last() =~= old_closed);
                assert(path@.subrange(i + 1, i + 1) =~= Seq::<char>::empty());
            }
            start = i + 1;
        } else {
            proof {
                assert(path@.subrange(start as int, i + 1) =~= path@.subrange(
                    start as int,
                    i as int,
                ).push(c));
            }
        }
        i = i + 1;
    }
    let seg = path.substring_char(start, n);
    if named(seg) {
        last = Some(seg);
    }
    proof {
        assert(path@.subrange(0, n as int) =~= path@);
        assert(closed.push(seg@).drop_last() =~= closed);
    }
    match last {
        None => false,
        Some(f) => {
            let len = f.unicode_len();
            if len == 2 && f.get_char(0) == '.' && f.get_char(1) == '.' {
                assert(f@ =~= dot_dot());
                return false;
            }
            if len <= 4 {
                return false;
            }
            let r = f.get_char(len - 4) == '.' && f.get_char(len - 3) == 's' && f.get_char(len - 2)
                == 'q' && f.get_char(len - 1) == 'l';
            proof {
                let tail = f@.subrange(len - 4, len as int);
                if r {
                    assert(tail =~= seq!['.', 's', 'q', 'l']);
                }
                if tail == seq!['.', 's', 'q', 'l'] {
                    assert(tail[0] == '.' && tail[1] == 's' && tail[2] == 'q' && tail[3] == 'l');
                }
            }
            r
        },
    }
}

/// Whether a batch of changed paths calls for a deploy: at least one of them
/// is an SQL file.
pub fn should_deploy(paths: &Vec<String>) -> (r: bool)
    ensures
        r == exists|i: int| 0 <= i < paths.len() && is_sql_file(#[trigger] paths@[i]@),
{
    let mut i: usize = 0;
    while i < paths.len()
        invariant
            i <= paths.len(),
            forall|j: int| 0 <= j < i ==> !is_sql_file(#[trigger] paths@[j]@),
        decreases paths.len() - i,
    {
        if has_sql_extension(paths[i].as_str()) {
            return true;
        }
        i = i + 1;
    }
    false
}

} // verus!
