//! Import directives: comment lines of the form `-- import <path>` by which a
//! schema file declares which files must come before it.
use vstd::prelude::*;

use crate::text::{split_on, views};

verus! {

/// Blank characters inside a line.
pub open spec fn is_blank(c: char) -> bool {
    c == ' ' || c == '\t' || c == '\r' || c == '\x0B' || c == '\x0C'
}

/// The first position at or after `j` that does not hold a blank.
pub open spec fn skip_blanks(line: Seq<char>, j: int) -> int
    decreases line.len() - j,
{
    if 0 <= j < line.len() && is_blank(line[j]) {
        skip_blanks(line, j + 1)
    } else {
        j
    }
}

pub open spec fn import_word() -> Seq<char> {
    seq!['i', 'm', 'p', 'o', 'r', 't']
}

/// A directive starts at `i`: `--`, blanks, the word `import`, then at least
/// one blank.
pub open spec fn directive_at(line: Seq<char>, i: int) -> bool {
    let j = skip_blanks(line, i + 2);
    &&& 0 <= i
    &&& i + 2 <= line.len()
    &&& line[i] == '-'
    &&& line[i + 1] == '-'
    &&& j + 7 <= line.len()
    &&& line.subrange(j, j + 6) == import_word()
    &&& is_blank(line[j + 6])
}

/// What follows the blanks after `import`, to the end of the line.
pub open spec fn target_at(line: Seq<char>, i: int) -> Seq<char> {
    let j = skip_blanks(line, i + 2);
    line.subrange(skip_blanks(line, j + 6), line.len() as int)
}

/// The last start of a directive before position `k`.
pub open spec fn last_directive_before(line: Seq<char>, k: int) -> Option<int>
    decreases k,
{
    if k <= 0 {
        None
    } else if directive_at(line, k - 1) {
        Some(k - 1)
    } else {
        last_directive_before(line, k - 1)
    }
}

/// The target of a line's directive; where a line holds several, the last
/// one counts.
pub open spec fn line_target(line: Seq<char>) -> Option<Seq<char>> {
    match last_directive_before(line, line.len() as int) {
        Some(i) => Some(target_at(line, i)),
        None => None,
    }
}

pub open spec fn targets_of_lines(lines: Seq<Seq<char>>) -> Seq<Seq<char>>
    decreases lines.len(),
{
    if lines.len() == 0 {
        Seq::empty()
    } else {
        let prev = targets_of_lines(lines.drop_last());
        match line_target(lines.last()) {
            Some(t) => prev.push(t),
            None => prev,
        }
    }
}

/// The import targets that `content` declares, line by line, as written.
pub open spec fn directive_targets(content: Seq<char>) -> Seq<Seq<char>> {
    targets_of_lines(split_on(content, '\n'))
}

fn blank(c: char) -> (r: bool)
    ensures
        r == is_blank(c),
{
    c == ' ' || c == '\t' || c == '\r' || c == '\x0B' || c == '\x0C'
}

fn skip_blanks_from(line: &str, len: usize, j: usize) -> (r: usize)
    requires
        len == line@.len(),
        j <= len,
    ensures
        r as int == skip_blanks(line@, j as int),
        j <= r <= len,
{
    let mut k = j;
    while k < len && blank(line.get_char(k))
        invariant
            len == line@.len(),
            j <= k <= len,
            skip_blanks(line@, k as int) == skip_blanks(line@, j as int),
        decreases len - k,
    {
        k = k + 1;
    }
    k
}

fn directive_starts_at(line: &str, len: usize, i: usize) -> (r: bool)
    requires
        len == line@.len(),
        i < len,
    ensures
        r == directive_at(line@, i as int),
{
    if len - i < 2 || line.get_char(i) != '-' || line.get_char(i + 1) != '-' {
        return false;
    }
    let j = skip_blanks_from(line, len, i + 2);
    if len - j < 7 {
        return false;
    }
    let word = line.get_char(j) == 'i' && line.get_char(j + 1) == 'm' && line.get_char(j + 2)
        == 'p' && line.get_char(j + 3) == 'o' && line.get_char(j + 4) == 'r' && line.get_char(
        j + 5,
    ) == 't';
    proof {
        let w = line@.subrange(j as int, j + 6);
        if word {
            assert(w =~= import_word());
        }
        if w == import_word() {
            assert(w[0] == 'i' && w[1] == 'm' && w[2] == 'p' && w[3] == 'o' && w[4] == 'r' && w[5]
                == 't');
        }
    }
    word && blank(line.get_char(j + 6))
}

/// The target of the line's directive, if it holds one.
fn target_of_line(line: &str) -> (r: Option<String>)
    ensures
        match r {
            Some(t) => line_target(line@) == Some(t@),
            None => line_target(line@) is None,
        },
{
    let len = line.unicode_len();
    let mut k = len;
    while k > 0
        invariant
            len == line@.len(),
            k <= len,
            last_directive_before(line@, k as int) == last_directive_before(line@, len as int),
        decreases k,
    {
        if directive_starts_at(line, len, k - 1) {
            let j = skip_blanks_from(line, len, k + 1);
            let t = skip_blanks_from(line, len, j + 6);
            return Some(String::from_str(line.substring_char(t, len)));
        }
        k = k - 1;
    }
    None
}

/// The import targets that `content` declares, in the order of its lines.
pub fn import_targets(content: &str) -> (r: Vec<String>)
    ensures
        views(r@) == directive_targets(content@),
{
    let n = content.unicode_len();
    let mut found: Vec<String> = Vec::new();
    let mut start: usize = 0;
    let mut i: usize = 0;
    let ghost mut closed: Seq<Seq<char>> = Seq::empty();
    assert(content@.subrange(0, 0) =~= Seq::<char>::empty());
    assert(split_on(Seq::<char>::empty(), '\n') =~= closed.push(content@.subrange(0, 0)));
    assert(views(found@) =~= targets_of_lines(closed));
    while i < n
        invariant
            n == content@.len(),
            start <= i <= n,
            split_on(content@.subrange(0, i as int), '\n') == closed.push(
                content@.subrange(start as int, i as int),
            ),
            views(found@) == targets_of_lines(closed),
        decreases n - i,
    {
        let c = content.get_char(i);
        proof {
            let t = content@.subrange(0, i + 1);
            assert(t.drop_last() =~= content@.subrange(0, i as int));
            assert(t.last() == c);
        }
        if c == '\n' {
            let line = content.substring_char(start, i);
            let ghost before = found@;
            match target_of_line(line) {
                Some(t) => {
                    found.push(t);
                    assert(views(found@) =~= views(before).push(t@));
                },
                None => {},
            }
            proof {
                let old_closed = closed;
                closed = closed.push(line@);
                assert(closed.drop_last() =~= old_closed);
                assert(content@.subrange(i + 1, i + 1) =~= Seq::<char>::empty());
            }
            start = i + 1;
        } else {
            proof {
                assert(content@.subrange(start as int, i + 1) =~= content@.subrange(
                    start as int,
                    i as int,
                ).push(c));
            }
        }
        i = i + 1;
    }
    let line = content.substring_char(start, n);
    let ghost before = found@;
    match target_of_line(line) {
        Some(t) => {
            found.push(t);
            assert(views(found@) =~= views(before).push(t@));
        },
        None => {},
    }
    proof {
        assert(content@.subrange(0, n as int) =~= content@);
        assert(closed.push(line@).drop_last() =~= closed);
    }
    found
}

} // verus!
