//! The scanner for include directives.
//!
//! A line is an include directive where it holds, after white space or
//! none, `#include "`, then the path of the included file, one byte or
//! more, then `"`, and nothing behind that but, at most, one carriage
//! return.

use crate::paths::{resolve, resolved};
use crate::text::{ascii, ascii_bytes, count_spaces, holds_at, matches_at, spaces_len};
use crate::IncludePosition;
use vstd::prelude::*;
use vstd::slice::slice_subrange;

verus! {

/// The place of the `"` that ends an include directive, if `line` is one:
/// the last byte of the line, or the byte in front of a carriage return
/// that ends it.
pub open spec fn closing_quote(line: Seq<u8>) -> int {
    if line.len() > 0 && line.last() == 13 {
        line.len() - 2
    } else {
        line.len() - 1
    }
}

/// The columns between which the path of the included file stands, if
/// `line` is an include directive.
pub open spec fn include_span(line: Seq<u8>) -> Option<(int, int)> {
    let open = spaces_len(line, 0) + 10;
    let close = closing_quote(line);
    if matches_at(line, spaces_len(line, 0), ascii("#include \"")) && open < close && line[close]
        == '"' as u8 {
        Some((open, close))
    } else {
        None
    }
}

/// The columns between which the path of the included file stands, if
/// `line` is an include directive, see [`include_span`].
pub fn find_include(line: &[u8]) -> (span: Option<(usize, usize)>)
    ensures
        match span {
            Some((start, end)) => include_span(line@) == Some((start as int, end as int))
                && start < end < line.len(),
            None => include_span(line@) is None,
        },
{
    let spaces = count_spaces(line, 0);
    proof {
        reveal_strlit("#include \"");
    }
    if !holds_at(line, spaces, ascii_bytes("#include \"")) {
        return None;
    }
    let open = spaces + 10;
    let close = if line[line.len() - 1] == 13 {
        line.len() - 2
    } else {
        line.len() - 1
    };
    if open < close && line[close] == '"' as u8 {
        Some((open, close))
    } else {
        None
    }
}

/// What the lines `lines` hold.
pub open spec fn line_views(lines: Seq<Option<Vec<u8>>>) -> Seq<Option<Seq<u8>>> {
    Seq::new(
        lines.len(),
        |i: int|
            match lines[i] {
                Some(line) => Some(line@),
                None => None,
            },
    )
}

/// What the includes `list` hold.
pub open spec fn include_views(list: Seq<(Vec<u8>, IncludePosition)>) -> Seq<
    (Seq<u8>, IncludePosition),
> {
    Seq::new(list.len(), |i: int| (list[i].0@, list[i].1))
}

/// The include that the line `line` of `file` makes, where it stands at the
/// place `at` among the lines of the file.
pub open spec fn include_at(root: Seq<u8>, file: Seq<u8>, at: int, line: Option<Seq<u8>>) -> Option<
    (Seq<u8>, IncludePosition),
> {
    match line {
        Some(text) => match include_span(text) {
            Some((start, end)) => Some(
                (
                    resolved(root, file, text.subrange(start, end)),
                    IncludePosition { line: at as usize, start: start as usize, end: end as usize },
                ),
            ),
            None => None,
        },
        None => None,
    }
}

/// The includes that the lines of `file` make, in their order: the path of
/// each included file and the place of the directive. A line that could not
/// be read is `None`; it counts as a line and makes no include.
pub open spec fn includes_in(root: Seq<u8>, file: Seq<u8>, lines: Seq<Option<Seq<u8>>>) -> Seq<
    (Seq<u8>, IncludePosition),
>
    decreases lines.len(),
{
    if lines.len() == 0 {
        Seq::empty()
    } else {
        let before = includes_in(root, file, lines.drop_last());
        match include_at(root, file, lines.len() - 1, lines.last()) {
            Some(entry) => before.push(entry),
            None => before,
        }
    }
}

/// The includes that the lines of `file` make, see [`includes_in`].
pub fn scan_includes(root: &[u8], file: &[u8], lines: &Vec<Option<Vec<u8>>>) -> (found: Vec<
    (Vec<u8>, IncludePosition),
>)
    ensures
        include_views(found@) == includes_in(root@, file@, line_views(lines@)),
{
    let mut found: Vec<(Vec<u8>, IncludePosition)> = Vec::new();
    let mut i: usize = 0;
    assert(line_views(lines@).take(0) =~= Seq::<Option<Seq<u8>>>::empty());
    assert(include_views(found@) =~= Seq::<(Seq<u8>, IncludePosition)>::empty());
    while i < lines.len()
        invariant
            i <= lines.len(),
            include_views(found@) == includes_in(root@, file@, line_views(lines@).take(i as int)),
        decreases lines.len() - i,
    {
        let ghost before = line_views(lines@).take(i as int);
        let ghost now = line_views(lines@).take(i + 1);
        assert(now.drop_last() =~= before);
        assert(now.last() == line_views(lines@)[i as int]);
        let ghost had = include_views(found@);
        match &lines[i] {
            Some(line) => match find_include(line.as_slice()) {
                Some((start, end)) => {
                    let target = slice_subrange(line.as_slice(), start, end);
                    let path = resolve(root, file, target);
                    found.push((path, IncludePosition { line: i, start, end }));
                    assert(include_views(found@) =~= had.push(
                        (path@, IncludePosition { line: i, start, end }),
                    ));
                },
                None => {},
            },
            None => {},
        }
        i += 1;
    }
    assert(line_views(lines@).take(i as int) =~= line_views(lines@));
    found
}

} // verus!
