//! What a path says of its file: the extension, the kind of shader, the
//! directory, and whether the file lies in the workspace.

use crate::text::{
    ascii, ascii_bytes, bytes_eq, has_prefix, last_index_of, lemma_last_index_of, push_bytes,
    rfind_byte, starts_with, to_vec,
};
use crate::TreeType;
use vstd::prelude::*;
use vstd::slice::slice_subrange;

verus! {

/// The name of the file: what follows the last `/` of the path.
pub open spec fn file_name(path: Seq<u8>) -> Seq<u8> {
    path.skip(last_index_of(path, '/' as u8) + 1)
}

/// The extension of the file: what follows the last `.` of its name. A name
/// without a `.`, or with its only `.` in front, has none.
pub open spec fn extension(path: Seq<u8>) -> Option<Seq<u8>> {
    let name = file_name(path);
    let dot = last_index_of(name, '.' as u8);
    if dot <= 0 {
        None
    } else {
        Some(name.skip(dot + 1))
    }
}

/// The kind of shader that the extension names, if it names one.
pub open spec fn tree_type_of(path: Seq<u8>) -> Option<TreeType> {
    match extension(path) {
        None => None,
        Some(ext) => if ext == ascii("fsh") {
            Some(TreeType::Fragment)
        } else if ext == ascii("vsh") {
            Some(TreeType::Vertex)
        } else if ext == ascii("gsh") {
            Some(TreeType::Geometry)
        } else if ext == ascii("csh") {
            Some(TreeType::Compute)
        } else {
            None
        },
    }
}

/// Whether the walk over a workspace takes the file up: its extension is one
/// of `vsh`, `fsh`, `glsl` and `inc`.
pub open spec fn is_seed_path(path: Seq<u8>) -> bool {
    match extension(path) {
        None => false,
        Some(ext) => ext == ascii("vsh") || ext == ascii("fsh") || ext
            == ascii("glsl") || ext == ascii("inc"),
    }
}

/// The directory of the file: the path in front of its last `/`. A path
/// without a `/` has the empty directory; where the only `/` stands in
/// front, the directory is `/`.
pub open spec fn parent_dir(path: Seq<u8>) -> Seq<u8> {
    let slash = last_index_of(path, '/' as u8);
    if slash < 0 {
        Seq::empty()
    } else if slash == 0 {
        path.take(1)
    } else {
        path.take(slash)
    }
}

/// The path `rel`, taken from the directory `base`: `rel` itself where it
/// begins with `/` or `base` is empty, else `base`, a `/` unless `base` ends
/// in one, and `rel`.
pub open spec fn joined(base: Seq<u8>, rel: Seq<u8>) -> Seq<u8> {
    if rel.len() > 0 && rel[0] == '/' as u8 {
        rel
    } else if base.len() == 0 {
        rel
    } else if base.last() == '/' as u8 {
        base + rel
    } else {
        base.push('/' as u8) + rel
    }
}

/// The file that an include directive names. A target that begins with `/`
/// is taken, without that `/`, from the directory `shaders` of the
/// workspace `root`; another one from the directory of the including `file`.
pub open spec fn resolved(root: Seq<u8>, file: Seq<u8>, target: Seq<u8>) -> Seq<u8> {
    if target.len() > 0 && target[0] == '/' as u8 {
        joined(joined(root, ascii("shaders")), target.skip(1))
    } else {
        joined(parent_dir(file), target)
    }
}

/// Whether `path` is `root` or lies below it: it begins with `root`, and
/// what follows is nothing or begins with `/` (a `root` that ends in `/`
/// needs no further `/`).
pub open spec fn is_within(root: Seq<u8>, path: Seq<u8>) -> bool {
    &&& has_prefix(path, root)
    &&& (path.len() == root.len() || path[root.len() as int] == '/' as u8 || (root.len() > 0
        && root.last() == '/' as u8))
}

/// The extension of the file, see [`extension`].
pub fn extension_of(path: &[u8]) -> (ext: Option<Vec<u8>>)
    ensures
        match ext {
            Some(e) => extension(path@) == Some(e@),
            None => extension(path@) is None,
        },
{
    proof {
        lemma_last_index_of(path@, '/' as u8);
    }
    let start: usize = match rfind_byte(path, '/' as u8) {
        Some(i) => {
            assert(i < path.len());
            i + 1
        },
        None => 0,
    };
    let name = slice_subrange(path, start, path.len());
    assert(name@ =~= file_name(path@));
    match rfind_byte(name, '.' as u8) {
        None => None,
        Some(dot) => {
            proof {
                lemma_last_index_of(name@, '.' as u8);
            }
            if dot == 0 {
                None
            } else {
                let ext = slice_subrange(name, dot + 1, name.len());
                assert(ext@ =~= name@.skip(dot + 1));
                Some(to_vec(ext))
            }
        },
    }
}

impl TreeType {
    /// The kind of shader that the file at `path` holds, by its extension:
    /// `fsh`, `vsh`, `gsh` or `csh`. A file with another extension, or with
    /// none, is no top-level shader.
    pub fn of_path(path: &[u8]) -> (kind: Option<TreeType>)
        ensures
            kind == tree_type_of(path@),
    {
        match extension_of(path) {
            None => None,
            Some(ext) => {
                proof {
                    reveal_strlit("fsh");
                    reveal_strlit("vsh");
                    reveal_strlit("gsh");
                    reveal_strlit("csh");
                }
                let fsh = ascii_bytes("fsh");
                let vsh = ascii_bytes("vsh");
                let gsh = ascii_bytes("gsh");
                let csh = ascii_bytes("csh");
                if bytes_eq(ext.as_slice(), fsh) {
                    Some(TreeType::Fragment)
                } else if bytes_eq(ext.as_slice(), vsh) {
                    Some(TreeType::Vertex)
                } else if bytes_eq(ext.as_slice(), gsh) {
                    Some(TreeType::Geometry)
                } else if bytes_eq(ext.as_slice(), csh) {
                    Some(TreeType::Compute)
                } else {
                    None
                }
            },
        }
    }
}

/// Whether the walk over a workspace takes the file up, see [`is_seed_path`].
pub fn is_seed_file(path: &[u8]) -> (seed: bool)
    ensures
        seed == is_seed_path(path@),
{
    match extension_of(path) {
        None => false,
        Some(ext) => {
            proof {
                reveal_strlit("vsh");
                reveal_strlit("fsh");
                reveal_strlit("glsl");
                reveal_strlit("inc");
            }
            let vsh = ascii_bytes("vsh");
            let fsh = ascii_bytes("fsh");
            let glsl = ascii_bytes("glsl");
            let inc = ascii_bytes("inc");
            bytes_eq(ext.as_slice(), vsh) || bytes_eq(ext.as_slice(), fsh)
                || bytes_eq(ext.as_slice(), glsl) || bytes_eq(
                ext.as_slice(),
                inc,
            )
        },
    }
}

/// The directory of the file, see [`parent_dir`].
pub fn parent_of(path: &[u8]) -> (dir: Vec<u8>)
    ensures
        dir@ == parent_dir(path@),
{
    match rfind_byte(path, '/' as u8) {
        None => Vec::new(),
        Some(slash) => {
            proof {
                lemma_last_index_of(path@, '/' as u8);
            }
            let end: usize = if slash == 0 {
                1
            } else {
                slash
            };
            let dir = slice_subrange(path, 0, end);
            assert(dir@ =~= path@.take(end as int));
            to_vec(dir)
        },
    }
}

/// The path `rel`, taken from the directory `base`, see [`joined`].
pub fn join(base: &[u8], rel: &[u8]) -> (path: Vec<u8>)
    ensures
        path@ == joined(base@, rel@),
{
    if (rel.len() > 0 && rel[0] == '/' as u8) || base.len() == 0 {
        return to_vec(rel);
    }
    let mut path = to_vec(base);
    if base[base.len() - 1] != '/' as u8 {
        path.push('/' as u8);
    }
    push_bytes(&mut path, rel);
    path
}

/// The file that an include directive names, see [`resolved`].
pub fn resolve(root: &[u8], file: &[u8], target: &[u8]) -> (path: Vec<u8>)
    ensures
        path@ == resolved(root@, file@, target@),
{
    if target.len() > 0 && target[0] == '/' as u8 {
        proof {
            reveal_strlit("shaders");
        }
        let shaders = join(root, ascii_bytes("shaders"));
        let rest = slice_subrange(target, 1, target.len());
        assert(rest@ =~= target@.skip(1));
        join(shaders.as_slice(), rest)
    } else {
        let dir = parent_of(file);
        join(dir.as_slice(), target)
    }
}

/// Whether `path` is `root` or lies below it, see [`is_within`].
pub fn path_is_within(root: &[u8], path: &[u8]) -> (within: bool)
    ensures
        within == is_within(root@, path@),
{
    if !starts_with(path, root) {
        return false;
    }
    path.len() == root.len() || path[root.len()] == '/' as u8 || (root.len() > 0 && root[root.len()
        - 1] == '/' as u8)
}

} // verus!
