//! Module discovery: map `.py` file paths to dotted module paths.
//!
//! Walking the file system is the caller's part; paths are POSIX paths
//! held as strings, compared component by component as `std::path` does.
use vstd::prelude::*;
use crate::text::{
    chars_eq, chars_of, ends_with, has_suffix, join_seq, seq_views, slice_chars, split_chars,
    split_seq, string_of,
};

verus! {

/// A discovered Python file and its dotted module path.
#[derive(Debug)]
pub struct DiscoveredModule {
    pub file_path: String,
    pub dotted_path: String,
}

/// The components of the pieces `pieces[..n]` of a path, each as its text:
/// empty pieces dropped, and `.` kept only as the very first piece of a
/// relative path.
pub open spec fn comps_of_pieces(pieces: Seq<Seq<char>>, n: int, relative: bool) -> Seq<Seq<char>>
    decreases n,
{
    if n <= 0 || n > pieces.len() {
        Seq::empty()
    } else {
        let acc = comps_of_pieces(pieces, n - 1, relative);
        let p = pieces[n - 1];
        if p.len() == 0 || (p == seq!['.'] && !(relative && n - 1 == 0)) {
            acc
        } else {
            acc.push(p)
        }
    }
}

/// The components of a POSIX path as `Path::components` yields them, each
/// as its text: `/` for the root of an absolute path, then the names
/// between separators.
pub open spec fn components(path: Seq<char>) -> Seq<Seq<char>> {
    let pieces = split_seq(path, '/');
    let absolute = path.len() > 0 && path[0] == '/';
    let body = comps_of_pieces(pieces, pieces.len() as int, !absolute);
    if absolute {
        seq![seq!['/']] + body
    } else {
        body
    }
}

/// The components of `path` after those of `base`, when `base`'s components
/// are a prefix of `path`'s (as `Path::strip_prefix` decides).
pub open spec fn strip_prefix_comps(path: Seq<char>, base: Seq<char>) -> Option<Seq<Seq<char>>> {
    let pc = components(path);
    let bc = components(base);
    if bc.len() <= pc.len() && pc.take(bc.len() as int) == bc {
        Some(pc.skip(bc.len() as int))
    } else {
        None
    }
}

/// The components of a path.
pub fn components_of(path: &[char]) -> (r: Vec<Vec<char>>)
    ensures
        seq_views(r@) == components(path@),
{
    let pieces = split_chars(path, '/');
    let ghost pv = seq_views(pieces@);
    let absolute = path.len() > 0 && path[0] == '/';
    let mut out: Vec<Vec<char>> = Vec::new();
    if absolute {
        out.push(vec!['/']);
    }
    let ghost head: Seq<Seq<char>> = if absolute {
        seq![seq!['/']]
    } else {
        Seq::empty()
    };
    assert(seq_views(out@) =~= head) by {
        if absolute {
            assert(seq_views(out@)[0] =~= seq!['/']);
        }
    }
    let mut i: usize = 0;
    while i < pieces.len()
        invariant
            i <= pieces.len(),
            pv == seq_views(pieces@),
            seq_views(out@) == head + comps_of_pieces(pv, i as int, !absolute),
        decreases pieces.len() - i,
    {
        let p = &pieces[i];
        assert(pv[i as int] == p@);
        let ghost acc = head + comps_of_pieces(pv, i as int, !absolute);
        let is_dot = p.len() == 1 && p[0] == '.';
        assert(is_dot == (p@ == seq!['.'])) by {
            if p@ == seq!['.'] {
                assert(p@.len() == 1 && p@[0] == '.');
            }
            if is_dot {
                assert(p@ =~= seq!['.']);
            }
        }
        if p.len() == 0 || (is_dot && !(!absolute && i == 0)) {
            assert(head + comps_of_pieces(pv, i + 1, !absolute) == acc);
        } else {
            let ghost before = seq_views(out@);
            out.push(slice_chars(p.as_slice(), 0, p.len()));
            assert(p@.subrange(0, p@.len() as int) =~= p@);
            assert(head + comps_of_pieces(pv, i + 1, !absolute) =~= acc.push(p@));
            assert(seq_views(out@) =~= acc.push(p@));
        }
        i = i + 1;
    }
    out
}

/// The components of `path` after those of `base`, when `base` is a
/// component-wise prefix of `path`.
pub fn strip_prefix_components(path: &[char], base: &[char]) -> (r: Option<Vec<Vec<char>>>)
    ensures
        match r {
            Some(v) => strip_prefix_comps(path@, base@) == Some(seq_views(v@)),
            None => strip_prefix_comps(path@, base@) is None,
        },
{
    let pt = components_of(path);
    let bt = components_of(base);
    let ghost pc = components(path@);
    let ghost bc = components(base@);
    if bt.len() > pt.len() {
        return None;
    }
    let mut k: usize = 0;
    while k < bt.len()
        invariant
            k <= bt.len() <= pt.len(),
            pc == components(path@),
            bc == components(base@),
            seq_views(pt@) == pc,
            seq_views(bt@) == bc,
            forall|j: int| 0 <= j < k ==> pc[j] == bc[j],
        decreases bt.len() - k,
    {
        assert(pc[k as int] == pt@[k as int]@);
        assert(bc[k as int] == bt@[k as int]@);
        if !chars_eq(pt[k].as_slice(), bt[k].as_slice()) {
            assert(pc.take(bc.len() as int)[k as int] != bc[k as int]);
            assert(pc.take(bc.len() as int) != bc);
            return None;
        }
        k = k + 1;
    }
    assert(pc.take(bc.len() as int) =~= bc);
    let mut out: Vec<Vec<char>> = Vec::new();
    let mut j: usize = bt.len();
    while j < pt.len()
        invariant
            bt.len() <= j <= pt.len(),
            pc == components(path@),
            bc == components(base@),
            pc.take(bc.len() as int) == bc,
            seq_views(pt@) == pc,
            bc.len() == bt.len(),
            seq_views(out@) == pc.subrange(bc.len() as int, j as int),
        decreases pt.len() - j,
    {
        let ghost before = seq_views(out@);
        assert(pc[j as int] == pt@[j as int]@);
        out.push(slice_chars(pt[j].as_slice(), 0, pt[j].len()));
        assert(pt@[j as int]@.subrange(0, pt@[j as int]@.len() as int) =~= pt@[j as int]@);
        assert(seq_views(out@) =~= before.push(pc[j as int]));
        assert(pc.subrange(bc.len() as int, j + 1) =~= pc.subrange(bc.len() as int, j as int).push(pc[j as int]));
        j = j + 1;
    }
    assert(pc.subrange(bc.len() as int, pc.len() as int) =~= pc.skip(bc.len() as int));
    Some(out)
}

/// The dotted module path of `file_path` under `src_root`: the components
/// after the root, with `.py` dropped from the last and a trailing
/// `__init__` dropped (the package is the directory); `None` when the file is
/// not under the root, is not a `.py` file, or is the root's own `__init__.py`.
pub open spec fn spec_path_to_dotted(file_path: Seq<char>, src_root: Seq<char>) -> Option<Seq<char>> {
    match strip_prefix_comps(file_path, src_root) {
        None => None,
        Some(cs) => if cs.len() == 0 || !has_suffix(cs.last(), seq!['.', 'p', 'y']) {
            None
        } else {
            let stem = cs.last().take(cs.last().len() - 3);
            let named = cs.drop_last().push(stem);
            if stem == seq!['_', '_', 'i', 'n', 'i', 't', '_', '_'] {
                if cs.len() == 1 {
                    None
                } else {
                    Some(join_seq(cs.drop_last(), '.'))
                }
            } else {
                Some(join_seq(named, '.'))
            }
        },
    }
}

/// Convert a file path to a dotted Python module path.
///
/// `src/my_pkg/foo/bar.py` under `src` gives `my_pkg.foo.bar`;
/// `src/my_pkg/foo/__init__.py` gives `my_pkg.foo`.
pub fn path_to_dotted(file_path: &str, src_root: &str) -> (r: Option<String>)
    ensures
        match r {
            Some(s) => spec_path_to_dotted(file_path@, src_root@) == Some(s@),
            None => spec_path_to_dotted(file_path@, src_root@) is None,
        },
{
    let fp = chars_of(file_path);
    let sr = chars_of(src_root);
    let mut cs = match strip_prefix_components(fp.as_slice(), sr.as_slice()) {
        None => {
            return None;
        },
        Some(cs) => cs,
    };
    let ghost csv = seq_views(cs@);
    if cs.len() == 0 {
        return None;
    }
    let py = vec!['.', 'p', 'y'];
    assert(py@ =~= seq!['.', 'p', 'y']);
    let last = cs.pop().unwrap();
    assert(csv.last() == last@);
    assert(seq_views(cs@) =~= csv.drop_last());
    if !ends_with(last.as_slice(), py.as_slice()) {
        return None;
    }
    let stem = slice_chars(last.as_slice(), 0, last.len() - 3);
    assert(stem@ =~= last@.take(last@.len() - 3));
    let init = vec!['_', '_', 'i', 'n', 'i', 't', '_', '_'];
    assert(init@ =~= seq!['_', '_', 'i', 'n', 'i', 't', '_', '_']);
    if chars_eq(stem.as_slice(), init.as_slice()) {
        if cs.len() == 0 {
            return None;
        }
        let joined = crate::text::join_range(&cs, 0, cs.len(), '.');
        assert(seq_views(cs@).subrange(0, cs.len() as int) =~= seq_views(cs@));
        return Some(string_of(joined.as_slice()));
    }
    let ghost before = seq_views(cs@);
    cs.push(stem);
    assert(seq_views(cs@) =~= before.push(stem@));
    let joined = crate::text::join_range(&cs, 0, cs.len(), '.');
    assert(seq_views(cs@).subrange(0, cs.len() as int) =~= seq_views(cs@));
    Some(string_of(joined.as_slice()))
}

/// The name of the file that makes a directory a package.
pub open spec fn init_file_name() -> Seq<char> {
    seq!['_', '_', 'i', 'n', 'i', 't', '_', '_', '.', 'p', 'y']
}

/// Whether the file name of a path (its last component) is `__init__.py`.
pub open spec fn is_init_file(path: Seq<char>) -> bool {
    let cs = components(path);
    cs.len() > 0 && cs.last() == init_file_name()
}

/// Whether `file_path` names a package's `__init__.py`.
pub fn is_package_file(file_path: &str) -> (r: bool)
    ensures
        r == is_init_file(file_path@),
{
    let fp = chars_of(file_path);
    let cs = components_of(fp.as_slice());
    if cs.len() == 0 {
        return false;
    }
    let name = vec!['_', '_', 'i', 'n', 'i', 't', '_', '_', '.', 'p', 'y'];
    assert(name@ =~= init_file_name());
    let last = cs.len() - 1;
    assert(seq_views(cs@).last() == cs@[last as int]@);
    chars_eq(cs[last].as_slice(), name.as_slice())
}

} // verus!
