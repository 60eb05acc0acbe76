//! Paths in forward-slash form, compared component by component.

use vstd::prelude::*;
use crate::text::{
    chars_eq, chars_to_string, lemma_split_nonempty, split, split_chars, str_to_chars,
    string_views, views,
};

verus! {

/// A piece between slashes that names something: not empty, and not `.`.
pub open spec fn is_named(piece: Seq<char>) -> bool {
    piece.len() > 0 && piece != seq!['.']
}

/// The named ones among `pieces`, in order.
pub open spec fn named(pieces: Seq<Seq<char>>) -> Seq<Seq<char>>
    decreases pieces.len(),
{
    if pieces.len() == 0 {
        Seq::<Seq<char>>::empty()
    } else {
        let before = named(pieces.drop_last());
        if is_named(pieces.last()) {
            before.push(pieces.last())
        } else {
            before
        }
    }
}

/// Whether `path` starts at the root.
pub open spec fn has_root(path: Seq<char>) -> bool {
    path.len() > 0 && path[0] == '/'
}

/// The components of a path. Repeated and trailing slashes count for nothing,
/// and neither does a `.` after the first component. A path from the root
/// starts with the component `/`; another one that starts with `.` keeps it.
pub open spec fn components(path: Seq<char>) -> Seq<Seq<char>> {
    let pieces = split(path, '/');
    if has_root(path) {
        seq![seq!['/']] + named(pieces)
    } else if pieces[0] == seq!['.'] {
        seq![seq!['.']] + named(pieces)
    } else {
        named(pieces)
    }
}

/// Whether `path` falls under `base`: the components of `base` are the first
/// components of `path`. Only whole components match: `ab/c` is not under `a`.
pub open spec fn path_starts_with(path: Seq<char>, base: Seq<char>) -> bool {
    components(base).is_prefix_of(components(path))
}

/// Whether `path` falls under one of `bases`.
pub open spec fn under_any(path: Seq<char>, bases: Seq<Seq<char>>) -> bool {
    exists|i: int| 0 <= i < bases.len() && path_starts_with(path, #[trigger] bases[i])
}

/// `path` seen from `base`: `path` itself where it starts at the root or
/// `base` is empty, else `base`, a slash unless `base` ends with one, and
/// `path`.
pub open spec fn join(base: Seq<char>, path: Seq<char>) -> Seq<char> {
    if has_root(path) || base.len() == 0 {
        path
    } else if base.last() == '/' {
        base + path
    } else {
        base.push('/') + path
    }
}

/// The components of `path`.
pub fn path_components(path: &str) -> (parts: Vec<Vec<char>>)
    ensures
        views(parts@) == components(path@),
{
    let chars = str_to_chars(path);
    let pieces = split_chars(&chars, '/');
    proof {
        lemma_split_nonempty(path@, '/');
    }
    let mut parts: Vec<Vec<char>> = Vec::new();
    let ghost lead: Seq<Seq<char>> = Seq::empty();
    if chars.len() > 0 && chars[0] == '/' {
        let root: Vec<char> = vec!['/'];
        assert(root@ == seq!['/']);
        parts.push(root);
        proof {
            lead = seq![seq!['/']];
        }
    } else if pieces[0].len() == 1 && pieces[0][0] == '.' {
        let here: Vec<char> = vec!['.'];
        assert(here@ == seq!['.']);
        parts.push(here);
        proof {
            lead = seq![seq!['.']];
            assert(pieces[0]@ == seq!['.']);
        }
    }
    assert(views(parts@) == lead);
    assert(views(pieces@)[0] == pieces[0]@);
    let mut i: usize = 0;
    assert(views(pieces@).take(0) == Seq::<Seq<char>>::empty());
    while i < pieces.len()
        invariant
            i <= pieces.len(),
            views(parts@) == lead + named(views(pieces@).take(i as int)),
        decreases pieces.len() - i,
    {
        let piece = &pieces[i];
        proof {
            let upto = views(pieces@).take(i as int + 1);
            assert(upto.drop_last() == views(pieces@).take(i as int));
            assert(upto.last() == piece@);
        }
        if piece.len() > 0 && !(piece.len() == 1 && piece[0] == '.') {
            let ghost before = views(parts@);
            parts.push(piece.clone());
            assert(views(parts@) == before.push(piece@));
            assert(is_named(piece@));
        } else {
            assert(!is_named(piece@)) by {
                if piece.len() == 1 {
                    assert(piece@ == seq!['.']);
                }
            }
        }
        i += 1;
    }
    assert(views(pieces@).take(i as int) == views(pieces@));
    parts
}

/// Whether `path` falls under `base`.
pub fn starts_with(path: &str, base: &str) -> (r: bool)
    ensures
        r == path_starts_with(path@, base@),
{
    let have = path_components(path);
    let want = path_components(base);
    if want.len() > have.len() {
        return false;
    }
    let mut i: usize = 0;
    while i < want.len()
        invariant
            i <= want.len() <= have.len(),
            views(have@) == components(path@),
            views(want@) == components(base@),
            forall|j: int| 0 <= j < i ==> views(want@)[j] == views(have@)[j],
        decreases want.len() - i,
    {
        if !chars_eq(&want[i], &have[i]) {
            proof {
                let w = views(want@);
                let h = views(have@);
                assert(w[i as int] == want[i as int]@ && h[i as int] == have[i as int]@);
                assert(h.subrange(0, w.len() as int)[i as int] == h[i as int]);
                assert(!w.is_prefix_of(h));
            }
            return false;
        }
        i += 1;
    }
    assert(views(want@) == views(have@).subrange(0, want.len() as int));
    true
}

/// Whether `path` falls under one of `bases`.
pub fn starts_with_any(path: &str, bases: &Vec<String>) -> (r: bool)
    ensures
        r == under_any(path@, string_views(bases@)),
{
    let mut i: usize = 0;
    while i < bases.len()
        invariant
            i <= bases.len(),
            forall|j: int| 0 <= j < i ==> !path_starts_with(path@, #[trigger] string_views(bases@)[j]),
        decreases bases.len() - i,
    {
        if starts_with(path, bases[i].as_str()) {
            assert(string_views(bases@)[i as int] == bases[i as int]@);
            return true;
        }
        assert(string_views(bases@)[i as int] == bases[i as int]@);
        i += 1;
    }
    false
}

/// `path` seen from `base`.
pub fn join_paths(base: &str, path: &str) -> (joined: String)
    ensures
        joined@ == join(base@, path@),
{
    let b = str_to_chars(base);
    let p = str_to_chars(path);
    if (p.len() > 0 && p[0] == '/') || b.len() == 0 {
        return path.to_owned();
    }
    let mut out = b;
    if out[out.len() - 1] != '/' {
        out.push('/');
    }
    let ghost head = out@;
    let mut i: usize = 0;
    while i < p.len()
        invariant
            i <= p.len(),
            out@ == head + p@.take(i as int),
        decreases p.len() - i,
    {
        out.push(p[i]);
        assert(p@.take(i as int + 1) == p@.take(i as int).push(p@[i as int]));
        i += 1;
    }
    assert(p@.take(i as int) == p@);
    chars_to_string(&out)
}

} // verus!
