//! Unix paths as text: their components, their last name, and how one stands to another.
use vstd::prelude::*;
use vstd::string::*;

use crate::text;

verus! {

broadcast use vstd::string::group_string_axioms;

/// The pieces of a path that name something: neither empty nor `.`.
pub open spec fn named_pieces(pieces: Seq<Seq<char>>) -> Seq<Seq<char>>
    decreases pieces.len(),
{
    if pieces.len() == 0 {
        seq![]
    } else if pieces.last().len() == 0 || pieces.last() == "."@ {
        named_pieces(pieces.drop_last())
    } else {
        named_pieces(pieces.drop_last()).push(pieces.last())
    }
}

/// The components of a path: `/` where it is absolute, `.` where it starts with that, then the
/// names and `..` in their order.
pub open spec fn component_list(path: Seq<char>) -> Seq<Seq<char>> {
    let pieces = text::piece_list(path, '/');
    let start = if path.len() > 0 && path[0] == '/' {
        seq!["/"@]
    } else if pieces[0] == "."@ {
        seq!["."@]
    } else {
        seq![]
    };
    start + named_pieces(pieces)
}

/// Whether a component is a name, and not `/`, `.` or `..`.
pub open spec fn is_normal(component: Seq<char>) -> bool {
    component != "/"@ && component != "."@ && component != ".."@
}

/// Whether a path starts at the root.
pub open spec fn absolute(path: Seq<char>) -> bool {
    path.len() > 0 && path[0] == '/'
}

/// `path` as it is seen from `base`.
pub open spec fn joined_path(base: Seq<char>, path: Seq<char>) -> Seq<char> {
    if absolute(path) {
        path
    } else if base.len() > 0 && base.last() != '/' {
        base + "/"@ + path
    } else {
        base + path
    }
}

/// Whether the components of `base` are the first components of `path`.
pub open spec fn path_within(path: Seq<char>, base: Seq<char>) -> bool {
    component_list(base).is_prefix_of(component_list(path))
}

/// The last component of a path, where that is a name.
pub open spec fn last_name(path: Seq<char>) -> Option<Seq<char>> {
    let parts = component_list(path);
    if parts.len() > 0 && is_normal(parts.last()) {
        Some(parts.last())
    } else {
        None
    }
}

/// What stands behind the last dot of a path's name, where something stands before it.
pub open spec fn name_extension(path: Seq<char>) -> Option<Seq<char>> {
    match last_name(path) {
        None => None,
        Some(name) => match text::last_char(name, '.') {
            Some(k) => if k > 0 {
                Some(name.skip(k + 1))
            } else {
                None
            },
            None => None,
        },
    }
}

/// A path split at `/` has a first piece.
pub proof fn lemma_pieces_nonempty(path: Seq<char>, c: char)
    ensures
        text::piece_list(path, c).len() > 0,
{
}

/// The components of `path`.
pub fn components(path: &str) -> (r: Vec<String>)
    ensures
        text::views(r@) == component_list(path@),
{
    let pieces = text::split(path, '/');
    proof {
        lemma_pieces_nonempty(path@, '/');
    }
    let mut out: Vec<String> = Vec::new();
    assert(text::views(out@) =~= seq![]);
    assert(text::views(pieces@)[0] == pieces@[0]@);
    if is_absolute(path) {
        text::push_text(&mut out, "/".to_owned());
    } else if text::same(pieces[0].as_str(), ".") {
        text::push_text(&mut out, ".".to_owned());
    }
    let ghost start = text::views(out@);
    assert(start + named_pieces(text::views(pieces@).take(0)) =~= start);
    let mut i: usize = 0;
    while i < pieces.len()
        invariant
            i <= pieces@.len(),
            text::views(out@) == start + named_pieces(text::views(pieces@).take(i as int)),
        decreases pieces@.len() - i,
    {
        let piece = &pieces[i];
        proof {
            let t = text::views(pieces@).take(i as int + 1);
            assert(t.drop_last() =~= text::views(pieces@).take(i as int));
            assert(t.last() == piece@);
        }
        if !(piece.as_str().is_empty() || text::same(piece.as_str(), ".")) {
            let ghost prev = named_pieces(text::views(pieces@).take(i as int));
            text::push_text(&mut out, piece.clone());
            assert((start + prev).push(piece@) =~= start + prev.push(piece@));
        }
        i += 1;
    }
    assert(text::views(pieces@).take(i as int) =~= text::views(pieces@));
    assert(text::views(out@) =~= component_list(path@));
    out
}

/// Whether `path` starts at the root.
pub fn is_absolute(path: &str) -> (r: bool)
    ensures
        r == absolute(path@),
{
    path.unicode_len() > 0 && path.get_char(0) == '/'
}

/// `path` as it is seen from `base`.
pub fn join(base: &str, path: &str) -> (r: String)
    ensures
        r@ == joined_path(base@, path@),
{
    if is_absolute(path) {
        return path.to_owned();
    }
    let n = base.unicode_len();
    if n > 0 && base.get_char(n - 1) != '/' {
        text::concat3(base, "/", path)
    } else {
        text::concat(base, path)
    }
}

/// Whether the components of `base` are the first components of `path`.
pub fn is_within(path: &str, base: &str) -> (r: bool)
    ensures
        r == path_within(path@, base@),
{
    let p = components(path);
    let b = components(base);
    if b.len() > p.len() {
        return false;
    }
    let ghost pv = component_list(path@);
    let ghost bv = component_list(base@);
    let mut i: usize = 0;
    while i < b.len()
        invariant
            i <= b@.len() <= p@.len(),
            text::views(p@) == pv,
            text::views(b@) == bv,
            pv == component_list(path@),
            bv == component_list(base@),
            forall|k: int| 0 <= k < i ==> pv[k] == #[trigger] bv[k],
        decreases b@.len() - i,
    {
        assert(pv[i as int] == p@[i as int]@ && bv[i as int] == b@[i as int]@);
        if !(p[i] == b[i]) {
            assert(pv.subrange(0, bv.len() as int)[i as int] != bv[i as int]);
            return false;
        }
        i += 1;
    }
    assert(pv.subrange(0, bv.len() as int) =~= bv);
    true
}

/// The last component of `path`, where that is a name.
pub fn file_name(path: &str) -> (r: Option<String>)
    ensures
        match r {
            Some(n) => last_name(path@) == Some(n@),
            None => last_name(path@) is None,
        },
{
    let parts = components(path);
    if parts.len() == 0 {
        return None;
    }
    let last = &parts[parts.len() - 1];
    assert(text::views(parts@).last() == last@);
    if text::same(last.as_str(), "/") || text::same(last.as_str(), ".") || text::same(
        last.as_str(),
        "..",
    ) {
        None
    } else {
        Some(last.clone())
    }
}

/// What stands behind the last dot of the name of `path`.
pub fn extension(path: &str) -> (r: Option<String>)
    ensures
        match r {
            Some(e) => name_extension(path@) == Some(e@),
            None => name_extension(path@) is None,
        },
{
    match file_name(path) {
        None => None,
        Some(name) => match text::rfind_char(name.as_str(), '.') {
            None => None,
            Some(k) => {
                if k == 0 {
                    return None;
                }
                let n = name.as_str().unicode_len();
                let e = name.as_str().substring_char(k + 1, n);
                assert(e@ =~= name@.skip(k + 1));
                Some(e.to_owned())
            },
        },
    }
}

/// Whether two paths have the same components.
pub fn is_same(a: &str, b: &str) -> (r: bool)
    ensures
        r == (component_list(a@) == component_list(b@)),
{
    let x = component_list_len(a);
    let y = component_list_len(b);
    proof {
        let p = component_list(a@);
        let q = component_list(b@);
        if p.len() == q.len() {
            assert(p.subrange(0, q.len() as int) =~= p);
        }
    }
    x == y && is_within(a, b)
}

fn component_list_len(path: &str) -> (r: usize)
    ensures
        r == component_list(path@).len(),
{
    let parts = components(path);
    assert(parts@.len() == text::views(parts@).len());
    parts.len()
}

/// An absolute path is made of the root and the names that were put together in it, in their
/// order.
pub proof fn law_components(names: Seq<Seq<char>>)
    requires
        names.len() > 0,
        forall|k: int|
            0 <= k < names.len() ==> (#[trigger] names[k]).len() > 0 && !names[k].contains('/')
                && names[k] != "."@,
    ensures
        component_list(seq!['/'] + text::joined(names, seq!['/'])) == seq!["/"@] + names,
        last_name(seq!['/'] + text::joined(names, seq!['/'])) == if is_normal(names.last()) {
            Some(names.last())
        } else {
            None
        },
{
    let empty = Seq::<char>::empty();
    let path = seq!['/'] + text::joined(names, seq!['/']);
    let pieces = seq![empty] + names;
    text::lemma_joined_concat(seq![empty], names, seq!['/']);
    assert(text::joined(seq![empty], seq!['/']) == empty);
    assert(empty + seq!['/'] + text::joined(names, seq!['/']) =~= path);
    assert forall|k: int| 0 <= k < pieces.len() implies !(#[trigger] pieces[k]).contains('/') by {
        if k > 0 {
            assert(pieces[k] == names[k - 1]);
        }
    }
    text::law_join_and_split(pieces, '/');
    lemma_named(names);
    lemma_named_behind(names);
}

/// Pieces that all name something are kept.
pub proof fn lemma_named(names: Seq<Seq<char>>)
    requires
        forall|k: int|
            0 <= k < names.len() ==> (#[trigger] names[k]).len() > 0 && names[k] != "."@,
    ensures
        named_pieces(names) == names,
    decreases names.len(),
{
    if names.len() > 0 {
        let init = names.drop_last();
        assert forall|k: int| 0 <= k < init.len() implies (#[trigger] init[k]).len() > 0 && init[k]
            != "."@ by {
            assert(init[k] == names[k]);
        }
        assert(names.last() == names[names.len() - 1]);
        lemma_named(init);
        assert(init.push(names.last()) =~= names);
    } else {
        assert(names =~= seq![]);
    }
}

proof fn lemma_named_behind(names: Seq<Seq<char>>)
    requires
        forall|k: int|
            0 <= k < names.len() ==> (#[trigger] names[k]).len() > 0 && names[k] != "."@,
    ensures
        named_pieces(seq![Seq::<char>::empty()] + names) == names,
    decreases names.len(),
{
    let all = seq![Seq::<char>::empty()] + names;
    if names.len() == 0 {
        reveal_with_fuel(named_pieces, 2);
        assert(all.drop_last() =~= seq![]);
        assert(named_pieces(all) =~= names);
    } else {
        let init = names.drop_last();
        assert forall|k: int| 0 <= k < init.len() implies (#[trigger] init[k]).len() > 0 && init[k]
            != "."@ by {
            assert(init[k] == names[k]);
        }
        assert(names.last() == names[names.len() - 1]);
        lemma_named_behind(init);
        assert(all.drop_last() =~= seq![Seq::<char>::empty()] + init);
        assert(all.last() == names.last());
        assert(init.push(names.last()) =~= names);
    }
}

/// What is joined to a directory lies in it; an absolute path stays as it is.
pub proof fn law_joined_path(base: Seq<char>, path: Seq<char>)
    requires
        path.len() > 0,
    ensures
        path[0] == '/' ==> joined_path(base, path) == path,
        path[0] != '/' ==> base.is_prefix_of(joined_path(base, path)) && path.is_suffix_of(
            joined_path(base, path),
        ),
{
    let r = joined_path(base, path);
    if path[0] != '/' {
        assert(r.subrange(0, base.len() as int) =~= base);
        assert(r.subrange(r.len() - path.len(), r.len() as int) =~= path);
    }
}

/// A path lies within another where it goes on from it, and within itself; it does not where one
/// of the names of the other is missing.
pub proof fn law_within(base: Seq<Seq<char>>, more: Seq<Seq<char>>, k: int)
    requires
        base.len() > 0,
        forall|i: int|
            0 <= i < base.len() ==> (#[trigger] base[i]).len() > 0 && !base[i].contains('/')
                && base[i] != "."@,
        forall|i: int|
            0 <= i < more.len() ==> (#[trigger] more[i]).len() > 0 && !more[i].contains('/')
                && more[i] != "."@,
    ensures
        path_within(
            seq!['/'] + text::joined(base + more, seq!['/']),
            seq!['/'] + text::joined(base, seq!['/']),
        ),
        more.len() > 0 && 0 <= k < base.len() && k < more.len() && more[k] != base[k]
            ==> !path_within(
            seq!['/'] + text::joined(more, seq!['/']),
            seq!['/'] + text::joined(base, seq!['/']),
        ),
        more.len() > 0 && more.len() < base.len() ==> !path_within(
            seq!['/'] + text::joined(more, seq!['/']),
            seq!['/'] + text::joined(base, seq!['/']),
        ),
{
    let all = base + more;
    assert forall|i: int| 0 <= i < all.len() implies (#[trigger] all[i]).len() > 0
        && !all[i].contains('/') && all[i] != "."@ by {
        if i < base.len() {
            assert(all[i] == base[i]);
        } else {
            assert(all[i] == more[i - base.len()]);
        }
    }
    law_components(base);
    law_components(all);
    let b = seq!["/"@] + base;
    assert((seq!["/"@] + all).take(b.len() as int) =~= b);
    if more.len() > 0 {
        law_components(more);
        let m = seq!["/"@] + more;
        if 0 <= k < base.len() && k < more.len() && more[k] != base[k] && b.is_prefix_of(m) {
            assert(b[k + 1] == m[k + 1]);
        }
    }
}

/// The extension of a file is what stands behind the last dot of its name; a name that only begins
/// with a dot has none.
pub proof fn law_extension(dirs: Seq<Seq<char>>, stem: Seq<char>, extension: Seq<char>)
    requires
        stem.len() > 0,
        !stem.contains('/'),
        !extension.contains('/'),
        !extension.contains('.'),
        extension.len() > 0,
        forall|i: int|
            0 <= i < dirs.len() ==> (#[trigger] dirs[i]).len() > 0 && !dirs[i].contains('/')
                && dirs[i] != "."@,
    ensures
        name_extension(
            seq!['/'] + text::joined(dirs.push(stem + seq!['.'] + extension), seq!['/']),
        ) == Some(extension),
        name_extension(seq!['/'] + text::joined(dirs.push(seq!['.'] + extension), seq!['/'])) is None,
{
    lemma_extension(dirs, stem, extension);
    let none = Seq::<char>::empty();
    lemma_file(dirs, none, extension);
    let name = seq!['.'] + extension;
    assert(none + seq!['.'] + extension =~= name);
    text::law_before(extension, '.', none);
}

proof fn lemma_file(dirs: Seq<Seq<char>>, stem: Seq<char>, extension: Seq<char>)
    requires
        !stem.contains('/'),
        !extension.contains('/'),
        extension.len() > 0,
        !extension.contains('.'),
        forall|i: int|
            0 <= i < dirs.len() ==> (#[trigger] dirs[i]).len() > 0 && !dirs[i].contains('/')
                && dirs[i] != "."@,
    ensures
        last_name(seq!['/'] + text::joined(dirs.push(stem + seq!['.'] + extension), seq!['/']))
            == Some(stem + seq!['.'] + extension),
{
    let name = stem + seq!['.'] + extension;
    let names = dirs.push(name);
    reveal_strlit(".");
    reveal_strlit("..");
    reveal_strlit("/");
    assert(name.last() == extension.last());
    assert(extension.contains(extension[extension.len() - 1]));
    assert(name[stem.len() as int] == '.');
    assert("."@.last() == '.' && ".."@.last() == '.' && "/"@.last() == '/');
    if name.contains('/') {
        let k = name.index_of('/');
        if k < stem.len() {
            assert(stem[k] == '/');
        } else if k > stem.len() {
            assert(extension[k - stem.len() - 1] == '/');
        }
    }
    assert forall|i: int| 0 <= i < names.len() implies (#[trigger] names[i]).len() > 0
        && !names[i].contains('/') && names[i] != "."@ by {
        if i < dirs.len() {
            assert(names[i] == dirs[i]);
        }
    }
    law_components(names);
}

proof fn lemma_extension(dirs: Seq<Seq<char>>, stem: Seq<char>, extension: Seq<char>)
    requires
        stem.len() > 0,
        !stem.contains('/'),
        !extension.contains('/'),
        !extension.contains('.'),
        extension.len() > 0,
        forall|i: int|
            0 <= i < dirs.len() ==> (#[trigger] dirs[i]).len() > 0 && !dirs[i].contains('/')
                && dirs[i] != "."@,
    ensures
        name_extension(
            seq!['/'] + text::joined(dirs.push(stem + seq!['.'] + extension), seq!['/']),
        ) == Some(extension),
{
    lemma_file(dirs, stem, extension);
    let name = stem + seq!['.'] + extension;
    text::law_before(extension, '.', stem);
    assert(name.skip(stem.len() as int + 1) =~= extension);
}

} // verus!
