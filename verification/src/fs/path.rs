//! Path names as byte strings: splitting into components and normalising.

use vstd::prelude::*;

verus! {

/// The separator between the components of a path.
pub const SLASH: u8 = 0x2F;

/// The dot of `.` and `..`, and of 8.3 names.
pub const DOT: u8 = 0x2E;

/// The pieces of `s` between the separators, empty ones included. There is one piece more than
/// there are separators.
pub open spec fn pieces(s: Seq<u8>, sep: u8) -> Seq<Seq<u8>>
    decreases s.len(),
{
    if s.len() == 0 {
        seq![Seq::<u8>::empty()]
    } else {
        let before = pieces(s.drop_last(), sep);
        if s.last() == sep {
            before.push(Seq::<u8>::empty())
        } else {
            before.drop_last().push(before.last().push(s.last()))
        }
    }
}

/// The non-empty members of `ps`, in their order.
pub open spec fn non_empty(ps: Seq<Seq<u8>>) -> Seq<Seq<u8>>
    decreases ps.len(),
{
    if ps.len() == 0 {
        Seq::empty()
    } else {
        let before = non_empty(ps.drop_last());
        if ps.last().len() == 0 {
            before
        } else {
            before.push(ps.last())
        }
    }
}

/// The components of a path: what stands between slashes, leading, trailing and repeated slashes
/// ignored.
pub open spec fn components(path: Seq<u8>) -> Seq<Seq<u8>> {
    non_empty(pieces(path, SLASH))
}

/// The byte strings that a vector of vectors holds.
pub open spec fn views(v: Seq<Vec<u8>>) -> Seq<Seq<u8>> {
    Seq::new(v.len(), |i: int| v[i]@)
}

/// There is always at least one piece.
pub proof fn lemma_pieces_nonempty(s: Seq<u8>, sep: u8)
    ensures
        pieces(s, sep).len() >= 1,
    decreases s.len(),
{
    if s.len() > 0 {
        lemma_pieces_nonempty(s.drop_last(), sep);
    }
}

/// No piece holds the separator.
pub proof fn lemma_pieces_clean(s: Seq<u8>, sep: u8)
    ensures
        forall|i: int, j: int|
            0 <= i < pieces(s, sep).len() && 0 <= j < pieces(s, sep)[i].len() ==> #[trigger] pieces(
                s,
                sep,
            )[i][j] != sep,
    decreases s.len(),
{
    if s.len() > 0 {
        lemma_pieces_clean(s.drop_last(), sep);
        lemma_pieces_nonempty(s.drop_last(), sep);
        let before = pieces(s.drop_last(), sep);
        assert forall|i: int, j: int|
            0 <= i < pieces(s, sep).len() && 0 <= j < pieces(s, sep)[i].len() implies #[trigger] pieces(
            s,
            sep,
        )[i][j] != sep by {
            if i < before.len() && j < before[i].len() {
                assert(before[i][j] != sep);
            }
        }
    }
}

/// Splits `s` at every `sep`.
pub fn split(s: &[u8], sep: u8) -> (r: Vec<Vec<u8>>)
    ensures
        views(r@) == pieces(s@, sep),
{
    let mut done: Vec<Vec<u8>> = Vec::new();
    let mut current: Vec<u8> = Vec::new();
    let mut i: usize = 0;
    assert(s@.take(0) =~= Seq::<u8>::empty());
    assert(views(done@).push(current@) =~= pieces(s@.take(0), sep));
    while i < s.len()
        invariant
            i <= s@.len(),
            views(done@).push(current@) == pieces(s@.take(i as int), sep),
        decreases s@.len() - i,
    {
        let b: u8 = s[i];
        let ghost prefix = s@.take(i + 1);
        assert(prefix.drop_last() =~= s@.take(i as int));
        let ghost before = pieces(s@.take(i as int), sep);
        if b == sep {
            let ghost old_done = views(done@);
            let ghost cur = current@;
            let mut fresh: Vec<u8> = Vec::new();
            core::mem::swap(&mut fresh, &mut current);
            done.push(fresh);
            assert(views(done@) =~= old_done.push(cur));
        } else {
            current.push(b);
            assert(before.drop_last() =~= views(done@));
        }
        i += 1;
    }
    assert(s@.take(i as int) =~= s@);
    let ghost all = views(done@).push(current@);
    done.push(current);
    assert(views(done@) =~= all);
    done
}

/// The components of `path`.
pub fn path_components(path: &[u8]) -> (r: Vec<Vec<u8>>)
    ensures
        views(r@) == components(path@),
{
    let parts = split(path, SLASH);
    let ghost ps = views(parts@);
    let mut out: Vec<Vec<u8>> = Vec::new();
    let mut i: usize = 0;
    assert(ps.take(0) =~= Seq::<Seq<u8>>::empty());
    assert(views(out@) =~= Seq::<Seq<u8>>::empty());
    while i < parts.len()
        invariant
            i <= parts@.len(),
            ps == views(parts@),
            views(out@) == non_empty(ps.take(i as int)),
        decreases parts@.len() - i,
    {
        assert(ps.take(i + 1).drop_last() =~= ps.take(i as int));
        assert(ps.take(i + 1).last() == parts@[i as int]@);
        if parts[i].len() > 0 {
            let ghost before = views(out@);
            let piece = crate::util::slice_to_vec(parts[i].as_slice(), 0, parts[i].len());
            assert(piece@ =~= parts@[i as int]@);
            out.push(piece);
            assert(views(out@) =~= before.push(parts@[i as int]@));
        }
        i += 1;
    }
    assert(ps.take(i as int) =~= ps);
    out
}


/// Whether a piece is `.`.
pub open spec fn is_dot(p: Seq<u8>) -> bool {
    p.len() == 1 && p[0] == DOT
}

/// Whether a piece is `..`.
pub open spec fn is_dotdot(p: Seq<u8>) -> bool {
    p.len() == 2 && p[0] == DOT && p[1] == DOT
}

/// The components that remain of the pieces `ps`: empty ones and `.` are dropped, `..` takes the
/// one before it away and stays at the root where there is none.
pub open spec fn collapsed(ps: Seq<Seq<u8>>) -> Seq<Seq<u8>>
    decreases ps.len(),
{
    if ps.len() == 0 {
        Seq::empty()
    } else {
        let before = collapsed(ps.drop_last());
        let p = ps.last();
        if p.len() == 0 || is_dot(p) {
            before
        } else if is_dotdot(p) {
            if before.len() > 0 {
                before.drop_last()
            } else {
                before
            }
        } else {
            before.push(p)
        }
    }
}

/// The components `cs`, a slash before each.
pub open spec fn slashed(cs: Seq<Seq<u8>>) -> Seq<u8>
    decreases cs.len(),
{
    if cs.len() == 0 {
        Seq::empty()
    } else {
        slashed(cs.drop_last()).push(SLASH) + cs.last()
    }
}

/// The absolute path of the components `cs`.
pub open spec fn rendered(cs: Seq<Seq<u8>>) -> Seq<u8> {
    if cs.len() == 0 {
        seq![SLASH]
    } else {
        slashed(cs)
    }
}

/// The absolute path without empty components, `.` and `..` that `path` stands for.
pub open spec fn normalized(path: Seq<u8>) -> Seq<u8> {
    rendered(collapsed(pieces(path, SLASH)))
}

/// The absolute path that `path` stands for in the directory `cwd`.
pub open spec fn resolved(cwd: Seq<u8>, path: Seq<u8>) -> Seq<u8> {
    if path.len() > 0 && path[0] == SLASH {
        normalized(path)
    } else if cwd.len() > 0 && cwd.last() == SLASH {
        normalized(cwd + path)
    } else {
        normalized(cwd.push(SLASH) + path)
    }
}

/// Makes a path absolute and plain: no empty components, no `.`, no `..`, no slash at the end.
pub fn normalize(path: &[u8]) -> (r: Vec<u8>)
    ensures
        r@ == normalized(path@),
{
    let parts = split(path, SLASH);
    let ghost ps = views(parts@);
    let mut comps: Vec<Vec<u8>> = Vec::new();
    let mut i: usize = 0;
    assert(ps.take(0) =~= Seq::<Seq<u8>>::empty());
    assert(views(comps@) =~= Seq::<Seq<u8>>::empty());
    while i < parts.len()
        invariant
            i <= parts@.len(),
            ps == views(parts@),
            views(comps@) == collapsed(ps.take(i as int)),
        decreases parts@.len() - i,
    {
        assert(ps.take(i + 1).drop_last() =~= ps.take(i as int));
        let p = parts[i].as_slice();
        assert(ps.take(i + 1).last() == p@);
        let ghost before = views(comps@);
        let len = p.len();
        if len == 0 || (len == 1 && p[0] == DOT) {
        } else if len == 2 && p[0] == DOT && p[1] == DOT {
            let ghost n = comps@.len();
            let _ = comps.pop();
            proof {
                if n > 0 {
                    assert(views(comps@) =~= before.drop_last());
                } else {
                    assert(views(comps@) =~= before);
                }
            }
        } else {
            let piece = crate::util::slice_to_vec(p, 0, len);
            assert(piece@ =~= p@);
            comps.push(piece);
            assert(views(comps@) =~= before.push(p@));
        }
        i += 1;
    }
    assert(ps.take(i as int) =~= ps);
    let ghost cs = views(comps@);
    let mut out: Vec<u8> = Vec::new();
    if comps.len() == 0 {
        out.push(SLASH);
        assert(out@ =~= seq![SLASH]);
        return out;
    }
    let mut k: usize = 0;
    assert(cs.take(0) =~= Seq::<Seq<u8>>::empty());
    while k < comps.len()
        invariant
            k <= comps@.len(),
            cs == views(comps@),
            out@ == slashed(cs.take(k as int)),
        decreases comps@.len() - k,
    {
        assert(cs.take(k + 1).drop_last() =~= cs.take(k as int));
        assert(cs.take(k + 1).last() == comps@[k as int]@);
        out.push(SLASH);
        out.extend_from_slice(comps[k].as_slice());
        k += 1;
    }
    assert(cs.take(k as int) =~= cs);
    out
}

/// Makes `path` absolute, from the directory `cwd` where it is relative.
pub fn resolve_path(cwd: &[u8], path: &[u8]) -> (r: Vec<u8>)
    ensures
        r@ == resolved(cwd@, path@),
{
    if path.len() > 0 && path[0] == SLASH {
        return normalize(path);
    }
    let len = cwd.len();
    let mut combined = crate::util::slice_to_vec(cwd, 0, len);
    assert(combined@ =~= cwd@);
    if !(len > 0 && cwd[len - 1] == SLASH) {
        combined.push(SLASH);
    }
    let ghost base = combined@;
    combined.extend_from_slice(path);
    assert(combined@ =~= base + path@);
    normalize(combined.as_slice())
}

/// A component of a plain path: not empty, not `.` or `..`, without a slash.
pub open spec fn plain(c: Seq<u8>) -> bool {
    c.len() > 0 && !is_dot(c) && !is_dotdot(c) && forall|j: int| 0 <= j < c.len() ==> c[j] != SLASH
}

/// All components that remain are plain.
proof fn lemma_collapsed_plain(ps: Seq<Seq<u8>>)
    requires
        forall|i: int, j: int|
            0 <= i < ps.len() && 0 <= j < ps[i].len() ==> #[trigger] ps[i][j] != SLASH,
    ensures
        forall|i: int| 0 <= i < collapsed(ps).len() ==> plain(#[trigger] collapsed(ps)[i]),
    decreases ps.len(),
{
    if ps.len() > 0 {
        let init = ps.drop_last();
        assert forall|i: int, j: int|
            0 <= i < init.len() && 0 <= j < init[i].len() implies #[trigger] init[i][j] != SLASH by {
            assert(ps[i][j] != SLASH);
        }
        lemma_collapsed_plain(init);
        let p = ps.last();
        assert forall|j: int| 0 <= j < p.len() implies p[j] != SLASH by {
            assert(ps[ps.len() - 1][j] != SLASH);
        }
        assert forall|i: int| 0 <= i < collapsed(ps).len() implies plain(
            #[trigger] collapsed(ps)[i],
        ) by {
            if i < collapsed(init).len() {
                assert(plain(collapsed(init)[i]));
            }
        }
    }
}

/// Pieces of a string to which a string without separators is appended.
proof fn lemma_pieces_append(s: Seq<u8>, t: Seq<u8>, sep: u8)
    requires
        forall|j: int| 0 <= j < t.len() ==> t[j] != sep,
    ensures
        pieces(s + t, sep) == pieces(s, sep).drop_last().push(pieces(s, sep).last() + t),
    decreases t.len(),
{
    lemma_pieces_nonempty(s, sep);
    let ps = pieces(s, sep);
    if t.len() == 0 {
        assert(s + t =~= s);
        assert(ps.last() + t =~= ps.last());
        assert(ps.drop_last().push(ps.last()) =~= ps);
    } else {
        let init = t.drop_last();
        assert forall|j: int| 0 <= j < init.len() implies init[j] != sep by {
            assert(t[j] != sep);
        }
        lemma_pieces_append(s, init, sep);
        assert((s + t).drop_last() =~= s + init);
        assert((s + t).last() == t.last());
        let before = pieces(s + init, sep);
        assert(before.drop_last() =~= ps.drop_last());
        assert((ps.last() + init).push(t.last()) =~= ps.last() + t);
    }
}

/// The pieces of a rendered path are its components after an empty one.
proof fn lemma_pieces_slashed(cs: Seq<Seq<u8>>)
    requires
        forall|i: int| 0 <= i < cs.len() ==> plain(#[trigger] cs[i]),
    ensures
        pieces(slashed(cs), SLASH) == seq![Seq::<u8>::empty()] + cs,
    decreases cs.len(),
{
    if cs.len() == 0 {
        assert(seq![Seq::<u8>::empty()] + cs =~= seq![Seq::<u8>::empty()]);
    } else {
        let init = cs.drop_last();
        assert forall|i: int| 0 <= i < init.len() implies plain(#[trigger] init[i]) by {
            assert(plain(cs[i]));
        }
        lemma_pieces_slashed(init);
        assert(plain(cs[cs.len() - 1]));
        let head = slashed(init).push(SLASH);
        assert(head.drop_last() =~= slashed(init));
        let ps = pieces(head, SLASH);
        assert(ps == pieces(slashed(init), SLASH).push(Seq::<u8>::empty()));
        lemma_pieces_append(head, cs.last(), SLASH);
        assert(Seq::<u8>::empty() + cs.last() =~= cs.last());
        assert(ps.drop_last() =~= seq![Seq::<u8>::empty()] + init);
        assert((seq![Seq::<u8>::empty()] + init).push(cs.last()) =~= seq![Seq::<u8>::empty()] + cs);
    }
}

/// Pieces collapse one after the other.
proof fn lemma_collapsed_append(ps: Seq<Seq<u8>>, cs: Seq<Seq<u8>>)
    requires
        forall|i: int| 0 <= i < cs.len() ==> plain(#[trigger] cs[i]),
    ensures
        collapsed(ps + cs) == collapsed(ps) + cs,
    decreases cs.len(),
{
    if cs.len() == 0 {
        assert(ps + cs =~= ps);
        assert(collapsed(ps) + cs =~= collapsed(ps));
    } else {
        let init = cs.drop_last();
        assert forall|i: int| 0 <= i < init.len() implies plain(#[trigger] init[i]) by {
            assert(plain(cs[i]));
        }
        lemma_collapsed_append(ps, init);
        assert(plain(cs[cs.len() - 1]));
        assert((ps + cs).drop_last() =~= ps + init);
        assert((ps + cs).last() == cs.last());
        assert((collapsed(ps) + init).push(cs.last()) =~= collapsed(ps) + cs);
    }
}

/// A normalised path is absolute, has plain components only, and normalising it again changes
/// nothing.
pub proof fn law_normalize_is_idempotent(path: Seq<u8>)
    ensures
        normalized(path).len() > 0,
        normalized(path)[0] == SLASH,
        forall|i: int|
            0 <= i < collapsed(pieces(path, SLASH)).len() ==> plain(
                #[trigger] collapsed(pieces(path, SLASH))[i],
            ),
        normalized(normalized(path)) == normalized(path),
{
    let ps = pieces(path, SLASH);
    lemma_pieces_clean(path, SLASH);
    lemma_collapsed_plain(ps);
    let cs = collapsed(ps);
    lemma_slashed_start(cs);
    if cs.len() == 0 {
        let s = seq![SLASH];
        assert(s.drop_last() =~= Seq::<u8>::empty());
        let e = Seq::<u8>::empty();
        let q = pieces(s, SLASH);
        assert(pieces(e, SLASH) == seq![e]);
        assert(q == seq![e].push(e));
        assert(q.drop_last() =~= seq![e]);
        assert(seq![e].drop_last() =~= Seq::<Seq<u8>>::empty());
        lemma_collapsed_empty_piece();
        assert(collapsed(q) == Seq::<Seq<u8>>::empty());
    } else {
        lemma_pieces_slashed(cs);
        let e = seq![Seq::<u8>::empty()];
        lemma_collapsed_append(e, cs);
        assert(e.drop_last() =~= Seq::<Seq<u8>>::empty());
        lemma_collapsed_empty_piece();
        assert(Seq::<Seq<u8>>::empty() + cs =~= cs);
    }
}

/// An empty piece leaves no component.
proof fn lemma_collapsed_empty_piece()
    ensures
        collapsed(seq![Seq::<u8>::empty()]) == Seq::<Seq<u8>>::empty(),
{
    let ps = seq![Seq::<u8>::empty()];
    assert(ps.last().len() == 0);
    assert(ps.drop_last() =~= Seq::<Seq<u8>>::empty());
    assert(collapsed(ps.drop_last()) =~= Seq::<Seq<u8>>::empty());
}

/// A rendered path starts with a slash.
proof fn lemma_slashed_start(cs: Seq<Seq<u8>>)
    ensures
        cs.len() > 0 ==> slashed(cs).len() > 0 && slashed(cs)[0] == SLASH,
    decreases cs.len(),
{
    if cs.len() > 0 {
        let init = cs.drop_last();
        lemma_slashed_start(init);
        if init.len() == 0 {
            assert(slashed(init) =~= Seq::<u8>::empty());
        }
        let head = slashed(init).push(SLASH);
        assert(head[0] == SLASH);
        assert(slashed(cs) == head + cs.last());
    }
}

/// The working directory does not matter for an absolute path.
pub proof fn law_absolute_path_ignores_cwd(cwd: Seq<u8>, other: Seq<u8>, path: Seq<u8>)
    requires
        path.len() > 0,
        path[0] == SLASH,
    ensures
        resolved(cwd, path) == resolved(other, path),
{
}

/// A path that was resolved resolves to itself, in any directory.
pub proof fn law_resolved_path_is_absolute(cwd: Seq<u8>, path: Seq<u8>, other: Seq<u8>)
    ensures
        resolved(other, resolved(cwd, path)) == resolved(cwd, path),
{
    let whole = if path.len() > 0 && path[0] == SLASH {
        path
    } else if cwd.len() > 0 && cwd.last() == SLASH {
        cwd + path
    } else {
        cwd.push(SLASH) + path
    };
    law_normalize_is_idempotent(whole);
}

/// Whether a path is absolute and plain already.
pub open spec fn is_normal(path: Seq<u8>) -> bool {
    &&& path.len() > 0
    &&& path[0] == SLASH
    &&& normalized(path) == path
}

/// Whatever is resolved, in whatever directory, is normal; and so is the root.
pub proof fn law_resolved_path_is_normal(cwd: Seq<u8>, path: Seq<u8>)
    ensures
        is_normal(resolved(cwd, path)),
        is_normal(seq![SLASH]),
{
    let whole = if path.len() > 0 && path[0] == SLASH {
        path
    } else if cwd.len() > 0 && cwd.last() == SLASH {
        cwd + path
    } else {
        cwd.push(SLASH) + path
    };
    law_normalize_is_idempotent(whole);
    let e = Seq::<u8>::empty();
    law_normalize_is_idempotent(e);
    assert(pieces(e, SLASH) == seq![e]);
    assert(seq![e].drop_last() =~= Seq::<Seq<u8>>::empty());
    assert(normalized(e) =~= seq![SLASH]) by {
        reveal_with_fuel(collapsed, 2);
    }
}

/// The pieces of a path with one more.
proof fn lemma_one_more_piece(p: Seq<u8>, t: Seq<u8>)
    requires
        forall|j: int| 0 <= j < t.len() ==> t[j] != SLASH,
    ensures
        pieces(p.push(SLASH) + t, SLASH) == pieces(p, SLASH).push(t),
{
    let q = p.push(SLASH);
    lemma_pieces_nonempty(p, SLASH);
    assert(q.drop_last() =~= p);
    let ps = pieces(p, SLASH);
    assert(pieces(q, SLASH) == ps.push(Seq::<u8>::empty()));
    lemma_pieces_append(q, t, SLASH);
    assert(ps.push(Seq::<u8>::empty()).drop_last() =~= ps);
    assert(Seq::<u8>::empty() + t =~= t);
}

/// The components of a path are what stands between its slashes: a slash and a name behind a path
/// are one component more, a slash alone is none, and an empty path has none.
pub proof fn law_components_stand_between_slashes(p: Seq<u8>, t: Seq<u8>)
    requires
        forall|j: int| 0 <= j < t.len() ==> t[j] != 0x2F,
    ensures
        components(Seq::empty()) == Seq::<Seq<u8>>::empty(),
        t.len() > 0 ==> components(p.push(0x2F) + t) == components(p).push(t),
        t.len() == 0 ==> components(p.push(0x2F) + t) == components(p),
        t.len() > 0 ==> components(t) == seq![t],
{
    lemma_one_more_piece(p, t);
    let ps = pieces(p, SLASH);
    assert(ps.push(t).drop_last() =~= ps);
    let e = Seq::<u8>::empty();
    assert(pieces(e, SLASH) == seq![e]);
    assert(seq![e].drop_last() =~= Seq::<Seq<u8>>::empty());
    assert(non_empty(seq![e].drop_last()) =~= Seq::<Seq<u8>>::empty());
    assert(seq![e].last() == e);
    lemma_pieces_append(e, t, SLASH);
    assert(e + t =~= t);
    assert(seq![e].drop_last().push(t) =~= seq![t]);
    if t.len() > 0 {
        assert(pieces(t, SLASH) == seq![t]);
        assert(seq![t].drop_last() =~= Seq::<Seq<u8>>::empty());
        assert(non_empty(seq![t].drop_last()) =~= Seq::<Seq<u8>>::empty());
        assert(components(t) =~= seq![t]);
    }
}

/// Components that are not empty are kept.
proof fn lemma_non_empty_kept(ps: Seq<Seq<u8>>, cs: Seq<Seq<u8>>)
    requires
        forall|i: int| 0 <= i < cs.len() ==> plain(#[trigger] cs[i]),
    ensures
        non_empty(ps + cs) == non_empty(ps) + cs,
    decreases cs.len(),
{
    if cs.len() == 0 {
        assert(ps + cs =~= ps);
        assert(non_empty(ps) + cs =~= non_empty(ps));
    } else {
        let init = cs.drop_last();
        assert forall|i: int| 0 <= i < init.len() implies plain(#[trigger] init[i]) by {
            assert(plain(cs[i]));
        }
        lemma_non_empty_kept(ps, init);
        assert(plain(cs[cs.len() - 1]));
        assert((ps + cs).drop_last() =~= ps + init);
        assert((ps + cs).last() == cs.last());
        assert((non_empty(ps) + init).push(cs.last()) =~= non_empty(ps) + cs);
    }
}

/// A rendered path has the components that it was made of.
proof fn lemma_components_rendered(cs: Seq<Seq<u8>>)
    requires
        forall|i: int| 0 <= i < cs.len() ==> plain(#[trigger] cs[i]),
    ensures
        components(rendered(cs)) == cs,
{
    let e = Seq::<u8>::empty();
    if cs.len() == 0 {
        law_components_stand_between_slashes(e, e);
        assert(e.push(SLASH) + e =~= seq![SLASH]);
        assert(components(rendered(cs)) =~= cs);
    } else {
        lemma_pieces_slashed(cs);
        lemma_non_empty_kept(seq![e], cs);
        assert(seq![e].drop_last() =~= Seq::<Seq<u8>>::empty());
        assert(non_empty(seq![e].drop_last()) =~= Seq::<Seq<u8>>::empty());
        assert(non_empty(seq![e]) == Seq::<Seq<u8>>::empty());
        assert(Seq::<Seq<u8>>::empty() + cs =~= cs);
    }
}

/// A path is made plain component by component: `.` and nothing leave it as it is, `..` takes its
/// last component away, if it has any, and any other name is added behind a slash. The empty path
/// is the root.
pub proof fn law_paths_are_made_plain_by_components(p: Seq<u8>, t: Seq<u8>)
    requires
        forall|j: int| 0 <= j < t.len() ==> t[j] != 0x2F,
    ensures
        normalized(Seq::empty()) == seq![0x2Fu8],
        ({
            let before = normalized(p);
            let after = normalized(p.push(0x2F) + t);
            if t.len() == 0 || t == seq![0x2Eu8] {
                after == before
            } else if t == seq![0x2Eu8, 0x2Eu8] {
                components(after) == (if components(before).len() > 0 {
                    components(before).drop_last()
                } else {
                    Seq::empty()
                })
            } else if before == seq![0x2Fu8] {
                after == before + t
            } else {
                after == before.push(0x2F) + t
            }
        }),
{
    law_resolved_path_is_normal(p, t);
    let e = Seq::<u8>::empty();
    assert(pieces(e, SLASH) == seq![e]);
    lemma_collapsed_empty_piece();
    assert(normalized(e) =~= seq![SLASH]);
    lemma_one_more_piece(p, t);
    let ps = pieces(p, SLASH);
    let cs = collapsed(ps);
    assert(ps.push(t).drop_last() =~= ps);
    assert(ps.push(t).last() == t);
    law_normalize_is_idempotent(p);
    assert(t == seq![0x2Eu8] <==> is_dot(t)) by {
        if is_dot(t) {
            assert(t =~= seq![0x2Eu8]);
        }
    }
    assert(t == seq![0x2Eu8, 0x2Eu8] <==> is_dotdot(t)) by {
        if is_dotdot(t) {
            assert(t =~= seq![0x2Eu8, 0x2Eu8]);
        }
    }
    lemma_components_rendered(cs);
    if is_dotdot(t) {
        let less = if cs.len() > 0 {
            cs.drop_last()
        } else {
            cs
        };
        assert forall|i: int| 0 <= i < less.len() implies plain(#[trigger] less[i]) by {
            assert(plain(cs[i]));
        }
        lemma_components_rendered(less);
        if cs.len() == 0 {
            assert(less =~= Seq::empty());
        }
    } else if t.len() > 0 && !is_dot(t) {
        let more = cs.push(t);
        assert(more.drop_last() =~= cs);
        if cs.len() == 0 {
            assert(slashed(cs) =~= Seq::<u8>::empty());
            assert(slashed(more) =~= seq![SLASH] + t);
        } else {
            assert(plain(cs[cs.len() - 1]));
            assert(slashed(cs).len() >= 2);
            assert(normalized(p) != seq![0x2Fu8]);
        }
    }
}

/// A path that starts with a slash stands for itself; any other is looked for behind the working
/// directory and a slash.
pub proof fn law_relative_path_starts_at_the_working_directory(cwd: Seq<u8>, p: Seq<u8>)
    ensures
        p.len() > 0 && p[0] == 0x2F ==> resolved(cwd, p) == normalized(p),
        p.len() == 0 || p[0] != 0x2F ==> resolved(cwd, p) == normalized(cwd.push(0x2F) + p),
{
    if (p.len() == 0 || p[0] != SLASH) && cwd.len() > 0 && cwd.last() == SLASH {
        let base = cwd.drop_last();
        assert(base.push(SLASH) =~= cwd);
        lemma_pieces_double(base, p);
        assert(cwd.push(SLASH) + p =~= base.push(SLASH).push(SLASH) + p);
    }
}

/// A second slash makes no difference.
proof fn lemma_pieces_double(base: Seq<u8>, p: Seq<u8>)
    ensures
        collapsed(pieces(base.push(SLASH).push(SLASH) + p, SLASH)) == collapsed(
            pieces(base.push(SLASH) + p, SLASH),
        ),
        pieces(base.push(SLASH).push(SLASH) + p, SLASH).last() == pieces(
            base.push(SLASH) + p,
            SLASH,
        ).last(),
        collapsed(pieces(base.push(SLASH).push(SLASH) + p, SLASH).drop_last()) == collapsed(
            pieces(base.push(SLASH) + p, SLASH).drop_last(),
        ),
    decreases p.len(),
{
    let one = base.push(SLASH);
    let two = one.push(SLASH);
    let e = Seq::<u8>::empty();
    lemma_pieces_nonempty(one + p, SLASH);
    lemma_pieces_nonempty(two + p, SLASH);
    if p.len() == 0 {
        assert(one + p =~= one);
        assert(two + p =~= two);
        lemma_pieces_nonempty(base, SLASH);
        assert(one.drop_last() =~= base);
        assert(two.drop_last() =~= one);
        let ps = pieces(base, SLASH);
        assert(pieces(one, SLASH) == ps.push(e));
        assert(pieces(two, SLASH) == ps.push(e).push(e));
        assert(ps.push(e).drop_last() =~= ps);
        assert(ps.push(e).push(e).drop_last() =~= ps.push(e));
        assert(collapsed(ps.push(e)) == collapsed(ps));
    } else {
        let q = p.drop_last();
        lemma_pieces_double(base, q);
        lemma_pieces_nonempty(one + q, SLASH);
        lemma_pieces_nonempty(two + q, SLASH);
        assert((one + p).drop_last() =~= one + q);
        assert((two + p).drop_last() =~= two + q);
        assert((one + p).last() == p.last() && (two + p).last() == p.last());
        let a = pieces(one + q, SLASH);
        let b = pieces(two + q, SLASH);
        if p.last() == SLASH {
            assert(a.push(e).drop_last() =~= a);
            assert(b.push(e).drop_last() =~= b);
        } else {
            let x = a.last().push(p.last());
            assert(a.drop_last().push(x).drop_last() =~= a.drop_last());
            assert(b.drop_last().push(x).drop_last() =~= b.drop_last());
        }
    }
}

} // verus!
