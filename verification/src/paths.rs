//! Spellings of paths.
use vstd::prelude::*;
use vstd::utf8::encode_utf8;

verus! {

/// The byte that separates the components of a path.
pub const SLASH: u8 = 0x2f;

pub const DOT: u8 = 0x2e;

/// The normal spelling of a path: no component is empty, none but the first is a
/// single dot, and there is no slash at the end, but that of the root.
/// Slashes alone are taken to separate; what else a system takes for a separator
/// is to be spelled in one way by whoever hands the path over.
pub open spec fn is_normal_path(path: Seq<u8>) -> bool {
    &&& forall|i: int|
        #![trigger path[i]]
        0 <= i < path.len() - 1 && path[i] == SLASH ==> path[i + 1] != SLASH && !(path[i + 1] == DOT
            && (i + 2 == path.len() || path[i + 2] == SLASH))
    &&& path.len() > 1 ==> path.last() != SLASH
}

/// The text of a path is its normal spelling.
pub open spec fn is_normal(path: Seq<char>) -> bool {
    is_normal_path(encode_utf8(path))
}

/// Whether the bytes of a path are its normal spelling.
pub fn normal_path(path: &[u8]) -> (yes: bool)
    ensures
        yes == is_normal_path(path@),
{
    let n = path.len();
    if n > 1 && path[n - 1] == SLASH {
        return false;
    }
    let mut i: usize = 0;
    while i < n
        invariant
            i <= n == path@.len(),
            forall|k: int|
                #![trigger path@[k]]
                0 <= k < i && k < n - 1 && path@[k] == SLASH ==> path@[k + 1] != SLASH && !(path@[k
                    + 1] == DOT && (k + 2 == n || path@[k + 2] == SLASH)),
        decreases n - i,
    {
        if i < n - 1 && path[i] == SLASH {
            if path[i + 1] == SLASH || (path[i + 1] == DOT && (i + 1 == n - 1 || path[i + 2]
                == SLASH)) {
                return false;
            }
        }
        i = i + 1;
    }
    true
}

/// Whether the text of a path is its normal spelling.
pub fn normal(path: &String) -> (yes: bool)
    ensures
        yes == is_normal(path@),
{
    normal_path(path.as_str().as_bytes())
}

// ---------------------------------------------------------------------------
// Components
// ---------------------------------------------------------------------------

/// What stands between the slashes of a path.
pub open spec fn parts(path: Seq<u8>) -> Seq<Seq<u8>>
    decreases path.len(),
{
    if path.len() == 0 {
        seq![seq![]]
    } else {
        let before = parts(path.drop_last());
        if path.last() == SLASH {
            before.push(seq![])
        } else {
            before.drop_last().push(before.last().push(path.last()))
        }
    }
}

/// Those of the parts that count: not the empty ones, nor a single dot but in
/// the first place.
pub open spec fn counting(parts: Seq<Seq<u8>>) -> Seq<Seq<u8>>
    decreases parts.len(),
{
    if parts.len() == 0 {
        seq![]
    } else {
        let before = counting(parts.drop_last());
        if parts.last().len() == 0 || (parts.len() > 1 && parts.last() == seq![DOT]) {
            before
        } else {
            before.push(parts.last())
        }
    }
}

/// Whether a path begins at the root, and its components.
pub open spec fn components(path: Seq<u8>) -> (bool, Seq<Seq<u8>>) {
    (path.len() > 0 && path[0] == SLASH, counting(parts(path)))
}

/// Two paths that have the same components have the same normal spelling: where
/// both are spelled normally, they are equal where their bytes are.
pub proof fn law_normal_spelling_is_unique(a: Seq<u8>, b: Seq<u8>)
    requires
        is_normal_path(a),
        is_normal_path(b),
    ensures
        components(a) == components(b) <==> a == b,
{
    lemma_joined(a);
    lemma_joined(b);
    lemma_normal_parts(a);
    lemma_normal_parts(b);
    if components(a) == components(b) {
        if counting(parts(a)).len() == 0 {
            assert(a =~= b);
        } else if components(a).0 {
            assert(parts(a) =~= seq![parts(a)[0]] + parts(a).drop_first());
            assert(parts(b) =~= seq![parts(b)[0]] + parts(b).drop_first());
            assert(parts(a)[0] =~= parts(b)[0]);
        }
    }
}

/// The parts, with slashes between them.
spec fn joined(parts: Seq<Seq<u8>>) -> Seq<u8>
    decreases parts.len(),
{
    if parts.len() <= 1 {
        parts[0]
    } else {
        joined(parts.drop_last()).push(SLASH) + parts.last()
    }
}

proof fn lemma_joined(path: Seq<u8>)
    ensures
        parts(path).len() > 0,
        joined(parts(path)) == path,
    decreases path.len(),
{
    if path.len() == 0 {
        assert(joined(parts(path)) =~= path);
    } else {
        let rest = path.drop_last();
        let before = parts(rest);
        let now = parts(path);
        lemma_joined(rest);
        if path.last() == SLASH {
            assert(now.drop_last() =~= before);
            assert(joined(now) =~= rest.push(SLASH));
        } else if before.len() == 1 {
            assert(now[0] =~= before[0].push(path.last()));
            assert(joined(now) =~= rest.push(path.last()));
        } else {
            let head = joined(before.drop_last()).push(SLASH);
            assert(now.drop_last() =~= before.drop_last());
            assert(joined(before) == head + before.last());
            assert(joined(now) == head + before.last().push(path.last()));
            assert(joined(now) =~= rest.push(path.last()));
        }
        assert(rest.push(path.last()) =~= path);
    }
}

/// The parts of a path of which only the last may be unfinished: all others but
/// the first are neither empty nor a single dot, and the last stands at the end.
proof fn lemma_parts(path: Seq<u8>)
    requires
        forall|i: int|
            #![trigger path[i]]
            0 <= i < path.len() - 1 && path[i] == SLASH ==> path[i + 1] != SLASH && !(path[i + 1]
                == DOT && i + 2 < path.len() && path[i + 2] == SLASH),
    ensures
        ({
            let all = parts(path);
            let last = all.last();
            let start = path.len() - last.len();
            &&& all.len() > 0
            &&& start >= 0
            &&& last == path.skip(start)
            &&& all.len() == 1 ==> start == 0
            &&& all.len() > 1 ==> start > 0 && path[start - 1] == SLASH
            &&& forall|k: int|
                0 < k < all.len() - 1 ==> (#[trigger] all[k]).len() > 0 && all[k] != seq![DOT]
            &&& all[0].len() == 0 <==> path.len() == 0 || path[0] == SLASH
        }),
    decreases path.len(),
{
    let all = parts(path);
    if path.len() == 0 {
        assert(all.last() =~= path.skip(0));
    } else {
        let rest = path.drop_last();
        let before = parts(rest);
        assert forall|i: int|
            #![trigger rest[i]]
            0 <= i < rest.len() - 1 && rest[i] == SLASH implies rest[i + 1] != SLASH && !(rest[i + 1]
            == DOT && i + 2 < rest.len() && rest[i + 2] == SLASH) by {
            assert(path[i] == rest[i]);
        }
        lemma_parts(rest);
        let last = before.last();
        let start = rest.len() - last.len();
        if path.last() == SLASH {
            assert(all.last() =~= path.skip(path.len() as int));
            assert(all.drop_last() =~= before);
            if before.len() > 1 {
                assert(path[start - 1] == SLASH);
                assert(last.len() > 0);
                if last == seq![DOT] {
                    assert(rest.skip(start)[0] == path[start]);
                }
            }
            assert forall|k: int| 0 < k < all.len() - 1 implies (#[trigger] all[k]).len() > 0
                && all[k] != seq![DOT] by {
                assert(all[k] == before[k]);
            }
            assert(all[0] == before[0]);
            if rest.len() > 0 {
                assert(path[0] == rest[0]);
            }
        } else {
            assert(all.last() =~= path.skip(start));
            assert forall|k: int| 0 < k < all.len() - 1 implies (#[trigger] all[k]).len() > 0
                && all[k] != seq![DOT] by {
                assert(all[k] == before[k]);
            }
            if before.len() > 1 {
                assert(all[0] == before[0]);
                assert(rest.len() > 0);
                assert(path[0] == rest[0]);
            } else if rest.len() > 0 {
                assert(path[0] == rest[0]);
                assert(rest.skip(0) =~= rest);
            }
        }
    }
}

/// All parts of a normal spelling count, but for the empty one before the root
/// and that of a path without components.
proof fn lemma_normal_parts(path: Seq<u8>)
    requires
        is_normal_path(path),
    ensures
        counting(parts(path)).len() == 0 ==> path.len() == 0 || path == seq![SLASH],
        counting(parts(path)).len() > 0 && components(path).0 ==> parts(path).len() > 0 && parts(
            path,
        )[0].len() == 0 && counting(parts(path)) == parts(path).drop_first(),
        counting(parts(path)).len() > 0 && !components(path).0 ==> counting(parts(path)) == parts(
            path,
        ),
{
    let all = parts(path);
    lemma_parts(path);
    let last = all.last();
    let start = path.len() - last.len();
    if path.len() == 0 {
        lemma_counting(all, 1);
    } else if path =~= seq![SLASH] {
        assert(path.drop_last() =~= Seq::<u8>::empty());
        reveal_with_fuel(parts, 2);
        assert(all =~= seq![Seq::<u8>::empty(), Seq::<u8>::empty()]);
        reveal_with_fuel(counting, 3);
        assert(all.drop_last() =~= seq![seq![]]);
    } else {
        assert(path.len() > 1 || path[0] != SLASH);
        assert(last.len() > 0);
        if all.len() > 1 && last == seq![DOT] {
            assert(path[start] == path.skip(start)[0]);
            assert(path[start - 1] == SLASH);
        }
        let from: int = if path[0] == SLASH {
            1
        } else {
            0
        };
        assert forall|k: int| from <= k < all.len() implies (#[trigger] all[k]).len() > 0 && (k == 0
            || all[k] != seq![DOT]) by {
            if k == all.len() - 1 {
                assert(all[k] == last);
            }
        }
        if path[0] == SLASH {
            assert(all.len() > 1);
        }
        lemma_counting(all, from);
        assert(all.skip(0) =~= all);
        assert(all.skip(1) =~= all.drop_first());
    }
}

/// Where all parts from the first or the second on count, these are counted.
proof fn lemma_counting(all: Seq<Seq<u8>>, from: int)
    requires
        from == 0 || from == 1,
        all.len() > 0,
        from == 1 ==> all[0].len() == 0,
        forall|k: int|
            from <= k < all.len() ==> (#[trigger] all[k]).len() > 0 && (k == 0 || all[k] != seq![
                DOT,
            ]),
    ensures
        counting(all) == all.skip(from),
    decreases all.len(),
{
    let rest = all.drop_last();
    if rest.len() == 0 {
        assert(rest =~= Seq::<Seq<u8>>::empty());
        assert(counting(rest).len() == 0);
        assert(counting(all) =~= all.skip(from));
    } else {
        assert forall|k: int| from <= k < rest.len() implies (#[trigger] rest[k]).len() > 0 && (k
            == 0 || rest[k] != seq![DOT]) by {
            assert(rest[k] == all[k]);
        }
        lemma_counting(rest, from);
        assert(all[all.len() - 1] == all.last());
        assert(counting(all) =~= all.skip(from));
    }
}

/// A path is spelled normally where it is empty or the root, or where no part
/// behind the first is empty or a single dot.
pub proof fn law_normal_spelling(path: Seq<u8>)
    ensures
        is_normal_path(path) <==> path.len() == 0 || path == seq![0x2fu8] || forall|k: int|
            0 < k < parts(path).len() ==> (#[trigger] parts(path)[k]).len() > 0 && parts(path)[k]
                != seq![0x2eu8],
        parts(Seq::empty()) == seq![Seq::<u8>::empty()],
        forall|byte: u8|
            parts(#[trigger] path.push(byte)) == if byte == 0x2f {
                parts(path).push(Seq::empty())
            } else {
                parts(path).update(parts(path).len() - 1, parts(path).last().push(byte))
            },
{
    let all = parts(path);
    lemma_last_part(path);
    let last = all.last();
    let start = path.len() - last.len();
    if path.len() > 0 && path != seq![SLASH] {
        if is_normal_path(path) {
            lemma_parts(path);
            if path.len() == 1 && path[0] == SLASH {
                assert(path =~= seq![SLASH]);
            }
            assert(path.last() != SLASH);
            if all.len() > 1 {
                assert(last.len() > 0);
                if last == seq![DOT] {
                    assert(path[start] == path.skip(start)[0]);
                    assert(path[start - 1] == SLASH);
                }
            }
            assert forall|k: int| 0 < k < all.len() implies (#[trigger] all[k]).len() > 0 && all[k]
                != seq![DOT] by {
                if k == all.len() - 1 {
                    assert(all[k] == last);
                }
            }
        }
        if forall|k: int|
            0 < k < all.len() ==> (#[trigger] all[k]).len() > 0 && all[k] != seq![DOT] {
            lemma_good_parts(path);
            if all.len() > 1 {
                assert(all[all.len() - 1] == last);
            }
            assert forall|i: int|
                #![trigger path[i]]
                0 <= i < path.len() - 1 && path[i] == SLASH implies path[i + 1] != SLASH && !(path[i
                + 1] == DOT && (i + 2 == path.len() || path[i + 2] == SLASH)) by {
                if path[i + 1] == DOT && i + 2 == path.len() {
                    lemma_dot_at_end(path);
                }
            }
            if path.len() > 1 && path.last() == SLASH {
                assert(path[path.len() - 1] == SLASH);
                if last.len() > 0 {
                    assert(last[last.len() - 1] == path[path.len() - 1]);
                }
            }
        }
    }
    assert forall|byte: u8|
        parts(#[trigger] path.push(byte)) == if byte == 0x2f {
            parts(path).push(Seq::empty())
        } else {
            parts(path).update(parts(path).len() - 1, parts(path).last().push(byte))
        } by {
        assert(path.push(byte).drop_last() =~= path);
        if byte != 0x2f {
            assert(parts(path.push(byte)) =~= all.update(all.len() - 1, last.push(byte)));
        }
    }
    if path == seq![SLASH] || path.len() == 0 {
        assert(is_normal_path(path));
    }
}

/// The last part is what stands behind the last slash.
proof fn lemma_last_part(path: Seq<u8>)
    ensures
        ({
            let all = parts(path);
            let last = all.last();
            let start = path.len() - last.len();
            &&& all.len() > 0
            &&& start >= 0
            &&& last == path.skip(start)
            &&& all.len() == 1 ==> start == 0
            &&& all.len() > 1 ==> start > 0 && path[start - 1] == SLASH
            &&& forall|i: int| 0 <= i < last.len() ==> #[trigger] last[i] != SLASH
        }),
    decreases path.len(),
{
    let all = parts(path);
    if path.len() == 0 {
        assert(all.last() =~= path.skip(0));
    } else {
        let rest = path.drop_last();
        let before = parts(rest);
        lemma_last_part(rest);
        let start = rest.len() - before.last().len();
        if path.last() == SLASH {
            assert(all.last() =~= path.skip(path.len() as int));
        } else {
            assert(all.last() =~= path.skip(start));
            if before.len() > 1 {
                assert(path[start - 1] == rest[start - 1]);
            }
        }
    }
}

/// Where a path ends in a slash and a dot, its last part is the dot.
proof fn lemma_dot_at_end(path: Seq<u8>)
    requires
        path.len() >= 2,
        path[path.len() - 2] == SLASH,
        path[path.len() - 1] == DOT,
    ensures
        parts(path).len() > 1,
        parts(path).last() == seq![DOT],
{
    lemma_last_part(path);
    let last = parts(path).last();
    let start = path.len() - last.len();
    let n = path.len() as int;
    if start < n - 1 {
        assert(last[n - 2 - start] == path[n - 2]);
    }
    if start == n {
        assert(path[n - 1] == SLASH);
    }
    assert(start == n - 1);
    assert(last =~= seq![DOT]);
}

/// Where all finished parts but the first are neither empty nor a single dot, no
/// two slashes stand side by side, nor a single dot between two.
proof fn lemma_good_parts(path: Seq<u8>)
    requires
        forall|k: int|
            0 < k < parts(path).len() - 1 ==> (#[trigger] parts(path)[k]).len() > 0 && parts(
                path,
            )[k] != seq![DOT],
    ensures
        forall|i: int|
            #![trigger path[i]]
            0 <= i < path.len() - 1 && path[i] == SLASH ==> path[i + 1] != SLASH && !(path[i + 1]
                == DOT && i + 2 < path.len() && path[i + 2] == SLASH),
    decreases path.len(),
{
    if path.len() > 0 {
        let all = parts(path);
        let rest = path.drop_last();
        let before = parts(rest);
        lemma_last_part(rest);
        assert forall|k: int| 0 < k < before.len() - 1 implies (#[trigger] before[k]).len() > 0
            && before[k] != seq![DOT] by {
            assert(all[k] == before[k]);
        }
        lemma_good_parts(rest);
        let n = rest.len() as int;
        assert forall|i: int|
            #![trigger path[i]]
            0 <= i < path.len() - 1 && path[i] == SLASH implies path[i + 1] != SLASH && !(path[i + 1]
            == DOT && i + 2 < path.len() && path[i + 2] == SLASH) by {
            assert(rest[i] == path[i]);
            let last = before.last();
            let start = n - last.len();
            if path.last() == SLASH {
                if i == n - 1 {
                    if last.len() > 0 {
                        assert(last[last.len() - 1] == rest[n - 1]);
                    }
                    assert(before.len() > 1);
                    assert(all[before.len() - 1] == last);
                } else if i == n - 2 && path[i + 1] == DOT {
                    lemma_dot_at_end(rest);
                    assert(all[before.len() - 1] == last);
                }
            }
        }
    }
}

/// A text is the normal spelling of a path where its UTF-8 encoding is.
pub proof fn law_normal_text(path: Seq<char>)
    ensures
        is_normal(path) <==> is_normal_path(encode_utf8(path)),
{
}

} // verus!
