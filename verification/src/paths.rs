//! Paths: the components of a path, and the key of a file below an archive.
//!
//! Slashes separate components. As for the paths of the standard library, repeated
//! and trailing slashes and `.` behind the start count for nothing.

use crate::text;
use crate::text::{chars_of, slashed_chars, text_of};
use vstd::prelude::*;
use vstd::slice::slice_subrange;

verus! {

//=============================================================================
// Model
//=============================================================================

/// The directory `base` with the separator that a path below it starts with.
pub open spec fn directory_prefix(base: Seq<char>) -> Seq<char> {
    if base.len() == 0 || base.last() == '/' {
        base
    } else {
        base.push('/')
    }
}

/// A piece of a text: where it starts, and where it ends.
pub type Span = (usize, usize);

/// The pieces of `s` between its slashes.
pub open spec fn pieces(s: Seq<char>) -> Seq<Span>
    decreases s.len(),
{
    if s.len() == 0 {
        seq![(0, 0)]
    } else {
        let before = pieces(s.drop_last());
        let end = s.len() as usize;
        if s.last() == '/' {
            before.push((end, end))
        } else {
            before.drop_last().push((before.last().0, end))
        }
    }
}

/// The text of a piece of `s`.
pub open spec fn piece_text(s: Seq<char>, piece: Span) -> Seq<char> {
    s.subrange(piece.0 as int, piece.1 as int)
}

/// A piece of a path is one of its components unless it is empty, or is `.` behind
/// the start.
pub open spec fn is_component(s: Seq<char>, piece: Span) -> bool {
    piece.0 < piece.1 && !(piece.0 > 0 && piece_text(s, piece) == seq!['.'])
}

/// Those of `list` that are components of the path `s`.
pub open spec fn components_among(s: Seq<char>, list: Seq<Span>) -> Seq<Span>
    decreases list.len(),
{
    if list.len() == 0 {
        Seq::empty()
    } else {
        let before = components_among(s, list.drop_last());
        if is_component(s, list.last()) {
            before.push(list.last())
        } else {
            before
        }
    }
}

/// The components of the path `s`.
pub open spec fn components(s: Seq<char>) -> Seq<Span> {
    components_among(s, pieces(s))
}

/// The path starts at the root.
pub open spec fn rooted(s: Seq<char>) -> bool {
    s.len() > 0 && s[0] == '/'
}

/// The component of `a` at `i` is that of `b`.
pub open spec fn same_component(a: Seq<char>, b: Seq<char>, i: int) -> bool {
    piece_text(a, components(a)[i]) == piece_text(b, components(b)[i])
}

/// The path `abs` is the directory `base`, or below it: it starts with the
/// components of `base`.
pub open spec fn is_below(abs: Seq<char>, base: Seq<char>) -> bool {
    base.len() == 0 || {
        &&& rooted(abs) == rooted(base)
        &&& components(base).len() <= components(abs).len()
        &&& forall|i: int| 0 <= i < components(base).len() ==> same_component(abs, base, i)
    }
}

/// Where the path `s` ends but for what follows its last component.
pub open spec fn path_end(s: Seq<char>) -> int {
    if components(s).len() > 0 {
        components(s).last().1 as int
    } else if rooted(s) {
        1
    } else {
        0
    }
}

/// The part of `abs` behind the components of `base`, up to the last component. An
/// empty `base` has none, and not even a root.
pub open spec fn rest_below(abs: Seq<char>, base: Seq<char>) -> Seq<char> {
    let n = components(base).len() as int;
    if base.len() == 0 {
        abs.subrange(0, path_end(abs))
    } else if n < components(abs).len() {
        abs.subrange(components(abs)[n].0 as int, path_end(abs))
    } else {
        Seq::empty()
    }
}

/// The key of the path `abs` below the directory `base`: what follows `base`, with
/// slashes for separators. `None` where `abs` is not below `base`.
pub open spec fn key_below(abs: Seq<char>, base: Seq<char>) -> Option<Seq<char>> {
    if is_below(abs, base) {
        Some(text::slashed(rest_below(abs, base)))
    } else {
        None
    }
}

//=============================================================================
// Functions
//=============================================================================

/// The pieces of a path hold no slash, lie one behind the other with a slash in
/// between, and the last ends where the path does.
proof fn lemma_pieces(s: Seq<char>)
    requires
        s.len() <= usize::MAX,
    ensures
        pieces(s).len() > 0,
        pieces(s).last().1 == s.len(),
        forall|i: int|
            0 <= i < pieces(s).len() ==> (#[trigger] pieces(s)[i]).0 <= pieces(s)[i].1 <= s.len(),
        forall|i: int, k: int|
            0 <= i < pieces(s).len() && pieces(s)[i].0 <= k < pieces(s)[i].1 ==> #[trigger] s[k]
                != '/' && #[trigger] pieces(s)[i] == pieces(s)[i],
        forall|i: int, j: int|
            0 <= i < j < pieces(s).len() ==> (#[trigger] pieces(s)[i]).1 < (
            #[trigger] pieces(s)[j]).0,
        forall|i: int|
            0 <= i < pieces(s).len() && pieces(s)[i].0 > 0 ==> s[(#[trigger] pieces(s)[i]).0 - 1]
                == '/',
    decreases s.len(),
{
    if s.len() > 0 {
        let init = s.drop_last();
        lemma_pieces(init);
        let before = pieces(init);
        let after = pieces(s);
        assert forall|i: int| 0 <= i < after.len() implies (#[trigger] after[i]).0 <= after[i].1
            <= s.len() && (after[i].0 > 0 ==> s[after[i].0 - 1] == '/') by {
            if i < before.len() {
                assert(before[i].0 <= before[i].1);
                assert(after[i].0 == before[i].0);
                if before[i].0 > 0 {
                    assert(init[before[i].0 - 1] == s[before[i].0 - 1]);
                }
            }
        }
        assert forall|i: int, k: int|
            0 <= i < after.len() && after[i].0 <= k < after[i].1 implies #[trigger] s[k] != '/'
            && #[trigger] after[i] == after[i] by {
            if i < before.len() && k < init.len() {
                assert(before[i].0 <= k < before[i].1);
                assert(init[k] == s[k]);
            }
        }
        assert forall|i: int, j: int| 0 <= i < j < after.len() implies (#[trigger] after[i]).1 < (
        #[trigger] after[j]).0 by {
            assert(before[i].1 <= init.len());
            if j < before.len() {
                assert(before[i].1 < before[j].0);
            }
        }
    }
}

/// Components are pieces.
proof fn lemma_components_among(s: Seq<char>, list: Seq<Span>)
    ensures
        forall|i: int|
            0 <= i < components_among(s, list).len() ==> is_component(
                s,
                #[trigger] components_among(s, list)[i],
            ) && list.contains(components_among(s, list)[i]),
    decreases list.len(),
{
    if list.len() > 0 {
        let init = list.drop_last();
        lemma_components_among(s, init);
        let before = components_among(s, init);
        let after = components_among(s, list);
        assert forall|i: int| 0 <= i < after.len() implies is_component(s, #[trigger] after[i])
            && list.contains(after[i]) by {
            if i < before.len() {
                assert(after[i] == before[i]);
                let k = init.index_of(before[i]);
                assert(list[k] == before[i]);
            } else {
                assert(list[list.len() - 1] == after[i]);
            }
        }
    }
}

/// The components of a path lie in it, and are not empty.
proof fn lemma_components(s: Seq<char>)
    requires
        s.len() <= usize::MAX,
    ensures
        forall|i: int|
            0 <= i < components(s).len() ==> (#[trigger] components(s)[i]).0 < components(s)[i].1
                <= s.len() && s[components(s)[i].0 as int] != '/',
        forall|i: int, j: int|
            0 <= i < j < components(s).len() ==> (#[trigger] components(s)[i]).1 < (
            #[trigger] components(s)[j]).0,
{
    lemma_pieces(s);
    lemma_components_among(s, pieces(s));
    lemma_components_order(s, pieces(s));
    assert forall|i: int| 0 <= i < components(s).len() implies (#[trigger] components(s)[i]).0
        < components(s)[i].1 <= s.len() && s[components(s)[i].0 as int] != '/' by {
        let c = components(s)[i];
        assert(is_component(s, c));
        let k = pieces(s).index_of(c);
        assert(pieces(s)[k] == c);
    }
}

/// Components lie one behind the other where the pieces do.
proof fn lemma_components_order(s: Seq<char>, list: Seq<Span>)
    requires
        forall|i: int, j: int| 0 <= i < j < list.len() ==> (#[trigger] list[i]).1 < (
        #[trigger] list[j]).0,
    ensures
        ({
            let among = components_among(s, list);
            forall|i: int, j: int| 0 <= i < j < among.len() ==> (#[trigger] among[i]).1 < (
            #[trigger] among[j]).0
        }),
    decreases list.len(),
{
    if list.len() > 0 {
        let init = list.drop_last();
        lemma_components_order(s, init);
        lemma_components_among(s, init);
        let before = components_among(s, init);
        let among = components_among(s, list);
        assert forall|i: int, j: int| 0 <= i < j < among.len() implies (#[trigger] among[i]).1 < (
        #[trigger] among[j]).0 by {
            assert(among[i] == before[i]);
            if j == before.len() {
                let k = init.index_of(before[i]);
                assert(list[k] == before[i]);
                assert(list[list.len() - 1] == among[j]);
            }
        }
    }
}

/// Whether a piece of a path is one of its components.
fn piece_counts(chars: &[char], from: usize, to: usize) -> (r: bool)
    requires
        from <= to <= chars.len(),
    ensures
        r == is_component(chars@, (from, to)),
{
    let dot: bool = to - from == 1 && chars[from] == '.';
    proof {
        let text = piece_text(chars@, (from, to));
        if dot {
            assert(text =~= seq!['.']);
        } else if from < to && text == seq!['.'] {
            assert(text.len() == to - from);
            assert(text[0] == chars@[from as int]);
        }
    }
    from < to && !(from > 0 && dot)
}

/// The components of a path.
fn split_path(chars: &[char]) -> (r: Vec<Span>)
    ensures
        r@ == components(chars@),
{
    let n: usize = chars.len();
    let mut r: Vec<Span> = Vec::new();
    let mut start: usize = 0;
    let mut i: usize = 0;
    assert(chars@.take(0) =~= Seq::<char>::empty());
    assert(pieces(chars@.take(0)).drop_last() =~= Seq::<Span>::empty());
    while i < n
        invariant
            start <= i <= n,
            n == chars.len(),
            pieces(chars@.take(i as int)).len() > 0,
            r@ == components_among(chars@, pieces(chars@.take(i as int)).drop_last()),
            pieces(chars@.take(i as int)).last() == (start, i),
        decreases n - i,
    {
        let ghost before = pieces(chars@.take(i as int));
        let ghost next = pieces(chars@.take(i + 1));
        assert(chars@.take(i + 1).drop_last() =~= chars@.take(i as int));
        assert(chars@.take(i + 1).last() == chars@[i as int]);
        if chars[i] == '/' {
            if piece_counts(chars, start, i) {
                r.push((start, i));
            }
            assert(next.drop_last() =~= before);
            start = i + 1;
        } else {
            assert(next.drop_last() =~= before.drop_last());
        }
        i = i + 1;
    }
    assert(chars@.take(n as int) =~= chars@);
    if piece_counts(chars, start, n) {
        r.push((start, n));
    }
    r
}

/// Whether two pieces of texts are the same.
fn same_piece(a: &[char], x: Span, b: &[char], y: Span) -> (r: bool)
    requires
        x.0 <= x.1 <= a.len(),
        y.0 <= y.1 <= b.len(),
    ensures
        r == (piece_text(a@, x) == piece_text(b@, y)),
{
    let ghost left = piece_text(a@, x);
    let ghost right = piece_text(b@, y);
    let len: usize = x.1 - x.0;
    if len != y.1 - y.0 {
        assert(left.len() != right.len());
        return false;
    }
    let mut i: usize = 0;
    while i < len
        invariant
            i <= len,
            len == x.1 - x.0,
            len == y.1 - y.0,
            x.1 <= a.len(),
            y.1 <= b.len(),
            left == piece_text(a@, x),
            right == piece_text(b@, y),
            forall|k: int| 0 <= k < i ==> left[k] == right[k],
        decreases len - i,
    {
        assert(left[i as int] == a@[x.0 + i]);
        assert(right[i as int] == b@[y.0 + i]);
        if a[x.0 + i] != b[y.0 + i] {
            return false;
        }
        i = i + 1;
    }
    assert(left =~= right);
    true
}

/// The path `rel` below the directory `base`.
pub fn path_below(base: &str, rel: &str) -> (r: String)
    ensures
        r@ == directory_prefix(base@) + rel@,
{
    let mut path: Vec<char> = chars_of(base);
    let n: usize = path.len();
    if n > 0 && path[n - 1] != '/' {
        path.push('/');
    }
    let ghost prefix = path@;
    assert(prefix =~= directory_prefix(base@));
    let mut tail: Vec<char> = chars_of(rel);
    path.append(&mut tail);
    text_of(path.as_slice())
}

/// Whether the path `abs` is the directory `base`, or below it.
pub fn lies_below(abs: &str, base: &str) -> (r: bool)
    ensures
        r == is_below(abs@, base@),
{
    let a: Vec<char> = chars_of(abs);
    let b: Vec<char> = chars_of(base);
    if b.len() == 0 {
        return true;
    }
    let a_root: bool = a.len() > 0 && a[0] == '/';
    let b_root: bool = b[0] == '/';
    let a_parts: Vec<Span> = split_path(a.as_slice());
    let b_parts: Vec<Span> = split_path(b.as_slice());
    if a_root != b_root || b_parts.len() > a_parts.len() {
        return false;
    }
    assert(a.len() <= usize::MAX && b.len() <= usize::MAX);
    proof {
        lemma_components(a@);
        lemma_components(b@);
    }
    let mut i: usize = 0;
    while i < b_parts.len()
        invariant
            i <= b_parts.len() <= a_parts.len(),
            a@ == abs@,
            b@ == base@,
            a_parts@ == components(abs@),
            b_parts@ == components(base@),
            forall|k: int| 0 <= k < a_parts.len() ==> (#[trigger] a_parts@[k]).0 < a_parts@[k].1
                <= a.len(),
            forall|k: int| 0 <= k < b_parts.len() ==> (#[trigger] b_parts@[k]).0 < b_parts@[k].1
                <= b.len(),
            forall|k: int| 0 <= k < i ==> same_component(abs@, base@, k),
        decreases b_parts.len() - i,
    {
        let x: Span = a_parts[i];
        let y: Span = b_parts[i];
        assert(a_parts@[i as int] == x && b_parts@[i as int] == y);
        if !same_piece(a.as_slice(), x, b.as_slice(), y) {
            assert(!same_component(abs@, base@, i as int));
            return false;
        }
        i = i + 1;
    }
    true
}

/// The key of the file `abs` in the archive at `base`: its path below `base`, with
/// slashes for separators. It is empty for the archive itself.
pub fn rel_key(abs: &str, base: &str) -> (r: String)
    requires
        is_below(abs@, base@),
    ensures
        key_below(abs@, base@) == Some(r@),
{
    let a: Vec<char> = chars_of(abs);
    let b: Vec<char> = chars_of(base);
    let a_parts: Vec<Span> = split_path(a.as_slice());
    let b_parts: Vec<Span> = split_path(b.as_slice());
    assert(a.len() <= usize::MAX);
    proof {
        lemma_components(a@);
    }
    let n: usize = a_parts.len();
    let end: usize = if n > 0 {
        a_parts[n - 1].1
    } else if a.len() > 0 && a[0] == '/' {
        1
    } else {
        0
    };
    assert(end == path_end(a@));
    let rest: &[char] = if b.len() == 0 {
        slice_subrange(a.as_slice(), 0, end)
    } else if b_parts.len() < n {
        let start: usize = a_parts[b_parts.len()].0;
        assert(components(a@)[b_parts@.len() as int].0 == start);
        slice_subrange(a.as_slice(), start, end)
    } else {
        slice_subrange(a.as_slice(), 0, 0)
    };
    assert(rest@ =~= rest_below(abs@, base@));
    let key: Vec<char> = slashed_chars(rest);
    text_of(key.as_slice())
}

//=============================================================================
// Laws
//=============================================================================

/// A key holds no backslash. Below a directory that is named at all, the key of a path
/// without one does not start with a slash; and a key is empty if, and only if, the path
/// is that of the directory itself.
pub proof fn law_key_is_relative(abs: Seq<char>, base: Seq<char>)
    requires
        abs.len() <= usize::MAX,
        base.len() <= usize::MAX,
        is_below(abs, base),
    ensures
        key_below(abs, base) matches Some(key) && {
            &&& !key.contains('\\')
            &&& base.len() > 0 && !abs.contains('\\') && key.len() > 0 ==> key[0] != '/'
            &&& base.len() > 0 ==> (key.len() == 0 <==> same_path(abs, base))
        },
{
    lemma_components(abs);
    let n = components(base).len() as int;
    if base.len() > 0 && n < components(abs).len() {
        let last = components(abs).len() - 1;
        assert(components(abs)[n].0 < components(abs)[last].1) by {
            if n < last {
                assert(components(abs)[n].1 < components(abs)[last].0);
            }
        }
        let first = abs[components(abs)[n].0 as int];
        assert(abs.contains(first));
        assert(rest_below(abs, base)[0] == first);
    }
}

/// `list` moved `by` places to the right.
spec fn moved(list: Seq<Span>, by: int) -> Seq<Span> {
    list.map_values(|p: Span| ((p.0 + by) as usize, (p.1 + by) as usize))
}

/// The pieces of two texts with a slash in between are those of the one and of the
/// other.
proof fn lemma_pieces_joined(x: Seq<char>, y: Seq<char>)
    requires
        x.len() + 1 + y.len() <= usize::MAX,
    ensures
        pieces(x.push('/') + y) == pieces(x) + moved(pieces(y), x.len() as int + 1),
    decreases y.len(),
{
    let s = x.push('/') + y;
    let by = x.len() as int + 1;
    lemma_pieces(x);
    if y.len() == 0 {
        assert(s.drop_last() =~= x);
        assert(pieces(s) =~= pieces(x) + moved(pieces(y), by));
    } else {
        let init = y.drop_last();
        lemma_pieces_joined(x, init);
        lemma_pieces(init);
        assert(s.drop_last() =~= x.push('/') + init);
        let before = pieces(init);
        if y.last() == '/' {
            assert(pieces(s) =~= pieces(x) + moved(pieces(y), by));
        } else {
            assert(moved(before, by).last() == (
                (before.last().0 + by) as usize,
                (before.last().1 + by) as usize,
            ));
            assert(pieces(s) =~= pieces(x) + moved(pieces(y), by));
        }
    }
}

/// The components among two lists are those among the one and among the other.
proof fn lemma_among_joined(s: Seq<char>, a: Seq<Span>, b: Seq<Span>)
    ensures
        components_among(s, a + b) == components_among(s, a) + components_among(s, b),
    decreases b.len(),
{
    if b.len() == 0 {
        assert(a + b =~= a);
        assert(components_among(s, a) + components_among(s, b) =~= components_among(s, a));
    } else {
        lemma_among_joined(s, a, b.drop_last());
        assert((a + b).drop_last() =~= a + b.drop_last());
        assert(components_among(s, a + b) =~= components_among(s, a) + components_among(s, b));
    }
}

/// What is a component of a path is one of any path that starts with it.
proof fn lemma_among_longer(x: Seq<char>, s: Seq<char>, list: Seq<Span>)
    requires
        x.len() <= s.len(),
        x == s.take(x.len() as int),
        forall|i: int| 0 <= i < list.len() ==> (#[trigger] list[i]).0 <= list[i].1 <= x.len(),
    ensures
        components_among(s, list) == components_among(x, list),
    decreases list.len(),
{
    if list.len() > 0 {
        let init = list.drop_last();
        assert forall|i: int| 0 <= i < init.len() implies (#[trigger] init[i]).0 <= init[i].1
            <= x.len() by {
            assert(init[i] == list[i]);
        }
        lemma_among_longer(x, s, init);
        let p = list[list.len() - 1];
        assert(piece_text(s, p) =~= piece_text(x, p));
    }
}

/// What is a component of a path is one of a path that goes on with it, unless the path
/// starts with `.`.
proof fn lemma_among_moved(s: Seq<char>, y: Seq<char>, by: int, list: Seq<Span>)
    requires
        0 < by,
        by + y.len() == s.len() <= usize::MAX,
        y == s.skip(by),
        forall|i: int|
            0 <= i < list.len() ==> (#[trigger] list[i]).0 <= list[i].1 <= y.len() && !(list[i].0
                == 0 && piece_text(y, list[i]) == seq!['.']),
    ensures
        components_among(s, moved(list, by)) == moved(components_among(y, list), by),
    decreases list.len(),
{
    if list.len() == 0 {
        assert(moved(list, by) =~= Seq::<Span>::empty());
        assert(moved(components_among(y, list), by) =~= Seq::<Span>::empty());
    } else {
        let init = list.drop_last();
        assert forall|i: int| 0 <= i < init.len() implies (#[trigger] init[i]).0 <= init[i].1
            <= y.len() && !(init[i].0 == 0 && piece_text(y, init[i]) == seq!['.']) by {
            assert(init[i] == list[i]);
        }
        lemma_among_moved(s, y, by, init);
        let p = list[list.len() - 1];
        let q = ((p.0 + by) as usize, (p.1 + by) as usize);
        assert(moved(list, by).drop_last() =~= moved(init, by));
        assert(moved(list, by).last() == q);
        assert(piece_text(s, q) =~= piece_text(y, p));
        assert(components_among(s, moved(list, by)) =~= moved(components_among(y, list), by));
    }
}

/// The path does not start with the component `.`.
pub open spec fn starts_plain(s: Seq<char>) -> bool {
    !(s.len() > 0 && s[0] == '.' && (s.len() == 1 || s[1] == '/'))
}

/// The first piece of a path starts where the path does.
proof fn lemma_first_piece(s: Seq<char>)
    requires
        s.len() <= usize::MAX,
    ensures
        pieces(s).len() > 0,
        pieces(s)[0].0 == 0,
        pieces(s).len() > 1 ==> s[pieces(s)[0].1 as int] == '/' && pieces(s)[0].1 < s.len(),
    decreases s.len(),
{
    lemma_pieces(s);
    if s.len() > 0 {
        let init = s.drop_last();
        lemma_first_piece(init);
        lemma_pieces(init);
        let before = pieces(init);
        if before.len() > 1 {
            assert(pieces(s)[0] == before[0]);
            assert(init[before[0].1 as int] == s[before[0].1 as int]);
        } else if s.last() == '/' {
            assert(pieces(s)[0] == before[0]);
            assert(before[0].1 == init.len());
        }
    }
}

/// The components of two texts with a slash in between are those of the one and of the
/// other, unless the other starts with `.`.
proof fn lemma_components_joined(x: Seq<char>, y: Seq<char>)
    requires
        x.len() + 1 + y.len() <= usize::MAX,
        starts_plain(y),
    ensures
        components(x.push('/') + y) == components(x) + moved(components(y), x.len() as int + 1),
{
    let s = x.push('/') + y;
    let by = x.len() as int + 1;
    lemma_pieces_joined(x, y);
    lemma_among_joined(s, pieces(x), moved(pieces(y), by));
    lemma_pieces(x);
    lemma_pieces(y);
    assert(s.take(x.len() as int) =~= x);
    lemma_among_longer(x, s, pieces(x));
    assert(s.skip(by) =~= y);
    assert forall|i: int| 0 <= i < pieces(y).len() implies (#[trigger] pieces(y)[i]).0 <= pieces(
        y,
    )[i].1 <= y.len() && !(pieces(y)[i].0 == 0 && piece_text(y, pieces(y)[i]) == seq!['.']) by {
        let p = pieces(y)[i];
        if p.0 == 0 && piece_text(y, p) == seq!['.'] {
            lemma_first_piece(y);
            assert(piece_text(y, p)[0] == '.');
            assert(piece_text(y, p).len() == 1);
            if i > 0 {
                assert(pieces(y)[0].1 < p.0);
            }
            if pieces(y).len() == 1 {
                assert(p == pieces(y).last());
            }
        }
    }
    lemma_among_moved(s, y, by, pieces(y));
}

/// The empty path has no components.
proof fn lemma_no_components()
    ensures
        components(Seq::<char>::empty()) == Seq::<Span>::empty(),
{
    reveal_with_fuel(components_among, 2);
    let empty = Seq::<char>::empty();
    assert(pieces(empty).drop_last() =~= Seq::<Span>::empty());
    assert(components(empty) =~= Seq::<Span>::empty());
}

/// A directory has the components that it has with a slash behind it.
proof fn lemma_directory_components(base: Seq<char>)
    requires
        base.len() > 0,
        base.len() < usize::MAX,
    ensures
        components(directory_prefix(base)) == components(base),
        rooted(directory_prefix(base)) == rooted(base),
        ({
            let x = if base.last() == '/' {
                base.drop_last()
            } else {
                base
            };
            components(x) == components(base) && directory_prefix(base) == x.push('/')
        }),
{
    let x = if base.last() == '/' {
        base.drop_last()
    } else {
        base
    };
    let empty = Seq::<char>::empty();
    assert(x.push('/') =~= directory_prefix(base));
    assert(x.push('/') + empty =~= x.push('/'));
    lemma_components_joined(x, empty);
    lemma_no_components();
    assert(moved(components(empty), x.len() as int + 1) =~= Seq::<Span>::empty());
    assert(components(x) + Seq::<Span>::empty() =~= components(x));
}

/// The paths name the same file: they have the same components, from the root or not.
pub open spec fn same_path(a: Seq<char>, b: Seq<char>) -> bool {
    &&& rooted(a) == rooted(b)
    &&& components(a).len() == components(b).len()
    &&& forall|i: int| 0 <= i < components(a).len() ==> same_component(a, b, i)
}

/// A relative path in its plain form: from its first component to its last, with none
/// of them `.` at the start.
pub open spec fn is_plain(rel: Seq<char>) -> bool {
    &&& rel.len() > 0
    &&& starts_plain(rel)
    &&& components(rel).len() > 0
    &&& components(rel)[0].0 == 0
    &&& components(rel).last().1 == rel.len()
}

/// What a plain path is below a directory, and which part of it follows the directory.
proof fn lemma_below_joined(base: Seq<char>, rel: Seq<char>)
    requires
        base.len() > 0,
        base.len() + 1 + rel.len() < usize::MAX,
        is_plain(rel),
    ensures
        ({
            let abs = directory_prefix(base) + rel;
            let by = directory_prefix(base).len() as int;
            &&& components(abs) == components(base) + moved(components(rel), by)
            &&& is_below(abs, base)
            &&& rest_below(abs, base) == rel
        }),
{
    let abs = directory_prefix(base) + rel;
    let x = if base.last() == '/' {
        base.drop_last()
    } else {
        base
    };
    lemma_directory_components(base);
    lemma_components_joined(x, rel);
    lemma_components(base);
    lemma_components(rel);
    let by = directory_prefix(base).len() as int;
    let n = components(base).len() as int;
    assert forall|i: int| 0 <= i < n implies same_component(abs, base, i) by {
        assert(components(abs)[i] == components(base)[i]);
        assert(piece_text(abs, components(abs)[i]) =~= piece_text(base, components(base)[i]));
    }
    assert(components(abs)[n] == moved(components(rel), by)[0]);
    assert(components(abs).last() == moved(components(rel), by).last());
    assert(rest_below(abs, base) =~= rel);
}

/// A file at a plain path below an archive has that path as its key, where it holds no
/// backslash.
pub proof fn law_key_of_path_below(base: Seq<char>, rel: Seq<char>)
    requires
        base.len() > 0,
        base.len() + 1 + rel.len() < usize::MAX,
        is_plain(rel),
        !rel.contains('\\'),
    ensures
        key_below(directory_prefix(base) + rel, base) == Some(rel),
{
    lemma_below_joined(base, rel);
    assert forall|i: int| 0 <= i < rel.len() implies rel[i] != '\\' by {
        assert(rel.contains(rel[i]));
    }
    assert(text::slashed(rel) =~= rel);
}

/// What follows the `n` components of a path has the others for its components.
proof fn lemma_rest_components(abs: Seq<char>, n: int)
    requires
        abs.len() < usize::MAX,
        0 <= n < components(abs).len(),
        components(abs)[n].0 > 0,
    ensures
        ({
            let from = components(abs)[n].0 as int;
            let y = abs.skip(from);
            &&& starts_plain(y)
            &&& moved(components(y), from) == components(abs).skip(n)
        }),
{
    let all = components(abs);
    let c = all[n];
    let from = c.0 as int;
    let x = abs.take(from - 1);
    let y = abs.skip(from);
    lemma_component_start(abs, n);
    assert(abs =~= x.push('/') + y);
    lemma_components_joined(x, y);
    lemma_components(abs);
    lemma_components(x);
    lemma_components(y);
    let k = components(x).len() as int;
    if n < k {
        assert(all[n] == components(x)[n]);
    } else if k < n {
        assert(all[k].1 < all[n].0);
        assert(all[k] == moved(components(y), from)[0]);
        assert(components(y)[0].1 <= y.len());
    }
    assert(k == n);
    assert(all.skip(n) =~= moved(components(y), from));
}

/// A component behind the start of a path has a slash before it, and is not `.`.
proof fn lemma_component_start(s: Seq<char>, n: int)
    requires
        s.len() < usize::MAX,
        0 <= n < components(s).len(),
        components(s)[n].0 > 0,
    ensures
        s[components(s)[n].0 - 1] == '/',
        components(s)[n].0 < s.len(),
        starts_plain(s.skip(components(s)[n].0 as int)),
{
    let c = components(s)[n];
    let from = c.0 as int;
    let y = s.skip(from);
    lemma_pieces(s);
    lemma_components_among(s, pieces(s));
    assert(is_component(s, c));
    let at = pieces(s).index_of(c);
    assert(pieces(s)[at] == c);
    if y.len() > 0 && y[0] == '.' && (y.len() == 1 || y[1] == '/') {
        if c.1 > from + 1 {
            assert(s[from + 1] == y[1]);
            assert(s[from + 1] != '/');
        }
        assert(piece_text(s, c) =~= seq!['.']);
    }
}

/// A path has no other components than up to the end of its last.
proof fn lemma_trimmed_components(y: Seq<char>)
    requires
        y.len() < usize::MAX,
        components(y).len() > 0,
    ensures
        components(y.take(components(y).last().1 as int)) == components(y),
{
    let end = components(y).last().1 as int;
    let rest = y.take(end);
    lemma_components(y);
    assert(components(y)[components(y).len() - 1].1 == end);
    if end < y.len() {
        lemma_after_component(y, components(y).len() - 1);
        let z = y.skip(end + 1);
        assert(y =~= rest.push('/') + z);
        lemma_pieces_joined(rest, z);
        let by = rest.len() as int + 1;
        lemma_among_joined(y, pieces(rest), moved(pieces(z), by));
        lemma_pieces(rest);
        assert(y.take(rest.len() as int) =~= rest);
        lemma_among_longer(rest, y, pieces(rest));
        let tail = components_among(y, moved(pieces(z), by));
        assert(components(y) == components(rest) + tail);
        if tail.len() > 0 {
            lemma_components_among(y, moved(pieces(z), by));
            let p = tail[tail.len() - 1];
            assert(p == components(y)[components(y).len() - 1]);
            let j = moved(pieces(z), by).index_of(p);
            assert(moved(pieces(z), by)[j] == p);
            lemma_pieces(z);
            assert(pieces(z)[j].0 <= pieces(z)[j].1 <= z.len());
        }
        assert(components(rest) =~= components(y));
    } else {
        assert(rest =~= y);
    }
}

/// Behind the `n` components of a path with more, the part from the next to the last has
/// the others for its components.
proof fn lemma_rest(abs: Seq<char>, n: int)
    requires
        abs.len() < usize::MAX,
        0 <= n < components(abs).len(),
        components(abs)[n].0 > 0,
    ensures
        ({
            let from = components(abs)[n].0 as int;
            let rest = abs.subrange(from, components(abs).last().1 as int);
            &&& is_plain(rest)
            &&& moved(components(rest), from) == components(abs).skip(n)
        }),
{
    let all = components(abs);
    let from = all[n].0 as int;
    let y = abs.skip(from);
    lemma_components(abs);
    lemma_rest_components(abs, n);
    lemma_components(y);
    let last = all.len() - 1;
    let m = components(y).len() as int;
    assert(all.skip(n).len() == m);
    assert(all.skip(n)[0] == all[n]);
    assert(all.skip(n)[m - 1] == all[last]);
    assert(moved(components(y), from)[0] == all[n]);
    assert(moved(components(y), from)[m - 1] == all[last]);
    lemma_trimmed_components(y);
    let rest = abs.subrange(from, all[last].1 as int);
    assert(rest =~= y.take(components(y).last().1 as int));
    assert(components(y)[0].0 == 0);
    assert(components(y)[0].0 < components(y)[0].1);
    if m > 1 {
        assert(components(y)[0].1 < components(y)[m - 1].0);
    }
    if rest[0] == '.' && (rest.len() == 1 || rest[1] == '/') {
        // The one component would be `.`, or the first would end behind it.
        lemma_components(rest);
        lemma_component_start(abs, n);
        assert(y[0] == '.');
        if rest.len() == 1 && y.len() > 1 {
            assert(m == 1 || m > 1);
            lemma_after_component(y, m - 1);
        }
    }
}

/// Behind a component that is not at the end of a path there is a slash.
proof fn lemma_after_component(s: Seq<char>, i: int)
    requires
        s.len() < usize::MAX,
        0 <= i < components(s).len(),
        components(s)[i].1 < s.len(),
    ensures
        s[components(s)[i].1 as int] == '/',
{
    lemma_pieces(s);
    lemma_components_among(s, pieces(s));
    let c = components(s)[i];
    assert(is_component(s, c));
    let at = pieces(s).index_of(c);
    assert(pieces(s)[at] == c);
    lemma_after_piece(s, at);
}

/// Behind a piece that is not at the end of a path there is a slash.
proof fn lemma_after_piece(s: Seq<char>, i: int)
    requires
        s.len() < usize::MAX,
        0 <= i < pieces(s).len(),
        pieces(s)[i].1 < s.len(),
    ensures
        s[pieces(s)[i].1 as int] == '/',
    decreases s.len(),
{
    lemma_pieces(s);
    if s.len() > 0 {
        let init = s.drop_last();
        lemma_pieces(init);
        let before = pieces(init);
        if i < before.len() {
            assert(before[i].1 <= init.len());
            assert(pieces(s)[i] == before[i]);
            if before[i].1 < init.len() {
                lemma_after_piece(init, i);
                assert(init[before[i].1 as int] == s[before[i].1 as int]);
            } else {
                assert(s.last() == '/');
            }
        }
    }
}

/// The key of a file names it: joined to the archive again, what follows the archive in
/// its path gives a path with the same components.
pub proof fn law_key_joins_to_path(abs: Seq<char>, base: Seq<char>)
    requires
        base.len() > 0,
        abs.len() + base.len() + 1 < usize::MAX,
        is_below(abs, base),
    ensures
        same_path(directory_prefix(base) + rest_below(abs, base), abs),
        key_below(abs, base) == Some(text::slashed(rest_below(abs, base))),
{
    let rest = rest_below(abs, base);
    let joined = directory_prefix(base) + rest;
    let n = components(base).len() as int;
    lemma_directory_components(base);
    lemma_components(base);
    lemma_components(abs);
    if n == components(abs).len() {
        assert(joined =~= directory_prefix(base));
        assert forall|i: int| 0 <= i < n implies same_component(joined, abs, i) by {
            assert(same_component(abs, base, i));
            assert(piece_text(joined, components(base)[i]) =~= piece_text(
                base,
                components(base)[i],
            ));
        }
    } else {
        assert(components(abs)[n].0 > 0) by {
            if n > 0 {
                assert(components(abs)[n - 1].1 < components(abs)[n].0);
            } else {
                lemma_rootless(base);
            }
        }
        lemma_rest(abs, n);
        lemma_below_joined(base, rest);
        assert(components(abs).skip(n).len() == components(rest).len());
        assert forall|i: int| 0 <= i < components(joined).len() implies same_component(
            joined,
            abs,
            i,
        ) by {
            if i < n {
                assert(same_component(abs, base, i));
                assert(same_component(joined, base, i));
            } else {
                lemma_same_component_behind(abs, base, i);
            }
        }
    }
}

/// The components behind the archive are the same in both paths.
proof fn lemma_same_component_behind(abs: Seq<char>, base: Seq<char>, i: int)
    requires
        base.len() > 0,
        abs.len() + base.len() + 1 < usize::MAX,
        components(base).len() <= i < components(abs).len(),
        components(abs)[components(base).len() as int].0 > 0,
    ensures
        same_component(directory_prefix(base) + rest_below(abs, base), abs, i),
{
    let rest = rest_below(abs, base);
    let joined = directory_prefix(base) + rest;
    let n = components(base).len() as int;
    lemma_components(abs);
    lemma_rest(abs, n);
    lemma_below_joined(base, rest);
    lemma_components(rest);
    let from = components(abs)[n].0 as int;
    let by = directory_prefix(base).len() as int;
    assert(moved(components(rest), from).len() == components(abs).skip(n).len());
    assert(components(rest).len() == components(abs).len() - n);
    assert(components(abs).skip(n)[i - n] == components(abs)[i]);
    let p = components(rest)[i - n];
    assert(moved(components(rest), from)[i - n] == components(abs)[i]);
    assert(moved(components(rest), by)[i - n] == components(joined)[i]);
    assert(p.1 <= rest.len());
    assert(piece_text(joined, components(joined)[i]) =~= piece_text(rest, p));
    assert(piece_text(abs, components(abs)[i]) =~= piece_text(rest, p));
}

/// A path without components that is not empty starts at the root.
proof fn lemma_rootless(base: Seq<char>)
    requires
        base.len() > 0,
        base.len() < usize::MAX,
        components(base).len() == 0,
    ensures
        rooted(base),
{
    if !rooted(base) {
        lemma_first_piece(base);
        lemma_pieces(base);
        let p = pieces(base)[0];
        if pieces(base).len() == 1 {
            assert(p == pieces(base).last());
        }
        assert(p.1 > 0);
        assert(is_component(base, p));
        lemma_component_counted(base, pieces(base), 0);
    }
}

/// A component among some pieces is counted.
proof fn lemma_component_counted(s: Seq<char>, list: Seq<Span>, i: int)
    requires
        0 <= i < list.len(),
        is_component(s, list[i]),
    ensures
        components_among(s, list).len() > 0,
    decreases list.len(),
{
    if i < list.len() - 1 {
        assert(list.drop_last()[i] == list[i]);
        lemma_component_counted(s, list.drop_last(), i);
    }
}

/// A name without a slash is one piece.
pub proof fn lemma_one_piece(s: Seq<char>)
    requires
        s.len() <= usize::MAX,
        !s.contains('/'),
    ensures
        pieces(s) == seq![(0usize, s.len() as usize)],
    decreases s.len(),
{
    if s.len() > 0 {
        let init = s.drop_last();
        assert(!init.contains('/')) by {
            if init.contains('/') {
                assert(s[init.index_of('/')] == '/');
            }
        }
        lemma_one_piece(init);
        assert(s.contains(s[s.len() - 1]));
        assert(pieces(s) =~= seq![(0usize, s.len() as usize)]);
    }
}

/// A name other than `.` is a path of one component.
pub proof fn lemma_one_component(s: Seq<char>)
    requires
        1 < s.len() <= usize::MAX,
        !s.contains('/'),
    ensures
        components(s) == seq![(0usize, s.len() as usize)],
{
    lemma_one_piece(s);
    reveal_with_fuel(components_among, 2);
    let p = (0usize, s.len() as usize);
    assert(seq![p].drop_last() =~= Seq::<Span>::empty());
    assert(components(s) =~= seq![p]);
}

/// Two names with a slash in between are a plain path.
pub proof fn lemma_two_names(a: Seq<char>, b: Seq<char>)
    requires
        1 < a.len(),
        1 < b.len(),
        a.len() + 1 + b.len() <= usize::MAX,
        !a.contains('/'),
        !b.contains('/'),
    ensures
        is_plain(a.push('/') + b),
{
    let s = a.push('/') + b;
    lemma_one_component(a);
    lemma_one_component(b);
    assert(b.contains(b[1]));
    assert(a.contains(a[1]));
    lemma_components_joined(a, b);
    assert(moved(components(b), a.len() as int + 1).last().1 == s.len());
    assert(s[1] == a[1]);
}

/// The path does not end with a slash, nor with a `.` behind one.
pub open spec fn ends_plain(s: Seq<char>) -> bool {
    s.len() > 0 && s.last() != '/' && !(s.last() == '.' && s.len() > 1 && s[s.len() - 2] == '/')
}

/// The first of some pieces is the first component, where it is one.
proof fn lemma_first_component(s: Seq<char>, list: Seq<Span>)
    requires
        list.len() > 0,
        is_component(s, list[0]),
    ensures
        components_among(s, list).len() > 0,
        components_among(s, list)[0] == list[0],
    decreases list.len(),
{
    if list.len() > 1 {
        lemma_first_component(s, list.drop_last());
    } else {
        reveal_with_fuel(components_among, 2);
        assert(list.drop_last() =~= Seq::<Span>::empty());
    }
}

/// A path that ends plain ends with a component.
proof fn lemma_ends_with_component(s: Seq<char>)
    requires
        s.len() <= usize::MAX,
        ends_plain(s),
    ensures
        is_component(s, pieces(s).last()),
        pieces(s).last().1 == s.len(),
{
    lemma_pieces(s);
    let p = pieces(s)[pieces(s).len() - 1];
    if p.0 == p.1 {
        assert(s[p.0 - 1] == '/');
    }
    if p.0 > 0 && piece_text(s, p) == seq!['.'] {
        assert(piece_text(s, p).len() == 1);
        assert(piece_text(s, p)[0] == s[p.0 as int]);
        assert(s[p.0 - 1] == '/');
    }
}

/// The key of a file below an archive is what follows the archive and a slash in its path:
/// whatever that is, as long as it neither starts nor ends with a slash or a lone `.`, and
/// holds no backslash.
pub proof fn law_key_is_what_follows(base: Seq<char>, rel: Seq<char>)
    requires
        base.len() > 0,
        base.len() + 1 + rel.len() < usize::MAX,
        rel.len() > 0,
        rel[0] != '/',
        starts_plain(rel),
        ends_plain(rel),
        !rel.contains('\\'),
    ensures
        base.last() != '/' ==> key_below(base.push('/') + rel, base) == Some(rel),
        base.last() == '/' ==> key_below(base + rel, base) == Some(rel),
{
    lemma_pieces(rel);
    lemma_first_piece(rel);
    lemma_ends_with_component(rel);
    let first = pieces(rel)[0];
    if pieces(rel).len() == 1 {
        assert(first == pieces(rel).last());
    }
    assert(is_component(rel, first));
    lemma_first_component(rel, pieces(rel));
    law_key_of_path_below(base, rel);
}

/// The archive itself has the empty key.
pub proof fn law_key_of_archive_itself(base: Seq<char>)
    requires
        base.len() > 0,
    ensures
        key_below(base, base) == Some(Seq::<char>::empty()),
{
    assert(text::slashed(Seq::<char>::empty()) =~= Seq::<char>::empty());
}

/// The pieces of a longer path are those of the shorter but for the last, which may go on.
proof fn lemma_pieces_longer(x: Seq<char>, y: Seq<char>)
    requires
        x.len() + y.len() <= usize::MAX,
    ensures
        ({
            let p = pieces(x);
            let q = pieces(x + y);
            let k = p.len() - 1;
            &&& p.len() > 0
            &&& q.len() >= p.len()
            &&& q.take(k) == p.drop_last()
            &&& q[k].0 == p[k].0
            &&& q[k].1 >= x.len()
            &&& y.len() > 0 && y[0] != '/' ==> q[k].1 > x.len()
        }),
    decreases y.len(),
{
    lemma_pieces(x);
    let p = pieces(x);
    let q = pieces(x + y);
    let k = p.len() - 1;
    if y.len() == 0 {
        assert(x + y =~= x);
        assert(q.take(k) =~= p.drop_last());
    } else {
        let init = y.drop_last();
        lemma_pieces_longer(x, init);
        assert((x + y).drop_last() =~= x + init);
        lemma_pieces(x + init);
        let before = pieces(x + init);
        assert(q.take(k) =~= before.take(k));
        if init.len() > 0 {
            assert(init[0] == y[0]);
        }
    }
}

/// A path that goes on from the name of an archive without a slash is not below it: a
/// prefix counts only by whole components.
pub proof fn law_sibling_is_not_below(base: Seq<char>, tail: Seq<char>)
    requires
        base.len() + tail.len() < usize::MAX,
        ends_plain(base),
        tail.len() > 0,
        tail[0] != '/',
    ensures
        !is_below(base + tail, base),
        key_below(base + tail, base) is None,
{
    let s = base + tail;
    let p = pieces(base);
    let q = pieces(s);
    let k = p.len() - 1;
    lemma_pieces(base);
    lemma_pieces(s);
    lemma_pieces_longer(base, tail);
    lemma_ends_with_component(base);
    let longer = q[k];
    assert(is_component(s, longer)) by {
        if piece_text(s, longer) == seq!['.'] {
            assert(piece_text(s, longer).len() == 1);
        }
    }
    let short = p.drop_last();
    assert forall|i: int| 0 <= i < short.len() implies (#[trigger] short[i]).0 <= short[i].1
        <= base.len() by {
        assert(p[i].0 <= p[i].1 <= base.len());
    }
    assert(s.take(base.len() as int) =~= base);
    lemma_among_longer(base, s, short);
    let m = components_among(base, short).len() as int;
    assert(q =~= short + q.skip(k)) by {
        assert(q.take(k) + q.skip(k) =~= q);
    }
    lemma_among_joined(s, short, q.skip(k));
    assert(q.skip(k)[0] == longer);
    lemma_first_component(s, q.skip(k));
    assert(components(s)[m] == longer);
    assert(components(base)[m] == p[k]);
    assert(piece_text(s, longer).len() != piece_text(base, p[k]).len());
    assert(!same_component(s, base, m));
}

} // verus!
