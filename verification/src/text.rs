//! Text as sequences of characters: comparison, search and lists.

use vstd::prelude::*;
use vstd::slice::slice_subrange;

verus! {

//=============================================================================
// Model
//=============================================================================

/// `pat` occurs in `s` at position `i`.
pub open spec fn occurs_at(s: Seq<char>, pat: Seq<char>, i: int) -> bool {
    0 <= i <= s.len() - pat.len() && s.subrange(i, i + pat.len()) == pat
}

/// `pat` occurs in `s`.
pub open spec fn contains_text(s: Seq<char>, pat: Seq<char>) -> bool {
    exists|i: int| occurs_at(s, pat, i)
}

/// `s` with every backslash turned into a slash.
pub open spec fn slashed(s: Seq<char>) -> Seq<char> {
    Seq::new(s.len(), |i: int| if s[i] == '\\' { '/' } else { s[i] })
}

/// The bytes of a text of ASCII characters, one for each.
pub open spec fn ascii_bytes(s: Seq<char>) -> Seq<u8> {
    Seq::new(s.len(), |i: int| s[i] as u8)
}

/// `a` comes before `b`, or is `b`, in the order of their code points.
pub open spec fn text_le(a: Seq<char>, b: Seq<char>) -> bool
    decreases a.len(),
{
    if a.len() == 0 {
        true
    } else if b.len() == 0 {
        false
    } else if a[0] == b[0] {
        text_le(a.drop_first(), b.drop_first())
    } else {
        (a[0] as int) < (b[0] as int)
    }
}

/// `c` has the `White_Space` property of Unicode.
pub open spec fn white_space(c: char) -> bool {
    let n = c as int;
    ||| 0x9 <= n <= 0xd
    ||| n == 0x20 || n == 0x85 || n == 0xa0 || n == 0x1680
    ||| 0x2000 <= n <= 0x200a
    ||| n == 0x2028 || n == 0x2029 || n == 0x202f || n == 0x205f || n == 0x3000
}

/// `s` without the white space that it starts with.
pub open spec fn without_leading(s: Seq<char>) -> Seq<char>
    decreases s.len(),
{
    if s.len() > 0 && white_space(s[0]) {
        without_leading(s.drop_first())
    } else {
        s
    }
}

/// `s` without the white space that it ends in.
pub open spec fn without_trailing(s: Seq<char>) -> Seq<char>
    decreases s.len(),
{
    if s.len() > 0 && white_space(s.last()) {
        without_trailing(s.drop_last())
    } else {
        s
    }
}

/// `s` without the white space around it.
pub open spec fn trimmed(s: Seq<char>) -> Seq<char> {
    without_trailing(without_leading(s))
}

/// The parts of `s` between its commas.
pub open spec fn comma_parts(s: Seq<char>) -> Seq<Seq<char>>
    decreases s.len(),
{
    if s.len() == 0 {
        seq![Seq::empty()]
    } else {
        let before = comma_parts(s.drop_last());
        if s.last() == ',' {
            before.push(Seq::empty())
        } else {
            before.drop_last().push(before.last().push(s.last()))
        }
    }
}

/// Each of `parts` without the white space around it.
pub open spec fn all_trimmed(parts: Seq<Seq<char>>) -> Seq<Seq<char>> {
    parts.map_values(|p: Seq<char>| trimmed(p))
}

/// The texts of a list.
pub open spec fn texts(list: Seq<String>) -> Seq<Seq<char>> {
    list.map_values(|s: String| s@)
}

//=============================================================================
// Functions
//=============================================================================

/// Appends a character, as `String::push` documents.
pub assume_specification[ String::push ](s: &mut String, c: char)
    ensures
        final(s)@ == old(s)@.push(c),
;

/// Whether `c` has the `White_Space` property of Unicode.
pub fn is_white_space(c: char) -> (r: bool)
    ensures
        r == white_space(c),
{
    ('\u{9}' <= c && c <= '\u{d}') || c == ' ' || c == '\u{85}' || c == '\u{a0}' || c == '\u{1680}'
        || ('\u{2000}' <= c && c <= '\u{200a}') || c == '\u{2028}' || c == '\u{2029}' || c
        == '\u{202f}' || c == '\u{205f}' || c == '\u{3000}'
}

/// Whether two texts are the same.
pub fn same_text(a: &str, b: &str) -> (r: bool)
    ensures
        r == (a@ == b@),
{
    a.to_owned() == b.to_owned()
}

/// The characters of a text.
pub fn chars_of(s: &str) -> (r: Vec<char>)
    ensures
        r@ == s@,
{
    let mut r: Vec<char> = Vec::new();
    for c in it: s.chars()
        invariant
            r@ == it.seq().take(it.index() as int),
    {
        r.push(c);
        assert(r@ == it.seq().take(it.index() as int + 1));
    }
    r
}

/// The text made of these characters.
pub fn text_of(chars: &[char]) -> (r: String)
    ensures
        r@ == chars@,
{
    let mut r: String = String::new();
    let mut i: usize = 0;
    while i < chars.len()
        invariant
            i <= chars.len(),
            r@ == chars@.take(i as int),
        decreases chars.len() - i,
    {
        r.push(chars[i]);
        assert(r@ =~= chars@.take(i + 1));
        i = i + 1;
    }
    r
}

/// The bytes of a text of ASCII characters, one for each.
pub fn ascii(s: &str) -> (r: Vec<u8>)
    ensures
        r@ == ascii_bytes(s@),
{
    let chars: Vec<char> = chars_of(s);
    let mut r: Vec<u8> = Vec::new();
    let mut i: usize = 0;
    while i < chars.len()
        invariant
            i <= chars.len(),
            chars@ == s@,
            r@ == ascii_bytes(s@).take(i as int),
        decreases chars.len() - i,
    {
        r.push(chars[i] as u8);
        assert(r@ =~= ascii_bytes(s@).take(i + 1));
        i = i + 1;
    }
    r
}

/// Whether `pat` occurs in `s` at position `at`.
fn chars_match_at(s: &[char], pat: &[char], at: usize) -> (r: bool)
    requires
        at + pat.len() <= s.len(),
    ensures
        r == occurs_at(s@, pat@, at as int),
{
    let mut i: usize = 0;
    while i < pat.len()
        invariant
            i <= pat.len(),
            at + pat.len() <= s.len(),
            forall|k: int| 0 <= k < i ==> s@[at + k] == pat@[k],
        decreases pat.len() - i,
    {
        if s[at + i] != pat[i] {
            assert(s@.subrange(at as int, at + pat.len())[i as int] != pat@[i as int]);
            return false;
        }
        i = i + 1;
    }
    assert(s@.subrange(at as int, at + pat.len()) =~= pat@);
    true
}

/// Whether the characters `pat` occur in `s`.
fn chars_contain(s: &[char], pat: &[char]) -> (r: bool)
    ensures
        r == contains_text(s@, pat@),
{
    if pat.len() > s.len() {
        return false;
    }
    let last: usize = s.len() - pat.len();
    let mut i: usize = 0;
    loop
        invariant
            i <= last,
            last == s.len() - pat.len(),
            forall|k: int| 0 <= k < i ==> !occurs_at(s@, pat@, k),
        decreases last - i,
    {
        if chars_match_at(s, pat, i) {
            return true;
        }
        if i == last {
            return false;
        }
        i = i + 1;
    }
}

/// Whether `pat` occurs in `s`.
pub fn has_text(s: &str, pat: &str) -> (r: bool)
    ensures
        r == contains_text(s@, pat@),
{
    let s_chars: Vec<char> = chars_of(s);
    let pat_chars: Vec<char> = chars_of(pat);
    chars_contain(s_chars.as_slice(), pat_chars.as_slice())
}

/// Turns every backslash of `chars` into a slash.
pub(crate) fn slashed_chars(chars: &[char]) -> (r: Vec<char>)
    ensures
        r@ == slashed(chars@),
{
    let mut r: Vec<char> = Vec::new();
    let mut i: usize = 0;
    while i < chars.len()
        invariant
            i <= chars.len(),
            r@ == slashed(chars@).take(i as int),
        decreases chars.len() - i,
    {
        if chars[i] == '\\' {
            r.push('/');
        } else {
            r.push(chars[i]);
        }
        assert(r@ =~= slashed(chars@).take(i + 1));
        i = i + 1;
    }
    r
}

/// Whether `pat` occurs in `s` once its backslashes are slashes.
pub fn has_text_slashed(s: &str, pat: &str) -> (r: bool)
    ensures
        r == contains_text(slashed(s@), pat@),
{
    let s_chars: Vec<char> = chars_of(s);
    let s_slashed: Vec<char> = slashed_chars(s_chars.as_slice());
    let pat_chars: Vec<char> = chars_of(pat);
    chars_contain(s_slashed.as_slice(), pat_chars.as_slice())
}

/// Whether `a` is at most `b` in the order of their code points.
pub fn text_at_most(a: &str, b: &str) -> (r: bool)
    ensures
        r == text_le(a@, b@),
{
    let a_chars: Vec<char> = chars_of(a);
    let b_chars: Vec<char> = chars_of(b);
    let mut i: usize = 0;
    assert(a@.skip(0) =~= a@);
    assert(b@.skip(0) =~= b@);
    loop
        invariant
            a_chars@ == a@,
            b_chars@ == b@,
            i <= a_chars.len(),
            i <= b_chars.len(),
            text_le(a@, b@) == text_le(a@.skip(i as int), b@.skip(i as int)),
        decreases a_chars.len() - i,
    {
        if i == a_chars.len() {
            return true;
        }
        if i == b_chars.len() {
            return false;
        }
        let c: char = a_chars[i];
        let d: char = b_chars[i];
        if c != d {
            return c < d;
        }
        assert(a@.skip(i as int).drop_first() =~= a@.skip(i + 1));
        assert(b@.skip(i as int).drop_first() =~= b@.skip(i + 1));
        i = i + 1;
    }
}

/// The characters of `chars` without the white space around them, as a text.
fn trim_chars(chars: &[char]) -> (r: String)
    ensures
        r@ == trimmed(chars@),
{
    let n: usize = chars.len();
    let mut start: usize = 0;
    assert(chars@.skip(0) =~= chars@);
    while start < n && is_white_space(chars[start])
        invariant
            start <= n,
            n == chars.len(),
            without_leading(chars@) == without_leading(chars@.skip(start as int)),
        decreases n - start,
    {
        assert(chars@.skip(start as int).drop_first() =~= chars@.skip(start + 1));
        start = start + 1;
    }
    let ghost rest = chars@.skip(start as int);
    assert(without_leading(chars@) == rest);
    let mut end: usize = n;
    assert(rest =~= chars@.subrange(start as int, end as int));
    while start < end && is_white_space(chars[end - 1])
        invariant
            start <= end <= n,
            n == chars.len(),
            without_trailing(rest) == without_trailing(
                chars@.subrange(start as int, end as int),
            ),
        decreases end - start,
    {
        assert(chars@.subrange(start as int, end as int).drop_last() =~= chars@.subrange(
            start as int,
            end - 1,
        ));
        end = end - 1;
    }
    let kept: &[char] = slice_subrange(chars, start, end);
    text_of(kept)
}

/// The parts of `s` between its commas, each without the white space around it.
pub fn comma_list(s: &str) -> (r: Vec<String>)
    ensures
        texts(r@) == all_trimmed(comma_parts(s@)),
{
    let chars: Vec<char> = chars_of(s);
    let n: usize = chars.len();
    let mut r: Vec<String> = Vec::new();
    let mut start: usize = 0;
    let mut i: usize = 0;
    assert(chars@.take(0) =~= Seq::<char>::empty());
    assert(comma_parts(chars@.take(0)).drop_last() =~= Seq::<Seq<char>>::empty());
    assert(texts(r@) =~= all_trimmed(Seq::<Seq<char>>::empty()));
    assert(chars@.subrange(0, 0) =~= Seq::<char>::empty());
    while i < n
        invariant
            start <= i <= n,
            n == chars.len(),
            comma_parts(chars@.take(i as int)).len() > 0,
            texts(r@) == all_trimmed(comma_parts(chars@.take(i as int)).drop_last()),
            comma_parts(chars@.take(i as int)).last() == chars@.subrange(start as int, i as int),
        decreases n - i,
    {
        let ghost parts = comma_parts(chars@.take(i as int));
        let ghost next = comma_parts(chars@.take(i + 1));
        assert(chars@.take(i + 1).drop_last() =~= chars@.take(i as int));
        assert(chars@.take(i + 1).last() == chars@[i as int]);
        if chars[i] == ',' {
            let part: &[char] = slice_subrange(chars.as_slice(), start, i);
            let ghost before = texts(r@);
            r.push(trim_chars(part));
            proof {
                assert(texts(r@) =~= before.push(trimmed(parts.last())));
                assert(next.drop_last() =~= parts);
                assert(all_trimmed(parts) =~= all_trimmed(parts.drop_last()).push(
                    trimmed(parts.last()),
                ));
                assert(chars@.subrange(i + 1, i + 1) =~= Seq::<char>::empty());
            }
            start = i + 1;
        } else {
            assert(next.drop_last() =~= parts.drop_last());
            assert(next.last() =~= chars@.subrange(start as int, i + 1));
        }
        i = i + 1;
    }
    assert(chars@.take(n as int) =~= s@);
    let part: &[char] = slice_subrange(chars.as_slice(), start, n);
    let ghost before = texts(r@);
    let ghost parts = comma_parts(s@);
    r.push(trim_chars(part));
    proof {
        assert(texts(r@) =~= before.push(trimmed(parts.last())));
        assert(all_trimmed(parts) =~= all_trimmed(parts.drop_last()).push(trimmed(parts.last())));
    }
    r
}

//=============================================================================
// Laws
//=============================================================================

/// The order of texts is reflexive.
pub proof fn law_text_le_reflexive(a: Seq<char>)
    ensures
        text_le(a, a),
    decreases a.len(),
{
    if a.len() > 0 {
        law_text_le_reflexive(a.drop_first());
    }
}

/// Of two texts one is at most the other, and both hold only of equal texts.
pub proof fn law_text_le_total(a: Seq<char>, b: Seq<char>)
    ensures
        text_le(a, b) || text_le(b, a),
        text_le(a, b) && text_le(b, a) ==> a == b,
    decreases a.len(),
{
    if a.len() > 0 && b.len() > 0 {
        law_text_le_total(a.drop_first(), b.drop_first());
        if a[0] == b[0] && a.drop_first() == b.drop_first() {
            assert(a =~= seq![a[0]] + a.drop_first());
            assert(b =~= seq![b[0]] + b.drop_first());
        }
    } else if a.len() == 0 && b.len() == 0 {
        assert(a =~= b);
    }
}

/// The order of texts is transitive.
pub proof fn law_text_le_transitive(a: Seq<char>, b: Seq<char>, c: Seq<char>)
    requires
        text_le(a, b),
        text_le(b, c),
    ensures
        text_le(a, c),
    decreases a.len(),
{
    if a.len() > 0 && b.len() > 0 && c.len() > 0 {
        if a[0] == b[0] && b[0] == c[0] {
            law_text_le_transitive(a.drop_first(), b.drop_first(), c.drop_first());
        }
    }
}

/// A text holds another if, and only if, it is made of something, the other, and
/// something.
pub proof fn law_contains_text(s: Seq<char>, pat: Seq<char>)
    ensures
        contains_text(s, pat) <==> exists|a: Seq<char>, c: Seq<char>| s == #[trigger] ((a + pat) + c),
{
    if contains_text(s, pat) {
        let i = choose|i: int| occurs_at(s, pat, i);
        let a = s.take(i);
        let c = s.skip(i + pat.len());
        assert(s =~= (a + pat) + c) by {
            assert forall|k: int| 0 <= k < pat.len() implies s[i + k] == pat[k] by {
                assert(s.subrange(i, i + pat.len())[k] == pat[k]);
            }
        }
    }
    if exists|a: Seq<char>, c: Seq<char>| s == #[trigger] ((a + pat) + c) {
        let (a, c) = choose|a: Seq<char>, c: Seq<char>| s == #[trigger] ((a + pat) + c);
        assert(s.subrange(a.len() as int, (a.len() + pat.len()) as int) =~= pat);
        assert(occurs_at(s, pat, a.len() as int));
    }
}

/// Backslashes are turned into slashes, and nothing else is changed.
pub proof fn law_slashed(s: Seq<char>, i: int)
    requires
        0 <= i < s.len(),
    ensures
        slashed(s).len() == s.len(),
        s[i] == '\\' ==> slashed(s)[i] == '/',
        s[i] != '\\' ==> slashed(s)[i] == s[i],
{
}

/// The order of texts is that of a dictionary over code points: the first difference
/// decides, and a text comes before those that go on from it.
pub proof fn law_text_le_decides(
    start: Seq<char>,
    x: char,
    y: char,
    a: Seq<char>,
    c: Seq<char>,
)
    requires
        (x as int) < (y as int),
    ensures
        text_le(start.push(x) + a, start.push(y) + c),
        !text_le(start.push(y) + c, start.push(x) + a),
        text_le(start, start.push(x) + a),
        !text_le(start.push(x) + a, start),
    decreases start.len(),
{
    let left = start.push(x) + a;
    let right = start.push(y) + c;
    if start.len() > 0 {
        let rest = start.drop_first();
        law_text_le_decides(rest, x, y, a, c);
        assert(left.drop_first() =~= rest.push(x) + a);
        assert(right.drop_first() =~= rest.push(y) + c);
        assert(left[0] == start[0] && right[0] == start[0]);
    } else {
        assert(left[0] == x && right[0] == y);
    }
}

/// Every character is white space.
pub open spec fn all_white(s: Seq<char>) -> bool {
    forall|i: int| 0 <= i < s.len() ==> white_space(#[trigger] s[i])
}

/// Trimming takes white space away at both ends and nothing else: what is left neither
/// starts nor ends with any.
pub proof fn law_trimmed(s: Seq<char>)
    ensures
        exists|a: Seq<char>, c: Seq<char>|
            s == #[trigger] ((a + trimmed(s)) + c) && all_white(a) && all_white(c),
        trimmed(s).len() > 0 ==> !white_space(trimmed(s)[0]) && !white_space(trimmed(s).last()),
{
    let a = lemma_leading(s);
    let rest = without_leading(s);
    let c = lemma_trailing(rest);
    let t = trimmed(s);
    assert(s =~= (a + t) + c);
    if t.len() > 0 {
        assert(t[0] == rest[0]);
    }
}

proof fn lemma_leading(s: Seq<char>) -> (a: Seq<char>)
    ensures
        s == a + without_leading(s),
        all_white(a),
        without_leading(s).len() > 0 ==> !white_space(without_leading(s)[0]),
    decreases s.len(),
{
    if s.len() > 0 && white_space(s[0]) {
        let before = lemma_leading(s.drop_first());
        let a = seq![s[0]] + before;
        assert(s =~= seq![s[0]] + s.drop_first());
        assert(s =~= a + without_leading(s));
        a
    } else {
        assert(s =~= Seq::<char>::empty() + s);
        Seq::empty()
    }
}

proof fn lemma_trailing(s: Seq<char>) -> (c: Seq<char>)
    ensures
        s == without_trailing(s) + c,
        all_white(c),
        without_trailing(s).len() > 0 ==> !white_space(without_trailing(s).last()),
    decreases s.len(),
{
    if s.len() > 0 && white_space(s.last()) {
        let before = lemma_trailing(s.drop_last());
        let c = before.push(s.last());
        assert(s =~= s.drop_last().push(s.last()));
        assert(s =~= without_trailing(s) + c);
        c
    } else {
        assert(s =~= s + Seq::<char>::empty());
        Seq::empty()
    }
}

/// The parts with commas in between.
pub open spec fn joined(parts: Seq<Seq<char>>) -> Seq<char>
    decreases parts.len(),
{
    if parts.len() == 0 {
        Seq::empty()
    } else if parts.len() == 1 {
        parts[0]
    } else {
        joined(parts.drop_last()).push(',') + parts.last()
    }
}

/// The parts between the commas of a text hold no comma, and joined by commas again they
/// are the text.
pub proof fn law_comma_parts(s: Seq<char>, i: int)
    ensures
        comma_parts(s).len() > 0,
        joined(comma_parts(s)) == s,
        0 <= i < comma_parts(s).len() ==> !comma_parts(s)[i].contains(','),
    decreases s.len(),
{
    let parts = comma_parts(s);
    if s.len() == 0 {
        assert(joined(parts) =~= s);
    } else {
        let init = s.drop_last();
        let before = comma_parts(init);
        law_comma_parts(init, i);
        law_comma_parts(init, before.len() - 1);
        assert(s =~= init.push(s.last()));
        if s.last() == ',' {
            assert(parts.drop_last() =~= before);
            assert(joined(parts) =~= init.push(',') + Seq::<char>::empty());
            assert(joined(parts) =~= s);
        } else {
            let last = before.last().push(s.last());
            assert(parts.last() == last);
            assert(!last.contains(',')) by {
                if last.contains(',') {
                    let k = last.index_of(',');
                    if k < before.last().len() {
                        assert(before.last()[k] == ',');
                    }
                }
            }
            if before.len() == 1 {
                assert(joined(parts) =~= s);
            } else {
                assert(parts.drop_last() =~= before.drop_last());
                assert(joined(parts) =~= s);
            }
            if 0 <= i < parts.len() - 1 {
                assert(parts[i] == before[i]);
            }
        }
    }
}

/// Text of ASCII characters is one byte for each.
pub proof fn law_ascii_bytes(s: Seq<char>, i: int, c: char)
    requires
        0 <= i < s.len(),
        s[i] == c,
        (c as int) < 128,
    ensures
        ascii_bytes(s).len() == s.len(),
        ascii_bytes(s)[i] as int == c as int,
{
}

/// A list of texts is seen as the text of each.
pub proof fn law_texts(list: Seq<String>, i: int)
    requires
        0 <= i < list.len(),
    ensures
        texts(list).len() == list.len(),
        texts(list)[i] == list[i]@,
{
}

/// Trimming a list trims each of its parts.
pub proof fn law_all_trimmed(parts: Seq<Seq<char>>, i: int)
    requires
        0 <= i < parts.len(),
    ensures
        all_trimmed(parts).len() == parts.len(),
        all_trimmed(parts)[i] == trimmed(parts[i]),
{
}

} // verus!
