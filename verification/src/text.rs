//! Characters and strings: whitespace, tokens and the small helpers that the
//! attribute parsers share.

use vstd::prelude::*;
use vstd::std_specs::iter::IteratorSpec;

verus! {

/// `String::push` appends one character at the end of the string.
pub assume_specification[ String::push ](s: &mut String, c: char)
    ensures
        final(s)@ == old(s)@.push(c),
;

/// The characters with the Unicode property `White_Space`.
pub open spec fn is_whitespace(c: char) -> bool {
    let u = c as u32;
    (0x09 <= u && u <= 0x0D) || u == 0x20 || u == 0x85 || u == 0xA0 || u == 0x1680 || (0x2000 <= u
        && u <= 0x200A) || u == 0x2028 || u == 0x2029 || u == 0x202F || u == 0x205F || u == 0x3000
}

/// A text is blank when trimming whitespace from it leaves nothing.
pub open spec fn is_blank(s: Seq<char>) -> bool {
    forall|i: int| 0 <= i < s.len() ==> is_whitespace(#[trigger] s[i])
}

/// The tokens of `s` that follow once `current` has been read as the start of
/// a token: whitespace ends a token, and an empty token is never emitted.
pub open spec fn tokens_after(s: Seq<char>, current: Seq<char>) -> Seq<Seq<char>>
    decreases s.len(),
{
    if s.len() == 0 {
        if current.len() > 0 {
            seq![current]
        } else {
            Seq::empty()
        }
    } else if is_whitespace(s[0]) {
        if current.len() > 0 {
            seq![current] + tokens_after(s.drop_first(), Seq::empty())
        } else {
            tokens_after(s.drop_first(), Seq::empty())
        }
    } else {
        tokens_after(s.drop_first(), current.push(s[0]))
    }
}

/// The maximal whitespace-free runs of `s`, in order.
pub open spec fn tokens(s: Seq<char>) -> Seq<Seq<char>> {
    tokens_after(s, Seq::empty())
}

/// A word: at least one character, none of them whitespace.
pub open spec fn is_word(w: Seq<char>) -> bool {
    w.len() > 0 && forall|i: int| 0 <= i < w.len() ==> !is_whitespace(#[trigger] w[i])
}

/// Characters that are no whitespace only lengthen the token being read.
pub proof fn lemma_tokens_after_word(w: Seq<char>, s: Seq<char>, current: Seq<char>)
    requires
        forall|i: int| 0 <= i < w.len() ==> !is_whitespace(#[trigger] w[i]),
    ensures
        tokens_after(w + s, current) == tokens_after(s, current + w),
    decreases w.len(),
{
    if w.len() == 0 {
        assert(w + s =~= s);
        assert(current + w =~= current);
    } else {
        let t = w + s;
        assert(t[0] == w[0]);
        assert(t.drop_first() =~= w.drop_first() + s);
        assert forall|i: int| 0 <= i < w.drop_first().len() implies !is_whitespace(
            #[trigger] w.drop_first()[i],
        ) by {
            assert(w.drop_first()[i] == w[i + 1]);
        }
        lemma_tokens_after_word(w.drop_first(), s, current.push(w[0]));
        assert(current.push(w[0]) + w.drop_first() =~= current + w);
    }
}

/// A word is its own single token, and a word before a space is the first
/// token of the whole.
pub proof fn lemma_tokens_of_joined(w: Seq<char>, rest: Seq<char>)
    requires
        is_word(w),
    ensures
        tokens(w) == seq![w],
        tokens(w + seq![' '] + rest) == seq![w] + tokens(rest),
{
    let empty = Seq::<char>::empty();
    lemma_tokens_after_word(w, empty, empty);
    assert(w + empty =~= w);
    assert(empty + w =~= w);
    let t = seq![' '] + rest;
    lemma_tokens_after_word(w, t, empty);
    assert(w + t =~= w + seq![' '] + rest);
    assert(t[0] == ' ');
    assert(t.drop_first() =~= rest);
}

/// Every token is a word.
pub proof fn lemma_tokens_are_words(s: Seq<char>, current: Seq<char>)
    requires
        forall|i: int| 0 <= i < current.len() ==> !is_whitespace(#[trigger] current[i]),
    ensures
        forall|k: int|
            0 <= k < tokens_after(s, current).len() ==> is_word(#[trigger] tokens_after(s, current)[k]),
    decreases s.len(),
{
    let out = tokens_after(s, current);
    assert forall|k: int| 0 <= k < out.len() implies is_word(#[trigger] out[k]) by {
        if s.len() == 0 {
            assert(is_word(current));
            assert(out[k] == current);
        } else if is_whitespace(s[0]) {
            let rest = tokens_after(s.drop_first(), Seq::empty());
            lemma_tokens_are_words(s.drop_first(), Seq::empty());
            if current.len() > 0 {
                assert(is_word(current));
                assert(out == seq![current] + rest);
                if k > 0 {
                    assert(out[k] == rest[k - 1]);
                } else {
                    assert(out[k] == current);
                }
            } else {
                assert(out == rest);
            }
        } else {
            let next = current.push(s[0]);
            assert forall|i: int| 0 <= i < next.len() implies !is_whitespace(#[trigger] next[i]) by {
                if i < current.len() {
                    assert(next[i] == current[i]);
                }
            }
            lemma_tokens_are_words(s.drop_first(), next);
            assert(out == tokens_after(s.drop_first(), next));
        }
    }
}

/// Whether `s` ends in the unit suffix `px`.
pub open spec fn ends_with_px(s: Seq<char>) -> bool {
    s.len() >= 2 && s[s.len() - 2] == 'p' && s[s.len() - 1] == 'x'
}

/// `s` with every trailing repetition of `px` removed.
pub open spec fn without_px(s: Seq<char>) -> Seq<char>
    decreases s.len(),
{
    if ends_with_px(s) {
        without_px(s.take(s.len() - 2))
    } else {
        s
    }
}

/// The views of a sequence of strings.
pub open spec fn texts_of(v: Seq<String>) -> Seq<Seq<char>> {
    Seq::new(v.len(), |i: int| v[i]@)
}

/// Whether `c` has the Unicode property `White_Space`.
pub fn char_is_whitespace(c: char) -> (b: bool)
    ensures
        b == is_whitespace(c),
{
    let u = c as u32;
    (0x09 <= u && u <= 0x0D) || u == 0x20 || u == 0x85 || u == 0xA0 || u == 0x1680 || (0x2000 <= u
        && u <= 0x200A) || u == 0x2028 || u == 0x2029 || u == 0x202F || u == 0x205F || u == 0x3000
}

/// The characters of `s`, in order.
pub fn chars_of(s: &str) -> (v: Vec<char>)
    ensures
        v@ == s@,
{
    let mut v: Vec<char> = Vec::new();
    let mut it = s.chars();
    loop
        invariant
            v@ + it.remaining() == s@,
            it.obeys_prophetic_iter_laws(),
            it.decrease() is Some,
        ensures
            it.remaining().len() == 0,
        decreases it.decrease()->0,
    {
        match it.next() {
            Some(c) => {
                v.push(c);
            },
            None => {
                break ;
            },
        }
    }
    assert(v@ =~= v@ + it.remaining());
    v
}

/// The string made of `v[from..to]`.
pub fn string_from(v: &Vec<char>, from: usize, to: usize) -> (s: String)
    requires
        from <= to <= v.len(),
    ensures
        s@ == v@.subrange(from as int, to as int),
{
    let mut s = String::new();
    let mut i: usize = from;
    while i < to
        invariant
            from <= i <= to <= v.len(),
            s@ == v@.subrange(from as int, i as int),
        decreases to - i,
    {
        s.push(v[i]);
        assert(v@.subrange(from as int, i as int).push(v@[i as int]) =~= v@.subrange(
            from as int,
            i + 1,
        ));
        i += 1;
    }
    s
}

/// Whether two strings hold the same characters.
pub fn same_text(a: &str, b: &str) -> (r: bool)
    ensures
        r == (a@ == b@),
{
    let x = chars_of(a);
    let y = chars_of(b);
    if x.len() != y.len() {
        return false;
    }
    let mut i: usize = 0;
    while i < x.len()
        invariant
            i <= x.len(),
            x.len() == y.len(),
            x@ == a@,
            y@ == b@,
            forall|j: int| 0 <= j < i ==> x@[j] == y@[j],
        decreases x.len() - i,
    {
        if x[i] != y[i] {
            return false;
        }
        i += 1;
    }
    assert(x@ =~= y@);
    true
}

/// Whether trimming whitespace from `s` leaves nothing.
pub fn str_is_blank(s: &str) -> (r: bool)
    ensures
        r == is_blank(s@),
{
    let v = chars_of(s);
    let mut i: usize = 0;
    while i < v.len()
        invariant
            i <= v.len(),
            v@ == s@,
            forall|j: int| 0 <= j < i ==> is_whitespace(#[trigger] v@[j]),
        decreases v.len() - i,
    {
        if !char_is_whitespace(v[i]) {
            return false;
        }
        i += 1;
    }
    true
}

/// Splits `s` at whitespace into its tokens.
pub fn split_whitespace(s: &str) -> (out: Vec<String>)
    ensures
        texts_of(out@) == tokens(s@),
{
    let v = chars_of(s);
    let mut out: Vec<String> = Vec::new();
    let mut start: usize = 0;
    let mut i: usize = 0;
    proof {
        assert(v@.skip(0) =~= v@);
        assert(v@.subrange(0, 0) =~= Seq::<char>::empty());
        assert(texts_of(out@) + tokens(v@) =~= tokens(v@));
    }
    while i < v.len()
        invariant
            start <= i <= v.len(),
            forall|j: int| start <= j < i ==> !is_whitespace(#[trigger] v@[j]),
            texts_of(out@) + tokens_after(v@.skip(i as int), v@.subrange(start as int, i as int))
                == tokens(v@),
        decreases v.len() - i,
    {
        let ghost rest = v@.skip(i as int);
        let ghost current = v@.subrange(start as int, i as int);
        assert(rest.drop_first() =~= v@.skip(i + 1));
        assert(rest[0] == v@[i as int]);
        if char_is_whitespace(v[i]) {
            if start < i {
                let word = string_from(&v, start, i);
                let ghost before = texts_of(out@);
                out.push(word);
                assert(texts_of(out@) =~= before + seq![current]);
                assert(before + (seq![current] + tokens_after(rest.drop_first(), Seq::empty()))
                    =~= (before + seq![current]) + tokens_after(rest.drop_first(), Seq::empty()));
            }
            start = i + 1;
            assert(v@.subrange(start as int, i + 1) =~= Seq::<char>::empty());
        } else {
            assert(current.push(rest[0]) =~= v@.subrange(start as int, i + 1));
        }
        i += 1;
    }
    assert(v@.skip(i as int) =~= Seq::<char>::empty());
    if start < i {
        let word = string_from(&v, start, i);
        let ghost before = texts_of(out@);
        out.push(word);
        assert(texts_of(out@) =~= before + seq![v@.subrange(start as int, i as int)]);
    } else {
        assert(texts_of(out@) + Seq::<Seq<char>>::empty() =~= texts_of(out@));
    }
    out
}

/// `s` without its trailing `px` suffixes.
pub fn trim_px(s: &str) -> (out: String)
    ensures
        out@ == without_px(s@),
{
    let v = chars_of(s);
    let mut end: usize = v.len();
    assert(v@.take(v.len() as int) =~= v@);
    while end >= 2 && v[end - 2] == 'p' && v[end - 1] == 'x'
        invariant
            end <= v.len(),
            v@ == s@,
            without_px(v@.take(end as int)) == without_px(v@),
        decreases end,
    {
        assert(v@.take(end as int).take(end - 2) =~= v@.take(end - 2));
        end -= 2;
    }
    assert(v@.take(end as int) =~= v@.subrange(0, end as int));
    string_from(&v, 0, end)
}

/// Appends the characters of `t` to `s`.
pub fn push_text(s: &mut String, t: &str)
    ensures
        final(s)@ == old(s)@ + t@,
{
    let v = chars_of(t);
    let mut i: usize = 0;
    assert(s@ =~= old(s)@ + v@.take(0));
    while i < v.len()
        invariant
            i <= v.len(),
            v@ == t@,
            s@ == old(s)@ + v@.take(i as int),
        decreases v.len() - i,
    {
        s.push(v[i]);
        assert(s@ =~= old(s)@ + v@.take(i + 1));
        i += 1;
    }
    assert(v@.take(v.len() as int) =~= v@);
}

} // verus!
