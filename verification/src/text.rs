//! Characters and strings: conversions between `String` and `Vec<char>`,
//! and cutting a text into the fragments that lie between delimiters.

use vstd::prelude::*;

verus! {

/// Whether Unicode classes `c` as alphabetic or numeric: what
/// `char::is_alphanumeric` answers for `c`.
pub uninterp spec fn alphanumeric(c: char) -> bool;

/// The lowercase form of a text: what `str::to_lowercase` returns for it.
pub uninterp spec fn lowercase(s: Seq<char>) -> Seq<char>;

/// `char::is_alphanumeric` of std. Its answer depends on the character alone
/// and is too long to write out (Unicode's tables), so it is only given the
/// name [`alphanumeric`].
pub assume_specification[ char::is_alphanumeric ](c: char) -> (b: bool)
    ensures
        b == alphanumeric(c),
;

/// `str::to_lowercase` of std. The new string depends on the characters of
/// `s` alone; it is only given the name [`lowercase`].
pub assume_specification[ str::to_lowercase ](s: &str) -> (r: String)
    ensures
        r@ == lowercase(s@),
;

/// `String::push` of std: appends the one character `c` to the end of `s`.
pub assume_specification[ String::push ](s: &mut String, c: char)
    ensures
        final(s)@ == old(s)@.push(c),
;

/// The texts held by a sequence of strings.
pub open spec fn texts(v: Seq<String>) -> Seq<Seq<char>> {
    Seq::new(v.len(), |i: int| v[i]@)
}

/// The texts held by a sequence of character vectors.
pub open spec fn rows(v: Seq<Vec<char>>) -> Seq<Seq<char>> {
    Seq::new(v.len(), |i: int| v[i]@)
}

/// Appending a string appends its text.
pub proof fn lemma_texts_push(v: Seq<String>, s: String)
    ensures
        texts(v.push(s)) == texts(v).push(s@),
{
    assert(texts(v.push(s)) =~= texts(v).push(s@));
}

/// The characters of `s`, in order.
pub fn chars_of(s: &str) -> (v: Vec<char>)
    ensures
        v@ == s@,
{
    let mut v: Vec<char> = Vec::new();
    for c in it: s.chars()
        invariant
            it.seq() == s@,
            v@ == it.seq().take(it.index() as int),
    {
        v.push(c);
    }
    v
}

/// The string made of the characters of `v`, in order.
pub fn string_of(v: &Vec<char>) -> (s: String)
    ensures
        s@ == v@,
{
    let mut s = String::new();
    let mut i: usize = 0;
    while i < v.len()
        invariant
            i <= v.len(),
            s@ == v@.take(i as int),
        decreases v.len() - i,
    {
        s.push(v[i]);
        i += 1;
    }
    s
}

/// One string for each character vector of `v`, in order.
pub fn strings_of(v: &Vec<Vec<char>>) -> (r: Vec<String>)
    ensures
        texts(r@) == rows(v@),
{
    let mut r: Vec<String> = Vec::new();
    let mut i: usize = 0;
    while i < v.len()
        invariant
            i <= v.len(),
            r.len() == i,
            texts(r@) == rows(v@.take(i as int)),
        decreases v.len() - i,
    {
        let ghost before = r@;
        let s = string_of(&v[i]);
        r.push(s);
        i += 1;
        assert forall|j: int| 0 <= j < i implies texts(r@)[j] == rows(v@.take(i as int))[j] by {
            if j < i - 1 {
                assert(texts(before)[j] == rows(v@.take(i - 1))[j]);
            }
        }
        assert(texts(r@) =~= rows(v@.take(i as int)));
    }
    assert(v@.take(v.len() as int) =~= v@);
    r
}

/// A kind of character at which a text is cut or trimmed.
#[derive(Clone, Copy, Debug)]
pub enum Delimiter {
    /// A space, a tab or a line feed.
    Blank,
    /// Any character that is not alphanumeric.
    NonAlphanumeric,
    /// An opening or a closing parenthesis.
    Parenthesis,
}

/// A space, a tab or a line feed.
pub open spec fn is_blank(c: char) -> bool {
    c == ' ' || c == '\t' || c == '\n'
}

/// An opening or a closing parenthesis.
pub open spec fn is_paren(c: char) -> bool {
    c == '(' || c == ')'
}

/// Whether `c` is a delimiter of the kind `d`.
pub open spec fn delimits(d: Delimiter, c: char) -> bool {
    match d {
        Delimiter::Blank => is_blank(c),
        Delimiter::NonAlphanumeric => !alphanumeric(c),
        Delimiter::Parenthesis => is_paren(c),
    }
}

/// `s` without the delimiters at its front.
pub open spec fn trim_front(s: Seq<char>, d: Delimiter) -> Seq<char>
    decreases s.len(),
{
    if s.len() > 0 && delimits(d, s[0]) {
        trim_front(s.drop_first(), d)
    } else {
        s
    }
}

/// `s` without the delimiters at its back.
pub open spec fn trim_back(s: Seq<char>, d: Delimiter) -> Seq<char>
    decreases s.len(),
{
    if s.len() > 0 && delimits(d, s.last()) {
        trim_back(s.drop_last(), d)
    } else {
        s
    }
}

/// `s` without the delimiters at either end; those inside stay.
pub open spec fn trimmed(s: Seq<char>, d: Delimiter) -> Seq<char> {
    trim_back(trim_front(s, d), d)
}

/// The number of characters at the front of `s` before its first delimiter.
pub open spec fn run_length(s: Seq<char>, d: Delimiter) -> nat
    decreases s.len(),
{
    if s.len() == 0 || delimits(d, s[0]) {
        0
    } else {
        1 + run_length(s.drop_first(), d)
    }
}

/// The fragments of `s`: its maximal runs of characters that are not
/// delimiters, from left to right. Delimiters belong to no fragment, and no
/// fragment is empty.
pub open spec fn fragments(s: Seq<char>, d: Delimiter) -> Seq<Seq<char>>
    decreases s.len(),
    via fragments_decreases
{
    if s.len() == 0 {
        Seq::empty()
    } else if delimits(d, s[0]) {
        fragments(s.drop_first(), d)
    } else {
        let n = run_length(s, d) as int;
        seq![s.take(n)] + fragments(s.skip(n), d)
    }
}

#[via_fn]
proof fn fragments_decreases(s: Seq<char>, d: Delimiter) {
    if s.len() > 0 && !delimits(d, s[0]) {
        lemma_run_length_bound(s, d);
    }
}

/// A run ends within its text, and is not empty where the text starts with a
/// character that is no delimiter.
pub proof fn lemma_run_length_bound(s: Seq<char>, d: Delimiter)
    ensures
        run_length(s, d) <= s.len(),
        s.len() > 0 && !delimits(d, s[0]) ==> run_length(s, d) >= 1,
        forall|k: int| 0 <= k < run_length(s, d) ==> !delimits(d, #[trigger] s[k]),
        run_length(s, d) < s.len() ==> delimits(d, s[run_length(s, d) as int]),
    decreases s.len(),
{
    if s.len() == 0 || delimits(d, s[0]) {
    } else {
        let t = s.drop_first();
        lemma_run_length_bound(t, d);
        assert forall|k: int| 0 <= k < run_length(s, d) implies !delimits(d, #[trigger] s[k]) by {
            if k > 0 {
                assert(s[k] == t[k - 1]);
            }
        }
        if run_length(s, d) < s.len() {
            assert(s[run_length(s, d) as int] == t[run_length(t, d) as int]);
        }
    }
}

/// No fragment is empty, and no fragment holds a delimiter.
pub proof fn lemma_fragments_clean(s: Seq<char>, d: Delimiter)
    ensures
        forall|i: int|
            0 <= i < fragments(s, d).len() ==> (#[trigger] fragments(s, d)[i]).len() > 0,
        forall|i: int, k: int|
            0 <= i < fragments(s, d).len() && 0 <= k < fragments(s, d)[i].len() ==> !delimits(
                d,
                #[trigger] fragments(s, d)[i][k],
            ),
    decreases s.len(),
{
    if s.len() == 0 {
        assert(fragments(s, d).len() == 0);
    } else if delimits(d, s[0]) {
        lemma_fragments_clean(s.drop_first(), d);
        assert(fragments(s, d) == fragments(s.drop_first(), d));
    } else {
        let n = run_length(s, d) as int;
        lemma_run_length_bound(s, d);
        lemma_fragments_clean(s.skip(n), d);
        let rest = fragments(s.skip(n), d);
        let all = fragments(s, d);
        assert(all =~= seq![s.take(n)] + rest);
        assert forall|i: int| 0 <= i < all.len() implies (#[trigger] all[i]).len() > 0 by {
            if i > 0 {
                assert(all[i] == rest[i - 1]);
            }
        }
        assert forall|i: int, k: int| 0 <= i < all.len() && 0 <= k < all[i].len() implies !delimits(
            d,
            #[trigger] all[i][k],
        ) by {
            if i > 0 {
                assert(all[i] == rest[i - 1]);
            } else {
                assert(all[0][k] == s[k]);
            }
        }
    }
}

/// A text without delimiters is one run.
pub proof fn lemma_run_length_whole(s: Seq<char>, d: Delimiter)
    requires
        forall|k: int| 0 <= k < s.len() ==> !delimits(d, #[trigger] s[k]),
    ensures
        run_length(s, d) == s.len(),
    decreases s.len(),
{
    if s.len() > 0 {
        let t = s.drop_first();
        assert forall|k: int| 0 <= k < t.len() implies !delimits(d, #[trigger] t[k]) by {
            assert(t[k] == s[k + 1]);
        }
        lemma_run_length_whole(t, d);
    }
}

/// A text that is not empty and holds no delimiter is its own single fragment.
pub proof fn lemma_fragments_single(s: Seq<char>, d: Delimiter)
    requires
        s.len() > 0,
        forall|k: int| 0 <= k < s.len() ==> !delimits(d, #[trigger] s[k]),
    ensures
        fragments(s, d) == seq![s],
{
    lemma_run_length_whole(s, d);
    let n = s.len() as int;
    assert(s.take(n) =~= s);
    assert(s.skip(n) =~= Seq::<char>::empty());
    assert(fragments(s.skip(n), d) =~= Seq::<Seq<char>>::empty());
    assert(seq![s.take(n)] + fragments(s.skip(n), d) =~= seq![s]);
}

/// Whether `c` is a delimiter of the kind `d`.
pub fn is_delimiter(d: Delimiter, c: char) -> (b: bool)
    ensures
        b == delimits(d, c),
{
    match d {
        Delimiter::Blank => c == ' ' || c == '\t' || c == '\n',
        Delimiter::NonAlphanumeric => !c.is_alphanumeric(),
        Delimiter::Parenthesis => c == '(' || c == ')',
    }
}

/// `chars` without the delimiters at either end.
pub fn trim(chars: &Vec<char>, d: Delimiter) -> (r: Vec<char>)
    ensures
        r@ == trimmed(chars@, d),
{
    let n = chars.len();
    let mut a: usize = 0;
    assert(chars@.skip(0) =~= chars@);
    while a < n && is_delimiter(d, chars[a])
        invariant
            n == chars.len(),
            a <= n,
            trim_front(chars@, d) == trim_front(chars@.skip(a as int), d),
        decreases n - a,
    {
        assert(chars@.skip(a as int).drop_first() =~= chars@.skip(a + 1));
        a += 1;
    }
    let ghost body = chars@.skip(a as int);
    assert(trim_front(chars@, d) == body);
    let mut b: usize = n;
    assert(chars@.subrange(a as int, n as int) =~= body);
    while b > a && is_delimiter(d, chars[b - 1])
        invariant
            n == chars.len(),
            a <= b <= n,
            body == chars@.skip(a as int),
            trim_back(body, d) == trim_back(chars@.subrange(a as int, b as int), d),
        decreases b,
    {
        assert(chars@.subrange(a as int, b as int).drop_last() =~= chars@.subrange(
            a as int,
            b - 1,
        ));
        b -= 1;
    }
    assert(trim_back(body, d) == chars@.subrange(a as int, b as int));
    let mut r: Vec<char> = Vec::new();
    let mut i: usize = a;
    while i < b
        invariant
            a <= i <= b <= chars.len(),
            r@ == chars@.subrange(a as int, i as int),
        decreases b - i,
    {
        r.push(chars[i]);
        i += 1;
    }
    r
}

/// Cuts `chars` into its fragments.
pub fn split(chars: &Vec<char>, d: Delimiter) -> (r: Vec<Vec<char>>)
    ensures
        rows(r@) == fragments(chars@, d),
{
    let n = chars.len();
    let mut out: Vec<Vec<char>> = Vec::new();
    let mut i: usize = 0;
    assert(chars@.skip(0) =~= chars@);
    assert(rows(out@) + fragments(chars@, d) =~= fragments(chars@, d));
    while i < n
        invariant
            n == chars.len(),
            i <= n,
            fragments(chars@, d) == rows(out@) + fragments(chars@.skip(i as int), d),
        decreases n - i,
    {
        let ghost tail = chars@.skip(i as int);
        if is_delimiter(d, chars[i]) {
            assert(tail.drop_first() =~= chars@.skip(i + 1));
            i += 1;
        } else {
            let start = i;
            let mut piece: Vec<char> = Vec::new();
            assert(chars@.subrange(start as int, i as int) =~= Seq::<char>::empty());
            while i < n && !is_delimiter(d, chars[i])
                invariant
                    n == chars.len(),
                    start <= i <= n,
                    piece@ == chars@.subrange(start as int, i as int),
                    run_length(tail, d) == (i - start) + run_length(chars@.skip(i as int), d),
                    tail == chars@.skip(start as int),
                decreases n - i,
            {
                assert(chars@.skip(i as int).drop_first() =~= chars@.skip(i + 1));
                piece.push(chars[i]);
                i += 1;
                assert(piece@ =~= chars@.subrange(start as int, i as int));
            }
            let ghost len = (i - start) as int;
            assert(run_length(tail, d) == len);
            assert(tail.take(len) =~= piece@);
            assert(tail.skip(len) =~= chars@.skip(i as int));
            let ghost before = rows(out@);
            out.push(piece);
            assert(rows(out@) =~= before + seq![tail.take(len)]);
            assert(before + (seq![tail.take(len)] + fragments(tail.skip(len), d)) =~= (before
                + seq![tail.take(len)]) + fragments(tail.skip(len), d));
        }
    }
    assert(rows(out@) + Seq::<Seq<char>>::empty() =~= rows(out@));
    out
}

} // verus!
