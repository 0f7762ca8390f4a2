//! Character-level text utilities with exact specifications.
//!
//! Text is modelled as `Seq<char>` (the view of `str` and `String`).
//! Executable code works on `Vec<char>` copies and turns them back into
//! `String`s at the edges.
use vstd::prelude::*;

verus! {

/// `String::push`: afterwards the string is the old one with `c` at its
/// end.
#[verifier::external_body]
pub(crate) fn string_push(s: &mut String, c: char)
    ensures
        final(s)@ == old(s)@.push(c),
{
    s.push(c);
}

/// The characters of a string slice, in order.
pub fn chars_of(s: &str) -> (out: Vec<char>)
    ensures
        out@ == s@,
{
    let mut out: Vec<char> = Vec::new();
    for c in it: s.chars()
        invariant
            out@ == it.seq().take(it.index() as int),
            it.seq() == s@,
    {
        out.push(c);
    }
    out
}

/// A `String` holding the given characters.
pub fn string_of(v: &[char]) -> (s: String)
    ensures
        s@ == v@,
{
    let mut s = String::new();
    let mut i: usize = 0;
    while i < v.len()
        invariant
            i <= v@.len(),
            s@ == v@.subrange(0, i as int),
        decreases v@.len() - i,
    {
        string_push(&mut s, v[i]);
        i = i + 1;
        assert(s@ =~= v@.subrange(0, i as int));
    }
    assert(v@.subrange(0, v@.len() as int) =~= v@);
    s
}

// ---------------------------------------------------------------------
// Character classes
// ---------------------------------------------------------------------

/// Unicode `White_Space`, the property that `char::is_whitespace` tests.
pub open spec fn is_whitespace(c: char) -> bool {
    let u = c as u32;
    ||| 0x09 <= u <= 0x0D
    ||| u == 0x20
    ||| u == 0x85
    ||| u == 0xA0
    ||| u == 0x1680
    ||| 0x2000 <= u <= 0x200A
    ||| u == 0x2028
    ||| u == 0x2029
    ||| u == 0x202F
    ||| u == 0x205F
    ||| u == 0x3000
}

/// Whether a character is Unicode whitespace.
pub fn char_is_whitespace(c: char) -> (b: bool)
    ensures
        b == is_whitespace(c),
{
    let u = c as u32;
    (0x09 <= u && u <= 0x0D) || u == 0x20 || u == 0x85 || u == 0xA0 || u == 0x1680 || (0x2000
        <= u && u <= 0x200A) || u == 0x2028 || u == 0x2029 || u == 0x202F || u == 0x205F || u
        == 0x3000
}

/// A set of characters that can be stripped from either end of a text.
pub enum CharClass {
    Whitespace,
    Only(char),
    EitherOf(char, char),
}

impl CharClass {
    pub open spec fn holds(self, c: char) -> bool {
        match self {
            CharClass::Whitespace => is_whitespace(c),
            CharClass::Only(a) => c == a,
            CharClass::EitherOf(a, b) => c == a || c == b,
        }
    }

    pub fn test(&self, c: char) -> (b: bool)
        ensures
            b == self.holds(c),
    {
        match self {
            CharClass::Whitespace => char_is_whitespace(c),
            CharClass::Only(a) => c == *a,
            CharClass::EitherOf(a, b) => c == *a || c == *b,
        }
    }
}

// ---------------------------------------------------------------------
// Stripping and trimming
// ---------------------------------------------------------------------

/// `s` with every leading character of class `k` removed.
pub open spec fn strip_start(s: Seq<char>, k: CharClass) -> Seq<char>
    decreases s.len(),
{
    if s.len() > 0 && k.holds(s[0]) {
        strip_start(s.drop_first(), k)
    } else {
        s
    }
}

/// `s` with every trailing character of class `k` removed.
pub open spec fn strip_end(s: Seq<char>, k: CharClass) -> Seq<char>
    decreases s.len(),
{
    if s.len() > 0 && k.holds(s.last()) {
        strip_end(s.drop_last(), k)
    } else {
        s
    }
}

/// `s` with characters of class `k` removed from both ends.
pub open spec fn strip_both(s: Seq<char>, k: CharClass) -> Seq<char> {
    strip_end(strip_start(s, k), k)
}

/// `str::trim`: whitespace removed from both ends.
pub open spec fn trim(s: Seq<char>) -> Seq<char> {
    strip_both(s, CharClass::Whitespace)
}

pub proof fn lemma_strip_start_skip(s: Seq<char>, k: CharClass, n: int)
    requires
        0 <= n <= s.len(),
        forall|j: int| 0 <= j < n ==> k.holds(#[trigger] s[j]),
    ensures
        strip_start(s, k) == strip_start(s.subrange(n, s.len() as int), k),
    decreases n,
{
    if n > 0 {
        assert(s.drop_first().subrange(n - 1, s.drop_first().len() as int) =~= s.subrange(
            n,
            s.len() as int,
        ));
        assert(k.holds(s[0]));
        lemma_strip_start_skip(s.drop_first(), k, n - 1);
    } else {
        assert(s.subrange(0, s.len() as int) =~= s);
    }
}

pub proof fn lemma_strip_end_skip(s: Seq<char>, k: CharClass, n: int)
    requires
        0 <= n <= s.len(),
        forall|j: int| n <= j < s.len() ==> k.holds(#[trigger] s[j]),
    ensures
        strip_end(s, k) == strip_end(s.subrange(0, n), k),
    decreases s.len() - n,
{
    if n < s.len() {
        assert(s.drop_last().subrange(0, n) =~= s.subrange(0, n));
        assert(k.holds(s.last()));
        lemma_strip_end_skip(s.drop_last(), k, n);
    } else {
        assert(s.subrange(0, n) =~= s);
    }
}

/// Copies `v[lo..hi]`.
pub fn copy_range(v: &[char], lo: usize, hi: usize) -> (out: Vec<char>)
    requires
        lo <= hi <= v@.len(),
    ensures
        out@ == v@.subrange(lo as int, hi as int),
{
    let mut out: Vec<char> = Vec::new();
    let mut i = lo;
    while i < hi
        invariant
            lo <= i <= hi <= v@.len(),
            out@ == v@.subrange(lo as int, i as int),
        decreases hi - i,
    {
        out.push(v[i]);
        i = i + 1;
        assert(out@ =~= v@.subrange(lo as int, i as int));
    }
    out
}

/// Removes every leading character of class `k`.
pub fn strip_start_chars(v: &[char], k: &CharClass) -> (out: Vec<char>)
    ensures
        out@ == strip_start(v@, *k),
{
    let mut i: usize = 0;
    while i < v.len() && k.test(v[i])
        invariant
            i <= v@.len(),
            forall|j: int| 0 <= j < i ==> k.holds(#[trigger] v@[j]),
        decreases v@.len() - i,
    {
        i = i + 1;
    }
    proof {
        lemma_strip_start_skip(v@, *k, i as int);
    }
    copy_range(v, i, v.len())
}

/// Removes every trailing character of class `k`.
pub fn strip_end_chars(v: &[char], k: &CharClass) -> (out: Vec<char>)
    ensures
        out@ == strip_end(v@, *k),
{
    let mut n: usize = v.len();
    while n > 0 && k.test(v[n - 1])
        invariant
            n <= v@.len(),
            forall|j: int| n <= j < v@.len() ==> k.holds(#[trigger] v@[j]),
        decreases n,
    {
        n = n - 1;
    }
    proof {
        lemma_strip_end_skip(v@, *k, n as int);
    }
    copy_range(v, 0, n)
}

/// Removes characters of class `k` from both ends.
pub fn strip_both_chars(v: &[char], k: &CharClass) -> (out: Vec<char>)
    ensures
        out@ == strip_both(v@, *k),
{
    let a = strip_start_chars(v, k);
    strip_end_chars(a.as_slice(), k)
}

/// `str::trim` on characters.
pub fn trim_chars(v: &[char]) -> (out: Vec<char>)
    ensures
        out@ == trim(v@),
{
    strip_both_chars(v, &CharClass::Whitespace)
}

// ---------------------------------------------------------------------
// Prefixes, suffixes, search
// ---------------------------------------------------------------------

pub open spec fn starts_with(s: Seq<char>, p: Seq<char>) -> bool {
    p.len() <= s.len() && s.subrange(0, p.len() as int) == p
}

pub open spec fn ends_with(s: Seq<char>, p: Seq<char>) -> bool {
    p.len() <= s.len() && s.subrange(s.len() - p.len(), s.len() as int) == p
}

pub fn has_prefix(s: &[char], p: &[char]) -> (b: bool)
    ensures
        b == starts_with(s@, p@),
{
    if p.len() > s.len() {
        return false;
    }
    let mut i: usize = 0;
    while i < p.len()
        invariant
            p@.len() <= s@.len(),
            i <= p@.len(),
            forall|j: int| 0 <= j < i ==> s@[j] == p@[j],
        decreases p@.len() - i,
    {
        if s[i] != p[i] {
            assert(s@.subrange(0, p@.len() as int)[i as int] != p@[i as int]);
            return false;
        }
        i = i + 1;
    }
    assert(s@.subrange(0, p@.len() as int) =~= p@);
    true
}

pub fn has_suffix(s: &[char], p: &[char]) -> (b: bool)
    ensures
        b == ends_with(s@, p@),
{
    let slen = s.len();
    let plen = p.len();
    if plen > slen {
        return false;
    }
    let off = slen - plen;
    let mut i: usize = 0;
    while i < plen
        invariant
            slen == s@.len(),
            plen == p@.len(),
            off + plen == slen,
            i <= plen,
            forall|j: int| 0 <= j < i ==> s@[off + j] == p@[j],
        decreases plen - i,
    {
        if s[off + i] != p[i] {
            assert(s@.subrange(off as int, slen as int)[i as int] != p@[i as int]);
            return false;
        }
        i = i + 1;
    }
    assert(s@.subrange(off as int, slen as int) =~= p@);
    true
}

/// Whether `c` occurs in `v`.
pub fn contains_char(v: &[char], c: char) -> (b: bool)
    ensures
        b == v@.contains(c),
{
    let mut i: usize = 0;
    while i < v.len()
        invariant
            i <= v@.len(),
            forall|j: int| 0 <= j < i ==> v@[j] != c,
        decreases v@.len() - i,
    {
        if v[i] == c {
            assert(v@[i as int] == c);
            return true;
        }
        i = i + 1;
    }
    false
}

// ---------------------------------------------------------------------
// Splitting and joining
// ---------------------------------------------------------------------

/// `str::split` on one character: the pieces between occurrences of `c`.
pub open spec fn split_on(s: Seq<char>, c: char) -> Seq<Seq<char>>
    decreases s.len(),
{
    if s.len() == 0 {
        seq![Seq::<char>::empty()]
    } else {
        let p = split_on(s.drop_last(), c);
        if s.last() == c {
            p.push(Seq::<char>::empty())
        } else {
            p.update(p.len() - 1, p.last().push(s.last()))
        }
    }
}

/// `join` of pieces with a separator.
pub open spec fn join(parts: Seq<Seq<char>>, sep: Seq<char>) -> Seq<char>
    decreases parts.len(),
{
    if parts.len() == 0 {
        Seq::<char>::empty()
    } else if parts.len() == 1 {
        parts[0]
    } else {
        join(parts.drop_last(), sep) + sep + parts.last()
    }
}

pub proof fn lemma_split_on_nonempty(s: Seq<char>, c: char)
    ensures
        split_on(s, c).len() >= 1,
    decreases s.len(),
{
    if s.len() > 0 {
        lemma_split_on_nonempty(s.drop_last(), c);
    }
}

/// A text without the separator is one piece.
pub proof fn lemma_split_on_absent(s: Seq<char>, c: char)
    requires
        !s.contains(c),
    ensures
        split_on(s, c) == seq![s],
    decreases s.len(),
{
    if s.len() > 0 {
        assert(!s.drop_last().contains(c)) by {
            if s.drop_last().contains(c) {
                let k = choose|k: int| 0 <= k < s.drop_last().len() && s.drop_last()[k] == c;
                assert(s[k] == c);
            }
        }
        lemma_split_on_absent(s.drop_last(), c);
        assert(s.last() != c) by {
            assert(s[s.len() - 1] == s.last());
        }
        assert(s.drop_last().push(s.last()) =~= s);
        assert(split_on(s, c) =~= seq![s]);
    } else {
        assert(s =~= Seq::<char>::empty());
    }
}

/// Splitting at a separator splits the text on each side of it.
pub proof fn lemma_split_on_concat(a: Seq<char>, b: Seq<char>, c: char)
    ensures
        split_on(a + seq![c] + b, c) == split_on(a, c) + split_on(b, c),
    decreases b.len(),
{
    let s = a + seq![c] + b;
    if b.len() == 0 {
        assert(s.drop_last() =~= a);
        assert(split_on(b, c) =~= seq![Seq::<char>::empty()]);
        assert(split_on(s, c) =~= split_on(a, c) + split_on(b, c));
    } else {
        lemma_split_on_concat(a, b.drop_last(), c);
        lemma_split_on_nonempty(b.drop_last(), c);
        assert(s.drop_last() =~= a + seq![c] + b.drop_last());
        assert(s.last() == b.last());
        let pa = split_on(a, c);
        let pb = split_on(b.drop_last(), c);
        if b.last() == c {
            assert(split_on(s, c) =~= pa + pb.push(Seq::<char>::empty()));
        } else {
            let p = pa + pb;
            assert(p.update(p.len() - 1, p.last().push(b.last())) =~= pa + pb.update(
                pb.len() - 1,
                pb.last().push(b.last()),
            ));
        }
    }
}

/// A text that neither begins nor ends with the class is left as it is.
pub proof fn lemma_strip_both_stops(s: Seq<char>, k: CharClass)
    requires
        s.len() > 0,
        !k.holds(s[0]),
        !k.holds(s.last()),
    ensures
        strip_both(s, k) == s,
{
}

/// Trimming a text that begins and ends with non-whitespace leaves it.
pub proof fn lemma_trim_plain(s: Seq<char>)
    requires
        s.len() > 0,
        !is_whitespace(s[0]),
        !is_whitespace(s.last()),
    ensures
        trim(s) == s,
{
    lemma_strip_both_stops(s, CharClass::Whitespace);
}

/// Trimming a space followed by a plain text gives the text.
pub proof fn lemma_trim_after_space(t: Seq<char>)
    requires
        t.len() > 0,
        !is_whitespace(t[0]),
        !is_whitespace(t.last()),
    ensures
        trim(seq![' '] + t) == t,
{
    let s = seq![' '] + t;
    assert(s.drop_first() =~= t);
    assert(strip_start(s, CharClass::Whitespace) == strip_start(t, CharClass::Whitespace));
    lemma_trim_plain(t);
}

/// Extending the last piece extends what the pieces join to.
pub proof fn lemma_join_extend_last(p: Seq<Seq<char>>, sep: Seq<char>, t: Seq<char>)
    requires
        p.len() >= 1,
    ensures
        join(p.update(p.len() - 1, p.last() + t), sep) == join(p, sep) + t,
{
    let q = p.update(p.len() - 1, p.last() + t);
    if p.len() == 1 {
        assert(q[0] == p[0] + t);
    } else {
        assert(q.drop_last() =~= p.drop_last());
        assert(q.last() == p.last() + t);
        assert(join(p, sep) + t =~= join(p.drop_last(), sep) + sep + (p.last() + t));
    }
}

/// Joining the pieces of a split with the separator gives the text back.
pub proof fn lemma_join_split(b: Seq<char>, c: char)
    ensures
        join(split_on(b, c), seq![c]) == b,
    decreases b.len(),
{
    if b.len() > 0 {
        let b0 = b.drop_last();
        lemma_join_split(b0, c);
        lemma_split_on_nonempty(b0, c);
        let p = split_on(b0, c);
        if b.last() == c {
            let q = p.push(Seq::<char>::empty());
            assert(q.drop_last() =~= p);
            assert(join(q, seq![c]) =~= b0 + seq![c] + Seq::<char>::empty());
            assert(b0.push(c) =~= b);
            assert(b0 + seq![c] + Seq::<char>::empty() =~= b);
        } else {
            assert(p.last().push(b.last()) =~= p.last() + seq![b.last()]);
            lemma_join_extend_last(p, seq![c], seq![b.last()]);
            assert(b0 + seq![b.last()] =~= b);
        }
    } else {
        assert(split_on(b, c) =~= seq![Seq::<char>::empty()]);
        assert(b =~= Seq::<char>::empty());
    }
}

/// What follows the first separator, when the text before it has none.
pub proof fn lemma_after_first_separator(a: Seq<char>, b: Seq<char>, c: char)
    requires
        !a.contains(c),
    ensures
        join(split_on(a + seq![c] + b, c).skip(1), seq![c]) == b,
{
    lemma_split_on_concat(a, b, c);
    lemma_split_on_absent(a, c);
    assert(split_on(a + seq![c] + b, c).skip(1) =~= split_on(b, c));
    lemma_join_split(b, c);
}

/// Stripping leading characters of a class keeps the first character
/// outside it.
pub proof fn lemma_strip_start_keeps(s: Seq<char>, k: CharClass, j: int)
    requires
        0 <= j < s.len(),
        !k.holds(s[j]),
    ensures
        strip_start(s, k).len() > 0,
        !k.holds(strip_start(s, k)[0]),
    decreases s.len(),
{
    if k.holds(s[0]) {
        assert(s.drop_first()[j - 1] == s[j]);
        lemma_strip_start_keeps(s.drop_first(), k, j - 1);
    }
}

/// Stripping trailing characters of a class from a text whose first
/// character is outside it leaves a non-empty text.
pub proof fn lemma_strip_end_keeps(t: Seq<char>, k: CharClass)
    requires
        t.len() > 0,
        !k.holds(t[0]),
    ensures
        strip_end(t, k).len() > 0,
    decreases t.len(),
{
    if k.holds(t.last()) {
        assert(t.len() > 1);
        assert(t.drop_last()[0] == t[0]);
        lemma_strip_end_keeps(t.drop_last(), k);
    }
}

/// A text with a non-whitespace character does not trim to nothing.
pub proof fn lemma_trim_nonempty(s: Seq<char>, j: int)
    requires
        0 <= j < s.len(),
        !is_whitespace(s[j]),
    ensures
        trim(s).len() > 0,
{
    lemma_strip_start_keeps(s, CharClass::Whitespace, j);
    lemma_strip_end_keeps(strip_start(s, CharClass::Whitespace), CharClass::Whitespace);
}

/// Trimming whitespace around a text that begins and ends with
/// non-whitespace gives the text.
pub proof fn lemma_trim_between(w1: Seq<char>, t: Seq<char>, w2: Seq<char>)
    requires
        forall|i: int| 0 <= i < w1.len() ==> is_whitespace(#[trigger] w1[i]),
        forall|i: int| 0 <= i < w2.len() ==> is_whitespace(#[trigger] w2[i]),
        t.len() > 0,
        !is_whitespace(t[0]),
        !is_whitespace(t.last()),
    ensures
        trim(w1 + t + w2) == t,
{
    let s = w1 + t + w2;
    assert forall|i: int| 0 <= i < w1.len() implies CharClass::Whitespace.holds(#[trigger] s[i]) by {
        assert(s[i] == w1[i]);
    }
    lemma_strip_start_skip(s, CharClass::Whitespace, w1.len() as int);
    let u = s.subrange(w1.len() as int, s.len() as int);
    assert(u =~= t + w2);
    assert(u[0] == t[0]);
    assert(strip_start(u, CharClass::Whitespace) == u);
    assert forall|i: int| t.len() <= i < u.len() implies CharClass::Whitespace.holds(#[trigger] u[i]) by {
        assert(u[i] == w2[i - t.len()]);
    }
    lemma_strip_end_skip(u, CharClass::Whitespace, t.len() as int);
    assert(u.subrange(0, t.len() as int) =~= t);
    assert(t[t.len() - 1] == t.last());
    assert(strip_end(t, CharClass::Whitespace) == t);
}

/// Joined pieces begin with the first piece.
pub proof fn lemma_join_first(p: Seq<Seq<char>>, sep: Seq<char>)
    requires
        p.len() >= 1,
    ensures
        join(p, sep).len() >= p[0].len(),
        forall|i: int| 0 <= i < p[0].len() ==> join(p, sep)[i] == p[0][i],
    decreases p.len(),
{
    if p.len() > 1 {
        lemma_join_first(p.drop_last(), sep);
        assert(p.drop_last()[0] == p[0]);
        let j = join(p.drop_last(), sep);
        assert forall|i: int| 0 <= i < p[0].len() implies join(p, sep)[i] == p[0][i] by {
            assert(join(p, sep) == j + sep + p.last());
            assert((j + sep + p.last())[i] == j[i]);
        }
    }
}

/// Stripping trailing characters of a class keeps everything up to a
/// character outside it.
pub proof fn lemma_strip_end_keeps_prefix(s: Seq<char>, k: CharClass, i: int)
    requires
        0 <= i < s.len(),
        !k.holds(s[i]),
    ensures
        strip_end(s, k).len() > i,
        strip_end(s, k).subrange(0, i + 1) == s.subrange(0, i + 1),
    decreases s.len(),
{
    if k.holds(s.last()) {
        assert(i < s.len() - 1) by {
            if i == s.len() - 1 {
                assert(s[i] == s.last());
            }
        }
        assert(s.drop_last()[i] == s[i]);
        lemma_strip_end_keeps_prefix(s.drop_last(), k, i);
        assert(s.drop_last().subrange(0, i + 1) =~= s.subrange(0, i + 1));
    }
}

/// The texts held by a sequence of character vectors.
pub open spec fn texts(v: Seq<Vec<char>>) -> Seq<Seq<char>> {
    v.map_values(|p: Vec<char>| p@)
}

/// Splits `v` at every occurrence of `c`.
pub fn split_chars(v: &[char], c: char) -> (out: Vec<Vec<char>>)
    ensures
        texts(out@) == split_on(v@, c),
{
    let mut out: Vec<Vec<char>> = Vec::new();
    let mut cur: Vec<char> = Vec::new();
    let mut i: usize = 0;
    assert(v@.subrange(0, 0) =~= Seq::<char>::empty());
    while i < v.len()
        invariant
            i <= v@.len(),
            texts(out@).push(cur@) == split_on(v@.subrange(0, i as int), c),
        decreases v@.len() - i,
    {
        let ghost before = texts(out@).push(cur@);
        assert(v@.subrange(0, i + 1).drop_last() =~= v@.subrange(0, i as int));
        proof {
            lemma_split_on_nonempty(v@.subrange(0, i as int), c);
        }
        if v[i] == c {
            let done = cur;
            out.push(done);
            cur = Vec::new();
            assert(texts(out@).push(cur@) =~= before.push(Seq::<char>::empty()));
        } else {
            cur.push(v[i]);
            assert(texts(out@).push(cur@) =~= before.update(
                before.len() - 1,
                before.last().push(v@[i as int]),
            ));
        }
        i = i + 1;
    }
    assert(v@.subrange(0, v@.len() as int) =~= v@);
    out.push(cur);
    out
}

/// Joins pieces with a separator.
pub fn join_chars(parts: &Vec<Vec<char>>, sep: &[char]) -> (out: Vec<char>)
    ensures
        out@ == join(texts(parts@), sep@),
{
    let mut out: Vec<char> = Vec::new();
    let mut i: usize = 0;
    while i < parts.len()
        invariant
            i <= parts@.len(),
            out@ == join(texts(parts@).take(i as int), sep@),
        decreases parts@.len() - i,
    {
        let ghost prev = out@;
        if i > 0 {
            append_chars(&mut out, sep);
        }
        append_chars(&mut out, parts[i].as_slice());
        proof {
            let t = texts(parts@).take(i + 1);
            assert(t.drop_last() =~= texts(parts@).take(i as int));
            if i == 0 {
                assert(out@ =~= t[0]);
            } else {
                assert(out@ =~= prev + sep@ + t.last());
            }
        }
        i = i + 1;
    }
    assert(texts(parts@).take(parts@.len() as int) =~= texts(parts@));
    out
}

/// Appends the characters of `w` to `v`.
pub fn append_chars(v: &mut Vec<char>, w: &[char])
    ensures
        final(v)@ == old(v)@ + w@,
{
    let mut i: usize = 0;
    while i < w.len()
        invariant
            i <= w@.len(),
            v@ == old(v)@ + w@.subrange(0, i as int),
        decreases w@.len() - i,
    {
        v.push(w[i]);
        i = i + 1;
        assert(v@ =~= old(v)@ + w@.subrange(0, i as int));
    }
    assert(w@.subrange(0, w@.len() as int) =~= w@);
}

} // verus!
