//! Character sequences: the vocabulary in which every other module states
//! what it does to a string.
//!
//! A string is modelled by its view, a `Seq<char>`. The executable functions
//! work on `Vec<char>`; [`chars_of`] and [`text_of`] move between `str` and
//! that form in linear time.

use vstd::prelude::*;

verus! {

/// `String::push` appends one character and leaves the rest untouched.
pub assume_specification[ String::push ](s: &mut String, c: char)
    ensures
        final(s)@ == old(s)@.push(c),
;

/// Classes of characters that the stripping functions remove.
#[derive(Clone, Copy, Debug)]
pub enum CharClass {
    /// Unicode `White_Space`.
    Whitespace,
    /// Carriage return and line feed.
    LineBreak,
    /// Exactly one character.
    Only(char),
}

/// Whether `c` has the Unicode property `White_Space`.
pub open spec fn is_space(c: char) -> bool {
    let n: u32 = c as u32;
    ||| (0x09 <= n && n <= 0x0D)
    ||| n == 0x20
    ||| n == 0x85
    ||| n == 0xA0
    ||| n == 0x1680
    ||| (0x2000 <= n && n <= 0x200A)
    ||| n == 0x2028
    ||| n == 0x2029
    ||| n == 0x202F
    ||| n == 0x205F
    ||| n == 0x3000
}

/// Whether `c` is whitespace.
pub fn is_whitespace(c: char) -> (b: bool)
    ensures
        b == is_space(c),
{
    let n: u32 = c as u32;
    (0x09 <= n && n <= 0x0D) || n == 0x20 || n == 0x85 || n == 0xA0 || n == 0x1680 || (0x2000 <= n
        && n <= 0x200A) || n == 0x2028 || n == 0x2029 || n == 0x202F || n == 0x205F || n == 0x3000
}

impl CharClass {
    /// Whether `c` is of the class.
    pub open spec fn holds(self, c: char) -> bool {
        match self {
            CharClass::Whitespace => is_space(c),
            CharClass::LineBreak => c == '\r' || c == '\n',
            CharClass::Only(x) => c == x,
        }
    }

    /// Whether `c` is of the class.
    pub fn test(&self, c: char) -> (b: bool)
        ensures
            b == self.holds(c),
    {
        match self {
            CharClass::Whitespace => is_whitespace(c),
            CharClass::LineBreak => c == '\r' || c == '\n',
            CharClass::Only(x) => c == *x,
        }
    }
}

/// ASCII lower case of one character; every other character is itself.
pub open spec fn lower_char(c: char) -> char {
    if 'A' <= c && c <= 'Z' {
        ((c as u8) + 32) as char
    } else {
        c
    }
}

/// ASCII upper case of one character; every other character is itself.
pub open spec fn upper_char(c: char) -> char {
    if 'a' <= c && c <= 'z' {
        ((c as u8) - 32) as char
    } else {
        c
    }
}

/// ASCII lower case of one character.
pub fn to_lower_char(c: char) -> (r: char)
    ensures
        r == lower_char(c),
{
    if 'A' <= c && c <= 'Z' {
        ((c as u8) + 32) as char
    } else {
        c
    }
}

/// ASCII upper case of one character.
pub fn to_upper_char(c: char) -> (r: char)
    ensures
        r == upper_char(c),
{
    if 'a' <= c && c <= 'z' {
        ((c as u8) - 32) as char
    } else {
        c
    }
}

/// `s` with every ASCII letter in lower case.
pub open spec fn lowercase(s: Seq<char>) -> Seq<char> {
    Seq::new(s.len(), |i: int| lower_char(s[i]))
}

/// `s` with every ASCII letter in upper case.
pub open spec fn uppercase(s: Seq<char>) -> Seq<char> {
    Seq::new(s.len(), |i: int| upper_char(s[i]))
}

/// `s` without its longest prefix of characters in `class`.
pub open spec fn strip_leading(s: Seq<char>, class: CharClass) -> Seq<char>
    decreases s.len(),
{
    if s.len() > 0 && class.holds(s[0]) {
        strip_leading(s.drop_first(), class)
    } else {
        s
    }
}

/// `s` without its longest suffix of characters in `class`.
pub open spec fn strip_trailing(s: Seq<char>, class: CharClass) -> Seq<char>
    decreases s.len(),
{
    if s.len() > 0 && class.holds(s.last()) {
        strip_trailing(s.drop_last(), class)
    } else {
        s
    }
}

/// `s` without surrounding whitespace.
pub open spec fn trimmed(s: Seq<char>) -> Seq<char> {
    strip_trailing(strip_leading(s, CharClass::Whitespace), CharClass::Whitespace)
}

/// Whether every character of `s` is whitespace (true of the empty sequence).
pub open spec fn is_blank(s: Seq<char>) -> bool {
    forall|i: int| 0 <= i < s.len() ==> is_space(#[trigger] s[i])
}

/// The index of the first `c` in `s`, or `s.len()` where there is none.
pub open spec fn find(s: Seq<char>, c: char) -> int
    decreases s.len(),
{
    if s.len() == 0 || s[0] == c {
        0
    } else {
        1 + find(s.drop_first(), c)
    }
}

/// The index of the last `c` in `s`, or `-1` where there is none.
pub open spec fn rfind(s: Seq<char>, c: char) -> int
    decreases s.len(),
{
    if s.len() == 0 {
        -1
    } else if s.last() == c {
        s.len() - 1
    } else {
        rfind(s.drop_last(), c)
    }
}

/// The pieces of `s` between occurrences of `sep`; never empty.
pub open spec fn split(s: Seq<char>, sep: char) -> Seq<Seq<char>>
    decreases s.len(),
{
    let k: int = find(s, sep);
    if 0 <= k < s.len() {
        seq![s.take(k)] + split(s.skip(k + 1), sep)
    } else {
        seq![s]
    }
}

/// The length of the longest prefix of `s` without whitespace.
pub open spec fn word_len(s: Seq<char>) -> int
    decreases s.len(),
{
    if s.len() == 0 || is_space(s[0]) {
        0
    } else {
        1 + word_len(s.drop_first())
    }
}

/// The maximal runs of non-whitespace characters of `s`, in order.
pub open spec fn words(s: Seq<char>) -> Seq<Seq<char>>
    decreases s.len(),
{
    let t: Seq<char> = strip_leading(s, CharClass::Whitespace);
    let k: int = word_len(t);
    if 0 < k <= t.len() && t.len() <= s.len() {
        seq![t.take(k)] + words(t.skip(k))
    } else {
        Seq::empty()
    }
}

/// The pieces in order with `sep` between neighbours.
pub open spec fn join(parts: Seq<Seq<char>>, sep: Seq<char>) -> Seq<char>
    decreases parts.len(),
{
    if parts.len() == 0 {
        Seq::empty()
    } else if parts.len() == 1 {
        parts[0]
    } else {
        join(parts.drop_last(), sep) + sep + parts.last()
    }
}

/// Whether `s` begins with `prefix`.
pub open spec fn starts_with(s: Seq<char>, prefix: Seq<char>) -> bool {
    prefix.len() <= s.len() && s.take(prefix.len() as int) == prefix
}

/// The views of a vector of strings, in order.
pub open spec fn views(v: Seq<String>) -> Seq<Seq<char>> {
    Seq::new(v.len(), |i: int| v[i]@)
}

/// The views of a vector of character vectors, in order.
pub open spec fn char_views(v: Seq<Vec<char>>) -> Seq<Seq<char>> {
    Seq::new(v.len(), |i: int| v[i]@)
}

/// The decimal digits of `n`, most significant first.
pub open spec fn decimal(n: nat) -> Seq<char>
    decreases n,
{
    if n < 10 {
        seq![digit_char(n)]
    } else {
        decimal(n / 10).push(digit_char(n % 10))
    }
}

/// The character of one decimal digit.
pub open spec fn digit_char(d: nat) -> char {
    ((48 + d) as u8) as char
}

/// `strip_leading` removes exactly the first `k` characters where those are
/// in the class and the next one is not.
pub proof fn lemma_strip_leading(s: Seq<char>, class: CharClass, k: int)
    requires
        0 <= k <= s.len(),
        forall|i: int| 0 <= i < k ==> class.holds(#[trigger] s[i]),
        k == s.len() || !class.holds(s[k]),
    ensures
        strip_leading(s, class) == s.skip(k),
    decreases k,
{
    if k == 0 {
        assert(s.skip(0) =~= s);
    } else {
        let t = s.drop_first();
        assert forall|i: int| 0 <= i < k - 1 implies class.holds(#[trigger] t[i]) by {
            assert(t[i] == s[i + 1]);
        }
        lemma_strip_leading(t, class, k - 1);
        assert(t.skip(k - 1) =~= s.skip(k));
    }
}

/// `strip_trailing` keeps exactly the first `k` characters where the rest are
/// in the class and the one before them is not.
pub proof fn lemma_strip_trailing(s: Seq<char>, class: CharClass, k: int)
    requires
        0 <= k <= s.len(),
        forall|i: int| k <= i < s.len() ==> class.holds(#[trigger] s[i]),
        k == 0 || !class.holds(s[k - 1]),
    ensures
        strip_trailing(s, class) == s.take(k),
    decreases s.len() - k,
{
    if k == s.len() {
        assert(s.take(k) =~= s);
    } else {
        let t = s.drop_last();
        lemma_strip_trailing(t, class, k);
        assert(t.take(k) =~= s.take(k));
    }
}

/// What `strip_leading` leaves: a suffix of `s` that does not start with a
/// character of the class.
pub proof fn lemma_strip_leading_shape(s: Seq<char>, class: CharClass)
    ensures
        strip_leading(s, class).len() <= s.len(),
        strip_leading(s, class).len() > 0 ==> !class.holds(strip_leading(s, class)[0])
            && strip_leading(s, class).last() == s.last(),
        forall|i: int|
            0 <= i < strip_leading(s, class).len() ==> s.contains(
                #[trigger] strip_leading(s, class)[i],
            ),
    decreases s.len(),
{
    if s.len() > 0 && class.holds(s[0]) {
        let t = s.drop_first();
        lemma_strip_leading_shape(t, class);
        let r = strip_leading(s, class);
        assert forall|i: int| 0 <= i < r.len() implies s.contains(#[trigger] r[i]) by {
            let j = choose|j: int| 0 <= j < t.len() && t[j] == r[i];
            assert(s[j + 1] == r[i]);
        }
    } else {
        assert forall|i: int| 0 <= i < s.len() implies s.contains(#[trigger] s[i]) by {
            assert(s[i] == s[i]);
        }
    }
}

/// What `strip_trailing` leaves: a prefix of `s` that does not end with a
/// character of the class.
pub proof fn lemma_strip_trailing_shape(s: Seq<char>, class: CharClass)
    ensures
        strip_trailing(s, class).len() <= s.len(),
        strip_trailing(s, class).len() > 0 ==> !class.holds(strip_trailing(s, class).last())
            && strip_trailing(s, class)[0] == s[0],
        forall|i: int|
            0 <= i < strip_trailing(s, class).len() ==> s.contains(
                #[trigger] strip_trailing(s, class)[i],
            ),
    decreases s.len(),
{
    if s.len() > 0 && class.holds(s.last()) {
        let t = s.drop_last();
        lemma_strip_trailing_shape(t, class);
        let r = strip_trailing(s, class);
        assert forall|i: int| 0 <= i < r.len() implies s.contains(#[trigger] r[i]) by {
            let j = choose|j: int| 0 <= j < t.len() && t[j] == r[i];
            assert(s[j] == r[i]);
        }
    } else {
        assert forall|i: int| 0 <= i < s.len() implies s.contains(#[trigger] s[i]) by {
            assert(s[i] == s[i]);
        }
    }
}

/// What `trimmed` leaves: part of `s`, no longer than `s`, with no
/// whitespace at either end.
pub proof fn lemma_trimmed_shape(s: Seq<char>)
    ensures
        trimmed(s).len() <= s.len(),
        trimmed(s).len() > 0 ==> !is_space(trimmed(s)[0]) && !is_space(trimmed(s).last()),
        forall|i: int| 0 <= i < trimmed(s).len() ==> s.contains(#[trigger] trimmed(s)[i]),
{
    let a = strip_leading(s, CharClass::Whitespace);
    lemma_strip_leading_shape(s, CharClass::Whitespace);
    lemma_strip_trailing_shape(a, CharClass::Whitespace);
    let r = trimmed(s);
    assert forall|i: int| 0 <= i < r.len() implies s.contains(#[trigger] r[i]) by {
        assert(a.contains(r[i]));
        let j = choose|j: int| 0 <= j < a.len() && a[j] == r[i];
        assert(s.contains(a[j]));
    }
}

/// What `find` returns: the first index that holds `c`, or the length.
pub proof fn lemma_find_bounds(s: Seq<char>, c: char)
    ensures
        0 <= find(s, c) <= s.len(),
        forall|i: int| 0 <= i < find(s, c) ==> #[trigger] s[i] != c,
        find(s, c) < s.len() ==> s[find(s, c)] == c,
    decreases s.len(),
{
    if s.len() == 0 || s[0] == c {
    } else {
        let t = s.drop_first();
        lemma_find_bounds(t, c);
        assert forall|i: int| 0 <= i < find(s, c) implies #[trigger] s[i] != c by {
            if i > 0 {
                assert(s[i] == t[i - 1]);
            }
        }
    }
}

/// `find` is the only index with the properties of `lemma_find_bounds`.
pub proof fn lemma_find_is(s: Seq<char>, c: char, k: int)
    requires
        0 <= k <= s.len(),
        forall|i: int| 0 <= i < k ==> #[trigger] s[i] != c,
        k == s.len() || s[k] == c,
    ensures
        find(s, c) == k,
{
    lemma_find_bounds(s, c);
}

/// What `rfind` returns: the last index that holds `c`, or `-1`.
pub proof fn lemma_rfind_bounds(s: Seq<char>, c: char)
    ensures
        -1 <= rfind(s, c) < s.len(),
        forall|i: int| rfind(s, c) < i < s.len() ==> #[trigger] s[i] != c,
        0 <= rfind(s, c) ==> s[rfind(s, c)] == c,
    decreases s.len(),
{
    if s.len() == 0 || s.last() == c {
    } else {
        let t = s.drop_last();
        lemma_rfind_bounds(t, c);
        assert forall|i: int| rfind(s, c) < i < s.len() implies #[trigger] s[i] != c by {
            if i < s.len() - 1 {
                assert(s[i] == t[i]);
            }
        }
    }
}

/// `rfind` is the only index with the properties of `lemma_rfind_bounds`.
pub proof fn lemma_rfind_is(s: Seq<char>, c: char, k: int)
    requires
        -1 <= k < s.len(),
        forall|i: int| k < i < s.len() ==> #[trigger] s[i] != c,
        k == -1 || s[k] == c,
    ensures
        rfind(s, c) == k,
{
    lemma_rfind_bounds(s, c);
}

/// What `word_len` returns: the first index that holds whitespace, or the
/// length.
pub proof fn lemma_word_len_bounds(s: Seq<char>)
    ensures
        0 <= word_len(s) <= s.len(),
        forall|i: int| 0 <= i < word_len(s) ==> !is_space(#[trigger] s[i]),
        word_len(s) < s.len() ==> is_space(s[word_len(s)]),
    decreases s.len(),
{
    if s.len() == 0 || is_space(s[0]) {
    } else {
        let t = s.drop_first();
        lemma_word_len_bounds(t);
        assert forall|i: int| 0 <= i < word_len(s) implies !is_space(#[trigger] s[i]) by {
            if i > 0 {
                assert(s[i] == t[i - 1]);
            }
        }
    }
}

/// The characters of a string, in order.
pub fn chars_of(s: &str) -> (v: Vec<char>)
    ensures
        v@ == s@,
{
    broadcast use vstd::string::group_string_axioms;

    let mut v: Vec<char> = Vec::new();
    for c in it: s.chars()
        invariant
            it.seq() == s@,
            v@ == it.seq().take(it.index() as int),
    {
        v.push(c);
    }
    assert(v@ == s@.take(s@.len() as int));
    v
}

/// The string made of the given characters.
pub fn text_of(v: &Vec<char>) -> (s: String)
    ensures
        s@ == v@,
{
    let mut s = String::new();
    let mut i: usize = 0;
    while i < v.len()
        invariant
            i <= v.len(),
            s@ == v@.take(i as int),
        decreases v.len() - i,
    {
        s.push(v[i]);
        i += 1;
    }
    assert(v@.take(v.len() as int) == v@);
    s
}

/// The characters of `v` from `lo` up to `hi`.
pub fn slice(v: &Vec<char>, lo: usize, hi: usize) -> (r: Vec<char>)
    requires
        lo <= hi <= v.len(),
    ensures
        r@ == v@.subrange(lo as int, hi as int),
{
    let mut r: Vec<char> = Vec::new();
    let mut i: usize = lo;
    while i < hi
        invariant
            lo <= i <= hi <= v.len(),
            r@ == v@.subrange(lo as int, i as int),
        decreases hi - i,
    {
        r.push(v[i]);
        i += 1;
    }
    r
}

/// Appends the characters of `tail` to `v`.
pub fn append(v: &mut Vec<char>, tail: &Vec<char>)
    ensures
        final(v)@ == old(v)@ + tail@,
{
    let mut i: usize = 0;
    while i < tail.len()
        invariant
            i <= tail.len(),
            v@ == old(v)@ + tail@.take(i as int),
        decreases tail.len() - i,
    {
        v.push(tail[i]);
        i += 1;
    }
    assert(tail@.take(tail.len() as int) == tail@);
}

/// Appends the characters of a string to `v`.
pub fn append_str(v: &mut Vec<char>, tail: &str)
    ensures
        final(v)@ == old(v)@ + tail@,
{
    let t = chars_of(tail);
    append(v, &t);
}

/// Whether two character vectors hold the same sequence.
pub fn equal(a: &Vec<char>, b: &Vec<char>) -> (r: bool)
    ensures
        r == (a@ == b@),
{
    if a.len() != b.len() {
        return false;
    }
    let mut i: usize = 0;
    while i < a.len()
        invariant
            a.len() == b.len(),
            i <= a.len(),
            forall|j: int| 0 <= j < i ==> a@[j] == b@[j],
        decreases a.len() - i,
    {
        if a[i] != b[i] {
            return false;
        }
        i += 1;
    }
    assert(a@ =~= b@);
    true
}

/// Whether `v` begins with `prefix`.
pub fn has_prefix(v: &Vec<char>, prefix: &Vec<char>) -> (r: bool)
    ensures
        r == starts_with(v@, prefix@),
{
    if prefix.len() > v.len() {
        return false;
    }
    let mut i: usize = 0;
    while i < prefix.len()
        invariant
            prefix.len() <= v.len(),
            i <= prefix.len(),
            forall|j: int| 0 <= j < i ==> v@[j] == prefix@[j],
        decreases prefix.len() - i,
    {
        if v[i] != prefix[i] {
            assert(v@.take(prefix.len() as int)[i as int] != prefix@[i as int]);
            return false;
        }
        i += 1;
    }
    assert(v@.take(prefix.len() as int) =~= prefix@);
    true
}

/// `v` in ASCII lower case.
pub fn to_lowercase(v: &Vec<char>) -> (r: Vec<char>)
    ensures
        r@ == lowercase(v@),
{
    let mut r: Vec<char> = Vec::new();
    let mut i: usize = 0;
    while i < v.len()
        invariant
            i <= v.len(),
            r@ == lowercase(v@).take(i as int),
        decreases v.len() - i,
    {
        r.push(to_lower_char(v[i]));
        assert(r@ =~= lowercase(v@).take(i + 1));
        i += 1;
    }
    assert(lowercase(v@).take(v.len() as int) =~= lowercase(v@));
    r
}

/// `v` in ASCII upper case.
pub fn to_uppercase(v: &Vec<char>) -> (r: Vec<char>)
    ensures
        r@ == uppercase(v@),
{
    let mut r: Vec<char> = Vec::new();
    let mut i: usize = 0;
    while i < v.len()
        invariant
            i <= v.len(),
            r@ == uppercase(v@).take(i as int),
        decreases v.len() - i,
    {
        r.push(to_upper_char(v[i]));
        assert(r@ =~= uppercase(v@).take(i + 1));
        i += 1;
    }
    assert(uppercase(v@).take(v.len() as int) =~= uppercase(v@));
    r
}

/// How many characters at the start of `v` are in `class`.
pub fn leading_len(v: &Vec<char>, class: CharClass) -> (k: usize)
    ensures
        k <= v.len(),
        strip_leading(v@, class) == v@.skip(k as int),
{
    let mut k: usize = 0;
    while k < v.len() && class.test(v[k])
        invariant
            k <= v.len(),
            forall|i: int| 0 <= i < k ==> class.holds(#[trigger] v@[i]),
        decreases v.len() - k,
    {
        k += 1;
    }
    proof {
        lemma_strip_leading(v@, class, k as int);
    }
    k
}

/// `v` without its longest prefix of characters in `class`.
pub fn strip_start(v: &Vec<char>, class: CharClass) -> (r: Vec<char>)
    ensures
        r@ == strip_leading(v@, class),
{
    let k = leading_len(v, class);
    slice(v, k, v.len())
}

/// `v` without its longest suffix of characters in `class`.
pub fn strip_end(v: &Vec<char>, class: CharClass) -> (r: Vec<char>)
    ensures
        r@ == strip_trailing(v@, class),
{
    let mut k: usize = v.len();
    while k > 0 && class.test(v[k - 1])
        invariant
            k <= v.len(),
            forall|i: int| k <= i < v.len() ==> class.holds(#[trigger] v@[i]),
        decreases k,
    {
        k -= 1;
    }
    proof {
        lemma_strip_trailing(v@, class, k as int);
    }
    slice(v, 0, k)
}

/// `v` without surrounding whitespace.
pub fn trim(v: &Vec<char>) -> (r: Vec<char>)
    ensures
        r@ == trimmed(v@),
{
    let t = strip_start(v, CharClass::Whitespace);
    strip_end(&t, CharClass::Whitespace)
}

/// Whether `v` holds nothing but whitespace.
pub fn blank(v: &Vec<char>) -> (r: bool)
    ensures
        r == is_blank(v@),
{
    let mut i: usize = 0;
    while i < v.len()
        invariant
            i <= v.len(),
            forall|j: int| 0 <= j < i ==> is_space(#[trigger] v@[j]),
        decreases v.len() - i,
    {
        if !is_whitespace(v[i]) {
            return false;
        }
        i += 1;
    }
    true
}

/// The index of the first `c` in `v`, or its length.
pub fn find_char(v: &Vec<char>, c: char) -> (k: usize)
    ensures
        k == find(v@, c),
        k <= v.len(),
{
    let mut k: usize = 0;
    while k < v.len() && v[k] != c
        invariant
            k <= v.len(),
            forall|i: int| 0 <= i < k ==> #[trigger] v@[i] != c,
        decreases v.len() - k,
    {
        k += 1;
    }
    proof {
        lemma_find_is(v@, c, k as int);
    }
    k
}

/// The index of the last `c` in `v`.
pub fn rfind_char(v: &Vec<char>, c: char) -> (r: Option<usize>)
    ensures
        match r {
            Some(k) => k == rfind(v@, c) && k < v.len(),
            None => rfind(v@, c) == -1,
        },
{
    let mut k: usize = v.len();
    while k > 0 && v[k - 1] != c
        invariant
            k <= v.len(),
            forall|i: int| k <= i < v.len() ==> #[trigger] v@[i] != c,
        decreases k,
    {
        k -= 1;
    }
    proof {
        lemma_rfind_is(v@, c, k as int - 1);
    }
    if k == 0 {
        None
    } else {
        Some(k - 1)
    }
}

/// No piece of a split holds the separator.
pub proof fn lemma_split_pieces_have_no_sep(s: Seq<char>, sep: char)
    ensures
        split(s, sep).len() > 0,
        forall|i: int, j: int|
            0 <= i < split(s, sep).len() && 0 <= j < split(s, sep)[i].len() ==> #[trigger] split(
                s,
                sep,
            )[i][j] != sep,
    decreases s.len(),
{
    let k = find(s, sep);
    lemma_find_bounds(s, sep);
    let parts = split(s, sep);
    if 0 <= k < s.len() {
        let rest = split(s.skip(k + 1), sep);
        lemma_split_pieces_have_no_sep(s.skip(k + 1), sep);
        assert forall|i: int, j: int|
            0 <= i < parts.len() && 0 <= j < parts[i].len() implies #[trigger] parts[i][j]
            != sep by {
            if i == 0 {
                assert(parts[0] == s.take(k));
                assert(parts[0][j] == s[j]);
            } else {
                assert(parts[i] == rest[i - 1]);
            }
        }
    } else {
        assert forall|i: int, j: int|
            0 <= i < parts.len() && 0 <= j < parts[i].len() implies #[trigger] parts[i][j]
            != sep by {
            assert(parts[i] == s);
        }
    }
}

/// `word_len` is the only index with the properties of
/// `lemma_word_len_bounds`.
pub proof fn lemma_word_len_is(s: Seq<char>, k: int)
    requires
        0 <= k <= s.len(),
        forall|i: int| 0 <= i < k ==> !is_space(#[trigger] s[i]),
        k == s.len() || is_space(s[k]),
    ensures
        word_len(s) == k,
{
    lemma_word_len_bounds(s);
}

/// Pushing a string onto a vector of strings pushes its view onto the views.
pub proof fn lemma_views_push(v: Seq<String>, x: String)
    ensures
        views(v.push(x)) == views(v).push(x@),
{
    assert(views(v.push(x)) =~= views(v).push(x@));
}

/// A copy of the strings.
pub fn clone_texts(v: &Vec<String>) -> (r: Vec<String>)
    ensures
        views(r@) == views(v@),
{
    let mut r: Vec<String> = Vec::new();
    let mut i: usize = 0;
    while i < v.len()
        invariant
            i <= v.len(),
            views(r@) == views(v@).take(i as int),
        decreases v.len() - i,
    {
        let copy = v[i].clone();
        proof {
            lemma_views_push(r@, copy);
            assert(views(v@).take(i as int).push(copy@) =~= views(v@).take(i + 1));
        }
        r.push(copy);
        i += 1;
    }
    assert(views(v@).take(v.len() as int) =~= views(v@));
    r
}

/// Pushing a vector onto a vector of vectors pushes its view onto the views.
pub proof fn lemma_char_views_push(v: Seq<Vec<char>>, x: Vec<char>)
    ensures
        char_views(v.push(x)) == char_views(v).push(x@),
{
    assert(char_views(v.push(x)) =~= char_views(v).push(x@));
}

/// The pieces of `v` between occurrences of `sep`.
pub fn split_on(v: &Vec<char>, sep: char) -> (r: Vec<Vec<char>>)
    ensures
        char_views(r@) == split(v@, sep),
{
    let mut r: Vec<Vec<char>> = Vec::new();
    let mut start: usize = 0;
    let mut i: usize = 0;
    assert(v@.skip(0) =~= v@);
    assert(char_views(r@) + split(v@, sep) =~= split(v@, sep));
    while i < v.len()
        invariant
            start <= i <= v.len(),
            forall|j: int| start <= j < i ==> #[trigger] v@[j] != sep,
            split(v@, sep) == char_views(r@) + split(v@.skip(start as int), sep),
        decreases v.len() - i,
    {
        if v[i] == sep {
            let piece = slice(v, start, i);
            proof {
                let rest = v@.skip(start as int);
                lemma_find_is(rest, sep, i - start);
                assert(rest.take(i - start) =~= piece@);
                assert(rest.skip(i - start + 1) =~= v@.skip(i + 1));
                lemma_char_views_push(r@, piece);
                assert(char_views(r@).push(piece@) + split(v@.skip(i + 1), sep) =~= char_views(r@)
                    + (seq![piece@] + split(v@.skip(i + 1), sep)));
            }
            r.push(piece);
            start = i + 1;
        }
        i += 1;
    }
    let piece = slice(v, start, v.len());
    proof {
        let rest = v@.skip(start as int);
        lemma_find_is(rest, sep, v.len() - start);
        assert(rest =~= piece@);
        lemma_char_views_push(r@, piece);
        assert(char_views(r@).push(piece@) =~= char_views(r@) + seq![piece@]);
    }
    r.push(piece);
    r
}

/// The maximal runs of non-whitespace characters of `v`, in order.
pub fn split_words(v: &Vec<char>) -> (r: Vec<Vec<char>>)
    ensures
        char_views(r@) == words(v@),
{
    let mut r: Vec<Vec<char>> = Vec::new();
    let mut i: usize = 0;
    assert(v@.skip(0) =~= v@);
    assert(char_views(r@) + words(v@) =~= words(v@));
    while i < v.len()
        invariant
            i <= v.len(),
            words(v@) == char_views(r@) + words(v@.skip(i as int)),
        decreases v.len() - i,
    {
        let ghost rest = v@.skip(i as int);
        let mut a: usize = i;
        while a < v.len() && is_whitespace(v[a])
            invariant
                i <= a <= v.len(),
                forall|j: int| i <= j < a ==> is_space(#[trigger] v@[j]),
            decreases v.len() - a,
        {
            a += 1;
        }
        let mut b: usize = a;
        while b < v.len() && !is_whitespace(v[b])
            invariant
                a <= b <= v.len(),
                forall|j: int| a <= j < b ==> !is_space(#[trigger] v@[j]),
            decreases v.len() - b,
        {
            b += 1;
        }
        proof {
            assert forall|j: int| 0 <= j < a - i implies CharClass::Whitespace.holds(
                #[trigger] rest[j],
            ) by {
                assert(rest[j] == v@[i + j]);
            }
            lemma_strip_leading(rest, CharClass::Whitespace, a - i);
            let t = rest.skip(a - i);
            assert(t =~= v@.skip(a as int));
            assert forall|j: int| 0 <= j < b - a implies !is_space(#[trigger] t[j]) by {
                assert(t[j] == v@[a + j]);
            }
            lemma_word_len_is(t, b - a);
            assert(t.skip(b - a) =~= v@.skip(b as int));
        }
        if b > a {
            let piece = slice(v, a, b);
            proof {
                let t = v@.skip(a as int);
                assert(t.take(b - a) =~= piece@);
                lemma_char_views_push(r@, piece);
                assert(char_views(r@).push(piece@) + words(v@.skip(b as int)) =~= char_views(r@)
                    + (seq![piece@] + words(v@.skip(b as int))));
            }
            r.push(piece);
            i = b;
        } else {
            proof {
                assert(words(rest) =~= Seq::<Seq<char>>::empty());
                assert(a == v.len());
                assert(words(v@.skip(a as int)) =~= Seq::<Seq<char>>::empty());
            }
            i = a;
        }
    }
    proof {
        assert(words(v@.skip(i as int)) =~= Seq::<Seq<char>>::empty());
        assert(char_views(r@) + Seq::<Seq<char>>::empty() =~= char_views(r@));
    }
    r
}

/// The pieces in order with `sep` between neighbours.
pub fn join_with(parts: &Vec<Vec<char>>, sep: &Vec<char>) -> (r: Vec<char>)
    ensures
        r@ == join(char_views(parts@), sep@),
{
    let mut r: Vec<char> = Vec::new();
    let mut i: usize = 0;
    let ghost all = char_views(parts@);
    while i < parts.len()
        invariant
            i <= parts.len(),
            all == char_views(parts@),
            r@ == join(all.take(i as int), sep@),
        decreases parts.len() - i,
    {
        proof {
            let next = all.take(i + 1);
            assert(next.drop_last() =~= all.take(i as int));
            assert(next.last() == parts@[i as int]@);
            if i == 0 {
                assert(join(all.take(0), sep@) =~= Seq::<char>::empty());
                assert(Seq::<char>::empty() + parts@[0]@ =~= parts@[0]@);
            }
        }
        if i > 0 {
            append(&mut r, sep);
        }
        append(&mut r, &parts[i]);
        i += 1;
    }
    assert(all.take(parts.len() as int) =~= all);
    r
}

/// The decimal digits of `n`.
pub fn decimal_of(n: usize) -> (r: Vec<char>)
    ensures
        r@ == decimal(n as nat),
    decreases n,
{
    if n < 10 {
        let d: u8 = 48 + (n as u8);
        let mut r: Vec<char> = Vec::new();
        r.push(d as char);
        assert(r@ =~= seq![digit_char(n as nat)]);
        r
    } else {
        let mut r = decimal_of(n / 10);
        let d: u8 = 48 + ((n % 10) as u8);
        r.push(d as char);
        r
    }
}

/// Whether `c` is a decimal digit.
pub open spec fn is_digit(c: char) -> bool {
    '0' <= c && c <= '9'
}

/// Whether `s` is one or more decimal digits.
pub open spec fn all_digits(s: Seq<char>) -> bool {
    s.len() > 0 && forall|i: int| 0 <= i < s.len() ==> is_digit(#[trigger] s[i])
}

/// The number that the digits of `s` write in base ten.
pub open spec fn digits_value(s: Seq<char>) -> nat
    decreases s.len(),
{
    if s.len() == 0 {
        0
    } else {
        digits_value(s.drop_last()) * 10 + ((s.last() as u32 - 48) as nat)
    }
}

/// `s` without a sign at its start; `minus` says whether `-` is a sign too.
pub open spec fn unsigned_part(s: Seq<char>, minus: bool) -> Seq<char> {
    if s.len() > 0 && (s[0] == '+' || (minus && s[0] == '-')) {
        s.drop_first()
    } else {
        s
    }
}

/// The number that `s` writes, where it is an optional `+` and digits that
/// write a number up to `max`.
pub open spec fn parse_unsigned(s: Seq<char>, max: nat) -> Option<nat> {
    let body: Seq<char> = unsigned_part(s, false);
    if all_digits(body) && digits_value(body) <= max {
        Some(digits_value(body))
    } else {
        None
    }
}

/// The number that `s` writes, where it is an optional sign and digits that
/// write a number from `min` to `max`.
pub open spec fn parse_signed(s: Seq<char>, min: int, max: int) -> Option<int> {
    let body: Seq<char> = unsigned_part(s, true);
    let value: int = if s.len() > 0 && s[0] == '-' {
        -(digits_value(body) as int)
    } else {
        digits_value(body) as int
    };
    if all_digits(body) && min <= value <= max {
        Some(value)
    } else {
        None
    }
}

/// A longer run of digits writes no smaller number than its prefix.
pub proof fn lemma_digits_value_grows(s: Seq<char>, k: int)
    requires
        0 <= k <= s.len(),
        forall|i: int| 0 <= i < s.len() ==> is_digit(#[trigger] s[i]),
    ensures
        digits_value(s.take(k)) <= digits_value(s),
    decreases s.len() - k,
{
    if k == s.len() {
        assert(s.take(k) =~= s);
    } else {
        let t = s.drop_last();
        assert(t.take(k) =~= s.take(k));
        lemma_digits_value_grows(t, k);
    }
}

/// The number that the characters of `v` from `start` on write, where they
/// are digits that write a number up to `limit`.
pub fn digits_from(v: &Vec<char>, start: usize, limit: u128) -> (r: Option<u128>)
    requires
        start <= v.len(),
        limit <= 0x1_0000_0000_0000_0000,
    ensures
        r is Some <==> all_digits(v@.skip(start as int)) && digits_value(v@.skip(start as int))
            <= limit,
        r matches Some(n) ==> n == digits_value(v@.skip(start as int)),
{
    let ghost body = v@.skip(start as int);
    if start == v.len() {
        return None;
    }
    let mut acc: u128 = 0;
    let mut i: usize = start;
    assert(body.take(0) =~= Seq::<char>::empty());
    while i < v.len()
        invariant
            start <= i <= v.len(),
            body == v@.skip(start as int),
            limit <= 0x1_0000_0000_0000_0000,
            acc <= limit,
            acc == digits_value(body.take(i - start)),
            forall|j: int| 0 <= j < i - start ==> is_digit(#[trigger] body[j]),
        decreases v.len() - i,
    {
        let c = v[i];
        if !('0' <= c && c <= '9') {
            assert(!is_digit(body[i - start]));
            return None;
        }
        let d: u128 = (c as u32 - 48) as u128;
        let ghost before = body.take(i - start);
        let ghost after = body.take(i - start + 1);
        proof {
            assert(after.drop_last() =~= before);
            assert(after.last() == c);
        }
        acc = acc * 10 + d;
        if acc > limit {
            proof {
                if all_digits(body) {
                    lemma_digits_value_grows(body, i - start + 1);
                }
            }
            return None;
        }
        i += 1;
    }
    assert(body.take(v.len() - start) =~= body);
    Some(acc)
}

/// Reads an unsigned number as `str::parse::<usize>` does: an optional `+`,
/// then digits, within the range of `usize`.
pub fn parse_usize(v: &Vec<char>) -> (r: Option<usize>)
    ensures
        match r {
            Some(n) => parse_unsigned(v@, usize::MAX as nat) == Some(n as nat),
            None => parse_unsigned(v@, usize::MAX as nat) is None,
        },
{
    let start: usize = if v.len() > 0 && v[0] == '+' {
        1
    } else {
        0
    };
    assert(v@.skip(start as int) =~= unsigned_part(v@, false));
    match digits_from(v, start, usize::MAX as u128) {
        Some(n) => Some(n as usize),
        None => None,
    }
}

/// Reads a signed number as `str::parse::<i64>` does: an optional sign, then
/// digits, within the range of `i64`.
pub fn parse_i64(v: &Vec<char>) -> (r: Option<i64>)
    ensures
        match r {
            Some(n) => parse_signed(v@, i64::MIN as int, i64::MAX as int) == Some(n as int),
            None => parse_signed(v@, i64::MIN as int, i64::MAX as int) is None,
        },
{
    let negative = v.len() > 0 && v[0] == '-';
    let start: usize = if v.len() > 0 && (v[0] == '+' || v[0] == '-') {
        1
    } else {
        0
    };
    assert(v@.skip(start as int) =~= unsigned_part(v@, true));
    let limit: u128 = if negative {
        0x8000_0000_0000_0000
    } else {
        0x7fff_ffff_ffff_ffff
    };
    match digits_from(v, start, limit) {
        Some(n) => {
            if negative {
                Some((-(n as i128)) as i64)
            } else {
                Some(n as i64)
            }
        },
        None => None,
    }
}

/// The canonical form of a name: trimmed, in ASCII lower case.
pub open spec fn canonical(s: Seq<char>) -> Seq<char> {
    lowercase(trimmed(s))
}

/// The canonical form of a name: trimmed, in ASCII lower case.
pub fn canonical_chars(v: &Vec<char>) -> (r: Vec<char>)
    ensures
        r@ == canonical(v@),
{
    let t = trim(v);
    to_lowercase(&t)
}

/// Whether one of the strings of `list` holds the characters of `x`.
pub fn contains_text(list: &Vec<String>, x: &Vec<char>) -> (b: bool)
    ensures
        b == views(list@).contains(x@),
{
    let mut i: usize = 0;
    while i < list.len()
        invariant
            i <= list.len(),
            forall|j: int| 0 <= j < i ==> #[trigger] views(list@)[j] != x@,
        decreases list.len() - i,
    {
        let item = chars_of(list[i].as_str());
        if equal(&item, x) {
            assert(views(list@)[i as int] == x@);
            return true;
        }
        i += 1;
    }
    false
}

} // verus!
