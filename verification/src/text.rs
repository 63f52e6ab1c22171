//! Characters, whitespace and trimming.

use vstd::prelude::*;

verus! {

/// Unicode's `White_Space` property.
pub open spec fn is_space(c: char) -> bool {
    let n = c as u32;
    ||| 0x09 <= n <= 0x0D
    ||| n == 0x20
    ||| n == 0x85
    ||| n == 0xA0
    ||| n == 0x1680
    ||| 0x2000 <= n <= 0x200A
    ||| n == 0x2028
    ||| n == 0x2029
    ||| n == 0x202F
    ||| n == 0x205F
    ||| n == 0x3000
}

/// Tells whether `c` is a whitespace character.
pub fn is_whitespace(c: char) -> (b: bool)
    ensures
        b == is_space(c),
{
    let n: u32 = c as u32;
    (0x09 <= n && n <= 0x0D) || n == 0x20 || n == 0x85 || n == 0xA0 || n == 0x1680 || (0x2000 <= n
        && n <= 0x200A) || n == 0x2028 || n == 0x2029 || n == 0x202F || n == 0x205F || n == 0x3000
}

/// The characters of `s`, in order.
pub fn chars_of(s: &str) -> (v: Vec<char>)
    ensures
        v@ == s@,
{
    let mut it = s.chars();
    let mut v: Vec<char> = Vec::new();
    for c in iter: it
        invariant
            v@ == iter.seq().take(iter.index()),
    {
        v.push(c);
    }
    v
}

/// `String::push` appends one character: afterwards the string holds what it
/// held before, followed by `c`.
pub assume_specification[ String::push ](s: &mut String, c: char)
    ensures
        final(s)@ == old(s)@.push(c),
;

/// The characters `chars[from..to]` as a string.
pub fn string_of(chars: &Vec<char>, from: usize, to: usize) -> (r: String)
    requires
        from <= to <= chars.len(),
    ensures
        r@ == chars@.subrange(from as int, to as int),
{
    let mut r = String::new();
    let mut i: usize = from;
    while i < to
        invariant
            from <= i <= to <= chars.len(),
            r@ == chars@.subrange(from as int, i as int),
        decreases to - i,
    {
        r.push(chars[i]);
        i += 1;
        assert(r@ =~= chars@.subrange(from as int, i as int));
    }
    r
}

/// The characters `chars[from..to]` as a vector of their own.
pub fn slice_of(chars: &Vec<char>, from: usize, to: usize) -> (r: Vec<char>)
    requires
        from <= to <= chars.len(),
    ensures
        r@ == chars@.subrange(from as int, to as int),
{
    let mut r: Vec<char> = Vec::new();
    let mut i: usize = from;
    while i < to
        invariant
            from <= i <= to <= chars.len(),
            r@ == chars@.subrange(from as int, i as int),
        decreases to - i,
    {
        r.push(chars[i]);
        i += 1;
        assert(r@ =~= chars@.subrange(from as int, i as int));
    }
    r
}

/// Index of the first `c` in `s`, or `s.len()` where `s` holds none.
pub open spec fn position(s: Seq<char>, c: char) -> nat
    decreases s.len(),
{
    if s.len() == 0 || s[0] == c {
        0
    } else {
        1 + position(s.drop_first(), c)
    }
}

/// `position` is the one index before which no `c` stands and at which one
/// does, or the length.
pub proof fn lemma_position(s: Seq<char>, c: char, k: int)
    requires
        0 <= k <= s.len(),
        forall|i: int| 0 <= i < k ==> s[i] != c,
        k == s.len() || s[k] == c,
    ensures
        position(s, c) == k,
    decreases k,
{
    if k > 0 {
        let t = s.drop_first();
        assert forall|i: int| 0 <= i < k - 1 implies t[i] != c by {
            assert(t[i] == s[i + 1]);
        }
        lemma_position(t, c, k - 1);
    }
}

/// Where the first `c` of `chars[from..to]` stands, or `to` where there is none.
pub fn find_char(chars: &Vec<char>, from: usize, to: usize, c: char) -> (k: usize)
    requires
        from <= to <= chars.len(),
    ensures
        from <= k <= to,
        k == from + position(chars@.subrange(from as int, to as int), c),
{
    let mut k: usize = from;
    while k < to && chars[k] != c
        invariant
            from <= k <= to <= chars.len(),
            forall|i: int| from <= i < k ==> chars@[i] != c,
        decreases to - k,
    {
        k += 1;
    }
    proof {
        lemma_position(chars@.subrange(from as int, to as int), c, k - from);
    }
    k
}

/// `s` without its leading whitespace.
pub open spec fn trim_start(s: Seq<char>) -> Seq<char>
    decreases s.len(),
{
    if s.len() > 0 && is_space(s[0]) {
        trim_start(s.drop_first())
    } else {
        s
    }
}

/// `s` without its trailing whitespace.
pub open spec fn trim_end(s: Seq<char>) -> Seq<char>
    decreases s.len(),
{
    if s.len() > 0 && is_space(s.last()) {
        trim_end(s.drop_last())
    } else {
        s
    }
}

/// `s` without its surrounding whitespace.
pub open spec fn trim(s: Seq<char>) -> Seq<char> {
    trim_end(trim_start(s))
}

proof fn lemma_trim_start_range(s: Seq<char>, a: int, b: int, m: int)
    requires
        0 <= a <= m <= b <= s.len(),
        forall|i: int| a <= i < m ==> is_space(s[i]),
        m == b || !is_space(s[m]),
    ensures
        trim_start(s.subrange(a, b)) == s.subrange(m, b),
    decreases m - a,
{
    let sub = s.subrange(a, b);
    if a < m {
        assert(sub[0] == s[a]);
        assert(sub.drop_first() =~= s.subrange(a + 1, b));
        lemma_trim_start_range(s, a + 1, b, m);
    } else if sub.len() > 0 {
        assert(sub[0] == s[m]);
    }
}

proof fn lemma_trim_end_range(s: Seq<char>, a: int, b: int, m: int)
    requires
        0 <= a <= m <= b <= s.len(),
        forall|i: int| m <= i < b ==> is_space(s[i]),
        m == a || !is_space(s[m - 1]),
    ensures
        trim_end(s.subrange(a, b)) == s.subrange(a, m),
    decreases b - m,
{
    let sub = s.subrange(a, b);
    if m < b {
        assert(sub.last() == s[b - 1]);
        assert(sub.drop_last() =~= s.subrange(a, b - 1));
        lemma_trim_end_range(s, a, b - 1, m);
    } else if sub.len() > 0 {
        assert(sub.last() == s[m - 1]);
    }
}

/// `s[a..b]` is `s` without its surrounding whitespace: whitespace alone
/// stands before `a` and from `b` on, and the part between, where there is
/// one, neither begins nor ends with whitespace.
pub open spec fn trims_to(s: Seq<char>, a: int, b: int) -> bool {
    &&& 0 <= a <= b <= s.len()
    &&& forall|i: int| 0 <= i < a ==> is_space(#[trigger] s[i])
    &&& forall|i: int| b <= i < s.len() ==> is_space(#[trigger] s[i])
    &&& a < b ==> !is_space(s[a]) && !is_space(s[b - 1])
}

/// `trim` gives the one part of `s` that is `s` without its surrounding
/// whitespace.
pub proof fn lemma_trim_is_the_inner_part(s: Seq<char>, a: int, b: int)
    requires
        trims_to(s, a, b),
    ensures
        trim(s) == s.subrange(a, b),
{
    let n = s.len() as int;
    assert(s.subrange(0, n) =~= s);
    if a < b {
        lemma_trim_start_range(s, 0, n, a);
        lemma_trim_end_range(s, a, n, b);
    } else {
        lemma_trim_start_range(s, 0, n, n);
        assert(s.subrange(n, n) =~= s.subrange(a, b));
    }
}

/// The bounds of `chars[from..to]` without its surrounding whitespace.
pub fn trim_bounds(chars: &Vec<char>, from: usize, to: usize) -> (r: (usize, usize))
    requires
        from <= to <= chars.len(),
    ensures
        from <= r.0 <= r.1 <= to,
        chars@.subrange(r.0 as int, r.1 as int) == trim(chars@.subrange(from as int, to as int)),
{
    let mut a: usize = from;
    while a < to && is_whitespace(chars[a])
        invariant
            from <= a <= to <= chars.len(),
            forall|i: int| from <= i < a ==> is_space(chars@[i]),
        decreases to - a,
    {
        a += 1;
    }
    let mut b: usize = to;
    while b > a && is_whitespace(chars[b - 1])
        invariant
            a <= b <= to <= chars.len(),
            forall|i: int| b <= i < to ==> is_space(chars@[i]),
        decreases b - a,
    {
        b -= 1;
    }
    proof {
        lemma_trim_start_range(chars@, from as int, to as int, a as int);
        lemma_trim_end_range(chars@, a as int, to as int, b as int);
    }
    (a, b)
}

/// `chars[from..to]` without its surrounding whitespace, as a string.
pub fn trimmed(chars: &Vec<char>, from: usize, to: usize) -> (r: String)
    requires
        from <= to <= chars.len(),
    ensures
        r@ == trim(chars@.subrange(from as int, to as int)),
{
    let (a, b) = trim_bounds(chars, from, to);
    string_of(chars, a, b)
}

} // verus!
