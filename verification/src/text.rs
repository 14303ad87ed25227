//! Character-level string helpers: Unicode lowercasing and trimming (from std),
//! ordering, substring search and path components.
use vstd::prelude::*;

verus! {

/// What `str::to_lowercase` gives for a string of characters.
pub uninterp spec fn lowercase_of(s: Seq<char>) -> Seq<char>;


/// Calls `str::to_lowercase`. Claimed: the characters of the result are the
/// fixed function `lowercase_of` of the characters of `s` (the Unicode
/// lowercase mapping of std); nothing more of that mapping is stated.
#[verifier::external_body]
pub(crate) fn to_lowercase(s: &str) -> (res: String)
    ensures
        res@ == lowercase_of(s@),
{
    s.to_lowercase()
}

/// A character with the Unicode White_Space property (`char::is_whitespace`).
pub open spec fn is_white_space(c: char) -> bool {
    let v = c as int;
    ||| 0x9 <= v <= 0xd
    ||| v == 0x20
    ||| v == 0x85
    ||| v == 0xa0
    ||| v == 0x1680
    ||| 0x2000 <= v <= 0x200a
    ||| v == 0x2028
    ||| v == 0x2029
    ||| v == 0x202f
    ||| v == 0x205f
    ||| v == 0x3000
}

/// Position of the first character from `i` on that is not white space.
pub open spec fn leading_end(s: Seq<char>, i: int) -> int
    decreases s.len() - i,
{
    if i < 0 || i >= s.len() {
        s.len() as int
    } else if is_white_space(s[i]) {
        leading_end(s, i + 1)
    } else {
        i
    }
}

/// Position just after the last character before `j` that is not white space.
pub open spec fn trailing_start(s: Seq<char>, j: int) -> int
    decreases j,
{
    if j <= 0 || j > s.len() {
        0
    } else if is_white_space(s[j - 1]) {
        trailing_start(s, j - 1)
    } else {
        j
    }
}

/// A string without its leading and trailing white space (`str::trim`).
pub open spec fn trimmed_of(s: Seq<char>) -> Seq<char> {
    let a = leading_end(s, 0);
    let b = trailing_start(s, s.len() as int);
    if a >= b {
        Seq::empty()
    } else {
        s.subrange(a, b)
    }
}

fn white_space(c: char) -> (r: bool)
    ensures
        r == is_white_space(c),
{
    let v = c as u32;
    (0x9 <= v && v <= 0xd) || v == 0x20 || v == 0x85 || v == 0xa0 || v == 0x1680 || (0x2000 <= v
        && v <= 0x200a) || v == 0x2028 || v == 0x2029 || v == 0x202f || v == 0x205f || v == 0x3000
}

/// The string without leading and trailing Unicode white space.
pub fn trim<'a>(s: &'a str) -> (res: &'a str)
    ensures
        res@ == trimmed_of(s@),
{
    let n = s.unicode_len();
    let mut a: usize = 0;
    while a < n && white_space(s.get_char(a))
        invariant
            n == s@.len(),
            a <= n,
            leading_end(s@, 0) == leading_end(s@, a as int),
        decreases n - a,
    {
        a = a + 1;
    }
    let mut b: usize = n;
    while b > 0 && white_space(s.get_char(b - 1))
        invariant
            n == s@.len(),
            b <= n,
            trailing_start(s@, n as int) == trailing_start(s@, b as int),
        decreases b,
    {
        b = b - 1;
    }
    proof {
        assert(leading_end(s@, 0) == a);
        assert(trailing_start(s@, n as int) == b);
    }
    if a >= b {
        proof {
            assert(s@.subrange(0, 0) =~= Seq::<char>::empty());
        }
        s.substring_char(0, 0)
    } else {
        s.substring_char(a, b)
    }
}

/// Calls `String::push`. Claimed: the character is appended at the end.
#[verifier::external_body]
pub(crate) fn push_char(s: &mut String, c: char)
    ensures
        final(s)@ == old(s)@.push(c),
{
    s.push(c)
}

/// Strict lexicographic order on character sequences (by code point),
/// comparing from position `i` on. This is the order of `str`'s `Ord`.
pub open spec fn lex_less_at(a: Seq<char>, b: Seq<char>, i: int) -> bool
    decreases a.len() - i,
{
    if i < 0 || i >= a.len() {
        0 <= i < b.len()
    } else if i >= b.len() {
        false
    } else if a[i] != b[i] {
        (a[i] as int) < (b[i] as int)
    } else {
        lex_less_at(a, b, i + 1)
    }
}

/// `a` sorts strictly before `b`.
pub open spec fn lex_less(a: Seq<char>, b: Seq<char>) -> bool {
    lex_less_at(a, b, 0)
}

pub proof fn lemma_lex_less_irreflexive(a: Seq<char>, i: int)
    requires
        0 <= i,
    ensures
        !lex_less_at(a, a, i),
    decreases a.len() - i,
{
    if i < a.len() {
        lemma_lex_less_irreflexive(a, i + 1);
    }
}

pub proof fn lemma_lex_less_transitive(a: Seq<char>, b: Seq<char>, c: Seq<char>, i: int)
    requires
        0 <= i,
        lex_less_at(a, b, i),
        lex_less_at(b, c, i),
    ensures
        lex_less_at(a, c, i),
    decreases a.len() - i,
{
    if i < a.len() && i < b.len() && i < c.len() && a[i] == b[i] && b[i] == c[i] {
        lemma_lex_less_transitive(a, b, c, i + 1);
    }
}

/// Two sequences neither of which sorts before the other agree from `i` on.
pub proof fn lemma_lex_less_total(a: Seq<char>, b: Seq<char>, i: int)
    requires
        0 <= i <= a.len(),
        i <= b.len(),
        !lex_less_at(a, b, i),
        !lex_less_at(b, a, i),
    ensures
        a.len() == b.len(),
        forall|j: int| i <= j < a.len() ==> a[j] == b[j],
    decreases a.len() - i,
{
    if i < a.len() && i < b.len() {
        if a[i] == b[i] {
            lemma_lex_less_total(a, b, i + 1);
        } else {
        }
    }
}

pub proof fn lemma_lex_less_asymmetric(a: Seq<char>, b: Seq<char>, i: int)
    requires
        0 <= i,
        lex_less_at(a, b, i),
    ensures
        !lex_less_at(b, a, i),
    decreases a.len() - i,
{
    if i < a.len() && i < b.len() && a[i] == b[i] {
        lemma_lex_less_asymmetric(a, b, i + 1);
    }
}

/// Whether `a` sorts strictly before `b` (the order of `str`'s `Ord`).
pub fn str_less(a: &str, b: &str) -> (res: bool)
    ensures
        res == lex_less(a@, b@),
{
    let la = a.unicode_len();
    let lb = b.unicode_len();
    let mut i: usize = 0;
    while i < la && i < lb
        invariant
            la == a@.len(),
            lb == b@.len(),
            i <= la,
            i <= lb,
            lex_less(a@, b@) == lex_less_at(a@, b@, i as int),
        decreases la - i,
    {
        let ca = a.get_char(i);
        let cb = b.get_char(i);
        if ca != cb {
            return (ca as u32) < (cb as u32);
        }
        i = i + 1;
    }
    i < lb
}

/// Whether two strings hold the same characters.
pub fn str_eq(a: &str, b: &str) -> (res: bool)
    ensures
        res == (a@ == b@),
{
    let la = a.unicode_len();
    let lb = b.unicode_len();
    if la != lb {
        return false;
    }
    let mut i: usize = 0;
    while i < la
        invariant
            la == a@.len(),
            lb == b@.len(),
            la == lb,
            i <= la,
            forall|j: int| 0 <= j < i ==> a@[j] == b@[j],
        decreases la - i,
    {
        if a.get_char(i) != b.get_char(i) {
            return false;
        }
        i = i + 1;
    }
    assert(a@ =~= b@);
    true
}

/// `p` occurs in `s` as a contiguous run of characters.
pub open spec fn contains_run(s: Seq<char>, p: Seq<char>) -> bool {
    exists|i: int| 0 <= i && i + p.len() <= s.len() && #[trigger] s.subrange(i, i + p.len()) == p
}

/// Whether `p` occurs in `s` (`str::contains` with a string pattern).
pub fn str_contains(s: &str, p: &str) -> (res: bool)
    ensures
        res == contains_run(s@, p@),
{
    let ls = s.unicode_len();
    let lp = p.unicode_len();
    if lp > ls {
        assert forall|i: int| 0 <= i && i + p@.len() <= s@.len() implies #[trigger] s@.subrange(
            i,
            i + p@.len(),
        ) != p@ by {}
        return false;
    }
    if lp == 0 {
        assert(s@.subrange(0, 0 + p@.len() as int) =~= p@);
        return true;
    }
    let mut start: usize = 0;
    while start <= ls - lp
        invariant
            ls == s@.len(),
            lp == p@.len(),
            0 < lp <= ls,
            start <= ls - lp + 1,
            forall|i: int| 0 <= i < start ==> #[trigger] s@.subrange(i, i + p@.len()) != p@,
        decreases ls - lp + 1 - start,
    {
        let mut k: usize = 0;
        let mut same = true;
        while k < lp
            invariant
                ls == s@.len(),
                lp == p@.len(),
                start + lp <= ls,
                k <= lp,
                same ==> forall|j: int| 0 <= j < k ==> s@[start + j] == p@[j],
                !same ==> s@.subrange(start as int, start + p@.len()) != p@,
            decreases lp - k,
        {
            if same {
                let a = s.get_char(start + k);
                let b = p.get_char(k);
                if a != b {
                    same = false;
                    assert(s@.subrange(start as int, start + p@.len())[k as int] != p@[k as int]);
                }
            }
            k = k + 1;
        }
        if same {
            assert(s@.subrange(start as int, start + p@.len()) =~= p@);
            return true;
        }
        start = start + 1;
    }
    assert forall|i: int| 0 <= i && i + p@.len() <= s@.len() implies #[trigger] s@.subrange(
        i,
        i + p@.len(),
    ) != p@ by {
        assert(i < start);
    }
    false
}

/// Position just after the last character of `s` for which `is_sep` holds
/// (0 when there is none).
pub open spec fn after_last_sep(s: Seq<char>, also_slash: bool) -> int
    decreases s.len(),
{
    if s.len() == 0 {
        0
    } else if is_sep(s.last(), also_slash) {
        s.len() as int
    } else {
        after_last_sep(s.drop_last(), also_slash)
    }
}

/// A path separator: always the backslash, and the forward slash when asked.
pub open spec fn is_sep(c: char, also_slash: bool) -> bool {
    c == '\\' || (also_slash && c == '/')
}

/// The characters after the last separator (`str::rsplit(..).next()`).
pub open spec fn last_component(s: Seq<char>, also_slash: bool) -> Seq<char> {
    s.subrange(after_last_sep(s, also_slash), s.len() as int)
}

/// The last path component holds no separator, and what precedes it is
/// empty or ends in a separator.
pub proof fn law_last_component(s: Seq<char>, also_slash: bool)
    ensures
        0 <= after_last_sep(s, also_slash) <= s.len(),
        forall|j: int|
            after_last_sep(s, also_slash) <= j < s.len() ==> !is_sep(#[trigger] s[j], also_slash),
        after_last_sep(s, also_slash) > 0 ==> is_sep(s[after_last_sep(s, also_slash) - 1], also_slash),
    decreases s.len(),
{
    if s.len() > 0 && !is_sep(s.last(), also_slash) {
        law_last_component(s.drop_last(), also_slash);
        assert forall|j: int|
            after_last_sep(s, also_slash) <= j < s.len() implies !is_sep(
            #[trigger] s[j],
            also_slash,
        ) by {
            if j < s.len() - 1 {
                assert(s[j] == s.drop_last()[j]);
            }
        }
    }
}

/// The last path component of `s`: what follows the last backslash (and,
/// when `also_slash` holds, the last forward slash), or all of `s`.
pub fn path_tail(s: &str, also_slash: bool) -> (res: String)
    ensures
        res@ == last_component(s@, also_slash),
{
    let n = s.unicode_len();
    let mut cut: usize = n;
    let mut done = false;
    assert(s@.subrange(0, n as int) =~= s@);
    while !done && cut > 0
        invariant
            n == s@.len(),
            cut <= n,
            after_last_sep(s@, also_slash) == after_last_sep(s@.subrange(0, cut as int), also_slash),
            done ==> after_last_sep(s@.subrange(0, cut as int), also_slash) == cut,
        decreases cut, if done { 0int } else { 1int },
    {
        let c = s.get_char(cut - 1);
        assert(s@.subrange(0, cut as int).drop_last() =~= s@.subrange(0, cut - 1));
        if c == '\\' || (also_slash && c == '/') {
            done = true;
        } else {
            cut = cut - 1;
        }
    }
    proof {
        if !done {
            assert(s@.subrange(0, 0) =~= Seq::<char>::empty());
        }
    }
    let mut res = String::new();
    let mut k: usize = cut;
    while k < n
        invariant
            n == s@.len(),
            cut <= k <= n,
            res@ == s@.subrange(cut as int, k as int),
        decreases n - k,
    {
        let c = s.get_char(k);
        push_char(&mut res, c);
        assert(s@.subrange(cut as int, k + 1) =~= s@.subrange(cut as int, k as int).push(c));
        k = k + 1;
    }
    res
}

} // verus!
