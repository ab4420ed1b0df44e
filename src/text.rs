//! Character classes and string comparisons used across the library.

use vstd::prelude::*;

verus! {

/// Whitespace as `char::is_whitespace` defines it: the Unicode `White_Space` property.
pub open spec fn is_white(c: char) -> bool {
    let u = c as u32;
    (0x09 <= u && u <= 0x0D) || u == 0x20 || u == 0x85 || u == 0xA0 || u == 0x1680
        || (0x2000 <= u && u <= 0x200A) || u == 0x2028 || u == 0x2029 || u == 0x202F
        || u == 0x205F || u == 0x3000
}

/// The tokens of `s` separated by runs of whitespace; `cur` is the token being read.
pub open spec fn tokens_from(s: Seq<char>, cur: Seq<char>) -> Seq<Seq<char>>
    decreases s.len(),
{
    if s.len() == 0 {
        if cur.len() > 0 { seq![cur] } else { seq![] }
    } else if is_white(s[0]) {
        (if cur.len() > 0 { seq![cur] } else { seq![] }) + tokens_from(s.drop_first(), seq![])
    } else {
        tokens_from(s.drop_first(), cur.push(s[0]))
    }
}

/// The whitespace-separated tokens of `s`, in order, none of them empty.
pub open spec fn ws_tokens(s: Seq<char>) -> Seq<Seq<char>> {
    tokens_from(s, seq![])
}

/// The code of `c` with an ASCII upper-case letter folded to lower case.
pub open spec fn fold_code(c: char) -> int {
    if 65 <= (c as u32) && (c as u32) <= 90 { (c as u32) + 32 } else { c as u32 as int }
}

/// Equality up to ASCII case.
pub open spec fn ascii_ci_eq(a: Seq<char>, b: Seq<char>) -> bool {
    a.len() == b.len() && forall|i: int| 0 <= i < a.len() ==> fold_code(a[i]) == fold_code(b[i])
}

/// How names and values are compared.
#[derive(Clone, Copy, Debug, PartialEq, Eq, Structural)]
pub enum CaseSensitivity {
    CaseSensitive,
    AsciiCaseInsensitive,
}

/// Equality of two strings under a case sensitivity.
pub open spec fn case_eq(case: CaseSensitivity, a: Seq<char>, b: Seq<char>) -> bool {
    match case {
        CaseSensitivity::CaseSensitive => a == b,
        CaseSensitivity::AsciiCaseInsensitive => ascii_ci_eq(a, b),
    }
}

/// Relies on selectors' `CaseSensitivity::eq`, which compares the bytes exactly or
/// up to ASCII case.
#[verifier::external_body]
pub(crate) fn case_sensitive_eq(case: CaseSensitivity, a: &str, b: &str) -> (r: bool)
    ensures
        r == case_eq(case, a@, b@),
{
    let c = match case {
        CaseSensitivity::CaseSensitive => selectors::attr::CaseSensitivity::CaseSensitive,
        CaseSensitivity::AsciiCaseInsensitive => selectors::attr::CaseSensitivity::AsciiCaseInsensitive,
    };
    c.eq(a.as_bytes(), b.as_bytes())
}

/// The code of `c` with an ASCII upper-case letter folded to lower case.
fn fold(c: char) -> (r: u32)
    ensures
        r as int == fold_code(c),
{
    let u = c as u32;
    if 65 <= u && u <= 90 { u + 32 } else { u }
}

/// Whether two strings are equal up to ASCII case, as `str::eq_ignore_ascii_case`
/// decides.
pub(crate) fn eq_ignore_ascii_case(a: &str, b: &str) -> (r: bool)
    ensures
        r == ascii_ci_eq(a@, b@),
{
    let n = a.unicode_len();
    if n != b.unicode_len() {
        return false;
    }
    let mut i: usize = 0;
    while i < n
        invariant
            n == a@.len(),
            n == b@.len(),
            i <= n,
            forall|k: int| 0 <= k < i ==> fold_code(a@[k]) == fold_code(b@[k]),
        decreases n - i,
    {
        if fold(a.get_char(i)) != fold(b.get_char(i)) {
            return false;
        }
        i = i + 1;
    }
    true
}

/// Relies on `str::split_whitespace`: the non-empty pieces between whitespace.
#[verifier::external_body]
pub(crate) fn split_whitespace(s: &str) -> (r: Vec<String>)
    ensures
        r@.len() == ws_tokens(s@).len(),
        forall|i: int| 0 <= i < r@.len() ==> #[trigger] r@[i]@ == ws_tokens(s@)[i],
{
    s.split_whitespace().map(|t| t.to_string()).collect()
}

/// Lexicographic order on code points, which is the order of `String`'s UTF-8 bytes.
pub open spec fn lex_lt(a: Seq<char>, b: Seq<char>) -> bool
    decreases a.len(),
{
    if a.len() == 0 {
        b.len() > 0
    } else if b.len() == 0 {
        false
    } else if a[0] != b[0] {
        (a[0] as int) < (b[0] as int)
    } else {
        lex_lt(a.drop_first(), b.drop_first())
    }
}

/// Two distinct strings are ordered one way or the other, never both.
pub proof fn lemma_lex_total(a: Seq<char>, b: Seq<char>)
    ensures
        a != b ==> (lex_lt(a, b) || lex_lt(b, a)),
        !(lex_lt(a, b) && lex_lt(b, a)),
        !lex_lt(a, a),
    decreases a.len(),
{
    if a.len() > 0 {
        lemma_lex_total(a.drop_first(), a.drop_first());
    }
    if a.len() > 0 && b.len() > 0 && a[0] == b[0] {
        lemma_lex_total(a.drop_first(), b.drop_first());
        if a.drop_first() == b.drop_first() {
            assert(a =~= seq![a[0]] + a.drop_first());
            assert(b =~= seq![b[0]] + b.drop_first());
        }
    } else if a.len() > 0 && b.len() > 0 {
        assert((a[0] as int) != (b[0] as int));
    } else if a.len() == 0 && b.len() == 0 {
        assert(a =~= b);
    }
}

/// The order is transitive.
pub proof fn lemma_lex_trans(a: Seq<char>, b: Seq<char>, c: Seq<char>)
    requires
        lex_lt(a, b),
        lex_lt(b, c),
    ensures
        lex_lt(a, c),
    decreases a.len(),
{
    if a.len() > 0 && b.len() > 0 && c.len() > 0 && a[0] == b[0] && b[0] == c[0] {
        lemma_lex_trans(a.drop_first(), b.drop_first(), c.drop_first());
    }
}

proof fn lemma_lex_skip(a: Seq<char>, b: Seq<char>, i: int)
    requires
        0 <= i <= a.len(),
        i <= b.len(),
        a.take(i) == b.take(i),
    ensures
        lex_lt(a, b) == lex_lt(a.skip(i), b.skip(i)),
    decreases i,
{
    if i > 0 {
        assert(a[0] == a.take(i)[0]);
        assert(b[0] == b.take(i)[0]);
        assert(a.drop_first().take(i - 1) =~= a.take(i).drop_first());
        assert(b.drop_first().take(i - 1) =~= b.take(i).drop_first());
        lemma_lex_skip(a.drop_first(), b.drop_first(), i - 1);
        assert(a.drop_first().skip(i - 1) =~= a.skip(i));
        assert(b.drop_first().skip(i - 1) =~= b.skip(i));
    } else {
        assert(a.skip(0) =~= a);
        assert(b.skip(0) =~= b);
    }
}

/// Whether `a` sorts strictly before `b`.
pub fn str_less(a: &str, b: &str) -> (r: bool)
    ensures
        r == lex_lt(a@, b@),
{
    let la = a.unicode_len();
    let lb = b.unicode_len();
    let mut i: usize = 0;
    while i < la && i < lb
        invariant
            la == a@.len(),
            lb == b@.len(),
            i <= la,
            i <= lb,
            a@.take(i as int) == b@.take(i as int),
        decreases la - i,
    {
        let ca = a.get_char(i);
        let cb = b.get_char(i);
        if (ca as u32) != (cb as u32) {
            proof {
                lemma_lex_skip(a@, b@, i as int);
                assert(a@.skip(i as int)[0] == ca);
                assert(b@.skip(i as int)[0] == cb);
            }
            return (ca as u32) < (cb as u32);
        }
        assert(a@.take(i + 1) =~= a@.take(i as int).push(ca));
        assert(b@.take(i + 1) =~= b@.take(i as int).push(cb));
        i = i + 1;
    }
    proof {
        lemma_lex_skip(a@, b@, i as int);
    }
    i == la && i < lb
}

/// Whether `c` is whitespace.
pub fn is_white_char(c: char) -> (r: bool)
    ensures
        r == is_white(c),
{
    let u = c as u32;
    (0x09 <= u && u <= 0x0D) || u == 0x20 || u == 0x85 || u == 0xA0 || u == 0x1680
        || (0x2000 <= u && u <= 0x200A) || u == 0x2028 || u == 0x2029 || u == 0x202F
        || u == 0x205F || u == 0x3000
}

/// Whether `s` holds a character that is not whitespace.
pub fn has_non_white(s: &str) -> (r: bool)
    ensures
        r == exists|i: int| 0 <= i < s@.len() && !is_white(s@[i]),
{
    let n = s.unicode_len();
    let mut i: usize = 0;
    while i < n
        invariant
            n == s@.len(),
            i <= n,
            forall|j: int| 0 <= j < i ==> is_white(s@[j]),
        decreases n - i,
    {
        if !is_white_char(s.get_char(i)) {
            return true;
        }
        i = i + 1;
    }
    false
}

/// Whether two strings hold the same characters.
pub fn str_eq(a: &str, b: &str) -> (r: bool)
    ensures
        r == (a@ == b@),
{
    let la = a.unicode_len();
    let lb = b.unicode_len();
    if la != lb {
        return false;
    }
    let mut i: usize = 0;
    while i < la
        invariant
            la == a@.len(),
            lb == b@.len(),
            la == lb,
            i <= la,
            a@.take(i as int) == b@.take(i as int),
        decreases la - i,
    {
        let ca = a.get_char(i);
        let cb = b.get_char(i);
        if ca != cb {
            return false;
        }
        assert(a@.take(i + 1) =~= a@.take(i as int).push(ca));
        assert(b@.take(i + 1) =~= b@.take(i as int).push(cb));
        i = i + 1;
    }
    assert(a@ =~= a@.take(la as int));
    assert(b@ =~= b@.take(lb as int));
    true
}

} // verus!
