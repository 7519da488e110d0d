//! Character classes and small string utilities shared by the parsers and
//! the matching engine: equality and decomposition of strings as sequences
//! of Unicode scalar values.

use vstd::prelude::*;
use vstd::string::*;

verus! {

/// Whitespace as the grammar understands it: blank, tab, line feed,
/// carriage return.
pub open spec fn is_space(c: char) -> bool {
    c == ' ' || c == '\t' || c == '\n' || c == '\r'
}

/// Decides `is_space`.
pub fn is_space_char(c: char) -> (r: bool)
    ensures
        r == is_space(c),
{
    c == ' ' || c == '\t' || c == '\n' || c == '\r'
}

/// ASCII letters and digits: the characters allowed in tag and attribute
/// names.
pub open spec fn is_alnum(c: char) -> bool {
    ('0' <= c && c <= '9') || ('A' <= c && c <= 'Z') || ('a' <= c && c <= 'z')
}

/// Decides `is_alnum`.
pub fn is_alnum_char(c: char) -> (r: bool)
    ensures
        r == is_alnum(c),
{
    ('0' <= c && c <= '9') || ('A' <= c && c <= 'Z') || ('a' <= c && c <= 'z')
}

/// The characters allowed in selector identifiers and property names:
/// letters, digits, hyphen, underscore.
pub open spec fn is_ident_char(c: char) -> bool {
    is_alnum(c) || c == '-' || c == '_'
}

/// Decides `is_ident_char`.
pub fn is_ident_char_exec(c: char) -> (r: bool)
    ensures
        r == is_ident_char(c),
{
    is_alnum_char(c) || c == '-' || c == '_'
}

/// Decimal digits.
pub open spec fn is_digit(c: char) -> bool {
    '0' <= c && c <= '9'
}

/// Decides `is_digit`.
pub fn is_digit_char(c: char) -> (r: bool)
    ensures
        r == is_digit(c),
{
    '0' <= c && c <= '9'
}

/// Whether two strings hold the same characters.
pub fn str_eq(a: &str, b: &str) -> (r: bool)
    ensures
        r == (a@ == b@),
{
    let na = a.unicode_len();
    let nb = b.unicode_len();
    if na != nb {
        return false;
    }
    let mut i: usize = 0;
    while i < na
        invariant
            i <= na,
            na == a@.len(),
            na == b@.len(),
            forall|k: int| 0 <= k < i ==> a@[k] == b@[k],
        decreases na - i,
    {
        if a.get_char(i) != b.get_char(i) {
            return false;
        }
        i += 1;
    }
    proof {
        assert(a@ =~= b@);
    }
    true
}

/// The characters of a string, one scalar value per vector element.
pub fn str_to_chars(s: &str) -> (r: Vec<char>)
    ensures
        r@ == s@,
{
    let n = s.unicode_len();
    let mut r: Vec<char> = Vec::new();
    let mut i: usize = 0;
    while i < n
        invariant
            i <= n,
            n == s@.len(),
            r@ == s@.subrange(0, i as int),
        decreases n - i,
    {
        let c = s.get_char(i);
        r.push(c);
        proof {
            assert(r@ =~= s@.subrange(0, i + 1 as int));
        }
        i += 1;
    }
    proof {
        assert(s@.subrange(0, n as int) =~= s@);
    }
    r
}

/// Relies on `Iterator::collect` for `String`: collecting the characters
/// of a vector yields the string of exactly those characters, in order.
#[verifier::external_body]
pub fn chars_to_string(v: &Vec<char>) -> (r: String)
    ensures
        r@ == v@,
{
    v.iter().collect()
}

/// The whitespace-separated tokens of `s` from position `i` on, given
/// that the characters of the token read so far are `cur`: whitespace
/// closes the current token (an empty one is dropped), any other
/// character extends it.
pub open spec fn tokens_acc(s: Seq<char>, i: int, cur: Seq<char>) -> Seq<Seq<char>>
    decreases s.len() - i,
{
    if i < 0 || i >= s.len() {
        if cur.len() == 0 {
            Seq::empty()
        } else {
            seq![cur]
        }
    } else if is_space(s[i]) {
        (if cur.len() == 0 {
            Seq::<Seq<char>>::empty()
        } else {
            seq![cur]
        }) + tokens_acc(s, i + 1, Seq::empty())
    } else {
        tokens_acc(s, i + 1, cur.push(s[i]))
    }
}

/// The whitespace-separated tokens of `s`: maximal nonempty runs of
/// non-whitespace characters, in order.
pub open spec fn split_tokens(s: Seq<char>) -> Seq<Seq<char>> {
    tokens_acc(s, 0, Seq::empty())
}

/// The views of a sequence of strings.
pub open spec fn views_of(ss: Seq<String>) -> Seq<Seq<char>> {
    ss.map_values(|x: String| x@)
}

/// Splits `s` into its whitespace-separated tokens.
pub fn split_ws_tokens(s: &str) -> (r: Vec<String>)
    ensures
        views_of(r@) == split_tokens(s@),
        r@.len() == split_tokens(s@).len(),
        forall|k: int| 0 <= k < r@.len() ==> r@[k]@ == split_tokens(s@)[k],
{
    let cs = str_to_chars(s);
    let n = cs.len();
    let mut pieces: Vec<String> = Vec::new();
    let mut cur: Vec<char> = Vec::new();
    let mut i: usize = 0;
    while i < n
        invariant
            i <= n,
            n == cs@.len(),
            cs@ == s@,
            split_tokens(s@) == views_of(pieces@) + tokens_acc(s@, i as int, cur@),
        decreases n - i,
    {
        let c = cs[i];
        if is_space_char(c) {
            if cur.len() > 0 {
                let piece = chars_to_string(&cur);
                proof {
                    assert(views_of(pieces@.push(piece)) =~= views_of(pieces@).push(cur@));
                    assert(views_of(pieces@).push(cur@) + tokens_acc(s@, i + 1 as int, Seq::empty())
                        =~= views_of(pieces@) + (seq![cur@] + tokens_acc(
                        s@,
                        i + 1 as int,
                        Seq::empty(),
                    )));
                }
                pieces.push(piece);
                cur = Vec::new();
                proof {
                    assert(cur@ =~= Seq::<char>::empty());
                }
            } else {
                proof {
                    assert(cur@ =~= Seq::<char>::empty());
                    assert(Seq::<Seq<char>>::empty() + tokens_acc(s@, i + 1 as int, Seq::empty())
                        =~= tokens_acc(s@, i + 1 as int, Seq::empty()));
                }
            }
        } else {
            cur.push(c);
        }
        i += 1;
    }
    if cur.len() > 0 {
        let piece = chars_to_string(&cur);
        proof {
            assert(views_of(pieces@.push(piece)) =~= views_of(pieces@).push(cur@));
            assert(views_of(pieces@).push(cur@) =~= views_of(pieces@) + seq![cur@]);
        }
        pieces.push(piece);
    } else {
        proof {
            assert(views_of(pieces@) + Seq::<Seq<char>>::empty() =~= views_of(pieces@));
        }
    }
    pieces
}

} // verus!
