//! Character-level helpers shared by the condition compiler and the
//! aggregation code.
use vstd::prelude::*;

verus! {

/// Whether `c` belongs to the Unicode word class `\w` of the regex crate.
pub uninterp spec fn word_char(c: char) -> bool;

/// Relies on regex::Regex::is_match with the pattern `^\w$`: the class
/// `\w` holds letters, digits, marks and connector punctuation such as `_`;
/// parentheses, space and `*` are not in it.
#[verifier::external_body]
pub(crate) fn is_word_char(c: char) -> (r: bool)
    ensures
        r == word_char(c),
        ('a' <= c <= 'z' || 'A' <= c <= 'Z' || '0' <= c <= '9' || c == '_') ==> r,
        (c == ' ' || c == '(' || c == ')' || c == '*' || c == '|' || c == '-') ==> !r,
{
    let mut buf = [0u8; 4];
    regex::Regex::new(r"^\w$").unwrap().is_match(c.encode_utf8(&mut buf))
}

/// The lowercase form of a text, as `str::to_lowercase` gives it.
pub uninterp spec fn lower_of(s: Seq<char>) -> Seq<char>;

/// Relies on str::to_lowercase: the lowercase mapping of the text, which
/// depends on its characters alone; an empty text stays empty.
#[verifier::external_body]
pub(crate) fn lowercase(s: &str) -> (r: String)
    ensures
        r@ == lower_of(s@),
        s@.len() == 0 ==> r@.len() == 0,
{
    s.to_lowercase()
}

/// A text without its leading and trailing white space, as `str::trim`
/// gives it.
pub uninterp spec fn trimmed(s: Seq<char>) -> Seq<char>;

/// Relies on str::trim: the text without leading and trailing white space,
/// which depends on its characters alone.
#[verifier::external_body]
pub(crate) fn trim_text(s: &str) -> (r: String)
    ensures
        r@ == trimmed(s@),
{
    s.trim().to_string()
}

/// Whether a pattern compiles as a regular expression of the regex crate.
pub uninterp spec fn regex_valid(p: Seq<char>) -> bool;

/// Whether `p` compiles and some part of `t` matches it.
pub uninterp spec fn regex_hit(p: Seq<char>, t: Seq<char>) -> bool;

/// Relies on regex::Regex::new: whether `p` compiles.
#[verifier::external_body]
pub(crate) fn regex_compiles(p: &str) -> (r: bool)
    ensures
        r == regex_valid(p@),
{
    regex::Regex::new(p).is_ok()
}

/// Relies on regex::Regex::new and regex::Regex::is_match: whether `p`
/// compiles and some part of `t` matches it.
#[verifier::external_body]
pub(crate) fn regex_search(p: &str, t: &str) -> (r: bool)
    ensures
        r == regex_hit(p@, t@),
{
    match regex::Regex::new(p) {
        Ok(re) => re.is_match(t),
        Err(_) => false,
    }
}

/// The characters of `s`, in order. Relies on `str::chars`, collected
/// into a vector: it yields the characters of the text one by one.
#[verifier::external_body]
pub(crate) fn chars_of(s: &str) -> (r: Vec<char>)
    ensures
        r@ == s@,
{
    s.chars().collect()
}

/// The string made of the characters of `v`, in order. Relies on
/// `FromIterator<char> for String`: it appends the characters in order.
#[verifier::external_body]
pub(crate) fn string_of(v: &Vec<char>) -> (r: String)
    ensures
        r@ == v@,
{
    v.iter().collect()
}

/// `a` followed by `b`.
pub fn concat(a: &str, b: &str) -> (r: String)
    ensures
        r@ == a@ + b@,
{
    let mut v = chars_of(a);
    let w = chars_of(b);
    let ghost v0 = v@;
    let mut i: usize = 0;
    while i < w.len()
        invariant
            i <= w@.len(),
            v@ == v0 + w@.subrange(0, i as int),
        decreases w@.len() - i,
    {
        v.push(w[i]);
        i += 1;
        assert(v@ =~= v0 + w@.subrange(0, i as int));
    }
    assert(w@.subrange(0, w@.len() as int) =~= w@);
    string_of(&v)
}

} // verus!
