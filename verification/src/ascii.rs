//! Byte classes of the IMAP grammar and ASCII case folding.
use vstd::prelude::*;

verus! {

#[verifier::allow_in_spec]
pub fn is_alpha(b: u8) -> bool
    returns
        ('a' as u8 <= b && b <= 'z' as u8) || ('A' as u8 <= b && b <= 'Z' as u8),
{
    ('a' as u8 <= b && b <= 'z' as u8) || ('A' as u8 <= b && b <= 'Z' as u8)
}

#[verifier::allow_in_spec]
pub fn is_digit(b: u8) -> bool
    returns
        '0' as u8 <= b && b <= '9' as u8,
{
    '0' as u8 <= b && b <= '9' as u8
}

/// `ATOM-CHAR`: a visible ASCII character that is none of `( ) { % * " \ ]`.
#[verifier::allow_in_spec]
pub fn is_atom_char(b: u8) -> bool
    returns
        0x20 < b && b < 0x7f && b != '(' as u8 && b != ')' as u8 && b != '{' as u8 && b != '%' as u8
            && b != '*' as u8 && b != '"' as u8 && b != '\\' as u8 && b != ']' as u8,
{
    0x20 < b && b < 0x7f && b != '(' as u8 && b != ')' as u8 && b != '{' as u8 && b != '%' as u8
        && b != '*' as u8 && b != '"' as u8 && b != '\\' as u8 && b != ']' as u8
}

/// `ASTRING-CHAR = ATOM-CHAR / resp-specials`.
#[verifier::allow_in_spec]
pub fn is_astring_char(b: u8) -> bool
    returns
        is_atom_char(b) || b == ']' as u8,
{
    is_atom_char(b) || b == ']' as u8
}

/// `list-char = ATOM-CHAR / list-wildcards / resp-specials`.
#[verifier::allow_in_spec]
pub fn is_list_char(b: u8) -> bool
    returns
        is_atom_char(b) || b == '%' as u8 || b == '*' as u8 || b == ']' as u8,
{
    is_atom_char(b) || b == '%' as u8 || b == '*' as u8 || b == ']' as u8
}

/// A byte of a tag: an `ASTRING-CHAR` other than `+`.
#[verifier::allow_in_spec]
pub fn is_tag_char(b: u8) -> bool
    returns
        is_astring_char(b) && b != '+' as u8,
{
    is_astring_char(b) && b != '+' as u8
}

/// A byte of human readable text: anything but NUL, CR and LF. Bytes from
/// 0x80 on belong to UTF-8 sequences, which are checked separately.
#[verifier::allow_in_spec]
pub fn is_text_byte(b: u8) -> bool
    returns
        b != 0 && b != 0x0d && b != 0x0a,
{
    b != 0 && b != 0x0d && b != 0x0a
}

#[verifier::allow_in_spec]
pub fn upper(b: u8) -> u8
    returns
        (if 'a' as u8 <= b && b <= 'z' as u8 {
            (b - 32) as u8
        } else {
            b
        }),
{
    if 'a' as u8 <= b && b <= 'z' as u8 {
        b - 32
    } else {
        b
    }
}

/// The sequence with every ASCII letter in upper case.
pub open spec fn uppercase(s: Seq<u8>) -> Seq<u8> {
    s.map_values(|b: u8| upper(b))
}

/// Equality up to the case of ASCII letters.
pub open spec fn same_word(a: Seq<u8>, b: Seq<u8>) -> bool {
    uppercase(a) == uppercase(b)
}

/// The bytes of an ASCII text, one per character.
pub open spec fn bytes_of(s: &str) -> Seq<u8> {
    Seq::new(s@.len(), |i: int| s@[i] as u8)
}

/// The characters of a sequence of ASCII bytes.
pub open spec fn chars(s: Seq<u8>) -> Seq<char> {
    s.map_values(|b: u8| b as char)
}

pub open spec fn all_bytes(s: Seq<u8>, class: spec_fn(u8) -> bool) -> bool {
    forall|i: int| 0 <= i < s.len() ==> class(#[trigger] s[i])
}

pub fn to_uppercase(s: &[u8]) -> (r: Vec<u8>)
    ensures
        r@ == uppercase(s@),
{
    let mut r: Vec<u8> = Vec::new();
    let mut i: usize = 0;
    while i < s.len()
        invariant
            i <= s@.len(),
            r@ =~= uppercase(s@.take(i as int)),
        decreases s@.len() - i,
    {
        r.push(upper(s[i]));
        i = i + 1;
    }
    assert(s@.take(i as int) =~= s@);
    r
}

pub fn bytes_equal(a: &[u8], b: &[u8]) -> (r: bool)
    ensures
        r == (a@ == b@),
{
    if a.len() != b.len() {
        return false;
    }
    let mut i: usize = 0;
    while i < a.len()
        invariant
            i <= a@.len(),
            a@.len() == b@.len(),
            forall|j: int| 0 <= j < i ==> a@[j] == b@[j],
        decreases a@.len() - i,
    {
        if a[i] != b[i] {
            return false;
        }
        i = i + 1;
    }
    assert(a@ =~= b@);
    true
}

/// The bytes of an ASCII text as a vector.
pub fn text_bytes(s: &str) -> (r: Vec<u8>)
    ensures
        r@ == bytes_of(s),
{
    let n: usize = s.unicode_len();
    let mut r: Vec<u8> = Vec::new();
    let mut i: usize = 0;
    while i < n
        invariant
            n == s@.len(),
            i <= n,
            r@ =~= bytes_of(s).take(i as int),
        decreases n - i,
    {
        r.push(s.get_char(i) as u8);
        i = i + 1;
    }
    assert(bytes_of(s).take(i as int) =~= bytes_of(s));
    r
}

/// Whether two texts have the same characters.
pub fn same_text(a: &str, b: &str) -> (r: bool)
    ensures
        r == (a@ == b@),
{
    let n: usize = a.unicode_len();
    if n != b.unicode_len() {
        return false;
    }
    let mut i: usize = 0;
    while i < n
        invariant
            n == a@.len(),
            n == b@.len(),
            i <= n,
            forall|j: int| 0 <= j < i ==> a@[j] == b@[j],
        decreases n - i,
    {
        if a.get_char(i) != b.get_char(i) {
            return false;
        }
        i = i + 1;
    }
    assert(a@ =~= b@);
    true
}

pub fn is_text(a: &[u8], s: &str) -> (r: bool)
    ensures
        r == (a@ == bytes_of(s)),
{
    let b: Vec<u8> = text_bytes(s);
    bytes_equal(a, b.as_slice())
}

pub fn is_word(a: &[u8], s: &str) -> (r: bool)
    ensures
        r == same_word(a@, bytes_of(s)),
{
    let b: Vec<u8> = text_bytes(s);
    let ua: Vec<u8> = to_uppercase(a);
    let ub: Vec<u8> = to_uppercase(b.as_slice());
    bytes_equal(ua.as_slice(), ub.as_slice())
}

/// `String::push` of std: the character stands behind those that were there.
pub assume_specification[ std::string::String::push ](s: &mut std::string::String, c: char)
    ensures
        final(s)@ == old(s)@.push(c),
;

/// ASCII bytes in upper case as a string.
pub fn upper_text(b: &[u8]) -> (r: String)
    ensures
        r@ == chars(uppercase(b@)),
{
    let mut r: String = String::new();
    let mut i: usize = 0;
    assert(r@ =~= chars(uppercase(b@)).take(0));
    while i < b.len()
        invariant
            i <= b@.len(),
            r@ == chars(uppercase(b@)).take(i as int),
        decreases b@.len() - i,
    {
        r.push(upper(b[i]) as char);
        assert(r@ =~= chars(uppercase(b@)).take(i + 1));
        i = i + 1;
    }
    assert(r@ =~= chars(uppercase(b@)));
    r
}

/// Words that are the same agree in length and in their first letters.
pub broadcast proof fn lemma_same_word_head(a: Seq<u8>, b: Seq<u8>)
    ensures
        #[trigger] same_word(a, b) ==> a.len() == b.len() && (a.len() > 0 ==> upper(
            a[0],
        ) == upper(b[0])) && (a.len() > 1 ==> upper(a[1]) == upper(b[1])) && (
        a.len() > 2 ==> upper(a[2]) == upper(b[2])),
{
    if same_word(a, b) {
        assert(uppercase(a).len() == a.len());
        assert(uppercase(b).len() == b.len());
        if a.len() > 0 {
            assert(uppercase(a)[0] == upper(a[0]));
            assert(uppercase(b)[0] == upper(b[0]));
        }
        if a.len() > 1 {
            assert(uppercase(a)[1] == upper(a[1]));
            assert(uppercase(b)[1] == upper(b[1]));
        }
        if a.len() > 2 {
            assert(uppercase(a)[2] == upper(a[2]));
            assert(uppercase(b)[2] == upper(b[2]));
        }
    }
}

/// Words that differ in a letter are not the same.
pub proof fn lemma_words_differ(a: Seq<u8>, b: Seq<u8>, i: int)
    requires
        0 <= i < a.len(),
        i < b.len(),
        upper(a[i]) != upper(b[i]),
    ensures
        !same_word(a, b),
{
    assert(uppercase(a)[i] == upper(a[i]));
    assert(uppercase(b)[i] == upper(b[i]));
}

} // verus!
