//! Signature text: normalization, the allowed alphabet and the token grammar.

use vstd::prelude::*;
use crate::element::PatternElement;
use crate::error::BinmatchError;

verus! {

/// The characters that a normalized signature may hold: the hexadecimal
/// digits, `?` for a byte to capture and `_` for a byte to skip.
pub const ALLOWED_ALPHABET: [char; 18] = [
    '0', '1', '2', '3', '4', '5', '6', '7', '8', '9', 'A', 'B', 'C', 'D', 'E', 'F', '?', '_',
];

/// The characters of `s` other than spaces, in order.
pub open spec fn without_spaces(s: Seq<char>) -> Seq<char> {
    s.filter(|c: char| c != ' ')
}

/// The upper-case form of `c` where `c` is an ASCII letter, else `c`.
pub open spec fn ascii_upper(c: char) -> char {
    if 'a' <= c && c <= 'z' {
        ((c as u32) - 32) as char
    } else {
        c
    }
}

/// Whether every character of `s` is ASCII.
pub open spec fn is_ascii_text(s: Seq<char>) -> bool {
    forall|i: int| 0 <= i < s.len() ==> (#[trigger] s[i] as u32) < 128
}

/// The upper-case form of a text, as the standard library computes it.
pub uninterp spec fn uppercased(s: Seq<char>) -> Seq<char>;

/// The normalized form of a signature: spaces removed, the rest upper-cased.
pub open spec fn normalized(s: Seq<char>) -> Seq<char> {
    uppercased(without_spaces(s))
}

/// The normalized form of an ASCII signature, character by character.
pub open spec fn ascii_normalized(s: Seq<char>) -> Seq<char> {
    without_spaces(s).map_values(|c: char| ascii_upper(c))
}

/// Calls `str::to_uppercase` on the text that `text` spells.
///
/// The result is named [`uppercased`]. Stated beyond the name: on a text of
/// ASCII characters alone the result has the letters `a` to `z` replaced by
/// `A` to `Z`, one for one, and every other character kept.
#[verifier::external_body]
fn to_uppercase(text: &Vec<char>) -> (r: Vec<char>)
    ensures
        r@ == uppercased(text@),
        is_ascii_text(text@) ==> r@ == text@.map_values(|c: char| ascii_upper(c)),
{
    text.iter().collect::<String>().to_uppercase().chars().collect()
}

/// The characters of `s` without its spaces.
fn strip_spaces(s: &str) -> (r: Vec<char>)
    ensures
        r@ == without_spaces(s@),
{
    let mut out: Vec<char> = Vec::new();
    proof {
        reveal(Seq::filter);
        assert(s@.take(0) =~= Seq::<char>::empty());
    }
    for c in it: s.chars()
        invariant
            it.seq() == s@,
            out@ == without_spaces(s@.take(it.index())),
    {
        proof {
            reveal(Seq::filter);
            assert(s@.take(it.index() + 1).drop_last() =~= s@.take(it.index()));
        }
        if c != ' ' {
            out.push(c);
        }
    }
    proof {
        assert(s@.take(s@.len() as int) =~= s@);
    }
    out
}

/// The normalized form of the signature `s`.
pub fn normalize(s: &str) -> (r: Vec<char>)
    ensures
        r@ == normalized(s@),
        is_ascii_text(s@) ==> r@ == ascii_normalized(s@),
{
    let stripped = strip_spaces(s);
    proof {
        if is_ascii_text(s@) {
            assert forall|i: int| 0 <= i < stripped@.len() implies (#[trigger] stripped@[i] as u32)
                < 128 by {
                s@.lemma_filter_contains_rev(|c: char| c != ' ', stripped@[i]);
                assert(stripped@.contains(stripped@[i]));
            }
        }
    }
    to_uppercase(&stripped)
}

/// The value of the hexadecimal digit `c`, upper case only.
pub open spec fn hex_digit_value(c: char) -> Option<u8> {
    if '0' <= c && c <= '9' {
        Some(((c as int) - 48) as u8)
    } else if 'A' <= c && c <= 'F' {
        Some(((c as int) - 55) as u8)
    } else {
        None
    }
}

/// Whether `c` may stand in a normalized signature.
pub open spec fn in_alphabet(c: char) -> bool {
    hex_digit_value(c) is Some || c == '?' || c == '_'
}

/// The element that the token `hi lo` stands for, where it is a token.
pub open spec fn token_element(hi: char, lo: char) -> Option<PatternElement> {
    if hi == '?' && lo == '?' {
        Some(PatternElement::Placeholder)
    } else if hi == '_' && lo == '_' {
        Some(PatternElement::Ignore)
    } else {
        match (hex_digit_value(hi), hex_digit_value(lo)) {
            (Some(h), Some(l)) => Some(PatternElement::Literal((h * 16 + l) as u8)),
            _ => None,
        }
    }
}

/// The alphabet is the set of characters that [`ALLOWED_ALPHABET`] lists.
pub proof fn lemma_alphabet_is_listed(c: char)
    ensures
        in_alphabet(c) <==> ALLOWED_ALPHABET@.contains(c),
{
    let a = ALLOWED_ALPHABET@;
    assert(a.len() == 18);
    if in_alphabet(c) {
        let k: int = if c == '?' {
            16
        } else if c == '_' {
            17
        } else {
            hex_digit_value(c).unwrap() as int
        };
        assert(a[k] == c);
    }
}

/// Whether `text[i]` is the first character of `text` outside the alphabet.
pub open spec fn first_disallowed(text: Seq<char>, i: int) -> bool {
    &&& 0 <= i < text.len()
    &&& !in_alphabet(text[i])
    &&& forall|j: int| 0 <= j < i ==> in_alphabet(#[trigger] text[j])
}

/// Whether every character of `text` is in the alphabet.
pub open spec fn all_allowed(text: Seq<char>) -> bool {
    forall|i: int| 0 <= i < text.len() ==> in_alphabet(#[trigger] text[i])
}

/// The `k`-th pair of characters of `text`, read as a token.
pub open spec fn token_at(text: Seq<char>, k: int) -> Option<PatternElement> {
    token_element(text[2 * k], text[2 * k + 1])
}

/// Whether every pair of characters of `text` is a token.
pub open spec fn all_tokens_valid(text: Seq<char>) -> bool {
    forall|k: int| 0 <= k < text.len() / 2 ==> (#[trigger] token_at(text, k)) is Some
}

/// Whether the normalized text `text` is a signature.
pub open spec fn well_formed(text: Seq<char>) -> bool {
    &&& text.len() % 2 == 0
    &&& all_allowed(text)
    &&& all_tokens_valid(text)
}

/// Whether the normalized text `text` is rejected, and with the error `e`.
///
/// The length is judged first, then the alphabet over the whole text, then
/// the tokens.
pub open spec fn rejected_with(text: Seq<char>, e: BinmatchError) -> bool {
    match e {
        BinmatchError::PatternLengthError => text.len() % 2 == 1,
        BinmatchError::PatternParseError(c) => {
            &&& text.len() % 2 == 0
            &&& exists|i: int| #[trigger] first_disallowed(text, i) && text[i] == c
        },
        BinmatchError::PatternNumberError => {
            &&& text.len() % 2 == 0
            &&& all_allowed(text)
            &&& !all_tokens_valid(text)
        },
    }
}

/// The elements that the signature `text` spells, one for each pair.
pub open spec fn elements_of(text: Seq<char>) -> Seq<PatternElement> {
    Seq::new((text.len() / 2) as nat, |k: int| token_at(text, k).unwrap())
}

/// Whether `c` is a hexadecimal digit, of either case, or a space.
pub open spec fn is_hex_or_space(c: char) -> bool {
    c == ' ' || ('0' <= c && c <= '9') || ('a' <= c && c <= 'f') || ('A' <= c && c <= 'F')
}

/// Whether `s` holds hexadecimal digits and spaces alone.
pub open spec fn is_hex_text(s: Seq<char>) -> bool {
    forall|i: int| 0 <= i < s.len() ==> is_hex_or_space(#[trigger] s[i])
}

/// A text of hexadecimal digits and spaces alone, with an even number of
/// digits, is ASCII and normalizes to a signature, which spells half as many
/// elements as the text has digits.
pub proof fn lemma_hex_text_is_signature(s: Seq<char>)
    requires
        is_hex_text(s),
        without_spaces(s).len() % 2 == 0,
    ensures
        is_ascii_text(s),
        well_formed(ascii_normalized(s)),
        elements_of(ascii_normalized(s)).len() * 2 == without_spaces(s).len(),
{
    let stripped = without_spaces(s);
    let text = ascii_normalized(s);
    assert forall|i: int| 0 <= i < text.len() implies hex_digit_value(
        #[trigger] text[i],
    ) is Some by {
        s.lemma_filter_contains_rev(|c: char| c != ' ', stripped[i]);
        s.lemma_filter_pred(|c: char| c != ' ', i);
        assert(is_hex_or_space(stripped[i]));
        assert(stripped[i] != ' ');
    }
    assert forall|k: int| 0 <= k < text.len() / 2 implies (#[trigger] token_at(text, k))
        is Some by {
        assert(hex_digit_value(text[2 * k]) is Some);
        assert(hex_digit_value(text[2 * k + 1]) is Some);
    }
}

/// A text with an odd number of characters is rejected for its length,
/// whatever it holds.
pub proof fn lemma_odd_length_is_rejected(text: Seq<char>, e: BinmatchError)
    requires
        text.len() % 2 == 1,
    ensures
        !well_formed(text),
        rejected_with(text, e) <==> e == BinmatchError::PatternLengthError,
{
}

/// A text with an even number of characters, one of them outside the
/// alphabet, is rejected for a character: the first one outside the alphabet,
/// which stands at or before the given one.
pub proof fn lemma_disallowed_character_is_reported(text: Seq<char>, i: int, e: BinmatchError)
    requires
        text.len() % 2 == 0,
        0 <= i < text.len(),
        !in_alphabet(text[i]),
        rejected_with(text, e),
    ensures
        !well_formed(text),
        exists|j: int|
            0 <= j <= i && #[trigger] first_disallowed(text, j)
                && e == BinmatchError::PatternParseError(text[j]),
{
    let j = choose|j: int| #[trigger]
        first_disallowed(text, j) && e == BinmatchError::PatternParseError(text[j]);
    assert(first_disallowed(text, j));
    if j > i {
        assert(in_alphabet(text[i]));
    }
}

/// A signature is rejected with no error, and no text is rejected with two
/// different errors.
pub proof fn lemma_at_most_one_outcome(text: Seq<char>)
    ensures
        well_formed(text) ==> forall|e: BinmatchError| !#[trigger] rejected_with(text, e),
        forall|a: BinmatchError, b: BinmatchError|
            #[trigger] rejected_with(text, a) && #[trigger] rejected_with(text, b) ==> a == b,
{
    assert forall|a: BinmatchError, b: BinmatchError|
        #[trigger] rejected_with(text, a) && #[trigger] rejected_with(text, b) implies a == b by {
        if let BinmatchError::PatternParseError(c) = a {
            if let BinmatchError::PatternParseError(d) = b {
                let i = choose|i: int| #[trigger] first_disallowed(text, i) && text[i] == c;
                let j = choose|j: int| #[trigger] first_disallowed(text, j) && text[j] == d;
                if i < j {
                    assert(in_alphabet(text[i]));
                } else if j < i {
                    assert(in_alphabet(text[j]));
                }
            }
        }
    }
    if well_formed(text) {
        assert forall|e: BinmatchError| !#[trigger] rejected_with(text, e) by {
            if let BinmatchError::PatternParseError(c) = e {
                if rejected_with(text, e) {
                    let i = choose|i: int| #[trigger] first_disallowed(text, i) && text[i] == c;
                    assert(in_alphabet(text[i]));
                }
            }
        }
    }
}

/// Where one of the first `n` characters is outside the alphabet, one of them
/// is the first such.
proof fn lemma_first_disallowed_exists(text: Seq<char>, n: int) -> (j: int)
    requires
        0 <= n <= text.len(),
        exists|i: int| 0 <= i < n && !in_alphabet(#[trigger] text[i]),
    ensures
        first_disallowed(text, j),
    decreases n,
{
    if exists|i: int| 0 <= i < n - 1 && !in_alphabet(#[trigger] text[i]) {
        lemma_first_disallowed_exists(text, n - 1)
    } else {
        n - 1
    }
}

/// An error that a text is rejected with shows that some error rejects it.
proof fn lemma_rejection_exists(text: Seq<char>, e: BinmatchError)
    requires
        rejected_with(text, e),
    ensures
        exists|x: BinmatchError| #[trigger] rejected_with(text, x),
{
}

/// A text that is no signature is rejected with some error.
pub proof fn lemma_some_outcome(text: Seq<char>)
    requires
        !well_formed(text),
    ensures
        exists|e: BinmatchError| #[trigger] rejected_with(text, e),
{
    if text.len() % 2 == 1 {
        lemma_rejection_exists(text, BinmatchError::PatternLengthError);
    } else if !all_allowed(text) {
        let j = lemma_first_disallowed_exists(text, text.len() as int);
        lemma_rejection_exists(text, BinmatchError::PatternParseError(text[j]));
    } else {
        lemma_rejection_exists(text, BinmatchError::PatternNumberError);
    }
}

/// The value of the upper-case hexadecimal digit `c`.
pub fn hex_value(c: char) -> (r: Option<u8>)
    ensures
        r == hex_digit_value(c),
{
    if '0' <= c && c <= '9' {
        Some(((c as u32) - 48) as u8)
    } else if 'A' <= c && c <= 'F' {
        Some(((c as u32) - 55) as u8)
    } else {
        None
    }
}

/// Whether `c` may stand in a normalized signature.
pub fn is_allowed(c: char) -> (r: bool)
    ensures
        r == in_alphabet(c),
{
    hex_value(c).is_some() || c == '?' || c == '_'
}

/// Reads the two characters of one token.
pub fn parse_token(hi: char, lo: char) -> (r: Option<PatternElement>)
    ensures
        r == token_element(hi, lo),
{
    if hi == '?' && lo == '?' {
        Some(PatternElement::Placeholder)
    } else if hi == '_' && lo == '_' {
        Some(PatternElement::Ignore)
    } else {
        match (hex_value(hi), hex_value(lo)) {
            (Some(h), Some(l)) => Some(PatternElement::Literal(h * 16 + l)),
            _ => None,
        }
    }
}

/// Judges the normalized text `text`: `None` where it is a signature, else
/// the error that it is rejected with.
pub fn signature_error(text: &Vec<char>) -> (r: Option<BinmatchError>)
    ensures
        match r {
            None => well_formed(text@),
            Some(e) => rejected_with(text@, e),
        },
{
    let n: usize = text.len();
    if n % 2 != 0 {
        return Some(BinmatchError::PatternLengthError);
    }
    let mut i: usize = 0;
    while i < n
        invariant
            n == text@.len(),
            n % 2 == 0,
            i <= n,
            forall|j: int| 0 <= j < i ==> in_alphabet(#[trigger] text@[j]),
        decreases n - i,
    {
        let c = text[i];
        if !is_allowed(c) {
            assert(first_disallowed(text@, i as int));
            return Some(BinmatchError::PatternParseError(c));
        }
        i += 1;
    }
    let pairs: usize = n / 2;
    let mut k: usize = 0;
    while k < pairs
        invariant
            n == text@.len(),
            n % 2 == 0,
            pairs == n / 2,
            k <= pairs,
            all_allowed(text@),
            forall|j: int| 0 <= j < k ==> (#[trigger] token_at(text@, j)) is Some,
        decreases pairs - k,
    {
        if parse_token(text[2 * k], text[2 * k + 1]).is_none() {
            assert(token_at(text@, k as int) is None);
            return Some(BinmatchError::PatternNumberError);
        }
        k += 1;
    }
    None
}

/// Reads the tokens of the signature `text`.
pub fn read_tokens(text: &Vec<char>) -> (r: Vec<PatternElement>)
    requires
        well_formed(text@),
    ensures
        r@ == elements_of(text@),
{
    let pairs: usize = text.len() / 2;
    let mut out: Vec<PatternElement> = Vec::new();
    let mut k: usize = 0;
    while k < pairs
        invariant
            pairs == text.len() / 2,
            k <= pairs,
            well_formed(text@),
            out@.len() == k,
            forall|j: int| 0 <= j < k ==> Some(#[trigger] out@[j]) == token_at(text@, j),
        decreases pairs - k,
    {
        let t = parse_token(text[2 * k], text[2 * k + 1]);
        assert(token_at(text@, k as int) is Some);
        match t {
            Some(e) => out.push(e),
            None => {},
        }
        k += 1;
    }
    assert(out@ =~= elements_of(text@));
    out
}

} // verus!
