//! The compiled pattern and the ways to build one.

use vstd::prelude::*;
use crate::element::PatternElement;
use crate::error::BinmatchError;
use crate::text::{
    all_allowed, ascii_normalized, elements_of, first_disallowed, is_ascii_text, is_hex_text,
    lemma_at_most_one_outcome, lemma_hex_text_is_signature, normalize, normalized, read_tokens,
    rejected_with, signature_error, well_formed, without_spaces,
};

verus! {

/// A compiled signature: one element for each byte of a window.
///
/// A pattern never changes once built. Its view is the sequence of its
/// elements.
#[derive(Debug, PartialEq, Eq, PartialOrd, Ord, Hash)]
pub struct Pattern {
    data: Vec<PatternElement>,
    len: usize,
}

impl View for Pattern {
    type V = Seq<PatternElement>;

    closed spec fn view(&self) -> Seq<PatternElement> {
        self.data@
    }
}

/// Whether `r` is what compiling the normalized text `text` gives: the
/// pattern of its tokens where it is a signature, else the error that it is
/// rejected with.
pub open spec fn compiles_to(text: Seq<char>, r: Result<Pattern, BinmatchError>) -> bool {
    match r {
        Ok(p) => well_formed(text) && p@ == elements_of(text),
        Err(e) => rejected_with(text, e),
    }
}

/// Whether `r` is the rejection that is owed to a text of odd length, or to
/// one of even length with a character outside the alphabet: the length error
/// for the first, the first such character for the second.
pub open spec fn rejects_as_owed(text: Seq<char>, r: Result<Pattern, BinmatchError>) -> bool {
    &&& text.len() % 2 == 1 ==> r == Err::<Pattern, BinmatchError>(
        BinmatchError::PatternLengthError,
    )
    &&& text.len() % 2 == 0 && !all_allowed(text) ==> exists|j: int| #[trigger]
        first_disallowed(text, j) && r == Err::<Pattern, BinmatchError>(
            BinmatchError::PatternParseError(text[j]),
        )
}

/// A result that compiling a text may give rejects the text as owed.
pub proof fn lemma_rejection_is_owed(text: Seq<char>, r: Result<Pattern, BinmatchError>)
    requires
        compiles_to(text, r),
    ensures
        rejects_as_owed(text, r),
{
    if text.len() % 2 == 0 && !all_allowed(text) {
        let e = r->Err_0;
        assert(rejected_with(text, e));
        let c = e->PatternParseError_0;
        let j = choose|j: int| #[trigger] first_disallowed(text, j) && text[j] == c;
        assert(first_disallowed(text, j));
    }
}

impl Pattern {
    /// The cached length is the number of elements.
    #[verifier::type_invariant]
    spec fn length_is_cached(&self) -> bool {
        self.len == self.data@.len()
    }

    /// Compiles a signature: spaces are dropped, the rest is upper-cased,
    /// judged and read token by token.
    ///
    /// The result is that of compiling the normalized text. A pattern has one
    /// element for every two characters of it. A signature of hexadecimal
    /// digits and spaces alone, with an even number of digits, always
    /// compiles.
    pub fn new(pattern: &str) -> (r: Result<Pattern, BinmatchError>)
        ensures
            compiles_to(normalized(pattern@), r),
            is_ascii_text(pattern@) ==> compiles_to(ascii_normalized(pattern@), r),
            r is Ok <==> well_formed(normalized(pattern@)),
            r is Ok ==> r.unwrap()@.len() * 2 == normalized(pattern@).len(),
            rejects_as_owed(normalized(pattern@), r),
            is_hex_text(pattern@) && without_spaces(pattern@).len() % 2 == 0 ==> r is Ok
                && r.unwrap()@.len() * 2 == without_spaces(pattern@).len(),
    {
        proof {
            lemma_at_most_one_outcome(normalized(pattern@));
            if is_hex_text(pattern@) && without_spaces(pattern@).len() % 2 == 0 {
                lemma_hex_text_is_signature(pattern@);
            }
        }
        let text = normalize(pattern);
        let r = match signature_error(&text) {
            Some(e) => Err(e),
            None => Ok(Pattern::new_unchecked(pattern)),
        };
        proof {
            lemma_rejection_is_owed(normalized(pattern@), r);
        }
        r
    }

    /// Compiles a signature that is known to be well formed.
    pub fn new_unchecked(pattern: &str) -> (r: Pattern)
        requires
            well_formed(normalized(pattern@)),
        ensures
            r@ == elements_of(normalized(pattern@)),
            is_ascii_text(pattern@) ==> r@ == elements_of(ascii_normalized(pattern@)),
    {
        let text = normalize(pattern);
        let data = read_tokens(&text);
        let len = data.len();
        Pattern { data, len }
    }

    /// Compiles a text that is already normalized: it is judged as it
    /// stands, lower-case letters and spaces being outside the alphabet.
    pub fn from_normalized(text: &Vec<char>) -> (r: Result<Pattern, BinmatchError>)
        ensures
            compiles_to(text@, r),
            r is Ok <==> well_formed(text@),
            r is Ok ==> r.unwrap()@.len() * 2 == text@.len(),
            rejects_as_owed(text@, r),
    {
        let r = match signature_error(text) {
            Some(e) => Err(e),
            None => {
                let data = read_tokens(text);
                let len = data.len();
                Ok(Pattern { data, len })
            },
        };
        proof {
            lemma_at_most_one_outcome(text@);
            lemma_rejection_is_owed(text@, r);
        }
        r
    }

    /// The elements, in order.
    pub fn elements(&self) -> (r: &Vec<PatternElement>)
        ensures
            r@ == self@,
    {
        &self.data
    }

    /// The number of elements.
    pub fn len(&self) -> (r: usize)
        ensures
            r == self@.len(),
    {
        proof {
            use_type_invariant(self);
        }
        self.len
    }

    /// Whether the pattern has no element.
    pub fn is_empty(&self) -> (r: bool)
        ensures
            r == (self@.len() == 0),
    {
        proof {
            use_type_invariant(self);
        }
        self.len == 0
    }
}

impl Clone for Pattern {
    /// A pattern with the same elements.
    fn clone(&self) -> (r: Pattern)
        ensures
            r@ == self@,
    {
        let mut data: Vec<PatternElement> = Vec::new();
        let n: usize = self.data.len();
        let mut i: usize = 0;
        while i < n
            invariant
                n == self.data@.len(),
                i <= n,
                data@ == self.data@.take(i as int),
            decreases n - i,
        {
            data.push(self.data[i]);
            assert(self.data@.take(i + 1) =~= self.data@.take(i as int).push(self.data@[i as int]));
            i += 1;
        }
        assert(self.data@.take(n as int) =~= self.data@);
        Pattern { data, len: n }
    }
}

impl Default for Pattern {
    /// The pattern without elements.
    fn default() -> (r: Pattern)
        ensures
            r@ == Seq::<PatternElement>::empty(),
    {
        Pattern { data: Vec::new(), len: 0 }
    }
}

} // verus!
