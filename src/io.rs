//! Parsing of whitespace-separated numbers.
use vstd::prelude::*;
use vstd::string::StringSliceAdditionalSpecFns;

verus! {

#[verifier::external_type_specification]
#[verifier::external_body]
pub struct ExParseIntError(core::num::ParseIntError);

/// Whether `b` is an ASCII decimal digit.
pub open spec fn is_digit(b: u8) -> bool {
    48 <= b <= 57
}

/// Value of a string of decimal digits.
pub open spec fn digits_value(s: Seq<u8>) -> nat
    decreases s.len(),
{
    if s.len() == 0 {
        0
    } else {
        10 * digits_value(s.drop_last()) + (s.last() - 48) as nat
    }
}

/// The digits of a number in text: what follows an optional leading `+`.
pub open spec fn unsigned_digits(s: Seq<u8>) -> Seq<u8> {
    if s.len() > 0 && s[0] == 43 {
        s.drop_first()
    } else {
        s
    }
}

/// Whether `s` is the text of a `usize`: an optional `+`, then at least one
/// decimal digit, of a value that fits.
pub open spec fn parses_as_usize(s: Seq<u8>) -> bool {
    let d = unsigned_digits(s);
    &&& d.len() > 0
    &&& forall|i: int| 0 <= i < d.len() ==> is_digit(#[trigger] d[i])
    &&& digits_value(d) <= usize::MAX
}

/// Relies on `str::parse::<usize>`: an optional `+` and then decimal digits
/// parse to their value when it fits in a `usize`; any other text, and a
/// value too large, give an error.
#[verifier::external_body]
fn parse_usize(tok: &str) -> (r: Result<usize, core::num::ParseIntError>)
    ensures
        r is Ok <==> parses_as_usize(tok.spec_bytes()),
        r matches Ok(n) ==> n == digits_value(unsigned_digits(tok.spec_bytes())),
{
    tok.parse::<usize>()
}

/// Whether `b` is ASCII whitespace: space, tab, line feed, vertical tab,
/// form feed or carriage return.
pub open spec fn is_space(b: u8) -> bool {
    b == 32 || (9 <= b <= 13)
}

/// The words among the first `n` bytes of `s` that a space ends, and the
/// index at which the current word starts.
pub open spec fn scan_words(s: Seq<u8>, n: int) -> (Seq<Seq<u8>>, int)
    decreases n,
{
    if n <= 0 {
        (seq![], 0)
    } else {
        let (ws, st) = scan_words(s, n - 1);
        if is_space(s[n - 1]) {
            if st < n - 1 {
                (ws.push(s.subrange(st, n - 1)), n)
            } else {
                (ws, n)
            }
        } else {
            (ws, st)
        }
    }
}

/// The words of `s`: its maximal runs of bytes that are not whitespace.
pub open spec fn words_of(s: Seq<u8>) -> Seq<Seq<u8>> {
    let (ws, st) = scan_words(s, s.len() as int);
    if st < s.len() {
        ws.push(s.subrange(st, s.len() as int))
    } else {
        ws
    }
}

/// The words of a text: its maximal runs of bytes that are not ASCII whitespace.
fn split_whitespace(text: &str) -> (r: Vec<&str>)
    ensures
        r@.map_values(|w: &str| w.spec_bytes()) == words_of(text.spec_bytes()),
{
    let b = text.as_bytes();
    let n = b.len();
    proof {
        vstd::utf8::encode_utf8_valid_utf8(text@);
        vstd::utf8::is_char_boundary_start_end_of_seq(b@);
    }
    let mut res: Vec<&str> = Vec::new();
    let mut st: usize = 0;
    let mut i: usize = 0;
    while i < n
        invariant
            b@ == text.spec_bytes(),
            vstd::utf8::valid_utf8(b@),
            vstd::utf8::is_char_boundary(b@, n as int),
            n == b@.len(),
            i <= n,
            st <= i,
            st == 0 || b@[st - 1] < 128,
            (res@.map_values(|w: &str| w.spec_bytes()), st as int) == scan_words(b@, i as int),
        decreases n - i,
    {
        let c = b[i];
        if c == 32 || (9 <= c && c <= 13) {
            if st < i {
                proof {
                    vstd::utf8::is_char_boundary_iff_not_is_continuation_byte(b@, i as int);
                }
                let w = crate::data::slice_after_ascii(text, st, i);
                let ghost before = res@;
                res.push(w);
                assert(res@.map_values(|w: &str| w.spec_bytes()) =~= before.map_values(|w: &str| w.spec_bytes()).push(w.spec_bytes()));
            }
            st = i + 1;
        }
        i = i + 1;
    }
    if st < n {
        let w = crate::data::slice_after_ascii(text, st, n);
        let ghost before = res@;
        res.push(w);
        assert(res@.map_values(|w: &str| w.spec_bytes()) =~= before.map_values(|w: &str| w.spec_bytes()).push(w.spec_bytes()));
    }
    res
}

/// Parses `s` as `usize` numbers separated by ASCII whitespace; the first
/// word that is no number gives the error. Other whitespace characters, such
/// as a no-break space, do not separate words.
pub fn parse_vec(s: &str) -> (r: Result<Vec<usize>, core::num::ParseIntError>)
    ensures
        r is Ok <==> forall|i: int|
            0 <= i < words_of(s.spec_bytes()).len() ==> parses_as_usize(#[trigger] words_of(s.spec_bytes())[i]),
        r matches Ok(v) ==> v@.len() == words_of(s.spec_bytes()).len() && forall|i: int|
            0 <= i < v@.len() ==> #[trigger] v@[i] == digits_value(unsigned_digits(words_of(s.spec_bytes())[i])),
        r is Err ==> exists|i: int|
            0 <= i < words_of(s.spec_bytes()).len() && !parses_as_usize(#[trigger] words_of(s.spec_bytes())[i])
                && forall|j: int| 0 <= j < i ==> parses_as_usize(#[trigger] words_of(s.spec_bytes())[j]),
{
    let words = split_whitespace(s);
    let ghost ws = words_of(s.spec_bytes());
    let mut vec: Vec<usize> = Vec::new();
    let mut i: usize = 0;
    while i < words.len()
        invariant
            words@.map_values(|w: &str| w.spec_bytes()) == ws,
            ws == words_of(s.spec_bytes()),
            i <= words@.len(),
            vec@.len() == i,
            forall|j: int| 0 <= j < i ==> parses_as_usize(#[trigger] ws[j]),
            forall|j: int| 0 <= j < i ==> #[trigger] vec@[j] == digits_value(unsigned_digits(ws[j])),
        decreases words@.len() - i,
    {
        assert(words@[i as int].spec_bytes() == ws[i as int]);
        match parse_usize(words[i]) {
            Ok(x) => {
                vec.push(x);
            },
            Err(e) => {
                return Err(e);
            },
        }
        i = i + 1;
    }
    Ok(vec)
}

} // verus!
