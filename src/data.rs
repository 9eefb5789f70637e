//! Datasets: the text of an input, split into lines.
use vstd::prelude::*;
use vstd::string::{StrSliceExecFns, StringSliceAdditionalSpecFns};

use crate::dna::{lemma_ascii_bytes_str, lemma_ascii_decode, lemma_boundary_after_ascii, utf8_to_string};
use vstd::utf8::{decode_utf8, encode_utf8, encode_utf8_valid_utf8, is_char_boundary, valid_utf8, valid_utf8_concat};

verus! {

/// Line feed.
pub const LF: u8 = 10;

/// Carriage return.
pub const CR: u8 = 13;

/// A line without the carriage return that may end it.
pub open spec fn strip_cr(l: Seq<u8>) -> Seq<u8> {
    if l.len() > 0 && l.last() == CR {
        l.drop_last()
    } else {
        l
    }
}

/// The lines ended by a line feed among the first `n` bytes of `s`, and the
/// index at which the next line starts.
pub open spec fn scan_lines(s: Seq<u8>, n: int) -> (Seq<Seq<u8>>, int)
    decreases n,
{
    if n <= 0 {
        (seq![], 0)
    } else {
        let (ls, st) = scan_lines(s, n - 1);
        if s[n - 1] == LF {
            (ls.push(strip_cr(s.subrange(st, n - 1))), n)
        } else {
            (ls, st)
        }
    }
}

/// The lines of `s`: the pieces between line feeds, each without a final
/// carriage return; a last piece that is empty is no line.
pub open spec fn lines_of(s: Seq<u8>) -> Seq<Seq<u8>> {
    let (ls, st) = scan_lines(s, s.len() as int);
    if st < s.len() {
        ls.push(strip_cr(s.subrange(st, s.len() as int)))
    } else {
        ls
    }
}

/// A text dataset, as one string.
pub struct Dataset {
    contents: String,
}

impl View for Dataset {
    type V = Seq<char>;

    closed spec fn view(&self) -> Seq<char> {
        self.contents@
    }
}

impl Dataset {
    /// The dataset of the text `contents`.
    pub fn new(contents: String) -> (r: Dataset)
        ensures
            r@ == contents@,
    {
        Dataset { contents }
    }

    /// The text of the dataset.
    pub fn contents(&self) -> (r: &str)
        ensures
            r@ == self@,
    {
        self.contents.as_str()
    }

    /// The lines of the dataset.
    pub fn lines(&self) -> (r: Vec<&str>)
        ensures
            r@.map_values(|l: &str| l.spec_bytes()) == lines_of(encode_utf8(self@)),
    {
        lines(self.contents.as_str())
    }

    /// A FASTA dataset: the lines of `raw` after the first, its header, joined into one sequence.
    pub fn from_fasta(raw: &str) -> (r: Dataset)
        ensures
            lines_of(raw.spec_bytes()).len() <= 1 ==> r@.len() == 0,
            lines_of(raw.spec_bytes()).len() > 1 ==> r@ == decode_utf8(join(lines_of(raw.spec_bytes()).drop_first())),
    {
        let ls = lines(raw);
        let ghost lb = ls@.map_values(|l: &str| l.spec_bytes());
        let mut out: Vec<u8> = Vec::new();
        let mut i: usize = 1;
        proof {
            assert(valid_utf8(out@)) by {
                assert(out@ =~= Seq::<u8>::empty());
                encode_utf8_valid_utf8(Seq::<char>::empty());
                assert(encode_utf8(Seq::<char>::empty()) =~= Seq::<u8>::empty());
            }
        }
        while i < ls.len()
            invariant
                lb == ls@.map_values(|l: &str| l.spec_bytes()),
                1 <= i,
                ls@.len() >= 1 ==> i <= ls@.len(),
                ls@.len() >= 1 ==> out@ == join(lb.subrange(1, i as int)),
                ls@.len() == 0 ==> out@.len() == 0,
                valid_utf8(out@),
            decreases ls@.len() - i,
        {
            let l = ls[i].as_bytes();
            assert(l@ == lb[i as int]);
            let mut x: usize = 0;
            let ghost start = out@;
            while x < l.len()
                invariant
                    x <= l@.len(),
                    out@ == start + l@.subrange(0, x as int),
                decreases l@.len() - x,
            {
                out.push(l[x]);
                x = x + 1;
            }
            assert(l@.subrange(0, l@.len() as int) =~= l@);
            proof {
                let prev = lb.subrange(1, i as int);
                assert(lb.subrange(1, i + 1) =~= prev.push(lb[i as int]));
                assert(prev.push(lb[i as int]).drop_last() =~= prev);
                assert(join(prev.push(lb[i as int])) == join(prev) + lb[i as int]);
                assert(out@ =~= start + l@);
                encode_utf8_valid_utf8(ls@[i as int]@);
                valid_utf8_concat(start, l@);
            }
            i = i + 1;
        }
        proof {
            if ls@.len() > 1 {
                assert(lb.subrange(1, ls@.len() as int) =~= lb.drop_first());
            }
        }
        let s = utf8_to_string(out);
        proof {
            if ls@.len() <= 1 {
                assert(out@ =~= Seq::<u8>::empty());
                lemma_ascii_decode(out@);
            }
        }
        Dataset { contents: s }
    }
}

/// The concatenation of `ls`.
pub open spec fn join(ls: Seq<Seq<u8>>) -> Seq<u8>
    decreases ls.len(),
{
    if ls.len() == 0 {
        seq![]
    } else {
        join(ls.drop_last()) + ls.last()
    }
}

/// The part of `text` from byte `st` to byte `end`, where `end` is a
/// character boundary and `st` starts the text or follows an ASCII byte.
pub(crate) fn slice_after_ascii<'a>(text: &'a str, st: usize, end: usize) -> (r: &'a str)
    requires
        st <= end <= text.spec_bytes().len(),
        is_char_boundary(text.spec_bytes(), end as int),
        st == 0 || text.spec_bytes()[st - 1] < 128,
    ensures
        r.spec_bytes() == text.spec_bytes().subrange(st as int, end as int),
{
    let ghost b = text.spec_bytes();
    proof {
        vstd::utf8::encode_utf8_valid_utf8(text@);
    }
    let (head, _) = text.split_at(end);
    proof {
        vstd::utf8::valid_utf8_split(b, end as int);
        assert(head.spec_bytes() == b.subrange(0, end as int));
        if st > 0 {
            assert(head.spec_bytes()[st - 1] == b[st - 1]);
            lemma_boundary_after_ascii(head.spec_bytes(), st - 1);
        }
    }
    let (_, line) = head.split_at(st);
    assert(line.spec_bytes() =~= b.subrange(st as int, end as int));
    line
}

/// The lines of a text: the pieces between line feeds, each without a final
/// carriage return; a last piece that is empty is no line.
pub fn lines(text: &str) -> (r: Vec<&str>)
    ensures
        r@.map_values(|l: &str| l.spec_bytes()) == lines_of(text.spec_bytes()),
        text.is_ascii() ==> forall|j: int| 0 <= j < r@.len() ==> (#[trigger] r@[j]).is_ascii(),
{
    let b = text.as_bytes();
    let n = b.len();
    proof {
        vstd::utf8::encode_utf8_valid_utf8(text@);
        vstd::utf8::is_char_boundary_start_end_of_seq(b@);
        vstd::string::is_ascii_spec_bytes(text);
    }
    let mut res: Vec<&str> = Vec::new();
    let mut st: usize = 0;
    let mut i: usize = 0;
    while i < n
        invariant
            b@ == text.spec_bytes(),
            vstd::utf8::valid_utf8(b@),
            text.is_ascii() ==> forall|j: int| 0 <= j < b@.len() ==> #[trigger] b@[j] < 128,
            is_char_boundary(b@, n as int),
            n == b@.len(),
            i <= n,
            st <= i,
            st == 0 || b@[st - 1] < 128,
            (res@.map_values(|l: &str| l.spec_bytes()), st as int) == scan_lines(b@, i as int),
            text.is_ascii() ==> forall|j: int| 0 <= j < res@.len() ==> (#[trigger] res@[j]).is_ascii(),
        decreases n - i,
    {
        if b[i] == LF {
            let mut end = i;
            if end > st && b[end - 1] == CR {
                end = end - 1;
            }
            proof {
                vstd::utf8::is_char_boundary_iff_not_is_continuation_byte(b@, end as int);
            }
            let l = slice_after_ascii(text, st, end);
            proof {
                assert(l.spec_bytes() =~= strip_cr(b@.subrange(st as int, i as int)));
                if text.is_ascii() {
                    assert forall|j: int| 0 <= j < l.spec_bytes().len() implies #[trigger] l.spec_bytes()[j] < 128 by {
                        assert(l.spec_bytes()[j] == b@[st + j]);
                    }
                    lemma_ascii_bytes_str(l);
                }
            }
            let ghost before = res@;
            res.push(l);
            assert(res@.map_values(|l: &str| l.spec_bytes()) =~= before.map_values(|l: &str| l.spec_bytes()).push(l.spec_bytes()));
            st = i + 1;
        }
        i = i + 1;
    }
    if st < n {
        let mut end = n;
        if end > st && b[end - 1] == CR {
            end = end - 1;
            proof {
                vstd::utf8::is_char_boundary_iff_not_is_continuation_byte(b@, end as int);
            }
        }
        let l = slice_after_ascii(text, st, end);
        proof {
            assert(l.spec_bytes() =~= strip_cr(b@.subrange(st as int, n as int)));
            if text.is_ascii() {
                assert forall|j: int| 0 <= j < l.spec_bytes().len() implies #[trigger] l.spec_bytes()[j] < 128 by {
                    assert(l.spec_bytes()[j] == b@[st + j]);
                }
                lemma_ascii_bytes_str(l);
            }
        }
        let ghost before = res@;
        res.push(l);
        assert(res@.map_values(|l: &str| l.spec_bytes()) =~= before.map_values(|l: &str| l.spec_bytes()).push(l.spec_bytes()));
    }
    res
}

} // verus!
