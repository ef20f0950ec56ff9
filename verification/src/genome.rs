//! Weights written as text: four numbers with something between them, such as
//! `[100,1,10,100]`.

use crate::ga::GenoSeq;
use vstd::prelude::*;

verus! {

/// Why a text is no genome.
#[derive(Clone, Copy, Debug, PartialEq, Eq, Structural)]
pub enum GenomeError {
    /// Two numbers have more than one character between them, the text holds
    /// no digit at all, or a number is greater than 255.
    NotANumber,
    /// The numbers are more or fewer than four.
    WrongLength,
}

/// The character is one of the digits `0` to `9`.
pub open spec fn is_digit(c: char) -> bool {
    '0' <= c <= '9'
}

/// What is left of the text when everything before its first digit and after
/// its last digit is taken away.
pub open spec fn trimmed(s: Seq<char>) -> Seq<char>
    decreases s.len(),
{
    if s.len() == 0 {
        s
    } else if !is_digit(s.first()) {
        trimmed(s.drop_first())
    } else if !is_digit(s.last()) {
        trimmed(s.drop_last())
    } else {
        s
    }
}

/// The runs of digits of the text: what stands before, between and after its
/// other characters. Two such characters in a row have an empty run between
/// them.
pub open spec fn runs(s: Seq<char>) -> Seq<Seq<char>>
    decreases s.len(),
{
    if s.len() == 0 {
        seq![Seq::<char>::empty()]
    } else {
        let before = runs(s.drop_last());
        if is_digit(s.last()) {
            before.drop_last().push(before.last().push(s.last()))
        } else {
            before.push(Seq::<char>::empty())
        }
    }
}

/// The number that the digits write in base ten.
pub open spec fn number(digits: Seq<char>) -> nat
    decreases digits.len(),
{
    if digits.len() == 0 {
        0
    } else {
        number(digits.drop_last()) * 10 + (digits.last() as u32 - 48) as nat
    }
}

/// The run writes a gene: it is not empty and its number fits a byte.
pub open spec fn is_gene(run: Seq<char>) -> bool {
    run.len() > 0 && number(run) <= 255
}

/// What the text says: the genes that its runs of digits write, if each run
/// writes one and they are four.
pub open spec fn parsed(s: Seq<char>) -> Result<GenoSeq, GenomeError> {
    let found = runs(trimmed(s));
    if !(forall|i: int| 0 <= i < found.len() ==> is_gene(#[trigger] found[i])) {
        Err(GenomeError::NotANumber)
    } else if found.len() != 4 {
        Err(GenomeError::WrongLength)
    } else {
        Ok(
            [
                number(found[0]) as u8,
                number(found[1]) as u8,
                number(found[2]) as u8,
                number(found[3]) as u8,
            ],
        )
    }
}

/// The text from `lo` to `hi`, where its first and last digits stand, is the
/// text trimmed.
proof fn lemma_trimmed(s: Seq<char>, lo: int, hi: int)
    requires
        0 <= lo <= hi <= s.len(),
        forall|i: int| 0 <= i < lo ==> !is_digit(#[trigger] s[i]),
        forall|i: int| hi <= i < s.len() ==> !is_digit(#[trigger] s[i]),
        lo < hi ==> is_digit(s[lo]) && is_digit(s[hi - 1]),
    ensures
        trimmed(s) == s.subrange(lo, hi),
    decreases s.len(),
{
    if s.len() == 0 {
        assert(s.subrange(lo, hi) =~= s);
    } else if !is_digit(s.first()) {
        let t = s.drop_first();
        if lo == 0 {
            assert(lo == hi);
            lemma_trimmed(t, 0, 0);
            assert(t.subrange(0, 0) =~= s.subrange(lo, hi));
        } else {
            lemma_trimmed(t, lo - 1, hi - 1);
            assert(t.subrange(lo - 1, hi - 1) =~= s.subrange(lo, hi));
        }
    } else if !is_digit(s.last()) {
        let t = s.drop_last();
        assert(lo == 0);
        assert(hi < s.len());
        lemma_trimmed(t, lo, hi);
        assert(t.subrange(lo, hi) =~= s.subrange(lo, hi));
    } else {
        assert(lo == 0 && hi == s.len());
        assert(s.subrange(lo, hi) =~= s);
    }
}

/// The characters of the text, one by one.
fn chars_of(text: &str) -> (chars: Vec<char>)
    ensures
        chars@ == text@,
{
    let n = text.unicode_len();
    let mut chars: Vec<char> = Vec::new();
    for i in 0..n
        invariant
            n == text@.len(),
            chars@ == text@.subrange(0, i as int),
    {
        chars.push(text.get_char(i));
        assert(chars@ =~= text@.subrange(0, i + 1));
    }
    assert(chars@ =~= text@);
    chars
}

/// Reads a genome from a text: four numbers up to 255, with one character
/// that is no digit between each two of them, and anything without digits
/// around them.
pub fn parse_genome(text: &str) -> (genome: Result<GenoSeq, GenomeError>)
    ensures
        genome == parsed(text@),
{
    let text = chars_of(text);
    let n = text.len();
    let mut lo: usize = 0;
    while lo < n && !('0' <= text[lo] && text[lo] <= '9')
        invariant
            lo <= n == text@.len(),
            forall|i: int| 0 <= i < lo ==> !is_digit(#[trigger] text@[i]),
        decreases n - lo,
    {
        lo += 1;
    }
    let mut hi: usize = n;
    while hi > lo && !('0' <= text[hi - 1] && text[hi - 1] <= '9')
        invariant
            lo <= hi <= n == text@.len(),
            forall|i: int| hi <= i < n ==> !is_digit(#[trigger] text@[i]),
        decreases hi,
    {
        hi -= 1;
    }
    proof {
        lemma_trimmed(text@, lo as int, hi as int);
    }
    let ghost t = text@.subrange(lo as int, hi as int);
    let mut genes: Vec<u8> = Vec::new();
    let mut bad = false;
    let mut value: usize = 0;
    let mut digits: usize = 0;
    let mut i = lo;
    proof {
        assert(t.subrange(0, 0) =~= Seq::<char>::empty());
    }
    while i < hi
        invariant
            lo <= i <= hi <= n == text@.len(),
            t == text@.subrange(lo as int, hi as int),
            runs(t.subrange(0, i - lo)).len() == genes@.len() + 1,
            digits == runs(t.subrange(0, i - lo)).last().len(),
            digits <= i - lo,
            value == if number(runs(t.subrange(0, i - lo)).last()) <= 255 {
                number(runs(t.subrange(0, i - lo)).last())
            } else {
                256
            },
            bad == !(forall|k: int|
                0 <= k < genes@.len() ==> is_gene(#[trigger] runs(t.subrange(0, i - lo))[k])),
            forall|k: int|
                0 <= k < genes@.len() && is_gene(runs(t.subrange(0, i - lo))[k]) ==> #[trigger] genes@[k]
                    == number(runs(t.subrange(0, i - lo))[k]),
        decreases hi - i,
    {
        let ghost before = runs(t.subrange(0, i - lo));
        let b = text[i];
        proof {
            assert(t.subrange(0, i + 1 - lo).drop_last() =~= t.subrange(0, i - lo));
            assert(t.subrange(0, i + 1 - lo).last() == b);
        }
        let ghost after = runs(t.subrange(0, i + 1 - lo));
        if '0' <= b && b <= '9' {
            proof {
                assert(after == before.drop_last().push(before.last().push(b)));
                assert(after.last().drop_last() =~= before.last());
                assert forall|k: int| 0 <= k < genes@.len() implies after[k] == before[k] by {}
            }
            value = if value > 255 {
                256
            } else {
                let next = value * 10 + (b as u32 - 48) as usize;
                if next > 255 {
                    256
                } else {
                    next
                }
            };
            digits += 1;
        } else {
            proof {
                assert(after == before.push(Seq::<char>::empty()));
                assert forall|k: int| 0 <= k <= genes@.len() implies after[k] == before[k] by {}
            }
            if digits == 0 || value > 255 {
                bad = true;
                genes.push(0);
            } else {
                genes.push(value as u8);
            }
            value = 0;
            digits = 0;
        }
        i += 1;
    }
    proof {
        assert(t.subrange(0, hi - lo) =~= t);
    }
    let ghost found = runs(t);
    if bad || digits == 0 || value > 255 {
        proof {
            if !bad {
                assert(!is_gene(found[genes@.len() as int]));
            }
        }
        return Err(GenomeError::NotANumber);
    }
    assert forall|k: int| 0 <= k < found.len() implies is_gene(#[trigger] found[k]) by {
        if k == genes@.len() {
            assert(found[k] == found.last());
        }
    }
    if genes.len() != 3 {
        return Err(GenomeError::WrongLength);
    }
    let genome: GenoSeq = [genes[0], genes[1], genes[2], value as u8];
    assert(found[3] == found.last());
    assert(genome =~= [
        number(found[0]) as u8,
        number(found[1]) as u8,
        number(found[2]) as u8,
        number(found[3]) as u8,
    ]);
    Ok(genome)
}

} // verus!
