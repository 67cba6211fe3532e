//! The DIMACS CNF format as a function on bytes.
//!
//! Lines end at a line feed. A line is read without the blanks at its ends.
//! Before the header, a line that begins with `c` is a comment; the header
//! begins with `p cnf` and goes on with two numbers, of variables and of
//! clauses, set apart by single spaces. After the header a line that begins
//! with `c` is a comment, and any other is a clause: integers set apart by
//! single spaces, the last of them 0. A positive integer `x` stands for the
//! literal `x - 1`, a negative one for itself.
use crate::cdcl::propagation::trail::{Clause, Formula, Literal};
use vstd::prelude::*;

verus! {

/// Why an input is no DIMACS CNF.
#[derive(Debug, Copy, Clone, PartialEq, Eq, Hash)]
pub enum DimacsError {
    /// The input ends, or goes on with something other than a comment,
    /// before a header of two numbers was read.
    NoHeader,
    /// Where a number should stand there is none, or one too large.
    NotANumber,
    /// A clause does not end in 0.
    NoTerminator,
}

/// Blanks: space, tab, line feed, vertical tab, form feed, carriage return.
pub open spec fn is_blank(b: u8) -> bool {
    b == 32 || (9 <= b <= 13)
}

/// The digits `0` to `9`.
pub open spec fn is_digit(b: u8) -> bool {
    48 <= b <= 57
}

/// Where the line that begins at `from` ends: at the next line feed, or at
/// the end of the input.
pub open spec fn line_end(s: Seq<u8>, from: int) -> int
    decreases s.len() - from,
{
    if from >= s.len() {
        s.len() as int
    } else if s[from] == 10 {
        from
    } else {
        line_end(s, from + 1)
    }
}

/// Where the line after the one that ends at `end` begins.
pub open spec fn after_line(s: Seq<u8>, end: int) -> int {
    if end < s.len() {
        end + 1
    } else {
        end
    }
}

/// The first place in `[lo, hi)` that holds no blank, or `hi`.
pub open spec fn skip_blank(s: Seq<u8>, lo: int, hi: int) -> int
    decreases hi - lo,
{
    if lo >= hi || !is_blank(s[lo]) {
        lo
    } else {
        skip_blank(s, lo + 1, hi)
    }
}

/// The end of `[lo, hi)` without the blanks it ends in.
pub open spec fn drop_blank(s: Seq<u8>, lo: int, hi: int) -> int
    decreases hi - lo,
{
    if lo >= hi || !is_blank(s[hi - 1]) {
        hi
    } else {
        drop_blank(s, lo, hi - 1)
    }
}

/// Where the token that begins at `lo` ends: at the next space in
/// `[lo, hi)`, or at `hi`.
pub open spec fn token_end(s: Seq<u8>, lo: int, hi: int) -> int
    decreases hi - lo,
{
    if lo >= hi || s[lo] == 32 {
        lo
    } else {
        token_end(s, lo + 1, hi)
    }
}

/// Whether `[lo, hi)` begins with `word`.
pub open spec fn begins(s: Seq<u8>, lo: int, hi: int, word: Seq<u8>) -> bool {
    lo + word.len() <= hi && forall|i: int| 0 <= i < word.len() ==> s[lo + i] == #[trigger] word[i]
}

/// The bytes of `c`.
pub open spec fn comment_mark() -> Seq<u8> {
    seq![99u8]
}

/// The bytes of `p cnf`.
pub open spec fn header_mark() -> Seq<u8> {
    seq![112u8, 32u8, 99u8, 110u8, 102u8]
}

/// Whether `[lo, hi)` holds digits only, and at least one.
pub open spec fn all_digits(s: Seq<u8>, lo: int, hi: int) -> bool {
    lo < hi && forall|i: int| lo <= i < hi ==> is_digit(#[trigger] s[i])
}

/// The number that the digits in `[lo, hi)` write.
pub open spec fn digits_value(s: Seq<u8>, lo: int, hi: int) -> nat
    decreases hi - lo,
{
    if hi <= lo {
        0
    } else {
        digits_value(s, lo, hi - 1) * 10 + (s[hi - 1] - 48) as nat
    }
}

/// The number that the token `[lo, hi)` writes, with no sign or `+`; none
/// for anything else or beyond `usize`.
pub open spec fn unsigned_token(s: Seq<u8>, lo: int, hi: int) -> Option<usize> {
    let from = if lo < hi && s[lo] == 43 {
        lo + 1
    } else {
        lo
    };
    if all_digits(s, from, hi) && digits_value(s, from, hi) <= usize::MAX {
        Some(digits_value(s, from, hi) as usize)
    } else {
        None
    }
}

/// The integer that the token `[lo, hi)` writes, with no sign, `+` or `-`;
/// none for anything else or beyond `isize`.
pub open spec fn signed_token(s: Seq<u8>, lo: int, hi: int) -> Option<isize> {
    if lo < hi && s[lo] == 45 {
        if all_digits(s, lo + 1, hi) && digits_value(s, lo + 1, hi) <= isize::MAX + 1 {
            Some((-digits_value(s, lo + 1, hi)) as isize)
        } else {
            None
        }
    } else {
        let from = if lo < hi && s[lo] == 43 {
            lo + 1
        } else {
            lo
        };
        if all_digits(s, from, hi) && digits_value(s, from, hi) <= isize::MAX {
            Some(digits_value(s, from, hi) as isize)
        } else {
            None
        }
    }
}

/// The integers that `[lo, hi)` writes, set apart by single spaces; none if
/// a token writes no integer.
pub open spec fn integers(s: Seq<u8>, lo: int, hi: int) -> Option<Seq<isize>>
    decreases hi - lo,
{
    let end = token_end(s, lo, hi);
    if lo > hi || end < lo || end > hi {
        None
    } else {
        match signed_token(s, lo, end) {
            None => None,
            Some(x) => if end >= hi {
                Some(seq![x])
            } else {
                match integers(s, end + 1, hi) {
                    None => None,
                    Some(rest) => Some(seq![x] + rest),
                }
            },
        }
    }
}

/// The literal a DIMACS integer stands for.
pub open spec fn literal_for(x: isize) -> Literal {
    if x > 0 {
        (x - 1) as isize
    } else {
        x
    }
}

/// The clause that a line of integers stands for.
pub open spec fn clause_for(numbers: Seq<isize>) -> Result<Seq<Literal>, DimacsError> {
    if numbers.len() == 0 || numbers.last() != 0 {
        Err(DimacsError::NoTerminator)
    } else {
        Ok(Seq::new((numbers.len() - 1) as nat, |i: int| literal_for(numbers[i])))
    }
}

/// The clauses that the lines from `pos` on stand for.
pub open spec fn body(s: Seq<u8>, pos: int) -> Result<Seq<Seq<Literal>>, DimacsError>
    decreases s.len() - pos,
{
    if pos < 0 || pos >= s.len() {
        Ok(Seq::empty())
    } else {
        let end = line_end(s, pos);
        let lo = skip_blank(s, pos, end);
        let hi = drop_blank(s, lo, end);
        let next = after_line(s, end);
        if next <= pos || next > s.len() {
            Ok(Seq::empty())
        } else if begins(s, lo, hi, comment_mark()) {
            body(s, next)
        } else {
            match integers(s, lo, hi) {
                None => Err(DimacsError::NotANumber),
                Some(numbers) => match clause_for(numbers) {
                    Err(e) => Err(e),
                    Ok(clause) => match body(s, next) {
                        Err(e) => Err(e),
                        Ok(rest) => Ok(seq![clause] + rest),
                    },
                },
            }
        }
    }
}

/// What a header line says after its mark, in `[lo, hi)`: the number of
/// variables, if it goes on with exactly two numbers.
pub open spec fn header_numbers(s: Seq<u8>, lo: int, hi: int) -> Result<usize, DimacsError> {
    let first_end = token_end(s, lo, hi);
    match unsigned_token(s, lo, first_end) {
        None => Err(DimacsError::NotANumber),
        Some(n) => if first_end >= hi {
            Err(DimacsError::NoHeader)
        } else {
            let second_end = token_end(s, first_end + 1, hi);
            match unsigned_token(s, first_end + 1, second_end) {
                None => Err(DimacsError::NotANumber),
                Some(m) => if second_end >= hi {
                    Ok(n)
                } else {
                    Err(DimacsError::NoHeader)
                },
            }
        },
    }
}

/// The number of variables that the header says, and where the line after
/// the header begins, for the lines from `pos` on.
pub open spec fn header(s: Seq<u8>, pos: int) -> Result<(usize, int), DimacsError>
    decreases s.len() - pos,
{
    if pos < 0 || pos >= s.len() {
        Err(DimacsError::NoHeader)
    } else {
        let end = line_end(s, pos);
        let lo = skip_blank(s, pos, end);
        let hi = drop_blank(s, lo, end);
        let next = after_line(s, end);
        if begins(s, lo, hi, header_mark()) {
            let from = skip_blank(s, lo + 5, hi);
            match header_numbers(s, from, hi) {
                Err(e) => Err(e),
                Ok(n) => Ok((n, next)),
            }
        } else if begins(s, lo, hi, comment_mark()) && pos < next <= s.len() {
            header(s, next)
        } else {
            Err(DimacsError::NoHeader)
        }
    }
}

/// What an input stands for: the number of variables and the clauses.
pub open spec fn dimacs(s: Seq<u8>) -> Result<(usize, Seq<Seq<Literal>>), DimacsError> {
    match header(s, 0) {
        Err(e) => Err(e),
        Ok((n, pos)) => match body(s, pos) {
            Err(e) => Err(e),
            Ok(formula) => Ok((n, formula)),
        },
    }
}

/// A line ends within the input, at a line feed if before the end, and the next
/// line begins after where the line began.
pub proof fn lemma_line_end(s: Seq<u8>, from: int)
    requires
        0 <= from <= s.len(),
    ensures
        from <= line_end(s, from) <= s.len(),
        line_end(s, from) < s.len() ==> s[line_end(s, from)] == 10,
        after_line(s, line_end(s, from)) > from || from == s.len(),
    decreases s.len() - from,
{
    if from < s.len() && s[from] != 10 {
        lemma_line_end(s, from + 1);
    }
}

fn find_line_end(input: &Vec<u8>, from: usize) -> (end: usize)
    requires
        from <= input.len(),
    ensures
        end == line_end(input@, from as int),
        from <= end <= input.len(),
{
    let mut end = from;
    while end < input.len() && input[end] != 10
        invariant
            from <= end <= input.len(),
            line_end(input@, from as int) == line_end(input@, end as int),
        decreases input.len() - end,
    {
        end += 1;
    }
    end
}

fn find_skip_blank(input: &Vec<u8>, lo: usize, hi: usize) -> (at: usize)
    requires
        lo <= hi <= input.len(),
    ensures
        at == skip_blank(input@, lo as int, hi as int),
        lo <= at <= hi,
{
    let mut at = lo;
    while at < hi && (input[at] == 32 || (9 <= input[at] && input[at] <= 13))
        invariant
            lo <= at <= hi <= input.len(),
            skip_blank(input@, lo as int, hi as int) == skip_blank(input@, at as int, hi as int),
        decreases hi - at,
    {
        at += 1;
    }
    at
}

fn find_drop_blank(input: &Vec<u8>, lo: usize, hi: usize) -> (at: usize)
    requires
        lo <= hi <= input.len(),
    ensures
        at == drop_blank(input@, lo as int, hi as int),
        lo <= at <= hi,
{
    let mut at = hi;
    while lo < at && (input[at - 1] == 32 || (9 <= input[at - 1] && input[at - 1] <= 13))
        invariant
            lo <= at <= hi <= input.len(),
            drop_blank(input@, lo as int, hi as int) == drop_blank(input@, lo as int, at as int),
        decreases at - lo,
    {
        at -= 1;
    }
    at
}

fn find_token_end(input: &Vec<u8>, lo: usize, hi: usize) -> (end: usize)
    requires
        lo <= hi <= input.len(),
    ensures
        end == token_end(input@, lo as int, hi as int),
        lo <= end <= hi,
{
    let mut end = lo;
    while end < hi && input[end] != 32
        invariant
            lo <= end <= hi <= input.len(),
            token_end(input@, lo as int, hi as int) == token_end(input@, end as int, hi as int),
        decreases hi - end,
    {
        end += 1;
    }
    end
}

fn begins_with_comment(input: &Vec<u8>, lo: usize, hi: usize) -> (answer: bool)
    requires
        lo <= hi <= input.len(),
    ensures
        answer == begins(input@, lo as int, hi as int, comment_mark()),
{
    if lo < hi && input[lo] == 99 {
        assert(begins(input@, lo as int, hi as int, comment_mark()));
        true
    } else {
        if lo < hi {
            assert(comment_mark()[0] == 99u8);
        }
        false
    }
}

fn begins_with_header(input: &Vec<u8>, lo: usize, hi: usize) -> (answer: bool)
    requires
        lo <= hi <= input.len(),
    ensures
        answer == begins(input@, lo as int, hi as int, header_mark()),
{
    if hi - lo < 5 {
        return false;
    }
    let answer = input[lo] == 112 && input[lo + 1] == 32 && input[lo + 2] == 99 && input[lo + 3]
        == 110 && input[lo + 4] == 102;
    proof {
        let w = header_mark();
        assert(w[0] == 112u8 && w[1] == 32u8 && w[2] == 99u8 && w[3] == 110u8 && w[4] == 102u8);
        if answer {
            assert forall|i: int| 0 <= i < w.len() implies input@[lo + i] == #[trigger] w[i] by {}
        }
    }
    answer
}

/// The digits of a number never write less than their head does.
pub proof fn lemma_digits_grow(s: Seq<u8>, lo: int, mid: int, hi: int)
    requires
        lo <= mid <= hi,
    ensures
        digits_value(s, lo, mid) <= digits_value(s, lo, hi),
    decreases hi - mid,
{
    if mid < hi {
        lemma_digits_grow(s, lo, mid, hi - 1);
    }
}

/// Reads the digits in `[lo, hi)` as a number up to `limit`.
fn read_digits(input: &Vec<u8>, lo: usize, hi: usize, limit: usize) -> (number: Option<usize>)
    requires
        lo <= hi <= input.len(),
    ensures
        number == (if all_digits(input@, lo as int, hi as int) && digits_value(
            input@,
            lo as int,
            hi as int,
        ) <= limit {
            Some(digits_value(input@, lo as int, hi as int) as usize)
        } else {
            None
        }),
{
    if lo >= hi {
        return None;
    }
    let mut value: usize = 0;
    let mut at = lo;
    while at < hi
        invariant
            lo <= at <= hi <= input.len(),
            lo < hi,
            value == digits_value(input@, lo as int, at as int),
            value <= limit,
            forall|i: int| lo <= i < at ==> is_digit(#[trigger] input@[i]),
        decreases hi - at,
    {
        let b = input[at];
        if b < 48 || b > 57 {
            assert(!is_digit(input@[at as int]));
            return None;
        }
        let d = (b - 48) as usize;
        if d > limit || value > (limit - d) / 10 {
            proof {
                lemma_digits_grow(input@, lo as int, at + 1, hi as int);
                assert(digits_value(input@, lo as int, at + 1) == value * 10 + d);
            }
            return None;
        }
        value = value * 10 + d;
        at += 1;
    }
    Some(value)
}

fn read_unsigned(input: &Vec<u8>, lo: usize, hi: usize) -> (number: Option<usize>)
    requires
        lo <= hi <= input.len(),
    ensures
        number == unsigned_token(input@, lo as int, hi as int),
{
    let from = if lo < hi && input[lo] == 43 {
        lo + 1
    } else {
        lo
    };
    read_digits(input, from, hi, usize::MAX)
}

fn read_signed(input: &Vec<u8>, lo: usize, hi: usize) -> (number: Option<isize>)
    requires
        lo <= hi <= input.len(),
    ensures
        number == signed_token(input@, lo as int, hi as int),
{
    if lo < hi && input[lo] == 45 {
        match read_digits(input, lo + 1, hi, (isize::MAX as usize) + 1) {
            None => None,
            Some(size) => {
                if size == 0 {
                    Some(0)
                } else {
                    let below = (size - 1) as isize;
                    Some(-1 - below)
                }
            },
        }
    } else {
        let from = if lo < hi && input[lo] == 43 {
            lo + 1
        } else {
            lo
        };
        match read_digits(input, from, hi, isize::MAX as usize) {
            None => None,
            Some(size) => Some(size as isize),
        }
    }
}

/// Reads the integers of `[lo, hi)`.
fn read_integers(input: &Vec<u8>, lo: usize, hi: usize) -> (numbers: Option<Vec<isize>>)
    requires
        lo <= hi <= input.len(),
    ensures
        match numbers {
            Some(all) => integers(input@, lo as int, hi as int) == Some(all@),
            None => integers(input@, lo as int, hi as int) is None,
        },
{
    let ghost s = input@;
    let ghost whole = integers(s, lo as int, hi as int);
    let mut all: Vec<isize> = Vec::new();
    let mut at = lo;
    loop
        invariant
            lo <= at <= hi <= input.len(),
            s == input@,
            whole == integers(s, lo as int, hi as int),
            whole == (match integers(s, at as int, hi as int) {
                None => None::<Seq<isize>>,
                Some(rest) => Some(all@ + rest),
            }),
        decreases hi - at,
    {
        let end = find_token_end(input, at, hi);
        match read_signed(input, at, end) {
            None => {
                return None;
            },
            Some(x) => {
                let ghost before = all@;
                all.push(x);
                if end >= hi {
                    proof {
                        assert(before + seq![x] =~= all@);
                    }
                    return Some(all);
                }
                proof {
                    match integers(s, end + 1, hi as int) {
                        None => {},
                        Some(rest) => {
                            assert(before + (seq![x] + rest) =~= all@ + rest);
                        },
                    }
                }
                at = end + 1;
            },
        }
    }
}

/// Turns the integers of a line into a clause.
fn read_clause(numbers: Vec<isize>) -> (clause: Result<Clause, DimacsError>)
    ensures
        match clause {
            Ok(c) => clause_for(numbers@) == Ok::<Seq<Literal>, DimacsError>(c@),
            Err(e) => clause_for(numbers@) == Err::<Seq<Literal>, DimacsError>(e),
        },
{
    let mut numbers = numbers;
    let ghost given = numbers@;
    match numbers.pop() {
        Some(0) => {},
        _ => {
            return Err(DimacsError::NoTerminator);
        },
    }
    let mut i: usize = 0;
    while i < numbers.len()
        invariant
            i <= numbers.len(),
            numbers.len() == given.len() - 1,
            forall|j: int| 0 <= j < i ==> numbers[j] == literal_for(given[j]),
            forall|j: int| i <= j < numbers.len() ==> numbers[j] == given[j],
        decreases numbers.len() - i,
    {
        let x = numbers[i];
        if x > 0 {
            numbers[i] = x - 1;
        }
        i += 1;
    }
    assert(numbers@ =~= Seq::new((given.len() - 1) as nat, |i: int| literal_for(given[i])));
    Ok(numbers)
}

/// Reads the header: the number of variables and where the clauses begin.
fn read_header(input: &Vec<u8>) -> (found: Result<(usize, usize), DimacsError>)
    ensures
        match found {
            Ok((n, pos)) => header(input@, 0) == Ok::<(usize, int), DimacsError>((n, pos as int))
                && pos <= input.len(),
            Err(e) => header(input@, 0) == Err::<(usize, int), DimacsError>(e),
        },
{
    let ghost s = input@;
    let mut pos: usize = 0;
    while pos < input.len()
        invariant
            pos <= input.len(),
            s == input@,
            header(s, 0) == header(s, pos as int),
        decreases input.len() - pos,
    {
        let end = find_line_end(input, pos);
        let lo = find_skip_blank(input, pos, end);
        let hi = find_drop_blank(input, lo, end);
        let next = if end < input.len() {
            end + 1
        } else {
            end
        };
        proof {
            lemma_line_end(s, pos as int);
        }
        if begins_with_header(input, lo, hi) {
            let from = find_skip_blank(input, lo + 5, hi);
            let first_end = find_token_end(input, from, hi);
            let n = match read_unsigned(input, from, first_end) {
                None => {
                    return Err(DimacsError::NotANumber);
                },
                Some(n) => n,
            };
            if first_end >= hi {
                return Err(DimacsError::NoHeader);
            }
            let second_end = find_token_end(input, first_end + 1, hi);
            match read_unsigned(input, first_end + 1, second_end) {
                None => {
                    return Err(DimacsError::NotANumber);
                },
                Some(_m) => {},
            }
            if second_end >= hi {
                return Ok((n, next));
            }
            return Err(DimacsError::NoHeader);
        } else if begins_with_comment(input, lo, hi) {
            pos = next;
        } else {
            return Err(DimacsError::NoHeader);
        }
    }
    Err(DimacsError::NoHeader)
}

/// Reads a formula in DIMACS CNF: the number of variables that the header
/// says, and the clauses.
pub fn read_dimacs(input: &Vec<u8>) -> (read: Result<(usize, Formula), DimacsError>)
    ensures
        match read {
            Ok((n, formula)) => dimacs(input@) == Ok::<
                (usize, Seq<Seq<Literal>>),
                DimacsError,
            >((n, crate::cdcl::model::clauses(formula))),
            Err(e) => dimacs(input@) == Err::<(usize, Seq<Seq<Literal>>), DimacsError>(e),
        },
{
    let ghost s = input@;
    let (n, start) = match read_header(input) {
        Err(e) => {
            return Err(e);
        },
        Ok(found) => found,
    };
    let mut formula: Vec<Vec<Literal>> = Vec::new();
    let mut pos = start;
    while pos < input.len()
        invariant
            pos <= input.len(),
            s == input@,
            header(s, 0) == Ok::<(usize, int), DimacsError>((n, start as int)),
            body(s, start as int) == (match body(s, pos as int) {
                Err(e) => Err::<Seq<Seq<Literal>>, DimacsError>(e),
                Ok(rest) => Ok(crate::cdcl::model::clauses(formula) + rest),
            }),
        decreases input.len() - pos,
    {
        let end = find_line_end(input, pos);
        let lo = find_skip_blank(input, pos, end);
        let hi = find_drop_blank(input, lo, end);
        let next = if end < input.len() {
            end + 1
        } else {
            end
        };
        proof {
            lemma_line_end(s, pos as int);
        }
        if !begins_with_comment(input, lo, hi) {
            let numbers = match read_integers(input, lo, hi) {
                None => {
                    assert(body(s, pos as int) == Err::<Seq<Seq<Literal>>, DimacsError>(
                        DimacsError::NotANumber,
                    ));
                    return Err(DimacsError::NotANumber);
                },
                Some(numbers) => numbers,
            };
            let ghost read = numbers@;
            let clause = match read_clause(numbers) {
                Err(e) => {
                    assert(body(s, pos as int) == Err::<Seq<Seq<Literal>>, DimacsError>(e));
                    return Err(e);
                },
                Ok(clause) => clause,
            };
            let ghost before = crate::cdcl::model::clauses(formula);
            formula.push(clause);
            proof {
                assert(crate::cdcl::model::clauses(formula) =~= before.push(clause@));
                match body(s, next as int) {
                    Err(e) => {},
                    Ok(rest) => {
                        assert(before + (seq![clause@] + rest) =~= crate::cdcl::model::clauses(
                            formula,
                        ) + rest);
                    },
                }
            }
        }
        pos = next;
    }
    proof {
        assert(crate::cdcl::model::clauses(formula) + Seq::<Seq<Literal>>::empty()
            =~= crate::cdcl::model::clauses(formula));
    }
    Ok((n, formula))
}

} // verus!
