use vstd::prelude::*;

use vstd::arithmetic::div_mod::{lemma_fundamental_div_mod, lemma_mod_bound};

verus! {

/// A position on the grid, measured in cells; `x` counts columns from the
/// left, `y` counts rows from the top.
#[derive(Clone, Copy, PartialEq, Eq, Structural, Debug)]
pub struct Coordinate {
    pub x: usize,
    pub y: usize,
}

/// Why a coordinate string was rejected: a component was absent, held a
/// character that is no decimal digit, or named a value too large to hold.
#[derive(Clone, Copy, PartialEq, Eq, Structural, Debug)]
pub enum CoordinateParseError {
    Empty,
    InvalidDigit,
    Overflow,
}

/// The characters stripped from both ends before splitting.
pub open spec fn is_paren(c: char) -> bool {
    c == '(' || c == ')'
}

/// An ASCII decimal digit.
pub open spec fn is_digit_char(c: char) -> bool {
    '0' <= c && c <= '9'
}

/// The numeric value of a digit character.
pub open spec fn digit_val(c: char) -> int {
    c as u32 - 48
}

/// The sequence with every leading parenthesis character removed.
pub open spec fn trim_front(s: Seq<char>) -> Seq<char>
    decreases s.len(),
{
    if s.len() > 0 && is_paren(s[0]) {
        trim_front(s.subrange(1, s.len() as int))
    } else {
        s
    }
}

/// The sequence with every trailing parenthesis character removed.
pub open spec fn trim_back(s: Seq<char>) -> Seq<char>
    decreases s.len(),
{
    if s.len() > 0 && is_paren(s[s.len() - 1]) {
        trim_back(s.subrange(0, s.len() - 1))
    } else {
        s
    }
}

/// The sequence with parenthesis characters stripped from both ends, as a
/// trim with a parenthesis pattern strips them.
pub open spec fn trim_parens(s: Seq<char>) -> Seq<char> {
    trim_back(trim_front(s))
}

/// The index of the first comma, or the length when there is none.
pub open spec fn first_comma(s: Seq<char>) -> int
    decreases s.len(),
{
    if s.len() == 0 {
        0
    } else if s[0] == ',' {
        0
    } else {
        1 + first_comma(s.subrange(1, s.len() as int))
    }
}

/// What stands before the first comma.
pub open spec fn piece_before_comma(s: Seq<char>) -> Seq<char> {
    s.subrange(0, first_comma(s))
}

/// What stands after the first comma; empty when there is no comma, so a
/// missing second component reads as an empty one.
pub open spec fn rest_after_comma(s: Seq<char>) -> Seq<char> {
    if first_comma(s) < s.len() {
        s.subrange(first_comma(s) + 1, s.len() as int)
    } else {
        Seq::empty()
    }
}

/// The sequence with one leading plus sign removed, as the standard
/// unsigned parse accepts.
pub open spec fn strip_plus(s: Seq<char>) -> Seq<char> {
    if s.len() > 0 && s[0] == '+' {
        s.subrange(1, s.len() as int)
    } else {
        s
    }
}

/// The left-to-right decimal scan from position `i` with the value read so
/// far in `acc`: it stops at the first character that is no digit, or as
/// soon as the value would no longer fit, just as the standard parse does.
pub open spec fn scan_digits(t: Seq<char>, i: int, acc: int) -> Result<
    int,
    CoordinateParseError,
>
    decreases t.len() - i,
{
    if !(0 <= i < t.len()) {
        Ok(acc)
    } else if !is_digit_char(t[i]) {
        Err(CoordinateParseError::InvalidDigit)
    } else if acc * 10 + digit_val(t[i]) > usize::MAX {
        Err(CoordinateParseError::Overflow)
    } else {
        scan_digits(t, i + 1, acc * 10 + digit_val(t[i]))
    }
}

/// Every character is a decimal digit.
pub open spec fn all_digits(s: Seq<char>) -> bool {
    forall|i: int| 0 <= i < s.len() ==> is_digit_char(#[trigger] s[i])
}

/// The decimal value of a digit string, the most significant digit first.
pub open spec fn digits_val(s: Seq<char>) -> int
    decreases s.len(),
{
    if s.len() == 0 {
        0
    } else {
        10 * digits_val(s.drop_last()) + digit_val(s.last())
    }
}

/// What parsing one component as an unsigned number yields: `Empty` for an
/// absent component, `InvalidDigit` for a lone sign or a stray character,
/// `Overflow` for a value that does not fit, and otherwise its value.
pub open spec fn parse_usize_spec(s: Seq<char>) -> Result<int, CoordinateParseError> {
    if s.len() == 0 {
        Err(CoordinateParseError::Empty)
    } else {
        let t = strip_plus(s);
        if t.len() == 0 {
            Err(CoordinateParseError::InvalidDigit)
        } else {
            scan_digits(t, 0, 0)
        }
    }
}

/// What parsing a coordinate string yields: parentheses are stripped from
/// both ends only, the remainder splits at commas, and the first two
/// pieces are read as the two components, the first one first.
pub open spec fn parse_coordinate_spec(s: Seq<char>) -> Result<
    Coordinate,
    CoordinateParseError,
> {
    let t = trim_parens(s);
    match parse_usize_spec(piece_before_comma(t)) {
        Err(e) => Err(e),
        Ok(xv) => match parse_usize_spec(piece_before_comma(rest_after_comma(t))) {
            Err(e) => Err(e),
            Ok(yv) => Ok(Coordinate { x: xv as usize, y: yv as usize }),
        },
    }
}

proof fn lemma_digits_val_nonneg(s: Seq<char>)
    requires
        all_digits(s),
    ensures
        digits_val(s) >= 0,
    decreases s.len(),
{
    if s.len() > 0 {
        assert(all_digits(s.drop_last()));
        lemma_digits_val_nonneg(s.drop_last());
    }
}

/// A scan that succeeds saw nothing but digits.
proof fn lemma_scan_ok_digits(t: Seq<char>, i: int, acc: int)
    requires
        0 <= i <= t.len(),
        scan_digits(t, i, acc) is Ok,
    ensures
        forall|j: int| i <= j < t.len() ==> is_digit_char(#[trigger] t[j]),
    decreases t.len() - i,
{
    if i < t.len() {
        lemma_scan_ok_digits(t, i + 1, acc * 10 + digit_val(t[i]));
    }
}

/// Scanning one digit further multiplies the result by ten and adds it.
proof fn lemma_scan_extend(t: Seq<char>, i: int, acc: int, w: int)
    requires
        0 <= i <= t.len() - 1,
        is_digit_char(t.last()),
        scan_digits(t.drop_last(), i, acc) == Ok::<int, CoordinateParseError>(w),
        10 * w + digit_val(t.last()) <= usize::MAX,
    ensures
        scan_digits(t, i, acc) == Ok::<int, CoordinateParseError>(10 * w + digit_val(t.last())),
    decreases t.len() - i,
{
    let tp = t.drop_last();
    if i < tp.len() {
        assert(tp[i] == t[i]);
        assert(scan_digits(tp, i, acc) == scan_digits(tp, i + 1, acc * 10 + digit_val(t[i])));
        lemma_scan_extend(t, i + 1, acc * 10 + digit_val(t[i]), w);
        assert(scan_digits(t, i, acc) == scan_digits(t, i + 1, acc * 10 + digit_val(t[i])));
    } else {
        assert(w == acc);
        assert(t[i] == t.last());
        assert(scan_digits(t, i + 1, acc * 10 + digit_val(t[i])) == Ok::<
            int,
            CoordinateParseError,
        >(acc * 10 + digit_val(t[i])));
    }
}

/// Dropping the last digit of a successful scan still succeeds, and the
/// two results differ by exactly that digit's place.
proof fn lemma_scan_shrink(t: Seq<char>, i: int, acc: int)
    requires
        0 <= i < t.len(),
        scan_digits(t, i, acc) is Ok,
    ensures
        scan_digits(t.drop_last(), i, acc) is Ok,
        scan_digits(t, i, acc)->Ok_0 == 10 * (scan_digits(t.drop_last(), i, acc)->Ok_0)
            + digit_val(t.last()),
        scan_digits(t, i, acc)->Ok_0 <= usize::MAX,
    decreases t.len() - i,
{
    let tp = t.drop_last();
    if i < tp.len() {
        assert(tp[i] == t[i]);
        assert(scan_digits(t, i, acc) == scan_digits(t, i + 1, acc * 10 + digit_val(t[i])));
        assert(scan_digits(tp, i, acc) == scan_digits(tp, i + 1, acc * 10 + digit_val(t[i])));
        lemma_scan_shrink(t, i + 1, acc * 10 + digit_val(t[i]));
    } else {
        assert(t[i] == t.last());
        assert(scan_digits(tp, i, acc) == Ok::<int, CoordinateParseError>(acc));
        assert(scan_digits(t, i + 1, acc * 10 + digit_val(t[i])) == Ok::<
            int,
            CoordinateParseError,
        >(acc * 10 + digit_val(t[i])));
    }
}

/// A successful scan from zero returns the decimal value of the digits.
proof fn lemma_scan_complete(t: Seq<char>)
    requires
        scan_digits(t, 0, 0) is Ok,
    ensures
        scan_digits(t, 0, 0) == Ok::<int, CoordinateParseError>(digits_val(t)),
        digits_val(t) <= usize::MAX,
    decreases t.len(),
{
    if t.len() > 0 {
        lemma_scan_shrink(t, 0, 0);
        lemma_scan_complete(t.drop_last());
    }
}

/// A digit string whose value fits scans to exactly that value.
proof fn lemma_scan_of_digits(t: Seq<char>)
    requires
        all_digits(t),
        digits_val(t) <= usize::MAX,
    ensures
        scan_digits(t, 0, 0) == Ok::<int, CoordinateParseError>(digits_val(t)),
    decreases t.len(),
{
    if t.len() > 0 {
        let tp = t.drop_last();
        assert(all_digits(tp));
        lemma_digits_val_nonneg(tp);
        lemma_scan_of_digits(tp);
        lemma_scan_extend(t, 0, 0, digits_val(tp));
    }
}

/// Law: a component parses successfully exactly when, after the optional
/// plus sign, it is one or more digits whose decimal value fits the type,
/// and then the parsed value is that decimal value.
pub proof fn lemma_parse_usize_exact(s: Seq<char>)
    ensures
        parse_usize_spec(s) is Ok <==> (s.len() > 0 && strip_plus(s).len() > 0 && all_digits(
            strip_plus(s),
        ) && digits_val(strip_plus(s)) <= usize::MAX),
        parse_usize_spec(s) is Ok ==> parse_usize_spec(s) == Ok::<int, CoordinateParseError>(
            digits_val(strip_plus(s)),
        ),
{
    let t = strip_plus(s);
    if s.len() > 0 && t.len() > 0 {
        if scan_digits(t, 0, 0) is Ok {
            lemma_scan_ok_digits(t, 0, 0);
            lemma_scan_complete(t);
        }
        if all_digits(t) && digits_val(t) <= usize::MAX {
            lemma_scan_of_digits(t);
        }
    }
}

impl Coordinate {
    pub fn new(x: usize, y: usize) -> (c: Coordinate)
        ensures
            c.x == x,
            c.y == y,
    {
        Coordinate { x, y }
    }

    /// Reads a coordinate from text such as `(3,4)`: parentheses stripped
    /// from the ends, a comma between the two decimal components.
    pub fn from_str(s: &str) -> (r: Result<Coordinate, CoordinateParseError>)
        ensures
            r == parse_coordinate_spec(s@),
    {
        let n: usize = s.unicode_len();
        proof {
            assert(s@.subrange(0, n as int) =~= s@);
        }

        // Strip leading parentheses.
        let mut lo: usize = 0;
        loop
            invariant
                0 <= lo <= n,
                n == s@.len(),
                trim_front(s@.subrange(lo as int, n as int)) == trim_front(s@),
            ensures
                0 <= lo <= n,
                n == s@.len(),
                trim_front(s@) == s@.subrange(lo as int, n as int),
            decreases n - lo,
        {
            if lo >= n {
                break ;
            }
            let c = s.get_char(lo);
            if c == '(' || c == ')' {
                proof {
                    assert(s@.subrange(lo as int, n as int).subrange(
                        1,
                        n - lo,
                    ) =~= s@.subrange(lo as int + 1, n as int));
                }
                lo = lo + 1;
            } else {
                break ;
            }
        }

        // Strip trailing parentheses of what is left.
        let ghost front = s@.subrange(lo as int, n as int);
        let mut hi: usize = n;
        loop
            invariant
                lo <= hi <= n,
                n == s@.len(),
                trim_front(s@) == front,
                trim_back(s@.subrange(lo as int, hi as int)) == trim_back(front),
            ensures
                lo <= hi <= n,
                trim_parens(s@) == s@.subrange(lo as int, hi as int),
            decreases hi - lo,
        {
            if hi <= lo {
                break ;
            }
            let c = s.get_char(hi - 1);
            if c == '(' || c == ')' {
                proof {
                    assert(s@.subrange(lo as int, hi as int).subrange(
                        0,
                        hi - lo - 1,
                    ) =~= s@.subrange(lo as int, hi as int - 1));
                }
                hi = hi - 1;
            } else {
                break ;
            }
        }

        let ghost t = s@.subrange(lo as int, hi as int);

        // Find the comma that separates the two components.
        let mut c1: usize = lo;
        loop
            invariant
                lo <= c1 <= hi <= n,
                n == s@.len(),
                t == s@.subrange(lo as int, hi as int),
                first_comma(t) == c1 - lo + first_comma(
                    s@.subrange(c1 as int, hi as int),
                ),
                forall|k: int| lo <= k < c1 ==> s@[k] != ',',
            ensures
                lo <= c1 <= hi,
                first_comma(t) == c1 - lo,
                c1 == hi || s@[c1 as int] == ',',
            decreases hi - c1,
        {
            if c1 >= hi {
                break ;
            }
            let c = s.get_char(c1);
            if c == ',' {
                break ;
            }
            proof {
                assert(s@.subrange(c1 as int, hi as int).subrange(
                    1,
                    hi - c1,
                ) =~= s@.subrange(c1 as int + 1, hi as int));
            }
            c1 = c1 + 1;
        }
        proof {
            assert(piece_before_comma(t) =~= s@.subrange(lo as int, c1 as int));
        }

        let x = match Self::parse_component(s, lo, c1) {
            Ok(v) => v,
            Err(e) => {
                return Err(e);
            },
        };

        if c1 == hi {
            // No comma: the second component is absent, so it reads empty.
            proof {
                assert(rest_after_comma(t) =~= Seq::<char>::empty());
                assert(piece_before_comma(rest_after_comma(t)) =~= Seq::<char>::empty());
            }
            return Err(CoordinateParseError::Empty);
        }

        // The second component runs to the next comma or to the end.
        let ghost rest = s@.subrange(c1 as int + 1, hi as int);
        proof {
            assert(rest_after_comma(t) =~= rest);
        }
        let mut c2: usize = c1 + 1;
        loop
            invariant
                c1 + 1 <= c2 <= hi <= n,
                n == s@.len(),
                rest == s@.subrange(c1 as int + 1, hi as int),
                first_comma(rest) == c2 - (c1 + 1) + first_comma(
                    s@.subrange(c2 as int, hi as int),
                ),
            ensures
                c1 + 1 <= c2 <= hi,
                first_comma(rest) == c2 - (c1 + 1),
            decreases hi - c2,
        {
            if c2 >= hi {
                break ;
            }
            let c = s.get_char(c2);
            if c == ',' {
                break ;
            }
            proof {
                assert(s@.subrange(c2 as int, hi as int).subrange(
                    1,
                    hi - c2,
                ) =~= s@.subrange(c2 as int + 1, hi as int));
            }
            c2 = c2 + 1;
        }
        proof {
            assert(piece_before_comma(rest) =~= s@.subrange(c1 as int + 1, c2 as int));
        }

        let y = match Self::parse_component(s, c1 + 1, c2) {
            Ok(v) => v,
            Err(e) => {
                return Err(e);
            },
        };

        Ok(Coordinate::new(x, y))
    }

    /// Reads the characters of `s` from `from` to `to` as one unsigned
    /// decimal component.
    fn parse_component(s: &str, from: usize, to: usize) -> (r: Result<
        usize,
        CoordinateParseError,
    >)
        requires
            from <= to <= s@.len(),
        ensures
            match r {
                Ok(v) => parse_usize_spec(s@.subrange(from as int, to as int)) == Ok::<
                    int,
                    CoordinateParseError,
                >(v as int),
                Err(e) => parse_usize_spec(s@.subrange(from as int, to as int)) == Err::<
                    int,
                    CoordinateParseError,
                >(e),
            },
    {
        let ghost piece = s@.subrange(from as int, to as int);
        if from == to {
            return Err(CoordinateParseError::Empty);
        }

        let mut dstart: usize = from;
        if s.get_char(from) == '+' {
            dstart = from + 1;
        }
        let ghost t = strip_plus(piece);
        proof {
            assert(t =~= s@.subrange(dstart as int, to as int));
        }
        if dstart == to {
            return Err(CoordinateParseError::InvalidDigit);
        }

        let mut val: usize = 0;
        let mut i: usize = dstart;
        while i < to
            invariant
                from <= dstart <= i <= to <= s@.len(),
                t == s@.subrange(dstart as int, to as int),
                parse_usize_spec(s@.subrange(from as int, to as int)) == scan_digits(t, 0, 0),
                scan_digits(t, 0, 0) == scan_digits(t, i - dstart, val as int),
            decreases to - i,
        {
            let c = s.get_char(i);
            assert(t[i - dstart] == c);
            if c < '0' || c > '9' {
                proof {
                    assert(!is_digit_char(c));
                    assert(scan_digits(t, i - dstart, val as int) == Err::<
                        int,
                        CoordinateParseError,
                    >(CoordinateParseError::InvalidDigit));
                }
                return Err(CoordinateParseError::InvalidDigit);
            }
            let d: usize = (c as u32 - 48) as usize;
            assert(d == digit_val(c) && d <= 9);
            let limit: usize = (usize::MAX - d) / 10;
            proof {
                lemma_fundamental_div_mod(usize::MAX - d, 10);
                lemma_mod_bound(usize::MAX - d, 10);
                if val <= limit {
                    assert(val * 10 <= limit * 10) by (nonlinear_arith)
                        requires
                            val <= limit,
                    ;
                } else {
                    assert(val * 10 >= (limit + 1) * 10) by (nonlinear_arith)
                        requires
                            val >= limit + 1,
                    ;
                }
            }
            if val > limit {
                proof {
                    assert(val * 10 + d > usize::MAX);
                    assert(scan_digits(t, i - dstart, val as int) == Err::<
                        int,
                        CoordinateParseError,
                    >(CoordinateParseError::Overflow));
                }
                return Err(CoordinateParseError::Overflow);
            }
            proof {
                assert(val * 10 + d <= usize::MAX);
                assert(scan_digits(t, i - dstart, val as int) == scan_digits(
                    t,
                    i - dstart + 1,
                    val as int * 10 + d,
                ));
            }
            val = val * 10 + d;
            i = i + 1;
        }
        proof {
            assert(scan_digits(t, to - dstart, val as int) == Ok::<int, CoordinateParseError>(
                val as int,
            ));
        }
        Ok(val)
    }
}

} // verus!
