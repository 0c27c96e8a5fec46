use vstd::prelude::*;
use crate::grid::{Board, GridView};

verus! {

/// Why a line of seed text is not a coordinate.
#[derive(Debug, Clone, Copy, PartialEq, Eq, Structural)]
pub enum CoordinateParseError {
    /// The line does not hold exactly two fields separated by one comma.
    InvalidFormat,
    /// A field is not a non-negative decimal integer that fits in `usize`.
    InvalidNumber,
}

/// Characters with the Unicode `White_Space` property.
pub open spec fn is_white(c: char) -> bool {
    ('\u{9}' <= c <= '\u{d}') || c == ' ' || c == '\u{85}' || c == '\u{a0}' || c == '\u{1680}'
        || ('\u{2000}' <= c <= '\u{200a}') || c == '\u{2028}' || c == '\u{2029}' || c == '\u{202f}'
        || c == '\u{205f}' || c == '\u{3000}'
}

/// Whether `c` has the Unicode `White_Space` property.
fn is_whitespace(c: char) -> (r: bool)
    ensures
        r == is_white(c),
{
    ('\u{9}' <= c && c <= '\u{d}') || c == ' ' || c == '\u{85}' || c == '\u{a0}' || c == '\u{1680}'
        || ('\u{2000}' <= c && c <= '\u{200a}') || c == '\u{2028}' || c == '\u{2029}' || c == '\u{202f}'
        || c == '\u{205f}' || c == '\u{3000}'
}

/// `s` without its leading whitespace.
pub open spec fn trim_start(s: Seq<char>) -> Seq<char>
    decreases s.len(),
{
    if s.len() > 0 && is_white(s[0]) {
        trim_start(s.drop_first())
    } else {
        s
    }
}

/// `s` without its trailing whitespace.
pub open spec fn trim_end(s: Seq<char>) -> Seq<char>
    decreases s.len(),
{
    if s.len() > 0 && is_white(s.last()) {
        trim_end(s.drop_last())
    } else {
        s
    }
}

/// `s` without leading or trailing whitespace.
pub open spec fn trim(s: Seq<char>) -> Seq<char> {
    trim_end(trim_start(s))
}

/// How many commas `s` holds.
pub open spec fn comma_count(s: Seq<char>) -> nat
    decreases s.len(),
{
    if s.len() == 0 {
        0
    } else {
        comma_count(s.drop_last()) + if s.last() == ',' {
            1nat
        } else {
            0
        }
    }
}

/// The position of the last comma in `s`, or -1 if there is none.
pub open spec fn last_comma(s: Seq<char>) -> int
    decreases s.len(),
{
    if s.len() == 0 {
        -1
    } else if s.last() == ',' {
        s.len() - 1
    } else {
        last_comma(s.drop_last())
    }
}

pub open spec fn is_digit(c: char) -> bool {
    '0' <= c <= '9'
}

/// The value of a decimal digit.
pub open spec fn digit_value(c: char) -> nat {
    if is_digit(c) {
        (c as int - '0' as int) as nat
    } else {
        0
    }
}

/// The number that a string of decimal digits spells.
pub open spec fn digits_value(s: Seq<char>) -> nat
    decreases s.len(),
{
    if s.len() == 0 {
        0
    } else {
        10 * digits_value(s.drop_last()) + digit_value(s.last())
    }
}

/// A field without its optional leading `+`.
pub open spec fn without_plus(s: Seq<char>) -> Seq<char> {
    if s.len() > 0 && s[0] == '+' {
        s.drop_first()
    } else {
        s
    }
}

pub open spec fn all_digits(d: Seq<char>) -> bool {
    forall|i: int| 0 <= i < d.len() ==> is_digit(#[trigger] d[i])
}

/// The value of a field: an optional `+` and at least one decimal digit,
/// spelling a number that fits in `usize`.
pub open spec fn number_of(s: Seq<char>) -> Option<usize> {
    let d = without_plus(s);
    if d.len() > 0 && all_digits(d) && digits_value(d) <= usize::MAX {
        Some(digits_value(d) as usize)
    } else {
        None
    }
}

/// The coordinate that one line of seed text gives: once trimmed, it is two
/// numbers `x,y` separated by a single comma.
pub open spec fn coordinate_of(s: Seq<char>) -> Result<(usize, usize), CoordinateParseError> {
    let t = trim(s);
    let k = last_comma(t);
    if comma_count(t) != 1 {
        Err(CoordinateParseError::InvalidFormat)
    } else {
        match (number_of(t.subrange(0, k)), number_of(t.subrange(k + 1, t.len() as int))) {
            (Some(x), Some(y)) => Ok((x, y)),
            _ => Err(CoordinateParseError::InvalidNumber),
        }
    }
}

/// The characters of a string, in order.
pub fn chars_of(s: &str) -> (r: Vec<char>)
    ensures
        r@ == s@,
{
    let mut r: Vec<char> = Vec::new();
    for c in it: s.chars()
        invariant
            r@ == it.seq().subrange(0, it.index() as int),
            it.seq() == s@,
    {
        r.push(c);
    }
    r
}

proof fn lemma_trim_start_step(s: Seq<char>, i: int)
    requires
        0 <= i < s.len(),
    ensures
        s.subrange(i, s.len() as int).drop_first() == s.subrange(i + 1, s.len() as int),
{
    assert(s.subrange(i, s.len() as int).drop_first() =~= s.subrange(i + 1, s.len() as int));
}

/// The bounds of `s` once leading and trailing whitespace is cut off.
fn trim_bounds(s: &Vec<char>) -> (r: (usize, usize))
    ensures
        r.0 <= r.1 <= s@.len(),
        trim(s@) == s@.subrange(r.0 as int, r.1 as int),
{
    let n = s.len();
    let mut i: usize = 0;
    assert(s@.subrange(0, n as int) =~= s@);
    while i < n && is_whitespace(s[i])
        invariant
            i <= n == s@.len(),
            trim_start(s@) == trim_start(s@.subrange(i as int, n as int)),
        decreases n - i,
    {
        proof {
            lemma_trim_start_step(s@, i as int);
        }
        i += 1;
    }
    let mut j: usize = n;
    while j > i && is_whitespace(s[j - 1])
        invariant
            i <= j <= n == s@.len(),
            trim_start(s@) == s@.subrange(i as int, n as int),
            trim(s@) == trim_end(s@.subrange(i as int, j as int)),
        decreases j,
    {
        assert(s@.subrange(i as int, j as int).drop_last() =~= s@.subrange(i as int, j - 1));
        j -= 1;
    }
    (i, j)
}

/// A prefix of a digit string never spells a larger number than the whole.
proof fn lemma_digits_prefix(s: Seq<char>, m: int)
    requires
        0 <= m <= s.len(),
    ensures
        digits_value(s.subrange(0, m)) <= digits_value(s),
    decreases s.len(),
{
    if m < s.len() {
        assert(s.drop_last().subrange(0, m) =~= s.subrange(0, m));
        lemma_digits_prefix(s.drop_last(), m);
    } else {
        assert(s.subrange(0, m) =~= s);
    }
}

/// Reads the number in `s[lo..hi]`: an optional `+` and decimal digits.
fn parse_number(s: &Vec<char>, lo: usize, hi: usize) -> (r: Option<usize>)
    requires
        lo <= hi <= s@.len(),
    ensures
        r == number_of(s@.subrange(lo as int, hi as int)),
{
    let ghost f = s@.subrange(lo as int, hi as int);
    let mut i = lo;
    if i < hi && s[i] == '+' {
        i += 1;
    }
    let ghost d = s@.subrange(i as int, hi as int);
    proof {
        if f.len() > 0 && f[0] == '+' {
            assert(f.drop_first() =~= d);
        } else {
            assert(f =~= d);
        }
    }
    if i == hi {
        return None;
    }
    let mut value: usize = 0;
    let mut k = i;
    while k < hi
        invariant
            i <= k <= hi <= s@.len(),
            d == s@.subrange(i as int, hi as int),
            f == s@.subrange(lo as int, hi as int),
            d == without_plus(f),
            value == digits_value(s@.subrange(i as int, k as int)),
            forall|m: int| i <= m < k ==> is_digit(#[trigger] s@[m]),
        decreases hi - k,
    {
        let c = s[k];
        if !('0' <= c && c <= '9') {
            assert(!is_digit(d[k - i]));
            return None;
        }
        let digit = (c as u32 - '0' as u32) as usize;
        let ghost prefix = s@.subrange(i as int, k + 1);
        assert(prefix.drop_last() =~= s@.subrange(i as int, k as int));
        assert(digits_value(prefix) == 10 * value + digit);
        match value.checked_mul(10) {
            None => {
                proof {
                    assert(d.subrange(0, k + 1 - i) =~= prefix);
                    lemma_digits_prefix(d, k + 1 - i);
                }
                return None;
            },
            Some(tens) => match tens.checked_add(digit) {
                None => {
                    proof {
                        assert(d.subrange(0, k + 1 - i) =~= prefix);
                        lemma_digits_prefix(d, k + 1 - i);
                    }
                    return None;
                },
                Some(next) => {
                    value = next;
                },
            },
        }
        k += 1;
    }
    assert(s@.subrange(i as int, k as int) =~= d);
    Some(value)
}

/// Reads a coordinate from the characters of one line; see `coordinate_of`.
pub fn parse_coordinate_chars(s: &Vec<char>) -> (r: Result<(usize, usize), CoordinateParseError>)
    ensures
        r == coordinate_of(s@),
{
    let (a, b) = trim_bounds(s);
    let ghost t = s@.subrange(a as int, b as int);
    let mut count: usize = 0;
    let mut comma_at: usize = 0;
    let mut k = a;
    while k < b
        invariant
            a <= k <= b <= s@.len(),
            t == s@.subrange(a as int, b as int),
            count == comma_count(s@.subrange(a as int, k as int)),
            count <= k - a,
            count == 0 ==> last_comma(s@.subrange(a as int, k as int)) == -1,
            count > 0 ==> a + last_comma(s@.subrange(a as int, k as int)) == comma_at && a <= comma_at < k,
        decreases b - k,
    {
        assert(s@.subrange(a as int, k + 1).drop_last() =~= s@.subrange(a as int, k as int));
        if s[k] == ',' {
            count += 1;
            comma_at = k;
        }
        k += 1;
    }
    assert(s@.subrange(a as int, k as int) == t);
    if count != 1 {
        return Err(CoordinateParseError::InvalidFormat);
    }
    let x = parse_number(s, a, comma_at);
    let y = parse_number(s, comma_at + 1, b);
    assert(t.subrange(0, comma_at - a) =~= s@.subrange(a as int, comma_at as int));
    assert(t.subrange(comma_at + 1 - a, t.len() as int) =~= s@.subrange(comma_at + 1, b as int));
    match (x, y) {
        (Some(x), Some(y)) => Ok((x, y)),
        _ => Err(CoordinateParseError::InvalidNumber),
    }
}

/// Reads a coordinate `x,y` from one line of seed text, ignoring whitespace
/// around it. A line without exactly one comma is `InvalidFormat`; a field
/// that is not a non-negative decimal integer fitting in `usize` is
/// `InvalidNumber`.
pub fn parse_coordinate(data: &str) -> (r: Result<(usize, usize), CoordinateParseError>)
    ensures
        r == coordinate_of(data@),
{
    let chars = chars_of(data);
    parse_coordinate_chars(&chars)
}

/// The lines of `s`, split at each `\n`; there is always at least one.
pub open spec fn lines_of(s: Seq<char>) -> Seq<Seq<char>>
    decreases s.len(),
{
    if s.len() == 0 {
        seq![Seq::<char>::empty()]
    } else {
        let prev = lines_of(s.drop_last());
        if s.last() == '\n' {
            prev.push(Seq::<char>::empty())
        } else {
            prev.update(prev.len() - 1, prev.last().push(s.last()))
        }
    }
}

proof fn lemma_lines_nonempty(s: Seq<char>)
    ensures
        lines_of(s).len() >= 1,
    decreases s.len(),
{
    if s.len() > 0 {
        lemma_lines_nonempty(s.drop_last());
    }
}

/// A line that holds nothing but whitespace.
pub open spec fn is_blank(line: Seq<char>) -> bool {
    trim(line).len() == 0
}

/// The coordinates of the seed lines in order, blank lines skipped, or the
/// error of the first line that is not a coordinate.
pub open spec fn seed_coordinates(lines: Seq<Seq<char>>) -> Result<Seq<(usize, usize)>, CoordinateParseError>
    decreases lines.len(),
{
    if lines.len() == 0 {
        Ok(Seq::empty())
    } else {
        match seed_coordinates(lines.drop_last()) {
            Err(e) => Err(e),
            Ok(cs) => if is_blank(lines.last()) {
                Ok(cs)
            } else {
                match coordinate_of(lines.last()) {
                    Err(e) => Err(e),
                    Ok(c) => Ok(cs.push(c)),
                }
            },
        }
    }
}

/// The coordinates of a seed text, or the error of its first bad line.
pub open spec fn seed_of(text: Seq<char>) -> Result<Seq<(usize, usize)>, CoordinateParseError> {
    seed_coordinates(lines_of(text))
}

/// The cells among `cs` that lie on the grid `g`.
pub open spec fn seed_cells(g: GridView, cs: Seq<(usize, usize)>) -> Set<(int, int)> {
    Set::new(
        |p: (int, int)|
            g.in_range(p.0, p.1) && exists|i: int| 0 <= i < cs.len() && #[trigger] cs[i] == (p.0 as usize, p.1 as usize),
    )
}

proof fn lemma_seed_error_stays(lines: Seq<Seq<char>>, m: int)
    requires
        0 <= m <= lines.len(),
        seed_coordinates(lines.subrange(0, m)) is Err,
    ensures
        seed_coordinates(lines) == seed_coordinates(lines.subrange(0, m)),
    decreases lines.len(),
{
    if m < lines.len() {
        assert(lines.drop_last().subrange(0, m) =~= lines.subrange(0, m));
        lemma_seed_error_stays(lines.drop_last(), m);
    } else {
        assert(lines.subrange(0, m) =~= lines);
    }
}

/// Splits characters into lines at each `\n`.
fn split_lines(s: &Vec<char>) -> (r: Vec<Vec<char>>)
    ensures
        r@.len() == lines_of(s@).len(),
        forall|k: int| 0 <= k < r@.len() ==> #[trigger] r@[k]@ == lines_of(s@)[k],
{
    let mut lines: Vec<Vec<char>> = Vec::new();
    let mut current: Vec<char> = Vec::new();
    let mut i: usize = 0;
    assert(s@.subrange(0, 0) =~= Seq::<char>::empty());
    while i < s.len()
        invariant
            i <= s@.len(),
            lines@.len() + 1 == lines_of(s@.subrange(0, i as int)).len(),
            forall|k: int| 0 <= k < lines@.len() ==> #[trigger] lines@[k]@ == lines_of(s@.subrange(0, i as int))[k],
            current@ == lines_of(s@.subrange(0, i as int)).last(),
        decreases s@.len() - i,
    {
        let ghost before = s@.subrange(0, i as int);
        assert(s@.subrange(0, i + 1).drop_last() =~= before);
        proof {
            lemma_lines_nonempty(before);
        }
        if s[i] == '\n' {
            let done = current;
            lines.push(done);
            current = Vec::new();
        } else {
            current.push(s[i]);
        }
        i += 1;
    }
    assert(s@.subrange(0, i as int) =~= s@);
    lines.push(current);
    lines
}

/// Parses every line of a seed text, skipping blank ones; the first line
/// that is not a coordinate ends the parse with its error.
pub fn parse_seed(text: &str) -> (r: Result<Vec<(usize, usize)>, CoordinateParseError>)
    ensures
        match seed_of(text@) {
            Ok(cs) => r matches Ok(v) && v@ == cs,
            Err(e) => r == Err::<Vec<(usize, usize)>, CoordinateParseError>(e),
        },
{
    let chars = chars_of(text);
    let lines = split_lines(&chars);
    let ghost all = lines_of(text@);
    let mut coordinates: Vec<(usize, usize)> = Vec::new();
    let mut k: usize = 0;
    assert(all.subrange(0, 0) =~= Seq::<Seq<char>>::empty());
    while k < lines.len()
        invariant
            k <= lines@.len() == all.len(),
            all == lines_of(text@),
            forall|m: int| 0 <= m < lines@.len() ==> #[trigger] lines@[m]@ == all[m],
            seed_coordinates(all.subrange(0, k as int)) == Ok::<Seq<(usize, usize)>, CoordinateParseError>(
                coordinates@,
            ),
        decreases lines@.len() - k,
    {
        let line = &lines[k];
        assert(all.subrange(0, k + 1).drop_last() =~= all.subrange(0, k as int));
        assert(all.subrange(0, k + 1).last() == line@);
        let (a, b) = trim_bounds(line);
        if a < b {
            match parse_coordinate_chars(line) {
                Ok(c) => {
                    coordinates.push(c);
                },
                Err(e) => {
                    proof {
                        lemma_seed_error_stays(all, k + 1);
                    }
                    return Err(e);
                },
            }
        }
        k += 1;
    }
    assert(all.subrange(0, k as int) =~= all);
    Ok(coordinates)
}

/// Marks alive every seed cell that lies on the grid. The whole text is read
/// before the grid is touched: when a line is not a coordinate its error is
/// returned and the grid is left as it was.
pub fn load_board(text: &str, board: &mut Board) -> (r: Result<(), CoordinateParseError>)
    requires
        old(board).wf(),
    ensures
        final(board).wf(),
        final(board)@.same_size(old(board)@),
        match seed_of(text@) {
            Ok(cs) => r is Ok && final(board)@.live == old(board)@.live.union(seed_cells(old(board)@, cs)),
            Err(e) => r == Err::<(), CoordinateParseError>(e) && final(board)@ == old(board)@,
        },
{
    let coordinates = match parse_seed(text) {
        Ok(v) => v,
        Err(e) => return Err(e),
    };
    let ghost g = board@;
    let ghost cs = coordinates@;
    let mut k: usize = 0;
    assert(seed_cells(g, cs.subrange(0, 0)) =~= Set::empty());
    assert(board@.live.union(Set::empty()) =~= board@.live);
    while k < coordinates.len()
        invariant
            k <= cs.len(),
            cs == coordinates@,
            board.wf(),
            board@.same_size(g),
            board@.live == g.live.union(seed_cells(g, cs.subrange(0, k as int))),
        decreases cs.len() - k,
    {
        let (x, y) = coordinates[k];
        board.set(x, y);
        assert forall|p: (int, int)| #[trigger] board@.live.contains(p) == g.live.union(
            seed_cells(g, cs.subrange(0, k + 1)),
        ).contains(p) by {
            board.lemma_view_wf();
            if seed_cells(g, cs.subrange(0, k as int)).contains(p) {
                let i = choose|i: int| 0 <= i < k && #[trigger] cs.subrange(0, k as int)[i] == (p.0 as usize, p.1 as usize);
                assert(cs.subrange(0, k + 1)[i] == (p.0 as usize, p.1 as usize));
            }
            if seed_cells(g, cs.subrange(0, k + 1)).contains(p) {
                let i = choose|i: int| 0 <= i < k + 1 && #[trigger] cs.subrange(0, k + 1)[i] == (p.0 as usize, p.1 as usize);
                if i < k {
                    assert(cs.subrange(0, k as int)[i] == (p.0 as usize, p.1 as usize));
                } else {
                    assert(p == (x as int, y as int));
                }
            }
            if p == (x as int, y as int) && g.in_range(x as int, y as int) {
                assert(cs.subrange(0, k + 1)[k as int] == (p.0 as usize, p.1 as usize));
            }
        }
        assert(board@.live =~= g.live.union(seed_cells(g, cs.subrange(0, k + 1))));
        k += 1;
    }
    assert(cs.subrange(0, k as int) =~= cs);
    Ok(())
}

} // verus!
