//! Line structure of source text: `str::lines` and line/column positions.
use vstd::prelude::*;
use crate::text::{byte_off, char_utf8_len, chars_of, lemma_byte_off_mono, utf8_len};

verus! {

/// Index of the first `'\n'` at or after `i`, or `cs.len()` when there is none.
pub open spec fn first_nl(cs: Seq<char>, i: int) -> int
    decreases cs.len() - i,
{
    if i >= cs.len() {
        cs.len() as int
    } else if cs[i] == '\n' {
        i
    } else {
        first_nl(cs, i + 1)
    }
}

/// A line without its terminator: one `'\r'` before the `'\n'` is dropped too.
pub open spec fn strip_cr(l: Seq<char>) -> Seq<char> {
    if l.len() > 0 && l.last() == '\r' { l.drop_last() } else { l }
}

/// The lines of `cs` as `str::lines` yields them: split after each `'\n'`,
/// the terminator (`"\n"` or `"\r\n"`) removed, no empty final line.
pub open spec fn lines_of(cs: Seq<char>) -> Seq<Seq<char>>
    decreases cs.len(),
{
    if cs.len() == 0 {
        seq![]
    } else {
        let k = first_nl(cs, 0);
        proof { lemma_first_nl(cs, 0); }
        if k >= cs.len() {
            seq![cs]
        } else {
            seq![strip_cr(cs.take(k))] + lines_of(cs.skip(k + 1))
        }
    }
}

pub proof fn lemma_first_nl(cs: Seq<char>, i: int)
    requires
        0 <= i <= cs.len(),
    ensures
        i <= first_nl(cs, i) <= cs.len(),
        first_nl(cs, i) < cs.len() ==> cs[first_nl(cs, i)] == '\n',
        forall|j: int| i <= j < first_nl(cs, i) ==> cs[j] != '\n',
    decreases cs.len() - i,
{
    if i < cs.len() && cs[i] != '\n' {
        lemma_first_nl(cs, i + 1);
    }
}

/// A text has at most as many lines as characters.
pub proof fn lemma_lines_len(cs: Seq<char>)
    ensures
        lines_of(cs).len() <= cs.len(),
    decreases cs.len(),
{
    if cs.len() > 0 {
        let k = first_nl(cs, 0);
        lemma_first_nl(cs, 0);
        if k < cs.len() {
            lemma_lines_len(cs.skip(k + 1));
        }
    }
}

pub proof fn lemma_first_nl_shift(cs: Seq<char>, s: int, i: int)
    requires
        0 <= s <= i <= cs.len(),
    ensures
        first_nl(cs.skip(s), i - s) == first_nl(cs, i) - s,
    decreases cs.len() - i,
{
    if i < cs.len() && cs[i] != '\n' {
        lemma_first_nl_shift(cs, s, i + 1);
    }
}

/// The lines of a text (`str::lines`), each as a character vector.
pub fn lines_vec(cs: &[char]) -> (r: Vec<Vec<char>>)
    ensures
        r@.map_values(|l: Vec<char>| l@) == lines_of(cs@),
{
    let mut out: Vec<Vec<char>> = Vec::new();
    let mut start: usize = 0;
    assert(cs@.skip(0) =~= cs@);
    assert(out@.map_values(|l: Vec<char>| l@) + lines_of(cs@) =~= lines_of(cs@));
    while start < cs.len()
        invariant
            start <= cs@.len(),
            out@.map_values(|l: Vec<char>| l@) + lines_of(cs@.skip(start as int)) == lines_of(cs@),
        decreases cs.len() - start,
    {
        let ghost rest = cs@.skip(start as int);
        let mut line: Vec<char> = Vec::new();
        let mut j = start;
        while j < cs.len() && cs[j] != '\n'
            invariant
                start <= j <= cs@.len(),
                line@ == cs@.subrange(start as int, j as int),
                forall|k: int| start <= k < j ==> cs@[k] != '\n',
            decreases cs.len() - j,
        {
            line.push(cs[j]);
            j += 1;
        }
        proof {
            lemma_first_nl(cs@, start as int);
            lemma_first_nl_shift(cs@, start as int, start as int);
            assert(first_nl(cs@, start as int) == j) by {
                if first_nl(cs@, start as int) < j {
                    assert(cs@[first_nl(cs@, start as int)] == '\n');
                }
            }
            assert(rest.len() > 0);
        }
        if j < cs.len() {
            if line.len() > 0 && line[line.len() - 1] == '\r' {
                line.pop();
            }
            proof {
                assert(line@ =~= strip_cr(rest.take(j - start)));
                assert(rest.skip(j - start + 1) =~= cs@.skip(j + 1));
            }
            let ghost before = out@.map_values(|l: Vec<char>| l@);
            out.push(line);
            proof {
                assert(out@.map_values(|l: Vec<char>| l@) =~= before.push(strip_cr(rest.take(j - start))));
                assert(lines_of(rest) == seq![strip_cr(rest.take(j - start))] + lines_of(cs@.skip(j + 1)));
                assert(before.push(strip_cr(rest.take(j - start))) + lines_of(cs@.skip(j + 1))
                    =~= before + (seq![strip_cr(rest.take(j - start))] + lines_of(cs@.skip(j + 1))));
            }
            start = j + 1;
        } else {
            proof {
                assert(line@ =~= rest);
                assert(cs@.skip(j as int) =~= Seq::<char>::empty());
            }
            let ghost before = out@.map_values(|l: Vec<char>| l@);
            out.push(line);
            proof {
                assert(out@.map_values(|l: Vec<char>| l@) =~= before.push(rest));
                assert(lines_of(rest) == seq![rest]);
                assert(lines_of(cs@.skip(j as int)) =~= Seq::<Seq<char>>::empty());
                assert(before.push(rest) + lines_of(cs@.skip(j as int)) =~= before + seq![rest]);
            }
            start = j;
        }
    }
    proof {
        assert(cs@.skip(start as int) =~= Seq::<char>::empty());
        assert(lines_of(cs@.skip(start as int)) =~= Seq::<Seq<char>>::empty());
        assert(out@.map_values(|l: Vec<char>| l@) + Seq::<Seq<char>>::empty() =~= out@.map_values(|l: Vec<char>| l@));
    }
    out
}

/// Number of leading characters of `cs` whose byte offset lies below `off`,
/// counting from index `j`.
pub open spec fn chars_before_from(cs: Seq<char>, off: nat, j: int) -> int
    decreases cs.len() - j,
{
    if j >= cs.len() || byte_off(cs, j) >= off {
        j
    } else {
        chars_before_from(cs, off, j + 1)
    }
}

/// Number of characters of `cs` that start before byte offset `off`.
pub open spec fn chars_before(cs: Seq<char>, off: nat) -> int {
    chars_before_from(cs, off, 0)
}

/// 1-based line and column reached after reading `p`: a `'\n'` starts a
/// new line at column 1, any other character advances the column.
pub open spec fn pos_after(p: Seq<char>) -> (nat, nat)
    decreases p.len(),
{
    if p.len() == 0 {
        (1, 1)
    } else {
        let (l, c) = pos_after(p.drop_last());
        if p.last() == '\n' { (l + 1, 1) } else { (l, c + 1) }
    }
}

/// Line and column (1-based) of byte offset `off` in `cs`.
pub open spec fn line_col_spec(cs: Seq<char>, off: nat) -> (nat, nat) {
    pos_after(cs.take(chars_before(cs, off)))
}

pub proof fn lemma_pos_after_bound(p: Seq<char>)
    ensures
        pos_after(p).0 <= p.len() + 1,
        pos_after(p).1 <= p.len() + 1,
        pos_after(p).0 >= 1,
        pos_after(p).1 >= 1,
    decreases p.len(),
{
    if p.len() > 0 {
        lemma_pos_after_bound(p.drop_last());
    }
}

/// Position `a` comes no later than `b`: an earlier line, or the same line
/// at no later column.
pub open spec fn pos_le(a: (nat, nat), b: (nat, nat)) -> bool {
    a.0 < b.0 || (a.0 == b.0 && a.1 <= b.1)
}

proof fn lemma_chars_before_range(cs: Seq<char>, off: nat, j: int)
    requires
        0 <= j <= cs.len(),
    ensures
        j <= chars_before_from(cs, off, j) <= cs.len(),
    decreases cs.len() - j,
{
    if j < cs.len() && byte_off(cs, j) < off {
        lemma_chars_before_range(cs, off, j + 1);
    }
}

proof fn lemma_chars_before_mono(cs: Seq<char>, o1: nat, o2: nat, j: int)
    requires
        o1 <= o2,
        0 <= j <= cs.len(),
    ensures
        chars_before_from(cs, o1, j) <= chars_before_from(cs, o2, j),
    decreases cs.len() - j,
{
    lemma_chars_before_range(cs, o2, j);
    if j < cs.len() && byte_off(cs, j) < o1 {
        lemma_chars_before_mono(cs, o1, o2, j + 1);
    }
}

proof fn lemma_pos_after_prefix(p: Seq<char>, i: int, j: int)
    requires
        0 <= i <= j <= p.len(),
    ensures
        pos_le(pos_after(p.take(i)), pos_after(p.take(j))),
    decreases j - i,
{
    if i < j {
        lemma_pos_after_prefix(p, i, j - 1);
        assert(p.take(j).drop_last() =~= p.take(j - 1));
    }
}

/// Reading further into a text never moves the position back: a later
/// byte offset is on a later line, or on the same line at no earlier column.
pub proof fn lemma_line_col_mono(cs: Seq<char>, o1: nat, o2: nat)
    requires
        o1 <= o2,
    ensures
        pos_le(line_col_spec(cs, o1), line_col_spec(cs, o2)),
{
    lemma_chars_before_mono(cs, o1, o2, 0);
    lemma_chars_before_range(cs, o1, 0);
    lemma_chars_before_range(cs, o2, 0);
    lemma_pos_after_prefix(cs, chars_before(cs, o1), chars_before(cs, o2));
}

proof fn lemma_chars_before_all(cs: Seq<char>, off: nat, j: int)
    requires
        0 <= j <= cs.len(),
        off >= byte_off(cs, cs.len() as int),
    ensures
        chars_before_from(cs, off, j) == cs.len(),
    decreases cs.len() - j,
{
    if j < cs.len() {
        lemma_byte_off_mono(cs, j, cs.len() as int);
        lemma_chars_before_all(cs, off, j + 1);
    }
}

/// Every byte offset at or past the end of a text gives the position at its
/// end, and every position has line and column at least 1.
pub proof fn lemma_line_col_past_end(cs: Seq<char>, off: nat)
    ensures
        off >= byte_off(cs, cs.len() as int) ==> line_col_spec(cs, off) == line_col_spec(
            cs,
            byte_off(cs, cs.len() as int),
        ),
        line_col_spec(cs, off).0 >= 1 && line_col_spec(cs, off).1 >= 1,
{
    lemma_chars_before_range(cs, off, 0);
    lemma_pos_after_bound(cs.take(chars_before(cs, off)));
    if off >= byte_off(cs, cs.len() as int) {
        lemma_chars_before_all(cs, off, 0);
        lemma_chars_before_all(cs, byte_off(cs, cs.len() as int), 0);
    }
}

/// Lines without a newline, none ending in a carriage return.
pub open spec fn plain_lines(ls: Seq<Seq<char>>) -> bool {
    forall|i: int, j: int| 0 <= i < ls.len() && 0 <= j < ls[i].len() ==> #[trigger] ls[i][j] != '\n' && (j
        == ls[i].len() - 1 ==> ls[i][j] != '\r')
}

/// `ls` joined, each line closed by a newline.
pub open spec fn closed_text(ls: Seq<Seq<char>>) -> Seq<char>
    decreases ls.len(),
{
    if ls.len() == 0 {
        seq![]
    } else {
        ls[0] + seq!['\n'] + closed_text(ls.drop_first())
    }
}

proof fn lemma_first_nl_at(a: Seq<char>, b: Seq<char>, i: int)
    requires
        0 <= i <= a.len(),
        forall|j: int| 0 <= j < a.len() ==> a[j] != '\n',
    ensures
        first_nl(a + seq!['\n'] + b, i) == a.len(),
    decreases a.len() - i,
{
    let cs = a + seq!['\n'] + b;
    if i < a.len() {
        assert(cs[i] == a[i]);
        lemma_first_nl_at(a, b, i + 1);
    } else {
        assert(cs[i] == '\n');
    }
}

/// Reading back the lines of a text whose lines are each closed by a
/// newline gives those lines.
pub proof fn lemma_lines_of_closed(ls: Seq<Seq<char>>)
    requires
        plain_lines(ls),
    ensures
        lines_of(closed_text(ls)) == ls,
    decreases ls.len(),
{
    if ls.len() > 0 {
        let a = ls[0];
        let rest = ls.drop_first();
        let cs = closed_text(ls);
        assert forall|j: int| 0 <= j < a.len() implies a[j] != '\n' by {
            assert(ls[0][j] != '\n');
        }
        lemma_first_nl_at(a, closed_text(rest), 0);
        assert(cs == a + seq!['\n'] + closed_text(rest));
        assert(cs.take(a.len() as int) =~= a);
        assert(cs.skip(a.len() as int + 1) =~= closed_text(rest));
        if a.len() > 0 {
            assert(ls[0][a.len() - 1] != '\r');
        }
        assert(strip_cr(a) == a);
        assert forall|i: int, j: int| 0 <= i < rest.len() && 0 <= j < rest[i].len() implies #[trigger] rest[i][j] != '\n' && (j
            == rest[i].len() - 1 ==> rest[i][j] != '\r') by {
            assert(rest[i] == ls[i + 1]);
        }
        lemma_lines_of_closed(rest);
        assert(lines_of(cs) =~= seq![a] + rest);
    }
}

/// Line and column (1-based) of a byte offset in a text.
pub fn line_col_chars(cs: &[char], offset: usize) -> (r: (usize, usize))
    requires
        cs@.len() < usize::MAX,
    ensures
        r.0 == line_col_spec(cs@, offset as nat).0,
        r.1 == line_col_spec(cs@, offset as nat).1,
{
    let mut line: usize = 1;
    let mut col: usize = 1;
    let mut i: usize = 0;
    let mut b: usize = 0;
    while i < cs.len() && b < offset
        invariant
            i <= cs@.len(),
            cs@.len() < usize::MAX,
            b == if byte_off(cs@, i as int) <= usize::MAX { byte_off(cs@, i as int) } else { usize::MAX as nat },
            forall|k: int| 0 <= k < i ==> byte_off(cs@, k) < offset,
            (line as nat, col as nat) == pos_after(cs@.take(i as int)),
            chars_before_from(cs@, offset as nat, 0) == chars_before_from(cs@, offset as nat, i as int),
        decreases cs.len() - i,
    {
        let c = cs[i];
        proof {
            lemma_pos_after_bound(cs@.take(i as int));
            assert(cs@.take(i + 1).drop_last() =~= cs@.take(i as int));
        }
        if c == '\n' {
            line += 1;
            col = 1;
        } else {
            col += 1;
        }
        let w = char_utf8_len(c);
        b = b.saturating_add(w);
        i += 1;
    }
    proof {
        assert(chars_before_from(cs@, offset as nat, i as int) == i);
    }
    (line, col)
}

/// Line and column (1-based) of a byte offset in a text.
pub fn line_col(src: &str, offset: usize) -> (r: (usize, usize))
    requires
        src@.len() < usize::MAX,
    ensures
        r.0 == line_col_spec(src@, offset as nat).0,
        r.1 == line_col_spec(src@, offset as nat).1,
{
    let cs = chars_of(src);
    line_col_chars(cs.as_slice(), offset)
}

} // verus!
