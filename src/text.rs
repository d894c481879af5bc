use vstd::prelude::*;
use vstd::string::StringExecFns;

use crate::matrix::Matrix;

verus! {

pub open spec fn digit_char(d: nat) -> char {
    if d == 0 {
        '0'
    } else if d == 1 {
        '1'
    } else if d == 2 {
        '2'
    } else if d == 3 {
        '3'
    } else if d == 4 {
        '4'
    } else if d == 5 {
        '5'
    } else if d == 6 {
        '6'
    } else if d == 7 {
        '7'
    } else if d == 8 {
        '8'
    } else {
        '9'
    }
}

/// Decimal digits of `n`, most significant first, without leading zeros.
pub open spec fn nat_text(n: nat) -> Seq<char>
    decreases n,
{
    if n < 10 {
        seq![digit_char(n)]
    } else {
        nat_text(n / 10).push(digit_char(n % 10))
    }
}

/// Decimal text of `v`, with a leading `-` when negative.
pub open spec fn int_text(v: int) -> Seq<char> {
    if v < 0 {
        seq!['-'] + nat_text((-v) as nat)
    } else {
        nat_text(v as nat)
    }
}

/// The parts in order, with `sep` between neighbours.
pub open spec fn joined(parts: Seq<Seq<char>>, sep: Seq<char>) -> Seq<char>
    decreases parts.len(),
{
    if parts.len() == 0 {
        Seq::empty()
    } else if parts.len() == 1 {
        parts[0]
    } else {
        joined(parts.drop_last(), sep) + sep + parts.last()
    }
}

/// A row as its elements separated by single spaces.
pub open spec fn row_text(r: Seq<i64>) -> Seq<char> {
    joined(r.map_values(|x: i64| int_text(x as int)), seq![' '])
}

/// `{` rows separated by `, ` `}`.
pub open spec fn display_text(m: Matrix) -> Seq<char> {
    seq!['{'] + joined(Seq::new(m.row as nat, |i: int| row_text(m.row_of(i))), seq![',', ' '])
        + seq!['}']
}

/// `Matrix(row=R, col=C, ` display `)`.
pub open spec fn debug_text(m: Matrix) -> Seq<char> {
    "Matrix(row="@ + nat_text(m.row as nat) + ", col="@ + nat_text(m.col as nat) + ", "@
        + display_text(m) + ")"@
}

fn digit_str(d: u64) -> (r: &'static str)
    requires
        d < 10,
    ensures
        r@ == seq![digit_char(d as nat)],
{
    proof {
        reveal_strlit("0");
        reveal_strlit("1");
        reveal_strlit("2");
        reveal_strlit("3");
        reveal_strlit("4");
        reveal_strlit("5");
        reveal_strlit("6");
        reveal_strlit("7");
        reveal_strlit("8");
        reveal_strlit("9");
    }
    if d == 0 {
        "0"
    } else if d == 1 {
        "1"
    } else if d == 2 {
        "2"
    } else if d == 3 {
        "3"
    } else if d == 4 {
        "4"
    } else if d == 5 {
        "5"
    } else if d == 6 {
        "6"
    } else if d == 7 {
        "7"
    } else if d == 8 {
        "8"
    } else {
        "9"
    }
}

fn push_nat(out: &mut String, n: u64)
    ensures
        final(out)@ == old(out)@ + nat_text(n as nat),
    decreases n,
{
    if n >= 10 {
        push_nat(out, n / 10);
    }
    out.append(digit_str(n % 10));
    assert(final(out)@ =~= old(out)@ + nat_text(n as nat));
}

fn push_int(out: &mut String, v: i64)
    ensures
        final(out)@ == old(out)@ + int_text(v as int),
{
    if v < 0 {
        proof {
            reveal_strlit("-");
        }
        out.append("-");
        let mag: u64 = (0i128 - v as i128) as u64;
        push_nat(out, mag);
        assert(final(out)@ =~= old(out)@ + int_text(v as int));
    } else {
        push_nat(out, v as u64);
    }
}

impl Matrix {
    /// Rows of space-separated elements, rows separated by `, `, all within
    /// braces: a 2x3 matrix reads `{1 2 3, 4 5 6}`.
    pub fn to_display_string(&self) -> (r: String)
        requires
            self.wf(),
        ensures
            r@ == display_text(*self),
    {
        let mut out = String::new();
        self.push_display(&mut out);
        assert(out@ =~= display_text(*self));
        out
    }

    /// The display form inside `Matrix(row=R, col=C, ...)`.
    pub fn to_debug_string(&self) -> (r: String)
        requires
            self.wf(),
        ensures
            r@ == debug_text(*self),
    {
        proof {
            reveal_strlit("Matrix(row=");
            reveal_strlit(", col=");
            reveal_strlit(", ");
            reveal_strlit(")");
        }
        let mut out = String::new();
        out.append("Matrix(row=");
        push_nat(&mut out, self.row as u64);
        out.append(", col=");
        push_nat(&mut out, self.col as u64);
        out.append(", ");
        self.push_display(&mut out);
        out.append(")");
        assert(out@ =~= debug_text(*self));
        out
    }

    fn push_display(&self, out: &mut String)
        requires
            self.wf(),
        ensures
            final(out)@ == old(out)@ + display_text(*self),
    {
        proof {
            reveal_strlit("{");
            reveal_strlit("}");
            reveal_strlit(", ");
            reveal_strlit(" ");
        }
        let ghost rows = Seq::new(self.row as nat, |i: int| row_text(self.row_of(i)));
        let ghost start = out@;
        out.append("{");
        let mut i: usize = 0;
        while i < self.row
            invariant
                self.wf(),
                i <= self.row,
                rows == Seq::new(self.row as nat, |i: int| row_text(self.row_of(i))),
                out@ == start + seq!['{'] + joined(rows.subrange(0, i as int), seq![',', ' ']),
            decreases self.row - i,
        {
            let ghost pre_sep = out@;
            if i > 0 {
                out.append(", ");
            }
            let ghost mid = out@;
            self.push_row(out, i);
            proof {
                let sep = seq![',', ' '];
                let pre = rows.subrange(0, i as int);
                let post = rows.subrange(0, i + 1);
                assert(post.drop_last() =~= pre);
                assert(post.last() == rows[i as int]);
                if i == 0 {
                    assert(post.len() == 1);
                    assert(joined(post, sep) == rows[0]);
                    assert(mid == pre_sep);
                } else {
                    assert(joined(post, sep) == joined(pre, sep) + sep + rows[i as int]);
                    reveal_strlit(", ");
                    assert(", "@ =~= sep);
                    assert(mid == pre_sep + sep);
                }
                assert(out@ =~= start + seq!['{'] + joined(post, seq![',', ' ']));
            }
            i = i + 1;
        }
        out.append("}");
        assert(rows.subrange(0, self.row as int) =~= rows);
        assert(out@ =~= old(out)@ + display_text(*self));
    }

    fn push_row(&self, out: &mut String, i: usize)
        requires
            self.wf(),
            i < self.row,
        ensures
            final(out)@ == old(out)@ + row_text(self.row_of(i as int)),
    {
        proof {
            reveal_strlit(" ");
            crate::matrix::lemma_row_in_bounds(i as int, self.row as int, self.col as int);
        }
        let ghost r = self.row_of(i as int);
        let ghost parts = r.map_values(|x: i64| int_text(x as int));
        let ghost start = out@;
        let len: usize = self.data.len();
        let base: usize = i * self.col;
        let mut j: usize = 0;
        while j < self.col
            invariant
                self.wf(),
                len == self.data@.len(),
                base == i * self.col,
                base + self.col <= len,
                j <= self.col,
                r == self.row_of(i as int),
                r.len() == self.col,
                parts == r.map_values(|x: i64| int_text(x as int)),
                out@ == start + joined(parts.subrange(0, j as int), seq![' ']),
            decreases self.col - j,
        {
            let ghost pre_sep = out@;
            if j > 0 {
                out.append(" ");
            }
            let ghost mid = out@;
            push_int(out, self.data[base + j]);
            proof {
                let pre = parts.subrange(0, j as int);
                let post = parts.subrange(0, j + 1);
                assert(post.drop_last() =~= pre);
                assert(post.last() == parts[j as int]);
                assert(r[j as int] == self.data@[base + j]);
                assert(parts[j as int] == int_text(self.data@[base + j] as int));
                if j == 0 {
                    assert(post.len() == 1);
                    assert(joined(post, seq![' ']) == parts[0]);
                    assert(mid == start);
                } else {
                    reveal_strlit(" ");
                    assert(joined(post, seq![' ']) == joined(pre, seq![' ']) + seq![' '] + parts[j as int]);
                    assert(mid == pre_sep + seq![' ']);
                }
                assert(out@ =~= start + joined(post, seq![' ']));
            }
            j = j + 1;
        }
        assert(parts.subrange(0, self.col as int) =~= parts);
    }
}

} // verus!
