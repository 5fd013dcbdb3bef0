//! The text of a matrix: one line per row, between brackets.
//!
//! Elements are written in decimal, zero as `0`. With a width, each element
//! is padded with spaces to that width and elements that are longer are
//! cropped with `...`, or replaced by `*` in the alternate form; without a
//! width, the alternate form writes `*` for the elements of more than one
//! digit.
use vstd::prelude::*;
use vstd::string::{StrSliceExecFns, StringExecFns};
use crate::algebra::linalg::Matrix;
use crate::field::{decimal, lemma_modulus_facts};

verus! {

/// `s` padded with spaces on the right to `w` characters.
pub open spec fn pad_spec(s: Seq<char>, w: nat) -> Seq<char> {
    if s.len() >= w {
        s
    } else {
        s + Seq::new((w - s.len()) as nat, |i: int| ' ')
    }
}

/// The text of an element whose decimal notation is `y`.
pub open spec fn cell_spec(y: Seq<char>, width: Option<usize>, alternate: bool) -> Seq<char> {
    match width {
        Some(w) => if y.len() > w {
            if alternate {
                pad_spec(seq!['*'], w as nat)
            } else {
                pad_spec(y.take(if w > 3 { w - 3 } else { 0 }) + seq!['.', '.', '.'], w as nat)
            }
        } else {
            pad_spec(y, w as nat)
        },
        None => if alternate && y.len() > 1 {
            seq!['*']
        } else {
            y
        },
    }
}

/// The text of the first `n` elements of a row, separated by spaces.
pub open spec fn cells_spec(row: Seq<nat>, n: nat, width: Option<usize>, alternate: bool) -> Seq<char>
    decreases n,
{
    if n == 0 {
        Seq::empty()
    } else {
        cells_spec(row, (n - 1) as nat, width, alternate) + (if n > 1 { seq![' '] } else { Seq::empty() })
            + cell_spec(decimal(row[n - 1]), width, alternate)
    }
}

/// The opening bracket of row `i` among `h` rows.
pub open spec fn row_start(i: int, h: nat) -> char {
    if i == 0 {
        '/'
    } else if i == h - 1 {
        '\\'
    } else {
        '|'
    }
}

/// The closing bracket of row `i` among `h` rows.
pub open spec fn row_end(i: int, h: nat) -> char {
    if i == 0 {
        '\\'
    } else if i == h - 1 {
        '/'
    } else {
        '|'
    }
}

/// The text of the first `n` rows of the $h \times w$ matrix `m`.
pub open spec fn render_spec(m: Seq<Seq<nat>>, h: nat, n: nat, w: nat, width: Option<usize>, alternate: bool) -> Seq<char>
    decreases n,
{
    if n == 0 {
        Seq::empty()
    } else {
        render_spec(m, h, (n - 1) as nat, w, width, alternate) + seq![row_start(n - 1, h)]
            + cells_spec(m[n - 1], w, width, alternate) + seq![row_end(n - 1, h), '\n']
    }
}

fn append_spaces(out: &mut String, count: usize)
    ensures
        final(out)@ == old(out)@ + Seq::new(count as nat, |i: int| ' '),
{
    let mut i: usize = 0;
    proof {
        reveal_strlit(" ");
        assert(old(out)@ + Seq::new(0, |i: int| ' ') =~= old(out)@);
    }
    while i < count
        invariant
            i <= count,
            out@ == old(out)@ + Seq::new(i as nat, |i: int| ' '),
        decreases count - i,
    {
        out.append(" ");
        proof {
            reveal_strlit(" ");
            assert(out@ =~= old(out)@ + Seq::new((i + 1) as nat, |i: int| ' '));
        }
        i = i + 1;
    }
}

fn append_padded(out: &mut String, s: &str, w: usize)
    ensures
        final(out)@ == old(out)@ + pad_spec(s@, w as nat),
{
    let len = s.unicode_len();
    out.append(s);
    if len < w {
        append_spaces(out, w - len);
        proof {
            assert(final(out)@ =~= old(out)@ + pad_spec(s@, w as nat));
        }
    }
}

fn append_cell(out: &mut String, y: &String, width: Option<usize>, alternate: bool)
    ensures
        final(out)@ == old(out)@ + cell_spec(y@, width, alternate),
{
    let len = y.as_str().unicode_len();
    proof {
        reveal_strlit("*");
        reveal_strlit("...");
    }
    match width {
        Some(w) => {
            if len > w {
                if alternate {
                    append_padded(out, "*", w);
                } else {
                    let t = if w > 3 { w - 3 } else { 0 };
                    let mut cropped = String::from_str(y.as_str().substring_char(0, t));
                    cropped.append("...");
                    append_padded(out, cropped.as_str(), w);
                    proof {
                        assert(y@.subrange(0, t as int) =~= y@.take(t as int));
                    }
                }
            } else {
                append_padded(out, y.as_str(), w);
            }
        },
        None => {
            if alternate && len > 1 {
                out.append("*");
            } else {
                out.append(y.as_str());
            }
        },
    }
}

impl Matrix {
    /// The text of the matrix, with an optional width for each element and
    /// the alternate form, which writes `*` for the elements that do not fit.
    pub fn render(&self, width: Option<usize>, alternate: bool) -> (r: String)
        requires
            self.wf(),
        ensures
            r@ == render_spec(self@, self.height as nat, self.height as nat, self.width as nat, width, alternate),
    {
        proof {
            lemma_modulus_facts();
            reveal_strlit("/");
            reveal_strlit("\\");
            reveal_strlit("|");
            reveal_strlit(" ");
            reveal_strlit("\n");
            reveal_strlit("0");
        }
        let mut out = String::new();
        let mut i: usize = 0;
        while i < self.height
            invariant
                self.wf(),
                i <= self.height,
                out@ == render_spec(self@, self.height as nat, i as nat, self.width as nat, width, alternate),
            decreases self.height - i,
        {
            let start = if i == 0 {
                "/"
            } else if i == self.height - 1 {
                "\\"
            } else {
                "|"
            };
            out.append(start);
            let ghost row_head = out@;
            let mut j: usize = 0;
            while j < self.width
                invariant
                    self.wf(),
                    i < self.height,
                    j <= self.width,
                    out@ == row_head + cells_spec(self@[i as int], j as nat, width, alternate),
                decreases self.width - j,
            {
                let ghost before = out@;
                let x = self.get(i, j);
                let y = if x.is_zero() {
                    String::from_str("0")
                } else {
                    x.repr()
                };
                if j > 0 {
                    out.append(" ");
                }
                append_cell(&mut out, &y, width, alternate);
                proof {
                    reveal_strlit("0");
                    reveal_strlit(" ");
                    assert(y@ == decimal(self@[i as int][j as int]));
                    assert(out@ =~= row_head + cells_spec(self@[i as int], (j + 1) as nat, width, alternate));
                }
                j = j + 1;
            }
            let end = if i == 0 {
                "\\"
            } else if i == self.height - 1 {
                "/"
            } else {
                "|"
            };
            out.append(end);
            out.append("\n");
            proof {
                reveal_strlit("/");
                reveal_strlit("\\");
                reveal_strlit("|");
                reveal_strlit("\n");
                assert(out@ =~= render_spec(self@, self.height as nat, (i + 1) as nat, self.width as nat, width, alternate));
            }
            i = i + 1;
        }
        out
    }
}

} // verus!
