use crate::grid::{CubeView, Processor};
use crate::hypercube::Hypercube;
use vstd::prelude::*;

verus! {

/// One of the three registers of a processor.
#[derive(Clone, Copy, Debug, PartialEq, Eq, Structural)]
pub enum Register {
    A,
    B,
    C,
}

pub open spec fn register_value(p: Processor, r: Register) -> i64 {
    match r {
        Register::A => p.a,
        Register::B => p.b,
        Register::C => p.c,
    }
}

/// The register named `a`, `b` or `c`.
pub open spec fn register_named(name: Seq<char>) -> Option<Register> {
    if name == seq!['a'] {
        Some(Register::A)
    } else if name == seq!['b'] {
        Some(Register::B)
    } else if name == seq!['c'] {
        Some(Register::C)
    } else {
        None
    }
}

pub open spec fn digit_char(d: int) -> char {
    if d == 0 {
        '0'
    } else if d == 1 {
        '1'
    } else if d == 2 {
        '2'
    } else if d == 3 {
        '3'
    } else if d == 4 {
        '4'
    } else if d == 5 {
        '5'
    } else if d == 6 {
        '6'
    } else if d == 7 {
        '7'
    } else if d == 8 {
        '8'
    } else {
        '9'
    }
}

/// Decimal digits of `m`, most significant first, without leading zeros.
pub open spec fn digits(m: nat) -> Seq<char>
    decreases m,
{
    if m < 10 {
        seq![digit_char(m as int)]
    } else {
        digits(m / 10).push(digit_char((m % 10) as int))
    }
}

/// Decimal text of `v`, with a leading `-` when negative.
pub open spec fn decimal(v: int) -> Seq<char> {
    if v < 0 {
        seq!['-'] + digits((-v) as nat)
    } else {
        digits(v as nat)
    }
}

pub open spec fn spaces(k: int) -> Seq<char> {
    Seq::new(k as nat, |i: int| ' ')
}

/// Register `r` of the cells `(0..k, y, z)`, each value followed by a space.
pub open spec fn row_values(g: CubeView, r: Register, y: int, z: int, k: int) -> Seq<char>
    decreases k,
{
    if k <= 0 {
        Seq::empty()
    } else {
        row_values(g, r, y, z, k - 1) + decimal(register_value(g.cell(k - 1, y, z), r) as int)
            + seq![' ']
    }
}

/// The line for `(y, z)`: indented by `2 (n - z - 1)` spaces for the isometric
/// view; one register, or A, B and C side by side when `r` is `None`.
pub open spec fn line_text(g: CubeView, r: Option<Register>, y: int, z: int) -> Seq<char> {
    let indent = spaces(2 * (g.n() - z - 1));
    match r {
        Some(reg) => indent + row_values(g, reg, y, z, g.n()) + seq!['\n'],
        None => indent + row_values(g, Register::A, y, z, g.n()) + spaces(2 * g.n()) + row_values(
            g,
            Register::B,
            y,
            z,
            g.n(),
        ) + spaces(2 * g.n()) + row_values(g, Register::C, y, z, g.n()) + seq!['\n'],
    }
}

/// The lines for `(y, 0..k)`.
pub open spec fn level_text(g: CubeView, r: Option<Register>, y: int, k: int) -> Seq<char>
    decreases k,
{
    if k <= 0 {
        Seq::empty()
    } else {
        level_text(g, r, y, k - 1) + line_text(g, r, y, k - 1)
    }
}

/// The levels `y = n - 1` down to `n - k`, top first.
pub open spec fn levels_text(g: CubeView, r: Option<Register>, k: int) -> Seq<char>
    decreases k,
{
    if k <= 0 {
        Seq::empty()
    } else {
        levels_text(g, r, k - 1) + level_text(g, r, g.n() - k, g.n())
    }
}

/// Header of the combined view.
pub open spec fn header() -> Seq<char> {
    "         A               B               C\n"@
}

/// Appends the text of a single decimal digit.
fn push_digit(out: &mut String, d: u64)
    requires
        d < 10,
    ensures
        final(out)@ == old(out)@ + seq![digit_char(d as int)],
{
    let s: &str = if d == 0 {
        proof {
            reveal_strlit("0");
        }
        "0"
    } else if d == 1 {
        proof {
            reveal_strlit("1");
        }
        "1"
    } else if d == 2 {
        proof {
            reveal_strlit("2");
        }
        "2"
    } else if d == 3 {
        proof {
            reveal_strlit("3");
        }
        "3"
    } else if d == 4 {
        proof {
            reveal_strlit("4");
        }
        "4"
    } else if d == 5 {
        proof {
            reveal_strlit("5");
        }
        "5"
    } else if d == 6 {
        proof {
            reveal_strlit("6");
        }
        "6"
    } else if d == 7 {
        proof {
            reveal_strlit("7");
        }
        "7"
    } else if d == 8 {
        proof {
            reveal_strlit("8");
        }
        "8"
    } else {
        proof {
            reveal_strlit("9");
        }
        "9"
    };
    assert(s@ =~= seq![digit_char(d as int)]);
    out.append(s);
}

/// Appends the decimal digits of `m`.
fn push_digits(out: &mut String, m: u64)
    ensures
        final(out)@ == old(out)@ + digits(m as nat),
    decreases m,
{
    if m >= 10 {
        push_digits(out, m / 10);
    }
    push_digit(out, m % 10);
    proof {
        if m >= 10 {
            assert(digits(m as nat) == digits((m / 10) as nat).push(digit_char((m % 10) as int)));
        }
    }
    assert(out@ =~= old(out)@ + digits(m as nat));
}

/// Appends the decimal text of `v`.
pub fn push_decimal(out: &mut String, v: i64)
    ensures
        final(out)@ == old(out)@ + decimal(v as int),
{
    if v < 0 {
        proof {
            reveal_strlit("-");
        }
        out.append("-");
        let magnitude: u64 = (-(v as i128)) as u64;
        push_digits(out, magnitude);
    } else {
        push_digits(out, v as u64);
    }
    assert(out@ =~= old(out)@ + decimal(v as int));
}

/// Appends `k` spaces.
fn push_spaces(out: &mut String, k: usize)
    ensures
        final(out)@ == old(out)@ + spaces(k as int),
{
    let mut i: usize = 0;
    while i < k
        invariant
            i <= k,
            out@ == old(out)@ + spaces(i as int),
        decreases k - i,
    {
        proof {
            reveal_strlit(" ");
        }
        out.append(" ");
        i = i + 1;
        assert(out@ =~= old(out)@ + spaces(i as int));
    }
}

impl Hypercube {
    /// Appends register `r` of the cells `(0..n, y, z)`, each value followed by a space.
    fn push_row_values(&self, out: &mut String, r: Register, y: u32, z: u32)
        requires
            self.wf(),
            0 <= y < self@.n(),
            0 <= z < self@.n(),
        ensures
            final(out)@ == old(out)@ + row_values(self@, r, y as int, z as int, self@.n()),
    {
        let n = self.number_processor_per_dimension();
        let mut x: u32 = 0;
        while x < n
            invariant
                self.wf(),
                n == self@.n(),
                0 <= y < n,
                0 <= z < n,
                x <= n,
                out@ == old(out)@ + row_values(self@, r, y as int, z as int, x as int),
            decreases n - x,
        {
            let p = self.get_processor(x, y, z);
            let value = match r {
                Register::A => p.a,
                Register::B => p.b,
                Register::C => p.c,
            };
            push_decimal(out, value);
            proof {
                reveal_strlit(" ");
            }
            out.append(" ");
            x = x + 1;
            assert(out@ =~= old(out)@ + row_values(self@, r, y as int, z as int, x as int));
        }
    }

    /// Appends the line for `(y, z)`.
    fn push_line(&self, out: &mut String, r: Option<Register>, y: u32, z: u32)
        requires
            self.wf(),
            0 <= y < self@.n(),
            0 <= z < self@.n(),
        ensures
            final(out)@ == old(out)@ + line_text(self@, r, y as int, z as int),
    {
        let n = self.number_processor_per_dimension();
        push_spaces(out, 2 * ((n - z - 1) as usize));
        match r {
            Some(reg) => {
                self.push_row_values(out, reg, y, z);
            },
            None => {
                self.push_row_values(out, Register::A, y, z);
                push_spaces(out, 2 * (n as usize));
                self.push_row_values(out, Register::B, y, z);
                push_spaces(out, 2 * (n as usize));
                self.push_row_values(out, Register::C, y, z);
            },
        }
        proof {
            reveal_strlit("\n");
        }
        out.append("\n");
        assert(out@ =~= old(out)@ + line_text(self@, r, y as int, z as int));
    }

    /// Appends every level, top first, each with its lines `z = 0..n`.
    fn push_levels(&self, out: &mut String, r: Option<Register>)
        requires
            self.wf(),
        ensures
            final(out)@ == old(out)@ + levels_text(self@, r, self@.n()),
    {
        let n = self.number_processor_per_dimension();
        let mut k: u32 = 0;
        while k < n
            invariant
                self.wf(),
                n == self@.n(),
                k <= n,
                out@ == old(out)@ + levels_text(self@, r, k as int),
            decreases n - k,
        {
            let y: u32 = n - 1 - k;
            let ghost before_level = out@;
            let mut z: u32 = 0;
            while z < n
                invariant
                    self.wf(),
                    n == self@.n(),
                    k < n,
                    y == n - 1 - k,
                    z <= n,
                    out@ == before_level + level_text(self@, r, y as int, z as int),
                decreases n - z,
            {
                self.push_line(out, r, y, z);
                z = z + 1;
                assert(out@ =~= before_level + level_text(self@, r, y as int, z as int));
            }
            k = k + 1;
            assert(out@ =~= old(out)@ + levels_text(self@, r, k as int));
        }
    }

    /// Register `r` of every processor as text: for y from `n - 1` down to 0 and
    /// z from 0 to `n - 1`, one line of the values for x = 0..n, each followed by
    /// a space, indented by `2 (n - z - 1)` spaces.
    pub fn render_register(&self, r: Register) -> (s: String)
        requires
            self.wf(),
        ensures
            s@ == levels_text(self@, Some(r), self@.n()),
    {
        let mut s = String::new();
        self.push_levels(&mut s, Some(r));
        assert(s@ =~= levels_text(self@, Some(r), self@.n()));
        s
    }

    /// The register named `a`, `b` or `c` as text, laid out as `render_register` does.
    pub fn repr_register(&self, register_name: String) -> (s: String)
        requires
            self.wf(),
            register_named(register_name@) is Some,
        ensures
            s@ == levels_text(self@, register_named(register_name@), self@.n()),
    {
        let name = register_name.as_str();
        proof {
            assert(name@.len() == 1);
        }
        let first = name.get_char(0);
        let r = if first == 'a' {
            Register::A
        } else if first == 'b' {
            Register::B
        } else {
            Register::C
        };
        proof {
            assert(name@ =~= seq![first]);
        }
        self.render_register(r)
    }

    /// A, B and C of every processor side by side under a header line, laid out
    /// as `render_register` does, the three blocks of a line `2 n` spaces apart.
    pub fn render_all(&self) -> (s: String)
        requires
            self.wf(),
        ensures
            s@ == header() + levels_text(self@, None, self@.n()),
    {
        let mut s = String::new();
        proof {
            reveal_strlit("         A               B               C\n");
        }
        s.append("         A               B               C\n");
        self.push_levels(&mut s, None);
        s
    }
}

} // verus!
