//! The text form of a solution: brace-delimited groups of comma-separated
//! coordinates, `{x1, y1}, {x2, y2}`.
use vstd::prelude::*;
use crate::solution::ProblemSolution;

verus! {

/// Decimal digits of `n`, most significant first.
pub open spec fn decimal_nat(n: nat) -> Seq<u8>
    decreases n,
{
    if n < 10 {
        seq![(48 + n) as u8]
    } else {
        decimal_nat(n / 10).push((48 + n % 10) as u8)
    }
}

/// Decimal form of `v`, with a leading `-` when negative.
pub open spec fn decimal(v: int) -> Seq<u8> {
    if v < 0 {
        seq![45u8] + decimal_nat((-v) as nat)
    } else {
        decimal_nat(v as nat)
    }
}

/// The coordinates separated by `, `.
pub open spec fn coords_text(c: Seq<i64>) -> Seq<u8>
    decreases c.len(),
{
    if c.len() == 0 {
        Seq::empty()
    } else if c.len() == 1 {
        decimal(c[0] as int)
    } else {
        coords_text(c.drop_last()) + seq![44u8, 32u8] + decimal(c.last() as int)
    }
}

/// The coordinate groups separated by `}, {`.
pub open spec fn groups_text(s: Seq<Seq<i64>>) -> Seq<u8>
    decreases s.len(),
{
    if s.len() == 0 {
        Seq::empty()
    } else if s.len() == 1 {
        coords_text(s[0])
    } else {
        groups_text(s.drop_last()) + seq![125u8, 44u8, 32u8, 123u8] + coords_text(s.last())
    }
}

/// The text of a solution: its groups between `{` and `}`.
pub open spec fn solution_text(s: Seq<Seq<i64>>) -> Seq<u8> {
    seq![123u8] + groups_text(s) + seq![125u8]
}

/// All bytes are ASCII.
pub open spec fn ascii(b: Seq<u8>) -> bool {
    forall|i: int| 0 <= i < b.len() ==> #[trigger] b[i] < 128
}

proof fn lemma_decimal_nat_ascii(n: nat)
    ensures
        ascii(decimal_nat(n)),
    decreases n,
{
    if n >= 10 {
        lemma_decimal_nat_ascii(n / 10);
    }
}

/// Appends the decimal digits of `n`.
fn push_decimal(out: &mut Vec<u8>, n: u64)
    ensures
        final(out)@ == old(out)@ + decimal_nat(n as nat),
    decreases n,
{
    if n >= 10 {
        push_decimal(out, n / 10);
    }
    let ghost before = out@;
    out.push(48u8 + (n % 10) as u8);
    proof {
        if n >= 10 {
            assert(out@ =~= old(out)@ + decimal_nat(n as nat));
        } else {
            assert(out@ =~= old(out)@ + decimal_nat(n as nat));
        }
    }
}

/// Appends the decimal form of `v`.
fn push_integer(out: &mut Vec<u8>, v: i64)
    ensures
        final(out)@ == old(out)@ + decimal(v as int),
{
    if v < 0 {
        out.push(45u8);
        let magnitude: u64 = (0i128 - v as i128) as u64;
        push_decimal(out, magnitude);
        assert(out@ =~= old(out)@ + decimal(v as int));
    } else {
        push_decimal(out, v as u64);
    }
}

/// Relies on String::from_utf8: ASCII bytes are valid UTF-8, and each byte
/// becomes the character of the same value.
#[verifier::external_body]
fn ascii_string(bytes: Vec<u8>) -> (r: String)
    requires
        ascii(bytes@),
    ensures
        r@ == bytes@.map_values(|b: u8| b as char),
{
    match String::from_utf8(bytes) {
        Ok(text) => text,
        Err(_) => String::new(),
    }
}

impl ProblemSolution {
    /// The solution as bytes: `{x1, y1}, {x2, y2}`.
    pub fn to_bytes(&self) -> (r: Vec<u8>)
        ensures
            r@ == solution_text(self@),
            ascii(r@),
    {
        let mut out: Vec<u8> = Vec::new();
        out.push(123u8);
        let ghost s = self@;
        let mut i: usize = 0;
        while i < self.points.len()
            invariant
                s == self@,
                i <= s.len(),
                out@ == seq![123u8] + groups_text(s.take(i as int)),
            decreases s.len() - i,
        {
            let ghost before_group = out@;
            if i > 0 {
                out.push(125u8);
                out.push(44u8);
                out.push(32u8);
                out.push(123u8);
            }
            let ghost sep = out@;
            let c = &self.points[i].coordinates;
            let mut j: usize = 0;
            while j < c.len()
                invariant
                    c@ == s[i as int],
                    j <= c@.len(),
                    out@ == sep + coords_text(c@.take(j as int)),
                decreases c@.len() - j,
            {
                if j > 0 {
                    out.push(44u8);
                    out.push(32u8);
                }
                push_integer(&mut out, c[j]);
                proof {
                    let t = c@.take(j as int + 1);
                    assert(t.drop_last() =~= c@.take(j as int));
                    if j == 0 {
                        assert(c@.take(0) =~= Seq::<i64>::empty());
                    }
                    assert(out@ =~= sep + coords_text(t));
                }
                j = j + 1;
            }
            proof {
                assert(c@.take(c@.len() as int) =~= c@);
                let t = s.take(i as int + 1);
                assert(t.drop_last() =~= s.take(i as int));
                if i == 0 {
                    assert(s.take(0) =~= Seq::<Seq<i64>>::empty());
                }
                assert(out@ =~= seq![123u8] + groups_text(t));
            }
            i = i + 1;
        }
        out.push(125u8);
        proof {
            assert(s.take(s.len() as int) =~= s);
            assert(out@ =~= solution_text(s));
            lemma_text_ascii(s);
        }
        out
    }

    /// The solution as text: `{x1, y1}, {x2, y2}`.
    pub fn to_text(&self) -> (r: String)
        ensures
            r@ == solution_text(self@).map_values(|b: u8| b as char),
    {
        let bytes = self.to_bytes();
        ascii_string(bytes)
    }
}

proof fn lemma_decimal_ascii(v: int)
    ensures
        ascii(decimal(v)),
{
    if v < 0 {
        lemma_decimal_nat_ascii((-v) as nat);
        assert forall|i: int| 0 <= i < decimal(v).len() implies #[trigger] decimal(v)[i] < 128 by {
            if i > 0 {
                assert(decimal(v)[i] == decimal_nat((-v) as nat)[i - 1]);
            }
        }
    } else {
        lemma_decimal_nat_ascii(v as nat);
    }
}

proof fn lemma_coords_ascii(c: Seq<i64>)
    ensures
        ascii(coords_text(c)),
    decreases c.len(),
{
    if c.len() == 1 {
        lemma_decimal_ascii(c[0] as int);
    } else if c.len() > 1 {
        lemma_coords_ascii(c.drop_last());
        lemma_decimal_ascii(c.last() as int);
        let a = coords_text(c.drop_last());
        let b = seq![44u8, 32u8];
        let e = decimal(c.last() as int);
        assert forall|i: int| 0 <= i < (a + b + e).len() implies #[trigger] (a + b + e)[i] < 128 by {
            if i < a.len() {
            } else if i < a.len() + 2 {
            } else {
                assert((a + b + e)[i] == e[i - a.len() - 2]);
            }
        }
    }
}

proof fn lemma_groups_ascii(s: Seq<Seq<i64>>)
    ensures
        ascii(groups_text(s)),
    decreases s.len(),
{
    if s.len() == 1 {
        lemma_coords_ascii(s[0]);
    } else if s.len() > 1 {
        lemma_groups_ascii(s.drop_last());
        lemma_coords_ascii(s.last());
        let a = groups_text(s.drop_last());
        let b = seq![125u8, 44u8, 32u8, 123u8];
        let e = coords_text(s.last());
        assert forall|i: int| 0 <= i < (a + b + e).len() implies #[trigger] (a + b + e)[i] < 128 by {
            if i < a.len() {
            } else if i < a.len() + 4 {
            } else {
                assert((a + b + e)[i] == e[i - a.len() - 4]);
            }
        }
    }
}

proof fn lemma_text_ascii(s: Seq<Seq<i64>>)
    ensures
        ascii(solution_text(s)),
{
    lemma_groups_ascii(s);
    let g = groups_text(s);
    assert forall|i: int| 0 <= i < solution_text(s).len() implies #[trigger] solution_text(s)[i] < 128 by {
        if 0 < i <= g.len() {
            assert(solution_text(s)[i] == g[i - 1]);
        }
    }
}

} // verus!
