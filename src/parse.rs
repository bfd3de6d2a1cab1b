//! Reading polynomials from text such as `3x^2 + x + 7`.
use crate::arith::lemma_word;
use crate::integers::Integers;
use crate::modular::{reduce, IntegersModuloN, IntegersModuloP};
use crate::polynomial::{add_elem_seq, Poly};
use crate::ring::{Ring, Val};
use vstd::prelude::*;

verus! {

/// `c` is white space as Unicode defines it (what `char::is_whitespace` tests).
pub open spec fn is_ws(c: char) -> bool {
    ||| c == ' '
    ||| ('\t' <= c && c <= '\r')
    ||| c == '\u{85}'
    ||| c == '\u{a0}'
    ||| c == '\u{1680}'
    ||| ('\u{2000}' <= c && c <= '\u{200a}')
    ||| c == '\u{2028}'
    ||| c == '\u{2029}'
    ||| c == '\u{202f}'
    ||| c == '\u{205f}'
    ||| c == '\u{3000}'
}

fn is_whitespace(c: char) -> (r: bool)
    ensures
        r == is_ws(c),
{
    c == ' ' || ('\t' <= c && c <= '\r') || c == '\u{85}' || c == '\u{a0}' || c == '\u{1680}' || (
    '\u{2000}' <= c && c <= '\u{200a}') || c == '\u{2028}' || c == '\u{2029}' || c == '\u{202f}'
        || c == '\u{205f}' || c == '\u{3000}'
}

/// The first `n` characters of `s` without their white space.
pub open spec fn strip_ws(s: Seq<char>, n: int) -> Seq<char>
    decreases n,
{
    if n <= 0 {
        Seq::empty()
    } else if is_ws(s[n - 1]) {
        strip_ws(s, n - 1)
    } else {
        strip_ws(s, n - 1).push(s[n - 1])
    }
}

/// Splitting the first `n` characters of `s` at each `+`: the finished
/// pieces and the piece under way.
pub open spec fn split_acc(s: Seq<char>, n: int) -> (Seq<Seq<char>>, Seq<char>)
    decreases n,
{
    if n <= 0 {
        (Seq::empty(), Seq::empty())
    } else {
        let (done, cur) = split_acc(s, n - 1);
        if s[n - 1] == '+' {
            (done.push(cur), Seq::empty())
        } else {
            (done, cur.push(s[n - 1]))
        }
    }
}

/// The pieces of `s` between the `+` signs (one more than there are signs).
pub open spec fn split_plus(s: Seq<char>) -> Seq<Seq<char>> {
    let (done, cur) = split_acc(s, s.len() as int);
    done.push(cur)
}

/// The index of the first `x` in `s` at or after `i`.
pub open spec fn find_x(s: Seq<char>, i: int) -> Option<int>
    decreases s.len() - i,
{
    if i < 0 || i >= s.len() {
        None
    } else if s[i] == 'x' {
        Some(i)
    } else {
        find_x(s, i + 1)
    }
}

pub open spec fn is_digit(c: char) -> bool {
    '0' <= c && c <= '9'
}

pub open spec fn all_digits(s: Seq<char>) -> bool {
    forall|i: int| 0 <= i < s.len() ==> is_digit(#[trigger] s[i])
}

/// The number that the decimal digits `s` spell.
pub open spec fn digits_val(s: Seq<char>) -> nat
    decreases s.len(),
{
    if s.len() == 0 {
        0
    } else {
        digits_val(s.drop_last()) * 10 + ((s.last() as u32) - ('0' as u32)) as nat
    }
}

/// The integer that `s` spells: an optional sign and at least one decimal
/// digit, as `isize::from_str` reads it, without regard to range.
pub open spec fn int_literal(s: Seq<char>) -> Option<int> {
    if s.len() > 0 && (s[0] == '-' || s[0] == '+') {
        let d = s.drop_first();
        if d.len() > 0 && all_digits(d) {
            if s[0] == '-' {
                Some(-(digits_val(d) as int))
            } else {
                Some(digits_val(d) as int)
            }
        } else {
            None
        }
    } else if s.len() > 0 && all_digits(s) {
        Some(digits_val(s) as int)
    } else {
        None
    }
}

/// The `isize` that `s` spells, if it spells one in range.
pub open spec fn isize_literal(s: Seq<char>) -> Option<isize> {
    match int_literal(s) {
        Some(v) => if isize::MIN <= v <= isize::MAX {
            Some(v as isize)
        } else {
            None
        },
        None => None,
    }
}

/// The exponent that `s` spells: decimal digits whose value is below `usize::MAX`.
pub open spec fn exponent_literal(s: Seq<char>) -> Option<nat> {
    if s.len() > 0 && all_digits(s) && digits_val(s) < usize::MAX {
        Some(digits_val(s))
    } else {
        None
    }
}

/// Reads a run of decimal digits, capping its value at `cap`.
fn read_digits(s: &[char], from: usize, cap: u128) -> (r: (bool, u128))
    requires
        from <= s@.len(),
        0 < cap < 0x1_0000_0000_0000_0000_0000_0000,
    ensures
        r.0 == all_digits(s@.subrange(from as int, s@.len() as int)),
        r.0 ==> r.1 == if digits_val(s@.subrange(from as int, s@.len() as int)) >= cap {
            cap as int
        } else {
            digits_val(s@.subrange(from as int, s@.len() as int)) as int
        },
{
    let mut acc: u128 = 0;
    let mut i = from;
    while i < s.len()
        invariant
            from <= i <= s@.len(),
            0 < cap < 0x1_0000_0000_0000_0000_0000_0000,
            all_digits(s@.subrange(from as int, i as int)),
            acc == if digits_val(s@.subrange(from as int, i as int)) >= cap {
                cap as int
            } else {
                digits_val(s@.subrange(from as int, i as int)) as int
            },
        decreases s@.len() - i,
    {
        let c = s[i];
        if !('0' <= c && c <= '9') {
            proof {
                let t = s@.subrange(from as int, s@.len() as int);
                assert(t[i - from] == c);
            }
            return (false, 0);
        }
        let d = (c as u32 - '0' as u32) as u128;
        proof {
            let p = s@.subrange(from as int, i as int);
            let q = s@.subrange(from as int, i + 1);
            assert(q.drop_last() =~= p);
            assert(q.last() == c);
        }
        if acc >= cap || acc * 10 + d >= cap {
            acc = cap;
        } else {
            acc = acc * 10 + d;
        }
        i = i + 1;
        proof {
            let q = s@.subrange(from as int, i as int);
            assert forall|j: int| 0 <= j < q.len() implies is_digit(#[trigger] q[j]) by {
                if j < q.len() - 1 {
                    assert(q[j] == s@.subrange(from as int, (i - 1) as int)[j]);
                }
            }
        }
    }
    (true, acc)
}

/// Reads an `isize` written in decimal with an optional sign.
pub fn parse_isize(s: &[char]) -> (r: Option<isize>)
    ensures
        r == isize_literal(s@),
{
    let n = s.len();
    if n == 0 {
        return None;
    }
    let neg = s[0] == '-';
    let signed = s[0] == '-' || s[0] == '+';
    let from: usize = if signed {
        1
    } else {
        0
    };
    if from == n {
        return None;
    }
    proof {
        lemma_word();
    }
    let cap: u128 = isize::MAX as u128 + 2;
    let (ok, v) = read_digits(s, from, cap);
    proof {
        if signed {
            assert(s@.subrange(1, n as int) =~= s@.drop_first());
        } else {
            assert(s@.subrange(0, n as int) =~= s@);
        }
    }
    if !ok {
        return None;
    }
    if neg {
        if v > isize::MAX as u128 + 1 {
            None
        } else {
            Some((0 - (v as i128)) as isize)
        }
    } else {
        if v > isize::MAX as u128 {
            None
        } else {
            Some(v as isize)
        }
    }
}

/// A ring whose elements can be read from text.
pub trait ParsableRing: Ring {
    /// The element that `s` spells, if it spells one.
    spec fn parse_elem_v(&self, s: Seq<char>) -> Option<Val<Self>>;

    /// Reads an element; the result is canonical.
    fn parse_elem(&self, input: &[char]) -> (r: Option<Self::Element>)
        requires
            self.wf(),
        ensures
            r is None <==> self.parse_elem_v(input@) is None,
            r matches Some(e) ==> self.elem_ok(&e) && self.parse_elem_v(input@) == Some(e@),
    ;
}

impl ParsableRing for Integers {
    open spec fn parse_elem_v(&self, s: Seq<char>) -> Option<isize> {
        isize_literal(s)
    }

    fn parse_elem(&self, input: &[char]) -> (r: Option<isize>) {
        parse_isize(input)
    }
}

impl ParsableRing for IntegersModuloN {
    open spec fn parse_elem_v(&self, s: Seq<char>) -> Option<isize> {
        match isize_literal(s) {
            Some(v) => Some(reduce(self.n() as int, v as int)),
            None => None,
        }
    }

    fn parse_elem(&self, input: &[char]) -> (r: Option<isize>) {
        match parse_isize(input) {
            Some(v) => Some(self.id(&v)),
            None => None,
        }
    }
}

impl ParsableRing for IntegersModuloP {
    open spec fn parse_elem_v(&self, s: Seq<char>) -> Option<isize> {
        match isize_literal(s) {
            Some(v) => Some(reduce(self.p() as int, v as int)),
            None => None,
        }
    }

    fn parse_elem(&self, input: &[char]) -> (r: Option<isize>) {
        match parse_isize(input) {
            Some(v) => Some(self.id(&v)),
            None => None,
        }
    }
}

/// The coefficient and degree of one summand: `x`, `<c>x`, `<c>x^<e>` or `<c>`.
pub open spec fn summand_v<R: ParsableRing>(r: R, t: Seq<char>) -> Option<(Val<R>, nat)> {
    match find_x(t, 0) {
        Some(i) => {
            let coeff = t.subrange(0, i);
            let pot = t.subrange(i + 1, t.len() as int);
            let deg: Option<nat> = if pot.len() > 0 && pot[0] == '^' {
                exponent_literal(pot.drop_first())
            } else if pot.len() == 0 {
                Some(1)
            } else {
                None
            };
            let c: Option<Val<R>> = if coeff.len() == 0 {
                Some(r.one_v())
            } else {
                r.parse_elem_v(coeff)
            };
            match (c, deg) {
                (Some(c), Some(d)) => Some((c, d)),
                _ => None,
            }
        },
        None => match r.parse_elem_v(t) {
            Some(c) => Some((c, 0)),
            None => None,
        },
    }
}

/// The polynomial that the first `n` summands spell, each added into the
/// sum of those before it.
pub open spec fn summands_v<R: ParsableRing>(r: R, ts: Seq<Seq<char>>, n: int) -> Option<
    Seq<Val<R>>,
>
    decreases n,
{
    if n <= 0 {
        Some(Seq::empty())
    } else {
        match (summands_v(r, ts, n - 1), summand_v(r, ts[n - 1])) {
            (Some(p), Some((c, d))) => Some(add_elem_seq(r, p, r.id_v(c), d as int)),
            _ => None,
        }
    }
}

/// The polynomial that `s` spells: white space is dropped, then the text is
/// read as summands joined by `+`.
pub open spec fn poly_v<R: ParsableRing>(r: R, s: Seq<char>) -> Option<Seq<Val<R>>> {
    let ts = split_plus(strip_ws(s, s.len() as int));
    summands_v(r, ts, ts.len() as int)
}

/// The characters of `s`.
fn chars_of(s: &str) -> (r: Vec<char>)
    ensures
        r@ == s@,
{
    let n = s.unicode_len();
    let mut v: Vec<char> = Vec::with_capacity(n);
    let mut i: usize = 0;
    while i < n
        invariant
            n == s@.len(),
            i <= n,
            v@ == s@.subrange(0, i as int),
        decreases n - i,
    {
        v.push(s.get_char(i));
        i = i + 1;
        proof {
            assert(v@ =~= s@.subrange(0, i as int));
        }
    }
    proof {
        assert(v@ =~= s@);
    }
    v
}

/// The characters of `s` without white space, split at each `+`.
fn summands_of(s: &Vec<char>) -> (r: Vec<Vec<char>>)
    ensures
        r@.len() == split_plus(strip_ws(s@, s@.len() as int)).len(),
        forall|i: int| 0 <= i < r@.len() ==> #[trigger] r@[i]@ == split_plus(strip_ws(s@, s@.len() as int))[i],
{
    let ghost stripped = strip_ws(s@, s@.len() as int);
    let mut kept: Vec<char> = Vec::new();
    let mut i: usize = 0;
    while i < s.len()
        invariant
            i <= s@.len(),
            kept@ == strip_ws(s@, i as int),
        decreases s@.len() - i,
    {
        if !is_whitespace(s[i]) {
            kept.push(s[i]);
        }
        i = i + 1;
    }
    let mut done: Vec<Vec<char>> = Vec::new();
    let mut cur: Vec<char> = Vec::new();
    let mut j: usize = 0;
    while j < kept.len()
        invariant
            kept@ == stripped,
            j <= kept@.len(),
            split_acc(stripped, j as int).1 == cur@,
            split_acc(stripped, j as int).0.len() == done@.len(),
            forall|k: int| 0 <= k < done@.len() ==> #[trigger] done@[k]@ == split_acc(stripped, j as int).0[k],
        decreases kept@.len() - j,
    {
        if kept[j] == '+' {
            let piece = cur;
            done.push(piece);
            cur = Vec::new();
            proof {
                assert(cur@ =~= Seq::<char>::empty());
            }
        } else {
            cur.push(kept[j]);
        }
        j = j + 1;
    }
    done.push(cur);
    done
}

impl<R: ParsableRing> Poly<R> {
    /// Reads a polynomial such as `3x^2 + -x + 7`: white space is ignored,
    /// summands are joined by `+`, and each is `x`, `<c>x`, `<c>x^<e>` or
    /// `<c>`. Summands of equal degree add up. `None` when any summand is
    /// malformed.
    pub fn parse(ring: R, input: &str) -> (r: Option<Self>)
        requires
            ring.wf(),
        ensures
            r is None <==> poly_v(ring, input@) is None,
            r matches Some(p) ==> p.wf() && p.ring() == ring && poly_v(ring, input@) == Some(p@),
    {
        let chars = chars_of(input);
        let pieces = summands_of(&chars);
        let ghost ts = split_plus(strip_ws(input@, input@.len() as int));
        proof {
            assert(chars@ == input@);
        }
        let mut poly = Poly::zero(ring);
        let mut k: usize = 0;
        while k < pieces.len()
            invariant
                ring.wf(),
                ts == split_plus(strip_ws(input@, input@.len() as int)),
                pieces@.len() == ts.len(),
                forall|i: int| 0 <= i < pieces@.len() ==> #[trigger] pieces@[i]@ == ts[i],
                k <= pieces@.len(),
                poly.wf(),
                poly.ring() == ring,
                summands_v(ring, ts, k as int) == Some(poly@),
            decreases pieces@.len() - k,
        {
            match Self::summand(ring, pieces[k].as_slice()) {
                Some((c, d)) => {
                    proof {
                        ring.lemma_elem_valid(&c);
                    }
                    poly.add_elem(c, d);
                },
                None => {
                    proof {
                        assert(pieces@[k as int]@ == ts[k as int]);
                        assert(summand_v(ring, ts[k as int]) is None);
                        assert(summands_v(ring, ts, k + 1) is None);
                        lemma_summands_none(ring, ts, k + 1, ts.len() as int);
                        assert(poly_v(ring, input@) == summands_v(ring, ts, ts.len() as int));
                    }
                    return None;
                },
            }
            k = k + 1;
        }
        Some(poly)
    }

    /// Reads one summand into its coefficient and degree.
    fn summand(ring: R, t: &[char]) -> (r: Option<(R::Element, usize)>)
        requires
            ring.wf(),
        ensures
            r is None <==> summand_v(ring, t@) is None,
            r matches Some((c, d)) ==> ring.elem_ok(&c) && d < usize::MAX && summand_v(ring, t@)
                == Some((c@, d as nat)),
    {
        let n = t.len();
        let mut i: usize = 0;
        while i < n
            invariant
                n == t@.len(),
                i <= n,
                find_x(t@, 0) == find_x(t@, i as int),
            ensures
                i <= n,
                find_x(t@, 0) == find_x(t@, i as int),
                i < n ==> t@[i as int] == 'x',
            decreases n - i,
        {
            if t[i] == 'x' {
                break;
            }
            i = i + 1;
        }
        if i == n {
            proof {
                assert(find_x(t@, 0) is None);
            }
            return match ring.parse_elem(t) {
                Some(c) => Some((c, 0)),
                None => None,
            };
        }
        proof {
            assert(find_x(t@, 0) == Some(i as int));
        }
        let ghost coeff = t@.subrange(0, i as int);
        let ghost pot = t@.subrange(i + 1, n as int);
        let deg: Option<usize> = if i + 1 < n && t[i + 1] == '^' {
            let digits = slice_from(t, i + 2);
            proof {
                assert(digits@ =~= pot.drop_first());
            }
            let (ok, v) = read_digits(digits.as_slice(), 0, usize::MAX as u128);
            proof {
                assert(digits@.subrange(0, digits@.len() as int) =~= digits@);
                assert(pot.len() > 0 && pot[0] == '^');
            }
            if ok && digits.len() > 0 && v < usize::MAX as u128 {
                Some(v as usize)
            } else {
                None
            }
        } else if i + 1 == n {
            proof {
                assert(pot.len() == 0);
            }
            Some(1)
        } else {
            proof {
                assert(pot.len() > 0 && pot[0] != '^');
            }
            None
        };
        let c: Option<R::Element> = if i == 0 {
            Some(ring.one())
        } else {
            let head = slice_to(t, i);
            proof {
                assert(head@ =~= coeff);
            }
            ring.parse_elem(head.as_slice())
        };
        match (c, deg) {
            (Some(c), Some(d)) => Some((c, d)),
            _ => None,
        }
    }
}

/// Once a summand fails, every longer run of summands fails.
proof fn lemma_summands_none<R: ParsableRing>(r: R, ts: Seq<Seq<char>>, k: int, n: int)
    requires
        summands_v(r, ts, k) is None,
        k <= n,
    ensures
        summands_v(r, ts, n) is None,
    decreases n - k,
{
    if k < n {
        lemma_summands_none(r, ts, k + 1, n);
    }
}

/// The characters of `t` from index `from` on.
fn slice_from(t: &[char], from: usize) -> (r: Vec<char>)
    requires
        from <= t@.len(),
    ensures
        r@ == t@.subrange(from as int, t@.len() as int),
{
    let mut v: Vec<char> = Vec::new();
    let mut i = from;
    while i < t.len()
        invariant
            from <= i <= t@.len(),
            v@ == t@.subrange(from as int, i as int),
        decreases t@.len() - i,
    {
        v.push(t[i]);
        i = i + 1;
        proof {
            assert(v@ =~= t@.subrange(from as int, i as int));
        }
    }
    v
}

/// The first `to` characters of `t`.
fn slice_to(t: &[char], to: usize) -> (r: Vec<char>)
    requires
        to <= t@.len(),
    ensures
        r@ == t@.subrange(0, to as int),
{
    let mut v: Vec<char> = Vec::new();
    let mut i: usize = 0;
    while i < to
        invariant
            i <= to <= t@.len(),
            v@ == t@.subrange(0, i as int),
        decreases to - i,
    {
        v.push(t[i]);
        i = i + 1;
        proof {
            assert(v@ =~= t@.subrange(0, i as int));
        }
    }
    v
}

} // verus!
