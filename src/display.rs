//! Writing polynomials as text, and the per-term breakdown behind it.
use crate::euclid::magnitude;
use crate::integers::Integers;
use crate::modular::{IntegersModuloN, IntegersModuloP};
use crate::polynomial::Poly;
use crate::ring::{Ring, Val};
use vstd::prelude::*;

verus! {

/// The decimal digits of `n`, none for zero.
pub open spec fn digits_of(n: nat) -> Seq<char>
    decreases n,
{
    if n == 0 {
        Seq::empty()
    } else {
        digits_of(n / 10).push(digit_char((n % 10) as nat))
    }
}

/// The character of the decimal digit `d`.
pub open spec fn digit_char(d: nat) -> char {
    if d == 0 {
        '0'
    } else if d == 1 {
        '1'
    } else if d == 2 {
        '2'
    } else if d == 3 {
        '3'
    } else if d == 4 {
        '4'
    } else if d == 5 {
        '5'
    } else if d == 6 {
        '6'
    } else if d == 7 {
        '7'
    } else if d == 8 {
        '8'
    } else {
        '9'
    }
}

/// `n` in decimal.
pub open spec fn nat_text(n: nat) -> Seq<char> {
    if n == 0 {
        seq!['0']
    } else {
        digits_of(n)
    }
}

/// `v` in decimal, with a `-` when it is negative.
pub open spec fn int_text(v: int) -> Seq<char> {
    if v < 0 {
        seq!['-'] + nat_text((-v) as nat)
    } else {
        nat_text(v as nat)
    }
}

/// A one-character string holding `c`, for the characters that numbers
/// and polynomials are written with.
fn char_str(c: char) -> (r: &'static str)
    requires
        ('0' <= c && c <= '9') || c == '-' || c == 'x' || c == '^',
    ensures
        r@ == seq![c],
{
    proof {
        reveal_strlit("0");
        reveal_strlit("1");
        reveal_strlit("2");
        reveal_strlit("3");
        reveal_strlit("4");
        reveal_strlit("5");
        reveal_strlit("6");
        reveal_strlit("7");
        reveal_strlit("8");
        reveal_strlit("9");
        reveal_strlit("-");
        reveal_strlit("x");
        reveal_strlit("^");
    }
    if c == '0' {
        "0"
    } else if c == '1' {
        "1"
    } else if c == '2' {
        "2"
    } else if c == '3' {
        "3"
    } else if c == '4' {
        "4"
    } else if c == '5' {
        "5"
    } else if c == '6' {
        "6"
    } else if c == '7' {
        "7"
    } else if c == '8' {
        "8"
    } else if c == '9' {
        "9"
    } else if c == '-' {
        "-"
    } else if c == 'x' {
        "x"
    } else {
        "^"
    }
}

/// Every character of `s` is one that `char_str` knows.
pub open spec fn writable(s: Seq<char>) -> bool {
    forall|i: int|
        0 <= i < s.len() ==> ('0' <= #[trigger] s[i] && s[i] <= '9') || s[i] == '-' || s[i] == 'x'
            || s[i] == '^'
}

proof fn lemma_digits_writable(n: nat)
    ensures
        writable(digits_of(n)),
    decreases n,
{
    if n > 0 {
        lemma_digits_writable(n / 10);
    }
}

/// The decimal digits of `n`, most significant first.
fn nat_digits(n: usize) -> (r: Vec<char>)
    ensures
        r@ == nat_text(n as nat),
        writable(r@),
{
    if n == 0 {
        let mut v: Vec<char> = Vec::new();
        v.push('0');
        proof {
            assert(v@ =~= seq!['0']);
        }
        return v;
    }
    let mut m = n;
    let mut acc: Vec<char> = Vec::new();
    while m > 0
        invariant
            digits_of(n as nat) == digits_of(m as nat) + acc@,
        decreases m,
    {
        let d = m % 10;
        let c = if d == 0 {
            '0'
        } else if d == 1 {
            '1'
        } else if d == 2 {
            '2'
        } else if d == 3 {
            '3'
        } else if d == 4 {
            '4'
        } else if d == 5 {
            '5'
        } else if d == 6 {
            '6'
        } else if d == 7 {
            '7'
        } else if d == 8 {
            '8'
        } else {
            '9'
        };
        let ghost before = acc@;
        acc.insert(0, c);
        proof {
            assert(c == digit_char(d as nat));
            assert(acc@ =~= seq![c] + before);
            assert(digits_of(m as nat) == digits_of((m / 10) as nat).push(c));
            assert(digits_of((m / 10) as nat) + acc@ =~= digits_of((m / 10) as nat).push(c) + before);
        }
        m = m / 10;
    }
    proof {
        assert(acc@ =~= digits_of(n as nat));
        lemma_digits_writable(n as nat);
    }
    acc
}

/// Appends the characters of `s` to `out`.
fn append_chars(out: &mut String, s: &Vec<char>)
    requires
        writable(s@),
    ensures
        final(out)@ == old(out)@ + s@,
{
    let ghost start = out@;
    let mut i: usize = 0;
    while i < s.len()
        invariant
            i <= s@.len(),
            writable(s@),
            out@ == start + s@.subrange(0, i as int),
        decreases s@.len() - i,
    {
        out.append(char_str(s[i]));
        i = i + 1;
        proof {
            assert(out@ =~= start + s@.subrange(0, i as int));
        }
    }
    proof {
        assert(s@.subrange(0, s@.len() as int) =~= s@);
    }
}

/// `v` in decimal.
pub fn isize_text(v: isize) -> (r: String)
    ensures
        r@ == int_text(v as int),
{
    let mut out = String::new();
    let digits = nat_digits(magnitude(v));
    if v < 0 {
        out.append(char_str('-'));
    }
    append_chars(&mut out, &digits);
    proof {
        if v < 0 {
            assert(out@ =~= seq!['-'] + nat_text((-v) as nat));
        } else {
            assert(out@ =~= nat_text(v as nat));
        }
    }
    out
}

/// A ring whose elements can be written as text.
pub trait DisplayRing: Ring {
    /// The text of the element with value `v`.
    spec fn elem_text(&self, v: Val<Self>) -> Seq<char>;

    fn display_elem(&self, elem: &Self::Element) -> (r: String)
        requires
            self.wf(),
            self.elem_ok(elem),
        ensures
            r@ == self.elem_text(elem@),
    ;
}

impl DisplayRing for Integers {
    open spec fn elem_text(&self, v: isize) -> Seq<char> {
        int_text(v as int)
    }

    fn display_elem(&self, elem: &isize) -> (r: String) {
        isize_text(*elem)
    }
}

impl DisplayRing for IntegersModuloN {
    open spec fn elem_text(&self, v: isize) -> Seq<char> {
        int_text(v as int)
    }

    fn display_elem(&self, elem: &isize) -> (r: String) {
        isize_text(*elem)
    }
}

impl DisplayRing for IntegersModuloP {
    open spec fn elem_text(&self, v: isize) -> Seq<char> {
        int_text(v as int)
    }

    fn display_elem(&self, elem: &isize) -> (r: String) {
        isize_text(*elem)
    }
}

/// One term of a polynomial as it is written.
///
/// - `coefficient` is `None` where the coefficient is one and not written;
/// - `variable` is `None` for degree 0, `Some(None)` for degree 1 (`x`), and
///   `Some(Some(d))` for degree `d` (`x^d`).
pub struct DisplayPart<R: DisplayRing> {
    pub coefficient: Option<R::Element>,
    pub variable: Option<Option<usize>>,
}

/// The value of a written term.
pub struct PartV<V> {
    pub coefficient: Option<V>,
    pub variable: Option<Option<nat>>,
}

impl<R: DisplayRing> DisplayPart<R> {
    pub open spec fn value(&self) -> PartV<Val<R>> {
        PartV {
            coefficient: match self.coefficient {
                Some(c) => Some(c@),
                None => None,
            },
            variable: match self.variable {
                None => None,
                Some(None) => Some(None),
                Some(Some(d)) => Some(Some(d as nat)),
            },
        }
    }
}

/// How the coefficient `c` of degree `i` is written: left out where it is
/// one, except for the constant term.
pub open spec fn term_v<R: Ring>(r: R, c: Val<R>, i: nat) -> PartV<Val<R>> {
    PartV {
        coefficient: if c != r.one_v() || i == 0 {
            Some(c)
        } else {
            None
        },
        variable: if i == 0 {
            None
        } else if i == 1 {
            Some(None)
        } else {
            Some(Some(i))
        },
    }
}

/// The written terms of the coefficients of degree `i` and above, highest
/// degree first, zero coefficients left out.
pub open spec fn parts_from<R: Ring>(r: R, s: Seq<Val<R>>, i: int) -> Seq<PartV<Val<R>>>
    decreases s.len() - i,
{
    if i < 0 || i >= s.len() {
        Seq::empty()
    } else {
        let rest = parts_from(r, s, i + 1);
        if s[i] == r.zero_v() {
            rest
        } else {
            rest.push(term_v(r, s[i], i as nat))
        }
    }
}

/// The written terms of a polynomial: zero is written as the ring's zero.
pub open spec fn parts_v<R: Ring>(r: R, s: Seq<Val<R>>) -> Seq<PartV<Val<R>>> {
    if s.len() == 0 {
        seq![PartV { coefficient: Some(r.zero_v()), variable: None }]
    } else {
        parts_from(r, s, 0)
    }
}

/// The text of one written term.
pub open spec fn part_text<R: DisplayRing>(r: R, p: PartV<Val<R>>) -> Seq<char> {
    let c = match p.coefficient {
        Some(c) => r.elem_text(c),
        None => Seq::empty(),
    };
    let v = match p.variable {
        None => Seq::empty(),
        Some(None) => seq!['x'],
        Some(Some(d)) => seq!['x', '^'] + nat_text(d),
    };
    c + v
}

/// The text of the first `n` written terms, joined by ` + `.
pub open spec fn join_parts<R: DisplayRing>(r: R, ps: Seq<PartV<Val<R>>>, n: int) -> Seq<char>
    decreases n,
{
    if n <= 0 {
        Seq::empty()
    } else if n == 1 {
        part_text(r, ps[0])
    } else {
        join_parts(r, ps, n - 1) + seq![' ', '+', ' '] + part_text(r, ps[n - 1])
    }
}

/// The text of a polynomial.
pub open spec fn poly_text<R: DisplayRing>(r: R, s: Seq<Val<R>>) -> Seq<char> {
    let ps = parts_v(r, s);
    join_parts(r, ps, ps.len() as int)
}

impl<R: DisplayRing> DisplayPart<R> {
    /// The written terms of `poly`, highest degree first.
    pub fn get_parts(poly: &Poly<R>) -> (r: Vec<DisplayPart<R>>)
        requires
            poly.wf(),
        ensures
            r@.len() == parts_v(poly.ring(), poly@).len(),
            forall|i: int|
                0 <= i < r@.len() ==> #[trigger] r@[i].value() == parts_v(poly.ring(), poly@)[i],
            forall|i: int|
                0 <= i < r@.len() ==> (#[trigger] r@[i].coefficient matches Some(c)
                    ==> poly.ring().elem_ok(&c)),
    {
        let ring = poly.ring_value();
        let mut parts: Vec<DisplayPart<R>> = Vec::new();
        if poly.is_zero() {
            parts.push(DisplayPart { coefficient: Some(ring.zero()), variable: None });
            return parts;
        }
        let n = poly.len();
        let zero = ring.zero();
        let one = ring.one();
        let mut i = n;
        while i > 0
            invariant
                poly.wf(),
                ring == poly.ring(),
                n == poly@.len(),
                i <= n,
                ring.elem_ok(&zero),
                zero@ == ring.zero_v(),
                ring.elem_ok(&one),
                one@ == ring.one_v(),
                parts@.len() == parts_from(ring, poly@, i as int).len(),
                forall|j: int|
                    0 <= j < parts@.len() ==> #[trigger] parts@[j].value() == parts_from(
                        ring,
                        poly@,
                        i as int,
                    )[j],
                forall|j: int|
                    0 <= j < parts@.len() ==> (#[trigger] parts@[j].coefficient matches Some(c)
                        ==> ring.elem_ok(&c)),
            decreases i,
        {
            i = i - 1;
            let c = poly.coefficient(i);
            if !ring.equal(&c, &zero) {
                let is_one = ring.equal(&c, &one);
                let coefficient = if !is_one || i == 0 {
                    Some(c)
                } else {
                    None
                };
                let variable = if i == 0 {
                    None
                } else if i == 1 {
                    Some(None)
                } else {
                    Some(Some(i))
                };
                parts.push(DisplayPart { coefficient, variable });
            }
        }
        parts
    }
}

impl<R: DisplayRing> Poly<R> {
    /// The text of the polynomial: its terms from the highest degree down,
    /// joined by ` + `, a coefficient of one left out but for the constant
    /// term, `x` for degree 1, `x^d` above; zero is written as the ring's zero.
    pub fn to_string(&self) -> (r: String)
        requires
            self.wf(),
        ensures
            r@ == poly_text(self.ring(), self@),
    {
        let ring = self.ring_value();
        let parts = DisplayPart::get_parts(self);
        let ghost ps = parts_v(ring, self@);
        let mut out = String::new();
        let mut k: usize = 0;
        proof {
            reveal_strlit(" + ");
        }
        while k < parts.len()
            invariant
                self.wf(),
                ring == self.ring(),
                parts@.len() == ps.len(),
                forall|i: int| 0 <= i < parts@.len() ==> #[trigger] parts@[i].value() == ps[i],
                forall|i: int|
                    0 <= i < parts@.len() ==> (#[trigger] parts@[i].coefficient matches Some(c)
                        ==> ring.elem_ok(&c)),
                k <= parts@.len(),
                out@ == join_parts(ring, ps, k as int),
            decreases parts@.len() - k,
        {
            if k > 0 {
                proof {
                    reveal_strlit(" + ");
                }
                out.append(" + ");
            }
            let part = &parts[k];
            let ghost before = out@;
            match &part.coefficient {
                Some(c) => {
                    let t = ring.display_elem(c);
                    out.append(t.as_str());
                },
                None => {},
            }
            match part.variable {
                None => {},
                Some(None) => {
                    out.append(char_str('x'));
                },
                Some(Some(d)) => {
                    out.append(char_str('x'));
                    out.append(char_str('^'));
                    let ds = nat_digits(d);
                    append_chars(&mut out, &ds);
                },
            }
            proof {
                let pv = ps[k as int];
                assert(parts@[k as int].value() == pv);
                if k == 0 {
                    assert(out@ =~= part_text(ring, pv));
                } else {
                    assert(out@ =~= join_parts(ring, ps, k as int) + seq![' ', '+', ' '] + part_text(ring, pv));
                }
            }
            k = k + 1;
        }
        out
    }
}

/// The degree that a written variable stands for: `None` for `x`, `Some(d)` for `x^d`.
pub open spec fn exponent_value(v: Option<usize>) -> Option<nat> {
    match v {
        None => None,
        Some(d) => Some(d as nat),
    }
}

impl<R: DisplayRing> Poly<R> {
    /// Maps the written terms of the polynomial, highest degree first, to
    /// other values: `coeff` maps each written coefficient, `var` each
    /// written variable (`None` for `x`, `Some(d)` for `x^d`), and `sep`
    /// gives what stands between a term and the next.
    pub fn map_display_parts<C, CF, V, VF, S, SF>(&self, coeff: CF, var: VF, sep: SF) -> (r: Vec<
        (Option<C>, Option<V>, Option<S>),
    >) where CF: Fn(R::Element) -> C, VF: Fn(Option<usize>) -> V, SF: Fn() -> S
        requires
            self.wf(),
            forall|e: R::Element| coeff.requires((e,)),
            forall|v: Option<usize>| var.requires((v,)),
            sep.requires(()),
        ensures
            r@.len() == parts_v(self.ring(), self@).len(),
            forall|i: int|
                0 <= i < r@.len() ==> {
                    let p = #[trigger] parts_v(self.ring(), self@)[i];
                    &&& (r@[i].0 is Some <==> p.coefficient is Some)
                    &&& (r@[i].0 matches Some(c) ==> exists|e: R::Element|
                        e@ == p.coefficient->0 && coeff.ensures((e,), c))
                    &&& (r@[i].1 is Some <==> p.variable is Some)
                    &&& (r@[i].1 matches Some(v) ==> exists|x: Option<usize>|
                        exponent_value(x) == p.variable->0 && var.ensures((x,), v))
                    &&& (r@[i].2 is Some <==> i < r@.len() - 1)
                    &&& (r@[i].2 matches Some(s) ==> sep.ensures((), s))
                },
    {
        let parts = DisplayPart::get_parts(self);
        let ghost ps = parts_v(self.ring(), self@);
        let n = parts.len();
        let mut out: Vec<(Option<C>, Option<V>, Option<S>)> = Vec::with_capacity(n);
        let mut k: usize = 0;
        while k < n
            invariant
                self.wf(),
                n == parts@.len(),
                parts@.len() == ps.len(),
                ps == parts_v(self.ring(), self@),
                forall|i: int|
                    0 <= i < parts@.len() ==> (#[trigger] parts@[i].coefficient matches Some(c)
                        ==> self.ring().elem_ok(&c)),
                forall|i: int| 0 <= i < parts@.len() ==> #[trigger] parts@[i].value() == ps[i],
                forall|e: R::Element| coeff.requires((e,)),
                forall|v: Option<usize>| var.requires((v,)),
                sep.requires(()),
                k <= n,
                out@.len() == k,
                forall|i: int|
                    0 <= i < k ==> {
                        let p = #[trigger] ps[i];
                        &&& (out@[i].0 is Some <==> p.coefficient is Some)
                        &&& (out@[i].0 matches Some(c) ==> exists|e: R::Element|
                            e@ == p.coefficient->0 && coeff.ensures((e,), c))
                        &&& (out@[i].1 is Some <==> p.variable is Some)
                        &&& (out@[i].1 matches Some(v) ==> exists|x: Option<usize>|
                            exponent_value(x) == p.variable->0 && var.ensures((x,), v))
                        &&& (out@[i].2 is Some <==> i < n - 1)
                        &&& (out@[i].2 matches Some(s) ==> sep.ensures((), s))
                    },
            decreases n - k,
        {
            let part = &parts[k];
            let ghost pv = ps[k as int];
            proof {
                assert(part.value() == pv);
            }
            let c = match &part.coefficient {
                Some(e) => {
                    let e2 = self.ring_value().copy_elem(e);
                    let ghost g = e2;
                    let res = coeff(e2);
                    proof {
                        assert(g@ == pv.coefficient->0 && coeff.ensures((g,), res));
                    }
                    Some(res)
                },
                None => None,
            };
            let v = match part.variable {
                Some(x) => {
                    let res = var(x);
                    proof {
                        assert(exponent_value(x) == pv.variable->0 && var.ensures((x,), res));
                    }
                    Some(res)
                },
                None => None,
            };
            let s = if k + 1 < n {
                Some(sep())
            } else {
                None
            };
            let ghost before = out@;
            out.push((c, v, s));
            proof {
                assert forall|i: int| 0 <= i < k implies #[trigger] out@[i] == before[i] by {
                }
            }
            k = k + 1;
        }
        out
    }
}

/// One step of `fold_display_parts` over the written term `p`: from `a`
/// through `a1` (after the coefficient) and `a2` (after the variable) to `b`
/// (after the separator, which is left out when `last`).
pub open spec fn fold_step<R: DisplayRing, O, C, V, S>(
    p: PartV<Val<R>>,
    last: bool,
    a: O,
    a1: O,
    a2: O,
    b: O,
    coeff: C,
    var: V,
    sep: S,
) -> bool where C: Fn(O, R::Element) -> O, V: Fn(O, Option<usize>) -> O, S: Fn(O) -> O {
    &&& match p.coefficient {
        Some(cv) => exists|e: R::Element| e@ == cv && #[trigger] coeff.ensures((a, e), a1),
        None => a1 == a,
    }
    &&& match p.variable {
        Some(xv) => exists|x: Option<usize>|
            exponent_value(x) == xv && #[trigger] var.ensures((a1, x), a2),
        None => a2 == a1,
    }
    &&& if last {
        b == a2
    } else {
        sep.ensures((a2,), b)
    }
}

/// `states` traces `fold_display_parts` over the written terms `ps`, from
/// `init` to `r`: three steps a term.
pub open spec fn fold_trace<R: DisplayRing, O, C, V, S>(
    ps: Seq<PartV<Val<R>>>,
    init: O,
    r: O,
    states: Seq<O>,
    coeff: C,
    var: V,
    sep: S,
) -> bool where C: Fn(O, R::Element) -> O, V: Fn(O, Option<usize>) -> O, S: Fn(O) -> O {
    &&& states.len() == 3 * ps.len() + 1
    &&& states[0] == init
    &&& states.last() == r
    &&& forall|i: int|
        0 <= i < ps.len() ==> fold_step::<R, O, C, V, S>(
            #[trigger] ps[i],
            i == ps.len() - 1,
            states[3 * i],
            states[3 * i + 1],
            states[3 * i + 2],
            states[3 * i + 3],
            coeff,
            var,
            sep,
        )
}

impl<R: DisplayRing> Poly<R> {
    /// Folds the written terms of the polynomial, highest degree first,
    /// into a value: starting from `init`, `coeff` takes in each written
    /// coefficient, `var` each written variable (`None` for `x`, `Some(d)`
    /// for `x^d`), and `sep` marks the place between a term and the next.
    pub fn fold_display_parts<O, C, V, S>(&self, init: O, coeff: C, var: V, sep: S) -> (r: O) where
        C: Fn(O, R::Element) -> O,
        V: Fn(O, Option<usize>) -> O,
        S: Fn(O) -> O,

        requires
            self.wf(),
            forall|o: O, e: R::Element| coeff.requires((o, e)),
            forall|o: O, v: Option<usize>| var.requires((o, v)),
            forall|o: O| sep.requires((o,)),
        ensures
            exists|states: Seq<O>|
                #[trigger] fold_trace::<R, O, C, V, S>(
                    parts_v(self.ring(), self@),
                    init,
                    r,
                    states,
                    coeff,
                    var,
                    sep,
                ),
    {
        let parts = DisplayPart::get_parts(self);
        let ghost ps = parts_v(self.ring(), self@);
        let n = parts.len();
        let mut acc = init;
        let ghost mut states: Seq<O> = seq![init];
        let mut k: usize = 0;
        while k < n
            invariant
                self.wf(),
                n == parts@.len(),
                parts@.len() == ps.len(),
                ps == parts_v(self.ring(), self@),
                forall|i: int| 0 <= i < parts@.len() ==> #[trigger] parts@[i].value() == ps[i],
                forall|i: int|
                    0 <= i < parts@.len() ==> (#[trigger] parts@[i].coefficient matches Some(c)
                        ==> self.ring().elem_ok(&c)),
                forall|o: O, e: R::Element| coeff.requires((o, e)),
                forall|o: O, v: Option<usize>| var.requires((o, v)),
                forall|o: O| sep.requires((o,)),
                k <= n,
                states.len() == 3 * k + 1,
                states[0] == init,
                states.last() == acc,
                forall|i: int|
                    0 <= i < k ==> fold_step::<R, O, C, V, S>(
                        #[trigger] ps[i],
                        i == ps.len() - 1,
                        states[3 * i],
                        states[3 * i + 1],
                        states[3 * i + 2],
                        states[3 * i + 3],
                        coeff,
                        var,
                        sep,
                    ),
            decreases n - k,
        {
            let part = &parts[k];
            let ghost pv = ps[k as int];
            let ghost a0 = acc;
            proof {
                assert(part.value() == pv);
            }
            let a1 = match &part.coefficient {
                Some(e) => {
                    let e2 = self.ring_value().copy_elem(e);
                    let ghost g = e2;
                    let res = coeff(acc, e2);
                    proof {
                        assert(g@ == pv.coefficient->0 && coeff.ensures((a0, g), res));
                    }
                    res
                },
                None => acc,
            };
            let ghost b1 = a1;
            let a2 = match part.variable {
                Some(x) => {
                    let res = var(a1, x);
                    proof {
                        assert(exponent_value(x) == pv.variable->0 && var.ensures((b1, x), res));
                    }
                    res
                },
                None => a1,
            };
            let ghost b2 = a2;
            let a3 = if k + 1 < n {
                sep(a2)
            } else {
                a2
            };
            proof {
                let old_states = states;
                states = states.push(b1).push(b2).push(a3);
                assert(fold_step::<R, O, C, V, S>(
                    pv,
                    k == ps.len() - 1,
                    states[3 * k],
                    states[3 * k + 1],
                    states[3 * k + 2],
                    states[3 * k + 3],
                    coeff,
                    var,
                    sep,
                ));
                assert forall|i: int| 0 <= i < k + 1 implies fold_step::<R, O, C, V, S>(
                    #[trigger] ps[i],
                    i == ps.len() - 1,
                    states[3 * i],
                    states[3 * i + 1],
                    states[3 * i + 2],
                    states[3 * i + 3],
                    coeff,
                    var,
                    sep,
                ) by {
                    if i < k {
                        assert(states[3 * i] == old_states[3 * i]);
                        assert(states[3 * i + 1] == old_states[3 * i + 1]);
                        assert(states[3 * i + 2] == old_states[3 * i + 2]);
                        assert(states[3 * i + 3] == old_states[3 * i + 3]);
                    }
                }
            }
            acc = a3;
            k = k + 1;
        }
        proof {
            assert(fold_trace::<R, O, C, V, S>(ps, init, acc, states, coeff, var, sep));
        }
        acc
    }
}

} // verus!
