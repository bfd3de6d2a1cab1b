//! Reading back what was written: the text of a polynomial parses to the
//! same polynomial.
use crate::display::{
    digit_char, digits_of, int_text, join_parts, nat_text, part_text, parts_from, parts_v,
    poly_text, term_v, DisplayRing, PartV,
};
use crate::integers::Integers;
use crate::modular::{IntegersModuloN, IntegersModuloP};
use crate::parse::{
    all_digits, digits_val, exponent_literal, find_x, is_ws, isize_literal, poly_v, split_acc,
    split_plus, strip_ws, summand_v, summands_v, ParsableRing,
};
use crate::poly_laws::{lemma_canonical_ext, lemma_coef_valid, lemma_zero_add};
use crate::polynomial::{
    add_elem_raw, add_elem_seq, canonical, coef, lemma_trim, lemma_trim_valid, trim,
};
use crate::ring::{CommutativeRing, Ring, Val};
use vstd::prelude::*;

verus! {

/// `s` holds no white space and no `+`.
pub open spec fn plain(s: Seq<char>) -> bool {
    forall|i: int| 0 <= i < s.len() ==> !is_ws(#[trigger] s[i]) && s[i] != '+'
}

/// `s` holds no `x`.
pub open spec fn x_free(s: Seq<char>) -> bool {
    forall|i: int| 0 <= i < s.len() ==> #[trigger] s[i] != 'x'
}

/// The texts joined by a bare `+`.
pub open spec fn join_plus(ts: Seq<Seq<char>>, n: int) -> Seq<char>
    decreases n,
{
    if n <= 0 {
        Seq::empty()
    } else if n == 1 {
        ts[0]
    } else {
        join_plus(ts, n - 1) + seq!['+'] + ts[n - 1]
    }
}

proof fn lemma_strip_prefix(a: Seq<char>, b: Seq<char>, n: int)
    requires
        0 <= n <= a.len(),
        n <= b.len(),
        a.subrange(0, n) == b.subrange(0, n),
    ensures
        strip_ws(a, n) == strip_ws(b, n),
    decreases n,
{
    if n > 0 {
        assert(a[n - 1] == a.subrange(0, n)[n - 1]);
        assert(b[n - 1] == b.subrange(0, n)[n - 1]);
        assert(a.subrange(0, n - 1) =~= a.subrange(0, n).subrange(0, n - 1));
        assert(b.subrange(0, n - 1) =~= b.subrange(0, n).subrange(0, n - 1));
        lemma_strip_prefix(a, b, n - 1);
    }
}

/// Stripping white space from `a + b` strips each part.
proof fn lemma_strip_concat(a: Seq<char>, b: Seq<char>, k: int)
    requires
        0 <= k <= b.len(),
    ensures
        strip_ws(a + b, a.len() + k) == strip_ws(a, a.len() as int) + strip_ws(b, k),
    decreases k,
{
    if k == 0 {
        assert((a + b).subrange(0, a.len() as int) =~= a.subrange(0, a.len() as int));
        lemma_strip_prefix(a + b, a, a.len() as int);
        assert(strip_ws(b, 0) =~= Seq::<char>::empty());
        assert(strip_ws(a, a.len() as int) + Seq::<char>::empty() =~= strip_ws(a, a.len() as int));
    } else {
        lemma_strip_concat(a, b, k - 1);
        assert((a + b)[a.len() + k - 1] == b[k - 1]);
        if !is_ws(b[k - 1]) {
            assert(strip_ws(a, a.len() as int) + strip_ws(b, k - 1).push(b[k - 1]) =~= (
            strip_ws(a, a.len() as int) + strip_ws(b, k - 1)).push(b[k - 1]));
        }
    }
}

/// Text without white space is left as it is.
proof fn lemma_strip_plain(a: Seq<char>, k: int)
    requires
        0 <= k <= a.len(),
        forall|i: int| 0 <= i < a.len() ==> !is_ws(#[trigger] a[i]),
    ensures
        strip_ws(a, k) == a.subrange(0, k),
    decreases k,
{
    if k > 0 {
        lemma_strip_plain(a, k - 1);
        assert(a.subrange(0, k - 1).push(a[k - 1]) =~= a.subrange(0, k));
    } else {
        assert(a.subrange(0, 0) =~= Seq::<char>::empty());
    }
}

proof fn lemma_split_prefix(a: Seq<char>, b: Seq<char>, n: int)
    requires
        0 <= n <= a.len(),
        n <= b.len(),
        a.subrange(0, n) == b.subrange(0, n),
    ensures
        split_acc(a, n) == split_acc(b, n),
    decreases n,
{
    if n > 0 {
        assert(a[n - 1] == a.subrange(0, n)[n - 1]);
        assert(b[n - 1] == b.subrange(0, n)[n - 1]);
        assert(a.subrange(0, n - 1) =~= a.subrange(0, n).subrange(0, n - 1));
        assert(b.subrange(0, n - 1) =~= b.subrange(0, n).subrange(0, n - 1));
        lemma_split_prefix(a, b, n - 1);
    }
}

/// Splitting runs on through text without `+`.
proof fn lemma_split_plain(a: Seq<char>, t: Seq<char>, k: int)
    requires
        0 <= k <= t.len(),
        plain(t),
    ensures
        split_acc(a + t, a.len() + k) == (
            split_acc(a, a.len() as int).0,
            split_acc(a, a.len() as int).1 + t.subrange(0, k),
        ),
    decreases k,
{
    if k == 0 {
        assert((a + t).subrange(0, a.len() as int) =~= a.subrange(0, a.len() as int));
        lemma_split_prefix(a + t, a, a.len() as int);
        assert(split_acc(a, a.len() as int).1 + t.subrange(0, 0) =~= split_acc(
            a,
            a.len() as int,
        ).1);
    } else {
        lemma_split_plain(a, t, k - 1);
        assert((a + t)[a.len() + k - 1] == t[k - 1]);
        assert(split_acc(a, a.len() as int).1 + t.subrange(0, k - 1).push(t[k - 1]) =~= (
        split_acc(a, a.len() as int).1 + t.subrange(0, k - 1)).push(t[k - 1]));
        assert((split_acc(a, a.len() as int).1 + t.subrange(0, k - 1)).push(t[k - 1]) =~= split_acc(
            a,
            a.len() as int,
        ).1 + t.subrange(0, k));
    }
}

/// The pieces of texts joined by `+` are the texts.
proof fn lemma_split_join(ts: Seq<Seq<char>>, n: int)
    requires
        1 <= n <= ts.len(),
        forall|i: int| 0 <= i < ts.len() ==> plain(#[trigger] ts[i]),
    ensures
        split_plus(join_plus(ts, n)) == ts.subrange(0, n),
    decreases n,
{
    let j = join_plus(ts, n);
    if n == 1 {
        let e = Seq::<char>::empty();
        lemma_split_plain(e, ts[0], ts[0].len() as int);
        assert(e + ts[0] =~= ts[0]);
        assert(ts[0].subrange(0, ts[0].len() as int) =~= ts[0]);
        assert(split_acc(e, 0).1 + ts[0] =~= ts[0]);
        assert(split_plus(j) =~= ts.subrange(0, 1));
    } else {
        let prev = join_plus(ts, n - 1);
        let a = prev + seq!['+'];
        let t = ts[n - 1];
        lemma_split_join(ts, n - 1);
        assert(j =~= a + t);
        lemma_split_plain(a, t, t.len() as int);
        assert(a.subrange(0, prev.len() as int) =~= prev.subrange(0, prev.len() as int));
        lemma_split_prefix(a, prev, prev.len() as int);
        assert(a[prev.len() as int] == '+');
        assert(split_acc(a, a.len() as int) == (
            split_acc(prev, prev.len() as int).0.push(split_acc(prev, prev.len() as int).1),
            Seq::<char>::empty(),
        ));
        assert(t.subrange(0, t.len() as int) =~= t);
        assert(Seq::<char>::empty() + t =~= t);
        assert(split_plus(j) =~= split_plus(prev).push(t));
        assert(ts.subrange(0, n - 1).push(t) =~= ts.subrange(0, n));
    }
}

/// Dropping white space from the written text leaves the terms joined by `+`.
proof fn lemma_strip_join<R: DisplayRing>(r: R, ps: Seq<PartV<Val<R>>>, n: int)
    requires
        0 <= n <= ps.len(),
        forall|i: int| 0 <= i < ps.len() ==> plain(#[trigger] part_text(r, ps[i])),
    ensures
        strip_ws(join_parts(r, ps, n), join_parts(r, ps, n).len() as int) == join_plus(
            ps.map_values(|p: PartV<Val<R>>| part_text(r, p)),
            n,
        ),
    decreases n,
{
    let ts = ps.map_values(|p: PartV<Val<R>>| part_text(r, p));
    if n == 0 {
    } else if n == 1 {
        lemma_strip_plain(part_text(r, ps[0]), part_text(r, ps[0]).len() as int);
        assert(part_text(r, ps[0]).subrange(0, part_text(r, ps[0]).len() as int) =~= part_text(
            r,
            ps[0],
        ));
    } else {
        let prev = join_parts(r, ps, n - 1);
        let t = part_text(r, ps[n - 1]);
        let sep = seq![' ', '+', ' '];
        lemma_strip_join(r, ps, n - 1);
        lemma_strip_concat(prev + sep, t, t.len() as int);
        lemma_strip_concat(prev, sep, 3);
        lemma_strip_plain(t, t.len() as int);
        assert(t.subrange(0, t.len() as int) =~= t);
        assert(strip_ws(sep, 3) =~= seq!['+']) by {
            assert(strip_ws(sep, 0) =~= Seq::<char>::empty());
            assert(is_ws(sep[0]));
            assert(strip_ws(sep, 1) =~= Seq::<char>::empty());
            assert(!is_ws(sep[1]));
            assert(strip_ws(sep, 2) =~= seq!['+']);
        }
    }
}

/// The value of the decimal digits of `n` is `n`.
proof fn lemma_digits_value(n: nat)
    ensures
        all_digits(digits_of(n)),
        digits_val(digits_of(n)) == n,
    decreases n,
{
    if n > 0 {
        lemma_digits_value(n / 10);
        let s = digits_of(n / 10);
        let d = (n % 10) as nat;
        let c = digit_char(d);
        assert(digits_of(n).drop_last() =~= s);
        assert((c as u32) - ('0' as u32) == d);
    }
}

proof fn lemma_nat_text(n: nat)
    ensures
        all_digits(nat_text(n)),
        nat_text(n).len() > 0,
        digits_val(nat_text(n)) == n,
        plain(nat_text(n)),
        x_free(nat_text(n)),
{
    lemma_digits_value(n);
    if n == 0 {
        assert(digits_val(seq!['0']) == 0) by {
            assert(seq!['0'].drop_last() =~= Seq::<char>::empty());
        }
    } else {
        assert(digits_of(n).len() > 0);
    }
}

/// An `isize` written in decimal reads back as itself.
proof fn lemma_int_text(v: isize)
    ensures
        isize_literal(int_text(v as int)) == Some(v),
        plain(int_text(v as int)),
        x_free(int_text(v as int)),
        int_text(v as int).len() > 0,
{
    if v < 0 {
        let m = (-v) as nat;
        lemma_nat_text(m);
        assert((seq!['-'] + nat_text(m)).drop_first() =~= nat_text(m));
    } else {
        lemma_nat_text(v as nat);
        assert(nat_text(v as nat)[0] != '-' && nat_text(v as nat)[0] != '+');
    }
}

/// Everything stated of the ring's elements that reading back needs.
pub open spec fn reads_back<R: ParsableRing + DisplayRing>(r: R) -> bool {
    &&& forall|c: Val<R>| r.valid(c) ==> #[trigger] r.parse_elem_v(r.elem_text(c)) == Some(c)
    &&& forall|c: Val<R>| r.valid(c) ==> plain(#[trigger] r.elem_text(c))
    &&& forall|c: Val<R>| r.valid(c) ==> x_free(#[trigger] r.elem_text(c))
    &&& forall|c: Val<R>| r.valid(c) ==> #[trigger] r.elem_text(c).len() > 0
    &&& forall|c: Val<R>| r.valid(c) ==> #[trigger] r.id_v(c) == c
}

proof fn lemma_find_x_skip(s: Seq<char>, i: int, j: int)
    requires
        0 <= i <= j <= s.len(),
        forall|k: int| i <= k < j ==> #[trigger] s[k] != 'x',
    ensures
        find_x(s, i) == find_x(s, j),
    decreases j - i,
{
    if i < j {
        lemma_find_x_skip(s, i + 1, j);
    }
}

/// A written term reads back as its coefficient and degree.
proof fn lemma_term_reads_back<R: ParsableRing + DisplayRing + CommutativeRing>(
    r: R,
    c: Val<R>,
    i: nat,
)
    requires
        r.wf(),
        reads_back(r),
        r.valid(c),
        i < usize::MAX,
    ensures
        summand_v(r, part_text(r, term_v(r, c, i))) == Some((c, i)),
        plain(part_text(r, term_v(r, c, i))),
{
    let pv = term_v(r, c, i);
    let ct: Seq<char> = match pv.coefficient {
        Some(c) => r.elem_text(c),
        None => Seq::empty(),
    };
    let vt: Seq<char> = match pv.variable {
        None => Seq::empty(),
        Some(None) => seq!['x'],
        Some(Some(d)) => seq!['x', '^'] + nat_text(d),
    };
    let t = part_text(r, pv);
    assert(t == ct + vt);
    assert(plain(ct));
    assert(x_free(ct));
    lemma_nat_text(i);
    assert forall|k: int| 0 <= k < t.len() implies !is_ws(#[trigger] t[k]) && t[k] != '+' by {
        if k < ct.len() {
            assert(t[k] == ct[k]);
        } else if k >= ct.len() + 2 {
            assert(t[k] == nat_text(i)[k - ct.len() - 2]);
        }
    }
    lemma_find_x_skip(t, 0, ct.len() as int);
    if i == 0 {
        assert(t =~= ct);
        lemma_find_x_skip(t, 0, t.len() as int);
        assert(find_x(t, 0) is None);
        assert(r.parse_elem_v(t) == Some(c));
    } else {
        assert(t[ct.len() as int] == 'x');
        assert(find_x(t, 0) == Some(ct.len() as int));
        assert(t.subrange(0, ct.len() as int) =~= ct);
        let pot = t.subrange(ct.len() as int + 1, t.len() as int);
        if i == 1 {
            assert(pot =~= Seq::<char>::empty());
        } else {
            assert(pot =~= seq!['^'] + nat_text(i));
            assert(pot.drop_first() =~= nat_text(i));
        }
        if pv.coefficient is None {
            assert(c == r.one_v());
            assert(ct.len() == 0);
        } else {
            assert(ct.len() > 0);
            assert(r.parse_elem_v(ct) == Some(c));
        }
        assert(exponent_literal(nat_text(i)) == Some(i));
    }
}

/// The coefficients of degree `i` and above of `s`, the others made zero.
pub open spec fn upper<R: Ring>(r: R, s: Seq<Val<R>>, i: int) -> Seq<Val<R>> {
    trim(
        r,
        Seq::new(
            s.len(),
            |k: int|
                if k >= i {
                    s[k]
                } else {
                    r.zero_v()
                },
        ),
    )
}

/// The texts of the written terms of degree `i` and above.
pub open spec fn texts<R: DisplayRing>(r: R, s: Seq<Val<R>>, i: int) -> Seq<Seq<char>> {
    parts_from(r, s, i).map_values(|p: PartV<Val<R>>| part_text(r, p))
}

proof fn lemma_summands_prefix<R: ParsableRing>(
    r: R,
    a: Seq<Seq<char>>,
    b: Seq<Seq<char>>,
    n: int,
)
    requires
        0 <= n <= a.len(),
        n <= b.len(),
        forall|k: int| 0 <= k < n ==> #[trigger] a[k] == b[k],
    ensures
        summands_v(r, a, n) == summands_v(r, b, n),
    decreases n,
{
    if n > 0 {
        lemma_summands_prefix(r, a, b, n - 1);
    }
}

proof fn lemma_upper_canonical<R: CommutativeRing>(r: R, s: Seq<Val<R>>, i: int)
    requires
        r.wf(),
        canonical(r, s),
    ensures
        canonical(r, upper(r, s, i)),
        forall|k: int| #[trigger] coef(r, upper(r, s, i), k) == if k >= i {
            coef(r, s, k)
        } else {
            r.zero_v()
        },
{
    let raw = Seq::new(
        s.len(),
        |k: int|
            if k >= i {
                s[k]
            } else {
                r.zero_v()
            },
    );
    r.lemma_identities_valid();
    lemma_trim_valid(r, raw);
    lemma_trim(r, raw);
}

/// Adding the terms of degree `i` and above one by one, highest first,
/// builds the upper part of `s`.
proof fn lemma_accumulate<R: ParsableRing + DisplayRing + CommutativeRing>(
    r: R,
    s: Seq<Val<R>>,
    i: int,
)
    requires
        r.wf(),
        reads_back(r),
        canonical(r, s),
        s.len() <= usize::MAX,
        0 <= i <= s.len(),
    ensures
        summands_v(r, texts(r, s, i), texts(r, s, i).len() as int) == Some(upper(r, s, i)),
        forall|j: int| 0 <= j < texts(r, s, i).len() ==> plain(#[trigger] texts(r, s, i)[j]),
        (exists|k: int| i <= k < s.len() && s[k] != r.zero_v()) ==> texts(r, s, i).len() > 0,
    decreases s.len() - i,
{
    r.lemma_identities_valid();
    lemma_upper_canonical(r, s, i);
    if i == s.len() {
        let u = upper(r, s, i);
        assert(texts(r, s, i) =~= Seq::<Seq<char>>::empty());
        lemma_canonical_ext(r, u, Seq::empty());
    } else {
        lemma_accumulate(r, s, i + 1);
        lemma_upper_canonical(r, s, i + 1);
        let prev = texts(r, s, i + 1);
        let n = prev.len() as int;
        if s[i] == r.zero_v() {
            assert(texts(r, s, i) == prev);
            lemma_canonical_ext(r, upper(r, s, i), upper(r, s, i + 1));
            if exists|k: int| i <= k < s.len() && s[k] != r.zero_v() {
                let k = choose|k: int| i <= k < s.len() && s[k] != r.zero_v();
                assert(k != i);
            }
        } else {
            let pv = term_v(r, s[i], i as nat);
            let cur = texts(r, s, i);
            assert(cur =~= prev.push(part_text(r, pv)));
            lemma_term_reads_back(r, s[i], i as nat);
            lemma_summands_prefix(r, cur, prev, n);
            let u = upper(r, s, i + 1);
            let c = r.id_v(s[i]);
            assert(c == s[i]);
            let raw = add_elem_raw(r, u, c, i);
            assert forall|k: int| 0 <= k < raw.len() implies r.valid(#[trigger] raw[k]) by {
                lemma_coef_valid(r, u, k);
                r.lemma_closed(coef(r, u, k), c);
            }
            lemma_trim_valid(r, raw);
            lemma_trim(r, raw);
            assert forall|k: int| 0 <= k implies #[trigger] coef(r, add_elem_seq(r, u, c, i), k) == coef(
                r,
                upper(r, s, i),
                k,
            ) by {
                if k == i {
                    lemma_zero_add(r, c);
                }
            }
            lemma_canonical_ext(r, add_elem_seq(r, u, c, i), upper(r, s, i));
            assert forall|j: int| 0 <= j < cur.len() implies plain(#[trigger] cur[j]) by {
                if j < n {
                    assert(cur[j] == prev[j]);
                }
            }
        }
    }
}

/// Reading back the text of a canonical polynomial gives the polynomial.
pub proof fn lemma_reads_back<R: ParsableRing + DisplayRing + CommutativeRing>(
    r: R,
    s: Seq<Val<R>>,
)
    requires
        r.wf(),
        reads_back(r),
        canonical(r, s),
        s.len() <= usize::MAX,
    ensures
        poly_v(r, poly_text(r, s)) == Some(s),
{
    r.lemma_identities_valid();
    let ps = parts_v(r, s);
    let ts = ps.map_values(|p: PartV<Val<R>>| part_text(r, p));
    let text = poly_text(r, s);
    if s.len() == 0 {
        let z = r.zero_v();
        lemma_term_reads_back(r, z, 0);
        assert(ps[0] == term_v(r, z, 0));
        lemma_strip_join(r, ps, 1);
        lemma_split_join(ts, 1);
        assert(ts.subrange(0, 1) =~= ts);
        assert(summands_v(r, ts, 0) == Some(Seq::<Val<R>>::empty()));
        r.lemma_add_zero(z);
        assert(add_elem_raw(r, Seq::empty(), r.id_v(z), 0) =~= seq![z]);
        assert(trim(r, seq![z]) == trim(r, seq![z].drop_last()));
        assert(seq![z].drop_last() =~= Seq::<Val<R>>::empty());
    } else {
        lemma_accumulate(r, s, 0);
        assert(ts == texts(r, s, 0));
        assert(s[s.len() - 1] != r.zero_v());
        assert(ts.len() > 0);
        assert forall|i: int| 0 <= i < ps.len() implies plain(#[trigger] part_text(r, ps[i])) by {
            assert(ts[i] == part_text(r, ps[i]));
        }
        lemma_strip_join(r, ps, ps.len() as int);
        lemma_split_join(ts, ts.len() as int);
        assert(ts.subrange(0, ts.len() as int) =~= ts);
        let raw = Seq::new(
            s.len(),
            |k: int|
                if k >= 0 {
                    s[k]
                } else {
                    r.zero_v()
                },
        );
        assert(raw =~= s);
    }
}

/// Integers written in decimal read back as themselves.
pub proof fn lemma_integers_read_back()
    ensures
        reads_back(Integers),
{
    assert forall|c: isize| Integers.valid(c) implies #[trigger] Integers.parse_elem_v(
        Integers.elem_text(c),
    ) == Some(c) by {
        lemma_int_text(c);
    }
    assert forall|c: isize| Integers.valid(c) implies plain(#[trigger] Integers.elem_text(c)) by {
        lemma_int_text(c);
    }
    assert forall|c: isize| Integers.valid(c) implies x_free(#[trigger] Integers.elem_text(c)) by {
        lemma_int_text(c);
    }
    assert forall|c: isize| Integers.valid(c) implies #[trigger] Integers.elem_text(c).len() > 0 by {
        lemma_int_text(c);
    }
}

/// Residues written in decimal read back as themselves.
pub proof fn lemma_residues_read_back(r: IntegersModuloN)
    requires
        r.wf(),
    ensures
        reads_back(r),
{
    assert forall|c: isize| r.valid(c) implies #[trigger] r.parse_elem_v(r.elem_text(c)) == Some(c) by {
        lemma_int_text(c);
        vstd::arithmetic::div_mod::lemma_small_mod(c as nat, r.n() as nat);
    }
    assert forall|c: isize| r.valid(c) implies plain(#[trigger] r.elem_text(c)) by {
        lemma_int_text(c);
    }
    assert forall|c: isize| r.valid(c) implies x_free(#[trigger] r.elem_text(c)) by {
        lemma_int_text(c);
    }
    assert forall|c: isize| r.valid(c) implies #[trigger] r.elem_text(c).len() > 0 by {
        lemma_int_text(c);
    }
    assert forall|c: isize| r.valid(c) implies #[trigger] r.id_v(c) == c by {
        vstd::arithmetic::div_mod::lemma_small_mod(c as nat, r.n() as nat);
    }
}

/// Residues modulo a prime written in decimal read back as themselves.
pub proof fn lemma_field_residues_read_back(r: IntegersModuloP)
    requires
        r.wf(),
    ensures
        reads_back(r),
{
    assert forall|c: isize| r.valid(c) implies #[trigger] r.parse_elem_v(r.elem_text(c)) == Some(c) by {
        lemma_int_text(c);
        vstd::arithmetic::div_mod::lemma_small_mod(c as nat, r.p() as nat);
    }
    assert forall|c: isize| r.valid(c) implies plain(#[trigger] r.elem_text(c)) by {
        lemma_int_text(c);
    }
    assert forall|c: isize| r.valid(c) implies x_free(#[trigger] r.elem_text(c)) by {
        lemma_int_text(c);
    }
    assert forall|c: isize| r.valid(c) implies #[trigger] r.elem_text(c).len() > 0 by {
        lemma_int_text(c);
    }
    assert forall|c: isize| r.valid(c) implies #[trigger] r.id_v(c) == c by {
        vstd::arithmetic::div_mod::lemma_small_mod(c as nat, r.p() as nat);
    }
}

/// Parsing the text of an integer polynomial gives it back:
/// `parse(display(p)) == Some(p)`.
pub proof fn law_parse_display_integers(p: Seq<isize>)
    requires
        canonical(Integers, p),
        p.len() <= usize::MAX,
    ensures
        poly_v(Integers, poly_text(Integers, p)) == Some(p),
{
    lemma_integers_read_back();
    lemma_reads_back(Integers, p);
}

/// Parsing the text of a polynomial over `Z/nZ` gives it back.
pub proof fn law_parse_display_modulo_n(r: IntegersModuloN, p: Seq<isize>)
    requires
        r.wf(),
        canonical(r, p),
        p.len() <= usize::MAX,
    ensures
        poly_v(r, poly_text(r, p)) == Some(p),
{
    lemma_residues_read_back(r);
    lemma_reads_back(r, p);
}

/// Parsing the text of a polynomial over `Z/pZ` gives it back.
pub proof fn law_parse_display_modulo_p(r: IntegersModuloP, p: Seq<isize>)
    requires
        r.wf(),
        canonical(r, p),
        p.len() <= usize::MAX,
    ensures
        poly_v(r, poly_text(r, p)) == Some(p),
{
    lemma_field_residues_read_back(r);
    lemma_reads_back(r, p);
}

} // verus!
