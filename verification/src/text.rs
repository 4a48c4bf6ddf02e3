//! Byte-string utilities shared by every artifact format: exact decimal
//! numerals, decimal fixed-point values, and separator-based splitting and
//! joining with a round-trip guarantee.

use vstd::prelude::*;

verus! {

/// Scale of the decimal fixed-point representation: probabilities and
/// expected counts are integers counting units of `1 / FRAC_UNIT`.
pub const FRAC_UNIT: u64 = 1_000_000_000_000;

/// Number of fractional digits written for a fixed-point value.
pub const FRAC_DIGITS: u32 = 12;

pub open spec fn is_digit(b: u8) -> bool {
    48 <= b <= 57
}

pub open spec fn all_digits(s: Seq<u8>) -> bool {
    forall|i: int| 0 <= i < s.len() ==> is_digit(#[trigger] s[i])
}

pub open spec fn digit_of(n: int) -> u8 {
    (48 + n) as u8
}

/// The decimal numeral of `n`, most significant digit first, no leading
/// zeros (a single `0` for zero).
pub open spec fn dec_digits(n: nat) -> Seq<u8>
    decreases n,
{
    if n < 10 {
        seq![digit_of(n as int)]
    } else {
        dec_digits(n / 10).push(digit_of((n % 10) as int))
    }
}

/// The numeric value of a digit string (undefined garbage on non-digits).
pub open spec fn dec_value(s: Seq<u8>) -> int
    decreases s.len(),
{
    if s.len() == 0 {
        0
    } else {
        dec_value(s.drop_last()) * 10 + (s.last() - 48)
    }
}

pub open spec fn pow10(w: nat) -> nat
    decreases w,
{
    if w == 0 {
        1
    } else {
        10 * pow10((w - 1) as nat)
    }
}

/// The numeral of `n` zero-padded to exactly `w` digits (for `n < 10^w`).
pub open spec fn dec_pad(n: nat, w: nat) -> Seq<u8>
    decreases w,
{
    if w == 0 {
        Seq::empty()
    } else {
        dec_pad(n / 10, (w - 1) as nat).push(digit_of((n % 10) as int))
    }
}

pub proof fn lemma_dec_digits_are_digits(n: nat)
    ensures
        all_digits(dec_digits(n)),
        dec_digits(n).len() >= 1,
    decreases n,
{
    if n >= 10 {
        lemma_dec_digits_are_digits(n / 10);
    }
}

pub proof fn lemma_dec_value_of_digits(n: nat)
    ensures
        dec_value(dec_digits(n)) == n,
    decreases n,
{
    if n < 10 {
        let s = dec_digits(n);
        assert(s =~= seq![digit_of(n as int)]);
        assert(s.drop_last().len() == 0);
        assert(s.last() == digit_of(n as int));
        assert(dec_value(s) == dec_value(s.drop_last()) * 10 + (s.last() - 48));
    } else {
        lemma_dec_value_of_digits(n / 10);
        let s = dec_digits(n / 10);
        assert(s.push(digit_of((n % 10) as int)).drop_last() =~= s);
        vstd::arithmetic::div_mod::lemma_fundamental_div_mod(n as int, 10);
    }
}

pub proof fn lemma_dec_pad_are_digits(n: nat, w: nat)
    ensures
        all_digits(dec_pad(n, w)),
        dec_pad(n, w).len() == w,
    decreases w,
{
    if w > 0 {
        lemma_dec_pad_are_digits(n / 10, (w - 1) as nat);
    }
}

pub proof fn lemma_dec_value_of_pad(n: nat, w: nat)
    requires
        n < pow10(w),
    ensures
        dec_value(dec_pad(n, w)) == n,
    decreases w,
{
    if w == 0 {
        assert(n == 0);
    } else {
        assert(n / 10 < pow10((w - 1) as nat)) by {
            vstd::arithmetic::div_mod::lemma_fundamental_div_mod(n as int, 10);
        };
        lemma_dec_value_of_pad(n / 10, (w - 1) as nat);
        let s = dec_pad(n / 10, (w - 1) as nat);
        assert(s.push(digit_of((n % 10) as int)).drop_last() =~= s);
        vstd::arithmetic::div_mod::lemma_fundamental_div_mod(n as int, 10);
    }
}

/// Appending a digit multiplies the value by ten and adds the digit.
pub proof fn lemma_dec_value_push(s: Seq<u8>, d: u8)
    ensures
        dec_value(s.push(d)) == dec_value(s) * 10 + (d - 48),
{
    assert(s.push(d).drop_last() =~= s);
    assert(s.push(d).last() == d);
}

/// Along a digit string the value of prefixes never decreases.
pub proof fn lemma_dec_value_prefix_le(s: Seq<u8>, i: int)
    requires
        all_digits(s),
        0 <= i <= s.len(),
    ensures
        dec_value(s.take(i)) <= dec_value(s),
        dec_value(s) >= 0,
    decreases s.len() - i,
{
    if i == s.len() {
        assert(s.take(i) =~= s);
        lemma_dec_value_nonneg(s);
    } else {
        lemma_dec_value_prefix_le(s, i + 1);
        assert(s.take(i + 1).drop_last() =~= s.take(i));
        assert(dec_value(s.take(i + 1)) == dec_value(s.take(i)) * 10 + (s[i] - 48));
        lemma_dec_value_nonneg(s.take(i));
    }
}

pub proof fn lemma_dec_value_nonneg(s: Seq<u8>)
    requires
        all_digits(s),
    ensures
        dec_value(s) >= 0,
    decreases s.len(),
{
    if s.len() > 0 {
        assert(all_digits(s.drop_last())) by {
            assert(forall|i: int|
                0 <= i < s.drop_last().len() ==> is_digit(#[trigger] s.drop_last()[i]));
        };
        lemma_dec_value_nonneg(s.drop_last());
    }
}

/// Render a number as its decimal numeral.
pub fn render_u128(n: u128) -> (r: Vec<u8>)
    ensures
        r@ == dec_digits(n as nat),
    decreases n,
{
    if n < 10 {
        let mut r: Vec<u8> = Vec::new();
        r.push(48 + n as u8);
        proof {
            assert(r@ =~= dec_digits(n as nat));
        }
        r
    } else {
        let mut r = render_u128(n / 10);
        r.push(48 + (n % 10) as u8);
        r
    }
}

pub fn render_u64(n: u64) -> (r: Vec<u8>)
    ensures
        r@ == dec_digits(n as nat),
{
    render_u128(n as u128)
}

pub fn render_usize(n: usize) -> (r: Vec<u8>)
    ensures
        r@ == dec_digits(n as nat),
{
    render_u128(n as u128)
}

/// Render a number zero-padded to `w` digits.
pub fn render_pad(n: u64, w: u32) -> (r: Vec<u8>)
    ensures
        r@ == dec_pad(n as nat, w as nat),
    decreases w,
{
    if w == 0 {
        let r: Vec<u8> = Vec::new();
        proof {
            assert(r@ =~= dec_pad(n as nat, 0));
        }
        r
    } else {
        let mut r = render_pad(n / 10, w - 1);
        r.push(48 + (n % 10) as u8);
        r
    }
}

/// Parse a decimal numeral. Yields a value exactly when the input is a
/// nonempty digit string whose value fits.
pub fn parse_u128(s: &[u8]) -> (r: Option<u128>)
    ensures
        r is Some <==> s@.len() > 0 && all_digits(s@) && dec_value(s@) <= u128::MAX,
        r is Some ==> r->0 == dec_value(s@),
{
    if s.len() == 0 {
        return None;
    }
    let mut acc: u128 = 0;
    let mut i: usize = 0;
    while i < s.len()
        invariant
            0 <= i <= s@.len(),
            all_digits(s@.take(i as int)),
            acc == dec_value(s@.take(i as int)),
        decreases s@.len() - i,
    {
        let b = s[i];
        if b < 48 || b > 57 {
            proof {
                assert(!is_digit(s@[i as int]));
            }
            return None;
        }
        let d = (b - 48) as u128;
        if acc > (u128::MAX - d) / 10 {
            proof {
                lemma_dec_value_push(s@.take(i as int), b);
                assert(s@.take(i as int).push(b) =~= s@.take(i as int + 1));
                assert(dec_value(s@.take(i as int + 1)) > u128::MAX);
                if s@.len() > 0 && all_digits(s@) {
                    lemma_dec_value_prefix_le(s@, i as int + 1);
                }
            }
            return None;
        }
        proof {
            lemma_dec_value_push(s@.take(i as int), b);
            assert(s@.take(i as int).push(b) =~= s@.take(i as int + 1));
        }
        acc = acc * 10 + d;
        i = i + 1;
    }
    proof {
        assert(s@.take(i as int) =~= s@);
    }
    Some(acc)
}

pub fn parse_u64(s: &[u8]) -> (r: Option<u64>)
    ensures
        r is Some <==> s@.len() > 0 && all_digits(s@) && dec_value(s@) <= u64::MAX,
        r is Some ==> r->0 == dec_value(s@),
{
    match parse_u128(s) {
        None => None,
        Some(v) => {
            if v <= u64::MAX as u128 {
                Some(v as u64)
            } else {
                None
            }
        },
    }
}

pub fn parse_usize(s: &[u8]) -> (r: Option<usize>)
    ensures
        r is Some <==> s@.len() > 0 && all_digits(s@) && dec_value(s@) <= usize::MAX,
        r is Some ==> r->0 == dec_value(s@),
{
    match parse_u128(s) {
        None => None,
        Some(v) => {
            if v <= usize::MAX as u128 {
                Some(v as usize)
            } else {
                None
            }
        },
    }
}

/// The bytes after the first one.
pub fn split_off_first(v: &Vec<u8>) -> (r: Vec<u8>)
    requires
        v@.len() >= 1,
    ensures
        r@ == v@.skip(1),
{
    let mut r: Vec<u8> = Vec::new();
    let mut i: usize = 1;
    while i < v.len()
        invariant
            1 <= i <= v@.len(),
            r@ == v@.subrange(1, i as int),
        decreases v@.len() - i,
    {
        r.push(v[i]);
        proof {
            assert(r@ =~= v@.subrange(1, i as int + 1));
        }
        i = i + 1;
    }
    proof {
        assert(v@.subrange(1, v@.len() as int) =~= v@.skip(1));
    }
    r
}

/// ` at line N`, appended to parse error messages so a malformed input
/// names the line that was rejected.
pub fn line_suffix(line: usize) -> (r: Vec<u8>)
    ensures
        r@.len() > 0,
{
    let mut r: Vec<u8> = Vec::new();
    r.push((' ' as u8));
    r.push(('a' as u8));
    r.push(('t' as u8));
    r.push((' ' as u8));
    r.push(('l' as u8));
    r.push(('i' as u8));
    r.push(('n' as u8));
    r.push(('e' as u8));
    r.push((' ' as u8));
    let digits = render_usize(line);
    let mut k: usize = 0;
    while k < digits.len()
        invariant
            0 <= k <= digits@.len(),
            r@.len() > 0,
        decreases digits@.len() - k,
    {
        r.push(digits[k]);
        k = k + 1;
    }
    r
}

/// Exact byte-string equality.
pub fn bytes_eq(a: &[u8], b: &[u8]) -> (r: bool)
    ensures
        r == (a@ =~= b@),
{
    if a.len() != b.len() {
        return false;
    }
    let mut i: usize = 0;
    while i < a.len()
        invariant
            a@.len() == b@.len(),
            0 <= i <= a@.len(),
            forall|j: int| 0 <= j < i ==> a@[j] == b@[j],
        decreases a@.len() - i,
    {
        if a[i] != b[i] {
            return false;
        }
        i = i + 1;
    }
    true
}

/// The views of a vector of byte strings.
pub open spec fn views(v: Seq<Vec<u8>>) -> Seq<Seq<u8>> {
    v.map_values(|p: Vec<u8>| p@)
}

pub open spec fn piece_free(p: Seq<u8>, sep: u8) -> bool {
    forall|i: int| 0 <= i < p.len() ==> p[i] != sep
}

pub open spec fn pieces_free(ps: Seq<Seq<u8>>, sep: u8) -> bool {
    forall|i: int| 0 <= i < ps.len() ==> piece_free(#[trigger] ps[i], sep)
}

/// Split a byte string at every occurrence of `sep`; n separators yield
/// n + 1 pieces (the empty string yields one empty piece).
pub open spec fn spec_split(s: Seq<u8>, sep: u8) -> Seq<Seq<u8>>
    decreases s.len(),
{
    if s.len() == 0 {
        seq![Seq::empty()]
    } else if s[0] == sep {
        seq![Seq::<u8>::empty()] + spec_split(s.skip(1), sep)
    } else {
        let rest = spec_split(s.skip(1), sep);
        seq![seq![s[0]] + rest[0]] + rest.skip(1)
    }
}

/// Join pieces with `sep` between each pair of neighbours.
pub open spec fn spec_join(ps: Seq<Seq<u8>>, sep: u8) -> Seq<u8>
    decreases ps.len(),
{
    if ps.len() == 0 {
        Seq::empty()
    } else if ps.len() == 1 {
        ps[0]
    } else {
        ps[0] + seq![sep] + spec_join(ps.skip(1), sep)
    }
}

pub proof fn lemma_split_nonempty(s: Seq<u8>, sep: u8)
    ensures
        spec_split(s, sep).len() >= 1,
    decreases s.len(),
{
    if s.len() > 0 {
        lemma_split_nonempty(s.skip(1), sep);
    }
}

/// Splitting a separator-free string yields that string alone.
pub proof fn lemma_split_free(p: Seq<u8>, sep: u8)
    requires
        piece_free(p, sep),
    ensures
        spec_split(p, sep) =~~= seq![p],
    decreases p.len(),
{
    if p.len() == 0 {
        assert(spec_split(p, sep) =~~= seq![p]);
    } else {
        assert(piece_free(p.skip(1), sep));
        lemma_split_free(p.skip(1), sep);
        assert(seq![p[0]] + p.skip(1) =~= p);
    }
}

/// Splitting `p + sep + t` peels off the separator-free `p`.
pub proof fn lemma_split_peel(p: Seq<u8>, t: Seq<u8>, sep: u8)
    requires
        piece_free(p, sep),
    ensures
        spec_split(p + seq![sep] + t, sep) =~~= seq![p] + spec_split(t, sep),
    decreases p.len(),
{
    let s = p + seq![sep] + t;
    if p.len() == 0 {
        assert(s.len() > 0 && s[0] == sep);
        assert(s.skip(1) =~= t);
        assert(spec_split(s, sep) =~~= seq![Seq::<u8>::empty()] + spec_split(t, sep));
    } else {
        assert(s[0] == p[0] && p[0] != sep);
        assert(s.skip(1) =~= p.skip(1) + seq![sep] + t);
        assert(piece_free(p.skip(1), sep));
        lemma_split_peel(p.skip(1), t, sep);
        let rest = spec_split(s.skip(1), sep);
        lemma_split_nonempty(t, sep);
        assert(rest =~~= seq![p.skip(1)] + spec_split(t, sep));
        assert(rest[0] == p.skip(1));
        assert(seq![s[0]] + rest[0] =~= p);
        assert(rest.skip(1) =~~= spec_split(t, sep));
    }
}

/// Splitting undoes joining, as long as no piece contains the separator.
pub proof fn lemma_split_join(ps: Seq<Seq<u8>>, sep: u8)
    requires
        ps.len() >= 1,
        pieces_free(ps, sep),
    ensures
        spec_split(spec_join(ps, sep), sep) =~~= ps,
    decreases ps.len(),
{
    if ps.len() == 1 {
        lemma_split_free(ps[0], sep);
        assert(spec_join(ps, sep) == ps[0]);
        assert(seq![ps[0]] =~~= ps);
    } else {
        assert(pieces_free(ps.skip(1), sep));
        lemma_split_join(ps.skip(1), sep);
        lemma_split_peel(ps[0], spec_join(ps.skip(1), sep), sep);
        assert(seq![ps[0]] + ps.skip(1) =~~= ps);
    }
}

/// Joining one piece more appends a separator and the piece.
pub proof fn lemma_join_push(ps: Seq<Seq<u8>>, p: Seq<u8>, sep: u8)
    requires
        ps.len() >= 1,
    ensures
        spec_join(ps.push(p), sep) =~= spec_join(ps, sep) + seq![sep] + p,
    decreases ps.len(),
{
    if ps.len() == 1 {
        assert(ps.push(p).skip(1) =~= seq![p]);
        assert(spec_join(seq![p], sep) == p);
    } else {
        lemma_join_push(ps.skip(1), p, sep);
        assert(ps.push(p).skip(1) =~= ps.skip(1).push(p));
        assert(ps.push(p)[0] == ps[0]);
    }
}

/// Join byte strings with a separator.
pub fn join(pieces: &Vec<Vec<u8>>, sep: u8) -> (r: Vec<u8>)
    ensures
        r@ == spec_join(views(pieces@), sep),
{
    let mut r: Vec<u8> = Vec::new();
    let mut i: usize = 0;
    while i < pieces.len()
        invariant
            0 <= i <= pieces@.len(),
            r@ == spec_join(views(pieces@).take(i as int), sep),
        decreases pieces@.len() - i,
    {
        if i > 0 {
            r.push(sep);
        }
        let mut k: usize = 0;
        let ghost r_mid = r@;
        while k < pieces[i].len()
            invariant
                0 <= i < pieces@.len(),
                0 <= k <= pieces@[i as int]@.len(),
                r@ == r_mid + pieces@[i as int]@.take(k as int),
            decreases pieces@[i as int]@.len() - k,
        {
            let b = pieces[i][k];
            r.push(b);
            proof {
                assert(r@ =~= r_mid + pieces@[i as int]@.take(k as int + 1));
            }
            k = k + 1;
        }
        proof {
            let vs = views(pieces@);
            assert(pieces@[i as int]@.take(pieces@[i as int]@.len() as int) =~= vs[i as int]);
            if i == 0 {
                assert(vs.take(1) =~= seq![vs[0]]);
                assert(r@ =~= vs[0]);
                assert(spec_join(vs.take(1), sep) == vs[0]);
            } else {
                lemma_join_push(vs.take(i as int), vs[i as int], sep);
                assert(vs.take(i as int).push(vs[i as int]) =~= vs.take(i as int + 1));
                assert(r@ =~= spec_join(vs.take(i as int), sep) + seq![sep] + vs[i as int]);
            }
        }
        i = i + 1;
    }
    proof {
        assert(views(pieces@).take(pieces@.len() as int) =~= views(pieces@));
        if pieces@.len() == 0 {
            assert(r@ =~= spec_join(views(pieces@), sep));
        }
    }
    r
}

/// Multiplying by `u` stays within `a` exactly when the factor is at most
/// `a / u`.
pub proof fn lemma_scale_bound(x: int, a: int, u: int)
    requires
        u > 0,
        0 <= x,
        0 <= a,
    ensures
        x <= a / u ==> x * u <= a,
        x > a / u ==> x * u > a,
{
    vstd::arithmetic::div_mod::lemma_fundamental_div_mod(a, u);
    vstd::arithmetic::div_mod::lemma_mod_bound(a, u);
    vstd::arithmetic::mul::lemma_mul_is_commutative(u, a / u);
    assert(a == (a / u) * u + a % u);
    if x <= a / u {
        vstd::arithmetic::mul::lemma_mul_inequality(x, a / u, u);
    } else {
        vstd::arithmetic::mul::lemma_mul_inequality(a / u + 1, x, u);
        assert((a / u + 1) * u == (a / u) * u + 1 * u) by {
            vstd::arithmetic::mul::lemma_mul_is_distributive_add_other_way(u, a / u, 1);
        };
        vstd::arithmetic::mul::lemma_mul_basics(u);
    }
}

/// Extending the input by a separator opens a fresh empty piece.
pub proof fn lemma_split_push_sep(s: Seq<u8>, sep: u8)
    ensures
        spec_split(s.push(sep), sep) =~~= spec_split(s, sep).push(Seq::empty()),
    decreases s.len(),
{
    lemma_split_nonempty(s, sep);
    if s.len() == 0 {
        assert(s.push(sep)[0] == sep);
        assert(s.push(sep).skip(1) =~= Seq::<u8>::empty());
        assert(spec_split(s.push(sep), sep) =~~= seq![Seq::<u8>::empty()] + spec_split(
            Seq::<u8>::empty(),
            sep,
        ));
        assert(spec_split(s, sep) =~~= seq![Seq::<u8>::empty()]);
    } else {
        lemma_split_push_sep(s.skip(1), sep);
        assert(s.push(sep).skip(1) =~= s.skip(1).push(sep));
        assert(s.push(sep)[0] == s[0]);
        if s[0] == sep {
        } else {
            let rest = spec_split(s.skip(1), sep);
            let rest2 = spec_split(s.skip(1).push(sep), sep);
            assert(rest2 =~~= rest.push(Seq::empty()));
            assert(rest2[0] == rest[0]);
            assert(rest2.skip(1) =~~= rest.skip(1).push(Seq::empty()));
        }
    }
}

/// Extending the input by an ordinary byte extends the last piece.
pub proof fn lemma_split_push_byte(s: Seq<u8>, c: u8, sep: u8)
    requires
        c != sep,
    ensures
        spec_split(s.push(c), sep) =~~= spec_split(s, sep).drop_last().push(
            spec_split(s, sep).last().push(c),
        ),
    decreases s.len(),
{
    lemma_split_nonempty(s, sep);
    if s.len() == 0 {
        assert(s.push(c)[0] == c);
        assert(s.push(c).skip(1) =~= Seq::<u8>::empty());
        let rest = spec_split(s.push(c).skip(1), sep);
        assert(rest =~~= seq![Seq::<u8>::empty()]);
        let r = spec_split(s.push(c), sep);
        assert(r == seq![seq![c] + rest[0]] + rest.skip(1));
        assert(rest.skip(1) =~~= Seq::<Seq<u8>>::empty());
        assert(seq![c] + rest[0] =~= seq![c]);
        assert(r =~~= seq![seq![c]]);
        assert(spec_split(s, sep) =~~= seq![Seq::<u8>::empty()]);
        assert(Seq::<u8>::empty().push(c) =~= seq![c]);
    } else {
        lemma_split_push_byte(s.skip(1), c, sep);
        assert(s.push(c).skip(1) =~= s.skip(1).push(c));
        assert(s.push(c)[0] == s[0]);
        let rest = spec_split(s.skip(1), sep);
        let rest2 = spec_split(s.skip(1).push(c), sep);
        lemma_split_nonempty(s.skip(1), sep);
        if s[0] == sep {
            assert(spec_split(s, sep) == seq![Seq::<u8>::empty()] + rest);
            assert(spec_split(s.push(c), sep) == seq![Seq::<u8>::empty()] + rest2);
            assert((seq![Seq::<u8>::empty()] + rest).last() == rest.last());
            assert((seq![Seq::<u8>::empty()] + rest).drop_last() =~~= seq![Seq::<u8>::empty()]
                + rest.drop_last());
        } else {
            if rest.len() == 1 {
                assert(rest2 =~~= seq![rest.last().push(c)]);
                let whole = spec_split(s, sep);
                assert(whole =~~= seq![seq![s[0]] + rest[0]]);
                assert(whole.last() == seq![s[0]] + rest[0]);
                assert(spec_split(s.push(c), sep) =~~= seq![seq![s[0]] + rest2[0]]);
                assert(seq![s[0]] + rest[0].push(c) =~= (seq![s[0]] + rest[0]).push(c));
            } else {
                assert(rest2 =~~= rest.drop_last().push(rest.last().push(c)));
                assert(rest2[0] == rest[0]);
                let whole = spec_split(s, sep);
                let whole2 = spec_split(s.push(c), sep);
                assert(whole == seq![seq![s[0]] + rest[0]] + rest.skip(1));
                assert(whole2 == seq![seq![s[0]] + rest2[0]] + rest2.skip(1));
                assert(whole.last() == rest.last());
                assert(rest2.skip(1) =~~= rest.skip(1).drop_last().push(rest.last().push(c)));
                assert(whole2 =~~= whole.drop_last().push(whole.last().push(c)));
            }
        }
    }
}

/// Split a byte string at every occurrence of `sep`.
pub fn split(data: &[u8], sep: u8) -> (r: Vec<Vec<u8>>)
    ensures
        views(r@) == spec_split(data@, sep),
{
    let mut out: Vec<Vec<u8>> = Vec::new();
    let mut cur: Vec<u8> = Vec::new();
    let mut i: usize = 0;
    while i < data.len()
        invariant
            0 <= i <= data@.len(),
            spec_split(data@.take(i as int), sep) =~~= views(out@).push(cur@),
        decreases data@.len() - i,
    {
        let b = data[i];
        proof {
            assert(data@.take(i as int).push(b) =~= data@.take(i as int + 1));
        }
        if b == sep {
            proof {
                lemma_split_push_sep(data@.take(i as int), sep);
            }
            out.push(cur);
            cur = Vec::new();
            proof {
                assert(views(out@).push(cur@) =~~= spec_split(data@.take(i as int + 1), sep));
            }
        } else {
            proof {
                lemma_split_push_byte(data@.take(i as int), b, sep);
                let prev = spec_split(data@.take(i as int), sep);
                assert(prev.drop_last() =~~= views(out@));
                assert(prev.last() == cur@);
            }
            cur.push(b);
            proof {
                assert(views(out@).push(cur@) =~~= spec_split(data@.take(i as int + 1), sep));
            }
        }
        i = i + 1;
    }
    out.push(cur);
    proof {
        assert(data@.take(data@.len() as int) =~= data@);
    }
    out
}

/// A fixed-point value rendered as `integer.fraction` with exactly
/// `FRAC_DIGITS` fractional digits.
pub open spec fn spec_render_fixed(v: int) -> Seq<u8> {
    dec_digits(((v as int) / (FRAC_UNIT as int)) as nat) + seq![('.' as u8)] + dec_pad(
        ((v as int) % (FRAC_UNIT as int)) as nat,
        FRAC_DIGITS as nat,
    )
}

pub fn render_fixed(v: u128) -> (r: Vec<u8>)
    ensures
        r@ == spec_render_fixed(v as int),
{
    let mut r = render_u128(v / (FRAC_UNIT as u128));
    r.push('.' as u8);
    let frac = (v % (FRAC_UNIT as u128)) as u64;
    let mut f = render_pad(frac, FRAC_DIGITS);
    let mut k: usize = 0;
    let ghost r_mid = r@;
    while k < f.len()
        invariant
            0 <= k <= f@.len(),
            r@ == r_mid + f@.take(k as int),
        decreases f@.len() - k,
    {
        let b = f[k];
        r.push(b);
        proof {
            assert(r@ =~= r_mid + f@.take(k as int + 1));
        }
        k = k + 1;
    }
    proof {
        assert(f@.take(f@.len() as int) =~= f@);
        assert(r@ =~= spec_render_fixed(v as int));
    }
    r
}

/// The value a fixed-point literal denotes: digits, optionally followed by
/// a point and one to `FRAC_DIGITS` fractional digits.
pub open spec fn spec_parse_fixed(s: Seq<u8>) -> Option<int> {
    let ps = spec_split(s, ('.' as u8));
    if ps.len() == 1 {
        if s.len() > 0 && all_digits(s) {
            Some(dec_value(s) * FRAC_UNIT)
        } else {
            None
        }
    } else if ps.len() == 2 {
        let ip = ps[0];
        let fp = ps[1];
        if ip.len() > 0 && all_digits(ip) && 1 <= fp.len() <= FRAC_DIGITS && all_digits(fp) {
            Some(dec_value(ip) * FRAC_UNIT + dec_value(fp) * pow10((FRAC_DIGITS - fp.len()) as nat))
        } else {
            None
        }
    } else {
        None
    }
}

pub fn pow10_u64(w: u32) -> (r: u64)
    requires
        w <= FRAC_DIGITS,
    ensures
        r == pow10(w as nat),
{
    let mut r: u64 = 1;
    let mut i: u32 = 0;
    while i < w
        invariant
            0 <= i <= w <= FRAC_DIGITS,
            r == pow10(i as nat),
        decreases w - i,
    {
        proof {
            lemma_pow10_le_frac_unit((i + 1) as nat);
        }
        r = r * 10;
        i = i + 1;
    }
    r
}

pub proof fn lemma_pow10_le_frac_unit(w: nat)
    requires
        w <= FRAC_DIGITS,
    ensures
        pow10(w) <= FRAC_UNIT,
    decreases (FRAC_DIGITS as nat - w),
{
    if w == FRAC_DIGITS as nat {
        assert(pow10(12) == 1_000_000_000_000) by {
            reveal_with_fuel(pow10, 13);
        };
    } else {
        lemma_pow10_le_frac_unit(w + 1);
    }
}

/// Parse a fixed-point literal. Yields a value exactly when the literal is
/// well formed and its value fits.
pub fn parse_fixed(s: &[u8]) -> (r: Option<u128>)
    ensures
        r is Some <==> spec_parse_fixed(s@) is Some && spec_parse_fixed(s@)->0 <= u128::MAX,
        r is Some ==> Some(r->0 as int) == spec_parse_fixed(s@),
{
    let pieces = split(s, '.' as u8);
    if pieces.len() == 1 {
        proof {
            assert(views(pieces@)[0] == pieces@[0]@);
            assert(pieces@[0]@ == s@) by {
                assert(spec_split(s@, ('.' as u8))[0] == views(pieces@)[0]);
                lemma_split_single(s@, ('.' as u8));
            };
        }
        match parse_u128(&pieces[0]) {
            None => {
                proof {
                    if s@.len() > 0 && all_digits(s@) {
                        // the numeral does not even fit on its own, so the
                        // scaled value cannot fit either
                        lemma_dec_value_nonneg(s@);
                        vstd::arithmetic::mul::lemma_mul_inequality(
                            1,
                            FRAC_UNIT as int,
                            dec_value(s@),
                        );
                    }
                }
                None
            },
            Some(ip) => {
                proof {
                    lemma_dec_value_nonneg(s@);
                    lemma_scale_bound(ip as int, u128::MAX as int, FRAC_UNIT as int);
                }
                if ip <= u128::MAX / (FRAC_UNIT as u128) {
                    Some(ip * (FRAC_UNIT as u128))
                } else {
                    None
                }
            },
        }
    } else if pieces.len() == 2 {
        let fp_len = pieces[1].len();
        if fp_len < 1 || fp_len > FRAC_DIGITS as usize {
            proof {
                assert(spec_split(s@, ('.' as u8))[1] == views(pieces@)[1]);
            }
            return None;
        }
        let iv = match parse_u128(&pieces[0]) {
            None => {
                proof {
                    assert(spec_split(s@, ('.' as u8))[0] == views(pieces@)[0]);
                    assert(spec_split(s@, ('.' as u8))[1] == views(pieces@)[1]);
                    let ip = pieces@[0]@;
                    let fp = pieces@[1]@;
                    if ip.len() > 0 && all_digits(ip) && all_digits(fp) {
                        // the integer part alone overflows, so the whole
                        // value overflows
                        lemma_dec_value_nonneg(ip);
                        lemma_dec_value_nonneg(fp);
                        vstd::arithmetic::mul::lemma_mul_inequality(
                            1,
                            FRAC_UNIT as int,
                            dec_value(ip),
                        );
                        vstd::arithmetic::mul::lemma_mul_nonnegative(
                            dec_value(fp),
                            pow10((FRAC_DIGITS - fp.len()) as nat) as int,
                        );
                    }
                }
                return None;
            },
            Some(v) => v,
        };
        let fv = match parse_u64(&pieces[1]) {
            None => {
                proof {
                    assert(spec_split(s@, ('.' as u8))[1] == views(pieces@)[1]);
                    if all_digits(pieces@[1]@) {
                        lemma_dec_value_fits(pieces@[1]@);
                    }
                }
                return None;
            },
            Some(v) => v,
        };
        let scale = pow10_u64(FRAC_DIGITS - fp_len as u32);
        proof {
            assert(spec_split(s@, ('.' as u8))[0] == views(pieces@)[0]);
            assert(spec_split(s@, ('.' as u8))[1] == views(pieces@)[1]);
            lemma_dec_value_nonneg(pieces@[0]@);
            lemma_dec_value_nonneg(pieces@[1]@);
            lemma_pow10_le_frac_unit((FRAC_DIGITS - fp_len) as nat);
            lemma_pow10_le_frac_unit(fp_len as nat);
            lemma_dec_value_fits(pieces@[1]@);
            assert((fv as int) * (scale as int) <= (FRAC_UNIT as int) * (FRAC_UNIT as int)) by {
                vstd::arithmetic::mul::lemma_mul_upper_bound(
                    fv as int,
                    FRAC_UNIT as int,
                    scale as int,
                    FRAC_UNIT as int,
                );
            };
            lemma_scale_bound(
                iv as int,
                u128::MAX - (fv as int) * (scale as int),
                FRAC_UNIT as int,
            );
        }
        if iv > (u128::MAX - (fv as u128) * (scale as u128)) / (FRAC_UNIT as u128) {
            return None;
        }
        Some(iv * (FRAC_UNIT as u128) + (fv as u128) * (scale as u128))
    } else {
        None
    }
}

/// A digit string of at most `FRAC_DIGITS` digits has a value below
/// `FRAC_UNIT`, so it fits in a `u64`.
pub proof fn lemma_dec_value_fits(s: Seq<u8>)
    requires
        all_digits(s),
        s.len() <= FRAC_DIGITS,
    ensures
        dec_value(s) < pow10(s.len()),
        dec_value(s) <= u64::MAX,
    decreases s.len(),
{
    if s.len() == 0 {
    } else {
        assert(all_digits(s.drop_last()));
        lemma_dec_value_fits(s.drop_last());
        assert(dec_value(s) == dec_value(s.drop_last()) * 10 + (s.last() - 48));
        assert(pow10(s.len()) == 10 * pow10((s.len() - 1) as nat));
    }
    lemma_pow10_le_frac_unit(s.len());
}

pub proof fn lemma_split_single(s: Seq<u8>, sep: u8)
    requires
        spec_split(s, sep).len() == 1,
    ensures
        spec_split(s, sep)[0] == s,
        piece_free(s, sep),
    decreases s.len(),
{
    if s.len() == 0 {
    } else if s[0] == sep {
        lemma_split_nonempty(s.skip(1), sep);
    } else {
        lemma_split_nonempty(s.skip(1), sep);
        if spec_split(s.skip(1), sep).len() == 1 {
            lemma_split_single(s.skip(1), sep);
            assert(seq![s[0]] + s.skip(1) =~= s);
        } else {
            assert(spec_split(s, sep).len() >= 2);
        }
    }
}

/// Parsing a rendered decimal numeral gives back the number.
pub proof fn lemma_dec_round_trip(n: nat)
    requires
        n <= u128::MAX,
    ensures
        dec_digits(n).len() > 0,
        all_digits(dec_digits(n)),
        dec_value(dec_digits(n)) == n,
{
    lemma_dec_digits_are_digits(n);
    lemma_dec_value_of_digits(n);
}

/// Parsing a rendered fixed-point value gives back the value: the round
/// trip law of the decimal fixed-point format.
pub proof fn lemma_fixed_round_trip(v: nat)
    requires
        v <= u128::MAX,
    ensures
        spec_parse_fixed(spec_render_fixed(v as int)) == Some(v as int),
{
    let ipart = dec_digits(((v as int) / (FRAC_UNIT as int)) as nat);
    let fpart = dec_pad(((v as int) % (FRAC_UNIT as int)) as nat, FRAC_DIGITS as nat);
    let s = spec_render_fixed(v as int);
    vstd::arithmetic::div_mod::lemma_fundamental_div_mod(v as int, FRAC_UNIT as int);
    vstd::arithmetic::div_mod::lemma_mod_bound(v as int, FRAC_UNIT as int);
    lemma_dec_digits_are_digits(((v as int) / (FRAC_UNIT as int)) as nat);
    lemma_dec_value_of_digits(((v as int) / (FRAC_UNIT as int)) as nat);
    lemma_dec_pad_are_digits(((v as int) % (FRAC_UNIT as int)) as nat, FRAC_DIGITS as nat);
    assert(((v as int) % (FRAC_UNIT as int)) < pow10(FRAC_DIGITS as nat)) by {
        lemma_pow10_le_frac_unit(FRAC_DIGITS as nat);
        assert(pow10(12) == 1_000_000_000_000) by {
            reveal_with_fuel(pow10, 13);
        };
    };
    lemma_dec_value_of_pad(((v as int) % (FRAC_UNIT as int)) as nat, FRAC_DIGITS as nat);
    // the digits of either part never contain the point
    assert(piece_free(ipart, ('.' as u8))) by {
        assert(forall|i: int| 0 <= i < ipart.len() ==> is_digit(#[trigger] ipart[i]));
    };
    assert(piece_free(fpart, ('.' as u8))) by {
        assert(forall|i: int| 0 <= i < fpart.len() ==> is_digit(#[trigger] fpart[i]));
    };
    lemma_split_peel(ipart, fpart, ('.' as u8));
    lemma_split_free(fpart, ('.' as u8));
    assert(s =~= ipart + seq![('.' as u8)] + fpart);
    let ps = spec_split(s, ('.' as u8));
    assert(ps =~~= seq![ipart] + seq![fpart]);
    assert(ps.len() == 2);
    assert(ps[0] == ipart);
    assert(ps[1] == fpart);
    assert(fpart.len() == FRAC_DIGITS);
    vstd::arithmetic::mul::lemma_mul_is_commutative(FRAC_UNIT as int, v as int / (FRAC_UNIT as int));
    assert(pow10((FRAC_DIGITS - fpart.len()) as nat) == 1);
    assert(spec_parse_fixed(s) == Some(
        dec_value(ipart) * FRAC_UNIT + dec_value(fpart) * pow10((FRAC_DIGITS - fpart.len()) as nat),
    ));
    assert(dec_value(ipart) * FRAC_UNIT + dec_value(fpart) * 1 == v as int) by {
        assert(dec_value(ipart) == v as int / (FRAC_UNIT as int));
        assert(dec_value(fpart) == v as int % (FRAC_UNIT as int));
        assert(dec_value(fpart) * 1 == dec_value(fpart)) by {
            vstd::arithmetic::mul::lemma_mul_basics(dec_value(fpart));
        };
    };
}

} // verus!
