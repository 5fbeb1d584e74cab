//! Reading the mesh description: vertex lines and face lines.

use vstd::prelude::*;
use vstd::string::*;
use crate::geometry::Vertex;
use crate::mesh::{Face, MeshError, face_lists, faces_valid};

verus! {

/// The characters that separate fields: Unicode white space.
pub open spec fn is_space(c: char) -> bool {
    let u = c as u32;
    (9 <= u <= 13) || u == 32 || u == 0x85 || u == 0xa0 || u == 0x1680 || (0x2000 <= u <= 0x200a) || u == 0x2028
        || u == 0x2029 || u == 0x202f || u == 0x205f || u == 0x3000
}

fn space(c: char) -> (r: bool)
    ensures
        r == is_space(c),
{
    let u = c as u32;
    (9 <= u && u <= 13) || u == 32 || u == 0x85 || u == 0xa0 || u == 0x1680 || (0x2000 <= u && u <= 0x200a)
        || u == 0x2028 || u == 0x2029 || u == 0x202f || u == 0x205f || u == 0x3000
}

/// The fields of `s`: its maximal runs of non-space characters, in order.
pub open spec fn tokens(s: Seq<char>) -> Seq<Seq<char>>
    decreases s.len(),
{
    if s.len() == 0 {
        Seq::empty()
    } else {
        let p = tokens(s.drop_last());
        if is_space(s.last()) {
            p
        } else if s.len() >= 2 && !is_space(s[s.len() - 2]) {
            p.update(p.len() - 1, p.last().push(s.last()))
        } else {
            p.push(seq![s.last()])
        }
    }
}

/// The fields of a line.
pub fn split_fields<'a>(line: &'a str) -> (r: Vec<&'a str>)
    ensures
        r@.len() == tokens(line@).len(),
        forall|i: int| 0 <= i < r@.len() ==> (#[trigger] r@[i])@ == tokens(line@)[i],
{
    let n = line.unicode_len();
    let ghost s = line@;
    let mut out: Vec<&'a str> = Vec::new();
    let mut start: usize = 0;
    let mut in_word = false;
    let mut i: usize = 0;
    proof {
        assert(s.take(0) =~= Seq::<char>::empty());
    }
    while i < n
        invariant
            n == s.len(),
            s == line@,
            0 <= start <= i <= n,
            in_word ==> start < i && tokens(s.take(i as int)).len() == out@.len() + 1
                && tokens(s.take(i as int)).last() == s.subrange(start as int, i as int),
            in_word ==> !is_space(s[i - 1]),
            !in_word ==> tokens(s.take(i as int)).len() == out@.len(),
            !in_word && i > 0 ==> is_space(s[i - 1]),
            forall|k: int| 0 <= k < out@.len() ==> (#[trigger] out@[k])@ == tokens(s.take(i as int))[k],
        decreases n - i,
    {
        let c = line.get_char(i);
        let ghost t0 = s.take(i as int);
        let ghost t1 = s.take(i + 1);
        proof {
            assert(t1.drop_last() =~= t0);
            assert(t1.last() == c);
            if i > 0 {
                assert(t1[t1.len() - 2] == s[i - 1]);
            }
        }
        if space(c) {
            if in_word {
                let w = line.substring_char(start, i);
                out.push(w);
                in_word = false;
            }
        } else {
            if !in_word {
                start = i;
                in_word = true;
                proof {
                    assert(s.subrange(i as int, i + 1) =~= seq![c]);
                }
            } else {
                proof {
                    assert(s.subrange(start as int, i + 1) =~= s.subrange(start as int, i as int).push(c));
                }
            }
        }
        i += 1;
    }
    if in_word {
        let w = line.substring_char(start, n);
        out.push(w);
    }
    proof {
        assert(s.take(n as int) =~= s);
    }
    out
}

/// Value of a run of decimal digits.
pub open spec fn digits_value(d: Seq<char>) -> int
    decreases d.len(),
{
    if d.len() == 0 {
        0
    } else {
        10 * digits_value(d.drop_last()) + (d.last() as u32 - '0' as u32)
    }
}

pub open spec fn is_digit(c: char) -> bool {
    '0' as u32 <= c as u32 <= '9' as u32
}

pub open spec fn all_digits(d: Seq<char>) -> bool {
    forall|i: int| 0 <= i < d.len() ==> is_digit(#[trigger] d[i])
}

/// Position of the first `c` in `s`, or its length.
pub open spec fn find(s: Seq<char>, c: char) -> int
    decreases s.len(),
{
    if s.len() == 0 {
        0
    } else if s[0] == c {
        0
    } else {
        1 + find(s.drop_first(), c)
    }
}

/// The vertex number a face field names, counting from one: the digits before any
/// '/', after an optional '+'; `None` when they are no number or exceed a `usize`.
pub open spec fn index_of(t: Seq<char>) -> Option<int> {
    let p = t.take(find(t, '/'));
    let d = if p.len() > 0 && p[0] == '+' { p.drop_first() } else { p };
    if d.len() > 0 && all_digits(d) && digits_value(d) <= usize::MAX {
        Some(digits_value(d))
    } else {
        None
    }
}

proof fn lemma_find(s: Seq<char>, c: char)
    ensures
        0 <= find(s, c) <= s.len(),
        forall|i: int| 0 <= i < find(s, c) ==> s[i] != c,
        find(s, c) < s.len() ==> s[find(s, c)] == c,
    decreases s.len(),
{
    if s.len() > 0 && s[0] != c {
        lemma_find(s.drop_first(), c);
        assert forall|i: int| 0 <= i < find(s, c) implies s[i] != c by {
            if i > 0 {
                assert(s[i] == s.drop_first()[i - 1]);
            }
        }
    }
}

proof fn lemma_digits_grow(d: Seq<char>, i: int)
    requires
        0 <= i <= d.len(),
        all_digits(d),
    ensures
        digits_value(d) >= digits_value(d.take(i)),
        digits_value(d.take(i)) >= 0,
    decreases d.len() - i,
{
    if i < d.len() {
        lemma_digits_grow(d, i + 1);
        assert(d.take(i + 1).drop_last() =~= d.take(i));
        assert(d.take(i + 1).last() == d[i]);
        assert(is_digit(d[i]));
        assert(all_digits(d.take(i))) by {
            assert forall|k: int| 0 <= k < d.take(i).len() implies is_digit(#[trigger] d.take(i)[k]) by {
                assert(d.take(i)[k] == d[k]);
            }
        }
        lemma_digits_nonneg(d.take(i));
    } else {
        assert(d.take(i) =~= d);
        lemma_digits_nonneg(d);
    }
}

proof fn lemma_digits_nonneg(d: Seq<char>)
    requires
        all_digits(d),
    ensures
        digits_value(d) >= 0,
    decreases d.len(),
{
    if d.len() > 0 {
        assert(all_digits(d.drop_last())) by {
            assert forall|i: int| 0 <= i < d.drop_last().len() implies is_digit(#[trigger] d.drop_last()[i]) by {
                assert(d.drop_last()[i] == d[i]);
            }
        }
        lemma_digits_nonneg(d.drop_last());
        assert(is_digit(d[d.len() - 1]));
    }
}

/// The zero-based vertex a face field refers to, or why it cannot.
pub fn parse_index(t: &str) -> (r: Result<usize, MeshError>)
    ensures
        index_of(t@) is None ==> r == Err::<usize, MeshError>(MeshError::BadNumber),
        index_of(t@) == Some(0int) ==> r == Err::<usize, MeshError>(MeshError::BadIndex),
        forall|v: int| index_of(t@) == Some(v) && v > 0 ==> r == Ok::<usize, MeshError>((v - 1) as usize),
        r is Ok ==> index_of(t@) is Some && index_of(t@)->Some_0 > 0 && r->Ok_0 as int == index_of(t@)->Some_0 - 1,
        index_of(t@) is Some ==> index_of(t@)->Some_0 >= 0,
{
    let ghost s = t@;
    let n = t.unicode_len();
    let mut end: usize = 0;
    while end < n && t.get_char(end) != '/'
        invariant
            n == s.len(),
            s == t@,
            0 <= end <= n,
            forall|i: int| 0 <= i < end ==> s[i] != '/',
        decreases n - end,
    {
        end += 1;
    }
    proof {
        lemma_find(s, '/');
        assert(end == find(s, '/'));
    }
    let mut i: usize = 0;
    if end > 0 && t.get_char(0) == '+' {
        i = 1;
    }
    let ghost p = s.take(end as int);
    let ghost d = if p.len() > 0 && p[0] == '+' { p.drop_first() } else { p };
    proof {
        if all_digits(d) {
            lemma_digits_nonneg(d);
        }
        assert(d =~= s.subrange(i as int, end as int));
        assert(index_of(s) == (if d.len() > 0 && all_digits(d) && digits_value(d) <= usize::MAX {
            Some(digits_value(d))
        } else {
            None
        }));
    }
    if i >= end {
        return Err(MeshError::BadNumber);
    }
    let mut acc: u128 = 0;
    let mut j: usize = i;
    while j < end
        invariant
            s == t@,
            n == s.len(),
            0 <= i <= j <= end <= n,
            d =~= s.subrange(i as int, end as int),
            index_of(s) == (if d.len() > 0 && all_digits(d) && digits_value(d) <= usize::MAX {
                Some(digits_value(d))
            } else {
                None
            }),
            all_digits(s.subrange(i as int, j as int)),
            acc == digits_value(s.subrange(i as int, j as int)),
            acc <= usize::MAX,
        decreases end - j,
    {
        let c = t.get_char(j);
        let ghost pre = s.subrange(i as int, j as int);
        let ghost nxt = s.subrange(i as int, j + 1);
        proof {
            assert(nxt.drop_last() =~= pre);
            assert(nxt.last() == c);
        }
        if !('0' <= c && c <= '9') {
            proof {
                assert(d[j - i] == c);
                assert(!all_digits(d));
            }
            return Err(MeshError::BadNumber);
        }
        let v = 10 * acc + (c as u32 - '0' as u32) as u128;
        proof {
            assert(all_digits(nxt)) by {
                assert forall|k: int| 0 <= k < nxt.len() implies is_digit(#[trigger] nxt[k]) by {
                    if k < pre.len() {
                        assert(nxt[k] == pre[k]);
                    }
                }
            }
        }
        if v > usize::MAX as u128 {
            proof {
                if all_digits(d) {
                    assert(d.take(j + 1 - i) =~= nxt);
                    lemma_digits_grow(d, j + 1 - i);
                }
            }
            return Err(MeshError::BadNumber);
        }
        acc = v;
        j += 1;
    }
    proof {
        assert(s.subrange(i as int, end as int) =~= d);
    }
    if acc == 0 {
        return Err(MeshError::BadIndex);
    }
    proof {
        assert(d.len() > 0 && all_digits(d) && digits_value(d) <= usize::MAX);
    }
    Ok((acc - 1) as usize)
}

/// Largest mantissa, as an integer of all its digits, that a coordinate may have.
pub const MANTISSA_LIMIT: i128 = 1_000_000_000_000_000_000_000_000_000_000_000_000;

/// Largest magnitude of a coordinate read from a vertex line, in fixed point.
pub const READ_LIMIT: i128 = 0x4000_0000_0000_0000;

/// An exponent this large or larger decides the value without its exact size.
pub const EXPONENT_LIMIT: i128 = 0x40_0000_0000_0000_0000;

/// Ten to the power `n`.
pub open spec fn pow10(n: nat) -> int
    decreases n,
{
    if n == 0 {
        1
    } else {
        10 * pow10((n - 1) as nat)
    }
}

/// `dv` times ten to the power `k`, rounded toward zero.
pub open spec fn scaled(dv: int, k: int) -> int {
    if k >= 0 {
        dv * pow10(k as nat)
    } else {
        dv / pow10((-k) as nat)
    }
}

/// Position of the exponent mark, 'e' or 'E', in `r`, or its length.
pub open spec fn exp_mark(r: Seq<char>) -> int {
    let a = find(r, 'e');
    let b = find(r, 'E');
    if a <= b {
        a
    } else {
        b
    }
}

/// The parts of a decimal after its sign: integer digits, fraction digits, and
/// whether an exponent follows, with its sign and digits.
pub open spec fn decimal_parts(t: Seq<char>) -> (Seq<char>, Seq<char>, bool, bool, Seq<char>) {
    let r = if t.len() > 0 && (t[0] == '-' || t[0] == '+') { t.drop_first() } else { t };
    let e = exp_mark(r);
    let m = r.take(e);
    let dot = find(m, '.');
    let ip = m.take(dot);
    let fp = if dot < m.len() { m.skip(dot + 1) } else { Seq::empty() };
    let x = if e < r.len() { r.skip(e + 1) } else { Seq::empty() };
    let xneg = x.len() > 0 && x[0] == '-';
    let xd = if x.len() > 0 && (x[0] == '-' || x[0] == '+') { x.drop_first() } else { x };
    (ip, fp, e < r.len(), xneg, xd)
}

/// A coordinate in fixed point, truncated toward zero, from a decimal numeral with
/// optional sign, fraction and exponent; `None` when the text is no such numeral,
/// its digits exceed the mantissa limit, or its value exceeds the read limit.
pub open spec fn decimal_of(t: Seq<char>) -> Option<int> {
    let (ip, fp, has_exp, xneg, xd) = decimal_parts(t);
    let ev = if has_exp { if xneg { -digits_value(xd) } else { digits_value(xd) } } else { 0 };
    let ok = all_digits(ip) && all_digits(fp) && ip.len() + fp.len() > 0 && (has_exp ==> xd.len() > 0
        && all_digits(xd));
    let dv = digits_value(ip + fp);
    let mag = scaled(dv, 6 + ev - fp.len());
    if ok && dv < MANTISSA_LIMIT && mag <= READ_LIMIT {
        Some(if t.len() > 0 && t[0] == '-' { -mag } else { mag })
    } else {
        None
    }
}

proof fn lemma_pow10_grows(a: nat, b: nat)
    requires
        a <= b,
    ensures
        1 <= pow10(a) <= pow10(b),
    decreases b,
{
    if a < b {
        lemma_pow10_grows(a, (b - 1) as nat);
    } else if b > 0 {
        lemma_pow10_grows((b - 1) as nat, (b - 1) as nat);
    }
}

proof fn lemma_pow10_values()
    ensures
        pow10(19) == 10_000_000_000_000_000_000,
        pow10(36) == MANTISSA_LIMIT,
{
    reveal_with_fuel(pow10, 37);
}

fn pow10_exec(n: u32) -> (r: i128)
    requires
        n <= 36,
    ensures
        r == pow10(n as nat),
{
    let mut r: i128 = 1;
    let mut i: u32 = 0;
    while i < n
        invariant
            0 <= i <= n <= 36,
            r == pow10(i as nat),
        decreases n - i,
    {
        proof {
            lemma_pow10_grows(i as nat, 36);
            lemma_pow10_values();
        }
        r = r * 10;
        i += 1;
    }
    r
}

/// `s[from..to]` holds decimal digits only.
fn digits_only(t: &str, from: usize, to: usize) -> (r: bool)
    requires
        from <= to <= t@.len(),
    ensures
        r == all_digits(t@.subrange(from as int, to as int)),
{
    let mut i = from;
    while i < to
        invariant
            from <= i <= to <= t@.len(),
            forall|k: int| from <= k < i ==> is_digit(#[trigger] t@[k]),
        decreases to - i,
    {
        let u = t.get_char(i) as u32;
        if !(48 <= u && u <= 57) {
            assert(t@.subrange(from as int, to as int)[i - from] == t@[i as int]);
            return false;
        }
        i += 1;
    }
    assert forall|k: int| 0 <= k < to - from implies is_digit(#[trigger] t@.subrange(from as int, to as int)[k]) by {
        assert(t@.subrange(from as int, to as int)[k] == t@[from + k]);
    }
    true
}

/// Value of the digits `pre` followed by `t[from..to]`, or `None` once it reaches `cap`.
fn digits_run(t: &str, from: usize, to: usize, acc: i128, Ghost(pre): Ghost<Seq<char>>, cap: i128) -> (r: Option<i128>)
    requires
        from <= to <= t@.len(),
        all_digits(pre),
        all_digits(t@.subrange(from as int, to as int)),
        acc == digits_value(pre),
        0 <= acc < cap <= MANTISSA_LIMIT * 10,
    ensures
        digits_value(pre + t@.subrange(from as int, to as int)) < cap ==> r == Some(
            digits_value(pre + t@.subrange(from as int, to as int)) as i128,
        ),
        digits_value(pre + t@.subrange(from as int, to as int)) >= cap ==> r is None,
        digits_value(pre + t@.subrange(from as int, to as int)) >= 0,
{
    let ghost whole = pre + t@.subrange(from as int, to as int);
    let mut v = acc;
    let mut i = from;
    proof {
        assert(whole.take(pre.len() as int) =~= pre);
        assert(all_digits(whole)) by {
            assert forall|k: int| 0 <= k < whole.len() implies is_digit(#[trigger] whole[k]) by {
                if k >= pre.len() {
                    assert(whole[k] == t@.subrange(from as int, to as int)[k - pre.len()]);
                }
            }
        }
        lemma_digits_nonneg(whole);
    }
    while i < to
        invariant
            from <= i <= to <= t@.len(),
            whole == pre + t@.subrange(from as int, to as int),
            all_digits(whole),
            v == digits_value(whole.take(pre.len() + (i - from))),
            0 <= v < cap <= MANTISSA_LIMIT * 10,
        decreases to - i,
    {
        let ghost k = pre.len() + (i - from);
        let c = t.get_char(i);
        proof {
            assert(whole.take(k + 1).drop_last() =~= whole.take(k));
            assert(whole[k] == c);
            assert(whole.take(k + 1).last() == c);
            assert(is_digit(whole[k]));
        }
        let d = (c as u32 - 48) as i128;
        let n = v * 10 + d;
        if n >= cap {
            proof {
                lemma_digits_grow(whole, k + 1);
                assert(whole.take(whole.len() as int) =~= whole);
            }
            return None;
        }
        v = n;
        i += 1;
    }
    proof {
        assert(whole.take(pre.len() + (to - from)) =~= whole);
    }
    Some(v)
}

/// Position of the first `c` in `t[from..to]`, or `to`.
fn find_char(t: &str, from: usize, to: usize, c: char) -> (r: usize)
    requires
        from <= to <= t@.len(),
    ensures
        r == from + find(t@.subrange(from as int, to as int), c),
        from <= r <= to,
{
    let ghost sub = t@.subrange(from as int, to as int);
    proof {
        lemma_find(sub, c);
    }
    let mut i = from;
    while i < to && t.get_char(i) != c
        invariant
            from <= i <= to <= t@.len(),
            sub == t@.subrange(from as int, to as int),
            forall|k: int| from <= k < i ==> t@[k] != c,
            0 <= find(sub, c) <= sub.len(),
            forall|k: int| 0 <= k < find(sub, c) ==> sub[k] != c,
            find(sub, c) < sub.len() ==> sub[find(sub, c)] == c,
        decreases to - i,
    {
        i += 1;
    }
    proof {
        if i < to {
            assert(sub[i - from] == c);
            if find(sub, c) < i - from {
                assert(t@[from + find(sub, c)] == sub[find(sub, c)]);
            }
        } else {
            if find(sub, c) < sub.len() {
                assert(t@[from + find(sub, c)] == sub[find(sub, c)]);
            }
        }
    }
    i
}

/// `dv` scaled by ten to the power `6 + exponent - f`, where the exponent is `evd`,
/// negated when `xneg`, and `ev` is `evd` saturated at the exponent limit; `None`
/// beyond the read limit.
fn scale_value(dv: i128, xneg: bool, ev: i128, f: i128, Ghost(evd): Ghost<int>) -> (r: Option<i128>)
    requires
        0 <= dv < MANTISSA_LIMIT,
        0 <= f <= usize::MAX,
        evd >= 0,
        ev == (if evd < EXPONENT_LIMIT { evd } else { EXPONENT_LIMIT as int }),
    ensures
        scaled(dv as int, 6 + (if xneg { -evd } else { evd }) - f) <= READ_LIMIT ==> r == Some(
            scaled(dv as int, 6 + (if xneg { -evd } else { evd }) - f) as i128,
        ),
        scaled(dv as int, 6 + (if xneg { -evd } else { evd }) - f) > READ_LIMIT ==> r is None,
        scaled(dv as int, 6 + (if xneg { -evd } else { evd }) - f) >= 0,
{
    let ghost ki = 6 + (if xneg { -evd } else { evd }) - f;
    if dv == 0 {
        proof {
            if ki >= 0 {
                assert(dv * pow10(ki as nat) == 0) by (nonlinear_arith)
                    requires
                        dv == 0,
                ;
            } else {
                lemma_pow10_grows(0, (-ki) as nat);
                vstd::arithmetic::div_mod::lemma_basic_div(0, pow10((-ki) as nat));
            }
        }
        return Some(0);
    }
    let k: i128 = 6 + (if xneg { -ev } else { ev }) - f;
    proof {
        if ev == EXPONENT_LIMIT {
            if xneg {
                assert(k < -36 && ki < -36);
            } else {
                assert(k > 18 && ki > 18);
            }
        } else {
            assert(k == ki);
        }
    }
    if k > 18 {
        proof {
            lemma_pow10_grows(19, ki as nat);
            lemma_pow10_values();
            assert(dv * pow10(ki as nat) >= pow10(ki as nat)) by (nonlinear_arith)
                requires
                    dv >= 1,
                    pow10(ki as nat) >= 1,
            ;
        }
        None
    } else if k >= 0 {
        proof {
            lemma_pow10_grows(0, ki as nat);
            assert(dv * pow10(ki as nat) >= dv) by (nonlinear_arith)
                requires
                    dv >= 1,
                    pow10(ki as nat) >= 1,
            ;
        }
        if dv > READ_LIMIT {
            return None;
        }
        let p = pow10_exec(k as u32);
        proof {
            lemma_pow10_grows(ki as nat, 19);
            lemma_pow10_values();
            assert(dv * p <= READ_LIMIT * 10_000_000_000_000_000_000) by (nonlinear_arith)
                requires
                    0 <= dv <= READ_LIMIT,
                    0 < p <= 10_000_000_000_000_000_000,
            ;
        }
        let m = dv * p;
        if m > READ_LIMIT {
            None
        } else {
            Some(m)
        }
    } else if k < -36 {
        proof {
            lemma_pow10_grows(36, (-ki) as nat);
            lemma_pow10_values();
            vstd::arithmetic::div_mod::lemma_basic_div(dv as int, pow10((-ki) as nat));
        }
        Some(0)
    } else {
        let p = pow10_exec((-k) as u32);
        proof {
            lemma_pow10_grows(0, (-ki) as nat);
            vstd::arithmetic::div_mod::lemma_div_is_ordered_by_denominator(dv as int, 1, p as int);
            vstd::arithmetic::div_mod::lemma_div_pos_is_pos(dv as int, p as int);
        }
        let m = dv / p;
        if m > READ_LIMIT {
            None
        } else {
            Some(m)
        }
    }
}

proof fn lemma_decimal_parts(s: Seq<char>, start: int, e: int, dot: int, fstart: int, xneg: bool, xstart: int)
    requires
        start == (if s.len() > 0 && (s[0] == '-' || s[0] == '+') { 1int } else { 0int }),
        e == (if find(s.subrange(start, s.len() as int), 'e') <= find(s.subrange(start, s.len() as int), 'E') {
            start + find(s.subrange(start, s.len() as int), 'e')
        } else {
            start + find(s.subrange(start, s.len() as int), 'E')
        }),
        start <= e <= s.len(),
        dot == start + find(s.subrange(start, e), '.'),
        start <= dot <= e,
        fstart == (if dot < e { dot + 1 } else { e }),
        xneg == (e < s.len() && e + 1 < s.len() && s[e + 1] == '-'),
        xstart == (if e < s.len() && e + 1 < s.len() && (s[e + 1] == '-' || s[e + 1] == '+') {
            e + 2
        } else if e < s.len() {
            e + 1
        } else {
            s.len() as int
        }),
    ensures
        decimal_parts(s).0 == s.subrange(start, dot),
        decimal_parts(s).1 == s.subrange(fstart, e),
        decimal_parts(s).2 == (e < s.len()),
        decimal_parts(s).3 == xneg,
        decimal_parts(s).4 == s.subrange(xstart, s.len() as int),
{
    let n = s.len() as int;
    let r = if s.len() > 0 && (s[0] == '-' || s[0] == '+') { s.drop_first() } else { s };
    assert(r =~= s.subrange(start, n));
    assert(exp_mark(r) == e - start);
    let m = r.take(e - start);
    assert(m =~= s.subrange(start, e));
    assert(find(m, '.') == dot - start);
    assert(decimal_parts(s).0 =~= s.subrange(start, dot));
    assert(decimal_parts(s).1 =~= s.subrange(fstart, e));
    if e < n {
        let x = r.skip(e - start + 1);
        assert(x =~= s.subrange(e + 1, n));
        if e + 1 < n {
            assert(x[0] == s[e + 1]);
        }
    }
    assert(decimal_parts(s).4 =~= s.subrange(xstart, n));
}

/// Value of the integer digits `t[start..dot]` followed by the fraction digits
/// `t[fstart..e]`, or `None` at the mantissa limit.
fn mantissa_value(t: &str, start: usize, dot: usize, fstart: usize, e: usize) -> (r: Option<i128>)
    requires
        start <= dot <= fstart <= e <= t@.len(),
        all_digits(t@.subrange(start as int, dot as int)),
        all_digits(t@.subrange(fstart as int, e as int)),
    ensures
        ({
            let dv = digits_value(t@.subrange(start as int, dot as int) + t@.subrange(fstart as int, e as int));
            &&& dv >= 0
            &&& dv < MANTISSA_LIMIT ==> r == Some(dv as i128)
            &&& dv >= MANTISSA_LIMIT ==> r is None
        }),
{
    let ghost ip = t@.subrange(start as int, dot as int);
    let ghost fp = t@.subrange(fstart as int, e as int);
    proof {
        assert(Seq::<char>::empty() + ip =~= ip);
        assert(all_digits(Seq::<char>::empty()));
        lemma_digits_nonneg(ip);
        assert(all_digits(ip + fp)) by {
            assert forall|k: int| 0 <= k < (ip + fp).len() implies is_digit(#[trigger] (ip + fp)[k]) by {
                if k < ip.len() {
                    assert((ip + fp)[k] == ip[k]);
                } else {
                    assert((ip + fp)[k] == fp[k - ip.len()]);
                }
            }
        }
        lemma_digits_nonneg(ip + fp);
    }
    match digits_run(t, start, dot, 0, Ghost(Seq::<char>::empty()), MANTISSA_LIMIT) {
        None => {
            proof {
                lemma_digits_grow(ip + fp, ip.len() as int);
                assert((ip + fp).take(ip.len() as int) =~= ip);
            }
            None
        },
        Some(v1) => digits_run(t, fstart, e, v1, Ghost(ip), MANTISSA_LIMIT),
    }
}

/// Value of the exponent digits `t[from..to]`, saturated at the exponent limit.
fn exponent_value(t: &str, from: usize, to: usize) -> (r: i128)
    requires
        from <= to <= t@.len(),
        all_digits(t@.subrange(from as int, to as int)),
    ensures
        digits_value(t@.subrange(from as int, to as int)) >= 0,
        r == (if digits_value(t@.subrange(from as int, to as int)) < EXPONENT_LIMIT {
            digits_value(t@.subrange(from as int, to as int))
        } else {
            EXPONENT_LIMIT as int
        }),
{
    proof {
        assert(Seq::<char>::empty() + t@.subrange(from as int, to as int) =~= t@.subrange(from as int, to as int));
    }
    match digits_run(t, from, to, 0, Ghost(Seq::<char>::empty()), EXPONENT_LIMIT) {
        Some(v) => v,
        None => EXPONENT_LIMIT,
    }
}

/// A coordinate field read as a fixed-point number.
#[verifier::rlimit(100)]
pub fn parse_decimal(t: &str) -> (r: Option<i64>)
    ensures
        r is None <==> decimal_of(t@) is None,
        forall|v: i64| r == Some(v) ==> decimal_of(t@) == Some(v as int),
{
    let ghost s = t@;
    let n = t.unicode_len();
    let first = if n > 0 { t.get_char(0) } else { ' ' };
    let start: usize = if n > 0 && (first == '-' || first == '+') { 1 } else { 0 };
    let ea = find_char(t, start, n, 'e');
    let eb = find_char(t, start, n, 'E');
    let e = if ea <= eb { ea } else { eb };
    let dot = find_char(t, start, e, '.');
    let fstart = if dot < e { dot + 1 } else { e };
    let has_exp = e < n;
    let xneg = has_exp && e + 1 < n && t.get_char(e + 1) == '-';
    let xstart = if has_exp && e + 1 < n && (t.get_char(e + 1) == '-' || t.get_char(e + 1) == '+') {
        e + 2
    } else if has_exp {
        e + 1
    } else {
        n
    };
    let ghost parts = decimal_parts(s);
    proof {
        lemma_decimal_parts(s, start as int, e as int, dot as int, fstart as int, xneg, xstart as int);
    }
    if !digits_only(t, start, dot) || !digits_only(t, fstart, e) {
        return None;
    }
    if dot - start + (e - fstart) == 0 {
        return None;
    }
    if has_exp && (xstart >= n || !digits_only(t, xstart, n)) {
        return None;
    }
    let dv = match mantissa_value(t, start, dot, fstart, e) {
        None => {
            return None;
        },
        Some(v) => v,
    };
    let ev: i128 = if has_exp {
        exponent_value(t, xstart, n)
    } else {
        0
    };
    let ghost evd: int = if has_exp { digits_value(parts.4) } else { 0 };
    let mag = match scale_value(dv, xneg, ev, (e - fstart) as i128, Ghost(evd)) {
        None => {
            return None;
        },
        Some(m) => m,
    };
    if mag > READ_LIMIT {
        return None;
    }
    let v = mag as i64;
    if n > 0 && first == '-' {
        Some(-v)
    } else {
        Some(v)
    }
}

/// The line begins with the marker `c` and a space.
pub open spec fn is_tagged(l: Seq<char>, c: char) -> bool {
    l.len() >= 2 && l[0] == c && l[1] == ' '
}

/// The vertex a vertex line's fields give: its first three coordinates.
pub open spec fn vertex_line(toks: Seq<Seq<char>>) -> Result<Vertex, MeshError> {
    if toks.len() < 4 {
        Err(MeshError::BadNumber)
    } else {
        match (decimal_of(toks[1]), decimal_of(toks[2]), decimal_of(toks[3])) {
            (Some(x), Some(y), Some(z)) => Ok(Vertex { x: x as i64, y: y as i64, z: z as i64 }),
            _ => Err(MeshError::BadNumber),
        }
    }
}

/// The zero-based vertex indices that a face line's reference fields give; the first bad field decides the error.
pub open spec fn face_refs(toks: Seq<Seq<char>>) -> Result<Seq<usize>, MeshError>
    decreases toks.len(),
{
    if toks.len() == 0 {
        Ok(Seq::empty())
    } else {
        match face_refs(toks.drop_last()) {
            Err(e) => Err(e),
            Ok(p) => match index_of(toks.last()) {
                None => Err(MeshError::BadNumber),
                Some(v) => if v == 0 {
                    Err(MeshError::BadIndex)
                } else {
                    Ok(p.push((v - 1) as usize))
                },
            },
        }
    }
}

/// The fields after the first.
pub open spec fn rest(toks: Seq<Seq<char>>) -> Seq<Seq<char>> {
    if toks.len() == 0 {
        toks
    } else {
        toks.drop_first()
    }
}

/// The vertices and faces of the lines, in order; the first bad line decides the error.
pub open spec fn read_lines(ls: Seq<Seq<char>>) -> Result<(Seq<Vertex>, Seq<Seq<usize>>), MeshError>
    decreases ls.len(),
{
    if ls.len() == 0 {
        Ok((Seq::empty(), Seq::empty()))
    } else {
        match read_lines(ls.drop_last()) {
            Err(e) => Err(e),
            Ok((vs, fs)) => {
                let l = ls.last();
                if is_tagged(l, 'v') {
                    match vertex_line(tokens(l)) {
                        Ok(v) => Ok((vs.push(v), fs)),
                        Err(e) => Err(e),
                    }
                } else if is_tagged(l, 'f') {
                    match face_refs(rest(tokens(l))) {
                        Ok(f) => Ok((vs, fs.push(f))),
                        Err(e) => Err(e),
                    }
                } else {
                    Ok((vs, fs))
                }
            },
        }
    }
}

/// The mesh the lines describe, refused when a face names a vertex that does not exist.
pub open spec fn obj_of(ls: Seq<Seq<char>>) -> Result<(Seq<Vertex>, Seq<Seq<usize>>), MeshError> {
    match read_lines(ls) {
        Err(e) => Err(e),
        Ok((vs, fs)) => if faces_valid(vs.len() as int, fs) {
            Ok((vs, fs))
        } else {
            Err(MeshError::BadIndex)
        },
    }
}

/// The vertex of a vertex line.
pub fn parse_vertex_line(line: &str) -> (r: Result<Vertex, MeshError>)
    ensures
        r == vertex_line(tokens(line@)),
{
    let f = split_fields(line);
    if f.len() < 4 {
        return Err(MeshError::BadNumber);
    }
    let x = parse_decimal(f[1]);
    let y = parse_decimal(f[2]);
    let z = parse_decimal(f[3]);
    match (x, y, z) {
        (Some(x), Some(y), Some(z)) => Ok(Vertex { x, y, z }),
        _ => Err(MeshError::BadNumber),
    }
}

/// The vertex indices of a face line.
pub fn parse_face_line(line: &str) -> (r: Result<Vec<usize>, MeshError>)
    ensures
        match r {
            Ok(v) => face_refs(rest(tokens(line@))) == Ok::<Seq<usize>, MeshError>(v@),
            Err(e) => face_refs(rest(tokens(line@))) == Err::<Seq<usize>, MeshError>(e),
        },
{
    let f = split_fields(line);
    let ghost toks = rest(tokens(line@));
    let mut out: Vec<usize> = Vec::new();
    if f.len() == 0 {
        proof {
            assert(toks =~= Seq::<Seq<char>>::empty());
        }
        return Ok(out);
    }
    let mut k: usize = 1;
    proof {
        assert(toks.take(0) =~= Seq::<Seq<char>>::empty());
    }
    while k < f.len()
        invariant
            1 <= k <= f@.len(),
            f@.len() == tokens(line@).len(),
            toks == tokens(line@).drop_first(),
            toks == rest(tokens(line@)),
            forall|i: int| 0 <= i < f@.len() ==> (#[trigger] f@[i])@ == tokens(line@)[i],
            face_refs(toks.take(k - 1)) == Ok::<Seq<usize>, MeshError>(out@),
        decreases f@.len() - k,
    {
        let ghost pre = toks.take(k - 1);
        proof {
            assert(toks.take(k as int).drop_last() =~= pre);
            assert(toks.take(k as int).last() == f@[k as int]@);
        }
        match parse_index(f[k]) {
            Err(e) => {
                proof {
                    assert(toks.take(k as int).last() == toks[k - 1]);
                    assert(toks[k - 1] == f@[k as int]@);
                    assert(face_refs(toks.take(k as int)) == Err::<Seq<usize>, MeshError>(e));
                    lemma_face_refs_err(toks, k as int);
                }
                return Err(e);
            },
            Ok(v) => {
                let ghost before = out@;
                out.push(v);
                proof {
                    assert(toks.take(k as int).last() == toks[k - 1]);
                    assert(toks[k - 1] == f@[k as int]@);
                    assert(face_refs(toks.take(k as int)) == Ok::<Seq<usize>, MeshError>(before.push(v)));
                }
            },
        }
        k += 1;
    }
    proof {
        assert(toks.take(k - 1) =~= toks);
    }
    Ok(out)
}

proof fn lemma_face_refs_err(toks: Seq<Seq<char>>, k: int)
    requires
        1 <= k <= toks.len(),
        face_refs(toks.take(k)) is Err,
    ensures
        face_refs(toks) == face_refs(toks.take(k)),
    decreases toks.len() - k,
{
    if k < toks.len() {
        assert(toks.take(k + 1).drop_last() =~= toks.take(k));
        lemma_face_refs_err(toks, k + 1);
    } else {
        assert(toks.take(k) =~= toks);
    }
}

proof fn lemma_read_lines_err(ls: Seq<Seq<char>>, k: int)
    requires
        0 <= k <= ls.len(),
        read_lines(ls.take(k)) is Err,
    ensures
        read_lines(ls) == read_lines(ls.take(k)),
    decreases ls.len() - k,
{
    if k < ls.len() {
        assert(ls.take(k + 1).drop_last() =~= ls.take(k));
        lemma_read_lines_err(ls, k + 1);
    } else {
        assert(ls.take(k) =~= ls);
    }
}

/// The text of each line.
pub open spec fn texts(lines: Seq<String>) -> Seq<Seq<char>> {
    lines.map_values(|l: String| l@)
}

/// The mesh described by the lines of a mesh file: vertex lines ("v x y z") and face
/// lines ("f a b c ...", each reference counting from one, with any "/..." suffix ignored).
pub fn parse_obj(lines: &Vec<String>) -> (r: Result<(Vec<Vertex>, Vec<Face>), MeshError>)
    ensures
        match r {
            Ok((vs, fs)) => obj_of(texts(lines@)) == Ok::<(Seq<Vertex>, Seq<Seq<usize>>), MeshError>(
                (vs@, face_lists(fs@)),
            ),
            Err(e) => obj_of(texts(lines@)) == Err::<(Seq<Vertex>, Seq<Seq<usize>>), MeshError>(e),
        },
{
    let ghost ls = texts(lines@);
    let mut vs: Vec<Vertex> = Vec::new();
    let mut fs: Vec<Face> = Vec::new();
    let mut k: usize = 0;
    proof {
        assert(ls.take(0) =~= Seq::<Seq<char>>::empty());
        assert(face_lists(fs@) =~= Seq::<Seq<usize>>::empty());
    }
    while k < lines.len()
        invariant
            ls == texts(lines@),
            0 <= k <= lines@.len(),
            read_lines(ls.take(k as int)) == Ok::<(Seq<Vertex>, Seq<Seq<usize>>), MeshError>(
                (vs@, face_lists(fs@)),
            ),
        decreases lines@.len() - k,
    {
        let line = lines[k].as_str();
        proof {
            assert(ls.take(k + 1).drop_last() =~= ls.take(k as int));
            assert(ls.take(k + 1).last() == line@);
        }
        let n = line.unicode_len();
        let tag_v = n >= 2 && line.get_char(0) == 'v' && line.get_char(1) == ' ';
        let tag_f = n >= 2 && line.get_char(0) == 'f' && line.get_char(1) == ' ';
        if tag_v {
            match parse_vertex_line(line) {
                Ok(v) => {
                    vs.push(v);
                },
                Err(e) => {
                    proof {
                        lemma_read_lines_err(ls, k + 1);
                    }
                    return Err(e);
                },
            }
        } else if tag_f {
            match parse_face_line(line) {
                Ok(f) => {
                    let ghost old_fs = face_lists(fs@);
                    fs.push(Face { vertices: f });
                    proof {
                        assert(face_lists(fs@) =~= old_fs.push(f@));
                    }
                },
                Err(e) => {
                    proof {
                        lemma_read_lines_err(ls, k + 1);
                    }
                    return Err(e);
                },
            }
        }
        k += 1;
    }
    proof {
        assert(ls.take(lines@.len() as int) =~= ls);
    }
    let nv = vs.len();
    let mut i: usize = 0;
    while i < fs.len()
        invariant
            ls == texts(lines@),
            read_lines(ls) == Ok::<(Seq<Vertex>, Seq<Seq<usize>>), MeshError>((vs@, face_lists(fs@))),
            nv == vs@.len(),
            0 <= i <= fs@.len(),
            forall|a: int, b: int| 0 <= a < i && 0 <= b < face_lists(fs@)[a].len() ==> #[trigger] face_lists(fs@)[a][b] < nv,
        decreases fs@.len() - i,
    {
        let mut j: usize = 0;
        while j < fs[i].vertices.len()
            invariant
                ls == texts(lines@),
                read_lines(ls) == Ok::<(Seq<Vertex>, Seq<Seq<usize>>), MeshError>((vs@, face_lists(fs@))),
                nv == vs@.len(),
                0 <= i < fs@.len(),
                0 <= j <= fs@[i as int].vertices@.len(),
                forall|a: int, b: int| 0 <= a < i && 0 <= b < face_lists(fs@)[a].len() ==> #[trigger] face_lists(fs@)[a][b] < nv,
                forall|b: int| 0 <= b < j ==> #[trigger] fs@[i as int].vertices@[b] < nv,
            decreases fs@[i as int].vertices@.len() - j,
        {
            if fs[i].vertices[j] >= nv {
                proof {
                    assert(face_lists(fs@)[i as int][j as int] >= nv);
                }
                return Err(MeshError::BadIndex);
            }
            j += 1;
        }
        proof {
            assert forall|a: int, b: int| 0 <= a < i + 1 && 0 <= b < face_lists(fs@)[a].len() implies #[trigger] face_lists(fs@)[a][b] < nv by {
                if a == i {
                    assert(face_lists(fs@)[a] == fs@[i as int].vertices@);
                }
            }
        }
        i += 1;
    }
    Ok((vs, fs))
}

} // verus!
