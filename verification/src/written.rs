//! That what is written reads back: numbers as text, and text as numbers.
use crate::detector;
use crate::double::Datum;
use crate::exact;
use crate::ladder;
use crate::meaning;
use crate::readings;
use crate::render;
use crate::text;
use crate::types;
use crate::types::{HardwareProfile, RawMeasurement};
use vstd::arithmetic::power::*;
use vstd::arithmetic::power2::*;
use vstd::prelude::*;

verus! {

/// A numeral is the digit that it stands for.
proof fn lemma_numeral(d: nat)
    requires
        d < 10,
    ensures
        readings::is_digit(text::numeral(d)),
        text::numeral(d) as u32 - '0' as u32 == d,
{
}

/// One more digit.
proof fn lemma_digits_push(t: Seq<char>, c: char)
    ensures
        readings::digits_value(t.push(c)) == 10 * readings::digits_value(t) + (c as u32
            - '0' as u32) as nat,
        readings::all_digits(t) && readings::is_digit(c) ==> readings::all_digits(t.push(c)),
{
    assert(t.push(c).drop_last() =~= t);
    if readings::all_digits(t) && readings::is_digit(c) {
        assert forall|i: int| 0 <= i < t.push(c).len() implies readings::is_digit(
            #[trigger] t.push(c)[i],
        ) by {
            if i < t.len() {
                assert(readings::is_digit(t[i]));
            }
        }
    }
}

/// A number in decimal is made of digits, reads back as the number, and has no leading
/// zero but for zero itself.
pub proof fn lemma_decimal_reads_back(n: nat)
    ensures
        text::decimal(n).len() >= 1,
        readings::all_digits(text::decimal(n)),
        readings::digits_value(text::decimal(n)) == n,
        text::decimal(n)[0] == '0' ==> n == 0 && text::decimal(n).len() == 1,
    decreases n,
{
    lemma_numeral(n % 10);
    if n < 10 {
        let t = seq![text::numeral(n)];
        assert(t =~= Seq::<char>::empty().push(text::numeral(n)));
        lemma_digits_push(Seq::empty(), text::numeral(n));
        assert(readings::digits_value(Seq::<char>::empty()) == 0);
    } else {
        lemma_decimal_reads_back(n / 10);
        lemma_digits_push(text::decimal(n / 10), text::numeral(n % 10));
        assert(text::decimal(n)[0] == text::decimal(n / 10)[0]);
    }
}

/// The last digits of a number are as many as asked for, and read back as its remainder.
pub proof fn lemma_decimal_tail_reads_back(n: nat, width: nat)
    ensures
        text::decimal_tail(n, width).len() == width,
        readings::all_digits(text::decimal_tail(n, width)),
        render::ten_to(width) > 0,
        readings::digits_value(text::decimal_tail(n, width)) == n % render::ten_to(width),
    decreases width,
{
    if width > 0 {
        let w = (width - 1) as nat;
        lemma_decimal_tail_reads_back(n / 10, w);
        lemma_numeral(n % 10);
        lemma_digits_push(text::decimal_tail(n / 10, w), text::numeral(n % 10));
        let t = render::ten_to(w);
        let q = (n / 10) / t;
        let r = (n / 10) % t;
        vstd::arithmetic::div_mod::lemma_fundamental_div_mod((n / 10) as int, t as int);
        assert(n == q * (10 * t) + (10 * r + n % 10)) by (nonlinear_arith)
            requires
                n / 10 == t * q + r,
                n == 10 * (n / 10) + n % 10,
        ;
        assert(r < t) by (nonlinear_arith)
            requires
                r == (n / 10) % t,
                t > 0,
        ;
        vstd::arithmetic::div_mod::lemma_fundamental_div_mod_converse(
            n as int,
            (10 * t) as int,
            q as int,
            (10 * r + n % 10) as int,
        );
    } else {
        assert(n % 1 == 0);
    }
}

/// Text that shows a number with so many digits after the point, which is `t` if the
/// point is left out: a minus where it is negative, and no leading zeros.
pub open spec fn shows(s: Seq<char>, negative: bool, t: nat, places: nat) -> bool {
    exists|a: Seq<char>, b: Seq<char>|
        {
            &&& s == (if negative {
                seq!['-']
            } else {
                Seq::<char>::empty()
            }) + a + seq!['.'] + b
            &&& a.len() >= 1
            &&& (a[0] == '0' ==> a.len() == 1)
            &&& #[trigger] readings::all_digits(a)
            &&& b.len() == places
            &&& #[trigger] readings::all_digits(b)
            &&& readings::digits_value(a) * render::ten_to(places) + readings::digits_value(b) == t
        }
}

/// Ten to a power, as a number.
pub open spec fn tens(places: nat) -> real {
    render::ten_to(places) as real
}

/// A rendered number shows the number, sign included, to the nearest digit.
pub proof fn lemma_fixed_shows_the_number(x: Datum, places: nat) -> (t: nat)
    requires
        x.finite(),
    ensures
        shows(render::fixed(x, places), x->negative, t, places),
        2 as real * exact::size(
            t as real - exact::size(exact::value(x)) * tens(places),
        ) <= 1 as real,
{
    let rung = x->rung;
    let ten = render::ten_to(places);
    let one = ladder::one();
    let n = ladder::mag(rung) * ten;
    let t = render::half_even(n, one);
    lemma_pow2_pos(1074);
    reveal_strlit("-");
    reveal_strlit(".");
    lemma_decimal_tail_reads_back(t, places);
    lemma_decimal_reads_back(t / ten);
    let a = text::decimal(t / ten);
    let b = text::decimal_tail(t, places);
    vstd::arithmetic::div_mod::lemma_fundamental_div_mod(t as int, ten as int);
    assert((t / ten) * ten == ten * (t / ten)) by (nonlinear_arith);
    let sign = if x->negative {
        seq!['-']
    } else {
        Seq::<char>::empty()
    };
    assert("-"@ =~= seq!['-']);
    assert("."@ =~= seq!['.']);
    assert(render::fixed(x, places) =~= sign + a + seq!['.'] + b);
    assert(readings::all_digits(a) && readings::all_digits(b));
    // To the nearest.
    let q = n / one;
    let r = n % one;
    assert(n == q * one + r && r < one) by (nonlinear_arith)
        requires
            q == n / one,
            r == n % one,
            one > 0,
    ;
    assert((q + 1) * one == q * one + one) by (nonlinear_arith);
    let gap = if t * one <= n {
        n - t * one
    } else {
        t * one - n
    };
    assert(2 * gap <= one);
    exact::lemma_units(x);
    exact::lemma_units(x.absolute());
    let o = one as real;
    let v = exact::size(exact::value(x));
    let k = tens(places);
    assert(n as real == (v * k) * o) by (nonlinear_arith)
        requires
            n == ladder::mag(rung) * ten,
            ladder::mag(rung) as real == v * o,
            ten as real == k,
    {
        assert((ladder::mag(rung) * ten) as real == (ladder::mag(rung) as real) * (ten as real));
        assert((v * o) * k == (v * k) * o);
    }
    assert((t * one) as real == (t as real) * o) by (nonlinear_arith)
        requires
            one as real == o,
    ;
    let e = exact::size(t as real - v * k);
    assert(gap as real == exact::size((t as real) * o - (v * k) * o));
    assert(gap as real == e * o) by (nonlinear_arith)
        requires
            gap as real == exact::size((t as real) * o - (v * k) * o),
            e == exact::size(t as real - v * k),
            o > 0 as real,
    {
        assert((t as real) * o - (v * k) * o == (t as real - v * k) * o);
    }
    assert(2 as real * e <= 1 as real) by (nonlinear_arith)
        requires
            2 as real * (e * o) <= o,
            o > 0 as real,
    ;
    t
}

/// Padding is spaces, as many as a text lacks of a width.
pub proof fn lemma_spaces(n: nat)
    ensures
        text::spaces(n).len() == n,
        forall|i: int| 0 <= i < n ==> #[trigger] text::spaces(n)[i] == ' ',
    decreases n,
{
    if n > 0 {
        lemma_spaces((n - 1) as nat);
    }
}

/// A text in a column takes at least the width of the column: the text itself, at its
/// side, and spaces.
pub proof fn lemma_columns(s: Seq<char>, width: nat)
    ensures
        ({
            let (l, r) = (text::at_left(s, width), text::at_right(s, width));
            let n = if s.len() < width {
                width
            } else {
                s.len()
            };
            &&& l.len() == n
            &&& r.len() == n
            &&& l.take(s.len() as int) == s
            &&& r.skip(n - s.len()) == s
            &&& forall|i: int| s.len() <= i < n ==> #[trigger] l[i] == ' '
            &&& forall|i: int| 0 <= i < n - s.len() ==> #[trigger] r[i] == ' '
        }),
{
    let (l, r) = (text::at_left(s, width), text::at_right(s, width));
    let k: nat = if s.len() < width {
        (width - s.len()) as nat
    } else {
        0
    };
    lemma_spaces(k);
    assert(text::padding(s, width) =~= text::spaces(k));
    assert(l.take(s.len() as int) =~= s);
    assert(r.skip(k as int) =~= s);
    assert forall|i: int| s.len() <= i < l.len() implies #[trigger] l[i] == ' ' by {
        assert(l[i] == text::spaces(k)[i - s.len()]);
    }
    assert forall|i: int| 0 <= i < k implies #[trigger] r[i] == ' ' by {
        assert(r[i] == text::spaces(k)[i]);
    }
}

/// A whole number in decimal, with or without a sign, is read as the number, as far as
/// `i64` goes; and so is any text of digits.
pub proof fn lemma_integer_reads_decimal(n: nat)
    ensures
        readings::integer(text::decimal(n)) == if n <= i64::MAX {
            Some(n as int)
        } else {
            None
        },
        readings::integer(seq!['+'] + text::decimal(n)) == if n <= i64::MAX {
            Some(n as int)
        } else {
            None
        },
        readings::integer(seq!['-'] + text::decimal(n)) == if -n >= i64::MIN {
            Some(-n as int)
        } else {
            None
        },
{
    lemma_decimal_reads_back(n);
    let t = text::decimal(n);
    assert(readings::is_digit(t[0]));
    assert((seq!['+'] + t).drop_first() =~= t);
    assert((seq!['-'] + t).drop_first() =~= t);
}

/// What is read as a whole number is nothing but digits after an optional sign.
pub proof fn lemma_integer_needs_digits(t: Seq<char>, i: int)
    requires
        0 <= i < t.len(),
        (t[i] as u32) < '0' as u32 || t[i] as u32 > '9' as u32,
        i > 0 || (t[0] != '+' && t[0] != '-') || t.len() == 1,
    ensures
        readings::integer(t) is None,
{
    let digits = if t[0] == '-' || t[0] == '+' {
        t.drop_first()
    } else {
        t
    };
    assert(!readings::is_digit(t[i]));
    if t[0] == '-' || t[0] == '+' {
        if t.len() > 1 {
            assert(digits[i - 1] == t[i]);
            assert(!readings::all_digits(digits));
        } else {
            assert(digits.len() == 0);
        }
    } else {
        assert(digits[i] == t[i]);
        assert(!readings::all_digits(digits));
    }
}

/// White space among the ASCII characters: tab to carriage return, and space.
pub proof fn lemma_white(c: char)
    requires
        (c as u32) < 0x80,
    ensures
        readings::is_white(c) <==> c == ' ' || c == '\t' || c == '\n' || c == '\r' || c as u32 == 0xB
            || c as u32 == 0xC,
{
}

proof fn lemma_trimmed_start(t: Seq<char>, from: int, to: int)
    requires
        from <= to,
    ensures
        ({
            let a = readings::trimmed_start(t, from, to);
            &&& from <= a <= to
            &&& forall|k: int| from <= k < a ==> #[trigger] readings::is_white(t[k])
            &&& a < to ==> !readings::is_white(t[a])
        }),
    decreases to - from,
{
    if from < to && readings::is_white(t[from]) {
        lemma_trimmed_start(t, from + 1, to);
    }
}

proof fn lemma_trimmed_end(t: Seq<char>, from: int, to: int)
    requires
        from <= to,
    ensures
        ({
            let b = readings::trimmed_end(t, from, to);
            &&& from <= b <= to
            &&& forall|k: int| b <= k < to ==> #[trigger] readings::is_white(t[k])
            &&& from < b ==> !readings::is_white(t[b - 1])
        }),
    decreases to - from,
{
    if from < to && readings::is_white(t[to - 1]) {
        lemma_trimmed_end(t, from, to - 1);
    }
}

/// Trimming takes white space from both ends, all of it, and nothing else.
pub proof fn lemma_trimmed(t: Seq<char>, from: int, to: int) -> (r: (int, int))
    requires
        0 <= from <= to <= t.len(),
    ensures
        ({
            let (a, b) = r;
            &&& from <= a <= b <= to
            &&& readings::trimmed(t, from, to) == t.subrange(a, b)
            &&& forall|k: int| from <= k < a || b <= k < to ==> #[trigger] readings::is_white(t[k])
            &&& a < b ==> !readings::is_white(t[a]) && !readings::is_white(t[b - 1])
        }),
{
    lemma_trimmed_start(t, from, to);
    let a = readings::trimmed_start(t, from, to);
    lemma_trimmed_end(t, a, to);
    let b = readings::trimmed_end(t, a, to);
    (a, b)
}

/// The number that a sensor file shows, if any: what is left of white space around it is
/// read as a whole number. The first sensor that shows one is the one that counts.
pub proof fn lemma_first_sensor(zones: Seq<Option<String>>, from: int)
    requires
        0 <= from,
    ensures
        match readings::first_reading(zones, from) {
            Some(v) => exists|i: int|
                #![trigger zones[i]]
                {
                    &&& from <= i < zones.len()
                    &&& shown_by(zones[i]) == Some(v)
                    &&& forall|j: int| from <= j < i ==> shown_by(#[trigger] zones[j]) is None
                },
            None => forall|j: int|
                from <= j < zones.len() ==> shown_by(#[trigger] zones[j]) is None,
        },
    decreases zones.len() - from,
{
    if from < zones.len() {
        assert(shown_by(zones[from]) is Some || shown_by(zones[from]) is None);
        if shown_by(zones[from]) is None {
            lemma_first_sensor(zones, from + 1);
        }
    }
}

/// What a sensor file shows.
pub open spec fn shown_by(zone: Option<String>) -> Option<int> {
    match zone {
        Some(t) => readings::integer(readings::trimmed(t@, 0, t@.len() as int)),
        None => None,
    }
}

/// What is sought is found where it first stands.
pub proof fn lemma_first_place(t: Seq<char>, c: char, from: int, to: int)
    requires
        0 <= from <= to <= t.len(),
    ensures
        ({
            let i = readings::find(t, c, from, to);
            &&& from <= i <= to
            &&& forall|k: int| from <= k < i ==> #[trigger] t[k] != c
            &&& i < to ==> t[i] == c
        }),
    decreases to - from,
{
    if from < to && t[from] != c {
        lemma_first_place(t, c, from + 1, to);
    }
}

/// A line of a text begins here.
pub open spec fn line_start(t: Seq<char>, i: int) -> bool {
    0 <= i <= t.len() && (i == 0 || t[i - 1] == '\n')
}

/// The line that begins at `i` ends before `e`.
pub open spec fn line_end(t: Seq<char>, i: int, e: int) -> bool {
    &&& i <= e <= t.len()
    &&& forall|k: int| i <= k < e ==> #[trigger] t[k] != '\n'
    &&& e == t.len() || t[e] == '\n'
}

/// The ten characters of `model name` stand here.
pub open spec fn named_at(t: Seq<char>, i: int) -> bool {
    &&& i + 10 <= t.len()
    &&& t.subrange(i, i + 10) == seq!['m', 'o', 'd', 'e', 'l', ' ', 'n', 'a', 'm', 'e']
}

/// In a line, naming the model is beginning with its name.
proof fn lemma_names_model(t: Seq<char>, i: int, e: int)
    requires
        0 <= i,
        line_end(t, i, e),
    ensures
        readings::names_model(t, i, e) <==> named_at(t, i),
{
    reveal_strlit("model name");
    let name = seq!['m', 'o', 'd', 'e', 'l', ' ', 'n', 'a', 'm', 'e'];
    assert("model name"@ =~= name);
    if named_at(t, i) && e < i + 10 {
        let k = e - i;
        assert(t.subrange(i, i + 10)[k] == t[e]);
        assert(name[k] != '\n');
    }
}

/// From any line on, up to the first that names the model.
proof fn lemma_model_from(t: Seq<char>, from: int, i: int, e: int)
    requires
        line_start(t, from),
        from <= i < t.len(),
        line_start(t, i),
        line_end(t, i, e),
        named_at(t, i),
        forall|j: int| from <= j < i && #[trigger] line_start(t, j) ==> !named_at(t, j),
    ensures
        readings::model_from(t, from) == readings::second_field(t, i, e),
    decreases i - from,
{
    let end = readings::find(t, '\n', from, t.len() as int);
    lemma_first_place(t, '\n', from, t.len() as int);
    lemma_names_model(t, from, end);
    if from < i {
        assert(t[i - 1] == '\n');
        assert(end <= i - 1);
        assert(line_start(t, end + 1));
        lemma_model_from(t, end + 1, i, e);
    } else {
        if end < e {
            assert(t[end] != '\n');
        }
        if e < end {
            assert(t[e] != '\n');
        }
    }
}

/// The CPU model is what stands between the first and the second colon, or the end, of
/// the first line that begins with `model name`, without white space around it.
pub proof fn lemma_model_is_the_second_field(t: Seq<char>, i: int, e: int, c: int, d: int) -> (r: (
    int,
    int,
))
    requires
        line_start(t, i),
        i < t.len(),
        line_end(t, i, e),
        named_at(t, i),
        forall|j: int| 0 <= j < i && #[trigger] line_start(t, j) ==> !named_at(t, j),
        i <= c < d <= e,
        t[c] == ':',
        forall|k: int| i <= k < c ==> #[trigger] t[k] != ':',
        forall|k: int| c < k < d ==> #[trigger] t[k] != ':',
        d == e || t[d] == ':',
    ensures
        ({
            let (a, b) = r;
            &&& c < a <= b <= d
            &&& readings::model_from(t, 0) == Some(t.subrange(a, b))
            &&& forall|k: int| c < k < a || b <= k < d ==> #[trigger] readings::is_white(t[k])
            &&& a < b ==> !readings::is_white(t[a]) && !readings::is_white(t[b - 1])
        }),
{
    lemma_model_from(t, 0, i, e);
    let first = readings::find(t, ':', i, e);
    lemma_first_place(t, ':', i, e);
    assert(first == c);
    let second = readings::find(t, ':', c + 1, e);
    lemma_first_place(t, ':', c + 1, e);
    assert(second == d);
    lemma_trimmed(t, c + 1, d)
}

/// Without a colon in that line, no model is named.
pub proof fn lemma_no_model_without_a_colon(t: Seq<char>, i: int, e: int)
    requires
        line_start(t, i),
        i < t.len(),
        line_end(t, i, e),
        named_at(t, i),
        forall|j: int| 0 <= j < i && #[trigger] line_start(t, j) ==> !named_at(t, j),
        forall|k: int| i <= k < e ==> #[trigger] t[k] != ':',
    ensures
        readings::model_from(t, 0) is None,
{
    lemma_model_from(t, 0, i, e);
    lemma_first_place(t, ':', i, e);
}

/// Without a line that begins with `model name`, no model is named.
pub proof fn lemma_no_model_without_its_line(t: Seq<char>, from: int)
    requires
        line_start(t, from),
        forall|j: int| from <= j && #[trigger] line_start(t, j) ==> !named_at(t, j),
    ensures
        readings::model_from(t, from) is None,
    decreases t.len() + 1 - from,
{
    if from < t.len() {
        let end = readings::find(t, '\n', from, t.len() as int);
        lemma_first_place(t, '\n', from, t.len() as int);
        lemma_names_model(t, from, end);
        if end < t.len() {
            assert(line_start(t, end + 1));
            lemma_no_model_without_its_line(t, end + 1);
        } else {
            assert(readings::model_from(t, end + 1) is None);
        }
    }
}

/// Ten to a power is ten so many times.
pub proof fn lemma_ten_to(k: nat)
    ensures
        render::ten_to(k) == pow(10, k),
    decreases k,
{
    reveal(pow);
    if k > 0 {
        lemma_ten_to((k - 1) as nat);
    }
}

/// What is shown of a number, against a number near it.
proof fn lemma_shown_near(t: nat, v: real, e: real, room: real, k: real)
    requires
        2 as real * exact::size(t as real - exact::size(v) * k) <= 1 as real,
        exact::size(v - e) <= room,
        e >= 0 as real,
        k > 0 as real,
    ensures
        exact::size(t as real - e * k) <= 1 as real / 2 as real + room * k,
{
    assert(exact::size(t as real - e * k) <= 1 as real / 2 as real + room * k) by (nonlinear_arith)
        requires
            2 as real * exact::size(t as real - exact::size(v) * k) <= 1 as real,
            exact::size(v - e) <= room,
            e >= 0 as real,
            k > 0 as real,
    {
        let x = exact::size(v);
        assert(exact::size(x - e) <= room);
        assert((x - e) * k <= room * k && (e - x) * k <= room * k);
    }
}

/// The description of an anomaly shows, in this order and to the nearest digit: the
/// deviation from the baseline in percent, the cycles per operation, the baseline, the
/// score of the pipeline, a zero, and the name of the operation. The numbers are those of
/// the measurement and the profile, up to rounding.
pub proof fn lemma_description_shows_the_numbers(
    m: RawMeasurement,
    p: HardwareProfile,
    score: Datum,
) -> (r: (Seq<char>, Seq<char>, Seq<char>, Seq<char>, Seq<char>, nat, nat, nat, nat))
    requires
        m.op_count > 0,
        p.baseline(m.operation, m.precision).finite(),
        exact::floor() <= exact::value(p.baseline(m.operation, m.precision)) <= exact::ceiling(),
        score.finite(),
    ensures
        ({
            let (far, observed, baseline, scored, zero, t1, t2, t3, t4) = r;
            let b = exact::value(p.baseline(m.operation, m.precision));
            let cost = meaning::cost(m);
            let h = meaning::hair();
            let half = 1 as real / 2 as real;
            &&& detector::described(m, p, score) == "Anomaly: raw_dev="@ + far + "%, cpo="@
                + observed + " vs baseline="@ + baseline + ", pipeline_score="@ + scored
                + ", z_score="@ + zero + ", op="@ + m.operation.variant_name()
            &&& shows(far, false, t1, 1)
            &&& exact::size(t1 as real - exact::size(cost / b - 1 as real) * 1000 as real) <= half
                + 2000 as real * h * (cost / b + 1 as real)
            &&& shows(observed, false, t2, 2)
            &&& exact::size(t2 as real - cost * 100 as real) <= half + 100 as real * h * cost
            &&& shows(baseline, false, t3, 2)
            &&& exact::size(t3 as real - b * 100 as real) <= half
            &&& shows(scored, score->negative, t4, 4)
            &&& exact::size(
                t4 as real - exact::size(exact::value(score)) * 10000 as real,
            ) <= half
            &&& shows(zero, false, 0, 2)
        }),
{
    let baseline = p.baseline(m.operation, m.precision);
    let b = exact::value(baseline);
    let cost = meaning::cost(m);
    let q = cost / b;
    let far = exact::size(q - 1 as real);
    let raw = detector::raw_deviation(m, p);
    let hundred = raw.times(Datum::whole(100));
    let observed = types::observed_cycles(m, baseline);
    let zero = Datum::zero(false);
    let h = meaning::hair();
    let g = exact::grain();
    reveal_with_fuel(render::ten_to, 5);
    exact::lemma_constants();
    meaning::lemma_hair();
    ladder::lemma_positive(0);
    exact::lemma_units(zero);
    exact::lemma_units(baseline);
    meaning::lemma_raw_deviation_is_relative(m, p);
    meaning::lemma_quotient_of_counts(m.cycles as nat, m.op_count as nat);
    // The deviation in percent.
    let v = exact::value(raw);
    assert(q >= 0 as real) by (nonlinear_arith)
        requires
            q == cost / b,
            cost >= 0 as real,
            b > 0 as real,
    ;
    let c = exact::ceiling();
    assert(q <= c * c) by (nonlinear_arith)
        requires
            q == cost / b,
            cost >= 0 as real,
            2 as real * cost <= c,
            exact::floor() <= b,
            exact::floor() * c == 1 as real,
            exact::floor() > 0 as real,
            c > 0 as real,
            q >= 0 as real,
    {
        assert(q * b == cost);
        assert(q * exact::floor() <= q * b);
        assert((q * exact::floor()) * c <= cost * c);
        assert((q * exact::floor()) * c == q * (exact::floor() * c));
        assert(cost * c <= c * c);
    }
    let room = h * (q + 1 as real);
    assert(room <= q + 1 as real) by (nonlinear_arith)
        requires
            room == h * (q + 1 as real),
            q >= 0 as real,
            h > 0 as real,
            h * 0x100_0000_0000 as real == 1 as real,
    {
        assert(h <= 1 as real);
    }
    assert(exact::size(v) <= 2 as real * (q + 1 as real));
    lemma_hundredfold_below_limit();
    exact::lemma_whole_exact(100);
    assert(exact::size(v * 100 as real) <= exact::limit()) by {
        assert(exact::size(v * 100 as real) == exact::size(v) * 100 as real);
    }
    exact::lemma_times_exact(raw, Datum::whole(100));
    let r = exact::value(hundred);
    assert(exact::speck() <= g) by (nonlinear_arith)
        requires
            exact::speck() * 0x10_0000_0000_0000 as real <= exact::floor() * exact::floor(),
            exact::floor() <= g,
            exact::floor() > 0 as real,
            exact::speck() > 0 as real,
            g * 0x10_0000_0000_0000 as real == 1 as real,
    ;
    assert(exact::size(r - 100 as real * far) <= 200 as real * room) by (nonlinear_arith)
        requires
            exact::size(r - v * 100 as real) <= exact::size(v * 100 as real) * g + exact::speck(),
            exact::speck() <= g,
            exact::size(v - far) <= room,
            exact::size(v) <= 2 as real * (q + 1 as real),
            room == h * (q + 1 as real),
            h == 0x1000 as real * g,
            g > 0 as real,
            q >= 0 as real,
    {
        assert(exact::size(v * 100 as real) <= 200 as real * (q + 1 as real));
        assert(exact::size(v * 100 as real) * g <= 200 as real * (q + 1 as real) * g);
        assert(200 as real * (q + 1 as real) * g + g <= room);
        assert(exact::size(v * 100 as real - 100 as real * far) <= 100 as real * room);
    }
    let t1 = lemma_fixed_shows_the_number(hundred, 1);
    lemma_shown_near(t1, r, 100 as real * far, 200 as real * room, 10 as real);
    assert((100 as real * far) * 10 as real == far * 1000 as real);
    assert((200 as real * room) * 10 as real == 2000 as real * h * (q + 1 as real))
        by (nonlinear_arith)
        requires
            room == h * (q + 1 as real),
    ;
    // The cycles per operation.
    let t2 = lemma_fixed_shows_the_number(observed, 2);
    assert(exact::size(exact::value(observed) - cost) <= h * cost) by (nonlinear_arith)
        requires
            exact::size(exact::value(observed) - cost) <= 9 as real * g * exact::size(cost),
            cost >= 0 as real,
            h == 0x1000 as real * g,
            g > 0 as real,
    ;
    lemma_shown_near(t2, exact::value(observed), cost, h * cost, 100 as real);
    assert((h * cost) * 100 as real == 100 as real * h * cost) by (nonlinear_arith);
    // The rest.
    let t3 = lemma_fixed_shows_the_number(baseline, 2);
    let t4 = lemma_fixed_shows_the_number(score, 4);
    let t5 = lemma_fixed_shows_the_number(zero, 2);
    assert(t5 == 0);
    assert(!observed->negative);
    assert(!hundred->negative);
    (
        render::fixed(hundred, 1),
        render::fixed(observed, 2),
        render::fixed(baseline, 2),
        render::fixed(score, 4),
        render::fixed(zero, 2),
        t1,
        t2,
        t3,
        t4,
    )
}

/// Several hundred times 2^800 is below 2^1000.
proof fn lemma_hundredfold_below_limit()
    ensures
        200 as real * (exact::ceiling() * exact::ceiling() + 1 as real) <= exact::limit(),
{
    lemma_pow2_adds(400, 400);
    lemma_pow2_adds(10, 800);
    lemma2_to64();
    lemma_pow2_strictly_increases(810, 1000);
    lemma_pow2_strictly_increases(10, 800);
    let c = exact::ceiling();
    assert((pow2(400) * pow2(400)) as real == c * c) by (nonlinear_arith)
        requires
            c == pow2(400) as real,
    ;
}

} // verus!
