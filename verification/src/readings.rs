//! What system files say: the CPU model and temperatures.
use vstd::prelude::*;

verus! {

/// Where `c` first stands in `t` from `from` on, or `to` if it does not before there.
pub open spec fn find(t: Seq<char>, c: char, from: int, to: int) -> int
    decreases to - from,
{
    if from >= to || t[from] == c {
        if from >= to {
            to
        } else {
            from
        }
    } else {
        find(t, c, from + 1, to)
    }
}

/// White space, as Unicode defines it.
pub open spec fn is_white(c: char) -> bool {
    let u = c as u32;
    ||| 0x9 <= u <= 0xD
    ||| u == 0x20
    ||| u == 0x85
    ||| u == 0xA0
    ||| u == 0x1680
    ||| 0x2000 <= u <= 0x200A
    ||| u == 0x2028
    ||| u == 0x2029
    ||| u == 0x202F
    ||| u == 0x205F
    ||| u == 0x3000
}

/// The start of a span without its leading white space.
pub open spec fn trimmed_start(t: Seq<char>, from: int, to: int) -> int
    decreases to - from,
{
    if from < to && is_white(t[from]) {
        trimmed_start(t, from + 1, to)
    } else {
        from
    }
}

/// The end of a span without its trailing white space.
pub open spec fn trimmed_end(t: Seq<char>, from: int, to: int) -> int
    decreases to - from,
{
    if from < to && is_white(t[to - 1]) {
        trimmed_end(t, from, to - 1)
    } else {
        to
    }
}

/// A span without white space around it.
pub open spec fn trimmed(t: Seq<char>, from: int, to: int) -> Seq<char> {
    let start = trimmed_start(t, from, to);
    t.subrange(start, trimmed_end(t, start, to))
}

/// The line from `from` to `to` names the CPU model.
pub open spec fn names_model(t: Seq<char>, from: int, to: int) -> bool {
    from + "model name"@.len() <= to && t.subrange(from, from + "model name"@.len() as int)
        == "model name"@
}

/// The second field of a line that is divided by colons.
pub open spec fn second_field(t: Seq<char>, from: int, to: int) -> Option<Seq<char>> {
    let first = find(t, ':', from, to);
    if first >= to {
        None
    } else {
        Some(trimmed(t, first + 1, find(t, ':', first + 1, to)))
    }
}

/// The second field of the first line, from `from` on, that names the CPU model.
pub open spec fn model_from(t: Seq<char>, from: int) -> Option<Seq<char>>
    decreases t.len() + 1 - from,
{
    if from >= t.len() {
        None
    } else {
        let end = find(t, '\n', from, t.len() as int);
        if names_model(t, from, end) {
            second_field(t, from, end)
        } else {
            proof {
                lemma_find(t, '\n', from, t.len() as int);
            }
            model_from(t, end + 1)
        }
    }
}

/// What is found lies in the span that was searched.
pub proof fn lemma_find(t: Seq<char>, c: char, from: int, to: int)
    requires
        from <= to,
    ensures
        from <= find(t, c, from, to) <= to,
    decreases to - from,
{
    if from < to && t[from] != c {
        lemma_find(t, c, from + 1, to);
    }
}

/// The characters of a text.
fn chars_of(text: &str) -> (v: Vec<char>)
    ensures
        v@ == text@,
{
    let mut v: Vec<char> = Vec::new();
    for c in it: text.chars()
        invariant
            v@ == it.seq().take(it.index() as int),
            it.seq() == text@,
    {
        v.push(c);
    }
    assert(v@ =~= text@);
    v
}

fn find_exec(v: &Vec<char>, c: char, from: usize, to: usize) -> (i: usize)
    requires
        from <= to <= v.len(),
    ensures
        i == find(v@, c, from as int, to as int),
        from <= i <= to,
{
    let mut i: usize = from;
    while i < to && v[i] != c
        invariant
            from <= i <= to <= v.len(),
            find(v@, c, from as int, to as int) == find(v@, c, i as int, to as int),
        decreases to - i,
    {
        i = i + 1;
    }
    i
}

fn is_white_exec(c: char) -> (r: bool)
    ensures
        r == is_white(c),
{
    let u = c as u32;
    (0x9 <= u && u <= 0xD) || u == 0x20 || u == 0x85 || u == 0xA0 || u == 0x1680 || (0x2000 <= u
        && u <= 0x200A) || u == 0x2028 || u == 0x2029 || u == 0x202F || u == 0x205F || u == 0x3000
}

/// A span without the white space around it.
fn trim_exec(v: &Vec<char>, from: usize, to: usize) -> (r: (usize, usize))
    requires
        from <= to <= v.len(),
    ensures
        from <= r.0 <= r.1 <= to,
        r.0 == trimmed_start(v@, from as int, to as int),
        r.1 == trimmed_end(v@, r.0 as int, to as int),
{
    let mut start: usize = from;
    while start < to && is_white_exec(v[start])
        invariant
            from <= start <= to <= v.len(),
            trimmed_start(v@, from as int, to as int) == trimmed_start(
                v@,
                start as int,
                to as int,
            ),
        decreases to - start,
    {
        start = start + 1;
    }
    let mut end: usize = to;
    while start < end && is_white_exec(v[end - 1])
        invariant
            from <= start <= end <= to <= v.len(),
            trimmed_end(v@, start as int, to as int) == trimmed_end(v@, start as int, end as int),
        decreases end - start,
    {
        end = end - 1;
    }
    (start, end)
}

fn names_model_exec(v: &Vec<char>, from: usize, to: usize) -> (r: bool)
    requires
        from <= to <= v.len(),
    ensures
        r == names_model(v@, from as int, to as int),
{
    let name = chars_of("model name");
    if name.len() > to - from {
        return false;
    }
    let mut i: usize = 0;
    while i < name.len()
        invariant
            i <= name.len() <= to - from,
            from <= to <= v.len(),
            name@ == "model name"@,
            forall|j: int| 0 <= j < i ==> v@[from + j] == #[trigger] name@[j],
        decreases name.len() - i,
    {
        if v[from + i] != name[i] {
            assert(v@.subrange(from as int, from + name@.len())[i as int] != name@[i as int]);
            return false;
        }
        i = i + 1;
    }
    assert(v@.subrange(from as int, from + name@.len()) =~= name@);
    true
}

/// The CPU model that a listing of CPU properties names, or `Unknown CPU`.
pub fn cpu_model(listing: &str) -> (r: String)
    ensures
        r@ == match model_from(listing@, 0) {
            Some(model) => model,
            None => "Unknown CPU"@,
        },
{
    let v = chars_of(listing);
    let mut from: usize = 0;
    while from < v.len()
        invariant
            from <= v.len(),
            v@ == listing@,
            model_from(v@, 0) == model_from(v@, from as int),
        decreases v.len() - from,
    {
        let end = find_exec(&v, '\n', from, v.len());
        if names_model_exec(&v, from, end) {
            let first = find_exec(&v, ':', from, end);
            if first >= end {
                return "Unknown CPU".to_string();
            }
            let second = find_exec(&v, ':', first + 1, end);
            let (a, b) = trim_exec(&v, first + 1, second);
            return listing.substring_char(a, b).to_string();
        }
        if end == v.len() {
            assert(model_from(v@, end + 1) is None);
            return "Unknown CPU".to_string();
        }
        from = end + 1;
    }
    "Unknown CPU".to_string()
}

/// A decimal digit.
pub open spec fn is_digit(c: char) -> bool {
    '0' as u32 <= c as u32 <= '9' as u32
}

/// All of a text are decimal digits.
pub open spec fn all_digits(t: Seq<char>) -> bool {
    forall|i: int| 0 <= i < t.len() ==> is_digit(#[trigger] t[i])
}

/// The number that decimal digits stand for.
pub open spec fn digits_value(t: Seq<char>) -> nat
    decreases t.len(),
{
    if t.len() == 0 {
        0
    } else {
        10 * digits_value(t.drop_last()) + (t.last() as u32 - '0' as u32) as nat
    }
}

/// The whole number that a text stands for: digits, with or without a sign before
/// them, in the range of `i64`.
pub open spec fn integer(t: Seq<char>) -> Option<int> {
    let negative = t.len() > 0 && t[0] == '-';
    let digits = if t.len() > 0 && (t[0] == '-' || t[0] == '+') {
        t.drop_first()
    } else {
        t
    };
    let value = if negative {
        -(digits_value(digits) as int)
    } else {
        digits_value(digits) as int
    };
    if digits.len() > 0 && all_digits(digits) && i64::MIN <= value <= i64::MAX {
        Some(value)
    } else {
        None
    }
}

/// The temperature that a sensor file gives, in thousandths of a degree C.
pub fn parse_temperature(reading: &str) -> (r: Option<i64>)
    ensures
        match r {
            Some(t) => integer(trimmed(reading@, 0, reading@.len() as int)) == Some(t as int),
            None => integer(trimmed(reading@, 0, reading@.len() as int)) is None,
        },
{
    let v = chars_of(reading);
    let (start, end) = trim_exec(&v, 0, v.len());
    let ghost t = trimmed(v@, 0, v@.len() as int);
    let negative = start < end && v[start] == '-';
    let from = if start < end && (v[start] == '-' || v[start] == '+') {
        start + 1
    } else {
        start
    };
    let ghost digits = v@.subrange(from as int, end as int);
    proof {
        if from == start {
            assert(digits =~= t);
        } else {
            assert(digits =~= t.drop_first());
        }
    }
    if from == end {
        return None;
    }
    // The largest size that still matters: that of the smallest `i64`.
    let limit: u64 = 0x8000_0000_0000_0000;
    let mut size: u64 = 0;
    let mut over = false;
    let mut i: usize = from;
    while i < end
        invariant
            from <= i <= end <= v.len(),
            limit == 0x8000_0000_0000_0000,
            !all_digits(digits) ==> integer(trimmed(reading@, 0, reading@.len() as int)) is None,
            digits == v@.subrange(from as int, end as int),
            all_digits(digits.take(i - from)),
            size <= limit,
            !over ==> size == digits_value(digits.take(i - from)),
            over ==> digits_value(digits.take(i - from)) > limit,
        decreases end - i,
    {
        let c = v[i];
        let ghost seen = digits.take(i - from);
        let ghost more = digits.take(i + 1 - from);
        assert(more.drop_last() =~= seen);
        assert(more.last() == c);
        if !(('0' as u32) <= (c as u32) && (c as u32) <= ('9' as u32)) {
            assert(digits[i - from] == c);
            return None;
        }
        assert(all_digits(more)) by {
            assert forall|j: int| 0 <= j < more.len() implies is_digit(#[trigger] more[j]) by {
                if j < seen.len() {
                    assert(more[j] == seen[j]);
                }
            }
        }
        let d = (c as u32 - '0' as u32) as u64;
        if !over {
            if size > (limit - d) / 10 {
                over = true;
            } else {
                size = 10 * size + d;
            }
        }
        i = i + 1;
    }
    assert(digits.take(end - from) =~= digits);
    if over {
        None
    } else if negative {
        if size == limit {
            Some(i64::MIN)
        } else {
            Some(-(size as i64))
        }
    } else if size < limit {
        Some(size as i64)
    } else {
        None
    }
}

/// The reading of the first sensor, from `from` on, that gives a temperature.
pub open spec fn first_reading(zones: Seq<Option<String>>, from: int) -> Option<int>
    decreases zones.len() - from,
{
    if from >= zones.len() {
        None
    } else {
        let here = match zones[from] {
            Some(text) => integer(trimmed(text@, 0, text@.len() as int)),
            None => None,
        };
        if here is Some {
            here
        } else {
            first_reading(zones, from + 1)
        }
    }
}

/// The temperature of the first sensor that gives one. A sensor whose file could not
/// be read is `None`.
pub fn first_temperature(zones: &Vec<Option<String>>) -> (r: Option<i64>)
    ensures
        match r {
            Some(t) => first_reading(zones@, 0) == Some(t as int),
            None => first_reading(zones@, 0) is None,
        },
{
    let mut i: usize = 0;
    while i < zones.len()
        invariant
            i <= zones.len(),
            first_reading(zones@, 0) == first_reading(zones@, i as int),
        decreases zones.len() - i,
    {
        match &zones[i] {
            Some(text) => {
                if let Some(t) = parse_temperature(text.as_str()) {
                    return Some(t);
                }
            },
            None => {},
        }
        i = i + 1;
    }
    None
}

} // verus!
