//! Text as sequences of characters: decimal numerals and message assembly.
use vstd::prelude::*;

verus! {

/// The decimal digit `d`, for `d` below ten.
pub open spec fn digit(d: nat) -> char {
    (48 + d) as char
}

/// The decimal numeral of `n`, without leading zeros (`0` is written `0`).
pub open spec fn decimal(n: nat) -> Seq<char>
    decreases n,
{
    if n < 10 {
        seq![digit(n)]
    } else {
        decimal(n / 10).push(digit(n % 10))
    }
}

fn digit_str(d: u64) -> (r: &'static str)
    requires
        d < 10,
    ensures
        r@ == seq![digit(d as nat)],
{
    proof {
        reveal_strlit("0");
        reveal_strlit("1");
        reveal_strlit("2");
        reveal_strlit("3");
        reveal_strlit("4");
        reveal_strlit("5");
        reveal_strlit("6");
        reveal_strlit("7");
        reveal_strlit("8");
        reveal_strlit("9");
    }
    let r = match d {
        0 => "0",
        1 => "1",
        2 => "2",
        3 => "3",
        4 => "4",
        5 => "5",
        6 => "6",
        7 => "7",
        8 => "8",
        _ => "9",
    };
    assert(r@ =~= seq![digit(d as nat)]);
    r
}

/// Appends the decimal numeral of `n`.
pub fn push_decimal(out: &mut String, n: u64)
    ensures
        final(out)@ == old(out)@ + decimal(n as nat),
    decreases n,
{
    if n >= 10 {
        push_decimal(out, n / 10);
    }
    out.append(digit_str(n % 10));
    proof {
        if n < 10 {
            assert(out@ =~= old(out)@ + decimal(n as nat));
        } else {
            assert(out@ =~= old(out)@ + decimal(n as nat));
        }
    }
}

/// The debug form of a text: how the standard library writes it in quotes, with escapes.
pub uninterp spec fn quoted(t: Seq<char>) -> Seq<char>;

/// The debug form of a text, by the `Debug` implementation of `str` in the standard library. It is
/// named, not spelled out: which characters are escaped depends on Unicode tables.
#[verifier::external_body]
pub(crate) fn quote(t: &str) -> (r: String)
    ensures
        r@ == quoted(t@),
{
    format!("{t:?}")
}

/// The texts one after the other, with `sep` between them.
pub open spec fn joined(parts: Seq<Seq<char>>, sep: Seq<char>) -> Seq<char>
    decreases parts.len(),
{
    if parts.len() == 0 {
        Seq::empty()
    } else if parts.len() == 1 {
        parts[0]
    } else {
        joined(parts.drop_last(), sep) + sep + parts.last()
    }
}

/// The texts of `v`.
pub open spec fn texts(v: Seq<String>) -> Seq<Seq<char>> {
    v.map_values(|s: String| s@)
}

/// Joins `parts` with `sep` between them.
pub fn join(parts: &Vec<String>, sep: &str) -> (r: String)
    ensures
        r@ == joined(texts(parts@), sep@),
{
    let mut out = String::new();
    let n: usize = parts.len();
    let ghost ps = texts(parts@);
    let mut i: usize = 0;
    assert(ps.take(0).len() == 0);
    while i < n
        invariant
            n == parts@.len(),
            ps == texts(parts@),
            i <= n,
            out@ == joined(ps.take(i as int), sep@),
        decreases n - i,
    {
        proof {
            assert(ps.take(i + 1).drop_last() =~= ps.take(i as int));
            assert(ps.take(i + 1).last() == parts@[i as int]@);
        }
        if i > 0 {
            out.append(sep);
        }
        out.append(parts[i].as_str());
        proof {
            if i == 0 {
                assert(out@ =~= joined(ps.take(i + 1), sep@));
            }
        }
        i = i + 1;
    }
    assert(ps.take(n as int) =~= ps);
    out
}

/// The debug form of a list of numbers.
pub open spec fn list_text(v: Seq<usize>) -> Seq<char> {
    "["@ + joined(v.map_values(|n: usize| decimal(n as nat)), ", "@) + "]"@
}

/// The debug form of a list of numbers.
pub fn list_of(v: &Vec<usize>) -> (r: String)
    ensures
        r@ == list_text(v@),
{
    let n: usize = v.len();
    let ghost all = v@.map_values(|n: usize| decimal(n as nat));
    let mut parts: Vec<String> = Vec::new();
    let mut i: usize = 0;
    while i < n
        invariant
            n == v@.len(),
            i <= n,
            all == v@.map_values(|n: usize| decimal(n as nat)),
            texts(parts@) =~= all.take(i as int),
        decreases n - i,
    {
        let mut t = String::new();
        push_decimal(&mut t, v[i] as u64);
        let ghost before = parts@;
        let ghost tv = t@;
        parts.push(t);
        assert(texts(parts@) =~= texts(before).push(tv));
        assert(tv =~= decimal(v@[i as int] as nat));
        i = i + 1;
    }
    assert(all.take(n as int) =~= all);
    let mut r = String::from_str("[");
    r.append(join(&parts, ", ").as_str());
    r.append("]");
    r
}

/// Whether two texts are equal.
pub fn same_text(a: &String, b: &String) -> (r: bool)
    ensures
        r == (a@ == b@),
{
    *a == *b
}

/// An optional text, as a mathematical value.
pub open spec fn opt_text(a: Option<String>) -> Option<Seq<char>> {
    match a {
        Some(s) => Some(s@),
        None => None,
    }
}

/// A copy of an optional text.
pub fn copy_opt(a: &Option<String>) -> (r: Option<String>)
    ensures
        opt_text(r) == opt_text(*a),
{
    match a {
        Some(s) => Some(s.clone()),
        None => None,
    }
}

/// Whether two optional texts are equal.
pub fn same_opt(a: &Option<String>, b: &Option<String>) -> (r: bool)
    ensures
        r == (opt_text(*a) == opt_text(*b)),
{
    match (a, b) {
        (Some(x), Some(y)) => same_text(x, y),
        (None, None) => true,
        _ => false,
    }
}

/// `before`, the numeral of `n`, `after`.
pub fn with_number(before: &str, n: u64, after: &str) -> (r: String)
    ensures
        r@ == before@ + decimal(n as nat) + after@,
{
    let mut m = String::from_str(before);
    push_decimal(&mut m, n);
    m.append(after);
    m
}

/// The hexadecimal digit `d`, for `d` below sixteen.
pub open spec fn hex_digit(d: nat) -> char {
    if d < 10 {
        (48 + d) as char
    } else {
        (87 + d) as char
    }
}

/// The low `width` hexadecimal digits of `n`.
pub open spec fn hex(n: nat, width: nat) -> Seq<char>
    decreases width,
{
    if width == 0 {
        Seq::empty()
    } else {
        hex(n / 16, (width - 1) as nat).push(hex_digit(n % 16))
    }
}

fn hex_str(d: u64) -> (r: &'static str)
    requires
        d < 16,
    ensures
        r@ == seq![hex_digit(d as nat)],
{
    if d < 10 {
        digit_str(d)
    } else {
        proof {
            reveal_strlit("a");
            reveal_strlit("b");
            reveal_strlit("c");
            reveal_strlit("d");
            reveal_strlit("e");
            reveal_strlit("f");
        }
        let r = match d {
            10 => "a",
            11 => "b",
            12 => "c",
            13 => "d",
            14 => "e",
            _ => "f",
        };
        assert(r@ =~= seq![hex_digit(d as nat)]);
        r
    }
}

/// Appends the low `width` hexadecimal digits of `n`.
pub fn push_hex(out: &mut String, n: u64, width: usize)
    ensures
        final(out)@ == old(out)@ + hex(n as nat, width as nat),
    decreases width,
{
    if width > 0 {
        push_hex(out, n / 16, width - 1);
        out.append(hex_str(n % 16));
    }
    assert(out@ =~= old(out)@ + hex(n as nat, width as nat));
}

// ---- laws ----

/// The number that a decimal numeral stands for.
pub open spec fn number(t: Seq<char>) -> int
    decreases t.len(),
{
    if t.len() == 0 {
        0
    } else {
        10 * number(t.drop_last()) + (t.last() as int - '0' as int)
    }
}

/// A numeral reads back as the number it was written for, is made of digits, and has no leading
/// zero but for zero itself.
pub proof fn law_numerals_read_back(n: nat)
    ensures
        number(decimal(n)) == n,
        decimal(n).len() > 0,
        forall|i: int|
            0 <= i < decimal(n).len() ==> '0' <= #[trigger] decimal(n)[i] && decimal(n)[i] <= '9',
        n > 0 ==> decimal(n)[0] != '0',
    decreases n,
{
    if n < 10 {
        reveal_with_fuel(number, 2);
        assert(decimal(n).drop_last() =~= Seq::empty());
    } else {
        law_numerals_read_back(n / 10);
        assert(decimal(n).drop_last() =~= decimal(n / 10));
        assert forall|i: int| 0 <= i < decimal(n).len() implies '0' <= #[trigger] decimal(n)[i]
            && decimal(n)[i] <= '9' by {
            if i < decimal(n / 10).len() {
                assert(decimal(n)[i] == decimal(n / 10)[i]);
            }
        }
        assert(decimal(n)[0] == decimal(n / 10)[0]);
    }
}

/// Texts are joined in their order, with the separator between each two.
pub proof fn law_texts_are_joined_in_order(parts: Seq<Seq<char>>, p: Seq<char>, sep: Seq<char>)
    ensures
        joined(Seq::<Seq<char>>::empty(), sep) == Seq::<char>::empty(),
        joined(seq![p], sep) == p,
        parts.len() > 0 ==> joined(parts.push(p), sep) == joined(parts, sep) + sep + p,
{
    assert(parts.push(p).drop_last() =~= parts);
}

/// A hexadecimal numeral has as many digits as asked for, and ends in that of the lowest four bits;
/// the digits are the ten decimal ones and the small letters.
pub proof fn law_hexadecimal_numerals(n: nat, width: nat)
    ensures
        hex(n, width).len() == width,
        width > 0 ==> hex(n, width).drop_last() == hex(n / 16, (width - 1) as nat),
        width > 0 && n % 16 < 10 ==> hex(n, width).last() as u32 == '0' as u32 + n % 16,
        width > 0 && n % 16 >= 10 ==> hex(n, width).last() as u32 == 'a' as u32 + (n % 16 - 10),
    decreases width,
{
    if width > 0 {
        law_hexadecimal_numerals(n / 16, (width - 1) as nat);
        assert(hex(n, width).drop_last() =~= hex(n / 16, (width - 1) as nat));
    }
}

} // verus!
