//! The files and directories of a durable cluster: their names, and which of them are left over.
use crate::endpoint::{ascii_lower, has_text};
use crate::text::{decimal, digit, push_decimal, texts};
use vstd::prelude::*;

verus! {

/// The name of the cluster manifest.
pub fn manifest_file() -> (r: &'static str)
    ensures
        r@ == "cluster_manifest.bin"@,
{
    "cluster_manifest.bin"
}

/// The name of the cluster log.
pub fn log_file() -> (r: &'static str)
    ensures
        r@ == "cluster.log"@,
{
    "cluster.log"
}

/// A number in at least three digits.
pub open spec fn padded(n: nat) -> Seq<char> {
    if n < 10 {
        "00"@ + decimal(n)
    } else if n < 100 {
        "0"@ + decimal(n)
    } else {
        decimal(n)
    }
}

fn push_padded(out: &mut String, n: usize)
    ensures
        final(out)@ == old(out)@ + padded(n as nat),
{
    let ghost before = out@;
    if n < 10 {
        out.append("00");
    } else if n < 100 {
        out.append("0");
    }
    push_decimal(out, n as u64);
    assert(out@ =~= before + padded(n as nat));
}

/// The directory of a shard's primary. The names sort in the order of the shards.
pub open spec fn shard_dir_name(shard: nat) -> Seq<char> {
    "shard_"@ + padded(shard)
}

/// The directory of a shard's primary.
pub fn shard_dir(shard: usize) -> (r: String)
    ensures
        r@ == shard_dir_name(shard as nat),
{
    let mut r = String::from_str("shard_");
    push_padded(&mut r, shard);
    r
}

/// The directory of a replica, inside that of the primary.
pub open spec fn replica_dir_name(replica: nat) -> Seq<char> {
    "replica_"@ + padded(replica)
}

/// The directory of a replica, inside that of the primary.
pub fn replica_dir(replica: usize) -> (r: String)
    ensures
        r@ == replica_dir_name(replica as nat),
{
    let mut r = String::from_str("replica_");
    push_padded(&mut r, replica);
    r
}

/// Whether a character is a decimal digit.
pub open spec fn is_digit(c: char) -> bool {
    '0' <= c && c <= '9'
}

/// The value of digits.
pub open spec fn digits_value(t: Seq<char>) -> nat
    decreases t.len(),
{
    if t.len() == 0 {
        0
    } else {
        digits_value(t.drop_last()) * 10 + (t.last() as u32 - 48) as nat
    }
}

/// A numeral without the plus sign at its head.
pub open spec fn unsigned(t: Seq<char>) -> Seq<char> {
    if t.len() > 0 && t[0] == '+' {
        t.skip(1)
    } else {
        t
    }
}

/// Whether all characters are digits.
pub open spec fn all_digits(d: Seq<char>) -> bool {
    forall|i: int| 0 <= i < d.len() ==> is_digit(#[trigger] d[i])
}

/// The number that a numeral names: digits, after at most one plus sign, that fit.
pub open spec fn parsed_number(t: Seq<char>) -> Option<usize> {
    let d = unsigned(t);
    if d.len() > 0 && all_digits(d) && digits_value(d) <= usize::MAX {
        Some(digits_value(d) as usize)
    } else {
        None
    }
}

/// The shard whose directory has this name, if it is such a name.
pub open spec fn shard_of_dir(name: Seq<char>) -> Option<usize> {
    if name.len() >= 6 && name.take(6) == "shard_"@ {
        parsed_number(name.skip(6))
    } else {
        None
    }
}

/// The characters of a text.
fn chars_of(t: &str) -> (r: Vec<char>)
    ensures
        r@ == t@,
{
    let n: usize = t.unicode_len();
    let mut r: Vec<char> = Vec::new();
    let mut i: usize = 0;
    while i < n
        invariant
            n == t@.len(),
            i <= n,
            r@ =~= t@.take(i as int),
        decreases n - i,
    {
        r.push(t.get_char(i));
        i = i + 1;
    }
    assert(t@.take(n as int) =~= t@);
    r
}

proof fn lemma_value_grows(t: Seq<char>, n: int)
    requires
        0 <= n <= t.len(),
    ensures
        digits_value(t.take(n)) <= digits_value(t),
    decreases t.len() - n,
{
    if n < t.len() {
        lemma_value_grows(t, n + 1);
        assert(t.take(n + 1).drop_last() =~= t.take(n));
    } else {
        assert(t.take(n) =~= t);
    }
}

/// The number that characters name, from `from` on.
fn parse_number(t: &Vec<char>, from: usize) -> (r: Option<usize>)
    requires
        from <= t@.len(),
    ensures
        r == parsed_number(t@.skip(from as int)),
{
    let ghost whole = t@.skip(from as int);
    let n: usize = t.len();
    let mut start: usize = from;
    if start < n && t[start] == '+' {
        assert(whole[0] == '+');
        start = start + 1;
    } else {
        assert(whole.len() > 0 ==> whole[0] == t@[from as int]);
    }
    let ghost d = t@.skip(start as int);
    proof {
        if whole.len() > 0 {
            assert(whole.skip(1) =~= t@.skip(from + 1));
        }
        assert(unsigned(whole) == d);
    }
    if start >= n {
        return None;
    }
    let mut value: usize = 0;
    let mut i: usize = start;
    assert(d.take(0) =~= Seq::empty());
    while i < n
        invariant
            n == t@.len(),
            start <= i <= n,
            start < n,
            d == t@.skip(start as int),
            whole == t@.skip(from as int),
            d == unsigned(whole),
            value == digits_value(d.take(i - start)),
            forall|k: int| 0 <= k < i - start ==> is_digit(#[trigger] d[k]),
        decreases n - i,
    {
        let c = t[i];
        assert(d[i - start] == c);
        if !('0' <= c && c <= '9') {
            assert(!is_digit(d[i - start]));
            assert(!all_digits(d));
            return None;
        }
        let step: usize = (c as u32 - 48) as usize;
        proof {
            assert(d.take(i - start + 1).drop_last() =~= d.take(i - start));
            assert(d.take(i - start + 1).last() == c);
            lemma_value_grows(d, i - start + 1);
        }
        if value > (usize::MAX - step) / 10 {
            assert(value * 10 + step > usize::MAX);
            return None;
        }
        value = value * 10 + step;
        i = i + 1;
    }
    assert(d.take(n - start) =~= d);
    Some(value)
}

/// The shard whose directory has this name, if it is such a name.
pub fn parse_shard_dir(name: &str) -> (r: Option<usize>)
    ensures
        r == shard_of_dir(name@),
{
    let t = chars_of(name);
    proof {
        reveal_strlit("shard_");
    }
    if t.len() < 6 {
        return None;
    }
    let prefix = t[0] == 's' && t[1] == 'h' && t[2] == 'a' && t[3] == 'r' && t[4] == 'd' && t[5]
        == '_';
    assert(prefix <==> name@.take(6) =~= "shard_"@) by {
        let p = name@.take(6);
        let q = "shard_"@;
        assert(p[0] == t@[0] && p[1] == t@[1] && p[2] == t@[2] && p[3] == t@[3] && p[4] == t@[4]
            && p[5] == t@[5]);
        assert(q.len() == 6);
        assert(q[0] == 's' && q[1] == 'h' && q[2] == 'a' && q[3] == 'r' && q[4] == 'd' && q[5]
            == '_');
    }
    if prefix {
        parse_number(&t, 6)
    } else {
        None
    }
}

/// Whether a directory belongs to no shard of a cluster with `num_shards`.
pub open spec fn is_stale_dir(num_shards: usize) -> spec_fn(Seq<char>) -> bool {
    |name: Seq<char>| shard_of_dir(name) matches Some(i) && i >= num_shards
}

/// Whether a directory is removed once a cluster with `num_shards` is committed. Any other entry
/// of the cluster's directory stays.
pub fn stale_shard_dir(name: &str, num_shards: usize) -> (r: bool)
    ensures
        r == is_stale_dir(num_shards)(name@),
{
    match parse_shard_dir(name) {
        Some(i) => i >= num_shards,
        None => false,
    }
}

/// The place of the last dot; none where there is no dot.
pub open spec fn last_dot(t: Seq<char>) -> Option<int>
    decreases t.len(),
{
    if t.len() == 0 {
        None
    } else if t.last() == '.' {
        Some(t.len() - 1)
    } else {
        last_dot(t.drop_last())
    }
}

/// Whether a file name has the extension `seg`, in either case. A dot at the start of a name is
/// part of the name.
pub open spec fn is_segment(name: Seq<char>) -> bool {
    match last_dot(name) {
        Some(i) => i > 0 && name.len() == i + 4 && ascii_lower(name[i + 1]) == 's' && ascii_lower(
            name[i + 2],
        ) == 'e' && ascii_lower(name[i + 3]) == 'g',
        None => false,
    }
}

proof fn lemma_last_dot(t: Seq<char>, i: int)
    requires
        0 <= i < t.len(),
        t[i] == '.',
        forall|k: int| i < k < t.len() ==> t[k] != '.',
    ensures
        last_dot(t) == Some(i),
    decreases t.len(),
{
    if i < t.len() - 1 {
        assert(t.last() == t[t.len() - 1]);
        let u = t.drop_last();
        assert forall|k: int| i < k < u.len() implies u[k] != '.' by {
            assert(u[k] == t[k]);
        }
        assert(u[i] == t[i]);
        lemma_last_dot(u, i);
    }
}

proof fn lemma_last_dot_place(t: Seq<char>)
    ensures
        last_dot(t) matches Some(i) ==> 0 <= i < t.len() && t[i] == '.' && (forall|k: int|
            i < k < t.len() ==> t[k] != '.'),
    decreases t.len(),
{
    if t.len() > 0 && t.last() != '.' {
        lemma_last_dot_place(t.drop_last());
        match last_dot(t) {
            Some(i) => {
                let u = t.drop_last();
                assert forall|k: int| i < k < t.len() implies t[k] != '.' by {
                    if k < u.len() {
                        assert(u[k] == t[k]);
                    }
                }
            },
            None => {},
        }
    }
}

fn lower(c: char) -> (r: char)
    ensures
        r == ascii_lower(c),
{
    if 'A' <= c && c <= 'Z' {
        (c as u8 + 32) as char
    } else {
        c
    }
}

/// Whether a file name has the extension `seg`, in either case.
pub fn has_segment_extension(name: &str) -> (r: bool)
    ensures
        r == is_segment(name@),
{
    let t = chars_of(name);
    let n: usize = t.len();
    if n < 5 {
        proof {
            lemma_last_dot_place(name@);
        }
        return false;
    }
    let s = t[n - 3];
    let e = t[n - 2];
    let g = t[n - 1];
    let tail = lower(s) == 's' && lower(e) == 'e' && lower(g) == 'g';
    let r = t[n - 4] == '.' && tail;
    proof {
        lemma_last_dot_place(name@);
        if r {
            assert(s != '.' && e != '.' && g != '.');
            assert forall|k: int| n - 4 < k < name@.len() implies name@[k] != '.' by {
                assert(k == n - 3 || k == n - 2 || k == n - 1);
            }
            lemma_last_dot(name@, n - 4);
        }
    }
    r
}

/// Whether a file of a shard's segment directory is left over: a segment that the committed
/// registry does not name.
pub fn is_orphan_segment(name: &String, registry: &Vec<String>) -> (r: bool)
    ensures
        r == (is_segment(name@) && !texts(registry@).contains(name@)),
{
    has_segment_extension(name.as_str()) && !has_text(registry, name)
}

/// The notice that a left-over segment could not be removed.
pub fn orphan_kept_detail(name: &str) -> (r: String)
    ensures
        r@ == "removing orphaned segment "@ + name@
            + " after checkpoint failed (ignored on open)"@,
{
    let mut m = String::from_str("removing orphaned segment ");
    m.append(name);
    m.append(" after checkpoint failed (ignored on open)");
    m
}

/// The notice that a left-over shard directory could not be removed.
pub fn stale_dir_kept_detail(path: &str) -> (r: String)
    ensures
        r@ == "removing orphaned shard dir "@ + path@
            + " failed (benign: it is not in the committed manifest, so `open` ignores it)"@,
{
    let mut m = String::from_str("removing orphaned shard dir ");
    m.append(path);
    m.append(" failed (benign: it is not in the committed manifest, so `open` ignores it)");
    m
}

proof fn lemma_decimal_value(n: nat)
    ensures
        digits_value(decimal(n)) == n,
        decimal(n).len() > 0,
        all_digits(decimal(n)),
    decreases n,
{
    let t = decimal(n);
    if n < 10 {
        assert(t.drop_last() =~= Seq::empty());
        assert(digits_value(t.drop_last()) == 0);
        assert(t.last() == digit(n));
    } else {
        lemma_decimal_value(n / 10);
        assert(t.drop_last() =~= decimal(n / 10));
        assert(t.last() == digit(n % 10));
    }
}

proof fn lemma_leading_zero(t: Seq<char>)
    ensures
        digits_value("0"@ + t) == digits_value(t),
    decreases t.len(),
{
    reveal_strlit("0");
    let z = "0"@ + t;
    if t.len() == 0 {
        assert(z.drop_last() =~= Seq::empty());
        assert(digits_value(z.drop_last()) == 0);
    } else {
        assert(z.drop_last() =~= "0"@ + t.drop_last());
        lemma_leading_zero(t.drop_last());
    }
}

proof fn lemma_padded(n: nat)
    ensures
        digits_value(padded(n)) == n,
        padded(n).len() > 0,
        all_digits(padded(n)),
{
    lemma_decimal_value(n);
    let d = decimal(n);
    reveal_strlit("0");
    reveal_strlit("00");
    lemma_leading_zero(d);
    if n < 10 {
        lemma_leading_zero("0"@ + d);
        assert("0"@ + ("0"@ + d) =~= "00"@ + d);
    }
    assert forall|i: int| 0 <= i < padded(n).len() implies is_digit(#[trigger] padded(n)[i]) by {
        if n < 10 {
            if i >= 2 {
                assert(padded(n)[i] == d[i - 2]);
            }
        } else if n < 100 {
            if i >= 1 {
                assert(padded(n)[i] == d[i - 1]);
            }
        }
    }
}

/// The directory of a shard is recognised as that shard's.
pub proof fn law_shard_dirs_are_recognised(shard: usize)
    ensures
        shard_of_dir(shard_dir_name(shard as nat)) == Some(shard),
{
    let name = shard_dir_name(shard as nat);
    let p = padded(shard as nat);
    reveal_strlit("shard_");
    lemma_padded(shard as nat);
    assert(name.take(6) =~= "shard_"@);
    assert(name.skip(6) =~= p);
    assert(is_digit(p[0]));
}

/// No two shards share a directory.
pub proof fn law_shard_dirs_are_distinct(a: usize, b: usize)
    requires
        shard_dir_name(a as nat) == shard_dir_name(b as nat),
    ensures
        a == b,
{
    law_shard_dirs_are_recognised(a);
    law_shard_dirs_are_recognised(b);
}

/// After a commit the directories of the cluster's own shards stay and those of all others go.
pub proof fn law_exactly_the_other_shards_are_stale(shard: usize, num_shards: usize)
    ensures
        is_stale_dir(num_shards)(shard_dir_name(shard as nat)) <==> shard >= num_shards,
{
    law_shard_dirs_are_recognised(shard);
}

/// Only the directories of shards are ever removed: a name of another shape stays.
pub proof fn law_other_names_stay(name: Seq<char>, num_shards: usize)
    ensures
        is_stale_dir(num_shards)(name) ==> {
            &&& name.len() > 6 && name.take(6) == "shard_"@
            &&& forall|i: int|
                7 <= i < name.len() ==> '0' <= (#[trigger] name[i]) && name[i] <= '9'
            &&& ('0' <= name[6] && name[6] <= '9') || name[6] == '+'
        },
{
    if is_stale_dir(num_shards)(name) {
        let t = name.skip(6);
        let d = unsigned(t);
        assert forall|i: int| 7 <= i < name.len() implies '0' <= (#[trigger] name[i]) && name[i]
            <= '9' by {
            if t[0] == '+' {
                assert(is_digit(d[i - 7]));
            } else {
                assert(is_digit(d[i - 6]));
            }
        }
        if t[0] != '+' {
            assert(is_digit(d[0]));
        }
    }
}

/// A number has at least three digits in a name, with zeros only in front of fewer.
pub proof fn law_names_have_three_digits(n: nat)
    ensures
        padded(n).len() >= 3,
        n < 1000 ==> padded(n).len() == 3,
        n >= 100 ==> padded(n) == decimal(n),
{
    reveal_strlit("0");
    reveal_strlit("00");
    reveal_with_fuel(decimal, 4);
}

/// A file is a segment exactly where its name ends in a dot and the three letters, in either case,
/// behind a stem.
pub proof fn law_what_a_segment_is_named(stem: Seq<char>, a: char, b: char, c: char)
    requires
        a != '.',
        b != '.',
        c != '.',
    ensures
        is_segment(stem + seq!['.', a, b, c]) <==> stem.len() > 0 && (a == 's' || a == 'S') && (b
            == 'e' || b == 'E') && (c == 'g' || c == 'G'),
        is_segment(stem) ==> stem.len() >= 5 && stem[stem.len() - 4] == '.',
{
    let t = stem + seq!['.', a, b, c];
    reveal_with_fuel(last_dot, 5);
    assert(t.drop_last() =~= stem + seq!['.', a, b]);
    assert(t.drop_last().drop_last() =~= stem + seq!['.', a]);
    assert(t.drop_last().drop_last().drop_last() =~= stem + seq!['.']);
    assert(last_dot(t) == Some(stem.len() as int));
    let n = stem.len() as int;
    assert(t[n + 1] == a && t[n + 2] == b && t[n + 3] == c);
    lemma_dot_found(stem);
}

proof fn lemma_dot_found(t: Seq<char>)
    ensures
        last_dot(t) matches Some(i) ==> 0 <= i < t.len() && t[i] == '.',
    decreases t.len(),
{
    if t.len() > 0 && t.last() != '.' {
        lemma_dot_found(t.drop_last());
    }
}

} // verus!
