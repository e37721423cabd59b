//! Endpoints: when two spellings name one server, and sorted sets of them.
use crate::text::{same_text, texts};
use vstd::prelude::*;
use vstd::utf8::encode_utf8;

verus! {

/// `t` without the slashes at its end.
pub open spec fn trimmed(t: Seq<char>) -> Seq<char>
    decreases t.len(),
{
    if t.len() > 0 && t.last() == '/' {
        trimmed(t.drop_last())
    } else {
        t
    }
}

/// An ASCII capital letter as the small letter; any other character as it is.
pub open spec fn ascii_lower(c: char) -> char {
    if 'A' <= c && c <= 'Z' {
        (c as u32 + 32) as char
    } else {
        c
    }
}

/// The spelling under which an endpoint is compared: letter case and slashes at the end do not
/// tell servers apart.
pub open spec fn normalized_spec(t: Seq<char>) -> Seq<char> {
    trimmed(t).map_values(|c: char| ascii_lower(c))
}

/// Cuts off trailing slashes.
fn trim_slashes(t: &str) -> (r: &str)
    ensures
        r@ == trimmed(t@),
{
    let mut n: usize = t.unicode_len();
    assert(t@.take(n as int) =~= t@);
    while n > 0 && t.get_char(n - 1) == '/'
        invariant
            n <= t@.len(),
            trimmed(t@.take(n as int)) == trimmed(t@),
        decreases n,
    {
        assert(t@.take(n as int).drop_last() =~= t@.take(n - 1));
        n = n - 1;
    }
    t.substring_char(0, n)
}

/// Maps ASCII capitals to small letters and leaves every other character as it is.
fn lowercase(t: &str) -> (r: String)
    ensures
        r@ == t@.map_values(|c: char| ascii_lower(c)),
{
    let letters = "abcdefghijklmnopqrstuvwxyz";
    proof {
        reveal_strlit("abcdefghijklmnopqrstuvwxyz");
    }
    let ghost lower = t@.map_values(|c: char| ascii_lower(c));
    let n: usize = t.unicode_len();
    let mut out = String::new();
    let mut i: usize = 0;
    while i < n
        invariant
            n == t@.len(),
            i <= n,
            lower == t@.map_values(|c: char| ascii_lower(c)),
            letters@.len() == 26,
            forall|k: int| 0 <= k < 26 ==> #[trigger] letters@[k] == (97 + k) as char,
            out@ =~= lower.take(i as int),
        decreases n - i,
    {
        let c = t.get_char(i);
        if 'A' <= c && c <= 'Z' {
            let k: usize = (c as u32 - 65) as usize;
            out.append(letters.substring_char(k, k + 1));
        } else {
            out.append(t.substring_char(i, i + 1));
        }
        i = i + 1;
    }
    assert(lower.take(n as int) =~= lower);
    out
}

/// The spelling under which an endpoint is compared.
pub fn normalized(endpoint: &str) -> (r: String)
    ensures
        r@ == normalized_spec(endpoint@),
{
    lowercase(trim_slashes(endpoint))
}

/// Normalizing twice is normalizing once.
pub proof fn law_normalizing_is_idempotent(t: Seq<char>)
    ensures
        normalized_spec(normalized_spec(t)) == normalized_spec(t),
{
    lemma_trimmed(t);
    let u = trimmed(t);
    let n = normalized_spec(t);
    assert(trimmed(n) == n) by {
        if n.len() > 0 {
            assert(n.last() == ascii_lower(u.last()));
            assert(u.last() != '/');
        }
    }
    assert forall|c: char| #[trigger] ascii_lower(ascii_lower(c)) == ascii_lower(c) by {}
    assert(normalized_spec(n) =~= n);
}

proof fn lemma_trimmed(t: Seq<char>)
    ensures
        trimmed(t).len() > 0 ==> trimmed(t).last() != '/',
        trimmed(t).len() <= t.len(),
    decreases t.len(),
{
    if t.len() > 0 && t.last() == '/' {
        lemma_trimmed(t.drop_last());
    }
}

/// Lexicographic order of bytes.
pub open spec fn bytes_less(a: Seq<u8>, b: Seq<u8>) -> bool
    decreases a.len(),
{
    if b.len() == 0 {
        false
    } else if a.len() == 0 {
        true
    } else if a[0] != b[0] {
        a[0] < b[0]
    } else {
        bytes_less(a.skip(1), b.skip(1))
    }
}

/// The order of texts: lexicographic, by the bytes of their UTF-8 form.
pub open spec fn text_less(a: Seq<char>, b: Seq<char>) -> bool {
    bytes_less(encode_utf8(a), encode_utf8(b))
}

proof fn lemma_bytes_less_total(a: Seq<u8>, b: Seq<u8>)
    ensures
        bytes_less(a, b) || bytes_less(b, a) || a == b,
        !(bytes_less(a, b) && bytes_less(b, a)),
        a == b ==> !bytes_less(a, b),
    decreases a.len(),
{
    if a.len() == 0 || b.len() == 0 {
        if a.len() == 0 && b.len() == 0 {
            assert(a =~= b);
        }
    } else if a[0] == b[0] {
        lemma_bytes_less_total(a.skip(1), b.skip(1));
        if a.skip(1) == b.skip(1) {
            assert(a =~= seq![a[0]] + a.skip(1));
            assert(b =~= seq![b[0]] + b.skip(1));
        }
    }
}

proof fn lemma_bytes_less_transitive(a: Seq<u8>, b: Seq<u8>, c: Seq<u8>)
    requires
        bytes_less(a, b),
        bytes_less(b, c),
    ensures
        bytes_less(a, c),
    decreases a.len(),
{
    if a.len() > 0 && a[0] == b[0] && b[0] == c[0] {
        lemma_bytes_less_transitive(a.skip(1), b.skip(1), c.skip(1));
    }
}

/// Of two texts, either one comes first or they are equal.
pub proof fn lemma_text_less(a: Seq<char>, b: Seq<char>)
    ensures
        text_less(a, b) || text_less(b, a) || a == b,
        !(text_less(a, b) && text_less(b, a)),
        a == b ==> !text_less(a, b),
{
    broadcast use vstd::utf8::encode_utf8_decode_utf8;

    lemma_bytes_less_total(encode_utf8(a), encode_utf8(b));
    if encode_utf8(a) == encode_utf8(b) {
        assert(vstd::utf8::decode_utf8(encode_utf8(a)) == a);
        assert(vstd::utf8::decode_utf8(encode_utf8(b)) == b);
    }
}

/// Whether `a` comes before `b`.
pub fn text_before(a: &String, b: &String) -> (r: bool)
    ensures
        r == text_less(a@, b@),
{
    let x = a.as_str().as_bytes();
    let y = b.as_str().as_bytes();
    let n: usize = x.len();
    let m: usize = y.len();
    let mut i: usize = 0;
    assert(x@.skip(0) =~= x@);
    assert(y@.skip(0) =~= y@);
    while i < n && i < m && x[i] == y[i]
        invariant
            n == x@.len(),
            m == y@.len(),
            i <= n,
            i <= m,
            bytes_less(x@.skip(i as int), y@.skip(i as int)) == bytes_less(x@, y@),
        decreases n - i,
    {
        assert(x@.skip(i as int).skip(1) =~= x@.skip(i + 1));
        assert(y@.skip(i as int).skip(1) =~= y@.skip(i + 1));
        i = i + 1;
    }
    if i == m {
        false
    } else if i == n {
        true
    } else {
        x[i] < y[i]
    }
}

/// The texts are in ascending order, none twice.
pub open spec fn text_sorted(s: Seq<Seq<char>>) -> bool {
    forall|i: int, j: int| 0 <= i < j < s.len() ==> text_less(#[trigger] s[i], #[trigger] s[j])
}

/// Puts `t` into a sorted set of texts.
pub fn insert_text(set: &mut Vec<String>, t: String)
    requires
        text_sorted(texts(old(set)@)),
    ensures
        text_sorted(texts(final(set)@)),
        forall|x: Seq<char>| #[trigger]
            texts(final(set)@).contains(x) <==> (x == t@ || texts(old(set)@).contains(x)),
{
    let n: usize = set.len();
    let ghost before = texts(set@);
    let mut i: usize = 0;
    while i < n && text_before(&set[i], &t)
        invariant
            n == set@.len(),
            set@ == old(set)@,
            before == texts(set@),
            i <= n,
            forall|k: int| 0 <= k < i ==> text_less(#[trigger] before[k], t@),
        decreases n - i,
    {
        assert(before[i as int] == set@[i as int]@);
        i = i + 1;
    }
    if i < n && same_text(&set[i], &t) {
        assert(before[i as int] == t@);
        assert(before.contains(t@));
        return ;
    }
    let ghost tv = t@;
    let ghost pushed = set@.insert(i as int, t);
    proof {
        let after = texts(pushed);
        assert(after =~= before.insert(i as int, tv));
        if i < n {
            assert(before[i as int] == set@[i as int]@);
            lemma_text_less(before[i as int], tv);
        }
        assert forall|p: int, q: int| 0 <= p < q < after.len() implies text_less(
            #[trigger] after[p],
            #[trigger] after[q],
        ) by {
            if q == i {
                assert(after[p] == before[p]);
            } else if p == i {
                assert(after[q] == before[q - 1]);
                if q - 1 > i {
                    assert(text_less(before[i as int], before[q - 1]));
                    lemma_bytes_less_transitive(
                        encode_utf8(tv),
                        encode_utf8(before[i as int]),
                        encode_utf8(before[q - 1]),
                    );
                }
            } else {
                let p0 = if p < i {
                    p
                } else {
                    p - 1
                };
                let q0 = if q < i {
                    q
                } else {
                    q - 1
                };
                assert(after[p] == before[p0]);
                assert(after[q] == before[q0]);
            }
        }
        assert forall|x: Seq<char>| #[trigger] after.contains(x) <==> (x == tv || before.contains(x)) by {
            if after.contains(x) {
                let k = choose|k: int| 0 <= k < after.len() && after[k] == x;
                if k < i {
                    assert(before[k] == x);
                } else if k > i {
                    assert(before[k - 1] == x);
                }
            }
            if x == tv {
                assert(after[i as int] == x);
            } else if before.contains(x) {
                let k = choose|k: int| 0 <= k < before.len() && before[k] == x;
                if k < i {
                    assert(after[k] == x);
                } else {
                    assert(after[k + 1] == x);
                }
            }
        }
    }
    set.insert(i, t);
}

/// Whether `t` is one of the texts.
pub fn has_text(v: &Vec<String>, t: &String) -> (r: bool)
    ensures
        r == texts(v@).contains(t@),
{
    let n: usize = v.len();
    let mut i: usize = 0;
    while i < n
        invariant
            n == v@.len(),
            i <= n,
            forall|k: int| 0 <= k < i ==> (#[trigger] texts(v@)[k]) != t@,
        decreases n - i,
    {
        assert(texts(v@)[i as int] == v@[i as int]@);
        if same_text(&v[i], t) {
            assert(texts(v@).contains(t@));
            return true;
        }
        i = i + 1;
    }
    false
}

/// Whether the two lists share no text.
pub fn disjoint_texts(a: &Vec<String>, b: &Vec<String>) -> (r: bool)
    ensures
        r == (forall|x: Seq<char>| !(#[trigger] texts(a@).contains(x) && texts(b@).contains(x))),
{
    let n: usize = a.len();
    let mut i: usize = 0;
    while i < n
        invariant
            n == a@.len(),
            i <= n,
            forall|k: int| 0 <= k < i ==> !texts(b@).contains(#[trigger] texts(a@)[k]),
        decreases n - i,
    {
        assert(texts(a@)[i as int] == a@[i as int]@);
        if has_text(b, &a[i]) {
            assert(texts(a@).contains(a@[i as int]@));
            return false;
        }
        i = i + 1;
    }
    true
}

/// Two spellings are one server exactly where they differ in slashes at the end and in the case of
/// ASCII letters: a slash at the end changes nothing, and apart from those every character counts
/// in its place, a capital as the small letter.
pub proof fn law_only_case_and_trailing_slashes_are_ignored(t: Seq<char>)
    ensures
        normalized_spec(t.push('/')) == normalized_spec(t),
        t.len() == 0 || t.last() != '/' ==> {
            let n = normalized_spec(t);
            &&& n.len() == t.len()
            &&& forall|i: int|
                0 <= i < t.len() && 'A' <= #[trigger] t[i] && t[i] <= 'Z' ==> n[i] as u32 == t[i]
                    as u32 + 32
            &&& forall|i: int|
                0 <= i < t.len() && !('A' <= #[trigger] t[i] && t[i] <= 'Z') ==> n[i] == t[i]
        },
{
    assert(t.push('/').drop_last() =~= t);
}

/// Bytes are ordered by the first place at which they differ, and a prefix comes before what goes
/// on.
pub proof fn law_the_first_difference_decides(a: Seq<u8>, b: Seq<u8>, n: int)
    requires
        0 <= n <= a.len(),
        n <= b.len(),
        a.take(n) == b.take(n),
    ensures
        n < a.len() && n < b.len() && a[n] != b[n] ==> (bytes_less(a, b) <==> a[n] < b[n]),
        n == a.len() ==> (bytes_less(a, b) <==> a.len() < b.len()),
    decreases n,
{
    if n > 0 {
        assert(a[0] == a.take(n)[0] && b[0] == b.take(n)[0]);
        assert(a.skip(1).take(n - 1) =~= a.take(n).skip(1));
        assert(b.skip(1).take(n - 1) =~= b.take(n).skip(1));
        law_the_first_difference_decides(a.skip(1), b.skip(1), n - 1);
        if n < a.len() && n < b.len() {
            assert(a.skip(1)[n - 1] == a[n] && b.skip(1)[n - 1] == b[n]);
        }
    }
}

} // verus!
