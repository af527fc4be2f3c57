//! Small string rules: parsing a drone brand out of a recording's file name,
//! comparing and ordering names, and hashing a clip id into a reproducible
//! seed.

use vstd::prelude::*;
use vstd::string::*;

verus! {

/// Position of the last `c` in `s`, or -1 when `s` holds none.
pub open spec fn last_index_of(s: Seq<char>, c: char) -> int
    decreases s.len(),
{
    if s.len() == 0 {
        -1
    } else if s.last() == c {
        s.len() - 1
    } else {
        last_index_of(s.drop_last(), c)
    }
}

/// Whether `c` is an ASCII decimal digit.
pub open spec fn is_ascii_digit(c: char) -> bool {
    '0' <= c && c <= '9'
}

/// Whether `s` is non-empty and made only of ASCII decimal digits.
pub open spec fn is_digit_run(s: Seq<char>) -> bool {
    s.len() > 0 && forall|k: int| 0 <= k < s.len() ==> is_ascii_digit(#[trigger] s[k])
}

/// The brand/model of a recording: the file stem with a trailing `_<take>`
/// index removed when the text after the last underscore is all digits, e.g.
/// `DJI_Mavic_Air2_63` names the brand `DJI_Mavic_Air2`.
pub open spec fn brand_of_spec(stem: Seq<char>) -> Seq<char> {
    let i = last_index_of(stem, '_');
    if i >= 0 && is_digit_run(stem.subrange(i + 1, stem.len() as int)) {
        stem.subrange(0, i)
    } else {
        stem
    }
}

/// `last_index_of` is -1 or the position of a `c` with no `c` after it.
pub proof fn lemma_last_index_of(s: Seq<char>, c: char)
    ensures
        -1 <= last_index_of(s, c) < s.len(),
        last_index_of(s, c) >= 0 ==> s[last_index_of(s, c)] == c,
        forall|k: int| last_index_of(s, c) < k < s.len() ==> #[trigger] s[k] != c,
    decreases s.len(),
{
    if s.len() > 0 {
        lemma_last_index_of(s.drop_last(), c);
        assert forall|k: int| last_index_of(s, c) < k < s.len() implies #[trigger] s[k] != c by {
            if k < s.len() - 1 {
                assert(s.drop_last()[k] == s[k]);
            }
        }
    }
}

/// Law: a stem made of a head, an underscore and a non-empty run of ASCII
/// digits (the take index, of any length) names the brand `head`.
pub proof fn lemma_brand_drops_take_index(head: Seq<char>, digits: Seq<char>)
    requires
        is_digit_run(digits),
    ensures
        brand_of_spec(head + seq!['_'] + digits) == head,
{
    let s = head + seq!['_'] + digits;
    let u = head.len() as int;
    lemma_last_index_of(s, '_');
    let l = last_index_of(s, '_');
    assert(s[u] == '_');
    assert forall|k: int| u < k < s.len() implies #[trigger] s[k] != '_' by {
        assert(s[k] == digits[k - u - 1]);
        assert(is_ascii_digit(digits[k - u - 1]));
    }
    if l < u {
        assert(s[u] != '_');
    }
    if l > u {
        assert(s[l] != '_');
    }
    assert(l == u);
    assert(s.subrange(l + 1, s.len() as int) =~= digits);
    assert(s.subrange(0, l) =~= head);
}

/// Law: the brand is either the whole stem, or the stem is the brand followed
/// by an underscore and a non-empty run of ASCII digits.
pub proof fn lemma_brand_is_stem_or_prefix(stem: Seq<char>)
    ensures
        brand_of_spec(stem) == stem || exists|d: Seq<char>|
            is_digit_run(d) && stem == #[trigger] (brand_of_spec(stem) + seq!['_'] + d),
{
    lemma_last_index_of(stem, '_');
    let i = last_index_of(stem, '_');
    if i >= 0 && is_digit_run(stem.subrange(i + 1, stem.len() as int)) {
        let d = stem.subrange(i + 1, stem.len() as int);
        assert(stem =~= stem.subrange(0, i) + seq!['_'] + d);
    }
}

/// Parse the brand/model from a recording's file stem.
pub fn brand_of(file_stem: &str) -> (r: String)
    ensures
        r@ == brand_of_spec(file_stem@),
{
    let n = file_stem.unicode_len();
    proof {
        lemma_last_index_of(file_stem@, '_');
    }
    // Scan back for the last underscore.
    let mut j: usize = n;
    while j > 0
        invariant
            j <= n,
            n == file_stem@.len(),
            forall|k: int| j <= k < n ==> #[trigger] file_stem@[k] != '_',
        ensures
            j <= n,
            forall|k: int| j <= k < n ==> #[trigger] file_stem@[k] != '_',
            j == 0 || file_stem@[j - 1] == '_',
        decreases j,
    {
        if file_stem.get_char(j - 1) == '_' {
            break;
        }
        j = j - 1;
    }
    if j == 0 {
        proof {
            assert(last_index_of(file_stem@, '_') == -1) by {
                if last_index_of(file_stem@, '_') >= 0 {
                    assert(file_stem@[last_index_of(file_stem@, '_')] == '_');
                }
            }
        }
        return String::from_str(file_stem);
    }
    let i = j - 1;
    proof {
        assert(file_stem@[i as int] == '_');
        assert(last_index_of(file_stem@, '_') == i) by {
            let l = last_index_of(file_stem@, '_');
            if l > i {
                assert(file_stem@[l] == '_');
            }
            if l < i {
                assert(file_stem@[i as int] != '_');
            }
        }
    }
    let tail_len = n - i - 1;
    let mut all_digits = tail_len > 0;
    let mut k: usize = i + 1;
    while k < n
        invariant
            i < n,
            n == file_stem@.len(),
            i + 1 <= k <= n,
            tail_len == n - i - 1,
            all_digits == (tail_len > 0 && forall|m: int|
                i + 1 <= m < k ==> is_ascii_digit(#[trigger] file_stem@[m])),
        decreases n - k,
    {
        let c = file_stem.get_char(k);
        if !('0' <= c && c <= '9') {
            all_digits = false;
        }
        k = k + 1;
    }
    proof {
        let tail = file_stem@.subrange(i + 1, n as int);
        if all_digits {
            assert forall|m: int| 0 <= m < tail.len() implies is_ascii_digit(#[trigger] tail[m]) by {
                assert(tail[m] == file_stem@[i + 1 + m]);
            }
        } else if tail_len > 0 {
            let m = choose|m: int| i + 1 <= m < n && !is_ascii_digit(#[trigger] file_stem@[m]);
            assert(tail[m - i - 1] == file_stem@[m]);
        }
    }
    if all_digits {
        String::from_str(file_stem.substring_char(0, i))
    } else {
        String::from_str(file_stem)
    }
}

/// Whether two strings hold the same characters.
pub fn str_eq(a: &str, b: &str) -> (r: bool)
    ensures
        r == (a@ == b@),
{
    let n = a.unicode_len();
    let m = b.unicode_len();
    if n != m {
        return false;
    }
    let mut k: usize = 0;
    while k < n
        invariant
            n == a@.len(),
            n == b@.len(),
            k <= n,
            forall|j: int| 0 <= j < k ==> a@[j] == b@[j],
        decreases n - k,
    {
        if a.get_char(k) != b.get_char(k) {
            return false;
        }
        k = k + 1;
    }
    assert(a@ =~= b@);
    true
}

/// The character sequences of a list of strings.
pub open spec fn string_views(v: Seq<String>) -> Seq<Seq<char>> {
    v.map_values(|s: String| s@)
}

/// Lexicographic order of character sequences by code point. UTF-8 keeps code
/// point order in its bytes, so this is the order of `str` and `String`.
pub open spec fn chars_lt(a: Seq<char>, b: Seq<char>) -> bool
    decreases a.len(),
{
    if a.len() == 0 {
        b.len() > 0
    } else if b.len() == 0 {
        false
    } else if a[0] != b[0] {
        a[0] < b[0]
    } else {
        chars_lt(a.drop_first(), b.drop_first())
    }
}

/// `chars_lt` is irreflexive.
pub proof fn lemma_chars_lt_irreflexive(a: Seq<char>)
    ensures
        !chars_lt(a, a),
    decreases a.len(),
{
    if a.len() > 0 {
        lemma_chars_lt_irreflexive(a.drop_first());
    }
}

/// `chars_lt` is transitive.
pub proof fn lemma_chars_lt_transitive(a: Seq<char>, b: Seq<char>, c: Seq<char>)
    requires
        chars_lt(a, b),
        chars_lt(b, c),
    ensures
        chars_lt(a, c),
    decreases a.len(),
{
    if a.len() > 0 && b.len() > 0 && c.len() > 0 && a[0] == b[0] && b[0] == c[0] {
        lemma_chars_lt_transitive(a.drop_first(), b.drop_first(), c.drop_first());
    }
}

/// Any two sequences are equal or ordered one way by `chars_lt`.
pub proof fn lemma_chars_lt_total(a: Seq<char>, b: Seq<char>)
    ensures
        chars_lt(a, b) || a == b || chars_lt(b, a),
    decreases a.len(),
{
    if a.len() > 0 && b.len() > 0 && a[0] == b[0] {
        lemma_chars_lt_total(a.drop_first(), b.drop_first());
        if a.drop_first() == b.drop_first() {
            assert(a.drop_first().len() == b.drop_first().len());
            assert(a =~= b) by {
                assert forall|i: int| 0 <= i < a.len() implies a[i] == b[i] by {
                    if i > 0 {
                        assert(a[i] == a.drop_first()[i - 1]);
                        assert(b[i] == b.drop_first()[i - 1]);
                    }
                }
            }
        }
    } else if a.len() == 0 && b.len() == 0 {
        assert(a =~= b);
    }
}

/// Whether `a` sorts strictly before `b`.
pub fn str_lt(a: &str, b: &str) -> (r: bool)
    ensures
        r == chars_lt(a@, b@),
{
    let n = a.unicode_len();
    let m = b.unicode_len();
    let mut k: usize = 0;
    proof {
        assert(a@.skip(0) =~= a@);
        assert(b@.skip(0) =~= b@);
    }
    while k < n && k < m && a.get_char(k) == b.get_char(k)
        invariant
            n == a@.len(),
            m == b@.len(),
            k <= n,
            k <= m,
            chars_lt(a@, b@) == chars_lt(a@.skip(k as int), b@.skip(k as int)),
        decreases n - k,
    {
        proof {
            let x = a@.skip(k as int);
            let y = b@.skip(k as int);
            assert(x[0] == a@[k as int] && y[0] == b@[k as int]);
            assert(x.drop_first() =~= a@.skip(k + 1));
            assert(y.drop_first() =~= b@.skip(k + 1));
        }
        k = k + 1;
    }
    let ghost x = a@.skip(k as int);
    let ghost y = b@.skip(k as int);
    if k == n {
        k < m
    } else if k == m {
        false
    } else {
        proof {
            assert(x[0] == a@[k as int] && y[0] == b@[k as int]);
        }
        a.get_char(k) < b.get_char(k)
    }
}

/// 32-bit FNV-1a hash of a byte string.
pub open spec fn fnv1a32(b: Seq<u8>) -> u32
    decreases b.len(),
{
    if b.len() == 0 {
        2_166_136_261u32
    } else {
        (fnv1a32(b.drop_last()) ^ (b.last() as u32)).wrapping_mul(16_777_619u32)
    }
}

/// Seed of the dither stream for one clip at one bit depth: the FNV-1a hash of
/// the clip id's UTF-8 bytes, mixed with the run seed and the bit depth, so a
/// dithered run is reproducible for a fixed seed.
pub fn seed_for(seed: u32, bits: u32, id: &str) -> (r: u32)
    ensures
        r == fnv1a32(id.spec_bytes()) ^ seed.wrapping_mul(2_654_435_761u32).wrapping_add(
            bits.wrapping_mul(40_503u32),
        ),
{
    let bytes = id.as_bytes();
    let n = bytes.len();
    let mut h: u32 = 2_166_136_261;
    let mut k: usize = 0;
    while k < n
        invariant
            n == bytes@.len(),
            bytes@ == id.spec_bytes(),
            k <= n,
            h == fnv1a32(bytes@.take(k as int)),
        decreases n - k,
    {
        assert(bytes@.take(k + 1).drop_last() =~= bytes@.take(k as int));
        h ^= bytes[k] as u32;
        h = h.wrapping_mul(16_777_619);
        k = k + 1;
    }
    assert(bytes@.take(n as int) =~= bytes@);
    h ^ seed.wrapping_mul(2_654_435_761).wrapping_add(bits.wrapping_mul(40_503))
}

} // verus!
