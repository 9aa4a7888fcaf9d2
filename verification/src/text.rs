//! Text primitives shared by the field, the constraint model and the
//! multi-frame loop: the code-point ordering of strings (the order in which
//! every keyed table of the library walks its keys), blank detection,
//! decimal and hexadecimal rendering, and a few character-level edits.

use vstd::prelude::*;

verus! {

/// Result of comparing two texts.
#[derive(Clone, Copy, Debug, PartialEq, Eq, Structural)]
pub enum TextOrder {
    Less,
    Equal,
    Greater,
}

/// Lexicographic comparison by code point, starting at position `i`.
pub open spec fn text_lt_from(a: Seq<char>, b: Seq<char>, i: int) -> bool
    decreases a.len() - i,
{
    if i < 0 || i >= a.len() {
        i >= 0 && i == a.len() && i < b.len()
    } else if i >= b.len() {
        false
    } else if a[i] != b[i] {
        (a[i] as int) < (b[i] as int)
    } else {
        text_lt_from(a, b, i + 1)
    }
}

/// `a` sorts strictly before `b` in the order of Rust's `String` (which,
/// for valid UTF-8, coincides with code-point lexicographic order).
pub open spec fn text_lt(a: Seq<char>, b: Seq<char>) -> bool {
    text_lt_from(a, b, 0)
}

pub open spec fn text_le(a: Seq<char>, b: Seq<char>) -> bool {
    text_lt(a, b) || a == b
}

proof fn lemma_lt_from_irreflexive(a: Seq<char>, i: int)
    requires
        0 <= i <= a.len(),
    ensures
        !text_lt_from(a, a, i),
    decreases a.len() - i,
{
    if i < a.len() {
        lemma_lt_from_irreflexive(a, i + 1);
    }
}

proof fn lemma_lt_from_asymmetric(a: Seq<char>, b: Seq<char>, i: int)
    requires
        0 <= i,
        text_lt_from(a, b, i),
    ensures
        !text_lt_from(b, a, i),
    decreases a.len() - i,
{
    if i < a.len() && i < b.len() && a[i] == b[i] {
        lemma_lt_from_asymmetric(a, b, i + 1);
    }
}

proof fn lemma_lt_from_transitive(a: Seq<char>, b: Seq<char>, c: Seq<char>, i: int)
    requires
        0 <= i,
        text_lt_from(a, b, i),
        text_lt_from(b, c, i),
    ensures
        text_lt_from(a, c, i),
    decreases a.len() - i,
{
    if i < a.len() && i < b.len() && i < c.len() && a[i] == b[i] && b[i] == c[i] {
        lemma_lt_from_transitive(a, b, c, i + 1);
    }
}

proof fn lemma_lt_from_total(a: Seq<char>, b: Seq<char>, i: int)
    requires
        0 <= i <= a.len(),
        i <= b.len(),
        !text_lt_from(a, b, i),
        !text_lt_from(b, a, i),
    ensures
        a.len() == b.len(),
        forall|j: int| i <= j < a.len() ==> a[j] == b[j],
    decreases a.len() - i,
{
    if i < a.len() && i < b.len() {
        if a[i] == b[i] {
            lemma_lt_from_total(a, b, i + 1);
        } else {
            assert((a[i] as int) != (b[i] as int));
        }
    }
}

/// The text order is a strict total order.
pub proof fn lemma_text_lt_irreflexive(a: Seq<char>)
    ensures
        !text_lt(a, a),
{
    lemma_lt_from_irreflexive(a, 0);
}

pub proof fn lemma_text_lt_asymmetric(a: Seq<char>, b: Seq<char>)
    requires
        text_lt(a, b),
    ensures
        !text_lt(b, a),
{
    lemma_lt_from_asymmetric(a, b, 0);
}

pub proof fn lemma_text_lt_transitive(a: Seq<char>, b: Seq<char>, c: Seq<char>)
    requires
        text_lt(a, b),
        text_lt(b, c),
    ensures
        text_lt(a, c),
{
    lemma_lt_from_transitive(a, b, c, 0);
}

pub proof fn lemma_text_lt_total(a: Seq<char>, b: Seq<char>)
    ensures
        text_lt(a, b) || text_lt(b, a) || a == b,
{
    if !text_lt(a, b) && !text_lt(b, a) {
        lemma_lt_from_total(a, b, 0);
        assert(a =~= b);
    }
}

/// Wrapper for `String::push`: appends one character.
#[verifier::external_body]
pub(crate) fn push_char(s: &mut String, c: char)
    ensures
        final(s)@ == old(s)@.push(c),
{
    s.push(c);
}

/// The characters of a text, in order.
pub fn chars_of(s: &str) -> (r: Vec<char>)
    ensures
        r@ == s@,
{
    let mut v: Vec<char> = Vec::new();
    for c in it: s.chars()
        invariant
            v@ == it.seq().take(it.index() as int),
    {
        v.push(c);
    }
    v
}

/// A text built from a character sequence.
pub fn text_from_chars(cs: &Vec<char>) -> (r: String)
    ensures
        r@ == cs@,
{
    let mut s = String::new();
    for i in 0..cs.len()
        invariant
            s@ == cs@.take(i as int),
    {
        push_char(&mut s, cs[i]);
        assert(cs@.take(i as int).push(cs@[i as int]) =~= cs@.take(i + 1));
    }
    assert(cs@.take(cs.len() as int) =~= cs@);
    s
}

/// Three-way comparison of two texts in the order of [`text_lt`].
pub fn compare_text(a: &str, b: &str) -> (r: TextOrder)
    ensures
        (r == TextOrder::Less) == text_lt(a@, b@),
        (r == TextOrder::Equal) == (a@ == b@),
        (r == TextOrder::Greater) == text_lt(b@, a@),
{
    let ca = chars_of(a);
    let cb = chars_of(b);
    let mut i: usize = 0;
    proof {
        lemma_text_lt_total(a@, b@);
    }
    while i < ca.len() && i < cb.len()
        invariant
            ca@ == a@,
            cb@ == b@,
            i <= ca.len(),
            i <= cb.len(),
            forall|j: int| 0 <= j < i ==> a@[j] == b@[j],
            text_lt(a@, b@) == text_lt_from(a@, b@, i as int),
            text_lt(b@, a@) == text_lt_from(b@, a@, i as int),
        decreases ca.len() - i,
    {
        if ca[i] != cb[i] {
            proof {
                if a@ == b@ {
                    assert(a@[i as int] == b@[i as int]);
                }
            }
            if ca[i] < cb[i] {
                return TextOrder::Less;
            } else {
                return TextOrder::Greater;
            }
        }
        i = i + 1;
    }
    if ca.len() == cb.len() {
        assert(a@ =~= b@);
        proof {
            lemma_text_lt_irreflexive(a@);
        }
        TextOrder::Equal
    } else if ca.len() < cb.len() {
        proof {
            lemma_text_lt_asymmetric(a@, b@);
        }
        TextOrder::Less
    } else {
        proof {
            lemma_text_lt_asymmetric(b@, a@);
        }
        TextOrder::Greater
    }
}

/// Equality of two texts.
pub fn text_eq(a: &str, b: &str) -> (r: bool)
    ensures
        r == (a@ == b@),
{
    match compare_text(a, b) {
        TextOrder::Equal => true,
        _ => false,
    }
}

/// The characters with the Unicode `White_Space` property, the set that
/// `char::is_whitespace` and `str::trim` go by.
pub open spec fn is_white_space(c: char) -> bool {
    let v = c as u32;
    ||| 0x09 <= v <= 0x0D
    ||| v == 0x20
    ||| v == 0x85
    ||| v == 0xA0
    ||| v == 0x1680
    ||| 0x2000 <= v <= 0x200A
    ||| v == 0x2028
    ||| v == 0x2029
    ||| v == 0x202F
    ||| v == 0x205F
    ||| v == 0x3000
}

/// A text is blank when trimming its white space leaves nothing.
pub open spec fn is_blank_text(s: Seq<char>) -> bool {
    forall|i: int| 0 <= i < s.len() ==> is_white_space(#[trigger] s[i])
}

pub fn is_white_space_char(c: char) -> (r: bool)
    ensures
        r == is_white_space(c),
{
    let v = c as u32;
    (0x09 <= v && v <= 0x0D) || v == 0x20 || v == 0x85 || v == 0xA0 || v == 0x1680 || (0x2000
        <= v && v <= 0x200A) || v == 0x2028 || v == 0x2029 || v == 0x202F || v == 0x205F || v
        == 0x3000
}

/// `s.trim().is_empty()`.
pub fn is_blank(s: &str) -> (r: bool)
    ensures
        r == is_blank_text(s@),
{
    let cs = chars_of(s);
    for i in 0..cs.len()
        invariant
            cs@ == s@,
            forall|j: int| 0 <= j < i ==> is_white_space(#[trigger] s@[j]),
    {
        if !is_white_space_char(cs[i]) {
            return false;
        }
    }
    true
}

/// The character of a decimal digit.
pub open spec fn digit_char(d: nat) -> char {
    ((d + 48) as u32) as char
}

/// Decimal rendering of a natural number, without leading zeros.
pub open spec fn decimal_text(n: nat) -> Seq<char>
    decreases n,
{
    if n < 10 {
        seq![digit_char(n)]
    } else {
        decimal_text(n / 10).push(digit_char(n % 10))
    }
}

fn digit_to_char(d: u64) -> (c: char)
    requires
        d < 16,
    ensures
        c == ((d + 48) as u32) as char,
{
    ((d as u8) + 48u8) as char
}

/// Appends the decimal rendering of `n` (what `format!("{}", n)` writes).
pub fn push_decimal(s: &mut String, n: u64)
    ensures
        final(s)@ == old(s)@ + decimal_text(n as nat),
    decreases n,
{
    if n < 10 {
        push_char(s, digit_to_char(n));
        assert(old(s)@.push(digit_char(n as nat)) =~= old(s)@ + seq![digit_char(n as nat)]);
    } else {
        push_decimal(s, n / 10);
        push_char(s, digit_to_char(n % 10));
        assert(old(s)@ + decimal_text((n / 10) as nat) + seq![digit_char((n % 10) as nat)]
            =~= old(s)@ + decimal_text(n as nat));
    }
}

/// Lower-case hexadecimal digit.
pub open spec fn hex_digit(d: nat) -> char {
    if d < 10 {
        ((d + 48) as u32) as char
    } else {
        ((d + 87) as u32) as char
    }
}

/// Lower-case hexadecimal rendering of bytes, two digits per byte (what
/// `format!("{:x}", digest)` writes for a digest).
pub open spec fn hex_text(bytes: Seq<u8>) -> Seq<char>
    decreases bytes.len(),
{
    if bytes.len() == 0 {
        seq![]
    } else {
        hex_text(bytes.drop_last()).push(hex_digit((bytes.last() / 16) as nat)).push(
            hex_digit((bytes.last() % 16) as nat),
        )
    }
}

/// Two hex digits per byte.
pub proof fn lemma_hex_text_len(bytes: Seq<u8>)
    ensures
        hex_text(bytes).len() == 2 * bytes.len(),
    decreases bytes.len(),
{
    if bytes.len() > 0 {
        lemma_hex_text_len(bytes.drop_last());
    }
}

fn hex_char(d: u8) -> (c: char)
    requires
        d < 16,
    ensures
        c == hex_digit(d as nat),
{
    if d < 10 {
        (d + 48u8) as char
    } else {
        (d + 87u8) as char
    }
}

pub fn hex_string(bytes: &Vec<u8>) -> (r: String)
    ensures
        r@ == hex_text(bytes@),
{
    let mut s = String::new();
    for i in 0..bytes.len()
        invariant
            s@ == hex_text(bytes@.take(i as int)),
    {
        let b = bytes[i];
        push_char(&mut s, hex_char(b / 16));
        push_char(&mut s, hex_char(b % 16));
        assert(bytes@.take(i + 1).drop_last() =~= bytes@.take(i as int));
    }
    assert(bytes@.take(bytes.len() as int) =~= bytes@);
    s
}

/// `pat` occurs in `s` as a contiguous run.
pub open spec fn text_contains(s: Seq<char>, pat: Seq<char>) -> bool {
    exists|i: int| 0 <= i && i + pat.len() <= s.len() && #[trigger] s.subrange(i, i + pat.len()) == pat
}

/// `s.contains(pat)`.
pub fn contains_text(s: &str, pat: &str) -> (r: bool)
    ensures
        r == text_contains(s@, pat@),
{
    let cs = chars_of(s);
    let cp = chars_of(pat);
    if cp.len() > cs.len() {
        return false;
    }
    let last = cs.len() - cp.len();
    let mut i: usize = 0;
    while i <= last
        invariant
            cs@ == s@,
            cp@ == pat@,
            last == cs.len() - cp.len(),
            cp.len() <= cs.len(),
            i <= last + 1,
            forall|k: int| 0 <= k < i ==> #[trigger] s@.subrange(k, k + pat@.len()) != pat@,
        decreases last + 1 - i,
    {
        let mut j: usize = 0;
        let mut same = true;
        while j < cp.len()
            invariant
                cs@ == s@,
                cp@ == pat@,
                i + cp.len() <= cs.len(),
                j <= cp.len(),
                same == (forall|m: int| 0 <= m < j ==> s@[i + m] == pat@[m]),
            decreases cp.len() - j,
        {
            if cs[i + j] != cp[j] {
                same = false;
            }
            j = j + 1;
        }
        if same {
            assert(s@.subrange(i as int, i + pat@.len()) =~= pat@);
            return true;
        }
        proof {
            if s@.subrange(i as int, i + pat@.len()) == pat@ {
                assert forall|m: int| 0 <= m < cp.len() implies s@[i + m] == pat@[m] by {
                    assert(s@.subrange(i as int, i + pat@.len())[m] == s@[i + m]);
                }
            }
        }
        i = i + 1;
    }
    false
}

/// Every occurrence of `from` replaced by `to`.
pub open spec fn replace_char_text(s: Seq<char>, from: char, to: char) -> Seq<char> {
    s.map_values(|c: char| if c == from { to } else { c })
}

/// `s.replace(from, to)` for single characters.
pub fn replace_char(s: &str, from: char, to: char) -> (r: String)
    ensures
        r@ == replace_char_text(s@, from, to),
{
    let cs = chars_of(s);
    let mut out = String::new();
    for i in 0..cs.len()
        invariant
            cs@ == s@,
            out@ == replace_char_text(s@.take(i as int), from, to),
    {
        let c = cs[i];
        if c == from {
            push_char(&mut out, to);
        } else {
            push_char(&mut out, c);
        }
        assert(replace_char_text(s@.take(i + 1), from, to) =~= replace_char_text(
            s@.take(i as int),
            from,
            to,
        ).push(if c == from { to } else { c }));
    }
    assert(s@.take(cs.len() as int) =~= s@);
    out
}


/// The texts are in ascending code-point order.
pub open spec fn texts_sorted(s: Seq<String>) -> bool {
    forall|a: int, b: int| 0 <= a < b < s.len() ==> !text_lt(#[trigger] s[b]@, #[trigger] s[a]@)
}

fn text_slot(out: &Vec<String>, x: &String) -> (p: usize)
    requires
        texts_sorted(out@),
    ensures
        p <= out.len(),
        forall|a: int| 0 <= a < p ==> !text_lt(x@, #[trigger] out@[a]@),
        forall|b: int| p <= b < out.len() ==> text_lt(x@, #[trigger] out@[b]@),
{
    let mut p: usize = 0;
    while p < out.len()
        invariant
            p <= out.len(),
            texts_sorted(out@),
            forall|a: int| 0 <= a < p ==> !text_lt(x@, #[trigger] out@[a]@),
        decreases out.len() - p,
    {
        match compare_text(x.as_str(), out[p].as_str()) {
            TextOrder::Less => {
                proof {
                    assert forall|b: int| p <= b < out.len() implies text_lt(x@, #[trigger] out@[b]@) by {
                        if b > p {
                            assert(!text_lt(out@[b]@, out@[p as int]@));
                            lemma_text_lt_total(out@[p as int]@, out@[b]@);
                            if out@[p as int]@ != out@[b]@ {
                                lemma_text_lt_transitive(x@, out@[p as int]@, out@[b]@);
                            }
                        }
                    }
                }
                return p;
            },
            _ => {
                p = p + 1;
            },
        }
    }
    p
}

/// The same texts in ascending code-point order (`sort` on strings).
pub fn sort_texts(v: &Vec<String>) -> (r: Vec<String>)
    ensures
        r@.to_multiset() == v@.to_multiset(),
        texts_sorted(r@),
{
    let mut out: Vec<String> = Vec::new();
    let n = v.len();
    proof {
        assert(v@.take(0) =~= Seq::<String>::empty());
        assert(out@ =~= Seq::<String>::empty());
    }
    for i in 0..n
        invariant
            n == v.len(),
            out@.to_multiset() == v@.take(i as int).to_multiset(),
            texts_sorted(out@),
    {
        let x = v[i].clone();
        let p = text_slot(&out, &x);
        let ghost before = out@;
        out.insert(p, x);
        proof {
            let s = out@;
            assert(s =~= before.insert(p as int, x));
            assert forall|a: int, b: int| 0 <= a < b < s.len() implies !text_lt(
                #[trigger] s[b]@,
                #[trigger] s[a]@,
            ) by {
                if b < p {
                    assert(s[a] == before[a] && s[b] == before[b]);
                } else if b == p {
                    assert(s[a] == before[a]);
                } else if a < p {
                    assert(s[a] == before[a] && s[b] == before[b - 1]);
                } else if a == p {
                    assert(s[b] == before[b - 1]);
                    lemma_text_lt_asymmetric(x@, before[b - 1]@);
                } else {
                    assert(s[a] == before[a - 1] && s[b] == before[b - 1]);
                }
            }
            vstd::seq_lib::to_multiset_insert(before, p as int, x);
            assert(v@.take(i + 1) =~= v@.take(i as int).push(v@[i as int]));
            vstd::seq_lib::to_multiset_build(v@.take(i as int), v@[i as int]);
        }
    }
    assert(v@.take(n as int) =~= v@);
    out
}

} // verus!
