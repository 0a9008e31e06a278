//! Text: numbers, padding, joining, comparison and search, over the characters of a string.
use vstd::prelude::*;
use vstd::string::StrSliceExecFns;
use vstd::string::StringExecFns;

use crate::order;
use crate::order::Ranked;

verus! {

/// `String::push` appends one character.
pub assume_specification[ String::push ](s: &mut String, c: char)
    ensures
        final(s)@ == old(s)@.push(c),
;

/// What `String::from_utf8_lossy` makes of these bytes.
pub uninterp spec fn lossy_text(bytes: Seq<u8>) -> Seq<char>;

/// `String::from_utf8_lossy`. The contract claims that the text depends on the bytes alone, and
/// that bytes which are valid UTF-8 are decoded as they stand.
#[verifier::external_body]
pub(crate) fn lossy(bytes: &[u8]) -> (s: String)
    ensures
        s@ == lossy_text(bytes@),
        vstd::utf8::valid_utf8(bytes@) ==> s@ == vstd::utf8::decode_utf8(bytes@),
{
    String::from_utf8_lossy(bytes).into_owned()
}

/// What `str::to_lowercase` makes of this text.
pub uninterp spec fn lowercase(s: Seq<char>) -> Seq<char>;

/// A letter of the alphabet in lower case; any other ASCII character as it is.
pub open spec fn ascii_lower(c: char) -> char {
    if 'A' <= c <= 'Z' {
        (c as u32 + 32) as char
    } else {
        c
    }
}

/// `str::to_lowercase`. The contract claims that the result depends on the text alone, and that a
/// text of ASCII characters keeps all of them but for the letters `A` to `Z`, each of which becomes
/// the letter of the same name in lower case.
pub assume_specification[ str::to_lowercase ](s: &str) -> (r: String)
    ensures
        r@ == lowercase(s@),
        (forall|i: int| 0 <= i < s@.len() ==> #[trigger] s@[i] <= '\x7f') ==> r@
            == s@.map_values(|c: char| ascii_lower(c)),
;

/// The digit for `d` in bases up to sixteen.
pub open spec fn digit(d: int) -> char {
    if d < 10 {
        (48 + d) as char
    } else {
        (87 + d) as char
    }
}

/// The digits of `n` in the given base, most significant first, without leading zeros.
pub open spec fn digits(n: nat, base: nat) -> Seq<char>
    decreases n,
{
    if base < 2 || n < base {
        seq![digit(n as int)]
    } else {
        proof {
            assert(n / base < n) by (nonlinear_arith)
                requires
                    n >= base,
                    base >= 2,
            ;
        }
        digits(n / base, base).push(digit((n % base) as int))
    }
}

/// `n` in decimal.
pub open spec fn dec(n: nat) -> Seq<char> {
    digits(n, 10)
}

/// `n` in lower case hexadecimal.
pub open spec fn hex(n: nat) -> Seq<char> {
    digits(n, 16)
}

/// A number in decimal is made of digits, and of at least one.
pub proof fn lemma_dec_digits(n: nat)
    ensures
        dec(n).len() > 0,
        forall|i: int| 0 <= i < dec(n).len() ==> '0' <= #[trigger] dec(n)[i] <= '9',
    decreases n,
{
    if n >= 10 {
        lemma_dec_digits(n / 10);
    }
}

/// Two numbers that are the same in decimal are the same.
pub proof fn lemma_dec_injective(m: nat, n: nat)
    requires
        dec(m) == dec(n),
    ensures
        m == n,
{
    lemma_digits_injective(m, n, 10);
}

/// Two numbers that are the same in hexadecimal are the same.
pub proof fn lemma_hex_injective(m: nat, n: nat)
    requires
        hex(m) == hex(n),
    ensures
        m == n,
{
    lemma_digits_injective(m, n, 16);
}

proof fn lemma_digits_some(n: nat, base: nat)
    ensures
        digits(n, base).len() > 0,
        2 <= base && n >= base ==> digits(n, base).len() > 1,
    decreases n,
{
    if 2 <= base && n >= base {
        assert(n / base < n) by (nonlinear_arith)
            requires
                n >= base,
                base >= 2,
        ;
        lemma_digits_some(n / base, base);
    }
}

proof fn lemma_digits_injective(m: nat, n: nat, base: nat)
    requires
        digits(m, base) == digits(n, base),
        2 <= base <= 16,
    ensures
        m == n,
    decreases m,
{
    lemma_digits_some(m, base);
    lemma_digits_some(n, base);
    let x = digits(m, base);
    if m >= base && n >= base {
        assert(x.drop_last() =~= digits(m / base, base));
        assert(x.drop_last() =~= digits(n / base, base));
        assert(m / base < m) by (nonlinear_arith)
            requires
                m >= base,
                base >= 2,
        ;
        lemma_digits_injective(m / base, n / base, base);
        assert(m % base < base && n % base < base) by (nonlinear_arith)
            requires
                base >= 2,
        ;
        assert(x.last() == digit((m % base) as int));
        assert(x.last() == digit((n % base) as int));
        assert(m % base == n % base);
        assert(m == base * (m / base) + m % base) by (nonlinear_arith)
            requires
                base >= 2,
        ;
        assert(n == base * (n / base) + n % base) by (nonlinear_arith)
            requires
                base >= 2,
        ;
    } else {
        assert(x[0] == digit(m as int) || x[0] == digit(n as int));
        assert(m < base && n < base);
    }
}

/// `n` copies of `c`.
pub open spec fn repeated(c: char, n: int) -> Seq<char> {
    Seq::new(if n > 0 { n as nat } else { 0 }, |i: int| c)
}

/// `s` filled up with blanks on its right to `width` characters.
pub open spec fn pad_right(s: Seq<char>, width: int) -> Seq<char> {
    s + repeated(' ', width - s.len())
}

/// `s` filled up with blanks on its left to `width` characters.
pub open spec fn pad_left(s: Seq<char>, width: int) -> Seq<char> {
    repeated(' ', width - s.len()) + s
}

/// `n` in hexadecimal behind `0x`.
pub open spec fn prefixed_hex(n: nat) -> Seq<char> {
    seq!['0', 'x'] + hex(n)
}

/// `n` in hexadecimal behind `0x`, with zeros between them up to `width` characters in all.
pub open spec fn prefixed_hex_padded(n: nat, width: int) -> Seq<char> {
    seq!['0', 'x'] + repeated('0', width - 2 - hex(n).len()) + hex(n)
}

/// The items of `parts` with `sep` between neighbours.
pub open spec fn joined(parts: Seq<Seq<char>>, sep: Seq<char>) -> Seq<char>
    decreases parts.len(),
{
    if parts.len() == 0 {
        Seq::empty()
    } else if parts.len() == 1 {
        parts[0]
    } else {
        joined(parts.drop_last(), sep) + sep + parts.last()
    }
}

/// The characters of each string in a list.
pub open spec fn texts(list: Seq<String>) -> Seq<Seq<char>> {
    list.map_values(|s: String| s@)
}

/// The characters of each string that a map holds.
pub open spec fn text_map<K>(m: Map<K, String>) -> Map<K, Seq<char>> {
    m.map_values(|s: String| s@)
}

/// `needle` stands in `hay` at the character `i`.
pub open spec fn occurs_at(hay: Seq<char>, needle: Seq<char>, i: int) -> bool {
    0 <= i && i + needle.len() <= hay.len() && hay.subrange(i, i + needle.len()) == needle
}

/// `needle` stands somewhere in `hay`.
pub open spec fn contains_text(hay: Seq<char>, needle: Seq<char>) -> bool {
    first_occurrence(hay, needle, 0) is Some
}

/// The first character at or after `from` where `needle` stands in `hay`.
pub open spec fn first_occurrence(hay: Seq<char>, needle: Seq<char>, from: int) -> Option<int>
    decreases hay.len() + 1 - from,
{
    if from + needle.len() > hay.len() {
        None
    } else if occurs_at(hay, needle, from) {
        Some(from)
    } else {
        first_occurrence(hay, needle, from + 1)
    }
}

/// The number of bytes that a character takes in UTF-8.
pub open spec fn utf8_width(c: char) -> nat {
    if (c as u32) < 0x80 {
        1
    } else if (c as u32) < 0x800 {
        2
    } else if (c as u32) < 0x10000 {
        3
    } else {
        4
    }
}

/// The number of bytes that a text takes in UTF-8.
pub open spec fn utf8_len(s: Seq<char>) -> nat
    decreases s.len(),
{
    if s.len() == 0 {
        0
    } else {
        utf8_len(s.drop_last()) + utf8_width(s.last())
    }
}

/// The byte at which `needle` first stands in `hay`.
pub open spec fn find_text(hay: Seq<char>, needle: Seq<char>) -> Option<nat> {
    match first_occurrence(hay, needle, 0) {
        Some(i) => Some(utf8_len(hay.take(i))),
        None => None,
    }
}

/// `s` without the zero characters at its end.
pub open spec fn without_trailing_nuls(s: Seq<char>) -> Seq<char>
    decreases s.len(),
{
    if s.len() > 0 && s.last() == '\0' {
        without_trailing_nuls(s.drop_last())
    } else {
        s
    }
}

/// `a` comes before `b` in the order of their code points.
pub open spec fn text_lt(a: Seq<char>, b: Seq<char>) -> bool
    decreases a.len(),
{
    if b.len() == 0 {
        false
    } else if a.len() == 0 {
        true
    } else if a[0] == b[0] {
        text_lt(a.drop_first(), b.drop_first())
    } else {
        (a[0] as u32) < (b[0] as u32)
    }
}

proof fn lemma_text_lt_irreflexive(a: Seq<char>)
    ensures
        !text_lt(a, a),
    decreases a.len(),
{
    if a.len() > 0 {
        lemma_text_lt_irreflexive(a.drop_first());
    }
}

proof fn lemma_text_lt_transitive(a: Seq<char>, b: Seq<char>, c: Seq<char>)
    requires
        text_lt(a, b),
        text_lt(b, c),
    ensures
        text_lt(a, c),
    decreases a.len(),
{
    if a.len() > 0 && a[0] == b[0] && b[0] == c[0] {
        lemma_text_lt_transitive(a.drop_first(), b.drop_first(), c.drop_first());
    }
}

proof fn lemma_text_lt_total(a: Seq<char>, b: Seq<char>)
    ensures
        a == b || text_lt(a, b) || text_lt(b, a),
    decreases a.len(),
{
    if a.len() > 0 && b.len() > 0 {
        if a[0] == b[0] {
            lemma_text_lt_total(a.drop_first(), b.drop_first());
            if a.drop_first() == b.drop_first() {
                assert(a =~= seq![a[0]] + a.drop_first());
                assert(b =~= seq![b[0]] + b.drop_first());
            }
        } else {
            vstd::utf8::char_u32_cast(a[0], a[0] as u32);
            vstd::utf8::char_u32_cast(b[0], b[0] as u32);
        }
    } else if a.len() == 0 && b.len() == 0 {
        assert(a =~= b);
    }
}

/// The order of texts is a strict total order.
pub proof fn lemma_text_order()
    ensures
        order::strict_order(|a: Seq<char>, b: Seq<char>| text_lt(a, b)),
{
    let lt = |a: Seq<char>, b: Seq<char>| text_lt(a, b);
    assert forall|a: Seq<char>| !(#[trigger] lt(a, a)) by {
        lemma_text_lt_irreflexive(a);
    }
    assert forall|a: Seq<char>, b: Seq<char>, c: Seq<char>| #[trigger]
        lt(a, b) && #[trigger] lt(b, c) implies lt(a, c) by {
        lemma_text_lt_transitive(a, b, c);
    }
    assert forall|a: Seq<char>, b: Seq<char>| a != b implies #[trigger] lt(a, b) || lt(b, a) by {
        lemma_text_lt_total(a, b);
    }
}

/// Appends the digits of `n`.
fn push_digits(out: &mut String, n: u64, base: u64)
    requires
        2 <= base <= 16,
    ensures
        final(out)@ == old(out)@ + digits(n as nat, base as nat),
    decreases n,
{
    let ghost before = out@;
    if n >= base {
        assert(n / base < n) by (nonlinear_arith)
            requires
                n >= base,
                base >= 2,
        ;
        push_digits(out, n / base, base);
    }
    let d: u64 = n % base;
    let c = if d < 10 {
        (48 + d as u8) as char
    } else {
        (87 + d as u8) as char
    };
    assert(c == digit((n as nat % base as nat) as int));
    assert(n < base ==> n % base == n) by (nonlinear_arith)
        requires
            base >= 2,
    ;
    out.push(c);
    assert(out@ =~= before + digits(n as nat, base as nat));
}

pub fn push_dec(out: &mut String, n: u64)
    ensures
        final(out)@ == old(out)@ + dec(n as nat),
{
    push_digits(out, n, 10)
}

pub fn push_hex(out: &mut String, n: u64)
    ensures
        final(out)@ == old(out)@ + hex(n as nat),
{
    push_digits(out, n, 16)
}

pub fn push_repeated(out: &mut String, c: char, n: usize)
    ensures
        final(out)@ == old(out)@ + repeated(c, n as int),
{
    let ghost before = out@;
    let mut i: usize = 0;
    assert(out@ =~= before + repeated(c, 0));
    while i < n
        invariant
            i <= n,
            out@ == before + repeated(c, i as int),
        decreases n - i,
    {
        out.push(c);
        i = i + 1;
        assert(out@ =~= before + repeated(c, i as int));
    }
}

/// Appends `s`, filled up on its right to `width` characters.
pub fn push_pad_right(out: &mut String, s: &str, width: usize)
    ensures
        final(out)@ == old(out)@ + pad_right(s@, width as int),
{
    let ghost before = out@;
    let len = s.unicode_len();
    out.append(s);
    if len < width {
        push_repeated(out, ' ', width - len);
    }
    assert(out@ =~= before + pad_right(s@, width as int));
}

/// Appends `s`, filled up on its left to `width` characters.
pub fn push_pad_left(out: &mut String, s: &str, width: usize)
    ensures
        final(out)@ == old(out)@ + pad_left(s@, width as int),
{
    let ghost before = out@;
    let len = s.unicode_len();
    if len < width {
        push_repeated(out, ' ', width - len);
    }
    out.append(s);
    assert(out@ =~= before + pad_left(s@, width as int));
}

/// Appends `n` in decimal, filled up on its left to `width` characters.
pub fn push_dec_padded(out: &mut String, n: u64, width: usize)
    ensures
        final(out)@ == old(out)@ + pad_left(dec(n as nat), width as int),
{
    let mut s = String::new();
    push_dec(&mut s, n);
    assert(s@ =~= dec(n as nat));
    push_pad_left(out, s.as_str(), width)
}

/// Appends `0x` and `n` in hexadecimal.
pub fn push_prefixed_hex(out: &mut String, n: u64)
    ensures
        final(out)@ == old(out)@ + prefixed_hex(n as nat),
{
    let ghost before = out@;
    out.push('0');
    out.push('x');
    push_hex(out, n);
    assert(out@ =~= before + prefixed_hex(n as nat));
}

/// Appends `0x` and `n` in hexadecimal, with zeros between them up to `width` characters in all.
pub fn push_prefixed_hex_padded(out: &mut String, n: u64, width: usize)
    ensures
        final(out)@ == old(out)@ + prefixed_hex_padded(n as nat, width as int),
{
    let ghost before = out@;
    let mut s = String::new();
    push_hex(&mut s, n);
    assert(s@ =~= hex(n as nat));
    let len = s.as_str().unicode_len();
    out.push('0');
    out.push('x');
    if width > 2 && len < width - 2 {
        push_repeated(out, '0', width - 2 - len);
    }
    out.append(s.as_str());
    assert(out@ =~= before + prefixed_hex_padded(n as nat, width as int));
}

/// Appends the items of `parts` with `sep` between neighbours.
pub fn push_joined(out: &mut String, parts: &Vec<String>, sep: &str)
    ensures
        final(out)@ == old(out)@ + joined(texts(parts@), sep@),
{
    let ghost before = out@;
    let ghost all = texts(parts@);
    let mut i: usize = 0;
    assert(all.take(0) =~= Seq::empty());
    assert(out@ =~= before + joined(all.take(0), sep@));
    while i < parts.len()
        invariant
            i <= parts.len(),
            all == texts(parts@),
            out@ == before + joined(all.take(i as int), sep@),
        decreases parts.len() - i,
    {
        let ghost here = out@;
        if i > 0 {
            out.append(sep);
        }
        out.append(parts[i].as_str());
        assert(all.take(i + 1).drop_last() =~= all.take(i as int));
        assert(all.take(i + 1).last() == parts[i as int]@);
        if i == 0 {
            assert(joined(all.take(1), sep@) == all[0]);
        }
        i = i + 1;
        assert(out@ =~= before + joined(all.take(i as int), sep@));
    }
    assert(all.take(i as int) =~= all);
}

/// The characters of a string as a vector.
pub fn chars_of(s: &str) -> (out: Vec<char>)
    ensures
        out@ == s@,
{
    let mut out: Vec<char> = Vec::new();
    for c in it: s.chars()
        invariant
            out@ == s@.take(it.index()),
            it.seq() == s@,
    {
        out.push(c);
        assert(out@ =~= s@.take(it.index() + 1));
    }
    assert(s@.take(s@.len() as int) =~= s@);
    out
}

/// A string of the given characters.
pub fn string_of(chars: &[char]) -> (out: String)
    ensures
        out@ == chars@,
{
    let mut out = String::new();
    let mut i: usize = 0;
    assert(out@ =~= chars@.take(0));
    while i < chars.len()
        invariant
            i <= chars.len(),
            out@ == chars@.take(i as int),
        decreases chars.len() - i,
    {
        out.push(chars[i]);
        i = i + 1;
        assert(out@ =~= chars@.take(i as int));
    }
    assert(chars@.take(i as int) =~= chars@);
    out
}

/// `prefix` stands at the start of `s`.
pub fn starts_with(s: &str, prefix: &str) -> (r: bool)
    ensures
        r == prefix@.is_prefix_of(s@),
{
    let mut a = s.chars();
    let mut b = prefix.chars();
    let ghost mut i: int = 0;
    assert(s@.skip(0) =~= s@);
    assert(prefix@.skip(0) =~= prefix@);
    loop
        invariant
            0 <= i <= prefix@.len(),
            i <= s@.len(),
            vstd::std_specs::iter::IteratorSpec::remaining(&a) == s@.skip(i),
            vstd::std_specs::iter::IteratorSpec::remaining(&b) == prefix@.skip(i),
            s@.take(i) == prefix@.take(i),
        decreases prefix@.len() - i,
    {
        match b.next() {
            None => {
                assert(prefix@.take(i) =~= prefix@);
                assert(s@.subrange(0, i) =~= s@.take(i));
                return true;
            },
            Some(y) => {
                match a.next() {
                    None => {
                        return false;
                    },
                    Some(x) => {
                        if x != y {
                            assert(s@[i] != prefix@[i]);
                            assert(!prefix@.is_prefix_of(s@)) by {
                                if prefix@.is_prefix_of(s@) {
                                    assert(s@.subrange(0, prefix@.len() as int)[i] == prefix@[i]);
                                }
                            }
                            return false;
                        }
                        proof {
                            assert(s@.skip(i).drop_first() =~= s@.skip(i + 1));
                            assert(prefix@.skip(i).drop_first() =~= prefix@.skip(i + 1));
                            assert(s@.take(i + 1) =~= s@.take(i).push(x));
                            assert(prefix@.take(i + 1) =~= prefix@.take(i).push(y));
                            i = i + 1;
                        }
                    },
                }
            },
        }
    }
}

/// The two texts are the same.
pub fn same_text(a: &str, b: &str) -> (r: bool)
    ensures
        r == (a@ == b@),
{
    let r = starts_with(a, b) && starts_with(b, a);
    assert(r == (a@ == b@)) by {
        if r {
            assert(a@.subrange(0, b@.len() as int) =~= a@);
        } else if a@ == b@ {
            assert(a@.subrange(0, b@.len() as int) =~= b@);
        }
    }
    r
}

/// Whether `needle` stands in `hay` at the character `at`.
fn occurs_here(hay: &Vec<char>, needle: &Vec<char>, at: usize) -> (r: bool)
    requires
        at + needle.len() <= hay.len(),
    ensures
        r == occurs_at(hay@, needle@, at as int),
{
    let mut k: usize = 0;
    while k < needle.len()
        invariant
            k <= needle.len(),
            at + needle.len() <= hay.len(),
            forall|m: int| 0 <= m < k ==> hay@[at + m] == #[trigger] needle@[m],
        decreases needle.len() - k,
    {
        if hay[at + k] != needle[k] {
            assert(hay@.subrange(at as int, at + needle.len())[k as int] != needle@[k as int]);
            return false;
        }
        k = k + 1;
    }
    assert(hay@.subrange(at as int, at + needle.len()) =~= needle@);
    true
}

/// `suffix` stands at the end of `s`.
pub fn ends_with(s: &str, suffix: &str) -> (r: bool)
    ensures
        r == suffix@.is_suffix_of(s@),
{
    let hay = chars_of(s);
    let needle = chars_of(suffix);
    if needle.len() > hay.len() {
        return false;
    }
    occurs_here(&hay, &needle, hay.len() - needle.len())
}

/// `needle` stands somewhere in `hay`.
pub fn contains(hay: &str, needle: &str) -> (r: bool)
    ensures
        r == contains_text(hay@, needle@),
{
    match find_char(&chars_of(hay), &chars_of(needle)) {
        Some(_) => true,
        None => false,
    }
}

/// The first character where `needle` stands in `hay`.
fn find_char(hay: &Vec<char>, needle: &Vec<char>) -> (r: Option<usize>)
    ensures
        match first_occurrence(hay@, needle@, 0) {
            Some(i) => r is Some && r->0 == i && 0 <= i && i + needle.len() <= hay.len(),
            None => r is None,
        },
{
    let mut i: usize = 0;
    while i <= hay.len() && needle.len() <= hay.len() - i
        invariant
            i <= hay.len() + 1,
            first_occurrence(hay@, needle@, 0) == first_occurrence(hay@, needle@, i as int),
        decreases hay.len() + 1 - i,
    {
        if occurs_here(hay, needle, i) {
            return Some(i);
        }
        if i == hay.len() {
            assert(first_occurrence(hay@, needle@, i + 1) is None);
            return None;
        }
        i = i + 1;
    }
    None
}

pub proof fn lemma_utf8_len_take(s: Seq<char>, i: int)
    requires
        0 <= i <= s.len(),
    ensures
        utf8_len(s.take(i)) <= utf8_len(s),
    decreases s.len(),
{
    if i < s.len() {
        lemma_utf8_len_take(s.drop_last(), i);
        assert(s.drop_last().take(i) =~= s.take(i));
    } else {
        assert(s.take(i) =~= s);
    }
}

proof fn lemma_utf8_len_front(s: Seq<char>)
    requires
        s.len() > 0,
    ensures
        utf8_len(s) == utf8_width(s[0]) + utf8_len(s.drop_first()),
    decreases s.len(),
{
    if s.len() == 1 {
        assert(s.drop_last() =~= Seq::empty());
        assert(s.drop_first() =~= Seq::empty());
        assert(utf8_len(Seq::<char>::empty()) == 0);
    } else {
        lemma_utf8_len_front(s.drop_last());
        assert(s.drop_last().drop_first() =~= s.drop_first().drop_last());
    }
}

/// The byte length of a text is that of its UTF-8 encoding.
pub proof fn lemma_utf8_len_encoded(s: Seq<char>)
    ensures
        utf8_len(s) == vstd::utf8::encode_utf8(s).len(),
    decreases s.len(),
{
    if s.len() > 0 {
        lemma_utf8_len_front(s);
        lemma_utf8_len_encoded(s.drop_first());
        vstd::utf8::char_is_scalar(s[0]);
    }
}

/// The byte at which `needle` first stands in `hay`.
pub fn find(hay: &str, needle: &str) -> (r: Option<usize>)
    ensures
        match find_text(hay@, needle@) {
            Some(at) => r is Some && r->0 == at,
            None => r is None,
        },
{
    let chars = chars_of(hay);
    let total = hay.as_bytes().len();
    proof {
        lemma_utf8_len_encoded(hay@);
    }
    match find_char(&chars, &chars_of(needle)) {
        None => None,
        Some(i) => {
            let mut at: usize = 0;
            let mut k: usize = 0;
            assert(chars@.take(0) =~= Seq::empty());
            while k < i
                invariant
                    k <= i <= chars.len(),
                    at == utf8_len(chars@.take(k as int)),
                    total == utf8_len(chars@),
                decreases i - k,
            {
                proof {
                    lemma_utf8_len_take(chars@, k + 1);
                    assert(chars@.take(k + 1).drop_last() =~= chars@.take(k as int));
                }
                let c: u32 = chars[k] as u32;
                let w: usize = if c < 0x80 {
                    1
                } else if c < 0x800 {
                    2
                } else if c < 0x10000 {
                    3
                } else {
                    4
                };
                at = at + w;
                k = k + 1;
            }
            Some(at)
        },
    }
}

/// `s` without the zero characters at its end.
pub fn trim_end_nuls(s: &str) -> (out: String)
    ensures
        out@ == without_trailing_nuls(s@),
{
    let mut chars = chars_of(s);
    while chars.len() > 0 && chars[chars.len() - 1] == '\0'
        invariant
            without_trailing_nuls(chars@) == without_trailing_nuls(s@),
        decreases chars.len(),
    {
        let ghost before = chars@;
        chars.pop();
        assert(chars@ =~= before.drop_last());
    }
    string_of(chars.as_slice())
}

impl Ranked for usize {
    type Rank = usize;

    open spec fn rank(&self) -> usize {
        *self
    }

    open spec fn ranks_before(a: usize, b: usize) -> bool {
        a < b
    }

    proof fn lemma_strict() {
    }

    fn is_before(&self, other: &Self) -> (r: bool) {
        *self < *other
    }
}

impl Ranked for u64 {
    type Rank = u64;

    open spec fn rank(&self) -> u64 {
        *self
    }

    open spec fn ranks_before(a: u64, b: u64) -> bool {
        a < b
    }

    proof fn lemma_strict() {
    }

    fn is_before(&self, other: &Self) -> (r: bool) {
        *self < *other
    }
}

/// Pairs are ordered by their first part, and by their second where the first parts are equal.
pub open spec fn pair_lt(a: (usize, usize), b: (usize, usize)) -> bool {
    a.0 < b.0 || (a.0 == b.0 && a.1 < b.1)
}

impl Ranked for (usize, usize) {
    type Rank = (usize, usize);

    open spec fn rank(&self) -> (usize, usize) {
        *self
    }

    open spec fn ranks_before(a: (usize, usize), b: (usize, usize)) -> bool {
        pair_lt(a, b)
    }

    proof fn lemma_strict() {
    }

    fn is_before(&self, other: &Self) -> (r: bool) {
        self.0 < other.0 || (self.0 == other.0 && self.1 < other.1)
    }
}

/// A number that is sorted from the largest down.
pub struct Descending(pub u64);

impl Ranked for Descending {
    type Rank = u64;

    open spec fn rank(&self) -> u64 {
        self.0
    }

    open spec fn ranks_before(a: u64, b: u64) -> bool {
        a > b
    }

    proof fn lemma_strict() {
    }

    fn is_before(&self, other: &Self) -> (r: bool) {
        self.0 > other.0
    }
}

/// Whether `a` comes before `b` in the order of their code points.
pub fn text_before(a: &str, b: &str) -> (r: bool)
    ensures
        r == text_lt(a@, b@),
{
    let mut x = a.chars();
    let mut y = b.chars();
    let ghost mut i: int = 0;
    assert(a@.skip(0) =~= a@);
    assert(b@.skip(0) =~= b@);
    loop
        invariant
            0 <= i <= a@.len(),
            i <= b@.len(),
            vstd::std_specs::iter::IteratorSpec::remaining(&x) == a@.skip(i),
            vstd::std_specs::iter::IteratorSpec::remaining(&y) == b@.skip(i),
            text_lt(a@, b@) == text_lt(a@.skip(i), b@.skip(i)),
        decreases a@.len() - i,
    {
        match y.next() {
            None => {
                return false;
            },
            Some(d) => {
                match x.next() {
                    None => {
                        return true;
                    },
                    Some(c) => {
                        if c != d {
                            return (c as u32) < (d as u32);
                        }
                        proof {
                            assert(a@.skip(i).drop_first() =~= a@.skip(i + 1));
                            assert(b@.skip(i).drop_first() =~= b@.skip(i + 1));
                            i = i + 1;
                        }
                    },
                }
            },
        }
    }
}

impl Ranked for String {
    type Rank = Seq<char>;

    open spec fn rank(&self) -> Seq<char> {
        self@
    }

    open spec fn ranks_before(a: Seq<char>, b: Seq<char>) -> bool {
        text_lt(a, b)
    }

    proof fn lemma_strict() {
        lemma_text_order();
        assert((|a: Seq<char>, b: Seq<char>| Self::ranks_before(a, b)) =~= (|
            a: Seq<char>,
            b: Seq<char>,
        | text_lt(a, b)));
    }

    fn is_before(&self, other: &Self) -> (r: bool) {
        text_before(self.as_str(), other.as_str())
    }
}

/// A hit is ordered by where it was found, and by its name where that is the same.
pub open spec fn hit_lt(a: (usize, Seq<char>), b: (usize, Seq<char>)) -> bool {
    a.0 < b.0 || (a.0 == b.0 && text_lt(a.1, b.1))
}

impl Ranked for (usize, String) {
    type Rank = (usize, Seq<char>);

    open spec fn rank(&self) -> (usize, Seq<char>) {
        (self.0, self.1@)
    }

    open spec fn ranks_before(a: (usize, Seq<char>), b: (usize, Seq<char>)) -> bool {
        hit_lt(a, b)
    }

    proof fn lemma_strict() {
        lemma_text_order();
        let lt = |a: (usize, Seq<char>), b: (usize, Seq<char>)| Self::ranks_before(a, b);
        let tl = |a: Seq<char>, b: Seq<char>| text_lt(a, b);
        assert forall|a: (usize, Seq<char>)| !(#[trigger] lt(a, a)) by {
            assert(!tl(a.1, a.1));
        }
        assert forall|a: (usize, Seq<char>), b: (usize, Seq<char>), c: (usize, Seq<char>)|
            #[trigger] lt(a, b) && #[trigger] lt(b, c) implies lt(a, c) by {
            if a.0 == b.0 && b.0 == c.0 {
                assert(tl(a.1, b.1) && tl(b.1, c.1));
            }
        }
        assert forall|a: (usize, Seq<char>), b: (usize, Seq<char>)| a != b implies #[trigger] lt(
            a,
            b,
        ) || lt(b, a) by {
            assert(a.1 != b.1 ==> tl(a.1, b.1) || tl(b.1, a.1));
        }
    }

    fn is_before(&self, other: &Self) -> (r: bool) {
        self.0 < other.0 || (self.0 == other.0 && text_before(self.1.as_str(), other.1.as_str()))
    }
}

/// What a digit stands for, in bases up to sixteen.
pub open spec fn digit_value(c: char) -> int {
    if '0' <= c <= '9' {
        c as int - '0' as int
    } else {
        c as int - 'a' as int + 10
    }
}

/// The number that digits stand for in a base, the most significant first.
pub open spec fn value_of(s: Seq<char>, base: int) -> int
    decreases s.len(),
{
    if s.len() == 0 {
        0
    } else {
        value_of(s.drop_last(), base) * base + digit_value(s.last())
    }
}

/// The character is a digit of the base, in lower case.
pub open spec fn is_digit(c: char, base: int) -> bool {
    ('0' <= c <= '9' || 'a' <= c <= 'f') && digit_value(c) < base
}

proof fn lemma_digit(d: int)
    requires
        0 <= d < 16,
    ensures
        digit_value(digit(d)) == d,
        '0' <= digit(d) <= '9' || 'a' <= digit(d) <= 'f',
        digit(d) == '0' <==> d == 0,
{
}

proof fn lemma_digits_value(n: nat, base: nat)
    requires
        2 <= base <= 16,
    ensures
        value_of(digits(n, base), base as int) == n,
        digits(n, base).len() > 0,
        forall|i: int|
            0 <= i < digits(n, base).len() ==> is_digit(
                #[trigger] digits(n, base)[i],
                base as int,
            ),
        n > 0 ==> digits(n, base)[0] != '0',
    decreases n,
{
    let s = digits(n, base);
    if n < base {
        lemma_digit(n as int);
        assert(s.drop_last() =~= Seq::empty());
        reveal_with_fuel(value_of, 2);
        assert(value_of(s, base as int) == 0 * base + digit_value(s.last()));
    } else {
        assert(n / base < n && n / base >= 1) by (nonlinear_arith)
            requires
                n >= base,
                base >= 2,
        ;
        assert(n % base < base) by (nonlinear_arith)
            requires
                base >= 2,
        ;
        assert(n == (n / base) * base + n % base) by (nonlinear_arith)
            requires
                base >= 2,
        ;
        let front = digits(n / base, base);
        lemma_digits_value(n / base, base);
        lemma_digit((n % base) as int);
        assert(s.drop_last() =~= front);
        assert(s[0] == front[0]);
        assert forall|i: int| 0 <= i < s.len() implies is_digit(#[trigger] s[i], base as int) by {
            if i < front.len() {
                assert(s[i] == front[i]);
            }
        }
    }
}

/// A number in decimal or hexadecimal is made of digits of that base, in lower case, which stand
/// for the number, and starts with no zero unless it is one.
pub proof fn lemma_numbers(n: nat)
    ensures
        value_of(dec(n), 10) == n,
        value_of(hex(n), 16) == n,
        forall|i: int| 0 <= i < dec(n).len() ==> is_digit(#[trigger] dec(n)[i], 10),
        forall|i: int| 0 <= i < hex(n).len() ==> is_digit(#[trigger] hex(n)[i], 16),
        dec(n).len() > 0 && hex(n).len() > 0,
        n > 0 ==> dec(n)[0] != '0' && hex(n)[0] != '0',
        n == 0 ==> dec(n) == seq!['0'] && hex(n) == seq!['0'],
{
    lemma_digits_value(n, 10);
    lemma_digits_value(n, 16);
}

/// Filling up keeps the text at its end of the field, adds blanks only, and stops at the width.
pub proof fn lemma_padding(s: Seq<char>, width: int)
    ensures
        pad_right(s, width).len() == if s.len() < width {
            width
        } else {
            s.len() as int
        },
        pad_left(s, width).len() == pad_right(s, width).len(),
        s.is_prefix_of(pad_right(s, width)),
        s.is_suffix_of(pad_left(s, width)),
        forall|i: int|
            s.len() <= i < pad_right(s, width).len() ==> #[trigger] pad_right(s, width)[i] == ' ',
        forall|i: int|
            0 <= i < pad_left(s, width).len() - s.len() ==> #[trigger] pad_left(s, width)[i] == ' ',
{
    assert(s =~= pad_right(s, width).take(s.len() as int));
    let left = pad_left(s, width);
    assert(s =~= left.skip(left.len() - s.len()));
}

/// An address is printed as `0x` and digits that stand for it; with a width, there are zeros before
/// those digits up to it.
pub proof fn lemma_prefixed_hex(n: nat, width: int)
    ensures
        prefixed_hex(n).len() > 2 && prefixed_hex(n)[0] == '0' && prefixed_hex(n)[1] == 'x',
        prefixed_hex(n).skip(2) == hex(n),
        ({
            let s = prefixed_hex_padded(n, width);
            &&& s.len() == if prefixed_hex(n).len() < width {
                width
            } else {
                prefixed_hex(n).len() as int
            }
            &&& s[0] == '0' && s[1] == 'x'
            &&& hex(n).is_suffix_of(s)
            &&& forall|i: int| 2 <= i < s.len() - hex(n).len() ==> #[trigger] s[i] == '0'
        }),
{
    lemma_digits_value(n, 16);
    assert(prefixed_hex(n).skip(2) =~= hex(n));
    let s = prefixed_hex_padded(n, width);
    assert(hex(n) =~= s.skip(s.len() - hex(n).len()));
}

/// No items joined are nothing, one item is itself, and two lists joined one behind the other have
/// the separator between them.
pub proof fn lemma_joined(a: Seq<Seq<char>>, b: Seq<Seq<char>>, one: Seq<char>, sep: Seq<char>)
    requires
        a.len() > 0,
        b.len() > 0,
    ensures
        joined(Seq::empty(), sep) == Seq::<char>::empty(),
        joined(seq![one], sep) == one,
        joined(a + b, sep) == joined(a, sep) + sep + joined(b, sep),
    decreases b.len(),
{
    let all = a + b;
    assert(all.last() == b.last());
    if b.len() == 1 {
        assert(all.drop_last() =~= a);
    } else {
        lemma_joined(a, b.drop_last(), one, sep);
        assert(all.drop_last() =~= a + b.drop_last());
        assert(joined(all, sep) =~= joined(a, sep) + sep + joined(b, sep));
    }
}

/// The needle stands in the text at the character `i`.
pub open spec fn stands_at(hay: Seq<char>, needle: Seq<char>, i: int) -> bool {
    0 <= i <= hay.len() - needle.len() && forall|k: int|
        0 <= k < needle.len() ==> hay[i + k] == #[trigger] needle[k]
}

proof fn lemma_stands_at(hay: Seq<char>, needle: Seq<char>, i: int)
    ensures
        occurs_at(hay, needle, i) == stands_at(hay, needle, i),
{
    if stands_at(hay, needle, i) {
        assert(hay.subrange(i, i + needle.len()) =~= needle);
    }
    if occurs_at(hay, needle, i) {
        assert forall|k: int| 0 <= k < needle.len() implies hay[i + k] == #[trigger] needle[k] by {
            assert(hay.subrange(i, i + needle.len())[k] == needle[k]);
        }
    }
}

proof fn lemma_first_stands(hay: Seq<char>, needle: Seq<char>, from: int)
    requires
        from >= 0,
    ensures
        match first_occurrence(hay, needle, from) {
            Some(i) => from <= i && stands_at(hay, needle, i) && forall|k: int|
                from <= k < i ==> !(#[trigger] stands_at(hay, needle, k)),
            None => forall|k: int| from <= k ==> !(#[trigger] stands_at(hay, needle, k)),
        },
    decreases hay.len() + 1 - from,
{
    lemma_stands_at(hay, needle, from);
    if from + needle.len() <= hay.len() && !occurs_at(hay, needle, from) {
        lemma_first_stands(hay, needle, from + 1);
    }
}

/// A text is found exactly where it stands somewhere in the other one, and at the byte at which the
/// first place where it stands begins.
pub proof fn lemma_found_first(hay: Seq<char>, needle: Seq<char>)
    ensures
        contains_text(hay, needle) <==> exists|i: int| stands_at(hay, needle, i),
        find_text(hay, needle) is Some <==> exists|i: int| stands_at(hay, needle, i),
        forall|i: int| #[trigger]
            stands_at(hay, needle, i) && (forall|k: int|
                0 <= k < i ==> !(#[trigger] stands_at(hay, needle, k))) ==> find_text(hay, needle)
                == Some(vstd::utf8::encode_utf8(hay.take(i)).len()),
{
    lemma_first_stands(hay, needle, 0);
    match first_occurrence(hay, needle, 0) {
        Some(at) => {
            lemma_utf8_len_encoded(hay.take(at));
            assert forall|i: int| #[trigger]
                stands_at(hay, needle, i) && (forall|k: int|
                    0 <= k < i ==> !(#[trigger] stands_at(hay, needle, k))) implies find_text(
                hay,
                needle,
            ) == Some(vstd::utf8::encode_utf8(hay.take(i)).len()) by {
                if at < i {
                    assert(stands_at(hay, needle, at));
                }
                assert(i == at);
            }
        },
        None => {
            assert forall|i: int| !(#[trigger] stands_at(hay, needle, i)) by {
                if i < 0 {
                    assert(!stands_at(hay, needle, i));
                }
            }
        },
    }
}

/// What is cut off a text is zeros at its end, and none is left there.
pub proof fn lemma_nuls_cut(s: Seq<char>)
    ensures
        without_trailing_nuls(s).is_prefix_of(s),
        forall|i: int|
            without_trailing_nuls(s).len() <= i < s.len() ==> #[trigger] s[i] == '\0',
        without_trailing_nuls(s).len() > 0 ==> without_trailing_nuls(s).last() != '\0',
    decreases s.len(),
{
    let cut = without_trailing_nuls(s);
    if s.len() > 0 && s.last() == '\0' {
        let front = s.drop_last();
        lemma_nuls_cut(front);
        assert(cut =~= s.take(cut.len() as int));
        assert forall|i: int| cut.len() <= i < s.len() implies #[trigger] s[i] == '\0' by {
            if i < front.len() {
                assert(front[i] == s[i]);
            }
        }
    } else {
        assert(cut =~= s.take(s.len() as int));
    }
}

/// The texts are the same up to the character `k`, and there the first one has ended or has the
/// lower character.
pub open spec fn differs_at(a: Seq<char>, b: Seq<char>, k: int) -> bool {
    &&& 0 <= k <= a.len()
    &&& k < b.len()
    &&& forall|i: int| 0 <= i < k ==> #[trigger] a[i] == b[i]
    &&& k == a.len() || (a[k] as u32) < (b[k] as u32)
}

/// A text comes before another exactly where it is the beginning of the other or has the lower
/// character where they first differ.
pub proof fn lemma_text_before(a: Seq<char>, b: Seq<char>)
    ensures
        text_lt(a, b) <==> exists|k: int| differs_at(a, b, k),
    decreases a.len(),
{
    if a.len() == 0 {
        if b.len() > 0 {
            assert(differs_at(a, b, 0));
        }
    } else if b.len() > 0 {
        if a[0] == b[0] {
            let (x, y) = (a.drop_first(), b.drop_first());
            lemma_text_before(x, y);
            if exists|k: int| differs_at(x, y, k) {
                let k = choose|k: int| differs_at(x, y, k);
                assert forall|i: int| 0 <= i < k + 1 implies #[trigger] a[i] == b[i] by {
                    if i > 0 {
                        assert(x[i - 1] == y[i - 1]);
                    }
                }
                assert(differs_at(a, b, k + 1));
            }
            if exists|k: int| differs_at(a, b, k) {
                let k = choose|k: int| differs_at(a, b, k);
                assert(k > 0);
                assert forall|i: int| 0 <= i < k - 1 implies #[trigger] x[i] == y[i] by {
                    assert(a[i + 1] == b[i + 1]);
                }
                assert(differs_at(x, y, k - 1));
            }
        } else {
            if (a[0] as u32) < (b[0] as u32) {
                assert(differs_at(a, b, 0));
            }
            if exists|k: int| differs_at(a, b, k) {
                let k = choose|k: int| differs_at(a, b, k);
                if k > 0 {
                    assert(a[0] == b[0]);
                }
            }
        }
    }
}

/// What the sort keys are sorted by: numbers from the least on, counts from the largest down, pairs
/// by their first part and then by their second, and texts character by character.
pub proof fn lemma_sort_keys(
    m: usize,
    n: usize,
    a: u64,
    b: u64,
    p: (usize, usize),
    q: (usize, usize),
    s: Seq<char>,
    t: Seq<char>,
)
    ensures
        order::rank_lt::<usize>()(m, n) <==> m < n,
        order::rank_lt::<u64>()(a, b) <==> a < b,
        order::rank_lt::<Descending>()(a, b) <==> b < a,
        order::rank_lt::<(usize, usize)>()(p, q) <==> p.0 < q.0 || (p.0 == q.0 && p.1 < q.1),
        order::rank_lt::<String>()(s, t) <==> exists|k: int| differs_at(s, t, k),
        order::rank_lt::<(usize, String)>()((m, s), (n, t)) <==> m < n || (m == n && exists|k: int|
            differs_at(s, t, k)),
{
    lemma_text_before(s, t);
}

} // verus!
