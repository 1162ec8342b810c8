//! Byte signatures and address arithmetic for reading another process's
//! memory: parsing signature strings, finding a signature in a module's
//! bytes, resolving instruction-relative addresses and following pointer
//! chains.
use crate::text::chars_of;
use crate::text::is_white_space;
use crate::text::white_space;
use vstd::prelude::*;

verus! {

/// Where a module is loaded in a process, and how large it is.
#[derive(Debug, Clone, Copy, Default, PartialEq, Eq)]
pub struct ProcessModule {
    pub base: usize,
    pub size: usize,
}

/// The non-empty current word, as a list of zero or one words.
pub open spec fn flush(cur: Seq<char>) -> Seq<Seq<char>> {
    if cur.len() == 0 {
        Seq::empty()
    } else {
        seq![cur]
    }
}

/// The words of `s` separated by white space (`str::split_whitespace`),
/// after the partial word `cur` that precedes `s`.
pub open spec fn words_from(s: Seq<char>, cur: Seq<char>) -> Seq<Seq<char>>
    decreases s.len(),
{
    if s.len() == 0 {
        flush(cur)
    } else if is_white_space(s[0]) {
        flush(cur) + words_from(s.skip(1), Seq::empty())
    } else {
        words_from(s.skip(1), cur.push(s[0]))
    }
}

/// The words of `s` separated by white space.
pub open spec fn words(s: Seq<char>) -> Seq<Seq<char>> {
    words_from(s, Seq::empty())
}

/// The value of a hexadecimal digit.
pub open spec fn hex_digit(c: char) -> Option<nat> {
    if '0' <= c <= '9' {
        Some((c as nat - '0' as nat) as nat)
    } else if 'a' <= c <= 'f' {
        Some((c as nat - 'a' as nat + 10) as nat)
    } else if 'A' <= c <= 'F' {
        Some((c as nat - 'A' as nat + 10) as nat)
    } else {
        None
    }
}

/// Whether every character of `t` is a hexadecimal digit.
pub open spec fn all_hex(t: Seq<char>) -> bool {
    forall|i: int| 0 <= i < t.len() ==> (#[trigger] hex_digit(t[i])) is Some
}

/// The number that the hexadecimal digits `t` spell.
pub open spec fn hex_value(t: Seq<char>) -> nat
    decreases t.len(),
{
    if t.len() == 0 {
        0
    } else {
        16 * hex_value(t.drop_last()) + hex_digit(t.last()).unwrap_or(0)
    }
}

/// `u8::from_str_radix(t, 16)`: an optional `+`, then one or more
/// hexadecimal digits whose value fits in a byte.
pub open spec fn parse_hex_u8(t: Seq<char>) -> Option<u8> {
    let digits = if t.len() > 0 && t[0] == '+' { t.skip(1) } else { t };
    if digits.len() == 0 || !all_hex(digits) || hex_value(digits) > 255 {
        None
    } else {
        Some(hex_value(digits) as u8)
    }
}

/// One signature token: `?` and `??` match any byte; anything else is
/// a hexadecimal byte, and 0 when it does not parse as one.
pub open spec fn token_pattern(t: Seq<char>) -> Option<u8> {
    if t == seq!['?'] || t == seq!['?', '?'] {
        None
    } else {
        match parse_hex_u8(t) {
            Some(b) => Some(b),
            None => Some(0u8),
        }
    }
}

/// The byte pattern a signature string describes, one element per
/// white-space separated token.
pub open spec fn spec_parse_signature(sig: Seq<char>) -> Seq<Option<u8>> {
    words(sig).map_values(|t: Seq<char>| token_pattern(t))
}

proof fn lemma_hex_value_prefix(t: Seq<char>, k: int)
    requires
        0 <= k <= t.len(),
    ensures
        hex_value(t.take(k)) <= hex_value(t),
    decreases t.len(),
{
    if k < t.len() {
        lemma_hex_value_prefix(t.drop_last(), k);
        assert(t.drop_last().take(k) =~= t.take(k));
    } else {
        assert(t.take(k) =~= t);
    }
}

/// The value of the hexadecimal digit `c`.
fn hex_digit_value(c: char) -> (r: Option<u8>)
    ensures
        match hex_digit(c) {
            Some(v) => r == Some(v as u8),
            None => r is None,
        },
{
    if '0' <= c && c <= '9' {
        Some((c as u32 - '0' as u32) as u8)
    } else if 'a' <= c && c <= 'f' {
        Some((c as u32 - 'a' as u32 + 10) as u8)
    } else if 'A' <= c && c <= 'F' {
        Some((c as u32 - 'A' as u32 + 10) as u8)
    } else {
        None
    }
}

/// Parses a hexadecimal byte as `u8::from_str_radix(t, 16)` does.
pub fn parse_hex_byte(t: &[char]) -> (r: Option<u8>)
    ensures
        r == parse_hex_u8(t@),
{
    let start: usize = if t.len() > 0 && t[0] == '+' {
        1
    } else {
        0
    };
    let ghost digits = if t@.len() > 0 && t@[0] == '+' { t@.skip(1) } else { t@ };
    assert(digits =~= t@.skip(start as int));
    if start >= t.len() {
        return None;
    }
    let mut acc: u32 = 0;
    let mut i = start;
    while i < t.len()
        invariant
            start <= i <= t@.len(),
            digits == t@.skip(start as int),
            digits == (if t@.len() > 0 && t@[0] == '+' { t@.skip(1) } else { t@ }),
            all_hex(t@.subrange(start as int, i as int)),
            acc == hex_value(t@.subrange(start as int, i as int)),
            acc <= 255,
        decreases t.len() - i,
    {
        let ghost prev = t@.subrange(start as int, i as int);
        let ghost next = t@.subrange(start as int, i + 1);
        assert(next =~= prev.push(t@[i as int]));
        assert(next.drop_last() =~= prev);
        match hex_digit_value(t[i]) {
            None => {
                assert(digits[i - start] == t@[i as int]);
                assert(hex_digit(digits[i - start]) is None);
                assert(!all_hex(digits));
                return None;
            },
            Some(d) => {
                if acc > 15 {
                    proof {
                        assert(next.last() == t@[i as int]);
                        assert(hex_value(next) == 16 * hex_value(prev) + d);
                        assert(hex_value(next) > 255);
                        lemma_hex_value_prefix(digits, i + 1 - start);
                        assert(digits.take(i + 1 - start) =~= next);
                    }
                    return None;
                }
                acc = acc * 16 + d as u32;
                assert(all_hex(next)) by {
                    assert forall|j: int| 0 <= j < next.len() implies (#[trigger] hex_digit(next[j])) is Some by {
                        if j < prev.len() {
                            assert(next[j] == prev[j]);
                        }
                    }
                }
            },
        }
        i = i + 1;
    }
    assert(t@.subrange(start as int, t@.len() as int) =~= digits);
    Some(acc as u8)
}

/// The pattern element of one token.
fn token_value(t: &[char]) -> (r: Option<u8>)
    ensures
        r == token_pattern(t@),
{
    if (t.len() == 1 && t[0] == '?') || (t.len() == 2 && t[0] == '?' && t[1] == '?') {
        proof {
            if t@.len() == 1 {
                assert(t@ =~= seq!['?']);
            } else {
                assert(t@ =~= seq!['?', '?']);
            }
        }
        return None;
    }
    proof {
        if t@ == seq!['?'] {
            assert(t@.len() == 1 && t@[0] == '?');
        }
        if t@ == seq!['?', '?'] {
            assert(t@.len() == 2 && t@[0] == '?' && t@[1] == '?');
        }
    }
    match parse_hex_byte(t) {
        Some(b) => Some(b),
        None => Some(0u8),
    }
}

/// Parses a signature such as `"48 89 0D ? ? ? ?"` into a byte pattern:
/// `?` and `??` match any byte, other tokens are hexadecimal bytes.
pub fn parse_signature(sig: &str) -> (r: Vec<Option<u8>>)
    ensures
        r@ == spec_parse_signature(sig@),
{
    let cs = chars_of(sig);
    let mut out: Vec<Option<u8>> = Vec::new();
    let mut cur: Vec<char> = Vec::new();
    let mut i: usize = 0;
    let ghost target = spec_parse_signature(sig@);
    assert(cs@.skip(0) =~= cs@);
    while i < cs.len()
        invariant
            i <= cs@.len(),
            cs@ == sig@,
            target == spec_parse_signature(sig@),
            out@ + words_from(cs@.skip(i as int), cur@).map_values(|t: Seq<char>| token_pattern(t))
                == target,
        decreases cs.len() - i,
    {
        let c = cs[i];
        let ghost rest = cs@.skip(i as int);
        assert(rest.skip(1) =~= cs@.skip(i + 1));
        if white_space(c) {
            if cur.len() > 0 {
                let v = token_value(cur.as_slice());
                let ghost before = out@;
                out.push(v);
                proof {
                    let tail = words_from(cs@.skip(i + 1), Seq::empty());
                    assert(flush(cur@) =~= seq![cur@]);
                    assert((seq![cur@] + tail).map_values(|t: Seq<char>| token_pattern(t)) =~= seq![
                        token_pattern(cur@),
                    ] + tail.map_values(|t: Seq<char>| token_pattern(t)));
                    assert(before + (seq![token_pattern(cur@)] + tail.map_values(
                        |t: Seq<char>| token_pattern(t),
                    )) =~= out@ + tail.map_values(|t: Seq<char>| token_pattern(t)));
                }
            } else {
                proof {
                    assert(flush(cur@) =~= Seq::<Seq<char>>::empty());
                    assert(cur@ =~= Seq::<char>::empty());
                    let tail = words_from(cs@.skip(i + 1), Seq::empty());
                    assert(Seq::<Seq<char>>::empty() + tail =~= tail);
                }
            }
            cur = Vec::new();
        } else {
            cur.push(c);
        }
        i = i + 1;
    }
    if cur.len() > 0 {
        let v = token_value(cur.as_slice());
        out.push(v);
        proof {
            assert(cs@.skip(i as int) =~= Seq::<char>::empty());
            assert(seq![cur@].map_values(|t: Seq<char>| token_pattern(t)) =~= seq![token_pattern(cur@)]);
        }
    } else {
        proof {
            assert(cs@.skip(i as int) =~= Seq::<char>::empty());
            assert(Seq::<Seq<char>>::empty().map_values(|t: Seq<char>| token_pattern(t)) =~= Seq::<
                Option<u8>,
            >::empty());
        }
    }
    assert(out@ =~= target);
    out
}

/// Whether `pattern` matches `data` at index `i`: every byte that the
/// pattern fixes equals the byte of `data` at that place.
pub open spec fn pattern_matches_at(data: Seq<u8>, i: int, pattern: Seq<Option<u8>>) -> bool {
    forall|j: int|
        0 <= j < pattern.len() ==> match #[trigger] pattern[j] {
            Some(b) => data[i + j] == b,
            None => true,
        }
}

/// The start indices that a scan of `size` bytes for a pattern of
/// `pattern_len` bytes tries: `0 .. size - pattern_len` (none when the
/// pattern is at least as long as the data).
pub open spec fn scan_limit(size: int, pattern_len: int) -> int {
    if size > pattern_len {
        size - pattern_len
    } else {
        0
    }
}

/// The first index from `i` on, below `limit`, at which `pattern`
/// matches `data`.
pub open spec fn first_match(data: Seq<u8>, pattern: Seq<Option<u8>>, i: int, limit: int) -> Option<int>
    decreases limit - i,
{
    if i >= limit {
        None
    } else if pattern_matches_at(data, i, pattern) {
        Some(i)
    } else {
        first_match(data, pattern, i + 1, limit)
    }
}

/// The address at which a scan of the `data` of a module loaded at `base`
/// finds `pattern`: `base` plus the first matching index, or 0 when there is
/// none.
pub open spec fn spec_find_signature(base: usize, data: Seq<u8>, pattern: Seq<Option<u8>>) -> usize {
    match first_match(data, pattern, 0, scan_limit(data.len() as int, pattern.len() as int)) {
        Some(i) => (base + i) as usize,
        None => 0,
    }
}

/// The upper-case hexadecimal digit of `n` (below 16).
pub open spec fn hex_char(n: nat) -> char {
    if n < 10 {
        (48 + n) as char
    } else {
        (55 + n) as char
    }
}

/// How a pattern element is written: `??` for any byte, otherwise the
/// byte as two upper-case hexadecimal digits (`{:02X}`).
pub open spec fn element_token(x: Option<u8>) -> Seq<char> {
    match x {
        None => seq!['?', '?'],
        Some(b) => seq![hex_char((b / 16) as nat), hex_char((b % 16) as nat)],
    }
}

/// A byte pattern written out: its elements' tokens joined by single
/// spaces.
pub open spec fn print_signature(v: Seq<Option<u8>>) -> Seq<char>
    decreases v.len(),
{
    if v.len() == 0 {
        Seq::empty()
    } else if v.len() == 1 {
        element_token(v[0])
    } else {
        element_token(v[0]) + seq![' '] + print_signature(v.skip(1))
    }
}

proof fn lemma_words_through_token(t: Seq<char>, s: Seq<char>, cur: Seq<char>)
    requires
        forall|i: int| 0 <= i < t.len() ==> !is_white_space(#[trigger] t[i]),
    ensures
        words_from(t + s, cur) == words_from(s, cur + t),
    decreases t.len(),
{
    if t.len() == 0 {
        assert(t + s =~= s);
        assert(cur + t =~= cur);
    } else {
        let ts = t + s;
        assert(ts[0] == t[0]);
        assert(ts.skip(1) =~= t.skip(1) + s);
        lemma_words_through_token(t.skip(1), s, cur.push(t[0]));
        assert(cur.push(t[0]) + t.skip(1) =~= cur + t);
    }
}

proof fn lemma_element_token(x: Option<u8>)
    ensures
        element_token(x).len() == 2,
        forall|i: int| 0 <= i < 2 ==> !is_white_space(#[trigger] element_token(x)[i]),
        token_pattern(element_token(x)) == x,
{
    let t = element_token(x);
    match x {
        None => {
            assert(t =~= seq!['?', '?']);
        },
        Some(b) => {
            let hi = (b / 16) as nat;
            let lo = (b % 16) as nat;
            assert(hex_digit(hex_char(hi)) == Some(hi));
            assert(hex_digit(hex_char(lo)) == Some(lo));
            assert(t[0] != '?');
            assert(t != seq!['?']);
            assert(t != seq!['?', '?']) by {
                assert(seq!['?', '?'][0] == '?');
            }
            assert(all_hex(t));
            assert(t.drop_last() =~= seq![hex_char(hi)]);
            let s1 = t.drop_last();
            assert(s1.drop_last() =~= Seq::<char>::empty());
            assert(hex_value(s1.drop_last()) == 0);
            assert(s1.last() == hex_char(hi));
            assert(hex_value(s1) == 16 * hex_value(s1.drop_last()) + hex_digit(s1.last()).unwrap_or(0));
            assert(hex_value(t.drop_last()) == hi);
            assert(t.last() == hex_char(lo));
            assert(hex_value(t) == 16 * hi + lo);
        },
    }
}

proof fn lemma_words_of_printed(v: Seq<Option<u8>>)
    ensures
        words(print_signature(v)) == v.map_values(|x: Option<u8>| element_token(x)),
    decreases v.len(),
{
    if v.len() == 0 {
        assert(v.map_values(|x: Option<u8>| element_token(x)) =~= Seq::<Seq<char>>::empty());
    } else {
        let t = element_token(v[0]);
        lemma_element_token(v[0]);
        if v.len() == 1 {
            lemma_words_through_token(t, Seq::empty(), Seq::empty());
            assert(t + Seq::<char>::empty() =~= t);
            assert(Seq::<char>::empty() + t =~= t);
            assert(v.map_values(|x: Option<u8>| element_token(x)) =~= seq![t]);
        } else {
            let rest = print_signature(v.skip(1));
            let after = seq![' '] + rest;
            assert(print_signature(v) =~= t + after);
            lemma_words_through_token(t, after, Seq::empty());
            assert(Seq::<char>::empty() + t =~= t);
            assert(after[0] == ' ');
            assert(after.skip(1) =~= rest);
            lemma_words_of_printed(v.skip(1));
            assert(v.map_values(|x: Option<u8>| element_token(x)) =~= seq![t] + v.skip(1).map_values(
                |x: Option<u8>| element_token(x),
            ));
        }
    }
}

/// Writing a byte pattern out (`??` for any byte, `{:02X}` for a fixed
/// byte, separated by spaces) and parsing it back gives the pattern.
pub proof fn lemma_signature_round_trip(v: Seq<Option<u8>>)
    ensures
        spec_parse_signature(print_signature(v)) == v,
{
    lemma_words_of_printed(v);
    let tokens = v.map_values(|x: Option<u8>| element_token(x));
    assert forall|i: int| 0 <= i < v.len() implies token_pattern(#[trigger] tokens[i]) == v[i] by {
        lemma_element_token(v[i]);
    }
    assert(tokens.map_values(|t: Seq<char>| token_pattern(t)) =~= v);
}

/// Whether `pattern` matches `data` at index `i`.
fn matches_pattern_at(data: &[u8], i: usize, pattern: &[Option<u8>]) -> (r: bool)
    requires
        i + pattern@.len() <= data@.len(),
    ensures
        r == pattern_matches_at(data@, i as int, pattern@),
{
    let mut j: usize = 0;
    while j < pattern.len()
        invariant
            j <= pattern@.len(),
            i + pattern.len() <= data.len(),
            forall|k: int|
                0 <= k < j ==> match #[trigger] pattern@[k] {
                    Some(b) => data@[i + k] == b,
                    None => true,
                },
        decreases pattern.len() - j,
    {
        match pattern[j] {
            Some(b) => {
                if data[i + j] != b {
                    return false;
                }
            },
            None => {},
        }
        j = j + 1;
    }
    true
}

proof fn lemma_first_match_skip(data: Seq<u8>, pattern: Seq<Option<u8>>, i: int, limit: int)
    requires
        0 <= i <= limit,
        forall|k: int| 0 <= k < i ==> !pattern_matches_at(data, k, pattern),
    ensures
        first_match(data, pattern, 0, limit) == first_match(data, pattern, i, limit),
    decreases i,
{
    if i > 0 {
        lemma_first_match_skip(data, pattern, i - 1, limit);
    }
}

/// Scans the bytes of a module loaded at `base` for `pattern`; returns
/// the address of the first match, or 0. The last start position (where
/// the pattern would end exactly at the end of the data) is not tried.
pub fn find_signature_in_bytes(base: usize, data: &[u8], pattern: &[Option<u8>]) -> (r: usize)
    requires
        base + data@.len() <= usize::MAX,
    ensures
        r == spec_find_signature(base, data@, pattern@),
{
    let limit = data.len().saturating_sub(pattern.len());
    let ghost lim = scan_limit(data@.len() as int, pattern@.len() as int);
    assert(limit == lim);
    let mut i: usize = 0;
    while i < limit
        invariant
            i <= limit,
            limit == lim,
            lim == scan_limit(data@.len() as int, pattern@.len() as int),
            base + data@.len() <= usize::MAX,
            forall|k: int| 0 <= k < i ==> !pattern_matches_at(data@, k, pattern@),
        decreases limit - i,
    {
        if matches_pattern_at(data, i, pattern) {
            proof {
                lemma_first_match_skip(data@, pattern@, i as int, lim);
            }
            return base + i;
        }
        i = i + 1;
    }
    proof {
        lemma_first_match_skip(data@, pattern@, i as int, lim);
    }
    0
}

proof fn lemma_first_match_found(data: Seq<u8>, pattern: Seq<Option<u8>>, i: int, limit: int)
    requires
        first_match(data, pattern, i, limit) is Some,
    ensures
        ({
            let k = first_match(data, pattern, i, limit)->0;
            &&& i <= k < limit
            &&& pattern_matches_at(data, k, pattern)
            &&& forall|m: int| i <= m < k ==> !pattern_matches_at(data, m, pattern)
        }),
    decreases limit - i,
{
    if i < limit && !pattern_matches_at(data, i, pattern) {
        lemma_first_match_found(data, pattern, i + 1, limit);
    }
}

/// What a scan finds is a match: the signature matches the data at the
/// found index, no earlier start index matches, and the whole pattern lies
/// inside the data.
pub proof fn lemma_found_signature_matches(data: Seq<u8>, pattern: Seq<Option<u8>>)
    requires
        first_match(data, pattern, 0, scan_limit(data.len() as int, pattern.len() as int)) is Some,
    ensures
        ({
            let k = first_match(data, pattern, 0, scan_limit(data.len() as int, pattern.len() as int))->0;
            &&& 0 <= k
            &&& k + pattern.len() < data.len()
            &&& pattern_matches_at(data, k, pattern)
            &&& forall|m: int| 0 <= m < k ==> !pattern_matches_at(data, m, pattern)
        }),
{
    lemma_first_match_found(data, pattern, 0, scan_limit(data.len() as int, pattern.len() as int));
}

/// A scan finds the first place where the signature fits, wherever it is
/// in the module: when the pattern matches at start index `k` (ending
/// before the last byte of the data) and at no smaller start index, the
/// scan gives `base + k`; when it matches at no such start index, it gives
/// 0.
pub proof fn lemma_scan_finds_first_fit(base: usize, data: Seq<u8>, pattern: Seq<Option<u8>>, k: int)
    requires
        base + data.len() <= usize::MAX,
    ensures
        0 <= k && k + pattern.len() < data.len() && pattern_matches_at(data, k, pattern) && (forall|m: int|
            0 <= m < k ==> !pattern_matches_at(data, m, pattern)) ==> spec_find_signature(base, data, pattern)
            == base + k,
        (forall|m: int| 0 <= m && m + pattern.len() < data.len() ==> !pattern_matches_at(data, m, pattern))
            ==> spec_find_signature(base, data, pattern) == 0,
{
    let lim = scan_limit(data.len() as int, pattern.len() as int);
    if 0 <= k && k + pattern.len() < data.len() && pattern_matches_at(data, k, pattern) && (forall|m: int|
        0 <= m < k ==> !pattern_matches_at(data, m, pattern)) {
        assert(k < lim);
        lemma_first_match_skip(data, pattern, k, lim);
    }
    if forall|m: int| 0 <= m && m + pattern.len() < data.len() ==> !pattern_matches_at(data, m, pattern) {
        lemma_first_match_skip(data, pattern, lim, lim);
    }
}

/// The target of an instruction-relative reference: the address of the
/// match, plus the displacement read there, plus the offset of the
/// displacement in the instruction, plus the displacement's size.
pub open spec fn spec_relative_target(address: usize, displacement: isize, offset: usize, size: usize) -> usize {
    ((address as isize) + displacement + (offset as isize) + (size as isize)) as usize
}

/// Whether the sums of `spec_relative_target` stay within `isize`.
pub open spec fn relative_target_in_range(address: usize, displacement: isize, offset: usize, size: usize) -> bool {
    let a = address as isize;
    &&& isize::MIN <= a + displacement <= isize::MAX
    &&& isize::MIN <= a + displacement + (offset as isize) <= isize::MAX
    &&& isize::MIN <= a + displacement + (offset as isize) + (size as isize) <= isize::MAX
}

/// Whether `relative_target` can resolve these values without
/// overflowing `isize`.
pub fn relative_target_fits(address: usize, displacement: isize, offset: usize, size: usize) -> (r: bool)
    ensures
        r == relative_target_in_range(address, displacement, offset, size),
{
    let a = address as isize as i128;
    let s1 = a + displacement as i128;
    let s2 = s1 + offset as isize as i128;
    let s3 = s2 + size as isize as i128;
    let lo = isize::MIN as i128;
    let hi = isize::MAX as i128;
    lo <= s1 && s1 <= hi && lo <= s2 && s2 <= hi && lo <= s3 && s3 <= hi
}

/// Resolves an instruction-relative reference found at `address`.
pub fn relative_target(address: usize, displacement: isize, offset: usize, size: usize) -> (r: usize)
    requires
        relative_target_in_range(address, displacement, offset, size),
    ensures
        r == spec_relative_target(address, displacement, offset, size),
{
    (address as isize + displacement + offset as isize + size as isize) as usize
}

/// Whether a memory read succeeded: the call reported success, or it
/// read every byte asked for.
pub fn read_succeeded(status: i32, bytes_read: u32, size: usize) -> (r: bool)
    ensures
        r == (status == 0 || bytes_read == size as u32),
{
    status == 0 || bytes_read == size as u32
}

/// `c` in lower case when it is an ASCII letter (`to_ascii_lowercase`).
pub open spec fn ascii_lower(c: char) -> char {
    if 'A' <= c <= 'Z' {
        ((c as u32) + 32) as char
    } else {
        c
    }
}

/// Whether two names are equal once ASCII letters are put in lower case.
pub open spec fn same_name(a: Seq<char>, b: Seq<char>) -> bool {
    a.len() == b.len() && forall|i: int| 0 <= i < a.len() ==> ascii_lower(#[trigger] a[i]) == ascii_lower(b[i])
}

fn lower(c: char) -> (r: char)
    ensures
        r == ascii_lower(c),
{
    if 'A' <= c && c <= 'Z' {
        ((c as u8) + 32) as char
    } else {
        c
    }
}

/// Whether two process or module names are the same, ignoring ASCII case.
pub fn names_match(a: &str, b: &str) -> (r: bool)
    ensures
        r == same_name(a@, b@),
{
    let x = chars_of(a);
    let y = chars_of(b);
    if x.len() != y.len() {
        return false;
    }
    let mut i: usize = 0;
    while i < x.len()
        invariant
            i <= x@.len(),
            x@.len() == y@.len(),
            x@ == a@,
            y@ == b@,
            forall|k: int| 0 <= k < i ==> ascii_lower(#[trigger] x@[k]) == ascii_lower(y@[k]),
        decreases x.len() - i,
    {
        if lower(x[i]) != lower(y[i]) {
            return false;
        }
        i = i + 1;
    }
    true
}

/// The address reached by following a pointer chain from `addr`: for
/// each offset, the pointer stored at the current address plus that
/// offset. Addresses wrap around on overflow.
pub open spec fn chain_target(mem: spec_fn(usize) -> usize, addr: usize, offsets: Seq<usize>) -> usize
    decreases offsets.len(),
{
    if offsets.len() == 0 {
        addr
    } else {
        chain_target(mem, mem(((addr + offsets[0]) % (usize::MAX + 1)) as usize), offsets.skip(1))
    }
}

/// Follows a pointer chain through another process's memory, one read
/// at a time: `next_read` names the address to read, `feed` takes the
/// pointer found there.
pub struct PointerChain {
    offsets: Vec<usize>,
    done: usize,
    addr: usize,
}

impl PointerChain {
    /// The offsets that remain to be followed.
    pub closed spec fn remaining(&self) -> Seq<usize> {
        self.offsets@.skip(self.done as int)
    }

    /// The current address.
    pub closed spec fn current(&self) -> usize {
        self.addr
    }

    /// The chain's invariant.
    pub closed spec fn wf(&self) -> bool {
        self.done <= self.offsets@.len()
    }

    /// A chain that starts at `base` and follows `offsets`.
    pub fn new(base: usize, offsets: &[usize]) -> (r: PointerChain)
        ensures
            r.wf(),
            r.current() == base,
            r.remaining() == offsets@,
    {
        let mut v: Vec<usize> = Vec::new();
        let mut i: usize = 0;
        while i < offsets.len()
            invariant
                i <= offsets@.len(),
                v@ == offsets@.take(i as int),
            decreases offsets.len() - i,
        {
            v.push(offsets[i]);
            i = i + 1;
            assert(offsets@.take(i as int) =~= offsets@.take(i - 1).push(offsets@[i - 1]));
        }
        assert(offsets@.take(offsets@.len() as int) =~= offsets@);
        assert(v@.skip(0) =~= v@);
        PointerChain { offsets: v, done: 0, addr: base }
    }

    /// The address whose pointer is to be read next, or `None` when the
    /// chain has been followed to its end.
    pub fn next_read(&self) -> (r: Option<usize>)
        requires
            self.wf(),
        ensures
            self.remaining().len() == 0 ==> r is None,
            self.remaining().len() > 0 ==> r == Some(
                ((self.current() + self.remaining()[0]) % (usize::MAX + 1)) as usize,
            ),
    {
        if self.done < self.offsets.len() {
            let off = self.offsets[self.done];
            let r = self.addr.wrapping_add(off);
            assert(self.remaining()[0] == off);
            proof {
                let m = usize::MAX + 1;
                let x = self.addr + off;
                if x > usize::MAX {
                    assert(r == x - m);
                    assert(x % m == x - m) by (nonlinear_arith)
                        requires
                            m <= x < 2 * m,
                    ;
                } else {
                    assert(x % m == x) by (nonlinear_arith)
                        requires
                            0 <= x < m,
                    ;
                }
            }
            Some(r)
        } else {
            None
        }
    }

    /// Takes the pointer read at `next_read`'s address.
    pub fn feed(&mut self, value: usize)
        requires
            old(self).wf(),
            old(self).remaining().len() > 0,
        ensures
            final(self).wf(),
            final(self).current() == value,
            final(self).remaining() == old(self).remaining().skip(1),
    {
        assert(self.done < self.offsets.len());
        self.addr = value;
        self.done = self.done + 1;
        assert(self.offsets@.skip(self.done as int) =~= old(self).offsets@.skip(old(self).done as int).skip(1));
    }

    /// The address reached so far.
    pub fn address(&self) -> (r: usize)
        ensures
            r == self.current(),
    {
        self.addr
    }
}

/// Following a chain step by step reaches `chain_target`: if each
/// `feed` is given the pointer stored at the address that `next_read`
/// named, the address at the end is the chain's target.
pub proof fn lemma_chain_step(mem: spec_fn(usize) -> usize, addr: usize, offsets: Seq<usize>)
    requires
        offsets.len() > 0,
    ensures
        chain_target(mem, addr, offsets) == chain_target(
            mem,
            mem(((addr + offsets[0]) % (usize::MAX + 1)) as usize),
            offsets.skip(1),
        ),
{
}

/// The value read by following all but the last offset of a chain and
/// then reading at the last offset; 0 when there is no offset.
pub open spec fn chain_read(mem: spec_fn(usize) -> usize, addr: usize, offsets: Seq<usize>) -> usize {
    if offsets.len() == 0 {
        0
    } else {
        mem(((chain_target(mem, addr, offsets.drop_last()) + offsets.last()) % (usize::MAX + 1)) as usize)
    }
}

/// The two ways of reading through a chain agree: following every offset
/// reaches the value that reading at the last offset of the chain gives;
/// with no offset the chain stays at its start (and a final read has
/// nothing to read).
pub proof fn lemma_chain_reads_agree(mem: spec_fn(usize) -> usize, addr: usize, offsets: Seq<usize>)
    ensures
        offsets.len() == 0 ==> chain_target(mem, addr, offsets) == addr && chain_read(mem, addr, offsets) == 0,
        offsets.len() > 0 ==> chain_target(mem, addr, offsets) == chain_read(mem, addr, offsets),
    decreases offsets.len(),
{
    if offsets.len() > 0 {
        let next = mem(((addr + offsets[0]) % (usize::MAX + 1)) as usize);
        let rest = offsets.skip(1);
        if offsets.len() == 1 {
            assert(rest =~= Seq::<usize>::empty());
            assert(offsets.drop_last() =~= Seq::<usize>::empty());
            assert(chain_target(mem, next, rest) == next);
            assert(chain_target(mem, addr, offsets.drop_last()) == addr);
            assert(offsets.last() == offsets[0]);
        } else {
            lemma_chain_reads_agree(mem, next, rest);
            let d = offsets.drop_last();
            assert(d[0] == offsets[0]);
            assert(d.skip(1) =~= rest.drop_last());
            assert(chain_target(mem, addr, d) == chain_target(mem, next, d.skip(1)));
            assert(rest.last() == offsets.last());
            assert(chain_target(mem, addr, offsets) == chain_target(mem, next, rest));
            assert(chain_target(mem, next, rest) == chain_read(mem, next, rest));
        }
    }
}

} // verus!
