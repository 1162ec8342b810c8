//! Character-level helpers on strings, stated over their `Seq<char>` views.
use vstd::prelude::*;

verus! {

/// The characters of `s`, in order.
pub fn chars_of(s: &str) -> (r: Vec<char>)
    ensures
        r@ == s@,
{
    let mut r: Vec<char> = Vec::new();
    for c in it: s.chars()
        invariant
            r@ == it.seq().take(it.index() as int),
            it.seq() == s@,
    {
        r.push(c);
    }
    r
}

/// Appends one character to a string (`String::push`).
#[verifier::external_body]
pub(crate) fn push_char(s: &mut String, c: char)
    ensures
        final(s)@ == old(s)@.push(c),
{
    s.push(c);
}

/// A string holding exactly the given characters.
pub fn string_from_chars(cs: &[char]) -> (r: String)
    ensures
        r@ == cs@,
{
    let mut r = String::new();
    let mut i: usize = 0;
    while i < cs.len()
        invariant
            i <= cs.len(),
            r@ == cs@.take(i as int),
        decreases cs.len() - i,
    {
        push_char(&mut r, cs[i]);
        i = i + 1;
        assert(cs@.take(i as int) == cs@.take((i - 1) as int).push(cs@[i - 1]));
    }
    assert(cs@.take(cs.len() as int) == cs@);
    r
}

/// Appends the bytes of `s` to `v`.
pub fn append_bytes(v: &mut Vec<u8>, s: &[u8])
    ensures
        final(v)@ == old(v)@ + s@,
{
    let ghost start = v@;
    let mut i: usize = 0;
    while i < s.len()
        invariant
            i <= s@.len(),
            v@ == start + s@.take(i as int),
        decreases s.len() - i,
    {
        v.push(s[i]);
        i = i + 1;
        assert(s@.take(i as int) =~= s@.take(i - 1).push(s@[i - 1]));
    }
    assert(s@.take(s@.len() as int) =~= s@);
}

/// Whether `pat` occurs in `s` at index `i`.
pub open spec fn occurs_at(s: Seq<char>, i: int, pat: Seq<char>) -> bool {
    0 <= i && i + pat.len() <= s.len() && s.subrange(i, i + pat.len()) == pat
}

/// Whether `pat` occurs at index `i` of `s`.
pub fn matches_at(s: &[char], i: usize, pat: &[char]) -> (r: bool)
    ensures
        r == occurs_at(s@, i as int, pat@),
{
    if i > s.len() || s.len() - i < pat.len() {
        return false;
    }
    let mut k: usize = 0;
    while k < pat.len()
        invariant
            k <= pat@.len(),
            i + pat.len() <= s.len(),
            forall|j: int| 0 <= j < k ==> s@[i + j] == pat@[j],
        decreases pat.len() - k,
    {
        if s[i + k] != pat[k] {
            assert(s@.subrange(i as int, i + pat@.len())[k as int] != pat@[k as int]);
            return false;
        }
        k = k + 1;
    }
    assert(s@.subrange(i as int, i + pat@.len()) =~= pat@);
    true
}

/// `s` with every occurrence of `from` replaced by `to`, scanning left to
/// right without overlaps (`str::replace`).
pub open spec fn replaced(s: Seq<char>, from: Seq<char>, to: Seq<char>) -> Seq<char>
    decreases s.len(),
{
    if from.len() == 0 || s.len() == 0 {
        s
    } else if occurs_at(s, 0, from) {
        to + replaced(s.skip(from.len() as int), from, to)
    } else {
        seq![s[0]] + replaced(s.skip(1), from, to)
    }
}

/// Replaces every occurrence of the non-empty `from` in `s` by `to`.
pub fn replace_all(s: &[char], from: &[char], to: &[char]) -> (r: Vec<char>)
    requires
        from@.len() > 0,
    ensures
        r@ == replaced(s@, from@, to@),
{
    let mut out: Vec<char> = Vec::new();
    let mut i: usize = 0;
    assert(s@.skip(0) =~= s@);
    while i < s.len()
        invariant
            i <= s@.len(),
            from@.len() > 0,
            out@ + replaced(s@.skip(i as int), from@, to@) == replaced(s@, from@, to@),
        decreases s.len() - i,
    {
        let ghost rest = s@.skip(i as int);
        if matches_at(s, i, from) {
            proof {
                assert(rest.subrange(0, from@.len() as int) =~= s@.subrange(i as int, i + from@.len()));
                assert(rest.skip(from@.len() as int) =~= s@.skip(i + from@.len()));
                assert(out@ + (to@ + replaced(s@.skip(i + from@.len()), from@, to@)) =~= (out@ + to@)
                    + replaced(s@.skip(i + from@.len()), from@, to@));
            }
            let mut k: usize = 0;
            let ghost before = out@;
            while k < to.len()
                invariant
                    k <= to@.len(),
                    out@ == before + to@.take(k as int),
                decreases to.len() - k,
            {
                out.push(to[k]);
                k = k + 1;
                assert(to@.take(k as int) =~= to@.take(k - 1).push(to@[k - 1]));
            }
            assert(to@.take(to@.len() as int) =~= to@);
            i = i + from.len();
        } else {
            proof {
                assert(!occurs_at(rest, 0, from@)) by {
                    if occurs_at(rest, 0, from@) {
                        assert(rest.subrange(0, from@.len() as int) =~= s@.subrange(i as int, i + from@.len()));
                    }
                }
                assert(rest.skip(1) =~= s@.skip(i + 1));
                assert(out@ + (seq![s@[i as int]] + replaced(s@.skip(i + 1), from@, to@)) =~= out@.push(
                    s@[i as int],
                ) + replaced(s@.skip(i + 1), from@, to@));
            }
            out.push(s[i]);
            i = i + 1;
        }
    }
    assert(out@ + replaced(s@.skip(i as int), from@, to@) =~= out@);
    out
}

/// Whether `pat` occurs anywhere in `s`.
pub open spec fn contains_seq(s: Seq<char>, pat: Seq<char>) -> bool {
    exists|i: int| occurs_at(s, i, pat)
}

/// Whether `pat` occurs in `s`.
pub fn contains(s: &[char], pat: &[char]) -> (r: bool)
    ensures
        r == contains_seq(s@, pat@),
{
    if pat.len() == 0 {
        assert(s@.subrange(0, 0) =~= pat@);
        assert(occurs_at(s@, 0, pat@));
        return true;
    }
    let mut i: usize = 0;
    while i < s.len()
        invariant
            i <= s@.len(),
            pat@.len() > 0,
            forall|j: int| 0 <= j < i ==> !occurs_at(s@, j, pat@),
        decreases s.len() - i,
    {
        if matches_at(s, i, pat) {
            return true;
        }
        i = i + 1;
    }
    assert forall|j: int| !occurs_at(s@, j, pat@) by {
        if 0 <= j < i {
        }
    }
    false
}

/// Whether `c` is white space (`char::is_whitespace`, the Unicode
/// `White_Space` property).
pub open spec fn is_white_space(c: char) -> bool {
    ||| '\u{9}' <= c <= '\u{d}'
    ||| c == ' '
    ||| c == '\u{85}'
    ||| c == '\u{a0}'
    ||| c == '\u{1680}'
    ||| '\u{2000}' <= c <= '\u{200a}'
    ||| c == '\u{2028}'
    ||| c == '\u{2029}'
    ||| c == '\u{202f}'
    ||| c == '\u{205f}'
    ||| c == '\u{3000}'
}

/// Whether `c` is white space.
pub fn white_space(c: char) -> (r: bool)
    ensures
        r == is_white_space(c),
{
    ('\u{9}' <= c && c <= '\u{d}') || c == ' ' || c == '\u{85}' || c == '\u{a0}' || c == '\u{1680}'
        || ('\u{2000}' <= c && c <= '\u{200a}') || c == '\u{2028}' || c == '\u{2029}' || c
        == '\u{202f}' || c == '\u{205f}' || c == '\u{3000}'
}

/// `s` without the leading characters that satisfy `p`.
pub open spec fn trim_front(s: Seq<char>, p: spec_fn(char) -> bool) -> Seq<char>
    decreases s.len(),
{
    if s.len() > 0 && p(s[0]) {
        trim_front(s.skip(1), p)
    } else {
        s
    }
}

/// `s` without the trailing characters that satisfy `p`.
pub open spec fn trim_back(s: Seq<char>, p: spec_fn(char) -> bool) -> Seq<char>
    decreases s.len(),
{
    if s.len() > 0 && p(s.last()) {
        trim_back(s.drop_last(), p)
    } else {
        s
    }
}

/// `s` without leading and trailing white space (`str::trim`).
pub open spec fn trimmed(s: Seq<char>) -> Seq<char> {
    trim_back(trim_front(s, |c: char| is_white_space(c)), |c: char| is_white_space(c))
}

/// Whether every character of `s` satisfies `p`.
pub open spec fn all_chars(s: Seq<char>, p: spec_fn(char) -> bool) -> bool {
    forall|i: int| 0 <= i < s.len() ==> p(#[trigger] s[i])
}

proof fn lemma_trim_front_pad(pad: Seq<char>, x: Seq<char>, p: spec_fn(char) -> bool)
    requires
        all_chars(pad, p),
    ensures
        trim_front(pad + x, p) == trim_front(x, p),
    decreases pad.len(),
{
    if pad.len() == 0 {
        assert(pad + x =~= x);
    } else {
        assert((pad + x)[0] == pad[0]);
        assert((pad + x).skip(1) =~= pad.skip(1) + x);
        assert(all_chars(pad.skip(1), p)) by {
            assert forall|i: int| 0 <= i < pad.skip(1).len() implies p(#[trigger] pad.skip(1)[i]) by {
                assert(pad.skip(1)[i] == pad[i + 1]);
            }
        }
        lemma_trim_front_pad(pad.skip(1), x, p);
    }
}

proof fn lemma_trim_back_pad(x: Seq<char>, pad: Seq<char>, p: spec_fn(char) -> bool)
    requires
        all_chars(pad, p),
    ensures
        trim_back(x + pad, p) == trim_back(x, p),
    decreases pad.len(),
{
    if pad.len() == 0 {
        assert(x + pad =~= x);
    } else {
        assert((x + pad).last() == pad.last());
        assert((x + pad).drop_last() =~= x + pad.drop_last());
        assert(all_chars(pad.drop_last(), p)) by {
            assert forall|i: int| 0 <= i < pad.drop_last().len() implies p(#[trigger] pad.drop_last()[i]) by {
                assert(pad.drop_last()[i] == pad[i]);
            }
        }
        lemma_trim_back_pad(x, pad.drop_last(), p);
    }
}

proof fn lemma_trim_front_concat(x: Seq<char>, y: Seq<char>, p: spec_fn(char) -> bool)
    ensures
        all_chars(x, p) ==> trim_front(x + y, p) == trim_front(y, p) && trim_front(x, p) == Seq::<char>::empty(),
        !all_chars(x, p) ==> trim_front(x + y, p) == trim_front(x, p) + y,
    decreases x.len(),
{
    if x.len() == 0 {
        assert(x + y =~= y);
    } else {
        assert((x + y)[0] == x[0]);
        assert((x + y).skip(1) =~= x.skip(1) + y);
        lemma_trim_front_concat(x.skip(1), y, p);
        if p(x[0]) {
            assert(all_chars(x, p) == all_chars(x.skip(1), p)) by {
                if all_chars(x.skip(1), p) {
                    assert forall|i: int| 0 <= i < x.len() implies p(#[trigger] x[i]) by {
                        if i > 0 {
                            assert(x[i] == x.skip(1)[i - 1]);
                        }
                    }
                }
                if all_chars(x, p) {
                    assert forall|i: int| 0 <= i < x.skip(1).len() implies p(#[trigger] x.skip(1)[i]) by {
                        assert(x.skip(1)[i] == x[i + 1]);
                    }
                }
            }
        } else {
            assert(!all_chars(x, p)) by {
                assert(!p(x[0]));
            }
        }
    }
}

/// Surrounding a line with white space changes nothing once it is trimmed.
pub proof fn lemma_trimmed_ignores_padding(pad1: Seq<char>, l: Seq<char>, pad2: Seq<char>)
    requires
        forall|i: int| 0 <= i < pad1.len() ==> is_white_space(#[trigger] pad1[i]),
        forall|i: int| 0 <= i < pad2.len() ==> is_white_space(#[trigger] pad2[i]),
    ensures
        trimmed(pad1 + l + pad2) == trimmed(l),
        (forall|i: int| 0 <= i < l.len() ==> is_white_space(#[trigger] l[i])) ==> trimmed(l) == Seq::<char>::empty(),
{
    let p = |c: char| is_white_space(c);
    assert(all_chars(pad1, p));
    assert(all_chars(pad2, p));
    assert(pad1 + l + pad2 =~= pad1 + (l + pad2));
    lemma_trim_front_pad(pad1, l + pad2, p);
    lemma_trim_front_concat(l, pad2, p);
    lemma_trim_front_concat(pad2, Seq::empty(), p);
    assert(pad2 + Seq::<char>::empty() =~= pad2);
    if all_chars(l, p) {
        assert(trim_front(l + pad2, p) == Seq::<char>::empty());
    } else {
        lemma_trim_back_pad(trim_front(l, p), pad2, p);
    }
    if forall|i: int| 0 <= i < l.len() ==> is_white_space(#[trigger] l[i]) {
        assert(all_chars(l, p));
    }
}

/// The two characters `//`.
pub open spec fn slashes() -> Seq<char> {
    seq!['/', '/']
}

proof fn lemma_occurs_slashes(s: Seq<char>, i: int)
    ensures
        occurs_at(s, i, slashes()) <==> (0 <= i && i + 2 <= s.len() && s[i] == '/' && s[i + 1] == '/'),
{
    if 0 <= i && i + 2 <= s.len() {
        if s[i] == '/' && s[i + 1] == '/' {
            assert(s.subrange(i, i + 2) =~= slashes());
        }
        if s.subrange(i, i + 2) == slashes() {
            assert(s.subrange(i, i + 2)[0] == s[i]);
            assert(s.subrange(i, i + 2)[1] == s[i + 1]);
        }
    }
}

proof fn lemma_trim_front_suffix(s: Seq<char>, p: spec_fn(char) -> bool)
    ensures
        trim_front(s, p).len() <= s.len(),
        trim_front(s, p) == s.skip(s.len() - trim_front(s, p).len()),
        !all_chars(s, p) ==> trim_front(s, p).len() > 0 && !p(trim_front(s, p)[0]),
    decreases s.len(),
{
    if s.len() > 0 && p(s[0]) {
        lemma_trim_front_suffix(s.skip(1), p);
        assert(s.skip(1).skip(s.skip(1).len() - trim_front(s.skip(1), p).len()) =~= s.skip(
            s.len() - trim_front(s.skip(1), p).len(),
        ));
        if !all_chars(s, p) {
            assert(!all_chars(s.skip(1), p)) by {
                let i = choose|i: int| 0 <= i < s.len() && !p(#[trigger] s[i]);
                assert(s.skip(1)[i - 1] == s[i]);
            }
        }
    } else {
        assert(s.skip(0) =~= s);
    }
}

proof fn lemma_trim_back_prefix(y: Seq<char>, p: spec_fn(char) -> bool)
    ensures
        trim_back(y, p).len() <= y.len(),
        trim_back(y, p) == y.take(trim_back(y, p).len() as int),
        forall|i: int| 0 <= i < y.len() && !p(#[trigger] y[i]) ==> i < trim_back(y, p).len(),
    decreases y.len(),
{
    if y.len() > 0 && p(y.last()) {
        lemma_trim_back_prefix(y.drop_last(), p);
        assert(y.drop_last().take(trim_back(y.drop_last(), p).len() as int) =~= y.take(
            trim_back(y.drop_last(), p).len() as int,
        ));
        assert forall|i: int| 0 <= i < y.len() && !p(#[trigger] y[i]) implies i < trim_back(y, p).len() by {
            assert(i < y.len() - 1);
            assert(y.drop_last()[i] == y[i]);
        }
    } else {
        assert(y.take(y.len() as int) =~= y);
    }
}

proof fn lemma_trim_back_concat(x: Seq<char>, y: Seq<char>, p: spec_fn(char) -> bool)
    requires
        !all_chars(y, p),
    ensures
        trim_back(x + y, p) == x + trim_back(y, p),
    decreases y.len(),
{
    let i = choose|i: int| 0 <= i < y.len() && !p(#[trigger] y[i]);
    assert((x + y).last() == y.last());
    if p(y.last()) {
        assert(i < y.len() - 1);
        assert(!all_chars(y.drop_last(), p)) by {
            assert(y.drop_last()[i] == y[i]);
        }
        assert((x + y).drop_last() =~= x + y.drop_last());
        lemma_trim_back_concat(x, y.drop_last(), p);
    }
}

/// A `//` comment after a line is cut off again when the line is cleaned:
/// if `m` holds no `//` and does not end in `/`, the trimmed form of `m`,
/// `//` and any text has its first `//` just after the trimmed `m`, and
/// what comes before it trims to what `m` alone trims to, which holds no
/// `//`.
pub proof fn lemma_comment_cut(m: Seq<char>, text: Seq<char>)
    requires
        forall|k: int| !occurs_at(m.push('/'), k, slashes()),
    ensures
        ({
            let t = trimmed(m + slashes() + text);
            &&& first_occurrence(t, slashes(), 0) matches Some(c) && trimmed(t.take(c)) == trimmed(m)
            &&& first_occurrence(trimmed(m), slashes(), 0) is None
        }),
{
    let p = |c: char| is_white_space(c);
    let q = slashes() + text;
    assert(m + slashes() + text =~= m + q);
    assert(q[0] == '/' && q[1] == '/');
    assert(!all_chars(q, p)) by {
        assert(!p(q[0]));
    }
    lemma_trim_back_prefix(q, p);
    assert(!p(q[1]));
    let tq = trim_back(q, p);
    assert(tq.len() >= 2);
    assert(tq[0] == '/' && tq[1] == '/');
    lemma_trim_front_concat(m, q, p);
    lemma_trim_front_concat(m, Seq::empty(), p);
    assert(m + Seq::<char>::empty() =~= m);
    let t = trimmed(m + q);
    let mp = m.push('/');
    if all_chars(m, p) {
        assert(trim_front(q, p) == q);
        assert(t == tq);
        lemma_occurs_slashes(t, 0);
        assert(t.take(0) =~= Seq::<char>::empty());
        assert(trimmed(m) == Seq::<char>::empty());
        assert(first_occurrence(Seq::<char>::empty(), slashes(), 1) is None);
    } else {
        let f = trim_front(m, p);
        lemma_trim_front_suffix(m, p);
        let a = m.len() - f.len();
        lemma_trim_back_concat(f, q, p);
        assert(t == f + tq);
        lemma_occurs_slashes(t, f.len() as int);
        assert forall|k: int| 0 <= k < f.len() implies !occurs_at(t, k, slashes()) by {
            lemma_occurs_slashes(t, k);
            lemma_occurs_slashes(mp, a + k);
            assert(t[k] == f[k] && f[k] == m[a + k] && mp[a + k] == m[a + k]);
            if k + 1 < f.len() {
                assert(t[k + 1] == m[a + k + 1] && mp[a + k + 1] == m[a + k + 1]);
            } else {
                assert(t[k + 1] == tq[0]);
                assert(mp[a + k + 1] == '/');
            }
        }
        lemma_first_occurrence_skip(t, slashes(), f.len() as int);
        assert(t.take(f.len() as int) =~= f);
        assert(trim_front(f, p) == f);
        let b = trim_back(f, p);
        lemma_trim_back_prefix(f, p);
        assert forall|k: int| 0 <= k <= b.len() implies !occurs_at(b, k, slashes()) by {
            lemma_occurs_slashes(b, k);
            lemma_occurs_slashes(mp, a + k);
            if 0 <= k && k + 2 <= b.len() {
                assert(b[k] == f[k] && f[k] == m[a + k] && mp[a + k] == m[a + k]);
                assert(b[k + 1] == f[k + 1] && f[k + 1] == m[a + k + 1] && mp[a + k + 1] == m[a + k + 1]);
            }
        }
        lemma_first_occurrence_skip(b, slashes(), b.len() + 1 as int);
    }
}

/// `s` without leading and trailing double quotes (`trim_matches('"')`).
pub open spec fn unquoted(s: Seq<char>) -> Seq<char> {
    trim_back(trim_front(s, |c: char| c == '"'), |c: char| c == '"')
}

/// Whether `c` is trimmed: white space, or a double quote when `quotes`.
fn trims(c: char, quotes: bool) -> (r: bool)
    ensures
        r == (if quotes { c == '"' } else { is_white_space(c) }),
{
    if quotes {
        c == '"'
    } else {
        white_space(c)
    }
}

proof fn lemma_trim_front_skip(s: Seq<char>, p: spec_fn(char) -> bool, i: int)
    requires
        0 <= i <= s.len(),
        forall|k: int| 0 <= k < i ==> p(s[k]),
    ensures
        trim_front(s, p) == trim_front(s.skip(i), p),
    decreases i,
{
    if i > 0 {
        lemma_trim_front_skip(s.skip(1), p, i - 1);
        assert(s.skip(1).skip(i - 1) =~= s.skip(i));
        assert forall|k: int| 0 <= k < i - 1 implies p(s.skip(1)[k]) by {
            assert(s.skip(1)[k] == s[k + 1]);
        }
    } else {
        assert(s.skip(0) =~= s);
    }
}

proof fn lemma_trim_back_take(s: Seq<char>, p: spec_fn(char) -> bool, j: int)
    requires
        0 <= j <= s.len(),
        forall|k: int| j <= k < s.len() ==> p(s[k]),
    ensures
        trim_back(s, p) == trim_back(s.take(j), p),
    decreases s.len() - j,
{
    if j < s.len() {
        lemma_trim_back_take(s.drop_last(), p, j);
        assert(s.drop_last().take(j) =~= s.take(j));
    } else {
        assert(s.take(j) =~= s);
    }
}

/// The bounds of `s` trimmed of white space, or of double quotes when
/// `quotes`: `s[start..end]` is what remains.
pub fn trim_bounds(s: &[char], quotes: bool) -> (r: (usize, usize))
    ensures
        r.0 <= r.1 <= s@.len(),
        !quotes ==> s@.subrange(r.0 as int, r.1 as int) == trimmed(s@),
        quotes ==> s@.subrange(r.0 as int, r.1 as int) == unquoted(s@),
{
    let ghost p: spec_fn(char) -> bool = if quotes { |c: char| c == '"' } else { |c: char| is_white_space(c) };
    let mut i: usize = 0;
    while i < s.len() && trims(s[i], quotes)
        invariant
            i <= s@.len(),
            p == (if quotes { |c: char| c == '"' } else { |c: char| is_white_space(c) }),
            forall|k: int| 0 <= k < i ==> p(s@[k]),
        decreases s.len() - i,
    {
        i = i + 1;
    }
    proof {
        lemma_trim_front_skip(s@, p, i as int);
    }
    let ghost front = s@.skip(i as int);
    assert(trim_front(s@, p) == front) by {
        if i < s@.len() {
            assert(!p(front[0]));
        }
    }
    let mut j = s.len();
    while j > i && trims(s[j - 1], quotes)
        invariant
            i <= j <= s@.len(),
            p == (if quotes { |c: char| c == '"' } else { |c: char| is_white_space(c) }),
            forall|k: int| j <= k < s@.len() ==> p(s@[k]),
        decreases j - i,
    {
        j = j - 1;
    }
    proof {
        assert forall|k: int| j - i <= k < front.len() implies p(front[k]) by {
            assert(front[k] == s@[i + k]);
        }
        lemma_trim_back_take(front, p, j - i);
        let t = front.take(j - i);
        assert(t =~= s@.subrange(i as int, j as int));
        if j > i {
            assert(t.last() == s@[j - 1]);
        }
        assert(trim_back(t, p) == t);
    }
    (i, j)
}

/// The index of the first occurrence of `pat` in `s`, from `i` on.
pub open spec fn first_occurrence(s: Seq<char>, pat: Seq<char>, i: int) -> Option<int>
    decreases s.len() + 1 - i,
{
    if i < 0 || i > s.len() {
        None
    } else if occurs_at(s, i, pat) {
        Some(i)
    } else {
        first_occurrence(s, pat, i + 1)
    }
}

pub proof fn lemma_first_occurrence_skip(s: Seq<char>, pat: Seq<char>, i: int)
    requires
        0 <= i <= s.len() + 1,
        forall|k: int| 0 <= k < i ==> !occurs_at(s, k, pat),
    ensures
        first_occurrence(s, pat, 0) == first_occurrence(s, pat, i),
    decreases i,
{
    if i > 0 {
        lemma_first_occurrence_skip(s, pat, i - 1);
    }
}

/// The index of the first occurrence of the non-empty `pat` in `s`
/// (`str::find`).
pub fn find(s: &[char], pat: &[char]) -> (r: Option<usize>)
    requires
        pat@.len() > 0,
    ensures
        match r {
            Some(i) => first_occurrence(s@, pat@, 0) == Some(i as int) && occurs_at(s@, i as int, pat@),
            None => first_occurrence(s@, pat@, 0) is None,
        },
{
    let mut i: usize = 0;
    while i < s.len()
        invariant
            i <= s@.len(),
            pat@.len() > 0,
            forall|k: int| 0 <= k < i ==> !occurs_at(s@, k, pat@),
        decreases s.len() - i,
    {
        if matches_at(s, i, pat) {
            proof {
                lemma_first_occurrence_skip(s@, pat@, i as int);
            }
            return Some(i);
        }
        i = i + 1;
    }
    proof {
        assert(!occurs_at(s@, i as int, pat@));
        lemma_first_occurrence_skip(s@, pat@, i + 1);
    }
    None
}

/// `l` without one trailing carriage return.
pub open spec fn strip_cr(l: Seq<char>) -> Seq<char> {
    if l.len() > 0 && l.last() == '\r' {
        l.drop_last()
    } else {
        l
    }
}

/// The lines of `s` after the partial line `cur` (`str::lines`): split at
/// `\n`, a `\r` before the `\n` removed, and no empty last line after a
/// final line ending.
pub open spec fn lines_from(s: Seq<char>, cur: Seq<char>) -> Seq<Seq<char>>
    decreases s.len(),
{
    if s.len() == 0 {
        if cur.len() == 0 {
            Seq::empty()
        } else {
            seq![cur]
        }
    } else if s[0] == '\n' {
        seq![strip_cr(cur)] + lines_from(s.skip(1), Seq::empty())
    } else {
        lines_from(s.skip(1), cur.push(s[0]))
    }
}

/// The lines of `s`.
pub open spec fn lines(s: Seq<char>) -> Seq<Seq<char>> {
    lines_from(s, Seq::empty())
}

/// The characters of `s` from `start` to `end`.
pub fn sub_chars(s: &[char], start: usize, end: usize) -> (r: Vec<char>)
    requires
        start <= end <= s@.len(),
    ensures
        r@ == s@.subrange(start as int, end as int),
{
    let mut r: Vec<char> = Vec::new();
    let mut i = start;
    while i < end
        invariant
            start <= i <= end <= s@.len(),
            r@ == s@.subrange(start as int, i as int),
        decreases end - i,
    {
        r.push(s[i]);
        i = i + 1;
        assert(r@ =~= s@.subrange(start as int, i as int));
    }
    r
}

/// The position just past the last `/` in `p`, or 0 when there is none.
pub open spec fn name_start(p: Seq<char>) -> int
    decreases p.len(),
{
    if p.len() == 0 {
        0
    } else if p.last() == '/' {
        p.len() as int
    } else {
        name_start(p.drop_last())
    }
}

pub proof fn lemma_name_start_bounds(p: Seq<char>)
    ensures
        0 <= name_start(p) <= p.len(),
    decreases p.len(),
{
    if p.len() > 0 && p.last() != '/' {
        lemma_name_start_bounds(p.drop_last());
    }
}

/// No `/` follows the position `name_start` gives.
pub proof fn lemma_name_start_no_slash(p: Seq<char>)
    ensures
        forall|i: int| name_start(p) <= i < p.len() ==> p[i] != '/',
    decreases p.len(),
{
    if p.len() > 0 && p.last() != '/' {
        lemma_name_start_no_slash(p.drop_last());
        lemma_name_start_bounds(p.drop_last());
        assert forall|i: int| name_start(p) <= i < p.len() implies p[i] != '/' by {
            if i < p.len() - 1 {
                assert(p.drop_last()[i] == p[i]);
            }
        }
    }
}

/// The position just past the last `/` in `p`, or 0.
pub fn find_name_start(p: &[char]) -> (r: usize)
    ensures
        r == name_start(p@),
{
    let mut i = p.len();
    assert(p@.take(i as int) =~= p@);
    while i > 0
        invariant
            i <= p@.len(),
            name_start(p@) == name_start(p@.take(i as int)),
        decreases i,
    {
        proof {
            assert(p@.take(i as int).drop_last() =~= p@.take(i - 1));
        }
        if p[i - 1] == '/' {
            return i;
        }
        i = i - 1;
    }
    assert(p@.take(0) =~= Seq::<char>::empty());
    0
}

} // verus!
