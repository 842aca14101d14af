//! Character-level text utilities shared by the parsers.
//!
//! Every function here works on plain characters so that its behaviour is a
//! total mathematical function of its input.  The only trusted items of the
//! whole library live here: building a `String` from characters and decoding
//! UTF-8 bytes, both thin shims over the standard library.

use vstd::prelude::*;

verus! {

/// Index of the first occurrence of `c` in `s`, or `s.len()` if absent.
pub open spec fn first_idx(s: Seq<char>, c: char) -> int
    decreases s.len(),
{
    if s.len() == 0 {
        0
    } else if s[0] == c {
        0
    } else {
        1 + first_idx(s.skip(1), c)
    }
}

pub proof fn lemma_first_idx_bounds(s: Seq<char>, c: char)
    ensures
        0 <= first_idx(s, c) <= s.len(),
        first_idx(s, c) < s.len() ==> s[first_idx(s, c)] == c,
        forall|j: int| 0 <= j < first_idx(s, c) ==> s[j] != c,
    decreases s.len(),
{
    if s.len() == 0 {
    } else if s[0] == c {
    } else {
        lemma_first_idx_bounds(s.skip(1), c);
        assert forall|j: int| 0 <= j < first_idx(s, c) implies s[j] != c by {
            if j >= 1 {
                assert(s[j] == s.skip(1)[j - 1]);
            }
        }
    }
}

/// `first_idx` over a concatenation whose left part is free of `c`.
pub proof fn lemma_first_idx_concat(a: Seq<char>, b: Seq<char>, c: char)
    requires
        forall|j: int| 0 <= j < a.len() ==> a[j] != c,
    ensures
        b.len() == 0 ==> first_idx(a + b, c) == (a + b).len(),
        b.len() > 0 && b[0] == c ==> first_idx(a + b, c) == a.len(),
    decreases a.len(),
{
    if a.len() == 0 {
        assert(a + b =~= b);
        if b.len() > 0 && b[0] == c {
        } else if b.len() == 0 {
        }
    } else {
        let s = a + b;
        assert(s[0] == a[0]);
        assert(s.skip(1) =~= a.skip(1) + b);
        lemma_first_idx_concat(a.skip(1), b, c);
    }
}

/// A line with a final carriage return removed, as the line splitter does
/// for lines that end in a newline.
pub open spec fn strip_cr(s: Seq<char>) -> Seq<char> {
    if s.len() > 0 && s[s.len() - 1] == '\r' {
        s.drop_last()
    } else {
        s
    }
}

/// The lines of `s`: segments separated by `'\n'`, each stripped of one
/// trailing `'\r'`; a final segment after the last newline is kept only if
/// it is not empty.
pub open spec fn spec_lines(s: Seq<char>) -> Seq<Seq<char>>
    decreases s.len(),
{
    if s.len() == 0 {
        Seq::empty()
    } else {
        let i = first_idx(s, '\n');
        if i == s.len() {
            seq![s]
        } else if 0 <= i < s.len() {
            seq![strip_cr(s.take(i))] + spec_lines(s.skip(i + 1))
        } else {
            Seq::empty()
        }
    }
}

/// The segments of `s` separated by `sep`; every separator produces a
/// boundary, so an empty input yields one empty segment.
pub open spec fn spec_split(s: Seq<char>, sep: char) -> Seq<Seq<char>>
    decreases s.len(),
{
    let i = first_idx(s, sep);
    if i == s.len() {
        seq![s]
    } else if 0 <= i < s.len() {
        seq![s.take(i)] + spec_split(s.skip(i + 1), sep)
    } else {
        Seq::empty()
    }
}

/// Collect the characters of a string slice.
pub fn chars_of(s: &str) -> (r: Vec<char>)
    ensures
        r@ == s@,
{
    let n: usize = s.unicode_len();
    let mut r: Vec<char> = Vec::new();
    let mut i: usize = 0;
    while i < n
        invariant
            i <= n,
            n == s@.len(),
            r@ == s@.take(i as int),
        decreases n - i,
    {
        r.push(s.get_char(i));
        i = i + 1;
        assert(r@ =~= s@.take(i as int));
    }
    assert(r@ =~= s@);
    r
}

/// Character-for-character equality of two string slices.
pub fn str_eq(a: &str, b: &str) -> (r: bool)
    ensures
        r == (a@ == b@),
{
    let na: usize = a.unicode_len();
    let nb: usize = b.unicode_len();
    if na != nb {
        assert(a@ != b@);
        return false;
    }
    let mut i: usize = 0;
    while i < na
        invariant
            i <= na,
            na == a@.len(),
            na == b@.len(),
            forall|j: int| 0 <= j < i ==> a@[j] == b@[j],
        decreases na - i,
    {
        if a.get_char(i) != b.get_char(i) {
            return false;
        }
        i = i + 1;
    }
    assert(a@ =~= b@);
    true
}

/// Relies on `String: FromIterator<&char>` (reached through
/// `Iterator::collect`): the collected string holds exactly the iterated
/// characters in order.
#[verifier::external_body]
pub fn string_from_chars(cs: &Vec<char>) -> (r: String)
    ensures
        r@ == cs@,
{
    cs.iter().collect()
}

/// Relies on `String::from_utf8`: succeeds exactly on valid UTF-8 input and
/// then decodes it.
#[verifier::external_body]
pub fn utf8_to_string(bytes: Vec<u8>) -> (r: Option<String>)
    ensures
        r is Some <==> vstd::utf8::valid_utf8(bytes@),
        r is Some ==> r->0@ == vstd::utf8::decode_utf8(bytes@),
{
    String::from_utf8(bytes).ok()
}

/// Split `s` at newlines, the way the manifest format is consumed line by
/// line: a trailing `'\r'` of a newline-terminated line is dropped, and a
/// trailing empty segment is not produced.
pub fn split_lines(s: &Vec<char>) -> (r: Vec<Vec<char>>)
    ensures
        r.deep_view() == spec_lines(s@),
{
    let n: usize = s.len();
    let mut out: Vec<Vec<char>> = Vec::new();
    let mut cur: Vec<char> = Vec::new();
    let mut i: usize = 0;
    proof {
        assert(out.deep_view() =~= Seq::<Seq<char>>::empty());
        assert(cur@ + s@.skip(0) =~= s@);
        assert(out.deep_view() + spec_lines(s@) =~= spec_lines(s@));
    }
    while i < n
        invariant
            i <= n,
            n == s@.len(),
            forall|j: int| 0 <= j < cur@.len() ==> cur@[j] != '\n',
            spec_lines(s@) == out.deep_view() + spec_lines(cur@ + s@.skip(i as int)),
        decreases n - i,
    {
        let c = s[i];
        let ghost rest = s@.skip(i as int);
        let ghost rest2 = s@.skip(i as int + 1);
        assert(rest.len() > 0 && rest[0] == c && rest.skip(1) =~= rest2);
        if c == '\n' {
            let ghost cur0 = cur@;
            proof {
                let w = cur0 + rest;
                lemma_first_idx_concat(cur0, rest, '\n');
                assert(first_idx(w, '\n') == cur0.len());
                assert(w.take(cur0.len() as int) =~= cur0);
                assert(w.skip(cur0.len() as int + 1) =~= rest2);
                assert(spec_lines(w) == seq![strip_cr(cur0)] + spec_lines(rest2));
            }
            let mut line = cur;
            cur = Vec::new();
            if line.len() > 0 && line[line.len() - 1] == '\r' {
                line.pop();
            }
            assert(line@ == strip_cr(cur0));
            let ghost out0 = out.deep_view();
            out.push(line);
            proof {
                assert(out.deep_view() =~~= out0.push(strip_cr(cur0)));
                assert(out0.push(strip_cr(cur0)) + spec_lines(rest2)
                    =~= out0 + (seq![strip_cr(cur0)] + spec_lines(rest2)));
                assert(cur@ + rest2 =~= rest2);
            }
        } else {
            let ghost cur0 = cur@;
            cur.push(c);
            proof {
                assert(cur@ + rest2 =~= cur0 + rest);
            }
        }
        i = i + 1;
    }
    assert(s@.skip(n as int) =~= Seq::<char>::empty());
    assert(cur@ + s@.skip(n as int) =~= cur@);
    if cur.len() > 0 {
        let ghost cur0 = cur@;
        let ghost out0 = out.deep_view();
        proof {
            lemma_first_idx_concat(cur0, Seq::empty(), '\n');
            assert(cur0 + Seq::<char>::empty() =~= cur0);
            assert(spec_lines(cur0) == seq![cur0]);
        }
        out.push(cur);
        proof {
            assert(out.deep_view() =~~= out0.push(cur0));
            assert(out0.push(cur0) =~= out0 + seq![cur0]);
        }
    } else {
        assert(spec_lines(cur@) =~= Seq::<Seq<char>>::empty());
        assert(out.deep_view() + spec_lines(cur@) =~= out.deep_view());
    }
    out
}

/// An ASCII whitespace character.  Field trimming treats exactly these as
/// blank.
pub open spec fn spec_is_space(c: char) -> bool {
    c == ' ' || c == '\t' || c == '\n' || c == '\r' || c == '\u{b}' || c == '\u{c}'
}

fn is_space(c: char) -> (r: bool)
    ensures
        r == spec_is_space(c),
{
    c == ' ' || c == '\t' || c == '\n' || c == '\r' || c == '\u{b}' || c == '\u{c}'
}

/// `s` without its leading whitespace.
pub open spec fn trim_start(s: Seq<char>) -> Seq<char>
    decreases s.len(),
{
    if s.len() > 0 && spec_is_space(s[0]) {
        trim_start(s.skip(1))
    } else {
        s
    }
}

/// `s` without its trailing whitespace.
pub open spec fn trim_end(s: Seq<char>) -> Seq<char>
    decreases s.len(),
{
    if s.len() > 0 && spec_is_space(s.last()) {
        trim_end(s.drop_last())
    } else {
        s
    }
}

/// `s` without leading and trailing whitespace.
pub open spec fn spec_trim(s: Seq<char>) -> Seq<char> {
    trim_end(trim_start(s))
}

proof fn lemma_trim_start_at(s: Seq<char>, lo: int)
    requires
        0 <= lo <= s.len(),
        forall|j: int| 0 <= j < lo ==> spec_is_space(#[trigger] s[j]),
        lo == s.len() || !spec_is_space(s[lo]),
    ensures
        trim_start(s) == s.skip(lo),
    decreases lo,
{
    if lo == 0 {
        assert(s.skip(0) =~= s);
    } else {
        assert(spec_is_space(s[0]));
        assert(forall|j: int| 0 <= j < lo - 1 ==> s.skip(1)[j] == s[j + 1]);
        lemma_trim_start_at(s.skip(1), lo - 1);
        assert(s.skip(1).skip(lo - 1) =~= s.skip(lo));
    }
}

proof fn lemma_trim_end_at(t: Seq<char>, hi: int)
    requires
        0 <= hi <= t.len(),
        forall|j: int| hi <= j < t.len() ==> spec_is_space(#[trigger] t[j]),
        hi == 0 || !spec_is_space(t[hi - 1]),
    ensures
        trim_end(t) == t.take(hi),
    decreases t.len() - hi,
{
    if hi == t.len() {
        if hi == 0 {
            assert(t.take(0) =~= t);
        } else {
            assert(!spec_is_space(t.last()));
            assert(t.take(hi) =~= t);
        }
    } else {
        assert(spec_is_space(t.last()));
        lemma_trim_end_at(t.drop_last(), hi);
        assert(t.drop_last().take(hi) =~= t.take(hi));
    }
}

/// The characters of `cs` with ASCII whitespace removed from both ends.
pub fn trim_chars(cs: &Vec<char>) -> (r: Vec<char>)
    ensures
        r@ == spec_trim(cs@),
{
    let n: usize = cs.len();
    let mut lo: usize = 0;
    while lo < n && is_space(cs[lo])
        invariant
            lo <= n,
            n == cs@.len(),
            forall|j: int| 0 <= j < lo ==> spec_is_space(#[trigger] cs@[j]),
        decreases n - lo,
    {
        lo = lo + 1;
    }
    proof {
        lemma_trim_start_at(cs@, lo as int);
    }
    let ghost t = cs@.skip(lo as int);
    let mut hi: usize = n;
    while hi > lo && is_space(cs[hi - 1])
        invariant
            lo <= hi <= n,
            n == cs@.len(),
            forall|j: int| hi <= j < n ==> spec_is_space(#[trigger] cs@[j]),
        decreases hi,
    {
        hi = hi - 1;
    }
    proof {
        assert(forall|j: int| hi - lo <= j < t.len() ==> t[j] == cs@[j + lo]);
        lemma_trim_end_at(t, hi - lo);
    }
    let mut out: Vec<char> = Vec::new();
    let mut i: usize = lo;
    proof {
        assert(out@ =~= cs@.subrange(lo as int, lo as int));
    }
    while i < hi
        invariant
            lo <= i <= hi <= n,
            n == cs@.len(),
            out@ == cs@.subrange(lo as int, i as int),
        decreases hi - i,
    {
        out.push(cs[i]);
        proof {
            assert(out@ =~= cs@.subrange(lo as int, i as int + 1));
        }
        i = i + 1;
    }
    proof {
        assert(t.take(hi - lo) =~= cs@.subrange(lo as int, hi as int));
    }
    out
}

/// Append every character of `s` to `dst`.
pub fn append_chars(dst: &mut Vec<char>, s: &str)
    ensures
        final(dst)@ == old(dst)@ + s@,
{
    let n: usize = s.unicode_len();
    let mut i: usize = 0;
    proof {
        assert(dst@ =~= old(dst)@ + s@.take(0));
    }
    while i < n
        invariant
            i <= n,
            n == s@.len(),
            dst@ == old(dst)@ + s@.take(i as int),
        decreases n - i,
    {
        dst.push(s.get_char(i));
        proof {
            assert(dst@ =~= old(dst)@ + s@.take(i as int + 1));
        }
        i = i + 1;
    }
    proof {
        assert(old(dst)@ + s@.take(n as int) =~= old(dst)@ + s@);
    }
}

/// A decimal digit's numeric value; zero for any other character.
pub open spec fn digit_val(c: char) -> nat {
    if '0' <= c && c <= '9' {
        ((c as u32) - 48) as nat
    } else {
        0
    }
}

/// Every character of `s` is a decimal digit.
pub open spec fn all_digits(s: Seq<char>) -> bool {
    forall|j: int| 0 <= j < s.len() ==> '0' <= #[trigger] s[j] && s[j] <= '9'
}

/// The number a string of decimal digits denotes.
pub open spec fn digits_val(s: Seq<char>) -> nat
    decreases s.len(),
{
    if s.len() == 0 {
        0
    } else {
        digits_val(s.drop_last()) * 10 + digit_val(s.last())
    }
}

proof fn lemma_digits_val_prefix_le(s: Seq<char>, i: int)
    requires
        0 <= i <= s.len(),
    ensures
        digits_val(s.take(i)) <= digits_val(s),
    decreases s.len() - i,
{
    if i == s.len() {
        assert(s.take(i) =~= s);
    } else {
        assert(s.take(i + 1).drop_last() =~= s.take(i));
        assert(s.take(i + 1).last() == s[i]);
        assert(digits_val(s.take(i)) <= digits_val(s.take(i + 1)));
        lemma_digits_val_prefix_le(s, i + 1);
    }
}

/// Parse an unsigned decimal number: succeeds exactly on non-empty
/// all-digit strings whose value fits.
pub fn parse_u64(s: &str) -> (r: Option<u64>)
    ensures
        match r {
            Some(v) => s@.len() > 0 && all_digits(s@) && v == digits_val(s@),
            None => s@.len() == 0 || !all_digits(s@) || digits_val(s@) > u64::MAX,
        },
{
    let n: usize = s.unicode_len();
    if n == 0 {
        return None;
    }
    let mut v: u64 = 0;
    let mut i: usize = 0;
    proof {
        assert(s@.take(0) =~= Seq::<char>::empty());
    }
    while i < n
        invariant
            i <= n,
            n == s@.len(),
            all_digits(s@.take(i as int)),
            v == digits_val(s@.take(i as int)),
        decreases n - i,
    {
        let c = s.get_char(i);
        let u = c as u32;
        proof {
            assert(s@.take(i as int + 1).drop_last() =~= s@.take(i as int));
            assert(s@.take(i as int + 1).last() == s@[i as int]);
        }
        if u < 48 || u > 57 {
            assert(!('0' <= s@[i as int] && s@[i as int] <= '9'));
            return None;
        }
        let d: u64 = (u - 48) as u64;
        if v > (u64::MAX - d) / 10 {
            proof {
                assert(all_digits(s@.take(i as int + 1)));
                assert(digits_val(s@.take(i as int + 1)) == v * 10 + d);
                assert(v * 10 + d > u64::MAX) by (nonlinear_arith)
                    requires
                        v > (u64::MAX - d) / 10,
                        d <= 9,
                {}
                lemma_digits_val_prefix_le(s@, i as int + 1);
            }
            return None;
        }
        proof {
            assert(v * 10 + d <= u64::MAX) by (nonlinear_arith)
                requires
                    v <= (u64::MAX - d) / 10,
                    d <= 9,
            {}
        }
        v = v * 10 + d;
        i = i + 1;
    }
    proof {
        assert(s@.take(n as int) =~= s@);
    }
    Some(v)
}

/// Whether some string of `v` holds exactly the characters `s`.
pub fn vec_contains_string(v: &Vec<String>, s: &str) -> (r: bool)
    ensures
        r == v.deep_view().contains(s@),
{
    let n: usize = v.len();
    let mut i: usize = 0;
    while i < n
        invariant
            i <= n,
            n == v@.len(),
            forall|j: int| 0 <= j < i ==> v.deep_view()[j] != s@,
        decreases n - i,
    {
        if str_eq(v[i].as_str(), s) {
            assert(v.deep_view()[i as int] == s@);
            return true;
        }
        i = i + 1;
    }
    assert(forall|j: int| 0 <= j < v.deep_view().len() ==> v.deep_view()[j] != s@);
    false
}

/// The characters of `cs` are exactly those of `s`.
pub fn chars_eq_str(cs: &Vec<char>, s: &str) -> (r: bool)
    ensures
        r == (cs@ == s@),
{
    let n: usize = s.unicode_len();
    if cs.len() != n {
        assert(cs@ != s@);
        return false;
    }
    let mut i: usize = 0;
    while i < n
        invariant
            i <= n,
            n == s@.len(),
            n == cs@.len(),
            forall|j: int| 0 <= j < i ==> cs@[j] == s@[j],
        decreases n - i,
    {
        if cs[i] != s.get_char(i) {
            return false;
        }
        i = i + 1;
    }
    assert(cs@ =~= s@);
    true
}

/// Split `s` at every occurrence of `sep`; every separator produces a
/// boundary, so the result always holds one more segment than there are
/// separators.
pub fn split_char(s: &Vec<char>, sep: char) -> (r: Vec<Vec<char>>)
    ensures
        r.deep_view() == spec_split(s@, sep),
{
    let n: usize = s.len();
    let mut out: Vec<Vec<char>> = Vec::new();
    let mut cur: Vec<char> = Vec::new();
    let mut i: usize = 0;
    proof {
        assert(out.deep_view() =~= Seq::<Seq<char>>::empty());
        assert(cur@ + s@.skip(0) =~= s@);
        assert(out.deep_view() + spec_split(s@, sep) =~= spec_split(s@, sep));
    }
    while i < n
        invariant
            i <= n,
            n == s@.len(),
            forall|j: int| 0 <= j < cur@.len() ==> cur@[j] != sep,
            spec_split(s@, sep) == out.deep_view() + spec_split(cur@ + s@.skip(i as int), sep),
        decreases n - i,
    {
        let c = s[i];
        let ghost rest = s@.skip(i as int);
        let ghost rest2 = s@.skip(i as int + 1);
        assert(rest.len() > 0 && rest[0] == c && rest.skip(1) =~= rest2);
        if c == sep {
            let ghost cur0 = cur@;
            proof {
                let w = cur0 + rest;
                lemma_first_idx_concat(cur0, rest, sep);
                assert(first_idx(w, sep) == cur0.len());
                assert(w.take(cur0.len() as int) =~= cur0);
                assert(w.skip(cur0.len() as int + 1) =~= rest2);
                assert(spec_split(w, sep) == seq![cur0] + spec_split(rest2, sep));
            }
            let line = cur;
            cur = Vec::new();
            let ghost out0 = out.deep_view();
            out.push(line);
            proof {
                assert(out.deep_view() =~~= out0.push(cur0));
                assert(out0.push(cur0) + spec_split(rest2, sep) =~= out0 + (seq![cur0]
                    + spec_split(rest2, sep)));
                assert(cur@ + rest2 =~= rest2);
            }
        } else {
            let ghost cur0 = cur@;
            cur.push(c);
            proof {
                assert(cur@ + rest2 =~= cur0 + rest);
            }
        }
        i = i + 1;
    }
    proof {
        assert(s@.skip(n as int) =~= Seq::<char>::empty());
        assert(cur@ + s@.skip(n as int) =~= cur@);
        lemma_first_idx_concat(cur@, Seq::empty(), sep);
        assert(cur@ + Seq::<char>::empty() =~= cur@);
        assert(spec_split(cur@, sep) == seq![cur@]);
    }
    let ghost cur0 = cur@;
    let ghost out0 = out.deep_view();
    out.push(cur);
    proof {
        assert(out.deep_view() =~~= out0.push(cur0));
        assert(out0.push(cur0) =~= out0 + seq![cur0]);
    }
    out
}

} // verus!
