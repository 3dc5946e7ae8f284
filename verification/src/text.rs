//! Character-level text helpers: decimal rendering, trimming and line framing.

use vstd::prelude::*;

verus! {

/// The character of a decimal digit.
pub open spec fn digit_char(d: nat) -> char
    recommends
        d < 10,
{
    ((d + 48) as u8) as char
}

/// The decimal rendering of a natural number, most significant digit first.
pub open spec fn decimal(n: nat) -> Seq<char>
    decreases n,
{
    if n < 10 {
        seq![digit_char(n)]
    } else {
        decimal(n / 10).push(digit_char(n % 10))
    }
}

/// The decimal rendering of an integer, with a leading '-' when it is negative.
pub open spec fn signed_decimal(i: int) -> Seq<char> {
    if i < 0 {
        seq!['-'] + decimal((-i) as nat)
    } else {
        decimal(i as nat)
    }
}

/// Appends the decimal rendering of `n` to `s`.
pub fn push_decimal(s: &mut String, n: u64)
    ensures
        final(s)@ == old(s)@ + decimal(n as nat),
    decreases n,
{
    if n >= 10 {
        push_decimal(s, n / 10);
    }
    let d: u8 = (n % 10) as u8;
    let c: char = (d + 48u8) as char;
    s.push(c);
    proof {
        assert(c == digit_char((n % 10) as nat));
    }
}


/// Appends the decimal rendering of `i`, signed, to `s`.
pub fn push_signed_decimal(s: &mut String, i: i64)
    ensures
        final(s)@ == old(s)@ + signed_decimal(i as int),
{
    if i < 0 {
        s.push('-');
        let magnitude: u64 = (0i128 - (i as i128)) as u64;
        push_decimal(s, magnitude);
        assert(final(s)@ =~= old(s)@ + (seq!['-'] + decimal((-i) as nat)));
    } else {
        push_decimal(s, i as u64);
    }
}

/// The characters of `s`, in order.
pub fn chars_of(s: &str) -> (v: Vec<char>)
    ensures
        v@ == s@,
{
    broadcast use vstd::string::group_string_axioms;
    let mut v: Vec<char> = Vec::new();
    for c in it: s.chars()
        invariant
            v@ == it.seq().take(it.index() as int),
    {
        v.push(c);
    }
    v
}


/// A string holding exactly the characters of `v`.
pub fn string_from_chars(v: &[char]) -> (s: String)
    ensures
        s@ == v@,
{
    let mut s = String::new();
    let n = v.len();
    for i in 0..n
        invariant
            n == v@.len(),
            s@ == v@.take(i as int),
    {
        s.push(v[i]);
        assert(v@.take(i + 1) =~= v@.take(i as int).push(v@[i as int]));
    }
    assert(v@.take(n as int) =~= v@);
    s
}

/// An owned copy of `s`.
pub fn owned(s: &str) -> (r: String)
    ensures
        r@ == s@,
{
    let v = chars_of(s);
    string_from_chars(v.as_slice())
}

/// `a` followed by `b`.
pub fn concat(a: &str, b: &str) -> (r: String)
    ensures
        r@ == a@ + b@,
{
    let mut r = owned(a);
    r.append(b);
    r
}

/// Whether `a` and `b` hold the same characters.
pub fn same_text(a: &str, b: &str) -> (r: bool)
    ensures
        r == (a@ == b@),
{
    let x = chars_of(a);
    let y = chars_of(b);
    if x.len() != y.len() {
        return false;
    }
    let n = x.len();
    for i in 0..n
        invariant
            n == x@.len(),
            n == y@.len(),
            x@ == a@,
            y@ == b@,
            forall|j: int| 0 <= j < i ==> x@[j] == y@[j],
    {
        if x[i] != y[i] {
            return false;
        }
    }
    assert(x@ =~= y@);
    true
}

/// Unicode's White_Space property, which `str::trim` uses.
pub open spec fn is_white_space(c: char) -> bool {
    let u = c as u32;
    ||| 0x9 <= u <= 0xD
    ||| u == 0x20
    ||| u == 0x85
    ||| u == 0xA0
    ||| u == 0x1680
    ||| 0x2000 <= u <= 0x200A
    ||| u == 0x2028
    ||| u == 0x2029
    ||| u == 0x202F
    ||| u == 0x205F
    ||| u == 0x3000
}

/// Whether `c` is a white-space character.
pub fn white_space(c: char) -> (r: bool)
    ensures
        r == is_white_space(c),
{
    let u = c as u32;
    (0x9 <= u && u <= 0xD) || u == 0x20 || u == 0x85 || u == 0xA0 || u == 0x1680 || (0x2000 <= u
        && u <= 0x200A) || u == 0x2028 || u == 0x2029 || u == 0x202F || u == 0x205F || u == 0x3000
}

/// `s` without its leading white space.
pub open spec fn trim_start(s: Seq<char>) -> Seq<char>
    decreases s.len(),
{
    if s.len() > 0 && is_white_space(s[0]) {
        trim_start(s.drop_first())
    } else {
        s
    }
}

/// `s` without its trailing white space.
pub open spec fn trim_end(s: Seq<char>) -> Seq<char>
    decreases s.len(),
{
    if s.len() > 0 && is_white_space(s.last()) {
        trim_end(s.drop_last())
    } else {
        s
    }
}

/// `s` without leading and trailing white space, as `str::trim` gives it.
pub open spec fn trim(s: Seq<char>) -> Seq<char> {
    trim_end(trim_start(s))
}

/// `s` without the `c` characters at its end, as `str::trim_end_matches(c)` gives it.
pub open spec fn trim_end_char(s: Seq<char>, c: char) -> Seq<char>
    decreases s.len(),
{
    if s.len() > 0 && s.last() == c {
        trim_end_char(s.drop_last(), c)
    } else {
        s
    }
}

/// The characters of `v` from `lo` up to `hi`.
pub fn chars_between(v: &[char], lo: usize, hi: usize) -> (r: Vec<char>)
    requires
        lo <= hi <= v@.len(),
    ensures
        r@ == v@.subrange(lo as int, hi as int),
{
    let mut r: Vec<char> = Vec::new();
    let mut i = lo;
    while i < hi
        invariant
            lo <= i <= hi <= v@.len(),
            r@ == v@.subrange(lo as int, i as int),
        decreases hi - i,
    {
        r.push(v[i]);
        i = i + 1;
        assert(r@ =~= v@.subrange(lo as int, i as int));
    }
    r
}

/// The characters of `v` with white space cut from both ends.
pub fn trim_chars(v: &[char]) -> (r: Vec<char>)
    ensures
        r@ == trim(v@),
{
    let n = v.len();
    let mut lo: usize = 0;
    assert(v@.subrange(0, n as int) =~= v@);
    while lo < n && white_space(v[lo])
        invariant
            lo <= n == v@.len(),
            trim_start(v@) == trim_start(v@.subrange(lo as int, n as int)),
        decreases n - lo,
    {
        assert(v@.subrange(lo as int, n as int).drop_first() =~= v@.subrange(lo + 1, n as int));
        lo = lo + 1;
    }
    let ghost rest = v@.subrange(lo as int, n as int);
    assert(trim_start(v@) == rest);
    let mut hi: usize = n;
    while hi > lo && white_space(v[hi - 1])
        invariant
            lo <= hi <= n == v@.len(),
            rest == v@.subrange(lo as int, n as int),
            trim_end(rest) == trim_end(v@.subrange(lo as int, hi as int)),
        decreases hi,
    {
        assert(v@.subrange(lo as int, hi as int).drop_last() =~= v@.subrange(
            lo as int,
            hi - 1,
        ));
        hi = hi - 1;
    }
    chars_between(v, lo, hi)
}

/// The characters of `v` with every trailing `c` cut off.
pub fn trim_end_char_chars(v: &[char], c: char) -> (r: Vec<char>)
    ensures
        r@ == trim_end_char(v@, c),
{
    let n = v.len();
    let mut hi: usize = n;
    assert(v@.subrange(0, n as int) =~= v@);
    while hi > 0 && v[hi - 1] == c
        invariant
            hi <= n == v@.len(),
            trim_end_char(v@, c) == trim_end_char(v@.subrange(0, hi as int), c),
        decreases hi,
    {
        assert(v@.subrange(0, hi as int).drop_last() =~= v@.subrange(0, hi - 1));
        hi = hi - 1;
    }
    chars_between(v, 0, hi)
}

/// `s` with white space cut from both ends.
pub fn trim_text(s: &str) -> (r: String)
    ensures
        r@ == trim(s@),
{
    let v = chars_of(s);
    let t = trim_chars(v.as_slice());
    string_from_chars(t.as_slice())
}

/// Whether `s` is empty once white space is cut from both ends.
pub fn is_blank(s: &str) -> (r: bool)
    ensures
        r == (trim(s@).len() == 0),
{
    let v = chars_of(s);
    let t = trim_chars(v.as_slice());
    t.len() == 0
}

/// `s` with every trailing `c` cut off.
pub fn trim_end_matching(s: &str, c: char) -> (r: String)
    ensures
        r@ == trim_end_char(s@, c),
{
    let v = chars_of(s);
    let t = trim_end_char_chars(v.as_slice(), c);
    string_from_chars(t.as_slice())
}


/// The pieces of `s` between its '\n' characters, in order; there is always one
/// piece more than there are newlines, so the last piece is empty when `s` ends
/// with a newline.
pub open spec fn newline_pieces(s: Seq<char>) -> Seq<Seq<char>>
    decreases s.len(),
{
    if s.len() == 0 {
        seq![Seq::empty()]
    } else {
        let p = newline_pieces(s.drop_last());
        if s.last() == '\n' {
            p.push(Seq::empty())
        } else {
            p.update(p.len() - 1, p.last().push(s.last()))
        }
    }
}

/// Each line of `ls`, trimmed, in order, leaving out those that are blank.
pub open spec fn trimmed_nonblank(ls: Seq<Seq<char>>) -> Seq<Seq<char>>
    decreases ls.len(),
{
    if ls.len() == 0 {
        seq![]
    } else {
        let r = trimmed_nonblank(ls.drop_last());
        let t = trim(ls.last());
        if t.len() > 0 {
            r.push(t)
        } else {
            r
        }
    }
}

/// The non-blank lines of a text, each trimmed: `str::lines` followed by `trim`
/// and a skip of the empty results. (The '\r' of a "\r\n" ending is white
/// space, so trimming removes it.)
pub open spec fn nonblank_lines(s: Seq<char>) -> Seq<Seq<char>> {
    trimmed_nonblank(newline_pieces(s))
}

/// The lines of `ls`, each followed by a '\n'.
pub open spec fn join_lines(ls: Seq<Seq<char>>) -> Seq<char>
    decreases ls.len(),
{
    if ls.len() == 0 {
        Seq::empty()
    } else {
        join_lines(ls.drop_last()) + ls.last().push('\n')
    }
}

pub proof fn lemma_newline_pieces_nonempty(s: Seq<char>)
    ensures
        newline_pieces(s).len() >= 1,
    decreases s.len(),
{
    if s.len() > 0 {
        lemma_newline_pieces_nonempty(s.drop_last());
    }
}

/// The non-blank trimmed lines of `s`.
pub fn nonblank_lines_of(s: &str) -> (r: Vec<String>)
    ensures
        r.deep_view() == nonblank_lines(s@),
{
    let v = chars_of(s);
    let n = v.len();
    let mut out: Vec<String> = Vec::new();
    let mut cur: Vec<char> = Vec::new();
    proof {
        assert(v@.take(0) =~= Seq::<char>::empty());
        assert(out.deep_view() =~= trimmed_nonblank(newline_pieces(v@.take(0)).drop_last()));
    }
    for i in 0..n
        invariant
            n == v@.len(),
            out.deep_view() == trimmed_nonblank(newline_pieces(v@.take(i as int)).drop_last()),
            cur@ == newline_pieces(v@.take(i as int)).last(),
    {
        let ghost p = newline_pieces(v@.take(i as int));
        proof {
            lemma_newline_pieces_nonempty(v@.take(i as int));
            assert(v@.take(i + 1).drop_last() =~= v@.take(i as int));
            assert(v@.take(i + 1).last() == v@[i as int]);
        }
        let c = v[i];
        if c == '\n' {
            let t = trim_chars(cur.as_slice());
            if t.len() > 0 {
                let line = string_from_chars(t.as_slice());
                out.push(line);
            }
            cur = Vec::new();
            proof {
                let p2 = newline_pieces(v@.take(i + 1));
                assert(p2 == p.push(Seq::empty()));
                assert(p2.drop_last() =~= p);
                assert(out.deep_view() =~= trimmed_nonblank(p));
            }
        } else {
            cur.push(c);
            proof {
                let p2 = newline_pieces(v@.take(i + 1));
                assert(p2 == p.update(p.len() - 1, p.last().push(c)));
                assert(p2.drop_last() =~= p.drop_last());
                assert(cur@ =~= p2.last());
            }
        }
    }
    let t = trim_chars(cur.as_slice());
    if t.len() > 0 {
        let line = string_from_chars(t.as_slice());
        out.push(line);
    }
    proof {
        assert(v@.take(n as int) =~= v@);
        let p = newline_pieces(v@);
        lemma_newline_pieces_nonempty(v@);
        assert(p.drop_last().push(p.last()) =~= p);
        assert(out.deep_view() =~= trimmed_nonblank(p));
    }
    out
}

/// The text made of the lines of `lines`, each followed by a '\n'.
pub fn joined_lines(lines: &Vec<String>) -> (r: String)
    ensures
        r@ == join_lines(lines.deep_view()),
{
    let mut r = String::new();
    let n = lines.len();
    for i in 0..n
        invariant
            n == lines@.len(),
            r@ == join_lines(lines.deep_view().take(i as int)),
    {
        proof {
            assert(lines.deep_view().take(i + 1).drop_last() =~= lines.deep_view().take(i as int));
        }
        r.append(lines[i].as_str());
        r.push('\n');
    }
    proof {
        assert(lines.deep_view().take(n as int) =~= lines.deep_view());
    }
    r
}

/// A line that the framing keeps as it is: not empty, no newline in it, and no
/// white space at either end.
pub open spec fn framable_line(l: Seq<char>) -> bool {
    &&& l.len() > 0
    &&& !l.contains('\n')
    &&& trim(l) == l
}

proof fn lemma_pieces_append_plain(x: Seq<char>, l: Seq<char>)
    requires
        !l.contains('\n'),
    ensures
        newline_pieces(x + l) == newline_pieces(x).update(
            newline_pieces(x).len() - 1,
            newline_pieces(x).last() + l,
        ),
    decreases l.len(),
{
    lemma_newline_pieces_nonempty(x);
    if l.len() == 0 {
        assert(x + l =~= x);
        assert(newline_pieces(x).last() + l =~= newline_pieces(x).last());
        assert(newline_pieces(x).update(newline_pieces(x).len() - 1, newline_pieces(x).last())
            =~= newline_pieces(x));
    } else {
        let l2 = l.drop_last();
        assert(!l2.contains('\n')) by {
            if l2.contains('\n') {
                let k = choose|k: int| 0 <= k < l2.len() && l2[k] == '\n';
                assert(l[k] == '\n');
            }
        }
        lemma_pieces_append_plain(x, l2);
        assert((x + l).drop_last() =~= x + l2);
        assert((x + l).last() == l.last());
        assert(l.last() != '\n') by {
            assert(l[l.len() - 1] == l.last());
        }
        let p = newline_pieces(x);
        lemma_newline_pieces_nonempty(x + l2);
        assert((p.last() + l2).push(l.last()) =~= p.last() + l);
        assert(newline_pieces(x + l) =~= p.update(p.len() - 1, p.last() + l));
    }
}

proof fn lemma_pieces_of_join(ls: Seq<Seq<char>>)
    requires
        forall|i: int| 0 <= i < ls.len() ==> framable_line(#[trigger] ls[i]),
    ensures
        newline_pieces(join_lines(ls)) == ls.push(Seq::empty()),
    decreases ls.len(),
{
    if ls.len() == 0 {
        assert(newline_pieces(Seq::<char>::empty()) =~= seq![Seq::<char>::empty()]);
        assert(ls.push(Seq::empty()) =~= seq![Seq::<char>::empty()]);
    } else {
        let front = ls.drop_last();
        let l = ls.last();
        assert(framable_line(ls[ls.len() - 1]));
        assert forall|i: int| 0 <= i < front.len() implies framable_line(#[trigger] front[i]) by {
            assert(front[i] == ls[i]);
        }
        lemma_pieces_of_join(front);
        let x = join_lines(front);
        lemma_pieces_append_plain(x, l);
        assert(front.push(Seq::empty()).update(front.len() as int, Seq::<char>::empty() + l)
            =~= front.push(l));
        assert(front.push(l) =~= ls);
        let whole = join_lines(ls);
        assert(whole =~= (x + l).push('\n'));
        assert(whole.drop_last() =~= x + l);
    }
}

proof fn lemma_trimmed_nonblank_framable(ls: Seq<Seq<char>>)
    requires
        forall|i: int| 0 <= i < ls.len() ==> framable_line(#[trigger] ls[i]),
    ensures
        trimmed_nonblank(ls) == ls,
    decreases ls.len(),
{
    if ls.len() > 0 {
        let front = ls.drop_last();
        assert(framable_line(ls[ls.len() - 1]));
        assert forall|i: int| 0 <= i < front.len() implies framable_line(#[trigger] front[i]) by {
            assert(front[i] == ls[i]);
        }
        lemma_trimmed_nonblank_framable(front);
        assert(front.push(ls.last()) =~= ls);
    }
}

/// Framing round trip: reading back the non-blank lines of a text written as
/// lines, each followed by a newline, gives the lines again, when every line is
/// non-empty, holds no newline and has no white space at its ends.
pub proof fn lemma_lines_round_trip(ls: Seq<Seq<char>>)
    requires
        forall|i: int| 0 <= i < ls.len() ==> framable_line(#[trigger] ls[i]),
    ensures
        nonblank_lines(join_lines(ls)) == ls,
{
    lemma_pieces_of_join(ls);
    let p = ls.push(Seq::<char>::empty());
    assert(p.drop_last() =~= ls);
    assert(trim(Seq::<char>::empty()) =~= Seq::<char>::empty());
    lemma_trimmed_nonblank_framable(ls);
}

} // verus!
