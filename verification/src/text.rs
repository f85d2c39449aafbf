//! Text as a sequence of characters: the string operations that the rest of
//! the library builds on.

use vstd::prelude::*;

verus! {

/// `String::push`: the character is appended, nothing else changes.
pub assume_specification[ String::push ](s: &mut String, c: char)
    ensures
        final(s)@ == old(s)@.push(c),
;

/// `String::push_str`: the text is appended, nothing else changes.
pub assume_specification[ String::push_str ](s: &mut String, t: &str)
    ensures
        final(s)@ == old(s)@ + t@,
;

/// What `str`'s `Debug` makes of a text: the text in quotes, with what cannot
/// be shown escaped.
pub uninterp spec fn debug_form(s: Seq<char>) -> Seq<char>;

/// A character that `Debug` shows as it is.
pub open spec fn shown_as_is(c: char) -> bool {
    ' ' <= c && c <= '~' && c != '"' && c != '\\'
}

/// `format!` of a text by `{:?}`: the text in quotes. A text of printable ASCII
/// characters without quotes and backslashes stands in them as it is; how other
/// characters are escaped is left to the standard library.
#[verifier::external_body]
pub(crate) fn quoted(s: &str) -> (r: String)
    ensures
        r@ == debug_form(s@),
        (forall|i: int| 0 <= i < s@.len() ==> shown_as_is(#[trigger] s@[i])) ==> r@ == "\""@ + s@
            + "\""@,
{
    format!("{:?}", s)
}

/// The views of a list of strings.
pub open spec fn texts(v: Seq<String>) -> Seq<Seq<char>> {
    Seq::new(v.len(), |i: int| v[i]@)
}

/// `pat` stands in `s` at position `i`.
pub open spec fn occurs_at<T>(s: Seq<T>, pat: Seq<T>, i: int) -> bool {
    &&& 0 <= i
    &&& i + pat.len() <= s.len()
    &&& s.subrange(i, i + pat.len()) == pat
}

/// `pat` stands in `s` somewhere.
pub open spec fn occurs_in<T>(s: Seq<T>, pat: Seq<T>) -> bool {
    exists|i: int| #[trigger] occurs_at(s, pat, i)
}

/// `s` from position `i` on, with `new` in place of each occurrence of `pat`,
/// taken from the left and without overlap.
pub open spec fn replaced_from<T>(s: Seq<T>, pat: Seq<T>, new: Seq<T>, i: int) -> Seq<T>
    decreases s.len() - i,
{
    if i < 0 || i >= s.len() {
        Seq::empty()
    } else if pat.len() > 0 && occurs_at(s, pat, i) {
        new + replaced_from(s, pat, new, i + pat.len())
    } else {
        seq![s[i]] + replaced_from(s, pat, new, i + 1)
    }
}

/// `s` with `new` in place of each occurrence of the non-empty `pat`, taken
/// from the left and without overlap; an empty `pat` replaces nothing.
pub open spec fn replaced<T>(s: Seq<T>, pat: Seq<T>, new: Seq<T>) -> Seq<T> {
    replaced_from(s, pat, new, 0)
}

/// Strict order of texts: by the first character that differs, a proper prefix
/// before what extends it.
pub open spec fn text_lt(a: Seq<char>, b: Seq<char>) -> bool
    decreases a.len(),
{
    if b.len() == 0 {
        false
    } else if a.len() == 0 {
        true
    } else if a[0] != b[0] {
        (a[0] as int) < (b[0] as int)
    } else {
        text_lt(a.drop_first(), b.drop_first())
    }
}

/// No text comes before itself.
pub proof fn lemma_text_lt_irreflexive(a: Seq<char>)
    ensures
        !text_lt(a, a),
    decreases a.len(),
{
    if a.len() > 0 {
        lemma_text_lt_irreflexive(a.drop_first());
    }
}

/// The order of texts is transitive.
pub proof fn lemma_text_lt_transitive(a: Seq<char>, b: Seq<char>, c: Seq<char>)
    requires
        text_lt(a, b),
        text_lt(b, c),
    ensures
        text_lt(a, c),
    decreases a.len(),
{
    if a.len() > 0 && a[0] == b[0] && b[0] == c[0] {
        lemma_text_lt_transitive(a.drop_first(), b.drop_first(), c.drop_first());
    }
}

/// Of two texts that differ, one comes first.
pub proof fn lemma_text_lt_total(a: Seq<char>, b: Seq<char>)
    ensures
        a == b || text_lt(a, b) || text_lt(b, a),
    decreases a.len(),
{
    if a.len() > 0 && b.len() > 0 && a[0] == b[0] {
        lemma_text_lt_total(a.drop_first(), b.drop_first());
        if a.drop_first() == b.drop_first() {
            assert(a =~= seq![a[0]] + a.drop_first());
            assert(b =~= seq![b[0]] + b.drop_first());
        }
    } else if a.len() == 0 && b.len() == 0 {
        assert(a =~= b);
    }
}

/// The code point of `c`.
fn code(c: char) -> (r: u32)
    ensures
        r as int == c as int,
{
    c as u32
}

/// The characters of `s`.
pub fn chars_of(s: &str) -> (r: Vec<char>)
    ensures
        r@ == s@,
{
    let mut r: Vec<char> = Vec::new();
    for c in it: s.chars()
        invariant
            r@ == it.seq().take(it.index() as int),
            it.seq() == s@,
    {
        r.push(c);
        assert(it.seq().take(it.index() + 1) =~= it.seq().take(it.index() as int).push(c));
    }
    assert(s@.take(s@.len() as int) =~= s@);
    r
}

/// The text made of `v[from..to]`.
pub fn string_of(v: &Vec<char>, from: usize, to: usize) -> (r: String)
    requires
        from <= to <= v.len(),
    ensures
        r@ == v@.subrange(from as int, to as int),
{
    let mut r = String::new();
    let mut i: usize = from;
    while i < to
        invariant
            from <= i <= to <= v.len(),
            r@ == v@.subrange(from as int, i as int),
        decreases to - i,
    {
        r.push(v[i]);
        assert(v@.subrange(from as int, i + 1) =~= v@.subrange(from as int, i as int).push(
            v@[i as int],
        ));
        i = i + 1;
    }
    r
}

/// Whether `a` and `b` are the same text.
pub fn same(a: &str, b: &str) -> (r: bool)
    ensures
        r == (a@ == b@),
{
    let x = a.to_owned();
    let y = b.to_owned();
    x == y
}

/// Whether `a` comes before `b`.
pub fn before(a: &str, b: &str) -> (r: bool)
    ensures
        r == text_lt(a@, b@),
{
    let x = chars_of(a);
    let y = chars_of(b);
    let mut i: usize = 0;
    assert(x@.skip(0) =~= x@);
    assert(y@.skip(0) =~= y@);
    while i < x.len() && i < y.len()
        invariant
            i <= x.len(),
            i <= y.len(),
            x@ == a@,
            y@ == b@,
            text_lt(a@, b@) == text_lt(x@.skip(i as int), y@.skip(i as int)),
        decreases x.len() - i,
    {
        assert(x@.skip(i as int)[0] == x@[i as int]);
        assert(y@.skip(i as int)[0] == y@[i as int]);
        if x[i] != y[i] {
            return code(x[i]) < code(y[i]);
        }
        assert(x@.skip(i as int).drop_first() =~= x@.skip(i + 1));
        assert(y@.skip(i as int).drop_first() =~= y@.skip(i + 1));
        i = i + 1;
    }
    i < y.len()
}

/// The parts in order, with `sep` between each two.
pub open spec fn joined(parts: Seq<Seq<char>>, sep: Seq<char>) -> Seq<char>
    decreases parts.len(),
{
    if parts.len() == 0 {
        Seq::empty()
    } else if parts.len() == 1 {
        parts[0]
    } else {
        joined(parts.drop_last(), sep) + sep + parts.last()
    }
}

/// `parts` joined by `sep`.
pub fn join(parts: &Vec<String>, sep: &str) -> (r: String)
    ensures
        r@ == joined(texts(parts@), sep@),
{
    let mut r = String::new();
    let mut i: usize = 0;
    let ghost all = texts(parts@);
    while i < parts.len()
        invariant
            i <= parts.len(),
            all == texts(parts@),
            r@ == joined(all.take(i as int), sep@),
        decreases parts.len() - i,
    {
        if i > 0 {
            r.push_str(sep);
        }
        r.push_str(parts[i].as_str());
        proof {
            let t = all.take(i + 1);
            assert(t.drop_last() =~= all.take(i as int));
            assert(t.last() == all[i as int]);
            if i == 0 {
                assert(r@ =~= t[0]);
            }
        }
        i = i + 1;
    }
    assert(all.take(all.len() as int) =~= all);
    r
}

/// `s` with `to` in place of each `from`.
pub open spec fn with_char(s: Seq<char>, from: char, to: char) -> Seq<char> {
    Seq::new(s.len(), |i: int| if s[i] == from { to } else { s[i] })
}

/// `s` with `to` in place of each `from`.
pub fn replace_char(s: &str, from: char, to: char) -> (r: String)
    ensures
        r@ == with_char(s@, from, to),
{
    let v = chars_of(s);
    let mut r = String::new();
    let mut i: usize = 0;
    while i < v.len()
        invariant
            i <= v.len(),
            v@ == s@,
            r@ == with_char(s@, from, to).take(i as int),
        decreases v.len() - i,
    {
        if v[i] == from {
            r.push(to);
        } else {
            r.push(v[i]);
        }
        assert(with_char(s@, from, to).take(i + 1) =~= with_char(s@, from, to).take(i as int).push(
            with_char(s@, from, to)[i as int],
        ));
        i = i + 1;
    }
    assert(with_char(s@, from, to).take(s@.len() as int) =~= with_char(s@, from, to));
    r
}

/// White space, as Unicode's `White_Space` property lists it.
pub open spec fn is_white(c: char) -> bool {
    let n = c as int;
    ||| 0x9 <= n <= 0xd
    ||| n == 0x20
    ||| n == 0x85
    ||| n == 0xa0
    ||| n == 0x1680
    ||| 0x2000 <= n <= 0x200a
    ||| n == 0x2028
    ||| n == 0x2029
    ||| n == 0x202f
    ||| n == 0x205f
    ||| n == 0x3000
}

/// Whether `c` is white space.
pub fn white(c: char) -> (r: bool)
    ensures
        r == is_white(c),
{
    let n = code(c);
    (0x9 <= n && n <= 0xd) || n == 0x20 || n == 0x85 || n == 0xa0 || n == 0x1680 || (0x2000 <= n && n
        <= 0x200a) || n == 0x2028 || n == 0x2029 || n == 0x202f || n == 0x205f || n == 0x3000
}

/// `s` without the white space at its start.
pub open spec fn trimmed_start(s: Seq<char>) -> Seq<char>
    decreases s.len(),
{
    if s.len() > 0 && is_white(s[0]) {
        trimmed_start(s.drop_first())
    } else {
        s
    }
}

/// `s` without the white space at its end.
pub open spec fn trimmed_end(s: Seq<char>) -> Seq<char>
    decreases s.len(),
{
    if s.len() > 0 && is_white(s.last()) {
        trimmed_end(s.drop_last())
    } else {
        s
    }
}

/// `s` without the white space at either end.
pub open spec fn trimmed(s: Seq<char>) -> Seq<char> {
    trimmed_end(trimmed_start(s))
}

/// `s` without the white space at either end.
pub fn trim(s: &str) -> (r: String)
    ensures
        r@ == trimmed(s@),
{
    let v = chars_of(s);
    let mut from: usize = 0;
    assert(v@.subrange(0, v@.len() as int) =~= s@);
    while from < v.len() && white(v[from])
        invariant
            from <= v.len(),
            trimmed_start(v@.subrange(from as int, v@.len() as int)) == trimmed_start(s@),
        decreases v.len() - from,
    {
        assert(v@.subrange(from as int, v@.len() as int).drop_first() =~= v@.subrange(
            from + 1,
            v@.len() as int,
        ));
        from = from + 1;
    }
    let ghost mid = v@.subrange(from as int, v@.len() as int);
    let mut to: usize = v.len();
    while to > from && white(v[to - 1])
        invariant
            from <= to <= v.len(),
            trimmed_end(v@.subrange(from as int, to as int)) == trimmed_end(mid),
        decreases to,
    {
        assert(v@.subrange(from as int, to as int).drop_last() =~= v@.subrange(
            from as int,
            to - 1,
        ));
        to = to - 1;
    }
    string_of(&v, from, to)
}

/// The digit that stands for `n`.
pub open spec fn digit(n: int) -> char {
    ((48 + n) as u8) as char
}

/// `n` in decimal.
pub open spec fn digits(n: nat) -> Seq<char>
    decreases n,
{
    if n < 10 {
        seq![digit(n as int)]
    } else {
        digits(n / 10).push(digit((n % 10) as int))
    }
}

/// `n` in decimal.
pub fn decimal(n: u128) -> (r: String)
    ensures
        r@ == digits(n as nat),
    decreases n,
{
    let d = (48 + (n % 10) as u8) as char;
    let mut r = if n < 10 {
        String::new()
    } else {
        decimal(n / 10)
    };
    r.push(d);
    assert(n < 10 ==> r@ =~= digits(n as nat));
    r
}

/// Whether `pat` stands in `v` at `i`.
fn stands_at(v: &Vec<char>, pat: &Vec<char>, i: usize) -> (r: bool)
    ensures
        r == occurs_at(v@, pat@, i as int),
{
    if pat.len() > v.len() || i > v.len() - pat.len() {
        return false;
    }
    let mut j: usize = 0;
    while j < pat.len()
        invariant
            j <= pat.len(),
            i + pat.len() <= v.len(),
            forall|k: int| 0 <= k < j ==> v@[i + k] == pat@[k],
        decreases pat.len() - j,
    {
        if v[i + j] != pat[j] {
            assert(v@.subrange(i as int, i + pat@.len())[j as int] != pat@[j as int]);
            return false;
        }
        j = j + 1;
    }
    assert(v@.subrange(i as int, i + pat@.len()) =~= pat@);
    true
}

/// Whether `pat` stands in `s`.
pub fn holds(s: &str, pat: &str) -> (r: bool)
    ensures
        r == occurs_in(s@, pat@),
{
    let v = chars_of(s);
    let p = chars_of(pat);
    let mut i: usize = 0;
    while i < v.len()
        invariant
            i <= v.len(),
            v@ == s@,
            p@ == pat@,
            forall|j: int| 0 <= j < i ==> !#[trigger] occurs_at(s@, pat@, j),
        decreases v.len() - i,
    {
        if stands_at(&v, &p, i) {
            return true;
        }
        i = i + 1;
    }
    let last = stands_at(&v, &p, i);
    proof {
        if occurs_in(s@, pat@) {
            let j = choose|j: int| #[trigger] occurs_at(s@, pat@, j);
            assert(j <= i);
        }
    }
    last
}

/// Whether `s` starts with `pat`.
pub fn begins(s: &str, pat: &str) -> (r: bool)
    ensures
        r == occurs_at(s@, pat@, 0),
{
    stands_at(&chars_of(s), &chars_of(pat), 0)
}

/// `s` with `new` in place of each occurrence of `pat`.
pub fn replace(s: &str, pat: &str, new: &str) -> (r: String)
    ensures
        r@ == replaced(s@, pat@, new@),
{
    let v = chars_of(s);
    let p = chars_of(pat);
    let mut out = String::new();
    let mut i: usize = 0;
    assert(out@ + replaced(s@, pat@, new@) =~= replaced(s@, pat@, new@));
    while i < v.len()
        invariant
            i <= v.len(),
            v@ == s@,
            p@ == pat@,
            out@ + replaced_from(s@, pat@, new@, i as int) == replaced(s@, pat@, new@),
        decreases v.len() - i,
    {
        let ghost before = out@;
        if p.len() > 0 && stands_at(&v, &p, i) {
            out.push_str(new);
            proof {
                let rest = replaced_from(s@, pat@, new@, i + pat@.len());
                assert(before + (new@ + rest) =~= out@ + rest);
            }
            i = i + p.len();
        } else {
            out.push(v[i]);
            proof {
                let rest = replaced_from(s@, pat@, new@, i + 1);
                assert(before + (seq![s@[i as int]] + rest) =~= out@ + rest);
            }
            i = i + 1;
        }
    }
    assert(out@ + Seq::<char>::empty() =~= out@);
    out
}

/// A text in which `pat` does not stand keeps every character.
pub proof fn lemma_nothing_replaced(s: Seq<char>, pat: Seq<char>, new: Seq<char>, i: int)
    requires
        0 <= i <= s.len(),
        !occurs_in(s, pat),
    ensures
        replaced_from(s, pat, new, i) == s.skip(i),
    decreases s.len() - i,
{
    if i < s.len() {
        assert(!occurs_at(s, pat, i));
        lemma_nothing_replaced(s, pat, new, i + 1);
        assert(s.skip(i) =~= seq![s[i]] + s.skip(i + 1));
    } else {
        assert(s.skip(i) =~= Seq::<char>::empty());
    }
}

/// The first position of `c` in `s`, or its length where there is none.
pub open spec fn first_at(s: Seq<char>, c: char) -> int
    decreases s.len(),
{
    if s.len() == 0 || s[0] == c {
        0
    } else {
        1 + first_at(s.drop_first(), c)
    }
}

/// The first position of a character is the first at which it stands.
pub proof fn lemma_first_at(s: Seq<char>, c: char)
    ensures
        0 <= first_at(s, c) <= s.len(),
        first_at(s, c) < s.len() ==> s[first_at(s, c)] == c,
        forall|j: int| 0 <= j < first_at(s, c) ==> s[j] != c,
    decreases s.len(),
{
    if s.len() > 0 && s[0] != c {
        let t = s.drop_first();
        lemma_first_at(t, c);
        assert forall|j: int| 0 <= j < first_at(s, c) implies s[j] != c by {
            if j > 0 {
                assert(t[j - 1] == s[j]);
            }
        }
        if first_at(s, c) < s.len() {
            assert(t[first_at(t, c)] == s[first_at(s, c)]);
        }
    }
}

/// The parts of `s` between the occurrences of `c`.
pub open spec fn split(s: Seq<char>, c: char) -> Seq<Seq<char>>
    decreases s.len(),
{
    let n = first_at(s, c);
    if 0 <= n < s.len() {
        seq![s.take(n)] + split(s.skip(n + 1), c)
    } else {
        seq![s]
    }
}

/// The position of the first `c` in `v` from `from` on, or the length.
pub fn find_char(v: &Vec<char>, c: char, from: usize) -> (r: usize)
    requires
        from <= v.len(),
    ensures
        from <= r <= v.len(),
        r == from + first_at(v@.skip(from as int), c),
{
    let mut i: usize = from;
    let ghost t = v@.skip(from as int);
    proof {
        lemma_first_at(t, c);
    }
    while i < v.len() && v[i] != c
        invariant
            from <= i <= v.len(),
            t == v@.skip(from as int),
            forall|j: int| 0 <= j < i - from ==> t[j] != c,
        decreases v.len() - i,
    {
        assert(t[i - from] == v@[i as int]);
        i = i + 1;
    }
    proof {
        let n = first_at(t, c);
        if i < v.len() {
            assert(t[i - from] == v@[i as int]);
        }
        if n < i - from {
            assert(t[n] == c);
        }
    }
    i
}

/// The parts of `s` between the occurrences of `c`.
pub fn split_on(s: &str, c: char) -> (r: Vec<String>)
    ensures
        texts(r@) == split(s@, c),
{
    let v = chars_of(s);
    let mut r: Vec<String> = Vec::new();
    let mut from: usize = 0;
    let mut more = true;
    assert(v@.skip(0) =~= s@);
    assert(texts(r@) + split(s@, c) =~= split(s@, c));
    while more
        invariant
            from <= v.len(),
            more ==> texts(r@) + split(v@.skip(from as int), c) == split(s@, c),
            !more ==> texts(r@) == split(s@, c),
        decreases v.len() - from + (if more { 1int } else { 0int }),
    {
        let ghost t = v@.skip(from as int);
        let ghost before = texts(r@);
        let to = find_char(&v, c, from);
        r.push(string_of(&v, from, to));
        assert(texts(r@) =~= before.push(v@.subrange(from as int, to as int)));
        if to < v.len() {
            proof {
                assert(v@.subrange(from as int, to as int) =~= t.take(to - from));
                assert(t.skip(to - from + 1) =~= v@.skip(to + 1));
                assert(before + (seq![t.take(to - from)] + split(v@.skip(to + 1), c)) =~= texts(r@)
                    + split(v@.skip(to + 1), c));
            }
            from = to + 1;
        } else {
            proof {
                assert(v@.subrange(from as int, to as int) =~= t);
                assert(before + seq![t] =~= texts(r@));
            }
            more = false;
        }
    }
    r
}

/// `s` without a carriage return at its end.
pub open spec fn without_return(s: Seq<char>) -> Seq<char> {
    if s.len() > 0 && s.last() == '\r' {
        s.drop_last()
    } else {
        s
    }
}

/// The lines of `s`: each ends in a line feed, or a carriage return and a line
/// feed, which do not belong to it; the last may lack its end.
pub open spec fn lines(s: Seq<char>) -> Seq<Seq<char>>
    decreases s.len(),
{
    let n = first_at(s, '\n');
    if s.len() == 0 {
        Seq::empty()
    } else if 0 <= n < s.len() {
        seq![without_return(s.take(n))] + lines(s.skip(n + 1))
    } else {
        seq![s]
    }
}

/// The lines of `s`.
pub fn lines_of(s: &str) -> (r: Vec<String>)
    ensures
        texts(r@) == lines(s@),
{
    let v = chars_of(s);
    let mut r: Vec<String> = Vec::new();
    let mut from: usize = 0;
    assert(v@.skip(0) =~= s@);
    assert(texts(r@) + lines(s@) =~= lines(s@));
    while from < v.len()
        invariant
            from <= v.len(),
            texts(r@) + lines(v@.skip(from as int)) == lines(s@),
        decreases v.len() - from,
    {
        let ghost t = v@.skip(from as int);
        let ghost before = texts(r@);
        let to = find_char(&v, '\n', from);
        if to < v.len() {
            let end = if to > from && v[to - 1] == '\r' {
                to - 1
            } else {
                to
            };
            r.push(string_of(&v, from, end));
            proof {
                let line = t.take(to - from);
                assert(v@.subrange(from as int, to as int) =~= line);
                assert(v@.subrange(from as int, end as int) =~= without_return(line));
                assert(texts(r@) =~= before.push(without_return(line)));
                assert(t.skip(to - from + 1) =~= v@.skip(to + 1));
                assert(before + (seq![without_return(line)] + lines(v@.skip(to + 1))) =~= texts(r@)
                    + lines(v@.skip(to + 1)));
            }
            from = to + 1;
        } else {
            r.push(string_of(&v, from, to));
            proof {
                assert(v@.subrange(from as int, to as int) =~= t);
                assert(texts(r@) =~= before.push(t));
                assert(before + seq![t] =~= texts(r@));
                assert(v@.skip(to as int) =~= Seq::<char>::empty());
                assert(texts(r@) + Seq::<Seq<char>>::empty() =~= texts(r@));
            }
            from = to;
        }
    }
    proof {
        assert(v@.skip(from as int) =~= Seq::<char>::empty());
        assert(texts(r@) + Seq::<Seq<char>>::empty() =~= texts(r@));
    }
    r
}

/// Whether `s` holds `c`.
pub fn has_char(s: &str, c: char) -> (r: bool)
    ensures
        r == s@.contains(c),
{
    let v = chars_of(s);
    let mut i: usize = 0;
    while i < v.len()
        invariant
            i <= v.len(),
            v@ == s@,
            forall|j: int| 0 <= j < i ==> s@[j] != c,
        decreases v.len() - i,
    {
        if v[i] == c {
            assert(s@[i as int] == c);
            return true;
        }
        i = i + 1;
    }
    false
}

/// `n` in decimal, with a minus sign where it is negative.
pub open spec fn signed_digits(n: int) -> Seq<char> {
    if n < 0 {
        "-"@ + digits((-n) as nat)
    } else {
        digits(n as nat)
    }
}

/// `n` in decimal.
pub fn signed_decimal(n: i64) -> (r: String)
    ensures
        r@ == signed_digits(n as int),
{
    if n < 0 {
        let mut r = "-".to_owned();
        r.push_str(decimal((-(n as i128)) as u128).as_str());
        r
    } else {
        decimal(n as u128)
    }
}

/// What stands before and after the first `c`.
pub open spec fn cut(s: Seq<char>, c: char) -> Option<(Seq<char>, Seq<char>)> {
    let n = first_at(s, c);
    if 0 <= n < s.len() {
        Some((s.take(n), s.skip(n + 1)))
    } else {
        None
    }
}

/// The texts of an optional pair.
pub open spec fn pair_text(p: Option<(String, String)>) -> Option<(Seq<char>, Seq<char>)> {
    match p {
        Some((a, b)) => Some((a@, b@)),
        None => None,
    }
}

/// What stands before and after the first `c`.
pub fn split_once(s: &str, c: char) -> (r: Option<(String, String)>)
    ensures
        pair_text(r) == cut(s@, c),
{
    let v = chars_of(s);
    let n = find_char(&v, c, 0);
    assert(v@.skip(0) =~= s@);
    if n < v.len() {
        assert(v@.subrange(0, n as int) =~= s@.take(n as int));
        assert(v@.subrange(n + 1, v@.len() as int) =~= s@.skip(n + 1));
        Some((string_of(&v, 0, n), string_of(&v, n + 1, v.len())))
    } else {
        None
    }
}

/// A split text has at least one part.
pub proof fn lemma_split_not_empty(s: Seq<char>, c: char)
    ensures
        split(s, c).len() > 0,
{
}

/// The part of `s` after the last `c`, all of it where there is none.
pub fn last_part(s: &str, c: char) -> (r: String)
    ensures
        r@ == split(s@, c).last(),
{
    let mut parts = split_on(s, c);
    proof {
        lemma_split_not_empty(s@, c);
        assert(texts(parts@).len() == parts@.len());
    }
    let ghost all = parts@;
    match parts.pop() {
        Some(p) => {
            assert(texts(all).last() == p@);
            p
        },
        None => String::new(),
    }
}

/// The text in an optional string.
pub open spec fn opt_text(s: Option<String>) -> Option<Seq<char>> {
    match s {
        Some(t) => Some(t@),
        None => None,
    }
}

/// Whether `v` holds `s`.
pub fn among(v: &Vec<String>, s: &str) -> (r: bool)
    ensures
        r == texts(v@).contains(s@),
{
    let mut i: usize = 0;
    while i < v.len()
        invariant
            i <= v.len(),
            forall|j: int| 0 <= j < i ==> (#[trigger] v@[j])@ != s@,
        decreases v.len() - i,
    {
        if same(v[i].as_str(), s) {
            assert(texts(v@)[i as int] == s@);
            return true;
        }
        i = i + 1;
    }
    proof {
        if texts(v@).contains(s@) {
            let j = choose|j: int| 0 <= j < texts(v@).len() && texts(v@)[j] == s@;
            assert(v@[j]@ == s@);
        }
    }
    false
}

// ---- laws ----

proof fn lemma_replaced_shift<T>(s: Seq<T>, pat: Seq<T>, new: Seq<T>, k: int, i: int)
    requires
        0 <= k <= s.len(),
        k <= i,
    ensures
        replaced_from(s, pat, new, i) == replaced_from(s.skip(k), pat, new, i - k),
    decreases s.len() - i,
{
    if i < s.len() {
        let t = s.skip(k);
        if i + pat.len() <= s.len() {
            assert(t.subrange(i - k, i - k + pat.len()) =~= s.subrange(i, i + pat.len()));
        }
        assert(occurs_at(s, pat, i) == occurs_at(t, pat, i - k));
        if pat.len() > 0 && occurs_at(s, pat, i) {
            lemma_replaced_shift(s, pat, new, k, i + pat.len());
        } else {
            lemma_replaced_shift(s, pat, new, k, i + 1);
        }
    }
}

/// What stands before the first occurrence is kept.
pub proof fn lemma_replaced_up_to<T>(s: Seq<T>, pat: Seq<T>, new: Seq<T>, i: int, n: int)
    requires
        0 <= i <= n <= s.len(),
        forall|j: int| i <= j < n ==> !(pat.len() > 0 && #[trigger] occurs_at(s, pat, j)),
    ensures
        replaced_from(s, pat, new, i) == s.subrange(i, n) + replaced_from(s, pat, new, n),
    decreases n - i,
{
    if i < n {
        lemma_replaced_up_to(s, pat, new, i + 1, n);
        let rest = replaced_from(s, pat, new, n);
        assert(!(pat.len() > 0 && occurs_at(s, pat, i)));
        assert(seq![s[i]] + (s.subrange(i + 1, n) + rest) =~= s.subrange(i, n) + rest);
    } else {
        assert(s.subrange(i, n) + replaced_from(s, pat, new, n) =~= replaced_from(s, pat, new, n));
    }
}

/// A text in which the pattern does not stand is kept as it is.
pub proof fn law_nothing_to_replace<T>(s: Seq<T>, pat: Seq<T>, new: Seq<T>)
    requires
        forall|j: int|
            0 <= j && j + pat.len() <= s.len() ==> pat.len() == 0 || #[trigger] s.subrange(
                j,
                j + pat.len(),
            ) != pat,
    ensures
        replaced(s, pat, new) == s,
{
    assert forall|j: int| 0 <= j < s.len() implies !(pat.len() > 0 && #[trigger] occurs_at(
        s,
        pat,
        j,
    )) by {
        if occurs_at(s, pat, j) {
            assert(s.subrange(j, j + pat.len()) == pat);
        }
    }
    let n = s.len() as int;
    lemma_replaced_up_to(s, pat, new, 0, n);
    assert(s.subrange(0, n) + Seq::<T>::empty() =~= s);
}

/// The first occurrence of the pattern gives way to the new text, what stands
/// before it stays, and what comes after it is rewritten in turn.
pub proof fn law_first_is_replaced<T>(s: Seq<T>, pat: Seq<T>, new: Seq<T>, i: int)
    requires
        pat.len() > 0,
        0 <= i,
        i + pat.len() <= s.len(),
        s.subrange(i, i + pat.len()) == pat,
        forall|j: int| 0 <= j < i ==> #[trigger] s.subrange(j, j + pat.len()) != pat,
    ensures
        replaced(s, pat, new) == s.take(i) + new + replaced(s.skip(i + pat.len()), pat, new),
{
    assert forall|j: int| 0 <= j < i implies !(pat.len() > 0 && #[trigger] occurs_at(
        s,
        pat,
        j,
    )) by {
        if occurs_at(s, pat, j) {
            assert(s.subrange(j, j + pat.len()) == pat);
        }
    }
    lemma_replaced_up_to(s, pat, new, 0, i);
    assert(occurs_at(s, pat, i));
    lemma_replaced_shift(s, pat, new, i + pat.len(), i + pat.len());
    assert(s.subrange(0, i) =~= s.take(i));
    let rest = replaced(s.skip(i + pat.len()), pat, new);
    assert(s.take(i) + (new + rest) =~= s.take(i) + new + rest);
}

/// Joining nothing gives nothing, joining one part gives the part, and one part
/// more comes after the separator.
pub proof fn law_joined(parts: Seq<Seq<char>>, part: Seq<char>, sep: Seq<char>)
    ensures
        joined(Seq::empty(), sep) == Seq::<char>::empty(),
        joined(seq![part], sep) == part,
        parts.len() > 0 ==> joined(parts.push(part), sep) == joined(parts, sep) + sep + part,
{
    assert(parts.push(part).drop_last() =~= parts);
}

proof fn lemma_joined_front(first: Seq<char>, rest: Seq<Seq<char>>, sep: Seq<char>)
    requires
        rest.len() > 0,
    ensures
        joined(seq![first] + rest, sep) == first + sep + joined(rest, sep),
    decreases rest.len(),
{
    let all = seq![first] + rest;
    assert(all.last() == rest.last());
    if rest.len() == 1 {
        assert(all.drop_last() =~= seq![first]);
        assert(joined(all.drop_last(), sep) == first);
    } else {
        assert(all.drop_last() =~= seq![first] + rest.drop_last());
        lemma_joined_front(first, rest.drop_last(), sep);
        assert(first + sep + joined(rest.drop_last(), sep) + sep + rest.last() =~= first + sep + (
        joined(rest.drop_last(), sep) + sep + rest.last()));
    }
}

/// The parts of a text hold no separator, and joined by it they are the text
/// again.
pub proof fn law_split_joins_again(s: Seq<char>, c: char)
    ensures
        split(s, c).len() > 0,
        joined(split(s, c), seq![c]) == s,
        forall|i: int| 0 <= i < split(s, c).len() ==> !(#[trigger] split(s, c)[i]).contains(c),
    decreases s.len(),
{
    let n = first_at(s, c);
    lemma_first_at(s, c);
    if 0 <= n < s.len() {
        let rest = split(s.skip(n + 1), c);
        law_split_joins_again(s.skip(n + 1), c);
        lemma_joined_front(s.take(n), rest, seq![c]);
        assert(s.take(n) + seq![c] + s.skip(n + 1) =~= s);
        assert forall|i: int| 0 <= i < split(s, c).len() implies !(#[trigger] split(
            s,
            c,
        )[i]).contains(c) by {
            if i == 0 {
                if s.take(n).contains(c) {
                    let j = choose|j: int| 0 <= j < n && s.take(n)[j] == c;
                    assert(s[j] == c);
                }
            } else {
                assert(split(s, c)[i] == rest[i - 1]);
            }
        }
    } else {
        assert(split(s, c) =~= seq![s]);
        if s.contains(c) {
            let j = choose|j: int| 0 <= j < s.len() && s[j] == c;
            assert(s[j] == c);
        }
    }
}

/// A text is cut at the first separator, and only where there is one.
pub proof fn law_cut_at_the_first(s: Seq<char>, c: char)
    ensures
        match cut(s, c) {
            Some((a, b)) => s == a.push(c) + b && !a.contains(c),
            None => !s.contains(c),
        },
{
    lemma_first_at(s, c);
    let n = first_at(s, c);
    match cut(s, c) {
        Some((a, b)) => {
            assert(s =~= a.push(c) + b);
            if a.contains(c) {
                let j = choose|j: int| 0 <= j < a.len() && a[j] == c;
                assert(s[j] == c);
            }
        },
        None => {
            if s.contains(c) {
                let j = choose|j: int| 0 <= j < s.len() && s[j] == c;
                assert(s[j] == c);
            }
        },
    }
}

/// No printable ASCII character is white space, and the blank, the tab and the
/// ends of lines are.
pub proof fn law_white_space(c: char)
    ensures
        '!' <= c && c <= '~' ==> !is_white(c),
        c == ' ' || c == '\t' || c == '\n' || c == '\r' ==> is_white(c),
{
}

proof fn lemma_trimmed_start(s: Seq<char>) -> (n: int)
    ensures
        0 <= n <= s.len(),
        trimmed_start(s) == s.skip(n),
        forall|i: int| 0 <= i < n ==> is_white(#[trigger] s[i]),
        n < s.len() ==> !is_white(s[n]),
    decreases s.len(),
{
    if s.len() > 0 && is_white(s[0]) {
        let t = s.drop_first();
        let m = lemma_trimmed_start(t);
        assert(t.skip(m) =~= s.skip(m + 1));
        assert forall|i: int| 0 <= i < m + 1 implies is_white(#[trigger] s[i]) by {
            if i > 0 {
                assert(t[i - 1] == s[i]);
            }
        }
        m + 1
    } else {
        assert(s.skip(0) =~= s);
        0
    }
}

proof fn lemma_trimmed_end(s: Seq<char>) -> (n: int)
    ensures
        0 <= n <= s.len(),
        trimmed_end(s) == s.take(n),
        forall|i: int| n <= i < s.len() ==> is_white(#[trigger] s[i]),
        n > 0 ==> !is_white(s[n - 1]),
    decreases s.len(),
{
    if s.len() > 0 && is_white(s.last()) {
        let t = s.drop_last();
        let m = lemma_trimmed_end(t);
        assert(t.take(m) =~= s.take(m));
        assert forall|i: int| m <= i < s.len() implies is_white(#[trigger] s[i]) by {
            if i < t.len() {
                assert(t[i] == s[i]);
            }
        }
        m
    } else {
        assert(s.take(s.len() as int) =~= s);
        s.len() as int
    }
}

/// Trimming takes white space away at the ends and nothing else: a text that
/// neither starts nor ends in white space is kept, and so is what stands between
/// white space at its ends.
pub proof fn law_trimmed(before: Seq<char>, s: Seq<char>, after: Seq<char>)
    requires
        s.len() > 0 ==> !is_white(s[0]) && !is_white(s.last()),
        forall|i: int| 0 <= i < before.len() ==> is_white(#[trigger] before[i]),
        forall|i: int| 0 <= i < after.len() ==> is_white(#[trigger] after[i]),
    ensures
        trimmed(before + s + after) == s,
{
    let all = before + s + after;
    let n = lemma_trimmed_start(all);
    if s.len() > 0 {
        assert(all[before.len() as int] == s[0]);
        assert(n == before.len()) by {
            if n < before.len() {
                assert(all[n] == before[n]);
            }
        }
        let t = all.skip(n);
        assert(t =~= s + after);
        let m = lemma_trimmed_end(t);
        assert(t[s.len() - 1] == s.last());
        assert(m == s.len()) by {
            if m > s.len() {
                assert(t[m - 1] == after[m - 1 - s.len()]);
            }
        }
        assert(t.take(m) =~= s);
    } else {
        assert(n == all.len()) by {
            if n < all.len() {
                if n < before.len() {
                    assert(all[n] == before[n]);
                } else {
                    assert(all[n] == after[n - before.len()]);
                }
            }
        }
        let m = lemma_trimmed_end(all.skip(n));
        assert(trimmed(all) =~= s);
    }
}

/// The number that a text of decimal digits stands for.
pub open spec fn number(s: Seq<char>) -> int
    decreases s.len(),
{
    if s.len() == 0 {
        0
    } else {
        10 * number(s.drop_last()) + (s.last() as int - '0' as int)
    }
}

/// A number is written in decimal digits that stand for it, without leading
/// zeros.
pub proof fn law_digits(n: nat)
    ensures
        number(digits(n)) == n,
        digits(n).len() > 0,
        forall|i: int| 0 <= i < digits(n).len() ==> '0' <= #[trigger] digits(n)[i] && digits(n)[i]
            <= '9',
        n > 0 ==> digits(n)[0] != '0',
    decreases n,
{
    if n < 10 {
        let d = digits(n);
        assert(d.drop_last() =~= Seq::<char>::empty());
        assert(number(d.drop_last()) == 0);
        assert(d.last() as int == 48 + n);
    } else {
        law_digits(n / 10);
        let d = digits(n);
        assert(d.drop_last() =~= digits(n / 10));
        assert(d.last() as int == 48 + n % 10);
        assert(d[0] == digits(n / 10)[0]);
    }
}

/// The lines of a text: nothing has none, what has no line feed is one, and what
/// stands before the first line feed is the first, without a carriage return at
/// its end.
pub proof fn law_lines(a: Seq<char>, b: Seq<char>)
    requires
        !a.contains('\n'),
    ensures
        lines(Seq::empty()) == Seq::<Seq<char>>::empty(),
        a.len() > 0 ==> lines(a) == seq![a],
        a.len() > 0 && a.last() == '\r' ==> lines(a.push('\n') + b) == seq![a.drop_last()] + lines(
            b,
        ),
        !(a.len() > 0 && a.last() == '\r') ==> lines(a.push('\n') + b) == seq![a] + lines(b),
{
    let s = a.push('\n') + b;
    lemma_first_at(a, '\n');
    lemma_first_at(s, '\n');
    let n = first_at(s, '\n');
    let k = first_at(a, '\n');
    if k < a.len() {
        assert(a.contains(a[k]));
    }
    assert(s[a.len() as int] == '\n');
    if n < a.len() {
        assert(s[n] == a[n]);
        assert(a.contains(a[n]));
    }
    assert(s.take(n) =~= a);
    assert(s.skip(n + 1) =~= b);
}

/// Texts are ordered by the first character that differs, and a text comes
/// before what extends it.
pub proof fn law_text_order(a: Seq<char>, b: Seq<char>, n: int)
    requires
        0 <= n <= a.len(),
        n < b.len(),
        a.take(n) == b.take(n),
        n < a.len() ==> (a[n] as int) < (b[n] as int),
    ensures
        text_lt(a, b),
        !text_lt(b, a),
    decreases n,
{
    if n > 0 {
        assert(a[0] == a.take(n)[0] && b[0] == b.take(n)[0]);
        assert(a.drop_first().take(n - 1) =~= a.take(n).drop_first());
        assert(b.drop_first().take(n - 1) =~= b.take(n).drop_first());
        law_text_order(a.drop_first(), b.drop_first(), n - 1);
    }
}

/// A pattern stands in a text where it is a part of it, at whatever place.
pub proof fn law_occurrence<T>(s: Seq<T>, pat: Seq<T>)
    ensures
        occurs_in(s, pat) <==> exists|i: int|
            0 <= i && i + pat.len() <= s.len() && #[trigger] s.subrange(i, i + pat.len()) == pat,
{
    if occurs_in(s, pat) {
        let i = choose|i: int| #[trigger] occurs_at(s, pat, i);
        assert(s.subrange(i, i + pat.len()) == pat);
    }
    if exists|i: int|
        0 <= i && i + pat.len() <= s.len() && #[trigger] s.subrange(i, i + pat.len()) == pat {
        let i = choose|i: int|
            0 <= i && i + pat.len() <= s.len() && #[trigger] s.subrange(i, i + pat.len()) == pat;
        assert(occurs_at(s, pat, i));
    }
}

/// The texts of a list of strings are those of all its strings, in order.
pub proof fn law_texts(v: Seq<String>, i: int)
    requires
        0 <= i < v.len(),
    ensures
        texts(v).len() == v.len(),
        texts(v)[i] == v[i]@,
{
}

/// An optional string, and an optional pair, says what it holds, or that it holds
/// nothing.
pub proof fn law_optional_texts(s: String, t: String)
    ensures
        opt_text(Some(s)) == Some(s@),
        opt_text(None) is None,
        pair_text(Some((s, t))) == Some((s@, t@)),
        pair_text(None) is None,
{
}

} // verus!
