use vstd::prelude::*;

verus! {

/// Characters treated as whitespace by trimming and blank-line detection:
/// the Unicode `White_Space` set, as `char::is_whitespace` defines it.
pub open spec fn is_ws(c: char) -> bool {
    let u = c as u32;
    (0x9 <= u && u <= 0xD) || u == 0x20 || u == 0x85 || u == 0xA0 || u == 0x1680 || (0x2000 <= u
        && u <= 0x200A) || u == 0x2028 || u == 0x2029 || u == 0x202F || u == 0x205F || u == 0x3000
}

/// True when every character of `s` is whitespace (an empty `s` is blank).
pub open spec fn is_blank(s: Seq<char>) -> bool {
    forall|i: int| 0 <= i < s.len() ==> is_ws(s[i])
}

/// `s` with leading whitespace removed.
pub open spec fn trim_front(s: Seq<char>) -> Seq<char>
    decreases s.len(),
{
    if s.len() > 0 && is_ws(s[0]) {
        trim_front(s.drop_first())
    } else {
        s
    }
}

/// `s` with trailing whitespace removed.
pub open spec fn trim_back(s: Seq<char>) -> Seq<char>
    decreases s.len(),
{
    if s.len() > 0 && is_ws(s.last()) {
        trim_back(s.drop_last())
    } else {
        s
    }
}

/// `s` with surrounding whitespace removed.
pub open spec fn trim(s: Seq<char>) -> Seq<char> {
    trim_back(trim_front(s))
}

/// `s` split at every `'\n'`; the separator itself is kept in no piece, and a
/// text without a newline is a single piece, so the result is never empty.
pub open spec fn split_lines(s: Seq<char>) -> Seq<Seq<char>>
    decreases s.len(),
{
    if s.len() == 0 {
        seq![Seq::<char>::empty()]
    } else if s.last() == '\n' {
        split_lines(s.drop_last()).push(Seq::<char>::empty())
    } else {
        let r = split_lines(s.drop_last());
        r.update(r.len() - 1, r.last().push(s.last()))
    }
}

/// The lines of `s`, each trimmed, with blank lines dropped and the relative
/// order of the remaining lines preserved.
pub open spec fn normalize_lines(s: Seq<char>) -> Seq<Seq<char>> {
    split_lines(s).map_values(|l: Seq<char>| trim(l)).filter(|l: Seq<char>| l.len() > 0)
}

pub proof fn lemma_split_lines_nonempty(s: Seq<char>)
    ensures
        split_lines(s).len() >= 1,
    decreases s.len(),
{
    if s.len() > 0 {
        lemma_split_lines_nonempty(s.drop_last());
    }
}

proof fn lemma_trim_push_ws(l: Seq<char>, c: char)
    requires
        is_ws(c),
    ensures
        trim(l.push(c)) == trim(l),
    decreases l.len(),
{
    if l.len() == 0 {
        assert(l.push(c)[0] == c);
        assert(l.push(c).drop_first() =~= Seq::<char>::empty());
        assert(trim_front(Seq::<char>::empty()) == Seq::<char>::empty());
        assert(trim_front(l.push(c)) == Seq::<char>::empty());
        assert(trim_front(l) =~= l);
    } else if is_ws(l[0]) {
        assert(l.push(c)[0] == l[0]);
        assert(l.push(c).drop_first() =~= l.drop_first().push(c));
        lemma_trim_push_ws(l.drop_first(), c);
        assert(trim_front(l.push(c)) == trim_front(l.drop_first().push(c)));
        assert(trim_front(l) == trim_front(l.drop_first()));
    } else {
        assert(l.push(c)[0] == l[0]);
        assert(trim_front(l.push(c)) =~= l.push(c));
        assert(trim_front(l) =~= l);
        assert(l.push(c).last() == c);
        assert(l.push(c).drop_last() =~= l);
        assert(trim_back(l.push(c)) == trim_back(l));
    }
}

proof fn lemma_trim_push_nonws(l: Seq<char>, c: char)
    requires
        !is_ws(c),
    ensures
        trim(l.push(c)).len() > 0,
    decreases l.len(),
{
    if l.len() > 0 && is_ws(l[0]) {
        assert(l.push(c)[0] == l[0]);
        assert(l.push(c).drop_first() =~= l.drop_first().push(c));
        lemma_trim_push_nonws(l.drop_first(), c);
        assert(trim_front(l.push(c)) == trim_front(l.drop_first().push(c)));
    } else {
        if l.len() == 0 {
            assert(l.push(c)[0] == c);
        } else {
            assert(l.push(c)[0] == l[0]);
        }
        assert(trim_front(l.push(c)) =~= l.push(c));
        assert(l.push(c).last() == c);
        assert(trim_back(l.push(c)) == l.push(c));
    }
}

/// A recipient text that is not blank normalizes to at least one line, so
/// the empty-after-normalization failure cannot follow a passed blank check.
pub proof fn lemma_nonblank_normalize_nonempty(s: Seq<char>)
    requires
        !is_blank(s),
    ensures
        normalize_lines(s).len() > 0,
    decreases s.len(),
{
    let trim_fn = |l: Seq<char>| trim(l);
    let keep_fn = |l: Seq<char>| l.len() > 0;
    let i = choose|i: int| 0 <= i < s.len() && !is_ws(s[i]);
    let c = s.last();
    let p = s.drop_last();
    assert(s =~= p.push(c));
    lemma_split_lines_nonempty(p);
    let r = split_lines(p);
    if c == '\n' {
        assert(!is_blank(p)) by {
            assert(!is_ws(p[i]));
        }
        lemma_nonblank_normalize_nonempty(p);
        assert(split_lines(s) == r.push(Seq::<char>::empty()));
        lemma_map_filter_push(r, Seq::<char>::empty(), trim_fn, keep_fn);
        assert(trim(Seq::<char>::empty()) =~= Seq::<char>::empty());
    } else {
        assert(split_lines(s) == r.update(r.len() - 1, r.last().push(c)));
        assert(r.update(r.len() - 1, r.last().push(c)) =~= r.drop_last().push(r.last().push(c)));
        lemma_map_filter_push(r.drop_last(), r.last().push(c), trim_fn, keep_fn);
        if is_ws(c) {
            assert(!is_blank(p)) by {
                assert(!is_ws(p[i]));
            }
            lemma_nonblank_normalize_nonempty(p);
            assert(r =~= r.drop_last().push(r.last()));
            lemma_map_filter_push(r.drop_last(), r.last(), trim_fn, keep_fn);
            lemma_trim_push_ws(r.last(), c);
        } else {
            lemma_trim_push_nonws(r.last(), c);
        }
    }
}

proof fn lemma_trim_front_skip(s: Seq<char>, k: int)
    requires
        0 <= k <= s.len(),
        forall|i: int| 0 <= i < k ==> is_ws(s[i]),
        k < s.len() ==> !is_ws(s[k]),
    ensures
        trim_front(s) == s.skip(k),
    decreases k,
{
    if k == 0 {
        assert(s.skip(0) =~= s);
    } else {
        lemma_trim_front_skip(s.drop_first(), k - 1);
        assert(s.drop_first().skip(k - 1) =~= s.skip(k));
    }
}

proof fn lemma_trim_back_take(s: Seq<char>, k: int)
    requires
        0 <= k <= s.len(),
        forall|i: int| k <= i < s.len() ==> is_ws(s[i]),
        k > 0 ==> !is_ws(s[k - 1]),
    ensures
        trim_back(s) == s.take(k),
    decreases s.len(),
{
    if k == s.len() {
        assert(s.take(k) =~= s);
    } else {
        assert(is_ws(s.last()));
        lemma_trim_back_take(s.drop_last(), k);
        assert(s.drop_last().take(k) =~= s.take(k));
    }
}

/// The characters of `s`, in order, as a vector.
pub fn chars_vec(s: &str) -> (v: Vec<char>)
    ensures
        v@ == s@,
{
    broadcast use vstd::string::group_string_axioms;

    let mut v: Vec<char> = Vec::new();
    for c in it: s.chars()
        invariant
            it.seq() == s@,
            v@.len() == it.index(),
            forall|i: int| 0 <= i < v@.len() ==> v@[i] == it.seq()[i],
    {
        v.push(c);
    }
    proof {
        assert(v@ =~= s@);
    }
    v
}

/// Relies on `String`'s `FromIterator<char>`: collecting characters yields the
/// string whose character sequence is exactly the input.
#[verifier::external_body]
pub fn string_from_chars(v: &Vec<char>) -> (s: String)
    ensures
        s@ == v@,
{
    v.iter().collect()
}

pub(crate) fn is_ws_char(c: char) -> (r: bool)
    ensures
        r == is_ws(c),
{
    let u: u32 = c as u32;
    (0x9 <= u && u <= 0xD) || u == 0x20 || u == 0x85 || u == 0xA0 || u == 0x1680 || (0x2000 <= u
        && u <= 0x200A) || u == 0x2028 || u == 0x2029 || u == 0x202F || u == 0x205F || u == 0x3000
}

/// True when `s` holds a character `c` (used for the `@` check on addresses).
pub fn contains_char(s: &str, c: char) -> (r: bool)
    ensures
        r == s@.contains(c),
{
    let v = chars_vec(s);
    let mut i: usize = 0;
    while i < v.len()
        invariant
            i <= v@.len(),
            v@ == s@,
            forall|j: int| 0 <= j < i ==> v@[j] != c,
        decreases v@.len() - i,
    {
        if v[i] == c {
            proof {
                assert(s@[i as int] == c);
            }
            return true;
        }
        i += 1;
    }
    false
}

/// True when `s` is empty or all whitespace.
pub fn str_is_blank(s: &str) -> (r: bool)
    ensures
        r == is_blank(s@),
{
    let v = chars_vec(s);
    let mut i: usize = 0;
    while i < v.len()
        invariant
            i <= v@.len(),
            v@ == s@,
            forall|j: int| 0 <= j < i ==> is_ws(v@[j]),
        decreases v@.len() - i,
    {
        if !is_ws_char(v[i]) {
            return false;
        }
        i += 1;
    }
    true
}

/// Copies `v` without its surrounding whitespace.
pub fn trim_chars(v: &Vec<char>) -> (r: Vec<char>)
    ensures
        r@ == trim(v@),
{
    let mut a: usize = 0;
    while a < v.len() && is_ws_char(v[a])
        invariant
            a <= v@.len(),
            forall|i: int| 0 <= i < a ==> is_ws(v@[i]),
        decreases v@.len() - a,
    {
        a += 1;
    }
    let mut b: usize = v.len();
    while b > a && is_ws_char(v[b - 1])
        invariant
            a <= b <= v@.len(),
            forall|i: int| b <= i < v@.len() ==> is_ws(v@[i]),
        decreases b,
    {
        b -= 1;
    }
    proof {
        lemma_trim_front_skip(v@, a as int);
        lemma_trim_back_take(v@.skip(a as int), b - a);
        assert(v@.skip(a as int).take(b - a) =~= v@.subrange(a as int, b as int));
    }
    let mut r: Vec<char> = Vec::new();
    let mut i: usize = a;
    while i < b
        invariant
            a <= i <= b <= v@.len(),
            r@ == v@.subrange(a as int, i as int),
        decreases b - i,
    {
        r.push(v[i]);
        proof {
            assert(r@ =~= v@.subrange(a as int, i as int + 1));
        }
        i += 1;
    }
    r
}

/// Splits `raw` into lines, trims each, and drops the blank ones, keeping the
/// original order of the remaining lines.
pub fn normalize_recipients(raw: &str) -> (r: Vec<String>)
    ensures
        r.deep_view() == normalize_lines(raw@),
{
    let cs = chars_vec(raw);
    let mut out: Vec<String> = Vec::new();
    let mut cur: Vec<char> = Vec::new();
    let ghost trim_fn = |l: Seq<char>| trim(l);
    let ghost keep_fn = |l: Seq<char>| l.len() > 0;
    let mut i: usize = 0;
    while i < cs.len()
        invariant
            i <= cs@.len(),
            cs@ == raw@,
            trim_fn == (|l: Seq<char>| trim(l)),
            keep_fn == (|l: Seq<char>| l.len() > 0),
            split_lines(cs@.take(i as int)).len() >= 1,
            cur@ == split_lines(cs@.take(i as int)).last(),
            out.deep_view() == split_lines(cs@.take(i as int)).drop_last().map_values(
                trim_fn,
            ).filter(keep_fn),
        decreases cs@.len() - i,
    {
        let ghost pre = cs@.take(i as int);
        let ghost lines = split_lines(pre);
        let c = cs[i];
        proof {
            assert(cs@.take(i as int + 1) =~= pre.push(c));
            assert(pre.push(c).drop_last() =~= pre);
            assert(pre.push(c).last() == c);
        }
        if c == '\n' {
            let ghost lines2 = split_lines(pre.push(c));
            proof {
                assert(lines2 == lines.push(Seq::<char>::empty()));
                assert(lines2.drop_last() =~= lines);
                assert(lines2.last() =~= Seq::<char>::empty());
            }
            flush_line(&mut out, &cur, Ghost(lines), Ghost(trim_fn), Ghost(keep_fn));
            cur = Vec::new();
        } else {
            let ghost lines2 = split_lines(pre.push(c));
            proof {
                lemma_split_lines_nonempty(pre);
                assert(lines2 == lines.update(lines.len() - 1, lines.last().push(c)));
                assert(lines2.drop_last() =~= lines.drop_last());
                assert(lines2.last() == lines.last().push(c));
            }
            cur.push(c);
        }
        i += 1;
    }
    proof {
        assert(cs@.take(cs@.len() as int) =~= raw@);
    }
    let ghost lines = split_lines(raw@);
    flush_line(&mut out, &cur, Ghost(lines), Ghost(trim_fn), Ghost(keep_fn));
    out
}

/// Appends the trimmed current line to `out` when it is not blank, keeping the
/// invariant that `out` models the normalized finished lines.
fn flush_line(
    out: &mut Vec<String>,
    cur: &Vec<char>,
    Ghost(lines): Ghost<Seq<Seq<char>>>,
    Ghost(trim_fn): Ghost<spec_fn(Seq<char>) -> Seq<char>>,
    Ghost(keep_fn): Ghost<spec_fn(Seq<char>) -> bool>,
)
    requires
        trim_fn == (|l: Seq<char>| trim(l)),
        keep_fn == (|l: Seq<char>| l.len() > 0),
        lines.len() >= 1,
        cur@ == lines.last(),
        old(out).deep_view() == lines.drop_last().map_values(trim_fn).filter(keep_fn),
    ensures
        final(out).deep_view() == lines.map_values(trim_fn).filter(keep_fn),
{
    proof {
        lemma_map_filter_push(lines.drop_last(), lines.last(), trim_fn, keep_fn);
        assert(lines.drop_last().push(lines.last()) =~= lines);
    }
    let ghost prev = out.deep_view();
    let t = trim_chars(cur);
    if t.len() > 0 {
        let s = string_from_chars(&t);
        out.push(s);
        proof {
            assert(out.deep_view() =~= prev.push(trim(cur@)));
        }
    }
}

/// Mapping then filtering a sequence extended by one element appends the
/// element's image exactly when the filter keeps it.
proof fn lemma_map_filter_push(
    xs: Seq<Seq<char>>,
    x: Seq<char>,
    trim_fn: spec_fn(Seq<char>) -> Seq<char>,
    keep_fn: spec_fn(Seq<char>) -> bool,
)
    ensures
        xs.push(x).map_values(trim_fn).filter(keep_fn) == if keep_fn(trim_fn(x)) {
            xs.map_values(trim_fn).filter(keep_fn).push(trim_fn(x))
        } else {
            xs.map_values(trim_fn).filter(keep_fn)
        },
{
    reveal(Seq::filter);
    let mapped = xs.push(x).map_values(trim_fn);
    assert(mapped.drop_last() =~= xs.map_values(trim_fn));
    assert(mapped.last() == trim_fn(x));
    assert(mapped =~= xs.map_values(trim_fn).push(trim_fn(x)));
}

} // verus!
