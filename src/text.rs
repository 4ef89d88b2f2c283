//! Character-level helpers shared by the parsers: whitespace, trimming,
//! splitting and ASCII case folding over `Seq<char>`.
use vstd::prelude::*;

verus! {

/// The Unicode `White_Space` property, the set that `char::is_whitespace`
/// and `str::trim` use.
pub open spec fn is_space(c: char) -> bool {
    let u = c as u32;
    (0x9 <= u && u <= 0xD) || u == 0x20 || u == 0x85 || u == 0xA0 || u == 0x1680 || (0x2000
        <= u && u <= 0x200A) || u == 0x2028 || u == 0x2029 || u == 0x202F || u == 0x205F || u
        == 0x3000
}

/// Whether `c` is whitespace.
pub fn is_space_char(c: char) -> (r: bool)
    ensures
        r == is_space(c),
{
    let u = c as u32;
    (0x9 <= u && u <= 0xD) || u == 0x20 || u == 0x85 || u == 0xA0 || u == 0x1680 || (0x2000
        <= u && u <= 0x200A) || u == 0x2028 || u == 0x2029 || u == 0x202F || u == 0x205F || u
        == 0x3000
}

/// The characters of `s`, in order.
pub fn chars_of(s: &str) -> (r: Vec<char>)
    ensures
        r@ == s@,
{
    let mut out: Vec<char> = Vec::new();
    for c in it: s.chars()
        invariant
            out@ == it.seq().subrange(0, it.index() as int),
    {
        out.push(c);
    }
    out
}

/// `s` without its leading whitespace.
pub open spec fn trim_start(s: Seq<char>) -> Seq<char>
    decreases s.len(),
{
    if s.len() > 0 && is_space(s[0]) {
        trim_start(s.drop_first())
    } else {
        s
    }
}

/// `s` without its trailing whitespace.
pub open spec fn trim_end(s: Seq<char>) -> Seq<char>
    decreases s.len(),
{
    if s.len() > 0 && is_space(s.last()) {
        trim_end(s.drop_last())
    } else {
        s
    }
}

/// `s` without leading and trailing whitespace, as `str::trim` gives it.
pub open spec fn trim(s: Seq<char>) -> Seq<char> {
    trim_end(trim_start(s))
}

/// The maximal runs of non-whitespace characters of `s`, in order, as
/// `str::split_whitespace` gives them.
pub open spec fn words(s: Seq<char>) -> Seq<Seq<char>>
    decreases s.len(),
{
    if s.len() == 0 {
        Seq::empty()
    } else {
        let rest = words(s.drop_last());
        let c = s.last();
        if is_space(c) {
            rest
        } else if s.len() >= 2 && !is_space(s[s.len() - 2]) {
            rest.update(rest.len() - 1, rest.last().push(c))
        } else {
            rest.push(seq![c])
        }
    }
}

/// The pieces of `s` between occurrences of `sep`, empty pieces included, as
/// `str::split` gives them for a one-character pattern.
pub open spec fn pieces(s: Seq<char>, sep: char) -> Seq<Seq<char>>
    decreases s.len(),
{
    if s.len() == 0 {
        seq![Seq::empty()]
    } else {
        let rest = pieces(s.drop_last(), sep);
        if s.last() == sep {
            rest.push(Seq::empty())
        } else {
            rest.update(rest.len() - 1, rest.last().push(s.last()))
        }
    }
}

/// The text of each range of `v`.
pub open spec fn texts_of(v: Seq<char>, ranges: Seq<(usize, usize)>) -> Seq<Seq<char>> {
    ranges.map_values(|p: (usize, usize)| v.subrange(p.0 as int, p.1 as int))
}

/// Every range lies within a text of length `n`.
pub open spec fn ranges_within(ranges: Seq<(usize, usize)>, n: nat) -> bool {
    forall|k: int| 0 <= k < ranges.len() ==> #[trigger] ranges[k].0 <= ranges[k].1 <= n
}

pub proof fn lemma_push_range(ranges: Seq<(usize, usize)>, p: (usize, usize), n: nat)
    requires
        ranges_within(ranges, n),
        p.0 <= p.1 <= n,
    ensures
        ranges_within(ranges.push(p), n),
{
    assert forall|k: int| 0 <= k < ranges.len() + 1 implies #[trigger] ranges.push(p)[k].0
        <= ranges.push(p)[k].1 <= n by {
        if k < ranges.len() {
            assert(ranges.push(p)[k] == ranges[k]);
        }
    }
}

proof fn lemma_trim_start_at(s: Seq<char>, k: int)
    requires
        0 <= k <= s.len(),
        forall|j: int| 0 <= j < k ==> is_space(s[j]),
        k == s.len() || !is_space(s[k]),
    ensures
        trim_start(s) == s.subrange(k, s.len() as int),
    decreases k,
{
    if k == 0 {
        assert(s.subrange(0, s.len() as int) =~= s);
    } else {
        let t = s.drop_first();
        assert forall|j: int| 0 <= j < k - 1 implies is_space(t[j]) by {
            assert(t[j] == s[j + 1]);
        }
        lemma_trim_start_at(t, k - 1);
        assert(t.subrange(k - 1, t.len() as int) =~= s.subrange(k, s.len() as int));
    }
}

proof fn lemma_trim_end_at(s: Seq<char>, k: int)
    requires
        0 <= k <= s.len(),
        forall|j: int| k <= j < s.len() ==> is_space(s[j]),
        k == 0 || !is_space(s[k - 1]),
    ensures
        trim_end(s) == s.subrange(0, k),
    decreases s.len() - k,
{
    if k == s.len() {
        assert(s.subrange(0, k) =~= s);
    } else {
        let t = s.drop_last();
        lemma_trim_end_at(t, k);
        assert(t.subrange(0, k) =~= s.subrange(0, k));
    }
}

/// The bounds, within `v`, of the trimmed text of `v[lo..hi]`.
pub fn trim_range(v: &Vec<char>, lo: usize, hi: usize) -> (r: (usize, usize))
    requires
        lo <= hi <= v.len(),
    ensures
        lo <= r.0 <= r.1 <= hi,
        v@.subrange(r.0 as int, r.1 as int) == trim(v@.subrange(lo as int, hi as int)),
{
    let mut a: usize = lo;
    while a < hi && is_space_char(v[a])
        invariant
            lo <= a <= hi <= v.len(),
            forall|j: int| lo <= j < a ==> is_space(v@[j]),
        decreases hi - a,
    {
        a = a + 1;
    }
    let mut b: usize = hi;
    while b > a && is_space_char(v[b - 1])
        invariant
            lo <= a <= b <= hi <= v.len(),
            forall|j: int| b <= j < hi ==> is_space(v@[j]),
        decreases b - a,
    {
        b = b - 1;
    }
    proof {
        let sub = v@.subrange(lo as int, hi as int);
        lemma_trim_start_at(sub, a - lo);
        let rest = sub.subrange(a - lo, sub.len() as int);
        assert(rest =~= v@.subrange(a as int, hi as int));
        lemma_trim_end_at(rest, b - a);
        assert(rest.subrange(0, b - a) =~= v@.subrange(a as int, b as int));
    }
    (a, b)
}

/// The bounds of the words of `v`, in order.
pub fn word_ranges(v: &Vec<char>) -> (r: Vec<(usize, usize)>)
    ensures
        ranges_within(r@, v@.len()),
        texts_of(v@, r@) == words(v@),
{
    let mut out: Vec<(usize, usize)> = Vec::new();
    let mut start: usize = 0;
    let mut inside: bool = false;
    let mut i: usize = 0;
    while i < v.len()
        invariant
            i <= v.len(),
            start <= i,
            ranges_within(out@, v@.len()),
            inside <==> (i > 0 && !is_space(v@[i - 1])),
            words(v@.subrange(0, i as int)) == texts_of(v@, out@) + (if inside {
                seq![v@.subrange(start as int, i as int)]
            } else {
                Seq::empty()
            }),
        decreases v.len() - i,
    {
        let c = v[i];
        let ghost pre = v@.subrange(0, i as int);
        let ghost cur = v@.subrange(0, i + 1);
        assert(cur.drop_last() =~= pre);
        if is_space_char(c) {
            if inside {
                out.push((start, i));
                assert(texts_of(v@, out@) =~= words(pre));
            } else {
                assert(texts_of(v@, out@) + Seq::<Seq<char>>::empty() =~= texts_of(v@, out@));
            }
            inside = false;
        } else {
            assert(cur.last() == c);
            if !inside {
                assert(i > 0 ==> cur[cur.len() - 2] == v@[i - 1]);
                assert(words(pre) =~= texts_of(v@, out@));
                start = i;
                inside = true;
                assert(v@.subrange(start as int, i + 1) =~= seq![c]);
                assert(words(cur) == words(pre).push(seq![c]));
            } else {
                assert(cur[cur.len() - 2] == v@[i - 1]);
                let ghost w = v@.subrange(start as int, i as int);
                assert(v@.subrange(start as int, i + 1) =~= w.push(c));
                assert(words(pre) == texts_of(v@, out@) + seq![w]);
                assert(words(cur) == words(pre).update(words(pre).len() - 1, w.push(c)));
            }
            assert(words(cur) =~= texts_of(v@, out@) + seq![v@.subrange(start as int, i + 1)]);
        }
        i = i + 1;
    }
    if inside {
        out.push((start, i));
    }
    assert(v@.subrange(0, v.len() as int) =~= v@);
    assert(texts_of(v@, out@) =~= words(v@));
    out
}

/// The bounds of the pieces of `v` between occurrences of `sep`, in order.
pub fn piece_ranges(v: &Vec<char>, sep: char) -> (r: Vec<(usize, usize)>)
    ensures
        ranges_within(r@, v@.len()),
        texts_of(v@, r@) == pieces(v@, sep),
{
    let mut out: Vec<(usize, usize)> = Vec::new();
    let mut start: usize = 0;
    let mut i: usize = 0;
    assert(v@.subrange(0, 0) =~= Seq::<char>::empty());
    assert(texts_of(v@, out@) =~= Seq::<Seq<char>>::empty());
    assert(pieces(v@.subrange(0, 0), sep) =~= texts_of(v@, out@).push(v@.subrange(0, 0)));
    while i < v.len()
        invariant
            i <= v.len(),
            start <= i,
            ranges_within(out@, v@.len()),
            pieces(v@.subrange(0, i as int), sep) == texts_of(v@, out@).push(
                v@.subrange(start as int, i as int),
            ),
        decreases v.len() - i,
    {
        let c = v[i];
        let ghost pre = v@.subrange(0, i as int);
        let ghost cur = v@.subrange(0, i + 1);
        assert(cur.drop_last() =~= pre);
        if c == sep {
            proof {
                lemma_push_range(out@, (start, i), v@.len());
            }
            out.push((start, i));
            start = i + 1;
            assert(v@.subrange(start as int, i + 1) =~= Seq::<char>::empty());
            assert(pieces(cur, sep) =~= texts_of(v@, out@).push(
                v@.subrange(start as int, i + 1),
            ));
        } else {
            assert(v@.subrange(start as int, i + 1) =~= v@.subrange(start as int, i as int).push(c));
            assert(pieces(cur, sep) =~= texts_of(v@, out@).push(
                v@.subrange(start as int, i + 1),
            ));
        }
        i = i + 1;
    }
    let ghost old_out = out@;
    out.push((start, i));
    assert(ranges_within(out@, v@.len())) by {
        assert forall|k: int| 0 <= k < out@.len() implies #[trigger] out@[k].0 <= out@[k].1
            <= v@.len() by {
            if k < out@.len() - 1 {
                assert(out@[k] == old_out[k]);
            } else {
                assert(out@[k] == (start, i));
            }
        }
    }
    assert(v@.subrange(0, v.len() as int) =~= v@);
    assert(texts_of(v@, out@) =~= pieces(v@, sep));
    out
}

/// Splitting a text free of `sep` gives the text itself.
pub proof fn lemma_pieces_without_sep(w: Seq<char>, sep: char)
    requires
        !w.contains(sep),
    ensures
        pieces(w, sep) == seq![w],
    decreases w.len(),
{
    if w.len() == 0 {
        assert(w =~= Seq::<char>::empty());
    } else {
        let d = w.drop_last();
        assert(!d.contains(sep)) by {
            if d.contains(sep) {
                let i = choose|i: int| 0 <= i < d.len() && d[i] == sep;
                assert(w[i] == sep);
            }
        }
        lemma_pieces_without_sep(d, sep);
        assert(w.last() != sep) by {
            assert(w[w.len() - 1] == w.last());
        }
        assert(d.push(w.last()) =~= w);
        assert(seq![d].update(0, d.push(w.last())) =~= seq![w]);
    }
}

/// Appending `sep` and a text free of `sep` adds that text as one more piece.
pub proof fn lemma_pieces_append(a: Seq<char>, w: Seq<char>, sep: char)
    requires
        !w.contains(sep),
    ensures
        pieces(a + seq![sep] + w, sep) == pieces(a, sep).push(w),
    decreases w.len(),
{
    let s = a + seq![sep] + w;
    if w.len() == 0 {
        assert(s.drop_last() =~= a);
        assert(s.last() == sep);
        assert(w =~= Seq::<char>::empty());
    } else {
        let d = w.drop_last();
        assert(!d.contains(sep)) by {
            if d.contains(sep) {
                let i = choose|i: int| 0 <= i < d.len() && d[i] == sep;
                assert(w[i] == sep);
            }
        }
        lemma_pieces_append(a, d, sep);
        assert(s.drop_last() =~= a + seq![sep] + d);
        assert(s.last() == w.last());
        assert(w.last() != sep) by {
            assert(w[w.len() - 1] == w.last());
        }
        assert(d.push(w.last()) =~= w);
        assert(pieces(a, sep).push(d).update(pieces(a, sep).len() as int, d.push(w.last()))
            =~= pieces(a, sep).push(w));
    }
}

} // verus!
