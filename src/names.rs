use vstd::prelude::*;
use vstd::string::*;

verus! {

/// What `str::to_lowercase` makes of a string.
pub uninterp spec fn lower_of(s: Seq<char>) -> Seq<char>;

/// Relies on `str::to_lowercase`: the Unicode lower case of `s`, which
/// depends on its characters alone.
#[verifier::external_body]
fn lowercase(s: &str) -> (r: String)
    ensures
        r@ == lower_of(s@),
{
    s.to_lowercase()
}

/// `s` without its underscores.
pub open spec fn strip_underscores(s: Seq<char>) -> Seq<char>
    decreases s.len(),
{
    if s.len() == 0 {
        s
    } else {
        strip_underscores(s.drop_last()) + if s.last() == '_' { Seq::empty() } else { seq![s.last()] }
    }
}

/// The form in which two path segments are compared.
pub open spec fn simplified(s: Seq<char>) -> Seq<char> {
    strip_underscores(lower_of(s))
}

/// The segments of `s` between the `::` delimiters, taken left to right.
pub open spec fn split_path(s: Seq<char>) -> Seq<Seq<char>>
    decreases s.len(),
{
    if s.len() == 0 {
        seq![Seq::empty()]
    } else if s.len() >= 2 && s[0] == ':' && s[1] == ':' {
        seq![Seq::<char>::empty()] + split_path(s.skip(2))
    } else {
        let r = split_path(s.drop_first());
        r.update(0, seq![s[0]] + r[0])
    }
}

/// The segments from `k` on, joined with `::`, leaving out each segment
/// whose key equals the key of the segment after it.
pub open spec fn join_kept(segs: Seq<Seq<char>>, keys: Seq<Seq<char>>, k: int) -> Seq<char>
    decreases segs.len() - k,
{
    if k < 0 || k >= segs.len() {
        Seq::empty()
    } else if k == segs.len() - 1 {
        segs[k]
    } else if keys[k] == keys[k + 1] {
        join_kept(segs, keys, k + 1)
    } else {
        segs[k] + "::"@ + join_kept(segs, keys, k + 1)
    }
}

pub open spec fn chars_of(v: Seq<Vec<char>>) -> Seq<Seq<char>> {
    v.map_values(|x: Vec<char>| x@)
}

/// `name` with every path segment dropped that repeats the next one once
/// both are lower-cased and stripped of underscores
/// (`module::module::function` becomes `module::function`).
pub open spec fn clean_name(name: Seq<char>) -> Seq<char> {
    join_kept(split_path(name), split_path(name).map_values(|x: Seq<char>| simplified(x)), 0)
}

proof fn lemma_split_nonempty(s: Seq<char>)
    ensures
        split_path(s).len() >= 1,
    decreases s.len(),
{
    if s.len() >= 2 && s[0] == ':' && s[1] == ':' {
        lemma_split_nonempty(s.skip(2));
    } else if s.len() > 0 {
        lemma_split_nonempty(s.drop_first());
    }
}

/// Start and end positions of the segments of `s`.
fn segment_bounds(s: &str) -> (r: Vec<(usize, usize)>)
    ensures
        r@.len() == split_path(s@).len(),
        forall|k: int| 0 <= k < r@.len() ==> #[trigger] r@[k].0 <= r@[k].1 <= s@.len(),
        forall|k: int| 0 <= k < r@.len() ==> s@.subrange(#[trigger] r@[k].0 as int, r@[k].1 as int) == split_path(s@)[k],
{
    let n = s.unicode_len();
    let mut out: Vec<(usize, usize)> = Vec::new();
    let mut start: usize = 0;
    let mut i: usize = 0;
    proof {
        lemma_split_nonempty(s@);
        assert(s@.skip(0) =~= s@);
        assert(s@.subrange(0, 0) + split_path(s@.skip(0))[0] =~= split_path(s@)[0]);
        assert(seq![split_path(s@)[0]] + split_path(s@).drop_first() =~= split_path(s@));
    }
    while i < n
        invariant
            n == s@.len(),
            start <= i <= n,
            forall|k: int| 0 <= k < out@.len() ==> (#[trigger] out@[k]).0 <= out@[k].1 <= i,
            ({
                let rest = split_path(s@.skip(i as int));
                &&& rest.len() >= 1
                &&& split_path(s@) == out@.map_values(|b: (usize, usize)| s@.subrange(b.0 as int, b.1 as int))
                    + seq![s@.subrange(start as int, i as int) + rest[0]] + rest.drop_first()
            }),
        decreases n - i,
    {
        let ghost t = s@.skip(i as int);
        if i + 1 < n && s.get_char(i) == ':' && s.get_char(i + 1) == ':' {
            proof {
                assert(t.skip(2) =~= s@.skip(i + 2));
                lemma_split_nonempty(s@.skip(i + 2));
                let r2 = split_path(s@.skip(i + 2));
                assert(s@.subrange(i + 2, i + 2) + r2[0] =~= r2[0]);
                assert(seq![r2[0]] + r2.drop_first() =~= r2);
            }
            let ghost prev = out@;
            out.push((start, i));
            proof {
                let m = |b: (usize, usize)| s@.subrange(b.0 as int, b.1 as int);
                assert(out@.map_values(m) =~= prev.map_values(m).push(s@.subrange(start as int, i as int)));
                let r = split_path(s@.skip(i + 2));
                assert(split_path(t) == seq![Seq::<char>::empty()] + r);
                assert(split_path(t)[0] =~= Seq::<char>::empty());
                assert(split_path(t).drop_first() =~= r);
                assert(s@.subrange(start as int, i as int) + Seq::<char>::empty() =~= s@.subrange(start as int, i as int));
                assert(prev.map_values(m) + seq![s@.subrange(start as int, i as int)] + r
                    =~= out@.map_values(m) + seq![s@.subrange(i + 2, i + 2) + r[0]] + r.drop_first());
            }
            assert forall|k: int| 0 <= k < out@.len() implies (#[trigger] out@[k]).0 <= out@[k].1 <= i + 2 by {
                if k < prev.len() {
                    assert(out@[k] == prev[k]);
                }
            }
            i = i + 2;
            start = i;
        } else {
            proof {
                assert(t.drop_first() =~= s@.skip(i + 1));
                lemma_split_nonempty(s@.skip(i + 1));
                let r = split_path(s@.skip(i + 1));
                assert(split_path(t) == r.update(0, seq![t[0]] + r[0]));
                assert(split_path(t).drop_first() =~= r.drop_first());
                assert(s@.subrange(start as int, i as int) + (seq![t[0]] + r[0])
                    =~= s@.subrange(start as int, i + 1) + r[0]);
            }
            i = i + 1;
        }
    }
    proof {
        assert(s@.skip(i as int) =~= Seq::<char>::empty());
        assert(split_path(Seq::<char>::empty()) == seq![Seq::<char>::empty()]);
        assert(s@.subrange(start as int, i as int) + Seq::<char>::empty() =~= s@.subrange(start as int, i as int));
    }
    let ghost prev = out@;
    out.push((start, i));
    proof {
        let m = |b: (usize, usize)| s@.subrange(b.0 as int, b.1 as int);
        assert(out@.map_values(m) =~= prev.map_values(m).push(s@.subrange(start as int, i as int)));
        assert(split_path(s@) =~= out@.map_values(m));
        assert forall|k: int| 0 <= k < out@.len() implies s@.subrange(#[trigger] out@[k].0 as int, out@[k].1 as int) == split_path(s@)[k] by {
            assert(out@.map_values(m)[k] == m(out@[k]));
        }
    }
    out
}

/// `s` lower-cased and without underscores.
fn simplify(s: &str) -> (r: Vec<char>)
    ensures
        r@ == simplified(s@),
{
    let lower = lowercase(s);
    let l = lower.as_str();
    let n = l.unicode_len();
    let mut out: Vec<char> = Vec::new();
    let mut i: usize = 0;
    while i < n
        invariant
            n == l@.len(),
            l@ == lower_of(s@),
            i <= n,
            out@ == strip_underscores(l@.take(i as int)),
        decreases n - i,
    {
        let c = l.get_char(i);
        if c != '_' {
            out.push(c);
        }
        assert(l@.take(i + 1).drop_last() =~= l@.take(i as int));
        assert(out@ =~= strip_underscores(l@.take(i + 1)));
        i = i + 1;
    }
    assert(l@.take(n as int) =~= l@);
    out
}

fn same_chars(a: &Vec<char>, b: &Vec<char>) -> (r: bool)
    ensures
        r == (a@ == b@),
{
    if a.len() != b.len() {
        return false;
    }
    let mut i: usize = 0;
    while i < a.len()
        invariant
            a.len() == b.len(),
            i <= a.len(),
            forall|j: int| 0 <= j < i ==> a@[j] == b@[j],
        decreases a.len() - i,
    {
        if a[i] != b[i] {
            return false;
        }
        i = i + 1;
    }
    assert(a@ =~= b@);
    true
}

fn push_chars(out: &mut Vec<char>, s: &str)
    ensures
        final(out)@ == old(out)@ + s@,
{
    let n = s.unicode_len();
    let mut i: usize = 0;
    while i < n
        invariant
            n == s@.len(),
            i <= n,
            out@ == old(out)@ + s@.take(i as int),
        decreases n - i,
    {
        out.push(s.get_char(i));
        assert(s@.take(i + 1) =~= s@.take(i as int).push(s@[i as int]));
        i = i + 1;
    }
    assert(s@.take(n as int) =~= s@);
}

fn append_chars(out: &mut Vec<char>, s: &Vec<char>)
    ensures
        final(out)@ == old(out)@ + s@,
{
    let mut i: usize = 0;
    while i < s.len()
        invariant
            i <= s.len(),
            out@ == old(out)@ + s@.take(i as int),
        decreases s.len() - i,
    {
        out.push(s[i]);
        assert(s@.take(i + 1) =~= s@.take(i as int).push(s@[i as int]));
        i = i + 1;
    }
    assert(s@.take(s.len() as int) =~= s@);
}

/// Join `segments` with `::`, leaving out each segment whose key equals
/// the key of the next one. The keys are the segments in the form in which
/// they are compared.
pub fn join_segments(segments: &Vec<Vec<char>>, keys: &Vec<Vec<char>>) -> (r: Vec<char>)
    requires
        segments.len() == keys.len(),
    ensures
        r@ == join_kept(chars_of(segments@), chars_of(keys@), 0),
{
    let ghost segs = chars_of(segments@);
    let ghost ks = chars_of(keys@);
    let n = segments.len();
    let mut out: Vec<char> = Vec::new();
    let mut k: usize = 0;
    while k < n
        invariant
            n == segments.len(),
            n == keys.len(),
            segs == chars_of(segments@),
            ks == chars_of(keys@),
            k <= n,
            join_kept(segs, ks, 0) == out@ + join_kept(segs, ks, k as int),
        decreases n - k,
    {
        let ghost before = out@;
        assert(segs[k as int] == segments@[k as int]@);
        if k + 1 == n {
            append_chars(&mut out, &segments[k]);
        } else {
            assert(ks[k as int] == keys@[k as int]@ && ks[k + 1] == keys@[k + 1]@);
            if !same_chars(&keys[k], &keys[k + 1]) {
                append_chars(&mut out, &segments[k]);
                push_chars(&mut out, "::");
            }
        }
        proof {
            if k + 1 < n {
                if ks[k as int] != ks[k + 1] {
                    assert(out@ =~= before + segs[k as int] + "::"@);
                }
            } else {
                assert(join_kept(segs, ks, k + 1) == Seq::<char>::empty());
            }
            assert(join_kept(segs, ks, 0) =~= out@ + join_kept(segs, ks, k + 1));
        }
        k = k + 1;
    }
    assert(join_kept(segs, ks, n as int) == Seq::<char>::empty());
    assert(out@ =~= join_kept(segs, ks, 0));
    out
}

/// The characters of `name` with redundant repeated path segments removed.
pub fn clean(name: &str) -> (r: Vec<char>)
    ensures
        r@ == clean_name(name@),
{
    let bounds = segment_bounds(name);
    let ghost segs = split_path(name@);
    let n = bounds.len();
    let mut segments: Vec<Vec<char>> = Vec::new();
    let mut keys: Vec<Vec<char>> = Vec::new();
    let mut k: usize = 0;
    while k < n
        invariant
            n == bounds@.len(),
            n == segs.len(),
            segs == split_path(name@),
            k <= n,
            forall|j: int| 0 <= j < n ==> #[trigger] bounds@[j].0 <= bounds@[j].1 <= name@.len(),
            forall|j: int| 0 <= j < n ==> name@.subrange(#[trigger] bounds@[j].0 as int, bounds@[j].1 as int) == segs[j],
            segments.len() == k,
            keys.len() == k,
            chars_of(segments@) == segs.take(k as int),
            chars_of(keys@) == segs.take(k as int).map_values(|x: Seq<char>| simplified(x)),
        decreases n - k,
    {
        let seg = name.substring_char(bounds[k].0, bounds[k].1);
        assert(seg@ == segs[k as int]);
        let mut chars: Vec<char> = Vec::new();
        push_chars(&mut chars, seg);
        assert(chars@ =~= seg@);
        let key = simplify(seg);
        let ghost prev = keys@;
        segments.push(chars);
        keys.push(key);
        assert forall|j: int| 0 <= j < k + 1 implies #[trigger] chars_of(keys@)[j] == simplified(segs.take(k + 1)[j]) by {
            if j < k {
                assert(keys@[j] == prev[j]);
                assert(chars_of(prev)[j] == segs.take(k as int).map_values(|x: Seq<char>| simplified(x))[j]);
                assert(segs.take(k as int)[j] == segs.take(k + 1)[j]);
            }
        }
        assert(chars_of(segments@) =~= segs.take(k + 1));
        assert(chars_of(keys@) =~= segs.take(k + 1).map_values(|x: Seq<char>| simplified(x)));
        k = k + 1;
    }
    assert(segs.take(n as int) =~= segs);
    join_segments(&segments, &keys)
}

} // verus!
