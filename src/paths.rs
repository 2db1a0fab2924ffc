use vstd::prelude::*;
use vstd::string::StrSliceExecFns;

verus! {

/// The characters of `s`, in order.
fn chars_of(s: &str) -> (r: Vec<char>)
    ensures
        r@ == s@,
{
    let n = s.unicode_len();
    let mut out: Vec<char> = Vec::new();
    let mut i: usize = 0;
    while i < n
        invariant
            n == s@.len(),
            0 <= i <= n,
            out@ == s@.subrange(0, i as int),
        decreases n - i,
    {
        out.push(s.get_char(i));
        i = i + 1;
        proof {
            assert(out@ =~= s@.subrange(0, i as int));
        }
    }
    proof {
        assert(s@.subrange(0, n as int) =~= s@);
    }
    out
}

/// Relies on collecting characters into a `String` (`FromIterator<&char>`):
/// the string of exactly these characters.
#[verifier::external_body]
fn string_of(cs: &[char]) -> (r: String)
    ensures
        r@ == cs@,
{
    cs.iter().collect()
}

/// The pieces of `s` between separators, empty pieces included
/// (`"/a//b"` gives `"", "a", "", "b"`).
pub open spec fn segments(s: Seq<char>) -> Seq<Seq<char>>
    decreases s.len(),
{
    if s.len() == 0 {
        seq![Seq::empty()]
    } else {
        let prev = segments(s.drop_last());
        if s.last() == '/' {
            prev.push(Seq::empty())
        } else {
            prev.update(prev.len() - 1, prev.last().push(s.last()))
        }
    }
}

pub open spec fn is_absolute(s: Seq<char>) -> bool {
    s.len() > 0 && s[0] == '/'
}

/// A piece survives normalisation unless it is empty, or a `.` that is not
/// the leading piece of a relative path.
pub open spec fn keeps_segment(seg: Seq<char>, j: int, absolute: bool) -> bool {
    seg.len() > 0 && (seg != seq!['.'] || (j == 0 && !absolute))
}

/// The surviving pieces among the first `k` of `segs`, in order.
pub open spec fn kept_segments(segs: Seq<Seq<char>>, k: int, absolute: bool) -> Seq<Seq<char>>
    decreases k,
{
    if k <= 0 || k > segs.len() {
        Seq::empty()
    } else {
        let prev = kept_segments(segs, k - 1, absolute);
        if keeps_segment(segs[k - 1], k - 1, absolute) {
            prev.push(segs[k - 1])
        } else {
            prev
        }
    }
}

/// The pieces joined with single separators.
pub open spec fn joined(v: Seq<Seq<char>>) -> Seq<char>
    decreases v.len(),
{
    if v.len() == 0 {
        Seq::empty()
    } else if v.len() == 1 {
        v[0]
    } else {
        joined(v.drop_last()) + seq!['/'] + v.last()
    }
}

/// `s` without repeated separators, interior `.` pieces and trailing
/// separators: a leading `/` stays, then the surviving pieces joined.
pub open spec fn normalized(s: Seq<char>) -> Seq<char> {
    let segs = segments(s);
    let kept = kept_segments(segs, segs.len() as int, is_absolute(s));
    if is_absolute(s) {
        seq!['/'] + joined(kept)
    } else {
        joined(kept)
    }
}

/// `child` taken relative to `base`: an absolute `child` replaces `base`,
/// otherwise the two are joined with one separator.
pub open spec fn joined_path(base: Seq<char>, child: Seq<char>) -> Seq<char> {
    if is_absolute(child) || base.len() == 0 {
        child
    } else if base.last() == '/' {
        base + child
    } else {
        base + seq!['/'] + child
    }
}

proof fn lemma_segments_nonempty(s: Seq<char>)
    ensures
        segments(s).len() >= 1,
    decreases s.len(),
{
    if s.len() > 0 {
        lemma_segments_nonempty(s.drop_last());
    }
}

/// Normalises a path as text: repeated separators, interior `.` pieces and
/// trailing separators are removed; `..` pieces are kept.
pub fn normalize_path(path: &str) -> (r: String)
    ensures
        r@ == normalized(path@),
{
    let cs = chars_of(path);
    let ghost s = cs@;
    // Split into pieces.
    let mut segs: Vec<Vec<char>> = Vec::new();
    segs.push(Vec::new());
    let mut i: usize = 0;
    proof {
        assert(s.subrange(0, 0) =~= Seq::<char>::empty());
    }
    while i < cs.len()
        invariant
            s == cs@,
            0 <= i <= s.len(),
            segs@.len() == segments(s.subrange(0, i as int)).len(),
            forall|j: int| #![trigger segs@[j]] 0 <= j < segs@.len() ==> segs@[j]@ == segments(s.subrange(0, i as int))[j],
        decreases s.len() - i,
    {
        let ghost p = s.subrange(0, i as int);
        proof {
            lemma_segments_nonempty(p);
            assert(s.subrange(0, i as int + 1).drop_last() =~= p);
        }
        let c = cs[i];
        if c == '/' {
            segs.push(Vec::new());
        } else {
            let mut last = segs.pop().unwrap();
            last.push(c);
            segs.push(last);
        }
        i = i + 1;
        proof {
            let q = s.subrange(0, i as int);
            assert(q.last() == c);
            assert forall|j: int| #![trigger segs@[j]] 0 <= j < segs@.len() implies segs@[j]@ == segments(q)[j] by {
                if c != '/' && j == segs@.len() - 1 {
                    assert(segs@[j]@ =~= segments(p).last().push(c));
                }
            }
        }
    }
    proof {
        assert(s.subrange(0, s.len() as int) =~= s);
    }
    let ghost all = segments(s);
    let absolute = cs.len() > 0 && cs[0] == '/';
    // Keep the surviving pieces.
    let mut kept: Vec<Vec<char>> = Vec::new();
    let mut k: usize = 0;
    while k < segs.len()
        invariant
            all == segments(s),
            segs@.len() == all.len(),
            forall|j: int| #![trigger segs@[j]] 0 <= j < segs@.len() ==> segs@[j]@ == all[j],
            absolute == is_absolute(s),
            0 <= k <= segs@.len(),
            kept@.len() == kept_segments(all, k as int, absolute).len(),
            forall|j: int| #![trigger kept@[j]] 0 <= j < kept@.len() ==> kept@[j]@ == kept_segments(all, k as int, absolute)[j],
        decreases segs@.len() - k,
    {
        let seg = &segs[k];
        let dot = seg.len() == 1 && seg[0] == '.';
        proof {
            if seg@.len() == 1 {
                assert(dot == (seg@ =~= seq!['.']));
            } else {
                assert(seg@ != seq!['.']);
            }
        }
        if seg.len() > 0 && (!dot || (k == 0 && !absolute)) {
            kept.push(seg.clone());
        }
        k = k + 1;
    }
    let ghost ks = kept_segments(all, all.len() as int, absolute);
    // Join them.
    let mut out: Vec<char> = Vec::new();
    if absolute {
        out.push('/');
    }
    let ghost lead = out@;
    let mut m: usize = 0;
    while m < kept.len()
        invariant
            ks == kept_segments(all, all.len() as int, absolute),
            kept@.len() == ks.len(),
            forall|j: int| #![trigger kept@[j]] 0 <= j < kept@.len() ==> kept@[j]@ == ks[j],
            0 <= m <= kept@.len(),
            out@ == lead + joined(ks.subrange(0, m as int)),
        decreases kept@.len() - m,
    {
        proof {
            assert(ks.subrange(0, m as int + 1).drop_last() =~= ks.subrange(0, m as int));
        }
        let ghost before = out@;
        if m > 0 {
            out.push('/');
        }
        let seg = &kept[m];
        let mut t: usize = 0;
        let ghost mid = out@;
        while t < seg.len()
            invariant
                0 <= t <= seg@.len(),
                out@ == mid + seg@.subrange(0, t as int),
            decreases seg@.len() - t,
        {
            out.push(seg[t]);
            t = t + 1;
            proof {
                assert(out@ =~= mid + seg@.subrange(0, t as int));
            }
        }
        m = m + 1;
        proof {
            assert(seg@.subrange(0, seg@.len() as int) =~= seg@);
            if m == 1 {
                assert(ks.subrange(0, 1) =~= seq![ks[0]]);
                assert(out@ =~= lead + joined(ks.subrange(0, m as int)));
            } else {
                assert(out@ =~= lead + joined(ks.subrange(0, m as int)));
            }
        }
    }
    proof {
        assert(ks.subrange(0, ks.len() as int) =~= ks);
        if !absolute {
            assert(lead =~= Seq::<char>::empty());
        } else {
            assert(lead =~= seq!['/']);
        }
        assert(out@ =~= normalized(s));
    }
    string_of(out.as_slice())
}

/// Joins `child` onto `base` as a path: an absolute `child` is returned as
/// it is.
pub fn join_path(base: &str, child: &str) -> (r: String)
    ensures
        r@ == joined_path(base@, child@),
{
    let b = chars_of(base);
    let c = chars_of(child);
    if (c.len() > 0 && c[0] == '/') || b.len() == 0 {
        return string_of(c.as_slice());
    }
    let mut out = b.clone();
    if b[b.len() - 1] != '/' {
        out.push('/');
    }
    let ghost mid = out@;
    let mut t: usize = 0;
    while t < c.len()
        invariant
            0 <= t <= c@.len(),
            out@ == mid + c@.subrange(0, t as int),
        decreases c@.len() - t,
    {
        out.push(c[t]);
        t = t + 1;
        proof {
            assert(out@ =~= mid + c@.subrange(0, t as int));
        }
    }
    proof {
        assert(c@.subrange(0, c@.len() as int) =~= c@);
        assert(out@ =~= joined_path(base@, child@));
    }
    string_of(out.as_slice())
}

} // verus!
