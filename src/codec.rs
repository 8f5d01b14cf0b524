use vstd::prelude::*;
use crate::text::{decimal, push_decimal};

verus! {

/// `@ud` of `~1970.1.1`: the Urbit date of the Unix epoch.
pub const DA_UNIX_EPOCH: u128 = 170141184475152167957503069145530368000;

/// `@ud` of `~s1`: one second in Urbit date units.
pub const DA_SECOND: u128 = 18446744073709551616;

/// The views of a list of strings.
pub open spec fn views(v: Seq<String>) -> Seq<Seq<char>> {
    v.map_values(|x: String| x@)
}

/// The segments of an index text, cut at each `/`: `"/1/2"` has the
/// segments `""`, `"1"` and `"2"`.
pub open spec fn segments(s: Seq<char>) -> Seq<Seq<char>>
    decreases s.len(),
{
    if s.len() == 0 {
        seq![Seq::empty()]
    } else {
        let r = segments(s.drop_last());
        if s.last() == '/' {
            r.push(Seq::empty())
        } else {
            r.update(r.len() - 1, r.last().push(s.last()))
        }
    }
}

/// The index text of a list of segments: the inverse of `segments`.
pub open spec fn join_segments(p: Seq<Seq<char>>) -> Seq<char>
    decreases p.len(),
{
    if p.len() == 0 {
        Seq::empty()
    } else if p.len() == 1 {
        p[0]
    } else {
        join_segments(p.drop_last()) + seq!['/'] + p.last()
    }
}

/// `a` is an ancestor of `b`: its segments are a proper prefix of `b`'s.
pub open spec fn is_ancestor(a: Seq<char>, b: Seq<char>) -> bool {
    segments(a).len() < segments(b).len() && segments(b).subrange(0, segments(a).len() as int)
        == segments(a)
}

/// `a` is the direct parent of `b`: `b`'s segments are `a`'s and one more.
pub open spec fn is_direct_parent(a: Seq<char>, b: Seq<char>) -> bool {
    segments(a).len() + 1 == segments(b).len() && segments(b).subrange(
        0,
        segments(a).len() as int,
    ) == segments(a)
}

/// The index of the parent, `None` for a top-level index (one segment after
/// the leading `/`, or none).
pub open spec fn parent_of(s: Seq<char>) -> Option<Seq<char>> {
    if segments(s).len() <= 2 {
        None
    } else {
        Some(join_segments(segments(s).drop_last()))
    }
}

/// Digits cut into groups of three from the right, joined by `.`.
pub open spec fn grouped_digits(s: Seq<char>) -> Seq<char>
    decreases s.len(),
{
    if s.len() <= 3 {
        s
    } else {
        grouped_digits(s.subrange(0, s.len() - 3)) + seq!['.'] + s.subrange(s.len() - 3, s.len() as int)
    }
}

/// The grouped-decimal form of an index path used in scry URLs: each
/// non-empty segment behind a `/`, in groups of three digits.
pub open spec fn ud_path(p: Seq<Seq<char>>) -> Seq<char>
    decreases p.len(),
{
    if p.len() == 0 {
        Seq::empty()
    } else if p.last().len() == 0 {
        ud_path(p.drop_last())
    } else {
        ud_path(p.drop_last()) + seq!['/'] + grouped_digits(p.last())
    }
}

/// The Urbit date of a Unix time in milliseconds.
pub open spec fn da_of_unix(ms: u64) -> int {
    DA_UNIX_EPOCH + (ms as int * DA_SECOND) / 1000
}

pub proof fn lemma_segments_len(s: Seq<char>)
    ensures
        segments(s).len() >= 1,
    decreases s.len(),
{
    if s.len() > 0 {
        lemma_segments_len(s.drop_last());
    }
}

/// Ancestry is a strict order on index paths: it never runs both ways, and
/// a direct parent is an ancestor.
pub proof fn lemma_ancestry_order(a: Seq<char>, b: Seq<char>)
    ensures
        is_ancestor(a, b) ==> !is_ancestor(b, a),
        is_direct_parent(a, b) ==> is_ancestor(a, b),
{
}

/// Cuts an index text into its segments, as `str::split('/')` does.
pub fn split_index(s: &str) -> (r: Vec<String>)
    ensures
        views(r@) == segments(s@),
        r@.len() >= 1,
{
    let n = s.unicode_len();
    let mut segs: Vec<String> = Vec::new();
    let mut cur = String::new();
    let mut i: usize = 0;
    assert(s@.subrange(0, 0) =~= Seq::<char>::empty());
    assert(views(segs@).push(cur@) =~= segments(s@.subrange(0, 0)));
    while i < n
        invariant
            n == s@.len(),
            i <= n,
            views(segs@).push(cur@) == segments(s@.subrange(0, i as int)),
        decreases n - i,
    {
        let c = s.get_char(i);
        let ghost prev = s@.subrange(0, i as int);
        let ghost next = s@.subrange(0, i as int + 1);
        assert(next.drop_last() =~= prev);
        assert(next.last() == c);
        if c == '/' {
            segs.push(cur);
            cur = String::new();
            assert(views(segs@).push(cur@) =~= segments(prev).push(Seq::empty()));
        } else {
            let ghost old_cur = cur@;
            cur.push(c);
            assert(views(segs@).push(cur@) =~= segments(prev).update(
                segments(prev).len() - 1,
                old_cur.push(c),
            ));
        }
        i = i + 1;
    }
    segs.push(cur);
    assert(s@.subrange(0, n as int) =~= s@);
    assert(views(segs@) =~= segments(s@));
    segs
}

/// Whether `p` is a prefix of `q`, segment by segment.
fn segments_prefix(p: &Vec<String>, q: &Vec<String>) -> (r: bool)
    requires
        p@.len() <= q@.len(),
    ensures
        r == (views(q@).subrange(0, p@.len() as int) == views(p@)),
{
    let mut i: usize = 0;
    while i < p.len()
        invariant
            p@.len() <= q@.len(),
            i <= p@.len(),
            forall|j: int| 0 <= j < i ==> q@[j]@ == p@[j]@,
        decreases p@.len() - i,
    {
        if p[i] != q[i] {
            assert(views(q@).subrange(0, p@.len() as int)[i as int] != views(p@)[i as int]);
            return false;
        }
        i = i + 1;
    }
    assert(views(q@).subrange(0, p@.len() as int) =~= views(p@));
    true
}

/// Whether index `a` is an ancestor of index `b`.
pub fn index_is_ancestor(a: &str, b: &str) -> (r: bool)
    ensures
        r == is_ancestor(a@, b@),
{
    let p = split_index(a);
    let q = split_index(b);
    if p.len() >= q.len() {
        return false;
    }
    segments_prefix(&p, &q)
}

/// Whether index `a` is the direct parent of index `b`.
pub fn index_is_direct_parent(a: &str, b: &str) -> (r: bool)
    ensures
        r == is_direct_parent(a@, b@),
{
    let p = split_index(a);
    let q = split_index(b);
    if p.len() >= q.len() || p.len() + 1 != q.len() {
        return false;
    }
    segments_prefix(&p, &q)
}

/// Joins segments with `/`.
pub fn join_index(p: &Vec<String>, k: usize) -> (r: String)
    requires
        k <= p@.len(),
    ensures
        r@ == join_segments(views(p@).subrange(0, k as int)),
{
    let mut out = String::new();
    let mut i: usize = 0;
    assert(views(p@).subrange(0, 0) =~= Seq::<Seq<char>>::empty());
    while i < k
        invariant
            k <= p@.len(),
            i <= k,
            out@ == join_segments(views(p@).subrange(0, i as int)),
        decreases k - i,
    {
        let ghost prev = views(p@).subrange(0, i as int);
        let ghost next = views(p@).subrange(0, i as int + 1);
        assert(next.drop_last() =~= prev);
        if i > 0 {
            out.push('/');
        }
        out.append(p[i].as_str());
        proof {
            if i == 0 {
                assert(out@ =~= next[0]);
            } else {
                assert(out@ =~= join_segments(prev) + seq!['/'] + next.last());
            }
        }
        i = i + 1;
    }
    out
}

/// The index of the parent of `index`, `None` for a top-level index.
pub fn parent_index(index: &str) -> (r: Option<String>)
    ensures
        match r {
            Some(p) => parent_of(index@) == Some(p@),
            None => parent_of(index@) is None,
        },
{
    let segs = split_index(index);
    if segs.len() <= 2 {
        return None;
    }
    let p = join_index(&segs, segs.len() - 1);
    assert(views(segs@).subrange(0, segs@.len() - 1) =~= segments(index@).drop_last());
    Some(p)
}

/// The last segment of an index.
pub fn index_tail(index: &str) -> (r: String)
    ensures
        r@ == segments(index@).last(),
{
    let mut segs = split_index(index);
    let last = segs.pop().unwrap();
    last
}

/// Appends `g` in groups of three digits counted from the right.
fn push_grouped(out: &mut String, g: &String)
    requires
        g@.len() >= 1,
    ensures
        final(out)@ == old(out)@ + grouped_digits(g@),
{
    let m = g.as_str().unicode_len();
    let first = (m - 1) % 3 + 1;
    let ghost base = out@;
    out.append(g.as_str().substring_char(0, first));
    assert(grouped_digits(g@.subrange(0, first as int)) == g@.subrange(0, first as int));
    let mut j: usize = first;
    while j < m
        invariant
            m == g@.len(),
            1 <= j <= m,
            (m - j) % 3 == 0,
            out@ == base + grouped_digits(g@.subrange(0, j as int)),
        decreases m - j,
    {
        let ghost prev = g@.subrange(0, j as int);
        let ghost next = g@.subrange(0, j as int + 3);
        assert(next.subrange(0, next.len() - 3) =~= prev);
        assert(next.subrange(next.len() - 3, next.len() as int) =~= g@.subrange(j as int, j as int + 3));
        out.push('.');
        out.append(g.as_str().substring_char(j, j + 3));
        assert(out@ =~= base + (grouped_digits(prev) + seq!['.'] + g@.subrange(j as int, j as int + 3)));
        j = j + 3;
    }
    assert(g@.subrange(0, m as int) =~= g@);
}

/// Encodes an index path into the grouped-decimal form of scry URLs:
/// `/12345678901234/1` becomes `/12.345.678.901.234/1`.
pub fn index_dec_to_ud(index: &str) -> (r: String)
    ensures
        r@ == ud_path(segments(index@)),
{
    let segs = split_index(index);
    let mut out = String::new();
    let mut k: usize = 0;
    assert(views(segs@).subrange(0, 0) =~= Seq::<Seq<char>>::empty());
    while k < segs.len()
        invariant
            k <= segs@.len(),
            out@ == ud_path(views(segs@).subrange(0, k as int)),
        decreases segs@.len() - k,
    {
        let ghost next = views(segs@).subrange(0, k as int + 1);
        assert(next.drop_last() =~= views(segs@).subrange(0, k as int));
        assert(next.last() == segs@[k as int]@);
        if segs[k].as_str().unicode_len() > 0 {
            let ghost before = out@;
            out.push('/');
            push_grouped(&mut out, &segs[k]);
            assert(out@ =~= before + seq!['/'] + grouped_digits(segs@[k as int]@));
        }
        k = k + 1;
    }
    assert(views(segs@).subrange(0, k as int) =~= views(segs@));
    out
}

/// Converts a Unix time in milliseconds into an Urbit `@da` date.
pub fn unix_time_to_da(unix_time: u64) -> (r: u128)
    ensures
        r == da_of_unix(unix_time),
{
    let t = unix_time as u128;
    assert(t * DA_SECOND <= u128::MAX) by (nonlinear_arith)
        requires
            t <= u64::MAX,
    ;
    let since_epoch = (t * DA_SECOND) / 1000;
    assert(since_epoch <= u128::MAX - DA_UNIX_EPOCH) by (nonlinear_arith)
        requires
            since_epoch == (t * DA_SECOND) / 1000,
            t <= u64::MAX,
    ;
    DA_UNIX_EPOCH + since_epoch
}

/// Mints the index of a new top-level node from a Unix time in
/// milliseconds: `/` and the decimal `@da` date of that instant.
pub fn mint_leaf_index(now_ms: u64) -> (r: String)
    ensures
        r@ == seq!['/'] + decimal(da_of_unix(now_ms) as nat),
{
    let mut s = String::new();
    s.push('/');
    push_decimal(&mut s, unix_time_to_da(now_ms));
    s
}

} // verus!
