//! Splitting separator-delimited text into non-empty segments, and joining
//! segments back. Used for `/`-separated file paths and for newline-separated
//! command output; empty segments (from leading, trailing or doubled
//! separators) are collapsed.
use vstd::prelude::*;

verus! {

/// The views of a list of strings.
pub open spec fn seg_views(v: Seq<String>) -> Seq<Seq<char>> {
    v.map_values(|t: String| t@)
}

/// The non-empty segments of `s`, in order, when `s` is cut at every `sep`.
pub open spec fn split_nonempty(s: Seq<char>, sep: char) -> Seq<Seq<char>>
    decreases s.len(),
{
    if s.len() == 0 {
        Seq::empty()
    } else if s.last() == sep {
        split_nonempty(s.drop_last(), sep)
    } else if s.len() == 1 || s[s.len() - 2] == sep {
        split_nonempty(s.drop_last(), sep).push(seq![s.last()])
    } else {
        let r = split_nonempty(s.drop_last(), sep);
        r.update(r.len() - 1, r.last().push(s.last()))
    }
}

/// Segments put back together with `/` between them.
pub open spec fn joined(p: Seq<Seq<char>>) -> Seq<char>
    decreases p.len(),
{
    if p.len() == 0 {
        Seq::empty()
    } else if p.len() == 1 {
        p[0]
    } else {
        joined(p.drop_last()) + "/"@ + p.last()
    }
}

/// A path with no leading, trailing or doubled separators: splitting such a
/// path and joining the segments gives it back unchanged.
pub open spec fn normalized_path(s: Seq<char>) -> bool {
    s.len() > 0 && s[0] != '/' && s[s.len() - 1] != '/' && (forall|j: int|
        0 <= j < s.len() - 1 ==> !(#[trigger] s[j] == '/' && s[j + 1] == '/'))
}

proof fn lemma_joined_extend(parts: Seq<Seq<char>>, c: char)
    requires
        parts.len() > 0,
    ensures
        joined(parts.update(parts.len() - 1, parts.last().push(c))) == joined(parts).push(c),
{
    let upd = parts.update(parts.len() - 1, parts.last().push(c));
    if parts.len() == 1 {
        assert(joined(upd) =~= joined(parts).push(c));
    } else {
        assert(upd.drop_last() =~= parts.drop_last());
        assert(upd.last() == parts.last().push(c));
        assert(joined(upd) == joined(parts.drop_last()) + "/"@ + parts.last().push(c));
        assert(joined(parts.drop_last()) + "/"@ + parts.last().push(c) =~= (joined(
            parts.drop_last(),
        ) + "/"@ + parts.last()).push(c));
    }
}

proof fn lemma_split_last_nonempty(s: Seq<char>, sep: char)
    requires
        s.len() > 0,
        s.last() != sep,
    ensures
        split_nonempty(s, sep).len() > 0,
    decreases s.len(),
{
    if s.len() == 1 || s[s.len() - 2] == sep {
    } else {
        lemma_split_last_nonempty(s.drop_last(), sep);
    }
}

/// Law: joining undoes splitting — a path with no leading, trailing or
/// doubled separators is recovered, unchanged, from its segment list.
pub proof fn lemma_join_split(s: Seq<char>)
    requires
        normalized_path(s),
    ensures
        split_nonempty(s, '/').len() > 0,
        joined(split_nonempty(s, '/')) == s,
    decreases s.len(),
{
    reveal_strlit("/");
    let parts = split_nonempty(s, '/');
    assert(s.last() != '/');
    lemma_split_last_nonempty(s, '/');
    if s.len() == 1 {
        assert(s.drop_last().len() == 0);
        assert(split_nonempty(s.drop_last(), '/') =~= Seq::<Seq<char>>::empty());
        assert(parts == split_nonempty(s.drop_last(), '/').push(seq![s.last()]));
        assert(parts.len() == 1);
        assert(parts[0] == seq![s.last()]);
        assert(joined(parts) == parts[0]);
        assert(joined(parts) =~= s);
    } else if s[s.len() - 2] == '/' {
        let s1 = s.drop_last();
        let s2 = s1.drop_last();
        assert(s.len() >= 3) by {
            assert(s[0] != '/');
        }
        assert(s2.len() == s.len() - 2);
        assert(s2[0] == s[0]);
        assert(s2[s2.len() - 1] == s[s.len() - 3]);
        assert(s[s.len() - 3] != '/') by {
            assert(!(s[s.len() - 3] == '/' && s[s.len() - 2] == '/'));
        }
        assert(normalized_path(s2));
        lemma_join_split(s2);
        assert(s1.last() == '/');
        assert(split_nonempty(s1, '/') == split_nonempty(s2, '/'));
        assert(parts == split_nonempty(s1, '/').push(seq![s.last()]));
        let base = split_nonempty(s2, '/');
        assert(parts.len() >= 2);
        assert(parts.drop_last() =~= base);
        assert(parts.last() =~= seq![s.last()]);
        assert(joined(parts) == joined(base) + "/"@ + parts.last());
        assert(joined(base) + "/"@ + parts.last() =~= s);
    } else {
        let s1 = s.drop_last();
        assert(s1.len() > 0);
        assert(s1[0] == s[0]);
        assert(s1[s1.len() - 1] == s[s.len() - 2]);
        assert(normalized_path(s1));
        lemma_join_split(s1);
        let r = split_nonempty(s1, '/');
        assert(parts == r.update(r.len() - 1, r.last().push(s.last())));
        lemma_joined_extend(r, s.last());
        assert(joined(parts) == joined(r).push(s.last()));
        assert(joined(r).push(s.last()) =~= s);
    }
}

/// Joins segments into one path with `/` between them.
pub fn join_path(segs: &Vec<String>) -> (r: String)
    ensures
        r@ == joined(seg_views(segs@)),
{
    let mut r = String::new();
    let n = segs.len();
    let mut j: usize = 0;
    proof {
        assert(seg_views(segs@).subrange(0, 0) =~= Seq::<Seq<char>>::empty());
        assert(r@ =~= joined(seg_views(segs@).subrange(0, 0)));
    }
    while j < n
        invariant
            j <= n,
            n == segs@.len(),
            r@ == joined(seg_views(segs@).subrange(0, j as int)),
        decreases n - j,
    {
        if j > 0 {
            r.append("/");
        }
        r.append(segs[j].as_str());
        proof {
            let sv = seg_views(segs@);
            let pre = sv.subrange(0, j as int);
            let ext = pre.push(sv[j as int]);
            assert(sv.subrange(0, j + 1) =~= ext);
            assert(ext.drop_last() =~= pre);
            assert(ext.last() == sv[j as int]);
            if j == 0 {
                assert(joined(ext) == sv[0]);
                assert(r@ =~= joined(sv.subrange(0, j + 1)));
            } else {
                assert(joined(ext) == joined(pre) + "/"@ + sv[j as int]);
                assert(r@ =~= joined(sv.subrange(0, j + 1)));
            }
        }
        j = j + 1;
    }
    proof {
        assert(seg_views(segs@).subrange(0, n as int) =~= seg_views(segs@));
    }
    r
}

/// Cuts `s` at every occurrence of `sep` and returns the non-empty pieces.
pub fn split_str(s: &str, sep: char) -> (segs: Vec<String>)
    ensures
        seg_views(segs@) == split_nonempty(s@, sep),
{
    let n = s.unicode_len();
    let mut segs: Vec<String> = Vec::new();
    let mut start: usize = 0;
    let mut i: usize = 0;
    proof {
        assert(s@.take(0) =~= Seq::<char>::empty());
        assert(seg_views(segs@) =~= Seq::<Seq<char>>::empty());
    }
    while i < n
        invariant
            start <= i <= n,
            n == s@.len(),
            start == i ==> (i == 0 || s@[i - 1] == sep),
            start == i ==> split_nonempty(s@.take(i as int), sep) == seg_views(segs@),
            start < i ==> forall|j: int| start <= j < i ==> s@[j] != sep,
            start < i ==> split_nonempty(s@.take(i as int), sep) == seg_views(segs@).push(
                s@.subrange(start as int, i as int),
            ),
        decreases n - i,
    {
        let c = s.get_char(i);
        proof {
            assert(s@.take(i + 1).drop_last() =~= s@.take(i as int));
            assert(s@.take(i + 1).last() == s@[i as int]);
            if i > 0 {
                assert(s@.take(i + 1)[i - 1] == s@[i - 1]);
            }
        }
        if c == sep {
            if start < i {
                let seg = s.substring_char(start, i).to_owned();
                let ghost old_views = seg_views(segs@);
                segs.push(seg);
                proof {
                    assert(seg_views(segs@) =~= old_views.push(seg@));
                }
            }
        } else {
            if start == i {
                proof {
                    assert(split_nonempty(s@.take(i + 1), sep) == split_nonempty(
                        s@.take(i as int),
                        sep,
                    ).push(seq![s@[i as int]]));
                    assert(s@.subrange(start as int, i + 1) =~= seq![s@[i as int]]);
                }
            } else {
                proof {
                    let r = split_nonempty(s@.take(i as int), sep);
                    assert(s@.take(i + 1)[i - 1] == s@[i - 1]);
                    assert(s@[i - 1] != sep);
                    assert(split_nonempty(s@.take(i + 1), sep) == r.update(
                        r.len() - 1,
                        r.last().push(s@[i as int]),
                    ));
                    assert(r.last() == s@.subrange(start as int, i as int));
                    assert(r.update(r.len() - 1, r.last().push(s@[i as int])) =~= seg_views(
                        segs@,
                    ).push(s@.subrange(start as int, i as int).push(s@[i as int])));
                    assert(s@.subrange(start as int, i + 1) =~= s@.subrange(
                        start as int,
                        i as int,
                    ).push(s@[i as int]));
                }
            }
        }
        if c == sep {
            start = i + 1;
        }
        i = i + 1;
    }
    proof {
        assert(s@.take(n as int) =~= s@);
    }
    if start < n {
        let seg = s.substring_char(start, n).to_owned();
        let ghost old_views = seg_views(segs@);
        segs.push(seg);
        proof {
            assert(seg_views(segs@) =~= old_views.push(seg@));
        }
    }
    segs
}

} // verus!
