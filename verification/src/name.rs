//! Dotted metric names and wildcard matching.
//!
//! A schema name is a sequence of dot-separated segments.  A literal segment
//! is a non-empty run of letters, digits, `-` and `_`; a wildcard segment is
//! exactly `*` or `#` and stands for any single literal segment of an actual
//! metric key.  Matching is a per-segment structural comparison: there is no
//! cross-segment wildcard and no partial-segment matching.

use vstd::prelude::*;

verus! {

/// Characters allowed inside a literal (non-wildcard) name segment.
pub open spec fn is_name_char(c: char) -> bool {
    let u = c as u32;
    (97 <= u && u <= 122)  // 'a'..='z'
    || (65 <= u && u <= 90)  // 'A'..='Z'
    || (48 <= u && u <= 57)  // '0'..='9'
    || u == 45  // '-'
    || u == 95  // '_'
}

/// A non-empty segment made only of literal name characters.
pub open spec fn is_literal_segment(seg: Seq<char>) -> bool {
    seg.len() > 0 && (forall|i: int| 0 <= i < seg.len() ==> is_name_char(#[trigger] seg[i]))
}

/// A segment that is exactly `*` or `#`.
pub open spec fn is_wildcard_segment(seg: Seq<char>) -> bool {
    seg == seq!['*'] || seg == seq!['#']
}

/// Splits a name into its dot-separated segments, the way `split('.')`
/// does: the empty name has one empty segment, and every dot separates
/// two (possibly empty) segments.
pub open spec fn split_name(s: Seq<char>) -> Seq<Seq<char>>
    decreases s.len(),
{
    if s.len() == 0 {
        seq![Seq::<char>::empty()]
    } else if s[0] == '.' {
        seq![Seq::<char>::empty()] + split_name(s.drop_first())
    } else {
        let rest = split_name(s.drop_first());
        rest.update(0, seq![s[0]] + rest[0])
    }
}

pub proof fn lemma_split_name_len(s: Seq<char>)
    ensures
        split_name(s).len() >= 1,
    decreases s.len(),
{
    if s.len() == 0 {
    } else {
        lemma_split_name_len(s.drop_first());
    }
}

/// If the first `d` characters of `t` hold no dot and `t[d]` is a dot (or `d`
/// is the end), then the first segment of `t` is exactly `t[0..d]`.
pub proof fn lemma_split_prefix(t: Seq<char>, d: int)
    requires
        0 <= d <= t.len(),
        forall|i: int| 0 <= i < d ==> t[i] != '.',
        d == t.len() || t[d] == '.',
    ensures
        d == t.len() ==> split_name(t) == seq![t],
        d < t.len() ==> split_name(t) == seq![t.subrange(0, d)] + split_name(
            t.subrange(d + 1, t.len() as int),
        ),
    decreases d,
{
    lemma_split_name_len(t);
    if d == 0 {
        if d == t.len() {
            assert(t == Seq::<char>::empty());
            assert(split_name(t) =~= seq![t]);
        } else {
            assert(t[0] == '.');
            assert(t.drop_first() =~= t.subrange(1, t.len() as int));
            assert(t.subrange(0, 0) =~= Seq::<char>::empty());
            assert(split_name(t) =~= seq![t.subrange(0, 0)] + split_name(
                t.subrange(d + 1, t.len() as int),
            ));
        }
    } else {
        let t2 = t.drop_first();
        lemma_split_name_len(t2);
        lemma_split_prefix(t2, d - 1);
        let rest = split_name(t2);
        assert(t[0] != '.');
        assert(split_name(t) == rest.update(0, seq![t[0]] + rest[0]));
        if d == t.len() {
            assert(rest == seq![t2]);
            assert(seq![t[0]] + t2 =~= t);
            assert(split_name(t) =~= seq![t]);
        } else {
            let head2 = t2.subrange(0, d - 1);
            let tail2 = t2.subrange(d, t2.len() as int);
            assert(rest == seq![head2] + split_name(tail2));
            assert(rest[0] == head2);
            assert(seq![t[0]] + head2 =~= t.subrange(0, d));
            assert(tail2 =~= t.subrange(d + 1, t.len() as int));
            assert(rest.update(0, seq![t[0]] + rest[0]) =~= seq![t.subrange(0, d)] + split_name(
                t.subrange(d + 1, t.len() as int),
            ));
        }
    }
}

/// Splitting distributes over joining two names with a dot.
pub proof fn lemma_split_dot_concat(a: Seq<char>, b: Seq<char>)
    ensures
        split_name(a + seq!['.'] + b) == split_name(a) + split_name(b),
    decreases a.len(),
{
    let s = a + seq!['.'] + b;
    if a.len() == 0 {
        assert(s[0] == '.');
        assert(s.drop_first() =~= b);
        assert(split_name(s) == seq![Seq::<char>::empty()] + split_name(b));
        assert(split_name(a) =~= seq![Seq::<char>::empty()]);
    } else {
        let a2 = a.drop_first();
        lemma_split_dot_concat(a2, b);
        lemma_split_name_len(a2);
        lemma_split_name_len(a2 + seq!['.'] + b);
        assert(s.drop_first() =~= a2 + seq!['.'] + b);
        if a[0] == '.' {
            assert(s[0] == '.');
            assert(split_name(s) == seq![Seq::<char>::empty()] + (split_name(a2) + split_name(b)));
            assert(split_name(a) == seq![Seq::<char>::empty()] + split_name(a2));
            assert(seq![Seq::<char>::empty()] + (split_name(a2) + split_name(b)) =~= (seq![
                Seq::<char>::empty(),
            ] + split_name(a2)) + split_name(b));
        } else {
            assert(s[0] == a[0]);
            let rest = split_name(a2) + split_name(b);
            assert(split_name(s) == rest.update(0, seq![a[0]] + rest[0]));
            let resta = split_name(a2);
            assert(rest[0] == resta[0]);
            assert(split_name(a) == resta.update(0, seq![a[0]] + resta[0]));
            assert(rest.update(0, seq![a[0]] + rest[0]) =~= resta.update(
                0,
                seq![a[0]] + resta[0],
            ) + split_name(b));
        }
    }
}

/// Joins segments back into a dotted name.
pub open spec fn join_segments(segs: Seq<Seq<char>>) -> Seq<char>
    decreases segs.len(),
{
    if segs.len() == 0 {
        Seq::empty()
    } else if segs.len() == 1 {
        segs[0]
    } else {
        segs[0] + seq!['.'] + join_segments(segs.drop_first())
    }
}

/// Joining the segments of a name gives the name back, so two names with
/// equal segment sequences are equal.
pub proof fn lemma_join_split(s: Seq<char>)
    ensures
        join_segments(split_name(s)) == s,
    decreases s.len(),
{
    if s.len() == 0 {
    } else {
        let s2 = s.drop_first();
        lemma_join_split(s2);
        lemma_split_name_len(s2);
        let rest = split_name(s2);
        if s[0] == '.' {
            assert(split_name(s) == seq![Seq::<char>::empty()] + rest);
            let segs = seq![Seq::<char>::empty()] + rest;
            assert(segs.len() >= 2);
            assert(segs.drop_first() =~= rest);
            assert(segs[0] + seq!['.'] + join_segments(rest) =~= s);
        } else {
            let segs = rest.update(0, seq![s[0]] + rest[0]);
            assert(split_name(s) == segs);
            if rest.len() == 1 {
                assert(segs.len() == 1);
                assert(segs[0] =~= seq![s[0]] + rest[0]);
                assert(join_segments(rest) == rest[0]);
                assert(seq![s[0]] + rest[0] =~= s);
            } else {
                assert(segs.len() >= 2);
                assert(segs.drop_first() =~= rest.drop_first());
                assert(join_segments(segs) == segs[0] + seq!['.'] + join_segments(
                    segs.drop_first(),
                ));
                assert(join_segments(rest) == rest[0] + seq!['.'] + join_segments(
                    rest.drop_first(),
                ));
                assert(segs[0] + seq!['.'] + join_segments(rest.drop_first()) =~= seq![s[0]] + (
                rest[0] + seq!['.'] + join_segments(rest.drop_first())));
                assert(seq![s[0]] + s2 =~= s);
            }
        }
    }
}

/// One pattern segment against one key segment: a wildcard stands for any
/// literal segment, anything else must be equal character for character.
pub open spec fn segment_matches(pat: Seq<char>, key: Seq<char>) -> bool {
    if is_wildcard_segment(pat) {
        is_literal_segment(key)
    } else {
        pat == key
    }
}

/// The whole-name matching relation: same number of segments, and every
/// segment pair matches.
pub open spec fn name_matches(pat: Seq<char>, key: Seq<char>) -> bool {
    let ps = split_name(pat);
    let ks = split_name(key);
    ps.len() == ks.len() && (forall|i: int|
        0 <= i < ps.len() ==> segment_matches(ps[i], #[trigger] ks[i]))
}

/// A metric name is a single segment: either literal or a lone wildcard.
pub open spec fn valid_metric_name(s: Seq<char>) -> bool {
    is_literal_segment(s) || is_wildcard_segment(s)
}

/// A well-formed dotted pattern: every segment literal or wildcard.  This
/// excludes empty segments, so the name is non-empty and neither starts nor
/// ends with a dot.
pub open spec fn valid_pattern(s: Seq<char>) -> bool {
    forall|i: int|
        0 <= i < split_name(s).len() ==> is_literal_segment(#[trigger] split_name(s)[i])
            || is_wildcard_segment(split_name(s)[i])
}

/// A graph name is a well-formed pattern, or empty (meaning "root").
pub open spec fn valid_graph_name(s: Seq<char>) -> bool {
    s.len() == 0 || valid_pattern(s)
}

/// Whether any segment of the pattern is a wildcard.
pub open spec fn has_wildcard_segment(s: Seq<char>) -> bool {
    exists|i: int| 0 <= i < split_name(s).len() && is_wildcard_segment(#[trigger] split_name(s)[i])
}

/// Law: a well-formed pattern without wildcard segments denotes exactly the
/// single key equal to itself.
pub proof fn lemma_literal_pattern_matches_only_itself(pat: Seq<char>, key: Seq<char>)
    requires
        valid_pattern(pat),
        !has_wildcard_segment(pat),
        name_matches(pat, key),
    ensures
        pat == key,
{
    let ps = split_name(pat);
    let ks = split_name(key);
    assert forall|i: int| 0 <= i < ps.len() implies ps[i] == ks[i] by {
        assert(segment_matches(ps[i], ks[i]));
        assert(!is_wildcard_segment(ps[i]));
    }
    assert(ps =~= ks);
    lemma_join_split(pat);
    lemma_join_split(key);
}

/// Law: a wildcard segment only ever stands for a non-empty segment made of
/// literal name characters, so it never matches an empty segment and never
/// spans a dot.
pub proof fn lemma_wildcard_matches_literal_segment(pat: Seq<char>, key: Seq<char>, i: int)
    requires
        name_matches(pat, key),
        0 <= i < split_name(pat).len(),
        is_wildcard_segment(split_name(pat)[i]),
    ensures
        is_literal_segment(split_name(key)[i]),
        split_name(key)[i].len() > 0,
        forall|j: int|
            0 <= j < split_name(key)[i].len() ==> is_name_char(#[trigger] split_name(key)[i][j]),
{
    assert(segment_matches(split_name(pat)[i], split_name(key)[i]));
}

/// Joining a graph name and a metric name keeps every segment well formed.
pub proof fn lemma_dot_join_valid(g: Seq<char>, m: Seq<char>)
    requires
        valid_graph_name(g),
        valid_metric_name(m),
    ensures
        valid_pattern(dot_join(g, m)),
{
    if g.len() == 0 {
        assert(dot_join(g, m) == m);
        assert forall|i: int| 0 <= i < split_name(m).len() implies is_literal_segment(
            #[trigger] split_name(m)[i],
        ) || is_wildcard_segment(split_name(m)[i]) by {
            lemma_single_segment(m);
        }
    } else {
        lemma_split_dot_concat(g, m);
        lemma_single_segment(m);
        let segs = split_name(dot_join(g, m));
        let gs = split_name(g);
        assert forall|i: int| 0 <= i < segs.len() implies is_literal_segment(#[trigger] segs[i])
            || is_wildcard_segment(segs[i]) by {
            if i < gs.len() {
                assert(segs[i] == gs[i]);
            } else {
                assert(segs[i] == split_name(m)[i - gs.len()]);
            }
        }
    }
}

/// A name whose characters are all literal, or a lone wildcard, has exactly
/// one segment: itself.
pub proof fn lemma_single_segment(m: Seq<char>)
    requires
        valid_metric_name(m),
    ensures
        split_name(m) == seq![m],
{
    assert forall|i: int| 0 <= i < m.len() implies m[i] != '.' by {
        if is_literal_segment(m) {
            assert(is_name_char(m[i]));
        } else {
            assert(m == seq!['*'] || m == seq!['#']);
        }
    }
    lemma_split_prefix(m, m.len() as int);
}

/// Joins two names with a dot, leaving the second alone when the first is
/// empty.  Used both for the graph-name prefix of a metric name and for the
/// plugin key prefix of an output name.
pub open spec fn dot_join(a: Seq<char>, b: Seq<char>) -> Seq<char> {
    if a.len() == 0 {
        b
    } else {
        a + seq!['.'] + b
    }
}

/// The name under which a graph is reported: the plugin key prefix, the
/// graph name, or the two joined with a dot, depending on which are empty.
pub open spec fn qualify(prefix: Seq<char>, gname: Seq<char>) -> Seq<char> {
    if prefix.len() == 0 {
        gname
    } else if gname.len() == 0 {
        prefix
    } else {
        prefix + seq!['.'] + gname
    }
}

/// Whether `p` is a prefix of `s`.
pub open spec fn starts_with(s: Seq<char>, p: Seq<char>) -> bool {
    s.len() >= p.len() && s.subrange(0, p.len() as int) == p
}

/// Executable check for a literal-segment character.
pub fn name_char(c: char) -> (r: bool)
    ensures
        r == is_name_char(c),
{
    let u = c as u32;
    (97 <= u && u <= 122) || (65 <= u && u <= 90) || (48 <= u && u <= 57) || u == 45 || u == 95
}

/// Character-for-character string equality.
pub fn str_eq(a: &str, b: &str) -> (r: bool)
    ensures
        r == (a@ == b@),
{
    let an = a.unicode_len();
    let bn = b.unicode_len();
    if an != bn {
        return false;
    }
    let mut i: usize = 0;
    while i < an
        invariant
            0 <= i <= an,
            an == a@.len(),
            an == b@.len(),
            forall|j: int| 0 <= j < i ==> a@[j] == b@[j],
        decreases an - i,
    {
        if a.get_char(i) != b.get_char(i) {
            return false;
        }
        i = i + 1;
    }
    proof {
        assert(a@ =~= b@);
    }
    true
}

/// The positions `(start, end)` of the dot-separated segments of `s`, in
/// character indices, matching `split_name(s@)` element for element.
fn split_positions(s: &str) -> (segs: Vec<(usize, usize)>)
    ensures
        segs@.len() == split_name(s@).len(),
        forall|i: int|
            0 <= i < segs@.len() ==> {
                &&& 0 <= #[trigger] segs@[i].0 <= segs@[i].1 <= s@.len()
                &&& s@.subrange(segs@[i].0 as int, segs@[i].1 as int) == split_name(s@)[i]
            },
{
    let n = s.unicode_len();
    let mut segs: Vec<(usize, usize)> = Vec::new();
    let mut start: usize = 0;
    let mut j: usize = 0;
    proof {
        assert(s@.subrange(0, n as int) =~= s@);
        assert(segs@.map_values(|p: (usize, usize)| s@.subrange(p.0 as int, p.1 as int)) =~= Seq::<
            Seq<char>,
        >::empty());
    }
    while j < n
        invariant
            0 <= start <= j <= n,
            n == s@.len(),
            forall|i: int| start <= i < j ==> s@[i] != '.',
            split_name(s@) == segs@.map_values(
                |p: (usize, usize)| s@.subrange(p.0 as int, p.1 as int),
            ) + split_name(s@.subrange(start as int, n as int)),
            forall|i: int|
                0 <= i < segs@.len() ==> 0 <= #[trigger] segs@[i].0 <= segs@[i].1 <= s@.len(),
        decreases n - j,
    {
        if s.get_char(j) == '.' {
            proof {
                let tail = s@.subrange(start as int, n as int);
                lemma_split_prefix(tail, j - start);
                assert(tail.subrange(0, j - start) =~= s@.subrange(start as int, j as int));
                assert(tail.subrange(j - start + 1, tail.len() as int) =~= s@.subrange(
                    j + 1,
                    n as int,
                ));
                let before = segs@.map_values(
                    |p: (usize, usize)| s@.subrange(p.0 as int, p.1 as int),
                );
                let after = segs@.push((start, j)).map_values(
                    |p: (usize, usize)| s@.subrange(p.0 as int, p.1 as int),
                );
                assert(after =~= before + seq![s@.subrange(start as int, j as int)]);
                assert((before + seq![s@.subrange(start as int, j as int)]) + split_name(
                    s@.subrange(j + 1, n as int),
                ) =~= before + (seq![s@.subrange(start as int, j as int)] + split_name(
                    s@.subrange(j + 1, n as int),
                )));
            }
            segs.push((start, j));
            start = j + 1;
        }
        j = j + 1;
    }
    proof {
        let tail = s@.subrange(start as int, n as int);
        lemma_split_prefix(tail, n - start);
        assert(tail.subrange(0, n - start) =~= tail);
        let before = segs@.map_values(|p: (usize, usize)| s@.subrange(p.0 as int, p.1 as int));
        let after = segs@.push((start, n)).map_values(
            |p: (usize, usize)| s@.subrange(p.0 as int, p.1 as int),
        );
        assert(after =~= before + seq![tail]);
    }
    segs.push((start, n));
    proof {
        let segsm = segs@.map_values(|p: (usize, usize)| s@.subrange(p.0 as int, p.1 as int));
        assert forall|i: int| 0 <= i < segs@.len() implies s@.subrange(
            #[trigger] segs@[i].0 as int,
            segs@[i].1 as int,
        ) == split_name(s@)[i] by {
            assert(segsm[i] == s@.subrange(segs@[i].0 as int, segs@[i].1 as int));
        }
    }
    segs
}

/// Whether the characters of `s` in `[a, b)` are exactly a lone `*` or `#`.
fn segment_is_wildcard(s: &str, a: usize, b: usize) -> (r: bool)
    requires
        a <= b <= s@.len(),
    ensures
        r == is_wildcard_segment(s@.subrange(a as int, b as int)),
{
    proof {
        assert(seq!['*'].len() == 1);
        assert(seq!['#'].len() == 1);
        assert(seq!['*'][0] == '*');
        assert(seq!['#'][0] == '#');
    }
    if b - a != 1 {
        proof {
            assert(s@.subrange(a as int, b as int).len() != 1);
        }
        return false;
    }
    let c = s.get_char(a);
    proof {
        let seg = s@.subrange(a as int, b as int);
        assert(seg.len() == 1);
        assert(seg[0] == s@[a as int]);
        if c == '*' {
            assert(seg =~= seq!['*']);
        } else if c == '#' {
            assert(seg =~= seq!['#']);
        }
    }
    c == '*' || c == '#'
}

/// Whether the characters of `s` in `[a, b)` form a literal segment.
fn segment_is_literal(s: &str, a: usize, b: usize) -> (r: bool)
    requires
        a <= b <= s@.len(),
    ensures
        r == is_literal_segment(s@.subrange(a as int, b as int)),
{
    let seg_len = b - a;
    if seg_len == 0 {
        return false;
    }
    let mut i: usize = 0;
    while i < seg_len
        invariant
            0 <= i <= seg_len,
            a + seg_len == b <= s@.len(),
            forall|j: int| 0 <= j < i ==> is_name_char(#[trigger] s@.subrange(a as int, b as int)[j]),
        decreases seg_len - i,
    {
        let c = s.get_char(a + i);
        proof {
            assert(s@.subrange(a as int, b as int)[i as int] == s@[a + i]);
        }
        if !name_char(c) {
            return false;
        }
        i = i + 1;
    }
    true
}

/// Character-for-character equality of `p[pa..pb)` and `k[ka..kb)`.
fn segment_eq(p: &str, pa: usize, pb: usize, k: &str, ka: usize, kb: usize) -> (r: bool)
    requires
        pa <= pb <= p@.len(),
        ka <= kb <= k@.len(),
    ensures
        r == (p@.subrange(pa as int, pb as int) == k@.subrange(ka as int, kb as int)),
{
    if pb - pa != kb - ka {
        proof {
            assert(p@.subrange(pa as int, pb as int).len() != k@.subrange(
                ka as int,
                kb as int,
            ).len());
        }
        return false;
    }
    let seg_len = pb - pa;
    let mut i: usize = 0;
    while i < seg_len
        invariant
            0 <= i <= seg_len,
            pa + seg_len == pb <= p@.len(),
            ka + seg_len == kb <= k@.len(),
            forall|j: int|
                0 <= j < i ==> p@.subrange(pa as int, pb as int)[j] == #[trigger] k@.subrange(
                    ka as int,
                    kb as int,
                )[j],
        decreases seg_len - i,
    {
        let pc = p.get_char(pa + i);
        let kc = k.get_char(ka + i);
        proof {
            assert(p@.subrange(pa as int, pb as int)[i as int] == p@[pa + i]);
            assert(k@.subrange(ka as int, kb as int)[i as int] == k@[ka + i]);
        }
        if pc != kc {
            return false;
        }
        i = i + 1;
    }
    proof {
        assert(p@.subrange(pa as int, pb as int) =~= k@.subrange(ka as int, kb as int));
    }
    true
}

/// Whether `key` is one of the keys that the pattern denotes: the same
/// number of segments, every literal segment equal, and a non-empty literal
/// key segment at every wildcard position.
pub fn key_matches(pattern: &str, key: &str) -> (r: bool)
    ensures
        r == name_matches(pattern@, key@),
{
    let ps = split_positions(pattern);
    let ks = split_positions(key);
    if ps.len() != ks.len() {
        return false;
    }
    let n = ps.len();
    let mut i: usize = 0;
    while i < n
        invariant
            0 <= i <= n,
            n == ps@.len() == ks@.len(),
            ps@.len() == split_name(pattern@).len(),
            ks@.len() == split_name(key@).len(),
            forall|j: int|
                0 <= j < ps@.len() ==> {
                    &&& 0 <= #[trigger] ps@[j].0 <= ps@[j].1 <= pattern@.len()
                    &&& pattern@.subrange(ps@[j].0 as int, ps@[j].1 as int) == split_name(
                        pattern@,
                    )[j]
                },
            forall|j: int|
                0 <= j < ks@.len() ==> {
                    &&& 0 <= #[trigger] ks@[j].0 <= ks@[j].1 <= key@.len()
                    &&& key@.subrange(ks@[j].0 as int, ks@[j].1 as int) == split_name(key@)[j]
                },
            forall|j: int|
                0 <= j < i ==> segment_matches(
                    split_name(pattern@)[j],
                    #[trigger] split_name(key@)[j],
                ),
        decreases n - i,
    {
        let (pa, pb) = ps[i];
        let (ka, kb) = ks[i];
        let ok = if segment_is_wildcard(pattern, pa, pb) {
            segment_is_literal(key, ka, kb)
        } else {
            segment_eq(pattern, pa, pb, key, ka, kb)
        };
        if !ok {
            return false;
        }
        i = i + 1;
    }
    true
}

/// Executable check for a valid metric name.
pub fn is_valid_metric_name(s: &str) -> (r: bool)
    ensures
        r == valid_metric_name(s@),
{
    let n = s.unicode_len();
    if segment_is_wildcard(s, 0, n) {
        proof {
            assert(s@.subrange(0, n as int) =~= s@);
        }
        return true;
    }
    let r = segment_is_literal(s, 0, n);
    proof {
        assert(s@.subrange(0, n as int) =~= s@);
    }
    r
}

/// Executable check for a valid graph name (empty allowed).
pub fn is_valid_graph_name(s: &str) -> (r: bool)
    ensures
        r == valid_graph_name(s@),
{
    if s.unicode_len() == 0 {
        return true;
    }
    let segs = split_positions(s);
    let n = segs.len();
    let mut i: usize = 0;
    while i < n
        invariant
            0 <= i <= n,
            s@.len() != 0,
            n == segs@.len() == split_name(s@).len(),
            forall|j: int|
                0 <= j < segs@.len() ==> {
                    &&& 0 <= #[trigger] segs@[j].0 <= segs@[j].1 <= s@.len()
                    &&& s@.subrange(segs@[j].0 as int, segs@[j].1 as int) == split_name(s@)[j]
                },
            forall|j: int|
                0 <= j < i ==> is_literal_segment(#[trigger] split_name(s@)[j])
                    || is_wildcard_segment(split_name(s@)[j]),
        decreases n - i,
    {
        let (a, b) = segs[i];
        if !segment_is_wildcard(s, a, b) {
            if !segment_is_literal(s, a, b) {
                proof {
                    assert(s@.len() != 0);
                    assert(!(is_literal_segment(split_name(s@)[i as int])
                        || is_wildcard_segment(split_name(s@)[i as int])));
                    assert(!valid_pattern(s@));
                }
                return false;
            }
        }
        i = i + 1;
    }
    true
}

/// Joins two names with a dot, leaving the second alone when the first is
/// empty: the effective name of a metric under a graph, and likewise the
/// prefixed output name of a matched key.
pub fn join_with_dot(a: &str, b: &str) -> (r: String)
    ensures
        r@ == dot_join(a@, b@),
{
    if a.unicode_len() == 0 {
        String::from_str(b)
    } else {
        let mut s = String::from_str(a);
        s.append(".");
        s.append(b);
        proof {
            reveal_strlit(".");
            assert("."@ =~= seq!['.']);
        }
        s
    }
}

/// The fully qualified name under which a graph is reported.
pub fn qualified_graph_name(prefix: &str, graph_name: &str) -> (r: String)
    ensures
        r@ == qualify(prefix@, graph_name@),
{
    if prefix.unicode_len() == 0 {
        String::from_str(graph_name)
    } else if graph_name.unicode_len() == 0 {
        String::from_str(prefix)
    } else {
        let mut s = String::from_str(prefix);
        s.append(".");
        s.append(graph_name);
        proof {
            reveal_strlit(".");
            assert("."@ =~= seq!['.']);
        }
        s
    }
}

/// Whether `s` starts with the prefix `p`, character for character.
pub fn str_starts_with(s: &str, p: &str) -> (r: bool)
    ensures
        r == starts_with(s@, p@),
{
    let sn = s.unicode_len();
    let pn = p.unicode_len();
    if sn < pn {
        return false;
    }
    let mut i: usize = 0;
    while i < pn
        invariant
            0 <= i <= pn,
            pn == p@.len() <= s@.len(),
            sn == s@.len(),
            forall|j: int| 0 <= j < i ==> s@[j] == p@[j],
        decreases pn - i,
    {
        if s.get_char(i) != p.get_char(i) {
            proof {
                assert(s@.subrange(0, p@.len() as int)[i as int] != p@[i as int]);
            }
            return false;
        }
        i = i + 1;
    }
    proof {
        assert(s@.subrange(0, p@.len() as int) =~= p@);
    }
    true
}

} // verus!


