//! The path model: separators, segments, joining, and pattern expansion.
//!
//! A path string is modelled as the sequence of its segments: the maximal
//! runs of characters between `/` separators, with empty runs dropped. A
//! segment equal to `.` or `..` is an ordinary segment at this level; the
//! entry-name cleaning rules give them meaning. Pattern expansion and entry
//! counting both work over this model, so two spellings of the same path
//! (`a//b`, `a/b`, `a/b/`) count as one.

use vstd::prelude::*;

use crate::errors::ArchiveError;

verus! {

// ---------------------------------------------------------------------------
// Spec model
// ---------------------------------------------------------------------------

/// The path with every backslash replaced by a forward slash.
pub open spec fn slashed(s: Seq<char>) -> Seq<char> {
    s.map_values(|c: char| if c == '\\' { '/' } else { c })
}

/// The normal form of a caller-supplied pattern: separators unified and a
/// single leading `./` removed.
pub open spec fn norm_spec(s: Seq<char>) -> Seq<char> {
    let t = slashed(s);
    if t.len() >= 2 && t[0] == '.' && t[1] == '/' {
        t.skip(2)
    } else {
        t
    }
}

/// The segments of a path: maximal nonempty runs of characters between `/`
/// separators.
pub open spec fn segs(s: Seq<char>) -> Seq<Seq<char>>
    decreases s.len(),
{
    if s.len() == 0 {
        Seq::empty()
    } else {
        let r = segs(s.drop_last());
        if s.last() == '/' {
            r
        } else if s.len() == 1 || s[s.len() - 2] == '/' {
            r.push(seq![s.last()])
        } else {
            r.drop_last().push(r.last().push(s.last()))
        }
    }
}

/// Segments joined with a single `/` between them.
pub open spec fn seg_join(parts: Seq<Seq<char>>) -> Seq<char>
    decreases parts.len(),
{
    if parts.len() == 0 {
        Seq::empty()
    } else if parts.len() == 1 {
        parts[0]
    } else {
        seg_join(parts.drop_last()) + seq!['/'] + parts.last()
    }
}

/// Every prefix of the path's segment list, joined back into a string, from
/// the first segment alone up to the whole path.
pub open spec fn prefix_seq(p: Seq<char>) -> Seq<Seq<char>> {
    Seq::new(segs(p).len(), |k: int| seg_join(segs(p).take(k + 1)))
}

/// A well-formed segment list: every segment is nonempty and separator-free.
pub open spec fn wf_segs(parts: Seq<Seq<char>>) -> bool {
    forall|i: int|
        0 <= i < parts.len() ==> parts[i].len() > 0 && !(#[trigger] parts[i]).contains('/')
}

/// Whatever the path, its segment list is well-formed.
pub proof fn lemma_segs_wf(s: Seq<char>)
    ensures
        wf_segs(segs(s)),
    decreases s.len(),
{
    if s.len() > 0 {
        lemma_segs_wf(s.drop_last());
        let r = segs(s.drop_last());
        if s.last() == '/' {
        } else if s.len() == 1 || s[s.len() - 2] == '/' {
            let q = r.push(seq![s.last()]);
            assert forall|i: int| 0 <= i < q.len() implies q[i].len() > 0 && !(#[trigger] q[i]).contains('/') by {
                if i < r.len() {
                    assert(q[i] == r[i]);
                } else {
                    assert(q[i] == seq![s.last()]);
                    assert(forall|j: int| 0 <= j < q[i].len() ==> q[i][j] == s.last());
                }
            }
        } else {
            lemma_segs_last_not_sep(s.drop_last());
            let q = r.drop_last().push(r.last().push(s.last()));
            assert forall|i: int| 0 <= i < q.len() implies q[i].len() > 0 && !(#[trigger] q[i]).contains('/') by {
                if i < r.len() - 1 {
                    assert(q[i] == r[i]);
                } else {
                    assert(q[i] == r.last().push(s.last()));
                    assert(forall|j: int|
                        0 <= j < q[i].len() ==> q[i][j] == (if j < r.last().len() {
                            r.last()[j]
                        } else {
                            s.last()
                        }));
                }
            }
        }
    }
}

/// A path that does not end in a separator has at least one segment.
pub proof fn lemma_segs_last_not_sep(s: Seq<char>)
    ensures
        s.len() > 0 && s.last() != '/' ==> segs(s).len() > 0,
{
}

/// Appending one element to a sequence adds exactly that element to the
/// sequence's element set.
pub proof fn lemma_push_to_set<A>(t: Seq<A>, x: A)
    ensures
        t.push(x).to_set() == t.to_set().insert(x),
{
    assert forall|y: A| t.push(x).to_set().contains(y) <==> t.to_set().insert(x).contains(y) by {
        if t.push(x).contains(y) {
            let j = choose|j: int| 0 <= j < t.push(x).len() && t.push(x)[j] == y;
            if j < t.len() {
                assert(t.contains(y));
            }
        }
        if t.contains(y) {
            let j = choose|j: int| 0 <= j < t.len() && t[j] == y;
            assert(t.push(x)[j] == y);
        }
        if y == x {
            assert(t.push(x)[t.len() as int] == y);
        }
    }
    assert(t.push(x).to_set() =~= t.to_set().insert(x));
}

/// A nonempty separator-free string is one whole segment.
pub proof fn lemma_segs_single(s: Seq<char>)
    requires
        s.len() > 0,
        !s.contains('/'),
    ensures
        segs(s) == seq![s],
    decreases s.len(),
{
    assert(s.last() != '/') by {
        if s.last() == '/' {
            assert(s[s.len() - 1] == '/');
            assert(s.contains('/'));
        }
    }
    if s.len() == 1 {
        assert(segs(s) == segs(s.drop_last()).push(seq![s.last()]));
        assert(segs(s.drop_last()) =~= Seq::<Seq<char>>::empty());
        assert(seq![s.last()] =~= s);
        assert(segs(s) =~~= seq![s]);
    } else {
        let dl = s.drop_last();
        assert(!dl.contains('/')) by {
            if dl.contains('/') {
                let j = choose|j: int| 0 <= j < dl.len() && dl[j] == '/';
                assert(s[j] == '/');
                assert(s.contains('/'));
            }
        }
        lemma_segs_single(dl);
        assert(s[s.len() - 2] != '/') by {
            if s[s.len() - 2] == '/' {
                assert(s.contains('/'));
            }
        }
        assert(segs(s) == segs(dl).drop_last().push(segs(dl).last().push(s.last())));
        assert(segs(dl).drop_last() =~= Seq::<Seq<char>>::empty());
        assert(segs(dl).last() == dl);
        assert(dl.push(s.last()) =~= s);
        assert(segs(s) =~~= seq![s]);
    }
}

/// Appending `/` and then one separator-free segment to any string appends
/// exactly that segment to its segment list.
pub proof fn lemma_segs_append_seg(a: Seq<char>, b: Seq<char>)
    requires
        b.len() > 0,
        !b.contains('/'),
    ensures
        segs(a + seq!['/'] + b) == segs(a).push(b),
    decreases b.len(),
{
    let s = a + seq!['/'] + b;
    assert(s.last() == b.last());
    assert(b.last() != '/') by {
        if b.last() == '/' {
            assert(b[b.len() - 1] == '/');
            assert(b.contains('/'));
        }
    }
    if b.len() == 1 {
        assert(s.drop_last() =~= a + seq!['/']);
        assert((a + seq!['/']).last() == '/');
        assert((a + seq!['/']).drop_last() =~= a);
        assert(segs(a + seq!['/']) == segs(a));
        assert(s.len() >= 2);
        assert(s[s.len() - 2] == '/');
        assert(segs(s) == segs(s.drop_last()).push(seq![s.last()]));
        assert(seq![s.last()] =~= b);
        assert(segs(s) =~~= segs(a).push(b));
    } else {
        let bl = b.drop_last();
        assert(!bl.contains('/')) by {
            if bl.contains('/') {
                let j = choose|j: int| 0 <= j < bl.len() && bl[j] == '/';
                assert(b[j] == '/');
                assert(b.contains('/'));
            }
        }
        lemma_segs_append_seg(a, bl);
        assert(s.drop_last() =~= a + seq!['/'] + bl);
        assert(s[s.len() - 2] == bl.last());
        assert(bl.last() != '/') by {
            if bl.last() == '/' {
                assert(bl[bl.len() - 1] == '/');
                assert(bl.contains('/'));
            }
        }
        let r = segs(a + seq!['/'] + bl);
        assert(r == segs(a).push(bl));
        assert(segs(s) == r.drop_last().push(r.last().push(s.last())));
        assert(r.drop_last() =~= segs(a));
        assert(r.last() == bl);
        assert(bl.push(b.last()) =~= b);
        assert(segs(s) =~~= segs(a).push(b));
    }
}

/// Splitting undoes joining: the segments of a joined well-formed segment
/// list are that list again.
pub proof fn lemma_join_segs_roundtrip(parts: Seq<Seq<char>>)
    requires
        wf_segs(parts),
    ensures
        segs(seg_join(parts)) == parts,
    decreases parts.len(),
{
    if parts.len() == 0 {
        assert(segs(seg_join(parts)) =~~= parts);
    } else if parts.len() == 1 {
        lemma_segs_single(parts[0]);
        assert(segs(seg_join(parts)) =~~= parts);
    } else {
        let dl = parts.drop_last();
        assert(wf_segs(dl));
        lemma_join_segs_roundtrip(dl);
        lemma_segs_append_seg(seg_join(dl), parts.last());
        assert(segs(seg_join(parts)) =~~= parts);
    }
}

/// The joined form of a nonempty well-formed segment list starts with the
/// first character of the first segment.
pub proof fn lemma_seg_join_first(parts: Seq<Seq<char>>)
    requires
        parts.len() > 0,
        parts[0].len() > 0,
    ensures
        seg_join(parts).len() > 0,
        seg_join(parts)[0] == parts[0][0],
    decreases parts.len(),
{
    if parts.len() > 1 {
        let dl = parts.drop_last();
        lemma_seg_join_first(dl);
    }
}

/// A string without backslashes is already in slashed form.
pub proof fn lemma_slashed_id(s: Seq<char>)
    requires
        !s.contains('\\'),
    ensures
        slashed(s) == s,
{
    assert forall|i: int| 0 <= i < s.len() implies slashed(s)[i] == s[i] by {
        if s[i] == '\\' {
            assert(s.contains('\\'));
        }
    }
    assert(slashed(s) =~= s);
}

/// Splitting introduces no character: a character other than the separator
/// that no segment holds was not in the string.
pub proof fn lemma_segs_no_char(s: Seq<char>, c: char)
    requires
        c != '/',
        !s.contains(c),
    ensures
        forall|i: int| 0 <= i < segs(s).len() ==> !(#[trigger] segs(s)[i]).contains(c),
    decreases s.len(),
{
    if s.len() > 0 {
        let dl = s.drop_last();
        assert(!dl.contains(c)) by {
            if dl.contains(c) {
                let j = choose|j: int| 0 <= j < dl.len() && dl[j] == c;
                assert(s[j] == c);
                assert(s.contains(c));
            }
        }
        lemma_segs_no_char(dl, c);
        assert(s.last() != c) by {
            if s.last() == c {
                assert(s[s.len() - 1] == c);
                assert(s.contains(c));
            }
        }
        let r = segs(dl);
        if s.last() == '/' {
        } else if s.len() == 1 || s[s.len() - 2] == '/' {
            let q = r.push(seq![s.last()]);
            assert forall|i: int| 0 <= i < q.len() implies !(#[trigger] q[i]).contains(c) by {
                if i < r.len() {
                    assert(q[i] == r[i]);
                } else {
                    assert(q[i] == seq![s.last()]);
                    if q[i].contains(c) {
                        let j = choose|j: int| 0 <= j < q[i].len() && q[i][j] == c;
                        assert(q[i][j] == s.last());
                    }
                }
            }
        } else {
            let q = r.drop_last().push(r.last().push(s.last()));
            assert forall|i: int| 0 <= i < q.len() implies !(#[trigger] q[i]).contains(c) by {
                if i < r.len() - 1 {
                    assert(q[i] == r[i]);
                } else {
                    assert(q[i] == r.last().push(s.last()));
                    if q[i].contains(c) {
                        let j = choose|j: int| 0 <= j < q[i].len() && q[i][j] == c;
                        if j < r.last().len() {
                            assert(r.last().contains(c)) by {
                                assert(r.last()[j] == c);
                                assert(0 <= r.len() - 1 < r.len());
                                assert(r[r.len() - 1] == r.last());
                            }
                        } else {
                            assert(q[i][j] == s.last());
                        }
                    }
                }
            }
        }
    }
}

/// Joining introduces no character but the separator.
pub proof fn lemma_seg_join_no_char(parts: Seq<Seq<char>>, c: char)
    requires
        c != '/',
        forall|i: int| 0 <= i < parts.len() ==> !(#[trigger] parts[i]).contains(c),
    ensures
        !seg_join(parts).contains(c),
    decreases parts.len(),
{
    if parts.len() == 0 {
    } else if parts.len() == 1 {
        assert(seg_join(parts) == parts[0]);
    } else {
        let dl = parts.drop_last();
        lemma_seg_join_no_char(dl, c);
        if seg_join(parts).contains(c) {
            let j = choose|j: int| 0 <= j < seg_join(parts).len() && seg_join(parts)[j] == c;
            let a = seg_join(dl);
            if j < a.len() {
                assert(a.contains(c)) by {
                    assert(a[j] == c);
                }
            } else if j == a.len() {
                assert(seg_join(parts)[j] == '/');
            } else {
                assert(parts.last().contains(c)) by {
                    assert(parts.last()[j - a.len() - 1] == c);
                    assert(parts[parts.len() - 1] == parts.last());
                }
            }
        }
    }
}

/// A trailing separator changes no segment.
pub proof fn lemma_segs_push_slash(s: Seq<char>)
    ensures
        segs(s.push('/')) == segs(s),
{
    assert(s.push('/').drop_last() =~= s);
}

/// The first two characters of a joined well-formed segment list.
pub proof fn lemma_seg_join_index01(parts: Seq<Seq<char>>)
    requires
        wf_segs(parts),
        parts.len() > 0,
    ensures
        seg_join(parts).len() > 0,
        seg_join(parts)[0] == parts[0][0],
        parts[0].len() >= 2 ==> seg_join(parts).len() >= 2 && seg_join(parts)[1] == parts[0][1],
        parts[0].len() == 1 && parts.len() >= 2 ==> seg_join(parts).len() >= 2 && seg_join(
            parts,
        )[1] == '/',
    decreases parts.len(),
{
    assert(parts[0].len() > 0);
    if parts.len() == 1 {
        assert(seg_join(parts) == parts[0]);
    } else {
        let dl = parts.drop_last();
        assert(wf_segs(dl));
        lemma_seg_join_index01(dl);
        let a = seg_join(dl);
        assert(seg_join(parts) == a + seq!['/'] + parts.last());
        if dl.len() == 1 {
            assert(a == parts[0]);
        }
    }
}

/// If a joined well-formed segment list reads `./` at its start, its first
/// segment is exactly `.`.
pub proof fn lemma_join_starts_dot_slash(parts: Seq<Seq<char>>)
    requires
        wf_segs(parts),
        parts.len() > 0,
        seg_join(parts).len() >= 2,
        seg_join(parts)[0] == '.',
        seg_join(parts)[1] == '/',
    ensures
        parts[0] == seq!['.'],
{
    lemma_seg_join_index01(parts);
    if parts[0].len() >= 2 {
        assert(parts[0][1] == '/');
        assert(parts[0].contains('/'));
    } else {
        assert(parts[0] =~= seq!['.']);
    }
}

// ---------------------------------------------------------------------------
// Entry-name cleaning
// ---------------------------------------------------------------------------

/// Resolves `.` and `..` segments of an entry name logically: `.` is
/// dropped, `..` removes the segment before it, and a `..` with nothing
/// before it means the name escapes its root, which is no name at all.
pub open spec fn clean_segs(parts: Seq<Seq<char>>) -> Option<Seq<Seq<char>>>
    decreases parts.len(),
{
    if parts.len() == 0 {
        Some(Seq::empty())
    } else {
        match clean_segs(parts.drop_last()) {
            None => None,
            Some(v) => {
                let last = parts.last();
                if last == seq!['.'] {
                    Some(v)
                } else if last == seq!['.', '.'] {
                    if v.len() == 0 {
                        None
                    } else {
                        Some(v.drop_last())
                    }
                } else {
                    Some(v.push(last))
                }
            },
        }
    }
}

/// Once cleaning has failed on a prefix of the segments, it fails on the
/// whole list.
pub proof fn lemma_clean_extend_none(parts: Seq<Seq<char>>, k: int)
    requires
        0 <= k <= parts.len(),
        clean_segs(parts.take(k)) is None,
    ensures
        clean_segs(parts) is None,
    decreases parts.len() - k,
{
    if k < parts.len() {
        assert(parts.take(k + 1).drop_last() =~= parts.take(k));
        lemma_clean_extend_none(parts, k + 1);
    } else {
        assert(parts.take(k) =~= parts);
    }
}

/// Whether an entry name declares a directory: it ends in a separator.
pub open spec fn is_dir_name(s: Seq<char>) -> bool {
    s.len() > 0 && (s.last() == '/' || s.last() == '\\')
}

/// Whether an entry name carries a drive prefix in its first segment.
pub open spec fn has_drive_prefix(s: Seq<char>) -> bool {
    segs(slashed(s)).len() > 0 && segs(slashed(s))[0].contains(':')
}

/// An entry name that is safe to materialize below a root: it has no NUL
/// byte, is not absolute (with either separator), carries no drive prefix,
/// and its `.`/`..` segments resolve without leaving the root.
pub open spec fn entry_name_ok(s: Seq<char>) -> bool {
    &&& !s.contains('\0')
    &&& !(s.len() > 0 && (s[0] == '/' || s[0] == '\\'))
    &&& !has_drive_prefix(s)
    &&& clean_segs(segs(slashed(s))) is Some
}

/// The normalized relative path of a safe entry name: separators unified,
/// `.`/`..` resolved away, segments joined with single separators and no
/// trailing one.
pub open spec fn normalized_entry(s: Seq<char>) -> Seq<char> {
    seg_join(clean_segs(segs(slashed(s))).unwrap())
}

/// A relative path in normal form that cannot climb out of the directory it
/// is resolved under.
pub open spec fn safe_rel(p: Seq<char>) -> bool {
    &&& !(p.len() > 0 && p[0] == '/')
    &&& forall|k: int|
        0 <= k < segs(p).len() ==> (#[trigger] segs(p)[k]) != seq!['.', '.'] && segs(p)[k]
            != seq!['.']
}

/// The proper ancestors of a path: every prefix of its segment list except
/// the whole of it, joined back into strings.
pub open spec fn parent_prefixes(p: Seq<char>) -> Seq<Seq<char>> {
    if prefix_seq(p).len() == 0 {
        Seq::empty()
    } else {
        prefix_seq(p).drop_last()
    }
}

/// What one pattern contributes to the expanded allow-list: its normal form,
/// and every proper ancestor both without and with a trailing separator.
pub open spec fn pattern_expansion(p: Seq<char>) -> Set<Seq<char>> {
    let n = norm_spec(p);
    seq![n].to_set().union(parent_prefixes(n).to_set()).union(
        parent_prefixes(n).map_values(|d: Seq<char>| d + seq!['/']).to_set(),
    )
}

/// The expanded allow-list of a pattern sequence.
pub open spec fn expand_set_spec(ps: Seq<Seq<char>>) -> Set<Seq<char>>
    decreases ps.len(),
{
    if ps.len() == 0 {
        Set::empty()
    } else {
        expand_set_spec(ps.drop_last()).union(pattern_expansion(ps.last()))
    }
}

// ---------------------------------------------------------------------------
// Executable helpers
// ---------------------------------------------------------------------------

/// The characters of a string slice, in order.
pub fn str_chars(s: &str) -> (r: Vec<char>)
    ensures
        r@ == s@,
{
    let n = s.unicode_len();
    let mut r: Vec<char> = Vec::new();
    let mut i: usize = 0;
    while i < n
        invariant
            n == s@.len(),
            i <= n,
            r@ == s@.take(i as int),
        decreases n - i,
    {
        r.push(s.get_char(i));
        proof {
            assert(s@.take(i + 1) =~= s@.take(i as int).push(s@[i as int]));
        }
        i = i + 1;
    }
    proof {
        assert(s@.take(n as int) =~= s@);
    }
    r
}

/// Relies on `String`'s `FromIterator<char>`: collecting characters yields
/// the string of exactly those characters in order.
#[verifier::external_body]
pub(crate) fn chars_to_string(v: &Vec<char>) -> (r: String)
    ensures
        r@ == v@,
{
    v.iter().collect()
}

/// The normal form of a pattern: backslashes become forward slashes and a
/// single leading `./` is removed.
pub fn norm(s: &str) -> (r: String)
    ensures
        r@ == norm_spec(s@),
{
    let chars = str_chars(s);
    let n = chars.len();
    let mut t: Vec<char> = Vec::new();
    let mut i: usize = 0;
    while i < n
        invariant
            n == chars@.len(),
            i <= n,
            t@ == chars@.take(i as int).map_values(|c: char| if c == '\\' { '/' } else { c }),
        decreases n - i,
    {
        let c = chars[i];
        if c == '\\' {
            t.push('/');
        } else {
            t.push(c);
        }
        proof {
            assert(chars@.take(i + 1) =~= chars@.take(i as int).push(chars@[i as int]));
            assert(chars@.take(i + 1).map_values(|c: char| if c == '\\' { '/' } else { c })
                =~= chars@.take(i as int).map_values(|c: char| if c == '\\' { '/' } else { c }).push(
                    if chars@[i as int] == '\\' { '/' } else { chars@[i as int] }));
        }
        i = i + 1;
    }
    proof {
        assert(chars@.take(n as int) =~= chars@);
        assert(t@ =~= slashed(s@));
    }
    if t.len() >= 2 && t[0] == '.' && t[1] == '/' {
        let mut u: Vec<char> = Vec::new();
        let mut j: usize = 2;
        while j < t.len()
            invariant
                2 <= j <= t@.len(),
                u@ == t@.subrange(2, j as int),
            decreases t@.len() - j,
        {
            u.push(t[j]);
            proof {
                assert(t@.subrange(2, j + 1) =~= t@.subrange(2, j as int).push(t@[j as int]));
            }
            j = j + 1;
        }
        proof {
            assert(u@ =~= slashed(s@).skip(2));
        }
        chars_to_string(&u)
    } else {
        chars_to_string(&t)
    }
}

/// The segments of a character sequence, as vectors.
fn split_segs(v: &Vec<char>) -> (r: Vec<Vec<char>>)
    ensures
        r.deep_view() == segs(v@),
{
    let n = v.len();
    let mut out: Vec<Vec<char>> = Vec::new();
    let mut cur: Vec<char> = Vec::new();
    let mut i: usize = 0;
    while i < n
        invariant
            n == v@.len(),
            i <= n,
            cur@.len() > 0 <==> (i > 0 && v@[i as int - 1] != '/'),
            cur@.len() == 0 ==> out.deep_view() == segs(v@.take(i as int)),
            cur@.len() > 0 ==> out.deep_view().push(cur@) == segs(v@.take(i as int)),
        decreases n - i,
    {
        let c = v[i];
        proof {
            assert(v@.take(i + 1) =~= v@.take(i as int).push(v@[i as int]));
            assert(v@.take(i + 1).drop_last() =~= v@.take(i as int));
        }
        if c == '/' {
            if cur.len() > 0 {
                let ghost old_deep = out.deep_view();
                let ghost cur_view = cur@;
                out.push(cur);
                cur = Vec::new();
                proof {
                    assert(out.deep_view() =~~= old_deep.push(cur_view));
                }
            }
        } else {
            let ghost old_segs = segs(v@.take(i as int));
            cur.push(c);
            proof {
                if i > 0 && v@[i as int - 1] != '/' {
                    assert(segs(v@.take(i + 1)) =~= old_segs.drop_last().push(
                        old_segs.last().push(c)));
                    assert(out.deep_view().push(cur@) =~= segs(v@.take(i + 1)));
                } else {
                    assert(segs(v@.take(i + 1)) =~= old_segs.push(seq![c]));
                    assert(cur@ =~= seq![c]);
                }
            }
        }
        i = i + 1;
    }
    proof {
        assert(v@.take(n as int) =~= v@);
    }
    if cur.len() > 0 {
        let ghost old_deep = out.deep_view();
        let ghost cur_view = cur@;
        out.push(cur);
        proof {
            assert(out.deep_view() =~~= old_deep.push(cur_view));
        }
    }
    out
}

/// The slashed form of a string holds no backslash.
pub proof fn lemma_slashed_no_backslash(s: Seq<char>)
    ensures
        !slashed(s).contains('\\'),
{
    if slashed(s).contains('\\') {
        let j = choose|j: int| 0 <= j < slashed(s).len() && slashed(s)[j] == '\\';
        assert(slashed(s)[j] == (if s[j] == '\\' {
            '/'
        } else {
            s[j]
        }));
    }
}

/// A pattern in settled form: normalizing its normal form changes nothing,
/// and if it implies any parent directories, its first segment is a real
/// name, not `.`.
pub open spec fn pattern_settled(p: Seq<char>) -> bool {
    &&& norm_spec(norm_spec(p)) == norm_spec(p)
    &&& (segs(norm_spec(p)).len() <= 1 || segs(norm_spec(p))[0] != seq!['.'])
}

/// A joined well-formed segment list that does not begin with a `.` segment
/// is already in normal form, with or without a trailing separator.
proof fn lemma_norm_of_wf_join(parts: Seq<Seq<char>>)
    requires
        wf_segs(parts),
        parts.len() > 0,
        forall|i: int| 0 <= i < parts.len() ==> !(#[trigger] parts[i]).contains('\\'),
        parts[0] != seq!['.'],
    ensures
        norm_spec(seg_join(parts)) == seg_join(parts),
        norm_spec(seg_join(parts) + seq!['/']) == seg_join(parts) + seq!['/'],
{
    let d = seg_join(parts);
    lemma_seg_join_no_char(parts, '\\');
    lemma_slashed_id(d);
    lemma_seg_join_index01(parts);
    if d.len() >= 2 && d[0] == '.' && d[1] == '/' {
        lemma_join_starts_dot_slash(parts);
    }
    let d2 = d + seq!['/'];
    assert(!d2.contains('\\')) by {
        if d2.contains('\\') {
            let j = choose|j: int| 0 <= j < d2.len() && d2[j] == '\\';
            if j < d.len() {
                assert(d[j] == '\\');
                assert(d.contains('\\'));
            }
        }
    }
    lemma_slashed_id(d2);
    if d2.len() >= 2 && d2[0] == '.' && d2[1] == '/' {
        if d.len() >= 2 {
            lemma_join_starts_dot_slash(parts);
        } else {
            assert(d.len() == 1);
            assert(d[0] == parts[0][0]);
            assert(parts[0].len() == 1 || d.len() >= 2);
            assert(parts[0] =~= seq!['.']);
        }
    }
}

/// What one pattern's expansion absorbs: every element of the expansion is
/// itself settled, and expanding it again yields nothing new.
proof fn lemma_pattern_expansion_absorbed(p: Seq<char>, q: Seq<char>)
    requires
        pattern_settled(p),
        pattern_expansion(p).contains(q),
    ensures
        norm_spec(q) == q,
        pattern_expansion(q).subset_of(pattern_expansion(p)),
{
    let n = norm_spec(p);
    let pp = prefix_seq(n);
    let pd = parent_prefixes(n);
    let mapped = pd.map_values(|d: Seq<char>| d + seq!['/']);
    let ps = segs(n);
    lemma_segs_wf(slashed(n));
    assert(segs(norm_spec(n)) == segs(n));
    lemma_slashed_no_backslash(p);
    assert(!n.contains('\\')) by {
        let t = slashed(p);
        if n.contains('\\') {
            let j = choose|j: int| 0 <= j < n.len() && n[j] == '\\';
            if t.len() >= 2 && t[0] == '.' && t[1] == '/' {
                assert(t[j + 2] == '\\');
                assert(t.contains('\\'));
            } else {
                assert(t.contains('\\'));
            }
        }
    }
    lemma_slashed_id(n);
    assert(segs(slashed(n)) == ps);
    lemma_segs_wf(n);
    assert(wf_segs(ps)) by {
        assert(segs(n) == segs(slashed(n)));
        lemma_segs_wf(slashed(n));
    }
    lemma_segs_no_char(n, '\\');
    if q == n {
        assert(norm_spec(q) == q);
        assert(pattern_expansion(q) =~= pattern_expansion(p));
    } else if pd.to_set().contains(q) {
        let k = choose|k: int| 0 <= k < pd.len() && pd[k] == q;
        lemma_expansion_parent_absorbed(p, k);
    } else {
        assert(mapped.to_set().contains(q));
        let k = choose|k: int| 0 <= k < mapped.len() && mapped[k] == q;
        lemma_expansion_parent_slash_absorbed(p, k);
    }
}

/// The shared facts about the `k`-th parent prefix of a settled pattern.
proof fn lemma_parent_prefix_facts(p: Seq<char>, k: int)
    requires
        pattern_settled(p),
        0 <= k < parent_prefixes(norm_spec(p)).len(),
    ensures
        ({
            let n = norm_spec(p);
            let d = parent_prefixes(n)[k];
            &&& segs(n).len() >= 2
            &&& d == seg_join(segs(n).take(k + 1))
            &&& segs(d) == segs(n).take(k + 1)
            &&& wf_segs(segs(n))
            &&& (forall|i: int|
                0 <= i < segs(n).len() ==> !(#[trigger] segs(n)[i]).contains('\\'))
            &&& segs(n)[0] != seq!['.']
            &&& norm_spec(d) == d
            &&& norm_spec(d + seq!['/']) == d + seq!['/']
            &&& prefix_seq(d) == prefix_seq(n).take(k + 1)
        }),
{
    let n = norm_spec(p);
    let ps = segs(n);
    let d = parent_prefixes(n)[k];
    assert(prefix_seq(n).len() == ps.len());
    assert(ps.len() >= 2);
    assert(d == prefix_seq(n)[k]);
    assert(d == seg_join(ps.take(k + 1)));
    lemma_slashed_no_backslash(p);
    assert(!n.contains('\\')) by {
        let t = slashed(p);
        if n.contains('\\') {
            let j = choose|j: int| 0 <= j < n.len() && n[j] == '\\';
            if t.len() >= 2 && t[0] == '.' && t[1] == '/' {
                assert(t[j + 2] == '\\');
                assert(t.contains('\\'));
            } else {
                assert(t.contains('\\'));
            }
        }
    }
    lemma_slashed_id(n);
    lemma_segs_wf(slashed(n));
    assert(wf_segs(ps));
    lemma_segs_no_char(n, '\\');
    assert(wf_segs(ps.take(k + 1)));
    assert(forall|i: int|
        0 <= i < ps.take(k + 1).len() ==> !(#[trigger] ps.take(k + 1)[i]).contains('\\'));
    assert(ps.take(k + 1)[0] == ps[0]);
    assert(ps[0] != seq!['.']);
    lemma_norm_of_wf_join(ps.take(k + 1));
    lemma_join_segs_roundtrip(ps.take(k + 1));
    assert(prefix_seq(d).len() == k + 1);
    assert forall|j: int| 0 <= j < k + 1 implies prefix_seq(d)[j] == prefix_seq(n)[j] by {
        assert(segs(d).take(j + 1) =~= ps.take(j + 1));
    }
    assert(prefix_seq(d) =~= prefix_seq(n).take(k + 1));
}

/// Expanding a parent prefix of a settled pattern adds nothing.
proof fn lemma_expansion_parent_absorbed(p: Seq<char>, k: int)
    requires
        pattern_settled(p),
        0 <= k < parent_prefixes(norm_spec(p)).len(),
    ensures
        norm_spec(parent_prefixes(norm_spec(p))[k]) == parent_prefixes(norm_spec(p))[k],
        pattern_expansion(parent_prefixes(norm_spec(p))[k]).subset_of(pattern_expansion(p)),
    decreases 0int,
{
    let n = norm_spec(p);
    let d = parent_prefixes(n)[k];
    lemma_parent_prefix_facts(p, k);
    assert forall|x: Seq<char>| pattern_expansion(d).contains(x) implies pattern_expansion(
        p,
    ).contains(x) by {
        assert(parent_prefixes(d) =~= prefix_seq(n).take(k));
        if x == norm_spec(d) {
            assert(x == d);
            assert(parent_prefixes(n).to_set().contains(d)) by {
                assert(parent_prefixes(n)[k] == d);
            }
        } else if parent_prefixes(d).to_set().contains(x) {
            let j = choose|j: int| 0 <= j < parent_prefixes(d).len() && parent_prefixes(d)[j] == x;
            assert(prefix_seq(n)[j] == x);
            assert(parent_prefixes(n)[j] == x);
            assert(parent_prefixes(n).to_set().contains(x));
        } else {
            let md = parent_prefixes(d).map_values(|t: Seq<char>| t + seq!['/']);
            assert(md.to_set().contains(x));
            let j = choose|j: int| 0 <= j < md.len() && md[j] == x;
            let mn = parent_prefixes(n).map_values(|t: Seq<char>| t + seq!['/']);
            assert(mn[j] == parent_prefixes(n)[j] + seq!['/']);
            assert(parent_prefixes(d)[j] == prefix_seq(n)[j]);
            assert(parent_prefixes(n)[j] == prefix_seq(n)[j]);
            assert(mn[j] == x);
            assert(mn.to_set().contains(x));
        }
    }
}

/// Expanding a parent prefix with its trailing separator adds nothing.
proof fn lemma_expansion_parent_slash_absorbed(p: Seq<char>, k: int)
    requires
        pattern_settled(p),
        0 <= k < parent_prefixes(norm_spec(p)).len(),
    ensures
        ({
            let q = parent_prefixes(norm_spec(p)).map_values(|t: Seq<char>| t + seq!['/'])[k];
            &&& norm_spec(q) == q
            &&& pattern_expansion(q).subset_of(pattern_expansion(p))
        }),
{
    let n = norm_spec(p);
    let d = parent_prefixes(n)[k];
    let q = d + seq!['/'];
    lemma_parent_prefix_facts(p, k);
    assert(q == parent_prefixes(n).map_values(|t: Seq<char>| t + seq!['/'])[k]);
    assert(q =~= d.push('/'));
    lemma_segs_push_slash(d);
    assert(segs(q) == segs(d));
    assert(prefix_seq(q) =~= prefix_seq(d));
    assert forall|x: Seq<char>| pattern_expansion(q).contains(x) implies pattern_expansion(
        p,
    ).contains(x) by {
        assert(parent_prefixes(q) =~= prefix_seq(n).take(k));
        let mn = parent_prefixes(n).map_values(|t: Seq<char>| t + seq!['/']);
        if x == norm_spec(q) {
            assert(x == q);
            assert(mn[k] == q);
            assert(mn.to_set().contains(q));
        } else if parent_prefixes(q).to_set().contains(x) {
            let j = choose|j: int| 0 <= j < parent_prefixes(q).len() && parent_prefixes(q)[j] == x;
            assert(prefix_seq(n)[j] == x);
            assert(parent_prefixes(n)[j] == x);
            assert(parent_prefixes(n).to_set().contains(x));
        } else {
            let mq = parent_prefixes(q).map_values(|t: Seq<char>| t + seq!['/']);
            assert(mq.to_set().contains(x));
            let j = choose|j: int| 0 <= j < mq.len() && mq[j] == x;
            assert(parent_prefixes(q)[j] == prefix_seq(n)[j]);
            assert(parent_prefixes(n)[j] == prefix_seq(n)[j]);
            assert(mn[j] == x);
            assert(mn.to_set().contains(x));
        }
    }
}

/// The expanded allow-list is a function of the set of patterns: a path is
/// in it exactly when some pattern's own expansion holds it, so order and
/// multiplicity cannot matter.
pub proof fn lemma_expand_set_char(ps: Seq<Seq<char>>)
    ensures
        expand_set_spec(ps) == Set::new(
            |x: Seq<char>|
                exists|p: Seq<char>| #[trigger] ps.to_set().contains(p) && pattern_expansion(
                    p,
                ).contains(x),
        ),
    decreases ps.len(),
{
    let target = Set::new(
        |x: Seq<char>|
            exists|p: Seq<char>| #[trigger] ps.to_set().contains(p) && pattern_expansion(
                p,
            ).contains(x),
    );
    if ps.len() == 0 {
        assert forall|x: Seq<char>| !target.contains(x) by {
            if target.contains(x) {
                let p = choose|p: Seq<char>|
                    ps.to_set().contains(p) && pattern_expansion(p).contains(x);
                assert(ps.contains(p));
            }
        }
        assert(expand_set_spec(ps) =~= target);
    } else {
        let dl = ps.drop_last();
        lemma_expand_set_char(dl);
        assert(ps =~= dl.push(ps.last()));
        lemma_push_to_set(dl, ps.last());
        assert forall|x: Seq<char>| expand_set_spec(ps).contains(x) <==> target.contains(x) by {
            if expand_set_spec(ps).contains(x) {
                if expand_set_spec(dl).contains(x) {
                    let p = choose|p: Seq<char>|
                        dl.to_set().contains(p) && pattern_expansion(p).contains(x);
                    assert(ps.to_set().contains(p));
                } else {
                    assert(pattern_expansion(ps.last()).contains(x));
                    assert(ps.to_set().contains(ps.last()));
                }
            }
            if target.contains(x) {
                let p = choose|p: Seq<char>|
                    ps.to_set().contains(p) && pattern_expansion(p).contains(x);
                if dl.to_set().contains(p) {
                    assert(expand_set_spec(dl).contains(x));
                } else {
                    assert(p == ps.last());
                }
            }
        }
        assert(expand_set_spec(ps) =~= target);
    }
}

/// Pattern order does not affect the expanded match set: two pattern lists
/// with the same elements expand to the same allow-list.
pub proof fn lemma_expand_set_order_independent(ps1: Seq<Seq<char>>, ps2: Seq<Seq<char>>)
    requires
        ps1.to_set() == ps2.to_set(),
    ensures
        expand_set_spec(ps1) == expand_set_spec(ps2),
{
    lemma_expand_set_char(ps1);
    lemma_expand_set_char(ps2);
}

/// Expansion is idempotent: expanding the expansion of settled patterns —
/// in any order — yields the expansion itself. A pattern is settled when
/// its normal form is its own normal form and, if it implies parents, its
/// first segment is not `.`.
pub proof fn lemma_expansion_idempotent(ps: Seq<Seq<char>>, qs: Seq<Seq<char>>)
    requires
        forall|i: int| 0 <= i < ps.len() ==> pattern_settled(#[trigger] ps[i]),
        qs.to_set() == expand_set_spec(ps),
    ensures
        expand_set_spec(qs) == expand_set_spec(ps),
{
    lemma_expand_set_char(ps);
    lemma_expand_set_char(qs);
    assert forall|x: Seq<char>| expand_set_spec(qs).contains(x) implies expand_set_spec(
        ps,
    ).contains(x) by {
        let q = choose|q: Seq<char>|
            #[trigger] qs.to_set().contains(q) && pattern_expansion(q).contains(x);
        assert(expand_set_spec(ps).contains(q));
        let p = choose|p: Seq<char>|
            #[trigger] ps.to_set().contains(p) && pattern_expansion(p).contains(q);
        assert(ps.contains(p));
        let i = choose|i: int| 0 <= i < ps.len() && ps[i] == p;
        assert(pattern_settled(p));
        lemma_pattern_expansion_absorbed(p, q);
        assert(pattern_expansion(p).contains(x));
    }
    assert forall|x: Seq<char>| expand_set_spec(ps).contains(x) implies expand_set_spec(
        qs,
    ).contains(x) by {
        let p = choose|p: Seq<char>|
            #[trigger] ps.to_set().contains(p) && pattern_expansion(p).contains(x);
        assert(ps.contains(p));
        let i = choose|i: int| 0 <= i < ps.len() && ps[i] == p;
        assert(pattern_settled(p));
        lemma_pattern_expansion_absorbed(p, x);
        assert(norm_spec(x) == x);
        assert(pattern_expansion(x).contains(x)) by {
            assert(seq![norm_spec(x)].to_set().contains(x)) by {
                assert(seq![norm_spec(x)][0] == x);
                assert(seq![norm_spec(x)].contains(x));
            }
        }
        assert(qs.to_set().contains(x));
    }
    assert(expand_set_spec(qs) =~= expand_set_spec(ps));
}

/// A copy of a character vector.
fn copy_chars(v: &Vec<char>) -> (r: Vec<char>)
    ensures
        r@ == v@,
{
    let n = v.len();
    let mut r: Vec<char> = Vec::new();
    let mut i: usize = 0;
    while i < n
        invariant
            n == v@.len(),
            i <= n,
            r@ == v@.take(i as int),
        decreases n - i,
    {
        r.push(v[i]);
        proof {
            assert(v@.take(i + 1) =~= v@.take(i as int).push(v@[i as int]));
        }
        i = i + 1;
    }
    proof {
        assert(v@.take(n as int) =~= v@);
    }
    r
}

/// The segment list joined with single separators.
fn join_segs(parts: &Vec<Vec<char>>) -> (r: Vec<char>)
    ensures
        r@ == seg_join(parts.deep_view()),
{
    let m = parts.len();
    let mut acc: Vec<char> = Vec::new();
    let mut k: usize = 0;
    proof {
        assert(parts.deep_view().len() == parts@.len());
    }
    while k < m
        invariant
            m == parts@.len(),
            parts.deep_view().len() == m,
            k <= m,
            acc@ == seg_join(parts.deep_view().take(k as int)),
        decreases m - k,
    {
        let ghost pre = parts.deep_view().take(k as int);
        let ghost post = parts.deep_view().take(k + 1);
        proof {
            assert(post.drop_last() =~= pre);
            assert(post.last() == parts.deep_view()[k as int]);
        }
        if k > 0 {
            acc.push('/');
        }
        let part = &parts[k];
        let mut j: usize = 0;
        let ghost acc0 = acc@;
        while j < part.len()
            invariant
                j <= part@.len(),
                acc@ == acc0 + part@.take(j as int),
            decreases part@.len() - j,
        {
            acc.push(part[j]);
            proof {
                assert(part@.take(j + 1) =~= part@.take(j as int).push(part@[j as int]));
                assert(acc0 + part@.take(j + 1) =~= (acc0 + part@.take(j as int)).push(
                    part@[j as int]));
            }
            j = j + 1;
        }
        proof {
            assert(part@.take(part@.len() as int) =~= part@);
            assert(part@ =~= parts.deep_view()[k as int]);
            if k == 0 {
                assert(seg_join(post) == post[0]);
                assert(acc@ =~= seg_join(post));
            } else {
                assert(seg_join(post) == seg_join(pre) + seq!['/'] + post.last());
                assert(acc@ =~= seg_join(post));
            }
        }
        k = k + 1;
    }
    proof {
        assert(parts.deep_view().take(m as int) =~= parts.deep_view());
    }
    acc
}

/// Checks and normalizes the declared path of one archive entry: rejects a
/// name with a NUL byte, an absolute name, a drive prefix, or a name whose
/// `..` segments would climb out of the root, and otherwise returns the
/// cleaned relative path.
pub fn normalize_entry_path(name: &str) -> (r: Result<String, ArchiveError>)
    ensures
        r is Ok <==> entry_name_ok(name@),
        r matches Ok(p) ==> p@ == normalized_entry(name@),
        r matches Ok(p) ==> safe_rel(p@),
        r matches Err(e) ==> e == ArchiveError::InvalidEntryName,
{
    let chars = str_chars(name);
    let n = chars.len();
    let mut i: usize = 0;
    while i < n
        invariant
            n == chars@.len(),
            chars@ == name@,
            i <= n,
            forall|j: int| 0 <= j < i ==> chars@[j] != '\0',
        decreases n - i,
    {
        if chars[i] == '\0' {
            proof {
                assert(name@.contains('\0'));
            }
            return Err(ArchiveError::InvalidEntryName);
        }
        i = i + 1;
    }
    proof {
        if name@.contains('\0') {
            let j = choose|j: int| 0 <= j < name@.len() && name@[j] == '\0';
            assert(chars@[j] != '\0');
        }
    }
    if n > 0 && (chars[0] == '/' || chars[0] == '\\') {
        return Err(ArchiveError::InvalidEntryName);
    }
    let mut t: Vec<char> = Vec::new();
    let mut i2: usize = 0;
    while i2 < n
        invariant
            n == chars@.len(),
            chars@ == name@,
            i2 <= n,
            t@ == chars@.take(i2 as int).map_values(|c: char| if c == '\\' { '/' } else { c }),
        decreases n - i2,
    {
        let c = chars[i2];
        if c == '\\' {
            t.push('/');
        } else {
            t.push(c);
        }
        proof {
            assert(chars@.take(i2 + 1) =~= chars@.take(i2 as int).push(chars@[i2 as int]));
            assert(chars@.take(i2 + 1).map_values(|c: char| if c == '\\' { '/' } else { c })
                =~= chars@.take(i2 as int).map_values(
                    |c: char| if c == '\\' { '/' } else { c },
                ).push(if chars@[i2 as int] == '\\' { '/' } else { chars@[i2 as int] }));
        }
        i2 = i2 + 1;
    }
    proof {
        assert(chars@.take(n as int) =~= chars@);
        assert(t@ =~= slashed(name@));
    }
    let parts = split_segs(&t);
    let ghost pd = segs(slashed(name@));
    proof {
        assert(parts.deep_view() == pd);
        assert(pd.len() == parts@.len());
        lemma_segs_wf(slashed(name@));
    }
    if parts.len() > 0 {
        let first = &parts[0];
        let fl = first.len();
        let mut j: usize = 0;
        while j < fl
            invariant
                fl == first@.len(),
                first@ == pd[0],
                pd == segs(slashed(name@)),
                pd.len() > 0,
                j <= fl,
                forall|u: int| 0 <= u < j ==> first@[u] != ':',
            decreases fl - j,
        {
            if first[j] == ':' {
                proof {
                    assert(first@[j as int] == ':');
                    assert(pd[0][j as int] == ':');
                    assert(pd[0].contains(':'));
                    assert(pd == segs(slashed(name@)));
                    assert(segs(slashed(name@)).len() > 0);
                    assert(segs(slashed(name@))[0].contains(':'));
                    assert(has_drive_prefix(name@));
                    assert(!entry_name_ok(name@));
                }
                return Err(ArchiveError::InvalidEntryName);
            }
            j = j + 1;
        }
        proof {
            if pd[0].contains(':') {
                let u = choose|u: int| 0 <= u < pd[0].len() && pd[0][u] == ':';
                assert(first@[u] != ':');
            }
        }
    }
    proof {
        assert(!has_drive_prefix(name@));
    }
    let m = parts.len();
    let mut st: Vec<Vec<char>> = Vec::new();
    let mut k: usize = 0;
    proof {
        assert(pd.take(0) =~= Seq::<Seq<char>>::empty());
        assert(st.deep_view() =~= Seq::<Seq<char>>::empty());
    }
    while k < m
        invariant
            m == parts@.len(),
            parts.deep_view() == pd,
            pd == segs(slashed(name@)),
            pd.len() == m,
            wf_segs(pd),
            k <= m,
            clean_segs(pd.take(k as int)) == Some(st.deep_view()),
            forall|u: int|
                0 <= u < st.deep_view().len() ==> (#[trigger] st.deep_view()[u]) != seq!['.', '.']
                    && st.deep_view()[u] != seq!['.'] && st.deep_view()[u].len() > 0
                    && !st.deep_view()[u].contains('/'),
        decreases m - k,
    {
        let part = &parts[k];
        proof {
            assert(part@ == pd[k as int]);
            assert(pd.take(k + 1).drop_last() =~= pd.take(k as int));
            assert(pd.take(k + 1).last() == pd[k as int]);
        }
        if part.len() == 1 && part[0] == '.' {
            proof {
                assert(part@ =~= seq!['.']);
            }
        } else if part.len() == 2 && part[0] == '.' && part[1] == '.' {
            proof {
                assert(part@ =~= seq!['.', '.']);
            }
            if st.len() == 0 {
                proof {
                    assert(st.deep_view().len() == 0);
                    assert(clean_segs(pd.take(k + 1)) is None);
                    lemma_clean_extend_none(pd, k + 1);
                    assert(clean_segs(segs(slashed(name@))) is None);
                    assert(!entry_name_ok(name@));
                }
                return Err(ArchiveError::InvalidEntryName);
            }
            let ghost old_deep = st.deep_view();
            st.pop();
            proof {
                assert(st.deep_view() =~= old_deep.drop_last());
            }
        } else {
            proof {
                assert(part@ != seq!['.']) by {
                    if part@ == seq!['.'] {
                        assert(part@.len() == 1 && part@[0] == '.');
                    }
                }
                assert(part@ != seq!['.', '.']) by {
                    if part@ == seq!['.', '.'] {
                        assert(part@.len() == 2 && part@[0] == '.' && part@[1] == '.');
                    }
                }
            }
            let ghost old_deep = st.deep_view();
            st.push(copy_chars(part));
            proof {
                assert(st.deep_view() =~~= old_deep.push(pd[k as int]));
            }
        }
        k = k + 1;
    }
    proof {
        assert(pd.take(m as int) =~= pd);
    }
    let joined = join_segs(&st);
    let ghost cleaned = st.deep_view();
    proof {
        assert(entry_name_ok(name@));
        assert(joined@ == normalized_entry(name@));
        assert(wf_segs(cleaned));
        lemma_join_segs_roundtrip(cleaned);
        if cleaned.len() > 0 {
            lemma_seg_join_first(cleaned);
            assert(cleaned[0].len() > 0);
            assert(cleaned[0][0] != '/') by {
                if cleaned[0][0] == '/' {
                    assert(cleaned[0].contains('/'));
                }
            }
        }
        assert(safe_rel(joined@));
    }
    Ok(chars_to_string(&joined))
}

/// Every prefix of the path's segment list as a joined string, shortest
/// first, the whole path (in segment normal form) last.
pub(crate) fn prefix_strings(p: &str) -> (r: Vec<String>)
    ensures
        r.deep_view() == prefix_seq(p@),
{
    let chars = str_chars(p);
    let parts = split_segs(&chars);
    let m = parts.len();
    let mut acc: Vec<char> = Vec::new();
    let mut out: Vec<String> = Vec::new();
    let mut k: usize = 0;
    proof {
        assert(parts.deep_view().len() == parts@.len());
    }
    while k < m
        invariant
            m == parts@.len(),
            parts.deep_view() == segs(p@),
            parts.deep_view().len() == m,
            k <= m,
            acc@ == seg_join(segs(p@).take(k as int)),
            out.deep_view() =~= prefix_seq(p@).take(k as int),
        decreases m - k,
    {
        let ghost pre = segs(p@).take(k as int);
        let ghost post = segs(p@).take(k + 1);
        proof {
            assert(post.drop_last() =~= pre);
            assert(post.last() == parts.deep_view()[k as int]);
        }
        if k > 0 {
            acc.push('/');
        }
        let part = &parts[k];
        let mut j: usize = 0;
        let ghost acc0 = acc@;
        while j < part.len()
            invariant
                j <= part@.len(),
                acc@ == acc0 + part@.take(j as int),
            decreases part@.len() - j,
        {
            acc.push(part[j]);
            proof {
                assert(part@.take(j + 1) =~= part@.take(j as int).push(part@[j as int]));
                assert(acc0 + part@.take(j + 1) =~= (acc0 + part@.take(j as int)).push(
                    part@[j as int]));
            }
            j = j + 1;
        }
        proof {
            assert(part@.take(part@.len() as int) =~= part@);
            assert(part@ =~= parts.deep_view()[k as int]);
            if k == 0 {
                assert(seg_join(post) == post[0]);
                assert(acc@ =~= seg_join(post));
            } else {
                assert(seg_join(post) == seg_join(pre) + seq!['/'] + post.last());
                assert(acc@ =~= seg_join(post));
            }
        }
        let ghost old_deep = out.deep_view();
        out.push(chars_to_string(&acc));
        proof {
            assert(out.deep_view() =~= old_deep.push(seg_join(post)));
            assert(prefix_seq(p@).take(k + 1) =~= prefix_seq(p@).take(k as int).push(
                prefix_seq(p@)[k as int]));
        }
        k = k + 1;
    }
    proof {
        assert(prefix_seq(p@).take(m as int) =~= prefix_seq(p@));
    }
    out
}

/// The parent-directory prefixes of a path, shortest first: every ancestor
/// of the path, not the path itself.
pub fn ancestors_rel(p: &str) -> (r: Vec<String>)
    ensures
        r.deep_view() == parent_prefixes(p@),
{
    let mut r = prefix_strings(p);
    let ghost full = r.deep_view();
    if r.len() > 0 {
        r.pop();
        proof {
            assert(r.deep_view() =~= full.drop_last());
        }
    }
    r
}

/// Whether some element of `v` is the string `s`.
pub(crate) fn vec_contains_string(v: &Vec<String>, s: &String) -> (r: bool)
    ensures
        r == v.deep_view().contains(s@),
{
    let n = v.len();
    let mut i: usize = 0;
    while i < n
        invariant
            n == v@.len(),
            i <= n,
            forall|j: int| 0 <= j < i ==> v.deep_view()[j] != s@,
        decreases n - i,
    {
        if v[i].eq(s) {
            proof {
                assert(v.deep_view()[i as int] == s@);
            }
            return true;
        }
        i = i + 1;
    }
    proof {
        if v.deep_view().contains(s@) {
            let j = choose|j: int| 0 <= j < v.deep_view().len() && v.deep_view()[j] == s@;
            assert(v.deep_view()[j] != s@);
        }
    }
    false
}


/// The ancestors of a path interleaved with their trailing-slash forms, in
/// emission order: each ancestor immediately followed by itself plus `/`.
pub open spec fn interleave_slashes(pd: Seq<Seq<char>>) -> Seq<Seq<char>>
    decreases pd.len(),
{
    if pd.len() == 0 {
        Seq::empty()
    } else {
        interleave_slashes(pd.drop_last()) + seq![pd.last(), pd.last() + seq!['/']]
    }
}

/// The items one pattern contributes to the expansion, in emission order:
/// its normal form, then each ancestor shortest-first, each immediately
/// followed by its trailing-slash form.
pub open spec fn pattern_items(p: Seq<char>) -> Seq<Seq<char>> {
    seq![norm_spec(p)] + interleave_slashes(parent_prefixes(norm_spec(p)))
}

/// Every pattern's items, in pattern order, duplicates still present.
pub open spec fn expansion_raw(ps: Seq<Seq<char>>) -> Seq<Seq<char>>
    decreases ps.len(),
{
    if ps.len() == 0 {
        Seq::empty()
    } else {
        expansion_raw(ps.drop_last()) + pattern_items(ps.last())
    }
}

/// The sequence with later repetitions of an element removed: each element
/// keeps its first position.
pub open spec fn dedup_first(s: Seq<Seq<char>>) -> Seq<Seq<char>>
    decreases s.len(),
{
    if s.len() == 0 {
        Seq::empty()
    } else {
        let d = dedup_first(s.drop_last());
        if d.contains(s.last()) {
            d
        } else {
            d.push(s.last())
        }
    }
}

/// The exact output of expanding a pattern list: the raw emission order
/// with first-occurrence deduplication.
pub open spec fn expansion_list(ps: Seq<Seq<char>>) -> Seq<Seq<char>> {
    dedup_first(expansion_raw(ps))
}

/// The interleaving is twice as long as the ancestor list.
pub proof fn lemma_interleave_len(pd: Seq<Seq<char>>)
    ensures
        interleave_slashes(pd).len() == 2 * pd.len(),
    decreases pd.len(),
{
    if pd.len() > 0 {
        lemma_interleave_len(pd.drop_last());
    }
}

/// Where each ancestor and its slashed form sit in the interleaving.
pub proof fn lemma_interleave_index(pd: Seq<Seq<char>>, k: int)
    requires
        0 <= k < pd.len(),
    ensures
        interleave_slashes(pd).len() == 2 * pd.len(),
        interleave_slashes(pd)[2 * k] == pd[k],
        interleave_slashes(pd)[2 * k + 1] == pd[k] + seq!['/'],
    decreases pd.len(),
{
    lemma_interleave_len(pd);
    let dl = pd.drop_last();
    lemma_interleave_len(dl);
    if k < pd.len() - 1 {
        lemma_interleave_index(dl, k);
        assert(interleave_slashes(pd)[2 * k] == interleave_slashes(dl)[2 * k]);
        assert(interleave_slashes(pd)[2 * k + 1] == interleave_slashes(dl)[2 * k + 1]);
    } else {
        assert(interleave_slashes(pd)[2 * k] == seq![pd.last(), pd.last() + seq!['/']][0]);
        assert(interleave_slashes(pd)[2 * k + 1] == seq![pd.last(), pd.last() + seq!['/']][1]);
    }
}

/// Appends `s` unless an equal string is already present, keeping the vector
/// free of duplicates.
pub(crate) fn push_unique(v: &mut Vec<String>, s: String)
    ensures
        final(v).deep_view() == (if old(v).deep_view().contains(s@) {
            old(v).deep_view()
        } else {
            old(v).deep_view().push(s@)
        }),
        final(v).deep_view().to_set() == old(v).deep_view().to_set().insert(s@),
        old(v).deep_view().no_duplicates() ==> final(v).deep_view().no_duplicates(),
{
    let ghost old_deep = v.deep_view();
    if !vec_contains_string(v, &s) {
        v.push(s);
        proof {
            assert(v.deep_view() =~= old_deep.push(s@));
            assert forall|x: Seq<char>| v.deep_view().to_set().contains(x)
                <==> old_deep.to_set().insert(s@).contains(x) by {
                if v.deep_view().contains(x) {
                    let j = choose|j: int|
                        0 <= j < v.deep_view().len() && v.deep_view()[j] == x;
                    if j < old_deep.len() {
                        assert(old_deep.contains(x));
                    }
                }
                if old_deep.contains(x) {
                    let j = choose|j: int| 0 <= j < old_deep.len() && old_deep[j] == x;
                    assert(v.deep_view()[j] == x);
                }
                if x == s@ {
                    assert(v.deep_view()[old_deep.len() as int] == x);
                }
            }
            assert(v.deep_view().to_set() =~= old_deep.to_set().insert(s@));
            if old_deep.no_duplicates() {
                assert forall|i: int, j: int|
                    0 <= i < v.deep_view().len() && 0 <= j < v.deep_view().len() && i != j
                    implies v.deep_view()[i] != v.deep_view()[j] by {
                    if i < old_deep.len() && j < old_deep.len() {
                    } else if j == old_deep.len() {
                        assert(old_deep.contains(v.deep_view()[i]) || !(v.deep_view()[i]
                            == v.deep_view()[j]));
                    } else {
                        assert(old_deep.contains(v.deep_view()[j]) || !(v.deep_view()[i]
                            == v.deep_view()[j]));
                    }
                }
            }
        }
    } else {
        proof {
            assert(old_deep.to_set().contains(s@));
            assert(old_deep.to_set() =~= old_deep.to_set().insert(s@));
        }
    }
}

/// The allow-list expanded with every implied parent directory: for each
/// pattern, its normal form plus every ancestor of it, the ancestors both
/// with and without a trailing separator, all deduplicated keeping first
/// positions. The result is exactly `expansion_list` of the patterns; its
/// element set is `expand_set_spec` of them.
pub fn expand_with_directories(patterns: &Vec<String>) -> (r: Vec<String>)
    ensures
        r.deep_view() == expansion_list(patterns.deep_view()),
        r.deep_view().to_set() == expand_set_spec(patterns.deep_view()),
        r.deep_view().no_duplicates(),
{
    let ghost ps = patterns.deep_view();
    let mut out: Vec<String> = Vec::new();
    let n = patterns.len();
    let mut i: usize = 0;
    proof {
        assert(ps.len() == patterns@.len());
        assert(expansion_raw(ps.take(0)) =~= Seq::<Seq<char>>::empty());
        assert(out.deep_view() =~= dedup_first(expansion_raw(ps.take(0))));
    }
    while i < n
        invariant
            n == patterns@.len(),
            ps == patterns.deep_view(),
            ps.len() == n,
            i <= n,
            out.deep_view() == dedup_first(expansion_raw(ps.take(i as int))),
            out.deep_view().to_set() =~= expand_set_spec(ps.take(i as int)),
            out.deep_view().no_duplicates(),
        decreases n - i,
    {
        let p = &patterns[i];
        proof {
            assert(p@ == ps[i as int]);
        }
        let nm = norm(p.as_str());
        let ghost nv = nm@;
        let parents = ancestors_rel(nm.as_str());
        let ghost pd = parent_prefixes(nv);
        let ghost mapped = pd.map_values(|d: Seq<char>| d + seq!['/']);
        let ghost items = pattern_items(ps[i as int]);
        let ghost raw0 = expansion_raw(ps.take(i as int));
        let ghost base = expand_set_spec(ps.take(i as int));
        proof {
            lemma_interleave_len(pd);
            assert(items == seq![nv] + interleave_slashes(pd));
            assert(items.len() == 1 + 2 * pd.len());
        }
        push_unique(&mut out, nm);
        let m = parents.len();
        let mut k: usize = 0;
        proof {
            assert(pd.len() == parents@.len());
            assert(pd.take(0).to_set() =~= Set::<Seq<char>>::empty());
            assert(mapped.take(0).to_set() =~= Set::<Seq<char>>::empty());
            assert(out.deep_view().to_set() =~= base.insert(nv).union(pd.take(0).to_set()).union(
                mapped.take(0).to_set()));
            assert(items.take(1) =~= seq![nv]);
            assert(raw0 + items.take(1) =~= raw0.push(nv));
            assert((raw0 + items.take(1)).drop_last() =~= raw0);
            assert(out.deep_view() == dedup_first(raw0 + items.take(1)));
        }
        while k < m
            invariant
                m == parents@.len(),
                parents.deep_view() == pd,
                pd.len() == m,
                nv == norm_spec(ps[i as int]),
                pd == parent_prefixes(nv),
                mapped == pd.map_values(|d: Seq<char>| d + seq!['/']),
                items == pattern_items(ps[i as int]),
                items == seq![nv] + interleave_slashes(pd),
                items.len() == 1 + 2 * m,
                raw0 == expansion_raw(ps.take(i as int)),
                base == expand_set_spec(ps.take(i as int)),
                k <= m,
                out.deep_view() == dedup_first(raw0 + items.take(1 + 2 * k)),
                out.deep_view().to_set() =~= base.insert(nv).union(pd.take(k as int).to_set())
                    .union(mapped.take(k as int).to_set()),
                out.deep_view().no_duplicates(),
            decreases m - k,
        {
            let d = parents[k].clone();
            proof {
                assert(d@ == pd[k as int]);
                lemma_interleave_index(pd, k as int);
                assert(items[1 + 2 * k] == pd[k as int]);
                assert(items[2 + 2 * k] == pd[k as int] + seq!['/']);
            }
            let mut d2 = d.clone();
            proof {
                assert(items.take(2 + 2 * k) =~= items.take(1 + 2 * k).push(pd[k as int]));
                assert(raw0 + items.take(2 + 2 * k) =~= (raw0 + items.take(1 + 2 * k)).push(
                    pd[k as int]));
                assert((raw0 + items.take(2 + 2 * k)).drop_last() =~= raw0 + items.take(
                    1 + 2 * k));
            }
            push_unique(&mut out, d);
            proof {
                assert(out.deep_view() == dedup_first(raw0 + items.take(2 + 2 * k)));
            }
            d2.append("/");
            proof {
                reveal_strlit("/");
                assert("/"@ =~= seq!['/']);
                assert(d2@ == pd[k as int] + seq!['/']);
                assert(d2@ == mapped[k as int]);
                assert(items.take(3 + 2 * k) =~= items.take(2 + 2 * k).push(
                    pd[k as int] + seq!['/']));
                assert(raw0 + items.take(3 + 2 * k) =~= (raw0 + items.take(2 + 2 * k)).push(
                    pd[k as int] + seq!['/']));
                assert((raw0 + items.take(3 + 2 * k)).drop_last() =~= raw0 + items.take(
                    2 + 2 * k));
            }
            push_unique(&mut out, d2);
            proof {
                assert(out.deep_view() == dedup_first(raw0 + items.take(3 + 2 * k)));
                assert(pd.take(k + 1) =~= pd.take(k as int).push(pd[k as int]));
                lemma_push_to_set(pd.take(k as int), pd[k as int]);
                assert(pd.take(k + 1).to_set() =~= pd.take(k as int).to_set().insert(
                    pd[k as int]));
                assert(mapped.take(k + 1) =~= mapped.take(k as int).push(mapped[k as int]));
                lemma_push_to_set(mapped.take(k as int), mapped[k as int]);
                assert(mapped.take(k + 1).to_set() =~= mapped.take(k as int).to_set().insert(
                    mapped[k as int]));
                assert(out.deep_view().to_set() =~= base.insert(nv).union(
                    pd.take(k + 1).to_set()).union(mapped.take(k + 1).to_set()));
            }
            k = k + 1;
        }
        proof {
            assert(pd.take(m as int) =~= pd);
            assert(mapped.take(m as int) =~= mapped);
            assert(seq![nv] =~= Seq::<Seq<char>>::empty().push(nv));
            lemma_push_to_set(Seq::<Seq<char>>::empty(), nv);
            assert(Seq::<Seq<char>>::empty().to_set() =~= Set::<Seq<char>>::empty());
            assert(seq![nv].to_set() =~= Set::<Seq<char>>::empty().insert(nv));
            assert(pattern_expansion(ps[i as int]) =~= seq![nv].to_set().union(pd.to_set()).union(
                mapped.to_set()));
            assert(ps.take(i + 1).drop_last() =~= ps.take(i as int));
            assert(expand_set_spec(ps.take(i + 1)) == expand_set_spec(ps.take(i as int)).union(
                pattern_expansion(ps[i as int])));
            assert(out.deep_view().to_set() =~= expand_set_spec(ps.take(i + 1)));
            assert(items.take(1 + 2 * m) =~= items);
            assert(expansion_raw(ps.take(i + 1)) =~= raw0 + items);
            assert(out.deep_view() == dedup_first(expansion_raw(ps.take(i + 1))));
        }
        i = i + 1;
    }
    proof {
        assert(ps.take(n as int) =~= ps);
    }
    out
}

/// Joins a relative path under a root and confirms the result stays inside:
/// a path that is absolute cannot be joined and is rejected.
pub fn join_and_assert_inside(root: &str, rel: &str) -> (r: Result<String, ArchiveError>)
    ensures
        r is Ok <==> !(rel@.len() > 0 && rel@[0] == '/'),
        r matches Ok(f) ==> f@ == root@ + seq!['/'] + rel@,
        r matches Err(e) ==> e == ArchiveError::PathEscape,
{
    let rc = str_chars(rel);
    if rc.len() > 0 && rc[0] == '/' {
        return Err(ArchiveError::PathEscape);
    }
    let mut out = str_chars(root);
    out.push('/');
    let mut j: usize = 0;
    while j < rc.len()
        invariant
            rc@ == rel@,
            j <= rc@.len(),
            out@ == root@ + seq!['/'] + rc@.take(j as int),
        decreases rc@.len() - j,
    {
        out.push(rc[j]);
        proof {
            assert(root@ + seq!['/'] + rc@.take(j + 1) =~= (root@ + seq!['/'] + rc@.take(
                j as int)).push(rc@[j as int]));
        }
        j = j + 1;
    }
    proof {
        assert(rc@.take(rc@.len() as int) =~= rc@);
    }
    Ok(chars_to_string(&out))
}

/// The chain of filesystem paths from the root down to the target: for every
/// ancestor of `rel` (the target itself last), that ancestor joined under
/// `root`. A caller that checks each element of the chain for a symlink has
/// covered every directory between the root and the target.
pub fn ancestor_chain(root: &str, rel: &str) -> (r: Vec<String>)
    ensures
        r.deep_view().len() == prefix_seq(rel@).len(),
        forall|k: int|
            0 <= k < r.deep_view().len() ==> r.deep_view()[k] == root@ + seq!['/']
                + prefix_seq(rel@)[k],
{
    let prefixes = prefix_strings(rel);
    let rc = str_chars(root);
    let mut r: Vec<String> = Vec::new();
    let m = prefixes.len();
    let mut k: usize = 0;
    proof {
        assert(prefixes.deep_view().len() == prefixes@.len());
    }
    while k < m
        invariant
            m == prefixes@.len(),
            prefixes.deep_view() == prefix_seq(rel@),
            prefix_seq(rel@).len() == m,
            rc@ == root@,
            k <= m,
            r.deep_view().len() == k,
            forall|t: int|
                0 <= t < k ==> r.deep_view()[t] == root@ + seq!['/'] + prefix_seq(rel@)[t],
        decreases m - k,
    {
        let mut out: Vec<char> = Vec::new();
        let mut j: usize = 0;
        while j < rc.len()
            invariant
                rc@ == root@,
                j <= rc@.len(),
                out@ == root@.take(j as int),
            decreases rc@.len() - j,
        {
            out.push(rc[j]);
            proof {
                assert(root@.take(j + 1) =~= root@.take(j as int).push(root@[j as int]));
            }
            j = j + 1;
        }
        proof {
            assert(root@.take(root@.len() as int) =~= root@);
        }
        out.push('/');
        let pre = &prefixes[k];
        proof {
            assert(pre@ == prefix_seq(rel@)[k as int]);
        }
        let pc = str_chars(pre.as_str());
        let mut j2: usize = 0;
        while j2 < pc.len()
            invariant
                pc@ == pre@,
                j2 <= pc@.len(),
                out@ == root@.push('/') + pc@.take(j2 as int),
            decreases pc@.len() - j2,
        {
            out.push(pc[j2]);
            proof {
                assert(root@.push('/') + pc@.take(j2 + 1) =~= (root@.push('/') + pc@.take(
                    j2 as int)).push(pc@[j2 as int]));
            }
            j2 = j2 + 1;
        }
        proof {
            assert(pc@.take(pc@.len() as int) =~= pc@);
            assert(out@ =~= root@ + seq!['/'] + prefix_seq(rel@)[k as int]);
        }
        let ghost old_deep = r.deep_view();
        r.push(chars_to_string(&out));
        proof {
            assert(r.deep_view() =~= old_deep.push(out@));
        }
        k = k + 1;
    }
    r
}

} // verus!
