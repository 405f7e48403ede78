//! Newline-separated name lists.
//!
//! A raw block of text stands for a list of names, one per line. Joining a
//! list inserts a single `'\n'` between entries; splitting cuts at every
//! `'\n'` and keeps empty segments, so the two are inverse to each other for
//! lists whose entries contain no newline. An empty block of text stands for
//! the empty list, not for a list with one empty name.

use vstd::prelude::*;
use vstd::string::{StrSliceExecFns, StringExecFns};

verus! {

/// The names joined into one block of text, a single `'\n'` between entries.
pub open spec fn joined(names: Seq<Seq<char>>) -> Seq<char>
    decreases names.len(),
{
    if names.len() == 0 {
        Seq::empty()
    } else if names.len() == 1 {
        names[0]
    } else {
        names[0] + seq!['\n'] + joined(names.drop_first())
    }
}

/// The text cut at every `'\n'`; empty segments are kept, and the empty text
/// yields one empty segment.
pub open spec fn split_lines(s: Seq<char>) -> Seq<Seq<char>>
    decreases s.len(),
{
    if s.len() == 0 {
        seq![Seq::<char>::empty()]
    } else {
        let r = split_lines(s.drop_last());
        if s.last() == '\n' {
            r.push(Seq::<char>::empty())
        } else {
            r.update(r.len() - 1, r.last().push(s.last()))
        }
    }
}

/// The name list a block of text stands for: no text means no names.
pub open spec fn lines_of(s: Seq<char>) -> Seq<Seq<char>> {
    if s.len() == 0 {
        Seq::empty()
    } else {
        split_lines(s)
    }
}

/// No entry contains an embedded newline.
pub open spec fn newline_free(names: Seq<Seq<char>>) -> bool {
    forall|i: int| 0 <= i < names.len() ==> !(#[trigger] names[i]).contains('\n')
}

/// The one list that joining cannot tell from the empty list: a single empty
/// name also joins to the empty text.
pub open spec fn single_empty_entry() -> Seq<Seq<char>> {
    seq![Seq::<char>::empty()]
}

pub proof fn lemma_split_lines_len(s: Seq<char>)
    ensures
        split_lines(s).len() >= 1,
    decreases s.len(),
{
    if s.len() > 0 {
        lemma_split_lines_len(s.drop_last());
    }
}

/// Splitting never produces an entry with an embedded newline.
pub proof fn lemma_split_lines_newline_free(s: Seq<char>)
    ensures
        newline_free(split_lines(s)),
    decreases s.len(),
{
    if s.len() > 0 {
        lemma_split_lines_newline_free(s.drop_last());
        lemma_split_lines_len(s.drop_last());
        let r = split_lines(s.drop_last());
        if s.last() != '\n' {
            assert forall|i: int| 0 <= i < split_lines(s).len() implies !(#[trigger] split_lines(
                s,
            )[i]).contains('\n') by {
                if i == r.len() - 1 {
                    let e = r.last().push(s.last());
                    assert(forall|j: int| 0 <= j < e.len() ==> e[j] != '\n');
                    if e.contains('\n') {
                        let j = choose|j: int| 0 <= j < e.len() && e[j] == '\n';
                    }
                }
            }
        }
    }
}

/// Appending one more name extends the joined text by a separator and the
/// name.
pub proof fn lemma_joined_push(names: Seq<Seq<char>>, e: Seq<char>)
    requires
        names.len() >= 1,
    ensures
        joined(names.push(e)) == joined(names) + seq!['\n'] + e,
    decreases names.len(),
{
    let p = names.push(e);
    if names.len() == 1 {
        assert(p.drop_first() =~= seq![e]);
        assert(joined(seq![e]) == e);
        assert(joined(p) == p[0] + seq!['\n'] + joined(p.drop_first()));
        assert(joined(p) =~= names[0] + seq!['\n'] + e);
    } else {
        assert(p.drop_first() =~= names.drop_first().push(e));
        lemma_joined_push(names.drop_first(), e);
        assert(joined(p) =~= joined(names) + seq!['\n'] + e);
    }
}

/// Splitting after appending newline-free text extends the final segment.
proof fn lemma_split_append_clean(x: Seq<char>, e: Seq<char>)
    requires
        !e.contains('\n'),
    ensures
        split_lines(x + e) == split_lines(x).update(
            split_lines(x).len() - 1,
            split_lines(x).last() + e,
        ),
    decreases e.len(),
{
    lemma_split_lines_len(x);
    let r = split_lines(x);
    if e.len() == 0 {
        assert(x + e =~= x);
        assert(r.last() + e =~= r.last());
        assert(r.update(r.len() - 1, r.last()) =~= r);
    } else {
        let e0 = e.drop_last();
        assert(!e0.contains('\n')) by {
            if e0.contains('\n') {
                let j = choose|j: int| 0 <= j < e0.len() && e0[j] == '\n';
                assert(e[j] == '\n');
            }
        }
        lemma_split_append_clean(x, e0);
        let s = x + e;
        assert(s.drop_last() =~= x + e0);
        assert(e.last() != '\n') by {
            assert(e[e.len() - 1] == e.last());
        }
        let r0 = split_lines(x + e0);
        assert(split_lines(s) == r0.update(r0.len() - 1, r0.last().push(e.last())));
        assert(r0.len() == r.len());
        assert(r0.last() == r.last() + e0);
        assert((r.last() + e0).push(e.last()) =~= r.last() + e);
        assert(r0.update(r0.len() - 1, r0.last().push(e.last())) =~= r.update(
            r.len() - 1,
            r.last() + e,
        ));
    }
}

/// Splitting after appending a separator opens a fresh empty segment.
proof fn lemma_split_append_newline(x: Seq<char>)
    ensures
        split_lines(x + seq!['\n']) == split_lines(x).push(Seq::<char>::empty()),
{
    let s = x + seq!['\n'];
    assert(s.drop_last() =~= x);
    assert(s.last() == '\n');
}

/// Splitting undoes joining, for any nonempty list of newline-free names.
pub proof fn lemma_split_lines_joined(names: Seq<Seq<char>>)
    requires
        names.len() >= 1,
        newline_free(names),
    ensures
        split_lines(joined(names)) == names,
    decreases names.len(),
{
    if names.len() == 1 {
        let e = names[0];
        assert(joined(names) == e);
        assert(Seq::<char>::empty() + e =~= e);
        lemma_split_append_clean(Seq::<char>::empty(), e);
        assert(split_lines(Seq::<char>::empty()) == seq![Seq::<char>::empty()]);
        assert(split_lines(e) =~= seq![e]) by {
            assert(split_lines(e) == seq![Seq::<char>::empty()].update(
                0,
                Seq::<char>::empty() + e,
            ));
        }
        assert(names =~= seq![e]);
    } else {
        let ns = names.drop_last();
        let e = names.last();
        assert(ns.push(e) =~= names);
        assert(newline_free(ns));
        lemma_joined_push(ns, e);
        assert(joined(names) == joined(ns) + seq!['\n'] + e);
        lemma_split_append_newline(joined(ns));
        lemma_split_lines_joined(ns);
        let mid = joined(ns) + seq!['\n'];
        assert(split_lines(mid) == ns.push(Seq::<char>::empty()));
        assert(!e.contains('\n')) by {
            assert(names[names.len() - 1] == e);
        }
        lemma_split_append_clean(mid, e);
        let rm = split_lines(mid);
        assert(joined(names) =~= mid + e);
        assert(rm.last() == Seq::<char>::empty());
        assert(rm.last() + e =~= e);
        assert(rm.update(rm.len() - 1, rm.last() + e) =~= ns.push(e));
    }
}

/// Joining at least two names, or one nonempty name, yields nonempty text.
pub proof fn lemma_joined_nonempty(names: Seq<Seq<char>>)
    requires
        names.len() >= 1,
        names != single_empty_entry(),
    ensures
        joined(names).len() > 0,
{
    if names.len() == 1 {
        if names[0].len() == 0 {
            assert(names[0] =~= Seq::<char>::empty());
            assert(names =~= single_empty_entry());
        }
    }
}

/// Reading a joined list back as lines restores the list, for every
/// newline-free list other than the one with a single empty name.
pub proof fn lemma_lines_of_joined(names: Seq<Seq<char>>)
    requires
        newline_free(names),
        names != single_empty_entry(),
    ensures
        lines_of(joined(names)) == names,
{
    if names.len() == 0 {
        assert(names =~= Seq::<Seq<char>>::empty());
    } else {
        lemma_joined_nonempty(names);
        lemma_split_lines_joined(names);
    }
}

/// Splitting a nonempty text never yields the single-empty-name list, so
/// `lines_of` tells that list and the empty list apart faithfully.
pub proof fn lemma_lines_of_not_single_empty(s: Seq<char>)
    ensures
        s.len() > 0 ==> split_lines(s) != single_empty_entry(),
{
    if s.len() > 0 {
        lemma_split_lines_len(s.drop_last());
        let r = split_lines(s.drop_last());
        let sp = split_lines(s);
        if s.last() == '\n' {
            assert(sp.len() == r.len() + 1);
            assert(single_empty_entry().len() == 1);
        } else {
            assert(sp.len() == r.len());
            if sp == single_empty_entry() {
                assert(sp[0] == r.last().push(s.last()));
                assert(sp[0].len() > 0);
                assert(single_empty_entry()[0] == Seq::<char>::empty());
                assert(false);
            }
        }
    }
}

/// Join a list of names into one newline-separated block of text.
pub fn join_names(names: &Vec<String>) -> (r: String)
    ensures
        r@ == joined(names.deep_view()),
{
    let ghost dv = names.deep_view();
    let mut out = String::new();
    proof {
        reveal_strlit("\n");
        assert("\n"@ =~= seq!['\n']);
    }
    let mut k: usize = 0;
    while k < names.len()
        invariant
            0 <= k <= names.len(),
            dv == names.deep_view(),
            dv.len() == names.len(),
            out@ == joined(dv.take(k as int)),
        decreases names.len() - k,
    {
        proof {
            reveal_strlit("\n");
            assert("\n"@ =~= seq!['\n']);
            assert(dv[k as int] == names[k as int]@);
            assert(dv.take(k as int + 1) =~= dv.take(k as int).push(dv[k as int]));
            if k > 0 {
                lemma_joined_push(dv.take(k as int), dv[k as int]);
            } else {
                assert(dv.take(1) =~= seq![dv[0]]);
            }
        }
        if k > 0 {
            out.append("\n");
        }
        out.append(names[k].as_str());
        proof {
            if k == 0 {
                assert(out@ =~= joined(dv.take(1)));
            } else {
                assert(out@ =~= joined(dv.take(k as int)) + seq!['\n'] + dv[k as int]);
            }
        }
        k += 1;
    }
    proof {
        assert(dv.take(names.len() as int) =~= dv);
    }
    out
}

/// Cut a block of text at every newline.
pub fn split_text(s: &str) -> (r: Vec<String>)
    ensures
        r.deep_view() == split_lines(s@),
{
    let n = s.unicode_len();
    let mut pieces: Vec<String> = Vec::new();
    let mut start: usize = 0;
    let mut i: usize = 0;
    proof {
        assert(s@.take(0) =~= Seq::<char>::empty());
        assert(s@.subrange(0, 0) =~= Seq::<char>::empty());
        assert(pieces.deep_view() =~= Seq::<Seq<char>>::empty());
        assert(pieces.deep_view().push(s@.subrange(0, 0)) =~= split_lines(s@.take(0)));
    }
    while i < n
        invariant
            0 <= start <= i <= n,
            n == s@.len(),
            pieces.deep_view().push(s@.subrange(start as int, i as int)) == split_lines(
                s@.take(i as int),
            ),
        decreases n - i,
    {
        let ghost pre = pieces.deep_view();
        let ghost cur = s@.subrange(start as int, i as int);
        let c = s.get_char(i);
        proof {
            assert(s@.take(i as int + 1).drop_last() =~= s@.take(i as int));
            assert(s@.take(i as int + 1).last() == s@[i as int]);
            lemma_split_lines_len(s@.take(i as int));
        }
        if c == '\n' {
            let piece = s.substring_char(start, i).to_owned();
            pieces.push(piece);
            start = i + 1;
            proof {
                assert(pieces.deep_view() =~= pre.push(cur));
                assert(s@.subrange(start as int, i as int + 1) =~= Seq::<char>::empty());
                assert(pieces.deep_view().push(Seq::<char>::empty()) =~= split_lines(
                    s@.take(i as int + 1),
                ));
            }
        } else {
            proof {
                let r = split_lines(s@.take(i as int));
                assert(r.len() == pre.len() + 1);
                assert(r.last() == cur);
                assert(split_lines(s@.take(i as int + 1)) == r.update(
                    r.len() - 1,
                    cur.push(s@[i as int]),
                ));
                assert(cur.push(s@[i as int]) =~= s@.subrange(start as int, i as int + 1));
                assert(pre.push(s@.subrange(start as int, i as int + 1)) =~= r.update(
                    r.len() - 1,
                    cur.push(s@[i as int]),
                ));
            }
        }
        i += 1;
    }
    let last_piece = s.substring_char(start, n).to_owned();
    pieces.push(last_piece);
    proof {
        assert(s@.take(n as int) =~= s@);
        assert(pieces.deep_view() =~= split_lines(s@));
    }
    pieces
}

/// The name list a block of text stands for, as a vector.
pub fn lines_vec(s: &str) -> (r: Vec<String>)
    ensures
        r.deep_view() == lines_of(s@),
{
    if s.is_empty() {
        let r: Vec<String> = Vec::new();
        proof {
            assert(r.deep_view() =~= Seq::<Seq<char>>::empty());
        }
        r
    } else {
        split_text(s)
    }
}

} // verus!
