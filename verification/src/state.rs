//! The tracker's state: a raw block of text and everything derived from it.
//!
//! The raw text is the single source of truth. The name list is derived by
//! trimming the whole block — not the single lines — and cutting at
//! newlines, an empty block standing for no names at all; the URL token is
//! the encoding of that list. Shuffling reorders the names at random, but
//! never hands back the old order when the list has at least two distinct
//! entries, and never pretends to shuffle a list whose entries are all
//! alike.

use vstd::prelude::*;
use vstd::seq_lib::lemma_multiset_commutative;
use rand::seq::SliceRandom;
use vstd::utf8::{encode_utf8, valid_utf8};
use crate::codec::{base64_text, decodable, decode, encode, encoded_token, pct_decoded};
use crate::text::{
    joined, join_names, lemma_lines_of_not_single_empty, lemma_split_lines_newline_free, lines_of,
    lines_vec, newline_free, single_empty_entry,
};

verus! {

/// The white space that trimming removes: the Unicode `White_Space` set, as
/// `char::is_whitespace` defines it.
pub open spec fn is_space(c: char) -> bool {
    let u = c as u32;
    (9 <= u <= 13) || u == 32 || u == 0x85 || u == 0xa0 || u == 0x1680 || (0x2000 <= u <= 0x200a)
        || u == 0x2028 || u == 0x2029 || u == 0x202f || u == 0x205f || u == 0x3000
}

fn is_space_exec(c: char) -> (r: bool)
    ensures
        r == is_space(c),
{
    let u = c as u32;
    (9 <= u && u <= 13) || u == 32 || u == 0x85 || u == 0xa0 || u == 0x1680 || (0x2000 <= u && u
        <= 0x200a) || u == 0x2028 || u == 0x2029 || u == 0x202f || u == 0x205f || u == 0x3000
}

/// The text with its leading white space removed.
pub open spec fn trim_start_spec(s: Seq<char>) -> Seq<char>
    decreases s.len(),
{
    if s.len() > 0 && is_space(s[0]) {
        trim_start_spec(s.drop_first())
    } else {
        s
    }
}

/// The text with its trailing white space removed.
pub open spec fn trim_end_spec(s: Seq<char>) -> Seq<char>
    decreases s.len(),
{
    if s.len() > 0 && is_space(s.last()) {
        trim_end_spec(s.drop_last())
    } else {
        s
    }
}

/// The text with white space removed from both ends, as `str::trim` does.
pub open spec fn trim_spec(s: Seq<char>) -> Seq<char> {
    trim_end_spec(trim_start_spec(s))
}

/// Dropping a fully spaced prefix is exactly `trim_start_spec`.
proof fn lemma_trim_start_skip(s: Seq<char>, a: int)
    requires
        0 <= a <= s.len(),
        forall|j: int| 0 <= j < a ==> is_space(#[trigger] s[j]),
        a < s.len() ==> !is_space(s[a]),
    ensures
        trim_start_spec(s) == s.skip(a),
    decreases a,
{
    if a == 0 {
        assert(s.skip(0) =~= s);
    } else {
        assert(is_space(s[0]));
        lemma_trim_start_skip(s.drop_first(), a - 1);
        assert(s.drop_first().skip(a - 1) =~= s.skip(a));
    }
}

/// Dropping a fully spaced suffix is exactly `trim_end_spec`.
proof fn lemma_trim_end_take(s: Seq<char>, b: int)
    requires
        0 <= b <= s.len(),
        forall|j: int| b <= j < s.len() ==> is_space(#[trigger] s[j]),
        b > 0 ==> !is_space(s[b - 1]),
    ensures
        trim_end_spec(s) == s.take(b),
    decreases s.len() - b,
{
    if b == s.len() {
        if s.len() > 0 && is_space(s.last()) {
            assert(!is_space(s[b - 1]));
        }
        assert(s.take(b) =~= s);
    } else {
        assert(is_space(s.last()));
        lemma_trim_end_take(s.drop_last(), b);
        assert(s.drop_last().take(b) =~= s.take(b));
    }
}

/// The text with its leading white space removed, executably.
fn trim_start_exec(s: &str) -> (r: String)
    ensures
        r@ == trim_start_spec(s@),
{
    let n = s.unicode_len();
    let mut a: usize = 0;
    while a < n && is_space_exec(s.get_char(a))
        invariant
            0 <= a <= n,
            n == s@.len(),
            forall|j: int| 0 <= j < a ==> is_space(#[trigger] s@[j]),
        decreases n - a,
    {
        a += 1;
    }
    proof {
        lemma_trim_start_skip(s@, a as int);
        assert(s@.subrange(a as int, n as int) =~= s@.skip(a as int));
    }
    s.substring_char(a, n).to_owned()
}

/// The text with white space removed from both ends, executably.
fn trim_exec(s: &str) -> (r: String)
    ensures
        r@ == trim_spec(s@),
{
    let n = s.unicode_len();
    let mut a: usize = 0;
    while a < n && is_space_exec(s.get_char(a))
        invariant
            0 <= a <= n,
            n == s@.len(),
            forall|j: int| 0 <= j < a ==> is_space(#[trigger] s@[j]),
        decreases n - a,
    {
        a += 1;
    }
    let mut b: usize = n;
    while b > a && is_space_exec(s.get_char(b - 1))
        invariant
            a <= b <= n,
            n == s@.len(),
            forall|j: int| 0 <= j < a ==> is_space(#[trigger] s@[j]),
            a < n ==> !is_space(s@[a as int]),
            forall|j: int| b <= j < n ==> is_space(#[trigger] s@[j]),
        decreases b,
    {
        b -= 1;
    }
    proof {
        lemma_trim_start_skip(s@, a as int);
        let t = s@.skip(a as int);
        lemma_trim_end_take(t, b as int - a as int);
        assert(s@.subrange(a as int, b as int) =~= t.take(b as int - a as int));
    }
    s.substring_char(a, b).to_owned()
}

/// The name list a raw block of text stands for: trim the whole block, then
/// cut at newlines; an all-space block stands for no names.
pub open spec fn parsed_names(raw: Seq<char>) -> Seq<Seq<char>> {
    lines_of(trim_spec(raw))
}

/// Whatever the raw text, the parsed list can ride in a URL token and come
/// back unchanged: its entries hold no newline, and it is never the one
/// list that encodes like the empty one.
pub proof fn lemma_parsed_names_decodable(raw: Seq<char>)
    ensures
        decodable(parsed_names(raw)),
{
    let t = trim_spec(raw);
    if t.len() == 0 {
        assert(parsed_names(raw).len() == 0);
        assert(single_empty_entry().len() == 1);
    } else {
        lemma_lines_of_not_single_empty(t);
        lemma_split_lines_newline_free(t);
    }
}

/// Some two entries differ, so more than one ordering of the list exists.
pub open spec fn has_distinct_pair(ns: Seq<Seq<char>>) -> bool {
    exists|i: int, j: int|
        0 <= i < ns.len() && 0 <= j < ns.len() && ns[i] != ns[j]
}

/// Relies on rand's `SliceRandom::shuffle` with `thread_rng`: it permutes
/// the elements in place, and nothing is promised about the order that any
/// one call produces.
#[verifier::external_body]
fn shuffle_in_place(v: &mut Vec<String>)
    ensures
        final(v).deep_view().to_multiset() == old(v).deep_view().to_multiset(),
{
    v.shuffle(&mut rand::thread_rng());
}

fn copy_names(names: &Vec<String>) -> (r: Vec<String>)
    ensures
        r@ == names@,
        r.deep_view() == names.deep_view(),
{
    let mut out: Vec<String> = Vec::new();
    let mut k: usize = 0;
    while k < names.len()
        invariant
            0 <= k <= names.len(),
            out@ =~= names@.take(k as int),
        decreases names.len() - k,
    {
        out.push(names[k].clone());
        proof {
            assert(out@ =~= names@.take(k as int + 1));
        }
        k += 1;
    }
    proof {
        assert(out@ =~= names@);
        assert(out.deep_view() =~= names.deep_view());
    }
    out
}

fn views_equal(a: &Vec<String>, b: &Vec<String>) -> (r: bool)
    ensures
        r == (a.deep_view() == b.deep_view()),
{
    if a.len() != b.len() {
        proof {
            assert(a.deep_view().len() != b.deep_view().len());
        }
        return false;
    }
    let mut k: usize = 0;
    while k < a.len()
        invariant
            0 <= k <= a.len(),
            a.len() == b.len(),
            forall|j: int| 0 <= j < k ==> a.deep_view()[j] == b.deep_view()[j],
        decreases a.len() - k,
    {
        if a[k] != b[k] {
            proof {
                assert(a.deep_view()[k as int] != b.deep_view()[k as int]);
            }
            return false;
        }
        k += 1;
    }
    proof {
        assert(a.deep_view() =~= b.deep_view());
    }
    true
}

/// Every entry equals the first when walking a chain of neighbour
/// equalities.
proof fn lemma_all_equal_chain(s: Seq<Seq<char>>, k: int)
    requires
        forall|m: int| 0 <= m < s.len() - 1 ==> s[m + 1] == #[trigger] s[m],
        0 <= k < s.len(),
    ensures
        s[k] == s[0],
    decreases k,
{
    if k > 0 {
        lemma_all_equal_chain(s, k - 1);
        assert(s[(k - 1) + 1] == s[k - 1]);
    }
}

/// Rotating a list with two distinct entries by one place changes it.
proof fn lemma_rotation_differs(s: Seq<Seq<char>>)
    requires
        has_distinct_pair(s),
    ensures
        s.drop_first().push(s[0]) != s,
{
    let r = s.drop_first().push(s[0]);
    if r == s {
        assert forall|m: int| 0 <= m < s.len() - 1 implies s[m + 1] == #[trigger] s[m] by {
            assert(r[m] == s.drop_first()[m]);
            assert(r[m] == s[m]);
        }
        let (i, j) = choose|i: int, j: int|
            0 <= i < s.len() && 0 <= j < s.len() && s[i] != s[j];
        lemma_all_equal_chain(s, i);
        lemma_all_equal_chain(s, j);
    }
}

/// A random reordering of the names.
///
/// The result always holds exactly the same entries. When at least two
/// entries differ the result is guaranteed to differ from the input: a few
/// random draws are tried, and if chance keeps returning the old order the
/// list is rotated by one place instead. When all entries are alike — or
/// there are fewer than two — reordering cannot change anything, so the
/// input comes back as it is.
pub fn shuffled_names(names: &Vec<String>) -> (r: Vec<String>)
    ensures
        r.deep_view().to_multiset() == names.deep_view().to_multiset(),
        has_distinct_pair(names.deep_view()) ==> r.deep_view() != names.deep_view(),
        !has_distinct_pair(names.deep_view()) ==> r.deep_view() == names.deep_view(),
{
    let ghost orig = names.deep_view();
    let n = names.len();
    let mut found = false;
    let mut k: usize = 1;
    while k < n
        invariant
            n == names.len(),
            1 <= k <= n || (n == 0 && k == 1),
            found ==> has_distinct_pair(names.deep_view()),
            !found ==> forall|i: int|
                0 <= i < k && i < n ==> #[trigger] names.deep_view()[i] == names.deep_view()[0],
        decreases n - k,
    {
        if !found {
            if names[k] != names[0] {
                proof {
                    assert(names.deep_view()[k as int] != names.deep_view()[0]);
                }
                found = true;
            }
        }
        k += 1;
    }
    if !found {
        proof {
            if has_distinct_pair(orig) {
                let (i, j) = choose|i: int, j: int|
                    0 <= i < orig.len() && 0 <= j < orig.len() && orig[i] != orig[j];
                assert(orig[i] == orig[0]);
                assert(orig[j] == orig[0]);
            }
        }
        return copy_names(names);
    }
    let mut v = copy_names(names);
    let mut tries: usize = 0;
    while tries < 16
        invariant
            v.deep_view().to_multiset() == orig.to_multiset(),
            orig == names.deep_view(),
            has_distinct_pair(orig),
        decreases 16 - tries,
    {
        shuffle_in_place(&mut v);
        if !views_equal(&v, names) {
            return v;
        }
        tries += 1;
    }
    if !views_equal(&v, names) {
        return v;
    }
    let ghost dv = v.deep_view();
    proof {
        let (i, j) = choose|i: int, j: int|
            0 <= i < orig.len() && 0 <= j < orig.len() && orig[i] != orig[j];
        assert(orig.len() >= 1);
    }
    let vn = v.len();
    proof {
        assert(vn >= 1);
    }
    let mut out: Vec<String> = Vec::new();
    let mut m: usize = 1;
    while m < vn
        invariant
            vn == v.len(),
            vn >= 1,
            1 <= m <= vn,
            dv == v.deep_view(),
            out@ =~= v@.subrange(1, m as int),
        decreases vn - m,
    {
        out.push(v[m].clone());
        proof {
            assert(out@ =~= v@.subrange(1, m as int + 1));
        }
        m += 1;
    }
    out.push(v[0].clone());
    proof {
        assert(out@ =~= v@.subrange(1, vn as int).push(v@[0]));
        let rot = dv.drop_first().push(dv[0]);
        assert forall|i: int| 0 <= i < out.deep_view().len() implies out.deep_view()[i] == rot[i] by {
            if i < dv.len() - 1 {
                assert(out@[i] == v@[i + 1]);
            } else {
                assert(out@[i] == v@[0]);
            }
        }
        assert(out.deep_view() =~= rot);
        assert(rot =~= dv.drop_first() + seq![dv[0]]);
        assert(seq![dv[0]] + dv.drop_first() =~= dv);
        lemma_multiset_commutative(seq![dv[0]], dv.drop_first());
        lemma_multiset_commutative(dv.drop_first(), seq![dv[0]]);
        assert(out.deep_view().to_multiset() =~= dv.to_multiset());
        lemma_rotation_differs(dv);
    }
    out
}

/// The tracker's one piece of mutable state: the raw text of the name list.
pub struct RotationState {
    pub raw: String,
}

impl RotationState {
    /// The names the current raw text stands for.
    pub open spec fn names_spec(&self) -> Seq<Seq<char>> {
        parsed_names(self.raw@)
    }

    /// A fresh tracker with no names.
    pub fn new() -> (st: Self)
        ensures
            st.raw@ == Seq::<char>::empty(),
    {
        RotationState { raw: String::new() }
    }

    /// Seed the state from the URL's query component. A token that `encode`
    /// produced for some list restores that list's text; an empty or
    /// malformed query starts the tracker empty instead of failing.
    pub fn from_query(query: &str) -> (st: Self)
        ensures
            query@.len() == 0 ==> st.raw@ == Seq::<char>::empty(),
            forall|ns: Seq<Seq<char>>|
                query@.len() > 0 && decodable(ns) && query@ == #[trigger] encoded_token(ns)
                    ==> st.raw@ == joined(ns),
            !(exists|bs: Seq<u8>|
                pct_decoded(encode_utf8(query@)) == #[trigger] base64_text(bs) && valid_utf8(bs))
                ==> st.raw@ == Seq::<char>::empty(),
    {
        if query.is_empty() {
            Self::new()
        } else {
            match decode(query) {
                Result::Ok(names) => {
                    let raw = join_names(&names);
                    RotationState { raw }
                },
                Result::Err(_) => Self::new(),
            }
        }
    }

    /// The current name list, in rotation order.
    pub fn names(&self) -> (r: Vec<String>)
        ensures
            r.deep_view() == self.names_spec(),
    {
        let t = trim_exec(self.raw.as_str());
        lines_vec(t.as_str())
    }

    /// The URL token that carries the current list.
    pub fn url_token(&self) -> (token: String)
        ensures
            token@ == encoded_token(self.names_spec()),
    {
        let ns = self.names();
        encode(&ns)
    }

    /// Replace the raw text, trimming leading white space of the whole
    /// block, as typing into the tracker does.
    pub fn set_raw_text(&mut self, text: &str)
        ensures
            final(self).raw@ == trim_start_spec(text@),
    {
        self.raw = trim_start_exec(text);
    }

    /// Drop all names.
    pub fn clear(&mut self)
        ensures
            final(self).raw@ == Seq::<char>::empty(),
    {
        self.raw = String::new();
    }

    /// Reorder the names at random and make the new order the raw text.
    pub fn shuffle(&mut self)
        ensures
            exists|p: Seq<Seq<char>>|
                {
                    &&& #[trigger] p.to_multiset() == old(self).names_spec().to_multiset()
                    &&& final(self).raw@ == joined(p)
                    &&& has_distinct_pair(old(self).names_spec()) ==> p != old(self).names_spec()
                    &&& !has_distinct_pair(old(self).names_spec()) ==> p == old(
                        self,
                    ).names_spec()
                },
    {
        let ns = self.names();
        let w = shuffled_names(&ns);
        let raw = join_names(&w);
        self.raw = raw;
        proof {
            assert(w.deep_view().to_multiset() == old(self).names_spec().to_multiset());
        }
    }
}

} // verus!
