//! Text utilities shared by the archive reader and the scanner: ASCII case
//! folding, lexicographic ordering of character sequences, and a verified
//! sort for path lists.

use vstd::prelude::*;
use vstd::relations::{sorted_by, total_ordering};

use crate::codec::push_char;

verus! {

broadcast use vstd::seq_lib::group_seq_lib_default, vstd::multiset::group_multiset_axioms;

/// ASCII case folding of one character: `A`..`Z` map to `a`..`z`, everything
/// else is unchanged.
pub open spec fn spec_lower_char(c: char) -> char {
    if 65 <= c as u32 && c as u32 <= 90 {
        (((c as u32) + 32) as u8) as char
    } else {
        c
    }
}

/// ASCII case folding of a character sequence.
pub open spec fn lower_chars(s: Seq<char>) -> Seq<char> {
    s.map_values(|c: char| spec_lower_char(c))
}

fn lower_char(c: char) -> (r: char)
    ensures
        r == spec_lower_char(c),
{
    let u = c as u32;
    if 65 <= u && u <= 90 {
        ((u + 32) as u8) as char
    } else {
        c
    }
}

/// Returns `s` with every ASCII upper-case letter folded to lower case.
pub fn lower_ascii(s: &str) -> (r: String)
    ensures
        r@ == lower_chars(s@),
{
    let n = s.unicode_len();
    let mut out = String::new();
    let mut i: usize = 0;
    proof {
        assert(out@ =~= lower_chars(s@.subrange(0, 0)));
    }
    while i < n
        invariant
            i <= n,
            n == s@.len(),
            out@ == lower_chars(s@.subrange(0, i as int)),
        decreases n - i,
    {
        let c = lower_char(s.get_char(i));
        push_char(&mut out, c);
        proof {
            assert(s@.subrange(0, i as int + 1) =~= s@.subrange(0, i as int).push(s@[i as int]));
            assert(lower_chars(s@.subrange(0, i as int + 1)) =~= lower_chars(
                s@.subrange(0, i as int),
            ).push(spec_lower_char(s@[i as int])));
        }
        i = i + 1;
    }
    proof {
        assert(s@.subrange(0, n as int) =~= s@);
    }
    out
}

/// Lexicographic less-or-equal on character sequences, comparing characters
/// by code point; a proper prefix sorts before its extensions.
pub open spec fn chars_le(a: Seq<char>, b: Seq<char>) -> bool
    decreases a.len(),
{
    if a.len() == 0 {
        true
    } else if b.len() == 0 {
        false
    } else if a[0] as u32 == b[0] as u32 {
        chars_le(a.drop_first(), b.drop_first())
    } else {
        (a[0] as u32) < (b[0] as u32)
    }
}

/// `chars_le` as a relation value, for use with vstd's ordering predicates.
pub open spec fn chars_le_order() -> spec_fn(Seq<char>, Seq<char>) -> bool {
    |a: Seq<char>, b: Seq<char>| chars_le(a, b)
}

/// `chars_le` is reflexive.
pub proof fn lemma_chars_le_refl(a: Seq<char>)
    ensures
        chars_le(a, a),
    decreases a.len(),
{
    if a.len() > 0 {
        lemma_chars_le_refl(a.drop_first());
    }
}

/// Any two sequences are comparable under `chars_le`.
pub proof fn lemma_chars_le_total(a: Seq<char>, b: Seq<char>)
    ensures
        chars_le(a, b) || chars_le(b, a),
    decreases a.len(),
{
    if a.len() > 0 && b.len() > 0 && a[0] as u32 == b[0] as u32 {
        lemma_chars_le_total(a.drop_first(), b.drop_first());
    }
}

/// Mutually `chars_le`-comparable sequences are equal.
pub proof fn lemma_chars_le_antisymm(a: Seq<char>, b: Seq<char>)
    requires
        chars_le(a, b),
        chars_le(b, a),
    ensures
        a == b,
    decreases a.len(),
{
    if a.len() == 0 {
        assert(b.len() == 0);
        assert(a =~= b);
    } else {
        assert(b.len() > 0);
        assert(a[0] as u32 == b[0] as u32);
        vstd::utf8::char_u32_cast(a[0], a[0] as u32);
        vstd::utf8::char_u32_cast(b[0], b[0] as u32);
        assert(a[0] == b[0]);
        lemma_chars_le_antisymm(a.drop_first(), b.drop_first());
        assert(a.len() == b.len());
        assert forall|i: int| 0 <= i < a.len() implies a[i] == b[i] by {
            if i > 0 {
                assert(a[i] == a.drop_first()[i - 1]);
                assert(b[i] == b.drop_first()[i - 1]);
            }
        }
        assert(a =~= b);
    }
}

/// `chars_le` is transitive.
pub proof fn lemma_chars_le_trans(a: Seq<char>, b: Seq<char>, c: Seq<char>)
    requires
        chars_le(a, b),
        chars_le(b, c),
    ensures
        chars_le(a, c),
    decreases a.len(),
{
    if a.len() > 0 {
        assert(b.len() > 0);
        assert(c.len() > 0);
        if a[0] as u32 == b[0] as u32 && b[0] as u32 == c[0] as u32 {
            lemma_chars_le_trans(a.drop_first(), b.drop_first(), c.drop_first());
        }
    }
}

/// `chars_le` is a total order, so sorting by it yields one canonical
/// arrangement of any multiset of names.
pub proof fn lemma_chars_le_total_ordering()
    ensures
        total_ordering(chars_le_order()),
{
    let r = chars_le_order();
    assert forall|a: Seq<char>| #[trigger] r(a, a) by {
        lemma_chars_le_refl(a);
    }
    assert forall|a: Seq<char>, b: Seq<char>| #[trigger] r(a, b) && #[trigger] r(b, a) implies a
        == b by {
        lemma_chars_le_antisymm(a, b);
    }
    assert forall|a: Seq<char>, b: Seq<char>, c: Seq<char>|
        #[trigger] r(a, b) && #[trigger] r(b, c) implies r(a, c) by {
        lemma_chars_le_trans(a, b, c);
    }
    assert forall|a: Seq<char>, b: Seq<char>| #[trigger] r(a, b) || #[trigger] r(b, a) by {
        lemma_chars_le_total(a, b);
    }
}

/// Lexicographic less-or-equal on strings, by code point.
pub fn str_le(a: &str, b: &str) -> (r: bool)
    ensures
        r == chars_le(a@, b@),
{
    let na = a.unicode_len();
    let nb = b.unicode_len();
    let mut i: usize = 0;
    proof {
        assert(a@.skip(0) =~= a@);
        assert(b@.skip(0) =~= b@);
    }
    loop
        invariant
            i <= na,
            i <= nb,
            na == a@.len(),
            nb == b@.len(),
            chars_le(a@, b@) == chars_le(a@.skip(i as int), b@.skip(i as int)),
        decreases na - i,
    {
        if i >= na {
            assert(a@.skip(i as int).len() == 0);
            return true;
        }
        if i >= nb {
            assert(b@.skip(i as int).len() == 0);
            return false;
        }
        let ca = a.get_char(i) as u32;
        let cb = b.get_char(i) as u32;
        assert(a@.skip(i as int)[0] == a@[i as int]);
        assert(b@.skip(i as int)[0] == b@[i as int]);
        if ca != cb {
            return ca < cb;
        }
        proof {
            assert(a@.skip(i as int).drop_first() =~= a@.skip(i as int + 1));
            assert(b@.skip(i as int).drop_first() =~= b@.skip(i as int + 1));
        }
        i = i + 1;
    }
}

/// Index of the last occurrence of `c` in `s`, or -1 when `c` is absent.
pub open spec fn last_index_of(s: Seq<char>, c: char) -> int
    decreases s.len(),
{
    if s.len() == 0 {
        -1
    } else if s.last() == c {
        s.len() - 1
    } else {
        last_index_of(s.drop_last(), c)
    }
}

/// `last_index_of` points at a real occurrence and nothing follows it.
pub proof fn lemma_last_index_of(s: Seq<char>, c: char)
    ensures
        -1 <= last_index_of(s, c) < s.len(),
        last_index_of(s, c) >= 0 ==> s[last_index_of(s, c)] == c,
        forall|t: int| last_index_of(s, c) < t < s.len() ==> s[t] != c,
    decreases s.len(),
{
    if s.len() > 0 && s.last() != c {
        lemma_last_index_of(s.drop_last(), c);
        assert forall|t: int| 0 <= t < s.len() - 1 implies s[t] == s.drop_last()[t] by {}
    }
}

/// Index of the last occurrence of `c` in `s`, if there is one.
pub fn rfind_char(s: &str, c: char) -> (r: Option<usize>)
    ensures
        r matches Some(i) ==> i == last_index_of(s@, c) && i < s@.len(),
        r is None ==> last_index_of(s@, c) == -1,
{
    let n = s.unicode_len();
    let mut j = n;
    proof {
        assert(s@.subrange(0, n as int) =~= s@);
    }
    while j > 0
        invariant
            j <= n,
            n == s@.len(),
            last_index_of(s@, c) == last_index_of(s@.subrange(0, j as int), c),
        decreases j,
    {
        let ghost prefix = s@.subrange(0, j as int);
        assert(prefix.last() == s@[j - 1]);
        if s.get_char(j - 1) == c {
            return Some(j - 1);
        }
        proof {
            assert(prefix.drop_last() =~= s@.subrange(0, j as int - 1));
        }
        j = j - 1;
    }
    None
}

/// Whether `prefix` is a prefix of `s`, character for character.
pub fn starts_with_str(s: &str, prefix: &str) -> (r: bool)
    ensures
        r == prefix@.is_prefix_of(s@),
{
    let np = prefix.unicode_len();
    let ns = s.unicode_len();
    if np > ns {
        return false;
    }
    let mut i: usize = 0;
    while i < np
        invariant
            i <= np <= ns,
            np == prefix@.len(),
            ns == s@.len(),
            forall|t: int| 0 <= t < i ==> prefix@[t] == s@[t],
        decreases np - i,
    {
        if prefix.get_char(i) != s.get_char(i) {
            assert(!prefix@.is_prefix_of(s@)) by {
                if prefix@.is_prefix_of(s@) {
                    assert(prefix@[i as int] == s@.subrange(0, np as int)[i as int]);
                }
            }
            return false;
        }
        i = i + 1;
    }
    proof {
        assert(prefix@ =~= s@.subrange(0, np as int));
    }
    true
}

/// The bare file name of a `/`-separated path: everything after the last
/// separator (the whole path when there is none).
pub open spec fn spec_file_name(p: Seq<char>) -> Seq<char> {
    p.subrange(last_index_of(p, '/') + 1, p.len() as int)
}

/// The bare file name of `path`.
pub fn file_name_of(path: &str) -> (r: String)
    ensures
        r@ == spec_file_name(path@),
{
    let n = path.unicode_len();
    proof {
        lemma_last_index_of(path@, '/');
    }
    let start = match rfind_char(path, '/') {
        Some(i) => i + 1,
        None => 0,
    };
    String::from_str(path.substring_char(start, n))
}

/// The directory that holds loose override files, with a trailing
/// separator: `<root>/packages/core/override/`.
pub open spec fn spec_override_prefix(root: Seq<char>) -> Seq<char> {
    root + "/packages/core/override/"@
}

/// Whether `p` lies inside the override directory of `root`.
pub open spec fn spec_is_override_path(root: Seq<char>, p: Seq<char>) -> bool {
    spec_override_prefix(root).is_prefix_of(p)
}

/// Whether `path` lies inside the override directory of `root`.
pub fn is_override_path(root: &str, path: &str) -> (r: bool)
    ensures
        r == spec_is_override_path(root@, path@),
{
    let mut prefix = String::from_str(root);
    prefix.append("/packages/core/override/");
    starts_with_str(path, prefix.as_str())
}

/// The views of a sequence of strings.
pub open spec fn views_of(v: Seq<String>) -> Seq<Seq<char>> {
    v.map_values(|s: String| s@)
}

/// Sorts a list of strings into ascending lexicographic order, keeping
/// exactly the same multiset of values.
pub fn sort_strings(v: &mut Vec<String>)
    ensures
        sorted_by(views_of(final(v)@), chars_le_order()),
        views_of(final(v)@).to_multiset() == views_of(old(v)@).to_multiset(),
{
    broadcast use vstd::seq_lib::group_to_multiset_ensures;

    let ghost orig = views_of(v@);
    let mut out: Vec<String> = Vec::new();
    proof {
        assert(views_of(out@) =~= Seq::<Seq<char>>::empty());
        assert(views_of(out@).to_multiset().add(views_of(v@).to_multiset())
            =~= orig.to_multiset());
    }
    while v.len() > 0
        invariant
            sorted_by(views_of(out@), chars_le_order()),
            forall|p: int, q: int|
                0 <= p < out@.len() && 0 <= q < v@.len() ==> chars_le(
                    #[trigger] out@[p]@,
                    #[trigger] v@[q]@,
                ),
            views_of(out@).to_multiset().add(views_of(v@).to_multiset()) == orig.to_multiset(),
        decreases v@.len(),
    {
        let mut mi: usize = 0;
        let mut k: usize = 1;
        proof {
            lemma_chars_le_refl(v@[0]@);
        }
        while k < v.len()
            invariant
                0 < k <= v@.len(),
                mi < k,
                v@.len() > 0,
                forall|t: int| 0 <= t < k ==> chars_le(v@[mi as int]@, #[trigger] v@[t]@),
            decreases v@.len() - k,
        {
            if str_le(v[k].as_str(), v[mi].as_str()) {
                assert forall|t: int| 0 <= t < k + 1 implies chars_le(
                    v@[k as int]@,
                    #[trigger] v@[t]@,
                ) by {
                    if t < k {
                        lemma_chars_le_trans(v@[k as int]@, v@[mi as int]@, v@[t]@);
                    } else {
                        lemma_chars_le_refl(v@[k as int]@);
                    }
                }
                mi = k;
            } else {
                proof {
                    lemma_chars_le_total(v@[k as int]@, v@[mi as int]@);
                }
            }
            k = k + 1;
        }
        let ghost before = v@;
        let x = v.remove(mi);
        proof {
            assert(views_of(v@) =~= views_of(before).remove(mi as int));
        }
        let ghost out_before = out@;
        out.push(x);
        proof {
            views_of(before).to_multiset_ensures();
            views_of(out_before).to_multiset_ensures();
            assert(views_of(out@) =~= views_of(out_before).push(x@));
            assert(views_of(out@).to_multiset() =~= views_of(out_before).to_multiset().insert(
                x@,
            ));
            assert(views_of(v@).to_multiset() =~= views_of(before).to_multiset().remove(x@));
            assert(views_of(out_before).to_multiset().insert(x@).add(
                views_of(before).to_multiset().remove(x@),
            ) =~= views_of(out_before).to_multiset().add(views_of(before).to_multiset())) by {
                assert(views_of(before)[mi as int] == x@);
                assert(views_of(before).contains(x@));
                assert(views_of(before).to_multiset().count(x@) > 0);
            }
            assert forall|p: int, q: int| 0 <= p < out@.len() && 0 <= q < v@.len() implies chars_le(
                #[trigger] out@[p]@,
                #[trigger] v@[q]@,
            ) by {
                let qb: int = if q < mi { q } else { q + 1 };
                assert(v@[q]@ == before[qb]@);
                if p < out@.len() - 1 {
                    assert(chars_le(out@[p]@, before[qb]@));
                } else {
                    assert(out@[p]@ == before[mi as int]@);
                    assert(chars_le(before[mi as int]@, before[qb]@));
                }
            }
            assert(sorted_by(views_of(out@), chars_le_order())) by {
                let ob = views_of(out_before);
                let no = views_of(out@);
                assert(no =~= ob.push(x@));
                assert forall|p: int, q: int| 0 <= p < q < no.len() implies chars_le_order()(
                    no[p],
                    no[q],
                ) by {
                    if q < no.len() - 1 {
                        assert(chars_le_order()(ob[p], ob[q]));
                        assert(no[p] == ob[p]);
                        assert(no[q] == ob[q]);
                    } else {
                        assert(out_before[p]@ == ob[p]);
                        assert(chars_le(out_before[p]@, before[mi as int]@));
                        assert(no[q] == x@);
                    }
                }
            }
        }
    }
    *v = out;
}

} // verus!
