//! String helpers shared by the whole library: prefix and substring tests,
//! lexicographic ordering, concatenation and path manipulation, each with an
//! exact specification over `Seq<char>` views.

use vstd::prelude::*;
use vstd::string::StrSliceExecFns;
use vstd::string::StringExecFns;

verus! {

/// `p` is a prefix of `s`.
pub open spec fn prefix_of(p: Seq<char>, s: Seq<char>) -> bool {
    p.len() <= s.len() && s.subrange(0, p.len() as int) == p
}

/// `p` occurs in `s` starting at index `i`.
pub open spec fn sub_at(s: Seq<char>, i: int, p: Seq<char>) -> bool {
    0 <= i && i + p.len() <= s.len() && s.subrange(i, i + p.len()) == p
}

/// `p` occurs somewhere in `s`.
pub open spec fn contains_sub(s: Seq<char>, p: Seq<char>) -> bool {
    exists|i: int| sub_at(s, i, p)
}

/// Strict lexicographic order on character sequences, by code point.
pub open spec fn lex_lt(a: Seq<char>, b: Seq<char>) -> bool
    decreases a.len(),
{
    if b.len() == 0 {
        false
    } else if a.len() == 0 {
        true
    } else if a[0] != b[0] {
        (a[0] as int) < (b[0] as int)
    } else {
        lex_lt(a.subrange(1, a.len() as int), b.subrange(1, b.len() as int))
    }
}

/// Equality of two string slices, decided character by character.
pub fn str_eq_str(a: &str, b: &str) -> (r: bool)
    ensures
        r == (a@ == b@),
{
    let alen: usize = a.unicode_len();
    let blen: usize = b.unicode_len();
    if alen != blen {
        proof {
            assert(a@ != b@);
        }
        return false;
    }
    let mut i: usize = 0;
    while i < alen
        invariant
            alen == a@.len(),
            blen == b@.len(),
            alen == blen,
            i <= alen,
            forall|j: int| 0 <= j < i ==> a@[j] == b@[j],
        decreases alen - i,
    {
        if a.get_char(i) != b.get_char(i) {
            return false;
        }
        i = i + 1;
    }
    proof {
        assert(a@ =~= b@);
    }
    true
}

/// Does `s` start with `p`?
pub fn starts_with(s: &str, p: &str) -> (r: bool)
    ensures
        r == prefix_of(p@, s@),
{
    let slen: usize = s.unicode_len();
    let plen: usize = p.unicode_len();
    if plen > slen {
        return false;
    }
    let mut i: usize = 0;
    while i < plen
        invariant
            slen == s@.len(),
            plen == p@.len(),
            plen <= slen,
            i <= plen,
            forall|j: int| 0 <= j < i ==> s@[j] == p@[j],
        decreases plen - i,
    {
        if s.get_char(i) != p.get_char(i) {
            proof {
                assert(s@.subrange(0, p@.len() as int)[i as int] != p@[i as int]);
            }
            return false;
        }
        i = i + 1;
    }
    proof {
        assert(s@.subrange(0, p@.len() as int) =~= p@);
    }
    true
}

/// Leftmost occurrence of `p` in `s`, if any.
pub fn find_sub(s: &str, p: &str) -> (r: Option<usize>)
    ensures
        match r {
            Some(i) => sub_at(s@, i as int, p@) && forall|j: int|
                0 <= j < i ==> !sub_at(s@, j, p@),
            None => !contains_sub(s@, p@),
        },
{
    let slen: usize = s.unicode_len();
    let plen: usize = p.unicode_len();
    if plen > slen {
        proof {
            assert(forall|i: int| !sub_at(s@, i, p@));
        }
        return None;
    }
    if plen == 0 {
        proof {
            assert(s@.subrange(0, 0) =~= p@);
        }
        return Some(0);
    }
    let mut i: usize = 0;
    while i <= slen - plen
        invariant
            slen == s@.len(),
            plen == p@.len(),
            0 < plen <= slen,
            i <= slen - plen + 1,
            forall|j: int| 0 <= j < i ==> !sub_at(s@, j, p@),
        decreases slen - plen + 1 - i,
    {
        let mut k: usize = 0;
        let mut all_eq: bool = true;
        while k < plen
            invariant
                slen == s@.len(),
                plen == p@.len(),
                plen <= slen,
                i + plen <= slen,
                k <= plen,
                all_eq ==> forall|j: int| 0 <= j < k ==> s@[i + j] == p@[j],
                !all_eq ==> !sub_at(s@, i as int, p@),
            decreases plen - k,
        {
            if s.get_char(i + k) != p.get_char(k) {
                proof {
                    assert(s@.subrange(i as int, i + p@.len())[k as int] != p@[k as int]);
                }
                all_eq = false;
            }
            k = k + 1;
        }
        if all_eq {
            proof {
                assert(s@.subrange(i as int, i + p@.len()) =~= p@);
            }
            return Some(i);
        }
        i = i + 1;
    }
    proof {
        assert forall|j: int| !sub_at(s@, j, p@) by {
            if 0 <= j && j + p@.len() <= s@.len() {
                assert(j < i);
            }
        }
    }
    None
}

/// Does `p` occur in `s`?
pub fn contains_str(s: &str, p: &str) -> (r: bool)
    ensures
        r == contains_sub(s@, p@),
{
    match find_sub(s, p) {
        Some(_) => true,
        None => false,
    }
}

/// Strict lexicographic comparison of two string slices.
pub fn str_lt(a: &str, b: &str) -> (r: bool)
    ensures
        r == lex_lt(a@, b@),
{
    let alen: usize = a.unicode_len();
    let blen: usize = b.unicode_len();
    proof {
        assert(a@.subrange(0, alen as int) =~= a@);
        assert(b@.subrange(0, blen as int) =~= b@);
    }
    let mut i: usize = 0;
    loop
        invariant
            alen == a@.len(),
            blen == b@.len(),
            i <= alen,
            i <= blen,
            forall|j: int| 0 <= j < i ==> a@[j] == b@[j],
            lex_lt(a@, b@) == lex_lt(
                a@.subrange(i as int, alen as int),
                b@.subrange(i as int, blen as int),
            ),
        decreases alen - i,
    {
        proof {
            reveal(lex_lt);
        }
        if i >= blen {
            proof {
                assert(b@.subrange(i as int, blen as int).len() == 0);
            }
            return false;
        }
        if i >= alen {
            proof {
                assert(a@.subrange(i as int, alen as int).len() == 0);
                assert(b@.subrange(i as int, blen as int).len() > 0);
            }
            return true;
        }
        let ca = a.get_char(i);
        let cb = b.get_char(i);
        proof {
            assert(a@.subrange(i as int, alen as int)[0] == a@[i as int]);
            assert(b@.subrange(i as int, blen as int)[0] == b@[i as int]);
        }
        if ca != cb {
            return (ca as u32) < (cb as u32);
        }
        proof {
            assert(a@.subrange(i as int, alen as int).subrange(
                1,
                a@.subrange(i as int, alen as int).len() as int,
            ) =~= a@.subrange(i + 1, alen as int));
            assert(b@.subrange(i as int, blen as int).subrange(
                1,
                b@.subrange(i as int, blen as int).len() as int,
            ) =~= b@.subrange(i + 1, blen as int));
        }
        i = i + 1;
    }
}

/// Concatenation of two string slices.
pub fn concat_str(a: &str, b: &str) -> (r: String)
    ensures
        r@ == a@ + b@,
{
    let mut s = String::from_str(a);
    s.append(b);
    s
}

/// Concatenation of three string slices.
pub fn concat3(a: &str, b: &str, c: &str) -> (r: String)
    ensures
        r@ == a@ + b@ + c@,
{
    let mut s = String::from_str(a);
    s.append(b);
    s.append(c);
    s
}

/// The characters of `s` from `from` (inclusive) to `to` (exclusive).
pub fn substring(s: &str, from: usize, to: usize) -> (r: String)
    requires
        from <= to <= s@.len(),
    ensures
        r@ == s@.subrange(from as int, to as int),
{
    String::from_str(s.substring_char(from, to))
}

/// Splitting `s` on `p`, scanning left to right with `acc` holding the
/// characters of the piece read so far.
pub open spec fn split_acc(s: Seq<char>, p: Seq<char>, acc: Seq<char>) -> Seq<Seq<char>>
    decreases s.len(),
    when p.len() > 0
{
    if s.len() < p.len() {
        seq![acc + s]
    } else if s.subrange(0, p.len() as int) == p {
        seq![acc] + split_acc(s.subrange(p.len() as int, s.len() as int), p, Seq::empty())
    } else {
        split_acc(s.subrange(1, s.len() as int), p, acc.push(s[0]))
    }
}

/// The pieces of `s` between non-overlapping, leftmost occurrences of `p`.
pub open spec fn split_on(s: Seq<char>, p: Seq<char>) -> Seq<Seq<char>> {
    split_acc(s, p, Seq::empty())
}

/// A string in which `p` nowhere occurs splits as one piece: itself,
/// appended to the accumulator.
pub proof fn lemma_split_no_sep(s: Seq<char>, p: Seq<char>, acc: Seq<char>)
    requires
        p.len() > 0,
        forall|i: int| !sub_at(s, i, p),
    ensures
        split_acc(s, p, acc) == seq![acc + s],
    decreases s.len(),
{
    if s.len() < p.len() {
    } else if s.subrange(0, p.len() as int) == p {
        assert(sub_at(s, 0, p));
    } else {
        let tail = s.subrange(1, s.len() as int);
        assert forall|i: int| !sub_at(tail, i, p) by {
            if sub_at(tail, i, p) {
                assert(tail.subrange(i, i + p.len() as int) =~= s.subrange(
                    i + 1,
                    i + 1 + p.len() as int,
                ));
                assert(sub_at(s, i + 1, p));
            }
        }
        lemma_split_no_sep(tail, p, acc.push(s[0]));
        assert(acc.push(s[0]) + tail =~= acc + s);
    }
}

/// Splitting `a + p + r` when `p` occurs nowhere in the text before its
/// own first occurrence: the first piece is `a` appended to the
/// accumulator, and the remainder splits on its own.
pub proof fn lemma_split_join_step(a: Seq<char>, p: Seq<char>, r: Seq<char>, acc: Seq<char>)
    requires
        p.len() > 0,
        forall|i: int| 0 <= i < a.len() ==> !sub_at(a + p + r, i, p),
    ensures
        split_acc(a + p + r, p, acc) == seq![acc + a] + split_acc(r, p, Seq::empty()),
    decreases a.len(),
{
    let s = a + p + r;
    if a.len() == 0 {
        assert(s.subrange(0, p.len() as int) =~= p);
        assert(s.subrange(p.len() as int, s.len() as int) =~= r);
        assert(acc + a =~= acc);
        assert(split_acc(s, p, acc) == seq![acc] + split_acc(r, p, Seq::empty()));
    } else {
        assert(!sub_at(s, 0, p));
        assert(s.subrange(0, p.len() as int) != p) by {
            if s.subrange(0, p.len() as int) == p {
                assert(sub_at(s, 0, p));
            }
        }
        let a1 = a.subrange(1, a.len() as int);
        let s1 = s.subrange(1, s.len() as int);
        assert(s1 =~= a1 + p + r);
        assert forall|i: int| 0 <= i < a1.len() implies !sub_at(a1 + p + r, i, p) by {
            if sub_at(a1 + p + r, i, p) {
                assert((a1 + p + r).subrange(i, i + p.len() as int) =~= s.subrange(
                    i + 1,
                    i + 1 + p.len() as int,
                ));
                assert(sub_at(s, i + 1, p));
            }
        }
        lemma_split_join_step(a1, p, r, acc.push(s[0]));
        assert(acc.push(s[0]) + a1 =~= acc + a);
    }
}

/// Does `p` occur in `s` starting at character `pos`?
pub fn match_at(s: &str, pos: usize, p: &str) -> (r: bool)
    requires
        pos + p@.len() <= s@.len(),
    ensures
        r == (s@.subrange(pos as int, pos + p@.len()) == p@),
{
    let slen: usize = s.unicode_len();
    let plen: usize = p.unicode_len();
    let mut k: usize = 0;
    while k < plen
        invariant
            slen == s@.len(),
            plen == p@.len(),
            pos + plen <= s@.len(),
            k <= plen,
            forall|j: int| 0 <= j < k ==> s@[pos + j] == p@[j],
        decreases plen - k,
    {
        if s.get_char(pos + k) != p.get_char(k) {
            proof {
                assert(s@.subrange(pos as int, pos + p@.len())[k as int] != p@[k as int]);
            }
            return false;
        }
        k = k + 1;
    }
    proof {
        assert(s@.subrange(pos as int, pos + p@.len()) =~= p@);
    }
    true
}

/// Splits `s` on occurrences of `sep`, leftmost first.
pub fn split_str(s: &str, sep: &str) -> (r: Vec<String>)
    requires
        sep@.len() > 0,
    ensures
        r@.map_values(|piece: String| piece@) == split_on(s@, sep@),
{
    let slen: usize = s.unicode_len();
    let plen: usize = sep.unicode_len();
    let mut out: Vec<String> = Vec::new();
    let mut piece_start: usize = 0;
    let mut pos: usize = 0;
    proof {
        assert(s@.subrange(0, slen as int) =~= s@);
        assert(s@.subrange(0, 0) =~= Seq::<char>::empty());
        assert(out@.map_values(|piece: String| piece@) =~= Seq::<Seq<char>>::empty());
        assert(Seq::<Seq<char>>::empty() + split_acc(s@, sep@, Seq::empty()) =~= split_acc(
            s@,
            sep@,
            Seq::empty(),
        ));
    }
    loop
        invariant
            slen == s@.len(),
            plen == sep@.len(),
            plen > 0,
            piece_start <= pos <= slen,
            split_on(s@, sep@) == out@.map_values(|piece: String| piece@) + split_acc(
                s@.subrange(pos as int, slen as int),
                sep@,
                s@.subrange(piece_start as int, pos as int),
            ),
        decreases slen - pos,
    {
        let ghost rem = s@.subrange(pos as int, slen as int);
        let ghost acc = s@.subrange(piece_start as int, pos as int);
        if plen <= slen - pos {
            if match_at(s, pos, sep) {
                proof {
                    assert(rem.subrange(0, plen as int) =~= s@.subrange(
                        pos as int,
                        pos + plen,
                    ));
                    assert(split_acc(rem, sep@, acc) == seq![acc] + split_acc(
                        rem.subrange(plen as int, rem.len() as int),
                        sep@,
                        Seq::empty(),
                    ));
                    assert(rem.subrange(plen as int, rem.len() as int) =~= s@.subrange(
                        pos + plen,
                        slen as int,
                    ));
                }
                let piece = substring(s, piece_start, pos);
                out.push(piece);
                proof {
                    assert(out@.map_values(|piece: String| piece@) =~= out@.subrange(
                        0,
                        out@.len() - 1,
                    ).map_values(|piece: String| piece@).push(acc));
                    assert(s@.subrange(pos + plen, pos + plen).len() == 0);
                    assert(s@.subrange(pos + plen, pos + plen) =~= Seq::<char>::empty());
                }
                pos = pos + plen;
                piece_start = pos;
            } else {
                proof {
                    assert(rem.subrange(0, plen as int) =~= s@.subrange(
                        pos as int,
                        pos + plen,
                    ));
                    assert(rem.len() >= plen);
                    assert(split_acc(rem, sep@, acc) == split_acc(
                        rem.subrange(1, rem.len() as int),
                        sep@,
                        acc.push(rem[0]),
                    ));
                    assert(rem.subrange(1, rem.len() as int) =~= s@.subrange(
                        pos + 1,
                        slen as int,
                    ));
                    assert(acc.push(rem[0]) =~= s@.subrange(piece_start as int, pos + 1));
                }
                pos = pos + 1;
            }
        } else {
            proof {
                assert(rem.len() < plen);
                assert(split_acc(rem, sep@, acc) == seq![acc + rem]);
                assert(acc + rem =~= s@.subrange(piece_start as int, slen as int));
            }
            let piece = substring(s, piece_start, slen);
            out.push(piece);
            proof {
                assert(out@.map_values(|piece: String| piece@) =~= out@.subrange(
                    0,
                    out@.len() - 1,
                ).map_values(|piece: String| piece@).push(piece@));
            }
            return out;
        }
    }
}

/// `s` with every trailing separator removed.
pub open spec fn trim_trailing_slashes(s: Seq<char>) -> Seq<char>
    decreases s.len(),
{
    if s.len() > 0 && s.last() == '/' {
        trim_trailing_slashes(s.drop_last())
    } else {
        s
    }
}

/// Removes trailing separators.
#[verifier::loop_isolation(false)]
pub fn trim_end_slashes(path: &str) -> (r: String)
    ensures
        r@ == trim_trailing_slashes(path@),
{
    let len: usize = path.unicode_len();
    let mut cut: usize = len;
    proof {
        assert(path@.subrange(0, len as int) =~= path@);
    }
    while cut > 0 && path.get_char(cut - 1) == '/'
        invariant
            cut <= len,
            trim_trailing_slashes(path@) == trim_trailing_slashes(
                path@.subrange(0, cut as int),
            ),
        decreases cut,
    {
        proof {
            assert(path@.subrange(0, cut as int).last() == path@[cut - 1]);
            assert(path@.subrange(0, cut as int).drop_last() =~= path@.subrange(
                0,
                cut - 1,
            ));
        }
        cut = cut - 1;
    }
    proof {
        assert(trim_trailing_slashes(path@.subrange(0, cut as int)) == path@.subrange(
            0,
            cut as int,
        ));
    }
    substring(path, 0, cut)
}

/// The position of the last separator in `s`, if any.
pub open spec fn last_slash(s: Seq<char>) -> Option<int>
    decreases s.len(),
{
    if s.len() == 0 {
        None
    } else if s.last() == '/' {
        Some(s.len() - 1)
    } else {
        last_slash(s.drop_last())
    }
}

/// The parent of a path: the text before the last separator (the lone
/// separator itself when the last separator leads the path). A path of at
/// most one character, or one without a separator, has no parent.
pub open spec fn parent_path(s: Seq<char>) -> Option<Seq<char>> {
    if s.len() <= 1 {
        None
    } else {
        match last_slash(s) {
            None => None,
            Some(i) => if i == 0 {
                Some(s.subrange(0, 1))
            } else {
                Some(s.subrange(0, i))
            },
        }
    }
}

/// The parent of a canonical path, exactly [`parent_path`]; the result is
/// always strictly shorter, so an upward walk terminates.
#[verifier::loop_isolation(false)]
pub fn path_parent(s: &str) -> (r: Option<String>)
    ensures
        match r {
            Some(p) => parent_path(s@) matches Some(q) && p@ == q && p@.len() < s@.len(),
            None => parent_path(s@) is None,
        },
{
    let len: usize = s.unicode_len();
    if len <= 1 {
        return None;
    }
    let mut i: usize = len;
    proof {
        assert(s@.subrange(0, len as int) =~= s@);
    }
    while i > 0
        invariant
            i <= len,
            len == s@.len(),
            last_slash(s@) == last_slash(s@.subrange(0, i as int)),
        decreases i,
    {
        proof {
            assert(s@.subrange(0, i as int).last() == s@[i - 1]);
            assert(s@.subrange(0, i as int).drop_last() =~= s@.subrange(0, i - 1));
        }
        if s.get_char(i - 1) == '/' {
            proof {
                assert(last_slash(s@) == Some(i - 1));
            }
            if i - 1 == 0 {
                return Some(substring(s, 0, 1));
            }
            return Some(substring(s, 0, i - 1));
        }
        i = i - 1;
    }
    proof {
        assert(s@.subrange(0, 0).len() == 0);
        assert(last_slash(s@) is None);
    }
    None
}

/// `dir` and `name` joined with a single separator.
pub fn path_join(dir: &str, name: &str) -> (r: String)
    ensures
        r@ == dir@ + seq!['/'] + name@,
{
    let mut s = String::from_str(dir);
    s.append("/");
    proof {
        reveal_strlit("/");
        assert(s@ =~= dir@ + seq!['/']);
    }
    s.append(name);
    s
}

} // verus!
