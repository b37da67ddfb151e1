//! Dotted paths.
//!
//! A flattened entry is keyed by the `.`-joined sequence of the folder names
//! from the document root down to the leaf. This module defines the join and
//! proves that, for non-empty segments free of the separator, the joined path
//! determines the segment sequence.

use vstd::prelude::*;
use vstd::string::StringExecFns;

verus! {

/// One join step: `prefix.name`, or just `name` when the prefix is empty.
pub open spec fn join2(prefix: Seq<char>, name: Seq<char>) -> Seq<char> {
    if prefix.len() == 0 {
        name
    } else {
        prefix + seq!['.'] + name
    }
}

/// A segment free of the separator character.
pub open spec fn dot_free(s: Seq<char>) -> bool {
    forall|i: int| 0 <= i < s.len() ==> s[i] != '.'
}

/// Every segment of the sequence is non-empty and free of the separator.
pub open spec fn segs_ok(segs: Seq<Seq<char>>) -> bool {
    forall|i: int| 0 <= i < segs.len() ==> (#[trigger] segs[i]).len() > 0 && dot_free(segs[i])
}

/// The `.`-joined segment sequence, in order.
pub open spec fn join_segs(segs: Seq<Seq<char>>) -> Seq<char>
    decreases segs.len(),
{
    if segs.len() == 0 {
        Seq::empty()
    } else if segs.len() == 1 {
        segs[0]
    } else {
        segs[0] + seq!['.'] + join_segs(segs.drop_first())
    }
}

/// The path of a node reached from `prefix` through the named children
/// `segs`: each step joins one more name onto the prefix.
pub open spec fn ext_path(prefix: Seq<char>, segs: Seq<Seq<char>>) -> Seq<char>
    decreases segs.len(),
{
    if segs.len() == 0 {
        prefix
    } else {
        ext_path(join2(prefix, segs[0]), segs.drop_first())
    }
}

/// Whether two string slices hold the same characters.
pub fn str_eq(a: &str, b: &str) -> (r: bool)
    ensures
        r == (a@ == b@),
{
    a.to_owned() == b.to_owned()
}

/// Builds `prefix.name`, or just `name` when the prefix is empty.
pub fn join_path(prefix: &str, name: &str) -> (r: String)
    ensures
        r@ == join2(prefix@, name@),
{
    if prefix.is_empty() {
        name.to_owned()
    } else {
        let mut s = prefix.to_owned();
        s.append(".");
        s.append(name);
        proof {
            reveal_strlit(".");
            assert(s@ =~= prefix@ + seq!['.'] + name@);
        }
        s
    }
}

/// Joining distinct suffixes onto one prefix gives distinct paths.
pub proof fn lemma_join2_cancel(p: Seq<char>, x: Seq<char>, y: Seq<char>)
    requires
        join2(p, x) == join2(p, y),
    ensures
        x == y,
{
    if p.len() == 0 {
    } else {
        let lx = p + seq!['.'] + x;
        let ly = p + seq!['.'] + y;
        assert(lx.len() == ly.len());
        assert forall|i: int| 0 <= i < x.len() implies x[i] == y[i] by {
            assert(lx[p.len() + 1 + i] == x[i]);
            assert(ly[p.len() + 1 + i] == y[i]);
        }
        assert(x =~= y);
    }
}

/// Two separator-free heads of one character sequence are the same: each runs
/// up to the first separator, or to the end.
proof fn lemma_first_segment(a: Seq<char>, ta: Seq<char>, b: Seq<char>, tb: Seq<char>)
    requires
        a + ta == b + tb,
        dot_free(a),
        dot_free(b),
        ta.len() == 0 || ta[0] == '.',
        tb.len() == 0 || tb[0] == '.',
    ensures
        a == b,
        ta == tb,
{
    let x = a + ta;
    if a.len() < b.len() {
        if ta.len() == 0 {
            assert(x.len() == a.len());
            assert((b + tb).len() >= b.len());
        } else {
            assert(x[a.len() as int] == ta[0]);
            assert((b + tb)[a.len() as int] == b[a.len() as int]);
        }
        assert(false);
    }
    if b.len() < a.len() {
        if tb.len() == 0 {
            assert((b + tb).len() == b.len());
        } else {
            assert((b + tb)[b.len() as int] == tb[0]);
            assert(x[b.len() as int] == a[b.len() as int]);
        }
        assert(false);
    }
    assert forall|i: int| 0 <= i < a.len() implies a[i] == b[i] by {
        assert(x[i] == a[i]);
        assert((b + tb)[i] == b[i]);
    }
    assert(a =~= b);
    assert forall|i: int| 0 <= i < ta.len() implies ta[i] == tb[i] by {
        assert(x[a.len() + i] == ta[i]);
        assert((b + tb)[a.len() + i] == tb[i]);
    }
    assert(ta =~= tb);
}

/// For non-empty, separator-free segments, the joined path determines the
/// segment sequence.
pub proof fn lemma_join_segs_injective(s1: Seq<Seq<char>>, s2: Seq<Seq<char>>)
    requires
        segs_ok(s1),
        segs_ok(s2),
        join_segs(s1) == join_segs(s2),
    ensures
        s1 == s2,
    decreases s1.len(),
{
    if s1.len() == 0 {
        if s2.len() > 0 {
            assert(join_segs(s2).len() >= s2[0].len());
            assert(false);
        }
        assert(s1 =~= s2);
    } else if s2.len() == 0 {
        assert(join_segs(s1).len() >= s1[0].len());
        assert(false);
    } else {
        let ta: Seq<char> = if s1.len() == 1 {
            Seq::empty()
        } else {
            seq!['.'] + join_segs(s1.drop_first())
        };
        let tb: Seq<char> = if s2.len() == 1 {
            Seq::empty()
        } else {
            seq!['.'] + join_segs(s2.drop_first())
        };
        assert(join_segs(s1) =~= s1[0] + ta);
        assert(join_segs(s2) =~= s2[0] + tb);
        lemma_first_segment(s1[0], ta, s2[0], tb);
        if s1.len() == 1 {
            assert(s2.len() == 1);
            assert(s1 =~= s2);
        } else {
            assert(s2.len() > 1);
            assert(join_segs(s1.drop_first()) =~= ta.drop_first());
            assert(join_segs(s2.drop_first()) =~= tb.drop_first());
            lemma_join_segs_injective(s1.drop_first(), s2.drop_first());
            assert forall|i: int| 0 <= i < s1.len() implies s1[i] == s2[i] by {
                if i > 0 {
                    assert(s1.drop_first()[i - 1] == s2.drop_first()[i - 1]);
                }
            }
            assert(s1 =~= s2);
        }
    }
}

/// Joining the segments one step at a time from a prefix equals joining the
/// prefix onto the `.`-joined segments, as long as no empty prefix meets an
/// empty first segment.
pub proof fn lemma_ext_path_join(p: Seq<char>, segs: Seq<Seq<char>>)
    requires
        segs.len() > 0,
        p.len() > 0 || segs[0].len() > 0,
    ensures
        ext_path(p, segs) == join2(p, join_segs(segs)),
    decreases segs.len(),
{
    let p2 = join2(p, segs[0]);
    if segs.len() == 1 {
        assert(ext_path(p2, segs.drop_first()) == p2);
    } else {
        lemma_ext_path_join(p2, segs.drop_first());
        assert(join2(p2, join_segs(segs.drop_first())) =~= join2(
            p,
            join_segs(segs),
        ));
    }
}

} // verus!
