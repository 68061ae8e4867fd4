//! Cutting a line at separator strings, the way the shell's grammar cuts a
//! line into jobs, a job into pipelines and a pipeline into commands.

use vstd::prelude::*;
use crate::text::same_text;

verus! {

/// The first of `seps`, in their order, that is a non-empty prefix of `s`.
pub open spec fn first_prefix(s: Seq<char>, seps: Seq<Seq<char>>) -> Option<Seq<char>>
    decreases seps.len(),
{
    if seps.len() == 0 {
        None
    } else if seps[0].len() > 0 && seps[0].is_prefix_of(s) {
        Some(seps[0])
    } else {
        first_prefix(s, seps.drop_first())
    }
}

pub proof fn lemma_first_prefix(s: Seq<char>, seps: Seq<Seq<char>>)
    ensures
        first_prefix(s, seps) matches Some(sep) ==> 0 < sep.len() <= s.len() && sep.is_prefix_of(
            s,
        ) && seps.contains(sep),
    decreases seps.len(),
{
    if seps.len() > 0 && !(seps[0].len() > 0 && seps[0].is_prefix_of(s)) {
        lemma_first_prefix(s, seps.drop_first());
        if first_prefix(s, seps) is Some {
            let sep = first_prefix(s, seps)->0;
            let k = choose|k: int| 0 <= k < seps.drop_first().len() && seps.drop_first()[k] == sep;
            assert(seps[k + 1] == sep);
        }
    }
}

/// The pieces of `s` between the occurrences of the separators `seps`, found
/// from left to right without overlap; where several separators begin at the
/// same place, the one that comes first in `seps` is taken. There is one more
/// piece than there are occurrences.
pub open spec fn split_on_separators(s: Seq<char>, seps: Seq<Seq<char>>) -> Seq<Seq<char>>
    decreases s.len(),
{
    if s.len() == 0 {
        seq![Seq::<char>::empty()]
    } else {
        match first_prefix(s, seps) {
            Some(sep) => {
                proof {
                    lemma_first_prefix(s, seps);
                }
                seq![Seq::<char>::empty()] + split_on_separators(s.skip(sep.len() as int), seps)
            },
            None => {
                let r = split_on_separators(s.drop_first(), seps);
                r.update(0, seq![s[0]] + r[0])
            },
        }
    }
}

/// The separators that `split_on_separators` cuts at, in order.
pub open spec fn cut_separators(s: Seq<char>, seps: Seq<Seq<char>>) -> Seq<Seq<char>>
    decreases s.len(),
{
    if s.len() == 0 {
        Seq::<Seq<char>>::empty()
    } else {
        match first_prefix(s, seps) {
            Some(sep) => {
                proof {
                    lemma_first_prefix(s, seps);
                }
                seq![sep] + cut_separators(s.skip(sep.len() as int), seps)
            },
            None => cut_separators(s.drop_first(), seps),
        }
    }
}

/// `pieces[0] + cuts[0] + pieces[1] + cuts[1] + ... + pieces[last]`.
pub open spec fn interleave(pieces: Seq<Seq<char>>, cuts: Seq<Seq<char>>) -> Seq<char>
    decreases pieces.len(),
{
    if pieces.len() <= 1 || cuts.len() == 0 {
        if pieces.len() == 0 {
            Seq::<char>::empty()
        } else {
            pieces[0]
        }
    } else {
        pieces[0] + cuts[0] + interleave(pieces.drop_first(), cuts.drop_first())
    }
}

/// The pieces joined, with `sep` between each two.
pub open spec fn join_with(pieces: Seq<Seq<char>>, sep: Seq<char>) -> Seq<char>
    decreases pieces.len(),
{
    if pieces.len() == 0 {
        Seq::<char>::empty()
    } else if pieces.len() == 1 {
        pieces[0]
    } else {
        pieces[0] + sep + join_with(pieces.drop_first(), sep)
    }
}

/// Cutting leaves one piece more than the cuts it makes, and the pieces put
/// back together with the separators that were cut out give the text again.
pub proof fn lemma_split_reassembles(s: Seq<char>, seps: Seq<Seq<char>>)
    ensures
        split_on_separators(s, seps).len() == cut_separators(s, seps).len() + 1,
        interleave(split_on_separators(s, seps), cut_separators(s, seps)) == s,
    decreases s.len(),
{
    if s.len() > 0 {
        lemma_first_prefix(s, seps);
        match first_prefix(s, seps) {
            Some(sep) => {
                let rest = s.skip(sep.len() as int);
                lemma_split_reassembles(rest, seps);
                let p = split_on_separators(s, seps);
                let c = cut_separators(s, seps);
                let rp = split_on_separators(rest, seps);
                let rc = cut_separators(rest, seps);
                assert(p.drop_first() =~= rp);
                assert(c.drop_first() =~= rc);
                assert(p[0] =~= Seq::<char>::empty());
                assert(c[0] == sep);
                assert(s =~= sep + rest);
                assert(interleave(p, c) == p[0] + c[0] + interleave(rp, rc));
            },
            None => {
                let rest = s.drop_first();
                lemma_split_reassembles(rest, seps);
                let p = split_on_separators(s, seps);
                let c = cut_separators(s, seps);
                let rp = split_on_separators(rest, seps);
                assert(c == cut_separators(rest, seps));
                assert(p.drop_first() =~= rp.drop_first());
                if c.len() == 0 {
                    assert(s =~= seq![s[0]] + rp[0]);
                } else {
                    assert(interleave(rp, c) == rp[0] + c[0] + interleave(rp.drop_first(), c.drop_first()));
                    assert(interleave(p, c) == p[0] + c[0] + interleave(p.drop_first(), c.drop_first()));
                    assert(s =~= seq![s[0]] + rest);
                }
            },
        }
    } else {
        assert(split_on_separators(s, seps)[0] =~= s);
    }
}

proof fn lemma_interleave_single(pieces: Seq<Seq<char>>, cuts: Seq<Seq<char>>, sep: Seq<char>)
    requires
        pieces.len() == cuts.len() + 1,
        forall|i: int| 0 <= i < cuts.len() ==> #[trigger] cuts[i] == sep,
    ensures
        interleave(pieces, cuts) == join_with(pieces, sep),
    decreases pieces.len(),
{
    if pieces.len() > 1 {
        assert forall|i: int| 0 <= i < cuts.drop_first().len() implies #[trigger] cuts.drop_first()[i]
            == sep by {
            assert(cuts.drop_first()[i] == cuts[i + 1]);
        }
        lemma_interleave_single(pieces.drop_first(), cuts.drop_first(), sep);
        assert(cuts[0] == sep);
    }
}

/// With a single separator, joining the pieces with it gives the text again.
pub proof fn lemma_split_join_single(s: Seq<char>, sep: Seq<char>)
    ensures
        join_with(split_on_separators(s, seq![sep]), sep) == s,
{
    lemma_split_reassembles(s, seq![sep]);
    lemma_cuts_are_separators(s, seq![sep]);
    let cuts = cut_separators(s, seq![sep]);
    assert forall|i: int| 0 <= i < cuts.len() implies #[trigger] cuts[i] == sep by {
        assert(seq![sep].contains(cuts[i]));
        let k = choose|k: int| 0 <= k < 1 && seq![sep][k] == cuts[i];
    }
    lemma_interleave_single(split_on_separators(s, seq![sep]), cuts, sep);
}

/// Every cut is at one of the separators.
pub proof fn lemma_cuts_are_separators(s: Seq<char>, seps: Seq<Seq<char>>)
    ensures
        forall|i: int|
            0 <= i < cut_separators(s, seps).len() ==> seps.contains(
                #[trigger] cut_separators(s, seps)[i],
            ),
    decreases s.len(),
{
    if s.len() > 0 {
        lemma_first_prefix(s, seps);
        match first_prefix(s, seps) {
            Some(sep) => {
                let rest = s.skip(sep.len() as int);
                lemma_cuts_are_separators(rest, seps);
                let c = cut_separators(s, seps);
                assert forall|i: int| 0 <= i < c.len() implies seps.contains(#[trigger] c[i]) by {
                    if i > 0 {
                        assert(c[i] == cut_separators(rest, seps)[i - 1]);
                    } else {
                        assert(c[0] == sep);
                    }
                }
            },
            None => {
                lemma_cuts_are_separators(s.drop_first(), seps);
                assert(cut_separators(s, seps) == cut_separators(s.drop_first(), seps));
            },
        }
    }
}

} // verus!

verus! {

/// The separator strings as character sequences.
pub open spec fn literal_views(literals: Seq<&str>) -> Seq<Seq<char>> {
    literals.map_values(|l: &str| l@)
}

/// Cuts `haystack` with the `regex` crate: the literals are escaped with
/// `regex::escape`, joined into one alternation, compiled with `Regex::new`,
/// and `Regex::split` yields the pieces between the matches.
///
/// Claimed of the crate: an alternation of escaped literals matches exactly
/// those literals; matches are found left to right without overlap, and at a
/// position where several alternatives match, the earlier one is taken (the
/// crate's leftmost-first semantics, "x|y: prefer x"); `split` yields the
/// text before the first match, between each two matches and after the last.
/// That is `split_on_separators`. A pattern of at most 8 literals of at most
/// 8 characters each stays far below the crate's default size limit, so
/// `Regex::new` succeeds.
#[verifier::external_body]
pub(crate) fn split_by_literals(haystack: &str, literals: &Vec<&str>) -> (pieces: Vec<String>)
    requires
        1 <= literals@.len() <= 8,
        forall|i: int| 0 <= i < literals@.len() ==> 1 <= (#[trigger] literals@[i])@.len() <= 8,
    ensures
        pieces@.map_values(|p: String| p@) == split_on_separators(
            haystack@,
            literal_views(literals@),
        ),
{
    let alternatives: Vec<String> = literals.iter().map(|l| regex::escape(l)).collect();
    let re = regex::Regex::new(&alternatives.join("|")).unwrap();
    re.split(haystack).map(|p| p.to_string()).collect()
}

} // verus!

verus! {

/// With separators of one character each, no piece holds a separator.
pub proof fn lemma_single_char_pieces(s: Seq<char>, seps: Seq<Seq<char>>)
    requires
        forall|k: int| 0 <= k < seps.len() ==> (#[trigger] seps[k]).len() == 1,
    ensures
        forall|i: int, j: int, k: int|
            0 <= i < split_on_separators(s, seps).len() && 0 <= j < split_on_separators(
                s,
                seps,
            )[i].len() && 0 <= k < seps.len() ==> #[trigger] split_on_separators(s, seps)[i][j]
                != #[trigger] seps[k][0],
    decreases s.len(),
{
    if s.len() > 0 {
        lemma_first_prefix(s, seps);
        lemma_no_prefix_single(s, seps);
        match first_prefix(s, seps) {
            Some(sep) => {
                let rest = s.skip(sep.len() as int);
                lemma_single_char_pieces(rest, seps);
                let p = split_on_separators(s, seps);
                let rp = split_on_separators(rest, seps);
                assert forall|i: int, j: int, k: int|
                    0 <= i < p.len() && 0 <= j < p[i].len() && 0 <= k < seps.len() implies #[trigger] p[i][j]
                    != #[trigger] seps[k][0] by {
                    assert(i > 0);
                    assert(p[i] == rp[i - 1]);
                }
            },
            None => {
                let rest = s.drop_first();
                lemma_single_char_pieces(rest, seps);
                lemma_split_nonempty(rest, seps);
                let p = split_on_separators(s, seps);
                let rp = split_on_separators(rest, seps);
                assert forall|i: int, j: int, k: int|
                    0 <= i < p.len() && 0 <= j < p[i].len() && 0 <= k < seps.len() implies #[trigger] p[i][j]
                    != #[trigger] seps[k][0] by {
                    if i == 0 {
                        assert(p[0] == seq![s[0]] + rp[0]);
                        if j > 0 {
                            assert(p[0][j] == rp[0][j - 1]);
                        }
                    } else {
                        assert(p[i] == rp[i]);
                    }
                }
            },
        }
    }
}

/// With single-character separators, the first character of a text that
/// begins with none of them is none of them.
proof fn lemma_no_prefix_single(s: Seq<char>, seps: Seq<Seq<char>>)
    requires
        s.len() > 0,
        forall|k: int| 0 <= k < seps.len() ==> (#[trigger] seps[k]).len() == 1,
    ensures
        first_prefix(s, seps) is None ==> forall|k: int| 0 <= k < seps.len() ==> s[0] != #[trigger] seps[k][0],
    decreases seps.len(),
{
    if seps.len() > 0 {
        let rest = seps.drop_first();
        assert forall|k: int| 0 <= k < rest.len() implies (#[trigger] rest[k]).len() == 1 by {
            assert(rest[k] == seps[k + 1]);
        }
        lemma_no_prefix_single(s, rest);
        if first_prefix(s, seps) is None {
            assert forall|k: int| 0 <= k < seps.len() implies s[0] != #[trigger] seps[k][0] by {
                if k == 0 {
                    if s[0] == seps[0][0] {
                        assert(seps[0] =~= s.subrange(0, 1));
                    }
                } else {
                    assert(seps[k] == rest[k - 1]);
                }
            }
        }
    }
}

/// Cutting always leaves at least one piece.
pub proof fn lemma_split_nonempty(s: Seq<char>, seps: Seq<Seq<char>>)
    ensures
        split_on_separators(s, seps).len() >= 1,
{
    lemma_split_reassembles(s, seps);
}

} // verus!

verus! {

/// The pieces of `s` between the occurrences of `seps`, as
/// `split_on_separators` finds them, except that an occurrence of `keep`
/// (tried before the separators) is never cut at and stays inside its piece.
pub open spec fn split_keeping(s: Seq<char>, seps: Seq<Seq<char>>, keep: Seq<char>) -> Seq<
    Seq<char>,
>
    decreases s.len(),
{
    if s.len() == 0 {
        seq![Seq::<char>::empty()]
    } else if keep.len() > 0 && keep.is_prefix_of(s) {
        let r = split_keeping(s.skip(keep.len() as int), seps, keep);
        r.update(0, keep + r[0])
    } else {
        match first_prefix(s, seps) {
            Some(sep) => {
                proof {
                    lemma_first_prefix(s, seps);
                }
                seq![Seq::<char>::empty()] + split_keeping(s.skip(sep.len() as int), seps, keep)
            },
            None => {
                let r = split_keeping(s.drop_first(), seps, keep);
                r.update(0, seq![s[0]] + r[0])
            },
        }
    }
}

/// Joins each two neighbouring pieces whose cut is `keep` back together,
/// with `keep` between them.
pub open spec fn merge_cuts(pieces: Seq<Seq<char>>, cuts: Seq<Seq<char>>, keep: Seq<char>) -> Seq<
    Seq<char>,
>
    decreases cuts.len(),
{
    if cuts.len() == 0 {
        pieces
    } else {
        let r = merge_cuts(pieces.drop_first(), cuts.drop_first(), keep);
        if cuts[0] == keep {
            r.update(0, pieces[0] + keep + r[0])
        } else {
            seq![pieces[0]] + r
        }
    }
}

proof fn lemma_merge_cuts_len(pieces: Seq<Seq<char>>, cuts: Seq<Seq<char>>, keep: Seq<char>)
    requires
        pieces.len() == cuts.len() + 1,
    ensures
        merge_cuts(pieces, cuts, keep).len() >= 1,
    decreases cuts.len(),
{
    if cuts.len() > 0 {
        lemma_merge_cuts_len(pieces.drop_first(), cuts.drop_first(), keep);
    }
}

/// Prefixing the first piece prefixes the first merged piece.
proof fn lemma_merge_cuts_prepend(
    pieces: Seq<Seq<char>>,
    cuts: Seq<Seq<char>>,
    keep: Seq<char>,
    x: Seq<char>,
)
    requires
        pieces.len() == cuts.len() + 1,
    ensures
        merge_cuts(pieces.update(0, x + pieces[0]), cuts, keep) == merge_cuts(
            pieces,
            cuts,
            keep,
        ).update(0, x + merge_cuts(pieces, cuts, keep)[0]),
    decreases cuts.len(),
{
    let p1 = pieces.update(0, x + pieces[0]);
    if cuts.len() > 0 {
        assert(p1.drop_first() =~= pieces.drop_first());
        let r = merge_cuts(pieces.drop_first(), cuts.drop_first(), keep);
        lemma_merge_cuts_len(pieces.drop_first(), cuts.drop_first(), keep);
        if cuts[0] == keep {
            assert(x + pieces[0] + keep + r[0] =~= x + (pieces[0] + keep + r[0]));
            assert(r.update(0, x + pieces[0] + keep + r[0]) =~= r.update(0, pieces[0] + keep + r[0]).update(
                0,
                x + (pieces[0] + keep + r[0]),
            ));
        } else {
            assert(seq![p1[0]] + r =~= (seq![pieces[0]] + r).update(0, x + pieces[0]));
        }
    }
}

/// Cutting at `keep` as well and then joining the pieces back across every
/// cut at `keep` gives the pieces of `split_keeping`.
pub proof fn lemma_split_keeping_by_merge(s: Seq<char>, seps: Seq<Seq<char>>, keep: Seq<char>)
    requires
        keep.len() > 0,
    ensures
        split_keeping(s, seps, keep) == merge_cuts(
            split_on_separators(s, seq![keep] + seps),
            cut_separators(s, seq![keep] + seps),
            keep,
        ),
    decreases s.len(),
{
    let all = seq![keep] + seps;
    lemma_split_reassembles(s, all);
    if s.len() > 0 {
        assert(all[0] == keep);
        assert(all.drop_first() =~= seps);
        lemma_first_prefix(s, all);
        if keep.is_prefix_of(s) {
            assert(first_prefix(s, all) == Some(keep));
            let rest = s.skip(keep.len() as int);
            lemma_split_keeping_by_merge(rest, seps, keep);
            lemma_split_reassembles(rest, all);
            let p = split_on_separators(s, all);
            let c = cut_separators(s, all);
            assert(p.drop_first() =~= split_on_separators(rest, all));
            assert(c.drop_first() =~= cut_separators(rest, all));
            assert(c[0] == keep);
            assert(p[0] =~= Seq::<char>::empty());
            assert(p[0] + keep =~= keep);
        } else {
            assert(first_prefix(s, all) == first_prefix(s, seps));
            lemma_first_prefix(s, seps);
            match first_prefix(s, seps) {
                Some(sep) => {
                    let rest = s.skip(sep.len() as int);
                    lemma_split_keeping_by_merge(rest, seps, keep);
                    let p = split_on_separators(s, all);
                    let c = cut_separators(s, all);
                    assert(p.drop_first() =~= split_on_separators(rest, all));
                    assert(c.drop_first() =~= cut_separators(rest, all));
                    assert(c[0] == sep);
                    assert(sep != keep);
                },
                None => {
                    let rest = s.drop_first();
                    lemma_split_keeping_by_merge(rest, seps, keep);
                    lemma_split_reassembles(rest, all);
                    let p0 = split_on_separators(rest, all);
                    let c0 = cut_separators(rest, all);
                    assert(split_on_separators(s, all) == p0.update(0, seq![s[0]] + p0[0]));
                    assert(cut_separators(s, all) == c0);
                    lemma_merge_cuts_prepend(p0, c0, keep, seq![s[0]]);
                },
            }
        }
    }
}

/// Finds the occurrences of the literals in `haystack` with the `regex`
/// crate: the literals are escaped with `regex::escape`, joined into one
/// alternation, compiled with `Regex::new`, and `Regex::find_iter` yields
/// the matched text of each match.
///
/// Claimed of the crate: an alternation of escaped literals matches exactly
/// those literals; `find_iter` yields successive non-overlapping matches
/// from left to right, and where several alternatives match at one
/// position the earlier one is taken (leftmost-first, "x|y: prefer x").
/// That is `cut_separators`. The size bound keeps `Regex::new` far below the
/// crate's default limit, so it succeeds.
#[verifier::external_body]
pub(crate) fn find_literals(haystack: &str, literals: &Vec<&str>) -> (found: Vec<String>)
    requires
        1 <= literals@.len() <= 8,
        forall|i: int| 0 <= i < literals@.len() ==> 1 <= (#[trigger] literals@[i])@.len() <= 8,
    ensures
        found@.map_values(|p: String| p@) == cut_separators(haystack@, literal_views(literals@)),
{
    let alternatives: Vec<String> = literals.iter().map(|l| regex::escape(l)).collect();
    let re = regex::Regex::new(&alternatives.join("|")).unwrap();
    re.find_iter(haystack).map(|m| m.as_str().to_string()).collect()
}

/// Joins each two neighbouring pieces whose cut is `keep` back together.
pub fn merge_at(pieces: &Vec<String>, cuts: &Vec<String>, keep: &str) -> (merged: Vec<String>)
    requires
        pieces@.len() == cuts@.len() + 1,
    ensures
        merged@.map_values(|p: String| p@) == merge_cuts(
            pieces@.map_values(|p: String| p@),
            cuts@.map_values(|p: String| p@),
            keep@,
        ),
{
    let ghost ps = pieces@.map_values(|p: String| p@);
    let ghost cs = cuts@.map_values(|p: String| p@);
    let n = cuts.len();
    let mut done: Vec<String> = Vec::new();
    let mut current: String = pieces[0].clone();
    let mut k: usize = 0;
    proof {
        assert(seq![current@] + ps.skip(1) =~= ps);
        assert(cs.skip(0) =~= cs);
        assert(done@.map_values(|p: String| p@) + merge_cuts(ps, cs, keep@) =~= merge_cuts(ps, cs, keep@));
    }
    while k < n
        invariant
            n == cuts@.len(),
            pieces@.len() == n + 1,
            k <= n,
            ps == pieces@.map_values(|p: String| p@),
            cs == cuts@.map_values(|p: String| p@),
            merge_cuts(ps, cs, keep@) == done@.map_values(|p: String| p@) + merge_cuts(
                seq![current@] + ps.skip(k + 1),
                cs.skip(k as int),
                keep@,
            ),
        decreases n - k,
    {
        let ghost q = seq![current@] + ps.skip(k + 1);
        let ghost d = cs.skip(k as int);
        let ghost r = merge_cuts(ps.skip(k + 1), cs.skip(k + 1), keep@);
        let ghost before = done@.map_values(|p: String| p@);
        proof {
            assert(q.drop_first() =~= ps.skip(k + 1));
            assert(d.drop_first() =~= cs.skip(k + 1));
            assert(d[0] == cs[k as int]);
            assert(cs[k as int] == cuts@[k as int]@);
            assert(ps.skip(k + 1) =~= seq![ps[k + 1]] + ps.skip(k + 2));
            lemma_merge_cuts_len(ps.skip(k + 1), cs.skip(k + 1), keep@);
        }
        if same_text(cuts[k].as_str(), keep) {
            let ghost cur = current@;
            current = current.concat(keep).concat(pieces[k + 1].as_str());
            proof {
                assert(pieces@[k + 1]@ == ps[k + 1]);
                lemma_merge_cuts_prepend(ps.skip(k + 1), cs.skip(k + 1), keep@, cur + keep@);
                assert(ps.skip(k + 1).update(0, cur + keep@ + ps.skip(k + 1)[0]) =~= seq![current@]
                    + ps.skip(k + 2));
                assert(cur + keep@ + r[0] =~= cur + keep@ + r[0]);
            }
        } else {
            let ghost cur = current@;
            done.push(current);
            current = pieces[k + 1].clone();
            proof {
                assert(done@.map_values(|p: String| p@) =~= before.push(cur));
                assert(seq![current@] + ps.skip(k + 2) =~= ps.skip(k + 1));
                assert(before + (seq![cur] + r) =~= before.push(cur) + r);
            }
        }
        k = k + 1;
    }
    let ghost before = done@.map_values(|p: String| p@);
    done.push(current);
    proof {
        assert(cs.skip(n as int) =~= Seq::<Seq<char>>::empty());
        assert(ps.skip(n + 1) =~= Seq::<Seq<char>>::empty());
        assert(done@.map_values(|p: String| p@) =~= before.push(current@));
        assert(seq![current@] + ps.skip(n + 1) =~= seq![current@]);
    }
    done
}

} // verus!

verus! {

/// The cuts other than those at `keep`, in order.
pub open spec fn drop_cuts(cuts: Seq<Seq<char>>, keep: Seq<char>) -> Seq<Seq<char>>
    decreases cuts.len(),
{
    if cuts.len() == 0 {
        cuts
    } else if cuts[0] == keep {
        drop_cuts(cuts.drop_first(), keep)
    } else {
        seq![cuts[0]] + drop_cuts(cuts.drop_first(), keep)
    }
}

proof fn lemma_drop_cuts_members(cuts: Seq<Seq<char>>, keep: Seq<char>)
    ensures
        forall|i: int|
            0 <= i < drop_cuts(cuts, keep).len() ==> cuts.contains(#[trigger] drop_cuts(cuts, keep)[i])
                && drop_cuts(cuts, keep)[i] != keep,
    decreases cuts.len(),
{
    if cuts.len() > 0 {
        let rest = cuts.drop_first();
        lemma_drop_cuts_members(rest, keep);
        let d = drop_cuts(cuts, keep);
        assert forall|i: int| 0 <= i < d.len() implies cuts.contains(#[trigger] d[i]) && d[i] != keep by {
            if cuts[0] == keep {
                assert(d[i] == drop_cuts(rest, keep)[i]);
                assert(rest.contains(drop_cuts(rest, keep)[i]));
                let k = choose|k: int| 0 <= k < rest.len() && rest[k] == d[i];
                assert(cuts[k + 1] == d[i]);
            } else if i == 0 {
                assert(cuts[0] == d[0]);
            } else {
                assert(d[i] == drop_cuts(rest, keep)[i - 1]);
                assert(rest.contains(drop_cuts(rest, keep)[i - 1]));
                let k = choose|k: int| 0 <= k < rest.len() && rest[k] == d[i];
                assert(cuts[k + 1] == d[i]);
            }
        }
    }
}

proof fn lemma_interleave_prepend(x: Seq<Seq<char>>, cuts: Seq<Seq<char>>, y: Seq<char>)
    requires
        x.len() >= 1,
    ensures
        interleave(x.update(0, y + x[0]), cuts) == y + interleave(x, cuts),
{
    let x1 = x.update(0, y + x[0]);
    if x.len() > 1 && cuts.len() > 0 {
        assert(x1.drop_first() =~= x.drop_first());
        assert(y + x[0] + cuts[0] + interleave(x.drop_first(), cuts.drop_first()) =~= y + (x[0]
            + cuts[0] + interleave(x.drop_first(), cuts.drop_first())));
    }
}

/// Merging across the cuts at `keep` and then putting the merged pieces
/// back together with the remaining cuts gives the same text as the
/// unmerged pieces with all cuts.
pub proof fn lemma_merge_reassembles(pieces: Seq<Seq<char>>, cuts: Seq<Seq<char>>, keep: Seq<char>)
    requires
        pieces.len() == cuts.len() + 1,
    ensures
        merge_cuts(pieces, cuts, keep).len() == drop_cuts(cuts, keep).len() + 1,
        interleave(merge_cuts(pieces, cuts, keep), drop_cuts(cuts, keep)) == interleave(
            pieces,
            cuts,
        ),
    decreases cuts.len(),
{
    if cuts.len() > 0 {
        let p1 = pieces.drop_first();
        let c1 = cuts.drop_first();
        lemma_merge_reassembles(p1, c1, keep);
        let r = merge_cuts(p1, c1, keep);
        let d = drop_cuts(c1, keep);
        assert(interleave(pieces, cuts) == pieces[0] + cuts[0] + interleave(p1, c1));
        if cuts[0] == keep {
            lemma_interleave_prepend(r, d, pieces[0] + keep);
            assert(r.update(0, pieces[0] + keep + r[0]) == r.update(0, (pieces[0] + keep) + r[0]));
        } else {
            let m = seq![pieces[0]] + r;
            let dd = seq![cuts[0]] + d;
            assert(m.drop_first() =~= r);
            assert(dd.drop_first() =~= d);
            assert(interleave(m, dd) == m[0] + dd[0] + interleave(m.drop_first(), dd.drop_first()));
        }
    }
}

/// The kept cuts are all among the separators and none is `keep`.
pub proof fn lemma_kept_cuts_are_separators(s: Seq<char>, seps: Seq<Seq<char>>, keep: Seq<char>)
    ensures
        forall|i: int|
            0 <= i < drop_cuts(cut_separators(s, seps), keep).len() ==> seps.contains(
                #[trigger] drop_cuts(cut_separators(s, seps), keep)[i],
            ) && drop_cuts(cut_separators(s, seps), keep)[i] != keep,
{
    let c = cut_separators(s, seps);
    lemma_cuts_are_separators(s, seps);
    lemma_drop_cuts_members(c, keep);
    assert forall|i: int| 0 <= i < drop_cuts(c, keep).len() implies seps.contains(
        #[trigger] drop_cuts(c, keep)[i],
    ) && drop_cuts(c, keep)[i] != keep by {
        let k = choose|k: int| 0 <= k < c.len() && c[k] == drop_cuts(c, keep)[i];
        assert(seps.contains(c[k]));
    }
}

} // verus!
