//! Sorting the record store by one of its five fields. Selector 1 orders by
//! the numeric id; selectors 2, 4 and 5 order by the name, address and note
//! texts; selector 3 orders by the birth date's canonical *text*, not by its
//! calendar value — "2024-10-1" sorts before "2024-9-1".

use vstd::prelude::*;
use vstd::multiset::Multiset;
use crate::date::date_text;
use crate::profile::{Profile, ProfileV};
use crate::text::{lemma_lex_le_total, lemma_lex_le_trans, lex_le, str_le};

verus! {

/// The order that field selector `k` sorts by. Selector 1 compares ids
/// numerically; the others compare the field's text lexicographically.
pub open spec fn field_le(k: u32, a: ProfileV, b: ProfileV) -> bool {
    if k == 1 {
        a.id <= b.id
    } else if k == 2 {
        lex_le(a.name, b.name)
    } else if k == 3 {
        lex_le(date_text(a.birth), date_text(b.birth))
    } else if k == 4 {
        lex_le(a.addr, b.addr)
    } else {
        lex_le(a.note, b.note)
    }
}

/// Every earlier record compares at or below every later one.
pub open spec fn sorted_by_field(k: u32, s: Seq<ProfileV>) -> bool {
    forall|i: int, j: int| 0 <= i < j < s.len() ==> field_le(k, s[i], s[j])
}

/// Two records whose sort keys are equal under field selector `k`.
pub open spec fn field_eq(k: u32, a: ProfileV, b: ProfileV) -> bool {
    field_le(k, a, b) && field_le(k, b, a)
}

/// `m` names, for each position of the sorted sequence, the position the
/// record came from: a permutation that sorts stably, keeping records with
/// equal keys in their original order.
pub open spec fn stable_sort_map(
    k: u32,
    m: Seq<int>,
    before: Seq<ProfileV>,
    after: Seq<ProfileV>,
) -> bool {
    &&& m.len() == after.len()
    &&& after.len() == before.len()
    &&& forall|i: int| 0 <= i < m.len() ==> 0 <= #[trigger] m[i] < before.len()
    &&& forall|i: int, j: int| 0 <= i < j < m.len() ==> m[i] != m[j]
    &&& forall|i: int| 0 <= i < m.len() ==> after[i] == before[#[trigger] m[i]]
    &&& forall|i: int, j: int|
        0 <= i < j < m.len() && field_eq(k, after[i], after[j]) ==> m[i] < m[j]
}

/// Any two records are comparable under any field order.
pub proof fn lemma_field_le_total(k: u32, a: ProfileV, b: ProfileV)
    ensures
        field_le(k, a, b) || field_le(k, b, a),
{
    if k == 2 {
        lemma_lex_le_total(a.name, b.name);
    } else if k == 3 {
        lemma_lex_le_total(date_text(a.birth), date_text(b.birth));
    } else if k == 4 {
        lemma_lex_le_total(a.addr, b.addr);
    } else if k != 1 {
        lemma_lex_le_total(a.note, b.note);
    }
}

pub proof fn lemma_field_le_trans(k: u32, a: ProfileV, b: ProfileV, c: ProfileV)
    requires
        field_le(k, a, b),
        field_le(k, b, c),
    ensures
        field_le(k, a, c),
{
    if k == 2 {
        lemma_lex_le_trans(a.name, b.name, c.name);
    } else if k == 3 {
        lemma_lex_le_trans(date_text(a.birth), date_text(b.birth), date_text(c.birth));
    } else if k == 4 {
        lemma_lex_le_trans(a.addr, b.addr, c.addr);
    } else if k != 1 {
        lemma_lex_le_trans(a.note, b.note, c.note);
    }
}

/// Compares two records under field selector `k`.
pub fn profile_le(k: u32, a: &Profile, b: &Profile) -> (r: bool)
    requires
        1 <= k <= 5,
    ensures
        r == field_le(k, a@, b@),
{
    if k == 1 {
        a.id <= b.id
    } else if k == 2 {
        str_le(a.name.as_str(), b.name.as_str())
    } else if k == 3 {
        let x = a.birth.form_string();
        let y = b.birth.form_string();
        str_le(x.as_str(), y.as_str())
    } else if k == 4 {
        str_le(a.addr.as_str(), b.addr.as_str())
    } else {
        str_le(a.note.as_str(), b.note.as_str())
    }
}

/// Reorders the store in place so that it is sorted under field selector
/// `k`, keeping exactly the same records (as a multiset).
pub fn sort_profiles(profiles: &mut Vec<Profile>, k: u32)
    requires
        1 <= k <= 5,
    ensures
        sorted_by_field(k, final(profiles).deep_view()),
        final(profiles).deep_view().to_multiset() == old(profiles).deep_view().to_multiset(),
        final(profiles)@.len() == old(profiles)@.len(),
        exists|m: Seq<int>|
            stable_sort_map(k, m, old(profiles).deep_view(), final(profiles).deep_view()),
{
    broadcast use vstd::seq_lib::group_to_multiset_ensures;
    broadcast use vstd::multiset::group_multiset_axioms;

    let ghost orig = profiles.deep_view();
    let ghost target = profiles.deep_view().to_multiset();
    let ghost orig_len = profiles@.len();
    let ghost mut om: Seq<int> = Seq::empty();
    let mut out: Vec<Profile> = Vec::new();
    proof {
        assert(out.deep_view() =~= Seq::<ProfileV>::empty());
        assert(out.deep_view().to_multiset().add(profiles.deep_view().to_multiset())
            =~= target);
        assert(profiles.deep_view() =~= orig.skip(0));
        assert(orig.take(0) =~= Seq::<ProfileV>::empty());
    }
    while profiles.len() > 0
        invariant
            1 <= k <= 5,
            sorted_by_field(k, out.deep_view()),
            out.deep_view().to_multiset().add(profiles.deep_view().to_multiset()) == target,
            out@.len() + profiles@.len() == orig_len,
            orig.len() == orig_len,
            profiles.deep_view() == orig.skip(out@.len() as int),
            om.len() == out@.len(),
            stable_sort_map(k, om, orig.take(out@.len() as int), out.deep_view()),
        decreases profiles@.len(),
    {
        broadcast use vstd::seq_lib::group_to_multiset_ensures;
        broadcast use vstd::multiset::group_multiset_axioms;

        let ghost prof_dv = profiles.deep_view();
        let ghost out_dv = out.deep_view();
        let ghost c = out@.len() as int;
        let x = profiles.remove(0);
        let ghost xv = x@;
        proof {
            assert(prof_dv[0] == xv);
            assert(profiles.deep_view() =~= prof_dv.remove(0));
            assert(orig.skip(c)[0] == orig[c]);
            assert(xv == orig[c]);
            assert(profiles.deep_view() =~= orig.skip(c + 1));
        }
        let mut pos: usize = 0;
        while pos < out.len() && profile_le(k, &out[pos], &x)
            invariant
                1 <= k <= 5,
                0 <= pos <= out@.len(),
                out.deep_view() == out_dv,
                forall|i: int| 0 <= i < pos ==> field_le(k, out_dv[i], xv),
                xv == x@,
            decreases out@.len() - pos,
        {
            proof {
                assert(out.deep_view()[pos as int] == out@[pos as int]@);
            }
            pos = pos + 1;
        }
        proof {
            // everything from pos on compares at or above the new record
            if (pos as int) < out_dv.len() {
                assert(out.deep_view()[pos as int] == out@[pos as int]@);
                assert(!field_le(k, out_dv[pos as int], xv));
                lemma_field_le_total(k, out_dv[pos as int], xv);
            }
            assert forall|i: int| pos <= i < out_dv.len() implies field_le(k, xv, out_dv[i]) by {
                lemma_field_le_total(k, out_dv[pos as int], xv);
                if i > pos {
                    assert(field_le(k, out_dv[pos as int], out_dv[i]));
                    lemma_field_le_trans(k, xv, out_dv[pos as int], out_dv[i]);
                }
            }
            // every record from pos on has a strictly larger key: a stable
            // insertion point lies after all records with the same key
            assert forall|i: int|
                pos <= i < out_dv.len() implies !field_le(k, out_dv[i], xv) by {
                if i > pos && field_le(k, out_dv[i], xv) {
                    assert(field_le(k, out_dv[pos as int], out_dv[i]));
                    lemma_field_le_trans(k, out_dv[pos as int], out_dv[i], xv);
                }
            }
        }
        out.insert(pos, x);
        proof {
            let new_dv = out.deep_view();
            assert(new_dv =~= out_dv.insert(pos as int, xv)) by {
                assert(out@ == out@.subrange(0, out@.len() as int));
                assert forall|i: int| 0 <= i < new_dv.len() implies new_dv[i] == out_dv.insert(
                    pos as int,
                    xv,
                )[i] by {
                    assert(new_dv[i] == out@[i]@);
                }
            }
            assert(sorted_by_field(k, new_dv)) by {
                assert forall|i: int, j: int|
                    0 <= i < j < new_dv.len() implies field_le(k, new_dv[i], new_dv[j]) by {
                    assert(new_dv =~= out_dv.take(pos as int) + seq![xv] + out_dv.skip(
                        pos as int,
                    ));
                    if j < pos {
                        assert(new_dv[i] == out_dv[i] && new_dv[j] == out_dv[j]);
                    } else if i < pos && j == pos {
                        assert(new_dv[i] == out_dv[i] && new_dv[j] == xv);
                    } else if i < pos && j > pos {
                        assert(new_dv[i] == out_dv[i] && new_dv[j] == out_dv[j - 1]);
                    } else if i == pos {
                        assert(new_dv[i] == xv && new_dv[j] == out_dv[j - 1]);
                    } else {
                        assert(new_dv[i] == out_dv[i - 1] && new_dv[j] == out_dv[j - 1]);
                    }
                }
            }
            assert(prof_dv.to_multiset().count(xv) > 0) by {
                assert(prof_dv.contains(xv)) by {
                    assert(prof_dv[0] == xv);
                }
            }
            assert(new_dv.to_multiset() =~= out_dv.to_multiset().insert(xv));
            assert(profiles.deep_view().to_multiset() =~= prof_dv.to_multiset().remove(xv));
            assert(new_dv.to_multiset().add(profiles.deep_view().to_multiset()) =~= target);

            // extend the stability map: the record consumed in this round
            // takes the insertion position
            let old_om = om;
            om = om.insert(pos as int, c);
            assert(om =~= old_om.take(pos as int) + seq![c] + old_om.skip(pos as int));
            let before = orig.take(c + 1);
            assert(stable_sort_map(k, om, before, new_dv)) by {
                assert forall|i: int| 0 <= i < om.len() implies 0 <= #[trigger] om[i]
                    < before.len() by {
                    if i < pos {
                        assert(om[i] == old_om[i]);
                    } else if i > pos {
                        assert(om[i] == old_om[i - 1]);
                    }
                }
                assert forall|i: int, j: int| 0 <= i < j < om.len() implies om[i] != om[j] by {
                    if j < pos {
                        assert(om[i] == old_om[i] && om[j] == old_om[j]);
                    } else if i < pos && j == pos {
                        assert(om[i] == old_om[i] && om[i] < c && om[j] == c);
                    } else if i < pos && j > pos {
                        assert(om[i] == old_om[i] && om[j] == old_om[j - 1]);
                    } else if i == pos {
                        assert(om[i] == c && om[j] == old_om[j - 1] && om[j] < c);
                    } else {
                        assert(om[i] == old_om[i - 1] && om[j] == old_om[j - 1]);
                    }
                }
                assert forall|i: int| 0 <= i < om.len() implies new_dv[i] == before[
                    #[trigger] om[i]
                ] by {
                    assert(new_dv =~= out_dv.take(pos as int) + seq![xv] + out_dv.skip(
                        pos as int,
                    ));
                    if i < pos {
                        assert(om[i] == old_om[i] && new_dv[i] == out_dv[i]);
                        assert(out_dv[i] == orig.take(c)[old_om[i]]);
                    } else if i == pos {
                        assert(om[i] == c && new_dv[i] == xv);
                    } else {
                        assert(om[i] == old_om[i - 1] && new_dv[i] == out_dv[i - 1]);
                        assert(out_dv[i - 1] == orig.take(c)[old_om[i - 1]]);
                    }
                }
                assert forall|i: int, j: int|
                    0 <= i < j < om.len() && field_eq(k, new_dv[i], new_dv[j]) implies om[i]
                    < om[j] by {
                    assert(new_dv =~= out_dv.take(pos as int) + seq![xv] + out_dv.skip(
                        pos as int,
                    ));
                    if j < pos {
                        assert(new_dv[i] == out_dv[i] && new_dv[j] == out_dv[j]);
                        assert(om[i] == old_om[i] && om[j] == old_om[j]);
                    } else if i < pos && j == pos {
                        assert(om[i] == old_om[i] && om[i] < c && om[j] == c);
                    } else if i < pos && j > pos {
                        assert(new_dv[i] == out_dv[i] && new_dv[j] == out_dv[j - 1]);
                        assert(om[i] == old_om[i] && om[j] == old_om[j - 1]);
                    } else if i == pos && j > pos {
                        // records beyond the insertion point have strictly
                        // larger keys, so their keys never equal the new one
                        assert(new_dv[i] == xv && new_dv[j] == out_dv[j - 1]);
                        assert(!field_le(k, out_dv[j - 1], xv));
                        assert(false);
                    } else {
                        assert(new_dv[i] == out_dv[i - 1] && new_dv[j] == out_dv[j - 1]);
                        assert(om[i] == old_om[i - 1] && om[j] == old_om[j - 1]);
                    }
                }
            }
        }
    }
    proof {
        assert(profiles.deep_view() =~= Seq::<ProfileV>::empty());
        assert(profiles.deep_view().to_multiset() =~= Multiset::<ProfileV>::empty());
    }
    *profiles = out;
    proof {
        assert(profiles.deep_view().to_multiset().add(Multiset::<ProfileV>::empty())
            =~= profiles.deep_view().to_multiset());
        assert(profiles.deep_view().to_multiset() == target);
        assert(profiles.deep_view().len() == old(profiles).deep_view().len()) by {
            assert(profiles.deep_view().to_multiset().len() == profiles.deep_view().len());
            assert(old(profiles).deep_view().to_multiset().len() == old(
                profiles,
            ).deep_view().len());
        }
        assert(orig.take(orig_len as int) =~= orig);
        assert(stable_sort_map(k, om, orig, profiles.deep_view()));
    }
}

} // verus!
