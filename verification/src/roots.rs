//! Listing from fixed roots: of the records listed by generations, only the
//! roots and the records that descend from them, generation after
//! generation

use vstd::prelude::*;
use crate::record::FileView;
use crate::repository::{contains_name, names_contain, parent_link_name, record_views, Record, RecordView};
use crate::text::{concat, str_eq};

verus! {

/// The name of a record as a value: its encoded hash
pub open spec fn record_name(r: RecordView) -> Seq<char> {
    r.1.spec_encode(r.0)
}

/// Whether files hold a link to one of `names`
pub open spec fn links_to_any(files: Seq<FileView>, names: Seq<Seq<char>>) -> bool {
    exists|i: int, k: int|
        0 <= i < files.len() && 0 <= k < names.len() && #[trigger] files[i].0 == parent_link_name(#[trigger] names[k])
}

/// Whether a record is one of the roots or links to a record kept before
pub open spec fn under_roots(r: RecordView, roots: Seq<String>, kept: Seq<Seq<char>>) -> bool {
    names_contain(roots, record_name(r)) || links_to_any(r.3, kept)
}

/// The records of one generation that lie under the roots, in order, given
/// the names of the records kept in earlier generations
pub open spec fn select_under(g: Seq<RecordView>, roots: Seq<String>, kept: Seq<Seq<char>>) -> Seq<RecordView>
    decreases g.len(),
{
    if g.len() == 0 {
        Seq::empty()
    } else {
        let p = select_under(g.drop_last(), roots, kept);
        if under_roots(g.last(), roots, kept) {
            p.push(g.last())
        } else {
            p
        }
    }
}

/// The names of records
pub open spec fn record_names(rs: Seq<RecordView>) -> Seq<Seq<char>> {
    rs.map_values(|r: RecordView| record_name(r))
}

/// Generations restricted to the roots and their descendants, given the
/// names kept before; generations left empty are dropped
pub open spec fn restrict_from(gens: Seq<Seq<RecordView>>, roots: Seq<String>, kept: Seq<Seq<char>>) -> Seq<Seq<RecordView>>
    decreases gens.len(),
{
    if gens.len() == 0 {
        Seq::empty()
    } else {
        let sel = select_under(gens[0], roots, kept);
        let rest = restrict_from(gens.drop_first(), roots, kept + record_names(sel));
        if sel.len() == 0 {
            rest
        } else {
            seq![sel] + rest
        }
    }
}

/// The values of generations of records
pub open spec fn generations_view(gens: Seq<Vec<Record>>) -> Seq<Seq<RecordView>> {
    gens.map_values(|g: Vec<Record>| record_views(g@))
}

/// Whether a record links to one of the records named in `kept`
fn links_to_kept(r: &Record, kept: &Vec<String>) -> (res: bool)
    ensures
        res == links_to_any(r.spec_files(), kept@.map_values(|s: String| s@)),
{
    let ghost names = kept@.map_values(|s: String| s@);
    let files = r.files();
    let mut i: usize = 0;
    while i < files.len()
        invariant
            i <= files@.len(),
            names == kept@.map_values(|s: String| s@),
            crate::record::views(files@) == r.spec_files(),
            forall|a: int, b: int| 0 <= a < i && 0 <= b < names.len() ==>
                #[trigger] files@[a].name@ != parent_link_name(#[trigger] names[b]),
        decreases files@.len() - i,
    {
        let mut k: usize = 0;
        while k < kept.len()
            invariant
                i < files@.len(),
                k <= kept@.len(),
                names == kept@.map_values(|s: String| s@),
                crate::record::views(files@) == r.spec_files(),
                forall|b: int| 0 <= b < k ==> files@[i as int].name@ != parent_link_name(#[trigger] names[b]),
            decreases kept@.len() - k,
        {
            let link = concat(".prev/", kept[k].as_str());
            proof {
                reveal_strlit(".prev/");
                assert(names[k as int] == kept@[k as int]@);
            }
            if str_eq(files[i].name(), link.as_str()) {
                proof {
                    assert(r.spec_files()[i as int] == files@[i as int]@);
                    assert(r.spec_files()[i as int].0 == parent_link_name(names[k as int]));
                }
                return true;
            }
            k = k + 1;
        }
        i = i + 1;
    }
    proof {
        assert forall|a: int, b: int| 0 <= a < r.spec_files().len() && 0 <= b < names.len() implies
            #[trigger] r.spec_files()[a].0 != parent_link_name(#[trigger] names[b]) by {
            assert(r.spec_files()[a] == files@[a]@);
        }
    }
    false
}

proof fn lemma_record_names_push(rs: Seq<RecordView>, r: RecordView)
    ensures
        record_names(rs.push(r)) == record_names(rs).push(record_name(r)),
{
    assert(record_names(rs.push(r)) =~= record_names(rs).push(record_name(r)));
}

/// Keeps, of records listed by generations, the roots named in `roots` and
/// the records that link, directly or through other kept records, to a
/// root; a record counts as linked when it links to a record kept in an
/// earlier generation. Generations left empty are dropped.
pub fn restrict_to_roots(generations: Vec<Vec<Record>>, roots: &Vec<String>) -> (res: Vec<Vec<Record>>)
    ensures
        generations_view(res@) == restrict_from(generations_view(generations@), roots@, Seq::empty()),
{
    let ghost all = generations_view(generations@);
    let mut rest = generations;
    let mut out: Vec<Vec<Record>> = Vec::new();
    let mut kept: Vec<String> = Vec::new();
    let ghost mut i: int = 0;
    proof {
        assert(generations_view(out@) =~= Seq::<Seq<RecordView>>::empty());
        assert(kept@.map_values(|s: String| s@) =~= Seq::<Seq<char>>::empty());
        assert(all.skip(0) =~= all);
    }
    while rest.len() > 0
        invariant
            0 <= i <= all.len(),
            generations_view(rest@) == all.skip(i),
            generations_view(out@) + restrict_from(all.skip(i), roots@, kept@.map_values(|s: String| s@))
                == restrict_from(all, roots@, Seq::empty()),
        decreases rest@.len(),
    {
        let ghost kv = kept@.map_values(|s: String| s@);
        let ghost before_rest = rest@;
        let mut g = rest.remove(0);
        let ghost gv = record_views(g@);
        proof {
            assert(generations_view(before_rest).len() == before_rest.len());
            assert(generations_view(before_rest)[0] == gv);
            assert(all.skip(i)[0] == gv);
            assert(generations_view(rest@) =~= generations_view(before_rest).drop_first());
            assert(all.skip(i).drop_first() =~= all.skip(i + 1));
        }
        let mut sel: Vec<Record> = Vec::new();
        let mut new_names: Vec<String> = Vec::new();
        let ghost mut j: int = 0;
        proof {
            assert(gv.take(0) =~= Seq::<RecordView>::empty());
            assert(record_views(sel@) =~= Seq::<RecordView>::empty());
            assert(g@.len() == gv.len());
            assert(record_views(g@) =~= gv.skip(0));
        }
        while g.len() > 0
            invariant
                0 <= j <= gv.len(),
                record_views(g@) == gv.skip(j),
                record_views(sel@) == select_under(gv.take(j), roots@, kv),
                new_names@.map_values(|s: String| s@) == record_names(record_views(sel@)),
                kv == kept@.map_values(|s: String| s@),
            decreases g@.len(),
        {
            let ghost before_g = g@;
            let r = g.remove(0);
            proof {
                assert(record_views(before_g).len() == before_g.len());
                assert(record_views(before_g)[0] == r@);
                assert(gv.skip(j)[0] == gv[j]);
                assert(gv[j] == r@);
                assert(record_views(g@) =~= record_views(before_g).drop_first());
                assert(gv.skip(j).drop_first() =~= gv.skip(j + 1));
                assert(gv.take(j + 1).drop_last() =~= gv.take(j));
                assert(gv.take(j + 1).last() == gv[j]);
            }
            let name = r.encoded_hash();
            let keep = contains_name(roots, name.as_str()) || links_to_kept(&r, &kept);
            if keep {
                proof {
                    assert(record_views(sel@.push(r)) =~= record_views(sel@).push(r@));
                    lemma_record_names_push(record_views(sel@), r@);
                    assert(new_names@.push(name).map_values(|s: String| s@) =~= new_names@.map_values(|s: String| s@).push(name@));
                }
                sel.push(r);
                new_names.push(name);
            }
            proof {
                j = j + 1;
            }
        }
        proof {
            assert(gv.take(gv.len() as int) =~= gv);
            assert(j == gv.len());
        }
        let ghost selv = record_views(sel@);
        let ghost kept_before = kept@;
        let mut nn = new_names;
        kept.append(&mut nn);
        proof {
            assert(kept@.map_values(|s: String| s@) =~= kv + record_names(selv));
            assert(restrict_from(all.skip(i), roots@, kv) == (if selv.len() == 0 {
                restrict_from(all.skip(i + 1), roots@, kv + record_names(selv))
            } else {
                seq![selv] + restrict_from(all.skip(i + 1), roots@, kv + record_names(selv))
            }));
        }
        if sel.len() > 0 {
            let ghost out_before = out@;
            out.push(sel);
            proof {
                assert(generations_view(out@) =~= generations_view(out_before).push(selv));
                assert(generations_view(out_before).push(selv) + restrict_from(all.skip(i + 1), roots@, kv + record_names(selv))
                    =~= generations_view(out_before) + (seq![selv] + restrict_from(all.skip(i + 1), roots@, kv + record_names(selv))));
            }
        }
        proof {
            i = i + 1;
        }
    }
    proof {
        assert(all.skip(i).len() == 0);
        assert(restrict_from(all.skip(i), roots@, kept@.map_values(|s: String| s@)) =~= Seq::<Seq<RecordView>>::empty());
        assert(generations_view(out@) + Seq::<Seq<RecordView>>::empty() =~= generations_view(out@));
    }
    out
}

/// Whether `r` is one of the records listed by generations in `gens`
pub open spec fn listed(gens: Seq<Seq<RecordView>>, r: RecordView) -> bool {
    exists|p: int, q: int| 0 <= p < gens.len() && 0 <= q < gens[p].len() && #[trigger] gens[p][q] == r
}

/// A record of a generation that lies under the roots is selected
proof fn lemma_select_under_keeps(g: Seq<RecordView>, roots: Seq<String>, kept: Seq<Seq<char>>, j: int)
    requires
        0 <= j < g.len(),
        under_roots(g[j], roots, kept),
    ensures
        exists|q: int| 0 <= q < select_under(g, roots, kept).len() && #[trigger] select_under(g, roots, kept)[q] == g[j],
    decreases g.len(),
{
    let s = select_under(g, roots, kept);
    if j == g.len() - 1 {
        assert(s[s.len() - 1] == g[j]);
    } else {
        let init = g.drop_last();
        assert(init[j] == g[j]);
        lemma_select_under_keeps(init, roots, kept, j);
        let p = select_under(init, roots, kept);
        let q = choose|q: int| 0 <= q < p.len() && #[trigger] p[q] == g[j];
        assert(s[q] == p[q]);
    }
}

/// Linking to a name stays true when more names are kept
proof fn lemma_links_more(files: Seq<FileView>, kept: Seq<Seq<char>>, more: Seq<Seq<char>>)
    requires
        links_to_any(files, kept),
    ensures
        links_to_any(files, kept + more),
{
    let (i, k) = choose|i: int, k: int|
        0 <= i < files.len() && 0 <= k < kept.len() && #[trigger] files[i].0 == parent_link_name(#[trigger] kept[k]);
    assert((kept + more)[k] == kept[k]);
}

/// What is listed in the generations after the first is listed in all of them
proof fn lemma_listed_rest(gens: Seq<Seq<RecordView>>, roots: Seq<String>, kept: Seq<Seq<char>>, r: RecordView)
    requires
        gens.len() > 0,
        listed(restrict_from(gens.drop_first(), roots,
            kept + record_names(select_under(gens[0], roots, kept))), r),
    ensures
        listed(restrict_from(gens, roots, kept), r),
{
    let sel = select_under(gens[0], roots, kept);
    let rest = restrict_from(gens.drop_first(), roots, kept + record_names(sel));
    let all = restrict_from(gens, roots, kept);
    let (p, q) = choose|p: int, q: int| 0 <= p < rest.len() && 0 <= q < rest[p].len() && #[trigger] rest[p][q] == r;
    if sel.len() == 0 {
        assert(all == rest);
    } else {
        assert(all[p + 1] == rest[p]);
        assert(all[p + 1][q] == r);
    }
}

/// A record that lies under the roots, given what was kept before, is kept
proof fn lemma_under_roots_listed(gens: Seq<Seq<RecordView>>, roots: Seq<String>, kept: Seq<Seq<char>>, h: int, b: int)
    requires
        0 <= h < gens.len(),
        0 <= b < gens[h].len(),
        under_roots(gens[h][b], roots, kept),
    ensures
        listed(restrict_from(gens, roots, kept), gens[h][b]),
    decreases h,
{
    let sel = select_under(gens[0], roots, kept);
    let kept2 = kept + record_names(sel);
    let all = restrict_from(gens, roots, kept);
    if h == 0 {
        lemma_select_under_keeps(gens[0], roots, kept, b);
        let q = choose|q: int| 0 <= q < sel.len() && #[trigger] sel[q] == gens[0][b];
        assert(all[0] == sel);
        assert(all[0][q] == gens[h][b]);
    } else {
        let y = gens[h][b];
        if links_to_any(y.3, kept) {
            lemma_links_more(y.3, kept, record_names(sel));
        }
        assert(gens.drop_first()[h - 1] == gens[h]);
        lemma_under_roots_listed(gens.drop_first(), roots, kept2, h - 1, b);
        lemma_listed_rest(gens, roots, kept, y);
    }
}

/// A record that links to a record kept from the generations before it is kept
proof fn lemma_descendant_listed(gens: Seq<Seq<RecordView>>, roots: Seq<String>, kept: Seq<Seq<char>>,
    h: int, b: int, x: RecordView, i: int)
    requires
        0 <= h < gens.len(),
        0 <= b < gens[h].len(),
        0 <= i < gens[h][b].3.len(),
        gens[h][b].3[i].0 == parent_link_name(record_name(x)),
        listed(restrict_from(gens.take(h), roots, kept), x),
    ensures
        listed(restrict_from(gens, roots, kept), gens[h][b]),
    decreases h,
{
    let y = gens[h][b];
    let t = gens.take(h);
    if h == 0 {
        assert(t.len() == 0);
        assert(restrict_from(t, roots, kept).len() == 0);
    } else {
        let sel = select_under(gens[0], roots, kept);
        let kept2 = kept + record_names(sel);
        let rest_gens = gens.drop_first();
        assert(t[0] == gens[0]);
        assert(t.drop_first() =~= rest_gens.take(h - 1));
        let rt = restrict_from(t, roots, kept);
        let rrest = restrict_from(rest_gens.take(h - 1), roots, kept2);
        let (p, q) = choose|p: int, q: int| 0 <= p < rt.len() && 0 <= q < rt[p].len() && #[trigger] rt[p][q] == x;
        assert(rest_gens[h - 1] == gens[h]);
        if sel.len() > 0 && p == 0 {
            assert(rt[0] == sel);
            let names = record_names(sel);
            assert(names[q] == record_name(x));
            assert(kept2[kept.len() + q] == names[q]);
            assert(y.3[i].0 == parent_link_name(kept2[kept.len() + q]));
            assert(links_to_any(y.3, kept2));
            lemma_under_roots_listed(rest_gens, roots, kept2, h - 1, b);
        } else {
            if sel.len() > 0 {
                assert(rt[p] == rrest[p - 1]);
                assert(rrest[p - 1][q] == x);
            } else {
                assert(rt == rrest);
            }
            assert(listed(rrest, x));
            lemma_descendant_listed(rest_gens, roots, kept2, h - 1, b, x, i);
        }
        lemma_listed_rest(gens, roots, kept, y);
    }
}

/// A selected record is a record of the generation that lies under the roots
proof fn lemma_select_under_from(g: Seq<RecordView>, roots: Seq<String>, kept: Seq<Seq<char>>, q: int)
    requires
        0 <= q < select_under(g, roots, kept).len(),
    ensures
        exists|j: int| 0 <= j < g.len() && #[trigger] g[j] == select_under(g, roots, kept)[q]
            && under_roots(g[j], roots, kept),
    decreases g.len(),
{
    let s = select_under(g, roots, kept);
    let init = g.drop_last();
    let p = select_under(init, roots, kept);
    if q < p.len() {
        assert(s[q] == p[q]);
        lemma_select_under_from(init, roots, kept, q);
        let j = choose|j: int| 0 <= j < init.len() && #[trigger] init[j] == p[q] && under_roots(init[j], roots, kept);
        assert(g[j] == init[j]);
    } else {
        assert(s[q] == g.last());
        assert(g[g.len() - 1] == g.last());
    }
}

/// Why a record of generation `h` is kept: it is a root, it links to a name
/// kept before the generations, or it links to a record that restricting
/// the generations before `h` keeps
spec fn kept_for_reason(gens: Seq<Seq<RecordView>>, roots: Seq<String>, kept: Seq<Seq<char>>, h: int,
    r: RecordView) -> bool {
    ||| names_contain(roots, record_name(r))
    ||| links_to_any(r.3, kept)
    ||| exists|i: int, x: RecordView| 0 <= i < r.3.len() && #[trigger] r.3[i].0 == parent_link_name(record_name(x))
            && #[trigger] listed(restrict_from(gens.take(h), roots, kept), x)
}

/// Whatever is kept is a record of some generation, kept for a reason
proof fn lemma_listed_for_reason(gens: Seq<Seq<RecordView>>, roots: Seq<String>, kept: Seq<Seq<char>>, r: RecordView)
    requires
        listed(restrict_from(gens, roots, kept), r),
    ensures
        exists|h: int, b: int| 0 <= h < gens.len() && 0 <= b < gens[h].len() && #[trigger] gens[h][b] == r
            && kept_for_reason(gens, roots, kept, h, r),
    decreases gens.len(),
{
    let all = restrict_from(gens, roots, kept);
    let sel = select_under(gens[0], roots, kept);
    let kept2 = kept + record_names(sel);
    let rest_gens = gens.drop_first();
    let rest = restrict_from(rest_gens, roots, kept2);
    let (p, q) = choose|p: int, q: int| 0 <= p < all.len() && 0 <= q < all[p].len() && #[trigger] all[p][q] == r;
    if sel.len() > 0 && p == 0 {
        assert(all[0] == sel);
        lemma_select_under_from(gens[0], roots, kept, q);
        let b = choose|j: int| 0 <= j < gens[0].len() && #[trigger] gens[0][j] == sel[q]
            && under_roots(gens[0][j], roots, kept);
        assert(gens[0][b] == r);
        assert(kept_for_reason(gens, roots, kept, 0, r));
    } else {
        let p2 = if sel.len() > 0 { p - 1 } else { p };
        if sel.len() > 0 {
            assert(all[p] == rest[p2]);
        } else {
            assert(all == rest);
        }
        assert(rest[p2][q] == r);
        assert(listed(rest, r));
        lemma_listed_for_reason(rest_gens, roots, kept2, r);
        let (h2, b) = choose|h: int, b: int| 0 <= h < rest_gens.len() && 0 <= b < rest_gens[h].len()
            && #[trigger] rest_gens[h][b] == r && kept_for_reason(rest_gens, roots, kept2, h, r);
        let h = h2 + 1;
        assert(gens[h] == rest_gens[h2]);
        assert(gens[h][b] == r);
        let t = gens.take(h);
        let rt = restrict_from(t, roots, kept);
        let rrest = restrict_from(rest_gens.take(h2), roots, kept2);
        assert(t[0] == gens[0]);
        assert(t.drop_first() =~= rest_gens.take(h2));
        if names_contain(roots, record_name(r)) {
        } else if links_to_any(r.3, kept2) {
            let (i, k) = choose|i: int, k: int|
                0 <= i < r.3.len() && 0 <= k < kept2.len() && #[trigger] r.3[i].0 == parent_link_name(#[trigger] kept2[k]);
            if k < kept.len() {
                assert(kept2[k] == kept[k]);
                assert(links_to_any(r.3, kept));
            } else {
                let q2 = k - kept.len();
                assert(kept2[k] == record_names(sel)[q2]);
                let x = sel[q2];
                assert(record_names(sel)[q2] == record_name(x));
                assert(rt[0] == sel);
                assert(rt[0][q2] == x);
                assert(listed(rt, x));
                assert(r.3[i].0 == parent_link_name(record_name(x)));
            }
        } else {
            let (i, x) = choose|i: int, x: RecordView| 0 <= i < r.3.len()
                && #[trigger] r.3[i].0 == parent_link_name(record_name(x))
                && #[trigger] listed(restrict_from(rest_gens.take(h2), roots, kept2), x);
            let (pp, qq) = choose|pp: int, qq: int| 0 <= pp < rrest.len() && 0 <= qq < rrest[pp].len()
                && #[trigger] rrest[pp][qq] == x;
            if sel.len() > 0 {
                assert(rt[pp + 1] == rrest[pp]);
                assert(rt[pp + 1][qq] == x);
            } else {
                assert(rt == rrest);
                assert(rt[pp][qq] == x);
            }
            assert(listed(rt, x));
        }
        assert(kept_for_reason(gens, roots, kept, h, r));
    }
}

/// Only roots and their descendants are kept: every kept record is a record
/// of some generation `h` that is one of the roots or holds a link
/// (`.prev/` followed by the name) to a record that restricting the
/// generations before `h` keeps.
pub proof fn law_only_roots_and_descendants_are_kept(gens: Seq<Seq<RecordView>>, roots: Seq<String>, r: RecordView)
    requires
        listed(restrict_from(gens, roots, Seq::empty()), r),
    ensures
        exists|h: int, b: int| 0 <= h < gens.len() && 0 <= b < gens[h].len() && #[trigger] gens[h][b] == r && {
            ||| names_contain(roots, r.1.spec_encode(r.0))
            ||| exists|i: int, x: RecordView| 0 <= i < r.3.len() && #[trigger] r.3[i].0 == ".prev/"@ + x.1.spec_encode(x.0)
                    && #[trigger] listed(restrict_from(gens.take(h), roots, Seq::empty()), x)
        },
{
    lemma_listed_for_reason(gens, roots, Seq::empty(), r);
    let (h, b) = choose|h: int, b: int| 0 <= h < gens.len() && 0 <= b < gens[h].len() && #[trigger] gens[h][b] == r
        && kept_for_reason(gens, roots, Seq::empty(), h, r);
    if links_to_any(r.3, Seq::<Seq<char>>::empty()) {
        let (i, k) = choose|i: int, k: int| 0 <= i < r.3.len() && 0 <= k < Seq::<Seq<char>>::empty().len()
            && #[trigger] r.3[i].0 == parent_link_name(#[trigger] Seq::<Seq<char>>::empty()[k]);
        assert(false);
    }
}

/// Every root is kept: a record of any generation whose name is one of the
/// roots is listed in the restricted generations.
pub proof fn law_roots_are_kept(gens: Seq<Seq<RecordView>>, roots: Seq<String>, h: int, b: int)
    requires
        0 <= h < gens.len(),
        0 <= b < gens[h].len(),
        names_contain(roots, gens[h][b].1.spec_encode(gens[h][b].0)),
    ensures
        listed(restrict_from(gens, roots, Seq::empty()), gens[h][b]),
{
    lemma_under_roots_listed(gens, roots, Seq::empty(), h, b);
}

/// Descendants are kept at any depth: a record of generation `h` holding a
/// link (`.prev/` followed by the name) to a record that restricting the
/// generations before `h` keeps is kept as well. So when `R1` is a root,
/// `R2` links to `R1` and `R3` links to `R2`, all three are listed.
pub proof fn law_descendants_are_kept(gens: Seq<Seq<RecordView>>, roots: Seq<String>, h: int, b: int,
    x: RecordView, i: int)
    requires
        0 <= h < gens.len(),
        0 <= b < gens[h].len(),
        0 <= i < gens[h][b].3.len(),
        gens[h][b].3[i].0 == ".prev/"@ + x.1.spec_encode(x.0),
        listed(restrict_from(gens.take(h), roots, Seq::empty()), x),
    ensures
        listed(restrict_from(gens, roots, Seq::empty()), gens[h][b]),
{
    lemma_descendant_listed(gens, roots, Seq::empty(), h, b, x, i);
}

} // verus!
