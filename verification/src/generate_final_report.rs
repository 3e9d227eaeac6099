//! The final report: tags summed over all sites and the rankings of sites and
//! tags by words per question.
use vstd::prelude::*;
use crate::keyed_table::{
    get_or, lemma_map_of_push, map_of, names_of, KeyedTable,
};
use crate::processing_file::{
    entries_view, entry_names, get_top10_tags_from_hashmap, is_top_selection,
    sort_vec_and_set_top10, strings_view, zero_stats,
};
use crate::stats::{Report, SiteStats, TagStats};

verus! {

/// The tag table `all` after adding the tags of one site: each tag of the
/// site adds its questions and words.
pub open spec fn tags_plus(all: Map<Seq<char>, TagStats>, site: Map<Seq<char>, TagStats>) -> Map<
    Seq<char>,
    TagStats,
> {
    Map::new(
        |k: Seq<char>| all.contains_key(k) || site.contains_key(k),
        |k: Seq<char>|
            if site.contains_key(k) {
                TagStats {
                    questions: (get_or(all, k, zero_stats()).questions + site[k].questions) as u32,
                    words: (get_or(all, k, zero_stats()).words + site[k].words) as u32,
                }
            } else {
                all[k]
            },
    )
}

/// Adding the tags of `site` to `all` overflows no counter.
pub open spec fn tags_plus_fits(all: Map<Seq<char>, TagStats>, site: Map<Seq<char>, TagStats>) -> bool {
    forall|k: Seq<char>|
        #[trigger] site.contains_key(k) ==> {
            &&& get_or(all, k, zero_stats()).questions + site[k].questions <= u32::MAX
            &&& get_or(all, k, zero_stats()).words + site[k].words <= u32::MAX
        }
}

/// Adds the questions and words of each tag of a site to the totals of all
/// sites.
pub fn accumulate_tag_stats(site_stats: &SiteStats, all_tags: &mut KeyedTable<TagStats>)
    requires
        tags_plus_fits(old(all_tags)@, site_stats.tags@),
    ensures
        final(all_tags)@ == tags_plus(old(all_tags)@, site_stats.tags@),
{
    let ghost site = site_stats.tags.entries();
    let ghost m0 = all_tags@;
    let mut i: usize = 0;
    proof {
        use_type_invariant(&site_stats.tags);
        assert(map_of(site.take(0)) =~= Map::<Seq<char>, TagStats>::empty());
        assert(tags_plus(m0, map_of(site.take(0))) =~= m0);
    }
    while i < site_stats.tags.len()
        invariant
            site == site_stats.tags.entries(),
            names_of(site).no_duplicates(),
            i <= site.len(),
            all_tags@ == tags_plus(m0, map_of(site.take(i as int))),
            tags_plus_fits(m0, site_stats.tags@),
            site_stats.tags@ == map_of(site),
            m0 == old(all_tags)@,
        decreases site.len() - i,
    {
        let name = site_stats.tags.name_at(i);
        let stats = *site_stats.tags.value_at(i);
        let ghost k = name@;
        let ghost pre = site.take(i as int);
        proof {
            assert(site[i as int] == (k, stats));
            assert(names_of(pre) =~= names_of(site).take(i as int));
            assert(!names_of(pre).contains(k)) by {
                if names_of(pre).contains(k) {
                    let j = choose|j: int| 0 <= j < names_of(pre).len() && names_of(pre)[j] == k;
                    assert(names_of(site)[j] == names_of(site)[i as int]);
                }
            }
            assert(names_of(pre).no_duplicates()) by {
                assert forall|a: int, b: int| 0 <= a < b < names_of(pre).len() implies names_of(
                    pre,
                )[a] != names_of(pre)[b] by {
                    assert(names_of(site)[a] == names_of(pre)[a]);
                    assert(names_of(site)[b] == names_of(pre)[b]);
                }
            }
            lemma_map_of_push(pre, k, stats);
            assert(site.take(i + 1) =~= pre.push((k, stats)));
            crate::keyed_table::lemma_map_of_index(site, i as int);
            assert(site_stats.tags@.contains_key(k));
            assert(site_stats.tags@[k] == stats);
            crate::keyed_table::lemma_map_of_dom(pre, k);
            assert(!map_of(pre).contains_key(k));
            assert(tags_plus(m0, map_of(pre)).contains_key(k) == m0.contains_key(k));
        }
        let current = match all_tags.get(name) {
            Some(s) => *s,
            None => TagStats { questions: 0, words: 0 },
        };
        let updated = TagStats {
            questions: current.questions + stats.questions,
            words: current.words + stats.words,
        };
        all_tags.insert(name.clone(), updated);
        proof {
            let p = map_of(pre);
            let q = map_of(pre.push((k, stats)));
            assert forall|x: Seq<char>| #[trigger] tags_plus(m0, q).contains_key(x) == all_tags@.contains_key(x) by {}
            assert forall|x: Seq<char>| tags_plus(m0, q).contains_key(x) implies #[trigger] tags_plus(m0, q)[x] == all_tags@[x] by {
                if x != k && p.contains_key(x) {
                }
            }
            assert(tags_plus(m0, q) =~= all_tags@);
        }
        i = i + 1;
    }
    proof {
        assert(site.take(i as int) =~= site);
    }
}

/// The totals of a tag do not depend on the order the sites are added in:
/// adding site `a` then site `b` gives what adding `b` then `a` gives, when
/// no counter overflows.
pub proof fn lemma_tags_plus_commute(
    m: Map<Seq<char>, TagStats>,
    a: Map<Seq<char>, TagStats>,
    b: Map<Seq<char>, TagStats>,
)
    requires
        forall|k: Seq<char>|
            #![trigger get_or(m, k, zero_stats())]
            get_or(m, k, zero_stats()).questions + get_or(a, k, zero_stats()).questions + get_or(
                b,
                k,
                zero_stats(),
            ).questions <= u32::MAX && get_or(m, k, zero_stats()).words + get_or(
                a,
                k,
                zero_stats(),
            ).words + get_or(b, k, zero_stats()).words <= u32::MAX,
    ensures
        tags_plus(tags_plus(m, a), b) == tags_plus(tags_plus(m, b), a),
{
    let l = tags_plus(tags_plus(m, a), b);
    let r = tags_plus(tags_plus(m, b), a);
    assert forall|k: Seq<char>| l.contains_key(k) implies #[trigger] l[k] == r[k] by {
        let z = get_or(m, k, zero_stats());
        assert(z.questions + get_or(a, k, zero_stats()).questions + get_or(b, k, zero_stats()).questions
            <= u32::MAX);
    }
    assert(l =~= r);
}

/// The tag table `all` after adding the tags of each site in turn.
pub open spec fn tags_after_sites(all: Map<Seq<char>, TagStats>, sites: Seq<(Seq<char>, SiteStats)>) -> Map<
    Seq<char>,
    TagStats,
>
    decreases sites.len(),
{
    if sites.len() == 0 {
        all
    } else {
        tags_plus(tags_after_sites(all, sites.drop_last()), sites.last().1.tags@)
    }
}

/// Adding the tags of all sites in turn overflows no counter.
pub open spec fn sites_fit(all: Map<Seq<char>, TagStats>, sites: Seq<(Seq<char>, SiteStats)>) -> bool
    decreases sites.len(),
{
    sites.len() == 0 || {
        &&& sites_fit(all, sites.drop_last())
        &&& tags_plus_fits(tags_after_sites(all, sites.drop_last()), sites.last().1.tags@)
    }
}

proof fn lemma_sites_fit_prefix(all: Map<Seq<char>, TagStats>, sites: Seq<(Seq<char>, SiteStats)>, i: int)
    requires
        sites_fit(all, sites),
        0 <= i <= sites.len(),
    ensures
        sites_fit(all, sites.take(i)),
    decreases sites.len(),
{
    if i == sites.len() {
        assert(sites.take(i) =~= sites);
    } else {
        lemma_sites_fit_prefix(all, sites.drop_last(), i);
        assert(sites.drop_last().take(i) =~= sites.take(i));
    }
}

/// The words/questions of each site, as ranking entries.
pub open spec fn site_ratio_entries(sites: Seq<(Seq<char>, SiteStats)>) -> Seq<(Seq<char>, TagStats)> {
    sites.map_values(
        |e: (Seq<char>, SiteStats)| (e.0, TagStats { questions: e.1.questions, words: e.1.words }),
    )
}

/// Sites are ranked by their own words per question, and by name between
/// equal ratios: when site `p` has a higher ratio of words to questions than
/// site `q` (both with questions), or the same ratio and a name that comes
/// first, and `q` is among the chatty sites of a report (at place `j`), then
/// `p` is too, at an earlier place.
pub proof fn lemma_chatty_sites_by_ratio(
    sites: Seq<(Seq<char>, SiteStats)>,
    chatty: Seq<Seq<char>>,
    p: int,
    q: int,
    j: int,
)
    requires
        names_of(sites).no_duplicates(),
        exists|top: Seq<(Seq<char>, TagStats)>|
            {
                &&& is_top_selection(top, site_ratio_entries(sites), 10)
                &&& chatty == names_of(top)
            },
        0 <= p < sites.len(),
        0 <= q < sites.len(),
        sites[p].1.questions > 0,
        sites[q].1.questions > 0,
        sites[p].1.words * sites[q].1.questions > sites[q].1.words * sites[p].1.questions || (
        sites[p].1.words * sites[q].1.questions == sites[q].1.words * sites[p].1.questions
            && crate::text::seq_less(sites[p].0, sites[q].0)),
        0 <= j < chatty.len(),
        chatty[j] == sites[q].0,
    ensures
        exists|i: int| 0 <= i < j && chatty[i] == sites[p].0,
{
    let top = choose|top: Seq<(Seq<char>, TagStats)>|
        {
            &&& is_top_selection(top, site_ratio_entries(sites), 10)
            &&& chatty == names_of(top)
        };
    let all = site_ratio_entries(sites);
    assert(names_of(all) =~= names_of(sites));
    let rest = choose|rest: Seq<(Seq<char>, TagStats)>|
        {
            &&& top.to_multiset().add(rest.to_multiset()) == all.to_multiset()
            &&& forall|k: int, i: int|
                0 <= k < rest.len() && 0 <= i < top.len() ==> !crate::ranking::ranks_before(
                    rest[k],
                    top[i],
                )
        };
    assert(top.contains(top[j]));
    crate::processing_file::lemma_split_contains(top, rest, all, top[j]);
    let eq = all[q];
    let ep = all[p];
    assert(all.contains(eq));
    assert(all.contains(ep));
    assert(names_of(top)[j] == top[j].0);
    crate::processing_file::lemma_same_name_same_entry(all, top[j], eq);
    assert(crate::ranking::ranks_before(ep, top[j]));
    crate::processing_file::lemma_top_selection_keeps_order(top, all, 10, ep, j);
    let i = choose|i: int| 0 <= i < j && top[i] == ep;
    assert(chatty[i] == sites[p].0);
}

/// Completes the report: sums the tags of all sites into its tags and ranks
/// the ten sites and the ten tags with the highest words per question.
pub fn generate_final_report(report_final: Report) -> (report: Report)
    requires
        sites_fit(report_final.tags@, report_final.sites.entries()),
    ensures
        report.padron == report_final.padron,
        report.sites.entries() == report_final.sites.entries(),
        report.tags@ == tags_after_sites(report_final.tags@, report_final.sites.entries()),
        exists|top: Seq<(Seq<char>, TagStats)>|
            {
                &&& is_top_selection(top, site_ratio_entries(report.sites.entries()), 10)
                &&& strings_view(report.totals.chatty_sites@) == names_of(top)
            },
        exists|top: Seq<(Seq<char>, TagStats)>|
            {
                &&& is_top_selection(top, report.tags.entries(), 10)
                &&& strings_view(report.totals.chatty_tags@) == names_of(top)
            },
{
    let mut report = report_final;
    let ghost sites = report.sites.entries();
    let ghost m0 = report.tags@;
    let mut chatty_sites_global_aux: Vec<(String, TagStats)> = Vec::new();
    let mut i: usize = 0;
    proof {
        assert(sites.take(0) =~= Seq::<(Seq<char>, SiteStats)>::empty());
        assert(entries_view(chatty_sites_global_aux@) =~= site_ratio_entries(sites.take(0)));
    }
    while i < report.sites.len()
        invariant
            sites == report.sites.entries(),
            i <= sites.len(),
            sites_fit(m0, sites),
            report.tags@ == tags_after_sites(m0, sites.take(i as int)),
            entries_view(chatty_sites_global_aux@) == site_ratio_entries(sites.take(i as int)),
            report.padron == report_final.padron,
            m0 == report_final.tags@,
            sites == report_final.sites.entries(),
        decreases sites.len() - i,
    {
        let site = report.sites.value_at(i);
        let name = report.sites.name_at(i).clone();
        let ghost prev = chatty_sites_global_aux@;
        let entry = (name, TagStats { questions: site.questions, words: site.words });
        let ghost ev = crate::processing_file::entry_view(entry);
        chatty_sites_global_aux.push(entry);
        proof {
            assert(entries_view(chatty_sites_global_aux@) =~= entries_view(prev).push(ev));
            assert(site_ratio_entries(sites.take(i + 1)) =~= site_ratio_entries(sites.take(i as int)).push(
                (sites[i as int].0, TagStats { questions: sites[i as int].1.questions, words: sites[i as int].1.words }),
            ));
            lemma_sites_fit_prefix(m0, sites, i + 1);
            assert(sites.take(i + 1).drop_last() =~= sites.take(i as int));
            assert(sites.take(i + 1).last() == sites[i as int]);
            assert(sites[i as int].1 == *site);
            assert(entries_view(chatty_sites_global_aux@) =~= site_ratio_entries(
                sites.take(i + 1),
            ));
        }
        accumulate_tag_stats(site, &mut report.tags);
        i = i + 1;
    }
    proof {
        assert(sites.take(i as int) =~= sites);
    }
    sort_vec_and_set_top10(&mut chatty_sites_global_aux);
    report.totals.chatty_sites = entry_names(&chatty_sites_global_aux);
    let top_tags = get_top10_tags_from_hashmap(&report.tags);
    report.totals.chatty_tags = entry_names(&top_tags);
    proof {
        assert(is_top_selection(entries_view(chatty_sites_global_aux@), site_ratio_entries(sites), 10));
        assert(is_top_selection(entries_view(top_tags@), report.tags.entries(), 10));
    }
    report
}

/// Whether adding the tags `site` to `all` overflows no counter.
pub fn tags_plus_fits_exec(all: &KeyedTable<TagStats>, site: &KeyedTable<TagStats>) -> (fits: bool)
    ensures
        fits == tags_plus_fits(all@, site@),
{
    proof {
        use_type_invariant(site);
    }
    let mut i: usize = 0;
    while i < site.len()
        invariant
            i <= site.entries().len(),
            forall|j: int|
                0 <= j < i ==> {
                    &&& get_or(all@, (#[trigger] site.entries()[j]).0, zero_stats()).questions
                        + site.entries()[j].1.questions <= u32::MAX
                    &&& get_or(all@, site.entries()[j].0, zero_stats()).words
                        + site.entries()[j].1.words <= u32::MAX
                },
        decreases site.entries().len() - i,
    {
        let v = *site.value_at(i);
        let b = match all.get(site.name_at(i)) {
            Some(b) => *b,
            None => TagStats { questions: 0, words: 0 },
        };
        if b.questions as u64 + v.questions as u64 > u32::MAX as u64 || b.words as u64
            + v.words as u64 > u32::MAX as u64 {
            proof {
                use_type_invariant(site);
                crate::keyed_table::lemma_map_of_index(site.entries(), i as int);
            }
            return false;
        }
        i = i + 1;
    }
    proof {
        assert forall|k: Seq<char>| #[trigger] site@.contains_key(k) implies {
            &&& get_or(all@, k, zero_stats()).questions + site@[k].questions <= u32::MAX
            &&& get_or(all@, k, zero_stats()).words + site@[k].words <= u32::MAX
        } by {
            crate::keyed_table::lemma_map_of_dom(site.entries(), k);
            let j = choose|j: int| 0 <= j < site.names().len() && site.names()[j] == k;
            crate::keyed_table::lemma_map_of_index(site.entries(), j);
            assert(site.entries()[j].0 == k);
        }
    }
    true
}

/// Whether completing the report overflows no counter: whether adding the
/// tags of every site in turn to its tags does not.
pub fn report_tags_fit(report: &Report) -> (fits: bool)
    ensures
        fits == sites_fit(report.tags@, report.sites.entries()),
{
    let ghost sites = report.sites.entries();
    let ghost m0 = report.tags@;
    let mut scratch = report.tags.copy_table();
    let mut i: usize = 0;
    proof {
        assert(sites.take(0) =~= Seq::<(Seq<char>, SiteStats)>::empty());
    }
    while i < report.sites.len()
        invariant
            sites == report.sites.entries(),
            m0 == report.tags@,
            i <= sites.len(),
            scratch@ == tags_after_sites(m0, sites.take(i as int)),
            sites_fit(m0, sites.take(i as int)),
        decreases sites.len() - i,
    {
        let site = report.sites.value_at(i);
        proof {
            assert(sites.take(i + 1).drop_last() =~= sites.take(i as int));
            assert(sites.take(i + 1).last() == sites[i as int]);
        }
        if !tags_plus_fits_exec(&scratch, &site.tags) {
            proof {
                if sites_fit(m0, sites) {
                    lemma_sites_fit_prefix(m0, sites, i + 1);
                }
            }
            return false;
        }
        accumulate_tag_stats(site, &mut scratch);
        i = i + 1;
    }
    proof {
        assert(sites.take(i as int) =~= sites);
    }
    true
}

} // verus!
