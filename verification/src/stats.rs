//! The statistics of the question sites: per tag, per site, and the report.
use vstd::prelude::*;
use crate::keyed_table::{first_named, names_of, KeyedTable};
use vstd::std_specs::cmp::PartialEqSpecImpl;

verus! {

/// The number of words and of questions that carry a tag.
#[derive(Clone, Copy, Debug, PartialEq, Eq, Structural)]
pub struct TagStats {
    /// The number of questions.
    pub questions: u32,
    /// The number of words in those questions.
    pub words: u32,
}

/// The statistics of one site.
#[derive(Debug)]
pub struct SiteStats {
    /// The number of questions of the site.
    pub questions: u32,
    /// The number of words of the site.
    pub words: u32,
    /// The statistics of each tag on the site.
    pub tags: KeyedTable<TagStats>,
    /// The names of the (at most ten) tags with the highest words/question
    /// ratio, highest first.
    pub chatty_tags: Vec<String>,
}

/// The first entry of `s` named as `e` has the value of `e`.
pub open spec fn holds_entry(s: Seq<(Seq<char>, TagStats)>, e: (Seq<char>, TagStats)) -> bool {
    exists|m: int| first_named(s, e.0, m) && s[m].1 == e.1
}

/// Two site statistics are equal when their counters are, they have as many
/// tags, each tag of the first is found in the second with the same counts
/// (in any order), and their chatty tags are the same in the same order.
pub open spec fn same_site_stats(a: SiteStats, b: SiteStats) -> bool {
    &&& a.questions == b.questions
    &&& a.words == b.words
    &&& a.tags.entries().len() == b.tags.entries().len()
    &&& forall|j: int|
        0 <= j < a.tags.entries().len() ==> holds_entry(b.tags.entries(), #[trigger] a.tags.entries()[j])
    &&& a.chatty_tags@.map_values(|t: String| t@) == b.chatty_tags@.map_values(|t: String| t@)
}

impl PartialEq for SiteStats {
    #[verifier::loop_isolation(false)]
    fn eq(&self, other: &Self) -> (same: bool) {
        if self.questions != other.questions || self.words != other.words || self.tags.len()
            != other.tags.len() || self.chatty_tags.len() != other.chatty_tags.len() {
            return false;
        }
        let mut i: usize = 0;
        while i < self.tags.len()
            invariant
                i <= self.tags.entries().len(),
                forall|j: int|
                    0 <= j < i ==> holds_entry(other.tags.entries(), #[trigger] self.tags.entries()[j]),
            decreases self.tags.entries().len() - i,
        {
            match other.tags.position(self.tags.name_at(i)) {
                Some(m) => {
                    if *other.tags.value_at(m) != *self.tags.value_at(i) {
                        proof {
                            let k = self.tags.entries()[i as int].0;
                            assert forall|x: int| first_named(other.tags.entries(), k, x) implies x
                                == m by {
                                if x < m {
                                    assert(other.tags.entries()[x].0 != k);
                                } else if x > m {
                                    assert(other.tags.entries()[m as int].0 != k);
                                }
                            }
                        }
                        return false;
                    }
                    proof {
                        assert(first_named(
                            other.tags.entries(),
                            self.tags.entries()[i as int].0,
                            m as int,
                        ));
                        assert(other.tags.entries()[m as int].1 == self.tags.entries()[i as int].1);
                        assert(holds_entry(other.tags.entries(), self.tags.entries()[i as int]));
                    }
                },
                None => {
                    proof {
                        let k = self.tags.entries()[i as int].0;
                        if exists|m: int| first_named(other.tags.entries(), k, m) {
                            let m = choose|m: int| first_named(other.tags.entries(), k, m);
                            assert(names_of(other.tags.entries())[m] == k);
                        }
                    }
                    return false;
                },
            }
            i = i + 1;
        }
        let mut j: usize = 0;
        while j < self.chatty_tags.len()
            invariant
                j <= self.chatty_tags.len(),
                self.chatty_tags.len() == other.chatty_tags.len(),
                forall|t: int| 0 <= t < j ==> self.chatty_tags@[t]@ == other.chatty_tags@[t]@,
            decreases self.chatty_tags.len() - j,
        {
            if self.chatty_tags[j] != other.chatty_tags[j] {
                proof {
                    assert(self.chatty_tags@.map_values(|t: String| t@)[j as int]
                        != other.chatty_tags@.map_values(|t: String| t@)[j as int]);
                }
                return false;
            }
            j = j + 1;
        }
        assert(self.chatty_tags@.map_values(|t: String| t@) =~= other.chatty_tags@.map_values(
            |t: String| t@,
        ));
        true
    }
}

impl PartialEqSpecImpl for SiteStats {
    open spec fn obeys_eq_spec() -> bool {
        true
    }

    open spec fn eq_spec(&self, other: &Self) -> bool {
        same_site_stats(*self, *other)
    }
}

/// The rankings over all sites.
#[derive(Debug)]
pub struct TotalStats {
    /// The (at most ten) sites with the highest words/question ratio.
    pub chatty_sites: Vec<String>,
    /// The (at most ten) tags with the highest words/question ratio over all
    /// sites.
    pub chatty_tags: Vec<String>,
}

/// The final report.
#[derive(Debug)]
pub struct Report {
    /// The student's registration number.
    pub padron: i32,
    /// The statistics of each site.
    pub sites: KeyedTable<SiteStats>,
    /// The statistics of each tag, summed over all sites.
    pub tags: KeyedTable<TagStats>,
    /// The rankings of sites and tags.
    pub totals: TotalStats,
}

/// One line of a JSON-lines dump: the texts of a question and its tags.
#[derive(Debug)]
pub struct DataInputJsonl {
    /// The texts of the question and its answers.
    pub texts: Vec<String>,
    /// The tags of the question.
    pub tags: Vec<String>,
}

/// The registration number that every report carries.
pub const PADRON: i32 = 102256;

/// A report with no sites, no tags and empty rankings.
pub fn get_report_base() -> (r: Report)
    ensures
        r.padron == PADRON,
        r.sites.entries().len() == 0,
        r.tags.entries().len() == 0,
        r.totals.chatty_sites@.len() == 0,
        r.totals.chatty_tags@.len() == 0,
{
    Report {
        padron: PADRON,
        sites: KeyedTable::new(),
        tags: KeyedTable::new(),
        totals: TotalStats { chatty_sites: Vec::new(), chatty_tags: Vec::new() },
    }
}

} // verus!
