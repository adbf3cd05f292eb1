//! The search engine: matches a query against a catalog snapshot and produces
//! a ranked, capped list of candidates.
//!
//! A candidate is included when the query occurs, ASCII-case-insensitively, in
//! the item's name or in one of its aliases. Candidates are ranked by a
//! deterministic score: match kind first (prefix, then contiguous substring,
//! then scattered subsequence), earlier match position next, then the item
//! identifier and finally the catalog index as tie-breaks, so identical inputs
//! always yield the identical order.

use vstd::prelude::*;

use crate::text::fold;
use crate::text::fold_bytes;
use crate::text::index_of_first;
use crate::text::is_subseq;
use crate::text::is_subseq_of;
use crate::text::find_first;
use crate::text::find_substring;
use crate::text::lemma_substr_search_spec;
use crate::text::lemma_substring_is_subseq;
use crate::text::substr_search;

verus! {

/// A launchable item as supplied by the catalog provider: a stable identifier,
/// a display name and optional alias keywords, as UTF-8 bytes.
#[derive(Clone, Debug)]
pub struct CatalogItem {
    pub id: u64,
    pub name: Vec<u8>,
    pub aliases: Vec<Vec<u8>>,
}

/// How the query was found in the matched string, best kind first.
#[derive(Clone, Copy, Debug, PartialEq, Eq, Structural)]
pub enum MatchQuality {
    Prefix,
    Substring,
    Subsequence,
}

/// A catalog item projected for display: its catalog index and identifier,
/// the kind of match and the byte position where the match starts.
#[derive(Clone, Copy, Debug, PartialEq, Eq, Structural)]
pub struct SearchOption {
    pub item_index: usize,
    pub item_id: u64,
    pub quality: MatchQuality,
    pub position: usize,
}

/// What an empty query returns: nothing, or the whole catalog ranked by the
/// identifier tie-break (a default list), still capped.
#[derive(Clone, Copy, Debug, PartialEq, Eq, Structural)]
pub enum EmptyQueryBehavior {
    ShowNothing,
    ShowDefaultList,
}

/// Search configuration: the maximum result count and the empty-query policy.
#[derive(Clone, Copy, Debug, PartialEq, Eq, Structural)]
pub struct SearchConfig {
    pub cap: usize,
    pub empty_query: EmptyQueryBehavior,
}

pub open spec fn quality_rank(q: MatchQuality) -> int {
    match q {
        MatchQuality::Prefix => 0,
        MatchQuality::Substring => 1,
        MatchQuality::Subsequence => 2,
    }
}

/// Best match of the query against one display string: the kind and the byte
/// position where the match starts, or `None`. Both strings are case-folded
/// first; an empty query is a prefix match at position zero.
pub open spec fn target_match(q: Seq<u8>, t: Seq<u8>) -> Option<(MatchQuality, nat)> {
    let fq = fold(q);
    let ft = fold(t);
    if fq.len() == 0 {
        Some((MatchQuality::Prefix, 0 as nat))
    } else {
        match substr_search(fq, ft) {
            Some(p) => Some(
                ((if p == 0 {
                    MatchQuality::Prefix
                } else {
                    MatchQuality::Substring
                }), p),
            ),
            None => {
                if is_subseq_of(fq, ft) {
                    match index_of_first(ft, fq[0]) {
                        Some(p) => Some((MatchQuality::Subsequence, p)),
                        None => None,
                    }
                } else {
                    None
                }
            },
        }
    }
}

/// Strictly better between two (kind, position) pairs: better kind, or same
/// kind and earlier position.
pub open spec fn tm_better(a: (MatchQuality, nat), b: (MatchQuality, nat)) -> bool {
    quality_rank(a.0) < quality_rank(b.0) || (quality_rank(a.0) == quality_rank(b.0) && a.1
        < b.1)
}

/// Keep the better of two optional matches; the first wins ties.
pub open spec fn tm_combine(
    best: Option<(MatchQuality, nat)>,
    next: Option<(MatchQuality, nat)>,
) -> Option<(MatchQuality, nat)> {
    match (best, next) {
        (Some(a), Some(b)) => if tm_better(b, a) {
            Some(b)
        } else {
            Some(a)
        },
        (Some(a), None) => Some(a),
        (None, nb) => nb,
    }
}

/// Best match over a list of aliases, earlier aliases winning ties.
pub open spec fn best_alias_match(q: Seq<u8>, aliases: Seq<Vec<u8>>) -> Option<
    (MatchQuality, nat),
>
    decreases aliases.len(),
{
    if aliases.len() == 0 {
        None
    } else {
        tm_combine(best_alias_match(q, aliases.drop_last()), target_match(q, aliases.last()@))
    }
}

/// Best match of the query against an item: its name first (winning ties),
/// then its aliases in order.
pub open spec fn item_match(q: Seq<u8>, item: CatalogItem) -> Option<(MatchQuality, nat)> {
    tm_combine(target_match(q, item.name@), best_alias_match(q, item.aliases@))
}

/// The query occurs, case-insensitively, as a subsequence of the item's name
/// or of one of its aliases.
pub open spec fn item_contains_query(q: Seq<u8>, item: CatalogItem) -> bool {
    is_subseq_of(fold(q), fold(item.name@)) || exists|a: int|
        0 <= a < item.aliases@.len() && is_subseq_of(fold(q), fold(item.aliases@[a]@))
}

/// A matched string holds the query as a case-insensitive subsequence.
proof fn lemma_target_match_subseq(q: Seq<u8>, t: Seq<u8>)
    requires
        q.len() > 0,
        target_match(q, t).is_some(),
    ensures
        is_subseq_of(fold(q), fold(t)),
{
    let fq = fold(q);
    let ft = fold(t);
    lemma_substr_search_spec(fq, ft);
    match substr_search(fq, ft) {
        Some(p) => {
            lemma_substring_is_subseq(fq, ft, p as int);
        },
        None => {},
    }
}

proof fn lemma_alias_match_witness(q: Seq<u8>, aliases: Seq<Vec<u8>>)
    requires
        best_alias_match(q, aliases).is_some(),
    ensures
        exists|a: int| 0 <= a < aliases.len() && target_match(q, aliases[a]@).is_some(),
    decreases aliases.len(),
{
    if target_match(q, aliases.last()@).is_some() {
        assert(aliases[aliases.len() - 1]@ == aliases.last()@);
    } else {
        lemma_alias_match_witness(q, aliases.drop_last());
        let a = choose|a: int|
            0 <= a < aliases.drop_last().len() && target_match(
                q,
                aliases.drop_last()[a]@,
            ).is_some();
        assert(aliases.drop_last()[a] == aliases[a]);
    }
}

/// An item with a match holds the query, case-insensitively, as a subsequence
/// of its name or one of its aliases.
pub proof fn lemma_item_match_contains(q: Seq<u8>, item: CatalogItem)
    requires
        q.len() > 0,
        item_match(q, item).is_some(),
    ensures
        item_contains_query(q, item),
{
    if target_match(q, item.name@).is_some() {
        lemma_target_match_subseq(q, item.name@);
    } else {
        lemma_alias_match_witness(q, item.aliases@);
        let a = choose|a: int|
            0 <= a < item.aliases@.len() && target_match(q, item.aliases@[a]@).is_some();
        lemma_target_match_subseq(q, item.aliases@[a]@);
    }
}

fn quality_rank_exec(q: MatchQuality) -> (r: u8)
    ensures
        r as int == quality_rank(q),
{
    match q {
        MatchQuality::Prefix => 0,
        MatchQuality::Substring => 1,
        MatchQuality::Subsequence => 2,
    }
}

fn tm_better_exec(a: (MatchQuality, usize), b: (MatchQuality, usize)) -> (r: bool)
    ensures
        r == tm_better((a.0, a.1 as nat), (b.0, b.1 as nat)),
{
    let ra = quality_rank_exec(a.0);
    let rb = quality_rank_exec(b.0);
    ra < rb || (ra == rb && a.1 < b.1)
}

/// Classify the match of the query in one display string.
pub fn match_target(q: &Vec<u8>, t: &Vec<u8>) -> (r: Option<(MatchQuality, usize)>)
    ensures
        match r {
            Some(m) => target_match(q@, t@) == Some((m.0, m.1 as nat)),
            None => target_match(q@, t@).is_none(),
        },
{
    let fq = fold_bytes(q);
    let ft = fold_bytes(t);
    if fq.len() == 0 {
        return Some((MatchQuality::Prefix, 0));
    }
    match find_substring(&fq, &ft) {
        Some(p) => {
            if p == 0 {
                Some((MatchQuality::Prefix, 0))
            } else {
                Some((MatchQuality::Substring, p))
            }
        },
        None => {
            if is_subseq(&fq, &ft) {
                match find_first(&ft, fq[0]) {
                    Some(p) => Some((MatchQuality::Subsequence, p)),
                    None => None,
                }
            } else {
                None
            }
        },
    }
}

proof fn lemma_tm_combine_assoc(
    a: Option<(MatchQuality, nat)>,
    b: Option<(MatchQuality, nat)>,
    c: Option<(MatchQuality, nat)>,
)
    ensures
        tm_combine(tm_combine(a, b), c) == tm_combine(a, tm_combine(b, c)),
{
}

/// Classify the best match of the query against an item.
pub fn match_item(q: &Vec<u8>, item: &CatalogItem) -> (r: Option<(MatchQuality, usize)>)
    ensures
        match r {
            Some(m) => item_match(q@, *item) == Some((m.0, m.1 as nat)),
            None => item_match(q@, *item).is_none(),
        },
{
    let mut best: Option<(MatchQuality, usize)> = match_target(q, &item.name);
    proof {
        assert(item.aliases@.take(0).len() == 0);
    }
    let mut i: usize = 0;
    while i < item.aliases.len()
        invariant
            i <= item.aliases@.len(),
            match best {
                Some(m) => tm_combine(
                    target_match(q@, item.name@),
                    best_alias_match(q@, item.aliases@.take(i as int)),
                ) == Some((m.0, m.1 as nat)),
                None => tm_combine(
                    target_match(q@, item.name@),
                    best_alias_match(q@, item.aliases@.take(i as int)),
                ).is_none(),
            },
        decreases item.aliases@.len() - i,
    {
        let next = match_target(q, &item.aliases[i]);
        let ghost prev_best = best_alias_match(q@, item.aliases@.take(i as int));
        let ghost next_spec = target_match(q@, item.aliases@[i as int]@);
        best = match (best, next) {
            (Some(a), Some(b)) => if tm_better_exec(b, a) {
                Some(b)
            } else {
                Some(a)
            },
            (Some(a), None) => Some(a),
            (None, nb) => nb,
        };
        proof {
            assert(item.aliases@.take(i as int + 1).drop_last() =~= item.aliases@.take(i as int));
            assert(item.aliases@.take(i as int + 1).last() == item.aliases@[i as int]);
            assert(best_alias_match(q@, item.aliases@.take(i as int + 1)) == tm_combine(
                prev_best,
                next_spec,
            ));
            lemma_tm_combine_assoc(target_match(q@, item.name@), prev_best, next_spec);
        }
        i = i + 1;
    }
    proof {
        assert(item.aliases@.take(item.aliases@.len() as int) =~= item.aliases@);
    }
    best
}

/// The ranking order: better match kind first, then earlier position, then
/// smaller item identifier, then smaller catalog index. A strict total order
/// on options with distinct catalog indices.
pub open spec fn rank_before(a: SearchOption, b: SearchOption) -> bool {
    ||| quality_rank(a.quality) < quality_rank(b.quality)
    ||| (quality_rank(a.quality) == quality_rank(b.quality) && (a.position < b.position || (
    a.position == b.position && (a.item_id < b.item_id || (a.item_id == b.item_id && a.item_index
        < b.item_index)))))
}

/// The presentation order is fully determined: `rank_before` is irreflexive,
/// asymmetric and transitive, and total on distinct catalog indices, so two
/// runs of the same query can never order equal-score items differently.
pub proof fn lemma_rank_total_order(a: SearchOption, b: SearchOption, c: SearchOption)
    ensures
        !rank_before(a, a),
        rank_before(a, b) ==> !rank_before(b, a),
        rank_before(a, b) && rank_before(b, c) ==> rank_before(a, c),
        a.item_index != b.item_index ==> (rank_before(a, b) || rank_before(b, a)),
{
}

/// The option faithfully describes a match of the query against the catalog:
/// its index is in range, it carries that item's identifier, and the item
/// matches the query with the kind the option shows.
pub open spec fn valid_option(q: Seq<u8>, cat: Seq<CatalogItem>, o: SearchOption) -> bool {
    &&& (o.item_index as int) < cat.len()
    &&& o.item_id == cat[o.item_index as int].id
    &&& match item_match(q, cat[o.item_index as int]) {
        Some(m) => m.0 == o.quality,
        None => false,
    }
}

/// Every listed option ranks no later than the ones after it.
pub open spec fn sorted_ranked(s: Seq<SearchOption>) -> bool {
    forall|i: int, j: int| 0 <= i < j < s.len() ==> !rank_before(s[j], s[i])
}

/// Insert an option into a ranked sequence, after every strictly better one.
pub open spec fn insert_ranked(s: Seq<SearchOption>, o: SearchOption) -> Seq<SearchOption>
    decreases s.len(),
{
    if s.len() == 0 {
        seq![o]
    } else if rank_before(s[0], o) {
        seq![s[0]] + insert_ranked(s.skip(1), o)
    } else {
        seq![o] + s
    }
}

/// Keep only the first `cap` entries.
pub open spec fn cap_at(s: Seq<SearchOption>, cap: int) -> Seq<SearchOption> {
    if s.len() <= cap {
        s
    } else {
        s.subrange(0, cap)
    }
}

/// The option that catalog entry `i` produces for the query; meaningful only
/// when the item matches.
pub open spec fn option_of(q: Seq<u8>, cat: Seq<CatalogItem>, i: int) -> SearchOption {
    let m = match item_match(q, cat[i]) {
        Some(m) => m,
        None => (MatchQuality::Prefix, 0 as nat),
    };
    SearchOption {
        item_index: i as usize,
        item_id: cat[i].id,
        quality: m.0,
        position: m.1 as usize,
    }
}

/// The ranked, capped options for the first `n` catalog entries.
pub open spec fn ranked_options(q: Seq<u8>, cat: Seq<CatalogItem>, cap: int, n: int) -> Seq<
    SearchOption,
>
    decreases n,
{
    if n <= 0 {
        Seq::empty()
    } else {
        let prev = ranked_options(q, cat, cap, n - 1);
        if item_match(q, cat[n - 1]).is_some() {
            cap_at(insert_ranked(prev, option_of(q, cat, n - 1)), cap)
        } else {
            prev
        }
    }
}

/// What `search` returns: nothing for an empty query under `ShowNothing`,
/// otherwise the ranked, capped options over the whole catalog. An empty query
/// under `ShowDefaultList` matches every item as a prefix at position zero, so
/// the default list is the catalog ordered by identifier, capped.
pub open spec fn spec_search(q: Seq<u8>, cat: Seq<CatalogItem>, cfg: SearchConfig) -> Seq<
    SearchOption,
> {
    if q.len() == 0 && cfg.empty_query == EmptyQueryBehavior::ShowNothing {
        Seq::empty()
    } else {
        ranked_options(q, cat, cfg.cap as int, cat.len() as int)
    }
}

/// The search engine is a pure function of the query and the catalog snapshot:
/// identical queries against the same snapshot give identical ranked results.
pub proof fn lemma_search_deterministic(
    q1: Seq<u8>,
    q2: Seq<u8>,
    cat: Seq<CatalogItem>,
    cfg: SearchConfig,
)
    requires
        q1 == q2,
    ensures
        spec_search(q1, cat, cfg) == spec_search(q2, cat, cfg),
{
}

proof fn lemma_insert_ranked_len(s: Seq<SearchOption>, o: SearchOption)
    ensures
        insert_ranked(s, o).len() == s.len() + 1,
    decreases s.len(),
{
    if s.len() > 0 && rank_before(s[0], o) {
        lemma_insert_ranked_len(s.skip(1), o);
    }
}

proof fn lemma_insert_ranked_members(s: Seq<SearchOption>, o: SearchOption)
    ensures
        forall|k: int|
            0 <= k < insert_ranked(s, o).len() ==> (insert_ranked(s, o)[k] == o || exists|m: int|
                0 <= m < s.len() && insert_ranked(s, o)[k] == s[m]),
    decreases s.len(),
{
    if s.len() == 0 {
    } else if rank_before(s[0], o) {
        lemma_insert_ranked_members(s.skip(1), o);
        let r = insert_ranked(s, o);
        let rr = insert_ranked(s.skip(1), o);
        assert forall|k: int| 0 <= k < r.len() implies (r[k] == o || exists|m: int|
            0 <= m < s.len() && r[k] == s[m]) by {
            if k == 0 {
                assert(r[0] == s[0]);
            } else {
                assert(r[k] == rr[k - 1]);
                if rr[k - 1] != o {
                    let m = choose|m: int| 0 <= m < s.skip(1).len() && rr[k - 1] == s.skip(1)[m];
                    assert(s.skip(1)[m] == s[m + 1]);
                }
            }
        }
    } else {
        assert forall|k: int| 0 <= k < insert_ranked(s, o).len() implies (insert_ranked(s, o)[k]
            == o || exists|m: int|
            0 <= m < s.len() && insert_ranked(s, o)[k] == s[m]) by {
            if k > 0 {
                assert(insert_ranked(s, o)[k] == s[k - 1]);
            }
        }
    }
}

proof fn lemma_insert_ranked_sorted(s: Seq<SearchOption>, o: SearchOption)
    requires
        sorted_ranked(s),
    ensures
        sorted_ranked(insert_ranked(s, o)),
    decreases s.len(),
{
    if s.len() == 0 {
    } else if rank_before(s[0], o) {
        assert forall|i: int, j: int| 0 <= i < j < s.skip(1).len() implies !rank_before(
            s.skip(1)[j],
            s.skip(1)[i],
        ) by {
            assert(s.skip(1)[j] == s[j + 1]);
            assert(s.skip(1)[i] == s[i + 1]);
        }
        lemma_insert_ranked_sorted(s.skip(1), o);
        lemma_insert_ranked_members(s.skip(1), o);
        let r = insert_ranked(s, o);
        let rr = insert_ranked(s.skip(1), o);
        assert forall|i: int, j: int| 0 <= i < j < r.len() implies !rank_before(r[j], r[i]) by {
            if i == 0 {
                assert(r[j] == rr[j - 1]);
                if rr[j - 1] == o {
                } else {
                    let m = choose|m: int|
                        0 <= m < s.skip(1).len() && rr[j - 1] == s.skip(1)[m];
                    assert(s.skip(1)[m] == s[m + 1]);
                }
            } else {
                assert(r[j] == rr[j - 1]);
                assert(r[i] == rr[i - 1]);
            }
        }
    } else {
        let r = insert_ranked(s, o);
        assert forall|i: int, j: int| 0 <= i < j < r.len() implies !rank_before(r[j], r[i]) by {
            if i == 0 {
                assert(r[j] == s[j - 1]);
                if rank_before(s[j - 1], o) {
                    if j - 1 > 0 {
                        assert(!rank_before(s[j - 1], s[0]));
                    }
                }
            } else {
                assert(r[j] == s[j - 1]);
                assert(r[i] == s[i - 1]);
            }
        }
    }
}

/// Inserting at the first index whose entry does not rank strictly before `o`
/// realises `insert_ranked`.
proof fn lemma_insert_ranked_at(s: Seq<SearchOption>, o: SearchOption, j: int)
    requires
        0 <= j <= s.len(),
        forall|k: int| 0 <= k < j ==> rank_before(s[k], o),
        j < s.len() ==> !rank_before(s[j], o),
    ensures
        insert_ranked(s, o) == s.subrange(0, j) + seq![o] + s.skip(j),
    decreases j,
{
    if j == 0 {
        assert(insert_ranked(s, o) =~= s.subrange(0, 0) + seq![o] + s.skip(0));
    } else {
        assert(rank_before(s[0], o));
        assert forall|k: int| 0 <= k < j - 1 implies rank_before(s.skip(1)[k], o) by {
            assert(s.skip(1)[k] == s[k + 1]);
        }
        if j - 1 < s.skip(1).len() {
            assert(s.skip(1)[j - 1] == s[j]);
        }
        lemma_insert_ranked_at(s.skip(1), o, j - 1);
        assert(insert_ranked(s, o) =~= s.subrange(0, j) + seq![o] + s.skip(j));
    }
}

/// Number of entries among the first `n` of the catalog that match the query.
pub open spec fn match_count(q: Seq<u8>, cat: Seq<CatalogItem>, n: int) -> int
    decreases n,
{
    if n <= 0 {
        0
    } else {
        match_count(q, cat, n - 1) + (if item_match(q, cat[n - 1]).is_some() {
            1int
        } else {
            0int
        })
    }
}

proof fn lemma_insert_ranked_keeps(s: Seq<SearchOption>, o: SearchOption)
    ensures
        forall|m: int|
            0 <= m < s.len() ==> exists|k: int|
                0 <= k < insert_ranked(s, o).len() && insert_ranked(s, o)[k] == #[trigger] s[m],
        exists|k: int| 0 <= k < insert_ranked(s, o).len() && insert_ranked(s, o)[k] == o,
    decreases s.len(),
{
    let r = insert_ranked(s, o);
    if s.len() == 0 {
        assert(r[0] == o);
    } else if rank_before(s[0], o) {
        lemma_insert_ranked_keeps(s.skip(1), o);
        let rr = insert_ranked(s.skip(1), o);
        assert forall|m: int| 0 <= m < s.len() implies exists|k: int|
            0 <= k < r.len() && r[k] == #[trigger] s[m] by {
            if m == 0 {
                assert(r[0] == s[0]);
            } else {
                assert(s.skip(1)[m - 1] == s[m]);
                let k = choose|k: int| 0 <= k < rr.len() && rr[k] == s.skip(1)[m - 1];
                assert(r[k + 1] == rr[k]);
            }
        }
        let ko = choose|k: int| 0 <= k < rr.len() && rr[k] == o;
        assert(r[ko + 1] == rr[ko]);
    } else {
        assert(r[0] == o);
        assert forall|m: int| 0 <= m < s.len() implies exists|k: int|
            0 <= k < r.len() && r[k] == #[trigger] s[m] by {
            assert(r[m + 1] == s[m]);
        }
    }
}

proof fn lemma_ranked_complete(q: Seq<u8>, cat: Seq<CatalogItem>, cap: int, n: int)
    requires
        0 <= n <= cat.len(),
        n <= usize::MAX,
        cap >= 0,
    ensures
        0 <= match_count(q, cat, n) <= n,
        ranked_options(q, cat, cap, n).len() == (if match_count(q, cat, n) <= cap {
            match_count(q, cat, n)
        } else {
            cap
        }),
        match_count(q, cat, n) <= cap ==> forall|i: int|
            0 <= i < n && item_match(q, cat[i]).is_some() ==> exists|k: int|
                0 <= k < ranked_options(q, cat, cap, n).len() && ranked_options(
                    q,
                    cat,
                    cap,
                    n,
                )[k].item_index as int == i,
    decreases n,
{
    if n > 0 {
        lemma_ranked_complete(q, cat, cap, n - 1);
        let prev = ranked_options(q, cat, cap, n - 1);
        let r = ranked_options(q, cat, cap, n);
        match item_match(q, cat[n - 1]) {
            Some(m) => {
                let o = option_of(q, cat, n - 1);
                lemma_insert_ranked_len(prev, o);
                lemma_insert_ranked_keeps(prev, o);
                let ins = insert_ranked(prev, o);
                if match_count(q, cat, n) <= cap {
                    assert(ins.len() <= cap);
                    assert(r == ins);
                    assert forall|i: int|
                        0 <= i < n && item_match(q, cat[i]).is_some() implies exists|k: int|
                        0 <= k < r.len() && r[k].item_index as int == i by {
                        if i == n - 1 {
                            let k = choose|k: int| 0 <= k < ins.len() && ins[k] == o;
                            assert(r[k].item_index as int == i);
                        } else {
                            let kp = choose|kp: int|
                                0 <= kp < prev.len() && prev[kp].item_index as int == i;
                            let k = choose|k: int| 0 <= k < ins.len() && ins[k] == prev[kp];
                            assert(r[k].item_index as int == i);
                        }
                    }
                }
            },
            None => {},
        }
    }
}

/// Inclusion: a candidate is listed whenever the query matches it and the cap
/// leaves room. The result's length is the number of matching items, bounded
/// by the cap, and when every match fits under the cap, every matching item
/// appears in the result.
pub proof fn lemma_search_complete(q: Seq<u8>, cat: Seq<CatalogItem>, cfg: SearchConfig)
    requires
        cat.len() <= usize::MAX,
        !(q.len() == 0 && cfg.empty_query == EmptyQueryBehavior::ShowNothing),
    ensures
        spec_search(q, cat, cfg).len() == (if match_count(q, cat, cat.len() as int)
            <= cfg.cap as int {
            match_count(q, cat, cat.len() as int)
        } else {
            cfg.cap as int
        }),
        match_count(q, cat, cat.len() as int) <= cfg.cap as int ==> forall|i: int|
            0 <= i < cat.len() && item_match(q, cat[i]).is_some() ==> exists|k: int|
                0 <= k < spec_search(q, cat, cfg).len() && spec_search(
                    q,
                    cat,
                    cfg,
                )[k].item_index as int == i,
{
    lemma_ranked_complete(q, cat, cfg.cap as int, cat.len() as int);
    let r = spec_search(q, cat, cfg);
    let ro = ranked_options(q, cat, cfg.cap as int, cat.len() as int);
    if match_count(q, cat, cat.len() as int) <= cfg.cap as int {
        assert forall|i: int| 0 <= i < cat.len() && item_match(q, cat[i]).is_some() implies exists|
            k: int,
        | 0 <= k < r.len() && r[k].item_index as int == i by {
            let k = choose|k: int| 0 <= k < ro.len() && ro[k].item_index as int == i;
            assert(r[k].item_index as int == i);
        }
    }
}

/// The index at which `insert_ranked` places `o`.
spec fn insert_pos(s: Seq<SearchOption>, o: SearchOption) -> int
    decreases s.len(),
{
    if s.len() == 0 {
        0
    } else if rank_before(s[0], o) {
        1 + insert_pos(s.skip(1), o)
    } else {
        0
    }
}

proof fn lemma_insert_pos(s: Seq<SearchOption>, o: SearchOption)
    ensures
        0 <= insert_pos(s, o) <= s.len(),
        forall|k: int| 0 <= k < insert_pos(s, o) ==> rank_before(s[k], o),
        insert_pos(s, o) < s.len() ==> !rank_before(s[insert_pos(s, o)], o),
    decreases s.len(),
{
    if s.len() > 0 && rank_before(s[0], o) {
        lemma_insert_pos(s.skip(1), o);
        let j = insert_pos(s, o);
        assert forall|k: int| 0 <= k < j implies rank_before(s[k], o) by {
            if k > 0 {
                assert(s.skip(1)[k - 1] == s[k]);
            }
        }
        if j < s.len() {
            assert(s.skip(1)[j - 1] == s[j]);
        }
    }
}

/// Strictly increasing by rank; distinct catalog indices make this possible.
spec fn strictly_ranked(s: Seq<SearchOption>) -> bool {
    forall|i: int, j: int| 0 <= i < j < s.len() ==> rank_before(s[i], s[j])
}

/// No entry of `s` shows catalog index `i`.
spec fn index_absent(s: Seq<SearchOption>, i: int) -> bool {
    forall|k: int| 0 <= k < s.len() ==> s[k].item_index as int != i
}

proof fn lemma_insert_shape(s: Seq<SearchOption>, o: SearchOption)
    requires
        strictly_ranked(s),
        forall|k: int| 0 <= k < s.len() ==> (#[trigger] s[k]).item_index != o.item_index,
    ensures
        insert_ranked(s, o).len() == s.len() + 1,
        0 <= insert_pos(s, o) <= s.len(),
        forall|k: int| 0 <= k < insert_pos(s, o) ==> #[trigger] insert_ranked(s, o)[k] == s[k],
        insert_ranked(s, o)[insert_pos(s, o)] == o,
        forall|k: int|
            insert_pos(s, o) < k < s.len() + 1 ==> #[trigger] insert_ranked(s, o)[k] == s[k - 1],
        strictly_ranked(insert_ranked(s, o)),
{
    let j = insert_pos(s, o);
    let ins = insert_ranked(s, o);
    lemma_insert_pos(s, o);
    lemma_insert_ranked_at(s, o, j);
    lemma_insert_ranked_len(s, o);
    assert(ins =~= s.subrange(0, j) + seq![o] + s.skip(j));
    // o ranks strictly before every entry at or after its slot
    assert forall|k: int| j <= k < s.len() implies rank_before(o, s[k]) by {
        lemma_rank_total_order(o, s[j], s[k]);
    }
    assert forall|a: int, b: int| 0 <= a < b < ins.len() implies rank_before(ins[a], ins[b]) by {
        if b < j {
        } else if b == j {
            assert(rank_before(s[a], o));
        } else if a == j {
            assert(rank_before(o, s[b - 1]));
        } else if a < j {
            assert(rank_before(s[a], s[b - 1]));
        }
    }
}

proof fn lemma_ranked_shape(q: Seq<u8>, cat: Seq<CatalogItem>, cap: int, n: int)
    requires
        0 <= n <= cat.len(),
        n <= usize::MAX,
        cap >= 0,
    ensures
        strictly_ranked(ranked_options(q, cat, cap, n)),
        forall|k: int|
            0 <= k < ranked_options(q, cat, cap, n).len() ==> {
                let e = #[trigger] ranked_options(q, cat, cap, n)[k];
                &&& e.item_index < n
                &&& item_match(q, cat[e.item_index as int]).is_some()
                &&& e == option_of(q, cat, e.item_index as int)
            },
    decreases n,
{
    if n > 0 {
        lemma_ranked_shape(q, cat, cap, n - 1);
        let prev = ranked_options(q, cat, cap, n - 1);
        let r = ranked_options(q, cat, cap, n);
        if item_match(q, cat[n - 1]).is_some() {
            let o = option_of(q, cat, n - 1);
            let ins = insert_ranked(prev, o);
            lemma_insert_shape(prev, o);
            assert forall|k: int| 0 <= k < r.len() implies #[trigger] r[k] == ins[k] by {}
        }
    }
}

/// One dropped candidate against one kept entry; recursion supplies the
/// induction over catalog prefixes.
proof fn lemma_absent_one(q: Seq<u8>, cat: Seq<CatalogItem>, cap: int, n: int, i: int, k: int)
    requires
        0 <= n <= cat.len(),
        n <= usize::MAX,
        cap >= 0,
        0 <= i < n,
        item_match(q, cat[i]).is_some(),
        index_absent(ranked_options(q, cat, cap, n), i),
        0 <= k < ranked_options(q, cat, cap, n).len(),
    ensures
        rank_before(ranked_options(q, cat, cap, n)[k], option_of(q, cat, i)),
    decreases n,
{
    let prev = ranked_options(q, cat, cap, n - 1);
    let r = ranked_options(q, cat, cap, n);
    let oi = option_of(q, cat, i);
    lemma_ranked_shape(q, cat, cap, n - 1);
    if item_match(q, cat[n - 1]).is_some() {
        let o = option_of(q, cat, n - 1);
        let ins = insert_ranked(prev, o);
        let j = insert_pos(prev, o);
        lemma_insert_shape(prev, o);
        assert(r[k] == ins[k]);
        if i == n - 1 {
            // the new option itself was dropped; everything kept precedes its
            // slot, hence ranks strictly before it
            if j < r.len() {
                assert(r[j] == ins[j] && ins[j] == o);
                assert(r[j].item_index as int == i);
                assert(false);
            }
            assert(ins[k] == prev[k]);
            lemma_insert_pos(prev, o);
        } else if index_absent(prev, i) {
            // dropped at an earlier step: everything then kept ranks before
            // it, and o ranks before the entry at its own slot
            lemma_ranked_complete(q, cat, cap, n - 1);
            assert(prev.len() == cap);
            if k < j {
                assert(ins[k] == prev[k]);
                lemma_absent_one(q, cat, cap, n - 1, i, k);
            } else if k == j {
                assert(j < prev.len());
                lemma_insert_pos(prev, o);
                assert(rank_before(o, prev[j])) by {
                    lemma_rank_total_order(o, prev[j], prev[j]);
                }
                lemma_absent_one(q, cat, cap, n - 1, i, j);
                lemma_rank_total_order(o, prev[j], oi);
            } else {
                assert(ins[k] == prev[k - 1]);
                lemma_absent_one(q, cat, cap, n - 1, i, k - 1);
            }
        } else {
            // present at the previous step, pushed out by this insertion
            let kp = choose|kp: int|
                0 <= kp < prev.len() && #[trigger] prev[kp].item_index as int == i;
            assert(prev[kp] == oi);
            let pos = if kp < j {
                kp
            } else {
                kp + 1
            };
            assert(ins[pos] == oi);
            if pos < r.len() {
                assert(r[pos] == ins[pos]);
                assert(r[pos].item_index as int == i);
                assert(false);
            }
            assert(rank_before(ins[k], ins[pos]));
        }
    } else {
        lemma_absent_one(q, cat, cap, n - 1, i, k);
    }
}

proof fn lemma_ranked_absent(q: Seq<u8>, cat: Seq<CatalogItem>, cap: int, n: int)
    requires
        0 <= n <= cat.len(),
        n <= usize::MAX,
        cap >= 0,
    ensures
        forall|i: int, k: int|
            0 <= i < n && (#[trigger] item_match(q, cat[i])).is_some() && index_absent(
                ranked_options(q, cat, cap, n),
                i,
            ) && 0 <= k < ranked_options(q, cat, cap, n).len() ==> rank_before(
                #[trigger] ranked_options(q, cat, cap, n)[k],
                option_of(q, cat, i),
            ),
{
    assert forall|i: int, k: int|
        0 <= i < n && (#[trigger] item_match(q, cat[i])).is_some() && index_absent(
            ranked_options(q, cat, cap, n),
            i,
        ) && 0 <= k < ranked_options(q, cat, cap, n).len() implies rank_before(
        #[trigger] ranked_options(q, cat, cap, n)[k],
        option_of(q, cat, i),
    ) by {
        lemma_absent_one(q, cat, cap, n, i, k);
    }
}

/// The cap keeps the best candidates: a matching item that is missing from the
/// result ranks strictly after every candidate the result lists.
pub proof fn lemma_search_keeps_best(q: Seq<u8>, cat: Seq<CatalogItem>, cfg: SearchConfig)
    requires
        cat.len() <= usize::MAX,
        !(q.len() == 0 && cfg.empty_query == EmptyQueryBehavior::ShowNothing),
    ensures
        forall|i: int, k: int|
            (0 <= i < cat.len() && (#[trigger] item_match(q, cat[i])).is_some() && (forall|
                k2: int,
            |
                0 <= k2 < spec_search(q, cat, cfg).len() ==> (#[trigger] spec_search(
                    q,
                    cat,
                    cfg,
                )[k2]).item_index as int != i) && 0 <= k < spec_search(q, cat, cfg).len())
                ==> rank_before(#[trigger] spec_search(q, cat, cfg)[k], option_of(q, cat, i)),
{
    lemma_ranked_absent(q, cat, cfg.cap as int, cat.len() as int);
    let r = spec_search(q, cat, cfg);
    let ro = ranked_options(q, cat, cfg.cap as int, cat.len() as int);
    assert forall|i: int, k: int|
        (0 <= i < cat.len() && (#[trigger] item_match(q, cat[i])).is_some() && (forall|k2: int|
            0 <= k2 < r.len() ==> (#[trigger] r[k2]).item_index as int != i) && 0 <= k
            < r.len()) implies rank_before(#[trigger] r[k], option_of(q, cat, i)) by {
        assert(index_absent(ro, i));
    }
}

proof fn lemma_ranked_props(q: Seq<u8>, cat: Seq<CatalogItem>, cap: int, n: int)
    requires
        0 <= n <= cat.len(),
        n <= usize::MAX,
        cap >= 0,
    ensures
        ranked_options(q, cat, cap, n).len() <= cap,
        sorted_ranked(ranked_options(q, cat, cap, n)),
        forall|k: int|
            0 <= k < ranked_options(q, cat, cap, n).len() ==> valid_option(
                q,
                cat,
                ranked_options(q, cat, cap, n)[k],
            ),
    decreases n,
{
    if n > 0 {
        lemma_ranked_props(q, cat, cap, n - 1);
        let prev = ranked_options(q, cat, cap, n - 1);
        match item_match(q, cat[n - 1]) {
            Some(m) => {
                let o = option_of(q, cat, n - 1);
                assert(valid_option(q, cat, o));
                lemma_insert_ranked_len(prev, o);
                lemma_insert_ranked_sorted(prev, o);
                lemma_insert_ranked_members(prev, o);
                let ins = insert_ranked(prev, o);
                let r = cap_at(ins, cap);
                assert forall|i: int, j: int| 0 <= i < j < r.len() implies !rank_before(
                    r[j],
                    r[i],
                ) by {
                    assert(r[i] == ins[i]);
                    assert(r[j] == ins[j]);
                }
                assert forall|k: int| 0 <= k < r.len() implies valid_option(q, cat, r[k]) by {
                    assert(r[k] == ins[k]);
                    if ins[k] != o {
                        let mm = choose|mm: int| 0 <= mm < prev.len() && ins[k] == prev[mm];
                    }
                }
            },
            None => {},
        }
    }
}

fn rank_before_exec(a: &SearchOption, b: &SearchOption) -> (r: bool)
    ensures
        r == rank_before(*a, *b),
{
    let ra = quality_rank_exec(a.quality);
    let rb = quality_rank_exec(b.quality);
    ra < rb || (ra == rb && (a.position < b.position || (a.position == b.position && (a.item_id
        < b.item_id || (a.item_id == b.item_id && a.item_index < b.item_index)))))
}

fn find_insert_pos(v: &Vec<SearchOption>, o: &SearchOption) -> (j: usize)
    ensures
        j <= v@.len(),
        forall|k: int| 0 <= k < j ==> rank_before(v@[k], *o),
        j < v@.len() ==> !rank_before(v@[j as int], *o),
{
    let mut j: usize = 0;
    while j < v.len()
        invariant
            j <= v@.len(),
            forall|k: int| 0 <= k < j ==> rank_before(v@[k], *o),
        decreases v@.len() - j,
    {
        if !rank_before_exec(&v[j], o) {
            return j;
        }
        j = j + 1;
    }
    j
}

fn insert_capped(v: &mut Vec<SearchOption>, o: SearchOption, cap: usize)
    ensures
        final(v)@ == cap_at(insert_ranked(old(v)@, o), cap as int),
{
    let ghost s = v@;
    let j = find_insert_pos(v, &o);
    proof {
        lemma_insert_ranked_at(s, o, j as int);
    }
    v.insert(j, o);
    proof {
        assert(v@ =~= s.subrange(0, j as int) + seq![o] + s.skip(j as int));
    }
    if v.len() > cap {
        v.truncate(cap);
    }
}

/// Rank the catalog snapshot against the query: every candidate the query
/// matches, ordered by `rank_before` and capped at `config.cap`; the exact
/// result is `spec_search`. For a non-empty query, each returned option's item
/// holds the query case-insensitively in its name or an alias.
pub fn search(query: &Vec<u8>, catalog: &Vec<CatalogItem>, config: &SearchConfig) -> (r: Vec<
    SearchOption,
>)
    ensures
        r@ == spec_search(query@, catalog@, *config),
        r@.len() <= config.cap,
        sorted_ranked(r@),
        forall|k: int| 0 <= k < r@.len() ==> valid_option(query@, catalog@, r@[k]),
        query@.len() > 0 ==> (forall|k: int|
            0 <= k < r@.len() ==> item_contains_query(
                query@,
                catalog@[r@[k].item_index as int],
            )),
{
    if query.len() == 0 && config.empty_query == EmptyQueryBehavior::ShowNothing {
        let r: Vec<SearchOption> = Vec::new();
        return r;
    }
    let mut result: Vec<SearchOption> = Vec::new();
    let mut i: usize = 0;
    while i < catalog.len()
        invariant
            i <= catalog@.len(),
            result@ == ranked_options(query@, catalog@, config.cap as int, i as int),
        decreases catalog@.len() - i,
    {
        match match_item(query, &catalog[i]) {
            Some(m) => {
                let o = SearchOption {
                    item_index: i,
                    item_id: catalog[i].id,
                    quality: m.0,
                    position: m.1,
                };
                insert_capped(&mut result, o, config.cap);
            },
            None => {},
        }
        i = i + 1;
    }
    proof {
        lemma_ranked_props(query@, catalog@, config.cap as int, catalog@.len() as int);
        if query@.len() > 0 {
            assert forall|k: int| 0 <= k < result@.len() implies item_contains_query(
                query@,
                catalog@[result@[k].item_index as int],
            ) by {
                lemma_item_match_contains(query@, catalog@[result@[k].item_index as int]);
            }
        }
    }
    result
}

} // verus!
