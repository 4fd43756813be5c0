//! Fingerprints of web applications and matching them against responses.

use vstd::prelude::*;
use vstd::std_specs::iter::IteratorSpec;
use crate::order::{
    lemma_sorted_set_exists, lemma_sorted_set_same_elements, sort_dedup, sorted_set, strictly_sorted,
};
use crate::response::ResponseInfo;
use crate::text::{contains_sub, occurs_at, str_contains, views};

verus! {

/// How a fingerprint is recognised.
#[derive(PartialEq, Eq, Structural, Clone, Copy, Debug)]
pub enum MatchMethod {
    /// All keywords occur in the chosen part of the response.
    Keyword,
    /// The favicon hash equals every keyword.
    Faviconhash,
}

/// Which part of the response a keyword fingerprint looks at.
#[derive(PartialEq, Eq, Structural, Clone, Copy, Debug)]
pub enum MatchLocation {
    /// The header text.
    Header,
    /// The body text.
    Body,
}

/// One fingerprint: an application name and what identifies it.
pub struct Fingerprint {
    /// The application name reported on a match.
    pub cms: String,
    /// How to match.
    pub method: MatchMethod,
    /// Where to look (keyword fingerprints only).
    pub location: MatchLocation,
    /// The keywords.
    pub keyword: Vec<String>,
}

/// A fingerprint reduced to what matching needs.
struct CompiledFingerprint {
    cms: String,
    keywords: Vec<String>,
}

/// Fingerprints sorted by what they look at.
pub struct FingerprintMatcher {
    favicon_rules: Vec<CompiledFingerprint>,
    header_rules: Vec<CompiledFingerprint>,
    body_rules: Vec<CompiledFingerprint>,
}

/// The three groups of rules a fingerprint can fall in.
#[derive(PartialEq, Eq, Structural, Clone, Copy, Debug)]
pub enum RuleGroup {
    Favicon,
    Header,
    Body,
}

/// A rule by its views: the application name and the keywords.
pub type RuleView = (Seq<char>, Seq<Seq<char>>);

/// The group a fingerprint belongs to: every favicon-hash fingerprint goes with the
/// favicon rules whatever its location; keyword fingerprints go by their location.
pub open spec fn group_of(fp: Fingerprint) -> RuleGroup {
    match fp.method {
        MatchMethod::Faviconhash => RuleGroup::Favicon,
        MatchMethod::Keyword => match fp.location {
            MatchLocation::Header => RuleGroup::Header,
            MatchLocation::Body => RuleGroup::Body,
        },
    }
}

/// The rules of group `g` taken from `fps`, in order.
pub open spec fn rules_in(fps: Seq<Fingerprint>, g: RuleGroup) -> Seq<RuleView>
    decreases fps.len(),
{
    if fps.len() == 0 {
        Seq::empty()
    } else {
        rules_in(fps.drop_last(), g) + if group_of(fps.last()) == g {
            seq![(fps.last().cms@, views(fps.last().keyword@))]
        } else {
            Seq::empty()
        }
    }
}

/// Every keyword of a favicon rule equals the hash.
pub open spec fn all_equal(keywords: Seq<Seq<char>>, hash: Seq<char>) -> bool {
    forall|i: int| 0 <= i < keywords.len() ==> keywords[i] == hash
}

/// Every keyword of a keyword rule occurs in the target text.
pub open spec fn all_contained(keywords: Seq<Seq<char>>, target: Seq<char>) -> bool {
    forall|i: int| 0 <= i < keywords.len() ==> #[trigger] contains_sub(target, keywords[i])
}

/// The names of the favicon rules whose keywords all equal `hash`, in order.
pub open spec fn favicon_matches(rules: Seq<RuleView>, hash: Seq<char>) -> Seq<Seq<char>>
    decreases rules.len(),
{
    if rules.len() == 0 {
        Seq::empty()
    } else {
        favicon_matches(rules.drop_last(), hash) + if all_equal(rules.last().1, hash) {
            seq![rules.last().0]
        } else {
            Seq::empty()
        }
    }
}

/// The names of the keyword rules whose keywords all occur in `target`, in order.
pub open spec fn keyword_matches(rules: Seq<RuleView>, target: Seq<char>) -> Seq<Seq<char>>
    decreases rules.len(),
{
    if rules.len() == 0 {
        Seq::empty()
    } else {
        keyword_matches(rules.drop_last(), target) + if all_contained(rules.last().1, target) {
            seq![rules.last().0]
        } else {
            Seq::empty()
        }
    }
}

/// A compiled rule by its views.
spec fn rule_view(c: CompiledFingerprint) -> RuleView {
    (c.cms@, views(c.keywords@))
}

/// Compiled rules by their views.
spec fn rule_views(v: Seq<CompiledFingerprint>) -> Seq<RuleView> {
    v.map_values(|c: CompiledFingerprint| rule_view(c))
}

/// Every fingerprint lands in exactly one group: the three groups together hold as
/// many rules as there are fingerprints.
pub proof fn lemma_rules_partition(fps: Seq<Fingerprint>)
    ensures
        rules_in(fps, RuleGroup::Favicon).len() + rules_in(fps, RuleGroup::Header).len()
            + rules_in(fps, RuleGroup::Body).len() == fps.len(),
    decreases fps.len(),
{
    if fps.len() > 0 {
        lemma_rules_partition(fps.drop_last());
    }
}

/// A fingerprint recognises a response: a favicon-hash fingerprint when the response
/// has a hash equal to all its keywords; a keyword fingerprint when all its keywords
/// occur in the part of the response it looks at.
pub open spec fn fp_hits(fp: Fingerprint, resp: ResponseInfo) -> bool {
    let kw = views(fp.keyword@);
    match group_of(fp) {
        RuleGroup::Favicon => match resp.favicon_hash {
            Some(h) => all_equal(kw, h@),
            None => false,
        },
        RuleGroup::Header => all_contained(kw, resp.headers@),
        RuleGroup::Body => all_contained(kw, resp.body@),
    }
}

/// The names a matcher built from `fps` finds in `resp`, before sorting: favicon
/// matches (when a hash is known), then header matches, then body matches.
pub open spec fn fingerprint_matches(fps: Seq<Fingerprint>, resp: ResponseInfo) -> Seq<Seq<char>> {
    let fav = match resp.favicon_hash {
        Some(h) => favicon_matches(rules_in(fps, RuleGroup::Favicon), h@),
        None => Seq::empty(),
    };
    fav + keyword_matches(rules_in(fps, RuleGroup::Header), resp.headers@) + keyword_matches(
        rules_in(fps, RuleGroup::Body),
        resp.body@,
    )
}

/// The names of the rules whose keywords satisfy `hit`, in order: `favicon_matches`
/// and `keyword_matches` are both of this form.
spec fn names_where(rules: Seq<RuleView>, hit: spec_fn(Seq<Seq<char>>) -> bool) -> Seq<Seq<char>>
    decreases rules.len(),
{
    if rules.len() == 0 {
        Seq::empty()
    } else {
        names_where(rules.drop_last(), hit) + if hit(rules.last().1) {
            seq![rules.last().0]
        } else {
            Seq::empty()
        }
    }
}

/// `favicon_matches` and `keyword_matches` as `names_where`.
proof fn lemma_matches_are_names_where(rules: Seq<RuleView>, h: Seq<char>, t: Seq<char>)
    ensures
        favicon_matches(rules, h) == names_where(rules, |kw: Seq<Seq<char>>| all_equal(kw, h)),
        keyword_matches(rules, t) == names_where(rules, |kw: Seq<Seq<char>>| all_contained(kw, t)),
    decreases rules.len(),
{
    if rules.len() > 0 {
        lemma_matches_are_names_where(rules.drop_last(), h, t);
    }
}

/// A name is among the matches of group `g` exactly when some fingerprint of that
/// group has it and its keywords satisfy `hit`.
proof fn lemma_names_where_of(
    fps: Seq<Fingerprint>,
    g: RuleGroup,
    hit: spec_fn(Seq<Seq<char>>) -> bool,
    n: Seq<char>,
)
    ensures
        names_where(rules_in(fps, g), hit).contains(n) <==> exists|i: int|
            0 <= i < fps.len() && group_of(#[trigger] fps[i]) == g && hit(views(fps[i].keyword@))
                && fps[i].cms@ == n,
    decreases fps.len(),
{
    if fps.len() == 0 {
        assert(names_where(rules_in(fps, g), hit) =~= Seq::<Seq<char>>::empty());
    } else {
        let p = fps.drop_last();
        let last = fps.last();
        lemma_names_where_of(p, g, hit, n);
        let a = names_where(rules_in(p, g), hit);
        let rv = (last.cms@, views(last.keyword@));
        let ok = group_of(last) == g && hit(rv.1);
        let k = names_where(rules_in(fps, g), hit);
        if group_of(last) == g {
            assert(rules_in(fps, g).drop_last() =~= rules_in(p, g));
            assert(rules_in(fps, g).last() == rv);
        } else {
            assert(rules_in(fps, g) =~= rules_in(p, g));
        }
        assert(k =~= a + if ok { seq![rv.0] } else { Seq::empty() });
        if k.contains(n) {
            let j = choose|j: int| 0 <= j < k.len() && k[j] == n;
            if j < a.len() {
                assert(a[j] == n);
                let i = choose|i: int|
                    0 <= i < p.len() && group_of(#[trigger] p[i]) == g && hit(
                        views(p[i].keyword@),
                    ) && p[i].cms@ == n;
                assert(fps[i] == p[i]);
            } else {
                assert(fps[fps.len() - 1] == last);
            }
        }
        if exists|i: int|
            0 <= i < fps.len() && group_of(#[trigger] fps[i]) == g && hit(views(fps[i].keyword@))
                && fps[i].cms@ == n {
            let i = choose|i: int|
                0 <= i < fps.len() && group_of(#[trigger] fps[i]) == g && hit(
                    views(fps[i].keyword@),
                ) && fps[i].cms@ == n;
            if i < p.len() {
                assert(p[i] == fps[i]);
                let j = choose|j: int| 0 <= j < a.len() && a[j] == n;
                assert(k[j] == n);
            } else {
                assert(fps[i] == last);
                assert(k[a.len() as int] == n);
            }
        }
    }
}

/// A name is found in a response exactly when some fingerprint with that name
/// recognises the response.
pub proof fn lemma_fingerprint_matches_contain(fps: Seq<Fingerprint>, resp: ResponseInfo, n: Seq<char>)
    ensures
        fingerprint_matches(fps, resp).contains(n) <==> exists|i: int|
            0 <= i < fps.len() && fp_hits(#[trigger] fps[i], resp) && fps[i].cms@ == n,
{
    let fav = match resp.favicon_hash {
        Some(h) => favicon_matches(rules_in(fps, RuleGroup::Favicon), h@),
        None => Seq::empty(),
    };
    let hd = keyword_matches(rules_in(fps, RuleGroup::Header), resp.headers@);
    let bd = keyword_matches(rules_in(fps, RuleGroup::Body), resp.body@);
    let all = fingerprint_matches(fps, resp);
    assert(all == fav + hd + bd);
    let in_headers = |kw: Seq<Seq<char>>| all_contained(kw, resp.headers@);
    let in_body = |kw: Seq<Seq<char>>| all_contained(kw, resp.body@);
    lemma_matches_are_names_where(rules_in(fps, RuleGroup::Header), Seq::empty(), resp.headers@);
    lemma_matches_are_names_where(rules_in(fps, RuleGroup::Body), Seq::empty(), resp.body@);
    lemma_names_where_of(fps, RuleGroup::Header, in_headers, n);
    lemma_names_where_of(fps, RuleGroup::Body, in_body, n);
    if let Some(h) = resp.favicon_hash {
        let same = |kw: Seq<Seq<char>>| all_equal(kw, h@);
        lemma_matches_are_names_where(rules_in(fps, RuleGroup::Favicon), h@, Seq::empty());
        lemma_names_where_of(fps, RuleGroup::Favicon, same, n);
    }
    if all.contains(n) {
        let j = choose|j: int| 0 <= j < all.len() && all[j] == n;
        if j < fav.len() {
            assert(fav[j] == n);
            let h = resp.favicon_hash.unwrap();
            let i = choose|i: int|
                0 <= i < fps.len() && group_of(#[trigger] fps[i]) == RuleGroup::Favicon
                    && all_equal(views(fps[i].keyword@), h@) && fps[i].cms@ == n;
            assert(fp_hits(fps[i], resp));
        } else if j < fav.len() + hd.len() {
            assert(hd[j - fav.len()] == n);
            let i = choose|i: int|
                0 <= i < fps.len() && group_of(#[trigger] fps[i]) == RuleGroup::Header
                    && all_contained(views(fps[i].keyword@), resp.headers@) && fps[i].cms@ == n;
            assert(fp_hits(fps[i], resp));
        } else {
            assert(bd[j - fav.len() - hd.len()] == n);
            let i = choose|i: int|
                0 <= i < fps.len() && group_of(#[trigger] fps[i]) == RuleGroup::Body
                    && all_contained(views(fps[i].keyword@), resp.body@) && fps[i].cms@ == n;
            assert(fp_hits(fps[i], resp));
        }
    }
    if exists|i: int| 0 <= i < fps.len() && fp_hits(#[trigger] fps[i], resp) && fps[i].cms@ == n {
        let i = choose|i: int| 0 <= i < fps.len() && fp_hits(#[trigger] fps[i], resp) && fps[i].cms@ == n;
        match group_of(fps[i]) {
            RuleGroup::Favicon => {
                let j = choose|j: int| 0 <= j < fav.len() && fav[j] == n;
                assert(all[j] == n);
            },
            RuleGroup::Header => {
                let j = choose|j: int| 0 <= j < hd.len() && hd[j] == n;
                assert(all[fav.len() + j] == n);
            },
            RuleGroup::Body => {
                let j = choose|j: int| 0 <= j < bd.len() && bd[j] == n;
                assert(all[fav.len() + hd.len() + j] == n);
            },
        }
    }
}

/// The text a keyword fingerprint looks at in a response.
pub open spec fn looked_at(fp: Fingerprint, resp: ResponseInfo) -> Seq<char> {
    if fp.location == MatchLocation::Header {
        resp.headers@
    } else {
        resp.body@
    }
}

/// A name is reported only with evidence: some fingerprint with that name is either a
/// keyword fingerprint every one of whose keywords occurs in the text it looks at, or
/// a favicon-hash fingerprint every one of whose keywords equals the response's hash.
/// A keyword rule with a keyword missing from its text (at any position in its list)
/// reports nothing.
pub proof fn lemma_reported_names_have_evidence(fps: Seq<Fingerprint>, resp: ResponseInfo, n: Seq<char>)
    requires
        fingerprint_matches(fps, resp).contains(n),
    ensures
        exists|i: int|
            0 <= i < fps.len() && (#[trigger] fps[i]).cms@ == n && match fps[i].method {
                MatchMethod::Keyword => forall|q: int|
                    0 <= q < fps[i].keyword@.len() ==> contains_sub(
                        looked_at(fps[i], resp),
                        #[trigger] fps[i].keyword@[q]@,
                    ),
                MatchMethod::Faviconhash => resp.favicon_hash matches Some(h) && forall|q: int|
                    0 <= q < fps[i].keyword@.len() ==> #[trigger] fps[i].keyword@[q]@ == h@,
            },
{
    lemma_fingerprint_matches_contain(fps, resp, n);
    let i = choose|i: int| 0 <= i < fps.len() && fp_hits(#[trigger] fps[i], resp) && fps[i].cms@ == n;
    let fp = fps[i];
    let kv = views(fp.keyword@);
    assert forall|q: int| 0 <= q < fp.keyword@.len() implies kv[q] == #[trigger] fp.keyword@[q]@ by {}
}

/// Conversely, a keyword fingerprint every one of whose keywords occurs in the text it
/// looks at reports its name.
pub proof fn lemma_complete_keyword_rule_reports(fps: Seq<Fingerprint>, resp: ResponseInfo, i: int)
    requires
        0 <= i < fps.len(),
        fps[i].method == MatchMethod::Keyword,
        forall|q: int|
            0 <= q < fps[i].keyword@.len() ==> contains_sub(
                looked_at(fps[i], resp),
                #[trigger] fps[i].keyword@[q]@,
            ),
    ensures
        fingerprint_matches(fps, resp).contains(fps[i].cms@),
{
    let fp = fps[i];
    let kv = views(fp.keyword@);
    assert forall|q: int| 0 <= q < kv.len() implies #[trigger] contains_sub(looked_at(fp, resp), kv[q]) by {
        assert(kv[q] == fp.keyword@[q]@);
    }
    assert(fp_hits(fp, resp));
    lemma_fingerprint_matches_contain(fps, resp, fp.cms@);
}

/// The order of the fingerprints does not matter: two lists holding the same
/// fingerprints (a permutation of each other) find the same sorted names in every
/// response.
pub proof fn lemma_fingerprint_order_irrelevant(
    fps1: Seq<Fingerprint>,
    fps2: Seq<Fingerprint>,
    resp: ResponseInfo,
)
    requires
        fps1.to_multiset() == fps2.to_multiset(),
    ensures
        sorted_set(fingerprint_matches(fps1, resp)) == sorted_set(fingerprint_matches(fps2, resp)),
{
    let m1 = fingerprint_matches(fps1, resp);
    let m2 = fingerprint_matches(fps2, resp);
    assert forall|n: Seq<char>| m1.contains(n) implies m2.contains(n) by {
        lemma_fingerprint_matches_contain(fps1, resp, n);
        lemma_fingerprint_matches_contain(fps2, resp, n);
        let i = choose|i: int| 0 <= i < fps1.len() && fp_hits(#[trigger] fps1[i], resp) && fps1[i].cms@ == n;
        let fp = fps1[i];
        vstd::seq_lib::to_multiset_contains(fps1, fp);
        vstd::seq_lib::to_multiset_contains(fps2, fp);
        assert(fps1.contains(fp));
        let j = choose|j: int| 0 <= j < fps2.len() && fps2[j] == fp;
        assert(fp_hits(fps2[j], resp));
    }
    assert forall|n: Seq<char>| m2.contains(n) implies m1.contains(n) by {
        lemma_fingerprint_matches_contain(fps1, resp, n);
        lemma_fingerprint_matches_contain(fps2, resp, n);
        let i = choose|i: int| 0 <= i < fps2.len() && fp_hits(#[trigger] fps2[i], resp) && fps2[i].cms@ == n;
        let fp = fps2[i];
        vstd::seq_lib::to_multiset_contains(fps1, fp);
        vstd::seq_lib::to_multiset_contains(fps2, fp);
        assert(fps2.contains(fp));
        let j = choose|j: int| 0 <= j < fps1.len() && fps1[j] == fp;
        assert(fp_hits(fps1[j], resp));
    }
    assert(m1.to_set() =~= m2.to_set());
    lemma_sorted_set_same_elements(m1, m2);
}

/// Every keyword contained in `small` is contained in any text that contains `small`.
proof fn lemma_contains_sub_transitive(big: Seq<char>, small: Seq<char>, k: Seq<char>)
    requires
        contains_sub(big, small),
        contains_sub(small, k),
    ensures
        contains_sub(big, k),
{
    let i = choose|i: int| #[trigger] occurs_at(big, small, i);
    let j = choose|j: int| #[trigger] occurs_at(small, k, j);
    assert(big.subrange(i + j, i + j + k.len()) =~= small.subrange(j, j + k.len()));
    assert(occurs_at(big, k, i + j));
}

/// More text keeps every keyword match: names matched in `small` stay matched in any
/// text that contains `small`.
proof fn lemma_keyword_matches_grow(rules: Seq<RuleView>, small: Seq<char>, big: Seq<char>, n: Seq<char>)
    requires
        contains_sub(big, small),
        keyword_matches(rules, small).contains(n),
    ensures
        keyword_matches(rules, big).contains(n),
    decreases rules.len(),
{
    let a = keyword_matches(rules.drop_last(), small);
    let b = keyword_matches(rules.drop_last(), big);
    let k1 = keyword_matches(rules, small);
    let k2 = keyword_matches(rules, big);
    let j = choose|j: int| 0 <= j < k1.len() && k1[j] == n;
    if j < a.len() {
        assert(a[j] == n);
        lemma_keyword_matches_grow(rules.drop_last(), small, big, n);
        let t = choose|t: int| 0 <= t < b.len() && b[t] == n;
        assert(k2[t] == n);
    } else {
        let kw = rules.last().1;
        assert(all_contained(kw, small));
        assert forall|q: int| 0 <= q < kw.len() implies #[trigger] contains_sub(big, kw[q]) by {
            lemma_contains_sub_transitive(big, small, kw[q]);
        }
        assert(k2[b.len() as int] == n);
    }
}

/// A longer response keeps its matches: when the headers and the body of `r1` are
/// contained in those of `r2` and the favicon hash is the same, every name matched in
/// `r1` is matched in `r2`.
pub proof fn lemma_matches_grow_with_response(
    fps: Seq<Fingerprint>,
    r1: ResponseInfo,
    r2: ResponseInfo,
    n: Seq<char>,
)
    requires
        r1.favicon_hash == r2.favicon_hash,
        contains_sub(r2.headers@, r1.headers@),
        contains_sub(r2.body@, r1.body@),
        sorted_set(fingerprint_matches(fps, r1)).contains(n),
    ensures
        sorted_set(fingerprint_matches(fps, r2)).contains(n),
{
    let m1 = fingerprint_matches(fps, r1);
    let m2 = fingerprint_matches(fps, r2);
    lemma_sorted_set_exists(m1);
    lemma_sorted_set_exists(m2);
    assert(sorted_set(m1).to_set().contains(n));
    assert(m1.to_set().contains(n));
    let fav = match r1.favicon_hash {
        Some(h) => favicon_matches(rules_in(fps, RuleGroup::Favicon), h@),
        None => Seq::empty(),
    };
    let h1 = keyword_matches(rules_in(fps, RuleGroup::Header), r1.headers@);
    let b1 = keyword_matches(rules_in(fps, RuleGroup::Body), r1.body@);
    let h2 = keyword_matches(rules_in(fps, RuleGroup::Header), r2.headers@);
    let b2 = keyword_matches(rules_in(fps, RuleGroup::Body), r2.body@);
    assert(m1 == fav + h1 + b1);
    assert(m2 == fav + h2 + b2);
    let j = choose|j: int| 0 <= j < m1.len() && m1[j] == n;
    if j < fav.len() {
        assert(m2[j] == n);
    } else if j < fav.len() + h1.len() {
        assert(h1[j - fav.len()] == n);
        lemma_keyword_matches_grow(rules_in(fps, RuleGroup::Header), r1.headers@, r2.headers@, n);
        let t = choose|t: int| 0 <= t < h2.len() && h2[t] == n;
        assert(m2[fav.len() + t] == n);
    } else {
        assert(b1[j - fav.len() - h1.len()] == n);
        lemma_keyword_matches_grow(rules_in(fps, RuleGroup::Body), r1.body@, r2.body@, n);
        let t = choose|t: int| 0 <= t < b2.len() && b2[t] == n;
        assert(m2[fav.len() + h2.len() + t] == n);
    }
    assert(m2.to_set().contains(n));
    assert(sorted_set(m2).to_set().contains(n));
}

impl FingerprintMatcher {
    /// The favicon-hash rules.
    pub closed spec fn favicon_rule_views(&self) -> Seq<RuleView> {
        rule_views(self.favicon_rules@)
    }

    /// The keyword rules that look at the headers.
    pub closed spec fn header_rule_views(&self) -> Seq<RuleView> {
        rule_views(self.header_rules@)
    }

    /// The keyword rules that look at the body.
    pub closed spec fn body_rule_views(&self) -> Seq<RuleView> {
        rule_views(self.body_rules@)
    }

    /// All names matched by a response, before sorting: favicon matches (when a hash
    /// is known), then header matches, then body matches.
    pub open spec fn raw_matches(&self, resp: ResponseInfo) -> Seq<Seq<char>> {
        let fav = match resp.favicon_hash {
            Some(h) => favicon_matches(self.favicon_rule_views(), h@),
            None => Seq::empty(),
        };
        fav + keyword_matches(self.header_rule_views(), resp.headers@) + keyword_matches(
            self.body_rule_views(),
            resp.body@,
        )
    }

    /// Sorts fingerprints into favicon, header and body rules, keeping their order.
    pub fn new(fingerprints: Vec<Fingerprint>) -> (r: Self)
        ensures
            r.favicon_rule_views() == rules_in(fingerprints@, RuleGroup::Favicon),
            r.header_rule_views() == rules_in(fingerprints@, RuleGroup::Header),
            r.body_rule_views() == rules_in(fingerprints@, RuleGroup::Body),
            forall|resp: ResponseInfo| #[trigger] r.raw_matches(resp) == fingerprint_matches(
                fingerprints@,
                resp,
            ),
    {
        let mut favicon_rules: Vec<CompiledFingerprint> = Vec::new();
        let mut header_rules: Vec<CompiledFingerprint> = Vec::new();
        let mut body_rules: Vec<CompiledFingerprint> = Vec::new();
        let ghost fps = fingerprints@;
        for fp in it: fingerprints.into_iter()
            invariant
                it.seq() == fps,
                rule_views(favicon_rules@) == rules_in(fps.take(it.index() as int), RuleGroup::Favicon),
                rule_views(header_rules@) == rules_in(fps.take(it.index() as int), RuleGroup::Header),
                rule_views(body_rules@) == rules_in(fps.take(it.index() as int), RuleGroup::Body),
        {
            let ghost i = it.index();
            proof {
                assert(fp == fps[i as int]);
                assert(fps.take(i + 1).drop_last() =~= fps.take(i as int));
            }
            let method = fp.method;
            let location = fp.location;
            let compiled = CompiledFingerprint { cms: fp.cms, keywords: fp.keyword };
            match (method, location) {
                (MatchMethod::Faviconhash, _) => {
                    favicon_rules.push(compiled);
                },
                (MatchMethod::Keyword, MatchLocation::Header) => {
                    header_rules.push(compiled);
                },
                (MatchMethod::Keyword, MatchLocation::Body) => {
                    body_rules.push(compiled);
                },
            }
            proof {
                assert(rule_views(favicon_rules@) =~= rules_in(fps.take(i + 1), RuleGroup::Favicon));
                assert(rule_views(header_rules@) =~= rules_in(fps.take(i + 1), RuleGroup::Header));
                assert(rule_views(body_rules@) =~= rules_in(fps.take(i + 1), RuleGroup::Body));
            }
        }
        assert(fps.take(fps.len() as int) =~= fps);
        FingerprintMatcher { favicon_rules, header_rules, body_rules }
    }

    /// The application names recognised in a response, sorted, without duplicates.
    pub fn match_response(&self, resp: &ResponseInfo) -> (r: Vec<String>)
        ensures
            views(r@) == sorted_set(self.raw_matches(*resp)),
            strictly_sorted(views(r@)),
            views(r@).to_set() == self.raw_matches(*resp).to_set(),
    {
        let mut matched: Vec<String> = Vec::new();
        if let Some(hash) = &resp.favicon_hash {
            let mut i: usize = 0;
            while i < self.favicon_rules.len()
                invariant
                    i <= self.favicon_rules@.len(),
                    views(matched@) == favicon_matches(
                        rule_views(self.favicon_rules@).take(i as int),
                        hash@,
                    ),
                decreases self.favicon_rules@.len() - i,
            {
                let rule = &self.favicon_rules[i];
                let ghost rv = rule_views(self.favicon_rules@);
                proof {
                    assert(rv.take(i + 1).drop_last() =~= rv.take(i as int));
                    assert(rv.take(i + 1).last() == rule_view(*rule));
                }
                let mut all = true;
                let mut k: usize = 0;
                while k < rule.keywords.len()
                    invariant
                        k <= rule.keywords@.len(),
                        all == all_equal(views(rule.keywords@).take(k as int), hash@),
                    decreases rule.keywords@.len() - k,
                {
                    let ghost kv = views(rule.keywords@);
                    let same = rule.keywords[k] == *hash;
                    proof {
                        if !same {
                            assert(kv.take(k + 1)[k as int] != hash@);
                        }
                        if all && same {
                            assert forall|t: int| 0 <= t < k + 1 implies #[trigger] kv.take(k + 1)[t] == hash@ by {
                                if t < k {
                                    assert(kv.take(k as int)[t] == hash@);
                                }
                            }
                        }
                        if !all {
                            let t = choose|t: int| 0 <= t < k && #[trigger] kv.take(k as int)[t] != hash@;
                            assert(kv.take(k + 1)[t] != hash@);
                        }
                    }
                    all = all && same;
                    k = k + 1;
                }
                proof {
                    assert(views(rule.keywords@).take(rule.keywords@.len() as int) =~= views(
                        rule.keywords@,
                    ));
                }
                let ghost before = views(matched@);
                if all {
                    matched.push(rule.cms.clone());
                }
                proof {
                    assert(views(matched@) =~= favicon_matches(rv.take(i + 1), hash@));
                }
                i = i + 1;
            }
            proof {
                assert(rule_views(self.favicon_rules@).take(self.favicon_rules@.len() as int)
                    =~= rule_views(self.favicon_rules@));
            }
        }
        let ghost fav = views(matched@);
        self.match_keyword_rules(&self.header_rules, resp.headers.as_str(), &mut matched);
        self.match_keyword_rules(&self.body_rules, resp.body.as_str(), &mut matched);
        proof {
            assert(views(matched@) =~= self.raw_matches(*resp));
        }
        sort_dedup(matched)
    }

    /// Appends the names of the keyword `rules` whose keywords all occur in `target`.
    fn match_keyword_rules(
        &self,
        rules: &Vec<CompiledFingerprint>,
        target: &str,
        matched: &mut Vec<String>,
    )
        ensures
            views(final(matched)@) == views(old(matched)@) + keyword_matches(
                rule_views(rules@),
                target@,
            ),
    {
        let ghost start = views(matched@);
        let ghost rv = rule_views(rules@);
        let mut i: usize = 0;
        assert(start =~= start + keyword_matches(rv.take(0), target@));
        while i < rules.len()
            invariant
                i <= rules@.len(),
                rv == rule_views(rules@),
                views(matched@) == start + keyword_matches(rv.take(i as int), target@),
            decreases rules@.len() - i,
        {
            let rule = &rules[i];
            proof {
                assert(rv.take(i + 1).drop_last() =~= rv.take(i as int));
                assert(rv.take(i + 1).last() == rule_view(*rule));
            }
            let mut all = true;
            let mut k: usize = 0;
            while k < rule.keywords.len()
                invariant
                    k <= rule.keywords@.len(),
                    all == all_contained(views(rule.keywords@).take(k as int), target@),
                decreases rule.keywords@.len() - k,
            {
                let ghost kv = views(rule.keywords@);
                let found = str_contains(target, rule.keywords[k].as_str());
                proof {
                    if !found {
                        assert(!contains_sub(target@, kv.take(k + 1)[k as int]));
                    }
                    if all && found {
                        assert forall|t: int| 0 <= t < k + 1 implies #[trigger] contains_sub(
                            target@,
                            kv.take(k + 1)[t],
                        ) by {
                            if t < k {
                                assert(contains_sub(target@, kv.take(k as int)[t]));
                            }
                        }
                    }
                    if !all {
                        let t = choose|t: int|
                            0 <= t < k && !#[trigger] contains_sub(target@, kv.take(k as int)[t]);
                        assert(kv.take(k + 1)[t] == kv.take(k as int)[t]);
                    }
                }
                all = all && found;
                k = k + 1;
            }
            proof {
                assert(views(rule.keywords@).take(rule.keywords@.len() as int) =~= views(
                    rule.keywords@,
                ));
            }
            let ghost before = views(matched@);
            if all {
                matched.push(rule.cms.clone());
            }
            proof {
                let km = keyword_matches(rv.take(i + 1), target@);
                assert(rv.take(i + 1).last().1 == views(rule.keywords@));
                assert(all == all_contained(rv.take(i + 1).last().1, target@));
                assert(km == keyword_matches(rv.take(i as int), target@) + if all {
                    seq![rule.cms@]
                } else {
                    Seq::empty()
                });
                if all {
                    assert(views(matched@) =~= before.push(rule.cms@));
                    assert(before.push(rule.cms@) =~= start + km);
                } else {
                    assert(views(matched@) =~= before);
                    assert(before =~= start + km);
                }
            }
            i = i + 1;
        }
        assert(rv.take(rules@.len() as int) =~= rv);
    }
}

} // verus!
