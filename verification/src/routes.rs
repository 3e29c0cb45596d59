//! The route registry: immutable route definitions loaded at startup, each
//! one quality tier of a logical route, with validation and grouped lookup.

use vstd::prelude::*;
use crate::amount::{
    canonical_dec_chars, dec_str_val, human_amount_ok, human_amount_val, AmountError, DomainU256,
};
use crate::text::{lemma_lex_total, lemma_lex_trans, lex_le, str_le};
use crate::hashing::trim_of;
use crate::text::str_eq;

verus! {

/// An optional transcoding step applied to provider output before storage.
pub enum PostProcess {
    /// Keep the provider's bytes as they are.
    Keep,
    /// Transcode with the external tool: the provider bytes are written
    /// under `input_extension`, the tool runs with `ffmpeg_args`, and the
    /// output replaces them.
    FfmpegToGif { input_extension: String, ffmpeg_args: Vec<String> },
}

/// One quality tier of a logical route: where it is served, which provider
/// model it calls, what it costs, and how its output is handled. Each
/// request-template parameter holds its value as raw JSON text; the
/// pipeline never reads inside a value, only its key.
pub struct EndpointDef {
    pub route: String,
    pub quality: String,
    pub path: String,
    pub fal_model: String,
    pub cost: String,
    pub description: String,
    pub response_url_path: String,
    pub request_params: Vec<(String, String)>,
    pub default_prompt: String,
    pub media_type: String,
    pub output_extension: String,
    pub post_process: PostProcess,
}

/// The flat list of route definitions, as loaded from configuration.
pub struct EndpointsConfig {
    pub endpoints: Vec<EndpointDef>,
}

/// The quality tier used when a request names none.
pub fn default_quality() -> (r: String)
    ensures
        r@ == "low"@,
{
    String::from_str("low")
}

/// What a caller asks of a route: an optional prompt and a quality tier.
pub struct PromptQuery {
    pub prompt: Option<String>,
    pub quality: String,
}

/// The grouped form of a definition list: route, then quality, to the
/// definition; on a duplicated route and quality the later definition wins.
pub open spec fn group_spec(defs: Seq<EndpointDef>) -> Map<Seq<char>, Map<Seq<char>, EndpointDef>>
    decreases defs.len(),
{
    if defs.len() == 0 {
        Map::<Seq<char>, Map<Seq<char>, EndpointDef>>::empty()
    } else {
        let m = group_spec(defs.drop_last());
        let d = defs.last();
        let inner = if m.contains_key(d.route@) {
            m[d.route@]
        } else {
            Map::<Seq<char>, EndpointDef>::empty()
        };
        m.insert(d.route@, inner.insert(d.quality@, d))
    }
}

/// Some definition has this route and quality.
pub open spec fn has_pair(defs: Seq<EndpointDef>, r: Seq<char>, q: Seq<char>) -> bool {
    exists|i: int|
        0 <= i < defs.len() && (#[trigger] defs[i]).route@ == r && defs[i].quality@ == q
}

/// Some definition has this route.
pub open spec fn has_route(defs: Seq<EndpointDef>, r: Seq<char>) -> bool {
    exists|i: int| 0 <= i < defs.len() && (#[trigger] defs[i]).route@ == r
}

/// The index of the last definition with this route and quality, or -1.
pub open spec fn last_match(defs: Seq<EndpointDef>, r: Seq<char>, q: Seq<char>) -> int
    decreases defs.len(),
{
    if defs.len() == 0 {
        -1
    } else if defs.last().route@ == r && defs.last().quality@ == q {
        defs.len() - 1
    } else {
        last_match(defs.drop_last(), r, q)
    }
}

/// The grouped map contains exactly the routes and route/quality pairs of
/// the list, and maps each pair to the last definition that bears it.
pub proof fn lemma_group_lookup(defs: Seq<EndpointDef>, r: Seq<char>, q: Seq<char>)
    ensures
        group_spec(defs).contains_key(r) <==> has_route(defs, r),
        (group_spec(defs).contains_key(r) && group_spec(defs)[r].contains_key(q)) <==> has_pair(
            defs,
            r,
            q,
        ),
        has_pair(defs, r, q) ==> {
            let i = last_match(defs, r, q);
            &&& 0 <= i < defs.len()
            &&& defs[i].route@ == r
            &&& defs[i].quality@ == q
            &&& group_spec(defs)[r][q] == defs[i]
            &&& forall|j: int|
                i < j < defs.len() ==> !((#[trigger] defs[j]).route@ == r && defs[j].quality@
                    == q)
        },
    decreases defs.len(),
{
    if defs.len() > 0 {
        let dl = defs.drop_last();
        let d = defs.last();
        lemma_group_lookup(dl, r, q);
        assert(forall|i: int| 0 <= i < dl.len() ==> dl[i] == defs[i]);
        if has_route(defs, r) {
            if d.route@ != r {
                let i = choose|i: int|
                    0 <= i < defs.len() && (#[trigger] defs[i]).route@ == r;
                assert(dl[i] == defs[i]);
            }
        }
        if has_route(dl, r) {
            assert(has_route(defs, r));
        }
        if has_pair(dl, r, q) {
            assert(has_pair(defs, r, q));
        }
        if has_pair(defs, r, q) && !(d.route@ == r && d.quality@ == q) {
            let i = choose|i: int|
                0 <= i < defs.len() && (#[trigger] defs[i]).route@ == r && defs[i].quality@
                    == q;
            assert(i < dl.len());
            assert(dl[i] == defs[i]);
            assert(has_pair(dl, r, q));
        }
    }
}

/// The route table: the definitions, viewed as a grouped map.
pub struct RouteTable {
    pub defs: Vec<EndpointDef>,
}

impl RouteTable {
    /// The grouped map this table denotes.
    pub open spec fn view(&self) -> Map<Seq<char>, Map<Seq<char>, EndpointDef>> {
        group_spec(self.defs@)
    }

    /// Look up the definition serving a route at a quality, as the grouped
    /// map gives it.
    #[verifier::loop_isolation(false)]
    pub fn find_variant(&self, route: &str, quality: &str) -> (r: Option<&EndpointDef>)
        ensures
            match r {
                Some(d) => self@.contains_key(route@) && self@[route@].contains_key(quality@)
                    && *d == self@[route@][quality@],
                None => !(self@.contains_key(route@) && self@[route@].contains_key(quality@)),
            },
    {
        proof {
            lemma_group_lookup(self.defs@, route@, quality@);
        }
        let n = self.defs.len();
        let mut i = n;
        while i > 0
            invariant
                0 <= i <= n,
                n == self.defs@.len(),
                forall|j: int|
                    i <= j < n ==> !((#[trigger] self.defs@[j]).route@ == route@
                        && self.defs@[j].quality@ == quality@),
            decreases i,
        {
            i -= 1;
            let d = &self.defs[i];
            if str_eq(d.route.as_str(), route) && str_eq(d.quality.as_str(), quality) {
                proof {
                    assert(has_pair(self.defs@, route@, quality@));
                    assert(last_match(self.defs@, route@, quality@) == i as int);
                }
                return Some(d);
            }
        }
        proof {
            assert(!has_pair(self.defs@, route@, quality@));
        }
        None
    }

    /// The logical route names of the table, each once, in order of first
    /// appearance.
    #[verifier::loop_isolation(false)]
    pub fn route_names(&self) -> (r: Vec<String>)
        ensures
            forall|i: int, j: int| 0 <= i < j < r@.len() ==> r@[i]@ != r@[j]@,
            forall|q: Seq<char>|
                #[trigger] has_route(self.defs@, q) <==> exists|i: int|
                    0 <= i < r@.len() && (#[trigger] r@[i])@ == q,
    {
        let mut r: Vec<String> = Vec::new();
        let n = self.defs.len();
        let mut i: usize = 0;
        while i < n
            invariant
                0 <= i <= n,
                n == self.defs@.len(),
                forall|a: int, b: int| 0 <= a < b < r@.len() ==> r@[a]@ != r@[b]@,
                forall|q: Seq<char>|
                    #[trigger] has_route(self.defs@.take(i as int), q) <==> exists|a: int|
                        0 <= a < r@.len() && (#[trigger] r@[a])@ == q,
            decreases n - i,
        {
            let d = &self.defs[i];
            let ghost prev = r@;
            // Skip routes already collected.
            let mut seen = false;
            let mut k: usize = 0;
            while k < r.len()
                invariant
                    0 <= k <= r@.len(),
                    r@ == prev,
                    seen <==> exists|a: int|
                        0 <= a < k && (#[trigger] r@[a])@ == self.defs@[i as int].route@,
                decreases r@.len() - k,
            {
                if str_eq(r[k].as_str(), d.route.as_str()) {
                    seen = true;
                }
                k += 1;
            }
            if !seen {
                r.push(d.route.clone());
            }
            proof {
                assert(exists|a: int|
                    0 <= a < r@.len() && (#[trigger] r@[a])@ == self.defs@[i as int].route@) by {
                    if seen {
                        let a = choose|a: int|
                            0 <= a < prev.len() && (#[trigger] prev[a])@ == self.defs@[
                                i as int].route@;
                        assert(r@[a] == prev[a]);
                    } else {
                        assert(r@[r@.len() - 1]@ == self.defs@[i as int].route@);
                    }
                }
                let ti = self.defs@.take(i as int);
                let ti1 = self.defs@.take(i + 1);
                assert(ti1 =~= ti.push(self.defs@[i as int]));
                assert forall|q: Seq<char>| #[trigger] has_route(ti1, q) implies exists|a: int|
                    0 <= a < r@.len() && (#[trigger] r@[a])@ == q by {
                    let w = choose|w: int|
                        0 <= w < ti1.len() && (#[trigger] ti1[w]).route@ == q;
                    if w < ti.len() {
                        assert(ti[w] == ti1[w]);
                        assert(has_route(ti, q));
                        let a = choose|a: int| 0 <= a < prev.len() && (#[trigger] prev[a])@ == q;
                        assert(r@[a] == prev[a]);
                    } else {
                        assert(ti1[w] == self.defs@[i as int]);
                    }
                }
                assert forall|q: Seq<char>|
                    (exists|a: int| 0 <= a < r@.len() && (#[trigger] r@[a])@ == q) implies
                    #[trigger] has_route(ti1, q) by {
                    let a = choose|a: int| 0 <= a < r@.len() && (#[trigger] r@[a])@ == q;
                    if a < prev.len() {
                        assert(prev[a] == r@[a]);
                        assert(has_route(ti, q));
                        let w = choose|w: int|
                            0 <= w < ti.len() && (#[trigger] ti[w]).route@ == q;
                        assert(ti1[w] == ti[w]);
                    } else {
                        assert(ti1[i as int] == self.defs@[i as int]);
                    }
                }
            }
            i += 1;
        }
        proof {
            assert(self.defs@.take(n as int) =~= self.defs@);
        }
        r
    }

    /// The quality names available for a route, each once, in order of first
    /// appearance.
    #[verifier::loop_isolation(false)]
    pub fn qualities_of(&self, route: &str) -> (r: Vec<String>)
        ensures
            forall|i: int, j: int| 0 <= i < j < r@.len() ==> r@[i]@ != r@[j]@,
            forall|q: Seq<char>|
                #[trigger] has_pair(self.defs@, route@, q) <==> exists|i: int|
                    0 <= i < r@.len() && (#[trigger] r@[i])@ == q,
    {
        let mut r: Vec<String> = Vec::new();
        let n = self.defs.len();
        let mut i: usize = 0;
        while i < n
            invariant
                0 <= i <= n,
                n == self.defs@.len(),
                forall|a: int, b: int| 0 <= a < b < r@.len() ==> r@[a]@ != r@[b]@,
                forall|q: Seq<char>|
                    #[trigger] has_pair(self.defs@.take(i as int), route@, q) <==> exists|a: int|
                        0 <= a < r@.len() && (#[trigger] r@[a])@ == q,
            decreases n - i,
        {
            let d = &self.defs[i];
            let ghost prev = r@;
            let route_matches = str_eq(d.route.as_str(), route);
            if route_matches {
                // Skip qualities already collected.
                let mut seen = false;
                let mut k: usize = 0;
                while k < r.len()
                    invariant
                        0 <= k <= r@.len(),
                        r@ == prev,
                        seen <==> exists|a: int|
                            0 <= a < k && (#[trigger] r@[a])@ == self.defs@[i as int].quality@,
                    decreases r@.len() - k,
                {
                    if str_eq(r[k].as_str(), d.quality.as_str()) {
                        seen = true;
                    }
                    k += 1;
                }
                if !seen {
                    r.push(d.quality.clone());
                }
                proof {
                    assert(exists|a: int|
                        0 <= a < r@.len() && (#[trigger] r@[a])@ == self.defs@[
                            i as int].quality@) by {
                        if seen {
                            let a = choose|a: int|
                                0 <= a < prev.len() && (#[trigger] prev[a])@ == self.defs@[
                                    i as int].quality@;
                            assert(r@[a] == prev[a]);
                        } else {
                            assert(r@[r@.len() - 1]@ == self.defs@[i as int].quality@);
                        }
                    }
                }
            }
            proof {
                let ti = self.defs@.take(i as int);
                let ti1 = self.defs@.take(i + 1);
                assert(ti1 =~= ti.push(self.defs@[i as int]));
                assert forall|q: Seq<char>| #[trigger] has_pair(ti1, route@, q) implies exists|
                    a: int,
                |
                    0 <= a < r@.len() && (#[trigger] r@[a])@ == q by {
                    let w = choose|w: int|
                        0 <= w < ti1.len() && (#[trigger] ti1[w]).route@ == route@
                            && ti1[w].quality@ == q;
                    if w < ti.len() {
                        assert(ti[w] == ti1[w]);
                        assert(has_pair(ti, route@, q));
                        let a = choose|a: int| 0 <= a < prev.len() && (#[trigger] prev[a])@ == q;
                        assert(r@[a] == prev[a]);
                    } else {
                        assert(ti1[w] == self.defs@[i as int]);
                        assert(route_matches);
                        assert(exists|a: int|
                            0 <= a < r@.len() && (#[trigger] r@[a])@ == self.defs@[
                                i as int].quality@);
                    }
                }
                assert forall|q: Seq<char>|
                    (exists|a: int| 0 <= a < r@.len() && (#[trigger] r@[a])@ == q) implies
                    #[trigger] has_pair(ti1, route@, q) by {
                    let a = choose|a: int| 0 <= a < r@.len() && (#[trigger] r@[a])@ == q;
                    if a < prev.len() {
                        assert(prev[a] == r@[a]);
                        assert(has_pair(ti, route@, q));
                        let w = choose|w: int|
                            0 <= w < ti.len() && (#[trigger] ti[w]).route@ == route@
                                && ti[w].quality@ == q;
                        assert(ti1[w] == ti[w]);
                    } else {
                        assert(ti1[i as int] == self.defs@[i as int]);
                    }
                }
            }
            i += 1;
        }
        proof {
            assert(self.defs@.take(n as int) =~= self.defs@);
        }
        r
    }
}

/// Group a flat definition list by route and quality.
pub fn group_by_route(endpoints: Vec<EndpointDef>) -> (r: RouteTable)
    ensures
        r.defs@ == endpoints@,
        r@ == group_spec(endpoints@),
{
    RouteTable { defs: endpoints }
}

/// Every cost parses at the token's precision.
pub open spec fn all_costs_ok(defs: Seq<EndpointDef>, decimals: u8) -> bool {
    forall|i: int|
        0 <= i < defs.len() ==> human_amount_ok(trim_of((#[trigger] defs[i]).cost@), decimals)
}

/// Every route has a variant at the default quality.
pub open spec fn all_routes_have_default(defs: Seq<EndpointDef>) -> bool {
    forall|i: int|
        0 <= i < defs.len() ==> has_pair(defs, (#[trigger] defs[i]).route@, "low"@)
}

/// No route and quality pair occurs twice.
pub open spec fn no_duplicate_pairs(defs: Seq<EndpointDef>) -> bool {
    forall|i: int, j: int|
        0 <= i < j < defs.len() ==> !((#[trigger] defs[i]).route@ == (#[trigger] defs[j]).route@
            && defs[i].quality@ == defs[j].quality@)
}

/// A definition list fit to serve: costs parse, every route has a default
/// variant, and no route/quality pair is duplicated.
pub open spec fn spec_valid(defs: Seq<EndpointDef>, decimals: u8) -> bool {
    &&& all_costs_ok(defs, decimals)
    &&& all_routes_have_default(defs)
    &&& no_duplicate_pairs(defs)
}

/// Why a configuration was rejected.
#[derive(Debug, Clone, PartialEq, Eq)]
pub enum ConfigError {
    /// The configuration source could not be read; carries a description.
    Unreadable(String),
    /// The configuration source could not be parsed; carries a description.
    Malformed(String),
    /// Some cost fails to parse as a fixed-precision decimal amount.
    BadCost,
    /// Some route has no default-quality variant.
    MissingDefault,
    /// Some route and quality pair occurs twice.
    DuplicatePair,
}

/// Check a definition list before serving: every cost must parse at the
/// token's precision, every route must have a default-quality variant, and
/// no route/quality pair may repeat.
#[verifier::loop_isolation(false)]
pub fn validate(defs: &Vec<EndpointDef>, decimals: u8) -> (r: Result<(), ConfigError>)
    ensures
        r is Ok <==> spec_valid(defs@, decimals),
        (r matches Err(e) && e == ConfigError::BadCost) <==> !all_costs_ok(defs@, decimals),
        (r matches Err(e) && e == ConfigError::MissingDefault) <==> all_costs_ok(defs@, decimals)
            && !all_routes_have_default(defs@),
        (r matches Err(e) && e == ConfigError::DuplicatePair) <==> all_costs_ok(defs@, decimals)
            && all_routes_have_default(defs@) && !no_duplicate_pairs(defs@),
{
    let n = defs.len();
    // Costs.
    let mut i: usize = 0;
    while i < n
        invariant
            0 <= i <= n,
            n == defs@.len(),
            forall|j: int|
                0 <= j < i ==> human_amount_ok(trim_of((#[trigger] defs@[j]).cost@), decimals),
        decreases n - i,
    {
        if DomainU256::from_human_amount(defs[i].cost.as_str(), decimals).is_err() {
            return Err(ConfigError::BadCost);
        }
        i += 1;
    }
    // Default variants.
    let mut i: usize = 0;
    while i < n
        invariant
            0 <= i <= n,
            n == defs@.len(),
            all_costs_ok(defs@, decimals),
            forall|j: int|
                0 <= j < i ==> has_pair(defs@, (#[trigger] defs@[j]).route@, "low"@),
        decreases n - i,
    {
        let mut found = false;
        let mut k: usize = 0;
        while k < n
            invariant
                0 <= k <= n,
                n == defs@.len(),
                i < n,
                found ==> has_pair(defs@, defs@[i as int].route@, "low"@),
                !found ==> forall|j: int|
                    0 <= j < k ==> !((#[trigger] defs@[j]).route@ == defs@[i as int].route@
                        && defs@[j].quality@ == "low"@),
            decreases n - k,
        {
            if str_eq(defs[k].route.as_str(), defs[i].route.as_str()) && str_eq(
                defs[k].quality.as_str(),
                "low",
            ) {
                found = true;
            }
            k += 1;
        }
        if !found {
            return Err(ConfigError::MissingDefault);
        }
        i += 1;
    }
    // Duplicates.
    let mut i: usize = 0;
    while i < n
        invariant
            0 <= i <= n,
            n == defs@.len(),
            all_costs_ok(defs@, decimals),
            all_routes_have_default(defs@),
            forall|a: int, b: int|
                0 <= a < b < n && a < i ==> !((#[trigger] defs@[a]).route@ == (
                #[trigger] defs@[b]).route@ && defs@[a].quality@ == defs@[b].quality@),
        decreases n - i,
    {
        let mut k: usize = i + 1;
        while k < n
            invariant
                i < k <= n,
                i < n,
                n == defs@.len(),
                forall|b: int|
                    i < b < k ==> !(defs@[i as int].route@ == (#[trigger] defs@[b]).route@
                        && defs@[i as int].quality@ == defs@[b].quality@),
            decreases n - k,
        {
            if str_eq(defs[k].route.as_str(), defs[i].route.as_str()) && str_eq(
                defs[k].quality.as_str(),
                defs[i].quality.as_str(),
            ) {
                return Err(ConfigError::DuplicatePair);
            }
            k += 1;
        }
        i += 1;
    }
    Ok(())
}

/// One quality tier of a route as the service describes itself: the tier,
/// its provider model, its price both as configured and in raw units, and
/// its description.
pub struct QualityInfo {
    pub quality: String,
    pub model: String,
    pub cost: String,
    pub cost_raw: String,
    pub description: String,
}

/// The definitions serving a route, in table order.
pub open spec fn route_defs_of(defs: Seq<EndpointDef>, route: Seq<char>) -> Seq<EndpointDef>
    decreases defs.len(),
{
    if defs.len() == 0 {
        Seq::<EndpointDef>::empty()
    } else if defs.last().route@ == route {
        route_defs_of(defs.drop_last(), route).push(defs.last())
    } else {
        route_defs_of(defs.drop_last(), route)
    }
}

/// Describe every quality tier of a route, with each price converted to
/// raw units at the token's precision; fails when some tier's price does
/// not parse.
#[verifier::loop_isolation(false)]
pub fn quality_infos(table: &RouteTable, route: &str, decimals: u8) -> (r: Result<
    Vec<QualityInfo>,
    AmountError,
>)
    ensures
        r is Ok <==> (forall|i: int|
            0 <= i < route_defs_of(table.defs@, route@).len() ==> human_amount_ok(
                trim_of((#[trigger] route_defs_of(table.defs@, route@)[i]).cost@),
                decimals,
            )),
        r matches Ok(infos) ==> {
            let rd = route_defs_of(table.defs@, route@);
            &&& infos@.len() == rd.len()
            &&& forall|i: int|
                0 <= i < rd.len() ==> {
                    let q = #[trigger] infos@[i];
                    &&& q.quality@ == rd[i].quality@
                    &&& q.model@ == rd[i].fal_model@
                    &&& q.cost@ == rd[i].cost@
                    &&& q.description@ == rd[i].description@
                    &&& canonical_dec_chars(q.cost_raw@)
                    &&& dec_str_val(q.cost_raw@) == human_amount_val(
                        trim_of(rd[i].cost@),
                        decimals,
                    )
                }
        },
{
    let n = table.defs.len();
    let mut infos: Vec<QualityInfo> = Vec::new();
    let mut i: usize = 0;
    proof {
        assert(table.defs@.subrange(0, 0) =~= Seq::<EndpointDef>::empty());
    }
    while i < n
        invariant
            0 <= i <= n,
            n == table.defs@.len(),
            ({
                let rd = route_defs_of(table.defs@.subrange(0, i as int), route@);
                &&& infos@.len() == rd.len()
                &&& forall|j: int|
                    0 <= j < rd.len() ==> human_amount_ok(
                        trim_of((#[trigger] rd[j]).cost@),
                        decimals,
                    )
                &&& forall|j: int|
                    0 <= j < rd.len() ==> {
                        let q = #[trigger] infos@[j];
                        &&& q.quality@ == rd[j].quality@
                        &&& q.model@ == rd[j].fal_model@
                        &&& q.cost@ == rd[j].cost@
                        &&& q.description@ == rd[j].description@
                        &&& canonical_dec_chars(q.cost_raw@)
                        &&& dec_str_val(q.cost_raw@) == human_amount_val(
                            trim_of(rd[j].cost@),
                            decimals,
                        )
                    }
            }),
        decreases n - i,
    {
        let d = &table.defs[i];
        proof {
            assert(table.defs@.subrange(0, i + 1).drop_last() =~= table.defs@.subrange(
                0,
                i as int,
            ));
            assert(table.defs@.subrange(0, i + 1).last() == table.defs@[i as int]);
        }
        if str_eq(d.route.as_str(), route) {
            let raw = match DomainU256::from_human_amount(d.cost.as_str(), decimals) {
                Ok(a) => a,
                Err(e) => {
                    proof {
                        let rd = route_defs_of(table.defs@.subrange(0, i as int), route@);
                        let rd1 = route_defs_of(table.defs@.subrange(0, i + 1), route@);
                        let rdn = route_defs_of(table.defs@, route@);
                        assert(rd1 == rd.push(table.defs@[i as int]));
                        lemma_route_defs_prefix(table.defs@, i + 1, route@);
                        assert(rdn[rd.len() as int] == rd1[rd.len() as int]);
                        assert(rdn[rd.len() as int] == table.defs@[i as int]);
                    }
                    return Err(e);
                },
            };
            let info = QualityInfo {
                quality: d.quality.clone(),
                model: d.fal_model.clone(),
                cost: d.cost.clone(),
                cost_raw: raw.to_decimal_string(),
                description: d.description.clone(),
            };
            infos.push(info);
        }
        i += 1;
    }
    proof {
        assert(table.defs@.subrange(0, n as int) =~= table.defs@);
    }
    Ok(infos)
}

/// Sort quality entries by their tier name, keeping exactly the same
/// entries, as the service-info listing presents them.
#[verifier::loop_isolation(false)]
pub fn sort_by_quality(v: Vec<QualityInfo>) -> (r: Vec<QualityInfo>)
    ensures
        r@.to_multiset() == v@.to_multiset(),
        forall|i: int, j: int| 0 <= i < j < r@.len() ==> lex_le(r@[i].quality@, r@[j].quality@),
{
    let mut src = v;
    let mut out: Vec<QualityInfo> = Vec::new();
    proof {
        out@.to_multiset_ensures();
        assert(out@.to_multiset().add(src@.to_multiset()) =~= v@.to_multiset());
    }
    while src.len() > 0
        invariant
            out@.to_multiset().add(src@.to_multiset()) == v@.to_multiset(),
            forall|i: int, j: int|
                0 <= i < j < out@.len() ==> lex_le(out@[i].quality@, out@[j].quality@),
            forall|i: int, j: int|
                #![trigger out@[i].quality@, src@[j].quality@]
                0 <= i < out@.len() && 0 <= j < src@.len() ==> lex_le(
                    out@[i].quality@,
                    src@[j].quality@,
                ),
        decreases src@.len(),
    {
        // Find an entry with a minimal tier name.
        let mut m: usize = 0;
        let mut k: usize = 1;
        proof {
            lemma_lex_total(src@[0].quality@, src@[0].quality@);
        }
        while k < src.len()
            invariant
                0 <= m < k <= src@.len(),
                forall|j: int|
                    0 <= j < k ==> lex_le(src@[m as int].quality@, (#[trigger] src@[j]).quality@),
            decreases src@.len() - k,
        {
            if str_le(src[k].quality.as_str(), src[m].quality.as_str()) {
                proof {
                    assert forall|j: int| 0 <= j < k + 1 implies lex_le(
                        src@[k as int].quality@,
                        (#[trigger] src@[j]).quality@,
                    ) by {
                        if j < k as int {
                            lemma_lex_trans(
                                src@[k as int].quality@,
                                src@[m as int].quality@,
                                src@[j].quality@,
                            );
                        } else {
                            lemma_lex_total(src@[k as int].quality@, src@[k as int].quality@);
                        }
                    }
                }
                m = k;
            } else {
                proof {
                    lemma_lex_total(src@[k as int].quality@, src@[m as int].quality@);
                }
            }
            k += 1;
        }
        let ghost old_src = src@;
        let ghost old_out = out@;
        let x = src.remove(m);
        proof {
            old_src.to_multiset_ensures();
            old_out.to_multiset_ensures();
            assert(src@ =~= old_src.subrange(0, m as int) + old_src.subrange(
                m as int + 1,
                old_src.len() as int,
            ));
        }
        out.push(x);
        proof {
            assert(out@.to_multiset() =~= old_out.to_multiset().insert(x));
            assert(src@.to_multiset() =~= old_src.to_multiset().remove(x));
            assert(old_src.to_multiset().count(x) >= 1) by {
                assert(old_src.contains(x)) by {
                    assert(old_src[m as int] == x);
                }
            }
            assert(out@.to_multiset().add(src@.to_multiset()) =~= old_out.to_multiset().add(
                old_src.to_multiset(),
            ));
            assert forall|i: int, j: int|
                #![trigger out@[i].quality@, src@[j].quality@]
                0 <= i < out@.len() && 0 <= j < src@.len() implies lex_le(
                out@[i].quality@,
                src@[j].quality@,
            ) by {
                let ghost jo = if j < m as int {
                    j
                } else {
                    j + 1
                };
                assert(src@[j] == old_src[jo]);
                if i < old_out.len() {
                    assert(out@[i] == old_out[i]);
                } else {
                    assert(out@[i] == x);
                }
            }
            assert forall|i: int, j: int|
                0 <= i < j < out@.len() implies lex_le(out@[i].quality@, out@[j].quality@) by {
                if j < old_out.len() {
                    assert(out@[i] == old_out[i] && out@[j] == old_out[j]);
                } else {
                    assert(out@[j] == x);
                    assert(out@[i] == old_out[i]);
                    assert(old_src[m as int] == x);
                }
            }
        }
    }
    proof {
        src@.to_multiset_ensures();
        assert(src@ =~= Seq::<QualityInfo>::empty());
        assert(out@.to_multiset().add(src@.to_multiset()) =~= out@.to_multiset());
    }
    out
}

/// A route's definitions under a prefix extend to the whole list: the
/// prefix's route definitions are the first of the whole list's.
proof fn lemma_route_defs_prefix(defs: Seq<EndpointDef>, i: int, route: Seq<char>)
    requires
        0 <= i <= defs.len(),
    ensures
        ({
            let rd = route_defs_of(defs.subrange(0, i), route);
            let rdn = route_defs_of(defs, route);
            &&& rd.len() <= rdn.len()
            &&& forall|j: int| 0 <= j < rd.len() ==> #[trigger] rdn[j] == rd[j]
        }),
    decreases defs.len() - i,
{
    if i < defs.len() {
        lemma_route_defs_prefix(defs, i + 1, route);
        let a = defs.subrange(0, i);
        let b = defs.subrange(0, i + 1);
        assert(b.drop_last() =~= a);
        assert(b.last() == defs[i]);
    } else {
        assert(defs.subrange(0, defs.len() as int) =~= defs);
    }
}

/// Every route of a validated definition list appears in the grouped table
/// with a variant at the default quality.
pub proof fn lemma_validated_routes_have_default(defs: Seq<EndpointDef>, decimals: u8, r: Seq<char>)
    requires
        spec_valid(defs, decimals),
        group_spec(defs).contains_key(r),
    ensures
        group_spec(defs)[r].contains_key("low"@),
{
    lemma_group_lookup(defs, r, "low"@);
    let i = choose|i: int| 0 <= i < defs.len() && (#[trigger] defs[i]).route@ == r;
    assert(has_pair(defs, defs[i].route@, "low"@));
}

} // verus!
