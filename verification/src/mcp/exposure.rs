//! Host-owned, per-stream tool visibility. Discovery never grants execution.

use std::sync::Arc;
use vstd::prelude::*;

use crate::text::{
    chars_lt, chars_of, concat, contains_str, is_blank, is_space, is_space_char, lowercase, owned, push_char, share, share_onto,
    share_prefix, str_eq, str_is_blank, to_lowercase, trim, trimmed, views,
};
use crate::tools::{
    lemma_filter_tools_sorted, tool_named, tool_views, tools_sorted, Exposure, ToolDescriptor, ToolMap, ToolSource,
    ToolView,
};

verus! {

/// Maximum MCP descriptors advertised in one model step, excluding controls.
pub const MCP_EAGER_TOOL_LIMIT: usize = 32;
/// Maximum deferred descriptors selected by one search call.
pub const MCP_SEARCH_RESULT_LIMIT: usize = 8;
/// Bounded model input for local descriptor matching, in Unicode characters.
pub const MCP_SEARCH_QUERY_LIMIT: usize = 512;

/// Advertised to the model from the start.
pub open spec fn model_exposed(e: Exposure) -> bool {
    e == Exposure::Eager || e == Exposure::ModelOnly
}

/// The provider names of a sequence of descriptors.
pub open spec fn names_of(s: Seq<ToolView>) -> Seq<Seq<char>> {
    s.map_values(|t: ToolView| t.provider_name)
}

/// An earlier selection survives only while the host still authorizes the
/// identical, non-hidden descriptor under its name.
pub open spec fn still_selected(auth: Seq<ToolView>, s: ToolView) -> bool {
    tool_named(auth, s.provider_name) matches Some(c) && c.exposure != Exposure::Hidden && c == s
}

/// The earlier selections that survive a new authorization.
pub open spec fn kept_selection(auth: Seq<ToolView>, selected: Seq<ToolView>) -> Seq<ToolView> {
    selected.filter(|s: ToolView| still_selected(auth, s))
}

/// The names in order of first occurrence, without repeats.
pub open spec fn distinct(s: Seq<Seq<char>>) -> Seq<Seq<char>>
    decreases s.len(),
{
    if s.len() == 0 {
        s
    } else {
        let d = distinct(s.drop_last());
        if d.contains(s.last()) {
            d
        } else {
            d.push(s.last())
        }
    }
}

/// Fill the remaining eager slots with advertised MCP names in name order,
/// from position `i`, until the limit is reached.
pub open spec fn fill(auth: Seq<ToolView>, i: int, chosen: Seq<Seq<char>>) -> Seq<Seq<char>>
    decreases auth.len() - i,
{
    if i < 0 || i >= auth.len() || chosen.len() >= MCP_EAGER_TOOL_LIMIT {
        chosen
    } else if auth[i].source == ToolSource::Mcp && model_exposed(auth[i].exposure) && !chosen.contains(auth[i].provider_name) {
        fill(auth, i + 1, chosen.push(auth[i].provider_name))
    } else {
        fill(auth, i + 1, chosen)
    }
}

/// The MCP names advertised in a step: surviving selections first, then
/// eager descriptors in name order.
pub open spec fn chosen_names(auth: Seq<ToolView>, selected: Seq<ToolView>) -> Seq<Seq<char>> {
    fill(auth, 0, distinct(names_of(kept_selection(auth, selected))))
}

/// A descriptor that is model-visible in the step.
pub open spec fn shown(t: ToolView, chosen: Seq<Seq<char>>) -> bool {
    t.exposure != Exposure::Hidden && if t.source == ToolSource::Mcp {
        chosen.contains(t.provider_name)
    } else {
        model_exposed(t.exposure)
    }
}

/// An MCP descriptor that stays searchable but is not advertised.
pub open spec fn held_back(t: ToolView, chosen: Seq<Seq<char>>) -> bool {
    t.exposure != Exposure::Hidden && t.source == ToolSource::Mcp && !chosen.contains(t.provider_name)
}

pub open spec fn visible_part(auth: Seq<ToolView>, chosen: Seq<Seq<char>>) -> Seq<ToolView> {
    auth.filter(|t: ToolView| shown(t, chosen))
}

pub open spec fn deferred_part(auth: Seq<ToolView>, chosen: Seq<Seq<char>>) -> Seq<ToolView> {
    auth.filter(|t: ToolView| held_back(t, chosen))
}

/// Frozen visibility over unchanged descriptors. Safe to retain during a batch.
pub struct McpExposureSnapshot {
    visible: ToolMap,
    deferred: Vec<String>,
}

pub struct SnapshotView {
    pub visible: Seq<ToolView>,
    pub deferred: Seq<Seq<char>>,
}

/// Effective visibility of a name in a snapshot.
pub open spec fn effective_exposure(v: SnapshotView, name: Seq<char>) -> Exposure {
    match tool_named(v.visible, name) {
        Some(t) => if t.exposure == Exposure::ModelOnly {
            Exposure::ModelOnly
        } else {
            Exposure::Eager
        },
        None => if v.deferred.contains(name) {
            Exposure::Deferred
        } else {
            Exposure::Hidden
        },
    }
}

impl McpExposureSnapshot {
    pub closed spec fn view(&self) -> SnapshotView {
        SnapshotView { visible: self.visible.view(), deferred: views(self.deferred@) }
    }

    /// Model-visible and callable descriptors for this step only.
    pub fn visible(&self) -> (r: &ToolMap)
        ensures
            r.view() == self.view().visible,
    {
        &self.visible
    }

    /// Whether the host should register and advertise its model-only search tool.
    pub fn has_deferred(&self) -> (r: bool)
        ensures
            r == (self.view().deferred.len() > 0),
    {
        self.deferred.len() > 0
    }

    /// Effective visibility; absent, hidden and policy-omitted names are Hidden.
    /// The underlying descriptor's governance and declared exposure are unchanged.
    pub fn exposure(&self, name: &str) -> (r: Exposure)
        ensures
            r == effective_exposure(self.view(), name@),
    {
        match self.visible.get(name) {
            Some(tool) => if tool.exposure == Exposure::ModelOnly {
                Exposure::ModelOnly
            } else {
                Exposure::Eager
            },
            None => if contains_str(&self.deferred, name) {
                Exposure::Deferred
            } else {
                Exposure::Hidden
            },
        }
    }
}

/// What projecting the authorized descriptors `auth` does to a stream's
/// discovery state, and the snapshot it gives.
pub open spec fn projected(auth: Seq<ToolView>, e: ExposureView) -> (ExposureView, SnapshotView) {
    let chosen = chosen_names(auth, e.selected);
    (
        ExposureView { deferred: deferred_part(auth, chosen), selected: kept_selection(auth, e.selected) },
        SnapshotView { visible: visible_part(auth, chosen), deferred: names_of(deferred_part(auth, chosen)) },
    )
}

/// Per-stream discovery state: the deferred descriptors of the last
/// projection and the selections made by searches, newest first.
pub struct McpToolExposure {
    deferred: ToolMap,
    selected: Vec<Arc<ToolDescriptor>>,
}

pub struct ExposureView {
    pub deferred: Seq<ToolView>,
    pub selected: Seq<ToolView>,
}

impl McpToolExposure {
    pub closed spec fn view(&self) -> ExposureView {
        ExposureView { deferred: self.deferred.view(), selected: tool_views(self.selected@) }
    }

    /// Fresh state for one chat stream.
    pub fn new() -> (r: McpToolExposure)
        ensures
            r.view().deferred == Seq::<ToolView>::empty(),
            r.view().selected == Seq::<ToolView>::empty(),
    {
        let r = McpToolExposure { deferred: ToolMap::new(), selected: Vec::new() };
        assert(tool_views(r.selected@) =~= Seq::<ToolView>::empty());
        r
    }

    /// Freeze one host-authorized descriptor set, rechecking earlier selections.
    /// Newest search results take priority; remaining eager slots use name order.
    /// Removed or changed descriptors lose prior selection, without fallback.
    pub fn project(&mut self, authorized: &ToolMap) -> (r: McpExposureSnapshot)
        ensures
            final(self).view().selected == kept_selection(authorized.view(), old(self).view().selected),
            final(self).view().deferred == deferred_part(
                authorized.view(),
                chosen_names(authorized.view(), old(self).view().selected),
            ),
            r.view().visible == visible_part(authorized.view(), chosen_names(authorized.view(), old(self).view().selected)),
            r.view().deferred == names_of(
                deferred_part(authorized.view(), chosen_names(authorized.view(), old(self).view().selected)),
            ),
            (final(self).view(), r.view()) == projected(authorized.view(), old(self).view()),
    {
        let ghost auth = authorized.view();
        let ghost sel = tool_views(self.selected@);
        let kept = keep_authorized(authorized, &self.selected);
        let mut chosen = distinct_names(&kept);
        let entries = authorized.entries();
        let mut i: usize = 0;
        while i < entries.len() && chosen.len() < MCP_EAGER_TOOL_LIMIT
            invariant
                tool_views(entries@) == auth,
                i <= auth.len(),
                chosen_names(auth, sel) == fill(auth, i as int, views(chosen@)),
            decreases entries.len() - i,
        {
            let t = &entries[i];
            assert(auth[i as int] == t.view());
            if t.source == ToolSource::Mcp && (t.exposure == Exposure::Eager || t.exposure == Exposure::ModelOnly)
                && !contains_str(&chosen, t.provider_name.as_str()) {
                let ghost before = chosen@;
                chosen.push(owned(t.provider_name.as_str()));
                assert(views(chosen@) =~= views(before).push(auth[i as int].provider_name));
            }
            i = i + 1;
        }
        assert(chosen_names(auth, sel) == views(chosen@));
        let ghost names = views(chosen@);
        let ghost vis_pred = |t: ToolView| shown(t, names);
        let ghost def_pred = |t: ToolView| held_back(t, names);
        let mut visible: Vec<Arc<ToolDescriptor>> = Vec::new();
        let mut deferred: Vec<Arc<ToolDescriptor>> = Vec::new();
        let mut deferred_names: Vec<String> = Vec::new();
        let mut j: usize = 0;
        while j < entries.len()
            invariant
                tool_views(entries@) == auth,
                names == views(chosen@),
                vis_pred == (|t: ToolView| shown(t, names)),
                def_pred == (|t: ToolView| held_back(t, names)),
                j <= auth.len(),
                tool_views(visible@) == auth.subrange(0, j as int).filter(vis_pred),
                tool_views(deferred@) == auth.subrange(0, j as int).filter(def_pred),
                views(deferred_names@) == names_of(tool_views(deferred@)),
            decreases entries.len() - j,
        {
            let t = &entries[j];
            let ghost pre = auth.subrange(0, j + 1);
            assert(pre.drop_last() =~= auth.subrange(0, j as int));
            assert(pre.last() == t.view());
            proof {
                reveal(Seq::filter);
            }
            if t.exposure != Exposure::Hidden {
                if t.source == ToolSource::Mcp {
                    if contains_str(&chosen, t.provider_name.as_str()) {
                        let ghost before = visible@;
                        visible.push(share(t));
                        assert(tool_views(visible@) =~= tool_views(before).push(t.view()));
                    } else {
                        let ghost before = deferred@;
                        let ghost before_names = deferred_names@;
                        deferred.push(share(t));
                        deferred_names.push(owned(t.provider_name.as_str()));
                        assert(tool_views(deferred@) =~= tool_views(before).push(t.view()));
                        assert(views(deferred_names@) =~= views(before_names).push(t.view().provider_name));
                        assert(names_of(tool_views(deferred@)) =~= names_of(tool_views(before)).push(t.view().provider_name));
                    }
                } else if t.exposure == Exposure::Eager || t.exposure == Exposure::ModelOnly {
                    let ghost before = visible@;
                    visible.push(share(t));
                    assert(tool_views(visible@) =~= tool_views(before).push(t.view()));
                }
            }
            j = j + 1;
        }
        assert(auth.subrange(0, auth.len() as int) =~= auth);
        proof {
            lemma_filter_tools_sorted(auth, vis_pred);
            lemma_filter_tools_sorted(auth, def_pred);
        }
        self.selected = kept;
        self.deferred = ToolMap::from_sorted(deferred);
        McpExposureSnapshot { visible: ToolMap::from_sorted(visible), deferred: deferred_names }
    }
}

/// The earlier selections that the authorized set still holds unchanged.
fn keep_authorized(authorized: &ToolMap, selected: &Vec<Arc<ToolDescriptor>>) -> (r: Vec<Arc<ToolDescriptor>>)
    ensures
        tool_views(r@) == kept_selection(authorized.view(), tool_views(selected@)),
{
    let ghost auth = authorized.view();
    let ghost sv = tool_views(selected@);
    let ghost pred = |s: ToolView| still_selected(auth, s);
    let mut kept: Vec<Arc<ToolDescriptor>> = Vec::new();
    let mut i: usize = 0;
    while i < selected.len()
        invariant
            auth == authorized.view(),
            sv == tool_views(selected@),
            pred == (|s: ToolView| still_selected(auth, s)),
            i <= sv.len(),
            tool_views(kept@) == sv.subrange(0, i as int).filter(pred),
        decreases selected.len() - i,
    {
        let s = &selected[i];
        let ghost pre = sv.subrange(0, i + 1);
        assert(pre.drop_last() =~= sv.subrange(0, i as int));
        assert(pre.last() == s.view());
        proof {
            reveal(Seq::filter);
        }
        let keep = match authorized.get(s.provider_name.as_str()) {
            Some(current) => current.exposure != Exposure::Hidden && current.equivalent_to(s),
            None => false,
        };
        if keep {
            let ghost before = kept@;
            kept.push(share(s));
            assert(tool_views(kept@) =~= tool_views(before).push(s.view()));
        }
        i = i + 1;
    }
    assert(sv.subrange(0, sv.len() as int) =~= sv);
    kept
}

/// The provider names of the descriptors, first occurrences only.
fn distinct_names(tools: &Vec<Arc<ToolDescriptor>>) -> (r: Vec<String>)
    ensures
        views(r@) == distinct(names_of(tool_views(tools@))),
{
    let ghost ns = names_of(tool_views(tools@));
    let mut out: Vec<String> = Vec::new();
    let mut i: usize = 0;
    while i < tools.len()
        invariant
            ns == names_of(tool_views(tools@)),
            i <= ns.len(),
            views(out@) == distinct(ns.subrange(0, i as int)),
        decreases tools.len() - i,
    {
        let ghost pre = ns.subrange(0, i + 1);
        assert(pre.drop_last() =~= ns.subrange(0, i as int));
        assert(pre.last() == tools@[i as int].view().provider_name);
        if !contains_str(&out, tools[i].provider_name.as_str()) {
            let ghost before = out@;
            out.push(owned(tools[i].provider_name.as_str()));
            assert(views(out@) =~= views(before).push(pre.last()));
        }
        i = i + 1;
    }
    assert(ns.subrange(0, ns.len() as int) =~= ns);
    out
}

/// A search was refused; the query itself is never echoed.
pub enum SearchError {
    /// Blank, or longer than the query limit.
    InvalidQuery,
}

impl SearchError {
    /// The human-readable reason.
    pub fn message(&self) -> (r: String)
        ensures
            r@ == self.message_text(),
    {
        owned("query must contain 1 to 512 characters and not be blank")
    }

    pub open spec fn message_text(&self) -> Seq<char> {
        "query must contain 1 to 512 characters and not be blank"@
    }
}

/// A query the search accepts: not blank, and within the character limit.
pub open spec fn query_accepted(q: Seq<char>) -> bool {
    !is_blank(q) && q.len() <= MCP_SEARCH_QUERY_LIMIT
}

/// The normalized query: trimmed, then lowercased.
pub open spec fn search_query(q: Seq<char>) -> Seq<char> {
    lowercase(trimmed(q))
}

/// Whitespace-separated words from position `i`, with the word in progress
/// and those already complete.
pub open spec fn words_from(s: Seq<char>, i: int, cur: Seq<char>, acc: Seq<Seq<char>>) -> Seq<Seq<char>>
    decreases s.len() - i,
{
    if i < 0 || i >= s.len() {
        if cur.len() > 0 { acc.push(cur) } else { acc }
    } else if is_space(s[i]) {
        words_from(s, i + 1, Seq::empty(), if cur.len() > 0 { acc.push(cur) } else { acc })
    } else {
        words_from(s, i + 1, cur.push(s[i]), acc)
    }
}

/// `str::split_whitespace`: the maximal runs of non-whitespace characters.
pub open spec fn words(s: Seq<char>) -> Seq<Seq<char>> {
    words_from(s, 0, Seq::empty(), Seq::empty())
}

/// `t` occurs in `s` as a contiguous substring.
pub open spec fn has_sub(s: Seq<char>, t: Seq<char>) -> bool {
    exists|i: int| 0 <= i && i + t.len() <= s.len() && #[trigger] s.subrange(i, i + t.len()) == t
}

/// Every term occurs in `s`.
pub open spec fn all_terms_in(terms: Seq<Seq<char>>, s: Seq<char>) -> bool {
    forall|k: int| 0 <= k < terms.len() ==> has_sub(s, #[trigger] terms[k])
}

/// The rank of a match, over already lowercased texts: exact provider name
/// first, then identity matches, then descriptive matches; `None` when some
/// term is missing.
pub open spec fn match_rank(
    query: Seq<char>,
    terms: Seq<Seq<char>>,
    name: Seq<char>,
    identity: Seq<char>,
    searchable: Seq<char>,
) -> Option<u8> {
    if !all_terms_in(terms, searchable) {
        None
    } else if name == query {
        Some(0u8)
    } else if all_terms_in(terms, identity) {
        Some(1u8)
    } else {
        Some(2u8)
    }
}

pub open spec fn server_text(s: Option<Seq<char>>) -> Seq<char> {
    match s {
        Some(x) => x,
        None => Seq::empty(),
    }
}

/// Lowercased name, identity and server, separated by spaces.
pub open spec fn identity_text(t: ToolView) -> Seq<char> {
    lowercase(lowercase(t.provider_name) + seq![' '] + t.id + seq![' '] + server_text(t.server))
}

/// The identity followed by the lowercased description.
pub open spec fn searchable_text(t: ToolView) -> Seq<char> {
    identity_text(t) + seq![' '] + lowercase(t.description)
}

pub open spec fn tool_rank(q: Seq<char>, t: ToolView) -> Option<u8> {
    match_rank(q, words(q), lowercase(t.provider_name), identity_text(t), searchable_text(t))
}

/// The deferred tools of one rank, in name order.
pub open spec fn rank_class(q: Seq<char>, ts: Seq<ToolView>, k: u8) -> Seq<ToolView> {
    ts.filter(|t: ToolView| tool_rank(q, t) == Some(k))
}

/// The matches, best rank first and by name within a rank, at most the limit.
pub open spec fn search_hits(q: Seq<char>, ts: Seq<ToolView>) -> Seq<ToolView> {
    let all = rank_class(q, ts, 0) + rank_class(q, ts, 1) + rank_class(q, ts, 2);
    if all.len() <= MCP_SEARCH_RESULT_LIMIT {
        all
    } else {
        all.take(MCP_SEARCH_RESULT_LIMIT as int)
    }
}

/// New matches first, then the earlier selections under other names, at
/// most the eager limit.
pub open spec fn reselected(hits: Seq<ToolView>, selected: Seq<ToolView>) -> Seq<ToolView> {
    let all = hits + selected.filter(|p: ToolView| !names_of(hits).contains(p.provider_name));
    if all.len() <= MCP_EAGER_TOOL_LIMIT {
        all
    } else {
        all.take(MCP_EAGER_TOOL_LIMIT as int)
    }
}

/// Whether `t` occurs in `s`.
pub fn has_substring(s: &str, t: &str) -> (r: bool)
    ensures
        r == has_sub(s@, t@),
{
    let a = chars_of(s);
    let b = chars_of(t);
    let n = a.len();
    let m = b.len();
    if m == 0 {
        assert(s@.subrange(0, 0 + t@.len() as int) =~= t@);
        assert(has_sub(s@, t@));
        return true;
    }
    if m > n {
        return false;
    }
    let last = n - m;
    let mut i: usize = 0;
    while i <= last
        invariant
            a@ == s@,
            b@ == t@,
            n == a@.len(),
            m == b@.len(),
            0 < m <= n,
            last == n - m,
            i <= last + 1,
            forall|j: int| 0 <= j < i && j + m <= n ==> #[trigger] s@.subrange(j, j + m) != t@,
        decreases last + 1 - i,
    {
        let mut k: usize = 0;
        let mut same = true;
        while k < m && same
            invariant
                a@ == s@,
                b@ == t@,
                n == a@.len(),
                m == b@.len(),
                i + m <= n,
                k <= m,
                same ==> forall|q: int| 0 <= q < k ==> a@[i + q] == b@[q],
                !same ==> s@.subrange(i as int, i + m) != t@,
            decreases m - k + (if same { 1usize } else { 0usize }),
        {
            if a[i + k] != b[k] {
                assert(s@.subrange(i as int, i + m)[k as int] == a@[i + k]);
                same = false;
            } else {
                k = k + 1;
            }
        }
        if same {
            assert(s@.subrange(i as int, i + m) =~= t@);
            return true;
        }
        i = i + 1;
    }
    proof {
        assert forall|j: int| 0 <= j && j + t@.len() <= s@.len() implies #[trigger] s@.subrange(j, j + t@.len()) != t@ by {
            assert(j < i);
        }
    }
    false
}

/// Whether every term occurs in `s`.
pub fn all_found(terms: &Vec<String>, s: &str) -> (r: bool)
    ensures
        r == all_terms_in(views(terms@), s@),
{
    let ghost tv = views(terms@);
    let mut k: usize = 0;
    while k < terms.len()
        invariant
            tv == views(terms@),
            k <= tv.len(),
            forall|j: int| 0 <= j < k ==> has_sub(s@, #[trigger] tv[j]),
        decreases terms.len() - k,
    {
        assert(tv[k as int] == terms@[k as int]@);
        if !has_substring(s, terms[k].as_str()) {
            return false;
        }
        k = k + 1;
    }
    true
}

/// Rank a descriptor against a query; every argument is already lowercased.
pub fn search_rank(query: &str, terms: &Vec<String>, name: &str, identity: &str, searchable: &str) -> (r: Option<u8>)
    ensures
        r == match_rank(query@, views(terms@), name@, identity@, searchable@),
{
    if !all_found(terms, searchable) {
        None
    } else if str_eq(name, query) {
        Some(0)
    } else if all_found(terms, identity) {
        Some(1)
    } else {
        Some(2)
    }
}

/// `str::split_whitespace`, collected.
pub fn split_words(s: &str) -> (r: Vec<String>)
    ensures
        views(r@) == words(s@),
{
    let v = chars_of(s);
    let mut acc: Vec<String> = Vec::new();
    let mut cur = String::new();
    let mut cur_len: usize = 0;
    let mut i: usize = 0;
    assert(views(acc@) =~= Seq::<Seq<char>>::empty());
    assert(cur@ =~= Seq::<char>::empty());
    while i < v.len()
        invariant
            v@ == s@,
            i <= v@.len(),
            cur_len == cur@.len(),
            cur_len <= i,
            words(s@) == words_from(s@, i as int, cur@, views(acc@)),
        decreases v.len() - i,
    {
        if is_space_char(v[i]) {
            if cur_len > 0 {
                let ghost before = acc@;
                let done = cur;
                acc.push(done);
                assert(views(acc@) =~= views(before).push(done@));
                cur = String::new();
                cur_len = 0;
                assert(cur@ =~= Seq::<char>::empty());
            } else {
                assert(cur@ =~= Seq::<char>::empty());
            }
        } else {
            push_char(&mut cur, v[i]);
            cur_len = cur_len + 1;
        }
        i = i + 1;
    }
    if cur_len > 0 {
        let ghost before = acc@;
        let done = cur;
        acc.push(done);
        assert(views(acc@) =~= views(before).push(done@));
    }
    acc
}

/// The lowercased identity text of a descriptor.
fn identity_of(t: &ToolDescriptor, name: &str) -> (r: String)
    requires
        name@ == lowercase(t.view().provider_name),
    ensures
        r@ == identity_text(t.view()),
{
    let mut raw = owned(name);
    push_char(&mut raw, ' ');
    let mut raw = concat(raw.as_str(), t.id.as_str());
    push_char(&mut raw, ' ');
    let raw = match &t.server {
        Some(s) => concat(raw.as_str(), s.as_str()),
        None => raw,
    };
    assert(raw@ =~= lowercase(t.view().provider_name) + seq![' '] + t.view().id + seq![' '] + server_text(t.view().server));
    to_lowercase(raw.as_str())
}

impl McpToolExposure {
    /// Select matching deferred tools for the next projection, without I/O.
    /// All query terms must match the name, ID, server or description. Exact
    /// provider-name matches rank first, then names, then descriptive matches.
    /// Rejects blank or oversized model input.
    pub fn search(&mut self, query: &str) -> (r: Result<Vec<Arc<ToolDescriptor>>, SearchError>)
        ensures
            match r {
                Ok(hits) => query_accepted(query@)
                    && tool_views(hits@) == search_hits(search_query(query@), old(self).view().deferred)
                    && final(self).view().selected == reselected(tool_views(hits@), old(self).view().selected)
                    && final(self).view().deferred == old(self).view().deferred,
                Err(e) => !query_accepted(query@) && final(self).view() == old(self).view(),
            },
    {
        if str_is_blank(query) || chars_of(query).len() > MCP_SEARCH_QUERY_LIMIT {
            return Err(SearchError::InvalidQuery);
        }
        let trimmed_query = trim(query);
        let q = to_lowercase(trimmed_query.as_str());
        let terms = split_words(q.as_str());
        let entries = self.deferred.entries();
        let ghost ts = self.deferred.view();
        let ghost qv = q@;
        let mut exact: Vec<Arc<ToolDescriptor>> = Vec::new();
        let mut named: Vec<Arc<ToolDescriptor>> = Vec::new();
        let mut described: Vec<Arc<ToolDescriptor>> = Vec::new();
        let mut i: usize = 0;
        while i < entries.len()
            invariant
                tool_views(entries@) == ts,
                qv == q@,
                views(terms@) == words(qv),
                i <= ts.len(),
                tool_views(exact@) == rank_class(qv, ts.subrange(0, i as int), 0),
                tool_views(named@) == rank_class(qv, ts.subrange(0, i as int), 1),
                tool_views(described@) == rank_class(qv, ts.subrange(0, i as int), 2),
            decreases entries.len() - i,
        {
            let t = &entries[i];
            let ghost pre = ts.subrange(0, i + 1);
            assert(pre.drop_last() =~= ts.subrange(0, i as int));
            assert(pre.last() == t.view());
            proof {
                reveal(Seq::filter);
            }
            let name = to_lowercase(t.provider_name.as_str());
            let identity = identity_of(t, name.as_str());
            let mut searchable = identity.clone();
            push_char(&mut searchable, ' ');
            let description = to_lowercase(t.description.as_str());
            let searchable = concat(searchable.as_str(), description.as_str());
            assert(searchable@ =~= searchable_text(t.view()));
            let rank = search_rank(q.as_str(), &terms, name.as_str(), identity.as_str(), searchable.as_str());
            assert(rank == tool_rank(qv, t.view()));
            match rank {
                Some(0) => {
                    let ghost before = exact@;
                    exact.push(share(t));
                    assert(tool_views(exact@) =~= tool_views(before).push(t.view()));
                },
                Some(1) => {
                    let ghost before = named@;
                    named.push(share(t));
                    assert(tool_views(named@) =~= tool_views(before).push(t.view()));
                },
                Some(_) => {
                    let ghost before = described@;
                    described.push(share(t));
                    assert(tool_views(described@) =~= tool_views(before).push(t.view()));
                },
                None => {},
            }
            i = i + 1;
        }
        assert(ts.subrange(0, ts.len() as int) =~= ts);
        let mut all = exact;
        share_onto(&mut all, &named);
        share_onto(&mut all, &described);
        assert(tool_views(all@) =~= rank_class(qv, ts, 0) + rank_class(qv, ts, 1) + rank_class(qv, ts, 2));
        let hits = share_prefix(&all, MCP_SEARCH_RESULT_LIMIT);
        assert(tool_views(hits@) =~= search_hits(qv, ts));
        self.reselect(&hits);
        Ok(hits)
    }

    /// Put new matches first, drop earlier selections under their names, and
    /// keep at most the eager limit.
    fn reselect(&mut self, hits: &Vec<Arc<ToolDescriptor>>)
        ensures
            final(self).view().selected == reselected(tool_views(hits@), old(self).view().selected),
            final(self).view().deferred == old(self).view().deferred,
    {
        let ghost hv = tool_views(hits@);
        let ghost sv = tool_views(self.selected@);
        let ghost pred = |p: ToolView| !names_of(hv).contains(p.provider_name);
        let mut hit_names: Vec<String> = Vec::new();
        let mut k: usize = 0;
        while k < hits.len()
            invariant
                hv == tool_views(hits@),
                k <= hv.len(),
                views(hit_names@) == names_of(hv).subrange(0, k as int),
            decreases hits.len() - k,
        {
            let ghost before = hit_names@;
            assert(hv[k as int] == hits@[k as int].view());
            hit_names.push(owned(hits[k].provider_name.as_str()));
            assert(views(hit_names@) =~= views(before).push(hv[k as int].provider_name));
            assert(names_of(hv).subrange(0, k + 1) =~= names_of(hv).subrange(0, k as int).push(hv[k as int].provider_name));
            k = k + 1;
        }
        assert(names_of(hv).subrange(0, hv.len() as int) =~= names_of(hv));
        let mut rest: Vec<Arc<ToolDescriptor>> = Vec::new();
        let mut i: usize = 0;
        while i < self.selected.len()
            invariant
                hv == tool_views(hits@),
                sv == tool_views(self.selected@),
                views(hit_names@) == names_of(hv),
                pred == (|p: ToolView| !names_of(hv).contains(p.provider_name)),
                i <= sv.len(),
                tool_views(rest@) == sv.subrange(0, i as int).filter(pred),
            decreases self.selected.len() - i,
        {
            let p = &self.selected[i];
            let ghost pre = sv.subrange(0, i + 1);
            assert(pre.drop_last() =~= sv.subrange(0, i as int));
            assert(pre.last() == p.view());
            proof {
                reveal(Seq::filter);
            }
            if !contains_str(&hit_names, p.provider_name.as_str()) {
                let ghost before = rest@;
                rest.push(share(p));
                assert(tool_views(rest@) =~= tool_views(before).push(p.view()));
            }
            i = i + 1;
        }
        assert(sv.subrange(0, sv.len() as int) =~= sv);
        let mut all: Vec<Arc<ToolDescriptor>> = Vec::new();
        share_onto(&mut all, hits);
        share_onto(&mut all, &rest);
        assert(tool_views(all@) =~= hv + sv.filter(pred));
        let kept = share_prefix(&all, MCP_EAGER_TOOL_LIMIT);
        assert(tool_views(kept@) =~= reselected(hv, sv));
        self.selected = kept;
    }
}

/// Membership in a filtered sequence.
proof fn lemma_in_filter(s: Seq<ToolView>, pred: spec_fn(ToolView) -> bool, x: ToolView)
    ensures
        s.filter(pred).contains(x) <==> s.contains(x) && pred(x),
{
    broadcast use vstd::seq_lib::group_filter_ensures;
    if s.filter(pred).contains(x) {
        s.lemma_filter_contains_rev(pred, x);
        let k = choose|k: int| 0 <= k < s.filter(pred).len() && s.filter(pred)[k] == x;
        assert(pred(s.filter(pred)[k]));
    }
    if s.contains(x) && pred(x) {
        let k = choose|k: int| 0 <= k < s.len() && s[k] == x;
        s.lemma_filter_contains(pred, k);
    }
}

/// A snapshot never shows or defers a name that the host did not authorize,
/// or authorized only as hidden: its effective exposure is `Hidden`.
pub proof fn law_unauthorized_names_stay_hidden(auth: Seq<ToolView>, selected: Seq<ToolView>, name: Seq<char>)
    requires
        tools_sorted(auth),
        tool_named(auth, name) matches Some(t) ==> t.exposure == Exposure::Hidden,
    ensures
        effective_exposure(
            SnapshotView {
                visible: visible_part(auth, chosen_names(auth, selected)),
                deferred: names_of(deferred_part(auth, chosen_names(auth, selected))),
            },
            name,
        ) == Exposure::Hidden,
{
    let c = chosen_names(auth, selected);
    let vis = visible_part(auth, c);
    let def = deferred_part(auth, c);
    crate::tools::lemma_tool_named(auth, name);
    crate::tools::lemma_tool_named(vis, name);
    if let Some(t) = tool_named(vis, name) {
        lemma_in_filter(auth, |t: ToolView| shown(t, c), t);
        let k = choose|k: int| 0 <= k < auth.len() && auth[k] == t;
        assert(auth[k].provider_name == name);
    }
    if names_of(def).contains(name) {
        let j = choose|j: int| 0 <= j < names_of(def).len() && names_of(def)[j] == name;
        assert(def.contains(def[j]));
        lemma_in_filter(auth, |t: ToolView| held_back(t, c), def[j]);
        let k = choose|k: int| 0 <= k < auth.len() && auth[k] == def[j];
        assert(auth[k].provider_name == name);
    }
}

/// A search returns at most the result limit, and only deferred descriptors.
pub proof fn law_search_hits_are_deferred(q: Seq<char>, ts: Seq<ToolView>)
    ensures
        search_hits(q, ts).len() <= MCP_SEARCH_RESULT_LIMIT,
        forall|x: ToolView| #[trigger] search_hits(q, ts).contains(x) ==> ts.contains(x),
{
    let a = rank_class(q, ts, 0);
    let b = rank_class(q, ts, 1);
    let c = rank_class(q, ts, 2);
    let all = a + b + c;
    assert forall|x: ToolView| #[trigger] search_hits(q, ts).contains(x) implies ts.contains(x) by {
        let h = search_hits(q, ts);
        let j = choose|j: int| 0 <= j < h.len() && h[j] == x;
        assert(all.contains(x)) by {
            assert(all[j] == x);
        }
        let i = choose|i: int| 0 <= i < all.len() && all[i] == x;
        if i < a.len() {
            assert(a.contains(x));
            lemma_in_filter(ts, |t: ToolView| tool_rank(q, t) == Some(0u8), x);
        } else if i < a.len() + b.len() {
            assert(b[i - a.len()] == x);
            assert(b.contains(x));
            lemma_in_filter(ts, |t: ToolView| tool_rank(q, t) == Some(1u8), x);
        } else {
            assert(c[i - a.len() - b.len()] == x);
            assert(c.contains(x));
            lemma_in_filter(ts, |t: ToolView| tool_rank(q, t) == Some(2u8), x);
        }
    }
}

proof fn lemma_distinct_len(s: Seq<Seq<char>>)
    ensures
        distinct(s).len() <= s.len(),
    decreases s.len(),
{
    if s.len() > 0 {
        lemma_distinct_len(s.drop_last());
    }
}

proof fn lemma_fill_len(auth: Seq<ToolView>, i: int, chosen: Seq<Seq<char>>)
    requires
        chosen.len() <= MCP_EAGER_TOOL_LIMIT,
    ensures
        fill(auth, i, chosen).len() <= MCP_EAGER_TOOL_LIMIT,
    decreases auth.len() - i,
{
    if 0 <= i < auth.len() && chosen.len() < MCP_EAGER_TOOL_LIMIT {
        if auth[i].source == ToolSource::Mcp && model_exposed(auth[i].exposure) && !chosen.contains(auth[i].provider_name) {
            lemma_fill_len(auth, i + 1, chosen.push(auth[i].provider_name));
        } else {
            lemma_fill_len(auth, i + 1, chosen);
        }
    }
}

/// At most the eager limit of MCP names is advertised in a step, as long as
/// the stream's selections are within that limit, which searches maintain.
pub proof fn law_advertised_names_are_bounded(auth: Seq<ToolView>, selected: Seq<ToolView>)
    requires
        selected.len() <= MCP_EAGER_TOOL_LIMIT,
    ensures
        chosen_names(auth, selected).len() <= MCP_EAGER_TOOL_LIMIT,
{
    broadcast use vstd::seq_lib::group_filter_ensures;
    let kept = kept_selection(auth, selected);
    lemma_distinct_len(names_of(kept));
    lemma_fill_len(auth, 0, distinct(names_of(kept)));
}

/// Searches keep the selection within the eager limit, newest matches first.
pub proof fn law_reselection_is_bounded(hits: Seq<ToolView>, selected: Seq<ToolView>)
    requires
        hits.len() <= MCP_EAGER_TOOL_LIMIT,
    ensures
        reselected(hits, selected).len() <= MCP_EAGER_TOOL_LIMIT,
        reselected(hits, selected).subrange(0, hits.len() as int) == hits,
{
    let all = hits + selected.filter(|p: ToolView| !names_of(hits).contains(p.provider_name));
    assert(all.subrange(0, hits.len() as int) =~= hits);
    if all.len() > MCP_EAGER_TOOL_LIMIT {
        assert(all.take(MCP_EAGER_TOOL_LIMIT as int).subrange(0, hits.len() as int) =~= hits);
    }
}

/// The snapshot that projecting `auth` with these advertised names gives.
pub open spec fn snapshot_of(auth: Seq<ToolView>, chosen: Seq<Seq<char>>) -> SnapshotView {
    SnapshotView { visible: visible_part(auth, chosen), deferred: names_of(deferred_part(auth, chosen)) }
}

/// A deferred name is never also visible: its effective exposure is
/// `Deferred`. So the search tool is offered exactly when some name is
/// deferred.
pub proof fn law_deferred_names_are_not_visible(auth: Seq<ToolView>, chosen: Seq<Seq<char>>, name: Seq<char>)
    requires
        tools_sorted(auth),
    ensures
        snapshot_of(auth, chosen).deferred.contains(name) ==> tool_named(snapshot_of(auth, chosen).visible, name) is None
            && effective_exposure(snapshot_of(auth, chosen), name) == Exposure::Deferred,
        (snapshot_of(auth, chosen).deferred.len() > 0) <==> exists|n: Seq<char>|
            #[trigger] effective_exposure(snapshot_of(auth, chosen), n) == Exposure::Deferred,
        (snapshot_of(auth, chosen).deferred.len() > 0) <==> exists|k: int|
            0 <= k < auth.len() && #[trigger] effective_exposure(snapshot_of(auth, chosen), auth[k].provider_name) == Exposure::Deferred,
{
    let sv = snapshot_of(auth, chosen);
    let vis = visible_part(auth, chosen);
    let def = deferred_part(auth, chosen);
    assert forall|n: Seq<char>| sv.deferred.contains(n) implies tool_named(vis, n) is None by {
        let j = choose|j: int| 0 <= j < names_of(def).len() && names_of(def)[j] == n;
        assert(def.contains(def[j]));
        lemma_in_filter(auth, |t: ToolView| held_back(t, chosen), def[j]);
        let k = choose|k: int| 0 <= k < auth.len() && auth[k] == def[j];
        crate::tools::lemma_tool_named(vis, n);
        if let Some(t) = tool_named(vis, n) {
            lemma_in_filter(auth, |t: ToolView| shown(t, chosen), t);
            let m = choose|m: int| 0 <= m < auth.len() && auth[m] == t;
            if m != k {
                if m < k {
                    assert(chars_lt(auth[m].provider_name, auth[k].provider_name));
                } else {
                    assert(chars_lt(auth[k].provider_name, auth[m].provider_name));
                }
                crate::text::lemma_chars_lt_irreflexive(n);
            }
        }
    }
    if sv.deferred.len() > 0 {
        let n = sv.deferred[0];
        assert(sv.deferred.contains(n));
        assert(effective_exposure(sv, n) == Exposure::Deferred);
        assert(names_of(def)[0] == def[0].provider_name);
        assert(def.contains(def[0]));
        lemma_in_filter(auth, |t: ToolView| held_back(t, chosen), def[0]);
        let k = choose|k: int| 0 <= k < auth.len() && auth[k] == def[0];
        assert(effective_exposure(sv, auth[k].provider_name) == Exposure::Deferred);
    }
}

/// Every name of the sequence survives removing repeats.
proof fn lemma_distinct_contains(s: Seq<Seq<char>>, x: Seq<char>)
    requires
        s.contains(x),
    ensures
        distinct(s).contains(x),
    decreases s.len(),
{
    if s.last() == x {
        if !distinct(s.drop_last()).contains(x) {
            assert(distinct(s) == distinct(s.drop_last()).push(x));
            assert(distinct(s)[distinct(s).len() - 1] == x);
        }
    } else {
        let j = choose|j: int| 0 <= j < s.len() && s[j] == x;
        assert(s.drop_last()[j] == x);
        lemma_distinct_contains(s.drop_last(), x);
        let d = distinct(s.drop_last());
        let k = choose|k: int| 0 <= k < d.len() && d[k] == x;
        if !d.contains(s.last()) {
            assert(d.push(s.last())[k] == x);
        }
    }
}

/// Filling eager slots only adds names.
proof fn lemma_fill_keeps(auth: Seq<ToolView>, i: int, chosen: Seq<Seq<char>>, x: Seq<char>)
    requires
        chosen.contains(x),
    ensures
        fill(auth, i, chosen).contains(x),
    decreases auth.len() - i,
{
    if 0 <= i < auth.len() && chosen.len() < MCP_EAGER_TOOL_LIMIT {
        if auth[i].source == ToolSource::Mcp && model_exposed(auth[i].exposure) && !chosen.contains(auth[i].provider_name) {
            let k = choose|k: int| 0 <= k < chosen.len() && chosen[k] == x;
            assert(chosen.push(auth[i].provider_name)[k] == x);
            lemma_fill_keeps(auth, i + 1, chosen.push(auth[i].provider_name), x);
        } else {
            lemma_fill_keeps(auth, i + 1, chosen, x);
        }
    }
}

/// Search results survive into the next step: an MCP descriptor that the
/// last search returned, and that the host still authorizes unchanged and
/// not hidden, is visible after the next projection, ahead of the eager
/// slots filled in name order.
pub proof fn law_selections_are_visible_after_projection(auth: Seq<ToolView>, hits: Seq<ToolView>, selected: Seq<ToolView>, t: ToolView)
    requires
        tools_sorted(auth),
        hits.len() <= MCP_EAGER_TOOL_LIMIT,
        hits.contains(t),
        still_selected(auth, t),
        t.source == ToolSource::Mcp,
    ensures
        tool_named(visible_part(auth, chosen_names(auth, reselected(hits, selected))), t.provider_name) == Some(t),
{
    let sel = reselected(hits, selected);
    law_reselection_is_bounded(hits, selected);
    let j = choose|j: int| 0 <= j < hits.len() && hits[j] == t;
    assert(sel.subrange(0, hits.len() as int)[j] == t);
    assert(sel[j] == t);
    let pred = |s: ToolView| still_selected(auth, s);
    let kept = sel.filter(pred);
    lemma_in_filter(sel, pred, t);
    let k = choose|k: int| 0 <= k < kept.len() && kept[k] == t;
    assert(names_of(kept)[k] == t.provider_name);
    lemma_distinct_contains(names_of(kept), t.provider_name);
    let c = chosen_names(auth, sel);
    lemma_fill_keeps(auth, 0, distinct(names_of(kept)), t.provider_name);
    crate::tools::lemma_tool_named(auth, t.provider_name);
    let vp = |u: ToolView| shown(u, c);
    assert(shown(t, c));
    lemma_in_filter(auth, vp, t);
    crate::tools::lemma_filter_tools_sorted(auth, vp);
    let vis = visible_part(auth, c);
    let m = choose|m: int| 0 <= m < vis.len() && vis[m] == t;
    crate::tools::lemma_tool_named(vis, t.provider_name);
}

/// An MCP descriptor advertised from the start of a stream.
pub open spec fn eager_candidate(t: ToolView) -> bool {
    t.source == ToolSource::Mcp && model_exposed(t.exposure)
}

/// At most the eager limit of names, from the front.
pub open spec fn first_slots(s: Seq<Seq<char>>) -> Seq<Seq<char>> {
    if s.len() <= MCP_EAGER_TOOL_LIMIT {
        s
    } else {
        s.take(MCP_EAGER_TOOL_LIMIT as int)
    }
}

proof fn lemma_fill_from_scratch(auth: Seq<ToolView>, i: int)
    requires
        tools_sorted(auth),
        0 <= i <= auth.len(),
    ensures
        fill(auth, i, first_slots(names_of(auth.subrange(0, i).filter(|t: ToolView| eager_candidate(t))))) == first_slots(
            names_of(auth.filter(|t: ToolView| eager_candidate(t))),
        ),
    decreases auth.len() - i,
{
    let p = |t: ToolView| eager_candidate(t);
    let pre = auth.subrange(0, i);
    let rest = auth.subrange(i, auth.len() as int);
    assert(auth =~= pre + rest);
    broadcast use vstd::seq_lib::group_filter_ensures;
    Seq::filter_distributes_over_add(pre, rest, p);
    let c = first_slots(names_of(pre.filter(p)));
    let full = names_of(auth.filter(p));
    assert(names_of(pre.filter(p)) + names_of(rest.filter(p)) =~= full);
    if i == auth.len() {
        assert(pre =~= auth);
    } else if c.len() >= MCP_EAGER_TOOL_LIMIT {
        assert(names_of(pre.filter(p)).len() >= MCP_EAGER_TOOL_LIMIT);
        assert(c =~= full.take(MCP_EAGER_TOOL_LIMIT as int));
    } else {
        assert(c == names_of(pre.filter(p)));
        let next = auth.subrange(0, i + 1);
        assert(next.drop_last() =~= pre);
        reveal(Seq::filter);
        if p(auth[i]) {
            let n = auth[i].provider_name;
            if c.contains(n) {
                let k = choose|k: int| 0 <= k < c.len() && c[k] == n;
                let u = pre.filter(p)[k];
                assert(pre.filter(p).contains(u));
                pre.lemma_filter_contains_rev(p, u);
                let j = choose|j: int| 0 <= j < pre.len() && pre[j] == u;
                assert(auth[j] == u);
                assert(chars_lt(auth[j].provider_name, auth[i].provider_name));
                crate::text::lemma_chars_lt_irreflexive(n);
            }
            assert(next.filter(p) == pre.filter(p).push(auth[i]));
            assert(names_of(next.filter(p)) =~= c.push(n));
            lemma_fill_from_scratch(auth, i + 1);
        } else {
            assert(next.filter(p) == pre.filter(p));
            lemma_fill_from_scratch(auth, i + 1);
        }
    }
}

/// Without any search, a step advertises the first eager-limit MCP names
/// that are advertised from the start, in name order.
pub proof fn law_fresh_streams_advertise_in_name_order(auth: Seq<ToolView>)
    requires
        tools_sorted(auth),
    ensures
        chosen_names(auth, Seq::empty()) == first_slots(names_of(auth.filter(|t: ToolView| eager_candidate(t)))),
{
    let p = |t: ToolView| eager_candidate(t);
    reveal(Seq::filter);
    assert(kept_selection(auth, Seq::empty()) =~= Seq::<ToolView>::empty());
    assert(names_of(Seq::<ToolView>::empty()) =~= Seq::<Seq<char>>::empty());
    assert(auth.subrange(0, 0).filter(p) =~= Seq::<ToolView>::empty());
    assert(first_slots(names_of(auth.subrange(0, 0).filter(p))) =~= Seq::<Seq<char>>::empty());
    lemma_fill_from_scratch(auth, 0);
}

/// Projection neither invents nor alters a descriptor: every visible
/// descriptor is one of the authorized ones, unchanged, and every deferred
/// name is the name of an authorized descriptor.
pub proof fn law_projection_stays_within_the_authorized(auth: Seq<ToolView>, chosen: Seq<Seq<char>>)
    ensures
        forall|t: ToolView| #[trigger] snapshot_of(auth, chosen).visible.contains(t) ==> auth.contains(t),
        forall|n: Seq<char>| #[trigger] snapshot_of(auth, chosen).deferred.contains(n) ==> names_of(auth).contains(n),
{
    let def = deferred_part(auth, chosen);
    assert forall|t: ToolView| #[trigger] snapshot_of(auth, chosen).visible.contains(t) implies auth.contains(t) by {
        lemma_in_filter(auth, |u: ToolView| shown(u, chosen), t);
    }
    assert forall|n: Seq<char>| #[trigger] snapshot_of(auth, chosen).deferred.contains(n) implies names_of(auth).contains(n) by {
        let j = choose|j: int| 0 <= j < names_of(def).len() && names_of(def)[j] == n;
        assert(def.contains(def[j]));
        lemma_in_filter(auth, |u: ToolView| held_back(u, chosen), def[j]);
        let k = choose|k: int| 0 <= k < auth.len() && auth[k] == def[j];
        assert(names_of(auth)[k] == n);
    }
}

} // verus!
